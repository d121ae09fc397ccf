//! Permissive field projection over JSON-like documents.
//!
//! A caller hands over a document and a list of dot-separated selectors; the
//! library keeps the selected fields, with their original nesting, and
//! filters each array element on its own.

mod document;
mod laws;
mod monotone;
mod normalize;
mod projection;
mod selector;

pub use document::{entries_insert, entries_tree, keys_unique, values_tree, Document, Tree, Value};
pub use normalize::{keep_chain, lemma_lex_total, lemma_lex_transitive, lex_le, lex_order, normalize, simplify_selectors};
pub use projection::{create_array, create_value, project_array, project_object, select_values};
pub use selector::{
    contained_in, contains_selector, is_descendant, is_simple, spec_is_simple, sub_selectors, sub_selectors_of,
    SPLIT_SYMBOL,
};
pub use laws::{
    is_nonempty_container, lemma_ancestor_dominance, lemma_array_pruned, lemma_literal_key_kept,
    lemma_normalize_covers, lemma_normalize_idempotent, lemma_normalize_minimal,
    lemma_normalize_subsumes, lemma_object_pruned, no_adjacent_descendant, separator_sorts_first,
};
pub use monotone::{entries_within, items_within, lemma_projection_monotone, tree_within};
