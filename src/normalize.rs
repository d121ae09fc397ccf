//! Selector normalization: reduces a selector list to a minimal set in which
//! no selector lies below another.

use vstd::prelude::*;
use vstd::relations::*;
use vstd::seq_lib::lemma_sorted_unique;
use vstd::utf8::char_u32_cast;

use crate::selector::{contained_in, is_descendant};

verus! {

/// Lexicographic order on character sequences, by code point.
pub open spec fn lex_le(a: Seq<char>, b: Seq<char>) -> bool
    decreases a.len(),
{
    if a.len() == 0 {
        true
    } else if b.len() == 0 {
        false
    } else if a[0] != b[0] {
        (a[0] as u32) < (b[0] as u32)
    } else {
        lex_le(a.drop_first(), b.drop_first())
    }
}

/// [`lex_le`] as a relation.
pub open spec fn lex_order() -> spec_fn(Seq<char>, Seq<char>) -> bool {
    |a: Seq<char>, b: Seq<char>| lex_le(a, b)
}

/// Walks `s` in order and keeps each selector that is not a descendant of the
/// last one kept.
pub open spec fn keep_chain(s: Seq<Seq<char>>) -> Seq<Seq<char>>
    decreases s.len(),
{
    if s.len() == 0 {
        Seq::empty()
    } else {
        let r = keep_chain(s.drop_last());
        if r.len() > 0 && is_descendant(s.last(), r.last()) {
            r
        } else {
            r.push(s.last())
        }
    }
}

/// The normalized form of a selector list: sorted, then reduced by
/// [`keep_chain`].
pub open spec fn normalize(s: Seq<Seq<char>>) -> Seq<Seq<char>> {
    keep_chain(s.sort_by(lex_order()))
}

proof fn lemma_lex_reflexive(a: Seq<char>)
    ensures
        lex_le(a, a),
    decreases a.len(),
{
    if a.len() > 0 {
        lemma_lex_reflexive(a.drop_first());
    }
}

proof fn lemma_lex_antisymmetric(a: Seq<char>, b: Seq<char>)
    requires
        lex_le(a, b),
        lex_le(b, a),
    ensures
        a == b,
    decreases a.len(),
{
    if a.len() > 0 && b.len() > 0 {
        lemma_lex_antisymmetric(a.drop_first(), b.drop_first());
        assert(a =~= seq![a[0]] + a.drop_first());
        assert(b =~= seq![b[0]] + b.drop_first());
    } else {
        assert(a =~= b);
    }
}

/// [`lex_le`] is transitive.
pub proof fn lemma_lex_transitive(a: Seq<char>, b: Seq<char>, c: Seq<char>)
    requires
        lex_le(a, b),
        lex_le(b, c),
    ensures
        lex_le(a, c),
    decreases a.len(),
{
    if a.len() > 0 && b.len() > 0 && c.len() > 0 {
        if a[0] == b[0] && b[0] == c[0] {
            lemma_lex_transitive(a.drop_first(), b.drop_first(), c.drop_first());
        }
    }
}

proof fn lemma_lex_connected(a: Seq<char>, b: Seq<char>)
    ensures
        lex_le(a, b) || lex_le(b, a),
    decreases a.len(),
{
    if a.len() > 0 && b.len() > 0 {
        if a[0] == b[0] {
            lemma_lex_connected(a.drop_first(), b.drop_first());
        } else {
            char_u32_cast(a[0], a[0] as u32);
            char_u32_cast(b[0], b[0] as u32);
        }
    }
}

/// [`lex_le`] is a total order.
pub proof fn lemma_lex_total()
    ensures
        total_ordering(lex_order()),
{
    assert forall|a: Seq<char>| #[trigger] lex_order()(a, a) by {
        lemma_lex_reflexive(a);
    }
    assert forall|a: Seq<char>, b: Seq<char>|
        #[trigger] lex_order()(a, b) && #[trigger] lex_order()(b, a) implies a == b by {
        lemma_lex_antisymmetric(a, b);
    }
    assert forall|a: Seq<char>, b: Seq<char>, c: Seq<char>|
        #[trigger] lex_order()(a, b) && #[trigger] lex_order()(b, c) implies lex_order()(a, c) by {
        lemma_lex_transitive(a, b, c);
    }
    assert forall|a: Seq<char>, b: Seq<char>|
        #[trigger] lex_order()(a, b) || #[trigger] lex_order()(b, a) by {
        lemma_lex_connected(a, b);
    }
}

/// Relies on `slice::sort` for `String`s: the result is a permutation of the
/// input, ordered by `Ord for str`, which compares the UTF-8 bytes
/// lexicographically; on valid UTF-8 that is the code-point order.
#[verifier::external_body]
fn sort_strings(v: &mut Vec<String>)
    ensures
        final(v).deep_view().to_multiset() == old(v).deep_view().to_multiset(),
        sorted_by(final(v).deep_view(), lex_order()),
{
    v.sort();
}

/// Reduces `selectors` to a minimal set: sorts them, then drops each one that
/// lies at or below the last one kept. Duplicates collapse to one.
pub fn simplify_selectors(selectors: Vec<String>) -> (r: Vec<String>)
    ensures
        r.deep_view() == normalize(selectors.deep_view()),
{
    let ghost orig = selectors.deep_view();
    let mut selectors = selectors;
    sort_strings(&mut selectors);
    let ghost sorted = selectors.deep_view();
    proof {
        lemma_lex_total();
        orig.lemma_sort_by_ensures(lex_order());
        lemma_sorted_unique(sorted, orig.sort_by(lex_order()), lex_order());
    }
    let mut out: Vec<String> = Vec::new();
    let n = selectors.len();
    let mut i: usize = 0;
    while i < n
        invariant
            n == selectors.len(),
            i <= n,
            sorted == selectors.deep_view(),
            out.deep_view() == keep_chain(sorted.take(i as int)),
        decreases n - i,
    {
        assert(sorted.take(i + 1).drop_last() =~= sorted.take(i as int));
        let keep = if out.len() > 0 {
            !contained_in(selectors[i].as_str(), out[out.len() - 1].as_str())
        } else {
            true
        };
        if keep {
            let s = selectors[i].clone();
            out.push(s);
            assert(out.deep_view() =~= keep_chain(sorted.take(i as int)).push(sorted[i as int]));
        }
        i += 1;
    }
    assert(sorted.take(n as int) =~= sorted);
    out
}

} // verus!
