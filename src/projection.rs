//! The tree projector: keeps the parts of a document that a selector set
//! names, with their original nesting.

use vstd::prelude::*;

use crate::document::{
    entries_tree, keys_unique, lemma_entries_tree_push, lemma_values_tree_push, values_tree, Document, Tree,
    Value,
};
use crate::normalize::{normalize, simplify_selectors};
use crate::selector::{contains_selector, sub_selectors, sub_selectors_of};

verus! {

/// The projection of an object's entries. An entry whose key is a selector
/// is kept whole; otherwise its value is projected on the sub-selectors that
/// the key implies, and kept when that leaves a non-empty array or object.
pub open spec fn project_object(entries: Seq<(Seq<char>, Tree)>, sel: Seq<Seq<char>>) -> Seq<
    (Seq<char>, Tree),
>
    decreases entries,
{
    if entries.len() == 0 {
        Seq::empty()
    } else {
        let prev = project_object(entries.drop_last(), sel);
        let key = entries.last().0;
        if sel.contains(key) {
            prev.push(entries.last())
        } else {
            let subs = sub_selectors(sel, key);
            if subs.len() == 0 {
                prev
            } else {
                match entries.last().1 {
                    Tree::Array(items) => {
                        let p = project_array(items, subs);
                        if p.len() > 0 {
                            prev.push((key, Tree::Array(p)))
                        } else {
                            prev
                        }
                    },
                    Tree::Object(inner) => {
                        let p = project_object(inner, subs);
                        if p.len() > 0 {
                            prev.push((key, Tree::Object(p)))
                        } else {
                            prev
                        }
                    },
                    _ => prev,
                }
            }
        }
    }
}

/// The projection of an array: each array or object element is projected on
/// the same selectors and kept when non-empty; scalars are dropped.
pub open spec fn project_array(items: Seq<Tree>, sel: Seq<Seq<char>>) -> Seq<Tree>
    decreases items,
{
    if items.len() == 0 {
        Seq::empty()
    } else {
        let prev = project_array(items.drop_last(), sel);
        match items.last() {
            Tree::Array(inner) => {
                let p = project_array(inner, sel);
                if p.len() > 0 {
                    prev.push(Tree::Array(p))
                } else {
                    prev
                }
            },
            Tree::Object(inner) => {
                let p = project_object(inner, sel);
                if p.len() > 0 {
                    prev.push(Tree::Object(p))
                } else {
                    prev
                }
            },
            _ => prev,
        }
    }
}

/// Every key of a projected object is a key of the object it was taken from.
proof fn lemma_project_keys(entries: Seq<(Seq<char>, Tree)>, sel: Seq<Seq<char>>, j: int) -> (i:
    int)
    requires
        0 <= j < project_object(entries, sel).len(),
    ensures
        0 <= i < entries.len(),
        entries[i].0 == project_object(entries, sel)[j].0,
    decreases entries.len(),
{
    let d = entries.drop_last();
    let prev = project_object(d, sel);
    if j < prev.len() {
        assert(project_object(entries, sel)[j] == prev[j]);
        let i = lemma_project_keys(d, sel, j);
        assert(d[i] == entries[i]);
        i
    } else {
        entries.len() - 1
    }
}

/// Projection keeps keys unique.
proof fn lemma_project_unique(entries: Seq<(Seq<char>, Tree)>, sel: Seq<Seq<char>>)
    requires
        keys_unique(entries),
    ensures
        keys_unique(project_object(entries, sel)),
    decreases entries.len(),
{
    if entries.len() > 0 {
        let d = entries.drop_last();
        let prev = project_object(d, sel);
        let r = project_object(entries, sel);
        assert(keys_unique(d)) by {
            assert forall|i: int, j: int| 0 <= i < j < d.len() implies (#[trigger] d[i]).0 != (
            #[trigger] d[j]).0 by {
                assert(d[i] == entries[i] && d[j] == entries[j]);
            }
        }
        lemma_project_unique(d, sel);
        if r != prev {
            assert forall|a: int, b: int| 0 <= a < b < r.len() implies (#[trigger] r[a]).0 != (
            #[trigger] r[b]).0 by {
                if b < prev.len() {
                    assert(r[a] == prev[a] && r[b] == prev[b]);
                } else {
                    assert(r[a] == prev[a]);
                    let i = lemma_project_keys(d, sel, a);
                    assert(d[i] == entries[i]);
                    assert(entries[i].0 != entries[entries.len() - 1].0);
                }
            }
        }
    }
}

/// Builds the projection of `value` on `selectors` (see [`project_object`]).
pub fn create_value(value: &Document, selectors: &Vec<String>) -> (r: Document)
    ensures
        r@ == project_object(value@, selectors.deep_view()),
        value.wf() ==> r.wf(),
    decreases value,
{
    let ghost sel = selectors.deep_view();
    let mut new_value = Document::new();
    let n = value.entries.len();
    let mut i: usize = 0;
    while i < n
        invariant
            n == value.entries.len(),
            i <= n,
            sel == selectors.deep_view(),
            new_value@ == project_object(entries_tree(value.entries@.take(i as int)), sel),
        decreases n - i,
    {
        let ghost es = value.entries@.take(i as int);
        let ghost e = value.entries@[i as int];
        proof {
            assert(value.entries@.take(i + 1) =~= es.push(e));
            lemma_entries_tree_push(es, e);
            assert(entries_tree(es).push((e.0@, e.1.tree())).drop_last() =~= entries_tree(es));
            assert(decreases_to!(value.entries => value.entries@));
            assert(decreases_to!(value.entries@ => e));
            assert(decreases_to!(e => e.1));
        }
        let key = &value.entries[i].0;
        let item = &value.entries[i].1;
        if contains_selector(selectors, key.as_str()) {
            new_value.push_entry(key.clone(), item.deep_clone());
        } else {
            let sub = sub_selectors_of(selectors, key.as_str());
            if sub.len() > 0 {
                match item {
                    Value::Array(array) => {
                        proof {
                            assert(decreases_to!(e.1 => e.1->Array_0));
                        }
                        let array = create_array(array, &sub);
                        if array.len() > 0 {
                            new_value.push_entry(key.clone(), Value::Array(array));
                        }
                    },
                    Value::Object(object) => {
                        proof {
                            assert(decreases_to!(e.1 => e.1->Object_0));
                        }
                        let object = create_value(object, &sub);
                        if !object.is_empty() {
                            new_value.push_entry(key.clone(), Value::Object(object));
                        }
                    },
                    _ => {},
                }
            }
        }
        i += 1;
    }
    assert(value.entries@.take(n as int) =~= value.entries@);
    proof {
        if value.wf() {
            lemma_project_unique(value@, sel);
        }
    }
    new_value
}

/// Builds the projection of `array` on `selectors` (see [`project_array`]).
pub fn create_array(array: &Vec<Value>, selectors: &Vec<String>) -> (r: Vec<Value>)
    ensures
        values_tree(r@) == project_array(values_tree(array@), selectors.deep_view()),
    decreases array,
{
    let ghost sel = selectors.deep_view();
    let mut res: Vec<Value> = Vec::new();
    let n = array.len();
    let mut i: usize = 0;
    while i < n
        invariant
            n == array.len(),
            i <= n,
            sel == selectors.deep_view(),
            values_tree(res@) == project_array(values_tree(array@.take(i as int)), sel),
        decreases n - i,
    {
        let ghost vs = array@.take(i as int);
        let ghost v = array@[i as int];
        proof {
            assert(array@.take(i + 1) =~= vs.push(v));
            lemma_values_tree_push(vs, v);
            assert(values_tree(vs).push(v.tree()).drop_last() =~= values_tree(vs));
            assert(decreases_to!(array => array@));
            assert(decreases_to!(array@ => v));
        }
        match &array[i] {
            Value::Array(inner) => {
                proof {
                    assert(decreases_to!(v => v->Array_0));
                }
                let inner = create_array(inner, selectors);
                if inner.len() > 0 {
                    proof {
                        lemma_values_tree_push(res@, Value::Array(inner));
                    }
                    res.push(Value::Array(inner));
                }
            },
            Value::Object(object) => {
                proof {
                    assert(decreases_to!(v => v->Object_0));
                }
                let object = create_value(object, selectors);
                if !object.is_empty() {
                    proof {
                        lemma_values_tree_push(res@, Value::Object(object));
                    }
                    res.push(Value::Object(object));
                }
            },
            _ => {},
        }
        i += 1;
    }
    assert(array@.take(n as int) =~= array@);
    res
}

/// Selects, permissively, the values of `value` that `selectors` name, and
/// returns them in a new document with their original nesting.
pub fn select_values(value: &Document, selectors: Vec<String>) -> (r: Document)
    ensures
        r@ == project_object(value@, normalize(selectors.deep_view())),
        value.wf() ==> r.wf(),
{
    let selectors = simplify_selectors(selectors);
    create_value(value, &selectors)
}

} // verus!
