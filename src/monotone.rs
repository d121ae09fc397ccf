//! Adding selectors never takes away what projection already selected.

use vstd::prelude::*;

use crate::document::Tree;
use crate::projection::{project_array, project_object};
use crate::selector::{is_descendant, sub_selectors};

verus! {

/// `t` is contained in `u`: the two are equal, or both are objects and each
/// entry of `t` is contained in an entry of `u` with the same key, or both are
/// arrays and each element of `t` is contained in an element of `u`.
pub open spec fn tree_within(t: Tree, u: Tree) -> bool
    decreases t,
{
    if t == u {
        true
    } else {
        match t {
            Tree::Object(te) => match u {
                Tree::Object(ue) => entries_within(te, ue),
                _ => false,
            },
            Tree::Array(ta) => match u {
                Tree::Array(ua) => items_within(ta, ua),
                _ => false,
            },
            _ => false,
        }
    }
}

/// Each entry of `te` is contained in an entry of `ue` with the same key.
pub open spec fn entries_within(te: Seq<(Seq<char>, Tree)>, ue: Seq<(Seq<char>, Tree)>) -> bool
    decreases te,
{
    if te.len() == 0 {
        true
    } else {
        &&& entries_within(te.drop_last(), ue)
        &&& exists|j: int|
            0 <= j < ue.len() && (#[trigger] ue[j]).0 == te.last().0 && tree_within(
                te.last().1,
                ue[j].1,
            )
    }
}

/// Each element of `ta` is contained in an element of `ua`.
pub open spec fn items_within(ta: Seq<Tree>, ua: Seq<Tree>) -> bool
    decreases ta,
{
    if ta.len() == 0 {
        true
    } else {
        &&& items_within(ta.drop_last(), ua)
        &&& exists|j: int| 0 <= j < ua.len() && tree_within(ta.last(), #[trigger] ua[j])
    }
}

proof fn lemma_entries_within_grow(
    te: Seq<(Seq<char>, Tree)>,
    ue: Seq<(Seq<char>, Tree)>,
    x: (Seq<char>, Tree),
)
    requires
        entries_within(te, ue),
    ensures
        entries_within(te, ue.push(x)),
    decreases te.len(),
{
    if te.len() > 0 {
        lemma_entries_within_grow(te.drop_last(), ue, x);
        let j = choose|j: int|
            0 <= j < ue.len() && (#[trigger] ue[j]).0 == te.last().0 && tree_within(
                te.last().1,
                ue[j].1,
            );
        assert(ue.push(x)[j] == ue[j]);
    }
}

proof fn lemma_items_within_grow(ta: Seq<Tree>, ua: Seq<Tree>, x: Tree)
    requires
        items_within(ta, ua),
    ensures
        items_within(ta, ua.push(x)),
    decreases ta.len(),
{
    if ta.len() > 0 {
        lemma_items_within_grow(ta.drop_last(), ua, x);
        let j = choose|j: int| 0 <= j < ua.len() && tree_within(ta.last(), #[trigger] ua[j]);
        assert(ua.push(x)[j] == ua[j]);
    }
}

/// Every sub-selector comes from a selector strictly below the key.
proof fn lemma_sub_selector_source(sel: Seq<Seq<char>>, k: Seq<char>, y: Seq<char>) -> (i: int)
    requires
        sub_selectors(sel, k).contains(y),
    ensures
        0 <= i < sel.len(),
        is_descendant(sel[i], k),
        sel[i].len() > k.len(),
        y == sel[i].subrange(k.len() + 1int, sel[i].len() as int),
    decreases sel.len(),
{
    let prev = sub_selectors(sel.drop_last(), k);
    let x = sel.last();
    if is_descendant(x, k) && x.len() > k.len() && y == x.subrange(
        k.len() + 1int,
        x.len() as int,
    ) {
        sel.len() - 1
    } else {
        if is_descendant(x, k) && x.len() > k.len() {
            let j = choose|j: int|
                0 <= j < sub_selectors(sel, k).len() && sub_selectors(sel, k)[j] == y;
            assert(j < prev.len());
            assert(prev[j] == y);
        }
        let i = lemma_sub_selector_source(sel.drop_last(), k, y);
        assert(sel.drop_last()[i] == sel[i]);
        i
    }
}

/// A selector strictly below the key gives its sub-selector.
proof fn lemma_sub_selector_present(sel: Seq<Seq<char>>, k: Seq<char>, i: int)
    requires
        0 <= i < sel.len(),
        is_descendant(sel[i], k),
        sel[i].len() > k.len(),
    ensures
        sub_selectors(sel, k).contains(sel[i].subrange(k.len() + 1int, sel[i].len() as int)),
    decreases sel.len(),
{
    let r = sub_selectors(sel, k);
    let y = sel[i].subrange(k.len() + 1int, sel[i].len() as int);
    if i == sel.len() - 1 {
        assert(r[r.len() - 1] == y);
    } else {
        assert(sel.drop_last()[i] == sel[i]);
        lemma_sub_selector_present(sel.drop_last(), k, i);
        let prev = sub_selectors(sel.drop_last(), k);
        let j = choose|j: int| 0 <= j < prev.len() && prev[j] == y;
        assert(r[j] == y);
    }
}

/// More selectors give more sub-selectors.
proof fn lemma_sub_selectors_grow(s1: Seq<Seq<char>>, s2: Seq<Seq<char>>, k: Seq<char>)
    requires
        forall|x: Seq<char>| s1.contains(x) ==> s2.contains(x),
    ensures
        forall|y: Seq<char>|
            sub_selectors(s1, k).contains(y) ==> #[trigger] sub_selectors(s2, k).contains(y),
{
    assert forall|y: Seq<char>| sub_selectors(s1, k).contains(y) implies #[trigger] sub_selectors(
        s2,
        k,
    ).contains(y) by {
        let i = lemma_sub_selector_source(s1, k, y);
        assert(s1.contains(s1[i]));
        let j = choose|j: int| 0 <= j < s2.len() && s2[j] == s1[i];
        lemma_sub_selector_present(s2, k, j);
    }
}

/// A projected object lies within the object it was taken from.
proof fn lemma_object_within_source(entries: Seq<(Seq<char>, Tree)>, sel: Seq<Seq<char>>)
    ensures
        entries_within(project_object(entries, sel), entries),
    decreases entries, 1int,
{
    if entries.len() > 0 {
        let d = entries.drop_last();
        let prev = project_object(d, sel);
        let r = project_object(entries, sel);
        let last = entries.last();
        let n = entries.len() - 1;
        lemma_object_within_source(d, sel);
        assert(d.push(last) =~= entries);
        lemma_entries_within_grow(prev, d, last);
        if r != prev {
            assert(r.drop_last() =~= prev);
            assert(entries[n] == last);
            if !sel.contains(last.0) {
                let subs = sub_selectors(sel, last.0);
                match last.1 {
                    Tree::Array(items) => {
                        lemma_array_within_source(items, subs);
                    },
                    Tree::Object(inner) => {
                        lemma_object_within_source(inner, subs);
                    },
                    _ => {},
                }
            }
            assert(tree_within(r.last().1, entries[n].1));
            assert(entries[n].0 == r.last().0);
        }
    }
}

/// A projected array lies within the array it was taken from.
proof fn lemma_array_within_source(items: Seq<Tree>, sel: Seq<Seq<char>>)
    ensures
        items_within(project_array(items, sel), items),
    decreases items, 1int,
{
    if items.len() > 0 {
        let d = items.drop_last();
        let prev = project_array(d, sel);
        let r = project_array(items, sel);
        let last = items.last();
        let n = items.len() - 1;
        lemma_array_within_source(d, sel);
        assert(d.push(last) =~= items);
        lemma_items_within_grow(prev, d, last);
        if r != prev {
            assert(r.drop_last() =~= prev);
            assert(items[n] == last);
            match last {
                Tree::Array(inner) => {
                    lemma_array_within_source(inner, sel);
                },
                Tree::Object(inner) => {
                    lemma_object_within_source(inner, sel);
                },
                _ => {},
            }
            assert(tree_within(r.last(), items[n]));
        }
    }
}

proof fn lemma_object_monotone(
    entries: Seq<(Seq<char>, Tree)>,
    s1: Seq<Seq<char>>,
    s2: Seq<Seq<char>>,
)
    requires
        forall|x: Seq<char>| s1.contains(x) ==> #[trigger] s2.contains(x),
    ensures
        entries_within(project_object(entries, s1), project_object(entries, s2)),
    decreases entries,
{
    if entries.len() > 0 {
        let d = entries.drop_last();
        let prev1 = project_object(d, s1);
        let prev2 = project_object(d, s2);
        let r1 = project_object(entries, s1);
        let r2 = project_object(entries, s2);
        let last = entries.last();
        let k = last.0;
        lemma_object_monotone(d, s1, s2);
        if r2 != prev2 {
            lemma_entries_within_grow(prev1, prev2, r2.last());
            assert(prev2.push(r2.last()) =~= r2);
        }
        if r1 != prev1 {
            assert(r1.drop_last() =~= prev1);
            if !s1.contains(k) {
                let subs1 = sub_selectors(s1, k);
                let subs2 = sub_selectors(s2, k);
                if !s2.contains(k) {
                    lemma_sub_selectors_grow(s1, s2, k);
                    assert(subs1.contains(subs1[0]));
                    assert(subs2.contains(subs1[0]));
                }
                match last.1 {
                    Tree::Array(items) => {
                        let p1 = project_array(items, subs1);
                        if s2.contains(k) {
                            lemma_array_within_source(items, subs1);
                        } else {
                            lemma_array_monotone(items, subs1, subs2);
                            let p2 = project_array(items, subs2);
                            assert(p1.len() > 0);
                            assert(p2.len() > 0);
                            assert(tree_within(Tree::Array(p1), Tree::Array(p2)));
                        }
                    },
                    Tree::Object(inner) => {
                        let p1 = project_object(inner, subs1);
                        if s2.contains(k) {
                            lemma_object_within_source(inner, subs1);
                        } else {
                            lemma_object_monotone(inner, subs1, subs2);
                            let p2 = project_object(inner, subs2);
                            assert(p1.len() > 0);
                            assert(p2.len() > 0);
                            assert(tree_within(Tree::Object(p1), Tree::Object(p2)));
                        }
                    },
                    _ => {},
                }
            }
            assert(r2 != prev2);
            let n = r2.len() - 1;
            assert(r2[n] == r2.last());
            assert(r2[n].0 == r1.last().0 && tree_within(r1.last().1, r2[n].1));
        }
    }
}

proof fn lemma_array_monotone(items: Seq<Tree>, s1: Seq<Seq<char>>, s2: Seq<Seq<char>>)
    requires
        forall|x: Seq<char>| s1.contains(x) ==> #[trigger] s2.contains(x),
    ensures
        items_within(project_array(items, s1), project_array(items, s2)),
    decreases items,
{
    if items.len() > 0 {
        let d = items.drop_last();
        let prev1 = project_array(d, s1);
        let prev2 = project_array(d, s2);
        let r1 = project_array(items, s1);
        let r2 = project_array(items, s2);
        let last = items.last();
        lemma_array_monotone(d, s1, s2);
        if r2 != prev2 {
            lemma_items_within_grow(prev1, prev2, r2.last());
            assert(prev2.push(r2.last()) =~= r2);
        }
        if r1 != prev1 {
            assert(r1.drop_last() =~= prev1);
            match last {
                Tree::Array(inner) => {
                    lemma_array_monotone(inner, s1, s2);
                    let p1 = project_array(inner, s1);
                    let p2 = project_array(inner, s2);
                    assert(p1.len() > 0);
                    assert(p2.len() > 0);
                    assert(tree_within(Tree::Array(p1), Tree::Array(p2)));
                },
                Tree::Object(inner) => {
                    lemma_object_monotone(inner, s1, s2);
                    let p1 = project_object(inner, s1);
                    let p2 = project_object(inner, s2);
                    assert(p1.len() > 0);
                    assert(p2.len() > 0);
                    assert(tree_within(Tree::Object(p1), Tree::Object(p2)));
                },
                _ => {},
            }
            assert(r2 != prev2);
            let n = r2.len() - 1;
            assert(r2[n] == r2.last());
            assert(tree_within(r1.last(), r2[n]));
        }
    }
}

/// Adding selectors never takes away selected content: every entry of the
/// projection on `s1` lies within an entry, with the same key, of the
/// projection on `s1` together with `s2`.
pub proof fn lemma_projection_monotone(
    entries: Seq<(Seq<char>, Tree)>,
    s1: Seq<Seq<char>>,
    s2: Seq<Seq<char>>,
)
    ensures
        entries_within(project_object(entries, s1), project_object(entries, s1 + s2)),
{
    assert forall|x: Seq<char>| s1.contains(x) implies #[trigger] (s1 + s2).contains(x) by {
        let i = choose|i: int| 0 <= i < s1.len() && s1[i] == x;
        assert((s1 + s2)[i] == x);
    }
    lemma_object_monotone(entries, s1, s1 + s2);
}

} // verus!
