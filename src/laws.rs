//! What holds of normalization and projection for all inputs.

use vstd::prelude::*;
use vstd::relations::*;
use vstd::seq_lib::*;

use crate::document::Tree;
use crate::normalize::{keep_chain, lemma_lex_total, lemma_lex_transitive, lex_le, lex_order, normalize};
use crate::projection::{project_array, project_object};
use crate::selector::{is_descendant, spec_is_simple, sub_selectors, SPLIT_SYMBOL};

verus! {

/// No selector of `s` lies at or below the one just before it.
pub open spec fn no_adjacent_descendant(s: Seq<Seq<char>>) -> bool {
    forall|i: int| 0 <= i < s.len() - 1 ==> !is_descendant(#[trigger] s[i + 1], s[i])
}

proof fn lemma_keep_chain_adjacent(s: Seq<Seq<char>>)
    ensures
        no_adjacent_descendant(keep_chain(s)),
    decreases s.len(),
{
    if s.len() > 0 {
        lemma_keep_chain_adjacent(s.drop_last());
        let r = keep_chain(s.drop_last());
        if !(r.len() > 0 && is_descendant(s.last(), r.last())) {
            let q = r.push(s.last());
            assert forall|i: int| 0 <= i < q.len() - 1 implies !is_descendant(
                #[trigger] q[i + 1],
                q[i],
            ) by {
                if i < r.len() - 1 {
                    assert(q[i + 1] == r[i + 1]);
                }
            }
        }
    }
}

proof fn lemma_keep_chain_fixed(s: Seq<Seq<char>>)
    requires
        no_adjacent_descendant(s),
    ensures
        keep_chain(s) == s,
    decreases s.len(),
{
    if s.len() > 0 {
        let d = s.drop_last();
        assert(no_adjacent_descendant(d)) by {
            assert forall|i: int| 0 <= i < d.len() - 1 implies !is_descendant(
                #[trigger] d[i + 1],
                d[i],
            ) by {
                assert(d[i + 1] == s[i + 1]);
            }
        }
        lemma_keep_chain_fixed(d);
        if s.len() > 1 {
            let i = s.len() - 2;
            assert(!is_descendant(s[i + 1], s[i]));
        }
        assert(d.push(s.last()) =~= s);
    }
}

proof fn lemma_keep_chain_sorted(s: Seq<Seq<char>>)
    requires
        sorted_by(s, lex_order()),
    ensures
        sorted_by(keep_chain(s), lex_order()),
        s.len() > 0 ==> forall|j: int|
            0 <= j < keep_chain(s).len() ==> lex_le(#[trigger] keep_chain(s)[j], s.last()),
    decreases s.len(),
{
    lemma_lex_total();
    if s.len() > 0 {
        let d = s.drop_last();
        lemma_keep_chain_sorted(d);
        let r = keep_chain(d);
        assert(lex_order()(s.last(), s.last()));
        if d.len() > 0 {
            assert(lex_order()(d.last(), s.last()));
            assert forall|j: int| 0 <= j < r.len() implies lex_le(#[trigger] r[j], s.last()) by {
                assert(lex_order()(r[j], d.last()));
            }
        }
        if !(r.len() > 0 && is_descendant(s.last(), r.last())) {
            let q = r.push(s.last());
            assert forall|i: int, j: int| 0 <= i < j < q.len() implies #[trigger] lex_order()(
                q[i],
                q[j],
            ) by {
                if j < r.len() {
                    assert(lex_order()(r[i], r[j]));
                }
            }
        }
    }
}

/// Normalizing twice gives what normalizing once gives.
pub proof fn lemma_normalize_idempotent(s: Seq<Seq<char>>)
    ensures
        normalize(normalize(s)) == normalize(s),
{
    lemma_lex_total();
    s.lemma_sort_by_ensures(lex_order());
    let n = normalize(s);
    lemma_keep_chain_sorted(s.sort_by(lex_order()));
    n.lemma_sort_by_ensures(lex_order());
    lemma_sorted_unique(n.sort_by(lex_order()), n, lex_order());
    lemma_keep_chain_adjacent(s.sort_by(lex_order()));
    lemma_keep_chain_fixed(n);
}

proof fn lemma_prefix_lex(a: Seq<char>, b: Seq<char>)
    requires
        a.is_prefix_of(b),
    ensures
        lex_le(a, b),
    decreases a.len(),
{
    if a.len() > 0 {
        assert(a.drop_first().is_prefix_of(b.drop_first())) by {
            assert(a.drop_first() =~= b.drop_first().subrange(0, a.len() - 1));
        }
        assert(a[0] == b.subrange(0, a.len() as int)[0]);
        lemma_prefix_lex(a.drop_first(), b.drop_first());
    }
}

/// A selector and one at or below it normalize, in either order, to the
/// first alone.
pub proof fn lemma_normalize_subsumes(a: Seq<char>, b: Seq<char>)
    requires
        is_descendant(b, a),
    ensures
        normalize(seq![a, b]) == seq![a],
        normalize(seq![b, a]) == seq![a],
{
    broadcast use group_to_multiset_ensures;

    lemma_lex_total();
    lemma_prefix_lex(a, b);
    let ab = seq![a, b];
    let ba = seq![b, a];
    assert(sorted_by(ab, lex_order())) by {
        assert forall|i: int, j: int| 0 <= i < j < ab.len() implies #[trigger] lex_order()(
            ab[i],
            ab[j],
        ) by {
            assert(i == 0 && j == 1);
        }
    }
    assert(ab.to_multiset() =~= ba.to_multiset()) by {
        assert(ab =~= seq![a].push(b));
        assert(ba =~= seq![b].push(a));
        assert(seq![a] =~= Seq::<Seq<char>>::empty().push(a));
        assert(seq![b] =~= Seq::<Seq<char>>::empty().push(b));
    }
    ab.lemma_sort_by_ensures(lex_order());
    ba.lemma_sort_by_ensures(lex_order());
    lemma_sorted_unique(ab.sort_by(lex_order()), ab, lex_order());
    lemma_sorted_unique(ba.sort_by(lex_order()), ab, lex_order());
    assert(ab.drop_last() =~= seq![a]);
    assert(seq![a].drop_last() =~= Seq::<Seq<char>>::empty());
    assert(keep_chain(Seq::<Seq<char>>::empty()) =~= Seq::<Seq<char>>::empty());
    assert(Seq::<Seq<char>>::empty().push(a) =~= seq![a]);
    assert(keep_chain(seq![a]) =~= seq![a]);
}

proof fn lemma_sub_selectors_push(sel: Seq<Seq<char>>, x: Seq<char>, k: Seq<char>)
    ensures
        sub_selectors(sel.push(x), k) == (if is_descendant(x, k) && x.len() > k.len() {
            sub_selectors(sel, k).push(x.subrange(k.len() + 1int, x.len() as int))
        } else {
            sub_selectors(sel, k)
        }),
{
    assert(sel.push(x).drop_last() =~= sel);
}

/// A key above `b`, where `b` lies strictly below the simple selector `a`, is
/// `a` itself or lies strictly below `a`.
proof fn lemma_simple_ancestor(a: Seq<char>, b: Seq<char>, k: Seq<char>)
    requires
        spec_is_simple(a),
        is_descendant(b, a),
        b.len() > a.len(),
        is_descendant(b, k),
        b.len() > k.len(),
    ensures
        k == a || (is_descendant(k, a) && k.len() > a.len()),
{
    assert forall|j: int| 0 <= j < a.len() implies a[j] == b[j] by {
        assert(a[j] == b.subrange(0, a.len() as int)[j]);
    }
    assert forall|j: int| 0 <= j < k.len() implies k[j] == b[j] by {
        assert(k[j] == b.subrange(0, k.len() as int)[j]);
    }
    if k.len() < a.len() {
        assert(a[k.len() as int] == SPLIT_SYMBOL);
        assert(a.contains(SPLIT_SYMBOL));
    } else if k.len() == a.len() {
        assert(k =~= a);
    } else {
        assert(a =~= k.subrange(0, a.len() as int));
    }
}

/// Adding a selector `b` that lies strictly below a simple selector `a`
/// already present changes no projection, on any object that has no literal
/// key strictly below `a`.
pub proof fn lemma_ancestor_dominance(
    entries: Seq<(Seq<char>, Tree)>,
    sel: Seq<Seq<char>>,
    a: Seq<char>,
    b: Seq<char>,
)
    requires
        sel.contains(a),
        spec_is_simple(a),
        is_descendant(b, a),
        b.len() > a.len(),
        forall|i: int|
            0 <= i < entries.len() ==> !(is_descendant(#[trigger] entries[i].0, a)
                && entries[i].0.len() > a.len()),
    ensures
        project_object(entries, sel.push(b)) == project_object(entries, sel),
    decreases entries.len(),
{
    if entries.len() > 0 {
        let d = entries.drop_last();
        assert forall|i: int| 0 <= i < d.len() implies !(is_descendant(#[trigger] d[i].0, a)
            && d[i].0.len() > a.len()) by {
            assert(d[i] == entries[i]);
        }
        lemma_ancestor_dominance(d, sel, a, b);
        let k = entries.last().0;
        assert(entries.last() == entries[entries.len() - 1]);
        assert(k != b);
        assert(sel.push(b).contains(k) == sel.contains(k)) by {
            if sel.contains(k) {
                let j = choose|j: int| 0 <= j < sel.len() && sel[j] == k;
                assert(sel.push(b)[j] == k);
            }
            if sel.push(b).contains(k) {
                let j = choose|j: int| 0 <= j < sel.push(b).len() && sel.push(b)[j] == k;
                assert(sel[j] == k);
            }
        }
        lemma_sub_selectors_push(sel, b, k);
        if is_descendant(b, k) && b.len() > k.len() {
            lemma_simple_ancestor(a, b, k);
        }
    }
}

/// A key that is itself a selector comes out with its value untouched,
/// whatever separators the key holds.
pub proof fn lemma_literal_key_kept(entries: Seq<(Seq<char>, Tree)>, sel: Seq<Seq<char>>, i: int)
    requires
        0 <= i < entries.len(),
        sel.contains(entries[i].0),
    ensures
        project_object(entries, sel).contains(entries[i]),
    decreases entries.len(),
{
    let r = project_object(entries, sel);
    if i == entries.len() - 1 {
        assert(r.last() == entries[i]);
    } else {
        let d = entries.drop_last();
        assert(d[i] == entries[i]);
        lemma_literal_key_kept(d, sel, i);
        let p = project_object(d, sel);
        let j = choose|j: int| 0 <= j < p.len() && p[j] == entries[i];
        assert(r[j] == entries[i]);
    }
}

/// An array or object with at least one element.
pub open spec fn is_nonempty_container(t: Tree) -> bool {
    match t {
        Tree::Array(items) => items.len() > 0,
        Tree::Object(entries) => entries.len() > 0,
        _ => false,
    }
}

/// In a projected object, every entry is either copied whole because its key
/// is a selector, or holds a non-empty array or object: what projection
/// empties is left out.
pub proof fn lemma_object_pruned(entries: Seq<(Seq<char>, Tree)>, sel: Seq<Seq<char>>)
    ensures
        forall|j: int|
            0 <= j < project_object(entries, sel).len() ==> sel.contains(
                (#[trigger] project_object(entries, sel)[j]).0,
            ) || is_nonempty_container(project_object(entries, sel)[j].1),
    decreases entries.len(),
{
    if entries.len() > 0 {
        let prev = project_object(entries.drop_last(), sel);
        let r = project_object(entries, sel);
        lemma_object_pruned(entries.drop_last(), sel);
        assert forall|j: int| 0 <= j < r.len() implies sel.contains((#[trigger] r[j]).0)
            || is_nonempty_container(r[j].1) by {
            if j < prev.len() {
                assert(r[j] == prev[j]);
            }
        }
    }
}

/// A projected array holds only non-empty arrays and objects: elements that
/// projection empties, and scalars, are left out.
pub proof fn lemma_array_pruned(items: Seq<Tree>, sel: Seq<Seq<char>>)
    ensures
        forall|j: int|
            0 <= j < project_array(items, sel).len() ==> is_nonempty_container(
                #[trigger] project_array(items, sel)[j],
            ),
    decreases items.len(),
{
    if items.len() > 0 {
        let prev = project_array(items.drop_last(), sel);
        let r = project_array(items, sel);
        lemma_array_pruned(items.drop_last(), sel);
        assert forall|j: int| 0 <= j < r.len() implies is_nonempty_container(#[trigger] r[j]) by {
            if j < prev.len() {
                assert(r[j] == prev[j]);
            }
        }
    }
}

proof fn lemma_keep_chain_covers(s: Seq<Seq<char>>)
    ensures
        forall|j: int| 0 <= j < keep_chain(s).len() ==> s.contains(#[trigger] keep_chain(s)[j]),
        forall|k: int|
            #![trigger s[k]]
            0 <= k < s.len() ==> exists|j: int|
                0 <= j < keep_chain(s).len() && is_descendant(s[k], #[trigger] keep_chain(s)[j]),
    decreases s.len(),
{
    if s.len() > 0 {
        let d = s.drop_last();
        let r = keep_chain(d);
        let q = keep_chain(s);
        lemma_keep_chain_covers(d);
        assert forall|j: int| 0 <= j < q.len() implies s.contains(#[trigger] q[j]) by {
            if j < r.len() {
                assert(q[j] == r[j]);
                let k = choose|k: int| 0 <= k < d.len() && d[k] == r[j];
                assert(s[k] == d[k]);
            } else {
                assert(s[s.len() - 1] == q[j]);
            }
        }
        assert forall|k: int| #![trigger s[k]] 0 <= k < s.len() implies exists|j: int|
            0 <= j < q.len() && is_descendant(s[k], #[trigger] q[j]) by {
            if k < d.len() {
                assert(s[k] == d[k]);
                let j = choose|j: int| 0 <= j < r.len() && is_descendant(d[k], #[trigger] r[j]);
                assert(q[j] == r[j]);
            } else if q != r {
                assert(q[q.len() - 1] == s[k]);
                assert(s[k].is_prefix_of(s[k]));
            } else {
                assert(q[r.len() - 1] == r.last());
            }
        }
    }
}

/// Normalization keeps only selectors of the input, and every input selector
/// lies at or below a kept one.
pub proof fn lemma_normalize_covers(s: Seq<Seq<char>>)
    ensures
        forall|j: int| 0 <= j < normalize(s).len() ==> s.contains(#[trigger] normalize(s)[j]),
        forall|k: int|
            #![trigger s[k]]
            0 <= k < s.len() ==> exists|j: int|
                0 <= j < normalize(s).len() && is_descendant(s[k], #[trigger] normalize(s)[j]),
{
    broadcast use group_to_multiset_ensures;

    lemma_lex_total();
    s.lemma_sort_by_ensures(lex_order());
    let t = s.sort_by(lex_order());
    lemma_keep_chain_covers(t);
    let n = normalize(s);
    assert forall|j: int| 0 <= j < n.len() implies s.contains(#[trigger] n[j]) by {
        assert(t.contains(n[j]));
    }
    assert forall|k: int| #![trigger s[k]] 0 <= k < s.len() implies exists|j: int|
        0 <= j < n.len() && is_descendant(s[k], #[trigger] n[j]) by {
        assert(s.to_multiset().count(s[k]) > 0);
        assert(t.contains(s[k]));
        let m = choose|m: int| 0 <= m < t.len() && t[m] == s[k];
        let j = choose|j: int| 0 <= j < n.len() && is_descendant(t[m], #[trigger] n[j]);
    }
}

/// No character of any selector sorts below the separator.
pub open spec fn separator_sorts_first(s: Seq<Seq<char>>) -> bool {
    forall|i: int, p: int|
        0 <= i < s.len() && 0 <= p < s[i].len() ==> (#[trigger] s[i][p] as u32) >= (
        SPLIT_SYMBOL as u32)
}

/// A sequence that sorts between `a` and a descendant of `a` is itself a
/// descendant of `a`, when none of its characters sorts below the separator.
proof fn lemma_between_descendant(a: Seq<char>, z: Seq<char>, x: Seq<char>)
    requires
        is_descendant(x, a),
        lex_le(a, z),
        lex_le(z, x),
        forall|p: int| 0 <= p < z.len() ==> (#[trigger] z[p] as u32) >= (SPLIT_SYMBOL as u32),
    ensures
        is_descendant(z, a),
    decreases a.len(),
{
    if a.len() == 0 {
        if z.len() > 0 {
            assert(x.len() > 0);
            assert(z[0] as u32 >= SPLIT_SYMBOL as u32);
            assert(z.subrange(0, 0) =~= a);
        } else {
            assert(z =~= a);
        }
    } else {
        assert(x[0] == x.subrange(0, a.len() as int)[0]);
        assert(z.len() > 0);
        assert(z[0] == a[0]);
        let (a1, z1, x1) = (a.drop_first(), z.drop_first(), x.drop_first());
        assert(a1 =~= x1.subrange(0, a1.len() as int)) by {
            assert forall|p: int| 0 <= p < a1.len() implies a1[p] == x1[p] by {
                assert(a[p + 1] == x.subrange(0, a.len() as int)[p + 1]);
            }
        }
        assert forall|p: int| 0 <= p < z1.len() implies (#[trigger] z1[p] as u32) >= (
        SPLIT_SYMBOL as u32) by {
            assert(z1[p] == z[p + 1]);
        }
        lemma_between_descendant(a1, z1, x1);
        assert(a =~= z.subrange(0, a.len() as int)) by {
            assert forall|p: int| 0 <= p < a.len() implies a[p] == z[p] by {
                if p > 0 {
                    assert(a1[p - 1] == z1.subrange(0, a1.len() as int)[p - 1]);
                }
            }
        }
        if z.len() != a.len() {
            assert(z[a.len() as int] == z1[a1.len() as int]);
        }
    }
}

proof fn lemma_keep_chain_minimal(s: Seq<Seq<char>>)
    requires
        sorted_by(s, lex_order()),
        separator_sorts_first(s),
    ensures
        forall|i: int, j: int|
            0 <= i < j < keep_chain(s).len() ==> !is_descendant(
                #[trigger] keep_chain(s)[j],
                #[trigger] keep_chain(s)[i],
            ),
    decreases s.len(),
{
    if s.len() > 0 {
        let d = s.drop_last();
        let r = keep_chain(d);
        let q = keep_chain(s);
        let x = s.last();
        assert(sorted_by(d, lex_order()));
        assert(separator_sorts_first(d)) by {
            assert forall|i: int, p: int| 0 <= i < d.len() && 0 <= p < d[i].len() implies (
            #[trigger] d[i][p] as u32) >= (SPLIT_SYMBOL as u32) by {
                assert(d[i] == s[i]);
            }
        }
        lemma_keep_chain_minimal(d);
        if q != r && r.len() > 0 {
            lemma_keep_chain_sorted(d);
            lemma_keep_chain_covers(d);
            let m = r.len() - 1;
            let z = r[m];
            assert(lex_le(z, d.last()));
            assert(lex_order()(s[s.len() - 2], s[s.len() - 1]));
            lemma_lex_transitive(z, d.last(), x);
            assert(d.contains(z));
            let k = choose|k: int| 0 <= k < d.len() && d[k] == z;
            assert forall|p: int| 0 <= p < z.len() implies (#[trigger] z[p] as u32) >= (
            SPLIT_SYMBOL as u32) by {
                assert(d[k][p] == z[p]);
            }
            assert forall|i: int, j: int| 0 <= i < j < q.len() implies !is_descendant(
                #[trigger] q[j],
                #[trigger] q[i],
            ) by {
                if j < r.len() {
                    assert(q[i] == r[i] && q[j] == r[j]);
                } else if i < m {
                    assert(q[i] == r[i]);
                    assert(q[j] == x);
                    assert(lex_order()(r[i], r[m]));
                    assert(!is_descendant(r[m], r[i]));
                    lemma_no_skip(r[i], z, x);
                } else {
                    assert(q[i] == r.last());
                }
            }
        }
    }
}

proof fn lemma_no_skip(a: Seq<char>, z: Seq<char>, x: Seq<char>)
    requires
        lex_le(a, z),
        lex_le(z, x),
        forall|p: int| 0 <= p < z.len() ==> (#[trigger] z[p] as u32) >= (SPLIT_SYMBOL as u32),
        !is_descendant(z, a),
    ensures
        !is_descendant(x, a),
{
    if is_descendant(x, a) {
        lemma_between_descendant(a, z, x);
    }
}

/// When no selector holds a character that sorts below the separator, no
/// selector that normalization keeps lies at or below another one it keeps.
pub proof fn lemma_normalize_minimal(s: Seq<Seq<char>>)
    requires
        separator_sorts_first(s),
    ensures
        forall|i: int, j: int|
            0 <= i < normalize(s).len() && 0 <= j < normalize(s).len() && i != j
                ==> !is_descendant(#[trigger] normalize(s)[j], #[trigger] normalize(s)[i]),
{
    broadcast use group_to_multiset_ensures;

    lemma_lex_total();
    s.lemma_sort_by_ensures(lex_order());
    let t = s.sort_by(lex_order());
    let n = normalize(s);
    assert(separator_sorts_first(t)) by {
        assert forall|i: int, p: int| 0 <= i < t.len() && 0 <= p < t[i].len() implies (
        #[trigger] t[i][p] as u32) >= (SPLIT_SYMBOL as u32) by {
            assert(t.contains(t[i]));
            assert(t.to_multiset().count(t[i]) > 0);
            assert(s.contains(t[i]));
            let k = choose|k: int| 0 <= k < s.len() && s[k] == t[i];
            assert(s[k][p] == t[i][p]);
        }
    }
    lemma_keep_chain_minimal(t);
    lemma_keep_chain_sorted(t);
    assert forall|i: int, j: int|
        0 <= i < n.len() && 0 <= j < n.len() && i != j implies !is_descendant(
        #[trigger] n[j],
        #[trigger] n[i],
    ) by {
        if j < i {
            assert(lex_order()(n[j], n[i]));
            if is_descendant(n[j], n[i]) {
                lemma_prefix_lex(n[i], n[j]);
                assert(lex_order()(n[i], n[j]));
                assert(n[i] == n[j]);
                assert(!is_descendant(n[i], n[j]));
                assert(n[j].is_prefix_of(n[j]));
            }
        }
    }
}

} // verus!
