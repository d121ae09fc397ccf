//! Selectors: dot-separated paths, and the descendant relation between them.

use vstd::prelude::*;
use vstd::string::*;

verus! {

/// The only structural separator inside a selector.
pub const SPLIT_SYMBOL: char = '.';

/// `candidate` lies at or below `ancestor`: `ancestor` is a prefix of it and
/// either the two are equal or the prefix is followed by the separator.
pub open spec fn is_descendant(candidate: Seq<char>, ancestor: Seq<char>) -> bool {
    &&& ancestor.is_prefix_of(candidate)
    &&& (candidate.len() == ancestor.len() || candidate[ancestor.len() as int] == SPLIT_SYMBOL)
}

/// A selector (or key) is simple when it holds no separator.
pub open spec fn spec_is_simple(s: Seq<char>) -> bool {
    !s.contains(SPLIT_SYMBOL)
}

/// Returns `true` if `subset` names `main` itself or a path below it.
pub fn contained_in(subset: &str, main: &str) -> (r: bool)
    ensures
        r == is_descendant(subset@, main@),
{
    let n = subset.unicode_len();
    let m = main.unicode_len();
    if m > n {
        return false;
    }
    let mut i: usize = 0;
    while i < m
        invariant
            m <= n,
            n == subset@.len(),
            m == main@.len(),
            i <= m,
            forall|j: int| 0 <= j < i ==> subset@[j] == main@[j],
        decreases m - i,
    {
        if subset.get_char(i) != main.get_char(i) {
            assert(subset@.subrange(0, m as int)[i as int] != main@[i as int]);
            return false;
        }
        i += 1;
    }
    assert(main@ =~= subset@.subrange(0, m as int));
    m == n || subset.get_char(m) == SPLIT_SYMBOL
}

/// Returns `true` if `key` holds no separator.
pub fn is_simple(key: &str) -> (r: bool)
    ensures
        r == spec_is_simple(key@),
{
    let n = key.unicode_len();
    let mut i: usize = 0;
    while i < n
        invariant
            n == key@.len(),
            i <= n,
            forall|j: int| 0 <= j < i ==> key@[j] != SPLIT_SYMBOL,
        decreases n - i,
    {
        if key.get_char(i) == SPLIT_SYMBOL {
            return false;
        }
        i += 1;
    }
    true
}

/// The sub-selectors that `key` implies: for every selector strictly below
/// `key`, what follows `key` and the separator, in the selectors' order.
pub open spec fn sub_selectors(sel: Seq<Seq<char>>, key: Seq<char>) -> Seq<Seq<char>>
    decreases sel.len(),
{
    if sel.len() == 0 {
        Seq::empty()
    } else {
        let prev = sub_selectors(sel.drop_last(), key);
        let s = sel.last();
        if is_descendant(s, key) && s.len() > key.len() {
            prev.push(s.subrange(key.len() + 1int, s.len() as int))
        } else {
            prev
        }
    }
}

/// Returns `true` if one of `selectors` is exactly `key`.
pub fn contains_selector(selectors: &Vec<String>, key: &str) -> (r: bool)
    ensures
        r == selectors.deep_view().contains(key@),
{
    let n = selectors.len();
    let mut i: usize = 0;
    while i < n
        invariant
            n == selectors.len(),
            i <= n,
            forall|j: int| 0 <= j < i ==> selectors.deep_view()[j] != key@,
        decreases n - i,
    {
        if selectors[i].as_str().unicode_len() == key.unicode_len() && contained_in(
            selectors[i].as_str(),
            key,
        ) {
            assert(selectors.deep_view()[i as int] =~= key@);
            return true;
        }
        i += 1;
    }
    false
}

/// Collects the sub-selectors that `key` implies (see [`sub_selectors`]).
pub fn sub_selectors_of(selectors: &Vec<String>, key: &str) -> (r: Vec<String>)
    ensures
        r.deep_view() == sub_selectors(selectors.deep_view(), key@),
{
    let n = selectors.len();
    let k = key.unicode_len();
    let mut out: Vec<String> = Vec::new();
    let mut i: usize = 0;
    while i < n
        invariant
            n == selectors.len(),
            k == key@.len(),
            i <= n,
            out.deep_view() == sub_selectors(selectors.deep_view().take(i as int), key@),
        decreases n - i,
    {
        let ghost sel = selectors.deep_view();
        assert(sel.take(i + 1).drop_last() =~= sel.take(i as int));
        let s = selectors[i].as_str();
        let len = s.unicode_len();
        if len > k && contained_in(s, key) {
            let rest = s.substring_char(k + 1, len).to_owned();
            out.push(rest);
            assert(out.deep_view() =~= sub_selectors(sel.take(i as int), key@).push(
                sel[i as int].subrange(k + 1, len as int),
            ));
        }
        i += 1;
    }
    assert(selectors.deep_view().take(n as int) =~= selectors.deep_view());
    out
}

} // verus!
