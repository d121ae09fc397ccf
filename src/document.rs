//! Documents: JSON-like trees of objects, arrays and scalars, and their
//! mathematical model.

use vstd::prelude::*;

verus! {

#[verifier::external_type_specification]
#[verifier::external_body]
pub struct ExNumber(serde_json::Number);

/// Relies on the derived `Clone` of `serde_json::Number`: the copy holds the
/// same number.
pub assume_specification[ <serde_json::Number as Clone>::clone ](n: &serde_json::Number) -> (r:
    serde_json::Number)
    ensures
        r == *n,
;

/// The mathematical model of a value: strings become character sequences,
/// arrays and objects become sequences.
pub enum Tree {
    Null,
    Bool(bool),
    Number(serde_json::Number),
    Str(Seq<char>),
    Array(Seq<Tree>),
    Object(Seq<(Seq<char>, Tree)>),
}

/// A JSON-like value. Numbers are carried through untouched.
pub enum Value {
    Null,
    Bool(bool),
    Number(serde_json::Number),
    String(String),
    Array(Vec<Value>),
    Object(Document),
}

/// A mapping from keys to values, kept in insertion order.
pub struct Document {
    pub entries: Vec<(String, Value)>,
}

impl Value {
    pub open spec fn tree(self) -> Tree
        decreases self,
    {
        match self {
            Value::Null => Tree::Null,
            Value::Bool(b) => Tree::Bool(b),
            Value::Number(n) => Tree::Number(n),
            Value::String(s) => Tree::Str(s@),
            Value::Array(a) => Tree::Array(values_tree(a@)),
            Value::Object(d) => Tree::Object(entries_tree(d.entries@)),
        }
    }
}

/// The models of a sequence of values.
pub open spec fn values_tree(s: Seq<Value>) -> Seq<Tree>
    decreases s,
{
    if s.len() == 0 {
        Seq::empty()
    } else {
        values_tree(s.drop_last()).push(s.last().tree())
    }
}

/// The models of a sequence of entries.
pub open spec fn entries_tree(s: Seq<(String, Value)>) -> Seq<(Seq<char>, Tree)>
    decreases s,
{
    if s.len() == 0 {
        Seq::empty()
    } else {
        entries_tree(s.drop_last()).push((s.last().0@, s.last().1.tree()))
    }
}

/// No two entries share a key.
pub open spec fn keys_unique(es: Seq<(Seq<char>, Tree)>) -> bool {
    forall|i: int, j: int| 0 <= i < j < es.len() ==> (#[trigger] es[i]).0 != (#[trigger] es[j]).0
}

impl Document {
    /// A well-formed document holds each key once.
    pub open spec fn wf(&self) -> bool {
        keys_unique(self@)
    }
}

impl View for Document {
    type V = Seq<(Seq<char>, Tree)>;

    open spec fn view(&self) -> Seq<(Seq<char>, Tree)> {
        entries_tree(self.entries@)
    }
}

/// The model of a sequence grown by one value.
pub proof fn lemma_values_tree_push(s: Seq<Value>, v: Value)
    ensures
        values_tree(s.push(v)) == values_tree(s).push(v.tree()),
{
    assert(s.push(v).drop_last() =~= s);
}

/// The model of a sequence of entries grown by one entry.
pub proof fn lemma_entries_tree_push(s: Seq<(String, Value)>, e: (String, Value))
    ensures
        entries_tree(s.push(e)) == entries_tree(s).push((e.0@, e.1.tree())),
{
    assert(s.push(e).drop_last() =~= s);
}

impl Value {
    /// A copy of the value, all the way down.
    pub fn deep_clone(&self) -> (r: Value)
        ensures
            r.tree() == self.tree(),
        decreases self,
    {
        match self {
            Value::Null => Value::Null,
            Value::Bool(b) => Value::Bool(*b),
            Value::Number(n) => Value::Number(n.clone()),
            Value::String(s) => Value::String(s.clone()),
            Value::Array(a) => {
                let mut out: Vec<Value> = Vec::new();
                let mut i: usize = 0;
                assert(decreases_to!(*self => self->Array_0));
                while i < a.len()
                    invariant
                        decreases_to!(*self => *a),
                        i <= a.len(),
                        values_tree(out@) == values_tree(a@.take(i as int)),
                    decreases a.len() - i,
                {
                    proof {
                        assert(decreases_to!(a => a@));
                        assert(decreases_to!(a@ => a@[i as int]));
                    }
                    let c = a[i].deep_clone();
                    proof {
                        lemma_values_tree_push(out@, c);
                        lemma_values_tree_push(a@.take(i as int), a@[i as int]);
                        assert(a@.take(i + 1) =~= a@.take(i as int).push(a@[i as int]));
                    }
                    out.push(c);
                    i += 1;
                }
                assert(a@.take(a.len() as int) =~= a@);
                Value::Array(out)
            },
            Value::Object(d) => Value::Object(d.deep_clone()),
        }
    }
}

impl Document {
    /// An empty document.
    pub fn new() -> (r: Document)
        ensures
            r@ == Seq::<(Seq<char>, Tree)>::empty(),
    {
        Document { entries: Vec::new() }
    }

    /// The number of entries.
    pub fn len(&self) -> (r: usize)
        ensures
            r == self@.len(),
    {
        proof {
            lemma_entries_tree_len(self.entries@);
        }
        self.entries.len()
    }

    /// Returns `true` if the document has no entry.
    pub fn is_empty(&self) -> (r: bool)
        ensures
            r == (self@.len() == 0),
    {
        self.len() == 0
    }

    /// Appends an entry at the end, without looking for the key.
    pub(crate) fn push_entry(&mut self, key: String, value: Value)
        ensures
            final(self)@ == old(self)@.push((key@, value.tree())),
    {
        proof {
            lemma_entries_tree_push(self.entries@, (key, value));
        }
        self.entries.push((key, value));
    }

    /// A copy of the document, all the way down.
    pub fn deep_clone(&self) -> (r: Document)
        ensures
            r@ == self@,
        decreases self,
    {
        let mut out = Document::new();
        let mut i: usize = 0;
        while i < self.entries.len()
            invariant
                i <= self.entries.len(),
                out@ == entries_tree(self.entries@.take(i as int)),
            decreases self.entries.len() - i,
        {
            proof {
                let e = self.entries@[i as int];
                assert(decreases_to!(self.entries => self.entries@));
                assert(decreases_to!(self.entries@ => e));
                assert(decreases_to!(e => e.1));
            }
            let k = self.entries[i].0.clone();
            let v = self.entries[i].1.deep_clone();
            proof {
                lemma_entries_tree_push(self.entries@.take(i as int), self.entries@[i as int]);
                assert(self.entries@.take(i + 1) =~= self.entries@.take(i as int).push(
                    self.entries@[i as int],
                ));
            }
            out.push_entry(k, v);
            i += 1;
        }
        assert(self.entries@.take(self.entries.len() as int) =~= self.entries@);
        out
    }
}

/// The entries after setting key `k` to `t`: the entry with that key takes the
/// new value in place, or a new entry is appended.
pub open spec fn entries_insert(es: Seq<(Seq<char>, Tree)>, k: Seq<char>, t: Tree) -> Seq<
    (Seq<char>, Tree),
> {
    if exists|i: int| 0 <= i < es.len() && (#[trigger] es[i]).0 == k {
        let i = choose|i: int| 0 <= i < es.len() && (#[trigger] es[i]).0 == k;
        es.update(i, (k, t))
    } else {
        es.push((k, t))
    }
}

/// The model of each entry is the model of its key and of its value.
pub proof fn lemma_entries_tree_index(s: Seq<(String, Value)>)
    ensures
        entries_tree(s).len() == s.len(),
        forall|j: int|
            0 <= j < s.len() ==> #[trigger] entries_tree(s)[j] == (s[j].0@, s[j].1.tree()),
    decreases s.len(),
{
    if s.len() > 0 {
        lemma_entries_tree_index(s.drop_last());
    }
}

impl Document {
    /// Sets `key` to `value`: replaces the value of the entry with that key, or
    /// appends a new entry.
    pub fn insert(&mut self, key: String, value: Value)
        requires
            old(self).wf(),
        ensures
            final(self).wf(),
            final(self)@ == entries_insert(old(self)@, key@, value.tree()),
    {
        let ghost before = self@;
        proof {
            lemma_entries_tree_index(self.entries@);
        }
        let n = self.entries.len();
        let mut i: usize = 0;
        while i < n
            invariant
                n == self.entries.len(),
                i <= n,
                self@ == before,
                before == old(self)@,
                keys_unique(before),
                before.len() == n,
                forall|j: int| 0 <= j < n ==> #[trigger] before[j] == (
                    self.entries@[j].0@,
                    self.entries@[j].1.tree(),
                ),
                forall|j: int| 0 <= j < i ==> (#[trigger] before[j]).0 != key@,
            decreases n - i,
        {
            if self.entries[i].0 == key {
                let ghost t = value.tree();
                let ghost old_entries = self.entries@;
                self.entries[i] = (key, value);
                proof {
                    lemma_entries_tree_index(self.entries@);
                    assert(self@ =~= before.update(i as int, (key@, t)));
                    assert(before[i as int].0 == key@);
                    let c = choose|c: int| 0 <= c < before.len() && (#[trigger] before[c]).0 == key@;
                    assert(c == i);
                    assert forall|a: int, b: int| 0 <= a < b < self@.len() implies (
                    #[trigger] self@[a]).0 != (#[trigger] self@[b]).0 by {
                        assert(before[a].0 != before[b].0);
                    }
                }
                return;
            }
            i += 1;
        }
        self.push_entry(key, value);
        proof {
            assert forall|a: int, b: int| 0 <= a < b < self@.len() implies (#[trigger] self@[a]).0
                != (#[trigger] self@[b]).0 by {
                if b < n {
                    assert(self@[a] == before[a] && self@[b] == before[b]);
                } else {
                    assert(self@[a] == before[a]);
                }
            }
        }
    }
}

/// The model of a sequence of entries has one entry for each.
pub proof fn lemma_entries_tree_len(s: Seq<(String, Value)>)
    ensures
        entries_tree(s).len() == s.len(),
    decreases s.len(),
{
    if s.len() > 0 {
        lemma_entries_tree_len(s.drop_last());
    }
}

} // verus!
