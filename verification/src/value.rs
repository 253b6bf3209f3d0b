//! The owned property-list value tree.

use vstd::prelude::*;

use crate::date::Date;
use crate::integer::Integer;
use crate::reals::{ieee_eq, Real};
use crate::scalar::{parse_u64, u64_literal};
use crate::uid::Uid;
use vstd::std_specs::cmp::{PartialEqSpec, PartialEqSpecImpl};
use vstd::std_specs::convert::FromSpecImpl;

verus! {

/// An order-preserving plist dictionary: keys are unique and iterate in
/// insertion order.
#[derive(Debug)]
pub struct Dictionary {
    entries: Vec<(String, Value)>,
}

/// Any value a property list can hold.
#[derive(Debug)]
pub enum Value {
    /// A dictionary; keys preserve insertion order.
    Dictionary(Dictionary),
    /// An ordered array.
    Array(Vec<Value>),
    /// A UTF-8 string.
    String(String),
    /// An integer, signed or unsigned.
    Integer(Integer),
    /// A floating-point number.
    Real(Real),
    /// A boolean.
    Boolean(bool),
    /// A keyed-archive `CF$UID` reference.
    Uid(Uid),
    /// Raw bytes.
    Data(Vec<u8>),
    /// An absolute point in time.
    Date(Date),
}

/// The mathematical model of a value: the same tree with every string,
/// byte vector and container taken by its contents.
pub enum Node {
    /// Dictionary entries in iteration order.
    Dictionary(Seq<(Seq<char>, Node)>),
    /// Array elements in order.
    Array(Seq<Node>),
    /// A string's characters.
    String(Seq<char>),
    /// An integer.
    Integer(Integer),
    /// A real.
    Real(Real),
    /// A boolean.
    Boolean(bool),
    /// A UID's number.
    Uid(u64),
    /// Raw bytes.
    Data(Seq<u8>),
    /// An instant.
    Date(Date),
}

impl Value {
    /// The model of this value.
    pub open spec fn deep(self) -> Node
        decreases self, 1int,
    {
        match self {
            Value::Dictionary(d) => Node::Dictionary(entries_model(d.spec_entries())),
            Value::Array(v) => Node::Array(values_model(v@)),
            Value::String(s) => Node::String(s@),
            Value::Integer(i) => Node::Integer(i),
            Value::Real(r) => Node::Real(r),
            Value::Boolean(b) => Node::Boolean(b),
            Value::Uid(u) => Node::Uid(u@),
            Value::Data(d) => Node::Data(d@),
            Value::Date(d) => Node::Date(d),
        }
    }
}

/// The models of a sequence of values.
pub open spec fn values_model(s: Seq<Value>) -> Seq<Node>
    decreases s, 0int,
{
    if s.len() == 0 {
        Seq::empty()
    } else {
        values_model(s.drop_last()).push(s.last().deep())
    }
}

/// The models of dictionary entries.
pub open spec fn entries_model(s: Seq<(String, Value)>) -> Seq<(Seq<char>, Node)>
    decreases s, 0int,
{
    if s.len() == 0 {
        Seq::empty()
    } else {
        entries_model(s.drop_last()).push((s.last().0@, s.last().1.deep()))
    }
}

/// The position of the first entry with key `k`, or -1.
pub open spec fn key_index(entries: Seq<(String, Value)>, k: Seq<char>) -> int
    decreases entries.len(),
{
    if entries.len() == 0 {
        -1
    } else if key_index(entries.drop_last(), k) >= 0 {
        key_index(entries.drop_last(), k)
    } else if entries.last().0@ == k {
        entries.len() - 1
    } else {
        -1
    }
}

/// The position of the first model entry with key `k`, or -1.
pub open spec fn node_key_index(entries: Seq<(Seq<char>, Node)>, k: Seq<char>) -> int
    decreases entries.len(),
{
    if entries.len() == 0 {
        -1
    } else if node_key_index(entries.drop_last(), k) >= 0 {
        node_key_index(entries.drop_last(), k)
    } else if entries.last().0 == k {
        entries.len() - 1
    } else {
        -1
    }
}

/// Whether no key occurs twice.
pub open spec fn keys_unique(entries: Seq<(String, Value)>) -> bool {
    forall|i: int, j: int| 0 <= i < j < entries.len() ==> entries[i].0@ != entries[j].0@
}

/// The entries after inserting `(k, v)`: the value replaces that of an
/// existing key in place, or the pair is appended.
pub open spec fn insert_entry(entries: Seq<(String, Value)>, k: String, v: Value) -> Seq<(String, Value)> {
    let i = key_index(entries, k@);
    if i >= 0 {
        entries.update(i, (entries[i].0, v))
    } else {
        entries.push((k, v))
    }
}

/// The entries of a dictionary built from `pairs` in order: the last value
/// wins for a duplicate key, and the key keeps its first position.
pub open spec fn collect_entries(pairs: Seq<(String, Value)>) -> Seq<(String, Value)>
    decreases pairs.len(),
{
    if pairs.len() == 0 {
        Seq::empty()
    } else {
        insert_entry(collect_entries(pairs.drop_last()), pairs.last().0, pairs.last().1)
    }
}

/// The property-list equality of two models: integers and reals compare
/// numerically (a NaN real equals nothing), dates by instant, dictionaries
/// regardless of key order.
pub open spec fn node_eq(a: Node, b: Node) -> bool
    decreases a,
{
    match a {
        Node::Dictionary(ea) => match b {
            Node::Dictionary(eb) => {
                &&& ea.len() == eb.len()
                &&& forall|i: int| #![trigger ea[i]] 0 <= i < ea.len() ==> {
                    let j = node_key_index(eb, ea[i].0);
                    j >= 0 && node_eq(ea[i].1, eb[j].1)
                }
            },
            _ => false,
        },
        Node::Array(va) => match b {
            Node::Array(vb) => va.len() == vb.len() && forall|i: int|
                #![trigger va[i]]
                0 <= i < va.len() ==> node_eq(va[i], vb[i]),
            _ => false,
        },
        Node::String(x) => match b {
            Node::String(y) => x == y,
            _ => false,
        },
        Node::Integer(x) => match b {
            Node::Integer(y) => x.value() == y.value(),
            _ => false,
        },
        Node::Real(x) => match b {
            Node::Real(y) => ieee_eq(x.value_bits(), y.value_bits()),
            _ => false,
        },
        Node::Boolean(x) => match b {
            Node::Boolean(y) => x == y,
            _ => false,
        },
        Node::Uid(x) => match b {
            Node::Uid(y) => x == y,
            _ => false,
        },
        Node::Data(x) => match b {
            Node::Data(y) => x == y,
            _ => false,
        },
        Node::Date(x) => match b {
            Node::Date(y) => x.unix_nanos() == y.unix_nanos(),
            _ => false,
        },
    }
}

impl Dictionary {
    /// The entries in iteration order.
    pub closed spec fn spec_entries(self) -> Seq<(String, Value)> {
        self.entries@
    }

    #[verifier::type_invariant]
    spec fn unique(self) -> bool {
        keys_unique(self.entries@)
    }

    /// The key at position `i`.
    pub open spec fn key_at(self, i: int) -> Seq<char> {
        self.spec_entries()[i].0@
    }

    /// The value for key `k`, if present.
    pub open spec fn lookup(self, k: Seq<char>) -> Option<Value> {
        let i = key_index(self.spec_entries(), k);
        if i >= 0 {
            Some(self.spec_entries()[i].1)
        } else {
            None
        }
    }

    /// An empty dictionary.
    pub fn new() -> (r: Dictionary)
        ensures
            r.spec_entries() == Seq::<(String, Value)>::empty(),
    {
        Dictionary { entries: Vec::new() }
    }

    /// The entries in iteration order, consuming the dictionary.
    pub fn into_pairs(self) -> (r: Vec<(String, Value)>)
        ensures
            r@ == self.spec_entries(),
            keys_unique(r@),
    {
        proof {
            use_type_invariant(&self);
        }
        self.entries
    }

    /// The number of entries.
    pub fn len(&self) -> (r: usize)
        ensures
            r == self.spec_entries().len(),
            keys_unique(self.spec_entries()),
    {
        proof {
            use_type_invariant(self);
        }
        self.entries.len()
    }

    /// Whether there are no entries.
    pub fn is_empty(&self) -> (r: bool)
        ensures
            r == (self.spec_entries().len() == 0),
    {
        self.entries.len() == 0
    }

    /// The entry at position `i`.
    pub fn entry_at(&self, i: usize) -> (r: (&String, &Value))
        requires
            i < self.spec_entries().len(),
        ensures
            *r.0 == self.spec_entries()[i as int].0,
            *r.1 == self.spec_entries()[i as int].1,
    {
        let e = &self.entries[i];
        (&e.0, &e.1)
    }

    /// The position of key `k`, if present.
    pub fn index_of(&self, k: &str) -> (r: Option<usize>)
        ensures
            r is Some <==> key_index(self.spec_entries(), k@) >= 0,
            r matches Some(i) ==> i as int == key_index(self.spec_entries(), k@) && i < self.spec_entries().len(),
    {
        proof {
            use_type_invariant(self);
        }
        let mut i: usize = 0;
        while i < self.entries.len()
            invariant
                i <= self.entries@.len(),
                keys_unique(self.entries@),
                forall|j: int| 0 <= j < i ==> self.entries@[j].0@ != k@,
            decreases self.entries@.len() - i,
        {
            if crate::scalar::str_equals(self.entries[i].0.as_str(), k) {
                proof {
                    lemma_key_index_found(self.entries@, k@, i as int);
                }
                return Some(i);
            }
            i = i + 1;
        }
        proof {
            lemma_key_index_absent(self.entries@, k@);
        }
        None
    }

    /// The value stored under `k`.
    pub fn get(&self, k: &str) -> (r: Option<&Value>)
        ensures
            match self.lookup(k@) {
                Some(v) => r == Some(&v),
                None => r is None,
            },
    {
        match self.index_of(k) {
            Some(i) => Some(&self.entries[i].1),
            None => None,
        }
    }

    /// Inserts `(k, v)`: an existing key keeps its position and takes the
    /// new value; a new key is appended.
    pub fn insert(&mut self, k: String, v: Value)
        ensures
            final(self).spec_entries() == insert_entry(old(self).spec_entries(), k, v),
    {
        proof {
            use_type_invariant(&*self);
            lemma_key_index_spec(self.entries@, k@);
        }
        let found = self.index_of(k.as_str());
        let mut entries: Vec<(String, Value)> = Vec::new();
        core::mem::swap(&mut entries, &mut self.entries);
        match found {
            Some(i) => {
                let key = entries[i].0.clone();
                entries.set(i, (key, v));
                proof {
                    assert(keys_unique(entries@)) by {
                        assert forall|a: int, b: int| 0 <= a < b < entries@.len() implies entries@[a].0@ != entries@[b].0@ by {
                            assert(old(self).spec_entries()[a].0@ != old(self).spec_entries()[b].0@);
                        }
                    }
                }
            },
            None => {
                entries.push((k, v));
                proof {
                    assert(keys_unique(entries@)) by {
                        assert forall|a: int, b: int| 0 <= a < b < entries@.len() implies entries@[a].0@ != entries@[b].0@ by {
                            if b < entries@.len() - 1 {
                                assert(old(self).spec_entries()[a].0@ != old(self).spec_entries()[b].0@);
                            } else {
                                assert(old(self).spec_entries()[a].0@ != k@);
                            }
                        }
                    }
                }
            },
        }
        self.entries = entries;
    }

    /// The dictionary built from `pairs` in order: the last value wins for a
    /// duplicate key, and the key keeps its first position.
    pub fn from_pairs(pairs: Vec<(String, Value)>) -> (r: Dictionary)
        ensures
            r.spec_entries() == collect_entries(pairs@),
    {
        let ghost all = pairs@;
        let n = pairs.len();
        let mut items = pairs;
        let mut out = Dictionary::new();
        let mut k: usize = 0;
        proof {
            assert(all.subrange(0, 0) =~= Seq::<(String, Value)>::empty());
            assert(all.subrange(0, n as int) =~= all);
        }
        while k < n
            invariant
                n == all.len(),
                k <= n,
                items@ == all.subrange(k as int, n as int),
                out.spec_entries() == collect_entries(all.subrange(0, k as int)),
            decreases n - k,
        {
            let pair = items.remove(0);
            proof {
                assert(pair == all[k as int]);
                assert(all.subrange(0, k + 1).drop_last() =~= all.subrange(0, k as int));
                assert(items@ =~= all.subrange(k + 1, n as int));
            }
            out.insert(pair.0, pair.1);
            k = k + 1;
        }
        proof {
            assert(all.subrange(0, n as int) =~= all);
        }
        out
    }
}

/// The characterization of `key_index`: `-1` exactly when no entry has the
/// key, else the first position that does.
pub proof fn lemma_key_index_spec(entries: Seq<(String, Value)>, k: Seq<char>)
    ensures
        key_index(entries, k) == -1 <==> (forall|j: int| 0 <= j < entries.len() ==> entries[j].0@ != k),
        key_index(entries, k) >= 0 ==> {
            let i = key_index(entries, k);
            &&& 0 <= i < entries.len()
            &&& entries[i].0@ == k
            &&& forall|j: int| 0 <= j < i ==> entries[j].0@ != k
        },
        key_index(entries, k) >= -1,
    decreases entries.len(),
{
    if entries.len() > 0 {
        let p = entries.drop_last();
        lemma_key_index_spec(p, k);
        assert forall|j: int| 0 <= j < p.len() implies p[j] == entries[j] by {}
        if key_index(p, k) < 0 {
            if entries.last().0@ != k {
                assert forall|j: int| 0 <= j < entries.len() implies entries[j].0@ != k by {
                    if j < p.len() {
                        assert(p[j] == entries[j]);
                    }
                }
            }
        }
    }
}

/// Reading a key back after an insert gives the inserted value, every other
/// key reads as before, and the entry count grows exactly when the key was
/// new.
pub proof fn insert_then_lookup(before: Dictionary, after: Dictionary, k: String, v: Value, other: Seq<char>)
    requires
        after.spec_entries() == insert_entry(before.spec_entries(), k, v),
    ensures
        after.lookup(k@) == Some(v),
        other != k@ ==> after.lookup(other) == before.lookup(other),
        after.spec_entries().len() == before.spec_entries().len() + (if before.lookup(k@) is Some {
            0int
        } else {
            1int
        }),
{
    let e = before.spec_entries();
    let a = after.spec_entries();
    lemma_key_index_spec(e, k@);
    lemma_key_index_spec(e, other);
    let i = key_index(e, k@);
    if i >= 0 {
        assert(a == e.update(i, (e[i].0, v)));
        lemma_key_index_found(a, k@, i);
        if other != k@ {
            let j = key_index(e, other);
            if j >= 0 {
                assert(j != i);
                lemma_key_index_found(a, other, j);
            } else {
                lemma_key_index_absent(a, other);
            }
        }
    } else {
        assert(a == e.push((k, v)));
        lemma_key_index_found(a, k@, e.len() as int);
        if other != k@ {
            let j = key_index(e, other);
            if j >= 0 {
                lemma_key_index_found(a, other, j);
            } else {
                lemma_key_index_absent(a, other);
            }
        }
    }
}

proof fn lemma_key_index_found(entries: Seq<(String, Value)>, k: Seq<char>, i: int)
    requires
        0 <= i < entries.len(),
        entries[i].0@ == k,
        forall|j: int| 0 <= j < i ==> entries[j].0@ != k,
    ensures
        key_index(entries, k) == i,
{
    lemma_key_index_spec(entries, k);
    let ki = key_index(entries, k);
    if ki == -1 {
        assert(entries[i].0@ != k);
    }
}

proof fn lemma_key_index_absent(entries: Seq<(String, Value)>, k: Seq<char>)
    requires
        forall|j: int| 0 <= j < entries.len() ==> entries[j].0@ != k,
    ensures
        key_index(entries, k) == -1,
{
    lemma_key_index_spec(entries, k);
}

/// The model of a sequence of values, element by element.
pub proof fn lemma_values_model(s: Seq<Value>)
    ensures
        values_model(s).len() == s.len(),
        forall|i: int| #![trigger values_model(s)[i]] 0 <= i < s.len() ==> values_model(s)[i] == s[i].deep(),
    decreases s.len(),
{
    if s.len() > 0 {
        lemma_values_model(s.drop_last());
        assert forall|i: int| 0 <= i < s.len() implies #[trigger] values_model(s)[i] == s[i].deep() by {
            if i < s.len() - 1 {
                assert(s.drop_last()[i] == s[i]);
            }
        }
    }
}

/// The model of dictionary entries, entry by entry.
pub proof fn lemma_entries_model(s: Seq<(String, Value)>)
    ensures
        entries_model(s).len() == s.len(),
        forall|i: int| #![trigger entries_model(s)[i]] 0 <= i < s.len() ==> entries_model(s)[i] == (s[i].0@, s[i].1.deep()),
    decreases s.len(),
{
    if s.len() > 0 {
        lemma_entries_model(s.drop_last());
        assert forall|i: int| 0 <= i < s.len() implies #[trigger] entries_model(s)[i] == (s[i].0@, s[i].1.deep()) by {
            if i < s.len() - 1 {
                assert(s.drop_last()[i] == s[i]);
            }
        }
    }
}

/// Looking a key up in the model finds the same position.
pub proof fn lemma_node_key_index(s: Seq<(String, Value)>, k: Seq<char>)
    ensures
        node_key_index(entries_model(s), k) == key_index(s, k),
    decreases s.len(),
{
    if s.len() > 0 {
        lemma_node_key_index(s.drop_last(), k);
        assert(entries_model(s).drop_last() =~= entries_model(s.drop_last()));
        lemma_entries_model(s);
    }
}

/// The model entries after inserting `(k, v)`: the value replaces that of
/// an existing key in place, or the pair is appended.
pub open spec fn insert_node_entry(entries: Seq<(Seq<char>, Node)>, k: Seq<char>, v: Node) -> Seq<(Seq<char>, Node)> {
    let i = node_key_index(entries, k);
    if i >= 0 {
        entries.update(i, (entries[i].0, v))
    } else {
        entries.push((k, v))
    }
}

/// The model entries of a dictionary built from `pairs` in order: the last
/// value wins for a duplicate key, and the key keeps its first position.
pub open spec fn collect_node_entries(pairs: Seq<(Seq<char>, Node)>) -> Seq<(Seq<char>, Node)>
    decreases pairs.len(),
{
    if pairs.len() == 0 {
        Seq::empty()
    } else {
        insert_node_entry(collect_node_entries(pairs.drop_last()), pairs.last().0, pairs.last().1)
    }
}

/// Building a dictionary and taking its model commute.
pub proof fn lemma_collect_model(pairs: Seq<(String, Value)>)
    ensures
        entries_model(collect_entries(pairs)) == collect_node_entries(entries_model(pairs)),
    decreases pairs.len(),
{
    if pairs.len() > 0 {
        let prev = collect_entries(pairs.drop_last());
        lemma_collect_model(pairs.drop_last());
        assert(entries_model(pairs).drop_last() =~= entries_model(pairs.drop_last()));
        lemma_entries_model(pairs);
        let (k, v) = pairs.last();
        lemma_node_key_index(prev, k@);
        lemma_key_index_spec(prev, k@);
        lemma_entries_model(prev);
        let i = key_index(prev, k@);
        if i >= 0 {
            let upd = prev.update(i, (prev[i].0, v));
            lemma_entries_model(upd);
            assert(entries_model(upd) =~= entries_model(prev).update(i, (entries_model(prev)[i].0, v.deep())));
        } else {
            let pushed = prev.push((k, v));
            lemma_entries_model(pushed);
            assert(entries_model(pushed) =~= entries_model(prev).push((k@, v.deep())));
        }
    }
}

impl Value {
    /// The kind name of this value, as used in decode type-mismatch
    /// messages.
    pub open spec fn kind_name(self) -> Seq<char> {
        match self {
            Value::Dictionary(_) => "dictionary"@,
            Value::Array(_) => "array"@,
            Value::String(_) => "string"@,
            Value::Integer(_) => "integer"@,
            Value::Real(_) => "real"@,
            Value::Boolean(_) => "boolean"@,
            Value::Uid(_) => "UID"@,
            Value::Data(_) => "data"@,
            Value::Date(_) => "date"@,
        }
    }

    /// The kind name for this variant.
    pub fn kind_label(&self) -> (r: &'static str)
        ensures
            r@ == self.kind_name(),
    {
        match self {
            Value::Dictionary(_) => {
                proof {
                    reveal_strlit("dictionary");
                }
                "dictionary"
            },
            Value::Array(_) => {
                proof {
                    reveal_strlit("array");
                }
                "array"
            },
            Value::String(_) => {
                proof {
                    reveal_strlit("string");
                }
                "string"
            },
            Value::Integer(_) => {
                proof {
                    reveal_strlit("integer");
                }
                "integer"
            },
            Value::Real(_) => {
                proof {
                    reveal_strlit("real");
                }
                "real"
            },
            Value::Boolean(_) => {
                proof {
                    reveal_strlit("boolean");
                }
                "boolean"
            },
            Value::Uid(_) => {
                proof {
                    reveal_strlit("UID");
                }
                "UID"
            },
            Value::Data(_) => {
                proof {
                    reveal_strlit("data");
                }
                "data"
            },
            Value::Date(_) => {
                proof {
                    reveal_strlit("date");
                }
                "date"
            },
        }
    }

    /// A copy of this value with the same model.
    pub fn deep_clone(&self) -> (r: Value)
        ensures
            r.deep() == self.deep(),
        decreases self, 1int,
    {
        match self {
            Value::Dictionary(d) => Value::Dictionary(d.deep_clone()),
            Value::Array(v) => Value::Array(clone_values(v)),
            Value::String(s) => Value::String(s.clone()),
            Value::Integer(i) => Value::Integer(*i),
            Value::Real(r) => Value::Real(*r),
            Value::Boolean(b) => Value::Boolean(*b),
            Value::Uid(u) => Value::Uid(*u),
            Value::Data(d) => {
                let c = crate::strings::copy_bytes(d);
                Value::Data(c)
            },
            Value::Date(d) => Value::Date(*d),
        }
    }
}

/// Copies of every value of `v`, with the same models.
pub fn clone_values(v: &Vec<Value>) -> (r: Vec<Value>)
    ensures
        values_model(r@) == values_model(v@),
    decreases v@, 0int,
{
    let mut out: Vec<Value> = Vec::new();
    let mut i: usize = 0;
    while i < v.len()
        invariant
            i <= v@.len(),
            values_model(out@) == values_model(v@.subrange(0, i as int)),
        decreases v@.len() - i,
    {
        proof {
            assert(decreases_to!(v@ => v@[i as int]));
        }
        let c = v[i].deep_clone();
        let ghost before = out@;
        out.push(c);
        proof {
            assert(out@.drop_last() =~= before);
            assert(v@.subrange(0, i + 1).drop_last() =~= v@.subrange(0, i as int));
        }
        i = i + 1;
    }
    proof {
        assert(v@.subrange(0, v@.len() as int) =~= v@);
    }
    out
}

impl Dictionary {
    /// A copy of this dictionary with the same model.
    pub fn deep_clone(&self) -> (r: Dictionary)
        ensures
            entries_model(r.spec_entries()) == entries_model(self.spec_entries()),
            forall|i: int| 0 <= i < self.spec_entries().len() ==> r.spec_entries()[i].0 == #[trigger] self.spec_entries()[i].0,
            r.spec_entries().len() == self.spec_entries().len(),
        decreases self, 0int,
    {
        proof {
            use_type_invariant(self);
        }
        let e = &self.entries;
        let mut out: Vec<(String, Value)> = Vec::new();
        let mut i: usize = 0;
        while i < e.len()
            invariant
                e == &self.entries,
                i <= e@.len(),
                keys_unique(e@),
                out@.len() == i,
                forall|j: int| 0 <= j < i ==> out@[j].0 == #[trigger] e@[j].0,
                entries_model(out@) == entries_model(e@.subrange(0, i as int)),
            decreases e@.len() - i,
        {
            proof {
                broadcast use vstd::std_specs::vec::group_vec_axioms;
                assert(decreases_to!(self.entries => self.entries@));
                assert(decreases_to!(self.entries@ => self.entries@[i as int]));
                assert(decreases_to!(self.entries@[i as int] => self.entries@[i as int].1));
                assert(decreases_to!(*self => self.entries@[i as int].1));
            }
            let k = e[i].0.clone();
            let c = e[i].1.deep_clone();
            let ghost before = out@;
            out.push((k, c));
            proof {
                assert(out@.drop_last() =~= before);
                assert(e@.subrange(0, i + 1).drop_last() =~= e@.subrange(0, i as int));
            }
            i = i + 1;
        }
        proof {
            assert(e@.subrange(0, e@.len() as int) =~= e@);
            assert(keys_unique(out@)) by {
                assert forall|a: int, b: int| 0 <= a < b < out@.len() implies out@[a].0@ != out@[b].0@ by {
                    assert(out@[a].0 == e@[a].0);
                    assert(out@[b].0 == e@[b].0);
                }
            }
        }
        Dictionary { entries: out }
    }
}

impl Value {
    /// Property-list equality: numeric for integers and reals (a NaN real
    /// equals nothing), by instant for dates, and regardless of key order
    /// for dictionaries.
    pub fn equals(&self, other: &Value) -> (r: bool)
        ensures
            r == node_eq(self.deep(), other.deep()),
        decreases self, 1int,
    {
        match self {
            Value::Dictionary(da) => match other {
                Value::Dictionary(db) => da.equals(db),
                _ => false,
            },
            Value::Array(va) => match other {
                Value::Array(vb) => values_equal(va, vb),
                _ => false,
            },
            Value::String(x) => match other {
                Value::String(y) => *x == *y,
                _ => false,
            },
            Value::Integer(x) => match other {
                Value::Integer(y) => x.same_value(y),
                _ => false,
            },
            Value::Real(x) => match other {
                Value::Real(y) => x.numeric_eq(y),
                _ => false,
            },
            Value::Boolean(x) => match other {
                Value::Boolean(y) => *x == *y,
                _ => false,
            },
            Value::Uid(x) => match other {
                Value::Uid(y) => x.get() == y.get(),
                _ => false,
            },
            Value::Data(x) => match other {
                Value::Data(y) => bytes_equal(x, y),
                _ => false,
            },
            Value::Date(x) => match other {
                Value::Date(y) => x.same_instant(y),
                _ => false,
            },
        }
    }
}

/// Whether two byte vectors hold the same bytes.
pub fn bytes_equal(x: &Vec<u8>, y: &Vec<u8>) -> (r: bool)
    ensures
        r == (x@ == y@),
{
    if x.len() != y.len() {
        return false;
    }
    let mut i: usize = 0;
    while i < x.len()
        invariant
            x@.len() == y@.len(),
            i <= x@.len(),
            forall|j: int| 0 <= j < i ==> x@[j] == y@[j],
        decreases x@.len() - i,
    {
        if x[i] != y[i] {
            return false;
        }
        i = i + 1;
    }
    proof {
        assert(x@ =~= y@);
    }
    true
}

/// Element-wise property-list equality of two arrays.
pub fn values_equal(va: &Vec<Value>, vb: &Vec<Value>) -> (r: bool)
    ensures
        r == node_eq(Node::Array(values_model(va@)), Node::Array(values_model(vb@))),
    decreases va@, 0int,
{
    proof {
        lemma_values_model(va@);
        lemma_values_model(vb@);
    }
    if va.len() != vb.len() {
        return false;
    }
    let ghost ma = values_model(va@);
    let ghost mb = values_model(vb@);
    let mut i: usize = 0;
    while i < va.len()
        invariant
            va@.len() == vb@.len(),
            ma == values_model(va@),
            mb == values_model(vb@),
            ma.len() == va@.len(),
            mb.len() == vb@.len(),
            forall|j: int| #![trigger ma[j]] 0 <= j < ma.len() ==> ma[j] == va@[j].deep(),
            forall|j: int| #![trigger mb[j]] 0 <= j < mb.len() ==> mb[j] == vb@[j].deep(),
            i <= va@.len(),
            forall|j: int| 0 <= j < i ==> node_eq(#[trigger] ma[j], mb[j]),
        decreases va@.len() - i,
    {
        proof {
            assert(decreases_to!(va@ => va@[i as int]));
        }
        let same = va[i].equals(&vb[i]);
        if !same {
            proof {
                assert(!node_eq(ma[i as int], mb[i as int]));
            }
            return false;
        }
        i = i + 1;
    }
    true
}

impl Dictionary {
    /// Dictionary equality: same size, and every key of `self` present in
    /// `other` with an equal value, in any order.
    pub fn equals(&self, other: &Dictionary) -> (r: bool)
        ensures
            r == node_eq(
                Node::Dictionary(entries_model(self.spec_entries())),
                Node::Dictionary(entries_model(other.spec_entries())),
            ),
        decreases self, 0int,
    {
        let ghost ea = entries_model(self.spec_entries());
        let ghost eb = entries_model(other.spec_entries());
        proof {
            lemma_entries_model(self.spec_entries());
            lemma_entries_model(other.spec_entries());
        }
        if self.entries.len() != other.entries.len() {
            return false;
        }
        let mut i: usize = 0;
        while i < self.entries.len()
            invariant
                ea == entries_model(self.spec_entries()),
                eb == entries_model(other.spec_entries()),
                ea.len() == self.spec_entries().len(),
                eb.len() == other.spec_entries().len(),
                ea.len() == eb.len(),
                forall|j: int| #![trigger ea[j]] 0 <= j < ea.len() ==> ea[j] == (self.spec_entries()[j].0@, self.spec_entries()[j].1.deep()),
                forall|j: int| #![trigger eb[j]] 0 <= j < eb.len() ==> eb[j] == (other.spec_entries()[j].0@, other.spec_entries()[j].1.deep()),
                i <= ea.len(),
                forall|j: int| #![trigger ea[j]] 0 <= j < i ==> {
                    let m = node_key_index(eb, ea[j].0);
                    m >= 0 && node_eq(ea[j].1, eb[m].1)
                },
            decreases ea.len() - i,
        {
            proof {
                broadcast use vstd::std_specs::vec::group_vec_axioms;
                assert(decreases_to!(self.entries => self.entries@));
                assert(decreases_to!(self.entries@ => self.entries@[i as int]));
                assert(decreases_to!(self.entries@[i as int] => self.entries@[i as int].1));
                assert(decreases_to!(*self => self.entries@[i as int].1));
                lemma_node_key_index(other.spec_entries(), self.spec_entries()[i as int].0@);
            }
            let key = &self.entries[i].0;
            match other.index_of(key.as_str()) {
                None => {
                    proof {
                        assert(node_key_index(eb, ea[i as int].0) < 0);
                    }
                    return false;
                },
                Some(j) => {
                    let same = self.entries[i].1.equals(&other.entries[j].1);
                    if !same {
                        proof {
                            assert(!node_eq(ea[i as int].1, eb[j as int].1));
                        }
                        return false;
                    }
                },
            }
            i = i + 1;
        }
        true
    }
}

impl PartialEq for Value {
    fn eq(&self, other: &Value) -> (r: bool) {
        self.equals(other)
    }
}

impl PartialEqSpecImpl for Value {
    open spec fn obeys_eq_spec() -> bool {
        true
    }

    open spec fn eq_spec(&self, other: &Value) -> bool {
        node_eq(self.deep(), other.deep())
    }
}

impl PartialEq for Dictionary {
    fn eq(&self, other: &Dictionary) -> (r: bool) {
        self.equals(other)
    }
}

impl PartialEqSpecImpl for Dictionary {
    open spec fn obeys_eq_spec() -> bool {
        true
    }

    open spec fn eq_spec(&self, other: &Dictionary) -> bool {
        node_eq(
            Node::Dictionary(entries_model(self.spec_entries())),
            Node::Dictionary(entries_model(other.spec_entries())),
        )
    }
}

impl Clone for Value {
    fn clone(&self) -> (r: Value)
        ensures
            r.deep() == self.deep(),
    {
        self.deep_clone()
    }
}

impl Clone for Dictionary {
    fn clone(&self) -> (r: Dictionary)
        ensures
            entries_model(r.spec_entries()) == entries_model(self.spec_entries()),
    {
        self.deep_clone()
    }
}

impl Value {
    /// The dictionary behind [`Value::Dictionary`].
    pub fn as_dictionary(&self) -> (r: Option<&Dictionary>)
        ensures
            match *self {
                Value::Dictionary(d) => r == Some(&d),
                _ => r is None,
            },
    {
        match self {
            Value::Dictionary(d) => Some(d),
            _ => None,
        }
    }

    /// The elements behind [`Value::Array`].
    pub fn as_array(&self) -> (r: Option<&Vec<Value>>)
        ensures
            match *self {
                Value::Array(v) => r == Some(&v),
                _ => r is None,
            },
    {
        match self {
            Value::Array(v) => Some(v),
            _ => None,
        }
    }

    /// Mutable access to the dictionary behind [`Value::Dictionary`].
    pub fn as_dictionary_mut(&mut self) -> (r: Option<&mut Dictionary>)
        ensures
            r is Some <==> (*old(self) is Dictionary),
            r is None ==> *final(self) == *old(self),
            r matches Some(d) ==> (*old(self) == Value::Dictionary(*d) && *final(self) == Value::Dictionary(
                *final(d),
            )),
    {
        match self {
            Value::Dictionary(d) => Some(d),
            _ => None,
        }
    }

    /// Mutable access to the elements behind [`Value::Array`].
    pub fn as_array_mut(&mut self) -> (r: Option<&mut Vec<Value>>)
        ensures
            r is Some <==> (*old(self) is Array),
            r is None ==> *final(self) == *old(self),
            r matches Some(v) ==> (*old(self) == Value::Array(*v) && *final(self) == Value::Array(*final(v))),
    {
        match self {
            Value::Array(v) => Some(v),
            _ => None,
        }
    }

    /// The string behind [`Value::String`].
    pub fn as_str(&self) -> (r: Option<&str>)
        ensures
            match *self {
                Value::String(s) => r matches Some(x) && x@ == s@,
                _ => r is None,
            },
    {
        match self {
            Value::String(s) => Some(s.as_str()),
            _ => None,
        }
    }

    /// The integer behind [`Value::Integer`].
    pub fn as_integer(&self) -> (r: Option<Integer>)
        ensures
            match *self {
                Value::Integer(i) => r == Some(i),
                _ => r is None,
            },
    {
        match self {
            Value::Integer(i) => Some(*i),
            _ => None,
        }
    }

    /// The real behind [`Value::Real`].
    pub fn as_real(&self) -> (r: Option<Real>)
        ensures
            match *self {
                Value::Real(x) => r == Some(x),
                _ => r is None,
            },
    {
        match self {
            Value::Real(x) => Some(*x),
            _ => None,
        }
    }

    /// The boolean behind [`Value::Boolean`].
    pub fn as_boolean(&self) -> (r: Option<bool>)
        ensures
            match *self {
                Value::Boolean(b) => r == Some(b),
                _ => r is None,
            },
    {
        match self {
            Value::Boolean(b) => Some(*b),
            _ => None,
        }
    }

    /// The bytes behind [`Value::Data`].
    pub fn as_data(&self) -> (r: Option<&[u8]>)
        ensures
            match *self {
                Value::Data(d) => r matches Some(x) && x@ == d@,
                _ => r is None,
            },
    {
        match self {
            Value::Data(d) => Some(d.as_slice()),
            _ => None,
        }
    }

    /// The date behind [`Value::Date`].
    pub fn as_date(&self) -> (r: Option<Date>)
        ensures
            match *self {
                Value::Date(d) => r == Some(d),
                _ => r is None,
            },
    {
        match self {
            Value::Date(d) => Some(*d),
            _ => None,
        }
    }

    /// The UID behind [`Value::Uid`].
    pub fn as_uid(&self) -> (r: Option<Uid>)
        ensures
            match *self {
                Value::Uid(u) => r == Some(u),
                _ => r is None,
            },
    {
        match self {
            Value::Uid(u) => Some(*u),
            _ => None,
        }
    }

    /// Consumes the value, returning the dictionary behind
    /// [`Value::Dictionary`].
    pub fn into_dictionary(self) -> (r: Option<Dictionary>)
        ensures
            match self {
                Value::Dictionary(d) => r == Some(d),
                _ => r is None,
            },
    {
        match self {
            Value::Dictionary(d) => Some(d),
            _ => None,
        }
    }

    /// Consumes the value, returning the elements behind [`Value::Array`].
    pub fn into_array(self) -> (r: Option<Vec<Value>>)
        ensures
            match self {
                Value::Array(v) => r == Some(v),
                _ => r is None,
            },
    {
        match self {
            Value::Array(v) => Some(v),
            _ => None,
        }
    }

    /// Consumes the value, returning the string behind [`Value::String`].
    pub fn into_string(self) -> (r: Option<String>)
        ensures
            match self {
                Value::String(s) => r == Some(s),
                _ => r is None,
            },
    {
        match self {
            Value::String(s) => Some(s),
            _ => None,
        }
    }

    /// Consumes the value, returning the bytes behind [`Value::Data`].
    pub fn into_data(self) -> (r: Option<Vec<u8>>)
        ensures
            match self {
                Value::Data(d) => r == Some(d),
                _ => r is None,
            },
    {
        match self {
            Value::Data(d) => Some(d),
            _ => None,
        }
    }

    /// An array holding `values` in order.
    pub fn array_from(values: Vec<Value>) -> (r: Value)
        ensures
            r == Value::Array(values),
    {
        Value::Array(values)
    }

    /// A dictionary built from `pairs` in order: the last value wins for a
    /// duplicate key, and the key keeps its first position.
    pub fn dictionary_from(pairs: Vec<(String, Value)>) -> (r: Value)
        ensures
            r matches Value::Dictionary(d) && d.spec_entries() == collect_entries(pairs@),
    {
        Value::Dictionary(Dictionary::from_pairs(pairs))
    }
}

/// The UID a just-parsed dictionary's raw entry list collapses to, if any:
/// exactly one pair, its key exactly `CF$UID`, and its value an integer (the
/// raw bits, signedness ignored) or, when `lax`, a string holding a base-10
/// `u64`.
pub open spec fn entries_uid(entries: Seq<(String, Value)>, lax: bool) -> Option<u64> {
    if entries.len() == 1 && entries[0].0@ == "CF$UID"@ {
        match entries[0].1 {
            Value::Integer(i) => Some(i.raw_parts().1),
            Value::String(s) => if lax {
                match u64_literal(s@, 10) {
                    Ok(v) => Some(v as u64),
                    Err(_) => None,
                }
            } else {
                None
            },
            _ => None,
        }
    } else {
        None
    }
}

/// Applies the `CF$UID` rewrite to a just-parsed dictionary's raw entry
/// list: the [`entries_uid`] collapse when it applies, else a dictionary
/// with the last duplicate key winning.
pub fn maybe_uid(entries: Vec<(String, Value)>, lax: bool) -> (r: Value)
    ensures
        entries_uid(entries@, lax) matches Some(u) ==> (r matches Value::Uid(x) && x@ == u),
        entries_uid(entries@, lax) is None ==> (r matches Value::Dictionary(d) && d.spec_entries()
            == collect_entries(entries@)),
{
    proof {
        reveal_strlit("CF$UID");
    }
    if entries.len() == 1 && crate::scalar::str_equals(entries[0].0.as_str(), "CF$UID") {
        match &entries[0].1 {
            Value::Integer(i) => {
                return Value::Uid(Uid::new(i.to_raw_parts().1));
            },
            Value::String(s) => {
                if lax {
                    match parse_u64(s.as_str(), 10) {
                        Ok(u) => {
                            return Value::Uid(Uid::new(u));
                        },
                        Err(_) => {},
                    }
                }
            },
            _ => {},
        }
    }
    Value::dictionary_from(entries)
}

impl From<bool> for Value {
    fn from(value: bool) -> (r: Value) {
        Value::Boolean(value)
    }
}

impl FromSpecImpl<bool> for Value {
    open spec fn obeys_from_spec() -> bool {
        true
    }

    open spec fn from_spec(v: bool) -> Value {
        Value::Boolean(v)
    }
}

impl From<String> for Value {
    fn from(value: String) -> (r: Value) {
        Value::String(value)
    }
}

impl FromSpecImpl<String> for Value {
    open spec fn obeys_from_spec() -> bool {
        true
    }

    open spec fn from_spec(v: String) -> Value {
        Value::String(v)
    }
}

impl From<Integer> for Value {
    fn from(value: Integer) -> (r: Value) {
        Value::Integer(value)
    }
}

impl FromSpecImpl<Integer> for Value {
    open spec fn obeys_from_spec() -> bool {
        true
    }

    open spec fn from_spec(v: Integer) -> Value {
        Value::Integer(v)
    }
}

impl From<Real> for Value {
    fn from(value: Real) -> (r: Value) {
        Value::Real(value)
    }
}

impl FromSpecImpl<Real> for Value {
    open spec fn obeys_from_spec() -> bool {
        true
    }

    open spec fn from_spec(v: Real) -> Value {
        Value::Real(v)
    }
}

impl From<Uid> for Value {
    fn from(value: Uid) -> (r: Value) {
        Value::Uid(value)
    }
}

impl FromSpecImpl<Uid> for Value {
    open spec fn obeys_from_spec() -> bool {
        true
    }

    open spec fn from_spec(v: Uid) -> Value {
        Value::Uid(v)
    }
}

impl From<Date> for Value {
    fn from(value: Date) -> (r: Value) {
        Value::Date(value)
    }
}

impl FromSpecImpl<Date> for Value {
    open spec fn obeys_from_spec() -> bool {
        true
    }

    open spec fn from_spec(v: Date) -> Value {
        Value::Date(v)
    }
}

impl From<Vec<Value>> for Value {
    fn from(value: Vec<Value>) -> (r: Value) {
        Value::Array(value)
    }
}

impl FromSpecImpl<Vec<Value>> for Value {
    open spec fn obeys_from_spec() -> bool {
        true
    }

    open spec fn from_spec(v: Vec<Value>) -> Value {
        Value::Array(v)
    }
}

impl From<Dictionary> for Value {
    fn from(value: Dictionary) -> (r: Value) {
        Value::Dictionary(value)
    }
}

impl FromSpecImpl<Dictionary> for Value {
    open spec fn obeys_from_spec() -> bool {
        true
    }

    open spec fn from_spec(v: Dictionary) -> Value {
        Value::Dictionary(v)
    }
}

/// A byte vector is data, never an array.
impl From<Vec<u8>> for Value {
    fn from(value: Vec<u8>) -> (r: Value) {
        Value::Data(value)
    }
}

impl FromSpecImpl<Vec<u8>> for Value {
    open spec fn obeys_from_spec() -> bool {
        true
    }

    open spec fn from_spec(v: Vec<u8>) -> Value {
        Value::Data(v)
    }
}

impl From<i8> for Value {
    fn from(value: i8) -> (r: Value) {
        Value::Integer(Integer::Signed(value as i64))
    }
}

impl FromSpecImpl<i8> for Value {
    open spec fn obeys_from_spec() -> bool {
        true
    }

    open spec fn from_spec(v: i8) -> Value {
        Value::Integer(Integer::Signed(v as i64))
    }
}

impl From<i16> for Value {
    fn from(value: i16) -> (r: Value) {
        Value::Integer(Integer::Signed(value as i64))
    }
}

impl FromSpecImpl<i16> for Value {
    open spec fn obeys_from_spec() -> bool {
        true
    }

    open spec fn from_spec(v: i16) -> Value {
        Value::Integer(Integer::Signed(v as i64))
    }
}

impl From<i32> for Value {
    fn from(value: i32) -> (r: Value) {
        Value::Integer(Integer::Signed(value as i64))
    }
}

impl FromSpecImpl<i32> for Value {
    open spec fn obeys_from_spec() -> bool {
        true
    }

    open spec fn from_spec(v: i32) -> Value {
        Value::Integer(Integer::Signed(v as i64))
    }
}

impl From<i64> for Value {
    fn from(value: i64) -> (r: Value) {
        Value::Integer(Integer::Signed(value as i64))
    }
}

impl FromSpecImpl<i64> for Value {
    open spec fn obeys_from_spec() -> bool {
        true
    }

    open spec fn from_spec(v: i64) -> Value {
        Value::Integer(Integer::Signed(v as i64))
    }
}

impl From<u8> for Value {
    fn from(value: u8) -> (r: Value) {
        Value::Integer(Integer::Unsigned(value as u64))
    }
}

impl FromSpecImpl<u8> for Value {
    open spec fn obeys_from_spec() -> bool {
        true
    }

    open spec fn from_spec(v: u8) -> Value {
        Value::Integer(Integer::Unsigned(v as u64))
    }
}

impl From<u16> for Value {
    fn from(value: u16) -> (r: Value) {
        Value::Integer(Integer::Unsigned(value as u64))
    }
}

impl FromSpecImpl<u16> for Value {
    open spec fn obeys_from_spec() -> bool {
        true
    }

    open spec fn from_spec(v: u16) -> Value {
        Value::Integer(Integer::Unsigned(v as u64))
    }
}

impl From<u32> for Value {
    fn from(value: u32) -> (r: Value) {
        Value::Integer(Integer::Unsigned(value as u64))
    }
}

impl FromSpecImpl<u32> for Value {
    open spec fn obeys_from_spec() -> bool {
        true
    }

    open spec fn from_spec(v: u32) -> Value {
        Value::Integer(Integer::Unsigned(v as u64))
    }
}

impl From<u64> for Value {
    fn from(value: u64) -> (r: Value) {
        Value::Integer(Integer::Unsigned(value as u64))
    }
}

impl FromSpecImpl<u64> for Value {
    open spec fn obeys_from_spec() -> bool {
        true
    }

    open spec fn from_spec(v: u64) -> Value {
        Value::Integer(Integer::Unsigned(v as u64))
    }
}

/// A dictionary decreases to each of its values (for recursion over a
/// value tree).
pub proof fn lemma_dictionary_decreases(d: Dictionary, i: int)
    requires
        0 <= i < d.spec_entries().len(),
    ensures
        decreases_to!(d => d.spec_entries()[i].1),
{
    broadcast use vstd::std_specs::vec::group_vec_axioms;
    assert(decreases_to!(d => d.entries));
    assert(decreases_to!(d.entries => d.entries@));
    assert(decreases_to!(d.entries@ => d.entries@[i]));
    assert(decreases_to!(d.entries@[i] => d.entries@[i].1));
}

/// A container value decreases to each of its children.
pub proof fn lemma_child_decreases(v: Value, i: int)
    ensures
        (v matches Value::Dictionary(d) && 0 <= i < d.spec_entries().len()) ==> decreases_to!(v => v->Dictionary_0.spec_entries()[i].1),
        (v matches Value::Array(a) && 0 <= i < a@.len()) ==> decreases_to!(v => v->Array_0@[i]),
{
    broadcast use vstd::std_specs::vec::group_vec_axioms;
    match v {
        Value::Dictionary(d) => {
            if 0 <= i < d.spec_entries().len() {
                lemma_dictionary_decreases(d, i);
                assert(decreases_to!(v => d));
            }
        },
        Value::Array(a) => {
            if 0 <= i < a@.len() {
                assert(decreases_to!(v => a));
                assert(decreases_to!(a => a@));
                assert(decreases_to!(a@ => a@[i]));
            }
        },
        _ => {},
    }
}

} // verus!
