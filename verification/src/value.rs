//! The document: scalars, sequences and mappings, and what each renders as.

use crate::text::{bytes_eq, bytes_of, decimal, signed_decimal};
use vstd::prelude::*;
use vstd::string::*;

verus! {

/// A number of a document. An integer is held by value; any other number is
/// held as the decimal text it is written with.
#[derive(Debug, PartialEq, Eq)]
pub enum Number {
    PosInt(u64),
    NegInt(i64),
    Real(String),
}

/// A node of a document.
#[derive(Debug, PartialEq, Eq)]
pub enum Value {
    Null,
    Bool(bool),
    Number(Number),
    String(String),
    Sequence(Vec<Value>),
    Mapping(Mapping),
}

/// A mapping from text keys to values. Where a key occurs twice, the first
/// entry is the one that counts.
#[derive(Debug, PartialEq, Eq)]
pub struct Mapping {
    pub entries: Vec<(String, Value)>,
}

/// The mathematical model of a document node. Text is held as its UTF-8
/// bytes, and a number as the bytes of its decimal text.
pub enum Node {
    Null,
    Bool(bool),
    Number(Seq<u8>),
    Text(Seq<u8>),
    List(Seq<Node>),
    Table(Map<Seq<u8>, Node>),
}

impl Node {
    /// False for null and for the boolean false, true for everything else:
    /// an empty sequence or mapping is truthy too.
    pub open spec fn truthy(self) -> bool {
        !(self is Null) && self != Node::Bool(false)
    }

    /// What a node renders as. A sequence and a mapping are never written
    /// out: each renders as a fixed placeholder.
    pub open spec fn text(self) -> Seq<u8> {
        match self {
            Node::Null => bytes_of("null"@),
            Node::Bool(b) => if b {
                bytes_of("true"@)
            } else {
                bytes_of("false"@)
            },
            Node::Number(t) => t,
            Node::Text(t) => t,
            Node::List(_) => bytes_of("[list]"@),
            Node::Table(_) => bytes_of("{map}"@),
        }
    }
}

/// The position of the first key equal to `k`, or -1 where there is none.
pub open spec fn first_index(keys: Seq<Seq<u8>>, k: Seq<u8>) -> int
    decreases keys.len(),
{
    if keys.len() == 0 {
        -1
    } else if keys[0] == k {
        0
    } else {
        let r = first_index(keys.skip(1), k);
        if r < 0 {
            -1
        } else {
            r + 1
        }
    }
}

/// The first index is a place in `keys` that holds `k`, with no `k` before
/// it; where it is -1, no place holds `k`.
pub proof fn lemma_first_index(keys: Seq<Seq<u8>>, k: Seq<u8>)
    ensures
        -1 <= first_index(keys, k) < keys.len(),
        first_index(keys, k) >= 0 ==> keys[first_index(keys, k)] == k,
        forall|j: int|
            0 <= j < keys.len() && (first_index(keys, k) < 0 || j < first_index(keys, k))
                ==> keys[j] != k,
    decreases keys.len(),
{
    if keys.len() == 0 {
    } else if keys[0] == k {
    } else {
        let rest = keys.skip(1);
        lemma_first_index(rest, k);
        let r = first_index(keys, k);
        assert forall|j: int| 0 <= j < keys.len() && (r < 0 || j < r) implies keys[j] != k by {
            if j > 0 {
                assert(rest[j - 1] == keys[j]);
            }
        }
    }
}

/// A position that holds `k`, with no `k` before it, is the first index.
pub proof fn lemma_first_index_is(keys: Seq<Seq<u8>>, k: Seq<u8>, i: int)
    requires
        0 <= i < keys.len(),
        keys[i] == k,
        forall|j: int| 0 <= j < i ==> keys[j] != k,
    ensures
        first_index(keys, k) == i,
{
    lemma_first_index(keys, k);
}

/// Where no position holds `k`, there is no first index.
pub proof fn lemma_first_index_none(keys: Seq<Seq<u8>>, k: Seq<u8>)
    requires
        forall|j: int| 0 <= j < keys.len() ==> keys[j] != k,
    ensures
        first_index(keys, k) == -1,
{
    lemma_first_index(keys, k);
}

/// The models of a run of values, one for one.
pub open spec fn models(s: Seq<Value>) -> Seq<Node> {
    Seq::new(s.len(), |i: int| s[i].model())
}

impl Number {
    /// The decimal text of the number.
    pub open spec fn text(&self) -> Seq<u8> {
        match self {
            Number::PosInt(u) => decimal(*u as nat),
            Number::NegInt(i) => signed_decimal(*i as int),
            Number::Real(s) => bytes_of(s@),
        }
    }
}

impl Value {
    /// The node that the value stands for.
    pub open spec fn model(&self) -> Node
        decreases self,
    {
        match self {
            Value::Null => Node::Null,
            Value::Bool(b) => Node::Bool(*b),
            Value::Number(n) => Node::Number(n.text()),
            Value::String(s) => Node::Text(bytes_of(s@)),
            Value::Sequence(v) => Node::List(
                Seq::new(
                    v@.len(),
                    |i: int|
                        if 0 <= i < v@.len() {
                            v@[i].model()
                        } else {
                            Node::Null
                        },
                ),
            ),
            Value::Mapping(m) => Node::Table(m.model()),
        }
    }
}

impl Mapping {
    /// The keys of the entries, in their order, as bytes.
    pub open spec fn keys(&self) -> Seq<Seq<u8>> {
        Seq::new(self.entries@.len(), |j: int| bytes_of(self.entries@[j].0@))
    }

    /// The mapping as a map from key to node: each key stands for its first
    /// entry.
    pub open spec fn model(&self) -> Map<Seq<u8>, Node>
        decreases self,
    {
        Map::new(
            |k: Seq<u8>| first_index(self.keys(), k) >= 0,
            |k: Seq<u8>|
                {
                    let i = first_index(self.keys(), k);
                    if 0 <= i < self.entries@.len() {
                        self.entries@[i].1.model()
                    } else {
                        Node::Null
                    }
                },
        )
    }
}

/// The model of a sequence is the run of its items' models.
pub proof fn lemma_sequence_model(v: Vec<Value>)
    ensures
        Value::Sequence(v).model() == Node::List(models(v@)),
{
    assert(Value::Sequence(v).model()->List_0 =~= models(v@));
}

/// The decimal text of an unsigned integer.
///
/// Calls serde_yaml: `Number::from` on a `u64` and the number's `Display`,
/// which writes an integer as std writes a `u64`: in decimal digits, without
/// sign or leading zero.
#[verifier::external_body]
fn unsigned_text(n: u64) -> (r: String)
    ensures
        bytes_of(r@) == decimal(n as nat),
{
    serde_yaml::Number::from(n).to_string()
}

/// The decimal text of a signed integer.
///
/// Calls serde_yaml: `Number::from` on an `i64` and the number's `Display`,
/// which writes an integer as std writes it: in decimal digits, with `-`
/// before a negative one.
#[verifier::external_body]
fn signed_text(i: i64) -> (r: String)
    ensures
        bytes_of(r@) == signed_decimal(i as int),
{
    serde_yaml::Number::from(i).to_string()
}

impl Clone for Number {
    fn clone(&self) -> (r: Self)
        ensures
            r == *self,
    {
        match self {
            Number::PosInt(u) => Number::PosInt(*u),
            Number::NegInt(i) => Number::NegInt(*i),
            Number::Real(s) => Number::Real(s.clone()),
        }
    }
}

impl Clone for Value {
    fn clone(&self) -> (r: Self)
        ensures
            r.model() == self.model(),
        decreases self,
    {
        match self {
            Value::Null => Value::Null,
            Value::Bool(b) => Value::Bool(*b),
            Value::Number(n) => Value::Number(n.clone()),
            Value::String(s) => Value::String(s.clone()),
            Value::Sequence(v) => {
                let mut out: Vec<Value> = Vec::new();
                let mut i: usize = 0;
                while i < v.len()
                    invariant
                        i <= v.len(),
                        out@.len() == i,
                        forall|j: int| 0 <= j < i ==> out@[j].model() == v@[j].model(),
                        self is Sequence,
                        self->Sequence_0 == *v,
                    decreases v.len() - i,
                {
                    proof {
                        vstd::std_specs::vec::axiom_vec_index_decreases(*v, i as int);
                    }
                    let item = v[i].clone();
                    out.push(item);
                    i += 1;
                }
                proof {
                    lemma_sequence_model(out);
                    lemma_sequence_model(*v);
                    assert(models(out@) =~= models(v@));
                }
                Value::Sequence(out)
            },
            Value::Mapping(m) => Value::Mapping(m.clone()),
        }
    }
}

impl Clone for Mapping {
    fn clone(&self) -> (r: Self)
        ensures
            r.model() == self.model(),
        decreases self,
    {
        let mut out: Vec<(String, Value)> = Vec::new();
        let mut i: usize = 0;
        while i < self.entries.len()
            invariant
                i <= self.entries.len(),
                out@.len() == i,
                forall|j: int|
                    0 <= j < i ==> out@[j].0@ == self.entries@[j].0@ && out@[j].1.model()
                        == self.entries@[j].1.model(),
            decreases self.entries.len() - i,
        {
            proof {
                vstd::std_specs::vec::axiom_vec_index_decreases(self.entries, i as int);
            }
            let key = self.entries[i].0.clone();
            let value = self.entries[i].1.clone();
            out.push((key, value));
            i += 1;
        }
        let r = Mapping { entries: out };
        proof {
            assert(r.keys() =~= self.keys());
        }
        r
    }
}

impl Mapping {
    /// A mapping without entries.
    pub fn new() -> (m: Mapping)
        ensures
            m.model() == Map::<Seq<u8>, Node>::empty(),
            m.entries@.len() == 0,
    {
        let m = Mapping { entries: Vec::new() };
        m
    }

    /// The place of the entry that `key` stands for.
    pub fn position(&self, key: &[u8]) -> (r: Option<usize>)
        ensures
            match r {
                Some(i) => i < self.entries@.len() && first_index(self.keys(), key@) == i,
                None => first_index(self.keys(), key@) == -1,
            },
    {
        let mut i: usize = 0;
        while i < self.entries.len()
            invariant
                i <= self.entries.len(),
                forall|j: int| 0 <= j < i ==> self.keys()[j] != key@,
            decreases self.entries.len() - i,
        {
            if bytes_eq(self.entries[i].0.as_str().as_bytes(), key) {
                proof {
                    lemma_first_index_is(self.keys(), key@, i as int);
                }
                return Some(i);
            }
            i += 1;
        }
        proof {
            lemma_first_index_none(self.keys(), key@);
        }
        None
    }

    /// The value under `key`, if the mapping has that key.
    pub fn get(&self, key: &str) -> (r: Option<&Value>)
        ensures
            match r {
                Some(v) => self.model().dom().contains(bytes_of(key@)) && self.model()[bytes_of(
                    key@,
                )] == v.model(),
                None => !self.model().dom().contains(bytes_of(key@)),
            },
    {
        match self.position(key.as_bytes()) {
            Some(i) => Some(&self.entries[i].1),
            None => None,
        }
    }

    /// Puts `value` under `key`: in place of the value that the key had, or as
    /// a new entry. Returns whether the key was there before.
    pub fn insert(&mut self, key: String, value: Value) -> (r: bool)
        ensures
            final(self).model() == old(self).model().insert(bytes_of(key@), value.model()),
            r == old(self).model().dom().contains(bytes_of(key@)),
    {
        let ghost k = bytes_of(key@);
        let ghost node = value.model();
        match self.position(key.as_str().as_bytes()) {
            Some(i) => {
                self.entries[i].1 = value;
                proof {
                    assert(self.keys() =~= old(self).keys());
                    assert forall|q: Seq<u8>| #[trigger]
                        self.model().dom().contains(q) implies self.model()[q] == old(
                        self,
                    ).model().insert(k, node)[q] by {
                        lemma_first_index(self.keys(), q);
                        lemma_first_index(self.keys(), k);
                    }
                }
                true
            },
            None => {
                self.entries.push((key, value));
                proof {
                    let n = old(self).entries@.len() as int;
                    assert forall|q: Seq<u8>|
                        first_index(self.keys(), q) == (if first_index(old(self).keys(), q) >= 0 {
                            first_index(old(self).keys(), q)
                        } else if q == k {
                            n
                        } else {
                            -1
                        }) by {
                        lemma_first_index(old(self).keys(), q);
                        lemma_first_index(self.keys(), q);
                        let a = first_index(old(self).keys(), q);
                        let b = first_index(self.keys(), q);
                        if a >= 0 {
                            assert(self.keys()[a] == q);
                        } else if q == k {
                            assert(self.keys()[n] == q);
                        }
                        if 0 <= b < n {
                            assert(old(self).keys()[b] == q);
                        }
                    }
                    assert forall|q: Seq<u8>| #[trigger]
                        self.model().dom().contains(q) implies self.model()[q] == old(
                        self,
                    ).model().insert(k, node)[q] by {
                        lemma_first_index(old(self).keys(), q);
                    }
                }
                false
            },
        }
    }
}

/// Tells whether a value counts as true: all but null and `false` do.
pub fn val_is_truthy(val: &Value) -> (r: bool)
    ensures
        r == val.model().truthy(),
{
    match val {
        Value::Bool(false) => false,
        Value::Null => false,
        _ => true,
    }
}

/// The text that a value renders as: a string as itself, a number in
/// decimal, a boolean as `true` or `false`, null as `null`, a mapping as
/// `{map}` and a sequence as `[list]`.
pub fn val_to_string(val: Value) -> (r: String)
    ensures
        bytes_of(r@) == val.model().text(),
{
    match val {
        Value::Bool(b) => if b {
            "true".to_owned()
        } else {
            "false".to_owned()
        },
        Value::Mapping(_) => "{map}".to_owned(),
        Value::Null => "null".to_owned(),
        Value::Number(n) => match n {
            Number::PosInt(u) => unsigned_text(u),
            Number::NegInt(i) => signed_text(i),
            Number::Real(s) => s,
        },
        Value::Sequence(_) => "[list]".to_owned(),
        Value::String(s) => s,
    }
}

} // verus!
