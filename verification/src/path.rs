//! Dotted paths into a document: looking a value up and writing one in place.
//!
//! A path is a run of segments separated by `.`. In a mapping a segment is a
//! key; in a sequence it is a decimal index.

use crate::text::{bytes_of, find, find_byte, parse_index, read_index};
use crate::value::{
    first_index, lemma_first_index, lemma_sequence_model, models, Mapping, Node, Value,
};
use vstd::prelude::*;
use vstd::slice::*;
use vstd::string::*;

verus! {

/// The byte that separates the segments of a path.
pub const DOT: u8 = 0x2E;

/// The first segment of a path.
pub open spec fn head(path: Seq<u8>) -> Seq<u8> {
    path.take(find(path, DOT) as int)
}

/// Whether anything follows the first segment.
pub open spec fn has_rest(path: Seq<u8>) -> bool {
    find(path, DOT) < path.len()
}

/// The path after its first segment and the separator.
pub open spec fn rest(path: Seq<u8>) -> Seq<u8> {
    path.skip(find(path, DOT) as int + 1)
}

/// What `path` leads to in a mapping: its first segment is a key.
pub open spec fn resolve_in_table(m: Map<Seq<u8>, Node>, path: Seq<u8>) -> Option<Node>
    decreases path.len(), 1nat,
{
    if m.dom().contains(head(path)) {
        descend(m[head(path)], path)
    } else {
        None
    }
}

/// What `path` leads to in a sequence: its first segment is an index.
pub open spec fn resolve_in_list(s: Seq<Node>, path: Seq<u8>) -> Option<Node>
    decreases path.len(), 1nat,
{
    match parse_index(head(path)) {
        Some(i) => if i < s.len() {
            descend(s[i as int], path)
        } else {
            None
        },
        None => None,
    }
}

/// What `path` leads to, once its first segment has led to `node`. Null is
/// never found. With segments left the node has to be a mapping or a
/// sequence; with none left the node is the result.
pub open spec fn descend(node: Node, path: Seq<u8>) -> Option<Node>
    decreases path.len(), 0nat,
{
    if node is Null {
        None
    } else if has_rest(path) {
        match node {
            Node::Table(m) => resolve_in_table(m, rest(path)),
            Node::List(s) => resolve_in_list(s, rest(path)),
            _ => None,
        }
    } else {
        Some(node)
    }
}

/// The mapping with `new` in the slot that `path` leads to, or `None` where
/// the path leads nowhere. No key is ever added.
pub open spec fn rewrite_in_table(m: Map<Seq<u8>, Node>, path: Seq<u8>, new: Node) -> Option<
    Map<Seq<u8>, Node>,
>
    decreases path.len(), 1nat,
{
    if m.dom().contains(head(path)) {
        match put(m[head(path)], path, new) {
            Some(n) => Some(m.insert(head(path), n)),
            None => None,
        }
    } else {
        None
    }
}

/// The sequence with `new` in the slot that `path` leads to, or `None` where
/// the path leads nowhere. No item is ever added.
pub open spec fn rewrite_in_list(s: Seq<Node>, path: Seq<u8>, new: Node) -> Option<Seq<Node>>
    decreases path.len(), 1nat,
{
    match parse_index(head(path)) {
        Some(i) => if i < s.len() {
            match put(s[i as int], path, new) {
                Some(n) => Some(s.update(i as int, n)),
                None => None,
            }
        } else {
            None
        },
        None => None,
    }
}

/// What becomes of `node`, which the first segment of `path` has led to:
/// with no segment left it gives way to `new`, whatever it was; with segments
/// left it has to be a mapping or a sequence, and the rest is written there.
pub open spec fn put(node: Node, path: Seq<u8>, new: Node) -> Option<Node>
    decreases path.len(), 0nat,
{
    if has_rest(path) {
        match node {
            Node::Table(m) => match rewrite_in_table(m, rest(path), new) {
                Some(m2) => Some(Node::Table(m2)),
                None => None,
            },
            Node::List(s) => match rewrite_in_list(s, rest(path), new) {
                Some(s2) => Some(Node::List(s2)),
                None => None,
            },
            _ => None,
        }
    } else {
        Some(new)
    }
}

/// A path that leads to a value in a mapping can be written to.
pub proof fn lemma_rewrite_in_table_succeeds(m: Map<Seq<u8>, Node>, path: Seq<u8>, new: Node)
    requires
        resolve_in_table(m, path) is Some,
    ensures
        rewrite_in_table(m, path, new) is Some,
    decreases path.len(), 1nat,
{
    lemma_put_succeeds(m[head(path)], path, new);
}

/// A path that leads to a value in a sequence can be written to.
pub proof fn lemma_rewrite_in_list_succeeds(s: Seq<Node>, path: Seq<u8>, new: Node)
    requires
        resolve_in_list(s, path) is Some,
    ensures
        rewrite_in_list(s, path, new) is Some,
    decreases path.len(), 1nat,
{
    lemma_put_succeeds(s[parse_index(head(path))->0 as int], path, new);
}

/// What can be found below a node can be written below it.
pub proof fn lemma_put_succeeds(node: Node, path: Seq<u8>, new: Node)
    requires
        descend(node, path) is Some,
    ensures
        put(node, path, new) is Some,
    decreases path.len(), 0nat,
{
    if has_rest(path) {
        match node {
            Node::Table(m) => lemma_rewrite_in_table_succeeds(m, rest(path), new),
            Node::List(s) => lemma_rewrite_in_list_succeeds(s, rest(path), new),
            _ => {},
        }
    }
}

/// Writing adds no key to a mapping and takes none away.
pub proof fn lemma_rewrite_in_table_keeps_keys(m: Map<Seq<u8>, Node>, path: Seq<u8>, new: Node)
    requires
        rewrite_in_table(m, path, new) is Some,
    ensures
        rewrite_in_table(m, path, new)->0.dom() == m.dom(),
{
}

/// Writing leaves a sequence as long as it was.
pub proof fn lemma_rewrite_in_list_keeps_length(s: Seq<Node>, path: Seq<u8>, new: Node)
    requires
        rewrite_in_list(s, path, new) is Some,
    ensures
        rewrite_in_list(s, path, new)->0.len() == s.len(),
{
}

/// What was written to a path in a mapping is what the path then leads to,
/// unless it is null, which is never found.
pub proof fn lemma_resolve_after_rewrite_in_table(
    m: Map<Seq<u8>, Node>,
    path: Seq<u8>,
    new: Node,
)
    requires
        rewrite_in_table(m, path, new) is Some,
        !(new is Null),
    ensures
        resolve_in_table(rewrite_in_table(m, path, new)->0, path) == Some(new),
    decreases path.len(), 1nat,
{
    lemma_descend_after_put(m[head(path)], path, new);
}

/// What was written to a path in a sequence is what the path then leads to,
/// unless it is null.
pub proof fn lemma_resolve_after_rewrite_in_list(s: Seq<Node>, path: Seq<u8>, new: Node)
    requires
        rewrite_in_list(s, path, new) is Some,
        !(new is Null),
    ensures
        resolve_in_list(rewrite_in_list(s, path, new)->0, path) == Some(new),
    decreases path.len(), 1nat,
{
    lemma_descend_after_put(s[parse_index(head(path))->0 as int], path, new);
}

/// What was written below a node is what is then found below it.
pub proof fn lemma_descend_after_put(node: Node, path: Seq<u8>, new: Node)
    requires
        put(node, path, new) is Some,
        !(new is Null),
    ensures
        descend(put(node, path, new)->0, path) == Some(new),
    decreases path.len(), 0nat,
{
    if has_rest(path) {
        match node {
            Node::Table(m) => lemma_resolve_after_rewrite_in_table(m, rest(path), new),
            Node::List(s) => lemma_resolve_after_rewrite_in_list(s, rest(path), new),
            _ => {},
        }
    }
}

/// Of two writes to one path in a mapping only the second shows.
pub proof fn lemma_rewrite_in_table_twice(
    m: Map<Seq<u8>, Node>,
    path: Seq<u8>,
    first: Node,
    second: Node,
)
    requires
        rewrite_in_table(m, path, first) is Some,
    ensures
        rewrite_in_table(rewrite_in_table(m, path, first)->0, path, second) == rewrite_in_table(
            m,
            path,
            second,
        ),
    decreases path.len(), 1nat,
{
    lemma_put_twice(m[head(path)], path, first, second);
}

/// Of two writes to one path in a sequence only the second shows.
pub proof fn lemma_rewrite_in_list_twice(s: Seq<Node>, path: Seq<u8>, first: Node, second: Node)
    requires
        rewrite_in_list(s, path, first) is Some,
    ensures
        rewrite_in_list(rewrite_in_list(s, path, first)->0, path, second) == rewrite_in_list(
            s,
            path,
            second,
        ),
    decreases path.len(), 1nat,
{
    lemma_put_twice(s[parse_index(head(path))->0 as int], path, first, second);
}

/// Of two writes below a node only the second shows.
pub proof fn lemma_put_twice(node: Node, path: Seq<u8>, first: Node, second: Node)
    requires
        put(node, path, first) is Some,
    ensures
        put(put(node, path, first)->0, path, second) == put(node, path, second),
    decreases path.len(), 0nat,
{
    if has_rest(path) {
        match node {
            Node::Table(m) => lemma_rewrite_in_table_twice(m, rest(path), first, second),
            Node::List(s) => lemma_rewrite_in_list_twice(s, rest(path), first, second),
            _ => {},
        }
    }
}

/// Looks `path` up in a mapping and hands the value out where it stands.
pub fn lookup_in_map<'a>(map: &'a Mapping, path: &[u8]) -> (r: Option<&'a Value>)
    ensures
        match r {
            Some(v) => resolve_in_table(map.model(), path@) == Some(v.model()),
            None => resolve_in_table(map.model(), path@) is None,
        },
    decreases path@.len(), 1nat,
{
    let k = find_byte(path, DOT);
    let seg = slice_subrange(path, 0, k);
    match map.position(seg) {
        Some(i) => lookup_below(&map.entries[i].1, path),
        None => None,
    }
}

/// Looks `path` up in a sequence and hands the value out where it stands.
pub fn lookup_in_seq<'a>(seq: &'a [Value], path: &[u8]) -> (r: Option<&'a Value>)
    ensures
        match r {
            Some(v) => resolve_in_list(models(seq@), path@) == Some(v.model()),
            None => resolve_in_list(models(seq@), path@) is None,
        },
    decreases path@.len(), 1nat,
{
    let k = find_byte(path, DOT);
    let seg = slice_subrange(path, 0, k);
    let n = seq.len();
    match read_index(seg) {
        Some(i) => if i < n {
            lookup_below(&seq[i], path)
        } else {
            None
        },
        None => None,
    }
}

/// Goes on from the value that the first segment of `path` has led to.
fn lookup_below<'a>(val: &'a Value, path: &[u8]) -> (r: Option<&'a Value>)
    ensures
        match r {
            Some(v) => descend(val.model(), path@) == Some(v.model()),
            None => descend(val.model(), path@) is None,
        },
    decreases path@.len(), 0nat,
{
    let k = find_byte(path, DOT);
    if k < path.len() {
        let tail = slice_subrange(path, k + 1, path.len());
        match val {
            Value::Mapping(m) => lookup_in_map(m, tail),
            Value::Sequence(s) => {
                proof {
                    lemma_sequence_model(*s);
                }
                lookup_in_seq(s.as_slice(), tail)
            },
            _ => None,
        }
    } else {
        match val {
            Value::Null => None,
            _ => Some(val),
        }
    }
}

/// The value that a dotted path leads to in a sequence, if it leads to one.
pub fn get_val_from_config_seq(seq: &[Value], key: &str) -> (r: Option<Value>)
    ensures
        match r {
            Some(v) => resolve_in_list(models(seq@), bytes_of(key@)) == Some(v.model()),
            None => resolve_in_list(models(seq@), bytes_of(key@)) is None,
        },
{
    match lookup_in_seq(seq, key.as_bytes()) {
        Some(v) => Some(v.clone()),
        None => None,
    }
}

/// The value that a dotted path leads to in a mapping, if it leads to one.
pub fn get_val_from_config_map(map: &Mapping, key: &str) -> (r: Option<Value>)
    ensures
        match r {
            Some(v) => resolve_in_table(map.model(), bytes_of(key@)) == Some(v.model()),
            None => resolve_in_table(map.model(), bytes_of(key@)) is None,
        },
{
    match lookup_in_map(map, key.as_bytes()) {
        Some(v) => Some(v.clone()),
        None => None,
    }
}

/// Changing the value of one entry changes the model at that entry's key,
/// where the entry is the first with its key.
pub proof fn lemma_entry_replaced(before: Mapping, after: Mapping, i: int, k: Seq<u8>)
    requires
        0 <= i < before.entries@.len(),
        after.entries@.len() == before.entries@.len(),
        first_index(before.keys(), k) == i,
        forall|j: int|
            0 <= j < before.entries@.len() ==> #[trigger] after.entries@[j].0@
                == before.entries@[j].0@,
        forall|j: int|
            0 <= j < before.entries@.len() && j != i ==> #[trigger] after.entries@[j].1.model()
                == before.entries@[j].1.model(),
    ensures
        after.model() == before.model().insert(k, after.entries@[i].1.model()),
{
    assert(after.keys() =~= before.keys());
    assert forall|q: Seq<u8>| #[trigger] after.model().dom().contains(q) implies after.model()[q]
        == before.model().insert(k, after.entries@[i].1.model())[q] by {
        lemma_first_index(before.keys(), q);
        lemma_first_index(before.keys(), k);
        let a = first_index(before.keys(), q);
        assert(after.model()[q] == after.entries@[a].1.model());
    }
}

/// Writes `value` where `path` leads in a mapping.
pub fn store_in_map(map: &mut Mapping, path: &[u8], value: Value) -> (r: Option<()>)
    ensures
        match rewrite_in_table(old(map).model(), path@, value.model()) {
            Some(m) => r is Some && final(map).model() == m,
            None => r is None && final(map).model() == old(map).model(),
        },
    decreases path@.len(), 1nat,
{
    let k = find_byte(path, DOT);
    let seg = slice_subrange(path, 0, k);
    match map.position(seg) {
        Some(i) => {
            let r = store_below(&mut map.entries[i].1, path, value);
            proof {
                lemma_entry_replaced(*old(map), *map, i as int, seg@);
                assert(old(map).model().insert(seg@, old(map).model()[seg@]) =~= old(
                    map,
                ).model());
            }
            r
        },
        None => None,
    }
}

/// Writes `value` where `path` leads in a sequence.
pub fn store_in_seq(seq: &mut [Value], path: &[u8], value: Value) -> (r: Option<()>)
    ensures
        final(seq)@.len() == old(seq)@.len(),
        match rewrite_in_list(models(old(seq)@), path@, value.model()) {
            Some(s) => r is Some && models(final(seq)@) == s,
            None => r is None && models(final(seq)@) == models(old(seq)@),
        },
    decreases path@.len(), 1nat,
{
    let k = find_byte(path, DOT);
    let seg = slice_subrange(path, 0, k);
    let n = seq.len();
    match read_index(seg) {
        Some(i) => if i < n {
            let r = store_below(&mut seq[i], path, value);
            proof {
                assert forall|j: int| 0 <= j < seq@.len() && j != i implies seq@[j] == old(
                    seq,
                )@[j] by {}
                assert(models(old(seq)@).update(i as int, old(seq)@[i as int].model()) =~= models(
                    old(seq)@,
                ));
            }
            r
        } else {
            None
        },
        None => None,
    }
}

/// Writes `value` into or below the value that the first segment of `path`
/// has led to.
fn store_below(val: &mut Value, path: &[u8], value: Value) -> (r: Option<()>)
    ensures
        match put(old(val).model(), path@, value.model()) {
            Some(n) => r is Some && final(val).model() == n,
            None => r is None && final(val).model() == old(val).model(),
        },
    decreases path@.len(), 0nat,
{
    let k = find_byte(path, DOT);
    if k < path.len() {
        let tail = slice_subrange(path, k + 1, path.len());
        match val {
            Value::Mapping(m) => store_in_map(m, tail, value),
            Value::Sequence(s) => {
                proof {
                    lemma_sequence_model(*s);
                }
                let r = store_in_seq(s.as_mut_slice(), tail, value);
                proof {
                    lemma_sequence_model(*s);
                }
                r
            },
            _ => None,
        }
    } else {
        *val = value;
        Some(())
    }
}

/// Overwrites the value that a dotted path leads to in a sequence. Returns
/// `None`, and changes nothing, where the path leads nowhere.
pub fn set_val_in_config_seq(seq: &mut [Value], key: &str, value: Value) -> (r: Option<()>)
    ensures
        final(seq)@.len() == old(seq)@.len(),
        match rewrite_in_list(models(old(seq)@), bytes_of(key@), value.model()) {
            Some(s) => r is Some && models(final(seq)@) == s,
            None => r is None && models(final(seq)@) == models(old(seq)@),
        },
{
    store_in_seq(seq, key.as_bytes(), value)
}

/// Overwrites the value that a dotted path leads to in a mapping. Returns
/// `None`, and changes nothing, where the path leads nowhere.
pub fn set_val_in_config_map(map: &mut Mapping, key: &str, value: Value) -> (r: Option<()>)
    ensures
        match rewrite_in_table(old(map).model(), bytes_of(key@), value.model()) {
            Some(m) => r is Some && final(map).model() == m,
            None => r is None && final(map).model() == old(map).model(),
        },
{
    store_in_map(map, key.as_bytes(), value)
}

} // verus!
