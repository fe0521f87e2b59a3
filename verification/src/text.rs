//! Byte-level text: searching, trimming, decimal numbers and UTF-8.
//!
//! Templates are byte streams, so every rule of the library is stated over
//! `Seq<u8>`. Text enters as the UTF-8 bytes of a `str` and leaves the same way.

use vstd::prelude::*;
use vstd::slice::*;
use vstd::string::*;
use vstd::utf8::*;

verus! {

/// The UTF-8 bytes of a piece of text.
pub open spec fn bytes_of(s: Seq<char>) -> Seq<u8> {
    encode_utf8(s)
}

/// The position of the first `x` in `b`, or `b.len()` where there is none.
pub open spec fn find(b: Seq<u8>, x: u8) -> nat
    decreases b.len(),
{
    if b.len() == 0 || b[0] == x {
        0
    } else {
        1 + find(b.skip(1), x)
    }
}

/// `find` returns the least position that holds `x`.
pub proof fn lemma_find(b: Seq<u8>, x: u8)
    ensures
        find(b, x) <= b.len(),
        find(b, x) < b.len() ==> b[find(b, x) as int] == x,
        forall|j: int| 0 <= j < find(b, x) ==> b[j] != x,
    decreases b.len(),
{
    if b.len() == 0 || b[0] == x {
    } else {
        lemma_find(b.skip(1), x);
        assert forall|j: int| 0 <= j < find(b, x) implies b[j] != x by {
            if j > 0 {
                assert(b.skip(1)[j - 1] == b[j]);
            }
        }
    }
}

/// A position with no `x` before it, which holds `x` or is the end, is `find`.
pub proof fn lemma_find_is(b: Seq<u8>, x: u8, i: int)
    requires
        0 <= i <= b.len(),
        forall|j: int| 0 <= j < i ==> b[j] != x,
        i < b.len() ==> b[i] == x,
    ensures
        find(b, x) == i,
{
    lemma_find(b, x);
}

/// Whether `m` stands in `b` at position `i`.
pub open spec fn occurs_at(b: Seq<u8>, m: Seq<u8>, i: int) -> bool {
    0 <= i && i + m.len() <= b.len() && b.subrange(i, i + m.len()) == m
}

/// Whether `m` stands anywhere in `b`.
pub open spec fn occurs_in(b: Seq<u8>, m: Seq<u8>) -> bool {
    exists|i: int| occurs_at(b, m, i)
}

/// The first position at which `m` stands in `b`, or `b.len()` where it
/// stands nowhere.
pub open spec fn find_seq(b: Seq<u8>, m: Seq<u8>) -> nat
    decreases b.len(),
{
    if occurs_at(b, m, 0) || b.len() == 0 {
        0
    } else {
        1 + find_seq(b.skip(1), m)
    }
}

/// `find_seq` returns the least position at which `m` stands.
pub proof fn lemma_find_seq(b: Seq<u8>, m: Seq<u8>)
    ensures
        find_seq(b, m) <= b.len(),
        find_seq(b, m) < b.len() ==> occurs_at(b, m, find_seq(b, m) as int),
        forall|j: int| 0 <= j < find_seq(b, m) ==> !occurs_at(b, m, j),
    decreases b.len(),
{
    if occurs_at(b, m, 0) || b.len() == 0 {
    } else {
        let t = b.skip(1);
        lemma_find_seq(t, m);
        let f = find_seq(t, m) as int;
        if f < t.len() {
            assert(t.subrange(f, f + m.len()) == b.subrange(f + 1, f + 1 + m.len()));
        }
        assert forall|j: int| 0 <= j < find_seq(b, m) implies !occurs_at(b, m, j) by {
            if j > 0 && j + m.len() <= b.len() {
                assert(t.subrange(j - 1, j - 1 + m.len()) == b.subrange(j, j + m.len()));
                assert(!occurs_at(t, m, j - 1));
            }
        }
    }
}

/// A position with no occurrence before it, which holds one or is past the
/// last place where one could start, is `find_seq`.
pub proof fn lemma_find_seq_is(b: Seq<u8>, m: Seq<u8>, i: int)
    requires
        0 <= i <= b.len(),
        forall|j: int| 0 <= j < i ==> !occurs_at(b, m, j),
        i < b.len() ==> occurs_at(b, m, i),
    ensures
        find_seq(b, m) == i,
{
    lemma_find_seq(b, m);
}

/// ASCII white space: tab, line feed, vertical tab, form feed, carriage
/// return and space.
pub open spec fn is_ascii_space(x: u8) -> bool {
    (0x09 <= x <= 0x0D) || x == 0x20
}

/// The two-byte encodings of white space: U+0085 and U+00A0.
pub open spec fn is_space2(x: u8, y: u8) -> bool {
    x == 0xC2 && (y == 0x85 || y == 0xA0)
}

/// The three-byte encodings of white space: U+1680, U+2000 to U+200A,
/// U+2028, U+2029, U+202F, U+205F and U+3000.
pub open spec fn is_space3(x: u8, y: u8, z: u8) -> bool {
    ||| (x == 0xE1 && y == 0x9A && z == 0x80)
    ||| (x == 0xE2 && y == 0x80 && ((0x80 <= z <= 0x8A) || z == 0xA8 || z == 0xA9 || z == 0xAF))
    ||| (x == 0xE2 && y == 0x81 && z == 0x9F)
    ||| (x == 0xE3 && y == 0x80 && z == 0x80)
}

/// The length of the white-space character that `b` starts with, 0 for none.
pub open spec fn space_front(b: Seq<u8>) -> nat {
    if b.len() >= 1 && is_ascii_space(b[0]) {
        1
    } else if b.len() >= 2 && is_space2(b[0], b[1]) {
        2
    } else if b.len() >= 3 && is_space3(b[0], b[1], b[2]) {
        3
    } else {
        0
    }
}

/// The length of the white-space character that `b` ends with, 0 for none.
pub open spec fn space_back(b: Seq<u8>) -> nat {
    let n = b.len() as int;
    if n >= 1 && is_ascii_space(b[n - 1]) {
        1
    } else if n >= 2 && is_space2(b[n - 2], b[n - 1]) {
        2
    } else if n >= 3 && is_space3(b[n - 3], b[n - 2], b[n - 1]) {
        3
    } else {
        0
    }
}

/// The number of bytes of white space that `b` starts with.
pub open spec fn leading_space(b: Seq<u8>) -> nat
    decreases b.len(),
{
    let k = space_front(b);
    if k == 0 {
        0
    } else {
        k + leading_space(b.skip(k as int))
    }
}

/// The number of bytes of white space that `b` ends with.
pub open spec fn trailing_space(b: Seq<u8>) -> nat
    decreases b.len(),
{
    let k = space_back(b);
    if k == 0 {
        0
    } else {
        k + trailing_space(b.take(b.len() - k))
    }
}

/// `b` without the white space around it.
pub open spec fn trim(b: Seq<u8>) -> Seq<u8> {
    let front = b.skip(leading_space(b) as int);
    front.take(front.len() - trailing_space(front))
}

/// The white space at the front is part of `b`.
pub proof fn lemma_leading_space(b: Seq<u8>)
    ensures
        leading_space(b) <= b.len(),
    decreases b.len(),
{
    let k = space_front(b);
    if k != 0 {
        lemma_leading_space(b.skip(k as int));
    }
}

/// The white space at the back is part of `b`.
pub proof fn lemma_trailing_space(b: Seq<u8>)
    ensures
        trailing_space(b) <= b.len(),
    decreases b.len(),
{
    let k = space_back(b);
    if k != 0 {
        lemma_trailing_space(b.take(b.len() - k));
    }
}

/// Trimming cuts a piece out of `b`: it never adds a byte.
pub proof fn lemma_trim(b: Seq<u8>)
    ensures
        leading_space(b) + trailing_space(b.skip(leading_space(b) as int)) <= b.len(),
        trim(b) == b.subrange(
            leading_space(b) as int,
            b.len() - trailing_space(b.skip(leading_space(b) as int)),
        ),
        trim(b).len() <= b.len(),
{
    lemma_leading_space(b);
    lemma_trailing_space(b.skip(leading_space(b) as int));
}

/// White space at the front is a whole character: what follows it in
/// well-formed UTF-8 is well-formed UTF-8.
pub proof fn lemma_leading_space_valid(b: Seq<u8>)
    requires
        valid_utf8(b),
    ensures
        valid_utf8(b.skip(leading_space(b) as int)),
    decreases b.len(),
{
    let k = space_front(b);
    if k == 0 {
        assert(b.skip(0) == b);
    } else {
        lemma_leading_space_valid(b.skip(k as int));
        lemma_leading_space(b.skip(k as int));
        assert(b.skip(k as int).skip(leading_space(b.skip(k as int)) as int) == b.skip(
            leading_space(b) as int,
        ));
    }
}

/// White space at the back is a whole character: what stands before it in
/// well-formed UTF-8 is well-formed UTF-8.
pub proof fn lemma_trailing_space_valid(b: Seq<u8>)
    requires
        valid_utf8(b),
    ensures
        valid_utf8(b.take(b.len() - trailing_space(b))),
    decreases b.len(),
{
    let k = space_back(b);
    if k == 0 {
        assert(b.take(b.len() as int) == b);
    } else {
        let cut = b.len() - k;
        is_char_boundary_iff_not_is_continuation_byte(b, cut);
        valid_utf8_split(b, cut);
        lemma_trailing_space_valid(b.take(cut));
        lemma_trailing_space(b.take(cut));
        assert(b.take(cut).take(cut - trailing_space(b.take(cut))) == b.take(
            b.len() - trailing_space(b),
        ));
    }
}

/// Trimmed text is text.
pub proof fn lemma_trim_valid(b: Seq<u8>)
    requires
        valid_utf8(b),
    ensures
        valid_utf8(trim(b)),
{
    lemma_leading_space_valid(b);
    lemma_trailing_space_valid(b.skip(leading_space(b) as int));
}

/// An ASCII decimal digit.
pub open spec fn is_digit(x: u8) -> bool {
    0x30 <= x <= 0x39
}

/// Whether every byte of `b` is a decimal digit.
pub open spec fn all_digits(b: Seq<u8>) -> bool {
    forall|i: int| 0 <= i < b.len() ==> is_digit(#[trigger] b[i])
}

/// The number that a run of decimal digits writes.
pub open spec fn digits_value(b: Seq<u8>) -> nat
    decreases b.len(),
{
    if b.len() == 0 {
        0
    } else {
        digits_value(b.drop_last()) * 10 + (b.last() - 0x30) as nat
    }
}

/// A sequence index as a path segment writes it: an optional `+`, then one or
/// more decimal digits. Anything else is no index.
pub open spec fn parse_index(b: Seq<u8>) -> Option<nat> {
    let d = if b.len() > 0 && b[0] == 0x2B {
        b.skip(1)
    } else {
        b
    };
    if d.len() > 0 && all_digits(d) {
        Some(digits_value(d))
    } else {
        None
    }
}

/// A longer run of digits writes no smaller a number than its start does.
pub proof fn lemma_digits_value_grows(b: Seq<u8>, j: int)
    requires
        0 <= j <= b.len(),
        all_digits(b),
    ensures
        digits_value(b.take(j)) <= digits_value(b),
    decreases b.len() - j,
{
    if j == b.len() {
        assert(b.take(j) == b);
    } else {
        lemma_digits_value_grows(b, j + 1);
        assert(b.take(j + 1).drop_last() == b.take(j));
    }
}

/// The ASCII digit for `d`, which is below ten.
pub open spec fn digit(d: nat) -> u8 {
    (0x30 + d) as u8
}

/// The decimal text of a natural number, without sign or leading zero.
pub open spec fn decimal(n: nat) -> Seq<u8>
    decreases n,
{
    if n < 10 {
        seq![digit(n)]
    } else {
        decimal(n / 10).push(digit(n % 10))
    }
}

/// The decimal text of an integer: `-` before a negative one.
pub open spec fn signed_decimal(i: int) -> Seq<u8> {
    if i < 0 {
        seq![0x2Du8] + decimal((-i) as nat)
    } else {
        decimal(i as nat)
    }
}

/// Finds the first `x` in `b`.
pub fn find_byte(b: &[u8], x: u8) -> (r: usize)
    ensures
        r == find(b@, x),
        r <= b@.len(),
{
    let mut i: usize = 0;
    while i < b.len() && b[i] != x
        invariant
            i <= b.len(),
            forall|j: int| 0 <= j < i ==> b@[j] != x,
        decreases b.len() - i,
    {
        i += 1;
    }
    proof {
        lemma_find_is(b@, x, i as int);
    }
    i
}

/// Tells whether two byte strings are equal.
pub fn bytes_eq(a: &[u8], b: &[u8]) -> (r: bool)
    ensures
        r == (a@ == b@),
{
    if a.len() != b.len() {
        return false;
    }
    let mut i: usize = 0;
    while i < a.len()
        invariant
            i <= a.len(),
            a.len() == b.len(),
            forall|j: int| 0 <= j < i ==> a@[j] == b@[j],
        decreases a.len() - i,
    {
        if a[i] != b[i] {
            return false;
        }
        i += 1;
    }
    assert(a@ =~= b@);
    true
}

/// Tells whether `b` starts with `p`.
pub fn starts_with(b: &[u8], p: &[u8]) -> (r: bool)
    ensures
        r == p@.is_prefix_of(b@),
{
    if p.len() > b.len() {
        return false;
    }
    let head = slice_subrange(b, 0, p.len());
    let r = bytes_eq(head, p);
    r
}

/// Finds the first place at which `m` stands in `b`.
pub fn find_bytes(b: &[u8], m: &[u8]) -> (r: usize)
    ensures
        r == find_seq(b@, m@),
        r <= b@.len(),
        r < b@.len() ==> r + m@.len() <= b@.len(),
{
    let mut i: usize = 0;
    while i < b.len()
        invariant
            i <= b.len(),
            forall|j: int| 0 <= j < i ==> !occurs_at(b@, m@, j),
        decreases b.len() - i,
    {
        if m.len() <= b.len() - i {
            let piece = slice_subrange(b, i, i + m.len());
            if bytes_eq(piece, m) {
                proof {
                    lemma_find_seq_is(b@, m@, i as int);
                }
                return i;
            }
        }
        i += 1;
    }
    proof {
        lemma_find_seq_is(b@, m@, i as int);
    }
    i
}

/// Tells whether `x` is ASCII white space.
fn ascii_space(x: u8) -> (r: bool)
    ensures
        r == is_ascii_space(x),
{
    (0x09 <= x && x <= 0x0D) || x == 0x20
}

/// Tells whether `x` and `y` encode a white-space character.
fn space2(x: u8, y: u8) -> (r: bool)
    ensures
        r == is_space2(x, y),
{
    x == 0xC2 && (y == 0x85 || y == 0xA0)
}

/// Tells whether `x`, `y` and `z` encode a white-space character.
fn space3(x: u8, y: u8, z: u8) -> (r: bool)
    ensures
        r == is_space3(x, y, z),
{
    (x == 0xE1 && y == 0x9A && z == 0x80) || (x == 0xE2 && y == 0x80 && ((0x80 <= z && z <= 0x8A)
        || z == 0xA8 || z == 0xA9 || z == 0xAF)) || (x == 0xE2 && y == 0x81 && z == 0x9F) || (x
        == 0xE3 && y == 0x80 && z == 0x80)
}

/// The length of the white-space character that `b` holds at `s`, within
/// the bounds `s` and `e`.
fn space_front_at(b: &[u8], s: usize, e: usize) -> (k: usize)
    requires
        s <= e <= b.len(),
    ensures
        k == space_front(b@.subrange(s as int, e as int)),
        s + k <= e,
{
    let n = e - s;
    if n >= 1 && ascii_space(b[s]) {
        1
    } else if n >= 2 && space2(b[s], b[s + 1]) {
        2
    } else if n >= 3 && space3(b[s], b[s + 1], b[s + 2]) {
        3
    } else {
        0
    }
}

/// The length of the white-space character that `b` holds right before
/// `e`, within the bounds `s` and `e`.
fn space_back_at(b: &[u8], s: usize, e: usize) -> (k: usize)
    requires
        s <= e <= b.len(),
    ensures
        k == space_back(b@.subrange(s as int, e as int)),
        s + k <= e,
{
    let n = e - s;
    if n >= 1 && ascii_space(b[e - 1]) {
        1
    } else if n >= 2 && space2(b[e - 2], b[e - 1]) {
        2
    } else if n >= 3 && space3(b[e - 3], b[e - 2], b[e - 1]) {
        3
    } else {
        0
    }
}

/// The bounds of `b` without the white space around it.
pub fn trim_bounds(b: &[u8]) -> (r: (usize, usize))
    ensures
        r.0 <= r.1 <= b@.len(),
        b@.subrange(r.0 as int, r.1 as int) == trim(b@),
{
    let n = b.len();
    let mut s: usize = 0;
    assert(b@.subrange(0, n as int) == b@);
    let mut k = space_front_at(b, s, n);
    while k != 0
        invariant
            s + k <= n,
            n == b@.len(),
            k == space_front(b@.skip(s as int)),
            leading_space(b@) == s + leading_space(b@.skip(s as int)),
        decreases n - s,
    {
        assert(b@.skip(s as int).skip(k as int) == b@.skip(s + k));
        s += k;
        k = space_front_at(b, s, n);
    }
    let ghost front = b@.skip(s as int);
    let mut e: usize = n;
    assert(front.take(n - s) == front);
    k = space_back_at(b, s, e);
    while k != 0
        invariant
            s + k <= e <= n,
            n == b@.len(),
            front == b@.skip(s as int),
            leading_space(b@) == s,
            k == space_back(front.take(e - s)),
            trailing_space(front) == (n - e) + trailing_space(front.take(e - s)),
        decreases e - s,
    {
        assert(front.take(e - s).take(e - s - k) == front.take(e - k - s));
        e -= k;
        k = space_back_at(b, s, e);
    }
    (s, e)
}

/// Reads a sequence index. `None` where the text is no index, or where the
/// index is too large for `usize`.
pub fn read_index(b: &[u8]) -> (r: Option<usize>)
    ensures
        match r {
            Some(i) => parse_index(b@) == Some(i as nat),
            None => parse_index(b@) matches Some(v) ==> v > usize::MAX,
        },
{
    let start: usize = if b.len() > 0 && b[0] == 0x2B {
        1
    } else {
        0
    };
    let ghost d = b@.skip(start as int);
    assert(b@.skip(0) == b@);
    if start == b.len() {
        return None;
    }
    let mut acc: usize = 0;
    let mut i: usize = start;
    while i < b.len()
        invariant
            start <= i <= b.len(),
            d == b@.skip(start as int),
            parse_index(b@) == (if d.len() > 0 && all_digits(d) {
                Some(digits_value(d))
            } else {
                None
            }),
            all_digits(d.take(i - start)),
            acc == digits_value(d.take(i - start)),
        decreases b.len() - i,
    {
        let x = b[i];
        if x < 0x30 || x > 0x39 {
            assert(!is_digit(d[i - start]));
            return None;
        }
        let ghost next = d.take(i - start + 1);
        proof {
            assert(next.drop_last() == d.take(i - start));
        }
        let shifted = match acc.checked_mul(10) {
            Some(v) => v,
            None => {
                proof {
                    if all_digits(d) {
                        lemma_digits_value_grows(d, i - start + 1);
                    }
                }
                return None;
            },
        };
        acc = match shifted.checked_add((x - 0x30) as usize) {
            Some(v) => v,
            None => {
                proof {
                    if all_digits(d) {
                        lemma_digits_value_grows(d, i - start + 1);
                    }
                }
                return None;
            },
        };
        i += 1;
    }
    assert(d.take(i - start) == d);
    Some(acc)
}

/// Appends the bytes of `s` to `v`.
pub fn append_bytes(v: &mut Vec<u8>, s: &[u8])
    ensures
        final(v)@ == old(v)@ + s@,
{
    v.extend_from_slice(s);
}

/// The text that `b` holds, where `b` is UTF-8.
///
/// Calls `std::str::from_utf8`, which accepts exactly the well-formed UTF-8
/// byte strings and hands back the same bytes as a `str`.
#[verifier::external_body]
pub(crate) fn utf8_text(b: &[u8]) -> (r: Option<&str>)
    ensures
        match r {
            Some(s) => valid_utf8(b@) && bytes_of(s@) == b@,
            None => !valid_utf8(b@),
        },
{
    match std::str::from_utf8(b) {
        Ok(s) => Some(s),
        Err(_) => None,
    }
}

} // verus!
