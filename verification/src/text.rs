//! Text: order, equality and trimming of strings.
//!
//! A string is modelled by its characters, `Seq<char>`. Strings are ordered by
//! the bytes of their UTF-8 encodings, lexicographically.

use vstd::prelude::*;
use vstd::utf8::encode_utf8;

verus! {

/// `i` is the place at which `a` turns out to be smaller than `b`: they agree
/// before it, and there `a` either ends or has the smaller byte.
pub open spec fn smaller_at(a: Seq<u8>, b: Seq<u8>, i: int) -> bool {
    &&& 0 <= i <= a.len()
    &&& i < b.len()
    &&& forall|j: int| 0 <= j < i ==> a[j] == b[j]
    &&& i == a.len() || a[i] < b[i]
}

/// Lexicographic order of byte strings.
pub open spec fn bytes_lt(a: Seq<u8>, b: Seq<u8>) -> bool {
    exists|i: int| smaller_at(a, b, i)
}

/// The order of strings: that of their UTF-8 encodings.
pub open spec fn text_lt(a: Seq<char>, b: Seq<char>) -> bool {
    bytes_lt(encode_utf8(a), encode_utf8(b))
}

/// How one string stands to another in the order of strings.
#[derive(Clone, Copy, Debug, PartialEq, Eq, Structural)]
pub enum Rank {
    Before,
    Same,
    After,
}

/// No string comes before itself.
pub proof fn text_order_irreflexive(a: Seq<char>)
    ensures
        !text_lt(a, a),
{
}

/// The order of strings is transitive.
pub proof fn text_order_transitive(a: Seq<char>, b: Seq<char>, c: Seq<char>)
    requires
        text_lt(a, b),
        text_lt(b, c),
    ensures
        text_lt(a, c),
{
    let (x, y, z) = (encode_utf8(a), encode_utf8(b), encode_utf8(c));
    let i = choose|i: int| smaller_at(x, y, i);
    let k = choose|k: int| smaller_at(y, z, k);
    if i <= k {
        assert(smaller_at(x, z, i));
    } else {
        assert(smaller_at(x, z, k));
    }
}

/// Of two different strings one comes before the other.
pub proof fn text_order_total(a: Seq<char>, b: Seq<char>)
    ensures
        a == b || text_lt(a, b) || text_lt(b, a),
{
    let (x, y) = (encode_utf8(a), encode_utf8(b));
    bytes_order_total(x, y, 0);
    if x == y {
        encoding_injective(a, b);
    }
}

proof fn bytes_order_total(x: Seq<u8>, y: Seq<u8>, n: int)
    requires
        0 <= n <= x.len(),
        n <= y.len(),
        forall|j: int| 0 <= j < n ==> x[j] == y[j],
    ensures
        x == y || bytes_lt(x, y) || bytes_lt(y, x),
    decreases x.len() - n,
{
    if n == x.len() && n == y.len() {
        assert(x =~= y);
    } else if n == x.len() || (n < y.len() && x[n] < y[n]) {
        assert(smaller_at(x, y, n));
    } else if n == y.len() || y[n] < x[n] {
        assert(smaller_at(y, x, n));
    } else {
        bytes_order_total(x, y, n + 1);
    }
}

/// Two strings with one encoding are the same string.
pub proof fn encoding_injective(a: Seq<char>, b: Seq<char>)
    requires
        encode_utf8(a) == encode_utf8(b),
    ensures
        a == b,
{
    vstd::utf8::encode_utf8_decode_utf8(a);
    vstd::utf8::encode_utf8_decode_utf8(b);
}

/// Compares two strings.
pub fn rank(a: &str, b: &str) -> (r: Rank)
    ensures
        r == Rank::Before <==> text_lt(a@, b@),
        r == Rank::Same <==> a@ == b@,
        r == Rank::After <==> text_lt(b@, a@),
{
    let x: &[u8] = a.as_bytes();
    let y: &[u8] = b.as_bytes();
    let mut n: usize = 0;
    proof {
        text_order_irreflexive(a@);
        if text_lt(a@, b@) && text_lt(b@, a@) {
            text_order_transitive(a@, b@, a@);
        }
    }
    while n < x.len() && n < y.len() && x[n] == y[n]
        invariant
            n <= x@.len(),
            n <= y@.len(),
            forall|j: int| 0 <= j < n ==> x@[j] == y@[j],
        decreases x@.len() - n,
    {
        n = n + 1;
    }
    if n < y.len() && (n == x.len() || x[n] < y[n]) {
        assert(smaller_at(x@, y@, n as int));
        Rank::Before
    } else if n < x.len() {
        assert(smaller_at(y@, x@, n as int));
        Rank::After
    } else {
        proof {
            assert(x@ =~= y@);
            encoding_injective(a@, b@);
        }
        Rank::Same
    }
}

/// Whether two strings are the same.
pub fn same(a: &str, b: &str) -> (r: bool)
    ensures
        r == (a@ == b@),
{
    match rank(a, b) {
        Rank::Same => true,
        _ => false,
    }
}

/// The characters with the Unicode property `White_Space`.
pub open spec fn is_whitespace(c: char) -> bool {
    ||| '\u{9}' <= c <= '\u{d}'
    ||| c == '\u{20}'
    ||| c == '\u{85}'
    ||| c == '\u{a0}'
    ||| c == '\u{1680}'
    ||| '\u{2000}' <= c <= '\u{200a}'
    ||| c == '\u{2028}'
    ||| c == '\u{2029}'
    ||| c == '\u{202f}'
    ||| c == '\u{205f}'
    ||| c == '\u{3000}'
}

/// A string without the whitespace it starts and ends with.
pub open spec fn trimmed(s: Seq<char>) -> Seq<char>
    decreases s.len(),
{
    if s.len() > 0 && is_whitespace(s.first()) {
        trimmed(s.drop_first())
    } else if s.len() > 0 && is_whitespace(s.last()) {
        trimmed(s.drop_last())
    } else {
        s
    }
}

/// Whether a character is whitespace.
pub fn whitespace(c: char) -> (r: bool)
    ensures
        r == is_whitespace(c),
{
    ('\u{9}' <= c && c <= '\u{d}') || c == '\u{20}' || c == '\u{85}' || c == '\u{a0}' || c
        == '\u{1680}' || ('\u{2000}' <= c && c <= '\u{200a}') || c == '\u{2028}' || c == '\u{2029}'
        || c == '\u{202f}' || c == '\u{205f}' || c == '\u{3000}'
}

/// A string without the whitespace it starts and ends with.
pub fn trim(s: &str) -> (r: &str)
    ensures
        r@ == trimmed(s@),
{
    let mut from: usize = 0;
    let mut to: usize = s.unicode_len();
    assert(s@.subrange(0, to as int) =~= s@);
    while from < to && whitespace(s.get_char(from))
        invariant
            from <= to <= s@.len(),
            trimmed(s@) == trimmed(s@.subrange(from as int, to as int)),
        decreases to - from,
    {
        assert(s@.subrange(from as int, to as int).drop_first() =~= s@.subrange(
            from + 1,
            to as int,
        ));
        from = from + 1;
    }
    while from < to && whitespace(s.get_char(to - 1))
        invariant
            from <= to <= s@.len(),
            from < to ==> !is_whitespace(s@[from as int]),
            trimmed(s@) == trimmed(s@.subrange(from as int, to as int)),
        decreases to - from,
    {
        assert(s@.subrange(from as int, to as int).drop_last() =~= s@.subrange(
            from as int,
            to - 1,
        ));
        to = to - 1;
    }
    s.substring_char(from, to)
}

} // verus!
