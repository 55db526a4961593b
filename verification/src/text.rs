//! Byte strings: NUL-terminated strings, UTF-8 decoding and the order of keys.

use vstd::prelude::*;
use vstd::utf8::{
    decode_utf8, encode_utf8, leading_bits_width_1, pop_first_scalar, valid_first_scalar, valid_utf8,
};

verus! {

/// `i` is the position of the first NUL byte of `s`.
pub open spec fn is_first_nul(s: Seq<u8>, i: int) -> bool {
    &&& 0 <= i < s.len()
    &&& s[i] == 0
    &&& forall|j: int| 0 <= j < i ==> s[j] != 0
}

/// `s` holds a NUL byte.
pub open spec fn has_nul(s: Seq<u8>) -> bool {
    exists|i: int| 0 <= i < s.len() && s[i] == 0
}

/// The position of the first NUL byte of `s` (meaningful where `has_nul(s)`).
pub open spec fn first_nul(s: Seq<u8>) -> int {
    choose|i: int| is_first_nul(s, i)
}

/// A byte sequence that holds a NUL byte has a first one, and it is unique.
pub proof fn lemma_first_nul(s: Seq<u8>)
    requires
        has_nul(s),
    ensures
        is_first_nul(s, first_nul(s)),
        forall|i: int| is_first_nul(s, i) ==> i == first_nul(s),
    decreases s.len(),
{
    if s[0] == 0 {
        assert(is_first_nul(s, 0));
    } else {
        let t = s.drop_first();
        let w = choose|i: int| 0 <= i < s.len() && s[i] == 0;
        assert(t[w - 1] == 0);
        lemma_first_nul(t);
        let k = first_nul(t);
        assert forall|j: int| 0 <= j < k + 1 implies s[j] != 0 by {
            if j > 0 {
                assert(s[j] == t[j - 1]);
            }
        }
        assert(is_first_nul(s, k + 1));
    }
    let f = first_nul(s);
    assert forall|i: int| is_first_nul(s, i) implies i == f by {
        if i < f {
            assert(s[i] != 0);
        } else if f < i {
            assert(s[f] != 0);
        }
    }
}

/// Where the first NUL byte of `a` is at `i`, it is also the first NUL
/// byte of every sequence that starts with `a`.
pub proof fn lemma_first_nul_extend(a: Seq<u8>, b: Seq<u8>, i: int)
    requires
        is_first_nul(a, i),
        a.len() <= b.len(),
        b.subrange(0, a.len() as int) == a,
    ensures
        is_first_nul(b, i),
{
    assert forall|j: int| 0 <= j <= i implies b[j] == a[j] by {
        assert(b[j] == b.subrange(0, a.len() as int)[j]);
    }
}

/// The characters that `String::from_utf8_lossy` makes of bytes that are
/// not valid UTF-8.
pub uninterp spec fn lossy_invalid(b: Seq<u8>) -> Seq<char>;

/// The characters that `String::from_utf8_lossy` makes of the bytes `b`:
/// valid UTF-8 decodes to exactly its characters.
#[verifier::opaque]
pub open spec fn lossy_utf8(b: Seq<u8>) -> Seq<char> {
    if valid_utf8(b) {
        decode_utf8(b)
    } else {
        lossy_invalid(b)
    }
}

/// Decodes `b` as UTF-8, replacing invalid sequences, by
/// `String::from_utf8_lossy(b).into_owned()`. The contract claims, as std
/// documents, that valid UTF-8 decodes to exactly its characters, and
/// names the result for other input `lossy_invalid`.
#[verifier::external_body]
pub(crate) fn lossy_string(b: &[u8]) -> (s: String)
    ensures
        valid_utf8(b@) ==> s@ == decode_utf8(b@),
        !valid_utf8(b@) ==> s@ == lossy_invalid(b@),
        s@ == lossy_utf8(b@),
{
    String::from_utf8_lossy(b).into_owned()
}

/// Valid UTF-8 decodes to characters that encode back to the same bytes.
pub proof fn lemma_lossy_round_trip(b: Seq<u8>)
    requires
        valid_utf8(b),
    ensures
        encode_utf8(lossy_utf8(b)) == b,
{
    reveal(lossy_utf8);
    vstd::utf8::decode_utf8_encode_utf8(b);
}

/// Finds the first `needle` byte of `haystack` with `memchr::memchr`. The
/// contract claims what memchr documents: the index of the first occurrence,
/// or `None` where there is none.
#[verifier::external_body]
fn find_byte(needle: u8, haystack: &[u8]) -> (r: Option<usize>)
    ensures
        match r {
            Some(i) => i < haystack@.len() && haystack@[i as int] == needle && forall|j: int|
                0 <= j < i ==> haystack@[j] != needle,
            None => forall|j: int| 0 <= j < haystack@.len() ==> haystack@[j] != needle,
        },
{
    memchr::memchr(needle, haystack)
}

/// Finds the first NUL byte of `b` at or after `start`.
pub fn find_nul(b: &[u8], start: usize) -> (r: Option<usize>)
    requires
        start <= b@.len(),
    ensures
        match r {
            Some(i) => start <= i && is_first_nul(b@.skip(start as int), i - start),
            None => !has_nul(b@.skip(start as int)),
        },
{
    let tail = &b[start..b.len()];
    assert(tail@ =~= b@.skip(start as int));
    match find_byte(0, tail) {
        Some(i) => Some(start + i),
        None => None,
    }
}

/// `a` sorts strictly before `b` byte by byte, a proper prefix first.
pub open spec fn lex_lt(a: Seq<u8>, b: Seq<u8>) -> bool
    decreases a.len(),
{
    if a.len() == 0 {
        b.len() > 0
    } else if b.len() == 0 {
        false
    } else if a[0] != b[0] {
        a[0] < b[0]
    } else {
        lex_lt(a.drop_first(), b.drop_first())
    }
}

pub proof fn lemma_lex_irreflexive(a: Seq<u8>)
    ensures
        !lex_lt(a, a),
    decreases a.len(),
{
    if a.len() > 0 {
        lemma_lex_irreflexive(a.drop_first());
    }
}

pub proof fn lemma_lex_total(a: Seq<u8>, b: Seq<u8>)
    ensures
        lex_lt(a, b) || lex_lt(b, a) || a == b,
    decreases a.len(),
{
    if a.len() > 0 && b.len() > 0 && a[0] == b[0] {
        lemma_lex_total(a.drop_first(), b.drop_first());
        if a.drop_first() == b.drop_first() {
            assert(a =~= seq![a[0]] + a.drop_first());
            assert(b =~= seq![b[0]] + b.drop_first());
        }
    } else if a.len() == 0 && b.len() == 0 {
        assert(a =~= b);
    }
}

pub proof fn lemma_lex_asymmetric(a: Seq<u8>, b: Seq<u8>)
    ensures
        !(lex_lt(a, b) && lex_lt(b, a)),
    decreases a.len(),
{
    if a.len() > 0 && b.len() > 0 && a[0] == b[0] {
        lemma_lex_asymmetric(a.drop_first(), b.drop_first());
    }
}

pub proof fn lemma_lex_transitive(a: Seq<u8>, b: Seq<u8>, c: Seq<u8>)
    requires
        lex_lt(a, b),
        lex_lt(b, c),
    ensures
        lex_lt(a, c),
    decreases a.len(),
{
    if a.len() > 0 && b.len() > 0 && c.len() > 0 && a[0] == b[0] && b[0] == c[0] {
        lemma_lex_transitive(a.drop_first(), b.drop_first(), c.drop_first());
    }
}

/// How two byte strings compare.
pub enum KeyOrder {
    Less,
    Equal,
    Greater,
}

/// Compares `a` and `b` byte by byte.
pub fn compare_bytes(a: &[u8], b: &[u8]) -> (c: KeyOrder)
    ensures
        c is Less <==> lex_lt(a@, b@),
        c is Equal <==> a@ == b@,
        c is Greater <==> lex_lt(b@, a@),
{
    let mut i: usize = 0;
    assert(a@.skip(0) =~= a@);
    assert(b@.skip(0) =~= b@);
    while i < a.len() && i < b.len() && a[i] == b[i]
        invariant
            0 <= i <= a@.len(),
            i <= b@.len(),
            a@.take(i as int) == b@.take(i as int),
            lex_lt(a@, b@) == lex_lt(a@.skip(i as int), b@.skip(i as int)),
            lex_lt(b@, a@) == lex_lt(b@.skip(i as int), a@.skip(i as int)),
        decreases a@.len() - i,
    {
        assert(a@.skip(i as int).drop_first() =~= a@.skip(i + 1));
        assert(b@.skip(i as int).drop_first() =~= b@.skip(i + 1));
        assert(a@.take(i + 1) =~= a@.take(i as int).push(a@[i as int]));
        assert(b@.take(i + 1) =~= b@.take(i as int).push(b@[i as int]));
        i = i + 1;
    }
    proof {
        lemma_lex_asymmetric(a@, b@);
    }
    if i < a.len() && i < b.len() {
        assert(a@.skip(i as int)[0] == a@[i as int]);
        assert(b@.skip(i as int)[0] == b@[i as int]);
        assert(a@[i as int] != b@[i as int]);
        if a[i] < b[i] {
            KeyOrder::Less
        } else {
            KeyOrder::Greater
        }
    } else if i < b.len() {
        assert(a@.take(i as int) =~= a@);
        KeyOrder::Less
    } else if i < a.len() {
        assert(b@.take(i as int) =~= b@);
        KeyOrder::Greater
    } else {
        assert(a@ =~= a@.take(i as int));
        assert(b@ =~= b@.take(i as int));
        proof {
            lemma_lex_irreflexive(a@);
        }
        KeyOrder::Equal
    }
}

/// `(na, a)` sorts strictly before `(nb, b)`: by namespace byte, then by
/// the bytes of the string. This is the order of the strings made of the
/// namespace character followed by the string, as the archive sorts them.
pub open spec fn key_lt(na: u8, a: Seq<u8>, nb: u8, b: Seq<u8>) -> bool {
    na < nb || (na == nb && lex_lt(a, b))
}

/// Compares two keys.
pub fn compare_keys(na: u8, a: &[u8], nb: u8, b: &[u8]) -> (c: KeyOrder)
    ensures
        c is Less <==> key_lt(na, a@, nb, b@),
        c is Equal <==> (na == nb && a@ == b@),
        c is Greater <==> key_lt(nb, b@, na, a@),
{
    if na < nb {
        KeyOrder::Less
    } else if nb < na {
        KeyOrder::Greater
    } else {
        compare_bytes(a, b)
    }
}

/// Every byte of `b` is ASCII.
pub open spec fn is_ascii_bytes(b: Seq<u8>) -> bool {
    forall|i: int| 0 <= i < b.len() ==> b[i] < 0x80
}

/// ASCII bytes are valid UTF-8.
pub proof fn lemma_ascii_valid(b: Seq<u8>)
    requires
        is_ascii_bytes(b),
    ensures
        valid_utf8(b),
    decreases b.len(),
{
    if b.len() > 0 {
        let x = b[0];
        assert(leading_bits_width_1(x) == x as u32) by (bit_vector)
            requires
                x < 0x80,
        ;
        assert(valid_first_scalar(b));
        assert(pop_first_scalar(b) =~= b.skip(1));
        lemma_ascii_valid(b.skip(1));
    }
}

/// Makes the string of the ASCII bytes `b`.
pub fn ascii_string(b: &[u8]) -> (s: String)
    requires
        is_ascii_bytes(b@),
    ensures
        encode_utf8(s@) == b@,
{
    proof {
        lemma_ascii_valid(b@);
        vstd::utf8::decode_utf8_encode_utf8(b@);
    }
    lossy_string(b)
}

/// The ASCII decimal digits of `n`.
pub open spec fn decimal(n: nat) -> Seq<u8>
    decreases n,
{
    if n < 10 {
        seq![(48 + n) as u8]
    } else {
        decimal(n / 10) + seq![(48 + n % 10) as u8]
    }
}

/// Decimal digits are ASCII.
pub proof fn lemma_decimal_ascii(n: nat)
    ensures
        is_ascii_bytes(decimal(n)),
    decreases n,
{
    if n >= 10 {
        lemma_decimal_ascii(n / 10);
    }
}

/// Appends the decimal digits of `n`.
pub fn push_decimal(out: &mut Vec<u8>, n: u64)
    ensures
        final(out)@ == old(out)@ + decimal(n as nat),
    decreases n,
{
    if n < 10 {
        out.push((48 + n) as u8);
    } else {
        push_decimal(out, n / 10);
        out.push((48 + n % 10) as u8);
    }
    assert(final(out)@ =~= old(out)@ + decimal(n as nat));
}

/// Appends the bytes of `b`.
pub fn push_bytes(out: &mut Vec<u8>, b: &[u8])
    ensures
        final(out)@ == old(out)@ + b@,
{
    let mut i: usize = 0;
    while i < b.len()
        invariant
            0 <= i <= b@.len(),
            out@ == old(out)@ + b@.subrange(0, i as int),
        decreases b@.len() - i,
    {
        out.push(b[i]);
        i = i + 1;
        assert(b@.subrange(0, i as int) =~= b@.subrange(0, i - 1).push(b@[i - 1]));
    }
    assert(b@.subrange(0, b@.len() as int) =~= b@);
}

} // verus!
