//! Percent-encoding and percent-decoding of byte strings.
//!
//! Encoding keeps ASCII alphanumerics and `-`, `.`, `_`, `~` as they are and
//! writes every other byte as `%XX` with upper-case hex digits. Decoding maps
//! every valid `%XX` triple back to its byte and copies everything else
//! unchanged.
use vstd::prelude::*;

verus! {

/// A byte that percent-encoding leaves as it is: ASCII alphanumeric or one of
/// `-`, `.`, `_`, `~`.
pub open spec fn is_unreserved_byte(b: u8) -> bool {
    (0x30 <= b && b <= 0x39)  // '0'..='9'
    || (0x41 <= b && b <= 0x5a)  // 'A'..='Z'
    || (0x61 <= b && b <= 0x7a)  // 'a'..='z'
    || b == 0x2d  // '-'
    || b == 0x2e  // '.'
    || b == 0x5f  // '_'
    || b == 0x7e  // '~'
}

/// The upper-case hex digit for a nibble.
pub open spec fn spec_hex_digit(n: u8) -> u8
    recommends
        n < 16,
{
    if n < 10 {
        (0x30 + n) as u8  // '0'..='9'
    } else {
        (0x41 + (n - 10)) as u8  // 'A'..='F'
    }
}

/// A byte that decoding accepts as a hex digit (either case).
pub open spec fn is_hex_digit_byte(b: u8) -> bool {
    (0x30 <= b && b <= 0x39) || (0x41 <= b && b <= 0x46) || (0x61 <= b && b <= 0x66)
}

/// The value of a hex digit byte.
pub open spec fn hex_value(b: u8) -> u8
    recommends
        is_hex_digit_byte(b),
{
    if 0x30 <= b && b <= 0x39 {
        (b - 0x30) as u8
    } else if 0x41 <= b && b <= 0x46 {
        (b - 0x41 + 10) as u8
    } else {
        (b - 0x61 + 10) as u8
    }
}

/// What one byte encodes to: itself if unreserved, else `%XX`.
pub open spec fn encoded_byte(b: u8) -> Seq<u8> {
    if is_unreserved_byte(b) {
        seq![b]
    } else {
        seq![0x25u8, spec_hex_digit(b / 16), spec_hex_digit(b % 16)]
    }
}

/// The percent-encoding of a whole byte string.
pub open spec fn encoded(s: Seq<u8>) -> Seq<u8>
    decreases s.len(),
{
    if s.len() == 0 {
        Seq::empty()
    } else {
        encoded_byte(s[0]) + encoded(s.drop_first())
    }
}

/// The percent-decoding of a byte string: each `%XX` triple with valid hex
/// digits becomes one byte; any other byte (a stray `%` included) is copied.
pub open spec fn decoded(s: Seq<u8>) -> Seq<u8>
    decreases s.len(),
{
    if s.len() == 0 {
        Seq::empty()
    } else if s[0] == 0x25 && s.len() >= 3 && is_hex_digit_byte(s[1]) && is_hex_digit_byte(s[2]) {
        seq![(16 * hex_value(s[1]) + hex_value(s[2])) as u8] + decoded(s.skip(3))
    } else {
        seq![s[0]] + decoded(s.drop_first())
    }
}

fn hex_digit(n: u8) -> (r: u8)
    requires
        n < 16,
    ensures
        r == spec_hex_digit(n),
{
    if n < 10 {
        0x30 + n
    } else {
        0x41 + (n - 10)
    }
}

fn is_unreserved(b: u8) -> (r: bool)
    ensures
        r == is_unreserved_byte(b),
{
    (0x30 <= b && b <= 0x39) || (0x41 <= b && b <= 0x5a) || (0x61 <= b && b <= 0x7a) || b == 0x2d
        || b == 0x2e || b == 0x5f || b == 0x7e
}

fn is_hex_digit(b: u8) -> (r: bool)
    ensures
        r == is_hex_digit_byte(b),
{
    (0x30 <= b && b <= 0x39) || (0x41 <= b && b <= 0x46) || (0x61 <= b && b <= 0x66)
}

/// Percent-encode a byte string.
pub fn encode_bytes(s: &Vec<u8>) -> (r: Vec<u8>)
    ensures
        r@ == encoded(s@),
{
    let mut r: Vec<u8> = Vec::new();
    let mut i: usize = 0;
    proof {
        assert(s@.skip(0) =~= s@);
    }
    while i < s.len()
        invariant
            i <= s.len(),
            encoded(s@) == r@ + encoded(s@.skip(i as int)),
        decreases s.len() - i,
    {
        let b = s[i];
        proof {
            assert(s@.skip(i as int).drop_first() =~= s@.skip(i + 1));
            assert(encoded(s@.skip(i as int)) == encoded_byte(b) + encoded(s@.skip(i + 1)));
        }
        let ghost r_old = r@;
        if is_unreserved(b) {
            r.push(b);
            proof {
                assert(r@ =~= r_old + encoded_byte(b));
            }
        } else {
            r.push(0x25);
            r.push(hex_digit(b / 16));
            r.push(hex_digit(b % 16));
            proof {
                assert(r@ =~= r_old + encoded_byte(b));
            }
        }
        proof {
            assert(r@ + encoded(s@.skip(i + 1)) =~= (r_old + encoded_byte(b)) + encoded(
                s@.skip(i + 1),
            ));
            assert((r_old + encoded_byte(b)) + encoded(s@.skip(i + 1)) =~= r_old + (encoded_byte(b)
                + encoded(s@.skip(i + 1))));
        }
        i = i + 1;
    }
    proof {
        assert(s@.skip(s@.len() as int) =~= Seq::<u8>::empty());
        assert(r@ + encoded(s@.skip(s@.len() as int)) =~= r@);
    }
    r
}

/// Percent-decode a byte string.
pub fn decode_bytes(s: &Vec<u8>) -> (r: Vec<u8>)
    ensures
        r@ == decoded(s@),
{
    let mut r: Vec<u8> = Vec::new();
    let mut i: usize = 0;
    proof {
        assert(s@.skip(0) =~= s@);
    }
    while i < s.len()
        invariant
            i <= s.len(),
            decoded(s@) == r@ + decoded(s@.skip(i as int)),
        decreases s.len() - i,
    {
        let b = s[i];
        let ghost r_old = r@;
        let ghost tail = s@.skip(i as int);
        if b == 0x25 && s.len() - i > 2 && is_hex_digit(s[i + 1]) && is_hex_digit(s[i + 2]) {
            let v = 16 * hex_value_exec(s[i + 1]) + hex_value_exec(s[i + 2]);
            r.push(v);
            proof {
                assert(tail.len() >= 3);
                assert(tail[1] == s@[i + 1] && tail[2] == s@[i + 2]);
                assert(tail.skip(3) =~= s@.skip(i + 3));
                assert(decoded(tail) == seq![v] + decoded(s@.skip(i + 3)));
                assert(r@ =~= r_old + seq![v]);
                assert(r@ + decoded(s@.skip(i + 3)) =~= r_old + decoded(tail));
            }
            i = i + 3;
        } else {
            r.push(b);
            proof {
                assert(tail.drop_first() =~= s@.skip(i + 1));
                assert(decoded(tail) == seq![b] + decoded(s@.skip(i + 1)));
                assert(r@ =~= r_old + seq![b]);
                assert(r@ + decoded(s@.skip(i + 1)) =~= r_old + decoded(tail));
            }
            i = i + 1;
        }
    }
    proof {
        assert(i == s@.len());
        assert(s@.skip(s@.len() as int) =~= Seq::<u8>::empty());
        assert(r@ + decoded(s@.skip(s@.len() as int)) =~= r@);
    }
    r
}

fn hex_value_exec(b: u8) -> (r: u8)
    requires
        is_hex_digit_byte(b),
    ensures
        r == hex_value(b),
        r < 16,
{
    if 0x30 <= b && b <= 0x39 {
        b - 0x30
    } else if 0x41 <= b && b <= 0x46 {
        b - 0x41 + 10
    } else {
        b - 0x61 + 10
    }
}

/// Encoding a byte string in which every byte is unreserved leaves it
/// unchanged; encoding is therefore idempotent on such strings.
pub proof fn lemma_encode_unreserved_identity(s: Seq<u8>)
    requires
        forall|i: int| 0 <= i < s.len() ==> is_unreserved_byte(s[i]),
    ensures
        encoded(s) == s,
    decreases s.len(),
{
    if s.len() == 0 {
        assert(encoded(s) =~= s);
    } else {
        lemma_encode_unreserved_identity(s.drop_first());
        assert(encoded(s) =~= seq![s[0]] + s.drop_first());
        assert(seq![s[0]] + s.drop_first() =~= s);
    }
}

/// Idempotence itself, for inputs with no byte that needs escaping.
pub proof fn lemma_encode_idempotent(s: Seq<u8>)
    requires
        forall|i: int| 0 <= i < s.len() ==> is_unreserved_byte(s[i]),
    ensures
        encoded(encoded(s)) == encoded(s),
{
    lemma_encode_unreserved_identity(s);
}

/// Decoding undoes encoding exactly, for every byte string.
pub proof fn lemma_decode_encode_roundtrip(s: Seq<u8>)
    ensures
        decoded(encoded(s)) == s,
    decreases s.len(),
{
    if s.len() == 0 {
        assert(decoded(encoded(s)) =~= s);
    } else {
        let b = s[0];
        let rest = encoded(s.drop_first());
        lemma_decode_encode_roundtrip(s.drop_first());
        if is_unreserved_byte(b) {
            let e = seq![b] + rest;
            assert(encoded(s) == e);
            assert(e[0] == b && b != 0x25);
            assert(e.drop_first() =~= rest);
            assert(decoded(e) == seq![b] + decoded(rest));
            assert(seq![b] + s.drop_first() =~= s);
        } else {
            let h1 = spec_hex_digit(b / 16);
            let h2 = spec_hex_digit(b % 16);
            let e = seq![0x25u8, h1, h2] + rest;
            assert(encoded(s) == e);
            lemma_hex_digit_value(b / 16);
            lemma_hex_digit_value(b % 16);
            assert(e.len() >= 3 && e[0] == 0x25 && e[1] == h1 && e[2] == h2);
            assert(e.skip(3) =~= rest);
            assert(16 * hex_value(h1) + hex_value(h2) == 16 * (b / 16) + (b % 16));
            assert(16 * (b / 16) + (b % 16) == b) by (nonlinear_arith);
            assert(decoded(e) == seq![b] + decoded(rest));
            assert(seq![b] + s.drop_first() =~= s);
        }
    }
}

/// The hex digit of a nibble is a hex digit byte and decodes to the nibble.
proof fn lemma_hex_digit_value(n: u8)
    requires
        n < 16,
    ensures
        is_hex_digit_byte(spec_hex_digit(n)),
        hex_value(spec_hex_digit(n)) == n,
{
}

} // verus!
