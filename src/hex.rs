//! Hexadecimal text for identifiers and keys: two lowercase digits per byte
//! when writing, either case when reading.
use vstd::prelude::*;

verus! {

/// The value of a hexadecimal digit, or -1 for any other byte.
pub open spec fn hex_value(c: u8) -> int {
    if 48 <= c <= 57 {
        c - 48
    } else if 97 <= c <= 102 {
        c - 87
    } else if 65 <= c <= 70 {
        c - 55
    } else {
        -1
    }
}

/// The lowercase digit for a value below 16.
pub open spec fn hex_digit(v: int) -> u8 {
    if v < 10 { (48 + v) as u8 } else { (87 + v) as u8 }
}

/// `s` is an even number of hexadecimal digits.
pub open spec fn is_hex(s: Seq<u8>) -> bool {
    s.len() % 2 == 0 && forall|i: int| 0 <= i < s.len() ==> hex_value(#[trigger] s[i]) >= 0
}

/// The bytes that the digits of `s` stand for, two digits a byte, high first.
pub open spec fn decoded(s: Seq<u8>) -> Seq<u8> {
    Seq::new(s.len() / 2, |i: int| (16 * hex_value(s[2 * i]) + hex_value(s[2 * i + 1])) as u8)
}

/// The digits of `b`, two a byte, high first.
pub open spec fn encoded(b: Seq<u8>) -> Seq<u8> {
    Seq::new(2 * b.len(), |i: int| if i % 2 == 0 { hex_digit(b[i / 2] as int / 16) } else { hex_digit(b[i / 2] as int % 16) })
}

fn digit_value(c: u8) -> (r: Option<u8>)
    ensures
        hex_value(c) >= 0 ==> r == Some(hex_value(c) as u8),
        hex_value(c) < 0 ==> r is None,
{
    if 48 <= c && c <= 57 {
        Some(c - 48)
    } else if 97 <= c && c <= 102 {
        Some(c - 87)
    } else if 65 <= c && c <= 70 {
        Some(c - 55)
    } else {
        None
    }
}

fn digit(v: u8) -> (r: u8)
    requires
        v < 16,
    ensures
        r == hex_digit(v as int),
{
    if v < 10 { 48 + v } else { 87 + v }
}

/// Reads hexadecimal text; `None` when it is not an even number of digits.
pub fn decode_hex(s: &[u8]) -> (r: Option<Vec<u8>>)
    ensures
        r is Some <==> is_hex(s@),
        r matches Some(v) ==> v@ == decoded(s@),
{
    if s.len() % 2 != 0 {
        return None;
    }
    let mut out: Vec<u8> = Vec::new();
    let mut i: usize = 0;
    while i < s.len() / 2
        invariant
            s@.len() % 2 == 0,
            i <= s@.len() / 2,
            out@ =~= decoded(s@).subrange(0, i as int),
            forall|j: int| 0 <= j < 2 * i ==> hex_value(#[trigger] s@[j]) >= 0,
        decreases s@.len() / 2 - i,
    {
        let hi = digit_value(s[2 * i]);
        let lo = digit_value(s[2 * i + 1]);
        match (hi, lo) {
            (Some(h), Some(l)) => {
                assert(h < 16 && l < 16);
                let byte: u8 = 16 * h + l;
                out.push(byte);
                proof {
                    assert(decoded(s@)[i as int] == byte);
                    assert(out@ =~= decoded(s@).subrange(0, i as int + 1));
                    assert forall|j: int| 0 <= j < 2 * (i + 1) implies hex_value(#[trigger] s@[j]) >= 0 by {
                        if j >= 2 * i {
                            assert(j == 2 * i || j == 2 * i + 1);
                        }
                    }
                }
            },
            _ => {
                return None;
            },
        }
        i += 1;
    }
    assert(out@ =~= decoded(s@));
    Some(out)
}

/// Writes `b` as lowercase hexadecimal text.
pub fn encode_hex(b: &[u8]) -> (r: Vec<u8>)
    requires
        2 * b@.len() <= usize::MAX,
    ensures
        r@ == encoded(b@),
{
    let mut out: Vec<u8> = Vec::new();
    let mut i: usize = 0;
    while i < b.len()
        invariant
            i <= b@.len(),
            out@ =~= encoded(b@).subrange(0, 2 * i as int),
        decreases b@.len() - i,
    {
        let x = b[i];
        let hi = digit(x / 16);
        let lo = digit(x % 16);
        out.push(hi);
        out.push(lo);
        proof {
            assert((2 * i) / 2 == i as int);
            assert(encoded(b@)[2 * i as int] == hi);
            assert((2 * i + 1) / 2 == i as int);
            assert(encoded(b@)[2 * i as int + 1] == lo);
            assert(out@ =~= encoded(b@).subrange(0, 2 * (i as int + 1)));
        }
        i += 1;
    }
    assert(out@ =~= encoded(b@));
    out
}

/// Writing bytes as hexadecimal text and reading them back gives the bytes.
pub proof fn lemma_hex_round_trip(b: Seq<u8>)
    ensures
        is_hex(encoded(b)),
        decoded(encoded(b)) == b,
{
    let e = encoded(b);
    assert forall|i: int| 0 <= i < e.len() implies hex_value(#[trigger] e[i]) >= 0 by {
        let x = b[i / 2];
        assert(x / 16 < 16 && x % 16 < 16);
    }
    assert forall|i: int| 0 <= i < b.len() implies #[trigger] decoded(e)[i] == b[i] by {
        let x = b[i];
        assert((2 * i) / 2 == i);
        assert((2 * i + 1) / 2 == i);
        assert((2 * i) % 2 == 0);
        assert((2 * i + 1) % 2 == 1);
        assert(hex_value(hex_digit(x as int / 16)) == x as int / 16);
        assert(hex_value(hex_digit(x as int % 16)) == x as int % 16);
        assert(16 * (x / 16) + x % 16 == x);
    }
    assert(decoded(e) =~= b);
}

} // verus!
