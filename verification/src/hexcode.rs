//! Hexadecimal encoding and decoding of byte strings.

use vstd::prelude::*;

verus! {

/// The numeric value of an ASCII hexadecimal digit, if the byte is one.
pub open spec fn hex_digit_value(c: u8) -> Option<u8> {
    if 48 <= c && c <= 57 {
        Some((c - 48) as u8)
    } else if 97 <= c && c <= 102 {
        Some((c - 87) as u8)
    } else if 65 <= c && c <= 70 {
        Some((c - 55) as u8)
    } else {
        None
    }
}

/// The byte encoded by a pair of hexadecimal digits, high digit first.
pub open spec fn hex_pair_value(hi: u8, lo: u8) -> Option<u8> {
    match (hex_digit_value(hi), hex_digit_value(lo)) {
        (Some(h), Some(l)) => Some((h * 16 + l) as u8),
        _ => None,
    }
}

/// The bytes encoded by a hexadecimal string: defined exactly when the
/// string has even length and every byte is a hexadecimal digit.
pub open spec fn spec_hex_decode(s: Seq<u8>) -> Option<Seq<u8>>
    decreases s.len(),
{
    if s.len() == 0 {
        Some(Seq::empty())
    } else if s.len() == 1 {
        None
    } else {
        match (hex_pair_value(s[0], s[1]), spec_hex_decode(s.skip(2))) {
            (Some(b), Some(rest)) => Some(seq![b] + rest),
            _ => None,
        }
    }
}

/// The lowercase ASCII digit for a value below 16.
pub open spec fn hex_digit_char(v: u8) -> u8
    recommends
        v < 16,
{
    if v < 10 {
        (48 + v) as u8
    } else {
        (87 + v) as u8
    }
}

/// The lowercase hexadecimal encoding of a byte string: two digits per
/// byte, high digit first.
pub open spec fn spec_hex_encode(s: Seq<u8>) -> Seq<u8>
    decreases s.len(),
{
    if s.len() == 0 {
        Seq::empty()
    } else {
        seq![hex_digit_char(s[0] / 16), hex_digit_char(s[0] % 16)] + spec_hex_encode(s.skip(1))
    }
}

/// Decode a hexadecimal byte string, or report that it is not one.
pub fn hex_decode(s: &Vec<u8>) -> (r: Option<Vec<u8>>)
    ensures
        match r {
            Some(v) => spec_hex_decode(s@) == Some(v@),
            None => spec_hex_decode(s@) is None,
        },
{
    let mut out: Vec<u8> = Vec::new();
    let mut i: usize = 0;
    proof {
        assert(s@.skip(0) == s@);
    }
    while i + 1 < s.len()
        invariant
            i % 2 == 0,
            i <= s.len(),
            out@.len() * 2 == i,
            spec_hex_decode(s@) == (match spec_hex_decode(s@.skip(i as int)) {
                Some(r2) => Some(out@ + r2),
                None => None::<Seq<u8>>,
            }),
        decreases s.len() - i,
    {
        let hi = s[i];
        let lo = s[i + 1];
        let hv: u8;
        let lv: u8;
        if 48 <= hi && hi <= 57 {
            hv = hi - 48;
        } else if 97 <= hi && hi <= 102 {
            hv = hi - 87;
        } else if 65 <= hi && hi <= 70 {
            hv = hi - 55;
        } else {
            proof {
                assert(hex_digit_value(s@.skip(i as int)[0]) is None);
            }
            return None;
        }
        if 48 <= lo && lo <= 57 {
            lv = lo - 48;
        } else if 97 <= lo && lo <= 102 {
            lv = lo - 87;
        } else if 65 <= lo && lo <= 70 {
            lv = lo - 55;
        } else {
            proof {
                assert(hex_digit_value(s@.skip(i as int)[1]) is None);
            }
            return None;
        }
        let b = hv * 16 + lv;
        proof {
            assert(s@.skip(i as int)[0] == s@[i as int]);
            assert(s@.skip(i as int)[1] == s@[i as int + 1]);
            assert(hex_pair_value(s@[i as int], s@[i as int + 1]) == Some(b));
            assert(s@.skip(i as int).skip(2) == s@.skip(i as int + 2));
        }
        let ghost old_out = out@;
        out.push(b);
        proof {
            if spec_hex_decode(s@.skip(i as int + 2)) is Some {
                let r2 = spec_hex_decode(s@.skip(i as int + 2)).unwrap();
                assert(old_out + (seq![b] + r2) =~= out@ + r2);
            }
        }
        i = i + 2;
    }
    if i < s.len() {
        proof {
            assert(s@.skip(i as int).len() == 1);
        }
        return None;
    }
    proof {
        assert(s@.skip(i as int) == Seq::<u8>::empty());
        assert(out@ + Seq::<u8>::empty() == out@);
    }
    Some(out)
}

/// Encode a byte string as lowercase hexadecimal digits.
pub fn hex_encode(bytes: &Vec<u8>) -> (r: Vec<u8>)
    ensures
        r@ == spec_hex_encode(bytes@),
        r@.len() == bytes@.len() * 2,
{
    proof {
        lemma_hex_encode_len(bytes@);
    }
    let mut out: Vec<u8> = Vec::new();
    let mut i: usize = 0;
    proof {
        assert(bytes@.skip(0) == bytes@);
    }
    while i < bytes.len()
        invariant
            i <= bytes.len(),
            out@.len() == i * 2,
            spec_hex_encode(bytes@) == out@ + spec_hex_encode(bytes@.skip(i as int)),
        decreases bytes.len() - i,
    {
        let b = bytes[i];
        let hi: u8 = b / 16;
        let lo: u8 = b % 16;
        let hc: u8 = if hi < 10 {
            48 + hi
        } else {
            87 + hi
        };
        let lc: u8 = if lo < 10 {
            48 + lo
        } else {
            87 + lo
        };
        let ghost old_out = out@;
        out.push(hc);
        out.push(lc);
        proof {
            assert(bytes@.skip(i as int)[0] == bytes@[i as int]);
            assert(hc == hex_digit_char(bytes@[i as int] / 16));
            assert(lc == hex_digit_char(bytes@[i as int] % 16));
            assert(bytes@.skip(i as int).skip(1) == bytes@.skip(i as int + 1));
            assert(old_out + seq![hc, lc] =~= out@);
            assert(old_out + (seq![hc, lc] + spec_hex_encode(bytes@.skip(i as int + 1))) =~= (
            old_out + seq![hc, lc]) + spec_hex_encode(bytes@.skip(i as int + 1)));
        }
        i = i + 1;
    }
    proof {
        assert(bytes@.skip(i as int) == Seq::<u8>::empty());
        assert(out@ + Seq::<u8>::empty() == out@);
    }
    out
}

/// An encoded string has twice the length of the bytes it encodes.
pub proof fn lemma_hex_encode_len(s: Seq<u8>)
    ensures
        spec_hex_encode(s).len() == s.len() * 2,
    decreases s.len(),
{
    if s.len() > 0 {
        lemma_hex_encode_len(s.skip(1));
    }
}

/// Decoding inverts encoding: the hexadecimal text written for any byte
/// string reads back as exactly those bytes.
pub proof fn lemma_hex_round_trip(s: Seq<u8>)
    ensures
        spec_hex_decode(spec_hex_encode(s)) == Some(s),
    decreases s.len(),
{
    if s.len() == 0 {
        assert(spec_hex_encode(s) == Seq::<u8>::empty());
    } else {
        lemma_hex_round_trip(s.skip(1));
        let e = spec_hex_encode(s);
        let pair = seq![hex_digit_char(s[0] / 16), hex_digit_char(s[0] % 16)];
        let rest = spec_hex_encode(s.skip(1));
        assert(e == pair + rest);
        lemma_hex_encode_len(s.skip(1));
        assert(e.len() == 2 + rest.len());
        assert(e[0] == hex_digit_char(s[0] / 16));
        assert(e[1] == hex_digit_char(s[0] % 16));
        assert(hex_digit_value(hex_digit_char(s[0] / 16)) == Some((s[0] / 16) as u8));
        assert(hex_digit_value(hex_digit_char(s[0] % 16)) == Some((s[0] % 16) as u8));
        assert(hex_pair_value(e[0], e[1]) == Some(s[0]));
        assert(e.skip(2) =~= rest);
        assert(seq![s[0]] + s.skip(1) =~= s);
    }
}

} // verus!
