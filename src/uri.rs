//! Percent-encoding of URI components (RFC 3986).

use crate::text::{ascii_bytes_valid_utf8, string_from_utf8};
use std::string::FromUtf8Error;
use vstd::prelude::*;
use vstd::utf8::*;

verus! {

pub const PERCENT: u8 = 37;

/// The unreserved characters of RFC 3986: letters, digits and `-._~`.
pub open spec fn unreserved(b: u8) -> bool {
    (65 <= b <= 90) || (97 <= b <= 122) || (48 <= b <= 57) || b == 45 || b == 46 || b == 95 || b
        == 126
}

/// The uppercase hexadecimal digit of a nibble.
pub open spec fn hex_upper(n: u8) -> u8 {
    if n < 10 {
        (48 + n) as u8
    } else {
        (55 + n) as u8
    }
}

/// The value of a hexadecimal digit of either case.
pub open spec fn hex_value(c: u8) -> Option<u8> {
    if 48 <= c <= 57 {
        Some((c - 48) as u8)
    } else if 97 <= c <= 102 {
        Some((c - 97 + 10) as u8)
    } else if 65 <= c <= 70 {
        Some((c - 65 + 10) as u8)
    } else {
        None
    }
}

/// One byte, percent-encoded: itself when unreserved, else `%HH` with uppercase digits.
pub open spec fn encode_byte(b: u8) -> Seq<u8> {
    if unreserved(b) {
        seq![b]
    } else {
        seq![PERCENT, hex_upper(b >> 4), hex_upper(b & 15)]
    }
}

/// The percent-encoding of a byte sequence.
pub open spec fn encode_bytes(s: Seq<u8>) -> Seq<u8>
    decreases s.len(),
{
    if s.len() == 0 {
        Seq::empty()
    } else {
        encode_byte(s[0]) + encode_bytes(s.drop_first())
    }
}

/// The bytes that a percent-encoded sequence stands for, or `None` where a `%` is not followed
/// by two hexadecimal digits.
pub open spec fn decode_bytes(s: Seq<u8>) -> Option<Seq<u8>>
    decreases s.len(),
{
    if s.len() == 0 {
        Some(Seq::empty())
    } else if s[0] == PERCENT {
        if s.len() < 3 {
            None
        } else {
            match (hex_value(s[1]), hex_value(s[2])) {
                (Some(h), Some(l)) => match decode_bytes(s.subrange(3, s.len() as int)) {
                    Some(rest) => Some(seq![(h * 16 + l) as u8] + rest),
                    None => None,
                },
                _ => None,
            }
        }
    } else {
        match decode_bytes(s.drop_first()) {
            Some(rest) => Some(seq![s[0]] + rest),
            None => None,
        }
    }
}

pub proof fn lemma_encode_append(a: Seq<u8>, b: Seq<u8>)
    ensures
        encode_bytes(a + b) == encode_bytes(a) + encode_bytes(b),
    decreases a.len(),
{
    if a.len() == 0 {
        assert(a + b =~= b);
    } else {
        assert((a + b).drop_first() =~= a.drop_first() + b);
        lemma_encode_append(a.drop_first(), b);
    }
}

pub proof fn lemma_encode_byte(b: u8)
    ensures
        encode_byte(b).len() >= 1,
        unreserved(b) ==> encode_byte(b) == seq![b] && b != PERCENT,
        !unreserved(b) ==> encode_byte(b).len() == 3 && encode_byte(b)[0] == PERCENT && hex_value(
            encode_byte(b)[1],
        ) == Some(b >> 4) && hex_value(encode_byte(b)[2]) == Some(b & 15) && ((b >> 4) * 16 + (b
            & 15)) as u8 == b,
{
    assert(b >> 4 < 16 && b & 15 < 16 && ((b >> 4) * 16 + (b & 15)) as u8 == b) by (bit_vector);
}

/// Decoding the percent-encoding of any byte sequence gives the sequence back.
pub proof fn law_url_round_trip(b: Seq<u8>)
    ensures
        decode_bytes(encode_bytes(b)) == Some(b),
    decreases b.len(),
{
    if b.len() > 0 {
        let e = encode_bytes(b);
        let rest = encode_bytes(b.drop_first());
        let eb = encode_byte(b[0]);
        lemma_encode_byte(b[0]);
        law_url_round_trip(b.drop_first());
        if unreserved(b[0]) {
            assert(e.drop_first() =~= rest);
        } else {
            assert(e.subrange(3, e.len() as int) =~= rest);
        }
        assert(b =~= seq![b[0]] + b.drop_first());
    }
}

/// Every byte of a percent-encoding is unreserved, a `%`, or an uppercase hexadecimal digit.
pub proof fn law_encoded_alphabet(b: Seq<u8>)
    ensures
        forall|i: int|
            0 <= i < encode_bytes(b).len() ==> {
                let c = #[trigger] encode_bytes(b)[i];
                unreserved(c) || c == PERCENT || (48 <= c <= 57) || (65 <= c <= 70)
            },
    decreases b.len(),
{
    if b.len() > 0 {
        lemma_encode_byte(b[0]);
        law_encoded_alphabet(b.drop_first());
        let eb = encode_byte(b[0]);
        let rest = encode_bytes(b.drop_first());
        assert forall|i: int| 0 <= i < encode_bytes(b).len() implies {
            let c = #[trigger] encode_bytes(b)[i];
            unreserved(c) || c == PERCENT || (48 <= c <= 57) || (65 <= c <= 70)
        } by {
            if i >= eb.len() {
                assert(encode_bytes(b)[i] == rest[i - eb.len()]);
            }
        }
    }
}

pub fn is_unreserved(b: u8) -> (r: bool)
    ensures
        r == unreserved(b),
{
    (65 <= b && b <= 90) || (97 <= b && b <= 122) || (48 <= b && b <= 57) || b == 45 || b == 46
        || b == 95 || b == 126
}

fn hex_digit_upper(n: u8) -> (r: u8)
    requires
        n < 16,
    ensures
        r == hex_upper(n),
{
    if n < 10 {
        48 + n
    } else {
        55 + n
    }
}

/// Percent-encodes every byte that is not unreserved, with uppercase hexadecimal digits.
pub fn url_encode(input: &[u8]) -> (r: String)
    ensures
        encode_utf8(r@) == encode_bytes(input@),
{
    let mut encoded: Vec<u8> = Vec::new();
    let mut i: usize = 0;
    while i < input.len()
        invariant
            i <= input@.len(),
            encoded@ == encode_bytes(input@.subrange(0, i as int)),
            forall|j: int| 0 <= j < encoded@.len() ==> encoded@[j] < 128,
        decreases input@.len() - i,
    {
        let byte = input[i];
        proof {
            lemma_encode_byte(byte);
            lemma_encode_append(input@.subrange(0, i as int), seq![byte]);
            assert(input@.subrange(0, i + 1) =~= input@.subrange(0, i as int) + seq![byte]);
            assert(encode_bytes(seq![byte]) =~= encode_byte(byte)) by {
                assert(seq![byte].drop_first() =~= Seq::<u8>::empty());
                assert(encode_bytes(Seq::<u8>::empty()) =~= Seq::<u8>::empty());
                assert(encode_bytes(seq![byte]) == encode_byte(seq![byte][0]) + encode_bytes(
                    seq![byte].drop_first(),
                ));
            }
            assert(byte >> 4 < 16 && byte & 15 < 16) by (bit_vector);
        }
        if is_unreserved(byte) {
            encoded.push(byte);
        } else {
            encoded.push(PERCENT);
            encoded.push(hex_digit_upper(byte >> 4));
            encoded.push(hex_digit_upper(byte & 15));
        }
        i += 1;
    }
    proof {
        assert(input@.subrange(0, input@.len() as int) =~= input@);
        ascii_bytes_valid_utf8(encoded@);
    }
    let ghost bytes = encoded@;
    match string_from_utf8(encoded) {
        Ok(s) => {
            proof {
                decode_utf8_encode_utf8(bytes);
            }
            s
        },
        Err(_) => {
            proof {
                assert(false);
            }
            String::new()
        },
    }
}

#[derive(Debug)]
pub enum UrlDecodeError {
    MalformedEncoding,
    InvalidUtf8(FromUtf8Error),
}

/// The value of a hexadecimal digit of either case.
pub fn hex_digit_value(c: u8) -> (r: Option<u8>)
    ensures
        r == hex_value(c),
        r matches Some(v) ==> v < 16,
{
    if 48 <= c && c <= 57 {
        Some(c - 48)
    } else if 97 <= c && c <= 102 {
        Some(c - 97 + 10)
    } else if 65 <= c && c <= 70 {
        Some(c - 65 + 10)
    } else {
        None
    }
}

fn hex_to_digit(c: u8) -> (r: Result<u8, UrlDecodeError>)
    ensures
        match hex_value(c) {
            Some(v) => r == Ok::<u8, UrlDecodeError>(v),
            None => r matches Err(UrlDecodeError::MalformedEncoding),
        },
{
    if 48 <= c && c <= 57 {
        Ok(c - 48)
    } else if 97 <= c && c <= 102 {
        Ok(c - 97 + 10)
    } else if 65 <= c && c <= 70 {
        Ok(c - 65 + 10)
    } else {
        Err(UrlDecodeError::MalformedEncoding)
    }
}

fn parse_hex_byte(hex_slice: &[u8]) -> (r: Result<u8, UrlDecodeError>)
    ensures
        hex_slice@.len() == 2 && hex_value(hex_slice@[0]) is Some && hex_value(hex_slice@[1]) is Some
            ==> r == Ok::<u8, UrlDecodeError>(
            (hex_value(hex_slice@[0])->0 * 16 + hex_value(hex_slice@[1])->0) as u8,
        ),
        !(hex_slice@.len() == 2 && hex_value(hex_slice@[0]) is Some && hex_value(hex_slice@[1]) is Some)
            ==> r matches Err(UrlDecodeError::MalformedEncoding),
{
    if hex_slice.len() != 2 {
        return Err(UrlDecodeError::MalformedEncoding);
    }
    let high = match hex_to_digit(hex_slice[0]) {
        Ok(h) => h,
        Err(e) => return Err(e),
    };
    let low = match hex_to_digit(hex_slice[1]) {
        Ok(l) => l,
        Err(e) => return Err(e),
    };
    assert((high << 4) | low == (high * 16 + low) as u8) by (bit_vector)
        requires
            high < 16 && low < 16,
    ;
    Ok((high << 4) | low)
}

/// `r` is what decoding `input` as text gives: an error for a malformed escape, else the text
/// the decoded bytes encode, or an error where they are not UTF-8.
pub open spec fn decodes_to(input: Seq<u8>, r: Result<String, UrlDecodeError>) -> bool {
    match decode_bytes(input) {
        None => r matches Err(UrlDecodeError::MalformedEncoding),
        Some(d) => if valid_utf8(d) {
            r matches Ok(s) && s@ == decode_utf8(d)
        } else {
            r matches Err(UrlDecodeError::InvalidUtf8(_))
        },
    }
}

/// Decodes `%HH` escapes (either case) into the bytes they stand for; every other byte,
/// `+` included, stays as it is.
pub fn url_decode(input: &[u8]) -> (r: Result<Vec<u8>, UrlDecodeError>)
    ensures
        match decode_bytes(input@) {
            None => r matches Err(UrlDecodeError::MalformedEncoding),
            Some(d) => r matches Ok(v) && v@ == d,
        },
{
    let mut decoded: Vec<u8> = Vec::new();
    let mut i: usize = 0;
    proof {
        assert(input@.subrange(0, input@.len() as int) =~= input@);
        match decode_bytes(input@) {
            Some(rest) => {
                assert(decoded@ + rest =~= rest);
            },
            None => {},
        }
    }
    while i < input.len()
        invariant
            i <= input@.len(),
            decode_bytes(input@) == match decode_bytes(input@.subrange(i as int, input@.len() as int)) {
                Some(rest) => Some(decoded@ + rest),
                None => None::<Seq<u8>>,
            },
        decreases input@.len() - i,
    {
        let ghost tail = input@.subrange(i as int, input@.len() as int);
        if input[i] == PERCENT {
            if input.len() - i <= 2 {
                return Err(UrlDecodeError::MalformedEncoding);
            }
            let byte_val = match parse_hex_byte(&input[i + 1..i + 3]) {
                Ok(b) => b,
                Err(e) => return Err(e),
            };
            proof {
                assert(tail.subrange(3, tail.len() as int) =~= input@.subrange(i + 3, input@.len() as int));
                assert(input@.subrange(i + 1, i + 3)[0] == tail[1]);
                assert(input@.subrange(i + 1, i + 3)[1] == tail[2]);
                match decode_bytes(input@.subrange(i + 3, input@.len() as int)) {
                    Some(rest) => {
                        assert(decoded@ + (seq![byte_val] + rest) =~= decoded@.push(byte_val) + rest);
                    },
                    None => {},
                }
            }
            decoded.push(byte_val);
            i += 3;
        } else {
            proof {
                assert(tail.drop_first() =~= input@.subrange(i + 1, input@.len() as int));
                match decode_bytes(input@.subrange(i + 1, input@.len() as int)) {
                    Some(rest) => {
                        assert(decoded@ + (seq![input@[i as int]] + rest) =~= decoded@.push(
                            input@[i as int],
                        ) + rest);
                    },
                    None => {},
                }
            }
            decoded.push(input[i]);
            i += 1;
        }
    }
    proof {
        assert(decoded@ + Seq::<u8>::empty() =~= decoded@);
    }
    Ok(decoded)
}

/// Percent-decodes `input` and reads the result as UTF-8 text.
pub fn url_decode_text(input: &[u8]) -> (r: Result<String, UrlDecodeError>)
    ensures
        decodes_to(input@, r),
{
    match url_decode(input) {
        Ok(decoded) => match string_from_utf8(decoded) {
            Ok(s) => Ok(s),
            Err(e) => Err(UrlDecodeError::InvalidUtf8(e)),
        },
        Err(e) => Err(e),
    }
}

/// Decoding, byte for byte, the text `url_encode` gives for any bytes (its UTF-8 bytes, as
/// `as_bytes` reads them) yields those bytes.
pub proof fn law_url_bytes_round_trip(b: Seq<u8>, encoded: String)
    requires
        encode_utf8(encoded@) == encode_bytes(b),
    ensures
        decode_bytes(encode_utf8(encoded@)) == Some(b),
{
    law_url_round_trip(b);
}

} // verus!
