//! Base64 in the standard alphabet, with `=` padding.

use crate::PemError;
use rustc_serialize::base64::FromBase64;
use rustc_serialize::base64::FromBase64Error;
use vstd::prelude::*;

verus! {

/// The error type of rustc_serialize's Base64 decoder. Nothing is read from it.
#[verifier::external_type_specification]
#[verifier::external_body]
pub struct ExFromBase64Error(FromBase64Error);

/// The padding character, `=`.
pub const PAD: u8 = 0x3d;

/// Whether `c` is one of the 64 characters `A-Z`, `a-z`, `0-9`, `+`, `/`.
pub open spec fn is_alphabet(c: u8) -> bool {
    ||| 0x41 <= c <= 0x5a
    ||| 0x61 <= c <= 0x7a
    ||| 0x30 <= c <= 0x39
    ||| c == 0x2b
    ||| c == 0x2f
}

/// How many padding characters end `s`: at most two are counted.
pub open spec fn padding(s: Seq<u8>) -> int {
    if s.len() >= 1 && s[s.len() - 1] == PAD {
        if s.len() >= 2 && s[s.len() - 2] == PAD {
            2
        } else {
            1
        }
    } else {
        0
    }
}

/// Whether `s` is padded Base64: groups of four characters, all of the
/// alphabet but for one or two `=` that may end the last group.
pub open spec fn is_base64(s: Seq<u8>) -> bool {
    &&& s.len() % 4 == 0
    &&& forall|i: int| 0 <= i < s.len() - padding(s) ==> is_alphabet(#[trigger] s[i])
}

/// The number, 0 to 63, that a character of the alphabet stands for.
pub open spec fn sextet(c: u8) -> int {
    if 0x41 <= c <= 0x5a {
        c - 0x41
    } else if 0x61 <= c <= 0x7a {
        c - 0x61 + 26
    } else if 0x30 <= c <= 0x39 {
        c - 0x30 + 52
    } else if c == 0x2b {
        62
    } else {
        63
    }
}

/// The bytes that a Base64 text stands for. Each group of four characters
/// gives 24 bits, the first character the highest six; a group that ends in
/// `==` gives one byte, one that ends in `=` two, and a full group three.
/// The value matters only where [`is_base64`] holds.
pub open spec fn base64_decode(s: Seq<u8>) -> Seq<u8>
    decreases s.len(),
{
    if s.len() < 4 {
        Seq::empty()
    } else {
        let first = (sextet(s[0]) * 4 + sextet(s[1]) / 16) as u8;
        let second = ((sextet(s[1]) % 16) * 16 + sextet(s[2]) / 4) as u8;
        let third = ((sextet(s[2]) % 4) * 64 + sextet(s[3])) as u8;
        if s[2] == PAD {
            seq![first]
        } else if s[3] == PAD {
            seq![first, second]
        } else {
            seq![first, second, third] + base64_decode(s.skip(4))
        }
    }
}

/// The character of the alphabet that stands for `v`, a number from 0 to 63.
pub open spec fn digit(v: int) -> u8 {
    if v < 26 {
        (0x41 + v) as u8
    } else if v < 52 {
        (0x61 + v - 26) as u8
    } else if v < 62 {
        (0x30 + v - 52) as u8
    } else if v == 62 {
        0x2b
    } else {
        0x2f
    }
}

/// The four characters that stand for three bytes, given as numbers.
pub open spec fn encode_group(b0: int, b1: int, b2: int) -> Seq<u8> {
    seq![
        digit(b0 / 4),
        digit((b0 % 4) * 16 + b1 / 16),
        digit((b1 % 16) * 4 + b2 / 64),
        digit(b2 % 64),
    ]
}

/// The padded Base64 text of `bytes`: four characters for every three bytes.
/// One byte left over gives two characters and `==`, two bytes left over give
/// three characters and `=`; the bits that are missing are zero.
pub open spec fn base64_encode(bytes: Seq<u8>) -> Seq<u8>
    decreases bytes.len(),
{
    if bytes.len() == 0 {
        Seq::empty()
    } else if bytes.len() == 1 {
        encode_group(bytes[0] as int, 0, 0).take(2) + seq![PAD, PAD]
    } else if bytes.len() == 2 {
        encode_group(bytes[0] as int, bytes[1] as int, 0).take(3) + seq![PAD]
    } else {
        encode_group(bytes[0] as int, bytes[1] as int, bytes[2] as int) + base64_encode(
            bytes.skip(3),
        )
    }
}

/// The characters of a group are of the alphabet, and `sextet` reads back
/// the six bits of each.
pub proof fn lemma_encode_group(b0: int, b1: int, b2: int)
    requires
        0 <= b0 < 256,
        0 <= b1 < 256,
        0 <= b2 < 256,
    ensures
        encode_group(b0, b1, b2).len() == 4,
        forall|k: int| 0 <= k < 4 ==> is_alphabet(#[trigger] encode_group(b0, b1, b2)[k]),
        forall|k: int| 0 <= k < 4 ==> encode_group(b0, b1, b2)[k] != PAD,
        sextet(encode_group(b0, b1, b2)[0]) == b0 / 4,
        sextet(encode_group(b0, b1, b2)[1]) == (b0 % 4) * 16 + b1 / 16,
        sextet(encode_group(b0, b1, b2)[2]) == (b1 % 16) * 4 + b2 / 64,
        sextet(encode_group(b0, b1, b2)[3]) == b2 % 64,
{
    lemma_digit(b0 / 4);
    lemma_digit((b0 % 4) * 16 + b1 / 16);
    lemma_digit((b1 % 16) * 4 + b2 / 64);
    lemma_digit(b2 % 64);
}

/// `digit` gives a character of the alphabet, and `sextet` reads it back.
pub proof fn lemma_digit(v: int)
    requires
        0 <= v < 64,
    ensures
        is_alphabet(digit(v)),
        digit(v) != PAD,
        sextet(digit(v)) == v,
{
}

/// An encoded text has four characters for every three bytes begun.
pub proof fn lemma_encode_len(bytes: Seq<u8>)
    ensures
        base64_encode(bytes).len() == 4 * ((bytes.len() + 2) / 3),
    decreases bytes.len(),
{
    if bytes.len() >= 3 {
        lemma_encode_len(bytes.skip(3));
    }
}

/// An encoded text is padded Base64.
pub proof fn lemma_encode_is_base64(bytes: Seq<u8>)
    ensures
        is_base64(base64_encode(bytes)),
    decreases bytes.len(),
{
    let text = base64_encode(bytes);
    lemma_encode_len(bytes);
    if bytes.len() == 0 {
    } else if bytes.len() == 1 {
        lemma_encode_group(bytes[0] as int, 0, 0);
    } else if bytes.len() == 2 {
        lemma_encode_group(bytes[0] as int, bytes[1] as int, 0);
    } else {
        let rest = base64_encode(bytes.skip(3));
        lemma_encode_is_base64(bytes.skip(3));
        lemma_encode_len(bytes.skip(3));
        lemma_encode_group(bytes[0] as int, bytes[1] as int, bytes[2] as int);
        assert(rest.len() > 0 ==> padding(text) == padding(rest)) by {
            if rest.len() > 0 {
                assert(text[text.len() - 1] == rest[rest.len() - 1]);
                assert(text[text.len() - 2] == rest[rest.len() - 2]);
            }
        }
        assert forall|i: int| 0 <= i < text.len() - padding(text) implies is_alphabet(
            #[trigger] text[i],
        ) by {
            if i >= 4 {
                assert(text[i] == rest[i - 4]);
            }
        }
    }
}

/// Decoding an encoded text gives the bytes back.
pub proof fn lemma_decode_encode(bytes: Seq<u8>)
    ensures
        base64_decode(base64_encode(bytes)) == bytes,
    decreases bytes.len(),
{
    let text = base64_encode(bytes);
    if bytes.len() == 0 {
        assert(base64_decode(text) =~= bytes);
    } else if bytes.len() == 1 {
        lemma_encode_group(bytes[0] as int, 0, 0);
        assert(base64_decode(text) =~= bytes);
    } else if bytes.len() == 2 {
        lemma_encode_group(bytes[0] as int, bytes[1] as int, 0);
        assert(base64_decode(text) =~= bytes);
    } else {
        lemma_decode_encode(bytes.skip(3));
        lemma_encode_group(bytes[0] as int, bytes[1] as int, bytes[2] as int);
        assert(text.skip(4) =~= base64_encode(bytes.skip(3)));
        assert(base64_decode(text) =~= bytes);
    }
}

/// A text that holds a byte which is neither of the alphabet nor `=` is not
/// Base64.
pub proof fn lemma_stray_byte(s: Seq<u8>, i: int)
    requires
        0 <= i < s.len(),
        !is_alphabet(s[i]),
        s[i] != PAD,
    ensures
        !is_base64(s),
{
}

/// Tests one byte against the alphabet.
pub fn in_alphabet(c: u8) -> (yes: bool)
    ensures
        yes == is_alphabet(c),
{
    (0x41 <= c && c <= 0x5a) || (0x61 <= c && c <= 0x7a) || (0x30 <= c && c <= 0x39) || c == 0x2b
        || c == 0x2f
}

/// Tests a whole text: see [`is_base64`].
pub fn is_valid_base64(text: &[u8]) -> (yes: bool)
    ensures
        yes == is_base64(text@),
{
    let n: usize = text.len();
    if n % 4 != 0 {
        return false;
    }
    let mut pads: usize = 0;
    if n >= 1 && text[n - 1] == PAD {
        pads = 1;
        if n >= 2 && text[n - 2] == PAD {
            pads = 2;
        }
    }
    let data: usize = n - pads;
    let mut i: usize = 0;
    while i < data
        invariant
            i <= data <= n,
            n == text@.len(),
            data == n - padding(text@),
            forall|j: int| 0 <= j < i ==> is_alphabet(#[trigger] text@[j]),
        decreases data - i,
    {
        if !in_alphabet(text[i]) {
            return false;
        }
        i += 1;
    }
    true
}

/// `from_base64` of rustc_serialize, on a byte slice. Not proved: that on
/// padded Base64 in the standard alphabet the decoder succeeds and returns the
/// bytes that [`base64_decode`] gives. Of any other input nothing is claimed
/// (the decoder also takes the URL-safe alphabet, line breaks and missing
/// padding).
#[verifier::external_body]
fn from_base64(text: &[u8]) -> (result: Result<Vec<u8>, FromBase64Error>)
    ensures
        is_base64(text@) ==> result is Ok,
        is_base64(text@) ==> result->Ok_0@ == base64_decode(text@),
{
    text.from_base64()
}

/// Decodes padded Base64 in the standard alphabet, and refuses every other
/// text.
pub fn decode_base64(text: &[u8]) -> (result: Result<Vec<u8>, PemError>)
    ensures
        is_base64(text@) ==> (result matches Ok(bytes) && bytes@ == base64_decode(text@)),
        !is_base64(text@) ==> result == Err::<Vec<u8>, PemError>(PemError::MalformedBase64),
{
    if !is_valid_base64(text) {
        return Err(PemError::MalformedBase64);
    }
    match from_base64(text) {
        Ok(bytes) => Ok(bytes),
        Err(_) => Err(PemError::MalformedBase64),
    }
}

} // verus!
