//! Text helpers: ASCII keys, UTF-8 text, hexadecimal and percent-encoding.

use vstd::prelude::*;
use vstd::slice::slice_to_vec;
use vstd::string::{StrSliceExecFns, StringExecFns};
use vstd::utf8::{decode_utf8, encode_utf8, valid_utf8};

verus! {

/// The bytes of an ASCII text.
pub open spec fn ascii(s: Seq<char>) -> Seq<u8> {
    Seq::new(s.len(), |i: int| s[i] as u8)
}

/// The characters that stand for ASCII bytes.
pub open spec fn chars_of(b: Seq<u8>) -> Seq<char> {
    Seq::new(b.len(), |i: int| b[i] as char)
}

/// The bytes of an ASCII string.
pub(crate) fn ascii_bytes(s: &str) -> (r: Vec<u8>)
    requires
        vstd::string::is_ascii(s),
    ensures
        r@ == ascii(s@),
{
    proof {
        broadcast use vstd::string::is_ascii_spec_bytes;
    }
    let r = slice_to_vec(s.as_bytes());
    assert(r@ =~= ascii(s@));
    r
}

/// Relies on `String::push`: the character is appended at the end.
#[verifier::external_body]
pub(crate) fn push_char(s: &mut String, c: char)
    ensures
        final(s)@ == old(s)@.push(c),
{
    s.push(c)
}

/// Relies on `std::str::from_utf8`: it accepts exactly the byte strings that
/// are valid UTF-8, and the text it hands back is made of those bytes.
#[verifier::external_body]
fn utf8_str(b: &[u8]) -> (r: Option<&str>)
    ensures
        r is Some <==> valid_utf8(b@),
        r matches Some(t) ==> encode_utf8(t@) == b@,
{
    std::str::from_utf8(b).ok()
}

/// The text that valid UTF-8 bytes spell, if they are valid UTF-8.
pub fn utf8_string(b: &[u8]) -> (r: Option<String>)
    ensures
        r is Some <==> valid_utf8(b@),
        r matches Some(t) ==> encode_utf8(t@) == b@ && t@ == decode_utf8(b@),
{
    match utf8_str(b) {
        Some(t) => {
            proof {
                vstd::utf8::encode_utf8_decode_utf8(t@);
            }
            Some(String::from_str(t))
        },
        None => None,
    }
}

/// A byte string as text: what it spells if it is UTF-8, else its bytes in
/// hexadecimal.
pub open spec fn text_of(b: Seq<u8>) -> Seq<char> {
    if valid_utf8(b) {
        decode_utf8(b)
    } else {
        hex_of(b)
    }
}

/// Appends a byte string as text.
pub(crate) fn push_text(out: &mut String, b: &[u8])
    ensures
        final(out)@ == old(out)@ + text_of(b@),
{
    match utf8_string(b) {
        Some(t) => out.append(t.as_str()),
        None => {
            let hex = hex_encode(b);
            out.append(hex.as_str());
        },
    }
}

/// The lowercase hexadecimal digit for `d` (below sixteen).
pub open spec fn hex_char(d: u8) -> char {
    if d < 10 {
        (48 + d) as char
    } else {
        (87 + d) as char
    }
}

/// Two lowercase hexadecimal digits for each byte, the high one first.
pub open spec fn hex_of(b: Seq<u8>) -> Seq<char>
    decreases b.len(),
{
    if b.len() == 0 {
        Seq::empty()
    } else {
        seq![hex_char(b[0] / 16), hex_char(b[0] % 16)] + hex_of(b.drop_first())
    }
}

/// Each byte as `%` and two lowercase hexadecimal digits.
pub open spec fn percent_of(b: Seq<u8>) -> Seq<char>
    decreases b.len(),
{
    if b.len() == 0 {
        Seq::empty()
    } else {
        percent_of(b.drop_last()) + seq!['%', hex_char(b.last() / 16), hex_char(b.last() % 16)]
    }
}

/// Where the digits of each byte stand in its hexadecimal text.
proof fn lemma_hex_of(b: Seq<u8>)
    ensures
        hex_of(b).len() == 2 * b.len(),
        forall|j: int|
            0 <= j < b.len() ==> hex_of(b)[2 * j] == hex_char(#[trigger] b[j] / 16) && hex_of(b)[2
                * j + 1] == hex_char(b[j] % 16),
    decreases b.len(),
{
    if b.len() > 0 {
        let rest = b.drop_first();
        lemma_hex_of(rest);
        assert forall|j: int| 0 <= j < b.len() implies hex_of(b)[2 * j] == hex_char(
            #[trigger] b[j] / 16,
        ) && hex_of(b)[2 * j + 1] == hex_char(b[j] % 16) by {
            if j > 0 {
                assert(b[j] == rest[j - 1]);
                assert(hex_of(b)[2 * j] == hex_of(rest)[2 * (j - 1)]);
                assert(hex_of(b)[2 * j + 1] == hex_of(rest)[2 * (j - 1) + 1]);
            }
        }
    }
}

/// Relies on `hex::encode`: two lowercase hexadecimal digits for each byte,
/// the high one first.
#[verifier::external_body]
pub(crate) fn hex_encode(b: &[u8]) -> (r: String)
    ensures
        r@ == hex_of(b@),
{
    hex::encode(b)
}

/// Encodes each byte as `%` followed by two lowercase hexadecimal digits, as
/// a tracker's query string wants a binary value.
pub fn urlencode(bytes: &[u8]) -> (r: String)
    ensures
        r@ == percent_of(bytes@),
{
    let hex = hex_encode(bytes);
    proof {
        lemma_hex_of(bytes@);
    }
    let digits = hex.as_str();
    let count = digits.unicode_len();
    let mut out = String::new();
    let mut j: usize = 0;
    assert(bytes@.take(0) =~= Seq::<u8>::empty());
    while j < bytes.len()
        invariant
            j <= bytes@.len(),
            digits@ == hex_of(bytes@),
            count == digits@.len(),
            hex_of(bytes@).len() == 2 * bytes@.len(),
            forall|k: int|
                0 <= k < bytes@.len() ==> hex_of(bytes@)[2 * k] == hex_char(#[trigger] bytes@[k] / 16)
                    && hex_of(bytes@)[2 * k + 1] == hex_char(bytes@[k] % 16),
            out@ == percent_of(bytes@.take(j as int)),
        decreases bytes@.len() - j,
    {
        push_char(&mut out, '%');
        push_char(&mut out, digits.get_char(2 * j));
        push_char(&mut out, digits.get_char(2 * j + 1));
        assert(bytes@.take(j + 1).drop_last() =~= bytes@.take(j as int));
        assert(out@ =~= percent_of(bytes@.take(j + 1)));
        j = j + 1;
    }
    assert(bytes@.take(j as int) =~= bytes@);
    out
}

/// Appends the decimal digits of `n` as characters.
pub(crate) fn push_decimal_chars(s: &mut String, n: u64)
    ensures
        final(s)@ == old(s)@ + chars_of(crate::bendecoder::decimal(n as nat)),
{
    let mut digits: Vec<u8> = Vec::new();
    crate::bendecoder::push_decimal(&mut digits, n);
    assert(digits@ =~= crate::bendecoder::decimal(n as nat));
    let mut i: usize = 0;
    let ghost start = s@;
    while i < digits.len()
        invariant
            i <= digits@.len(),
            s@ == start + chars_of(digits@.take(i as int)),
        decreases digits@.len() - i,
    {
        push_char(s, digits[i] as char);
        assert(chars_of(digits@.take(i + 1)) =~= chars_of(digits@.take(i as int)).push(
            digits@[i as int] as char,
        ));
        i = i + 1;
    }
    assert(digits@.take(i as int) =~= digits@);
}

} // verus!
