//! Hexadecimal CPU masks as they are written on the command line.
use vstd::prelude::*;

verus! {

#[verifier::external_type_specification]
#[verifier::external_body]
pub struct ExFromHexError(hex::FromHexError);

/// A byte that is an ASCII hexadecimal digit of either case.
pub open spec fn is_hex_digit(c: u8) -> bool {
    (0x30 <= c <= 0x39) || (0x41 <= c <= 0x46) || (0x61 <= c <= 0x66)
}

/// The value of a hexadecimal digit.
pub open spec fn hex_digit_value(c: u8) -> int {
    if 0x30 <= c <= 0x39 {
        c - 0x30
    } else if 0x41 <= c <= 0x46 {
        c - 0x41 + 10
    } else {
        c - 0x61 + 10
    }
}

/// Text that consists of whole pairs of hexadecimal digits.
pub open spec fn is_hex_text(s: Seq<u8>) -> bool {
    s.len() % 2 == 0 && forall|i: int| 0 <= i < s.len() ==> is_hex_digit(#[trigger] s[i])
}

/// The bytes that pairs of hexadecimal digits spell, most significant digit first.
pub open spec fn hex_bytes(s: Seq<u8>) -> Seq<u8> {
    Seq::new(
        s.len() / 2,
        |i: int| (16 * hex_digit_value(s[2 * i]) + hex_digit_value(s[2 * i + 1])) as u8,
    )
}

/// Calls `hex::decode`. The call succeeds exactly on an even number of
/// hexadecimal digits (upper or lower case), and then returns one byte per pair
/// of digits, the first digit of a pair being the high nibble.
#[verifier::external_body]
pub(crate) fn hex_decode(digits: &Vec<u8>) -> (r: Result<Vec<u8>, hex::FromHexError>)
    ensures
        r is Ok <==> is_hex_text(digits@),
        r matches Ok(bytes) ==> bytes@ == hex_bytes(digits@),
{
    hex::decode(digits)
}

/// The text without a leading `0x`.
pub open spec fn strip_hex_prefix(text: Seq<u8>) -> Seq<u8> {
    if text.len() >= 2 && text[0] == 0x30 && text[1] == 0x78 {
        text.skip(2)
    } else {
        text
    }
}

/// The text without `_` separators.
pub open spec fn without_separators(text: Seq<u8>) -> Seq<u8>
    decreases text.len(),
{
    if text.len() == 0 {
        text
    } else if text.last() == 0x5f {
        without_separators(text.drop_last())
    } else {
        without_separators(text.drop_last()).push(text.last())
    }
}

/// The text padded on the left with one `0` where its length is odd.
pub open spec fn pad_even(text: Seq<u8>) -> Seq<u8> {
    if text.len() % 2 == 1 {
        seq![0x30u8] + text
    } else {
        text
    }
}

/// The digits of a mask as written: an optional `0x` is dropped, then every
/// `_`, and an odd number of digits gets a leading `0`.
pub open spec fn mask_digits(text: Seq<u8>) -> Seq<u8> {
    pad_even(without_separators(strip_hex_prefix(text)))
}

/// Whether a mask as written can be read at all.
pub open spec fn mask_text_valid(text: Seq<u8>) -> bool {
    is_hex_text(mask_digits(text))
}

/// The bytes of a mask as written, most significant byte first.
pub open spec fn mask_text_bytes(text: Seq<u8>) -> Seq<u8> {
    hex_bytes(mask_digits(text))
}

/// Brings a mask as written into the form that the decoder takes.
pub fn normalize_mask(text: &[u8]) -> (digits: Vec<u8>)
    ensures
        digits@ == mask_digits(text@),
{
    let n: usize = text.len();
    let start: usize = if n >= 2 && text[0] == 0x30 && text[1] == 0x78 {
        2
    } else {
        0
    };
    let ghost body = strip_hex_prefix(text@);
    let mut digits: Vec<u8> = Vec::new();
    let mut i: usize = start;
    while i < n
        invariant
            start <= i <= n,
            n == text@.len(),
            body == text@.skip(start as int),
            digits@ == without_separators(body.take(i - start)),
        decreases n - i,
    {
        let b: u8 = text[i];
        proof {
            let next = body.take(i - start + 1);
            assert(next.drop_last() == body.take(i - start));
            assert(next.last() == b);
        }
        if b != 0x5f {
            digits.push(b);
        }
        i += 1;
    }
    proof {
        assert(body.take(n - start) == body);
    }
    if digits.len() % 2 == 1 {
        digits.insert(0, 0x30);
        proof {
            let d = without_separators(body);
            assert(d.insert(0, 0x30u8) == seq![0x30u8] + d);
        }
    }
    digits
}

/// Reads a mask as written into its bytes, most significant byte first.
pub fn parse_mask(text: &[u8]) -> (r: Option<Vec<u8>>)
    ensures
        r is Some <==> mask_text_valid(text@),
        r matches Some(bytes) ==> bytes@ == mask_text_bytes(text@),
{
    let digits = normalize_mask(text);
    match hex_decode(&digits) {
        Ok(bytes) => Some(bytes),
        Err(_) => None,
    }
}

/// The case of a digit does not matter.
pub proof fn lemma_digit_case(c: u8)
    requires
        0x41 <= c <= 0x46,
    ensures
        is_hex_digit(c),
        is_hex_digit((c + 0x20) as u8),
        hex_digit_value(c) == hex_digit_value((c + 0x20) as u8),
{
}

/// A leading `0x` does not matter.
pub proof fn lemma_prefix_optional(text: Seq<u8>)
    ensures
        strip_hex_prefix(seq![0x30u8, 0x78u8] + text) == text,
{
    let whole = seq![0x30u8, 0x78u8] + text;
    assert(whole.skip(2) == text);
}

/// A separator does not matter, wherever it stands.
pub proof fn lemma_separator_ignored(head: Seq<u8>, rest: Seq<u8>)
    ensures
        without_separators(head + seq![0x5fu8] + rest) == without_separators(head + rest),
    decreases rest.len(),
{
    let with = head + seq![0x5fu8] + rest;
    let without = head + rest;
    if rest.len() == 0 {
        assert(with.drop_last() == head);
        assert(without == head);
    } else {
        assert(with.drop_last() == head + seq![0x5fu8] + rest.drop_last());
        assert(without.drop_last() == head + rest.drop_last());
        assert(with.last() == rest.last());
        assert(without.last() == rest.last());
        lemma_separator_ignored(head, rest.drop_last());
    }
}

} // verus!
