//! Reading numbers and blank-separated fields out of text.
use vstd::prelude::*;

verus! {

/// A blank: a space, a tab, a line feed, a vertical tab, a form feed or a
/// carriage return.
pub open spec fn is_space(b: u8) -> bool {
    b == 0x20 || (0x09 <= b <= 0x0d)
}

/// A decimal digit.
pub open spec fn is_digit(b: u8) -> bool {
    0x30 <= b <= 0x39
}

/// Whether every byte is a decimal digit.
pub open spec fn all_digits(s: Seq<u8>) -> bool {
    forall|i: int| 0 <= i < s.len() ==> is_digit(#[trigger] s[i])
}

/// The number that decimal digits spell.
pub open spec fn digits_value(s: Seq<u8>) -> int
    decreases s.len(),
{
    if s.len() == 0 {
        0
    } else {
        10 * digits_value(s.drop_last()) + (s.last() - 0x30)
    }
}

/// The digits of a number as written, without the `+` that may lead it.
pub open spec fn unsigned(s: Seq<u8>) -> Seq<u8> {
    if s.len() > 0 && s[0] == 0x2b {
        s.skip(1)
    } else {
        s
    }
}

/// The number that a text spells, if it spells one that is at most `max`: one
/// or more decimal digits, with or without a leading `+`.
pub open spec fn number(s: Seq<u8>, max: u64) -> Option<u64> {
    let d = unsigned(s);
    if d.len() > 0 && all_digits(d) && digits_value(d) <= max {
        Some(digits_value(d) as u64)
    } else {
        None
    }
}

/// More digits do not spell a smaller number.
proof fn lemma_digits_grow(s: Seq<u8>, n: int)
    requires
        all_digits(s),
        0 <= n <= s.len(),
    ensures
        0 <= digits_value(s.take(n)) <= digits_value(s),
    decreases s.len() - n,
{
    if n == s.len() {
        assert(s.take(n) == s);
        lemma_digits_nonneg(s);
    } else {
        lemma_digits_grow(s, n + 1);
        assert(s.take(n + 1).drop_last() == s.take(n));
        lemma_digits_nonneg(s.take(n));
        assert(is_digit(s[n]));
        assert(s.take(n + 1).last() == s[n]);
    }
}

proof fn lemma_digits_nonneg(s: Seq<u8>)
    requires
        all_digits(s),
    ensures
        0 <= digits_value(s),
    decreases s.len(),
{
    if s.len() > 0 {
        assert(is_digit(s.last()));
        assert forall|i: int| 0 <= i < s.drop_last().len() implies is_digit(
            #[trigger] s.drop_last()[i],
        ) by {
            assert(s.drop_last()[i] == s[i]);
        }
        lemma_digits_nonneg(s.drop_last());
    }
}

/// Reads the number that the bytes from `start` to `end` spell.
pub fn parse_number(text: &[u8], start: usize, end: usize, max: u64) -> (r: Option<u64>)
    requires
        start <= end <= text@.len(),
    ensures
        r == number(text@.subrange(start as int, end as int), max),
{
    let ghost s = text@.subrange(start as int, end as int);
    let first: usize = if start < end && text[start] == 0x2b {
        start + 1
    } else {
        start
    };
    let ghost d = unsigned(s);
    assert(d == text@.subrange(first as int, end as int));
    if first == end {
        return None;
    }
    let mut acc: u64 = 0;
    let mut i: usize = first;
    while i < end
        invariant
            start <= first <= i <= end <= text@.len(),
            first < end,
            s == text@.subrange(start as int, end as int),
            d == unsigned(s),
            d == text@.subrange(first as int, end as int),
            all_digits(d.take(i - first)),
            acc == digits_value(d.take(i - first)),
            acc <= max,
        decreases end - i,
    {
        let b: u8 = text[i];
        let ghost next = d.take(i - first + 1);
        proof {
            assert(next.drop_last() == d.take(i - first));
            assert(next.last() == b);
        }
        if b < 0x30 || b > 0x39 {
            proof {
                assert(!is_digit(d[i - first]));
            }
            return None;
        }
        let digit: u64 = (b - 0x30) as u64;
        if digit > max || acc > (max - digit) / 10 {
            proof {
                if all_digits(d) {
                    assert(digits_value(next) > max);
                    lemma_digits_grow(d, i - first + 1);
                }
            }
            return None;
        }
        acc = acc * 10 + digit;
        proof {
            assert forall|j: int| 0 <= j < next.len() implies is_digit(#[trigger] next[j]) by {
                if j < next.len() - 1 {
                    assert(next[j] == d.take(i - first)[j]);
                }
            }
        }
        i += 1;
    }
    proof {
        assert(d.take(end - first) == d);
    }
    Some(acc)
}

/// Where the field at or after `pos` starts: at the first byte from there on
/// that is no blank, or at the end.
pub open spec fn field_start(line: Seq<u8>, pos: int) -> int
    decreases line.len() - pos,
{
    if pos >= line.len() {
        line.len() as int
    } else if is_space(line[pos]) {
        field_start(line, pos + 1)
    } else {
        pos
    }
}

/// Where the field that starts at `pos` ends: at the first blank from there
/// on, or at the end.
pub open spec fn field_end(line: Seq<u8>, pos: int) -> int
    decreases line.len() - pos,
{
    if pos >= line.len() {
        line.len() as int
    } else if is_space(line[pos]) {
        pos
    } else {
        field_end(line, pos + 1)
    }
}

/// Both lie between the place they are taken from and the end.
pub proof fn lemma_field_bounds(line: Seq<u8>, pos: int)
    requires
        0 <= pos <= line.len(),
    ensures
        pos <= field_start(line, pos) <= line.len(),
        pos <= field_end(line, pos) <= line.len(),
    decreases line.len() - pos,
{
    if pos < line.len() {
        lemma_field_bounds(line, pos + 1);
    }
}

fn is_space_byte(b: u8) -> (r: bool)
    ensures
        r == is_space(b),
{
    b == 0x20 || (0x09 <= b && b <= 0x0d)
}

/// Finds where the field at or after `pos` starts, within the line that ends
/// at `end`.
pub(crate) fn find_field_start(text: &[u8], pos: usize, end: usize, Ghost(base): Ghost<int>) -> (r: usize)
    requires
        0 <= base <= pos <= end <= text@.len(),
    ensures
        pos <= r <= end,
        r - base == field_start(text@.subrange(base, end as int), pos - base),
{
    let ghost line = text@.subrange(base, end as int);
    let mut i: usize = pos;
    while i < end && is_space_byte(text[i])
        invariant
            0 <= base <= pos <= i <= end <= text@.len(),
            line == text@.subrange(base, end as int),
            field_start(line, pos - base) == field_start(line, i - base),
        decreases end - i,
    {
        assert(line[i - base] == text@[i as int]);
        i += 1;
    }
    proof {
        if i < end {
            assert(line[i - base] == text@[i as int]);
        }
    }
    i
}

/// Finds where the field that starts at `pos` ends, within the line that ends
/// at `end`.
pub(crate) fn find_field_end(text: &[u8], pos: usize, end: usize, Ghost(base): Ghost<int>) -> (r: usize)
    requires
        0 <= base <= pos <= end <= text@.len(),
    ensures
        pos <= r <= end,
        r - base == field_end(text@.subrange(base, end as int), pos - base),
{
    let ghost line = text@.subrange(base, end as int);
    let mut i: usize = pos;
    while i < end && !is_space_byte(text[i])
        invariant
            0 <= base <= pos <= i <= end <= text@.len(),
            line == text@.subrange(base, end as int),
            field_end(line, pos - base) == field_end(line, i - base),
        decreases end - i,
    {
        assert(line[i - base] == text@[i as int]);
        i += 1;
    }
    proof {
        if i < end {
            assert(line[i - base] == text@[i as int]);
        }
    }
    i
}

} // verus!
