//! Decimal text of integers, as bencoding writes and reads it.

use vstd::prelude::*;

verus! {

/// Whether `b` is an ASCII decimal digit.
pub open spec fn is_digit(b: u8) -> bool {
    0x30 <= b <= 0x39
}

/// The decimal digits of `n`, most significant first, without leading zeros.
pub open spec fn nat_text(n: nat) -> Seq<u8>
    decreases n,
{
    if n < 10 {
        seq![(0x30 + n) as u8]
    } else {
        nat_text(n / 10).push((0x30 + n % 10) as u8)
    }
}

/// The decimal text of `i`: a minus sign for a negative number, then the
/// digits of its magnitude.
pub open spec fn int_text(i: int) -> Seq<u8> {
    if i < 0 {
        seq![0x2du8] + nat_text((-i) as nat)
    } else {
        nat_text(i as nat)
    }
}

/// The first position at or after `pos` that holds no digit; the length of
/// `s` when the digits run to its end.
pub open spec fn digits_end(s: Seq<u8>, pos: int) -> int
    decreases s.len() - pos,
{
    if 0 <= pos < s.len() && is_digit(s[pos]) {
        digits_end(s, pos + 1)
    } else {
        pos
    }
}

/// The number that the digits of `s` in `[from, to)` spell.
pub open spec fn digits_value(s: Seq<u8>, from: int, to: int) -> nat
    decreases to - from,
{
    if to <= from {
        0
    } else {
        digits_value(s, from, to - 1) * 10 + (s[to - 1] - 0x30) as nat
    }
}

/// Whether every byte of `s` in `[from, to)` is a digit.
pub open spec fn all_digits(s: Seq<u8>, from: int, to: int) -> bool {
    forall|i: int| from <= i < to ==> is_digit(#[trigger] s[i])
}

/// Whether `text` stands in `s` at position `pos`.
pub open spec fn holds_at(s: Seq<u8>, pos: int, text: Seq<u8>) -> bool {
    &&& 0 <= pos
    &&& pos + text.len() <= s.len()
    &&& s.subrange(pos, pos + text.len()) == text
}

/// `digits_end` stops at the first byte that is no digit, and not before.
pub proof fn lemma_digits_end(s: Seq<u8>, pos: int)
    requires
        0 <= pos <= s.len(),
    ensures
        pos <= digits_end(s, pos) <= s.len(),
        all_digits(s, pos, digits_end(s, pos)),
        digits_end(s, pos) < s.len() ==> !is_digit(s[digits_end(s, pos)]),
    decreases s.len() - pos,
{
    if pos < s.len() && is_digit(s[pos]) {
        lemma_digits_end(s, pos + 1);
    }
}

/// A run of digits that ends at `end` is what `digits_end` finds.
pub proof fn lemma_digits_end_is(s: Seq<u8>, pos: int, end: int)
    requires
        0 <= pos <= end <= s.len(),
        all_digits(s, pos, end),
        end < s.len() ==> !is_digit(s[end]),
    ensures
        digits_end(s, pos) == end,
    decreases end - pos,
{
    if pos < end {
        assert(is_digit(s[pos]));
        lemma_digits_end_is(s, pos + 1, end);
    }
}

/// The value of a run of digits grows with the run.
pub proof fn lemma_digits_value_grows(s: Seq<u8>, from: int, mid: int, to: int)
    requires
        from <= mid <= to,
        all_digits(s, from, to),
    ensures
        digits_value(s, from, mid) <= digits_value(s, from, to),
    decreases to - mid,
{
    if mid < to {
        lemma_digits_value_grows(s, from, mid, to - 1);
        assert(is_digit(s[to - 1]));
    }
}

/// A run of digits that does not start with a zero spells a positive number.
pub proof fn lemma_digits_value_positive(s: Seq<u8>, from: int, to: int)
    requires
        from < to,
        all_digits(s, from, to),
        s[from] != 0x30,
    ensures
        digits_value(s, from, to) >= 1,
    decreases to - from,
{
    assert(is_digit(s[from]));
    assert(is_digit(s[to - 1]));
    if to - from > 1 {
        lemma_digits_value_positive(s, from, to - 1);
    } else {
        assert(digits_value(s, from, from) == 0);
    }
}

/// The text of a number is a nonempty run of digits, and starts with a zero
/// only for zero itself.
pub proof fn lemma_nat_text_shape(n: nat)
    ensures
        nat_text(n).len() >= 1,
        all_digits(nat_text(n), 0, nat_text(n).len() as int),
        nat_text(n)[0] == 0x30 <==> n == 0,
        n < 10 <==> nat_text(n).len() == 1,
    decreases n,
{
    if n >= 10 {
        lemma_nat_text_shape(n / 10);
        let head = nat_text(n / 10);
        let t = nat_text(n);
        assert(t == head.push((0x30 + n % 10) as u8));
        assert forall|i: int| 0 <= i < t.len() implies is_digit(#[trigger] t[i]) by {
            if i < head.len() {
                assert(t[i] == head[i]);
            }
        }
        assert(t[0] == head[0]);
    }
}

/// Where the text of `n` stands in `s`, the digits there spell `n`.
pub proof fn lemma_digits_value_of_text(s: Seq<u8>, pos: int, n: nat)
    requires
        holds_at(s, pos, nat_text(n)),
    ensures
        digits_value(s, pos, pos + nat_text(n).len()) == n,
        all_digits(s, pos, pos + nat_text(n).len()),
    decreases n,
{
    let t = nat_text(n);
    let len = t.len() as int;
    lemma_nat_text_shape(n);
    assert forall|i: int| pos <= i < pos + len implies is_digit(#[trigger] s[i]) by {
        assert(s[i] == s.subrange(pos, pos + len)[i - pos]);
        assert(is_digit(t[i - pos]));
    }
    assert(s[pos + len - 1] == s.subrange(pos, pos + len)[len - 1]);
    if n < 10 {
        assert(digits_value(s, pos, pos) == 0);
        assert(t[0] == (0x30 + n) as u8);
    } else {
        let head = nat_text(n / 10);
        assert(t == head.push((0x30 + n % 10) as u8));
        assert(s.subrange(pos, pos + head.len()) =~= head) by {
            assert forall|i: int| 0 <= i < head.len() implies s.subrange(pos, pos + head.len())[i]
                == head[i] by {
                assert(s[pos + i] == s.subrange(pos, pos + len)[i]);
                assert(t[i] == head[i]);
            }
        }
        lemma_digits_value_of_text(s, pos, n / 10);
        assert(t[len - 1] == (0x30 + n % 10) as u8);
    }
}

/// A run of digits without a leading zero is the text of the number it
/// spells.
pub proof fn lemma_text_of_digits_value(s: Seq<u8>, from: int, to: int)
    requires
        0 <= from < to <= s.len(),
        all_digits(s, from, to),
        s[from] != 0x30 || to - from == 1,
    ensures
        nat_text(digits_value(s, from, to)) == s.subrange(from, to),
    decreases to - from,
{
    let v = digits_value(s, from, to);
    assert(is_digit(s[to - 1]));
    let d = (s[to - 1] - 0x30) as nat;
    if to - from == 1 {
        assert(digits_value(s, from, from) == 0);
        assert(v == d);
        assert(nat_text(v) =~= s.subrange(from, to));
    } else {
        let head = digits_value(s, from, to - 1);
        lemma_digits_value_positive(s, from, to - 1);
        lemma_text_of_digits_value(s, from, to - 1);
        assert(v == head * 10 + d);
        assert(v / 10 == head && v % 10 == d);
        assert(nat_text(v) == nat_text(head).push((0x30 + d) as u8));
        assert(nat_text(v) =~= s.subrange(from, to));
    }
}

/// Appends the decimal text of `n` to `out`.
pub fn push_decimal(out: &mut Vec<u8>, n: u64)
    ensures
        final(out)@ == old(out)@ + nat_text(n as nat),
    decreases n,
{
    if n >= 10 {
        push_decimal(out, n / 10);
    }
    let digit: u8 = (n % 10) as u8;
    out.push(0x30 + digit);
    proof {
        if n >= 10 {
            assert(final(out)@ =~= old(out)@ + nat_text(n as nat));
        } else {
            assert(final(out)@ =~= old(out)@ + nat_text(n as nat));
        }
    }
}

/// Appends the decimal text of `i` to `out`.
pub fn push_signed_decimal(out: &mut Vec<u8>, i: i64)
    ensures
        final(out)@ == old(out)@ + int_text(i as int),
{
    if i < 0 {
        out.push(0x2d);
        let magnitude: u64 = ((-(i + 1)) as u64) + 1;
        push_decimal(out, magnitude);
        assert(final(out)@ =~= old(out)@ + int_text(i as int));
    } else {
        push_decimal(out, i as u64);
    }
}

} // verus!
