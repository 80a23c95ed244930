//! What the text of numbers is: the digits of the number, and no others.
use vstd::prelude::*;

use crate::text::{byte_text, digit_char, hex_text, int_text, nat_text, pad_right};

verus! {

/// The number that a digit stands for.
pub open spec fn digit_value(c: char) -> nat {
    if '0' <= c <= '9' {
        (c as u32 - '0' as u32) as nat
    } else if 'a' <= c <= 'f' {
        (c as u32 - 'a' as u32 + 10) as nat
    } else {
        16
    }
}

/// The number that digits stand for.
pub open spec fn value_of(s: Seq<char>, base: nat) -> nat
    decreases s.len(),
{
    if s.len() == 0 {
        0
    } else {
        base * value_of(s.drop_last(), base) + digit_value(s.last())
    }
}

/// Whether text is made of the digits of a base, without leading zeros.
pub open spec fn is_number(s: Seq<char>, base: nat) -> bool {
    &&& s.len() > 0
    &&& s.len() > 1 ==> s[0] != '0'
    &&& forall|i: int| 0 <= i < s.len() ==> digit_value(#[trigger] s[i]) < base
}

proof fn lemma_digit(d: nat)
    requires
        d < 16,
    ensures
        digit_value(digit_char(d)) == d,
        d != 0 ==> digit_char(d) != '0',
{
}

/// Decimal text reads back as the number.
pub proof fn decimal_text(n: nat)
    ensures
        value_of(nat_text(n), 10) == n,
        is_number(nat_text(n), 10),
    decreases n,
{
    if n < 10 {
        lemma_digit(n);
        let s = nat_text(n);
        assert(s.drop_last().len() == 0);
        assert(value_of(s.drop_last(), 10) == 0);
    } else {
        decimal_text(n / 10);
        lemma_digit(n % 10);
        let front = nat_text(n / 10);
        let s = nat_text(n);
        assert(s.drop_last() =~= front);
        assert(s[0] == front[0]);
        if front.len() == 1 {
            assert(front.drop_last().len() == 0);
            assert(value_of(front.drop_last(), 10) == 0);
            assert(front[0] != '0');
        }
        assert forall|i: int| 0 <= i < s.len() implies digit_value(#[trigger] s[i]) < 10 by {
            if i < front.len() {
                assert(s[i] == front[i]);
            }
        }
    }
}

/// Hexadecimal text reads back as the number.
pub proof fn hexadecimal_text(n: nat)
    ensures
        value_of(hex_text(n), 16) == n,
        is_number(hex_text(n), 16),
    decreases n,
{
    if n < 16 {
        lemma_digit(n);
        let s = hex_text(n);
        assert(s.drop_last().len() == 0);
        assert(value_of(s.drop_last(), 16) == 0);
    } else {
        hexadecimal_text(n / 16);
        lemma_digit(n % 16);
        let front = hex_text(n / 16);
        let s = hex_text(n);
        assert(s.drop_last() =~= front);
        assert(s[0] == front[0]);
        if front.len() == 1 {
            assert(front.drop_last().len() == 0);
            assert(value_of(front.drop_last(), 16) == 0);
            assert(front[0] != '0');
        }
        assert forall|i: int| 0 <= i < s.len() implies digit_value(#[trigger] s[i]) < 16 by {
            if i < front.len() {
                assert(s[i] == front[i]);
            }
        }
    }
}

/// The text of an integer is that of its absolute value, behind a minus sign
/// where it is negative.
pub proof fn signed_text(i: int)
    ensures
        i >= 0 ==> is_number(int_text(i), 10) && value_of(int_text(i), 10) == i,
        i < 0 ==> int_text(i)[0] == '-' && is_number(int_text(i).skip(1), 10) && value_of(int_text(i).skip(1), 10)
            == -i,
{
    if i >= 0 {
        decimal_text(i as nat);
    } else {
        decimal_text((-i) as nat);
        assert(int_text(i).skip(1) =~= nat_text((-i) as nat));
    }
}

/// The text of a byte is two digits that read back as the byte.
pub proof fn two_digit_text(b: u8)
    ensures
        byte_text(b).len() == 2,
        16 * digit_value(byte_text(b)[0]) + digit_value(byte_text(b)[1]) == b,
{
    lemma_digit((b / 16) as nat);
    lemma_digit((b % 16) as nat);
}

/// Padding keeps the text and adds spaces behind it, up to the width.
pub proof fn padded_text(s: Seq<char>, width: nat)
    ensures
        pad_right(s, width).len() == (if s.len() < width {
            width
        } else {
            s.len()
        }),
        pad_right(s, width).take(s.len() as int) == s,
        forall|i: int| s.len() <= i < pad_right(s, width).len() ==> #[trigger] pad_right(s, width)[i] == ' ',
    decreases width - s.len(),
{
    if s.len() < width {
        let more = s.push(' ');
        padded_text(more, width);
        let all = pad_right(s, width);
        assert(all == pad_right(more, width));
        assert(all.take(more.len() as int) == more);
        assert(all[s.len() as int] == all.take(more.len() as int)[s.len() as int]);
        assert(all.take(s.len() as int) =~= all.take(more.len() as int).take(s.len() as int));
        assert(more.take(s.len() as int) =~= s);
    } else {
        assert(s.take(s.len() as int) =~= s);
    }
}

} // verus!
