//! Hexadecimal text for the raw bits of a flags value: lower-case digits
//! without leading zeros on output, and on input an optional `+` sign
//! followed by digits of either case, bounded by the width's maximum.

use vstd::prelude::*;

use crate::chars::push_char;

verus! {

/// The value of one hexadecimal digit of either case.
pub open spec fn digit_value(c: char) -> Option<nat> {
    if '0' <= c && c <= '9' {
        Some((c as nat - '0' as nat) as nat)
    } else if 'a' <= c && c <= 'f' {
        Some((c as nat - 'a' as nat + 10) as nat)
    } else if 'A' <= c && c <= 'F' {
        Some((c as nat - 'A' as nat + 10) as nat)
    } else {
        None
    }
}

pub open spec fn all_digits(s: Seq<char>) -> bool {
    forall|i: int| 0 <= i < s.len() ==> (#[trigger] digit_value(s[i])) is Some
}

/// The number written by a string of hexadecimal digits, most significant first.
pub open spec fn digits_value(s: Seq<char>) -> nat
    decreases s.len(),
{
    if s.len() == 0 {
        0
    } else {
        digits_value(s.drop_last()) * 16 + digit_value(s.last()).unwrap_or(0)
    }
}

/// The lower-case digit for a value below sixteen.
pub open spec fn digit_char(d: nat) -> char {
    if d < 10 {
        (d + '0' as nat) as char
    } else {
        (d - 10 + 'a' as nat) as char
    }
}

/// The shortest lower-case hexadecimal text of `v` (`"0"` for zero).
pub open spec fn hex_text(v: nat) -> Seq<char>
    decreases v,
{
    if v < 16 {
        seq![digit_char(v)]
    } else {
        hex_text(v / 16).push(digit_char(v % 16))
    }
}

/// What reading `s` as hexadecimal gives, where the result may not exceed `max`.
pub open spec fn parse_hex_spec(s: Seq<char>, max: u64) -> Option<u64> {
    let d = if s.len() > 0 && s[0] == '+' { s.drop_first() } else { s };
    if d.len() > 0 && all_digits(d) && digits_value(d) <= max {
        Some(digits_value(d) as u64)
    } else {
        None
    }
}

fn digit_to_char(d: u64) -> (c: char)
    requires
        d < 16,
    ensures
        c == digit_char(d as nat),
{
    if d < 10 {
        ((d as u8) + 48u8) as char
    } else {
        ((d as u8) - 10 + 97u8) as char
    }
}

fn char_to_digit(c: char) -> (r: Option<u64>)
    ensures
        r matches Some(d) ==> digit_value(c) == Some(d as nat),
        r is None ==> digit_value(c) is None,
{
    if '0' <= c && c <= '9' {
        Some((c as u32 - '0' as u32) as u64)
    } else if 'a' <= c && c <= 'f' {
        Some((c as u32 - 'a' as u32 + 10) as u64)
    } else if 'A' <= c && c <= 'F' {
        Some((c as u32 - 'A' as u32 + 10) as u64)
    } else {
        None
    }
}

/// Appends the lower-case hexadecimal text of `v` to `out`.
pub fn write_hex(out: &mut String, v: u64)
    ensures
        final(out)@ == old(out)@ + hex_text(v as nat),
    decreases v,
{
    if v >= 16 {
        write_hex(out, v / 16);
    }
    push_char(out, digit_to_char(v % 16));
    assert(final(out)@ =~= old(out)@ + hex_text(v as nat));
}

proof fn lemma_digits_value_grows(s: Seq<char>, i: int)
    requires
        0 <= i <= s.len(),
    ensures
        digits_value(s.take(i)) <= digits_value(s),
    decreases s.len() - i,
{
    if i < s.len() {
        lemma_digits_value_grows(s, i + 1);
        assert(s.take(i + 1).drop_last() =~= s.take(i));
    } else {
        assert(s.take(i) =~= s);
    }
}

/// Reads the characters `s[lo..hi]` as hexadecimal, bounded by `max`.
pub fn parse_hex(s: &Vec<char>, lo: usize, hi: usize, max: u64) -> (r: Option<u64>)
    requires
        lo <= hi <= s@.len(),
    ensures
        r == parse_hex_spec(s@.subrange(lo as int, hi as int), max),
{
    let ghost t = s@.subrange(lo as int, hi as int);
    let mut start = lo;
    if start < hi && s[start] == '+' {
        start = start + 1;
    }
    let ghost d = s@.subrange(start as int, hi as int);
    assert(d =~= (if t.len() > 0 && t[0] == '+' { t.drop_first() } else { t }));
    if start == hi {
        return None;
    }
    let mut acc: u64 = 0;
    let mut i = start;
    while i < hi
        invariant
            start <= i <= hi <= s@.len(),
            d == s@.subrange(start as int, hi as int),
            t == s@.subrange(lo as int, hi as int),
            d == (if t.len() > 0 && t[0] == '+' { t.drop_first() } else { t }),
            d.len() > 0,
            all_digits(s@.subrange(start as int, i as int)),
            acc as nat == digits_value(s@.subrange(start as int, i as int)),
            acc <= max,
        decreases hi - i,
    {
        let ghost prefix = s@.subrange(start as int, i as int);
        let ghost next = s@.subrange(start as int, i + 1);
        assert(next.drop_last() =~= prefix);
        match char_to_digit(s[i]) {
            None => {
                assert(!all_digits(d)) by {
                    assert(d[i - start] == s@[i as int]);
                    assert(digit_value(d[i - start]) is None);
                }
                return None;
            },
            Some(dv) => {
                if dv > max || acc > (max - dv) / 16 {
                    assert(digits_value(next) > max) by (nonlinear_arith)
                        requires
                            digits_value(next) == acc * 16 + dv,
                            dv > max || acc > (max - dv) / 16,
                    ;
                    proof {
                        assert(d.take(i + 1 - start) =~= next);
                        lemma_digits_value_grows(d, i + 1 - start);
                    }
                    return None;
                }
                assert(acc * 16 + dv <= max) by (nonlinear_arith)
                    requires
                        acc <= (max - dv) / 16,
                        dv <= max,
                ;
                acc = acc * 16 + dv;
                i = i + 1;
            },
        }
    }
    assert(s@.subrange(start as int, i as int) =~= d);
    Some(acc)
}

/// The hexadecimal text of a value reads back as that value.
pub proof fn lemma_hex_round_trip(v: u64, max: u64)
    requires
        v <= max,
    ensures
        parse_hex_spec(hex_text(v as nat), max) == Some(v),
        hex_text(v as nat).len() > 0,
        hex_text(v as nat)[0] != '+',
        forall|i: int|
            0 <= i < hex_text(v as nat).len() ==> is_lower_hex_char(#[trigger] hex_text(v as nat)[i]),
{
    lemma_hex_text_digits(v as nat);
}

proof fn lemma_hex_text_digits(v: nat)
    ensures
        all_digits(hex_text(v)),
        digits_value(hex_text(v)) == v,
        hex_text(v).len() > 0,
        hex_text(v)[0] != '+',
        forall|i: int| 0 <= i < hex_text(v).len() ==> is_lower_hex_char(#[trigger] hex_text(v)[i]),
    decreases v,
{
    lemma_digit_char(v % 16);
    if v < 16 {
        assert(hex_text(v).drop_last() =~= Seq::<char>::empty());
        assert(digits_value(Seq::<char>::empty()) == 0);
    } else {
        lemma_digit_char(v % 16);
        lemma_hex_text_digits(v / 16);
        let t = hex_text(v);
        assert(t.drop_last() =~= hex_text(v / 16));
        assert(t.last() == digit_char(v % 16));
        assert(digits_value(t) == (v / 16) * 16 + v % 16);
        assert forall|i: int| 0 <= i < t.len() implies digit_value(#[trigger] t[i]) is Some
            && is_lower_hex_char(t[i]) by {
            if i < t.len() - 1 {
                assert(t[i] == hex_text(v / 16)[i]);
            }
        }
    }
}

proof fn lemma_digit_char(d: nat)
    requires
        d < 16,
    ensures
        digit_value(digit_char(d)) == Some(d),
        is_lower_hex_char(digit_char(d)),
        digit_char(d) != '+',
{
}

/// A character that lower-case hexadecimal text is made of.
pub open spec fn is_lower_hex_char(c: char) -> bool {
    ('0' <= c && c <= '9') || ('a' <= c && c <= 'f')
}

} // verus!
