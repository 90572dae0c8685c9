//! The human-readable text of a flags value: the names of its set flags in
//! declaration order, joined by `" | "`, then any bits that no yielded flag
//! covers as one `0x` hexadecimal flag. The empty value is the empty text.

use vstd::prelude::*;
use vstd::std_specs::iter::IteratorSpec;

use crate::error::DecodeError;
use crate::flags::{find_name, Flag, FlagTable};
use crate::hex::{hex_text, parse_hex, parse_hex_spec, write_hex};

verus! {

broadcast use vstd::string::group_string_axioms;

/// A character with the Unicode `White_Space` property.
pub open spec fn is_ws(c: char) -> bool {
    ('\u{9}' <= c && c <= '\u{d}') || c == ' ' || c == '\u{85}' || c == '\u{a0}'
        || c == '\u{1680}' || ('\u{2000}' <= c && c <= '\u{200a}') || c == '\u{2028}'
        || c == '\u{2029}' || c == '\u{202f}' || c == '\u{205f}' || c == '\u{3000}'
}

pub open spec fn trim_start(s: Seq<char>) -> Seq<char>
    decreases s.len(),
{
    if s.len() > 0 && is_ws(s[0]) {
        trim_start(s.drop_first())
    } else {
        s
    }
}

pub open spec fn trim_end(s: Seq<char>) -> Seq<char>
    decreases s.len(),
{
    if s.len() > 0 && is_ws(s.last()) {
        trim_end(s.drop_last())
    } else {
        s
    }
}

/// `s` without leading and trailing whitespace.
pub open spec fn trim(s: Seq<char>) -> Seq<char> {
    trim_end(trim_start(s))
}

/// The pieces of `s` between `|` separators; one piece for a text without any.
pub open spec fn split_bars(s: Seq<char>) -> Seq<Seq<char>>
    decreases s.len(),
{
    if s.len() == 0 {
        seq![Seq::empty()]
    } else {
        let p = split_bars(s.drop_last());
        if s.last() == '|' {
            p.push(Seq::empty())
        } else {
            p.update(p.len() - 1, p.last().push(s.last()))
        }
    }
}

pub open spec fn separator() -> Seq<char> {
    seq![' ', '|', ' ']
}

/// The pieces joined by `" | "`.
pub open spec fn join(p: Seq<Seq<char>>) -> Seq<char>
    decreases p.len(),
{
    if p.len() == 0 {
        Seq::empty()
    } else if p.len() == 1 {
        p[0]
    } else {
        join(p.drop_last()) + separator() + p.last()
    }
}

/// The names yielded for a value with bit pattern `source` by the flags
/// `flags`, taken in order, and the bits left over. A named flag is yielded
/// when all its bits are set in `source` and some of them are not yet covered
/// by an earlier yielded flag.
pub open spec fn named(flags: Seq<Flag>, source: u64) -> (Seq<Seq<char>>, u64)
    decreases flags.len(),
{
    if flags.len() == 0 {
        (Seq::empty(), source)
    } else {
        let (names, rem) = named(flags.drop_last(), source);
        let f = flags.last();
        if f.name@.len() > 0 && source & f.bits == f.bits && rem & f.bits != 0 {
            (names.push(f.name@), rem & !f.bits)
        } else {
            (names, rem)
        }
    }
}

pub open spec fn hex_prefix() -> Seq<char> {
    seq!['0', 'x']
}

/// The flags of the text of `bits`: the yielded names, then the leftover bits
/// in hexadecimal where there are any.
pub open spec fn pieces(table: FlagTable, bits: u64) -> Seq<Seq<char>> {
    let (names, rem) = named(table.flags@, bits);
    if rem == 0 {
        names
    } else {
        names.push(hex_prefix() + hex_text(rem as nat))
    }
}

/// The human-readable text of the bit pattern `bits`.
pub open spec fn render_text(table: FlagTable, bits: u64) -> Seq<char> {
    join(pieces(table, bits))
}

/// The bits of one trimmed flag of a text: a `0x` hexadecimal number or a
/// declared name.
pub open spec fn token_value(table: FlagTable, t: Seq<char>) -> Result<u64, DecodeError> {
    if t.len() == 0 {
        Err(DecodeError::EmptyFlag)
    } else if t.len() >= 2 && t[0] == '0' && t[1] == 'x' {
        match parse_hex_spec(t.skip(2), table.width.max_spec()) {
            Some(v) => Ok(v),
            None => Err(DecodeError::InvalidHexFlag),
        }
    } else {
        match find_name(table.flags@, t) {
            Some(b) => Ok(b),
            None => Err(DecodeError::InvalidNamedFlag),
        }
    }
}

/// The union of the bits of the trimmed flags `toks`, or the error of the
/// first one that is not valid.
pub open spec fn tokens_value(table: FlagTable, toks: Seq<Seq<char>>) -> Result<u64, DecodeError>
    decreases toks.len(),
{
    if toks.len() == 0 {
        Ok(0)
    } else {
        match tokens_value(table, toks.drop_last()) {
            Err(e) => Err(e),
            Ok(a) => match token_value(table, toks.last()) {
                Err(e) => Err(e),
                Ok(b) => Ok(a | b),
            },
        }
    }
}

/// Each piece trimmed.
pub open spec fn trimmed(p: Seq<Seq<char>>) -> Seq<Seq<char>> {
    p.map_values(|t: Seq<char>| trim(t))
}

pub open spec fn all_ws(s: Seq<char>) -> bool {
    forall|i: int| 0 <= i < s.len() ==> is_ws(#[trigger] s[i])
}

/// What reading the text `s` gives: the empty value for a text of
/// whitespace only, else the union of its `|`-separated flags.
pub open spec fn parse_text(table: FlagTable, s: Seq<char>) -> Result<u64, DecodeError> {
    if all_ws(s) {
        Ok(0)
    } else {
        tokens_value(table, trimmed(split_bars(s)))
    }
}

fn is_whitespace(c: char) -> (r: bool)
    ensures
        r == is_ws(c),
{
    ('\u{9}' <= c && c <= '\u{d}') || c == ' ' || c == '\u{85}' || c == '\u{a0}' || c
        == '\u{1680}' || ('\u{2000}' <= c && c <= '\u{200a}') || c == '\u{2028}' || c
        == '\u{2029}' || c == '\u{202f}' || c == '\u{205f}' || c == '\u{3000}'
}

fn chars_of(s: &str) -> (r: Vec<char>)
    ensures
        r@ == s@,
{
    let mut it = s.chars();
    let mut out: Vec<char> = Vec::new();
    loop
        invariant
            out@.len() <= s@.len(),
            it.remaining() == s@.skip(out@.len() as int),
            out@ == s@.take(out@.len() as int),
        decreases s@.len() - out@.len(),
    {
        match it.next() {
            None => {
                assert(out@ =~= s@);
                return out;
            },
            Some(c) => {
                let ghost n = out@.len() as int;
                out.push(c);
                assert(out@ =~= s@.take(n + 1));
                assert(it.remaining() =~= s@.skip(n + 1));
            },
        }
    }
}

/// Writes the human-readable text of the bit pattern `bits`.
pub fn to_text(table: &FlagTable, bits: u64) -> (r: String)
    ensures
        r@ == render_text(*table, bits),
{
    let mut out = String::new();
    let mut remaining = bits;
    let mut first = true;
    let ghost mut names: Seq<Seq<char>> = Seq::empty();
    proof {
        reveal_strlit(" | ");
        reveal_strlit("0x");
        assert(" | "@ =~= separator());
        assert("0x"@ =~= hex_prefix());
    }
    let n = table.flags.len();
    let mut i: usize = 0;
    while i < n
        invariant
            n == table.flags@.len(),
            i <= n,
            named(table.flags@.take(i as int), bits) == (names, remaining),
            out@ == join(names),
            first == (names.len() == 0),
            " | "@ == separator(),
            "0x"@ == hex_prefix(),
        decreases n - i,
    {
        let f = &table.flags[i];
        assert(table.flags@.take(i + 1).drop_last() =~= table.flags@.take(i as int));
        if !f.name.as_str().is_empty() && bits & f.bits == f.bits && remaining & f.bits != 0 {
            let ghost before = out@;
            if !first {
                out.append(" | ");
            }
            let ghost mid = out@;
            assert(mid == if first { before } else { before + separator() });
            out.append(f.name.as_str());
            assert(out@ == mid + f.name@);
            proof {
                let p = names.push(f.name@);
                if names.len() > 0 {
                    assert(p.drop_last() =~= names);
                    assert(out@ =~= join(p));
                } else {
                    assert(out@ =~= join(p));
                }
                names = p;
            }
            remaining = remaining & !f.bits;
            first = false;
        }
        i = i + 1;
    }
    assert(table.flags@.take(n as int) =~= table.flags@);
    if remaining != 0 {
        if !first {
            out.append(" | ");
        }
        out.append("0x");
        write_hex(&mut out, remaining);
        let ghost p = names.push(hex_prefix() + hex_text(remaining as nat));
        assert(p.drop_last() =~= names);
        assert(out@ =~= join(p));
    }
    out
}

/// A text has at least one piece.
pub proof fn lemma_split_len(s: Seq<char>)
    ensures
        split_bars(s).len() >= 1,
    decreases s.len(),
{
    if s.len() > 0 {
        lemma_split_len(s.drop_last());
    }
}

/// The pieces of a prefix, but its last, are the first pieces of the whole.
proof fn lemma_split_prefix(s: Seq<char>, j: int)
    requires
        0 <= j <= s.len(),
    ensures
        ({
            let p = split_bars(s.take(j)).drop_last();
            p.len() <= split_bars(s).len() && split_bars(s).take(p.len() as int) == p
        }),
    decreases s.len() - j,
{
    let p = split_bars(s.take(j)).drop_last();
    if j == s.len() {
        assert(s.take(j) =~= s);
        lemma_split_len(s);
        assert(split_bars(s).take(p.len() as int) =~= p);
    } else {
        lemma_split_prefix(s, j + 1);
        lemma_split_len(s.take(j));
        assert(s.take(j + 1).drop_last() =~= s.take(j));
        let q = split_bars(s.take(j + 1)).drop_last();
        assert(q.take(p.len() as int) =~= p);
        assert(split_bars(s).take(p.len() as int) =~= p) by {
            assert forall|k: int| 0 <= k < p.len() implies split_bars(s).take(p.len() as int)[k] == p[k] by {
                assert(split_bars(s).take(q.len() as int)[k] == q[k]);
            }
        }
    }
}

/// A flag that is not valid makes every text that starts with it invalid.
pub proof fn lemma_tokens_error_spreads(table: FlagTable, pre: Seq<Seq<char>>, toks: Seq<Seq<char>>)
    requires
        pre.len() <= toks.len(),
        toks.take(pre.len() as int) == pre,
        tokens_value(table, pre) is Err,
    ensures
        tokens_value(table, toks) == tokens_value(table, pre),
    decreases toks.len(),
{
    if toks.len() == pre.len() {
        assert(toks =~= pre);
    } else {
        assert(toks.drop_last().take(pre.len() as int) =~= pre);
        lemma_tokens_error_spreads(table, pre, toks.drop_last());
    }
}

/// The bits of the flag `s[lo..hi]`, once trimmed.
fn token(table: &FlagTable, s: &Vec<char>, lo: usize, hi: usize) -> (r: Result<u64, DecodeError>)
    requires
        lo <= hi <= s@.len(),
    ensures
        r == token_value(*table, trim(s@.subrange(lo as int, hi as int))),
{
    let ghost whole = s@.subrange(lo as int, hi as int);
    let mut a = lo;
    while a < hi && is_whitespace(s[a])
        invariant
            lo <= a <= hi <= s@.len(),
            trim_start(whole) == trim_start(s@.subrange(a as int, hi as int)),
        decreases hi - a,
    {
        assert(s@.subrange(a as int, hi as int).drop_first() =~= s@.subrange(a + 1, hi as int));
        a = a + 1;
    }
    let mut b = hi;
    while b > a && is_whitespace(s[b - 1])
        invariant
            lo <= a <= b <= hi <= s@.len(),
            trim_start(whole) == s@.subrange(a as int, hi as int) || a == b,
            trim(whole) == trim_end(s@.subrange(a as int, b as int)),
        decreases b - a,
    {
        assert(s@.subrange(a as int, b as int).drop_last() =~= s@.subrange(a as int, b - 1));
        b = b - 1;
    }
    let ghost t = s@.subrange(a as int, b as int);
    assert(trim(whole) == t);
    if a == b {
        return Err(DecodeError::EmptyFlag);
    }
    if b - a >= 2 && s[a] == '0' && s[a + 1] == 'x' {
        assert(t.skip(2) =~= s@.subrange(a + 2, b as int));
        match parse_hex(s, a + 2, b, table.width.max()) {
            Some(v) => Ok(v),
            None => Err(DecodeError::InvalidHexFlag),
        }
    } else {
        match table.from_name(s, a, b) {
            Some(v) => Ok(v),
            None => Err(DecodeError::InvalidNamedFlag),
        }
    }
}

/// Reads a human-readable text: whitespace only gives the empty bit pattern;
/// otherwise each `|`-separated flag, trimmed, is a declared name or a `0x`
/// hexadecimal number, and the result is the union of their bits.
pub fn from_text(table: &FlagTable, text: &str) -> (r: Result<u64, DecodeError>)
    ensures
        r == parse_text(*table, text@),
{
    let s = chars_of(text);
    let n = s.len();
    let mut k: usize = 0;
    while k < n && is_whitespace(s[k])
        invariant
            k <= n == s@.len(),
            forall|j: int| 0 <= j < k ==> is_ws(#[trigger] s@[j]),
        decreases n - k,
    {
        k = k + 1;
    }
    if k == n {
        return Ok(0);
    }
    assert(!all_ws(s@)) by {
        assert(!is_ws(s@[k as int]));
    }
    let mut acc: u64 = 0;
    let mut start: usize = 0;
    let mut i: usize = 0;
    let ghost mut done: Seq<Seq<char>> = Seq::empty();
    assert(s@.take(0) =~= Seq::<char>::empty());
    assert(done.push(s@.subrange(0, 0)) =~= seq![Seq::<char>::empty()]);
    assert(trimmed(done) =~= Seq::<Seq<char>>::empty());
    while i < n
        invariant
            n == s@.len(),
            s@ == text@,
            !all_ws(s@),
            start <= i <= n,
            split_bars(s@.take(i as int)) == done.push(s@.subrange(start as int, i as int)),
            tokens_value(*table, trimmed(done)) == Ok::<u64, DecodeError>(acc),
        decreases n - i,
    {
        let ghost cur = s@.subrange(start as int, i as int);
        assert(s@.take(i + 1).drop_last() =~= s@.take(i as int));
        if s[i] == '|' {
            let v = token(table, &s, start, i);
            let ghost next_done = done.push(cur);
            assert(trimmed(next_done).drop_last() =~= trimmed(done));
            match v {
                Err(e) => {
                    proof {
                        lemma_split_len(s@.take(i as int));
                        assert(split_bars(s@.take(i + 1)).drop_last() =~= next_done);
                        lemma_split_prefix(s@, i + 1);
                        let all = split_bars(s@);
                        let pre = trimmed(next_done);
                        let full = trimmed(all);
                        assert(full.take(pre.len() as int) =~= pre) by {
                            assert forall|j: int| 0 <= j < pre.len() implies full.take(pre.len() as int)[j] == pre[j] by {
                                assert(all.take(next_done.len() as int)[j] == next_done[j]);
                            }
                        }
                        assert(pre.last() == trim(cur));
                        assert(pre.drop_last() =~= trimmed(done));
                        assert(tokens_value(*table, pre) == Err::<u64, DecodeError>(e));
                        lemma_tokens_error_spreads(*table, pre, full);
                    }
                    return Err(e);
                },
                Ok(b) => {
                    acc = acc | b;
                },
            }
            proof {
                done = next_done;
            }
            start = i + 1;
            assert(s@.subrange(start as int, start as int) =~= Seq::<char>::empty());
        } else {
            assert(s@.subrange(start as int, i + 1) =~= cur.push(s@[i as int]));
        }
        i = i + 1;
    }
    assert(s@.take(n as int) =~= s@);
    let v = token(table, &s, start, n);
    let ghost all = done.push(s@.subrange(start as int, n as int));
    assert(trimmed(all).drop_last() =~= trimmed(done));
    match v {
        Err(e) => Err(e),
        Ok(b) => Ok(acc | b),
    }
}

} // verus!
