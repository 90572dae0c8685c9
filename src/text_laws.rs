//! Reading back the text of a value gives the value: the text's pieces split
//! back apart, trim to the names and hexadecimal written, and those name
//! exactly the bits of the value.

use vstd::prelude::*;

use crate::flags::{find_name, find_name_from, is_ident, FlagTable};
use crate::hex::{hex_text, is_lower_hex_char, lemma_hex_round_trip};
use crate::text::{
    all_ws, hex_prefix, is_ws, join, named, parse_text, pieces, render_text, separator,
    lemma_split_len, split_bars, token_value, tokens_value, trim, trim_end, trim_start, trimmed,
};

verus! {

/// A piece that reads back as itself: not empty, no separator in it, and no
/// whitespace at either end.
pub open spec fn clean(x: Seq<char>) -> bool {
    &&& x.len() > 0
    &&& !is_ws(x[0])
    &&& !is_ws(x.last())
    &&& forall|i: int| 0 <= i < x.len() ==> #[trigger] x[i] != '|'
}

proof fn lemma_trim_start_concat(a: Seq<char>, b: Seq<char>)
    ensures
        trim_start(a + b) == if trim_start(a).len() > 0 {
            trim_start(a) + b
        } else {
            trim_start(b)
        },
    decreases a.len(),
{
    if a.len() == 0 {
        assert(a + b =~= b);
    } else if is_ws(a[0]) {
        assert((a + b).drop_first() =~= a.drop_first() + b);
        lemma_trim_start_concat(a.drop_first(), b);
    } else {
        assert((a + b)[0] == a[0]);
    }
}

proof fn lemma_trim_end_concat(a: Seq<char>, b: Seq<char>)
    ensures
        trim_end(a + b) == if trim_end(b).len() > 0 {
            a + trim_end(b)
        } else {
            trim_end(a)
        },
    decreases b.len(),
{
    if b.len() == 0 {
        assert(a + b =~= a);
    } else if is_ws(b.last()) {
        assert((a + b).drop_last() =~= a + b.drop_last());
        lemma_trim_end_concat(a, b.drop_last());
    } else {
        assert((a + b).last() == b.last());
    }
}

proof fn lemma_trim_space_after(t: Seq<char>)
    ensures
        trim(t + seq![' ']) == trim(t),
{
    let sp = seq![' '];
    lemma_trim_start_concat(t, sp);
    assert(sp.drop_first() =~= Seq::<char>::empty());
    assert(trim_start(sp) == trim_start(Seq::<char>::empty()));
    assert(sp.drop_last() =~= Seq::<char>::empty());
    assert(trim_end(sp) == trim_end(Seq::<char>::empty()));
    if trim_start(t).len() > 0 {
        lemma_trim_end_concat(trim_start(t), sp);
    }
}

proof fn lemma_trim_clean(x: Seq<char>)
    requires
        clean(x),
    ensures
        trim(x) == x,
        trim(seq![' '] + x) == x,
{
    let sp = seq![' '];
    lemma_trim_start_concat(sp, x);
    assert(sp.drop_first() =~= Seq::<char>::empty());
    assert(trim_start(sp) == trim_start(Seq::<char>::empty()));
}

/// Characters without a separator extend the last piece.
proof fn lemma_split_plain(s: Seq<char>, t: Seq<char>)
    requires
        forall|i: int| 0 <= i < t.len() ==> #[trigger] t[i] != '|',
    ensures
        ({
            let p = split_bars(s);
            split_bars(s + t) == p.update(p.len() - 1, p.last() + t)
        }),
    decreases t.len(),
{
    lemma_split_len(s);
    let p = split_bars(s);
    if t.len() == 0 {
        assert(s + t =~= s);
        assert(p.last() + t =~= p.last());
        assert(p.update(p.len() - 1, p.last() + t) =~= p);
    } else {
        let u = t.drop_last();
        assert((s + t).drop_last() =~= s + u);
        lemma_split_plain(s, u);
        assert(t.last() == t[t.len() - 1]);
        assert((p.last() + u).push(t.last()) =~= p.last() + t);
        assert(p.update(p.len() - 1, p.last() + u).update(p.len() - 1, p.last() + t)
            =~= p.update(p.len() - 1, p.last() + t));
    }
}

/// The pieces that `join` puts together are what splitting and trimming give back.
proof fn lemma_split_join(p: Seq<Seq<char>>)
    requires
        p.len() > 0,
        forall|i: int| 0 <= i < p.len() ==> clean(#[trigger] p[i]),
    ensures
        trimmed(split_bars(join(p))) == p,
        join(p).len() > 0,
        join(p)[0] == p[0][0],
    decreases p.len(),
{
    if p.len() == 1 {
        let x = p[0];
        lemma_trim_clean(x);
        lemma_split_plain(Seq::empty(), x);
        assert(Seq::<char>::empty() + x =~= x);
        assert(split_bars(Seq::<char>::empty()) =~= seq![Seq::<char>::empty()]);
        assert(Seq::<char>::empty() + x =~= x);
        assert(trimmed(split_bars(join(p))) =~= p);
    } else {
        let q = p.drop_last();
        let x = p.last();
        assert(clean(x));
        assert forall|i: int| 0 <= i < q.len() implies clean(#[trigger] q[i]) by {
            assert(q[i] == p[i]);
        }
        lemma_split_join(q);
        let j = join(q);
        let a = j + seq![' '];
        let sx = seq![' '] + x;
        assert(join(p) =~= (a + seq!['|']) + sx);
        lemma_split_plain(j, seq![' ']);
        lemma_split_len(j);
        assert((a + seq!['|']).drop_last() =~= a);
        lemma_split_plain(a + seq!['|'], sx);
        lemma_split_len(a);
        let sj = split_bars(j);
        let sa = split_bars(a);
        assert(sa == sj.update(sj.len() - 1, sj.last() + seq![' ']));
        assert(split_bars(a + seq!['|']) == sa.push(Seq::empty()));
        assert(Seq::<char>::empty() + sx =~= sx);
        assert(split_bars(join(p)) =~= sa.push(sx));
        lemma_trim_space_after(sj.last());
        lemma_trim_clean(x);
        assert(trimmed(split_bars(join(p))) =~= p) by {
            assert forall|i: int| 0 <= i < p.len() implies trimmed(split_bars(join(p)))[i]
                == p[i] by {
                if i < p.len() - 1 {
                    assert(trimmed(sj)[i] == q[i]);
                }
            }
        }
        assert(join(p)[0] == j[0]);
    }
}

/// The mask found for the name of a declared flag is that flag's own.
proof fn lemma_find_declared(table: FlagTable, k: int, i: int)
    requires
        table.wf(),
        0 <= i <= k < table.flags@.len(),
        table.flags@[k].name@.len() > 0,
    ensures
        find_name_from(table.flags@, table.flags@[k].name@, i) == Some(table.flags@[k].bits),
    decreases k - i,
{
    if i < k {
        assert(table.flags@[i].name@ != table.flags@[k].name@);
        lemma_find_declared(table, k, i + 1);
    }
}

/// The names yielded for `src` by the first `n` flags are identifiers, and
/// together they name exactly the bits of `src` that are not left over.
proof fn lemma_named(table: FlagTable, src: u64, n: int)
    requires
        table.wf(),
        0 <= n <= table.flags@.len(),
    ensures
        ({
            let (names, rem) = named(table.flags@.take(n), src);
            &&& forall|i: int| 0 <= i < names.len() ==> is_ident(#[trigger] names[i])
            &&& rem & src == rem
            &&& tokens_value(table, names) == Ok::<u64, crate::error::DecodeError>(src & !rem)
        }),
    decreases n,
{
    let flags = table.flags@;
    if n == 0 {
        assert(flags.take(0) =~= Seq::empty());
        assert(src & src == src && src & !src == 0) by (bit_vector);
    } else {
        lemma_named(table, src, n - 1);
        assert(flags.take(n).drop_last() =~= flags.take(n - 1));
        let (names, rem) = named(flags.take(n - 1), src);
        let f = flags[n - 1];
        assert(flags.take(n).last() == f);
        if f.name@.len() > 0 && src & f.bits == f.bits && rem & f.bits != 0 {
            let nm = f.name@;
            assert(is_ident(nm));
            lemma_find_declared(table, n - 1, 0);
            assert(find_name(flags, nm) == Some(f.bits));
            assert(!(nm[0] == '0' && nm[1] == 'x')) by {
                if nm.len() >= 2 {
                    assert(!('0' <= nm[0] && nm[0] <= '9'));
                }
            }
            assert(token_value(table, nm) == Ok::<u64, crate::error::DecodeError>(f.bits));
            let names2 = names.push(nm);
            assert(names2.drop_last() =~= names);
            let b = f.bits;
            assert((rem & !b) & src == (rem & !b) && (src & !(rem & !b)) == ((src & !rem) | b))
                by (bit_vector)
                requires
                    rem & src == rem,
                    src & b == b,
            ;
            assert forall|i: int| 0 <= i < names2.len() implies is_ident(#[trigger] names2[i]) by {
                if i < names.len() {
                    assert(names2[i] == names[i]);
                }
            }
        }
    }
}

/// The hexadecimal piece of leftover bits reads back as those bits.
proof fn lemma_hex_piece(table: FlagTable, rem: u64)
    requires
        rem <= table.width.max_spec(),
    ensures
        clean(hex_prefix() + hex_text(rem as nat)),
        token_value(table, hex_prefix() + hex_text(rem as nat)) == Ok::<
            u64,
            crate::error::DecodeError,
        >(rem),
{
    let h = hex_text(rem as nat);
    let x = hex_prefix() + h;
    lemma_hex_round_trip(rem, table.width.max_spec());
    assert(x.skip(2) =~= h);
    assert(x.last() == h.last());
    assert(is_lower_hex_char(h[h.len() - 1]));
    assert forall|i: int| 0 <= i < x.len() implies #[trigger] x[i] != '|' by {
        if i >= 2 {
            assert(x[i] == h[i - 2]);
            assert(is_lower_hex_char(h[i - 2]));
        }
    }
}

/// Reading back the text of a value of a well-formed type gives the value.
pub proof fn lemma_text_round_trip(table: FlagTable, bits: u64)
    requires
        table.wf(),
        bits <= table.width.max_spec(),
    ensures
        parse_text(table, render_text(table, bits)) == Ok::<u64, crate::error::DecodeError>(bits),
{
    let flags = table.flags@;
    lemma_named(table, bits, flags.len() as int);
    assert(flags.take(flags.len() as int) =~= flags);
    let (names, rem) = named(flags, bits);
    let p = pieces(table, bits);
    assert(rem <= bits) by (bit_vector)
        requires
            rem & bits == rem,
    ;
    assert((bits & !rem) | rem == bits && bits & !0u64 == bits) by (bit_vector)
        requires
            rem & bits == rem,
    ;
    assert forall|i: int| 0 <= i < names.len() implies clean(#[trigger] names[i]) by {
        let nm = names[i];
        assert(is_ident(nm));
        assert forall|k: int| 0 <= k < nm.len() implies #[trigger] nm[k] != '|' && !is_ws(nm[k])
            by {
            assert(crate::flags::is_ident_char(nm[k]));
        }
        assert(!is_ws(nm[nm.len() - 1]));
    }
    if rem != 0 {
        lemma_hex_piece(table, rem);
        assert(p.drop_last() =~= names);
        assert forall|i: int| 0 <= i < p.len() implies clean(#[trigger] p[i]) by {
            if i < names.len() {
                assert(p[i] == names[i]);
            }
        }
    }
    if p.len() == 0 {
        assert(render_text(table, bits) =~= Seq::<char>::empty());
    } else {
        lemma_split_join(p);
        let t = render_text(table, bits);
        assert(!all_ws(t)) by {
            assert(!is_ws(t[0]));
        }
    }
}

proof fn lemma_named_empty(flags: Seq<crate::flags::Flag>)
    ensures
        named(flags, 0) == (Seq::<Seq<char>>::empty(), 0u64),
    decreases flags.len(),
{
    if flags.len() > 0 {
        lemma_named_empty(flags.drop_last());
        let b = flags.last().bits;
        assert(0u64 & b == 0) by (bit_vector);
    }
}

/// The empty value has the empty text.
pub proof fn lemma_empty_text(table: FlagTable)
    ensures
        render_text(table, 0) == Seq::<char>::empty(),
{
    lemma_named_empty(table.flags@);
}

/// A lone `0x` flag reads back as its bits, whatever flags the type declares.
pub proof fn lemma_hex_flag_kept(table: FlagTable, n: u64)
    requires
        n <= table.width.max_spec(),
    ensures
        parse_text(table, hex_prefix() + hex_text(n as nat)) == Ok::<
            u64,
            crate::error::DecodeError,
        >(n),
{
    let x = hex_prefix() + hex_text(n as nat);
    lemma_hex_piece(table, n);
    let p = seq![x];
    lemma_split_join(p);
    assert(join(p) == x);
    assert(!all_ws(x)) by {
        assert(!is_ws(x[0]));
    }
    assert(p.drop_last() =~= Seq::<Seq<char>>::empty());
    assert(0u64 | n == n) by (bit_vector);
    assert(tokens_value(table, Seq::<Seq<char>>::empty()) == Ok::<u64, crate::error::DecodeError>(0));
    assert(p.last() == x);
    assert(tokens_value(table, p) == Ok::<u64, crate::error::DecodeError>(n));
    assert(trimmed(split_bars(x)) == p);
}

/// A text with a flag that is empty, names no declared flag, or holds
/// malformed or too large hexadecimal does not read.
pub proof fn lemma_bad_flag_rejected(table: FlagTable, s: Seq<char>, i: int)
    requires
        !all_ws(s),
        0 <= i < trimmed(split_bars(s)).len(),
        token_value(table, trimmed(split_bars(s))[i]) is Err,
    ensures
        parse_text(table, s) is Err,
{
    let toks = trimmed(split_bars(s));
    let pre = toks.take(i + 1);
    assert(pre.drop_last() =~= toks.take(i));
    assert(pre.last() == toks[i]);
    assert(toks.take(pre.len() as int) == pre);
    crate::text::lemma_tokens_error_spreads(table, pre, toks);
}

} // verus!
