//! The RESP command parser: from one inbound frame (a byte string) to a
//! `Command`, or nothing for a frame the engine ignores.
//!
//! `spec_parse` states exactly which frames parse and to what; the executable
//! parser is proved to return precisely that.

use vstd::prelude::*;

use crate::bytes::clone_bytes;
use crate::bytes::deep;
use crate::bytes::lemma_deep_index;
use crate::bytes::lemma_deep_push;
use crate::command::Command;
use crate::command::CommandModel;

verus! {

broadcast use crate::bytes::lemma_deep_len;

/// An ASCII decimal digit.
pub open spec fn is_digit(b: u8) -> bool {
    48 <= b <= 57
}

/// Every byte of `s` is a decimal digit.
pub open spec fn all_digits(s: Seq<u8>) -> bool {
    forall|i: int| 0 <= i < s.len() ==> is_digit(#[trigger] s[i])
}

/// The numeric value of a digit string, most significant digit first.
pub open spec fn dec_val(s: Seq<u8>) -> int
    decreases s.len(),
{
    if s.len() == 0 {
        0
    } else {
        dec_val(s.drop_last()) * 10 + (s.last() - 48)
    }
}

/// What a parse of an unsigned digit string yields: at least one digit, all
/// digits, and a value that fits in a `u64`.
pub open spec fn spec_parse_digits(d: Seq<u8>) -> Option<u64> {
    if d.len() >= 1 && all_digits(d) && dec_val(d) <= u64::MAX {
        Some(dec_val(d) as u64)
    } else {
        None
    }
}

/// `s` with one leading `+` removed, as the integer parsers accept.
pub open spec fn strip_plus(s: Seq<u8>) -> Seq<u8> {
    if s.len() >= 1 && s[0] == 43 {
        s.skip(1)
    } else {
        s
    }
}

/// What `u64` parsing accepts: an optional `+`, then digits that fit.
pub open spec fn spec_parse_u64(s: Seq<u8>) -> Option<u64> {
    spec_parse_digits(strip_plus(s))
}

/// What `usize` parsing accepts.
pub open spec fn spec_parse_usize(s: Seq<u8>) -> Option<usize> {
    match spec_parse_u64(s) {
        Some(v) => if v <= usize::MAX as u64 {
            Some(v as usize)
        } else {
            None
        },
        None => None,
    }
}

/// What `i64` parsing accepts: an optional sign, then digits, within range.
pub open spec fn spec_parse_i64(s: Seq<u8>) -> Option<i64> {
    let neg = s.len() >= 1 && s[0] == 45;
    let d = if s.len() >= 1 && (s[0] == 45 || s[0] == 43) {
        s.skip(1)
    } else {
        s
    };
    if d.len() >= 1 && all_digits(d) {
        let v = dec_val(d);
        if neg {
            if v <= 0x8000_0000_0000_0000 {
                Some((-v) as i64)
            } else {
                None
            }
        } else {
            if v <= 0x7fff_ffff_ffff_ffff {
                Some(v as i64)
            } else {
                None
            }
        }
    } else {
        None
    }
}

proof fn lemma_dec_val_nonneg(s: Seq<u8>)
    requires
        all_digits(s),
    ensures
        dec_val(s) >= 0,
    decreases s.len(),
{
    if s.len() > 0 {
        assert(all_digits(s.drop_last())) by {
            assert(forall|i: int| 0 <= i < s.len() - 1 ==> s.drop_last()[i] == s[i]);
        }
        lemma_dec_val_nonneg(s.drop_last());
    }
}

proof fn lemma_dec_val_take_step(s: Seq<u8>, j: int)
    requires
        0 <= j < s.len(),
    ensures
        dec_val(s.take(j + 1)) == dec_val(s.take(j)) * 10 + (s[j] - 48),
{
    assert(s.take(j + 1).drop_last() =~= s.take(j));
    assert(s.take(j + 1).last() == s[j]);
}

proof fn lemma_dec_val_prefix_le(s: Seq<u8>, j: int)
    requires
        all_digits(s),
        0 <= j <= s.len(),
    ensures
        dec_val(s.take(j)) <= dec_val(s),
    decreases s.len() - j,
{
    if j < s.len() {
        lemma_dec_val_take_step(s, j);
        assert(all_digits(s.take(j))) by {
            assert(forall|i: int| 0 <= i < j ==> s.take(j)[i] == s[i]);
        }
        lemma_dec_val_nonneg(s.take(j));
        assert(dec_val(s.take(j)) <= dec_val(s.take(j + 1)));
        lemma_dec_val_prefix_le(s, j + 1);
    } else {
        assert(s.take(j) =~= s);
    }
}

/// Parse the digit substring `s[from..to]` as an unsigned value.
fn parse_digits_range(s: &Vec<u8>, from: usize, to: usize) -> (r: Option<u64>)
    requires
        from <= to <= s@.len(),
    ensures
        r == spec_parse_digits(s@.subrange(from as int, to as int)),
{
    let ghost d = s@.subrange(from as int, to as int);
    if from == to {
        return None;
    }
    let mut acc: u64 = 0;
    let mut i: usize = from;
    while i < to
        invariant
            from <= i <= to <= s@.len(),
            d == s@.subrange(from as int, to as int),
            d.len() == to - from,
            all_digits(d.take(i - from)),
            acc == dec_val(d.take(i - from)),
        decreases to - i,
    {
        let b = s[i];
        proof {
            assert(d[i - from] == s@[i as int]);
        }
        if b < 48 || b > 57 {
            proof {
                assert(!is_digit(d[i - from]));
                assert(!all_digits(d));
            }
            return None;
        }
        let wide: u128 = (acc as u128) * 10 + ((b - 48) as u128);
        proof {
            lemma_dec_val_take_step(d, i - from);
        }
        if wide > u64::MAX as u128 {
            proof {
                assert(all_digits(d.take(i - from + 1)));
                assert(dec_val(d.take(i - from + 1)) == wide);
                if all_digits(d) {
                    lemma_dec_val_prefix_le(d, i - from + 1);
                    assert(dec_val(d) > u64::MAX);
                }
            }
            return None;
        }
        acc = wide as u64;
        i = i + 1;
        proof {
            assert(all_digits(d.take(i - from)));
        }
    }
    proof {
        assert(d.take(to - from) =~= d);
    }
    Some(acc)
}

/// Parse an unsigned 64-bit integer: optional `+`, then digits.
pub fn parse_u64(s: &Vec<u8>) -> (r: Option<u64>)
    ensures
        r == spec_parse_u64(s@),
{
    let start: usize = if s.len() >= 1 && s[0] == 43 {
        1
    } else {
        0
    };
    let r = parse_digits_range(s, start, s.len());
    proof {
        assert(s@.subrange(start as int, s@.len() as int) =~= strip_plus(s@));
    }
    r
}

/// Parse a `usize`: optional `+`, then digits that fit the platform.
pub fn parse_usize(s: &Vec<u8>) -> (r: Option<usize>)
    ensures
        r == spec_parse_usize(s@),
{
    match parse_u64(s) {
        Some(v) => {
            if v <= usize::MAX as u64 {
                Some(v as usize)
            } else {
                None
            }
        },
        None => None,
    }
}

/// Parse a signed 64-bit integer: optional sign, then digits.
pub fn parse_i64(s: &Vec<u8>) -> (r: Option<i64>)
    ensures
        r == spec_parse_i64(s@),
{
    let neg = s.len() >= 1 && s[0] == 45;
    let start: usize = if s.len() >= 1 && (s[0] == 45 || s[0] == 43) {
        1
    } else {
        0
    };
    let ghost d = s@.subrange(start as int, s@.len() as int);
    proof {
        assert(d =~= (if s@.len() >= 1 && (s@[0] == 45 || s@[0] == 43) {
            s@.skip(1)
        } else {
            s@
        }));
        if all_digits(d) {
            lemma_dec_val_nonneg(d);
        }
    }
    match parse_digits_range(s, start, s.len()) {
        Some(v) => {
            if neg {
                if v <= 0x7fff_ffff_ffff_ffff {
                    Some(-(v as i64))
                } else if v == 0x8000_0000_0000_0000 {
                    Some(i64::MIN)
                } else {
                    None
                }
            } else {
                if v <= 0x7fff_ffff_ffff_ffff {
                    Some(v as i64)
                } else {
                    None
                }
            }
        },
        None => None,
    }
}

/// The ASCII upper-case form of one byte.
pub open spec fn upper_byte(b: u8) -> u8 {
    if 97 <= b <= 122 {
        (b - 32) as u8
    } else {
        b
    }
}

/// The ASCII upper-case form of a byte string.
pub open spec fn spec_upper(s: Seq<u8>) -> Seq<u8> {
    Seq::new(s.len(), |i: int| upper_byte(s[i]))
}

/// Upper-case a byte string, ASCII letters only.
pub fn to_upper(s: &Vec<u8>) -> (r: Vec<u8>)
    ensures
        r@ == spec_upper(s@),
{
    let mut r: Vec<u8> = Vec::new();
    let mut i: usize = 0;
    while i < s.len()
        invariant
            i <= s@.len(),
            r@ == spec_upper(s@).take(i as int),
        decreases s@.len() - i,
    {
        let b = s[i];
        if b >= 97 && b <= 122 {
            r.push(b - 32);
        } else {
            r.push(b);
        }
        i = i + 1;
        proof {
            assert(r@ =~= spec_upper(s@).take(i as int));
        }
    }
    proof {
        assert(r@ =~= spec_upper(s@));
    }
    r
}

/// Compare a byte string against a fixed pattern.
fn eq_bytes<const N: usize>(v: &Vec<u8>, pat: &[u8; N]) -> (r: bool)
    ensures
        r == (v@ == pat@),
{
    if v.len() != N {
        proof {
            assert(pat@.len() == N);
        }
        return false;
    }
    let mut i: usize = 0;
    while i < N
        invariant
            i <= N,
            v@.len() == N,
            pat@.len() == N,
            forall|j: int| 0 <= j < i ==> v@[j] == pat@[j],
        decreases N - i,
    {
        if v[i] != pat[i] {
            return false;
        }
        i = i + 1;
    }
    proof {
        assert(v@ =~= pat@);
    }
    true
}

/// The split of `s` on the two-byte separator `\r\n`, left to right and
/// non-overlapping, with the text before each separator as one token; the
/// trailing remainder is always a token, so the result is never empty.
pub open spec fn spec_split(s: Seq<u8>) -> Seq<Seq<u8>>
    decreases s.len(),
{
    if s.len() < 2 {
        seq![s]
    } else if s[0] == 13 && s[1] == 10 {
        seq![Seq::<u8>::empty()] + spec_split(s.skip(2))
    } else {
        let rest = spec_split(s.skip(1));
        seq![seq![s[0]] + rest[0]] + rest.skip(1)
    }
}

/// The split has at least one token.
pub proof fn lemma_split_nonempty(s: Seq<u8>)
    ensures
        spec_split(s).len() >= 1,
{
    if s.len() < 2 {
    } else if s[0] == 13 && s[1] == 10 {
    } else {
    }
}

/// A pending token prefix `p` glued onto the first token of `ts`.
spec fn glue(p: Seq<u8>, ts: Seq<Seq<u8>>) -> Seq<Seq<u8>>
    recommends
        ts.len() >= 1,
{
    seq![p + ts[0]] + ts.skip(1)
}

/// Split a frame on `\r\n` separators.
pub fn split_crlf(input: &Vec<u8>) -> (lines: Vec<Vec<u8>>)
    ensures
        deep(lines@) == spec_split(input@),
        lines@.len() >= 1,
{
    let mut out: Vec<Vec<u8>> = Vec::new();
    let mut cur: Vec<u8> = Vec::new();
    let mut i: usize = 0;
    proof {
        lemma_split_nonempty(input@);
        assert(input@.skip(0) =~= input@);
        assert(deep(out@) + glue(cur@, spec_split(input@)) =~= glue(
            Seq::<u8>::empty(),
            spec_split(input@),
        ));
        assert(glue(Seq::<u8>::empty(), spec_split(input@))[0] =~= spec_split(input@)[0]);
        assert(glue(Seq::<u8>::empty(), spec_split(input@)) =~= spec_split(input@));
    }
    while i < input.len()
        invariant
            i <= input@.len(),
            spec_split(input@) == deep(out@) + glue(cur@, spec_split(input@.skip(i as int))),
        decreases input@.len() - i,
    {
        let ghost tail = input@.skip(i as int);
        proof {
            lemma_split_nonempty(tail);
        }
        if input[i] == 13 && i + 1 < input.len() && input[i + 1] == 10 {
            let ghost outpre = out@;
            let ghost curg = cur@;
            out.push(cur);
            cur = Vec::new();
            i = i + 2;
            proof {
                let tail2 = input@.skip(i as int);
                lemma_split_nonempty(tail2);
                assert(tail.skip(2) =~= tail2);
                assert(tail[0] == 13 && tail[1] == 10);
                assert(spec_split(tail) == seq![Seq::<u8>::empty()] + spec_split(tail2));
                lemma_deep_push(outpre, out@.last());
                assert(out@ == outpre.push(out@.last()));
                assert(out@.last()@ == curg);
                assert(glue(curg, spec_split(tail)) =~= seq![curg] + spec_split(tail2));
                assert(glue(Seq::<u8>::empty(), spec_split(tail2))[0] =~= spec_split(tail2)[0]);
                assert(glue(Seq::<u8>::empty(), spec_split(tail2)) =~= spec_split(tail2));
                assert(deep(out@) =~= deep(outpre).push(curg));
                assert(deep(out@) + glue(cur@, spec_split(tail2)) =~= deep(outpre) + glue(
                    curg,
                    spec_split(tail),
                ));
            }
        } else {
            let ghost curpre = cur@;
            cur.push(input[i]);
            i = i + 1;
            proof {
                let tail1 = input@.skip(i as int);
                lemma_split_nonempty(tail1);
                assert(tail.skip(1) =~= tail1);
                assert(cur@ =~= curpre.push(tail[0]));
                if tail.len() < 2 {
                    assert(tail1.len() < 2);
                    assert(spec_split(tail) == seq![tail]);
                    assert(spec_split(tail1) == seq![tail1]);
                    assert(curpre + tail =~= cur@ + tail1);
                    assert(glue(curpre, spec_split(tail)) =~= glue(cur@, spec_split(tail1)));
                } else {
                    assert(!(tail[0] == 13 && tail[1] == 10));
                    let rest = spec_split(tail1);
                    assert(spec_split(tail) == seq![seq![tail[0]] + rest[0]] + rest.skip(1));
                    assert(curpre + (seq![tail[0]] + rest[0]) =~= cur@ + rest[0]);
                    assert(glue(curpre, spec_split(tail)) =~= glue(cur@, rest));
                }
            }
        }
    }
    let ghost outpre = out@;
    let ghost curg = cur@;
    out.push(cur);
    proof {
        let tail = input@.skip(i as int);
        assert(tail =~= Seq::<u8>::empty());
        assert(spec_split(tail) == seq![tail]);
        assert(glue(curg, spec_split(tail)) =~= seq![curg]);
        lemma_deep_push(outpre, out@.last());
        assert(out@ == outpre.push(out@.last()));
        assert(out@.last()@ == curg);
        assert(deep(out@) =~= spec_split(input@));
    }
    out
}

/// The non-empty tokens of `lines`, in order.
pub open spec fn filter_nonempty(lines: Seq<Seq<u8>>) -> Seq<Seq<u8>>
    decreases lines.len(),
{
    if lines.len() == 0 {
        Seq::empty()
    } else if lines[0].len() > 0 {
        seq![lines[0]] + filter_nonempty(lines.skip(1))
    } else {
        filter_nonempty(lines.skip(1))
    }
}

proof fn lemma_filter_nonempty_snoc(lines: Seq<Seq<u8>>, x: Seq<u8>)
    ensures
        filter_nonempty(lines.push(x)) == filter_nonempty(lines) + (if x.len() > 0 {
            seq![x]
        } else {
            Seq::<Seq<u8>>::empty()
        }),
    decreases lines.len(),
{
    let tail = if x.len() > 0 {
        seq![x]
    } else {
        Seq::<Seq<u8>>::empty()
    };
    if lines.len() == 0 {
        assert(lines.push(x)[0] == x);
        assert(lines.push(x).skip(1) =~= Seq::<Seq<u8>>::empty());
        assert(filter_nonempty(Seq::<Seq<u8>>::empty()) == Seq::<Seq<u8>>::empty());
        assert(filter_nonempty(lines.push(x)) =~= filter_nonempty(lines) + tail);
    } else {
        assert(lines.push(x).skip(1) =~= lines.skip(1).push(x));
        lemma_filter_nonempty_snoc(lines.skip(1), x);
        assert(lines.push(x)[0] == lines[0]);
        if lines[0].len() > 0 {
            assert(seq![lines[0]] + (filter_nonempty(lines.skip(1)) + tail) =~= (seq![lines[0]]
                + filter_nonempty(lines.skip(1))) + tail);
        }
        assert(filter_nonempty(lines.push(x)) =~= filter_nonempty(lines) + tail);
    }
}

/// Keep only the non-empty tokens.
fn drop_empty_lines(lines: &Vec<Vec<u8>>) -> (kept: Vec<Vec<u8>>)
    ensures
        deep(kept@) == filter_nonempty(deep(lines@)),
{
    let mut kept: Vec<Vec<u8>> = Vec::new();
    let mut i: usize = 0;
    proof {
        assert(deep(lines@).take(0) =~= Seq::<Seq<u8>>::empty());
        assert(filter_nonempty(Seq::<Seq<u8>>::empty()) == Seq::<Seq<u8>>::empty());
        assert(deep(kept@) =~= filter_nonempty(deep(lines@).take(0)));
    }
    while i < lines.len()
        invariant
            i <= lines@.len(),
            deep(kept@) == filter_nonempty(deep(lines@).take(i as int)),
        decreases lines@.len() - i,
    {
        let ghost pre = kept@;
        if lines[i].len() > 0 {
            kept.push(clone_bytes(&lines[i]));
        }
        i = i + 1;
        proof {
            lemma_deep_index(lines@, i - 1);
            assert(deep(lines@).take(i as int) =~= deep(lines@).take(i - 1).push(
                deep(lines@)[i - 1],
            ));
            lemma_filter_nonempty_snoc(deep(lines@).take(i - 1), deep(lines@)[i - 1]);
            if deep(lines@)[i - 1].len() > 0 {
                let c = kept@.last();
                assert(kept@ == pre.push(c));
                lemma_deep_push(pre, c);
                assert(deep(kept@) =~= filter_nonempty(deep(lines@).take(i as int)));
            } else {
                assert(deep(kept@) =~= filter_nonempty(deep(lines@).take(i as int)));
            }
        }
    }
    proof {
        assert(deep(lines@).take(lines@.len() as int) =~= deep(lines@));
    }
    kept
}

/// Every second token of `lines` from `start` (inclusive) up to `end`
/// (exclusive): the argument positions of a variadic command.
pub open spec fn stride2(lines: Seq<Seq<u8>>, start: int, end: int) -> Seq<Seq<u8>>
    recommends
        0 <= start,
        end <= lines.len(),
{
    if start < end {
        Seq::new((((end - start - 1) / 2) + 1) as nat, |j: int| lines[start + 2 * j])
    } else {
        Seq::empty()
    }
}

/// Collect every second token from `start` up to `end`.
fn collect_stride2(lines: &Vec<Vec<u8>>, start: usize, end: usize) -> (vals: Vec<Vec<u8>>)
    requires
        end <= lines@.len(),
    ensures
        deep(vals@) == stride2(deep(lines@), start as int, end as int),
{
    let ghost dl = deep(lines@);
    let mut vals: Vec<Vec<u8>> = Vec::new();
    if start >= end {
        proof {
            assert(deep(vals@) =~= stride2(dl, start as int, end as int));
        }
        return vals;
    }
    let ghost total = ((end - start - 1) as int) / 2 + 1;
    let mut i: usize = start;
    while i < end
        invariant
            start <= i,
            end <= lines@.len(),
            start < end,
            i < end,
            dl == deep(lines@),
            total == ((end - start - 1) as int) / 2 + 1,
            i - start == 2 * vals@.len(),
            vals@.len() <= total,
            deep(vals@) == stride2(dl, start as int, end as int).take(vals@.len() as int),
        decreases end - i,
    {
        let ghost pre = vals@;
        vals.push(clone_bytes(&lines[i]));
        proof {
            let j = pre.len() as int;
            let c = vals@.last();
            assert(vals@ == pre.push(c));
            lemma_deep_push(pre, c);
            lemma_deep_index(lines@, i as int);
            assert(c@ == dl[start + 2 * j]);
            assert(stride2(dl, start as int, end as int)[j] == dl[start + 2 * j]);
            assert(2 * j < end - start);
            assert(j < total) by {
                assert(2 * j <= end - start - 1);
                assert(j <= (end - start - 1) as int / 2);
            }
            assert(stride2(dl, start as int, end as int).take(j + 1) =~= stride2(
                dl,
                start as int,
                end as int,
            ).take(j).push(stride2(dl, start as int, end as int)[j]));
            assert(deep(vals@) =~= stride2(dl, start as int, end as int).take(j + 1));
        }
        if end - i <= 2 {
            proof {
                let j = vals@.len() as int;
                assert(2 * (j - 1) == i - start);
                assert(end - start - 1 < 2 * j);
                assert(j - 1 <= (end - start - 1) as int / 2);
                assert((end - start - 1) as int / 2 < j);
                assert(j == total);
                assert(stride2(dl, start as int, end as int).take(j) =~= stride2(
                    dl,
                    start as int,
                    end as int,
                ));
            }
            return vals;
        }
        i = i + 2;
    }
    proof {
        assert(false);
    }
    vals
}

/// The text `PX`, the `SET` option that carries an expiry.
pub open spec fn px_word() -> Seq<u8> {
    seq!['P' as u8, 'X' as u8]
}

/// The position of the first token whose upper-cased form is `PX`, or
/// `lines.len()` when there is none.
pub open spec fn find_px_from(lines: Seq<Seq<u8>>, i: int) -> int
    decreases lines.len() - i,
{
    if i < 0 || i >= lines.len() {
        lines.len() as int
    } else if spec_upper(lines[i]) == px_word() {
        i
    } else {
        find_px_from(lines, i + 1)
    }
}

/// Find the first token whose upper-cased form is `PX`.
fn find_px(lines: &Vec<Vec<u8>>) -> (r: Option<usize>)
    ensures
        match r {
            Some(p) => find_px_from(deep(lines@), 0) == p as int && p < lines@.len(),
            None => find_px_from(deep(lines@), 0) == deep(lines@).len(),
        },
{
    let ghost dl = deep(lines@);
    let mut i: usize = 0;
    while i < lines.len()
        invariant
            i <= lines@.len(),
            dl == deep(lines@),
            find_px_from(dl, 0) == find_px_from(dl, i as int),
        decreases lines@.len() - i,
    {
        let up = to_upper(&lines[i]);
        let hit = eq_bytes(&up, &['P' as u8, 'X' as u8]);
        proof {
            lemma_deep_index(lines@, i as int);
            assert(px_word() =~= seq!['P' as u8, 'X' as u8]);
        }
        if hit {
            proof {
                assert(spec_upper(dl[i as int]) == px_word());
            }
            return Some(i);
        }
        proof {
            assert(spec_upper(dl[i as int]) != px_word());
        }
        i = i + 1;
    }
    None
}

/// The first three fractional digits, right-padded with zeros: the
/// milliseconds contributed by the fractional part of a seconds value.
pub open spec fn frac3(fp: Seq<u8>) -> Seq<u8> {
    (fp + seq![48u8, 48u8, 48u8]).take(3)
}

/// Some byte of `s` is a digit other than `0`.
pub open spec fn has_nonzero_digit(s: Seq<u8>) -> bool {
    exists|i: int| 0 <= i < s.len() && s[i] != 48
}

/// The position of the first `.` in `s` at or after `i`, or `s.len()`.
pub open spec fn first_dot_from(s: Seq<u8>, i: int) -> int
    decreases s.len() - i,
{
    if i < 0 || i >= s.len() {
        s.len() as int
    } else if s[i] == 46 {
        i
    } else {
        first_dot_from(s, i + 1)
    }
}

/// What the `BLPOP` timeout accepts, converted to whole milliseconds:
/// an optional `+`, decimal digits, optionally a `.` and more digits; the
/// value is seconds times a thousand plus the first three fractional digits
/// (zero-padded), truncating finer precision; it must fit in a `u64`.
/// There must be at least one digit. A positive timeout below one
/// millisecond rounds up to one, so that it is never mistaken for the
/// wait-forever zero.
pub open spec fn spec_parse_timeout_ms(s: Seq<u8>) -> Option<u64> {
    let b = strip_plus(s);
    let dot = first_dot_from(b, 0);
    if dot == b.len() {
        if b.len() >= 1 && all_digits(b) && dec_val(b) * 1000 <= u64::MAX {
            Some((dec_val(b) * 1000) as u64)
        } else {
            None
        }
    } else {
        let ip = b.take(dot);
        let fp = b.skip(dot + 1);
        if ip.len() + fp.len() >= 1 && all_digits(ip) && all_digits(fp) && dec_val(ip) * 1000
            + dec_val(frac3(fp)) <= u64::MAX {
            let raw = dec_val(ip) * 1000 + dec_val(frac3(fp));
            if raw == 0 && has_nonzero_digit(fp) {
                Some(1u64)
            } else {
                Some(raw as u64)
            }
        } else {
            None
        }
    }
}

proof fn lemma_dec_val_3(g: Seq<u8>)
    requires
        g.len() == 3,
    ensures
        dec_val(g) == ((g[0] - 48) * 10 + (g[1] - 48)) * 10 + (g[2] - 48),
{
    let d2 = g.drop_last();
    let d1 = d2.drop_last();
    assert(d1 =~= seq![g[0]]);
    assert(d1.drop_last() =~= Seq::<u8>::empty());
    assert(dec_val(Seq::<u8>::empty()) == 0);
    assert(d1.last() == g[0]);
    assert(dec_val(d1) == g[0] - 48);
    assert(d2.last() == g[1]);
    assert(dec_val(d2) == dec_val(d1) * 10 + (g[1] - 48));
    assert(dec_val(g) == dec_val(d2) * 10 + (g[2] - 48));
}

/// Parse a `BLPOP` timeout in seconds into whole milliseconds.
#[verifier::rlimit(50)]
pub fn parse_timeout_ms(s: &Vec<u8>) -> (r: Option<u64>)
    ensures
        r == spec_parse_timeout_ms(s@),
{
    let start: usize = if s.len() >= 1 && s[0] == 43 {
        1
    } else {
        0
    };
    let ghost b = s@.skip(start as int);
    proof {
        assert(b =~= strip_plus(s@));
    }
    let mut dotp: usize = start;
    while dotp < s.len() && s[dotp] != 46
        invariant
            start <= dotp <= s@.len(),
            b == s@.skip(start as int),
            first_dot_from(b, 0) == first_dot_from(b, dotp - start),
        decreases s@.len() - dotp,
    {
        proof {
            assert(b[dotp - start] == s@[dotp as int]);
        }
        dotp = dotp + 1;
    }
    let ghost dot = first_dot_from(b, 0);
    proof {
        if dotp < s@.len() {
            assert(b[dotp - start] == s@[dotp as int]);
            assert(dot == dotp - start);
        } else {
            assert(dot == b.len());
        }
    }
    if dotp == s.len() {
        // no fractional part
        match parse_digits_range(s, start, s.len()) {
            Some(v) => {
                proof {
                    assert(s@.subrange(start as int, s@.len() as int) =~= b);
                    lemma_dec_val_nonneg(b);
                    assert(v == dec_val(b));
                }
                let wide: u128 = (v as u128) * 1000;
                if wide <= u64::MAX as u128 {
                    Some(wide as u64)
                } else {
                    None
                }
            },
            None => {
                proof {
                    assert(s@.subrange(start as int, s@.len() as int) =~= b);
                    if b.len() >= 1 && all_digits(b) {
                        assert(dec_val(b) > u64::MAX);
                        assert(dec_val(b) * 1000 >= dec_val(b)) by (nonlinear_arith)
                            requires
                                dec_val(b) >= 0,
                        ;
                        lemma_dec_val_nonneg(b);
                    }
                }
                None
            },
        }
    } else {
        let ghost ip = b.take(dot);
        let ghost fp = b.skip(dot + 1);
        proof {
            assert(ip =~= s@.subrange(start as int, dotp as int));
            assert(fp =~= s@.subrange(dotp + 1, s@.len() as int));
        }
        if dotp == start && dotp + 1 == s.len() {
            // a lone dot: no digits at all
            proof {
                assert(ip.len() == 0);
                assert(fp.len() == 0);
                assert(spec_parse_timeout_ms(s@) is None);
            }
            return None;
        }
        // integer part
        let ipv: u64 = if dotp > start {
            match parse_digits_range(s, start, dotp) {
                Some(v) => v,
                None => {
                    proof {
                        if ip.len() >= 1 && all_digits(ip) {
                            assert(dec_val(ip) > u64::MAX);
                            lemma_dec_val_nonneg(ip);
                            assert(dec_val(ip) * 1000 >= dec_val(ip)) by (nonlinear_arith)
                                requires
                                    dec_val(ip) >= 0,
                            ;
                            if all_digits(fp) {
                                assert(all_digits(frac3(fp))) by {
                                    assert(forall|j: int|
                                        0 <= j < 3 ==> is_digit(#[trigger] frac3(fp)[j]));
                                }
                                lemma_dec_val_nonneg(frac3(fp));
                                assert(dec_val(ip) * 1000 + dec_val(frac3(fp)) > u64::MAX);
                            }
                        }
                        assert(spec_parse_timeout_ms(s@) is None);
                    }
                    return None;
                },
            }
        } else {
            proof {
                assert(ip.len() == 0);
                assert(dec_val(ip) == 0);
            }
            0
        };
        // fractional part: all bytes must be digits; remember whether any
        // digit is non-zero, so a positive value cannot round down to zero
        let mut saw_nonzero = false;
        let mut i: usize = dotp + 1;
        while i < s.len()
            invariant
                start <= dotp < s@.len(),
                dotp + 1 <= i <= s@.len(),
                b == strip_plus(s@),
                first_dot_from(b, 0) == dotp - start,
                ip == b.take(dotp - start),
                fp == b.skip(dotp - start + 1),
                fp == s@.subrange(dotp + 1, s@.len() as int),
                forall|j: int| 0 <= j < i - dotp - 1 ==> is_digit(#[trigger] fp[j]),
                saw_nonzero ==> has_nonzero_digit(fp),
                !saw_nonzero ==> forall|j: int| 0 <= j < i - dotp - 1 ==> fp[j] == 48,
            decreases s@.len() - i,
        {
            let c = s[i];
            proof {
                assert(fp[i - dotp - 1] == s@[i as int]);
            }
            if c < 48 || c > 57 {
                proof {
                    assert(!is_digit(fp[i - dotp - 1]));
                    assert(!all_digits(fp));
                    assert(spec_parse_timeout_ms(s@) is None);
                }
                return None;
            }
            if c != 48 {
                proof {
                    assert(fp[i - dotp - 1] != 48);
                }
                saw_nonzero = true;
            }
            i = i + 1;
        }
        proof {
            assert(all_digits(fp));
            assert(saw_nonzero == has_nonzero_digit(fp)) by {
                if !saw_nonzero {
                    assert(forall|j: int| 0 <= j < fp.len() ==> fp[j] == 48);
                }
            }
        }
        // milliseconds from the first three fractional digits, zero-padded
        let fplen: usize = s.len() - (dotp + 1);
        let f0: u64 = if fplen > 0 {
            proof {
                assert(fp[0] == s@[dotp + 1]);
                assert(is_digit(fp[0]));
            }
            (s[dotp + 1] - 48) as u64
        } else {
            0
        };
        let f1: u64 = if fplen > 1 {
            proof {
                assert(fp[1] == s@[dotp + 2]);
                assert(is_digit(fp[1]));
            }
            (s[dotp + 2] - 48) as u64
        } else {
            0
        };
        let f2: u64 = if fplen > 2 {
            proof {
                assert(fp[2] == s@[dotp + 3]);
                assert(is_digit(fp[2]));
            }
            (s[dotp + 3] - 48) as u64
        } else {
            0
        };
        let fv: u64 = (f0 * 10 + f1) * 10 + f2;
        proof {
            let g = frac3(fp);
            assert(g.len() == 3);
            lemma_dec_val_3(g);
            assert(g[0] == (if fp.len() > 0 {
                fp[0]
            } else {
                48u8
            }));
            assert(g[1] == (if fp.len() > 1 {
                fp[1]
            } else {
                48u8
            }));
            assert(g[2] == (if fp.len() > 2 {
                fp[2]
            } else {
                48u8
            }));
            assert(fv == dec_val(g));
            assert(all_digits(ip)) by {
                if dotp > start {
                    assert(forall|j: int| 0 <= j < ip.len() ==> is_digit(#[trigger] ip[j]));
                }
            }
            lemma_dec_val_nonneg(ip);
        }
        let wide: u128 = (ipv as u128) * 1000 + (fv as u128);
        proof {
            assert(ip.len() + fp.len() >= 1);
            assert(ipv == dec_val(ip));
            assert(fv == dec_val(frac3(fp)));
            assert(wide == dec_val(ip) * 1000 + dec_val(frac3(fp)));
        }
        if wide <= u64::MAX as u128 {
            if wide == 0 && saw_nonzero {
                // a positive timeout below one millisecond: round up, so it
                // is never mistaken for the wait-forever zero
                proof {
                    assert(Some(1u64) == spec_parse_timeout_ms(s@));
                }
                Some(1)
            } else {
                proof {
                    assert(Some(wide as u64) == spec_parse_timeout_ms(s@));
                }
                Some(wide as u64)
            }
        } else {
            proof {
                assert(spec_parse_timeout_ms(s@) is None);
            }
            None
        }
    }
}

/// The command word `PING`.
pub open spec fn ping_word() -> Seq<u8> {
    seq!['P' as u8, 'I' as u8, 'N' as u8, 'G' as u8]
}

/// The command word `ECHO`.
pub open spec fn echo_word() -> Seq<u8> {
    seq!['E' as u8, 'C' as u8, 'H' as u8, 'O' as u8]
}

/// The command word `SET`.
pub open spec fn set_word() -> Seq<u8> {
    seq!['S' as u8, 'E' as u8, 'T' as u8]
}

/// The command word `GET`.
pub open spec fn get_word() -> Seq<u8> {
    seq!['G' as u8, 'E' as u8, 'T' as u8]
}

/// The command word `RPUSH`.
pub open spec fn rpush_word() -> Seq<u8> {
    seq!['R' as u8, 'P' as u8, 'U' as u8, 'S' as u8, 'H' as u8]
}

/// The command word `LPUSH`.
pub open spec fn lpush_word() -> Seq<u8> {
    seq!['L' as u8, 'P' as u8, 'U' as u8, 'S' as u8, 'H' as u8]
}

/// The command word `LRANGE`.
pub open spec fn lrange_word() -> Seq<u8> {
    seq!['L' as u8, 'R' as u8, 'A' as u8, 'N' as u8, 'G' as u8, 'E' as u8]
}

/// The command word `LLEN`.
pub open spec fn llen_word() -> Seq<u8> {
    seq!['L' as u8, 'L' as u8, 'E' as u8, 'N' as u8]
}

/// The command word `LPOP`.
pub open spec fn lpop_word() -> Seq<u8> {
    seq!['L' as u8, 'P' as u8, 'O' as u8, 'P' as u8]
}

/// The command word `BLPOP`.
pub open spec fn blpop_word() -> Seq<u8> {
    seq!['B' as u8, 'L' as u8, 'P' as u8, 'O' as u8, 'P' as u8]
}

/// What a frame's token list parses to.
///
/// A frame must be a RESP array (`*` first); the command word is the third
/// token, compared case-insensitively; each argument sits two tokens after
/// the previous one, behind its `$len` header. A frame that does not fit any
/// shape below parses to nothing and is ignored.
pub open spec fn spec_parse_lines(lines: Seq<Seq<u8>>) -> Option<CommandModel> {
    if lines.len() == 0 {
        None
    } else if !(lines[0].len() >= 1 && lines[0][0] == 42) {
        None
    } else if lines.len() <= 2 {
        None
    } else {
        let name = spec_upper(lines[2]);
        if name == ping_word() {
            Some(CommandModel::Ping)
        } else if name == echo_word() {
            if lines.len() > 4 {
                Some(CommandModel::Echo { payload: lines[4] })
            } else {
                None
            }
        } else if name == set_word() {
            if lines.len() > 6 {
                let p = find_px_from(lines, 0);
                let px = if p + 2 < lines.len() {
                    spec_parse_u64(lines[p + 2])
                } else {
                    None
                };
                Some(CommandModel::SetValue { key: lines[4], value: lines[6], px })
            } else {
                None
            }
        } else if name == get_word() {
            if lines.len() > 4 {
                Some(CommandModel::Get { key: lines[4] })
            } else {
                None
            }
        } else if name == rpush_word() {
            if lines.len() > 4 {
                Some(CommandModel::Rpush {
                    key: lines[4],
                    values: stride2(lines, 6, lines.len() as int),
                })
            } else {
                None
            }
        } else if name == lpush_word() {
            if lines.len() > 4 {
                Some(CommandModel::Lpush {
                    key: lines[4],
                    values: stride2(lines, 6, lines.len() as int),
                })
            } else {
                None
            }
        } else if name == lrange_word() {
            if lines.len() > 8 {
                match (spec_parse_i64(lines[6]), spec_parse_i64(lines[8])) {
                    (Some(a), Some(b)) => Some(CommandModel::Lrange {
                        key: lines[4],
                        start: a,
                        stop: b,
                    }),
                    _ => None,
                }
            } else {
                None
            }
        } else if name == llen_word() {
            if lines.len() > 4 {
                Some(CommandModel::Llen { key: lines[4] })
            } else {
                None
            }
        } else if name == lpop_word() {
            if lines.len() > 4 {
                if lines.len() > 6 {
                    // a count argument is present: one that does not read as
                    // an unsigned integer (a negative count in particular)
                    // makes the frame malformed, and it is dropped
                    match spec_parse_usize(lines[6]) {
                        Some(c) => Some(CommandModel::Lpop { key: lines[4], count: Some(c) }),
                        None => None,
                    }
                } else {
                    Some(CommandModel::Lpop { key: lines[4], count: None })
                }
            } else {
                None
            }
        } else if name == blpop_word() {
            let fl = filter_nonempty(lines);
            if fl.len() == 0 {
                None
            } else {
                match spec_parse_timeout_ms(fl.last()) {
                    Some(t) => Some(CommandModel::Blpop {
                        keys: stride2(fl, 4, fl.len() - 1),
                        timeout_ms: t,
                    }),
                    None => None,
                }
            }
        } else {
            None
        }
    }
}

/// What one inbound frame parses to.
pub open spec fn spec_parse(input: Seq<u8>) -> Option<CommandModel> {
    spec_parse_lines(spec_split(input))
}

/// Parse one inbound frame into a command, or nothing for a frame the
/// engine ignores.
#[verifier::rlimit(50)]
pub fn parse_message(input: &Vec<u8>) -> (r: Option<Command>)
    ensures
        match r {
            Some(c) => spec_parse(input@) == Some(c@),
            None => spec_parse(input@) is None,
        },
{
    let lines = split_crlf(input);
    let ghost dl = deep(lines@);
    proof {
        lemma_deep_index(lines@, 0);
    }
    if lines[0].len() == 0 || lines[0][0] != 42 {
        return None;
    }
    if lines.len() <= 2 {
        return None;
    }
    proof {
        lemma_deep_index(lines@, 2);
    }
    let name = to_upper(&lines[2]);
    if eq_bytes(&name, &['P' as u8, 'I' as u8, 'N' as u8, 'G' as u8]) {
        proof {
            assert(name@ =~= ping_word());
        }
        return Some(Command::Ping);
    }
    proof {
        assert(spec_upper(dl[2]) != ping_word()) by {
            assert(ping_word() =~= seq!['P' as u8, 'I' as u8, 'N' as u8, 'G' as u8]);
        }
    }
    if eq_bytes(&name, &['E' as u8, 'C' as u8, 'H' as u8, 'O' as u8]) {
        proof {
            assert(name@ =~= echo_word());
        }
        if lines.len() > 4 {
            proof {
                lemma_deep_index(lines@, 4);
            }
            return Some(Command::Echo(clone_bytes(&lines[4])));
        }
        return None;
    }
    proof {
        assert(spec_upper(dl[2]) != echo_word()) by {
            assert(echo_word() =~= seq!['E' as u8, 'C' as u8, 'H' as u8, 'O' as u8]);
        }
    }
    if eq_bytes(&name, &['S' as u8, 'E' as u8, 'T' as u8]) {
        proof {
            assert(name@ =~= set_word());
        }
        if lines.len() > 6 {
            proof {
                lemma_deep_index(lines@, 4);
                lemma_deep_index(lines@, 6);
            }
            let px: Option<u64> = match find_px(&lines) {
                Some(p) => {
                    if lines.len() - p > 2 {
                        proof {
                            lemma_deep_index(lines@, p + 2);
                        }
                        parse_u64(&lines[p + 2])
                    } else {
                        None
                    }
                },
                None => None,
            };
            return Some(
                Command::SetValue { key: clone_bytes(&lines[4]), value: clone_bytes(&lines[6]), px },
            );
        }
        return None;
    }
    proof {
        assert(spec_upper(dl[2]) != set_word()) by {
            assert(set_word() =~= seq!['S' as u8, 'E' as u8, 'T' as u8]);
        }
    }
    if eq_bytes(&name, &['G' as u8, 'E' as u8, 'T' as u8]) {
        proof {
            assert(name@ =~= get_word());
        }
        if lines.len() > 4 {
            proof {
                lemma_deep_index(lines@, 4);
            }
            return Some(Command::Get(clone_bytes(&lines[4])));
        }
        return None;
    }
    proof {
        assert(spec_upper(dl[2]) != get_word()) by {
            assert(get_word() =~= seq!['G' as u8, 'E' as u8, 'T' as u8]);
        }
    }
    if eq_bytes(&name, &['R' as u8, 'P' as u8, 'U' as u8, 'S' as u8, 'H' as u8]) {
        proof {
            assert(name@ =~= rpush_word());
        }
        if lines.len() > 4 {
            proof {
                lemma_deep_index(lines@, 4);
            }
            let values = collect_stride2(&lines, 6, lines.len());
            return Some(Command::Rpush { key: clone_bytes(&lines[4]), values });
        }
        return None;
    }
    proof {
        assert(spec_upper(dl[2]) != rpush_word()) by {
            assert(rpush_word() =~= seq!['R' as u8, 'P' as u8, 'U' as u8, 'S' as u8, 'H' as u8]);
        }
    }
    if eq_bytes(&name, &['L' as u8, 'P' as u8, 'U' as u8, 'S' as u8, 'H' as u8]) {
        proof {
            assert(name@ =~= lpush_word());
        }
        if lines.len() > 4 {
            proof {
                lemma_deep_index(lines@, 4);
            }
            let values = collect_stride2(&lines, 6, lines.len());
            return Some(Command::Lpush { key: clone_bytes(&lines[4]), values });
        }
        return None;
    }
    proof {
        assert(spec_upper(dl[2]) != lpush_word()) by {
            assert(lpush_word() =~= seq!['L' as u8, 'P' as u8, 'U' as u8, 'S' as u8, 'H' as u8]);
        }
    }
    if eq_bytes(
        &name,
        &['L' as u8, 'R' as u8, 'A' as u8, 'N' as u8, 'G' as u8, 'E' as u8],
    ) {
        proof {
            assert(name@ =~= lrange_word());
        }
        if lines.len() > 8 {
            proof {
                lemma_deep_index(lines@, 4);
                lemma_deep_index(lines@, 6);
                lemma_deep_index(lines@, 8);
            }
            let start = match parse_i64(&lines[6]) {
                Some(a) => a,
                None => {
                    return None;
                },
            };
            let stop = match parse_i64(&lines[8]) {
                Some(b) => b,
                None => {
                    return None;
                },
            };
            return Some(Command::Lrange { key: clone_bytes(&lines[4]), start, stop });
        }
        return None;
    }
    proof {
        assert(spec_upper(dl[2]) != lrange_word()) by {
            assert(lrange_word() =~= seq![
                'L' as u8,
                'R' as u8,
                'A' as u8,
                'N' as u8,
                'G' as u8,
                'E' as u8,
            ]);
        }
    }
    if eq_bytes(&name, &['L' as u8, 'L' as u8, 'E' as u8, 'N' as u8]) {
        proof {
            assert(name@ =~= llen_word());
        }
        if lines.len() > 4 {
            proof {
                lemma_deep_index(lines@, 4);
            }
            return Some(Command::Llen(clone_bytes(&lines[4])));
        }
        return None;
    }
    proof {
        assert(spec_upper(dl[2]) != llen_word()) by {
            assert(llen_word() =~= seq!['L' as u8, 'L' as u8, 'E' as u8, 'N' as u8]);
        }
    }
    if eq_bytes(&name, &['L' as u8, 'P' as u8, 'O' as u8, 'P' as u8]) {
        proof {
            assert(name@ =~= lpop_word());
        }
        if lines.len() > 4 {
            proof {
                lemma_deep_index(lines@, 4);
            }
            if lines.len() > 6 {
                proof {
                    lemma_deep_index(lines@, 6);
                }
                return match parse_usize(&lines[6]) {
                    Some(c) => Some(
                        Command::Lpop { key: clone_bytes(&lines[4]), count: Some(c) },
                    ),
                    None => None,
                };
            }
            return Some(Command::Lpop { key: clone_bytes(&lines[4]), count: None });
        }
        return None;
    }
    proof {
        assert(spec_upper(dl[2]) != lpop_word()) by {
            assert(lpop_word() =~= seq!['L' as u8, 'P' as u8, 'O' as u8, 'P' as u8]);
        }
    }
    if eq_bytes(&name, &['B' as u8, 'L' as u8, 'P' as u8, 'O' as u8, 'P' as u8]) {
        proof {
            assert(name@ =~= blpop_word());
        }
        let filtered = drop_empty_lines(&lines);
        let ghost fl = filter_nonempty(dl);
        if filtered.len() == 0 {
            return None;
        }
        proof {
            lemma_deep_index(filtered@, filtered@.len() - 1);
        }
        let timeout_ms = match parse_timeout_ms(&filtered[filtered.len() - 1]) {
            Some(t) => t,
            None => {
                proof {
                    assert(filtered@[filtered@.len() - 1]@ == fl.last());
                }
                return None;
            },
        };
        proof {
            assert(filtered@[filtered@.len() - 1]@ == fl.last());
        }
        let keys = collect_stride2(&filtered, 4, filtered.len() - 1);
        return Some(Command::Blpop { keys, timeout_ms });
    }
    proof {
        assert(spec_upper(dl[2]) != blpop_word()) by {
            assert(blpop_word() =~= seq!['B' as u8, 'L' as u8, 'P' as u8, 'O' as u8, 'P' as u8]);
        }
    }
    None
}

} // verus!
