//! RESP replies and their wire encoding.
//!
//! `spec_encode` states the exact byte sequence of every reply shape;
//! `encode_reply` produces it.

use vstd::prelude::*;

use crate::bytes::bytes_of;
use crate::bytes::clone_bytes;
use crate::bytes::deep;
use crate::bytes::lemma_deep_index;
use crate::bytes::lemma_deep_push;

verus! {

broadcast use crate::bytes::lemma_deep_len;

/// A reply the executor hands back, one variant per RESP reply shape the
/// engine emits.
pub enum Reply {
    /// Simple string: `+text\r\n`.
    Simple(Vec<u8>),
    /// Error: `-text\r\n`.
    Error(Vec<u8>),
    /// Integer: `:n\r\n`.
    Integer(u64),
    /// Bulk string: `$len\r\nbytes\r\n`.
    Bulk(Vec<u8>),
    /// Null bulk string: `$-1\r\n`.
    NullBulk,
    /// Array of bulk strings: `*n\r\n` followed by each bulk.
    Array(Vec<Vec<u8>>),
    /// Null array: `*-1\r\n`.
    NullArray,
}

/// Mathematical model of a `Reply`.
#[verifier::ext_equal]
pub enum ReplyModel {
    Simple { text: Seq<u8> },
    Error { text: Seq<u8> },
    Integer { n: nat },
    Bulk { bytes: Seq<u8> },
    NullBulk,
    Array { items: Seq<Seq<u8>> },
    NullArray,
}

impl View for Reply {
    type V = ReplyModel;

    open spec fn view(&self) -> ReplyModel {
        match self {
            Reply::Simple(s) => ReplyModel::Simple { text: s@ },
            Reply::Error(s) => ReplyModel::Error { text: s@ },
            Reply::Integer(n) => ReplyModel::Integer { n: *n as nat },
            Reply::Bulk(b) => ReplyModel::Bulk { bytes: b@ },
            Reply::NullBulk => ReplyModel::NullBulk,
            Reply::Array(items) => ReplyModel::Array { items: deep(items@) },
            Reply::NullArray => ReplyModel::NullArray,
        }
    }
}

/// The two-byte line terminator.
pub open spec fn crlf() -> Seq<u8> {
    seq![13u8, 10u8]
}

/// The decimal digits of `n`, most significant first, no leading zeros
/// (a single `0` for zero).
pub open spec fn spec_dec_digits(n: nat) -> Seq<u8>
    decreases n,
{
    if n < 10 {
        seq![(48 + n) as u8]
    } else {
        spec_dec_digits(n / 10).push((48 + n % 10) as u8)
    }
}

/// The wire form of one bulk string.
pub open spec fn spec_bulk(b: Seq<u8>) -> Seq<u8> {
    seq![36u8] + spec_dec_digits(b.len()) + crlf() + b + crlf()
}

/// The concatenated wire forms of a sequence of bulk strings.
pub open spec fn spec_bulk_array(items: Seq<Seq<u8>>) -> Seq<u8>
    decreases items.len(),
{
    if items.len() == 0 {
        Seq::empty()
    } else {
        spec_bulk(items[0]) + spec_bulk_array(items.skip(1))
    }
}

/// The exact wire encoding of every reply shape.
pub open spec fn spec_encode(r: ReplyModel) -> Seq<u8> {
    match r {
        ReplyModel::Simple { text } => seq![43u8] + text + crlf(),
        ReplyModel::Error { text } => seq![45u8] + text + crlf(),
        ReplyModel::Integer { n } => seq![58u8] + spec_dec_digits(n) + crlf(),
        ReplyModel::Bulk { bytes } => spec_bulk(bytes),
        ReplyModel::NullBulk => seq![36u8, 45u8, 49u8] + crlf(),
        ReplyModel::Array { items } => seq![42u8] + spec_dec_digits(items.len()) + crlf()
            + spec_bulk_array(items),
        ReplyModel::NullArray => seq![42u8, 45u8, 49u8] + crlf(),
    }
}

/// The text of the `PONG` simple-string reply.
pub open spec fn pong_text() -> Seq<u8> {
    seq!['P' as u8, 'O' as u8, 'N' as u8, 'G' as u8]
}

/// The text of the `OK` simple-string reply.
pub open spec fn ok_text() -> Seq<u8> {
    seq!['O' as u8, 'K' as u8]
}

/// The canonical error text for every type-mismatched operation.
pub open spec fn wrongtype_text() -> Seq<u8> {
    seq![
        'W' as u8, 'R' as u8, 'O' as u8, 'N' as u8, 'G' as u8, 'T' as u8, 'Y' as u8, 'P' as u8,
        'E' as u8, ' ' as u8, 'O' as u8, 'p' as u8, 'e' as u8, 'r' as u8, 'a' as u8, 't' as u8,
        'i' as u8, 'o' as u8, 'n' as u8, ' ' as u8, 'a' as u8, 'g' as u8, 'a' as u8, 'i' as u8,
        'n' as u8, 's' as u8, 't' as u8, ' ' as u8, 'a' as u8, ' ' as u8, 'k' as u8, 'e' as u8,
        'y' as u8, ' ' as u8, 'h' as u8, 'o' as u8, 'l' as u8, 'd' as u8, 'i' as u8, 'n' as u8,
        'g' as u8, ' ' as u8, 't' as u8, 'h' as u8, 'e' as u8, ' ' as u8, 'w' as u8, 'r' as u8,
        'o' as u8, 'n' as u8, 'g' as u8, ' ' as u8, 'k' as u8, 'i' as u8, 'n' as u8, 'd' as u8,
        ' ' as u8, 'o' as u8, 'f' as u8, ' ' as u8, 'v' as u8, 'a' as u8, 'l' as u8, 'u' as u8,
        'e' as u8,
    ]
}

/// Build the `PONG` text.
pub fn pong_bytes() -> (r: Vec<u8>)
    ensures
        r@ == pong_text(),
{
    let r = bytes_of(&['P' as u8, 'O' as u8, 'N' as u8, 'G' as u8]);
    proof {
        assert(r@ =~= pong_text());
    }
    r
}

/// Build the `OK` text.
pub fn ok_bytes() -> (r: Vec<u8>)
    ensures
        r@ == ok_text(),
{
    let r = bytes_of(&['O' as u8, 'K' as u8]);
    proof {
        assert(r@ =~= ok_text());
    }
    r
}

/// Build the `WRONGTYPE` error text.
pub fn wrongtype_bytes() -> (r: Vec<u8>)
    ensures
        r@ == wrongtype_text(),
{
    let r = bytes_of(
        &[
        'W' as u8, 'R' as u8, 'O' as u8, 'N' as u8, 'G' as u8, 'T' as u8, 'Y' as u8, 'P' as u8,
        'E' as u8, ' ' as u8, 'O' as u8, 'p' as u8, 'e' as u8, 'r' as u8, 'a' as u8, 't' as u8,
        'i' as u8, 'o' as u8, 'n' as u8, ' ' as u8, 'a' as u8, 'g' as u8, 'a' as u8, 'i' as u8,
        'n' as u8, 's' as u8, 't' as u8, ' ' as u8, 'a' as u8, ' ' as u8, 'k' as u8, 'e' as u8,
        'y' as u8, ' ' as u8, 'h' as u8, 'o' as u8, 'l' as u8, 'd' as u8, 'i' as u8, 'n' as u8,
        'g' as u8, ' ' as u8, 't' as u8, 'h' as u8, 'e' as u8, ' ' as u8, 'w' as u8, 'r' as u8,
        'o' as u8, 'n' as u8, 'g' as u8, ' ' as u8, 'k' as u8, 'i' as u8, 'n' as u8, 'd' as u8,
        ' ' as u8, 'o' as u8, 'f' as u8, ' ' as u8, 'v' as u8, 'a' as u8, 'l' as u8, 'u' as u8,
        'e' as u8,
        ],
    );
    proof {
        assert(r@ =~= wrongtype_text());
    }
    r
}

fn push_crlf(out: &mut Vec<u8>)
    ensures
        final(out)@ == old(out)@ + crlf(),
{
    out.push(13);
    out.push(10);
    proof {
        assert(out@ =~= old(out)@ + crlf());
    }
}

fn push_bytes(out: &mut Vec<u8>, s: &Vec<u8>)
    ensures
        final(out)@ == old(out)@ + s@,
{
    let ghost base = out@;
    let mut i: usize = 0;
    while i < s.len()
        invariant
            i <= s@.len(),
            out@ == base + s@.take(i as int),
        decreases s@.len() - i,
    {
        out.push(s[i]);
        i = i + 1;
        proof {
            assert(out@ =~= base + s@.take(i as int));
        }
    }
    proof {
        assert(base + s@.take(s@.len() as int) =~= base + s@);
    }
}

/// `spec_dec_digits` unfolded from the last digit.
proof fn lemma_dec_digits_snoc(m: nat)
    requires
        m >= 1,
    ensures
        spec_dec_digits(m) == (if m / 10 == 0 {
            Seq::<u8>::empty()
        } else {
            spec_dec_digits(m / 10)
        }) + seq![(48 + m % 10) as u8],
{
    if m < 10 {
        assert(m / 10 == 0);
        assert(m % 10 == m);
        assert(spec_dec_digits(m) =~= Seq::<u8>::empty() + seq![(48 + m % 10) as u8]);
    } else {
        assert(spec_dec_digits(m) == spec_dec_digits(m / 10).push((48 + m % 10) as u8));
        assert(spec_dec_digits(m / 10).push((48 + m % 10) as u8) =~= spec_dec_digits(m / 10)
            + seq![(48 + m % 10) as u8]);
    }
}

/// Append the decimal digits of `n`.
fn push_u64_dec(out: &mut Vec<u8>, n: u64)
    ensures
        final(out)@ == old(out)@ + spec_dec_digits(n as nat),
{
    let ghost base = out@;
    let mut rev: Vec<u8> = Vec::new();
    let mut m: u64 = n;
    rev.push(48 + (m % 10) as u8);
    m = m / 10;
    proof {
        lemma_dec_digits_snoc(if n == 0 { 1nat } else { n as nat });
        if n == 0 {
            assert(spec_dec_digits(0) =~= seq![48u8]);
            assert(rev@.reverse() =~= seq![48u8]);
        } else {
            assert(rev@.reverse() =~= seq![(48 + n % 10) as u8]);
        }
        assert(spec_dec_digits(n as nat) == (if m == 0 {
            Seq::<u8>::empty()
        } else {
            spec_dec_digits(m as nat)
        }) + rev@.reverse());
    }
    while m > 0
        invariant
            rev@.len() >= 1,
            spec_dec_digits(n as nat) == (if m == 0 {
                Seq::<u8>::empty()
            } else {
                spec_dec_digits(m as nat)
            }) + rev@.reverse(),
        decreases m,
    {
        let ghost prev = rev@;
        rev.push(48 + (m % 10) as u8);
        proof {
            lemma_dec_digits_snoc(m as nat);
            assert(rev@.reverse() =~= seq![(48 + m % 10) as u8] + prev.reverse());
            assert((if m / 10 == 0 {
                Seq::<u8>::empty()
            } else {
                spec_dec_digits((m / 10) as nat)
            }) + rev@.reverse() =~= ((if m / 10 == 0 {
                Seq::<u8>::empty()
            } else {
                spec_dec_digits((m / 10) as nat)
            }) + seq![(48 + m % 10) as u8]) + prev.reverse());
            assert(((if m / 10 == 0 {
                Seq::<u8>::empty()
            } else {
                spec_dec_digits((m / 10) as nat)
            }) + seq![(48 + m % 10) as u8]) + prev.reverse() =~= spec_dec_digits(m as nat)
                + prev.reverse());
        }
        m = m / 10;
    }
    let ghost digits = spec_dec_digits(n as nat);
    proof {
        assert(digits == rev@.reverse());
        assert(rev@.reverse().len() == rev@.len());
    }
    let mut i: usize = rev.len();
    while i > 0
        invariant
            i <= rev@.len(),
            digits == rev@.reverse(),
            out@ == base + digits.take((rev@.len() - i) as int),
        decreases i,
    {
        i = i - 1;
        out.push(rev[i]);
        proof {
            let cnt = rev@.len() - i;
            assert(rev@.reverse()[cnt - 1] == rev@[i as int]);
            assert(out@ =~= base + digits.take(cnt as int));
        }
    }
    proof {
        assert(digits.take(rev@.len() as int) =~= digits);
    }
}

/// Append the wire form of one bulk string.
fn push_bulk(out: &mut Vec<u8>, b: &Vec<u8>)
    ensures
        final(out)@ == old(out)@ + spec_bulk(b@),
{
    let ghost base = out@;
    out.push(36);
    push_u64_dec(out, b.len() as u64);
    push_crlf(out);
    push_bytes(out, b);
    push_crlf(out);
    proof {
        assert(out@ =~= base + spec_bulk(b@));
    }
}

/// `spec_bulk_array` unfolded from the last element.
proof fn lemma_bulk_array_snoc(items: Seq<Seq<u8>>, x: Seq<u8>)
    ensures
        spec_bulk_array(items.push(x)) == spec_bulk_array(items) + spec_bulk(x),
    decreases items.len(),
{
    if items.len() == 0 {
        assert(items.push(x)[0] == x);
        assert(items.push(x).skip(1) =~= Seq::<Seq<u8>>::empty());
        assert(spec_bulk_array(Seq::<Seq<u8>>::empty()) == Seq::<u8>::empty());
        assert(spec_bulk_array(items.push(x)) =~= spec_bulk_array(items) + spec_bulk(x));
    } else {
        assert(items.push(x).skip(1) =~= items.skip(1).push(x));
        lemma_bulk_array_snoc(items.skip(1), x);
        assert(items.push(x)[0] == items[0]);
        assert(spec_bulk(items[0]) + (spec_bulk_array(items.skip(1)) + spec_bulk(x))
            =~= (spec_bulk(items[0]) + spec_bulk_array(items.skip(1))) + spec_bulk(x));
    }
}

/// Encode a reply into its exact RESP wire bytes.
pub fn encode_reply(r: &Reply) -> (out: Vec<u8>)
    ensures
        out@ == spec_encode(r@),
{
    let mut out: Vec<u8> = Vec::new();
    match r {
        Reply::Simple(s) => {
            out.push(43);
            push_bytes(&mut out, s);
            push_crlf(&mut out);
            proof {
                assert(out@ =~= spec_encode(r@));
            }
        },
        Reply::Error(s) => {
            out.push(45);
            push_bytes(&mut out, s);
            push_crlf(&mut out);
            proof {
                assert(out@ =~= spec_encode(r@));
            }
        },
        Reply::Integer(n) => {
            out.push(58);
            push_u64_dec(&mut out, *n);
            push_crlf(&mut out);
            proof {
                assert(out@ =~= spec_encode(r@));
            }
        },
        Reply::Bulk(b) => {
            push_bulk(&mut out, b);
            proof {
                assert(out@ =~= spec_encode(r@));
            }
        },
        Reply::NullBulk => {
            out.push(36);
            out.push(45);
            out.push(49);
            push_crlf(&mut out);
            proof {
                assert(out@ =~= spec_encode(r@));
            }
        },
        Reply::Array(items) => {
            out.push(42);
            push_u64_dec(&mut out, items.len() as u64);
            push_crlf(&mut out);
            let ghost header = out@;
            let mut i: usize = 0;
            while i < items.len()
                invariant
                    i <= items@.len(),
                    out@ == header + spec_bulk_array(deep(items@).take(i as int)),
                decreases items@.len() - i,
            {
                push_bulk(&mut out, &items[i]);
                i = i + 1;
                proof {
                    lemma_deep_index(items@, i - 1);
                    assert(deep(items@).take(i as int) =~= deep(items@).take(i - 1).push(
                        deep(items@)[i - 1],
                    ));
                    lemma_bulk_array_snoc(deep(items@).take(i - 1), deep(items@)[i - 1]);
                }
            }
            proof {
                assert(deep(items@).take(items@.len() as int) =~= deep(items@));
                assert(out@ =~= spec_encode(r@));
            }
        },
        Reply::NullArray => {
            out.push(42);
            out.push(45);
            out.push(49);
            push_crlf(&mut out);
            proof {
                assert(out@ =~= spec_encode(r@));
            }
        },
    }
    out
}

/// The `*2` array reply of a successful `BLPOP`: the winning key, then the
/// popped element.
pub fn blpop_success_reply(key: &Vec<u8>, value: Vec<u8>) -> (r: Reply)
    ensures
        r@ == (ReplyModel::Array { items: seq![key@, value@] }),
{
    let ghost vg = value@;
    let mut items: Vec<Vec<u8>> = Vec::new();
    items.push(clone_bytes(key));
    items.push(value);
    proof {
        assert(deep(items@) =~= seq![key@, vg]);
    }
    Reply::Array(items)
}

} // verus!
