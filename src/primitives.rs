//! Fixed-width big-endian integers and length-prefixed byte sequences.
//!
//! Every reader works on a byte buffer and a position in it, and returns the
//! value together with the position just after it. Every writer appends to a
//! `Vec<u8>`. The spec functions `parse_*` and `enc_*` describe the same
//! formats over `Seq<u8>`: a parser is given the input that starts at the
//! position, and returns the value and how many bytes it consumed.
use byteorder::{BigEndian, ByteOrder};
use vstd::prelude::*;
use vstd::slice::{slice_subrange, slice_to_vec};

verus! {

/// Why a byte sequence could not be decoded.
#[derive(Debug, Clone, Copy, PartialEq, Eq, Structural)]
pub enum DecodeError {
    /// The input ended before the value did.
    UnexpectedEnd,
    /// A control feed starts with a tag that names no variant.
    InvalidFeedTag(u32),
    /// A socket address starts with a family byte other than 4 or 6.
    InvalidAddressFamily(u8),
}

/// `256` to the power `n`: one more than the largest number that `n` bytes hold.
pub open spec fn pow256(n: nat) -> nat
    decreases n,
{
    if n == 0 {
        1
    } else {
        256 * pow256((n - 1) as nat)
    }
}

/// The number that the bytes `s` denote, most significant byte first.
pub open spec fn be_value(s: Seq<u8>) -> nat
    decreases s.len(),
{
    if s.len() == 0 {
        0
    } else {
        be_value(s.drop_last()) * 256 + s.last() as nat
    }
}

/// The `n` low-order bytes of `x`, most significant byte first.
pub open spec fn be_bytes(x: nat, n: nat) -> Seq<u8>
    decreases n,
{
    if n == 0 {
        Seq::empty()
    } else {
        be_bytes(x / 256, (n - 1) as nat).push((x % 256) as u8)
    }
}

pub proof fn lemma_pow256_widths()
    ensures
        pow256(1) == 0x100,
        pow256(2) == 0x1_0000,
        pow256(4) == 0x1_0000_0000,
        pow256(8) == 0x1_0000_0000_0000_0000,
        pow256(16) == 0x1_0000_0000_0000_0000_0000_0000_0000_0000,
{
    reveal_with_fuel(pow256, 17);
}

pub proof fn lemma_be_bytes_len(x: nat, n: nat)
    ensures
        be_bytes(x, n).len() == n,
    decreases n,
{
    if n > 0 {
        lemma_be_bytes_len(x / 256, (n - 1) as nat);
    }
}

pub proof fn lemma_be_value_bound(s: Seq<u8>)
    ensures
        be_value(s) < pow256(s.len()),
    decreases s.len(),
{
    if s.len() > 0 {
        let t = s.drop_last();
        lemma_be_value_bound(t);
        let (v, p) = (be_value(t), pow256(t.len()));
        assert(v * 256 + (s.last() as nat) < 256 * p) by (nonlinear_arith)
            requires
                v < p,
                s.last() < 256,
        ;
    }
}

/// Reading back `n` bytes written from a number that fits in them gives the number.
pub proof fn lemma_be_round_trip(x: nat, n: nat)
    requires
        x < pow256(n),
    ensures
        be_value(be_bytes(x, n)) == x,
    decreases n,
{
    if n > 0 {
        let q = x / 256;
        assert(q < pow256((n - 1) as nat)) by (nonlinear_arith)
            requires
                x < 256 * pow256((n - 1) as nat),
                q == x / 256,
        ;
        lemma_be_round_trip(q, (n - 1) as nat);
        let s = be_bytes(x, n);
        assert(s.drop_last() =~= be_bytes(q, (n - 1) as nat));
        assert(x == q * 256 + x % 256) by (nonlinear_arith)
            requires
                q == x / 256,
        ;
    }
}

/// The value and length of an unsigned integer of `width` bytes at the start of `s`.
pub open spec fn parse_uint(s: Seq<u8>, width: nat) -> Result<(nat, nat), DecodeError> {
    if s.len() < width {
        Err(DecodeError::UnexpectedEnd)
    } else {
        Ok((be_value(s.take(width as int)), width))
    }
}

/// A fixed-width integer written and followed by anything reads back as itself.
pub proof fn lemma_uint_round_trip(x: nat, width: nat, rest: Seq<u8>)
    requires
        x < pow256(width),
    ensures
        parse_uint(be_bytes(x, width) + rest, width) == Ok::<(nat, nat), DecodeError>(
            (x, width),
        ),
{
    lemma_be_bytes_len(x, width);
    lemma_be_round_trip(x, width);
    assert((be_bytes(x, width) + rest).take(width as int) =~= be_bytes(x, width));
}

/// Relies on byteorder's `BigEndian::read_uint128`: the first `width` bytes
/// of `b`, read as an unsigned number with the most significant byte first.
/// It panics unless `1 <= width <= 16` and `width <= b.len()`.
#[verifier::external_body]
fn be_read(b: &[u8], width: usize) -> (r: u128)
    requires
        1 <= width <= 16,
        width <= b@.len(),
    ensures
        r as nat == be_value(b@.take(width as int)),
{
    BigEndian::read_uint128(b, width)
}

/// Relies on byteorder's `BigEndian::write_uint128`: `x` as `width` bytes,
/// most significant first. It panics unless `x` fits in `width <= 16` bytes
/// and the buffer holds `width` bytes.
#[verifier::external_body]
fn be_write(x: u128, width: usize) -> (r: Vec<u8>)
    requires
        1 <= width <= 16,
        (x as nat) < pow256(width as nat),
    ensures
        r@ == be_bytes(x as nat, width as nat),
{
    let mut b = vec![0u8; width];
    BigEndian::write_uint128(&mut b, x, width);
    b
}

/// Reads an unsigned integer of `width` bytes at `pos`.
pub fn read_uint(buf: &[u8], pos: usize, width: usize) -> (r: Result<(u128, usize), DecodeError>)
    requires
        pos <= buf@.len(),
        1 <= width <= 16,
    ensures
        match parse_uint(buf@.skip(pos as int), width as nat) {
            Ok((x, n)) => r matches Ok((y, next)) && y as nat == x && next == pos + n,
            Err(e) => r == Err::<(u128, usize), DecodeError>(e),
        },
        r matches Ok((y, _)) ==> (y as nat) < pow256(width as nat),
{
    if buf.len() - pos < width {
        return Err(DecodeError::UnexpectedEnd);
    }
    let rest = slice_subrange(buf, pos, buf.len());
    let x = be_read(rest, width);
    proof {
        lemma_be_value_bound(rest@.take(width as int));
        assert(rest@ =~= buf@.skip(pos as int));
    }
    Ok((x, pos + width))
}

/// Appends `x` as `width` bytes, most significant first.
pub fn write_uint(out: &mut Vec<u8>, x: u128, width: usize)
    requires
        1 <= width <= 16,
        (x as nat) < pow256(width as nat),
    ensures
        final(out)@ == old(out)@ + be_bytes(x as nat, width as nat),
{
    let mut b = be_write(x, width);
    out.append(&mut b);
}

/// The bytes of a length-prefixed sequence: its length as eight bytes, then its items.
pub open spec fn enc_bytes(t: Seq<u8>) -> Seq<u8> {
    be_bytes(t.len(), 8) + t
}

/// A length-prefixed byte sequence at the start of `s`, and how many bytes it takes.
pub open spec fn parse_bytes(s: Seq<u8>) -> Result<(Seq<u8>, nat), DecodeError> {
    match parse_uint(s, 8) {
        Err(e) => Err(e),
        Ok((len, n)) => if s.len() - n < len {
            Err(DecodeError::UnexpectedEnd)
        } else {
            Ok((s.subrange(n as int, (n + len) as int), n + len))
        },
    }
}

/// A length-prefixed byte sequence written and followed by anything reads back as itself.
pub proof fn lemma_bytes_round_trip(t: Seq<u8>, rest: Seq<u8>)
    requires
        t.len() < pow256(8),
    ensures
        parse_bytes(enc_bytes(t) + rest) == Ok::<(Seq<u8>, nat), DecodeError>(
            (t, enc_bytes(t).len()),
        ),
{
    let head = be_bytes(t.len(), 8);
    lemma_be_bytes_len(t.len(), 8);
    let s = enc_bytes(t) + rest;
    assert(s =~= head + (t + rest));
    lemma_uint_round_trip(t.len(), 8, t + rest);
    assert(s.subrange(8, 8 + t.len() as int) =~= t);
}

/// Every strict prefix of a length-prefixed byte sequence ends too early.
pub proof fn lemma_bytes_truncated(t: Seq<u8>, k: nat)
    requires
        t.len() < pow256(8),
        k < enc_bytes(t).len(),
    ensures
        parse_bytes(enc_bytes(t).take(k as int)) == Err::<(Seq<u8>, nat), DecodeError>(
            DecodeError::UnexpectedEnd,
        ),
{
    lemma_be_bytes_len(t.len(), 8);
    if k >= 8 {
        let s = enc_bytes(t).take(k as int);
        assert(s =~= be_bytes(t.len(), 8) + t.take(k - 8));
        lemma_uint_round_trip(t.len(), 8, t.take(k - 8));
    }
}

/// Reads a length-prefixed byte sequence at `pos`.
pub fn read_bytes(buf: &[u8], pos: usize) -> (r: Result<(Vec<u8>, usize), DecodeError>)
    requires
        pos <= buf@.len(),
    ensures
        match parse_bytes(buf@.skip(pos as int)) {
            Ok((t, n)) => r matches Ok((v, next)) && v@ == t && next == pos + n,
            Err(e) => r matches Err(f) && f == e,
        },
{
    let (len, p) = read_uint(buf, pos, 8)?;
    if ((buf.len() - p) as u128) < len {
        return Err(DecodeError::UnexpectedEnd);
    }
    let end = p + len as usize;
    let v = slice_to_vec(slice_subrange(buf, p, end));
    proof {
        assert(v@ =~= buf@.skip(pos as int).subrange(8, 8 + len));
    }
    Ok((v, end))
}

/// Appends `t` with its length in front.
pub fn write_bytes(out: &mut Vec<u8>, t: &[u8])
    ensures
        final(out)@ == old(out)@ + enc_bytes(t@),
{
    proof {
        lemma_pow256_widths();
    }
    write_uint(out, t.len() as u128, 8);
    let ghost mid = out@;
    let mut i: usize = 0;
    while i < t.len()
        invariant
            i <= t@.len(),
            out@ == mid + t@.take(i as int),
        decreases t@.len() - i,
    {
        out.push(t[i]);
        i = i + 1;
        proof {
            assert(t@.take(i as int) =~= t@.take(i - 1).push(t@[i - 1]));
        }
    }
    proof {
        assert(t@.take(t@.len() as int) =~= t@);
        assert(old(out)@ + enc_bytes(t@) =~= old(out)@ + be_bytes(t@.len(), 8) + t@);
    }
}

} // verus!
