//! Socket addresses on the wire: a family byte (4 or 6), the address in
//! big-endian order, then the port as two big-endian bytes.
use crate::primitives::{
    be_bytes, lemma_be_bytes_len, lemma_pow256_widths, lemma_uint_round_trip, parse_uint,
    read_uint, write_uint, DecodeError,
};
use vstd::prelude::*;

verus! {

/// An IP socket address: the address as one number, and a port.
#[derive(Debug, Clone, Copy, PartialEq, Eq, Structural)]
#[allow(inconsistent_fields)]
pub enum SocketAddress {
    /// An IPv4 address, its four octets read most significant first.
    V4 { ip: u32, port: u16 },
    /// An IPv6 address, its sixteen octets read most significant first.
    V6 { ip: u128, port: u16 },
}

/// The bytes of a socket address.
#[verifier::opaque]
pub open spec fn enc_address(a: SocketAddress) -> Seq<u8> {
    match a {
        SocketAddress::V4 { ip, port } => seq![4u8] + be_bytes(ip as nat, 4) + be_bytes(
            port as nat,
            2,
        ),
        SocketAddress::V6 { ip, port } => seq![6u8] + be_bytes(ip as nat, 16) + be_bytes(
            port as nat,
            2,
        ),
    }
}

/// The socket address at the start of `s`, and how many bytes it takes.
#[verifier::opaque]
pub open spec fn parse_address(s: Seq<u8>) -> Result<(SocketAddress, nat), DecodeError> {
    if s.len() == 0 {
        Err(DecodeError::UnexpectedEnd)
    } else if s[0] == 4 {
        match parse_uint(s.skip(1), 4) {
            Err(e) => Err(e),
            Ok((ip, _)) => match parse_uint(s.skip(5), 2) {
                Err(e) => Err(e),
                Ok((port, _)) => Ok((SocketAddress::V4 { ip: ip as u32, port: port as u16 }, 7)),
            },
        }
    } else if s[0] == 6 {
        match parse_uint(s.skip(1), 16) {
            Err(e) => Err(e),
            Ok((ip, _)) => match parse_uint(s.skip(17), 2) {
                Err(e) => Err(e),
                Ok((port, _)) => Ok((SocketAddress::V6 { ip: ip as u128, port: port as u16 }, 19)),
            },
        }
    } else {
        Err(DecodeError::InvalidAddressFamily(s[0]))
    }
}

/// A socket address written and followed by anything reads back as itself.
pub proof fn lemma_address_round_trip(a: SocketAddress, rest: Seq<u8>)
    ensures
        parse_address(enc_address(a) + rest) == Ok::<(SocketAddress, nat), DecodeError>(
            (a, enc_address(a).len()),
        ),
{
    reveal(enc_address);
    reveal(parse_address);
    lemma_pow256_widths();
    let s = enc_address(a) + rest;
    match a {
        SocketAddress::V4 { ip, port } => {
            let (i, p) = (be_bytes(ip as nat, 4), be_bytes(port as nat, 2));
            lemma_be_bytes_len(ip as nat, 4);
            lemma_be_bytes_len(port as nat, 2);
            assert(s.skip(1) =~= i + (p + rest));
            assert(s.skip(5) =~= p + rest);
            lemma_uint_round_trip(ip as nat, 4, p + rest);
            lemma_uint_round_trip(port as nat, 2, rest);
        },
        SocketAddress::V6 { ip, port } => {
            let (i, p) = (be_bytes(ip as nat, 16), be_bytes(port as nat, 2));
            lemma_be_bytes_len(ip as nat, 16);
            lemma_be_bytes_len(port as nat, 2);
            assert(s.skip(1) =~= i + (p + rest));
            assert(s.skip(17) =~= p + rest);
            lemma_uint_round_trip(ip as nat, 16, p + rest);
            lemma_uint_round_trip(port as nat, 2, rest);
        },
    }
}

/// Every strict prefix of a written socket address ends too early.
pub proof fn lemma_address_truncated(a: SocketAddress, k: nat)
    requires
        k < enc_address(a).len(),
    ensures
        parse_address(enc_address(a).take(k as int)) == Err::<(SocketAddress, nat), DecodeError>(
            DecodeError::UnexpectedEnd,
        ),
{
    reveal(enc_address);
    reveal(parse_address);
    lemma_pow256_widths();
    let e = enc_address(a);
    let s = e.take(k as int);
    match a {
        SocketAddress::V4 { ip, port } => {
            lemma_be_bytes_len(ip as nat, 4);
            lemma_be_bytes_len(port as nat, 2);
            if k >= 5 {
                assert(s.skip(1).take(4) =~= e.skip(1).take(4));
                assert(e.skip(1) =~= be_bytes(ip as nat, 4) + be_bytes(port as nat, 2));
                lemma_uint_round_trip(ip as nat, 4, be_bytes(port as nat, 2));
            }
            if k > 0 {
                assert(s[0] == 4);
            }
        },
        SocketAddress::V6 { ip, port } => {
            lemma_be_bytes_len(ip as nat, 16);
            lemma_be_bytes_len(port as nat, 2);
            if k >= 17 {
                assert(s.skip(1).take(16) =~= e.skip(1).take(16));
                assert(e.skip(1) =~= be_bytes(ip as nat, 16) + be_bytes(port as nat, 2));
                lemma_uint_round_trip(ip as nat, 16, be_bytes(port as nat, 2));
            }
            if k > 0 {
                assert(s[0] == 6);
            }
        },
    }
}

impl SocketAddress {
    /// Appends the bytes of this address.
    pub fn write_to(&self, out: &mut Vec<u8>)
        ensures
            final(out)@ == old(out)@ + enc_address(*self),
    {
        proof {
            reveal(enc_address);
            lemma_pow256_widths();
        }
        match self {
            SocketAddress::V4 { ip, port } => {
                out.push(4u8);
                write_uint(out, *ip as u128, 4);
                write_uint(out, *port as u128, 2);
            },
            SocketAddress::V6 { ip, port } => {
                out.push(6u8);
                write_uint(out, *ip, 16);
                write_uint(out, *port as u128, 2);
            },
        }
        proof {
            assert(final(out)@ =~= old(out)@ + enc_address(*self));
        }
    }

    /// Reads a socket address at `pos`, and returns it with the position after it.
    pub fn read_from(buf: &[u8], pos: usize) -> (r: Result<(SocketAddress, usize), DecodeError>)
        requires
            pos <= buf@.len(),
        ensures
            match parse_address(buf@.skip(pos as int)) {
                Ok((a, n)) => r matches Ok((b, next)) && b == a && next == pos + n,
                Err(e) => r matches Err(f) && f == e,
            },
            r matches Ok((_, next)) ==> next <= buf@.len(),
    {
        proof {
            reveal(parse_address);
            lemma_pow256_widths();
        }
        let ghost s = buf@.skip(pos as int);
        if pos >= buf.len() {
            return Err(DecodeError::UnexpectedEnd);
        }
        let family = buf[pos];
        if family == 4 {
            proof {
                assert(buf@.skip(pos + 1) =~= s.skip(1));
            }
            let (ip, p) = read_uint(buf, pos + 1, 4)?;
            proof {
                assert(buf@.skip(p as int) =~= s.skip(5));
            }
            let (port, p) = read_uint(buf, p, 2)?;
            Ok((SocketAddress::V4 { ip: ip as u32, port: port as u16 }, p))
        } else if family == 6 {
            proof {
                assert(buf@.skip(pos + 1) =~= s.skip(1));
            }
            let (ip, p) = read_uint(buf, pos + 1, 16)?;
            proof {
                assert(buf@.skip(p as int) =~= s.skip(17));
            }
            let (port, p) = read_uint(buf, p, 2)?;
            Ok((SocketAddress::V6 { ip, port: port as u16 }, p))
        } else {
            Err(DecodeError::InvalidAddressFamily(family))
        }
    }
}

} // verus!
