//! The records that a control feed carries: claim instructions, the new
//! client that they belong to, and the response envelope of an RPC call.
use crate::address::{
    enc_address, lemma_address_round_trip, lemma_address_truncated, parse_address,
    SocketAddress,
};
use crate::primitives::{
    be_bytes, enc_bytes, lemma_be_bytes_len, lemma_bytes_round_trip, lemma_bytes_truncated,
    lemma_pow256_widths, lemma_uint_round_trip, parse_bytes, parse_uint, pow256, read_bytes,
    read_uint, write_bytes, write_uint, DecodeError,
};
use vstd::prelude::*;

verus! {

/// What an agent presents to claim a client connection that was handed to it.
/// The token is opaque: it is carried byte for byte and never looked into.
#[derive(Clone)]
pub struct ClaimInstructions {
    pub address: SocketAddress,
    pub token: Vec<u8>,
}

/// The value of a [`ClaimInstructions`].
pub struct ClaimInstructionsView {
    pub address: SocketAddress,
    pub token: Seq<u8>,
}

impl View for ClaimInstructions {
    type V = ClaimInstructionsView;

    open spec fn view(&self) -> ClaimInstructionsView {
        ClaimInstructionsView { address: self.address, token: self.token@ }
    }
}

/// A client connection that the server hands to an agent to accept.
#[derive(Clone)]
pub struct NewClient {
    pub connect_addr: SocketAddress,
    pub peer_addr: SocketAddress,
    pub claim_instructions: ClaimInstructions,
    pub tunnel_server_id: u64,
    pub data_center_id: u32,
}

/// The value of a [`NewClient`].
pub struct NewClientView {
    pub connect_addr: SocketAddress,
    pub peer_addr: SocketAddress,
    pub claim_instructions: ClaimInstructionsView,
    pub tunnel_server_id: u64,
    pub data_center_id: u32,
}

impl View for NewClient {
    type V = NewClientView;

    open spec fn view(&self) -> NewClientView {
        NewClientView {
            connect_addr: self.connect_addr,
            peer_addr: self.peer_addr,
            claim_instructions: self.claim_instructions@,
            tunnel_server_id: self.tunnel_server_id,
            data_center_id: self.data_center_id,
        }
    }
}

/// The response to an RPC request, matched to the request by its id. The
/// response body is carried as the bytes that encode it.
#[derive(Clone)]
pub struct ControlRpcMessage {
    pub request_id: u64,
    pub content: Vec<u8>,
}

/// The value of a [`ControlRpcMessage`].
pub struct ControlRpcMessageView {
    pub request_id: u64,
    pub content: Seq<u8>,
}

impl View for ControlRpcMessage {
    type V = ControlRpcMessageView;

    open spec fn view(&self) -> ControlRpcMessageView {
        ControlRpcMessageView { request_id: self.request_id, content: self.content@ }
    }
}

/// Whether the token is short enough for its length to be written in eight bytes.
pub open spec fn claim_wf(c: ClaimInstructionsView) -> bool {
    c.token.len() < pow256(8)
}

pub open spec fn new_client_wf(v: NewClientView) -> bool {
    claim_wf(v.claim_instructions)
}

pub open spec fn rpc_wf(m: ControlRpcMessageView) -> bool {
    m.content.len() < pow256(8)
}

/// The bytes of claim instructions: the address, then the token with its length in front.
pub open spec fn enc_claim(c: ClaimInstructionsView) -> Seq<u8> {
    enc_address(c.address) + enc_bytes(c.token)
}

/// Claim instructions at the start of `s`, and how many bytes they take.
pub open spec fn parse_claim(s: Seq<u8>) -> Result<(ClaimInstructionsView, nat), DecodeError> {
    match parse_address(s) {
        Err(e) => Err(e),
        Ok((address, n1)) => match parse_bytes(s.skip(n1 as int)) {
            Err(e) => Err(e),
            Ok((token, n2)) => Ok((ClaimInstructionsView { address, token }, n1 + n2)),
        },
    }
}

/// The bytes of a new client: both addresses, the claim instructions, the
/// tunnel server id in eight bytes and the data center id in four.
pub open spec fn enc_new_client(v: NewClientView) -> Seq<u8> {
    enc_address(v.connect_addr) + enc_address(v.peer_addr) + enc_claim(v.claim_instructions)
        + be_bytes(v.tunnel_server_id as nat, 8) + be_bytes(v.data_center_id as nat, 4)
}

/// A new client at the start of `s`, and how many bytes it takes.
pub open spec fn parse_new_client(s: Seq<u8>) -> Result<(NewClientView, nat), DecodeError> {
    match parse_address(s) {
        Err(e) => Err(e),
        Ok((connect_addr, n1)) => match parse_address(s.skip(n1 as int)) {
            Err(e) => Err(e),
            Ok((peer_addr, n2)) => match parse_claim(s.skip((n1 + n2) as int)) {
                Err(e) => Err(e),
                Ok((claim_instructions, n3)) => match parse_uint(s.skip((n1 + n2 + n3) as int), 8) {
                    Err(e) => Err(e),
                    Ok((tunnel_server_id, n4)) => match parse_uint(
                        s.skip((n1 + n2 + n3 + n4) as int),
                        4,
                    ) {
                        Err(e) => Err(e),
                        Ok((data_center_id, n5)) => Ok(
                            (
                                NewClientView {
                                    connect_addr,
                                    peer_addr,
                                    claim_instructions,
                                    tunnel_server_id: tunnel_server_id as u64,
                                    data_center_id: data_center_id as u32,
                                },
                                n1 + n2 + n3 + n4 + n5,
                            ),
                        ),
                    },
                },
            },
        },
    }
}

/// The bytes of an RPC response: the request id in eight bytes, then the body
/// with its length in front.
pub open spec fn enc_rpc(m: ControlRpcMessageView) -> Seq<u8> {
    be_bytes(m.request_id as nat, 8) + enc_bytes(m.content)
}

/// An RPC response at the start of `s`, and how many bytes it takes.
pub open spec fn parse_rpc(s: Seq<u8>) -> Result<(ControlRpcMessageView, nat), DecodeError> {
    match parse_uint(s, 8) {
        Err(e) => Err(e),
        Ok((request_id, n1)) => match parse_bytes(s.skip(n1 as int)) {
            Err(e) => Err(e),
            Ok((content, n2)) => Ok(
                (ControlRpcMessageView { request_id: request_id as u64, content }, n1 + n2),
            ),
        },
    }
}

/// The lowercase hexadecimal digit of `d`, for `d < 16`.
pub open spec fn hex_digit(d: u8) -> char {
    if d < 10 {
        ((48 + d) as u8) as char
    } else {
        ((87 + d) as u8) as char
    }
}

/// Two lowercase hexadecimal digits for each byte of `s`, high half first.
pub open spec fn hex_of(s: Seq<u8>) -> Seq<char>
    decreases s.len(),
{
    if s.len() == 0 {
        Seq::empty()
    } else {
        hex_of(s.drop_last()) + seq![hex_digit(s.last() / 16), hex_digit(s.last() % 16)]
    }
}

/// Relies on `hex::encode`: each byte becomes two digits of `0123456789abcdef`,
/// the high half first.
#[verifier::external_body]
fn hex_encode(b: &[u8]) -> (r: String)
    ensures
        r@ == hex_of(b@),
{
    hex::encode(b)
}

/// Whether two byte slices hold the same bytes.
fn same_bytes(a: &[u8], b: &[u8]) -> (r: bool)
    ensures
        r == (a@ == b@),
{
    if a.len() != b.len() {
        return false;
    }
    let mut i: usize = 0;
    while i < a.len()
        invariant
            a@.len() == b@.len(),
            i <= a@.len(),
            forall|j: int| 0 <= j < i ==> a@[j] == b@[j],
        decreases a@.len() - i,
    {
        if a[i] != b[i] {
            return false;
        }
        i = i + 1;
    }
    proof {
        assert(a@ =~= b@);
    }
    true
}

impl PartialEq for ClaimInstructions {
    fn eq(&self, other: &ClaimInstructions) -> (r: bool) {
        self.address == other.address && same_bytes(&self.token, &other.token)
    }
}

impl vstd::std_specs::cmp::PartialEqSpecImpl for ClaimInstructions {
    open spec fn obeys_eq_spec() -> bool {
        true
    }

    open spec fn eq_spec(&self, other: &ClaimInstructions) -> bool {
        self@ == other@
    }
}

impl Eq for ClaimInstructions {

}

impl PartialEq for NewClient {
    fn eq(&self, other: &NewClient) -> (r: bool) {
        self.connect_addr == other.connect_addr && self.peer_addr == other.peer_addr
            && self.claim_instructions.eq(&other.claim_instructions) && self.tunnel_server_id
            == other.tunnel_server_id && self.data_center_id == other.data_center_id
    }
}

impl vstd::std_specs::cmp::PartialEqSpecImpl for NewClient {
    open spec fn obeys_eq_spec() -> bool {
        true
    }

    open spec fn eq_spec(&self, other: &NewClient) -> bool {
        self@ == other@
    }
}

impl Eq for NewClient {

}

impl PartialEq for ControlRpcMessage {
    fn eq(&self, other: &ControlRpcMessage) -> (r: bool) {
        self.request_id == other.request_id && same_bytes(&self.content, &other.content)
    }
}

impl vstd::std_specs::cmp::PartialEqSpecImpl for ControlRpcMessage {
    open spec fn obeys_eq_spec() -> bool {
        true
    }

    open spec fn eq_spec(&self, other: &ControlRpcMessage) -> bool {
        self@ == other@
    }
}

impl Eq for ControlRpcMessage {

}

/// Claim instructions written and followed by anything read back as themselves.
pub proof fn lemma_claim_round_trip(c: ClaimInstructionsView, rest: Seq<u8>)
    requires
        claim_wf(c),
    ensures
        parse_claim(enc_claim(c) + rest) == Ok::<(ClaimInstructionsView, nat), DecodeError>(
            (c, enc_claim(c).len()),
        ),
{
    let (a, t) = (enc_address(c.address), enc_bytes(c.token));
    let s = enc_claim(c) + rest;
    assert(s =~= a + (t + rest));
    lemma_address_round_trip(c.address, t + rest);
    assert(s.skip(a.len() as int) =~= t + rest);
    lemma_bytes_round_trip(c.token, rest);
}

/// The token is carried byte for byte, whatever bytes it holds (none, or
/// bytes that are no text): what is read back is exactly what was written.
pub proof fn lemma_token_carried_exactly(c: ClaimInstructionsView, rest: Seq<u8>)
    requires
        claim_wf(c),
    ensures
        parse_claim(enc_claim(c) + rest) matches Ok((d, _)) && d.token == c.token,
{
    lemma_claim_round_trip(c, rest);
}

/// Every strict prefix of written claim instructions ends too early.
pub proof fn lemma_claim_truncated(c: ClaimInstructionsView, k: nat)
    requires
        claim_wf(c),
        k < enc_claim(c).len(),
    ensures
        parse_claim(enc_claim(c).take(k as int)) == Err::<(ClaimInstructionsView, nat), DecodeError>(
            DecodeError::UnexpectedEnd,
        ),
{
    let (a, t) = (enc_address(c.address), enc_bytes(c.token));
    let s = enc_claim(c).take(k as int);
    if k < a.len() {
        assert(s =~= a.take(k as int));
        lemma_address_truncated(c.address, k);
    } else {
        let j = (k - a.len()) as nat;
        assert(s =~= a + t.take(j as int));
        lemma_address_round_trip(c.address, t.take(j as int));
        assert(s.skip(a.len() as int) =~= t.take(j as int));
        lemma_bytes_truncated(c.token, j);
    }
}

/// A new client written and followed by anything reads back as itself.
pub proof fn lemma_new_client_round_trip(v: NewClientView, rest: Seq<u8>)
    requires
        new_client_wf(v),
    ensures
        parse_new_client(enc_new_client(v) + rest) == Ok::<(NewClientView, nat), DecodeError>(
            (v, enc_new_client(v).len()),
        ),
{
    lemma_pow256_widths();
    let a = enc_address(v.connect_addr);
    let b = enc_address(v.peer_addr);
    let c = enc_claim(v.claim_instructions);
    let t = be_bytes(v.tunnel_server_id as nat, 8);
    let d = be_bytes(v.data_center_id as nat, 4);
    lemma_be_bytes_len(v.tunnel_server_id as nat, 8);
    lemma_be_bytes_len(v.data_center_id as nat, 4);
    let (la, lb, lc) = (a.len() as int, b.len() as int, c.len() as int);
    let r4 = d + rest;
    let r3 = t + r4;
    let r2 = c + r3;
    let r1 = b + r2;
    let s = enc_new_client(v) + rest;
    assert(s =~= a + r1);
    assert(parse_address(s) == Ok::<(SocketAddress, nat), DecodeError>(
        (v.connect_addr, la as nat),
    )) by {
        lemma_address_round_trip(v.connect_addr, r1);
    }
    assert(parse_address(s.skip(la)) == Ok::<(SocketAddress, nat), DecodeError>(
        (v.peer_addr, lb as nat),
    )) by {
        assert(s.skip(la) =~= r1);
        lemma_address_round_trip(v.peer_addr, r2);
    }
    assert(parse_claim(s.skip(la + lb)) == Ok::<(ClaimInstructionsView, nat), DecodeError>(
        (v.claim_instructions, lc as nat),
    )) by {
        assert(s.skip(la + lb) =~= r2);
        lemma_claim_round_trip(v.claim_instructions, r3);
    }
    assert(parse_uint(s.skip(la + lb + lc), 8) == Ok::<(nat, nat), DecodeError>(
        (v.tunnel_server_id as nat, 8),
    )) by {
        assert(s.skip(la + lb + lc) =~= r3);
        lemma_uint_round_trip(v.tunnel_server_id as nat, 8, r4);
    }
    assert(parse_uint(s.skip(la + lb + lc + 8), 4) == Ok::<(nat, nat), DecodeError>(
        (v.data_center_id as nat, 4),
    )) by {
        assert(s.skip(la + lb + lc + 8) =~= r4);
        lemma_uint_round_trip(v.data_center_id as nat, 4, rest);
    }
}

/// Every strict prefix of a written new client ends too early, so no
/// partly filled new client is ever read.
pub proof fn lemma_new_client_truncated(v: NewClientView, k: nat)
    requires
        new_client_wf(v),
        k < enc_new_client(v).len(),
    ensures
        parse_new_client(enc_new_client(v).take(k as int)) == Err::<(NewClientView, nat), DecodeError>(
            DecodeError::UnexpectedEnd,
        ),
{
    lemma_pow256_widths();
    let a = enc_address(v.connect_addr);
    let b = enc_address(v.peer_addr);
    let c = enc_claim(v.claim_instructions);
    let t = be_bytes(v.tunnel_server_id as nat, 8);
    let d = be_bytes(v.data_center_id as nat, 4);
    lemma_be_bytes_len(v.tunnel_server_id as nat, 8);
    lemma_be_bytes_len(v.data_center_id as nat, 4);
    let e = enc_new_client(v);
    assert(e =~= a + b + c + t + d);
    let s = e.take(k as int);
    let (la, lb, lc) = (a.len() as int, b.len() as int, c.len() as int);
    let end = DecodeError::UnexpectedEnd;
    if k < la {
        assert(parse_address(s) == Err::<(SocketAddress, nat), DecodeError>(end)) by {
            assert(s =~= a.take(k as int));
            lemma_address_truncated(v.connect_addr, k);
        }
        return;
    }
    assert(parse_address(s) == Ok::<(SocketAddress, nat), DecodeError>(
        (v.connect_addr, la as nat),
    )) by {
        assert(s =~= a + s.skip(la));
        lemma_address_round_trip(v.connect_addr, s.skip(la));
    }
    if k < la + lb {
        assert(parse_address(s.skip(la)) == Err::<(SocketAddress, nat), DecodeError>(end)) by {
            assert(s.skip(la) =~= b.take(k - la));
            lemma_address_truncated(v.peer_addr, (k - la) as nat);
        }
        return;
    }
    assert(parse_address(s.skip(la)) == Ok::<(SocketAddress, nat), DecodeError>(
        (v.peer_addr, lb as nat),
    )) by {
        assert(s.skip(la) =~= b + s.skip(la + lb));
        lemma_address_round_trip(v.peer_addr, s.skip(la + lb));
    }
    if k < la + lb + lc {
        assert(parse_claim(s.skip(la + lb)) == Err::<(ClaimInstructionsView, nat), DecodeError>(
            end,
        )) by {
            assert(s.skip(la + lb) =~= c.take(k - la - lb));
            lemma_claim_truncated(v.claim_instructions, (k - la - lb) as nat);
        }
        return;
    }
    assert(parse_claim(s.skip(la + lb)) == Ok::<(ClaimInstructionsView, nat), DecodeError>(
        (v.claim_instructions, lc as nat),
    )) by {
        assert(s.skip(la + lb) =~= c + s.skip(la + lb + lc));
        lemma_claim_round_trip(v.claim_instructions, s.skip(la + lb + lc));
    }
    if k >= la + lb + lc + 8 {
        assert(parse_uint(s.skip(la + lb + lc), 8) == Ok::<(nat, nat), DecodeError>(
            (v.tunnel_server_id as nat, 8),
        )) by {
            assert(s.skip(la + lb + lc) =~= t + s.skip(la + lb + lc + 8));
            lemma_uint_round_trip(v.tunnel_server_id as nat, 8, s.skip(la + lb + lc + 8));
        }
    }
}

/// An RPC response written and followed by anything reads back as itself.
pub proof fn lemma_rpc_round_trip(m: ControlRpcMessageView, rest: Seq<u8>)
    requires
        rpc_wf(m),
    ensures
        parse_rpc(enc_rpc(m) + rest) == Ok::<(ControlRpcMessageView, nat), DecodeError>(
            (m, enc_rpc(m).len()),
        ),
{
    lemma_pow256_widths();
    let i = be_bytes(m.request_id as nat, 8);
    lemma_be_bytes_len(m.request_id as nat, 8);
    let s = enc_rpc(m) + rest;
    assert(s =~= i + (enc_bytes(m.content) + rest));
    lemma_uint_round_trip(m.request_id as nat, 8, enc_bytes(m.content) + rest);
    assert(s.skip(8) =~= enc_bytes(m.content) + rest);
    lemma_bytes_round_trip(m.content, rest);
}

impl ClaimInstructions {
    /// Appends the address, then the token with its length in front.
    pub fn write_to(&self, out: &mut Vec<u8>)
        ensures
            final(out)@ == old(out)@ + enc_claim(self@),
    {
        self.address.write_to(out);
        write_bytes(out, self.token.as_slice());
        proof {
            assert(out@ =~= old(out)@ + enc_claim(self@));
        }
    }

    /// Reads claim instructions at `pos`, and returns them with the position after them.
    pub fn read_from(buf: &[u8], pos: usize) -> (r: Result<(ClaimInstructions, usize), DecodeError>)
        requires
            pos <= buf@.len(),
        ensures
            match parse_claim(buf@.skip(pos as int)) {
                Ok((c, n)) => r matches Ok((v, next)) && v@ == c && next == pos + n,
                Err(e) => r matches Err(f) && f == e,
            },
            r matches Ok((_, next)) ==> next <= buf@.len(),
    {
        let ghost s = buf@.skip(pos as int);
        let (address, p) = SocketAddress::read_from(buf, pos)?;
        proof {
            assert(buf@.skip(p as int) =~= s.skip(p - pos));
        }
        let (token, p) = read_bytes(buf, p)?;
        Ok((ClaimInstructions { address, token }, p))
    }

    /// The token as lowercase hexadecimal, two digits for each byte.
    pub fn token_hex(&self) -> (r: String)
        ensures
            r@ == hex_of(self.token@),
    {
        hex_encode(self.token.as_slice())
    }

    /// The diagnostic rendering of these instructions, given the text of the
    /// address: the token is shown in hexadecimal, never as raw bytes.
    pub fn debug_text(&self, address_text: &str) -> (r: String)
        ensures
            r@ == "ClaimInstructions { address: "@ + address_text@ + ", token: "@ + hex_of(
                self.token@,
            ) + " }"@,
    {
        let mut r = String::from_str("ClaimInstructions { address: ");
        r.append(address_text);
        r.append(", token: ");
        let h = self.token_hex();
        r.append(h.as_str());
        r.append(" }");
        r
    }
}

impl NewClient {
    /// Appends both addresses, the claim instructions, the tunnel server id
    /// and the data center id, in that order.
    pub fn write_to(&self, out: &mut Vec<u8>)
        ensures
            final(out)@ == old(out)@ + enc_new_client(self@),
    {
        proof {
            lemma_pow256_widths();
        }
        self.connect_addr.write_to(out);
        self.peer_addr.write_to(out);
        self.claim_instructions.write_to(out);
        write_uint(out, self.tunnel_server_id as u128, 8);
        write_uint(out, self.data_center_id as u128, 4);
        proof {
            assert(out@ =~= old(out)@ + enc_new_client(self@));
        }
    }

    /// Reads a new client at `pos`, and returns it with the position after it.
    pub fn read_from(buf: &[u8], pos: usize) -> (r: Result<(NewClient, usize), DecodeError>)
        requires
            pos <= buf@.len(),
        ensures
            match parse_new_client(buf@.skip(pos as int)) {
                Ok((c, n)) => r matches Ok((v, next)) && v@ == c && next == pos + n,
                Err(e) => r matches Err(f) && f == e,
            },
            r matches Ok((_, next)) ==> next <= buf@.len(),
    {
        proof {
            lemma_pow256_widths();
        }
        let ghost s = buf@.skip(pos as int);
        let (connect_addr, p) = SocketAddress::read_from(buf, pos)?;
        proof {
            assert(buf@.skip(p as int) =~= s.skip(p - pos));
        }
        let (peer_addr, p) = SocketAddress::read_from(buf, p)?;
        proof {
            assert(buf@.skip(p as int) =~= s.skip(p - pos));
        }
        let (claim_instructions, p) = ClaimInstructions::read_from(buf, p)?;
        proof {
            assert(buf@.skip(p as int) =~= s.skip(p - pos));
        }
        let (tunnel_server_id, p) = read_uint(buf, p, 8)?;
        proof {
            assert(buf@.skip(p as int) =~= s.skip(p - pos));
        }
        let (data_center_id, p) = read_uint(buf, p, 4)?;
        let client = NewClient {
            connect_addr,
            peer_addr,
            claim_instructions,
            tunnel_server_id: tunnel_server_id as u64,
            data_center_id: data_center_id as u32,
        };
        Ok((client, p))
    }
}

impl ControlRpcMessage {
    /// Appends the request id, then the body with its length in front.
    pub fn write_to(&self, out: &mut Vec<u8>)
        ensures
            final(out)@ == old(out)@ + enc_rpc(self@),
    {
        proof {
            lemma_pow256_widths();
        }
        write_uint(out, self.request_id as u128, 8);
        write_bytes(out, self.content.as_slice());
        proof {
            assert(out@ =~= old(out)@ + enc_rpc(self@));
        }
    }

    /// Reads an RPC response at `pos`, and returns it with the position after it.
    pub fn read_from(buf: &[u8], pos: usize) -> (r: Result<(ControlRpcMessage, usize), DecodeError>)
        requires
            pos <= buf@.len(),
        ensures
            match parse_rpc(buf@.skip(pos as int)) {
                Ok((m, n)) => r matches Ok((v, next)) && v@ == m && next == pos + n,
                Err(e) => r matches Err(f) && f == e,
            },
            r matches Ok((_, next)) ==> next <= buf@.len(),
    {
        proof {
            lemma_pow256_widths();
        }
        let ghost s = buf@.skip(pos as int);
        let (request_id, p) = read_uint(buf, pos, 8)?;
        proof {
            assert(buf@.skip(p as int) =~= s.skip(p - pos));
        }
        let (content, p) = read_bytes(buf, p)?;
        Ok((ControlRpcMessage { request_id: request_id as u64, content }, p))
    }
}

} // verus!
