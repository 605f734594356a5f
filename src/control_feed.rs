//! The control feed: what a tunnel server pushes to an agent. A message is a
//! four-byte big-endian tag, 1 for an RPC response and 2 for a new client,
//! followed by the body of that variant.
use crate::messages::{
    enc_new_client, enc_rpc, lemma_new_client_round_trip, lemma_rpc_round_trip, new_client_wf,
    parse_new_client, parse_rpc, rpc_wf, ControlRpcMessage, ControlRpcMessageView, NewClient,
    NewClientView,
};
use crate::primitives::{
    be_bytes, lemma_be_bytes_len, lemma_pow256_widths, lemma_uint_round_trip, parse_uint,
    read_uint, write_uint, DecodeError,
};
use vstd::prelude::*;

verus! {

/// The tag of a feed message that carries an RPC response.
pub const RESPONSE_TAG: u32 = 1;

/// The tag of a feed message that carries a new client.
pub const NEW_CLIENT_TAG: u32 = 2;

/// One message of the control feed.
pub enum ControlFeed {
    Response(ControlRpcMessage),
    NewClient(NewClient),
}

/// The value of a [`ControlFeed`].
pub enum ControlFeedView {
    Response(ControlRpcMessageView),
    NewClient(NewClientView),
}

impl View for ControlFeed {
    type V = ControlFeedView;

    open spec fn view(&self) -> ControlFeedView {
        match self {
            ControlFeed::Response(m) => ControlFeedView::Response(m@),
            ControlFeed::NewClient(c) => ControlFeedView::NewClient(c@),
        }
    }
}

/// Whether every byte sequence in the message is short enough for its length
/// to be written in eight bytes.
pub open spec fn feed_wf(f: ControlFeedView) -> bool {
    match f {
        ControlFeedView::Response(m) => rpc_wf(m),
        ControlFeedView::NewClient(c) => new_client_wf(c),
    }
}

/// The bytes of a feed message: its tag, then its body.
pub open spec fn enc_feed(f: ControlFeedView) -> Seq<u8> {
    match f {
        ControlFeedView::Response(m) => be_bytes(RESPONSE_TAG as nat, 4) + enc_rpc(m),
        ControlFeedView::NewClient(c) => be_bytes(NEW_CLIENT_TAG as nat, 4) + enc_new_client(c),
    }
}

/// The feed message at the start of `s`, and how many bytes it takes.
pub open spec fn parse_feed(s: Seq<u8>) -> Result<(ControlFeedView, nat), DecodeError> {
    match parse_uint(s, 4) {
        Err(e) => Err(e),
        Ok((tag, n)) => if tag == RESPONSE_TAG {
            match parse_rpc(s.skip(n as int)) {
                Err(e) => Err(e),
                Ok((m, k)) => Ok((ControlFeedView::Response(m), n + k)),
            }
        } else if tag == NEW_CLIENT_TAG {
            match parse_new_client(s.skip(n as int)) {
                Err(e) => Err(e),
                Ok((c, k)) => Ok((ControlFeedView::NewClient(c), n + k)),
            }
        } else {
            Err(DecodeError::InvalidFeedTag(tag as u32))
        },
    }
}

/// A feed message written and followed by anything reads back as itself, and
/// the reader stops right after it.
pub proof fn lemma_feed_round_trip(f: ControlFeedView, rest: Seq<u8>)
    requires
        feed_wf(f),
    ensures
        parse_feed(enc_feed(f) + rest) == Ok::<(ControlFeedView, nat), DecodeError>(
            (f, enc_feed(f).len()),
        ),
{
    lemma_pow256_widths();
    let s = enc_feed(f) + rest;
    match f {
        ControlFeedView::Response(m) => {
            let tag = be_bytes(RESPONSE_TAG as nat, 4);
            lemma_be_bytes_len(RESPONSE_TAG as nat, 4);
            assert(s =~= tag + (enc_rpc(m) + rest));
            lemma_uint_round_trip(RESPONSE_TAG as nat, 4, enc_rpc(m) + rest);
            assert(s.skip(4) =~= enc_rpc(m) + rest);
            lemma_rpc_round_trip(m, rest);
        },
        ControlFeedView::NewClient(c) => {
            let tag = be_bytes(NEW_CLIENT_TAG as nat, 4);
            lemma_be_bytes_len(NEW_CLIENT_TAG as nat, 4);
            assert(s =~= tag + (enc_new_client(c) + rest));
            lemma_uint_round_trip(NEW_CLIENT_TAG as nat, 4, enc_new_client(c) + rest);
            assert(s.skip(4) =~= enc_new_client(c) + rest);
            lemma_new_client_round_trip(c, rest);
        },
    }
}

/// A message whose tag is neither 1 nor 2 is refused with that tag, whatever follows it.
pub proof fn lemma_unknown_tag_refused(tag: u32, rest: Seq<u8>)
    requires
        tag != RESPONSE_TAG,
        tag != NEW_CLIENT_TAG,
    ensures
        parse_feed(be_bytes(tag as nat, 4) + rest) == Err::<(ControlFeedView, nat), DecodeError>(
            DecodeError::InvalidFeedTag(tag),
        ),
{
    lemma_pow256_widths();
    lemma_uint_round_trip(tag as nat, 4, rest);
}

/// Well-formed messages have the same bytes exactly when they are equal: the
/// encoding depends on the value alone, and no two values share it.
pub proof fn lemma_feed_encoding_deterministic(f: ControlFeedView, g: ControlFeedView)
    requires
        feed_wf(f),
        feed_wf(g),
    ensures
        f == g <==> enc_feed(f) == enc_feed(g),
{
    if enc_feed(f) == enc_feed(g) {
        lemma_feed_round_trip(f, Seq::empty());
        lemma_feed_round_trip(g, Seq::empty());
        assert(enc_feed(f) + Seq::empty() =~= enc_feed(f));
        assert(enc_feed(g) + Seq::empty() =~= enc_feed(g));
    }
}

impl ControlFeed {
    /// Appends the tag of the variant, then its body.
    pub fn write_to(&self, out: &mut Vec<u8>)
        ensures
            final(out)@ == old(out)@ + enc_feed(self@),
    {
        proof {
            lemma_pow256_widths();
        }
        match self {
            ControlFeed::Response(m) => {
                write_uint(out, RESPONSE_TAG as u128, 4);
                m.write_to(out);
            },
            ControlFeed::NewClient(c) => {
                write_uint(out, NEW_CLIENT_TAG as u128, 4);
                c.write_to(out);
            },
        }
        proof {
            assert(out@ =~= old(out)@ + enc_feed(self@));
        }
    }

    /// Reads a feed message at `pos`, and returns it with the position after it.
    /// An unknown tag is refused with [`DecodeError::InvalidFeedTag`].
    pub fn read_from(buf: &[u8], pos: usize) -> (r: Result<(ControlFeed, usize), DecodeError>)
        requires
            pos <= buf@.len(),
        ensures
            match parse_feed(buf@.skip(pos as int)) {
                Ok((f, n)) => r matches Ok((v, next)) && v@ == f && next == pos + n,
                Err(e) => r matches Err(g) && g == e,
            },
            r matches Ok((_, next)) ==> next <= buf@.len(),
    {
        proof {
            lemma_pow256_widths();
        }
        let ghost s = buf@.skip(pos as int);
        let (tag, p) = read_uint(buf, pos, 4)?;
        proof {
            assert(buf@.skip(p as int) =~= s.skip(4));
        }
        if tag == RESPONSE_TAG as u128 {
            let (m, p) = ControlRpcMessage::read_from(buf, p)?;
            Ok((ControlFeed::Response(m), p))
        } else if tag == NEW_CLIENT_TAG as u128 {
            let (c, p) = NewClient::read_from(buf, p)?;
            Ok((ControlFeed::NewClient(c), p))
        } else {
            Err(DecodeError::InvalidFeedTag(tag as u32))
        }
    }
}

impl PartialEq for ControlFeed {
    fn eq(&self, other: &ControlFeed) -> (r: bool) {
        match (self, other) {
            (ControlFeed::Response(a), ControlFeed::Response(b)) => a.eq(b),
            (ControlFeed::NewClient(a), ControlFeed::NewClient(b)) => a.eq(b),
            _ => false,
        }
    }
}

impl vstd::std_specs::cmp::PartialEqSpecImpl for ControlFeed {
    open spec fn obeys_eq_spec() -> bool {
        true
    }

    open spec fn eq_spec(&self, other: &ControlFeed) -> bool {
        self@ == other@
    }
}

impl Eq for ControlFeed {

}

} // verus!
