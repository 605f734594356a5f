use agent_proto::{
    ClaimInstructions, ControlFeed, ControlRpcMessage, DecodeError, NewClient, SocketAddress,
};

fn v4(a: u8, b: u8, c: u8, d: u8, port: u16) -> SocketAddress {
    SocketAddress::V4 { ip: u32::from_be_bytes([a, b, c, d]), port }
}

fn sample_client() -> NewClient {
    NewClient {
        connect_addr: v4(10, 0, 0, 1, 9000),
        peer_addr: v4(203, 0, 113, 5, 51010),
        claim_instructions: ClaimInstructions {
            address: v4(10, 0, 0, 1, 9001),
            token: vec![0xDE, 0xAD, 0xBE, 0xEF],
        },
        tunnel_server_id: 42,
        data_center_id: 7,
    }
}

fn encode_feed(feed: &ControlFeed) -> Vec<u8> {
    let mut out = Vec::new();
    feed.write_to(&mut out);
    out
}

fn encode_client(client: &NewClient) -> Vec<u8> {
    let mut out = Vec::new();
    client.write_to(&mut out);
    out
}

fn encode_claim(claim: &ClaimInstructions) -> Vec<u8> {
    let mut out = Vec::new();
    claim.write_to(&mut out);
    out
}

#[test]
fn new_client_feed_round_trip() {
    let feed = ControlFeed::NewClient(sample_client());
    let bytes = encode_feed(&feed);
    let (back, next) = ControlFeed::read_from(&bytes, 0).unwrap();
    assert!(back == feed);
    assert_eq!(next, bytes.len());
    match back {
        ControlFeed::NewClient(client) => {
            assert_eq!(client.claim_instructions.token_hex(), "deadbeef");
            assert_eq!(
                client.claim_instructions.debug_text("10.0.0.1:9001"),
                "ClaimInstructions { address: 10.0.0.1:9001, token: deadbeef }"
            );
        }
        ControlFeed::Response(_) => panic!("decoded the wrong variant"),
    }
}

#[test]
fn new_client_feed_exact_bytes() {
    let bytes = encode_feed(&ControlFeed::NewClient(sample_client()));
    let mut expected: Vec<u8> = vec![0, 0, 0, 2];
    expected.extend_from_slice(&[4, 10, 0, 0, 1, 0x23, 0x28]);
    expected.extend_from_slice(&[4, 203, 0, 113, 5, 0xC7, 0x42]);
    expected.extend_from_slice(&[4, 10, 0, 0, 1, 0x23, 0x29]);
    expected.extend_from_slice(&[0, 0, 0, 0, 0, 0, 0, 4, 0xDE, 0xAD, 0xBE, 0xEF]);
    expected.extend_from_slice(&[0, 0, 0, 0, 0, 0, 0, 42]);
    expected.extend_from_slice(&[0, 0, 0, 7]);
    assert_eq!(bytes, expected);
}

#[test]
fn response_feed_round_trip() {
    let feed = ControlFeed::Response(ControlRpcMessage {
        request_id: 0x0102_0304_0506_0708,
        content: vec![9, 8, 7],
    });
    let bytes = encode_feed(&feed);
    assert_eq!(
        bytes,
        vec![0, 0, 0, 1, 1, 2, 3, 4, 5, 6, 7, 8, 0, 0, 0, 0, 0, 0, 0, 3, 9, 8, 7]
    );
    let (back, next) = ControlFeed::read_from(&bytes, 0).unwrap();
    assert!(back == feed);
    assert_eq!(next, bytes.len());
}

#[test]
fn unknown_feed_tags_are_refused() {
    for tag in [0u32, 3, 0xFFFF_FFFF] {
        let mut bytes = tag.to_be_bytes().to_vec();
        bytes.extend_from_slice(&encode_client(&sample_client()));
        assert!(matches!(
            ControlFeed::read_from(&bytes, 0),
            Err(DecodeError::InvalidFeedTag(t)) if t == tag
        ));
    }
}

#[test]
fn equal_values_encode_alike() {
    let a = ControlFeed::NewClient(sample_client());
    let b = ControlFeed::NewClient(sample_client().clone());
    assert!(a == b);
    assert_eq!(encode_feed(&a), encode_feed(&b));
    let mut other = sample_client();
    other.data_center_id = 8;
    let c = ControlFeed::NewClient(other);
    assert!(a != c);
    assert_ne!(encode_feed(&a), encode_feed(&c));
}

#[test]
fn empty_and_binary_tokens_survive() {
    for token in [vec![], vec![0xFF, 0xFE, 0x00, 0x80], vec![0u8; 300]] {
        let claim = ClaimInstructions { address: v4(127, 0, 0, 1, 1), token: token.clone() };
        let bytes = encode_claim(&claim);
        let (back, next) = ClaimInstructions::read_from(&bytes, 0).unwrap();
        assert_eq!(back.token, token);
        assert!(back == claim);
        assert_eq!(next, bytes.len());
    }
}

#[test]
fn truncated_new_client_is_refused() {
    let bytes = encode_client(&sample_client());
    for k in 0..bytes.len() {
        assert!(matches!(
            NewClient::read_from(&bytes[..k], 0),
            Err(DecodeError::UnexpectedEnd)
        ));
    }
    let (back, next) = NewClient::read_from(&bytes, 0).unwrap();
    assert!(back == sample_client());
    assert_eq!(next, bytes.len());
}

#[test]
fn truncated_feed_is_refused() {
    let bytes = encode_feed(&ControlFeed::NewClient(sample_client()));
    for k in 0..bytes.len() {
        assert!(matches!(
            ControlFeed::read_from(&bytes[..k], 0),
            Err(DecodeError::UnexpectedEnd)
        ));
    }
}

#[test]
fn ipv6_addresses_round_trip() {
    let addr = SocketAddress::V6 { ip: 0x2001_0db8_0000_0000_0000_0000_0000_0001, port: 443 };
    let mut bytes = Vec::new();
    addr.write_to(&mut bytes);
    assert_eq!(bytes.len(), 19);
    assert_eq!(bytes[0], 6);
    assert_eq!(&bytes[1..5], &[0x20, 0x01, 0x0d, 0xb8]);
    assert_eq!(&bytes[17..], &[0x01, 0xBB]);
    let (back, next) = SocketAddress::read_from(&bytes, 0).unwrap();
    assert_eq!(back, addr);
    assert_eq!(next, 19);
}

#[test]
fn unknown_address_family_is_refused() {
    let mut bytes = encode_client(&sample_client());
    bytes[0] = 5;
    assert!(matches!(
        NewClient::read_from(&bytes, 0),
        Err(DecodeError::InvalidAddressFamily(5))
    ));
}

#[test]
fn reads_at_a_position_and_stops_after_the_value() {
    let first = ControlFeed::NewClient(sample_client());
    let second = ControlFeed::Response(ControlRpcMessage { request_id: 5, content: vec![] });
    let mut bytes = vec![0xAA];
    first.write_to(&mut bytes);
    let split = bytes.len();
    second.write_to(&mut bytes);
    let (a, p) = ControlFeed::read_from(&bytes, 1).unwrap();
    assert!(a == first);
    assert_eq!(p, split);
    let (b, q) = ControlFeed::read_from(&bytes, p).unwrap();
    assert!(b == second);
    assert_eq!(q, bytes.len());
    assert!(matches!(ControlFeed::read_from(&bytes, q), Err(DecodeError::UnexpectedEnd)));
}

#[test]
fn oversized_token_length_is_refused() {
    let mut bytes = Vec::new();
    v4(1, 2, 3, 4, 5).write_to(&mut bytes);
    bytes.extend_from_slice(&[0xFF; 8]);
    bytes.extend_from_slice(&[1, 2, 3]);
    assert!(matches!(
        ClaimInstructions::read_from(&bytes, 0),
        Err(DecodeError::UnexpectedEnd)
    ));
}

#[test]
fn token_hex_spells_every_byte() {
    let claim = ClaimInstructions {
        address: v4(0, 0, 0, 0, 0),
        token: vec![0x00, 0x0F, 0xA0, 0xFF, 0x5C],
    };
    assert_eq!(claim.token_hex(), "000fa0ff5c");
    let empty = ClaimInstructions { address: v4(0, 0, 0, 0, 0), token: vec![] };
    assert_eq!(empty.token_hex(), "");
    assert_eq!(empty.debug_text("0.0.0.0:0"), "ClaimInstructions { address: 0.0.0.0:0, token:  }");
}
