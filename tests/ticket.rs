use starlink::error::SessionError;
use starlink::store::BlobFormat;
use starlink::ticket::{EndpointAddr, NodeAddress, Ticket};

fn sample_ticket() -> Ticket {
    let mut hash = [0u8; 32];
    for (i, b) in hash.iter_mut().enumerate() {
        *b = i as u8;
    }
    let mut ip = [0u8; 16];
    ip[10] = 0xff;
    ip[11] = 0xff;
    ip[12] = 127;
    ip[15] = 1;
    let owner = NodeAddress {
        id: [0xaa; 32],
        relay: None,
        direct: vec![EndpointAddr { ip, port: 8080 }],
    };
    Ticket::new(owner, hash, BlobFormat::Raw).unwrap()
}

fn relay_ticket() -> Ticket {
    let owner = NodeAddress {
        id: [3u8; 32],
        relay: Some(b"https://relay.example/".to_vec()),
        direct: vec![
            EndpointAddr { ip: [1u8; 16], port: 1 },
            EndpointAddr { ip: [2u8; 16], port: 65535 },
        ],
    };
    Ticket::new(owner, [9u8; 32], BlobFormat::Collection).unwrap()
}

const SAMPLE_UNSEALED: &str = "736c0000005c00000102030405060708090a0b0c0d0e0f101112131415161718191a1b1c1d1e1faaaaaaaaaaaaaaaaaaaaaaaaaaaaaaaaaaaaaaaaaaaaaaaaaaaaaaaaaaaaaaaa00000100000000000000000000ffff7f0000011f90";

fn hex(bytes: &[u8]) -> String {
    bytes.iter().map(|b| format!("{:02x}", b)).collect()
}

fn unhex(text: &str) -> Vec<u8> {
    (0..text.len() / 2)
        .map(|i| u8::from_str_radix(&text[2 * i..2 * i + 2], 16).unwrap())
        .collect()
}

/// Seals unsealed frame bytes: BLAKE3 digest, then the byte sum mod 256.
fn seal(mut bytes: Vec<u8>) -> String {
    let digest = blake3::hash(&bytes);
    bytes.extend_from_slice(digest.as_bytes());
    let sum: u32 = bytes.iter().map(|b| *b as u32).sum();
    bytes.push((sum % 256) as u8);
    hex(&bytes)
}

fn sample_text() -> String {
    seal(unhex(SAMPLE_UNSEALED))
}

#[test]
fn serialize_exact_text() {
    assert_eq!(sample_ticket().serialize(), sample_text());
}

#[test]
fn deserialize_serialize_round_trip() {
    for t in [sample_ticket(), relay_ticket()] {
        let text = t.serialize();
        assert_eq!(Ticket::deserialize(&text), Ok(t));
    }
}

#[test]
fn round_trip_without_addresses() {
    let owner = NodeAddress { id: [0u8; 32], relay: None, direct: Vec::new() };
    let t = Ticket::new(owner, [0u8; 32], BlobFormat::Raw).unwrap();
    let text = t.serialize();
    assert_eq!(text.len(), 214);
    assert_eq!(Ticket::deserialize(&text), Ok(t));
}

#[test]
fn truncated_text_is_refused() {
    let text = relay_ticket().serialize();
    for k in 0..text.len() {
        assert_eq!(Ticket::deserialize(&text[..k]), Err(SessionError::Protocol), "prefix {}", k);
    }
}

#[test]
fn altered_character_is_refused() {
    let text = sample_text();
    assert_eq!(Ticket::deserialize(&text), Ok(sample_ticket()));
    let chars: Vec<char> = text.chars().collect();
    for i in 0..chars.len() {
        for c in ['0', '7', 'a', 'f', 'g', 'A', ' '] {
            if c == chars[i] {
                continue;
            }
            let mut altered = chars.clone();
            altered[i] = c;
            let s: String = altered.into_iter().collect();
            assert_eq!(Ticket::deserialize(&s), Err(SessionError::Protocol), "position {}", i);
        }
    }
}

#[test]
fn unknown_format_is_refused() {
    // format byte set to 2, resealed so that only the format is wrong
    let mut bytes = unhex(SAMPLE_UNSEALED);
    bytes[6] = 2;
    assert_eq!(Ticket::deserialize(&seal(bytes)), Err(SessionError::Protocol));
}

#[test]
fn swapped_bytes_are_refused() {
    // two hash bytes trade places: the byte sum still matches, the seal does not
    let text = sample_text();
    let mut bytes = unhex(&text);
    bytes.swap(7, 8);
    assert_eq!(Ticket::deserialize(&hex(&bytes)), Err(SessionError::Protocol));
    let mut bytes = unhex(&text);
    bytes.swap(39, 71);
    assert_eq!(Ticket::deserialize(&hex(&bytes)), Err(SessionError::Protocol));
}

#[test]
fn resealed_frame_is_accepted() {
    let mut bytes = unhex(SAMPLE_UNSEALED);
    bytes[7] = 0xee;
    let t = Ticket::deserialize(&seal(bytes)).unwrap();
    assert_eq!(t.hash()[0], 0xee);
}

#[test]
fn non_ticket_text_is_refused() {
    assert_eq!(Ticket::deserialize(""), Err(SessionError::Protocol));
    assert_eq!(Ticket::deserialize("hello"), Err(SessionError::Protocol));
    assert_eq!(
        Ticket::deserialize(&sample_text().to_uppercase()),
        Err(SessionError::Protocol)
    );
    let extended = format!("{}00", sample_text());
    assert_eq!(Ticket::deserialize(&extended), Err(SessionError::Protocol));
}

#[test]
fn ticket_accessors() {
    let t = relay_ticket();
    assert_eq!(t.hash(), [9u8; 32]);
    assert_eq!(t.node_addr().id, [3u8; 32]);
    assert!(t.fits());
}

#[test]
fn oversized_address_is_refused() {
    let owner = NodeAddress {
        id: [0u8; 32],
        relay: None,
        direct: vec![EndpointAddr { ip: [0u8; 16], port: 0 }; 65536],
    };
    assert_eq!(Ticket::new(owner, [0u8; 32], BlobFormat::Raw), Err(SessionError::Protocol));
}
