use log_entry::bloom::LogBloom;
use log_entry::json::FromJsonError;
use log_entry::keccak::keccak256;
use log_entry::log_entry::LogEntry;
use log_entry::rlp::rlp_decode;
use log_entry::types::{Address, H256};

fn hx(s: &str) -> Vec<u8> {
    log_entry::hex::decode_hex_field(&s.as_bytes().to_vec()).unwrap()
}

fn addr(s: &str) -> Address {
    Address::from_bytes(hx(s)).unwrap()
}

fn topic(s: &str) -> H256 {
    H256::from_bytes(hx(s)).unwrap()
}

const ADDR: &str = "0f572e5295c57f15886f9b263e2f6d2d6c7b5ec6";
const T1: &str = "0000000000000000000000000000000000000000000000000000000000000001";
const T2: &str = "00000000000000000000000000000000000000000000000000000000000000ff";
const T3: &str = "a000000000000000000000000000000000000000000000000000000000000b0b";

#[test]
fn test_empty_log_bloom() {
    let bloom = LogBloom::from_bytes(hx("00000000000000000000000000000000000000000000000000000000000000000000000000000000000000000000000000000000000000000000000000000000000000000000000000000000000000000000000000000000000008800000000000000000000000000000000000000000000000000000000000000000000000000000000000000000000000000000000000000000000000000000000000000000000000000000000000000000000000000000000000000000000000000000000000000000000000000000800000000000000000000000000000000000000000000000000000000000000000000000000000000000000000000000000000000000")).unwrap();
    let address = addr(ADDR);
    let log = LogEntry::new(address, vec![], vec![]);
    assert_eq!(log.bloom(), bloom);
}

#[test]
fn bloom_ignores_topic_order() {
    let e1 = LogEntry::new(addr(ADDR), vec![topic(T1), topic(T2), topic(T3)], vec![1, 2, 3]);
    let e2 = LogEntry::new(addr(ADDR), vec![topic(T3), topic(T1), topic(T2)], vec![1, 2, 3]);
    assert_eq!(e1.bloom(), e2.bloom());
}

#[test]
fn bloom_monotonic_under_extra_topic() {
    let e1 = LogEntry::new(addr(ADDR), vec![topic(T1), topic(T2)], vec![]);
    let e2 = LogEntry::new(addr(ADDR), vec![topic(T1), topic(T2), topic(T3)], vec![]);
    let b1 = e1.bloom();
    let b2 = e2.bloom();
    for k in 0..256 {
        let x = b1.bytes()[k];
        let y = b2.bytes()[k];
        assert_eq!(x & y, x, "bit cleared at byte {}", k);
    }
}

#[test]
fn bloom_has_no_false_negatives() {
    let e = LogEntry::new(addr(ADDR), vec![topic(T1), topic(T2), topic(T3)], vec![]);
    let b = e.bloom();
    assert!(b.contains_bloomed(&keccak256(e.address().bytes())));
    for t in e.topics() {
        assert!(b.contains_bloomed(&keccak256(t.bytes())));
    }
}

#[test]
fn bloom_primitives_union() {
    let h = keccak256(&b"abc".to_vec());
    let seeded = LogBloom::from_bloomed(&h);
    assert!(seeded.contains_bloomed(&h));
    assert!(!LogBloom::zero().contains_bloomed(&h));
    let h2 = keccak256(&b"def".to_vec());
    let both = seeded.clone().with_bloomed(&h2);
    assert!(both.contains_bloomed(&h));
    assert!(both.contains_bloomed(&h2));
}

#[test]
fn keccak_known_digest() {
    let empty: Vec<u8> = vec![];
    let d = keccak256(&empty);
    assert_eq!(
        d.bytes().clone(),
        hx("c5d2460186f7233c927e7db2dcc703c0e500b653ca82273b7bfad8045d85a470")
    );
}

#[test]
fn rlp_exact_bytes_empty_entry() {
    let e = LogEntry::new(addr(ADDR), vec![], vec![]);
    let mut expected = vec![0xd7u8, 0x94];
    expected.extend_from_slice(&hx(ADDR));
    expected.push(0xc0);
    expected.push(0x80);
    assert_eq!(e.rlp_bytes(), expected);
}

#[test]
fn rlp_exact_bytes_one_topic() {
    let e = LogEntry::new(addr(ADDR), vec![topic(T1)], vec![0x01]);
    // payload: 0x94 + 20 addr bytes, list of one topic (0xe1, 0xa0, 32 bytes),
    // data 0x01 as a bare byte: 21 + 34 + 1 = 56 > 55, so a long list header.
    let mut expected = vec![0xf8u8, 56, 0x94];
    expected.extend_from_slice(&hx(ADDR));
    expected.push(0xe1);
    expected.push(0xa0);
    expected.extend_from_slice(&hx(T1));
    expected.push(0x01);
    assert_eq!(e.rlp_bytes(), expected);
}

#[test]
fn rlp_round_trip() {
    let long_data: Vec<u8> = (0..300u32).map(|x| (x % 251) as u8).collect();
    let cases = vec![
        LogEntry::new(addr(ADDR), vec![], vec![]),
        LogEntry::new(addr(ADDR), vec![topic(T1)], vec![]),
        LogEntry::new(addr(ADDR), vec![topic(T1), topic(T2), topic(T3)], vec![0xde, 0xad]),
        LogEntry::new(addr(ADDR), vec![], vec![0x7f]),
        LogEntry::new(addr(ADDR), vec![], vec![0x80]),
        LogEntry::new(addr(ADDR), vec![topic(T2)], long_data),
    ];
    for e in cases {
        let bytes = e.rlp_bytes();
        let back = rlp_decode(&bytes).expect("canonical encoding must decode");
        assert_eq!(back, e);
    }
}

#[test]
fn rlp_append_appends_in_place() {
    let e = LogEntry::new(addr(ADDR), vec![], vec![]);
    let mut out = vec![0xaa, 0xbb];
    e.rlp_append(&mut out);
    assert_eq!(out[0], 0xaa);
    assert_eq!(out[1], 0xbb);
    assert_eq!(out[2..].to_vec(), e.rlp_bytes());
}

#[test]
fn rlp_decode_rejects_junk() {
    assert!(rlp_decode(&vec![]).is_none());
    assert!(rlp_decode(&vec![0x00]).is_none());
    // a valid encoding with one trailing byte
    let e = LogEntry::new(addr(ADDR), vec![], vec![]);
    let mut bytes = e.rlp_bytes();
    bytes.push(0x00);
    assert!(rlp_decode(&bytes).is_none());
    // truncated
    let mut bytes2 = e.rlp_bytes();
    bytes2.pop();
    assert!(rlp_decode(&bytes2).is_none());
}

#[test]
fn rlp_is_sensitive_to_topic_order() {
    let e1 = LogEntry::new(addr(ADDR), vec![topic(T1), topic(T2)], vec![]);
    let e2 = LogEntry::new(addr(ADDR), vec![topic(T2), topic(T1)], vec![]);
    assert_ne!(e1.rlp_bytes(), e2.rlp_bytes());
}

#[test]
fn rlp_decode_known_bytes() {
    let mut bytes = vec![0xd9u8, 0x94];
    bytes.extend_from_slice(&hx(ADDR));
    bytes.push(0xc0);
    bytes.push(0x82);
    bytes.push(0xbe);
    bytes.push(0xef);
    let e = rlp_decode(&bytes).unwrap();
    assert_eq!(e, LogEntry::new(addr(ADDR), vec![], vec![0xbe, 0xef]));
}

#[test]
fn rlp_decode_rejects_non_canonical_data() {
    // data holding the single byte 0x00 must stand bare, not behind 0x81
    let mut canonical = vec![0xd7u8, 0x94];
    canonical.extend_from_slice(&hx(ADDR));
    canonical.push(0xc0);
    canonical.push(0x00);
    assert_eq!(
        rlp_decode(&canonical).unwrap(),
        LogEntry::new(addr(ADDR), vec![], vec![0x00])
    );
    let mut padded = vec![0xd8u8, 0x94];
    padded.extend_from_slice(&hx(ADDR));
    padded.push(0xc0);
    padded.push(0x81);
    padded.push(0x00);
    assert!(rlp_decode(&padded).is_none());
}

#[test]
fn fixed_width_types_check_lengths() {
    assert!(Address::from_bytes(vec![0u8; 20]).is_some());
    assert!(Address::from_bytes(vec![0u8; 19]).is_none());
    assert!(Address::from_bytes(vec![0u8; 21]).is_none());
    assert!(H256::from_bytes(vec![0u8; 32]).is_some());
    assert!(H256::from_bytes(vec![0u8; 31]).is_none());
    assert!(LogBloom::from_bytes(vec![0u8; 256]).is_some());
    assert!(LogBloom::from_bytes(vec![0u8; 255]).is_none());
}

#[test]
fn accessors_return_fields() {
    let e = LogEntry::new(addr(ADDR), vec![topic(T1)], vec![9]);
    assert_eq!(e.address(), &addr(ADDR));
    assert_eq!(e.topics().len(), 1);
    assert_eq!(e.topics()[0], topic(T1));
    assert_eq!(e.data(), &vec![9u8]);
}
