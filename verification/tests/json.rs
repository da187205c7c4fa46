use log_entry::json::{from_json_values, FromJsonError};
use log_entry::log_entry::LogEntry;

fn hx(s: &str) -> Vec<u8> {
    log_entry::hex::decode_hex_field(&s.as_bytes().to_vec()).unwrap()
}

fn text(s: &str) -> Vec<u8> {
    s.as_bytes().to_vec()
}

const ADDR: &str = "0f572e5295c57f15886f9b263e2f6d2d6c7b5ec6";
const T1: &str = "0000000000000000000000000000000000000000000000000000000000000001";

fn parse(s: &str) -> serde_json::Value {
    serde_json::from_str::<serde_json::Value>(s).unwrap()
}

#[test]
fn from_json_full_entry() {
    let v = parse(
        "{\"address\": \"0x0f572e5295c57f15886f9b263e2f6d2d6c7b5ec6\", \
          \"topics\": [\"0x0000000000000000000000000000000000000000000000000000000000000001\"], \
          \"data\": \"0xdead\"}",
    );
    let e = LogEntry::from_json(&v).unwrap();
    assert_eq!(e.address().bytes().clone(), hx(ADDR));
    assert_eq!(e.topics().len(), 1);
    assert_eq!(e.topics()[0].bytes().clone(), hx(T1));
    assert_eq!(e.data().clone(), vec![0xde, 0xad]);
}

#[test]
fn from_json_without_prefix_and_empty_topics() {
    let v = parse(
        "{\"address\": \"0f572e5295c57f15886f9b263e2f6d2d6c7b5ec6\", \
          \"topics\": [], \"data\": \"\"}",
    );
    let e = LogEntry::from_json(&v).unwrap();
    assert_eq!(e.address().bytes().clone(), hx(ADDR));
    assert!(e.topics().is_empty());
    assert!(e.data().is_empty());
}

#[test]
fn from_json_missing_topics_fails() {
    let v = parse(
        "{\"address\": \"0x0f572e5295c57f15886f9b263e2f6d2d6c7b5ec6\", \"data\": \"0x\"}",
    );
    assert_eq!(LogEntry::from_json(&v), Err(FromJsonError::MissingTopics));
}

#[test]
fn from_json_missing_address_fails() {
    let v = parse("{\"topics\": [], \"data\": \"0x\"}");
    assert_eq!(LogEntry::from_json(&v), Err(FromJsonError::MissingAddress));
}

#[test]
fn from_json_missing_data_fails() {
    let v = parse(
        "{\"address\": \"0x0f572e5295c57f15886f9b263e2f6d2d6c7b5ec6\", \"topics\": []}",
    );
    assert_eq!(LogEntry::from_json(&v), Err(FromJsonError::MissingData));
}

#[test]
fn from_json_wrong_shapes_count_as_missing() {
    let v = parse("{\"address\": 5, \"topics\": [], \"data\": \"0x\"}");
    assert_eq!(LogEntry::from_json(&v), Err(FromJsonError::MissingAddress));
    let v2 = parse(
        "{\"address\": \"0x0f572e5295c57f15886f9b263e2f6d2d6c7b5ec6\", \
          \"topics\": \"nope\", \"data\": \"0x\"}",
    );
    assert_eq!(LogEntry::from_json(&v2), Err(FromJsonError::MissingTopics));
    let v3 = parse(
        "{\"address\": \"0x0f572e5295c57f15886f9b263e2f6d2d6c7b5ec6\", \
          \"topics\": [7], \"data\": \"0x\"}",
    );
    assert_eq!(LogEntry::from_json(&v3), Err(FromJsonError::MissingTopics));
}

#[test]
fn from_json_values_exact_errors() {
    let good_addr = text("0f572e5295c57f15886f9b263e2f6d2d6c7b5ec6");
    let good_topic = text(T1);
    let good_data = text("00ff");
    assert_eq!(
        from_json_values(None, Some(vec![good_topic.clone()]), Some(good_data.clone())),
        Err(FromJsonError::MissingAddress)
    );
    assert_eq!(
        from_json_values(
            Some(text("123456")),
            Some(vec![good_topic.clone()]),
            Some(good_data.clone())
        ),
        Err(FromJsonError::InvalidAddress)
    );
    assert_eq!(
        from_json_values(Some(good_addr.clone()), None, Some(good_data.clone())),
        Err(FromJsonError::MissingTopics)
    );
    assert_eq!(
        from_json_values(
            Some(good_addr.clone()),
            Some(vec![text("abcd")]),
            Some(good_data.clone())
        ),
        Err(FromJsonError::InvalidTopic)
    );
    assert_eq!(
        from_json_values(Some(good_addr.clone()), Some(vec![good_topic.clone()]), None),
        Err(FromJsonError::MissingData)
    );
    assert_eq!(
        from_json_values(
            Some(good_addr.clone()),
            Some(vec![good_topic.clone()]),
            Some(text("0x0"))
        ),
        Err(FromJsonError::InvalidData)
    );
    let e = from_json_values(Some(good_addr), Some(vec![good_topic]), Some(good_data)).unwrap();
    assert_eq!(e.data().clone(), vec![0x00, 0xff]);
}

#[test]
fn hex_decoding_exact() {
    assert_eq!(log_entry::hex::decode_hex_field(&text("0x0aFf")), Some(vec![0x0a, 0xff]));
    assert_eq!(log_entry::hex::decode_hex_field(&text("0AfF")), Some(vec![0x0a, 0xff]));
    assert_eq!(log_entry::hex::decode_hex_field(&text("")), Some(vec![]));
    assert_eq!(log_entry::hex::decode_hex_field(&text("0x")), Some(vec![]));
    assert_eq!(log_entry::hex::decode_hex_field(&text("abc")), None);
    assert_eq!(log_entry::hex::decode_hex_field(&text("zz")), None);
}
