//! Building a log entry from a parsed JSON value. Field extraction is
//! delegated to the JSON library; everything after it — hexadecimal decoding,
//! length checks, and assembly — is verified. Ingestion is fallible: a
//! malformed entry never silently yields a partially populated value. No
//! bloom cross-check is performed on ingestion; that validation is a
//! documented non-goal deferred to a higher layer.

use vstd::prelude::*;
use crate::hex::{decode_hex_field, hex_decoded, is_hex_str, strip_0x};
use crate::log_entry::{LogEntry, wf_entry};
use crate::types::{Address, H256};

verus! {

/// An opaque parsed JSON value of the JSON library.
#[verifier::external_type_specification]
#[verifier::external_body]
pub struct ExValue(serde_json::Value);

/// The string-valued fields of the JSON object `v`: each field name whose
/// value is a string, mapped to that string's content as UTF-8 bytes. A
/// function of the value alone; empty where `v` is not an object.
pub uninterp spec fn json_text_fields(v: serde_json::Value) -> Map<Seq<char>, Seq<u8>>;

/// The fields of the JSON object `v` holding arrays whose elements are all
/// strings: each such field name, mapped to the elements' content as UTF-8
/// bytes, in array order. A function of the value alone.
pub uninterp spec fn json_text_list_fields(v: serde_json::Value) -> Map<Seq<char>, Seq<Seq<u8>>>;

/// Relies on serde_json::Value::get and Value::as_str: the named field's
/// string content as UTF-8 bytes, where `v` is an object holding that field
/// and the field holds a string; nothing otherwise.
#[verifier::external_body]
fn json_field_text(v: &serde_json::Value, name: &str) -> (r: Option<Vec<u8>>)
    ensures
        r matches Some(t) ==> json_text_fields(*v).contains_key(name@) && t@ == json_text_fields(
            *v,
        )[name@],
        r is None ==> !json_text_fields(*v).contains_key(name@),
{
    match v.get(name) {
        Some(f) => f.as_str().map(|s| s.as_bytes().to_vec()),
        None => None,
    }
}

/// Relies on serde_json::Value::get, Value::as_array and Value::as_str: the
/// named field's elements as UTF-8 bytes, in array order, where `v` is an
/// object holding that field and the field holds an array of strings;
/// nothing otherwise.
#[verifier::external_body]
fn json_field_text_array(v: &serde_json::Value, name: &str) -> (r: Option<Vec<Vec<u8>>>)
    ensures
        r matches Some(ts) ==> json_text_list_fields(*v).contains_key(name@)
            && ts@.map_values(|t: Vec<u8>| t@) == json_text_list_fields(*v)[name@],
        r is None ==> !json_text_list_fields(*v).contains_key(name@),
{
    match v.get(name).and_then(|f| f.as_array()) {
        Some(arr) => arr.iter().map(|e| e.as_str().map(|s| s.as_bytes().to_vec())).collect(),
        None => None,
    }
}

/// Why an entry could not be built from JSON fields. A field is "missing"
/// when it is absent or not of the expected JSON shape; it is "invalid" when
/// its text is not hexadecimal of the expected width.
#[derive(Debug, Clone, Copy, PartialEq, Eq, Structural)]
pub enum FromJsonError {
    MissingAddress,
    InvalidAddress,
    MissingTopics,
    InvalidTopic,
    MissingData,
    InvalidData,
}

/// Whether field text denotes exactly 20 address bytes.
pub open spec fn address_text_ok(s: Seq<u8>) -> bool {
    &&& is_hex_str(strip_0x(s))
    &&& strip_0x(s).len() == 40
}

/// Whether field text denotes exactly 32 topic bytes.
pub open spec fn topic_text_ok(s: Seq<u8>) -> bool {
    &&& is_hex_str(strip_0x(s))
    &&& strip_0x(s).len() == 64
}

/// Whether field text denotes a data payload: any even number of digits.
pub open spec fn data_text_ok(s: Seq<u8>) -> bool {
    is_hex_str(strip_0x(s))
}

/// Whether the JSON value holds a string `address` field whose text denotes
/// an address.
pub open spec fn json_address_ok(v: serde_json::Value) -> bool {
    &&& json_text_fields(v).contains_key("address"@)
    &&& address_text_ok(json_text_fields(v)["address"@])
}

/// Whether the JSON value holds a `topics` field that is an array of strings,
/// every one of whose texts denotes a topic.
pub open spec fn json_topics_ok(v: serde_json::Value) -> bool {
    &&& json_text_list_fields(v).contains_key("topics"@)
    &&& forall|j: int|
        0 <= j < json_text_list_fields(v)["topics"@].len() ==> topic_text_ok(
            #[trigger] json_text_list_fields(v)["topics"@][j],
        )
}

/// Whether the JSON value holds a string `data` field whose text denotes a
/// payload.
pub open spec fn json_data_ok(v: serde_json::Value) -> bool {
    &&& json_text_fields(v).contains_key("data"@)
    &&& data_text_ok(json_text_fields(v)["data"@])
}

/// Whether `r` failed with exactly the error `e`.
pub open spec fn fails_with(r: Result<LogEntry, FromJsonError>, e: FromJsonError) -> bool {
    r == Result::<LogEntry, FromJsonError>::Err(e)
}

/// Build a log entry from its three extracted JSON field texts, each absent
/// or a hexadecimal string: the heart of ingestion, total and exact. Fields
/// are judged in the fixed order address, topics, data; the first failing
/// field names the error.
#[verifier::loop_isolation(false)]
pub fn from_json_values(
    address: Option<Vec<u8>>,
    topics: Option<Vec<Vec<u8>>>,
    data: Option<Vec<u8>>,
) -> (r: Result<LogEntry, FromJsonError>)
    ensures
        r is Ok <==> {
            &&& address matches Some(a) && address_text_ok(a@)
            &&& topics matches Some(ts) && (forall|j: int|
                0 <= j < ts@.len() ==> topic_text_ok(#[trigger] ts@[j]@))
            &&& data matches Some(d) && data_text_ok(d@)
        },
        r matches Ok(e) ==> {
            &&& address matches Some(a) && e@.address == hex_decoded(strip_0x(a@))
            &&& topics matches Some(ts) && e@.topics == Seq::<Seq<u8>>::new(
                ts@.len(),
                |j: int| hex_decoded(strip_0x(ts@[j]@)),
            )
            &&& data matches Some(d) && e@.data == hex_decoded(strip_0x(d@))
            &&& wf_entry(e@)
        },
        fails_with(r, FromJsonError::MissingAddress) <==> address is None,
        fails_with(r, FromJsonError::InvalidAddress) <==> ({
            &&& address matches Some(a)
            &&& !address_text_ok(a@)
        }),
        fails_with(r, FromJsonError::MissingTopics) <==> ({
            &&& address matches Some(a)
            &&& address_text_ok(a@)
            &&& topics is None
        }),
        fails_with(r, FromJsonError::InvalidTopic) <==> ({
            &&& address matches Some(a)
            &&& address_text_ok(a@)
            &&& topics matches Some(ts)
            &&& exists|j: int| 0 <= j < ts@.len() && !topic_text_ok(#[trigger] ts@[j]@)
        }),
        fails_with(r, FromJsonError::MissingData) <==> ({
            &&& address matches Some(a)
            &&& address_text_ok(a@)
            &&& topics matches Some(ts)
            &&& forall|j: int| 0 <= j < ts@.len() ==> topic_text_ok(#[trigger] ts@[j]@)
            &&& data is None
        }),
        fails_with(r, FromJsonError::InvalidData) <==> ({
            &&& address matches Some(a)
            &&& address_text_ok(a@)
            &&& topics matches Some(ts)
            &&& forall|j: int| 0 <= j < ts@.len() ==> topic_text_ok(#[trigger] ts@[j]@)
            &&& data matches Some(d)
            &&& !data_text_ok(d@)
        }),
{
    let address_bytes = match address {
        None => {
            return Err(FromJsonError::MissingAddress);
        },
        Some(a) => match decode_hex_field(&a) {
            None => {
                return Err(FromJsonError::InvalidAddress);
            },
            Some(ab) => {
                if ab.len() != 20 {
                    proof {
                        assert(!address_text_ok(a@));
                    }
                    return Err(FromJsonError::InvalidAddress);
                }
                ab
            },
        },
    };
    let addr = Address::from_bytes(address_bytes).unwrap();
    let topic_texts = match topics {
        None => {
            return Err(FromJsonError::MissingTopics);
        },
        Some(ts) => ts,
    };
    let mut topic_values: Vec<H256> = Vec::new();
    let mut j: usize = 0;
    while j < topic_texts.len()
        invariant
            j <= topic_texts@.len(),
            forall|k: int| 0 <= k < j ==> topic_text_ok(#[trigger] topic_texts@[k]@),
            topic_values@.len() == j,
            forall|k: int|
                0 <= k < j ==> topic_values@[k]@ == hex_decoded(strip_0x(topic_texts@[k]@)),
        decreases topic_texts@.len() - j,
    {
        let td = match decode_hex_field(&topic_texts[j]) {
            None => {
                proof {
                    assert(!topic_text_ok(topic_texts@[j as int]@));
                }
                return Err(FromJsonError::InvalidTopic);
            },
            Some(td) => td,
        };
        if td.len() != 32 {
            proof {
                assert(!topic_text_ok(topic_texts@[j as int]@));
            }
            return Err(FromJsonError::InvalidTopic);
        }
        topic_values.push(H256::from_bytes(td).unwrap());
        j = j + 1;
    }
    let data_bytes = match data {
        None => {
            return Err(FromJsonError::MissingData);
        },
        Some(d) => match decode_hex_field(&d) {
            None => {
                return Err(FromJsonError::InvalidData);
            },
            Some(db) => db,
        },
    };
    let e = LogEntry { address: addr, topics: topic_values, data: data_bytes };
    proof {
        assert(e@.topics =~= Seq::<Seq<u8>>::new(
            topic_texts@.len(),
            |j: int| hex_decoded(strip_0x(topic_texts@[j]@)),
        ));
    }
    Ok(e)
}

impl LogEntry {
    /// Convert a parsed JSON object to a log entry: extract the `address`,
    /// `topics` and `data` fields and decode each as hexadecimal text. A
    /// field that is absent or not of the expected JSON shape is reported as
    /// missing; text of the wrong width or with a non-digit is reported as
    /// invalid, in the fixed field order. Ingestion either fails or yields a
    /// fully populated, well-formed entry whose fields are exactly the
    /// hex-decodings of the object's field texts; no bloom cross-check is
    /// performed here.
    pub fn from_json(json: &serde_json::Value) -> (r: Result<LogEntry, FromJsonError>)
        ensures
            r is Ok <==> json_address_ok(*json) && json_topics_ok(*json) && json_data_ok(*json),
            r matches Ok(e) ==> ({
                &&& e@.address == hex_decoded(strip_0x(json_text_fields(*json)["address"@]))
                &&& e@.topics == Seq::<Seq<u8>>::new(
                    json_text_list_fields(*json)["topics"@].len(),
                    |j: int| hex_decoded(strip_0x(json_text_list_fields(*json)["topics"@][j])),
                )
                &&& e@.data == hex_decoded(strip_0x(json_text_fields(*json)["data"@]))
                &&& wf_entry(e@)
            }),
            fails_with(r, FromJsonError::MissingAddress) <==> !json_text_fields(
                *json,
            ).contains_key("address"@),
            fails_with(r, FromJsonError::InvalidAddress) <==> json_text_fields(
                *json,
            ).contains_key("address"@) && !address_text_ok(json_text_fields(*json)["address"@]),
            fails_with(r, FromJsonError::MissingTopics) <==> json_address_ok(*json)
                && !json_text_list_fields(*json).contains_key("topics"@),
            fails_with(r, FromJsonError::InvalidTopic) <==> ({
                &&& json_address_ok(*json)
                &&& json_text_list_fields(*json).contains_key("topics"@)
                &&& exists|j: int|
                    0 <= j < json_text_list_fields(*json)["topics"@].len() && !topic_text_ok(
                        #[trigger] json_text_list_fields(*json)["topics"@][j],
                    )
            }),
            fails_with(r, FromJsonError::MissingData) <==> json_address_ok(*json)
                && json_topics_ok(*json) && !json_text_fields(*json).contains_key("data"@),
            fails_with(r, FromJsonError::InvalidData) <==> ({
                &&& json_address_ok(*json)
                &&& json_topics_ok(*json)
                &&& json_text_fields(*json).contains_key("data"@)
                &&& !data_text_ok(json_text_fields(*json)["data"@])
            }),
    {
        let address = json_field_text(json, "address");
        let topics = json_field_text_array(json, "topics");
        let data = json_field_text(json, "data");
        let ghost ag = address;
        let ghost tg = topics;
        let ghost dg = data;
        let r = from_json_values(address, topics, data);
        proof {
            let m = json_text_fields(*json);
            let lm = json_text_list_fields(*json);
            match ag {
                Some(a) => {
                    assert(m.contains_key("address"@) && a@ == m["address"@]);
                },
                None => {
                    assert(!m.contains_key("address"@));
                },
            }
            match dg {
                Some(d) => {
                    assert(m.contains_key("data"@) && d@ == m["data"@]);
                },
                None => {
                    assert(!m.contains_key("data"@));
                },
            }
            match tg {
                Some(ts) => {
                    let el = lm["topics"@];
                    assert(lm.contains_key("topics"@));
                    assert(ts@.map_values(|t: Vec<u8>| t@) == el);
                    assert(el.len() == ts@.len());
                    assert forall|j: int| 0 <= j < ts@.len() implies el[j] == ts@[j]@ by {}
                    assert forall|j: int|
                        0 <= j < el.len() && topic_text_ok(ts@[j]@) implies topic_text_ok(
                        #[trigger] el[j],
                    ) by {}
                    assert forall|j: int|
                        0 <= j < ts@.len() && topic_text_ok(el[j]) implies topic_text_ok(
                        #[trigger] ts@[j]@,
                    ) by {}
                    if exists|j: int| 0 <= j < ts@.len() && !topic_text_ok(#[trigger] ts@[j]@) {
                        let w = choose|j: int|
                            0 <= j < ts@.len() && !topic_text_ok(#[trigger] ts@[j]@);
                        assert(!topic_text_ok(el[w]));
                    }
                    if exists|j: int| 0 <= j < el.len() && !topic_text_ok(#[trigger] el[j]) {
                        let w = choose|j: int| 0 <= j < el.len() && !topic_text_ok(#[trigger] el[j]);
                        assert(!topic_text_ok(ts@[w]@));
                    }
                    if r is Ok {
                        assert(Seq::<Seq<u8>>::new(
                            ts@.len(),
                            |j: int| hex_decoded(strip_0x(ts@[j]@)),
                        ) =~= Seq::<Seq<u8>>::new(
                            el.len(),
                            |j: int| hex_decoded(strip_0x(el[j])),
                        ));
                    }
                },
                None => {
                    assert(!lm.contains_key("topics"@));
                },
            }
        }
        r
    }
}

} // verus!
