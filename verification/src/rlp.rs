//! The canonical recursive length-prefix encoding of a log entry, and its
//! inverse. An entry is presented as an ordered structure of exactly three
//! sub-items: the address as a fixed-length byte string, the topics as a list
//! of 32-byte strings in original order, and the data as a variable-length
//! byte string. Identical entries always produce byte-identical output.

use vstd::prelude::*;
use crate::log_entry::{LogEntry, LogEntryView, wf_entry};
use crate::types::{Address, H256};

verus! {

/// Minimal big-endian representation of a length: empty for zero, and no
/// leading zero byte otherwise.
pub open spec fn be_bytes(n: nat) -> Seq<u8>
    decreases n,
{
    if n == 0 {
        Seq::empty()
    } else {
        be_bytes(n / 256).push((n % 256) as u8)
    }
}

/// Big-endian value of a byte sequence.
pub open spec fn be_value(s: Seq<u8>) -> nat
    decreases s.len(),
{
    if s.len() == 0 {
        0
    } else {
        be_value(s.drop_last()) * 256 + s.last() as nat
    }
}

/// 256 to the power `k`: the number of values of a `k`-byte big-endian field.
pub open spec fn pow256(k: nat) -> nat
    decreases k,
{
    if k == 0 {
        1nat
    } else {
        256 * pow256((k - 1) as nat)
    }
}

/// The canonical encoding of a byte string item: a single byte below 0x80
/// stands for itself; up to 55 bytes carry a one-byte length prefix; longer
/// strings carry a length-of-length prefix and a minimal big-endian length.
pub open spec fn rlp_str(s: Seq<u8>) -> Seq<u8> {
    if s.len() == 1 && s[0] < 0x80 {
        s
    } else if s.len() <= 55 {
        seq![(0x80 + s.len()) as u8] + s
    } else {
        seq![(0xb7 + be_bytes(s.len()).len()) as u8] + be_bytes(s.len()) + s
    }
}

/// The canonical encoding of a list item around its already-encoded payload.
pub open spec fn rlp_list(payload: Seq<u8>) -> Seq<u8> {
    if payload.len() <= 55 {
        seq![(0xc0 + payload.len()) as u8] + payload
    } else {
        seq![(0xf7 + be_bytes(payload.len()).len()) as u8] + be_bytes(payload.len()) + payload
    }
}

/// The concatenated encodings of the topics, in original sequence order.
pub open spec fn topics_payload(topics: Seq<Seq<u8>>) -> Seq<u8>
    decreases topics.len(),
{
    if topics.len() == 0 {
        Seq::empty()
    } else {
        rlp_str(topics[0]) + topics_payload(topics.drop_first())
    }
}

/// The payload of the outer three-element structure: address, topic list,
/// data, in that fixed order.
pub open spec fn entry_payload(v: LogEntryView) -> Seq<u8> {
    rlp_str(v.address) + rlp_list(topics_payload(v.topics)) + rlp_str(v.data)
}

/// The full canonical encoding of a log entry.
pub open spec fn rlp_of_entry(v: LogEntryView) -> Seq<u8> {
    rlp_list(entry_payload(v))
}

proof fn lemma_be_bytes_len(n: nat, k: nat)
    requires
        n < pow256(k),
    ensures
        be_bytes(n).len() <= k,
    decreases k,
{
    if n == 0 {
    } else {
        assert(k > 0);
        assert(n / 256 < pow256((k - 1) as nat)) by (nonlinear_arith)
            requires
                n < pow256(k) && k > 0 && pow256(k) == 256 * pow256((k - 1) as nat),
        ;
        lemma_be_bytes_len(n / 256, (k - 1) as nat);
    }
}

/// Any length a vector can have fits in an eight-byte big-endian field.
pub proof fn lemma_be_bytes_len_le_8(n: nat)
    requires
        n < 0x1_0000_0000_0000_0000,
    ensures
        be_bytes(n).len() <= 8,
{
    assert(pow256(0) == 1);
    assert(pow256(1) == 0x100);
    assert(pow256(2) == 0x1_0000);
    assert(pow256(3) == 0x100_0000);
    assert(pow256(4) == 0x1_0000_0000);
    assert(pow256(5) == 0x100_0000_0000);
    assert(pow256(6) == 0x1_0000_0000_0000);
    assert(pow256(7) == 0x100_0000_0000_0000);
    assert(pow256(8) == 0x1_0000_0000_0000_0000);
    lemma_be_bytes_len(n, 8);
}

/// Concatenation homomorphism of the topics payload.
pub proof fn lemma_topics_payload_concat(a: Seq<Seq<u8>>, b: Seq<Seq<u8>>)
    ensures
        topics_payload(a + b) == topics_payload(a) + topics_payload(b),
    decreases a.len(),
{
    if a.len() == 0 {
        assert(a + b =~= b);
        assert(topics_payload(a) + topics_payload(b) =~= topics_payload(b));
    } else {
        assert((a + b).drop_first() =~= a.drop_first() + b);
        lemma_topics_payload_concat(a.drop_first(), b);
        assert(topics_payload(a + b) =~= topics_payload(a) + topics_payload(b));
    }
}

/// Parse one byte-string item at position `i`, yielding its content and the
/// position just past it. Only the canonical form is accepted: a single byte
/// below 0x80 must stand bare, the long form must carry a length above 55,
/// and the big-endian length must have no leading zero.
pub open spec fn parse_str_at(b: Seq<u8>, i: int) -> Option<(Seq<u8>, int)> {
    if 0 <= i < b.len() {
        let h = b[i];
        if h < 0x80 {
            Some((seq![h], i + 1))
        } else if h <= 0xb7 {
            let n = h - 0x80;
            if i + 1 + n <= b.len() && !(n == 1 && b[i + 1] < 0x80) {
                Some((b.subrange(i + 1, i + 1 + n), i + 1 + n))
            } else {
                None
            }
        } else if h <= 0xbf {
            let ll = h - 0xb7;
            if i + 1 + ll <= b.len() && b[i + 1] != 0 {
                let n = be_value(b.subrange(i + 1, i + 1 + ll)) as int;
                if n > 55 && i + 1 + ll + n <= b.len() {
                    Some((b.subrange(i + 1 + ll, i + 1 + ll + n), i + 1 + ll + n))
                } else {
                    None
                }
            } else {
                None
            }
        } else {
            None
        }
    } else {
        None
    }
}

/// Parse one list item at position `i`, yielding its encoded payload and the
/// position just past it, under the same canonicality rules.
pub open spec fn parse_list_at(b: Seq<u8>, i: int) -> Option<(Seq<u8>, int)> {
    if 0 <= i < b.len() {
        let h = b[i];
        if h < 0xc0 {
            None
        } else if h <= 0xf7 {
            let n = h - 0xc0;
            if i + 1 + n <= b.len() {
                Some((b.subrange(i + 1, i + 1 + n), i + 1 + n))
            } else {
                None
            }
        } else {
            let ll = h - 0xf7;
            if i + 1 + ll <= b.len() && b[i + 1] != 0 {
                let n = be_value(b.subrange(i + 1, i + 1 + ll)) as int;
                if n > 55 && i + 1 + ll + n <= b.len() {
                    Some((b.subrange(i + 1 + ll, i + 1 + ll + n), i + 1 + ll + n))
                } else {
                    None
                }
            } else {
                None
            }
        }
    } else {
        None
    }
}

/// Parse the payload of the topic list: a run of 32-byte strings, each with
/// its one-byte 0xa0 prefix, consuming the payload exactly.
pub open spec fn parse_topics(payload: Seq<u8>) -> Option<Seq<Seq<u8>>>
    decreases payload.len(),
{
    if payload.len() == 0 {
        Some(Seq::empty())
    } else if payload.len() >= 33 && payload[0] == 0xa0 {
        match parse_topics(payload.skip(33)) {
            Some(rest) => Some(seq![payload.subrange(1, 33)] + rest),
            None => None,
        }
    } else {
        None
    }
}

/// The inverse of the canonical structure: a three-element list holding a
/// 20-byte address string, the topic list, and the data string, with nothing
/// left over at either level.
pub open spec fn parse_entry(b: Seq<u8>) -> Option<LogEntryView> {
    match parse_list_at(b, 0) {
        None => None,
        Some((pl, end)) => if end == b.len() {
            if pl.len() >= 21 && pl[0] == 0x94 {
                match parse_list_at(pl, 21) {
                    None => None,
                    Some((tpl, j)) => match parse_topics(tpl) {
                        None => None,
                        Some(ts) => match parse_str_at(pl, j) {
                            None => None,
                            Some((d, k)) => if k == pl.len() {
                                Some(LogEntryView { address: pl.subrange(1, 21), topics: ts, data: d })
                            } else {
                                None
                            },
                        },
                    },
                }
            } else {
                None
            }
        } else {
            None
        },
    }
}

/// The big-endian value of the minimal representation is the number itself.
pub proof fn lemma_be_value_of_be_bytes(n: nat)
    ensures
        be_value(be_bytes(n)) == n,
    decreases n,
{
    if n == 0 {
    } else {
        lemma_be_value_of_be_bytes(n / 256);
        let s = be_bytes(n);
        assert(s.drop_last() =~= be_bytes(n / 256));
        assert(s.last() == (n % 256) as u8);
        vstd::arithmetic::div_mod::lemma_fundamental_div_mod(n as int, 256);
    }
}

/// The minimal representation of a positive number is nonempty and has no
/// leading zero.
pub proof fn lemma_be_bytes_first_nonzero(n: nat)
    requires
        n > 0,
    ensures
        be_bytes(n).len() >= 1,
        be_bytes(n)[0] != 0,
    decreases n,
{
    if n < 256 {
        assert(n / 256 == 0);
        assert(be_bytes(0nat) =~= Seq::<u8>::empty());
        assert(be_bytes(n) =~= seq![(n % 256) as u8]);
        assert(n % 256 == n);
    } else {
        assert(n / 256 > 0);
        lemma_be_bytes_first_nonzero(n / 256);
        assert(be_bytes(n)[0] == be_bytes(n / 256)[0]);
    }
}

/// A byte sequence without a leading zero is the minimal representation of
/// its own big-endian value.
pub proof fn lemma_be_bytes_of_value(s: Seq<u8>)
    requires
        s.len() == 0 || s[0] != 0,
    ensures
        be_bytes(be_value(s)) == s,
    decreases s.len(),
{
    if s.len() == 0 {
        assert(be_bytes(0) =~= s);
    } else {
        let d = s.drop_last();
        assert(d.len() == 0 || d[0] != 0);
        lemma_be_bytes_of_value(d);
        let v = be_value(s);
        assert(v == be_value(d) * 256 + s.last());
        if d.len() == 0 {
            assert(be_value(d) == 0);
            assert(s.last() == s[0]);
            assert(v > 0);
        } else {
            if be_value(d) == 0 {
                assert(be_bytes(0nat).len() == 0);
                assert(false);
            }
            assert(v >= 256) by (nonlinear_arith)
                requires
                    v == be_value(d) * 256 + s.last() && be_value(d) >= 1 && s.last() >= 0,
            ;
        }
        vstd::arithmetic::div_mod::lemma_fundamental_div_mod_converse_div(
            v as int,
            256,
            be_value(d) as int,
            s.last() as int,
        );
        vstd::arithmetic::div_mod::lemma_fundamental_div_mod_converse_mod(
            v as int,
            256,
            be_value(d) as int,
            s.last() as int,
        );
        assert(v / 256 == be_value(d));
        assert(v % 256 == s.last());
        assert(be_bytes(v) =~= be_bytes(be_value(d)).push((v % 256) as u8));
        assert(be_bytes(v) =~= d.push(s.last()));
        assert(d.push(s.last()) =~= s);
    }
}

/// Parsing a byte-string item from its canonical encoding, in any
/// surrounding context, recovers the string and stops just past it.
#[verifier::rlimit(60)]
pub proof fn lemma_parse_str_encoding(pre: Seq<u8>, s: Seq<u8>, rest: Seq<u8>)
    requires
        s.len() < 0x1_0000_0000_0000_0000,
    ensures
        parse_str_at(pre + rlp_str(s) + rest, pre.len() as int) == Some(
            (s, pre.len() + rlp_str(s).len() as int),
        ),
{
    let b = pre + rlp_str(s) + rest;
    let e = rlp_str(s);
    let i = pre.len() as int;
    assert forall|m: int| 0 <= m < e.len() implies b[i + m] == e[m] by {}
    if s.len() == 1 && s[0] < 0x80 {
        assert(b[i] == s[0]);
        assert(seq![b[i]] =~= s);
    } else if s.len() <= 55 {
        assert(e[0] == (0x80 + s.len()) as u8);
        assert(0x80 + s.len() <= 0xb7);
        let h = b[i];
        assert(h == 0x80 + s.len());
        let n = h - 0x80;
        assert(n == s.len());
        assert(i + 1 + n <= b.len());
        if n == 1 {
            assert(b[i + 1] == s[0]);
            assert(s[0] >= 0x80);
        }
        assert(b.subrange(i + 1, i + 1 + n) =~= s);
    } else {
        let lb = be_bytes(s.len());
        lemma_be_bytes_len_le_8(s.len());
        lemma_be_bytes_first_nonzero(s.len());
        lemma_be_value_of_be_bytes(s.len());
        let ll = lb.len() as int;
        assert(e[0] == (0xb7 + lb.len()) as u8);
        assert(0xb8 <= 0xb7 + lb.len() <= 0xbf);
        let h = b[i];
        assert(h == 0xb7 + ll);
        assert(h - 0xb7 == ll);
        assert(b[i + 1] == lb[0]);
        assert(b.subrange(i + 1, i + 1 + ll) =~= lb);
        assert(be_value(b.subrange(i + 1, i + 1 + ll)) == s.len());
        assert(b.subrange(i + 1 + ll, i + 1 + ll + s.len() as int) =~= s);
    }
}

/// Parsing a list item from its canonical encoding, in any surrounding
/// context, recovers the payload and stops just past it.
#[verifier::rlimit(60)]
pub proof fn lemma_parse_list_encoding(pre: Seq<u8>, payload: Seq<u8>, rest: Seq<u8>)
    requires
        payload.len() < 0x1_0000_0000_0000_0000,
    ensures
        parse_list_at(pre + rlp_list(payload) + rest, pre.len() as int) == Some(
            (payload, pre.len() + rlp_list(payload).len() as int),
        ),
{
    let b = pre + rlp_list(payload) + rest;
    let e = rlp_list(payload);
    let i = pre.len() as int;
    assert forall|m: int| 0 <= m < e.len() implies b[i + m] == e[m] by {}
    if payload.len() <= 55 {
        assert(e[0] == (0xc0 + payload.len()) as u8);
        assert(0xc0 + payload.len() <= 0xf7);
        let h = b[i];
        assert(h == 0xc0 + payload.len());
        assert(b.subrange(i + 1, i + 1 + payload.len() as int) =~= payload);
    } else {
        let lb = be_bytes(payload.len());
        lemma_be_bytes_len_le_8(payload.len());
        lemma_be_bytes_first_nonzero(payload.len());
        lemma_be_value_of_be_bytes(payload.len());
        let ll = lb.len() as int;
        assert(e[0] == (0xf7 + lb.len()) as u8);
        assert(0xf8 <= 0xf7 + lb.len() <= 0xff);
        let h = b[i];
        assert(h == 0xf7 + ll);
        assert(h - 0xf7 == ll);
        assert(b[i + 1] == lb[0]);
        assert(b.subrange(i + 1, i + 1 + ll) =~= lb);
        assert(be_value(b.subrange(i + 1, i + 1 + ll)) == payload.len());
        assert(b.subrange(i + 1 + ll, i + 1 + ll + payload.len() as int) =~= payload);
    }
}

/// Parsing the encoded topic list recovers the topics.
pub proof fn lemma_parse_topics_encoding(ts: Seq<Seq<u8>>)
    requires
        forall|j: int| 0 <= j < ts.len() ==> (#[trigger] ts[j]).len() == 32,
    ensures
        parse_topics(topics_payload(ts)) == Some(ts),
    decreases ts.len(),
{
    if ts.len() == 0 {
        assert(topics_payload(ts).len() == 0);
        assert(parse_topics(topics_payload(ts)) == Some(Seq::<Seq<u8>>::empty()));
        assert(Seq::<Seq<u8>>::empty() =~= ts);
    } else {
        let t0 = ts[0];
        let e0 = rlp_str(t0);
        let pl = topics_payload(ts);
        assert(e0 =~= seq![0xa0u8] + t0);
        assert(e0.len() == 33);
        assert(pl == e0 + topics_payload(ts.drop_first()));
        assert(pl.len() >= 33);
        assert(pl[0] == 0xa0);
        assert(pl.skip(33) =~= topics_payload(ts.drop_first()));
        lemma_parse_topics_encoding(ts.drop_first());
        assert(pl.subrange(1, 33) =~= t0);
        assert(seq![t0] + ts.drop_first() =~= ts);
    }
}

/// A successful string parse reproduces the canonical encoding of what it
/// returned, occupying exactly the consumed range.
pub proof fn lemma_parse_str_sound(b: Seq<u8>, i: int, s: Seq<u8>, j: int)
    requires
        parse_str_at(b, i) == Some((s, j)),
    ensures
        0 <= i < j <= b.len(),
        b.subrange(i, j) == rlp_str(s),
{
    let h = b[i];
    if h < 0x80 {
        assert(b.subrange(i, j) =~= seq![h]);
        assert(rlp_str(s) =~= seq![h]);
    } else if h <= 0xb7 {
        let n = h - 0x80;
        assert(s =~= b.subrange(i + 1, i + 1 + n));
        assert(s.len() == n);
        if s.len() == 1 {
            assert(s[0] == b[i + 1]);
            assert(s[0] >= 0x80);
        }
        assert(rlp_str(s) == seq![(0x80 + s.len()) as u8] + s);
        assert((0x80 + s.len()) as u8 == h);
        assert(b.subrange(i, j) =~= seq![h] + s);
    } else {
        let ll = h - 0xb7;
        let lb = b.subrange(i + 1, i + 1 + ll);
        let n = be_value(lb) as int;
        assert(lb[0] != 0);
        lemma_be_bytes_of_value(lb);
        assert(be_bytes(s.len()) == lb);
        assert(s.len() == n);
        assert(s.len() > 55);
        assert(rlp_str(s) == seq![(0xb7 + lb.len()) as u8] + lb + s);
        assert((0xb7 + lb.len()) as u8 == h);
        assert(b.subrange(i, j) =~= seq![h] + lb + s);
    }
}

/// A successful list parse reproduces the canonical encoding of its payload,
/// occupying exactly the consumed range.
pub proof fn lemma_parse_list_sound(b: Seq<u8>, i: int, payload: Seq<u8>, j: int)
    requires
        parse_list_at(b, i) == Some((payload, j)),
    ensures
        0 <= i < j <= b.len(),
        b.subrange(i, j) == rlp_list(payload),
{
    let h = b[i];
    if h <= 0xf7 {
        let n = h - 0xc0;
        assert(payload =~= b.subrange(i + 1, i + 1 + n));
        assert(payload.len() == n);
        assert(rlp_list(payload) == seq![(0xc0 + payload.len()) as u8] + payload);
        assert((0xc0 + payload.len()) as u8 == h);
        assert(b.subrange(i, j) =~= seq![h] + payload);
    } else {
        let ll = h - 0xf7;
        let lb = b.subrange(i + 1, i + 1 + ll);
        let n = be_value(lb) as int;
        assert(lb[0] != 0);
        lemma_be_bytes_of_value(lb);
        assert(be_bytes(payload.len()) == lb);
        assert(payload.len() == n);
        assert(payload.len() > 55);
        assert(rlp_list(payload) == seq![(0xf7 + lb.len()) as u8] + lb + payload);
        assert((0xf7 + lb.len()) as u8 == h);
        assert(b.subrange(i, j) =~= seq![h] + lb + payload);
    }
}

/// A successful topic-list parse yields 32-byte topics whose encodings
/// concatenate to exactly the payload.
pub proof fn lemma_parse_topics_sound(payload: Seq<u8>, ts: Seq<Seq<u8>>)
    requires
        parse_topics(payload) == Some(ts),
    ensures
        forall|j: int| 0 <= j < ts.len() ==> (#[trigger] ts[j]).len() == 32,
        topics_payload(ts) == payload,
    decreases payload.len(),
{
    if payload.len() == 0 {
        assert(ts =~= Seq::<Seq<u8>>::empty());
        assert(topics_payload(ts) =~= payload);
    } else {
        let t0 = payload.subrange(1, 33);
        let rest = choose|rest: Seq<Seq<u8>>| parse_topics(payload.skip(33)) == Some(rest);
        assert(parse_topics(payload.skip(33)) == Some(rest));
        lemma_parse_topics_sound(payload.skip(33), rest);
        assert(ts == seq![t0] + rest);
        assert(ts[0] == t0);
        assert(t0.len() == 32);
        assert(forall|j: int| 1 <= j < ts.len() ==> ts[j] == rest[j - 1]);
        assert(rlp_str(t0) =~= seq![0xa0u8] + t0);
        assert(ts.drop_first() =~= rest);
        assert(topics_payload(ts) == rlp_str(t0) + topics_payload(rest));
        assert(topics_payload(ts) =~= payload);
    }
}

/// An entry whose encoding stays within machine limits: a well-formed view
/// whose total encoded size fits the length fields.
pub open spec fn rlp_encodable(v: LogEntryView) -> bool {
    &&& wf_entry(v)
    &&& 33 * v.topics.len() + v.data.len() + 48 < 0x1_0000_0000_0000_0000
}

/// The topics payload takes exactly 33 bytes per topic.
pub proof fn lemma_topics_payload_len(ts: Seq<Seq<u8>>)
    requires
        forall|j: int| 0 <= j < ts.len() ==> (#[trigger] ts[j]).len() == 32,
    ensures
        topics_payload(ts).len() == 33 * ts.len(),
    decreases ts.len(),
{
    if ts.len() == 0 {
    } else {
        assert(rlp_str(ts[0]).len() == 33);
        lemma_topics_payload_len(ts.drop_first());
    }
}

/// Round trip: decoding the canonical encoding of any well-formed entry
/// recovers the entry exactly, for arbitrary address/topics/data
/// combinations including empty topics and empty data.
pub proof fn lemma_parse_of_encoding(v: LogEntryView)
    requires
        rlp_encodable(v),
    ensures
        parse_entry(rlp_of_entry(v)) == Some(v),
{
    let ea = rlp_str(v.address);
    let tp = topics_payload(v.topics);
    let el = rlp_list(tp);
    let ed = rlp_str(v.data);
    let pl = entry_payload(v);
    let b = rlp_of_entry(v);
    lemma_topics_payload_len(v.topics);
    lemma_be_bytes_len_le_8(tp.len());
    lemma_be_bytes_len_le_8(v.data.len());
    assert(ea =~= seq![0x94u8] + v.address);
    assert(ea.len() == 21);
    assert(el.len() <= 9 + tp.len());
    assert(ed.len() <= 9 + v.data.len());
    assert(pl.len() < 0x1_0000_0000_0000_0000);
    assert(Seq::<u8>::empty() + rlp_list(pl) + Seq::<u8>::empty() =~= b);
    lemma_parse_list_encoding(Seq::<u8>::empty(), pl, Seq::<u8>::empty());
    assert(parse_list_at(b, 0) == Some((pl, b.len() as int)));
    assert(pl[0] == 0x94);
    assert(pl.subrange(1, 21) =~= v.address);
    assert(ea + el + ed =~= pl);
    lemma_parse_list_encoding(ea, tp, ed);
    assert(parse_list_at(pl, 21) == Some((tp, 21 + el.len() as int)));
    lemma_parse_topics_encoding(v.topics);
    assert((ea + el) + ed + Seq::<u8>::empty() =~= pl);
    lemma_parse_str_encoding(ea + el, v.data, Seq::<u8>::empty());
    assert((ea + el).len() == 21 + el.len());
    assert(parse_str_at(pl, 21 + el.len() as int) == Some((v.data, pl.len() as int)));
    assert(parse_entry(b) == Some(LogEntryView { address: pl.subrange(1, 21), topics: v.topics, data: v.data }));
    assert(LogEntryView { address: pl.subrange(1, 21), topics: v.topics, data: v.data } == v);
}

/// Soundness of the inverse: whatever decodes was the canonical encoding of
/// the well-formed entry it decodes to.
pub proof fn lemma_parse_entry_sound(b: Seq<u8>, v: LogEntryView)
    requires
        parse_entry(b) == Some(v),
    ensures
        wf_entry(v),
        rlp_of_entry(v) == b,
{
    match parse_list_at(b, 0) {
        None => {
            assert(false);
        },
        Some((pl, end)) => {
            lemma_parse_list_sound(b, 0, pl, end);
            assert(end == b.len());
            assert(b.subrange(0, b.len() as int) =~= b);
            assert(b == rlp_list(pl));
            assert(pl.len() >= 21 && pl[0] == 0x94);
            let addr = pl.subrange(1, 21);
            match parse_list_at(pl, 21) {
                None => {
                    assert(false);
                },
                Some((tpl, j)) => {
                    lemma_parse_list_sound(pl, 21, tpl, j);
                    match parse_topics(tpl) {
                        None => {
                            assert(false);
                        },
                        Some(ts) => {
                            lemma_parse_topics_sound(tpl, ts);
                            match parse_str_at(pl, j) {
                                None => {
                                    assert(false);
                                },
                                Some((d, k)) => {
                                    lemma_parse_str_sound(pl, j, d, k);
                                    assert(k == pl.len());
                                    assert(v == LogEntryView { address: addr, topics: ts, data: d });
                                    assert(addr.len() == 20);
                                    assert(rlp_str(addr) =~= seq![(0x80 + addr.len()) as u8] + addr);
                                    assert(pl.subrange(0, 21) =~= seq![0x94u8] + addr);
                                    assert(pl.subrange(0, 21) =~= rlp_str(addr));
                                    assert(pl =~= pl.subrange(0, 21) + pl.subrange(21, j) + pl.subrange(j, k));
                                    assert(pl =~= entry_payload(v));
                                    assert(rlp_of_entry(v) == b);
                                },
                            }
                        },
                    }
                },
            }
        },
    }
}

/// Canonical encoding is injective on encodable entries.
pub proof fn lemma_rlp_injective(v1: LogEntryView, v2: LogEntryView)
    requires
        rlp_encodable(v1),
        rlp_encodable(v2),
        rlp_of_entry(v1) == rlp_of_entry(v2),
    ensures
        v1 == v2,
{
    lemma_parse_of_encoding(v1);
    lemma_parse_of_encoding(v2);
}

/// Order sensitivity: two entries that differ in their topic sequence (for
/// instance, only in topic order) have different canonical encodings, unlike
/// their blooms.
pub proof fn lemma_rlp_order_sensitive(v1: LogEntryView, v2: LogEntryView)
    requires
        rlp_encodable(v1),
        rlp_encodable(v2),
        v1.address == v2.address,
        v1.data == v2.data,
        v1.topics != v2.topics,
    ensures
        rlp_of_entry(v1) != rlp_of_entry(v2),
{
    if rlp_of_entry(v1) == rlp_of_entry(v2) {
        lemma_rlp_injective(v1, v2);
    }
}

/// Copy `s` onto the end of `out`.
fn extend(out: &mut Vec<u8>, s: &Vec<u8>)
    ensures
        final(out)@ == old(out)@ + s@,
{
    let mut k: usize = 0;
    while k < s.len()
        invariant
            k <= s@.len(),
            out@ == old(out)@ + s@.subrange(0, k as int),
        decreases s@.len() - k,
    {
        out.push(s[k]);
        proof {
            assert(out@ =~= old(out)@ + s@.subrange(0, k + 1));
        }
        k = k + 1;
    }
    proof {
        assert(out@ =~= old(out)@ + s@);
    }
}

/// Append the minimal big-endian representation of `n`.
fn push_be(out: &mut Vec<u8>, n: usize)
    ensures
        final(out)@ == old(out)@ + be_bytes(n as nat),
    decreases n,
{
    if n > 0 {
        push_be(out, n / 256);
        out.push((n % 256) as u8);
        proof {
            assert(out@ =~= old(out)@ + be_bytes(n as nat));
        }
    } else {
        proof {
            assert(out@ =~= old(out)@ + be_bytes(0));
        }
    }
}

/// Append the canonical encoding of the byte string `s`.
fn append_str(out: &mut Vec<u8>, s: &Vec<u8>)
    ensures
        final(out)@ == old(out)@ + rlp_str(s@),
{
    if s.len() == 1 && s[0] < 0x80 {
        out.push(s[0]);
        proof {
            assert(out@ =~= old(out)@ + rlp_str(s@));
        }
    } else if s.len() <= 55 {
        out.push(0x80u8 + s.len() as u8);
        extend(out, s);
        proof {
            assert(out@ =~= old(out)@ + rlp_str(s@));
        }
    } else {
        let mut lenb: Vec<u8> = Vec::new();
        push_be(&mut lenb, s.len());
        proof {
            lemma_be_bytes_len_le_8(s@.len());
            assert(lenb@.len() <= 8);
        }
        out.push(0xb7u8 + lenb.len() as u8);
        extend(out, &lenb);
        extend(out, s);
        proof {
            assert(out@ =~= old(out)@ + rlp_str(s@));
        }
    }
}

/// Append the canonical encoding of a list whose encoded payload is `payload`.
fn append_list(out: &mut Vec<u8>, payload: &Vec<u8>)
    ensures
        final(out)@ == old(out)@ + rlp_list(payload@),
{
    if payload.len() <= 55 {
        out.push(0xc0u8 + payload.len() as u8);
        extend(out, payload);
        proof {
            assert(out@ =~= old(out)@ + rlp_list(payload@));
        }
    } else {
        let mut lenb: Vec<u8> = Vec::new();
        push_be(&mut lenb, payload.len());
        proof {
            lemma_be_bytes_len_le_8(payload@.len());
            assert(lenb@.len() <= 8);
        }
        out.push(0xf7u8 + lenb.len() as u8);
        extend(out, &lenb);
        extend(out, payload);
        proof {
            assert(out@ =~= old(out)@ + rlp_list(payload@));
        }
    }
}

/// Copy the range `from..to` of `b` into a fresh vector.
fn copy_range(b: &Vec<u8>, from: usize, to: usize) -> (r: Vec<u8>)
    requires
        from <= to <= b@.len(),
    ensures
        r@ == b@.subrange(from as int, to as int),
{
    let mut out: Vec<u8> = Vec::new();
    let mut k: usize = from;
    while k < to
        invariant
            from <= k <= to <= b@.len(),
            out@ == b@.subrange(from as int, k as int),
        decreases to - k,
    {
        out.push(b[k]);
        proof {
            assert(out@ =~= b@.subrange(from as int, k + 1));
        }
        k = k + 1;
    }
    out
}

/// Read the `ll`-byte big-endian field at `from`, exactly as the parser
/// values it.
fn read_be(b: &Vec<u8>, from: usize, ll: usize) -> (r: u64)
    requires
        ll <= 8,
        from + ll <= b@.len(),
    ensures
        r as nat == be_value(b@.subrange(from as int, from as int + ll as int)),
{
    let blen = b.len();
    let mut acc: u64 = 0;
    let mut k: usize = 0;
    proof {
        assert(b@.subrange(from as int, from as int) =~= Seq::<u8>::empty());
    }
    while k < ll
        invariant
            k <= ll <= 8,
            from + ll <= blen,
            blen == b@.len(),
            acc as nat == be_value(b@.subrange(from as int, from as int + k as int)),
            (acc as nat) < pow256(k as nat),
        decreases ll - k,
    {
        proof {
            assert(pow256(0) == 1);
            assert(pow256(1) == 0x100);
            assert(pow256(2) == 0x1_0000);
            assert(pow256(3) == 0x100_0000);
            assert(pow256(4) == 0x1_0000_0000);
            assert(pow256(5) == 0x100_0000_0000);
            assert(pow256(6) == 0x1_0000_0000_0000);
            assert(pow256(7) == 0x100_0000_0000_0000);
            assert((acc as nat) < pow256(7));
        }
        let byte = b[from + k];
        let next = acc * 256 + byte as u64;
        proof {
            let s2 = b@.subrange(from as int, from as int + k + 1);
            assert(s2.drop_last() =~= b@.subrange(from as int, from as int + k as int));
            assert(s2.last() == b@[from as int + k as int]);
            assert((next as nat) < pow256((k + 1) as nat)) by (nonlinear_arith)
                requires
                    next == acc * 256 + byte && (acc as nat) < pow256(k as nat) && byte < 256
                        && pow256((k + 1) as nat) == 256 * pow256(k as nat),
            ;
        }
        acc = next;
        k = k + 1;
    }
    acc
}

/// Parse one byte-string item at position `i` of `b`, as `parse_str_at`.
fn parse_str_exec(b: &Vec<u8>, i: usize) -> (r: Option<(Vec<u8>, usize)>)
    ensures
        r matches Some(p) ==> parse_str_at(b@, i as int) == Some((p.0@, p.1 as int)) && p.1
            <= b@.len(),
        r is None ==> parse_str_at(b@, i as int) is None,
{
    if i >= b.len() {
        return None;
    }
    let h = b[i];
    if h < 0x80 {
        let mut c: Vec<u8> = Vec::new();
        c.push(h);
        proof {
            assert(c@ =~= seq![b@[i as int]]);
        }
        Some((c, i + 1))
    } else if h <= 0xb7 {
        let n = (h - 0x80) as usize;
        if n > b.len() - i - 1 {
            return None;
        }
        if n == 1 && b[i + 1] < 0x80 {
            return None;
        }
        let c = copy_range(b, i + 1, i + 1 + n);
        Some((c, i + 1 + n))
    } else if h <= 0xbf {
        let ll = (h - 0xb7) as usize;
        if ll > b.len() - i - 1 {
            return None;
        }
        if b[i + 1] == 0 {
            return None;
        }
        let n64 = read_be(b, i + 1, ll);
        if n64 <= 55 {
            return None;
        }
        let rem = b.len() - i - 1 - ll;
        if n64 > rem as u64 {
            return None;
        }
        let n = n64 as usize;
        let c = copy_range(b, i + 1 + ll, i + 1 + ll + n);
        Some((c, i + 1 + ll + n))
    } else {
        None
    }
}

/// Parse one list item at position `i` of `b`, as `parse_list_at`.
fn parse_list_exec(b: &Vec<u8>, i: usize) -> (r: Option<(Vec<u8>, usize)>)
    ensures
        r matches Some(p) ==> parse_list_at(b@, i as int) == Some((p.0@, p.1 as int)) && p.1
            <= b@.len(),
        r is None ==> parse_list_at(b@, i as int) is None,
{
    if i >= b.len() {
        return None;
    }
    let h = b[i];
    if h < 0xc0 {
        None
    } else if h <= 0xf7 {
        let n = (h - 0xc0) as usize;
        if n > b.len() - i - 1 {
            return None;
        }
        let c = copy_range(b, i + 1, i + 1 + n);
        Some((c, i + 1 + n))
    } else {
        let ll = (h - 0xf7) as usize;
        if ll > b.len() - i - 1 {
            return None;
        }
        if b[i + 1] == 0 {
            return None;
        }
        let n64 = read_be(b, i + 1, ll);
        if n64 <= 55 {
            return None;
        }
        let rem = b.len() - i - 1 - ll;
        if n64 > rem as u64 {
            return None;
        }
        let n = n64 as usize;
        let c = copy_range(b, i + 1 + ll, i + 1 + ll + n);
        Some((c, i + 1 + ll + n))
    }
}

/// Parse the topic-list payload into 32-byte hash values, as `parse_topics`.
fn parse_topics_exec(tpl: &Vec<u8>) -> (r: Option<Vec<H256>>)
    ensures
        r matches Some(ts) ==> parse_topics(tpl@) == Some(ts@.map_values(|t: H256| t@)),
        r is None ==> parse_topics(tpl@) is None,
{
    let mut acc: Vec<H256> = Vec::new();
    let mut pos: usize = 0;
    proof {
        assert(tpl@.skip(0) =~= tpl@);
        assert(acc@.map_values(|t: H256| t@) =~= Seq::<Seq<u8>>::empty());
    }
    while tpl.len() - pos >= 33
        invariant
            pos <= tpl@.len(),
            (match parse_topics(tpl@.skip(pos as int)) {
                Some(rest) => parse_topics(tpl@) == Some(acc@.map_values(|t: H256| t@) + rest),
                None => parse_topics(tpl@) is None,
            }),
        decreases tpl@.len() - pos,
    {
        let ghost suffix = tpl@.skip(pos as int);
        if tpl[pos] != 0xa0 {
            proof {
                assert(suffix.len() >= 33);
                assert(suffix[0] == tpl@[pos as int]);
                assert(parse_topics(suffix) is None);
            }
            return None;
        }
        let c = copy_range(tpl, pos + 1, pos + 33);
        let t = H256::from_bytes(c).unwrap();
        let ghost old_acc = acc@;
        acc.push(t);
        proof {
            assert(suffix[0] == 0xa0);
            assert(suffix.skip(33) =~= tpl@.skip(pos + 33));
            assert(suffix.subrange(1, 33) =~= tpl@.subrange(pos + 1, pos + 33));
            assert(t@ == suffix.subrange(1, 33));
            assert(acc@.map_values(|x: H256| x@) =~= old_acc.map_values(|x: H256| x@) + seq![t@]);
            match parse_topics(tpl@.skip(pos + 33)) {
                Some(rest2) => {
                    assert(parse_topics(suffix) == Some(seq![suffix.subrange(1, 33)] + rest2));
                    assert(old_acc.map_values(|x: H256| x@) + (seq![t@] + rest2)
                        =~= acc@.map_values(|x: H256| x@) + rest2);
                },
                None => {
                    assert(parse_topics(suffix) is None);
                },
            }
        }
        pos = pos + 33;
    }
    let ghost suffix = tpl@.skip(pos as int);
    if pos != tpl.len() {
        proof {
            assert(suffix.len() == tpl@.len() - pos);
            assert(0 < suffix.len() < 33);
            assert(parse_topics(suffix) is None);
        }
        return None;
    }
    proof {
        assert(suffix =~= Seq::<u8>::empty());
        assert(parse_topics(suffix) == Some(Seq::<Seq<u8>>::empty()));
        assert(acc@.map_values(|t: H256| t@) + Seq::<Seq<u8>>::empty() =~= acc@.map_values(
            |t: H256| t@,
        ));
    }
    Some(acc)
}

/// Decode a canonical encoding back into a log entry: the exact inverse of
/// `rlp_bytes` on well-formed entries, refusing every byte sequence that is
/// not such an encoding.
pub fn rlp_decode(bytes: &Vec<u8>) -> (r: Option<LogEntry>)
    ensures
        r matches Some(e) ==> parse_entry(bytes@) == Some(e@) && wf_entry(e@) && rlp_of_entry(e@)
            == bytes@,
        r is None ==> parse_entry(bytes@) is None,
{
    proof {
        match parse_entry(bytes@) {
            Some(v) => lemma_parse_entry_sound(bytes@, v),
            None => {},
        }
    }
    let outer = parse_list_exec(bytes, 0);
    match outer {
        None => None,
        Some((pl, end)) => {
            if end != bytes.len() {
                return None;
            }
            if pl.len() < 21 {
                return None;
            }
            if pl[0] != 0x94 {
                return None;
            }
            let addr_bytes = copy_range(&pl, 1, 21);
            let address = Address::from_bytes(addr_bytes).unwrap();
            match parse_list_exec(&pl, 21) {
                None => None,
                Some((tpl, j)) => {
                    match parse_topics_exec(&tpl) {
                        None => None,
                        Some(topics) => {
                            match parse_str_exec(&pl, j) {
                                None => None,
                                Some((data, k)) => {
                                    if k != pl.len() {
                                        return None;
                                    }
                                    let e = LogEntry { address, topics, data };
                                    proof {
                                        assert(e@ == LogEntryView {
                                            address: pl@.subrange(1, 21),
                                            topics: e@.topics,
                                            data: e@.data,
                                        });
                                        assert(parse_entry(bytes@) == Some(e@));
                                    }
                                    Some(e)
                                },
                            }
                        },
                    }
                },
            }
        },
    }
}

impl LogEntry {
    /// Describe this entry to the canonical encoder stream `s`: one structure
    /// of exactly three elements, appended in the fixed field order.
    pub fn rlp_append(&self, s: &mut Vec<u8>)
        ensures
            final(s)@ == old(s)@ + rlp_of_entry(self@),
    {
        let ghost ts = self@.topics;
        let mut tp: Vec<u8> = Vec::new();
        let mut k: usize = 0;
        proof {
            assert(ts.take(0) =~= Seq::<Seq<u8>>::empty());
        }
        while k < self.topics.len()
            invariant
                k <= self.topics@.len(),
                ts == self@.topics,
                ts.len() == self.topics@.len(),
                tp@ == topics_payload(ts.take(k as int)),
            decreases self.topics@.len() - k,
        {
            append_str(&mut tp, self.topics[k].bytes());
            proof {
                assert(ts.take(k + 1) =~= ts.take(k as int) + seq![ts[k as int]]);
                lemma_topics_payload_concat(ts.take(k as int), seq![ts[k as int]]);
                let single = seq![ts[k as int]];
                assert(single.drop_first() =~= Seq::<Seq<u8>>::empty());
                assert(topics_payload(single.drop_first()) == Seq::<u8>::empty());
                assert(topics_payload(single) =~= rlp_str(ts[k as int]));
                assert(tp@ =~= topics_payload(ts.take(k + 1)));
            }
            k = k + 1;
        }
        proof {
            assert(ts.take(ts.len() as int) =~= ts);
        }
        let mut payload: Vec<u8> = Vec::new();
        append_str(&mut payload, self.address.bytes());
        append_list(&mut payload, &tp);
        append_str(&mut payload, &self.data);
        proof {
            assert(payload@ =~= entry_payload(self@));
        }
        append_list(s, &payload);
    }

    /// The canonical encoding of this entry as a fresh byte vector.
    pub fn rlp_bytes(&self) -> (r: Vec<u8>)
        ensures
            r@ == rlp_of_entry(self@),
    {
        let mut out: Vec<u8> = Vec::new();
        self.rlp_append(&mut out);
        out
    }
}

} // verus!
