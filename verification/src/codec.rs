//! Byte codec for the persisted scheduler entities.
//!
//! The state store holds opaque byte values; this module fixes the record
//! format: little-endian fixed-width integers, strings as a byte length
//! followed by UTF-8, enums as a tag byte. For every entity the decoder
//! inverts the encoder exactly; the round-trip lemmas at the end state
//! that.

use vstd::prelude::*;
use vstd::bytes::{
    spec_u16_to_le_bytes, spec_u16_from_le_bytes, u16_to_le_bytes, u16_from_le_bytes,
    spec_u32_to_le_bytes, spec_u32_from_le_bytes, u32_to_le_bytes, u32_from_le_bytes,
    spec_u64_to_le_bytes, spec_u64_from_le_bytes, u64_to_le_bytes, u64_from_le_bytes,
    lemma_auto_spec_u16_to_from_le_bytes, lemma_auto_spec_u32_to_from_le_bytes,
    lemma_auto_spec_u64_to_from_le_bytes,
};
use vstd::utf8::{valid_utf8, decode_utf8, encode_utf8, encode_utf8_valid_utf8,
    encode_utf8_decode_utf8};
use vstd::slice::{slice_subrange, slice_to_vec};
use vstd::string::StringSliceAdditionalSpecFns;
use vstd::string::StrSliceExecFns;
use crate::domain::{
    ExecutorData, ExecutorDataView, ExecutorHeartbeat, ExecutorHeartbeatView, ExecutorMetadata,
    ExecutorMetadataView, ExecutorSpecification, JobStatus, JobStatusView, PartitionId,
    PartitionIdView, TaskState, TaskStateView, TaskStatus, TaskStatusView,
};

verus! {

/// Longest byte run a length prefix can carry.
pub open spec fn max_len_prefix() -> int {
    0x1_0000_0000_0000_0000
}

// ---------------------------------------------------------------------
// Primitives: fixed-width integers and length-prefixed strings.
// ---------------------------------------------------------------------

pub open spec fn spec_encode_string(s: Seq<char>) -> Seq<u8> {
    spec_u64_to_le_bytes(encode_utf8(s).len() as u64) + encode_utf8(s)
}

pub open spec fn spec_decode_u16_at(b: Seq<u8>, pos: int) -> Option<(u16, int)> {
    if 0 <= pos && pos + 2 <= b.len() {
        Some((spec_u16_from_le_bytes(b.subrange(pos, pos + 2)), pos + 2))
    } else {
        None
    }
}

pub open spec fn spec_decode_u32_at(b: Seq<u8>, pos: int) -> Option<(u32, int)> {
    if 0 <= pos && pos + 4 <= b.len() {
        Some((spec_u32_from_le_bytes(b.subrange(pos, pos + 4)), pos + 4))
    } else {
        None
    }
}

pub open spec fn spec_decode_u64_at(b: Seq<u8>, pos: int) -> Option<(u64, int)> {
    if 0 <= pos && pos + 8 <= b.len() {
        Some((spec_u64_from_le_bytes(b.subrange(pos, pos + 8)), pos + 8))
    } else {
        None
    }
}

pub open spec fn spec_decode_byte_at(b: Seq<u8>, pos: int) -> Option<(u8, int)> {
    if 0 <= pos && pos + 1 <= b.len() {
        Some((b[pos], pos + 1))
    } else {
        None
    }
}

pub open spec fn spec_decode_string_at(b: Seq<u8>, pos: int) -> Option<(Seq<char>, int)> {
    match spec_decode_u64_at(b, pos) {
        Some(p) => {
            let len = p.0 as int;
            let pos2 = p.1;
            if pos2 + len <= b.len() {
                let bytes = b.subrange(pos2, pos2 + len);
                if valid_utf8(bytes) {
                    Some((decode_utf8(bytes), pos2 + len))
                } else {
                    None
                }
            } else {
                None
            }
        },
        None => None,
    }
}

fn encode_u16(out: &mut Vec<u8>, v: u16)
    ensures
        final(out)@ == old(out)@ + spec_u16_to_le_bytes(v),
{
    let mut bytes = u16_to_le_bytes(v);
    out.append(&mut bytes);
}

fn encode_u32(out: &mut Vec<u8>, v: u32)
    ensures
        final(out)@ == old(out)@ + spec_u32_to_le_bytes(v),
{
    let mut bytes = u32_to_le_bytes(v);
    out.append(&mut bytes);
}

fn encode_u64(out: &mut Vec<u8>, v: u64)
    ensures
        final(out)@ == old(out)@ + spec_u64_to_le_bytes(v),
{
    let mut bytes = u64_to_le_bytes(v);
    out.append(&mut bytes);
}

fn encode_string(out: &mut Vec<u8>, s: &String)
    ensures
        final(out)@ == old(out)@ + spec_encode_string(s@),
{
    let mut bytes = s.as_str().as_bytes_vec();
    encode_u64(out, bytes.len() as u64);
    out.append(&mut bytes);
    proof {
        assert(out@ =~= old(out)@ + spec_encode_string(s@));
    }
}

/// Relies on std's `String::from_utf8`: it returns the string the bytes
/// decode to when they are valid UTF-8, and an error exactly otherwise.
#[verifier::external_body]
fn string_from_utf8(bytes: Vec<u8>) -> (r: Option<String>)
    ensures
        r matches Some(s) ==> valid_utf8(bytes@) && s@ == decode_utf8(bytes@),
        r is None ==> !valid_utf8(bytes@),
{
    String::from_utf8(bytes).ok()
}

fn decode_u16_at(b: &Vec<u8>, pos: usize) -> (r: Option<(u16, usize)>)
    ensures
        spec_decode_u16_at(b@, pos as int) matches Some(p) ==> (r matches Some(q) && q.0 == p.0
            && q.1 as int == p.1),
        spec_decode_u16_at(b@, pos as int) is None ==> r is None,
{
    if pos <= b.len() && b.len() - pos >= 2 {
        let s = slice_subrange(b.as_slice(), pos, pos + 2);
        Some((u16_from_le_bytes(s), pos + 2))
    } else {
        None
    }
}

fn decode_u32_at(b: &Vec<u8>, pos: usize) -> (r: Option<(u32, usize)>)
    ensures
        spec_decode_u32_at(b@, pos as int) matches Some(p) ==> (r matches Some(q) && q.0 == p.0
            && q.1 as int == p.1),
        spec_decode_u32_at(b@, pos as int) is None ==> r is None,
{
    if pos <= b.len() && b.len() - pos >= 4 {
        let s = slice_subrange(b.as_slice(), pos, pos + 4);
        Some((u32_from_le_bytes(s), pos + 4))
    } else {
        None
    }
}

fn decode_u64_at(b: &Vec<u8>, pos: usize) -> (r: Option<(u64, usize)>)
    ensures
        spec_decode_u64_at(b@, pos as int) matches Some(p) ==> (r matches Some(q) && q.0 == p.0
            && q.1 as int == p.1),
        spec_decode_u64_at(b@, pos as int) is None ==> r is None,
{
    if pos <= b.len() && b.len() - pos >= 8 {
        let s = slice_subrange(b.as_slice(), pos, pos + 8);
        Some((u64_from_le_bytes(s), pos + 8))
    } else {
        None
    }
}

fn decode_byte_at(b: &Vec<u8>, pos: usize) -> (r: Option<(u8, usize)>)
    ensures
        spec_decode_byte_at(b@, pos as int) matches Some(p) ==> (r matches Some(q) && q.0 == p.0
            && q.1 as int == p.1),
        spec_decode_byte_at(b@, pos as int) is None ==> r is None,
{
    if pos < b.len() {
        Some((b[pos], pos + 1))
    } else {
        None
    }
}

fn decode_string_at(b: &Vec<u8>, pos: usize) -> (r: Option<(String, usize)>)
    ensures
        spec_decode_string_at(b@, pos as int) matches Some(p) ==> (r matches Some(q) && q.0@ == p.0
            && q.1 as int == p.1),
        spec_decode_string_at(b@, pos as int) is None ==> r is None,
{
    match decode_u64_at(b, pos) {
        Some((len64, pos2)) => {
            if (b.len() - pos2) as u64 >= len64 {
                let len = len64 as usize;
                let sub = slice_to_vec(slice_subrange(b.as_slice(), pos2, pos2 + len));
                match string_from_utf8(sub) {
                    Some(s) => Some((s, pos2 + len)),
                    None => None,
                }
            } else {
                None
            }
        },
        None => None,
    }
}

/// Decoding an integer finds the bytes its encoder wrote, anywhere in a
/// larger buffer.
pub proof fn lemma_decode_u16_at(b: Seq<u8>, pos: int, v: u16)
    requires
        0 <= pos,
        pos + 2 <= b.len(),
        b.subrange(pos, pos + 2) =~= spec_u16_to_le_bytes(v),
    ensures
        spec_decode_u16_at(b, pos) == Some((v, pos + 2)),
{
    lemma_auto_spec_u16_to_from_le_bytes();
    assert(spec_u16_to_le_bytes(v).len() == 2);
}

pub proof fn lemma_decode_u32_at(b: Seq<u8>, pos: int, v: u32)
    requires
        0 <= pos,
        pos + 4 <= b.len(),
        b.subrange(pos, pos + 4) =~= spec_u32_to_le_bytes(v),
    ensures
        spec_decode_u32_at(b, pos) == Some((v, pos + 4)),
{
    lemma_auto_spec_u32_to_from_le_bytes();
    assert(spec_u32_to_le_bytes(v).len() == 4);
}

pub proof fn lemma_decode_u64_at(b: Seq<u8>, pos: int, v: u64)
    requires
        0 <= pos,
        pos + 8 <= b.len(),
        b.subrange(pos, pos + 8) =~= spec_u64_to_le_bytes(v),
    ensures
        spec_decode_u64_at(b, pos) == Some((v, pos + 8)),
{
    lemma_auto_spec_u64_to_from_le_bytes();
}

/// Byte length of an encoded string.
pub open spec fn string_enc_len(s: Seq<char>) -> int {
    8 + encode_utf8(s).len() as int
}

pub proof fn lemma_string_enc_len(s: Seq<char>)
    ensures
        spec_encode_string(s).len() == string_enc_len(s),
{
    lemma_auto_spec_u64_to_from_le_bytes();
    assert(spec_u64_to_le_bytes(encode_utf8(s).len() as u64).len() == 8);
}

/// Decoding a string finds the characters its encoder wrote, anywhere in
/// a larger buffer, provided the byte length fits the length prefix.
pub proof fn lemma_decode_string_at(b: Seq<u8>, pos: int, s: Seq<char>)
    requires
        0 <= pos,
        encode_utf8(s).len() < max_len_prefix(),
        pos + string_enc_len(s) <= b.len(),
        b.subrange(pos, pos + string_enc_len(s)) =~= spec_encode_string(s),
    ensures
        spec_decode_string_at(b, pos) == Some((s, pos + string_enc_len(s))),
{
    broadcast use encode_utf8_valid_utf8;
    broadcast use encode_utf8_decode_utf8;

    lemma_auto_spec_u64_to_from_le_bytes();
    let utf8 = encode_utf8(s);
    let lenbytes = spec_u64_to_le_bytes(utf8.len() as u64);
    assert(b.subrange(pos, pos + 8) =~= lenbytes);
    assert(spec_decode_u64_at(b, pos) == Some((utf8.len() as u64, pos + 8)));
    assert forall|i: int| 0 <= i < utf8.len() implies b.subrange(
        pos + 8,
        pos + 8 + utf8.len(),
    )[i] == utf8[i] by {
        assert(b.subrange(pos, pos + string_enc_len(s))[8 + i] == spec_encode_string(s)[8 + i]);
    }
    assert(b.subrange(pos + 8, pos + 8 + utf8.len()) =~= utf8);
}

// ---------------------------------------------------------------------
// Entity records. Every record is decoded from position zero and must
// consume the whole value; trailing bytes fail the decode.
// ---------------------------------------------------------------------

pub open spec fn spec_encode_executor_metadata(m: ExecutorMetadataView) -> Seq<u8> {
    spec_encode_string(m.id) + spec_encode_string(m.host) + spec_u16_to_le_bytes(m.port)
        + spec_u16_to_le_bytes(m.grpc_port) + spec_u32_to_le_bytes(m.specification.task_slots)
}

pub open spec fn spec_decode_executor_metadata(b: Seq<u8>) -> Option<ExecutorMetadataView> {
    match spec_decode_string_at(b, 0) {
        Some(p1) => match spec_decode_string_at(b, p1.1) {
            Some(p2) => match spec_decode_u16_at(b, p2.1) {
                Some(p3) => match spec_decode_u16_at(b, p3.1) {
                    Some(p4) => match spec_decode_u32_at(b, p4.1) {
                        Some(p5) => if p5.1 == b.len() {
                            Some(
                                (ExecutorMetadataView {
                                    id: p1.0,
                                    host: p2.0,
                                    port: p3.0,
                                    grpc_port: p4.0,
                                    specification: (ExecutorSpecification { task_slots: p5.0 }),
                                }),
                            )
                        } else {
                            None
                        },
                        None => None,
                    },
                    None => None,
                },
                None => None,
            },
            None => None,
        },
        None => None,
    }
}

pub fn encode_executor_metadata(m: &ExecutorMetadata) -> (r: Vec<u8>)
    ensures
        r@ == spec_encode_executor_metadata(m@),
{
    let mut out: Vec<u8> = Vec::new();
    encode_string(&mut out, &m.id);
    encode_string(&mut out, &m.host);
    encode_u16(&mut out, m.port);
    encode_u16(&mut out, m.grpc_port);
    encode_u32(&mut out, m.specification.task_slots);
    proof {
        assert(out@ =~= spec_encode_executor_metadata(m@));
    }
    out
}

pub fn decode_executor_metadata(b: &Vec<u8>) -> (r: Option<ExecutorMetadata>)
    ensures
        spec_decode_executor_metadata(b@) matches Some(v) ==> (r matches Some(m) && m@ =~= v),
        spec_decode_executor_metadata(b@) is None ==> r is None,
{
    match decode_string_at(b, 0) {
        Some((id, pos1)) => match decode_string_at(b, pos1) {
            Some((host, pos2)) => match decode_u16_at(b, pos2) {
                Some((port, pos3)) => match decode_u16_at(b, pos3) {
                    Some((grpc_port, pos4)) => match decode_u32_at(b, pos4) {
                        Some((task_slots, pos5)) => if pos5 == b.len() {
                            Some(
                                ExecutorMetadata {
                                    id,
                                    host,
                                    port,
                                    grpc_port,
                                    specification: ExecutorSpecification { task_slots },
                                },
                            )
                        } else {
                            None
                        },
                        None => None,
                    },
                    None => None,
                },
                None => None,
            },
            None => None,
        },
        None => None,
    }
}

/// Round trip for executor metadata records.
pub proof fn lemma_executor_metadata_round_trip(m: ExecutorMetadataView)
    requires
        encode_utf8(m.id).len() < max_len_prefix(),
        encode_utf8(m.host).len() < max_len_prefix(),
    ensures
        spec_decode_executor_metadata(spec_encode_executor_metadata(m)) == Some(m),
{
    lemma_auto_spec_u16_to_from_le_bytes();
    lemma_auto_spec_u32_to_from_le_bytes();
    lemma_string_enc_len(m.id);
    lemma_string_enc_len(m.host);
    let b = spec_encode_executor_metadata(m);
    let l1 = string_enc_len(m.id);
    let l2 = string_enc_len(m.host);
    assert(spec_u16_to_le_bytes(m.port).len() == 2);
    assert(spec_u16_to_le_bytes(m.grpc_port).len() == 2);
    assert(spec_u32_to_le_bytes(m.specification.task_slots).len() == 4);
    assert(b.subrange(0, l1) =~= spec_encode_string(m.id));
    lemma_decode_string_at(b, 0, m.id);
    assert(b.subrange(l1, l1 + l2) =~= spec_encode_string(m.host));
    lemma_decode_string_at(b, l1, m.host);
    assert(b.subrange(l1 + l2, l1 + l2 + 2) =~= spec_u16_to_le_bytes(m.port));
    lemma_decode_u16_at(b, l1 + l2, m.port);
    assert(b.subrange(l1 + l2 + 2, l1 + l2 + 4) =~= spec_u16_to_le_bytes(m.grpc_port));
    lemma_decode_u16_at(b, l1 + l2 + 2, m.grpc_port);
    assert(b.subrange(l1 + l2 + 4, l1 + l2 + 8) =~= spec_u32_to_le_bytes(
        m.specification.task_slots,
    ));
    lemma_decode_u32_at(b, l1 + l2 + 4, m.specification.task_slots);
    assert(spec_decode_executor_metadata(b) matches Some(v) && v =~= m);
}

pub open spec fn spec_encode_executor_data(d: ExecutorDataView) -> Seq<u8> {
    spec_encode_string(d.executor_id) + spec_u32_to_le_bytes(d.total_task_slots)
        + spec_u32_to_le_bytes(d.available_task_slots)
}

pub open spec fn spec_decode_executor_data(b: Seq<u8>) -> Option<ExecutorDataView> {
    match spec_decode_string_at(b, 0) {
        Some(p1) => match spec_decode_u32_at(b, p1.1) {
            Some(p2) => match spec_decode_u32_at(b, p2.1) {
                Some(p3) => if p3.1 == b.len() {
                    Some(
                        (ExecutorDataView {
                            executor_id: p1.0,
                            total_task_slots: p2.0,
                            available_task_slots: p3.0,
                        }),
                    )
                } else {
                    None
                },
                None => None,
            },
            None => None,
        },
        None => None,
    }
}

pub fn encode_executor_data(d: &ExecutorData) -> (r: Vec<u8>)
    ensures
        r@ == spec_encode_executor_data(d@),
{
    let mut out: Vec<u8> = Vec::new();
    encode_string(&mut out, &d.executor_id);
    encode_u32(&mut out, d.total_task_slots);
    encode_u32(&mut out, d.available_task_slots);
    proof {
        assert(out@ =~= spec_encode_executor_data(d@));
    }
    out
}

pub fn decode_executor_data(b: &Vec<u8>) -> (r: Option<ExecutorData>)
    ensures
        spec_decode_executor_data(b@) matches Some(v) ==> (r matches Some(d) && d@ =~= v),
        spec_decode_executor_data(b@) is None ==> r is None,
{
    match decode_string_at(b, 0) {
        Some((executor_id, pos1)) => match decode_u32_at(b, pos1) {
            Some((total_task_slots, pos2)) => match decode_u32_at(b, pos2) {
                Some((available_task_slots, pos3)) => if pos3 == b.len() {
                    Some(ExecutorData { executor_id, total_task_slots, available_task_slots })
                } else {
                    None
                },
                None => None,
            },
            None => None,
        },
        None => None,
    }
}

/// Round trip for slot records.
pub proof fn lemma_executor_data_round_trip(d: ExecutorDataView)
    requires
        encode_utf8(d.executor_id).len() < max_len_prefix(),
    ensures
        spec_decode_executor_data(spec_encode_executor_data(d)) == Some(d),
{
    lemma_auto_spec_u32_to_from_le_bytes();
    lemma_string_enc_len(d.executor_id);
    let b = spec_encode_executor_data(d);
    let l1 = string_enc_len(d.executor_id);
    assert(spec_u32_to_le_bytes(d.total_task_slots).len() == 4);
    assert(spec_u32_to_le_bytes(d.available_task_slots).len() == 4);
    assert(b.subrange(0, l1) =~= spec_encode_string(d.executor_id));
    lemma_decode_string_at(b, 0, d.executor_id);
    assert(b.subrange(l1, l1 + 4) =~= spec_u32_to_le_bytes(d.total_task_slots));
    lemma_decode_u32_at(b, l1, d.total_task_slots);
    assert(b.subrange(l1 + 4, l1 + 8) =~= spec_u32_to_le_bytes(d.available_task_slots));
    lemma_decode_u32_at(b, l1 + 4, d.available_task_slots);
    assert(spec_decode_executor_data(b) matches Some(v) && v =~= d);
}

pub open spec fn spec_encode_executor_heartbeat(h: ExecutorHeartbeatView) -> Seq<u8> {
    spec_encode_string(h.executor_id) + spec_u64_to_le_bytes(h.timestamp) + (match h.state {
        Some(s) => seq![1u8] + spec_encode_string(s),
        None => seq![0u8],
    })
}

pub open spec fn spec_decode_executor_heartbeat(b: Seq<u8>) -> Option<ExecutorHeartbeatView> {
    match spec_decode_string_at(b, 0) {
        Some(p1) => match spec_decode_u64_at(b, p1.1) {
            Some(p2) => match spec_decode_byte_at(b, p2.1) {
                Some(p3) => if p3.0 == 0 && p3.1 == b.len() {
                    Some(
                        (ExecutorHeartbeatView {
                            executor_id: p1.0,
                            timestamp: p2.0,
                            state: None,
                        }),
                    )
                } else if p3.0 == 1 {
                    match spec_decode_string_at(b, p3.1) {
                        Some(p4) => if p4.1 == b.len() {
                            Some(
                                (ExecutorHeartbeatView {
                                    executor_id: p1.0,
                                    timestamp: p2.0,
                                    state: Some(p4.0),
                                }),
                            )
                        } else {
                            None
                        },
                        None => None,
                    }
                } else {
                    None
                },
                None => None,
            },
            None => None,
        },
        None => None,
    }
}

pub fn encode_executor_heartbeat(h: &ExecutorHeartbeat) -> (r: Vec<u8>)
    ensures
        r@ == spec_encode_executor_heartbeat(h@),
{
    let mut out: Vec<u8> = Vec::new();
    encode_string(&mut out, &h.executor_id);
    encode_u64(&mut out, h.timestamp);
    match &h.state {
        Some(s) => {
            out.push(1u8);
            encode_string(&mut out, s);
        },
        None => {
            out.push(0u8);
        },
    }
    proof {
        assert(out@ =~= spec_encode_executor_heartbeat(h@));
    }
    out
}

pub fn decode_executor_heartbeat(b: &Vec<u8>) -> (r: Option<ExecutorHeartbeat>)
    ensures
        spec_decode_executor_heartbeat(b@) matches Some(v) ==> (r matches Some(h) && h@ =~~= v),
        spec_decode_executor_heartbeat(b@) is None ==> r is None,
{
    match decode_string_at(b, 0) {
        Some((executor_id, pos1)) => match decode_u64_at(b, pos1) {
            Some((timestamp, pos2)) => match decode_byte_at(b, pos2) {
                Some((tag, pos3)) => if tag == 0 && pos3 == b.len() {
                    Some(ExecutorHeartbeat { executor_id, timestamp, state: None })
                } else if tag == 1 {
                    match decode_string_at(b, pos3) {
                        Some((state, pos4)) => if pos4 == b.len() {
                            Some(
                                ExecutorHeartbeat {
                                    executor_id,
                                    timestamp,
                                    state: Some(state),
                                },
                            )
                        } else {
                            None
                        },
                        None => None,
                    }
                } else {
                    None
                },
                None => None,
            },
            None => None,
        },
        None => None,
    }
}

/// Round trip for heartbeat records.
pub proof fn lemma_executor_heartbeat_round_trip(h: ExecutorHeartbeatView)
    requires
        encode_utf8(h.executor_id).len() < max_len_prefix(),
        h.state matches Some(s) ==> encode_utf8(s).len() < max_len_prefix(),
    ensures
        spec_decode_executor_heartbeat(spec_encode_executor_heartbeat(h)) == Some(h),
{
    lemma_auto_spec_u64_to_from_le_bytes();
    lemma_string_enc_len(h.executor_id);
    let b = spec_encode_executor_heartbeat(h);
    let l1 = string_enc_len(h.executor_id);
    assert(spec_u64_to_le_bytes(h.timestamp).len() == 8);
    assert(b.subrange(0, l1) =~= spec_encode_string(h.executor_id));
    lemma_decode_string_at(b, 0, h.executor_id);
    assert(b.subrange(l1, l1 + 8) =~= spec_u64_to_le_bytes(h.timestamp));
    lemma_decode_u64_at(b, l1, h.timestamp);
    match h.state {
        None => {
            assert(b[l1 + 8] == 0u8);
            assert(spec_decode_executor_heartbeat(b) matches Some(v) && v =~= h);
        },
        Some(s) => {
            lemma_string_enc_len(s);
            assert(b[l1 + 8] == 1u8);
            assert(b.subrange(l1 + 9, l1 + 9 + string_enc_len(s)) =~= spec_encode_string(s));
            lemma_decode_string_at(b, l1 + 9, s);
            assert(spec_decode_executor_heartbeat(b) matches Some(v) && v =~= h);
        },
    }
}

pub open spec fn spec_encode_job_status(j: JobStatusView) -> Seq<u8> {
    match j {
        JobStatusView::Queued => seq![0u8],
        JobStatusView::Running => seq![1u8],
        JobStatusView::Completed => seq![2u8],
        JobStatusView::Failed { error } => seq![3u8] + spec_encode_string(error),
    }
}

pub open spec fn spec_decode_job_status(b: Seq<u8>) -> Option<JobStatusView> {
    match spec_decode_byte_at(b, 0) {
        Some(p) => if p.0 == 0 && b.len() == 1 {
            Some(JobStatusView::Queued)
        } else if p.0 == 1 && b.len() == 1 {
            Some(JobStatusView::Running)
        } else if p.0 == 2 && b.len() == 1 {
            Some(JobStatusView::Completed)
        } else if p.0 == 3 {
            match spec_decode_string_at(b, 1) {
                Some(q) => if q.1 == b.len() {
                    Some((JobStatusView::Failed { error: q.0 }))
                } else {
                    None
                },
                None => None,
            }
        } else {
            None
        },
        None => None,
    }
}

pub fn encode_job_status(j: &JobStatus) -> (r: Vec<u8>)
    ensures
        r@ == spec_encode_job_status(j@),
{
    let mut out: Vec<u8> = Vec::new();
    match j {
        JobStatus::Queued => out.push(0u8),
        JobStatus::Running => out.push(1u8),
        JobStatus::Completed => out.push(2u8),
        JobStatus::Failed { error } => {
            out.push(3u8);
            encode_string(&mut out, error);
        },
    }
    proof {
        assert(out@ =~= spec_encode_job_status(j@));
    }
    out
}

pub fn decode_job_status(b: &Vec<u8>) -> (r: Option<JobStatus>)
    ensures
        spec_decode_job_status(b@) matches Some(v) ==> (r matches Some(j) && j@ =~= v),
        spec_decode_job_status(b@) is None ==> r is None,
{
    match decode_byte_at(b, 0) {
        Some((tag, pos1)) => {
            if tag == 0 && b.len() == 1 {
                Some(JobStatus::Queued)
            } else if tag == 1 && b.len() == 1 {
                Some(JobStatus::Running)
            } else if tag == 2 && b.len() == 1 {
                Some(JobStatus::Completed)
            } else if tag == 3 {
                match decode_string_at(b, pos1) {
                    Some((error, pos2)) => if pos2 == b.len() {
                        Some(JobStatus::Failed { error })
                    } else {
                        None
                    },
                    None => None,
                }
            } else {
                None
            }
        },
        None => None,
    }
}

/// Round trip for job status records.
pub proof fn lemma_job_status_round_trip(j: JobStatusView)
    requires
        j matches JobStatusView::Failed { error } ==> encode_utf8(error).len() < max_len_prefix(),
    ensures
        spec_decode_job_status(spec_encode_job_status(j)) == Some(j),
{
    let b = spec_encode_job_status(j);
    match j {
        JobStatusView::Failed { error } => {
            lemma_string_enc_len(error);
            assert(b.subrange(1, 1 + string_enc_len(error)) =~= spec_encode_string(error));
            lemma_decode_string_at(b, 1, error);
            assert(spec_decode_job_status(b) matches Some(v) && v =~= j);
        },
        _ => {
            assert(spec_decode_job_status(b) matches Some(v) && v =~= j);
        },
    }
}

pub open spec fn spec_encode_task_state(s: TaskStateView) -> Seq<u8> {
    match s {
        TaskStateView::Pending => seq![0u8],
        TaskStateView::Running { executor_id, start_ts } => seq![1u8] + spec_encode_string(
            executor_id,
        ) + spec_u64_to_le_bytes(start_ts),
        TaskStateView::Completed { executor_id } => seq![2u8] + spec_encode_string(executor_id),
        TaskStateView::Failed { error } => seq![3u8] + spec_encode_string(error),
    }
}

pub open spec fn spec_encode_task_status(t: TaskStatusView) -> Seq<u8> {
    spec_encode_string(t.task_id.job_id) + spec_u32_to_le_bytes(t.task_id.stage_id)
        + spec_u32_to_le_bytes(t.task_id.partition_id) + spec_encode_task_state(t.status)
}

pub open spec fn spec_decode_task_state_at(b: Seq<u8>, pos: int) -> Option<(TaskStateView, int)> {
    match spec_decode_byte_at(b, pos) {
        Some(p) => if p.0 == 0 {
            Some((TaskStateView::Pending, p.1))
        } else if p.0 == 1 {
            match spec_decode_string_at(b, p.1) {
                Some(q) => match spec_decode_u64_at(b, q.1) {
                    Some(w) => Some(
                        ((TaskStateView::Running { executor_id: q.0, start_ts: w.0 }), w.1),
                    ),
                    None => None,
                },
                None => None,
            }
        } else if p.0 == 2 {
            match spec_decode_string_at(b, p.1) {
                Some(q) => Some(((TaskStateView::Completed { executor_id: q.0 }), q.1)),
                None => None,
            }
        } else if p.0 == 3 {
            match spec_decode_string_at(b, p.1) {
                Some(q) => Some(((TaskStateView::Failed { error: q.0 }), q.1)),
                None => None,
            }
        } else {
            None
        },
        None => None,
    }
}

pub open spec fn spec_decode_task_status(b: Seq<u8>) -> Option<TaskStatusView> {
    match spec_decode_string_at(b, 0) {
        Some(p1) => match spec_decode_u32_at(b, p1.1) {
            Some(p2) => match spec_decode_u32_at(b, p2.1) {
                Some(p3) => match spec_decode_task_state_at(b, p3.1) {
                    Some(p4) => if p4.1 == b.len() {
                        Some(
                            (TaskStatusView {
                                task_id: (PartitionIdView {
                                    job_id: p1.0,
                                    stage_id: p2.0,
                                    partition_id: p3.0,
                                }),
                                status: p4.0,
                            }),
                        )
                    } else {
                        None
                    },
                    None => None,
                },
                None => None,
            },
            None => None,
        },
        None => None,
    }
}

pub fn encode_task_status(t: &TaskStatus) -> (r: Vec<u8>)
    ensures
        r@ == spec_encode_task_status(t@),
{
    let mut out: Vec<u8> = Vec::new();
    encode_string(&mut out, &t.task_id.job_id);
    encode_u32(&mut out, t.task_id.stage_id);
    encode_u32(&mut out, t.task_id.partition_id);
    match &t.status {
        TaskState::Pending => out.push(0u8),
        TaskState::Running { executor_id, start_ts } => {
            out.push(1u8);
            encode_string(&mut out, executor_id);
            encode_u64(&mut out, *start_ts);
        },
        TaskState::Completed { executor_id } => {
            out.push(2u8);
            encode_string(&mut out, executor_id);
        },
        TaskState::Failed { error } => {
            out.push(3u8);
            encode_string(&mut out, error);
        },
    }
    proof {
        assert(out@ =~= spec_encode_task_status(t@));
    }
    out
}

fn decode_task_state_at(b: &Vec<u8>, pos: usize) -> (r: Option<(TaskState, usize)>)
    ensures
        spec_decode_task_state_at(b@, pos as int) matches Some(p) ==> (r matches Some(q) && q.0@
            =~= p.0 && q.1 as int == p.1),
        spec_decode_task_state_at(b@, pos as int) is None ==> r is None,
{
    match decode_byte_at(b, pos) {
        Some((tag, pos1)) => {
            if tag == 0 {
                Some((TaskState::Pending, pos1))
            } else if tag == 1 {
                match decode_string_at(b, pos1) {
                    Some((executor_id, pos2)) => match decode_u64_at(b, pos2) {
                        Some((start_ts, pos3)) => Some(
                            (TaskState::Running { executor_id, start_ts }, pos3),
                        ),
                        None => None,
                    },
                    None => None,
                }
            } else if tag == 2 {
                match decode_string_at(b, pos1) {
                    Some((executor_id, pos2)) => Some(
                        (TaskState::Completed { executor_id }, pos2),
                    ),
                    None => None,
                }
            } else if tag == 3 {
                match decode_string_at(b, pos1) {
                    Some((error, pos2)) => Some((TaskState::Failed { error }, pos2)),
                    None => None,
                }
            } else {
                None
            }
        },
        None => None,
    }
}

pub fn decode_task_status(b: &Vec<u8>) -> (r: Option<TaskStatus>)
    ensures
        spec_decode_task_status(b@) matches Some(v) ==> (r matches Some(t) && t@ =~~= v),
        spec_decode_task_status(b@) is None ==> r is None,
{
    match decode_string_at(b, 0) {
        Some((job_id, pos1)) => match decode_u32_at(b, pos1) {
            Some((stage_id, pos2)) => match decode_u32_at(b, pos2) {
                Some((partition_id, pos3)) => match decode_task_state_at(b, pos3) {
                    Some((status, pos4)) => if pos4 == b.len() {
                        Some(
                            TaskStatus {
                                task_id: PartitionId { job_id, stage_id, partition_id },
                                status,
                            },
                        )
                    } else {
                        None
                    },
                    None => None,
                },
                None => None,
            },
            None => None,
        },
        None => None,
    }
}

/// Byte length of an encoded task state.
pub open spec fn task_state_enc_len(s: TaskStateView) -> int {
    match s {
        TaskStateView::Pending => 1,
        TaskStateView::Running { executor_id, .. } => 1 + string_enc_len(executor_id) + 8,
        TaskStateView::Completed { executor_id } => 1 + string_enc_len(executor_id),
        TaskStateView::Failed { error } => 1 + string_enc_len(error),
    }
}

/// All strings a task state can carry fit the length prefix.
pub open spec fn task_state_fits(s: TaskStateView) -> bool {
    match s {
        TaskStateView::Pending => true,
        TaskStateView::Running { executor_id, .. } => encode_utf8(executor_id).len()
            < max_len_prefix(),
        TaskStateView::Completed { executor_id } => encode_utf8(executor_id).len()
            < max_len_prefix(),
        TaskStateView::Failed { error } => encode_utf8(error).len() < max_len_prefix(),
    }
}

proof fn lemma_task_state_enc_len(s: TaskStateView)
    ensures
        spec_encode_task_state(s).len() == task_state_enc_len(s),
{
    match s {
        TaskStateView::Pending => {},
        TaskStateView::Running { executor_id, start_ts } => {
            lemma_string_enc_len(executor_id);
            lemma_auto_spec_u64_to_from_le_bytes();
            assert(spec_u64_to_le_bytes(start_ts).len() == 8);
        },
        TaskStateView::Completed { executor_id } => lemma_string_enc_len(executor_id),
        TaskStateView::Failed { error } => lemma_string_enc_len(error),
    }
}

proof fn lemma_task_state_round_trip_at(b: Seq<u8>, pos: int, s: TaskStateView)
    requires
        0 <= pos,
        task_state_fits(s),
        pos + task_state_enc_len(s) <= b.len(),
        b.subrange(pos, pos + task_state_enc_len(s)) =~= spec_encode_task_state(s),
    ensures
        spec_decode_task_state_at(b, pos) == Some((s, pos + task_state_enc_len(s))),
{
    let enc = spec_encode_task_state(s);
    assert(b[pos] == enc[0]) by {
        assert(b.subrange(pos, pos + task_state_enc_len(s))[0] == enc[0]);
    }
    match s {
        TaskStateView::Pending => {},
        TaskStateView::Running { executor_id, start_ts } => {
            lemma_string_enc_len(executor_id);
            let l = string_enc_len(executor_id);
            assert forall|i: int| 0 <= i < l implies b.subrange(pos + 1, pos + 1 + l)[i]
                == spec_encode_string(executor_id)[i] by {
                assert(b.subrange(pos, pos + task_state_enc_len(s))[1 + i] == enc[1 + i]);
            }
            assert(b.subrange(pos + 1, pos + 1 + l) =~= spec_encode_string(executor_id));
            lemma_decode_string_at(b, pos + 1, executor_id);
            lemma_auto_spec_u64_to_from_le_bytes();
            assert(spec_u64_to_le_bytes(start_ts).len() == 8);
            assert forall|i: int| 0 <= i < 8 implies b.subrange(pos + 1 + l, pos + 1 + l + 8)[i]
                == spec_u64_to_le_bytes(start_ts)[i] by {
                assert(b.subrange(pos, pos + task_state_enc_len(s))[1 + l + i] == enc[1 + l + i]);
            }
            assert(b.subrange(pos + 1 + l, pos + 1 + l + 8) =~= spec_u64_to_le_bytes(start_ts));
            lemma_decode_u64_at(b, pos + 1 + l, start_ts);
        },
        TaskStateView::Completed { executor_id } => {
            lemma_string_enc_len(executor_id);
            assert forall|i: int| 0 <= i < string_enc_len(executor_id) implies b.subrange(
                pos + 1,
                pos + 1 + string_enc_len(executor_id),
            )[i] == spec_encode_string(executor_id)[i] by {
                assert(b.subrange(pos, pos + task_state_enc_len(s))[1 + i] == enc[1 + i]);
            }
            assert(b.subrange(pos + 1, pos + 1 + string_enc_len(executor_id)) =~= spec_encode_string(
                executor_id,
            ));
            lemma_decode_string_at(b, pos + 1, executor_id);
        },
        TaskStateView::Failed { error } => {
            lemma_string_enc_len(error);
            assert forall|i: int| 0 <= i < string_enc_len(error) implies b.subrange(
                pos + 1,
                pos + 1 + string_enc_len(error),
            )[i] == spec_encode_string(error)[i] by {
                assert(b.subrange(pos, pos + task_state_enc_len(s))[1 + i] == enc[1 + i]);
            }
            assert(b.subrange(pos + 1, pos + 1 + string_enc_len(error)) =~= spec_encode_string(
                error,
            ));
            lemma_decode_string_at(b, pos + 1, error);
        },
    }
}

/// Round trip for task records.
pub proof fn lemma_task_status_round_trip(t: TaskStatusView)
    requires
        encode_utf8(t.task_id.job_id).len() < max_len_prefix(),
        task_state_fits(t.status),
    ensures
        spec_decode_task_status(spec_encode_task_status(t)) == Some(t),
{
    lemma_auto_spec_u32_to_from_le_bytes();
    lemma_string_enc_len(t.task_id.job_id);
    let b = spec_encode_task_status(t);
    let l1 = string_enc_len(t.task_id.job_id);
    assert(spec_u32_to_le_bytes(t.task_id.stage_id).len() == 4);
    assert(spec_u32_to_le_bytes(t.task_id.partition_id).len() == 4);
    assert(b.subrange(0, l1) =~= spec_encode_string(t.task_id.job_id));
    lemma_decode_string_at(b, 0, t.task_id.job_id);
    assert(b.subrange(l1, l1 + 4) =~= spec_u32_to_le_bytes(t.task_id.stage_id));
    lemma_decode_u32_at(b, l1, t.task_id.stage_id);
    assert(b.subrange(l1 + 4, l1 + 8) =~= spec_u32_to_le_bytes(t.task_id.partition_id));
    lemma_decode_u32_at(b, l1 + 4, t.task_id.partition_id);
    lemma_task_state_enc_len(t.status);
    assert(b.subrange(l1 + 8, l1 + 8 + task_state_enc_len(t.status)) =~= spec_encode_task_state(
        t.status,
    ));
    lemma_task_state_round_trip_at(b, l1 + 8, t.status);
    assert(spec_decode_task_status(b) matches Some(v) && v =~~= t);
}

} // verus!
