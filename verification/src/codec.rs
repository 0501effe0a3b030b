//! How the values of the store are written as messages and read back:
//! segments, snapshots, node addresses, log entries and the catalog.
//! Every message is a run of fields in a fixed order; a reader accepts that
//! order and nothing else.

use crate::model::{
    LogEntry, LogEntryView, LogRange, NodeAddr, NodeAddrView, PayloadType, SnapshotRange,
};
use crate::wire::{
    bytes_field, field_views, fields_fit, lemma_message_roundtrip, message_bytes, message_fields,
    parse_message, varint_field, write_message, Field, FieldValue, FieldView, ValueView,
};
use vstd::prelude::*;
use vstd::slice::slice_to_vec;
use vstd::utf8::{
    decode_utf8, encode_utf8, encode_utf8_decode_utf8, encode_utf8_valid_utf8, valid_utf8,
};

verus! {

/// The number that `f` carries, when `f` is a varint field with the given
/// number.
pub open spec fn field_varint(f: FieldView, number: u32) -> Option<u64> {
    match f.value {
        ValueView::Varint(v) => if f.number == number {
            Some(v)
        } else {
            None
        },
        ValueView::Bytes(_) => None,
    }
}

/// The bytes that `f` carries, when `f` is a length-delimited field with the
/// given number.
pub open spec fn field_payload(f: FieldView, number: u32) -> Option<Seq<u8>> {
    match f.value {
        ValueView::Varint(_) => None,
        ValueView::Bytes(b) => if f.number == number {
            Some(b)
        } else {
            None
        },
    }
}

/// The number by which a flag is written.
pub open spec fn flag_number(b: bool) -> u64 {
    if b {
        1
    } else {
        0
    }
}

/// The number by which the kind of a payload is written.
pub open spec fn payload_type_number(t: PayloadType) -> u64 {
    match t {
        PayloadType::Blank => 0,
        PayloadType::Normal => 1,
        PayloadType::ConfigChange => 2,
        PayloadType::SnapshotPointer => 3,
    }
}

/// The kind of payload that a number stands for.
pub open spec fn payload_type_of(n: u64) -> Option<PayloadType> {
    if n == 0 {
        Some(PayloadType::Blank)
    } else if n == 1 {
        Some(PayloadType::Normal)
    } else if n == 2 {
        Some(PayloadType::ConfigChange)
    } else if n == 3 {
        Some(PayloadType::SnapshotPointer)
    } else {
        None
    }
}

pub(crate) fn get_field_varint(f: &Field, number: u32) -> (r: Option<u64>)
    ensures
        r == field_varint(f@, number),
{
    match &f.value {
        FieldValue::Varint(v) => if f.number == number {
            Some(*v)
        } else {
            None
        },
        FieldValue::Bytes(_) => None,
    }
}

pub(crate) fn get_field_payload(f: &Field, number: u32) -> (r: Option<Vec<u8>>)
    ensures
        match field_payload(f@, number) {
            None => r.is_none(),
            Some(b) => r matches Some(v) && v@ == b,
        },
{
    match &f.value {
        FieldValue::Varint(_) => None,
        FieldValue::Bytes(b) => if f.number == number {
            Some(slice_to_vec(b.as_slice()))
        } else {
            None
        },
    }
}

fn make_varint_field(number: u32, v: u64) -> (f: Field)
    ensures
        f@ == varint_field(number, v),
{
    Field { number, value: FieldValue::Varint(v) }
}

fn make_bytes_field(number: u32, b: Vec<u8>) -> (f: Field)
    ensures
        f@ == bytes_field(number, b@),
{
    Field { number, value: FieldValue::Bytes(b) }
}

fn flag_to_number(b: bool) -> (n: u64)
    ensures
        n == flag_number(b),
{
    if b {
        1
    } else {
        0
    }
}

// ---------------------------------------------------------------- segments

/// The fields of a segment, in the order in which they are written.
pub open spec fn log_range_fields(r: LogRange) -> Seq<FieldView> {
    seq![
        varint_field(1, r.id),
        varint_field(2, r.start_index),
        varint_field(3, r.pre_term),
        varint_field(4, r.record_count),
        varint_field(5, flag_number(r.is_close)),
        varint_field(6, flag_number(r.mark_remove)),
    ]
}

/// The segment that a run of fields describes: the six fields in their
/// order, each flag 0 or 1.
pub open spec fn log_range_of_fields(fs: Seq<FieldView>) -> Option<LogRange> {
    if fs.len() == 6 {
        match (
            field_varint(fs[0], 1),
            field_varint(fs[1], 2),
            field_varint(fs[2], 3),
            field_varint(fs[3], 4),
            field_varint(fs[4], 5),
            field_varint(fs[5], 6),
        ) {
            (Some(id), Some(start_index), Some(pre_term), Some(record_count), Some(c), Some(m)) => {
                if c <= 1 && m <= 1 {
                    Some(
                        LogRange {
                            id,
                            start_index,
                            pre_term,
                            record_count,
                            is_close: c == 1,
                            mark_remove: m == 1,
                        },
                    )
                } else {
                    None
                }
            },
            _ => None,
        }
    } else {
        None
    }
}

/// The bytes of a segment's description.
pub open spec fn log_range_bytes(r: LogRange) -> Seq<u8> {
    message_bytes(log_range_fields(r))
}

/// The segment that `s` describes, if any.
pub open spec fn log_range_decode(s: Seq<u8>) -> Option<LogRange> {
    match message_fields(s) {
        None => None,
        Some(fs) => log_range_of_fields(fs),
    }
}

/// Reading a segment's description that was written gives the segment back.
pub proof fn lemma_log_range_roundtrip(r: LogRange)
    ensures
        log_range_decode(log_range_bytes(r)) == Some(r),
{
    lemma_message_roundtrip(log_range_fields(r));
}

/// Writes a segment's description.
pub fn encode_log_range(r: &LogRange) -> (bytes: Vec<u8>)
    ensures
        bytes@ == log_range_bytes(*r),
{
    let mut fields: Vec<Field> = Vec::new();
    fields.push(make_varint_field(1, r.id));
    fields.push(make_varint_field(2, r.start_index));
    fields.push(make_varint_field(3, r.pre_term));
    fields.push(make_varint_field(4, r.record_count));
    fields.push(make_varint_field(5, flag_to_number(r.is_close)));
    fields.push(make_varint_field(6, flag_to_number(r.mark_remove)));
    assert(field_views(fields@) =~= log_range_fields(*r));
    write_message(&fields)
}

/// Reads a segment's description.
pub fn decode_log_range(bytes: &[u8]) -> (r: Option<LogRange>)
    ensures
        r == log_range_decode(bytes@),
{
    let parsed = parse_message(bytes);
    if parsed.is_none() {
        return None;
    }
    let fields = parsed.unwrap();
    if fields.len() != 6 {
        return None;
    }
    match (
        get_field_varint(&fields[0], 1),
        get_field_varint(&fields[1], 2),
        get_field_varint(&fields[2], 3),
        get_field_varint(&fields[3], 4),
        get_field_varint(&fields[4], 5),
        get_field_varint(&fields[5], 6),
    ) {
        (Some(id), Some(start_index), Some(pre_term), Some(record_count), Some(c), Some(m)) => {
            if c <= 1 && m <= 1 {
                Some(
                    LogRange {
                        id,
                        start_index,
                        pre_term,
                        record_count,
                        is_close: c == 1,
                        mark_remove: m == 1,
                    },
                )
            } else {
                None
            }
        },
        _ => None,
    }
}

// --------------------------------------------------------------- snapshots

/// The fields of a snapshot, in the order in which they are written.
pub open spec fn snapshot_fields(r: SnapshotRange) -> Seq<FieldView> {
    seq![
        varint_field(1, r.id),
        varint_field(2, r.last_included_index),
        varint_field(3, r.last_included_term),
    ]
}

/// The snapshot that a run of fields describes: the three fields in their
/// order.
pub open spec fn snapshot_of_fields(fs: Seq<FieldView>) -> Option<SnapshotRange> {
    if fs.len() == 3 {
        match (field_varint(fs[0], 1), field_varint(fs[1], 2), field_varint(fs[2], 3)) {
            (Some(id), Some(last_included_index), Some(last_included_term)) => Some(
                SnapshotRange { id, last_included_index, last_included_term },
            ),
            _ => None,
        }
    } else {
        None
    }
}

/// The bytes of a snapshot's description.
pub open spec fn snapshot_bytes(r: SnapshotRange) -> Seq<u8> {
    message_bytes(snapshot_fields(r))
}

/// The snapshot that `s` describes, if any.
pub open spec fn snapshot_decode(s: Seq<u8>) -> Option<SnapshotRange> {
    match message_fields(s) {
        None => None,
        Some(fs) => snapshot_of_fields(fs),
    }
}

/// Reading a snapshot's description that was written gives the snapshot back.
pub proof fn lemma_snapshot_roundtrip(r: SnapshotRange)
    ensures
        snapshot_decode(snapshot_bytes(r)) == Some(r),
{
    lemma_message_roundtrip(snapshot_fields(r));
}

/// Writes a snapshot's description.
pub fn encode_snapshot(r: &SnapshotRange) -> (bytes: Vec<u8>)
    ensures
        bytes@ == snapshot_bytes(*r),
{
    let mut fields: Vec<Field> = Vec::new();
    fields.push(make_varint_field(1, r.id));
    fields.push(make_varint_field(2, r.last_included_index));
    fields.push(make_varint_field(3, r.last_included_term));
    assert(field_views(fields@) =~= snapshot_fields(*r));
    write_message(&fields)
}

/// Reads a snapshot's description.
pub fn decode_snapshot(bytes: &[u8]) -> (r: Option<SnapshotRange>)
    ensures
        r == snapshot_decode(bytes@),
{
    let parsed = parse_message(bytes);
    if parsed.is_none() {
        return None;
    }
    let fields = parsed.unwrap();
    if fields.len() != 3 {
        return None;
    }
    match (
        get_field_varint(&fields[0], 1),
        get_field_varint(&fields[1], 2),
        get_field_varint(&fields[2], 3),
    ) {
        (Some(id), Some(last_included_index), Some(last_included_term)) => Some(
            SnapshotRange { id, last_included_index, last_included_term },
        ),
        _ => None,
    }
}

// ---------------------------------------------------------- node addresses

/// `String::from_utf8` of std: the string whose UTF-8 encoding the bytes
/// are, or `None` when they are not valid UTF-8.
#[verifier::external_body]
fn string_from_utf8(bytes: Vec<u8>) -> (r: Option<String>)
    ensures
        match r {
            Some(s) => valid_utf8(bytes@) && s@ == decode_utf8(bytes@),
            None => !valid_utf8(bytes@),
        },
{
    String::from_utf8(bytes).ok()
}

/// The fields of a node's address: its identifier and the address in UTF-8.
pub open spec fn node_addr_fields(a: NodeAddrView) -> Seq<FieldView> {
    seq![varint_field(1, a.id), bytes_field(2, encode_utf8(a.addr))]
}

/// The address that a run of fields describes: the two fields in their
/// order, the second valid UTF-8.
pub open spec fn node_addr_of_fields(fs: Seq<FieldView>) -> Option<NodeAddrView> {
    if fs.len() == 2 {
        match (field_varint(fs[0], 1), field_payload(fs[1], 2)) {
            (Some(id), Some(b)) => if valid_utf8(b) {
                Some(NodeAddrView { id, addr: decode_utf8(b) })
            } else {
                None
            },
            _ => None,
        }
    } else {
        None
    }
}

/// The bytes of a node's address.
pub open spec fn node_addr_bytes(a: NodeAddrView) -> Seq<u8> {
    message_bytes(node_addr_fields(a))
}

/// The address that `s` describes, if any.
pub open spec fn node_addr_decode(s: Seq<u8>) -> Option<NodeAddrView> {
    match message_fields(s) {
        None => None,
        Some(fs) => node_addr_of_fields(fs),
    }
}

/// An address can be written when the length of its text fits the length
/// prefix.
pub open spec fn node_addr_fits(a: NodeAddrView) -> bool {
    encode_utf8(a.addr).len() <= u64::MAX
}

/// Reading an address that was written gives the address back.
pub proof fn lemma_node_addr_roundtrip(a: NodeAddrView)
    requires
        node_addr_fits(a),
    ensures
        node_addr_decode(node_addr_bytes(a)) == Some(a),
{
    let fs = node_addr_fields(a);
    assert(fields_fit(fs));
    lemma_message_roundtrip(fs);
    encode_utf8_valid_utf8(a.addr);
    encode_utf8_decode_utf8(a.addr);
}

/// Writes a node's address.
pub fn encode_node_addr(a: &NodeAddr) -> (bytes: Vec<u8>)
    ensures
        bytes@ == node_addr_bytes(a@),
        node_addr_fits(a@),
{
    let text = slice_to_vec(a.addr.as_str().as_bytes());
    assert(text@.len() <= u64::MAX) by {
        assert(text.len() <= usize::MAX);
    }
    let mut fields: Vec<Field> = Vec::new();
    fields.push(make_varint_field(1, a.id));
    fields.push(make_bytes_field(2, text));
    assert(field_views(fields@) =~= node_addr_fields(a@));
    write_message(&fields)
}

/// Reads a node's address.
pub fn decode_node_addr(bytes: &[u8]) -> (r: Option<NodeAddr>)
    ensures
        match node_addr_decode(bytes@) {
            None => r.is_none(),
            Some(a) => r matches Some(x) && x@ == a,
        },
{
    let parsed = parse_message(bytes);
    if parsed.is_none() {
        return None;
    }
    let fields = parsed.unwrap();
    if fields.len() != 2 {
        return None;
    }
    match (get_field_varint(&fields[0], 1), get_field_payload(&fields[1], 2)) {
        (Some(id), Some(b)) => {
            match string_from_utf8(b) {
                Some(addr) => Some(NodeAddr { id, addr }),
                None => None,
            }
        },
        _ => None,
    }
}

// ------------------------------------------------------------- log entries

/// The fields of an entry, in the order in which they are written.
pub open spec fn entry_fields(e: LogEntryView) -> Seq<FieldView> {
    seq![
        varint_field(1, e.index),
        varint_field(2, e.term),
        varint_field(3, payload_type_number(e.payload_type)),
        bytes_field(4, e.payload),
    ]
}

/// The entry that a run of fields describes: the four fields in their
/// order, the third a known kind of payload.
pub open spec fn entry_of_fields(fs: Seq<FieldView>) -> Option<LogEntryView> {
    if fs.len() == 4 {
        match (
            field_varint(fs[0], 1),
            field_varint(fs[1], 2),
            field_varint(fs[2], 3),
            field_payload(fs[3], 4),
        ) {
            (Some(index), Some(term), Some(t), Some(payload)) => match payload_type_of(t) {
                Some(payload_type) => Some(LogEntryView { index, term, payload_type, payload }),
                None => None,
            },
            _ => None,
        }
    } else {
        None
    }
}

/// The bytes of an entry.
pub open spec fn entry_bytes(e: LogEntryView) -> Seq<u8> {
    message_bytes(entry_fields(e))
}

/// The entry that `s` describes, if any.
pub open spec fn entry_decode(s: Seq<u8>) -> Option<LogEntryView> {
    match message_fields(s) {
        None => None,
        Some(fs) => entry_of_fields(fs),
    }
}

/// An entry can be written when the length of its payload fits the length
/// prefix.
pub open spec fn entry_fits(e: LogEntryView) -> bool {
    e.payload.len() <= u64::MAX
}

/// Reading an entry that was written gives the entry back.
pub proof fn lemma_entry_roundtrip(e: LogEntryView)
    requires
        entry_fits(e),
    ensures
        entry_decode(entry_bytes(e)) == Some(e),
{
    let fs = entry_fields(e);
    assert(fields_fit(fs));
    lemma_message_roundtrip(fs);
}

fn payload_type_to_number(t: PayloadType) -> (n: u64)
    ensures
        n == payload_type_number(t),
{
    match t {
        PayloadType::Blank => 0,
        PayloadType::Normal => 1,
        PayloadType::ConfigChange => 2,
        PayloadType::SnapshotPointer => 3,
    }
}

fn payload_type_from_number(n: u64) -> (t: Option<PayloadType>)
    ensures
        t == payload_type_of(n),
{
    if n == 0 {
        Some(PayloadType::Blank)
    } else if n == 1 {
        Some(PayloadType::Normal)
    } else if n == 2 {
        Some(PayloadType::ConfigChange)
    } else if n == 3 {
        Some(PayloadType::SnapshotPointer)
    } else {
        None
    }
}

/// Writes an entry.
pub fn encode_entry(e: &LogEntry) -> (bytes: Vec<u8>)
    ensures
        bytes@ == entry_bytes(e@),
        entry_fits(e@),
{
    let payload = slice_to_vec(e.payload.as_slice());
    assert(payload@.len() <= u64::MAX) by {
        assert(payload.len() <= usize::MAX);
    }
    let mut fields: Vec<Field> = Vec::new();
    fields.push(make_varint_field(1, e.index));
    fields.push(make_varint_field(2, e.term));
    fields.push(make_varint_field(3, payload_type_to_number(e.payload_type)));
    fields.push(make_bytes_field(4, payload));
    assert(field_views(fields@) =~= entry_fields(e@));
    write_message(&fields)
}

/// Reads an entry.
pub fn decode_entry(bytes: &[u8]) -> (r: Option<LogEntry>)
    ensures
        match entry_decode(bytes@) {
            None => r.is_none(),
            Some(e) => r matches Some(x) && x@ == e,
        },
{
    let parsed = parse_message(bytes);
    if parsed.is_none() {
        return None;
    }
    let fields = parsed.unwrap();
    if fields.len() != 4 {
        return None;
    }
    match (
        get_field_varint(&fields[0], 1),
        get_field_varint(&fields[1], 2),
        get_field_varint(&fields[2], 3),
        get_field_payload(&fields[3], 4),
    ) {
        (Some(index), Some(term), Some(t), Some(payload)) => match payload_type_from_number(t) {
            Some(payload_type) => Some(LogEntry { index, term, payload_type, payload }),
            None => None,
        },
        _ => None,
    }
}

} // verus!
