//! The catalog as a message: hard state and membership first, then one
//! field for each node address, each segment and each snapshot.

use crate::codec::{
    decode_log_range, decode_node_addr, decode_snapshot, encode_log_range, encode_node_addr,
    encode_snapshot, field_payload, field_varint, lemma_log_range_roundtrip,
    lemma_node_addr_roundtrip, lemma_snapshot_roundtrip, log_range_bytes, log_range_decode,
    node_addr_bytes, node_addr_decode, node_addr_fits, snapshot_bytes, snapshot_decode,
};
use crate::model::{
    addr_views, LogRange, NodeAddr, NodeAddrView, RaftIndexDto, RaftIndexView, SnapshotRange,
};
use crate::wire::{
    bytes_field, field_fits, field_views, fields_fit, lemma_message_roundtrip,
    lemma_varints_roundtrip, message_bytes, message_fields, parse_message, parse_varints,
    varint_field, varints, varints_decode, write_message, write_varints, Field, FieldValue,
    FieldView, ValueView,
};
use vstd::prelude::*;
use vstd::slice::slice_to_vec;

verus! {

/// Field number of the current term.
pub const FIELD_CURRENT_TERM: u32 = 1;

/// Field number of the vote.
pub const FIELD_VOTED_FOR: u32 = 2;

/// Field number of the members, a packed run.
pub const FIELD_MEMBER: u32 = 3;

/// Field number of the members after consensus, a packed run.
pub const FIELD_MEMBER_AFTER: u32 = 4;

/// Field number of a node address.
pub const FIELD_NODE_ADDR: u32 = 5;

/// Field number of a segment.
pub const FIELD_LOG: u32 = 6;

/// Field number of a snapshot.
pub const FIELD_SNAPSHOT: u32 = 7;

/// The four fields that every catalog starts with.
pub open spec fn head_fields(c: RaftIndexView) -> Seq<FieldView> {
    seq![
        varint_field(FIELD_CURRENT_TERM, c.current_term),
        varint_field(FIELD_VOTED_FOR, c.voted_for),
        bytes_field(FIELD_MEMBER, varints(c.member)),
        bytes_field(FIELD_MEMBER_AFTER, varints(c.member_after_consensus)),
    ]
}

/// One field for each node address.
pub open spec fn addr_fields(addrs: Seq<NodeAddrView>) -> Seq<FieldView> {
    Seq::new(addrs.len(), |i: int| bytes_field(FIELD_NODE_ADDR, node_addr_bytes(addrs[i])))
}

/// One field for each segment.
pub open spec fn log_fields(logs: Seq<LogRange>) -> Seq<FieldView> {
    Seq::new(logs.len(), |i: int| bytes_field(FIELD_LOG, log_range_bytes(logs[i])))
}

/// One field for each snapshot.
pub open spec fn snap_fields(snapshots: Seq<SnapshotRange>) -> Seq<FieldView> {
    Seq::new(snapshots.len(), |i: int| bytes_field(FIELD_SNAPSHOT, snapshot_bytes(snapshots[i])))
}

/// The fields of a catalog, in the order in which they are written.
pub open spec fn catalog_fields(c: RaftIndexView) -> Seq<FieldView> {
    head_fields(c) + addr_fields(c.node_addrs) + log_fields(c.logs) + snap_fields(c.snapshots)
}

/// The bytes of a catalog.
pub open spec fn catalog_bytes(c: RaftIndexView) -> Seq<u8> {
    message_bytes(catalog_fields(c))
}

/// A catalog can be written when the length of each of its parts fits the
/// length prefix. This holds of every catalog that is held in memory.
pub open spec fn catalog_fits(c: RaftIndexView) -> bool {
    &&& fields_fit(catalog_fields(c))
    &&& forall|i: int| 0 <= i < c.node_addrs.len() ==> node_addr_fits(#[trigger] c.node_addrs[i])
}

/// `f` is a length-delimited field with the given number.
pub open spec fn is_run_field(f: FieldView, number: u32) -> bool {
    f.number == number && f.value is Bytes
}

/// The bytes that a length-delimited field carries.
pub open spec fn payload_of(f: FieldView) -> Seq<u8> {
    match f.value {
        ValueView::Bytes(b) => b,
        ValueView::Varint(_) => Seq::empty(),
    }
}

/// The position behind the run of length-delimited fields with the given
/// number that starts at `i`.
pub open spec fn run_end(fs: Seq<FieldView>, i: int, number: u32) -> int
    decreases fs.len() - i,
{
    if 0 <= i < fs.len() && is_run_field(fs[i], number) {
        run_end(fs, i + 1, number)
    } else {
        i
    }
}

/// The addresses that the fields from `from` up to `to` describe, if each
/// of them describes one.
pub open spec fn addrs_of_fields(fs: Seq<FieldView>, from: int, to: int) -> Option<
    Seq<NodeAddrView>,
> {
    if forall|k: int| from <= k < to ==> node_addr_decode(payload_of(#[trigger] fs[k])) is Some {
        Some(
            Seq::new(
                (to - from) as nat,
                |k: int| node_addr_decode(payload_of(fs[from + k])).unwrap(),
            ),
        )
    } else {
        None
    }
}

/// The segments that the fields from `from` up to `to` describe, if each of
/// them describes one.
pub open spec fn logs_of_fields(fs: Seq<FieldView>, from: int, to: int) -> Option<Seq<LogRange>> {
    if forall|k: int| from <= k < to ==> log_range_decode(payload_of(#[trigger] fs[k])) is Some {
        Some(
            Seq::new(
                (to - from) as nat,
                |k: int| log_range_decode(payload_of(fs[from + k])).unwrap(),
            ),
        )
    } else {
        None
    }
}

/// The snapshots that the fields from `from` up to `to` describe, if each of
/// them describes one.
pub open spec fn snaps_of_fields(fs: Seq<FieldView>, from: int, to: int) -> Option<
    Seq<SnapshotRange>,
> {
    if forall|k: int| from <= k < to ==> snapshot_decode(payload_of(#[trigger] fs[k])) is Some {
        Some(
            Seq::new(
                (to - from) as nat,
                |k: int| snapshot_decode(payload_of(fs[from + k])).unwrap(),
            ),
        )
    } else {
        None
    }
}

/// The catalog that a run of fields describes: the four leading fields,
/// then the addresses, the segments and the snapshots, and nothing else.
pub open spec fn catalog_of_fields(fs: Seq<FieldView>) -> Option<RaftIndexView> {
    if fs.len() < 4 {
        None
    } else {
        let a = run_end(fs, 4, FIELD_NODE_ADDR);
        let b = run_end(fs, a, FIELD_LOG);
        let c = run_end(fs, b, FIELD_SNAPSHOT);
        match (
            field_varint(fs[0], FIELD_CURRENT_TERM),
            field_varint(fs[1], FIELD_VOTED_FOR),
            field_payload(fs[2], FIELD_MEMBER),
            field_payload(fs[3], FIELD_MEMBER_AFTER),
        ) {
            (Some(current_term), Some(voted_for), Some(m1), Some(m2)) => match (
                varints_decode(m1),
                varints_decode(m2),
                addrs_of_fields(fs, 4, a),
                logs_of_fields(fs, a, b),
                snaps_of_fields(fs, b, c),
            ) {
                (
                    Some(member),
                    Some(member_after_consensus),
                    Some(node_addrs),
                    Some(logs),
                    Some(snapshots),
                ) => if c == fs.len() {
                    Some(
                        RaftIndexView {
                            current_term,
                            voted_for,
                            member,
                            member_after_consensus,
                            node_addrs,
                            logs,
                            snapshots,
                        },
                    )
                } else {
                    None
                },
                _ => None,
            },
            _ => None,
        }
    }
}

/// The catalog that `s` describes, if any.
pub open spec fn catalog_decode(s: Seq<u8>) -> Option<RaftIndexView> {
    match message_fields(s) {
        None => None,
        Some(fs) => catalog_of_fields(fs),
    }
}

proof fn lemma_run_end(fs: Seq<FieldView>, i: int, number: u32, end: int)
    requires
        0 <= i <= end <= fs.len(),
        forall|k: int| i <= k < end ==> is_run_field(#[trigger] fs[k], number),
        end < fs.len() ==> !is_run_field(fs[end], number),
    ensures
        run_end(fs, i, number) == end,
    decreases end - i,
{
    if i < end {
        lemma_run_end(fs, i + 1, number, end);
    }
}

proof fn lemma_run_end_bounds(fs: Seq<FieldView>, i: int, number: u32)
    requires
        0 <= i <= fs.len(),
    ensures
        i <= run_end(fs, i, number) <= fs.len(),
        forall|k: int| i <= k < run_end(fs, i, number) ==> is_run_field(#[trigger] fs[k], number),
    decreases fs.len() - i,
{
    if i < fs.len() && is_run_field(fs[i], number) {
        lemma_run_end_bounds(fs, i + 1, number);
    }
}

proof fn lemma_run_end_covers(fs: Seq<FieldView>, i: int, number: u32, k: int)
    requires
        0 <= i <= k < fs.len(),
        forall|j: int| i <= j <= k ==> is_run_field(#[trigger] fs[j], number),
    ensures
        k < run_end(fs, i, number) <= fs.len(),
    decreases k - i,
{
    if i < k {
        lemma_run_end_covers(fs, i + 1, number, k);
    } else {
        lemma_run_end_bounds(fs, i + 1, number);
    }
}

/// Reading a catalog that was written gives the catalog back.
pub proof fn lemma_catalog_roundtrip(c: RaftIndexView)
    requires
        catalog_fits(c),
    ensures
        catalog_decode(catalog_bytes(c)) == Some(c),
{
    let fs = catalog_fields(c);
    let na = c.node_addrs.len() as int;
    let nl = c.logs.len() as int;
    let ns = c.snapshots.len() as int;
    let a = 4 + na;
    let b = a + nl;
    let e = b + ns;
    lemma_message_roundtrip(fs);
    assert(fs.len() == e);
    assert(fs[0] == varint_field(FIELD_CURRENT_TERM, c.current_term));
    assert(fs[1] == varint_field(FIELD_VOTED_FOR, c.voted_for));
    assert(fs[2] == bytes_field(FIELD_MEMBER, varints(c.member)));
    assert(fs[3] == bytes_field(FIELD_MEMBER_AFTER, varints(c.member_after_consensus)));
    lemma_varints_roundtrip(c.member);
    lemma_varints_roundtrip(c.member_after_consensus);
    assert forall|k: int| 4 <= k < a implies #[trigger] fs[k] == bytes_field(
        FIELD_NODE_ADDR,
        node_addr_bytes(c.node_addrs[k - 4]),
    ) by {}
    assert forall|k: int| a <= k < b implies #[trigger] fs[k] == bytes_field(
        FIELD_LOG,
        log_range_bytes(c.logs[k - a]),
    ) by {}
    assert forall|k: int| b <= k < e implies #[trigger] fs[k] == bytes_field(
        FIELD_SNAPSHOT,
        snapshot_bytes(c.snapshots[k - b]),
    ) by {}
    lemma_run_end(fs, 4, FIELD_NODE_ADDR, a);
    lemma_run_end(fs, a, FIELD_LOG, b);
    lemma_run_end(fs, b, FIELD_SNAPSHOT, e);
    assert forall|k: int| 4 <= k < a implies node_addr_decode(payload_of(#[trigger] fs[k]))
        == Some(c.node_addrs[k - 4]) by {
        lemma_node_addr_roundtrip(c.node_addrs[k - 4]);
    }
    assert forall|k: int| a <= k < b implies log_range_decode(payload_of(#[trigger] fs[k]))
        == Some(c.logs[k - a]) by {
        lemma_log_range_roundtrip(c.logs[k - a]);
    }
    assert forall|k: int| b <= k < e implies snapshot_decode(payload_of(#[trigger] fs[k]))
        == Some(c.snapshots[k - b]) by {
        lemma_snapshot_roundtrip(c.snapshots[k - b]);
    }
    assert(addrs_of_fields(fs, 4, a).unwrap() =~= c.node_addrs);
    assert(logs_of_fields(fs, a, b).unwrap() =~= c.logs);
    assert(snaps_of_fields(fs, b, e).unwrap() =~= c.snapshots);
}

fn is_run(f: &Field, number: u32) -> (r: bool)
    ensures
        r == is_run_field(f@, number),
{
    match &f.value {
        FieldValue::Bytes(_) => f.number == number,
        FieldValue::Varint(_) => false,
    }
}

fn payload(f: &Field) -> (r: Vec<u8>)
    ensures
        r@ == payload_of(f@),
{
    match &f.value {
        FieldValue::Bytes(b) => slice_to_vec(b.as_slice()),
        FieldValue::Varint(_) => Vec::new(),
    }
}

fn bytes_field_of(number: u32, b: Vec<u8>) -> (f: Field)
    ensures
        f@ == bytes_field(number, b@),
        field_fits(f@),
{
    assert(b@.len() <= u64::MAX) by {
        assert(b.len() <= usize::MAX);
    }
    Field { number, value: FieldValue::Bytes(b) }
}

/// Writes a catalog.
pub fn encode_catalog(c: &RaftIndexDto) -> (bytes: Vec<u8>)
    ensures
        bytes@ == catalog_bytes(c@),
        catalog_fits(c@),
{
    let ghost v = c@;
    let mut fields: Vec<Field> = Vec::new();
    fields.push(Field { number: FIELD_CURRENT_TERM, value: FieldValue::Varint(c.current_term) });
    fields.push(Field { number: FIELD_VOTED_FOR, value: FieldValue::Varint(c.voted_for) });
    fields.push(bytes_field_of(FIELD_MEMBER, write_varints(&c.member)));
    fields.push(bytes_field_of(FIELD_MEMBER_AFTER, write_varints(&c.member_after_consensus)));
    assert(field_views(fields@) =~= head_fields(v));
    let na: usize = c.node_addrs.len();
    let mut i: usize = 0;
    while i < na
        invariant
            i <= na == c.node_addrs@.len(),
            v == c@,
            field_views(fields@) == head_fields(v) + addr_fields(v.node_addrs.take(i as int)),
            fields_fit(field_views(fields@)),
            forall|k: int| 0 <= k < i ==> node_addr_fits(#[trigger] v.node_addrs[k]),
        decreases na - i,
    {
        let ghost before = field_views(fields@);
        let f = bytes_field_of(FIELD_NODE_ADDR, encode_node_addr(&c.node_addrs[i]));
        fields.push(f);
        proof {
            assert(v.node_addrs[i as int] == c.node_addrs@[i as int]@);
            assert(field_views(fields@) =~= before.push(f@));
            assert(v.node_addrs.take(i + 1) =~= v.node_addrs.take(i as int).push(
                v.node_addrs[i as int],
            ));
            assert(addr_fields(v.node_addrs.take(i + 1)) =~= addr_fields(
                v.node_addrs.take(i as int),
            ).push(f@));
            assert(before.push(f@) =~= head_fields(v) + addr_fields(v.node_addrs.take(i + 1)));
        }
        i = i + 1;
    }
    assert(v.node_addrs.take(na as int) =~= v.node_addrs);
    let nl: usize = c.logs.len();
    let mut j: usize = 0;
    assert(v.logs.take(0) =~= Seq::<LogRange>::empty());
    assert(field_views(fields@) =~= head_fields(v) + addr_fields(v.node_addrs) + log_fields(
        v.logs.take(0),
    ));
    while j < nl
        invariant
            j <= nl == c.logs@.len(),
            v == c@,
            field_views(fields@) == head_fields(v) + addr_fields(v.node_addrs) + log_fields(
                v.logs.take(j as int),
            ),
            fields_fit(field_views(fields@)),
        decreases nl - j,
    {
        let ghost before = field_views(fields@);
        let f = bytes_field_of(FIELD_LOG, encode_log_range(&c.logs[j]));
        fields.push(f);
        proof {
            assert(field_views(fields@) =~= before.push(f@));
            assert(v.logs.take(j + 1) =~= v.logs.take(j as int).push(v.logs[j as int]));
            assert(log_fields(v.logs.take(j + 1)) =~= log_fields(v.logs.take(j as int)).push(f@));
            assert(before.push(f@) =~= head_fields(v) + addr_fields(v.node_addrs) + log_fields(
                v.logs.take(j + 1),
            ));
        }
        j = j + 1;
    }
    assert(v.logs.take(nl as int) =~= v.logs);
    let ns: usize = c.snapshots.len();
    let mut k: usize = 0;
    assert(v.snapshots.take(0) =~= Seq::<SnapshotRange>::empty());
    assert(field_views(fields@) =~= head_fields(v) + addr_fields(v.node_addrs) + log_fields(v.logs)
        + snap_fields(v.snapshots.take(0)));
    while k < ns
        invariant
            k <= ns == c.snapshots@.len(),
            v == c@,
            field_views(fields@) == head_fields(v) + addr_fields(v.node_addrs) + log_fields(v.logs)
                + snap_fields(v.snapshots.take(k as int)),
            fields_fit(field_views(fields@)),
        decreases ns - k,
    {
        let ghost before = field_views(fields@);
        let f = bytes_field_of(FIELD_SNAPSHOT, encode_snapshot(&c.snapshots[k]));
        fields.push(f);
        proof {
            assert(field_views(fields@) =~= before.push(f@));
            assert(v.snapshots.take(k + 1) =~= v.snapshots.take(k as int).push(
                v.snapshots[k as int],
            ));
            assert(snap_fields(v.snapshots.take(k + 1)) =~= snap_fields(
                v.snapshots.take(k as int),
            ).push(f@));
            assert(before.push(f@) =~= head_fields(v) + addr_fields(v.node_addrs) + log_fields(
                v.logs,
            ) + snap_fields(v.snapshots.take(k + 1)));
        }
        k = k + 1;
    }
    assert(v.snapshots.take(ns as int) =~= v.snapshots);
    write_message(&fields)
}

fn read_addr_run(fields: &Vec<Field>, from: usize) -> (r: Option<(Vec<NodeAddr>, usize)>)
    requires
        from <= fields@.len(),
    ensures
        ({
            let fs = field_views(fields@);
            let end = run_end(fs, from as int, FIELD_NODE_ADDR);
            match r {
                None => addrs_of_fields(fs, from as int, end) is None,
                Some((v, e)) => e == end && from <= e <= fs.len() && addrs_of_fields(
                    fs,
                    from as int,
                    end,
                ) == Some(addr_views(v@)),
            }
        }),
{
    let ghost fs = field_views(fields@);
    let n: usize = fields.len();
    let mut out: Vec<NodeAddr> = Vec::new();
    let mut i: usize = from;
    while i < n && is_run(&fields[i], FIELD_NODE_ADDR)
        invariant
            from <= i <= n == fields@.len(),
            fs == field_views(fields@),
            out@.len() == i - from,
            forall|k: int| from <= k < i ==> is_run_field(#[trigger] fs[k], FIELD_NODE_ADDR),
            forall|k: int|
                from <= k < i ==> node_addr_decode(payload_of(#[trigger] fs[k])) == Some(
                    out@[k - from]@,
                ),
        decreases n - i,
    {
        let p = payload(&fields[i]);
        match decode_node_addr(p.as_slice()) {
            None => {
                proof {
                    lemma_run_end_covers(fs, from as int, FIELD_NODE_ADDR, i as int);
                    assert(node_addr_decode(payload_of(fs[i as int])) is None);
                }
                return None;
            },
            Some(a) => {
                out.push(a);
                i = i + 1;
            },
        }
    }
    proof {
        lemma_run_end(fs, from as int, FIELD_NODE_ADDR, i as int);
        assert(addrs_of_fields(fs, from as int, i as int).unwrap() =~= addr_views(out@));
    }
    Some((out, i))
}

fn read_log_run(fields: &Vec<Field>, from: usize) -> (r: Option<(Vec<LogRange>, usize)>)
    requires
        from <= fields@.len(),
    ensures
        ({
            let fs = field_views(fields@);
            let end = run_end(fs, from as int, FIELD_LOG);
            match r {
                None => logs_of_fields(fs, from as int, end) is None,
                Some((v, e)) => e == end && from <= e <= fs.len() && logs_of_fields(
                    fs,
                    from as int,
                    end,
                ) == Some(v@),
            }
        }),
{
    let ghost fs = field_views(fields@);
    let n: usize = fields.len();
    let mut out: Vec<LogRange> = Vec::new();
    let mut i: usize = from;
    while i < n && is_run(&fields[i], FIELD_LOG)
        invariant
            from <= i <= n == fields@.len(),
            fs == field_views(fields@),
            out@.len() == i - from,
            forall|k: int| from <= k < i ==> is_run_field(#[trigger] fs[k], FIELD_LOG),
            forall|k: int|
                from <= k < i ==> log_range_decode(payload_of(#[trigger] fs[k])) == Some(
                    out@[k - from],
                ),
        decreases n - i,
    {
        let p = payload(&fields[i]);
        match decode_log_range(p.as_slice()) {
            None => {
                proof {
                    lemma_run_end_covers(fs, from as int, FIELD_LOG, i as int);
                    assert(log_range_decode(payload_of(fs[i as int])) is None);
                }
                return None;
            },
            Some(r) => {
                out.push(r);
                i = i + 1;
            },
        }
    }
    proof {
        lemma_run_end(fs, from as int, FIELD_LOG, i as int);
        assert(logs_of_fields(fs, from as int, i as int).unwrap() =~= out@);
    }
    Some((out, i))
}

fn read_snapshot_run(fields: &Vec<Field>, from: usize) -> (r: Option<(Vec<SnapshotRange>, usize)>)
    requires
        from <= fields@.len(),
    ensures
        ({
            let fs = field_views(fields@);
            let end = run_end(fs, from as int, FIELD_SNAPSHOT);
            match r {
                None => snaps_of_fields(fs, from as int, end) is None,
                Some((v, e)) => e == end && from <= e <= fs.len() && snaps_of_fields(
                    fs,
                    from as int,
                    end,
                ) == Some(v@),
            }
        }),
{
    let ghost fs = field_views(fields@);
    let n: usize = fields.len();
    let mut out: Vec<SnapshotRange> = Vec::new();
    let mut i: usize = from;
    while i < n && is_run(&fields[i], FIELD_SNAPSHOT)
        invariant
            from <= i <= n == fields@.len(),
            fs == field_views(fields@),
            out@.len() == i - from,
            forall|k: int| from <= k < i ==> is_run_field(#[trigger] fs[k], FIELD_SNAPSHOT),
            forall|k: int|
                from <= k < i ==> snapshot_decode(payload_of(#[trigger] fs[k])) == Some(
                    out@[k - from],
                ),
        decreases n - i,
    {
        let p = payload(&fields[i]);
        match decode_snapshot(p.as_slice()) {
            None => {
                proof {
                    lemma_run_end_covers(fs, from as int, FIELD_SNAPSHOT, i as int);
                    assert(snapshot_decode(payload_of(fs[i as int])) is None);
                }
                return None;
            },
            Some(r) => {
                out.push(r);
                i = i + 1;
            },
        }
    }
    proof {
        lemma_run_end(fs, from as int, FIELD_SNAPSHOT, i as int);
        assert(snaps_of_fields(fs, from as int, i as int).unwrap() =~= out@);
    }
    Some((out, i))
}

/// Reads a catalog. `None` when the bytes are not a catalog as
/// `encode_catalog` writes it.
pub fn decode_catalog(bytes: &[u8]) -> (r: Option<RaftIndexDto>)
    ensures
        match catalog_decode(bytes@) {
            None => r.is_none(),
            Some(c) => r matches Some(x) && x@ == c,
        },
{
    let parsed = parse_message(bytes);
    if parsed.is_none() {
        return None;
    }
    let fields = parsed.unwrap();
    let ghost fs = field_views(fields@);
    let n: usize = fields.len();
    if n < 4 {
        return None;
    }
    let head = (
        crate::codec::get_field_varint(&fields[0], FIELD_CURRENT_TERM),
        crate::codec::get_field_varint(&fields[1], FIELD_VOTED_FOR),
        crate::codec::get_field_payload(&fields[2], FIELD_MEMBER),
        crate::codec::get_field_payload(&fields[3], FIELD_MEMBER_AFTER),
    );
    let (current_term, voted_for, m1, m2) = match head {
        (Some(t), Some(v), Some(m1), Some(m2)) => (t, v, m1, m2),
        _ => {
            return None;
        },
    };
    let member = match parse_varints(m1.as_slice()) {
        Some(m) => m,
        None => {
            return None;
        },
    };
    let member_after_consensus = match parse_varints(m2.as_slice()) {
        Some(m) => m,
        None => {
            return None;
        },
    };
    let (node_addrs, a) = match read_addr_run(&fields, 4) {
        Some(x) => x,
        None => {
            return None;
        },
    };
    let (logs, b) = match read_log_run(&fields, a) {
        Some(x) => x,
        None => {
            return None;
        },
    };
    let (snapshots, c) = match read_snapshot_run(&fields, b) {
        Some(x) => x,
        None => {
            return None;
        },
    };
    if c != n {
        return None;
    }
    Some(
        RaftIndexDto {
            current_term,
            voted_for,
            member,
            member_after_consensus,
            node_addrs,
            logs,
            snapshots,
        },
    )
}

} // verus!
