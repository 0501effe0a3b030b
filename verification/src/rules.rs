//! The rules that a catalog keeps: how its segments follow one another,
//! which of them may still be open, where they stand against the newest
//! snapshot, and that no node has two addresses.

use crate::model::{addr_views, LogRange, NodeAddr, NodeAddrView, RaftIndexView, SnapshotRange};
use vstd::prelude::*;

verus! {

/// Each segment starts where the one before it ends.
pub open spec fn logs_contiguous(logs: Seq<LogRange>) -> bool {
    forall|i: int, j: int|
        0 <= i && j == i + 1 && j < logs.len() ==> (#[trigger] logs[j]).start_index == (
        #[trigger] logs[i]).start_index + logs[i].record_count
}

/// Every segment but the last is sealed.
pub open spec fn only_last_open(logs: Seq<LogRange>) -> bool {
    forall|i: int| 0 <= i < logs.len() - 1 ==> (#[trigger] logs[i]).is_close
}

/// The list of segments is contiguous, and only its last segment may be
/// open.
pub open spec fn logs_valid(logs: Seq<LogRange>) -> bool {
    logs_contiguous(logs) && only_last_open(logs)
}

/// The first index that the newest snapshot does not cover: 0 without a
/// snapshot.
pub open spec fn snapshot_bound(snapshots: Seq<SnapshotRange>) -> int {
    if snapshots.len() == 0 {
        0
    } else {
        snapshots.last().last_included_index + 1
    }
}

/// Every segment that is not marked for removal starts behind what the
/// newest snapshot covers.
pub open spec fn logs_aligned(logs: Seq<LogRange>, snapshots: Seq<SnapshotRange>) -> bool {
    forall|i: int|
        0 <= i < logs.len() && !(#[trigger] logs[i]).mark_remove ==> logs[i].start_index
            >= snapshot_bound(snapshots)
}

/// No node has two addresses.
pub open spec fn addrs_distinct(addrs: Seq<NodeAddrView>) -> bool {
    forall|i: int, j: int|
        0 <= i < j < addrs.len() ==> (#[trigger] addrs[i]).id != (#[trigger] addrs[j]).id
}

/// What holds of every catalog that the store keeps or loads.
pub open spec fn catalog_valid(c: RaftIndexView) -> bool {
    logs_valid(c.logs) && addrs_distinct(c.node_addrs)
}

/// The position of the address of node `id`: the first with that
/// identifier, or the length of the list when there is none.
pub open spec fn addr_index(addrs: Seq<NodeAddrView>, id: u64) -> int
    decreases addrs.len(),
{
    if addrs.len() == 0 {
        0
    } else if addrs[0].id == id {
        0
    } else {
        1 + addr_index(addrs.skip(1), id)
    }
}

/// The address of node `id`, if the list has one.
pub open spec fn addr_of(addrs: Seq<NodeAddrView>, id: u64) -> Option<Seq<char>> {
    let i = addr_index(addrs, id);
    if i < addrs.len() {
        Some(addrs[i].addr)
    } else {
        None
    }
}

/// The list with the address of node `id` set to `addr`: in place where the
/// node had one, at the end where it had none.
pub open spec fn addr_upsert(addrs: Seq<NodeAddrView>, id: u64, addr: Seq<char>) -> Seq<
    NodeAddrView,
> {
    let i = addr_index(addrs, id);
    if i < addrs.len() {
        addrs.update(i, NodeAddrView { id, addr })
    } else {
        addrs.push(NodeAddrView { id, addr })
    }
}

/// Where `addr_index` points: inside the list at the first address of the
/// node, or behind a list that has none.
pub proof fn lemma_addr_index(addrs: Seq<NodeAddrView>, id: u64)
    ensures
        0 <= addr_index(addrs, id) <= addrs.len(),
        forall|k: int| 0 <= k < addr_index(addrs, id) ==> (#[trigger] addrs[k]).id != id,
        addr_index(addrs, id) < addrs.len() ==> addrs[addr_index(addrs, id)].id == id,
    decreases addrs.len(),
{
    if addrs.len() != 0 && addrs[0].id != id {
        let tail = addrs.skip(1);
        lemma_addr_index(tail, id);
        assert forall|k: int| 0 <= k < addr_index(addrs, id) implies (#[trigger] addrs[k]).id
            != id by {
            if k > 0 {
                assert(addrs[k] == tail[k - 1]);
            }
        }
    }
}

/// The position is the only one that is behind no address of the node and
/// at one, or at the end.
pub proof fn lemma_addr_index_is(addrs: Seq<NodeAddrView>, id: u64, i: int)
    requires
        0 <= i <= addrs.len(),
        forall|k: int| 0 <= k < i ==> (#[trigger] addrs[k]).id != id,
        i < addrs.len() ==> addrs[i].id == id,
    ensures
        addr_index(addrs, id) == i,
{
    lemma_addr_index(addrs, id);
    let j = addr_index(addrs, id);
    if j < i {
        assert(addrs[j].id != id);
    } else if i < j {
        assert(addrs[i].id != id);
    }
}

/// Setting the address of a node keeps the addresses distinct.
pub proof fn lemma_addr_upsert_distinct(addrs: Seq<NodeAddrView>, id: u64, addr: Seq<char>)
    requires
        addrs_distinct(addrs),
    ensures
        addrs_distinct(addr_upsert(addrs, id, addr)),
        addr_of(addr_upsert(addrs, id, addr), id) == Some(addr),
{
    lemma_addr_index(addrs, id);
    let i = addr_index(addrs, id);
    let after = addr_upsert(addrs, id, addr);
    assert forall|a: int, b: int| 0 <= a < b < after.len() implies (#[trigger] after[a]).id != (
    #[trigger] after[b]).id by {
        if i < addrs.len() {
            assert(after[a].id == addrs[a].id);
            assert(after[b].id == addrs[b].id);
        } else if b < addrs.len() {
        } else {
            assert(addrs[a].id != id);
        }
    }
    assert forall|k: int| 0 <= k < i implies (#[trigger] after[k]).id != id by {
        assert(addrs[k].id != id);
    }
    lemma_addr_index_is(after, id, i);
}

/// Whether the list of segments is contiguous with only its last segment
/// open.
pub fn check_logs(logs: &Vec<LogRange>) -> (ok: bool)
    ensures
        ok == logs_valid(logs@),
{
    let n: usize = logs.len();
    if n < 2 {
        return true;
    }
    let mut i: usize = 0;
    while i < n - 1
        invariant
            2 <= n == logs@.len(),
            i <= n - 1,
            forall|a: int, b: int|
                0 <= a && b == a + 1 && b <= i ==> (#[trigger] logs@[b]).start_index == (
                #[trigger] logs@[a]).start_index + logs@[a].record_count,
            forall|a: int| 0 <= a < i ==> (#[trigger] logs@[a]).is_close,
        decreases n - i,
    {
        let here = logs[i];
        let next = logs[i + 1];
        if !here.is_close {
            return false;
        }
        if here.start_index as u128 + here.record_count as u128 != next.start_index as u128 {
            assert(logs@[i + 1].start_index != logs@[i as int].start_index + logs@[i as int].record_count);
            return false;
        }
        i = i + 1;
    }
    true
}

/// Whether every segment that is not marked for removal starts behind what
/// the newest snapshot covers.
pub fn check_aligned(logs: &Vec<LogRange>, snapshots: &Vec<SnapshotRange>) -> (ok: bool)
    ensures
        ok == logs_aligned(logs@, snapshots@),
{
    let ns: usize = snapshots.len();
    if ns == 0 {
        return true;
    }
    let covered: u64 = snapshots[ns - 1].last_included_index;
    let n: usize = logs.len();
    let mut i: usize = 0;
    while i < n
        invariant
            i <= n == logs@.len(),
            snapshots@.len() > 0,
            covered == snapshots@.last().last_included_index,
            forall|a: int|
                0 <= a < i && !(#[trigger] logs@[a]).mark_remove ==> logs@[a].start_index
                    > covered,
        decreases n - i,
    {
        if !logs[i].mark_remove && logs[i].start_index <= covered {
            return false;
        }
        i = i + 1;
    }
    true
}

/// The position of the address of node `id` in the list.
pub fn find_addr(addrs: &Vec<NodeAddr>, id: u64) -> (i: usize)
    ensures
        i == addr_index(addr_views(addrs@), id),
        i <= addrs@.len(),
{
    let ghost views = addr_views(addrs@);
    let n: usize = addrs.len();
    let mut i: usize = 0;
    while i < n && addrs[i].id != id
        invariant
            i <= n == addrs@.len(),
            views == addr_views(addrs@),
            forall|k: int| 0 <= k < i ==> (#[trigger] views[k]).id != id,
        decreases n - i,
    {
        i = i + 1;
    }
    proof {
        lemma_addr_index_is(views, id, i as int);
    }
    i
}

/// Whether no node has two addresses in the list.
pub fn check_addrs(addrs: &Vec<NodeAddr>) -> (ok: bool)
    ensures
        ok == addrs_distinct(addr_views(addrs@)),
{
    let ghost views = addr_views(addrs@);
    let n: usize = addrs.len();
    let mut j: usize = 0;
    while j < n
        invariant
            j <= n == addrs@.len(),
            views == addr_views(addrs@),
            forall|a: int, b: int|
                0 <= a < b < j ==> (#[trigger] views[a]).id != (#[trigger] views[b]).id,
        decreases n - j,
    {
        let mut i: usize = 0;
        while i < j
            invariant
                i <= j < n == addrs@.len(),
                views == addr_views(addrs@),
                forall|a: int| 0 <= a < i ==> (#[trigger] views[a]).id != views[j as int].id,
            decreases j - i,
        {
            if addrs[i].id == addrs[j].id {
                assert(views[i as int].id == views[j as int].id);
                return false;
            }
            i = i + 1;
        }
        j = j + 1;
    }
    true
}

/// The list after a rotation: the last segment sealed, and behind it a
/// new open segment with the given identifier that starts where the last
/// one ends.
pub open spec fn rotated(logs: Seq<LogRange>, id: u64, pre_term: u64) -> Seq<LogRange>
    recommends
        logs.len() > 0,
{
    let last = logs.last();
    logs.drop_last().push(LogRange { is_close: true, ..last }).push(
        LogRange {
            id,
            start_index: (last.start_index + last.record_count) as u64,
            pre_term,
            record_count: 0,
            is_close: false,
            mark_remove: false,
        },
    )
}

/// A rotation of a valid list gives a valid list.
pub proof fn lemma_rotated_valid(logs: Seq<LogRange>, id: u64, pre_term: u64)
    requires
        logs.len() > 0,
        logs_valid(logs),
        logs.last().start_index + logs.last().record_count <= u64::MAX,
    ensures
        logs_valid(rotated(logs, id, pre_term)),
        rotated(logs, id, pre_term).len() == logs.len() + 1,
{
    let r = rotated(logs, id, pre_term);
    let n = logs.len() as int;
    assert forall|i: int, j: int| 0 <= i && j == i + 1 && j < r.len() implies (
    #[trigger] r[j]).start_index == (#[trigger] r[i]).start_index + r[i].record_count by {
        if j < n {
            assert(logs[j].start_index == logs[i].start_index + logs[i].record_count);
        }
    }
    assert forall|i: int| 0 <= i < r.len() - 1 implies (#[trigger] r[i]).is_close by {
        if i < n - 1 {
            assert(logs[i].is_close);
        }
    }
}

/// Seals the last segment and adds a new open segment behind it. `None`
/// when the list is empty or the new segment would start beyond the last
/// index there is.
pub fn rotate_logs(logs: &Vec<LogRange>, id: u64, pre_term: u64) -> (r: Option<Vec<LogRange>>)
    ensures
        match r {
            Some(v) => logs@.len() > 0 && logs@.last().start_index + logs@.last().record_count
                <= u64::MAX && v@ == rotated(logs@, id, pre_term),
            None => logs@.len() == 0 || logs@.last().start_index + logs@.last().record_count
                > u64::MAX,
        },
{
    let n: usize = logs.len();
    if n == 0 {
        return None;
    }
    let last = logs[n - 1];
    if last.record_count > u64::MAX - last.start_index {
        return None;
    }
    let mut out: Vec<LogRange> = Vec::new();
    let mut i: usize = 0;
    while i < n - 1
        invariant
            0 < n == logs@.len(),
            i <= n - 1,
            out@ == logs@.take(i as int),
        decreases n - i,
    {
        out.push(logs[i]);
        assert(logs@.take(i + 1) =~= logs@.take(i as int).push(logs@[i as int]));
        i = i + 1;
    }
    assert(logs@.take(n - 1) =~= logs@.drop_last());
    out.push(
        LogRange {
            id: last.id,
            start_index: last.start_index,
            pre_term: last.pre_term,
            record_count: last.record_count,
            is_close: true,
            mark_remove: last.mark_remove,
        },
    );
    out.push(
        LogRange {
            id,
            start_index: last.start_index + last.record_count,
            pre_term,
            record_count: 0,
            is_close: false,
            mark_remove: false,
        },
    );
    Some(out)
}

/// A snapshot up to `covered` covers the segment: the segment is sealed
/// and holds no entry behind `covered`.
pub open spec fn is_covered(r: LogRange, covered: u64) -> bool {
    r.is_close && r.start_index + r.record_count <= covered + 1
}

/// The list with every segment marked for removal that a snapshot up to
/// `covered` covers.
pub open spec fn marked(logs: Seq<LogRange>, covered: u64) -> Seq<LogRange> {
    Seq::new(
        logs.len(),
        |i: int|
            if is_covered(logs[i], covered) {
                LogRange { mark_remove: true, ..logs[i] }
            } else {
                logs[i]
            },
    )
}

/// Marking the covered segments of a valid list gives a valid list, and
/// where the first segment that is not covered starts behind the snapshot,
/// a list that stands behind the snapshot.
pub proof fn lemma_marked_valid(logs: Seq<LogRange>, covered: u64)
    requires
        logs_valid(logs),
    ensures
        logs_valid(marked(logs, covered)),
        marked(logs, covered).len() == logs.len(),
        (forall|i: int|
            0 <= i < logs.len() && !is_covered(#[trigger] logs[i], covered) && !logs[i].mark_remove
                ==> logs[i].start_index > covered) ==> forall|i: int|
            0 <= i < logs.len() && !(#[trigger] marked(logs, covered)[i]).mark_remove ==> marked(
                logs,
                covered,
            )[i].start_index > covered,
{
    let m = marked(logs, covered);
    assert forall|i: int, j: int| 0 <= i && j == i + 1 && j < m.len() implies (
    #[trigger] m[j]).start_index == (#[trigger] m[i]).start_index + m[i].record_count by {
        assert(logs[j].start_index == logs[i].start_index + logs[i].record_count);
    }
    assert forall|i: int| 0 <= i < m.len() - 1 implies (#[trigger] m[i]).is_close by {
        assert(logs[i].is_close);
    }
    if forall|i: int|
        0 <= i < logs.len() && !is_covered(#[trigger] logs[i], covered) && !logs[i].mark_remove
            ==> logs[i].start_index > covered {
        assert forall|i: int| 0 <= i < logs.len() && !(#[trigger] m[i]).mark_remove implies m[i].start_index
            > covered by {
            assert(!is_covered(logs[i], covered) && !logs[i].mark_remove);
        }
    }
}

/// Marks for removal every segment that a snapshot up to `covered` covers.
pub fn mark_covered(logs: &Vec<LogRange>, covered: u64) -> (r: Vec<LogRange>)
    ensures
        r@ == marked(logs@, covered),
{
    let n: usize = logs.len();
    let mut out: Vec<LogRange> = Vec::new();
    let mut i: usize = 0;
    while i < n
        invariant
            i <= n == logs@.len(),
            out@.len() == i,
            forall|k: int| 0 <= k < i ==> #[trigger] out@[k] == marked(logs@, covered)[k],
        decreases n - i,
    {
        let r = logs[i];
        let done: bool = r.is_close && r.start_index as u128 + r.record_count as u128
            <= covered as u128 + 1;
        out.push(
            LogRange {
                id: r.id,
                start_index: r.start_index,
                pre_term: r.pre_term,
                record_count: r.record_count,
                is_close: r.is_close,
                mark_remove: r.mark_remove || done,
            },
        );
        i = i + 1;
    }
    assert(out@ =~= marked(logs@, covered));
    out
}

/// The number of segments at the front of the list that are marked for
/// removal.
pub open spec fn removed_prefix(logs: Seq<LogRange>) -> int
    decreases logs.len(),
{
    if logs.len() > 0 && logs[0].mark_remove {
        1 + removed_prefix(logs.skip(1))
    } else {
        0
    }
}

/// The list without the segments at its front that are marked for
/// removal.
pub open spec fn swept(logs: Seq<LogRange>) -> Seq<LogRange> {
    logs.skip(removed_prefix(logs))
}

/// The marked segments at the front are a part of the list.
pub proof fn lemma_removed_prefix(logs: Seq<LogRange>)
    ensures
        0 <= removed_prefix(logs) <= logs.len(),
        forall|i: int| 0 <= i < removed_prefix(logs) ==> (#[trigger] logs[i]).mark_remove,
        removed_prefix(logs) < logs.len() ==> !logs[removed_prefix(logs)].mark_remove,
    decreases logs.len(),
{
    if logs.len() > 0 && logs[0].mark_remove {
        let tail = logs.skip(1);
        lemma_removed_prefix(tail);
        assert forall|i: int| 0 <= i < removed_prefix(logs) implies (#[trigger] logs[i]).mark_remove by {
            if i > 0 {
                assert(logs[i] == tail[i - 1]);
            }
        }
        if removed_prefix(logs) < logs.len() {
            assert(logs[removed_prefix(logs)] == tail[removed_prefix(tail)]);
        }
    }
}

/// Sweeping a valid list gives a valid list.
pub proof fn lemma_swept_valid(logs: Seq<LogRange>)
    requires
        logs_valid(logs),
    ensures
        logs_valid(swept(logs)),
{
    lemma_removed_prefix(logs);
    let k = removed_prefix(logs);
    let s = swept(logs);
    assert forall|i: int, j: int| 0 <= i && j == i + 1 && j < s.len() implies (
    #[trigger] s[j]).start_index == (#[trigger] s[i]).start_index + s[i].record_count by {
        assert(logs[j + k].start_index == logs[i + k].start_index + logs[i + k].record_count);
    }
    assert forall|i: int| 0 <= i < s.len() - 1 implies (#[trigger] s[i]).is_close by {
        assert(logs[i + k].is_close);
    }
}

/// Leaves out the segments at the front of the list that are marked for
/// removal: their files have been deleted.
pub fn sweep_removed(logs: &Vec<LogRange>) -> (r: Vec<LogRange>)
    ensures
        r@ == swept(logs@),
{
    let n: usize = logs.len();
    let mut k: usize = 0;
    while k < n && logs[k].mark_remove
        invariant
            k <= n == logs@.len(),
            forall|i: int| 0 <= i < k ==> (#[trigger] logs@[i]).mark_remove,
        decreases n - k,
    {
        k = k + 1;
    }
    proof {
        lemma_removed_prefix(logs@);
        let p = removed_prefix(logs@);
        if p < k {
            assert(logs@[p].mark_remove);
        } else if k < p {
            assert(logs@[k as int].mark_remove);
        }
    }
    let mut out: Vec<LogRange> = Vec::new();
    let mut i: usize = k;
    while i < n
        invariant
            k <= i <= n == logs@.len(),
            out@ == logs@.subrange(k as int, i as int),
        decreases n - i,
    {
        out.push(logs[i]);
        assert(logs@.subrange(k as int, i + 1) =~= logs@.subrange(k as int, i as int).push(
            logs@[i as int],
        ));
        i = i + 1;
    }
    assert(logs@.subrange(k as int, n as int) =~= logs@.skip(k as int));
    out
}

} // verus!
