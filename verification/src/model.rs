//! The values that the store keeps: log segments, snapshots, node addresses,
//! the catalog that lists them, and the entries of the log.

use vstd::prelude::*;

verus! {

/// One segment of the log: a file that holds a contiguous range of entries.
#[derive(Clone, Copy, Debug, PartialEq, Eq, Structural)]
pub struct LogRange {
    /// Identifier of the segment, and the name of its file.
    pub id: u64,
    /// Index of the first entry of the segment.
    pub start_index: u64,
    /// Term of the entry just before `start_index`, 0 if there is none.
    pub pre_term: u64,
    /// Number of entries written to the segment.
    pub record_count: u64,
    /// The segment is sealed: it takes no more entries.
    pub is_close: bool,
    /// The segment is to be deleted once a snapshot covers it.
    pub mark_remove: bool,
}

/// One snapshot: a file that holds the state up to and including an entry.
#[derive(Clone, Copy, Debug, PartialEq, Eq, Structural)]
pub struct SnapshotRange {
    /// Identifier of the snapshot, and the name of its file.
    pub id: u64,
    /// Index of the last entry that the snapshot covers.
    pub last_included_index: u64,
    /// Term of that entry.
    pub last_included_term: u64,
}

/// The network address of one node.
#[derive(Debug)]
pub struct NodeAddr {
    pub id: u64,
    pub addr: String,
}

impl Clone for NodeAddr {
    fn clone(&self) -> (r: Self)
        ensures
            r@ == self@,
    {
        NodeAddr { id: self.id, addr: self.addr.clone() }
    }
}

/// The mathematical value of a `NodeAddr`.
pub struct NodeAddrView {
    pub id: u64,
    pub addr: Seq<char>,
}

impl View for NodeAddr {
    type V = NodeAddrView;

    open spec fn view(&self) -> NodeAddrView {
        NodeAddrView { id: self.id, addr: self.addr@ }
    }
}

/// The views of a run of addresses, in order.
pub open spec fn addr_views(addrs: Seq<NodeAddr>) -> Seq<NodeAddrView> {
    Seq::new(addrs.len(), |i: int| addrs[i]@)
}

/// The catalog: hard state, membership, node addresses, and the lists of
/// segments and snapshots.
#[derive(Debug)]
pub struct RaftIndexDto {
    pub current_term: u64,
    pub voted_for: u64,
    pub member: Vec<u64>,
    pub member_after_consensus: Vec<u64>,
    pub node_addrs: Vec<NodeAddr>,
    pub logs: Vec<LogRange>,
    pub snapshots: Vec<SnapshotRange>,
}

/// The mathematical value of a `RaftIndexDto`.
#[verifier::ext_equal]
pub struct RaftIndexView {
    pub current_term: u64,
    pub voted_for: u64,
    pub member: Seq<u64>,
    pub member_after_consensus: Seq<u64>,
    pub node_addrs: Seq<NodeAddrView>,
    pub logs: Seq<LogRange>,
    pub snapshots: Seq<SnapshotRange>,
}

impl View for RaftIndexDto {
    type V = RaftIndexView;

    open spec fn view(&self) -> RaftIndexView {
        RaftIndexView {
            current_term: self.current_term,
            voted_for: self.voted_for,
            member: self.member@,
            member_after_consensus: self.member_after_consensus@,
            node_addrs: addr_views(self.node_addrs@),
            logs: self.logs@,
            snapshots: self.snapshots@,
        }
    }
}

/// What an entry of the log carries.
#[derive(Clone, Copy, Debug, PartialEq, Eq, Structural)]
pub enum PayloadType {
    /// Nothing: an entry that a new leader writes.
    Blank,
    /// A request to the state machine.
    Normal,
    /// A change of the membership.
    ConfigChange,
    /// A pointer to a snapshot.
    SnapshotPointer,
}

/// One entry of the log.
#[derive(Debug)]
pub struct LogEntry {
    pub index: u64,
    pub term: u64,
    pub payload_type: PayloadType,
    pub payload: Vec<u8>,
}

/// The mathematical value of a `LogEntry`.
pub struct LogEntryView {
    pub index: u64,
    pub term: u64,
    pub payload_type: PayloadType,
    pub payload: Seq<u8>,
}

impl View for LogEntry {
    type V = LogEntryView;

    open spec fn view(&self) -> LogEntryView {
        LogEntryView {
            index: self.index,
            term: self.term,
            payload_type: self.payload_type,
            payload: self.payload@,
        }
    }
}

/// The views of a run of entries, in order.
pub open spec fn entry_views(entries: Seq<LogEntry>) -> Seq<LogEntryView> {
    Seq::new(entries.len(), |i: int| entries[i]@)
}

/// Copies a list of plain values.
pub fn copy_vec<T: Copy>(v: &Vec<T>) -> (r: Vec<T>)
    ensures
        r@ == v@,
{
    let n: usize = v.len();
    let mut out: Vec<T> = Vec::new();
    let mut i: usize = 0;
    while i < n
        invariant
            i <= n == v@.len(),
            out@ == v@.take(i as int),
        decreases n - i,
    {
        out.push(v[i]);
        assert(v@.take(i + 1) =~= v@.take(i as int).push(v@[i as int]));
        i = i + 1;
    }
    assert(v@.take(n as int) =~= v@);
    out
}

/// Copies a list of addresses.
pub fn copy_addrs(v: &Vec<NodeAddr>) -> (r: Vec<NodeAddr>)
    ensures
        addr_views(r@) == addr_views(v@),
{
    let n: usize = v.len();
    let mut out: Vec<NodeAddr> = Vec::new();
    let mut i: usize = 0;
    while i < n
        invariant
            i <= n == v@.len(),
            out@.len() == i,
            forall|k: int| 0 <= k < i ==> (#[trigger] out@[k])@ == v@[k]@,
        decreases n - i,
    {
        out.push(v[i].clone());
        i = i + 1;
    }
    assert(addr_views(out@) =~= addr_views(v@));
    out
}

impl Clone for RaftIndexDto {
    fn clone(&self) -> (r: Self)
        ensures
            r@ == self@,
    {
        RaftIndexDto {
            current_term: self.current_term,
            voted_for: self.voted_for,
            member: copy_vec(&self.member),
            member_after_consensus: copy_vec(&self.member_after_consensus),
            node_addrs: copy_addrs(&self.node_addrs),
            logs: copy_vec(&self.logs),
            snapshots: copy_vec(&self.snapshots),
        }
    }
}

impl Clone for LogEntry {
    fn clone(&self) -> (r: Self)
        ensures
            r@ == self@,
    {
        LogEntry {
            index: self.index,
            term: self.term,
            payload_type: self.payload_type,
            payload: copy_vec(&self.payload),
        }
    }
}

} // verus!
