//! The manager of the index file as its callers see it: it is started on
//! the bytes of the file, answers typed requests, and stops when the caller
//! reports that a file operation failed.

use crate::error::StoreError;
use crate::model::{
    addr_views, copy_addrs, copy_vec, LogRange, NodeAddr, NodeAddrView, RaftIndexDto,
    RaftIndexView, SnapshotRange,
};
use crate::raftindex::{
    acceptable, fresh_catalog, index_file, load_index_file, with_applied, with_catalog, Loaded,
    RaftIndexInnerManager,
};
use crate::rules::{
    addr_of, addr_upsert, catalog_valid, check_aligned, find_addr, logs_aligned, logs_valid,
};
use vstd::prelude::*;

verus! {

/// A request to the manager.
#[derive(Debug)]
pub enum RaftIndexRequest {
    LoadIndexInfo,
    LoadHardState,
    LoadMember,
    GetTargetAddr(u64),
    SaveLogs(Vec<LogRange>),
    SaveSnapshots(Vec<SnapshotRange>),
    SaveLastAppliedLog(u64),
    SaveMember {
        member: Vec<u64>,
        member_after_consensus: Vec<u64>,
        node_addr: Option<Vec<NodeAddr>>,
    },
    SaveNodeAddr(Vec<NodeAddr>),
    AddNodeAddr(u64, String),
    SaveHardState { current_term: u64, voted_for: u64 },
}

/// The mathematical value of a request.
pub enum RequestView {
    LoadIndexInfo,
    LoadHardState,
    LoadMember,
    GetTargetAddr(u64),
    SaveLogs(Seq<LogRange>),
    SaveSnapshots(Seq<SnapshotRange>),
    SaveLastAppliedLog(u64),
    SaveMember {
        member: Seq<u64>,
        member_after_consensus: Seq<u64>,
        node_addr: Option<Seq<NodeAddrView>>,
    },
    SaveNodeAddr(Seq<NodeAddrView>),
    AddNodeAddr(u64, Seq<char>),
    SaveHardState { current_term: u64, voted_for: u64 },
}

impl View for RaftIndexRequest {
    type V = RequestView;

    open spec fn view(&self) -> RequestView {
        match self {
            RaftIndexRequest::LoadIndexInfo => RequestView::LoadIndexInfo,
            RaftIndexRequest::LoadHardState => RequestView::LoadHardState,
            RaftIndexRequest::LoadMember => RequestView::LoadMember,
            RaftIndexRequest::GetTargetAddr(id) => RequestView::GetTargetAddr(*id),
            RaftIndexRequest::SaveLogs(logs) => RequestView::SaveLogs(logs@),
            RaftIndexRequest::SaveSnapshots(snapshots) => RequestView::SaveSnapshots(snapshots@),
            RaftIndexRequest::SaveLastAppliedLog(n) => RequestView::SaveLastAppliedLog(*n),
            RaftIndexRequest::SaveMember { member, member_after_consensus, node_addr } => {
                RequestView::SaveMember {
                    member: member@,
                    member_after_consensus: member_after_consensus@,
                    node_addr: match node_addr {
                        Some(a) => Some(addr_views(a@)),
                        None => None,
                    },
                }
            },
            RaftIndexRequest::SaveNodeAddr(a) => RequestView::SaveNodeAddr(addr_views(a@)),
            RaftIndexRequest::AddNodeAddr(id, addr) => RequestView::AddNodeAddr(*id, addr@),
            RaftIndexRequest::SaveHardState { current_term, voted_for } => {
                RequestView::SaveHardState { current_term: *current_term, voted_for: *voted_for }
            },
        }
    }
}

/// An answer of the manager.
#[derive(Debug)]
pub enum RaftIndexResponse {
    /// The request was carried out and has nothing to report.
    Empty,
    RaftIndexInfo { raft_index: RaftIndexDto, last_applied_log: u64 },
    HardState { current_term: u64, voted_for: u64 },
    MemberShip { member: Vec<u64>, member_after_consensus: Vec<u64>, node_addrs: Vec<NodeAddr> },
    TargetAddr(Option<String>),
}

/// The mathematical value of an answer.
pub enum ResponseView {
    Empty,
    RaftIndexInfo { raft_index: RaftIndexView, last_applied_log: u64 },
    HardState { current_term: u64, voted_for: u64 },
    MemberShip {
        member: Seq<u64>,
        member_after_consensus: Seq<u64>,
        node_addrs: Seq<NodeAddrView>,
    },
    TargetAddr(Option<Seq<char>>),
}

impl View for RaftIndexResponse {
    type V = ResponseView;

    open spec fn view(&self) -> ResponseView {
        match self {
            RaftIndexResponse::Empty => ResponseView::Empty,
            RaftIndexResponse::RaftIndexInfo { raft_index, last_applied_log } => {
                ResponseView::RaftIndexInfo {
                    raft_index: raft_index@,
                    last_applied_log: *last_applied_log,
                }
            },
            RaftIndexResponse::HardState { current_term, voted_for } => ResponseView::HardState {
                current_term: *current_term,
                voted_for: *voted_for,
            },
            RaftIndexResponse::MemberShip { member, member_after_consensus, node_addrs } => {
                ResponseView::MemberShip {
                    member: member@,
                    member_after_consensus: member_after_consensus@,
                    node_addrs: addr_views(node_addrs@),
                }
            },
            RaftIndexResponse::TargetAddr(a) => ResponseView::TargetAddr(
                match a {
                    Some(s) => Some(s@),
                    None => None,
                },
            ),
        }
    }
}

/// The mathematical value of what a request comes back with.
pub open spec fn result_view(r: Result<RaftIndexResponse, StoreError>) -> Result<
    ResponseView,
    StoreError,
> {
    match r {
        Ok(v) => Ok(v@),
        Err(e) => Err(e),
    }
}

/// Where the manager stands.
pub enum ManagerView {
    /// Not started yet.
    Uninit,
    /// Started: the catalog and the index of the last applied entry.
    Ready { index: RaftIndexView, last_applied_log: u64 },
    /// Stopped after a file operation failed.
    Failed,
}

/// The catalog that a request to save asks for, given the catalog that is
/// kept. A request that saves nothing in the catalog asks for the catalog
/// as it is.
pub open spec fn requested_catalog(c: RaftIndexView, req: RequestView) -> RaftIndexView {
    match req {
        RequestView::SaveLogs(logs) => RaftIndexView { logs, ..c },
        RequestView::SaveSnapshots(snapshots) => RaftIndexView { snapshots, ..c },
        RequestView::SaveMember { member, member_after_consensus, node_addr } => RaftIndexView {
            member,
            member_after_consensus,
            node_addrs: match node_addr {
                Some(a) => a,
                None => c.node_addrs,
            },
            ..c
        },
        RequestView::SaveNodeAddr(a) => RaftIndexView { node_addrs: a, ..c },
        RequestView::AddNodeAddr(id, addr) => RaftIndexView {
            node_addrs: addr_upsert(c.node_addrs, id, addr),
            ..c
        },
        RequestView::SaveHardState { current_term, voted_for } => RaftIndexView {
            current_term,
            voted_for,
            ..c
        },
        _ => c,
    }
}

/// Whether a request to save in the catalog is granted: the catalog it asks
/// for must be acceptable, and a new list of segments must stand behind the
/// newest snapshot.
pub open spec fn granted(c: RaftIndexView, req: RequestView) -> bool {
    &&& acceptable(c, requested_catalog(c, req))
    &&& req matches RequestView::SaveLogs(logs) ==> logs_aligned(logs, c.snapshots)
}

/// What a request does to a started manager: the catalog and the index of
/// the last applied entry afterwards, and the answer.
pub open spec fn ready_step(c: RaftIndexView, applied: u64, req: RequestView) -> (
    RaftIndexView,
    u64,
    Result<ResponseView, StoreError>,
) {
    match req {
        RequestView::LoadIndexInfo => (
            c,
            applied,
            Ok(ResponseView::RaftIndexInfo { raft_index: c, last_applied_log: applied }),
        ),
        RequestView::LoadHardState => (
            c,
            applied,
            Ok(ResponseView::HardState { current_term: c.current_term, voted_for: c.voted_for }),
        ),
        RequestView::LoadMember => (
            c,
            applied,
            Ok(
                ResponseView::MemberShip {
                    member: c.member,
                    member_after_consensus: c.member_after_consensus,
                    node_addrs: c.node_addrs,
                },
            ),
        ),
        RequestView::GetTargetAddr(id) => (
            c,
            applied,
            Ok(ResponseView::TargetAddr(addr_of(c.node_addrs, id))),
        ),
        RequestView::SaveLastAppliedLog(n) => if n >= applied {
            (c, n, Ok(ResponseView::Empty))
        } else {
            (c, applied, Err(StoreError::InvariantViolation))
        },
        _ => if granted(c, req) {
            (requested_catalog(c, req), applied, Ok(ResponseView::Empty))
        } else {
            (c, applied, Err(StoreError::InvariantViolation))
        },
    }
}

/// What a request does to the manager: where it stands afterwards, and the
/// answer. Before the manager is started every request fails as not
/// initialized; after it has stopped every request fails as an I/O error.
pub open spec fn step(s: ManagerView, req: RequestView) -> (
    ManagerView,
    Result<ResponseView, StoreError>,
) {
    match s {
        ManagerView::Uninit => (s, Err(StoreError::NotInitialized)),
        ManagerView::Failed => (s, Err(StoreError::Io)),
        ManagerView::Ready { index, last_applied_log } => {
            let (c, n, out) = ready_step(index, last_applied_log, req);
            (ManagerView::Ready { index: c, last_applied_log: n }, out)
        },
    }
}

/// What a request does to the bytes that the index file must hold. A
/// request that is refused, or that only loads, changes nothing. A new
/// index of the last applied entry changes the first eight bytes and
/// nothing else. Any other request that is granted puts the record of the
/// new catalog behind the first eight bytes, and the file ends there.
pub open spec fn step_image(image: Option<Seq<u8>>, s: ManagerView, req: RequestView) -> Option<
    Seq<u8>,
> {
    match (s, image) {
        (ManagerView::Ready { index, last_applied_log }, Some(bytes)) => {
            if ready_step(index, last_applied_log, req).2 is Err {
                Some(bytes)
            } else {
                match req {
                    RequestView::LoadIndexInfo => Some(bytes),
                    RequestView::LoadHardState => Some(bytes),
                    RequestView::LoadMember => Some(bytes),
                    RequestView::GetTargetAddr(_) => Some(bytes),
                    RequestView::SaveLastAppliedLog(n) => Some(with_applied(bytes, n)),
                    _ => Some(with_catalog(bytes, requested_catalog(index, req))),
                }
            }
        },
        _ => image,
    }
}

/// A request saves in the catalog when it is none of the loads and does
/// not save the index of the last applied entry.
pub open spec fn saves_catalog(req: RequestView) -> bool {
    !(req is LoadIndexInfo || req is LoadHardState || req is LoadMember || req is GetTargetAddr
        || req is SaveLastAppliedLog)
}

/// What a request that saves in the catalog does to a started manager.
pub proof fn lemma_save_step(bytes: Seq<u8>, c: RaftIndexView, applied: u64, req: RequestView)
    requires
        saves_catalog(req),
    ensures
        granted(c, req) ==> step(
            ManagerView::Ready { index: c, last_applied_log: applied },
            req,
        ) == (
            ManagerView::Ready { index: requested_catalog(c, req), last_applied_log: applied },
            Ok::<ResponseView, StoreError>(ResponseView::Empty),
        ) && step_image(
            Some(bytes),
            ManagerView::Ready { index: c, last_applied_log: applied },
            req,
        ) == Some(with_catalog(bytes, requested_catalog(c, req))),
        !granted(c, req) ==> step(
            ManagerView::Ready { index: c, last_applied_log: applied },
            req,
        ) == (
            ManagerView::Ready { index: c, last_applied_log: applied },
            Err::<ResponseView, StoreError>(StoreError::InvariantViolation),
        ) && step_image(
            Some(bytes),
            ManagerView::Ready { index: c, last_applied_log: applied },
            req,
        ) == Some(bytes),
{
}

/// No request lowers the term: after any request to a started manager the
/// term is the term before or a higher one.
pub proof fn lemma_term_never_decreases(s: ManagerView, req: RequestView)
    requires
        s is Ready,
    ensures
        step(s, req).0 is Ready,
        step(s, req).0->index.current_term >= s->index.current_term,
{
}

/// Of two requests to save the hard state that are both granted, whatever
/// is asked between them, the later saves a term that is not below the
/// earlier.
pub proof fn lemma_hard_state_terms(
    s: ManagerView,
    t1: u64,
    v1: u64,
    between: Seq<RequestView>,
    t2: u64,
    v2: u64,
)
    requires
        s is Ready,
        step(s, RequestView::SaveHardState { current_term: t1, voted_for: v1 }).1 is Ok,
        step(
            run(step(s, RequestView::SaveHardState { current_term: t1, voted_for: v1 }).0, between),
            RequestView::SaveHardState { current_term: t2, voted_for: v2 },
        ).1 is Ok,
    ensures
        t1 <= t2,
{
    let s1 = step(s, RequestView::SaveHardState { current_term: t1, voted_for: v1 }).0;
    lemma_run_keeps_term(s1, between);
}

/// Where the manager stands after a run of requests.
pub open spec fn run(s: ManagerView, reqs: Seq<RequestView>) -> ManagerView
    decreases reqs.len(),
{
    if reqs.len() == 0 {
        s
    } else {
        run(step(s, reqs[0]).0, reqs.skip(1))
    }
}

/// No run of requests lowers the term.
pub proof fn lemma_run_keeps_term(s: ManagerView, reqs: Seq<RequestView>)
    requires
        s is Ready,
    ensures
        run(s, reqs) is Ready,
        run(s, reqs)->index.current_term >= s->index.current_term,
    decreases reqs.len(),
{
    if reqs.len() != 0 {
        lemma_term_never_decreases(s, reqs[0]);
        lemma_run_keeps_term(step(s, reqs[0]).0, reqs.skip(1));
    }
}

/// Every catalog that a started manager comes to keep is valid, if the one
/// it started with was: its segments are contiguous and only the last of
/// them may be open.
pub proof fn lemma_step_keeps_rules(s: ManagerView, req: RequestView)
    requires
        s is Ready,
        catalog_valid(s->index),
    ensures
        step(s, req).0 is Ready,
        catalog_valid(step(s, req).0->index),
        logs_valid(step(s, req).0->index.logs),
{
}

/// The manager of the index file.
pub struct RaftIndexManager {
    path: String,
    inner: Option<RaftIndexInnerManager>,
    failed: bool,
}

impl View for RaftIndexManager {
    type V = ManagerView;

    closed spec fn view(&self) -> ManagerView {
        if self.failed {
            ManagerView::Failed
        } else {
            match self.inner {
                None => ManagerView::Uninit,
                Some(m) => ManagerView::Ready { index: m.index(), last_applied_log: m.applied() },
            }
        }
    }
}

impl RaftIndexManager {
    /// The directory that holds the files of the store.
    pub closed spec fn path(&self) -> Seq<char> {
        self.path@
    }

    /// The bytes that the index file must hold, once the manager has been
    /// started.
    pub closed spec fn image(&self) -> Option<Seq<u8>> {
        match self.inner {
            None => None,
            Some(m) => Some(m.image()),
        }
    }

    /// What is in memory is what the file holds.
    pub closed spec fn inv(&self) -> bool {
        match self.inner {
            None => true,
            Some(m) => m.inv(),
        }
    }

    /// The file of a started manager loads to what the manager keeps, and
    /// what it keeps is a valid catalog: its segments are contiguous and
    /// only the last of them may be open.
    pub proof fn lemma_ready(&self)
        requires
            self.inv(),
            self@ is Ready,
        ensures
            self.image() is Some,
            load_index_file(self.image().unwrap()) == (Loaded::Catalog {
                last_applied_log: self@->last_applied_log,
                index: self@->index,
            }),
            catalog_valid(self@->index),
            logs_valid(self@->index.logs),
    {
        self.inner.unwrap().lemma_inv();
    }

    /// A manager for the store in the directory `path`, not started yet.
    pub fn new(path: String) -> (m: RaftIndexManager)
        ensures
            m@ is Uninit,
            m.inv(),
            m.path() == path@,
            m.image() is None,
    {
        RaftIndexManager { path, inner: None, failed: false }
    }

    /// The directory that holds the files of the store.
    pub fn data_dir(&self) -> (p: &String)
        ensures
            p@ == self.path(),
    {
        &self.path
    }

    /// Starts the manager on the bytes of the index file. A manager that
    /// was started before refuses; one that has stopped stays stopped. A
    /// corrupt file leaves the manager as it was: not started.
    pub fn init(&mut self, content: &[u8]) -> (r: Result<(), StoreError>)
        requires
            old(self).inv(),
        ensures
            final(self).inv(),
            final(self).path() == old(self).path(),
            match old(self)@ {
                ManagerView::Failed => r == Err::<(), StoreError>(StoreError::Io) && final(self)@
                    == old(self)@ && final(self).image() == old(self).image(),
                ManagerView::Ready { .. } => r == Err::<(), StoreError>(
                    StoreError::InvariantViolation,
                ) && final(self)@ == old(self)@ && final(self).image() == old(self).image(),
                ManagerView::Uninit => match load_index_file(content@) {
                    Loaded::Fresh => r.is_ok() && final(self)@ == (ManagerView::Ready {
                        index: fresh_catalog(),
                        last_applied_log: 0,
                    }) && final(self).image() == Some(index_file(0, fresh_catalog())),
                    Loaded::Catalog { last_applied_log, index } => r.is_ok() && final(self)@ == (
                    ManagerView::Ready { index, last_applied_log }) && final(self).image() == Some(
                        content@,
                    ),
                    Loaded::Corrupt => r == Err::<(), StoreError>(StoreError::Corrupt) && final(self)@ is Uninit && final(self).image() is None,
                },
            },
    {
        if self.failed {
            return Err(StoreError::Io);
        }
        if self.inner.is_some() {
            return Err(StoreError::InvariantViolation);
        }
        match RaftIndexInnerManager::init(content) {
            Ok(m) => {
                self.inner = Some(m);
                Ok(())
            },
            Err(e) => Err(e),
        }
    }

    /// Stops the manager: the caller reports that a file operation failed.
    pub fn fail(&mut self)
        requires
            old(self).inv(),
        ensures
            final(self).inv(),
            final(self)@ is Failed,
            final(self).path() == old(self).path(),
            final(self).image() == old(self).image(),
    {
        self.failed = true;
    }

    /// The bytes that the index file must hold, once the manager has been
    /// started. After a request that saved, the caller writes the part
    /// that changed: the first eight bytes for the index of the last
    /// applied entry, everything behind them for the catalog.
    pub fn file_image(&self) -> (bytes: Option<&Vec<u8>>)
        ensures
            match bytes {
                Some(b) => self.image() == Some(b@),
                None => self.image() is None,
            },
    {
        match &self.inner {
            Some(m) => Some(m.file_image()),
            None => None,
        }
    }

    /// The catalog and the index of the last applied entry.
    pub fn load_index_info(&self) -> (r: Result<RaftIndexResponse, StoreError>)
        requires
            self.inv(),
        ensures
            result_view(r) == step(self@, RequestView::LoadIndexInfo).1,
    {
        if self.failed {
            return Err(StoreError::Io);
        }
        match &self.inner {
            Some(m) => Ok(
                RaftIndexResponse::RaftIndexInfo {
                    raft_index: m.raft_index().clone(),
                    last_applied_log: m.last_applied(),
                },
            ),
            None => Err(StoreError::NotInitialized),
        }
    }

    /// The term and the vote.
    pub fn load_hard_state(&self) -> (r: Result<RaftIndexResponse, StoreError>)
        requires
            self.inv(),
        ensures
            result_view(r) == step(self@, RequestView::LoadHardState).1,
    {
        if self.failed {
            return Err(StoreError::Io);
        }
        match &self.inner {
            Some(m) => Ok(
                RaftIndexResponse::HardState {
                    current_term: m.raft_index().current_term,
                    voted_for: m.raft_index().voted_for,
                },
            ),
            None => Err(StoreError::NotInitialized),
        }
    }

    /// The members and the addresses of the nodes.
    pub fn load_member(&self) -> (r: Result<RaftIndexResponse, StoreError>)
        requires
            self.inv(),
        ensures
            result_view(r) == step(self@, RequestView::LoadMember).1,
    {
        if self.failed {
            return Err(StoreError::Io);
        }
        match &self.inner {
            Some(m) => Ok(
                RaftIndexResponse::MemberShip {
                    member: copy_vec(&m.raft_index().member),
                    member_after_consensus: copy_vec(&m.raft_index().member_after_consensus),
                    node_addrs: copy_addrs(&m.raft_index().node_addrs),
                },
            ),
            None => Err(StoreError::NotInitialized),
        }
    }

    /// The address of node `id`, if the catalog has one.
    pub fn get_target_addr(&self, id: u64) -> (r: Result<RaftIndexResponse, StoreError>)
        requires
            self.inv(),
        ensures
            result_view(r) == step(self@, RequestView::GetTargetAddr(id)).1,
    {
        if self.failed {
            return Err(StoreError::Io);
        }
        match &self.inner {
            Some(m) => {
                let addrs = &m.raft_index().node_addrs;
                let i = find_addr(addrs, id);
                if i < addrs.len() {
                    Ok(RaftIndexResponse::TargetAddr(Some(addrs[i].addr.clone())))
                } else {
                    Ok(RaftIndexResponse::TargetAddr(None))
                }
            },
            None => Err(StoreError::NotInitialized),
        }
    }

    /// Saves the index of the last applied entry. An index below the one
    /// that is saved is refused.
    pub fn write_last_applied_log(&mut self, last_applied_log: u64) -> (r: Result<
        RaftIndexResponse,
        StoreError,
    >)
        requires
            old(self).inv(),
        ensures
            final(self).inv(),
            final(self).path() == old(self).path(),
            final(self)@ == step(old(self)@, RequestView::SaveLastAppliedLog(last_applied_log)).0,
            final(self).image() == step_image(old(self).image(), old(self)@, RequestView::SaveLastAppliedLog(last_applied_log)),
            result_view(r) == step(old(self)@, RequestView::SaveLastAppliedLog(last_applied_log)).1,
    {
        if self.failed {
            return Err(StoreError::Io);
        }
        match &mut self.inner {
            Some(m) => match m.write_last_applied_log(last_applied_log) {
                Ok(()) => Ok(RaftIndexResponse::Empty),
                Err(e) => Err(e),
            },
            None => Err(StoreError::NotInitialized),
        }
    }

    /// Puts `index` in the place of the catalog, if it is acceptable.
    pub fn write_index(&mut self, index: RaftIndexDto) -> (r: Result<RaftIndexResponse, StoreError>)
        requires
            old(self).inv(),
        ensures
            final(self).inv(),
            final(self).path() == old(self).path(),
            match old(self)@ {
                ManagerView::Uninit => r matches Err(e) && e == StoreError::NotInitialized && final(self)@ == old(self)@ && final(self).image() == old(self).image(),
                ManagerView::Failed => r matches Err(e) && e == StoreError::Io && final(self)@
                    == old(self)@ && final(self).image() == old(self).image(),
                ManagerView::Ready { index: c, last_applied_log } => if acceptable(c, index@) {
                    r matches Ok(v) && v@ == ResponseView::Empty && final(self)@ == (
                    ManagerView::Ready { index: index@, last_applied_log }) && final(self).image()
                        == Some(with_catalog(old(self).image().unwrap(), index@))
                } else {
                    r matches Err(e) && e == StoreError::InvariantViolation && final(self)@ == old(self)@ && final(self).image() == old(self).image()
                },
            },
    {
        if self.failed {
            return Err(StoreError::Io);
        }
        match &mut self.inner {
            Some(m) => match m.write_index(index) {
                Ok(()) => Ok(RaftIndexResponse::Empty),
                Err(e) => Err(e),
            },
            None => Err(StoreError::NotInitialized),
        }
    }
    /// A copy of the catalog, or why there is none to be had.
    fn current(&self) -> (r: Result<RaftIndexDto, StoreError>)
        requires
            self.inv(),
        ensures
            match self@ {
                ManagerView::Uninit => r matches Err(e) && e == StoreError::NotInitialized,
                ManagerView::Failed => r matches Err(e) && e == StoreError::Io,
                ManagerView::Ready { index, .. } => r matches Ok(c) && c@ == index,
            },
    {
        if self.failed {
            return Err(StoreError::Io);
        }
        match &self.inner {
            Some(m) => Ok(m.raft_index().clone()),
            None => Err(StoreError::NotInitialized),
        }
    }

    /// Puts `next` in the place of the catalog for the request `req`, which
    /// asks for it and which nothing but the catalog itself can refuse.
    fn save(&mut self, next: RaftIndexDto, Ghost(req): Ghost<RequestView>) -> (r: Result<
        RaftIndexResponse,
        StoreError,
    >)
        requires
            old(self).inv(),
            old(self)@ is Ready,
            saves_catalog(req),
            next@ == requested_catalog(old(self)@->index, req),
            granted(old(self)@->index, req) == acceptable(old(self)@->index, next@),
        ensures
            final(self).inv(),
            final(self).path() == old(self).path(),
            final(self)@ == step(old(self)@, req).0,
            result_view(r) == step(old(self)@, req).1,
            final(self).image() == step_image(old(self).image(), old(self)@, req),
    {
        let ghost before = self@;
        let ghost bytes = self.image();
        proof {
            assert(before == (ManagerView::Ready {
                index: before->index,
                last_applied_log: before->last_applied_log,
            }));
            assert(bytes == Some(bytes.unwrap()));
            lemma_save_step(bytes.unwrap(), before->index, before->last_applied_log, req);
        }
        self.write_index(next)
    }

    /// Replaces the list of segments. The new list must be contiguous with
    /// only its last segment open, and each of its segments that is not
    /// marked for removal must start behind what the newest snapshot
    /// covers.
    pub fn write_logs(&mut self, logs: Vec<LogRange>) -> (r: Result<RaftIndexResponse, StoreError>)
        requires
            old(self).inv(),
        ensures
            final(self).inv(),
            final(self).path() == old(self).path(),
            final(self)@ == step(old(self)@, RequestView::SaveLogs(logs@)).0,
            final(self).image() == step_image(old(self).image(), old(self)@, RequestView::SaveLogs(logs@)),
            result_view(r) == step(old(self)@, RequestView::SaveLogs(logs@)).1,
    {
        let mut next = match self.current() {
            Ok(c) => c,
            Err(e) => {
                return Err(e);
            },
        };
        let ghost kept = next@;
        let ghost logs_view = logs@;
        proof {
            lemma_save_step(
                self.image().unwrap(),
                kept,
                self@->last_applied_log,
                RequestView::SaveLogs(logs_view),
            );
        }
        if !check_aligned(&logs, &next.snapshots) {
            return Err(StoreError::InvariantViolation);
        }
        next.logs = logs;
        assert(next@ =~= requested_catalog(kept, RequestView::SaveLogs(logs_view)));
        self.save(next, Ghost(RequestView::SaveLogs(logs_view)))
    }

    /// Replaces the list of snapshots.
    pub fn write_snapshots(&mut self, snapshots: Vec<SnapshotRange>) -> (r: Result<
        RaftIndexResponse,
        StoreError,
    >)
        requires
            old(self).inv(),
        ensures
            final(self).inv(),
            final(self).path() == old(self).path(),
            final(self)@ == step(old(self)@, RequestView::SaveSnapshots(snapshots@)).0,
            final(self).image() == step_image(old(self).image(), old(self)@, RequestView::SaveSnapshots(snapshots@)),
            result_view(r) == step(old(self)@, RequestView::SaveSnapshots(snapshots@)).1,
    {
        let mut next = match self.current() {
            Ok(c) => c,
            Err(e) => {
                return Err(e);
            },
        };
        let ghost kept = next@;
        let ghost snapshots_view = snapshots@;
        next.snapshots = snapshots;
        assert(next@ =~= requested_catalog(kept, RequestView::SaveSnapshots(snapshots_view)));
        self.save(next, Ghost(RequestView::SaveSnapshots(snapshots_view)))
    }

    /// Replaces both lists of members and, where a list of addresses is
    /// given, the addresses: all of it or nothing.
    pub fn write_member(
        &mut self,
        member: Vec<u64>,
        member_after_consensus: Vec<u64>,
        node_addr: Option<Vec<NodeAddr>>,
    ) -> (r: Result<RaftIndexResponse, StoreError>)
        requires
            old(self).inv(),
        ensures
            final(self).inv(),
            final(self).path() == old(self).path(),
            ({
                let req = RequestView::SaveMember {
                    member: member@,
                    member_after_consensus: member_after_consensus@,
                    node_addr: match node_addr {
                        Some(a) => Some(addr_views(a@)),
                        None => None,
                    },
                };
                final(self)@ == step(old(self)@, req).0 && result_view(r) == step(
                    old(self)@,
                    req,
                ).1 && final(self).image() == step_image(old(self).image(), old(self)@, req)
            }),
    {
        let mut next = match self.current() {
            Ok(c) => c,
            Err(e) => {
                return Err(e);
            },
        };
        let ghost kept = next@;
        let ghost req = RequestView::SaveMember {
            member: member@,
            member_after_consensus: member_after_consensus@,
            node_addr: if node_addr is Some {
                Some(addr_views(node_addr.unwrap()@))
            } else {
                None
            },
        };
        next.member = member;
        next.member_after_consensus = member_after_consensus;
        match node_addr {
            Some(a) => {
                next.node_addrs = a;
            },
            None => {},
        }
        assert(next@ =~= requested_catalog(kept, req));
        self.save(next, Ghost(req))
    }

    /// Replaces the addresses of the nodes. A list that gives a node two
    /// addresses is refused.
    pub fn write_node_addr(&mut self, node_addr: Vec<NodeAddr>) -> (r: Result<
        RaftIndexResponse,
        StoreError,
    >)
        requires
            old(self).inv(),
        ensures
            final(self).inv(),
            final(self).path() == old(self).path(),
            final(self)@ == step(old(self)@, RequestView::SaveNodeAddr(addr_views(node_addr@))).0,
            final(self).image() == step_image(old(self).image(), old(self)@, RequestView::SaveNodeAddr(addr_views(node_addr@))),
            result_view(r) == step(
                old(self)@,
                RequestView::SaveNodeAddr(addr_views(node_addr@)),
            ).1,
    {
        let mut next = match self.current() {
            Ok(c) => c,
            Err(e) => {
                return Err(e);
            },
        };
        let ghost kept = next@;
        let ghost addrs_view = addr_views(node_addr@);
        next.node_addrs = node_addr;
        assert(next@ =~= requested_catalog(kept, RequestView::SaveNodeAddr(addrs_view)));
        self.save(next, Ghost(RequestView::SaveNodeAddr(addrs_view)))
    }

    /// Sets the address of node `id`: in place where the node has one, as
    /// a new address where it has none.
    pub fn add_node_addr(&mut self, id: u64, node_addr: String) -> (r: Result<
        RaftIndexResponse,
        StoreError,
    >)
        requires
            old(self).inv(),
        ensures
            final(self).inv(),
            final(self).path() == old(self).path(),
            final(self)@ == step(old(self)@, RequestView::AddNodeAddr(id, node_addr@)).0,
            final(self).image() == step_image(old(self).image(), old(self)@, RequestView::AddNodeAddr(id, node_addr@)),
            result_view(r) == step(old(self)@, RequestView::AddNodeAddr(id, node_addr@)).1,
    {
        let mut next = match self.current() {
            Ok(c) => c,
            Err(e) => {
                return Err(e);
            },
        };
        let ghost kept = next@;
        let ghost before = addr_views(next.node_addrs@);
        let ghost text = node_addr@;
        let i = find_addr(&next.node_addrs, id);
        if i < next.node_addrs.len() {
            next.node_addrs.set(i, NodeAddr { id, addr: node_addr });
        } else {
            next.node_addrs.push(NodeAddr { id, addr: node_addr });
        }
        assert(addr_views(next.node_addrs@) =~= addr_upsert(before, id, text));
        assert(next@ =~= requested_catalog(kept, RequestView::AddNodeAddr(id, text)));
        self.save(next, Ghost(RequestView::AddNodeAddr(id, text)))
    }

    /// Saves the term and the vote. A term below the one that is saved is
    /// refused, and the hard state stays as it was.
    pub fn write_hard_state(&mut self, current_term: u64, voted_for: u64) -> (r: Result<
        RaftIndexResponse,
        StoreError,
    >)
        requires
            old(self).inv(),
        ensures
            final(self).inv(),
            final(self).path() == old(self).path(),
            final(self)@ == step(
                old(self)@,
                RequestView::SaveHardState { current_term, voted_for },
            ).0,
            final(self).image() == step_image(
                old(self).image(),
                old(self)@,
                RequestView::SaveHardState { current_term, voted_for },
            ),
            result_view(r) == step(
                old(self)@,
                RequestView::SaveHardState { current_term, voted_for },
            ).1,
    {
        let mut next = match self.current() {
            Ok(c) => c,
            Err(e) => {
                return Err(e);
            },
        };
        let ghost kept = next@;
        next.current_term = current_term;
        next.voted_for = voted_for;
        assert(next@ =~= requested_catalog(
            kept,
            RequestView::SaveHardState { current_term, voted_for },
        ));
        self.save(next, Ghost(RequestView::SaveHardState { current_term, voted_for }))
    }

    /// Carries out a request: where the manager stands afterwards and what
    /// it answers are those of `step`.
    pub fn handle(&mut self, msg: RaftIndexRequest) -> (r: Result<RaftIndexResponse, StoreError>)
        requires
            old(self).inv(),
        ensures
            final(self).inv(),
            final(self).path() == old(self).path(),
            final(self)@ == step(old(self)@, msg@).0,
            final(self).image() == step_image(old(self).image(), old(self)@, msg@),
            result_view(r) == step(old(self)@, msg@).1,
    {
        match msg {
            RaftIndexRequest::LoadIndexInfo => self.load_index_info(),
            RaftIndexRequest::SaveSnapshots(snapshots) => self.write_snapshots(snapshots),
            RaftIndexRequest::SaveLastAppliedLog(last_applied_log) => self.write_last_applied_log(
                last_applied_log,
            ),
            RaftIndexRequest::SaveLogs(logs) => self.write_logs(logs),
            RaftIndexRequest::SaveMember { member, member_after_consensus, node_addr } => {
                self.write_member(member, member_after_consensus, node_addr)
            },
            RaftIndexRequest::SaveNodeAddr(node_addr) => self.write_node_addr(node_addr),
            RaftIndexRequest::AddNodeAddr(id, node_addr) => self.add_node_addr(id, node_addr),
            RaftIndexRequest::SaveHardState { current_term, voted_for } => self.write_hard_state(
                current_term,
                voted_for,
            ),
            RaftIndexRequest::LoadHardState => self.load_hard_state(),
            RaftIndexRequest::LoadMember => self.load_member(),
            RaftIndexRequest::GetTargetAddr(id) => self.get_target_addr(id),
        }
    }
}

} // verus!
