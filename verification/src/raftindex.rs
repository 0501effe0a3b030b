//! The index file and its manager. The file holds the index of the last
//! applied entry in its first eight bytes, and behind them one record with
//! the catalog. The manager keeps the catalog in memory together with the
//! bytes that the file must hold, so that the caller can write the part
//! that an operation changed.

use crate::catalog::{
    catalog_bytes, catalog_decode, catalog_fits, decode_catalog, encode_catalog,
    lemma_catalog_roundtrip,
};
use crate::endian::{get_u64_be, lemma_u64_be_roundtrip, put_u64_be, u64_be, u64_from_be};
use crate::error::StoreError;
use crate::framing::{
    frame, lemma_frame_roundtrip, lemma_torn_frame_is_eof, put_record, read_record, record_at,
    OutcomeView, ReadOutcome, MAX_RECORD_LEN,
};
use crate::model::{LogRange, NodeAddrView, RaftIndexDto, RaftIndexView};
use crate::rules::{catalog_valid, check_addrs, check_logs};
use vstd::prelude::*;
use vstd::slice::{slice_subrange, slice_to_vec};

verus! {

/// Number of bytes of the index of the last applied entry at the start of
/// the index file.
pub const APPLIED_LEN: usize = 8;

/// What the bytes of an index file hold.
pub enum Loaded {
    /// Nothing: the file is empty and the store starts anew.
    Fresh,
    /// The index of the last applied entry and a valid catalog.
    Catalog { last_applied_log: u64, index: RaftIndexView },
    /// Something else than the store writes.
    Corrupt,
}

/// The catalog of a store that starts anew: no state, no members, and one
/// empty open segment that starts at index 0.
pub open spec fn fresh_catalog() -> RaftIndexView {
    RaftIndexView {
        current_term: 0,
        voted_for: 0,
        member: Seq::empty(),
        member_after_consensus: Seq::empty(),
        node_addrs: Seq::empty(),
        logs: seq![
            LogRange {
                id: 0,
                start_index: 0,
                pre_term: 0,
                record_count: 0,
                is_close: false,
                mark_remove: false,
            },
        ],
        snapshots: Seq::empty(),
    }
}

/// The bytes of an index file with the given contents.
pub open spec fn index_file(last_applied_log: u64, c: RaftIndexView) -> Seq<u8> {
    u64_be(last_applied_log) + frame(catalog_bytes(c))
}

/// What an index file with the given bytes holds. An empty file is fresh.
/// Otherwise the file holds a catalog when it has the eight leading bytes
/// and behind them a whole record that is a valid catalog; all else is
/// corrupt, a record that the file ends inside too.
pub open spec fn load_index_file(content: Seq<u8>) -> Loaded {
    if content.len() == 0 {
        Loaded::Fresh
    } else if content.len() < APPLIED_LEN {
        Loaded::Corrupt
    } else {
        match record_at(content, APPLIED_LEN as int) {
            OutcomeView::Record(p) => match catalog_decode(p) {
                Some(c) => if catalog_valid(c) {
                    Loaded::Catalog {
                        last_applied_log: u64_from_be(content.subrange(0, APPLIED_LEN as int)),
                        index: c,
                    }
                } else {
                    Loaded::Corrupt
                },
                None => Loaded::Corrupt,
            },
            _ => Loaded::Corrupt,
        }
    }
}

/// The bytes of an index file after the catalog `c` was saved in it: the
/// first eight bytes as they were, and behind them the record of `c`,
/// where the file ends.
#[verifier::opaque]
pub open spec fn with_catalog(image: Seq<u8>, c: RaftIndexView) -> Seq<u8> {
    image.take(APPLIED_LEN as int) + frame(catalog_bytes(c))
}

/// The bytes of an index file after the index `n` of the last applied
/// entry was saved in it: the first eight bytes encode `n`, and behind
/// them the file is as it was.
pub open spec fn with_applied(image: Seq<u8>, n: u64) -> Seq<u8> {
    u64_be(n) + image.skip(APPLIED_LEN as int)
}

/// A catalog can be stored when each of its parts can be written and the
/// whole fits in one record.
pub open spec fn storable(c: RaftIndexView) -> bool {
    catalog_fits(c) && catalog_bytes(c).len() <= MAX_RECORD_LEN
}

/// A catalog may take the place of another when it is valid, its term is
/// not below the term it replaces, and it fits in one record.
pub open spec fn acceptable(old: RaftIndexView, new: RaftIndexView) -> bool {
    catalog_valid(new) && new.current_term >= old.current_term && catalog_bytes(new).len()
        <= MAX_RECORD_LEN
}

/// A store that is started on the file it wrote finds what it saved: the
/// index file of a valid catalog loads to that catalog and to the same
/// index of the last applied entry.
pub proof fn lemma_reload(last_applied_log: u64, c: RaftIndexView)
    requires
        catalog_valid(c),
        storable(c),
    ensures
        load_index_file(index_file(last_applied_log, c)) == (Loaded::Catalog {
            last_applied_log,
            index: c,
        }),
{
    let head = u64_be(last_applied_log);
    let content = index_file(last_applied_log, c);
    lemma_u64_be_roundtrip(last_applied_log, Seq::empty());
    lemma_frame_roundtrip(head, catalog_bytes(c), Seq::empty());
    assert(content =~= head + frame(catalog_bytes(c)) + Seq::<u8>::empty());
    assert(content.subrange(0, APPLIED_LEN as int) =~= head);
    lemma_catalog_roundtrip(c);
}

/// An index file of which only a part was written is corrupt: a store that
/// is started on it does not take it for a catalog, and not for a fresh
/// file either.
pub proof fn lemma_torn_index_file_is_corrupt(last_applied_log: u64, c: RaftIndexView, cut: int)
    requires
        storable(c),
        0 < cut < index_file(last_applied_log, c).len(),
    ensures
        load_index_file(index_file(last_applied_log, c).take(cut)) is Corrupt,
{
    let head = u64_be(last_applied_log);
    let whole = index_file(last_applied_log, c);
    lemma_u64_be_roundtrip(last_applied_log, Seq::empty());
    if cut >= APPLIED_LEN {
        lemma_torn_frame_is_eof(head, catalog_bytes(c), cut - APPLIED_LEN);
        assert(whole.take(cut) =~= head + frame(catalog_bytes(c)).take(cut - APPLIED_LEN));
    }
}

/// The catalog of a file does not depend on its first eight bytes: with
/// other bytes there the file loads to the same catalog, and to the index
/// that those bytes encode.
pub proof fn lemma_header_rewrite(content: Seq<u8>, n: u64)
    requires
        load_index_file(content) is Catalog,
    ensures
        load_index_file(u64_be(n) + content.skip(APPLIED_LEN as int)) == (Loaded::Catalog {
            last_applied_log: n,
            index: load_index_file(content)->index,
        }),
{
    let after = u64_be(n) + content.skip(APPLIED_LEN as int);
    lemma_u64_be_roundtrip(n, Seq::empty());
    assert(after.subrange(0, APPLIED_LEN as int) =~= u64_be(n));
    assert(after.len() == content.len());
    assert(after.subrange(8, 12) =~= content.subrange(8, 12));
    let len = u32_len(content);
    assert(after.subrange(12, 12 + len) =~= content.subrange(12, 12 + len));
}

spec fn u32_len(content: Seq<u8>) -> int {
    crate::endian::u32_from_be(content.subrange(8, 12)) as int
}

/// A crash while the index of the last applied entry is being saved leaves
/// a file that loads to the earlier index or to the new one, with the
/// catalog untouched: the file before the write and the file after it
/// differ in their first eight bytes alone.
pub proof fn lemma_applied_write_is_old_or_new(content: Seq<u8>, n: u64, after_crash: Seq<u8>)
    requires
        load_index_file(content) is Catalog,
        after_crash == content || after_crash == u64_be(n) + content.skip(APPLIED_LEN as int),
    ensures
        load_index_file(after_crash) is Catalog,
        load_index_file(after_crash)->index == load_index_file(content)->index,
        load_index_file(after_crash)->last_applied_log == load_index_file(
            content,
        )->last_applied_log || load_index_file(after_crash)->last_applied_log == n,
{
    lemma_header_rewrite(content, n);
}

/// The catalog and the index of the last applied entry, with the bytes of
/// the file that holds them.
pub struct RaftIndexInnerManager {
    pub(crate) raft_index: RaftIndexDto,
    pub(crate) last_applied_log: u64,
    pub(crate) image: Vec<u8>,
}

impl RaftIndexInnerManager {
    /// The catalog in memory.
    pub closed spec fn index(&self) -> RaftIndexView {
        self.raft_index@
    }

    /// The index of the last applied entry in memory.
    pub closed spec fn applied(&self) -> u64 {
        self.last_applied_log
    }

    /// The bytes that the index file must hold.
    pub closed spec fn image(&self) -> Seq<u8> {
        self.image@
    }

    /// The file holds what is in memory: its bytes load to the catalog and
    /// to the index of the last applied entry.
    pub closed spec fn inv(&self) -> bool {
        load_index_file(self.image()) == (Loaded::Catalog {
            last_applied_log: self.applied(),
            index: self.index(),
        })
    }

    /// What the invariant says: the bytes of the file load to what is in
    /// memory, and the catalog in memory is valid.
    pub proof fn lemma_inv(&self)
        requires
            self.inv(),
        ensures
            load_index_file(self.image()) == (Loaded::Catalog {
                last_applied_log: self.applied(),
                index: self.index(),
            }),
            self.image().len() >= APPLIED_LEN,
            catalog_valid(self.index()),
    {
    }

    /// Starts on the bytes of the index file. An empty file gives the fresh
    /// catalog, and the bytes to write are those of its file. A file that
    /// holds a catalog gives what it holds. Any other file is corrupt.
    pub fn init(content: &[u8]) -> (r: Result<RaftIndexInnerManager, StoreError>)
        ensures
            match load_index_file(content@) {
                Loaded::Fresh => r matches Ok(m) && m.inv() && m.index() == fresh_catalog()
                    && m.applied() == 0 && m.image() == index_file(0, fresh_catalog()),
                Loaded::Catalog { last_applied_log, index } => r matches Ok(m) && m.inv()
                    && m.index() == index && m.applied() == last_applied_log && m.image()
                    == content@,
                Loaded::Corrupt => r matches Err(e) && e == StoreError::Corrupt,
            },
    {
        if content.len() == 0 {
            let mut logs: Vec<LogRange> = Vec::new();
            logs.push(
                LogRange {
                    id: 0,
                    start_index: 0,
                    pre_term: 0,
                    record_count: 0,
                    is_close: false,
                    mark_remove: false,
                },
            );
            let raft_index = RaftIndexDto {
                current_term: 0,
                voted_for: 0,
                member: Vec::new(),
                member_after_consensus: Vec::new(),
                node_addrs: Vec::new(),
                logs,
                snapshots: Vec::new(),
            };
            assert(raft_index@ =~= fresh_catalog()) by {
                assert(raft_index@.node_addrs =~= Seq::<NodeAddrView>::empty());
                assert(raft_index@.logs =~= fresh_catalog().logs);
            }
            let record = encode_catalog(&raft_index);
            proof {
                lemma_fresh_catalog_len();
            }
            let mut image: Vec<u8> = Vec::new();
            put_u64_be(&mut image, 0);
            put_record(&mut image, record.as_slice());
            proof {
                assert(image@ =~= index_file(0, fresh_catalog()));
                lemma_reload(0, fresh_catalog());
            }
            return Ok(RaftIndexInnerManager { raft_index, last_applied_log: 0, image });
        }
        if content.len() < APPLIED_LEN {
            return Err(StoreError::Corrupt);
        }
        let last_applied_log: u64 = get_u64_be(content, 0);
        match read_record(content, APPLIED_LEN) {
            ReadOutcome::Record(p) => match decode_catalog(p.as_slice()) {
                Some(raft_index) => {
                    if check_logs(&raft_index.logs) && check_addrs(&raft_index.node_addrs) {
                        let image = slice_to_vec(content);
                        Ok(RaftIndexInnerManager { raft_index, last_applied_log, image })
                    } else {
                        Err(StoreError::Corrupt)
                    }
                },
                None => Err(StoreError::Corrupt),
            },
            _ => Err(StoreError::Corrupt),
        }
    }

    /// The bytes that the index file must hold.
    pub fn file_image(&self) -> (bytes: &Vec<u8>)
        ensures
            bytes@ == self.image(),
    {
        &self.image
    }

    /// The index of the last applied entry.
    pub fn last_applied(&self) -> (n: u64)
        ensures
            n == self.applied(),
    {
        self.last_applied_log
    }

    /// The catalog.
    pub fn raft_index(&self) -> (c: &RaftIndexDto)
        ensures
            c@ == self.index(),
    {
        &self.raft_index
    }

    /// Saves the index of the last applied entry: the first eight bytes of
    /// the file change and nothing else. An index below the one that is
    /// saved is refused.
    pub fn write_last_applied_log(&mut self, last_applied_log: u64) -> (r: Result<(), StoreError>)
        requires
            old(self).inv(),
        ensures
            final(self).inv(),
            final(self).index() == old(self).index(),
            last_applied_log >= old(self).applied() ==> r.is_ok() && final(self).applied()
                == last_applied_log && final(self).image() == with_applied(
                old(self).image(),
                last_applied_log,
            ),
            last_applied_log < old(self).applied() ==> r == Err::<(), StoreError>(
                StoreError::InvariantViolation,
            ) && final(self).applied() == old(self).applied() && final(self).image() == old(self).image(),
    {
        if last_applied_log < self.last_applied_log {
            return Err(StoreError::InvariantViolation);
        }
        let n: usize = self.image.len();
        let mut image: Vec<u8> = Vec::new();
        put_u64_be(&mut image, last_applied_log);
        crate::wire::append_bytes(&mut image, slice_subrange(self.image.as_slice(), APPLIED_LEN, n));
        proof {
            assert(self.image@.subrange(APPLIED_LEN as int, n as int) =~= self.image@.skip(
                APPLIED_LEN as int,
            ));
            lemma_header_rewrite(self.image@, last_applied_log);
        }
        self.image = image;
        self.last_applied_log = last_applied_log;
        Ok(())
    }

    /// Puts `index` in the place of the catalog: the record behind the
    /// first eight bytes of the file is replaced and the file ends behind
    /// it. A catalog that is not acceptable is refused, and nothing
    /// changes.
    pub fn write_index(&mut self, index: RaftIndexDto) -> (r: Result<(), StoreError>)
        requires
            old(self).inv(),
        ensures
            final(self).inv(),
            final(self).applied() == old(self).applied(),
            acceptable(old(self).index(), index@) ==> r.is_ok() && final(self).index() == index@
                && final(self).image() == with_catalog(old(self).image(), index@),
            !acceptable(old(self).index(), index@) ==> r == Err::<(), StoreError>(
                StoreError::InvariantViolation,
            ) && final(self).index() == old(self).index() && final(self).image() == old(self).image(),
    {
        if index.current_term < self.raft_index.current_term || !check_logs(&index.logs)
            || !check_addrs(&index.node_addrs) {
            return Err(StoreError::InvariantViolation);
        }
        let record = encode_catalog(&index);
        if record.len() > MAX_RECORD_LEN as usize {
            return Err(StoreError::InvariantViolation);
        }
        let mut image = slice_to_vec(slice_subrange(self.image.as_slice(), 0, APPLIED_LEN));
        put_record(&mut image, record.as_slice());
        proof {
            reveal(with_catalog);
            let head = self.image@.take(APPLIED_LEN as int);
            assert(self.image@.subrange(0, APPLIED_LEN as int) =~= head);
            lemma_frame_roundtrip(head, catalog_bytes(index@), Seq::empty());
            assert(image@ =~= head + frame(catalog_bytes(index@)) + Seq::<u8>::empty());
            assert(image@.subrange(0, APPLIED_LEN as int) =~= head);
            lemma_catalog_roundtrip(index@);
        }
        self.image = image;
        self.raft_index = index;
        Ok(())
    }
}

proof fn lemma_fresh_catalog_len()
    ensures
        catalog_bytes(fresh_catalog()).len() <= MAX_RECORD_LEN,
{
    let c = fresh_catalog();
    let fs = crate::catalog::catalog_fields(c);
    let seg = crate::codec::log_range_bytes(c.logs[0]);
    let sf = crate::codec::log_range_fields(c.logs[0]);
    crate::wire::lemma_varint_len(0);
    crate::wire::lemma_varint_len(8);
    crate::wire::lemma_varint_len(16);
    crate::wire::lemma_varint_len(24);
    crate::wire::lemma_varint_len(32);
    crate::wire::lemma_varint_len(40);
    crate::wire::lemma_varint_len(48);
    crate::wire::lemma_varint_len(26);
    crate::wire::lemma_varint_len(34);
    crate::wire::lemma_varint_len(50);
    assert(seg.len() <= 200) by {
        reveal_with_fuel(crate::wire::message_bytes, 8);
        assert(sf.len() == 6);
    }
    crate::wire::lemma_varint_len(seg.len() as u64);
    assert(crate::wire::varints(Seq::<u64>::empty()).len() == 0);
    assert(fs.len() == 5);
    assert(catalog_bytes(c).len() <= 1000) by {
        reveal_with_fuel(crate::wire::message_bytes, 8);
    }
}

} // verus!
