//! The snapshots of the state machine: one file of bytes for each, named
//! by its identifier. What the bytes mean is not the business of this
//! store. A snapshot is written chunk by chunk through an install and
//! becomes readable when the install is finalized; the catalog lists it
//! once its range has been saved there.

use crate::error::StoreError;
use crate::model::SnapshotRange;
use crate::wire::append_bytes;
use vstd::prelude::*;
use vstd::slice::slice_to_vec;

verus! {

/// The position of `id` in the list: the first, or the length of the list
/// when it is not there.
pub open spec fn id_index(ids: Seq<u64>, id: u64) -> int
    decreases ids.len(),
{
    if ids.len() == 0 {
        0
    } else if ids[0] == id {
        0
    } else {
        1 + id_index(ids.skip(1), id)
    }
}

/// No identifier stands twice in the list.
pub open spec fn ids_distinct(ids: Seq<u64>) -> bool {
    forall|i: int, j: int| 0 <= i < j < ids.len() ==> ids[i] != ids[j]
}

/// Where `id_index` points: inside the list at the first place of `id`,
/// or behind a list that does not have it.
pub proof fn lemma_id_index(ids: Seq<u64>, id: u64)
    ensures
        0 <= id_index(ids, id) <= ids.len(),
        forall|k: int| 0 <= k < id_index(ids, id) ==> ids[k] != id,
        id_index(ids, id) < ids.len() ==> ids[id_index(ids, id)] == id,
    decreases ids.len(),
{
    if ids.len() != 0 && ids[0] != id {
        let tail = ids.skip(1);
        lemma_id_index(tail, id);
        assert forall|k: int| 0 <= k < id_index(ids, id) implies ids[k] != id by {
            if k > 0 {
                assert(ids[k] == tail[k - 1]);
            }
        }
    }
}

/// The position is the only one that is behind no place of `id` and at
/// one, or at the end.
pub proof fn lemma_id_index_is(ids: Seq<u64>, id: u64, i: int)
    requires
        0 <= i <= ids.len(),
        forall|k: int| 0 <= k < i ==> ids[k] != id,
        i < ids.len() ==> ids[i] == id,
    ensures
        id_index(ids, id) == i,
{
    lemma_id_index(ids, id);
}

/// A snapshot that is being written.
pub struct SnapshotInstall {
    range: SnapshotRange,
    bytes: Vec<u8>,
}

impl SnapshotInstall {
    /// What the catalog will say of the snapshot.
    pub closed spec fn range(&self) -> SnapshotRange {
        self.range
    }

    /// The bytes that were written so far.
    pub closed spec fn written(&self) -> Seq<u8> {
        self.bytes@
    }

    /// Writes the next chunk behind what was written.
    pub fn write_chunk(&mut self, chunk: &[u8])
        ensures
            final(self).range() == old(self).range(),
            final(self).written() == old(self).written() + chunk@,
    {
        append_bytes(&mut self.bytes, chunk);
    }

    /// What the catalog will say of the snapshot.
    pub fn meta(&self) -> (r: SnapshotRange)
        ensures
            r == self.range(),
    {
        self.range
    }
}

/// The snapshots that were finalized, each with its bytes.
pub struct SnapshotStore {
    ids: Vec<u64>,
    contents: Vec<Vec<u8>>,
}

impl View for SnapshotStore {
    type V = Map<u64, Seq<u8>>;

    closed spec fn view(&self) -> Map<u64, Seq<u8>> {
        Map::new(
            |id: u64| id_index(self.ids@, id) < self.ids@.len(),
            |id: u64| self.contents@[id_index(self.ids@, id)]@,
        )
    }
}

impl SnapshotStore {
    /// Each snapshot has one identifier and one run of bytes.
    pub closed spec fn inv(&self) -> bool {
        self.ids@.len() == self.contents@.len() && ids_distinct(self.ids@)
    }

    /// A store without snapshots.
    pub fn new() -> (s: SnapshotStore)
        ensures
            s.inv(),
            s@ == Map::<u64, Seq<u8>>::empty(),
    {
        let s = SnapshotStore { ids: Vec::new(), contents: Vec::new() };
        assert(s@ =~= Map::<u64, Seq<u8>>::empty());
        s
    }

    fn find(&self, id: u64) -> (i: usize)
        requires
            self.inv(),
        ensures
            i == id_index(self.ids@, id),
            i <= self.ids@.len(),
            i < self.ids@.len() <==> self@.dom().contains(id),
    {
        let n: usize = self.ids.len();
        let mut i: usize = 0;
        while i < n && self.ids[i] != id
            invariant
                i <= n == self.ids@.len(),
                forall|k: int| 0 <= k < i ==> self.ids@[k] != id,
            decreases n - i,
        {
            i = i + 1;
        }
        proof {
            lemma_id_index_is(self.ids@, id, i as int);
        }
        i
    }

    /// Whether a snapshot with this identifier was finalized.
    pub fn contains(&self, id: u64) -> (b: bool)
        requires
            self.inv(),
        ensures
            b == self@.dom().contains(id),
    {
        self.find(id) < self.ids.len()
    }

    /// Begins to write the snapshot `id`. An identifier that a finalized
    /// snapshot has is refused.
    pub fn begin_install(
        &self,
        id: u64,
        last_included_index: u64,
        last_included_term: u64,
    ) -> (r: Result<SnapshotInstall, StoreError>)
        requires
            self.inv(),
        ensures
            match r {
                Ok(h) => !self@.dom().contains(id) && h.written() == Seq::<u8>::empty() && h.range()
                    == (SnapshotRange { id, last_included_index, last_included_term }),
                Err(e) => self@.dom().contains(id) && e == StoreError::InvariantViolation,
            },
    {
        if self.contains(id) {
            return Err(StoreError::InvariantViolation);
        }
        Ok(
            SnapshotInstall {
                range: SnapshotRange { id, last_included_index, last_included_term },
                bytes: Vec::new(),
            },
        )
    }

    /// Ends an install: the snapshot is stored with the bytes that were
    /// written, and its range is handed out for the catalog. An identifier
    /// that a finalized snapshot has is refused, and nothing changes.
    pub fn finalize(&mut self, install: SnapshotInstall) -> (r: Result<SnapshotRange, StoreError>)
        requires
            old(self).inv(),
        ensures
            final(self).inv(),
            match r {
                Ok(range) => !old(self)@.dom().contains(install.range().id) && range
                    == install.range() && final(self)@ == old(self)@.insert(
                    install.range().id,
                    install.written(),
                ),
                Err(e) => old(self)@.dom().contains(install.range().id) && e
                    == StoreError::InvariantViolation && final(self)@ == old(self)@,
            },
    {
        let id: u64 = install.range.id;
        let i = self.find(id);
        if i < self.ids.len() {
            return Err(StoreError::InvariantViolation);
        }
        let ghost ids0 = self.ids@;
        let ghost contents0 = self.contents@;
        let ghost before = self@;
        let range = install.range;
        self.ids.push(id);
        self.contents.push(install.bytes);
        proof {
            lemma_id_index(ids0, id);
            assert forall|a: int, b: int| 0 <= a < b < self.ids@.len() implies self.ids@[a]
                != self.ids@[b] by {
                if b == ids0.len() {
                    assert(ids0[a] != id);
                }
            }
            let after = before.insert(id, install.written());
            assert forall|k: u64| #[trigger] self@.dom().contains(k) == after.dom().contains(k) by {
                lemma_id_index(ids0, k);
                let p = id_index(ids0, k);
                if k == id {
                    lemma_id_index_is(self.ids@, k, ids0.len() as int);
                } else {
                    lemma_id_index_is(self.ids@, k, if p < ids0.len() {
                        p
                    } else {
                        self.ids@.len() as int
                    });
                }
            }
            assert forall|k: u64| self@.dom().contains(k) implies #[trigger] self@[k]
                == after[k] by {
                lemma_id_index(ids0, k);
                let p = id_index(ids0, k);
                if k == id {
                    lemma_id_index_is(self.ids@, k, ids0.len() as int);
                } else {
                    lemma_id_index_is(self.ids@, k, if p < ids0.len() {
                        p
                    } else {
                        self.ids@.len() as int
                    });
                    assert(self.contents@[p] == contents0[p]);
                }
            }
            assert(self@ =~= before.insert(id, install.written()));
        }
        Ok(range)
    }

    /// The bytes of the snapshot `id`.
    pub fn read(&self, id: u64) -> (r: Result<Vec<u8>, StoreError>)
        requires
            self.inv(),
        ensures
            match r {
                Ok(bytes) => self@.dom().contains(id) && bytes@ == self@[id],
                Err(e) => !self@.dom().contains(id) && e == StoreError::IndexOutOfRange,
            },
    {
        let i = self.find(id);
        if i < self.ids.len() {
            Ok(slice_to_vec(self.contents[i].as_slice()))
        } else {
            Err(StoreError::IndexOutOfRange)
        }
    }

    /// Deletes the snapshot `id`.
    pub fn delete(&mut self, id: u64) -> (r: Result<(), StoreError>)
        requires
            old(self).inv(),
        ensures
            final(self).inv(),
            match r {
                Ok(_) => old(self)@.dom().contains(id) && final(self)@ == old(self)@.remove(id),
                Err(e) => !old(self)@.dom().contains(id) && e == StoreError::IndexOutOfRange
                    && final(self)@ == old(self)@,
            },
    {
        let i = self.find(id);
        if i >= self.ids.len() {
            return Err(StoreError::IndexOutOfRange);
        }
        let ghost ids0 = self.ids@;
        let ghost contents0 = self.contents@;
        let ghost before = self@;
        let gone_id = self.ids.remove(i);
        let gone = self.contents.remove(i);
        proof {
            assert forall|a: int, b: int| 0 <= a < b < self.ids@.len() implies self.ids@[a]
                != self.ids@[b] by {
                let a0 = if a < i {
                    a
                } else {
                    a + 1
                };
                let b0 = if b < i {
                    b
                } else {
                    b + 1
                };
                assert(self.ids@[a] == ids0[a0] && self.ids@[b] == ids0[b0]);
            }
            let after = before.remove(id);
            assert forall|j: int| 0 <= j < self.ids@.len() implies self.ids@[j] == ids0[if j < i {
                j
            } else {
                j + 1
            }] && self.contents@[j] == contents0[if j < i {
                j
            } else {
                j + 1
            }] by {}
            assert forall|k: u64| #[trigger]
                self@.dom().contains(k) == after.dom().contains(k) && (self@.dom().contains(k)
                    ==> self@[k] == after[k]) by {
                lemma_id_index(ids0, k);
                let p = id_index(ids0, k);
                lemma_id_index(ids0, id);
                if k != id && p < ids0.len() {
                    assert(p != i);
                    let q = if p < i {
                        p
                    } else {
                        p - 1
                    };
                    assert(self.ids@[q] == ids0[p]);
                    assert(self.contents@[q] == contents0[p]);
                    assert forall|j: int| 0 <= j < q implies self.ids@[j] != k by {
                        assert(self.ids@[j] == ids0[if j < i {
                            j
                        } else {
                            j + 1
                        }]);
                    }
                    lemma_id_index_is(self.ids@, k, q);
                } else {
                    assert forall|j: int| 0 <= j < self.ids@.len() implies self.ids@[j] != k by {
                        assert(self.ids@[j] == ids0[if j < i {
                            j
                        } else {
                            j + 1
                        }]);
                    }
                    lemma_id_index_is(self.ids@, k, self.ids@.len() as int);
                }
            }
            assert forall|k: u64| self@.dom().contains(k) implies #[trigger] self@[k]
                == after[k] by {}
            assert(self@ =~= before.remove(id));
        }
        Ok(())
    }
}

} // verus!
