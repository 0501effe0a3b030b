//! Records in a file: each is a length of four big-endian bytes and then
//! that many bytes. A reader walks the records from a position; a record
//! that the file ends inside reads as the end of the file, so that what was
//! written before a torn append stays readable.

use crate::endian::{get_u32_be, lemma_u32_be_roundtrip, put_u32_be, u32_be, u32_from_be};
use crate::error::StoreError;
use crate::wire::append_bytes;
use vstd::prelude::*;
use vstd::slice::{slice_subrange, slice_to_vec};

verus! {

/// Number of bytes of the length that precedes a record.
pub const HEADER_LEN: usize = 4;

/// The longest record that can be written: a length above this is not the
/// length of a record.
pub const MAX_RECORD_LEN: u32 = 0x7fff_ffff;

/// What a read at a position finds.
#[derive(Debug)]
pub enum ReadOutcome {
    /// A whole record.
    Record(Vec<u8>),
    /// The file ends before the length is complete, or before the record is.
    Eof,
    /// The length is complete and is longer than any record.
    CorruptHeader,
    /// The position lies beyond the end of the file.
    CorruptBody,
}

/// The mathematical value of a `ReadOutcome`.
pub enum OutcomeView {
    Record(Seq<u8>),
    Eof,
    CorruptHeader,
    CorruptBody,
}

impl View for ReadOutcome {
    type V = OutcomeView;

    open spec fn view(&self) -> OutcomeView {
        match self {
            ReadOutcome::Record(b) => OutcomeView::Record(b@),
            ReadOutcome::Eof => OutcomeView::Eof,
            ReadOutcome::CorruptHeader => OutcomeView::CorruptHeader,
            ReadOutcome::CorruptBody => OutcomeView::CorruptBody,
        }
    }
}

/// A record as it stands in a file: its length, then its bytes.
pub open spec fn frame(payload: Seq<u8>) -> Seq<u8>
    recommends
        payload.len() <= MAX_RECORD_LEN,
{
    u32_be(payload.len() as u32) + payload
}

/// What a read of `data` at `pos` finds.
pub open spec fn record_at(data: Seq<u8>, pos: int) -> OutcomeView {
    if pos < 0 || pos > data.len() {
        OutcomeView::CorruptBody
    } else if data.len() - pos < HEADER_LEN {
        OutcomeView::Eof
    } else {
        let len = u32_from_be(data.subrange(pos, pos + HEADER_LEN));
        if len > MAX_RECORD_LEN {
            OutcomeView::CorruptHeader
        } else if data.len() - pos - HEADER_LEN < len {
            OutcomeView::Eof
        } else {
            OutcomeView::Record(data.subrange(pos + HEADER_LEN, pos + HEADER_LEN + len))
        }
    }
}

/// A record that was written is read back whole, whatever stands before and
/// behind it.
pub proof fn lemma_frame_roundtrip(before: Seq<u8>, payload: Seq<u8>, after: Seq<u8>)
    requires
        payload.len() <= MAX_RECORD_LEN,
    ensures
        frame(payload).len() == HEADER_LEN + payload.len(),
        record_at(before + frame(payload) + after, before.len() as int) == OutcomeView::Record(
            payload,
        ),
{
    let len = payload.len() as u32;
    let data = before + frame(payload) + after;
    let pos = before.len() as int;
    lemma_u32_be_roundtrip(len, Seq::empty());
    assert(data.subrange(pos, pos + HEADER_LEN) =~= u32_be(len));
    assert(data.subrange(pos + HEADER_LEN, pos + HEADER_LEN + len) =~= payload);
}

/// A record of which only a part was written reads as the end of the file:
/// a torn append is never taken for a record.
pub proof fn lemma_torn_frame_is_eof(before: Seq<u8>, payload: Seq<u8>, written: int)
    requires
        payload.len() <= MAX_RECORD_LEN,
        0 <= written < frame(payload).len(),
    ensures
        record_at(before + frame(payload).take(written), before.len() as int) == OutcomeView::Eof,
{
    let len = payload.len() as u32;
    let part = frame(payload).take(written);
    let data = before + part;
    let pos = before.len() as int;
    lemma_u32_be_roundtrip(len, Seq::empty());
    if written >= HEADER_LEN {
        assert(data.subrange(pos, pos + HEADER_LEN) =~= u32_be(len));
    }
}

/// Reads the record of `data` that starts at `pos`.
pub fn read_record(data: &[u8], pos: usize) -> (r: ReadOutcome)
    ensures
        r@ == record_at(data@, pos as int),
{
    let n: usize = data.len();
    if pos > n {
        return ReadOutcome::CorruptBody;
    }
    if n - pos < HEADER_LEN {
        return ReadOutcome::Eof;
    }
    let len: u32 = get_u32_be(data, pos);
    if len > MAX_RECORD_LEN {
        return ReadOutcome::CorruptHeader;
    }
    if n - pos - HEADER_LEN < len as usize {
        return ReadOutcome::Eof;
    }
    let start: usize = pos + HEADER_LEN;
    let payload = slice_to_vec(slice_subrange(data, start, start + len as usize));
    ReadOutcome::Record(payload)
}

/// Appends `payload`, which is no longer than a record can be, to `buf` as
/// a record.
pub fn put_record(buf: &mut Vec<u8>, payload: &[u8])
    requires
        payload@.len() <= MAX_RECORD_LEN,
    ensures
        final(buf)@ == old(buf)@ + frame(payload@),
{
    put_u32_be(buf, payload.len() as u32);
    append_bytes(buf, payload);
    assert(buf@ =~= old(buf)@ + frame(payload@));
}

/// Appends `payload` to `buf` as a record. A payload that is longer than a
/// record can be is refused, and `buf` stays as it was.
pub fn write_record(buf: &mut Vec<u8>, payload: &[u8]) -> (r: Result<(), StoreError>)
    ensures
        payload@.len() <= MAX_RECORD_LEN ==> r.is_ok() && final(buf)@ == old(buf)@ + frame(
            payload@,
        ),
        payload@.len() > MAX_RECORD_LEN ==> r == Err::<(), StoreError>(
            StoreError::InvariantViolation,
        ) && final(buf)@ == old(buf)@,
{
    if payload.len() > MAX_RECORD_LEN as usize {
        return Err(StoreError::InvariantViolation);
    }
    put_record(buf, payload);
    Ok(())
}

/// Walks the records of a file from a position.
pub struct FileMessageReader {
    data: Vec<u8>,
    pos: usize,
}

impl FileMessageReader {
    /// The bytes that the reader walks.
    pub closed spec fn data(&self) -> Seq<u8> {
        self.data@
    }

    /// The position of the next read.
    pub closed spec fn position(&self) -> int {
        self.pos as int
    }

    /// A reader of `data` that starts at `offset`.
    pub fn new(data: Vec<u8>, offset: usize) -> (r: FileMessageReader)
        ensures
            r.data() == data@,
            r.position() == offset,
    {
        FileMessageReader { data, pos: offset }
    }

    /// The position of the next read.
    pub fn offset(&self) -> (p: usize)
        ensures
            p == self.position(),
    {
        self.pos
    }

    /// Reads the record at the position and, where there is one, moves
    /// behind it. Any other outcome leaves the position where it is.
    pub fn read_next(&mut self) -> (r: ReadOutcome)
        ensures
            r@ == record_at(old(self).data(), old(self).position()),
            final(self).data() == old(self).data(),
            final(self).position() == match r@ {
                OutcomeView::Record(b) => old(self).position() + HEADER_LEN + b.len(),
                _ => old(self).position(),
            },
    {
        let n: usize = self.data.len();
        let r = read_record(self.data.as_slice(), self.pos);
        match &r {
            ReadOutcome::Record(b) => {
                assert(self.pos + HEADER_LEN + b@.len() <= n);
                self.pos = self.pos + HEADER_LEN + b.len();
            },
            _ => {},
        }
        r
    }
}

/// Collects records until they are handed to the file.
pub struct FileMessageWriter {
    pending: Vec<u8>,
}

impl FileMessageWriter {
    /// The bytes that were written and not yet flushed.
    pub closed spec fn pending(&self) -> Seq<u8> {
        self.pending@
    }

    /// A writer with nothing pending.
    pub fn new() -> (w: FileMessageWriter)
        ensures
            w.pending() == Seq::<u8>::empty(),
    {
        FileMessageWriter { pending: Vec::new() }
    }

    /// Adds `payload` as a record behind what is pending. A payload that is
    /// longer than a record can be is refused.
    pub fn write(&mut self, payload: &[u8]) -> (r: Result<(), StoreError>)
        ensures
            payload@.len() <= MAX_RECORD_LEN ==> r.is_ok() && final(self).pending() == old(self).pending() + frame(payload@),
            payload@.len() > MAX_RECORD_LEN ==> r == Err::<(), StoreError>(
                StoreError::InvariantViolation,
            ) && final(self).pending() == old(self).pending(),
    {
        write_record(&mut self.pending, payload)
    }

    /// Hands out what is pending, to be appended to the file, and starts
    /// anew.
    pub fn flush(&mut self) -> (bytes: Vec<u8>)
        ensures
            bytes@ == old(self).pending(),
            final(self).pending() == Seq::<u8>::empty(),
    {
        let mut out: Vec<u8> = Vec::new();
        std::mem::swap(&mut out, &mut self.pending);
        out
    }
}

} // verus!
