//! One segment of the log: a file of entries with consecutive indices. The
//! file starts with the identifier of the segment, the index of its first
//! entry and the term of the entry before that, each as eight big-endian
//! bytes; the entries follow as records. The store keeps the bytes of the
//! file and, for each entry, where its record starts.

use crate::codec::{
    decode_entry, encode_entry, entry_bytes, entry_decode, entry_fits, lemma_entry_roundtrip,
};
use crate::endian::{get_u64_be, lemma_u64_be_roundtrip, put_u64_be, u64_be, u64_from_be};
use crate::error::StoreError;
use crate::framing::{
    frame, lemma_frame_roundtrip, put_record, read_record, record_at, OutcomeView, ReadOutcome,
    HEADER_LEN, MAX_RECORD_LEN,
};
use crate::model::{entry_views, LogEntry, LogEntryView, LogRange};
use vstd::prelude::*;

verus! {

/// Number of bytes at the start of a segment file, before the first record.
pub const SEGMENT_HEADER_LEN: usize = 24;

/// What the start of a segment file says of the segment.
#[derive(Clone, Copy, Debug, PartialEq, Eq, Structural)]
pub struct SegmentHeader {
    /// Identifier of the segment.
    pub segment_id: u64,
    /// Index of the first entry of the segment.
    pub start_index: u64,
    /// Term of the entry just before `start_index`, 0 if there is none.
    pub pre_term: u64,
}

/// The bytes at the start of a segment file.
pub open spec fn header_bytes(h: SegmentHeader) -> Seq<u8> {
    u64_be(h.segment_id) + u64_be(h.start_index) + u64_be(h.pre_term)
}

/// The header that the first bytes of a segment file encode.
pub open spec fn header_of(data: Seq<u8>) -> SegmentHeader
    recommends
        data.len() >= SEGMENT_HEADER_LEN,
{
    SegmentHeader {
        segment_id: u64_from_be(data.subrange(0, 8)),
        start_index: u64_from_be(data.subrange(8, 16)),
        pre_term: u64_from_be(data.subrange(16, 24)),
    }
}

/// Reading a header that was written gives the header back.
pub proof fn lemma_header_roundtrip(h: SegmentHeader, rest: Seq<u8>)
    ensures
        header_bytes(h).len() == SEGMENT_HEADER_LEN,
        header_of(header_bytes(h) + rest) == h,
{
    let data = header_bytes(h) + rest;
    lemma_u64_be_roundtrip(h.segment_id, Seq::empty());
    lemma_u64_be_roundtrip(h.start_index, Seq::empty());
    lemma_u64_be_roundtrip(h.pre_term, Seq::empty());
    assert(data.subrange(0, 8) =~= u64_be(h.segment_id));
    assert(data.subrange(8, 16) =~= u64_be(h.start_index));
    assert(data.subrange(16, 24) =~= u64_be(h.pre_term));
}

/// The entry whose record starts at `pos`, with the position behind the
/// record; `None` where no whole record starts or the record is no entry.
#[verifier::opaque]
pub open spec fn entry_at(data: Seq<u8>, pos: int) -> Option<(LogEntryView, int)> {
    match record_at(data, pos) {
        OutcomeView::Record(p) => match entry_decode(p) {
            Some(e) => Some((e, pos + HEADER_LEN + p.len())),
            None => None,
        },
        _ => None,
    }
}

/// The entries that a segment file holds from `pos` on, with the position
/// where they end. The entries must carry the indices from `next_index`
/// on and terms that do not fall below `prev_term`. The file may end
/// inside a record: what was written of that record is left out. `None`
/// where a record is no entry, an entry has another index or a lower term,
/// or a length is not the length of a record.
#[verifier::opaque]
pub open spec fn scan(data: Seq<u8>, pos: int, next_index: int, prev_term: u64) -> Option<
    (Seq<LogEntryView>, int),
>
    decreases data.len() - pos,
{
    match record_at(data, pos) {
        OutcomeView::Eof => Some((Seq::empty(), pos)),
        OutcomeView::Record(p) => match entry_decode(p) {
            Some(e) => if e.index == next_index && e.term >= prev_term {
                match scan(data, pos + HEADER_LEN + p.len(), next_index + 1, e.term) {
                    Some((es, end)) => Some((seq![e] + es, end)),
                    None => None,
                }
            } else {
                None
            },
            None => None,
        },
        _ => None,
    }
}

/// The entries `first`, then those of `rest` if there are any.
pub open spec fn glue(first: Seq<LogEntryView>, rest: Option<(Seq<LogEntryView>, int)>) -> Option<
    (Seq<LogEntryView>, int),
> {
    match rest {
        Some((es, end)) => Some((first + es, end)),
        None => None,
    }
}

/// What `scan` stands for, one record at a time.
pub proof fn lemma_scan(data: Seq<u8>, pos: int, next_index: int, prev_term: u64)
    ensures
        scan(data, pos, next_index, prev_term) == match record_at(data, pos) {
            OutcomeView::Eof => Some((Seq::<LogEntryView>::empty(), pos)),
            OutcomeView::Record(p) => match entry_decode(p) {
                Some(e) => if e.index == next_index && e.term >= prev_term {
                    glue(seq![e], scan(data, pos + HEADER_LEN + p.len(), next_index + 1, e.term))
                } else {
                    None
                },
                None => None,
            },
            _ => None,
        },
{
    reveal(scan);
}

/// What a segment file holds: nothing yet when it is empty, the entries
/// that follow its header when the header is the expected one, and `None`
/// when the file is corrupt.
pub open spec fn load_segment(data: Seq<u8>, h: SegmentHeader) -> Option<(Seq<LogEntryView>, int)> {
    if data.len() == 0 {
        Some((Seq::empty(), 0))
    } else if data.len() < SEGMENT_HEADER_LEN || data.take(SEGMENT_HEADER_LEN as int)
        != header_bytes(h) {
        None
    } else {
        scan(data, SEGMENT_HEADER_LEN as int, h.start_index as int, h.pre_term)
    }
}

/// The header of the segment that the catalog describes.
pub open spec fn range_header(r: LogRange) -> SegmentHeader {
    SegmentHeader { segment_id: r.id, start_index: r.start_index, pre_term: r.pre_term }
}

/// What the file of a segment holds that the catalog describes. The file
/// must hold no fewer entries than the catalog counts. The file of a
/// sealed segment must hold exactly the entries that the catalog counts
/// and end behind them: no torn record is forgiven there.
pub open spec fn load_described(data: Seq<u8>, r: LogRange) -> Option<(Seq<LogEntryView>, int)> {
    match load_segment(data, range_header(r)) {
        None => None,
        Some((es, end)) => if es.len() < r.record_count || (r.is_close && (es.len()
            != r.record_count || end != data.len())) {
            None
        } else {
            Some((es, end))
        },
    }
}

/// The entry with the given index among entries that start at `start`.
pub open spec fn entry_of(es: Seq<LogEntryView>, start: u64, index: u64) -> Option<LogEntryView> {
    if start <= index < start + es.len() {
        Some(es[index - start])
    } else {
        None
    }
}

/// What `entry_at` stands for.
pub proof fn lemma_entry_at(data: Seq<u8>, pos: int)
    ensures
        entry_at(data, pos) == match record_at(data, pos) {
            OutcomeView::Record(p) => match entry_decode(p) {
                Some(e) => Some((e, pos + HEADER_LEN + p.len())),
                None => None,
            },
            _ => None::<(LogEntryView, int)>,
        },
        entry_at(data, pos) matches Some((e, end)) ==> 0 <= pos && pos + HEADER_LEN <= end
            <= data.len(),
{
    reveal(entry_at);
}

/// A record that lies before a cut stays what it is when the file is cut.
pub proof fn lemma_entry_at_prefix(data: Seq<u8>, pos: int, cut: int)
    requires
        entry_at(data, pos) is Some,
        entry_at(data, pos).unwrap().1 <= cut <= data.len(),
    ensures
        entry_at(data.take(cut), pos) == entry_at(data, pos),
{
    reveal(entry_at);
    let short = data.take(cut);
    let end = entry_at(data, pos).unwrap().1;
    assert(short.subrange(pos, pos + HEADER_LEN) =~= data.subrange(pos, pos + HEADER_LEN));
    assert(short.subrange(pos + HEADER_LEN, end) =~= data.subrange(pos + HEADER_LEN, end));
}

/// A record stays what it is when bytes are added behind the file.
pub proof fn lemma_entry_at_extend(data: Seq<u8>, pos: int, more: Seq<u8>)
    requires
        entry_at(data, pos) is Some,
    ensures
        entry_at(data + more, pos) == entry_at(data, pos),
{
    reveal(entry_at);
    let long = data + more;
    let end = entry_at(data, pos).unwrap().1;
    assert(long.subrange(pos, pos + HEADER_LEN) =~= data.subrange(pos, pos + HEADER_LEN));
    assert(long.subrange(pos + HEADER_LEN, end) =~= data.subrange(pos + HEADER_LEN, end));
}

/// Where the record behind record `i` starts, or the end of the file.
pub open spec fn end_of(data: Seq<u8>, offsets: Seq<usize>, i: int) -> int {
    if i + 1 < offsets.len() {
        offsets[i + 1] as int
    } else {
        data.len() as int
    }
}

/// The term that the entry at position `i` must not fall below.
pub open spec fn floor_of(terms: Seq<u64>, h: SegmentHeader, i: int) -> u64 {
    if i == 0 {
        h.pre_term
    } else {
        terms[i - 1]
    }
}

/// Record `i` is where the offsets say, holds the entry with the index of
/// its position and the term that was noted, and ends where the next
/// begins.
pub open spec fn slot(
    data: Seq<u8>,
    offsets: Seq<usize>,
    terms: Seq<u64>,
    h: SegmentHeader,
    i: int,
) -> bool {
    &&& entry_at(data, offsets[i] as int) matches Some((e, end))
    &&& e.index == h.start_index + i
    &&& e.term == terms[i]
    &&& e.term >= floor_of(terms, h, i)
    &&& end == end_of(data, offsets, i)
}

/// The records follow one another from behind the header to the end of the
/// file, and they hold entries with consecutive indices and terms that do
/// not fall.
pub open spec fn chain(data: Seq<u8>, offsets: Seq<usize>, terms: Seq<u64>, h: SegmentHeader) -> bool {
    &&& data.len() >= SEGMENT_HEADER_LEN
    &&& offsets.len() == terms.len()
    &&& offsets.len() == 0 ==> data.len() == SEGMENT_HEADER_LEN
    &&& offsets.len() > 0 ==> offsets[0] == SEGMENT_HEADER_LEN
    &&& forall|i: int| 0 <= i < offsets.len() ==> #[trigger] slot(data, offsets, terms, h, i)
}

/// The entries whose records start at the offsets.
pub open spec fn entries_of(data: Seq<u8>, offsets: Seq<usize>) -> Seq<LogEntryView> {
    Seq::new(offsets.len(), |i: int| entry_at(data, offsets[i] as int).unwrap().0)
}

/// The term that the next entry must not fall below: the term of the last
/// entry, or the term before the segment when it has none.
pub open spec fn last_term(es: Seq<LogEntryView>, h: SegmentHeader) -> u64 {
    if es.len() == 0 {
        h.pre_term
    } else {
        es.last().term
    }
}

/// Why an entry cannot be appended, if it cannot: its index must follow
/// the last entry, the segment must be open, its term must not fall, and
/// its bytes must fit in a record.
pub open spec fn append_refusal(
    es: Seq<LogEntryView>,
    h: SegmentHeader,
    sealed: bool,
    e: LogEntryView,
) -> Option<StoreError> {
    if e.index != h.start_index + es.len() {
        Some(StoreError::IndexGap)
    } else if sealed || e.term < last_term(es, h) || entry_bytes(e).len() > MAX_RECORD_LEN {
        Some(StoreError::InvariantViolation)
    } else {
        None
    }
}

/// The entries with indices from `lo` to `hi`, both included, among
/// entries that start at `start`: what of that range the entries cover.
pub open spec fn range_of(es: Seq<LogEntryView>, start: u64, lo: u64, hi: u64) -> Seq<
    LogEntryView,
> {
    let a = if lo <= start {
        0int
    } else if lo - start >= es.len() {
        es.len() as int
    } else {
        lo - start
    };
    let b = if hi < start {
        0int
    } else if hi - start >= es.len() {
        es.len() as int
    } else {
        hi - start + 1
    };
    if a <= b {
        es.subrange(a, b)
    } else {
        Seq::empty()
    }
}

proof fn lemma_offsets_order(
    data: Seq<u8>,
    offsets: Seq<usize>,
    terms: Seq<u64>,
    h: SegmentHeader,
    i: int,
    j: int,
)
    requires
        chain(data, offsets, terms, h),
        0 <= i <= j < offsets.len(),
    ensures
        SEGMENT_HEADER_LEN <= offsets[i] <= offsets[j],
        end_of(data, offsets, j) <= data.len(),
        i < j ==> end_of(data, offsets, i) <= offsets[j],
    decreases j,
{
    assert(slot(data, offsets, terms, h, j));
    lemma_entry_at(data, offsets[j] as int);
    if j > 0 {
        assert(slot(data, offsets, terms, h, j - 1));
        lemma_entry_at(data, offsets[j - 1] as int);
        if i < j {
            lemma_offsets_order(data, offsets, terms, h, i, j - 1);
        } else {
            lemma_offsets_order(data, offsets, terms, h, 0, j - 1);
        }
    }
}

proof fn lemma_scan_chain(
    data: Seq<u8>,
    offsets: Seq<usize>,
    terms: Seq<u64>,
    h: SegmentHeader,
    k: int,
)
    requires
        chain(data, offsets, terms, h),
        0 <= k <= offsets.len(),
    ensures
        scan(
            data,
            if k < offsets.len() {
                offsets[k] as int
            } else {
                data.len() as int
            },
            h.start_index + k,
            floor_of(terms, h, k),
        ) == Some((entries_of(data, offsets).skip(k), data.len() as int)),
    decreases offsets.len() - k,
{
    let es = entries_of(data, offsets);
    if k < offsets.len() {
        assert(slot(data, offsets, terms, h, k));
        lemma_entry_at(data, offsets[k] as int);
        lemma_scan(data, offsets[k] as int, h.start_index + k, floor_of(terms, h, k));
        lemma_scan_chain(data, offsets, terms, h, k + 1);
        assert(seq![es[k]] + es.skip(k + 1) =~= es.skip(k));
    } else {
        lemma_scan(data, data.len() as int, h.start_index + k, floor_of(terms, h, k));
        assert(es.skip(k) =~= Seq::<LogEntryView>::empty());
    }
}

/// A chain stays a chain when the record of one more entry is added
/// behind it, and its entries are those before and the new one.
proof fn lemma_chain_extend(
    data: Seq<u8>,
    offsets: Seq<usize>,
    terms: Seq<u64>,
    h: SegmentHeader,
    more: Seq<u8>,
    e: LogEntryView,
)
    requires
        chain(data, offsets, terms, h),
        data.len() + more.len() <= usize::MAX,
        entry_at(data + more, data.len() as int) == Some((e, (data + more).len() as int)),
        e.index == h.start_index + offsets.len(),
        e.term >= floor_of(terms, h, offsets.len() as int),
    ensures
        chain(data + more, offsets.push(data.len() as usize), terms.push(e.term), h),
        entries_of(data + more, offsets.push(data.len() as usize)) == entries_of(
            data,
            offsets,
        ).push(e),
{
    let n = offsets.len() as int;
    let data1 = data + more;
    let offsets1 = offsets.push(data.len() as usize);
    let terms1 = terms.push(e.term);
    assert forall|i: int| 0 <= i < n implies entry_at(data1, offsets1[i] as int) == entry_at(
        data,
        offsets[i] as int,
    ) by {
        assert(slot(data, offsets, terms, h, i));
        lemma_entry_at_extend(data, offsets[i] as int, more);
    }
    assert forall|i: int| 0 <= i < offsets1.len() implies #[trigger] slot(
        data1,
        offsets1,
        terms1,
        h,
        i,
    ) by {
        if i < n {
            assert(slot(data, offsets, terms, h, i));
        }
    }
    assert(entries_of(data1, offsets1) =~= entries_of(data, offsets).push(e));
}

/// One step of opening a file: the record at `pos` holds the entry that
/// may follow, so the chain reaches to the end of that record, and what
/// the file holds from `pos` on is that entry and what it holds behind.
proof fn lemma_open_step(
    data: Seq<u8>,
    pos: int,
    offsets: Seq<usize>,
    terms: Seq<u64>,
    h: SegmentHeader,
    e: LogEntryView,
    next: int,
)
    requires
        SEGMENT_HEADER_LEN <= pos <= data.len() <= usize::MAX,
        chain(data.take(pos), offsets, terms, h),
        entry_at(data, pos) == Some((e, next)),
        e.index == h.start_index + offsets.len(),
        e.term >= floor_of(terms, h, offsets.len() as int),
    ensures
        pos < next <= data.len(),
        chain(data.take(next), offsets.push(pos as usize), terms.push(e.term), h),
        entries_of(data.take(next), offsets.push(pos as usize)) == entries_of(
            data.take(pos),
            offsets,
        ).push(e),
        scan(data, pos, h.start_index + offsets.len(), floor_of(terms, h, offsets.len() as int))
            == glue(seq![e], scan(data, next, h.start_index + offsets.len() + 1, e.term)),
{
    let short = data.take(pos);
    let long = data.take(next);
    let more = data.subrange(pos, next);
    lemma_entry_at(data, pos);
    lemma_scan(data, pos, h.start_index + offsets.len(), floor_of(terms, h, offsets.len() as int));
    assert(long =~= short + more);
    lemma_entry_at_prefix(data, pos, next);
    lemma_chain_extend(short, offsets, terms, h, more, e);
}

/// Where opening a file stops: no entry that may follow stands at `pos`.
proof fn lemma_open_stop(data: Seq<u8>, pos: int, next_index: int, prev_term: u64)
    ensures
        record_at(data, pos) is Eof ==> scan(data, pos, next_index, prev_term) == Some(
            (Seq::<LogEntryView>::empty(), pos),
        ),
        record_at(data, pos) is CorruptHeader || record_at(data, pos) is CorruptBody ==> scan(
            data,
            pos,
            next_index,
            prev_term,
        ) is None,
        record_at(data, pos) matches OutcomeView::Record(p) ==> (match entry_decode(p) {
            Some(e) => e.index != next_index || e.term < prev_term,
            None => true,
        }) ==> scan(data, pos, next_index, prev_term) is None,
{
    lemma_scan(data, pos, next_index, prev_term);
}

/// A chain stays a chain when an entry that may follow is written behind
/// it, and its entries are those before and the new one.
proof fn lemma_chain_append(
    data: Seq<u8>,
    offsets: Seq<usize>,
    terms: Seq<u64>,
    h: SegmentHeader,
    e: LogEntryView,
)
    requires
        chain(data, offsets, terms, h),
        entry_fits(e),
        entry_bytes(e).len() <= MAX_RECORD_LEN,
        data.len() + frame(entry_bytes(e)).len() <= usize::MAX,
        e.index == h.start_index + offsets.len(),
        e.term >= floor_of(terms, h, offsets.len() as int),
    ensures
        chain(
            data + frame(entry_bytes(e)),
            offsets.push(data.len() as usize),
            terms.push(e.term),
            h,
        ),
        entries_of(data + frame(entry_bytes(e)), offsets.push(data.len() as usize)) == entries_of(
            data,
            offsets,
        ).push(e),
{
    let more = frame(entry_bytes(e));
    lemma_frame_roundtrip(data, entry_bytes(e), Seq::empty());
    assert(data + more =~= data + more + Seq::<u8>::empty());
    lemma_entry_roundtrip(e);
    lemma_entry_at(data + more, data.len() as int);
    lemma_chain_extend(data, offsets, terms, h, more, e);
}

/// The term that the next entry must not fall below is the term that was
/// noted for the last.
proof fn lemma_last_term(data: Seq<u8>, offsets: Seq<usize>, terms: Seq<u64>, h: SegmentHeader)
    requires
        chain(data, offsets, terms, h),
    ensures
        last_term(entries_of(data, offsets), h) == floor_of(terms, h, offsets.len() as int),
{
    let n = offsets.len() as int;
    if n > 0 {
        assert(slot(data, offsets, terms, h, n - 1));
    }
}

/// A chain stays a chain when the file is cut where record `k` starts, and
/// its entries are the first `k` of those before.
proof fn lemma_chain_truncate(
    data: Seq<u8>,
    offsets: Seq<usize>,
    terms: Seq<u64>,
    h: SegmentHeader,
    k: int,
)
    requires
        chain(data, offsets, terms, h),
        0 <= k < offsets.len(),
    ensures
        SEGMENT_HEADER_LEN <= offsets[k] <= data.len(),
        chain(data.take(offsets[k] as int), offsets.take(k), terms.take(k), h),
        entries_of(data.take(offsets[k] as int), offsets.take(k)) == entries_of(
            data,
            offsets,
        ).take(k),
{
    let cut = offsets[k] as int;
    let data1 = data.take(cut);
    let offsets1 = offsets.take(k);
    let terms1 = terms.take(k);
    lemma_offsets_order(data, offsets, terms, h, 0, k);
    lemma_offsets_order(data, offsets, terms, h, k, k);
    assert(slot(data, offsets, terms, h, k));
    lemma_entry_at(data, cut);
    assert(SEGMENT_HEADER_LEN <= cut <= data.len());
    assert forall|i: int| 0 <= i < k implies entry_at(data1, offsets1[i] as int) == entry_at(
        data,
        offsets[i] as int,
    ) && end_of(data, offsets, i) <= cut by {
        assert(slot(data, offsets, terms, h, i));
        lemma_offsets_order(data, offsets, terms, h, i, k);
        lemma_entry_at_prefix(data, offsets[i] as int, cut);
    }
    assert forall|i: int| 0 <= i < offsets1.len() implies #[trigger] slot(
        data1,
        offsets1,
        terms1,
        h,
        i,
    ) by {
        assert(slot(data, offsets, terms, h, i));
        if i + 1 == k {
            assert(end_of(data, offsets, i) == cut);
        }
    }
    assert(entries_of(data1, offsets1) =~= entries_of(data, offsets).take(k));
}

/// Whether two runs of bytes are the same.
pub fn same_bytes(a: &[u8], b: &[u8]) -> (r: bool)
    ensures
        r == (a@ == b@),
{
    let n: usize = a.len();
    if n != b.len() {
        return false;
    }
    let mut i: usize = 0;
    while i < n
        invariant
            i <= n == a@.len() == b@.len(),
            forall|k: int| 0 <= k < i ==> a@[k] == b@[k],
        decreases n - i,
    {
        if a[i] != b[i] {
            return false;
        }
        i = i + 1;
    }
    assert(a@ =~= b@);
    true
}

/// The header at the start of a segment file, or `None` when the file is
/// shorter than a header.
pub fn read_header(data: &[u8]) -> (r: Option<SegmentHeader>)
    ensures
        data@.len() < SEGMENT_HEADER_LEN ==> r.is_none(),
        data@.len() >= SEGMENT_HEADER_LEN ==> r == Some(header_of(data@)),
{
    if data.len() < SEGMENT_HEADER_LEN {
        return None;
    }
    Some(
        SegmentHeader {
            segment_id: get_u64_be(data, 0),
            start_index: get_u64_be(data, 8),
            pre_term: get_u64_be(data, 16),
        },
    )
}

/// The store of one segment.
pub struct LogSegmentStore {
    header: SegmentHeader,
    data: Vec<u8>,
    offsets: Vec<usize>,
    terms: Vec<u64>,
    sealed: bool,
    synced: usize,
}

/// What a sync asks of the caller: cut the file to `keep` bytes, append
/// `bytes`, and flush.
#[derive(Debug)]
pub struct SegmentWrite {
    pub keep: usize,
    pub bytes: Vec<u8>,
}

/// A file that agrees with the store on its first `keep` bytes holds, cut
/// to `keep` and with the bytes behind `keep` appended, the bytes of the
/// store.
pub proof fn lemma_sync_file(file: Seq<u8>, image: Seq<u8>, keep: int)
    requires
        0 <= keep <= image.len(),
        keep <= file.len(),
        file.take(keep) == image.take(keep),
    ensures
        file.take(keep) + image.skip(keep) == image,
{
    assert(image.take(keep) + image.skip(keep) =~= image);
}

impl View for LogSegmentStore {
    type V = Seq<LogEntryView>;

    closed spec fn view(&self) -> Seq<LogEntryView> {
        entries_of(self.data@, self.offsets@)
    }
}

impl LogSegmentStore {
    /// What the start of the file says of the segment.
    pub closed spec fn header(&self) -> SegmentHeader {
        self.header
    }

    /// The bytes of the file.
    pub closed spec fn bytes(&self) -> Seq<u8> {
        self.data@
    }

    /// The segment takes no more entries.
    pub closed spec fn sealed(&self) -> bool {
        self.sealed
    }

    /// The number of leading bytes on which the file is known to agree
    /// with the store: what the last sync wrote, as far as no truncation
    /// has cut it since.
    pub closed spec fn synced_len(&self) -> int {
        self.synced as int
    }

    /// The store agrees with its file: the file starts with the header,
    /// the records follow one another from there to the end of the file,
    /// and they hold entries with consecutive indices and terms that do not
    /// fall.
    pub closed spec fn inv(&self) -> bool {
        &&& self.data@.len() >= SEGMENT_HEADER_LEN
        &&& self.data@.take(SEGMENT_HEADER_LEN as int) == header_bytes(self.header)
        &&& chain(self.data@, self.offsets@, self.terms@, self.header)
        &&& self.synced <= self.data@.len()
    }

    /// What the invariant says of the entries: they carry the consecutive
    /// indices from the start of the segment on, and their terms do not
    /// fall, beginning at the term before the segment.
    pub proof fn lemma_entries(&self)
        requires
            self.inv(),
        ensures
            self.header().start_index + self@.len() <= u64::MAX + 1,
            forall|i: int|
                0 <= i < self@.len() ==> (#[trigger] self@[i]).index == self.header().start_index
                    + i,
            forall|i: int|
                0 <= i < self@.len() ==> (#[trigger] self@[i]).term >= self.header().pre_term,
            forall|i: int, j: int|
                0 <= i <= j < self@.len() ==> (#[trigger] self@[i]).term <= (
                #[trigger] self@[j]).term,
    {
        let n = self@.len() as int;
        assert forall|i: int| 0 <= i < n implies (#[trigger] self@[i]).index
            == self.header.start_index + i by {
            assert(slot(self.data@, self.offsets@, self.terms@, self.header, i));
        }
        if n > 0 {
            assert(slot(self.data@, self.offsets@, self.terms@, self.header, n - 1));
        }
        assert forall|j: int| 0 <= j < n implies self.header.pre_term <= (#[trigger] self@[j]).term
            && (forall|i: int| 0 <= i <= j ==> (#[trigger] self@[i]).term <= self@[j].term) by {
            self.lemma_terms_upto(j);
        }
    }

    proof fn lemma_terms_upto(&self, j: int)
        requires
            self.inv(),
            0 <= j < self@.len(),
        ensures
            self.header.pre_term <= self@[j].term,
            forall|i: int| 0 <= i <= j ==> (#[trigger] self@[i]).term <= self@[j].term,
        decreases j,
    {
        assert(slot(self.data@, self.offsets@, self.terms@, self.header, j));
        if j > 0 {
            self.lemma_terms_upto(j - 1);
            assert(slot(self.data@, self.offsets@, self.terms@, self.header, j - 1));
        }
    }

    /// A segment that is closed and opened again on its file holds the
    /// entries it held: the file of a store loads to the entries of the
    /// store, and nothing of the file is left out.
    pub proof fn lemma_reopen(&self)
        requires
            self.inv(),
        ensures
            load_segment(self.bytes(), self.header()) == Some((self@, self.bytes().len() as int)),
    {
        let data = self.data@;
        lemma_scan_chain(data, self.offsets@, self.terms@, self.header, 0);
        assert(self@.skip(0) =~= self@);
    }

    /// A new segment with no entries: its file holds the header alone.
    pub fn create(header: SegmentHeader) -> (s: LogSegmentStore)
        ensures
            s.inv(),
            s.header() == header,
            s@ == Seq::<LogEntryView>::empty(),
            s.bytes() == header_bytes(header),
            !s.sealed(),
            s.synced_len() == 0,
    {
        let mut data: Vec<u8> = Vec::new();
        put_u64_be(&mut data, header.segment_id);
        put_u64_be(&mut data, header.start_index);
        put_u64_be(&mut data, header.pre_term);
        proof {
            lemma_header_roundtrip(header, Seq::empty());
            assert(data@ =~= header_bytes(header));
            assert(data@.take(SEGMENT_HEADER_LEN as int) =~= header_bytes(header));
        }
        let s = LogSegmentStore {
            header,
            data,
            offsets: Vec::new(),
            terms: Vec::new(),
            sealed: false,
            synced: 0,
        };
        assert(s@ =~= Seq::<LogEntryView>::empty());
        s
    }

    /// The number of entries of the segment.
    pub fn record_count(&self) -> (n: u64)
        requires
            self.inv(),
        ensures
            n == self@.len(),
    {
        proof {
            self.lemma_entries();
        }
        self.offsets.len() as u64
    }

    /// The index of the first entry of the segment.
    pub fn start_index(&self) -> (n: u64)
        ensures
            n == self.header().start_index,
    {
        self.header.start_index
    }

    /// Whether the segment is sealed.
    pub fn is_close(&self) -> (b: bool)
        ensures
            b == self.sealed(),
    {
        self.sealed
    }

    /// The bytes of the file.
    pub fn file_image(&self) -> (bytes: &Vec<u8>)
        ensures
            bytes@ == self.bytes(),
    {
        &self.data
    }

    /// Whether the file has reached `cap` bytes: the segment is due for
    /// rotation.
    pub fn is_full(&self, cap: usize) -> (b: bool)
        ensures
            b == (self.bytes().len() >= cap),
    {
        self.data.len() >= cap
    }

    /// Seals the segment: it takes no more entries.
    pub fn close(&mut self)
        requires
            old(self).inv(),
        ensures
            final(self).inv(),
            final(self).sealed(),
            final(self)@ == old(self)@,
            final(self).bytes() == old(self).bytes(),
            final(self).header() == old(self).header(),
            final(self).synced_len() == old(self).synced_len(),
    {
        self.sealed = true;
    }

    /// Hands out what the file lacks: the caller cuts the file to `keep`
    /// bytes, appends `bytes` and flushes; the file then holds the bytes of
    /// the store.
    pub fn sync(&mut self) -> (w: SegmentWrite)
        requires
            old(self).inv(),
        ensures
            final(self).inv(),
            final(self)@ == old(self)@,
            final(self).bytes() == old(self).bytes(),
            final(self).header() == old(self).header(),
            final(self).sealed() == old(self).sealed(),
            final(self).synced_len() == final(self).bytes().len(),
            w.keep == old(self).synced_len(),
            w.bytes@ == old(self).bytes().skip(old(self).synced_len()),
    {
        let n: usize = self.data.len();
        let keep: usize = self.synced;
        let bytes = vstd::slice::slice_to_vec(
            vstd::slice::slice_subrange(self.data.as_slice(), keep, n),
        );
        assert(self.data@.subrange(keep as int, n as int) =~= self.data@.skip(keep as int));
        self.synced = n;
        SegmentWrite { keep, bytes }
    }

    /// How the catalog describes the segment.
    pub fn log_range(&self) -> (r: LogRange)
        requires
            self.inv(),
        ensures
            r == (LogRange {
                id: self.header().segment_id,
                start_index: self.header().start_index,
                pre_term: self.header().pre_term,
                record_count: self@.len() as u64,
                is_close: self.sealed(),
                mark_remove: false,
            }),
    {
        LogRange {
            id: self.header.segment_id,
            start_index: self.header.start_index,
            pre_term: self.header.pre_term,
            record_count: self.record_count(),
            is_close: self.sealed,
            mark_remove: false,
        }
    }

    /// Appends an entry behind the last. The entry must carry the index
    /// that follows the last entry; the segment must be open, the term of
    /// the entry must not be below the term of the last entry, and the
    /// entry must fit in a record. An entry that is refused changes
    /// nothing.
    /// Writes the record of an entry that may follow behind the file.
    fn push_record(&mut self, Ghost(e): Ghost<LogEntryView>, term: u64, payload: &[u8])
        requires
            old(self).inv(),
            payload@ == entry_bytes(e),
            payload@.len() <= MAX_RECORD_LEN,
            entry_fits(e),
            term == e.term,
            e.index == old(self).header.start_index + old(self).offsets@.len(),
            e.term >= floor_of(old(self).terms@, old(self).header, old(self).offsets@.len() as int),
        ensures
            final(self).inv(),
            final(self).header == old(self).header,
            final(self).sealed == old(self).sealed,
            final(self).synced == old(self).synced,
            final(self)@ == old(self)@.push(e),
            final(self).data@ == old(self).data@ + frame(entry_bytes(e)),
    {
        let ghost data0 = self.data@;
        let ghost offsets0 = self.offsets@;
        let ghost terms0 = self.terms@;
        let at: usize = self.data.len();
        put_record(&mut self.data, payload);
        let total: usize = self.data.len();
        self.offsets.push(at);
        self.terms.push(term);
        proof {
            lemma_chain_append(data0, offsets0, terms0, self.header, e);
            assert(self.data@.take(SEGMENT_HEADER_LEN as int) =~= data0.take(
                SEGMENT_HEADER_LEN as int,
            ));
        }
    }

    pub fn append(&mut self, entry: &LogEntry) -> (r: Result<(), StoreError>)
        requires
            old(self).inv(),
        ensures
            final(self).inv(),
            final(self).header() == old(self).header(),
            final(self).sealed() == old(self).sealed(),
            final(self).synced_len() == old(self).synced_len(),
            match append_refusal(old(self)@, old(self).header(), old(self).sealed(), entry@) {
                None => r.is_ok() && final(self)@ == old(self)@.push(entry@) && final(self).bytes()
                    == old(self).bytes() + frame(entry_bytes(entry@)),
                Some(e) => r == Err::<(), StoreError>(e) && final(self)@ == old(self)@ && final(self).bytes() == old(self).bytes(),
            },
    {
        let n: usize = self.offsets.len();
        let ghost data0 = self.data@;
        let ghost offsets0 = self.offsets@;
        let ghost terms0 = self.terms@;
        proof {
            lemma_last_term(data0, offsets0, terms0, self.header);
        }
        if entry.index < self.header.start_index || entry.index - self.header.start_index
            != n as u64 {
            return Err(StoreError::IndexGap);
        }
        if self.sealed {
            return Err(StoreError::InvariantViolation);
        }
        let floor: u64 = if n == 0 {
            self.header.pre_term
        } else {
            self.terms[n - 1]
        };
        if entry.term < floor {
            return Err(StoreError::InvariantViolation);
        }
        let payload = encode_entry(entry);
        if payload.len() > MAX_RECORD_LEN as usize {
            return Err(StoreError::InvariantViolation);
        }
        self.push_record(Ghost(entry@), entry.term, payload.as_slice());
        Ok(())
    }

    /// The entry with the given index.
    pub fn read(&self, index: u64) -> (r: Result<LogEntry, StoreError>)
        requires
            self.inv(),
        ensures
            match entry_of(self@, self.header().start_index, index) {
                Some(e) => r matches Ok(x) && x@ == e,
                None => r matches Err(err) && err == StoreError::IndexOutOfRange,
            },
    {
        let n: usize = self.offsets.len();
        if index < self.header.start_index || index - self.header.start_index >= n as u64 {
            return Err(StoreError::IndexOutOfRange);
        }
        let k: usize = (index - self.header.start_index) as usize;
        assert(slot(self.data@, self.offsets@, self.terms@, self.header, k as int));
        proof {
            lemma_entry_at(self.data@, self.offsets@[k as int] as int);
        }
        match read_record(self.data.as_slice(), self.offsets[k]) {
            ReadOutcome::Record(p) => match decode_entry(p.as_slice()) {
                Some(e) => Ok(e),
                None => Err(StoreError::Corrupt),
            },
            _ => Err(StoreError::Corrupt),
        }
    }

    /// The entries with indices from `lo` to `hi`, both included, as far
    /// as the segment holds them.
    pub fn read_range(&self, lo: u64, hi: u64) -> (r: Vec<LogEntry>)
        requires
            self.inv(),
        ensures
            entry_views(r@) == range_of(self@, self.header().start_index, lo, hi),
    {
        let n: u64 = self.record_count();
        let start: u64 = self.header.start_index;
        let a: u64 = if lo <= start {
            0
        } else if lo - start >= n {
            n
        } else {
            lo - start
        };
        let b: u64 = if hi < start {
            0
        } else if hi - start >= n {
            n
        } else {
            hi - start + 1
        };
        let mut out: Vec<LogEntry> = Vec::new();
        if a >= b {
            assert(entry_views(out@) =~= range_of(self@, start, lo, hi));
            return out;
        }
        proof {
            self.lemma_entries();
        }
        let mut k: u64 = a;
        while k < b
            invariant
                self.inv(),
                a <= k <= b <= n == self@.len(),
                start == self.header().start_index,
                start + n <= u64::MAX + 1,
                out@.len() == k - a,
                forall|i: int| 0 <= i < k - a ==> (#[trigger] out@[i])@ == self@[a + i],
            decreases b - k,
        {
            match self.read(start + k) {
                Ok(e) => {
                    out.push(e);
                },
                Err(_) => {},
            }
            k = k + 1;
        }
        assert(entry_views(out@) =~= self@.subrange(a as int, b as int));
        out
    }

    /// Drops the entry with the given index and all behind it. An index
    /// before the segment or beyond the index behind its last entry is
    /// refused, and nothing changes.
    pub fn truncate_from(&mut self, index: u64) -> (r: Result<(), StoreError>)
        requires
            old(self).inv(),
        ensures
            final(self).inv(),
            final(self).header() == old(self).header(),
            final(self).sealed() == old(self).sealed(),
            final(self).bytes() == old(self).bytes().take(final(self).bytes().len() as int),
            final(self).bytes().len() <= old(self).bytes().len(),
            final(self).synced_len() == if old(self).synced_len() <= final(self).bytes().len() {
                old(self).synced_len()
            } else {
                final(self).bytes().len() as int
            },
            if old(self).header().start_index <= index <= old(self).header().start_index + old(self)@.len() {
                r.is_ok() && final(self)@ == old(self)@.take(
                    index - old(self).header().start_index,
                )
            } else {
                r == Err::<(), StoreError>(StoreError::IndexOutOfSegment) && final(self)@ == old(self)@ && final(self).bytes() == old(self).bytes()
            },
    {
        let n: usize = self.offsets.len();
        let ghost data0 = self.data@;
        let ghost offsets0 = self.offsets@;
        let ghost terms0 = self.terms@;
        let ghost es0 = self@;
        assert(data0.take(data0.len() as int) =~= data0);
        if index < self.header.start_index || index - self.header.start_index > n as u64 {
            return Err(StoreError::IndexOutOfSegment);
        }
        let k: usize = (index - self.header.start_index) as usize;
        if k == n {
            assert(es0.take(k as int) =~= es0);
            return Ok(());
        }
        let cut: usize = self.offsets[k];
        proof {
            lemma_chain_truncate(data0, offsets0, terms0, self.header, k as int);
        }
        self.data.truncate(cut);
        self.offsets.truncate(k);
        self.terms.truncate(k);
        if self.synced > cut {
            self.synced = cut;
        }
        proof {
            assert(self.data@ =~= data0.take(cut as int));
            assert(self.offsets@ =~= offsets0.take(k as int));
            assert(self.terms@ =~= terms0.take(k as int));
            assert(self.data@.take(SEGMENT_HEADER_LEN as int) =~= data0.take(
                SEGMENT_HEADER_LEN as int,
            ));
            assert(data0.take(cut as int).take(cut as int) =~= data0.take(cut as int));
        }
        Ok(())
    }

    /// Opens the segment that the catalog describes on the bytes of its
    /// file. The file must hold at least the entries that the catalog
    /// counts; for a sealed segment it must hold exactly those and nothing
    /// behind them, and the store is sealed. Any other file is corrupt.
    pub fn open_described(data: Vec<u8>, range: &LogRange) -> (r: Result<
        LogSegmentStore,
        StoreError,
    >)
        ensures
            match load_described(data@, *range) {
                None => r matches Err(e) && e == StoreError::Corrupt,
                Some((es, end)) => r matches Ok(s) && s.inv() && s.header() == range_header(*range)
                    && s@ == es && s.sealed() == range.is_close && s.synced_len() == end
                    && s.bytes() == if data@.len() == 0 {
                    header_bytes(range_header(*range))
                } else {
                    data@.take(end)
                },
            },
    {
        let len: usize = data.len();
        let header = SegmentHeader {
            segment_id: range.id,
            start_index: range.start_index,
            pre_term: range.pre_term,
        };
        let mut store = match LogSegmentStore::open(data, header) {
            Ok(s) => s,
            Err(e) => {
                return Err(e);
            },
        };
        let count: u64 = store.record_count();
        if count < range.record_count {
            return Err(StoreError::Corrupt);
        }
        if range.is_close {
            if count != range.record_count || store.synced != len {
                return Err(StoreError::Corrupt);
            }
            store.close();
        }
        Ok(store)
    }

    /// Opens a segment on the bytes of its file. An empty file gives a new
    /// segment. Otherwise the file must start with the header that is
    /// expected, and the store holds the entries that follow; a record
    /// that the file ends inside is cut off. Any other file is corrupt.
    pub fn open(data: Vec<u8>, header: SegmentHeader) -> (r: Result<LogSegmentStore, StoreError>)
        ensures
            match load_segment(data@, header) {
                None => r matches Err(e) && e == StoreError::Corrupt,
                Some((es, end)) => r matches Ok(s) && s.inv() && s.header() == header && s@ == es
                    && !s.sealed() && s.synced_len() == end && s.bytes() == if data@.len() == 0 {
                    header_bytes(header)
                } else {
                    data@.take(end)
                },
            },
    {
        let n: usize = data.len();
        if n == 0 {
            return Ok(LogSegmentStore::create(header));
        }
        if n < SEGMENT_HEADER_LEN {
            return Err(StoreError::Corrupt);
        }
        let mut expected: Vec<u8> = Vec::new();
        put_u64_be(&mut expected, header.segment_id);
        put_u64_be(&mut expected, header.start_index);
        put_u64_be(&mut expected, header.pre_term);
        assert(expected@ =~= header_bytes(header));
        if !same_bytes(
            vstd::slice::slice_subrange(data.as_slice(), 0, SEGMENT_HEADER_LEN),
            expected.as_slice(),
        ) {
            assert(data@.subrange(0, SEGMENT_HEADER_LEN as int) =~= data@.take(
                SEGMENT_HEADER_LEN as int,
            ));
            return Err(StoreError::Corrupt);
        }
        assert(data@.subrange(0, SEGMENT_HEADER_LEN as int) =~= data@.take(
            SEGMENT_HEADER_LEN as int,
        ));
        let mut offsets: Vec<usize> = Vec::new();
        let mut terms: Vec<u64> = Vec::new();
        let mut pos: usize = SEGMENT_HEADER_LEN;
        let mut floor: u64 = header.pre_term;
        proof {
            let start = scan(
                data@,
                SEGMENT_HEADER_LEN as int,
                header.start_index as int,
                header.pre_term,
            );
            assert(entries_of(data@.take(pos as int), offsets@) =~= Seq::<LogEntryView>::empty());
            if let Some((es, end)) = start {
                assert(Seq::<LogEntryView>::empty() + es =~= es);
            }
        }
        loop
            invariant
                SEGMENT_HEADER_LEN <= pos <= n == data@.len(),
                data@.take(SEGMENT_HEADER_LEN as int) == header_bytes(header),
                chain(data@.take(pos as int), offsets@, terms@, header),
                floor == floor_of(terms@, header, offsets@.len() as int),
                scan(data@, SEGMENT_HEADER_LEN as int, header.start_index as int, header.pre_term)
                    == glue(
                    entries_of(data@.take(pos as int), offsets@),
                    scan(data@, pos as int, header.start_index + offsets@.len(), floor),
                ),
            decreases n - pos,
        {
            let ghost short = data@.take(pos as int);
            let ghost offsets0 = offsets@;
            let ghost terms0 = terms@;
            let ghost es0 = entries_of(short, offsets0);
            let k: usize = offsets.len();
            proof {
                lemma_entry_at(data@, pos as int);
                lemma_open_stop(data@, pos as int, header.start_index + k, floor);
            }
            match read_record(data.as_slice(), pos) {
                ReadOutcome::Eof => {
                    let mut kept = data;
                    kept.truncate(pos);
                    let s = LogSegmentStore {
                        header,
                        data: kept,
                        offsets,
                        terms,
                        sealed: false,
                        synced: pos,
                    };
                    proof {
                        assert(es0 + Seq::<LogEntryView>::empty() =~= es0);
                        assert(short.take(SEGMENT_HEADER_LEN as int) =~= data@.take(
                            SEGMENT_HEADER_LEN as int,
                        ));
                    }
                    return Ok(s);
                },
                ReadOutcome::Record(p) => {
                    let e = match decode_entry(p.as_slice()) {
                        Some(e) => e,
                        None => {
                            return Err(StoreError::Corrupt);
                        },
                    };
                    if e.index < header.start_index || e.index - header.start_index != k as u64
                        || e.term < floor {
                        return Err(StoreError::Corrupt);
                    }
                    let next: usize = pos + HEADER_LEN + p.len();
                    proof {
                        lemma_open_step(data@, pos as int, offsets0, terms0, header, e@, next as int);
                        let rest = scan(data@, next as int, header.start_index + k + 1, e.term);
                        if let Some((es, end)) = rest {
                            assert(es0 + (seq![e@] + es) =~= es0.push(e@) + es);
                        }
                    }
                    offsets.push(pos);
                    terms.push(e.term);
                    floor = e.term;
                    pos = next;
                },
                _ => {
                    return Err(StoreError::Corrupt);
                },
            }
        }
    }
}

/// After an entry was appended, a read at its index gives that entry, and
/// a read at any other index gives what it gave before.
pub proof fn lemma_read_after_append(es: Seq<LogEntryView>, start: u64, e: LogEntryView, i: u64)
    requires
        e.index == start + es.len(),
    ensures
        entry_of(es.push(e), start, e.index) == Some(e),
        i != e.index ==> entry_of(es.push(e), start, i) == entry_of(es, start, i),
{
}

/// After the entries from an index on were dropped, no read at that index
/// or behind it finds an entry, and a read before it gives what it gave
/// before.
pub proof fn lemma_read_after_truncate(es: Seq<LogEntryView>, start: u64, k: u64, i: u64)
    requires
        start <= k <= start + es.len(),
    ensures
        i >= k ==> entry_of(es.take(k - start), start, i) is None,
        i < k ==> entry_of(es.take(k - start), start, i) == entry_of(es, start, i),
{
}

} // verus!
