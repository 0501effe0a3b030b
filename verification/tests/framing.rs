use raftstore::error::StoreError;
use raftstore::framing::{
    put_record, read_record, write_record, FileMessageReader, FileMessageWriter, ReadOutcome, HEADER_LEN,
    MAX_RECORD_LEN,
};

#[test]
fn record_is_length_then_bytes() {
    let mut buf = Vec::new();
    assert_eq!(write_record(&mut buf, b"abc"), Ok(()));
    assert_eq!(buf, vec![0u8, 0, 0, 3, b'a', b'b', b'c']);
}

#[test]
fn empty_record_is_a_length_of_zero() {
    let mut buf = vec![7u8];
    assert_eq!(write_record(&mut buf, &[]), Ok(()));
    assert_eq!(buf, vec![7u8, 0, 0, 0, 0]);
}

#[test]
fn record_length_is_big_endian() {
    let payload = vec![0x5au8; 0x0102];
    let mut buf = Vec::new();
    assert_eq!(write_record(&mut buf, &payload), Ok(()));
    assert_eq!(&buf[..4], &[0u8, 0, 1, 2]);
    assert_eq!(buf.len(), HEADER_LEN + 0x0102);
}

#[test]
fn record_is_read_where_it_was_written() {
    let mut buf = vec![1u8, 2, 3, 4, 5, 6, 7, 8];
    write_record(&mut buf, b"first").unwrap();
    write_record(&mut buf, b"second").unwrap();
    assert!(matches!(read_record(&buf, 8), ReadOutcome::Record(p) if p == b"first".to_vec()));
    assert!(matches!(read_record(&buf, 17), ReadOutcome::Record(p) if p == b"second".to_vec()));
    assert!(matches!(read_record(&buf, 27), ReadOutcome::Eof));
}

#[test]
fn read_at_the_end_of_the_file_is_eof() {
    assert!(matches!(read_record(&[], 0), ReadOutcome::Eof));
    assert!(matches!(read_record(&[1u8, 2, 3], 3), ReadOutcome::Eof));
}

#[test]
fn partial_header_is_eof() {
    assert!(matches!(read_record(&[0u8], 0), ReadOutcome::Eof));
    assert!(matches!(read_record(&[0u8, 0, 0], 0), ReadOutcome::Eof));
}

#[test]
fn partial_body_is_eof() {
    assert!(matches!(read_record(&[0u8, 0, 0, 5, 1, 2, 3, 4], 0), ReadOutcome::Eof));
    assert!(matches!(read_record(&[0u8, 0, 0, 1], 0), ReadOutcome::Eof));
}

#[test]
fn every_torn_write_of_a_record_is_eof() {
    let mut whole = Vec::new();
    write_record(&mut whole, b"payload").unwrap();
    for cut in 0..whole.len() {
        assert!(matches!(read_record(&whole[..cut], 0), ReadOutcome::Eof));
    }
    assert!(matches!(read_record(&whole, 0), ReadOutcome::Record(_)));
}

#[test]
fn length_above_the_longest_record_is_a_corrupt_header() {
    assert!(matches!(read_record(&[0x80u8, 0, 0, 0], 0), ReadOutcome::CorruptHeader));
    assert!(matches!(read_record(&[0xffu8, 0xff, 0xff, 0xff, 1, 2], 0), ReadOutcome::CorruptHeader));
    assert!(matches!(read_record(&[0x7fu8, 0xff, 0xff, 0xff], 0), ReadOutcome::Eof));
    assert_eq!(MAX_RECORD_LEN, 0x7fff_ffff);
}

#[test]
fn position_beyond_the_file_is_a_corrupt_body() {
    assert!(matches!(read_record(&[], 1), ReadOutcome::CorruptBody));
    assert!(matches!(read_record(&[0u8, 0, 0, 0], 5), ReadOutcome::CorruptBody));
}

#[test]
fn reader_walks_the_records_in_order() {
    let mut file = vec![0xaau8; 8];
    write_record(&mut file, b"one").unwrap();
    write_record(&mut file, b"").unwrap();
    write_record(&mut file, b"three").unwrap();
    let mut reader = FileMessageReader::new(file, 8);
    assert_eq!(reader.offset(), 8);
    assert!(matches!(reader.read_next(), ReadOutcome::Record(p) if p == b"one".to_vec()));
    assert_eq!(reader.offset(), 15);
    assert!(matches!(reader.read_next(), ReadOutcome::Record(p) if p.is_empty()));
    assert_eq!(reader.offset(), 19);
    assert!(matches!(reader.read_next(), ReadOutcome::Record(p) if p == b"three".to_vec()));
    assert_eq!(reader.offset(), 28);
    assert!(matches!(reader.read_next(), ReadOutcome::Eof));
    assert_eq!(reader.offset(), 28);
    assert!(matches!(reader.read_next(), ReadOutcome::Eof));
}

#[test]
fn reader_stays_where_a_record_is_torn() {
    let mut file = Vec::new();
    write_record(&mut file, b"whole").unwrap();
    write_record(&mut file, b"torn record").unwrap();
    file.truncate(file.len() - 4);
    let mut reader = FileMessageReader::new(file, 0);
    assert!(matches!(reader.read_next(), ReadOutcome::Record(p) if p == b"whole".to_vec()));
    assert!(matches!(reader.read_next(), ReadOutcome::Eof));
    assert_eq!(reader.offset(), 9);
}

#[test]
fn reader_reports_corruption_and_stays() {
    let mut reader = FileMessageReader::new(vec![0xffu8, 0, 0, 0, 1], 0);
    assert!(matches!(reader.read_next(), ReadOutcome::CorruptHeader));
    assert_eq!(reader.offset(), 0);
    let mut beyond = FileMessageReader::new(vec![1u8, 2, 3], 9);
    assert!(matches!(beyond.read_next(), ReadOutcome::CorruptBody));
    assert_eq!(beyond.offset(), 9);
}

#[test]
fn writer_collects_records_until_flush() {
    let mut writer = FileMessageWriter::new();
    assert_eq!(writer.write(b"ab"), Ok(()));
    assert_eq!(writer.write(b"c"), Ok(()));
    assert_eq!(writer.flush(), vec![0u8, 0, 0, 2, b'a', b'b', 0, 0, 0, 1, b'c']);
    assert_eq!(writer.flush(), Vec::<u8>::new());
    assert_eq!(writer.write(b"d"), Ok(()));
    assert_eq!(writer.flush(), vec![0u8, 0, 0, 1, b'd']);
}

#[test]
fn what_the_writer_flushed_is_what_the_reader_reads() {
    let mut writer = FileMessageWriter::new();
    let payloads: Vec<Vec<u8>> = vec![vec![], vec![1], vec![2; 300], vec![0xff; 5]];
    let mut file = Vec::new();
    for p in &payloads {
        writer.write(p).unwrap();
        file.extend_from_slice(&writer.flush());
    }
    let mut reader = FileMessageReader::new(file, 0);
    for p in &payloads {
        assert!(matches!(reader.read_next(), ReadOutcome::Record(q) if &q == p));
    }
    assert!(matches!(reader.read_next(), ReadOutcome::Eof));
}

#[test]
fn store_error_names() {
    assert_eq!(StoreError::NotInitialized.name(), "not initialized");
    assert_eq!(StoreError::IndexOutOfRange.name(), "index out of range");
    assert_eq!(StoreError::IndexOutOfSegment.name(), "index out of segment");
    assert_eq!(StoreError::IndexGap.name(), "index gap");
    assert_eq!(StoreError::InvariantViolation.name(), "invariant violation");
    assert_eq!(StoreError::Corrupt.name(), "corrupt");
    assert_eq!(StoreError::Io.name(), "io");
}

#[test]
fn put_record_appends_a_record() {
    let mut buf = vec![1u8];
    put_record(&mut buf, &[7, 8]);
    assert_eq!(buf, vec![1u8, 0, 0, 0, 2, 7, 8]);
    let mut other = vec![1u8];
    write_record(&mut other, &[7, 8]).unwrap();
    assert_eq!(buf, other);
}
