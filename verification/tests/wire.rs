use quick_protobuf::{BytesReader, Writer};
use raftstore::wire::{
    append_bytes, get_varint, parse_message, parse_varints, put_field, put_varint, read_field,
    write_message, write_varints, Field, FieldValue,
};

fn varint_of(v: u64) -> Vec<u8> {
    let mut buf = Vec::new();
    put_varint(&mut buf, v);
    buf
}

#[test]
fn varint_small_values_take_one_byte() {
    assert_eq!(varint_of(0), vec![0x00u8]);
    assert_eq!(varint_of(1), vec![0x01u8]);
    assert_eq!(varint_of(127), vec![0x7fu8]);
}

#[test]
fn varint_larger_values_are_split_in_groups_of_seven_bits() {
    assert_eq!(varint_of(128), vec![0x80u8, 0x01]);
    assert_eq!(varint_of(150), vec![0x96u8, 0x01]);
    assert_eq!(varint_of(300), vec![0xacu8, 0x02]);
    assert_eq!(varint_of(16384), vec![0x80u8, 0x80, 0x01]);
}

#[test]
fn varint_of_the_largest_number_takes_ten_bytes() {
    assert_eq!(
        varint_of(u64::MAX),
        vec![0xffu8, 0xff, 0xff, 0xff, 0xff, 0xff, 0xff, 0xff, 0xff, 0x01]
    );
}

#[test]
fn varint_is_appended_behind_what_the_buffer_holds() {
    let mut buf = vec![9u8, 9];
    put_varint(&mut buf, 300);
    assert_eq!(buf, vec![9u8, 9, 0xac, 0x02]);
}

#[test]
fn varint_is_what_the_protobuf_writer_writes() {
    for v in [0u64, 1, 127, 128, 16383, 16384, 1 << 35, u64::MAX - 1, u64::MAX] {
        let mut expected = Vec::new();
        {
            let mut w = Writer::new(&mut expected);
            w.write_varint(v).unwrap();
        }
        assert_eq!(varint_of(v), expected);
    }
}

#[test]
fn varint_is_read_back_with_the_position_behind_it() {
    for v in [0u64, 1, 127, 128, 300, 1 << 21, 1 << 42, u64::MAX] {
        let mut buf = vec![0xeeu8, 0xee, 0xee];
        put_varint(&mut buf, v);
        let end = buf.len();
        buf.push(0x55);
        assert_eq!(get_varint(&buf, 3), Some((v, end)));
    }
}

#[test]
fn varint_read_stops_at_the_first_byte_without_the_top_bit() {
    assert_eq!(get_varint(&[0x05u8, 0x80, 0x80], 0), Some((5, 1)));
    assert_eq!(get_varint(&[0xacu8, 0x02, 0xff], 0), Some((300, 2)));
}

#[test]
fn varint_read_fails_where_the_bytes_end_inside_it() {
    assert_eq!(get_varint(&[], 0), None);
    assert_eq!(get_varint(&[0x80u8], 0), None);
    assert_eq!(get_varint(&[0xffu8, 0xff, 0xff], 0), None);
    assert_eq!(get_varint(&[0x01u8], 1), None);
}

#[test]
fn varint_read_fails_on_an_eleventh_byte() {
    let bytes = [0x80u8, 0x80, 0x80, 0x80, 0x80, 0x80, 0x80, 0x80, 0x80, 0x80, 0x01];
    assert_eq!(get_varint(&bytes, 0), None);
}

#[test]
fn varint_read_accepts_a_longer_form_of_a_small_number() {
    assert_eq!(get_varint(&[0x81u8, 0x00], 0), Some((1, 2)));
    assert_eq!(get_varint(&[0x80u8, 0x80, 0x00], 0), Some((0, 3)));
}

#[test]
fn varint_read_drops_the_bits_beyond_the_sixty_fourth() {
    let top_bit = [0x80u8, 0x80, 0x80, 0x80, 0x80, 0x80, 0x80, 0x80, 0x80, 0x01];
    assert_eq!(get_varint(&top_bit, 0), Some((1u64 << 63, 10)));
    let beyond = [0x80u8, 0x80, 0x80, 0x80, 0x80, 0x80, 0x80, 0x80, 0x80, 0x02];
    assert_eq!(get_varint(&beyond, 0), Some((0, 10)));
    let both = [0xffu8, 0xff, 0xff, 0xff, 0xff, 0xff, 0xff, 0xff, 0xff, 0x7f];
    assert_eq!(get_varint(&both, 0), Some((u64::MAX, 10)));
}

#[test]
fn varint_read_is_what_the_protobuf_reader_reads() {
    let samples: Vec<Vec<u8>> = vec![
        vec![0x00],
        vec![0x7f, 0x01],
        vec![0x80],
        vec![0x96, 0x01],
        vec![0x81, 0x80, 0x00],
        vec![0xff, 0xff, 0xff, 0xff, 0xff, 0xff, 0xff, 0xff, 0xff, 0x7f],
        vec![0xff, 0xff, 0xff, 0xff, 0xff, 0xff, 0xff, 0xff, 0xff, 0xff, 0x01],
        vec![0x80, 0x80, 0x80, 0x80, 0x80, 0x80, 0x80, 0x80, 0x80, 0x03],
    ];
    for bytes in samples {
        let mut reader = BytesReader::from_bytes(&bytes);
        let expected = match reader.read_varint64(&bytes) {
            Ok(v) => Some((v, bytes.len() - reader.len())),
            Err(_) => None,
        };
        assert_eq!(get_varint(&bytes, 0), expected);
    }
}

#[test]
fn append_bytes_adds_the_bytes_at_the_end() {
    let mut buf = vec![1u8, 2];
    append_bytes(&mut buf, &[3, 4, 5]);
    assert_eq!(buf, vec![1u8, 2, 3, 4, 5]);
    append_bytes(&mut buf, &[]);
    assert_eq!(buf, vec![1u8, 2, 3, 4, 5]);
}

#[test]
fn varint_field_is_key_and_value() {
    let mut buf = Vec::new();
    put_field(&mut buf, &Field { number: 1, value: FieldValue::Varint(150) });
    assert_eq!(buf, vec![0x08u8, 0x96, 0x01]);
}

#[test]
fn bytes_field_is_key_length_and_bytes() {
    let mut buf = Vec::new();
    put_field(&mut buf, &Field { number: 2, value: FieldValue::Bytes(b"testing".to_vec()) });
    assert_eq!(buf, vec![0x12u8, 0x07, 0x74, 0x65, 0x73, 0x74, 0x69, 0x6e, 0x67]);
}

#[test]
fn field_with_a_large_number_has_a_longer_key() {
    let mut buf = Vec::new();
    put_field(&mut buf, &Field { number: 16, value: FieldValue::Varint(1) });
    assert_eq!(buf, vec![0x80u8, 0x01, 0x01]);
}

#[test]
fn message_is_its_fields_one_after_another() {
    let fields = vec![
        Field { number: 1, value: FieldValue::Varint(150) },
        Field { number: 2, value: FieldValue::Bytes(vec![0xaa, 0xbb]) },
        Field { number: 3, value: FieldValue::Varint(0) },
    ];
    assert_eq!(write_message(&fields), vec![0x08u8, 0x96, 0x01, 0x12, 0x02, 0xaa, 0xbb, 0x18, 0x00]);
    assert_eq!(write_message(&Vec::new()), Vec::<u8>::new());
}

#[test]
fn message_is_split_into_the_fields_that_were_written() {
    let fields = vec![
        Field { number: 7, value: FieldValue::Bytes(vec![]) },
        Field { number: 1, value: FieldValue::Varint(u64::MAX) },
        Field { number: 300, value: FieldValue::Bytes(vec![1, 2, 3]) },
    ];
    let bytes = write_message(&fields);
    let back = parse_message(&bytes).unwrap();
    assert_eq!(back.len(), 3);
    assert_eq!(back[0].number, 7);
    assert!(matches!(&back[0].value, FieldValue::Bytes(b) if b.is_empty()));
    assert_eq!(back[1].number, 1);
    assert!(matches!(&back[1].value, FieldValue::Varint(v) if *v == u64::MAX));
    assert_eq!(back[2].number, 300);
    assert!(matches!(&back[2].value, FieldValue::Bytes(b) if b == &vec![1u8, 2, 3]));
}

#[test]
fn empty_message_has_no_fields() {
    assert_eq!(parse_message(&[]).unwrap().len(), 0);
}

#[test]
fn message_with_an_unknown_wire_type_is_refused() {
    // Key 0x0d: field 1, wire type 5 (32 bits).
    assert!(parse_message(&[0x0du8, 0x01, 0x02, 0x03, 0x04]).is_none());
    // Key 0x09: field 1, wire type 1 (64 bits).
    assert!(parse_message(&[0x09u8, 0, 0, 0, 0, 0, 0, 0, 0]).is_none());
}

#[test]
fn message_that_ends_inside_a_field_is_refused() {
    assert!(parse_message(&[0x08u8]).is_none());
    assert!(parse_message(&[0x08u8, 0x96]).is_none());
    assert!(parse_message(&[0x12u8, 0x03, 0x01, 0x02]).is_none());
    assert!(parse_message(&[0x08u8, 0x01, 0x12]).is_none());
}

#[test]
fn field_number_beyond_32_bits_is_refused() {
    // The key is 2^35: field number 2^32, wire type 0.
    assert!(parse_message(&[0x80u8, 0x80, 0x80, 0x80, 0x80, 0x01, 0x00]).is_none());
}

#[test]
fn field_is_read_at_a_position() {
    let bytes = [0xffu8, 0x08, 0x05, 0x12, 0x01, 0x09];
    let (f, next) = read_field(&bytes, 1).unwrap();
    assert_eq!(f.number, 1);
    assert!(matches!(f.value, FieldValue::Varint(5)));
    assert_eq!(next, 3);
    let (g, end) = read_field(&bytes, 3).unwrap();
    assert_eq!(g.number, 2);
    assert!(matches!(&g.value, FieldValue::Bytes(b) if b == &vec![9u8]));
    assert_eq!(end, 6);
    assert!(read_field(&bytes, 6).is_none());
}

#[test]
fn packed_numbers_are_their_varints_one_after_another() {
    assert_eq!(write_varints(&vec![1, 300, 0]), vec![0x01u8, 0xac, 0x02, 0x00]);
    assert_eq!(write_varints(&Vec::new()), Vec::<u8>::new());
}

#[test]
fn packed_numbers_are_read_back() {
    let numbers = vec![0u64, 1, 127, 128, u64::MAX, 42];
    assert_eq!(parse_varints(&write_varints(&numbers)), Some(numbers));
    assert_eq!(parse_varints(&[]), Some(Vec::new()));
}

#[test]
fn packed_numbers_that_end_inside_a_varint_are_refused() {
    assert_eq!(parse_varints(&[0x01u8, 0x80]), None);
}
