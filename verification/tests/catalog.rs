use raftstore::catalog::{decode_catalog, encode_catalog};
use raftstore::model::{LogRange, NodeAddr, RaftIndexDto, SnapshotRange};
use raftstore::wire::parse_message;

fn fresh() -> RaftIndexDto {
    RaftIndexDto {
        current_term: 0,
        voted_for: 0,
        member: vec![],
        member_after_consensus: vec![],
        node_addrs: vec![],
        logs: vec![LogRange {
            id: 0,
            start_index: 0,
            pre_term: 0,
            record_count: 0,
            is_close: false,
            mark_remove: false,
        }],
        snapshots: vec![],
    }
}

fn full() -> RaftIndexDto {
    RaftIndexDto {
        current_term: 5,
        voted_for: 2,
        member: vec![1, 2, 3],
        member_after_consensus: vec![1, 2, 3, 300],
        node_addrs: vec![
            NodeAddr { id: 1, addr: "10.0.0.1:9848".to_string() },
            NodeAddr { id: 2, addr: "10.0.0.2:9848".to_string() },
            NodeAddr { id: 300, addr: "".to_string() },
        ],
        logs: vec![
            LogRange { id: 0, start_index: 0, pre_term: 0, record_count: 100, is_close: true, mark_remove: true },
            LogRange { id: 1, start_index: 100, pre_term: 4, record_count: 7, is_close: false, mark_remove: false },
        ],
        snapshots: vec![
            SnapshotRange { id: 0, last_included_index: 49, last_included_term: 2 },
            SnapshotRange { id: 1, last_included_index: 99, last_included_term: 4 },
        ],
    }
}

fn assert_same(a: &RaftIndexDto, b: &RaftIndexDto) {
    assert_eq!(a.current_term, b.current_term);
    assert_eq!(a.voted_for, b.voted_for);
    assert_eq!(a.member, b.member);
    assert_eq!(a.member_after_consensus, b.member_after_consensus);
    assert_eq!(a.node_addrs.len(), b.node_addrs.len());
    for (x, y) in a.node_addrs.iter().zip(b.node_addrs.iter()) {
        assert_eq!(x.id, y.id);
        assert_eq!(x.addr, y.addr);
    }
    assert_eq!(a.logs, b.logs);
    assert_eq!(a.snapshots, b.snapshots);
}

#[test]
fn fresh_catalog_has_these_bytes() {
    assert_eq!(
        encode_catalog(&fresh()),
        vec![
            0x08u8, 0, 0x10, 0, 0x1a, 0, 0x22, 0, 0x32, 12, 0x08, 0, 0x10, 0, 0x18, 0, 0x20, 0,
            0x28, 0, 0x30, 0
        ]
    );
}

#[test]
fn catalog_writes_lists_as_repeated_fields() {
    let c = RaftIndexDto {
        current_term: 5,
        voted_for: 2,
        member: vec![1, 300],
        member_after_consensus: vec![],
        node_addrs: vec![NodeAddr { id: 1, addr: "a".to_string() }],
        logs: vec![],
        snapshots: vec![SnapshotRange { id: 3, last_included_index: 9, last_included_term: 1 }],
    };
    assert_eq!(
        encode_catalog(&c),
        vec![
            0x08u8, 5, 0x10, 2, 0x1a, 3, 1, 0xac, 0x02, 0x22, 0, 0x2a, 5, 0x08, 1, 0x12, 1, b'a',
            0x3a, 6, 0x08, 3, 0x10, 9, 0x18, 1
        ]
    );
}

#[test]
fn catalog_is_read_back() {
    for c in [fresh(), full()] {
        let back = decode_catalog(&encode_catalog(&c)).unwrap();
        assert_same(&back, &c);
    }
}

#[test]
fn catalog_with_no_lists_is_read_back() {
    let c = RaftIndexDto {
        current_term: u64::MAX,
        voted_for: u64::MAX,
        member: vec![],
        member_after_consensus: vec![],
        node_addrs: vec![],
        logs: vec![],
        snapshots: vec![],
    };
    let back = decode_catalog(&encode_catalog(&c)).unwrap();
    assert_same(&back, &c);
}

#[test]
fn catalog_clone_is_equal() {
    let c = full();
    assert_same(&c.clone(), &c);
}

#[test]
fn catalog_cut_inside_a_field_is_refused() {
    let bytes = encode_catalog(&full());
    for cut in 0..bytes.len() {
        if parse_message(&bytes[..cut]).is_none() {
            assert!(decode_catalog(&bytes[..cut]).is_none(), "cut at {}", cut);
        }
    }
    assert!(decode_catalog(&bytes[..bytes.len() - 1]).is_none());
}

#[test]
fn catalog_cut_inside_its_leading_fields_is_refused() {
    let bytes = encode_catalog(&full());
    // Term, vote, three members and four members after consensus.
    let head = 2 + 2 + 2 + 3 + 2 + 5;
    for cut in 0..head {
        assert!(decode_catalog(&bytes[..cut]).is_none(), "cut at {}", cut);
    }
    let only_head = decode_catalog(&bytes[..head]).unwrap();
    assert_eq!(only_head.member_after_consensus, vec![1, 2, 3, 300]);
    assert!(only_head.node_addrs.is_empty());
    assert!(only_head.logs.is_empty());
}

#[test]
fn catalog_with_bytes_behind_it_is_refused() {
    let mut bytes = encode_catalog(&full());
    bytes.push(0);
    assert!(decode_catalog(&bytes).is_none());
    let mut more = encode_catalog(&full());
    more.extend_from_slice(&[0x08, 1]);
    assert!(decode_catalog(&more).is_none());
}

#[test]
fn catalog_with_lists_out_of_order_is_refused() {
    // A snapshot before a segment.
    let bytes = vec![
        0x08u8, 0, 0x10, 0, 0x1a, 0, 0x22, 0, 0x3a, 6, 0x08, 3, 0x10, 9, 0x18, 1, 0x32, 12, 0x08,
        0, 0x10, 0, 0x18, 0, 0x20, 0, 0x28, 0, 0x30, 0,
    ];
    assert!(decode_catalog(&bytes).is_none());
}

#[test]
fn catalog_with_a_bad_segment_is_refused() {
    // The segment has five fields.
    let bytes = vec![
        0x08u8, 0, 0x10, 0, 0x1a, 0, 0x22, 0, 0x32, 10, 0x08, 0, 0x10, 0, 0x18, 0, 0x20, 0, 0x28, 0,
    ];
    assert!(decode_catalog(&bytes).is_none());
}

#[test]
fn catalog_with_a_bad_member_list_is_refused() {
    let bytes = vec![0x08u8, 0, 0x10, 0, 0x1a, 1, 0x80, 0x22, 0];
    assert!(decode_catalog(&bytes).is_none());
}

#[test]
fn catalog_without_its_leading_fields_is_refused() {
    assert!(decode_catalog(&[]).is_none());
    assert!(decode_catalog(&[0x08u8, 0, 0x10, 0, 0x1a, 0]).is_none());
    assert!(decode_catalog(&[0x10u8, 0, 0x08, 0, 0x1a, 0, 0x22, 0]).is_none());
}
