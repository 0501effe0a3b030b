use raftstore::error::StoreError;
use raftstore::manager::{RaftIndexManager, RaftIndexRequest, RaftIndexResponse};
use raftstore::model::{LogRange, NodeAddr, RaftIndexDto, SnapshotRange};
use raftstore::raftindex::RaftIndexInnerManager;

fn seg(id: u64, start_index: u64, record_count: u64, is_close: bool) -> LogRange {
    LogRange { id, start_index, pre_term: 0, record_count, is_close, mark_remove: false }
}

fn ready() -> RaftIndexManager {
    let mut m = RaftIndexManager::new("data".to_string());
    assert_eq!(m.init(&[]), Ok(()));
    m
}

fn info(m: &mut RaftIndexManager) -> (RaftIndexDto, u64) {
    match m.handle(RaftIndexRequest::LoadIndexInfo) {
        Ok(RaftIndexResponse::RaftIndexInfo { raft_index, last_applied_log }) => {
            (raft_index, last_applied_log)
        }
        other => panic!("unexpected answer: {:?}", other),
    }
}

fn is_empty_answer(r: Result<RaftIndexResponse, StoreError>) -> bool {
    matches!(r, Ok(RaftIndexResponse::Empty))
}

fn is_error(r: Result<RaftIndexResponse, StoreError>, e: StoreError) -> bool {
    matches!(r, Err(x) if x == e)
}

#[test]
fn fresh_init_gives_one_empty_open_segment() {
    let mut m = ready();
    let (c, applied) = info(&mut m);
    assert_eq!(applied, 0);
    assert_eq!(
        c.logs,
        vec![LogRange {
            id: 0,
            start_index: 0,
            pre_term: 0,
            record_count: 0,
            is_close: false,
            mark_remove: false
        }]
    );
    assert!(c.snapshots.is_empty());
    assert!(c.member.is_empty());
    assert!(c.member_after_consensus.is_empty());
    assert!(c.node_addrs.is_empty());
    assert_eq!(c.current_term, 0);
    assert_eq!(c.voted_for, 0);
}

#[test]
fn fresh_init_gives_the_bytes_of_the_new_file() {
    let m = ready();
    assert_eq!(
        m.file_image().unwrap(),
        &vec![
            0u8, 0, 0, 0, 0, 0, 0, 0, 0, 0, 0, 22, 0x08, 0, 0x10, 0, 0x1a, 0, 0x22, 0, 0x32, 12,
            0x08, 0, 0x10, 0, 0x18, 0, 0x20, 0, 0x28, 0, 0x30, 0
        ]
    );
    assert_eq!(m.data_dir(), "data");
}

#[test]
fn requests_before_init_are_not_initialized() {
    let mut m = RaftIndexManager::new("data".to_string());
    assert!(m.file_image().is_none());
    assert!(is_error(m.handle(RaftIndexRequest::LoadIndexInfo), StoreError::NotInitialized));
    assert!(is_error(m.handle(RaftIndexRequest::LoadHardState), StoreError::NotInitialized));
    assert!(is_error(m.handle(RaftIndexRequest::LoadMember), StoreError::NotInitialized));
    assert!(is_error(m.handle(RaftIndexRequest::GetTargetAddr(1)), StoreError::NotInitialized));
    assert!(is_error(m.handle(RaftIndexRequest::SaveLastAppliedLog(1)), StoreError::NotInitialized));
    assert!(is_error(m.handle(RaftIndexRequest::SaveLogs(vec![])), StoreError::NotInitialized));
    assert!(is_error(m.handle(RaftIndexRequest::SaveSnapshots(vec![])), StoreError::NotInitialized));
    assert!(is_error(
        m.handle(RaftIndexRequest::SaveHardState { current_term: 1, voted_for: 1 }),
        StoreError::NotInitialized
    ));
    assert!(is_error(
        m.handle(RaftIndexRequest::AddNodeAddr(1, "a".to_string())),
        StoreError::NotInitialized
    ));
    assert!(is_error(m.handle(RaftIndexRequest::SaveNodeAddr(vec![])), StoreError::NotInitialized));
    assert!(is_error(
        m.handle(RaftIndexRequest::SaveMember {
            member: vec![],
            member_after_consensus: vec![],
            node_addr: None
        }),
        StoreError::NotInitialized
    ));
    assert!(is_error(m.write_index(RaftIndexDto {
        current_term: 0,
        voted_for: 0,
        member: vec![],
        member_after_consensus: vec![],
        node_addrs: vec![],
        logs: vec![],
        snapshots: vec![],
    }), StoreError::NotInitialized));
}

#[test]
fn requests_after_a_failure_are_io_errors() {
    let mut m = ready();
    m.fail();
    assert!(is_error(m.handle(RaftIndexRequest::LoadIndexInfo), StoreError::Io));
    assert!(is_error(m.handle(RaftIndexRequest::SaveLastAppliedLog(1)), StoreError::Io));
    assert!(is_error(
        m.handle(RaftIndexRequest::SaveHardState { current_term: 1, voted_for: 1 }),
        StoreError::Io
    ));
    assert_eq!(m.init(&[]), Err(StoreError::Io));
    let mut never_started = RaftIndexManager::new("d".to_string());
    never_started.fail();
    assert!(is_error(never_started.handle(RaftIndexRequest::LoadMember), StoreError::Io));
}

#[test]
fn init_twice_is_refused() {
    let mut m = ready();
    assert!(is_empty_answer(m.handle(RaftIndexRequest::SaveLastAppliedLog(4))));
    assert_eq!(m.init(&[]), Err(StoreError::InvariantViolation));
    assert_eq!(info(&mut m).1, 4);
}

#[test]
fn hard_state_is_saved_and_loaded() {
    let mut m = ready();
    assert!(is_empty_answer(m.handle(RaftIndexRequest::SaveHardState { current_term: 5, voted_for: 2 })));
    assert!(matches!(
        m.handle(RaftIndexRequest::LoadHardState),
        Ok(RaftIndexResponse::HardState { current_term: 5, voted_for: 2 })
    ));
}

#[test]
fn hard_state_term_does_not_fall() {
    let mut m = ready();
    assert!(is_empty_answer(m.handle(RaftIndexRequest::SaveHardState { current_term: 5, voted_for: 2 })));
    assert!(is_error(
        m.handle(RaftIndexRequest::SaveHardState { current_term: 4, voted_for: 0 }),
        StoreError::InvariantViolation
    ));
    assert!(matches!(
        m.handle(RaftIndexRequest::LoadHardState),
        Ok(RaftIndexResponse::HardState { current_term: 5, voted_for: 2 })
    ));
    assert!(is_empty_answer(m.handle(RaftIndexRequest::SaveHardState { current_term: 5, voted_for: 3 })));
    assert!(is_empty_answer(m.write_hard_state(6, 1)));
    assert!(matches!(
        m.load_hard_state(),
        Ok(RaftIndexResponse::HardState { current_term: 6, voted_for: 1 })
    ));
}

#[test]
fn write_index_does_not_lower_the_term() {
    let mut m = ready();
    assert!(is_empty_answer(m.write_hard_state(3, 1)));
    let (mut c, _) = info(&mut m);
    c.current_term = 2;
    assert!(is_error(m.write_index(c), StoreError::InvariantViolation));
    let (mut d, _) = info(&mut m);
    assert_eq!(d.current_term, 3);
    d.current_term = 9;
    d.voted_for = 4;
    assert!(is_empty_answer(m.write_index(d)));
    assert_eq!(info(&mut m).0.current_term, 9);
}

#[test]
fn last_applied_log_is_saved_in_the_first_eight_bytes() {
    let mut m = ready();
    let before = m.file_image().unwrap().clone();
    assert!(is_empty_answer(m.handle(RaftIndexRequest::SaveLastAppliedLog(0x0102))));
    let after = m.file_image().unwrap().clone();
    assert_eq!(&after[..8], &[0u8, 0, 0, 0, 0, 0, 1, 2]);
    assert_eq!(&after[8..], &before[8..]);
    assert_eq!(info(&mut m).1, 0x0102);
}

#[test]
fn last_applied_log_does_not_fall() {
    let mut m = ready();
    assert!(is_empty_answer(m.write_last_applied_log(10)));
    assert!(is_error(m.write_last_applied_log(9), StoreError::InvariantViolation));
    assert_eq!(info(&mut m).1, 10);
    assert!(is_empty_answer(m.write_last_applied_log(10)));
    assert!(is_empty_answer(m.write_last_applied_log(u64::MAX)));
    assert_eq!(info(&mut m).1, u64::MAX);
}

#[test]
fn restart_loads_what_was_saved() {
    let mut m = ready();
    assert!(is_empty_answer(m.write_hard_state(5, 2)));
    assert!(is_empty_answer(m.write_member(vec![1, 2, 3], vec![2, 3], Some(vec![
        NodeAddr { id: 1, addr: "a:1".to_string() },
        NodeAddr { id: 2, addr: "b:2".to_string() },
    ]))));
    assert!(is_empty_answer(m.write_logs(vec![seg(0, 0, 100, true), seg(1, 100, 3, false)])));
    assert!(is_empty_answer(m.write_snapshots(vec![SnapshotRange {
        id: 0,
        last_included_index: 50,
        last_included_term: 2
    }])));
    assert!(is_empty_answer(m.write_last_applied_log(77)));
    let file = m.file_image().unwrap().clone();
    let (saved, applied) = info(&mut m);

    let mut again = RaftIndexManager::new("data".to_string());
    assert_eq!(again.init(&file), Ok(()));
    let (loaded, loaded_applied) = info(&mut again);
    assert_eq!(loaded_applied, applied);
    assert_eq!(loaded_applied, 77);
    assert_eq!(loaded.current_term, saved.current_term);
    assert_eq!(loaded.voted_for, saved.voted_for);
    assert_eq!(loaded.member, vec![1, 2, 3]);
    assert_eq!(loaded.member_after_consensus, vec![2, 3]);
    assert_eq!(loaded.node_addrs.len(), 2);
    assert_eq!(loaded.node_addrs[1].addr, "b:2");
    assert_eq!(loaded.logs, saved.logs);
    assert_eq!(loaded.snapshots, saved.snapshots);
    assert_eq!(again.file_image().unwrap(), &file);
}

#[test]
fn crash_while_saving_last_applied_log_loads_old_or_new() {
    let mut m = ready();
    assert!(is_empty_answer(m.write_hard_state(2, 1)));
    assert!(is_empty_answer(m.write_last_applied_log(7)));
    let before = m.file_image().unwrap().clone();
    assert!(is_empty_answer(m.write_last_applied_log(9)));
    let after = m.file_image().unwrap().clone();
    for (file, expected) in [(before, 7u64), (after, 9u64)] {
        let inner = RaftIndexInnerManager::init(&file).ok().unwrap();
        assert_eq!(inner.last_applied(), expected);
        assert_eq!(inner.raft_index().current_term, 2);
        assert_eq!(inner.raft_index().logs.len(), 1);
    }
}

#[test]
fn catalog_record_cut_in_half_is_corrupt() {
    let mut m = ready();
    assert!(is_empty_answer(m.write_hard_state(5, 2)));
    let file = m.file_image().unwrap().clone();
    let record_len = file.len() - 8;
    let torn = &file[..8 + record_len / 2];
    let mut again = RaftIndexManager::new("data".to_string());
    assert_eq!(again.init(torn), Err(StoreError::Corrupt));
    assert!(is_error(again.handle(RaftIndexRequest::LoadIndexInfo), StoreError::NotInitialized));
    assert!(again.file_image().is_none());
}

#[test]
fn every_cut_of_the_index_file_is_corrupt() {
    let mut m = ready();
    assert!(is_empty_answer(m.write_member(vec![1], vec![], None)));
    let file = m.file_image().unwrap().clone();
    for cut in 1..file.len() {
        assert!(matches!(RaftIndexInnerManager::init(&file[..cut]), Err(StoreError::Corrupt)));
    }
    assert!(RaftIndexInnerManager::init(&file).is_ok());
}

#[test]
fn index_file_with_a_record_that_is_no_catalog_is_corrupt() {
    let file = vec![0u8, 0, 0, 0, 0, 0, 0, 0, 0, 0, 0, 2, 0xff, 0xff];
    assert!(matches!(RaftIndexInnerManager::init(&file), Err(StoreError::Corrupt)));
    let absurd_length = vec![0u8, 0, 0, 0, 0, 0, 0, 0, 0xff, 0, 0, 2, 1, 2];
    assert!(matches!(RaftIndexInnerManager::init(&absurd_length), Err(StoreError::Corrupt)));
}

#[test]
fn index_file_with_an_invalid_catalog_is_corrupt() {
    let mut m = ready();
    assert!(is_empty_answer(m.write_logs(vec![seg(0, 0, 10, true), seg(1, 10, 0, false)])));
    let mut file = m.file_image().unwrap().clone();
    // The second segment starts at 10: make it start at 11.
    let at = file.iter().rposition(|b| *b == 10).unwrap();
    file[at] = 11;
    assert!(matches!(RaftIndexInnerManager::init(&file), Err(StoreError::Corrupt)));
}

#[test]
fn index_file_may_hold_bytes_behind_the_catalog() {
    let m = ready();
    let mut file = m.file_image().unwrap().clone();
    file.extend_from_slice(&[1, 2, 3]);
    let inner = RaftIndexInnerManager::init(&file).ok().unwrap();
    assert_eq!(inner.last_applied(), 0);
    assert_eq!(inner.file_image(), &file);
}

#[test]
fn saving_the_catalog_ends_the_file_behind_it() {
    let m = ready();
    let mut file = m.file_image().unwrap().clone();
    file.extend_from_slice(&[1, 2, 3]);
    let mut inner = RaftIndexInnerManager::init(&file).ok().unwrap();
    let c = inner.raft_index().clone();
    assert_eq!(inner.write_index(c), Ok(()));
    assert_eq!(inner.file_image(), m.file_image().unwrap());
}

#[test]
fn logs_must_be_contiguous() {
    let mut m = ready();
    assert!(is_error(
        m.handle(RaftIndexRequest::SaveLogs(vec![seg(0, 0, 100, true), seg(1, 101, 0, false)])),
        StoreError::InvariantViolation
    ));
    assert!(is_error(
        m.write_logs(vec![seg(0, 0, 100, true), seg(1, 99, 0, false)]),
        StoreError::InvariantViolation
    ));
    assert!(is_error(
        m.write_logs(vec![seg(0, u64::MAX, 1, true), seg(1, 0, 0, false)]),
        StoreError::InvariantViolation
    ));
    assert_eq!(info(&mut m).0.logs, vec![seg(0, 0, 0, false)]);
}

#[test]
fn only_the_last_segment_may_be_open() {
    let mut m = ready();
    assert!(is_error(
        m.write_logs(vec![seg(0, 0, 100, false), seg(1, 100, 0, false)]),
        StoreError::InvariantViolation
    ));
    assert!(is_empty_answer(m.write_logs(vec![seg(0, 0, 100, true), seg(1, 100, 0, true)])));
    assert!(is_empty_answer(m.write_logs(vec![])));
}

#[test]
fn rotation_lists_the_sealed_and_the_new_segment() {
    let mut m = ready();
    assert!(is_empty_answer(m.write_logs(vec![seg(0, 0, 100, false)])));
    let new_segment =
        LogRange { id: 1, start_index: 100, pre_term: 3, record_count: 0, is_close: false, mark_remove: false };
    assert!(is_empty_answer(m.write_logs(vec![seg(0, 0, 100, true), new_segment])));
    assert_eq!(info(&mut m).0.logs, vec![seg(0, 0, 100, true), new_segment]);
}

#[test]
fn snapshot_compaction_marks_and_then_drops_the_segment() {
    let mut m = ready();
    assert!(is_empty_answer(m.write_logs(vec![seg(0, 0, 100, true), seg(1, 100, 0, false)])));
    assert!(is_empty_answer(m.write_snapshots(vec![SnapshotRange {
        id: 0,
        last_included_index: 99,
        last_included_term: 3
    }])));
    let marked = LogRange { mark_remove: true, ..seg(0, 0, 100, true) };
    assert!(is_empty_answer(m.write_logs(vec![marked, seg(1, 100, 0, false)])));
    // A crash here is benign: the restart finds the same catalog.
    let file = m.file_image().unwrap().clone();
    let mut again = RaftIndexManager::new("data".to_string());
    assert_eq!(again.init(&file), Ok(()));
    assert_eq!(info(&mut again).0.logs, vec![marked, seg(1, 100, 0, false)]);
    // After the file of the segment is deleted the catalog drops it.
    assert!(is_empty_answer(again.write_logs(vec![seg(1, 100, 0, false)])));
    assert_eq!(info(&mut again).0.logs, vec![seg(1, 100, 0, false)]);
}

#[test]
fn segments_must_stand_behind_the_newest_snapshot() {
    let mut m = ready();
    assert!(is_empty_answer(m.write_logs(vec![seg(0, 0, 100, true), seg(1, 100, 0, false)])));
    assert!(is_empty_answer(m.write_snapshots(vec![
        SnapshotRange { id: 0, last_included_index: 10, last_included_term: 1 },
        SnapshotRange { id: 1, last_included_index: 99, last_included_term: 3 },
    ])));
    assert!(is_error(
        m.write_logs(vec![seg(0, 0, 100, true), seg(1, 100, 0, false)]),
        StoreError::InvariantViolation
    ));
    assert!(is_error(m.write_logs(vec![seg(1, 99, 5, false)]), StoreError::InvariantViolation));
    assert!(is_empty_answer(m.write_logs(vec![seg(1, 100, 5, false)])));
}

#[test]
fn member_is_saved_with_or_without_addresses() {
    let mut m = ready();
    assert!(is_empty_answer(m.handle(RaftIndexRequest::SaveMember {
        member: vec![1, 2],
        member_after_consensus: vec![1, 2, 3],
        node_addr: Some(vec![NodeAddr { id: 1, addr: "a".to_string() }]),
    })));
    assert!(is_empty_answer(m.handle(RaftIndexRequest::SaveMember {
        member: vec![3],
        member_after_consensus: vec![],
        node_addr: None,
    })));
    match m.handle(RaftIndexRequest::LoadMember) {
        Ok(RaftIndexResponse::MemberShip { member, member_after_consensus, node_addrs }) => {
            assert_eq!(member, vec![3]);
            assert!(member_after_consensus.is_empty());
            assert_eq!(node_addrs.len(), 1);
            assert_eq!(node_addrs[0].id, 1);
            assert_eq!(node_addrs[0].addr, "a");
        }
        other => panic!("unexpected answer: {:?}", other),
    }
}

#[test]
fn member_with_a_node_that_has_two_addresses_changes_nothing() {
    let mut m = ready();
    assert!(is_empty_answer(m.write_member(vec![1], vec![], None)));
    assert!(is_error(
        m.write_member(
            vec![7, 8],
            vec![9],
            Some(vec![
                NodeAddr { id: 1, addr: "a".to_string() },
                NodeAddr { id: 1, addr: "b".to_string() },
            ])
        ),
        StoreError::InvariantViolation
    ));
    let (c, _) = info(&mut m);
    assert_eq!(c.member, vec![1]);
    assert!(c.member_after_consensus.is_empty());
    assert!(c.node_addrs.is_empty());
}

#[test]
fn node_addresses_are_replaced_and_found() {
    let mut m = ready();
    assert!(is_empty_answer(m.handle(RaftIndexRequest::SaveNodeAddr(vec![
        NodeAddr { id: 1, addr: "a:1".to_string() },
        NodeAddr { id: 2, addr: "b:2".to_string() },
    ]))));
    assert!(matches!(
        m.handle(RaftIndexRequest::GetTargetAddr(2)),
        Ok(RaftIndexResponse::TargetAddr(Some(a))) if a == "b:2"
    ));
    assert!(matches!(
        m.handle(RaftIndexRequest::GetTargetAddr(3)),
        Ok(RaftIndexResponse::TargetAddr(None))
    ));
    assert!(is_empty_answer(m.write_node_addr(vec![NodeAddr { id: 3, addr: "c:3".to_string() }])));
    assert!(matches!(m.get_target_addr(2), Ok(RaftIndexResponse::TargetAddr(None))));
    assert!(matches!(m.get_target_addr(3), Ok(RaftIndexResponse::TargetAddr(Some(a))) if a == "c:3"));
    assert!(is_error(
        m.write_node_addr(vec![
            NodeAddr { id: 4, addr: "x".to_string() },
            NodeAddr { id: 5, addr: "y".to_string() },
            NodeAddr { id: 4, addr: "z".to_string() },
        ]),
        StoreError::InvariantViolation
    ));
    assert!(matches!(m.get_target_addr(3), Ok(RaftIndexResponse::TargetAddr(Some(a))) if a == "c:3"));
}

#[test]
fn node_address_is_added_or_updated() {
    let mut m = ready();
    assert!(is_empty_answer(m.handle(RaftIndexRequest::AddNodeAddr(1, "a:1".to_string()))));
    assert!(is_empty_answer(m.handle(RaftIndexRequest::AddNodeAddr(2, "b:2".to_string()))));
    assert!(is_empty_answer(m.add_node_addr(1, "a:9".to_string())));
    let (c, _) = info(&mut m);
    assert_eq!(c.node_addrs.len(), 2);
    assert_eq!((c.node_addrs[0].id, c.node_addrs[0].addr.as_str()), (1, "a:9"));
    assert_eq!((c.node_addrs[1].id, c.node_addrs[1].addr.as_str()), (2, "b:2"));
    assert!(matches!(m.get_target_addr(1), Ok(RaftIndexResponse::TargetAddr(Some(a))) if a == "a:9"));
}

#[test]
fn snapshots_are_replaced() {
    let mut m = ready();
    let s = vec![SnapshotRange { id: 4, last_included_index: 0, last_included_term: 0 }];
    assert!(is_empty_answer(m.handle(RaftIndexRequest::SaveSnapshots(s.clone()))));
    assert_eq!(info(&mut m).0.snapshots, s);
    assert!(is_empty_answer(m.write_snapshots(vec![])));
    assert!(info(&mut m).0.snapshots.is_empty());
}

#[test]
fn load_index_info_hands_out_a_copy() {
    let mut m = ready();
    let (mut c, _) = info(&mut m);
    c.current_term = 99;
    c.logs.clear();
    let (d, _) = info(&mut m);
    assert_eq!(d.current_term, 0);
    assert_eq!(d.logs.len(), 1);
    assert!(matches!(
        m.load_index_info(),
        Ok(RaftIndexResponse::RaftIndexInfo { last_applied_log: 0, .. })
    ));
    assert!(matches!(m.load_member(), Ok(RaftIndexResponse::MemberShip { .. })));
}

#[test]
fn term_does_not_fall_whatever_is_asked_between() {
    let mut m = ready();
    assert!(is_empty_answer(m.write_hard_state(3, 1)));
    assert!(is_empty_answer(m.write_logs(vec![seg(0, 0, 10, true), seg(1, 10, 0, false)])));
    assert!(is_empty_answer(m.add_node_addr(1, "a".to_string())));
    assert!(is_error(m.write_hard_state(2, 1), StoreError::InvariantViolation));
    assert!(is_empty_answer(m.write_member(vec![1], vec![], None)));
    assert!(is_empty_answer(m.write_last_applied_log(5)));
    assert!(is_empty_answer(m.write_snapshots(vec![])));
    assert!(matches!(
        m.load_hard_state(),
        Ok(RaftIndexResponse::HardState { current_term: 3, voted_for: 1 })
    ));
    assert!(is_empty_answer(m.write_hard_state(3, 2)));
    assert!(is_empty_answer(m.write_hard_state(8, 2)));
    let file = m.file_image().unwrap().clone();
    let mut again = RaftIndexManager::new("data".to_string());
    assert_eq!(again.init(&file), Ok(()));
    assert!(is_error(again.write_hard_state(7, 0), StoreError::InvariantViolation));
    assert!(is_empty_answer(again.write_hard_state(8, 0)));
}

#[test]
fn refused_request_leaves_the_file_as_it_is() {
    let mut m = ready();
    assert!(is_empty_answer(m.write_hard_state(3, 1)));
    let before = m.file_image().unwrap().clone();
    assert!(is_error(m.write_hard_state(1, 1), StoreError::InvariantViolation));
    assert!(is_error(m.write_last_applied_log(0).and(m.write_logs(vec![seg(0, 0, 1, false), seg(1, 5, 0, false)])), StoreError::InvariantViolation));
    assert!(matches!(m.load_member(), Ok(_)));
    assert_eq!(m.file_image().unwrap(), &before);
}

#[test]
fn granted_save_puts_the_new_record_behind_the_first_eight_bytes() {
    let mut m = ready();
    assert!(is_empty_answer(m.write_last_applied_log(3)));
    let before = m.file_image().unwrap().clone();
    assert!(is_empty_answer(m.write_hard_state(300, 1)));
    let after = m.file_image().unwrap().clone();
    assert_eq!(&after[..8], &before[..8]);
    let (c, _) = info(&mut m);
    let record = raftstore::catalog::encode_catalog(&c);
    assert_eq!(&after[8..12], &(record.len() as u32).to_be_bytes());
    assert_eq!(&after[12..], &record[..]);
}
