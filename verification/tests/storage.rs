use panda::raft::storage::{
    decimal_string, delete_range_keys, log_key, parse_key, parse_u64, Panda, PandaStorage, RangeIter,
};
use panda::raft::{Entry, EntryPayload, HardState, InitialState, MembershipConfig};

fn blank(index: u64, term: u64) -> Entry {
    Entry { term, index, payload: EntryPayload::Blank }
}

fn config(index: u64, members: Vec<u64>) -> Entry {
    Entry {
        term: 1,
        index,
        payload: EntryPayload::ConfigChange(MembershipConfig { members, members_after_consensus: None }),
    }
}

#[test]
fn log_keys_are_big_endian() {
    assert_eq!(log_key(1), vec![0, 0, 0, 0, 0, 0, 0, 1]);
    assert_eq!(log_key(0x0102030405060708), vec![1, 2, 3, 4, 5, 6, 7, 8]);
    assert!(log_key(255) < log_key(256));
}

#[test]
fn stored_keys_read_back_as_their_index() {
    assert_eq!(parse_key(&[0, 0, 0, 0, 0, 0, 0, 1]), 1);
    assert_eq!(parse_key(&[1, 0, 0, 0, 0, 0, 0, 0]), 1u64 << 56);
    assert_eq!(parse_key(&[0, 0, 0, 0, 0, 0, 1, 2]), 258);
    for i in [0u64, 1, 2, 255, 256, 1 << 40, u64::MAX] {
        assert_eq!(parse_key(&log_key(i)), i);
    }
}

#[test]
fn delete_range_defaults_to_the_end_of_the_log() {
    let (from, to) = delete_range_keys(3, None);
    assert_eq!(from, log_key(3));
    assert_eq!(to, vec![0xff; 8]);
    let (_, to) = delete_range_keys(3, Some(9));
    assert_eq!(to, log_key(9));
}

#[test]
fn range_scan_stops_at_the_end_key() {
    let range = RangeIter { end: 5 };
    assert_eq!(range.next_item(Some((4u64, "a"))), Some((4, "a")));
    assert_eq!(range.next_item(Some((5u64, "b"))), None);
    assert_eq!(range.next_item::<&str>(None), None);
}

#[test]
fn a_whole_scan_yields_the_items_below_the_end_key() {
    let range = RangeIter { end: 7 };
    let mut source = vec![(3u64, 'a'), (5, 'b'), (6, 'c'), (7, 'd'), (2, 'e')].into_iter();
    let mut out = Vec::new();
    while let Some(item) = range.next_item(source.next()) {
        out.push(item);
    }
    assert_eq!(out, vec![(3, 'a'), (5, 'b'), (6, 'c')]);
}

#[test]
fn snapshot_ids_count_up_in_decimal() {
    let mut storage = PandaStorage::new(7);
    assert_eq!(storage.next_snapshot_id(), "0");
    assert_eq!(storage.next_snapshot_id(), "1");
    assert_eq!(decimal_string(1234567890), "1234567890");
    assert_eq!(decimal_string(u64::MAX), "18446744073709551615");
}

#[test]
fn snapshot_ids_parse_as_u64() {
    assert_eq!(parse_u64("42"), Some(42));
    assert_eq!(parse_u64("+42"), Some(42));
    assert_eq!(parse_u64("18446744073709551615"), Some(u64::MAX));
    assert_eq!(parse_u64("18446744073709551616"), None);
    assert_eq!(parse_u64(""), None);
    assert_eq!(parse_u64("+"), None);
    assert_eq!(parse_u64("-1"), None);
    assert_eq!(parse_u64("4a"), None);
    for s in ["0", "7", "123", "18446744073709551615"] {
        assert_eq!(s.parse::<u64>().ok(), parse_u64(s));
    }
}

#[test]
fn membership_comes_from_the_first_entry_that_records_one() {
    let storage = PandaStorage::new(7);
    let entries = vec![blank(5, 2), config(4, vec![1, 2]), config(3, vec![9])];
    assert_eq!(storage.find_membership_config_from(&entries).members, vec![1, 2]);
    let none = vec![blank(2, 1)];
    let m = storage.find_membership_config_from(&none);
    assert_eq!(m.members, vec![7]);
    assert!(m.members_after_consensus.is_none());
}

#[test]
fn initial_state_of_a_pristine_node_records_a_vote() {
    let storage = PandaStorage::new(3);
    let membership = MembershipConfig::new_initial(3);
    let (state, save) = storage.get_initial_state(membership, None, None);
    assert_eq!(save, Some(HardState { current_term: 0, voted_for: None }));
    assert_eq!(state.last_log_index, 0);
    assert_eq!(state.membership.members, vec![3]);
}

#[test]
fn initial_state_resumes_from_the_last_entry() {
    let storage = PandaStorage::new(3);
    let hs = HardState { current_term: 4, voted_for: Some(2) };
    let last = blank(10, 4);
    let membership = MembershipConfig { members: vec![1, 2, 3], members_after_consensus: None };
    let (state, save): (InitialState, _) = storage.get_initial_state(membership, Some(hs), Some(&last));
    assert_eq!(save, None);
    assert_eq!((state.last_log_index, state.last_log_term, state.last_applied_log), (10, 4, 0));
    assert_eq!(state.hard_state, hs);
    assert_eq!(state.membership.members, vec![1, 2, 3]);
}

#[test]
fn compaction_snapshot_covers_the_applied_log() {
    let mut storage = PandaStorage::new(1);
    storage.set_panda(Panda { last_applied_log: 3 });
    let newest_first = vec![config(5, vec![5]), blank(4, 2), blank(3, 2), config(2, vec![1, 2])];
    let snapshot = storage.do_log_compaction(&blank(3, 2), &newest_first);
    assert_eq!((snapshot.index, snapshot.term), (3, 2));
    assert_eq!(snapshot.membership.members, vec![1, 2]);
    assert_eq!(snapshot.panda.last_applied_log, 3);
}

#[test]
fn installing_a_snapshot_activates_it() {
    let mut storage = PandaStorage::new(1);
    assert_eq!(storage.active_snapshot_path(), None);
    let newest_first = vec![config(9, vec![9]), config(6, vec![1, 6])];
    let install = storage.finalize_snapshot_installation(8, 3, Some(8), "12".to_owned(), &newest_first);
    assert_eq!(storage.active_snapshot_path(), Some("/tmp/panda/snapshots-12".to_owned()));
    assert_eq!(install.pointer_key, log_key(8));
    assert_eq!(install.delete_from, log_key(0));
    assert_eq!(install.delete_to, log_key(8));
    assert_eq!((install.pointer.index, install.pointer.term), (8, 3));
    match install.pointer.payload {
        EntryPayload::SnapshotPointer { id, membership } => {
            assert_eq!(id, "12");
            assert_eq!(membership.members, vec![1, 6]);
        }
        _ => panic!("expected a snapshot pointer"),
    }
}

#[test]
fn snapshot_ids_read_back_as_their_counter() {
    for n in [0u64, 9, 10, 99, 100, 4_294_967_296, u64::MAX] {
        assert_eq!(parse_u64(&decimal_string(n)), Some(n));
    }
}

#[test]
fn deleted_range_covers_exactly_the_indexes_in_between() {
    let (from, to) = delete_range_keys(10, Some(20));
    for i in [0u64, 9, 10, 15, 19, 20, 300, u64::MAX] {
        let k = log_key(i);
        let deleted = k >= from && k < to;
        assert_eq!(deleted, (10..20).contains(&i), "index {}", i);
    }
    let (from, to) = delete_range_keys(0, None);
    assert!(log_key(u64::MAX) >= to && log_key(0) >= from);
}

#[test]
fn snapshot_pointer_below_the_deletion_end_is_deleted() {
    let mut storage = PandaStorage::new(1);
    let install = storage.finalize_snapshot_installation(5, 1, Some(9), "3".to_owned(), &[]);
    assert!(install.pointer_key >= install.delete_from && install.pointer_key < install.delete_to);
    let install = storage.finalize_snapshot_installation(9, 1, Some(9), "4".to_owned(), &[]);
    assert!(install.pointer_key >= install.delete_to);
}
