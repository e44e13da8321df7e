use grid_mirror::key::EntityKey;
use grid_mirror::record::{MirrorError, OPEN_SENTINEL};
use grid_mirror::store::{RecordId, VersionStore};

fn key(name: &str) -> EntityKey {
    EntityKey::top(name)
}

#[test]
fn open_returns_the_position_of_the_new_version() {
    let mut store: VersionStore<String> = VersionStore::new();
    assert_eq!(store.open(key("a"), None, 1, "first".to_string()), Ok(RecordId(0)));
    assert_eq!(store.open(key("b"), None, 1, "second".to_string()), Ok(RecordId(1)));
    assert_eq!(store.len(), 2);
    let record = store.get(RecordId(1)).unwrap();
    assert_eq!(record.key.name, "b");
    assert_eq!(record.start_block, 1);
    assert_eq!(record.end_block, OPEN_SENTINEL);
    assert_eq!(record.payload, "second");
    assert!(store.get(RecordId(2)).is_none());
}

#[test]
fn open_conflicts_with_an_open_version() {
    let mut store: VersionStore<u32> = VersionStore::new();
    assert!(store.open(key("a"), None, 10, 1).is_ok());
    assert_eq!(store.open(key("a"), None, 20, 2), Err(MirrorError::Conflict));
    assert_eq!(store.len(), 1);
    assert_eq!(store.read_current(&key("a"), &None).unwrap().payload, 1);
}

#[test]
fn open_is_kept_apart_by_partition() {
    let mut store: VersionStore<u32> = VersionStore::new();
    assert!(store.open(key("a"), None, 10, 1).is_ok());
    assert!(store.open(key("a"), Some("east".to_string()), 10, 2).is_ok());
    assert!(store.open(key("a"), Some("west".to_string()), 10, 3).is_ok());
    assert_eq!(store.read_current(&key("a"), &None).unwrap().payload, 1);
    assert_eq!(store.read_current(&key("a"), &Some("east".to_string())).unwrap().payload, 2);
    assert_eq!(store.read_current(&key("a"), &Some("west".to_string())).unwrap().payload, 3);
    assert!(store.read_current(&key("a"), &Some("north".to_string())).is_none());
}

#[test]
fn open_refuses_to_overlap_a_closed_version() {
    let mut store: VersionStore<u32> = VersionStore::new();
    assert!(store.open(key("a"), None, 10, 1).is_ok());
    assert_eq!(store.close(&key("a"), &None, 20), Ok(()));
    assert_eq!(store.open(key("a"), None, 15, 2), Err(MirrorError::InvalidRange));
    assert_eq!(store.open(key("a"), None, 19, 2), Err(MirrorError::InvalidRange));
    assert_eq!(store.len(), 1);
    assert_eq!(store.open(key("a"), None, 20, 2), Ok(RecordId(1)));
}

#[test]
fn close_without_an_open_version_is_not_found() {
    let mut store: VersionStore<u32> = VersionStore::new();
    assert_eq!(store.close(&key("a"), &None, 5), Err(MirrorError::NotFound));
    assert!(store.open(key("a"), None, 1, 1).is_ok());
    assert_eq!(store.close(&key("a"), &None, 5), Ok(()));
    assert_eq!(store.close(&key("a"), &None, 9), Err(MirrorError::NotFound));
}

#[test]
fn close_at_or_before_the_start_is_an_invalid_range() {
    let mut store: VersionStore<u32> = VersionStore::new();
    assert!(store.open(key("a"), None, 10, 1).is_ok());
    assert_eq!(store.close(&key("a"), &None, 10), Err(MirrorError::InvalidRange));
    assert_eq!(store.close(&key("a"), &None, 9), Err(MirrorError::InvalidRange));
    assert_eq!(store.read_current(&key("a"), &None).unwrap().end_block, OPEN_SENTINEL);
    assert_eq!(store.close(&key("a"), &None, 11), Ok(()));
    assert_eq!(store.get(RecordId(0)).unwrap().end_block, 11);
}

#[test]
fn close_at_the_reserved_block_is_an_invalid_range() {
    let mut store: VersionStore<u32> = VersionStore::new();
    assert!(store.open(key("a"), None, 10, 1).is_ok());
    assert_eq!(store.close(&key("a"), &None, OPEN_SENTINEL), Err(MirrorError::InvalidRange));
    assert!(store.read_current(&key("a"), &None).is_some());
}

#[test]
fn read_current_is_empty_for_unknown_and_closed_entities() {
    let mut store: VersionStore<u32> = VersionStore::new();
    assert!(store.read_current(&key("a"), &None).is_none());
    assert!(store.open(key("a"), None, 1, 7).is_ok());
    assert_eq!(store.read_current(&key("a"), &None).unwrap().payload, 7);
    assert_eq!(store.close(&key("a"), &None, 2), Ok(()));
    assert!(store.read_current(&key("a"), &None).is_none());
}

#[test]
fn round_trip_open_close_read_as_of() {
    let mut store: VersionStore<String> = VersionStore::new();
    assert!(store.open(key("k"), None, 7, "payload".to_string()).is_ok());
    assert_eq!(store.close(&key("k"), &None, 12), Ok(()));
    let record = store.read_as_of(&key("k"), &None, 7).unwrap();
    assert_eq!(record.payload, "payload");
    assert_eq!(record.start_block, 7);
    assert_eq!(record.end_block, 12);
}

#[test]
fn read_as_of_takes_the_start_in_and_leaves_the_end_out() {
    let mut store: VersionStore<u32> = VersionStore::new();
    assert!(store.open(key("k"), None, 10, 1).is_ok());
    assert!(store.supersede(key("k"), None, 20, 2).is_ok());
    assert!(store.read_as_of(&key("k"), &None, 9).is_none());
    assert_eq!(store.read_as_of(&key("k"), &None, 10).unwrap().payload, 1);
    assert_eq!(store.read_as_of(&key("k"), &None, 19).unwrap().payload, 1);
    assert_eq!(store.read_as_of(&key("k"), &None, 20).unwrap().payload, 2);
    assert_eq!(store.read_as_of(&key("k"), &None, i64::MAX).unwrap().payload, 2);
    assert!(store.read_as_of(&key("other"), &None, 15).is_none());
}

#[test]
fn supersede_closes_and_opens_at_one_block() {
    let mut store: VersionStore<u32> = VersionStore::new();
    assert_eq!(store.supersede(key("k"), None, 5, 1), Ok(RecordId(0)));
    assert_eq!(store.supersede(key("k"), None, 9, 2), Ok(RecordId(1)));
    assert_eq!(store.get(RecordId(0)).unwrap().end_block, 9);
    assert_eq!(store.get(RecordId(1)).unwrap().start_block, 9);
    assert_eq!(store.get(RecordId(1)).unwrap().end_block, OPEN_SENTINEL);
}

#[test]
fn supersede_fails_as_a_whole() {
    let mut store: VersionStore<u32> = VersionStore::new();
    assert!(store.supersede(key("k"), None, 5, 1).is_ok());
    assert_eq!(store.check_supersede(&key("k"), &None, 5), Err(MirrorError::InvalidRange));
    assert_eq!(store.supersede(key("k"), None, 5, 2), Err(MirrorError::InvalidRange));
    assert_eq!(store.supersede(key("k"), None, 3, 2), Err(MirrorError::InvalidRange));
    assert_eq!(store.supersede(key("k"), None, OPEN_SENTINEL, 2), Err(MirrorError::InvalidRange));
    assert_eq!(store.len(), 1);
    assert_eq!(store.read_current(&key("k"), &None).unwrap().payload, 1);
    assert_eq!(store.check_supersede(&key("k"), &None, 6), Ok(()));
}

#[test]
fn rollback_removes_the_later_version_and_reopens_the_one_before() {
    let mut store: VersionStore<u32> = VersionStore::new();
    assert!(store.supersede(key("K"), None, 1, 100).is_ok());
    assert!(store.supersede(key("K"), None, 5, 500).is_ok());
    assert!(store.supersede(key("K"), None, 9, 900).is_ok());
    store.rollback_to(9);
    assert_eq!(store.len(), 2);
    let current = store.read_current(&key("K"), &None).unwrap();
    assert_eq!(current.payload, 500);
    assert_eq!(current.start_block, 5);
    assert_eq!(current.end_block, OPEN_SENTINEL);
    let first = store.read_as_of(&key("K"), &None, 1).unwrap();
    assert_eq!(first.payload, 100);
    assert_eq!(first.end_block, 5);
}

#[test]
fn rollback_between_two_versions_reopens_nothing() {
    let mut store: VersionStore<u32> = VersionStore::new();
    assert!(store.supersede(key("K"), None, 1, 100).is_ok());
    assert!(store.supersede(key("K"), None, 5, 500).is_ok());
    assert!(store.supersede(key("K"), None, 9, 900).is_ok());
    store.rollback_to(7);
    assert_eq!(store.len(), 2);
    assert!(store.read_current(&key("K"), &None).is_none());
    assert_eq!(store.get(RecordId(1)).unwrap().end_block, 9);
}

#[test]
fn rollback_touches_every_entity() {
    let mut store: VersionStore<u32> = VersionStore::new();
    assert!(store.supersede(key("a"), None, 1, 1).is_ok());
    assert!(store.supersede(key("b"), None, 2, 2).is_ok());
    assert!(store.supersede(key("a"), None, 4, 3).is_ok());
    assert!(store.supersede(key("b"), None, 4, 4).is_ok());
    assert!(store.supersede(key("c"), None, 6, 5).is_ok());
    store.rollback_to(4);
    assert_eq!(store.len(), 2);
    assert_eq!(store.read_current(&key("a"), &None).unwrap().payload, 1);
    assert_eq!(store.read_current(&key("b"), &None).unwrap().payload, 2);
    assert!(store.read_current(&key("c"), &None).is_none());
}

#[test]
fn rollback_below_everything_empties_the_store() {
    let mut store: VersionStore<u32> = VersionStore::new();
    assert!(store.supersede(key("a"), None, 3, 1).is_ok());
    assert!(store.supersede(key("a"), None, 4, 2).is_ok());
    store.rollback_to(3);
    assert_eq!(store.len(), 0);
}

#[test]
fn at_most_one_version_is_open_after_any_run() {
    let mut store: VersionStore<u32> = VersionStore::new();
    let blocks: Vec<i64> = vec![3, 8, 8, 2, 15, 40, 39, 41];
    for block in blocks {
        let _ = store.supersede(key("k"), None, block, block as u32);
    }
    let mut open = 0;
    for i in 0..store.len() {
        if store.get(RecordId(i)).unwrap().is_open() {
            open += 1;
        }
    }
    assert_eq!(open, 1);
    assert_eq!(store.len(), 5);
    for height in 3..60 {
        assert!(store.read_as_of(&key("k"), &None, height).is_some());
    }
    assert!(store.read_as_of(&key("k"), &None, 2).is_none());
}

#[test]
fn latest_block_is_the_last_start_or_end() {
    let mut store: VersionStore<u32> = VersionStore::new();
    assert_eq!(store.latest_block(), None);
    assert!(store.open(key("a"), None, 4, 1).is_ok());
    assert_eq!(store.latest_block(), Some(4));
    assert!(store.open(key("b"), None, 2, 2).is_ok());
    assert_eq!(store.latest_block(), Some(4));
    assert_eq!(store.close(&key("b"), &None, 9), Ok(()));
    assert_eq!(store.latest_block(), Some(9));
    assert!(store.open(key("c"), None, -3, 3).is_ok());
    assert_eq!(store.latest_block(), Some(9));
}

#[test]
fn rollback_through_reopens_what_was_closed_at_any_block_it_undoes() {
    let mut store: VersionStore<u32> = VersionStore::new();
    assert!(store.supersede(key("K"), None, 1, 100).is_ok());
    assert!(store.supersede(key("K"), None, 5, 500).is_ok());
    assert!(store.supersede(key("K"), None, 9, 900).is_ok());
    assert!(store.supersede(key("L"), None, 6, 600).is_ok());
    assert_eq!(store.close(&key("L"), &None, 8), Ok(()));
    store.rollback_through(7);
    assert_eq!(store.len(), 3);
    let current = store.read_current(&key("K"), &None).unwrap();
    assert_eq!(current.payload, 500);
    assert_eq!(current.end_block, OPEN_SENTINEL);
    assert_eq!(store.read_current(&key("L"), &None).unwrap().payload, 600);
    assert_eq!(store.latest_block(), Some(6));
    assert!(store.supersede(key("K"), None, 7, 700).is_ok());
    store.rollback_through(i64::MIN);
    assert_eq!(store.len(), 0);
    store.rollback_through(i64::MIN);
    assert_eq!(store.len(), 0);
}

#[test]
fn rollback_through_above_everything_changes_nothing() {
    let mut store: VersionStore<u32> = VersionStore::new();
    assert!(store.supersede(key("K"), None, 1, 100).is_ok());
    assert!(store.supersede(key("K"), None, 5, 500).is_ok());
    store.rollback_through(6);
    assert_eq!(store.len(), 2);
    store.rollback_through(i64::MAX);
    assert_eq!(store.len(), 2);
    assert_eq!(store.read_current(&key("K"), &None).unwrap().payload, 500);
}

#[test]
fn a_change_is_stale_at_or_before_the_start_of_the_open_version() {
    let mut store: VersionStore<u32> = VersionStore::new();
    assert!(!store.is_stale(&key("a"), &None, 5));
    assert!(store.open(key("a"), None, 5, 1).is_ok());
    assert!(store.is_stale(&key("a"), &None, 4));
    assert!(store.is_stale(&key("a"), &None, 5));
    assert!(!store.is_stale(&key("a"), &None, 6));
    assert!(!store.is_stale(&key("b"), &None, 5));
    assert!(!store.is_stale(&key("a"), &Some("east".to_string()), 5));
    assert_eq!(store.close(&key("a"), &None, 9), Ok(()));
    assert!(!store.is_stale(&key("a"), &None, 5));
}
