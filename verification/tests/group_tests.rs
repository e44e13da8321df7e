use grid_mirror::group::Member;
use grid_mirror::key::EntityKey;
use grid_mirror::record::{MirrorError, OPEN_SENTINEL};
use grid_mirror::store::{RecordId, VersionStore};

fn members(names: &[&str]) -> Vec<Member<u32>> {
    names.iter().enumerate().map(|(i, n)| Member { name: n.to_string(), attrs: i as u32 }).collect()
}

fn open_names(store: &VersionStore<u32>) -> Vec<(String, String, i64)> {
    let mut found = Vec::new();
    for i in 0..store.len() {
        let r = store.get(RecordId(i)).unwrap();
        if r.is_open() {
            found.push((r.key.scope.clone(), r.key.name.clone(), r.start_block));
        }
    }
    found
}

#[test]
fn replace_scope_closes_all_children_and_opens_the_named_ones() {
    let mut store: VersionStore<u32> = VersionStore::new();
    assert_eq!(store.replace_scope("p", &None, 10, members(&["a", "b"])), Ok(()));
    assert_eq!(store.replace_scope("q", &None, 11, members(&["a"])), Ok(()));
    assert_eq!(store.replace_scope("p", &None, 20, members(&["b", "c"])), Ok(()));
    assert_eq!(store.len(), 5);
    assert_eq!(store.get(RecordId(0)).unwrap().end_block, 20);
    assert_eq!(store.get(RecordId(1)).unwrap().end_block, 20);
    assert_eq!(store.get(RecordId(2)).unwrap().end_block, OPEN_SENTINEL);
    assert_eq!(
        open_names(&store),
        vec![
            ("q".to_string(), "a".to_string(), 11),
            ("p".to_string(), "b".to_string(), 20),
            ("p".to_string(), "c".to_string(), 20),
        ]
    );
    assert_eq!(store.get(RecordId(3)).unwrap().payload, 0);
    assert_eq!(store.get(RecordId(4)).unwrap().payload, 1);
}

#[test]
fn replace_scope_keeps_partitions_apart() {
    let mut store: VersionStore<u32> = VersionStore::new();
    let east = Some("east".to_string());
    assert_eq!(store.replace_scope("p", &None, 10, members(&["a"])), Ok(()));
    assert_eq!(store.replace_scope("p", &east, 12, members(&["a"])), Ok(()));
    assert_eq!(store.replace_scope("p", &east, 15, members(&[])), Ok(()));
    assert!(store.read_current(&EntityKey::child("p", "a"), &None).is_some());
    assert!(store.read_current(&EntityKey::child("p", "a"), &east).is_none());
}

#[test]
fn replace_scope_fails_as_a_whole_when_a_child_cannot_be_closed() {
    let mut store: VersionStore<u32> = VersionStore::new();
    assert_eq!(store.replace_scope("p", &None, 10, members(&["a"])), Ok(()));
    assert!(store.open(EntityKey::child("p", "late"), None, 30, 9).is_ok());
    assert_eq!(
        store.check_replace_scope("p", &None, 30, &members(&["x"])),
        Err(MirrorError::InvalidRange)
    );
    assert_eq!(store.replace_scope("p", &None, 30, members(&["x"])), Err(MirrorError::InvalidRange));
    assert_eq!(store.replace_scope("p", &None, 20, members(&["x"])), Err(MirrorError::InvalidRange));
    assert_eq!(
        store.replace_scope("p", &None, OPEN_SENTINEL, members(&[])),
        Err(MirrorError::InvalidRange)
    );
    assert_eq!(store.len(), 2);
    assert_eq!(store.get(RecordId(0)).unwrap().end_block, OPEN_SENTINEL);
    assert_eq!(store.check_replace_scope("p", &None, 31, &members(&["x"])), Ok(()));
}

#[test]
fn replace_scope_refuses_to_overlap_a_closed_child() {
    let mut store: VersionStore<u32> = VersionStore::new();
    assert!(store.open(EntityKey::child("p", "a"), None, 10, 1).is_ok());
    assert_eq!(store.close(&EntityKey::child("p", "a"), &None, 40), Ok(()));
    assert_eq!(store.replace_scope("p", &None, 30, members(&["a"])), Err(MirrorError::InvalidRange));
    assert_eq!(store.replace_scope("p", &None, 30, members(&["b"])), Ok(()));
    assert_eq!(store.replace_scope("p", &None, 40, members(&["a"])), Ok(()));
}

#[test]
fn replace_scope_refuses_a_name_that_is_given_twice() {
    let mut store: VersionStore<u32> = VersionStore::new();
    assert_eq!(store.replace_scope("p", &None, 10, members(&["a"])), Ok(()));
    assert_eq!(store.replace_scope("p", &None, 20, members(&["b", "c", "b"])), Err(MirrorError::Conflict));
    assert_eq!(open_names(&store), vec![("p".to_string(), "a".to_string(), 10)]);
}

#[test]
fn a_change_of_children_is_stale_while_one_of_them_is_newer() {
    let mut store: VersionStore<u32> = VersionStore::new();
    assert!(!store.scope_is_stale("p", &None, 10));
    assert_eq!(store.replace_scope("p", &None, 10, members(&["a", "b"])), Ok(()));
    assert!(store.scope_is_stale("p", &None, 10));
    assert!(store.scope_is_stale("p", &None, 3));
    assert!(!store.scope_is_stale("p", &None, 11));
    assert!(!store.scope_is_stale("q", &None, 10));
    assert!(!store.scope_is_stale("p", &Some("east".to_string()), 10));
    assert_eq!(store.replace_scope("p", &None, 20, members(&[])), Ok(()));
    assert!(!store.scope_is_stale("p", &None, 10));
}
