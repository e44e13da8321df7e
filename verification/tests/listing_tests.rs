use grid_mirror::key::EntityKey;
use grid_mirror::listing::PageToken;
use grid_mirror::query::list_current;
use grid_mirror::store::VersionStore;

fn filled(count: usize) -> VersionStore<usize> {
    let mut store: VersionStore<usize> = VersionStore::new();
    // written in an order that is not the order of the keys
    for step in 0..count {
        let n = (step * 7) % count;
        let name = format!("key-{:03}", n);
        assert!(store.open(EntityKey::top(&name), None, 1, n).is_ok());
    }
    store
}

#[test]
fn list_current_over_150_keys_in_pages_of_50() {
    let store = filled(150);
    let mut seen: Vec<String> = Vec::new();
    let mut token = PageToken::start();
    let mut pages = 0;
    loop {
        let (page, next) = store.list_current(&None, &token, 50);
        pages += 1;
        assert_eq!(page.len(), 50);
        for record in page {
            seen.push(record.key.name.clone());
        }
        match next {
            Some(t) => token = t,
            None => break,
        }
    }
    assert_eq!(pages, 3);
    assert_eq!(seen.len(), 150);
    for (i, name) in seen.iter().enumerate() {
        assert_eq!(name, &format!("key-{:03}", i));
    }
}

#[test]
fn list_current_returns_no_token_when_the_page_holds_the_rest() {
    let store = filled(5);
    let (page, next) = store.list_current(&None, &PageToken::start(), 5);
    assert_eq!(page.len(), 5);
    assert!(next.is_none());
    let (page, next) = store.list_current(&None, &PageToken::start(), 10);
    assert_eq!(page.len(), 5);
    assert!(next.is_none());
    let (page, next) = store.list_current(&None, &PageToken::start(), 4);
    assert_eq!(page.len(), 4);
    let (rest, end) = store.list_current(&None, &next.unwrap(), 4);
    assert_eq!(rest.len(), 1);
    assert_eq!(rest[0].key.name, "key-004");
    assert!(end.is_none());
}

#[test]
fn list_current_with_no_room_keeps_its_place() {
    let store = filled(3);
    let (page, next) = store.list_current(&None, &PageToken::start(), 0);
    assert!(page.is_empty());
    let token = next.unwrap();
    assert!(token.last_key().is_none());
    let after = PageToken::after(&EntityKey::top("key-001"));
    let (page, next) = store.list_current(&None, &after, 0);
    assert!(page.is_empty());
    assert_eq!(next.unwrap().last_key().unwrap().name, "key-001");
    let last = PageToken::after(&EntityKey::top("key-002"));
    let (page, next) = store.list_current(&None, &last, 0);
    assert!(page.is_empty());
    assert!(next.is_none());
}

#[test]
fn list_current_of_an_empty_store_is_empty() {
    let store: VersionStore<u8> = VersionStore::new();
    let (page, next) = store.list_current(&None, &PageToken::start(), 10);
    assert!(page.is_empty());
    assert!(next.is_none());
}

#[test]
fn list_current_leaves_out_closed_versions_and_other_partitions() {
    let mut store: VersionStore<u32> = VersionStore::new();
    let east = Some("east".to_string());
    assert!(store.open(EntityKey::top("c"), east.clone(), 1, 1).is_ok());
    assert!(store.open(EntityKey::top("a"), east.clone(), 1, 2).is_ok());
    assert!(store.open(EntityKey::top("b"), None, 1, 3).is_ok());
    assert!(store.open(EntityKey::top("d"), east.clone(), 1, 4).is_ok());
    assert_eq!(store.close(&EntityKey::top("d"), &east, 2), Ok(()));
    assert!(store.supersede(EntityKey::top("a"), east.clone(), 3, 5).is_ok());
    let (page, next) = list_current(&store, &east, &PageToken::start(), 10);
    let found: Vec<(String, u32)> =
        page.iter().map(|r| (r.key.name.clone(), r.payload)).collect();
    assert_eq!(found, vec![("a".to_string(), 5), ("c".to_string(), 1)]);
    assert!(next.is_none());
    let (page, _) = list_current(&store, &None, &PageToken::start(), 10);
    assert_eq!(page.len(), 1);
    assert_eq!(page[0].key.name, "b");
}

#[test]
fn list_current_goes_on_after_the_token() {
    let store = filled(10);
    let token = PageToken::after(&EntityKey::top("key-006"));
    let (page, next) = store.list_current(&None, &token, 2);
    assert_eq!(page.len(), 2);
    assert_eq!(page[0].key.name, "key-007");
    assert_eq!(page[1].key.name, "key-008");
    assert_eq!(next.unwrap().last_key().unwrap().name, "key-008");
}
