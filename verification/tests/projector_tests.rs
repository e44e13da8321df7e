use grid_mirror::entities::{OrganizationAttrs, PropertyAttrs, SchemaAttrs};
use grid_mirror::group::Member;
use grid_mirror::key::EntityKey;
use grid_mirror::projector::{Applied, ChangeSet, EntityPayload, Mirror};
use grid_mirror::query::{current_schema, get_as_of, get_current, schema_as_of};
use grid_mirror::record::{MirrorError, OPEN_SENTINEL};
use grid_mirror::store::RecordId;

fn field(name: &str) -> Member<PropertyAttrs> {
    Member {
        name: name.to_string(),
        attrs: PropertyAttrs {
            data_type: "STRING".to_string(),
            required: true,
            description: format!("field {}", name),
            number_exponent: 0,
            enum_options: vec![],
            struct_properties: vec![],
        },
    }
}

fn schema_change(key: &str, block: i64, owner: &str, fields: &[&str]) -> ChangeSet {
    ChangeSet {
        key: key.to_string(),
        block_number: block,
        partition: None,
        payload: EntityPayload::Schema {
            schema: SchemaAttrs {
                description: format!("{} at {}", key, block),
                owner: owner.to_string(),
            },
            properties: fields.iter().map(|f| field(f)).collect(),
        },
    }
}

fn organization_change(key: &str, block: i64, name: &str) -> ChangeSet {
    ChangeSet {
        key: key.to_string(),
        block_number: block,
        partition: None,
        payload: EntityPayload::Organization {
            organization: OrganizationAttrs {
                name: name.to_string(),
                locations: vec!["here".to_string()],
                alternate_ids: vec![],
                metadata: vec![],
            },
        },
    }
}

fn field_names(mirror: &Mirror, schema: &str, height: Option<i64>) -> Vec<String> {
    let shown = match height {
        Some(h) => schema_as_of(mirror, schema, &None, h),
        None => current_schema(mirror, schema, &None),
    };
    shown.unwrap().property.into_iter().map(|p| p.name).collect()
}

#[test]
fn widget_schema_scenario() {
    let mut mirror = Mirror::new();
    assert_eq!(mirror.project(schema_change("widget-schema", 10, "org", &["A", "B"])), Ok(()));
    assert_eq!(mirror.project(schema_change("widget-schema", 20, "org", &["A", "C"])), Ok(()));
    assert_eq!(field_names(&mirror, "widget-schema", None), vec!["A", "C"]);
    assert_eq!(field_names(&mirror, "widget-schema", Some(15)), vec!["A", "B"]);
    assert_eq!(
        schema_as_of(&mirror, "widget-schema", &None, 5).unwrap_err(),
        MirrorError::NotFound
    );
    assert_eq!(field_names(&mirror, "widget-schema", Some(10)), vec!["A", "B"]);
    assert_eq!(field_names(&mirror, "widget-schema", Some(19)), vec!["A", "B"]);
    assert_eq!(field_names(&mirror, "widget-schema", Some(20)), vec!["A", "C"]);
    assert_eq!(
        current_schema(&mirror, "gadget-schema", &None).unwrap_err(),
        MirrorError::NotFound
    );
    let shown = current_schema(&mirror, "widget-schema", &None).unwrap();
    assert_eq!(shown.name, "widget-schema");
    assert_eq!(shown.owner, "org");
    assert_eq!(shown.description, "widget-schema at 20");
    assert_eq!(shown.property[1].description, "field C");
}

#[test]
fn a_child_that_is_left_out_is_closed_and_stays_closed() {
    let mut mirror = Mirror::new();
    assert_eq!(mirror.project(schema_change("s", 10, "o", &["A", "B"])), Ok(()));
    assert_eq!(mirror.project(schema_change("s", 20, "o", &["A"])), Ok(()));
    let b = EntityKey::child("s", "B");
    assert!(mirror.properties().read_current(&b, &None).is_none());
    let closed = mirror.properties().read_as_of(&b, &None, 15).unwrap();
    assert_eq!(closed.start_block, 10);
    assert_eq!(closed.end_block, 20);
    assert!(mirror.properties().read_as_of(&b, &None, 20).is_none());
    let a = EntityKey::child("s", "A");
    let current = mirror.properties().read_current(&a, &None).unwrap();
    assert_eq!(current.start_block, 20);
    assert_eq!(current.end_block, OPEN_SENTINEL);
    // B comes back later: its history has a gap and no overlap
    assert_eq!(mirror.project(schema_change("s", 30, "o", &["A", "B"])), Ok(()));
    assert_eq!(mirror.properties().read_current(&b, &None).unwrap().start_block, 30);
    assert!(mirror.properties().read_as_of(&b, &None, 25).is_none());
    assert_eq!(field_names(&mirror, "s", Some(25)), vec!["A"]);
    assert_eq!(field_names(&mirror, "s", None), vec!["A", "B"]);
}

#[test]
fn children_of_different_schemas_are_kept_apart() {
    let mut mirror = Mirror::new();
    assert_eq!(mirror.project(schema_change("s1", 10, "o", &["A", "B"])), Ok(()));
    assert_eq!(mirror.project(schema_change("s2", 11, "o", &["A"])), Ok(()));
    assert_eq!(mirror.project(schema_change("s1", 12, "o", &[])), Ok(()));
    assert_eq!(field_names(&mirror, "s1", None), Vec::<String>::new());
    assert_eq!(field_names(&mirror, "s2", None), vec!["A"]);
    assert_eq!(field_names(&mirror, "s1", Some(11)), vec!["A", "B"]);
}

#[test]
fn the_same_change_twice_is_stale_and_changes_nothing() {
    let mut mirror = Mirror::new();
    assert_eq!(mirror.project(schema_change("s", 10, "o", &["A"])), Ok(()));
    let schemas = mirror.schemas().len();
    let properties = mirror.properties().len();
    assert_eq!(
        mirror.project(schema_change("s", 10, "o", &["A"])),
        Err(MirrorError::StaleUpdate)
    );
    assert_eq!(mirror.apply(schema_change("s", 10, "o", &["A"])), Ok(Applied::SkippedStale));
    assert_eq!(mirror.apply(schema_change("s", 9, "x", &["Z"])), Ok(Applied::SkippedStale));
    assert_eq!(mirror.schemas().len(), schemas);
    assert_eq!(mirror.properties().len(), properties);
    assert_eq!(field_names(&mirror, "s", None), vec!["A"]);
    assert_eq!(current_schema(&mirror, "s", &None).unwrap().owner, "o");
    assert_eq!(mirror.apply(schema_change("s", 11, "o", &["A"])), Ok(Applied::Projected));
}

#[test]
fn a_change_that_names_a_child_twice_fails_as_a_whole() {
    let mut mirror = Mirror::new();
    assert_eq!(mirror.project(schema_change("s", 10, "o", &["A", "B"])), Ok(()));
    assert_eq!(
        mirror.project(schema_change("s", 20, "new", &["C", "A", "C"])),
        Err(MirrorError::Conflict)
    );
    assert_eq!(mirror.schemas().len(), 1);
    assert_eq!(mirror.properties().len(), 2);
    assert_eq!(current_schema(&mirror, "s", &None).unwrap().owner, "o");
    assert_eq!(field_names(&mirror, "s", None), vec!["A", "B"]);
    assert_eq!(mirror.schemas().get(RecordId(0)).unwrap().end_block, OPEN_SENTINEL);
    assert_eq!(
        mirror.apply(schema_change("s", 20, "new", &["C", "C"])),
        Err(MirrorError::Conflict)
    );
}

#[test]
fn a_change_at_the_reserved_block_is_refused_for_an_open_entity() {
    let mut mirror = Mirror::new();
    assert_eq!(mirror.project(organization_change("org", 10, "first")), Ok(()));
    assert_eq!(
        mirror.project(organization_change("org", OPEN_SENTINEL, "second")),
        Err(MirrorError::InvalidRange)
    );
    let current = get_current(mirror.organizations(), &EntityKey::top("org"), &None).unwrap();
    assert_eq!(current.payload.name, "first");
}

#[test]
fn organizations_pass_to_new_versions() {
    let mut mirror = Mirror::new();
    assert_eq!(mirror.project(organization_change("org", 3, "first")), Ok(()));
    assert_eq!(mirror.project(organization_change("org", 8, "second")), Ok(()));
    assert_eq!(
        mirror.project(organization_change("org", 8, "again")),
        Err(MirrorError::StaleUpdate)
    );
    let key = EntityKey::top("org");
    assert_eq!(get_current(mirror.organizations(), &key, &None).unwrap().payload.name, "second");
    assert_eq!(get_as_of(mirror.organizations(), &key, &None, 5).unwrap().payload.name, "first");
    assert_eq!(
        get_as_of(mirror.organizations(), &key, &None, 2).unwrap_err(),
        MirrorError::NotFound
    );
    assert_eq!(
        get_current(mirror.organizations(), &EntityKey::top("nobody"), &None).unwrap_err(),
        MirrorError::NotFound
    );
    assert_eq!(mirror.schemas().len(), 0);
}

#[test]
fn the_history_of_a_schema_has_no_gap_and_one_open_version() {
    let mut mirror = Mirror::new();
    let blocks: Vec<i64> = vec![4, 9, 9, 7, 12, 30, 2, 31];
    for block in blocks {
        let _ = mirror.apply(schema_change("s", block, "o", &["A"]));
        let mut open = 0;
        for i in 0..mirror.schemas().len() {
            if mirror.schemas().get(RecordId(i)).unwrap().is_open() {
                open += 1;
            }
        }
        assert_eq!(open, 1);
    }
    assert_eq!(mirror.schemas().len(), 5);
    let key = EntityKey::top("s");
    for height in 4..40 {
        let mut covering = 0;
        for i in 0..mirror.schemas().len() {
            if mirror.schemas().get(RecordId(i)).unwrap().covers(height) {
                covering += 1;
            }
        }
        assert_eq!(covering, 1);
        assert!(mirror.schemas().read_as_of(&key, &None, height).is_some());
    }
    assert!(mirror.schemas().read_as_of(&key, &None, 3).is_none());
}

#[test]
fn rollback_takes_parent_and_children_back_together() {
    let mut mirror = Mirror::new();
    assert_eq!(mirror.project(schema_change("s", 1, "one", &["A"])), Ok(()));
    assert_eq!(mirror.project(schema_change("s", 5, "five", &["A", "B"])), Ok(()));
    assert_eq!(mirror.project(schema_change("s", 9, "nine", &["C"])), Ok(()));
    mirror.rollback_to(9);
    let shown = current_schema(&mirror, "s", &None).unwrap();
    assert_eq!(shown.owner, "five");
    assert_eq!(field_names(&mirror, "s", None), vec!["A", "B"]);
    assert_eq!(mirror.schemas().len(), 2);
    assert_eq!(mirror.properties().len(), 3);
    assert_eq!(mirror.project(schema_change("s", 9, "again", &["D"])), Ok(()));
    assert_eq!(field_names(&mirror, "s", None), vec!["D"]);
}
