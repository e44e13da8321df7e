use grid_mirror::entities::{PropertyAttrs, SchemaAttrs};
use grid_mirror::grid_schemas::{
    insert_grid_property_definitions, insert_grid_schemas, list_grid_property_definitions,
    update_definition_end_block_num, update_grid_schema_end_block_num,
};
use grid_mirror::key::EntityKey;
use grid_mirror::listing::PageToken;
use grid_mirror::models::{
    GridPropertyDefinition, GridSchema, NewGridPropertyDefinition, NewGridSchema, MAX_BLOCK_NUM,
};
use grid_mirror::record::MirrorError;
use grid_mirror::routes::{assemble_schemas, GridSchemaProperty, GridSchemaSlice};
use grid_mirror::store::{RecordId, VersionStore};

fn new_schema(name: &str, block: i64, owner: &str) -> NewGridSchema {
    NewGridSchema {
        start_block_num: block,
        name: name.to_string(),
        description: format!("about {}", name),
        owner: owner.to_string(),
        service_id: None,
    }
}

fn new_definition(schema: &str, name: &str, block: i64) -> NewGridPropertyDefinition {
    NewGridPropertyDefinition {
        start_block_num: block,
        name: name.to_string(),
        schema_name: schema.to_string(),
        data_type: "ENUM".to_string(),
        required: false,
        description: format!("{} of {}", name, schema),
        number_exponent: -2,
        enum_options: vec!["x".to_string(), "y".to_string()],
        struct_properties: vec!["p".to_string()],
        service_id: None,
    }
}

fn schema_row(name: &str) -> GridSchema {
    GridSchema {
        start_block_num: 1,
        end_block_num: MAX_BLOCK_NUM,
        name: name.to_string(),
        description: format!("about {}", name),
        owner: "owner".to_string(),
        service_id: None,
    }
}

fn definition_row(schema: &str, name: &str) -> GridPropertyDefinition {
    GridPropertyDefinition {
        start_block_num: 1,
        end_block_num: MAX_BLOCK_NUM,
        name: name.to_string(),
        schema_name: schema.to_string(),
        data_type: "NUMBER".to_string(),
        required: true,
        description: "d".to_string(),
        number_exponent: 3,
        enum_options: vec!["a".to_string()],
        struct_properties: vec![],
        service_id: None,
    }
}

fn names(rows: Vec<GridSchema>) -> Vec<String> {
    rows.into_iter().map(|r| r.name).collect()
}

fn current_definitions(definitions: &VersionStore<PropertyAttrs>) -> Vec<(String, String, i64)> {
    list_grid_property_definitions(definitions, &None)
        .into_iter()
        .map(|r| (r.schema_name, r.name, r.start_block_num))
        .collect()
}

fn triple(schema: &str, name: &str, block: i64) -> (String, String, i64) {
    (schema.to_string(), name.to_string(), block)
}

#[test]
fn max_block_num_is_the_largest_block_number() {
    assert_eq!(MAX_BLOCK_NUM, i64::MAX);
}

#[test]
fn insert_grid_schemas_closes_the_current_version() {
    let mut schemas: VersionStore<SchemaAttrs> = VersionStore::new();
    assert_eq!(
        insert_grid_schemas(&mut schemas, vec![new_schema("a", 1, "x"), new_schema("b", 1, "x")]),
        Ok(())
    );
    assert_eq!(insert_grid_schemas(&mut schemas, vec![new_schema("a", 4, "y")]), Ok(()));
    assert_eq!(schemas.len(), 3);
    assert_eq!(schemas.get(RecordId(0)).unwrap().end_block, 4);
    assert_eq!(schemas.get(RecordId(1)).unwrap().end_block, MAX_BLOCK_NUM);
    let rows = grid_mirror::grid_schemas::list_grid_schemas(&schemas, &None);
    let found: Vec<(String, String, i64)> =
        rows.into_iter().map(|r| (r.name, r.owner, r.start_block_num)).collect();
    assert_eq!(
        found,
        vec![("a".to_string(), "y".to_string(), 4), ("b".to_string(), "x".to_string(), 1)]
    );
}

#[test]
fn insert_grid_schemas_twice_is_as_good_as_once() {
    let mut schemas: VersionStore<SchemaAttrs> = VersionStore::new();
    assert_eq!(insert_grid_schemas(&mut schemas, vec![new_schema("a", 5, "x")]), Ok(()));
    assert_eq!(insert_grid_schemas(&mut schemas, vec![new_schema("a", 5, "x")]), Ok(()));
    assert_eq!(schemas.len(), 1);
    let record = schemas.get(RecordId(0)).unwrap();
    assert_eq!(record.start_block, 5);
    assert_eq!(record.end_block, MAX_BLOCK_NUM);
    assert_eq!(record.payload.owner, "x");
}

#[test]
fn insert_grid_schemas_leaves_a_stale_row_out_and_goes_on() {
    let mut schemas: VersionStore<SchemaAttrs> = VersionStore::new();
    assert_eq!(insert_grid_schemas(&mut schemas, vec![new_schema("a", 5, "x")]), Ok(()));
    let rows = vec![new_schema("b", 6, "x"), new_schema("a", 3, "late"), new_schema("c", 6, "x")];
    assert_eq!(insert_grid_schemas(&mut schemas, rows), Ok(()));
    assert_eq!(schemas.len(), 3);
    assert_eq!(schemas.read_current(&EntityKey::top("a"), &None).unwrap().payload.owner, "x");
    assert_eq!(schemas.read_current(&EntityKey::top("a"), &None).unwrap().start_block, 5);
    assert_eq!(
        names(grid_mirror::grid_schemas::list_grid_schemas(&schemas, &None)),
        vec!["a", "b", "c"]
    );
    assert_eq!(insert_grid_schemas(&mut schemas, vec![]), Ok(()));
}

#[test]
fn insert_grid_schemas_stops_at_the_first_row_that_fails() {
    let mut schemas: VersionStore<SchemaAttrs> = VersionStore::new();
    assert_eq!(insert_grid_schemas(&mut schemas, vec![new_schema("a", 5, "x")]), Ok(()));
    assert_eq!(update_grid_schema_end_block_num(&mut schemas, "a", &None, 9), Ok(()));
    // a version of `a` from block 7 on would overlap the one that ended at 9
    let rows = vec![new_schema("b", 6, "x"), new_schema("a", 7, "y"), new_schema("c", 6, "x")];
    assert_eq!(insert_grid_schemas(&mut schemas, rows), Err(MirrorError::InvalidRange));
    assert_eq!(names(grid_mirror::grid_schemas::list_grid_schemas(&schemas, &None)), vec!["b"]);
    assert_eq!(schemas.len(), 2);
    assert_eq!(
        insert_grid_schemas(&mut schemas, vec![new_schema("b", MAX_BLOCK_NUM, "y")]),
        Err(MirrorError::InvalidRange)
    );
    assert_eq!(insert_grid_schemas(&mut schemas, vec![new_schema("a", 9, "y")]), Ok(()));
}

#[test]
fn insert_grid_schemas_takes_two_versions_of_one_schema_in_order() {
    let mut schemas: VersionStore<SchemaAttrs> = VersionStore::new();
    let rows = vec![new_schema("a", 5, "x"), new_schema("a", 7, "y")];
    assert_eq!(insert_grid_schemas(&mut schemas, rows), Ok(()));
    assert_eq!(schemas.get(RecordId(0)).unwrap().end_block, 7);
    assert_eq!(schemas.get(RecordId(1)).unwrap().payload.owner, "y");
}

#[test]
fn insert_grid_property_definitions_closes_what_the_change_leaves_out() {
    let mut definitions: VersionStore<PropertyAttrs> = VersionStore::new();
    assert_eq!(
        insert_grid_property_definitions(
            &mut definitions,
            vec![new_definition("k", "A", 1), new_definition("k", "B", 1)]
        ),
        Ok(())
    );
    assert_eq!(
        insert_grid_property_definitions(
            &mut definitions,
            vec![new_definition("k", "A", 2), new_definition("k", "C", 2)]
        ),
        Ok(())
    );
    assert_eq!(current_definitions(&definitions), vec![triple("k", "A", 2), triple("k", "C", 2)]);
    let b = definitions.read_as_of(&EntityKey::child("k", "B"), &None, 1).unwrap();
    assert_eq!(b.end_block, 2);
    assert!(definitions.read_current(&EntityKey::child("k", "B"), &None).is_none());
    assert_eq!(definitions.get(RecordId(0)).unwrap().end_block, 2);
    assert_eq!(definitions.len(), 4);
}

#[test]
fn insert_grid_property_definitions_twice_is_as_good_as_once() {
    let mut definitions: VersionStore<PropertyAttrs> = VersionStore::new();
    let rows = || vec![new_definition("k", "A", 4), new_definition("k", "B", 4)];
    assert_eq!(insert_grid_property_definitions(&mut definitions, rows()), Ok(()));
    assert_eq!(insert_grid_property_definitions(&mut definitions, rows()), Ok(()));
    assert_eq!(
        insert_grid_property_definitions(&mut definitions, vec![new_definition("k", "Z", 3)]),
        Ok(())
    );
    assert_eq!(definitions.len(), 2);
    assert_eq!(current_definitions(&definitions), vec![triple("k", "A", 4), triple("k", "B", 4)]);
}

#[test]
fn insert_grid_property_definitions_takes_the_rows_change_by_change() {
    let mut definitions: VersionStore<PropertyAttrs> = VersionStore::new();
    let mut east = new_definition("s1", "size", 1);
    east.service_id = Some("east".to_string());
    let rows = vec![
        new_definition("s1", "size", 1),
        new_definition("s2", "size", 1),
        east,
        new_definition("s1", "width", 1),
        new_definition("s1", "size", 3),
    ];
    assert_eq!(insert_grid_property_definitions(&mut definitions, rows), Ok(()));
    // s1 at 1 (size, width), s2 at 1 (size), s1 of east at 1 (size), s1 at 3 (size)
    assert_eq!(definitions.len(), 5);
    assert_eq!(
        current_definitions(&definitions),
        vec![triple("s1", "size", 3), triple("s2", "size", 1)]
    );
    let east = Some("east".to_string());
    let east_rows = list_grid_property_definitions(&definitions, &east);
    assert_eq!(east_rows.len(), 1);
    assert_eq!(east_rows[0].service_id, east);
    assert_eq!(east_rows[0].start_block_num, 1);
    let rows = list_grid_property_definitions(&definitions, &None);
    assert_eq!(rows[0].service_id, None);
    assert_eq!(rows[0].data_type, "ENUM");
    assert_eq!(rows[0].number_exponent, -2);
    assert_eq!(rows[0].enum_options, vec!["x", "y"]);
    assert_eq!(rows[0].struct_properties, vec!["p"]);
    assert_eq!(rows[0].description, "size of s1");
    assert!(!rows[0].required);
    let width = definitions.read_as_of(&EntityKey::child("s1", "width"), &None, 2).unwrap();
    assert_eq!(width.end_block, 3);
}

#[test]
fn insert_grid_property_definitions_fails_as_a_whole_change() {
    let mut definitions: VersionStore<PropertyAttrs> = VersionStore::new();
    assert_eq!(
        insert_grid_property_definitions(&mut definitions, vec![new_definition("k", "A", 1)]),
        Ok(())
    );
    let rows = vec![
        new_definition("j", "A", 2),
        new_definition("k", "B", 2),
        new_definition("k", "C", 2),
        new_definition("k", "B", 2),
        new_definition("m", "A", 2),
    ];
    assert_eq!(insert_grid_property_definitions(&mut definitions, rows), Err(MirrorError::Conflict));
    assert_eq!(current_definitions(&definitions), vec![triple("j", "A", 2), triple("k", "A", 1)]);
    assert_eq!(update_definition_end_block_num(&mut definitions, "k", "A", &None, 5), Ok(()));
    assert_eq!(
        insert_grid_property_definitions(&mut definitions, vec![new_definition("k", "A", 3)]),
        Err(MirrorError::InvalidRange)
    );
    assert_eq!(definitions.len(), 2);
}

#[test]
fn update_end_block_num_ends_the_current_version() {
    let mut schemas: VersionStore<SchemaAttrs> = VersionStore::new();
    assert_eq!(insert_grid_schemas(&mut schemas, vec![new_schema("a", 5, "x")]), Ok(()));
    assert_eq!(
        update_grid_schema_end_block_num(&mut schemas, "none", &None, 9),
        Err(MirrorError::NotFound)
    );
    assert_eq!(
        update_grid_schema_end_block_num(&mut schemas, "a", &None, 5),
        Err(MirrorError::InvalidRange)
    );
    assert_eq!(
        update_grid_schema_end_block_num(&mut schemas, "a", &Some("east".to_string()), 9),
        Err(MirrorError::NotFound)
    );
    assert_eq!(schemas.get(RecordId(0)).unwrap().end_block, MAX_BLOCK_NUM);
    assert_eq!(update_grid_schema_end_block_num(&mut schemas, "a", &None, 9), Ok(()));
    assert_eq!(schemas.get(RecordId(0)).unwrap().end_block, 9);
    assert_eq!(
        update_grid_schema_end_block_num(&mut schemas, "a", &None, 12),
        Err(MirrorError::NotFound)
    );
    assert_eq!(schemas.get(RecordId(0)).unwrap().end_block, 9);
    assert!(grid_mirror::grid_schemas::list_grid_schemas(&schemas, &None).is_empty());

    let mut definitions: VersionStore<PropertyAttrs> = VersionStore::new();
    assert_eq!(
        insert_grid_property_definitions(
            &mut definitions,
            vec![new_definition("s1", "size", 1), new_definition("s2", "size", 1)]
        ),
        Ok(())
    );
    assert_eq!(update_definition_end_block_num(&mut definitions, "s2", "size", &None, 4), Ok(()));
    assert_eq!(definitions.get(RecordId(0)).unwrap().end_block, MAX_BLOCK_NUM);
    assert_eq!(definitions.get(RecordId(1)).unwrap().end_block, 4);
    assert_eq!(
        update_definition_end_block_num(&mut definitions, "s1", "size", &None, 1),
        Err(MirrorError::InvalidRange)
    );
    assert_eq!(
        update_definition_end_block_num(&mut definitions, "s1", "width", &None, 4),
        Err(MirrorError::NotFound)
    );
    assert_eq!(
        update_definition_end_block_num(&mut definitions, "s2", "size", &None, 6),
        Err(MirrorError::NotFound)
    );
}

#[test]
fn list_grid_schemas_gives_each_schema_once_in_ascending_order() {
    let mut schemas: VersionStore<SchemaAttrs> = VersionStore::new();
    let mut east = new_schema("m", 1, "x");
    east.service_id = Some("east".to_string());
    assert_eq!(
        insert_grid_schemas(
            &mut schemas,
            vec![new_schema("z", 1, "x"), new_schema("a", 1, "x"), east, new_schema("k", 1, "x")]
        ),
        Ok(())
    );
    assert_eq!(insert_grid_schemas(&mut schemas, vec![new_schema("z", 2, "y")]), Ok(()));
    assert_eq!(update_grid_schema_end_block_num(&mut schemas, "k", &None, 3), Ok(()));
    let rows = grid_mirror::grid_schemas::list_grid_schemas(&schemas, &None);
    let found: Vec<(String, i64)> = rows.into_iter().map(|r| (r.name, r.start_block_num)).collect();
    assert_eq!(found, vec![("a".to_string(), 1), ("z".to_string(), 2)]);
    let east_rows =
        grid_mirror::grid_schemas::list_grid_schemas(&schemas, &Some("east".to_string()));
    assert_eq!(names(east_rows), vec!["m"]);
}

#[test]
fn list_grid_schemas_over_150_schemas_in_pages_of_50() {
    let mut schemas: VersionStore<SchemaAttrs> = VersionStore::new();
    let mut definitions: VersionStore<PropertyAttrs> = VersionStore::new();
    for step in 0..150 {
        let n = (step * 11) % 150;
        let name = format!("schema-{:03}", n);
        assert_eq!(insert_grid_schemas(&mut schemas, vec![new_schema(&name, 1, "x")]), Ok(()));
        let mut rows = Vec::new();
        for d in 0..(n % 3) {
            rows.push(new_definition(&name, &format!("p{}", d), 1));
        }
        assert_eq!(insert_grid_property_definitions(&mut definitions, rows), Ok(()));
    }
    let mut seen: Vec<String> = Vec::new();
    let mut token = PageToken::start();
    let mut pages = 0;
    loop {
        let (rows, next) = grid_mirror::schemas::list_grid_schemas(&schemas, &None, &token, 50);
        pages += 1;
        assert_eq!(rows.len(), 50);
        seen.extend(names(rows));
        match next {
            Some(t) => token = t,
            None => break,
        }
    }
    assert_eq!(pages, 3);
    assert_eq!(seen.len(), 150);
    for (i, name) in seen.iter().enumerate() {
        assert_eq!(name, &format!("schema-{:03}", i));
    }

    let mut shown_names: Vec<String> = Vec::new();
    let mut token = PageToken::start();
    let mut pages = 0;
    loop {
        let (shown, next) =
            grid_mirror::routes::list_grid_schemas(&schemas, &definitions, &None, &token, 50);
        pages += 1;
        assert_eq!(shown.len(), 50);
        for s in shown {
            let n: usize = s.name[7..].parse().unwrap();
            assert_eq!(s.property.len(), n % 3);
            shown_names.push(s.name);
        }
        match next {
            Some(t) => token = t,
            None => break,
        }
    }
    assert_eq!(pages, 3);
    assert_eq!(shown_names, seen);
}

#[test]
fn fetch_grid_schema_finds_the_current_version_of_the_service() {
    let mut schemas: VersionStore<SchemaAttrs> = VersionStore::new();
    assert!(grid_mirror::schemas::fetch_grid_schema(&schemas, "a", &None).is_none());
    let mut east = new_schema("a", 2, "east-owner");
    east.service_id = Some("east".to_string());
    assert_eq!(insert_grid_schemas(&mut schemas, vec![east, new_schema("a", 1, "x")]), Ok(()));
    assert_eq!(insert_grid_schemas(&mut schemas, vec![new_schema("a", 6, "y")]), Ok(()));
    let row = grid_mirror::schemas::fetch_grid_schema(&schemas, "a", &None).unwrap();
    assert_eq!(row.owner, "y");
    assert_eq!(row.start_block_num, 6);
    assert_eq!(row.end_block_num, MAX_BLOCK_NUM);
    assert_eq!(row.description, "about a");
    assert_eq!(row.service_id, None);
    let east = Some("east".to_string());
    let row = grid_mirror::schemas::fetch_grid_schema(&schemas, "a", &east).unwrap();
    assert_eq!(row.owner, "east-owner");
    assert_eq!(row.service_id, east);
    assert_eq!(update_grid_schema_end_block_num(&mut schemas, "a", &None, 8), Ok(()));
    assert!(grid_mirror::schemas::fetch_grid_schema(&schemas, "a", &None).is_none());
    assert!(grid_mirror::schemas::fetch_grid_schema(&schemas, "a", &east).is_some());
}

#[test]
fn from_copies_all_but_the_schema_and_the_blocks() {
    let shown = GridSchemaProperty::from(&definition_row("s", "weight"));
    assert_eq!(shown.name, "weight");
    assert_eq!(shown.data_type, "NUMBER");
    assert!(shown.required);
    assert_eq!(shown.description, "d");
    assert_eq!(shown.number_exponent, 3);
    assert_eq!(shown.enum_options, vec!["a"]);
    assert!(shown.struct_properties.is_empty());
}

#[test]
fn from_schema_keeps_the_order_of_the_definitions() {
    let shown = GridSchemaSlice::from_schema(
        &schema_row("s"),
        vec![definition_row("s", "b"), definition_row("other", "a"), definition_row("s", "c")],
    );
    assert_eq!(shown.name, "s");
    assert_eq!(shown.description, "about s");
    assert_eq!(shown.owner, "owner");
    let names: Vec<String> = shown.property.into_iter().map(|p| p.name).collect();
    assert_eq!(names, vec!["b", "a", "c"]);
    assert!(GridSchemaSlice::from_schema(&schema_row("s"), vec![]).property.is_empty());
}

#[test]
fn assemble_gives_each_schema_the_definitions_of_its_name_and_service() {
    let mut east_schema = schema_row("s1");
    east_schema.service_id = Some("east".to_string());
    let mut east_definition = definition_row("s1", "e");
    east_definition.service_id = Some("east".to_string());
    let schemas =
        vec![schema_row("s1"), schema_row("s2"), east_schema, schema_row("s1"), schema_row("s3")];
    let definitions = vec![
        definition_row("s2", "x"),
        definition_row("s1", "a"),
        east_definition,
        definition_row("s4", "q"),
        definition_row("s1", "b"),
    ];
    let shown = assemble_schemas(&schemas, &definitions);
    let found: Vec<(String, Vec<String>)> = shown
        .into_iter()
        .map(|s| (s.name, s.property.into_iter().map(|p| p.name).collect()))
        .collect();
    assert_eq!(
        found,
        vec![
            ("s1".to_string(), vec!["a".to_string(), "b".to_string()]),
            ("s2".to_string(), vec!["x".to_string()]),
            ("s1".to_string(), vec!["e".to_string()]),
            ("s1".to_string(), vec![]),
            ("s3".to_string(), vec![]),
        ]
    );
}

#[test]
fn list_grid_schemas_shows_the_current_state() {
    let mut schemas: VersionStore<SchemaAttrs> = VersionStore::new();
    let mut definitions: VersionStore<PropertyAttrs> = VersionStore::new();
    assert_eq!(
        insert_grid_schemas(&mut schemas, vec![new_schema("t", 1, "x"), new_schema("s", 1, "x")]),
        Ok(())
    );
    assert_eq!(
        insert_grid_property_definitions(
            &mut definitions,
            vec![new_definition("s", "a", 1), new_definition("s", "b", 1)]
        ),
        Ok(())
    );
    assert_eq!(update_definition_end_block_num(&mut definitions, "s", "a", &None, 3), Ok(()));
    let (shown, next) = grid_mirror::routes::list_grid_schemas(
        &schemas,
        &definitions,
        &None,
        &PageToken::start(),
        10,
    );
    assert!(next.is_none());
    assert_eq!(shown.len(), 2);
    assert_eq!(shown[0].name, "s");
    assert_eq!(shown[0].property.len(), 1);
    assert_eq!(shown[0].property[0].name, "b");
    assert_eq!(shown[1].name, "t");
    assert!(shown[1].property.is_empty());
    let (shown, next) = grid_mirror::routes::list_grid_schemas(
        &schemas,
        &definitions,
        &None,
        &PageToken::start(),
        1,
    );
    assert_eq!(shown.len(), 1);
    assert_eq!(shown[0].name, "s");
    assert_eq!(next.unwrap().last_key().unwrap().name, "s");
}

#[test]
fn list_grid_property_definitions_is_in_order_of_schema_and_name() {
    let mut definitions: VersionStore<PropertyAttrs> = VersionStore::new();
    let rows = vec![
        new_definition("t", "b", 1),
        new_definition("s", "z", 1),
        new_definition("t", "a", 1),
        new_definition("s", "c", 1),
    ];
    assert_eq!(insert_grid_property_definitions(&mut definitions, rows), Ok(()));
    assert_eq!(update_definition_end_block_num(&mut definitions, "s", "z", &None, 2), Ok(()));
    assert_eq!(
        current_definitions(&definitions),
        vec![triple("s", "c", 1), triple("t", "a", 1), triple("t", "b", 1)]
    );
}
