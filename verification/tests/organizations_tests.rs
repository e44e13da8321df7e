use grid_mirror::organizations::{
    column_widths, join_texts, list_organizations, organization_rows, table_text,
    AlternateIdSlice, OrganizationListSlice, OrganizationListing, OrganizationMetadataSlice,
    OrganizationSlice, Paging,
};

fn org(id: &str, name: &str, locations: &[&str], ids: &[(&str, &str)]) -> OrganizationSlice {
    OrganizationSlice {
        org_id: id.to_string(),
        name: name.to_string(),
        locations: locations.iter().map(|l| l.to_string()).collect(),
        alternate_ids: ids
            .iter()
            .map(|(t, i)| AlternateIdSlice { id_type: t.to_string(), id: i.to_string() })
            .collect(),
        metadata: vec![OrganizationMetadataSlice {
            key: "k".to_string(),
            value: "v".to_string(),
            service_id: None,
        }],
        service_id: None,
    }
}

fn paging(next: Option<&str>) -> Paging {
    Paging {
        current: "/organization?offset=0".to_string(),
        offset: 0,
        limit: 2,
        total: 3,
        first: "/organization?offset=0".to_string(),
        prev: "/organization?offset=0".to_string(),
        next: next.map(|n| n.to_string()),
        last: "/organization?offset=2".to_string(),
    }
}

fn strings(cells: &[&str]) -> Vec<String> {
    cells.iter().map(|c| c.to_string()).collect()
}

#[test]
fn join_texts_sets_the_separator_between() {
    assert_eq!(join_texts(&strings(&[]), ", "), "");
    assert_eq!(join_texts(&strings(&["a"]), ", "), "a");
    assert_eq!(join_texts(&strings(&["a", "b", "c"]), ", "), "a, b, c");
    assert_eq!(join_texts(&strings(&["", ""]), ","), ",");
}

#[test]
fn organization_rows_begin_with_the_titles() {
    let orgs = vec![org("o1", "One", &["x", "y"], &[("gs1", "123"), ("duns", "9")])];
    let rows = organization_rows(&orgs, false);
    assert_eq!(rows, vec![strings(&["ORG_ID", "NAME", "LOCATIONS"]), strings(&["o1", "One", "x, y"])]);
    let rows = organization_rows(&orgs, true);
    assert_eq!(
        rows,
        vec![
            strings(&["ORG_ID", "NAME", "LOCATIONS", "ALTERNATE_IDS"]),
            strings(&["o1", "One", "x, y", "gs1:123, duns:9"]),
        ]
    );
    assert_eq!(organization_rows(&vec![], false), vec![strings(&["ORG_ID", "NAME", "LOCATIONS"])]);
}

#[test]
fn column_widths_are_those_of_the_longest_cells() {
    let table = vec![strings(&["a", "bbbb"]), strings(&["ccc"]), strings(&["d", "e", "ffffff"])];
    assert_eq!(column_widths(&table), vec![3, 4, 6]);
    assert_eq!(column_widths(&vec![]), Vec::<usize>::new());
    // a width counts bytes
    assert_eq!(column_widths(&vec![strings(&["é"])]), vec![2]);
}

#[test]
fn table_text_fills_each_column_up() {
    let table = vec![strings(&["ID", "NAME"]), strings(&["long-id", "n"]), strings(&["x"])];
    assert_eq!(table_text(&table), "ID      NAME \nlong-id n    \nx           \n");
    assert_eq!(table_text(&vec![]), "");
}

#[test]
fn list_organizations_as_a_table() {
    let orgs = vec![org("o1", "One", &["x", "y"], &[]), org("org-2", "Two", &[], &[("t", "i")])];
    assert_eq!(
        list_organizations(&orgs, "human", false),
        "ORG_ID NAME LOCATIONS \no1     One  x, y      \norg-2  Two            \n"
    );
    assert_eq!(
        list_organizations(&orgs, "human", true),
        "ORG_ID NAME LOCATIONS ALTERNATE_IDS \no1     One  x, y                    \norg-2  Two            t:i           \n"
    );
}

#[test]
fn list_organizations_as_csv_sets_the_rows_one_after_the_other() {
    let orgs = vec![org("o1", "One", &["x", "y"], &[("t", "i")])];
    assert_eq!(list_organizations(&orgs, "csv", false), "ORG_ID,NAME,LOCATIONSo1,One,x, y");
    assert_eq!(
        list_organizations(&orgs, "csv", true),
        "ORG_ID,NAME,LOCATIONS,ALTERNATE_IDSo1,One,x, y,t:i"
    );
    assert_eq!(list_organizations(&vec![], "csv", false), "ORG_ID,NAME,LOCATIONS");
}

#[test]
fn listing_follows_the_pages() {
    let mut listing = OrganizationListing::begin("http://grid", &None);
    assert_eq!(listing.next_request(), Some("http://grid/organization"));
    listing.receive(OrganizationListSlice {
        data: vec![org("o1", "One", &[], &[]), org("o2", "Two", &[], &[])],
        paging: paging(Some("/organization?offset=2")),
    });
    assert_eq!(listing.next_request(), Some("http://grid/organization?offset=2"));
    listing.receive(OrganizationListSlice {
        data: vec![org("o3", "Three", &[], &[])],
        paging: paging(None),
    });
    assert_eq!(listing.next_request(), None);
    let ids: Vec<String> = listing.into_organizations().into_iter().map(|o| o.org_id).collect();
    assert_eq!(ids, vec!["o1", "o2", "o3"]);
}

#[test]
fn listing_of_one_service_asks_for_it() {
    let listing = OrganizationListing::begin("http://grid", &Some("circuit::svc".to_string()));
    assert_eq!(listing.next_request(), Some("http://grid/organization?service_id=circuit::svc"));
    assert!(listing.into_organizations().is_empty());
}
