//! Reading the current schemas: one by its name, or all of a service page by
//! page.

use vstd::prelude::*;
use crate::entities::SchemaAttrs;
use crate::history::{has_open, open_at, valid_history};
use crate::key::{top_key, EntityKey, KeyView};
use crate::listing::{is_page, law_pages_chain, page_view, token_view, PageToken};
use crate::models::{schema_row, schema_rows, GridSchema, SchemaRowView};
use crate::record::{RecordView, VersionedRecord};
use crate::store::VersionStore;

verus! {

/// The rows of a page of versions of schemas.
pub open spec fn rows_of(page: Seq<RecordView<SchemaAttrs>>) -> Seq<SchemaRowView> {
    page.map_values(|r: RecordView<SchemaAttrs>| schema_row(r))
}

/// `rows` and `next` are what a listing of the current schemas of
/// `partition` after `after` with room for `limit` rows returns: `rows` are
/// the rows of the page that the listing of the history gives, each current
/// schema once and in ascending order of the keys, and `next` is its token.
pub open spec fn is_row_page(
    s: Seq<RecordView<SchemaAttrs>>,
    partition: Option<Seq<char>>,
    after: Option<KeyView>,
    limit: nat,
    rows: Seq<SchemaRowView>,
    next: Option<Option<KeyView>>,
) -> bool {
    exists|page: Seq<RecordView<SchemaAttrs>>| #[trigger]
        is_page(s, partition, after, limit, page, next) && rows == rows_of(page)
}

/// Going on with the token of one page of rows gives the page that follows
/// it: the two pages together are the listing with room for both, so that
/// over all pages every current schema of the service is met once, in
/// ascending order of the keys.
pub proof fn law_row_pages_chain(
    s: Seq<RecordView<SchemaAttrs>>,
    partition: Option<Seq<char>>,
    after: Option<KeyView>,
    first_limit: nat,
    first: Seq<SchemaRowView>,
    token: Option<KeyView>,
    second_limit: nat,
    second: Seq<SchemaRowView>,
    next: Option<Option<KeyView>>,
)
    requires
        is_row_page(s, partition, after, first_limit, first, Some(token)),
        is_row_page(s, partition, token, second_limit, second, next),
    ensures
        is_row_page(s, partition, after, first_limit + second_limit, first + second, next),
{
    let p = choose|p: Seq<RecordView<SchemaAttrs>>| #[trigger]
        is_page(s, partition, after, first_limit, p, Some(token)) && first == rows_of(p);
    let q = choose|q: Seq<RecordView<SchemaAttrs>>| #[trigger]
        is_page(s, partition, token, second_limit, q, next) && second == rows_of(q);
    law_pages_chain(s, partition, after, first_limit, p, token, second_limit, q, next);
    assert(rows_of(p + q) =~= first + second);
}

/// The rows of the versions of a page.
pub fn page_rows(page: &Vec<&VersionedRecord<SchemaAttrs>>) -> (rows: Vec<GridSchema>)
    ensures
        schema_rows(rows@) == rows_of(page_view(page@)),
{
    let mut rows: Vec<GridSchema> = Vec::new();
    let mut i: usize = 0;
    while i < page.len()
        invariant
            i <= page.len(),
            rows.len() == i,
            forall|k: int| 0 <= k < i ==> (#[trigger] rows@[k])@ == schema_row(page@[k]@),
        decreases page.len() - i,
    {
        rows.push(GridSchema::from_record(page[i]));
        i += 1;
    }
    assert(schema_rows(rows@) =~= rows_of(page_view(page@)));
    rows
}

/// One page of the current schemas of the service `service_id`, each schema
/// once and in ascending order of the keys: at most `limit` rows, beginning
/// where `token` says, and the token of the page that follows, if any schema
/// is left.
pub fn list_grid_schemas(
    schemas: &VersionStore<SchemaAttrs>,
    service_id: &Option<String>,
    token: &PageToken,
    limit: usize,
) -> (r: (Vec<GridSchema>, Option<PageToken>))
    requires
        valid_history(schemas@),
    ensures
        is_row_page(
            schemas@,
            service_id.deep_view(),
            token@,
            limit as nat,
            schema_rows(r.0@),
            token_view(r.1),
        ),
{
    let (page, next) = schemas.list_current(service_id, token, limit);
    let rows = page_rows(&page);
    assert(is_page(
        schemas@,
        service_id.deep_view(),
        token@,
        limit as nat,
        page_view(page@),
        token_view(next),
    ));
    (rows, next)
}

/// The current version of the schema called `name` of the service
/// `service_id`, or nothing if the schema has none.
pub fn fetch_grid_schema(
    schemas: &VersionStore<SchemaAttrs>,
    name: &str,
    service_id: &Option<String>,
) -> (row: Option<GridSchema>)
    ensures
        match row {
            Some(found) => exists|i: int|
                open_at(schemas@, top_key(name@), service_id.deep_view(), i) && found@
                    == schema_row(schemas@[i]),
            None => !has_open(schemas@, top_key(name@), service_id.deep_view()),
        },
{
    let key = EntityKey::top(name);
    match schemas.read_current(&key, service_id) {
        Some(record) => Some(GridSchema::from_record(record)),
        None => None,
    }
}

} // verus!
