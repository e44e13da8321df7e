//! The read side: the current state of an entity, its state as of a block,
//! and the current entities page by page. It only reads the mirror.

use vstd::prelude::*;
use crate::entities::PropertyAttrs;
use crate::group::in_scope;
use crate::history::{covered_at, has_covering, has_open, open_at, valid_history};
use crate::key::{same_partition, top_key, EntityKey};
use crate::listing::{is_page, page_view, token_view, PageToken};
use crate::models::{
    definition_row, definition_rows, schema_row, DefinitionRowView, GridPropertyDefinition,
    GridSchema,
};
use crate::organizations::{served_organization, OrganizationSlice};
use crate::projector::{Mirror, MirrorView};
use crate::record::{MirrorError, RecordView, VersionedRecord};
use crate::routes::{shown_schema, GridSchemaSlice};
use crate::seq_steps::{lemma_selected_empty, lemma_selected_take, selected};
use crate::store::{RecordId, VersionStore};
use crate::text_order::same_text;

verus! {

/// The current version of the entity, or `NotFound` if it has none: it never
/// existed, or every version of it was closed or rolled back.
pub fn get_current<'a, P>(
    store: &'a VersionStore<P>,
    key: &EntityKey,
    partition: &Option<String>,
) -> (r: Result<&'a VersionedRecord<P>, MirrorError>)
    ensures
        match r {
            Ok(record) => exists|i: int|
                open_at(store@, key@, partition.deep_view(), i) && record@ == store@[i],
            Err(e) => e == MirrorError::NotFound && !has_open(store@, key@, partition.deep_view()),
        },
{
    match store.read_current(key, partition) {
        Some(record) => Ok(record),
        None => Err(MirrorError::NotFound),
    }
}

/// The version of the entity that was valid at block `height`, or `NotFound`
/// if none was.
pub fn get_as_of<'a, P>(
    store: &'a VersionStore<P>,
    key: &EntityKey,
    partition: &Option<String>,
    height: i64,
) -> (r: Result<&'a VersionedRecord<P>, MirrorError>)
    ensures
        match r {
            Ok(record) => exists|i: int|
                covered_at(store@, key@, partition.deep_view(), height as int, i) && record@
                    == store@[i],
            Err(e) => e == MirrorError::NotFound && !has_covering(
                store@,
                key@,
                partition.deep_view(),
                height as int,
            ),
        },
{
    match store.read_as_of(key, partition, height) {
        Some(record) => Ok(record),
        None => Err(MirrorError::NotFound),
    }
}

/// One page of the current versions of `partition`, in ascending order of
/// their keys, and the token of the page that follows, if there is one.
pub fn list_current<'a, P>(
    store: &'a VersionStore<P>,
    partition: &Option<String>,
    token: &PageToken,
    limit: usize,
) -> (r: (Vec<&'a VersionedRecord<P>>, Option<PageToken>))
    requires
        valid_history(store@),
    ensures
        is_page(
            store@,
            partition.deep_view(),
            token@,
            limit as nat,
            page_view(r.0@),
            token_view(r.1),
        ),
{
    store.list_current(partition, token, limit)
}

/// The point for which a state is asked: the present, or a block.
#[derive(Debug, Clone, Copy, PartialEq, Eq, Structural)]
pub enum AsOf {
    Now,
    Block(i64),
}

/// The version is the valid one at the point `at`.
pub open spec fn valid_at<P>(r: RecordView<P>, at: AsOf) -> bool {
    match at {
        AsOf::Now => r.is_open(),
        AsOf::Block(height) => r.covers(height as int),
    }
}

/// The rows of the property definitions of the schema called `name` that are
/// valid at the point `at`, in the order of the history.
pub open spec fn definitions_at(
    properties: Seq<RecordView<PropertyAttrs>>,
    name: Seq<char>,
    partition: Option<Seq<char>>,
    at: AsOf,
) -> Seq<DefinitionRowView> {
    selected(
        properties,
        |r: RecordView<PropertyAttrs>| in_scope(r, name, partition) && valid_at(r, at),
        |r: RecordView<PropertyAttrs>| definition_row(r),
    )
}

/// The version at position `i` is the one of the schema called `name` that is
/// valid at the point `at`.
pub open spec fn schema_at(
    m: MirrorView,
    name: Seq<char>,
    partition: Option<Seq<char>>,
    at: AsOf,
    i: int,
) -> bool {
    0 <= i < m.schemas.len() && m.schemas[i].of_entity(top_key(name), partition) && valid_at(
        m.schemas[i],
        at,
    )
}

/// The schema called `name` as it was at the point `at`, with the property
/// definitions that it had then; `NotFound` if it had no version then.
fn schema_at_point(mirror: &Mirror, name: &str, partition: &Option<String>, at: AsOf) -> (r: Result<
    GridSchemaSlice,
    MirrorError,
>)
    ensures
        match r {
            Ok(shown) => exists|i: int|
                schema_at(mirror@, name@, partition.deep_view(), at, i) && shown@ == shown_schema(
                    schema_row(mirror@.schemas[i]),
                    definitions_at(mirror@.properties, name@, partition.deep_view(), at),
                ),
            Err(e) => e == MirrorError::NotFound && forall|i: int|
                !schema_at(mirror@, name@, partition.deep_view(), at, i),
        },
{
    let key = EntityKey::top(name);
    let ghost p = partition.deep_view();
    let found = match at {
        AsOf::Now => mirror.schemas().read_current(&key, partition),
        AsOf::Block(height) => mirror.schemas().read_as_of(&key, partition, height),
    };
    let record = match found {
        Some(record) => record,
        None => {
            proof {
                assert forall|i: int| !schema_at(mirror@, name@, p, at, i) by {
                    match at {
                        AsOf::Now => {
                            assert(!open_at(mirror@.schemas, key@, p, i));
                        },
                        AsOf::Block(height) => {
                            assert(!covered_at(mirror@.schemas, key@, p, height as int, i));
                        },
                    }
                }
            }
            return Err(MirrorError::NotFound);
        },
    };
    let properties = mirror.properties();
    let ghost keep = |r: RecordView<PropertyAttrs>| in_scope(r, name@, p) && valid_at(r, at);
    let ghost f = |r: RecordView<PropertyAttrs>| definition_row(r);
    let mut rows: Vec<GridPropertyDefinition> = Vec::new();
    let total = properties.len();
    let mut i: usize = 0;
    proof {
        lemma_selected_empty(keep, f);
        assert(properties@.take(0) =~= Seq::empty());
        assert(definition_rows(rows@) =~= Seq::empty());
    }
    while i < total
        invariant
            i <= total,
            total == properties@.len(),
            p == partition.deep_view(),
            keep == |r: RecordView<PropertyAttrs>| in_scope(r, name@, p) && valid_at(r, at),
            f == |r: RecordView<PropertyAttrs>| definition_row(r),
            definition_rows(rows@) == selected(properties@.take(i as int), keep, f),
        decreases total - i,
    {
        proof {
            lemma_selected_take(properties@, keep, f, i as int);
        }
        match properties.get(RecordId(i)) {
            Some(child) => {
                let valid = match at {
                    AsOf::Now => child.is_open(),
                    AsOf::Block(height) => child.covers(height),
                };
                if valid && same_text(child.key.scope.as_str(), name) && same_partition(
                    &child.service_partition,
                    partition,
                ) {
                    let ghost before = definition_rows(rows@);
                    rows.push(GridPropertyDefinition::from_record(child));
                    assert(definition_rows(rows@) =~= before.push(definition_row(child@)));
                }
            },
            None => {},
        }
        i += 1;
    }
    assert(properties@.take(total as int) =~= properties@);
    let row = GridSchema::from_record(record);
    proof {
        match at {
            AsOf::Now => {
                let w = choose|w: int|
                    open_at(mirror@.schemas, key@, p, w) && record@ == mirror@.schemas[w];
                assert(schema_at(mirror@, name@, p, at, w));
            },
            AsOf::Block(height) => {
                let w = choose|w: int|
                    covered_at(mirror@.schemas, key@, p, height as int, w) && record@
                        == mirror@.schemas[w];
                assert(schema_at(mirror@, name@, p, at, w));
            },
        }
    }
    Ok(GridSchemaSlice::from_schema(&row, rows))
}

/// The current state of the schema called `name`, with its current property
/// definitions; `NotFound` if the schema has no current version.
pub fn current_schema(mirror: &Mirror, name: &str, partition: &Option<String>) -> (r: Result<
    GridSchemaSlice,
    MirrorError,
>)
    ensures
        match r {
            Ok(shown) => exists|i: int|
                schema_at(mirror@, name@, partition.deep_view(), AsOf::Now, i) && shown@
                    == shown_schema(
                    schema_row(mirror@.schemas[i]),
                    definitions_at(mirror@.properties, name@, partition.deep_view(), AsOf::Now),
                ),
            Err(e) => e == MirrorError::NotFound && forall|i: int|
                !schema_at(mirror@, name@, partition.deep_view(), AsOf::Now, i),
        },
{
    schema_at_point(mirror, name, partition, AsOf::Now)
}

/// The state of the schema called `name` as of block `height`, with the
/// property definitions that it had then; `NotFound` if no version of the
/// schema was valid at that block.
pub fn schema_as_of(mirror: &Mirror, name: &str, partition: &Option<String>, height: i64) -> (r:
    Result<GridSchemaSlice, MirrorError>)
    ensures
        match r {
            Ok(shown) => exists|i: int|
                schema_at(mirror@, name@, partition.deep_view(), AsOf::Block(height), i) && shown@
                    == shown_schema(
                    schema_row(mirror@.schemas[i]),
                    definitions_at(
                        mirror@.properties,
                        name@,
                        partition.deep_view(),
                        AsOf::Block(height),
                    ),
                ),
            Err(e) => e == MirrorError::NotFound && forall|i: int|
                !schema_at(mirror@, name@, partition.deep_view(), AsOf::Block(height), i),
        },
{
    schema_at_point(mirror, name, partition, AsOf::Block(height))
}

/// The current state of the organization called `org_id` as it is served;
/// `NotFound` if the organization has no current version.
pub fn current_organization(mirror: &Mirror, org_id: &str, partition: &Option<String>) -> (r:
    Result<OrganizationSlice, MirrorError>)
    ensures
        match r {
            Ok(served) => exists|i: int|
                open_at(mirror@.organizations, top_key(org_id@), partition.deep_view(), i)
                    && served@ == served_organization(mirror@.organizations[i]),
            Err(e) => e == MirrorError::NotFound && !has_open(
                mirror@.organizations,
                top_key(org_id@),
                partition.deep_view(),
            ),
        },
{
    let key = EntityKey::top(org_id);
    match mirror.organizations().read_current(&key, partition) {
        Some(record) => Ok(OrganizationSlice::from_record(record)),
        None => Err(MirrorError::NotFound),
    }
}

/// How the read side answers when it cannot serve a state.
#[derive(Debug, Clone, Copy, PartialEq, Eq, Structural)]
pub enum Unserved {
    /// There is no such state: the entity, or the version asked for, is
    /// absent.
    Absent,
    /// The state cannot be read for now.
    TemporarilyUnavailable,
}

/// The answer for an error: what is not found is absent, and whatever else
/// went wrong means that the state cannot be read for now.
pub open spec fn answer_for(error: MirrorError) -> Unserved {
    if error is NotFound {
        Unserved::Absent
    } else {
        Unserved::TemporarilyUnavailable
    }
}

/// The answer of the read side for an error. The read side does not try
/// again.
pub fn unserved(error: MirrorError) -> (answer: Unserved)
    ensures
        answer == answer_for(error),
{
    match error {
        MirrorError::NotFound => Unserved::Absent,
        _ => Unserved::TemporarilyUnavailable,
    }
}

} // verus!
