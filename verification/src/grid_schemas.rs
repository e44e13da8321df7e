//! Writing and listing the versions of schemas and of their property
//! definitions, row by row.

use vstd::prelude::*;
use crate::entities::{PropertyAttrs, SchemaAttrs};
use crate::group::{
    late_in_scope_at, lemma_replaced_valid, member_records, members_view, open_in_scope_at,
    replace_outcome, replaced, scope_is_stale, stuck_at, Member, MemberView,
};
use crate::history::{
    close_outcome, closed, closes_too_early, has_open, open_at, starts_late_at, supersede_outcome,
    superseded, valid_history,
};
use crate::key::{child_key, duplicate_partition, same_partition, top_key, EntityKey};
use crate::listing::{is_page, law_full_listing_is_complete, page_view, token_view, PageToken};
use crate::models::{
    definition_row, definition_rows, schema_rows, DefinitionRowView, GridPropertyDefinition,
    GridSchema, NewGridPropertyDefinition, NewGridSchema,
};
use crate::record::{MirrorError, RecordView};
use crate::schemas::{is_row_page, page_rows};
use crate::seq_steps::{
    lemma_filter_all, lemma_filter_none, lemma_filter_shorter, lemma_selected_empty,
    lemma_selected_same, lemma_selected_take, selected,
};
use crate::store::VersionStore;
use crate::text_order::same_text;

verus! {

/// What a new schema row carries into its version.
pub open spec fn new_schema_attrs(row: NewGridSchema) -> SchemaAttrs {
    SchemaAttrs { description: row.description, owner: row.owner }
}

/// What a new property definition row carries into its version.
pub open spec fn new_definition_attrs(row: NewGridPropertyDefinition) -> PropertyAttrs {
    PropertyAttrs {
        data_type: row.data_type,
        required: row.required,
        description: row.description,
        number_exponent: row.number_exponent,
        enum_options: row.enum_options,
        struct_properties: row.struct_properties,
    }
}

/// The history and the result after one row was inserted. A row that is
/// stale, its block not after the start of the current version of its schema,
/// is left out and is no failure. Any other row passes its schema to a new
/// version at its block, or fails and changes nothing.
pub open spec fn schema_inserted(s: Seq<RecordView<SchemaAttrs>>, row: NewGridSchema) -> (
    Seq<RecordView<SchemaAttrs>>,
    Result<(), MirrorError>,
) {
    let key = top_key(row.name@);
    let partition = row.service_id.deep_view();
    if closes_too_early(s, key, partition, row.start_block_num) {
        (s, Ok(()))
    } else if supersede_outcome(s, key, partition, row.start_block_num) is Err {
        (s, supersede_outcome(s, key, partition, row.start_block_num))
    } else {
        (superseded(s, key, partition, row.start_block_num, new_schema_attrs(row)), Ok(()))
    }
}

/// The history and the result after the rows were inserted one after the
/// other, each as `schema_inserted` says. The first row that fails ends the
/// run with its error; the rows before it stay inserted.
pub open spec fn schemas_inserted(s: Seq<RecordView<SchemaAttrs>>, rows: Seq<NewGridSchema>) -> (
    Seq<RecordView<SchemaAttrs>>,
    Result<(), MirrorError>,
)
    decreases rows.len(),
{
    if rows.len() == 0 {
        (s, Ok(()))
    } else {
        let (t, r) = schemas_inserted(s, rows.drop_last());
        if r is Err {
            (t, r)
        } else {
            schema_inserted(t, rows.last())
        }
    }
}

/// Inserts new versions of schemas: for each row, in order, the current
/// version of the schema is closed at the row's start block and the row
/// becomes the current version. A row that is stale, delivered twice or too
/// late, is left out and is no failure. The first row that cannot be
/// inserted ends the run, and its error is returned; the rows before it stay
/// inserted.
pub fn insert_grid_schemas(schemas: &mut VersionStore<SchemaAttrs>, rows: Vec<NewGridSchema>) -> (r:
    Result<(), MirrorError>)
    requires
        valid_history(old(schemas)@),
    ensures
        valid_history(final(schemas)@),
        (final(schemas)@, r) == schemas_inserted(old(schemas)@, rows@),
{
    let ghost all = rows@;
    assert(all.take(0) =~= Seq::empty());
    for row in it: rows.into_iter()
        invariant
            it.seq() == all,
            valid_history(schemas@),
            (schemas@, Ok::<(), MirrorError>(())) == schemas_inserted(
                old(schemas)@,
                all.take(it.index() as int),
            ),
    {
        let ghost i = it.index() as int;
        assert(all.take(i + 1).drop_last() =~= all.take(i));
        assert(all.take(i + 1).last() == row);
        let NewGridSchema { start_block_num, name, description, owner, service_id } = row;
        let key = EntityKey::top(name.as_str());
        if !schemas.is_stale(&key, &service_id, start_block_num) {
            let attrs = SchemaAttrs { description, owner };
            match schemas.supersede(key, service_id, start_block_num, attrs) {
                Ok(_) => {},
                Err(e) => {
                    proof {
                        lemma_inserted_schemas_stop(old(schemas)@, all, i + 1);
                    }
                    return Err(e);
                },
            }
        }
    }
    assert(all.take(all.len() as int) =~= all);
    Ok(())
}

/// Once a row has failed, the rows after it change nothing.
proof fn lemma_inserted_schemas_stop(
    s: Seq<RecordView<SchemaAttrs>>,
    rows: Seq<NewGridSchema>,
    i: int,
)
    requires
        0 <= i <= rows.len(),
        schemas_inserted(s, rows.take(i)).1 is Err,
    ensures
        schemas_inserted(s, rows) == schemas_inserted(s, rows.take(i)),
    decreases rows.len() - i,
{
    if i < rows.len() {
        assert(rows.take(i + 1).drop_last() =~= rows.take(i));
        lemma_inserted_schemas_stop(s, rows, i + 1);
    } else {
        assert(rows.take(i) =~= rows);
    }
}

/// The rows that belong to one change with `head`: those of the same schema
/// and service at the same block.
pub open spec fn in_group(head: NewGridPropertyDefinition) -> spec_fn(
    NewGridPropertyDefinition,
) -> bool {
    |r: NewGridPropertyDefinition|
        r.schema_name@ == head.schema_name@ && r.service_id.deep_view()
            == head.service_id.deep_view() && r.start_block_num == head.start_block_num
}

/// The rows that belong to another change than `head`.
pub open spec fn out_of_group(head: NewGridPropertyDefinition) -> spec_fn(
    NewGridPropertyDefinition,
) -> bool {
    |r: NewGridPropertyDefinition| !in_group(head)(r)
}

/// The child that a row names, with what the row carries into its version.
pub open spec fn as_member() -> spec_fn(NewGridPropertyDefinition) -> MemberView<PropertyAttrs> {
    |r: NewGridPropertyDefinition| MemberView { name: r.name@, attrs: new_definition_attrs(r) }
}

/// The history and the result after the property definitions of one schema
/// were replaced by `members` at `block`. A change that is stale, an open
/// definition of the schema starting at `block` or later, is left out and is
/// no failure. Else every open definition of the schema is closed at `block`
/// and those that the change names are opened there, so that a definition
/// that is not named stays closed; or the change fails and nothing is
/// changed.
pub open spec fn group_inserted(
    s: Seq<RecordView<PropertyAttrs>>,
    scope: Seq<char>,
    partition: Option<Seq<char>>,
    block: i64,
    members: Seq<MemberView<PropertyAttrs>>,
) -> (Seq<RecordView<PropertyAttrs>>, Result<(), MirrorError>) {
    if scope_is_stale(s, scope, partition, block) {
        (s, Ok(()))
    } else if replace_outcome(s, scope, partition, block, members) is Err {
        (s, replace_outcome(s, scope, partition, block, members))
    } else {
        (replaced(s, scope, partition, block, members), Ok(()))
    }
}

/// The history and the result after the rows were inserted. The rows are
/// taken change by change: the first row and all rows of the same schema,
/// service and block are one change and replace the property definitions of
/// that schema as `group_inserted` says; then the rows that are left follow
/// in the same way. The first change that fails ends the run with its error;
/// the changes before it stay made.
pub open spec fn definitions_inserted(
    s: Seq<RecordView<PropertyAttrs>>,
    rows: Seq<NewGridPropertyDefinition>,
) -> (Seq<RecordView<PropertyAttrs>>, Result<(), MirrorError>)
    decreases rows.len(),
    via definitions_inserted_decreases
{
    if rows.len() == 0 {
        (s, Ok(()))
    } else {
        let head = rows[0];
        let (t, r) = group_inserted(
            s,
            head.schema_name@,
            head.service_id.deep_view(),
            head.start_block_num,
            rows.filter(in_group(head)).map_values(as_member()),
        );
        if r is Err {
            (t, r)
        } else {
            definitions_inserted(t, rows.filter(out_of_group(head)))
        }
    }
}

#[via_fn]
proof fn definitions_inserted_decreases(
    s: Seq<RecordView<PropertyAttrs>>,
    rows: Seq<NewGridPropertyDefinition>,
) {
    if rows.len() > 0 {
        lemma_filter_shorter(rows, out_of_group(rows[0]), 0);
    }
}

/// Inserts new versions of property definitions, change by change. The rows
/// of one schema and service at one block are one change: every current
/// definition of the schema is closed at that block, and the definitions that
/// the rows name become the current ones, so that a definition that the
/// change leaves out is current no more. A change that is stale, delivered
/// twice or too late, is left out and is no failure. The first change that
/// cannot be made ends the run, and its error is returned; the changes before
/// it stay made.
pub fn insert_grid_property_definitions(
    definitions: &mut VersionStore<PropertyAttrs>,
    rows: Vec<NewGridPropertyDefinition>,
) -> (r: Result<(), MirrorError>)
    requires
        valid_history(old(definitions)@),
    ensures
        valid_history(final(definitions)@),
        (final(definitions)@, r) == definitions_inserted(old(definitions)@, rows@),
{
    let ghost given = rows@;
    let ghost goal = definitions_inserted(definitions@, given);
    let mut left = rows;
    loop
        invariant
            given == rows@,
            valid_history(definitions@),
            goal == definitions_inserted(definitions@, left@),
            goal == definitions_inserted(old(definitions)@, given),
        ensures
            valid_history(definitions@),
            (definitions@, Ok::<(), MirrorError>(())) == goal,
            goal == definitions_inserted(old(definitions)@, given),
        decreases left.len(),
    {
        if left.len() == 0 {
            break;
        }
        let ghost all = left@;
        let ghost head = all[0];
        let scope = left[0].schema_name.clone();
        let service_id = duplicate_partition(&left[0].service_id);
        let block = left[0].start_block_num;
        let ghost keep = in_group(head);
        let ghost leave = out_of_group(head);
        let ghost member = as_member();
        let ghost same = |r: NewGridPropertyDefinition| r;
        let mut members: Vec<Member<PropertyAttrs>> = Vec::new();
        let mut rest: Vec<NewGridPropertyDefinition> = Vec::new();
        proof {
            lemma_selected_empty(keep, member);
            lemma_selected_empty(leave, same);
            assert(all.take(0) =~= Seq::empty());
            assert(members_view(members@) =~= Seq::empty());
            lemma_filter_shorter(all, leave, 0);
        }
        for row in it: left.into_iter()
            invariant
                it.seq() == all,
                all.len() > 0,
                head == all[0],
                keep == in_group(head),
                leave == out_of_group(head),
                member == as_member(),
                same == |r: NewGridPropertyDefinition| r,
                scope@ == head.schema_name@,
                service_id.deep_view() == head.service_id.deep_view(),
                block == head.start_block_num,
                members_view(members@) == selected(all.take(it.index() as int), keep, member),
                rest@ == selected(all.take(it.index() as int), leave, same),
        {
            proof {
                lemma_selected_take(all, keep, member, it.index() as int);
                lemma_selected_take(all, leave, same, it.index() as int);
            }
            if same_text(row.schema_name.as_str(), scope.as_str()) && same_partition(
                &row.service_id,
                &service_id,
            ) && row.start_block_num == block {
                let ghost before = members_view(members@);
                let NewGridPropertyDefinition {
                    start_block_num,
                    name,
                    schema_name,
                    data_type,
                    required,
                    description,
                    number_exponent,
                    enum_options,
                    struct_properties,
                    service_id,
                } = row;
                let attrs = PropertyAttrs {
                    data_type,
                    required,
                    description,
                    number_exponent,
                    enum_options,
                    struct_properties,
                };
                members.push(Member { name, attrs });
                assert(members_view(members@) =~= before.push(member(row)));
            } else {
                rest.push(row);
            }
        }
        proof {
            assert(all.take(all.len() as int) =~= all);
            lemma_selected_same(all, leave);
        }
        if !definitions.scope_is_stale(scope.as_str(), &service_id, block) {
            match definitions.replace_scope(scope.as_str(), &service_id, block, members) {
                Ok(_) => {},
                Err(e) => {
                    return Err(e);
                },
            }
        }
        left = rest;
    }
    Ok(())
}

/// Rows that all belong to one change are inserted as that one change.
pub proof fn law_rows_of_one_change(
    s: Seq<RecordView<PropertyAttrs>>,
    rows: Seq<NewGridPropertyDefinition>,
)
    requires
        rows.len() > 0,
        forall|i: int| 0 <= i < rows.len() ==> in_group(rows[0])(#[trigger] rows[i]),
    ensures
        definitions_inserted(s, rows) == group_inserted(
            s,
            rows[0].schema_name@,
            rows[0].service_id.deep_view(),
            rows[0].start_block_num,
            rows.map_values(as_member()),
        ),
{
    let head = rows[0];
    lemma_filter_all(rows, in_group(head));
    lemma_filter_none(rows, out_of_group(head));
    let step = group_inserted(
        s,
        head.schema_name@,
        head.service_id.deep_view(),
        head.start_block_num,
        rows.map_values(as_member()),
    );
    assert(definitions_inserted(step.0, Seq::<NewGridPropertyDefinition>::empty()) == (
        step.0,
        Ok::<(), MirrorError>(()),
    ));
}

/// Inserting a single row is inserting that row.
pub proof fn lemma_single_row(s: Seq<RecordView<SchemaAttrs>>, row: NewGridSchema)
    ensures
        schemas_inserted(s, seq![row]) == schema_inserted(s, row),
{
    assert(seq![row].drop_last() =~= Seq::<NewGridSchema>::empty());
    assert(schemas_inserted(s, Seq::<NewGridSchema>::empty()) == (s, Ok::<(), MirrorError>(())));
    assert(seq![row].last() == row);
}

/// A row that is inserted again changes nothing and is no failure: after a
/// row was inserted, the same row, and any row of the same schema at the
/// same block, is left out as stale.
pub proof fn law_row_twice_is_once(
    s: Seq<RecordView<SchemaAttrs>>,
    row: NewGridSchema,
    again: NewGridSchema,
)
    requires
        valid_history(s),
        schemas_inserted(s, seq![row]).1 is Ok,
        again.name@ == row.name@,
        again.service_id.deep_view() == row.service_id.deep_view(),
        again.start_block_num == row.start_block_num,
    ensures
        schemas_inserted(schemas_inserted(s, seq![row]).0, seq![again]) == (
            schemas_inserted(s, seq![row]).0,
            Ok::<(), MirrorError>(()),
        ),
{
    lemma_single_row(s, row);
    let t = schema_inserted(s, row).0;
    lemma_single_row(t, again);
    let key = top_key(row.name@);
    let partition = row.service_id.deep_view();
    if !closes_too_early(s, key, partition, row.start_block_num) {
        assert(starts_late_at(t, key, partition, row.start_block_num, s.len() as int));
    }
}

/// A change of the property definitions of a schema that is made again
/// changes nothing and is no failure.
pub proof fn law_change_twice_is_once(
    s: Seq<RecordView<PropertyAttrs>>,
    scope: Seq<char>,
    partition: Option<Seq<char>>,
    block: i64,
    members: Seq<MemberView<PropertyAttrs>>,
    again: Seq<MemberView<PropertyAttrs>>,
)
    requires
        valid_history(s),
        members.len() > 0,
        group_inserted(s, scope, partition, block, members).1 is Ok,
    ensures
        group_inserted(
            group_inserted(s, scope, partition, block, members).0,
            scope,
            partition,
            block,
            again,
        ) == (group_inserted(s, scope, partition, block, members).0, Ok::<(), MirrorError>(())),
{
    if !scope_is_stale(s, scope, partition, block) {
        let t = replaced(s, scope, partition, block, members);
        let n = s.len() as int;
        assert(t[n] == member_records(scope, partition, block, members)[0]);
        assert(late_in_scope_at(t, scope, partition, block, n));
    }
}

/// The property definitions of a schema move together. After a change that
/// was made, every current definition of the schema starts at the block of
/// the change and is one that the change names, each definition that the
/// change names is current, and a definition that it leaves out is current no
/// more.
pub proof fn law_change_moves_all_definitions(
    s: Seq<RecordView<PropertyAttrs>>,
    scope: Seq<char>,
    partition: Option<Seq<char>>,
    block: i64,
    members: Seq<MemberView<PropertyAttrs>>,
)
    requires
        valid_history(s),
        !scope_is_stale(s, scope, partition, block),
        replace_outcome(s, scope, partition, block, members) is Ok,
    ensures
        group_inserted(s, scope, partition, block, members) == (
            replaced(s, scope, partition, block, members),
            Ok::<(), MirrorError>(()),
        ),
        valid_history(replaced(s, scope, partition, block, members)),
        forall|j: int|
            0 <= j < members.len() ==> has_open(
                replaced(s, scope, partition, block, members),
                child_key(scope, (#[trigger] members[j]).name),
                partition,
            ),
        forall|i: int| #[trigger]
            open_in_scope_at(replaced(s, scope, partition, block, members), scope, partition, i)
                ==> replaced(s, scope, partition, block, members)[i].start_block == block
                && exists|j: int|
                0 <= j < members.len() && replaced(s, scope, partition, block, members)[i].key
                    == child_key(scope, members[j].name),
{
    let t = replaced(s, scope, partition, block, members);
    let k = s.len() as int;
    let recs = member_records(scope, partition, block, members);
    lemma_replaced_valid(s, scope, partition, block, members);
    assert forall|j: int| 0 <= j < members.len() implies has_open(
        t,
        child_key(scope, (#[trigger] members[j]).name),
        partition,
    ) by {
        assert(t[k + j] == recs[j]);
        assert(open_at(t, child_key(scope, members[j].name), partition, k + j));
    }
    assert forall|i: int| #[trigger] open_in_scope_at(t, scope, partition, i) implies t[i].start_block
        == block && exists|j: int|
        0 <= j < members.len() && t[i].key == child_key(scope, members[j].name) by {
        assert(i >= k) by {
            if i < k {
                assert(!stuck_at(s, scope, partition, block, i));
            }
        }
        assert(t[i] == recs[i - k]);
    }
}

/// Ends the current version of the schema called `name` at
/// `current_block_num`.
///
/// Fails with `NotFound` if the schema has no current version, and with
/// `InvalidRange` if `current_block_num` is not after the start of the
/// current version or is the reserved value. On failure the store is
/// unchanged.
pub fn update_grid_schema_end_block_num(
    schemas: &mut VersionStore<SchemaAttrs>,
    name: &str,
    service_id: &Option<String>,
    current_block_num: i64,
) -> (r: Result<(), MirrorError>)
    requires
        valid_history(old(schemas)@),
    ensures
        valid_history(final(schemas)@),
        r == close_outcome(old(schemas)@, top_key(name@), service_id.deep_view(), current_block_num),
        r is Ok ==> final(schemas)@ == closed(
            old(schemas)@,
            top_key(name@),
            service_id.deep_view(),
            current_block_num,
        ),
        r is Err ==> final(schemas)@ == old(schemas)@,
{
    let key = EntityKey::top(name);
    schemas.close(&key, service_id, current_block_num)
}

/// Ends the current version of the property definition called `name` of the
/// schema called `schema_name` at `current_block_num`.
///
/// Fails with `NotFound` if the definition has no current version, and with
/// `InvalidRange` if `current_block_num` is not after the start of the
/// current version or is the reserved value. On failure the store is
/// unchanged.
pub fn update_definition_end_block_num(
    definitions: &mut VersionStore<PropertyAttrs>,
    schema_name: &str,
    name: &str,
    service_id: &Option<String>,
    current_block_num: i64,
) -> (r: Result<(), MirrorError>)
    requires
        valid_history(old(definitions)@),
    ensures
        valid_history(final(definitions)@),
        r == close_outcome(
            old(definitions)@,
            child_key(schema_name@, name@),
            service_id.deep_view(),
            current_block_num,
        ),
        r is Ok ==> final(definitions)@ == closed(
            old(definitions)@,
            child_key(schema_name@, name@),
            service_id.deep_view(),
            current_block_num,
        ),
        r is Err ==> final(definitions)@ == old(definitions)@,
{
    let key = EntityKey::child(schema_name, name);
    definitions.close(&key, service_id, current_block_num)
}

/// Every current schema of the service `service_id`, each once and in
/// ascending order of the keys: the listing with room for all of them, which
/// leaves nothing over.
pub fn list_grid_schemas(schemas: &VersionStore<SchemaAttrs>, service_id: &Option<String>) -> (rows:
    Vec<GridSchema>)
    requires
        valid_history(schemas@),
    ensures
        is_row_page(
            schemas@,
            service_id.deep_view(),
            None,
            schemas@.len(),
            schema_rows(rows@),
            None,
        ),
{
    let start = PageToken::start();
    let (page, next) = schemas.list_current(service_id, &start, schemas.len());
    proof {
        law_full_listing_is_complete(
            schemas@,
            service_id.deep_view(),
            None,
            page_view(page@),
            token_view(next),
        );
        assert(is_page(
            schemas@,
            service_id.deep_view(),
            None,
            schemas@.len(),
            page_view(page@),
            None,
        ));
    }
    page_rows(&page)
}

/// The rows of a page of versions of property definitions.
pub open spec fn definition_rows_of(page: Seq<RecordView<PropertyAttrs>>) -> Seq<
    DefinitionRowView,
> {
    page.map_values(|r: RecordView<PropertyAttrs>| definition_row(r))
}

/// `rows` are the rows of all current property definitions of `partition`,
/// each once and in ascending order of the keys, by schema first and by name
/// within a schema: the listing with room for all of them, which leaves
/// nothing over.
pub open spec fn is_definition_listing(
    s: Seq<RecordView<PropertyAttrs>>,
    partition: Option<Seq<char>>,
    rows: Seq<DefinitionRowView>,
) -> bool {
    exists|page: Seq<RecordView<PropertyAttrs>>| #[trigger]
        is_page(s, partition, None, s.len(), page, None) && rows == definition_rows_of(page)
}

/// Every current property definition of the service `service_id`, each once
/// and in ascending order of the keys, by schema first and by name within a
/// schema.
pub fn list_grid_property_definitions(
    definitions: &VersionStore<PropertyAttrs>,
    service_id: &Option<String>,
) -> (rows: Vec<GridPropertyDefinition>)
    requires
        valid_history(definitions@),
    ensures
        is_definition_listing(definitions@, service_id.deep_view(), definition_rows(rows@)),
{
    let start = PageToken::start();
    let (page, next) = definitions.list_current(service_id, &start, definitions.len());
    proof {
        law_full_listing_is_complete(
            definitions@,
            service_id.deep_view(),
            None,
            page_view(page@),
            token_view(next),
        );
        assert(is_page(
            definitions@,
            service_id.deep_view(),
            None,
            definitions@.len(),
            page_view(page@),
            None,
        ));
    }
    let mut rows: Vec<GridPropertyDefinition> = Vec::new();
    let mut i: usize = 0;
    while i < page.len()
        invariant
            i <= page.len(),
            rows.len() == i,
            forall|k: int| 0 <= k < i ==> (#[trigger] rows@[k])@ == definition_row(page@[k]@),
        decreases page.len() - i,
    {
        rows.push(GridPropertyDefinition::from_record(page[i]));
        i += 1;
    }
    assert(definition_rows(rows@) =~= definition_rows_of(page_view(page@)));
    rows
}

} // verus!
