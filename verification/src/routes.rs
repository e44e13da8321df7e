//! The answers that the read side gives: a schema with the property
//! definitions that belong to it.

use vstd::prelude::*;
use crate::entities::{duplicate_texts, PropertyAttrs, SchemaAttrs};
use crate::grid_schemas::is_definition_listing;
use crate::history::valid_history;
use crate::key::{same_partition, KeyView};
use crate::listing::{token_view, PageToken};
use crate::models::{
    definition_rows, schema_rows, DefinitionRowView, GridPropertyDefinition, GridSchema,
    SchemaRowView,
};
use crate::record::RecordView;
use crate::schemas::is_row_page;
use crate::seq_steps::{lemma_selected_empty, lemma_selected_same, lemma_selected_take, selected};
use crate::store::VersionStore;
use crate::text_order::same_text;

verus! {

/// A schema as it is shown, with its property definitions.
#[derive(Debug)]
pub struct GridSchemaSlice {
    pub name: String,
    pub description: String,
    pub owner: String,
    pub property: Vec<GridSchemaProperty>,
}

/// A property definition as it is shown.
#[derive(Debug)]
pub struct GridSchemaProperty {
    pub name: String,
    pub data_type: String,
    pub required: bool,
    pub description: String,
    pub number_exponent: i64,
    pub enum_options: Vec<String>,
    pub struct_properties: Vec<String>,
}

/// A shown property definition as plain values.
pub struct PropertyView {
    pub name: Seq<char>,
    pub data_type: Seq<char>,
    pub required: bool,
    pub description: Seq<char>,
    pub number_exponent: i64,
    pub enum_options: Seq<Seq<char>>,
    pub struct_properties: Seq<Seq<char>>,
}

/// A shown schema as plain values.
pub struct SchemaSliceView {
    pub name: Seq<char>,
    pub description: Seq<char>,
    pub owner: Seq<char>,
    pub property: Seq<PropertyView>,
}

impl View for GridSchemaProperty {
    type V = PropertyView;

    open spec fn view(&self) -> PropertyView {
        PropertyView {
            name: self.name@,
            data_type: self.data_type@,
            required: self.required,
            description: self.description@,
            number_exponent: self.number_exponent,
            enum_options: self.enum_options.deep_view(),
            struct_properties: self.struct_properties.deep_view(),
        }
    }
}

impl View for GridSchemaSlice {
    type V = SchemaSliceView;

    open spec fn view(&self) -> SchemaSliceView {
        SchemaSliceView {
            name: self.name@,
            description: self.description@,
            owner: self.owner@,
            property: self.property@.map_values(|p: GridSchemaProperty| p@),
        }
    }
}

/// What is shown of a property definition: all but the schema it belongs to
/// and the blocks between which it is valid.
pub open spec fn shown_property(d: DefinitionRowView) -> PropertyView {
    PropertyView {
        name: d.name,
        data_type: d.data_type,
        required: d.required,
        description: d.description,
        number_exponent: d.number_exponent,
        enum_options: d.enum_options,
        struct_properties: d.struct_properties,
    }
}

/// What is shown of a schema with the given property definitions, these in
/// the order in which they are given.
pub open spec fn shown_schema(
    s: SchemaRowView,
    property: Seq<DefinitionRowView>,
) -> SchemaSliceView {
    SchemaSliceView {
        name: s.name,
        description: s.description,
        owner: s.owner,
        property: property.map_values(|d: DefinitionRowView| shown_property(d)),
    }
}

impl GridSchemaProperty {
    /// What is shown of a property definition.
    pub fn from(property: &GridPropertyDefinition) -> (shown: Self)
        ensures
            shown@ == shown_property(property@),
    {
        Self {
            name: property.name.clone(),
            data_type: property.data_type.clone(),
            required: property.required,
            description: property.description.clone(),
            number_exponent: property.number_exponent,
            enum_options: duplicate_texts(&property.enum_options),
            struct_properties: duplicate_texts(&property.struct_properties),
        }
    }
}

impl GridSchemaSlice {
    /// What is shown of a schema with the given property definitions.
    pub fn from_schema(schema: &GridSchema, property: Vec<GridPropertyDefinition>) -> (shown: Self)
        ensures
            shown@ == shown_schema(schema@, definition_rows(property@)),
    {
        let mut shown_properties: Vec<GridSchemaProperty> = Vec::new();
        let mut i: usize = 0;
        while i < property.len()
            invariant
                i <= property.len(),
                shown_properties.len() == i,
                forall|k: int|
                    0 <= k < i ==> shown_properties@[k]@ == shown_property(property@[k]@),
            decreases property.len() - i,
        {
            shown_properties.push(GridSchemaProperty::from(&property[i]));
            i += 1;
        }
        let shown = Self {
            name: schema.name.clone(),
            description: schema.description.clone(),
            owner: schema.owner.clone(),
            property: shown_properties,
        };
        assert(shown@.property =~= shown_schema(schema@, definition_rows(property@)).property);
        shown
    }
}

/// The shown schemas as plain values.
pub open spec fn slices_view(slices: Seq<GridSchemaSlice>) -> Seq<SchemaSliceView> {
    slices.map_values(|s: GridSchemaSlice| s@)
}

/// No schema before position `i` has the name and the service of the schema
/// at `i`.
pub open spec fn first_of_its_kind(schemas: Seq<SchemaRowView>, i: int) -> bool {
    forall|j: int|
        0 <= j < i ==> !((#[trigger] schemas[j]).name == schemas[i].name && schemas[j].service_id
            == schemas[i].service_id)
}

/// The property definition belongs to the schema called `name` of the service
/// `service_id`.
pub open spec fn belongs_to(name: Seq<char>, service_id: Option<Seq<char>>) -> spec_fn(
    DefinitionRowView,
) -> bool {
    |d: DefinitionRowView| d.schema_name == name && d.service_id == service_id
}

/// The property definitions that belong to the schema called `name` of the
/// service `service_id`, in their order.
pub open spec fn definitions_of(
    definitions: Seq<DefinitionRowView>,
    name: Seq<char>,
    service_id: Option<Seq<char>>,
) -> Seq<DefinitionRowView> {
    definitions.filter(belongs_to(name, service_id))
}

/// The schemas as they are shown, each with the property definitions that
/// belong to it by its name and its service. Where a schema stands more than
/// once, the first gets the definitions and the others get none.
pub open spec fn assembled(schemas: Seq<SchemaRowView>, definitions: Seq<DefinitionRowView>) -> Seq<
    SchemaSliceView,
> {
    Seq::new(
        schemas.len(),
        |i: int|
            shown_schema(
                schemas[i],
                if first_of_its_kind(schemas, i) {
                    definitions_of(definitions, schemas[i].name, schemas[i].service_id)
                } else {
                    Seq::empty()
                },
            ),
    )
}

/// The property definitions that belong to the schema called `name` of the
/// service `service_id`.
fn group_of(
    definitions: &Vec<GridPropertyDefinition>,
    name: &str,
    service_id: &Option<String>,
) -> (group: Vec<GridPropertyDefinition>)
    ensures
        definition_rows(group@) == definitions_of(
            definition_rows(definitions@),
            name@,
            service_id.deep_view(),
        ),
{
    let ghost all = definition_rows(definitions@);
    let ghost keep = belongs_to(name@, service_id.deep_view());
    let ghost same = |d: DefinitionRowView| d;
    let mut group: Vec<GridPropertyDefinition> = Vec::new();
    let mut j: usize = 0;
    proof {
        lemma_selected_empty(keep, same);
        assert(all.take(0) =~= Seq::empty());
        assert(definition_rows(group@) =~= Seq::empty());
    }
    while j < definitions.len()
        invariant
            j <= definitions.len(),
            all == definition_rows(definitions@),
            keep == belongs_to(name@, service_id.deep_view()),
            same == |d: DefinitionRowView| d,
            definition_rows(group@) == selected(all.take(j as int), keep, same),
        decreases definitions.len() - j,
    {
        proof {
            lemma_selected_take(all, keep, same, j as int);
        }
        if same_text(definitions[j].schema_name.as_str(), name) && same_partition(
            &definitions[j].service_id,
            service_id,
        ) {
            let ghost before = definition_rows(group@);
            group.push(definitions[j].duplicate());
            assert(definition_rows(group@) =~= before.push(definitions@[j as int]@));
        }
        j += 1;
    }
    proof {
        assert(all.take(all.len() as int) =~= all);
        lemma_selected_same(all, keep);
    }
    group
}

/// Shows the schemas, each with the property definitions that belong to it
/// by its name and its service. Where a schema stands more than once, the
/// first gets the definitions and the others get none.
pub fn assemble_schemas(
    schemas: &Vec<GridSchema>,
    definitions: &Vec<GridPropertyDefinition>,
) -> (shown: Vec<GridSchemaSlice>)
    ensures
        slices_view(shown@) == assembled(schema_rows(schemas@), definition_rows(definitions@)),
{
    let ghost rows = schema_rows(schemas@);
    let ghost all = definition_rows(definitions@);
    let mut shown: Vec<GridSchemaSlice> = Vec::new();
    let mut i: usize = 0;
    while i < schemas.len()
        invariant
            i <= schemas.len(),
            rows == schema_rows(schemas@),
            all == definition_rows(definitions@),
            shown.len() == i,
            forall|k: int| 0 <= k < i ==> shown@[k]@ == assembled(rows, all)[k],
        decreases schemas.len() - i,
    {
        let mut first = true;
        let mut j: usize = 0;
        while j < i
            invariant
                j <= i,
                i < schemas.len(),
                rows == schema_rows(schemas@),
                first == (forall|k: int|
                    0 <= k < j ==> !((#[trigger] rows[k]).name == rows[i as int].name
                        && rows[k].service_id == rows[i as int].service_id)),
            decreases i - j,
        {
            if same_text(schemas[j].name.as_str(), schemas[i].name.as_str()) && same_partition(
                &schemas[j].service_id,
                &schemas[i].service_id,
            ) {
                assert(rows[j as int].name == rows[i as int].name && rows[j as int].service_id
                    == rows[i as int].service_id);
                first = false;
            }
            j += 1;
        }
        let group = if first {
            group_of(definitions, schemas[i].name.as_str(), &schemas[i].service_id)
        } else {
            Vec::new()
        };
        proof {
            if !first {
                assert(definition_rows(group@) =~= Seq::empty());
            }
        }
        shown.push(GridSchemaSlice::from_schema(&schemas[i], group));
        i += 1;
    }
    assert(slices_view(shown@) =~= assembled(rows, all));
    shown
}

/// `shown` and `next` are one page of the current schemas of `partition`,
/// each with its current property definitions: the schemas are those of the
/// page of rows, each once and in ascending order of the keys, and the
/// definitions of a schema stand in ascending order of their names.
pub open spec fn is_shown_page(
    schemas: Seq<RecordView<SchemaAttrs>>,
    definitions: Seq<RecordView<PropertyAttrs>>,
    partition: Option<Seq<char>>,
    after: Option<KeyView>,
    limit: nat,
    shown: Seq<SchemaSliceView>,
    next: Option<Option<KeyView>>,
) -> bool {
    exists|rows: Seq<SchemaRowView>, all: Seq<DefinitionRowView>|
        #![trigger is_row_page(schemas, partition, after, limit, rows, next), is_definition_listing(definitions, partition, all)]
        is_row_page(schemas, partition, after, limit, rows, next) && is_definition_listing(
            definitions,
            partition,
            all,
        ) && shown == assembled(rows, all)
}

/// Shows one page of the current schemas of the service `service_id`, each
/// with its current property definitions: at most `limit` schemas in
/// ascending order of the keys, beginning where `token` says, and the token
/// of the page that follows, if any schema is left.
pub fn list_grid_schemas(
    schemas: &VersionStore<SchemaAttrs>,
    definitions: &VersionStore<PropertyAttrs>,
    service_id: &Option<String>,
    token: &PageToken,
    limit: usize,
) -> (r: (Vec<GridSchemaSlice>, Option<PageToken>))
    requires
        valid_history(schemas@),
        valid_history(definitions@),
    ensures
        is_shown_page(
            schemas@,
            definitions@,
            service_id.deep_view(),
            token@,
            limit as nat,
            slices_view(r.0@),
            token_view(r.1),
        ),
{
    let fetched_definitions = crate::grid_schemas::list_grid_property_definitions(
        definitions,
        service_id,
    );
    let (fetched_schemas, next) = crate::schemas::list_grid_schemas(
        schemas,
        service_id,
        token,
        limit,
    );
    let shown = assemble_schemas(&fetched_schemas, &fetched_definitions);
    assert(is_row_page(
        schemas@,
        service_id.deep_view(),
        token@,
        limit as nat,
        schema_rows(fetched_schemas@),
        token_view(next),
    ) && is_definition_listing(
        definitions@,
        service_id.deep_view(),
        definition_rows(fetched_definitions@),
    ));
    (shown, next)
}

} // verus!
