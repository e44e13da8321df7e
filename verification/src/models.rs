//! The rows in which the versions of schemas and of their property
//! definitions are read and written.

use vstd::prelude::*;
use crate::entities::{duplicate_texts, PropertyAttrs, SchemaAttrs};
use crate::key::duplicate_partition;
use crate::record::{RecordView, VersionedRecord, OPEN_SENTINEL};

verus! {

/// The `end_block_num` of a row that is still current.
pub const MAX_BLOCK_NUM: i64 = OPEN_SENTINEL;

/// A version of a schema as a row.
#[derive(Debug)]
pub struct GridSchema {
    pub start_block_num: i64,
    pub end_block_num: i64,
    pub name: String,
    pub description: String,
    pub owner: String,
    pub service_id: Option<String>,
}

/// A version of a property definition as a row.
#[derive(Debug)]
pub struct GridPropertyDefinition {
    pub start_block_num: i64,
    pub end_block_num: i64,
    pub name: String,
    pub schema_name: String,
    pub data_type: String,
    pub required: bool,
    pub description: String,
    pub number_exponent: i64,
    pub enum_options: Vec<String>,
    pub struct_properties: Vec<String>,
    pub service_id: Option<String>,
}

/// A new version of a schema, current from `start_block_num` on.
#[derive(Debug)]
pub struct NewGridSchema {
    pub start_block_num: i64,
    pub name: String,
    pub description: String,
    pub owner: String,
    pub service_id: Option<String>,
}

/// A new version of a property definition, current from `start_block_num` on.
#[derive(Debug)]
pub struct NewGridPropertyDefinition {
    pub start_block_num: i64,
    pub name: String,
    pub schema_name: String,
    pub data_type: String,
    pub required: bool,
    pub description: String,
    pub number_exponent: i64,
    pub enum_options: Vec<String>,
    pub struct_properties: Vec<String>,
    pub service_id: Option<String>,
}

/// A schema row as plain values.
pub struct SchemaRowView {
    pub start_block_num: i64,
    pub end_block_num: i64,
    pub name: Seq<char>,
    pub description: Seq<char>,
    pub owner: Seq<char>,
    pub service_id: Option<Seq<char>>,
}

/// A property definition row as plain values.
pub struct DefinitionRowView {
    pub start_block_num: i64,
    pub end_block_num: i64,
    pub name: Seq<char>,
    pub schema_name: Seq<char>,
    pub data_type: Seq<char>,
    pub required: bool,
    pub description: Seq<char>,
    pub number_exponent: i64,
    pub enum_options: Seq<Seq<char>>,
    pub struct_properties: Seq<Seq<char>>,
    pub service_id: Option<Seq<char>>,
}

impl View for GridSchema {
    type V = SchemaRowView;

    open spec fn view(&self) -> SchemaRowView {
        SchemaRowView {
            start_block_num: self.start_block_num,
            end_block_num: self.end_block_num,
            name: self.name@,
            description: self.description@,
            owner: self.owner@,
            service_id: self.service_id.deep_view(),
        }
    }
}

impl View for GridPropertyDefinition {
    type V = DefinitionRowView;

    open spec fn view(&self) -> DefinitionRowView {
        DefinitionRowView {
            start_block_num: self.start_block_num,
            end_block_num: self.end_block_num,
            name: self.name@,
            schema_name: self.schema_name@,
            data_type: self.data_type@,
            required: self.required,
            description: self.description@,
            number_exponent: self.number_exponent,
            enum_options: self.enum_options.deep_view(),
            struct_properties: self.struct_properties.deep_view(),
            service_id: self.service_id.deep_view(),
        }
    }
}

/// The row of a version of a schema.
pub open spec fn schema_row(r: RecordView<SchemaAttrs>) -> SchemaRowView {
    SchemaRowView {
        start_block_num: r.start_block,
        end_block_num: r.end_block,
        name: r.key.name,
        description: r.payload.description@,
        owner: r.payload.owner@,
        service_id: r.partition,
    }
}

/// The row of a version of a property definition: the schema that owns it is
/// the scope of its key.
pub open spec fn definition_row(r: RecordView<PropertyAttrs>) -> DefinitionRowView {
    DefinitionRowView {
        start_block_num: r.start_block,
        end_block_num: r.end_block,
        name: r.key.name,
        schema_name: r.key.scope,
        data_type: r.payload.data_type@,
        required: r.payload.required,
        description: r.payload.description@,
        number_exponent: r.payload.number_exponent,
        enum_options: r.payload.enum_options.deep_view(),
        struct_properties: r.payload.struct_properties.deep_view(),
        service_id: r.partition,
    }
}

/// The rows as plain values.
pub open spec fn schema_rows(rows: Seq<GridSchema>) -> Seq<SchemaRowView> {
    rows.map_values(|row: GridSchema| row@)
}

/// The rows as plain values.
pub open spec fn definition_rows(rows: Seq<GridPropertyDefinition>) -> Seq<DefinitionRowView> {
    rows.map_values(|row: GridPropertyDefinition| row@)
}

impl GridSchema {
    /// The row of a version of a schema.
    pub fn from_record(record: &VersionedRecord<SchemaAttrs>) -> (row: GridSchema)
        ensures
            row@ == schema_row(record@),
    {
        GridSchema {
            start_block_num: record.start_block,
            end_block_num: record.end_block,
            name: record.key.name.clone(),
            description: record.payload.description.clone(),
            owner: record.payload.owner.clone(),
            service_id: duplicate_partition(&record.service_partition),
        }
    }
}

impl GridPropertyDefinition {
    /// A copy of the row.
    pub fn duplicate(&self) -> (row: GridPropertyDefinition)
        ensures
            row@ == self@,
    {
        GridPropertyDefinition {
            start_block_num: self.start_block_num,
            end_block_num: self.end_block_num,
            name: self.name.clone(),
            schema_name: self.schema_name.clone(),
            data_type: self.data_type.clone(),
            required: self.required,
            description: self.description.clone(),
            number_exponent: self.number_exponent,
            enum_options: duplicate_texts(&self.enum_options),
            struct_properties: duplicate_texts(&self.struct_properties),
            service_id: duplicate_partition(&self.service_id),
        }
    }

    /// The row of a version of a property definition.
    pub fn from_record(record: &VersionedRecord<PropertyAttrs>) -> (row: GridPropertyDefinition)
        ensures
            row@ == definition_row(record@),
    {
        GridPropertyDefinition {
            start_block_num: record.start_block,
            end_block_num: record.end_block,
            name: record.key.name.clone(),
            schema_name: record.key.scope.clone(),
            data_type: record.payload.data_type.clone(),
            required: record.payload.required,
            description: record.payload.description.clone(),
            number_exponent: record.payload.number_exponent,
            enum_options: duplicate_texts(&record.payload.enum_options),
            struct_properties: duplicate_texts(&record.payload.struct_properties),
            service_id: duplicate_partition(&record.service_partition),
        }
    }
}

} // verus!
