//! What a version of each kind of entity carries.

use vstd::prelude::*;

verus! {

/// The attributes of a schema.
#[derive(Debug)]
pub struct SchemaAttrs {
    pub description: String,
    pub owner: String,
}

/// The attributes of a property definition of a schema.
#[derive(Debug)]
pub struct PropertyAttrs {
    pub data_type: String,
    pub required: bool,
    pub description: String,
    pub number_exponent: i64,
    pub enum_options: Vec<String>,
    pub struct_properties: Vec<String>,
}

/// An identifier under which an organization is also known.
#[derive(Debug)]
pub struct AlternateId {
    pub id_type: String,
    pub id: String,
}

/// A key and value attached to an organization.
#[derive(Debug)]
pub struct OrganizationMetadata {
    pub key: String,
    pub value: String,
}

/// The attributes of an organization.
#[derive(Debug)]
pub struct OrganizationAttrs {
    pub name: String,
    pub locations: Vec<String>,
    pub alternate_ids: Vec<AlternateId>,
    pub metadata: Vec<OrganizationMetadata>,
}

/// A copy of a list of strings.
pub fn duplicate_texts(v: &Vec<String>) -> (r: Vec<String>)
    ensures
        r.deep_view() == v.deep_view(),
{
    let mut r: Vec<String> = Vec::new();
    let mut i: usize = 0;
    while i < v.len()
        invariant
            i <= v.len(),
            r.len() == i,
            forall|k: int| 0 <= k < i ==> r@[k]@ == v@[k]@,
        decreases v.len() - i,
    {
        r.push(v[i].clone());
        i += 1;
    }
    assert(r.deep_view() =~= v.deep_view());
    r
}

} // verus!
