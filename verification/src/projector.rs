//! The projector turns one change of the ledger into the versions of the
//! mirror: the changed entity passes to a new version and, where it owns
//! children, these pass with it, all of it or none.

use vstd::prelude::*;
use crate::entities::{OrganizationAttrs, PropertyAttrs, SchemaAttrs};
use crate::group::{
    lemma_replaced_valid, members_view, replace_outcome, replaced, Member, MemberView,
};
use crate::history::{
    bounded_by, closes_too_early, lemma_superseded_valid, rolled_back, rolled_down,
    supersede_outcome, superseded, valid_history,
};
use crate::key::{duplicate_partition, top_key, EntityKey};
use crate::record::{MirrorError, RecordView};
use crate::store::VersionStore;

verus! {

/// The new state of an entity, by its kind.
#[derive(Debug)]
pub enum EntityPayload {
    /// A schema and the property definitions that it now has.
    Schema { schema: SchemaAttrs, properties: Vec<Member<PropertyAttrs>> },
    /// An organization.
    Organization { organization: OrganizationAttrs },
}

/// One change that the ledger made final at block `block_number`.
#[derive(Debug)]
pub struct ChangeSet {
    pub key: String,
    pub block_number: i64,
    pub partition: Option<String>,
    pub payload: EntityPayload,
}

/// The new state of an entity as plain values.
pub enum PayloadView {
    Schema { schema: SchemaAttrs, properties: Seq<MemberView<PropertyAttrs>> },
    Organization { organization: OrganizationAttrs },
}

/// A change as plain values.
pub struct ChangeView {
    pub key: Seq<char>,
    pub block_number: i64,
    pub partition: Option<Seq<char>>,
    pub payload: PayloadView,
}

impl View for EntityPayload {
    type V = PayloadView;

    open spec fn view(&self) -> PayloadView {
        match *self {
            EntityPayload::Schema { schema, properties } => PayloadView::Schema {
                schema,
                properties: members_view(properties@),
            },
            EntityPayload::Organization { organization } => PayloadView::Organization {
                organization,
            },
        }
    }
}

impl View for ChangeSet {
    type V = ChangeView;

    open spec fn view(&self) -> ChangeView {
        ChangeView {
            key: self.key@,
            block_number: self.block_number,
            partition: self.partition.deep_view(),
            payload: self.payload@,
        }
    }
}

/// What became of a change that was handed to the mirror.
#[derive(Debug, Clone, Copy, PartialEq, Eq, Structural)]
pub enum Applied {
    /// The entity passed to a new version.
    Projected,
    /// The change was not newer than the open version and was left out.
    SkippedStale,
}

/// The histories of the mirror, one for each kind of entity.
pub struct MirrorView {
    pub schemas: Seq<RecordView<SchemaAttrs>>,
    pub properties: Seq<RecordView<PropertyAttrs>>,
    pub organizations: Seq<RecordView<OrganizationAttrs>>,
}

/// Each history of the mirror is valid.
pub open spec fn valid_mirror(m: MirrorView) -> bool {
    &&& valid_history(m.schemas)
    &&& valid_history(m.properties)
    &&& valid_history(m.organizations)
}

/// The change is stale for the entity: its block is not after the start of
/// the entity's open version.
pub open spec fn is_stale<P>(
    s: Seq<RecordView<P>>,
    key: Seq<char>,
    partition: Option<Seq<char>>,
    block: i64,
) -> bool {
    closes_too_early(s, top_key(key), partition, block)
}

/// Whether the change can be projected: `StaleUpdate` where it is stale,
/// else the error of the first step that cannot be made, the entity's own
/// new version before its children.
pub open spec fn project_outcome(m: MirrorView, c: ChangeView) -> Result<(), MirrorError> {
    match c.payload {
        PayloadView::Schema { schema, properties } => {
            if is_stale(m.schemas, c.key, c.partition, c.block_number) {
                Err(MirrorError::StaleUpdate)
            } else {
                match supersede_outcome(m.schemas, top_key(c.key), c.partition, c.block_number) {
                    Err(e) => Err(e),
                    Ok(_) => replace_outcome(
                        m.properties,
                        c.key,
                        c.partition,
                        c.block_number,
                        properties,
                    ),
                }
            }
        },
        PayloadView::Organization { organization } => {
            if is_stale(m.organizations, c.key, c.partition, c.block_number) {
                Err(MirrorError::StaleUpdate)
            } else {
                supersede_outcome(m.organizations, top_key(c.key), c.partition, c.block_number)
            }
        },
    }
}

/// The mirror after the change was projected.
pub open spec fn projected(m: MirrorView, c: ChangeView) -> MirrorView {
    match c.payload {
        PayloadView::Schema { schema, properties } => MirrorView {
            schemas: superseded(m.schemas, top_key(c.key), c.partition, c.block_number, schema),
            properties: replaced(m.properties, c.key, c.partition, c.block_number, properties),
            organizations: m.organizations,
        },
        PayloadView::Organization { organization } => MirrorView {
            schemas: m.schemas,
            properties: m.properties,
            organizations: superseded(
                m.organizations,
                top_key(c.key),
                c.partition,
                c.block_number,
                organization,
            ),
        },
    }
}

/// What the mirror reports for a change: a stale one is left out and is no
/// failure.
pub open spec fn apply_outcome(m: MirrorView, c: ChangeView) -> Result<Applied, MirrorError> {
    match project_outcome(m, c) {
        Ok(_) => Ok(Applied::Projected),
        Err(MirrorError::StaleUpdate) => Ok(Applied::SkippedStale),
        Err(e) => Err(e),
    }
}

/// The mirror after a change was handed to it: projected where that can be
/// done, else as before.
pub open spec fn applied(m: MirrorView, c: ChangeView) -> MirrorView {
    if project_outcome(m, c) is Ok {
        projected(m, c)
    } else {
        m
    }
}

/// Projecting a change where the outcome allows it keeps the mirror valid.
pub proof fn lemma_projected_valid(m: MirrorView, c: ChangeView)
    requires
        valid_mirror(m),
        project_outcome(m, c) is Ok,
    ensures
        valid_mirror(projected(m, c)),
{
    match c.payload {
        PayloadView::Schema { schema, properties } => {
            lemma_superseded_valid(m.schemas, top_key(c.key), c.partition, c.block_number, schema);
            lemma_replaced_valid(m.properties, c.key, c.partition, c.block_number, properties);
        },
        PayloadView::Organization { organization } => {
            lemma_superseded_valid(
                m.organizations,
                top_key(c.key),
                c.partition,
                c.block_number,
                organization,
            );
        },
    }
}

/// The mirror after a rollback to `height`: each of its histories is rolled
/// back.
pub open spec fn mirror_rolled_back(m: MirrorView, height: i64) -> MirrorView {
    MirrorView {
        schemas: rolled_back(m.schemas, height),
        properties: rolled_back(m.properties, height),
        organizations: rolled_back(m.organizations, height),
    }
}

/// The mirror after the blocks from `top` down to `to_block` were rolled
/// back one by one, the latest first.
pub open spec fn mirror_rolled_down(m: MirrorView, top: int, to_block: int) -> MirrorView {
    MirrorView {
        schemas: rolled_down(m.schemas, top, to_block),
        properties: rolled_down(m.properties, top, to_block),
        organizations: rolled_down(m.organizations, top, to_block),
    }
}

/// No version of the mirror starts after block `height`, and none was closed
/// after it.
pub open spec fn mirror_bounded(m: MirrorView, height: int) -> bool {
    &&& bounded_by(m.schemas, height)
    &&& bounded_by(m.properties, height)
    &&& bounded_by(m.organizations, height)
}

/// The mirror of the ledger: a store of versions for each kind of entity.
/// It is valid when it is made and stays so under every method.
pub struct Mirror {
    schemas: VersionStore<SchemaAttrs>,
    properties: VersionStore<PropertyAttrs>,
    organizations: VersionStore<OrganizationAttrs>,
}

impl View for Mirror {
    type V = MirrorView;

    closed spec fn view(&self) -> MirrorView {
        MirrorView {
            schemas: self.schemas@,
            properties: self.properties@,
            organizations: self.organizations@,
        }
    }
}

impl Mirror {
    /// A mirror without any version.
    pub fn new() -> (m: Mirror)
        ensures
            m@.schemas.len() == 0,
            m@.properties.len() == 0,
            m@.organizations.len() == 0,
            valid_mirror(m@),
    {
        Mirror {
            schemas: VersionStore::new(),
            properties: VersionStore::new(),
            organizations: VersionStore::new(),
        }
    }

    /// The versions of the schemas.
    pub fn schemas(&self) -> (s: &VersionStore<SchemaAttrs>)
        ensures
            s@ == self@.schemas,
    {
        &self.schemas
    }

    /// The versions of the property definitions, each keyed under its schema.
    pub fn properties(&self) -> (s: &VersionStore<PropertyAttrs>)
        ensures
            s@ == self@.properties,
    {
        &self.properties
    }

    /// The versions of the organizations.
    pub fn organizations(&self) -> (s: &VersionStore<OrganizationAttrs>)
        ensures
            s@ == self@.organizations,
    {
        &self.organizations
    }

    /// Undoes everything from block `height` on, for every kind of entity.
    pub fn rollback_to(&mut self, height: i64)
        requires
            valid_mirror(old(self)@),
        ensures
            valid_mirror(final(self)@),
            final(self)@ == mirror_rolled_back(old(self)@, height),
    {
        self.schemas.rollback_to(height);
        self.properties.rollback_to(height);
        self.organizations.rollback_to(height);
    }

    /// Undoes every block from the latest down to `to_block`, one by one and
    /// the latest first, for every kind of entity: the versions that start at
    /// one of these blocks are removed, and those that were closed at one of
    /// them are open again.
    pub fn rollback_through(&mut self, to_block: i64)
        requires
            valid_mirror(old(self)@),
        ensures
            valid_mirror(final(self)@),
            final(self)@ == mirror_rolled_down(old(self)@, i64::MAX as int, to_block as int),
            mirror_bounded(final(self)@, to_block - 1),
    {
        self.schemas.rollback_through(to_block);
        self.properties.rollback_through(to_block);
        self.organizations.rollback_through(to_block);
    }

    /// Projects one change as a single unit: the entity passes to a new
    /// version at the block of the change, and with a schema its property
    /// definitions pass too. Those that the change names get a new version,
    /// the others are closed.
    ///
    /// Fails with `StaleUpdate` if the block of the change is not after the
    /// start of the entity's open version, and otherwise with the error of the
    /// store that stands in the way. On failure the mirror is unchanged.
    pub fn project(&mut self, change: ChangeSet) -> (r: Result<(), MirrorError>)
        requires
            valid_mirror(old(self)@),
        ensures
            valid_mirror(final(self)@),
            r == project_outcome(old(self)@, change@),
            final(self)@ == applied(old(self)@, change@),
    {
        let ghost m = self@;
        let ghost c = change@;
        let ChangeSet { key, block_number, partition, payload } = change;
        let top = EntityKey::top(key.as_str());
        match payload {
            EntityPayload::Schema { schema, properties } => {
                if self.schemas.is_stale(&top, &partition, block_number) {
                    return Err(MirrorError::StaleUpdate);
                }
                match self.schemas.check_supersede(&top, &partition, block_number) {
                    Err(e) => {
                        return Err(e);
                    },
                    Ok(_) => {},
                }
                match self.properties.check_replace_scope(
                    key.as_str(),
                    &partition,
                    block_number,
                    &properties,
                ) {
                    Err(e) => {
                        return Err(e);
                    },
                    Ok(_) => {},
                }
                proof {
                    lemma_projected_valid(m, c);
                }
                let scope_partition = duplicate_partition(&partition);
                let _ = self.schemas.supersede(top, partition, block_number, schema);
                let _ = self.properties.replace_scope(
                    key.as_str(),
                    &scope_partition,
                    block_number,
                    properties,
                );
                Ok(())
            },
            EntityPayload::Organization { organization } => {
                if self.organizations.is_stale(&top, &partition, block_number) {
                    return Err(MirrorError::StaleUpdate);
                }
                match self.organizations.supersede(top, partition, block_number, organization) {
                    Err(e) => Err(e),
                    Ok(_) => Ok(()),
                }
            },
        }
    }

    /// Hands one change to the mirror and reports what became of it. A stale
    /// change, one that was delivered twice or too late, is left out and
    /// reported as such; it is no failure. Any other error is returned, and
    /// the mirror is then unchanged.
    pub fn apply(&mut self, change: ChangeSet) -> (r: Result<Applied, MirrorError>)
        requires
            valid_mirror(old(self)@),
        ensures
            valid_mirror(final(self)@),
            r == apply_outcome(old(self)@, change@),
            final(self)@ == applied(old(self)@, change@),
    {
        match self.project(change) {
            Ok(_) => Ok(Applied::Projected),
            Err(MirrorError::StaleUpdate) => Ok(Applied::SkippedStale),
            Err(e) => Err(e),
        }
    }
}

} // verus!
