//! One version of an entity, and the errors of the engine.

use vstd::prelude::*;
use crate::key::{EntityKey, KeyView};

verus! {

/// The `end_block` of a version that is still open.
pub const OPEN_SENTINEL: i64 = 9_223_372_036_854_775_807;

/// What can go wrong while the mirror is written or read.
#[derive(Debug, Clone, Copy, PartialEq, Eq, Structural)]
pub enum MirrorError {
    /// A second open version of one entity was asked for.
    Conflict,
    /// No version answers the request.
    NotFound,
    /// The block numbers of a version would be out of order.
    InvalidRange,
    /// A change arrived that is not newer than the open version.
    StaleUpdate,
    /// The backing storage gave no answer in time.
    StorageUnavailable,
}

/// A version of an entity: valid from `start_block` on, up to but not
/// including `end_block`, or still open.
#[derive(Debug)]
pub struct VersionedRecord<P> {
    pub key: EntityKey,
    pub service_partition: Option<String>,
    pub start_block: i64,
    pub end_block: i64,
    pub payload: P,
}

/// A version as plain values.
pub struct RecordView<P> {
    pub key: KeyView,
    pub partition: Option<Seq<char>>,
    pub start_block: i64,
    pub end_block: i64,
    pub payload: P,
}

impl<P> View for VersionedRecord<P> {
    type V = RecordView<P>;

    open spec fn view(&self) -> RecordView<P> {
        RecordView {
            key: self.key@,
            partition: self.service_partition.deep_view(),
            start_block: self.start_block,
            end_block: self.end_block,
            payload: self.payload,
        }
    }
}

impl<P> RecordView<P> {
    /// The version has not been closed.
    pub open spec fn is_open(self) -> bool {
        self.end_block == OPEN_SENTINEL
    }

    /// The version belongs to the entity `key` of `partition`.
    pub open spec fn of_entity(self, key: KeyView, partition: Option<Seq<char>>) -> bool {
        self.key == key && self.partition == partition
    }

    /// Both versions belong to one entity.
    pub open spec fn same_entity(self, other: RecordView<P>) -> bool {
        self.key == other.key && self.partition == other.partition
    }

    /// The version is the valid one at block `height`.
    pub open spec fn covers(self, height: int) -> bool {
        self.start_block <= height && (self.is_open() || height < self.end_block)
    }

    /// A closed version ends after it starts.
    pub open spec fn well_ranged(self) -> bool {
        self.is_open() || self.start_block < self.end_block
    }

    /// The version was closed no later than `other` starts.
    pub open spec fn precedes(self, other: RecordView<P>) -> bool {
        !self.is_open() && self.end_block <= other.start_block
    }

    /// The same version, closed at `end_block`.
    pub open spec fn closed_at(self, end_block: i64) -> RecordView<P> {
        RecordView { end_block, ..self }
    }

    /// The same version, open again.
    pub open spec fn reopened(self) -> RecordView<P> {
        RecordView { end_block: OPEN_SENTINEL, ..self }
    }
}

/// The open version of entity `key` of `partition` that starts at
/// `start_block` and carries `payload`.
pub open spec fn open_record<P>(
    key: KeyView,
    partition: Option<Seq<char>>,
    start_block: i64,
    payload: P,
) -> RecordView<P> {
    RecordView { key, partition, start_block, end_block: OPEN_SENTINEL, payload }
}

impl<P> VersionedRecord<P> {
    /// Whether the version is still open.
    pub fn is_open(&self) -> (r: bool)
        ensures
            r == self@.is_open(),
    {
        self.end_block == OPEN_SENTINEL
    }

    /// Whether the version is the valid one at block `height`.
    pub fn covers(&self, height: i64) -> (r: bool)
        ensures
            r == self@.covers(height as int),
    {
        self.start_block <= height && (self.end_block == OPEN_SENTINEL || height < self.end_block)
    }
}

} // verus!
