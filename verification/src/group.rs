//! A parent and its children move together: when the parent passes to a new
//! version, the open versions of all its children are closed at the same
//! block, and the children that the new version names are opened there.

use vstd::prelude::*;
use crate::history::{ends_after_at, overlaps_closed, valid_history};
use crate::key::child_key;
use crate::record::{open_record, MirrorError, RecordView, OPEN_SENTINEL};

verus! {

/// A child that a new version of its parent names.
#[derive(Debug)]
pub struct Member<C> {
    pub name: String,
    pub attrs: C,
}

/// A named child as plain values.
pub struct MemberView<C> {
    pub name: Seq<char>,
    pub attrs: C,
}

impl<C> View for Member<C> {
    type V = MemberView<C>;

    open spec fn view(&self) -> MemberView<C> {
        MemberView { name: self.name@, attrs: self.attrs }
    }
}

/// The named children as plain values.
pub open spec fn members_view<C>(members: Seq<Member<C>>) -> Seq<MemberView<C>> {
    members.map_values(|m: Member<C>| m@)
}

/// The version belongs to a child of the entity called `scope`, in
/// `partition`.
pub open spec fn in_scope<C>(
    r: RecordView<C>,
    scope: Seq<char>,
    partition: Option<Seq<char>>,
) -> bool {
    r.key.scope == scope && r.partition == partition
}

/// The version at position `i` is an open version of a child of `scope`.
pub open spec fn open_in_scope_at<C>(
    s: Seq<RecordView<C>>,
    scope: Seq<char>,
    partition: Option<Seq<char>>,
    i: int,
) -> bool {
    0 <= i < s.len() && in_scope(s[i], scope, partition) && s[i].is_open()
}

/// The open version of a child at position `i` cannot be closed at `block`.
pub open spec fn stuck_at<C>(
    s: Seq<RecordView<C>>,
    scope: Seq<char>,
    partition: Option<Seq<char>>,
    block: i64,
    i: int,
) -> bool {
    open_in_scope_at(s, scope, partition, i) && (block == OPEN_SENTINEL || block
        <= s[i].start_block)
}

/// The open version of a child at position `i` starts at `block` or later.
pub open spec fn late_in_scope_at<C>(
    s: Seq<RecordView<C>>,
    scope: Seq<char>,
    partition: Option<Seq<char>>,
    block: i64,
    i: int,
) -> bool {
    open_in_scope_at(s, scope, partition, i) && block <= s[i].start_block
}

/// A change of the children of `scope` at `block` is stale: an open version
/// of one of them starts at `block` or later.
pub open spec fn scope_is_stale<C>(
    s: Seq<RecordView<C>>,
    scope: Seq<char>,
    partition: Option<Seq<char>>,
    block: i64,
) -> bool {
    exists|i: int| late_in_scope_at(s, scope, partition, block, i)
}

/// A closed version of the child that member `j` names ends after `block`.
pub open spec fn member_overlaps_at<C>(
    s: Seq<RecordView<C>>,
    scope: Seq<char>,
    partition: Option<Seq<char>>,
    block: i64,
    members: Seq<MemberView<C>>,
    j: int,
) -> bool {
    0 <= j < members.len() && overlaps_closed(
        s,
        child_key(scope, members[j].name),
        partition,
        block,
    )
}

/// Members `i` and `j` name the same child.
pub open spec fn repeated_at<C>(members: Seq<MemberView<C>>, i: int, j: int) -> bool {
    0 <= i < j < members.len() && members[i].name == members[j].name
}

/// Whether the children of `scope` may be replaced by `members` at `block`.
/// `InvalidRange`: an open version of a child cannot be closed at `block`,
/// or a closed version of a named child ends after `block`. `Conflict`: two
/// members name the same child.
pub open spec fn replace_outcome<C>(
    s: Seq<RecordView<C>>,
    scope: Seq<char>,
    partition: Option<Seq<char>>,
    block: i64,
    members: Seq<MemberView<C>>,
) -> Result<(), MirrorError> {
    if exists|i: int| stuck_at(s, scope, partition, block, i) {
        Err(MirrorError::InvalidRange)
    } else if exists|j: int| member_overlaps_at(s, scope, partition, block, members, j) {
        Err(MirrorError::InvalidRange)
    } else if exists|i: int, j: int| repeated_at(members, i, j) {
        Err(MirrorError::Conflict)
    } else {
        Ok(())
    }
}

/// The history after every open version of a child of `scope` was closed at
/// `block`.
pub open spec fn closed_scope<C>(
    s: Seq<RecordView<C>>,
    scope: Seq<char>,
    partition: Option<Seq<char>>,
    block: i64,
) -> Seq<RecordView<C>> {
    Seq::new(
        s.len(),
        |i: int|
            if in_scope(s[i], scope, partition) && s[i].is_open() {
                s[i].closed_at(block)
            } else {
                s[i]
            },
    )
}

/// The versions that open the named children at `block`, in the order of the
/// members.
pub open spec fn member_records<C>(
    scope: Seq<char>,
    partition: Option<Seq<char>>,
    block: i64,
    members: Seq<MemberView<C>>,
) -> Seq<RecordView<C>> {
    Seq::new(
        members.len(),
        |j: int| open_record(child_key(scope, members[j].name), partition, block, members[j].attrs),
    )
}

/// The history after the children of `scope` were replaced by `members` at
/// `block`: a child that is named again passes to a new version, one that is
/// not named is closed and stays closed.
pub open spec fn replaced<C>(
    s: Seq<RecordView<C>>,
    scope: Seq<char>,
    partition: Option<Seq<char>>,
    block: i64,
    members: Seq<MemberView<C>>,
) -> Seq<RecordView<C>> {
    closed_scope(s, scope, partition, block) + member_records(scope, partition, block, members)
}

/// Replacing the children where the outcome allows it keeps the history
/// valid.
pub proof fn lemma_replaced_valid<C>(
    s: Seq<RecordView<C>>,
    scope: Seq<char>,
    partition: Option<Seq<char>>,
    block: i64,
    members: Seq<MemberView<C>>,
)
    requires
        valid_history(s),
        replace_outcome(s, scope, partition, block, members) is Ok,
    ensures
        valid_history(replaced(s, scope, partition, block, members)),
{
    let c = closed_scope(s, scope, partition, block);
    let m = member_records(scope, partition, block, members);
    let t = replaced(s, scope, partition, block, members);
    let n = s.len() as int;
    assert forall|i: int| 0 <= i < t.len() implies (#[trigger] t[i]).well_ranged() by {
        if i < n {
            assert(s[i].well_ranged());
            assert(!stuck_at(s, scope, partition, block, i));
        }
    }
    assert forall|i: int, j: int|
        0 <= i < t.len() && 0 <= j < t.len() && i != j && (#[trigger] t[i]).same_entity(
            #[trigger] t[j],
        ) implies t[i].precedes(t[j]) || t[j].precedes(t[i]) by {
        if i < n && j < n {
            assert(s[i].same_entity(s[j]));
            assert(!stuck_at(s, scope, partition, block, i));
            assert(!stuck_at(s, scope, partition, block, j));
        } else if i >= n && j >= n {
            assert(!repeated_at(members, i - n, j - n));
            assert(!repeated_at(members, j - n, i - n));
        } else {
            let (a, b) = if i < n {
                (i, j - n)
            } else {
                (j, i - n)
            };
            assert(t[a] == c[a] && t[n + b] == m[b]);
            assert(!stuck_at(s, scope, partition, block, a));
            assert(!member_overlaps_at(s, scope, partition, block, members, b));
            assert(!ends_after_at(s, child_key(scope, members[b].name), partition, block, a));
        }
    }
}

} // verus!
