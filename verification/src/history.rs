//! The history of a store as a sequence of versions: what makes it valid, and
//! what each operation of the store does to it.

use vstd::prelude::*;
use crate::key::KeyView;
use crate::record::{open_record, MirrorError, RecordView, OPEN_SENTINEL};

verus! {

/// Every closed version ends after it starts, and of two versions of one
/// entity one was closed no later than the other starts. So no two versions
/// of an entity are valid at the same block.
pub open spec fn valid_history<P>(s: Seq<RecordView<P>>) -> bool {
    &&& forall|i: int| 0 <= i < s.len() ==> (#[trigger] s[i]).well_ranged()
    &&& forall|i: int, j: int|
        0 <= i < s.len() && 0 <= j < s.len() && i != j && (#[trigger] s[i]).same_entity(
            #[trigger] s[j],
        ) ==> s[i].precedes(s[j]) || s[j].precedes(s[i])
}

/// The entity has an open version at position `i`.
pub open spec fn open_at<P>(
    s: Seq<RecordView<P>>,
    key: KeyView,
    partition: Option<Seq<char>>,
    i: int,
) -> bool {
    0 <= i < s.len() && s[i].of_entity(key, partition) && s[i].is_open()
}

/// The entity has an open version.
pub open spec fn has_open<P>(
    s: Seq<RecordView<P>>,
    key: KeyView,
    partition: Option<Seq<char>>,
) -> bool {
    exists|i: int| open_at(s, key, partition, i)
}

/// The entity has a version that is valid at block `height`, at position `i`.
pub open spec fn covered_at<P>(
    s: Seq<RecordView<P>>,
    key: KeyView,
    partition: Option<Seq<char>>,
    height: int,
    i: int,
) -> bool {
    0 <= i < s.len() && s[i].of_entity(key, partition) && s[i].covers(height)
}

/// The entity has a version that is valid at block `height`.
pub open spec fn has_covering<P>(
    s: Seq<RecordView<P>>,
    key: KeyView,
    partition: Option<Seq<char>>,
    height: int,
) -> bool {
    exists|i: int| covered_at(s, key, partition, height, i)
}

/// A closed version of the entity at position `i` ends after `start_block`.
pub open spec fn ends_after_at<P>(
    s: Seq<RecordView<P>>,
    key: KeyView,
    partition: Option<Seq<char>>,
    start_block: i64,
    i: int,
) -> bool {
    0 <= i < s.len() && s[i].of_entity(key, partition) && !s[i].is_open() && s[i].end_block
        > start_block
}

/// A version that starts at `start_block` would overlap a closed version of
/// the entity.
pub open spec fn overlaps_closed<P>(
    s: Seq<RecordView<P>>,
    key: KeyView,
    partition: Option<Seq<char>>,
    start_block: i64,
) -> bool {
    exists|i: int| ends_after_at(s, key, partition, start_block, i)
}

/// The open version of the entity, at position `i`, starts at `end_block` or
/// later.
pub open spec fn starts_late_at<P>(
    s: Seq<RecordView<P>>,
    key: KeyView,
    partition: Option<Seq<char>>,
    end_block: i64,
    i: int,
) -> bool {
    open_at(s, key, partition, i) && end_block <= s[i].start_block
}

/// Closing the entity at `end_block` would leave a version that does not end
/// after it starts.
pub open spec fn closes_too_early<P>(
    s: Seq<RecordView<P>>,
    key: KeyView,
    partition: Option<Seq<char>>,
    end_block: i64,
) -> bool {
    exists|i: int| starts_late_at(s, key, partition, end_block, i)
}

/// Whether a new version of the entity may be opened at `start_block`.
pub open spec fn open_outcome<P>(
    s: Seq<RecordView<P>>,
    key: KeyView,
    partition: Option<Seq<char>>,
    start_block: i64,
) -> Result<(), MirrorError> {
    if has_open(s, key, partition) {
        Err(MirrorError::Conflict)
    } else if overlaps_closed(s, key, partition, start_block) {
        Err(MirrorError::InvalidRange)
    } else {
        Ok(())
    }
}

/// The history after a new version of the entity was opened.
pub open spec fn opened<P>(
    s: Seq<RecordView<P>>,
    key: KeyView,
    partition: Option<Seq<char>>,
    start_block: i64,
    payload: P,
) -> Seq<RecordView<P>> {
    s.push(open_record(key, partition, start_block, payload))
}

/// Whether the open version of the entity may be closed at `end_block`.
pub open spec fn close_outcome<P>(
    s: Seq<RecordView<P>>,
    key: KeyView,
    partition: Option<Seq<char>>,
    end_block: i64,
) -> Result<(), MirrorError> {
    if !has_open(s, key, partition) {
        Err(MirrorError::NotFound)
    } else if end_block == OPEN_SENTINEL || closes_too_early(s, key, partition, end_block) {
        Err(MirrorError::InvalidRange)
    } else {
        Ok(())
    }
}

/// The history after the open version of the entity was closed at
/// `end_block`: every other version is as it was.
pub open spec fn closed<P>(
    s: Seq<RecordView<P>>,
    key: KeyView,
    partition: Option<Seq<char>>,
    end_block: i64,
) -> Seq<RecordView<P>> {
    Seq::new(
        s.len(),
        |i: int|
            if s[i].of_entity(key, partition) && s[i].is_open() {
                s[i].closed_at(end_block)
            } else {
                s[i]
            },
    )
}

/// Whether the entity may pass to a new version at `block`: its open version,
/// if it has one, is closed at `block`, and the new one opened there.
pub open spec fn supersede_outcome<P>(
    s: Seq<RecordView<P>>,
    key: KeyView,
    partition: Option<Seq<char>>,
    block: i64,
) -> Result<(), MirrorError> {
    if has_open(s, key, partition) {
        close_outcome(s, key, partition, block)
    } else {
        open_outcome(s, key, partition, block)
    }
}

/// The history after the entity passed to a new version at `block`.
pub open spec fn superseded<P>(
    s: Seq<RecordView<P>>,
    key: KeyView,
    partition: Option<Seq<char>>,
    block: i64,
    payload: P,
) -> Seq<RecordView<P>> {
    opened(closed(s, key, partition, block), key, partition, block, payload)
}

/// What a rollback to `height` makes of a version that it keeps: one that was
/// closed exactly at `height` is open again.
pub open spec fn restored<P>(r: RecordView<P>, height: i64) -> RecordView<P> {
    if r.end_block == height {
        r.reopened()
    } else {
        r
    }
}

/// The history after a rollback to `height`: the versions that start at
/// `height` or later are gone, those closed exactly at `height` are open
/// again, and the rest are as they were, all in their old order.
pub open spec fn rolled_back<P>(s: Seq<RecordView<P>>, height: i64) -> Seq<RecordView<P>> {
    s.filter(|r: RecordView<P>| r.start_block < height).map_values(
        |r: RecordView<P>| restored(r, height),
    )
}

/// The history after the blocks from `top` down to `to_block` were rolled
/// back one by one, the latest first. So every version that was closed at one
/// of these blocks is open again. With the largest block number for `top`,
/// every block from `to_block` on is rolled back.
pub open spec fn rolled_down<P>(s: Seq<RecordView<P>>, top: int, to_block: int) -> Seq<
    RecordView<P>,
>
    decreases top - to_block + 1,
{
    if top < to_block {
        s
    } else {
        rolled_back(rolled_down(s, top, to_block + 1), to_block as i64)
    }
}

/// No version starts after block `height`, and none was closed after it.
pub open spec fn bounded_by<P>(s: Seq<RecordView<P>>, height: int) -> bool {
    forall|i: int|
        0 <= i < s.len() ==> (#[trigger] s[i]).start_block <= height && (s[i].is_open()
            || s[i].end_block <= height)
}

/// The version at position `i` belongs to the entity.
pub open spec fn version_at<P>(
    s: Seq<RecordView<P>>,
    key: KeyView,
    partition: Option<Seq<char>>,
    i: int,
) -> bool {
    0 <= i < s.len() && s[i].of_entity(key, partition)
}

/// The history holds a version of the entity.
pub open spec fn is_known<P>(
    s: Seq<RecordView<P>>,
    key: KeyView,
    partition: Option<Seq<char>>,
) -> bool {
    exists|i: int| version_at(s, key, partition, i)
}

/// The entity has an open version, and from the start of any of its versions
/// on every block has a version that is valid there: its history is without
/// gaps from its first version on.
pub open spec fn continuous<P>(
    s: Seq<RecordView<P>>,
    key: KeyView,
    partition: Option<Seq<char>>,
) -> bool {
    &&& has_open(s, key, partition)
    &&& forall|i: int, h: int|
        #![trigger version_at(s, key, partition, i), has_covering(s, key, partition, h)]
        version_at(s, key, partition, i) && s[i].start_block <= h ==> has_covering(
            s,
            key,
            partition,
            h,
        )
}

/// Every entity of which the history holds a version is continuous.
pub open spec fn all_continuous<P>(s: Seq<RecordView<P>>) -> bool {
    forall|i: int| 0 <= i < s.len() ==> continuous(s, (#[trigger] s[i]).key, s[i].partition)
}

/// Something happened at block `height`: a version starts there or was closed
/// there.
pub open spec fn event_at<P>(s: Seq<RecordView<P>>, height: int) -> bool {
    exists|i: int|
        0 <= i < s.len() && ((#[trigger] s[i]).start_block == height || (!s[i].is_open()
            && s[i].end_block == height))
}

/// In a valid history an entity has at most one open version.
pub proof fn lemma_one_open<P>(
    s: Seq<RecordView<P>>,
    key: KeyView,
    partition: Option<Seq<char>>,
    i: int,
    j: int,
)
    requires
        valid_history(s),
        open_at(s, key, partition, i),
        open_at(s, key, partition, j),
    ensures
        i == j,
{
    if i != j {
        assert(s[i].same_entity(s[j]));
    }
}

/// In a valid history at most one version of an entity is valid at a block.
pub proof fn lemma_one_covering<P>(
    s: Seq<RecordView<P>>,
    key: KeyView,
    partition: Option<Seq<char>>,
    height: int,
    i: int,
    j: int,
)
    requires
        valid_history(s),
        covered_at(s, key, partition, height, i),
        covered_at(s, key, partition, height, j),
    ensures
        i == j,
{
    if i != j {
        assert(s[i].same_entity(s[j]));
    }
}

/// Opening a version where the outcome allows it keeps the history valid.
pub proof fn lemma_opened_valid<P>(
    s: Seq<RecordView<P>>,
    key: KeyView,
    partition: Option<Seq<char>>,
    start_block: i64,
    payload: P,
)
    requires
        valid_history(s),
        open_outcome(s, key, partition, start_block) is Ok,
    ensures
        valid_history(opened(s, key, partition, start_block, payload)),
{
    let t = opened(s, key, partition, start_block, payload);
    let n = s.len() as int;
    assert forall|i: int, j: int|
        0 <= i < t.len() && 0 <= j < t.len() && i != j && (#[trigger] t[i]).same_entity(
            #[trigger] t[j],
        ) implies t[i].precedes(t[j]) || t[j].precedes(t[i]) by {
        if i < n && j < n {
            assert(s[i].same_entity(s[j]));
        } else if i < n {
            assert(!open_at(s, key, partition, i));
            assert(!ends_after_at(s, key, partition, start_block, i));
        } else {
            assert(!open_at(s, key, partition, j));
            assert(!ends_after_at(s, key, partition, start_block, j));
        }
    }
    assert forall|i: int| 0 <= i < t.len() implies (#[trigger] t[i]).well_ranged() by {
        if i < n {
            assert(s[i].well_ranged());
        }
    }
}

/// Closing the open version where the outcome allows it keeps the history
/// valid.
pub proof fn lemma_closed_valid<P>(
    s: Seq<RecordView<P>>,
    key: KeyView,
    partition: Option<Seq<char>>,
    end_block: i64,
)
    requires
        valid_history(s),
        close_outcome(s, key, partition, end_block) is Ok,
    ensures
        valid_history(closed(s, key, partition, end_block)),
{
    let t = closed(s, key, partition, end_block);
    assert forall|i: int| 0 <= i < t.len() implies (#[trigger] t[i]).well_ranged() by {
        assert(s[i].well_ranged());
        if s[i].of_entity(key, partition) && s[i].is_open() {
            assert(!starts_late_at(s, key, partition, end_block, i));
        }
    }
    assert forall|i: int, j: int|
        0 <= i < t.len() && 0 <= j < t.len() && i != j && (#[trigger] t[i]).same_entity(
            #[trigger] t[j],
        ) implies t[i].precedes(t[j]) || t[j].precedes(t[i]) by {
        assert(s[i].same_entity(s[j]));
    }
}

/// A rollback takes the versions one by one: the last version of a history
/// is kept, restored, if it starts before `height`, and dropped otherwise.
pub proof fn lemma_rolled_back_step<P>(s: Seq<RecordView<P>>, height: i64)
    requires
        s.len() > 0,
    ensures
        rolled_back(s, height) == if s.last().start_block < height {
            rolled_back(s.drop_last(), height).push(restored(s.last(), height))
        } else {
            rolled_back(s.drop_last(), height)
        },
{
    reveal(Seq::filter);
    let keep = |r: RecordView<P>| r.start_block < height;
    let fix = |r: RecordView<P>| restored(r, height);
    if s.last().start_block < height {
        assert(s.filter(keep) == s.drop_last().filter(keep).push(s.last()));
        assert(s.filter(keep).map_values(fix) =~= s.drop_last().filter(keep).map_values(fix).push(
            fix(s.last()),
        ));
    } else {
        assert(s.filter(keep) == s.drop_last().filter(keep));
    }
}

/// Every version that a rollback leaves is the restored form of a version of
/// the old history that starts before `height`.
pub proof fn lemma_rolled_back_origin<P>(s: Seq<RecordView<P>>, height: i64, i: int)
    requires
        0 <= i < rolled_back(s, height).len(),
    ensures
        exists|j: int|
            0 <= j < s.len() && (#[trigger] s[j]).start_block < height && rolled_back(s, height)[i]
                == restored(s[j], height),
    decreases s.len(),
{
    if s.len() == 0 {
        assert(s.filter(|r: RecordView<P>| r.start_block < height).len() == 0) by {
            reveal(Seq::filter);
        }
    } else {
        lemma_rolled_back_step(s, height);
        let head = rolled_back(s.drop_last(), height);
        if i < head.len() {
            lemma_rolled_back_origin(s.drop_last(), height, i);
            let j = choose|j: int|
                0 <= j < s.drop_last().len() && (#[trigger] s.drop_last()[j]).start_block < height
                    && head[i] == restored(s.drop_last()[j], height);
            assert(s[j] == s.drop_last()[j]);
        } else {
            assert(s[s.len() - 1] == s.last());
        }
    }
}

/// Every version of the old history that starts before `height` is still
/// there after a rollback, in its restored form.
pub proof fn lemma_rolled_back_keeps<P>(s: Seq<RecordView<P>>, height: i64, j: int)
    requires
        0 <= j < s.len(),
        s[j].start_block < height,
    ensures
        rolled_back(s, height).contains(restored(s[j], height)),
    decreases s.len(),
{
    lemma_rolled_back_step(s, height);
    let head = rolled_back(s.drop_last(), height);
    if j < s.len() - 1 {
        assert(s[j] == s.drop_last()[j]);
        lemma_rolled_back_keeps(s.drop_last(), height, j);
        let i = choose|i: int| 0 <= i < head.len() && head[i] == restored(s[j], height);
        assert(rolled_back(s, height)[i] == restored(s[j], height));
    } else {
        assert(rolled_back(s, height)[head.len() as int] == restored(s[j], height));
    }
}

/// A rollback keeps a valid history valid.
pub proof fn lemma_rolled_back_valid<P>(s: Seq<RecordView<P>>, height: i64)
    requires
        valid_history(s),
    ensures
        valid_history(rolled_back(s, height)),
    decreases s.len(),
{
    let t = rolled_back(s, height);
    if s.len() == 0 {
        assert(t.len() == 0) by {
            reveal(Seq::filter);
        }
    } else {
        let front = s.drop_last();
        assert(valid_history(front)) by {
            assert forall|i: int| 0 <= i < front.len() implies (#[trigger] front[i]).well_ranged() by {
                assert(s[i].well_ranged());
            }
            assert forall|i: int, j: int|
                0 <= i < front.len() && 0 <= j < front.len() && i != j && (
                #[trigger] front[i]).same_entity(#[trigger] front[j]) implies front[i].precedes(
                front[j],
            ) || front[j].precedes(front[i]) by {
                assert(s[i].same_entity(s[j]));
            }
        }
        lemma_rolled_back_valid(front, height);
        lemma_rolled_back_step(s, height);
        let head = rolled_back(front, height);
        if s.last().start_block < height {
            let n = head.len() as int;
            let y = s.last();
            assert(y.well_ranged());
            assert forall|i: int| 0 <= i < t.len() implies (#[trigger] t[i]).well_ranged() by {
                if i < n {
                    assert(head[i].well_ranged());
                }
            }
            assert forall|i: int, j: int|
                0 <= i < t.len() && 0 <= j < t.len() && i != j && (#[trigger] t[i]).same_entity(
                    #[trigger] t[j],
                ) implies t[i].precedes(t[j]) || t[j].precedes(t[i]) by {
                if i < n && j < n {
                    assert(head[i].same_entity(head[j]));
                } else {
                    let m = if i < n { i } else { j };
                    lemma_rolled_back_origin(front, height, m);
                    let k = choose|k: int|
                        0 <= k < front.len() && (#[trigger] front[k]).start_block < height
                            && head[m] == restored(front[k], height);
                    assert(s[k] == front[k]);
                    assert(s[k].same_entity(s[s.len() - 1]));
                    assert(s[k].precedes(y) || y.precedes(s[k]));
                }
            }
        }
    }
}

/// Closing changes nothing where the entity has no open version.
pub proof fn lemma_closed_without_open<P>(
    s: Seq<RecordView<P>>,
    key: KeyView,
    partition: Option<Seq<char>>,
    end_block: i64,
)
    requires
        !has_open(s, key, partition),
    ensures
        closed(s, key, partition, end_block) == s,
{
    let t = closed(s, key, partition, end_block);
    assert forall|i: int| 0 <= i < s.len() implies t[i] == s[i] by {
        assert(!open_at(s, key, partition, i));
    }
    assert(t =~= s);
}

/// Once the open version of an entity is closed at a block, a new version may
/// be opened at that block.
pub proof fn lemma_open_follows_close<P>(
    s: Seq<RecordView<P>>,
    key: KeyView,
    partition: Option<Seq<char>>,
    block: i64,
)
    requires
        valid_history(s),
        close_outcome(s, key, partition, block) is Ok,
    ensures
        open_outcome(closed(s, key, partition, block), key, partition, block) is Ok,
{
    let t = closed(s, key, partition, block);
    let w = choose|w: int| open_at(s, key, partition, w);
    assert(!starts_late_at(s, key, partition, block, w));
    assert forall|i: int| !open_at(t, key, partition, i) by {}
    assert forall|i: int| !ends_after_at(t, key, partition, block, i) by {
        if 0 <= i < t.len() && t[i].of_entity(key, partition) && i != w {
            assert(s[i].same_entity(s[w]));
        }
    }
}

/// Passing to a new version where the outcome allows it keeps the history
/// valid.
pub proof fn lemma_superseded_valid<P>(
    s: Seq<RecordView<P>>,
    key: KeyView,
    partition: Option<Seq<char>>,
    block: i64,
    payload: P,
)
    requires
        valid_history(s),
        supersede_outcome(s, key, partition, block) is Ok,
    ensures
        valid_history(superseded(s, key, partition, block, payload)),
{
    if has_open(s, key, partition) {
        lemma_closed_valid(s, key, partition, block);
        lemma_open_follows_close(s, key, partition, block);
    } else {
        lemma_closed_without_open(s, key, partition, block);
    }
    lemma_opened_valid(closed(s, key, partition, block), key, partition, block, payload);
}

/// After the latest block of a history was rolled back, the history ends one
/// block earlier.
pub proof fn lemma_rolled_back_bounded<P>(s: Seq<RecordView<P>>, height: i64)
    requires
        bounded_by(s, height as int),
    ensures
        bounded_by(rolled_back(s, height), height - 1),
{
    let t = rolled_back(s, height);
    assert forall|i: int| 0 <= i < t.len() implies (#[trigger] t[i]).start_block <= height - 1 && (
    t[i].is_open() || t[i].end_block <= height - 1) by {
        lemma_rolled_back_origin(s, height, i);
        let j = choose|j: int|
            0 <= j < s.len() && (#[trigger] s[j]).start_block < height && t[i] == restored(
                s[j],
                height,
            );
        assert(s[j].is_open() || s[j].end_block <= height);
    }
}

/// Rolling back block after block keeps a valid history valid, and leaves
/// nothing that starts or was closed at one of the blocks.
pub proof fn lemma_rolled_down_valid<P>(s: Seq<RecordView<P>>, top: i64, to_block: int)
    requires
        valid_history(s),
        bounded_by(s, top as int),
        i64::MIN <= to_block,
    ensures
        valid_history(rolled_down(s, top as int, to_block)),
        bounded_by(
            rolled_down(s, top as int, to_block),
            if top < to_block {
                top as int
            } else {
                to_block - 1
            },
        ),
    decreases top - to_block + 1,
{
    if top >= to_block {
        lemma_rolled_down_valid(s, top, to_block + 1);
        let before = rolled_down(s, top as int, to_block + 1);
        assert(bounded_by(before, to_block)) by {
            assert forall|i: int| 0 <= i < before.len() implies (
            #[trigger] before[i]).start_block <= to_block && (before[i].is_open()
                || before[i].end_block <= to_block) by {}
        }
        lemma_rolled_back_valid(before, to_block as i64);
        lemma_rolled_back_bounded(before, to_block as i64);
    }
}

/// A rollback to a block after everything in the history changes nothing.
pub proof fn lemma_rolled_back_nothing<P>(s: Seq<RecordView<P>>, bound: int, height: i64)
    requires
        bounded_by(s, bound),
        bound < height,
    ensures
        rolled_back(s, height) == s,
    decreases s.len(),
{
    if s.len() == 0 {
        assert(s.filter(|r: RecordView<P>| r.start_block < height).len() == 0) by {
            reveal(Seq::filter);
        }
        assert(rolled_back(s, height) =~= s);
    } else {
        let front = s.drop_last();
        assert(bounded_by(front, bound)) by {
            assert forall|i: int| 0 <= i < front.len() implies (#[trigger] front[i]).start_block
                <= bound && (front[i].is_open() || front[i].end_block <= bound) by {
                assert(front[i] == s[i]);
            }
        }
        lemma_rolled_back_nothing(front, bound, height);
        lemma_rolled_back_step(s, height);
        assert(s.last() == s[s.len() - 1]);
        assert(restored(s.last(), height) == s.last());
        assert(rolled_back(s, height) =~= s);
    }
}

/// Rolling back from a block after everything in the history is rolling back
/// from the last block at which something happened: the blocks between undo
/// nothing.
pub proof fn lemma_rolled_down_from_bound<P>(
    s: Seq<RecordView<P>>,
    top: int,
    bound: int,
    to_block: int,
)
    requires
        bounded_by(s, bound),
        bound <= top,
        i64::MIN <= to_block,
        top <= i64::MAX,
    ensures
        rolled_down(s, top, to_block) == rolled_down(s, bound, to_block),
    decreases top - to_block + 1,
{
    if top >= to_block {
        lemma_rolled_down_from_bound(s, top, bound, to_block + 1);
        if bound < to_block {
            lemma_rolled_back_nothing(s, bound, to_block as i64);
        }
    }
}

/// A block at which something happened is not after the end of the history.
pub proof fn lemma_event_within<P>(s: Seq<RecordView<P>>, bound: int, height: int)
    requires
        bounded_by(s, bound),
    ensures
        event_at(s, height) ==> height <= bound,
{
    if event_at(s, height) {
        let i = choose|i: int|
            0 <= i < s.len() && ((#[trigger] s[i]).start_block == height || (!s[i].is_open()
                && s[i].end_block == height));
        assert(s[i].start_block <= bound);
    }
}

/// An empty history stays empty however far it is rolled back.
pub proof fn lemma_rolled_down_nothing<P>(s: Seq<RecordView<P>>, top: int, to_block: int)
    requires
        s.len() == 0,
        i64::MIN <= to_block,
        top <= i64::MAX,
    ensures
        rolled_down(s, top, to_block) == s,
    decreases top - to_block + 1,
{
    if top >= to_block {
        lemma_rolled_down_nothing(s, top, to_block + 1);
        assert(bounded_by(s, to_block - 1));
        lemma_rolled_back_nothing(s, to_block - 1, to_block as i64);
    }
}

/// Rolling back from `top` down to `to_block` begins with a rollback to
/// `top`: the rest goes on from the block before it.
pub proof fn lemma_rolled_down_top<P>(s: Seq<RecordView<P>>, top: i64, to_block: int)
    requires
        i64::MIN <= to_block <= top,
    ensures
        rolled_down(s, top as int, to_block) == rolled_down(
            rolled_back(s, top),
            top - 1,
            to_block,
        ),
    decreases top - to_block,
{
    if to_block < top {
        lemma_rolled_down_top(s, top, to_block + 1);
    } else {
        assert(rolled_down(s, top as int, top + 1) == s);
        assert(rolled_down(rolled_back(s, top), top - 1, top as int) == rolled_back(s, top));
    }
}

/// Nothing in a history lies after the largest block number.
pub proof fn lemma_bounded_by_max<P>(s: Seq<RecordView<P>>)
    ensures
        bounded_by(s, i64::MAX as int),
{
    assert forall|i: int| 0 <= i < s.len() implies (#[trigger] s[i]).start_block <= i64::MAX && (
    s[i].is_open() || s[i].end_block <= i64::MAX) by {}
}

} // verus!
