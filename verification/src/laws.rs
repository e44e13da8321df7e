//! What holds of the mirror whatever changes it is given.

use vstd::prelude::*;
use crate::group::{member_records, open_in_scope_at, stuck_at};
use crate::history::{
    all_continuous, bounded_by, close_outcome, closed, continuous, covered_at, has_covering,
    has_open, is_known, lemma_closed_valid, lemma_one_covering, lemma_one_open, lemma_opened_valid,
    lemma_rolled_back_keeps, lemma_rolled_back_origin, lemma_rolled_back_step,
    lemma_rolled_back_valid, lemma_rolled_down_valid, lemma_superseded_valid, open_at, open_outcome,
    opened, restored, rolled_back, rolled_down, starts_late_at, supersede_outcome, superseded,
    valid_history, version_at,
};
use crate::key::{child_key, top_key, KeyView};
use crate::projector::{
    applied, lemma_projected_valid, project_outcome, projected, valid_mirror, ChangeView,
    MirrorView, PayloadView,
};
use crate::record::{open_record, MirrorError, RecordView};

verus! {

/// A history that was without gaps stays so when the entity passes to a new
/// version, and a first version begins such a history. After the step the
/// entity has exactly one open version, the new one.
pub proof fn law_new_version_keeps_continuity<P>(
    s: Seq<RecordView<P>>,
    key: KeyView,
    partition: Option<Seq<char>>,
    block: i64,
    payload: P,
)
    requires
        valid_history(s),
        supersede_outcome(s, key, partition, block) is Ok,
        !is_known(s, key, partition) || continuous(s, key, partition),
    ensures
        continuous(superseded(s, key, partition, block, payload), key, partition),
        forall|i: int|
            open_at(superseded(s, key, partition, block, payload), key, partition, i) ==> i
                == s.len(),
{
    let t = superseded(s, key, partition, block, payload);
    let n = s.len() as int;
    lemma_superseded_valid(s, key, partition, block, payload);
    assert(open_at(t, key, partition, n));
    assert forall|i: int| open_at(t, key, partition, i) implies i == n by {
        lemma_one_open(t, key, partition, i, n);
    }
    assert forall|i: int, h: int|
        #![trigger version_at(t, key, partition, i), has_covering(t, key, partition, h)]
        version_at(t, key, partition, i) && t[i].start_block <= h implies has_covering(
        t,
        key,
        partition,
        h,
    ) by {
        if block <= h {
            assert(covered_at(t, key, partition, h, n));
        } else {
            assert(version_at(s, key, partition, i));
            assert(has_covering(s, key, partition, h));
            let j = choose|j: int| covered_at(s, key, partition, h, j);
            assert(covered_at(t, key, partition, h, j));
        }
    }
}

/// A new version of one entity leaves the history of every other entity
/// without gaps if it was so.
pub proof fn law_new_version_leaves_others<P>(
    s: Seq<RecordView<P>>,
    key: KeyView,
    partition: Option<Seq<char>>,
    block: i64,
    payload: P,
    other: KeyView,
    other_partition: Option<Seq<char>>,
)
    requires
        continuous(s, other, other_partition),
        other != key || other_partition != partition,
    ensures
        continuous(superseded(s, key, partition, block, payload), other, other_partition),
{
    let t = superseded(s, key, partition, block, payload);
    let w = choose|w: int| open_at(s, other, other_partition, w);
    assert(open_at(t, other, other_partition, w));
    assert forall|i: int, h: int|
        #![trigger version_at(t, other, other_partition, i), has_covering(t, other, other_partition, h)]
        version_at(t, other, other_partition, i) && t[i].start_block <= h implies has_covering(
        t,
        other,
        other_partition,
        h,
    ) by {
        assert(version_at(s, other, other_partition, i));
        assert(has_covering(s, other, other_partition, h));
        let j = choose|j: int| covered_at(s, other, other_partition, h, j);
        assert(covered_at(t, other, other_partition, h, j));
    }
}

/// Where every entity of a history is without gaps, a new version of any
/// entity leaves it so.
pub proof fn law_new_version_keeps_all_continuous<P>(
    s: Seq<RecordView<P>>,
    key: KeyView,
    partition: Option<Seq<char>>,
    block: i64,
    payload: P,
)
    requires
        valid_history(s),
        all_continuous(s),
        supersede_outcome(s, key, partition, block) is Ok,
    ensures
        all_continuous(superseded(s, key, partition, block, payload)),
{
    let t = superseded(s, key, partition, block, payload);
    assert forall|i: int| 0 <= i < t.len() implies continuous(
        t,
        (#[trigger] t[i]).key,
        t[i].partition,
    ) by {
        if t[i].key == key && t[i].partition == partition {
            if is_known(s, key, partition) {
                let j = choose|j: int| version_at(s, key, partition, j);
                assert(continuous(s, s[j].key, s[j].partition));
            }
            law_new_version_keeps_continuity(s, key, partition, block, payload);
        } else {
            assert(continuous(s, s[i].key, s[i].partition));
            law_new_version_leaves_others(
                s,
                key,
                partition,
                block,
                payload,
                t[i].key,
                t[i].partition,
            );
        }
    }
}

/// The mirror after a run of changes was handed to it, one after the other.
pub open spec fn applied_all(m: MirrorView, changes: Seq<ChangeView>) -> MirrorView
    decreases changes.len(),
{
    if changes.len() == 0 {
        m
    } else {
        applied(applied_all(m, changes.drop_last()), changes.last())
    }
}

/// Whatever changes the mirror is given, in whatever order, after each of
/// them every schema and every organization that it holds has exactly one
/// open version, and its versions cover every block from the start of its
/// first version on, without a gap and without an overlap.
pub proof fn law_histories_stay_continuous(m: MirrorView, changes: Seq<ChangeView>)
    requires
        valid_mirror(m),
        all_continuous(m.schemas),
        all_continuous(m.organizations),
    ensures
        valid_mirror(applied_all(m, changes)),
        all_continuous(applied_all(m, changes).schemas),
        all_continuous(applied_all(m, changes).organizations),
    decreases changes.len(),
{
    if changes.len() > 0 {
        let before = applied_all(m, changes.drop_last());
        let c = changes.last();
        law_histories_stay_continuous(m, changes.drop_last());
        if project_outcome(before, c) is Ok {
            lemma_projected_valid(before, c);
            match c.payload {
                PayloadView::Schema { schema, properties } => {
                    law_new_version_keeps_all_continuous(
                        before.schemas,
                        top_key(c.key),
                        c.partition,
                        c.block_number,
                        schema,
                    );
                },
                PayloadView::Organization { organization } => {
                    law_new_version_keeps_all_continuous(
                        before.organizations,
                        top_key(c.key),
                        c.partition,
                        c.block_number,
                        organization,
                    );
                },
            }
        }
    }
}

/// Handing a change in twice is as good as once. If the first time
/// projected it, the second time finds it stale and changes nothing, and so
/// does any change to the same entity at the same block; if the first time
/// failed or found it stale, nothing was changed, and the second time ends as
/// the first.
pub proof fn law_second_application_is_stale(m: MirrorView, c: ChangeView, again: ChangeView)
    requires
        valid_mirror(m),
        again.key == c.key,
        again.partition == c.partition,
        again.block_number == c.block_number,
        again.payload is Schema <==> c.payload is Schema,
    ensures
        applied(applied(m, c), c) == applied(m, c),
        project_outcome(m, c) is Ok ==> project_outcome(applied(m, c), again) == Err::<
            (),
            MirrorError,
        >(MirrorError::StaleUpdate) && applied(applied(m, c), again) == applied(m, c),
{
    if project_outcome(m, c) is Ok {
        let after = projected(m, c);
        match c.payload {
            PayloadView::Schema { schema, properties } => {
                let n = m.schemas.len() as int;
                assert(starts_late_at(
                    after.schemas,
                    top_key(c.key),
                    c.partition,
                    c.block_number,
                    n,
                ));
            },
            PayloadView::Organization { organization } => {
                let n = m.organizations.len() as int;
                assert(starts_late_at(
                    after.organizations,
                    top_key(c.key),
                    c.partition,
                    c.block_number,
                    n,
                ));
            },
        }
    }
}

/// A version that was opened at `start_block` and closed at `end_block` is
/// the one that is read as of `start_block`: the entity has a version that is
/// valid there, and it is the one with the payload that was given and with
/// these two blocks.
pub proof fn law_open_close_read<P>(
    s: Seq<RecordView<P>>,
    key: KeyView,
    partition: Option<Seq<char>>,
    start_block: i64,
    end_block: i64,
    payload: P,
)
    requires
        valid_history(s),
        open_outcome(s, key, partition, start_block) is Ok,
        close_outcome(opened(s, key, partition, start_block, payload), key, partition, end_block)
            is Ok,
    ensures
        has_covering(
            closed(opened(s, key, partition, start_block, payload), key, partition, end_block),
            key,
            partition,
            start_block as int,
        ),
        forall|i: int|
            covered_at(
                closed(opened(s, key, partition, start_block, payload), key, partition, end_block),
                key,
                partition,
                start_block as int,
                i,
            ) ==> closed(
                opened(s, key, partition, start_block, payload),
                key,
                partition,
                end_block,
            )[i] == open_record(key, partition, start_block, payload).closed_at(end_block),
{
    let o = opened(s, key, partition, start_block, payload);
    let t = closed(o, key, partition, end_block);
    let n = s.len() as int;
    lemma_opened_valid(s, key, partition, start_block, payload);
    lemma_closed_valid(o, key, partition, end_block);
    assert(open_at(o, key, partition, n));
    assert(!starts_late_at(o, key, partition, end_block, n));
    assert(covered_at(t, key, partition, start_block as int, n));
    assert forall|i: int| covered_at(t, key, partition, start_block as int, i) implies t[i]
        == open_record(key, partition, start_block, payload).closed_at(end_block) by {
        lemma_one_covering(t, key, partition, start_block as int, i, n);
    }
}

/// A rollback to the block at which an entity passed to a new version takes
/// that step back: the new version is gone and the one before it is open
/// again, provided that nothing else in the history starts at that block or
/// later, or was closed at it.
pub proof fn law_rollback_undoes_new_version<P>(
    s: Seq<RecordView<P>>,
    key: KeyView,
    partition: Option<Seq<char>>,
    block: i64,
    payload: P,
)
    requires
        valid_history(s),
        supersede_outcome(s, key, partition, block) is Ok,
        forall|i: int| 0 <= i < s.len() ==> (#[trigger] s[i]).start_block < block,
        forall|i: int| 0 <= i < s.len() && !(#[trigger] s[i]).is_open() ==> s[i].end_block != block,
    ensures
        rolled_back(superseded(s, key, partition, block, payload), block) == s,
{
    let c = closed(s, key, partition, block);
    let t = superseded(s, key, partition, block, payload);
    lemma_rolled_back_step(t, block);
    assert(t.drop_last() =~= c);
    lemma_rolled_back_restores(s, c, block);
}

/// A rollback to `height` restores a history whose versions all start before
/// `height` from one in which some of its open versions were closed at
/// `height`.
proof fn lemma_rolled_back_restores<P>(s: Seq<RecordView<P>>, c: Seq<RecordView<P>>, height: i64)
    requires
        s.len() == c.len(),
        forall|i: int| 0 <= i < s.len() ==> (#[trigger] s[i]).start_block < height,
        forall|i: int| 0 <= i < s.len() && !(#[trigger] s[i]).is_open() ==> s[i].end_block != height,
        forall|i: int|
            0 <= i < s.len() ==> #[trigger] c[i] == s[i] || (s[i].is_open() && c[i]
                == s[i].closed_at(height)),
    ensures
        rolled_back(c, height) == s,
    decreases s.len(),
{
    if s.len() == 0 {
        assert(c.filter(|r: RecordView<P>| r.start_block < height).len() == 0) by {
            reveal(Seq::filter);
        }
        assert(rolled_back(c, height) =~= s);
    } else {
        let n = s.len() - 1;
        lemma_rolled_back_step(c, height);
        assert forall|i: int| 0 <= i < n implies #[trigger] c.drop_last()[i] == s.drop_last()[i] || (
        s.drop_last()[i].is_open() && c.drop_last()[i] == s.drop_last()[i].closed_at(height)) by {
            assert(c[i] == s[i] || (s[i].is_open() && c[i] == s[i].closed_at(height)));
        }
        assert forall|i: int| 0 <= i < n implies (#[trigger] s.drop_last()[i]).start_block
            < height by {
            assert(s[i].start_block < height);
        }
        assert forall|i: int| 0 <= i < n && !(#[trigger] s.drop_last()[i]).is_open() implies s.drop_last()[i].end_block
            != height by {
            assert(!s[i].is_open() ==> s[i].end_block != height);
        }
        lemma_rolled_back_restores(s.drop_last(), c.drop_last(), height);
        assert(c[n] == s[n] || (s[n].is_open() && c[n] == s[n].closed_at(height)));
        assert(s[n].start_block < height);
        assert(restored(c[n], height) == s[n]);
        assert(rolled_back(c, height) =~= s);
    }
}

/// What a rollback does, in full: it keeps a valid history valid; no version
/// that it leaves starts at `height` or later; and every version of the old
/// history that starts before `height` is still there, open again if it was
/// closed exactly at `height` and else as it was.
pub proof fn law_rollback_removes_and_reopens<P>(s: Seq<RecordView<P>>, height: i64)
    requires
        valid_history(s),
    ensures
        valid_history(rolled_back(s, height)),
        forall|i: int|
            0 <= i < rolled_back(s, height).len() ==> (#[trigger] rolled_back(
                s,
                height,
            )[i]).start_block < height,
        forall|j: int|
            0 <= j < s.len() && (#[trigger] s[j]).start_block < height ==> rolled_back(
                s,
                height,
            ).contains(restored(s[j], height)),
        rolled_back(s, height).len() <= s.len(),
{
    let t = rolled_back(s, height);
    lemma_rolled_back_valid(s, height);
    assert forall|i: int| 0 <= i < t.len() implies (#[trigger] t[i]).start_block < height by {
        lemma_rolled_back_origin(s, height, i);
    }
    assert forall|j: int| 0 <= j < s.len() && (#[trigger] s[j]).start_block < height implies t.contains(
        restored(s[j], height),
    ) by {
        lemma_rolled_back_keeps(s, height, j);
    }
    s.lemma_filter_len(|r: RecordView<P>| r.start_block < height);
}

/// A rollback of the latest block leaves histories without gaps. Where no
/// version starts or was closed after `height` and every entity had one open
/// version and no gap, the same holds after the rollback to `height` of every
/// entity that is left: the version that the removed one had closed is open
/// again.
pub proof fn law_rollback_keeps_continuity<P>(s: Seq<RecordView<P>>, height: i64)
    requires
        valid_history(s),
        all_continuous(s),
        bounded_by(s, height as int),
    ensures
        all_continuous(rolled_back(s, height)),
{
    let t = rolled_back(s, height);
    assert forall|i: int| 0 <= i < t.len() implies continuous(
        t,
        (#[trigger] t[i]).key,
        t[i].partition,
    ) by {
        lemma_rolled_back_origin(s, height, i);
        let j = choose|j: int|
            0 <= j < s.len() && (#[trigger] s[j]).start_block < height && t[i] == restored(
                s[j],
                height,
            );
        let key = s[j].key;
        let partition = s[j].partition;
        assert(continuous(s, key, partition));
        assert(version_at(s, key, partition, j));
        let w = choose|w: int| open_at(s, key, partition, w);
        let just_before: int = height - 1;
        // the version that is open after the rollback
        let keeper = if s[w].start_block < height {
            w
        } else {
            assert(has_covering(s, key, partition, just_before));
            let c = choose|c: int| covered_at(s, key, partition, just_before, c);
            if s[c].is_open() {
                lemma_one_open(s, key, partition, c, w);
            }
            c
        };
        assert(s[keeper].start_block < height && restored(s[keeper], height).is_open());
        lemma_rolled_back_keeps(s, height, keeper);
        let o = choose|o: int| 0 <= o < t.len() && t[o] == restored(s[keeper], height);
        assert(open_at(t, key, partition, o));
        assert forall|x: int, g: int|
            #![trigger version_at(t, key, partition, x), has_covering(t, key, partition, g)]
            version_at(t, key, partition, x) && t[x].start_block <= g implies has_covering(
            t,
            key,
            partition,
            g,
        ) by {
            lemma_rolled_back_origin(s, height, x);
            let y = choose|y: int|
                0 <= y < s.len() && (#[trigger] s[y]).start_block < height && t[x] == restored(
                    s[y],
                    height,
                );
            assert(version_at(s, key, partition, y));
            assert(has_covering(s, key, partition, g));
            let d = choose|d: int| covered_at(s, key, partition, g, d);
            if s[d].start_block < height {
                lemma_rolled_back_keeps(s, height, d);
                let z = choose|z: int| 0 <= z < t.len() && t[z] == restored(s[d], height);
                assert(covered_at(t, key, partition, g, z));
            } else {
                assert(covered_at(t, key, partition, g, o));
            }
        }
    }
}

/// Rolling back block after block, from `top` down to `to_block`, leaves
/// histories without gaps: every entity that is left has one open version
/// and no gap, if that held before and nothing lies after `top`. With the
/// largest block number for `top` this holds of every history.
pub proof fn law_rolled_down_keeps_continuity<P>(s: Seq<RecordView<P>>, top: i64, to_block: int)
    requires
        valid_history(s),
        all_continuous(s),
        bounded_by(s, top as int),
        i64::MIN <= to_block,
    ensures
        valid_history(rolled_down(s, top as int, to_block)),
        all_continuous(rolled_down(s, top as int, to_block)),
    decreases top - to_block + 1,
{
    lemma_rolled_down_valid(s, top, to_block);
    if top >= to_block {
        law_rolled_down_keeps_continuity(s, top, to_block + 1);
        lemma_rolled_down_valid(s, top, to_block + 1);
        let before = rolled_down(s, top as int, to_block + 1);
        assert(bounded_by(before, to_block)) by {
            assert forall|i: int| 0 <= i < before.len() implies (
            #[trigger] before[i]).start_block <= to_block && (before[i].is_open()
                || before[i].end_block <= to_block) by {}
        }
        law_rollback_keeps_continuity(before, to_block as i64);
    }
}

/// A parent and its children move together. After a schema was projected at a
/// block, its open version starts at that block, each property definition
/// that the change names has an open version that starts there, and no other
/// property definition of the schema is open: no reader finds the new parent
/// beside old children, or new children beside the old parent.
pub proof fn law_parent_and_children_move_together(m: MirrorView, c: ChangeView)
    requires
        valid_mirror(m),
        c.payload is Schema,
        project_outcome(m, c) is Ok,
    ensures
        forall|i: int|
            open_at(projected(m, c).schemas, top_key(c.key), c.partition, i) ==> projected(
                m,
                c,
            ).schemas[i].start_block == c.block_number,
        has_open(projected(m, c).schemas, top_key(c.key), c.partition),
        forall|j: int|
            0 <= j < c.payload->properties.len() ==> has_open(
                projected(m, c).properties,
                child_key(c.key, (#[trigger] c.payload->properties[j]).name),
                c.partition,
            ),
        forall|i: int| #[trigger]
            open_in_scope_at(projected(m, c).properties, c.key, c.partition, i) ==> projected(
                m,
                c,
            ).properties[i].start_block == c.block_number && exists|j: int|
                0 <= j < c.payload->properties.len() && projected(m, c).properties[i].key
                    == child_key(c.key, c.payload->properties[j].name),
{
    let after = projected(m, c);
    let members = c.payload->properties;
    let n = m.schemas.len() as int;
    let k = m.properties.len() as int;
    lemma_projected_valid(m, c);
    assert(open_at(after.schemas, top_key(c.key), c.partition, n));
    assert forall|i: int| open_at(after.schemas, top_key(c.key), c.partition, i) implies i
        == n by {
        lemma_one_open(after.schemas, top_key(c.key), c.partition, i, n);
    }
    let recs = member_records(c.key, c.partition, c.block_number, members);
    assert forall|j: int| 0 <= j < members.len() implies has_open(
        after.properties,
        child_key(c.key, (#[trigger] members[j]).name),
        c.partition,
    ) by {
        assert(after.properties[k + j] == recs[j]);
        assert(open_at(after.properties, child_key(c.key, members[j].name), c.partition, k + j));
    }
    assert forall|i: int| #[trigger]
        open_in_scope_at(after.properties, c.key, c.partition, i) implies after.properties[i].start_block
        == c.block_number && exists|j: int|
        0 <= j < members.len() && after.properties[i].key == child_key(
            c.key,
            members[j].name,
        ) by {
        assert(i >= k) by {
            if i < k {
                assert(!stuck_at(m.properties, c.key, c.partition, c.block_number, i));
            }
        }
        assert(after.properties[i] == recs[i - k]);
    }
}

} // verus!
