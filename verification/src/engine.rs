//! The mirror and its pipeline in one: blocks are delivered, the pipeline
//! decides, and what it hands out is projected at once.

use vstd::prelude::*;
use crate::history::{all_continuous, lemma_bounded_by_max, lemma_rolled_down_from_bound};
use crate::laws::{applied_all, law_histories_stay_continuous, law_rolled_down_keeps_continuity};
use crate::pipeline::{
    completed, delivered, ended, failed, forked, reverted, shut_down, watermark_before, well_formed,
    IngestionPipeline, PipelineView, Step, StreamState,
};
use crate::projector::{
    applied, apply_outcome, mirror_bounded, mirror_rolled_down, project_outcome, valid_mirror,
    ChangeSet, ChangeView, EntityPayload, Mirror, MirrorView,
};
use crate::record::MirrorError;

verus! {

/// One change of a block: the entity and its new state. The block gives the
/// number.
#[derive(Debug)]
pub struct EntityChange {
    pub key: String,
    pub partition: Option<String>,
    pub payload: EntityPayload,
}

/// The change as the ledger made it at block `block`.
pub open spec fn change_at(change: EntityChange, block: i64) -> ChangeView {
    ChangeView {
        key: change.key@,
        block_number: block,
        partition: change.partition.deep_view(),
        payload: change.payload@,
    }
}

/// The changes of block `block`.
pub open spec fn changes_at(changes: Seq<EntityChange>, block: i64) -> Seq<ChangeView> {
    changes.map_values(|c: EntityChange| change_at(c, block))
}

/// The mirror and the result after the changes of a block were handed to it
/// one after the other. A stale change is left out. The first change that
/// fails ends the block with its error; the changes before it stay applied.
pub open spec fn block_applied(m: MirrorView, changes: Seq<ChangeView>) -> (
    MirrorView,
    Result<(), MirrorError>,
)
    decreases changes.len(),
{
    if changes.len() == 0 {
        (m, Ok(()))
    } else {
        let (t, r) = block_applied(m, changes.drop_last());
        if r is Err {
            (t, r)
        } else {
            match apply_outcome(t, changes.last()) {
                Ok(_) => (applied(t, changes.last()), Ok(())),
                Err(e) => (t, Err(e)),
            }
        }
    }
}

/// The engine as plain values.
pub struct EngineView {
    pub pipeline: PipelineView<Vec<EntityChange>>,
    pub mirror: MirrorView,
    /// The highest block of which a change was handed to the mirror.
    pub chain_height: i64,
}

/// Every schema and every organization of the mirror has an open version and
/// a history without gaps.
pub open spec fn mirror_continuous(m: MirrorView) -> bool {
    &&& all_continuous(m.schemas)
    &&& all_continuous(m.organizations)
}

/// The engine is in order: so are its pipeline and its mirror, no block is
/// in hand and no rollback under way, no version of the mirror starts or was
/// closed after the highest block that was applied, and every schema and
/// every organization has exactly one open version and a history without
/// gaps.
pub open spec fn valid_engine(e: EngineView) -> bool {
    &&& well_formed(e.pipeline)
    &&& valid_mirror(e.mirror)
    &&& e.pipeline.in_flight is None
    &&& !(e.pipeline.state is RollingBack)
    &&& mirror_bounded(e.mirror, e.chain_height as int)
    &&& mirror_continuous(e.mirror)
}

/// The larger of two block numbers.
pub open spec fn later(a: i64, b: i64) -> i64 {
    if a > b {
        a
    } else {
        b
    }
}

/// The engine and the last step after block `block` was handed out with
/// `delivery`, and with it every block that waited directly behind it: each
/// block is applied and reported to the pipeline, which hands out the next.
pub open spec fn run(e: EngineView, block: i64, delivery: Vec<EntityChange>) -> (
    EngineView,
    Step<Vec<EntityChange>>,
)
    decreases e.pipeline.waiting.len(),
{
    let (mirror, result) = block_applied(e.mirror, changes_at(delivery@, block));
    let (pipeline, step) = match result {
        Ok(_) => completed(e.pipeline),
        Err(error) => failed(e.pipeline, error),
    };
    let after = EngineView { pipeline, mirror, chain_height: later(e.chain_height, block) };
    match step {
        Step::Apply { block_number, delivery } => {
            if pipeline.waiting.len() < e.pipeline.waiting.len() {
                run(after, block_number, delivery)
            } else {
                (after, step)
            }
        },
        _ => (after, step),
    }
}

/// The engine and the step after block `block` was delivered with `changes`.
pub open spec fn ingested(e: EngineView, block: i64, changes: Vec<EntityChange>) -> (
    EngineView,
    Step<Vec<EntityChange>>,
) {
    let (pipeline, step) = delivered(e.pipeline, block, changes);
    match step {
        Step::Apply { block_number, delivery } => run(
            EngineView { pipeline, ..e },
            block_number,
            delivery,
        ),
        _ => (EngineView { pipeline, ..e }, step),
    }
}

/// The engine after a fork was reported that leads back to `to_block`: the
/// mirror is rolled back before anything else is applied, block by block
/// from the latest down to `to_block`.
pub open spec fn fork_handled(e: EngineView, to_block: i64) -> (
    EngineView,
    Step<Vec<EntityChange>>,
) {
    let (pipeline, step) = forked(e.pipeline, to_block);
    match step {
        Step::Rollback { to_block } => {
            let (pipeline, step) = reverted(pipeline);
            (
                EngineView {
                    pipeline,
                    mirror: mirror_rolled_down(e.mirror, i64::MAX as int, to_block as int),
                    chain_height: watermark_before(e.chain_height, to_block),
                },
                step,
            )
        },
        _ => (e, step),
    }
}

/// A change never fails for want of storage in this mirror, and a stale
/// change is no failure.
pub proof fn lemma_apply_errors(m: MirrorView, c: ChangeView)
    ensures
        apply_outcome(m, c) matches Err(e) ==> e is Conflict || e is InvalidRange,
{
}

/// A change at block `height` or before leaves the mirror without anything
/// after `height`.
pub proof fn lemma_applied_bounded(m: MirrorView, c: ChangeView, height: i64)
    requires
        mirror_bounded(m, height as int),
        c.block_number <= height,
    ensures
        mirror_bounded(applied(m, c), height as int),
{
    let t = applied(m, c);
    if project_outcome(m, c) is Ok {
        assert forall|i: int| 0 <= i < t.schemas.len() implies (
        #[trigger] t.schemas[i]).start_block <= height && (t.schemas[i].is_open()
            || t.schemas[i].end_block <= height) by {
            if i < m.schemas.len() {
                assert(m.schemas[i].start_block <= height);
            }
        }
        assert forall|i: int| 0 <= i < t.properties.len() implies (
        #[trigger] t.properties[i]).start_block <= height && (t.properties[i].is_open()
            || t.properties[i].end_block <= height) by {
            if i < m.properties.len() {
                assert(m.properties[i].start_block <= height);
            }
        }
        assert forall|i: int| 0 <= i < t.organizations.len() implies (
        #[trigger] t.organizations[i]).start_block <= height && (t.organizations[i].is_open()
            || t.organizations[i].end_block <= height) by {
            if i < m.organizations.len() {
                assert(m.organizations[i].start_block <= height);
            }
        }
    }
}

/// The changes of a block at `height` or before leave the mirror valid,
/// without anything after `height` and without gaps; and the block fails only
/// with a conflict or an invalid range.
pub proof fn lemma_block_applied(m: MirrorView, changes: Seq<ChangeView>, height: i64)
    requires
        valid_mirror(m),
        mirror_bounded(m, height as int),
        mirror_continuous(m),
        forall|i: int| 0 <= i < changes.len() ==> (#[trigger] changes[i]).block_number <= height,
    ensures
        valid_mirror(block_applied(m, changes).0),
        mirror_bounded(block_applied(m, changes).0, height as int),
        mirror_continuous(block_applied(m, changes).0),
        block_applied(m, changes).1 matches Err(e) ==> e is Conflict || e is InvalidRange,
    decreases changes.len(),
{
    if changes.len() > 0 {
        let front = changes.drop_last();
        assert forall|i: int| 0 <= i < front.len() implies (#[trigger] front[i]).block_number
            <= height by {
            assert(front[i] == changes[i]);
        }
        lemma_block_applied(m, front, height);
        let (t, r) = block_applied(m, front);
        if r is Ok {
            let c = changes.last();
            assert(c == changes[changes.len() - 1]);
            lemma_apply_errors(t, c);
            lemma_applied_bounded(t, c, height);
            law_histories_stay_continuous(t, seq![c]);
            assert(applied_all(t, seq![c]) == applied(t, c)) by {
                assert(seq![c].drop_last() =~= Seq::<ChangeView>::empty());
                assert(applied_all(t, Seq::<ChangeView>::empty()) == t);
            }
        }
    }
}

/// A mirror without anything after a block has nothing after a later block.
pub proof fn lemma_bounded_wider(m: MirrorView, height: int, later_height: int)
    requires
        mirror_bounded(m, height),
        height <= later_height,
    ensures
        mirror_bounded(m, later_height),
{
    assert forall|i: int| 0 <= i < m.schemas.len() implies (#[trigger] m.schemas[i]).start_block
        <= later_height && (m.schemas[i].is_open() || m.schemas[i].end_block <= later_height) by {
        assert(m.schemas[i].start_block <= height);
    }
    assert forall|i: int| 0 <= i < m.properties.len() implies (
    #[trigger] m.properties[i]).start_block <= later_height && (m.properties[i].is_open()
        || m.properties[i].end_block <= later_height) by {
        assert(m.properties[i].start_block <= height);
    }
    assert forall|i: int| 0 <= i < m.organizations.len() implies (
    #[trigger] m.organizations[i]).start_block <= later_height && (m.organizations[i].is_open()
        || m.organizations[i].end_block <= later_height) by {
        assert(m.organizations[i].start_block <= height);
    }
}

/// Hands the changes of block `block_number` to the mirror, one after the
/// other.
pub fn apply_block(mirror: &mut Mirror, block_number: i64, changes: Vec<EntityChange>) -> (r:
    Result<(), MirrorError>)
    requires
        valid_mirror(old(mirror)@),
    ensures
        valid_mirror(final(mirror)@),
        (final(mirror)@, r) == block_applied(old(mirror)@, changes_at(changes@, block_number)),
{
    let ghost all = changes_at(changes@, block_number);
    let ghost given = changes@;
    assert(all.take(0) =~= Seq::empty());
    for change in it: changes.into_iter()
        invariant
            it.seq() == given,
            all == changes_at(given, block_number),
            valid_mirror(mirror@),
            (mirror@, Ok::<(), MirrorError>(())) == block_applied(
                old(mirror)@,
                all.take(it.index() as int),
            ),
    {
        let ghost i = it.index() as int;
        proof {
            assert(all.take(i + 1).drop_last() =~= all.take(i));
            assert(all.take(i + 1).last() == change_at(change, block_number));
        }
        let EntityChange { key, partition, payload } = change;
        let unit = ChangeSet { key, block_number, partition, payload };
        match mirror.apply(unit) {
            Ok(_) => {},
            Err(e) => {
                proof {
                    lemma_block_stops(old(mirror)@, all, i + 1);
                }
                return Err(e);
            },
        }
    }
    assert(all.take(all.len() as int) =~= all);
    Ok(())
}

/// Once a change has failed, the changes after it do nothing.
proof fn lemma_block_stops(m: MirrorView, changes: Seq<ChangeView>, i: int)
    requires
        0 <= i <= changes.len(),
        block_applied(m, changes.take(i)).1 is Err,
    ensures
        block_applied(m, changes) == block_applied(m, changes.take(i)),
    decreases changes.len() - i,
{
    if i < changes.len() {
        assert(changes.take(i + 1).drop_last() =~= changes.take(i));
        lemma_block_stops(m, changes, i + 1);
    } else {
        assert(changes.take(i) =~= changes);
    }
}

/// The mirror together with the pipeline that feeds it. It is valid when it
/// is made and stays so under every method.
pub struct Engine {
    pipeline: IngestionPipeline<Vec<EntityChange>>,
    mirror: Mirror,
    chain_height: i64,
}

impl View for Engine {
    type V = EngineView;

    closed spec fn view(&self) -> EngineView {
        EngineView {
            pipeline: self.pipeline@,
            mirror: self.mirror@,
            chain_height: self.chain_height,
        }
    }
}

impl Engine {
    /// An engine with an empty mirror that goes on after block `watermark`
    /// and lets `window` blocks wait. A block that fails for want of storage
    /// is tried again until it has failed `max_failures` times, after delays
    /// that begin at `base_delay_ms` and double up to `max_delay_ms`.
    pub fn new(
        watermark: i64,
        window: u32,
        max_failures: u32,
        base_delay_ms: u64,
        max_delay_ms: u64,
    ) -> (engine: Engine)
        ensures
            valid_engine(engine@),
            engine@.chain_height == watermark,
            engine@.mirror == (MirrorView {
                schemas: Seq::empty(),
                properties: Seq::empty(),
                organizations: Seq::empty(),
            }),
            engine@.pipeline == (PipelineView::<Vec<EntityChange>> {
                state: StreamState::Syncing,
                watermark,
                window,
                waiting: Seq::empty(),
                in_flight: None,
                failures: 0,
                max_failures,
                base_delay_ms,
                max_delay_ms,
                stopping: false,
                revert_to: None,
            }),
    {
        let engine = Engine {
            pipeline: IngestionPipeline::new(
                watermark,
                window,
                max_failures,
                base_delay_ms,
                max_delay_ms,
            ),
            mirror: Mirror::new(),
            chain_height: watermark,
        };
        assert(engine@.mirror.schemas =~= Seq::empty());
        assert(engine@.mirror.properties =~= Seq::empty());
        assert(engine@.mirror.organizations =~= Seq::empty());
        engine
    }

    /// The mirror, to read from.
    pub fn mirror(&self) -> (mirror: &Mirror)
        ensures
            mirror@ == self@.mirror,
    {
        &self.mirror
    }

    /// Where the stream stands.
    pub fn state(&self) -> (state: StreamState)
        ensures
            state == self@.pipeline.state,
    {
        self.pipeline.state()
    }

    /// The last block that was applied in full.
    pub fn watermark(&self) -> (watermark: i64)
        ensures
            watermark == self@.pipeline.watermark,
    {
        self.pipeline.watermark()
    }

    /// The highest block of which a change was handed to the mirror. No
    /// version of the mirror starts after it.
    pub fn chain_height(&self) -> (height: i64)
        ensures
            height == self@.chain_height,
    {
        self.chain_height
    }

    /// The number of blocks that wait for the blocks before them.
    pub fn waiting_count(&self) -> (count: usize)
        ensures
            count == self@.pipeline.waiting.len(),
    {
        self.pipeline.waiting_count()
    }

    /// Delivers the changes of block `block_number`. If it is the next block,
    /// it is applied, and after it the blocks that waited for it, each in its
    /// turn. The step says how it ended: `Idle` when all that could be applied
    /// was, `Buffered` or `Refused` for a block that was not applied,
    /// `Stalled` after a gap or a change that failed, `Stopped` after a
    /// shutdown.
    pub fn deliver(&mut self, block_number: i64, changes: Vec<EntityChange>) -> (step: Step<
        Vec<EntityChange>,
    >)
        requires
            valid_engine(old(self)@),
        ensures
            valid_engine(final(self)@),
            (final(self)@, step) == ingested(old(self)@, block_number, changes),
            !(step is Apply),
    {
        let ghost goal = ingested(old(self)@, block_number, changes);
        let mut step = self.pipeline.deliver(block_number, changes);
        loop
            invariant
                goal == ingested(old(self)@, block_number, changes),
                well_formed(self@.pipeline),
                valid_mirror(self@.mirror),
                mirror_bounded(self@.mirror, self@.chain_height as int),
                mirror_continuous(self@.mirror),
                !(self@.pipeline.state is RollingBack),
                match step {
                    Step::Apply { block_number, delivery } => self@.pipeline.in_flight == Some(
                        block_number,
                    ) && goal == run(self@, block_number, delivery),
                    _ => self@.pipeline.in_flight is None && goal == (self@, step),
                },
            decreases
                    2 * self@.pipeline.waiting.len() + if step is Apply {
                        1nat
                    } else {
                        0nat
                    },
        {
            match step {
                Step::Apply { block_number, delivery } => {
                    let ghost before = self@;
                    let ghost these = changes_at(delivery@, block_number);
                    if block_number > self.chain_height {
                        self.chain_height = block_number;
                    }
                    proof {
                        assert forall|i: int| 0 <= i < these.len() implies (
                        #[trigger] these[i]).block_number <= self.chain_height by {}
                        lemma_bounded_wider(
                            before.mirror,
                            before.chain_height as int,
                            self.chain_height as int,
                        );
                        lemma_block_applied(before.mirror, these, self.chain_height);
                    }
                    let result = apply_block(&mut self.mirror, block_number, delivery);
                    step = match result {
                        Ok(_) => self.pipeline.applied(),
                        Err(error) => self.pipeline.failed(error),
                    };
                },
                other => {
                    return other;
                },
            }
        }
    }

    /// Reports a fork that leads back to block `to_block`: before anything
    /// else is applied the mirror is rolled back, block by block from the
    /// latest down to `to_block`, and the blocks from `to_block` on are
    /// expected again.
    pub fn fork_detected(&mut self, to_block: i64) -> (step: Step<Vec<EntityChange>>)
        requires
            valid_engine(old(self)@),
        ensures
            valid_engine(final(self)@),
            (final(self)@, step) == fork_handled(old(self)@, to_block),
    {
        match self.pipeline.fork_detected(to_block) {
            Step::Rollback { to_block } => {
                proof {
                    let m = self@.mirror;
                    lemma_bounded_by_max(m.schemas);
                    lemma_bounded_by_max(m.organizations);
                    law_rolled_down_keeps_continuity(m.schemas, i64::MAX, to_block as int);
                    law_rolled_down_keeps_continuity(m.organizations, i64::MAX, to_block as int);
                    if to_block > self.chain_height {
                        lemma_rolled_down_from_bound(
                            m.schemas,
                            i64::MAX as int,
                            self.chain_height as int,
                            to_block as int,
                        );
                        lemma_rolled_down_from_bound(
                            m.properties,
                            i64::MAX as int,
                            self.chain_height as int,
                            to_block as int,
                        );
                        lemma_rolled_down_from_bound(
                            m.organizations,
                            i64::MAX as int,
                            self.chain_height as int,
                            to_block as int,
                        );
                    }
                }
                self.mirror.rollback_through(to_block);
                proof {
                    if to_block <= self.chain_height {
                        lemma_bounded_wider(self@.mirror, to_block - 1, to_block as int);
                    }
                }
                if to_block <= self.chain_height {
                    if to_block > i64::MIN {
                        self.chain_height = to_block - 1;
                    } else {
                        self.chain_height = to_block;
                    }
                }
                self.pipeline.rolled_back()
            },
            other => other,
        }
    }

    /// Asks for a shutdown: no block is taken any more.
    pub fn shutdown(&mut self) -> (step: Step<Vec<EntityChange>>)
        requires
            valid_engine(old(self)@),
        ensures
            valid_engine(final(self)@),
            final(self)@.mirror == old(self)@.mirror,
            final(self)@.chain_height == old(self)@.chain_height,
            (final(self)@.pipeline, step) == shut_down(old(self)@.pipeline),
    {
        self.pipeline.request_shutdown()
    }
}

} // verus!
