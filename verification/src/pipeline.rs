//! The ingestion pipeline of one stream of blocks. It decides, event by
//! event, what is done next: a block is applied only when all blocks before
//! it have been, early blocks wait within a bounded window, a fork is rolled
//! back before anything else is applied, a unit that fails for want of
//! storage is tried again with growing delays, and after too many failures,
//! a gap in the delivery or an error that no retry can mend the stream
//! stalls. The pipeline does none of the work itself: it hands out steps and
//! is told how they went.

use vstd::prelude::*;
use crate::record::MirrorError;

verus! {

/// Where a stream stands.
#[derive(Debug, Clone, Copy, PartialEq, Eq, Structural)]
pub enum StreamState {
    /// Blocks are being applied, or are waited for.
    Syncing,
    /// Every block that was delivered has been applied.
    CaughtUp,
    /// A fork was reported and is being rolled back.
    RollingBack,
    /// The stream cannot go on by itself.
    Stalled,
    /// The stream was shut down.
    Stopped,
}

/// A block that came early, kept until the blocks before it have come.
#[derive(Debug)]
pub struct Waiting<T> {
    pub block_number: i64,
    pub delivery: T,
}

/// What is to be done next.
#[derive(Debug)]
pub enum Step<T> {
    /// Apply this block now, then report how it went.
    Apply { block_number: i64, delivery: T },
    /// The block came early and waits.
    Buffered,
    /// The delivery was not taken.
    Refused { delivery: T },
    /// Nothing is to be done.
    Idle,
    /// Apply the block in hand again after the delay.
    RetryAfter { block_number: i64, delay_ms: u64 },
    /// Roll the mirror back, block by block from the latest down to this
    /// one, then report it.
    Rollback { to_block: i64 },
    /// The stream has stalled.
    Stalled,
    /// The stream has stopped.
    Stopped,
}

/// The pipeline as plain values.
pub struct PipelineView<T> {
    /// Where the stream stands.
    pub state: StreamState,
    /// The last block that was applied in full.
    pub watermark: i64,
    /// How many blocks beyond the next one may wait.
    pub window: u32,
    /// The blocks that wait.
    pub waiting: Seq<Waiting<T>>,
    /// The block that was handed out and is not yet reported.
    pub in_flight: Option<i64>,
    /// How often the block in hand has failed for want of storage.
    pub failures: u32,
    /// The number of such failures at which the stream stalls.
    pub max_failures: u32,
    /// The delay after the first failure.
    pub base_delay_ms: u64,
    /// The longest delay.
    pub max_delay_ms: u64,
    /// A shutdown was asked for.
    pub stopping: bool,
    /// The block to which a reported fork leads back.
    pub revert_to: Option<i64>,
}

/// The block `block` waits at position `i`.
pub open spec fn waits_at<T>(waiting: Seq<Waiting<T>>, block: int, i: int) -> bool {
    0 <= i < waiting.len() && waiting[i].block_number == block
}

/// The block `block` waits.
pub open spec fn is_waiting<T>(waiting: Seq<Waiting<T>>, block: int) -> bool {
    exists|i: int| waits_at(waiting, block, i)
}

/// The blocks that wait lie after `low` and not after `high`, and none waits
/// twice.
pub open spec fn waiting_in_order<T>(waiting: Seq<Waiting<T>>, low: int, high: int) -> bool {
    &&& forall|i: int|
        0 <= i < waiting.len() ==> low < (#[trigger] waiting[i]).block_number
            && waiting[i].block_number <= high
    &&& forall|i: int, j: int|
        0 <= i < waiting.len() && 0 <= j < waiting.len() && i != j ==> (
        #[trigger] waiting[i]).block_number != (#[trigger] waiting[j]).block_number
}

/// Every block that waits lies before `to_block`.
pub open spec fn all_before<T>(waiting: Seq<Waiting<T>>, to_block: int) -> bool {
    forall|i: int| 0 <= i < waiting.len() ==> (#[trigger] waiting[i]).block_number < to_block
}

/// The stream has come to an end: it has stalled or was stopped.
pub open spec fn ended<T>(v: PipelineView<T>) -> bool {
    v.state is Stalled || v.state is Stopped
}

/// The pipeline is in order. While the stream has not ended, every block
/// that waits lies after the next block and within the window, and none waits
/// twice. The block in hand is not beyond the next one. A rollback is under
/// way exactly while the state says so, and then no block waits that it takes
/// back.
pub open spec fn well_formed<T>(v: PipelineView<T>) -> bool {
    &&& ended(v) || waiting_in_order(v.waiting, v.watermark + 1, v.watermark + 1 + v.window)
    &&& v.in_flight matches Some(n) ==> n <= v.watermark + 1
    &&& v.state is RollingBack <==> v.revert_to is Some
    &&& v.state is RollingBack || v.state is Stopped ==> v.in_flight is None
    &&& v.revert_to matches Some(to_block) ==> all_before(v.waiting, to_block as int)
}

/// New blocks are taken: the stream runs and no shutdown was asked for.
pub open spec fn accepts<T>(v: PipelineView<T>) -> bool {
    !v.stopping && (v.state is Syncing || v.state is CaughtUp)
}

/// The delay before the retry that follows failure number `failures`: the
/// base delay, doubled with each failure after the first, but never more than
/// the longest delay.
pub open spec fn backoff_delay(base_delay_ms: u64, max_delay_ms: u64, failures: u32) -> u64
    decreases failures,
{
    if failures <= 1 {
        if base_delay_ms < max_delay_ms {
            base_delay_ms
        } else {
            max_delay_ms
        }
    } else {
        let before = backoff_delay(base_delay_ms, max_delay_ms, (failures - 1) as u32);
        if 2 * before < max_delay_ms {
            (2 * before) as u64
        } else {
            max_delay_ms
        }
    }
}

/// The pipeline and the step after block `block` was delivered.
///
/// A stream that does not take blocks refuses it. A block beyond the window
/// is a gap in the delivery, and the stream stalls. A block after the next
/// one waits, unless it waits already. The next block, or one that was
/// applied before and is delivered again, is handed out to be applied, unless
/// a block is in hand.
pub open spec fn delivered<T>(v: PipelineView<T>, block: i64, delivery: T) -> (
    PipelineView<T>,
    Step<T>,
) {
    if !accepts(v) {
        (v, Step::Refused { delivery })
    } else if block > v.watermark + 1 + v.window {
        (PipelineView { state: StreamState::Stalled, ..v }, Step::Stalled)
    } else if block > v.watermark + 1 {
        if is_waiting(v.waiting, block as int) {
            (v, Step::Refused { delivery })
        } else {
            (
                PipelineView {
                    state: StreamState::Syncing,
                    waiting: v.waiting.push(Waiting { block_number: block, delivery }),
                    ..v
                },
                Step::Buffered,
            )
        }
    } else if v.in_flight is Some {
        (v, Step::Refused { delivery })
    } else {
        (
            PipelineView { state: StreamState::Syncing, in_flight: Some(block), ..v },
            Step::Apply { block_number: block, delivery },
        )
    }
}

/// The pipeline and the step after the block in hand was applied: the
/// watermark moves up to it. A stream that is shutting down stops here, a
/// stalled one stays stalled. Else the block that follows is handed out if it
/// waits, and if nothing waits the stream has caught up.
pub open spec fn completed<T>(v: PipelineView<T>) -> (PipelineView<T>, Step<T>) {
    match v.in_flight {
        None => (v, Step::Idle),
        Some(n) => {
            let watermark = if n > v.watermark {
                n
            } else {
                v.watermark
            };
            let next = watermark + 1;
            let base = PipelineView { watermark, failures: 0, in_flight: None, ..v };
            if v.stopping {
                (PipelineView { state: StreamState::Stopped, ..base }, Step::Stopped)
            } else if v.state is Stalled {
                (base, Step::Stalled)
            } else if is_waiting(v.waiting, next) {
                let i = choose|i: int| waits_at(v.waiting, next, i);
                (
                    PipelineView {
                        state: StreamState::Syncing,
                        in_flight: Some(v.waiting[i].block_number),
                        waiting: v.waiting.remove(i),
                        ..base
                    },
                    Step::Apply {
                        block_number: v.waiting[i].block_number,
                        delivery: v.waiting[i].delivery,
                    },
                )
            } else if v.waiting.len() == 0 {
                (PipelineView { state: StreamState::CaughtUp, ..base }, Step::Idle)
            } else {
                (PipelineView { state: StreamState::Syncing, ..base }, Step::Idle)
            }
        },
    }
}

/// The number of failures after one more.
pub open spec fn one_more(failures: u32) -> u32 {
    if failures < u32::MAX {
        (failures + 1) as u32
    } else {
        failures
    }
}

/// The pipeline and the step after the block in hand failed with `error`.
///
/// A stale change is no failure: the block counts as applied. Where the
/// storage was not available the block is tried again after a delay, until
/// the failures reach their limit; then, and on any other error, the stream
/// stalls.
pub open spec fn failed<T>(v: PipelineView<T>, error: MirrorError) -> (PipelineView<T>, Step<T>) {
    match v.in_flight {
        None => (v, Step::Idle),
        Some(n) => {
            if error is StaleUpdate {
                completed(v)
            } else if error is StorageUnavailable && one_more(v.failures) < v.max_failures {
                (
                    PipelineView { failures: one_more(v.failures), ..v },
                    Step::RetryAfter {
                        block_number: n,
                        delay_ms: backoff_delay(
                            v.base_delay_ms,
                            v.max_delay_ms,
                            one_more(v.failures),
                        ),
                    },
                )
            } else {
                (
                    PipelineView {
                        state: StreamState::Stalled,
                        in_flight: None,
                        failures: if error is StorageUnavailable {
                            one_more(v.failures)
                        } else {
                            v.failures
                        },
                        ..v
                    },
                    Step::Stalled,
                )
            }
        },
    }
}

/// A block that waits is kept through a rollback to `to_block` if it lies
/// before `to_block`.
pub open spec fn stays<T>(to_block: i64) -> spec_fn(Waiting<T>) -> bool {
    |w: Waiting<T>| w.block_number < to_block
}

/// The pipeline and the step after a fork was reported that leads back to
/// block `to_block`: the block in hand is given up, the blocks that wait at
/// `to_block` or later are dropped, and the rollback is handed out. A stream
/// that has stopped or stalled takes no fork.
pub open spec fn forked<T>(v: PipelineView<T>, to_block: i64) -> (PipelineView<T>, Step<T>) {
    if v.state is Stopped {
        (v, Step::Stopped)
    } else if v.state is Stalled {
        (v, Step::Stalled)
    } else {
        (
            PipelineView {
                state: StreamState::RollingBack,
                revert_to: Some(to_block),
                in_flight: None,
                failures: 0,
                waiting: v.waiting.filter(stays(to_block)),
                ..v
            },
            Step::Rollback { to_block },
        )
    }
}

/// The watermark after a rollback to `to_block`: the block before it, where
/// the watermark lay at `to_block` or later.
pub open spec fn watermark_before(watermark: i64, to_block: i64) -> i64 {
    if to_block > watermark {
        watermark
    } else if to_block > i64::MIN {
        (to_block - 1) as i64
    } else {
        to_block
    }
}

/// The pipeline and the step after the rollback was made: the watermark is
/// taken back, and the stream goes on, or stops if a shutdown was asked for.
pub open spec fn reverted<T>(v: PipelineView<T>) -> (PipelineView<T>, Step<T>) {
    match v.revert_to {
        None => (v, Step::Idle),
        Some(to_block) => {
            let base = PipelineView {
                watermark: watermark_before(v.watermark, to_block),
                revert_to: None,
                ..v
            };
            if v.stopping {
                (PipelineView { state: StreamState::Stopped, ..base }, Step::Stopped)
            } else {
                (PipelineView { state: StreamState::Syncing, ..base }, Step::Idle)
            }
        },
    }
}

/// The pipeline and the step after a shutdown was asked for: from now on no
/// block is taken. The stream stops at once if nothing is in hand, and else
/// when the block in hand, or the rollback, is done.
pub open spec fn shut_down<T>(v: PipelineView<T>) -> (PipelineView<T>, Step<T>) {
    if v.state is Stopped {
        (v, Step::Stopped)
    } else if v.in_flight is Some || v.state is RollingBack {
        (PipelineView { stopping: true, ..v }, Step::Idle)
    } else {
        (PipelineView { stopping: true, state: StreamState::Stopped, ..v }, Step::Stopped)
    }
}

/// Once the delay has reached its limit, or is nothing, it stays so.
pub proof fn lemma_backoff_settles(base_delay_ms: u64, max_delay_ms: u64, from: u32, to: u32)
    requires
        1 <= from <= to,
        backoff_delay(base_delay_ms, max_delay_ms, from) == max_delay_ms || backoff_delay(
            base_delay_ms,
            max_delay_ms,
            from,
        ) == 0,
    ensures
        backoff_delay(base_delay_ms, max_delay_ms, to) == backoff_delay(
            base_delay_ms,
            max_delay_ms,
            from,
        ),
    decreases to - from,
{
    if from < to {
        lemma_backoff_settles(base_delay_ms, max_delay_ms, from, (to - 1) as u32);
    }
}

/// No delay is longer than the longest delay.
pub proof fn lemma_backoff_bounded(base_delay_ms: u64, max_delay_ms: u64, failures: u32)
    ensures
        backoff_delay(base_delay_ms, max_delay_ms, failures) <= max_delay_ms,
    decreases failures,
{
    if failures > 1 {
        lemma_backoff_bounded(base_delay_ms, max_delay_ms, (failures - 1) as u32);
    }
}

/// The delay before the retry that follows failure number `failures`.
pub fn backoff(base_delay_ms: u64, max_delay_ms: u64, failures: u32) -> (delay: u64)
    ensures
        delay == backoff_delay(base_delay_ms, max_delay_ms, failures),
{
    let mut delay: u64 = if base_delay_ms < max_delay_ms {
        base_delay_ms
    } else {
        max_delay_ms
    };
    let mut k: u32 = 1;
    while k < failures
        invariant
            1 <= k,
            k <= failures || k == 1,
            delay == backoff_delay(base_delay_ms, max_delay_ms, k),
            delay <= max_delay_ms,
        decreases failures - k,
    {
        if delay == 0 || delay == max_delay_ms {
            proof {
                lemma_backoff_settles(base_delay_ms, max_delay_ms, k, failures);
            }
            return delay;
        }
        if delay < max_delay_ms - delay {
            delay = 2 * delay;
        } else {
            delay = max_delay_ms;
        }
        k += 1;
    }
    delay
}

/// What is left of the blocks that wait when those at `to_block` or later
/// are dropped is in order, if the blocks were so before.
proof fn lemma_dropped_in_order<T>(waiting: Seq<Waiting<T>>, to_block: i64, low: int, high: int)
    requires
        waiting_in_order(waiting, low, high),
    ensures
        waiting_in_order(waiting.filter(stays(to_block)), low, high),
        all_before(waiting.filter(stays(to_block)), to_block as int),
        forall|i: int|
            0 <= i < waiting.filter(stays(to_block)).len() ==> waiting.contains(
                #[trigger] waiting.filter(stays(to_block))[i],
            ),
    decreases waiting.len(),
{
    reveal(Seq::filter);
    let keep = stays::<T>(to_block);
    if waiting.len() > 0 {
        let front = waiting.drop_last();
        let last = waiting.last();
        assert(waiting_in_order(front, low, high)) by {
            assert forall|i: int| 0 <= i < front.len() implies low < (
            #[trigger] front[i]).block_number && front[i].block_number <= high by {
                assert(front[i] == waiting[i]);
            }
            assert forall|i: int, j: int|
                0 <= i < front.len() && 0 <= j < front.len() && i != j implies (
            #[trigger] front[i]).block_number != (#[trigger] front[j]).block_number by {
                assert(front[i] == waiting[i] && front[j] == waiting[j]);
            }
        }
        lemma_dropped_in_order(front, to_block, low, high);
        let kept = front.filter(keep);
        let all = waiting.filter(keep);
        assert forall|i: int| 0 <= i < kept.len() implies waiting.contains(#[trigger] kept[i]) by {
            assert(front.contains(kept[i]));
            let k = choose|k: int| 0 <= k < front.len() && front[k] == kept[i];
            assert(waiting[k] == kept[i]);
        }
        if keep(last) {
            assert(all == kept.push(last));
            assert(waiting[waiting.len() - 1] == last);
            assert forall|i: int, j: int|
                0 <= i < all.len() && 0 <= j < all.len() && i != j implies (
            #[trigger] all[i]).block_number != (#[trigger] all[j]).block_number by {
                if i < kept.len() && j < kept.len() {
                    assert(kept[i].block_number != kept[j].block_number);
                } else {
                    let m = if i < kept.len() {
                        i
                    } else {
                        j
                    };
                    assert(front.contains(kept[m]));
                    let k = choose|k: int| 0 <= k < front.len() && front[k] == kept[m];
                    assert(waiting[k].block_number != waiting[waiting.len() - 1].block_number);
                }
            }
            assert forall|i: int| 0 <= i < all.len() implies waiting.contains(#[trigger] all[i]) by {
                if i < kept.len() {
                    assert(all[i] == kept[i]);
                }
            }
            assert forall|i: int| 0 <= i < all.len() implies low < (
            #[trigger] all[i]).block_number && all[i].block_number <= high by {
                if i < kept.len() {
                    assert(all[i] == kept[i]);
                }
            }
            assert forall|i: int| 0 <= i < all.len() implies (#[trigger] all[i]).block_number
                < to_block by {
                if i < kept.len() {
                    assert(all[i] == kept[i]);
                }
            }
        } else {
            assert(all == kept);
        }
    }
}

/// The blocks that wait stay in order when one more is added that lies
/// within the bounds and did not wait before.
proof fn lemma_added_in_order<T>(waiting: Seq<Waiting<T>>, w: Waiting<T>, low: int, high: int)
    requires
        waiting_in_order(waiting, low, high),
        low < w.block_number <= high,
        !is_waiting(waiting, w.block_number as int),
    ensures
        waiting_in_order(waiting.push(w), low, high),
{
    let after = waiting.push(w);
    assert forall|i: int, j: int|
        0 <= i < after.len() && 0 <= j < after.len() && i != j implies (
    #[trigger] after[i]).block_number != (#[trigger] after[j]).block_number by {
        if i < waiting.len() && j < waiting.len() {
            assert(waiting[i].block_number != waiting[j].block_number);
        } else if i < waiting.len() {
            assert(!waits_at(waiting, w.block_number as int, i));
        } else {
            assert(!waits_at(waiting, w.block_number as int, j));
        }
    }
    assert forall|i: int| 0 <= i < after.len() implies low < (#[trigger] after[i]).block_number
        && after[i].block_number <= high by {
        if i < waiting.len() {
            assert(after[i] == waiting[i]);
        }
    }
}

/// When the block that lies directly after `low` is taken out, the blocks
/// that are left lie after it.
proof fn lemma_taken_in_order<T>(waiting: Seq<Waiting<T>>, i: int, low: int, high: int, next: int)
    requires
        waiting_in_order(waiting, low, high),
        next == low + 1,
        waits_at(waiting, next, i),
    ensures
        waiting_in_order(waiting.remove(i), next, high + 1),
        forall|j: int| waits_at(waiting, next, j) ==> j == i,
{
    let after = waiting.remove(i);
    assert forall|a: int| 0 <= a < after.len() implies low + 1 < (
    #[trigger] after[a]).block_number && after[a].block_number <= high + 1 by {
        let b = if a < i {
            a
        } else {
            a + 1
        };
        assert(after[a] == waiting[b]);
        assert(waiting[b].block_number != waiting[i].block_number);
    }
    assert forall|a: int, b: int|
        0 <= a < after.len() && 0 <= b < after.len() && a != b implies (
    #[trigger] after[a]).block_number != (#[trigger] after[b]).block_number by {
        let x = if a < i {
            a
        } else {
            a + 1
        };
        let y = if b < i {
            b
        } else {
            b + 1
        };
        assert(after[a] == waiting[x] && after[b] == waiting[y]);
    }
    assert forall|j: int| waits_at(waiting, next, j) implies j == i by {
        if j != i {
            assert(waiting[j].block_number != waiting[i].block_number);
        }
    }
}

/// Where no block waits directly after `low`, the blocks that wait lie after
/// the block that follows it.
proof fn lemma_moved_in_order<T>(waiting: Seq<Waiting<T>>, low: int, high: int, next: int)
    requires
        waiting_in_order(waiting, low, high),
        next == low + 1,
        !is_waiting(waiting, next),
    ensures
        waiting_in_order(waiting, next, high + 1),
{
    assert forall|a: int| 0 <= a < waiting.len() implies next < (
    #[trigger] waiting[a]).block_number && waiting[a].block_number <= high + 1 by {
        assert(!waits_at(waiting, next, a));
    }
}

/// The ingestion pipeline of one stream. `T` is what a block delivers. It is
/// well formed when it is made and stays so under every method.
pub struct IngestionPipeline<T> {
    state: StreamState,
    watermark: i64,
    window: u32,
    waiting: Vec<Waiting<T>>,
    in_flight: Option<i64>,
    failures: u32,
    max_failures: u32,
    base_delay_ms: u64,
    max_delay_ms: u64,
    stopping: bool,
    revert_to: Option<i64>,
}

impl<T> View for IngestionPipeline<T> {
    type V = PipelineView<T>;

    closed spec fn view(&self) -> PipelineView<T> {
        PipelineView {
            state: self.state,
            watermark: self.watermark,
            window: self.window,
            waiting: self.waiting@,
            in_flight: self.in_flight,
            failures: self.failures,
            max_failures: self.max_failures,
            base_delay_ms: self.base_delay_ms,
            max_delay_ms: self.max_delay_ms,
            stopping: self.stopping,
            revert_to: self.revert_to,
        }
    }
}

impl<T> IngestionPipeline<T> {
    /// A pipeline that goes on after block `watermark`, the last block that
    /// was applied before.
    pub fn new(
        watermark: i64,
        window: u32,
        max_failures: u32,
        base_delay_ms: u64,
        max_delay_ms: u64,
    ) -> (pipeline: Self)
        ensures
            well_formed(pipeline@),
            pipeline@ == (PipelineView::<T> {
                state: StreamState::Syncing,
                watermark,
                window,
                waiting: Seq::empty(),
                in_flight: None,
                failures: 0,
                max_failures,
                base_delay_ms,
                max_delay_ms,
                stopping: false,
                revert_to: None,
            }),
    {
        IngestionPipeline {
            state: StreamState::Syncing,
            watermark,
            window,
            waiting: Vec::new(),
            in_flight: None,
            failures: 0,
            max_failures,
            base_delay_ms,
            max_delay_ms,
            stopping: false,
            revert_to: None,
        }
    }

    /// Where the stream stands.
    pub fn state(&self) -> (state: StreamState)
        ensures
            state == self@.state,
    {
        self.state
    }

    /// The last block that was applied in full: where ingestion goes on
    /// after a restart.
    pub fn watermark(&self) -> (watermark: i64)
        ensures
            watermark == self@.watermark,
    {
        self.watermark
    }

    /// The block that was handed out and is not yet reported, if any.
    pub fn in_flight(&self) -> (block: Option<i64>)
        ensures
            block == self@.in_flight,
    {
        self.in_flight
    }

    /// The number of blocks that wait.
    pub fn waiting_count(&self) -> (count: usize)
        ensures
            count == self@.waiting.len(),
    {
        self.waiting.len()
    }

    /// The position at which block `block` waits, if it does.
    fn position(&self, block: i128) -> (r: Option<usize>)
        ensures
            match r {
                Some(i) => waits_at(self@.waiting, block as int, i as int),
                None => !is_waiting(self@.waiting, block as int),
            },
    {
        let mut i: usize = 0;
        while i < self.waiting.len()
            invariant
                i <= self.waiting.len(),
                forall|j: int| 0 <= j < i ==> !waits_at(self@.waiting, block as int, j),
            decreases self.waiting.len() - i,
        {
            if self.waiting[i].block_number as i128 == block {
                return Some(i);
            }
            i += 1;
        }
        None
    }

    /// A block is delivered. The step says what became of it: see
    /// `delivered`.
    pub fn deliver(&mut self, block_number: i64, delivery: T) -> (step: Step<T>)
        requires
            well_formed(old(self)@),
        ensures
            well_formed(final(self)@),
            (final(self)@, step) == delivered(old(self)@, block_number, delivery),
    {
        let running = match self.state {
            StreamState::Syncing => true,
            StreamState::CaughtUp => true,
            _ => false,
        };
        if self.stopping || !running {
            return Step::Refused { delivery };
        }
        let next: i128 = self.watermark as i128 + 1;
        let block: i128 = block_number as i128;
        if block > next + self.window as i128 {
            self.state = StreamState::Stalled;
            return Step::Stalled;
        }
        if block > next {
            match self.position(block) {
                Some(_) => {
                    return Step::Refused { delivery };
                },
                None => {},
            }
            self.state = StreamState::Syncing;
            proof {
                lemma_added_in_order(
                    self@.waiting,
                    Waiting { block_number, delivery },
                    self.watermark + 1,
                    self.watermark + 1 + self.window,
                );
            }
            self.waiting.push(Waiting { block_number, delivery });
            return Step::Buffered;
        }
        if self.in_flight.is_some() {
            return Step::Refused { delivery };
        }
        self.state = StreamState::Syncing;
        self.in_flight = Some(block_number);
        Step::Apply { block_number, delivery }
    }

    /// The block in hand counts as applied: see `completed`.
    fn complete(&mut self) -> (step: Step<T>)
        requires
            well_formed(old(self)@),
        ensures
            well_formed(final(self)@),
            (final(self)@, step) == completed(old(self)@),
    {
        let n = match self.in_flight {
            None => {
                return Step::Idle;
            },
            Some(n) => n,
        };
        let ghost low = self.watermark + 1;
        let ghost high = self.watermark + 1 + self.window;
        let moved = n > self.watermark;
        if moved {
            self.watermark = n;
        }
        self.failures = 0;
        self.in_flight = None;
        if self.stopping {
            self.state = StreamState::Stopped;
            return Step::Stopped;
        }
        match self.state {
            StreamState::Stalled => {
                return Step::Stalled;
            },
            _ => {},
        }
        let next: i128 = self.watermark as i128 + 1;
        match self.position(next) {
            Some(i) => {
                proof {
                    assert(moved) by {
                        if !moved {
                            assert(self@.waiting[i as int].block_number > low);
                        }
                    }
                    lemma_taken_in_order(self@.waiting, i as int, low, high, next as int);
                }
                let Waiting { block_number, delivery } = self.waiting.remove(i);
                self.state = StreamState::Syncing;
                self.in_flight = Some(block_number);
                Step::Apply { block_number, delivery }
            },
            None => {
                proof {
                    if moved {
                        lemma_moved_in_order(self@.waiting, low, high, next as int);
                    }
                }
                if self.waiting.len() == 0 {
                    self.state = StreamState::CaughtUp;
                } else {
                    self.state = StreamState::Syncing;
                }
                Step::Idle
            },
        }
    }

    /// The block in hand was applied. The step says what follows: see
    /// `completed`.
    pub fn applied(&mut self) -> (step: Step<T>)
        requires
            well_formed(old(self)@),
        ensures
            well_formed(final(self)@),
            (final(self)@, step) == completed(old(self)@),
    {
        self.complete()
    }

    /// The block in hand failed with `error`. The step says what follows:
    /// see `failed`.
    pub fn failed(&mut self, error: MirrorError) -> (step: Step<T>)
        requires
            well_formed(old(self)@),
        ensures
            well_formed(final(self)@),
            (final(self)@, step) == failed(old(self)@, error),
    {
        let n = match self.in_flight {
            None => {
                return Step::Idle;
            },
            Some(n) => n,
        };
        match error {
            MirrorError::StaleUpdate => self.complete(),
            MirrorError::StorageUnavailable => {
                if self.failures < u32::MAX {
                    self.failures = self.failures + 1;
                }
                if self.failures < self.max_failures {
                    Step::RetryAfter {
                        block_number: n,
                        delay_ms: backoff(self.base_delay_ms, self.max_delay_ms, self.failures),
                    }
                } else {
                    self.state = StreamState::Stalled;
                    self.in_flight = None;
                    Step::Stalled
                }
            },
            _ => {
                self.state = StreamState::Stalled;
                self.in_flight = None;
                Step::Stalled
            },
        }
    }

    /// A fork was reported that leads back to block `to_block`. The step
    /// says what follows: see `forked`.
    pub fn fork_detected(&mut self, to_block: i64) -> (step: Step<T>)
        requires
            well_formed(old(self)@),
        ensures
            well_formed(final(self)@),
            (final(self)@, step) == forked(old(self)@, to_block),
    {
        match self.state {
            StreamState::Stopped => {
                return Step::Stopped;
            },
            StreamState::Stalled => {
                return Step::Stalled;
            },
            _ => {},
        }
        let ghost keep = stays::<T>(to_block);
        let mut taken: Vec<Waiting<T>> = Vec::new();
        std::mem::swap(&mut taken, &mut self.waiting);
        let ghost all = taken@;
        let mut kept: Vec<Waiting<T>> = Vec::new();
        proof {
            assert(all.take(0) =~= Seq::empty());
            assert(Seq::<Waiting<T>>::empty().filter(keep) =~= Seq::empty()) by {
                reveal(Seq::filter);
            }
        }
        for w in it: taken.into_iter()
            invariant
                it.seq() == all,
                keep == stays::<T>(to_block),
                kept@ == all.take(it.index() as int).filter(keep),
        {
            proof {
                let i = it.index() as int;
                reveal(Seq::filter);
                assert(all.take(i + 1).drop_last() =~= all.take(i));
                assert(all.take(i + 1).last() == w);
            }
            if w.block_number < to_block {
                kept.push(w);
            }
        }
        proof {
            assert(all.take(all.len() as int) =~= all);
            lemma_dropped_in_order(
                all,
                to_block,
                self.watermark + 1,
                self.watermark + 1 + self.window,
            );
        }
        self.waiting = kept;
        self.state = StreamState::RollingBack;
        self.revert_to = Some(to_block);
        self.in_flight = None;
        self.failures = 0;
        Step::Rollback { to_block }
    }

    /// The rollback was made. The step says what follows: see `reverted`.
    pub fn rolled_back(&mut self) -> (step: Step<T>)
        requires
            well_formed(old(self)@),
        ensures
            well_formed(final(self)@),
            (final(self)@, step) == reverted(old(self)@),
    {
        let to_block = match self.revert_to {
            None => {
                return Step::Idle;
            },
            Some(b) => b,
        };
        if to_block <= self.watermark {
            proof {
                assert(self@.waiting.len() == 0) by {
                    if self@.waiting.len() > 0 {
                        assert(self@.waiting[0].block_number < to_block);
                        assert(self@.waiting[0].block_number > self.watermark + 1);
                    }
                }
            }
            if to_block > i64::MIN {
                self.watermark = to_block - 1;
            } else {
                self.watermark = to_block;
            }
        }
        self.revert_to = None;
        if self.stopping {
            self.state = StreamState::Stopped;
            Step::Stopped
        } else {
            self.state = StreamState::Syncing;
            Step::Idle
        }
    }

    /// A shutdown is asked for. The step says what follows: see
    /// `shut_down`.
    pub fn request_shutdown(&mut self) -> (step: Step<T>)
        requires
            well_formed(old(self)@),
        ensures
            well_formed(final(self)@),
            (final(self)@, step) == shut_down(old(self)@),
    {
        match self.state {
            StreamState::Stopped => {
                return Step::Stopped;
            },
            _ => {},
        }
        self.stopping = true;
        let rolling = match self.state {
            StreamState::RollingBack => true,
            _ => false,
        };
        if self.in_flight.is_some() || rolling {
            Step::Idle
        } else {
            self.state = StreamState::Stopped;
            Step::Stopped
        }
    }
}

/// Blocks in order stay in order when one of them is taken out.
proof fn lemma_removed_in_order<T>(waiting: Seq<Waiting<T>>, i: int, low: int, high: int)
    requires
        waiting_in_order(waiting, low, high),
        0 <= i < waiting.len(),
    ensures
        waiting_in_order(waiting.remove(i), low, high),
        forall|a: int|
            0 <= a < waiting.remove(i).len() ==> (#[trigger] waiting.remove(i)[a]).block_number
                != waiting[i].block_number,
{
    let after = waiting.remove(i);
    assert forall|a: int| 0 <= a < after.len() implies low < (#[trigger] after[a]).block_number
        && after[a].block_number <= high && after[a].block_number != waiting[i].block_number by {
        let b = if a < i {
            a
        } else {
            a + 1
        };
        assert(after[a] == waiting[b]);
        assert(waiting[b].block_number != waiting[i].block_number);
    }
    assert forall|a: int, b: int|
        0 <= a < after.len() && 0 <= b < after.len() && a != b implies (
    #[trigger] after[a]).block_number != (#[trigger] after[b]).block_number by {
        let x = if a < i {
            a
        } else {
            a + 1
        };
        let y = if b < i {
            b
        } else {
            b + 1
        };
        assert(after[a] == waiting[x] && after[b] == waiting[y]);
    }
}

/// No more blocks wait in order between two bounds than there are block
/// numbers between them.
pub proof fn lemma_waiting_fits<T>(waiting: Seq<Waiting<T>>, low: int, high: int)
    requires
        waiting_in_order(waiting, low, high),
        low <= high,
    ensures
        waiting.len() <= high - low,
    decreases high - low,
{
    if waiting.len() > 0 {
        assert(low < waiting[0].block_number && waiting[0].block_number <= high);
        if is_waiting(waiting, high) {
            let i = choose|i: int| waits_at(waiting, high, i);
            let rest = waiting.remove(i);
            lemma_removed_in_order(waiting, i, low, high);
            assert(waiting_in_order(rest, low, high - 1)) by {
                assert forall|a: int| 0 <= a < rest.len() implies low < (
                #[trigger] rest[a]).block_number && rest[a].block_number <= high - 1 by {
                    assert(rest[a].block_number != waiting[i].block_number);
                }
            }
            lemma_waiting_fits(rest, low, high - 1);
        } else {
            assert(waiting_in_order(waiting, low, high - 1)) by {
                assert forall|a: int| 0 <= a < waiting.len() implies low < (
                #[trigger] waiting[a]).block_number && waiting[a].block_number <= high - 1 by {
                    assert(!waits_at(waiting, high, a));
                }
            }
            lemma_waiting_fits(waiting, low, high - 1);
        }
    }
}

/// The window bounds what waits: while the stream has not ended, no more
/// blocks wait than the window is wide.
pub proof fn law_waiting_is_bounded<T>(v: PipelineView<T>)
    requires
        well_formed(v),
        !ended(v),
    ensures
        v.waiting.len() <= v.window,
{
    lemma_waiting_fits(v.waiting, v.watermark + 1, v.watermark + 1 + v.window);
}

/// Blocks are applied in their order. A block is handed out only if it is
/// the one after the watermark or was applied before, and only while no
/// other block is in hand; and the watermark moves up only onto the block
/// that was in hand, one block at a time.
pub proof fn law_blocks_in_order<T>(v: PipelineView<T>, block: i64, delivery: T)
    requires
        well_formed(v),
    ensures
        delivered(v, block, delivery).1 is Apply ==> block <= v.watermark + 1 && v.in_flight
            is None,
        completed(v).1 matches Step::Apply { block_number, .. } ==> block_number == completed(
            v,
        ).0.watermark + 1,
        v.watermark <= completed(v).0.watermark <= v.watermark + 1,
        completed(v).0.watermark != v.watermark ==> v.in_flight == Some(completed(v).0.watermark),
        delivered(v, block, delivery).0.watermark == v.watermark,
{
}

/// Once a shutdown was asked for, no block is taken any more: every delivery
/// is refused and leaves the pipeline as it is.
pub proof fn law_nothing_after_shutdown<T>(v: PipelineView<T>, block: i64, delivery: T)
    ensures
        shut_down(v).0.stopping || shut_down(v).0.state is Stopped,
        v.stopping || v.state is Stopped ==> delivered(v, block, delivery) == (
            v,
            Step::Refused { delivery },
        ),
{
}

/// Retries are bounded. A block that fails for want of storage is tried
/// again after a delay that is never longer than the longest delay, and the
/// failure that reaches the limit stalls the stream. A stalled stream takes
/// no block and no fork.
pub proof fn law_retries_are_bounded<T>(v: PipelineView<T>, block: i64, delivery: T, to_block: i64)
    requires
        v.in_flight is Some,
    ensures
        failed(v, MirrorError::StorageUnavailable).1 matches Step::RetryAfter { delay_ms, .. }
            ==> delay_ms <= v.max_delay_ms && one_more(v.failures) < v.max_failures,
        one_more(v.failures) >= v.max_failures ==> failed(v, MirrorError::StorageUnavailable).0.state
            is Stalled,
        v.state is Stalled ==> delivered(v, block, delivery) == (v, Step::Refused { delivery })
            && forked(v, to_block) == (v, Step::<T>::Stalled),
{
    lemma_backoff_bounded(v.base_delay_ms, v.max_delay_ms, one_more(v.failures));
}

} // verus!
