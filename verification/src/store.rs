//! The store of versions: it appends a new version of an entity, closes the
//! open one, and reads the open version or the one valid at a given block.
//! It knows nothing of what a payload means.

use vstd::prelude::*;
use crate::group::{
    closed_scope, late_in_scope_at, lemma_replaced_valid, member_overlaps_at, member_records,
    members_view, repeated_at, replace_outcome, replaced, scope_is_stale, stuck_at, Member,
};
use crate::history::{
    bounded_by, close_outcome, closed, closes_too_early, covered_at, ends_after_at, event_at,
    has_covering, has_open, lemma_bounded_by_max, lemma_closed_valid, lemma_closed_without_open,
    lemma_event_within, lemma_one_open, lemma_open_follows_close, lemma_opened_valid,
    lemma_rolled_back_bounded, lemma_rolled_back_step, lemma_rolled_back_valid,
    lemma_rolled_down_from_bound, lemma_rolled_down_nothing, lemma_rolled_down_top,
    lemma_rolled_down_valid, open_at, open_outcome, opened, overlaps_closed, rolled_back,
    rolled_down, starts_late_at, supersede_outcome, superseded, valid_history,
};
use crate::key::{
    duplicate_partition, key_before, lemma_key_before_irreflexive, lemma_key_before_total,
    lemma_key_before_transitive, same_partition, EntityKey,
};
use crate::listing::{
    ascending, cursor_after, cursor_view, is_page, listed, listed_at, page_view, token_view,
    PageToken,
};
use crate::record::{MirrorError, RecordView, VersionedRecord, OPEN_SENTINEL};
use crate::text_order::{same_text, TextOrder};

verus! {

/// The position of a version in the store's history, as `open` returned it.
/// It stays the same until a rollback removes versions.
#[derive(Debug, Clone, Copy, PartialEq, Eq, Structural)]
pub struct RecordId(pub usize);

/// All versions of the entities of one kind, in the order in which they were
/// opened. Its history is valid when it is made and stays so under every
/// method: a program can hold no store that fails what the methods require.
pub struct VersionStore<P> {
    records: Vec<VersionedRecord<P>>,
}

impl<P> View for VersionStore<P> {
    type V = Seq<RecordView<P>>;

    closed spec fn view(&self) -> Seq<RecordView<P>> {
        self.records@.map_values(|r: VersionedRecord<P>| r@)
    }
}

impl<P> VersionStore<P> {
    /// A store without any version.
    pub fn new() -> (store: Self)
        ensures
            store@ == Seq::<RecordView<P>>::empty(),
    {
        let store = VersionStore { records: Vec::new() };
        assert(store@ =~= Seq::<RecordView<P>>::empty());
        store
    }

    /// The number of versions in the store.
    pub fn len(&self) -> (n: usize)
        ensures
            n == self@.len(),
    {
        self.records.len()
    }

    /// The version at position `id`, if the history is that long.
    pub fn get(&self, id: RecordId) -> (r: Option<&VersionedRecord<P>>)
        ensures
            match r {
                Some(record) => id.0 < self@.len() && record@ == self@[id.0 as int],
                None => id.0 >= self@.len(),
            },
    {
        if id.0 < self.records.len() {
            Some(&self.records[id.0])
        } else {
            None
        }
    }

    /// The position of the open version of the entity, if it has one.
    fn find_open(&self, key: &EntityKey, partition: &Option<String>) -> (r: Option<usize>)
        ensures
            match r {
                Some(i) => open_at(self@, key@, partition.deep_view(), i as int),
                None => !has_open(self@, key@, partition.deep_view()),
            },
    {
        let mut i: usize = 0;
        while i < self.records.len()
            invariant
                i <= self.records.len(),
                forall|j: int| 0 <= j < i ==> !open_at(self@, key@, partition.deep_view(), j),
            decreases self.records.len() - i,
        {
            let record = &self.records[i];
            if record.is_open() && record.key.same(key) && same_partition(
                &record.service_partition,
                partition,
            ) {
                return Some(i);
            }
            i += 1;
        }
        None
    }

    /// Whether a closed version of the entity ends after `start_block`.
    fn ends_after(&self, key: &EntityKey, partition: &Option<String>, start_block: i64) -> (r: bool)
        ensures
            r == overlaps_closed(self@, key@, partition.deep_view(), start_block),
    {
        let mut i: usize = 0;
        while i < self.records.len()
            invariant
                i <= self.records.len(),
                forall|j: int|
                    0 <= j < i ==> !ends_after_at(
                        self@,
                        key@,
                        partition.deep_view(),
                        start_block,
                        j,
                    ),
            decreases self.records.len() - i,
        {
            let record = &self.records[i];
            if !record.is_open() && record.end_block > start_block && record.key.same(key)
                && same_partition(&record.service_partition, partition) {
                assert(ends_after_at(self@, key@, partition.deep_view(), start_block, i as int));
                return true;
            }
            i += 1;
        }
        false
    }

    /// Whether a change of the entity at `block` is stale: the entity has an
    /// open version that starts at `block` or later.
    pub fn is_stale(&self, key: &EntityKey, partition: &Option<String>, block: i64) -> (r: bool)
        requires
            valid_history(self@),
        ensures
            r == closes_too_early(self@, key@, partition.deep_view(), block),
    {
        let ghost k = key@;
        let ghost p = partition.deep_view();
        match self.find_open(key, partition) {
            Some(i) => {
                proof {
                    assert forall|j: int| starts_late_at(self@, k, p, block, j) implies j == i by {
                        lemma_one_open(self@, k, p, i as int, j);
                    }
                    if block <= self@[i as int].start_block {
                        assert(starts_late_at(self@, k, p, block, i as int));
                    }
                }
                block <= self.records[i].start_block
            },
            None => false,
        }
    }

    /// Whether a change of the children of the entity called `scope` at
    /// `block` is stale: an open version of one of them starts at `block` or
    /// later.
    pub fn scope_is_stale(&self, scope: &str, partition: &Option<String>, block: i64) -> (r: bool)
        ensures
            r == scope_is_stale(self@, scope@, partition.deep_view(), block),
    {
        let mut i: usize = 0;
        while i < self.records.len()
            invariant
                i <= self.records.len(),
                forall|k: int|
                    0 <= k < i ==> !late_in_scope_at(
                        self@,
                        scope@,
                        partition.deep_view(),
                        block,
                        k,
                    ),
            decreases self.records.len() - i,
        {
            let record = &self.records[i];
            if record.is_open() && block <= record.start_block && same_text(
                record.key.scope.as_str(),
                scope,
            ) && same_partition(&record.service_partition, partition) {
                assert(late_in_scope_at(self@, scope@, partition.deep_view(), block, i as int));
                return true;
            }
            i += 1;
        }
        false
    }

    /// Opens a new version of the entity, valid from `start_block` on.
    ///
    /// Fails with `Conflict` if the entity has an open version: close it
    /// first. Fails with `InvalidRange` if a closed version of the entity ends
    /// after `start_block`, since the two would overlap. On failure the store
    /// is unchanged.
    pub fn open(
        &mut self,
        key: EntityKey,
        partition: Option<String>,
        start_block: i64,
        payload: P,
    ) -> (r: Result<RecordId, MirrorError>)
        requires
            valid_history(old(self)@),
        ensures
            valid_history(final(self)@),
            match open_outcome(old(self)@, key@, partition.deep_view(), start_block) {
                Ok(_) => r == Ok::<RecordId, MirrorError>(RecordId(old(self)@.len() as usize))
                    && final(self)@ == opened(
                    old(self)@,
                    key@,
                    partition.deep_view(),
                    start_block,
                    payload,
                ),
                Err(e) => r == Err::<RecordId, MirrorError>(e) && final(self)@ == old(self)@,
            },
    {
        if self.find_open(&key, &partition).is_some() {
            return Err(MirrorError::Conflict);
        }
        if self.ends_after(&key, &partition, start_block) {
            return Err(MirrorError::InvalidRange);
        }
        let id = self.records.len();
        proof {
            lemma_opened_valid(old(self)@, key@, partition.deep_view(), start_block, payload);
        }
        let record = VersionedRecord {
            key,
            service_partition: partition,
            start_block,
            end_block: OPEN_SENTINEL,
            payload,
        };
        self.records.push(record);
        assert(self@ =~= opened(
            old(self)@,
            key@,
            partition.deep_view(),
            start_block,
            payload,
        ));
        Ok(RecordId(id))
    }

    /// Closes the open version of the entity at `end_block`.
    ///
    /// Fails with `NotFound` if the entity has no open version, and with
    /// `InvalidRange` if `end_block` is not after the start of that version or
    /// is the reserved value that marks an open version. On failure the store
    /// is unchanged.
    pub fn close(&mut self, key: &EntityKey, partition: &Option<String>, end_block: i64) -> (r:
        Result<(), MirrorError>)
        requires
            valid_history(old(self)@),
        ensures
            valid_history(final(self)@),
            r == close_outcome(old(self)@, key@, partition.deep_view(), end_block),
            r is Ok ==> final(self)@ == closed(
                old(self)@,
                key@,
                partition.deep_view(),
                end_block,
            ),
            r is Err ==> final(self)@ == old(self)@,
    {
        let ghost k = key@;
        let ghost p = partition.deep_view();
        match self.find_open(key, partition) {
            None => Err(MirrorError::NotFound),
            Some(i) => {
                proof {
                    assert forall|j: int| open_at(self@, k, p, j) implies j == i by {
                        lemma_one_open(self@, k, p, i as int, j);
                    }
                }
                if end_block == OPEN_SENTINEL || end_block <= self.records[i].start_block {
                    assert(end_block != OPEN_SENTINEL ==> starts_late_at(
                        self@,
                        k,
                        p,
                        end_block,
                        i as int,
                    ));
                    Err(MirrorError::InvalidRange)
                } else {
                    proof {
                        lemma_closed_valid(self@, k, p, end_block);
                    }
                    self.records[i].end_block = end_block;
                    assert(self@ =~= closed(old(self)@, k, p, end_block));
                    Ok(())
                }
            },
        }
    }

    /// Whether the entity may pass to a new version at `block`: nothing is
    /// changed.
    pub fn check_supersede(&self, key: &EntityKey, partition: &Option<String>, block: i64) -> (r:
        Result<(), MirrorError>)
        requires
            valid_history(self@),
        ensures
            r == supersede_outcome(self@, key@, partition.deep_view(), block),
    {
        let ghost k = key@;
        let ghost p = partition.deep_view();
        match self.find_open(key, partition) {
            Some(i) => {
                proof {
                    assert forall|j: int| open_at(self@, k, p, j) implies j == i by {
                        lemma_one_open(self@, k, p, i as int, j);
                    }
                }
                if block == OPEN_SENTINEL || block <= self.records[i].start_block {
                    assert(block != OPEN_SENTINEL ==> starts_late_at(self@, k, p, block, i as int));
                    Err(MirrorError::InvalidRange)
                } else {
                    Ok(())
                }
            },
            None => {
                if self.ends_after(key, partition, block) {
                    Err(MirrorError::InvalidRange)
                } else {
                    Ok(())
                }
            },
        }
    }

    /// Passes the entity to a new version at `block` in one step: closes its
    /// open version there, if it has one, and opens the new version.
    ///
    /// Fails with `InvalidRange` if `block` is not after the start of the
    /// open version or is the reserved value, or, where no version is open,
    /// if a closed version ends after `block`. On failure the store is
    /// unchanged.
    pub fn supersede(
        &mut self,
        key: EntityKey,
        partition: Option<String>,
        block: i64,
        payload: P,
    ) -> (r: Result<RecordId, MirrorError>)
        requires
            valid_history(old(self)@),
        ensures
            valid_history(final(self)@),
            match supersede_outcome(old(self)@, key@, partition.deep_view(), block) {
                Ok(_) => r == Ok::<RecordId, MirrorError>(RecordId(old(self)@.len() as usize))
                    && final(self)@ == superseded(
                    old(self)@,
                    key@,
                    partition.deep_view(),
                    block,
                    payload,
                ),
                Err(e) => r == Err::<RecordId, MirrorError>(e) && final(self)@ == old(self)@,
            },
    {
        let ghost k = key@;
        let ghost p = partition.deep_view();
        match self.close(&key, &partition, block) {
            Ok(_) => {
                proof {
                    lemma_open_follows_close(old(self)@, k, p, block);
                }
                self.open(key, partition, block, payload)
            },
            Err(MirrorError::NotFound) => {
                proof {
                    lemma_closed_without_open(old(self)@, k, p, block);
                }
                self.open(key, partition, block, payload)
            },
            Err(e) => Err(e),
        }
    }

    /// The open version of the entity, or nothing if the entity was never
    /// opened or was closed and not opened again.
    pub fn read_current(&self, key: &EntityKey, partition: &Option<String>) -> (r: Option<
        &VersionedRecord<P>,
    >)
        ensures
            match r {
                Some(record) => exists|i: int|
                    open_at(self@, key@, partition.deep_view(), i) && record@ == self@[i],
                None => !has_open(self@, key@, partition.deep_view()),
            },
    {
        match self.find_open(key, partition) {
            None => None,
            Some(i) => {
                assert(open_at(self@, key@, partition.deep_view(), i as int));
                Some(&self.records[i])
            },
        }
    }

    /// The version of the entity that is valid at block `height`.
    pub fn read_as_of(&self, key: &EntityKey, partition: &Option<String>, height: i64) -> (r:
        Option<&VersionedRecord<P>>)
        ensures
            match r {
                Some(record) => exists|i: int|
                    covered_at(self@, key@, partition.deep_view(), height as int, i) && record@
                        == self@[i],
                None => !has_covering(self@, key@, partition.deep_view(), height as int),
            },
    {
        let mut i: usize = 0;
        while i < self.records.len()
            invariant
                i <= self.records.len(),
                forall|j: int|
                    0 <= j < i ==> !covered_at(
                        self@,
                        key@,
                        partition.deep_view(),
                        height as int,
                        j,
                    ),
            decreases self.records.len() - i,
        {
            let record = &self.records[i];
            if record.covers(height) && record.key.same(key) && same_partition(
                &record.service_partition,
                partition,
            ) {
                assert(covered_at(self@, key@, partition.deep_view(), height as int, i as int));
                return Some(record);
            }
            i += 1;
        }
        None
    }

    /// The last block at which something happened: the latest block at
    /// which a version starts or was closed. Nothing for an empty store.
    pub fn latest_block(&self) -> (r: Option<i64>)
        ensures
            match r {
                Some(height) => bounded_by(self@, height as int) && event_at(self@, height as int),
                None => self@.len() == 0,
            },
    {
        if self.records.len() == 0 {
            return None;
        }
        let mut latest: i64 = self.records[0].start_block;
        let mut i: usize = 0;
        assert(self@[0].start_block == latest);
        while i < self.records.len()
            invariant
                i <= self.records.len(),
                self.records.len() > 0,
                event_at(self@, latest as int),
                forall|j: int|
                    0 <= j < i ==> (#[trigger] self@[j]).start_block <= latest && (
                    self@[j].is_open() || self@[j].end_block <= latest),
            decreases self.records.len() - i,
        {
            let record = &self.records[i];
            assert(self@[i as int] == record@);
            if record.start_block > latest {
                latest = record.start_block;
            }
            if !record.is_open() && record.end_block > latest {
                latest = record.end_block;
            }
            i += 1;
        }
        Some(latest)
    }

    /// Undoes everything from block `height` on: removes each version that
    /// starts at `height` or later, and reopens each version that was closed
    /// exactly at `height`. The whole rollback applies at once.
    pub fn rollback_to(&mut self, height: i64)
        requires
            valid_history(old(self)@),
        ensures
            valid_history(final(self)@),
            final(self)@ == rolled_back(old(self)@, height),
    {
        let mut taken: Vec<VersionedRecord<P>> = Vec::new();
        std::mem::swap(&mut taken, &mut self.records);
        let ghost before = taken@;
        let mut kept: Vec<VersionedRecord<P>> = Vec::new();
        assert(before.take(0) =~= Seq::empty());
        assert(rolled_back(Seq::<RecordView<P>>::empty(), height) =~= Seq::empty()) by {
            reveal(Seq::filter);
        }
        for record in it: taken.into_iter()
            invariant
                it.seq() == before,
                kept@.map_values(|r: VersionedRecord<P>| r@) == rolled_back(
                    before.take(it.index() as int).map_values(|r: VersionedRecord<P>| r@),
                    height,
                ),
        {
            let ghost done = before.take(it.index() as int).map_values(
                |r: VersionedRecord<P>| r@,
            );
            let ghost next = before.take(it.index() + 1).map_values(|r: VersionedRecord<P>| r@);
            proof {
                assert(next.drop_last() =~= done);
                assert(next.last() == record@);
                lemma_rolled_back_step(next, height);
            }
            let mut record = record;
            if record.start_block < height {
                if record.end_block == height {
                    record.end_block = OPEN_SENTINEL;
                }
                kept.push(record);
                assert(kept@.map_values(|r: VersionedRecord<P>| r@) =~= rolled_back(next, height));
            }
        }
        assert(before.take(before.len() as int) =~= before);
        proof {
            lemma_rolled_back_valid(old(self)@, height);
        }
        self.records = kept;
    }

    /// The position of the open version of `partition` with the smallest key
    /// after `cursor`, if there is one.
    fn next_listed(&self, partition: &Option<String>, cursor: Option<&EntityKey>) -> (r: Option<
        usize,
    >)
        requires
            valid_history(self@),
        ensures
            match r {
                Some(i) => listed_at(self@, partition.deep_view(), cursor_view(cursor), i as int)
                    && forall|j: int|
                    j != i && #[trigger] listed_at(
                        self@,
                        partition.deep_view(),
                        cursor_view(cursor),
                        j,
                    ) ==> key_before(self@[i as int].key, self@[j].key),
                None => forall|j: int|
                    !listed_at(self@, partition.deep_view(), cursor_view(cursor), j),
            },
    {
        let ghost p = partition.deep_view();
        let ghost c = cursor_view(cursor);
        let mut best: Option<usize> = None;
        let mut i: usize = 0;
        while i < self.records.len()
            invariant
                i <= self.records.len(),
                valid_history(self@),
                p == partition.deep_view(),
                c == cursor_view(cursor),
                match best {
                    Some(b) => b < i && listed_at(self@, p, c, b as int) && forall|j: int|
                        0 <= j < i && j != b && #[trigger] listed_at(self@, p, c, j) ==> key_before(
                            self@[b as int].key,
                            self@[j].key,
                        ),
                    None => forall|j: int| 0 <= j < i ==> !listed_at(self@, p, c, j),
                },
            decreases self.records.len() - i,
        {
            let record = &self.records[i];
            proof {
                lemma_key_before_irreflexive(record.key@);
            }
            let comes_after = match cursor {
                Some(k) => match k.compare(&record.key) {
                    TextOrder::Before => true,
                    _ => false,
                },
                None => true,
            };
            if comes_after && record.is_open() && same_partition(
                &record.service_partition,
                partition,
            ) {
                assert(listed_at(self@, p, c, i as int));
                match best {
                    None => {
                        best = Some(i);
                    },
                    Some(b) => {
                        let ghost kb = self@[b as int].key;
                        let ghost ki = self@[i as int].key;
                        proof {
                            if kb == ki {
                                lemma_one_open(self@, ki, p, b as int, i as int);
                            }
                            lemma_key_before_total(ki, kb);
                        }
                        match record.key.compare(&self.records[b].key) {
                            TextOrder::Before => {
                                proof {
                                    assert forall|j: int|
                                        0 <= j < i + 1 && j != i && #[trigger] listed_at(
                                            self@,
                                            p,
                                            c,
                                            j,
                                        ) implies key_before(ki, self@[j].key) by {
                                        if j != b {
                                            lemma_key_before_transitive(ki, kb, self@[j].key);
                                        }
                                    }
                                }
                                best = Some(i);
                            },
                            _ => {},
                        }
                    },
                }
            }
            i += 1;
        }
        best
    }

    /// One page of the open versions of `partition`, in ascending order of
    /// their keys: at most `limit` of them, beginning where `token` says, and
    /// the token of the page that follows, if any version is left.
    pub fn list_current<'a>(
        &'a self,
        partition: &Option<String>,
        token: &PageToken,
        limit: usize,
    ) -> (r: (Vec<&'a VersionedRecord<P>>, Option<PageToken>))
        requires
            valid_history(self@),
        ensures
            is_page(
                self@,
                partition.deep_view(),
                token@,
                limit as nat,
                page_view(r.0@),
                token_view(r.1),
            ),
    {
        let ghost s = self@;
        let ghost p = partition.deep_view();
        let ghost after = token@;
        let mut page: Vec<&VersionedRecord<P>> = Vec::new();
        let mut cursor: Option<&EntityKey> = token.last_key();
        assert(page_view(page@) =~= Seq::empty());
        while page.len() < limit
            invariant
                valid_history(self@),
                s == self@,
                p == partition.deep_view(),
                after == token@,
                page.len() <= limit,
                ascending(page_view(page@)),
                cursor_view(cursor) == cursor_after(page_view(page@), after),
                forall|i: int|
                    0 <= i < page.len() ==> s.contains(#[trigger] page_view(page@)[i]) && listed(
                        page_view(page@)[i],
                        p,
                        after,
                    ),
                forall|k: int| #[trigger]
                    listed_at(s, p, after, k) ==> page_view(page@).contains(s[k]) || listed(
                        s[k],
                        p,
                        cursor_view(cursor),
                    ),
            decreases limit - page.len(),
        {
            match self.next_listed(partition, cursor) {
                None => {
                    proof {
                        let c = cursor_view(cursor);
                        assert forall|k: int| #[trigger] listed_at(s, p, after, k) implies page_view(
                            page@,
                        ).contains(s[k]) by {
                            assert(!listed_at(s, p, c, k));
                        }
                    }
                    return (page, None);
                },
                Some(i) => {
                    let record = &self.records[i];
                    let ghost before = page_view(page@);
                    let ghost c = cursor_view(cursor);
                    page.push(record);
                    cursor = Some(&record.key);
                    proof {
                        let now = page_view(page@);
                        let n = before.len() as int;
                        assert(now =~= before.push(s[i as int]));
                        assert(listed(s[i as int], p, after)) by {
                            if n > 0 && after is Some {
                                assert(listed(before[n - 1], p, after));
                                lemma_key_before_transitive(
                                    after->0,
                                    before[n - 1].key,
                                    s[i as int].key,
                                );
                            }
                        }
                        assert forall|a: int, b: int| 0 <= a < b < now.len() implies key_before(
                            (#[trigger] now[a]).key,
                            (#[trigger] now[b]).key,
                        ) by {
                            if b < n {
                                assert(key_before(before[a].key, before[b].key));
                            } else if a < n - 1 {
                                assert(key_before(before[a].key, before[n - 1].key));
                                lemma_key_before_transitive(
                                    before[a].key,
                                    before[n - 1].key,
                                    s[i as int].key,
                                );
                            }
                        }
                        assert forall|a: int| 0 <= a < now.len() implies s.contains(
                            #[trigger] now[a],
                        ) && listed(now[a], p, after) by {
                            if a < n {
                                assert(s.contains(before[a]));
                            } else {
                                assert(s[i as int] == now[a]);
                            }
                        }
                        assert forall|k: int| #[trigger] listed_at(s, p, after, k) implies now.contains(
                            s[k],
                        ) || listed(s[k], p, cursor_view(cursor)) by {
                            if before.contains(s[k]) {
                                let a = choose|a: int| 0 <= a < before.len() && before[a] == s[k];
                                assert(now[a] == s[k]);
                            } else if k == i {
                                assert(now[n] == s[k]);
                            } else {
                                assert(listed_at(s, p, c, k));
                            }
                        }
                    }
                },
            }
        }
        match self.next_listed(partition, cursor) {
            None => {
                proof {
                    let c = cursor_view(cursor);
                    assert forall|k: int| #[trigger] listed_at(s, p, after, k) implies page_view(
                        page@,
                    ).contains(s[k]) by {
                        assert(!listed_at(s, p, c, k));
                    }
                }
                (page, None)
            },
            Some(i) => {
                let next = match cursor {
                    Some(k) => PageToken::after(k),
                    None => PageToken::start(),
                };
                assert(listed_at(s, p, cursor_view(cursor), i as int));
                (page, Some(next))
            },
        }
    }

    /// Whether the children of the entity called `scope` may be replaced by
    /// `members` at `block`: nothing is changed.
    pub fn check_replace_scope(
        &self,
        scope: &str,
        partition: &Option<String>,
        block: i64,
        members: &Vec<Member<P>>,
    ) -> (r: Result<(), MirrorError>)
        requires
            valid_history(self@),
        ensures
            r == replace_outcome(
                self@,
                scope@,
                partition.deep_view(),
                block,
                members_view(members@),
            ),
    {
        let ghost s = self@;
        let ghost p = partition.deep_view();
        let ghost ms = members_view(members@);
        let mut i: usize = 0;
        while i < self.records.len()
            invariant
                i <= self.records.len(),
                s == self@,
                p == partition.deep_view(),
                forall|k: int| 0 <= k < i ==> !stuck_at(s, scope@, p, block, k),
            decreases self.records.len() - i,
        {
            let record = &self.records[i];
            if record.is_open() && (block == OPEN_SENTINEL || block <= record.start_block)
                && same_text(record.key.scope.as_str(), scope) && same_partition(
                &record.service_partition,
                partition,
            ) {
                assert(stuck_at(s, scope@, p, block, i as int));
                return Err(MirrorError::InvalidRange);
            }
            i += 1;
        }
        let mut j: usize = 0;
        while j < members.len()
            invariant
                j <= members.len(),
                s == self@,
                p == partition.deep_view(),
                ms == members_view(members@),
                forall|k: int| !stuck_at(s, scope@, p, block, k),
                forall|k: int| 0 <= k < j ==> !member_overlaps_at(s, scope@, p, block, ms, k),
            decreases members.len() - j,
        {
            let key = EntityKey::child(scope, members[j].name.as_str());
            if self.ends_after(&key, partition, block) {
                assert(member_overlaps_at(s, scope@, p, block, ms, j as int));
                return Err(MirrorError::InvalidRange);
            }
            j += 1;
        }
        let mut b: usize = 0;
        while b < members.len()
            invariant
                b <= members.len(),
                s == self@,
                p == partition.deep_view(),
                ms == members_view(members@),
                forall|k: int| !stuck_at(s, scope@, p, block, k),
                forall|k: int| !member_overlaps_at(s, scope@, p, block, ms, k),
                forall|x: int, y: int| 0 <= y < b ==> !repeated_at(ms, x, y),
            decreases members.len() - b,
        {
            let mut a: usize = 0;
            while a < b
                invariant
                    a <= b,
                    b < members.len(),
                    s == self@,
                    p == partition.deep_view(),
                    ms == members_view(members@),
                    forall|k: int| !stuck_at(s, scope@, p, block, k),
                    forall|k: int| !member_overlaps_at(s, scope@, p, block, ms, k),
                    forall|x: int| 0 <= x < a ==> !repeated_at(ms, x, b as int),
                decreases b - a,
            {
                if same_text(members[a].name.as_str(), members[b].name.as_str()) {
                    assert(repeated_at(ms, a as int, b as int));
                    return Err(MirrorError::Conflict);
                }
                a += 1;
            }
            b += 1;
        }
        Ok(())
    }

    /// Replaces the children of the entity called `scope` at `block`, in one
    /// step: closes every open version of a child there and opens a version
    /// for each member. A child that no member names stays closed.
    ///
    /// Fails with `InvalidRange` if an open version of a child cannot be
    /// closed at `block` or a closed version of a named child ends after
    /// `block`, and with `Conflict` if two members name the same child. On
    /// failure the store is unchanged.
    pub fn replace_scope(
        &mut self,
        scope: &str,
        partition: &Option<String>,
        block: i64,
        members: Vec<Member<P>>,
    ) -> (r: Result<(), MirrorError>)
        requires
            valid_history(old(self)@),
        ensures
            valid_history(final(self)@),
            r == replace_outcome(
                old(self)@,
                scope@,
                partition.deep_view(),
                block,
                members_view(members@),
            ),
            r is Ok ==> final(self)@ == replaced(
                old(self)@,
                scope@,
                partition.deep_view(),
                block,
                members_view(members@),
            ),
            r is Err ==> final(self)@ == old(self)@,
    {
        let ghost s = self@;
        let ghost p = partition.deep_view();
        let ghost ms = members_view(members@);
        match self.check_replace_scope(scope, partition, block, &members) {
            Err(e) => {
                return Err(e);
            },
            Ok(_) => {},
        }
        proof {
            lemma_replaced_valid(s, scope@, p, block, ms);
        }
        let ghost c = closed_scope(s, scope@, p, block);
        let mut i: usize = 0;
        while i < self.records.len()
            invariant
                i <= self.records.len(),
                self@.len() == s.len(),
                p == partition.deep_view(),
                c == closed_scope(s, scope@, p, block),
                forall|k: int| 0 <= k < i ==> self@[k] == c[k],
                forall|k: int| i <= k < s.len() ==> self@[k] == s[k],
            decreases self.records.len() - i,
        {
            let record = &self.records[i];
            if record.is_open() && same_text(record.key.scope.as_str(), scope) && same_partition(
                &record.service_partition,
                partition,
            ) {
                self.records[i].end_block = block;
            }
            i += 1;
        }
        assert(self@ =~= c);
        let ghost all = members@;
        for member in it: members.into_iter()
            invariant
                it.seq() == all,
                ms == members_view(all),
                p == partition.deep_view(),
                self@ == c + member_records(scope@, p, block, ms).take(it.index() as int),
        {
            let ghost before = self@;
            let ghost j = it.index() as int;
            let Member { name, attrs } = member;
            let record = VersionedRecord {
                key: EntityKey::child(scope, name.as_str()),
                service_partition: duplicate_partition(partition),
                start_block: block,
                end_block: OPEN_SENTINEL,
                payload: attrs,
            };
            self.records.push(record);
            proof {
                let m = member_records(scope@, p, block, ms);
                assert(ms[j] == all[j]@);
                assert(m.take(j + 1) =~= m.take(j).push(m[j]));
                assert(self@ =~= before.push(m[j]));
            }
        }
        proof {
            let m = member_records(scope@, p, block, ms);
            assert(m.take(m.len() as int) =~= m);
        }
        Ok(())
    }

    /// Undoes every block from the latest down to `to_block`, one by one and
    /// the latest first: the versions that start at one of these blocks are
    /// removed, and those that were closed at one of them are open again.
    /// Only the blocks at which something happened take any work.
    pub fn rollback_through(&mut self, to_block: i64)
        requires
            valid_history(old(self)@),
        ensures
            valid_history(final(self)@),
            final(self)@ == rolled_down(old(self)@, i64::MAX as int, to_block as int),
            bounded_by(final(self)@, to_block - 1),
    {
        let ghost s = self@;
        let ghost goal = rolled_down(s, i64::MAX as int, to_block as int);
        let mut bound: i128 = i64::MAX as i128;
        proof {
            lemma_bounded_by_max(s);
            lemma_rolled_down_valid(s, i64::MAX, to_block as int);
        }
        loop
            invariant
                i64::MIN - 1 <= bound <= i64::MAX,
                valid_history(self@),
                bounded_by(self@, bound as int),
                goal == rolled_down(s, i64::MAX as int, to_block as int),
                bound >= to_block ==> goal == rolled_down(self@, bound as int, to_block as int),
                bound < to_block ==> goal == self@,
            ensures
                goal == self@,
                valid_history(self@),
            decreases bound - to_block + 1,
        {
            if bound < to_block as i128 {
                break;
            }
            let height = match self.latest_block() {
                None => {
                    proof {
                        lemma_rolled_down_nothing(self@, bound as int, to_block as int);
                    }
                    break;
                },
                Some(height) => height,
            };
            proof {
                lemma_event_within(self@, bound as int, height as int);
                lemma_rolled_down_from_bound(
                    self@,
                    bound as int,
                    height as int,
                    to_block as int,
                );
            }
            if height < to_block {
                break;
            }
            proof {
                lemma_rolled_down_top(self@, height, to_block as int);
                lemma_rolled_back_bounded(self@, height);
            }
            self.rollback_to(height);
            bound = height as i128 - 1;
        }
    }
}

} // verus!
