//! Listing the open versions of a partition page by page, in ascending order
//! of their keys.

use vstd::prelude::*;
use vstd::seq_lib::seq_to_set_is_finite;
use vstd::set_lib::lemma_len_subset;

use crate::key::{
    key_before, lemma_key_before_asymmetric, lemma_key_before_irreflexive,
    lemma_key_before_transitive, EntityKey, KeyView,
};
use crate::record::{RecordView, VersionedRecord};

verus! {

/// Where a listing goes on: after the key that the token holds, or at the
/// first key if it holds none. A caller gets tokens from the listing itself.
#[derive(Debug)]
pub struct PageToken {
    after: Option<EntityKey>,
}

impl View for PageToken {
    type V = Option<KeyView>;

    closed spec fn view(&self) -> Option<KeyView> {
        match self.after {
            Some(k) => Some(k@),
            None => None,
        }
    }
}

/// The key that an optional key reference stands for.
pub open spec fn cursor_view(cursor: Option<&EntityKey>) -> Option<KeyView> {
    match cursor {
        Some(k) => Some(k@),
        None => None,
    }
}

impl PageToken {
    /// The token of the first page.
    pub fn start() -> (t: PageToken)
        ensures
            t@ == None::<KeyView>,
    {
        PageToken { after: None }
    }

    /// The token of the page that begins after `key`.
    pub fn after(key: &EntityKey) -> (t: PageToken)
        ensures
            t@ == Some(key@),
    {
        PageToken { after: Some(key.duplicate()) }
    }

    /// The key after which the page begins, if any.
    pub fn last_key(&self) -> (k: Option<&EntityKey>)
        ensures
            cursor_view(k) == self@,
    {
        match &self.after {
            Some(k) => Some(k),
            None => None,
        }
    }
}

/// The version belongs in a listing of `partition` that goes on after
/// `after`: it is open, in that partition, and its key comes later.
pub open spec fn listed<P>(
    r: RecordView<P>,
    partition: Option<Seq<char>>,
    after: Option<KeyView>,
) -> bool {
    r.is_open() && r.partition == partition && match after {
        Some(k) => key_before(k, r.key),
        None => true,
    }
}

/// The version at position `i` of the history belongs in the listing.
pub open spec fn listed_at<P>(
    s: Seq<RecordView<P>>,
    partition: Option<Seq<char>>,
    after: Option<KeyView>,
    i: int,
) -> bool {
    0 <= i < s.len() && listed(s[i], partition, after)
}

/// Where a listing stands after `page`: at the key of its last version, or
/// where it began if the page is empty.
pub open spec fn cursor_after<P>(page: Seq<RecordView<P>>, after: Option<KeyView>) -> Option<
    KeyView,
> {
    if page.len() > 0 {
        Some(page.last().key)
    } else {
        after
    }
}

/// The keys of the page grow strictly from each version to the next.
pub open spec fn ascending<P>(page: Seq<RecordView<P>>) -> bool {
    forall|i: int, j: int|
        0 <= i < j < page.len() ==> key_before((#[trigger] page[i]).key, (#[trigger] page[j]).key)
}

/// `page` and `next` are what a listing of `partition` after `after` with
/// room for `limit` versions returns: the page holds, in ascending order of
/// their keys, the first open versions of the partition after `after`, none
/// left out, as far as there is room; `next` is the token to go on with, or
/// nothing if no open version of the partition comes after the page.
pub open spec fn is_page<P>(
    s: Seq<RecordView<P>>,
    partition: Option<Seq<char>>,
    after: Option<KeyView>,
    limit: nat,
    page: Seq<RecordView<P>>,
    next: Option<Option<KeyView>>,
) -> bool {
    &&& page.len() <= limit
    &&& ascending(page)
    &&& forall|i: int|
        0 <= i < page.len() ==> s.contains(#[trigger] page[i]) && listed(page[i], partition, after)
    &&& forall|k: int| #[trigger]
        listed_at(s, partition, after, k) ==> page.contains(s[k]) || (page.len() == limit
            && listed(s[k], partition, cursor_after(page, after)))
    &&& match next {
        Some(t) => page.len() == limit && t == cursor_after(page, after) && exists|k: int|
            listed_at(s, partition, t, k),
        None => forall|k: int| !listed_at(s, partition, cursor_after(page, after), k),
    }
}

/// The versions that a page of references holds, as plain values.
pub open spec fn page_view<P>(page: Seq<&VersionedRecord<P>>) -> Seq<RecordView<P>> {
    page.map_values(|r: &VersionedRecord<P>| r@)
}

/// The token that an optional token stands for.
pub open spec fn token_view(next: Option<PageToken>) -> Option<Option<KeyView>> {
    match next {
        Some(t) => Some(t@),
        None => None,
    }
}

/// No version stands twice in a page.
pub proof fn law_page_without_repeats<P>(page: Seq<RecordView<P>>, i: int, j: int)
    requires
        ascending(page),
        0 <= i < page.len(),
        0 <= j < page.len(),
        i != j,
    ensures
        page[i].key != page[j].key,
{
    if i < j {
        lemma_key_before_asymmetric(page[i].key, page[j].key);
    } else {
        lemma_key_before_asymmetric(page[j].key, page[i].key);
    }
}

/// A listing that returns no token has left nothing out: every open version
/// of the partition after `after` is in the page.
pub proof fn law_last_page_complete<P>(
    s: Seq<RecordView<P>>,
    partition: Option<Seq<char>>,
    after: Option<KeyView>,
    limit: nat,
    page: Seq<RecordView<P>>,
    k: int,
)
    requires
        is_page(s, partition, after, limit, page, None),
        listed_at(s, partition, after, k),
    ensures
        page.contains(s[k]),
{
    assert(!listed_at(s, partition, cursor_after(page, after), k));
}

/// Going on with the token of one page gives the page that follows it: the
/// two pages together are the listing with room for both, so that every open
/// version of the partition is met once, in ascending order of the keys.
pub proof fn law_pages_chain<P>(
    s: Seq<RecordView<P>>,
    partition: Option<Seq<char>>,
    after: Option<KeyView>,
    first_limit: nat,
    first: Seq<RecordView<P>>,
    token: Option<KeyView>,
    second_limit: nat,
    second: Seq<RecordView<P>>,
    next: Option<Option<KeyView>>,
)
    requires
        is_page(s, partition, after, first_limit, first, Some(token)),
        is_page(s, partition, token, second_limit, second, next),
    ensures
        is_page(s, partition, after, first_limit + second_limit, first + second, next),
{
    let both = first + second;
    let n = first.len() as int;
    assert(cursor_after(both, after) == cursor_after(second, token)) by {
        if second.len() > 0 {
            assert(both.last() == second.last());
        } else {
            assert(both =~= first);
        }
    }
    assert forall|i: int| 0 <= i < second.len() implies listed(
        #[trigger] second[i],
        partition,
        after,
    ) by {
        if first.len() > 0 {
            assert(listed(first[n - 1], partition, after));
            if after is Some {
                lemma_key_before_transitive(after->0, first.last().key, second[i].key);
            }
        }
    }
    assert forall|i: int, j: int| 0 <= i < j < both.len() implies key_before(
        (#[trigger] both[i]).key,
        (#[trigger] both[j]).key,
    ) by {
        if j < n {
            assert(key_before(first[i].key, first[j].key));
        } else if i >= n {
            assert(key_before(second[i - n].key, second[j - n].key));
        } else {
            assert(listed(second[j - n], partition, token));
            if i < n - 1 {
                assert(key_before(first[i].key, first[n - 1].key));
                lemma_key_before_transitive(first[i].key, first.last().key, second[j - n].key);
            }
        }
    }
    assert forall|i: int| 0 <= i < both.len() implies s.contains(#[trigger] both[i]) && listed(
        both[i],
        partition,
        after,
    ) by {
        if i < n {
            assert(s.contains(first[i]));
        } else {
            assert(s.contains(second[i - n]));
        }
    }
    assert forall|k: int| #[trigger] listed_at(s, partition, after, k) implies both.contains(s[k])
        || (both.len() == first_limit + second_limit && listed(
        s[k],
        partition,
        cursor_after(both, after),
    )) by {
        if first.contains(s[k]) {
            let i = choose|i: int| 0 <= i < first.len() && first[i] == s[k];
            assert(both[i] == s[k]);
        } else {
            assert(listed_at(s, partition, token, k));
            if second.contains(s[k]) {
                let i = choose|i: int| 0 <= i < second.len() && second[i] == s[k];
                assert(both[n + i] == s[k]);
            }
        }
    }
}

/// In an ascending page a version with a smaller key stands earlier.
proof fn lemma_earlier_in_page<P>(page: Seq<RecordView<P>>, i: int, j: int)
    requires
        ascending(page),
        0 <= i < page.len(),
        0 <= j < page.len(),
        key_before(page[i].key, page[j].key),
    ensures
        i < j,
{
    if i == j {
        lemma_key_before_irreflexive(page[i].key);
    } else if j < i {
        lemma_key_before_asymmetric(page[j].key, page[i].key);
    }
}

/// A version of one page that is missing from another page of the same
/// listing comes after every version of that other page.
proof fn lemma_missing_is_later<P>(
    s: Seq<RecordView<P>>,
    partition: Option<Seq<char>>,
    after: Option<KeyView>,
    limit: nat,
    page: Seq<RecordView<P>>,
    next: Option<Option<KeyView>>,
    r: RecordView<P>,
    i: int,
)
    requires
        is_page(s, partition, after, limit, page, next),
        s.contains(r),
        listed(r, partition, after),
        !page.contains(r),
        0 <= i < page.len(),
    ensures
        key_before(page[i].key, r.key),
        page.len() == limit,
{
    let k = choose|k: int| 0 <= k < s.len() && s[k] == r;
    assert(listed_at(s, partition, after, k));
    let last = page.len() - 1;
    assert(key_before(page[last].key, r.key));
    if i < last {
        assert(key_before(page[i].key, page[last].key));
        lemma_key_before_transitive(page[i].key, page[last].key, r.key);
    }
}

/// Two pages of the same listing hold the same versions at the positions that
/// both have.
proof fn lemma_pages_agree<P>(
    s: Seq<RecordView<P>>,
    partition: Option<Seq<char>>,
    after: Option<KeyView>,
    limit: nat,
    p: Seq<RecordView<P>>,
    pn: Option<Option<KeyView>>,
    q: Seq<RecordView<P>>,
    qn: Option<Option<KeyView>>,
    i: int,
)
    requires
        is_page(s, partition, after, limit, p, pn),
        is_page(s, partition, after, limit, q, qn),
        0 <= i < p.len(),
        i < q.len(),
    ensures
        p[i] == q[i],
    decreases i,
{
    assert(s.contains(p[i]) && listed(p[i], partition, after));
    assert(s.contains(q[i]) && listed(q[i], partition, after));
    if p[i] != q[i] {
        // the version of `q` finds its place in `p`, and the other way round
        if q.contains(p[i]) {
            let j = choose|j: int| 0 <= j < q.len() && q[j] == p[i];
            if j < i {
                lemma_pages_agree(s, partition, after, limit, p, pn, q, qn, j);
                law_page_without_repeats(p, j, i);
            } else {
                assert(key_before(q[i].key, q[j].key));
                if p.contains(q[i]) {
                    let l = choose|l: int| 0 <= l < p.len() && p[l] == q[i];
                    lemma_earlier_in_page(p, l, i);
                    lemma_pages_agree(s, partition, after, limit, p, pn, q, qn, l);
                    law_page_without_repeats(q, l, i);
                } else {
                    lemma_missing_is_later(s, partition, after, limit, p, pn, q[i], i);
                    lemma_key_before_asymmetric(p[i].key, q[i].key);
                }
            }
        } else {
            lemma_missing_is_later(s, partition, after, limit, q, qn, p[i], i);
            if p.contains(q[i]) {
                let l = choose|l: int| 0 <= l < p.len() && p[l] == q[i];
                lemma_earlier_in_page(p, l, i);
                lemma_pages_agree(s, partition, after, limit, p, pn, q, qn, l);
                law_page_without_repeats(q, l, i);
            } else {
                lemma_missing_is_later(s, partition, after, limit, p, pn, q[i], i);
                lemma_key_before_asymmetric(p[i].key, q[i].key);
            }
        }
    }
}

/// A page of a listing is not longer than any other page of the same
/// listing.
proof fn lemma_page_not_longer<P>(
    s: Seq<RecordView<P>>,
    partition: Option<Seq<char>>,
    after: Option<KeyView>,
    limit: nat,
    p: Seq<RecordView<P>>,
    pn: Option<Option<KeyView>>,
    q: Seq<RecordView<P>>,
    qn: Option<Option<KeyView>>,
)
    requires
        is_page(s, partition, after, limit, p, pn),
        is_page(s, partition, after, limit, q, qn),
    ensures
        q.len() <= p.len(),
{
    if p.len() < q.len() {
        let n = p.len() as int;
        let r = q[n];
        assert(s.contains(r) && listed(r, partition, after));
        if p.contains(r) {
            let l = choose|l: int| 0 <= l < p.len() && p[l] == r;
            lemma_pages_agree(s, partition, after, limit, p, pn, q, qn, l);
            law_page_without_repeats(q, l, n);
        } else {
            let k = choose|k: int| 0 <= k < s.len() && s[k] == r;
            assert(listed_at(s, partition, after, k));
        }
    }
}

/// What a listing returns is settled by the history, the partition, the
/// token and the room alone: two pages that both answer one listing are the
/// same page, with the same token to go on with.
pub proof fn law_page_is_unique<P>(
    s: Seq<RecordView<P>>,
    partition: Option<Seq<char>>,
    after: Option<KeyView>,
    limit: nat,
    p: Seq<RecordView<P>>,
    pn: Option<Option<KeyView>>,
    q: Seq<RecordView<P>>,
    qn: Option<Option<KeyView>>,
)
    requires
        is_page(s, partition, after, limit, p, pn),
        is_page(s, partition, after, limit, q, qn),
    ensures
        p == q,
        pn == qn,
{
    lemma_page_not_longer(s, partition, after, limit, p, pn, q, qn);
    lemma_page_not_longer(s, partition, after, limit, q, qn, p, pn);
    assert forall|i: int| 0 <= i < p.len() implies p[i] == q[i] by {
        lemma_pages_agree(s, partition, after, limit, p, pn, q, qn, i);
    }
    assert(p =~= q);
    let c = cursor_after(p, after);
    if pn is Some && qn is None {
        let k = choose|k: int| listed_at(s, partition, c, k);
        assert(!listed_at(s, partition, c, k));
    }
    if qn is Some && pn is None {
        let k = choose|k: int| listed_at(s, partition, c, k);
        assert(!listed_at(s, partition, c, k));
    }
}

/// A sequence without repeats whose items all stand in another sequence is
/// not longer than that one.
pub proof fn lemma_distinct_fits<A>(p: Seq<A>, s: Seq<A>)
    requires
        p.no_duplicates(),
        forall|i: int| 0 <= i < p.len() ==> s.contains(#[trigger] p[i]),
    ensures
        p.len() <= s.len(),
{
    p.unique_seq_to_set();
    s.lemma_cardinality_of_set();
    seq_to_set_is_finite(s);
    assert(p.to_set().subset_of(s.to_set())) by {
        assert forall|a: A| p.to_set().contains(a) implies s.to_set().contains(a) by {
            let i = choose|i: int| 0 <= i < p.len() && p[i] == a;
            assert(s.contains(p[i]));
        }
    }
    lemma_len_subset(p.to_set(), s.to_set());
}

/// A page with room for as many versions as the history holds leaves nothing
/// over: such a listing returns no token.
pub proof fn law_full_listing_is_complete<P>(
    s: Seq<RecordView<P>>,
    partition: Option<Seq<char>>,
    after: Option<KeyView>,
    page: Seq<RecordView<P>>,
    next: Option<Option<KeyView>>,
)
    requires
        is_page(s, partition, after, s.len(), page, next),
    ensures
        next is None,
{
    if next is Some {
        let c = cursor_after(page, after);
        let k = choose|k: int| listed_at(s, partition, c, k);
        let q = page.push(s[k]);
        let n = page.len() as int;
        assert forall|i: int, j: int| 0 <= i < q.len() && 0 <= j < q.len() && i != j implies q[i]
            != q[j] by {
            if i < n && j < n {
                law_page_without_repeats(page, i, j);
            } else {
                let m = if i < n {
                    i
                } else {
                    j
                };
                if m < n - 1 {
                    assert(key_before(page[m].key, page[n - 1].key));
                    lemma_key_before_transitive(page[m].key, page[n - 1].key, s[k].key);
                }
                lemma_key_before_asymmetric(page[m].key, s[k].key);
            }
        }
        assert forall|i: int| 0 <= i < q.len() implies s.contains(#[trigger] q[i]) by {
            if i < n {
                assert(s.contains(page[i]));
            }
        }
        lemma_distinct_fits(q, s);
    }
}

} // verus!
