//! How a selection from a sequence grows as the sequence is read to its end.

use vstd::prelude::*;

verus! {

/// The items of `s` that `keep` holds of, each mapped by `f`, in their order.
pub open spec fn selected<A, B>(s: Seq<A>, keep: spec_fn(A) -> bool, f: spec_fn(A) -> B) -> Seq<B> {
    s.filter(keep).map_values(f)
}

/// Nothing is selected from an empty sequence.
pub proof fn lemma_selected_empty<A, B>(keep: spec_fn(A) -> bool, f: spec_fn(A) -> B)
    ensures
        selected(Seq::<A>::empty(), keep, f) == Seq::<B>::empty(),
{
    reveal(Seq::filter);
    assert(Seq::<A>::empty().filter(keep).len() == 0);
    assert(selected(Seq::<A>::empty(), keep, f) =~= Seq::<B>::empty());
}

/// The selection from a sequence is that from all but its last item, with the
/// image of the last item added where `keep` holds of it.
pub proof fn lemma_selected_step<A, B>(s: Seq<A>, keep: spec_fn(A) -> bool, f: spec_fn(A) -> B)
    requires
        s.len() > 0,
    ensures
        selected(s, keep, f) == if keep(s.last()) {
            selected(s.drop_last(), keep, f).push(f(s.last()))
        } else {
            selected(s.drop_last(), keep, f)
        },
{
    reveal(Seq::filter);
    if keep(s.last()) {
        assert(s.filter(keep) == s.drop_last().filter(keep).push(s.last()));
        assert(s.filter(keep).map_values(f) =~= s.drop_last().filter(keep).map_values(f).push(
            f(s.last()),
        ));
    } else {
        assert(s.filter(keep) == s.drop_last().filter(keep));
    }
}

/// Reading one item more: the selection from the first `i + 1` items is that
/// from the first `i`, with the image of item `i` added where `keep` holds of
/// it.
pub proof fn lemma_selected_take<A, B>(
    s: Seq<A>,
    keep: spec_fn(A) -> bool,
    f: spec_fn(A) -> B,
    i: int,
)
    requires
        0 <= i < s.len(),
    ensures
        selected(s.take(i + 1), keep, f) == if keep(s[i]) {
            selected(s.take(i), keep, f).push(f(s[i]))
        } else {
            selected(s.take(i), keep, f)
        },
{
    assert(s.take(i + 1).drop_last() =~= s.take(i));
    lemma_selected_step(s.take(i + 1), keep, f);
}

/// Selecting without mapping is filtering.
pub proof fn lemma_selected_same<A>(s: Seq<A>, keep: spec_fn(A) -> bool)
    ensures
        selected(s, keep, |a: A| a) == s.filter(keep),
{
    assert(selected(s, keep, |a: A| a) =~= s.filter(keep));
}

/// Filtering leaves out what the condition does not hold of: where it fails
/// for an item, the filtered sequence is shorter.
pub proof fn lemma_filter_shorter<A>(s: Seq<A>, keep: spec_fn(A) -> bool, i: int)
    requires
        0 <= i < s.len(),
        !keep(s[i]),
    ensures
        s.filter(keep).len() < s.len(),
    decreases s.len(),
{
    reveal(Seq::filter);
    let front = s.drop_last();
    front.lemma_filter_len(keep);
    if i < s.len() - 1 {
        assert(front[i] == s[i]);
        lemma_filter_shorter(front, keep, i);
    }
}

/// Filtering by a condition that holds of every item leaves the sequence as
/// it is.
pub proof fn lemma_filter_all<A>(s: Seq<A>, keep: spec_fn(A) -> bool)
    requires
        forall|i: int| 0 <= i < s.len() ==> keep(#[trigger] s[i]),
    ensures
        s.filter(keep) == s,
    decreases s.len(),
{
    reveal(Seq::filter);
    if s.len() > 0 {
        let front = s.drop_last();
        assert forall|i: int| 0 <= i < front.len() implies keep(#[trigger] front[i]) by {
            assert(front[i] == s[i]);
        }
        lemma_filter_all(front, keep);
        assert(keep(s[s.len() - 1]));
        assert(s.filter(keep) =~= s);
    } else {
        assert(s.filter(keep) =~= s);
    }
}

/// Filtering by a condition that holds of no item leaves nothing.
pub proof fn lemma_filter_none<A>(s: Seq<A>, keep: spec_fn(A) -> bool)
    requires
        forall|i: int| 0 <= i < s.len() ==> !keep(#[trigger] s[i]),
    ensures
        s.filter(keep) == Seq::<A>::empty(),
    decreases s.len(),
{
    reveal(Seq::filter);
    if s.len() > 0 {
        let front = s.drop_last();
        assert forall|i: int| 0 <= i < front.len() implies !keep(#[trigger] front[i]) by {
            assert(front[i] == s[i]);
        }
        lemma_filter_none(front, keep);
        assert(!keep(s[s.len() - 1]));
    }
    assert(s.filter(keep) =~= Seq::<A>::empty());
}

} // verus!
