//! Sequences and options: what is shared by the modules that fill them.

use vstd::prelude::*;

verus! {

/// What `f` gives of the items, in their order, without the items of which it
/// gives nothing.
pub open spec fn kept<A, B>(items: Seq<A>, f: spec_fn(A) -> Option<B>) -> Seq<B>
    decreases items.len(),
{
    if items.len() == 0 {
        seq![]
    } else {
        let before = kept(items.drop_last(), f);
        match f(items.last()) {
            Some(b) => before.push(b),
            None => before,
        }
    }
}

/// One more item, one more step.
pub proof fn lemma_kept_step<A, B>(items: Seq<A>, f: spec_fn(A) -> Option<B>, i: int)
    requires
        0 <= i < items.len(),
    ensures
        kept(items.take(i + 1), f) == match f(items[i]) {
            Some(b) => kept(items.take(i), f).push(b),
            None => kept(items.take(i), f),
        },
{
    assert(items.take(i + 1).drop_last() == items.take(i));
    assert(items.take(i + 1).last() == items[i]);
}

/// The first of two, where there is one, else the second.
pub open spec fn either<T>(a: Option<T>, b: Option<T>) -> Option<T> {
    if a is Some {
        a
    } else {
        b
    }
}

pub fn first<T>(a: Option<T>, b: Option<T>) -> (result: Option<T>)
    ensures
        result == either(a, b),
{
    match a {
        Some(_) => a,
        None => b,
    }
}

pub fn copied<T: Copy>(items: &Vec<T>) -> (result: Vec<T>)
    ensures
        result@ == items@,
{
    let mut result: Vec<T> = Vec::new();
    let mut i: usize = 0;
    while i < items.len()
        invariant
            i <= items.len(),
            result@ == items@.take(i as int),
        decreases items.len() - i,
    {
        result.push(items[i]);
        i = i + 1;
    }
    assert(items@.take(items@.len() as int) == items@);
    result
}

/// `item` put into `items` behind all that it does not come before.
pub open spec fn placed<A>(items: Seq<A>, item: A, before: spec_fn(A, A) -> bool) -> Seq<A>
    decreases items.len(),
{
    if items.len() == 0 || !before(item, items.last()) {
        items.push(item)
    } else {
        placed(items.drop_last(), item, before).push(items.last())
    }
}

/// The items in the order of `before`; items of which neither comes before the
/// other stay in the order in which they were.
pub open spec fn sorted<A>(items: Seq<A>, before: spec_fn(A, A) -> bool) -> Seq<A>
    decreases items.len(),
{
    if items.len() == 0 {
        seq![]
    } else {
        placed(sorted(items.drop_last(), before), items.last(), before)
    }
}

/// No item comes before one that stands ahead of it.
pub open spec fn in_order<A>(items: Seq<A>, before: spec_fn(A, A) -> bool) -> bool {
    forall|i: int, j: int|
        0 <= i < j < items.len() ==> !before(#[trigger] items[j], #[trigger] items[i])
}

/// `before` sorts items into ranks.
pub open spec fn ranks<A>(before: spec_fn(A, A) -> bool) -> bool {
    &&& forall|a: A, b: A| #[trigger] before(a, b) ==> !before(b, a)
    &&& forall|a: A, b: A, c: A|
        !(#[trigger] before(a, b)) && !(#[trigger] before(b, c)) ==> !before(a, c)
}

pub proof fn lemma_placed<A>(items: Seq<A>, item: A, before: spec_fn(A, A) -> bool)
    requires
        ranks(before),
        in_order(items, before),
    ensures
        in_order(placed(items, item, before), before),
        placed(items, item, before).to_multiset() == items.to_multiset().insert(item),
        placed(items, item, before).len() == items.len() + 1,
    decreases items.len(),
{
    broadcast use vstd::seq_lib::group_to_multiset_ensures;

    let out = placed(items, item, before);
    if items.len() == 0 || !before(item, items.last()) {
        assert forall|i: int, j: int| 0 <= i < j < out.len() implies !before(
            #[trigger] out[j],
            #[trigger] out[i],
        ) by {
            if j == items.len() {
                if i + 1 < items.len() {
                    assert(!before(items.last(), items[i]));
                    assert(!before(item, items.last()));
                }
            } else {
                assert(!before(items[j], items[i]));
            }
        }
    } else {
        let last = items.last();
        let rest = items.drop_last();
        assert(in_order(rest, before)) by {
            assert forall|i: int, j: int| 0 <= i < j < rest.len() implies !before(
                #[trigger] rest[j],
                #[trigger] rest[i],
            ) by {
                assert(rest[j] == items[j] && rest[i] == items[i]);
            }
        }
        lemma_placed(rest, item, before);
        let inner = placed(rest, item, before);
        assert(items == rest.push(last));
        assert forall|i: int| 0 <= i < inner.len() implies !before(last, #[trigger] inner[i]) by {
            assert(inner.to_multiset().contains(inner[i])) by {
                inner.to_multiset_ensures();
                assert(inner.contains(inner[i]));
            }
            if inner[i] == item {
                assert(before(item, last));
            } else {
                assert(rest.to_multiset().contains(inner[i]));
                rest.to_multiset_ensures();
                assert(rest.contains(inner[i]));
                let k = choose|k: int| 0 <= k < rest.len() && rest[k] == inner[i];
                assert(!before(items[items.len() - 1], items[k]));
            }
        }
        assert(rest.to_multiset().insert(item).insert(last) == rest.to_multiset().insert(
            last,
        ).insert(item));
    }
}

/// Sorting orders the items and neither drops nor adds one.
pub proof fn sorting_orders<A>(items: Seq<A>, before: spec_fn(A, A) -> bool)
    requires
        ranks(before),
    ensures
        in_order(sorted(items, before), before),
        sorted(items, before).to_multiset() == items.to_multiset(),
        sorted(items, before).len() == items.len(),
    decreases items.len(),
{
    broadcast use vstd::seq_lib::group_to_multiset_ensures;

    if items.len() > 0 {
        sorting_orders(items.drop_last(), before);
        lemma_placed(sorted(items.drop_last(), before), items.last(), before);
        assert(items == items.drop_last().push(items.last()));
    } else {
        assert(items =~= Seq::empty());
    }
}

/// Placing an item leaves the place for it between those that go ahead and
/// those that come behind.
pub proof fn lemma_placed_at<A>(items: Seq<A>, item: A, before: spec_fn(A, A) -> bool, at: int)
    requires
        0 <= at <= items.len(),
        at > 0 ==> !before(item, items[at - 1]),
        forall|k: int| at <= k < items.len() ==> before(item, #[trigger] items[k]),
    ensures
        placed(items, item, before) == items.insert(at, item),
    decreases items.len(),
{
    if at < items.len() {
        assert(before(item, items[items.len() - 1]));
        let rest = items.drop_last();
        assert(at > 0 ==> rest[at - 1] == items[at - 1]);
        assert forall|k: int| at <= k < rest.len() implies before(item, #[trigger] rest[k]) by {
            assert(rest[k] == items[k]);
        }
        lemma_placed_at(rest, item, before, at);
        assert(items.insert(at, item) == rest.insert(at, item).push(items.last()));
    } else {
        assert(items.insert(at, item) == items.push(item));
    }
}

/// What is kept of items and more items is what is kept of the first and then of
/// the others; of a single item it is what the item gives.
pub proof fn kept_piece_by_piece<A, B>(a: Seq<A>, b: Seq<A>, item: A, f: spec_fn(A) -> Option<B>)
    ensures
        kept(a + b, f) == kept(a, f) + kept(b, f),
        f(item) matches Some(given) ==> kept(seq![item], f) == seq![given],
        f(item) is None ==> kept(seq![item], f).len() == 0,
    decreases b.len(),
{
    assert(seq![item].drop_last() == Seq::<A>::empty());
    assert(kept(Seq::<A>::empty(), f) == Seq::<B>::empty());
    if b.len() == 0 {
        assert(a + b == a);
        assert(kept(b, f) == Seq::<B>::empty());
    } else {
        assert((a + b).drop_last() == a + b.drop_last());
        kept_piece_by_piece(a, b.drop_last(), item, f);
    }
}

/// Where every item gives something, all of it is kept, in the items' order.
pub proof fn kept_one_by_one<A, B>(items: Seq<A>, f: spec_fn(A) -> Option<B>)
    requires
        forall|i: int| 0 <= i < items.len() ==> f(#[trigger] items[i]) is Some,
    ensures
        kept(items, f).len() == items.len(),
        forall|i: int|
            0 <= i < items.len() ==> f(items[i]) == Some(#[trigger] kept(items, f)[i]),
    decreases items.len(),
{
    if items.len() > 0 {
        let front = items.drop_last();
        assert forall|i: int| 0 <= i < front.len() implies f(#[trigger] front[i]) is Some by {
            assert(front[i] == items[i]);
        }
        kept_one_by_one(front, f);
        assert(f(items[items.len() - 1]) is Some);
        assert forall|i: int| 0 <= i < items.len() implies f(items[i]) == Some(
            #[trigger] kept(items, f)[i],
        ) by {
            if i < front.len() {
                assert(front[i] == items[i]);
                assert(kept(items, f)[i] == kept(front, f)[i]);
            }
        }
    }
}

/// The first of two is taken where it is there, and the second only where not.
pub proof fn first_comes_first<T>(a: Option<T>, b: Option<T>)
    ensures
        a is Some ==> either(a, b) == a,
        a is None ==> either(a, b) == b,
{
}

} // verus!
