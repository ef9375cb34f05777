//! Stable sorting of moves by an integer key.

use vstd::prelude::*;

use crate::rules::Move;

verus! {

/// Where a key goes in a list with ascending keys: behind every key that is not
/// larger.
pub open spec fn slot_for(items: Seq<(i32, Move)>, key: i32, n: int) -> int
    decreases n,
{
    if n <= 0 || n > items.len() || items[n - 1].0 <= key {
        n
    } else {
        slot_for(items, key, n - 1)
    }
}

/// The items in ascending order of their keys; equal keys keep their order.
pub open spec fn sorted(items: Seq<(i32, Move)>) -> Seq<(i32, Move)>
    decreases items.len(),
{
    if items.len() == 0 {
        Seq::empty()
    } else {
        let rest = sorted(items.drop_last());
        rest.insert(slot_for(rest, items.last().0, rest.len() as int), items.last())
    }
}

/// The keys ascend.
pub open spec fn ascending(items: Seq<(i32, Move)>) -> bool {
    forall|i: int, j: int| 0 <= i <= j < items.len() ==> (#[trigger] items[i]).0 <= (#[trigger] items[j]).0
}

proof fn lemma_slot(items: Seq<(i32, Move)>, key: i32, n: int)
    requires
        0 <= n <= items.len(),
        ascending(items),
    ensures
        0 <= slot_for(items, key, n) <= n,
        forall|i: int| 0 <= i < slot_for(items, key, n) ==> (#[trigger] items[i]).0 <= key,
        forall|i: int| slot_for(items, key, n) <= i < n ==> (#[trigger] items[i]).0 > key,
    decreases n,
{
    if n > 0 && items[n - 1].0 > key {
        lemma_slot(items, key, n - 1);
    }
}

/// Sorting rearranges the items so that their keys ascend.
pub proof fn law_sorted_is_an_ascending_rearrangement(items: Seq<(i32, Move)>)
    ensures
        ascending(sorted(items)),
        sorted(items).len() == items.len(),
        sorted(items).to_multiset() == items.to_multiset(),
    decreases items.len(),
{
    if items.len() == 0 {
        assert(sorted(items) =~= items);
    } else {
        let rest = sorted(items.drop_last());
        law_sorted_is_an_ascending_rearrangement(items.drop_last());
        let at = slot_for(rest, items.last().0, rest.len() as int);
        lemma_slot(rest, items.last().0, rest.len() as int);
        let whole = rest.insert(at, items.last());
        assert forall|i: int, j: int| 0 <= i <= j < whole.len() implies (#[trigger] whole[i]).0 <= (
        #[trigger] whole[j]).0 by {
            if i < at && j > at {
                assert(rest[i].0 <= rest[j - 1].0);
            } else if i < at && j < at {
                assert(rest[i].0 <= rest[j].0);
            } else if i > at {
                assert(rest[i - 1].0 <= rest[j - 1].0);
            }
        }
        rest.to_multiset_ensures();
        vstd::seq_lib::to_multiset_insert(rest, at, items.last());
        items.drop_last().to_multiset_ensures();
        assert(items =~= items.drop_last().push(items.last()));
        vstd::seq_lib::to_multiset_build(items.drop_last(), items.last());
    }
}

/// Two items with equal keys keep their order.
pub proof fn law_sorting_is_stable(items: Seq<(i32, Move)>, key: i32)
    ensures
        sorted(items).filter(|p: (i32, Move)| p.0 == key) == items.filter(|p: (i32, Move)| p.0 == key),
    decreases items.len(),
{
    let pred = |p: (i32, Move)| p.0 == key;
    if items.len() == 0 {
        assert(sorted(items) =~= items);
    } else {
        let rest = sorted(items.drop_last());
        let last = items.last();
        law_sorting_is_stable(items.drop_last(), key);
        law_sorted_is_an_ascending_rearrangement(items.drop_last());
        let at = slot_for(rest, last.0, rest.len() as int);
        lemma_slot(rest, last.0, rest.len() as int);
        let (front, back) = (rest.take(at), rest.skip(at));
        let whole = rest.insert(at, last);
        assert(rest =~= front + back);
        assert(whole =~= front.push(last) + back);
        Seq::filter_distributes_over_add(front, back, pred);
        Seq::filter_distributes_over_add(front.push(last), back, pred);
        assert(front.push(last).drop_last() =~= front);
        assert(items.filter(pred) == if pred(last) {
            items.drop_last().filter(pred).push(last)
        } else {
            items.drop_last().filter(pred)
        }) by {
            reveal(Seq::filter);
        }
        assert(front.push(last).filter(pred) == if pred(last) {
            front.filter(pred).push(last)
        } else {
            front.filter(pred)
        }) by {
            reveal(Seq::filter);
        }
        if pred(last) {
            assert forall|i: int| 0 <= i < back.len() implies !pred(#[trigger] back[i]) by {
                assert(rest[at + i].0 > last.0);
            }
            lemma_filter_none(back, pred);
            assert(whole.filter(pred) =~= items.filter(pred));
        }
    }
}

proof fn lemma_filter_none(items: Seq<(i32, Move)>, pred: spec_fn((i32, Move)) -> bool)
    requires
        forall|i: int| 0 <= i < items.len() ==> !pred(#[trigger] items[i]),
    ensures
        items.filter(pred) == Seq::<(i32, Move)>::empty(),
    decreases items.len(),
{
    reveal(Seq::filter);
    if items.len() > 0 {
        assert(!pred(items[items.len() - 1]));
        assert forall|i: int| 0 <= i < items.drop_last().len() implies !pred(#[trigger] items.drop_last()[i]) by {
            assert(!pred(items[i]));
        }
        lemma_filter_none(items.drop_last(), pred);
    }
}

/// Sort by insertion.
pub fn sort_moves(items: &Vec<(i32, Move)>) -> (r: Vec<(i32, Move)>)
    ensures
        r@ == sorted(items@),
{
    let mut out: Vec<(i32, Move)> = Vec::new();
    let mut i: usize = 0;
    assert(items@.take(0) =~= Seq::empty());
    while i < items.len()
        invariant
            i <= items.len(),
            out@ == sorted(items@.take(i as int)),
        decreases items.len() - i,
    {
        let item = items[i];
        proof {
            law_sorted_is_an_ascending_rearrangement(items@.take(i as int));
            assert(items@.take(i + 1).drop_last() =~= items@.take(i as int));
        }
        let mut at: usize = out.len();
        while at > 0 && out[at - 1].0 > item.0
            invariant
                at <= out.len(),
                slot_for(out@, item.0, at as int) == slot_for(out@, item.0, out@.len() as int),
            decreases at,
        {
            at = at - 1;
        }
        out.insert(at, item);
        i = i + 1;
    }
    assert(items@.take(items@.len() as int) =~= items@);
    out
}

} // verus!
