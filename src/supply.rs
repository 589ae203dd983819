//! The supplies that new tiles are drawn from, and the random choices.
use rand::distributions::{IndependentSample, Range};
use rand::Rng;
use vstd::multiset::Multiset;
use vstd::prelude::*;

verus! {

broadcast use vstd::seq_lib::group_to_multiset_ensures;

/// Relies on rand's `Range::new(0, n)` sampled with `thread_rng()`: a value
/// in `[0, n)`. `Range::new` panics unless `0 < n`.
#[verifier::external_body]
pub(crate) fn random_below(n: usize) -> (r: usize)
    requires
        n > 0,
    ensures
        r < n,
{
    Range::new(0, n).ind_sample(&mut rand::thread_rng())
}

/// Relies on rand's `Rng::shuffle` with `thread_rng()`: the elements are
/// rearranged in place by swaps, so the same values remain.
#[verifier::external_body]
fn shuffle(v: &mut Vec<u32>)
    ensures
        final(v)@.to_multiset() == old(v)@.to_multiset(),
{
    rand::thread_rng().shuffle(v.as_mut_slice())
}

/// The composition of a basic supply, in the order it is laid out before
/// shuffling.
pub open spec fn basic_deck() -> Seq<u32> {
    seq![1u32, 1, 1, 1, 2, 2, 2, 2, 3, 3, 3, 3]
}

/// The values of a bonus supply drawn from `v = high_card / 8`: `v`, `v / 2`,
/// `v / 4`, ... as long as the value stays above 3.
pub open spec fn bonus_run(v: u32) -> Seq<u32>
    decreases v,
{
    if v > 3 {
        seq![v].add(bonus_run(v / 2))
    } else {
        Seq::empty()
    }
}

/// The values of the basic supply: four 1s, four 2s and four 3s.
pub proof fn lemma_basic_deck_counts()
    ensures
        basic_deck().len() == 12,
        basic_deck().to_multiset().count(1) == 4,
        basic_deck().to_multiset().count(2) == 4,
        basic_deck().to_multiset().count(3) == 4,
        forall|v: u32| 1 <= v <= 3 <==> basic_deck().contains(v),
{
    let e = Seq::<u32>::empty();
    assert(basic_deck() =~= e.push(1).push(1).push(1).push(1).push(2).push(2).push(2).push(2).push(
        3,
    ).push(3).push(3).push(3));
    assert(e.to_multiset() =~= Multiset::empty()) by {
        assert(e.to_multiset().len() == 0);
    }
    assert forall|v: u32| 1 <= v <= 3 implies basic_deck().contains(v) by {
        if v == 1 {
            assert(basic_deck()[0] == v);
        } else if v == 2 {
            assert(basic_deck()[4] == v);
        } else {
            assert(basic_deck()[8] == v);
        }
    }
}

/// A freshly shuffled basic supply: four 1s, four 2s and four 3s in random
/// order.
pub fn generate_basic_stack() -> (r: Vec<u32>)
    ensures
        r@.to_multiset() == basic_deck().to_multiset(),
        r@.len() == 12,
        r@.to_multiset().count(1) == 4,
        r@.to_multiset().count(2) == 4,
        r@.to_multiset().count(3) == 4,
        forall|i: int| 0 <= i < r@.len() ==> 1 <= #[trigger] r@[i] <= 3,
{
    let mut stack = vec![1, 1, 1, 1, 2, 2, 2, 2, 3, 3, 3, 3];
    assert(stack@ =~= basic_deck());
    shuffle(&mut stack);
    proof {
        lemma_basic_deck_counts();
        assert(stack@.len() == stack@.to_multiset().len());
        assert(basic_deck().len() == basic_deck().to_multiset().len());
        assert forall|i: int| 0 <= i < stack@.len() implies 1 <= #[trigger] stack@[i] <= 3 by {
            assert(stack@.contains(stack@[i]));
            assert(stack@.to_multiset().count(stack@[i]) > 0);
            assert(basic_deck().contains(stack@[i]));
        }
    }
    stack
}

/// A freshly shuffled bonus supply for the given high card: every value
/// `high_card / 8 / 2^k` that is above 3, in random order.
pub fn generate_bonus_stack(high_card: u32) -> (r: Vec<u32>)
    ensures
        r@.to_multiset() == bonus_run(high_card / 8).to_multiset(),
{
    let mut stack: Vec<u32> = Vec::new();
    let mut next_value: u32 = high_card / 8;
    while next_value > 3
        invariant
            stack@ + bonus_run(next_value) == bonus_run(high_card / 8),
        decreases next_value,
    {
        assert(stack@.push(next_value) + bonus_run(next_value / 2) =~= stack@ + bonus_run(
            next_value,
        ));
        stack.push(next_value);
        next_value = next_value / 2;
    }
    assert(stack@ =~= bonus_run(high_card / 8));
    shuffle(&mut stack);
    stack
}

} // verus!
