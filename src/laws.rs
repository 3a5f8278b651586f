//! Laws that relate several operations of the queue.
use vstd::prelude::*;

use crate::deque::fill_count;
use crate::model::{back_pops, front_pops, inserted, popped_back, popped_front, pushed_all_back, pushed_back, removed};

verus! {

/// Adding the elements of `xs` at the back, one by one, of a queue that holds
/// `s` appends them all, as long as they fit.
pub proof fn lemma_push_back_all_appends<T>(s: Seq<T>, cap: int, xs: Seq<T>)
    requires
        s.len() + xs.len() <= cap,
    ensures
        pushed_all_back(s, cap, xs) == s + xs,
    decreases xs.len(),
{
    if xs.len() > 0 {
        assert(pushed_back(s, cap, xs[0]) == s.push(xs[0]));
        lemma_push_back_all_appends(s.push(xs[0]), cap, xs.drop_first());
        assert(s.push(xs[0]) + xs.drop_first() =~= s + xs);
    } else {
        assert(s + xs =~= s);
    }
}

/// Adding the elements of `xs` at the back, one by one, keeps those that fit
/// and drops the rest without a trace.
pub proof fn lemma_push_back_all_truncates<T>(s: Seq<T>, cap: int, xs: Seq<T>)
    requires
        s.len() <= cap,
    ensures
        pushed_all_back(s, cap, xs) == s + xs.take(fill_count(xs.len() as int, cap - s.len())),
    decreases xs.len(),
{
    if xs.len() == 0 {
        assert(s + xs.take(0) =~= s);
    } else if s.len() < cap {
        lemma_push_back_all_truncates(s.push(xs[0]), cap, xs.drop_first());
        assert(s.push(xs[0]) + xs.drop_first().take(fill_count(xs.len() - 1, cap - s.len() - 1))
            =~= s + xs.take(fill_count(xs.len() as int, cap - s.len())));
    } else {
        lemma_push_back_all_truncates(s, cap, xs.drop_first());
        assert(s + xs.drop_first().take(0) =~= s + xs.take(0));
    }
}

/// Taking the front element out until none is left hands the elements out in order.
pub proof fn lemma_front_pops_in_order<T>(s: Seq<T>)
    ensures
        front_pops(s) == s,
    decreases s.len(),
{
    if s.len() > 0 {
        lemma_front_pops_in_order(popped_front(s));
        assert(seq![s[0]] + s.drop_first() =~= s);
    } else {
        assert(front_pops(s) =~= s);
    }
}

/// Taking the back element out until none is left hands the elements out in reverse order.
pub proof fn lemma_back_pops_reversed<T>(s: Seq<T>)
    ensures
        back_pops(s) == s.reverse(),
    decreases s.len(),
{
    if s.len() > 0 {
        lemma_back_pops_reversed(popped_back(s));
        assert(seq![s.last()] + s.drop_last().reverse() =~= s.reverse());
    } else {
        assert(back_pops(s) =~= s.reverse());
    }
}

/// After elements are added at the back of an empty queue, no more than its
/// capacity, it holds as many as were added; taking them out at the front hands
/// them out in the order they came in, and at the back in the opposite order.
pub proof fn lemma_first_in_first_out<T>(cap: int, xs: Seq<T>)
    requires
        xs.len() <= cap,
    ensures
        pushed_all_back(Seq::<T>::empty(), cap, xs).len() == xs.len(),
        front_pops(pushed_all_back(Seq::<T>::empty(), cap, xs)) == xs,
        back_pops(pushed_all_back(Seq::<T>::empty(), cap, xs)) == xs.reverse(),
{
    lemma_push_back_all_appends(Seq::<T>::empty(), cap, xs);
    assert(Seq::<T>::empty() + xs =~= xs);
    lemma_front_pops_in_order(xs);
    lemma_back_pops_reversed(xs);
}

/// Taking out the element just put at position `i` gives back the elements
/// there were before, when the queue was not full.
pub proof fn lemma_insert_then_remove<T>(s: Seq<T>, cap: int, i: int, x: T)
    requires
        0 <= i <= s.len(),
        s.len() < cap,
    ensures
        removed(inserted(s, cap, i, x), i) == s,
{
    assert(s.insert(i, x).remove(i) =~= s);
}

} // verus!
