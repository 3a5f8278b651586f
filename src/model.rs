//! What each operation does to the sequence of elements, for a queue of
//! capacity `cap`. The operations of the queue state their effect with these.
use vstd::prelude::*;

verus! {

/// The elements after adding `x` at the back: unchanged when the queue is full.
pub open spec fn pushed_back<T>(s: Seq<T>, cap: int, x: T) -> Seq<T> {
    if s.len() < cap { s.push(x) } else { s }
}

/// The elements after taking the front one out: unchanged when there is none.
pub open spec fn popped_front<T>(s: Seq<T>) -> Seq<T> {
    if s.len() > 0 { s.drop_first() } else { s }
}

/// The elements after taking the back one out: unchanged when there is none.
pub open spec fn popped_back<T>(s: Seq<T>) -> Seq<T> {
    if s.len() > 0 { s.drop_last() } else { s }
}

/// The elements after putting `x` at position `i`: unchanged when the queue is full.
pub open spec fn inserted<T>(s: Seq<T>, cap: int, i: int, x: T) -> Seq<T> {
    if s.len() < cap { s.insert(i, x) } else { s }
}

/// The elements after taking out position `i`: unchanged when `i` is past the end.
pub open spec fn removed<T>(s: Seq<T>, i: int) -> Seq<T> {
    if 0 <= i < s.len() { s.remove(i) } else { s }
}

/// The elements after adding each of `xs` at the back, in order.
pub open spec fn pushed_all_back<T>(s: Seq<T>, cap: int, xs: Seq<T>) -> Seq<T>
    decreases xs.len(),
{
    if xs.len() == 0 {
        s
    } else {
        pushed_all_back(pushed_back(s, cap, xs[0]), cap, xs.drop_first())
    }
}

/// What taking the front element out again and again hands out, until none is left.
pub open spec fn front_pops<T>(s: Seq<T>) -> Seq<T>
    decreases s.len(),
{
    if s.len() == 0 {
        Seq::empty()
    } else {
        seq![s[0]] + front_pops(popped_front(s))
    }
}

/// What taking the back element out again and again hands out, until none is left.
pub open spec fn back_pops<T>(s: Seq<T>) -> Seq<T>
    decreases s.len(),
{
    if s.len() == 0 {
        Seq::empty()
    } else {
        seq![s.last()] + back_pops(popped_back(s))
    }
}

} // verus!
