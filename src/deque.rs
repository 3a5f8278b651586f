//! The circular buffer and its operations.
use vstd::prelude::*;

use vstd::std_specs::cmp::{PartialEqSpec, PartialOrdSpec};

use std::cmp::Ordering;

use crate::error::CapacityError;
use crate::laws::lemma_push_back_all_truncates;
use crate::model::{inserted, popped_back, popped_front, pushed_all_back, pushed_back, removed};

verus! {

/// A double-ended queue that holds at most `N - 1` elements in `N` slots.
///
/// The elements sit in the slots from `head` up to (not including) `tail`,
/// wrapping round at `N`. A slot outside that range holds nothing.
pub struct ArrayDeque<T, const N: usize> {
    slots: Vec<Option<T>>,
    head: usize,
    tail: usize,
}

/// The slot that lies `i` steps after `head` in a ring of `n` slots (`i < n`).
pub open spec fn ring_add(head: int, i: int, n: int) -> int {
    if head + i < n { head + i } else { head + i - n }
}

/// How many steps lead from `head` to `j` in a ring of `n` slots.
pub open spec fn ring_dist(head: int, j: int, n: int) -> int {
    if head <= j { j - head } else { j + n - head }
}

/// How many of `n` offered elements fit in `room` free slots.
pub open spec fn fill_count(n: int, room: int) -> int {
    if n <= room { n } else { room }
}

impl<T, const N: usize> View for ArrayDeque<T, N> {
    type V = Seq<T>;

    /// The elements from front to back.
    closed spec fn view(&self) -> Seq<T> {
        Seq::new(self.spec_len(), |i: int| self.slots@[ring_add(self.head as int, i, N as int)]->Some_0)
    }
}

impl<T, const N: usize> ArrayDeque<T, N> {
    /// The number of elements, read from the two cursors.
    pub closed spec fn spec_len(&self) -> nat {
        ring_dist(self.head as int, self.tail as int, N as int) as nat
    }

    /// Whether slot `j` holds an element of the queue.
    pub closed spec fn is_live(&self, j: int) -> bool {
        ring_dist(self.head as int, j, N as int) < self.spec_len()
    }

    /// The cursors lie in the ring, and exactly the slots between them hold a value.
    pub closed spec fn well_formed(&self) -> bool {
        &&& 1 <= N
        &&& self.slots@.len() == N
        &&& self.head < N
        &&& self.tail < N
        &&& forall|j: int| 0 <= j < N ==> (#[trigger] self.slots@[j] is Some <==> self.is_live(j))
    }

    /// Whether the two cursors point at the same slot.
    pub closed spec fn cursors_meet(&self) -> bool {
        self.head == self.tail
    }

    /// A queue is empty exactly when its two cursors point at the same slot,
    /// wherever in the ring that is.
    pub proof fn lemma_len_zero_iff_cursors_meet(&self)
        requires
            self.well_formed(),
        ensures
            self@.len() == 0 <==> self.cursors_meet(),
    {
    }

    /// The largest number of elements the queue can hold.
    pub open spec fn spec_capacity() -> int {
        N - 1
    }

    /// Creates an empty queue.
    pub fn new() -> (r: Self)
        requires
            1 <= N,
        ensures
            r.well_formed(),
            r@ == Seq::<T>::empty(),
    {
        let mut slots: Vec<Option<T>> = Vec::new();
        let mut k: usize = 0;
        while k < N
            invariant
                k <= N,
                slots@.len() == k,
                forall|j: int| 0 <= j < k ==> #[trigger] slots@[j] is None,
            decreases N - k,
        {
            slots.push(None);
            k = k + 1;
        }
        let r = ArrayDeque { slots, head: 0, tail: 0 };
        assert(r@ =~= Seq::<T>::empty());
        r
    }

    /// The largest number of elements the queue can hold: one less than the slots.
    pub fn capacity(&self) -> (r: usize)
        requires
            self.well_formed(),
        ensures
            r == Self::spec_capacity(),
    {
        N - 1
    }

    /// The number of elements.
    pub fn len(&self) -> (r: usize)
        requires
            self.well_formed(),
        ensures
            r == self@.len(),
    {
        if self.head <= self.tail {
            self.tail - self.head
        } else {
            self.tail + (N - self.head)
        }
    }

    /// Whether the queue holds no element.
    pub fn is_empty(&self) -> (r: bool)
        requires
            self.well_formed(),
        ensures
            r == (self@.len() == 0),
    {
        self.head == self.tail
    }

    /// Whether the queue holds as many elements as it can.
    pub fn is_full(&self) -> (r: bool)
        requires
            self.well_formed(),
        ensures
            r == (self@.len() == Self::spec_capacity()),
    {
        self.len() == N - 1
    }

    /// Adds `element` at the back, or hands it back if the queue is full.
    pub fn push_back(&mut self, element: T) -> (r: Result<(), CapacityError<T>>)
        requires
            old(self).well_formed(),
        ensures
            final(self).well_formed(),
            final(self)@ == pushed_back(old(self)@, Self::spec_capacity(), element),
            old(self)@.len() < Self::spec_capacity() ==> r is Ok && final(self)@ == old(self)@.push(element),
            old(self)@.len() == Self::spec_capacity() ==> r == Err::<(), _>(CapacityError { element })
                && final(self)@ == old(self)@,
    {
        if self.is_full() {
            return Err(CapacityError::new(element));
        }
        let t = self.tail;
        let mut v = Some(element);
        std::mem::swap(&mut self.slots[t], &mut v);
        self.tail = if t + 1 == N { 0 } else { t + 1 };
        proof {
            assert forall|j: int| 0 <= j < N implies (#[trigger] self.slots@[j] is Some <==> self.is_live(j)) by {
                if j != t {
                    assert(old(self).slots@[j] is Some <==> old(self).is_live(j));
                }
            }
            assert(self@ =~= old(self)@.push(element));
        }
        Ok(())
    }
    /// Adds `element` at the front, or hands it back if the queue is full.
    pub fn push_front(&mut self, element: T) -> (r: Result<(), CapacityError<T>>)
        requires
            old(self).well_formed(),
        ensures
            final(self).well_formed(),
            old(self)@.len() < Self::spec_capacity() ==> r is Ok && final(self)@ == seq![element] + old(self)@,
            old(self)@.len() == Self::spec_capacity() ==> r == Err::<(), _>(CapacityError { element })
                && final(self)@ == old(self)@,
    {
        if self.is_full() {
            return Err(CapacityError::new(element));
        }
        let h = if self.head == 0 { N - 1 } else { self.head - 1 };
        let mut v = Some(element);
        std::mem::swap(&mut self.slots[h], &mut v);
        self.head = h;
        proof {
            assert forall|j: int| 0 <= j < N implies (#[trigger] self.slots@[j] is Some <==> self.is_live(j)) by {
                if j != h {
                    assert(old(self).slots@[j] is Some <==> old(self).is_live(j));
                }
            }
            assert forall|i: int| 0 <= i < self@.len() implies #[trigger] self@[i] == (seq![element] + old(self)@)[i] by {
                if i > 0 {
                    assert(old(self)@[i - 1] == old(self).slots@[ring_add(old(self).head as int, i - 1, N as int)]->Some_0);
                }
            }
            assert(self@ =~= seq![element] + old(self)@);
        }
        Ok(())
    }

    /// Removes and returns the element at the back, if there is one.
    pub fn pop_back(&mut self) -> (r: Option<T>)
        requires
            old(self).well_formed(),
        ensures
            final(self).well_formed(),
            final(self)@ == popped_back(old(self)@),
            old(self)@.len() == 0 ==> r is None && final(self)@ == old(self)@,
            old(self)@.len() > 0 ==> r == Some(old(self)@.last()) && final(self)@ == old(self)@.drop_last(),
    {
        if self.is_empty() {
            return None;
        }
        let t = if self.tail == 0 { N - 1 } else { self.tail - 1 };
        let mut r = None;
        std::mem::swap(&mut self.slots[t], &mut r);
        self.tail = t;
        proof {
            assert(old(self)@.last() == old(self).slots@[ring_add(old(self).head as int, old(self)@.len() - 1, N as int)]->Some_0);
            assert forall|j: int| 0 <= j < N implies (#[trigger] self.slots@[j] is Some <==> self.is_live(j)) by {
                if j != t {
                    assert(old(self).slots@[j] is Some <==> old(self).is_live(j));
                }
            }
            assert(self@ =~= old(self)@.drop_last());
        }
        r
    }

    /// Removes and returns the element at the front, if there is one.
    pub fn pop_front(&mut self) -> (r: Option<T>)
        requires
            old(self).well_formed(),
        ensures
            final(self).well_formed(),
            final(self)@ == popped_front(old(self)@),
            old(self)@.len() == 0 ==> r is None && final(self)@ == old(self)@,
            old(self)@.len() > 0 ==> r == Some(old(self)@[0]) && final(self)@ == old(self)@.drop_first(),
    {
        if self.is_empty() {
            return None;
        }
        let h = self.head;
        let mut r = None;
        std::mem::swap(&mut self.slots[h], &mut r);
        self.head = if h + 1 == N { 0 } else { h + 1 };
        proof {
            assert(old(self)@[0] == old(self).slots@[ring_add(old(self).head as int, 0, N as int)]->Some_0);
            assert forall|j: int| 0 <= j < N implies (#[trigger] self.slots@[j] is Some <==> self.is_live(j)) by {
                if j != h {
                    assert(old(self).slots@[j] is Some <==> old(self).is_live(j));
                }
            }
            assert forall|i: int| 0 <= i < self@.len() implies #[trigger] self@[i] == old(self)@.drop_first()[i] by {
                assert(old(self)@[i + 1] == old(self).slots@[ring_add(old(self).head as int, i + 1, N as int)]->Some_0);
            }
            assert(self@ =~= old(self)@.drop_first());
        }
        r
    }

    /// The slot that holds the element at position `i`.
    fn slot_index(&self, i: usize) -> (r: usize)
        requires
            self.well_formed(),
            i < self@.len(),
        ensures
            r == ring_add(self.head as int, i as int, N as int),
            r < N,
            self.slots@[r as int] is Some,
            self.slots@[r as int]->Some_0 == self@[i as int],
    {
        let r = if i < N - self.head { self.head + i } else { i - (N - self.head) };
        assert(self.is_live(r as int));
        r
    }

    /// The element at position `i`, counted from the front, if `i` is below the length.
    pub fn get(&self, i: usize) -> (r: Option<&T>)
        requires
            self.well_formed(),
        ensures
            i < self@.len() ==> r == Some(&self@[i as int]),
            i >= self@.len() ==> r is None,
    {
        if i >= self.len() {
            return None;
        }
        let k = self.slot_index(i);
        self.slots[k].as_ref()
    }

    /// Exchanges the elements at positions `a` and `b`.
    pub fn swap(&mut self, a: usize, b: usize)
        requires
            old(self).well_formed(),
            a < old(self)@.len(),
            b < old(self)@.len(),
        ensures
            final(self).well_formed(),
            final(self)@ == old(self)@.update(a as int, old(self)@[b as int]).update(b as int, old(self)@[a as int]),
    {
        let ka = self.slot_index(a);
        let kb = self.slot_index(b);
        if ka == kb {
            assert(self@ =~= old(self)@.update(a as int, old(self)@[b as int]).update(b as int, old(self)@[a as int]));
            return;
        }
        let mut x = None;
        std::mem::swap(&mut self.slots[ka], &mut x);
        std::mem::swap(&mut self.slots[kb], &mut x);
        std::mem::swap(&mut self.slots[ka], &mut x);
        proof {
            assert forall|j: int| 0 <= j < N implies (#[trigger] self.slots@[j] is Some <==> self.is_live(j)) by {
                assert(old(self).slots@[j] is Some <==> old(self).is_live(j));
            }
            let e = old(self)@.update(a as int, old(self)@[b as int]).update(b as int, old(self)@[a as int]);
            assert forall|i: int| 0 <= i < self@.len() implies #[trigger] self@[i] == e[i] by {
                assert(old(self)@[i] == old(self).slots@[ring_add(old(self).head as int, i, N as int)]->Some_0);
            }
            assert(self@ =~= e);
        }
    }
    /// Puts `element` at position `i`, moving the elements of the shorter side
    /// by one; hands it back if the queue is full.
    pub fn insert(&mut self, i: usize, element: T) -> (r: Result<(), CapacityError<T>>)
        requires
            old(self).well_formed(),
            i <= old(self)@.len(),
        ensures
            final(self).well_formed(),
            final(self)@ == inserted(old(self)@, Self::spec_capacity(), i as int, element),
            old(self)@.len() < Self::spec_capacity() ==> r is Ok && final(self)@ == old(self)@.insert(i as int, element),
            old(self)@.len() == Self::spec_capacity() ==> r == Err::<(), _>(CapacityError { element })
                && final(self)@ == old(self)@,
    {
        if self.is_full() {
            return Err(CapacityError::new(element));
        }
        let ghost s = self@;
        let ghost x = element;
        let len = self.len();
        if i < len - i {
            let _ = self.push_front(element);
            assert(self@ =~= s.take(0) + seq![x] + s.skip(0));
            let mut k: usize = 0;
            while k < i
                invariant
                    self.well_formed(),
                    k <= i <= len,
                    len == s.len(),
                    self@ == s.take(k as int) + seq![x] + s.skip(k as int),
                decreases i - k,
            {
                self.swap(k, k + 1);
                assert(self@ =~= s.take(k + 1) + seq![x] + s.skip(k + 1));
                k = k + 1;
            }
        } else {
            let _ = self.push_back(element);
            assert(self@ =~= s.take(len as int) + seq![x] + s.skip(len as int));
            let mut k: usize = len;
            while k > i
                invariant
                    self.well_formed(),
                    i <= k <= len,
                    len == s.len(),
                    self@ == s.take(k as int) + seq![x] + s.skip(k as int),
                decreases k - i,
            {
                self.swap(k - 1, k);
                assert(self@ =~= s.take(k - 1) + seq![x] + s.skip(k - 1));
                k = k - 1;
            }
        }
        assert(self@ =~= s.insert(i as int, x));
        Ok(())
    }

    /// Takes out the element at position `i`, if `i` is below the length, and
    /// closes the gap by moving the elements of the shorter side.
    pub fn remove(&mut self, i: usize) -> (r: Option<T>)
        requires
            old(self).well_formed(),
        ensures
            final(self).well_formed(),
            final(self)@ == removed(old(self)@, i as int),
            i >= old(self)@.len() ==> r is None && final(self)@ == old(self)@,
            i < old(self)@.len() ==> r == Some(old(self)@[i as int]) && final(self)@ == old(self)@.remove(i as int),
    {
        let len = self.len();
        if i >= len {
            return None;
        }
        let ghost s = self@;
        if i < len - 1 - i {
            let mut k: usize = i;
            assert(self@ =~= s.take(k as int) + seq![s[i as int]] + s.take(i as int).skip(k as int) + s.skip(i + 1));
            while k > 0
                invariant
                    self.well_formed(),
                    k <= i < len,
                    len == s.len(),
                    self@ == s.take(k as int) + seq![s[i as int]] + s.take(i as int).skip(k as int) + s.skip(i + 1),
                decreases k,
            {
                self.swap(k - 1, k);
                assert(self@ =~= s.take(k - 1) + seq![s[i as int]] + s.take(i as int).skip(k - 1) + s.skip(i + 1));
                k = k - 1;
            }
            let r = self.pop_front();
            assert(self@ =~= s.remove(i as int));
            r
        } else {
            let mut k: usize = i;
            assert(self@ =~= s.take(i as int) + s.subrange(i + 1, k + 1) + seq![s[i as int]] + s.skip(k + 1));
            while k + 1 < len
                invariant
                    self.well_formed(),
                    i <= k < len,
                    len == s.len(),
                    self@ == s.take(i as int) + s.subrange(i + 1, k + 1) + seq![s[i as int]] + s.skip(k + 1),
                decreases len - k,
            {
                self.swap(k, k + 1);
                assert(self@ =~= s.take(i as int) + s.subrange(i + 1, k + 2) + seq![s[i as int]] + s.skip(k + 2));
                k = k + 1;
            }
            let r = self.pop_back();
            assert(self@ =~= s.remove(i as int));
            r
        }
    }
    /// The element at the front, if there is one.
    pub fn front(&self) -> (r: Option<&T>)
        requires
            self.well_formed(),
        ensures
            self@.len() > 0 ==> r == Some(&self@[0]),
            self@.len() == 0 ==> r is None,
    {
        self.get(0)
    }

    /// The element at the back, if there is one.
    pub fn back(&self) -> (r: Option<&T>)
        requires
            self.well_formed(),
        ensures
            self@.len() > 0 ==> r == Some(&self@.last()),
            self@.len() == 0 ==> r is None,
    {
        let len = self.len();
        if len == 0 {
            None
        } else {
            self.get(len - 1)
        }
    }

    /// A mutable reference to the element at position `i`, if `i` is below the length.
    pub fn get_mut(&mut self, i: usize) -> (r: Option<&mut T>)
        requires
            old(self).well_formed(),
        ensures
            i >= old(self)@.len() ==> r is None && *final(self) == *old(self),
            i < old(self)@.len() ==> r is Some && *r->Some_0 == old(self)@[i as int]
                && final(self).well_formed()
                && final(self)@ == old(self)@.update(i as int, *final(r->Some_0)),
    {
        if i >= self.len() {
            return None;
        }
        let k = self.slot_index(i);
        self.slots[k].as_mut()
    }
    /// Takes out the element at position `i`, if `i` is below the length, and
    /// puts the back element in its place.
    pub fn swap_remove_back(&mut self, i: usize) -> (r: Option<T>)
        requires
            old(self).well_formed(),
        ensures
            final(self).well_formed(),
            i >= old(self)@.len() ==> r is None && final(self)@ == old(self)@,
            i < old(self)@.len() ==> r == Some(old(self)@[i as int])
                && final(self)@ == old(self)@.update(i as int, old(self)@.last()).drop_last(),
    {
        let len = self.len();
        if i >= len {
            return None;
        }
        let ghost s = self@;
        self.swap(i, len - 1);
        let r = self.pop_back();
        assert(self@ =~= s.update(i as int, s.last()).drop_last());
        r
    }

    /// Takes out the element at position `i`, if `i` is below the length, and
    /// puts the front element in its place.
    pub fn swap_remove_front(&mut self, i: usize) -> (r: Option<T>)
        requires
            old(self).well_formed(),
        ensures
            final(self).well_formed(),
            i >= old(self)@.len() ==> r is None && final(self)@ == old(self)@,
            i < old(self)@.len() ==> r == Some(old(self)@[i as int])
                && final(self)@ == old(self)@.update(i as int, old(self)@[0]).drop_first(),
    {
        let len = self.len();
        if i >= len {
            return None;
        }
        let ghost s = self@;
        self.swap(i, 0);
        let r = self.pop_front();
        assert(self@ =~= s.update(i as int, s[0]).drop_first());
        r
    }

    /// Removes every element.
    pub fn clear(&mut self)
        requires
            old(self).well_formed(),
        ensures
            final(self).well_formed(),
            final(self)@ == Seq::<T>::empty(),
    {
        while !self.is_empty()
            invariant
                self.well_formed(),
            decreases self@.len(),
        {
            let _ = self.pop_back();
        }
    }

    /// Moves every element of `other` to the back of this queue, in order,
    /// leaving `other` empty. If they do not all fit, neither queue changes.
    pub fn append(&mut self, other: &mut Self) -> (r: Result<(), CapacityError<()>>)
        requires
            old(self).well_formed(),
            old(other).well_formed(),
        ensures
            final(self).well_formed(),
            final(other).well_formed(),
            r is Ok <==> old(self)@.len() + old(other)@.len() <= Self::spec_capacity(),
            r is Ok ==> final(self)@ == old(self)@ + old(other)@ && final(other)@ == Seq::<T>::empty(),
            r is Err ==> final(self)@ == old(self)@ && final(other)@ == old(other)@,
    {
        if other.len() > (N - 1) - self.len() {
            return Err(CapacityError::new(()));
        }
        let ghost a = self@;
        let ghost b = other@;
        while !other.is_empty()
            invariant
                self.well_formed(),
                other.well_formed(),
                a.len() + b.len() <= Self::spec_capacity(),
                other@.len() <= b.len(),
                self@ == a + b.take(b.len() - other@.len()),
                other@ == b.skip(b.len() - other@.len()),
            decreases other@.len(),
        {
            let ghost done = b.len() - other@.len();
            let x = other.pop_front();
            match x {
                Some(v) => {
                    let _ = self.push_back(v);
                }
                None => {}
            }
            assert(self@ =~= a + b.take(done + 1));
            assert(other@ =~= b.skip(done + 1));
        }
        assert(b.take(b.len() as int) =~= b);
        Ok(())
    }

    /// Adds the elements of `items` at the back, in order, while there is room;
    /// those that do not fit are dropped.
    pub fn extend(&mut self, items: Vec<T>)
        requires
            old(self).well_formed(),
        ensures
            final(self).well_formed(),
            final(self)@ == old(self)@ + items@.take(fill_count(items@.len() as int, Self::spec_capacity() - old(self)@.len())),
            final(self)@ == pushed_all_back(old(self)@, Self::spec_capacity(), items@),
    {
        let ghost s = self@;
        let room = (N - 1) - self.len();
        let ghost given = items@;
        let mut items = items;
        items.truncate(room);
        let ghost kept = items@;
        assert(kept =~= given.take(fill_count(given.len() as int, Self::spec_capacity() - s.len())));
        let n = items.len();
        let mut rev: Vec<T> = Vec::new();
        while items.len() > 0
            invariant
                n == kept.len(),
                items@ == kept.take(items@.len() as int),
                rev@.len() + items@.len() == n,
                forall|j: int| 0 <= j < rev@.len() ==> #[trigger] rev@[j] == kept[n - 1 - j],
            decreases items@.len(),
        {
            let x = items.pop();
            match x {
                Some(v) => {
                    rev.push(v);
                }
                None => {}
            }
            assert(items@ =~= kept.take(items@.len() as int));
        }
        while rev.len() > 0
            invariant
                self.well_formed(),
                n == kept.len(),
                s.len() + n <= Self::spec_capacity(),
                rev@.len() <= n,
                forall|j: int| 0 <= j < rev@.len() ==> #[trigger] rev@[j] == kept[n - 1 - j],
                self@ == s + kept.take(n - rev@.len()),
            decreases rev@.len(),
        {
            let ghost done = n - rev@.len();
            let x = rev.pop();
            match x {
                Some(v) => {
                    let _ = self.push_back(v);
                }
                None => {}
            }
            assert(self@ =~= s + kept.take(done + 1));
        }
        assert(kept.take(n as int) =~= kept);
        proof {
            lemma_push_back_all_truncates(s, Self::spec_capacity(), given);
        }
    }

    /// Builds a queue of the elements of `items`, in order. If there are more
    /// than the capacity, the first one that does not fit is handed back.
    pub fn from_vec(items: Vec<T>) -> (r: Result<Self, CapacityError<T>>)
        requires
            1 <= N,
        ensures
            r is Ok <==> items@.len() <= Self::spec_capacity(),
            r matches Ok(d) ==> d.well_formed() && d@ == items@,
            r matches Err(e) ==> e.element == items@[Self::spec_capacity()],
    {
        let mut items = items;
        if items.len() > N - 1 {
            items.truncate(N);
            let x = items.pop();
            match x {
                Some(v) => {
                    return Err(CapacityError::new(v));
                }
                None => {
                    proof {
                        assert(false);
                    }
                    return Ok(Self::new());
                }
            }
        }
        let mut d = Self::new();
        let ghost v = items@;
        d.extend(items);
        assert(v.take(v.len() as int) =~= v);
        Ok(d)
    }

    /// Hands out the elements from front to back, consuming the queue.
    pub fn into_vec(self) -> (r: Vec<T>)
        requires
            self.well_formed(),
        ensures
            r@ == self@,
    {
        let mut d = self;
        let ghost s = d@;
        let mut r: Vec<T> = Vec::new();
        while !d.is_empty()
            invariant
                d.well_formed(),
                r@.len() + d@.len() == s.len(),
                r@ + d@ == s,
            decreases d@.len(),
        {
            let ghost before = d@;
            let x = d.pop_front();
            match x {
                Some(v) => {
                    r.push(v);
                }
                None => {}
            }
            assert(r@ + d@ =~= s) by {
                assert(before =~= seq![before[0]] + d@);
            }
        }
        assert(r@ =~= s);
        r
    }
}

/// A walk over the elements of a queue by reference, from the front, from the
/// back, or both. Each call of `iter` starts a fresh one.
pub struct Iter<'a, T, const N: usize> {
    deque: &'a ArrayDeque<T, N>,
    front: usize,
    back: usize,
}

impl<'a, T, const N: usize> View for Iter<'a, T, N> {
    type V = Seq<T>;

    /// The elements not yet handed out, from front to back.
    closed spec fn view(&self) -> Seq<T> {
        self.deque@.subrange(self.front as int, self.back as int)
    }
}

impl<'a, T, const N: usize> Iter<'a, T, N> {
    /// The walk stays within the elements of a well-formed queue.
    pub closed spec fn well_formed(&self) -> bool {
        &&& self.deque.well_formed()
        &&& self.front <= self.back <= self.deque@.len()
    }

    /// Hands out the front element not yet handed out, if there is one.
    pub fn next(&mut self) -> (r: Option<&'a T>)
        requires
            old(self).well_formed(),
        ensures
            final(self).well_formed(),
            old(self)@.len() == 0 ==> r is None && final(self)@ == old(self)@,
            old(self)@.len() > 0 ==> r == Some(&old(self)@[0]) && final(self)@ == old(self)@.drop_first(),
    {
        if self.front == self.back {
            assert(self@ =~= Seq::<T>::empty());
            return None;
        }
        let r = self.deque.get(self.front);
        self.front = self.front + 1;
        assert(self@ =~= old(self)@.drop_first());
        r
    }

    /// Hands out the back element not yet handed out, if there is one.
    pub fn next_back(&mut self) -> (r: Option<&'a T>)
        requires
            old(self).well_formed(),
        ensures
            final(self).well_formed(),
            old(self)@.len() == 0 ==> r is None && final(self)@ == old(self)@,
            old(self)@.len() > 0 ==> r == Some(&old(self)@.last()) && final(self)@ == old(self)@.drop_last(),
    {
        if self.front == self.back {
            assert(self@ =~= Seq::<T>::empty());
            return None;
        }
        self.back = self.back - 1;
        let r = self.deque.get(self.back);
        assert(self@ =~= old(self)@.drop_last());
        r
    }
}

impl<T, const N: usize> ArrayDeque<T, N> {
    /// A walk over the elements, front to back (or back to front with `next_back`).
    pub fn iter(&self) -> (r: Iter<'_, T, N>)
        requires
            self.well_formed(),
        ensures
            r.well_formed(),
            r@ == self@,
    {
        let r = Iter { deque: self, front: 0, back: self.len() };
        assert(r@ =~= self@);
        r
    }
}

impl<T, const N: usize> ArrayDeque<T, N> {
    /// The cursors lie in the ring and there are `N` slots.
    pub closed spec fn shape_ok(&self) -> bool {
        &&& self.slots@.len() == N
        &&& self.head < N
        &&& self.tail < N
    }

    /// The slot content at position `i`, counted from the front.
    pub closed spec fn slot_at(&self, i: int) -> Option<T> {
        self.slots@[ring_add(self.head as int, i, N as int)]
    }
}

/// Two slot contents agree when both are empty, or both hold equal elements.
pub open spec fn slots_agree<T: PartialEq>(a: Option<T>, b: Option<T>) -> bool {
    match (a, b) {
        (Some(x), Some(y)) => x.eq_spec(&y),
        (None, None) => true,
        _ => false,
    }
}

impl<T: PartialEq, const N: usize> PartialEq for ArrayDeque<T, N> {
    /// Compares the elements in order, whatever the positions of the cursors.
    fn eq(&self, other: &Self) -> (r: bool) {
        if self.slots.len() != N || self.head >= N || self.tail >= N {
            return false;
        }
        if other.slots.len() != N || other.head >= N || other.tail >= N {
            return false;
        }
        let len = if self.head <= self.tail { self.tail - self.head } else { self.tail + (N - self.head) };
        let other_len = if other.head <= other.tail { other.tail - other.head } else { other.tail + (N - other.head) };
        if len != other_len {
            return false;
        }
        let mut i: usize = 0;
        while i < len
            invariant
                self.shape_ok(),
                other.shape_ok(),
                len == self.spec_len(),
                len == other.spec_len(),
                i <= len,
                <T as PartialEqSpec>::obeys_eq_spec() ==> forall|j: int|
                    0 <= j < i ==> slots_agree(#[trigger] self.slot_at(j), other.slot_at(j)),
            decreases len - i,
        {
            let a = if i < N - self.head { self.head + i } else { i - (N - self.head) };
            let b = if i < N - other.head { other.head + i } else { i - (N - other.head) };
            let same = match (&self.slots[a], &other.slots[b]) {
                (Some(x), Some(y)) => x.eq(y),
                (None, None) => true,
                _ => false,
            };
            assert(a == ring_add(self.head as int, i as int, N as int));
            assert(b == ring_add(other.head as int, i as int, N as int));
            assert(<T as PartialEqSpec>::obeys_eq_spec() ==> (same == slots_agree(self.slot_at(i as int), other.slot_at(i as int))));
            if !same {
                return false;
            }
            i = i + 1;
        }
        true
    }
}

impl<T: PartialEq, const N: usize> ArrayDeque<T, N> {
    /// On well-formed queues `==` holds exactly when the lengths agree and the
    /// elements are equal position by position.
    pub proof fn lemma_eq_is_elementwise(&self, other: &Self)
        requires
            self.well_formed(),
            other.well_formed(),
        ensures
            self.eq_spec(other) <==> (self@.len() == other@.len() && forall|i: int|
                0 <= i < self@.len() ==> (#[trigger] self@[i]).eq_spec(&other@[i])),
    {
        if self.eq_spec(other) {
            assert forall|i: int| 0 <= i < self@.len() implies (#[trigger] self@[i]).eq_spec(&other@[i]) by {
                assert(self.is_live(ring_add(self.head as int, i, N as int)));
                assert(other.is_live(ring_add(other.head as int, i, N as int)));
                assert(slots_agree(self.slot_at(i), other.slot_at(i)));
            }
        }
        if self@.len() == other@.len() && forall|i: int|
            0 <= i < self@.len() ==> (#[trigger] self@[i]).eq_spec(&other@[i]) {
            assert forall|i: int| 0 <= i < self.spec_len() implies slots_agree(#[trigger] self.slot_at(i), other.slot_at(i)) by {
                assert(self.is_live(ring_add(self.head as int, i, N as int)));
                assert(other.is_live(ring_add(other.head as int, i, N as int)));
                assert(self@[i].eq_spec(&other@[i]));
            }
        }
    }
}

impl<T: PartialEq, const N: usize> vstd::std_specs::cmp::PartialEqSpecImpl for ArrayDeque<T, N> {
    open spec fn obeys_eq_spec() -> bool {
        <T as PartialEqSpec>::obeys_eq_spec()
    }

    /// Same length, and the elements agree position by position.
    open spec fn eq_spec(&self, other: &Self) -> bool {
        &&& self.shape_ok()
        &&& other.shape_ok()
        &&& self.spec_len() == other.spec_len()
        &&& forall|i: int| 0 <= i < self.spec_len() ==> slots_agree(#[trigger] self.slot_at(i), other.slot_at(i))
    }
}

/// How two lengths compare.
pub open spec fn len_order(a: int, b: int) -> Ordering {
    if a < b {
        Ordering::Less
    } else if a > b {
        Ordering::Greater
    } else {
        Ordering::Equal
    }
}

/// How `a` and `b` compare lexicographically from position `i` on: by the first
/// pair of elements that is not equal, else by length.
pub open spec fn seq_cmp_from<T: PartialOrd>(a: Seq<T>, b: Seq<T>, i: int) -> Option<Ordering>
    decreases a.len() - i,
{
    if i < 0 || i >= a.len() || i >= b.len() {
        Some(len_order(a.len() as int, b.len() as int))
    } else {
        let c = a[i].partial_cmp_spec(&b[i]);
        if c == Some(Ordering::Equal) {
            seq_cmp_from(a, b, i + 1)
        } else {
            c
        }
    }
}

impl<T: PartialOrd, const N: usize> ArrayDeque<T, N> {
    /// How the slot contents of `self` and `other` compare lexicographically
    /// from position `i` on.
    pub closed spec fn slots_cmp_from(&self, other: &Self, i: int) -> Option<Ordering>
        decreases self.spec_len() - i,
    {
        if i < 0 || i >= self.spec_len() || i >= other.spec_len() {
            Some(len_order(self.spec_len() as int, other.spec_len() as int))
        } else {
            match (self.slot_at(i), other.slot_at(i)) {
                (Some(x), Some(y)) => {
                    let c = x.partial_cmp_spec(&y);
                    if c == Some(Ordering::Equal) {
                        self.slots_cmp_from(other, i + 1)
                    } else {
                        c
                    }
                },
                _ => None,
            }
        }
    }

    /// On well-formed queues the comparison is the lexicographic one of the elements.
    pub proof fn lemma_partial_cmp_is_lexicographic(&self, other: &Self, i: int)
        requires
            self.well_formed(),
            other.well_formed(),
            0 <= i,
        ensures
            self.slots_cmp_from(other, i) == seq_cmp_from(self@, other@, i),
        decreases self.spec_len() - i,
    {
        if i < self.spec_len() && i < other.spec_len() {
            assert(self.is_live(ring_add(self.head as int, i, N as int)));
            assert(other.is_live(ring_add(other.head as int, i, N as int)));
            self.lemma_partial_cmp_is_lexicographic(other, i + 1);
        }
    }
}

impl<T: PartialOrd, const N: usize> PartialOrd for ArrayDeque<T, N> {
    /// Compares the elements in order, as slices do, whatever the positions of the cursors.
    fn partial_cmp(&self, other: &Self) -> (r: Option<Ordering>) {
        if self.slots.len() != N || self.head >= N || self.tail >= N {
            return None;
        }
        if other.slots.len() != N || other.head >= N || other.tail >= N {
            return None;
        }
        let len = if self.head <= self.tail { self.tail - self.head } else { self.tail + (N - self.head) };
        let other_len = if other.head <= other.tail { other.tail - other.head } else { other.tail + (N - other.head) };
        let mut i: usize = 0;
        while i < len && i < other_len
            invariant
                self.shape_ok(),
                other.shape_ok(),
                len == self.spec_len(),
                other_len == other.spec_len(),
                <T as PartialOrdSpec>::obeys_partial_cmp_spec() ==>
                    self.slots_cmp_from(other, 0) == self.slots_cmp_from(other, i as int),
            decreases len - i,
        {
            let a = if i < N - self.head { self.head + i } else { i - (N - self.head) };
            let b = if i < N - other.head { other.head + i } else { i - (N - other.head) };
            assert(a == ring_add(self.head as int, i as int, N as int));
            assert(b == ring_add(other.head as int, i as int, N as int));
            let c = match (&self.slots[a], &other.slots[b]) {
                (Some(x), Some(y)) => x.partial_cmp(y),
                _ => {
                    return None;
                }
            };
            match c {
                Some(Ordering::Equal) => {}
                _ => {
                    return c;
                }
            }
            i = i + 1;
        }
        if len < other_len {
            Some(Ordering::Less)
        } else if len > other_len {
            Some(Ordering::Greater)
        } else {
            Some(Ordering::Equal)
        }
    }
}

impl<T: PartialOrd, const N: usize> vstd::std_specs::cmp::PartialOrdSpecImpl for ArrayDeque<T, N> {
    open spec fn obeys_partial_cmp_spec() -> bool {
        <T as PartialOrdSpec>::obeys_partial_cmp_spec()
    }

    /// Lexicographic: by the first pair of elements that is not equal, else by length.
    open spec fn partial_cmp_spec(&self, other: &Self) -> Option<Ordering> {
        if self.shape_ok() && other.shape_ok() {
            self.slots_cmp_from(other, 0)
        } else {
            None
        }
    }
}

} // verus!
