use vstd::prelude::*;

pub mod array;
pub mod array_deque;
pub mod array_queue;
pub mod dual_array_deque;
pub mod rootish_array_stack;

verus! {

/// A first-in first-out container.
pub trait Queue<T> {
    fn enqueue(&mut self, other: T);

    fn dequeue(&mut self);
}

/// A last-in first-out container.
pub trait Stack<T> {
    fn enqueue(&mut self, other: T);

    fn dequeue(&mut self);
}

/// A container mutable at both ends.
pub trait Deque<T> {
    fn add_first(&mut self, x: T);

    fn remove_first(&mut self);

    fn add_list(&mut self, x: T);

    fn remove_last(&mut self);
}

/// An unordered set.
pub trait USet<T: Clone> {
    fn size(&self) -> usize;

    fn add(&mut self, x: T) -> bool;

    fn remove(&mut self, x: T) -> Option<T>;

    fn find(&self, x: T) -> Option<T>;
}

/// A sorted set.
pub trait SSet<T: Ord + Clone> {
    fn size(&self) -> usize;

    fn add(&mut self, x: T) -> bool;

    fn remove(&mut self, x: T) -> Option<T>;

    fn find(&self, x: T) -> Option<T>;

    fn compare(&self, other: T) -> bool;
}

/// The positional-list contract shared by the array-based containers in this
/// crate: an ordered sequence of elements, readable and mutable at arbitrary
/// positions.
///
/// `elems` is the mathematical contents of the container and `wf` its
/// well-formedness invariant; every operation requires and preserves `wf`.
/// Out-of-range reads, writes and removals are signalled by `None` and leave
/// the container unchanged; `add` demands an index no larger than the size,
/// and a size below a sixteenth of the address space, within which every
/// implementation's internal arithmetic — capacity doubling, rebalancing,
/// block bookkeeping — fits in `usize`.
pub trait List<T: Copy>: Sized {
    /// The abstract contents of the list.
    spec fn elems(&self) -> Seq<T>;

    /// Well-formedness of the representation.
    spec fn wf(&self) -> bool;

    /// The number of elements held.
    fn size(&self) -> (n: usize)
        requires
            self.wf(),
        ensures
            n == self.elems().len(),
    ;

    /// The element at position `i`, or `None` when `i` is out of range.
    fn get(&self, i: usize) -> (r: Option<T>)
        requires
            self.wf(),
        ensures
            i < self.elems().len() ==> r == Some(self.elems()[i as int]),
            i >= self.elems().len() ==> r is None,
    ;

    /// Replaces the element at position `i` with `x` and returns the previous
    /// element; out of range, changes nothing and returns `None`.
    fn set(&mut self, i: usize, x: T) -> (r: Option<T>)
        requires
            old(self).wf(),
        ensures
            final(self).wf(),
            i < old(self).elems().len() ==> final(self).elems()
                == old(self).elems().update(i as int, x)
                && r == Some(old(self).elems()[i as int]),
            i >= old(self).elems().len() ==> final(self).elems() == old(self).elems()
                && r is None,
    ;

    /// Inserts `x` at position `i`, shifting the elements at positions `i` and
    /// above one place up.
    fn add(&mut self, i: usize, x: T)
        requires
            old(self).wf(),
            i <= old(self).elems().len(),
            old(self).elems().len() < usize::MAX / 16,
        ensures
            final(self).wf(),
            final(self).elems() == old(self).elems().insert(i as int, x),
    ;

    /// Removes and returns the element at position `i`, shifting the elements
    /// above it one place down; out of range, changes nothing and returns
    /// `None`.
    fn remove(&mut self, i: usize) -> (r: Option<T>)
        requires
            old(self).wf(),
        ensures
            final(self).wf(),
            i < old(self).elems().len() ==> final(self).elems()
                == old(self).elems().remove(i as int)
                && r == Some(old(self).elems()[i as int]),
            i >= old(self).elems().len() ==> final(self).elems() == old(self).elems()
                && r is None,
    ;
}

/// Order preservation under insertion: the elements below the insertion
/// point stay where they were, the new element appears there, and every
/// element at or above it moves up by exactly one place.
pub proof fn lemma_add_order_preserved<T>(s: Seq<T>, i: int, x: T)
    requires
        0 <= i <= s.len(),
    ensures
        s.insert(i, x).len() == s.len() + 1,
        forall|m: int| 0 <= m < i ==> s.insert(i, x)[m] == s[m],
        s.insert(i, x)[i] == x,
        forall|m: int| i <= m < s.len() ==> s.insert(i, x)[m + 1] == s[m],
{
    s.insert_ensures(i, x);
}

/// Order preservation under removal: the elements below the removal point
/// stay where they were and every element above it moves down by exactly
/// one place.
pub proof fn lemma_remove_order_preserved<T>(s: Seq<T>, i: int)
    requires
        0 <= i < s.len(),
    ensures
        s.remove(i).len() == s.len() - 1,
        forall|m: int| 0 <= m < i ==> s.remove(i)[m] == s[m],
        forall|m: int| i <= m < s.len() - 1 ==> s.remove(i)[m] == s[m + 1],
{
    s.remove_ensures(i);
}

/// Round trip for writes: after `set(i, x)` a `get(i)` yields `x`, and the
/// size is unchanged.
pub proof fn lemma_set_then_get<T>(s: Seq<T>, i: int, x: T)
    requires
        0 <= i < s.len(),
    ensures
        s.update(i, x)[i] == x,
        s.update(i, x).len() == s.len(),
{
}

/// Round trip for insertions: after `add(i, x)` a `get(i)` yields `x`, and
/// the size grows by exactly one.
pub proof fn lemma_add_then_get<T>(s: Seq<T>, i: int, x: T)
    requires
        0 <= i <= s.len(),
    ensures
        s.insert(i, x)[i] == x,
        s.insert(i, x).len() == s.len() + 1,
{
    s.insert_ensures(i, x);
}

} // verus!
