use vstd::prelude::*;

use crate::array::alloc_slots;

verus! {

/// The physical slot of logical position `k` in a circular block of `len`
/// slots whose head sits at offset `j`.
pub(crate) open spec fn circ(j: int, k: int, len: int) -> int {
    if j + k < len {
        j + k
    } else {
        j + k - len
    }
}

/// Computes `circ(j, k, len)` without overflowing.
pub(crate) fn circ_idx(j: usize, k: usize, len: usize) -> (r: usize)
    requires
        j < len,
        k <= len,
    ensures
        r == circ(j as int, k as int, len as int),
        r < len,
{
    if k < len - j {
        j + k
    } else {
        k - (len - j)
    }
}

/// A single-ended circular queue: one block of `a.len()` slots, a head offset
/// `j` and a count `n`. Logical element `k` lives at slot `(j + k) mod
/// a.len()`; `add` appends after the last element and `remove` takes the
/// first, so the occupied window crawls around the block. A resize
/// linearizes the window at offset zero.
pub struct ArrayQueue<T> {
    a: Vec<Option<T>>,
    j: usize,
    n: usize,
}

impl<T> View for ArrayQueue<T> {
    type V = Seq<T>;

    closed spec fn view(&self) -> Seq<T> {
        Seq::new(self.n as nat, |k: int| self.a@[circ(self.j as int, k, self.a@.len() as int)].unwrap())
    }
}

impl<T> ArrayQueue<T> {
    /// The head offset is in range, the `n` slots of the window starting
    /// there are full and every other slot is empty.
    pub closed spec fn inv(&self) -> bool {
        &&& self.n <= self.a@.len()
        &&& if self.a@.len() == 0 {
            self.j == 0
        } else {
            self.j < self.a@.len()
        }
        &&& forall|k: int| 0 <= k < self.n
            ==> (#[trigger] self.a@[circ(self.j as int, k, self.a@.len() as int)]) is Some
        &&& forall|k: int| self.n <= k < self.a@.len()
            ==> (#[trigger] self.a@[circ(self.j as int, k, self.a@.len() as int)]) is None
    }

    /// The number of slots currently allocated.
    pub closed spec fn cap(&self) -> nat {
        self.a@.len()
    }

    /// An empty queue of capacity `len`.
    pub fn new(len: usize) -> (r: Self)
        ensures
            r.inv(),
            r@ == Seq::<T>::empty(),
            r.cap() == len,
    {
        let r = Self { a: alloc_slots(len), j: 0, n: 0 };
        proof {
            assert(r@ =~= Seq::<T>::empty());
            assert forall|k: int| 0 <= k < r.a@.len()
                implies (#[trigger] r.a@[circ(r.j as int, k, r.a@.len() as int)]) is None by {
                assert(0 <= circ(r.j as int, k, r.a@.len() as int) < r.a@.len());
            }
        }
        r
    }

    /// Reallocates the block to capacity `max(2 * n, 1)`, copying the window
    /// to offset zero and resetting the head offset.
    pub fn resize(&mut self)
        requires
            old(self).inv(),
            2 * old(self)@.len() <= usize::MAX,
        ensures
            final(self).inv(),
            final(self)@ == old(self)@,
            final(self).cap() == if old(self)@.len() == 0 { 1nat } else { 2 * old(self)@.len() },
    {
        let c: usize = if self.n == 0 { 1 } else { self.n * 2 };
        let mut b: Vec<Option<T>> = alloc_slots(c);
        let ghost a0 = self.a@;
        let ghost j0 = self.j as int;
        let mut k: usize = 0;
        while k < self.n
            invariant
                old(self).inv(),
                a0 == old(self).a@,
                j0 == old(self).j,
                self.n == old(self).n,
                k <= self.n,
                self.n <= c,
                self.j == j0,
                self.j < self.a@.len() || self.n == 0,
                self.n <= self.a@.len(),
                self.a@.len() == a0.len(),
                b@.len() == c,
                forall|m: int| 0 <= m < k
                    ==> (#[trigger] b@[m]) == a0[circ(j0, m, a0.len() as int)],
                forall|m: int| k <= m < c ==> (#[trigger] b@[m]) is None,
                forall|m: int| k <= m < self.a@.len()
                    ==> (#[trigger] self.a@[circ(j0, m, a0.len() as int)])
                        == a0[circ(j0, m, a0.len() as int)],
            decreases self.n - k,
        {
            let idx = circ_idx(self.j, k, self.a.len());
            let mut tmp: Option<T> = None;
            self.a.set_and_swap(idx, &mut tmp);
            b.set(k, tmp);
            proof {
                assert forall|m: int| k + 1 <= m < self.a@.len()
                    implies (#[trigger] self.a@[circ(j0, m, a0.len() as int)])
                        == a0[circ(j0, m, a0.len() as int)] by {
                    assert(circ(j0, m, a0.len() as int) != circ(j0, k as int, a0.len() as int));
                }
            }
            k += 1;
        }
        self.a = b;
        self.j = 0;
        proof {
            assert forall|k: int| 0 <= k < self.n
                implies #[trigger] circ(0, k, self.a@.len() as int) == k by {}
            assert(self@ =~= old(self)@);
        }
    }

    /// The number of slots currently allocated.
    pub fn capacity(&self) -> (c: usize)
        ensures
            c == self.cap(),
    {
        self.a.len()
    }

    /// The number of elements held.
    pub fn size(&self) -> (n: usize)
        ensures
            n == self@.len(),
    {
        self.n
    }

    /// Appends `x` after the last element, growing the block first when it
    /// would otherwise fill up.
    pub fn add(&mut self, x: T)
        requires
            old(self).inv(),
            old(self)@.len() < usize::MAX / 16,
        ensures
            final(self).inv(),
            final(self)@ == old(self)@.push(x),
            final(self).cap() == if old(self)@.len() + 1 >= old(self).cap() {
                if old(self)@.len() == 0 { 1nat } else { (2 * old(self)@.len()) as nat }
            } else {
                old(self).cap()
            },
    {
        if self.n + 1 >= self.a.len() {
            self.resize();
        }
        let idx = circ_idx(self.j, self.n, self.a.len());
        let ghost a0 = self.a@;
        self.a.set(idx, Some(x));
        self.n += 1;
        proof {
            let len = self.a@.len() as int;
            let j = self.j as int;
            assert forall|k: int| 0 <= k < self.n && k != self.n - 1
                implies (#[trigger] self.a@[circ(j, k, len)]) == a0[circ(j, k, len)] by {
                assert(circ(j, k, len) != circ(j, self.n - 1, len));
            }
            assert forall|k: int| self.n <= k < len
                implies (#[trigger] self.a@[circ(j, k, len)]) is None by {
                assert(circ(j, k, len) != circ(j, self.n - 1, len));
            }
            assert(self@ =~= old(self)@.push(x));
        }
    }

    /// Removes and returns the first element, advancing the head offset and
    /// shrinking the block afterwards when it is at most a third full;
    /// `None` on an empty queue.
    pub fn remove(&mut self) -> (r: Option<T>)
        requires
            old(self).inv(),
        ensures
            final(self).inv(),
            old(self)@.len() > 0 ==> r == Some(old(self)@.first())
                && final(self)@ == old(self)@.skip(1),
            old(self)@.len() == 0 ==> r is None && final(self)@ == old(self)@,
            old(self)@.len() > 0 ==> final(self).cap()
                == if old(self).cap() >= 3 * (old(self)@.len() - 1) {
                    if old(self)@.len() == 1 { 1nat } else { (2 * (old(self)@.len() - 1)) as nat }
                } else {
                    old(self).cap()
                },
            old(self)@.len() == 0 ==> final(self).cap() == old(self).cap(),
    {
        if self.n == 0 {
            return None;
        }
        let ghost a0 = self.a@;
        let ghost j0 = self.j as int;
        let mut slot: Option<T> = None;
        self.a.set_and_swap(self.j, &mut slot);
        let len = self.a.len();
        self.j = if self.j + 1 == len {
            0
        } else {
            self.j + 1
        };
        self.n -= 1;
        proof {
            let len = self.a@.len() as int;
            let j = self.j as int;
            assert forall|k: int| 0 <= k < self.n
                implies (#[trigger] self.a@[circ(j, k, len)]) == a0[circ(j0, k + 1, len)] by {
                assert(circ(j, k, len) == circ(j0, k + 1, len));
                assert(circ(j0, k + 1, len) != circ(j0, 0, len));
            }
            assert forall|k: int| self.n <= k < len
                implies (#[trigger] self.a@[circ(j, k, len)]) is None by {
                assert(circ(j, k, len) == circ(j0, k + 1, len) || k == len - 1);
                if k < len - 1 {
                    assert(circ(j0, k + 1, len) != circ(j0, 0, len));
                } else {
                    assert(circ(j, k, len) == circ(j0, 0, len));
                }
            }
            assert(self@ =~= old(self)@.skip(1));
            vstd::arithmetic::div_mod::lemma_fundamental_div_mod(self.a@.len() as int, 3);
        }
        if self.n <= self.a.len() / 3 {
            self.resize();
        }
        slot
    }
}

} // verus!
