use vstd::prelude::*;

use crate::List;

verus! {

/// A growable, shrinkable flat array: one contiguous block of optional slots
/// of capacity `a.len()`, the first `n` of which hold the elements in order.
/// The block is replaced wholesale by `resize` whenever an insertion would
/// fill it or a removal leaves it at most a third full.
pub struct Array<T> {
    a: Vec<Option<T>>,
    n: usize,
}

/// A fresh block of `len` empty slots.
pub(crate) fn alloc_slots<T>(len: usize) -> (r: Vec<Option<T>>)
    ensures
        r@.len() == len,
        forall|k: int| 0 <= k < len ==> r@[k] is None,
{
    let mut v: Vec<Option<T>> = Vec::new();
    while v.len() < len
        invariant
            v@.len() <= len,
            forall|k: int| 0 <= k < v@.len() ==> v@[k] is None,
        decreases len - v@.len(),
    {
        v.push(None);
    }
    v
}

impl<T> View for Array<T> {
    type V = Seq<T>;

    closed spec fn view(&self) -> Seq<T> {
        Seq::new(self.n as nat, |k: int| self.a@[k].unwrap())
    }
}

impl<T> Array<T> {
    /// Slots below `n` are full, slots from `n` to the capacity are empty.
    pub closed spec fn inv(&self) -> bool {
        &&& self.n <= self.a@.len()
        &&& forall|k: int| 0 <= k < self.n ==> self.a@[k] is Some
        &&& forall|k: int| self.n <= k < self.a@.len() ==> self.a@[k] is None
    }

    /// The number of slots currently allocated.
    pub closed spec fn cap(&self) -> nat {
        self.a@.len()
    }

    /// An empty array of capacity `len`.
    pub fn new(len: usize) -> (r: Self)
        ensures
            r.inv(),
            r@ == Seq::<T>::empty(),
            r.cap() == len,
    {
        let r = Self { a: alloc_slots(len), n: 0 };
        proof {
            assert(r@ =~= Seq::<T>::empty());
        }
        r
    }

    /// Reallocates the block to capacity `max(2 * n, 1)`, keeping the
    /// elements in order.
    pub fn resize(&mut self)
        requires
            old(self).inv(),
            2 * old(self)@.len() <= usize::MAX,
        ensures
            final(self).inv(),
            final(self)@ == old(self)@,
            final(self).cap() == if old(self)@.len() == 0 { 1nat } else { 2 * old(self)@.len() },
    {
        let c: usize = if self.n == 0 { 1 } else { self.n * 2 };
        let mut b: Vec<Option<T>> = alloc_slots(c);
        let mut k: usize = 0;
        while k < self.n
            invariant
                k <= self.n,
                self.n == old(self).n,
                self.n <= c,
                self.a@.len() == old(self).a@.len(),
                b@.len() == c,
                forall|m: int| 0 <= m < k ==> b@[m] == old(self).a@[m],
                forall|m: int| k <= m < c ==> b@[m] is None,
                forall|m: int| k <= m < self.a@.len() ==> self.a@[m] == old(self).a@[m],
                old(self).inv(),
            decreases self.n - k,
        {
            let mut tmp: Option<T> = None;
            self.a.set_and_swap(k, &mut tmp);
            b.set(k, tmp);
            k += 1;
        }
        self.a = b;
        proof {
            assert(self@ =~= old(self)@);
        }
    }

    /// The number of slots currently allocated.
    pub fn capacity(&self) -> (c: usize)
        ensures
            c == self.cap(),
    {
        self.a.len()
    }

    /// The number of elements held.
    pub fn size(&self) -> (n: usize)
        ensures
            n == self@.len(),
    {
        self.n
    }

    /// A reference to the element at position `i`.
    pub fn get_ref(&self, i: usize) -> (r: &T)
        requires
            self.inv(),
            i < self@.len(),
        ensures
            *r == self@[i as int],
    {
        match &self.a[i] {
            Some(x) => x,
            None => unreached(),
        }
    }

    /// Swaps the element at position `i` with `*x`.
    pub fn swap_at(&mut self, i: usize, x: &mut T)
        requires
            old(self).inv(),
            i < old(self)@.len(),
        ensures
            final(self).inv(),
            final(self)@ == old(self)@.update(i as int, *old(x)),
            *final(x) == old(self)@[i as int],
            final(self).cap() == old(self).cap(),
    {
        let mut slot: Option<T> = None;
        self.a.set_and_swap(i, &mut slot);
        let mut v = match slot {
            Some(v) => v,
            None => unreached(),
        };
        core::mem::swap(x, &mut v);
        self.a.set(i, Some(v));
        proof {
            assert(self@ =~= old(self)@.update(i as int, *old(x)));
        }
    }

    /// Appends `x` after the last element, growing the block first when it
    /// would otherwise fill up.
    pub fn push(&mut self, x: T)
        requires
            old(self).inv(),
            2 * (old(self)@.len() + 1) <= usize::MAX,
        ensures
            final(self).inv(),
            final(self)@ == old(self)@.push(x),
    {
        if self.n + 1 >= self.a.len() {
            self.resize();
        }
        self.a.set(self.n, Some(x));
        self.n += 1;
        proof {
            assert(self@ =~= old(self)@.push(x));
        }
    }

    /// Removes and returns the last element, shrinking the block afterwards
    /// when it is at most a third full; `None` on an empty array.
    pub fn pop(&mut self) -> (r: Option<T>)
        requires
            old(self).inv(),
        ensures
            final(self).inv(),
            old(self)@.len() > 0 ==> r == Some(old(self)@.last())
                && final(self)@ == old(self)@.drop_last(),
            old(self)@.len() == 0 ==> r is None && final(self)@ == old(self)@,
    {
        if self.n == 0 {
            return None;
        }
        let mut slot: Option<T> = None;
        self.a.set_and_swap(self.n - 1, &mut slot);
        self.n -= 1;
        proof {
            assert(self@ =~= old(self)@.drop_last());
            vstd::arithmetic::div_mod::lemma_fundamental_div_mod(self.a@.len() as int, 3);
        }
        if self.n <= self.a.len() / 3 {
            self.resize();
        }
        slot
    }
}

/// The size invariant of the flat array: the allocated block always has
/// room for every element it holds.
pub proof fn lemma_capacity_covers_size<T>(a: &Array<T>)
    requires
        a.inv(),
    ensures
        a@.len() <= a.cap(),
{
}

impl<T: Copy> List<T> for Array<T> {
    open spec fn elems(&self) -> Seq<T> {
        self@
    }

    open spec fn wf(&self) -> bool {
        self.inv()
    }

    fn size(&self) -> (n: usize) {
        self.n
    }

    fn get(&self, i: usize) -> (r: Option<T>) {
        if i < self.n {
            self.a[i]
        } else {
            None
        }
    }

    fn set(&mut self, i: usize, x: T) -> (r: Option<T>) {
        if i >= self.n {
            return None;
        }
        let y: Option<T> = self.a[i];
        self.a.set(i, Some(x));
        proof {
            assert(self@ =~= old(self)@.update(i as int, x));
        }
        y
    }

    fn add(&mut self, i: usize, x: T)
        ensures
            final(self).cap() >= final(self)@.len(),
            old(self)@.len() >= 2 ==> final(self).cap() > final(self)@.len(),
            final(self).cap() == if old(self)@.len() + 1 >= old(self).cap() {
                if old(self)@.len() == 0 { 1nat } else { (2 * old(self)@.len()) as nat }
            } else {
                old(self).cap()
            },
    {
        if self.n + 1 >= self.a.len() {
            self.resize();
        }
        let ghost a0 = self.a@;
        let ghost v0 = old(self)@;
        let mut k: usize = self.n;
        while k > i
            invariant
                i <= k <= self.n,
                self.n == v0.len(),
                self.n < self.a@.len(),
                self.a@.len() == a0.len(),
                forall|m: int| 0 <= m <= k ==> (#[trigger] self.a@[m]) == a0[m],
                forall|m: int| k < m <= self.n ==> (#[trigger] self.a@[m]) == a0[m - 1],
                forall|m: int| self.n < m < self.a@.len() ==> (#[trigger] self.a@[m]) == a0[m],
            decreases k,
        {
            let v: Option<T> = self.a[k - 1];
            self.a.set(k, v);
            k -= 1;
        }
        self.a.set(i, Some(x));
        self.n += 1;
        proof {
            assert(self@ =~= old(self)@.insert(i as int, x));
        }
    }

    fn remove(&mut self, i: usize) -> (r: Option<T>)
        ensures
            i < old(self)@.len() ==> final(self).cap() > final(self)@.len(),
            i < old(self)@.len() ==> final(self).cap()
                == if old(self).cap() >= 3 * (old(self)@.len() - 1) {
                    if old(self)@.len() == 1 { 1nat } else { (2 * (old(self)@.len() - 1)) as nat }
                } else {
                    old(self).cap()
                },
            i >= old(self)@.len() ==> final(self).cap() == old(self).cap(),
    {
        if i >= self.n {
            return None;
        }
        let x: Option<T> = self.a[i];
        let ghost a0 = self.a@;
        let ghost v0 = old(self)@;
        let mut k: usize = i;
        while k < self.n - 1
            invariant
                i <= k <= self.n - 1,
                i < self.n,
                self.n == v0.len(),
                self.n <= self.a@.len(),
                self.a@.len() == a0.len(),
                x == a0[i as int],
                forall|m: int| 0 <= m < self.n ==> (#[trigger] a0[m]) is Some,
                forall|m: int| self.n <= m < a0.len() ==> (#[trigger] a0[m]) is None,
                forall|m: int| 0 <= m < i ==> (#[trigger] self.a@[m]) == a0[m],
                forall|m: int| i <= m < k ==> (#[trigger] self.a@[m]) == a0[m + 1],
                forall|m: int| k <= m < self.a@.len() ==> (#[trigger] self.a@[m]) == a0[m],
            decreases self.n - k,
        {
            let v: Option<T> = self.a[k + 1];
            self.a.set(k, v);
            k += 1;
        }
        self.a.set(self.n - 1, None);
        self.n -= 1;
        proof {
            assert(self@ =~= old(self)@.remove(i as int));
            vstd::arithmetic::div_mod::lemma_fundamental_div_mod(self.a@.len() as int, 3);
        }
        if self.n <= self.a.len() / 3 {
            self.resize();
        }
        x
    }
}

} // verus!
