use vstd::prelude::*;

use crate::array::Array;
use crate::List;

verus! {

/// A deque composed of two flat arrays: `front` holds the first part of the
/// sequence in reverse (its slot 0 is adjacent to the middle), `back` holds
/// the rest forward. After every mutation a rebalance keeps either side
/// within three times the other, so operations near either end stay O(1)
/// amortized.
pub struct DualArrayDeque<T> {
    front: Array<T>,
    back: Array<T>,
}

impl<T> View for DualArrayDeque<T> {
    type V = Seq<T>;

    closed spec fn view(&self) -> Seq<T> {
        self.front@.reverse() + self.back@
    }
}

impl<T> DualArrayDeque<T> {
    /// Neither side more than three times the other, except in the smallest
    /// states, where everything sits in `back`.
    pub closed spec fn balanced(&self) -> bool {
        ||| (3 * self.front@.len() >= self.back@.len()
            && 3 * self.back@.len() >= self.front@.len())
        ||| (self.front@.len() == 0 && self.back@.len() <= 1)
    }

    /// Both sides well formed, their sizes summable, and the whole balanced.
    pub closed spec fn inv(&self) -> bool {
        &&& self.front.inv()
        &&& self.back.inv()
        &&& self.front@.len() + self.back@.len() <= usize::MAX / 16
        &&& self.balanced()
    }

    /// The number of elements held in `front`.
    pub closed spec fn front_len(&self) -> nat {
        self.front@.len()
    }

    /// The number of elements held in `back`.
    pub closed spec fn back_len(&self) -> nat {
        self.back@.len()
    }

    /// An empty deque: two empty arrays of capacity zero.
    pub fn new() -> (r: Self)
        ensures
            r.inv(),
            r@ == Seq::<T>::empty(),
            r.front_len() == 0,
            r.back_len() == 0,
    {
        let r = Self { front: Array::new(0), back: Array::new(0) };
        proof {
            assert(r@ =~= Seq::<T>::empty());
        }
        r
    }

    /// The number of elements held in `front`.
    pub fn front_size(&self) -> (r: usize)
        ensures
            r == self.front_len(),
    {
        self.front.size()
    }

    /// The number of elements held in `back`.
    pub fn back_size(&self) -> (r: usize)
        ensures
            r == self.back_len(),
    {
        self.back.size()
    }

}

impl<T: Copy> DualArrayDeque<T> {
    /// The element at position `m`, read from whichever side holds it.
    fn read_at(&self, m: usize) -> (r: Option<T>)
        requires
            self.front.inv(),
            self.back.inv(),
            self.front@.len() + self.back@.len() <= usize::MAX / 16,
        ensures
            m < self@.len() ==> r == Some(self@[m as int]),
            m >= self@.len() ==> r is None,
    {
        let f = self.front.size();
        if m < f {
            self.front.get(f - m - 1)
        } else {
            self.back.get(m - f)
        }
    }

    /// Redistributes the elements evenly over the two sides whenever one has
    /// grown to more than three times the other, keeping the sequence intact.
    fn balance(&mut self)
        requires
            old(self).front.inv(),
            old(self).back.inv(),
            old(self).front@.len() + old(self).back@.len() <= usize::MAX / 16,
        ensures
            final(self).inv(),
            final(self)@ == old(self)@,
    {
        let f = self.front.size();
        let b = self.back.size();
        if 3 * f < b || 3 * b < f {
            let ghost v0 = self@;
            let n = f + b;
            let nf = n / 2;
            let nb = n - nf;
            proof {
                vstd::arithmetic::div_mod::lemma_fundamental_div_mod(n as int, 2);
                assert(v0.len() == n);
            }
            let mut af: Array<T> = Array::new(if nf == 0 { 1 } else { 2 * nf });
            let mut i: usize = 0;
            while i < nf
                invariant
                    *self == *old(self),
                    self.front.inv(),
                    self.back.inv(),
                    v0 == self@,
                    i <= nf,
                    nf <= v0.len(),
                    v0.len() <= usize::MAX / 16,
                    af.inv(),
                    af@.len() == i,
                    forall|m: int| 0 <= m < i ==> #[trigger] af@[m] == v0[nf - 1 - m],
                decreases nf - i,
            {
                let e = match self.read_at(nf - 1 - i) {
                    Some(e) => e,
                    None => unreached(),
                };
                af.add(i, e);
                i += 1;
            }
            let mut ab: Array<T> = Array::new(if nb == 0 { 1 } else { 2 * nb });
            let mut i: usize = 0;
            while i < nb
                invariant
                    *self == *old(self),
                    self.front.inv(),
                    self.back.inv(),
                    v0 == self@,
                    i <= nb,
                    nf + nb == v0.len(),
                    v0.len() <= usize::MAX / 16,
                    ab.inv(),
                    ab@.len() == i,
                    forall|m: int| 0 <= m < i ==> #[trigger] ab@[m] == v0[nf + m],
                decreases nb - i,
            {
                let e = match self.read_at(nf + i) {
                    Some(e) => e,
                    None => unreached(),
                };
                ab.add(i, e);
                i += 1;
            }
            self.front = af;
            self.back = ab;
            proof {
                assert(self@ =~= v0);
                vstd::arithmetic::div_mod::lemma_fundamental_div_mod(v0.len() as int, 2);
            }
        }
    }
}

impl<T: Copy> List<T> for DualArrayDeque<T> {
    open spec fn elems(&self) -> Seq<T> {
        self@
    }

    open spec fn wf(&self) -> bool {
        self.inv()
    }

    fn size(&self) -> (n: usize) {
        self.front.size() + self.back.size()
    }

    fn get(&self, i: usize) -> (r: Option<T>) {
        self.read_at(i)
    }

    fn set(&mut self, i: usize, x: T) -> (r: Option<T>) {
        let f = self.front.size();
        let r = if i < f {
            self.front.set(f - i - 1, x)
        } else {
            self.back.set(i - f, x)
        };
        proof {
            if i < old(self)@.len() {
                assert(self@ =~= old(self)@.update(i as int, x));
            } else {
                assert(self@ =~= old(self)@);
            }
        }
        r
    }

    fn add(&mut self, i: usize, x: T) {
        let f = self.front.size();
        if i < f {
            self.front.add(f - i, x);
        } else {
            self.back.add(i - f, x);
        }
        proof {
            assert(self@ =~= old(self)@.insert(i as int, x));
        }
        self.balance();
    }

    fn remove(&mut self, i: usize) -> (r: Option<T>) {
        if i >= self.front.size() + self.back.size() {
            return None;
        }
        let f = self.front.size();
        let r = if i < f {
            self.front.remove(f - i - 1)
        } else {
            self.back.remove(i - f)
        };
        proof {
            assert(self@ =~= old(self)@.remove(i as int));
        }
        self.balance();
        r
    }
}

} // verus!
