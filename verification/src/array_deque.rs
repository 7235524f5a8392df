use vstd::prelude::*;

use crate::array::alloc_slots;
use crate::array_queue::{circ, circ_idx};
use crate::List;

verus! {

/// A circular-buffer deque: one block of `a.len()` slots, a head offset `j`
/// and a count `n`, with logical element `k` at slot `(j + k) mod a.len()`.
/// Insertions and removals shift whichever side of the split point is
/// shorter, moving the head offset for front-biased mutations, so that
/// operations near either end cost O(1) amortized.
pub struct ArrayDeque<T> {
    a: Vec<Option<T>>,
    j: usize,
    n: usize,
}

impl<T> View for ArrayDeque<T> {
    type V = Seq<T>;

    closed spec fn view(&self) -> Seq<T> {
        Seq::new(self.n as nat, |k: int| self.a@[circ(self.j as int, k, self.a@.len() as int)].unwrap())
    }
}

impl<T> ArrayDeque<T> {
    /// The head offset is in range, the `n` slots of the window starting
    /// there are full and every other slot is empty.
    pub closed spec fn inv(&self) -> bool {
        &&& self.n <= self.a@.len()
        &&& if self.a@.len() == 0 {
            self.j == 0
        } else {
            self.j < self.a@.len()
        }
        &&& forall|k: int| 0 <= k < self.n
            ==> (#[trigger] self.a@[circ(self.j as int, k, self.a@.len() as int)]) is Some
        &&& forall|k: int| self.n <= k < self.a@.len()
            ==> (#[trigger] self.a@[circ(self.j as int, k, self.a@.len() as int)]) is None
    }

    /// The number of slots currently allocated.
    pub closed spec fn cap(&self) -> nat {
        self.a@.len()
    }

    /// An empty deque of capacity `len`.
    pub fn new(len: usize) -> (r: Self)
        ensures
            r.inv(),
            r@ == Seq::<T>::empty(),
            r.cap() == len,
    {
        let r = Self { a: alloc_slots(len), j: 0, n: 0 };
        proof {
            assert(r@ =~= Seq::<T>::empty());
            assert forall|k: int| 0 <= k < r.a@.len()
                implies (#[trigger] r.a@[circ(r.j as int, k, r.a@.len() as int)]) is None by {
                assert(0 <= circ(r.j as int, k, r.a@.len() as int) < r.a@.len());
            }
        }
        r
    }

    /// Reallocates the block to capacity `max(2 * n, 1)`, copying the window
    /// to offset zero and resetting the head offset.
    pub fn resize(&mut self)
        requires
            old(self).inv(),
            2 * old(self)@.len() <= usize::MAX,
        ensures
            final(self).inv(),
            final(self)@ == old(self)@,
            final(self).cap() == if old(self)@.len() == 0 { 1nat } else { 2 * old(self)@.len() },
    {
        let c: usize = if self.n == 0 { 1 } else { self.n * 2 };
        let mut b: Vec<Option<T>> = alloc_slots(c);
        let ghost a0 = self.a@;
        let ghost j0 = self.j as int;
        let mut k: usize = 0;
        while k < self.n
            invariant
                old(self).inv(),
                a0 == old(self).a@,
                j0 == old(self).j,
                self.n == old(self).n,
                k <= self.n,
                self.n <= c,
                self.j == j0,
                self.j < self.a@.len() || self.n == 0,
                self.n <= self.a@.len(),
                self.a@.len() == a0.len(),
                b@.len() == c,
                forall|m: int| 0 <= m < k
                    ==> (#[trigger] b@[m]) == a0[circ(j0, m, a0.len() as int)],
                forall|m: int| k <= m < c ==> (#[trigger] b@[m]) is None,
                forall|m: int| k <= m < self.a@.len()
                    ==> (#[trigger] self.a@[circ(j0, m, a0.len() as int)])
                        == a0[circ(j0, m, a0.len() as int)],
            decreases self.n - k,
        {
            let idx = circ_idx(self.j, k, self.a.len());
            let mut tmp: Option<T> = None;
            self.a.set_and_swap(idx, &mut tmp);
            b.set(k, tmp);
            proof {
                assert forall|m: int| k + 1 <= m < self.a@.len()
                    implies (#[trigger] self.a@[circ(j0, m, a0.len() as int)])
                        == a0[circ(j0, m, a0.len() as int)] by {
                    assert(circ(j0, m, a0.len() as int) != circ(j0, k as int, a0.len() as int));
                }
            }
            k += 1;
        }
        self.a = b;
        self.j = 0;
        proof {
            assert forall|k: int| 0 <= k < self.n
                implies #[trigger] circ(0, k, self.a@.len() as int) == k by {}
            assert(self@ =~= old(self)@);
        }
    }

    /// The number of slots currently allocated.
    pub fn capacity(&self) -> (c: usize)
        ensures
            c == self.cap(),
    {
        self.a.len()
    }
}

impl<T: Copy> List<T> for ArrayDeque<T> {
    open spec fn elems(&self) -> Seq<T> {
        self@
    }

    open spec fn wf(&self) -> bool {
        self.inv()
    }

    fn size(&self) -> (n: usize) {
        self.n
    }

    fn get(&self, i: usize) -> (r: Option<T>) {
        if i >= self.n {
            return None;
        }
        let idx = circ_idx(self.j, i, self.a.len());
        self.a[idx]
    }

    fn set(&mut self, i: usize, x: T) -> (r: Option<T>) {
        if i >= self.n {
            return None;
        }
        let idx = circ_idx(self.j, i, self.a.len());
        let y: Option<T> = self.a[idx];
        self.a.set(idx, Some(x));
        proof {
            let len = self.a@.len() as int;
            let j = self.j as int;
            assert forall|k: int| 0 <= k < len && k != i
                implies (#[trigger] self.a@[circ(j, k, len)]) == old(self).a@[circ(j, k, len)] by {
                assert(circ(j, k, len) != circ(j, i as int, len));
            }
            assert(self@ =~= old(self)@.update(i as int, x));
        }
        y
    }

    #[verifier::rlimit(50)]
    fn add(&mut self, i: usize, x: T)
        ensures
            final(self).cap() == if old(self)@.len() + 1 >= old(self).cap() {
                if old(self)@.len() == 0 { 1nat } else { (2 * old(self)@.len()) as nat }
            } else {
                old(self).cap()
            },
    {
        if self.n + 1 >= self.a.len() {
            self.resize();
        }
        let ghost v0 = old(self)@;
        let ghost a0 = self.a@;
        let ghost j0 = self.j as int;
        let ghost len = self.a@.len() as int;
        if i < self.n / 2 {
            self.j = if self.j == 0 {
                self.a.len() - 1
            } else {
                self.j - 1
            };
            let ghost j1 = self.j as int;
            proof {
                assert(j1 == circ(j0, len - 1, len));
                assert(circ(j1, 0, len) == circ(j0, len - 1, len));
                assert(a0[circ(j0, len - 1, len)] is None);
            }
            let mut k: usize = 0;
            while k < i
                invariant
                    k <= i,
                    i < self.n / 2,
                    self.n == v0.len(),
                    self.n + 1 <= len,
                    self.j == j1,
                    j1 == circ(j0, len - 1, len),
                    0 <= j1 < len,
                    0 <= j0 < len,
                    self.a@.len() == len,
                    a0.len() == len,
                    forall|m: int| 0 <= m < self.n
                        ==> (#[trigger] a0[circ(j0, m, len)]) is Some
                            && a0[circ(j0, m, len)].unwrap() == v0[m],
                    forall|m: int| self.n <= m < len ==> (#[trigger] a0[circ(j0, m, len)]) is None,
                    forall|m: int| 0 <= m < k
                        ==> (#[trigger] self.a@[circ(j1, m, len)]) == a0[circ(j1, m + 1, len)],
                    self.a@[circ(j1, k as int, len)] is None,
                    forall|m: int| k < m < len
                        ==> (#[trigger] self.a@[circ(j1, m, len)]) == a0[circ(j1, m, len)],
                decreases i - k,
            {
                let src = circ_idx(self.j, k + 1, self.a.len());
                let dst = circ_idx(self.j, k, self.a.len());
                let mut tmp: Option<T> = None;
                self.a.set_and_swap(src, &mut tmp);
                self.a.set(dst, tmp);
                proof {
                    assert forall|m: int| k + 1 < m < len
                        implies (#[trigger] self.a@[circ(j1, m, len)]) == a0[circ(j1, m, len)] by {
                        assert(circ(j1, m, len) != circ(j1, k as int, len));
                        assert(circ(j1, m, len) != circ(j1, k + 1, len));
                    }
                    assert forall|m: int| 0 <= m < k + 1
                        implies (#[trigger] self.a@[circ(j1, m, len)]) == a0[circ(j1, m + 1, len)] by {
                        if m < k {
                            assert(circ(j1, m, len) != circ(j1, k as int, len));
                            assert(circ(j1, m, len) != circ(j1, k + 1, len));
                        }
                    }
                }
                k += 1;
            }
            let idx = circ_idx(self.j, i, self.a.len());
            self.a.set(idx, Some(x));
            proof {
                assert forall|m: int| 0 <= m < i
                    implies (#[trigger] self.a@[circ(j1, m, len)]) is Some
                        && self.a@[circ(j1, m, len)].unwrap() == v0[m] by {
                    assert(circ(j1, m, len) != circ(j1, i as int, len));
                    assert(self.a@[circ(j1, m, len)] == a0[circ(j1, m + 1, len)]);
                    assert(circ(j1, m + 1, len) == circ(j0, m, len));
                }
                assert forall|m: int| i < m <= v0.len()
                    implies (#[trigger] self.a@[circ(j1, m, len)]) is Some
                        && self.a@[circ(j1, m, len)].unwrap() == v0[m - 1] by {
                    assert(circ(j1, m, len) != circ(j1, i as int, len));
                    assert(self.a@[circ(j1, m, len)] == a0[circ(j1, m, len)]);
                    assert(circ(j1, m, len) == circ(j0, m - 1, len));
                }
                assert forall|m: int| v0.len() < m < len
                    implies (#[trigger] self.a@[circ(j1, m, len)]) is None by {
                    assert(circ(j1, m, len) != circ(j1, i as int, len));
                    assert(self.a@[circ(j1, m, len)] == a0[circ(j1, m, len)]);
                    assert(circ(j1, m, len) == circ(j0, m - 1, len));
                }
            }
        } else {
            let mut k: usize = self.n;
            while k > i
                invariant
                    i <= k <= self.n,
                    self.n == v0.len(),
                    self.n + 1 <= len,
                    self.j == j0,
                    0 <= j0 < len,
                    self.a@.len() == len,
                    a0.len() == len,
                    forall|m: int| 0 <= m < self.n
                        ==> (#[trigger] a0[circ(j0, m, len)]) is Some
                            && a0[circ(j0, m, len)].unwrap() == v0[m],
                    forall|m: int| self.n <= m < len ==> (#[trigger] a0[circ(j0, m, len)]) is None,
                    forall|m: int| 0 <= m < k
                        ==> (#[trigger] self.a@[circ(j0, m, len)]) == a0[circ(j0, m, len)],
                    self.a@[circ(j0, k as int, len)] is None,
                    forall|m: int| k < m <= self.n
                        ==> (#[trigger] self.a@[circ(j0, m, len)]) == a0[circ(j0, m - 1, len)],
                    forall|m: int| self.n < m < len
                        ==> (#[trigger] self.a@[circ(j0, m, len)]) == a0[circ(j0, m, len)],
                decreases k,
            {
                let src = circ_idx(self.j, k - 1, self.a.len());
                let dst = circ_idx(self.j, k, self.a.len());
                let mut tmp: Option<T> = None;
                self.a.set_and_swap(src, &mut tmp);
                self.a.set(dst, tmp);
                proof {
                    assert forall|m: int| 0 <= m < k - 1
                        implies (#[trigger] self.a@[circ(j0, m, len)]) == a0[circ(j0, m, len)] by {
                        assert(circ(j0, m, len) != circ(j0, k as int, len));
                        assert(circ(j0, m, len) != circ(j0, k - 1, len));
                    }
                    assert forall|m: int| k <= m <= self.n
                        implies (#[trigger] self.a@[circ(j0, m, len)]) == a0[circ(j0, m - 1, len)] by {
                        assert(circ(j0, m, len) != circ(j0, k - 1, len));
                    }
                    assert forall|m: int| self.n < m < len
                        implies (#[trigger] self.a@[circ(j0, m, len)]) == a0[circ(j0, m, len)] by {
                        assert(circ(j0, m, len) != circ(j0, k as int, len));
                        assert(circ(j0, m, len) != circ(j0, k - 1, len));
                    }
                }
                k -= 1;
            }
            let idx = circ_idx(self.j, i, self.a.len());
            self.a.set(idx, Some(x));
            proof {
                assert forall|m: int| 0 <= m < i
                    implies (#[trigger] self.a@[circ(j0, m, len)]) is Some
                        && self.a@[circ(j0, m, len)].unwrap() == v0[m] by {
                    assert(circ(j0, m, len) != circ(j0, i as int, len));
                    assert(self.a@[circ(j0, m, len)] == a0[circ(j0, m, len)]);
                }
                assert forall|m: int| i < m <= v0.len()
                    implies (#[trigger] self.a@[circ(j0, m, len)]) is Some
                        && self.a@[circ(j0, m, len)].unwrap() == v0[m - 1] by {
                    assert(circ(j0, m, len) != circ(j0, i as int, len));
                    assert(self.a@[circ(j0, m, len)] == a0[circ(j0, m - 1, len)]);
                }
                assert forall|m: int| v0.len() < m < len
                    implies (#[trigger] self.a@[circ(j0, m, len)]) is None by {
                    assert(circ(j0, m, len) != circ(j0, i as int, len));
                    assert(self.a@[circ(j0, m, len)] == a0[circ(j0, m, len)]);
                }
            }
        }
        self.n += 1;
        proof {
            let jn = self.j as int;
            assert(self.a@[circ(jn, i as int, len)] == Some(x));
            assert(self@ =~= old(self)@.insert(i as int, x));
        }
    }

    #[verifier::rlimit(50)]
    fn remove(&mut self, i: usize) -> (r: Option<T>)
        ensures
            i < old(self)@.len() ==> final(self).cap()
                == if old(self).cap() >= 3 * (old(self)@.len() - 1) {
                    if old(self)@.len() == 1 { 1nat } else { (2 * (old(self)@.len() - 1)) as nat }
                } else {
                    old(self).cap()
                },
            i >= old(self)@.len() ==> final(self).cap() == old(self).cap(),
    {
        if i >= self.n {
            return None;
        }
        let ghost v0 = old(self)@;
        let ghost a0 = self.a@;
        let ghost j0 = self.j as int;
        let ghost len = self.a@.len() as int;
        let idx = circ_idx(self.j, i, self.a.len());
        let mut x: Option<T> = None;
        self.a.set_and_swap(idx, &mut x);
        if i < self.n / 2 {
            let mut k: usize = i;
            while k > 0
                invariant
                    k <= i,
                    i < self.n,
                    self.n == v0.len(),
                    self.n <= len,
                    self.j == j0,
                    0 <= j0 < len,
                    self.a@.len() == len,
                    a0.len() == len,
                    x == a0[circ(j0, i as int, len)],
                    forall|m: int| 0 <= m < self.n
                        ==> (#[trigger] a0[circ(j0, m, len)]) is Some
                            && a0[circ(j0, m, len)].unwrap() == v0[m],
                    forall|m: int| self.n <= m < len ==> (#[trigger] a0[circ(j0, m, len)]) is None,
                    forall|m: int| 0 <= m < k
                        ==> (#[trigger] self.a@[circ(j0, m, len)]) == a0[circ(j0, m, len)],
                    self.a@[circ(j0, k as int, len)] is None,
                    forall|m: int| k < m <= i
                        ==> (#[trigger] self.a@[circ(j0, m, len)]) == a0[circ(j0, m - 1, len)],
                    forall|m: int| i < m < len
                        ==> (#[trigger] self.a@[circ(j0, m, len)]) == a0[circ(j0, m, len)],
                decreases k,
            {
                let src = circ_idx(self.j, k - 1, self.a.len());
                let dst = circ_idx(self.j, k, self.a.len());
                let mut tmp: Option<T> = None;
                self.a.set_and_swap(src, &mut tmp);
                self.a.set(dst, tmp);
                proof {
                    assert forall|m: int| 0 <= m < k - 1
                        implies (#[trigger] self.a@[circ(j0, m, len)]) == a0[circ(j0, m, len)] by {
                        assert(circ(j0, m, len) != circ(j0, k as int, len));
                        assert(circ(j0, m, len) != circ(j0, k - 1, len));
                    }
                    assert forall|m: int| k <= m <= i
                        implies (#[trigger] self.a@[circ(j0, m, len)]) == a0[circ(j0, m - 1, len)] by {
                        assert(circ(j0, m, len) != circ(j0, k - 1, len));
                    }
                    assert forall|m: int| i < m < len
                        implies (#[trigger] self.a@[circ(j0, m, len)]) == a0[circ(j0, m, len)] by {
                        assert(circ(j0, m, len) != circ(j0, k as int, len));
                        assert(circ(j0, m, len) != circ(j0, k - 1, len));
                    }
                }
                k -= 1;
            }
            let len_e = self.a.len();
            self.j = if self.j + 1 == len_e {
                0
            } else {
                self.j + 1
            };
            proof {
                let jn = self.j as int;
                assert(jn == circ(j0, 1, len));
                assert forall|m: int| 0 <= m < v0.len() - 1
                    implies (#[trigger] self.a@[circ(jn, m, len)]) is Some
                        && self.a@[circ(jn, m, len)].unwrap()
                            == (if m < i { v0[m] } else { v0[m + 1] }) by {
                    assert(circ(jn, m, len) == circ(j0, m + 1, len));
                    if m + 1 <= i {
                        assert(self.a@[circ(j0, m + 1, len)] == a0[circ(j0, m, len)]);
                    } else {
                        assert(self.a@[circ(j0, m + 1, len)] == a0[circ(j0, m + 1, len)]);
                    }
                }
                assert forall|m: int| v0.len() - 1 <= m < len
                    implies (#[trigger] self.a@[circ(jn, m, len)]) is None by {
                    if m == len - 1 {
                        assert(circ(jn, m, len) == circ(j0, 0, len));
                    } else {
                        assert(circ(jn, m, len) == circ(j0, m + 1, len));
                        assert(self.a@[circ(j0, m + 1, len)] == a0[circ(j0, m + 1, len)]);
                    }
                }
            }
        } else {
            let mut k: usize = i;
            while k < self.n - 1
                invariant
                    i <= k <= self.n - 1,
                    i < self.n,
                    self.n == v0.len(),
                    self.n <= len,
                    self.j == j0,
                    0 <= j0 < len,
                    self.a@.len() == len,
                    a0.len() == len,
                    x == a0[circ(j0, i as int, len)],
                    forall|m: int| 0 <= m < self.n
                        ==> (#[trigger] a0[circ(j0, m, len)]) is Some
                            && a0[circ(j0, m, len)].unwrap() == v0[m],
                    forall|m: int| self.n <= m < len ==> (#[trigger] a0[circ(j0, m, len)]) is None,
                    forall|m: int| 0 <= m < i
                        ==> (#[trigger] self.a@[circ(j0, m, len)]) == a0[circ(j0, m, len)],
                    forall|m: int| i <= m < k
                        ==> (#[trigger] self.a@[circ(j0, m, len)]) == a0[circ(j0, m + 1, len)],
                    self.a@[circ(j0, k as int, len)] is None,
                    forall|m: int| k < m < len
                        ==> (#[trigger] self.a@[circ(j0, m, len)]) == a0[circ(j0, m, len)],
                decreases self.n - k,
            {
                let src = circ_idx(self.j, k + 1, self.a.len());
                let dst = circ_idx(self.j, k, self.a.len());
                let mut tmp: Option<T> = None;
                self.a.set_and_swap(src, &mut tmp);
                self.a.set(dst, tmp);
                proof {
                    assert forall|m: int| k + 1 < m < len
                        implies (#[trigger] self.a@[circ(j0, m, len)]) == a0[circ(j0, m, len)] by {
                        assert(circ(j0, m, len) != circ(j0, k as int, len));
                        assert(circ(j0, m, len) != circ(j0, k + 1, len));
                    }
                    assert forall|m: int| 0 <= m < i
                        implies (#[trigger] self.a@[circ(j0, m, len)]) == a0[circ(j0, m, len)] by {
                        assert(circ(j0, m, len) != circ(j0, k as int, len));
                        assert(circ(j0, m, len) != circ(j0, k + 1, len));
                    }
                    assert forall|m: int| i <= m < k + 1
                        implies (#[trigger] self.a@[circ(j0, m, len)]) == a0[circ(j0, m + 1, len)] by {
                        if m < k {
                            assert(circ(j0, m, len) != circ(j0, k as int, len));
                            assert(circ(j0, m, len) != circ(j0, k + 1, len));
                        }
                    }
                }
                k += 1;
            }
            proof {
                assert forall|m: int| 0 <= m < v0.len() - 1
                    implies (#[trigger] self.a@[circ(j0, m, len)]) is Some
                        && self.a@[circ(j0, m, len)].unwrap()
                            == (if m < i { v0[m] } else { v0[m + 1] }) by {
                }
                assert forall|m: int| v0.len() - 1 <= m < len
                    implies (#[trigger] self.a@[circ(j0, m, len)]) is None by {
                }
            }
        }
        self.n -= 1;
        proof {
            assert(self@ =~= old(self)@.remove(i as int));
            vstd::arithmetic::div_mod::lemma_fundamental_div_mod(self.a@.len() as int, 3);
        }
        if self.n <= self.a.len() / 3 {
            self.resize();
        }
        x
    }
}

} // verus!
