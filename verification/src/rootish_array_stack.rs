use vstd::prelude::*;

use crate::array::{alloc_slots, Array};
use crate::List;

verus! {

/// The `k`-th triangular number: the total capacity of blocks `0..k`, whose
/// sizes are `1, 2, ..., k`.
pub open spec fn tri(k: int) -> int
    decreases k,
{
    if k <= 0 {
        0
    } else {
        k + tri(k - 1)
    }
}

/// The shrink threshold for a stack of `r` blocks: the capacity of the first
/// `r - 2` blocks. The stack keeps strictly more elements than this, so at
/// most two blocks (plus a partial one) are ever empty.
pub open spec fn lowcap(r: int) -> int {
    if r <= 2 {
        0
    } else {
        tri(r - 2)
    }
}

/// The slots of all blocks, laid end to end in block order.
pub open spec fn flat<T>(bs: Seq<Vec<Option<T>>>) -> Seq<Option<T>>
    decreases bs.len(),
{
    if bs.len() == 0 {
        Seq::empty()
    } else {
        flat(bs.drop_last()) + bs.last()@
    }
}

/// Twice a triangular number has the familiar closed form.
proof fn lemma_tri_closed(k: int)
    requires
        k >= 0,
    ensures
        2 * tri(k) == k * (k + 1),
    decreases k,
{
    if k > 0 {
        lemma_tri_closed(k - 1);
        assert(tri(k) == k + tri(k - 1));
        assert(2 * k + (k - 1) * k == k * (k + 1)) by (nonlinear_arith);
    } else {
        assert(tri(0) == 0);
    }
}

/// A size below a sixteenth of the address space, sixteen times over.
proof fn lemma_sixteenth(n: int)
    requires
        0 <= n <= usize::MAX / 16,
    ensures
        16 * n <= usize::MAX,
{
    vstd::arithmetic::div_mod::lemma_fundamental_div_mod(usize::MAX as int, 16);
}

/// Under the shrink discipline the blocks hold little beyond the elements:
/// the capacity exceeds `n` by less than two blocks' worth, and the block
/// count stays within `n + 2`.
proof fn lemma_cap_bound(r: int, n: int)
    requires
        r >= 0,
        n >= 0,
        r == 0 || n > lowcap(r),
    ensures
        tri(r) <= n + 2 * r,
        r <= n + 2,
{
    assert(tri(0) == 0);
    assert(tri(1) == 1);
    assert(tri(2) == 3);
    if r >= 3 {
        assert(tri(r) == r + tri(r - 1));
        assert(tri(r - 1) == r - 1 + tri(r - 2));
        lemma_tri_lb(r - 2);
    }
}

/// Triangular numbers grow monotonically.
proof fn lemma_tri_mono(a: int, b: int)
    requires
        0 <= a <= b,
    ensures
        tri(a) <= tri(b),
    decreases b,
{
    if a < b {
        lemma_tri_mono(a, b - 1);
    }
}

/// A triangular number dominates its index.
proof fn lemma_tri_lb(k: int)
    requires
        k >= 0,
    ensures
        tri(k) >= k,
    decreases k,
{
    if k > 0 {
        lemma_tri_lb(k - 1);
    }
}

/// With blocks of sizes `1, 2, ..., r`, the flattened slots number `tri(r)`.
proof fn lemma_flat_len<T>(bs: Seq<Vec<Option<T>>>)
    requires
        forall|k: int| 0 <= k < bs.len() ==> (#[trigger] bs[k]@.len()) == k + 1,
    ensures
        flat(bs).len() == tri(bs.len() as int),
    decreases bs.len(),
{
    if bs.len() > 0 {
        lemma_flat_len(bs.drop_last());
    }
}

/// Slot `off` of block `b` is position `tri(b) + off` of the flattened slots.
proof fn lemma_flat_index<T>(bs: Seq<Vec<Option<T>>>, b: int, off: int)
    requires
        forall|k: int| 0 <= k < bs.len() ==> (#[trigger] bs[k]@.len()) == k + 1,
        0 <= b < bs.len(),
        0 <= off < b + 1,
    ensures
        0 <= tri(b) + off < flat(bs).len(),
        flat(bs)[tri(b) + off] == bs[b]@[off],
    decreases bs.len(),
{
    lemma_flat_len(bs);
    let dl = bs.drop_last();
    lemma_flat_len(dl);
    if b == bs.len() - 1 {
        assert(flat(bs)[tri(b) + off] == bs.last()@[off]);
    } else {
        lemma_flat_index(dl, b, off);
        lemma_tri_mono(b + 1, bs.len() - 1);
        assert(tri(b) + off < tri(b + 1));
    }
}

/// Replacing one slot of one block updates exactly the matching position of
/// the flattened slots.
proof fn lemma_flat_update<T>(bs: Seq<Vec<Option<T>>>, b: int, off: int, nb: Vec<Option<T>>)
    requires
        forall|k: int| 0 <= k < bs.len() ==> (#[trigger] bs[k]@.len()) == k + 1,
        0 <= b < bs.len(),
        0 <= off < b + 1,
        nb@ == bs[b]@.update(off, nb@[off]),
    ensures
        flat(bs.update(b, nb)) == flat(bs).update(tri(b) + off, nb@[off]),
    decreases bs.len(),
{
    lemma_flat_len(bs);
    lemma_flat_index(bs, b, off);
    let up = bs.update(b, nb);
    let dl = bs.drop_last();
    lemma_flat_len(dl);
    if b == bs.len() - 1 {
        assert(up.drop_last() =~= dl);
        assert(flat(up) == flat(dl) + nb@);
        assert(flat(dl) + nb@ =~= (flat(dl) + bs.last()@).update(tri(b) + off, nb@[off]));
    } else {
        assert(up.drop_last() =~= dl.update(b, nb));
        lemma_flat_update(dl, b, off, nb);
        lemma_tri_mono(b + 1, bs.len() - 1);
        assert(tri(b) + off < tri(b + 1));
        assert(flat(up) == flat(dl).update(tri(b) + off, nb@[off]) + up.last()@);
        assert(up.last() == bs.last());
        assert(flat(dl).update(tri(b) + off, nb@[off]) + bs.last()@
            =~= (flat(dl) + bs.last()@).update(tri(b) + off, nb@[off]));
    }
}

/// Appending a block appends its slots to the flattened slots.
proof fn lemma_flat_push<T>(bs: Seq<Vec<Option<T>>>, nb: Vec<Option<T>>)
    ensures
        flat(bs.push(nb)) == flat(bs) + nb@,
{
    assert(bs.push(nb).drop_last() =~= bs);
    assert(bs.push(nb).last() == nb);
}

/// `k * (k + 1) / 2`, the capacity of the first `k` blocks.
fn tri_val(k: usize) -> (r: usize)
    requires
        k * (k + 1) <= usize::MAX,
    ensures
        r == tri(k as int),
{
    proof {
        lemma_tri_closed(k as int);
        assert(k >= 1 ==> k + 1 <= k * (k + 1)) by (nonlinear_arith);
    }
    k * (k + 1) / 2
}

/// A list in blocks of sizes `1, 2, ..., r`: logical position `i` lives at
/// offset `i - tri(b)` of block `b`, where `tri(b) <= i < tri(b + 1)`. The
/// block list grows by one block when full and drops trailing blocks once two
/// whole blocks are spare, so the unused capacity stays within O(sqrt(n))
/// instead of the O(n) a single flat array can waste.
pub struct RootishArrayStack<T> {
    blocks: Array<Vec<Option<T>>>,
    n: usize,
}

impl<T> View for RootishArrayStack<T> {
    type V = Seq<T>;

    closed spec fn view(&self) -> Seq<T> {
        Seq::new(self.n as nat, |k: int| flat(self.blocks@)[k].unwrap())
    }
}

impl<T> RootishArrayStack<T> {
    /// The number of blocks.
    pub closed spec fn blocks_len(&self) -> int {
        self.blocks@.len() as int
    }

    /// The total slot capacity of the blocks.
    pub closed spec fn bcap(&self) -> int {
        tri(self.blocks_len())
    }

    /// The block list is well formed and block `k` has exactly `k + 1` slots.
    pub closed spec fn blocks_ok(&self) -> bool {
        &&& self.blocks.inv()
        &&& forall|k: int| 0 <= k < self.blocks@.len() ==> (#[trigger] self.blocks@[k]@.len()) == k
            + 1
    }

    /// Well-formedness: the blocks cover the `n` elements, at most two whole
    /// blocks are spare, and the first `n` flattened slots are exactly the
    /// full ones.
    pub closed spec fn inv(&self) -> bool {
        &&& self.blocks_ok()
        &&& self.n <= self.bcap()
        &&& self.blocks_len() == 0 || self.n > lowcap(self.blocks_len())
        &&& self.n <= usize::MAX / 16
        &&& forall|p: int| 0 <= p < self.bcap()
            ==> ((#[trigger] flat(self.blocks@)[p]) is Some <==> p < self.n)
    }

    /// An empty stack with room for one block.
    pub fn new() -> (r: Self)
        ensures
            r.inv(),
            r@ == Seq::<T>::empty(),
    {
        let r = Self { blocks: Array::new(1), n: 0 };
        proof {
            assert(r@ =~= Seq::<T>::empty());
        }
        r
    }

    /// The block holding logical position `i`: the least `b` with
    /// `i < tri(b + 1)`, found by walking the block capacities upward.
    fn i2b(&self, i: usize) -> (b: usize)
        requires
            i <= usize::MAX / 16,
        ensures
            tri(b as int) <= i < tri(b as int + 1),
            b <= i,
    {
        let mut b: usize = 0;
        let mut t: usize = 1;
        proof {
            assert(tri(0) == 0);
            assert(tri(1) == 1);
        }
        while t <= i
            invariant
                i <= usize::MAX / 16,
                t == tri(b as int + 1),
                tri(b as int) <= i,
                b <= i,
            decreases i - b,
        {
            proof {
                lemma_tri_lb(b as int + 1);
            }
            b += 1;
            t += b + 1;
        }
        b
    }

}

impl<T: Copy> RootishArrayStack<T> {
    /// Reads the slot at flattened position `i`.
    fn slot_load(&self, i: usize) -> (r: Option<T>)
        requires
            self.blocks_ok(),
            i < self.bcap(),
            i <= usize::MAX / 16,
        ensures
            r == flat(self.blocks@)[i as int],
    {
        let b = self.i2b(i);
        proof {
            lemma_tri_closed(b as int);
            if b as int + 1 > self.blocks@.len() {
                lemma_tri_mono(self.blocks@.len() as int, b as int);
            }
        }
        let tb = tri_val(b);
        let off = i - tb;
        proof {
            lemma_flat_index(self.blocks@, b as int, off as int);
        }
        let blk = self.blocks.get_ref(b);
        blk[off]
    }
}

impl<T> RootishArrayStack<T> {
    /// Replaces the slot at flattened position `i`, returning its previous
    /// contents.
    fn slot_store(&mut self, i: usize, v: Option<T>) -> (r: Option<T>)
        requires
            old(self).blocks_ok(),
            i < old(self).bcap(),
            i <= usize::MAX / 16,
        ensures
            final(self).blocks_ok(),
            final(self).blocks@.len() == old(self).blocks@.len(),
            final(self).n == old(self).n,
            flat(final(self).blocks@) == flat(old(self).blocks@).update(i as int, v),
            r == flat(old(self).blocks@)[i as int],
    {
        let b = self.i2b(i);
        proof {
            lemma_tri_closed(b as int);
            if b as int + 1 > self.blocks@.len() {
                lemma_tri_mono(self.blocks@.len() as int, b as int);
            }
        }
        let tb = tri_val(b);
        let off = i - tb;
        proof {
            lemma_flat_index(self.blocks@, b as int, off as int);
        }
        let mut blk: Vec<Option<T>> = Vec::new();
        self.blocks.swap_at(b, &mut blk);
        let mut slot = v;
        blk.set_and_swap(off, &mut slot);
        self.blocks.swap_at(b, &mut blk);
        proof {
            assert(self.blocks@ =~= old(self).blocks@.update(b as int, self.blocks@[b as int]));
            lemma_flat_update(
                old(self).blocks@,
                b as int,
                off as int,
                self.blocks@[b as int],
            );
        }
        slot
    }

    /// Appends one empty block of the next size.
    fn grow(&mut self)
        requires
            old(self).blocks_ok(),
            old(self).n <= usize::MAX / 16,
            old(self).blocks_len() <= old(self).n + 2,
        ensures
            final(self).blocks_ok(),
            final(self).blocks@.len() == old(self).blocks@.len() + 1,
            final(self).n == old(self).n,
            flat(old(self).blocks@) == flat(final(self).blocks@).take(tri(old(self).blocks_len())),
            forall|p: int| tri(old(self).blocks_len()) <= p < tri(final(self).blocks_len())
                ==> (#[trigger] flat(final(self).blocks@)[p]) is None,
    {
        let r = self.blocks.size();
        let block = alloc_slots(r + 1);
        proof {
            lemma_flat_len(self.blocks@);
            lemma_flat_push(self.blocks@, block);
        }
        self.blocks.push(block);
        proof {
            lemma_flat_len(old(self).blocks@);
            assert(flat(old(self).blocks@)
                =~= flat(self.blocks@).take(tri(old(self).blocks_len())));
        }
    }

    /// Whether the trailing block is dispensable: the elements would still
    /// leave the capacity of all but the last two blocks unfilled.
    fn drop_needed(&self) -> (c: bool)
        requires
            self.blocks_ok(),
            2 * self.bcap() <= usize::MAX,
        ensures
            c == (self.blocks_len() > 0 && self.n <= lowcap(self.blocks_len())),
    {
        let r = self.blocks.size();
        if r == 0 {
            return false;
        }
        if r <= 2 {
            return self.n == 0;
        }
        proof {
            lemma_tri_closed(r as int - 2);
            lemma_tri_mono(r as int - 2, r as int);
            lemma_tri_lb(r as int - 2);
        }
        let lc = tri_val(r - 2);
        self.n <= lc
    }

    /// Drops trailing blocks while the elements fit with two whole blocks to
    /// spare, so the unused capacity stays bounded.
    fn shrink(&mut self)
        requires
            old(self).blocks_ok(),
            old(self).n <= old(self).bcap(),
            old(self).n <= usize::MAX / 16,
            2 * old(self).bcap() <= usize::MAX,
            forall|p: int| 0 <= p < old(self).bcap()
                ==> ((#[trigger] flat(old(self).blocks@)[p]) is Some <==> p < old(self).n),
        ensures
            final(self).inv(),
            final(self).n == old(self).n,
            final(self)@ == old(self)@,
    {
        let ghost f0 = flat(old(self).blocks@);
        while self.drop_needed()
            invariant
                self.blocks_ok(),
                self.n == old(self).n,
                self.n <= self.bcap(),
                self.n <= usize::MAX / 16,
                2 * self.bcap() <= usize::MAX,
                self.blocks_len() <= old(self).blocks_len(),
                forall|p: int| 0 <= p < self.bcap()
                    ==> (#[trigger] flat(self.blocks@)[p]) == f0[p],
                forall|p: int| 0 <= p < self.bcap()
                    ==> ((#[trigger] flat(self.blocks@)[p]) is Some <==> p < self.n),
            decreases self.blocks@.len(),
        {
            proof {
                let bs = self.blocks@;
                let r = self.blocks_len();
                lemma_flat_len(bs);
                lemma_flat_len(bs.drop_last());
                if r >= 2 {
                    lemma_tri_mono(r - 2, r - 1);
                }
                lemma_tri_lb(r - 1);
                lemma_tri_mono(r - 1, r);
                assert(tri(0) == 0);
                assert(tri(1) == 1);
                assert forall|p: int| 0 <= p < tri(r - 1)
                    implies (#[trigger] flat(bs.drop_last())[p]) == flat(bs)[p] by {
                    assert(flat(bs) == flat(bs.drop_last()) + bs.last()@);
                }
            }
            let popped = self.blocks.pop();
            proof {
                assert(popped is Some);
            }
        }
        proof {
            lemma_flat_len(self.blocks@);
            assert(self@ =~= old(self)@);
        }
    }
}

/// The memory bound of the rootish stack: the blocks always have capacity
/// for every element, and the unused capacity is O(sqrt(n)) — its square
/// stays within a constant multiple of the element count.
pub proof fn lemma_memory_bound<T>(s: &RootishArrayStack<T>)
    requires
        s.inv(),
    ensures
        s@.len() <= s.bcap(),
        (s.bcap() - s@.len()) * (s.bcap() - s@.len()) <= 25 * (s@.len() + 1),
{
    let r = s.blocks_len();
    let n = s@.len() as int;
    let w = s.bcap() - n;
    assert(tri(0) == 0);
    assert(tri(1) == 1);
    assert(tri(2) == 3);
    if r >= 3 {
        assert(tri(r) == r + tri(r - 1));
        assert(tri(r - 1) == r - 1 + tri(r - 2));
        assert(w <= 2 * r - 2);
        assert(2 * n >= (r - 2) * (r - 1) + 2) by {
            lemma_tri_closed(r - 2);
        }
        assert(w * w <= 25 * (n + 1)) by (nonlinear_arith)
            requires
                0 <= w <= 2 * r - 2,
                2 * n >= (r - 2) * (r - 1) + 2,
                r >= 3,
        ;
    } else {
        assert(w * w <= 25 * (n + 1)) by (nonlinear_arith)
            requires
                0 <= w <= 3,
                n >= 0,
        ;
    }
}

impl<T: Copy> List<T> for RootishArrayStack<T> {
    open spec fn elems(&self) -> Seq<T> {
        self@
    }

    open spec fn wf(&self) -> bool {
        self.inv()
    }

    fn size(&self) -> (n: usize) {
        self.n
    }

    fn get(&self, i: usize) -> (r: Option<T>) {
        if i >= self.n {
            return None;
        }
        self.slot_load(i)
    }

    fn set(&mut self, i: usize, x: T) -> (r: Option<T>) {
        if i >= self.n {
            return None;
        }
        let y = self.slot_store(i, Some(x));
        proof {
            lemma_flat_len(old(self).blocks@);
            assert(self@ =~= old(self)@.update(i as int, x));
        }
        y
    }

    #[verifier::rlimit(50)]
    fn add(&mut self, i: usize, x: T) {
        proof {
            lemma_sixteenth(self.n as int);
            lemma_cap_bound(self.blocks_len(), self.n as int);
            lemma_tri_closed(self.blocks_len());
        }
        let r = self.blocks.size();
        let cap = tri_val(r);
        if cap < self.n + 1 {
            self.grow();
        }
        proof {
            lemma_tri_mono(old(self).blocks_len(), self.blocks_len());
        }
        let ghost f0 = flat(self.blocks@);
        let ghost v0 = old(self)@;
        let ghost rn = self.blocks_len();
        proof {
            lemma_flat_len(self.blocks@);
            assert forall|p: int| 0 <= p < tri(rn)
                implies ((#[trigger] f0[p]) is Some <==> p < self.n) by {
                if self.blocks@.len() > old(self).blocks@.len() {
                    if p < tri(old(self).blocks_len()) {
                        assert(f0[p] == flat(old(self).blocks@)[p]);
                    }
                }
            }
        }
        let mut k: usize = self.n;
        while k > i
            invariant
                i <= k <= self.n,
                self.n == v0.len(),
                self.n + 1 <= tri(rn),
                self.n < usize::MAX / 16,
                rn == self.blocks_len(),
                self.blocks_ok(),
                f0.len() == tri(rn),
                flat(self.blocks@).len() == f0.len(),
                forall|p: int| 0 <= p < tri(rn) ==> ((#[trigger] f0[p]) is Some <==> p < self.n),
                forall|m: int| 0 <= m <= k ==> (#[trigger] flat(self.blocks@)[m]) == f0[m],
                forall|m: int| k < m <= self.n
                    ==> (#[trigger] flat(self.blocks@)[m]) == f0[m - 1],
                forall|m: int| self.n < m < f0.len()
                    ==> (#[trigger] flat(self.blocks@)[m]) == f0[m],
            decreases k,
        {
            proof {
                lemma_flat_len(self.blocks@);
            }
            let v = self.slot_load(k - 1);
            self.slot_store(k, v);
            k -= 1;
        }
        proof {
            lemma_flat_len(self.blocks@);
        }
        self.slot_store(i, Some(x));
        self.n += 1;
        proof {
            if old(self).blocks_len() >= 2 {
                lemma_tri_mono(old(self).blocks_len() - 1, old(self).blocks_len());
            }
            assert forall|p: int| 0 <= p < tri(rn)
                implies ((#[trigger] flat(self.blocks@)[p]) is Some <==> p < self.n) by {
                if p < i {
                    assert(flat(self.blocks@)[p] == f0[p]);
                } else if p > i && p < self.n {
                    assert(flat(self.blocks@)[p] == f0[p - 1]);
                } else if p >= self.n {
                    assert(flat(self.blocks@)[p] == f0[p]);
                }
            }
            assert(self@ =~= old(self)@.insert(i as int, x));
        }
    }

    #[verifier::rlimit(50)]
    fn remove(&mut self, i: usize) -> (r: Option<T>) {
        if i >= self.n {
            return None;
        }
        proof {
            lemma_sixteenth(self.n as int);
            lemma_cap_bound(self.blocks_len(), self.n as int);
            lemma_tri_closed(self.blocks_len());
            lemma_flat_len(self.blocks@);
        }
        let ghost f0 = flat(self.blocks@);
        let ghost v0 = old(self)@;
        let ghost rn = self.blocks_len();
        let x = self.slot_load(i);
        let mut k: usize = i;
        while k < self.n - 1
            invariant
                i <= k <= self.n - 1,
                i < self.n,
                self.n == v0.len(),
                self.n <= tri(rn),
                self.n <= usize::MAX / 16,
                rn == self.blocks_len(),
                self.blocks_ok(),
                f0.len() == tri(rn),
                flat(self.blocks@).len() == f0.len(),
                2 * tri(rn) <= usize::MAX,
                forall|p: int| 0 <= p < tri(rn) ==> ((#[trigger] f0[p]) is Some <==> p < self.n),
                x == f0[i as int],
                forall|m: int| 0 <= m < i ==> (#[trigger] flat(self.blocks@)[m]) == f0[m],
                forall|m: int| i <= m < k
                    ==> (#[trigger] flat(self.blocks@)[m]) == f0[m + 1],
                forall|m: int| k <= m < f0.len()
                    ==> (#[trigger] flat(self.blocks@)[m]) == f0[m],
            decreases self.n - k,
        {
            proof {
                lemma_flat_len(self.blocks@);
            }
            let v = self.slot_load(k + 1);
            self.slot_store(k, v);
            k += 1;
        }
        proof {
            lemma_flat_len(self.blocks@);
        }
        self.slot_store(self.n - 1, None);
        self.n -= 1;
        proof {
            assert forall|p: int| 0 <= p < tri(rn)
                implies ((#[trigger] flat(self.blocks@)[p]) is Some <==> p < self.n) by {
                if p < i {
                    assert(flat(self.blocks@)[p] == f0[p]);
                } else if p < self.n {
                    assert(flat(self.blocks@)[p] == f0[p + 1]);
                } else if p > self.n {
                    assert(flat(self.blocks@)[p] == f0[p]);
                }
            }
            assert(self@ =~= old(self)@.remove(i as int));
            assert(tri(0) == 0);
            assert(tri(1) == 1);
            assert(tri(2) == 3);
        }
        let r = self.blocks.size();
        let drop_wanted = if r <= 2 {
            true
        } else {
            proof {
                lemma_tri_closed(rn - 2);
                lemma_tri_mono(rn - 2, rn);
            }
            let lc = tri_val(r - 2);
            lc <= self.n
        };
        if drop_wanted {
            self.shrink();
        }
        x
    }
}

impl<T> Default for RootishArrayStack<T> {
    /// The same empty stack `new` returns.
    fn default() -> (r: Self)
        ensures
            r.inv(),
            r@ == Seq::<T>::empty(),
    {
        Self::new()
    }
}

} // verus!
