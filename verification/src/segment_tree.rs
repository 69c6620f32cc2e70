use vstd::prelude::*;

use crate::monoid::{Monoid, seq_fold, lemma_fold_split};

verus! {

/// The failure reported by an indexed operation whose position or range
/// does not fit inside the tree's capacity.
#[derive(Clone, Copy, Debug, PartialEq, Eq, Structural)]
pub enum SegTreeError {
    OutOfRange,
}

/// Whether `n` is a power of two.
pub open spec fn is_pow2(n: int) -> bool
    decreases n,
{
    if n <= 0 {
        false
    } else if n == 1 {
        true
    } else {
        n % 2 == 0 && is_pow2(n / 2)
    }
}

/// Whether node `a` equals node `b` or is one of its ancestors in the
/// heap layout, where the parent of node `b` is node `b / 2`.
pub open spec fn is_anc(a: int, b: int) -> bool
    decreases b,
{
    if b < 1 || a < 1 {
        false
    } else if a == b {
        true
    } else {
        is_anc(a, b / 2)
    }
}

/// An array-backed segment tree over the monoid `M`: point reads and
/// writes, and range aggregation over `[0, capacity)` in logarithmic time.
///
/// `tree` is a complete binary tree in the conventional 1-indexed heap
/// layout: index 0 is unused, indices `[1, size)` are internal nodes and
/// indices `[size, 2*size)` are the leaves; node `i`'s children are `2*i`
/// and `2*i + 1`. `size` is the capacity: a power of two, or zero for an
/// empty tree.
pub struct SegmentTree<M: Monoid> {
    pub size: usize,
    pub tree: Vec<M::S>,
}

impl<M: Monoid> SegmentTree<M> {
    /// The model of the element stored at index `i`.
    pub open spec fn node(&self, i: int) -> M::V {
        M::view_of(self.tree@[i])
    }

    /// The models of the leaves, in index order.
    pub open spec fn leaves(&self) -> Seq<M::V> {
        Seq::new(self.size as nat, |j: int| self.node(self.size as int + j))
    }

    /// Internal node `i` holds the combination of its two children.
    pub open spec fn node_consistent(&self, i: int) -> bool {
        self.node(i) == M::spec_op(self.node(2 * i), self.node(2 * i + 1))
    }

    /// The storage has the right shape: the capacity is a power of two or
    /// zero, and the storage holds twice the capacity.
    pub open spec fn shape_wf(&self) -> bool {
        &&& self.size == 0 || is_pow2(self.size as int)
        &&& self.tree@.len() == 2 * self.size
    }

    /// Well-formed: the right shape, and every internal node holds the
    /// combination of its two children.
    pub open spec fn wf(&self) -> bool {
        &&& self.shape_wf()
        &&& forall|i: int| 1 <= i < self.size ==> self.node_consistent(i)
    }

    /// The aggregate of the leaf range `[l, r)`, combined left to right.
    pub open spec fn spec_prod(&self, l: int, r: int) -> M::V {
        seq_fold::<M>(self.leaves(), l, r)
    }

    /// The whole-range aggregate as stored: the root's value, or the
    /// identity when the capacity is zero.
    pub open spec fn spec_all_prod(&self) -> M::V {
        if self.size == 0 {
            M::spec_id()
        } else {
            self.node(1)
        }
    }

    /// In a well-formed tree, node `i` covering `w` leaves holds the
    /// aggregate of the leaf range it covers.
    pub proof fn lemma_node_prod(&self, i: int, w: int)
        requires
            self.wf(),
            1 <= w,
            is_pow2(w),
            1 <= i,
            self.size <= i * w,
            (i + 1) * w <= 2 * self.size,
        ensures
            self.node(i) == seq_fold::<M>(
                self.leaves(),
                i * w - self.size,
                (i + 1) * w - self.size,
            ),
        decreases w,
    {
        let s = self.size as int;
        let lo = i * w - s;
        let hi = (i + 1) * w - s;
        assert((i + 1) * w == i * w + w) by (nonlinear_arith);
        if w == 1 {
            assert(i * 1 == i && (i + 1) * 1 == i + 1) by (nonlinear_arith);
            assert(s <= i < 2 * s);
            assert(0 <= lo < s);
            assert(self.leaves()[lo] == self.node(s + lo));
            assert(self.leaves()[lo] == self.node(i));
            assert(seq_fold::<M>(self.leaves(), lo + 1, lo + 1) == M::spec_id());
            M::lemma_identity(self.leaves()[lo]);
        } else {
            let h = w / 2;
            assert(w % 2 == 0 && is_pow2(h) && h >= 1 && w == 2 * h);
            assert(2 * s >= (i + 1) * w >= 2 * w >= 4) by (nonlinear_arith)
                requires
                    i >= 1,
                    w >= 2,
                    (i + 1) * w <= 2 * s,
            ;
            assert(i < s) by (nonlinear_arith)
                requires
                    i >= 1,
                    w >= 2,
                    s >= 1,
                    i * w + w <= 2 * s,
            ;
            assert((2 * i) * h == i * w && (2 * i + 1) * h == i * w + h && (2 * i + 2) * h == i * w
                + w) by (nonlinear_arith)
                requires
                    w == 2 * h,
            ;
            self.lemma_node_prod(2 * i, h);
            self.lemma_node_prod(2 * i + 1, h);
            lemma_fold_split::<M>(self.leaves(), lo, lo + h, hi);
            assert(self.node_consistent(i));
        }
    }

    /// The whole-range aggregate agrees with the range aggregate over the
    /// entire leaf range `[0, capacity)`.
    pub proof fn lemma_all_prod_agreement(&self)
        requires
            self.wf(),
        ensures
            self.spec_all_prod() == self.spec_prod(0, self.size as int),
    {
        if self.size > 0 {
            self.lemma_node_prod(1, self.size as int);
        }
    }

    /// An empty range aggregates to the identity.
    pub proof fn lemma_empty_range(&self, k: int)
        ensures
            self.spec_prod(k, k) == M::spec_id(),
    {
    }

    /// Creates a tree whose capacity is the smallest power of two at least
    /// `n` (zero when `n` is zero), with every slot the identity.
    pub fn new(n: usize) -> (t: Self)
        requires
            n <= usize::MAX / 4,
        ensures
            t.wf(),
            n == 0 ==> t.size == 0,
            n > 0 ==> is_pow2(t.size as int) && n <= t.size && t.size < 2 * n,
            forall|j: int| 0 <= j < t.size ==> t.leaves()[j] == M::spec_id(),
    {
        let mut size: usize = 0;
        if n > 0 {
            size = 1;
            while size < n
                invariant
                    n <= usize::MAX / 4,
                    1 <= size,
                    is_pow2(size as int),
                    size < 2 * n,
                decreases 2 * n - size,
            {
                size = size * 2;
            }
        }
        let total: usize = 2 * size;
        let mut tree: Vec<M::S> = Vec::new();
        while tree.len() < total
            invariant
                tree@.len() <= total,
                forall|k: int| 0 <= k < tree@.len() ==> M::view_of(tree@[k]) == M::spec_id(),
            decreases total - tree@.len(),
        {
            tree.push(M::id());
        }
        let t = SegmentTree { size, tree };
        proof {
            M::lemma_identity(M::spec_id());
            assert forall|i: int| 1 <= i < t.size implies t.node_consistent(i) by {
                assert(M::view_of(t.tree@[i]) == M::spec_id());
                assert(M::view_of(t.tree@[2 * i]) == M::spec_id());
                assert(M::view_of(t.tree@[2 * i + 1]) == M::spec_id());
            }
        }
        t
    }

    /// Builds a tree whose first `values.len()` leaves hold the given
    /// values in order; the remaining leaves up to the capacity hold the
    /// identity. The capacity is the smallest power of two at least
    /// `values.len()`.
    ///
    /// The construction performs one point write per value, so it costs
    /// `O(n log n)`; a bottom-up pass would be linear but yields the same
    /// observable tree.
    pub fn from(values: Vec<M::S>) -> (t: Self)
        requires
            values@.len() <= usize::MAX / 4,
        ensures
            t.wf(),
            values@.len() == 0 ==> t.size == 0,
            values@.len() > 0 ==> is_pow2(t.size as int) && values@.len() <= t.size && t.size < 2
                * values@.len(),
            forall|j: int| 0 <= j < values@.len() ==> t.leaves()[j] == M::view_of(values@[j]),
            forall|j: int| values@.len() <= j < t.size ==> t.leaves()[j] == M::spec_id(),
    {
        let n = values.len();
        let mut t = Self::new(n);
        let mut i: usize = 0;
        while i < n
            invariant
                t.wf(),
                i <= n,
                n == values@.len(),
                n <= usize::MAX / 4,
                n == 0 ==> t.size == 0,
                n > 0 ==> is_pow2(t.size as int) && n <= t.size && t.size < 2 * n,
                forall|j: int| 0 <= j < i ==> t.leaves()[j] == M::view_of(values@[j]),
                forall|j: int| i <= j < t.size ==> t.leaves()[j] == M::spec_id(),
            decreases n - i,
        {
            let x = M::dup(&values[i]);
            let _ = t.set(i, x);
            i = i + 1;
        }
        t
    }

    /// Returns the leaf value at `pos`, or the out-of-range failure when
    /// `pos` is not below the capacity. Does not aggregate.
    pub fn get(&self, pos: usize) -> (r: Result<M::S, SegTreeError>)
        requires
            self.shape_wf(),
        ensures
            pos < self.size ==> (r matches Ok(x) && M::view_of(x) == self.leaves()[pos as int]),
            pos >= self.size ==> r matches Err(SegTreeError::OutOfRange),
    {
        if pos >= self.size {
            return Err(SegTreeError::OutOfRange);
        }
        proof {
            assert(self.tree.len() == self.tree@.len());
        }
        Ok(M::dup(&self.tree[self.size + pos]))
    }

    /// Recomputes internal node `pos` as the combination of its two
    /// children. The other slots are untouched.
    pub fn _update(&mut self, pos: usize)
        requires
            old(self).shape_wf(),
            1 <= pos < old(self).size,
        ensures
            final(self).size == old(self).size,
            final(self).tree@.len() == old(self).tree@.len(),
            forall|j: int|
                0 <= j < old(self).tree@.len() && j != pos ==> final(self).tree@[j] == old(
                    self,
                ).tree@[j],
            final(self).node(pos as int) == M::spec_op(
                old(self).node(2 * (pos as int)),
                old(self).node(2 * (pos as int) + 1),
            ),
    {
        proof {
            assert(self.tree.len() == self.tree@.len());
        }
        let val = M::bi_op(&self.tree[2 * pos], &self.tree[2 * pos + 1]);
        self.tree.set(pos, val);
    }

    /// Overwrites leaf `pos` with `x` and recomputes each ancestor, or
    /// reports out-of-range; on failure the tree is unchanged.
    pub fn set(&mut self, pos: usize, x: M::S) -> (r: Result<(), SegTreeError>)
        requires
            old(self).wf(),
        ensures
            pos < old(self).size ==> r is Ok,
            pos < old(self).size ==> final(self).wf(),
            pos < old(self).size ==> final(self).size == old(self).size,
            pos < old(self).size ==> final(self).leaves() == old(self).leaves().update(
                pos as int,
                M::view_of(x),
            ),
            pos >= old(self).size ==> r matches Err(SegTreeError::OutOfRange),
            pos >= old(self).size ==> *final(self) == *old(self),
    {
        if pos >= self.size {
            return Err(SegTreeError::OutOfRange);
        }
        let ghost orig = *self;
        let ghost xv: M::S = x;
        let ghost leaf: int = pos as int + self.size as int;
        proof {
            assert(self.tree.len() == self.tree@.len());
        }
        let mut p: usize = pos + self.size;
        self.tree.set(p, x);
        proof {
            assert forall|i: int| 1 <= i < self.size && !is_anc(i, p as int / 2) implies self
                .node_consistent(i) by {
                if i == leaf / 2 {
                    assert(is_anc(i, leaf / 2));
                } else {
                    assert(2 * i != leaf && 2 * i + 1 != leaf && i != leaf);
                    assert(self.node(i) == orig.node(i));
                    assert(self.node(2 * i) == orig.node(2 * i));
                    assert(self.node(2 * i + 1) == orig.node(2 * i + 1));
                    assert(orig.node_consistent(i));
                }
            }
        }
        while p / 2 > 0
            invariant
                self.shape_wf(),
                self.size == orig.size,
                orig.wf(),
                pos < self.size,
                leaf == pos as int + self.size as int,
                1 <= p < 2 * self.size,
                self.tree@.len() == 2 * self.size,
                self.tree@[leaf] == xv,
                forall|j: int|
                    self.size <= j < 2 * self.size && j != leaf ==> self.tree@[j] == orig.tree@[j],
                forall|i: int|
                    1 <= i < self.size && !is_anc(i, p as int / 2) ==> self.node_consistent(i),
            decreases p,
        {
            p = p / 2;
            let ghost before = *self;
            self._update(p);
            proof {
                assert forall|i: int| 1 <= i < self.size && !is_anc(i, p as int / 2) implies self
                    .node_consistent(i) by {
                    if i == p {
                        assert(self.node(2 * i) == before.node(2 * i));
                        assert(self.node(2 * i + 1) == before.node(2 * i + 1));
                    } else if i == p as int / 2 {
                        assert(is_anc(i, p as int / 2));
                    } else {
                        assert(is_anc(i, p as int) == (i == p || is_anc(i, p as int / 2)));
                        assert(before.node_consistent(i));
                        assert(2 * i != p && 2 * i + 1 != p && i != p);
                        assert(self.node(i) == before.node(i));
                        assert(self.node(2 * i) == before.node(2 * i));
                        assert(self.node(2 * i + 1) == before.node(2 * i + 1));
                    }
                }
            }
        }
        proof {
            assert forall|i: int| 1 <= i < self.size implies self.node_consistent(i) by {
                assert(!is_anc(i, p as int / 2));
            }
            assert(self.leaves() =~= orig.leaves().update(pos as int, M::view_of(xv)));
        }
        Ok(())
    }

    /// Folds `x` onto the leaf at `pos` with the existing value as the
    /// left operand, or reports out-of-range; on failure the tree is
    /// unchanged.
    pub fn apply(&mut self, pos: usize, x: M::S) -> (r: Result<(), SegTreeError>)
        requires
            old(self).wf(),
        ensures
            pos < old(self).size ==> r is Ok,
            pos < old(self).size ==> final(self).wf(),
            pos < old(self).size ==> final(self).size == old(self).size,
            pos < old(self).size ==> final(self).leaves() == old(self).leaves().update(
                pos as int,
                M::spec_op(old(self).leaves()[pos as int], M::view_of(x)),
            ),
            pos >= old(self).size ==> r matches Err(SegTreeError::OutOfRange),
            pos >= old(self).size ==> *final(self) == *old(self),
    {
        if pos >= self.size {
            return Err(SegTreeError::OutOfRange);
        }
        proof {
            assert(self.tree.len() == self.tree@.len());
        }
        let val = M::bi_op(&self.tree[self.size + pos], &x);
        proof {
            assert(old(self).leaves()[pos as int] == self.node(self.size as int + pos as int));
        }
        self.set(pos, val)
    }

    /// Returns the aggregate of the leaf range `[left, right)`, combined
    /// left to right, or the out-of-range failure when `right` exceeds the
    /// capacity or `left` exceeds `right`. An empty range yields the
    /// identity.
    pub fn prod(&self, left: usize, right: usize) -> (r: Result<M::S, SegTreeError>)
        requires
            self.wf(),
        ensures
            left <= right <= self.size ==> (r matches Ok(x) && M::view_of(x) == self.spec_prod(
                left as int,
                right as int,
            )),
            !(left <= right <= self.size) ==> r matches Err(SegTreeError::OutOfRange),
    {
        if right > self.size || left > right {
            return Err(SegTreeError::OutOfRange);
        }
        proof {
            assert(self.tree.len() == self.tree@.len());
        }
        let ghost l0: int = left as int;
        let ghost r0: int = right as int;
        let ghost sz: int = self.size as int;
        let mut l: usize = left + self.size;
        let mut rt: usize = right + self.size;
        let mut lacc = M::id();
        let mut racc = M::id();
        let ghost mut w: int = 1;
        proof {
            assert((l as int) * 1 == l as int && (rt as int) * 1 == rt as int) by (nonlinear_arith);
        }
        while l < rt
            invariant
                self.wf(),
                sz == self.size as int,
                self.tree@.len() == 2 * sz,
                1 <= w,
                is_pow2(w),
                l <= rt,
                0 <= l0,
                r0 <= sz,
                sz <= l * w,
                rt * w <= 2 * sz,
                l0 <= l * w - sz,
                rt * w - sz <= r0,
                M::view_of(lacc) == seq_fold::<M>(self.leaves(), l0, l * w - sz),
                M::view_of(racc) == seq_fold::<M>(self.leaves(), rt * w - sz, r0),
            decreases rt - l,
        {
            let ghost li: int = l as int;
            let ghost ri: int = rt as int;
            proof {
                assert(1 <= sz && 1 <= li && li < 2 * sz && ri <= 2 * sz) by (nonlinear_arith)
                    requires
                        1 <= w,
                        0 <= li,
                        li < ri,
                        sz <= li * w,
                        ri * w <= 2 * sz,
                ;
            }
            if l % 2 == 1 {
                proof {
                    assert((li + 1) * w == li * w + w) by (nonlinear_arith);
                    assert((li + 1) * w <= ri * w) by (nonlinear_arith)
                        requires
                            1 <= w,
                            li + 1 <= ri,
                    ;
                    self.lemma_node_prod(li, w);
                    lemma_fold_split::<M>(self.leaves(), l0, li * w - sz, li * w + w - sz);
                }
                lacc = M::bi_op(&lacc, &self.tree[l]);
                l = l + 1;
            }
            if rt % 2 == 1 {
                proof {
                    let qi: int = ri - 1;
                    assert(l as int <= qi);
                    assert(qi * w == ri * w - w) by (nonlinear_arith)
                        requires
                            qi == ri - 1,
                    ;
                    assert(li * w <= qi * w) by (nonlinear_arith)
                        requires
                            1 <= w,
                            li <= qi,
                    ;
                    assert(1 <= qi) by (nonlinear_arith)
                        requires
                            1 <= w,
                            1 <= sz,
                            sz <= qi * w,
                    ;
                    self.lemma_node_prod(qi, w);
                    lemma_fold_split::<M>(self.leaves(), ri * w - w - sz, ri * w - sz, r0);
                }
                rt = rt - 1;
                racc = M::bi_op(&self.tree[rt], &racc);
            }
            proof {
                let lh: int = l as int / 2;
                let rh: int = rt as int / 2;
                assert(l % 2 == 0 && rt % 2 == 0 && l <= rt);
                assert(l as int == 2 * lh && rt as int == 2 * rh);
                assert(lh * (2 * w) == l as int * w) by (nonlinear_arith)
                    requires
                        l as int == 2 * lh,
                ;
                assert(rh * (2 * w) == rt as int * w) by (nonlinear_arith)
                    requires
                        rt as int == 2 * rh,
                ;
                assert(is_pow2(2 * w));
            }
            l = l / 2;
            rt = rt / 2;
            proof {
                w = 2 * w;
            }
        }
        proof {
            assert(l as int * w == rt as int * w);
            lemma_fold_split::<M>(self.leaves(), l0, l as int * w - sz, r0);
        }
        Ok(M::bi_op(&lacc, &racc))
    }

    /// Returns the aggregate of all leaves: the root's value, or the
    /// identity when the capacity is zero. Agrees with `prod` over the
    /// whole range.
    pub fn all_prod(&self) -> (r: M::S)
        requires
            self.wf(),
        ensures
            M::view_of(r) == self.spec_all_prod(),
            M::view_of(r) == self.spec_prod(0, self.size as int),
    {
        proof {
            self.lemma_all_prod_agreement();
        }
        if self.size == 0 {
            M::id()
        } else {
            M::dup(&self.tree[1])
        }
    }
}

} // verus!
