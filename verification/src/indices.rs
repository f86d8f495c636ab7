//! An iterator over all cartesian indices of an axis-aligned box.

use vstd::prelude::*;

use crate::model::cart_of;
use crate::model::delta_of;
use crate::model::shifted_cart;
use crate::model::size_prod;
use crate::model::usize_wrap;
use crate::model::wrap_add_val;

verus! {

/// A finite sequence of all cartesian indices inside a box given by per-axis
/// `[lower, upper)` bounds, yielded in row-major order (last axis fastest).
///
/// The struct holds a linear cursor, the element count `max`, the per-axis
/// widths `upper - lower`, and the original bounds. `next` decomposes the
/// cursor with the widths as dimension sizes, shifts each coordinate by its
/// axis's lower bound, and advances; `cursor == max` is the sole terminal
/// condition. Once exhausted the sequence cannot be restarted: construct a
/// fresh value to iterate again.
pub struct CartesianIndices<const N: usize> {
    current: usize,
    max: usize,
    limit_deltas: [usize; N],
    bounds: [[usize; 2]; N],
}

impl<const N: usize> CartesianIndices<N> {
    /// The cursor: the position of the next index to yield.
    pub closed spec fn cursor(self) -> int {
        self.current as int
    }

    /// The element count: the product of the per-axis widths, wrapped to the
    /// `usize` range.
    pub closed spec fn total(self) -> int {
        self.max as int
    }

    /// The per-axis widths `upper - lower` (wrapping when `upper < lower`).
    pub closed spec fn deltas(self) -> Seq<usize> {
        self.limit_deltas@
    }

    /// The per-axis lower bounds.
    pub closed spec fn lowers(self) -> Seq<usize> {
        Seq::new(N as nat, |i: int| self.bounds@[i][0])
    }

    /// The per-axis upper bounds.
    pub closed spec fn uppers(self) -> Seq<usize> {
        Seq::new(N as nat, |i: int| self.bounds@[i][1])
    }

    /// Structural well-formedness: the widths and the element count are the
    /// ones computed from the stored bounds. Every constructor establishes
    /// this and advancing preserves it.
    pub open spec fn wf(self) -> bool {
        &&& self.deltas().len() == N as int
        &&& (forall|i: int|
            0 <= i < N as int ==> self.deltas()[i] == delta_of(
                self.lowers()[i],
                self.uppers()[i],
            ))
        &&& self.total() == size_prod(self.deltas()) % usize_wrap()
    }

    /// `next` can run without dividing by zero and without overflowing the
    /// cursor: the cursor is still within the box, or every width is nonzero
    /// and the cursor has room to grow. Constructors leave the cursor at zero
    /// and `next` keeps the cursor within the box, so only `nth` can place
    /// the cursor beyond it.
    pub open spec fn can_advance(self) -> bool {
        ||| self.cursor() <= self.total()
        ||| (self.cursor() < usize::MAX as int && forall|i: int|
            0 <= i < N as int ==> self.deltas()[i] != 0)
    }

    /// Create an iterator from per-axis `[lower, upper)` bounds without
    /// validating them. An axis with `upper <= lower` gets its width from
    /// wrapping subtraction: `upper == lower` yields an immediately exhausted
    /// iterator, while `upper < lower` yields an enormous wrapped width — a
    /// documented sharp edge of this constructor.
    pub fn with_offsets_unchecked(bounds: [[usize; 2]; N]) -> (r: Self)
        ensures
            r.wf(),
            r.cursor() == 0,
            forall|i: int|
                0 <= i < N as int ==> r.lowers()[i] == bounds@[i][0] && r.uppers()[i]
                    == bounds@[i][1],
            size_prod(r.deltas()) <= usize::MAX ==> r.total() == size_prod(r.deltas()),
    {
        let mut max: usize = 1;
        let mut limit_deltas: [usize; N] = [0; N];
        let mut j: usize = 0;
        proof {
            vstd::arithmetic::div_mod::lemma_small_mod(1nat, usize_wrap() as nat);
            assert(limit_deltas@.take(0) =~= Seq::<usize>::empty());
        }
        while j < N
            invariant
                j <= N,
                limit_deltas@.len() == N as int,
                forall|i: int|
                    0 <= i < j ==> limit_deltas@[i] == delta_of(bounds@[i][0], bounds@[i][1]),
                max as int == size_prod(limit_deltas@.take(j as int)) % usize_wrap(),
            decreases N - j,
        {
            let lo = bounds[j][0];
            let hi = bounds[j][1];
            let d = hi.wrapping_sub(lo);
            let ghost pre = limit_deltas@;
            limit_deltas[j] = d;
            let new_max = max.wrapping_mul(d);
            proof {
                let m = usize_wrap();
                assert(d == delta_of(lo, hi));
                assert(limit_deltas@.take(j as int) =~= pre.take(j as int));
                assert(limit_deltas@.take(j + 1).drop_last() =~= limit_deltas@.take(j as int));
                assert(limit_deltas@.take(j + 1).last() == d);
                let p0 = size_prod(pre.take(j as int));
                crate::model::lemma_wrapping_mul_is_mod(max, d);
                vstd::arithmetic::div_mod::lemma_mul_mod_noop_left(p0, d as int, m);
                assert(new_max as int == size_prod(limit_deltas@.take(j + 1)) % m);
            }
            max = new_max;
            j = j + 1;
        }
        proof {
            assert(limit_deltas@.take(N as int) =~= limit_deltas@);
            crate::model::lemma_size_prod_nonneg(limit_deltas@);
            if size_prod(limit_deltas@) <= usize::MAX {
                vstd::arithmetic::div_mod::lemma_small_mod(
                    size_prod(limit_deltas@) as nat,
                    usize_wrap() as nat,
                );
            }
        }
        Self { current: 0, max, limit_deltas, bounds }
    }

    /// Create an iterator from per-axis `[lower, upper)` bounds. Every axis
    /// must satisfy `lower < upper` strictly; otherwise the iteration space
    /// is ambiguous and no iterator is produced.
    pub fn from_bounds(bounds: [[usize; 2]; N]) -> (r: Option<Self>)
        ensures
            r is Some <==> (forall|i: int| 0 <= i < N as int ==> bounds@[i][0] < bounds@[i][1]),
            r is Some ==> {
                let it = r->0;
                &&& it.wf()
                &&& it.cursor() == 0
                &&& (forall|i: int|
                    0 <= i < N as int ==> it.lowers()[i] == bounds@[i][0] && it.uppers()[i]
                        == bounds@[i][1])
                &&& (forall|i: int|
                    0 <= i < N as int ==> it.deltas()[i] as int == bounds@[i][1] - bounds@[i][0])
                &&& (size_prod(it.deltas()) <= usize::MAX ==> it.total() == size_prod(
                    it.deltas(),
                ))
            },
    {
        let mut j: usize = 0;
        while j < N
            invariant
                j <= N,
                forall|i: int| 0 <= i < j ==> bounds@[i][0] < bounds@[i][1],
            decreases N - j,
        {
            if bounds[j][1] <= bounds[j][0] {
                return None;
            }
            j = j + 1;
        }
        Some(Self::with_offsets_unchecked(bounds))
    }

    /// Create an iterator over all cartesian indices with per-axis bounds
    /// `[0, dim_size[axis])`. Cannot fail: a zero-sized axis simply yields an
    /// immediately exhausted iterator.
    pub fn new(dim_size: [usize; N]) -> (r: Self)
        ensures
            r.wf(),
            r.cursor() == 0,
            r.deltas() == dim_size@,
            forall|i: int|
                0 <= i < N as int ==> r.lowers()[i] == 0 && r.uppers()[i] == dim_size@[i],
            size_prod(dim_size@) <= usize::MAX ==> r.total() == size_prod(dim_size@),
    {
        let mut bounds: [[usize; 2]; N] = [[0, 0]; N];
        let mut j: usize = 0;
        while j < N
            invariant
                j <= N,
                bounds@.len() == N as int,
                forall|i: int|
                    #![trigger bounds@[i]]
                    0 <= i < j ==> bounds@[i][0] == 0 && bounds@[i][1] == dim_size@[i],
            decreases N - j,
        {
            let mut pair: [usize; 2] = [0; 2];
            pair[1] = dim_size[j];
            let ghost pre = bounds@;
            bounds[j] = pair;
            proof {
                assert(pair@[0] == 0);
                assert(pair@[1] == dim_size@[j as int]);
                assert(bounds@ == pre.update(j as int, pair));
                assert forall|i: int| 0 <= i < j + 1 implies bounds@[i][0] == 0 && bounds@[i][1]
                    == dim_size@[i] by {
                    if i < j {
                        assert(bounds@[i] == pre[i]);
                        assert(pre[i][0] == 0 && pre[i][1] == dim_size@[i]);
                    } else {
                        assert(bounds@[i] == pair);
                    }
                }
            }
            j = j + 1;
        }
        let r = Self::with_offsets_unchecked(bounds);
        proof {
            assert(r.deltas() =~= dim_size@) by {
                assert forall|i: int| 0 <= i < N as int implies r.deltas()[i] == dim_size@[i] by {
                    assert(r.deltas()[i] == delta_of(0, dim_size@[i]));
                }
            }
            if size_prod(dim_size@) <= usize::MAX {
                crate::model::lemma_size_prod_nonneg(dim_size@);
                vstd::arithmetic::div_mod::lemma_small_mod(
                    size_prod(dim_size@) as nat,
                    usize_wrap() as nat,
                );
            }
        }
        r
    }

    /// Yield the cartesian index at the cursor and advance past it, or report
    /// the end of the sequence: `cursor == total` is the sole terminal
    /// condition. The yielded index is the row-major decomposition of the
    /// cursor under the per-axis widths, shifted by the per-axis lower
    /// bounds. Within a strictly monotonic box whose element count did not
    /// wrap, every yielded coordinate lies in its axis's `[lower, upper)`.
    pub fn next(&mut self) -> (r: Option<[usize; N]>)
        requires
            old(self).wf(),
            old(self).can_advance(),
        ensures
            final(self).wf(),
            final(self).deltas() == old(self).deltas(),
            final(self).lowers() == old(self).lowers(),
            final(self).uppers() == old(self).uppers(),
            final(self).total() == old(self).total(),
            old(self).cursor() == old(self).total() ==> r is None && final(self).cursor() == old(
                self,
            ).cursor(),
            old(self).cursor() != old(self).total() ==> r is Some && final(self).cursor() == old(
                self,
            ).cursor() + 1 && (r->0)@ == shifted_cart(
                old(self).cursor(),
                old(self).deltas(),
                old(self).lowers(),
            ),
            (old(self).cursor() < old(self).total() && old(self).total() == size_prod(
                old(self).deltas(),
            ) && (forall|i: int|
                0 <= i < N as int ==> old(self).lowers()[i] < old(self).uppers()[i])) ==> (forall|
                i: int,
            |
                0 <= i < N as int ==> old(self).lowers()[i] <= #[trigger] ((r->0)@[i]) < old(
                    self,
                ).uppers()[i] && (r->0)@[i] == old(self).lowers()[i] + cart_of(
                    old(self).cursor(),
                    old(self).deltas(),
                )[i]),
    {
        if self.current == self.max {
            return None;
        }
        proof {
            let ds = self.limit_deltas@;
            crate::model::lemma_size_prod_nonneg(ds);
            crate::model::lemma_size_prod_pos(ds);
            if self.current < self.max {
                vstd::arithmetic::div_mod::lemma_small_mod(0nat, usize_wrap() as nat);
                assert(size_prod(ds) > 0);
            }
            assert(forall|i: int| 0 <= i < N as int ==> ds[i] != 0);
        }
        let res0 = crate::lin_to_cart_unchecked(self.current, &self.limit_deltas);
        let mut res = res0;
        let mut j: usize = 0;
        while j < N
            invariant
                j <= N,
                res@.len() == N as int,
                res0@.len() == N as int,
                forall|i: int|
                    0 <= i < j ==> res@[i] == wrap_add_val(res0@[i], self.bounds@[i][0]),
                forall|i: int| j <= i < N ==> res@[i] == res0@[i],
            decreases N - j,
        {
            let lo = self.bounds[j][0];
            let ghost pre = res@;
            res[j] = res[j].wrapping_add(lo);
            proof {
                assert(res@ == pre.update(j as int, vstd::wrapping::usize_specs::wrapping_add(
                    pre[j as int],
                    lo,
                )));
                assert(vstd::wrapping::usize_specs::wrapping_add(res0@[j as int], lo)
                    == wrap_add_val(res0@[j as int], lo));
            }
            j = j + 1;
        }
        proof {
            assert(res@ =~= shifted_cart(
                old(self).cursor(),
                old(self).deltas(),
                old(self).lowers(),
            ));
            if old(self).cursor() < old(self).total() && old(self).total() == size_prod(
                old(self).deltas(),
            ) && (forall|i: int|
                0 <= i < N as int ==> old(self).lowers()[i] < old(self).uppers()[i]) {
                crate::model::lemma_cart_of_in_bounds(old(self).cursor(), old(self).deltas());
                assert forall|i: int| 0 <= i < N as int implies old(self).lowers()[i]
                    <= #[trigger] (res@[i]) < old(self).uppers()[i] && res@[i] == old(
                    self,
                ).lowers()[i] + cart_of(old(self).cursor(), old(self).deltas())[i] by {
                    assert(cart_of(old(self).cursor(), old(self).deltas())[i] < old(
                        self,
                    ).deltas()[i]);
                    assert(old(self).deltas()[i] == delta_of(
                        old(self).lowers()[i],
                        old(self).uppers()[i],
                    ));
                }
            }
            assert(self.current < usize::MAX);
        }
        self.current = self.current + 1;
        Some(res)
    }

    /// Jump to absolute position `n` — counted from the start of the
    /// sequence, not relative to the current cursor — and yield the index
    /// there, leaving the cursor just past it. In particular `nth(0)` after
    /// any number of `next` calls restarts the sequence rather than taking
    /// the next element.
    pub fn nth(&mut self, n: usize) -> (r: Option<[usize; N]>)
        requires
            old(self).wf(),
            n as int <= old(self).total() || (n < usize::MAX && forall|i: int|
                0 <= i < N as int ==> old(self).deltas()[i] != 0),
        ensures
            final(self).wf(),
            final(self).deltas() == old(self).deltas(),
            final(self).lowers() == old(self).lowers(),
            final(self).uppers() == old(self).uppers(),
            final(self).total() == old(self).total(),
            n as int == old(self).total() ==> r is None && final(self).cursor() == n as int,
            n as int != old(self).total() ==> r is Some && final(self).cursor() == n as int + 1
                && (r->0)@ == shifted_cart(n as int, old(self).deltas(), old(self).lowers()),
    {
        self.current = n;
        self.next()
    }
}

} // verus!
