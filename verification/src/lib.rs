//! Conversion between linear and cartesian indices of N-dimensional grids
//! stored flat in row-major order, together with an iterator over all
//! cartesian indices of an axis-aligned box.

pub mod indices;
pub mod model;

pub use crate::indices::CartesianIndices;

use vstd::prelude::*;

use crate::model::cart_of;
use crate::model::index_in_bounds;
use crate::model::lin_of;
use crate::model::paired_len;
use crate::model::size_prod;
use crate::model::usize_wrap;

verus! {

/// Check whether `indices` is a valid cartesian index for `dim_size`: the
/// lengths must match exactly and every coordinate must be strictly below its
/// axis bound.
pub fn valid_indices(indices: &[usize], dim_size: &[usize]) -> (r: bool)
    ensures
        r == index_in_bounds(indices@, dim_size@),
{
    let k = if indices.len() <= dim_size.len() {
        indices.len()
    } else {
        dim_size.len()
    };
    let mut j: usize = 0;
    while j < k
        invariant
            j <= k,
            k <= indices@.len(),
            k <= dim_size@.len(),
            k == indices@.len() || k == dim_size@.len(),
            forall|i: int| 0 <= i < j ==> indices@[i] < dim_size@[i],
        decreases k - j,
    {
        if indices[j] >= dim_size[j] {
            return false;
        }
        j = j + 1;
    }
    indices.len() == dim_size.len()
}

/// Convert a cartesian index into a linear index (row-major), without
/// validating the input. Coordinates pair with dimension sizes from the last
/// axis backwards; unpaired leading entries of the longer argument are
/// ignored, and the accumulation wraps around the `usize` range, so an
/// out-of-bounds input yields a well-defined but meaningless offset.
pub fn cart_to_lin_unchecked(indices: &[usize], dim_size: &[usize]) -> (r: usize)
    ensures
        r as int == lin_of(indices@, dim_size@) % usize_wrap(),
        lin_of(indices@, dim_size@) <= usize::MAX ==> r as int == lin_of(indices@, dim_size@),
{
    let clen = indices.len();
    let dlen = dim_size.len();
    let k = if clen <= dlen {
        clen
    } else {
        dlen
    };
    let mut index: usize = 0;
    let mut multiplier: usize = 1;
    let mut j: usize = 0;
    proof {
        assert(indices@.skip(clen as int) =~= Seq::<usize>::empty());
        assert(dim_size@.skip(dlen as int) =~= Seq::<usize>::empty());
        vstd::arithmetic::div_mod::lemma_small_mod(0nat, usize_wrap() as nat);
        vstd::arithmetic::div_mod::lemma_small_mod(1nat, usize_wrap() as nat);
    }
    while j < k
        invariant
            j <= k,
            k as int == paired_len(clen as int, dlen as int),
            clen == indices@.len(),
            dlen == dim_size@.len(),
            index as int == lin_of(indices@.skip(clen - j), dim_size@.skip(dlen - j))
                % usize_wrap(),
            multiplier as int == size_prod(dim_size@.skip(dlen - j)) % usize_wrap(),
        decreases k - j,
    {
        let ci = indices[clen - 1 - j];
        let di = dim_size[dlen - 1 - j];
        let t = multiplier.wrapping_mul(ci);
        let new_index = index.wrapping_add(t);
        let new_multiplier = multiplier.wrapping_mul(di);
        proof {
            let m = usize_wrap();
            let sc0 = indices@.skip(clen - j);
            let sd0 = dim_size@.skip(dlen - j);
            let sc1 = indices@.skip(clen - j - 1);
            let sd1 = dim_size@.skip(dlen - j - 1);
            let l0 = lin_of(sc0, sd0);
            let p0 = size_prod(sd0);
            assert(sc1[0] == indices@[clen - 1 - j]);
            assert(sd1[0] == dim_size@[dlen - 1 - j]);
            assert(sc1.skip(1) =~= sc0);
            assert(sd1.skip(1) =~= sd0);
            crate::model::lemma_lin_of_head(sc1, sd1);
            crate::model::lemma_size_prod_head(sd1);
            crate::model::lemma_wrapping_mul_is_mod(multiplier, ci);
            crate::model::lemma_wrapping_add_is_mod(index, t);
            crate::model::lemma_mod_mul_add(l0, p0, ci as int, m);
            vstd::arithmetic::mul::lemma_mul_is_commutative(ci as int, p0);
            assert(new_index as int == lin_of(sc1, sd1) % m);
            crate::model::lemma_wrapping_mul_is_mod(multiplier, di);
            vstd::arithmetic::div_mod::lemma_mul_mod_noop_left(p0, di as int, m);
            vstd::arithmetic::mul::lemma_mul_is_commutative(di as int, p0);
            assert(new_multiplier as int == size_prod(sd1) % m);
        }
        index = new_index;
        multiplier = new_multiplier;
        j = j + 1;
    }
    proof {
        crate::model::lemma_lin_of_trim(indices@, dim_size@);
        assert(j == k);
        if clen <= dlen {
            assert(indices@.skip(clen - k) =~= indices@);
        }
        if dlen <= clen {
            assert(dim_size@.skip(dlen - k) =~= dim_size@);
        }
        crate::model::lemma_lin_of_nonneg(indices@, dim_size@);
        if lin_of(indices@, dim_size@) <= usize::MAX {
            vstd::arithmetic::div_mod::lemma_small_mod(
                lin_of(indices@, dim_size@) as nat,
                usize_wrap() as nat,
            );
        }
    }
    index
}

/// Convert a cartesian index into a linear index (row-major). Returns the
/// offset exactly when `indices` is valid for `dim_size`; a length mismatch
/// or an out-of-bounds coordinate yields no value.
pub fn cart_to_lin(indices: &[usize], dim_size: &[usize]) -> (r: Option<usize>)
    ensures
        r is Some <==> index_in_bounds(indices@, dim_size@),
        r is Some ==> (r->0) as int == lin_of(indices@, dim_size@) % usize_wrap(),
        r is Some && lin_of(indices@, dim_size@) <= usize::MAX ==> (r->0) as int == lin_of(
            indices@,
            dim_size@,
        ),
        index_in_bounds(indices@, dim_size@) && size_prod(dim_size@) <= usize_wrap() ==> {
            &&& (r->0) as int == lin_of(indices@, dim_size@)
            &&& lin_of(indices@, dim_size@) < size_prod(dim_size@)
        },
{
    if valid_indices(indices, dim_size) {
        let v = cart_to_lin_unchecked(indices, dim_size);
        proof {
            if size_prod(dim_size@) <= usize_wrap() {
                crate::model::lemma_lin_of_bound(indices@, dim_size@);
                crate::model::lemma_lin_of_nonneg(indices@, dim_size@);
                vstd::arithmetic::div_mod::lemma_small_mod(
                    lin_of(indices@, dim_size@) as nat,
                    usize_wrap() as nat,
                );
            }
        }
        Some(v)
    } else {
        None
    }
}

/// Decide whether `index` lies inside the grid, that is, strictly below the
/// product of all dimension sizes. The product is compared exactly even when
/// it exceeds the `usize` range.
fn lin_index_in_range(index: usize, dim_size: &[usize]) -> (r: bool)
    ensures
        r == ((index as int) < size_prod(dim_size@)),
{
    let mut acc: usize = 1;
    let mut over: bool = false;
    let mut j: usize = 0;
    proof {
        assert(dim_size@.take(0) =~= Seq::<usize>::empty());
    }
    while j < dim_size.len()
        invariant
            j <= dim_size@.len(),
            !over ==> acc as int == size_prod(dim_size@.take(j as int)),
            over ==> size_prod(dim_size@.take(j as int)) > usize::MAX,
        decreases dim_size@.len() - j,
    {
        let d = dim_size[j];
        let ghost p = size_prod(dim_size@.take(j as int));
        proof {
            assert(dim_size@.take(j + 1).drop_last() =~= dim_size@.take(j as int));
            assert(dim_size@.take(j + 1).last() == dim_size@[j as int]);
            assert(size_prod(dim_size@.take(j + 1)) == p * (d as int));
        }
        if d == 0 {
            acc = 0;
            over = false;
            proof {
                assert(p * (d as int) == 0) by (nonlinear_arith)
                    requires
                        d == 0,
                ;
            }
        } else if !over {
            match acc.checked_mul(d) {
                Some(v) => {
                    acc = v;
                    proof {
                        assert(p * (d as int) == acc as int);
                    }
                }
                None => {
                    over = true;
                    proof {
                        assert(p * (d as int) > usize::MAX);
                    }
                }
            }
        } else {
            proof {
                assert(p * (d as int) >= p) by (nonlinear_arith)
                    requires
                        p >= 0,
                        d >= 1,
                ;
            }
        }
        j = j + 1;
    }
    proof {
        assert(dim_size@.take(dim_size@.len() as int) =~= dim_size@);
    }
    over || index < acc
}

/// Decompose a linear index into a cartesian index, writing into a
/// caller-provided buffer, without validating the input. The buffer and the
/// dimension sizes pair from the last position backwards: only the
/// overlapping suffix of the buffer is written, its leading entries are left
/// untouched, and an out-of-range index wraps around by modular arithmetic.
pub fn lin_to_cart_dyn_unchecked(index: usize, dim_size: &[usize], cart_indices: &mut [usize])
    requires
        forall|i: int|
            dim_size@.len() - paired_len(old(cart_indices)@.len() as int, dim_size@.len() as int)
                <= i < dim_size@.len() ==> dim_size@[i] != 0,
    ensures
        final(cart_indices)@ == old(cart_indices)@.take(
            old(cart_indices)@.len() - paired_len(
                old(cart_indices)@.len() as int,
                dim_size@.len() as int,
            ),
        ) + cart_of(
            index as int,
            dim_size@.skip(
                dim_size@.len() - paired_len(
                    old(cart_indices)@.len() as int,
                    dim_size@.len() as int,
                ),
            ),
        ),
        old(cart_indices)@.len() == dim_size@.len() ==> final(cart_indices)@ == cart_of(
            index as int,
            dim_size@,
        ),
{
    let clen = cart_indices.len();
    let dlen = dim_size.len();
    let k = if clen <= dlen {
        clen
    } else {
        dlen
    };
    let mut idx = index;
    let mut j: usize = 0;
    proof {
        assert(dim_size@.subrange(dlen - k, dlen as int) =~= dim_size@.skip(dlen - k));
        assert(cart_indices@.skip(clen as int) =~= Seq::<usize>::empty());
        assert(cart_of(index as int, dim_size@.skip(dlen - k)) =~= cart_of(
            index as int,
            dim_size@.subrange(dlen - k, dlen as int),
        ) + cart_indices@.skip(clen as int));
    }
    while j < k
        invariant
            j <= k,
            k as int == paired_len(clen as int, dlen as int),
            clen == cart_indices@.len(),
            clen == old(cart_indices)@.len(),
            dlen == dim_size@.len(),
            forall|i: int| dlen - k <= i < dlen ==> dim_size@[i] != 0,
            cart_indices@.take(clen - j) == old(cart_indices)@.take(clen - j),
            cart_of(index as int, dim_size@.skip(dlen - k)) == cart_of(
                idx as int,
                dim_size@.subrange(dlen - k, dlen - j),
            ) + cart_indices@.skip(clen - j),
        decreases k - j,
    {
        let d = dim_size[dlen - 1 - j];
        let r = idx % d;
        let q = idx / d;
        let ghost pre = cart_indices@;
        let ghost t1 = dim_size@.subrange(dlen - k, dlen - j);
        let ghost t0 = dim_size@.subrange(dlen - k, dlen - j - 1);
        proof {
            assert(t1.last() == dim_size@[dlen - 1 - j]);
            assert(t1.drop_last() =~= t0);
            assert(cart_of(idx as int, t1) == cart_of(q as int, t0).push(r));
        }
        cart_indices[clen - 1 - j] = r;
        proof {
            assert(cart_indices@ == pre.update(clen - 1 - j, r));
            assert(cart_indices@.take(clen - j - 1) =~= old(cart_indices)@.take(clen - j - 1))
                by {
                assert forall|i: int| 0 <= i < clen - j - 1 implies cart_indices@[i] == old(
                    cart_indices,
                )@[i] by {
                    assert(cart_indices@[i] == pre[i]);
                    assert(pre.take(clen - j)[i] == old(cart_indices)@.take(clen - j)[i]);
                }
            }
            assert(cart_indices@.skip(clen - j - 1) =~= seq![r] + pre.skip(clen - j));
            assert(cart_of(q as int, t0).push(r) + pre.skip(clen - j) =~= cart_of(q as int, t0)
                + (seq![r] + pre.skip(clen - j)));
        }
        idx = q;
        j = j + 1;
    }
    proof {
        assert(j == k);
        assert(dim_size@.subrange(dlen - k, dlen - k) =~= Seq::<usize>::empty());
        assert(cart_of(idx as int, dim_size@.subrange(dlen - k, dlen - k)) + cart_indices@.skip(
            clen - k,
        ) =~= cart_indices@.skip(clen - k));
        assert(cart_indices@ =~= cart_indices@.take(clen - k) + cart_indices@.skip(clen - k));
        if clen == dlen {
            assert(old(cart_indices)@.take(0) =~= Seq::<usize>::empty());
            assert(dim_size@.skip(0) =~= dim_size@);
            assert(Seq::<usize>::empty() + cart_of(index as int, dim_size@) =~= cart_of(
                index as int,
                dim_size@,
            ));
        }
    }
}

/// Decompose a linear index into a cartesian index, writing into a
/// caller-provided buffer. Succeeds exactly when the buffer length equals the
/// number of dimensions and `index` lies inside the grid; on failure the
/// buffer is left completely unmodified.
pub fn lin_to_cart_dyn(index: usize, dim_size: &[usize], cart_indices: &mut [usize]) -> (r:
    Result<(), &'static str>)
    ensures
        r is Ok <==> (old(cart_indices)@.len() == dim_size@.len() && (index as int) < size_prod(
            dim_size@,
        )),
        r is Ok ==> final(cart_indices)@ == cart_of(index as int, dim_size@),
        r is Err ==> final(cart_indices)@ == old(cart_indices)@,
{
    if dim_size.len() != cart_indices.len() {
        return Err("length of slices not equal or index out of bounds");
    }
    if !lin_index_in_range(index, dim_size) {
        return Err("length of slices not equal or index out of bounds");
    }
    proof {
        crate::model::lemma_size_prod_pos(dim_size@);
    }
    lin_to_cart_dyn_unchecked(index, dim_size, cart_indices);
    Ok(())
}

/// Decompose a linear index into a freshly allocated fixed-arity cartesian
/// index, without validating the input: an out-of-range index wraps around by
/// modular arithmetic. Every dimension size must be nonzero.
pub fn lin_to_cart_unchecked<const N: usize>(index: usize, dim_size: &[usize; N]) -> (r: [usize;
    N])
    requires
        forall|i: int| 0 <= i < N ==> dim_size@[i] != 0,
    ensures
        r@ == cart_of(index as int, dim_size@),
{
    let mut indices: [usize; N] = [0; N];
    lin_to_cart_dyn_unchecked(index, dim_size.as_slice(), &mut indices);
    indices
}

/// Decompose a linear index into a freshly allocated fixed-arity cartesian
/// index. Returns the index exactly when `index` lies inside the grid, that
/// is, strictly below the product of all dimension sizes.
pub fn lin_to_cart<const N: usize>(index: usize, dim_size: &[usize; N]) -> (r: Option<[usize;
    N]>)
    ensures
        r is Some <==> (index as int) < size_prod(dim_size@),
        r is Some ==> (r->0)@ == cart_of(index as int, dim_size@),
{
    if lin_index_in_range(index, dim_size.as_slice()) {
        proof {
            crate::model::lemma_size_prod_pos(dim_size@);
        }
        Some(lin_to_cart_unchecked(index, dim_size))
    } else {
        None
    }
}

} // verus!
