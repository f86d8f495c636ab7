//! The mathematical model of row-major indexing.
//!
//! A grid is described by a dimension-size vector `dims`: one exclusive upper
//! bound per axis, axis 0 the slowest-varying, the last axis the fastest.
//! A cartesian index pairs one coordinate with each axis; a linear index is a
//! single offset into the flat storage. The spec functions here define both
//! directions of the correspondence, and the lemmas prove that they are
//! mutually inverse on valid indices.

use vstd::prelude::*;

verus! {

/// The number of distinct `usize` values: the modulus of wrapping arithmetic.
pub open spec fn usize_wrap() -> int {
    usize::MAX as int + 1
}

/// Product of all dimension sizes: how many elements the grid holds.
pub open spec fn size_prod(dims: Seq<usize>) -> int
    decreases dims.len(),
{
    if dims.len() == 0 {
        1
    } else {
        size_prod(dims.drop_last()) * (dims.last() as int)
    }
}

/// A cartesian index is valid for `dims` iff the lengths match exactly and
/// every coordinate is strictly below its axis bound.
pub open spec fn index_in_bounds(cart: Seq<usize>, dims: Seq<usize>) -> bool {
    &&& cart.len() == dims.len()
    &&& forall|i: int| 0 <= i < cart.len() ==> cart[i] < dims[i]
}

/// Row-major linear offset of `cart` under `dims`. Coordinates pair with
/// dimension sizes from the last axis backwards; unpaired leading entries of
/// the longer sequence are ignored, as the executable code ignores them.
pub open spec fn lin_of(cart: Seq<usize>, dims: Seq<usize>) -> int
    decreases cart.len(),
{
    if cart.len() == 0 || dims.len() == 0 {
        0
    } else {
        lin_of(cart.drop_last(), dims.drop_last()) * (dims.last() as int) + cart.last()
    }
}

/// Row-major decomposition of a linear index under `dims`: the last axis is
/// peeled off first by modulus and truncating division. Meaningful only when
/// every entry of `dims` is nonzero.
pub open spec fn cart_of(index: int, dims: Seq<usize>) -> Seq<usize>
    decreases dims.len(),
{
    if dims.len() == 0 {
        Seq::empty()
    } else {
        cart_of(index / (dims.last() as int), dims.drop_last()).push(
            (index % (dims.last() as int)) as usize,
        )
    }
}

/// The product of dimension sizes is never negative.
pub proof fn lemma_size_prod_nonneg(dims: Seq<usize>)
    ensures
        size_prod(dims) >= 0,
    decreases dims.len(),
{
    if dims.len() > 0 {
        lemma_size_prod_nonneg(dims.drop_last());
        vstd::arithmetic::mul::lemma_mul_nonnegative(
            size_prod(dims.drop_last()),
            dims.last() as int,
        );
    }
}

/// The product of dimension sizes is positive exactly when every size is.
pub proof fn lemma_size_prod_pos(dims: Seq<usize>)
    ensures
        size_prod(dims) > 0 <==> (forall|i: int| 0 <= i < dims.len() ==> dims[i] > 0),
    decreases dims.len(),
{
    if dims.len() > 0 {
        let p0 = size_prod(dims.drop_last());
        let l = dims.last() as int;
        lemma_size_prod_pos(dims.drop_last());
        lemma_size_prod_nonneg(dims.drop_last());
        assert((p0 > 0 && l > 0) <==> p0 * l > 0) by (nonlinear_arith)
            requires
                p0 >= 0,
                l >= 0,
        ;
        if size_prod(dims) > 0 {
            assert forall|i: int| 0 <= i < dims.len() implies dims[i] > 0 by {
                if i < dims.len() - 1 {
                    assert(dims[i] == dims.drop_last()[i]);
                }
            }
        }
        if forall|i: int| 0 <= i < dims.len() ==> dims[i] > 0 {
            assert forall|i: int| 0 <= i < dims.drop_last().len() implies dims.drop_last()[i]
                > 0 by {
                assert(dims.drop_last()[i] == dims[i]);
            }
            assert(dims.last() == dims[dims.len() - 1]);
        }
    }
}

/// A linear offset computed from any coordinates is never negative.
pub proof fn lemma_lin_of_nonneg(cart: Seq<usize>, dims: Seq<usize>)
    ensures
        lin_of(cart, dims) >= 0,
    decreases cart.len(),
{
    if cart.len() > 0 && dims.len() > 0 {
        lemma_lin_of_nonneg(cart.drop_last(), dims.drop_last());
        vstd::arithmetic::mul::lemma_mul_nonnegative(
            lin_of(cart.drop_last(), dims.drop_last()),
            dims.last() as int,
        );
    }
}

/// How many axis pairs the back-to-front pairing of two sequences visits:
/// the length of the shorter one.
pub open spec fn paired_len(a: int, b: int) -> int {
    if a <= b {
        a
    } else {
        b
    }
}

/// The per-axis width `hi - lo`, wrapping around the `usize` range when
/// `hi < lo`, exactly as wrapping subtraction does.
pub open spec fn delta_of(lo: usize, hi: usize) -> usize {
    if hi >= lo {
        (hi - lo) as usize
    } else {
        (hi - lo + usize_wrap()) as usize
    }
}

/// Addition of two coordinates, wrapping around the `usize` range.
pub open spec fn wrap_add_val(x: usize, y: usize) -> usize {
    if x + y <= usize::MAX {
        (x + y) as usize
    } else {
        (x + y - usize_wrap()) as usize
    }
}

/// The cartesian index yielded at cursor position `at` of an iteration box:
/// the row-major decomposition of `at` under the per-axis widths, shifted by
/// the per-axis lower bounds (with wrapping addition, as the executable code
/// performs it).
pub open spec fn shifted_cart(at: int, deltas: Seq<usize>, lowers: Seq<usize>) -> Seq<usize> {
    Seq::new(deltas.len(), |i: int| wrap_add_val(cart_of(at, deltas)[i], lowers[i]))
}

/// The decomposition has one coordinate per axis.
pub proof fn lemma_cart_of_len(index: int, dims: Seq<usize>)
    ensures
        cart_of(index, dims).len() == dims.len(),
    decreases dims.len(),
{
    if dims.len() > 0 {
        lemma_cart_of_len(index / (dims.last() as int), dims.drop_last());
    }
}

/// A valid cartesian index maps to a linear offset inside the grid.
pub proof fn lemma_lin_of_bound(cart: Seq<usize>, dims: Seq<usize>)
    requires
        index_in_bounds(cart, dims),
    ensures
        lin_of(cart, dims) < size_prod(dims),
    decreases cart.len(),
{
    if cart.len() == 0 {
    } else {
        let cart0 = cart.drop_last();
        let dims0 = dims.drop_last();
        assert(index_in_bounds(cart0, dims0)) by {
            assert(forall|i: int| 0 <= i < cart0.len() ==> #[trigger] cart0[i] == cart[i]);
            assert(forall|i: int| 0 <= i < dims0.len() ==> #[trigger] dims0[i] == dims[i]);
        }
        lemma_lin_of_bound(cart0, dims0);
        lemma_lin_of_nonneg(cart0, dims0);
        let l = dims.last() as int;
        assert(cart.last() < l);
        // lin_of(cart0, dims0) <= size_prod(dims0) - 1, so
        // lin_of(cart, dims) <= (size_prod(dims0) - 1) * l + (l - 1) < size_prod(dims).
        vstd::arithmetic::mul::lemma_mul_inequality(
            lin_of(cart0, dims0),
            size_prod(dims0) - 1,
            l,
        );
        vstd::arithmetic::mul::lemma_mul_is_distributive_sub_other_way(
            l,
            size_prod(dims0),
            1,
        );
    }
}

/// Decomposing a linear offset that lies inside the grid yields a valid
/// cartesian index.
pub proof fn lemma_cart_of_in_bounds(index: int, dims: Seq<usize>)
    requires
        0 <= index < size_prod(dims),
    ensures
        index_in_bounds(cart_of(index, dims), dims),
    decreases dims.len(),
{
    lemma_cart_of_len(index, dims);
    lemma_size_prod_pos(dims);
    if dims.len() > 0 {
        let dims0 = dims.drop_last();
        let l = dims.last() as int;
        assert(dims.last() == dims[dims.len() - 1]);
        let q = index / l;
        vstd::arithmetic::div_mod::lemma_div_pos_is_pos(index, l);
        assert(q < size_prod(dims0)) by {
            vstd::arithmetic::mul::lemma_mul_is_commutative(size_prod(dims0), l);
            vstd::arithmetic::div_mod::lemma_multiply_divide_lt(index, l, size_prod(dims0));
        }
        lemma_cart_of_in_bounds(q, dims0);
        vstd::arithmetic::div_mod::lemma_mod_bound(index, l);
        let cart = cart_of(index, dims);
        let cart0 = cart_of(q, dims0);
        assert forall|i: int| 0 <= i < cart.len() implies cart[i] < dims[i] by {
            if i < dims.len() - 1 {
                assert(cart[i] == cart0[i]);
                assert(dims[i] == dims0[i]);
            }
        }
    }
}

/// Round trip: composing the decomposition of a linear offset inside the grid
/// returns that offset.
pub proof fn lemma_lin_of_cart_of(index: int, dims: Seq<usize>)
    requires
        0 <= index < size_prod(dims),
    ensures
        lin_of(cart_of(index, dims), dims) == index,
    decreases dims.len(),
{
    lemma_size_prod_pos(dims);
    if dims.len() == 0 {
        assert(index == 0);
    } else {
        let dims0 = dims.drop_last();
        let l = dims.last() as int;
        assert(dims.last() == dims[dims.len() - 1]);
        let q = index / l;
        let r = index % l;
        vstd::arithmetic::div_mod::lemma_div_pos_is_pos(index, l);
        vstd::arithmetic::div_mod::lemma_mod_bound(index, l);
        assert(q < size_prod(dims0)) by {
            vstd::arithmetic::mul::lemma_mul_is_commutative(size_prod(dims0), l);
            vstd::arithmetic::div_mod::lemma_multiply_divide_lt(index, l, size_prod(dims0));
        }
        lemma_lin_of_cart_of(q, dims0);
        lemma_cart_of_len(q, dims0);
        let cart = cart_of(index, dims);
        assert(cart == cart_of(q, dims0).push(r as usize));
        assert(cart.drop_last() =~= cart_of(q, dims0));
        assert(cart.last() == r as usize);
        assert(lin_of(cart, dims) == q * l + r);
        vstd::arithmetic::div_mod::lemma_fundamental_div_mod(index, l);
    }
}

/// Round trip: decomposing the linear offset of a valid cartesian index
/// returns that index.
pub proof fn lemma_cart_of_lin_of(cart: Seq<usize>, dims: Seq<usize>)
    requires
        index_in_bounds(cart, dims),
    ensures
        cart_of(lin_of(cart, dims), dims) == cart,
    decreases cart.len(),
{
    if cart.len() == 0 {
        assert(cart_of(lin_of(cart, dims), dims) =~= cart);
    } else {
        let cart0 = cart.drop_last();
        let dims0 = dims.drop_last();
        assert(index_in_bounds(cart0, dims0)) by {
            assert(forall|i: int| 0 <= i < cart0.len() ==> #[trigger] cart0[i] == cart[i]);
        }
        let l = dims.last() as int;
        assert(dims.last() == dims[dims.len() - 1]);
        assert(cart.last() == cart[cart.len() - 1]);
        let a = lin_of(cart0, dims0);
        let x = lin_of(cart, dims);
        lemma_lin_of_nonneg(cart0, dims0);
        assert(x == a * l + cart.last());
        vstd::arithmetic::div_mod::lemma_fundamental_div_mod_converse(
            x,
            l,
            a,
            cart.last() as int,
        );
        lemma_cart_of_lin_of(cart0, dims0);
        assert(cart_of(x, dims) == cart_of(a, dims0).push((x % l) as usize));
        assert(cart_of(x, dims) =~= cart);
    }
}

/// Round trip, starting from coordinates: for every valid cartesian index and
/// dimension-size vector of matching length, the row-major offset lies inside
/// the grid — so converting it back is defined — and decomposing it returns
/// the original coordinates.
pub proof fn lemma_round_trip_from_cart(cart: Seq<usize>, dims: Seq<usize>)
    requires
        index_in_bounds(cart, dims),
    ensures
        0 <= lin_of(cart, dims) < size_prod(dims),
        cart_of(lin_of(cart, dims), dims) == cart,
{
    lemma_lin_of_nonneg(cart, dims);
    lemma_lin_of_bound(cart, dims);
    lemma_cart_of_lin_of(cart, dims);
}

/// Round trip, starting from an offset: for every linear index strictly below
/// the product of the dimension sizes, the decomposition is a valid cartesian
/// index — so converting it back is defined — and composing it returns the
/// original offset.
pub proof fn lemma_round_trip_from_lin(index: int, dims: Seq<usize>)
    requires
        0 <= index < size_prod(dims),
    ensures
        index_in_bounds(cart_of(index, dims), dims),
        lin_of(cart_of(index, dims), dims) == index,
{
    lemma_cart_of_in_bounds(index, dims);
    lemma_lin_of_cart_of(index, dims);
}

/// The back-to-front pairing only ever reads the overlapping suffixes of the
/// two sequences: trimming the unpaired leading entries of the longer one
/// leaves the offset unchanged.
pub proof fn lemma_lin_of_trim(cart: Seq<usize>, dims: Seq<usize>)
    ensures
        cart.len() > dims.len() ==> lin_of(cart, dims) == lin_of(
            cart.skip(cart.len() - dims.len()),
            dims,
        ),
        dims.len() > cart.len() ==> lin_of(cart, dims) == lin_of(
            cart,
            dims.skip(dims.len() - cart.len()),
        ),
    decreases cart.len() + dims.len(),
{
    if cart.len() > dims.len() {
        let trimmed = cart.skip(cart.len() - dims.len());
        if dims.len() == 0 {
            assert(lin_of(cart, dims) == 0);
            assert(lin_of(trimmed, dims) == 0);
        } else {
            lemma_lin_of_trim(cart.drop_last(), dims.drop_last());
            assert(trimmed.last() == cart.last());
            assert(trimmed.drop_last() =~= cart.drop_last().skip(
                cart.drop_last().len() - dims.drop_last().len(),
            ));
        }
    } else if dims.len() > cart.len() {
        let trimmed = dims.skip(dims.len() - cart.len());
        if cart.len() == 0 {
            assert(lin_of(cart, dims) == 0);
            assert(lin_of(cart, trimmed) == 0);
        } else {
            lemma_lin_of_trim(cart.drop_last(), dims.drop_last());
            assert(trimmed.last() == dims.last());
            assert(trimmed.drop_last() =~= dims.drop_last().skip(
                dims.drop_last().len() - cart.drop_last().len(),
            ));
        }
    }
}

/// Peeling the first (slowest-varying) axis off the product.
pub proof fn lemma_size_prod_head(dims: Seq<usize>)
    requires
        dims.len() > 0,
    ensures
        size_prod(dims) == (dims[0] as int) * size_prod(dims.skip(1)),
    decreases dims.len(),
{
    if dims.len() == 1 {
        assert(size_prod(Seq::<usize>::empty()) == 1);
        assert(dims.skip(1) =~= Seq::<usize>::empty());
        assert(dims.drop_last() =~= Seq::<usize>::empty());
        assert(dims.last() == dims[0]);
    } else {
        let dims0 = dims.drop_last();
        let l = dims.last() as int;
        lemma_size_prod_head(dims0);
        assert(dims0[0] == dims[0]);
        assert(dims.skip(1).drop_last() =~= dims0.skip(1));
        assert(dims.skip(1).last() == dims.last());
        // size_prod(dims) == (dims[0] * size_prod(dims0.skip(1))) * l
        //                 == dims[0] * (size_prod(dims0.skip(1)) * l)
        //                 == dims[0] * size_prod(dims.skip(1))
        vstd::arithmetic::mul::lemma_mul_is_associative(
            dims[0] as int,
            size_prod(dims0.skip(1)),
            l,
        );
    }
}

/// Peeling the first (slowest-varying) axis off the offset, for sequences of
/// equal length.
pub proof fn lemma_lin_of_head(cart: Seq<usize>, dims: Seq<usize>)
    requires
        cart.len() == dims.len(),
        cart.len() > 0,
    ensures
        lin_of(cart, dims) == (cart[0] as int) * size_prod(dims.skip(1)) + lin_of(
            cart.skip(1),
            dims.skip(1),
        ),
    decreases cart.len(),
{
    if cart.len() == 1 {
        assert(size_prod(Seq::<usize>::empty()) == 1);
        assert(lin_of(Seq::<usize>::empty(), Seq::<usize>::empty()) == 0);
        assert(cart.skip(1) =~= Seq::<usize>::empty());
        assert(dims.skip(1) =~= Seq::<usize>::empty());
        assert(cart.drop_last() =~= Seq::<usize>::empty());
        assert(dims.drop_last() =~= Seq::<usize>::empty());
        assert(cart.last() == cart[0]);
    } else {
        let cart0 = cart.drop_last();
        let dims0 = dims.drop_last();
        let l = dims.last() as int;
        lemma_lin_of_head(cart0, dims0);
        assert(cart0[0] == cart[0]);
        assert(cart.skip(1).drop_last() =~= cart0.skip(1));
        assert(dims.skip(1).drop_last() =~= dims0.skip(1));
        assert(cart.skip(1).last() == cart.last());
        assert(dims.skip(1).last() == dims.last());
        // lin_of(cart, dims)
        //   == (cart[0] * size_prod(dims0.skip(1)) + lin_of(cart0.skip(1), dims0.skip(1))) * l
        //      + cart.last()
        //   == cart[0] * (size_prod(dims0.skip(1)) * l)
        //      + (lin_of(cart0.skip(1), dims0.skip(1)) * l + cart.last())
        vstd::arithmetic::mul::lemma_mul_is_distributive_add_other_way(
            l,
            (cart[0] as int) * size_prod(dims0.skip(1)),
            lin_of(cart0.skip(1), dims0.skip(1)),
        );
        vstd::arithmetic::mul::lemma_mul_is_associative(
            cart[0] as int,
            size_prod(dims0.skip(1)),
            l,
        );
    }
}

/// Wrapping addition of `usize` values computes the sum modulo the `usize`
/// range.
pub proof fn lemma_wrapping_add_is_mod(x: usize, y: usize)
    ensures
        vstd::wrapping::usize_specs::wrapping_add(x, y) as int == (x + y) % usize_wrap(),
{
    let m = usize_wrap();
    if x + y <= usize::MAX {
        vstd::arithmetic::div_mod::lemma_small_mod((x + y) as nat, m as nat);
    } else {
        vstd::arithmetic::div_mod::lemma_mod_multiples_vanish(1, x + y - m, m);
        vstd::arithmetic::div_mod::lemma_small_mod((x + y - m) as nat, m as nat);
    }
}

/// Wrapping multiplication of `usize` values computes the product modulo the
/// `usize` range.
pub proof fn lemma_wrapping_mul_is_mod(x: usize, y: usize)
    ensures
        vstd::wrapping::usize_specs::wrapping_mul(x, y) as int == (x * y) % usize_wrap(),
{
    vstd::arithmetic::mul::lemma_mul_nonnegative(x as int, y as int);
    vstd::arithmetic::div_mod::lemma_mod_bound(x * y, usize_wrap());
}

/// One wrapping step of the row-major accumulation: adding a wrapped product
/// to a wrapped sum is the same as wrapping the exact expression once.
pub proof fn lemma_mod_mul_add(a: int, b: int, c: int, m: int)
    requires
        m > 0,
    ensures
        ((a % m) + ((b % m) * c) % m) % m == (a + b * c) % m,
{
    vstd::arithmetic::div_mod::lemma_mul_mod_noop_left(b, c, m);
    vstd::arithmetic::div_mod::lemma_add_mod_noop(a, b * c, m);
}

} // verus!
