//! Trusted interface to `array2d::Array2D`, the grid container the engine
//! stores its cell values in.
//!
//! An `Array2D` is opaque to the verifier, so its row-major contents and its
//! dimensions are given names here, and each operation the engine uses gets
//! a wrapper whose contract states, over those names, what the container's
//! source shows.

use vstd::prelude::*;

verus! {

#[verifier::external_type_specification]
#[verifier::external_body]
#[verifier::reject_recursive_types(T)]
pub struct ExArray2D<T>(array2d::Array2D<T>);

/// The elements of the array in row-major order.
pub uninterp spec fn grid_seq(g: array2d::Array2D<u8>) -> Seq<u8>;

/// The number of rows the array was created with.
pub uninterp spec fn grid_rows(g: array2d::Array2D<u8>) -> nat;

/// The number of columns the array was created with.
pub uninterp spec fn grid_cols(g: array2d::Array2D<u8>) -> nat;

/// Relies on `Array2D::filled_with`: a `rows` by `cols` array whose
/// elements all equal `value`.
#[verifier::external_body]
pub fn grid_filled(value: u8, rows: usize, cols: usize) -> (g: array2d::Array2D<u8>)
    requires
        rows * cols <= usize::MAX,
    ensures
        grid_rows(g) == rows,
        grid_cols(g) == cols,
        grid_seq(g) == Seq::new((rows * cols) as nat, |i: int| value),
{
    array2d::Array2D::filled_with(value, rows, cols)
}

/// Relies on `Array2D::num_elements`: the element count, which equals both
/// the length of the row-major contents and the product of the dimensions.
#[verifier::external_body]
pub fn grid_len(g: &array2d::Array2D<u8>) -> (n: usize)
    ensures
        n == grid_seq(*g).len(),
        n == grid_rows(*g) * grid_cols(*g),
{
    g.num_elements()
}

/// Relies on `Array2D`'s `Index` impl: the element at `(r, c)`, which is
/// element `r * cols + c` of the row-major contents.
#[verifier::external_body]
pub fn grid_get(g: &array2d::Array2D<u8>, r: usize, c: usize) -> (v: u8)
    requires
        r < grid_rows(*g),
        c < grid_cols(*g),
    ensures
        v == grid_seq(*g)[r * grid_cols(*g) + c],
{
    g[(r, c)]
}

/// Relies on `Array2D`'s `IndexMut` impl: writes the element at `(r, c)`,
/// element `r * cols + c` of the row-major contents, leaving the dimensions
/// and every other element unchanged.
#[verifier::external_body]
pub fn grid_set(g: &mut array2d::Array2D<u8>, r: usize, c: usize, v: u8)
    requires
        r < grid_rows(*old(g)),
        c < grid_cols(*old(g)),
    ensures
        grid_rows(*final(g)) == grid_rows(*old(g)),
        grid_cols(*final(g)) == grid_cols(*old(g)),
        grid_seq(*final(g)) == grid_seq(*old(g)).update(
            r as int * grid_cols(*old(g)) as int + c as int,
            v,
        ),
{
    g[(r, c)] = v;
}

/// Relies on `Array2D`'s derived `Clone`: an identical copy.
#[verifier::external_body]
pub fn grid_clone(g: &array2d::Array2D<u8>) -> (c: array2d::Array2D<u8>)
    ensures
        grid_rows(c) == grid_rows(*g),
        grid_cols(c) == grid_cols(*g),
        grid_seq(c) == grid_seq(*g),
{
    g.clone()
}

} // verus!
