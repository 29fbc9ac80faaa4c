use vstd::prelude::*;

verus! {

/// A two-dimensional array of per-pixel layer masks, row 0 at the top.
#[verifier::external_body]
pub struct MaskGrid {
    a: ndarray::Array2<u16>,
}

/// Row-major contents of a mask grid.
pub uninterp spec fn grid_cells(g: MaskGrid) -> Seq<u16>;

/// Number of rows and of columns of a mask grid.
pub uninterp spec fn grid_shape(g: MaskGrid) -> (nat, nat);

/// Relies on ndarray's `Array2::zeros`: a rows-by-columns array of zeros. It
/// panics when the product of the non-zero axis lengths exceeds `isize::MAX`,
/// which bounding each length and the product rules out.
#[verifier::external_body]
pub(crate) fn grid_zeros(rows: usize, cols: usize) -> (r: MaskGrid)
    requires
        rows <= isize::MAX,
        cols <= isize::MAX,
        rows * cols <= isize::MAX,
    ensures
        grid_shape(r) == (rows as nat, cols as nat),
        grid_cells(r) == Seq::new((rows * cols) as nat, |i: int| 0u16),
{
    MaskGrid { a: ndarray::Array2::zeros((rows, cols)) }
}

/// Relies on ndarray's `ArrayBase::dim`: (rows, columns) of the array, whose
/// elements it holds in row-major order.
#[verifier::external_body]
pub(crate) fn grid_dim(g: &MaskGrid) -> (r: (usize, usize))
    ensures
        r.0 as nat == grid_shape(*g).0,
        r.1 as nat == grid_shape(*g).1,
        grid_cells(*g).len() == r.0 as nat * r.1 as nat,
{
    g.a.dim()
}

/// Relies on ndarray's indexing by `[row, column]`, which panics outside the
/// array.
#[verifier::external_body]
pub(crate) fn grid_get(g: &MaskGrid, iy: usize, ix: usize) -> (r: u16)
    requires
        iy < grid_shape(*g).0,
        ix < grid_shape(*g).1,
    ensures
        r == grid_cells(*g)[iy * grid_shape(*g).1 + ix],
{
    g.a[[iy, ix]]
}

/// Relies on ndarray's mutable indexing by `[row, column]`.
#[verifier::external_body]
pub(crate) fn grid_set(g: &mut MaskGrid, iy: usize, ix: usize, v: u16)
    requires
        iy < grid_shape(*old(g)).0,
        ix < grid_shape(*old(g)).1,
    ensures
        grid_shape(*final(g)) == grid_shape(*old(g)),
        grid_cells(*final(g)) == grid_cells(*old(g)).update(
            iy * grid_shape(*old(g)).1 + ix,
            v,
        ),
{
    g.a[[iy, ix]] = v;
}

} // verus!
