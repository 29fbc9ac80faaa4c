use vstd::prelude::*;
use crate::grid::{MaskGrid, grid_cells, grid_shape, grid_dim, grid_get, grid_set, grid_zeros};
use crate::components::{ConnectedComponents, mask_bits};

verus! {

/// A decoded grey-level layer image, row-major, row 0 at the top; a pixel
/// above zero is copper.
pub struct Bitmap {
    pub height: usize,
    pub width: usize,
    pub pixels: Vec<u8>,
}

impl Bitmap {
    /// One byte per pixel, and a size that an array can have: each side
    /// and their product at most `isize::MAX`.
    pub open spec fn wf(&self) -> bool {
        &&& self.pixels@.len() == self.height * self.width
        &&& self.height <= isize::MAX
        &&& self.width <= isize::MAX
        &&& self.height * self.width <= isize::MAX
    }
}

/// Why layer images cannot be combined.
#[derive(Clone, Copy, Debug, PartialEq, Eq, Structural)]
pub enum RasterError {
    /// No layer was given.
    NoLayers,
    /// More layers than the 16 bits of a pixel mask.
    TooManyLayers(usize),
    /// Layer `layer` has `rows` by `columns` pixels, unlike layer 0.
    DimensionMismatch { layer: usize, rows: usize, columns: usize },
}

/// All layers on one grid: bit `l` of a pixel's mask is set where layer
/// `l` has copper.
pub struct Artwork {
    pub num_layers: usize,
    pub layers: MaskGrid,
}

/// Mask of pixel `q` over the first `k` layers.
pub open spec fn layer_mask(bs: Seq<Bitmap>, k: int, q: int) -> u16
    decreases k,
{
    if k <= 0 {
        0
    } else {
        layer_mask(bs, k - 1, q) | (if bs[k - 1].pixels@[q] > 0 { 1u16 << ((k - 1) as u16) } else { 0u16 })
    }
}

/// Layer `l` has the size of layer 0.
pub open spec fn same_size(bs: Seq<Bitmap>, l: int) -> bool {
    bs[l].height == bs[0].height && bs[l].width == bs[0].width
}

/// The first layer whose size differs from layer 0's, if any.
pub open spec fn first_mismatch(bs: Seq<Bitmap>) -> Option<int> {
    if exists|l: int| 0 <= l < bs.len() && !#[trigger] same_size(bs, l) {
        Some(
            choose|l: int|
                0 <= l < bs.len() && !#[trigger] same_size(bs, l) && forall|j: int| 0 <= j < l ==> #[trigger] same_size(bs, j),
        )
    } else {
        None
    }
}

impl Artwork {
    /// Combines the layer images into one grid of masks.
    #[verifier::rlimit(60)]
    pub fn new(bitmaps: &Vec<Bitmap>) -> (r: Result<Artwork, RasterError>)
        requires
            forall|l: int| 0 <= l < bitmaps@.len() ==> (#[trigger] bitmaps@[l]).wf(),
        ensures
            bitmaps@.len() == 0 ==> r == Err::<Artwork, RasterError>(RasterError::NoLayers),
            bitmaps@.len() > 16 ==> r == Err::<Artwork, RasterError>(RasterError::TooManyLayers(bitmaps@.len() as usize)),
            0 < bitmaps@.len() <= 16 && first_mismatch(bitmaps@) is Some ==> r is Err && ({
                let l = first_mismatch(bitmaps@).unwrap();
                r == Err::<Artwork, RasterError>(RasterError::DimensionMismatch {
                    layer: l as usize,
                    rows: bitmaps@[l].height,
                    columns: bitmaps@[l].width,
                })
            }),
            0 < bitmaps@.len() <= 16 && first_mismatch(bitmaps@) is None ==> r is Ok && ({
                let a = r.unwrap();
                &&& a.num_layers == bitmaps@.len()
                &&& grid_shape(a.layers) == (bitmaps@[0].height as nat, bitmaps@[0].width as nat)
                &&& forall|q: int| 0 <= q < bitmaps@[0].height * bitmaps@[0].width ==> #[trigger] grid_cells(a.layers)[q] == layer_mask(bitmaps@, bitmaps@.len() as int, q)
            }),
    {
        let n = bitmaps.len();
        if n == 0 {
            return Err(RasterError::NoLayers);
        }
        if n > 16 {
            return Err(RasterError::TooManyLayers(n));
        }
        let h = bitmaps[0].height;
        let w = bitmaps[0].width;
        let mut l: usize = 0;
        while l < n
            invariant
                n == bitmaps@.len(),
                n <= 16,
                h == bitmaps@[0].height,
                w == bitmaps@[0].width,
                l <= n,
                forall|j: int| 0 <= j < l ==> bitmaps@[j].height == h && bitmaps@[j].width == w,
                forall|j: int| 0 <= j < l ==> #[trigger] same_size(bitmaps@, j),
            decreases n - l,
        {
            if bitmaps[l].height != h || bitmaps[l].width != w {
                proof {
                    let bs = bitmaps@;
                    assert(!same_size(bs, l as int));
                    assert(forall|j: int| 0 <= j < l ==> #[trigger] same_size(bs, j));
                    let c = first_mismatch(bs).unwrap();
                    if c < l {
                        assert(same_size(bs, c));
                    } else if c > l {
                        assert(same_size(bs, l as int));
                    }
                }
                return Err(RasterError::DimensionMismatch { layer: l, rows: bitmaps[l].height, columns: bitmaps[l].width });
            }
            l = l + 1;
        }
        proof {
            assert(bitmaps@[0].wf());
            if first_mismatch(bitmaps@) is Some {
                let c = first_mismatch(bitmaps@).unwrap();
                assert(same_size(bitmaps@, c));
            }
        }
        let npx = h * w;
        let mut g = grid_zeros(h, w);
        let mut k: usize = 0;
        proof {
            assert forall|q: int| 0 <= q < npx implies #[trigger] grid_cells(g)[q] == layer_mask(bitmaps@, 0, q) by {}
        }
        while k < n
            invariant
                n == bitmaps@.len(),
                n <= 16,
                h == bitmaps@[0].height,
                w == bitmaps@[0].width,
                npx == h * w,
                forall|j: int| 0 <= j < n ==> bitmaps@[j].height == h && bitmaps@[j].width == w,
                forall|j: int| 0 <= j < n ==> (#[trigger] bitmaps@[j]).wf(),
                k <= n,
                grid_shape(g) == (h as nat, w as nat),
                grid_cells(g).len() == npx,
                forall|q: int| 0 <= q < npx ==> #[trigger] grid_cells(g)[q] == layer_mask(bitmaps@, k as int, q),
            decreases n - k,
        {
            let bm = &bitmaps[k];
            assert(bm.wf());
            let bit: u16 = 1u16 << (k as u16);
            let mut q: usize = 0;
            while q < npx
                invariant
                    n == bitmaps@.len(),
                    k < n <= 16,
                    bm == bitmaps@[k as int],
                    bm.pixels@.len() == npx,
                    npx == h * w,
                    bit == 1u16 << (k as u16),
                    grid_shape(g) == (h as nat, w as nat),
                    grid_cells(g).len() == npx,
                    q <= npx,
                    forall|r: int| 0 <= r < q ==> #[trigger] grid_cells(g)[r] == layer_mask(bitmaps@, k + 1, r),
                    forall|r: int| q <= r < npx ==> #[trigger] grid_cells(g)[r] == layer_mask(bitmaps@, k as int, r),
                decreases npx - q,
            {
                let iy = q / w;
                let ix = q % w;
                proof {
                    assert(w > 0) by (nonlinear_arith)
                        requires
                            q < npx,
                            npx == h * w,
                    ;
                    vstd::arithmetic::div_mod::lemma_fundamental_div_mod(q as int, w as int);
                    assert(iy * w + ix == q) by (nonlinear_arith)
                        requires
                            q == w * iy + ix,
                    ;
                    assert(iy < h) by (nonlinear_arith)
                        requires
                            iy * w + ix == q,
                            q < h * w,
                            0 <= ix,
                            w > 0,
                    ;
                }
                let v = grid_get(&g, iy, ix);
                if bm.pixels[q] > 0 {
                    grid_set(&mut g, iy, ix, v | bit);
                }
                proof {
                    let lm = layer_mask(bitmaps@, k as int, q as int);
                    assert(lm | 0u16 == lm) by (bit_vector);
                    assert(grid_cells(g)[q as int] == layer_mask(bitmaps@, k + 1, q as int));
                }
                q = q + 1;
            }
            k = k + 1;
        }
        Ok(Artwork { num_layers: n, layers: g })
    }

    /// The 4-connected components of each layer.
    pub fn connected_components(&self) -> (r: Vec<ConnectedComponents>)
        requires
            self.num_layers <= 16,
            grid_shape(self.layers).0 <= i32::MAX,
            grid_shape(self.layers).1 <= i32::MAX,
        ensures
            r@.len() == self.num_layers,
            forall|l: int|
                0 <= l < self.num_layers ==> (#[trigger] r@[l]).height == grid_shape(self.layers).0 && r@[l].width == grid_shape(self.layers).1
                    && r@[l].labels_set_pixels(mask_bits(self.layers, (1u16 << (l as u16)))),
    {
        let mut r: Vec<ConnectedComponents> = Vec::new();
        let mut l: usize = 0;
        while l < self.num_layers
            invariant
                self.num_layers <= 16,
                grid_shape(self.layers).0 <= i32::MAX,
                grid_shape(self.layers).1 <= i32::MAX,
                l <= self.num_layers,
                r@.len() == l,
                forall|j: int|
                    0 <= j < l ==> (#[trigger] r@[j]).height == grid_shape(self.layers).0 && r@[j].width == grid_shape(self.layers).1
                        && r@[j].labels_set_pixels(mask_bits(self.layers, (1u16 << (j as u16)))),
            decreases self.num_layers - l,
        {
            let cc = ConnectedComponents::from_array(&self.layers, 1u16 << (l as u16));
            r.push(cc);
            l = l + 1;
        }
        r
    }
}

} // verus!
