use vstd::prelude::*;

verus! {

/// Colour of a pixel with label `l`: black where there is no component (or
/// no colour for it), else its component's colour.
pub open spec fn colour_at(colours: Seq<(u8, u8, u8)>, l: usize) -> (u8, u8, u8) {
    if 0 < l <= colours.len() {
        colours[l - 1]
    } else {
        (0, 0, 0)
    }
}

/// RGB image of a labelled layer, three bytes per pixel in row-major order.
pub fn layer_image(labels: &Vec<usize>, colours: &Vec<(u8, u8, u8)>) -> (r: Vec<u8>)
    requires
        labels@.len() * 3 <= usize::MAX,
    ensures
        r@.len() == 3 * labels@.len(),
        forall|q: int|
            0 <= q < labels@.len() ==> (r@[3 * q], r@[3 * q + 1], r@[3 * q + 2]) == colour_at(colours@, #[trigger] labels@[q]),
{
    let mut r: Vec<u8> = Vec::new();
    let mut q: usize = 0;
    while q < labels.len()
        invariant
            q <= labels@.len(),
            r@.len() == 3 * q,
            forall|j: int| 0 <= j < q ==> (r@[3 * j], r@[3 * j + 1], r@[3 * j + 2]) == colour_at(colours@, #[trigger] labels@[j]),
        decreases labels@.len() - q,
    {
        let l = labels[q];
        let c = if 0 < l && l <= colours.len() { colours[l - 1] } else { (0, 0, 0) };
        r.push(c.0);
        r.push(c.1);
        r.push(c.2);
        q = q + 1;
    }
    r
}

/// The red byte of pixel `(iy, ix)` is inverted by a crosshair at `(row,
/// col)`: on the row or the column, but not both.
pub open spec fn on_crosshair(iy: int, ix: int, row: int, col: int) -> bool {
    (iy == row) != (ix == col)
}

/// Inverts the red channel along row `row` and column `col` of an RGB image
/// of `h` rows and `w` columns (their crossing is inverted twice, so it
/// keeps its colour).
pub fn mark_crosshair(img: &mut Vec<u8>, h: usize, w: usize, row: usize, col: usize)
    requires
        old(img)@.len() == 3 * (h * w),
        row < h,
        col < w,
    ensures
        final(img)@.len() == old(img)@.len(),
        forall|q: int|
            0 <= q < h * w ==> #[trigger] final(img)@[3 * q] == if on_crosshair(q / w as int, q % w as int, row as int, col as int) {
                old(img)@[3 * q] ^ 255u8
            } else {
                old(img)@[3 * q]
            },
        forall|i: int| 0 <= i < old(img)@.len() && i % 3 != 0 ==> #[trigger] final(img)@[i] == old(img)@[i],
{
    let ghost o = img@;
    let len = img.len();
    let n = len / 3;
    let mut q: usize = 0;
    while q < n
        invariant
            img@.len() == o.len(),
            o.len() == len,
            o.len() == 3 * (h * w),
            n == h * w,
            w > 0,
            q <= n,
            forall|j: int|
                0 <= j < q ==> #[trigger] img@[3 * j] == if on_crosshair(j / w as int, j % w as int, row as int, col as int) {
                    o[3 * j] ^ 255u8
                } else {
                    o[3 * j]
                },
            forall|i: int| 0 <= i < o.len() && (i % 3 != 0 || i >= 3 * q) ==> #[trigger] img@[i] == o[i],
        decreases n - q,
    {
        let iy = q / w;
        let ix = q % w;
        if (iy == row) != (ix == col) {
            let v = img[3 * q];
            img.set(3 * q, v ^ 255u8);
        }
        q = q + 1;
    }
}

} // verus!
