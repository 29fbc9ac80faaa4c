use vstd::prelude::*;
use vstd::arithmetic::div_mod::lemma_fundamental_div_mod_converse_div;
use crate::netindex::{NetInfos, Point, UNITS_PER_MM};
use crate::components::ConnectedComponents;

verus! {

/// Placement of a raster on the board: `dpi` pixels per inch, board point
/// `(x0, y0)` (units of 10^-10 mm) at the bottom-left corner, and the
/// raster's size in pixels. Row 0 is the top row.
#[derive(Clone, Copy, Debug, PartialEq, Eq, Structural)]
pub struct PixelMap {
    pub dpi: u32,
    pub x0: i128,
    pub y0: i128,
    pub height: usize,
    pub width: usize,
}

/// Largest coordinate magnitude the transform takes: 2^80 units.
pub open spec fn coord_limit() -> int {
    0x100000000000000000000
}

/// Column of board abscissa `x`: `floor((x - x0) / delta - 1/2)` with
/// `delta = 25.4 / dpi` mm, computed exactly.
pub open spec fn column_of(m: PixelMap, x: int) -> int {
    (20 * m.dpi * (x - m.x0) - 254 * UNITS_PER_MM) / (508 * UNITS_PER_MM)
}

/// Row of board ordinate `y`: `floor(H - (y - y0) / delta - 1/2)`, row 0 at
/// the top.
pub open spec fn row_of(m: PixelMap, y: int) -> int {
    (508 * UNITS_PER_MM * m.height - 20 * m.dpi * (y - m.y0) - 254 * UNITS_PER_MM) / (508 * UNITS_PER_MM)
}

pub open spec fn in_range(m: PixelMap, p: Point) -> bool {
    -coord_limit() <= p.x <= coord_limit() && -coord_limit() <= p.y <= coord_limit() && -coord_limit()
        <= m.x0 <= coord_limit() && -coord_limit() <= m.y0 <= coord_limit() && m.height <= coord_limit()
}

/// Pixel `(row, column)` of a board point, when inside the raster.
pub open spec fn pixel_spec(m: PixelMap, p: Point) -> Option<(usize, usize)> {
    let c = column_of(m, p.x as int);
    let r = row_of(m, p.y as int);
    if 0 <= c < m.width && 0 <= r < m.height {
        Some((r as usize, c as usize))
    } else {
        None
    }
}

/// `floor(a / b)` for positive `b`.
fn floor_div(a: i128, b: i128) -> (q: i128)
    requires
        b > 0,
        a > i128::MIN,
    ensures
        q == a as int / b as int,
{
    if a >= 0 {
        let q = a / b;
        q
    } else {
        let na = -a;
        let t = na / b;
        let r = na % b;
        if r == 0 {
            proof {
                assert(na == t * b + r) by (nonlinear_arith)
                    requires
                        t == na / b,
                        r == na % b,
                        b > 0,
                ;
                assert(a == (-t) * b + 0) by (nonlinear_arith)
                    requires
                        na == t * b,
                        a == -na,
                ;
                lemma_fundamental_div_mod_converse_div(a as int, b as int, -t, 0);
            }
            -t
        } else {
            proof {
                assert(na == t * b + r) by (nonlinear_arith)
                    requires
                        t == na / b,
                        r == na % b,
                        b > 0,
                ;
                assert(a == (-t - 1) * b + (b - r)) by (nonlinear_arith)
                    requires
                        na == t * b + r,
                        a == -na,
                ;
                lemma_fundamental_div_mod_converse_div(a as int, b as int, -t - 1, b - r);
            }
            -t - 1
        }
    }
}

impl PixelMap {
    /// Column and row of board point `p`, inside the raster or not.
    pub fn column_row(&self, p: Point) -> (r: (i128, i128))
        requires
            in_range(*self, p),
        ensures
            r.0 == column_of(*self, p.x as int),
            r.1 == row_of(*self, p.y as int),
    {
        let u = UNITS_PER_MM;
        let d = self.dpi as i128;
        assert(-20 * 0x100000000 * 2 * coord_limit() <= 20 * d * (p.x - self.x0) <= 20 * 0x100000000 * 2 * coord_limit()) by (nonlinear_arith)
            requires
                0 <= d <= 0x100000000,
                -2 * coord_limit() <= p.x - self.x0 <= 2 * coord_limit(),
        ;
        assert(-20 * 0x100000000 * 2 * coord_limit() <= 20 * d * (p.y - self.y0) <= 20 * 0x100000000 * 2 * coord_limit()) by (nonlinear_arith)
            requires
                0 <= d <= 0x100000000,
                -2 * coord_limit() <= p.y - self.y0 <= 2 * coord_limit(),
        ;
        let h = self.height as i128;
        assert(0 <= 508 * u * h <= 508 * 10_000_000_000 * coord_limit()) by (nonlinear_arith)
            requires
                u == 10_000_000_000,
                0 <= h <= coord_limit(),
        ;
        let c = floor_div(20 * d * (p.x - self.x0) - 254 * u, 508 * u);
        let r = floor_div(508 * u * h - 20 * d * (p.y - self.y0) - 254 * u, 508 * u);
        (c, r)
    }

    /// Pixel `(row, column)` of board point `p`, or `None` outside the raster.
    pub fn pixel_of(&self, p: Point) -> (r: Option<(usize, usize)>)
        requires
            in_range(*self, p),
        ensures
            r == pixel_spec(*self, p),
    {
        let (c, r) = self.column_row(p);
        let h = self.height as i128;
        if 0 <= c && c < self.width as i128 && 0 <= r && r < h {
            Some((r as usize, c as usize))
        } else {
            None
        }
    }
}

/// A board point exactly at the centre of a pixel maps back to that pixel.
pub proof fn lemma_centre_maps_back(m: PixelMap, row: int, col: int, x: int, y: int)
    requires
        20 * m.dpi * (x - m.x0) == (2 * col + 1) * 254 * UNITS_PER_MM,
        20 * m.dpi * (y - m.y0) == (2 * (m.height - row) - 1) * 254 * UNITS_PER_MM,
    ensures
        column_of(m, x) == col,
        row_of(m, y) == row,
{
    let u = UNITS_PER_MM as int;
    assert(20 * m.dpi * (x - m.x0) - 254 * u == col * (508 * u) + 0) by (nonlinear_arith)
        requires
            20 * m.dpi * (x - m.x0) == (2 * col + 1) * 254 * u,
    ;
    lemma_fundamental_div_mod_converse_div(20 * m.dpi * (x - m.x0) - 254 * u, 508 * u, col, 0);
    assert(508 * u * m.height - 20 * m.dpi * (y - m.y0) - 254 * u == row * (508 * u) + 0) by (nonlinear_arith)
        requires
            20 * m.dpi * (y - m.y0) == (2 * (m.height - row) - 1) * 254 * u,
    ;
    lemma_fundamental_div_mod_converse_div(508 * u * m.height - 20 * m.dpi * (y - m.y0) - 254 * u, 508 * u, row, 0);
}

/// A flash point exactly at the centre of a pixel of the raster resolves to
/// that pixel, so `pixel_of` returns it and the point is not out of bounds.
pub proof fn lemma_centre_pixel(m: PixelMap, row: int, col: int, p: Point)
    requires
        0 <= row < m.height,
        0 <= col < m.width,
        20 * m.dpi * (p.x - m.x0) == (2 * col + 1) * 254 * UNITS_PER_MM,
        20 * m.dpi * (p.y - m.y0) == (2 * (m.height - row) - 1) * 254 * UNITS_PER_MM,
    ensures
        pixel_spec(m, p) == Some((row as usize, col as usize)),
{
    lemma_centre_maps_back(m, row, col, p.x as int, p.y as int);
}

/// All flash points of a net index as `(net, point)`, nets in order.
pub open spec fn net_points(g: Seq<(Seq<char>, Seq<Point>)>) -> Seq<(Seq<char>, Point)>
    decreases g.len(),
{
    if g.len() == 0 {
        Seq::empty()
    } else {
        net_points(g.drop_last()) + g.last().1.map_values(|p: Point| (g.last().0, p))
    }
}

/// Label of the pixel under board point `p` (0: no component), or `None`
/// when the point falls outside the raster.
pub open spec fn label_at(m: PixelMap, labels: Seq<usize>, p: Point) -> Option<usize> {
    match pixel_spec(m, p) {
        Some((r, c)) => Some(labels[r * m.width + c]),
        None => None,
    }
}

/// Net that claims component `k` (0-based): that of the last point of
/// `recs` on a pixel of it.
pub open spec fn claimed(m: PixelMap, labels: Seq<usize>, recs: Seq<(Seq<char>, Point)>, k: int) -> Option<Seq<char>>
    decreases recs.len(),
{
    if recs.len() == 0 {
        None
    } else if label_at(m, labels, recs.last().1) == Some((k + 1) as usize) {
        Some(recs.last().0)
    } else {
        claimed(m, labels, recs.drop_last(), k)
    }
}

/// Number of points of `recs` outside the raster.
pub open spec fn outside_count(m: PixelMap, labels: Seq<usize>, recs: Seq<(Seq<char>, Point)>) -> nat
    decreases recs.len(),
{
    if recs.len() == 0 {
        0
    } else {
        outside_count(m, labels, recs.drop_last()) + if label_at(m, labels, recs.last().1) is None { 1nat } else { 0nat }
    }
}

/// Number of points of `recs` that claim a component an earlier point
/// gave to another net.
pub open spec fn conflict_count(m: PixelMap, labels: Seq<usize>, recs: Seq<(Seq<char>, Point)>) -> nat
    decreases recs.len(),
{
    if recs.len() == 0 {
        0
    } else {
        let pre = recs.drop_last();
        let l = label_at(m, labels, recs.last().1);
        let clash = l is Some && l.unwrap() > 0 && claimed(m, labels, pre, l.unwrap() - 1) is Some
            && claimed(m, labels, pre, l.unwrap() - 1).unwrap() != recs.last().0;
        conflict_count(m, labels, pre) + if clash { 1nat } else { 0nat }
    }
}

/// What matching one layer's nets to its components gives.
pub struct LayerMatch {
    /// Net of each component, `None` for one no flash point lands on.
    pub names: Vec<Option<String>>,
    /// For each net and each of its points: the label under the point
    /// (0: no component), or `None` outside the raster.
    pub hits: Vec<Vec<Option<usize>>>,
    pub out_of_bounds: usize,
    pub conflicts: usize,
}

pub open spec fn opt_view(o: Option<String>) -> Option<Seq<char>> {
    match o {
        Some(s) => Some(s@),
        None => None,
    }
}

/// Requirements on a layer's matching inputs: the raster placement fits the
/// labelling and every point is within the transform's range.
pub open spec fn match_inputs(info: &NetInfos, cc: &ConnectedComponents, m: PixelMap) -> bool {
    &&& info.wf()
    &&& m.height == cc.height
    &&& m.width == cc.width
    &&& cc.labels@.len() == cc.height * cc.width
    &&& forall|q: int| 0 <= q < cc.labels@.len() ==> #[trigger] cc.labels@[q] <= cc.components@.len()
    &&& forall|i: int| 0 <= i < net_points(info@).len() ==> in_range(m, #[trigger] net_points(info@)[i].1)
}

fn label_lookup(m: &PixelMap, labels: &Vec<usize>, p: Point, bound: usize) -> (r: Option<usize>)
    requires
        labels@.len() == m.height * m.width,
        in_range(*m, p),
        forall|q: int| 0 <= q < labels@.len() ==> #[trigger] labels@[q] <= bound,
    ensures
        r == label_at(*m, labels@, p),
        r is Some ==> r.unwrap() <= bound,
{
    let n = labels.len();
    match m.pixel_of(p) {
        None => None,
        Some((row, col)) => {
            assert(row * m.width + col < m.height * m.width) by (nonlinear_arith)
                requires
                    row < m.height,
                    col < m.width,
            ;
            assert(row * m.width <= row * m.width + col);
            Some(labels[row * m.width + col])
        },
    }
}

/// Maps each net's flash points to pixels and gives each component the net
/// of the last point that lands on it, counting points outside the raster
/// and claims that replace another net's.
#[verifier::rlimit(80)]
pub fn match_nets(info: &NetInfos, cc: &ConnectedComponents, m: &PixelMap) -> (r: LayerMatch)
    requires
        match_inputs(info, cc, *m),
    ensures
        r.names@.len() == cc.components@.len(),
        forall|k: int| 0 <= k < r.names@.len() ==> opt_view(#[trigger] r.names@[k]) == claimed(*m, cc.labels@, net_points(info@), k),
        r.hits@.len() == info@.len(),
        forall|n: int| 0 <= n < info@.len() ==> (#[trigger] r.hits@[n])@ == info@[n].1.map_values(|p: Point| label_at(*m, cc.labels@, p)),
        r.out_of_bounds == outside_count(*m, cc.labels@, net_points(info@)),
        r.conflicts == conflict_count(*m, cc.labels@, net_points(info@)),
{
    let ghost g = info@;
    let ghost labels = cc.labels@;
    let mut hits: Vec<Vec<Option<usize>>> = Vec::new();
    let mut flat: Vec<(usize, Point, Option<usize>)> = Vec::new();
    let mut n: usize = 0;
    proof {
        assert(g.take(0) =~= Seq::<(Seq<char>, Seq<Point>)>::empty());
    }
    while n < info.names.len()
        invariant
            match_inputs(info, cc, *m),
            g == info@,
            labels == cc.labels@,
            n <= g.len(),
            hits@.len() == n,
            forall|j: int| 0 <= j < n ==> (#[trigger] hits@[j])@ == g[j].1.map_values(|p: Point| label_at(*m, labels, p)),
            flat@.len() == net_points(g.take(n as int)).len(),
            forall|i: int| 0 <= i < flat@.len() ==> #[trigger] flat@[i].0 < g.len() && (g[flat@[i].0 as int].0, flat@[i].1) == net_points(g.take(n as int))[i]
                && flat@[i].2 == label_at(*m, labels, flat@[i].1) && (flat@[i].2 is Some ==> flat@[i].2.unwrap() <= cc.components@.len()),
        decreases g.len() - n,
    {
        let ghost pre = net_points(g.take(n as int));
        let ghost add = g[n as int].1.map_values(|p: Point| (g[n as int].0, p));
        proof {
            assert(g.take(n + 1).drop_last() =~= g.take(n as int));
            assert(g.take(n + 1).last() == g[n as int]);
            assert(net_points(g.take(n + 1)) == pre + add);
            assert forall|i: int| 0 <= i < add.len() implies in_range(*m, #[trigger] add[i].1) by {
                lemma_net_points_prefix(g, n + 1);
                assert((pre + add)[pre.len() + i] == add[i]);
                assert(net_points(g.take(n + 1)) == net_points(g).take((pre + add).len() as int));
                assert(net_points(g)[pre.len() + i] == add[i]);
            }
        }
        let pts = &info.points[n];
        let mut row: Vec<Option<usize>> = Vec::new();
        let mut t: usize = 0;
        while t < pts.len()
            invariant
                match_inputs(info, cc, *m),
                g == info@,
                labels == cc.labels@,
                n < g.len(),
                pts@ == g[n as int].1,
                add == g[n as int].1.map_values(|p: Point| (g[n as int].0, p)),
                forall|i: int| 0 <= i < add.len() ==> in_range(*m, #[trigger] add[i].1),
                t <= pts@.len(),
                row@ == g[n as int].1.take(t as int).map_values(|p: Point| label_at(*m, labels, p)),
                flat@.len() == pre.len() + t,
                forall|i: int| 0 <= i < flat@.len() ==> #[trigger] flat@[i].0 < g.len() && (g[flat@[i].0 as int].0, flat@[i].1) == (pre + add)[i]
                    && flat@[i].2 == label_at(*m, labels, flat@[i].1) && (flat@[i].2 is Some ==> flat@[i].2.unwrap() <= cc.components@.len()),
            decreases pts@.len() - t,
        {
            let p = pts[t];
            assert(add[t as int].1 == p);
            let l = label_lookup(m, &cc.labels, p, cc.components.len());
            row.push(l);
            flat.push((n, p, l));
            proof {
                assert(g[n as int].1.take(t + 1) =~= g[n as int].1.take(t as int).push(p));
                assert(row@ =~= g[n as int].1.take(t + 1).map_values(|p: Point| label_at(*m, labels, p)));
                assert((pre + add)[pre.len() + t] == add[t as int]);
            }
            t = t + 1;
        }
        proof {
            assert(g[n as int].1.take(t as int) =~= g[n as int].1);
            assert(net_points(g.take(n + 1)) == pre + add);
            assert(flat@.len() == net_points(g.take(n + 1)).len());
            assert forall|i: int| 0 <= i < flat@.len() implies #[trigger] flat@[i].0 < g.len() && (g[flat@[i].0 as int].0, flat@[i].1) == net_points(g.take(n + 1))[i]
                && flat@[i].2 == label_at(*m, labels, flat@[i].1) && (flat@[i].2 is Some ==> flat@[i].2.unwrap() <= cc.components@.len()) by {
                assert((pre + add)[i] == net_points(g.take(n + 1))[i]);
                assert(flat@[i].0 < g.len());
                assert((g[flat@[i].0 as int].0, flat@[i].1) == (pre + add)[i]);
                assert(flat@[i].2 == label_at(*m, labels, flat@[i].1));
                assert(flat@[i].2 is Some ==> flat@[i].2.unwrap() <= cc.components@.len());
            }
        }
        hits.push(row);
        n = n + 1;
    }
    proof {
        assert(g.take(n as int) =~= g);
    }
    let ghost recs = net_points(g);
    let ncomp = cc.components.len();
    let mut names: Vec<Option<String>> = Vec::new();
    while names.len() < ncomp
        invariant
            names@.len() <= ncomp,
            forall|k: int| 0 <= k < names@.len() ==> names@[k] is None,
        decreases ncomp - names@.len(),
    {
        names.push(None);
    }
    let mut outside: usize = 0;
    let mut conflicts: usize = 0;
    let mut i: usize = 0;
    proof {
        assert(recs.take(0) =~= Seq::<(Seq<char>, Point)>::empty());
    }
    while i < flat.len()
        invariant
            g == info@,
            labels == cc.labels@,
            recs == net_points(g),
            flat@.len() == recs.len(),
            forall|j: int| 0 <= j < flat@.len() ==> #[trigger] flat@[j].0 < g.len() && (g[flat@[j].0 as int].0, flat@[j].1) == recs[j]
                && flat@[j].2 == label_at(*m, labels, flat@[j].1) && (flat@[j].2 is Some ==> flat@[j].2.unwrap() <= ncomp),
            ncomp == cc.components@.len(),
            info.wf(),
            i <= flat@.len(),
            names@.len() == ncomp,
            forall|k: int| 0 <= k < ncomp ==> opt_view(#[trigger] names@[k]) == claimed(*m, labels, recs.take(i as int), k),
            outside == outside_count(*m, labels, recs.take(i as int)),
            conflicts == conflict_count(*m, labels, recs.take(i as int)),
            outside <= i,
            conflicts <= i,
        decreases flat@.len() - i,
    {
        let (ni, p, l) = flat[i];
        let ghost pre = recs.take(i as int);
        proof {
            assert(recs.take(i + 1).drop_last() =~= pre);
            assert(recs.take(i + 1).last() == recs[i as int]);
            assert(g[ni as int].0 == info.names@[ni as int]@);
        }
        match l {
            None => {
                outside = outside + 1;
            },
            Some(lab) => {
                if lab > 0 && lab <= ncomp {
                    let nm = &info.names[ni];
                    let clash = match &names[lab - 1] {
                        Some(old) => *old != *nm,
                        None => false,
                    };
                    if clash {
                        conflicts = conflicts + 1;
                    }
                    names.set(lab - 1, Some(nm.clone()));
                }
            },
        }
        proof {
            assert forall|k: int| 0 <= k < ncomp implies opt_view(#[trigger] names@[k]) == claimed(*m, labels, recs.take(i + 1), k) by {
                if l != Some((k + 1) as usize) {
                    assert(claimed(*m, labels, recs.take(i + 1), k) == claimed(*m, labels, pre, k));
                }
            }
        }
        i = i + 1;
    }
    proof {
        assert(recs.take(i as int) =~= recs);
    }
    LayerMatch { names, hits, out_of_bounds: outside, conflicts }
}

/// The points of the first `n` nets come first among all points.
proof fn lemma_net_points_prefix(g: Seq<(Seq<char>, Seq<Point>)>, n: int)
    requires
        0 <= n <= g.len(),
    ensures
        net_points(g.take(n)) == net_points(g).take(net_points(g.take(n)).len() as int),
        net_points(g.take(n)).len() <= net_points(g).len(),
    decreases g.len() - n,
{
    if n == g.len() {
        assert(g.take(n) =~= g);
        assert(net_points(g).take(net_points(g).len() as int) =~= net_points(g));
    } else {
        lemma_net_points_prefix(g, n + 1);
        assert(g.take(n + 1).drop_last() =~= g.take(n));
        let a = net_points(g.take(n));
        let b = net_points(g.take(n + 1));
        assert(b == a + g.take(n + 1).last().1.map_values(|p: Point| (g.take(n + 1).last().0, p)));
        assert(b.take(a.len() as int) =~= a);
        assert(net_points(g).take(a.len() as int) =~= b.take(a.len() as int));
    }
}

} // verus!
