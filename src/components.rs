use vstd::prelude::*;
use vstd::set_lib::{set_int_range, lemma_int_range};
use crate::grid::{MaskGrid, grid_cells, grid_shape, grid_dim, grid_get};

verus! {

/// A pixel position: row `iy` (0 at the top) and column `ix`.
#[derive(Clone, Copy, Debug, PartialEq, Eq, PartialOrd, Ord, Hash)]
pub struct CellId {
    pub iy: i32,
    pub ix: i32,
}

/// Two cells share an edge (4-adjacency; diagonal cells are not adjacent).
pub open spec fn adjacent(a: CellId, b: CellId) -> bool {
    (a.iy == b.iy && (a.ix - b.ix == 1 || b.ix - a.ix == 1)) || (a.ix == b.ix && (a.iy - b.iy
        == 1 || b.iy - a.iy == 1))
}

/// The cell lies in a grid of `h` rows and `w` columns.
pub open spec fn in_grid(c: CellId, h: int, w: int) -> bool {
    0 <= c.iy < h && 0 <= c.ix < w
}

/// Row-major index of a cell in a grid of `w` columns.
pub open spec fn flat(c: CellId, w: int) -> int {
    c.iy * w + c.ix
}

pub proof fn lemma_flat_bounds(c: CellId, h: int, w: int)
    requires
        in_grid(c, h, w),
    ensures
        0 <= flat(c, w) < h * w,
{
    assert(0 <= c.iy * w) by (nonlinear_arith)
        requires
            0 <= c.iy,
            0 <= w,
    ;
    assert(c.iy * w + c.ix < h * w) by (nonlinear_arith)
        requires
            c.iy < h,
            0 <= c.ix < w,
    ;
}

pub proof fn lemma_flat_injective(a: CellId, b: CellId, h: int, w: int)
    requires
        in_grid(a, h, w),
        in_grid(b, h, w),
        flat(a, w) == flat(b, w),
    ensures
        a == b,
{
    if a.iy < b.iy {
        assert(a.iy * w + a.ix < b.iy * w + b.ix) by (nonlinear_arith)
            requires
                a.iy < b.iy,
                0 <= a.ix < w,
                0 <= b.ix,
        ;
    } else if b.iy < a.iy {
        assert(b.iy * w + b.ix < a.iy * w + a.ix) by (nonlinear_arith)
            requires
                b.iy < a.iy,
                0 <= b.ix < w,
                0 <= a.ix,
        ;
    }
}

impl CellId {
    /// The four edge-sharing neighbours: above, below, left, right.
    pub fn neighbours(&self) -> (r: [Self; 4])
        requires
            i32::MIN < self.iy < i32::MAX,
            i32::MIN < self.ix < i32::MAX,
        ensures
            r@ == seq![
                CellId { iy: (self.iy - 1) as i32, ix: self.ix },
                CellId { iy: (self.iy + 1) as i32, ix: self.ix },
                CellId { iy: self.iy, ix: (self.ix - 1) as i32 },
                CellId { iy: self.iy, ix: (self.ix + 1) as i32 },
            ],
            forall|c: CellId| #[trigger] adjacent(*self, c) <==> r@.contains(c),
    {
        let iy = self.iy;
        let ix = self.ix;
        let r = [
            CellId { iy: iy - 1, ix },
            CellId { iy: iy + 1, ix },
            CellId { iy, ix: ix - 1 },
            CellId { iy, ix: ix + 1 },
        ];
        proof {
            assert forall|c: CellId| #[trigger] adjacent(*self, c) <==> r@.contains(c) by {
                if adjacent(*self, c) {
                    if c.iy == iy - 1 {
                        assert(r@[0] == c);
                    } else if c.iy == iy + 1 {
                        assert(r@[1] == c);
                    } else if c.ix == ix - 1 {
                        assert(r@[2] == c);
                    } else {
                        assert(r@[3] == c);
                    }
                }
            }
        }
        r
    }
}

/// Pixels of a grid whose label is still zero.
pub open spec fn unlabeled(l: Seq<usize>) -> Set<int> {
    Set::new(|q: int| 0 <= q < l.len() && l[q] == 0)
}

proof fn lemma_unlabeled_finite(l: Seq<usize>)
    ensures
        unlabeled(l).finite(),
        unlabeled(l).len() <= l.len(),
{
    lemma_int_range(0, l.len() as int);
    assert(unlabeled(l).subset_of(set_int_range(0, l.len() as int)));
    vstd::set_lib::lemma_len_subset(unlabeled(l), set_int_range(0, l.len() as int));
}

/// Each cell after the first shares an edge with an earlier one, so the
/// cells form one 4-connected region grown from the first.
pub open spec fn grown(c: Seq<CellId>) -> bool {
    forall|t: int| 0 < t < c.len() ==> #[trigger] touches(c.take(t), c[t])
}

/// Some cell of `c` shares an edge with `x`.
pub open spec fn touches(c: Seq<CellId>, x: CellId) -> bool {
    exists|s: int| 0 <= s < c.len() && #[trigger] adjacent(c[s], x)
}

/// The cells of `c` are pairwise distinct.
pub open spec fn distinct_cells(c: Seq<CellId>) -> bool {
    forall|t1: int, t2: int|
        0 <= t1 < c.len() && 0 <= t2 < c.len() && t1 != t2 ==> #[trigger] c[t1] != #[trigger] c[t2]
}

/// Set pixels that share an edge carry the same label, once one of them is
/// labelled.
pub open spec fn labels_closed(bits: Seq<bool>, l: Seq<usize>, h: int, w: int) -> bool {
    forall|a: CellId, b: CellId|
        #![trigger adjacent(a, b), l[flat(a, w)], l[flat(b, w)]]
        in_grid(a, h, w) && in_grid(b, h, w) && adjacent(a, b) && bits[flat(a, w)] && bits[flat(
            b,
            w,
        )] && l[flat(a, w)] != 0 ==> l[flat(b, w)] == l[flat(a, w)]
}

/// Cells of `c` lie in the grid and carry label `lab`.
pub open spec fn cells_labelled(c: Seq<CellId>, l: Seq<usize>, h: int, w: int, lab: int) -> bool {
    forall|t: int| 0 <= t < c.len() ==> in_grid(#[trigger] c[t], h, w) && l[flat(c[t], w)] == lab
}

/// Some cell of `c` sits at row-major index `q`.
pub open spec fn holds_index(c: Seq<CellId>, w: int, q: int) -> bool {
    exists|t: int| 0 <= t < c.len() && flat(#[trigger] c[t], w) == q
}

/// State of a flood fill from `seed` that gives label `lab`: `comp` holds
/// the cells taken so far, `stack` those still to take; `l0` are the labels
/// before the fill.
#[verifier::opaque]
spec fn fill_state(
    bits: Seq<bool>,
    l0: Seq<usize>,
    l: Seq<usize>,
    comp: Seq<CellId>,
    stack: Seq<CellId>,
    h: int,
    w: int,
    lab: usize,
    seed: CellId,
) -> bool {
    &&& l.len() == h * w
    &&& forall|q: int|
        0 <= q < l.len() ==> (l0[q] != 0 ==> l[q] == l0[q]) && (l[q] != l0[q] ==> l[q] == lab) && (
        l[q] != 0 ==> bits[q])
    &&& cells_labelled(comp, l, h, w, lab as int)
    &&& cells_labelled(stack, l, h, w, lab as int)
    &&& distinct_cells(comp)
    &&& distinct_cells(stack)
    &&& forall|t1: int, t2: int| 0 <= t1 < comp.len() && 0 <= t2 < stack.len() ==> #[trigger] comp[t1] != #[trigger] stack[t2]
    &&& forall|q: int| 0 <= q < l.len() && l[q] == lab ==> holds_index(comp, w, q) || holds_index(stack, w, q)
    &&& grown(comp)
    &&& comp.len() == 0 ==> stack == seq![seed]
    &&& comp.len() > 0 ==> comp[0] == seed
    &&& forall|t: int| 0 <= t < stack.len() && comp.len() > 0 ==> touches(comp, #[trigger] stack[t])
}

/// Every set neighbour of a taken cell is labelled `lab`.
spec fn comp_closed(bits: Seq<bool>, l: Seq<usize>, comp: Seq<CellId>, h: int, w: int, lab: usize) -> bool {
    forall|t: int, b: CellId|
        #![trigger comp[t], adjacent(comp[t], b)]
        0 <= t < comp.len() && in_grid(b, h, w) && adjacent(comp[t], b) && bits[flat(b, w)] ==> l[flat(b, w)] == lab
}

/// Labels `c` and pushes it on the stack when it is an unlabelled set pixel
/// of the grid; `c` shares an edge with the last cell taken.
#[verifier::rlimit(30)]
fn visit(
    bits: &Vec<bool>,
    labels: &mut Vec<usize>,
    stack: &mut Vec<CellId>,
    c: CellId,
    h: usize,
    w: usize,
    lab: usize,
    Ghost(l0): Ghost<Seq<usize>>,
    Ghost(comp): Ghost<Seq<CellId>>,
    Ghost(seed): Ghost<CellId>,
)
    requires
        bits@.len() == h * w,
        lab > 0,
        fill_state(bits@, l0, old(labels)@, comp, old(stack)@, h as int, w as int, lab, seed),
        comp.len() > 0,
        adjacent(comp.last(), c),
        unlabeled(old(labels)@).finite(),
    ensures
        fill_state(bits@, l0, final(labels)@, comp, final(stack)@, h as int, w as int, lab, seed),
        forall|q: int| 0 <= q < h * w && old(labels)@[q] != 0 ==> final(labels)@[q] == old(labels)@[q],
        in_grid(c, h as int, w as int) && bits@[flat(c, w as int)] ==> final(labels)@[flat(c, w as int)] != 0,
        unlabeled(final(labels)@).finite(),
        2 * unlabeled(final(labels)@).len() + final(stack)@.len() <= 2 * unlabeled(old(labels)@).len() + old(stack)@.len(),
{
    let ghost hi = h as int;
    let ghost wi = w as int;
    let n = bits.len();
    proof {
        reveal(fill_state);
    }
    if c.iy >= 0 && c.ix >= 0 && (c.iy as usize) < h && (c.ix as usize) < w {
        proof {
            lemma_flat_bounds(c, hi, wi);
            assert((c.iy as usize) * w <= flat(c, wi));
        }
        let q = (c.iy as usize) * w + (c.ix as usize);
        if bits[q] && labels[q] == 0 {
            let ghost lold = labels@;
            let ghost sold = stack@;
            labels.set(q, lab);
            stack.push(c);
            proof {
                assert(unlabeled(labels@) =~= unlabeled(lold).remove(q as int));
                assert(unlabeled(lold).contains(q as int));
                assert forall|t: int| 0 <= t < comp.len() implies in_grid(#[trigger] comp[t], hi, wi) && labels@[flat(comp[t], wi)] == lab by {
                    assert(lold[flat(comp[t], wi)] == lab);
                    lemma_flat_bounds(comp[t], hi, wi);
                }
                assert forall|t: int| 0 <= t < stack@.len() implies in_grid(#[trigger] stack@[t], hi, wi) && labels@[flat(stack@[t], wi)] == lab by {
                    lemma_flat_bounds(stack@[t], hi, wi);
                    if t < sold.len() {
                        assert(stack@[t] == sold[t]);
                        assert(lold[flat(sold[t], wi)] == lab);
                    }
                }
                assert forall|t1: int, t2: int|
                    0 <= t1 < stack@.len() && 0 <= t2 < stack@.len() && t1 != t2 implies #[trigger] stack@[t1] != #[trigger] stack@[t2] by {
                    if t1 < sold.len() && t2 < sold.len() {
                        assert(stack@[t1] == sold[t1] && stack@[t2] == sold[t2]);
                    } else if t1 < sold.len() {
                        assert(stack@[t1] == sold[t1]);
                        assert(lold[flat(sold[t1], wi)] == lab);
                    } else if t2 < sold.len() {
                        assert(stack@[t2] == sold[t2]);
                        assert(lold[flat(sold[t2], wi)] == lab);
                    }
                }
                assert forall|t1: int, t2: int| 0 <= t1 < comp.len() && 0 <= t2 < stack@.len() implies #[trigger] comp[t1] != #[trigger] stack@[t2] by {
                    if t2 < sold.len() {
                        assert(stack@[t2] == sold[t2]);
                    } else {
                        assert(lold[flat(comp[t1], wi)] == lab);
                    }
                }
                assert forall|r: int| 0 <= r < labels@.len() && labels@[r] == lab implies holds_index(comp, wi, r) || holds_index(stack@, wi, r) by {
                    if r == q {
                        assert(stack@[stack@.len() - 1] == c);
                    } else {
                        assert(lold[r] == lab);
                        if !holds_index(comp, wi, r) {
                            let t = choose|t: int| 0 <= t < sold.len() && flat(#[trigger] sold[t], wi) == r;
                            assert(stack@[t] == sold[t]);
                        }
                    }
                }
                assert forall|t: int| 0 <= t < stack@.len() && comp.len() > 0 implies touches(comp, #[trigger] stack@[t]) by {
                    if t < sold.len() {
                        assert(stack@[t] == sold[t]);
                    } else {
                        assert(adjacent(comp[comp.len() - 1], stack@[t]));
                    }
                }
                assert(labels@.len() == hi * wi);
                assert(cells_labelled(comp, labels@, hi, wi, lab as int));
                assert(cells_labelled(stack@, labels@, hi, wi, lab as int));
                assert(distinct_cells(stack@));
                assert(forall|qq: int|
                    0 <= qq < labels@.len() ==> (l0[qq] != 0 ==> labels@[qq] == l0[qq]) && (labels@[qq] != l0[qq] ==> labels@[qq] == lab) && (
                    labels@[qq] != 0 ==> bits@[qq]));
                assert(comp.len() > 0 ==> comp[0] == seed);
            }
        }
    }
}

proof fn lemma_grown_push(c: Seq<CellId>, x: CellId)
    requires
        grown(c),
        c.len() > 0 ==> touches(c, x),
    ensures
        grown(c.push(x)),
{
    let c2 = c.push(x);
    assert forall|t: int| 0 < t < c2.len() implies #[trigger] touches(c2.take(t), c2[t]) by {
        if t < c.len() {
            assert(c2.take(t) =~= c.take(t));
            assert(c2[t] == c[t]);
            assert(touches(c.take(t), c[t]));
        } else {
            assert(c2.take(t) =~= c);
        }
    }
}

#[verifier::rlimit(60)]
proof fn lemma_take(
    bits: Seq<bool>,
    l0: Seq<usize>,
    l: Seq<usize>,
    comp: Seq<CellId>,
    stack: Seq<CellId>,
    h: int,
    w: int,
    lab: usize,
    seed: CellId,
)
    requires
        fill_state(bits, l0, l, comp, stack, h, w, lab, seed),
        stack.len() > 0,
    ensures
        fill_state(bits, l0, l, comp.push(stack.last()), stack.drop_last(), h, w, lab, seed),
        in_grid(stack.last(), h, w),
        l[flat(stack.last(), w)] == lab,
{
    reveal(fill_state);
    let x = stack.last();
    let c2 = comp.push(x);
    let s2 = stack.drop_last();
    let k = stack.len() - 1;
    assert(stack[k] == x);
    assert forall|t: int| 0 <= t < c2.len() implies in_grid(#[trigger] c2[t], h, w) && l[flat(c2[t], w)] == lab by {
        if t < comp.len() {
            assert(c2[t] == comp[t]);
        }
    }
    assert forall|t: int| 0 <= t < s2.len() implies in_grid(#[trigger] s2[t], h, w) && l[flat(s2[t], w)] == lab by {
        assert(s2[t] == stack[t]);
    }
    assert forall|t1: int, t2: int|
        0 <= t1 < c2.len() && 0 <= t2 < c2.len() && t1 != t2 implies #[trigger] c2[t1] != #[trigger] c2[t2] by {
        if t1 < comp.len() && t2 < comp.len() {
            assert(c2[t1] == comp[t1] && c2[t2] == comp[t2]);
        } else if t1 < comp.len() {
            assert(c2[t1] == comp[t1] && comp[t1] != stack[k]);
        } else if t2 < comp.len() {
            assert(c2[t2] == comp[t2] && comp[t2] != stack[k]);
        }
    }
    assert forall|t1: int, t2: int|
        0 <= t1 < s2.len() && 0 <= t2 < s2.len() && t1 != t2 implies #[trigger] s2[t1] != #[trigger] s2[t2] by {
        assert(s2[t1] == stack[t1] && s2[t2] == stack[t2]);
    }
    assert forall|t1: int, t2: int| 0 <= t1 < c2.len() && 0 <= t2 < s2.len() implies #[trigger] c2[t1] != #[trigger] s2[t2] by {
        assert(s2[t2] == stack[t2]);
        if t1 < comp.len() {
            assert(c2[t1] == comp[t1]);
        } else {
            assert(stack[t2] != stack[k]);
        }
    }
    assert forall|q: int| 0 <= q < l.len() && l[q] == lab implies holds_index(c2, w, q) || holds_index(s2, w, q) by {
        if holds_index(comp, w, q) {
            let t = choose|t: int| 0 <= t < comp.len() && flat(#[trigger] comp[t], w) == q;
            assert(c2[t] == comp[t]);
        } else {
            let t = choose|t: int| 0 <= t < stack.len() && flat(#[trigger] stack[t], w) == q;
            if t == k {
                assert(c2[comp.len() as int] == x);
            } else {
                assert(s2[t] == stack[t]);
            }
        }
    }
    lemma_grown_push(comp, x);
    assert forall|t: int| 0 <= t < s2.len() && c2.len() > 0 implies touches(c2, #[trigger] s2[t]) by {
        assert(s2[t] == stack[t]);
        if comp.len() > 0 {
            assert(touches(comp, stack[t]));
            let s = choose|s: int| 0 <= s < comp.len() && #[trigger] adjacent(comp[s], stack[t]);
            assert(c2[s] == comp[s]);
        } else {
            assert(stack.len() == 1);
        }
    }
    if comp.len() > 0 {
        assert(c2[0] == comp[0]);
    } else {
        assert(x == seed);
    }
    assert(cells_labelled(c2, l, h, w, lab as int));
    assert(cells_labelled(s2, l, h, w, lab as int));
    assert(distinct_cells(c2));
    assert(distinct_cells(s2));
    assert(grown(c2));
    assert(c2.len() > 0 ==> c2[0] == seed);
}

proof fn lemma_close_last(
    bits: Seq<bool>,
    l0: Seq<usize>,
    lp: Seq<usize>,
    l: Seq<usize>,
    comp: Seq<CellId>,
    stack: Seq<CellId>,
    ns: Seq<CellId>,
    h: int,
    w: int,
    lab: usize,
    seed: CellId,
)
    requires
        comp.len() > 0,
        in_grid(comp.last(), h, w),
        l[flat(comp.last(), w)] == lab,
        l.len() == h * w,
        l0.len() == h * w,
        forall|q: int| 0 <= q < h * w && l0[q] != 0 ==> l[q] == l0[q],
        forall|q: int| 0 <= q < h * w && l[q] != 0 ==> bits[q],
        forall|q: int| 0 <= q < h * w && l[q] != l0[q] ==> l[q] == lab,
        comp_closed(bits, lp, comp.drop_last(), h, w, lab),
        forall|q: int| 0 <= q < h * w && lp[q] != 0 ==> l[q] == lp[q],
        forall|b: CellId| #[trigger] adjacent(comp.last(), b) ==> ns.contains(b),
        forall|i: int| 0 <= i < ns.len() && in_grid(#[trigger] ns[i], h, w) && bits[flat(ns[i], w)] ==> l[flat(ns[i], w)] != 0,
        labels_closed(bits, l0, h, w),
        forall|q: int| 0 <= q < h * w ==> l0[q] < lab,
    ensures
        comp_closed(bits, l, comp, h, w, lab),
{
    let p = comp.last();
    lemma_flat_bounds(p, h, w);
    assert forall|t: int, b: CellId|
        #![trigger comp[t], adjacent(comp[t], b)]
        0 <= t < comp.len() && in_grid(b, h, w) && adjacent(comp[t], b) && bits[flat(b, w)] implies l[flat(b, w)] == lab by {
        lemma_flat_bounds(b, h, w);
        if t < comp.len() - 1 {
            assert(comp.drop_last()[t] == comp[t]);
            assert(adjacent(comp.drop_last()[t], b));
            assert(lp[flat(b, w)] == lab);
        } else {
            assert(comp[t] == p);
            assert(adjacent(p, b));
            assert(ns.contains(b));
            let i = choose|i: int| 0 <= i < ns.len() && ns[i] == b;
            assert(l[flat(b, w)] != 0);
            if l0[flat(b, w)] != 0 {
                assert(adjacent(b, p));
                assert(bits[flat(p, w)]);
                assert(l0[flat(p, w)] == l0[flat(b, w)]);
            }
        }
    }
}

proof fn lemma_fill_done(
    bits: Seq<bool>,
    l0: Seq<usize>,
    l: Seq<usize>,
    comp: Seq<CellId>,
    stack: Seq<CellId>,
    h: int,
    w: int,
    lab: usize,
    seed: CellId,
)
    requires
        fill_state(bits, l0, l, comp, stack, h, w, lab, seed),
        stack.len() == 0,
        comp_closed(bits, l, comp, h, w, lab),
        labels_closed(bits, l0, h, w),
        lab > 0,
    ensures
        l.len() == h * w,
        forall|q: int|
            0 <= q < h * w ==> (l0[q] != 0 ==> l[q] == l0[q]) && (l[q] != l0[q] ==> l[q] == lab) && (
            l[q] != 0 ==> bits[q]),
        comp.len() > 0,
        comp[0] == seed,
        cells_labelled(comp, l, h, w, lab as int),
        distinct_cells(comp),
        forall|q: int| 0 <= q < h * w && l[q] == lab ==> holds_index(comp, w, q),
        grown(comp),
        labels_closed(bits, l, h, w),
{
    reveal(fill_state);
    assert forall|a: CellId, b: CellId|
        #![trigger adjacent(a, b), l[flat(a, w)], l[flat(b, w)]]
        in_grid(a, h, w) && in_grid(b, h, w) && adjacent(a, b) && bits[flat(a, w)] && bits[flat(b, w)]
            && l[flat(a, w)] != 0 implies l[flat(b, w)] == l[flat(a, w)] by {
        lemma_flat_bounds(a, h, w);
        lemma_flat_bounds(b, h, w);
        if l0[flat(a, w)] != 0 {
            assert(l0[flat(b, w)] == l0[flat(a, w)]);
        } else {
            assert(l[flat(a, w)] == lab);
            assert(holds_index(comp, w, flat(a, w)));
            let t = choose|t: int| 0 <= t < comp.len() && flat(#[trigger] comp[t], w) == flat(a, w);
            lemma_flat_injective(comp[t], a, h, w);
            assert(adjacent(comp[t], b));
        }
    }
}

/// Flood fill from `seed` with an explicit stack: labels `lab` on the
/// 4-connected set region around `seed` and returns its cells in the order
/// taken.
fn fill(bits: &Vec<bool>, labels: &mut Vec<usize>, h: usize, w: usize, seed: CellId, lab: usize) -> (comp: Vec<CellId>)
    requires
        h <= i32::MAX,
        w <= i32::MAX,
        bits@.len() == h * w,
        old(labels)@.len() == h * w,
        in_grid(seed, h as int, w as int),
        bits@[flat(seed, w as int)],
        old(labels)@[flat(seed, w as int)] == 0,
        lab > 0,
        forall|q: int| 0 <= q < h * w ==> old(labels)@[q] < lab,
        forall|q: int| 0 <= q < h * w && old(labels)@[q] != 0 ==> bits@[q],
        labels_closed(bits@, old(labels)@, h as int, w as int),
    ensures
        final(labels)@.len() == h * w,
        forall|q: int|
            #![trigger final(labels)@[q]]
            0 <= q < h * w ==> (old(labels)@[q] != 0 ==> final(labels)@[q] == old(labels)@[q]) && (
            final(labels)@[q] != old(labels)@[q] ==> final(labels)@[q] == lab) && (final(labels)@[q]
            != 0 ==> bits@[q]),
        comp@.len() > 0,
        comp@[0] == seed,
        cells_labelled(comp@, final(labels)@, h as int, w as int, lab as int),
        distinct_cells(comp@),
        forall|q: int| 0 <= q < h * w && final(labels)@[q] == lab ==> holds_index(comp@, w as int, q),
        grown(comp@),
        labels_closed(bits@, final(labels)@, h as int, w as int),
{
    let ghost l0 = labels@;
    let ghost hi = h as int;
    let ghost wi = w as int;
    let mut comp: Vec<CellId> = Vec::new();
    let mut stack: Vec<CellId> = Vec::new();
    let n = bits.len();
    proof {
        lemma_flat_bounds(seed, hi, wi);
        assert((seed.iy as usize) * w <= flat(seed, wi));
    }
    labels.set((seed.iy as usize) * w + (seed.ix as usize), lab);
    stack.push(seed);
    proof {
        reveal(fill_state);
        assert forall|q: int| 0 <= q < labels@.len() && labels@[q] == lab implies holds_index(comp@, wi, q) || holds_index(stack@, wi, q) by {
            assert(q == flat(seed, wi));
            assert(stack@[0] == seed);
        }
        assert(stack@ == seq![seed]);
        assert(fill_state(bits@, l0, labels@, comp@, stack@, hi, wi, lab, seed));
        lemma_unlabeled_finite(labels@);
    }
    while stack.len() > 0
        invariant
            h <= i32::MAX,
            w <= i32::MAX,
            hi == h,
            wi == w,
            bits@.len() == h * w,
            lab > 0,
            l0.len() == h * w,
            forall|q: int| 0 <= q < h * w ==> l0[q] < lab,
            labels_closed(bits@, l0, hi, wi),
            fill_state(bits@, l0, labels@, comp@, stack@, hi, wi, lab, seed),
            comp_closed(bits@, labels@, comp@, hi, wi, lab),
            unlabeled(labels@).finite(),
        decreases 2 * unlabeled(labels@).len() + stack@.len(),
    {
        let ghost c0 = comp@;
        let ghost s0 = stack@;
        let ghost lp = labels@;
        let p = stack.pop().unwrap();
        comp.push(p);
        proof {
            lemma_take(bits@, l0, labels@, c0, s0, hi, wi, lab, seed);
            assert(comp@ == c0.push(s0.last()));
            assert(stack@ == s0.drop_last());
            assert(comp@.drop_last() == c0);
            reveal(fill_state);
        }
        let ns = p.neighbours();
        visit(bits, labels, &mut stack, ns[0], h, w, lab, Ghost(l0), Ghost(comp@), Ghost(seed));
        let ghost l1 = labels@;
        visit(bits, labels, &mut stack, ns[1], h, w, lab, Ghost(l0), Ghost(comp@), Ghost(seed));
        let ghost l2 = labels@;
        visit(bits, labels, &mut stack, ns[2], h, w, lab, Ghost(l0), Ghost(comp@), Ghost(seed));
        let ghost l3 = labels@;
        visit(bits, labels, &mut stack, ns[3], h, w, lab, Ghost(l0), Ghost(comp@), Ghost(seed));
        proof {
            assert forall|i: int| 0 <= i < ns@.len() && in_grid(#[trigger] ns@[i], hi, wi) && bits@[flat(ns@[i], wi)] implies labels@[flat(ns@[i], wi)] != 0 by {
                lemma_flat_bounds(ns@[i], hi, wi);
                if i == 0 {
                    assert(l1[flat(ns@[i], wi)] != 0);
                } else if i == 1 {
                    assert(l2[flat(ns@[i], wi)] != 0);
                } else if i == 2 {
                    assert(l3[flat(ns@[i], wi)] != 0);
                }
            }
            reveal(fill_state);
            assert(comp@.last() == p);
            assert(in_grid(comp@[comp@.len() - 1], hi, wi));
            lemma_close_last(bits@, l0, lp, labels@, comp@, stack@, ns@, hi, wi, lab, seed);
        }
    }
    proof {
        lemma_fill_done(bits@, l0, labels@, comp@, stack@, hi, wi, lab, seed);
    }
    comp
}

/// The 4-connected components of one layer of a raster.
pub struct ConnectedComponents {
    /// Component `k` holds the cells that carry label `k + 1`.
    pub components: Vec<Vec<CellId>>,
    /// Row-major label of each pixel: 0 for an unset pixel, else the
    /// 1-based number of its component.
    pub labels: Vec<usize>,
    pub height: usize,
    pub width: usize,
}

/// Whether each pixel of one layer is set, in row-major order.
pub open spec fn mask_bits(g: MaskGrid, mask: u16) -> Seq<bool> {
    grid_cells(g).map_values(|v: u16| v & mask != 0)
}

impl ConnectedComponents {
    pub open spec fn comps(&self) -> Seq<Seq<CellId>> {
        self.components@.map_values(|c: Vec<CellId>| c@)
    }

    /// The components are exactly the 4-connected regions of the set pixels
    /// `bits`, numbered in row-major order of their first pixel:
    /// - a pixel is labelled if and only if it is set;
    /// - component `k` is a non-empty list of distinct cells, all labelled
    ///   `k + 1`, each after the first sharing an edge with an earlier one;
    /// - each labelled pixel is a cell of the component its label names;
    /// - set pixels that share an edge carry the same label;
    /// - the first cell of a component is its smallest in row-major order,
    ///   and first cells increase with the component number.
    pub open spec fn labels_set_pixels(&self, bits: Seq<bool>) -> bool {
        let h = self.height as int;
        let w = self.width as int;
        let l = self.labels@;
        let c = self.comps();
        &&& bits.len() == h * w
        &&& l.len() == h * w
        &&& forall|q: int| 0 <= q < h * w ==> (#[trigger] l[q] == 0 <==> !bits[q]) && l[q] <= c.len()
        &&& forall|k: int|
            0 <= k < c.len() ==> #[trigger] c[k].len() > 0 && cells_labelled(c[k], l, h, w, k + 1)
                && distinct_cells(c[k]) && grown(c[k])
        &&& forall|q: int| 0 <= q < h * w && l[q] != 0 ==> holds_index(c[l[q] - 1], w, q)
        &&& labels_closed(bits, l, h, w)
        &&& forall|k: int, q: int| 0 <= k < c.len() && 0 <= q < h * w && #[trigger] l[q] == k + 1 ==> flat(#[trigger] c[k][0], w) <= q
        &&& forall|k: int, j: int| 0 <= k < j < c.len() ==> flat(#[trigger] c[k][0], w) < flat(#[trigger] c[j][0], w)
    }
}

/// Labels the 4-connected regions of the set pixels of an `h`-by-`w` grid,
/// taking seeds in row-major order.
#[verifier::rlimit(60)]
fn label_bits(bits: &Vec<bool>, h: usize, w: usize) -> (r: ConnectedComponents)
    requires
        h <= i32::MAX,
        w <= i32::MAX,
        bits@.len() == h * w,
    ensures
        r.height == h,
        r.width == w,
        r.labels_set_pixels(bits@),
{
    let n = bits.len();
    let ghost hi = h as int;
    let ghost wi = w as int;
    let mut labels: Vec<usize> = Vec::new();
    while labels.len() < n
        invariant
            labels@.len() <= n,
            forall|r: int| 0 <= r < labels@.len() ==> labels@[r] == 0,
        decreases n - labels@.len(),
    {
        labels.push(0);
    }
    let mut components: Vec<Vec<CellId>> = Vec::new();
    let ghost mut cs: Seq<Seq<CellId>> = Seq::empty();
    proof {
        assert(components@.map_values(|c: Vec<CellId>| c@) =~= cs);
        assert forall|a: CellId, b: CellId|
            #![trigger adjacent(a, b), labels@[flat(a, wi)], labels@[flat(b, wi)]]
            in_grid(a, hi, wi) && in_grid(b, hi, wi) && adjacent(a, b) && bits@[flat(a, wi)] && bits@[flat(b, wi)]
                && labels@[flat(a, wi)] != 0 implies labels@[flat(b, wi)] == labels@[flat(a, wi)] by {
            lemma_flat_bounds(a, hi, wi);
        }
    }
    let mut q: usize = 0;
    let mut iy: usize = 0;
    let mut ix: usize = 0;
    while q < n
        invariant
            n == h * w,
            bits@.len() == n,
            h <= i32::MAX,
            w <= i32::MAX,
            hi == h,
            wi == w,
            q <= n,
            cs.len() <= q,
            q == iy * w + ix,
            w > 0 ==> ix < w,
            cs == components@.map_values(|c: Vec<CellId>| c@),
            labels@.len() == n,
            forall|r: int| 0 <= r < n ==> (labels@[r] != 0 ==> bits@[r]) && labels@[r] <= cs.len(),
            forall|r: int| 0 <= r < q && bits@[r] ==> labels@[r] != 0,
            forall|k: int|
                0 <= k < cs.len() ==> #[trigger] cs[k].len() > 0 && cells_labelled(cs[k], labels@, hi, wi, k + 1)
                    && distinct_cells(cs[k]) && grown(cs[k]),
            forall|r: int| 0 <= r < n && labels@[r] != 0 ==> holds_index(cs[labels@[r] - 1], wi, r),
            labels_closed(bits@, labels@, hi, wi),
            forall|k: int, r: int| 0 <= k < cs.len() && 0 <= r < n && #[trigger] labels@[r] == k + 1 ==> flat(#[trigger] cs[k][0], wi) <= r,
            forall|k: int, j: int| 0 <= k < j < cs.len() ==> flat(#[trigger] cs[k][0], wi) < flat(#[trigger] cs[j][0], wi),
            forall|k: int| 0 <= k < cs.len() ==> flat(#[trigger] cs[k][0], wi) < q,
        decreases n - q,
    {
        proof {
            if iy >= h {
                assert(iy * w >= h * w) by (nonlinear_arith)
                    requires
                        iy >= h,
                ;
            }
        }
        if bits[q] && labels[q] == 0 {
            let seed = CellId { iy: iy as i32, ix: ix as i32 };
            let lab = components.len() + 1;
            let ghost l = labels@;
            proof {
                assert(flat(seed, wi) == q);
            }
            let comp = fill(bits, &mut labels, h, w, seed, lab);
            components.push(comp);
            proof {
                let cs0 = cs;
                cs = cs.push(comp@);
                assert(components@.map_values(|c: Vec<CellId>| c@) =~= cs);
                let k0 = cs0.len() as int;
                assert(cs[k0] == comp@);
                assert forall|k: int|
                    0 <= k < cs.len() implies #[trigger] cs[k].len() > 0 && cells_labelled(cs[k], labels@, hi, wi, k + 1)
                        && distinct_cells(cs[k]) && grown(cs[k]) by {
                    if k < k0 {
                        assert(cs[k] == cs0[k]);
                        assert forall|t: int| 0 <= t < cs[k].len() implies in_grid(#[trigger] cs[k][t], hi, wi) && labels@[flat(cs[k][t], wi)] == k + 1 by {
                            assert(cells_labelled(cs0[k], l, hi, wi, k + 1));
                            assert(in_grid(cs0[k][t], hi, wi));
                            lemma_flat_bounds(cs0[k][t], hi, wi);
                        }
                    }
                }
                assert forall|r: int| 0 <= r < n && labels@[r] != 0 implies holds_index(cs[labels@[r] - 1], wi, r) by {
                    if l[r] != 0 {
                        assert(cs[l[r] - 1] == cs0[l[r] - 1]);
                    } else {
                        assert(labels@[r] == lab);
                        assert(holds_index(comp@, wi, r));
                    }
                }
                assert forall|k: int, r: int| 0 <= k < cs.len() && 0 <= r < n && #[trigger] labels@[r] == k + 1 implies flat(#[trigger] cs[k][0], wi) <= r by {
                    if k < k0 {
                        assert(cs[k] == cs0[k]);
                    } else {
                        assert(l[r] == 0);
                    }
                }
                assert forall|k: int, j: int| 0 <= k < j < cs.len() implies flat(#[trigger] cs[k][0], wi) < flat(#[trigger] cs[j][0], wi) by {
                    assert(cs[k] == cs0[k]);
                    if j < k0 {
                        assert(cs[j] == cs0[j]);
                    }
                }
                assert forall|k: int| 0 <= k < cs.len() implies flat(#[trigger] cs[k][0], wi) < q + 1 by {
                    if k < k0 {
                        assert(cs[k] == cs0[k]);
                    }
                }
            }
        }
        q = q + 1;
        ix = ix + 1;
        if ix == w {
            proof {
                assert(q == (iy + 1) * w) by (nonlinear_arith)
                    requires
                        q == iy * w + ix,
                        ix == w,
                ;
            }
            ix = 0;
            iy = iy + 1;
        }
    }
    ConnectedComponents { components, labels, height: h, width: w }
}

impl ConnectedComponents {
    /// Labels the 4-connected regions of the pixels of `a` that have a bit of
    /// `mask` set.
    pub fn from_array(a: &MaskGrid, mask: u16) -> (r: Self)
        requires
            grid_shape(*a).0 <= i32::MAX,
            grid_shape(*a).1 <= i32::MAX,
        ensures
            r.height == grid_shape(*a).0,
            r.width == grid_shape(*a).1,
            r.labels_set_pixels(mask_bits(*a, mask)),
    {
        let (h, w) = grid_dim(a);
        let mut bits: Vec<bool> = Vec::new();
        let mut iy: usize = 0;
        while iy < h
            invariant
                grid_cells(*a).len() == h * w,
                grid_shape(*a) == (h as nat, w as nat),
                iy <= h,
                bits@.len() == iy * w,
                forall|r: int| 0 <= r < bits@.len() ==> bits@[r] == (grid_cells(*a)[r] & mask != 0),
            decreases h - iy,
        {
            let mut ix: usize = 0;
            while ix < w
                invariant
                    grid_cells(*a).len() == h * w,
                    grid_shape(*a) == (h as nat, w as nat),
                    iy < h,
                    ix <= w,
                    bits@.len() == iy * w + ix,
                    forall|r: int| 0 <= r < bits@.len() ==> bits@[r] == (grid_cells(*a)[r] & mask != 0),
                decreases w - ix,
            {
                let v = grid_get(a, iy, ix);
                bits.push(v & mask != 0);
                ix = ix + 1;
            }
            proof {
                assert(iy * w + w == (iy + 1) * w) by (nonlinear_arith);
            }
            iy = iy + 1;
        }
        proof {
            assert(bits@ =~= mask_bits(*a, mask));
        }
        label_bits(&bits, h, w)
    }
}

/// The components partition the set pixels: every set pixel is a cell of
/// some component, every cell of a component is a set pixel, and no pixel is
/// a cell twice, whether in one component or in two.
pub proof fn lemma_components_partition(cc: &ConnectedComponents, bits: Seq<bool>)
    requires
        cc.labels_set_pixels(bits),
    ensures
        forall|q: int|
            0 <= q < bits.len() && bits[q] ==> exists|k: int| 0 <= k < cc.comps().len() && #[trigger] holds_index(cc.comps()[k], cc.width as int, q),
        forall|k: int, t: int|
            0 <= k < cc.comps().len() && 0 <= t < cc.comps()[k].len() ==> in_grid(#[trigger] cc.comps()[k][t], cc.height as int, cc.width as int)
                && bits[flat(cc.comps()[k][t], cc.width as int)],
        forall|k1: int, t1: int, k2: int, t2: int|
            0 <= k1 < cc.comps().len() && 0 <= t1 < cc.comps()[k1].len() && 0 <= k2 < cc.comps().len() && 0 <= t2 < cc.comps()[k2].len()
                && #[trigger] cc.comps()[k1][t1] == #[trigger] cc.comps()[k2][t2] ==> k1 == k2 && t1 == t2,
{
    let h = cc.height as int;
    let w = cc.width as int;
    let c = cc.comps();
    let l = cc.labels@;
    assert forall|q: int| 0 <= q < bits.len() && bits[q] implies exists|k: int| 0 <= k < c.len() && #[trigger] holds_index(c[k], w, q) by {
        assert(l[q] != 0);
        assert(holds_index(c[l[q] - 1], w, q));
    }
    assert forall|k: int, t: int| 0 <= k < c.len() && 0 <= t < c[k].len() implies in_grid(#[trigger] c[k][t], h, w) && bits[flat(c[k][t], w)] by {
        assert(c[k].len() > 0);
        assert(cells_labelled(c[k], l, h, w, k + 1));
        lemma_flat_bounds(c[k][t], h, w);
        assert(l[flat(c[k][t], w)] != 0);
    }
    assert forall|k1: int, t1: int, k2: int, t2: int|
        0 <= k1 < c.len() && 0 <= t1 < c[k1].len() && 0 <= k2 < c.len() && 0 <= t2 < c[k2].len()
            && #[trigger] c[k1][t1] == #[trigger] c[k2][t2] implies k1 == k2 && t1 == t2 by {
        assert(c[k1].len() > 0 && c[k2].len() > 0);
        assert(cells_labelled(c[k1], l, h, w, k1 + 1));
        assert(cells_labelled(c[k2], l, h, w, k2 + 1));
        assert(l[flat(c[k1][t1], w)] == k1 + 1);
        assert(l[flat(c[k2][t2], w)] == k2 + 1);
        assert(distinct_cells(c[k1]));
    }
}

/// A set pixel with no set pixel sharing an edge with it (one that touches
/// others only at corners) is a component of its own.
pub proof fn lemma_isolated_pixel(cc: &ConnectedComponents, bits: Seq<bool>, p: CellId)
    requires
        cc.labels_set_pixels(bits),
        in_grid(p, cc.height as int, cc.width as int),
        bits[flat(p, cc.width as int)],
        forall|b: CellId|
            in_grid(b, cc.height as int, cc.width as int) && #[trigger] adjacent(p, b) ==> !bits[flat(b, cc.width as int)],
    ensures
        cc.labels@[flat(p, cc.width as int)] > 0,
        cc.comps()[cc.labels@[flat(p, cc.width as int)] - 1] == seq![p],
{
    let h = cc.height as int;
    let w = cc.width as int;
    let c = cc.comps();
    let l = cc.labels@;
    lemma_flat_bounds(p, h, w);
    let q = flat(p, w);
    let k = l[q] - 1;
    assert(holds_index(c[k], w, q));
    let t = choose|t: int| 0 <= t < c[k].len() && flat(#[trigger] c[k][t], w) == q;
    let comp = c[k];
    assert(comp.len() > 0 && cells_labelled(comp, l, h, w, k + 1) && grown(comp));
    lemma_flat_injective(comp[t], p, h, w);
    if comp.len() > 1 {
        if t == 0 {
            assert(touches(comp.take(1), comp[1]));
            let s = choose|s: int| 0 <= s < comp.take(1).len() && #[trigger] adjacent(comp.take(1)[s], comp[1]);
            assert(adjacent(p, comp[1]));
            lemma_flat_bounds(comp[1], h, w);
            assert(l[flat(comp[1], w)] != 0);
        } else {
            assert(touches(comp.take(t), comp[t]));
            let s = choose|s: int| 0 <= s < comp.take(t).len() && #[trigger] adjacent(comp.take(t)[s], comp[t]);
            assert(adjacent(p, comp[s]));
            lemma_flat_bounds(comp[s], h, w);
            assert(l[flat(comp[s], w)] != 0);
        }
    }
    assert(comp =~= seq![p]);
}

/// A layer with no set pixel has no component, and every pixel is
/// unlabelled.
pub proof fn lemma_empty_layer(cc: &ConnectedComponents, bits: Seq<bool>)
    requires
        cc.labels_set_pixels(bits),
        forall|q: int| 0 <= q < bits.len() ==> !bits[q],
    ensures
        cc.comps().len() == 0,
        forall|q: int| 0 <= q < cc.labels@.len() ==> cc.labels@[q] == 0,
{
    let h = cc.height as int;
    let w = cc.width as int;
    let c = cc.comps();
    if c.len() > 0 {
        assert(c[0].len() > 0 && cells_labelled(c[0], cc.labels@, h, w, 1));
        let p = c[0][0];
        lemma_flat_bounds(p, h, w);
        assert(cc.labels@[flat(p, w)] == 1);
        assert(!bits[flat(p, w)]);
    }
    assert forall|q: int| 0 <= q < cc.labels@.len() implies cc.labels@[q] == 0 by {
        assert(!bits[q]);
    }
}

} // verus!
