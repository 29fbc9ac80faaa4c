use vstd::prelude::*;
use std::collections::HashMap;
use crate::components::ConnectedComponents;

verus! {

broadcast use vstd::std_specs::hash::group_hash_axioms;

/// Ordered pairs of layers whose overlaps count, for `n` layers: layer `i`
/// looks at `i + 1` when there is one, and at `i - 1` only from `i >= 2`
/// (so the pair of layers 0 and 1 counts once, every other adjacent pair
/// twice).
pub open spec fn pairs_from(n: int, i: int) -> Seq<(int, int)>
    decreases n - i,
{
    if i >= n || i < 0 {
        Seq::empty()
    } else {
        let down: Seq<(int, int)> = if i > 1 { seq![(i, i - 1)] } else { Seq::empty() };
        let up: Seq<(int, int)> = if i + 1 < n { seq![(i, i + 1)] } else { Seq::empty() };
        down + up + pairs_from(n, i + 1)
    }
}

pub open spec fn layer_pairs(n: int) -> Seq<(int, int)> {
    pairs_from(n, 0)
}

/// The layer pairs, in order.
pub fn adjacent_pairs(n: usize) -> (r: Vec<(usize, usize)>)
    ensures
        r@.len() == layer_pairs(n as int).len(),
        forall|k: int| 0 <= k < r@.len() ==> (r@[k].0 as int, r@[k].1 as int) == #[trigger] layer_pairs(n as int)[k],
{
    let mut r: Vec<(usize, usize)> = Vec::new();
    let mut i: usize = n;
    let ghost mut acc: Seq<(int, int)> = Seq::empty();
    while i > 0
        invariant
            i <= n,
            acc == pairs_from(n as int, i as int),
            r@.len() == acc.len(),
            forall|k: int| 0 <= k < r@.len() ==> (r@[r@.len() - 1 - k].0 as int, r@[r@.len() - 1 - k].1 as int) == #[trigger] acc[k],
        decreases i,
    {
        i = i - 1;
        let ghost old_acc = acc;
        let ghost old_r = r@;
        proof {
            acc = pairs_from(n as int, i as int);
        }
        if i + 1 < n {
            r.push((i, i + 1));
        }
        if i > 1 {
            r.push((i, i - 1));
        }
        proof {
            let down: Seq<(int, int)> = if i > 1 { seq![(i as int, i - 1)] } else { Seq::empty() };
            let up: Seq<(int, int)> = if i + 1 < n { seq![(i as int, i + 1)] } else { Seq::empty() };
            assert(acc == down + up + old_acc);
            assert forall|k: int| 0 <= k < r@.len() implies (r@[r@.len() - 1 - k].0 as int, r@[r@.len() - 1 - k].1 as int) == #[trigger] acc[k] by {
                let front = down.len() + up.len();
                if k < front {
                    if k < down.len() {
                        assert(acc[k] == down[k]);
                    } else {
                        assert(acc[k] == up[k - down.len()]);
                    }
                } else {
                    assert(acc[k] == old_acc[k - front]);
                    assert(r@[r@.len() - 1 - k] == old_r[old_r.len() - 1 - (k - front)]);
                }
            }
        }
    }
    let mut out: Vec<(usize, usize)> = Vec::new();
    let mut k: usize = r.len();
    while k > 0
        invariant
            k <= r@.len(),
            r@.len() == acc.len(),
            acc == pairs_from(n as int, 0),
            forall|j: int| 0 <= j < r@.len() ==> (r@[r@.len() - 1 - j].0 as int, r@[r@.len() - 1 - j].1 as int) == #[trigger] acc[j],
            out@.len() == r@.len() - k,
            forall|j: int| 0 <= j < out@.len() ==> (out@[j].0 as int, out@[j].1 as int) == #[trigger] acc[j],
        decreases k,
    {
        k = k - 1;
        out.push(r[k]);
        proof {
            let j = out@.len() - 1;
            assert(r@.len() - 1 - j == k);
        }
    }
    out
}

/// The net pair that one pixel adds overlap to, smaller id first: where
/// both layers have a component there, with distinct nets both other than
/// the unconnected net 0.
pub open spec fn pixel_key(la: usize, lb: usize, ia: Seq<usize>, ib: Seq<usize>) -> Option<(usize, usize)> {
    if 0 < la <= ia.len() && 0 < lb <= ib.len() {
        let a = ia[la - 1];
        let b = ib[lb - 1];
        if a != 0 && b != 0 && a != b {
            Some(if a < b { (a, b) } else { (b, a) })
        } else {
            None
        }
    } else {
        None
    }
}

/// Pixels among the first `n` where layers with labels `li`, `lj` and
/// component nets `ii`, `ij` overlap for the net pair `key`.
pub open spec fn count_in(li: Seq<usize>, lj: Seq<usize>, ii: Seq<usize>, ij: Seq<usize>, n: int, key: (usize, usize)) -> nat
    decreases n,
{
    if n <= 0 {
        0
    } else {
        count_in(li, lj, ii, ij, n - 1, key) + if pixel_key(li[n - 1], lj[n - 1], ii, ij) == Some(key) { 1nat } else { 0nat }
    }
}

/// Overlap in pixels of the net pair `key`, summed over the layer `pairs`.
pub open spec fn overlap_total(labels: Seq<Seq<usize>>, ids: Seq<Seq<usize>>, pairs: Seq<(int, int)>, npx: int, key: (usize, usize)) -> nat
    decreases pairs.len(),
{
    if pairs.len() == 0 {
        0
    } else {
        let (i, j) = pairs.last();
        overlap_total(labels, ids, pairs.drop_last(), npx, key) + count_in(labels[i], labels[j], ids[i], ids[j], npx, key)
    }
}

pub open spec fn layer_labels(layers: Seq<ConnectedComponents>) -> Seq<Seq<usize>> {
    layers.map_values(|c: ConnectedComponents| c.labels@)
}

pub open spec fn layer_ids(ids: Seq<Vec<usize>>) -> Seq<Seq<usize>> {
    ids.map_values(|v: Vec<usize>| v@)
}

/// Requirements on the inputs of the overlap count: one list of component
/// nets per layer, net ids below 2^32, at most 16 layers, all of `npx`
/// pixels.
pub open spec fn overlap_inputs(layers: Seq<ConnectedComponents>, ids: Seq<Vec<usize>>, npx: int) -> bool {
    &&& layers.len() == ids.len()
    &&& layers.len() <= 16
    &&& forall|l: int| 0 <= l < layers.len() ==> #[trigger] layers[l].labels@.len() == npx
    &&& forall|l: int, k: int| 0 <= l < ids.len() && 0 <= k < ids[l]@.len() ==> #[trigger] ids[l]@[k] < 0x100000000
}

pub open spec fn key_code(k: (usize, usize)) -> int {
    k.0 * 0x100000000 + k.1
}

proof fn lemma_key_code(k1: (usize, usize), k2: (usize, usize))
    requires
        k1.0 < 0x100000000,
        k1.1 < 0x100000000,
        k2.0 < 0x100000000,
        k2.1 < 0x100000000,
        key_code(k1) == key_code(k2),
    ensures
        k1 == k2,
{
    let a1 = k1.0 as int;
    let a2 = k2.0 as int;
    let b1 = k1.1 as int;
    let b2 = k2.1 as int;
    if a1 < a2 {
        assert(a1 * 0x100000000 + b1 < a2 * 0x100000000 + b2) by (nonlinear_arith)
            requires
                a1 < a2,
                0 <= b1 < 0x100000000,
                0 <= b2,
        ;
    } else if a2 < a1 {
        assert(a2 * 0x100000000 + b2 < a1 * 0x100000000 + b1) by (nonlinear_arith)
            requires
                a2 < a1,
                0 <= b2 < 0x100000000,
                0 <= b1,
        ;
    }
}

proof fn lemma_pairs_in_range(n: int, i: int)
    requires
        0 <= i,
    ensures
        forall|k: int| 0 <= k < pairs_from(n, i).len() ==> 0 <= (#[trigger] pairs_from(n, i)[k]).0 < n && 0 <= pairs_from(n, i)[k].1 < n,
        pairs_from(n, i).len() <= 2 * (if n > i { n - i } else { 0 }),
    decreases n - i,
{
    if i < n {
        lemma_pairs_in_range(n, i + 1);
        let down: Seq<(int, int)> = if i > 1 { seq![(i, i - 1)] } else { Seq::empty() };
        let up: Seq<(int, int)> = if i + 1 < n { seq![(i, i + 1)] } else { Seq::empty() };
        let rest = pairs_from(n, i + 1);
        assert forall|k: int| 0 <= k < pairs_from(n, i).len() implies 0 <= (#[trigger] pairs_from(n, i)[k]).0 < n && 0 <= pairs_from(n, i)[k].1 < n by {
            if k >= down.len() + up.len() {
                assert(pairs_from(n, i)[k] == rest[k - down.len() - up.len()]);
            } else if k >= down.len() {
                assert(pairs_from(n, i)[k] == up[k - down.len()]);
            } else {
                assert(pairs_from(n, i)[k] == down[k]);
            }
        }
    }
}

/// Overlap counted so far: all of the first `pi` layer pairs and the first
/// `q` pixels of pair `pi`.
pub open spec fn running(labels: Seq<Seq<usize>>, ids: Seq<Seq<usize>>, pairs: Seq<(int, int)>, npx: int, pi: int, q: int, key: (usize, usize)) -> nat {
    overlap_total(labels, ids, pairs.take(pi), npx, key) + if pi < pairs.len() {
        let (i, j) = pairs[pi];
        count_in(labels[i], labels[j], ids[i], ids[j], q, key)
    } else {
        0nat
    }
}

/// Overlap in pixels of every net pair that overlaps at all, over the
/// adjacent layer pairs; each pair once, smaller id first.
#[verifier::rlimit(100)]
pub fn overlap_counts(layers: &Vec<ConnectedComponents>, ids: &Vec<Vec<usize>>, npx: usize) -> (r: Vec<(usize, usize, u128)>)
    requires
        overlap_inputs(layers@, ids@, npx as int),
    ensures
        forall|t: int|
            0 <= t < r@.len() ==> 0 < (#[trigger] r@[t]).0 < r@[t].1 && r@[t].2 > 0 && r@[t].2 == overlap_total(
                layer_labels(layers@),
                layer_ids(ids@),
                layer_pairs(layers@.len() as int),
                npx as int,
                (r@[t].0, r@[t].1),
            ),
        forall|t1: int, t2: int|
            0 <= t1 < r@.len() && 0 <= t2 < r@.len() && t1 != t2 ==> (#[trigger] r@[t1].0, r@[t1].1) != (#[trigger] r@[t2].0, r@[t2].1),
        forall|key: (usize, usize)|
            #[trigger] overlap_total(layer_labels(layers@), layer_ids(ids@), layer_pairs(layers@.len() as int), npx as int, key) > 0
                ==> exists|t: int| 0 <= t < r@.len() && (r@[t].0, r@[t].1) == key,
        forall|t: int| 0 <= t < r@.len() ==> (#[trigger] r@[t]).2 <= 32 * npx,
{
    let ghost lab = layer_labels(layers@);
    let ghost idv = layer_ids(ids@);
    let n = layers.len();
    let pairs = adjacent_pairs(n);
    let ghost ps = layer_pairs(n as int);
    proof {
        lemma_pairs_in_range(n as int, 0);
        assert(ps.take(0) =~= Seq::<(int, int)>::empty());
    }
    let mut m: HashMap<u64, usize> = HashMap::new();
    let mut entries: Vec<(usize, usize, u128)> = Vec::new();
    let mut pi: usize = 0;
    while pi < pairs.len()
        invariant
            overlap_inputs(layers@, ids@, npx as int),
            lab == layer_labels(layers@),
            idv == layer_ids(ids@),
            n == layers@.len(),
            ps == layer_pairs(n as int),
            pairs@.len() == ps.len(),
            ps.len() <= 32,
            forall|k: int| 0 <= k < pairs@.len() ==> (pairs@[k].0 as int, pairs@[k].1 as int) == #[trigger] ps[k],
            forall|k: int| 0 <= k < ps.len() ==> 0 <= (#[trigger] ps[k]).0 < n && 0 <= ps[k].1 < n,
            pi <= pairs@.len(),
            forall|t: int|
                0 <= t < entries@.len() ==> 0 < (#[trigger] entries@[t]).0 < entries@[t].1 < 0x100000000 && entries@[t].2 > 0
                    && entries@[t].2 == running(lab, idv, ps, npx as int, pi as int, 0, (entries@[t].0, entries@[t].1))
                    && entries@[t].2 <= pi * npx
                    && m@.contains_key(key_code((entries@[t].0, entries@[t].1)) as u64)
                    && m@[key_code((entries@[t].0, entries@[t].1)) as u64] == t,
            forall|c: u64| #[trigger] m@.contains_key(c) ==> m@[c] < entries@.len() && key_code((entries@[m@[c] as int].0, entries@[m@[c] as int].1)) == c,
            forall|key: (usize, usize)|
                #[trigger] running(lab, idv, ps, npx as int, pi as int, 0, key) > 0 ==> exists|t: int| 0 <= t < entries@.len() && (entries@[t].0, entries@[t].1) == key,
        decreases pairs@.len() - pi,
    {
        let (i, j) = pairs[pi];
        proof {
            assert((pairs@[pi as int].0 as int, pairs@[pi as int].1 as int) == ps[pi as int]);
        }
        let li = &layers[i].labels;
        let lj = &layers[j].labels;
        let ii = &ids[i];
        let ij = &ids[j];
        proof {
            assert(lab[i as int] == li@);
            assert(lab[j as int] == lj@);
            assert(idv[i as int] == ii@);
            assert(idv[j as int] == ij@);
            assert forall|key: (usize, usize)| running(lab, idv, ps, npx as int, pi as int, 0, key) == overlap_total(lab, idv, ps.take(pi as int), npx as int, key) by {}
        }
        let mut q: usize = 0;
        while q < npx
            invariant
                overlap_inputs(layers@, ids@, npx as int),
                lab == layer_labels(layers@),
                idv == layer_ids(ids@),
                ps.len() <= 32,
                pi < ps.len(),
                (i as int, j as int) == ps[pi as int],
                i < n,
                j < n,
                n == layers@.len(),
                li@ == lab[i as int],
                lj@ == lab[j as int],
                ii@ == idv[i as int],
                ij@ == idv[j as int],
                li@.len() == npx,
                lj@.len() == npx,
                forall|k: int| 0 <= k < ii@.len() ==> #[trigger] ii@[k] < 0x100000000,
                forall|k: int| 0 <= k < ij@.len() ==> #[trigger] ij@[k] < 0x100000000,
                q <= npx,
                forall|t: int|
                    0 <= t < entries@.len() ==> 0 < (#[trigger] entries@[t]).0 < entries@[t].1 < 0x100000000 && entries@[t].2 > 0
                        && entries@[t].2 == running(lab, idv, ps, npx as int, pi as int, q as int, (entries@[t].0, entries@[t].1))
                        && entries@[t].2 <= pi * npx + q
                        && m@.contains_key(key_code((entries@[t].0, entries@[t].1)) as u64)
                        && m@[key_code((entries@[t].0, entries@[t].1)) as u64] == t,
                forall|c: u64| #[trigger] m@.contains_key(c) ==> m@[c] < entries@.len() && key_code((entries@[m@[c] as int].0, entries@[m@[c] as int].1)) == c,
                forall|key: (usize, usize)|
                    #[trigger] running(lab, idv, ps, npx as int, pi as int, q as int, key) > 0 ==> exists|t: int| 0 <= t < entries@.len() && (entries@[t].0, entries@[t].1) == key,
            decreases npx - q,
        {
            let la = li[q];
            let lb = lj[q];
            let ghost pk = pixel_key(la, lb, ii@, ij@);
            let mut found: Option<(usize, usize)> = None;
            if la > 0 && la <= ii.len() && lb > 0 && lb <= ij.len() {
                let a = ii[la - 1];
                let b = ij[lb - 1];
                if a != 0 && b != 0 && a != b {
                    found = Some(if a < b { (a, b) } else { (b, a) });
                }
            }
            assert(found == pk);
            proof {
                assert forall|key: (usize, usize)| #[trigger] running(lab, idv, ps, npx as int, pi as int, q + 1, key)
                    == running(lab, idv, ps, npx as int, pi as int, q as int, key) + if pk == Some(key) { 1nat } else { 0nat } by {}
                assert(pi * npx + q < 32 * 0x10000000000000000) by (nonlinear_arith)
                    requires
                        pi < 32,
                        q < npx,
                        npx <= 0xffffffffffffffff,
                ;
            }
            let ghost e0 = entries@;
            if let Some((x, y)) = found {
                let code: u64 = (x as u64) * 0x100000000 + (y as u64);
                assert(code == key_code((x, y)));
                match m.get(&code) {
                    Some(t) => {
                        let t = *t;
                        let (ex, ey, ec) = entries[t];
                        proof {
                            lemma_key_code((ex, ey), (x, y));
                        }
                        entries.set(t, (ex, ey, ec + 1));
                        proof {
                            assert(entries@[t as int].0 == x && entries@[t as int].1 == y);
                            assert forall|tt: int| 0 <= tt < entries@.len() && tt != t implies (#[trigger] entries@[tt]).0 != x || entries@[tt].1 != y by {
                                if entries@[tt].0 == x && entries@[tt].1 == y {
                                    assert(m@[key_code((x, y)) as u64] == tt);
                                }
                            }
                        }
                    },
                    None => {
                        proof {
                            assert forall|tt: int| 0 <= tt < entries@.len() implies (#[trigger] entries@[tt]).0 != x || entries@[tt].1 != y by {
                                if entries@[tt].0 == x && entries@[tt].1 == y {
                                    assert(m@.contains_key(key_code((x, y)) as u64));
                                }
                            }
                            assert(running(lab, idv, ps, npx as int, pi as int, q as int, (x, y)) == 0);
                        }
                        m.insert(code, entries.len());
                        entries.push((x, y, 1));
                        proof {
                            assert(entries@[entries@.len() - 1] == (x, y, 1u128));
                            assert forall|c: u64| #[trigger] m@.contains_key(c) implies m@[c] < entries@.len() && key_code((entries@[m@[c] as int].0, entries@[m@[c] as int].1)) == c by {
                                if c != code {
                                    assert(entries@[m@[c] as int] == e0[m@[c] as int]);
                                }
                            }
                        }
                    },
                }
            }
            proof {
                assert(forall|t: int| 0 <= t < e0.len() ==> entries@[t].0 == e0[t].0 && entries@[t].1 == e0[t].1);
                assert(pk is Some ==> exists|t: int| 0 <= t < entries@.len() && (entries@[t].0, entries@[t].1) == pk.unwrap());
                assert forall|key: (usize, usize)|
                    #[trigger] running(lab, idv, ps, npx as int, pi as int, q + 1, key) > 0 implies exists|t: int| 0 <= t < entries@.len() && (entries@[t].0, entries@[t].1) == key by {
                    if pk != Some(key) {
                        assert(running(lab, idv, ps, npx as int, pi as int, q as int, key) > 0);
                        let t0 = choose|t: int| 0 <= t < e0.len() && (e0[t].0, e0[t].1) == key;
                        assert(entries@[t0].0 == e0[t0].0 && entries@[t0].1 == e0[t0].1);
                    }
                }
            }
            q = q + 1;
        }
        proof {
            assert(ps.take(pi + 1).drop_last() =~= ps.take(pi as int));
            assert(ps.take(pi + 1).last() == ps[pi as int]);
            assert forall|key: (usize, usize)| #[trigger] running(lab, idv, ps, npx as int, pi + 1, 0, key)
                == running(lab, idv, ps, npx as int, pi as int, npx as int, key) by {}
            assert(pi * npx + npx == (pi + 1) * npx) by (nonlinear_arith);
        }
        pi = pi + 1;
    }
    proof {
        assert(ps.take(pi as int) =~= ps);
        assert forall|key: (usize, usize)| running(lab, idv, ps, npx as int, pi as int, 0, key) == overlap_total(lab, idv, ps, npx as int, key) by {}
        assert(pi * npx <= 32 * npx) by (nonlinear_arith)
            requires
                pi <= 32,
        ;
    }
    entries
}


/// Physical inputs of the estimate: resolution in dots per inch, relative
/// permittivity in thousandths, dielectric thickness in micrometres, and
/// the smallest capacitance reported, in attofarads.
#[derive(Clone, Copy, Debug, PartialEq, Eq, Structural)]
pub struct CapacitanceParams {
    pub dpi: u32,
    pub eps_milli: u32,
    pub thickness_um: u32,
    pub cap_min_af: u64,
}

/// Numerator of the capacitance of `n` overlapping pixels in attofarads:
/// `C = eps0 * eps_rel * n * (25.4 / dpi)^2 mm^2 / thickness`, with
/// `eps0 = 8.854e-12 F/m`, is `cap_num / cap_den` aF.
pub open spec fn cap_num(p: CapacitanceParams, n: int) -> int {
    8854 * p.eps_milli * 64516 * n
}

pub open spec fn cap_den(p: CapacitanceParams) -> int {
    100 * p.dpi * p.dpi * p.thickness_um
}

/// Capacitance in attofarads rounded to the nearest whole number, halves up.
pub open spec fn rounded_af(p: CapacitanceParams, n: int) -> int {
    (2 * cap_num(p, n) + cap_den(p)) / (2 * cap_den(p))
}

/// The pair is reported: it overlaps and its capacitance reaches the
/// threshold.
pub open spec fn reported(p: CapacitanceParams, n: int) -> bool {
    n > 0 && cap_num(p, n) >= p.cap_min_af * cap_den(p)
}

/// One line of the capacitance report.
#[derive(Clone, Copy, Debug, PartialEq, Eq, Structural)]
pub struct CapEntry {
    pub net_a: usize,
    pub net_b: usize,
    pub overlap: u128,
    pub attofarads: u128,
}

/// Report order: by rounded attofarads, then by the net ids.
pub open spec fn precedes(x: CapEntry, y: CapEntry) -> bool {
    x.attofarads < y.attofarads || (x.attofarads == y.attofarads && (x.net_a < y.net_a || (x.net_a
        == y.net_a && x.net_b < y.net_b)))
}

pub open spec fn entry_of(p: CapacitanceParams, c: (usize, usize, u128)) -> CapEntry {
    CapEntry { net_a: c.0, net_b: c.1, overlap: c.2, attofarads: rounded_af(p, c.2 as int) as u128 }
}

pub open spec fn distinct_pairs(c: Seq<(usize, usize, u128)>) -> bool {
    forall|t1: int, t2: int|
        0 <= t1 < c.len() && 0 <= t2 < c.len() && t1 != t2 ==> (#[trigger] c[t1].0, c[t1].1) != (#[trigger] c[t2].0, c[t2].1)
}

fn precedes_exec(x: &CapEntry, y: &CapEntry) -> (r: bool)
    ensures
        r == precedes(*x, *y),
{
    x.attofarads < y.attofarads || (x.attofarads == y.attofarads && (x.net_a < y.net_a || (x.net_a
        == y.net_a && x.net_b < y.net_b)))
}

pub open spec fn in_order(o: Seq<CapEntry>) -> bool {
    forall|i: int, j: int| 0 <= i < j < o.len() ==> precedes(#[trigger] o[i], #[trigger] o[j])
}

proof fn lemma_insert_contains(o: Seq<CapEntry>, idx: int, e: CapEntry)
    requires
        0 <= idx <= o.len(),
    ensures
        forall|x: CapEntry| #[trigger] o.insert(idx, e).contains(x) <==> (o.contains(x) || x == e),
{
    let n = o.insert(idx, e);
    assert forall|x: CapEntry| #[trigger] n.contains(x) <==> (o.contains(x) || x == e) by {
        if n.contains(x) {
            let k = choose|k: int| 0 <= k < n.len() && n[k] == x;
            if k < idx {
                assert(o[k] == x);
                assert(o.contains(x));
            } else if k > idx {
                assert(o[k - 1] == x);
                assert(o.contains(x));
            }
        }
        if o.contains(x) {
            let k = choose|k: int| 0 <= k < o.len() && o[k] == x;
            if k < idx {
                assert(n[k] == x);
            } else {
                assert(n[k + 1] == x);
            }
            assert(n.contains(x));
        }
        if x == e {
            assert(n[idx] == e);
            assert(n.contains(x));
        }
    }
}

/// Inserts `e` into the ordered list `out` at its place.
fn insert_in_order(out: &mut Vec<CapEntry>, e: CapEntry)
    requires
        in_order(old(out)@),
        forall|k: int| 0 <= k < old(out)@.len() ==> (#[trigger] old(out)@[k]).net_a != e.net_a || old(out)@[k].net_b != e.net_b,
    ensures
        in_order(final(out)@),
        forall|x: CapEntry| final(out)@.contains(x) <==> (old(out)@.contains(x) || x == e),
{
    let ghost o_start = out@;
    let mut idx: usize = 0;
    while idx < out.len() && !precedes_exec(&e, &out[idx])
        invariant
            out@ == o_start,
            idx <= out@.len(),
            forall|k: int| 0 <= k < idx ==> !precedes(e, #[trigger] out@[k]),
        decreases out@.len() - idx,
    {
        idx = idx + 1;
    }
    let ghost o0 = out@;
    proof {
        assert forall|k: int| 0 <= k < idx implies precedes(#[trigger] o0[k], e) by {
            assert(!precedes(e, o0[k]));
        }
        if idx < o0.len() {
            assert(precedes(e, o0[idx as int]));
        }
    }
    out.insert(idx, e);
    proof {
        assert forall|i: int, j: int| 0 <= i < j < out@.len() implies precedes(#[trigger] out@[i], #[trigger] out@[j]) by {
            if j < idx {
                assert(out@[i] == o0[i] && out@[j] == o0[j]);
            } else if j == idx {
                assert(out@[i] == o0[i]);
            } else if i < idx {
                assert(out@[i] == o0[i] && out@[j] == o0[j - 1]);
                assert(precedes(o0[i], e));
                assert(precedes(e, o0[idx as int]));
                if j - 1 > idx {
                    assert(precedes(o0[idx as int], o0[j - 1]));
                }
            } else if i == idx {
                assert(out@[j] == o0[j - 1]);
                if j - 1 > idx {
                    assert(precedes(o0[idx as int], o0[j - 1]));
                }
            } else {
                assert(out@[i] == o0[i - 1] && out@[j] == o0[j - 1]);
            }
        }
        assert(out@ == o0.insert(idx as int, e));
        lemma_insert_contains(o0, idx as int, e);
        assert(o0 == old(out)@);
    }
}

/// The reported net pairs with their capacitance, in report order.
#[verifier::rlimit(60)]
pub fn capacitance_report(counts: &Vec<(usize, usize, u128)>, p: &CapacitanceParams) -> (r: Vec<CapEntry>)
    requires
        p.dpi > 0,
        p.thickness_um > 0,
        distinct_pairs(counts@),
        forall|t: int| 0 <= t < counts@.len() ==> (#[trigger] counts@[t]).2 <= u64::MAX,
    ensures
        forall|x: CapEntry| #[trigger] r@.contains(x) ==> exists|t: int| 0 <= t < counts@.len() && x == entry_of(*p, #[trigger] counts@[t]) && reported(*p, counts@[t].2 as int),
        forall|t: int| 0 <= t < counts@.len() && reported(*p, (#[trigger] counts@[t]).2 as int) ==> r@.contains(entry_of(*p, counts@[t])),
        in_order(r@),
{
    assert(100 * p.dpi * p.dpi <= 100 * 0xffffffff * 0xffffffff) by (nonlinear_arith)
        requires
            p.dpi <= 0xffffffff,
    ;
    assert(100 * p.dpi * p.dpi * p.thickness_um <= 100 * 0xffffffff * 0xffffffff * 0xffffffff) by (nonlinear_arith)
        requires
            p.dpi <= 0xffffffff,
            p.thickness_um <= 0xffffffff,
    ;
    let den: u128 = 100 * (p.dpi as u128) * (p.dpi as u128) * (p.thickness_um as u128);
    assert(den > 0) by (nonlinear_arith)
        requires
            den == 100 * p.dpi * p.dpi * p.thickness_um,
            p.dpi > 0,
            p.thickness_um > 0,
    ;
    let mut out: Vec<CapEntry> = Vec::new();
    let mut t: usize = 0;
    while t < counts.len()
        invariant
            den == cap_den(*p),
            0 < den <= 100 * 0xffffffff * 0xffffffff * 0xffffffff,
            distinct_pairs(counts@),
            forall|t: int| 0 <= t < counts@.len() ==> (#[trigger] counts@[t]).2 <= u64::MAX,
            t <= counts@.len(),
            forall|x: CapEntry| #[trigger] out@.contains(x) ==> exists|s: int| 0 <= s < t && x == entry_of(*p, #[trigger] counts@[s]) && reported(*p, counts@[s].2 as int),
            forall|s: int| 0 <= s < t && reported(*p, (#[trigger] counts@[s]).2 as int) ==> out@.contains(entry_of(*p, counts@[s])),
            in_order(out@),
        decreases counts@.len() - t,
    {
        let (a, b, n) = counts[t];
        assert(8854 * p.eps_milli * 64516 * n <= 8854 * 0xffffffff * 64516 * 0xffffffffffffffff) by (nonlinear_arith)
            requires
                p.eps_milli <= 0xffffffff,
                n <= 0xffffffffffffffff,
        ;
        let num: u128 = 8854 * (p.eps_milli as u128) * 64516 * n;
        let q = num / den;
        proof {
            lemma_threshold(num as int, den as int, p.cap_min_af as int);
        }
        if n > 0 && q >= p.cap_min_af as u128 {
            let af = (2 * num + den) / (2 * den);
            let e = CapEntry { net_a: a, net_b: b, overlap: n, attofarads: af };
            assert(e == entry_of(*p, counts@[t as int]));
            proof {
                assert forall|k: int| 0 <= k < out@.len() implies (#[trigger] out@[k]).net_a != a || out@[k].net_b != b by {
                    assert(out@.contains(out@[k]));
                    let s = choose|s: int| 0 <= s < t && out@[k] == entry_of(*p, #[trigger] counts@[s]) && reported(*p, counts@[s].2 as int);
                    assert((counts@[s].0, counts@[s].1) != (counts@[t as int].0, counts@[t as int].1));
                }
            }
            insert_in_order(&mut out, e);
        }
        t = t + 1;
    }
    out
}

/// `num >= c * den` exactly when `num / den >= c`.
proof fn lemma_threshold(num: int, den: int, c: int)
    requires
        num >= 0,
        den > 0,
        c >= 0,
    ensures
        (num >= c * den) == (num / den >= c),
{
    let q = num / den;
    let r = num % den;
    assert(num == q * den + r && 0 <= r < den) by {
        vstd::arithmetic::div_mod::lemma_fundamental_div_mod(num, den);
    }
    if q >= c {
        assert(q * den >= c * den) by (nonlinear_arith)
            requires
                q >= c,
                den > 0,
        ;
    } else {
        assert(num < c * den) by (nonlinear_arith)
            requires
                q + 1 <= c,
                den > 0,
                num == q * den + r,
                r < den,
        ;
    }
}

/// Capacitance is linear in the overlap: none for no overlap, and the
/// overlaps of two parts add up.
pub proof fn lemma_capacitance_linear(p: CapacitanceParams, n1: int, n2: int)
    ensures
        cap_num(p, 0) == 0,
        cap_num(p, n1 + n2) == cap_num(p, n1) + cap_num(p, n2),
{
    assert(8854 * p.eps_milli * 64516 * (n1 + n2) == 8854 * p.eps_milli * 64516 * n1 + 8854 * p.eps_milli * 64516 * n2) by (nonlinear_arith);
}

/// Capacitance is inversely proportional to the dielectric thickness: with a
/// thickness `k` times larger it is `k` times smaller.
pub proof fn lemma_capacitance_thickness(p: CapacitanceParams, q: CapacitanceParams, k: int, n: int)
    requires
        q.dpi == p.dpi,
        q.eps_milli == p.eps_milli,
        q.thickness_um == k * p.thickness_um,
    ensures
        cap_num(q, n) == cap_num(p, n),
        cap_den(q) == k * cap_den(p),
{
    assert(100 * p.dpi * p.dpi * (k * p.thickness_um) == k * (100 * p.dpi * p.dpi * p.thickness_um)) by (nonlinear_arith);
}

/// Overlap of `key` counted as if components `ca` of the first layer and
/// `cb` of the second were no pair: their common pixels left out.
pub open spec fn count_without_pair(
    li: Seq<usize>,
    lj: Seq<usize>,
    ii: Seq<usize>,
    ij: Seq<usize>,
    n: int,
    key: (usize, usize),
    ca: usize,
    cb: usize,
) -> nat
    decreases n,
{
    if n <= 0 {
        0
    } else {
        count_without_pair(li, lj, ii, ij, n - 1, key, ca, cb) + if !(li[n - 1] == ca && lj[n - 1] == cb)
            && pixel_key(li[n - 1], lj[n - 1], ii, ij) == Some(key) {
            1nat
        } else {
            0nat
        }
    }
}

/// A pair of components with no pixel in common contributes nothing: every
/// net pair's overlap is what it would be without that pair.
pub proof fn lemma_disjoint_pair_adds_nothing(
    li: Seq<usize>,
    lj: Seq<usize>,
    ii: Seq<usize>,
    ij: Seq<usize>,
    n: int,
    key: (usize, usize),
    ca: usize,
    cb: usize,
)
    requires
        forall|q: int| 0 <= q < n ==> !(li[q] == ca && lj[q] == cb),
    ensures
        count_in(li, lj, ii, ij, n, key) == count_without_pair(li, lj, ii, ij, n, key, ca, cb),
    decreases n,
{
    if n > 0 {
        lemma_disjoint_pair_adds_nothing(li, lj, ii, ij, n - 1, key, ca, cb);
    }
}

} // verus!
