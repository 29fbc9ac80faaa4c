use vstd::prelude::*;
use crate::gerber::{
    AttributeTarget, Command, CommandModel, CoordinateFormat, Image, Mode, Operation, image_model,
    formats_in_range, format_ok,
};
use crate::text::chars_of;
use crate::registry::position_of;

verus! {

/// Lengths are counted in units of 10^-10 mm: every coordinate that a
/// Gerber format can express, in millimetres or inches, is a whole number
/// of them.
pub const UNITS_PER_MM: i128 = 10_000_000_000;

/// A flash position in units of 10^-10 mm.
#[derive(Clone, Copy, Debug, PartialEq, Eq, Structural)]
pub struct Point {
    pub x: i128,
    pub y: i128,
}

pub open spec fn pow10(e: nat) -> nat
    decreases e,
{
    if e == 0 {
        1
    } else {
        10 * pow10((e - 1) as nat)
    }
}

/// The raw coordinate `d` read with format `f`, in units of 10^-10 mm:
/// `d / 10^decimal` millimetres, or inches of 25.4 mm, for a format of at
/// most 9 decimal digits (all that a format command can give).
pub open spec fn coord_units(d: int, f: CoordinateFormat, inches: bool) -> int {
    if inches {
        d * 254 * pow10((9 - f.decimal) as nat)
    } else {
        d * pow10((10 - f.decimal) as nat)
    }
}

/// What the reader of a command stream keeps between commands.
pub struct ReaderState {
    pub inches: bool,
    pub x: CoordinateFormat,
    pub y: CoordinateFormat,
    pub net: Option<Seq<char>>,
}

pub open spec fn initial_state() -> ReaderState {
    ReaderState {
        inches: false,
        x: CoordinateFormat { integer: 6, decimal: 6 },
        y: CoordinateFormat { integer: 6, decimal: 6 },
        net: None,
    }
}

/// The state after one command: units, formats and the active net.
pub open spec fn next_state(s: ReaderState, c: CommandModel) -> ReaderState {
    match c {
        CommandModel::SetMode(Mode::Inches) => ReaderState { inches: true, ..s },
        CommandModel::SetMode(Mode::Millimeters) => ReaderState { inches: false, ..s },
        CommandModel::SetCoordinateFormat { x, y } => ReaderState { x, y, ..s },
        CommandModel::DefineAttribute { target, name, values } => {
            if target == AttributeTarget::Object && name == seq!['.', 'N'] && values.len() == 1 {
                ReaderState { net: Some(values[0]), ..s }
            } else {
                s
            }
        },
        CommandModel::DeleteAttribute { name } => {
            if name is None || name == Some(seq!['.', 'N']) {
                ReaderState { net: None, ..s }
            } else {
                s
            }
        },
        _ => s,
    }
}

/// State after the commands `cs`.
pub open spec fn state_after(cs: Seq<CommandModel>) -> ReaderState
    decreases cs.len(),
{
    if cs.len() == 0 {
        initial_state()
    } else {
        next_state(state_after(cs.drop_last()), cs.last())
    }
}

/// The flash that command `c` records in state `s`: a flash while a net is
/// active, converted to units.
pub open spec fn flash_of(s: ReaderState, c: CommandModel) -> Option<(Seq<char>, Point)> {
    match c {
        CommandModel::Operation { op, x, y } => {
            if op == Operation::Flash && s.net is Some {
                Some(
                    (
                        s.net.unwrap(),
                        Point { x: coord_units(x as int, s.x, s.inches) as i128, y: coord_units(y as int, s.y, s.inches) as i128 },
                    ),
                )
            } else {
                None
            }
        },
        _ => None,
    }
}

/// Every recorded flash of `cs`, in order.
pub open spec fn flashes(cs: Seq<CommandModel>) -> Seq<(Seq<char>, Point)>
    decreases cs.len(),
{
    if cs.len() == 0 {
        Seq::empty()
    } else {
        let f = flashes(cs.drop_last());
        match flash_of(state_after(cs.drop_last()), cs.last()) {
            Some(r) => f.push(r),
            None => f,
        }
    }
}

pub open spec fn names_of(g: Seq<(Seq<char>, Seq<Point>)>) -> Seq<Seq<char>> {
    g.map_values(|e: (Seq<char>, Seq<Point>)| e.0)
}

/// Flashes grouped by net, nets in order of their first flash, points in
/// file order.
pub open spec fn grouped(recs: Seq<(Seq<char>, Point)>) -> Seq<(Seq<char>, Seq<Point>)>
    decreases recs.len(),
{
    if recs.len() == 0 {
        Seq::empty()
    } else {
        let g = grouped(recs.drop_last());
        let (n, p) = recs.last();
        match position_of(names_of(g), n) {
            Some(k) => g.update(k as int, (n, g[k as int].1.push(p))),
            None => g.push((n, seq![p])),
        }
    }
}

/// Flash points of each net named in a Gerber layer.
pub struct NetInfos {
    pub names: Vec<String>,
    pub points: Vec<Vec<Point>>,
}

impl View for NetInfos {
    type V = Seq<(Seq<char>, Seq<Point>)>;

    open spec fn view(&self) -> Seq<(Seq<char>, Seq<Point>)> {
        Seq::new(self.names@.len(), |i: int| (self.names@[i]@, self.points@[i]@))
    }
}

proof fn lemma_pow10_le(a: nat, b: nat)
    requires
        a <= b,
    ensures
        1 <= pow10(a) <= pow10(b),
    decreases b,
{
    if b > 0 {
        if a < b {
            lemma_pow10_le(a, (b - 1) as nat);
        } else {
            lemma_pow10_le((b - 1) as nat, (b - 1) as nat);
        }
    }
}

/// `10^e` for `e` up to 10.
fn pow10_exec(e: u32) -> (r: i128)
    requires
        e <= 10,
    ensures
        r == pow10(e as nat),
        1 <= r <= 10_000_000_000,
{
    let mut p: i128 = 1;
    let mut i: u32 = 0;
    proof {
        reveal_with_fuel(pow10, 11);
    }
    while i < e
        invariant
            i <= e <= 10,
            p == pow10(i as nat),
            pow10(10) == 10_000_000_000,
        decreases e - i,
    {
        proof {
            lemma_pow10_le((i + 1) as nat, 10);
        }
        p = p * 10;
        i = i + 1;
    }
    proof {
        lemma_pow10_le(e as nat, 10);
    }
    p
}

/// The raw coordinate `d` read with format `f`, in units of 10^-10 mm.
pub fn to_units(d: i32, f: CoordinateFormat, inches: bool) -> (r: i128)
    requires
        f.decimal <= 9,
    ensures
        r == coord_units(d as int, f, inches),
{
    let dec: u32 = f.decimal as u32;
    if inches {
        let p = pow10_exec(9 - dec);
        assert(-2147483648 * 254 * 10_000_000_000 <= d * 254 * p <= 2147483647 * 254 * 10_000_000_000) by (nonlinear_arith)
            requires
                -2147483648 <= d <= 2147483647,
                1 <= p <= 10_000_000_000,
        ;
        (d as i128) * 254 * p
    } else {
        let p = pow10_exec(10 - dec);
        assert(-2147483648 * 10_000_000_000 <= d * p <= 2147483647 * 10_000_000_000) by (nonlinear_arith)
            requires
                -2147483648 <= d <= 2147483647,
                1 <= p <= 10_000_000_000,
        ;
        (d as i128) * p
    }
}

/// Whether `s` is the text `lit`.
fn string_is(s: &String, lit: &[char]) -> (r: bool)
    ensures
        r == (s@ == lit@),
{
    let cs = chars_of(s.as_str());
    let r = crate::text::is_text(&cs, 0, cs.len(), lit);
    proof {
        assert(cs@.subrange(0, cs@.len() as int) =~= cs@);
    }
    r
}

fn find_net(names: &Vec<String>, n: &String) -> (r: Option<usize>)
    ensures
        match r {
            Some(i) => i < names@.len() && names@[i as int]@ == n@,
            None => forall|i: int| 0 <= i < names@.len() ==> names@[i]@ != n@,
        },
{
    let mut i: usize = 0;
    while i < names.len()
        invariant
            i <= names@.len(),
            forall|j: int| 0 <= j < i ==> names@[j]@ != n@,
        decreases names@.len() - i,
    {
        if names[i] == *n {
            return Some(i);
        }
        i = i + 1;
    }
    None
}

impl NetInfos {
    /// Names of the nets, distinct, in order of first flash.
    pub open spec fn wf(&self) -> bool {
        &&& self.names@.len() == self.points@.len()
        &&& crate::registry::distinct_names(names_of(self@))
    }

    /// Reads the commands of a layer left to right, keeping units, formats
    /// and the active net (`TO.N,<net>` sets it, `TD` or `TD.N` clears it),
    /// and groups by net the flashes made while a net is active.
    #[verifier::rlimit(80)]
    pub fn from_image(img: &Image) -> (r: NetInfos)
        requires
            formats_in_range(image_model(img.commands@)),
        ensures
            r.wf(),
            r@ == grouped(flashes(image_model(img.commands@))),
    {
        let ghost cm = image_model(img.commands@);
        let mut names: Vec<String> = Vec::new();
        let mut points: Vec<Vec<Point>> = Vec::new();
        let mut inches = false;
        let mut xf = CoordinateFormat { integer: 6, decimal: 6 };
        let mut yf = CoordinateFormat { integer: 6, decimal: 6 };
        let mut net: Option<String> = None;
        let mut slot: Option<usize> = None;
        let mut k: usize = 0;
        proof {
            assert(cm.take(0) =~= Seq::<CommandModel>::empty());
            let r = NetInfos { names, points };
            assert(r@ =~= Seq::<(Seq<char>, Seq<Point>)>::empty());
        }
        while k < img.commands.len()
            invariant
                cm == image_model(img.commands@),
                formats_in_range(cm),
                xf.decimal <= 9,
                yf.decimal <= 9,
                k <= img.commands@.len(),
                names@.len() == points@.len(),
                (NetInfos { names, points }).wf(),
                (NetInfos { names, points })@ == grouped(flashes(cm.take(k as int))),
                state_after(cm.take(k as int)) == (ReaderState {
                    inches,
                    x: xf,
                    y: yf,
                    net: match net {
                        Some(n) => Some(n@),
                        None => None,
                    },
                }),
                match slot {
                    Some(i) => net is Some && i < names@.len() && names@[i as int]@ == net.unwrap()@,
                    None => true,
                },
            decreases img.commands@.len() - k,
        {
            let ghost before = cm.take(k as int);
            let ghost st = state_after(before);
            let ghost g0 = (NetInfos { names, points })@;
            proof {
                assert(cm.take(k + 1).drop_last() =~= before);
                assert(cm.take(k + 1).last() == img.commands@[k as int]@);
            }
            let c = &img.commands[k];
            match c {
                Command::SetMode(m) => {
                    inches = match m {
                        Mode::Inches => true,
                        Mode::Millimeters => false,
                    };
                },
                Command::SetCoordinateFormat { x, y } => {
                    assert(format_ok(cm[k as int]));
                    xf = *x;
                    yf = *y;
                },
                Command::DefineAttribute { target, name, values } => {
                    if *target == AttributeTarget::Object && string_is(name, &['.', 'N']) && values.len() == 1 {
                        net = Some(values[0].clone());
                        slot = None;
                        proof {
                            assert(values@.map_values(|v: String| v@)[0] == values@[0]@);
                        }
                    }
                },
                Command::DeleteAttribute { name } => {
                    let clear = match name {
                        None => true,
                        Some(n) => string_is(n, &['.', 'N']),
                    };
                    if clear {
                        net = None;
                        slot = None;
                    }
                },
                Command::Operation { op, x, y } => {
                    if *op == Operation::Flash && net.is_some() {
                        let n = net.as_ref().unwrap();
                        let p = Point { x: to_units(*x, xf, inches), y: to_units(*y, yf, inches) };
                        let len0 = names.len();
                        let i = match slot {
                            Some(i) => i,
                            None => match find_net(&names, n) {
                                Some(i) => i,
                                None => {
                                    names.push(n.clone());
                                    let mut v: Vec<Point> = Vec::new();
                                    v.push(p);
                                    points.push(v);
                                    names.len() - 1
                                },
                            },
                        };
                        if i < len0 {
                            let mut tmp: Vec<Point> = Vec::new();
                            points.set_and_swap(i, &mut tmp);
                            tmp.push(p);
                            points.set_and_swap(i, &mut tmp);
                            proof {
                                let g1 = (NetInfos { names, points })@;
                                assert(position_of(names_of(g0), n@) == Some(i as nat)) by {
                                    assert(names_of(g0)[i as int] == n@);
                                    let j = choose|j: int| 0 <= j < names_of(g0).len() && names_of(g0)[j] == n@;
                                    assert(names_of(g0)[j] == names_of(g0)[i as int]);
                                }
                                assert(g1 =~= g0.update(i as int, (n@, g0[i as int].1.push(p))));
                                assert(names_of(g1) =~= names_of(g0));
                            }
                        } else {
                            proof {
                                let g1 = (NetInfos { names, points })@;
                                assert(forall|j: int| 0 <= j < names_of(g0).len() ==> names_of(g0)[j] != n@);
                                assert(position_of(names_of(g0), n@) is None);
                                assert(g1 =~= g0.push((n@, seq![p])));
                                assert(names_of(g1) =~= names_of(g0).push(n@));
                                let ns1 = names_of(g1);
                                assert forall|a: int, b: int| 0 <= a < ns1.len() && 0 <= b < ns1.len() && a != b implies #[trigger] ns1[a] != #[trigger] ns1[b] by {
                                    if a < names_of(g0).len() && b < names_of(g0).len() {
                                        assert(ns1[a] == names_of(g0)[a] && ns1[b] == names_of(g0)[b]);
                                    } else if a < names_of(g0).len() {
                                        assert(ns1[a] == names_of(g0)[a]);
                                    } else if b < names_of(g0).len() {
                                        assert(ns1[b] == names_of(g0)[b]);
                                    }
                                }
                            }
                        }
                        slot = Some(i);
                        proof {
                            let fl = flashes(before);
                            assert(flash_of(st, img.commands@[k as int]@) == Some((n@, p)));
                            assert(flashes(cm.take(k + 1)) == fl.push((n@, p)));
                            assert(fl.push((n@, p)).drop_last() =~= fl);
                        }
                    }
                },
                _ => {},
            }
            k = k + 1;
        }
        proof {
            assert(cm.take(k as int) =~= cm);
        }
        NetInfos { names, points }
    }
}

} // verus!
