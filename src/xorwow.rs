use vstd::prelude::*;

verus! {

/// Marsaglia's xorwow generator: four words of xorshift state and a Weyl
/// counter.
#[derive(Clone, Copy, Debug, PartialEq, Eq, Structural)]
pub struct Xorwow {
    pub a: u32,
    pub b: u32,
    pub c: u32,
    pub d: u32,
    pub counter: u32,
}

/// One step of the generator: the next state and the number it gives.
pub open spec fn step(s: Xorwow) -> (Xorwow, u32) {
    let t0 = s.d;
    let t1 = t0 ^ (t0 >> 2u32);
    let t2 = t1 ^ ((t1 << 1u32) as u32);
    let t3 = t2 ^ (s.a ^ ((s.a << 4u32) as u32));
    let counter = ((s.counter + 362437) % 0x100000000) as u32;
    (Xorwow { a: t3, b: s.a, c: s.b, d: s.c, counter }, ((t3 + counter) % 0x100000000) as u32)
}

/// The state after `k` steps.
pub open spec fn advance(s: Xorwow, k: nat) -> Xorwow
    decreases k,
{
    if k == 0 {
        s
    } else {
        step(advance(s, (k - 1) as nat)).0
    }
}

/// The numbers of `k` steps from `s`, in order.
pub open spec fn outputs(s: Xorwow, k: nat) -> Seq<u32>
    decreases k,
{
    if k == 0 {
        Seq::empty()
    } else {
        outputs(s, (k - 1) as nat).push(step(advance(s, (k - 1) as nat)).1)
    }
}

/// Joins two words, `x` high.
pub open spec fn join_spec(x: u32, y: u32) -> int {
    (x as u64) * 0x100000000 + (y as u64)
}

pub fn jn(x: u32, y: u32) -> (r: u64)
    ensures
        r == join_spec(x, y),
{
    (x as u64) * 0x100000000 + (y as u64)
}

/// Splits a word into its high and low halves.
pub fn sp(x: u64) -> (r: (u32, u32))
    ensures
        r.0 == x / 0x100000000,
        r.1 == x % 0x100000000,
{
    ((x / 0x100000000) as u32, (x % 0x100000000) as u32)
}

/// Steps to discard after seeding.
pub const WARMUP: u32 = 1024;

impl Xorwow {
    /// The generator seeded with the two halves of `seed`, after a warm-up
    /// of 1024 steps.
    pub fn new(seed: u64) -> (r: Self)
        ensures
            r == advance(
                Xorwow {
                    a: (seed / 0x100000000) as u32,
                    b: (seed % 0x100000000) as u32,
                    c: 1,
                    d: 1,
                    counter: 0,
                },
                1024,
            ),
    {
        let (a, b) = sp(seed);
        let ghost s0 = Xorwow { a, b, c: 1, d: 1, counter: 0 };
        let mut s = Xorwow { a, b, c: 1, d: 1, counter: 0 };
        let mut i: u32 = 0;
        while i < WARMUP
            invariant
                i <= WARMUP,
                WARMUP == 1024,
                s == advance(s0, i as nat),
            decreases WARMUP - i,
        {
            let _ = s.next();
            i = i + 1;
        }
        s
    }

    /// Restarts from `seed` without warm-up.
    pub fn reset(&mut self, seed: u32)
        ensures
            *final(self) == (Xorwow { a: seed, b: 1, c: 1, d: 1, counter: 0 }),
    {
        self.a = seed;
        self.b = 1;
        self.c = 1;
        self.d = 1;
        self.counter = 0;
    }

    /// Advances one step and returns its number.
    pub fn next(&mut self) -> (r: u32)
        ensures
            (*final(self), r) == step(*old(self)),
    {
        let mut t = self.d;
        let s = self.a;
        self.d = self.c;
        self.c = self.b;
        self.b = s;
        t = t ^ (t >> 2u32);
        t = t ^ (t << 1u32);
        t = t ^ (s ^ (s << 4u32));
        self.a = t;
        self.counter = self.counter.wrapping_add(362437);
        t.wrapping_add(self.counter)
    }

    /// Two steps joined, the first high.
    pub fn next64(&mut self) -> (r: u64)
        ensures
            *final(self) == step(step(*old(self)).0).0,
            r == join_spec(step(*old(self)).1, step(step(*old(self)).0).1),
    {
        let a = self.next();
        let b = self.next();
        jn(a, b)
    }
}

/// Colour of a component from one number of the generator: its bits 16-23,
/// 8-15 and 0-7 as red, green and blue.
pub open spec fn colour_of(x: u32) -> (u8, u8, u8) {
    (((x >> 16u32) & 255) as u8, ((x >> 8u32) & 255) as u8, (x & 255) as u8)
}

/// One colour per component, drawn in order from the generator.
pub fn palette(xw: &mut Xorwow, m: usize) -> (r: Vec<(u8, u8, u8)>)
    ensures
        r@.len() == m,
        *final(xw) == advance(*old(xw), m as nat),
        forall|i: int| 0 <= i < m ==> #[trigger] r@[i] == colour_of(outputs(*old(xw), m as nat)[i]),
{
    let ghost s0 = *xw;
    let mut r: Vec<(u8, u8, u8)> = Vec::new();
    let mut i: usize = 0;
    while i < m
        invariant
            i <= m,
            *xw == advance(s0, i as nat),
            r@.len() == i,
            forall|j: int| 0 <= j < i ==> #[trigger] r@[j] == colour_of(outputs(s0, i as nat)[j]),
        decreases m - i,
    {
        let x = xw.next();
        r.push((((x >> 16u32) & 255) as u8, ((x >> 8u32) & 255) as u8, (x & 255) as u8));
        proof {
            lemma_outputs_len(s0, i as nat);
            lemma_outputs_len(s0, (i + 1) as nat);
            assert forall|j: int| 0 <= j < i + 1 implies #[trigger] r@[j] == colour_of(outputs(s0, (i + 1) as nat)[j]) by {
                if j < i {
                    assert(outputs(s0, (i + 1) as nat)[j] == outputs(s0, i as nat)[j]);
                }
            }
        }
        i = i + 1;
    }
    proof {
        lemma_outputs_len(s0, m as nat);
    }
    r
}

proof fn lemma_outputs_len(s: Xorwow, k: nat)
    ensures
        outputs(s, k).len() == k,
    decreases k,
{
    if k > 0 {
        lemma_outputs_len(s, (k - 1) as nat);
    }
}

} // verus!
