use vstd::prelude::*;

verus! {

/// `x mod y` in `0..y` for positive `y`, also for negative `x`.
pub fn modulo(x: isize, y: isize) -> (r: usize)
    requires
        y > 0,
    ensures
        r == x as int % y as int,
{
    if x >= 0 {
        (x % y) as usize
    } else {
        let a = -(x + 1);
        let r = a % y;
        proof {
            let q = a as int / y as int;
            assert(a == q * y + r) by {
                vstd::arithmetic::div_mod::lemma_fundamental_div_mod(a as int, y as int);
            }
            assert(x == (-q - 1) * y + (y - r - 1)) by (nonlinear_arith)
                requires
                    a == q * y + r,
                    x == -a - 1,
            ;
            vstd::arithmetic::div_mod::lemma_fundamental_div_mod_converse_mod(x as int, y as int, -q - 1, y - r - 1);
        }
        (y - 1 - r) as usize
    }
}

} // verus!
