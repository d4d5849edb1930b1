//! A solver for linear diophantine equations `a*x + b*y = c`: the greatest
//! common divisor by Euclid's algorithm, a solvability test, and one pair of
//! Bezout coefficients by the extended algorithm.
//!
//! The solver commits to the standard mathematical conventions, and its
//! contracts say so rather than leaving them implicit:
//!
//! - the divisor is reported non-negative: Euclid runs on the magnitudes
//!   `|a|`, `|b|`, not on the signed values, whose raw remainder recursion
//!   would carry an input-dependent sign into the result;
//! - `solvable` is the defining test of the equation: the divisor is
//!   positive and divides `|c|` (by Bezout, `a*x + b*y = c` has a solution
//!   exactly then);
//! - the Bezout pair satisfies `a*x + b*y == gcd` against that non-negative
//!   divisor, with the signs of `x` and `y` adjusted to the signs of `a`
//!   and `b`.
//!
//! `i32::MIN` coefficients are excluded: their magnitude has no `i32`
//! representation, and the non-negative convention needs the magnitudes.

use vstd::prelude::*;

verus! {

/// The magnitude of an integer.
pub open spec fn abs_i(x: int) -> int {
    if x < 0 {
        -x
    } else {
        x
    }
}

/// Euclid's algorithm on non-negative integers.
pub open spec fn euclid(a: int, b: int) -> int
    recommends
        a >= 0,
        b >= 0,
    decreases b,
        when b >= 0
{
    if b <= 0 {
        a
    } else {
        euclid(b, a % b)
    }
}

/// One linear diophantine equation `a*x + b*y = c` and what the solver found
/// out about it.
pub struct DiophantineEq {
    pub a: i32,
    pub b: i32,
    pub c: i32,
    pub x: i32,
    pub y: i32,
    pub gcd: i32,
    pub solvable: bool,
    pub general_solution: String,
    pub all_solutions: Vec<(i32, i32)>,
}

/// Extended Euclid on non-negative inputs: the divisor together with one
/// pair of Bezout coefficients, with the classical magnitude bounds.
fn ext_gcd(a: i64, b: i64) -> (res: (i64, i64, i64))
    requires
        0 <= a <= 0x7fff_ffff,
        0 <= b <= 0x7fff_ffff,
    ensures
        res.0 == euclid(a as int, b as int),
        0 <= res.0 <= 0x7fff_ffff,
        b == 0 ==> res.1 == 1 && res.2 == 0,
        a as int * res.1 + b as int * res.2 == res.0,
        abs_i(res.1 as int) <= (if b == 0 {
            1int
        } else {
            b as int
        }),
        abs_i(res.2 as int) <= (if a == 0 {
            1int
        } else {
            a as int
        }),
    decreases b,
{
    if b == 0 {
        (a, 1, 0)
    } else {
        let q = a / b;
        let r = a % b;
        let (g, x1, y1) = ext_gcd(b, r);
        proof {
            assert(q * b + r == a) by (nonlinear_arith)
                requires
                    q == a as int / b as int,
                    r == a as int % b as int,
                    b > 0,
            ;
            assert(q * y1 <= a && -(a as int) <= q * y1) by (nonlinear_arith)
                requires
                    0 <= q,
                    q * b + r == a,
                    0 <= r,
                    abs_i(y1 as int) <= (if b == 0 {
                        1int
                    } else {
                        b as int
                    }),
                    b > 0,
            ;
        }
        let x = y1;
        let y = x1 - q * y1;
        proof {
            assert(a as int * x + b as int * y == g) by (nonlinear_arith)
                requires
                    b as int * x1 + r as int * y1 == g,
                    q * b + r == a,
                    x == y1,
                    y == x1 - q * y1,
            ;
            assert(abs_i(y as int) <= (if a == 0 {
                1int
            } else {
                a as int
            })) by (nonlinear_arith)
                requires
                    y == x1 - q * y1,
                    q * b + r == a,
                    0 <= q,
                    0 <= r < b,
                    r == 0 ==> y1 == 0 && x1 == 1,
                    abs_i(x1 as int) <= (if r == 0 {
                        1int
                    } else {
                        r as int
                    }),
                    abs_i(y1 as int) <= (if b == 0 {
                        1int
                    } else {
                        b as int
                    }),
            ;
        }
        (g, x, y)
    }
}

/// The magnitude of an `i32` other than the smallest one, widened.
fn abs_to_i64(v: i32) -> (r: i64)
    requires
        v != i32::MIN,
    ensures
        r == abs_i(v as int),
        0 <= r <= 0x7fff_ffff,
{
    if v < 0 {
        -(v as i64)
    } else {
        v as i64
    }
}

impl DiophantineEq {
    /// Builds the equation and runs the solver on it.
    pub fn new(a: i32, b: i32, c: i32) -> (eq: DiophantineEq)
        requires
            c != 0,
            a != i32::MIN,
            b != i32::MIN,
            c != i32::MIN,
        ensures
            eq.a == a && eq.b == b && eq.c == c,
            eq.gcd == euclid(abs_i(a as int), abs_i(b as int)),
            eq.solvable == (eq.gcd > 0 && abs_i(c as int) % (eq.gcd as int) == 0),
            eq.solvable ==> a as int * eq.x + b as int * eq.y == eq.gcd,
    {
        let mut eq = DiophantineEq {
            a,
            b,
            c,
            x: 0,
            y: 0,
            gcd: 0,
            solvable: false,
            general_solution: String::new(),
            all_solutions: Vec::new(),
        };
        eq.compute();
        eq
    }

    /// Runs the solver: the non-negative divisor, the solvability test (the
    /// divisor must be positive and divide the constant's magnitude), and,
    /// when solvable, one Bezout pair for the divisor.
    pub fn compute(&mut self)
        requires
            old(self).c != 0,
            old(self).a != i32::MIN,
            old(self).b != i32::MIN,
            old(self).c != i32::MIN,
        ensures
            final(self).a == old(self).a && final(self).b == old(self).b && final(self).c == old(self).c,
            final(self).gcd == euclid(abs_i(old(self).a as int), abs_i(old(self).b as int)),
            final(self).solvable == (final(self).gcd > 0 && abs_i(old(self).c as int) % (final(self).gcd as int) == 0),
            final(self).solvable ==> old(self).a as int * final(self).x + old(self).b as int
                * final(self).y == final(self).gcd,
    {
        let g = self.solve_gcd();
        if g == 0 {
            self.solvable = false;
            return ;
        }
        let cc = abs_to_i64(self.c);
        if cc % (g as i64) == 0 {
            self.solvable = true;
            self.solve_bezout();
        } else {
            self.solvable = false;
        }
    }

    /// Euclid's algorithm on the magnitudes of the coefficients: the result
    /// is the non-negative greatest common divisor, whatever the signs of
    /// the inputs, and is stored in the `gcd` field.
    pub fn solve_gcd(&mut self) -> (r: i32)
        requires
            old(self).a != i32::MIN,
            old(self).b != i32::MIN,
        ensures
            r == final(self).gcd,
            final(self).gcd == euclid(abs_i(old(self).a as int), abs_i(old(self).b as int)),
            final(self).gcd >= 0,
            final(self).a == old(self).a && final(self).b == old(self).b && final(self).c == old(self).c && final(self).x == old(self).x && final(self).y == old(self).y && final(self).solvable == old(self).solvable,
    {
        let mut x = abs_to_i64(self.a);
        let mut y = abs_to_i64(self.b);
        while y != 0
            invariant
                0 <= x <= 0x7fff_ffff,
                0 <= y <= 0x7fff_ffff,
                euclid(x as int, y as int) == euclid(
                    abs_i(old(self).a as int),
                    abs_i(old(self).b as int),
                ),
            decreases y,
        {
            let r = x % y;
            x = y;
            y = r;
        }
        self.gcd = x as i32;
        self.gcd
    }

    /// The extended algorithm: one pair of Bezout coefficients satisfying
    /// `a*x + b*y == gcd` for the non-negative divisor of the magnitudes,
    /// signs folded back into `x` and `y`.
    pub fn solve_bezout(&mut self)
        requires
            old(self).a != i32::MIN,
            old(self).b != i32::MIN,
        ensures
            final(self).a == old(self).a && final(self).b == old(self).b && final(self).c == old(self).c && final(self).gcd == old(self).gcd && final(self).solvable == old(self).solvable,
            final(self).a as int * final(self).x + final(self).b as int * final(self).y
                == euclid(abs_i(old(self).a as int), abs_i(old(self).b as int)),
    {
        let aa = abs_to_i64(self.a);
        let bb = abs_to_i64(self.b);
        let (g, x0, y0) = ext_gcd(aa, bb);
        let x = if self.a < 0 {
            -x0
        } else {
            x0
        };
        let y = if self.b < 0 {
            -y0
        } else {
            y0
        };
        proof {
            assert(self.a as int * x + self.b as int * y == g) by (nonlinear_arith)
                requires
                    aa == abs_i(self.a as int),
                    bb == abs_i(self.b as int),
                    aa as int * x0 + bb as int * y0 == g,
                    x as int == (if self.a < 0 {
                        -(x0 as int)
                    } else {
                        x0 as int
                    }),
                    y as int == (if self.b < 0 {
                        -(y0 as int)
                    } else {
                        y0 as int
                    }),
            ;
        }
        self.x = x as i32;
        self.y = y as i32;
    }
}

} // verus!
