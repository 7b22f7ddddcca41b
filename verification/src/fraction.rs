//! Exact comparison of two fractions whose cross products need not fit in
//! any machine integer.

use vstd::prelude::*;
use vstd::arithmetic::div_mod::{lemma_fundamental_div_mod, lemma_mod_bound};

verus! {

/// `a / b < c / d` for positive `b` and `d`, stated without division.
pub open spec fn fraction_lt(a: int, b: int, c: int, d: int) -> bool {
    a * d < c * b
}

/// One step of the comparison: with `a = qa * b + ra` and `c = qc * d + rc`,
/// the whole parts decide unless they agree, and then the remainders do.
pub proof fn lemma_fraction_step(
    a: int,
    b: int,
    c: int,
    d: int,
    qa: int,
    ra: int,
    qc: int,
    rc: int,
)
    requires
        b > 0,
        d > 0,
        a == qa * b + ra,
        0 <= ra < b,
        c == qc * d + rc,
        0 <= rc < d,
    ensures
        qa < qc ==> fraction_lt(a, b, c, d),
        qa > qc ==> !fraction_lt(a, b, c, d),
        qa == qc ==> (fraction_lt(a, b, c, d) <==> fraction_lt(ra, b, rc, d)),
        fraction_lt(ra, b, rc, d) <==> fraction_lt(d, rc, b, ra),
{
    assert(a * d == qa * (b * d) + ra * d) by (nonlinear_arith)
        requires
            a == qa * b + ra,
    ;
    assert(c * b == qc * (b * d) + rc * b) by (nonlinear_arith)
        requires
            c == qc * d + rc,
    ;
    assert(b * d > 0 && ra * d < b * d && rc * b < b * d && ra * d >= 0 && rc * b >= 0)
        by (nonlinear_arith)
        requires
            b > 0,
            d > 0,
            0 <= ra < b,
            0 <= rc < d,
    ;
    let bd = b * d;
    if qa < qc {
        assert(qc * bd >= qa * bd + bd) by (nonlinear_arith)
            requires
                qa < qc,
                bd > 0,
        ;
    } else if qa > qc {
        assert(qa * bd >= qc * bd + bd) by (nonlinear_arith)
            requires
                qa > qc,
                bd > 0,
        ;
    }
    assert(d * ra == ra * d && b * rc == rc * b) by (nonlinear_arith);
}

/// Decides `a / b < c / d` by comparing whole parts and then turning to the
/// reciprocals of the remainders, as in Euclid's algorithm.
pub fn fraction_less(a: u128, b: u128, c: u128, d: u128) -> (less: bool)
    requires
        b > 0,
        d > 0,
    ensures
        less == fraction_lt(a as int, b as int, c as int, d as int),
{
    let mut p: u128 = a;
    let mut q: u128 = b;
    let mut r: u128 = c;
    let mut s: u128 = d;
    loop
        invariant
            q > 0,
            s > 0,
            fraction_lt(a as int, b as int, c as int, d as int) == fraction_lt(
                p as int,
                q as int,
                r as int,
                s as int,
            ),
        decreases q + s,
    {
        let whole_left: u128 = p / q;
        let rest_left: u128 = p % q;
        let whole_right: u128 = r / s;
        let rest_right: u128 = r % s;
        proof {
            lemma_fundamental_div_mod(p as int, q as int);
            lemma_fundamental_div_mod(r as int, s as int);
            lemma_mod_bound(p as int, q as int);
            lemma_mod_bound(r as int, s as int);
            assert(q * whole_left == whole_left * q && s * whole_right == whole_right * s)
                by (nonlinear_arith);
            lemma_fraction_step(
                p as int,
                q as int,
                r as int,
                s as int,
                whole_left as int,
                rest_left as int,
                whole_right as int,
                rest_right as int,
            );
        }
        if whole_left < whole_right {
            return true;
        }
        if whole_left > whole_right {
            return false;
        }
        if rest_right == 0 {
            assert(!fraction_lt(rest_left as int, q as int, 0, s as int)) by (nonlinear_arith)
                requires
                    rest_left >= 0,
                    s > 0,
            ;
            return false;
        }
        if rest_left == 0 {
            assert(fraction_lt(0, q as int, rest_right as int, s as int)) by (nonlinear_arith)
                requires
                    rest_right > 0,
                    q > 0,
            ;
            return true;
        }
        p = s;
        r = q;
        q = rest_right;
        s = rest_left;
    }
}

} // verus!
