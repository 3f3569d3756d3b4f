//! Greatest common divisor and least common multiple.
use vstd::arithmetic::div_mod::{
    lemma_add_mod_noop, lemma_div_multiples_vanish, lemma_fundamental_div_mod,
    lemma_mod_self_0, lemma_mul_mod_noop_left, lemma_sub_mod_noop,
};
use vstd::arithmetic::power2::pow2;
use vstd::prelude::*;

verus! {

/// The greatest common divisor of `u` and `v`, by Euclid's recurrence
/// (`gcd(0, 0) == 0`).
pub open spec fn spec_gcd(u: nat, v: nat) -> nat
    decreases v,
{
    if v == 0 {
        u
    } else {
        spec_gcd(v, u % v)
    }
}

/// The least common multiple `u * v / gcd(u, v)`.
pub open spec fn spec_lcm(u: nat, v: nat) -> nat {
    u * v / spec_gcd(u, v)
}

/// `gcd(u, v)` divides `u` and `v`, and every common divisor of `u` and `v`
/// divides it.
pub proof fn law_gcd(u: nat, v: nat, d: nat)
    requires
        u > 0 || v > 0,
    ensures
        spec_gcd(u, v) > 0,
        u % spec_gcd(u, v) == 0,
        v % spec_gcd(u, v) == 0,
        d > 0 && u % d == 0 && v % d == 0 ==> spec_gcd(u, v) % d == 0,
    decreases v,
{
    if v == 0 {
        lemma_mod_self_0(u as int);
    } else {
        let r = u % v;
        law_gcd(v, r, d);
        let g = spec_gcd(v, r);
        let q = (u / v) as int;
        lemma_fundamental_div_mod(u as int, v as int);
        assert(u == v * q + r);
        lemma_mul_mod_noop_left(v as int, q, g as int);
        assert((v * q) % (g as int) == 0) by {
            assert(((v as int) % (g as int)) * q == 0);
            vstd::arithmetic::div_mod::lemma_small_mod(0, g);
        }
        lemma_add_mod_noop(v * q, r as int, g as int);
        if d > 0 && u % d == 0 && v % d == 0 {
            lemma_mul_mod_noop_left(v as int, q, d as int);
            assert((v * q) % (d as int) == 0) by {
                assert(((v as int) % (d as int)) * q == 0);
                vstd::arithmetic::div_mod::lemma_small_mod(0, d);
            }
            lemma_sub_mod_noop(u as int, v * q, d as int);
            assert(r == u - v * q);
        }
    }
}

/// `gcd(u, v) * lcm(u, v) == u * v`, and the least common multiple is a
/// multiple of `u` and of `v` equal to `(u / gcd) * v`.
pub proof fn law_lcm(u: nat, v: nat)
    requires
        u > 0 || v > 0,
    ensures
        spec_gcd(u, v) * spec_lcm(u, v) == u * v,
        spec_lcm(u, v) == (u / spec_gcd(u, v)) * v,
        spec_lcm(u, v) % u == 0 || u == 0,
        spec_lcm(u, v) % v == 0 || v == 0,
        u > 0 && v > 0 ==> spec_lcm(u, v) >= u && spec_lcm(u, v) >= v,
{
    law_gcd(u, v, 1);
    let g = spec_gcd(u, v);
    let a = u / g;
    let b = v / g;
    lemma_fundamental_div_mod(u as int, g as int);
    lemma_fundamental_div_mod(v as int, g as int);
    assert(u == g * a);
    assert(v == g * b);
    assert(u * v == g * (a * v)) by (nonlinear_arith)
        requires
            u == g * a,
    ;
    lemma_div_multiples_vanish((a * v) as int, g as int);
    assert(spec_lcm(u, v) == a * v);
    assert(a * v == u * b) by (nonlinear_arith)
        requires
            u == g * a,
            v == g * b,
    ;
    assert((a * v) % v == 0 || v == 0) by {
        if v > 0 {
            vstd::arithmetic::div_mod::lemma_mod_multiples_basic(a as int, v as int);
            assert(a * v == (a as int) * (v as int));
        }
    }
    assert((u * b) % u == 0 || u == 0) by {
        if u > 0 {
            vstd::arithmetic::div_mod::lemma_mod_multiples_basic(b as int, u as int);
            assert(u * b == (b as int) * (u as int));
        }
    }
    if u > 0 && v > 0 {
        assert(a >= 1 && b >= 1) by (nonlinear_arith)
            requires
                u == g * a,
                v == g * b,
                u > 0,
                v > 0,
                g > 0,
        ;
        assert(a * v >= v && u * b >= u) by (nonlinear_arith)
            requires
                a >= 1,
                b >= 1,
        ;
    }
}

/// `gcd(u, v)` is an integer combination `u * x + v * y` of `u` and `v`.
proof fn lemma_bezout(u: nat, v: nat) -> (r: (int, int))
    ensures
        spec_gcd(u, v) == u * r.0 + v * r.1,
    decreases v,
{
    if v == 0 {
        (1, 0)
    } else {
        let (s, t) = lemma_bezout(v, u % v);
        lemma_fundamental_div_mod(u as int, v as int);
        let q = (u / v) as int;
        assert(spec_gcd(u, v) == spec_gcd(v, u % v));
        assert(v * s + (u % v) * t == u * t + v * (s - q * t)) by (nonlinear_arith)
            requires
                u == v * q + (u % v),
        ;
        (t, s - q * t)
    }
}

/// The least common multiple of two positive numbers divides each of their
/// common multiples.
pub proof fn law_lcm_least(u: nat, v: nat, m: nat)
    requires
        u > 0,
        v > 0,
        m % u == 0,
        m % v == 0,
    ensures
        spec_lcm(u, v) > 0,
        m % spec_lcm(u, v) == 0,
{
    law_lcm(u, v);
    law_gcd(u, v, 1);
    let g = spec_gcd(u, v);
    let l = spec_lcm(u, v);
    let (x, y) = lemma_bezout(u, v);
    lemma_fundamental_div_mod(m as int, u as int);
    lemma_fundamental_div_mod(m as int, v as int);
    let a = (m / u) as int;
    let b = (m / v) as int;
    let z = b * x + a * y;
    assert(m * g == (g * l) * z) by (nonlinear_arith)
        requires
            g == u * x + v * y,
            m == u * a,
            m == v * b,
            g * l == u * v,
            z == b * x + a * y,
    ;
    assert(m == l * z) by (nonlinear_arith)
        requires
            m * g == (g * l) * z,
            g > 0,
    ;
    vstd::arithmetic::div_mod::lemma_mod_multiples_basic(z, l as int);
    assert(l * z == z * l) by (nonlinear_arith);
}

/// Two positive numbers that divide each other are equal.
proof fn lemma_mutual(x: nat, y: nat)
    requires
        x > 0,
        y > 0,
        x % y == 0,
        y % x == 0,
    ensures
        x == y,
{
    lemma_fundamental_div_mod(x as int, y as int);
    lemma_fundamental_div_mod(y as int, x as int);
    let a = x / y;
    let b = y / x;
    assert(x == y * a && y == x * b);
    assert(a >= 1 && b >= 1) by (nonlinear_arith)
        requires
            x == y * a,
            y == x * b,
            x > 0,
            y > 0,
    ;
    assert(x == x * (b * a)) by (nonlinear_arith)
        requires
            x == y * a,
            y == x * b,
    ;
    assert(b * a == 1) by (nonlinear_arith)
        requires
            x == x * (b * a),
            x > 0,
    ;
    assert(a == 1) by (nonlinear_arith)
        requires
            b * a == 1,
            a >= 1,
            b >= 1,
    ;
}

/// `d` divides `x` exactly when `x` is `d` times a whole number.
proof fn lemma_divides(d: nat, x: nat, k: nat)
    requires
        d > 0,
        x == d * k,
    ensures
        x % d == 0,
{
    vstd::arithmetic::div_mod::lemma_mod_multiples_basic(k as int, d as int);
    assert(d * k == k * d) by (nonlinear_arith);
}

/// A divisor of two numbers divides their difference and their sum.
proof fn lemma_divides_combo(d: nat, x: nat, y: nat)
    requires
        d > 0,
        x % d == 0,
        y % d == 0,
    ensures
        x >= y ==> (x - y) as nat % d == 0,
        (x + y) % d == 0,
{
    lemma_fundamental_div_mod(x as int, d as int);
    lemma_fundamental_div_mod(y as int, d as int);
    let a = x / d;
    let b = y / d;
    if x >= y {
        assert(a >= b) by (nonlinear_arith)
            requires
                x == d * a,
                y == d * b,
                x >= y,
                d > 0,
        ;
        assert((x - y) as nat == d * ((a - b) as nat)) by (nonlinear_arith)
            requires
                x == d * a,
                y == d * b,
                a >= b,
        ;
        lemma_divides(d, (x - y) as nat, (a - b) as nat);
    }
    assert(x + y == d * (a + b)) by (nonlinear_arith)
        requires
            x == d * a,
            y == d * b,
    ;
    lemma_divides(d, x + y, a + b);
}

/// `gcd(u, v) == gcd(v, u)`.
proof fn lemma_gcd_symmetric(u: nat, v: nat)
    requires
        u > 0 || v > 0,
    ensures
        spec_gcd(u, v) == spec_gcd(v, u),
{
    law_gcd(u, v, spec_gcd(v, u));
    law_gcd(v, u, spec_gcd(u, v));
    lemma_mutual(spec_gcd(u, v), spec_gcd(v, u));
}

/// Taking the smaller of two numbers from the larger keeps their greatest
/// common divisor.
proof fn lemma_gcd_sub(u: nat, v: nat)
    requires
        0 < u <= v,
    ensures
        spec_gcd(u, v) == spec_gcd(u, (v - u) as nat),
{
    let w = (v - u) as nat;
    law_gcd(u, v, 1);
    law_gcd(u, w, 1);
    let g1 = spec_gcd(u, v);
    let g2 = spec_gcd(u, w);
    lemma_divides_combo(g1, v, u);
    law_gcd(u, w, g1);
    lemma_divides_combo(g2, w, u);
    assert(w + u == v);
    law_gcd(u, v, g2);
    lemma_mutual(g1, g2);
}

/// An odd number shares no factor 2 with another: halving the other keeps
/// their greatest common divisor.
proof fn lemma_gcd_half(u: nat, v: nat)
    requires
        u % 2 == 1,
        v > 0,
    ensures
        spec_gcd(u, 2 * v) == spec_gcd(u, v),
{
    law_gcd(u, 2 * v, 1);
    law_gcd(u, v, 1);
    let g1 = spec_gcd(u, 2 * v);
    let g2 = spec_gcd(u, v);
    lemma_fundamental_div_mod(u as int, g1 as int);
    lemma_fundamental_div_mod((2 * v) as int, g1 as int);
    let q = u / g1;
    let k = (2 * v) / g1;
    assert(g1 % 2 == 1) by {
        vstd::arithmetic::div_mod::lemma_mul_mod_noop(g1 as int, q as int, 2);
        if g1 % 2 == 0 {
            assert((g1 % 2) * (q % 2) == 0);
        }
    }
    assert(k % 2 == 0) by {
        vstd::arithmetic::div_mod::lemma_mul_mod_noop(g1 as int, k as int, 2);
        lemma_divides(2, 2 * v, v);
        if k % 2 == 1 {
            assert((g1 % 2) * (k % 2) == 1);
        }
    }
    lemma_fundamental_div_mod(k as int, 2);
    let h = k / 2;
    assert(v == g1 * h) by (nonlinear_arith)
        requires
            2 * v == g1 * k,
            k == 2 * h + 0,
    ;
    lemma_divides(g1, v, h);
    law_gcd(u, v, g1);
    lemma_divides_combo(g2, v, v);
    assert(v + v == 2 * v);
    law_gcd(u, 2 * v, g2);
    lemma_mutual(g1, g2);
}

/// Taking any power of two out of the other number keeps the greatest
/// common divisor with an odd number.
proof fn lemma_gcd_halves(u: nat, v: nat, t: nat)
    requires
        u % 2 == 1,
        v > 0,
    ensures
        spec_gcd(u, v * pow2(t)) == spec_gcd(u, v),
    decreases t,
{
    if t > 0 {
        lemma_gcd_halves(u, v, (t - 1) as nat);
        vstd::arithmetic::power2::lemma_pow2_unfold(t);
        vstd::arithmetic::power2::lemma_pow2_pos((t - 1) as nat);
        let w = v * pow2((t - 1) as nat);
        assert(v * pow2(t) == 2 * w) by (nonlinear_arith)
            requires
                pow2(t) == 2 * pow2((t - 1) as nat),
                w == v * pow2((t - 1) as nat),
        ;
        assert(w > 0) by (nonlinear_arith)
            requires
                v > 0,
                pow2((t - 1) as nat) > 0,
                w == v * pow2((t - 1) as nat),
        ;
        lemma_gcd_half(u, w);
    } else {
        vstd::arithmetic::power2::lemma2_to64();
        assert(v * 1 == v);
    }
}

/// Scaling both numbers scales their greatest common divisor.
proof fn lemma_gcd_scale(a: nat, b: nat, k: nat)
    requires
        a > 0 || b > 0,
        k > 0,
    ensures
        spec_gcd(k * a, k * b) == k * spec_gcd(a, b),
{
    let g = spec_gcd(a, b);
    law_gcd(a, b, 1);
    assert(k * a > 0 || k * b > 0) by (nonlinear_arith)
        requires
            a > 0 || b > 0,
            k > 0,
    ;
    let big = spec_gcd(k * a, k * b);
    law_gcd(k * a, k * b, 1);
    lemma_fundamental_div_mod(a as int, g as int);
    lemma_fundamental_div_mod(b as int, g as int);
    let x = a / g;
    let y = b / g;
    assert(k * a == (k * g) * x && k * b == (k * g) * y) by (nonlinear_arith)
        requires
            a == g * x,
            b == g * y,
    ;
    assert(k * g > 0) by (nonlinear_arith)
        requires
            k > 0,
            g > 0,
    ;
    lemma_divides(k * g, k * a, x);
    lemma_divides(k * g, k * b, y);
    law_gcd(k * a, k * b, k * g);
    let (p, q) = lemma_bezout(a, b);
    lemma_fundamental_div_mod((k * a) as int, big as int);
    lemma_fundamental_div_mod((k * b) as int, big as int);
    let c = (k * a) / big;
    let d = (k * b) / big;
    let z = c * p + d * q;
    assert(k * g == big * z) by (nonlinear_arith)
        requires
            g == a * p + b * q,
            k * a == big * c,
            k * b == big * d,
            z == c * p + d * q,
    ;
    assert(z >= 0) by (nonlinear_arith)
        requires
            k * g == big * z,
            k * g > 0,
            big > 0,
    ;
    lemma_divides(big, k * g, z as nat);
    lemma_mutual(big, k * g);
}

/// Binary GCD: the common factors 2 are taken out first, then the smaller
/// odd number is taken repeatedly from the larger with the factors 2 of
/// the difference removed.  `gcd(0, v) == v` and `gcd(u, 0) == u`.
pub fn gcd(u: usize, v: usize) -> (r: usize)
    ensures
        r == spec_gcd(u as nat, v as nat),
{
    if u == 0 {
        assert(spec_gcd(0, v as nat) == v) by {
            if v > 0 {
                assert(spec_gcd(v as nat, 0) == v);
            }
        }
        return v;
    }
    if v == 0 {
        return u;
    }
    let ghost g = spec_gcd(u as nat, v as nat);
    let mut a = u;
    let mut b = v;
    let mut scale: usize = 1;
    while a % 2 == 0 && b % 2 == 0
        invariant
            a > 0,
            b > 0,
            scale > 0,
            a * scale == u,
            b * scale == v,
            g == scale * spec_gcd(a as nat, b as nat),
        decreases a,
    {
        let ghost (a0, b0) = (a, b);
        a = a / 2;
        b = b / 2;
        proof {
            lemma_gcd_scale(a as nat, b as nat, 2);
            assert(scale * (2 * spec_gcd(a as nat, b as nat)) == (scale * 2) * spec_gcd(a as nat, b as nat))
                by (nonlinear_arith);
            assert(a * (scale * 2) == a0 * scale && b * (scale * 2) == b0 * scale) by (nonlinear_arith)
                requires
                    a0 == 2 * a,
                    b0 == 2 * b,
            ;
            assert(scale * 2 <= u) by (nonlinear_arith)
                requires
                    a * (scale * 2) == u,
                    a > 0,
            ;
        }
        scale = scale * 2;
    }
    while a % 2 == 0
        invariant
            a > 0,
            b > 0,
            a % 2 == 0 ==> b % 2 == 1,
            a * scale <= u,
            g == scale * spec_gcd(a as nat, b as nat),
        decreases a,
    {
        let ghost a0 = a;
        a = a / 2;
        proof {
            lemma_gcd_symmetric(a0 as nat, b as nat);
            lemma_gcd_half(b as nat, a as nat);
            lemma_gcd_symmetric(a as nat, b as nat);
            assert(a * scale <= a0 * scale) by (nonlinear_arith)
                requires
                    a <= a0,
            ;
        }
    }
    loop
        invariant_except_break
            b > 0,
        invariant
            a > 0,
            a % 2 == 1,
            a * scale <= u,
            g == scale * spec_gcd(a as nat, b as nat),
        ensures
            b == 0,
        decreases a + b,
    {
        let ghost b_top = b;
        while b % 2 == 0
            invariant
                a > 0,
                a % 2 == 1,
                b > 0,
                b <= b_top,
                g == scale * spec_gcd(a as nat, b as nat),
            decreases b,
        {
            let ghost b0 = b;
            b = b / 2;
            proof {
                lemma_gcd_half(a as nat, b as nat);
            }
        }
        if a > b {
            proof {
                lemma_gcd_symmetric(a as nat, b as nat);
                assert(b * scale <= a * scale) by (nonlinear_arith)
                    requires
                        b <= a,
                ;
            }
            let t = a;
            a = b;
            b = t;
        }
        proof {
            lemma_gcd_sub(a as nat, b as nat);
        }
        b = b - a;
        if b == 0 {
            break;
        }
    }
    proof {
        assert(spec_gcd(a as nat, 0) == a);
        assert(a * scale == scale * a) by (nonlinear_arith);
    }
    a * scale
}

/// The least common multiple `(u * v) / gcd(u, v)`.
pub fn mcm(u: usize, v: usize) -> (r: usize)
    requires
        u > 0 || v > 0,
        u * v <= usize::MAX,
    ensures
        r == spec_lcm(u as nat, v as nat),
{
    let g = gcd(u, v);
    proof {
        law_gcd(u as nat, v as nat, 1);
    }
    (u * v) / g
}

/// One step of a running least common multiple, `(o / gcd(o, c)) * c`,
/// computed without an intermediate product larger than the result.
pub fn lcm_step(o: usize, c: usize) -> (r: usize)
    requires
        o >= 1,
        c >= 1,
        spec_lcm(o as nat, c as nat) <= usize::MAX,
    ensures
        r == spec_lcm(o as nat, c as nat),
        r >= o,
        r >= c,
{
    let g = gcd(o, c);
    proof {
        law_gcd(o as nat, c as nat, 1);
        law_lcm(o as nat, c as nat);
    }
    (o / g) * c
}

/// `u * v / gcd(u, v)²`: the least common multiple divided by the greatest
/// common divisor.
pub open spec fn spec_normalized_lcm(u: nat, v: nat) -> nat {
    u * v / (spec_gcd(u, v) * spec_gcd(u, v))
}

/// `u * v / gcd(u, v)²`.
pub fn normalized_lcm(u: usize, v: usize) -> (r: usize)
    requires
        u > 0 || v > 0,
        u * v <= usize::MAX,
        spec_gcd(u as nat, v as nat) * spec_gcd(u as nat, v as nat) <= usize::MAX,
    ensures
        r == spec_normalized_lcm(u as nat, v as nat),
{
    let g = gcd(u, v);
    proof {
        law_gcd(u as nat, v as nat, 1);
    }
    assert(g * g > 0) by (nonlinear_arith)
        requires
            g > 0,
    ;
    (u * v) / (g * g)
}

} // verus!
