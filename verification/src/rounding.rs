//! Binary floating-point rounding, carried out on integers.
//!
//! A positive quotient `n / d` is rounded to a number of significant bits, to
//! the nearest such number and to the even one of two equally near. The exponent
//! is not bounded here: every caller stays far from the ends of its format.
use vstd::arithmetic::div_mod::{
    lemma_fundamental_div_mod, lemma_fundamental_div_mod_converse, lemma_mod_bound,
};
use vstd::arithmetic::power2::{
    lemma2_to64, lemma2_to64_rest, lemma_pow2_adds, lemma_pow2_pos, lemma_pow2_strictly_increases,
    lemma_pow2_unfold, pow2,
};
use vstd::prelude::*;

verus! {

/// `mant` times two to the power `exp`.
pub struct Binary {
    pub mant: nat,
    pub exp: int,
}

impl Binary {
    /// The numerator of the value, as a fraction over [`Binary::den`].
    pub open spec fn num(self) -> nat {
        raised(self.mant, self.exp)
    }

    pub open spec fn den(self) -> nat {
        raised(1, -self.exp)
    }
}

/// `n` times two to the power `e`, where `e` is positive.
pub open spec fn raised(n: nat, e: int) -> nat {
    if e > 0 {
        n * pow2(e as nat)
    } else {
        n
    }
}

/// The integer nearest `a / b`, the even one where two are equally near.
pub open spec fn nearest(a: nat, b: nat) -> nat {
    let q = a / b;
    let r = a % b;
    if 2 * r > b || (2 * r == b && q % 2 == 1) {
        q + 1
    } else {
        q
    }
}

/// `n / d` over two to the power `e` has exactly `p` bits before its point.
pub open spec fn in_binade(p: nat, n: nat, d: nat, e: int) -> bool {
    has_bits(p, raised(n, -e), raised(d, e))
}

/// `a / b` has exactly `p` bits before its point.
pub open spec fn has_bits(p: nat, a: nat, b: nat) -> bool {
    pow2((p - 1) as nat) * b <= a < pow2(p) * b
}

/// `n / d`, rounded to `p` significant bits.
pub open spec fn round(p: nat, n: nat, d: nat) -> Binary {
    if n == 0 {
        Binary { mant: 0, exp: 0 }
    } else {
        let e = choose|e: int| in_binade(p, n, d, e);
        Binary { mant: nearest(raised(n, -e), raised(d, e)), exp: e }
    }
}

/// The quotient of two numbers, rounded to `p` bits.
pub open spec fn quotient(p: nat, a: Binary, b: Binary) -> Binary {
    round(p, a.num() * b.den(), a.den() * b.num())
}

proof fn lemma_raised_pos(n: nat, e: int)
    requires
        n > 0,
    ensures
        raised(n, e) > 0,
{
    if e > 0 {
        lemma_pow2_pos(e as nat);
        assert(n * pow2(e as nat) > 0) by (nonlinear_arith)
            requires
                n > 0,
                pow2(e as nat) > 0;
    }
}

/// A common factor does not change the nearest integer.
proof fn lemma_nearest_of_multiples(a: nat, b: nat, c: nat)
    requires
        b > 0,
        c > 0,
    ensures
        c * b > 0,
        nearest(c * a, c * b) == nearest(a, b),
{
    let q = a / b;
    let r = a % b;
    lemma_fundamental_div_mod(a as int, b as int);
    lemma_mod_bound(a as int, b as int);
    assert(c * b > 0 && c * a == q * (c * b) + c * r && 0 <= c * r < c * b) by (nonlinear_arith)
        requires
            c > 0,
            b > 0,
            a == b * q + r,
            0 <= r < b;
    lemma_fundamental_div_mod_converse((c * a) as int, (c * b) as int, q as int, (c * r) as int);
    assert(2 * (c * r) > c * b <==> 2 * r > b) by (nonlinear_arith)
        requires
            c > 0;
    assert(2 * (c * r) == c * b <==> 2 * r == b) by (nonlinear_arith)
        requires
            c > 0;
}

/// Equal quotients have the same nearest integer and the same number of bits.
proof fn lemma_equal_quotients(p: nat, a: nat, b: nat, c: nat, d: nat)
    requires
        b > 0,
        d > 0,
        a * d == c * b,
    ensures
        nearest(a, b) == nearest(c, d),
        has_bits(p, a, b) == has_bits(p, c, d),
{
    lemma_nearest_of_multiples(a, b, d);
    lemma_nearest_of_multiples(c, d, b);
    assert(d * a == b * c && d * b == b * d) by (nonlinear_arith)
        requires
            a * d == c * b;
    let lo = pow2((p - 1) as nat);
    let hi = pow2(p);
    assert((lo * b <= a) == (lo * d <= c)) by (nonlinear_arith)
        requires
            b > 0,
            d > 0,
            a * d == c * b;
    assert((a < hi * b) == (c < hi * d)) by (nonlinear_arith)
        requires
            b > 0,
            d > 0,
            a * d == c * b;
}

/// A quotient lies in one binade.
proof fn lemma_one_binade(p: nat, n: nat, d: nat, e: int, f: int)
    requires
        p > 0,
        d > 0,
        in_binade(p, n, d, e),
        in_binade(p, n, d, f),
    ensures
        e == f,
{
    if e < f {
        lemma_binades_rise(p, n, d, e, f);
    } else if f < e {
        lemma_binades_rise(p, n, d, f, e);
    }
}

/// From one binade to a higher one the quotient falls by a power of two.
proof fn lemma_binade_steps(n: nat, d: nat, e: int, f: int)
    requires
        e <= f,
    ensures
        raised(n, -e) * raised(d, f) == pow2((f - e) as nat) * (raised(n, -f) * raised(d, e)),
{
    let g = pow2((f - e) as nat);
    lemma2_to64();
    if e == f {
        assert(raised(n, -e) * raised(d, f) == 1 * (raised(n, -f) * raised(d, e)));
        return;
    }
    if e >= 0 {
        lemma_pow2_adds(e as nat, (f - e) as nat);
        if e == 0 {
            assert(n * (d * g) == g * (n * d)) by (nonlinear_arith);
        } else {
            let h = pow2(e as nat);
            assert(n * (d * (h * g)) == g * (n * (d * h))) by (nonlinear_arith);
        }
    } else if f <= 0 {
        lemma_pow2_adds((-f) as nat, (f - e) as nat);
        let h = pow2((-f) as nat);
        if f == 0 {
            assert((n * g) * d == g * (n * d)) by (nonlinear_arith);
        } else {
            assert((n * (h * g)) * d == g * ((n * h) * d)) by (nonlinear_arith);
        }
    } else {
        lemma_pow2_adds((-e) as nat, f as nat);
        let (h, k) = (pow2((-e) as nat), pow2(f as nat));
        assert((n * h) * (d * k) == (h * k) * (n * d)) by (nonlinear_arith);
    }
}

proof fn lemma_binades_rise(p: nat, n: nat, d: nat, e: int, f: int)
    requires
        p > 0,
        d > 0,
        e < f,
        in_binade(p, n, d, e),
    ensures
        !in_binade(p, n, d, f),
{
    let lo = pow2((p - 1) as nat);
    lemma_pow2_unfold(p);
    let (a, b) = (raised(n, -e), raised(d, e));
    let (x, y) = (raised(n, -f), raised(d, f));
    // a / b is 2^(f - e) times x / y, and so at least twice it.
    let g = pow2((f - e) as nat);
    lemma_pow2_pos((f - e - 1) as nat);
    lemma_pow2_unfold((f - e) as nat);
    lemma_raised_pos(d, e);
    lemma_raised_pos(d, f);
    lemma_binade_steps(n, d, e, f);
    if lo * y <= x {
        assert(false) by (nonlinear_arith)
            requires
                a * y == g * (x * b),
                g >= 2,
                lo * y <= x,
                a < (2 * lo) * b,
                b > 0,
                y > 0,
                lo >= 0,
                x >= 0,
        {
            // a * y < 2 * lo * b * y <= 2 * x * b <= g * x * b.
            assert(a * y < ((2 * lo) * b) * y);
            assert(((2 * lo) * b) * y == 2 * (b * (lo * y)));
            assert(b * (lo * y) <= b * x);
            assert(x * b == b * x);
            assert(x * b >= 0);
            assert(g * (x * b) >= 2 * (x * b));
        }
    }
}

/// Every quotient lies in a binade.
pub proof fn lemma_some_binade(p: nat, n: nat, d: nat)
    requires
        p > 0,
        n > 0,
        d > 0,
    ensures
        exists|e: int| in_binade(p, n, d, e),
{
    let lo = pow2((p - 1) as nat);
    lemma_pow2_unfold(p);
    lemma2_to64();
    if lo * d <= n {
        lemma_binade_above(p, n, d, 0);
    } else {
        lemma_binade_below(p, n, d, 0);
    }
}

proof fn lemma_binade_above(p: nat, n: nat, d: nat, e: nat)
    requires
        p > 0,
        d > 0,
        pow2((p - 1) as nat) * raised(d, e as int) <= n,
    ensures
        exists|e: int| in_binade(p, n, d, e),
    decreases n - raised(d, e as int),
{
    let lo = pow2((p - 1) as nat);
    lemma_pow2_unfold(p);
    lemma_pow2_pos((p - 1) as nat);
    let b = raised(d, e as int);
    lemma_raised_pos(d, e as int);
    assert(raised(n, -(e as int)) == n);
    if n < pow2(p) * b {
        assert(in_binade(p, n, d, e as int));
    } else {
        let c = raised(d, (e + 1) as int);
        assert(c == 2 * b) by {
            lemma_pow2_unfold((e + 1) as nat);
            lemma2_to64();
            let k = pow2(e);
            assert(d * (2 * k) == 2 * (d * k)) by (nonlinear_arith);
            assert(d * 1 == d);
        }
        assert(lo * c <= n) by (nonlinear_arith)
            requires
                c == 2 * b,
                (2 * lo) * b <= n;
        assert(c <= n) by (nonlinear_arith)
            requires
                lo * c <= n,
                lo >= 1;
        lemma_binade_above(p, n, d, e + 1);
    }
}

proof fn lemma_binade_below(p: nat, n: nat, d: nat, k: nat)
    requires
        p > 0,
        n > 0,
        d > 0,
        raised(n, k as int) < pow2((p - 1) as nat) * d,
    ensures
        exists|e: int| in_binade(p, n, d, e),
    decreases pow2((p - 1) as nat) * d - raised(n, k as int),
{
    let lo = pow2((p - 1) as nat);
    lemma_pow2_unfold(p);
    let a = raised(n, k as int);
    let c = raised(n, (k + 1) as int);
    lemma_raised_pos(n, k as int);
    assert(c == 2 * a) by {
        lemma_pow2_unfold((k + 1) as nat);
        lemma2_to64();
        let g = pow2(k);
        assert(n * (2 * g) == 2 * (n * g)) by (nonlinear_arith);
        assert(n * 1 == n);
    }
    if lo * d <= c {
        assert((2 * lo) * d == 2 * (lo * d)) by (nonlinear_arith);
        assert(in_binade(p, n, d, -(k + 1)));
    } else {
        lemma_binade_below(p, n, d, k + 1);
    }
}

/// What rounding leaves: a full count of bits, in the quotient's binade.
pub proof fn lemma_rounded(p: nat, n: nat, d: nat)
    requires
        p > 0,
        n > 0,
        d > 0,
    ensures
        in_binade(p, n, d, round(p, n, d).exp),
        pow2((p - 1) as nat) <= round(p, n, d).mant <= pow2(p),
{
    lemma_some_binade(p, n, d);
    let e = round(p, n, d).exp;
    let (a, b) = (raised(n, -e), raised(d, e));
    lemma_raised_pos(d, e);
    lemma_fundamental_div_mod(a as int, b as int);
    lemma_mod_bound(a as int, b as int);
    let (q, r) = (a / b, a % b);
    let (lo, hi) = (pow2((p - 1) as nat), pow2(p));
    assert(lo <= q < hi) by (nonlinear_arith)
        requires
            a == b * q + r,
            0 <= r < b,
            lo * b <= a < hi * b;
}

/// A quotient on one side of a power of two has its binade on that side.
pub proof fn lemma_binade_of(p: nat, n: nat, d: nat, e: int, j: int)
    requires
        p > 0,
        d > 0,
        in_binade(p, n, d, e),
    ensures
        raised(n, -j) >= raised(d, j) ==> e >= j - p + 1,
        raised(n, -j) < raised(d, j) ==> e <= j - p,
{
    let (a, b) = (raised(n, -e), raised(d, e));
    let (x, y) = (raised(n, -j), raised(d, j));
    let (lo, hi) = (pow2((p - 1) as nat), pow2(p));
    lemma_raised_pos(d, e);
    lemma_raised_pos(d, j);
    lemma_pow2_pos((p - 1) as nat);
    if x >= y && e <= j - p {
        lemma_binade_steps(n, d, e, j);
        let g = pow2((j - e) as nat);
        if e < j - p {
            lemma_pow2_strictly_increases(p, (j - e) as nat);
        }
        assert(false) by (nonlinear_arith)
            requires
                a * y == g * (x * b),
                g >= hi,
                x >= y,
                a < hi * b,
                b > 0,
                y > 0,
                hi >= 0,
        {
            assert(x * b >= y * b);
            assert(g * (x * b) >= hi * (y * b)) by (nonlinear_arith)
                requires
                    g >= hi,
                    x * b >= y * b,
                    y * b >= 0,
                    hi >= 0;
            assert(a * y < (hi * b) * y);
            assert((hi * b) * y == hi * (y * b));
        }
    }
    if x < y && e >= j - p + 1 {
        if e <= j {
            lemma_binade_steps(n, d, e, j);
            let g = pow2((j - e) as nat);
            if e > j - p + 1 {
                lemma_pow2_strictly_increases((j - e) as nat, (p - 1) as nat);
            }
            lemma_pow2_pos((j - e) as nat);
            let z = y * b;
            assert(x * b < z && z >= 0) by (nonlinear_arith)
                requires
                    x < y,
                    b > 0,
                    y > 0,
                    z == y * b;
            assert(g * (x * b) < g * z <= lo * z) by (nonlinear_arith)
                requires
                    0 < g <= lo,
                    x * b < z,
                    z >= 0;
            assert(lo * z <= a * y) by (nonlinear_arith)
                requires
                    z == y * b,
                    lo * b <= a,
                    y > 0;
        } else {
            lemma_binade_steps(n, d, j, e);
            let g = pow2((e - j) as nat);
            lemma_pow2_pos((e - j) as nat);
            assert(false) by (nonlinear_arith)
                requires
                    x * b == g * (a * y),
                    g >= 1,
                    x < y,
                    lo * b <= a,
                    lo >= 1,
                    b > 0,
                    y > 0,
            {
                assert(a >= b);
                assert(a * y >= b * y);
                assert(g * (a * y) >= a * y);
                assert(x * b < y * b);
                assert(y * b == b * y);
            }
        }
    }
}

/// What rounds `n / d` rounds every quotient that is a power of two away, with
/// the exponent moved: here `n / d` is `a / b` over two to the power `s`.
pub proof fn lemma_round_is(p: nat, n: nat, d: nat, a: nat, b: nat, s: int, t: nat, m: nat)
    requires
        p > 0,
        n > 0,
        d > 0,
        b > 0,
        n * b * raised(1, s) == a * d * raised(1, -s),
        has_bits(p, a, b * pow2(t)),
        m == nearest(a, b * pow2(t)),
    ensures
        round(p, n, d) == (Binary { mant: m, exp: t - s }),
{
    let e = t - s;
    let (x, y) = (raised(n, -e), raised(d, e));
    let g = pow2(t);
    lemma_pow2_pos(t);
    lemma_raised_pos(d, e);
    assert(b * g > 0) by (nonlinear_arith)
        requires
            b > 0,
            g > 0;
    assert(x * (b * g) == a * y) by {
        if s > 0 {
            let k = pow2(s as nat);
            assert(n * b * (1 * k) == a * d * 1);
            assert(n * b * k == a * d);
            if e >= 0 {
                lemma_pow2_adds(s as nat, e as nat);
                let h = pow2(e as nat);
                if e == 0 {
                    assert(n * (b * k) == a * d) by (nonlinear_arith)
                        requires
                            n * b * k == a * d;
                } else {
                    assert(n * (b * (k * h)) == a * (d * h)) by (nonlinear_arith)
                        requires
                            n * b * k == a * d;
                }
            } else {
                lemma_pow2_adds((-e) as nat, t);
                let h = pow2((-e) as nat);
                assert((n * h) * (b * g) == a * d) by (nonlinear_arith)
                    requires
                        n * b * k == a * d,
                        k == h * g;
            }
        } else {
            let k = if s == 0 { 1 } else { pow2((-s) as nat) };
            if s < 0 {
                assert(raised(1, -s) == k);
            }
            assert(n * b * 1 == a * d * k);
            if s == 0 {
                if t == 0 {
                    vstd::arithmetic::power2::lemma_pow2(0);
                    lemma2_to64();
                    assert(n * (b * g) == a * d) by (nonlinear_arith)
                        requires
                            n * b * 1 == a * d * 1,
                            g == 1;
                } else {
                    assert(n * (b * g) == a * (d * g)) by (nonlinear_arith)
                        requires
                            n * b * 1 == a * d * 1;
                }
            } else {
                lemma_pow2_adds((-s) as nat, t);
                assert(n * (b * g) == a * (d * (k * g))) by (nonlinear_arith)
                    requires
                        n * b * 1 == a * d * k;
            }
        }
    }
    lemma_equal_quotients(p, x, y, a, b * g);
    assert(in_binade(p, n, d, e));
    let f = choose|f: int| in_binade(p, n, d, f);
    lemma_one_binade(p, n, d, e, f);
}

/// `v` over two to the power `t`, where `rest` says that something below the
/// last bit of `v` was cut off: the nearest integer, the even one of two.
pub open spec fn settled(v: nat, t: nat, rest: bool) -> nat {
    let q = v / pow2(t);
    let r = v % pow2(t);
    let half = pow2((t - 1) as nat);
    if r > half || (r == half && (rest || q % 2 == 1)) {
        q + 1
    } else {
        q
    }
}

/// To round `a / b` it is enough to know the quotient's whole part, and whether
/// anything was left over.
proof fn lemma_settled(p: nat, a: nat, b: nat, t: nat)
    requires
        b > 0,
        t > 0,
    ensures
        nearest(a, b * pow2(t)) == settled(a / b, t, a % b != 0),
        has_bits(p, a, b * pow2(t)) == (pow2((p - 1) as nat) <= (a / b) / pow2(t) < pow2(p)),
{
    let (v, rest) = (a / b, a % b);
    let g = pow2(t);
    let half = pow2((t - 1) as nat);
    lemma_pow2_unfold(t);
    lemma_pow2_pos((t - 1) as nat);
    let (q, r) = (v / g, v % g);
    lemma_fundamental_div_mod(a as int, b as int);
    lemma_mod_bound(a as int, b as int);
    lemma_fundamental_div_mod(v as int, g as int);
    lemma_mod_bound(v as int, g as int);
    let whole = b * g;
    let left = r * b + rest;
    assert(whole > 0 && a == whole * q + left && 0 <= left < whole) by (nonlinear_arith)
        requires
            b > 0,
            g > 0,
            whole == b * g,
            left == r * b + rest,
            a == b * v + rest,
            0 <= rest < b,
            v == g * q + r,
            0 <= r < g,
    {
        assert(b * (g * q + r) + rest == (b * g) * q + (r * b + rest));
        assert(r * b <= (g - 1) * b);
    }
    lemma_fundamental_div_mod_converse(a as int, whole as int, q as int, left as int);
    assert(2 * left > whole <==> (r > half || (r == half && rest != 0))) by (nonlinear_arith)
        requires
            b > 0,
            whole == b * g,
            g == 2 * half,
            left == r * b + rest,
            0 <= rest < b,
            0 <= r,
    {
        if r > half {
            assert(r * b >= (half + 1) * b);
        } else if r == half {
        } else {
            assert(r * b <= (half - 1) * b);
        }
    }
    assert(2 * left == whole <==> (r == half && rest == 0)) by (nonlinear_arith)
        requires
            b > 0,
            whole == b * g,
            g == 2 * half,
            left == r * b + rest,
            0 <= rest < b,
            0 <= r,
    {
        if r > half {
            assert(r * b >= (half + 1) * b);
        } else if r == half {
        } else {
            assert(r * b <= (half - 1) * b);
        }
    }
    let (lo, hi) = (pow2((p - 1) as nat), pow2(p));
    assert((lo * whole <= a) == (lo <= q)) by (nonlinear_arith)
        requires
            a == whole * q + left,
            0 <= left < whole,
    {
        if lo <= q {
            assert(lo * whole <= q * whole);
        } else {
            assert((q + 1) * whole <= lo * whole);
        }
    }
    assert((a < hi * whole) == (q < hi)) by (nonlinear_arith)
        requires
            a == whole * q + left,
            0 <= left < whole,
    {
        if q < hi {
            assert((q + 1) * whole <= hi * whole);
        } else {
            assert(hi * whole <= q * whole);
        }
    }
}

/// Cuts `v` down to the bits that `limit` has room for. Returns what is left,
/// rounded, and how many bits went.
fn settle(v: u128, rest: bool, limit: u128, Ghost(p): Ghost<nat>) -> (r: (u64, u32))
    requires
        0 < p <= 53,
        limit == pow2(p),
        limit <= v,
    ensures
        0 < r.1 < 128,
        pow2(r.1 as nat) <= v,
        r.0 == settled(v as nat, r.1 as nat, rest),
        pow2((p - 1) as nat) <= v as nat / pow2(r.1 as nat) < pow2(p),
        pow2((p - 1) as nat) <= r.0 <= pow2(p),
{
    proof {
        lemma2_to64();
        lemma_pow2_unfold(p);
        lemma_pow2_pos((p - 1) as nat);
        lemma2_to64_rest();
        if p < 53 {
            lemma_pow2_strictly_increases(p, 53);
        }
    }
    let mut q: u128 = v;
    let mut unit: u128 = 1;
    let mut t: u32 = 0;
    while q >= limit
        invariant
            0 < p <= 53,
            limit == pow2(p),
            limit == 2 * pow2((p - 1) as nat),
            0 < pow2((p - 1) as nat),
            t <= 127,
            unit == pow2(t as nat),
            q == v / unit,
            1 <= unit <= v,
            q >= pow2((p - 1) as nat),
            t == 0 ==> q == v,
        decreases q,
    {
        proof {
            lemma_pow2_unfold((t + 1) as nat);
            lemma_fundamental_div_mod(v as int, unit as int);
            lemma_mod_bound(v as int, unit as int);
            assert(unit * 2 <= v) by (nonlinear_arith)
                requires
                    v >= unit * q,
                    q >= 2,
                    unit >= 1;
            vstd::arithmetic::div_mod::lemma_div_denominator(v as int, unit as int, 2);
            if t == 127 {
                lemma2_to64();
                lemma_pow2_adds(64, 64);
            }
        }
        q = q / 2;
        unit = unit * 2;
        t = t + 1;
    }
    proof {
        lemma_fundamental_div_mod(v as int, unit as int);
        lemma_mod_bound(v as int, unit as int);
        lemma_pow2_unfold(t as nat);
        assert(q * unit <= v) by (nonlinear_arith)
            requires
                v == unit * q + v as int % unit as int,
                v as int % unit as int >= 0;
        if t == 128 {
            lemma_pow2_adds(64, 64);
        }
    }
    let r: u128 = v - q * unit;
    let half: u128 = unit / 2;
    assert(r == v % unit) by (nonlinear_arith)
        requires
            v == unit * q + v as int % unit as int,
            r == v - q * unit;
    let up = r > half || (r == half && (rest || q % 2 == 1));
    (if up { (q + 1) as u64 } else { q as u64 }, t)
}

/// What `n / d` rounds to in `p` bits, from the whole part `v` of that quotient
/// times two to the power `s`, and whether there is a `rest`.
pub(crate) fn round_parts(
    v: u128,
    rest: bool,
    s: u32,
    limit: u128,
    Ghost(p): Ghost<nat>,
    Ghost(n): Ghost<nat>,
    Ghost(d): Ghost<nat>,
) -> (r: (u64, i32))
    requires
        0 < p <= 53,
        limit == pow2(p),
        limit <= v,
        d > 0,
        s <= 200,
        v == n * pow2(s as nat) / d,
        rest == (n * pow2(s as nat) % d != 0),
    ensures
        round(p, n, d) == (Binary { mant: r.0 as nat, exp: r.1 as int }),
        pow2((p - 1) as nat) <= r.0 <= pow2(p),
        -s < r.1 < 128 - s,
{
    let (mant, t) = settle(v, rest, limit, Ghost(p));
    proof {
        let a = n * pow2(s as nat);
        lemma_settled(p, a, d, t as nat);
        if n == 0 {
            assert(a == 0) by (nonlinear_arith)
                requires
                    n == 0,
                    a == n * pow2(s as nat);
            vstd::arithmetic::div_mod::lemma_div_of0(d as int);
            lemma_pow2_pos(p);
        }
        let k = pow2(s as nat);
        lemma2_to64();
        assert(raised(1, s as int) == k) by {
            assert(1 * k == k);
        }
        assert(n * d * k == (n * k) * d * 1) by (nonlinear_arith);
        lemma_round_is(p, n, d, a, d, s as int, t as nat, mant as nat);
    }
    (mant, t as i32 - s as i32)
}

/// A positive number of a double-precision format: its significant bits and its
/// exponent.
pub struct Float {
    pub mant: u64,
    pub exp: i32,
}

impl View for Float {
    type V = Binary;

    open spec fn view(&self) -> Binary {
        Binary { mant: self.mant as nat, exp: self.exp as int }
    }
}

/// The bits that double precision keeps.
pub const LIMIT: u64 = 0x20_0000_0000_0000;

impl Float {
    pub open spec fn wf(&self) -> bool {
        &&& 0x10_0000_0000_0000 <= self.mant <= LIMIT
        &&& -1000 <= self.exp <= 1000
    }

    /// A whole number, as near as double precision has it.
    pub fn whole(n: u64) -> (r: Float)
        requires
            n > 0,
        ensures
            r.wf(),
            r@ == round(53, n as nat, 1),
            -63 <= r.exp <= 64,
            forall|k: nat| #![trigger pow2(k)] k <= 64 && n < pow2(k) ==> r.exp <= k - 53,
            forall|k: nat| #![trigger pow2(k)] k <= 64 && n >= pow2(k) ==> r.exp >= k - 52,
    {
        proof {
            lemma2_to64_rest();
            lemma_pow2_adds(64, 63);
        }
        let v: u128 = n as u128 * 0x8000_0000_0000_0000;
        let (mant, t) = settle(v, false, LIMIT as u128, Ghost(53));
        let r = Float { mant, exp: t as i32 - 63 };
        proof {
            lemma_settled(53, v as nat, 1, t as nat);
            assert(v as nat / 1 == v as nat);
            assert(1 * pow2(t as nat) == pow2(t as nat));
            assert(raised(1, 63) == pow2(63)) by {
                assert(1 * pow2(63) == pow2(63));
            }
            assert(n * 1 * raised(1, 63) == v * 1 * raised(1, -63)) by (nonlinear_arith)
                requires
                    v == n * 0x8000_0000_0000_0000,
                    raised(1, 63) == 0x8000_0000_0000_0000,
                    raised(1, -63) == 1;
            lemma_round_is(53, n as nat, 1, v as nat, 1, 63, t as nat, mant as nat);
            lemma_fundamental_div_mod(v as int, pow2(t as nat) as int);
            lemma_mod_bound(v as int, pow2(t as nat) as int);
            let (q, g) = (v as nat / pow2(t as nat), pow2(t as nat));
            assert(g * q <= v < g * (q + 1)) by (nonlinear_arith)
                requires
                    v == g * q + v as int % g as int,
                    0 <= v as int % (g as int) < g;
            assert forall|k: nat| #![trigger pow2(k)] k <= 64 && n < pow2(k) implies r.exp <= k
                - 53 by {
                if t > k + 10 {
                    lemma_pow2_adds(k, 63);
                    lemma_pow2_adds(t as nat, 52);
                    if t as nat + 52 > k + 63 {
                        lemma_pow2_strictly_increases((k + 63) as nat, (t + 52) as nat);
                    }
                    assert(v < pow2(k) * pow2(63)) by (nonlinear_arith)
                        requires
                            v == n * pow2(63),
                            n < pow2(k),
                            pow2(63) > 0;
                    assert(g * pow2(52) <= g * q) by (nonlinear_arith)
                        requires
                            pow2(52) <= q;
                    assert(false);
                }
            }
            assert forall|k: nat| #![trigger pow2(k)] k <= 64 && n >= pow2(k) implies r.exp >= k
                - 52 by {
                if t < k + 11 {
                    lemma_pow2_adds(k, 63);
                    lemma_pow2_adds(t as nat, 53);
                    if t as nat + 53 < k + 63 {
                        lemma_pow2_strictly_increases((t + 53) as nat, (k + 63) as nat);
                    }
                    assert(v >= pow2(k) * pow2(63)) by (nonlinear_arith)
                        requires
                            v == n * pow2(63),
                            n >= pow2(k),
                            pow2(63) > 0;
                    assert(g * (q + 1) <= g * pow2(53)) by (nonlinear_arith)
                        requires
                            q + 1 <= pow2(53);
                    assert(false);
                }
            }
        }
        r
    }

    /// The number that `n / d` rounds to, from the whole part `v` of that quotient
    /// times two to the power `s`, and whether there is a `rest`.
    pub(crate) fn from_parts(
        v: u128,
        rest: bool,
        s: u32,
        Ghost(n): Ghost<nat>,
        Ghost(d): Ghost<nat>,
    ) -> (r: Float)
        requires
            d > 0,
            s <= 200,
            LIMIT <= v,
            v == n * pow2(s as nat) / d,
            rest == (n * pow2(s as nat) % d != 0),
        ensures
            r.wf(),
            r@ == round(53, n, d),
            -s < r.exp < 128 - s,
    {
        proof {
            lemma2_to64_rest();
        }
        let (mant, exp) = round_parts(v, rest, s, LIMIT as u128, Ghost(53), Ghost(n), Ghost(d));
        Float { mant, exp }
    }

    /// The number times `m`, without its fraction.
    pub fn times(&self, m: u64) -> (r: u128)
        requires
            self.wf(),
            self.exp <= 20,
            m <= 0x100_0000_0000,
        ensures
            r == self@.num() * m as nat / self@.den(),
    {
        assert(self.mant * m <= 0x20_0000_0000_0000 * 0x100_0000_0000) by (nonlinear_arith)
            requires
                self.mant <= 0x20_0000_0000_0000,
                m <= 0x100_0000_0000;
        let v: u128 = self.mant as u128 * m as u128;
        proof {
            lemma2_to64();
            lemma2_to64_rest();
        }
        if self.exp >= 0 {
            let unit: u128 = two_to(self.exp as u32);
            proof {
                if self.exp < 20 {
                    lemma_pow2_strictly_increases(self.exp as nat, 20);
                }
                assert(v * unit <= 0x20_0000_0000_0000 * 0x100_0000_0000 * 0x10_0000)
                    by (nonlinear_arith)
                    requires
                        v <= 0x20_0000_0000_0000 * 0x100_0000_0000,
                        unit <= 0x10_0000;
                let k = self.mant as nat;
                assert((k * unit) * m == v * unit) by (nonlinear_arith)
                    requires
                        v == k * m;
                assert(k * unit == self@.num()) by {
                    if self.exp == 0 {
                        assert(k * 1 == k);
                    }
                }
                let x = self@.num() * m as nat;
                assert(x / 1 == x);
            }
            v * unit
        } else if self.exp < -120 {
            proof {
                let t = (-self.exp) as nat;
                lemma_pow2_strictly_increases(120, t);
                lemma_pow2_adds(60, 60);
                assert(self@.den() == pow2(t)) by {
                    assert(1 * pow2(t) == pow2(t));
                }
                vstd::arithmetic::div_mod::lemma_basic_div(v as int, pow2(t) as int);
            }
            0
        } else {
            let t: u32 = (-self.exp) as u32;
            proof {
                lemma_pow2_pos(t as nat);
                assert(self@.den() == pow2(t as nat)) by {
                    assert(1 * pow2(t as nat) == pow2(t as nat));
                }
            }
            v / two_to(t)
        }
    }

    /// The quotient of two numbers, as near as double precision has it.
    pub fn over(&self, b: &Float) -> (r: Float)
        requires
            self.wf(),
            b.wf(),
            -900 <= self.exp - b.exp <= 900,
        ensures
            r.wf(),
            r@ == quotient(53, self@, b@),
            self.exp - b.exp - 53 <= r.exp <= self.exp - b.exp - 51,
    {
        proof {
            lemma2_to64();
            lemma2_to64_rest();
        }
        let a: u128 = self.mant as u128 * 0x8000_0000_0000_0000;
        let d: u128 = b.mant as u128;
        let v: u128 = a / d;
        let rest = a % d != 0;
        proof {
            lemma_fundamental_div_mod(a as int, d as int);
            lemma_mod_bound(a as int, d as int);
            assert(0x4000_0000_0000_0000 <= v <= 0x1_0000_0000_0000_0000) by (nonlinear_arith)
                requires
                    a == d * v + a as int % d as int,
                    0 <= a as int % (d as int) < d,
                    0x10_0000_0000_0000 <= d <= 0x20_0000_0000_0000,
                    a >= 0x10_0000_0000_0000 * 0x8000_0000_0000_0000,
                    a <= 0x20_0000_0000_0000 * 0x8000_0000_0000_0000;
        }
        let (mant, t) = settle(v, rest, LIMIT as u128, Ghost(53));
        proof {
            lemma_settle_bounds(v as nat, t as nat);
            lemma_settled(53, a as nat, d as nat, t as nat);
            let s = 63 - (self.exp - b.exp);
            let (n, e) = (self@.num() * b@.den(), self@.den() * b@.num());
            lemma_quotient_scale(self@, b@);
            lemma_raised_pos(self.mant as nat, self.exp as int);
            lemma_raised_pos(1, -self.exp as int);
            lemma_raised_pos(b.mant as nat, b.exp as int);
            lemma_raised_pos(1, -b.exp as int);
            assert(n > 0) by (nonlinear_arith)
                requires
                    n == self@.num() * b@.den(),
                    self@.num() > 0,
                    b@.den() > 0;
            assert(e > 0) by (nonlinear_arith)
                requires
                    e == self@.den() * b@.num(),
                    self@.den() > 0,
                    b@.num() > 0;
            lemma_round_is(53, n, e, a as nat, d as nat, s as int, t as nat, mant as nat);
        }
        Float { mant, exp: t as i32 - 63 + (self.exp - b.exp) }
    }

    /// A hundred times the number, as near as double precision has it.
    pub fn hundredfold(&self) -> (r: Float)
        requires
            self.wf(),
            -900 <= self.exp <= 900,
        ensures
            r.wf(),
            r@ == round(53, self@.num() * 100, self@.den()),
            self.exp <= r.exp <= self.exp + 8,
    {
        proof {
            lemma2_to64();
            lemma2_to64_rest();
        }
        let v: u128 = self.mant as u128 * 100;
        let (mant, t) = settle(v, false, LIMIT as u128, Ghost(53));
        proof {
            let b = self@;
            lemma_settled(53, v as nat, 1, t as nat);
            assert(v as nat / 1 == v as nat);
            assert(1 * pow2(t as nat) == pow2(t as nat));
            lemma_raised(b.mant, b.exp);
            lemma_raised_pos(1, b.exp);
            lemma_raised_pos(1, -b.exp);
            let (m, x, y) = (b.mant, raised(1, b.exp), raised(1, -b.exp));
            let n = b.num() * 100;
            assert(n * 1 * y == v * y * x) by (nonlinear_arith)
                requires
                    n == (m * x) * 100,
                    v == m * 100;
            assert(n > 0) by (nonlinear_arith)
                requires
                    n == (m * x) * 100,
                    m > 0,
                    x > 0;
            lemma_round_is(53, n, y, v as nat, 1, -b.exp, t as nat, mant as nat);
            if t > 8 {
                lemma_pow2_strictly_increases(8, t as nat);
                let g = pow2(t as nat);
                lemma_fundamental_div_mod(v as int, g as int);
                lemma_mod_bound(v as int, g as int);
                assert(false) by (nonlinear_arith)
                    requires
                        v == g * (v as int / g as int) + v as int % g as int,
                        v as int % g as int >= 0,
                        v as int / g as int >= 0x10_0000_0000_0000,
                        v <= 0x20_0000_0000_0000 * 100,
                        g > 256;
            }
        }
        Float { mant, exp: t as i32 + self.exp }
    }

    /// Is the number at least two to the power `j`?
    pub fn at_least(&self, j: u32) -> (r: bool)
        requires
            self.wf(),
            j <= 100,
        ensures
            r == (self@.num() >= pow2(j as nat) * self@.den()),
    {
        proof {
            lemma2_to64_rest();
            lemma_at_least(self@, j as nat);
        }
        self.exp >= j as i32 - 52 || (self.exp == j as i32 - 53 && self.mant == LIMIT)
    }

    /// The number times `scale`, as the nearest integer.
    pub fn scaled(&self, scale: u64) -> (r: u128)
        requires
            self.wf(),
            0 < scale <= 1000,
            self.exp <= 60,
        ensures
            r == nearest(self@.num() * scale as nat, self@.den()),
    {
        assert(self.mant * scale <= 0x20_0000_0000_0000 * 1000) by (nonlinear_arith)
            requires
                self.mant <= 0x20_0000_0000_0000,
                scale <= 1000;
        let v: u128 = self.mant as u128 * scale as u128;
        if self.exp >= 0 {
            let unit: u128 = two_to(self.exp as u32);
            proof {
                lemma2_to64();
                lemma2_to64_rest();
                if self.exp < 60 {
                    lemma_pow2_strictly_increases(self.exp as nat, 60);
                }
                assert(v * unit <= 0x20_0000_0000_0000 * 1000 * 0x1000_0000_0000_0000)
                    by (nonlinear_arith)
                    requires
                        v <= 0x20_0000_0000_0000 * 1000,
                        unit <= 0x1000_0000_0000_0000;
                let m = self.mant as nat;
                assert((m * unit) * scale == v * unit) by (nonlinear_arith)
                    requires
                        v == m * scale;
                assert(m * unit == self@.num()) by {
                    if self.exp == 0 {
                        assert(m * 1 == m);
                    }
                }
                let x = self@.num() * scale as nat;
                assert(x / 1 == x && x % 1 == 0);
            }
            v * unit
        } else if self.exp < -64 {
            proof {
                lemma2_to64();
                lemma2_to64_rest();
                let t = (-self.exp) as nat;
                lemma_pow2_strictly_increases(64, t);
                assert(self@.den() == pow2(t)) by {
                    assert(1 * pow2(t) == pow2(t));
                }
                vstd::arithmetic::div_mod::lemma_small_mod(v as nat, pow2(t));
                vstd::arithmetic::div_mod::lemma_basic_div(v as int, pow2(t) as int);
            }
            0
        } else {
            let t: u32 = (-self.exp) as u32;
            let unit: u128 = two_to(t);
            proof {
                lemma_pow2_pos(t as nat);
            }
            let q: u128 = v / unit;
            let r: u128 = v % unit;
            proof {
                lemma2_to64();
                lemma2_to64_rest();
                if t < 64 {
                    lemma_pow2_strictly_increases(t as nat, 64);
                }
                assert(self@.den() == pow2(t as nat)) by {
                    assert(1 * pow2(t as nat) == pow2(t as nat));
                }
                lemma_mod_bound(v as int, unit as int);
                assert(q <= v) by {
                    vstd::arithmetic::div_mod::lemma_div_nonincreasing(v as int, unit as int);
                }
            }
            if 2 * r > unit || (2 * r == unit && q % 2 == 1) {
                q + 1
            } else {
                q
            }
        }
    }
}

proof fn lemma_settle_bounds(v: nat, t: nat)
    requires
        0x4000_0000_0000_0000 <= v <= 0x1_0000_0000_0000_0000,
        pow2(52) <= v / pow2(t) < pow2(53),
    ensures
        10 <= t <= 12,
{
    lemma2_to64();
    lemma2_to64_rest();
    lemma_pow2_pos(t);
    lemma_fundamental_div_mod(v as int, pow2(t) as int);
    lemma_mod_bound(v as int, pow2(t) as int);
    let (q, g) = (v / pow2(t), pow2(t));
    if t < 10 {
        lemma_pow2_strictly_increases(t, 10);
        assert(v < 0x4000_0000_0000_0000) by (nonlinear_arith)
            requires
                v == g * q + v as int % g as int,
                v as int % (g as int) < g,
                2 * g <= 0x400,
                q < 0x20_0000_0000_0000,
                g > 0;
    }
    if t > 12 {
        lemma_pow2_strictly_increases(12, t);
        assert(v > 0x1_0000_0000_0000_0000) by (nonlinear_arith)
            requires
                v == g * q + v as int % g as int,
                v as int % (g as int) >= 0,
                g > 0x1000,
                q >= 0x10_0000_0000_0000;
    }
}

proof fn lemma_raised(n: nat, e: int)
    ensures
        raised(n, e) == n * raised(1, e),
{
    if e > 0 {
        assert(1 * pow2(e as nat) == pow2(e as nat));
    } else {
        assert(n * 1 == n);
    }
}

/// Powers of two add up, whatever their signs.
proof fn lemma_powers(x: int, y: int)
    ensures
        raised(1, x) * raised(1, y) * raised(1, -(x + y)) == raised(1, -x) * raised(1, -y)
            * raised(1, x + y),
{
    let w = x + y;
    lemma2_to64();
    assert forall|e: int| #![trigger raised(1, e)] e >= 0 implies raised(1, e) == pow2(
        e as nat,
    ) by {
        assert(1 * pow2(e as nat) == pow2(e as nat));
    }
    let (a, b, c) = (raised(1, x), raised(1, y), raised(1, -w));
    let (d, e, g) = (raised(1, -x), raised(1, -y), raised(1, w));
    if x >= 0 && y >= 0 {
        lemma_pow2_adds(x as nat, y as nat);
        assert(a * b * c == d * e * g) by (nonlinear_arith)
            requires
                c == 1,
                d == 1,
                e == 1,
                g == a * b;
    } else if x < 0 && y < 0 {
        lemma_pow2_adds((-x) as nat, (-y) as nat);
        assert(a * b * c == d * e * g) by (nonlinear_arith)
            requires
                a == 1,
                b == 1,
                g == 1,
                c == d * e;
    } else if x >= 0 && w >= 0 {
        lemma_pow2_adds((-y) as nat, w as nat);
        assert(a * b * c == d * e * g) by (nonlinear_arith)
            requires
                b == 1,
                c == 1,
                d == 1,
                a == e * g;
    } else if x >= 0 {
        lemma_pow2_adds(x as nat, (-w) as nat);
        assert(a * b * c == d * e * g) by (nonlinear_arith)
            requires
                b == 1,
                d == 1,
                g == 1,
                e == a * c;
    } else if w >= 0 {
        lemma_pow2_adds((-x) as nat, w as nat);
        assert(a * b * c == d * e * g) by (nonlinear_arith)
            requires
                a == 1,
                c == 1,
                e == 1,
                b == d * g;
    } else {
        lemma_pow2_adds(y as nat, (-w) as nat);
        assert(a * b * c == d * e * g) by (nonlinear_arith)
            requires
                a == 1,
                e == 1,
                g == 1,
                d == b * c;
    }
}

/// How the quotient of two numbers relates to that of their significant bits.
proof fn lemma_quotient_scale(a: Binary, b: Binary)
    ensures
        ({
            let s = 63 - (a.exp - b.exp);
            a.num() * b.den() * b.mant * raised(1, s) == a.mant * 0x8000_0000_0000_0000 * (a.den()
                * b.num()) * raised(1, -s)
        }),
{
    let w = a.exp - b.exp;
    let s = 63 - w;
    lemma2_to64_rest();
    lemma_powers(a.exp, -b.exp);
    lemma_powers(w, s);
    lemma_raised(a.mant, a.exp);
    lemma_raised(b.mant, b.exp);
    lemma_raised_pos(1, w);
    lemma_raised_pos(1, -w);
    let (x, y, z) = (raised(1, a.exp), raised(1, -b.exp), raised(1, s));
    let (u, v, t) = (raised(1, -a.exp), raised(1, b.exp), raised(1, -s));
    let (g, h) = (raised(1, w), raised(1, -w));
    let k = 0x8000_0000_0000_0000nat;
    assert(raised(1, 63) == k) by {
        assert(1 * pow2(63) == pow2(63));
    }
    assert(raised(1, -63) == 1);
    assert(w + s == 63);
    assert(x * y * h == u * v * g);
    assert(g * z * 1 == h * t * k);
    assert(x * y * z == k * (u * v * t)) by (nonlinear_arith)
        requires
            x * y * h == u * v * g,
            g * z * 1 == h * t * k,
            g > 0,
            h > 0,
    {
        assert((x * y * h) * (g * z) == (u * v * g) * (h * t * k));
        assert((x * y * h) * (g * z) == (x * y * z) * (g * h));
        assert((u * v * g) * (h * t * k) == (k * (u * v * t)) * (g * h));
        assert(g * h > 0);
    }
    lemma_reorder(a.mant, b.mant, x, y, z, u, v, t, k);
}

proof fn lemma_reorder(
    m: nat,
    n: nat,
    x: nat,
    y: nat,
    z: nat,
    u: nat,
    v: nat,
    t: nat,
    k: nat,
)
    requires
        x * y * z == k * (u * v * t),
    ensures
        (m * x) * y * n * z == m * k * (u * (n * v)) * t,
{
    assert((m * x) * y * n * z == (m * n) * (x * y * z)) by (nonlinear_arith);
    assert(m * k * (u * (n * v)) * t == (m * n) * (k * (u * v * t))) by (nonlinear_arith);
}

/// A number with all its bits against a power of two.
proof fn lemma_at_least(b: Binary, j: nat)
    requires
        pow2(52) <= b.mant <= pow2(53),
    ensures
        (b.num() >= pow2(j) * b.den()) == (b.exp >= j - 52 || (b.exp == j - 53 && b.mant == pow2(53))),
{
    lemma_raised(b.mant, b.exp);
    lemma_powers(b.exp, -j);
    lemma_raised_pos(1, b.exp - j);
    lemma_raised_pos(1, j - b.exp);
    lemma_raised_pos(1, -b.exp);
    lemma2_to64();
    lemma_pow2_pos(j);
    lemma_pow2_pos(52);
    let (x, y) = (raised(1, b.exp), raised(1, -b.exp));
    let (g, h) = (raised(1, b.exp - j), raised(1, j - b.exp));
    let k = pow2(j);
    assert(raised(1, j as int) == k && raised(1, -j) == 1) by {
        assert(1 * k == k);
    }
    assert(-(b.exp + -j) == j - b.exp);
    // The number is g / h times two to the power j, over its significant bits.
    assert(x * 1 * h == y * k * g);
    let m = b.mant;
    assert((m * x >= k * y) == (m * g >= h)) by (nonlinear_arith)
        requires
            x * 1 * h == y * k * g,
            h > 0,
            y > 0,
            k > 0,
    {
        assert((m * x) * h == (m * g) * (k * y));
        assert(k * y > 0);
        if m * g >= h {
            assert((m * g) * (k * y) >= h * (k * y));
        } else {
            assert((m * g) * (k * y) < h * (k * y));
        }
    }
    let e = b.exp - j;
    if e >= -52 {
        assert(m * g >= h) by {
            if e >= 0 {
                assert(m * g >= 1) by (nonlinear_arith)
                    requires
                        m >= 1,
                        g >= 1;
            } else {
                if e > -52 {
                    lemma_pow2_strictly_increases((-e) as nat, 52);
                }
                assert(1 * pow2((-e) as nat) == pow2((-e) as nat));
                assert(m * 1 == m);
            }
        }
    } else {
        assert(g == 1 && m * 1 == m);
        assert(1 * pow2((-e) as nat) == pow2((-e) as nat));
        if e < -53 {
            lemma_pow2_strictly_increases(53, (-e) as nat);
        }
    }
}

/// A whole number of few enough bits is kept as it is.
pub proof fn lemma_exact(p: nat, k: nat, n: nat, d: nat)
    requires
        p > 0,
        d > 0,
        0 < k < pow2(p),
        n == k * d,
    ensures
        round(p, n, d).num() == k * round(p, n, d).den(),
        round(p, n, d).den() > 0,
{
    assert(n > 0 && n < d * pow2(p)) by (nonlinear_arith)
        requires
            n == k * d,
            0 < k < pow2(p),
            d > 0;
    lemma_rounded(p, n, d);
    let b = round(p, n, d);
    lemma_binade_of(p, n, d, b.exp, p as int);
    let g = raised(1, -b.exp);
    lemma_raised_pos(1, -b.exp);
    lemma_raised(n, -b.exp);
    let a = n * g;
    assert(a == d * (k * g) + 0) by (nonlinear_arith)
        requires
            a == n * g,
            n == k * d;
    assert(d * (k * g) == (k * g) * d) by (nonlinear_arith);
    lemma_fundamental_div_mod_converse(a as int, d as int, (k * g) as int, 0);
}

/// A number over a power of two, with the exponent moved.
pub proof fn lemma_lowered(b: Binary, k: nat)
    ensures
        ({
            let c = Binary { mant: b.mant, exp: b.exp - k };
            c.num() * pow2(k) * b.den() == b.num() * c.den() && c.den() > 0 && b.den() > 0
        }),
{
    let c = Binary { mant: b.mant, exp: b.exp - k };
    lemma_powers(c.exp, k as int);
    lemma_raised(b.mant, b.exp);
    lemma_raised(b.mant, c.exp);
    lemma_raised_pos(1, -b.exp);
    lemma_raised_pos(1, -c.exp);
    lemma2_to64();
    let g = pow2(k);
    assert(raised(1, k as int) == g && raised(1, -k) == 1) by {
        assert(1 * g == g);
    }
    let (m, x, y) = (b.mant, raised(1, c.exp), raised(1, b.exp));
    let (u, v) = (raised(1, -b.exp), raised(1, -c.exp));
    assert(x * g * u == v * 1 * y);
    assert((m * x) * g * u == (m * y) * v) by (nonlinear_arith)
        requires
            x * g * u == v * 1 * y;
}

/// Two to the power `t`.
pub fn two_to(t: u32) -> (r: u128)
    requires
        t < 128,
    ensures
        r == pow2(t as nat),
{
    let mut r: u128 = 1;
    let mut i: u32 = 0;
    proof {
        lemma2_to64();
    }
    while i < t
        invariant
            i <= t < 128,
            r == pow2(i as nat),
        decreases t - i,
    {
        proof {
            lemma_pow2_unfold((i + 1) as nat);
            lemma2_to64();
            lemma_pow2_adds(64, 64);
            lemma_pow2_strictly_increases((i + 1) as nat, 128);
        }
        r = r * 2;
        i = i + 1;
    }
    r
}

/// Rounding to the nearest is never further off than a half, and of two that are as
/// near it takes the even one.
pub proof fn law_rounding_is_to_the_nearest_even(a: nat, b: nat)
    requires
        b > 0,
    ensures
        ({
            let n = nearest(a, b) as int;
            &&& 2 * (n * b - a) <= b
            &&& 2 * (a - n * b) <= b
            &&& 2 * (n * b - a) == b || 2 * (a - n * b) == b ==> n % 2 == 0
        }),
{
    let q = (a / b) as int;
    lemma_fundamental_div_mod(a as int, b as int);
    lemma_mod_bound(a as int, b as int);
    assert(q * b == b * q && (q + 1) * b == b * q + b) by (nonlinear_arith);
}

} // verus!
