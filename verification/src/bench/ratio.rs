//! How many images a run presents per rendered frame, and when.
use crate::bench::decimal;
use crate::bench::decimal::{decimal_in, is_negative, unsigned_part, Decimal, Written};
use crate::text;
use crate::text::{number, pow10};
use vstd::arithmetic::div_mod::{
    lemma_fundamental_div_mod, lemma_fundamental_div_mod_converse, lemma_mod_bound,
};
use vstd::arithmetic::power::pow;
use vstd::prelude::*;
use vstd::string::StringExecFns;

verus! {

/// The greatest common divisor, and one where there is none.
pub open spec fn common(a: nat, b: nat) -> nat
    decreases b,
{
    if b == 0 {
        if a == 0 {
            1
        } else {
            a
        }
    } else {
        common(b, a % b)
    }
}

pub open spec fn divides(d: nat, n: nat) -> bool {
    exists|k: nat| n == #[trigger] (d * k)
}

/// What is common to two numbers divides both, and every common divisor divides
/// it.
pub proof fn law_the_common_divisor_is_the_greatest(a: nat, b: nat)
    requires
        a > 0 || b > 0,
    ensures
        common(a, b) > 0,
        divides(common(a, b), a),
        divides(common(a, b), b),
        forall|d: nat| #[trigger] divides(d, a) && divides(d, b) ==> divides(d, common(a, b)),
    decreases b,
{
    let g = common(a, b);
    if b == 0 {
        assert(a == a * 1);
        assert(0 == a * 0);
    } else {
        let (q, r) = (a / b, a % b);
        lemma_fundamental_div_mod(a as int, b as int);
        lemma_mod_bound(a as int, b as int);
        law_the_common_divisor_is_the_greatest(b, r);
        let x = choose|k: nat| b == #[trigger] (g * k);
        let y = choose|k: nat| r == #[trigger] (g * k);
        assert(a == g * (x * q + y)) by (nonlinear_arith)
            requires
                a == b * q + r,
                b == g * x,
                r == g * y;
        assert forall|d: nat| #[trigger] divides(d, a) && divides(d, b) implies divides(d, g) by {
            let u = choose|k: nat| a == #[trigger] (d * k);
            let v = choose|k: nat| b == #[trigger] (d * k);
            assert(r == d * (u - v * q)) by (nonlinear_arith)
                requires
                    a == b * q + r,
                    a == d * u,
                    b == d * v;
            if u - v * q < 0 {
                assert(d * (u - v * q) <= 0) by (nonlinear_arith)
                    requires
                        u - v * q < 0,
                        d >= 0;
                assert(0 == d * 0);
                assert(divides(d, r));
            } else {
                let w = (u - v * q) as nat;
                assert(r == d * w);
                assert(divides(d, r));
            }
        }
    }
}

pub fn gcd(a: u128, b: u128) -> (r: u128)
    ensures
        r == common(a as nat, b as nat),
        r > 0,
{
    let mut a: u128 = a;
    let mut b: u128 = b;
    let ghost whole = common(a as nat, b as nat);
    while b != 0
        invariant
            common(a as nat, b as nat) == whole,
        decreases b,
    {
        let t: u128 = b;
        b = a % b;
        a = t;
    }
    if a == 0 {
        1
    } else {
        a
    }
}

pub open spec fn no_ratio_text(given: Seq<char>) -> Seq<char> {
    "`"@ + given + "` is not a ratio: expected a number like 2 or 1.5"@
}

pub open spec fn out_of_range_text(given: Seq<char>, above: bool) -> Seq<char> {
    "`"@ + given + "` is outside the range this can schedule: 1.0 (off) to 4.0"@ + if above {
        " - beyond four images per frame the reprojection is extrapolating past its own interval"@
    } else {
        ""@
    }
}

pub open spec fn too_fine_text(given: Seq<char>) -> Seq<char> {
    "`"@ + given
        + "` cannot be scheduled exactly: as a fraction it takes more than 32 bits"@
}

/// A fraction in lowest terms.
pub open spec fn reduced(num: nat, den: nat) -> (nat, nat) {
    (num / common(num, den), den / common(num, den))
}

/// The ratio a text writes, in lowest terms, or what is wrong with it.
pub open spec fn ratio_in(given: Seq<char>) -> Result<(nat, nat), Seq<char>> {
    let t = unsigned_part(given);
    let name = text::uppercase(t);
    if name == "NAN"@ {
        Err(out_of_range_text(given, false))
    } else if name == "INF"@ || name == "INFINITY"@ {
        Err(out_of_range_text(given, !is_negative(given)))
    } else {
        match decimal_in(t) {
            None => Err(no_ratio_text(given)),
            Some(d) => if is_negative(given) || d.num() < d.den() {
                Err(out_of_range_text(given, false))
            } else if d.num() > 4 * d.den() {
                Err(out_of_range_text(given, true))
            } else if reduced(d.num(), d.den()).0 > u32::MAX || reduced(d.num(), d.den()).1
                > u32::MAX {
                Err(too_fine_text(given))
            } else {
                Ok(reduced(d.num(), d.den()))
            },
        }
    }
}

/// Multiplying both sides of a fraction changes nothing in lowest terms.
proof fn lemma_scaled(a: nat, b: nat, t: nat)
    requires
        a > 0,
        b > 0,
        t > 0,
    ensures
        common(a * t, b * t) == common(a, b) * t,
        reduced(a * t, b * t) == reduced(a, b),
{
    lemma_scaled_divisor(a, b, t);
    law_the_common_divisor_is_the_greatest(a, b);
    let g = common(a, b);
    vstd::arithmetic::div_mod::lemma_div_multiples_vanish_quotient(t as int, a as int, g as int);
    vstd::arithmetic::div_mod::lemma_div_multiples_vanish_quotient(t as int, b as int, g as int);
    assert(t * a == a * t && t * b == b * t && t * g == g * t) by (nonlinear_arith);
}

proof fn lemma_scaled_divisor(a: nat, b: nat, t: nat)
    requires
        a > 0 || b > 0,
        t > 0,
    ensures
        common(a * t, b * t) == common(a, b) * t,
    decreases b,
{
    if b == 0 {
        assert(0 * t == 0);
        assert(a * t > 0) by (nonlinear_arith)
            requires
                a > 0,
                t > 0;
    } else {
        let (q, r) = (a / b, a % b);
        lemma_fundamental_div_mod(a as int, b as int);
        lemma_mod_bound(a as int, b as int);
        assert(a * t == q * (b * t) + r * t) by (nonlinear_arith)
            requires
                a == b * q + r;
        assert(0 <= r * t < b * t) by (nonlinear_arith)
            requires
                0 <= r < b,
                t > 0;
        lemma_fundamental_div_mod_converse((a * t) as int, (b * t) as int, q as int, (r * t) as int);
        lemma_scaled_divisor(b, r, t);
        assert(common(a * t, b * t) == common(b * t, (a * t) % (b * t)));
    }
}

/// Lowest terms are the number itself.
proof fn lemma_lowest_terms(num: nat, den: nat)
    requires
        num > 0,
        den > 0,
    ensures
        ({
            let (x, y) = reduced(num, den);
            let g = common(num, den);
            &&& g > 0
            &&& num == g * x
            &&& den == g * y
            &&& x * den == num * y
            &&& x > 0
            &&& y > 0
        }),
{
    law_the_common_divisor_is_the_greatest(num, den);
    let g = common(num, den);
    let x = choose|k: nat| num == #[trigger] (g * k);
    let y = choose|k: nat| den == #[trigger] (g * k);
    assert(g * x == x * g && g * y == y * g) by (nonlinear_arith);
    lemma_fundamental_div_mod_converse(num as int, g as int, x as int, 0);
    lemma_fundamental_div_mod_converse(den as int, g as int, y as int, 0);
    assert(x * (g * y) == (g * x) * y) by (nonlinear_arith);
    assert(x > 0 && y > 0) by (nonlinear_arith)
        requires
            g * x > 0,
            g * y > 0,
            x >= 0,
            y >= 0;
}

/// A ratio is kept exactly, and in lowest terms: the fraction is the number that
/// was written, and nothing but one divides both of its sides.
pub proof fn law_a_ratio_is_exact_and_reduced(num: nat, den: nat, d: nat)
    requires
        num > 0,
        den > 0,
        divides(d, reduced(num, den).0),
        divides(d, reduced(num, den).1),
    ensures
        reduced(num, den).0 * den == num * reduced(num, den).1,
        d == 1,
{
    lemma_lowest_terms(num, den);
    law_the_common_divisor_is_the_greatest(num, den);
    let g = common(num, den);
    let (x, y) = reduced(num, den);
    let u = choose|k: nat| x == #[trigger] (d * k);
    let v = choose|k: nat| y == #[trigger] (d * k);
    let e = g * d;
    assert(num == e * u && den == e * v) by (nonlinear_arith)
        requires
            e == g * d,
            num == g * x,
            den == g * y,
            x == d * u,
            y == d * v;
    assert(divides(e, num) && divides(e, den));
    assert(divides(e, g));
    let w = choose|k: nat| g == #[trigger] (e * k);
    assert(d * w == 1) by (nonlinear_arith)
        requires
            g == (g * d) * w,
            g > 0;
    assert(d == 1) by (nonlinear_arith)
        requires
            d * w == 1,
            d >= 0,
            w >= 0;
}

/// The common divisor is a combination of the two numbers.
proof fn lemma_combination(a: nat, b: nat) -> (r: (int, int))
    requires
        a > 0 || b > 0,
    ensures
        a * r.0 + b * r.1 == common(a, b),
    decreases b,
{
    if b == 0 {
        assert(a * 1 + 0 * 0 == a);
        (1, 0)
    } else {
        let (q, m) = (a / b, a % b);
        lemma_fundamental_div_mod(a as int, b as int);
        lemma_mod_bound(a as int, b as int);
        let (x, y) = lemma_combination(b, m);
        assert(a * y + b * (x - q * y) == b * x + m * y) by (nonlinear_arith)
            requires
                a == b * q + m;
        (y, x - q * y)
    }
}

/// No fraction that is refused could have been kept: whatever fraction equals a
/// number, both its sides are at least those of the lowest terms.
pub proof fn law_lowest_terms_are_the_smallest(num: nat, den: nat, n: nat, d: nat)
    requires
        num > 0,
        den > 0,
        d > 0,
        n * den == num * d,
    ensures
        reduced(num, den).0 <= n,
        reduced(num, den).1 <= d,
{
    lemma_lowest_terms(num, den);
    let g = common(num, den);
    let (x, y) = reduced(num, den);
    let (p, q) = lemma_combination(num, den);
    assert(x * p + y * q == 1) by (nonlinear_arith)
        requires
            num * p + den * q == g,
            num == g * x,
            den == g * y,
            g > 0,
    {
        assert(g * (x * p + y * q) == (g * x) * p + (g * y) * q);
    }
    assert(n * y == x * d) by (nonlinear_arith)
        requires
            n * den == num * d,
            num == g * x,
            den == g * y,
            g > 0,
    {
        assert(g * (n * y) == g * (x * d));
    }
    // The lower side divides: d = y * k, with k = n * p + d * q.
    let k = n * p + d * q;
    assert(d == y * k) by (nonlinear_arith)
        requires
            x * p + y * q == 1,
            n * y == x * d,
            k == n * p + d * q,
    {
        assert(d * (x * p + y * q) == (x * d) * p + (d * q) * y);
        assert((n * y) * p == y * (n * p));
    }
    assert(k >= 1 && y <= d) by (nonlinear_arith)
        requires
            d == y * k,
            d > 0,
            y > 0;
    assert(x <= n) by (nonlinear_arith)
        requires
            n * y == x * d,
            y <= d,
            y > 0,
            x > 0;
}

/// A power of a prime that divides a product, none of whose prime is in the other
/// factor, divides the factor left.
proof fn lemma_prime_power(b: nat, k: nat, x: nat, m: nat, d: nat)
    requires
        b == 2 || b == 5,
        m % b != 0,
        d > 0,
        x * pow(b as int, k) == m * d,
    ensures
        d >= pow(b as int, k),
    decreases k,
{
    reveal(pow);
    if k > 0 {
        let p = pow(b as int, (k - 1) as nat);
        assert(pow(b as int, k) == b * p);
        assert((m * d) % b == 0) by {
            assert(x * (b * p) == (x * p) * b) by (nonlinear_arith);
            vstd::arithmetic::div_mod::lemma_mod_multiples_basic(x * p, b as int);
        }
        assert(d % b == 0) by {
            vstd::arithmetic::div_mod::lemma_mul_mod_noop(m as int, d as int, b as int);
            let (u, v) = (m % b, d % b);
            assert(0 < u < b && 0 <= v < b);
            assert((u * v) % b == 0);
            if b == 2 {
                assert(u == 1);
                assert(1 * v == v);
            } else {
                assert(u * v == v || u * v == 2 * v || u * v == 3 * v || u * v == 4 * v)
                    by (nonlinear_arith)
                    requires
                        0 < u < 5;
            }
        }
        let e = d / b;
        assert(d == b * e);
        assert(x * p == m * e) by (nonlinear_arith)
            requires
                x * (b * p) == m * (b * e),
                b > 0,
        {
            assert(b * (x * p) == b * (m * e));
        }
        lemma_prime_power(b, (k - 1) as nat, x, m, e);
        assert(b * e >= b * p) by (nonlinear_arith)
            requires
                e >= p,
                b >= 0;
    }
}

proof fn lemma_ten_is_two_by_five(k: nat)
    ensures
        pow10(k) == pow(2, k) * pow(5, k),
        pow(5, k) >= pow(2, k) > 0,
        k >= 32 ==> pow(2, k) > u32::MAX,
    decreases k,
{
    reveal(pow);
    if k > 0 {
        lemma_ten_is_two_by_five((k - 1) as nat);
        let (a, b) = (pow(2, (k - 1) as nat), pow(5, (k - 1) as nat));
        assert(10 * (a * b) == (2 * a) * (5 * b)) by (nonlinear_arith);
        if k == 32 {
            vstd::arithmetic::power2::lemma_pow2(32);
            vstd::arithmetic::power2::lemma2_to64();
        }
    }
}

/// With more than 32 significant digits the lower side does not fit.
proof fn lemma_too_fine(m: nat, k: nat)
    requires
        m > 0,
        m % 10 != 0,
        k >= 32,
    ensures
        reduced(m, pow10(k)).1 > u32::MAX,
{
    decimal::lemma_pow10_adds(k, 0);
    lemma_lowest_terms(m, pow10(k));
    lemma_ten_is_two_by_five(k);
    let (x, y) = reduced(m, pow10(k));
    let (two, five) = (pow(2, k), pow(5, k));
    if m % 2 != 0 {
        let z = (x * five) as nat;
        assert(0 <= x * five) by (nonlinear_arith)
            requires
                x >= 0,
                five >= 0;
        assert((x * five) * two == x * (two * five)) by (nonlinear_arith);
        lemma_prime_power(2, k, z, m, y);
    } else {
        assert(m % 5 != 0);
        let z = (x * two) as nat;
        assert(0 <= x * two) by (nonlinear_arith)
            requires
                x >= 0,
                two >= 0;
        assert((x * two) * five == x * (two * five)) by (nonlinear_arith);
        lemma_prime_power(5, k, z, m, y);
    }
}

/// What a number is as a ratio.
enum Judged {
    Below,
    Above,
    TooFine,
    Fraction(u32, u32),
}

/// What is to be said of a number.
spec fn is_judged(j: Judged, d: Decimal) -> bool {
    match j {
        Judged::Below => d.num() < d.den(),
        Judged::Above => d.num() > 4 * d.den(),
        Judged::TooFine => {
            &&& d.den() <= d.num() <= 4 * d.den()
            &&& reduced(d.num(), d.den()).0 > u32::MAX || reduced(d.num(), d.den()).1 > u32::MAX
        },
        Judged::Fraction(n, m) => {
            &&& d.den() <= d.num() <= 4 * d.den()
            &&& reduced(d.num(), d.den()) == (n as nat, m as nat)
        },
    }
}

/// Where the significant digits start and end.
fn bounds(s: &Vec<char>) -> (r: Option<(usize, usize)>)
    ensures
        match r {
            Some((a, b)) => decimal::significant(s@, a as int, b as int),
            None => decimal::all_zeros(s@),
        },
{
    let mut a: usize = 0;
    while a < s.len() && s[a] == '0'
        invariant
            a <= s@.len(),
            forall|i: int| 0 <= i < a ==> #[trigger] s@[i] == '0',
        decreases s@.len() - a,
    {
        a += 1;
    }
    if a == s.len() {
        return None;
    }
    let mut b: usize = s.len();
    while s[b - 1] == '0'
        invariant
            a < b <= s@.len(),
            s@[a as int] != '0',
            forall|i: int| b <= i < s@.len() ==> #[trigger] s@[i] == '0',
        decreases b,
    {
        b -= 1;
    }
    Some((a, b))
}

/// Some digits, and ten to the power of one digit less.
fn whole_and_tens(s: &Vec<char>, a: usize, b: usize) -> (r: (u128, u128))
    requires
        a < b <= s@.len(),
        b - a <= 32,
        text::all_digits(s@),
    ensures
        r.0 == number(s@.subrange(a as int, b as int)),
        r.1 == pow10((b - a - 1) as nat),
        r.0 < 100_000_000_000_000_000_000_000_000_000_000,
        0 < r.1 <= 10_000_000_000_000_000_000_000_000_000_000,
{
    let mut v: u128 = 0;
    let mut p: u128 = 1;
    let mut i: usize = a;
    assert(s@.subrange(a as int, a as int) =~= seq![]);
    while i < b
        invariant
            a <= i <= b <= s@.len(),
            a < b,
            b - a <= 32,
            text::all_digits(s@),
            v == number(s@.subrange(a as int, i as int)),
            v < pow10((i - a) as nat),
            p == pow10(if i == a { 0 } else { (i - a - 1) as nat }),
        decreases b - i,
    {
        let ghost next = s@.subrange(a as int, i + 1);
        assert(next.drop_last() =~= s@.subrange(a as int, i as int));
        assert(next.last() == s@[i as int]);
        proof {
            text::lemma_digit(s@[i as int]);
            lemma_tens((i - a) as nat);
            if i > a {
                lemma_tens((i - a - 1) as nat);
            }
        }
        v = v * 10 + (s[i] as u32 - '0' as u32) as u128;
        if i > a {
            p = p * 10;
        }
        i += 1;
    }
    proof {
        lemma_tens((b - a) as nat);
        lemma_tens((b - a - 1) as nat);
        decimal::lemma_pow10_adds((b - a - 1) as nat, 0);
    }
    (v, p)
}

proof fn lemma_tens(k: nat)
    requires
        k <= 32,
    ensures
        pow10(k) <= 100_000_000_000_000_000_000_000_000_000_000,
        k < 32 ==> pow10(k) <= 10_000_000_000_000_000_000_000_000_000_000,
        k < 31 ==> pow10(k) <= 1_000_000_000_000_000_000_000_000_000_000,
    decreases 32 - k,
{
    if k == 32 {
        reveal_with_fuel(pow10, 34);
    } else {
        lemma_tens(k + 1);
    }
}

/// Judges a number that was read.
fn judge(w: &Written, Ghost(d): Ghost<Decimal>) -> (r: Judged)
    requires
        w.writes(d),
    ensures
        is_judged(r, d),
{
    let (a, b) = match bounds(&w.digits) {
        Some((a, b)) => (a, b),
        None => {
            proof {
                decimal::lemma_zeros(d.digits);
                if d.exp >= 0 {
                    assert(0 * pow10(d.exp as nat) == 0);
                } else {
                    decimal::lemma_pow10_adds((-d.exp) as nat, 0);
                }
            }
            return Judged::Below;
        },
    };
    proof {
        decimal::lemma_point(d, a as int, b as int);
        decimal::lemma_significant(d.digits, a as int, b as int);
    }
    let ghost m = number(d.digits.subrange(a as int, b as int));
    let len: usize = w.digits.len();
    assert(len == d.digits.len());
    if w.exp >= decimal::FAR {
        return Judged::Above;
    }
    if w.exp <= -decimal::FAR {
        return Judged::Below;
    }
    let front: i128 = (len - a) as i128 + w.exp;
    if front > 1 {
        return Judged::Above;
    }
    if front < 1 {
        return Judged::Below;
    }
    let ghost z = (d.digits.len() - b) as nat;
    let ghost tens = pow10((b - a - 1) as nat);
    proof {
        decimal::lemma_pow10_adds(z, 0);
        decimal::lemma_pow10_adds((b - a - 1) as nat, 0);
        lemma_scaled(m, tens, pow10(z));
        lemma_same_order(m, tens, pow10(z));
    }
    if b - a > 32 {
        let first: u32 = w.digits[a] as u32 - '0' as u32;
        proof {
            lemma_first_digit(m, tens, first as nat, (b - a - 1) as nat);
            lemma_too_fine(m, (b - a - 1) as nat);
        }
        return if first < 4 {
            Judged::TooFine
        } else {
            Judged::Above
        };
    }
    let (v, p) = whole_and_tens(&w.digits, a, b);
    if v > 4 * p {
        return Judged::Above;
    }
    let g: u128 = gcd(v, p);
    let (n, k) = (v / g, p / g);
    if n > u32::MAX as u128 || k > u32::MAX as u128 {
        return Judged::TooFine;
    }
    Judged::Fraction(n as u32, k as u32)
}

proof fn lemma_same_order(a: nat, b: nat, t: nat)
    requires
        t > 0,
    ensures
        (b * t <= a * t) == (b <= a),
        (a * t <= 4 * (b * t)) == (a <= 4 * b),
{
    assert((b * t <= a * t) == (b <= a)) by (nonlinear_arith)
        requires
            t > 0;
    assert((a * t <= 4 * (b * t)) == (a <= 4 * b)) by (nonlinear_arith)
        requires
            t > 0;
}

/// The first digit of many decides whether the number is over four.
proof fn lemma_first_digit(m: nat, tens: nat, first: nat, k: nat)
    requires
        k > 0,
        tens == pow10(k),
        first * tens <= m < (first + 1) * tens,
        m % 10 != 0,
    ensures
        (m <= 4 * tens) == (first < 4),
{
    if first < 4 {
        assert((first + 1) * tens <= 4 * tens) by (nonlinear_arith)
            requires
                first < 4,
                tens >= 0;
    } else {
        assert(4 * tens <= first * tens) by (nonlinear_arith)
            requires
                first >= 4,
                tens >= 0;
        assert((4 * tens) % 10 == 0) by {
            assert(tens == 10 * pow10((k - 1) as nat));
        }
    }
}

fn out_of_range(given: &str, above: bool) -> (e: String)
    ensures
        e@ == out_of_range_text(given@, above),
{
    let mut e = String::from_str("`");
    e.append(given);
    e.append("` is outside the range this can schedule: 1.0 (off) to 4.0");
    if above {
        e.append(
            " - beyond four images per frame the reprojection is extrapolating past its own interval",
        );
    } else {
        e.append("");
    }
    e
}

/// `--framegen=R` as a reduced fraction of presented images per rendered frame.
///
/// The ratio is kept exact because a host's schedule is built from it: a run at
/// 1.5 presents three images for every two frames it renders, and the schedule
/// spreads them the way a 1.5x display would rather than bunching them. A ratio
/// that no fraction of 32-bit numbers equals is refused.
pub fn parse_ratio(given: &str) -> (r: Result<(u32, u32), String>)
    ensures
        match r {
            Ok((num, den)) => ratio_in(given@) == Ok::<(nat, nat), Seq<char>>(
                (num as nat, den as nat),
            ) && 0 < den <= num <= 4 * den,
            Err(e) => ratio_in(given@) == Err::<(nat, nat), Seq<char>>(e@),
        },
{
    let c = text::chars_of(given);
    let negative = c.len() > 0 && c[0] == '-';
    let from: usize = if negative || (c.len() > 0 && c[0] == '+') {
        1
    } else {
        0
    };
    let ghost t = unsigned_part(given@);
    assert(c@.skip(from as int) =~= t);
    assert(c@.subrange(from as int, c@.len() as int) =~= t);
    let name = text::to_uppercase(&c, from, c.len());
    if text::spells(&name, "NAN") {
        return Err(out_of_range(given, false));
    }
    if text::spells(&name, "INF") || text::spells(&name, "INFINITY") {
        return Err(out_of_range(given, !negative));
    }
    let w = match decimal::read(&c, from) {
        Some(w) => w,
        None => {
            let mut e = String::from_str("`");
            e.append(given);
            e.append("` is not a ratio: expected a number like 2 or 1.5");
            return Err(e);
        },
    };
    let ghost d = decimal_in(t)->0;
    if negative {
        return Err(out_of_range(given, false));
    }
    proof {
        if d.exp < 0 {
            decimal::lemma_pow10_adds((-d.exp) as nat, 0);
        }
    }
    match judge(&w, Ghost(d)) {
        Judged::Below => Err(out_of_range(given, false)),
        Judged::Above => Err(out_of_range(given, true)),
        Judged::TooFine => {
            let mut e = String::from_str("`");
            e.append(given);
            e.append("` cannot be scheduled exactly: as a fraction it takes more than 32 bits");
            Err(e)
        },
        Judged::Fraction(num, den) => {
            proof {
                lemma_lowest_terms(d.num(), d.den());
                lemma_same_order(num as nat, den as nat, common(d.num(), d.den()));
                assert(common(d.num(), d.den()) * num == num * common(d.num(), d.den()))
                    by (nonlinear_arith);
                assert(common(d.num(), d.den()) * den == den * common(d.num(), d.den()))
                    by (nonlinear_arith);
            }
            Ok((num, den))
        },
    }
}

/// The images presented by the time `n` frames are rendered: what the ratio
/// implies, rounded up.
pub open spec fn images_through(n: int, num: int, den: int) -> int {
    (n * num + den - 1) / den
}

/// The images of one interval: what the running total grows by.
pub open spec fn images_in(index: int, num: int, den: int) -> int {
    images_through(index + 1, num, den) - images_through(index, num, den)
}

fn total_through(n: u32, num: u32, den: u32) -> (r: u64)
    requires
        den > 0,
    ensures
        r == images_through(n as int, num as int, den as int),
{
    assert(n * num <= 0xffff_ffff * 0xffff_ffff) by (nonlinear_arith)
        requires
            0 <= n <= 0xffff_ffff,
            0 <= num <= 0xffff_ffff;
    let scaled: u64 = n as u64 * num as u64;
    (scaled + den as u64 - 1) / den as u64
}

/// How many images the host presents in the interval that ends at rendered frame
/// `index`: the difference between the running totals the ratio implies, so the
/// schedule never drifts.
pub fn images_in_interval(index: u32, num: u32, den: u32) -> (r: u32)
    requires
        den > 0,
        index < u32::MAX,
    ensures
        r == images_in(index as int, num as int, den as int),
{
    proof {
        law_an_interval_is_the_ratio_rounded(index as int, num as int, den as int);
        assert((num + den - 1) / (den as int) <= num) by (nonlinear_arith)
            requires
                num >= 0,
                den > 0;
    }
    (total_through(index + 1, num, den) - total_through(index, num, den)) as u32
}

/// The schedule spreads the images: every interval has the ratio's, rounded down or
/// up.
pub proof fn law_an_interval_is_the_ratio_rounded(index: int, num: int, den: int)
    requires
        0 <= index,
        0 <= num,
        0 < den,
    ensures
        num / den <= images_in(index, num, den) <= (num + den - 1) / den,
{
    let a = index * num + den - 1;
    let b = (index + 1) * num + den - 1;
    let (qa, ra) = (a / den, a % den);
    let (qb, rb) = (b / den, b % den);
    let (q, r) = (num / den, num % den);
    let (qc, rc) = ((num + den - 1) / den, (num + den - 1) % den);
    lemma_fundamental_div_mod(a, den);
    lemma_fundamental_div_mod(b, den);
    lemma_fundamental_div_mod(num, den);
    lemma_fundamental_div_mod(num + den - 1, den);
    lemma_mod_bound(a, den);
    lemma_mod_bound(b, den);
    lemma_mod_bound(num, den);
    lemma_mod_bound(num + den - 1, den);
    assert(b == a + num) by (nonlinear_arith)
        requires
            a == index * num + den - 1,
            b == (index + 1) * num + den - 1;
    assert(qb - qa >= q) by (nonlinear_arith)
        requires
            a == den * qa + ra,
            b == den * qb + rb,
            num == den * q + r,
            b == a + num,
            0 <= ra < den,
            0 <= rb < den,
            0 <= r < den;
    assert(qb - qa <= qc) by (nonlinear_arith)
        requires
            a == den * qa + ra,
            b == den * qb + rb,
            num + den - 1 == den * qc + rc,
            b == a + num,
            0 <= ra < den,
            0 <= rb < den,
            0 <= rc < den;
}

/// The images of the first `n` intervals together.
pub open spec fn images_until(n: int, num: int, den: int) -> int
    decreases n,
{
    if n <= 0 {
        0
    } else {
        images_until(n - 1, num, den) + images_in(n - 1, num, den)
    }
}

/// The schedule never drifts: after any number of frames, as many images were
/// presented as the ratio implies.
pub proof fn law_the_schedule_never_drifts(n: int, num: int, den: int)
    requires
        0 <= n,
        0 <= num,
        0 < den,
    ensures
        images_until(n, num, den) == images_through(n, num, den),
    decreases n,
{
    if n == 0 {
        assert(0 * num == 0);
        vstd::arithmetic::div_mod::lemma_basic_div(den - 1, den);
    } else {
        law_the_schedule_never_drifts(n - 1, num, den);
    }
}

/// A ratio of at least one presents every rendered frame.
pub proof fn law_every_interval_has_an_image(index: int, num: int, den: int)
    requires
        0 <= index,
        0 < den <= num,
    ensures
        images_in(index, num, den) >= 1,
{
    law_an_interval_is_the_ratio_rounded(index, num, den);
    vstd::arithmetic::div_mod::lemma_div_is_ordered(den, num, den);
    vstd::arithmetic::div_mod::lemma_div_by_self(den);
}

/// After any number of intervals the images presented are the ratio's share of them,
/// rounded up: never one behind, and never a whole image ahead.
pub proof fn law_the_images_are_the_ratios_share(n: int, num: int, den: int)
    requires
        0 <= n,
        0 <= num,
        0 < den,
    ensures
        ({
            let images = images_until(n, num, den);
            n * num <= images * den < n * num + den
        }),
{
    law_the_schedule_never_drifts(n, num, den);
    let a = n * num + den - 1;
    let q = a / den;
    vstd::arithmetic::div_mod::lemma_fundamental_div_mod(a, den);
    vstd::arithmetic::div_mod::lemma_mod_bound(a, den);
    assert(q * den == den * q) by (nonlinear_arith);
}

/// A ratio that is read is the number that was given, in lowest terms, from one image a
/// frame to four; any other number is refused, and a text that is none.
pub proof fn law_a_ratio_that_is_read_is_the_number_given(given: Seq<char>, num: nat, den: nat)
    requires
        ratio_in(given) == Ok::<(nat, nat), Seq<char>>((num, den)),
    ensures
        decimal_in(unsigned_part(given)) matches Some(d) && num * d.den() == d.num() * den && den
            > 0,
        den <= num <= 4 * den,
        num <= u32::MAX,
        den <= u32::MAX,
        given[0] != '-',
        forall|k: nat| #[trigger] divides(k, num) && divides(k, den) ==> k == 1,
{
    let d = decimal_in(unsigned_part(given))->0;
    lemma_den_positive(d);
    if given.len() == 0 {
        assert(unsigned_part(given) == given);
        lemma_nothing_is_no_decimal(given);
    }
    law_the_common_divisor_is_the_greatest(d.num(), d.den());
    assert(divides(1, num)) by {
        assert(num == 1 * num);
    }
    assert(divides(1, den)) by {
        assert(den == 1 * den);
    }
    law_a_ratio_is_exact_and_reduced(d.num(), d.den(), 1);
    assert forall|k: nat| #[trigger] divides(k, num) && divides(k, den) implies k == 1 by {
        law_a_ratio_is_exact_and_reduced(d.num(), d.den(), k);
    }
    let (a, b) = (d.num() as int, d.den() as int);
    let (n, m) = (num as int, den as int);
    assert(m > 0) by {
        let c = common(d.num(), d.den());
        let k = choose|k: nat| d.den() == #[trigger] (c * k);
        assert(k > 0) by (nonlinear_arith)
            requires
                c * k == d.den(),
                d.den() > 0;
        assert(d.den() / c == k) by {
            assert(c * k == k * c) by (nonlinear_arith);
            vstd::arithmetic::div_mod::lemma_div_multiples_vanish(k as int, c as int);
        }
    }
    assert(m <= n <= 4 * m) by (nonlinear_arith)
        requires
            n * b == a * m,
            b <= a <= 4 * b,
            b > 0,
            m > 0;
}

proof fn lemma_den_positive(d: Decimal)
    ensures
        d.den() > 0,
{
    if d.exp < 0 {
        crate::host::units::lemma_pow10_pos((-d.exp) as nat);
    }
}

proof fn lemma_nothing_is_no_decimal(s: Seq<char>)
    requires
        s.len() == 0,
    ensures
        decimal_in(s) is None,
{
    assert(s.take(0) =~= s);
}

} // verus!
