//! Sizes, times and rates, written for a terminal and read from a command line.
//!
//! One place decides that `65536` prints as `64.0 KiB` and that `--ram-cap=64MB`
//! means 64 MiB, so the tools that quote a budget quote it the same way and a
//! number copied out of one tool's output means the same in the other's input.
use crate::rounding;
use crate::rounding::{Binary, Float};
use crate::text;
use vstd::arithmetic::div_mod::{
    lemma_fundamental_div_mod, lemma_fundamental_div_mod_converse, lemma_mod_bound,
};
use vstd::arithmetic::power2::{
    lemma2_to64, lemma2_to64_rest, lemma_pow2_adds, lemma_pow2_pos, lemma_pow2_strictly_increases,
    pow2,
};
use vstd::prelude::*;
use vstd::string::StringExecFns;

verus! {

pub open spec fn unit_name(unit: nat) -> Seq<char> {
    if unit == 0 {
        "B"@
    } else if unit == 1 {
        "KiB"@
    } else if unit == 2 {
        "MiB"@
    } else if unit == 3 {
        "GiB"@
    } else if unit == 4 {
        "TiB"@
    } else {
        "PiB"@
    }
}

/// `value` over 1024 to the power `unit`: a double halves exactly.
pub open spec fn in_unit(value: Binary, unit: nat) -> Binary {
    Binary { mant: value.mant, exp: value.exp - 10 * unit }
}

/// The unit in which a size is quoted: 1024 of one unit are one of the next.
pub open spec fn unit_from(value: Binary, unit: nat) -> nat
    decreases 5 - unit,
{
    let v = in_unit(value, unit);
    if unit < 5 && v.num() >= 1024 * v.den() {
        unit_from(value, unit + 1)
    } else {
        unit
    }
}

/// A number with `k` digits after the point, the last one rounded to nearest.
pub open spec fn with_places(value: Binary, k: nat) -> Seq<char> {
    text::point(rounding::nearest(value.num() * text::pow10(k), value.den()), k)
}

/// A whole number in double precision.
pub open spec fn double(n: nat) -> Binary {
    rounding::round(53, n, 1)
}

pub open spec fn ratio(a: Binary, b: Binary) -> Binary {
    rounding::quotient(53, a, b)
}

pub open spec fn bytes_text(n: nat) -> Seq<char> {
    if n < 1024 {
        text::dec(n) + " B"@
    } else {
        let unit = unit_from(double(n), 0);
        with_places(in_unit(double(n), unit), 1) + " "@ + unit_name(unit)
    }
}

fn push_places(out: &mut String, v: &Float, k: u32)
    requires
        v.wf(),
        v.exp <= 60,
        0 < k <= 3,
    ensures
        final(out)@ == old(out)@ + with_places(v@, k as nat),
{
    let scale: u64 = if k == 1 {
        10
    } else if k == 2 {
        100
    } else {
        1000
    };
    proof {
        reveal_with_fuel(text::pow10, 4);
    }
    text::push_point(out, v.scaled(scale), k);
}

/// Appends a quotient of two whole numbers with `k` digits after the point.
pub fn push_quotient(out: &mut String, n: u64, d: u64, k: u32)
    requires
        d > 0,
        0 < k <= 3,
    ensures
        final(out)@ == old(out)@ + with_places(ratio(double(n as nat), double(d as nat)), k as nat),
{
    if n == 0 {
        proof {
            lemma_zero_quotient(double(d as nat), k as nat);
        }
        text::push_point(out, 0, k);
    } else {
        proof {
            lemma2_to64();
            assert(n < pow2(64));
            assert(d >= pow2(0));
        }
        push_places(out, &Float::whole(n).over(&Float::whole(d)), k);
    }
}

/// Appends a quotient of two whole numbers over a million, in three places.
pub fn push_mean_millionths(out: &mut String, n: u64, d: u64)
    requires
        d > 0,
    ensures
        final(out)@ == old(out)@ + with_places(
            ratio(ratio(double(n as nat), double(d as nat)), double(1_000_000)),
            3,
        ),
{
    if n == 0 {
        proof {
            lemma_zero_quotient(double(d as nat), 3);
            lemma_zero_quotient(double(1_000_000), 3);
        }
        text::push_point(out, 0, 3);
    } else {
        proof {
            lemma2_to64();
            assert(n < pow2(64));
            assert(d >= pow2(0));
            assert(1_000_000 >= pow2(19));
        }
        let mean = Float::whole(n).over(&Float::whole(d));
        push_places(out, &mean.over(&Float::whole(1_000_000)), 3);
    }
}

/// Appends what `n` is of `d`, in hundredths with two places.
pub fn push_percent(out: &mut String, n: u64, d: u64)
    requires
        d > 0,
    ensures
        final(out)@ == old(out)@ + percent_text(n as nat, d as nat),
{
    if n == 0 {
        proof {
            lemma_zero_quotient(double(d as nat), 2);
            let q = ratio(double(0), double(d as nat));
            assert(q.num() * 100 == 0);
        }
        text::push_point(out, 0, 2);
    } else {
        proof {
            lemma2_to64();
            assert(n < pow2(64));
            assert(d >= pow2(0));
        }
        push_places(out, &Float::whole(n).over(&Float::whole(d)).hundredfold(), 2);
    }
}

pub open spec fn percent_text(n: nat, d: nat) -> Seq<char> {
    let q = ratio(double(n), double(d));
    with_places(rounding::round(53, q.num() * 100, q.den()), 2)
}

/// Nothing of anything is nothing.
proof fn lemma_zero_quotient(b: Binary, k: nat)
    ensures
        ratio(double(0), b) == double(0),
        with_places(double(0), k) == text::point(0, k),
{
    let zero = double(0);
    assert(zero.num() * b.den() == 0) by (nonlinear_arith)
        requires
            zero.num() == 0;
    assert(zero.num() * text::pow10(k) == 0) by (nonlinear_arith)
        requires
            zero.num() == 0;
}

/// Bytes in binary units, with one decimal past the byte range.
pub fn bytes(n: u64) -> (r: String)
    ensures
        r@ == bytes_text(n as nat),
{
    let mut out = String::new();
    if n < 1024 {
        text::push_dec(&mut out, n as u128);
        out.append(" B");
        assert(out@ =~= bytes_text(n as nat));
        return out;
    }
    proof {
        lemma2_to64();
        assert(n < pow2(64));
    }
    let whole = Float::whole(n);
    let ghost value = double(n as nat);
    let mut v = Float { mant: whole.mant, exp: whole.exp };
    let mut unit: u32 = 0;
    while unit < 5 && v.at_least(10)
        invariant
            unit <= 5,
            v.wf(),
            v@ == in_unit(value, unit as nat),
            -63 - 10 * unit <= v.exp <= 64,
            v.exp <= 12,
            unit_from(value, unit as nat) == unit_from(value, 0),
        decreases 5 - unit,
    {
        proof {
            lemma2_to64();
        }
        v = Float { mant: v.mant, exp: v.exp - 10 };
        unit = unit + 1;
    }
    proof {
        lemma2_to64();
    }
    push_places(&mut out, &v, 1);
    out.append(" ");
    match unit {
        0 => out.append("B"),
        1 => out.append("KiB"),
        2 => out.append("MiB"),
        3 => out.append("GiB"),
        4 => out.append("TiB"),
        _ => out.append("PiB"),
    }
    assert(out@ =~= bytes_text(n as nat));
    out
}

pub open spec fn ns_text(n: nat) -> Seq<char> {
    if n == 0 {
        "0"@
    } else if n < 1_000 {
        text::dec(n) + " ns"@
    } else if n < 1_000_000 {
        with_places(ratio(double(n), double(1_000)), 1) + " us"@
    } else if n < 1_000_000_000 {
        with_places(ratio(double(n), double(1_000_000)), 3) + " ms"@
    } else {
        with_places(ratio(double(n), double(1_000_000_000)), 3) + " s"@
    }
}

/// A duration: `ns` below a microsecond, then `us`, then `ms`, then `s`. Zero
/// prints as `0` rather than `0.000 ms`, because a zero here means "not reported"
/// more often than it means "instant" - and the two must not be confused.
pub fn ns(n: u64) -> (r: String)
    ensures
        r@ == ns_text(n as nat),
{
    let mut out = String::new();
    if n == 0 {
        out.append("0");
        assert(out@ =~= ns_text(n as nat));
        return out;
    }
    if n < 1_000 {
        text::push_dec(&mut out, n as u128);
        out.append(" ns");
        assert(out@ =~= ns_text(n as nat));
        return out;
    }
    let v = Float::whole(n);
    if n < 1_000_000 {
        push_places(&mut out, &v.over(&Float::whole(1_000)), 1);
        out.append(" us");
    } else if n < 1_000_000_000 {
        push_places(&mut out, &v.over(&Float::whole(1_000_000)), 3);
        out.append(" ms");
    } else {
        push_places(&mut out, &v.over(&Float::whole(1_000_000_000)), 3);
        out.append(" s");
    }
    assert(out@ =~= ns_text(n as nat));
    out
}

pub open spec fn mpix_text(pixels: nat, total_ns: nat) -> Seq<char> {
    if total_ns == 0 {
        "0"@
    } else {
        let seconds = ratio(double(total_ns), double(1_000_000_000));
        with_places(ratio(ratio(double(pixels), seconds), double(1_000_000)), 2) + " Mpix/s"@
    }
}

/// Millions of shaded pixels per second - the reference tier's honest unit of
/// work, since its cost is fill, not draw calls.
pub fn mpix_per_sec(pixels: u64, total_ns: u64) -> (r: String)
    ensures
        r@ == mpix_text(pixels as nat, total_ns as nat),
{
    let mut out = String::new();
    if total_ns == 0 {
        out.append("0");
        assert(out@ =~= mpix_text(pixels as nat, total_ns as nat));
        return out;
    }
    if pixels == 0 {
        proof {
            let seconds = ratio(double(total_ns as nat), double(1_000_000_000));
            lemma_zero_quotient(seconds, 2);
            lemma_zero_quotient(double(1_000_000), 2);
        }
        text::push_point(&mut out, 0, 2);
    } else {
        proof {
            lemma2_to64();
            assert(total_ns < pow2(64));
            assert(total_ns >= pow2(0));
            assert(pixels >= pow2(0));
            assert(1_000_000_000 >= pow2(29));
            assert(1_000_000_000 < pow2(30));
            assert(1_000_000 >= pow2(19));
            assert(1_000_000 < pow2(20));
        }
        let seconds = Float::whole(total_ns).over(&Float::whole(1_000_000_000));
        let rate = Float::whole(pixels).over(&seconds).over(&Float::whole(1_000_000));
        push_places(&mut out, &rate, 2);
    }
    out.append(" Mpix/s");
    assert(out@ =~= mpix_text(pixels as nat, total_ns as nat));
    out
}

pub open spec fn fps_text(mean_ns: nat) -> Seq<char> {
    if mean_ns == 0 {
        "0"@
    } else {
        with_places(ratio(double(1_000_000_000), double(mean_ns)), 1)
    }
}

/// Frames per second from a mean frame time.
pub fn fps(mean_ns: u64) -> (r: String)
    ensures
        r@ == fps_text(mean_ns as nat),
{
    let mut out = String::new();
    if mean_ns == 0 {
        out.append("0");
    } else {
        push_places(&mut out, &Float::whole(1_000_000_000).over(&Float::whole(mean_ns)), 1);
    }
    assert(out@ =~= fps_text(mean_ns as nat));
    out
}

/// How far a text goes on with digits and points.
pub open spec fn number_len(t: Seq<char>) -> nat
    decreases t.len(),
{
    if t.len() > 0 && (text::is_digit(t[0]) || t[0] == '.') {
        1 + number_len(t.skip(1))
    } else {
        0
    }
}

/// What a size suffix stands for, as a power of 1024.
pub open spec fn suffix_power(s: Seq<char>) -> Option<nat> {
    if s == ""@ || s == "B"@ {
        Some(0)
    } else if s == "K"@ || s == "KB"@ || s == "KIB"@ {
        Some(1)
    } else if s == "M"@ || s == "MB"@ || s == "MIB"@ {
        Some(2)
    } else if s == "G"@ || s == "GB"@ || s == "GIB"@ {
        Some(3)
    } else if s == "T"@ || s == "TB"@ || s == "TIB"@ {
        Some(4)
    } else {
        None
    }
}

/// A number with a point, as a fraction: its digits over a power of ten.
pub open spec fn fraction(s: Seq<char>) -> Option<(nat, nat)> {
    let dot = s.index_of_first('.')->0;
    let (whole, part) = (s.take(dot), s.skip(dot + 1));
    if part.contains('.') || whole.len() + part.len() == 0 {
        None
    } else {
        Some((text::number(whole + part), text::pow10(part.len())))
    }
}

/// A fraction times `m`, in double precision, without what is left of a byte.
pub open spec fn fraction_of(n: nat, d: nat, m: nat) -> nat {
    let v = rounding::round(53, n, d);
    let size = v.num() * m / v.den();
    if size <= u64::MAX {
        size
    } else {
        u64::MAX as nat
    }
}

/// The size a text names, or what is wrong with it.
pub open spec fn size_in(given: Seq<char>) -> Result<nat, Seq<char>> {
    let t = text::trimmed(given);
    let digits = t.take(number_len(t) as int);
    let suffix = text::uppercase(text::trimmed(t.skip(number_len(t) as int)));
    if digits.len() == 0 {
        Err(
            "`"@ + given
                + "` is not a size: expected a number, optionally followed by K/M/G/T"@,
        )
    } else {
        match suffix_power(suffix) {
            None => Err(
                "`"@ + given + "`: `"@ + suffix
                    + "` is not a size suffix (use B, K, M, G or T)"@,
            ),
            Some(power) => units_in(digits, pow2((10 * power) as nat), given),
        }
    }
}

/// A number of units of `m` bytes each.
pub open spec fn units_in(digits: Seq<char>, m: nat, given: Seq<char>) -> Result<nat, Seq<char>> {
    if digits.contains('.') {
        match fraction(digits) {
            None => Err("`"@ + digits + "` is not a number"@),
            Some((n, d)) => Ok(fraction_of(n, d, m)),
        }
    } else if text::number(digits) > u64::MAX {
        Err("`"@ + digits + "` is not a number"@)
    } else if text::number(digits) * m > u64::MAX {
        Err("`"@ + given + "` overflows"@)
    } else {
        Ok(text::number(digits) * m)
    }
}

fn number_end(t: &Vec<char>, from: usize, to: usize) -> (r: usize)
    requires
        from <= to <= t@.len(),
    ensures
        from <= r <= to,
        r - from == number_len(t@.subrange(from as int, to as int)),
        forall|k: int| from <= k < r ==> text::is_digit(#[trigger] t@[k]) || t@[k] == '.',
{
    let mut i: usize = from;
    while i < to && (('0' <= t[i] && t[i] <= '9') || t[i] == '.')
        invariant
            from <= i <= to <= t@.len(),
            number_len(t@.subrange(from as int, to as int)) == i - from + number_len(
                t@.subrange(i as int, to as int),
            ),
            forall|k: int| from <= k < i ==> text::is_digit(#[trigger] t@[k]) || t@[k] == '.',
        decreases to - i,
    {
        assert(t@.subrange(i as int, to as int).skip(1) =~= t@.subrange(i + 1, to as int));
        i += 1;
    }
    i
}

/// A suffix as a multiplier.
fn multiplier(s: &Vec<char>) -> (r: Option<u64>)
    ensures
        match r {
            Some(m) => suffix_power(s@) is Some && m == pow2((10 * suffix_power(s@)->0) as nat)
                && 1 <= m <= 0x100_0000_0000,
            None => suffix_power(s@) is None,
        },
{
    proof {
        lemma2_to64();
        lemma2_to64_rest();
    }
    if text::spells(s, "") || text::spells(s, "B") {
        Some(1)
    } else if text::spells(s, "K") || text::spells(s, "KB") || text::spells(s, "KIB") {
        Some(0x400)
    } else if text::spells(s, "M") || text::spells(s, "MB") || text::spells(s, "MIB") {
        Some(0x10_0000)
    } else if text::spells(s, "G") || text::spells(s, "GB") || text::spells(s, "GIB") {
        Some(0x4000_0000)
    } else if text::spells(s, "T") || text::spells(s, "TB") || text::spells(s, "TIB") {
        Some(0x100_0000_0000)
    } else {
        None
    }
}

/// Where the next point stands, or `to`.
fn find_point(t: &Vec<char>, from: usize, to: usize) -> (r: usize)
    requires
        from <= to <= t@.len(),
    ensures
        from <= r <= to,
        r < to ==> t@[r as int] == '.',
        forall|k: int| from <= k < r ==> #[trigger] t@[k] != '.',
{
    let mut i: usize = from;
    while i < to && t[i] != '.'
        invariant
            from <= i <= to <= t@.len(),
            forall|k: int| from <= k < i ==> #[trigger] t@[k] != '.',
        decreases to - i,
    {
        i += 1;
    }
    i
}

/// One more digit in front of a decimal fraction: what dividing by ten leaves.
proof fn lemma_one_more_digit(q: nat, w: nat, g: nat, d: nat, k: nat)
    requires
        q > 0,
        g == w * k / q,
    ensures
        (d * k + g) / 10 == (d * q + w) * k / (10 * q),
        ((d * k + g) % 10 != 0 || w * k % q != 0) == ((d * q + w) * k % (10 * q) != 0),
{
    let left = w * k % q;
    lemma_fundamental_div_mod((w * k) as int, q as int);
    lemma_mod_bound((w * k) as int, q as int);
    let v = d * k + g;
    let (h, r) = (v / 10, v % 10);
    let total = (d * q + w) * k;
    assert(total == h * (10 * q) + (r * q + left)) by (nonlinear_arith)
        requires
            total == (d * q + w) * k,
            w * k == q * g + left,
            d * k + g == 10 * h + r,
    {
        assert((d * q + w) * k == d * q * k + w * k);
        assert(d * q * k == (d * k) * q);
        assert((d * k) * q + q * g == (d * k + g) * q);
        assert((10 * h + r) * q == h * (10 * q) + r * q);
    }
    assert(0 <= r * q + left < 10 * q) by (nonlinear_arith)
        requires
            0 <= r <= 9,
            0 <= left < q;
    assert(r * q + left == 0 <==> (r == 0 && left == 0)) by (nonlinear_arith)
        requires
            0 <= r,
            0 <= left,
            q > 0;
    lemma_fundamental_div_mod_converse(total as int, 10 * q as int, h as int, (r * q + left) as int);
}

pub proof fn lemma_pow10_pos(k: nat)
    ensures
        text::pow10(k) > 0,
    decreases k,
{
    if k > 0 {
        lemma_pow10_pos((k - 1) as nat);
    }
}

/// A decimal fraction in units of two to the power -96: the whole units, and
/// whether there is more.
fn fraction_bits(t: &Vec<char>, from: usize, to: usize) -> (r: (u128, bool))
    requires
        from <= to <= t@.len(),
        text::all_digits(t@.subrange(from as int, to as int)),
    ensures
        ({
            let part = t@.subrange(from as int, to as int);
            let n = text::number(part) * pow2(96);
            &&& r.0 == n / text::pow10(part.len())
            &&& r.1 == (n % text::pow10(part.len()) != 0)
        }),
        r.0 < 0x1_0000_0000_0000_0000_0000_0000,
{
    let ghost part = t@.subrange(from as int, to as int);
    let ghost k = pow2(96);
    proof {
        lemma2_to64();
        lemma_pow2_adds(64, 32);
    }
    let mut g: u128 = 0;
    let mut rest = false;
    let mut i: usize = to;
    proof {
        let none = t@.subrange(to as int, to as int);
        assert(text::number(none) * k == 0) by (nonlinear_arith)
            requires
                text::number(none) == 0;
    }
    while i > from
        invariant
            from <= i <= to <= t@.len(),
            part == t@.subrange(from as int, to as int),
            text::all_digits(part),
            k == pow2(96) == 0x1_0000_0000_0000_0000_0000_0000,
            g < 0x1_0000_0000_0000_0000_0000_0000,
            ({
                let tail = t@.subrange(i as int, to as int);
                let n = text::number(tail) * k;
                &&& g == n / text::pow10(tail.len())
                &&& rest == (n % text::pow10(tail.len()) != 0)
            }),
        decreases i - from,
    {
        let ghost tail = t@.subrange(i as int, to as int);
        let ghost before = g;
        i -= 1;
        assert(part[i - from] == t@[i as int]);
        let d: u128 = (t[i] as u32 - '0' as u32) as u128;
        let v: u128 = d * 0x1_0000_0000_0000_0000_0000_0000 + g;
        rest = rest || v % 10 != 0;
        g = v / 10;
        proof {
            let front = seq![t@[i as int]];
            let now = t@.subrange(i as int, to as int);
            assert(now =~= front + tail);
            text::lemma_number_of_two(front, tail);
            assert(front.drop_last() =~= seq![]);
            assert(text::number(front.drop_last()) == 0);
            lemma_pow10_pos(tail.len());
            lemma_one_more_digit(
                text::pow10(tail.len()),
                text::number(tail),
                before as nat,
                d as nat,
                k,
            );
        }
    }
    (g, rest)
}

/// A number with more than 64 bits before its point is more bytes than fit.
proof fn lemma_too_many_bytes(n: nat, d: nat, m: nat)
    requires
        d > 0,
        m > 0,
        n >= 0x1_0000_0000_0000_0000 * d,
    ensures
        fraction_of(n, d, m) == u64::MAX,
{
    let v = rounding::round(53, n, d);
    rounding::lemma_rounded(53, n, d);
    lemma2_to64();
    lemma2_to64_rest();
    assert(rounding::raised(d, 64) == d * pow2(64));
    assert(d * pow2(64) <= n) by (nonlinear_arith)
        requires
            pow2(64) == 0x1_0000_0000_0000_0000,
            n >= 0x1_0000_0000_0000_0000 * d;
    rounding::lemma_binade_of(53, n, d, v.exp, 64);
    let g = pow2(v.exp as nat);
    if v.exp > 12 {
        lemma_pow2_strictly_increases(12, v.exp as nat);
    }
    assert(v.mant * g >= 0x1_0000_0000_0000_0000) by (nonlinear_arith)
        requires
            v.mant >= 0x10_0000_0000_0000,
            g >= 0x1000;
    let x = v.num();
    assert(x * m >= x) by (nonlinear_arith)
        requires
            m >= 1,
            x >= 0;
    assert(x * m / 1 == x * m);
}

/// A number too small for its unit is no byte at all.
proof fn lemma_no_byte(n: nat, d: nat, m: nat)
    requires
        d > 0,
        m <= 0x100_0000_0000,
        n * 0x200_0000_0000 < d,
    ensures
        fraction_of(n, d, m) == 0,
{
    let v = rounding::round(53, n, d);
    lemma2_to64();
    lemma2_to64_rest();
    if n == 0 {
        assert(v.num() * m == 0) by (nonlinear_arith)
            requires
                v.num() == 0;
    } else {
        rounding::lemma_rounded(53, n, d);
        assert(rounding::raised(n, 41) == n * pow2(41));
        rounding::lemma_binade_of(53, n, d, v.exp, -41);
        let t = (-v.exp) as nat;
        assert(v.den() == pow2(t)) by {
            assert(1 * pow2(t) == pow2(t));
        }
        if t > 94 {
            lemma_pow2_strictly_increases(94, t);
        }
        lemma_pow2_adds(64, 30);
        assert(v.mant * m < pow2(t)) by (nonlinear_arith)
            requires
                v.mant <= 0x20_0000_0000_0000,
                m <= 0x100_0000_0000,
                pow2(t) >= 0x1_0000_0000_0000_0000 * 0x4000_0000;
        vstd::arithmetic::div_mod::lemma_basic_div((v.mant * m) as int, pow2(t) as int);
    }
}

/// The fraction that the digits on both sides of a point write, in units of a
/// power of two.
proof fn lemma_both_parts(whole: nat, part: nat, d: nat, g: nat, more: bool)
    requires
        d > 0,
        g == part * pow2(96) / d,
        more == (part * pow2(96) % d != 0),
    ensures
        (whole * d + part) * pow2(63) / d == whole * pow2(63) + g / pow2(33),
        ((whole * d + part) * pow2(63) % d != 0) == (more || g % pow2(33) != 0),
{
    let (a, b, c) = (pow2(33), pow2(63), pow2(96));
    lemma_pow2_adds(33, 63);
    lemma_pow2_pos(33);
    let left = part * c % d;
    lemma_fundamental_div_mod((part * c) as int, d as int);
    lemma_mod_bound((part * c) as int, d as int);
    let (h, r) = (g / a, g % a);
    lemma_fundamental_div_mod(g as int, a as int);
    lemma_mod_bound(g as int, a as int);
    // part * b * a is h * a * d and r * d + left, and the last is under a * d.
    let x = part * b;
    assert(x * a == h * d * a + (r * d + left)) by (nonlinear_arith)
        requires
            x == part * b,
            c == a * b,
            part * c == d * g + left,
            g == a * h + r,
    {
        assert(part * b * a == part * (a * b));
        assert(d * (a * h + r) == h * d * a + r * d);
    }
    assert(0 <= r * d + left < d * a) by (nonlinear_arith)
        requires
            0 <= r <= a - 1,
            0 <= left < d;
    let y = x - h * d;
    assert(y * a == r * d + left) by (nonlinear_arith)
        requires
            x * a == h * d * a + (r * d + left),
            y == x - h * d;
    assert(0 <= y < d) by (nonlinear_arith)
        requires
            0 <= y * a < d * a,
            a > 0;
    assert(y == 0 <==> (r == 0 && left == 0)) by (nonlinear_arith)
        requires
            y * a == r * d + left,
            a > 0,
            d > 0,
            r >= 0,
            left >= 0;
    let n = (whole * d + part) * b;
    let q = whole * b + h;
    assert(n == d * q + y) by (nonlinear_arith)
        requires
            n == (whole * d + part) * b,
            q == whole * b + h,
            x == part * b,
            y == x - h * d,
    {
        assert((whole * d + part) * b == whole * d * b + part * b);
        assert(d * (whole * b + h) == whole * d * b + h * d);
    }
    assert(d * q == q * d) by (nonlinear_arith);
    lemma_fundamental_div_mod_converse(n as int, d as int, q as int, y as int);
}

/// A number of units, from the digits before and after its point.
fn read_fraction(t: &Vec<char>, from: usize, dot: usize, to: usize, m: u64) -> (r: u64)
    requires
        from <= dot < to <= t@.len(),
        text::all_digits(t@.subrange(from as int, dot as int)),
        text::all_digits(t@.subrange(dot + 1, to as int)),
        1 <= m <= 0x100_0000_0000,
    ensures
        ({
            let (whole, part) = (
                t@.subrange(from as int, dot as int),
                t@.subrange(dot + 1, to as int),
            );
            r == fraction_of(text::number(whole + part), text::pow10(part.len()), m as nat)
        }),
{
    let ghost (whole, part) = (t@.subrange(from as int, dot as int), t@.subrange(dot + 1, to as int));
    let ghost n = text::number(whole + part);
    let ghost d = text::pow10(part.len());
    let ghost (w, f) = (text::number(whole), text::number(part));
    proof {
        text::lemma_number_of_two(whole, part);
        lemma_pow10_pos(part.len());
        lemma2_to64();
        lemma2_to64_rest();
        lemma_pow2_adds(64, 32);
    }
    let before = text::read_digits(t, from, dot);
    let (g, more) = fraction_bits(t, dot + 1, to);
    match before {
        None => {
            proof {
                assert(n >= 0x1_0000_0000_0000_0000 * d) by (nonlinear_arith)
                    requires
                        n == w * d + f,
                        w >= 0x1_0000_0000_0000_0000,
                        f >= 0,
                        d > 0;
                lemma_too_many_bytes(n, d, m as nat);
            }
            u64::MAX
        },
        Some(v) => {
            let number = if v == 0 {
                if g < 0x80_0000_0000_0000 {
                    proof {
                        lemma_fundamental_div_mod((f * pow2(96)) as int, d as int);
                        lemma_mod_bound((f * pow2(96)) as int, d as int);
                        assert(n == f) by (nonlinear_arith)
                            requires
                                n == w * d + f,
                                w == 0;
                        assert(n * 0x200_0000_0000 < d) by (nonlinear_arith)
                            requires
                                f * pow2(96) == d * g + f * pow2(96) % d,
                                f * pow2(96) % d < d,
                                g < 0x80_0000_0000_0000,
                                pow2(96) == 0x1_0000_0000_0000_0000_0000_0000,
                                n == f,
                                d > 0;
                        lemma_no_byte(n, d, m as nat);
                    }
                    return 0;
                }
                proof {
                    assert(n == f) by (nonlinear_arith)
                        requires
                            n == w * d + f,
                            w == 0;
                }
                Float::from_parts(g, more, 96, Ghost(n), Ghost(d))
            } else {
                proof {
                    lemma_both_parts(w, f, d, g as nat, more);
                }
                let bits: u128 = v as u128 * 0x8000_0000_0000_0000 + g / 0x2_0000_0000;
                let rest = more || g % 0x2_0000_0000 != 0;
                Float::from_parts(bits, rest, 63, Ghost(n), Ghost(d))
            };
            proof {
                text::lemma_number_fits(part);
                if n == 0 {
                    assert(v == 0) by (nonlinear_arith)
                        requires
                            0 == v * d + f,
                            d > 0,
                            f >= 0,
                            v >= 0;
                    vstd::arithmetic::div_mod::lemma_div_of0(d as int);
                }
                lemma_fraction_is_small(n, d, v as nat, f, number@);
            }
            let size: u128 = number.times(m);
            if size <= u64::MAX as u128 {
                size as u64
            } else {
                u64::MAX
            }
        },
    }
}

/// A number under two to the power 64 has an exponent that says so.
proof fn lemma_fraction_is_small(n: nat, d: nat, w: nat, f: nat, v: Binary)
    requires
        d > 0,
        n > 0,
        n == w * d + f,
        w < 0x1_0000_0000_0000_0000,
        f < d,
        v == rounding::round(53, n, d),
    ensures
        v.exp <= 11,
{
    rounding::lemma_rounded(53, n, d);
    lemma2_to64();
    assert(n < d * pow2(64)) by (nonlinear_arith)
        requires
            n == w * d + f,
            w + 1 <= pow2(64),
            f < d;
    assert(rounding::raised(d, 64) == d * pow2(64));
    rounding::lemma_binade_of(53, n, d, v.exp, 64);
}

fn not_a_number(c: &Vec<char>, from: usize, to: usize) -> (e: String)
    requires
        from <= to <= c@.len(),
    ensures
        e@ == "`"@ + c@.subrange(from as int, to as int) + "` is not a number"@,
{
    let mut e = String::from_str("`");
    text::push_chars(&mut e, c, from, to);
    e.append("` is not a number");
    e
}

/// A number with its first point at `dot`.
fn parse_fraction(c: &Vec<char>, a: usize, dot: usize, b: usize, m: u64) -> (r: Result<u64, String>)
    requires
        a <= dot < b <= c@.len(),
        1 <= m <= 0x100_0000_0000,
        c@[dot as int] == '.',
        forall|k: int| a <= k < dot ==> #[trigger] c@[k] != '.',
        forall|k: int| a <= k < b ==> text::is_digit(#[trigger] c@[k]) || c@[k] == '.',
    ensures
        ({
            let digits = c@.subrange(a as int, b as int);
            &&& digits.contains('.')
            &&& match r {
                Ok(v) => match fraction(digits) {
                    Some((n, d)) => v == fraction_of(n, d, m as nat),
                    None => false,
                },
                Err(e) => fraction(digits) is None && e@ == "`"@ + digits + "` is not a number"@,
            }
        }),
{
    let ghost digits = c@.subrange(a as int, b as int);
    let ghost (whole, part) = (c@.subrange(a as int, dot as int), c@.subrange(dot + 1, b as int));
    proof {
        assert forall|i: int| 0 <= i < dot - a implies #[trigger] digits[i] != '.' by {
            assert(c@[a + i] != '.');
        }
        lemma_first_point(digits, dot - a);
        assert(digits.take(dot - a) =~= whole);
        assert(digits.skip(dot - a + 1) =~= part);
    }
    let again = find_point(c, dot + 1, b);
    if again < b || b - a == 1 {
        proof {
            if again < b {
                assert(part[again - dot - 1] == '.');
            }
        }
        return Err(not_a_number(c, a, b));
    }
    proof {
        assert(!part.contains('.')) by {
            if part.contains('.') {
                let k = part.index_of('.');
                assert(c@[dot + 1 + k] == '.');
            }
        }
        assert forall|k: int| 0 <= k < whole.len() implies text::is_digit(#[trigger] whole[k]) by {
            assert(c@[a + k] != '.');
        }
        assert forall|k: int| 0 <= k < part.len() implies text::is_digit(#[trigger] part[k]) by {
            assert(c@[dot + 1 + k] != '.');
        }
    }
    Ok(read_fraction(c, a, dot, b, m))
}

/// A number of units of `m` bytes each.
fn parse_units(c: &Vec<char>, a: usize, b: usize, m: u64, given: &str) -> (r: Result<u64, String>)
    requires
        a < b <= c@.len(),
        1 <= m <= 0x100_0000_0000,
        forall|k: int| a <= k < b ==> text::is_digit(#[trigger] c@[k]) || c@[k] == '.',
    ensures
        ({
            let digits = c@.subrange(a as int, b as int);
            match r {
                Ok(v) => units_in(digits, m as nat, given@) == Ok::<nat, Seq<char>>(v as nat),
                Err(e) => units_in(digits, m as nat, given@) == Err::<nat, Seq<char>>(e@),
            }
        }),
{
    let ghost digits = c@.subrange(a as int, b as int);
    let dot = find_point(c, a, b);
    if dot < b {
        return parse_fraction(c, a, dot, b, m);
    }
    proof {
        assert(!digits.contains('.')) by {
            if digits.contains('.') {
                let k = digits.index_of('.');
                assert(c@[a + k] == '.');
            }
        }
        assert forall|k: int| 0 <= k < digits.len() implies text::is_digit(
            #[trigger] digits[k],
        ) by {
            assert(c@[a + k] != '.');
        }
    }
    match text::read_digits(c, a, b) {
        None => Err(not_a_number(c, a, b)),
        Some(v) => match v.checked_mul(m) {
            None => {
                let mut e = String::from_str("`");
                e.append(given);
                e.append("` overflows");
                Err(e)
            },
            Some(size) => Ok(size),
        },
    }
}

/// Reads a size: a decimal number with an optional binary suffix.
///
/// `K`/`M`/`G`/`T` and their `B`, `KB`.., `KiB`.. spellings all mean the binary
/// multiplier (1024), so `--ram-cap=64MB` is 64 MiB and matches what [`bytes`]
/// prints back.
pub fn parse_size(given: &str) -> (r: Result<u64, String>)
    ensures
        match r {
            Ok(v) => size_in(given@) == Ok::<nat, Seq<char>>(v as nat),
            Err(e) => size_in(given@) == Err::<nat, Seq<char>>(e@),
        },
{
    let c = text::chars_of(given);
    assert(c@.subrange(0, c@.len() as int) =~= given@);
    let (a, b) = text::trim(&c, 0, c.len());
    let ghost t = text::trimmed(given@);
    let split = number_end(&c, a, b);
    assert(c@.subrange(a as int, split as int) =~= t.take(number_len(t) as int));
    if split == a {
        let mut e = String::from_str("`");
        e.append(given);
        e.append("` is not a size: expected a number, optionally followed by K/M/G/T");
        return Err(e);
    }
    assert(c@.subrange(split as int, b as int) =~= t.skip(number_len(t) as int));
    let (x, y) = text::trim(&c, split, b);
    let suffix = text::to_uppercase(&c, x, y);
    match multiplier(&suffix) {
        Some(m) => parse_units(&c, a, split, m, given),
        None => {
            let mut e = String::from_str("`");
            e.append(given);
            e.append("`: `");
            text::push_chars(&mut e, &suffix, 0, suffix.len());
            assert(suffix@.subrange(0, suffix@.len() as int) =~= suffix@);
            e.append("` is not a size suffix (use B, K, M, G or T)");
            Err(e)
        },
    }
}

proof fn lemma_first_point(s: Seq<char>, k: int)
    requires
        0 <= k < s.len(),
        s[k] == '.',
        forall|i: int| 0 <= i < k ==> #[trigger] s[i] != '.',
    ensures
        s.contains('.'),
        s.index_of_first('.') == Some(k),
{
    assert(s.contains('.'));
    s.index_of_first_ensures('.');
    let i = s.index_of_first('.')->0;
    assert(s[i] == '.');
}

/// Reads an unsigned integer argument, naming it in the error.
pub fn parse_u32(given: &str, what: &str) -> (r: Result<u32, String>)
    ensures
        match r {
            Ok(v) => text::unsigned(given@) == Some(v as nat),
            Err(e) => {
                &&& e@ == "`"@ + given@ + "` is not a valid "@ + what@
                &&& match text::unsigned(given@) {
                    Some(n) => n > u32::MAX,
                    None => true,
                }
            },
        },
{
    match text::read_u32(given) {
        Some(v) => Ok(v),
        None => {
            let mut e = String::from_str("`");
            e.append(given);
            e.append("` is not a valid ");
            e.append(what);
            Err(e)
        },
    }
}

/// What the first argument that starts with `prefix` goes on with.
pub open spec fn value_in(args: Seq<String>, prefix: Seq<char>) -> Option<Seq<char>>
    decreases args.len(),
{
    if args.len() == 0 {
        None
    } else if prefix.is_prefix_of(args[0]@) {
        Some(args[0]@.skip(prefix.len() as int))
    } else {
        value_in(args.skip(1), prefix)
    }
}

/// Does a text start with another?
pub fn starts_with(s: &Vec<char>, prefix: &Vec<char>) -> (r: bool)
    ensures
        r == prefix@.is_prefix_of(s@),
{
    if s.len() < prefix.len() {
        return false;
    }
    let mut i: usize = 0;
    while i < prefix.len()
        invariant
            i <= prefix@.len() <= s@.len(),
            forall|k: int| 0 <= k < i ==> #[trigger] s@[k] == prefix@[k],
        decreases prefix@.len() - i,
    {
        if s[i] != prefix[i] {
            assert(s@.subrange(0, prefix@.len() as int)[i as int] != prefix@[i as int]);
            return false;
        }
        i += 1;
    }
    assert(s@.subrange(0, prefix@.len() as int) =~= prefix@);
    true
}

/// `name=value` lookup over an argument list: `--frames=60` -> `Some("60")`.
pub fn value_of<'a>(args: &'a [String], flag: &str) -> (r: Option<&'a str>)
    ensures
        match r {
            Some(v) => value_in(args@, flag@.push('=')) == Some(v@),
            None => value_in(args@, flag@.push('=')) is None,
        },
{
    let mut prefix = text::chars_of(flag);
    prefix.push('=');
    let mut i: usize = 0;
    assert(args@.skip(0) =~= args@);
    while i < args.len()
        invariant
            i <= args@.len(),
            prefix@ == flag@.push('='),
            value_in(args@, prefix@) == value_in(args@.skip(i as int), prefix@),
        decreases args@.len() - i,
    {
        let c = text::chars_of(args[i].as_str());
        if starts_with(&c, &prefix) {
            let v = args[i].as_str().substring_char(prefix.len(), c.len());
            assert(v@ =~= args@[i as int]@.skip(prefix@.len() as int));
            return Some(v);
        }
        assert(args@.skip(i as int).skip(1) =~= args@.skip(i + 1));
        i += 1;
    }
    None
}

/// A bare flag: `--audit` present -> true.
pub fn has_flag(args: &[String], flag: &str) -> (r: bool)
    ensures
        r == exists|i: int| 0 <= i < args@.len() && #[trigger] args@[i]@ == flag@,
{
    let mut i: usize = 0;
    while i < args.len()
        invariant
            i <= args@.len(),
            forall|k: int| 0 <= k < i ==> #[trigger] args@[k]@ != flag@,
        decreases args@.len() - i,
    {
        if text::same(args[i].as_str(), flag) {
            return true;
        }
        i += 1;
    }
    false
}

/// An argument up to its first equals sign.
pub open spec fn bare(a: Seq<char>) -> Seq<char>
    decreases a.len(),
{
    if a.len() == 0 || a[0] == '=' {
        seq![]
    } else {
        seq![a[0]] + bare(a.skip(1))
    }
}

/// What is wrong with the first argument that is no option in `known`.
pub open spec fn unknown_in(args: Seq<String>, known: Seq<Seq<char>>) -> Option<Seq<char>>
    decreases args.len(),
{
    if args.len() == 0 {
        None
    } else {
        let name = bare(args[0]@);
        if name.len() == 0 || name[0] != '-' {
            Some(
                "unexpected argument `"@ + args[0]@
                    + "` — options take their value with `=`, e.g. --png=FILE"@,
            )
        } else if !known.contains(name) {
            Some("unknown option `"@ + name + "`"@)
        } else {
            unknown_in(args.skip(1), known)
        }
    }
}

fn bare_of(a: &Vec<char>) -> (r: Vec<char>)
    ensures
        r@ == bare(a@),
{
    let mut r: Vec<char> = Vec::new();
    let mut i: usize = 0;
    assert(a@.skip(0) =~= a@);
    assert(r@ + bare(a@) =~= bare(a@));
    while i < a.len() && a[i] != '='
        invariant
            i <= a@.len(),
            bare(a@) == r@ + bare(a@.skip(i as int)),
        decreases a@.len() - i,
    {
        let ghost before = r@;
        r.push(a[i]);
        proof {
            let tail = a@.skip(i as int);
            assert(tail.skip(1) =~= a@.skip(i + 1));
            assert(before + (seq![tail[0]] + bare(tail.skip(1))) =~= r@ + bare(a@.skip(i + 1)));
        }
        i += 1;
    }
    assert(r@ + bare(a@.skip(i as int)) =~= r@);
    r
}

fn knows(known: &[&str], name: &Vec<char>) -> (r: bool)
    ensures
        r == text::texts(known@).contains(name@),
{
    let mut i: usize = 0;
    while i < known.len()
        invariant
            i <= known@.len(),
            forall|k: int| 0 <= k < i ==> #[trigger] known@[k]@ != name@,
        decreases known@.len() - i,
    {
        if text::spells(name, known[i]) {
            assert(text::texts(known@)[i as int] == name@);
            return true;
        }
        i += 1;
    }
    false
}

/// Rejects any argument a tool does not know, so a typo is an error rather than
/// a silently ignored option - which is how a measurement ends up mislabelled.
pub fn reject_unknown(args: &[String], known: &[&str]) -> (r: Result<(), String>)
    ensures
        match r {
            Ok(_) => unknown_in(args@, text::texts(known@)) is None,
            Err(e) => unknown_in(args@, text::texts(known@)) == Some(e@),
        },
{
    let mut i: usize = 0;
    assert(args@.skip(0) =~= args@);
    while i < args.len()
        invariant
            i <= args@.len(),
            unknown_in(args@, text::texts(known@)) == unknown_in(
                args@.skip(i as int),
                text::texts(known@),
            ),
        decreases args@.len() - i,
    {
        let name = bare_of(&text::chars_of(args[i].as_str()));
        if name.len() == 0 || name[0] != '-' {
            // The commonest mistake, and the one a bare "unexpected argument"
            // leaves the caller guessing at: an option's value written as a
            // second argument instead of after an `=`.
            let mut e = String::from_str("unexpected argument `");
            e.append(args[i].as_str());
            e.append("` — options take their value with `=`, e.g. --png=FILE");
            return Err(e);
        }
        if !knows(known, &name) {
            let mut e = String::from_str("unknown option `");
            text::push_chars(&mut e, &name, 0, name.len());
            assert(name@.subrange(0, name@.len() as int) =~= name@);
            e.append("`");
            return Err(e);
        }
        assert(args@.skip(i as int).skip(1) =~= args@.skip(i + 1));
        i += 1;
    }
    Ok(())
}

} // verus!
