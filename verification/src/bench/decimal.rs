//! Decimal numbers as they are written: digits, a point, an exponent.
use crate::text;
use crate::text::{all_digits, are_digits, number, pow10};
use vstd::prelude::*;

verus! {

/// A number as digits and a power of ten.
pub struct Decimal {
    pub digits: Seq<char>,
    pub exp: int,
}

impl Decimal {
    /// The number is `num` over `den`.
    pub open spec fn num(self) -> nat {
        if self.exp >= 0 {
            number(self.digits) * pow10(self.exp as nat)
        } else {
            number(self.digits)
        }
    }

    pub open spec fn den(self) -> nat {
        if self.exp >= 0 {
            1
        } else {
            pow10((-self.exp) as nat)
        }
    }
}

/// How many characters stand in front of the first `a` or `b`.
pub open spec fn len_before(s: Seq<char>, a: char, b: char) -> nat
    decreases s.len(),
{
    if s.len() == 0 || s[0] == a || s[0] == b {
        0
    } else {
        1 + len_before(s.skip(1), a, b)
    }
}

pub open spec fn is_signed(s: Seq<char>) -> bool {
    s.len() > 0 && (s[0] == '+' || s[0] == '-')
}

pub open spec fn is_negative(s: Seq<char>) -> bool {
    s.len() > 0 && s[0] == '-'
}

/// A text without its sign.
pub open spec fn unsigned_part(s: Seq<char>) -> Seq<char> {
    if is_signed(s) {
        s.skip(1)
    } else {
        s
    }
}

/// Digits with at most one point among them, and at least one digit.
pub open spec fn mantissa_in(s: Seq<char>) -> Option<Decimal> {
    let p = len_before(s, '.', '.') as int;
    let whole = s.take(p);
    let part = if p < s.len() {
        s.skip(p + 1)
    } else {
        seq![]
    };
    if all_digits(whole) && all_digits(part) && whole.len() + part.len() > 0 {
        Some(Decimal { digits: whole + part, exp: -part.len() })
    } else {
        None
    }
}

/// An integer, with a sign or without.
pub open spec fn exponent_in(s: Seq<char>) -> Option<int> {
    let t = unsigned_part(s);
    if t.len() > 0 && all_digits(t) {
        Some(
            if is_negative(s) {
                -number(t)
            } else {
                number(t) as int
            },
        )
    } else {
        None
    }
}

/// The number a text without a sign writes: a mantissa, and behind an `e` or none
/// an exponent.
pub open spec fn decimal_in(s: Seq<char>) -> Option<Decimal> {
    let e = len_before(s, 'e', 'E') as int;
    match mantissa_in(s.take(e)) {
        None => None,
        Some(m) => if e >= s.len() {
            Some(m)
        } else {
            match exponent_in(s.skip(e + 1)) {
                None => None,
                Some(x) => Some(Decimal { digits: m.digits, exp: m.exp + x }),
            }
        },
    }
}

/// Exponents from here on are as good as any larger one: no text is so long that
/// its digits make up for them.
pub const FAR: i128 = 50_000_000_000_000_000_000;

/// An exponent, or one that is as good: far out on the same side.
pub open spec fn stands_for(e: i128, exp: int) -> bool {
    ||| e == exp
    ||| exp > e >= FAR
    ||| exp < e <= -FAR
}

/// What was read of a number.
pub struct Written {
    pub digits: Vec<char>,
    pub exp: i128,
}

impl Written {
    pub open spec fn writes(&self, d: Decimal) -> bool {
        &&& self.digits@ == d.digits
        &&& all_digits(d.digits)
        &&& stands_for(self.exp, d.exp)
    }
}

/// Where the first `a` or `b` of a stretch stands, or its end.
fn find(s: &Vec<char>, from: usize, to: usize, a: char, b: char) -> (r: usize)
    requires
        from <= to <= s@.len(),
    ensures
        from <= r <= to,
        r - from == len_before(s@.subrange(from as int, to as int), a, b),
{
    let mut i: usize = from;
    let ghost all = s@.subrange(from as int, to as int);
    assert(all.skip(0) =~= all);
    while i < to && s[i] != a && s[i] != b
        invariant
            from <= i <= to <= s@.len(),
            all == s@.subrange(from as int, to as int),
            len_before(all, a, b) == i - from + len_before(all.skip(i - from), a, b),
        decreases to - i,
    {
        assert(all.skip(i - from)[0] == s@[i as int]);
        assert(all.skip(i - from).skip(1) =~= all.skip(i + 1 - from));
        i += 1;
    }
    assert(i < to ==> all.skip(i - from)[0] == s@[i as int]);
    i
}

/// The number that digits write, or 10^20 where it is larger.
fn read_up_to(s: &Vec<char>, from: usize, to: usize) -> (r: i128)
    requires
        from <= to <= s@.len(),
        all_digits(s@.subrange(from as int, to as int)),
    ensures
        0 <= r <= 100_000_000_000_000_000_000,
        r == number(s@.subrange(from as int, to as int)) || (r == 100_000_000_000_000_000_000
            && number(s@.subrange(from as int, to as int)) > r),
{
    let ghost all = s@.subrange(from as int, to as int);
    let limit: i128 = 100_000_000_000_000_000_000;
    let mut v: i128 = 0;
    let mut i: usize = from;
    assert(s@.subrange(from as int, from as int) =~= seq![]);
    while i < to
        invariant
            from <= i <= to <= s@.len(),
            all == s@.subrange(from as int, to as int),
            all_digits(all),
            limit == 100_000_000_000_000_000_000,
            0 <= v <= limit,
            v == number(s@.subrange(from as int, i as int)) || (v == limit && number(
                s@.subrange(from as int, i as int),
            ) > limit),
        decreases to - i,
    {
        let ghost next = s@.subrange(from as int, i + 1);
        assert(next.drop_last() =~= s@.subrange(from as int, i as int));
        assert(next.last() == s@[i as int]);
        assert(all[i - from] == s@[i as int]);
        let d: i128 = (s[i] as u32 - '0' as u32) as i128;
        v = v * 10 + d;
        if v > limit {
            v = limit;
        }
        i += 1;
    }
    v
}

/// Reads an exponent.
fn read_exponent(s: &Vec<char>, from: usize, to: usize) -> (r: Option<i128>)
    requires
        from <= to <= s@.len(),
    ensures
        match exponent_in(s@.subrange(from as int, to as int)) {
            None => r is None,
            Some(x) => r matches Some(v) && (v == x || (x > v == 100_000_000_000_000_000_000) || (x
                < v == -100_000_000_000_000_000_000)),
        },
        r matches Some(v) ==> -100_000_000_000_000_000_000 <= v <= 100_000_000_000_000_000_000,
{
    let ghost all = s@.subrange(from as int, to as int);
    assert(from < to ==> all[0] == s@[from as int]);
    let negative = from < to && s[from] == '-';
    let start: usize = if negative || (from < to && s[from] == '+') {
        from + 1
    } else {
        from
    };
    assert(s@.subrange(start as int, to as int) =~= unsigned_part(all));
    if start == to || !are_digits(s, start, to) {
        return None;
    }
    let v: i128 = read_up_to(s, start, to);
    Some(
        if negative {
            -v
        } else {
            v
        },
    )
}

/// Reads a number without a sign.
pub fn read(s: &Vec<char>, from: usize) -> (r: Option<Written>)
    requires
        from <= s@.len(),
    ensures
        match r {
            Some(w) => decimal_in(s@.skip(from as int)) matches Some(d) && w.writes(d),
            None => decimal_in(s@.skip(from as int)) is None,
        },
{
    let to: usize = s.len();
    let ghost all = s@.skip(from as int);
    assert(s@.subrange(from as int, to as int) =~= all);
    let e: usize = find(s, from, to, 'e', 'E');
    let dot: usize = find(s, from, e, '.', '.');
    let after: usize = if dot < e {
        dot + 1
    } else {
        e
    };
    let ghost m = all.take(e - from);
    proof {
        assert(s@.subrange(from as int, e as int) =~= m);
        assert(s@.subrange(from as int, dot as int) =~= m.take(dot - from));
        assert(dot < e ==> s@.subrange(after as int, e as int) =~= m.skip(dot - from + 1));
        assert(dot == e ==> s@.subrange(after as int, e as int) =~= seq![]);
        assert(e < to ==> s@.subrange(e + 1, to as int) =~= all.skip(e - from + 1));
    }
    if !are_digits(s, from, dot) || !are_digits(s, after, e) || (dot == from && after == e) {
        return None;
    }
    let x: i128 = if e < to {
        match read_exponent(s, e + 1, to) {
            Some(x) => x,
            None => return None,
        }
    } else {
        0
    };
    let mut digits: Vec<char> = Vec::new();
    push_stretch(&mut digits, s, from, dot);
    push_stretch(&mut digits, s, after, e);
    let exp: i128 = x - (e - after) as i128;
    let w = Written { digits, exp };
    proof {
        let d = decimal_in(all)->0;
        assert(w.digits@ =~= m.take(dot - from) + s@.subrange(after as int, e as int));
        assert(all_digits(w.digits@)) by {
            assert forall|i: int| 0 <= i < w.digits@.len() implies text::is_digit(
                #[trigger] w.digits@[i],
            ) by {
                if i < dot - from {
                    assert(w.digits@[i] == s@.subrange(from as int, dot as int)[i]);
                } else {
                    assert(w.digits@[i] == s@.subrange(after as int, e as int)[i - (dot - from)]);
                }
            }
        }
        assert(w.writes(d));
    }
    Some(w)
}

fn push_stretch(out: &mut Vec<char>, s: &Vec<char>, from: usize, to: usize)
    requires
        from <= to <= s@.len(),
    ensures
        final(out)@ == old(out)@ + s@.subrange(from as int, to as int),
{
    let mut i: usize = from;
    assert(out@ =~= old(out)@ + s@.subrange(from as int, from as int));
    while i < to
        invariant
            from <= i <= to <= s@.len(),
            out@ == old(out)@ + s@.subrange(from as int, i as int),
        decreases to - i,
    {
        out.push(s[i]);
        i += 1;
        assert(out@ =~= old(out)@ + s@.subrange(from as int, i as int));
    }
}

pub proof fn lemma_pow10_adds(a: nat, b: nat)
    ensures
        pow10(a + b) == pow10(a) * pow10(b),
        pow10(a) > 0,
    decreases a,
{
    if a == 0 {
        assert(1 * pow10(b) == pow10(b));
    } else {
        lemma_pow10_adds((a - 1) as nat, b);
        let (x, y) = (pow10((a - 1) as nat), pow10(b));
        assert(10 * (x * y) == (10 * x) * y) by (nonlinear_arith);
    }
}

proof fn lemma_pow10_rises(a: nat, b: nat)
    requires
        a <= b,
    ensures
        0 < pow10(a) <= pow10(b),
    decreases b,
{
    lemma_pow10_adds(a, 0);
    if a < b {
        lemma_pow10_rises(a, (b - 1) as nat);
    }
}

pub open spec fn all_zeros(s: Seq<char>) -> bool {
    forall|i: int| 0 <= i < s.len() ==> #[trigger] s[i] == '0'
}

pub proof fn lemma_zeros(s: Seq<char>)
    requires
        all_zeros(s),
    ensures
        number(s) == 0,
    decreases s.len(),
{
    if s.len() > 0 {
        assert forall|i: int| 0 <= i < s.drop_last().len() implies #[trigger] s.drop_last()[i]
            == '0' by {
            assert(s.drop_last()[i] == s[i]);
        }
        lemma_zeros(s.drop_last());
        assert(s[s.len() - 1] == s.last());
    }
}

/// The significant digits of a run: from the first that is not zero to the last.
pub open spec fn significant(s: Seq<char>, a: int, b: int) -> bool {
    &&& 0 <= a < b <= s.len()
    &&& all_zeros(s.take(a))
    &&& all_zeros(s.skip(b))
    &&& s[a] != '0'
    &&& s[b - 1] != '0'
}

/// A run of digits is its significant ones and the zeros behind them.
pub proof fn lemma_significant(s: Seq<char>, a: int, b: int)
    requires
        all_digits(s),
        significant(s, a, b),
    ensures
        ({
            let m = number(s.subrange(a, b));
            &&& number(s) == m * pow10((s.len() - b) as nat)
            &&& pow10((b - a - 1) as nat) <= m < pow10((b - a) as nat)
            &&& (s[a] as int - '0' as int) * pow10((b - a - 1) as nat) <= m
            &&& m < (s[a] as int - '0' as int + 1) * pow10((b - a - 1) as nat)
            &&& m % 10 != 0
        }),
{
    let (head, mid, tail) = (s.take(a), s.subrange(a, b), s.skip(b));
    assert(s =~= head + (mid + tail));
    text::lemma_number_of_two(head, mid + tail);
    text::lemma_number_of_two(mid, tail);
    lemma_zeros(head);
    lemma_zeros(tail);
    assert(0 * pow10((mid + tail).len()) == 0);
    let (first, rest) = (mid.take(1), mid.skip(1));
    assert(mid =~= first + rest);
    text::lemma_number_of_two(first, rest);
    assert(first.drop_last() =~= seq![]);
    assert(number(first.drop_last()) == 0);
    assert(first.last() == s[a]);
    text::lemma_digit(s[a]);
    text::lemma_digit(s[b - 1]);
    assert forall|i: int| 0 <= i < rest.len() implies text::is_digit(#[trigger] rest[i]) by {
        assert(rest[i] == s[a + 1 + i]);
    }
    text::lemma_number_fits(rest);
    let d = s[a] as int - '0' as int;
    let p = pow10((b - a - 1) as nat);
    lemma_pow10_adds((b - a - 1) as nat, 0);
    assert(d * p + number(rest) < (d + 1) * p) by (nonlinear_arith)
        requires
            number(rest) < p;
    assert(p <= d * p) by (nonlinear_arith)
        requires
            d >= 1,
            p >= 0;
    assert((d + 1) * p <= 10 * p) by (nonlinear_arith)
        requires
            d <= 9,
            p >= 0;
    assert(mid.last() == s[b - 1]);
    assert(number(mid) == 10 * number(mid.drop_last()) + (s[b - 1] as nat - '0' as nat));
}

/// Where the point stands among the significant digits decides how large the
/// number is: with more than one digit in front of it, at least ten; with none,
/// under one; with one, the digits over as many tens.
pub proof fn lemma_point(d: Decimal, a: int, b: int)
    requires
        all_digits(d.digits),
        significant(d.digits, a, b),
    ensures
        ({
            let m = number(d.digits.subrange(a, b));
            let z = d.digits.len() - b;
            let front = b - a + z + d.exp;
            &&& d.den() > 0
            &&& front > 1 ==> d.num() > 4 * d.den()
            &&& front < 1 ==> d.num() < d.den()
            &&& front == 1 ==> d.num() == m * pow10(z as nat) && d.den() == pow10(
                (b - a - 1) as nat,
            ) * pow10(z as nat)
        }),
{
    let m = number(d.digits.subrange(a, b));
    let n = b - a;
    let z = d.digits.len() - b;
    let front = n + z + d.exp;
    lemma_significant(d.digits, a, b);
    let (pm, pz) = (pow10((n - 1) as nat), pow10(z as nat));
    lemma_pow10_adds((n - 1) as nat, z as nat);
    lemma_pow10_adds(n as nat, z as nat);
    lemma_pow10_adds(z as nat, 0);
    assert(pm * pz <= m * pz) by (nonlinear_arith)
        requires
            pm <= m,
            pz >= 0;
    assert(m * pz < pow10(n as nat) * pz) by (nonlinear_arith)
        requires
            m < pow10(n as nat),
            pz > 0;
    if d.exp >= 0 {
        let pe = pow10(d.exp as nat);
        lemma_pow10_adds(d.exp as nat, 0);
        lemma_pow10_adds((n - 1 + z) as nat, d.exp as nat);
        assert(pow10((n - 1 + z) as nat) * pe <= (m * pz) * pe) by (nonlinear_arith)
            requires
                pow10((n - 1 + z) as nat) <= m * pz,
                pe >= 0;
        if front > 1 {
            lemma_pow10_rises(1, (n - 1 + z + d.exp) as nat);
            assert(pow10(1) == 10) by {
                reveal_with_fuel(pow10, 2);
            }
        } else {
            assert(n == 1 && z == 0 && d.exp == 0);
            assert((m * pz) * 1 == m * pz);
        }
    } else {
        let pe = pow10((-d.exp) as nat);
        lemma_pow10_adds((-d.exp) as nat, 0);
        if front > 1 {
            lemma_pow10_rises((-d.exp + 1) as nat, (n - 1 + z) as nat);
        } else if front < 1 {
            lemma_pow10_rises((n + z) as nat, (-d.exp) as nat);
        } else {
            assert((-d.exp) as nat == (n - 1 + z) as nat);
        }
    }
}

/// Up to the first of two characters there is what stands before it.
pub proof fn lemma_before_a_mark(a: Seq<char>, mark: char, b: Seq<char>, x: char, y: char)
    requires
        mark == x || mark == y,
        forall|i: int| 0 <= i < a.len() ==> #[trigger] a[i] != x && a[i] != y,
    ensures
        len_before(a + seq![mark] + b, x, y) == a.len(),
    decreases a.len(),
{
    let s = a + seq![mark] + b;
    if a.len() == 0 {
        assert(s[0] == mark);
    } else {
        let rest = a.skip(1);
        assert(s[0] == a[0]);
        assert forall|i: int| 0 <= i < rest.len() implies #[trigger] rest[i] != x && rest[i]
            != y by {
            assert(rest[i] == a[i + 1]);
        }
        lemma_before_a_mark(rest, mark, b, x, y);
        assert(s.skip(1) =~= rest + seq![mark] + b);
    }
}

/// Without either of two characters there is all of it.
pub proof fn lemma_without_a_mark(a: Seq<char>, x: char, y: char)
    requires
        forall|i: int| 0 <= i < a.len() ==> #[trigger] a[i] != x && a[i] != y,
    ensures
        len_before(a, x, y) == a.len(),
    decreases a.len(),
{
    if a.len() > 0 {
        let rest = a.skip(1);
        assert(a[0] != x && a[0] != y);
        assert forall|i: int| 0 <= i < rest.len() implies #[trigger] rest[i] != x && rest[i]
            != y by {
            assert(rest[i] == a[i + 1]);
        }
        lemma_without_a_mark(rest, x, y);
    }
}

/// A decimal is read as it is written: the digits round its point are the number, as
/// many of them behind it as it has places, and an exponent moves the point.
pub proof fn law_a_decimal_is_read_as_it_is_written(n: nat, k: nat, x: nat, e: char)
    requires
        e == 'e' || e == 'E',
    ensures
        ({
            let t = text::point(n, k);
            &&& decimal_in(t) matches Some(d) && number(d.digits) == n && d.exp == -k
            &&& decimal_in(t + seq![e] + text::dec(x)) matches Some(d) && number(d.digits) == n
                && d.exp == x - k
            &&& decimal_in(t + seq![e] + (seq!['-'] + text::dec(x))) matches Some(d) && number(
                d.digits,
            ) == n && d.exp == -(x as int) - k
        }),
{
    let t = text::point(n, k);
    text::law_a_point_splits_the_digits(n, k);
    text::lemma_dec_is_digits(x);
    let p = t.len() - k - 1;
    let (whole, part) = (t.take(p), t.skip(p + 1));
    assert(t =~= whole + seq!['.'] + part);
    assert forall|i: int| 0 <= i < whole.len() implies #[trigger] whole[i] != '.' by {
        assert(text::is_digit(whole[i]));
    }
    lemma_before_a_mark(whole, '.', part, '.', '.');
    assert forall|i: int| 0 <= i < t.len() implies #[trigger] t[i] != 'e' && t[i] != 'E' by {
        if i < p {
            assert(t[i] == whole[i]);
            assert(text::is_digit(whole[i]));
        } else if i > p {
            assert(t[i] == part[i - p - 1]);
            assert(text::is_digit(part[i - p - 1]));
        }
    }
    lemma_without_a_mark(t, 'e', 'E');
    assert(t.take(t.len() as int) =~= t);
    assert(mantissa_in(t) == Some(Decimal { digits: whole + part, exp: -(part.len() as int) }));
    let (up, down) = (text::dec(x), seq!['-'] + text::dec(x));
    let (a, b) = (t + seq![e] + up, t + seq![e] + down);
    lemma_before_a_mark(t, e, up, 'e', 'E');
    lemma_before_a_mark(t, e, down, 'e', 'E');
    assert(a.take(t.len() as int) =~= t && b.take(t.len() as int) =~= t);
    assert(a.skip(t.len() as int + 1) =~= up && b.skip(t.len() as int + 1) =~= down);
    assert(text::is_digit(up[0]));
    assert(unsigned_part(up) == up);
    assert(down.skip(1) =~= up);
}

} // verus!
