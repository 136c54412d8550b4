//! Text: decimal numbers, and the characters of a string.
use vstd::prelude::*;

verus! {

/// The decimal digit `d`.
pub open spec fn digit_char(d: int) -> char {
    (48 + d) as u8 as char
}

/// `n` in decimal, without leading zeros.
pub open spec fn dec(n: nat) -> Seq<char>
    decreases n,
{
    if n < 10 {
        seq![digit_char(n as int)]
    } else {
        dec(n / 10).push(digit_char((n % 10) as int))
    }
}

/// `String::push` appends the character to the end of the string.
pub assume_specification[ String::push ](s: &mut String, c: char)
    ensures
        final(s)@ == old(s)@.push(c),
;

fn digit(d: u8) -> (c: char)
    requires
        d < 10,
    ensures
        c == digit_char(d as int),
{
    (48 + d) as char
}

/// Appends `n` in decimal.
pub fn push_dec(out: &mut String, n: u128)
    ensures
        final(out)@ == old(out)@ + dec(n as nat),
    decreases n,
{
    if n >= 10 {
        push_dec(out, n / 10);
    }
    out.push(digit((n % 10) as u8));
    assert(out@ =~= old(out)@ + dec(n as nat));
}

/// A signed number in decimal.
pub open spec fn signed_dec(n: int) -> Seq<char> {
    if n < 0 {
        seq!['-'] + dec((-n) as nat)
    } else {
        dec(n as nat)
    }
}

/// Appends a signed number in decimal.
pub fn push_signed(out: &mut String, n: i64)
    ensures
        final(out)@ == old(out)@ + signed_dec(n as int),
{
    if n < 0 {
        out.push('-');
        push_dec(out, (-(n as i128)) as u128);
    } else {
        push_dec(out, n as u128);
    }
    assert(out@ =~= old(out)@ + signed_dec(n as int));
}

/// The characters of a string.
pub fn chars_of(s: &str) -> (r: Vec<char>)
    ensures
        r@ == s@,
{
    let mut r: Vec<char> = Vec::new();
    for c in it: s.chars()
        invariant
            r@ == s@.take(it.index()),
            it.seq() == s@,
    {
        assert(s@.take(it.index() + 1) =~= s@.take(it.index()).push(c));
        r.push(c);
    }
    assert(s@.take(s@.len() as int) =~= s@);
    r
}

/// What some strings hold.
pub open spec fn texts(names: Seq<&str>) -> Seq<Seq<char>> {
    Seq::new(names.len(), |i: int| names[i]@)
}

/// Are two strings the same?
pub fn same(a: &str, b: &str) -> (r: bool)
    ensures
        r == (a@ == b@),
{
    spells(&chars_of(a), b)
}

/// Ten to the power `k`.
pub open spec fn pow10(k: nat) -> nat
    decreases k,
{
    if k == 0 {
        1
    } else {
        10 * pow10((k - 1) as nat)
    }
}

/// The last `k` decimal digits of `n`, zeros in front.
pub open spec fn padded(n: nat, k: nat) -> Seq<char>
    decreases k,
{
    if k == 0 {
        seq![]
    } else {
        padded(n / 10, (k - 1) as nat).push(digit_char((n % 10) as int))
    }
}

/// `n` over ten to the power `k`, in decimal with `k` digits after the point.
pub open spec fn point(n: nat, k: nat) -> Seq<char> {
    dec(n / pow10(k)) + seq!['.'] + padded(n, k)
}

fn push_padded(out: &mut String, n: u128, k: u32)
    ensures
        final(out)@ == old(out)@ + padded(n as nat, k as nat),
    decreases k,
{
    if k > 0 {
        push_padded(out, n / 10, k - 1);
        out.push(digit((n % 10) as u8));
    }
    assert(out@ =~= old(out)@ + padded(n as nat, k as nat));
}

/// Appends `n` over ten to the power `k`, with `k` digits after the point.
pub fn push_point(out: &mut String, n: u128, k: u32)
    requires
        0 < k <= 3,
    ensures
        final(out)@ == old(out)@ + point(n as nat, k as nat),
{
    let scale: u128 = if k == 1 {
        10
    } else if k == 2 {
        100
    } else {
        1000
    };
    proof {
        reveal_with_fuel(pow10, 4);
    }
    push_dec(out, n / scale);
    out.push('.');
    push_padded(out, n, k);
    assert(out@ =~= old(out)@ + point(n as nat, k as nat));
}

pub open spec fn is_digit(c: char) -> bool {
    '0' <= c && c <= '9'
}

pub open spec fn all_digits(s: Seq<char>) -> bool {
    forall|i: int| 0 <= i < s.len() ==> is_digit(#[trigger] s[i])
}

/// The number that decimal digits write.
pub open spec fn number(s: Seq<char>) -> nat
    decreases s.len(),
{
    if s.len() == 0 {
        0
    } else {
        10 * number(s.drop_last()) + (s.last() as nat - '0' as nat) as nat
    }
}

/// The number that a text writes as an unsigned integer: digits, after a plus
/// sign or none.
pub open spec fn unsigned(s: Seq<char>) -> Option<nat> {
    let digits = if s.len() > 0 && s[0] == '+' {
        s.skip(1)
    } else {
        s
    };
    if digits.len() > 0 && all_digits(digits) {
        Some(number(digits))
    } else {
        None
    }
}

pub proof fn lemma_digit(c: char)
    requires
        is_digit(c),
    ensures
        0 <= c as int - '0' as int <= 9,
        digit_char(c as int - '0' as int) == c,
{
}

/// Writing one run of digits after another.
pub proof fn lemma_number_of_two(a: Seq<char>, b: Seq<char>)
    ensures
        number(a + b) == number(a) * pow10(b.len()) + number(b),
    decreases b.len(),
{
    if b.len() == 0 {
        assert(a + b =~= a);
        assert(number(a) * 1 == number(a));
    } else {
        lemma_number_of_two(a, b.drop_last());
        assert((a + b).drop_last() =~= a + b.drop_last());
        let (x, y, z) = (number(a), pow10((b.len() - 1) as nat), number(b.drop_last()));
        assert(10 * (x * y + z) == x * (10 * y) + 10 * z) by (nonlinear_arith);
    }
}

/// Some digits write a number of no more digits.
pub proof fn lemma_number_fits(s: Seq<char>)
    requires
        all_digits(s),
    ensures
        number(s) < pow10(s.len()),
    decreases s.len(),
{
    if s.len() > 0 {
        assert forall|i: int| 0 <= i < s.drop_last().len() implies is_digit(
            #[trigger] s.drop_last()[i],
        ) by {
            assert(s.drop_last()[i] == s[i]);
        }
        lemma_number_fits(s.drop_last());
        lemma_digit(s.last());
    }
}

/// A number reads back as it was written.
pub proof fn law_decimal_text_reads_back(n: nat)
    ensures
        unsigned(dec(n)) == Some(n),
{
    lemma_dec_is_digits(n);
}

pub proof fn lemma_dec_is_digits(n: nat)
    ensures
        dec(n).len() > 0,
        all_digits(dec(n)),
        number(dec(n)) == n,
    decreases n,
{
    if n < 10 {
        assert(dec(n).drop_last() =~= seq![]);
        assert(number(seq![]) == 0);
        assert(digit_char(n as int) as int - '0' as int == n);
    } else {
        lemma_dec_is_digits(n / 10);
        assert(dec(n).drop_last() =~= dec(n / 10));
        assert(digit_char((n % 10) as int) as int - '0' as int == n % 10);
    }
}

/// The number that digits write, or `None` where it exceeds 64 bits.
pub fn read_digits(s: &Vec<char>, from: usize, to: usize) -> (r: Option<u64>)
    requires
        from <= to <= s@.len(),
        all_digits(s@.subrange(from as int, to as int)),
    ensures
        match r {
            Some(v) => v == number(s@.subrange(from as int, to as int)),
            None => number(s@.subrange(from as int, to as int)) > u64::MAX,
        },
{
    let ghost all = s@.subrange(from as int, to as int);
    let mut v: u128 = 0;
    let mut i: usize = from;
    assert(s@.subrange(from as int, from as int) =~= seq![]);
    while i < to
        invariant
            from <= i <= to <= s@.len(),
            all == s@.subrange(from as int, to as int),
            all_digits(all),
            v <= 0x1_0000_0000_0000_0000,
            v <= u64::MAX ==> v == number(s@.subrange(from as int, i as int)),
            v > u64::MAX ==> number(s@.subrange(from as int, i as int)) > u64::MAX,
        decreases to - i,
    {
        let ghost next = s@.subrange(from as int, i + 1);
        assert(next.drop_last() =~= s@.subrange(from as int, i as int));
        assert(next.last() == s@[i as int]);
        assert(all[i - from] == s@[i as int]);
        let d: u128 = (s[i] as u32 - '0' as u32) as u128;
        if v <= u64::MAX as u128 {
            v = v * 10 + d;
            if v > u64::MAX as u128 {
                v = 0x1_0000_0000_0000_0000;
            }
        }
        i += 1;
    }
    if v <= u64::MAX as u128 {
        Some(v as u64)
    } else {
        None
    }
}

fn is_a_digit(c: char) -> (r: bool)
    ensures
        r == is_digit(c),
{
    '0' <= c && c <= '9'
}

/// Is every character of a stretch a digit?
pub fn are_digits(s: &Vec<char>, from: usize, to: usize) -> (r: bool)
    requires
        from <= to <= s@.len(),
    ensures
        r == all_digits(s@.subrange(from as int, to as int)),
{
    let ghost all = s@.subrange(from as int, to as int);
    let mut i: usize = from;
    while i < to
        invariant
            from <= i <= to <= s@.len(),
            all == s@.subrange(from as int, to as int),
            forall|k: int| 0 <= k < i - from ==> is_digit(#[trigger] all[k]),
        decreases to - i,
    {
        if !is_a_digit(s[i]) {
            assert(!is_digit(all[i - from]));
            return false;
        }
        i += 1;
    }
    true
}

/// Reads an unsigned integer that fits 32 bits.
pub fn read_u32(s: &str) -> (r: Option<u32>)
    ensures
        match r {
            Some(v) => unsigned(s@) == Some(v as nat),
            None => match unsigned(s@) {
                Some(n) => n > u32::MAX,
                None => true,
            },
        },
{
    let c = chars_of(s);
    let from: usize = if c.len() > 0 && c[0] == '+' {
        1
    } else {
        0
    };
    assert(c@.subrange(0, c@.len() as int) =~= c@);
    assert(from == 1 ==> c@.subrange(1, c@.len() as int) =~= c@.skip(1));
    if from == c.len() || !are_digits(&c, from, c.len()) {
        return None;
    }
    match read_digits(&c, from, c.len()) {
        Some(v) => if v <= u32::MAX as u64 {
            Some(v as u32)
        } else {
            None
        },
        None => None,
    }
}

/// The characters that Unicode counts as white space.
pub open spec fn is_space(c: char) -> bool {
    ||| '\u{9}' <= c && c <= '\u{d}'
    ||| c == ' '
    ||| c == '\u{85}'
    ||| c == '\u{a0}'
    ||| c == '\u{1680}'
    ||| '\u{2000}' <= c && c <= '\u{200a}'
    ||| c == '\u{2028}'
    ||| c == '\u{2029}'
    ||| c == '\u{202f}'
    ||| c == '\u{205f}'
    ||| c == '\u{3000}'
}

fn is_a_space(c: char) -> (r: bool)
    ensures
        r == is_space(c),
{
    ('\u{9}' <= c && c <= '\u{d}') || c == ' ' || c == '\u{85}' || c == '\u{a0}' || c == '\u{1680}'
        || ('\u{2000}' <= c && c <= '\u{200a}') || c == '\u{2028}' || c == '\u{2029}' || c
        == '\u{202f}' || c == '\u{205f}' || c == '\u{3000}'
}

/// A text without the white space at its front.
pub open spec fn trimmed_front(s: Seq<char>) -> Seq<char>
    decreases s.len(),
{
    if s.len() > 0 && is_space(s[0]) {
        trimmed_front(s.skip(1))
    } else {
        s
    }
}

/// A text without the white space at its end.
pub open spec fn trimmed_back(s: Seq<char>) -> Seq<char>
    decreases s.len(),
{
    if s.len() > 0 && is_space(s.last()) {
        trimmed_back(s.drop_last())
    } else {
        s
    }
}

/// A text without the white space around it.
pub open spec fn trimmed(s: Seq<char>) -> Seq<char> {
    trimmed_back(trimmed_front(s))
}

/// Where the text between two places starts and ends, white space left out.
pub fn trim(s: &Vec<char>, from: usize, to: usize) -> (r: (usize, usize))
    requires
        from <= to <= s@.len(),
    ensures
        from <= r.0 <= r.1 <= to,
        s@.subrange(r.0 as int, r.1 as int) == trimmed(s@.subrange(from as int, to as int)),
{
    let ghost all = s@.subrange(from as int, to as int);
    let mut a: usize = from;
    while a < to && is_a_space(s[a])
        invariant
            from <= a <= to <= s@.len(),
            all == s@.subrange(from as int, to as int),
            trimmed_front(s@.subrange(a as int, to as int)) == trimmed_front(all),
        decreases to - a,
    {
        assert(s@.subrange(a as int, to as int).skip(1) =~= s@.subrange(a + 1, to as int));
        a += 1;
    }
    let ghost front = trimmed_front(all);
    assert(front == s@.subrange(a as int, to as int));
    let mut b: usize = to;
    while a < b && is_a_space(s[b - 1])
        invariant
            from <= a <= b <= to <= s@.len(),
            trimmed_back(s@.subrange(a as int, b as int)) == trimmed_back(front),
        decreases b - a,
    {
        assert(s@.subrange(a as int, b as int).drop_last() =~= s@.subrange(a as int, b - 1));
        b -= 1;
    }
    (a, b)
}

/// The ASCII letters of a text in upper case.
pub open spec fn upper(c: char) -> char {
    if 'a' <= c && c <= 'z' {
        (c as u8 - 32) as u8 as char
    } else {
        c
    }
}

fn to_upper(c: char) -> (r: char)
    ensures
        r == upper(c),
{
    if 'a' <= c && c <= 'z' {
        (c as u8 - 32) as char
    } else {
        c
    }
}

pub open spec fn uppercase(s: Seq<char>) -> Seq<char> {
    Seq::new(s.len(), |i: int| upper(s[i]))
}

/// A stretch of characters in upper case.
pub fn to_uppercase(s: &Vec<char>, from: usize, to: usize) -> (r: Vec<char>)
    requires
        from <= to <= s@.len(),
    ensures
        r@ == uppercase(s@.subrange(from as int, to as int)),
{
    let mut r: Vec<char> = Vec::new();
    let mut i: usize = from;
    while i < to
        invariant
            from <= i <= to <= s@.len(),
            r@ == uppercase(s@.subrange(from as int, i as int)),
        decreases to - i,
    {
        r.push(to_upper(s[i]));
        i += 1;
        assert(r@ =~= uppercase(s@.subrange(from as int, i as int)));
    }
    r
}

/// Do characters spell a text?
pub fn spells(s: &Vec<char>, t: &str) -> (r: bool)
    ensures
        r == (s@ == t@),
{
    let u = chars_of(t);
    if s.len() != u.len() {
        return false;
    }
    let mut i: usize = 0;
    while i < s.len()
        invariant
            i <= s@.len() == u@.len(),
            u@ == t@,
            forall|k: int| 0 <= k < i ==> #[trigger] s@[k] == u@[k],
        decreases s@.len() - i,
    {
        if s[i] != u[i] {
            return false;
        }
        i += 1;
    }
    assert(s@ =~= t@);
    true
}

/// Appends a stretch of characters.
pub fn push_chars(out: &mut String, s: &Vec<char>, from: usize, to: usize)
    requires
        from <= to <= s@.len(),
    ensures
        final(out)@ == old(out)@ + s@.subrange(from as int, to as int),
{
    let mut i: usize = from;
    assert(out@ =~= old(out)@ + s@.subrange(from as int, from as int));
    while i < to
        invariant
            from <= i <= to <= s@.len(),
            out@ == old(out)@ + s@.subrange(from as int, i as int),
        decreases to - i,
    {
        out.push(s[i]);
        i += 1;
        assert(out@ =~= old(out)@ + s@.subrange(from as int, i as int));
    }
}

pub open spec fn blanks(n: int) -> Seq<char> {
    Seq::new(
        if n > 0 {
            n as nat
        } else {
            0
        },
        |i: int| ' ',
    )
}

/// A text in a column of `width` characters, at its left end.
pub open spec fn left(s: Seq<char>, width: int) -> Seq<char> {
    s + blanks(width - s.len())
}

/// A text in a column of `width` characters, at its right end.
pub open spec fn right(s: Seq<char>, width: int) -> Seq<char> {
    blanks(width - s.len()) + s
}

fn push_blanks(out: &mut String, n: usize)
    ensures
        final(out)@ == old(out)@ + blanks(n as int),
{
    let mut i: usize = 0;
    assert(out@ =~= old(out)@ + blanks(0));
    while i < n
        invariant
            i <= n,
            out@ == old(out)@ + blanks(i as int),
        decreases n - i,
    {
        out.push(' ');
        i += 1;
        assert(out@ =~= old(out)@ + blanks(i as int));
    }
}

/// Appends a text at the left end of a column.
pub fn push_left(out: &mut String, s: &str, width: usize)
    ensures
        final(out)@ == old(out)@ + left(s@, width as int),
{
    let n = chars_of(s).len();
    out.append(s);
    push_blanks(
        out,
        if n < width {
            width - n
        } else {
            0
        },
    );
    assert(blanks(0) =~= blanks(width - s@.len()) || n < width);
    assert(out@ =~= old(out)@ + left(s@, width as int));
}

/// Appends a text at the right end of a column.
pub fn push_right(out: &mut String, s: &str, width: usize)
    ensures
        final(out)@ == old(out)@ + right(s@, width as int),
{
    let n = chars_of(s).len();
    push_blanks(
        out,
        if n < width {
            width - n
        } else {
            0
        },
    );
    out.append(s);
    assert(blanks(0) =~= blanks(width - s@.len()) || n < width);
    assert(out@ =~= old(out)@ + right(s@, width as int));
}

/// Trimming takes the spaces off both ends and nothing else: what is left neither
/// starts nor ends with one, and only spaces stood round it.
pub proof fn law_trimming_takes_off_the_spaces_round_a_text(s: Seq<char>)
    ensures
        ({
            let t = trimmed(s);
            &&& t.len() > 0 ==> !is_space(t[0]) && !is_space(t.last())
            &&& exists|a: int, b: int|
                #![trigger s.subrange(a, b)]
                0 <= a <= b <= s.len() && t == s.subrange(a, b) && (forall|i: int|
                    0 <= i < a ==> is_space(#[trigger] s[i])) && (forall|i: int|
                    b <= i < s.len() ==> is_space(#[trigger] s[i]))
        }),
{
    let a = lemma_front(s);
    let f = trimmed_front(s);
    let k = lemma_back(f);
    let b = a + k;
    let t = trimmed(s);
    assert(t =~= s.subrange(a, b));
    assert forall|i: int| b <= i < s.len() implies is_space(#[trigger] s[i]) by {
        assert(s[i] == f[i - a]);
    }
    if t.len() > 0 {
        assert(t[0] == f[0]);
    }
    assert(0 <= a <= b <= s.len() && t == s.subrange(a, b));
}

proof fn lemma_front(s: Seq<char>) -> (a: int)
    ensures
        0 <= a <= s.len(),
        trimmed_front(s) == s.skip(a),
        forall|i: int| 0 <= i < a ==> is_space(#[trigger] s[i]),
        a < s.len() ==> !is_space(s[a]),
    decreases s.len(),
{
    if s.len() > 0 && is_space(s[0]) {
        let rest = s.skip(1);
        let b = lemma_front(rest);
        assert(rest.skip(b) =~= s.skip(b + 1));
        assert forall|i: int| 0 <= i < b + 1 implies is_space(#[trigger] s[i]) by {
            if i > 0 {
                assert(s[i] == rest[i - 1]);
            }
        }
        if b < rest.len() {
            assert(s[b + 1] == rest[b]);
        }
        b + 1
    } else {
        assert(s.skip(0) =~= s);
        0
    }
}

proof fn lemma_back(s: Seq<char>) -> (b: int)
    ensures
        0 <= b <= s.len(),
        trimmed_back(s) == s.take(b),
        forall|i: int| b <= i < s.len() ==> is_space(#[trigger] s[i]),
        b > 0 ==> !is_space(s[b - 1]),
    decreases s.len(),
{
    if s.len() > 0 && is_space(s.last()) {
        let rest = s.drop_last();
        let b = lemma_back(rest);
        assert(rest.take(b) =~= s.take(b));
        assert forall|i: int| b <= i < s.len() implies is_space(#[trigger] s[i]) by {
            if i < rest.len() {
                assert(s[i] == rest[i]);
            }
        }
        if b > 0 {
            assert(s[b - 1] == rest[b - 1]);
        }
        b
    } else {
        assert(s.take(s.len() as int) =~= s);
        s.len() as int
    }
}

/// A padded text is the text with blanks behind it or in front of it, up to the width
/// and no further.
pub proof fn law_padding_fills_up_to_the_width(s: Seq<char>, width: nat)
    ensures
        left(s, width as int).take(s.len() as int) == s,
        right(s, width as int).skip(right(s, width as int).len() - s.len()) == s,
        left(s, width as int).len() == if s.len() < width {
            width
        } else {
            s.len()
        },
        right(s, width as int).len() == left(s, width as int).len(),
        forall|i: int|
            s.len() <= i < width ==> #[trigger] left(s, width as int)[i] == ' ',
        forall|i: int|
            0 <= i < width - s.len() ==> #[trigger] right(s, width as int)[i] == ' ',
{
    assert(left(s, width as int).take(s.len() as int) =~= s);
    assert(right(s, width as int).skip(right(s, width as int).len() - s.len()) =~= s);
}

/// A number with a point and `k` places behind it has its digits round the point: read
/// without it, they are the number.
pub proof fn law_a_point_splits_the_digits(n: nat, k: nat)
    ensures
        ({
            let t = point(n, k);
            let p = t.len() - k - 1;
            &&& p >= 1
            &&& t[p] == '.'
            &&& all_digits(t.take(p))
            &&& all_digits(t.skip(p + 1))
            &&& number(t.take(p)) == n / pow10(k)
            &&& number(t.take(p) + t.skip(p + 1)) == n
        }),
{
    let whole = dec(n / pow10(k));
    let part = padded(n, k);
    let t = point(n, k);
    lemma_padded(n, k);
    lemma_dec_is_digits(n / pow10(k));
    let p = t.len() - k - 1;
    assert(t.take(p) =~= whole);
    assert(t.skip(p + 1) =~= part);
    lemma_number_of_two(whole, part);
    vstd::arithmetic::div_mod::lemma_fundamental_div_mod(n as int, pow10(k) as int);
}

proof fn lemma_padded(n: nat, k: nat)
    ensures
        padded(n, k).len() == k,
        all_digits(padded(n, k)),
        pow10(k) > 0,
        number(padded(n, k)) == n % pow10(k),
    decreases k,
{
    if k > 0 {
        let q = n / 10;
        let m = pow10((k - 1) as nat);
        lemma_padded(q, (k - 1) as nat);
        assert(padded(n, k).drop_last() =~= padded(q, (k - 1) as nat));
        assert(digit_char((n % 10) as int) as int - '0' as int == n % 10);
        vstd::arithmetic::div_mod::lemma_breakdown(n as int, 10, m as int);
    }
}

} // verus!
