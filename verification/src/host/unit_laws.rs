//! A size that a tool printed means the same when it is read.
use crate::host::arguments;
use crate::host::units;
use crate::rounding;
use crate::text;
use vstd::arithmetic::power2::{
    lemma2_to64, lemma2_to64_rest, lemma_pow2_adds, lemma_pow2_pos, lemma_pow2_strictly_increases,
    pow2,
};
use vstd::prelude::*;

verus! {

/// What is left of a size in a unit below its own.
proof fn lemma_in_unit(m: nat, unit: nat, i: nat)
    requires
        0 < m < 1024,
        i <= unit <= 4,
    ensures
        ({
            let v = units::in_unit(units::double(m * pow2((10 * unit) as nat)), i);
            v.num() == m * pow2((10 * (unit - i)) as nat) * v.den() && v.den() > 0
        }),
{
    let n = m * pow2((10 * unit) as nat);
    lemma2_to64();
    lemma2_to64_rest();
    lemma_pow2_pos((10 * unit) as nat);
    if unit < 4 {
        lemma_pow2_strictly_increases((10 * unit) as nat, 40);
    }
    assert(0 < n < 0x20_0000_0000_0000) by (nonlinear_arith)
        requires
            n == m * pow2((10 * unit) as nat),
            0 < m < 1024,
            0 < pow2((10 * unit) as nat) <= 0x100_0000_0000;
    let whole = units::double(n);
    rounding::lemma_exact(53, n, n, 1);
    rounding::lemma_lowered(whole, (10 * i) as nat);
    let v = units::in_unit(whole, i);
    let (a, b) = (pow2((10 * i) as nat), pow2((10 * (unit - i)) as nat));
    lemma_pow2_adds((10 * i) as nat, (10 * (unit - i)) as nat);
    lemma_pow2_pos((10 * i) as nat);
    let (x, y, z) = (v.num(), v.den(), whole.den());
    let w = m * b * y;
    assert((m * (a * b)) * z * y == (a * z) * w) by (nonlinear_arith)
        requires
            w == m * b * y;
    assert(x * a * z == (a * z) * x) by (nonlinear_arith);
    assert(a * z > 0) by (nonlinear_arith)
        requires
            a > 0,
            z > 0;
    vstd::arithmetic::mul::lemma_mul_equality_converse((a * z) as int, x as int, w as int);
}

/// A whole number of a unit is quoted in that unit.
proof fn lemma_unit_of(m: nat, unit: nat, i: nat)
    requires
        0 < m < 1024,
        i <= unit <= 4,
    ensures
        units::unit_from(units::double(m * pow2((10 * unit) as nat)), i) == unit,
    decreases unit - i,
{
    lemma_in_unit(m, unit, i);
    let value = units::double(m * pow2((10 * unit) as nat));
    let v = units::in_unit(value, i);
    let b = pow2((10 * (unit - i)) as nat);
    lemma2_to64();
    if i < unit {
        if i + 1 < unit {
            lemma_pow2_strictly_increases(10, (10 * (unit - i)) as nat);
        }
        assert(v.num() >= 1024 * v.den()) by (nonlinear_arith)
            requires
                v.num() == m * b * v.den(),
                m >= 1,
                b >= 1024,
                v.den() > 0,
        {
            assert(m * b >= 1024);
        }
        lemma_unit_of(m, unit, i + 1);
    } else {
        assert(v.num() < 1024 * v.den()) by (nonlinear_arith)
            requires
                v.num() == m * b * v.den(),
                m < 1024,
                b == 1,
                v.den() > 0;
    }
}

/// A size is quoted as its number of units, with a zero after the point.
proof fn lemma_quoted(m: nat, unit: nat)
    requires
        0 < m < 1024,
        0 < unit <= 4,
    ensures
        units::bytes_text(m * pow2((10 * unit) as nat)) == text::dec(m) + seq!['.', '0', ' ']
            + units::unit_name(unit),
{
    let n = m * pow2((10 * unit) as nat);
    lemma2_to64();
    if unit > 1 {
        lemma_pow2_strictly_increases(10, (10 * unit) as nat);
    }
    assert(n >= 1024) by (nonlinear_arith)
        requires
            n == m * pow2((10 * unit) as nat),
            m >= 1,
            pow2((10 * unit) as nat) >= 1024;
    lemma_unit_of(m, unit, 0);
    lemma_in_unit(m, unit, unit);
    let v = units::in_unit(units::double(n), unit);
    let d = v.den();
    reveal_with_fuel(text::pow10, 3);
    assert(v.num() * 10 == (10 * m) * d + 0) by (nonlinear_arith)
        requires
            v.num() == m * 1 * d;
    vstd::arithmetic::div_mod::lemma_fundamental_div_mod_converse(
        (v.num() * 10) as int,
        d as int,
        (10 * m) as int,
        0,
    );
    assert(rounding::nearest(v.num() * 10, d) == 10 * m);
    assert(text::point(10 * m, 1) =~= text::dec(m) + seq!['.', '0']) by {
        reveal_with_fuel(text::padded, 2);
        assert((10 * m) / 10 == m);
        assert(text::padded(10 * m, 1) =~= seq!['0']);
    }
    reveal_strlit(" ");
    assert(" "@ =~= seq![' ']);
    assert(units::bytes_text(n) =~= text::dec(m) + seq!['.', '0', ' '] + units::unit_name(unit));
}

/// Nothing to trim where neither end is white space.
proof fn lemma_nothing_to_trim(s: Seq<char>)
    requires
        s.len() > 0,
        !text::is_space(s[0]),
        !text::is_space(s.last()),
    ensures
        text::trimmed(s) == s,
{
}

proof fn lemma_number_len(digits: Seq<char>, rest: Seq<char>)
    requires
        forall|i: int| 0 <= i < digits.len() ==> text::is_digit(#[trigger] digits[i]) || digits[i]
            == '.',
        rest.len() > 0,
        !text::is_digit(rest[0]),
        rest[0] != '.',
    ensures
        units::number_len(digits + rest) == digits.len(),
    decreases digits.len(),
{
    if digits.len() > 0 {
        let tail = digits.skip(1);
        assert forall|i: int| 0 <= i < tail.len() implies text::is_digit(#[trigger] tail[i])
            || tail[i] == '.' by {
            assert(tail[i] == digits[i + 1]);
        }
        lemma_number_len(tail, rest);
        assert((digits + rest).skip(1) =~= tail + rest);
    } else {
        assert(digits + rest =~= rest);
    }
}

/// The names of the units, as a suffix reads them.
proof fn lemma_suffix_of(unit: nat)
    requires
        unit <= 4,
    ensures
        ({
            let name = units::unit_name(unit);
            &&& name.len() > 0
            &&& name.last() == 'B'
            &&& text::trimmed(seq![' '] + name) == name
            &&& units::suffix_power(text::uppercase(name)) == Some(unit)
        }),
{
    let name = units::unit_name(unit);
    reveal_strlit("B");
    reveal_strlit("KiB");
    reveal_strlit("MiB");
    reveal_strlit("GiB");
    reveal_strlit("TiB");
    reveal_strlit("KIB");
    reveal_strlit("MIB");
    reveal_strlit("GIB");
    reveal_strlit("TIB");
    reveal_strlit("");
    reveal_strlit("K");
    reveal_strlit("KB");
    reveal_strlit("M");
    reveal_strlit("MB");
    reveal_strlit("G");
    reveal_strlit("GB");
    reveal_strlit("T");
    reveal_strlit("TB");
    let given = seq![' '] + name;
    assert(given.skip(1) =~= name);
    reveal_with_fuel(text::trimmed_front, 2);
    lemma_nothing_to_trim(name);
    let upper = text::uppercase(name);
    if unit == 0 {
        assert(upper =~= "B"@);
    } else if unit == 1 {
        assert(upper =~= "KIB"@);
    } else if unit == 2 {
        assert(upper =~= "MIB"@);
        assert(upper[0] == 'M');
    } else if unit == 3 {
        assert(upper =~= "GIB"@);
        assert(upper[0] == 'G');
    } else {
        assert(upper =~= "TIB"@);
        assert(upper[0] == 'T');
    }
}

/// A whole number of a binary unit, up to the largest that has a suffix, reads
/// back as the size it was printed from.
pub proof fn law_a_printed_size_reads_back(m: nat, unit: nat)
    requires
        m < 1024,
        unit <= 4,
    ensures
        units::size_in(units::bytes_text(m * pow2((10 * unit) as nat))) == Ok::<nat, Seq<char>>(
            m * pow2((10 * unit) as nat),
        ),
{
    if m == 0 {
        assert(0 * pow2((10 * unit) as nat) == 0);
        assert(0 * pow2(0) == 0);
        lemma_printed_size(0, 0);
    } else {
        lemma_printed_size(m, unit);
    }
}

proof fn lemma_printed_size(m: nat, unit: nat)
    requires
        m < 1024,
        unit <= 4,
        m == 0 ==> unit == 0,
    ensures
        units::size_in(units::bytes_text(m * pow2((10 * unit) as nat))) == Ok::<nat, Seq<char>>(
            m * pow2((10 * unit) as nat),
        ),
{
    lemma2_to64();
    lemma2_to64_rest();
    let n = m * pow2((10 * unit) as nat);
    let name = units::unit_name(unit);
    lemma_suffix_of(unit);
    text::law_decimal_text_reads_back(m);
    text::lemma_dec_is_digits(m);
    let digits = if unit == 0 {
        text::dec(m)
    } else {
        text::dec(m) + seq!['.', '0']
    };
    let rest = seq![' '] + name;
    let given = units::bytes_text(n);
    assert(given =~= digits + rest) by {
        if unit == 0 {
            reveal_strlit(" B");
            reveal_strlit("B");
            assert(m * 1 == m);
            assert(" B"@ =~= rest);
        } else {
            lemma_quoted(m, unit);
        }
    }
    assert(text::is_digit(text::dec(m)[0]));
    assert(given[0] == text::dec(m)[0]);
    assert(given.last() == 'B');
    lemma_nothing_to_trim(given);
    assert forall|i: int| 0 <= i < digits.len() implies text::is_digit(#[trigger] digits[i])
        || digits[i] == '.' by {
        if i < text::dec(m).len() {
            assert(digits[i] == text::dec(m)[i]);
        }
    }
    lemma_number_len(digits, rest);
    assert(given.take(digits.len() as int) =~= digits);
    assert(given.skip(digits.len() as int) =~= rest);
    if unit == 0 {
        assert(!digits.contains('.')) by {
            if digits.contains('.') {
                let k = digits.index_of('.');
                assert(text::is_digit(digits[k]));
            }
        }
        assert(m * 1 == m);
    } else {
        lemma_point_and_zero(m, digits);
        lemma_whole_fraction(m, unit);
    }
}

/// Digits, a point and a zero are ten times the digits, over ten.
proof fn lemma_point_and_zero(m: nat, s: Seq<char>)
    requires
        s == text::dec(m) + seq!['.', '0'],
    ensures
        s.contains('.'),
        units::fraction(s) == Some((10 * m, 10nat)),
{
    let d = text::dec(m);
    text::lemma_dec_is_digits(m);
    assert(s[d.len() as int] == '.');
    s.index_of_first_ensures('.');
    let k = s.index_of_first('.')->0;
    if k < d.len() {
        assert(text::is_digit(d[k]));
        assert(s[k] == d[k]);
    }
    assert(k == d.len()) by {
        if k > d.len() {
            assert(s[k] == '0');
        }
    }
    assert(s.take(k) =~= d);
    let part = s.skip(k + 1);
    assert(part =~= seq!['0']);
    reveal_with_fuel(text::pow10, 2);
    assert((d + part).drop_last() =~= d);
    assert((d + part).last() == '0');
}

proof fn lemma_whole_fraction(m: nat, unit: nat)
    requires
        0 < m < 1024,
        unit <= 4,
    ensures
        units::fraction_of(10 * m, 10, pow2((10 * unit) as nat)) == m * pow2((10 * unit) as nat),
{
    lemma2_to64();
    lemma2_to64_rest();
    let g = pow2((10 * unit) as nat);
    if unit < 4 {
        lemma_pow2_strictly_increases((10 * unit) as nat, 40);
    }
    rounding::lemma_exact(53, m, 10 * m, 10);
    let v = rounding::round(53, 10 * m, 10);
    let d = v.den();
    assert(v.num() * g == (m * g) * d + 0) by (nonlinear_arith)
        requires
            v.num() == m * d;
    assert(m * g <= u64::MAX) by (nonlinear_arith)
        requires
            m < 1024,
            g <= 0x100_0000_0000;
    vstd::arithmetic::div_mod::lemma_fundamental_div_mod_converse(
        (v.num() * g) as int,
        d as int,
        (m * g) as int,
        0,
    );
}

/// Of several values for one option the first counts, and it is all that follows the
/// option's name.
pub proof fn law_the_first_value_counts(args: Seq<String>, prefix: Seq<char>)
    ensures
        match units::value_in(args, prefix) {
            Some(v) => exists|i: int|
                0 <= i < args.len() && (#[trigger] args[i])@ == prefix + v && (forall|j: int|
                    0 <= j < i ==> !prefix.is_prefix_of((#[trigger] args[j])@)),
            None => forall|i: int|
                0 <= i < args.len() ==> !prefix.is_prefix_of((#[trigger] args[i])@),
        },
    decreases args.len(),
{
    if args.len() > 0 {
        let rest = args.skip(1);
        if prefix.is_prefix_of(args[0]@) {
            let v = args[0]@.skip(prefix.len() as int);
            assert(args[0]@ =~= prefix + v);
        } else {
            law_the_first_value_counts(rest, prefix);
            match units::value_in(rest, prefix) {
                Some(v) => {
                    let i = choose|i: int|
                        0 <= i < rest.len() && (#[trigger] rest[i])@ == prefix + v && (forall|
                            j: int,
                        |
                            0 <= j < i ==> !prefix.is_prefix_of((#[trigger] rest[j])@));
                    assert(args[i + 1] == rest[i]);
                    assert forall|j: int| 0 <= j < i + 1 implies !prefix.is_prefix_of(
                        (#[trigger] args[j])@,
                    ) by {
                        if j > 0 {
                            assert(args[j] == rest[j - 1]);
                        }
                    }
                },
                None => {
                    assert forall|i: int| 0 <= i < args.len() implies !prefix.is_prefix_of(
                        (#[trigger] args[i])@,
                    ) by {
                        if i > 0 {
                            assert(args[i] == rest[i - 1]);
                        }
                    }
                },
            }
        }
    }
}

/// The name of an option is all of it up to the first `=`.
pub proof fn law_a_name_ends_at_the_equals_sign(a: Seq<char>)
    ensures
        ({
            let n = units::bare(a);
            &&& n.len() <= a.len()
            &&& n == a.take(n.len() as int)
            &&& !n.contains('=')
            &&& n.len() < a.len() ==> a[n.len() as int] == '='
        }),
    decreases a.len(),
{
    let n = units::bare(a);
    if a.len() > 0 && a[0] != '=' {
        let rest = a.skip(1);
        law_a_name_ends_at_the_equals_sign(rest);
        let m = units::bare(rest);
        assert(n == seq![a[0]] + m);
        assert(a.take(n.len() as int) =~= seq![a[0]] + rest.take(m.len() as int));
        if n.contains('=') {
            let i = choose|i: int| 0 <= i < n.len() && n[i] == '=';
            assert(m[i - 1] == '=');
        }
        if m.len() < rest.len() {
            assert(a[n.len() as int] == rest[m.len() as int]);
        }
    } else {
        assert(a.take(0) =~= seq![]);
    }
}

/// Arguments are accepted exactly when every one of them is an option by its name, and
/// one that is known.
pub proof fn law_only_known_options_are_accepted(args: Seq<String>, known: Seq<Seq<char>>)
    ensures
        units::unknown_in(args, known) is None <==> forall|i: int|
            0 <= i < args.len() ==> {
                let name = units::bare((#[trigger] args[i])@);
                name.len() > 0 && name[0] == '-' && known.contains(name)
            },
    decreases args.len(),
{
    if args.len() > 0 {
        let rest = args.skip(1);
        law_only_known_options_are_accepted(rest, known);
        if units::unknown_in(args, known) is None {
            assert forall|i: int| 0 <= i < args.len() implies {
                let name = units::bare((#[trigger] args[i])@);
                name.len() > 0 && name[0] == '-' && known.contains(name)
            } by {
                if i > 0 {
                    assert(args[i] == rest[i - 1]);
                }
            }
        } else if forall|i: int|
            0 <= i < args.len() ==> {
                let name = units::bare((#[trigger] args[i])@);
                name.len() > 0 && name[0] == '-' && known.contains(name)
            } {
            assert(units::bare(args[0]@).len() > 0);
            assert forall|i: int| 0 <= i < rest.len() implies {
                let name = units::bare((#[trigger] rest[i])@);
                name.len() > 0 && name[0] == '-' && known.contains(name)
            } by {
                assert(rest[i] == args[i + 1]);
            }
        }
    }
}

/// A number that an option is given is the number, or the least that makes sense where
/// it is less; and only what fits 32 bits is one.
pub proof fn law_a_number_is_no_less_than_its_floor(n: nat, what: Seq<char>, floor: u32)
    ensures
        n <= u32::MAX ==> arguments::number(text::dec(n), what, floor) == Ok::<u32, Seq<char>>(
            if n >= floor {
                n as u32
            } else {
                floor
            },
        ),
        n > u32::MAX ==> arguments::number(text::dec(n), what, floor) is Err,
{
    text::law_decimal_text_reads_back(n);
}

/// A size suffix stands for the same power whether it is written as a letter, with a
/// `B` behind it or with `IB`; and the letters go up in steps of 1024.
pub proof fn law_a_suffix_stands_for_its_letter(s: Seq<char>)
    ensures
        s == "K"@ || s == "KB"@ || s == "KIB"@ ==> units::suffix_power(s) == Some(1nat),
        s == "M"@ || s == "MB"@ || s == "MIB"@ ==> units::suffix_power(s) == Some(2nat),
        s == "G"@ || s == "GB"@ || s == "GIB"@ ==> units::suffix_power(s) == Some(3nat),
        s == "T"@ || s == "TB"@ || s == "TIB"@ ==> units::suffix_power(s) == Some(4nat),
        s == ""@ || s == "B"@ ==> units::suffix_power(s) == Some(0nat),
        units::suffix_power(s) is Some && s.len() > 0 ==> s[0] == 'B' || s[0] == 'K' || s[0] == 'M'
            || s[0] == 'G' || s[0] == 'T',
{
    reveal_strlit("");
    reveal_strlit("B");
    reveal_strlit("K");
    reveal_strlit("KB");
    reveal_strlit("KIB");
    reveal_strlit("M");
    reveal_strlit("MB");
    reveal_strlit("MIB");
    reveal_strlit("G");
    reveal_strlit("GB");
    reveal_strlit("GIB");
    reveal_strlit("T");
    reveal_strlit("TB");
    reveal_strlit("TIB");
    assert(""@.len() == 0 && "B"@[0] == 'B');
    assert("K"@[0] == 'K' && "KB"@[0] == 'K' && "KIB"@[0] == 'K');
    assert("M"@[0] == 'M' && "MB"@[0] == 'M' && "MIB"@[0] == 'M');
    assert("G"@[0] == 'G' && "GB"@[0] == 'G' && "GIB"@[0] == 'G');
    assert("T"@[0] == 'T' && "TB"@[0] == 'T' && "TIB"@[0] == 'T');
}

/// A size is quoted in the largest unit of which there is at least one.
pub proof fn law_a_size_is_quoted_in_its_largest_unit(value: rounding::Binary, unit: nat)
    requires
        unit <= 5,
        unit > 0 ==> units::in_unit(value, (unit - 1) as nat).num() >= 1024 * units::in_unit(
            value,
            (unit - 1) as nat,
        ).den(),
    ensures
        ({
            let u = units::unit_from(value, unit);
            &&& unit <= u <= 5
            &&& u < 5 ==> units::in_unit(value, u).num() < 1024 * units::in_unit(value, u).den()
            &&& u > 0 ==> units::in_unit(value, (u - 1) as nat).num() >= 1024 * units::in_unit(
                value,
                (u - 1) as nat,
            ).den()
        }),
    decreases 5 - unit,
{
    let v = units::in_unit(value, unit);
    if unit < 5 && v.num() >= 1024 * v.den() {
        law_a_size_is_quoted_in_its_largest_unit(value, unit + 1);
    }
}

} // verus!
