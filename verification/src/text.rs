//! The texts of the table: indentation, numbers and sizes.

use vstd::prelude::*;
use vstd::string::*;

verus! {

/// `n` spaces.
pub open spec fn spaces(n: nat) -> Seq<char> {
    Seq::new(n, |i: int| ' ')
}

/// The indentation of a row at a level: one space for each level after the
/// first.
pub open spec fn indent_of(level: nat) -> Seq<char> {
    if level <= 1 {
        Seq::empty()
    } else {
        spaces((level - 1) as nat)
    }
}

/// The indentation of a row at the given level of the tree.
pub fn indent_prefix_for_level(level: u32) -> (result: String)
    ensures
        result@ == indent_of(level as nat),
{
    let mut result = String::new();
    let mut i: u32 = 1;
    proof {
        reveal_strlit(" ");
    }
    assert(result@ =~= spaces(0));
    while i < level
        invariant
            1 <= i,
            i <= level || i == 1,
            result@ == spaces((i - 1) as nat),
            " "@ == seq![' '],
        decreases level - i,
    {
        result.append(" ");
        i = i + 1;
        assert(result@ =~= spaces((i - 1) as nat));
    }
    assert(result@ =~= indent_of(level as nat));
    result
}

/// The character of a decimal digit.
pub open spec fn digit(d: nat) -> char {
    if d == 0 {
        '0'
    } else if d == 1 {
        '1'
    } else if d == 2 {
        '2'
    } else if d == 3 {
        '3'
    } else if d == 4 {
        '4'
    } else if d == 5 {
        '5'
    } else if d == 6 {
        '6'
    } else if d == 7 {
        '7'
    } else if d == 8 {
        '8'
    } else {
        '9'
    }
}

/// The decimal digits of a number, without leading zeros.
pub open spec fn decimal(n: nat) -> Seq<char>
    decreases n,
{
    if n < 10 {
        seq![digit(n)]
    } else {
        decimal(n / 10).push(digit(n % 10))
    }
}

/// The text of a decimal digit.
fn digit_str(d: u64) -> (r: &'static str)
    requires
        d < 10,
    ensures
        r@ == seq![digit(d as nat)],
{
    proof {
        reveal_strlit("0");
        reveal_strlit("1");
        reveal_strlit("2");
        reveal_strlit("3");
        reveal_strlit("4");
        reveal_strlit("5");
        reveal_strlit("6");
        reveal_strlit("7");
        reveal_strlit("8");
        reveal_strlit("9");
    }
    let r = if d == 0 {
        "0"
    } else if d == 1 {
        "1"
    } else if d == 2 {
        "2"
    } else if d == 3 {
        "3"
    } else if d == 4 {
        "4"
    } else if d == 5 {
        "5"
    } else if d == 6 {
        "6"
    } else if d == 7 {
        "7"
    } else if d == 8 {
        "8"
    } else {
        "9"
    };
    assert(r@ =~= seq![digit(d as nat)]);
    r
}

/// Adds the decimal digits of a number to a text.
pub fn push_decimal(text: &mut String, n: u64)
    ensures
        final(text)@ == old(text)@ + decimal(n as nat),
    decreases n,
{
    if n < 10 {
        text.append(digit_str(n));
    } else {
        push_decimal(text, n / 10);
        text.append(digit_str(n % 10));
        assert(text@ =~= old(text)@ + decimal(n as nat));
    }
}

/// `a / b` rounded to the nearest whole number, a tie going to the even one.
pub open spec fn round_half_even(a: nat, b: nat) -> nat {
    if 2 * (a % b) < b || (2 * (a % b) == b && (a / b) % 2 == 0) {
        a / b
    } else {
        a / b + 1
    }
}

/// The distance between neighbouring double-precision numbers at `n`, where
/// it is more than 1: the power of two that leaves `n` 53 bits.
pub open spec fn spacing_at(n: nat) -> nat
    decreases n,
{
    if n < 0x20_0000_0000_0000 {
        1
    } else {
        2 * spacing_at(n / 2)
    }
}

/// The double-precision number nearest to the whole number `n`.
pub open spec fn nearest_double(n: nat) -> nat {
    round_half_even(n, spacing_at(n)) * spacing_at(n)
}

/// `a` doubled until it reaches `bound`, with the power of two by which it
/// has grown.
pub open spec fn scaled_up(a: nat, bound: nat) -> (nat, nat)
    decreases
            (if a < bound {
                bound - a
            } else {
                0
            }),
{
    if a == 0 || a >= bound {
        (a, 1)
    } else {
        (scaled_up(2 * a, bound).0, 2 * scaled_up(2 * a, bound).1)
    }
}

/// The hundredths in `n / unit` as double-precision arithmetic has them:
/// `n` is taken to the nearest double, the quotient by `unit` to the nearest
/// double with a 53-bit mantissa, and that to the nearest hundredth. Ties go
/// to the even neighbour each time.
pub open spec fn hundredths(n: nat, unit: nat) -> nat {
    let scaled = scaled_up(nearest_double(n), 0x10_0000_0000_0000 * unit);
    let mantissa = round_half_even(scaled.0, unit);
    round_half_even(mantissa * 100, scaled.1)
}

/// A number of hundredths with two decimal places.
pub open spec fn two_places(h: nat) -> Seq<char> {
    decimal(h / 100) + seq!['.', digit((h % 100) / 10), digit(h % 10)]
}

/// A size as a person reads it: in bytes below a thousand, else in KB, MB or
/// GB (powers of a thousand) with two decimal places.
pub open spec fn human_readable(n: nat) -> Seq<char> {
    if n < 1000 {
        decimal(n) + seq![' ', 'b', 'y', 't', 'e', 's']
    } else if n < 1_000_000 {
        two_places(hundredths(n, 1000)) + seq![' ', 'K', 'B']
    } else if n < 1_000_000_000 {
        two_places(hundredths(n, 1_000_000)) + seq![' ', 'M', 'B']
    } else {
        two_places(hundredths(n, 1_000_000_000)) + seq![' ', 'G', 'B']
    }
}

/// `a / b` rounded to the nearest whole number, as `round_half_even` defines
/// it.
fn round_half_even_of(a: u128, b: u128) -> (r: u128)
    requires
        0 < b,
        b <= 0x1_0000_0000_0000_0000_0000_0000,
        a <= 0x1000_0000_0000_0000_0000_0000_0000,
    ensures
        r == round_half_even(a as nat, b as nat),
        r <= a / b + 1,
{
    let q = a / b;
    let rest = a % b;
    if 2 * rest < b || (2 * rest == b && q % 2 == 0) {
        q
    } else {
        q + 1
    }
}

/// The double-precision number nearest to `n`, as `nearest_double` defines
/// it.
fn nearest_double_of(n: u64) -> (r: u128)
    ensures
        r == nearest_double(n as nat),
        r <= n + 0x1000,
        n >= 1 ==> r >= 1,
{
    let mut rest: u64 = n;
    let mut step: u128 = 1;
    while rest >= 0x20_0000_0000_0000
        invariant
            spacing_at(n as nat) == spacing_at(rest as nat) * step,
            1 <= step <= 0x1000,
            rest * step <= n,
            n < (rest + 1) * step,
            step > 1 ==> rest >= 0x10_0000_0000_0000,
        decreases rest,
    {
        proof {
            let half = (rest / 2) as nat;
            assert(spacing_at(rest as nat) == 2 * spacing_at(half));
            assert(spacing_at(rest as nat) * step == spacing_at(half) * (2 * step))
                by (nonlinear_arith)
                requires
                    spacing_at(rest as nat) == 2 * spacing_at(half),
            ;
            assert(half * (2 * step) <= rest * step) by (nonlinear_arith)
                requires
                    half * 2 <= rest,
                    step >= 1,
            ;
            assert((rest + 1) * step <= (half + 1) * (2 * step)) by (nonlinear_arith)
                requires
                    rest + 1 <= (half + 1) * 2,
                    step >= 1,
            ;
            assert(step < 0x800) by (nonlinear_arith)
                requires
                    rest * step <= n,
                    rest >= 0x20_0000_0000_0000,
                    n <= 0xffff_ffff_ffff_ffff,
                    step >= 1,
            ;
        }
        rest = rest / 2;
        step = step * 2;
    }
    assert(spacing_at(rest as nat) == 1);
    assert(spacing_at(n as nat) == step) by (nonlinear_arith)
        requires
            spacing_at(n as nat) == spacing_at(rest as nat) * step,
            spacing_at(rest as nat) == 1,
    ;
    let q = round_half_even_of(n as u128, step);
    proof {
        assert((n as int) / (step as int) == rest) by (nonlinear_arith)
            requires
                rest * step <= n,
                n < (rest + 1) * step,
                step >= 1,
                rest >= 0,
        ;
        assert(q * step <= n + step) by (nonlinear_arith)
            requires
                q <= rest + 1,
                rest * step <= n,
                step >= 1,
                q >= 0,
        ;
        assert(q * step >= q) by (nonlinear_arith)
            requires
                step >= 1,
                q >= 0,
        ;
        if n >= 1 && step == 1 {
            assert(n as int % 1 == 0);
            assert(q == n);
        }
    }
    q * step
}

/// The hundredths in `n / unit`, as `hundredths` defines them.
fn hundredths_of(n: u64, unit: u64) -> (r: u64)
    requires
        1 <= unit <= 1_000_000_000,
        unit <= n,
        n / unit < 0x10_0000_0000,
    ensures
        r == hundredths(n as nat, unit as nat),
{
    let start = nearest_double_of(n);
    let bound: u128 = 0x10_0000_0000_0000u128 * (unit as u128);
    let mut a: u128 = start;
    let mut p: u128 = 1;
    proof {
        assert(n < 0x10_0000_0000 * unit) by (nonlinear_arith)
            requires
                n / unit < 0x10_0000_0000,
                unit >= 1,
        ;
        assert(start < 0x20_0000_0000 * unit) by (nonlinear_arith)
            requires
                start <= n + 0x1000,
                n < 0x10_0000_0000 * unit,
                unit >= 1,
        ;
    }
    while a < bound
        invariant
            1 <= unit <= 1_000_000_000,
            bound == 0x10_0000_0000_0000 * unit,
            1 <= start,
            1 <= a,
            a < 2 * bound,
            1 <= p,
            a == start * p,
            scaled_up(start as nat, bound as nat).0 == scaled_up(a as nat, bound as nat).0,
            scaled_up(start as nat, bound as nat).1 == scaled_up(a as nat, bound as nat).1 * p,
        decreases
                (if a < bound {
                    bound - a
                } else {
                    0
                }),
    {
        proof {
            assert(scaled_up(a as nat, bound as nat).1 * p == scaled_up(
                (2 * a) as nat,
                bound as nat,
            ).1 * (2 * p)) by (nonlinear_arith)
                requires
                    scaled_up(a as nat, bound as nat).1 == 2 * scaled_up(
                        (2 * a) as nat,
                        bound as nat,
                    ).1,
            ;
            assert(2 * a == start * (2 * p)) by (nonlinear_arith)
                requires
                    a == start * p,
            ;
            assert(p <= a) by (nonlinear_arith)
                requires
                    a == start * p,
                    start >= 1,
                    p >= 0,
            ;
        }
        a = a * 2;
        p = p * 2;
    }
    proof {
        assert(p <= a) by (nonlinear_arith)
            requires
                a == start * p,
                start >= 1,
                p >= 0,
        ;
        assert(p >= 0x8000) by (nonlinear_arith)
            requires
                a == start * p,
                a >= 0x10_0000_0000_0000 * unit,
                start < 0x20_0000_0000 * unit,
                unit >= 1,
                p >= 1,
        ;
        assert(a / (unit as u128) < 0x20_0000_0000_0000) by (nonlinear_arith)
            requires
                a < 2 * bound,
                bound == 0x10_0000_0000_0000 * unit,
                unit >= 1,
        ;
    }
    let mantissa = round_half_even_of(a, unit as u128);
    let h = round_half_even_of(mantissa * 100, p);
    proof {
        let x = mantissa * 100;
        assert(x / (p as int) <= 0x1_0000_0000_0000) by (nonlinear_arith)
            requires
                0 <= x <= 0x1_0000_0000_0000 * 0x8000,
                p >= 0x8000,
        ;
    }
    h as u64
}

/// A size as a person reads it, as `human_readable` defines it.
pub fn human_readable_bytes(bytes: u64) -> (result: String)
    ensures
        result@ == human_readable(bytes as nat),
{
    let mut result = String::new();
    proof {
        reveal_strlit(" bytes");
        reveal_strlit(" KB");
        reveal_strlit(" MB");
        reveal_strlit(" GB");
    }
    if bytes < 1000 {
        push_decimal(&mut result, bytes);
        result.append(" bytes");
        assert(result@ =~= human_readable(bytes as nat));
    } else if bytes < 1_000_000 {
        push_two_places(&mut result, hundredths_of(bytes, 1000));
        result.append(" KB");
        assert(result@ =~= human_readable(bytes as nat));
    } else if bytes < 1_000_000_000 {
        push_two_places(&mut result, hundredths_of(bytes, 1_000_000));
        result.append(" MB");
        assert(result@ =~= human_readable(bytes as nat));
    } else {
        push_two_places(&mut result, hundredths_of(bytes, 1_000_000_000));
        result.append(" GB");
        assert(result@ =~= human_readable(bytes as nat));
    }
    result
}

/// Adds a number of hundredths, with two decimal places, to a text.
fn push_two_places(text: &mut String, h: u64)
    ensures
        final(text)@ == old(text)@ + two_places(h as nat),
{
    proof {
        reveal_strlit(".");
    }
    push_decimal(text, h / 100);
    text.append(".");
    text.append(digit_str((h % 100) / 10));
    text.append(digit_str(h % 10));
    assert(text@ =~= old(text)@ + two_places(h as nat));
}

} // verus!
