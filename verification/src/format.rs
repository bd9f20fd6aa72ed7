//! Sizes and counts as text.

use vstd::prelude::*;
use vstd::string::StringExecFns;

verus! {

/// The decimal digit `d` as text.
pub open spec fn digit(d: nat) -> Seq<char> {
    if d == 0 {
        "0"@
    } else if d == 1 {
        "1"@
    } else if d == 2 {
        "2"@
    } else if d == 3 {
        "3"@
    } else if d == 4 {
        "4"@
    } else if d == 5 {
        "5"@
    } else if d == 6 {
        "6"@
    } else if d == 7 {
        "7"@
    } else if d == 8 {
        "8"@
    } else {
        "9"@
    }
}

/// The number `n` in decimal notation, without leading zeros.
pub open spec fn decimal(n: nat) -> Seq<char>
    decreases n,
{
    if n < 10 {
        digit(n)
    } else {
        decimal(n / 10) + digit(n % 10)
    }
}

/// The quotient `n / d` rounded to the nearest whole number, and to the even
/// one of the two where it lies half-way between them.
pub open spec fn round_half_even(n: nat, d: nat) -> nat {
    if 2 * (n % d) > d || (2 * (n % d) == d && (n / d) % 2 == 1) {
        n / d + 1
    } else {
        n / d
    }
}

/// The distance between neighbouring values of a double-precision float at
/// the magnitude of `bytes`: 1 below 2^53, and twice as much for each doubling
/// from there.
pub open spec fn spacing(bytes: nat) -> nat
    decreases bytes,
{
    if bytes < 0x20_0000_0000_0000 {
        1
    } else {
        2 * spacing(bytes / 2)
    }
}

/// The double-precision float nearest to `bytes`, ties going to the one with
/// an even significand.
pub open spec fn nearest_double(bytes: nat) -> nat {
    round_half_even(bytes, spacing(bytes)) * spacing(bytes)
}

/// Which unit a size is shown in: 0 for bytes, up to 4 for terabytes.
pub open spec fn unit_index(bytes: u64) -> nat {
    if bytes < 0x400 {
        0
    } else if bytes < 0x10_0000 {
        1
    } else if bytes < 0x4000_0000 {
        2
    } else if bytes < 0x100_0000_0000 {
        3
    } else {
        4
    }
}

/// The number of bytes in one unit.
pub open spec fn unit_bytes(unit: nat) -> nat {
    if unit == 0 {
        1
    } else if unit == 1 {
        0x400
    } else if unit == 2 {
        0x10_0000
    } else if unit == 3 {
        0x4000_0000
    } else {
        0x100_0000_0000
    }
}

/// The name of a unit.
pub open spec fn unit_name(unit: nat) -> Seq<char> {
    if unit == 0 {
        "B"@
    } else if unit == 1 {
        "KB"@
    } else if unit == 2 {
        "MB"@
    } else if unit == 3 {
        "GB"@
    } else {
        "TB"@
    }
}

/// A size in its unit, in hundredths: the nearest double to `bytes`, divided
/// by the unit and rounded to two decimal places.
pub open spec fn hundredths(bytes: u64) -> nat {
    round_half_even(nearest_double(bytes as nat) * 100, unit_bytes(unit_index(bytes)))
}

/// A size as text. Raw: the number of bytes and the word `bytes`. Human
/// readable: below 1024 the number of bytes and `B`; from there on the size in
/// the largest unit that it fills, up to terabytes, with two decimal places.
pub open spec fn size_text(bytes: u64, human_readable: bool) -> Seq<char> {
    if !human_readable {
        decimal(bytes as nat) + " bytes"@
    } else if bytes < 0x400 {
        decimal(bytes as nat) + " B"@
    } else {
        decimal(hundredths(bytes) / 100) + "."@ + digit(hundredths(bytes) % 100 / 10) + digit(
            hundredths(bytes) % 10,
        ) + " "@ + unit_name(unit_index(bytes))
    }
}

/// The decimal digit `d` as text.
fn digit_str(d: u128) -> (text: &'static str)
    requires
        d < 10,
    ensures
        text@ == digit(d as nat),
{
    if d == 0 {
        "0"
    } else if d == 1 {
        "1"
    } else if d == 2 {
        "2"
    } else if d == 3 {
        "3"
    } else if d == 4 {
        "4"
    } else if d == 5 {
        "5"
    } else if d == 6 {
        "6"
    } else if d == 7 {
        "7"
    } else if d == 8 {
        "8"
    } else {
        "9"
    }
}

/// Appends `n` in decimal notation to `out`.
pub fn push_decimal(out: &mut String, n: u128)
    ensures
        final(out)@ == old(out)@ + decimal(n as nat),
    decreases n,
{
    if n >= 10 {
        push_decimal(out, n / 10);
    }
    out.append(digit_str(n % 10));
}

/// For a size that fits 64 bits the spacing is between 1 and 2048.
pub proof fn lemma_spacing_bounds(bytes: nat)
    requires
        bytes <= u64::MAX,
    ensures
        1 <= spacing(bytes) <= 2048,
{
    reveal_with_fuel(spacing, 13);
}

/// The distance between neighbouring doubles at the magnitude of `bytes`.
fn spacing_of(bytes: u64) -> (step: u128)
    ensures
        step == spacing(bytes as nat),
        1 <= step <= 2048,
{
    let mut rest: u64 = bytes;
    let mut step: u128 = 1;
    proof {
        lemma_spacing_bounds(bytes as nat);
    }
    while rest >= 0x20_0000_0000_0000
        invariant
            step * spacing(rest as nat) == spacing(bytes as nat),
            1 <= step <= 2048,
            spacing(bytes as nat) <= 2048,
        decreases rest,
    {
        proof {
            let half = spacing((rest / 2) as nat);
            lemma_spacing_bounds((rest / 2) as nat);
            assert(spacing(rest as nat) == 2 * half);
            assert(step * (2 * half) == (2 * step) * half) by (nonlinear_arith);
            assert(2 * step <= 2048) by (nonlinear_arith)
                requires
                    (2 * step) * half <= 2048,
                    half >= 1,
                    step >= 1,
            ;
        }
        rest = rest / 2;
        step = step * 2;
    }
    assert(spacing(rest as nat) == 1);
    assert(step * 1 == step);
    step
}

/// The quotient `n / d`, rounded half to even.
fn rounded(n: u128, d: u128) -> (q: u128)
    requires
        d > 0,
        n <= 0xffff_ffff_ffff_ffff_ffff_ffff,
    ensures
        q == round_half_even(n as nat, d as nat),
{
    let whole = n / d;
    let rest = n % d;
    if rest > d - rest || (rest == d - rest && whole % 2 == 1) {
        whole + 1
    } else {
        whole
    }
}

/// Formats a size in bytes as text.
///
/// With `human_readable` the size is scaled to the largest of the units B, KB,
/// MB, GB and TB that it fills, and shown with two decimal places from KB on;
/// without, it is the number of bytes followed by the word `bytes`.
pub fn format_size(bytes: u64, human_readable: bool) -> (text: String)
    ensures
        text@ == size_text(bytes, human_readable),
{
    let mut out = String::new();
    if !human_readable {
        push_decimal(&mut out, bytes as u128);
        out.append(" bytes");
        assert(out@ =~= size_text(bytes, human_readable));
        return out;
    }
    if bytes < 0x400 {
        push_decimal(&mut out, bytes as u128);
        out.append(" B");
        assert(out@ =~= size_text(bytes, human_readable));
        return out;
    }
    let (per_unit, name): (u128, &str) = if bytes < 0x10_0000 {
        (0x400, "KB")
    } else if bytes < 0x4000_0000 {
        (0x10_0000, "MB")
    } else if bytes < 0x100_0000_0000 {
        (0x4000_0000, "GB")
    } else {
        (0x100_0000_0000, "TB")
    };
    let step = spacing_of(bytes);
    let steps = rounded(bytes as u128, step);
    assert(steps * step <= 0x1_0000_0000_0000_0000_0000) by (nonlinear_arith)
        requires
            steps <= 0x1_0000_0000_0000_0000,
            step <= 2048,
    ;
    let nearest = steps * step;
    let scaled = rounded(nearest * 100, per_unit);
    push_decimal(&mut out, scaled / 100);
    out.append(".");
    out.append(digit_str(scaled % 100 / 10));
    out.append(digit_str(scaled % 10));
    out.append(" ");
    out.append(name);
    assert(out@ =~= size_text(bytes, human_readable));
    out
}

} // verus!
