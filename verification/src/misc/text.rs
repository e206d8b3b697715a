use vstd::prelude::*;
use vstd::string::StringExecFns;

verus! {

/// The digit `d` as text.
pub open spec fn digit_text(d: int) -> Seq<char> {
    if d == 0 {
        "0"@
    } else if d == 1 {
        "1"@
    } else if d == 2 {
        "2"@
    } else if d == 3 {
        "3"@
    } else if d == 4 {
        "4"@
    } else if d == 5 {
        "5"@
    } else if d == 6 {
        "6"@
    } else if d == 7 {
        "7"@
    } else if d == 8 {
        "8"@
    } else {
        "9"@
    }
}

/// The number `n` in decimal digits.
pub open spec fn decimal(n: int) -> Seq<char>
    decreases n,
{
    if n < 10 {
        digit_text(n)
    } else {
        decimal(n / 10) + digit_text(n % 10)
    }
}

/// The count `v` in decimal digits with its sign, filled up with blanks on
/// the left to two characters.
pub open spec fn cell(v: int) -> Seq<char> {
    if v < 0 {
        "-"@ + decimal(-v)
    } else if v < 10 {
        " "@ + decimal(v)
    } else {
        decimal(v)
    }
}

/// The digit `d` as text.
pub fn digit_str(d: u8) -> (s: &'static str)
    requires
        d <= 9,
    ensures
        s@ == digit_text(d as int),
{
    if d == 0 {
        "0"
    } else if d == 1 {
        "1"
    } else if d == 2 {
        "2"
    } else if d == 3 {
        "3"
    } else if d == 4 {
        "4"
    } else if d == 5 {
        "5"
    } else if d == 6 {
        "6"
    } else if d == 7 {
        "7"
    } else if d == 8 {
        "8"
    } else {
        "9"
    }
}

/// Appends `n` in decimal digits.
pub fn append_number(out: &mut String, n: u8)
    ensures
        final(out)@ == old(out)@ + decimal(n as int),
{
    let ghost before = out@;
    if n >= 100 {
        out.append(digit_str(n / 100));
        out.append(digit_str((n / 10) % 10));
        out.append(digit_str(n % 10));
        proof {
            assert(decimal(n as int) == decimal(n as int / 10) + digit_text(n as int % 10));
            assert(decimal(n as int / 10) == decimal(n as int / 100) + digit_text((n as int / 10) % 10));
            assert(out@ =~= before + decimal(n as int));
        }
    } else if n >= 10 {
        out.append(digit_str(n / 10));
        out.append(digit_str(n % 10));
        proof {
            assert(decimal(n as int) == decimal(n as int / 10) + digit_text(n as int % 10));
            assert(out@ =~= before + decimal(n as int));
        }
    } else {
        out.append(digit_str(n));
    }
}

/// Appends the count `v` with its sign, filled up to two characters.
pub fn append_cell(out: &mut String, v: i8)
    requires
        -127 <= v,
    ensures
        final(out)@ == old(out)@ + cell(v as int),
{
    let ghost before = out@;
    if v < 0 {
        out.append("-");
        append_number(out, (-v) as u8);
    } else if v < 10 {
        out.append(" ");
        append_number(out, v as u8);
    } else {
        append_number(out, v as u8);
    }
    proof {
        assert(out@ =~= before + cell(v as int));
    }
}

} // verus!
