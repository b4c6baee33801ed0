//! Human-readable byte counts for the host UI: a value scaled to the largest
//! binary unit below it, with two decimal places, rounded to nearest.

use vstd::prelude::*;

verus! {

/// The decimal digit character of `d`.
pub open spec fn digit_char(d: int) -> char {
    if d == 0 {
        '0'
    } else if d == 1 {
        '1'
    } else if d == 2 {
        '2'
    } else if d == 3 {
        '3'
    } else if d == 4 {
        '4'
    } else if d == 5 {
        '5'
    } else if d == 6 {
        '6'
    } else if d == 7 {
        '7'
    } else if d == 8 {
        '8'
    } else {
        '9'
    }
}

/// The decimal digits of a non-negative number, most significant first.
pub open spec fn spec_dec_digits(n: int) -> Seq<char>
    decreases n,
{
    if n < 10 {
        seq![digit_char(n)]
    } else {
        spec_dec_digits(n / 10) + seq![digit_char(n % 10)]
    }
}

/// Hundredths of `b / d`, rounded to nearest (a tie rounds up).
pub open spec fn spec_hundredths(b: int, d: int) -> int {
    (b / d) * 100 + ((b % d) * 100 + d / 2) / d
}

/// The unit index for `bytes`: the largest binary unit at most `bytes`,
/// capped at gigabytes.
pub open spec fn spec_unit_index(bytes: u64) -> int {
    if bytes < 1024 {
        0
    } else if bytes < 1048576 {
        1
    } else if bytes < 1073741824 {
        2
    } else {
        3
    }
}

/// The divisor of unit `i`.
pub open spec fn spec_unit_divisor(i: int) -> int {
    if i == 0 {
        1
    } else if i == 1 {
        1024
    } else if i == 2 {
        1048576
    } else {
        1073741824
    }
}

/// The suffix of unit `i`.
pub open spec fn spec_unit_name(i: int) -> Seq<char> {
    if i == 0 {
        "B"@
    } else if i == 1 {
        "KB"@
    } else if i == 2 {
        "MB"@
    } else {
        "GB"@
    }
}

/// `bytes` rendered for the UI: zero is `0 B`; anything else is its value in
/// the largest unit at most it (capped at gigabytes), with two decimals,
/// rounded to nearest, a space and the unit.
pub open spec fn spec_format_bytes(bytes: u64) -> Seq<char> {
    if bytes == 0 {
        "0 B"@
    } else {
        let i = spec_unit_index(bytes);
        let h = spec_hundredths(bytes as int, spec_unit_divisor(i));
        spec_dec_digits(h / 100) + seq!['.'] + seq![digit_char(h / 10 % 10)] + seq![
            digit_char(h % 10),
        ] + seq![' '] + spec_unit_name(i)
    }
}

/// The digit character of `d`.
fn digit_str(d: u64) -> (r: &'static str)
    requires
        d < 10,
    ensures
        r@ == seq![digit_char(d as int)],
{
    proof {
        reveal_strlit("0");
        reveal_strlit("1");
        reveal_strlit("2");
        reveal_strlit("3");
        reveal_strlit("4");
        reveal_strlit("5");
        reveal_strlit("6");
        reveal_strlit("7");
        reveal_strlit("8");
        reveal_strlit("9");
    }
    let r: &'static str = if d == 0 {
        "0"
    } else if d == 1 {
        "1"
    } else if d == 2 {
        "2"
    } else if d == 3 {
        "3"
    } else if d == 4 {
        "4"
    } else if d == 5 {
        "5"
    } else if d == 6 {
        "6"
    } else if d == 7 {
        "7"
    } else if d == 8 {
        "8"
    } else {
        "9"
    };
    proof {
        assert(r@ =~= seq![digit_char(d as int)]);
    }
    r
}

/// The decimal rendering of `n`.
pub fn u64_to_dec(n: u64) -> (r: String)
    ensures
        r@ == spec_dec_digits(n as int),
    decreases n,
{
    if n < 10 {
        digit_str(n).to_owned()
    } else {
        proof {
            assert(n / 10 < n);
        }
        let mut s = u64_to_dec(n / 10);
        s.append(digit_str(n % 10));
        s
    }
}

/// Renders a byte count for the UI, as `spec_format_bytes` lays it out.
pub fn format_bytes(bytes: u64) -> (r: String)
    ensures
        r@ == spec_format_bytes(bytes),
{
    if bytes == 0 {
        return String::from_str("0 B");
    }
    let (d, unit): (u64, &'static str) = if bytes < 1024 {
        (1, "B")
    } else if bytes < 1048576 {
        (1024, "KB")
    } else if bytes < 1073741824 {
        (1048576, "MB")
    } else {
        (1073741824, "GB")
    };
    proof {
        reveal_strlit("B");
        reveal_strlit("KB");
        reveal_strlit("MB");
        reveal_strlit("GB");
        reveal_strlit(".");
        reveal_strlit(" ");
        assert(d == spec_unit_divisor(spec_unit_index(bytes)));
        assert(unit@ =~= spec_unit_name(spec_unit_index(bytes)));
    }
    let q = bytes / d;
    let rem = bytes % d;
    let h = q * 100 + (rem * 100 + d / 2) / d;
    proof {
        assert(h == spec_hundredths(bytes as int, d as int));
    }
    let mut s = u64_to_dec(h / 100);
    s.append(".");
    s.append(digit_str(h / 10 % 10));
    s.append(digit_str(h % 10));
    s.append(" ");
    s.append(unit);
    proof {
        assert(s@ =~= spec_format_bytes(bytes));
    }
    s
}

} // verus!
