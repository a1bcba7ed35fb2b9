//! Decimal rendering of axial coordinates for the per-tile debug label.

use vstd::prelude::*;
use vstd::string::StringExecFns;

verus! {

/// The character of one decimal digit.
pub open spec fn digit_str(d: int) -> Seq<char> {
    if d == 0 {
        "0"@
    } else if d == 1 {
        "1"@
    } else if d == 2 {
        "2"@
    } else if d == 3 {
        "3"@
    } else if d == 4 {
        "4"@
    } else if d == 5 {
        "5"@
    } else if d == 6 {
        "6"@
    } else if d == 7 {
        "7"@
    } else if d == 8 {
        "8"@
    } else {
        "9"@
    }
}

/// Decimal representation of a non-negative integer, most significant
/// digit first, with no leading zeros (a lone zero for zero itself).
pub open spec fn dec_rep(n: int) -> Seq<char>
    recommends
        n >= 0,
    decreases n,
{
    if n < 10 {
        digit_str(n)
    } else {
        dec_rep(n / 10) + digit_str(n % 10)
    }
}

/// Decimal representation of a signed integer: a minus sign before the
/// magnitude for negative values.
pub open spec fn dec_str(x: int) -> Seq<char> {
    if x < 0 {
        "-"@ + dec_rep(-x)
    } else {
        dec_rep(x)
    }
}

/// Appends one decimal digit.
fn push_digit(s: &mut String, d: u32)
    requires
        d < 10,
    ensures
        final(s)@ == old(s)@ + digit_str(d as int),
{
    if d == 0 {
        s.append("0");
    } else if d == 1 {
        s.append("1");
    } else if d == 2 {
        s.append("2");
    } else if d == 3 {
        s.append("3");
    } else if d == 4 {
        s.append("4");
    } else if d == 5 {
        s.append("5");
    } else if d == 6 {
        s.append("6");
    } else if d == 7 {
        s.append("7");
    } else if d == 8 {
        s.append("8");
    } else {
        s.append("9");
    }
}

/// Appends the decimal representation of `n`.
fn push_dec(s: &mut String, n: u32)
    ensures
        final(s)@ == old(s)@ + dec_rep(n as int),
    decreases n,
{
    if n < 10 {
        push_digit(s, n);
    } else {
        proof {
            vstd::arithmetic::div_mod::lemma_div_is_strictly_smaller(n as int, 10);
        }
        push_dec(s, n / 10);
        push_digit(s, n % 10);
        proof {
            assert(old(s)@ + dec_rep(n as int) =~= old(s)@ + dec_rep(n as int / 10) + digit_str(
                n as int % 10,
            ));
        }
    }
}

/// Decimal rendering of a signed coordinate.
pub fn int_to_string(x: i32) -> (s: String)
    ensures
        s@ == dec_str(x as int),
{
    let mut s = String::new();
    if x < 0 {
        s.append("-");
        let m = (-(x as i64)) as u32;
        push_dec(&mut s, m);
        proof {
            assert(s@ =~= dec_str(x as int));
        }
    } else {
        push_dec(&mut s, x as u32);
        proof {
            assert(s@ =~= dec_str(x as int));
        }
    }
    s
}

/// The label drawn on the tile at axial `(q, r)`: the two coordinates in
/// decimal, separated by three spaces.
pub open spec fn label_spec(q: int, r: int) -> Seq<char> {
    dec_str(q) + "   "@ + dec_str(r)
}

/// Renders the label for the tile at axial `(q, r)`.
pub fn coord_label(q: i32, r: i32) -> (s: String)
    ensures
        s@ == label_spec(q as int, r as int),
{
    let mut s = int_to_string(q);
    s.append("   ");
    let rs = int_to_string(r);
    s.append(rs.as_str());
    s
}

} // verus!
