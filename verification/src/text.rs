//! Numbers and distances written out for the driver.
use vstd::prelude::*;
use vstd::string::StringExecFns;

verus! {

/// The text of a digit.
pub open spec fn digit_text(d: int) -> Seq<char> {
    if d == 0 {
        "0"@
    } else if d == 1 {
        "1"@
    } else if d == 2 {
        "2"@
    } else if d == 3 {
        "3"@
    } else if d == 4 {
        "4"@
    } else if d == 5 {
        "5"@
    } else if d == 6 {
        "6"@
    } else if d == 7 {
        "7"@
    } else if d == 8 {
        "8"@
    } else {
        "9"@
    }
}

/// The text of a number in decimal digits, without leading zeros.
pub open spec fn decimal_text(n: int) -> Seq<char>
    decreases n,
{
    if n < 10 {
        digit_text(n)
    } else {
        decimal_text(n / 10) + digit_text(n % 10)
    }
}

/// The hundredths of a mile that are nearest to a number of distance
/// units, of which a million make a mile; half a hundredth counts as a
/// whole one.
pub open spec fn hundredths(units: int) -> int {
    units / 10_000 + if units % 10_000 >= 5_000 {
        1int
    } else {
        0int
    }
}

/// The text of a distance in miles, with two digits behind the point.
pub open spec fn miles_text(units: int) -> Seq<char> {
    decimal_text(hundredths(units) / 100) + "."@ + digit_text(hundredths(units) / 10 % 10)
        + digit_text(hundredths(units) % 10)
}

/// The text of the digit `d`.
pub fn digit(d: u8) -> (r: &'static str)
    requires
        d < 10,
    ensures
        r@ == digit_text(d as int),
{
    if d == 0 {
        "0"
    } else if d == 1 {
        "1"
    } else if d == 2 {
        "2"
    } else if d == 3 {
        "3"
    } else if d == 4 {
        "4"
    } else if d == 5 {
        "5"
    } else if d == 6 {
        "6"
    } else if d == 7 {
        "7"
    } else if d == 8 {
        "8"
    } else {
        "9"
    }
}

/// The text of the number `n`.
pub fn number(n: u128) -> (r: String)
    ensures
        r@ == decimal_text(n as int),
    decreases n,
{
    if n < 10 {
        digit(n as u8).to_string()
    } else {
        number(n / 10).concat(digit((n % 10) as u8))
    }
}

/// The text of `units` distance units in miles.
pub fn miles(units: u128) -> (r: String)
    ensures
        r@ == miles_text(units as int),
{
    let h: u128 = units / 10_000 + if units % 10_000 >= 5_000 {
        1
    } else {
        0
    };
    number(h / 100).concat(".").concat(digit((h / 10 % 10) as u8)).concat(digit((h % 10) as u8))
}

} // verus!
