//! Small text utilities shared by the other modules.

use vstd::prelude::*;
use vstd::string::*;

verus! {

/// Whether two string slices hold the same characters.
pub fn same_text(a: &str, b: &str) -> (same: bool)
    ensures
        same == (a@ == b@),
{
    let left = String::from_str(a);
    let right = String::from_str(b);
    left == right
}

/// The ten decimal digits, in order.
pub open spec fn decimal_digits() -> Seq<char> {
    "0123456789"@
}

/// The decimal numeral of `n`, without sign or leading zeros.
pub open spec fn decimal(n: nat) -> Seq<char>
    decreases n,
{
    if n < 10 {
        seq![decimal_digits()[n as int]]
    } else {
        decimal(n / 10).push(decimal_digits()[(n % 10) as int])
    }
}

/// Writes `n` as a decimal numeral.
pub fn to_decimal(n: usize) -> (text: String)
    ensures
        text@ == decimal(n as nat),
    decreases n,
{
    let digits = "0123456789";
    proof {
        reveal_strlit("0123456789");
    }
    if n < 10 {
        let digit = digits.substring_char(n, n + 1);
        assert(digit@ =~= seq![decimal_digits()[n as int]]);
        String::from_str(digit)
    } else {
        let mut text = to_decimal(n / 10);
        let digit = digits.substring_char(n % 10, n % 10 + 1);
        text.append(digit);
        assert(text@ =~= decimal((n / 10) as nat).push(decimal_digits()[(n % 10) as int]));
        text
    }
}

} // verus!
