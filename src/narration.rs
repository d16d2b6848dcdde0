//! The lines a philosopher says, and the event it sends when it starts eating.

use vstd::prelude::*;
use vstd::string::StringExecFns;

verus! {

/// The character of the decimal digit `d` (for `d < 10`).
pub open spec fn digit_char(d: nat) -> char {
    seq!['0', '1', '2', '3', '4', '5', '6', '7', '8', '9'][d as int]
}

/// The decimal numeral of `n`: most significant digit first, no sign, no
/// leading zeros.
pub open spec fn decimal(n: nat) -> Seq<char>
    decreases n,
{
    if n < 10 {
        seq![digit_char(n)]
    } else {
        decimal(n / 10).push(digit_char(n % 10))
    }
}

/// `Philosopher <id> is eating`: the narration on starting to eat, and the
/// event sent for it.
pub open spec fn eating_text(id: nat) -> Seq<char> {
    "Philosopher "@ + decimal(id) + " is eating"@
}

/// `Philosopher <id> is thinking`.
pub open spec fn thinking_text(id: nat) -> Seq<char> {
    "Philosopher "@ + decimal(id) + " is thinking"@
}

/// Relies on `ToString::to_string` for `usize`, which goes through its
/// `Display`: the decimal digits of the number, with no sign or padding.
#[verifier::external_body]
fn decimal_string(n: usize) -> (r: String)
    ensures
        r@ == decimal(n as nat),
{
    n.to_string()
}

/// The event a philosopher sends when it starts eating.
pub fn eating_line(id: usize) -> (r: String)
    ensures
        r@ == eating_text(id as nat),
{
    let digits = decimal_string(id);
    let mut line = String::from_str("Philosopher ");
    line.append(digits.as_str());
    line.append(" is eating");
    line
}

/// What a philosopher says before it thinks.
pub fn thinking_line(id: usize) -> (r: String)
    ensures
        r@ == thinking_text(id as nat),
{
    let digits = decimal_string(id);
    let mut line = String::from_str("Philosopher ");
    line.append(digits.as_str());
    line.append(" is thinking");
    line
}

} // verus!
