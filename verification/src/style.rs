//! The text that a node carries into the markup: its inline style and its
//! label.

use crate::list::Node;
use vstd::prelude::*;
use vstd::string::StringExecFns;

verus! {

/// The character that writes a single decimal digit.
pub open spec fn digit_text(digit: nat) -> Seq<char> {
    if digit == 0 {
        "0"@
    } else if digit == 1 {
        "1"@
    } else if digit == 2 {
        "2"@
    } else if digit == 3 {
        "3"@
    } else if digit == 4 {
        "4"@
    } else if digit == 5 {
        "5"@
    } else if digit == 6 {
        "6"@
    } else if digit == 7 {
        "7"@
    } else if digit == 8 {
        "8"@
    } else {
        "9"@
    }
}

/// A number written in decimal, without sign or leading zeros.
pub open spec fn decimal_text(n: nat) -> Seq<char>
    decreases n,
{
    if n < 10 {
        digit_text(n)
    } else {
        decimal_text(n / 10) + digit_text(n % 10)
    }
}

/// The inline style of a node placed at (`left`, `top`), both in rem.
pub open spec fn style_text(left: nat, top: nat) -> Seq<char> {
    "position: absolute; left: "@ + decimal_text(left) + "rem; top: "@ + decimal_text(top)
        + "rem; background: lightblue; transition: all 1s;"@
}

fn digit_str(digit: usize) -> (text: &'static str)
    requires
        digit < 10,
    ensures
        text@ == digit_text(digit as nat),
{
    if digit == 0 {
        "0"
    } else if digit == 1 {
        "1"
    } else if digit == 2 {
        "2"
    } else if digit == 3 {
        "3"
    } else if digit == 4 {
        "4"
    } else if digit == 5 {
        "5"
    } else if digit == 6 {
        "6"
    } else if digit == 7 {
        "7"
    } else if digit == 8 {
        "8"
    } else {
        "9"
    }
}

/// Appends `n`, written in decimal, to `text`.
pub fn append_decimal(text: &mut String, n: usize)
    ensures
        final(text)@ == old(text)@ + decimal_text(n as nat),
    decreases n,
{
    if n >= 10 {
        append_decimal(text, n / 10);
    }
    text.append(digit_str(n % 10));
}

impl Node {
    /// The inline style that places the node: absolute positioning at its
    /// `left` and `top`, with the demo's colour and transition.
    pub fn style(&self) -> (text: String)
        ensures
            text@ == style_text(self.left as nat, self.top as nat),
    {
        let mut text = String::from_str("position: absolute; left: ");
        append_decimal(&mut text, self.left);
        text.append("rem; top: ");
        append_decimal(&mut text, self.top);
        text.append("rem; background: lightblue; transition: all 1s;");
        text
    }

    /// The text shown inside the node: its key in decimal.
    pub fn label(&self) -> (text: String)
        ensures
            text@ == decimal_text(self.key as nat),
    {
        let mut text = String::new();
        append_decimal(&mut text, self.key as usize);
        text
    }
}

} // verus!
