//! Text for the terminal.
use vstd::prelude::*;

use crate::text::{cat3, decimal, number, Text};

verus! {

/// `text` in a colour, by the colour's code.
pub open spec fn coloured(code: Text, text: Text) -> Text {
    code + text + "\x1b[39m"@
}

pub open spec fn in_green(text: Text) -> Text {
    coloured("\x1b[32m"@, text)
}

pub open spec fn in_red(text: Text) -> Text {
    coloured("\x1b[31m"@, text)
}

pub open spec fn in_yellow(text: Text) -> Text {
    coloured("\x1b[33m"@, text)
}

pub open spec fn faint(text: Text) -> Text {
    "\x1b[2m"@ + text + "\x1b[0m"@
}

/// `owo_colors::OwoColorize::green`: the text between the codes that begin and end the colour.
#[verifier::external_body]
pub(crate) fn green(text: &str) -> (result: String)
    ensures
        result@ == in_green(text@),
{
    owo_colors::OwoColorize::green(&text).to_string()
}

/// `owo_colors::OwoColorize::red`: the text between the codes that begin and end the colour.
#[verifier::external_body]
pub(crate) fn red(text: &str) -> (result: String)
    ensures
        result@ == in_red(text@),
{
    owo_colors::OwoColorize::red(&text).to_string()
}

/// `owo_colors::OwoColorize::yellow`: the text between the codes that begin and end the colour.
#[verifier::external_body]
pub(crate) fn yellow(text: &str) -> (result: String)
    ensures
        result@ == in_yellow(text@),
{
    owo_colors::OwoColorize::yellow(&text).to_string()
}

/// `owo_colors::OwoColorize::dimmed`: the text between the codes that begin and end the style.
#[verifier::external_body]
pub(crate) fn dimmed(text: &str) -> (result: String)
    ensures
        result@ == faint(text@),
{
    owo_colors::OwoColorize::dimmed(&text).to_string()
}

/// `text` in yellow between faint ticks.
pub open spec fn in_ticks(text: Text) -> Text {
    faint("`"@) + in_yellow(text) + faint("`"@)
}

/// `text` in yellow between faint ticks.
pub fn ticked(text: &str) -> (result: String)
    ensures
        result@ == in_ticks(text@),
{
    let tick = dimmed("`");
    cat3(tick.as_str(), yellow(text).as_str(), tick.as_str())
}

/// A count in green, and what is counted.
pub open spec fn counted(count: nat, singular: Text, plural: Text) -> Text {
    in_green(decimal(count)) + " "@ + if count == 1 {
        singular
    } else {
        plural
    }
}

/// A count in green, and what is counted.
pub fn plural(count: usize, one: &str, many: &str) -> (result: String)
    ensures
        result@ == counted(count as nat, one@, many@),
{
    cat3(
        green(number(count as u64).as_str()).as_str(),
        " ",
        if count == 1 {
            one
        } else {
            many
        },
    )
}

} // verus!
