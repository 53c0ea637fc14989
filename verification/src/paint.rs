//! Terminal colours for listings, through the `colored` crate.
//!
//! Whether `colored` colours at all depends on the environment (the
//! `CLICOLOR`, `CLICOLOR_FORCE` and `NO_COLOR` variables and whether
//! standard output is a terminal), so each painted string is stated
//! only as one of the two outcomes `colored` can give.
use vstd::prelude::*;

use colored::Colorize;

verus! {

/// The escape sequence that ends a colour.
pub open spec fn ansi_reset() -> Seq<char> {
    seq!['\u{1b}', '[', '0', 'm']
}

/// The escape sequence that starts the style with SGR parameters `code`.
pub open spec fn ansi_start(code: Seq<char>) -> Seq<char> {
    seq!['\u{1b}', '['] + code + seq!['m']
}

/// `s` with the style start `start` put back after each reset sequence
/// that it holds, found from left to right: a painted string nested in
/// another thus gives the outer style back where it ends.
pub open spec fn restyle(s: Seq<char>, start: Seq<char>) -> Seq<char>
    decreases s.len(),
{
    if s.len() == 0 {
        s
    } else if s.len() >= 4 && s.take(4) == ansi_reset() {
        ansi_reset() + start + restyle(s.skip(4), start)
    } else {
        seq![s[0]] + restyle(s.skip(1), start)
    }
}

/// `out` is `plain` as `colored` shows it with style `code`: either
/// unchanged (colours off), or the style's start, `plain` with the style
/// put back after each reset of its own, and the reset.
pub open spec fn painted(plain: Seq<char>, out: Seq<char>, code: Seq<char>) -> bool {
    out == plain || out == ansi_start(code) + restyle(plain, ansi_start(code)) + ansi_reset()
}

/// SGR parameters of bold blue.
pub open spec fn bold_blue() -> Seq<char> {
    seq!['1', ';', '3', '4']
}

/// SGR parameters of blue.
pub open spec fn blue() -> Seq<char> {
    seq!['3', '4']
}

/// SGR parameters of green.
pub open spec fn green() -> Seq<char> {
    seq!['3', '2']
}

/// SGR parameters of bold green.
pub open spec fn bold_green() -> Seq<char> {
    seq!['1', ';', '3', '2']
}

/// `s.blue().bold().to_string()` of `colored`: `s` in bold blue, or `s`
/// itself when colours are off.
#[verifier::external_body]
pub(crate) fn paint_bold_blue(s: &str) -> (r: String)
    ensures
        painted(s@, r@, bold_blue()),
{
    s.blue().bold().to_string()
}

/// `s.blue().to_string()` of `colored`: `s` in blue, or `s` itself when
/// colours are off.
#[verifier::external_body]
pub(crate) fn paint_blue(s: &str) -> (r: String)
    ensures
        painted(s@, r@, blue()),
{
    s.blue().to_string()
}

/// `s.green().to_string()` of `colored`: `s` in green, or `s` itself
/// when colours are off.
#[verifier::external_body]
pub(crate) fn paint_green(s: &str) -> (r: String)
    ensures
        painted(s@, r@, green()),
{
    s.green().to_string()
}

/// `s.green().bold().to_string()` of `colored` (the same as
/// `s.bold().green()`): `s` in bold green, or `s` itself when colours are
/// off.
#[verifier::external_body]
pub(crate) fn paint_bold_green(s: &str) -> (r: String)
    ensures
        painted(s@, r@, bold_green()),
{
    s.green().bold().to_string()
}

} // verus!
