//! Colours on the terminal.

use vstd::prelude::*;

verus! {

/// The colour and the weight of a text.
#[derive(Clone, Copy, Debug, PartialEq, Eq, Structural)]
pub enum Tint {
    /// Bold red.
    RedBold,
    /// Bold white.
    WhiteBold,
    /// Dimmed white.
    WhiteDimmed,
    /// Bold yellow.
    YellowBold,
}

/// What switches a colour and a weight on.
pub open spec fn switched_on(tint: Tint) -> Seq<char> {
    match tint {
        Tint::RedBold => "\u{1b}[1;31m"@,
        Tint::WhiteBold => "\u{1b}[1;37m"@,
        Tint::WhiteDimmed => "\u{1b}[2;37m"@,
        Tint::YellowBold => "\u{1b}[1;33m"@,
    }
}

/// The text in colour: switched on before it, and all styles reset after it.
pub open spec fn painted(tint: Tint, text: Seq<char>) -> Seq<char> {
    switched_on(tint) + text + "\u{1b}[0m"@
}

/// Paints a text with `ansi_term`: `Colour::bold` or `Colour::dimmed`, then
/// `Style::paint`, written out with `to_string`. The contract claims that the
/// codes of the style come first (the weight, a semicolon, the colour), then
/// the text as it is, then the code that resets.
#[verifier::external_body]
pub(crate) fn paint(tint: Tint, text: &str) -> (r: String)
    ensures
        r@ == painted(tint, text@),
{
    let style = match tint {
        Tint::RedBold => ansi_term::Color::Red.bold(),
        Tint::WhiteBold => ansi_term::Color::White.bold(),
        Tint::WhiteDimmed => ansi_term::Color::White.dimmed(),
        Tint::YellowBold => ansi_term::Color::Yellow.bold(),
    };
    style.paint(text).to_string()
}

} // verus!
