//! Terminal foreground colors as plain ANSI escape strings.

use vstd::prelude::*;
use vstd::string::*;

verus! {

/// Represents possible terminal colors.
#[derive(Clone, Copy, Debug, PartialEq, Eq, Structural)]
pub enum Color {
    End,
    Blue,
    Green,
    LightGreen,
    Orange,
    Red,
    BrightRed,
    Yellow,
    White,
}

impl Color {
    /// The ANSI escape sequence of each color.
    pub open spec fn ansi_spec(self) -> Seq<char> {
        match self {
            Color::End => "\x1b[0m"@,
            Color::Blue => "\x1b[38;5;81m"@,
            Color::Green => "\x1b[38;5;47m"@,
            Color::LightGreen => "\x1b[38;5;156m"@,
            Color::Orange => "\x1b[38;5;214m"@,
            Color::Red => "\x1b[38;5;203m"@,
            Color::BrightRed => "\x1b[1;38;5;203m"@,
            Color::Yellow => "\x1b[38;5;227m"@,
            Color::White => "\x1b[38;5;231m"@,
        }
    }

    /// Maps the color to the corresponding ANSI escape sequence.
    pub fn as_ansi(&self) -> (r: &'static str)
        ensures
            r@ == self.ansi_spec(),
    {
        match self {
            Color::End => "\x1b[0m",
            Color::Blue => "\x1b[38;5;81m",
            Color::Green => "\x1b[38;5;47m",
            Color::LightGreen => "\x1b[38;5;156m",
            Color::Orange => "\x1b[38;5;214m",
            Color::Red => "\x1b[38;5;203m",
            Color::BrightRed => "\x1b[1;38;5;203m",
            Color::Yellow => "\x1b[38;5;227m",
            Color::White => "\x1b[38;5;231m",
        }
    }
}

/// Responsible for coloring the terminal foreground.
pub struct Foreground;

impl Foreground {
    /// Wraps `what` in the escape sequence of `color`, closed by the reset
    /// sequence, so that a terminal shows it in that color.
    pub fn color(what: &String, color: Color) -> (r: String)
        ensures
            r@ == color.ansi_spec() + what@ + Color::End.ansi_spec(),
    {
        let mut out = String::new();
        out.append(color.as_ansi());
        out.append(what.as_str());
        out.append(Color::End.as_ansi());
        proof {
            assert(out@ =~= color.ansi_spec() + what@ + Color::End.ansi_spec());
        }
        out
    }
}

} // verus!
