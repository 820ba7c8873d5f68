use vstd::prelude::*;

verus! {

/// The colour of a stone, or of the side whose turn it is.
#[derive(Debug, Clone, Copy, PartialEq, Eq, Structural)]
pub enum Color {
    Black,
    White,
}

/// The other colour.
pub open spec fn opposite(c: Color) -> Color {
    match c {
        Color::Black => Color::White,
        Color::White => Color::Black,
    }
}

impl Color {
    /// The colour that moves after this one.
    pub fn opponent(self) -> (r: Color)
        ensures
            r == opposite(self),
    {
        match self {
            Color::Black => Color::White,
            Color::White => Color::Black,
        }
    }

    /// The colour letter of the GTP protocol (`B` or `W`), used to build `play`/`genmove`.
    pub fn gtp_letter(self) -> (r: &'static str)
        ensures
            r@ == (match self {
                Color::Black => "B"@,
                Color::White => "W"@,
            }),
    {
        match self {
            Color::Black => "B",
            Color::White => "W",
        }
    }
}

} // verus!
