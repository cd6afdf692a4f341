use vstd::prelude::*;

verus! {

/// The role of a piece of rendered text, which decides how it is drawn.
#[derive(Clone, Copy, PartialEq, Eq, Structural, Debug)]
pub enum Tone {
    /// Punctuation, literals and placeholders for missing values.
    Dim,
    /// A field value in a formatted line (drawn in the rule's color).
    Value,
    /// An object key.
    Key,
    /// A string value.
    Str,
    /// A number.
    Num,
    /// A boolean.
    Bool,
    /// Unstyled text.
    Plain,
    /// The status-bar badge of follow mode.
    Follow,
    /// The status-bar badge of browse mode.
    Browse,
    /// A warning in the status bar.
    Alert,
}

/// A run of text drawn in one tone.
#[derive(Debug)]
pub struct Piece {
    pub text: String,
    pub tone: Tone,
}

/// The text and tone of a piece, for contracts.
pub open spec fn piece_view(p: Piece) -> (Seq<char>, Tone) {
    (p.text@, p.tone)
}

/// The views of a sequence of pieces.
pub open spec fn pieces_view(ps: Seq<Piece>) -> Seq<(Seq<char>, Tone)> {
    ps.map_values(|p: Piece| piece_view(p))
}

} // verus!
