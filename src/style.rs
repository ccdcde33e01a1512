use vstd::prelude::*;

verus! {

/// Severity of a diagnostic.
#[derive(Clone, Copy, Debug, PartialEq, Eq, Structural)]
pub enum Level {
    Bug,
    Fatal,
    Error,
    Warning,
    Note,
    Help,
}

/// The style of one cell of the output grid.
#[derive(Clone, Copy, Debug, PartialEq, Eq, Structural)]
pub enum Style {
    Level(Level),
    HeaderMsg,
    LineAndColumn,
    Quotation,
    UnderlinePrimary,
    UnderlineSecondary,
    LabelPrimary,
    LabelSecondary,
    OldSkoolNote,
    NoStyle,
}

/// The word that names a level in a header.
pub open spec fn level_word(level: Level) -> Seq<char> {
    match level {
        Level::Bug => "error: internal compiler error"@,
        Level::Fatal => "error"@,
        Level::Error => "error"@,
        Level::Warning => "warning"@,
        Level::Note => "note"@,
        Level::Help => "help"@,
    }
}

impl Level {
    /// The word that names this level, as it opens a header line.
    pub fn to_text(&self) -> (r: String)
        ensures
            r@ == level_word(*self),
    {
        let s = match self {
            Level::Bug => "error: internal compiler error",
            Level::Fatal => "error",
            Level::Error => "error",
            Level::Warning => "warning",
            Level::Note => "note",
            Level::Help => "help",
        };
        s.to_string()
    }
}

} // verus!
