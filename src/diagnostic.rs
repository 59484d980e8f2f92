//! The findings the rule reports, with the positions they point at.

use vstd::prelude::*;

verus! {

/// How severe a finding or a note is.
#[derive(Clone, Copy, Debug, PartialEq, Eq, Structural)]
pub enum Level {
    Error,
    Warning,
    Info,
    Note,
    Help,
}

/// A label over a character range of a header's source text.
pub struct Mark {
    pub level: Level,
    pub label: String,
    /// Start and end, in characters, of the marked text.
    pub range: (usize, usize),
}

pub struct MarkModel {
    pub level: Level,
    pub label: Seq<char>,
    pub range: (usize, usize),
}

impl View for Mark {
    type V = MarkModel;

    open spec fn view(&self) -> MarkModel {
        MarkModel { level: self.level, label: self.label@, range: self.range }
    }
}

/// One finding: a title, the header it is about with its marks, and an
/// optional help note.
pub struct Diagnostic {
    /// The rule that reports it.
    pub id: String,
    pub level: Level,
    pub title: String,
    /// The header the marks point into.
    pub line_start: usize,
    pub origin: Option<String>,
    pub source: String,
    pub marks: Vec<Mark>,
    /// A note at the severity `Level::Help`.
    pub footer: Option<String>,
}

pub struct DiagnosticModel {
    pub id: Seq<char>,
    pub level: Level,
    pub title: Seq<char>,
    pub line_start: usize,
    pub origin: Option<Seq<char>>,
    pub source: Seq<char>,
    pub marks: Seq<MarkModel>,
    pub footer: Option<Seq<char>>,
}

pub open spec fn opt_view(s: Option<String>) -> Option<Seq<char>> {
    match s {
        Some(t) => Some(t@),
        None => None,
    }
}

impl View for Diagnostic {
    type V = DiagnosticModel;

    open spec fn view(&self) -> DiagnosticModel {
        DiagnosticModel {
            id: self.id@,
            level: self.level,
            title: self.title@,
            line_start: self.line_start,
            origin: opt_view(self.origin),
            source: self.source@,
            marks: self.marks@.map_values(|m: Mark| m@),
            footer: opt_view(self.footer),
        }
    }
}

} // verus!
