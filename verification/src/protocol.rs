//! Plain models of the editor-protocol data the core exchanges with its
//! transport: positions, ranges, diagnostics and completion candidates.
//! The transport layer converts between these and its own wire types.

use vstd::prelude::*;

verus! {

/// A zero-based (line, character) position in a document.
#[derive(Clone, Copy, PartialEq, Eq, Structural, Debug)]
pub struct Position {
    pub line: u32,
    pub character: u32,
}

impl Position {
    pub fn new(line: u32, character: u32) -> (r: Position)
        ensures
            r.line == line,
            r.character == character,
    {
        Position { line, character }
    }
}

/// Position order: by line, then by character.
pub open spec fn pos_le(a: Position, b: Position) -> bool {
    a.line < b.line || (a.line == b.line && a.character <= b.character)
}

/// Executable twin of `pos_le`.
pub fn pos_le_exec(a: &Position, b: &Position) -> (r: bool)
    ensures
        r == pos_le(*a, *b),
{
    a.line < b.line || (a.line == b.line && a.character <= b.character)
}

/// A half-open region of a document between two positions.
#[derive(Clone, Copy, PartialEq, Eq, Structural, Debug)]
pub struct Range {
    pub start: Position,
    pub end: Position,
}

impl Range {
    pub fn new(start: Position, end: Position) -> (r: Range)
        ensures
            r.start == start,
            r.end == end,
    {
        Range { start, end }
    }
}

/// Diagnostic severities, in protocol order.
#[derive(Clone, Copy, PartialEq, Eq, Structural, Debug)]
pub enum Severity {
    Error,
    Warning,
    Information,
    Hint,
}

/// A diagnostic to surface to the editor.
#[derive(Clone, PartialEq, Eq, Debug)]
pub struct Diagnostic {
    pub range: Range,
    pub severity: Severity,
    pub source: String,
    pub message: String,
}

/// The spec-level content of a `Diagnostic`.
pub struct DiagnosticV {
    pub range: Range,
    pub severity: Severity,
    pub source: Seq<char>,
    pub message: Seq<char>,
}

impl View for Diagnostic {
    type V = DiagnosticV;

    open spec fn view(&self) -> DiagnosticV {
        DiagnosticV {
            range: self.range,
            severity: self.severity,
            source: self.source@,
            message: self.message@,
        }
    }
}

impl Diagnostic {
    pub fn new(range: Range, severity: Severity, source: String, message: String) -> (r:
        Diagnostic)
        ensures
            r@ == (DiagnosticV { range, severity, source: source@, message: message@ }),
    {
        Diagnostic { range, severity, source, message }
    }
}

/// One completion candidate: a label and a human-readable detail.
#[derive(Clone, PartialEq, Eq, Debug)]
pub struct CompletionItem {
    pub label: String,
    pub detail: String,
}

/// The spec-level content of a `CompletionItem`.
pub struct CompletionItemV {
    pub label: Seq<char>,
    pub detail: Seq<char>,
}

impl View for CompletionItem {
    type V = CompletionItemV;

    open spec fn view(&self) -> CompletionItemV {
        CompletionItemV { label: self.label@, detail: self.detail@ }
    }
}

/// A (document, position) pair: where the cursor stands for a completion
/// request.
#[derive(Clone, PartialEq, Eq, Debug)]
pub struct CompletionParams {
    pub uri: String,
    pub position: Position,
}

/// The spec-level content of `CompletionParams`.
pub struct CompletionParamsV {
    pub uri: Seq<char>,
    pub position: Position,
}

impl View for CompletionParams {
    type V = CompletionParamsV;

    open spec fn view(&self) -> CompletionParamsV {
        CompletionParamsV { uri: self.uri@, position: self.position }
    }
}

/// `x`, capped at the largest `u32`: line numbers saturate rather than
/// wrap.
pub open spec fn sat_u32(x: int) -> u32 {
    if x > u32::MAX {
        u32::MAX
    } else if x < 0 {
        0
    } else {
        x as u32
    }
}

/// Executable twin of `sat_u32` for non-negative counts.
pub fn sat_u32_exec(x: usize) -> (r: u32)
    ensures
        r == sat_u32(x as int),
{
    if x > u32::MAX as usize {
        u32::MAX
    } else {
        x as u32
    }
}

} // verus!
