//! The data model shared across the pipeline: points, command groups,
//! transforms, element records and errors.

use vstd::prelude::*;

verus! {

/// A plotted point in the canonical 0-100 box, in fixed-point millionths.
/// `connect` tells the renderer to draw a segment from the previous point;
/// a `false` flag marks a pen-up break at the start of a new subpath.
#[derive(Clone, Copy, Debug, PartialEq, Eq, Structural)]
pub struct FxPoint {
    pub x: i64,
    pub y: i64,
    pub connect: bool,
}

/// One tokenized path command: the command token and its numeric
/// arguments in fixed-point millionths.
#[derive(Clone, Debug)]
pub struct CommandGroup {
    pub cmd: String,
    pub args: Vec<i64>,
}

/// A parsed transform attribute.  `Identity` stands for an absent or empty
/// attribute; `Unsupported` for a present but unrecognized function, which
/// applies as the identity but stays distinguishable for diagnostics.
#[derive(Clone, Copy, Debug, PartialEq, Eq, Structural)]
pub enum Transform {
    Identity,
    Matrix(i64, i64, i64, i64, i64, i64),
    Translate(i64, i64),
    Scale(i64, i64),
    Rotate(i64),
    SkewX(i64),
    SkewY(i64),
    Unsupported,
}

/// Why a single element could not be interpreted.  Such an element is
/// skipped with a diagnostic; it never aborts the whole document.
#[derive(Clone, Copy, Debug, PartialEq, Eq, Structural)]
pub enum PathError {
    /// The path data held two separators in a row, or one at an end.
    EmptyToken,
    /// A numeric token was outside the number grammar or its range.
    BadNumber,
    /// Path data began with arguments that belong to no command.
    MissingCommand,
    /// A command had fewer arguments than it needs.
    MissingArgs,
    /// A close command arrived before any subpath was started.
    NoSubpathStart,
    /// An arc whose geometry collapses: a zero radius or coincident
    /// endpoints in the ellipse frame.
    DegenerateArc,
    /// A transform attribute with a recognized name but malformed arguments.
    BadTransform,
}

/// Why a whole document could not be rendered.
#[derive(Clone, Copy, Debug, PartialEq, Eq, Structural)]
pub enum SvgError {
    /// No `svg` start element, no `viewBox` attribute, too few viewBox
    /// tokens, or markup the event reader refuses.
    MalformedDocument,
    /// A zero viewBox width or height: every coordinate division would
    /// be a division by zero.
    DegenerateGeometry,
}

/// A drawable element collected from the document, attributes still raw.
#[derive(Clone, Debug)]
pub enum Element {
    Path { d: String, style: String, transform: String },
    Rect { x: String, y: String, w: String, h: String, style: String },
    Line { x1: String, y1: String, x2: String, y2: String, style: String },
}

/// One renderable record: an ordered point sequence, the element's style
/// carried through unchanged, and whether the points are a filled interior
/// rather than an outline.
#[derive(Clone, Debug)]
pub struct RenderRecord {
    pub points: Vec<FxPoint>,
    pub style: String,
    pub is_fill: bool,
}

/// A skipped element: its position in document order and the reason.
#[derive(Clone, Copy, Debug, PartialEq, Eq, Structural)]
pub struct ElementIssue {
    pub element: usize,
    pub error: PathError,
}

} // verus!
