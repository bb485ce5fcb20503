//! The vocabulary of editing commands.

use crate::common::{Alignment, Color, Direction, UnderlineStyle};
use crate::dispatch::Real;
use vstd::prelude::*;

verus! {

/// A sparse change to a table's properties.
#[derive(Clone, Copy, Debug, PartialEq, Eq, Structural)]
pub struct TablePropertiesPatch {
    pub bidi_visual: Option<bool>,
}

/// The four edges of a cell or a paragraph. `None` leaves an edge without a
/// stroke of its own.
#[derive(Clone, Copy, Debug, PartialEq, Eq, Structural)]
pub struct BridgeCellBorders {
    pub top: Option<BridgeBorderStroke>,
    pub left: Option<BridgeBorderStroke>,
    pub bottom: Option<BridgeBorderStroke>,
    pub right: Option<BridgeBorderStroke>,
}

/// A sparse change to the paragraph half of a style. `None` leaves a value as
/// it is. A positive first line is indented, a negative one hangs.
#[derive(Clone, Copy, Debug, PartialEq, Eq, Structural)]
pub struct BridgeParaPropertiesPatch {
    pub alignment: Option<Alignment>,
    pub direction: Option<Direction>,
    pub line_spacing_multiplier: Option<Real>,
    pub indent_start_pt: Option<Real>,
    pub indent_end_pt: Option<Real>,
    pub first_line_pt: Option<Real>,
    pub shading: Option<Color>,
}

/// A sparse change to the character half of a style. `None` leaves a value as
/// it is.
#[derive(Clone, Debug, PartialEq, Eq)]
pub struct BridgeSpanStylePatch {
    pub bold: Option<bool>,
    pub italic: Option<bool>,
    pub underline: Option<UnderlineStyle>,
    pub strike: Option<bool>,
    pub font_size: Option<Real>,
    pub color: Option<Color>,
    pub bg_color: Option<Color>,
    pub font_family: Option<String>,
    pub caps: Option<bool>,
    pub small_caps: Option<bool>,
}

/// A change to a style. `based_on` gives it another parent; `clear_based_on`
/// takes its parent away.
#[derive(Clone, Debug, PartialEq, Eq)]
pub struct BridgeStyleProperties {
    pub para_props: Option<BridgeParaPropertiesPatch>,
    pub run_props: Option<BridgeSpanStylePatch>,
    pub based_on: Option<String>,
    pub clear_based_on: Option<bool>,
    pub display_name: Option<String>,
}

/// One stroke of a border.
#[derive(Clone, Copy, Debug, PartialEq, Eq, Structural)]
pub struct BridgeBorderStroke {
    pub style: BridgeBorderStyle,
    pub size_eighth_pt: u16,
    pub color: Option<Color>,
}

/// Which list marker a paragraph is toggled to.
#[derive(Clone, Copy, Debug, PartialEq, Eq, Structural)]
pub enum ListKind {
    Off,
    Bullet,
    Number,
}

/// Page orientation.
#[derive(Clone, Copy, Debug, PartialEq, Eq, Structural)]
pub enum PageOrientation {
    Portrait,
    Landscape,
}

/// Where the section after a section break begins.
#[derive(Clone, Copy, Debug, PartialEq, Eq, Structural)]
pub enum SectionBreakKind {
    NextPage,
    Continuous,
    EvenPage,
    OddPage,
}

/// The story that an edit outside the body goes to.
#[derive(Clone, Copy, Debug, PartialEq, Eq, Structural)]
pub enum HeaderFooterArea {
    Header,
    Footer,
    Footnote,
    Endnote,
    TextBox,
}

/// The field that a field command inserts.
#[derive(Clone, Copy, Debug, PartialEq, Eq, Structural)]
pub enum FieldKind {
    Page,
    NumPages,
    Date,
    Time,
    FileName,
    Author,
}

/// The switches of a table of contents.
#[derive(Clone, Copy, Debug, PartialEq, Eq, Structural)]
pub struct TocSwitches {
    pub outline_min: u8,
    pub outline_max: u8,
    pub hyperlinks: bool,
    pub hide_in_web: bool,
    pub use_outline_levels: bool,
    pub page_numbers: bool,
}

impl Default for TocSwitches {
    fn default() -> (r: Self)
        ensures
            r.outline_min == 1,
            r.outline_max == 3,
            r.hyperlinks && r.hide_in_web && r.use_outline_levels && r.page_numbers,
    {
        TocSwitches {
            outline_min: 1,
            outline_max: 3,
            hyperlinks: true,
            hide_in_web: true,
            use_outline_levels: true,
            page_numbers: true,
        }
    }
}

/// How text lines up at a tab stop.
#[derive(Clone, Copy, Debug, PartialEq, Eq, Structural)]
pub enum BridgeTabKind {
    Left,
    Center,
    Right,
    Decimal,
    Clear,
}

/// What fills the gap before a tab stop.
#[derive(Clone, Copy, Debug, PartialEq, Eq, Structural)]
pub enum BridgeTabLeader {
    Blank,
    Dot,
    Hyphen,
    Underscore,
    Heavy,
    MiddleDot,
}

/// On which side of a row or column a new one goes.
#[derive(Clone, Copy, Debug, PartialEq, Eq, Structural)]
pub enum InsertSide {
    After,
    Before,
}

/// Border stroke style.
#[derive(Clone, Copy, Debug, PartialEq, Eq, Structural)]
pub enum BridgeBorderStyle {
    Single,
    Double,
    Dotted,
    Dashed,
    NoStroke,
}

/// Archival profile of an exported PDF.
#[derive(Clone, Copy, Debug, PartialEq, Eq, Structural)]
pub enum PdfConformance {
    A1b,
    A2u,
    X3,
}

/// A paragraph by number.
#[derive(Clone, Copy, Debug, PartialEq, Eq, Structural)]
pub struct ParagraphId {
    pub id: u32,
}

/// How an inserted image is sized.
#[derive(Clone, Copy, Debug, PartialEq, Eq, Structural)]
pub enum ImageFit {
    Original,
    FitWidth,
    FitPage,
}

/// An image to insert: its encoded bytes and its size in pixels.
#[derive(Clone, Debug, PartialEq, Eq)]
pub struct ImageBlob {
    pub bytes: Vec<u8>,
    pub mime: String,
    pub width: u32,
    pub height: u32,
}

/// Modifier keys held while a selection is extended.
#[derive(Clone, Copy, Debug, PartialEq, Eq, Structural)]
pub enum SelectionModifier {
    NoModifier,
    Shift,
    Alt,
    ShiftAlt,
}

/// A caret motion.
#[derive(Clone, Copy, Debug, PartialEq, Eq, Structural)]
pub enum MoveDirection {
    Up,
    Down,
    Left,
    Right,
    NextCell,
    PrevCell,
    WordLeft,
    WordRight,
    LineHome,
    LineEnd,
    DocHome,
    DocEnd,
}

/// A character attribute that a toggle command flips.
#[derive(Clone, Copy, Debug, PartialEq, Eq, Structural)]
pub enum FormattingToggle {
    Bold,
    Italic,
    Underline,
    Strike,
    Superscript,
    Subscript,
    Caps,
    SmallCaps,
}

} // verus!
