//! The vocabulary of engine events, and the accessibility tree that mirrors
//! the document for assistive technology.

use crate::command::{BridgeCellBorders, HeaderFooterArea};
use crate::common::{Color, Direction, DocFormat, LogicalPos};
use vstd::prelude::*;

verus! {

/// How urgently an announcement is spoken.
#[derive(Clone, Copy, Debug, PartialEq, Eq, Structural)]
pub enum AnnouncementPriority {
    Polite,
    Assertive,
}

/// Which of a section's headers or footers a story is.
#[derive(Clone, Copy, Debug, PartialEq, Eq, Structural)]
pub enum BridgeHfRole {
    Default,
    First,
    Even,
}

/// The story being edited.
#[derive(Clone, Debug, PartialEq, Eq)]
pub struct BridgeStoryRef {
    pub area: HeaderFooterArea,
    pub rid: String,
    pub page: u32,
    pub role: BridgeHfRole,
    pub linked: bool,
    pub section_index: u32,
}

/// The field at the caret.
#[derive(Clone, Debug, PartialEq, Eq)]
pub struct BridgeFieldRef {
    pub instruction: String,
    pub keyword: String,
    pub start: LogicalPos,
    pub end: LogicalPos,
    pub selected: bool,
}

/// The properties of the table cell at the caret.
#[derive(Clone, Copy, Debug, PartialEq, Eq, Structural)]
pub struct BridgeCellProperties {
    pub shading: Option<Color>,
    pub borders: BridgeCellBorders,
    pub table_bidi_visual: bool,
}

/// Which attributes are not uniform over a selection.
#[derive(Clone, Copy, Debug, PartialEq, Eq, Structural)]
pub struct AttrsMixed {
    pub bold: bool,
    pub italic: bool,
    pub underline: bool,
    pub strike: bool,
}

/// What the engine can do.
#[derive(Clone, Debug, PartialEq, Eq)]
pub struct EngineCapabilities {
    pub simd: bool,
    pub shared_array_buffer: bool,
    pub max_document_pages: u32,
    pub formats: Vec<DocFormat>,
}

/// Why a layout fell short of the requested rules.
#[derive(Clone, Copy, Debug, PartialEq, Eq, Structural)]
pub enum LayoutDegradeReason {
    OversizeLine,
    KeepChainDropped,
    KeepLinesDropped,
    WidowControlDropped,
    HeaderRepeatDropped,
    FootnoteOverflow,
    FrozenPlacement,
    PageCap,
    FastPathMismatch,
    CacheMismatch,
    AutofitCap,
    WrapObjectFrozen,
    WrapOscillation,
    WrapPolygonFallback,
    PageRefCap,
    NoteRestartCap,
}

/// One shortfall of a layout, on the page where it happened.
#[derive(Clone, Copy, Debug, PartialEq, Eq, Structural)]
pub struct LayoutDegraded {
    pub reason: LayoutDegradeReason,
    pub page: Option<u32>,
}

/// The accessibility tree: one node per region of the document.
#[derive(Debug, PartialEq, Eq)]
pub struct A11yTree {
    pub nodes: Vec<A11yNode>,
}

/// A region of the accessibility tree.
#[derive(Debug, PartialEq, Eq)]
pub enum A11yNode {
    Paragraph(A11yParagraph),
    Table(A11yTable),
    Story(A11yStory),
    TextBox(A11yTextBox),
    Note(A11yNote),
}

/// Footnote or endnote.
#[derive(Clone, Copy, Debug, PartialEq, Eq, Structural)]
pub enum A11yNoteKind {
    Footnote,
    Endnote,
}

/// A note region.
#[derive(Debug, PartialEq, Eq)]
pub struct A11yNote {
    pub note_kind: A11yNoteKind,
    pub id: String,
    pub note_id: u32,
    pub marker: String,
    pub nodes: Vec<A11yNode>,
}

/// The link from a reference mark to its note region.
#[derive(Debug, PartialEq, Eq)]
pub struct A11yNoteRef {
    pub kind: A11yNoteKind,
    pub id: String,
}

/// What an inline object is.
#[derive(Clone, Copy, Debug, PartialEq, Eq, Structural)]
pub enum A11yObjectKind {
    Image,
    TextBox,
}

/// An inline object in a run: the run has no text of its own.
#[derive(Debug, PartialEq, Eq)]
pub struct A11yObjectRef {
    pub kind: A11yObjectKind,
    pub id: String,
    pub alt: Option<String>,
}

/// A text-box region.
#[derive(Debug, PartialEq, Eq)]
pub struct A11yTextBox {
    pub id: String,
    pub name: Option<String>,
    pub description: Option<String>,
    pub nodes: Vec<A11yNode>,
}

/// A header or footer region.
#[derive(Debug, PartialEq, Eq)]
pub struct A11yStory {
    pub header: bool,
    pub rid: String,
    pub nodes: Vec<A11yNode>,
}

/// A paragraph: its text as styled runs.
#[derive(Debug, PartialEq, Eq)]
pub struct A11yParagraph {
    /// The document's base direction.
    pub direction: Direction,
    /// The paragraph's own resolved direction.
    pub resolved_direction: Direction,
    pub runs: Vec<A11yRun>,
}

/// A run of text with one set of attributes.
#[derive(Debug, PartialEq, Eq)]
pub struct A11yRun {
    pub text: String,
    pub bold: bool,
    pub italic: bool,
    pub underline: bool,
    pub note_ref: Option<A11yNoteRef>,
    pub object: Option<A11yObjectRef>,
}

/// A table.
#[derive(Debug, PartialEq, Eq)]
pub struct A11yTable {
    pub block_index: u32,
    pub rows: Vec<A11yRow>,
}

/// A table row.
#[derive(Debug, PartialEq, Eq)]
pub struct A11yRow {
    pub cells: Vec<A11yCell>,
}

/// A table cell with its spans.
#[derive(Debug, PartialEq, Eq)]
pub struct A11yCell {
    pub row: u32,
    pub col: u32,
    pub row_span: u32,
    pub col_span: u32,
    pub nodes: Vec<A11yNode>,
}

/// A change to the mirrored tree. Patches apply in order.
#[derive(Debug, PartialEq, Eq)]
pub enum A11yPatch {
    Replace { tree: A11yTree },
    Update { index: u32, node: A11yNode },
    Insert { index: u32, node: A11yNode },
    Remove { index: u32 },
}

/// What a run says.
pub ghost struct RunTree {
    pub text: Seq<char>,
    pub bold: bool,
    pub italic: bool,
    pub underline: bool,
    pub note_ref: Option<(A11yNoteKind, Seq<char>)>,
    pub object: Option<(A11yObjectKind, Seq<char>, Option<Seq<char>>)>,
}

/// What a region says, with lists as sequences and strings as their
/// characters.
pub ghost enum NodeTree {
    Paragraph { direction: Direction, resolved: Direction, runs: Seq<RunTree> },
    Table { block_index: u32, rows: Seq<Seq<CellTree>> },
    Story { header: bool, rid: Seq<char>, nodes: Seq<NodeTree> },
    TextBox {
        id: Seq<char>,
        name: Option<Seq<char>>,
        description: Option<Seq<char>>,
        nodes: Seq<NodeTree>,
    },
    Note {
        kind: A11yNoteKind,
        id: Seq<char>,
        note_id: u32,
        marker: Seq<char>,
        nodes: Seq<NodeTree>,
    },
}

/// What a cell says.
pub ghost struct CellTree {
    pub row: u32,
    pub col: u32,
    pub row_span: u32,
    pub col_span: u32,
    pub nodes: Seq<NodeTree>,
}

/// The characters of an optional string.
pub open spec fn opt_chars(s: Option<String>) -> Option<Seq<char>> {
    match s {
        Some(x) => Some(x@),
        None => None,
    }
}

impl View for A11yRun {
    type V = RunTree;

    open spec fn view(&self) -> RunTree {
        RunTree {
            text: self.text@,
            bold: self.bold,
            italic: self.italic,
            underline: self.underline,
            note_ref: match self.note_ref {
                Some(n) => Some((n.kind, n.id@)),
                None => None,
            },
            object: match self.object {
                Some(o) => Some((o.kind, o.id@, opt_chars(o.alt))),
                None => None,
            },
        }
    }
}

/// What a list of runs says.
pub open spec fn runs_view(s: Seq<A11yRun>) -> Seq<RunTree> {
    s.map_values(|r: A11yRun| r@)
}

/// What a list of regions says.
pub open spec fn nodes_view(s: Seq<A11yNode>) -> Seq<NodeTree>
    decreases s,
{
    Seq::new(
        s.len(),
        |i: int|
            if 0 <= i < s.len() {
                node_view(s[i])
            } else {
                arbitrary()
            },
    )
}

/// What a list of cells says.
pub open spec fn cells_view(s: Seq<A11yCell>) -> Seq<CellTree>
    decreases s,
{
    Seq::new(
        s.len(),
        |i: int|
            if 0 <= i < s.len() {
                cell_view(s[i])
            } else {
                arbitrary()
            },
    )
}

/// What a list of rows says.
pub open spec fn rows_view(s: Seq<A11yRow>) -> Seq<Seq<CellTree>>
    decreases s,
{
    Seq::new(
        s.len(),
        |i: int|
            if 0 <= i < s.len() {
                cells_view(s[i].cells@)
            } else {
                arbitrary()
            },
    )
}

/// What a cell says.
pub open spec fn cell_view(c: A11yCell) -> CellTree
    decreases c,
{
    CellTree {
        row: c.row,
        col: c.col,
        row_span: c.row_span,
        col_span: c.col_span,
        nodes: nodes_view(c.nodes@),
    }
}

/// What a region says.
pub open spec fn node_view(n: A11yNode) -> NodeTree
    decreases n,
{
    match n {
        A11yNode::Paragraph(p) => NodeTree::Paragraph {
            direction: p.direction,
            resolved: p.resolved_direction,
            runs: runs_view(p.runs@),
        },
        A11yNode::Table(t) => NodeTree::Table {
            block_index: t.block_index,
            rows: rows_view(t.rows@),
        },
        A11yNode::Story(s) => NodeTree::Story {
            header: s.header,
            rid: s.rid@,
            nodes: nodes_view(s.nodes@),
        },
        A11yNode::TextBox(b) => NodeTree::TextBox {
            id: b.id@,
            name: opt_chars(b.name),
            description: opt_chars(b.description),
            nodes: nodes_view(b.nodes@),
        },
        A11yNode::Note(x) => NodeTree::Note {
            kind: x.note_kind,
            id: x.id@,
            note_id: x.note_id,
            marker: x.marker@,
            nodes: nodes_view(x.nodes@),
        },
    }
}

} // verus!
