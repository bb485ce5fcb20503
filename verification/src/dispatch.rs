//! Commands: what each one asks of the document, the session or the shell, and
//! what an edit leaves to be done afterwards.

use crate::attrs::TextAttrsPatch;
use crate::cache::RenderConfig;
use crate::command::{
    BridgeCellBorders, BridgeStyleProperties, FieldKind, FormattingToggle, HeaderFooterArea,
    ImageBlob, ImageFit, InsertSide, ListKind, MoveDirection, PageOrientation, PdfConformance,
    SectionBreakKind, TablePropertiesPatch, TocSwitches,
};
use crate::common::{
    ordered, pos_order, through_cell, Alignment, BlockPath, Color, Direction, DocFormat,
    ImageWrapMode, LogicalPos, LogicalRange, Point, Rect, RendererDowngrade, TextBoxHop,
    UnderlineStyle,
};
use crate::document::{NoteKind, TabStop};
use crate::edits::{
    align_label, align_words, border_target, direction_label, direction_words, image_size,
    insert_at, insert_index, open_format, parse_alignment, parse_direction, pdf_profile,
    picture_size, reads_as, resolve_label, save_format, style_label, style_words, writer_for,
    FormatError, PdfProfile, Writer,
};
use crate::section::{check_exceeds, exceeds};
use crate::text::chars_of;
use vstd::prelude::*;
use vstd::string::*;

verus! {

/// A number by its IEEE-754 single pattern.
#[derive(Clone, Copy, Debug, PartialEq, Eq, Structural)]
pub struct Real {
    pub bits: u32,
}

/// A command to the editor.
pub enum Command {
    Ping,
    LoadFont { id: String, bytes: Vec<u8> },
    RasterizeGlyph { font_id: String, ch: String, px_size: Real },
    ShapeAndRasterize { text: String, font_id: String, direction: String, px_size: Real },
    RenderPage {
        text: String,
        font_id: String,
        base_direction: String,
        px_size: Real,
        line_height: Real,
        align: String,
        device_pixel_ratio: Option<Real>,
    },
    InsertText { at: Option<LogicalPos>, text: String },
    Undo,
    Redo,
    LoadDocx { bytes: Vec<u8> },
    SaveDocx,
    Init,
    Recover {
        snapshot: Vec<u8>,
        log_tail: Vec<Command>,
        renderer_downgrade: Option<RendererDowngrade>,
        package: Option<Vec<u8>>,
    },
    Snapshot { seq: Option<u64>, detach_package: Option<bool>, known_package_hash: Option<String> },
    Dispose,
    Tick,
    OpenDocument { bytes: Vec<u8>, format: DocFormat, name: Option<String> },
    SaveDocument { format: DocFormat },
    ExportPdf { conformance: PdfConformance },
    CloseDocument,
    DeleteRange { range: LogicalRange },
    ReplaceRange { range: LogicalRange, text: String },
    ApplyFormatting { range: Option<LogicalRange>, attrs: TextAttrsPatch },
    ToggleFormatting { attr: FormattingToggle, underline_style: Option<UnderlineStyle> },
    SplitParagraph { at: Option<LogicalPos> },
    MergeParagraph,
    InsertImage { at: LogicalPos, image: ImageBlob, fit: ImageFit },
    ResizeImage {
        path: BlockPath,
        at: u32,
        width_emu: i64,
        height_emu: i64,
        story: Vec<TextBoxHop>,
    },
    MoveImage {
        path: BlockPath,
        at: u32,
        offset_h_emu: i64,
        offset_v_emu: i64,
        story: Vec<TextBoxHop>,
    },
    SetImageWrap { path: BlockPath, at: u32, wrap: ImageWrapMode, story: Vec<TextBoxHop> },
    SetSelection { range: LogicalRange, caret: LogicalPos },
    ExtendSelection { to: LogicalPos },
    SelectAll,
    MoveCaret { direction: MoveDirection, extend: bool },
    BeginComposition { at: Option<LogicalPos> },
    UpdateComposition { text: String, target_range: Option<LogicalRange> },
    EndComposition { commit: bool },
    SetViewport { rect: Rect },
    SetZoom { scale: Real },
    SetDeviceScale { scale: Real },
    RequestPaint { viewport: Rect, dirty: Option<Rect> },
    ExpandLayout { target_y: i64 },
    UnloadFont,
    RequestStats,
    HitTest { at: Point },
    HitTestInPage { page: u32, at: Point },
    PlaceCaretAtPoint { page: u32, at: Point },
    ExtendSelectionToPoint { page: u32, at: Point },
    GetImageRects,
    SelectWordAt { at: Point },
    SelectParagraphAt { at: Point },
    SelectCellAt { at: Point },
    DeleteAtCaret { forward: bool, by_word: bool },
    RequestAccessibilityDelta,
    GetSelectionAsClipboard { include_docx: Option<bool> },
    PastePlain { text: String },
    PasteHtml { html: String },
    SetParagraphAlign { range: LogicalRange, align: Alignment },
    SetParagraphDirection { range: LogicalRange, direction: Direction },
    InsertTable { at: BlockPath, rows: u32, cols: u32 },
    DeleteTable { path: BlockPath },
    InsertRow { table_path: BlockPath, row: u32, side: InsertSide },
    DeleteRow { table_path: BlockPath, row: u32 },
    InsertColumn { table_path: BlockPath, col: u32, side: InsertSide },
    DeleteColumn { table_path: BlockPath, col: u32 },
    MergeCells { table_path: BlockPath, from_row: u32, from_col: u32, to_row: u32, to_col: u32 },
    SplitCell { table_path: BlockPath, row: u32, col: u32 },
    SetCellShading { table_path: BlockPath, row: u32, col: u32, color: Option<Color> },
    SetCellBorders { table_path: BlockPath, row: u32, col: u32, borders: BridgeCellBorders },
    SetTableProperties { table_path: BlockPath, patch: TablePropertiesPatch },
    SetColumns { at: LogicalPos, count: u8, gutter_pt: Real },
    InsertPageBreak { at: LogicalPos },
    InsertSectionBreak { at: LogicalPos, kind: SectionBreakKind },
    EnterHeaderFooter { page: u32, area: HeaderFooterArea },
    ExitHeaderFooter,
    SetHeaderFooterLink { linked: bool },
    SetTitlePage { enabled: bool },
    SetEvenOddHeaders { enabled: bool },
    InsertField { at: LogicalPos, kind: FieldKind },
    InsertFootnote { at: LogicalPos },
    InsertEndnote { at: LogicalPos },
    InsertTextBox { at: LogicalPos, width_emu: i64, height_emu: i64 },
    SetRenderDate { year: i32, month: u32, day: u32, hour: Option<u32>, minute: Option<u32> },
    UpdateFields,
    SetFieldCodeView { enabled: bool },
    SetFieldInstruction { at: LogicalPos, instruction: String },
    InsertToc { at: LogicalPos, switches: TocSwitches },
    SetParagraphBorders { range: LogicalRange, borders: BridgeCellBorders },
    SetPageMargins { at: LogicalPos, top: Real, right: Real, bottom: Real, left: Real },
    SetPageOrientation { at: LogicalPos, orientation: PageOrientation },
    ToggleList { range: LogicalRange, kind: ListKind },
    ChangeListLevel { range: LogicalRange, delta: i8 },
    SetParagraphIndent { range: LogicalRange, start_pt: Real, end_pt: Real, first_line_pt: Real },
    SetTabStops { range: LogicalRange, stops: Vec<TabStop> },
    ApplyStyle { range: LogicalRange, style_id: Option<String> },
    SetLineSpacing { range: LogicalRange, multiplier: Real },
    SetParagraphShading { range: LogicalRange, color: Option<Color> },
    ToggleTrackChanges { enabled: bool },
    AcceptRevision { block: u32, start: u32, end: u32 },
    RejectRevision { block: u32, start: u32, end: u32 },
    AcceptAllRevisions,
    RejectAllRevisions,
    SetReviewIdentity { author: String, date: String },
    InsertComment { range: LogicalRange, text: String, author: String },
    DeleteComment { id: u32 },
    ResolveComment { id: u32, resolved: bool },
    ReplyToComment { parent_id: u32, text: String, author: String },
    ModifyStyle { style_id: String, properties: BridgeStyleProperties },
}

/// What a command is held against: whether there is a selection, whether the
/// document has been laid out, and the story being edited outside the body.
#[derive(Clone, Copy, Debug, PartialEq, Eq, Structural)]
pub struct Situation {
    pub has_selection: bool,
    pub has_layout: bool,
    pub story: Option<HeaderFooterArea>,
}

/// Why a command is refused.
#[derive(Clone, Copy, Debug, PartialEq, Eq, Structural)]
pub enum Refusal {
    /// It names no place, and there is no caret.
    NoPlace,
    /// Its place is in a table.
    InTable,
    /// A story other than the body is being edited.
    InStory,
    /// No header or footer is being edited.
    NotInBand,
    /// The area is entered through its content.
    EnteredByContent,
}

/// A change of the document. Ranges have their start before their end.
pub enum DocOp {
    SetAlignment { start: LogicalPos, end: LogicalPos, align: Alignment },
    SetDirection { start: LogicalPos, end: LogicalPos, direction: Direction },
    AcceptRevision { block: u32, start: u32, end: u32 },
    RejectRevision { block: u32, start: u32, end: u32 },
    AcceptAllRevisions,
    RejectAllRevisions,
    InsertComment { start: LogicalPos, end: LogicalPos, text: String, author: String },
    DeleteComment { id: u32 },
    ResolveComment { id: u32, resolved: bool },
    SetIndent { start: LogicalPos, end: LogicalPos, start_pt: Real, end_pt: Real, first_line_pt: Real },
    SetTabStops { start: LogicalPos, end: LogicalPos, stops: Vec<TabStop> },
    SetStyle { start: LogicalPos, end: LogicalPos, style_id: Option<String> },
    SetLineSpacing { start: LogicalPos, end: LogicalPos, multiplier: Real },
    SetShading { start: LogicalPos, end: LogicalPos, color: Option<Color> },
    SetList { start: LogicalPos, end: LogicalPos, kind: ListKind },
    SetMargins { at: LogicalPos, top: Real, right: Real, bottom: Real, left: Real },
    SetOrientation { at: LogicalPos, landscape: bool },
    InsertImage { at: LogicalPos, mime: String, bytes: Vec<u8>, width_emu: i64, height_emu: i64 },
    SetColumns { at: LogicalPos, count: u8, gutter_pt: Real },
    SetParagraphBorders { start: LogicalPos, end: LogicalPos, borders: Option<BridgeCellBorders> },
    InsertTable { at: BlockPath, rows: u32, cols: u32 },
    DeleteTable { path: BlockPath },
    InsertRow { table: BlockPath, at: usize },
    DeleteRow { table: BlockPath, row: u32 },
    InsertColumn { table: BlockPath, at: usize },
    DeleteColumn { table: BlockPath, col: u32 },
    MergeCells { table: BlockPath, from_row: u32, from_col: u32, to_row: u32, to_col: u32 },
    SplitCell { table: BlockPath, row: u32, col: u32 },
    ShadeCell { table: BlockPath, row: u32, col: u32, color: Option<Color> },
    BorderCell { table: BlockPath, row: u32, col: u32, borders: BridgeCellBorders },
    ResizeImage {
        path: BlockPath,
        at: u32,
        width_emu: i64,
        height_emu: i64,
        story: Vec<TextBoxHop>,
    },
    MoveImage {
        path: BlockPath,
        at: u32,
        offset_h_emu: i64,
        offset_v_emu: i64,
        story: Vec<TextBoxHop>,
    },
    WrapImage { path: BlockPath, at: u32, wrap: ImageWrapMode, story: Vec<TextBoxHop> },
    SetTableProperties { table: BlockPath, patch: TablePropertiesPatch },
    BreakSection { at: LogicalPos, kind: SectionBreakKind },
    LinkBand { linked: bool },
    SetTitlePage { enabled: bool },
    SetEvenOddHeaders { enabled: bool },
    InsertField { at: LogicalPos, kind: FieldKind },
    InsertNote { at: LogicalPos, kind: NoteKind },
    InsertTextBox { at: LogicalPos, width_emu: i64, height_emu: i64 },
    UpdateFields,
    SetFieldInstruction { at: LogicalPos, instruction: String },
    InsertToc { at: LogicalPos, switches: TocSwitches },
    ChangeListLevel { start: LogicalPos, end: LogicalPos, delta: i8 },
    ReplyToComment { parent_id: u32, text: String, author: String },
    ModifyStyle { style_id: String, properties: BridgeStyleProperties },
}

/// What a command comes to.
pub enum Route {
    Pong,
    LoadFont { id: String, bytes: Vec<u8> },
    Rasterize { font_id: String, ch: char, px_size: Real },
    /// A glyph was asked for without a character.
    NoCharacter,
    Shape { text: String, font_id: String, direction: Direction, px_size: Real },
    /// Start a document of this text. The scale is the display's.
    Render { text: String, config: RenderConfig, scale: Real },
    /// Type at a place.
    Type { at: LogicalPos, text: String },
    /// Type at the caret.
    TypeAtCaret { text: String },
    /// Add text at the end of the document.
    Append { text: String },
    Undo,
    Redo,
    Open { bytes: Vec<u8>, name: Option<String> },
    /// Take up the state in `base`, or a fresh document without one, and carry
    /// out the commands that came after it.
    Recover {
        base: Option<Vec<u8>>,
        log_tail: Vec<Command>,
        renderer_downgrade: Option<RendererDowngrade>,
        package: Option<Vec<u8>>,
    },
    /// Put the whole state into bytes.
    Snapshot { seq: u64, detach_package: bool, known_package_hash: Option<String> },
    Save { writer: Writer },
    WrongFormat { error: FormatError },
    Export { profile: PdfProfile },
    Delete { start: LogicalPos, end: LogicalPos },
    Replace { start: LogicalPos, end: LogicalPos, text: String },
    Format { range: Option<LogicalRange>, attrs: TextAttrsPatch },
    Toggle { attr: FormattingToggle, underline_style: Option<UnderlineStyle> },
    Split { at: Option<LogicalPos> },
    Select { range: LogicalRange, caret: LogicalPos },
    Extend { to: LogicalPos },
    SelectAll,
    Move { direction: MoveDirection, extend: bool },
    BeginComposition { at: Option<LogicalPos> },
    UpdateComposition { text: String, target_range: Option<LogicalRange> },
    EndComposition { commit: bool },
    Viewport { rect: Rect },
    Zoom { scale: Real },
    /// Keep a zoom for the first layout.
    QueueZoom { scale: Real },
    DeviceScale { scale: Real },
    /// Keep a device scale for the first layout.
    QueueDeviceScale { scale: Real },
    Paint { viewport: Rect, dirty: Option<Rect> },
    Expand { target_y: i64 },
    Stats,
    Hit { page: Option<u32>, at: Point },
    /// Put the caret where a page was hit.
    PlaceCaret { page: u32, at: Point },
    /// Move the caret to where a page was hit and keep the other end.
    ExtendTo { page: u32, at: Point },
    ImageRects,
    SelectWord { at: Point },
    SelectParagraph { at: Point },
    SelectCell { at: Point },
    DeleteAtCaret { forward: bool, by_word: bool },
    AccessibilityDelta,
    /// Copy the selection, with a document fragment where one is asked for.
    Clipboard { with_docx: bool },
    PastePlain { text: String },
    PasteHtml { html: String },
    /// Break the page at a place or over the selection.
    PageBreak { at: LogicalPos },
    EnterStory { page: u32, area: HeaderFooterArea },
    ExitStory,
    /// The date that fields show, and the clock where both its parts are given.
    RenderDate { year: i32, month: u32, day: u32, clock: Option<(u32, u32)> },
    FieldCodes { enabled: bool },
    TrackChanges { enabled: bool },
    Reviewer { author: String, date: String },
    Edit { op: DocOp },
    /// The command cannot be carried out here.
    Refused { name: &'static str, why: Refusal },
    /// The command is known but has no effect here.
    Unsupported { name: &'static str },
}

/// The earlier end of a range.
pub open spec fn earlier(r: LogicalRange) -> LogicalPos {
    if pos_order(r.start@, r.end@) > 0 {
        r.end
    } else {
        r.start
    }
}

/// The later end of a range.
pub open spec fn later(r: LogicalRange) -> LogicalPos {
    if pos_order(r.start@, r.end@) > 0 {
        r.start
    } else {
        r.end
    }
}

/// The borders that a command sets on paragraphs.
pub open spec fn border_goal(b: BridgeCellBorders) -> Option<BridgeCellBorders> {
    if b.top is None && b.left is None && b.bottom is None && b.right is None {
        None
    } else {
        Some(b)
    }
}

/// The change that an editing command asks for.
pub open spec fn op_of(cmd: Command) -> Option<DocOp> {
    match cmd {
        Command::SetParagraphAlign { range, align } => Some(
            DocOp::SetAlignment { start: earlier(range), end: later(range), align },
        ),
        Command::SetParagraphDirection { range, direction } => Some(
            DocOp::SetDirection { start: earlier(range), end: later(range), direction },
        ),
        Command::AcceptRevision { block, start, end } => Some(
            DocOp::AcceptRevision { block, start, end },
        ),
        Command::RejectRevision { block, start, end } => Some(
            DocOp::RejectRevision { block, start, end },
        ),
        Command::InsertComment { range, text, author } => Some(
            DocOp::InsertComment { start: earlier(range), end: later(range), text, author },
        ),
        Command::DeleteComment { id } => Some(DocOp::DeleteComment { id }),
        Command::ResolveComment { id, resolved } => Some(DocOp::ResolveComment { id, resolved }),
        Command::SetParagraphIndent { range, start_pt, end_pt, first_line_pt } => Some(
            DocOp::SetIndent {
                start: earlier(range),
                end: later(range),
                start_pt,
                end_pt,
                first_line_pt,
            },
        ),
        Command::SetTabStops { range, stops } => Some(
            DocOp::SetTabStops { start: earlier(range), end: later(range), stops },
        ),
        Command::ApplyStyle { range, style_id } => Some(
            DocOp::SetStyle { start: earlier(range), end: later(range), style_id },
        ),
        Command::SetLineSpacing { range, multiplier } => Some(
            DocOp::SetLineSpacing { start: earlier(range), end: later(range), multiplier },
        ),
        Command::SetParagraphShading { range, color } => Some(
            DocOp::SetShading { start: earlier(range), end: later(range), color },
        ),
        Command::ToggleList { range, kind } => Some(
            DocOp::SetList { start: earlier(range), end: later(range), kind },
        ),
        Command::SetPageMargins { at, top, right, bottom, left } => Some(
            DocOp::SetMargins { at, top, right, bottom, left },
        ),
        Command::SetPageOrientation { at, orientation } => Some(
            DocOp::SetOrientation { at, landscape: orientation == PageOrientation::Landscape },
        ),
        Command::InsertImage { at, image, fit } => Some(
            DocOp::InsertImage {
                at,
                mime: image.mime,
                bytes: image.bytes,
                width_emu: picture_size(image.width, image.height, fit).0 as i64,
                height_emu: picture_size(image.width, image.height, fit).1 as i64,
            },
        ),
        Command::SetColumns { at, count, gutter_pt } => Some(
            DocOp::SetColumns { at, count, gutter_pt },
        ),
        Command::SetParagraphBorders { range, borders } => Some(
            DocOp::SetParagraphBorders {
                start: earlier(range),
                end: later(range),
                borders: border_goal(borders),
            },
        ),
        Command::InsertTable { at, rows, cols } => Some(DocOp::InsertTable { at, rows, cols }),
        Command::DeleteTable { path } => Some(DocOp::DeleteTable { path }),
        Command::InsertRow { table_path, row, side } => Some(
            DocOp::InsertRow { table: table_path, at: insert_at(row, side) as usize },
        ),
        Command::DeleteRow { table_path, row } => Some(DocOp::DeleteRow { table: table_path, row }),
        Command::InsertColumn { table_path, col, side } => Some(
            DocOp::InsertColumn { table: table_path, at: insert_at(col, side) as usize },
        ),
        Command::DeleteColumn { table_path, col } => Some(
            DocOp::DeleteColumn { table: table_path, col },
        ),
        Command::MergeCells { table_path, from_row, from_col, to_row, to_col } => Some(
            DocOp::MergeCells { table: table_path, from_row, from_col, to_row, to_col },
        ),
        Command::SplitCell { table_path, row, col } => Some(
            DocOp::SplitCell { table: table_path, row, col },
        ),
        Command::SetCellShading { table_path, row, col, color } => Some(
            DocOp::ShadeCell { table: table_path, row, col, color },
        ),
        Command::SetCellBorders { table_path, row, col, borders } => Some(
            DocOp::BorderCell { table: table_path, row, col, borders },
        ),
        Command::ResizeImage { path, at, width_emu, height_emu, story } => Some(
            DocOp::ResizeImage { path, at, width_emu, height_emu, story },
        ),
        Command::MoveImage { path, at, offset_h_emu, offset_v_emu, story } => Some(
            DocOp::MoveImage { path, at, offset_h_emu, offset_v_emu, story },
        ),
        Command::SetImageWrap { path, at, wrap, story } => Some(
            DocOp::WrapImage { path, at, wrap, story },
        ),
        Command::SetTableProperties { table_path, patch } => Some(
            DocOp::SetTableProperties { table: table_path, patch },
        ),
        Command::InsertSectionBreak { at, kind } => Some(DocOp::BreakSection { at, kind }),
        Command::SetHeaderFooterLink { linked } => Some(DocOp::LinkBand { linked }),
        Command::SetTitlePage { enabled } => Some(DocOp::SetTitlePage { enabled }),
        Command::SetEvenOddHeaders { enabled } => Some(DocOp::SetEvenOddHeaders { enabled }),
        Command::InsertField { at, kind } => Some(DocOp::InsertField { at, kind }),
        Command::InsertFootnote { at } => Some(
            DocOp::InsertNote { at, kind: NoteKind::Footnote },
        ),
        Command::InsertEndnote { at } => Some(DocOp::InsertNote { at, kind: NoteKind::Endnote }),
        Command::InsertTextBox { at, width_emu, height_emu } => Some(
            DocOp::InsertTextBox { at, width_emu, height_emu },
        ),
        Command::UpdateFields => Some(DocOp::UpdateFields),
        Command::SetFieldInstruction { at, instruction } => Some(
            DocOp::SetFieldInstruction { at, instruction },
        ),
        Command::InsertToc { at, switches } => Some(DocOp::InsertToc { at, switches }),
        Command::ChangeListLevel { range, delta } => Some(
            DocOp::ChangeListLevel { start: earlier(range), end: later(range), delta },
        ),
        Command::AcceptAllRevisions => Some(DocOp::AcceptAllRevisions),
        Command::RejectAllRevisions => Some(DocOp::RejectAllRevisions),
        Command::ReplyToComment { parent_id, text, author } => Some(
            DocOp::ReplyToComment { parent_id, text, author },
        ),
        Command::ModifyStyle { style_id, properties } => Some(
            DocOp::ModifyStyle { style_id, properties },
        ),
        _ => None,
    }
}

/// The alignment that a setting names.
pub open spec fn named_alignment(s: Seq<char>) -> Alignment {
    if reads_as(s, "JUSTIFY"@) {
        Alignment::Justify
    } else if reads_as(s, "END"@) {
        Alignment::End
    } else if reads_as(s, "CENTER"@) {
        Alignment::Center
    } else {
        Alignment::Start
    }
}

/// The direction that a setting names.
pub open spec fn named_direction(s: Seq<char>) -> Direction {
    if reads_as(s, "RTL"@) {
        Direction::Rtl
    } else {
        Direction::Ltr
    }
}

/// The direction that shaped text is given in: right to left for `RTL` and
/// `rtl` alone.
pub open spec fn shaped_direction(s: Seq<char>) -> Direction {
    if s == "RTL"@ || s == "rtl"@ {
        Direction::Rtl
    } else {
        Direction::Ltr
    }
}

/// The number one.
pub const ONE_BITS: u32 = 0x3F80_0000;

/// The scale of a display: the ratio that it gives, and one where that is
/// smaller or is not given.
pub open spec fn display_scale(ratio: Option<Real>) -> Real {
    match ratio {
        Some(r) if exceeds(r, Real { bits: ONE_BITS }) => r,
        _ => Real { bits: ONE_BITS },
    }
}

fn scale_of_display(ratio: Option<Real>) -> (r: Real)
    ensures
        r == display_scale(ratio),
{
    let one = Real { bits: ONE_BITS };
    match ratio {
        Some(r) => if check_exceeds(r, one) {
            r
        } else {
            one
        },
        None => one,
    }
}

/// A header or a footer is being edited.
pub open spec fn in_band(story: Option<HeaderFooterArea>) -> bool {
    story == Some(HeaderFooterArea::Header) || story == Some(HeaderFooterArea::Footer)
}

/// Why an editing command is refused, if it is: section breaks and fields do
/// not go into tables, notes, text boxes and tables of contents do not go into
/// tables or stories, and only a band links to the one before it.
pub open spec fn refusal(cmd: Command, s: Situation) -> Option<(&'static str, Refusal)> {
    match cmd {
        Command::InsertSectionBreak { at, .. } => if through_cell(at@.path) {
            Some(("InsertSectionBreak", Refusal::InTable))
        } else {
            None
        },
        Command::InsertField { at, .. } => if through_cell(at@.path) {
            Some(("InsertField", Refusal::InTable))
        } else {
            None
        },
        Command::InsertFootnote { at } => body_only("InsertFootnote", at@.path, s),
        Command::InsertEndnote { at } => body_only("InsertEndnote", at@.path, s),
        Command::InsertTextBox { at, .. } => body_only("InsertTextBox", at@.path, s),
        Command::InsertToc { at, .. } => body_only("InsertToc", at@.path, s),
        Command::SetHeaderFooterLink { .. } => if in_band(s.story) {
            None
        } else {
            Some(("SetHeaderFooterLink", Refusal::NotInBand))
        },
        _ => None,
    }
}

/// Why a command that only goes into the body outside tables is refused.
pub open spec fn body_only(name: &'static str, path: Seq<crate::common::PathStep>, s: Situation) -> Option<
    (&'static str, Refusal),
> {
    if through_cell(path) {
        Some((name, Refusal::InTable))
    } else if s.story is Some {
        Some((name, Refusal::InStory))
    } else {
        None
    }
}

fn check_body_only(name: &'static str, path: &BlockPath, s: Situation) -> (r: Option<
    (&'static str, Refusal),
>)
    ensures
        r == body_only(name, path@, s),
{
    if path.in_cell() {
        Some((name, Refusal::InTable))
    } else if s.story.is_some() {
        Some((name, Refusal::InStory))
    } else {
        None
    }
}

fn check_refusal(cmd: &Command, s: Situation) -> (r: Option<(&'static str, Refusal)>)
    ensures
        r == refusal(*cmd, s),
{
    match cmd {
        Command::InsertSectionBreak { at, .. } => if at.path.in_cell() {
            Some(("InsertSectionBreak", Refusal::InTable))
        } else {
            None
        },
        Command::InsertField { at, .. } => if at.path.in_cell() {
            Some(("InsertField", Refusal::InTable))
        } else {
            None
        },
        Command::InsertFootnote { at } => check_body_only("InsertFootnote", &at.path, s),
        Command::InsertEndnote { at } => check_body_only("InsertEndnote", &at.path, s),
        Command::InsertTextBox { at, .. } => check_body_only("InsertTextBox", &at.path, s),
        Command::InsertToc { at, .. } => check_body_only("InsertToc", &at.path, s),
        Command::SetHeaderFooterLink { .. } => match s.story {
            Some(HeaderFooterArea::Header) | Some(HeaderFooterArea::Footer) => None,
            _ => Some(("SetHeaderFooterLink", Refusal::NotInBand)),
        },
        _ => None,
    }
}

/// What a command comes to in a situation.
pub open spec fn routed(cmd: Command, s: Situation) -> Route {
    match refusal(cmd, s) {
        Some((name, why)) => Route::Refused { name, why },
        None => accepted(cmd, s),
    }
}

/// What a command comes to that is not refused.
pub open spec fn accepted(cmd: Command, s: Situation) -> Route {
    match cmd {
        Command::Ping => Route::Pong,
        Command::LoadFont { id, bytes } => Route::LoadFont { id, bytes },
        Command::RasterizeGlyph { font_id, ch, px_size } => if ch@.len() == 0 {
            Route::NoCharacter
        } else {
            Route::Rasterize { font_id, ch: ch@[0], px_size }
        },
        Command::ShapeAndRasterize { text, font_id, direction, px_size } => Route::Shape {
            text,
            font_id,
            direction: shaped_direction(direction@),
            px_size,
        },
        Command::RenderPage {
            text,
            font_id,
            base_direction,
            px_size,
            line_height,
            align,
            device_pixel_ratio,
        } => Route::Render {
            text,
            config: RenderConfig {
                font_id,
                base_direction: named_direction(base_direction@),
                px_size_bits: px_size.bits,
                line_height_bits: line_height.bits,
                alignment: named_alignment(align@),
            },
            scale: display_scale(device_pixel_ratio),
        },
        Command::InsertText { at, text } => match at {
            Some(at) => Route::Type { at, text },
            None => if s.has_selection {
                Route::TypeAtCaret { text }
            } else {
                Route::Append { text }
            },
        },
        Command::Undo => Route::Undo,
        Command::Redo => Route::Redo,
        Command::LoadDocx { bytes } => Route::Open { bytes, name: None },
        Command::SaveDocx => Route::Save { writer: Writer::Docx },
        Command::Init => Route::Unsupported { name: "Init" },
        Command::Recover { snapshot, log_tail, renderer_downgrade, package } => Route::Recover {
            base: if snapshot@.len() == 0 {
                None
            } else {
                Some(snapshot)
            },
            log_tail,
            renderer_downgrade,
            package,
        },
        Command::Snapshot { seq, detach_package, known_package_hash } => Route::Snapshot {
            seq: match seq {
                Some(n) => n,
                None => 0,
            },
            detach_package: detach_package == Some(true),
            known_package_hash,
        },
        Command::Dispose => Route::Unsupported { name: "Dispose" },
        Command::Tick => Route::Unsupported { name: "Tick" },
        Command::OpenDocument { bytes, format, name } => if format == DocFormat::Docx {
            Route::Open { bytes, name }
        } else {
            Route::WrongFormat { error: FormatError::CannotOpen }
        },
        Command::SaveDocument { format } => match writer_for(format) {
            Ok(writer) => Route::Save { writer },
            Err(error) => Route::WrongFormat { error },
        },
        Command::ExportPdf { conformance } => Route::Export {
            profile: if conformance == PdfConformance::A1b {
                PdfProfile::A1b
            } else {
                PdfProfile::Plain
            },
        },
        Command::CloseDocument => Route::Unsupported { name: "CloseDocument" },
        Command::DeleteRange { range } => Route::Delete { start: earlier(range), end: later(range) },
        Command::ReplaceRange { range, text } => Route::Replace {
            start: earlier(range),
            end: later(range),
            text,
        },
        Command::ApplyFormatting { range, attrs } => Route::Format { range, attrs },
        Command::ToggleFormatting { attr, underline_style } => Route::Toggle {
            attr,
            underline_style,
        },
        Command::SplitParagraph { at } => if at is None && !s.has_selection {
            Route::Refused { name: "SplitParagraph", why: Refusal::NoPlace }
        } else {
            Route::Split { at }
        },
        Command::MergeParagraph => Route::Unsupported { name: "MergeParagraph" },
        Command::SetSelection { range, caret } => Route::Select { range, caret },
        Command::ExtendSelection { to } => Route::Extend { to },
        Command::SelectAll => Route::SelectAll,
        Command::MoveCaret { direction, extend } => Route::Move { direction, extend },
        Command::BeginComposition { at } => Route::BeginComposition { at },
        Command::UpdateComposition { text, target_range } => Route::UpdateComposition {
            text,
            target_range,
        },
        Command::EndComposition { commit } => Route::EndComposition { commit },
        Command::SetViewport { rect } => Route::Viewport { rect },
        Command::SetZoom { scale } => {
            let scale = Real { bits: crate::edits::zoom_within(scale.bits) };
            if s.has_layout {
                Route::Zoom { scale }
            } else {
                Route::QueueZoom { scale }
            }
        },
        Command::SetDeviceScale { scale } => if s.has_layout {
            Route::DeviceScale { scale }
        } else {
            Route::QueueDeviceScale { scale }
        },
        Command::RequestPaint { viewport, dirty } => Route::Paint { viewport, dirty },
        Command::ExpandLayout { target_y } => Route::Expand { target_y },
        Command::UnloadFont => Route::Unsupported { name: "UnloadFont" },
        Command::RequestStats => Route::Stats,
        Command::HitTest { at } => Route::Hit { page: None, at },
        Command::HitTestInPage { page, at } => Route::Hit { page: Some(page), at },
        Command::PlaceCaretAtPoint { page, at } => Route::PlaceCaret { page, at },
        Command::ExtendSelectionToPoint { page, at } => Route::ExtendTo { page, at },
        Command::GetImageRects => Route::ImageRects,
        Command::SelectWordAt { at } => Route::SelectWord { at },
        Command::SelectParagraphAt { at } => Route::SelectParagraph { at },
        Command::SelectCellAt { at } => Route::SelectCell { at },
        Command::DeleteAtCaret { forward, by_word } => Route::DeleteAtCaret { forward, by_word },
        Command::RequestAccessibilityDelta => Route::AccessibilityDelta,
        Command::GetSelectionAsClipboard { include_docx } => Route::Clipboard {
            with_docx: include_docx != Some(false),
        },
        Command::PastePlain { text } => Route::PastePlain { text },
        Command::PasteHtml { html } => Route::PasteHtml { html },
        Command::InsertPageBreak { at } => if s.story is Some {
            Route::Refused { name: "InsertPageBreak", why: Refusal::InStory }
        } else {
            Route::PageBreak { at }
        },
        Command::EnterHeaderFooter { page, area } => if in_band(Some(area)) {
            Route::EnterStory { page, area }
        } else {
            Route::Refused { name: "EnterHeaderFooter", why: Refusal::EnteredByContent }
        },
        Command::ExitHeaderFooter => Route::ExitStory,
        Command::SetRenderDate { year, month, day, hour, minute } => Route::RenderDate {
            year,
            month,
            day,
            clock: match (hour, minute) {
                (Some(h), Some(m)) => Some((h, m)),
                _ => None,
            },
        },
        Command::SetFieldCodeView { enabled } => Route::FieldCodes { enabled },
        Command::ToggleTrackChanges { enabled } => Route::TrackChanges { enabled },
        Command::SetReviewIdentity { author, date } => Route::Reviewer { author, date },
        _ => Route::Edit { op: op_of(cmd)->0 },
    }
}

fn in_order(range: LogicalRange) -> (r: (LogicalPos, LogicalPos))
    ensures
        r.0 == earlier(range),
        r.1 == later(range),
{
    ordered(range.start, range.end)
}

/// What a command comes to in a situation.
pub fn apply(cmd: Command, s: Situation) -> (r: Route)
    ensures
        r == routed(cmd, s),
        cmd is Ping ==> r is Pong,
        cmd is Undo ==> r is Undo,
        cmd is Redo ==> r is Redo,
        cmd is SaveDocx ==> r == (Route::Save { writer: Writer::Docx }),
        cmd is SelectAll ==> r is SelectAll,
        cmd is RequestStats ==> r is Stats,
        cmd is GetImageRects ==> r is ImageRects,
        cmd is RequestAccessibilityDelta ==> r is AccessibilityDelta,
        cmd is ExitHeaderFooter ==> r is ExitStory,
        cmd is UpdateFields ==> r == (Route::Edit { op: DocOp::UpdateFields }),
        cmd is AcceptAllRevisions ==> r == (Route::Edit { op: DocOp::AcceptAllRevisions }),
        cmd is RejectAllRevisions ==> r == (Route::Edit { op: DocOp::RejectAllRevisions }),
        cmd matches Command::DeleteRange { range }
            ==> r == (Route::Delete { start: earlier(range), end: later(range) }),
        cmd matches Command::ReplaceRange { range, text }
            ==> r == (Route::Replace { start: earlier(range), end: later(range), text }),
        cmd matches Command::MoveCaret { direction, extend }
            ==> r == (Route::Move { direction, extend }),
        cmd matches Command::DeleteAtCaret { forward, by_word }
            ==> r == (Route::DeleteAtCaret { forward, by_word }),
        cmd matches Command::PastePlain { text } ==> r == (Route::PastePlain { text }),
        cmd matches Command::PasteHtml { html } ==> r == (Route::PasteHtml { html }),
        cmd matches Command::AcceptRevision { block, start, end }
            ==> r == (Route::Edit { op: DocOp::AcceptRevision { block, start, end } }),
        cmd matches Command::RejectRevision { block, start, end }
            ==> r == (Route::Edit { op: DocOp::RejectRevision { block, start, end } }),
        cmd matches Command::InsertTable { at, rows, cols }
            ==> r == (Route::Edit { op: DocOp::InsertTable { at, rows, cols } }),
        cmd matches Command::DeleteTable { path }
            ==> r == (Route::Edit { op: DocOp::DeleteTable { path } }),
        cmd matches Command::InsertText { at: Some(at), text } ==> r == (Route::Type { at, text }),
        cmd matches Command::InsertText { at: None, text }
            ==> r == if s.has_selection {
                (Route::TypeAtCaret { text })
            } else {
                (Route::Append { text })
            },
        cmd matches Command::SaveDocument { format: DocFormat::Docx }
            ==> r == (Route::Save { writer: Writer::Docx }),
        cmd matches Command::SaveDocument { format: DocFormat::Html }
            ==> r == (Route::Save { writer: Writer::Html }),
        cmd matches Command::SaveDocument { format: DocFormat::PlainText }
            ==> r == (Route::Save { writer: Writer::PlainText }),
        cmd matches Command::SaveDocument { format: DocFormat::Pdf }
            ==> r == (Route::WrongFormat { error: FormatError::UseExport }),
{
    route_of(cmd, s)
}

fn route_of(cmd: Command, s: Situation) -> (r: Route)
    ensures
        r == routed(cmd, s),
{
    if let Some((name, why)) = check_refusal(&cmd, s) {
        return Route::Refused { name, why };
    }
    match cmd {
        Command::Ping => Route::Pong,
        Command::LoadFont { id, bytes } => Route::LoadFont { id, bytes },
        Command::RasterizeGlyph { font_id, ch, px_size } => {
            let chars = chars_of(&ch);
            if chars.len() == 0 {
                Route::NoCharacter
            } else {
                Route::Rasterize { font_id, ch: chars[0], px_size }
            }
        },
        Command::ShapeAndRasterize { text, font_id, direction, px_size } => {
            let rtl: bool = crate::text::same_text(&direction, "RTL") || crate::text::same_text(
                &direction,
                "rtl",
            );
            Route::Shape {
                text,
                font_id,
                direction: if rtl {
                    Direction::Rtl
                } else {
                    Direction::Ltr
                },
                px_size,
            }
        },
        Command::RenderPage {
            text,
            font_id,
            base_direction,
            px_size,
            line_height,
            align,
            device_pixel_ratio,
        } => Route::Render {
            text,
            config: RenderConfig {
                font_id,
                base_direction: parse_direction(&base_direction),
                px_size_bits: px_size.bits,
                line_height_bits: line_height.bits,
                alignment: parse_alignment(&align),
            },
            scale: scale_of_display(device_pixel_ratio),
        },
        Command::InsertText { at, text } => match at {
            Some(at) => Route::Type { at, text },
            None => if s.has_selection {
                Route::TypeAtCaret { text }
            } else {
                Route::Append { text }
            },
        },
        Command::Undo => Route::Undo,
        Command::Redo => Route::Redo,
        Command::LoadDocx { bytes } => Route::Open { bytes, name: None },
        Command::SaveDocx => Route::Save { writer: Writer::Docx },
        Command::Init => Route::Unsupported { name: "Init" },
        Command::Recover { snapshot, log_tail, renderer_downgrade, package } => Route::Recover {
            base: if snapshot.len() == 0 {
                None
            } else {
                Some(snapshot)
            },
            log_tail,
            renderer_downgrade,
            package,
        },
        Command::Snapshot { seq, detach_package, known_package_hash } => Route::Snapshot {
            seq: match seq {
                Some(n) => n,
                None => 0,
            },
            detach_package: match detach_package {
                Some(b) => b,
                None => false,
            },
            known_package_hash,
        },
        Command::Dispose => Route::Unsupported { name: "Dispose" },
        Command::Tick => Route::Unsupported { name: "Tick" },
        Command::OpenDocument { bytes, format, name } => match open_format(format) {
            Ok(()) => Route::Open { bytes, name },
            Err(error) => Route::WrongFormat { error },
        },
        Command::SaveDocument { format } => match save_format(format) {
            Ok(writer) => Route::Save { writer },
            Err(error) => Route::WrongFormat { error },
        },
        Command::ExportPdf { conformance } => Route::Export { profile: pdf_profile(conformance) },
        Command::CloseDocument => Route::Unsupported { name: "CloseDocument" },
        Command::DeleteRange { range } => {
            let (start, end) = in_order(range);
            Route::Delete { start, end }
        },
        Command::ReplaceRange { range, text } => {
            let (start, end) = in_order(range);
            Route::Replace { start, end, text }
        },
        Command::ApplyFormatting { range, attrs } => Route::Format { range, attrs },
        Command::ToggleFormatting { attr, underline_style } => Route::Toggle {
            attr,
            underline_style,
        },
        Command::SplitParagraph { at } => if at.is_none() && !s.has_selection {
            Route::Refused { name: "SplitParagraph", why: Refusal::NoPlace }
        } else {
            Route::Split { at }
        },
        Command::MergeParagraph => Route::Unsupported { name: "MergeParagraph" },
        Command::InsertImage { at, image, fit } => {
            let (width_emu, height_emu): (i64, i64) = image_size(image.width, image.height, fit);
            Route::Edit {
                op: DocOp::InsertImage {
                    at,
                    mime: image.mime,
                    bytes: image.bytes,
                    width_emu,
                    height_emu,
                },
            }
        },
        Command::SetSelection { range, caret } => Route::Select { range, caret },
        Command::ExtendSelection { to } => Route::Extend { to },
        Command::SelectAll => Route::SelectAll,
        Command::MoveCaret { direction, extend } => Route::Move { direction, extend },
        Command::BeginComposition { at } => Route::BeginComposition { at },
        Command::UpdateComposition { text, target_range } => Route::UpdateComposition {
            text,
            target_range,
        },
        Command::EndComposition { commit } => Route::EndComposition { commit },
        Command::SetViewport { rect } => Route::Viewport { rect },
        Command::SetZoom { scale } => {
            let scale = Real { bits: crate::edits::clamp_zoom(scale.bits) };
            if s.has_layout {
                Route::Zoom { scale }
            } else {
                Route::QueueZoom { scale }
            }
        },
        Command::SetDeviceScale { scale } => if s.has_layout {
            Route::DeviceScale { scale }
        } else {
            Route::QueueDeviceScale { scale }
        },
        Command::RequestPaint { viewport, dirty } => Route::Paint { viewport, dirty },
        Command::ExpandLayout { target_y } => Route::Expand { target_y },
        Command::UnloadFont => Route::Unsupported { name: "UnloadFont" },
        Command::RequestStats => Route::Stats,
        Command::HitTest { at } => Route::Hit { page: None, at },
        Command::HitTestInPage { page, at } => Route::Hit { page: Some(page), at },
        Command::PlaceCaretAtPoint { page, at } => Route::PlaceCaret { page, at },
        Command::ExtendSelectionToPoint { page, at } => Route::ExtendTo { page, at },
        Command::GetImageRects => Route::ImageRects,
        Command::SelectWordAt { at } => Route::SelectWord { at },
        Command::SelectParagraphAt { at } => Route::SelectParagraph { at },
        Command::SelectCellAt { at } => Route::SelectCell { at },
        Command::DeleteAtCaret { forward, by_word } => Route::DeleteAtCaret { forward, by_word },
        Command::RequestAccessibilityDelta => Route::AccessibilityDelta,
        Command::GetSelectionAsClipboard { include_docx } => Route::Clipboard {
            with_docx: match include_docx {
                Some(b) => b,
                None => true,
            },
        },
        Command::PastePlain { text } => Route::PastePlain { text },
        Command::PasteHtml { html } => Route::PasteHtml { html },
        Command::SetParagraphAlign { range, align } => {
            let (start, end) = in_order(range);
            Route::Edit { op: DocOp::SetAlignment { start, end, align } }
        },
        Command::SetParagraphDirection { range, direction } => {
            let (start, end) = in_order(range);
            Route::Edit { op: DocOp::SetDirection { start, end, direction } }
        },
        Command::InsertTable { at, rows, cols } => Route::Edit {
            op: DocOp::InsertTable { at, rows, cols },
        },
        Command::DeleteTable { path } => Route::Edit { op: DocOp::DeleteTable { path } },
        Command::InsertRow { table_path, row, side } => Route::Edit {
            op: DocOp::InsertRow { table: table_path, at: insert_index(row, side) },
        },
        Command::DeleteRow { table_path, row } => Route::Edit {
            op: DocOp::DeleteRow { table: table_path, row },
        },
        Command::InsertColumn { table_path, col, side } => Route::Edit {
            op: DocOp::InsertColumn { table: table_path, at: insert_index(col, side) },
        },
        Command::DeleteColumn { table_path, col } => Route::Edit {
            op: DocOp::DeleteColumn { table: table_path, col },
        },
        Command::MergeCells { table_path, from_row, from_col, to_row, to_col } => Route::Edit {
            op: DocOp::MergeCells { table: table_path, from_row, from_col, to_row, to_col },
        },
        Command::SplitCell { table_path, row, col } => Route::Edit {
            op: DocOp::SplitCell { table: table_path, row, col },
        },
        Command::SetCellShading { table_path, row, col, color } => Route::Edit {
            op: DocOp::ShadeCell { table: table_path, row, col, color },
        },
        Command::SetCellBorders { table_path, row, col, borders } => Route::Edit {
            op: DocOp::BorderCell { table: table_path, row, col, borders },
        },
        Command::ResizeImage { path, at, width_emu, height_emu, story } => Route::Edit {
            op: DocOp::ResizeImage { path, at, width_emu, height_emu, story },
        },
        Command::MoveImage { path, at, offset_h_emu, offset_v_emu, story } => Route::Edit {
            op: DocOp::MoveImage { path, at, offset_h_emu, offset_v_emu, story },
        },
        Command::SetImageWrap { path, at, wrap, story } => Route::Edit {
            op: DocOp::WrapImage { path, at, wrap, story },
        },
        Command::SetTableProperties { table_path, patch } => Route::Edit {
            op: DocOp::SetTableProperties { table: table_path, patch },
        },
        Command::SetColumns { at, count, gutter_pt } => Route::Edit {
            op: DocOp::SetColumns { at, count, gutter_pt },
        },
        Command::InsertPageBreak { at } => if s.story.is_some() {
            Route::Refused { name: "InsertPageBreak", why: Refusal::InStory }
        } else {
            Route::PageBreak { at }
        },
        Command::InsertSectionBreak { at, kind } => Route::Edit {
            op: DocOp::BreakSection { at, kind },
        },
        Command::EnterHeaderFooter { page, area } => match area {
            HeaderFooterArea::Header | HeaderFooterArea::Footer => Route::EnterStory { page, area },
            _ => Route::Refused { name: "EnterHeaderFooter", why: Refusal::EnteredByContent },
        },
        Command::ExitHeaderFooter => Route::ExitStory,
        Command::SetHeaderFooterLink { linked } => Route::Edit { op: DocOp::LinkBand { linked } },
        Command::SetTitlePage { enabled } => Route::Edit { op: DocOp::SetTitlePage { enabled } },
        Command::SetEvenOddHeaders { enabled } => Route::Edit {
            op: DocOp::SetEvenOddHeaders { enabled },
        },
        Command::InsertField { at, kind } => Route::Edit { op: DocOp::InsertField { at, kind } },
        Command::InsertFootnote { at } => Route::Edit {
            op: DocOp::InsertNote { at, kind: NoteKind::Footnote },
        },
        Command::InsertEndnote { at } => Route::Edit {
            op: DocOp::InsertNote { at, kind: NoteKind::Endnote },
        },
        Command::InsertTextBox { at, width_emu, height_emu } => Route::Edit {
            op: DocOp::InsertTextBox { at, width_emu, height_emu },
        },
        Command::SetRenderDate { year, month, day, hour, minute } => {
            let clock: Option<(u32, u32)> = match (hour, minute) {
                (Some(h), Some(m)) => Some((h, m)),
                _ => None,
            };
            Route::RenderDate { year, month, day, clock }
        },
        Command::UpdateFields => Route::Edit { op: DocOp::UpdateFields },
        Command::SetFieldCodeView { enabled } => Route::FieldCodes { enabled },
        Command::SetFieldInstruction { at, instruction } => Route::Edit {
            op: DocOp::SetFieldInstruction { at, instruction },
        },
        Command::InsertToc { at, switches } => Route::Edit {
            op: DocOp::InsertToc { at, switches },
        },
        Command::SetParagraphBorders { range, borders } => {
            let (start, end) = in_order(range);
            Route::Edit {
                op: DocOp::SetParagraphBorders { start, end, borders: border_target(borders) },
            }
        },
        Command::SetPageMargins { at, top, right, bottom, left } => Route::Edit {
            op: DocOp::SetMargins { at, top, right, bottom, left },
        },
        Command::SetPageOrientation { at, orientation } => Route::Edit {
            op: DocOp::SetOrientation { at, landscape: orientation == PageOrientation::Landscape },
        },
        Command::ToggleList { range, kind } => {
            let (start, end) = in_order(range);
            Route::Edit { op: DocOp::SetList { start, end, kind } }
        },
        Command::ChangeListLevel { range, delta } => {
            let (start, end) = in_order(range);
            Route::Edit { op: DocOp::ChangeListLevel { start, end, delta } }
        },
        Command::SetParagraphIndent { range, start_pt, end_pt, first_line_pt } => {
            let (start, end) = in_order(range);
            Route::Edit { op: DocOp::SetIndent { start, end, start_pt, end_pt, first_line_pt } }
        },
        Command::SetTabStops { range, stops } => {
            let (start, end) = in_order(range);
            Route::Edit { op: DocOp::SetTabStops { start, end, stops } }
        },
        Command::ApplyStyle { range, style_id } => {
            let (start, end) = in_order(range);
            Route::Edit { op: DocOp::SetStyle { start, end, style_id } }
        },
        Command::SetLineSpacing { range, multiplier } => {
            let (start, end) = in_order(range);
            Route::Edit { op: DocOp::SetLineSpacing { start, end, multiplier } }
        },
        Command::SetParagraphShading { range, color } => {
            let (start, end) = in_order(range);
            Route::Edit { op: DocOp::SetShading { start, end, color } }
        },
        Command::ToggleTrackChanges { enabled } => Route::TrackChanges { enabled },
        Command::AcceptAllRevisions => Route::Edit { op: DocOp::AcceptAllRevisions },
        Command::RejectAllRevisions => Route::Edit { op: DocOp::RejectAllRevisions },
        Command::SetReviewIdentity { author, date } => Route::Reviewer { author, date },
        Command::AcceptRevision { block, start, end } => Route::Edit {
            op: DocOp::AcceptRevision { block, start, end },
        },
        Command::RejectRevision { block, start, end } => Route::Edit {
            op: DocOp::RejectRevision { block, start, end },
        },
        Command::InsertComment { range, text, author } => {
            let (start, end) = in_order(range);
            Route::Edit { op: DocOp::InsertComment { start, end, text, author } }
        },
        Command::DeleteComment { id } => Route::Edit { op: DocOp::DeleteComment { id } },
        Command::ResolveComment { id, resolved } => Route::Edit {
            op: DocOp::ResolveComment { id, resolved },
        },
        Command::ReplyToComment { parent_id, text, author } => Route::Edit {
            op: DocOp::ReplyToComment { parent_id, text, author },
        },
        Command::ModifyStyle { style_id, properties } => Route::Edit {
            op: DocOp::ModifyStyle { style_id, properties },
        },
    }
}

/// A change drops the kept layouts. Those that lay paragraphs out as before, or
/// whose paragraphs are told apart by what they hold, keep them.
pub open spec fn drops_layouts(op: DocOp) -> bool {
    match op {
        DocOp::SetAlignment { .. } | DocOp::SetDirection { .. } => false,
        DocOp::ResolveComment { .. } => false,
        DocOp::SetColumns { .. } => false,
        DocOp::SetParagraphBorders { .. } => false,
        DocOp::InsertTable { .. } | DocOp::DeleteTable { .. } => false,
        DocOp::InsertRow { .. } | DocOp::DeleteRow { .. } => false,
        DocOp::InsertColumn { .. } | DocOp::DeleteColumn { .. } => false,
        DocOp::MergeCells { .. } | DocOp::SplitCell { .. } => false,
        DocOp::ShadeCell { .. } | DocOp::BorderCell { .. } => false,
        _ => true,
    }
}

/// Whether a change drops the kept layouts.
pub fn clears_layout_cache(op: &DocOp) -> (r: bool)
    ensures
        r == drops_layouts(*op),
{
    match op {
        DocOp::SetAlignment { .. } | DocOp::SetDirection { .. } => false,
        DocOp::ResolveComment { .. } => false,
        DocOp::SetColumns { .. } => false,
        DocOp::SetParagraphBorders { .. } => false,
        DocOp::InsertTable { .. } | DocOp::DeleteTable { .. } => false,
        DocOp::InsertRow { .. } | DocOp::DeleteRow { .. } => false,
        DocOp::InsertColumn { .. } | DocOp::DeleteColumn { .. } => false,
        DocOp::MergeCells { .. } | DocOp::SplitCell { .. } => false,
        DocOp::ShadeCell { .. } | DocOp::BorderCell { .. } => false,
        _ => true,
    }
}

/// A command drops the kept layouts: fonts, a new document and the scale feed
/// all of them.
pub open spec fn drops_kept_layouts(r: Route) -> bool {
    match r {
        Route::LoadFont { .. } => true,
        Route::Render { .. } => true,
        Route::Open { .. } | Route::Recover { .. } => true,
        Route::Zoom { .. } | Route::DeviceScale { .. } => true,
        Route::FieldCodes { .. } | Route::RenderDate { .. } => true,
        Route::Edit { op } => drops_layouts(op),
        _ => false,
    }
}

/// Whether a command drops the kept layouts.
pub fn clears_kept_layouts(route: &Route) -> (r: bool)
    ensures
        r == drops_kept_layouts(*route),
{
    match route {
        Route::LoadFont { .. } => true,
        Route::Render { .. } => true,
        Route::Open { .. } | Route::Recover { .. } => true,
        Route::Zoom { .. } | Route::DeviceScale { .. } => true,
        Route::FieldCodes { .. } | Route::RenderDate { .. } => true,
        Route::Edit { op } => clears_layout_cache(op),
        _ => false,
    }
}

/// Whether a change has to be painted. Only resolving a comment shows nowhere
/// on the page.
pub fn repaints(op: &DocOp) -> (r: bool)
    ensures
        r == !(*op is ResolveComment),
{
    match op {
        DocOp::ResolveComment { .. } => false,
        _ => true,
    }
}

/// The story that a change leads into: a new note or text box is edited at once.
pub open spec fn leads_into(op: DocOp) -> Option<HeaderFooterArea> {
    match op {
        DocOp::InsertNote { kind, .. } => Some(
            match kind {
                NoteKind::Footnote => HeaderFooterArea::Footnote,
                NoteKind::Endnote => HeaderFooterArea::Endnote,
            },
        ),
        DocOp::InsertTextBox { .. } => Some(HeaderFooterArea::TextBox),
        _ => None,
    }
}

/// The story that a change leads into.
pub fn story_entered(op: &DocOp) -> (r: Option<HeaderFooterArea>)
    ensures
        r == leads_into(*op),
{
    match op {
        DocOp::InsertNote { kind, .. } => match kind {
            NoteKind::Footnote => Some(HeaderFooterArea::Footnote),
            NoteKind::Endnote => Some(HeaderFooterArea::Endnote),
        },
        DocOp::InsertTextBox { .. } => Some(HeaderFooterArea::TextBox),
        _ => None,
    }
}

/// Whether a change may take text from under the selection, so that its ends
/// have to be moved back into the document: settling tracked changes does.
pub fn shortens(op: &DocOp) -> (r: bool)
    ensures
        r == (*op is AcceptRevision || *op is RejectRevision || *op is AcceptAllRevisions
            || *op is RejectAllRevisions),
{
    match op {
        DocOp::AcceptRevision { .. } | DocOp::RejectRevision { .. } => true,
        DocOp::AcceptAllRevisions | DocOp::RejectAllRevisions => true,
        _ => false,
    }
}

/// What is said aloud after a change.
pub open spec fn spoken_after(op: DocOp) -> Option<Seq<char>> {
    match op {
        DocOp::SetAlignment { align, .. } => Some(align_words(align)),
        DocOp::SetDirection { direction, .. } => Some(direction_words(direction)),
        DocOp::AcceptRevision { .. } => Some("Revision accepted"@),
        DocOp::RejectRevision { .. } => Some("Revision rejected"@),
        DocOp::InsertComment { .. } => Some("Comment added"@),
        DocOp::DeleteComment { .. } => Some("Comment deleted"@),
        DocOp::ResolveComment { resolved, .. } => Some(
            if resolved {
                "Comment resolved"@
            } else {
                "Comment reopened"@
            },
        ),
        DocOp::SetTabStops { .. } => Some("Tab stops updated"@),
        DocOp::SetStyle { style_id, .. } => Some(style_words(crate::event::opt_chars(style_id))),
        _ => None,
    }
}

/// What is said aloud after a change.
pub fn announcement(op: &DocOp) -> (r: Option<String>)
    ensures
        match r {
            Some(s) => spoken_after(*op) == Some(s@),
            None => spoken_after(*op) is None,
        },
{
    match op {
        DocOp::SetAlignment { align, .. } => Some(align_label(*align).to_string()),
        DocOp::SetDirection { direction, .. } => Some(direction_label(*direction).to_string()),
        DocOp::AcceptRevision { .. } => Some("Revision accepted".to_string()),
        DocOp::RejectRevision { .. } => Some("Revision rejected".to_string()),
        DocOp::InsertComment { .. } => Some("Comment added".to_string()),
        DocOp::DeleteComment { .. } => Some("Comment deleted".to_string()),
        DocOp::ResolveComment { resolved, .. } => Some(resolve_label(*resolved).to_string()),
        DocOp::SetTabStops { .. } => Some("Tab stops updated".to_string()),
        DocOp::SetStyle { style_id, .. } => Some(style_label(style_id)),
        _ => None,
    }
}

/// A range that an edit names goes from its earlier to its later end, whichever
/// way round the command gave it.
pub proof fn law_ranges_are_put_in_order(range: LogicalRange)
    ensures
        pos_order(earlier(range)@, later(range)@) <= 0,
        (earlier(range) == range.start && later(range) == range.end) || (earlier(range)
            == range.end && later(range) == range.start),
{
    crate::common::law_pos_order_flips(range.start@, range.end@);
}

/// A command only reads, views or selects: it never changes the document.
pub open spec fn is_query(r: Route) -> bool {
    match r {
        Route::Render { .. } => false,
        Route::Type { .. } | Route::TypeAtCaret { .. } | Route::Append { .. } => false,
        Route::Undo | Route::Redo => false,
        Route::Open { .. } | Route::Recover { .. } => false,
        Route::Delete { .. } | Route::Replace { .. } | Route::Split { .. } => false,
        Route::Format { .. } | Route::Toggle { .. } => false,
        Route::EndComposition { commit } => !commit,
        Route::DeleteAtCaret { .. } => false,
        Route::PastePlain { .. } | Route::PasteHtml { .. } => false,
        Route::Edit { .. } | Route::PageBreak { .. } => false,
        // A band that no section has is made.
        Route::EnterStory { .. } => false,
        // Past the last cell of a table this key adds a row.
        Route::Move { direction, .. } => direction != MoveDirection::NextCell,
        _ => true,
    }
}

/// Whether a command only reads, views or selects, so that nothing that mirrors
/// the document has to look at it again.
pub fn leaves_document(route: &Route) -> (r: bool)
    ensures
        r == is_query(*route),
{
    match route {
        Route::Render { .. } => false,
        Route::Type { .. } | Route::TypeAtCaret { .. } | Route::Append { .. } => false,
        Route::Undo | Route::Redo => false,
        Route::Open { .. } | Route::Recover { .. } => false,
        Route::Delete { .. } | Route::Replace { .. } | Route::Split { .. } => false,
        Route::Format { .. } | Route::Toggle { .. } => false,
        Route::EndComposition { commit } => !*commit,
        Route::DeleteAtCaret { .. } => false,
        Route::PastePlain { .. } | Route::PasteHtml { .. } => false,
        Route::Edit { .. } | Route::PageBreak { .. } => false,
        Route::EnterStory { .. } => false,
        Route::Move { direction, .. } => *direction != MoveDirection::NextCell,
        _ => true,
    }
}

/// No command that asks for a change of the document, and is not refused, counts
/// as a query.
pub proof fn law_edits_are_no_queries(cmd: Command, s: Situation)
    requires
        op_of(cmd) is Some,
        refusal(cmd, s) is None,
    ensures
        routed(cmd, s) == (Route::Edit { op: op_of(cmd)->0 }),
        !is_query(routed(cmd, s)),
{
}

/// A command that is refused leaves the document as it is.
pub proof fn law_refused_commands_change_nothing(cmd: Command, s: Situation)
    requires
        refusal(cmd, s) is Some,
    ensures
        is_query(routed(cmd, s)),
{
}

/// Inside a table no command breaks a section, and none puts in a field, a note,
/// a text box or a table of contents.
pub proof fn law_tables_hold_plain_content(at: LogicalPos, s: Situation)
    requires
        through_cell(at@.path),
    ensures
        forall|kind: SectionBreakKind|
            is_query(#[trigger] routed(Command::InsertSectionBreak { at, kind }, s)),
        forall|kind: FieldKind| is_query(#[trigger] routed(Command::InsertField { at, kind }, s)),
        is_query(routed(Command::InsertFootnote { at }, s)),
        is_query(routed(Command::InsertEndnote { at }, s)),
        forall|width_emu: i64, height_emu: i64|
            is_query(
                #[trigger] routed(Command::InsertTextBox { at, width_emu, height_emu }, s),
            ),
        forall|switches: TocSwitches|
            is_query(#[trigger] routed(Command::InsertToc { at, switches }, s)),
{
}

/// Commands on documents, fonts and the view come to what they name.
pub proof fn law_session_commands(s: Situation)
    ensures
        forall|id: String, bytes: Vec<u8>|
            #[trigger] routed(Command::LoadFont { id, bytes }, s)
                == (Route::LoadFont { id, bytes }),
        forall|bytes: Vec<u8>|
            #[trigger] routed(Command::LoadDocx { bytes }, s)
                == (Route::Open { bytes, name: None }),
        forall|range: LogicalRange|
            #[trigger] routed(Command::DeleteRange { range }, s)
                == (Route::Delete { start: earlier(range), end: later(range) }),
        forall|range: LogicalRange, text: String|
            #[trigger] routed(Command::ReplaceRange { range, text }, s)
                == (Route::Replace { start: earlier(range), end: later(range), text }),
        forall|rect: Rect|
            #[trigger] routed(Command::SetViewport { rect }, s) == (Route::Viewport { rect }),
        forall|viewport: Rect, dirty: Option<Rect>|
            #[trigger] routed(Command::RequestPaint { viewport, dirty }, s)
                == (Route::Paint { viewport, dirty }),
        forall|target_y: i64|
            #[trigger] routed(Command::ExpandLayout { target_y }, s)
                == (Route::Expand { target_y }),
        forall|bytes: Vec<u8>, name: Option<String>|
            #[trigger] routed(Command::OpenDocument { bytes, format: DocFormat::Docx, name }, s)
                == (Route::Open { bytes, name }),
        forall|format: DocFormat, bytes: Vec<u8>, name: Option<String>|
            format != DocFormat::Docx
                ==> (#[trigger] routed(Command::OpenDocument {
                    format, bytes, name,
                }, s)) is WrongFormat,
        routed(Command::SaveDocument { format: DocFormat::Docx }, s) == (Route::Save { writer: Writer::Docx }),
        routed(Command::SaveDocument { format: DocFormat::Html }, s) == (Route::Save { writer: Writer::Html }),
        routed(Command::SaveDocument { format: DocFormat::PlainText }, s) == (Route::Save { writer: Writer::PlainText }),
        routed(Command::SaveDocument { format: DocFormat::Pdf }, s) == (Route::WrongFormat { error: FormatError::UseExport }),
        forall|conformance: PdfConformance|
            #[trigger] routed(Command::ExportPdf { conformance }, s) == (Route::Export { profile: if conformance == PdfConformance::A1b {
                PdfProfile::A1b
            } else {
                PdfProfile::Plain }
            }),
        forall|scale: Real|
            if s.has_layout {
                (#[trigger] routed(Command::SetZoom { scale }, s)) is Zoom
            } else {
                routed(Command::SetZoom { scale }, s) is QueueZoom
            },
        forall|scale: Real|
            #[trigger] routed(Command::SetDeviceScale { scale }, s) == if s.has_layout {
                (Route::DeviceScale { scale })
            } else {
                (Route::QueueDeviceScale { scale })
            },
        forall|font_id: String, ch: String, px_size: Real|
            if ch@.len() == 0 {
                (#[trigger] routed(Command::RasterizeGlyph {
                    font_id, ch, px_size,
                }, s)) is NoCharacter
            } else {
                routed(Command::RasterizeGlyph { font_id, ch, px_size }, s)
                    == (Route::Rasterize { font_id, ch: ch@[0], px_size })
            },
        forall|n: u64, detach_package: Option<bool>, known_package_hash: Option<String>|
            #[trigger] routed(Command::Snapshot {
                seq: Some(n), detach_package, known_package_hash,
            }, s)
                == (Route::Snapshot {
                    seq: n, detach_package: detach_package == Some(true), known_package_hash,
                }),
        forall|detach_package: Option<bool>, known_package_hash: Option<String>|
            #[trigger] routed(Command::Snapshot {
                seq: None, detach_package, known_package_hash,
            }, s)
                == (Route::Snapshot {
                    seq: 0, detach_package: detach_package == Some(true), known_package_hash,
                }),
        forall|snapshot: Vec<u8>, log_tail: Vec<Command>, renderer_downgrade: Option<RendererDowngrade>, package: Option<Vec<u8>>|
            snapshot@.len() > 0
                ==> #[trigger] routed(Command::Recover {
                    snapshot, log_tail, renderer_downgrade, package,
                }, s)
                    == (Route::Recover {
                        base: Some(snapshot), log_tail, renderer_downgrade, package,
                    }),
        forall|snapshot: Vec<u8>, log_tail: Vec<Command>, renderer_downgrade: Option<RendererDowngrade>, package: Option<Vec<u8>>|
            snapshot@.len() == 0
                ==> #[trigger] routed(Command::Recover {
                    snapshot, log_tail, renderer_downgrade, package,
                }, s)
                    == (Route::Recover { base: None, log_tail, renderer_downgrade, package }),
{
}

/// Commands on the caret, the selection and the clipboard come to what they
/// name, at the same place.
pub proof fn law_caret_commands(s: Situation)
    ensures
        forall|range: LogicalRange, caret: LogicalPos|
            #[trigger] routed(Command::SetSelection { range, caret }, s)
                == (Route::Select { range, caret }),
        forall|to: LogicalPos|
            #[trigger] routed(Command::ExtendSelection { to }, s) == (Route::Extend { to }),
        forall|direction: MoveDirection, extend: bool|
            #[trigger] routed(Command::MoveCaret { direction, extend }, s)
                == (Route::Move { direction, extend }),
        forall|at: Option<LogicalPos>|
            #[trigger] routed(Command::BeginComposition { at }, s)
                == (Route::BeginComposition { at }),
        forall|text: String, target_range: Option<LogicalRange>|
            #[trigger] routed(Command::UpdateComposition { text, target_range }, s)
                == (Route::UpdateComposition { text, target_range }),
        forall|commit: bool|
            #[trigger] routed(Command::EndComposition { commit }, s)
                == (Route::EndComposition { commit }),
        forall|at: Point|
            #[trigger] routed(Command::HitTest { at }, s) == (Route::Hit { page: None, at }),
        forall|page: u32, at: Point|
            #[trigger] routed(Command::PlaceCaretAtPoint { page, at }, s)
                == (Route::PlaceCaret { page, at }),
        forall|page: u32, at: Point|
            #[trigger] routed(Command::ExtendSelectionToPoint { page, at }, s)
                == (Route::ExtendTo { page, at }),
        forall|at: Point|
            #[trigger] routed(Command::SelectWordAt { at }, s) == (Route::SelectWord { at }),
        forall|forward: bool, by_word: bool|
            #[trigger] routed(Command::DeleteAtCaret { forward, by_word }, s)
                == (Route::DeleteAtCaret { forward, by_word }),
        forall|text: String|
            #[trigger] routed(Command::PastePlain { text }, s) == (Route::PastePlain { text }),
        forall|html: String|
            #[trigger] routed(Command::PasteHtml { html }, s) == (Route::PasteHtml { html }),
        forall|at: LogicalPos, text: String|
            #[trigger] routed(Command::InsertText { at: Some(at), text }, s)
                == (Route::Type { at, text }),
        forall|text: String|
            #[trigger] routed(Command::InsertText { at: None, text }, s) == if s.has_selection {
                (Route::TypeAtCaret { text })
            } else {
                (Route::Append { text })
            },
        forall|include_docx: Option<bool>|
            #[trigger] routed(Command::GetSelectionAsClipboard { include_docx }, s)
                == (Route::Clipboard { with_docx: include_docx != Some(false) }),
{
}

/// Commands on paragraphs come to the change that they name, over their range
/// from its earlier to its later end.
pub proof fn law_paragraph_commands(s: Situation)
    ensures
        forall|range: Option<LogicalRange>, attrs: TextAttrsPatch|
            #[trigger] routed(Command::ApplyFormatting { range, attrs }, s)
                == (Route::Format { range, attrs }),
        forall|attr: FormattingToggle, underline_style: Option<UnderlineStyle>|
            #[trigger] routed(Command::ToggleFormatting { attr, underline_style }, s)
                == (Route::Toggle { attr, underline_style }),
        forall|at: Point|
            #[trigger] routed(Command::SelectParagraphAt { at }, s)
                == (Route::SelectParagraph { at }),
        forall|range: LogicalRange, align: Alignment|
            #[trigger] routed(Command::SetParagraphAlign { range, align }, s)
                == (Route::Edit { op: DocOp::SetAlignment {
                    start: earlier(range), end: later(range), align,
                } }),
        forall|range: LogicalRange, direction: Direction|
            #[trigger] routed(Command::SetParagraphDirection { range, direction }, s)
                == (Route::Edit { op: DocOp::SetDirection {
                    start: earlier(range), end: later(range), direction,
                } }),
        forall|range: LogicalRange, start_pt: Real, end_pt: Real, first_line_pt: Real|
            #[trigger] routed(Command::SetParagraphIndent {
                range, start_pt, end_pt, first_line_pt,
            }, s)
                == (Route::Edit { op: DocOp::SetIndent {
                    start: earlier(range), end: later(range), start_pt, end_pt, first_line_pt,
                } }),
        forall|range: LogicalRange, stops: Vec<TabStop>|
            #[trigger] routed(Command::SetTabStops { range, stops }, s)
                == (Route::Edit { op: DocOp::SetTabStops {
                    start: earlier(range), end: later(range), stops,
                } }),
        forall|range: LogicalRange, style_id: Option<String>|
            #[trigger] routed(Command::ApplyStyle { range, style_id }, s)
                == (Route::Edit { op: DocOp::SetStyle {
                    start: earlier(range), end: later(range), style_id,
                } }),
        forall|range: LogicalRange, multiplier: Real|
            #[trigger] routed(Command::SetLineSpacing { range, multiplier }, s)
                == (Route::Edit { op: DocOp::SetLineSpacing {
                    start: earlier(range), end: later(range), multiplier,
                } }),
        forall|range: LogicalRange, color: Option<Color>|
            #[trigger] routed(Command::SetParagraphShading { range, color }, s)
                == (Route::Edit { op: DocOp::SetShading {
                    start: earlier(range), end: later(range), color,
                } }),
        forall|range: LogicalRange, kind: ListKind|
            #[trigger] routed(Command::ToggleList { range, kind }, s)
                == (Route::Edit { op: DocOp::SetList {
                    start: earlier(range), end: later(range), kind,
                } }),
        forall|range: LogicalRange, delta: i8|
            #[trigger] routed(Command::ChangeListLevel { range, delta }, s)
                == (Route::Edit { op: DocOp::ChangeListLevel {
                    start: earlier(range), end: later(range), delta,
                } }),
        forall|style_id: String, properties: BridgeStyleProperties|
            #[trigger] routed(Command::ModifyStyle { style_id, properties }, s)
                == (Route::Edit { op: DocOp::ModifyStyle { style_id, properties } }),
        forall|at: Option<LogicalPos>|
            if at is Some || s.has_selection {
                #[trigger] routed(Command::SplitParagraph { at }, s) == (Route::Split { at })
            } else {
                routed(Command::SplitParagraph { at }, s) is Refused
            },
        forall|range: LogicalRange, borders: BridgeCellBorders|
            borders.top is None
                && borders.left is None && borders.bottom is None && borders.right is None
                ==> #[trigger] routed(Command::SetParagraphBorders { range, borders }, s)
                    == (Route::Edit { op: DocOp::SetParagraphBorders {
                        start: earlier(range), end: later(range), borders: None,
                    } }),
        forall|range: LogicalRange, borders: BridgeCellBorders|
            !(borders.top is None
                && borders.left is None && borders.bottom is None && borders.right is None)
                ==> #[trigger] routed(Command::SetParagraphBorders { range, borders }, s)
                    == (Route::Edit { op: DocOp::SetParagraphBorders {
                        start: earlier(range), end: later(range), borders: Some(borders),
                    } }),
{
}

/// Commands on tables come to the change that they name, on the same table, row
/// and column; a row or column put after another takes the next index.
pub proof fn law_table_commands(s: Situation)
    ensures
        forall|at: Point|
            #[trigger] routed(Command::SelectCellAt { at }, s) == (Route::SelectCell { at }),
        forall|at: LogicalPos, count: u8, gutter_pt: Real|
            #[trigger] routed(Command::SetColumns { at, count, gutter_pt }, s)
                == (Route::Edit { op: DocOp::SetColumns { at, count, gutter_pt } }),
        forall|at: BlockPath, rows: u32, cols: u32|
            #[trigger] routed(Command::InsertTable { at, rows, cols }, s)
                == (Route::Edit { op: DocOp::InsertTable { at, rows, cols } }),
        forall|path: BlockPath|
            #[trigger] routed(Command::DeleteTable { path }, s)
                == (Route::Edit { op: DocOp::DeleteTable { path } }),
        forall|table_path: BlockPath, row: u32|
            #[trigger] routed(Command::DeleteRow { table_path, row }, s)
                == (Route::Edit { op: DocOp::DeleteRow { table: table_path, row } }),
        forall|table_path: BlockPath, col: u32|
            #[trigger] routed(Command::DeleteColumn { table_path, col }, s)
                == (Route::Edit { op: DocOp::DeleteColumn { table: table_path, col } }),
        forall|table_path: BlockPath, from_row: u32, from_col: u32, to_row: u32, to_col: u32|
            #[trigger] routed(Command::MergeCells {
                table_path, from_row, from_col, to_row, to_col,
            }, s)
                == (Route::Edit { op: DocOp::MergeCells {
                    table: table_path, from_row, from_col, to_row, to_col,
                } }),
        forall|table_path: BlockPath, row: u32, col: u32|
            #[trigger] routed(Command::SplitCell { table_path, row, col }, s)
                == (Route::Edit { op: DocOp::SplitCell { table: table_path, row, col } }),
        forall|table_path: BlockPath, row: u32, col: u32, color: Option<Color>|
            #[trigger] routed(Command::SetCellShading { table_path, row, col, color }, s)
                == (Route::Edit { op: DocOp::ShadeCell { table: table_path, row, col, color } }),
        forall|table_path: BlockPath, row: u32, col: u32, borders: BridgeCellBorders|
            #[trigger] routed(Command::SetCellBorders { table_path, row, col, borders }, s)
                == (Route::Edit { op: DocOp::BorderCell { table: table_path, row, col, borders } }),
        forall|table_path: BlockPath, patch: TablePropertiesPatch|
            #[trigger] routed(Command::SetTableProperties { table_path, patch }, s)
                == (Route::Edit { op: DocOp::SetTableProperties { table: table_path, patch } }),
        forall|table_path: BlockPath, row: u32|
            #[trigger] routed(Command::InsertRow { table_path, row, side: InsertSide::Before }, s)
                == (Route::Edit { op: DocOp::InsertRow { table: table_path, at: row as usize } }),
        forall|table_path: BlockPath, row: u32|
            row < u32::MAX
                ==> #[trigger] routed(Command::InsertRow {
                    table_path, row, side: InsertSide::After,
                }, s)
                    == (Route::Edit { op: DocOp::InsertRow {
                        table: table_path, at: (row + 1) as usize,
                    } }),
        forall|table_path: BlockPath, col: u32|
            #[trigger] routed(Command::InsertColumn {
                table_path, col, side: InsertSide::Before,
            }, s)
                == (Route::Edit { op: DocOp::InsertColumn {
                    table: table_path, at: col as usize,
                } }),
        forall|table_path: BlockPath, col: u32|
            col < u32::MAX
                ==> #[trigger] routed(Command::InsertColumn {
                    table_path, col, side: InsertSide::After,
                }, s)
                    == (Route::Edit { op: DocOp::InsertColumn {
                        table: table_path, at: (col + 1) as usize,
                    } }),
{
}

/// Commands on pictures come to the change that they name, on the same picture
/// and with the same measures.
pub proof fn law_picture_commands(s: Situation)
    ensures
        forall|path: BlockPath, at: u32, width_emu: i64, height_emu: i64, story: Vec<TextBoxHop>|
            #[trigger] routed(Command::ResizeImage { path, at, width_emu, height_emu, story }, s)
                == (Route::Edit { op: DocOp::ResizeImage {
                    path, at, width_emu, height_emu, story,
                } }),
        forall|path: BlockPath, at: u32, offset_h_emu: i64, offset_v_emu: i64, story: Vec<TextBoxHop>|
            #[trigger] routed(Command::MoveImage { path, at, offset_h_emu, offset_v_emu, story }, s)
                == (Route::Edit { op: DocOp::MoveImage {
                    path, at, offset_h_emu, offset_v_emu, story,
                } }),
        forall|path: BlockPath, at: u32, wrap: ImageWrapMode, story: Vec<TextBoxHop>|
            #[trigger] routed(Command::SetImageWrap { path, at, wrap, story }, s)
                == (Route::Edit { op: DocOp::WrapImage { path, at, wrap, story } }),
        forall|at: LogicalPos, image: ImageBlob, fit: ImageFit|
            (#[trigger] routed(Command::InsertImage { at, image, fit }, s)) matches Route::Edit { op: DocOp::InsertImage {
                at: a, mime, bytes, ..
            } }
                && a == at && mime == image.mime && bytes == image.bytes,
{
}

/// Commands on sections and pages come to the change that they name; they are
/// refused in a table, in a story or outside a band, where that has no meaning.
pub proof fn law_page_commands(s: Situation)
    ensures
        forall|page: u32, at: Point|
            #[trigger] routed(Command::HitTestInPage { page, at }, s)
                == (Route::Hit { page: Some(page), at }),
        forall|at: LogicalPos, top: Real, right: Real, bottom: Real, left: Real|
            #[trigger] routed(Command::SetPageMargins { at, top, right, bottom, left }, s)
                == (Route::Edit { op: DocOp::SetMargins { at, top, right, bottom, left } }),
        forall|enabled: bool|
            #[trigger] routed(Command::SetTitlePage { enabled }, s)
                == (Route::Edit { op: DocOp::SetTitlePage { enabled } }),
        forall|enabled: bool|
            #[trigger] routed(Command::SetEvenOddHeaders { enabled }, s)
                == (Route::Edit { op: DocOp::SetEvenOddHeaders { enabled } }),
        forall|at: LogicalPos, orientation: PageOrientation|
            #[trigger] routed(Command::SetPageOrientation { at, orientation }, s)
                == (Route::Edit { op: DocOp::SetOrientation {
                    at, landscape: orientation is Landscape,
                } }),
        forall|at: LogicalPos|
            if s.story is Some {
                (#[trigger] routed(Command::InsertPageBreak { at }, s)) is Refused
            } else {
                routed(Command::InsertPageBreak { at }, s) == (Route::PageBreak { at })
            },
        forall|page: u32, area: HeaderFooterArea|
            if area == HeaderFooterArea::Header || area == HeaderFooterArea::Footer {
                #[trigger] routed(Command::EnterHeaderFooter { page, area }, s)
                    == (Route::EnterStory { page, area })
            } else {
                routed(Command::EnterHeaderFooter { page, area }, s) is Refused
            },
        forall|linked: bool|
            if s.story == Some(HeaderFooterArea::Header) || s.story == Some(HeaderFooterArea::Footer) {
                #[trigger] routed(Command::SetHeaderFooterLink { linked }, s)
                    == (Route::Edit { op: DocOp::LinkBand { linked } })
            } else {
                routed(Command::SetHeaderFooterLink { linked }, s) is Refused
            },
        forall|at: LogicalPos, kind: SectionBreakKind|
            if through_cell(at@.path) {
                (#[trigger] routed(Command::InsertSectionBreak { at, kind }, s)) is Refused
            } else {
                routed(Command::InsertSectionBreak { at, kind }, s)
                    == (Route::Edit { op: DocOp::BreakSection { at, kind } })
            },
{
}

/// Fields, notes, text boxes and tables of contents go in where the command
/// says, and are refused in a table; all but fields are refused in a story too.
pub proof fn law_insertion_commands(s: Situation)
    ensures
        forall|enabled: bool|
            #[trigger] routed(Command::SetFieldCodeView { enabled }, s)
                == (Route::FieldCodes { enabled }),
        forall|at: LogicalPos, instruction: String|
            #[trigger] routed(Command::SetFieldInstruction { at, instruction }, s)
                == (Route::Edit { op: DocOp::SetFieldInstruction { at, instruction } }),
        forall|year: i32, month: u32, day: u32, h: u32, m: u32|
            #[trigger] routed(Command::SetRenderDate {
                year, month, day, hour: Some(h), minute: Some(m),
            }, s)
                == (Route::RenderDate { year, month, day, clock: Some((h, m)) }),
        forall|year: i32, month: u32, day: u32, hour: Option<u32>, minute: Option<u32>|
            (hour is None || minute is None)
                ==> #[trigger] routed(Command::SetRenderDate { year, month, day, hour, minute }, s)
                    == (Route::RenderDate { year, month, day, clock: None }),
        forall|at: LogicalPos, kind: FieldKind|
            if through_cell(at@.path) {
                (#[trigger] routed(Command::InsertField { at, kind }, s)) is Refused
            } else {
                routed(Command::InsertField { at, kind }, s)
                    == (Route::Edit { op: DocOp::InsertField { at, kind } })
            },
        forall|at: LogicalPos|
            if through_cell(at@.path) || s.story is Some {
                (#[trigger] routed(Command::InsertFootnote { at }, s)) is Refused
            } else {
                routed(Command::InsertFootnote { at }, s)
                    == (Route::Edit { op: DocOp::InsertNote { at, kind: NoteKind::Footnote } })
            },
        forall|at: LogicalPos|
            if through_cell(at@.path) || s.story is Some {
                (#[trigger] routed(Command::InsertEndnote { at }, s)) is Refused
            } else {
                routed(Command::InsertEndnote { at }, s)
                    == (Route::Edit { op: DocOp::InsertNote { at, kind: NoteKind::Endnote } })
            },
        forall|at: LogicalPos, width_emu: i64, height_emu: i64|
            if through_cell(at@.path) || s.story is Some {
                (#[trigger] routed(Command::InsertTextBox {
                    at, width_emu, height_emu,
                }, s)) is Refused
            } else {
                routed(Command::InsertTextBox { at, width_emu, height_emu }, s)
                    == (Route::Edit { op: DocOp::InsertTextBox { at, width_emu, height_emu } })
            },
        forall|at: LogicalPos, switches: TocSwitches|
            if through_cell(at@.path) || s.story is Some {
                (#[trigger] routed(Command::InsertToc { at, switches }, s)) is Refused
            } else {
                routed(Command::InsertToc { at, switches }, s)
                    == (Route::Edit { op: DocOp::InsertToc { at, switches } })
            },
{
}

/// Commands of the review come to the decision that they name: to accept or to
/// reject, to answer, resolve or delete.
pub proof fn law_review_commands(s: Situation)
    ensures
        forall|enabled: bool|
            #[trigger] routed(Command::ToggleTrackChanges { enabled }, s)
                == (Route::TrackChanges { enabled }),
        forall|author: String, date: String|
            #[trigger] routed(Command::SetReviewIdentity { author, date }, s)
                == (Route::Reviewer { author, date }),
        forall|block: u32, start: u32, end: u32|
            #[trigger] routed(Command::AcceptRevision { block, start, end }, s)
                == (Route::Edit { op: DocOp::AcceptRevision { block, start, end } }),
        forall|block: u32, start: u32, end: u32|
            #[trigger] routed(Command::RejectRevision { block, start, end }, s)
                == (Route::Edit { op: DocOp::RejectRevision { block, start, end } }),
        forall|range: LogicalRange, text: String, author: String|
            #[trigger] routed(Command::InsertComment { range, text, author }, s)
                == (Route::Edit { op: DocOp::InsertComment {
                    start: earlier(range), end: later(range), text, author,
                } }),
        forall|id: u32|
            #[trigger] routed(Command::DeleteComment { id }, s)
                == (Route::Edit { op: DocOp::DeleteComment { id } }),
        forall|id: u32, resolved: bool|
            #[trigger] routed(Command::ResolveComment { id, resolved }, s)
                == (Route::Edit { op: DocOp::ResolveComment { id, resolved } }),
        forall|parent_id: u32, text: String, author: String|
            #[trigger] routed(Command::ReplyToComment { parent_id, text, author }, s)
                == (Route::Edit { op: DocOp::ReplyToComment { parent_id, text, author } }),
{
}

/// A range given from its earlier to its later end keeps its ends, and one
/// given the other way round has them exchanged.
pub proof fn law_backward_ranges_are_turned_round(range: LogicalRange)
    ensures
        pos_order(range.start@, range.end@) <= 0 ==> earlier(range) == range.start && later(range)
            == range.end,
        pos_order(range.start@, range.end@) > 0 ==> earlier(range) == range.end && later(range)
            == range.start,
{
}

/// Laying out a text takes over each setting under its own name, with the
/// direction and the alignment that the words name; the display's ratio counts
/// only above one.
pub proof fn law_rendering_takes_its_settings(
    s: Situation,
    text: String,
    font_id: String,
    base_direction: String,
    px_size: Real,
    line_height: Real,
    align: String,
    device_pixel_ratio: Option<Real>,
)
    ensures
        routed(
            Command::RenderPage {
                text,
                font_id,
                base_direction,
                px_size,
                line_height,
                align,
                device_pixel_ratio,
            },
            s,
        ) matches Route::Render { text: t, config, scale } && {
            &&& t == text
            &&& config.font_id == font_id
            &&& config.px_size_bits == px_size.bits
            &&& config.line_height_bits == line_height.bits
            &&& config.base_direction == named_direction(base_direction@)
            &&& config.alignment == named_alignment(align@)
            &&& device_pixel_ratio is None ==> scale.bits == 0x3F80_0000
            &&& device_pixel_ratio matches Some(r) ==> scale.bits == 0x3F80_0000 || scale == r
        },
{
}

/// A setting names a direction or an alignment whatever the case of its
/// letters; any other word names the usual one.
pub proof fn law_words_name_settings(s: Seq<char>)
    ensures
        reads_as(s, "RTL"@) ==> named_direction(s) == Direction::Rtl,
        !reads_as(s, "RTL"@) ==> named_direction(s) == Direction::Ltr,
        named_alignment(s) == Alignment::Justify ==> reads_as(s, "JUSTIFY"@),
        named_alignment(s) == Alignment::End ==> reads_as(s, "END"@),
        named_alignment(s) == Alignment::Center ==> reads_as(s, "CENTER"@),
        named_alignment(s) == Alignment::Start ==> !reads_as(s, "JUSTIFY"@) && !reads_as(s, "END"@)
            && !reads_as(s, "CENTER"@),
{
}

/// Changes that leave every paragraph's own layout as it was keep the kept
/// layouts: those of alignment and direction, which are told apart by their key,
/// and those of comments' state, columns, borders and tables. All others drop
/// them.
pub proof fn law_changes_that_keep_layouts(op: DocOp)
    ensures
        !drops_layouts(op) <==> (op is SetAlignment || op is SetDirection || op is ResolveComment
            || op is SetColumns || op is SetParagraphBorders || op is InsertTable
            || op is DeleteTable || op is InsertRow || op is DeleteRow || op is InsertColumn
            || op is DeleteColumn || op is MergeCells || op is SplitCell || op is ShadeCell
            || op is BorderCell),
{
}

/// A new document, a font, a scale or what fields show drops the kept layouts,
/// and so does an edit that drops them; nothing else does.
pub proof fn law_what_drops_layouts(r: Route)
    ensures
        r is LoadFont || r is Render || r is Open || r is Recover || r is Zoom || r is DeviceScale
            || r is FieldCodes || r is RenderDate ==> drops_kept_layouts(r),
        r matches Route::Edit { op } ==> drops_kept_layouts(r) == drops_layouts(op),
        drops_kept_layouts(r) ==> r is LoadFont || r is Render || r is Open || r is Recover
            || r is Zoom || r is DeviceScale || r is FieldCodes || r is RenderDate || r is Edit,
{
}

/// A new note or text box is entered at once, and no other change enters a
/// story.
pub proof fn law_new_stories_are_entered(op: DocOp)
    ensures
        op matches DocOp::InsertNote { kind: NoteKind::Footnote, .. } ==> leads_into(op) == Some(
            HeaderFooterArea::Footnote,
        ),
        op matches DocOp::InsertNote { kind: NoteKind::Endnote, .. } ==> leads_into(op) == Some(
            HeaderFooterArea::Endnote,
        ),
        op is InsertTextBox ==> leads_into(op) == Some(HeaderFooterArea::TextBox),
        leads_into(op) is Some ==> op is InsertNote || op is InsertTextBox,
{
}

/// Commands that only look or select leave the document alone; typing, pasting,
/// deleting, formatting, undoing and loading do not.
pub proof fn law_looking_leaves_the_document(r: Route)
    ensures
        r is Select || r is Extend || r is SelectAll || r is Hit || r is PlaceCaret || r is ExtendTo
            || r is SelectWord || r is SelectParagraph || r is SelectCell || r is Stats || r is Paint
            || r is Viewport || r is Zoom || r is QueueZoom || r is DeviceScale || r is Clipboard
            || r is ImageRects || r is AccessibilityDelta || r is Save || r is Export || r is Refused
            || r is Unsupported || r is Pong || r is ExitStory || r is Snapshot ==> is_query(r),
        r is Type || r is TypeAtCaret || r is Append || r is Undo || r is Redo || r is Open
            || r is Recover || r is Render || r is Delete || r is Replace || r is Split
            || r is Format || r is Toggle || r is DeleteAtCaret || r is PastePlain || r is PasteHtml
            || r is Edit || r is PageBreak || r is EnterStory ==> !is_query(r),
        r matches Route::EndComposition { commit } ==> is_query(r) == !commit,
        r matches Route::Move { direction, .. } ==> is_query(r) == (direction
            != MoveDirection::NextCell),
{
}

/// What is said after a change says what was changed.
pub proof fn law_changes_are_spoken(op: DocOp)
    ensures
        op matches DocOp::SetAlignment { align, .. } ==> spoken_after(op) == Some(
            match align {
                Alignment::Start => "Aligned start"@,
                Alignment::End => "Aligned end"@,
                Alignment::Center => "Aligned center"@,
                Alignment::Justify => "Justified"@,
            },
        ),
        op matches DocOp::SetDirection { direction, .. } ==> spoken_after(op) == Some(
            match direction {
                Direction::Ltr => "Direction set to left to right"@,
                Direction::Rtl => "Direction set to right to left"@,
            },
        ),
        op is AcceptRevision ==> spoken_after(op) == Some("Revision accepted"@),
        op is RejectRevision ==> spoken_after(op) == Some("Revision rejected"@),
        op is InsertComment ==> spoken_after(op) == Some("Comment added"@),
        op is DeleteComment ==> spoken_after(op) == Some("Comment deleted"@),
        op matches DocOp::ResolveComment { resolved: true, .. } ==> spoken_after(op) == Some(
            "Comment resolved"@,
        ),
        op matches DocOp::ResolveComment { resolved: false, .. } ==> spoken_after(op) == Some(
            "Comment reopened"@,
        ),
        op is SetTabStops ==> spoken_after(op) == Some("Tab stops updated"@),
        op matches DocOp::SetStyle { style_id: Some(id), .. } ==> spoken_after(op) == Some(
            "Applied style "@ + id@,
        ),
        op matches DocOp::SetStyle { style_id: None, .. } ==> spoken_after(op) == Some(
            "Cleared paragraph style"@,
        ),
{
}

/// Shaped text runs from right to left where the command says so in capitals or
/// in small letters, and from left to right otherwise.
pub proof fn law_shaping_takes_its_direction(
    s: Situation,
    text: String,
    font_id: String,
    direction: String,
    px_size: Real,
)
    ensures
        routed(
            Command::ShapeAndRasterize { text, font_id, direction, px_size },
            s,
        ) matches Route::Shape { text: t, font_id: f, direction: d, px_size: size } && {
            &&& t == text && f == font_id && size == px_size
            &&& d == Direction::Rtl <==> direction@ == "RTL"@ || direction@ == "rtl"@
        },
{
}

} // verus!
