//! The document model: blocks, paragraphs, tables and cells, how a path
//! addresses them, and the walk that lists every paragraph in document order.

use crate::common::{Alignment, BlockPath, Color, Direction, PathStep, UnderlineStyle};
use crate::command::{BridgeCellBorders, BridgeTabKind, BridgeTabLeader};
use crate::field::Field;
use vstd::prelude::*;
use vstd::utf8::encode_utf8;

verus! {

/// A font size. `bits` is the IEEE-754 pattern of the size in points.
#[derive(Clone, Copy, Debug, PartialEq, Eq, Structural)]
pub struct FontSize {
    pub bits: u32,
}

/// The font families that a run can ask for.
#[derive(Clone, Copy, Debug, PartialEq, Eq, Structural)]
pub enum FontFamily {
    Amiri,
    LiberationSans,
    NotoNaskhArabic,
}

/// Vertical placement of a run.
#[derive(Clone, Copy, Debug, PartialEq, Eq, Structural)]
pub enum VertAlign {
    Baseline,
    Superscript,
    Subscript,
}

/// Sparse character formatting. A field that is `None` is inherited.
#[derive(Clone, Copy, Debug, PartialEq, Eq, Structural)]
pub struct SpanStyle {
    pub bold: Option<bool>,
    pub italic: Option<bool>,
    pub underline: Option<UnderlineStyle>,
    pub strike: Option<bool>,
    pub font_family: Option<FontFamily>,
    pub font_size: Option<FontSize>,
    pub color: Option<Color>,
    pub bg_color: Option<Color>,
    pub vert_align: Option<VertAlign>,
    pub caps: Option<bool>,
    pub small_caps: Option<bool>,
}

/// The style that sets nothing.
pub open spec fn plain_style() -> SpanStyle {
    SpanStyle {
        bold: None,
        italic: None,
        underline: None,
        strike: None,
        font_family: None,
        font_size: None,
        color: None,
        bg_color: None,
        vert_align: None,
        caps: None,
        small_caps: None,
    }
}

impl Default for SpanStyle {
    fn default() -> (r: Self)
        ensures
            r == plain_style(),
    {
        SpanStyle {
            bold: None,
            italic: None,
            underline: None,
            strike: None,
            font_family: None,
            font_size: None,
            color: None,
            bg_color: None,
            vert_align: None,
            caps: None,
            small_caps: None,
        }
    }
}

/// `over` where it says something, `under` elsewhere.
pub open spec fn either<T>(over: Option<T>, under: Option<T>) -> Option<T> {
    if over is Some {
        over
    } else {
        under
    }
}

/// `under` with every field that `over` sets replaced.
pub open spec fn overlaid(under: SpanStyle, over: SpanStyle) -> SpanStyle {
    SpanStyle {
        bold: either(over.bold, under.bold),
        italic: either(over.italic, under.italic),
        underline: either(over.underline, under.underline),
        strike: either(over.strike, under.strike),
        font_family: either(over.font_family, under.font_family),
        font_size: either(over.font_size, under.font_size),
        color: either(over.color, under.color),
        bg_color: either(over.bg_color, under.bg_color),
        vert_align: either(over.vert_align, under.vert_align),
        caps: either(over.caps, under.caps),
        small_caps: either(over.small_caps, under.small_caps),
    }
}

fn pick<T: Copy>(over: Option<T>, under: Option<T>) -> (r: Option<T>)
    ensures
        r == either(over, under),
{
    match over {
        Some(x) => Some(x),
        None => under,
    }
}

impl SpanStyle {
    /// This style with every field that `over` sets replaced.
    pub fn merged_with(&self, over: SpanStyle) -> (r: SpanStyle)
        ensures
            r == overlaid(*self, over),
    {
        SpanStyle {
            bold: pick(over.bold, self.bold),
            italic: pick(over.italic, self.italic),
            underline: pick(over.underline, self.underline),
            strike: pick(over.strike, self.strike),
            font_family: pick(over.font_family, self.font_family),
            font_size: pick(over.font_size, self.font_size),
            color: pick(over.color, self.color),
            bg_color: pick(over.bg_color, self.bg_color),
            vert_align: pick(over.vert_align, self.vert_align),
            caps: pick(over.caps, self.caps),
            small_caps: pick(over.small_caps, self.small_caps),
        }
    }
}

/// A byte range of a paragraph with one style.
#[derive(Clone, Copy, Debug, PartialEq, Eq, Structural)]
pub struct StyleRun {
    pub start: u32,
    pub end: u32,
    pub style: SpanStyle,
}

/// A hyperlinked byte range.
#[derive(Clone, Copy, Debug, PartialEq, Eq, Structural)]
pub struct Hyperlink {
    pub start: u32,
    pub end: u32,
}

/// Whether a tracked change inserted or deleted its range.
#[derive(Clone, Copy, Debug, PartialEq, Eq, Structural)]
pub enum RevisionKind {
    Insert,
    Delete,
}

/// A tracked change over a byte range.
#[derive(Clone, Debug, PartialEq, Eq)]
pub struct Revision {
    pub start: u32,
    pub end: u32,
    pub kind: RevisionKind,
    pub author: String,
    pub date: String,
}

/// Paragraph indents in twips.
#[derive(Clone, Copy, Debug, PartialEq, Eq, Structural)]
pub struct Indent {
    pub start_twips: i32,
    pub end_twips: i32,
    pub first_line_twips: i32,
    pub hanging_twips: i32,
}

/// A line-height override in twips.
#[derive(Clone, Copy, Debug, PartialEq, Eq, Structural)]
pub enum LineHeight {
    Auto { twips: i32 },
    Exact { twips: i32 },
    AtLeast { twips: i32 },
}

/// A custom tab stop. `position_bits` is the IEEE-754 pattern of its position
/// in points.
#[derive(Clone, Copy, Debug, PartialEq, Eq, Structural)]
pub struct TabStop {
    pub position_bits: u32,
    pub kind: BridgeTabKind,
    pub leader: Option<BridgeTabLeader>,
}

/// The space above and below a paragraph, in twips.
#[derive(Clone, Copy, Debug, PartialEq, Eq, Structural)]
pub struct Spacing {
    pub before_twips: i32,
    pub after_twips: i32,
}

/// Paragraph formatting.
#[derive(Debug, PartialEq, Eq)]
pub struct ParaProperties {
    pub alignment: Option<Alignment>,
    pub direction: Option<Direction>,
    pub indent: Indent,
    pub spacing: Spacing,
    pub line_height: Option<LineHeight>,
    pub tab_stops: Vec<TabStop>,
    pub borders: Option<BridgeCellBorders>,
    pub shading: Option<Color>,
}

impl Default for ParaProperties {
    fn default() -> (r: Self)
        ensures
            r.alignment is None,
            r.direction is None,
            r.indent == (Indent {
                start_twips: 0,
                end_twips: 0,
                first_line_twips: 0,
                hanging_twips: 0,
            }),
            r.spacing == (Spacing { before_twips: 0, after_twips: 0 }),
            r.line_height is None,
            r.tab_stops@.len() == 0,
            r.borders is None,
            r.shading is None,
    {
        ParaProperties {
            alignment: None,
            direction: None,
            indent: Indent { start_twips: 0, end_twips: 0, first_line_twips: 0, hanging_twips: 0 },
            spacing: Spacing { before_twips: 0, after_twips: 0 },
            line_height: None,
            tab_stops: Vec::new(),
            borders: None,
            shading: None,
        }
    }
}

/// An object that stands in the text at the placeholder character at byte
/// `at`.
#[derive(Debug, PartialEq, Eq)]
pub struct InlineObject {
    pub at: u32,
    pub kind: InlineKind,
}

/// Footnote or endnote.
#[derive(Clone, Copy, Debug, PartialEq, Eq, Structural)]
pub enum NoteKind {
    Footnote,
    Endnote,
}

/// What an inline object is.
#[derive(Debug, PartialEq, Eq)]
pub enum InlineKind {
    /// A picture of `width_emu` by `height_emu` (914400 to the inch). `alt` is
    /// its description, when it has one.
    Image {
        rel_id: String,
        media_key: Option<String>,
        alt: Option<String>,
        width_emu: i64,
        height_emu: i64,
    },
    /// The mark that refers to note `id`.
    NoteRef { kind: NoteKind, id: u32 },
    /// The mark at the head of a note's own text.
    NoteSelfRef { kind: NoteKind },
    /// A text box with its own blocks, under the name of its story, which
    /// [`crate::address::text_box_id`] gives.
    TextBox {
        id: String,
        name: Option<String>,
        alt: Option<String>,
        width_emu: i64,
        height_emu: i64,
        blocks: Vec<Block>,
    },
}

/// A paragraph. `auto_direction` is the direction of the first strong
/// character of `text`, when it has one. `marker` is the bullet or the number
/// that it shows as an item of a list.
#[derive(Debug, PartialEq, Eq)]
pub struct Paragraph {
    pub text: String,
    pub auto_direction: Option<Direction>,
    pub spans: Vec<StyleRun>,
    pub props: ParaProperties,
    pub inline_objects: Vec<InlineObject>,
    pub hyperlinks: Vec<Hyperlink>,
    pub revisions: Vec<Revision>,
    /// The tracked change of the paragraph's own end.
    pub mark_revision: Option<Revision>,
    pub style_id: Option<String>,
    pub marker: Option<String>,
    pub fields: Vec<Field>,
}

/// A cell's part in a vertical merge.
#[derive(Clone, Copy, Debug, PartialEq, Eq, Structural)]
pub enum VMergeRole {
    /// Not merged.
    Alone,
    /// The top cell, which owns the content.
    Restart,
    /// Covered by the cell above.
    Continue,
}

/// Cell formatting.
#[derive(Clone, Copy, Debug, PartialEq, Eq, Structural)]
pub struct CellProps {
    pub v_merge: VMergeRole,
    pub grid_span: u16,
    pub shading: Option<Color>,
    pub borders: Option<BridgeCellBorders>,
    /// Preferred width in twips.
    pub width_twips: Option<i32>,
}

/// A table cell.
#[derive(Debug, PartialEq, Eq)]
pub struct TableCell {
    pub blocks: Vec<Block>,
    pub props: CellProps,
}

/// A table row.
#[derive(Debug, PartialEq, Eq)]
pub struct TableRow {
    pub cells: Vec<TableCell>,
}

/// A table. `bidi_visual` lays its columns out from right to left.
#[derive(Debug, PartialEq, Eq)]
pub struct Table {
    pub rows: Vec<TableRow>,
    pub bidi_visual: bool,
}

/// A block of the document.
#[derive(Debug, PartialEq, Eq)]
pub enum Block {
    Paragraph(Paragraph),
    Table(Table),
}

/// The document body.
#[derive(Debug, PartialEq, Eq)]
pub struct DocumentTree {
    pub blocks: Vec<Block>,
}

/// The length of a text in UTF-8 bytes.
pub open spec fn text_len(s: Seq<char>) -> nat {
    encode_utf8(s).len()
}

/// The length of a text in UTF-8 bytes.
pub fn byte_len(s: &str) -> (r: usize)
    ensures
        r == text_len(s@),
{
    s.as_bytes().len()
}

impl Paragraph {
    /// A paragraph of unformatted text.
    pub fn plain(text: String, auto_direction: Option<Direction>) -> (r: Self)
        ensures
            r.text == text,
            r.auto_direction == auto_direction,
            r.spans@.len() == 0,
            r.props.alignment is None,
            r.props.direction is None,
            r.props.indent == (Indent {
                start_twips: 0,
                end_twips: 0,
                first_line_twips: 0,
                hanging_twips: 0,
            }),
            r.props.spacing == (Spacing { before_twips: 0, after_twips: 0 }),
            r.props.line_height is None,
            r.props.tab_stops@.len() == 0,
            r.props.borders is None,
            r.props.shading is None,
            r.inline_objects@.len() == 0,
            r.hyperlinks@.len() == 0,
            r.revisions@.len() == 0,
            r.mark_revision is None,
            r.style_id is None,
            r.marker is None,
            r.fields@.len() == 0,
    {
        Paragraph {
            text,
            auto_direction,
            spans: Vec::new(),
            props: ParaProperties::default(),
            inline_objects: Vec::new(),
            hyperlinks: Vec::new(),
            revisions: Vec::new(),
            mark_revision: None,
            style_id: None,
            marker: None,
            fields: Vec::new(),
        }
    }

    /// The length of the text as a position offset.
    pub fn len32(&self) -> (r: u32)
        ensures
            r == text_len(self.text@) as u32,
    {
        byte_len(self.text.as_str()) as u32
    }

    /// The style of the character after byte `off`.
    pub fn style_at(&self, off: u32) -> (r: SpanStyle)
        ensures
            r == style_in(self.spans@, off),
    {
        let mut i: usize = 0;
        assert(self.spans@.skip(0) == self.spans@);
        while i < self.spans.len()
            invariant
                i <= self.spans@.len(),
                style_in(self.spans@, off) == style_in(self.spans@.skip(i as int), off),
            decreases self.spans.len() - i,
        {
            let run = self.spans[i];
            assert(self.spans@.skip(i as int)[0] == run);
            if run.start <= off && off < run.end {
                return run.style;
            }
            assert(self.spans@.skip(i as int).drop_first() == self.spans@.skip(i as int + 1));
            i += 1;
        }
        SpanStyle::default()
    }
}

/// The style of the first run that covers byte `off`, or the plain style.
pub open spec fn style_in(spans: Seq<StyleRun>, off: u32) -> SpanStyle
    decreases spans.len(),
{
    if spans.len() == 0 {
        plain_style()
    } else if spans[0].start <= off < spans[0].end {
        spans[0].style
    } else {
        style_in(spans.drop_first(), off)
    }
}

/// The block that `path` addresses among `blocks`.
pub open spec fn block_at(blocks: Seq<Block>, path: Seq<PathStep>) -> Option<Block>
    decreases path.len(),
{
    if path.len() == 0 {
        None
    } else {
        match path[0] {
            PathStep::Block { idx } => if idx < blocks.len() {
                if path.len() == 1 {
                    Some(blocks[idx as int])
                } else {
                    match (blocks[idx as int], path[1]) {
                        (Block::Table(t), PathStep::Cell { row, col }) => match cell_at(
                            t,
                            row as int,
                            col as int,
                        ) {
                            Some(cell) => block_at(cell.blocks@, path.skip(2)),
                            None => None,
                        },
                        _ => None,
                    }
                }
            } else {
                None
            },
            PathStep::Cell { .. } => None,
        }
    }
}

/// The cell at `(row, col)` of a table.
pub open spec fn cell_at(t: Table, row: int, col: int) -> Option<TableCell> {
    if 0 <= row < t.rows@.len() && 0 <= col < t.rows@[row].cells@.len() {
        Some(t.rows@[row].cells@[col])
    } else {
        None
    }
}

/// The paragraph that `path` addresses.
pub open spec fn para_at(blocks: Seq<Block>, path: Seq<PathStep>) -> Option<Paragraph> {
    match block_at(blocks, path) {
        Some(Block::Paragraph(p)) => Some(p),
        _ => None,
    }
}

/// The table that `path` addresses.
pub open spec fn table_at(blocks: Seq<Block>, path: Seq<PathStep>) -> Option<Table> {
    match block_at(blocks, path) {
        Some(Block::Table(t)) => Some(t),
        _ => None,
    }
}

impl Table {
    /// The cell at `(row, col)`.
    pub fn cell(&self, row: u32, col: u32) -> (r: Option<&TableCell>)
        ensures
            match r {
                Some(c) => cell_at(*self, row as int, col as int) == Some(*c),
                None => cell_at(*self, row as int, col as int) is None,
            },
    {
        let row: usize = row as usize;
        let col: usize = col as usize;
        if row < self.rows.len() && col < self.rows[row].cells.len() {
            Some(&self.rows[row].cells[col])
        } else {
            None
        }
    }
}

fn block_at_from<'a>(blocks: &'a Vec<Block>, steps: &Vec<PathStep>, from: usize) -> (r: Option<
    &'a Block,
>)
    requires
        from <= steps@.len(),
    ensures
        match r {
            Some(b) => block_at(blocks@, steps@.skip(from as int)) == Some(*b),
            None => block_at(blocks@, steps@.skip(from as int)) is None,
        },
    decreases steps@.len() - from,
{
    if from == steps.len() {
        return None;
    }
    let ghost rest = steps@.skip(from as int);
    assert(rest[0] == steps@[from as int]);
    match steps[from] {
        PathStep::Block { idx } => {
            let i: usize = idx as usize;
            if i >= blocks.len() {
                return None;
            }
            if from + 1 == steps.len() {
                return Some(&blocks[i]);
            }
            assert(rest[1] == steps@[from as int + 1]);
            match (&blocks[i], steps[from + 1]) {
                (Block::Table(t), PathStep::Cell { row, col }) => match t.cell(row, col) {
                    Some(c) => {
                        assert(rest.skip(2) == steps@.skip(from as int + 2));
                        block_at_from(&c.blocks, steps, from + 2)
                    },
                    None => None,
                },
                _ => None,
            }
        },
        PathStep::Cell { .. } => None,
    }
}

impl DocumentTree {
    /// The block at `path`.
    pub fn block_at_path(&self, path: &BlockPath) -> (r: Option<&Block>)
        ensures
            match r {
                Some(b) => block_at(self.blocks@, path@) == Some(*b),
                None => block_at(self.blocks@, path@) is None,
            },
    {
        assert(path.steps@.skip(0) == path@);
        block_at_from(&self.blocks, &path.steps, 0)
    }

    /// The paragraph at `path`.
    pub fn paragraph_at_path(&self, path: &BlockPath) -> (r: Option<&Paragraph>)
        ensures
            match r {
                Some(p) => para_at(self.blocks@, path@) == Some(*p),
                None => para_at(self.blocks@, path@) is None,
            },
    {
        match self.block_at_path(path) {
            Some(Block::Paragraph(p)) => Some(p),
            _ => None,
        }
    }

    /// The table at `path`.
    pub fn table_at_path(&self, path: &BlockPath) -> (r: Option<&Table>)
        ensures
            match r {
                Some(t) => table_at(self.blocks@, path@) == Some(*t),
                None => table_at(self.blocks@, path@) is None,
            },
    {
        match self.block_at_path(path) {
            Some(Block::Table(t)) => Some(t),
            _ => None,
        }
    }

    /// The length in bytes of the paragraph at `path`, zero where there is
    /// none.
    pub fn paragraph_len(&self, path: &BlockPath) -> (r: u32)
        ensures
            r == len_at(self.blocks@, path@),
    {
        match self.paragraph_at_path(path) {
            Some(p) => p.len32(),
            None => 0,
        }
    }

    /// The path of the last top-level paragraph.
    pub fn path_to_last_top_paragraph(&self) -> (r: Option<BlockPath>)
        ensures
            match r {
                Some(p) => last_top_para(self.blocks@, self.blocks@.len()) is Some && p@
                    == seq![PathStep::Block { idx: last_top_para(self.blocks@, self.blocks@.len())->0 as u32 }],
                None => last_top_para(self.blocks@, self.blocks@.len()) is None,
            },
    {
        let mut n: usize = self.blocks.len();
        while n > 0
            invariant
                n <= self.blocks@.len(),
                last_top_para(self.blocks@, self.blocks@.len()) == last_top_para(
                    self.blocks@,
                    n as nat,
                ),
            decreases n,
        {
            if let Block::Paragraph(_) = self.blocks[n - 1] {
                return Some(BlockPath::top((n - 1) as u32));
            }
            n -= 1;
        }
        None
    }
}

/// The length of the paragraph at `path`, zero where there is none.
pub open spec fn len_at(blocks: Seq<Block>, path: Seq<PathStep>) -> u32 {
    match para_at(blocks, path) {
        Some(p) => text_len(p.text@) as u32,
        None => 0,
    }
}

/// The index of the last paragraph among the first `n` blocks.
pub open spec fn last_top_para(blocks: Seq<Block>, n: nat) -> Option<int>
    decreases n,
{
    if n == 0 {
        None
    } else if blocks[n - 1] is Paragraph {
        Some(n - 1)
    } else {
        last_top_para(blocks, (n - 1) as nat)
    }
}

/// The paths of the paragraphs in a block that stands at `prefix`, in
/// document order. Cells that continue a merge from above are skipped.
pub open spec fn block_paths(b: Block, prefix: Seq<PathStep>) -> Seq<Seq<PathStep>>
    decreases b, 0nat,
{
    match b {
        Block::Paragraph(_) => seq![prefix],
        Block::Table(t) => rows_paths(t.rows@, prefix, t.rows@.len()),
    }
}

/// The paragraph paths in the first `n` of a list of blocks.
pub open spec fn blocks_paths(blocks: Seq<Block>, prefix: Seq<PathStep>, n: nat) -> Seq<
    Seq<PathStep>,
>
    decreases blocks, n,
{
    if n == 0 || n > blocks.len() {
        Seq::empty()
    } else {
        blocks_paths(blocks, prefix, (n - 1) as nat) + block_paths(
            blocks[n - 1],
            prefix.push(PathStep::Block { idx: (n - 1) as u32 }),
        )
    }
}

/// The paragraph paths in the first `n` rows of a table.
pub open spec fn rows_paths(rows: Seq<TableRow>, prefix: Seq<PathStep>, n: nat) -> Seq<
    Seq<PathStep>,
>
    decreases rows, n,
{
    if n == 0 || n > rows.len() {
        Seq::empty()
    } else {
        rows_paths(rows, prefix, (n - 1) as nat) + cells_paths(
            rows[n - 1].cells@,
            prefix,
            (n - 1) as u32,
            rows[n - 1].cells@.len(),
        )
    }
}

/// The paragraph paths in the first `n` cells of row `row`.
pub open spec fn cells_paths(
    cells: Seq<TableCell>,
    prefix: Seq<PathStep>,
    row: u32,
    n: nat,
) -> Seq<Seq<PathStep>>
    decreases cells, n,
{
    if n == 0 || n > cells.len() {
        Seq::empty()
    } else {
        cells_paths(cells, prefix, row, (n - 1) as nat) + (if cells[n - 1].props.v_merge
            == VMergeRole::Continue {
            Seq::empty()
        } else {
            blocks_paths(
                cells[n - 1].blocks@,
                prefix.push(PathStep::Cell { row, col: (n - 1) as u32 }),
                cells[n - 1].blocks@.len(),
            )
        })
    }
}

/// Every paragraph path of a document, in document order.
pub open spec fn doc_paths(blocks: Seq<Block>) -> Seq<Seq<PathStep>> {
    blocks_paths(blocks, Seq::empty(), blocks.len())
}

/// What a list of paths says.
pub open spec fn paths_view(s: Seq<BlockPath>) -> Seq<Seq<PathStep>> {
    s.map_values(|p: BlockPath| p@)
}

/// One style laid over another: what the upper one sets holds, attribute by
/// attribute, and where it sets nothing the lower one shows.
pub proof fn law_upper_style_wins(under: SpanStyle, over: SpanStyle)
    ensures
        ({
            let r = overlaid(under, over);
            &&& over.bold is Some ==> r.bold == over.bold
            &&& over.bold is None ==> r.bold == under.bold
            &&& over.italic is Some ==> r.italic == over.italic
            &&& over.italic is None ==> r.italic == under.italic
            &&& over.underline is Some ==> r.underline == over.underline
            &&& over.underline is None ==> r.underline == under.underline
            &&& over.strike is Some ==> r.strike == over.strike
            &&& over.strike is None ==> r.strike == under.strike
            &&& over.font_family is Some ==> r.font_family == over.font_family
            &&& over.font_family is None ==> r.font_family == under.font_family
            &&& over.font_size is Some ==> r.font_size == over.font_size
            &&& over.font_size is None ==> r.font_size == under.font_size
            &&& over.color is Some ==> r.color == over.color
            &&& over.color is None ==> r.color == under.color
            &&& over.bg_color is Some ==> r.bg_color == over.bg_color
            &&& over.bg_color is None ==> r.bg_color == under.bg_color
            &&& over.vert_align is Some ==> r.vert_align == over.vert_align
            &&& over.vert_align is None ==> r.vert_align == under.vert_align
            &&& over.caps is Some ==> r.caps == over.caps
            &&& over.caps is None ==> r.caps == under.caps
            &&& over.small_caps is Some ==> r.small_caps == over.small_caps
            &&& over.small_caps is None ==> r.small_caps == under.small_caps
        }),
{
}

/// The style of a byte is that of the first run that covers it, and plain where
/// none does.
pub proof fn law_style_of_a_byte(spans: Seq<StyleRun>, off: u32, i: int)
    requires
        0 <= i <= spans.len(),
        forall|j: int|
            0 <= j < i ==> off < (#[trigger] spans[j]).start || off >= spans[j].end,
        i < spans.len() ==> spans[i].start <= off < spans[i].end,
    ensures
        i < spans.len() ==> style_in(spans, off) == spans[i].style,
        i == spans.len() ==> style_in(spans, off) == plain_style(),
    decreases i,
{
    if i > 0 {
        let rest = spans.drop_first();
        assert(off < spans[0].start || off >= spans[0].end);
        assert forall|j: int| 0 <= j < i - 1 implies off < (#[trigger] rest[j]).start || off
            >= rest[j].end by {
            assert(rest[j] == spans[j + 1]);
        }
        if i < spans.len() {
            assert(rest[i - 1] == spans[i]);
        }
        law_style_of_a_byte(rest, off, i - 1);
    }
}

/// A path finds what it names: one step a top-level block, and two more steps a
/// block in the cell that the second step names.
pub proof fn law_paths_find_their_blocks(
    blocks: Seq<Block>,
    t: Table,
    idx: u32,
    row: u32,
    col: u32,
    inner: u32,
)
    requires
        idx < blocks.len(),
    ensures
        block_at(blocks, seq![PathStep::Block { idx }]) == Some(blocks[idx as int]),
        blocks[idx as int] == Block::Table(t) && row < t.rows@.len() && col
            < t.rows@[row as int].cells@.len() && inner
            < t.rows@[row as int].cells@[col as int].blocks@.len() ==> block_at(
            blocks,
            seq![
                PathStep::Block { idx },
                PathStep::Cell { row, col },
                PathStep::Block { idx: inner },
            ],
        ) == Some(t.rows@[row as int].cells@[col as int].blocks@[inner as int]),
{
    reveal_with_fuel(block_at, 3);
    let path = seq![
        PathStep::Block { idx },
        PathStep::Cell { row, col },
        PathStep::Block { idx: inner },
    ];
    assert(path.skip(2) =~= seq![PathStep::Block { idx: inner }]);
}

} // verus!
