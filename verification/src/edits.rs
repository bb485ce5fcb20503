//! The rules of single commands: pasted text, picture sizes, table positions,
//! file formats, spoken feedback, and the lists of tracked changes and
//! comments.

use crate::command::{BridgeCellBorders, ImageFit, InsertSide, PdfConformance};
use crate::common::{Alignment, BlockPath, Direction, DocFormat, LogicalPos, Pos};
use crate::document::{
    byte_len, text_len, Block, DocumentTree, NoteKind, Paragraph, Revision, RevisionKind,
};
use crate::session::{edit_range, in_doc_order, Session, State};
use crate::text::chars_of;
use vstd::prelude::*;
use vstd::string::*;

verus! {

broadcast use vstd::seq_lib::group_seq_properties;

/// A text with every line break written as a line feed: a carriage return and
/// a line feed count as one break, and so does a carriage return alone.
pub open spec fn line_fed(s: Seq<char>) -> Seq<char>
    decreases s.len(),
{
    if s.len() == 0 {
        s
    } else if s[0] == '\r' {
        let rest = s.drop_first();
        seq!['\n'] + line_fed(
            if rest.len() > 0 && rest[0] == '\n' {
                rest.drop_first()
            } else {
                rest
            },
        )
    } else {
        seq![s[0]] + line_fed(s.drop_first())
    }
}

/// A text with every line break written as a line feed.
#[verifier::rlimit(50)]
pub fn normalize_newlines(text: &str) -> (r: String)
    ensures
        r@ == line_fed(text@),
{
    let chars = chars_of(text);
    let mut out: Vec<char> = Vec::new();
    let mut i: usize = 0;
    assert(text@.skip(0) =~= text@);
    assert(out@ + line_fed(text@.skip(0)) =~= line_fed(text@));
    while i < chars.len()
        invariant
            i <= chars@.len(),
            chars@ == text@,
            out@ + line_fed(text@.skip(i as int)) == line_fed(text@),
        decreases chars.len() - i,
    {
        let c: char = chars[i];
        let ghost s = text@.skip(i as int);
        assert(s[0] == c);
        assert(s.drop_first() =~= text@.skip(i as int + 1));
        let ghost before = out@;
        if c == '\r' {
            out.push('\n');
            if i < chars.len() - 1 && chars[i + 1] == '\n' {
                assert(s.drop_first()[0] == '\n');
                assert(s.drop_first().drop_first() =~= text@.skip(i as int + 2));
                assert(before + line_fed(s) =~= out@ + line_fed(text@.skip(i as int + 2)));
                i += 2;
            } else {
                assert(before + line_fed(s) =~= out@ + line_fed(text@.skip(i as int + 1)));
                i += 1;
            }
        } else {
            out.push(c);
            assert(before + line_fed(s) =~= out@ + line_fed(text@.skip(i as int + 1)));
            i += 1;
        }
    }
    assert(out@ =~= line_fed(text@));
    let mut r = String::new();
    let mut k: usize = 0;
    assert(r@ =~= out@.take(0));
    while k < out.len()
        invariant
            k <= out@.len(),
            r@ == out@.take(k as int),
        decreases out.len() - k,
    {
        r.push(out[k]);
        k += 1;
        assert(r@ =~= out@.take(k as int));
    }
    assert(out@.take(k as int) =~= out@);
    r
}

/// No carriage return is left, and a text that had none is not changed.
pub proof fn law_line_feeds_only(s: Seq<char>)
    ensures
        !line_fed(s).contains('\r'),
        !s.contains('\r') ==> line_fed(s) == s,
        line_fed(line_fed(s)) == line_fed(s),
    decreases s.len(),
{
    if s.len() > 0 {
        let rest = s.drop_first();
        if s[0] == '\r' {
            let next = if rest.len() > 0 && rest[0] == '\n' {
                rest.drop_first()
            } else {
                rest
            };
            law_line_feeds_only(next);
            let all = seq!['\n'] + line_fed(next);
            assert forall|i: int| 0 <= i < all.len() implies all[i] != '\r' by {
                if i > 0 {
                    assert(all[i] == line_fed(next)[i - 1]);
                    assert(line_fed(next).contains(line_fed(next)[i - 1]));
                }
            }
            assert(all.drop_first() =~= line_fed(next));
            assert(line_fed(all) =~= all);
            assert(s.contains(s[0]));
        } else {
            law_line_feeds_only(rest);
            let all = seq![s[0]] + line_fed(rest);
            assert forall|i: int| 0 <= i < all.len() implies all[i] != '\r' by {
                if i > 0 {
                    assert(all[i] == line_fed(rest)[i - 1]);
                    assert(line_fed(rest).contains(line_fed(rest)[i - 1]));
                }
            }
            assert(all.drop_first() =~= line_fed(rest));
            assert(line_fed(all) =~= all);
            if !s.contains('\r') {
                assert forall|i: int| 0 <= i < rest.len() implies rest[i] != '\r' by {
                    assert(rest[i] == s[i + 1]);
                    assert(s.contains(s[i + 1]));
                }
                assert(all =~= s);
            }
        }
    }
}

/// How pasted plain text goes in: on one line, typed at the caret; with line
/// breaks, as several paragraphs.
#[derive(Debug, PartialEq, Eq)]
pub enum Paste {
    Line { text: String },
    Lines { text: String },
}

/// How pasted plain text goes in.
pub fn plan_paste(text: &str) -> (r: Paste)
    ensures
        ({
            let t = line_fed(text@);
            match r {
                Paste::Line { text } => text@ == t && !t.contains('\n'),
                Paste::Lines { text } => text@ == t && t.contains('\n'),
            }
        }),
{
    let fed = normalize_newlines(text);
    let chars = chars_of(&fed);
    let mut i: usize = 0;
    while i < chars.len()
        invariant
            i <= chars@.len(),
            chars@ == fed@,
            fed@ == line_fed(text@),
            forall|k: int| 0 <= k < i ==> fed@[k] != '\n',
        decreases chars.len() - i,
    {
        if chars[i] == '\n' {
            assert(fed@.contains(fed@[i as int]));
            return Paste::Lines { text: fed };
        }
        i += 1;
    }
    Paste::Line { text: fed }
}

/// The range that a paste replaces: the selection, else the start of the
/// document.
pub fn paste_range(session: &Session) -> (r: (LogicalPos, LogicalPos))
    ensures
        (r.0@, r.1@) == edit_range(session@, crate::common::top_pos(0, 0)),
{
    match &session.selection {
        Some(sel) => crate::common::ordered(sel.anchor.clone(), sel.caret.clone()),
        None => (LogicalPos::top(0, 0), LogicalPos::top(0, 0)),
    }
}

/// The range that a copy takes; none without selected text.
pub open spec fn copied(s: State) -> Option<(Pos, Pos)> {
    match s.sel {
        Some(sel) => {
            let (start, end) = in_doc_order(sel.anchor, sel.caret);
            if start == end {
                None
            } else {
                Some((start, end))
            }
        },
        None => None,
    }
}

/// The range that a copy takes.
pub fn clipboard_range(session: &Session) -> (r: Option<(LogicalPos, LogicalPos)>)
    ensures
        match (r, copied(session@)) {
            (Some((a, b)), Some(goal)) => (a@, b@) == goal,
            (None, None) => true,
            _ => false,
        },
{
    match &session.selection {
        Some(sel) => {
            let (start, end) = crate::common::ordered(sel.anchor.clone(), sel.caret.clone());
            if start.same(&end) {
                None
            } else {
                Some((start, end))
            }
        },
        None => None,
    }
}

/// The units of a picture's size in one pixel.
pub const EMU_PER_PX: i64 = 9525;

/// The width of a picture fitted to the text: six inches.
pub const FIT_WIDTH_EMU: i64 = 5_486_400;

/// The width of a picture fitted to the page: five inches.
pub const FIT_PAGE_EMU: i64 = 4_572_000;

/// The size of a picture of `width` by `height` pixels. A fitted one has the
/// width fitted to and keeps its proportions, at least one unit high; one
/// without a width becomes square.
pub open spec fn picture_size(width: u32, height: u32, fit: ImageFit) -> (int, int) {
    let target = match fit {
        ImageFit::FitWidth => FIT_WIDTH_EMU as int,
        _ => FIT_PAGE_EMU as int,
    };
    match fit {
        ImageFit::Original => (width * EMU_PER_PX, height * EMU_PER_PX),
        _ => if width == 0 {
            (target, target)
        } else {
            let h = (height * EMU_PER_PX * target) / (width * EMU_PER_PX);
            (target, if h < 1 {
                1
            } else {
                h
            })
        },
    }
}

/// The size of a picture in a document.
pub fn image_size(width: u32, height: u32, fit: ImageFit) -> (r: (i64, i64))
    ensures
        (r.0 as int, r.1 as int) == picture_size(width, height, fit),
{
    let w: i64 = width as i64 * EMU_PER_PX;
    let h: i64 = height as i64 * EMU_PER_PX;
    let target: i64 = match fit {
        ImageFit::Original => {
            return (w, h);
        },
        ImageFit::FitWidth => FIT_WIDTH_EMU,
        ImageFit::FitPage => FIT_PAGE_EMU,
    };
    if w <= 0 {
        return (target, target);
    }
    assert(0 <= h * target <= 0xFFFF_FFFF * 9525 * 5_486_400) by (nonlinear_arith)
        requires
            0 <= h <= 0xFFFF_FFFF * 9525,
            0 <= target <= 5_486_400,
    ;
    let scaled: i128 = h as i128 * target as i128 / w as i128;
    assert(0 <= scaled <= 0xFFFF_FFFF * 5_486_400) by (nonlinear_arith)
        requires
            scaled == (h * target) / (w as int),
            0 <= h * target <= 0xFFFF_FFFF * 9525 * 5_486_400,
            w >= 9525,
    ;
    let scaled: i64 = scaled as i64;
    (target, if scaled < 1 {
        1
    } else {
        scaled
    })
}

/// A fitted picture keeps its proportions as far as whole units allow.
pub proof fn law_fit_keeps_proportions(width: u32, height: u32, fit: ImageFit)
    requires
        width > 0,
        fit != ImageFit::Original,
        height * FIT_PAGE_EMU >= width,
    ensures
        ({
            let (w, h) = picture_size(width, height, fit);
            h * width <= height * w < (h + 1) * width
        }),
{
    let (w, h) = picture_size(width, height, fit);
    let q = (height * EMU_PER_PX * w) / (width * EMU_PER_PX);
    assert(q * width <= height * w < (q + 1) * width && q >= 1) by (nonlinear_arith)
        requires
            q == (height * 9525 * w) / (width * 9525),
            width > 0,
            height >= 0,
            w >= 4_572_000,
            height * 4_572_000 >= width,
            EMU_PER_PX == 9525,
    ;
}

/// Where a new row or column goes: before the given one, or after it.
pub open spec fn insert_at(index: u32, side: InsertSide) -> int {
    match side {
        InsertSide::Before => index as int,
        InsertSide::After => if index == usize::MAX {
            index as int
        } else {
            index + 1
        },
    }
}

/// Where a new row or column goes.
pub fn insert_index(index: u32, side: InsertSide) -> (r: usize)
    ensures
        r == insert_at(index, side),
{
    let at: usize = index as usize;
    match side {
        InsertSide::Before => at,
        InsertSide::After => if at == usize::MAX {
            at
        } else {
            at + 1
        },
    }
}

/// The borders that a command sets on paragraphs: none when no edge has a
/// stroke.
pub fn border_target(borders: BridgeCellBorders) -> (r: Option<BridgeCellBorders>)
    ensures
        r == (if borders.top is None && borders.left is None && borders.bottom is None
            && borders.right is None {
            None
        } else {
            Some(borders)
        }),
{
    if borders.top.is_none() && borders.left.is_none() && borders.bottom.is_none()
        && borders.right.is_none() {
        None
    } else {
        Some(borders)
    }
}

/// What a document is exported as. Only one archival profile is available.
#[derive(Debug, Clone, Copy, PartialEq, Eq, Structural)]
pub enum PdfProfile {
    Plain,
    A1b,
}

/// The profile that stands for a conformance level.
pub fn pdf_profile(conformance: PdfConformance) -> (r: PdfProfile)
    ensures
        r == PdfProfile::A1b <==> conformance == PdfConformance::A1b,
{
    match conformance {
        PdfConformance::A1b => PdfProfile::A1b,
        PdfConformance::A2u => PdfProfile::Plain,
        PdfConformance::X3 => PdfProfile::Plain,
    }
}

/// Why a file cannot be read or written in a format.
#[derive(Debug, Clone, Copy, PartialEq, Eq, Structural)]
pub enum FormatError {
    /// Only one format can be opened.
    CannotOpen,
    /// This format has an export command of its own.
    UseExport,
}

/// How a document is written.
#[derive(Debug, Clone, Copy, PartialEq, Eq, Structural)]
pub enum Writer {
    Docx,
    Html,
    PlainText,
}

/// Whether a document in a format can be opened.
pub fn open_format(format: DocFormat) -> (r: Result<(), FormatError>)
    ensures
        r == (if format == DocFormat::Docx {
            Ok::<(), FormatError>(())
        } else {
            Err(FormatError::CannotOpen)
        }),
{
    match format {
        DocFormat::Docx => Ok(()),
        _ => Err(FormatError::CannotOpen),
    }
}

/// How a document is written in a format.
pub open spec fn writer_for(format: DocFormat) -> Result<Writer, FormatError> {
    match format {
        DocFormat::Docx => Ok(Writer::Docx),
        DocFormat::Html => Ok(Writer::Html),
        DocFormat::PlainText => Ok(Writer::PlainText),
        DocFormat::Pdf => Err(FormatError::UseExport),
    }
}

/// How a document is written in a format.
pub fn save_format(format: DocFormat) -> (r: Result<Writer, FormatError>)
    ensures
        r == writer_for(format),
{
    match format {
        DocFormat::Docx => Ok(Writer::Docx),
        DocFormat::Html => Ok(Writer::Html),
        DocFormat::PlainText => Ok(Writer::PlainText),
        DocFormat::Pdf => Err(FormatError::UseExport),
    }
}

/// The spoken feedback for an alignment.
pub open spec fn align_words(align: Alignment) -> Seq<char> {
    match align {
        Alignment::Start => "Aligned start"@,
        Alignment::End => "Aligned end"@,
        Alignment::Center => "Aligned center"@,
        Alignment::Justify => "Justified"@,
    }
}

/// The spoken feedback for an alignment.
pub fn align_label(align: Alignment) -> (r: &'static str)
    ensures
        r@ == align_words(align),
{
    match align {
        Alignment::Start => "Aligned start",
        Alignment::End => "Aligned end",
        Alignment::Center => "Aligned center",
        Alignment::Justify => "Justified",
    }
}

/// The spoken feedback for a direction.
pub open spec fn direction_words(direction: Direction) -> Seq<char> {
    match direction {
        Direction::Ltr => "Direction set to left to right"@,
        Direction::Rtl => "Direction set to right to left"@,
    }
}

/// The spoken feedback for a direction.
pub fn direction_label(direction: Direction) -> (r: &'static str)
    ensures
        r@ == direction_words(direction),
{
    match direction {
        Direction::Ltr => "Direction set to left to right",
        Direction::Rtl => "Direction set to right to left",
    }
}

/// The spoken feedback for a paragraph style.
pub open spec fn style_words(style: Option<Seq<char>>) -> Seq<char> {
    match style {
        Some(id) => "Applied style "@ + id,
        None => "Cleared paragraph style"@,
    }
}

/// The spoken feedback for a paragraph style.
pub fn style_label(style: &Option<String>) -> (r: String)
    ensures
        r@ == style_words(crate::event::opt_chars(*style)),
{
    match style {
        Some(id) => {
            let mut r = "Applied style ".to_string();
            r.append(id.as_str());
            r
        },
        None => "Cleared paragraph style".to_string(),
    }
}

/// The spoken feedback for a comment that was resolved or opened again.
pub fn resolve_label(resolved: bool) -> (r: &'static str)
    ensures
        r@ == (if resolved {
            "Comment resolved"@
        } else {
            "Comment reopened"@
        }),
{
    if resolved {
        "Comment resolved"
    } else {
        "Comment reopened"
    }
}

/// The spoken feedback for a page break.
pub fn page_break_label() -> (r: &'static str)
    ensures
        r@ == "Page break inserted"@,
{
    "Page break inserted"
}

/// The spoken feedback for entering a note.
pub open spec fn note_words(kind: NoteKind, marker: Seq<char>) -> Seq<char> {
    match kind {
        NoteKind::Footnote => "Editing footnote "@ + marker,
        NoteKind::Endnote => "Editing endnote "@ + marker,
    }
}

/// The spoken feedback for entering a note.
pub fn note_label(kind: NoteKind, marker: &str) -> (r: String)
    ensures
        r@ == note_words(kind, marker@),
{
    let mut r: String = match kind {
        NoteKind::Footnote => "Editing footnote ".to_string(),
        NoteKind::Endnote => "Editing endnote ".to_string(),
    };
    r.append(marker);
    r
}

/// The number of a letter as a capital, within ASCII.
pub open spec fn capital(c: char) -> int {
    if 'a' <= c <= 'z' {
        c as int - 32
    } else {
        c as int
    }
}

/// A text reads as another, but for the case of its ASCII letters.
pub open spec fn reads_as(s: Seq<char>, word: Seq<char>) -> bool {
    &&& s.len() == word.len()
    &&& forall|i: int| 0 <= i < s.len() ==> capital(#[trigger] s[i]) == capital(word[i])
}

fn capital_of(c: char) -> (r: u32)
    ensures
        r == capital(c),
{
    let v: u32 = c as u32;
    if 'a' <= c && c <= 'z' {
        v - 32
    } else {
        v
    }
}

fn check_reads_as(s: &str, word: &str) -> (r: bool)
    ensures
        r == reads_as(s@, word@),
{
    let a = chars_of(s);
    let b = chars_of(word);
    if a.len() != b.len() {
        return false;
    }
    let mut i: usize = 0;
    while i < a.len()
        invariant
            i <= a@.len() == b@.len(),
            a@ == s@,
            b@ == word@,
            forall|k: int| 0 <= k < i ==> capital(#[trigger] s@[k]) == capital(word@[k]),
        decreases a.len() - i,
    {
        if capital_of(a[i]) != capital_of(b[i]) {
            assert(capital(s@[i as int]) != capital(word@[i as int]));
            return false;
        }
        i += 1;
    }
    true
}

/// The direction that a setting names: right to left for `RTL` in any case,
/// else left to right.
pub fn parse_direction(s: &str) -> (r: Direction)
    ensures
        r == (if reads_as(s@, "RTL"@) {
            Direction::Rtl
        } else {
            Direction::Ltr
        }),
{
    if check_reads_as(s, "RTL") {
        Direction::Rtl
    } else {
        Direction::Ltr
    }
}

/// The alignment that a setting names, in any case; else the start.
pub fn parse_alignment(s: &str) -> (r: Alignment)
    ensures
        r == (if reads_as(s@, "JUSTIFY"@) {
            Alignment::Justify
        } else if reads_as(s@, "END"@) {
            Alignment::End
        } else if reads_as(s@, "CENTER"@) {
            Alignment::Center
        } else {
            Alignment::Start
        }),
{
    if check_reads_as(s, "JUSTIFY") {
        Alignment::Justify
    } else if check_reads_as(s, "END") {
        Alignment::End
    } else if check_reads_as(s, "CENTER") {
        Alignment::Center
    } else {
        Alignment::Start
    }
}

/// The pattern of 0.25, the smallest zoom.
pub const MIN_ZOOM_BITS: u32 = 0x3E80_0000;

/// The pattern of 4, the largest zoom.
pub const MAX_ZOOM_BITS: u32 = 0x4080_0000;

/// A zoom brought between the smallest and the largest. What is not a number
/// stays as it is.
pub open spec fn zoom_within(bits: u32) -> u32 {
    let rank = crate::pipeline::float_rank(bits);
    if rank > 0x7F80_0000 || rank < -0x7F80_0000 {
        bits
    } else if rank < MIN_ZOOM_BITS {
        MIN_ZOOM_BITS
    } else if rank > MAX_ZOOM_BITS {
        MAX_ZOOM_BITS
    } else {
        bits
    }
}

/// A zoom brought between the smallest and the largest.
pub fn clamp_zoom(bits: u32) -> (r: u32)
    ensures
        r == zoom_within(bits),
{
    let negative: bool = bits >= 0x8000_0000;
    let size: u32 = if negative {
        bits - 0x8000_0000
    } else {
        bits
    };
    if size > 0x7F80_0000 {
        bits
    } else if negative || size < MIN_ZOOM_BITS {
        MIN_ZOOM_BITS
    } else if size > MAX_ZOOM_BITS {
        MAX_ZOOM_BITS
    } else {
        bits
    }
}

/// The bytes of text in the top-level paragraphs among the first `n` blocks.
pub open spec fn tree_bytes(blocks: Seq<Block>, n: nat) -> nat
    decreases n,
{
    if n == 0 {
        0
    } else {
        tree_bytes(blocks, (n - 1) as nat) + (match blocks[n - 1] {
            Block::Paragraph(p) => text_len(p.text@),
            Block::Table(_) => 0,
        })
    }
}

/// The bytes of text in a document's top-level paragraphs.
pub fn document_tree_bytes(doc: &DocumentTree) -> (r: u128)
    ensures
        r == tree_bytes(doc.blocks@, doc.blocks@.len()),
{
    let mut sum: u128 = 0;
    let mut i: usize = 0;
    while i < doc.blocks.len()
        invariant
            i <= doc.blocks@.len(),
            sum == tree_bytes(doc.blocks@, i as nat),
            sum <= i * 0xFFFF_FFFF_FFFF_FFFF,
        decreases doc.blocks.len() - i,
    {
        match &doc.blocks[i] {
            Block::Paragraph(p) => {
                sum += byte_len(&p.text) as u128;
            },
            Block::Table(_) => {},
        }
        i += 1;
    }
    sum
}

/// A tracked change in the list of all of them.
#[derive(Debug, PartialEq, Eq)]
pub struct RevisionRow {
    pub block: u32,
    pub start: u32,
    pub end: u32,
    pub inserted: bool,
    pub author: String,
    pub date: String,
}

/// What a [`RevisionRow`] says.
pub ghost struct RevisionEntry {
    pub block: u32,
    pub start: u32,
    pub end: u32,
    pub inserted: bool,
    pub author: Seq<char>,
    pub date: Seq<char>,
}

impl View for RevisionRow {
    type V = RevisionEntry;

    open spec fn view(&self) -> RevisionEntry {
        RevisionEntry {
            block: self.block,
            start: self.start,
            end: self.end,
            inserted: self.inserted,
            author: self.author@,
            date: self.date@,
        }
    }
}

/// The entry of a tracked change of block `block`.
pub open spec fn revision_entry(block: u32, r: Revision) -> RevisionEntry {
    RevisionEntry {
        block,
        start: r.start,
        end: r.end,
        inserted: r.kind == RevisionKind::Insert,
        author: r.author@,
        date: r.date@,
    }
}

/// The entries of a top-level paragraph: its tracked changes, then that of its
/// own end, which stands after the text.
pub open spec fn para_revisions(block: u32, p: Paragraph) -> Seq<RevisionEntry> {
    p.revisions@.map_values(|r: Revision| revision_entry(block, r)) + (match p.mark_revision {
        Some(m) => seq![
            RevisionEntry {
                start: text_len(p.text@) as u32,
                end: text_len(p.text@) as u32,
                ..revision_entry(block, m)
            },
        ],
        None => Seq::empty(),
    })
}

/// The tracked changes of the top-level paragraphs among the first `n` blocks.
pub open spec fn revision_list(blocks: Seq<Block>, n: nat) -> Seq<RevisionEntry>
    decreases n,
{
    if n == 0 {
        Seq::empty()
    } else {
        revision_list(blocks, (n - 1) as nat) + (match blocks[n - 1] {
            Block::Paragraph(p) => para_revisions((n - 1) as u32, p),
            Block::Table(_) => Seq::empty(),
        })
    }
}

/// What rows say.
pub open spec fn rows_say(s: Seq<RevisionRow>) -> Seq<RevisionEntry> {
    s.map_values(|r: RevisionRow| r@)
}

/// The tracked changes of a document's top-level paragraphs, in order.
pub fn revisions_snapshot(doc: &DocumentTree) -> (r: Vec<RevisionRow>)
    ensures
        rows_say(r@) == revision_list(doc.blocks@, doc.blocks@.len()),
{
    let mut out: Vec<RevisionRow> = Vec::new();
    let mut n: usize = 0;
    assert(rows_say(out@) =~= revision_list(doc.blocks@, 0));
    while n < doc.blocks.len()
        invariant
            n <= doc.blocks@.len(),
            rows_say(out@) == revision_list(doc.blocks@, n as nat),
        decreases doc.blocks.len() - n,
    {
        let ghost before = rows_say(out@);
        match &doc.blocks[n] {
            Block::Paragraph(p) => {
                let ghost more = p.revisions@.map_values(|r: Revision| revision_entry(n as u32, r));
                let mut i: usize = 0;
                assert(rows_say(out@) =~= before + more.take(0));
                while i < p.revisions.len()
                    invariant
                        i <= p.revisions@.len(),
                        more == p.revisions@.map_values(|r: Revision| revision_entry(n as u32, r)),
                        rows_say(out@) == before + more.take(i as int),
                    decreases p.revisions.len() - i,
                {
                    let r: &Revision = &p.revisions[i];
                    let row = RevisionRow {
                        block: n as u32,
                        start: r.start,
                        end: r.end,
                        inserted: r.kind == RevisionKind::Insert,
                        author: r.author.clone(),
                        date: r.date.clone(),
                    };
                    assert(row@ == revision_entry(n as u32, *r));
                    let ghost so_far = out@;
                    out.push(row);
                    assert(rows_say(out@) =~= rows_say(so_far).push(row@));
                    i += 1;
                    assert(rows_say(out@) =~= before + more.take(i as int));
                }
                assert(more.take(i as int) =~= more);
                if let Some(m) = &p.mark_revision {
                    let row = RevisionRow {
                        block: n as u32,
                        start: p.len32(),
                        end: p.len32(),
                        inserted: m.kind == RevisionKind::Insert,
                        author: m.author.clone(),
                        date: m.date.clone(),
                    };
                    let ghost so_far = out@;
                    out.push(row);
                    assert(rows_say(out@) =~= rows_say(so_far).push(row@));
                }
                assert(rows_say(out@) =~= before + para_revisions(n as u32, *p));
            },
            Block::Table(_) => {
                assert(rows_say(out@) =~= before + Seq::<RevisionEntry>::empty());
            },
        }
        n += 1;
        assert(rows_say(out@) =~= revision_list(doc.blocks@, n as nat));
    }
    out
}

/// The text and origin of a comment.
#[derive(Debug, PartialEq, Eq)]
pub struct CommentDef {
    pub id: u32,
    pub author: String,
    pub date: String,
    pub paragraphs: Vec<String>,
}

/// The text that a comment stands at.
#[derive(Debug, PartialEq, Eq)]
pub struct CommentRange {
    pub id: u32,
    pub start: LogicalPos,
    pub end: LogicalPos,
}

/// A comment in the list of all of them.
#[derive(Debug, PartialEq, Eq)]
pub struct CommentRow {
    pub id: u32,
    pub author: String,
    pub date: String,
    pub text: String,
    pub start_block: u32,
    pub start_offset: u32,
    pub end_block: u32,
    pub end_offset: u32,
}

/// What a [`CommentRow`] says.
pub ghost struct CommentEntry {
    pub id: u32,
    pub author: Seq<char>,
    pub date: Seq<char>,
    pub text: Seq<char>,
    pub start: (u32, u32),
    pub end: (u32, u32),
}

impl View for CommentRow {
    type V = CommentEntry;

    open spec fn view(&self) -> CommentEntry {
        CommentEntry {
            id: self.id,
            author: self.author@,
            date: self.date@,
            text: self.text@,
            start: (self.start_block, self.start_offset),
            end: (self.end_block, self.end_offset),
        }
    }
}

/// Texts joined with a line feed between every two.
pub open spec fn lines_of(texts: Seq<String>, n: nat) -> Seq<char>
    decreases n,
{
    if n == 0 {
        Seq::empty()
    } else if n == 1 {
        texts[0]@
    } else {
        lines_of(texts, (n - 1) as nat) + seq!['\n'] + texts[n - 1]@
    }
}

/// The first definition of a comment.
pub open spec fn comment_def(defs: Seq<CommentDef>, id: u32) -> Option<CommentDef>
    decreases defs.len(),
{
    if defs.len() == 0 {
        None
    } else if defs[0].id == id {
        Some(defs[0])
    } else {
        comment_def(defs.drop_first(), id)
    }
}

/// The block that a path ends in.
pub open spec fn end_block(path: Seq<crate::common::PathStep>) -> u32 {
    match crate::common::last_block(path) {
        Some(i) => i,
        None => 0,
    }
}

/// The entry of a comment. One without a definition has no author, date or
/// text.
pub open spec fn comment_entry(defs: Seq<CommentDef>, r: CommentRange) -> CommentEntry {
    let (author, date, text) = match comment_def(defs, r.id) {
        Some(d) => (d.author@, d.date@, lines_of(d.paragraphs@, d.paragraphs@.len())),
        None => (Seq::empty(), Seq::empty(), Seq::empty()),
    };
    CommentEntry {
        id: r.id,
        author,
        date,
        text,
        start: (end_block(r.start@.path), r.start.offset),
        end: (end_block(r.end@.path), r.end.offset),
    }
}

fn join_lines(texts: &Vec<String>) -> (r: String)
    ensures
        r@ == lines_of(texts@, texts@.len()),
{
    let mut out = String::new();
    let mut n: usize = 0;
    assert(out@ =~= lines_of(texts@, 0));
    while n < texts.len()
        invariant
            n <= texts@.len(),
            out@ == lines_of(texts@, n as nat),
        decreases texts.len() - n,
    {
        if n > 0 {
            out.push('\n');
        }
        out.append(texts[n].as_str());
        n += 1;
        assert(out@ =~= lines_of(texts@, n as nat));
    }
    out
}

fn find_def<'a>(defs: &'a Vec<CommentDef>, id: u32) -> (r: Option<&'a CommentDef>)
    ensures
        match r {
            Some(d) => comment_def(defs@, id) == Some(*d),
            None => comment_def(defs@, id) is None,
        },
{
    let mut i: usize = 0;
    assert(defs@.skip(0) =~= defs@);
    while i < defs.len()
        invariant
            i <= defs@.len(),
            comment_def(defs@, id) == comment_def(defs@.skip(i as int), id),
        decreases defs.len() - i,
    {
        assert(defs@.skip(i as int)[0] == defs@[i as int]);
        if defs[i].id == id {
            return Some(&defs[i]);
        }
        assert(defs@.skip(i as int).drop_first() =~= defs@.skip(i as int + 1));
        i += 1;
    }
    None
}

fn block_of(path: &BlockPath) -> (r: u32)
    ensures
        r == end_block(path@),
{
    match path.last_block_index() {
        Some(i) => i,
        None => 0,
    }
}

/// The comments of a document, in the order of their places.
pub fn comments_snapshot(ranges: &Vec<CommentRange>, defs: &Vec<CommentDef>) -> (r: Vec<CommentRow>)
    ensures
        r@.len() == ranges@.len(),
        forall|i: int|
            0 <= i < ranges@.len() ==> (#[trigger] r@[i])@ == comment_entry(defs@, ranges@[i]),
{
    let mut out: Vec<CommentRow> = Vec::new();
    let mut n: usize = 0;
    while n < ranges.len()
        invariant
            n <= ranges@.len(),
            out@.len() == n,
            forall|i: int|
                0 <= i < n ==> (#[trigger] out@[i])@ == comment_entry(defs@, ranges@[i]),
        decreases ranges.len() - n,
    {
        let range: &CommentRange = &ranges[n];
        let (author, date, text): (String, String, String) = match find_def(defs, range.id) {
            Some(d) => (d.author.clone(), d.date.clone(), join_lines(&d.paragraphs)),
            None => (String::new(), String::new(), String::new()),
        };
        let row = CommentRow {
            id: range.id,
            author,
            date,
            text,
            start_block: block_of(&range.start.path),
            start_offset: range.start.offset,
            end_block: block_of(&range.end.path),
            end_offset: range.end.offset,
        };
        assert(row@.author =~= comment_entry(defs@, *range).author);
        assert(row@.date =~= comment_entry(defs@, *range).date);
        assert(row@.text =~= comment_entry(defs@, *range).text);
        out.push(row);
        n += 1;
    }
    out
}

/// Every line break becomes one line feed, and every other character stays as
/// it is.
pub proof fn law_each_break_is_one_line_feed(s: Seq<char>, c: char)
    requires
        c != '\r',
    ensures
        line_fed(seq!['\r', '\n'] + s) == seq!['\n'] + line_fed(s),
        s.len() == 0 || s[0] != '\n' ==> line_fed(seq!['\r'] + s) == seq!['\n'] + line_fed(s),
        line_fed(seq![c] + s) == seq![c] + line_fed(s),
        line_fed(Seq::empty()).len() == 0,
{
    let both = seq!['\r', '\n'] + s;
    assert(both.drop_first().drop_first() =~= s);
    assert(both.drop_first()[0] == '\n');
    assert((seq!['\r'] + s).drop_first() =~= s);
    assert((seq![c] + s).drop_first() =~= s);
}

/// A copy takes what lies between the two ends of the selection, from the
/// earlier to the later one; it takes nothing where they are the same place.
pub proof fn law_copy_takes_the_selection(s: State)
    requires
        s.sel is Some,
    ensures
        ({
            let (a, b) = (s.sel->0.anchor, s.sel->0.caret);
            match copied(s) {
                Some((start, end)) => {
                    &&& a != b
                    &&& (start == a && end == b) || (start == b && end == a)
                    &&& crate::common::pos_order(start, end) <= 0
                },
                None => a == b,
            }
        }),
{
    crate::common::law_pos_order_flips(s.sel->0.anchor, s.sel->0.caret);
}

/// A zoom comes out between a quarter and four times, unchanged where it lies
/// there.
pub proof fn law_zoom_stays_within(bits: u32)
    requires
        bits <= 0x7F80_0000,
    ensures
        0x3E80_0000 <= zoom_within(bits) <= 0x4080_0000,
        0x3E80_0000 <= bits <= 0x4080_0000 ==> zoom_within(bits) == bits,
        bits < 0x3E80_0000 ==> zoom_within(bits) == 0x3E80_0000,
        bits > 0x4080_0000 ==> zoom_within(bits) == 0x4080_0000,
{
}

/// A picture at its own size has 9525 units for each pixel; a fitted one is as
/// wide as the text or the page allows, six inches or five.
pub proof fn law_picture_sizes(width: u32, height: u32)
    ensures
        picture_size(width, height, ImageFit::Original) == (width * 9525, height * 9525),
        picture_size(width, height, ImageFit::FitWidth).0 == 5_486_400,
        picture_size(width, height, ImageFit::FitPage).0 == 4_572_000,
{
}

/// A tracked change of a top-level paragraph is listed under that paragraph,
/// with its own range, author and date, as an insertion or a deletion; and so is
/// one of the paragraph's end, after the text.
pub proof fn law_every_change_is_listed(blocks: Seq<Block>, n: nat, i: int, p: Paragraph, k: int)
    requires
        0 <= i < n <= blocks.len() <= u32::MAX,
        blocks[i] == Block::Paragraph(p),
    ensures
        0 <= k < p.revisions@.len() ==> revision_list(blocks, n).contains(
            (RevisionEntry {
                block: i as u32,
                start: p.revisions@[k].start,
                end: p.revisions@[k].end,
                inserted: p.revisions@[k].kind is Insert,
                author: p.revisions@[k].author@,
                date: p.revisions@[k].date@,
            }),
        ),
        p.mark_revision matches Some(m) ==> revision_list(blocks, n).contains(
            (RevisionEntry {
                block: i as u32,
                start: text_len(p.text@) as u32,
                end: text_len(p.text@) as u32,
                inserted: m.kind is Insert,
                author: m.author@,
                date: m.date@,
            }),
        ),
    decreases n,
{
    let head = revision_list(blocks, (n - 1) as nat);
    let all = revision_list(blocks, n);
    if i < n - 1 {
        law_every_change_is_listed(blocks, (n - 1) as nat, i, p, k);
        assert forall|e: RevisionEntry| head.contains(e) implies all.contains(e) by {
            let j = choose|j: int| 0 <= j < head.len() && head[j] == e;
            assert(all[j] == e);
        }
    } else {
        let own = para_revisions(i as u32, p);
        assert(all =~= head + own);
        if 0 <= k < p.revisions@.len() {
            assert(all[head.len() + k] == own[k]);
        }
        if let Some(m) = p.mark_revision {
            assert(all[(head.len() + p.revisions@.len()) as int] == own[p.revisions@.len() as int]);
        }
    }
}

/// A comment is listed with the author, date and text of its first definition
/// and the two ends of the text that it stands at; one without a definition with
/// none of the three.
pub proof fn law_comment_is_listed(defs: Seq<CommentDef>, r: CommentRange, i: int)
    requires
        0 <= i <= defs.len(),
        forall|j: int| 0 <= j < i ==> (#[trigger] defs[j]).id != r.id,
        i < defs.len() ==> defs[i].id == r.id,
    ensures
        comment_entry(defs, r).id == r.id,
        comment_entry(defs, r).start.1 == r.start.offset,
        comment_entry(defs, r).end.1 == r.end.offset,
        r.start.path@.len() > 0 && r.start.path@.last() is Block ==> comment_entry(defs, r).start.0
            == r.start.path@.last()->idx,
        r.end.path@.len() > 0 && r.end.path@.last() is Block ==> comment_entry(defs, r).end.0
            == r.end.path@.last()->idx,
        i < defs.len() ==> comment_entry(defs, r).author == defs[i].author@ && comment_entry(
            defs,
            r,
        ).date == defs[i].date@,
        i < defs.len() && defs[i].paragraphs@.len() == 1 ==> comment_entry(defs, r).text
            == defs[i].paragraphs@[0]@,
        i < defs.len() && defs[i].paragraphs@.len() == 2 ==> comment_entry(defs, r).text
            == defs[i].paragraphs@[0]@ + seq!['\n'] + defs[i].paragraphs@[1]@,
        i == defs.len() ==> comment_entry(defs, r).author.len() == 0 && comment_entry(
            defs,
            r,
        ).date.len() == 0 && comment_entry(defs, r).text.len() == 0,
{
    lemma_first_def(defs, r.id, i);
    reveal_with_fuel(lines_of, 3);
}

proof fn lemma_first_def(defs: Seq<CommentDef>, id: u32, i: int)
    requires
        0 <= i <= defs.len(),
        forall|j: int| 0 <= j < i ==> (#[trigger] defs[j]).id != id,
        i < defs.len() ==> defs[i].id == id,
    ensures
        comment_def(defs, id) == if i < defs.len() {
            Some(defs[i])
        } else {
            None
        },
    decreases i,
{
    if i > 0 {
        let rest = defs.drop_first();
        assert(defs[0].id != id);
        assert forall|j: int| 0 <= j < i - 1 implies (#[trigger] rest[j]).id != id by {
            assert(rest[j] == defs[j + 1]);
        }
        if i < defs.len() {
            assert(rest[i - 1] == defs[i]);
        }
        lemma_first_def(rest, id, i - 1);
    }
}

/// Only the text of top-level paragraphs counts: another paragraph adds its
/// bytes, and a table adds none.
pub proof fn law_bytes_of_a_document(blocks: Seq<Block>, b: Block)
    ensures
        tree_bytes(blocks.push(b), blocks.len() + 1) == tree_bytes(blocks, blocks.len()) + (match b {
            Block::Paragraph(p) => text_len(p.text@) as int,
            Block::Table(_) => 0,
        }),
        tree_bytes(Seq::empty(), 0) == 0,
{
    lemma_tree_bytes_prefix(blocks, blocks.push(b), blocks.len());
}

proof fn lemma_tree_bytes_prefix(a: Seq<Block>, b: Seq<Block>, n: nat)
    requires
        n <= a.len() <= b.len(),
        forall|i: int| 0 <= i < a.len() ==> a[i] == #[trigger] b[i],
    ensures
        tree_bytes(a, n) == tree_bytes(b, n),
    decreases n,
{
    if n > 0 {
        lemma_tree_bytes_prefix(a, b, (n - 1) as nat);
        assert(a[n - 1] == b[n - 1]);
    }
}

} // verus!
