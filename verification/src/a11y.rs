//! The accessibility mirror: the document as a tree of plain regions.

use crate::common::{Direction, UnderlineStyle};
use crate::document::{
    byte_len, plain_style, text_len, Block, InlineKind, InlineObject, NoteKind, Paragraph, SpanStyle,
    StyleRun, Table, TableCell, TableRow, VMergeRole,
};
use crate::event::{
    cells_view, node_view, nodes_view, opt_chars, rows_view, runs_view, A11yCell, A11yNode,
    A11yNote, A11yNoteKind, A11yNoteRef, A11yObjectKind, A11yObjectRef, A11yParagraph, A11yRow,
    A11yRun, A11yTable, A11yTextBox, CellTree, NodeTree, RunTree,
};
use crate::spans::{cursor, or_else, runs_ok};
use crate::text::{check_slice, lemma_slice_len, slice_text, slices, text_slice};
use vstd::prelude::*;
use vstd::string::*;
use vstd::utf8::{encode_utf8, encode_utf8_valid_utf8, is_char_boundary_start_end_of_seq};

verus! {

broadcast use vstd::seq_lib::group_seq_properties;

/// The number of bytes of the placeholder character.
pub const PLACEHOLDER_LEN: u32 = 3;

/// The text by which a note is referred to.
#[derive(Debug, PartialEq, Eq)]
pub struct NoteMarker {
    pub kind: NoteKind,
    pub id: u32,
    pub text: String,
}

/// The text of a note's marker; empty for a note without one.
pub open spec fn marker_of(markers: Seq<NoteMarker>, kind: NoteKind, id: u32) -> Seq<char>
    decreases markers.len(),
{
    if markers.len() == 0 {
        Seq::empty()
    } else if markers[0].kind == kind && markers[0].id == id {
        markers[0].text@
    } else {
        marker_of(markers.drop_first(), kind, id)
    }
}

pub(crate) fn find_marker(markers: &Vec<NoteMarker>, kind: NoteKind, id: u32) -> (r: String)
    ensures
        r@ == marker_of(markers@, kind, id),
{
    let mut i: usize = 0;
    assert(markers@.skip(0) =~= markers@);
    while i < markers.len()
        invariant
            i <= markers@.len(),
            marker_of(markers@, kind, id) == marker_of(markers@.skip(i as int), kind, id),
        decreases markers.len() - i,
    {
        assert(markers@.skip(i as int)[0] == markers@[i as int]);
        if markers[i].kind == kind && markers[i].id == id {
            return markers[i].text.clone();
        }
        assert(markers@.skip(i as int).drop_first() =~= markers@.skip(i as int + 1));
        i += 1;
    }
    String::new()
}

/// A number in decimal digits.
pub open spec fn decimal(n: nat) -> Seq<char>
    decreases n,
{
    if n < 10 {
        seq![digit(n)]
    } else {
        decimal(n / 10).push(digit(n % 10))
    }
}

/// The character of a decimal digit.
pub open spec fn digit(d: nat) -> char {
    if d == 0 {
        '0'
    } else if d == 1 {
        '1'
    } else if d == 2 {
        '2'
    } else if d == 3 {
        '3'
    } else if d == 4 {
        '4'
    } else if d == 5 {
        '5'
    } else if d == 6 {
        '6'
    } else if d == 7 {
        '7'
    } else if d == 8 {
        '8'
    } else {
        '9'
    }
}

fn digit_text(d: u32) -> (r: &'static str)
    requires
        d < 10,
    ensures
        r@ == seq![digit(d as nat)],
{
    proof {
        reveal_strlit("0");
        reveal_strlit("1");
        reveal_strlit("2");
        reveal_strlit("3");
        reveal_strlit("4");
        reveal_strlit("5");
        reveal_strlit("6");
        reveal_strlit("7");
        reveal_strlit("8");
        reveal_strlit("9");
    }
    let r: &'static str = if d == 0 {
        "0"
    } else if d == 1 {
        "1"
    } else if d == 2 {
        "2"
    } else if d == 3 {
        "3"
    } else if d == 4 {
        "4"
    } else if d == 5 {
        "5"
    } else if d == 6 {
        "6"
    } else if d == 7 {
        "7"
    } else if d == 8 {
        "8"
    } else {
        "9"
    };
    assert(r@ =~= seq![digit(d as nat)]);
    r
}

/// Append a number in decimal digits.
pub fn push_decimal(s: &mut String, n: u32)
    ensures
        final(s)@ == old(s)@ + decimal(n as nat),
    decreases n,
{
    if n >= 10 {
        push_decimal(s, n / 10);
    }
    let ghost before = s@;
    s.append(digit_text(n % 10));
    assert(s@ =~= old(s)@ + decimal(n as nat));
}

/// The identifier of a note's region.
pub open spec fn region_id(kind: NoteKind, id: u32) -> Seq<char> {
    match kind {
        NoteKind::Footnote => "footnote-"@ + decimal(id as nat),
        NoteKind::Endnote => "endnote-"@ + decimal(id as nat),
    }
}

/// The identifier of a note's region: its kind and its number.
pub fn note_region_id(kind: NoteKind, id: u32) -> (r: String)
    ensures
        r@ == region_id(kind, id),
{
    let mut s: String = match kind {
        NoteKind::Footnote => "footnote-".to_owned(),
        NoteKind::Endnote => "endnote-".to_owned(),
    };
    push_decimal(&mut s, id);
    s
}

/// The kind of a note in the mirror.
pub open spec fn mirror_kind(kind: NoteKind) -> A11yNoteKind {
    match kind {
        NoteKind::Footnote => A11yNoteKind::Footnote,
        NoteKind::Endnote => A11yNoteKind::Endnote,
    }
}

fn to_mirror_kind(kind: NoteKind) -> (r: A11yNoteKind)
    ensures
        r == mirror_kind(kind),
{
    match kind {
        NoteKind::Footnote => A11yNoteKind::Footnote,
        NoteKind::Endnote => A11yNoteKind::Endnote,
    }
}

/// A run of text in a style.
pub open spec fn styled(text: Seq<char>, style: SpanStyle) -> RunTree {
    RunTree {
        text,
        bold: or_else(style.bold, false),
        italic: or_else(style.italic, false),
        underline: or_else(style.underline, UnderlineStyle::NoLine) != UnderlineStyle::NoLine,
        note_ref: None,
        object: None,
    }
}

/// The run that stands for an inline object: a note mark reads as its marker,
/// and a reference links to the note; a picture or text box has no text.
pub open spec fn object_run(
    kind: InlineKind,
    style: SpanStyle,
    markers: Seq<NoteMarker>,
    own: Seq<char>,
) -> RunTree {
    match kind {
        InlineKind::NoteRef { kind, id } => RunTree {
            note_ref: Some((mirror_kind(kind), region_id(kind, id))),
            ..styled(marker_of(markers, kind, id), style)
        },
        InlineKind::NoteSelfRef { .. } => styled(own, style),
        InlineKind::Image { rel_id, media_key, alt, .. } => RunTree {
            object: Some(
                (
                    A11yObjectKind::Image,
                    match media_key {
                        Some(k) => k@,
                        None => rel_id@,
                    },
                    opt_chars(alt),
                ),
            ),
            ..styled(Seq::empty(), style)
        },
        InlineKind::TextBox { id, alt, .. } => RunTree {
            object: Some((A11yObjectKind::TextBox, id@, opt_chars(alt))),
            ..styled(Seq::empty(), style)
        },
    }
}

fn copy_opt(s: &Option<String>) -> (r: Option<String>)
    ensures
        opt_chars(r) == opt_chars(*s),
{
    match s {
        Some(x) => Some(x.clone()),
        None => None,
    }
}

fn flag(o: Option<bool>) -> (r: bool)
    ensures
        r == or_else(o, false),
{
    match o {
        Some(x) => x,
        None => false,
    }
}

fn make_run(text: String, style: &SpanStyle) -> (r: A11yRun)
    ensures
        r@ == styled(text@, *style),
        r.text@ == text@,
        r.bold == (style.bold == Some(true)),
        r.italic == (style.italic == Some(true)),
        r.underline == (style.underline is Some && style.underline != Some(UnderlineStyle::NoLine)),
        r.note_ref is None && r.object is None,
{
    A11yRun {
        text,
        bold: flag(style.bold),
        italic: flag(style.italic),
        underline: match style.underline {
            Some(u) => u.is_visible(),
            None => false,
        },
        note_ref: None,
        object: None,
    }
}

fn make_object_run(
    kind: &InlineKind,
    style: &SpanStyle,
    markers: &Vec<NoteMarker>,
    own: &String,
) -> (r: A11yRun)
    ensures
        r@ == object_run(*kind, *style, markers@, own@),
{
    match kind {
        InlineKind::NoteRef { kind, id } => {
            let mut run = make_run(find_marker(markers, *kind, *id), style);
            run.note_ref = Some(
                A11yNoteRef { kind: to_mirror_kind(*kind), id: note_region_id(*kind, *id) },
            );
            run
        },
        InlineKind::NoteSelfRef { .. } => make_run(own.clone(), style),
        InlineKind::Image { rel_id, media_key, alt, .. } => {
            let mut run = make_run(String::new(), style);
            let id: String = match media_key {
                Some(k) => k.clone(),
                None => rel_id.clone(),
            };
            run.object = Some(A11yObjectRef { kind: A11yObjectKind::Image, id, alt: copy_opt(alt) });
            run
        },
        InlineKind::TextBox { id, alt, .. } => {
            let mut run = make_run(String::new(), style);
            run.object = Some(
                A11yObjectRef { kind: A11yObjectKind::TextBox, id: id.clone(), alt: copy_opt(alt) },
            );
            run
        },
    }
}

/// The run of bytes `s..e`, when there are any.
pub open spec fn text_run(text: Seq<char>, s: u32, e: u32, style: SpanStyle) -> Seq<RunTree> {
    if s < e {
        seq![styled(text_slice(text, s as int, e as int), style)]
    } else {
        Seq::empty()
    }
}

/// Object `o` stands in `at..e`.
pub open spec fn stands_in(o: InlineObject, at: u32, e: u32) -> bool {
    at <= o.at && o.at + PLACEHOLDER_LEN <= e
}

/// How far the first `n` objects take the text of `s..e`.
pub open spec fn seg_cursor(objects: Seq<InlineObject>, s: u32, e: u32, n: nat) -> u32
    decreases n,
{
    if n == 0 {
        s
    } else {
        let at = seg_cursor(objects, s, e, (n - 1) as nat);
        let o = objects[n - 1];
        if stands_in(o, at, e) {
            (o.at + PLACEHOLDER_LEN) as u32
        } else {
            at
        }
    }
}

/// The runs of bytes `s..e` up to the last of the first `n` objects in them:
/// the text between the objects, and a run for each object.
pub open spec fn seg_runs(
    p: Paragraph,
    s: u32,
    e: u32,
    style: SpanStyle,
    markers: Seq<NoteMarker>,
    own: Seq<char>,
    n: nat,
) -> Seq<RunTree>
    decreases n,
{
    if n == 0 {
        Seq::empty()
    } else {
        let head = seg_runs(p, s, e, style, markers, own, (n - 1) as nat);
        let at = seg_cursor(p.inline_objects@, s, e, (n - 1) as nat);
        let o = p.inline_objects@[n - 1];
        if stands_in(o, at, e) {
            head + text_run(p.text@, at, o.at, style) + seq![
                object_run(o.kind, style, markers, own),
            ]
        } else {
            head
        }
    }
}

/// The runs of bytes `s..e`, all in one style.
pub open spec fn segment(
    p: Paragraph,
    s: u32,
    e: u32,
    style: SpanStyle,
    markers: Seq<NoteMarker>,
    own: Seq<char>,
) -> Seq<RunTree> {
    if s < e {
        let n = p.inline_objects@.len();
        seg_runs(p, s, e, style, markers, own, n) + text_run(
            p.text@,
            seg_cursor(p.inline_objects@, s, e, n),
            e,
            style,
        )
    } else {
        Seq::empty()
    }
}

/// The runs of the first `n` style runs and of the gaps before them.
pub open spec fn runs_upto(
    p: Paragraph,
    markers: Seq<NoteMarker>,
    own: Seq<char>,
    n: nat,
) -> Seq<RunTree>
    decreases n,
{
    if n == 0 {
        Seq::empty()
    } else {
        let sr = p.spans@[n - 1];
        runs_upto(p, markers, own, (n - 1) as nat) + segment(
            p,
            cursor(p.spans@, (n - 1) as nat),
            sr.start,
            plain_style(),
            markers,
            own,
        ) + segment(p, sr.start, sr.end, sr.style, markers, own)
    }
}

/// The runs of a paragraph. `own` is the marker of the note that it is in.
pub open spec fn para_runs(p: Paragraph, markers: Seq<NoteMarker>, own: Seq<char>) -> Seq<RunTree> {
    let n = p.spans@.len();
    runs_upto(p, markers, own, n) + segment(
        p,
        cursor(p.spans@, n),
        text_len(p.text@) as u32,
        plain_style(),
        markers,
        own,
    )
}

/// Each object of a paragraph stands at a placeholder between characters.
pub open spec fn objects_ok(text: Seq<char>, objects: Seq<InlineObject>) -> bool {
    forall|i: int|
        0 <= i < objects.len() ==> slices(
            text,
            (#[trigger] objects[i]).at as int,
            objects[i].at + PLACEHOLDER_LEN,
        )
}

/// The bytes `s..e`, when there are any, start and end between characters.
pub open spec fn range_ok(text: Seq<char>, s: u32, e: u32) -> bool {
    s < e ==> slices(text, s as int, e as int)
}

/// Every piece of a paragraph's text that its style runs ask for starts and
/// ends between characters.
pub open spec fn pieces_ok(p: Paragraph) -> bool {
    &&& objects_ok(p.text@, p.inline_objects@)
    &&& forall|i: int|
        0 <= i < p.spans@.len() ==> range_ok(
            p.text@,
            cursor(p.spans@, i as nat),
            (#[trigger] p.spans@[i]).start,
        ) && range_ok(p.text@, p.spans@[i].start, p.spans@[i].end)
    &&& range_ok(p.text@, cursor(p.spans@, p.spans@.len()), text_len(p.text@) as u32)
}

fn check_range(text: &str, s: u32, e: u32) -> (r: bool)
    ensures
        r == range_ok(text@, s, e),
{
    s >= e || check_slice(text, s as usize, e as usize)
}

/// Whether every piece of a paragraph's text that its objects and style runs
/// ask for starts and ends between characters.
pub fn check_pieces(p: &Paragraph) -> (r: bool)
    ensures
        r == pieces_ok(*p),
{
    let len: usize = byte_len(p.text.as_str());
    let mut n: usize = 0;
    while n < p.inline_objects.len()
        invariant
            n <= p.inline_objects@.len(),
            len == text_len(p.text@),
            forall|i: int|
                0 <= i < n ==> slices(
                    p.text@,
                    (#[trigger] p.inline_objects@[i]).at as int,
                    p.inline_objects@[i].at + PLACEHOLDER_LEN,
                ),
        decreases p.inline_objects.len() - n,
    {
        let at: usize = p.inline_objects[n].at as usize;
        let placed = len >= PLACEHOLDER_LEN as usize && at <= len - PLACEHOLDER_LEN as usize
            && check_slice(p.text.as_str(), at, at + PLACEHOLDER_LEN as usize);
        if !placed {
            assert(!slices(
                p.text@,
                p.inline_objects@[n as int].at as int,
                p.inline_objects@[n as int].at + PLACEHOLDER_LEN,
            ));
            return false;
        }
        n += 1;
    }
    let mut at: u32 = 0;
    let mut k: usize = 0;
    while k < p.spans.len()
        invariant
            k <= p.spans@.len(),
            at == cursor(p.spans@, k as nat),
            forall|i: int|
                0 <= i < k ==> range_ok(
                    p.text@,
                    cursor(p.spans@, i as nat),
                    (#[trigger] p.spans@[i]).start,
                ) && range_ok(p.text@, p.spans@[i].start, p.spans@[i].end),
        decreases p.spans.len() - k,
    {
        let sr: StyleRun = p.spans[k];
        if !check_range(p.text.as_str(), at, sr.start) || !check_range(
            p.text.as_str(),
            sr.start,
            sr.end,
        ) {
            assert(!range_ok(p.text@, cursor(p.spans@, k as nat), p.spans@[k as int].start)
                || !range_ok(p.text@, p.spans@[k as int].start, p.spans@[k as int].end));
            return false;
        }
        at = sr.end;
        k += 1;
    }
    check_range(p.text.as_str(), at, p.len32())
}

proof fn lemma_runs_push(s: Seq<A11yRun>, r: A11yRun)
    ensures
        runs_view(s.push(r)) == runs_view(s).push(r@),
{
    assert(runs_view(s.push(r)) =~= runs_view(s).push(r@));
}

/// Append bytes `s..e` of a text as a run, when there are any.
pub fn push_run(runs: &mut Vec<A11yRun>, text: &str, s: u32, e: u32, style: &SpanStyle)
    requires
        range_ok(text@, s, e),
    ensures
        runs_view(final(runs)@) == runs_view(old(runs)@) + text_run(text@, s, e, *style),
{
    let ghost before = runs_view(runs@);
    if s < e {
        let piece = slice_text(text, s as usize, e as usize);
        let run = make_run(piece.to_owned(), style);
        proof {
            lemma_runs_push(runs@, run);
        }
        runs.push(run);
        assert(runs_view(runs@) =~= before + text_run(text@, s, e, *style));
    } else {
        assert(runs_view(runs@) =~= before + text_run(text@, s, e, *style));
    }
}

fn push_segment(
    runs: &mut Vec<A11yRun>,
    p: &Paragraph,
    s: u32,
    e: u32,
    style: &SpanStyle,
    markers: &Vec<NoteMarker>,
    own: &String,
)
    requires
        objects_ok(p.text@, p.inline_objects@),
        range_ok(p.text@, s, e),
    ensures
        runs_view(final(runs)@) == runs_view(old(runs)@) + segment(
            *p,
            s,
            e,
            *style,
            markers@,
            own@,
        ),
{
    let ghost before = runs_view(runs@);
    if s >= e {
        assert(runs_view(runs@) =~= before + Seq::<RunTree>::empty());
        return;
    }
    let mut at: u32 = s;
    let mut n: usize = 0;
    assert(runs_view(runs@) =~= before + seg_runs(*p, s, e, *style, markers@, own@, 0));
    while n < p.inline_objects.len()
        invariant
            n <= p.inline_objects@.len(),
            s < e,
            objects_ok(p.text@, p.inline_objects@),
            slices(p.text@, s as int, e as int),
            at == seg_cursor(p.inline_objects@, s, e, n as nat),
            s <= at <= e,
            slices(p.text@, at as int, e as int),
            runs_view(runs@) == before + seg_runs(*p, s, e, *style, markers@, own@, n as nat),
        decreases p.inline_objects.len() - n,
    {
        let o: &InlineObject = &p.inline_objects[n];
        let ghost so_far = runs_view(runs@);
        assert(slices(p.text@, p.inline_objects@[n as int].at as int, o.at + PLACEHOLDER_LEN));
        if e >= PLACEHOLDER_LEN && at <= o.at && o.at <= e - PLACEHOLDER_LEN {
            push_run(runs, p.text.as_str(), at, o.at, style);
            let run = make_object_run(&o.kind, style, markers, own);
            proof {
                lemma_runs_push(runs@, run);
            }
            runs.push(run);
            at = o.at + PLACEHOLDER_LEN;
        }
        n += 1;
        assert(runs_view(runs@) =~= before + seg_runs(
            *p,
            s,
            e,
            *style,
            markers@,
            own@,
            n as nat,
        ));
    }
    push_run(runs, p.text.as_str(), at, e, style);
    assert(runs_view(runs@) =~= before + segment(*p, s, e, *style, markers@, own@));
}

/// Split a paragraph into runs by its styles and inline objects.
pub fn a11y_runs(p: &Paragraph, markers: &Vec<NoteMarker>, own: &String) -> (r: Vec<A11yRun>)
    requires
        pieces_ok(*p),
    ensures
        runs_view(r@) == para_runs(*p, markers@, own@),
{
    let len: u32 = p.len32();
    let plain = SpanStyle::default();
    let mut runs: Vec<A11yRun> = Vec::new();
    let mut at: u32 = 0;
    let mut n: usize = 0;
    assert(runs_view(runs@) =~= runs_upto(*p, markers@, own@, 0));
    while n < p.spans.len()
        invariant
            n <= p.spans@.len(),
            pieces_ok(*p),
            plain == plain_style(),
            at == cursor(p.spans@, n as nat),
            runs_view(runs@) == runs_upto(*p, markers@, own@, n as nat),
        decreases p.spans.len() - n,
    {
        let sr: StyleRun = p.spans[n];
        assert(range_ok(p.text@, cursor(p.spans@, n as nat), p.spans@[n as int].start));
        push_segment(&mut runs, p, at, sr.start, &plain, markers, own);
        push_segment(&mut runs, p, sr.start, sr.end, &sr.style, markers, own);
        at = sr.end;
        n += 1;
    }
    push_segment(&mut runs, p, at, len, &plain, markers, own);
    runs
}

/// The text of a note.
#[derive(Debug, PartialEq, Eq)]
pub struct NoteStory {
    pub kind: NoteKind,
    pub id: u32,
    pub blocks: Vec<Block>,
}

/// A header or footer that some page shows.
#[derive(Debug, PartialEq, Eq)]
pub struct StoryPart {
    pub header: bool,
    pub rid: String,
    pub blocks: Vec<Block>,
}

/// What the mirror of a block depends on besides the block: the document's
/// base direction, the note markers and texts, the marker of the note that
/// the block is in, and whether footnotes follow their references.
pub ghost struct Context {
    pub dir: Direction,
    pub markers: Seq<NoteMarker>,
    pub stories: Seq<NoteStory>,
    pub own: Seq<char>,
    pub notes: bool,
}

/// What the mirror of a block depends on besides the block.
pub struct Mirror<'a> {
    pub dir: Direction,
    pub markers: &'a Vec<NoteMarker>,
    pub stories: &'a Vec<NoteStory>,
    pub own: &'a String,
    pub notes: bool,
}

impl<'a> View for Mirror<'a> {
    type V = Context;

    open spec fn view(&self) -> Context {
        Context {
            dir: self.dir,
            markers: self.markers@,
            stories: self.stories@,
            own: self.own@,
            notes: self.notes,
        }
    }
}

/// A paragraph's own direction: the one set on it, else that of its first
/// strong character, else the document's.
pub open spec fn resolved_direction(p: Paragraph, dir: Direction) -> Direction {
    match (p.props.direction, p.auto_direction) {
        (Some(d), _) => d,
        (None, Some(d)) => d,
        (None, None) => dir,
    }
}

/// A paragraph's own direction.
pub fn resolve_base_direction(p: &Paragraph, dir: Direction) -> (r: Direction)
    ensures
        r == resolved_direction(*p, dir),
{
    match (p.props.direction, p.auto_direction) {
        (Some(d), _) => d,
        (None, Some(d)) => d,
        (None, None) => dir,
    }
}

/// The node of a paragraph.
pub open spec fn para_node(p: Paragraph, cx: Context) -> NodeTree {
    NodeTree::Paragraph {
        direction: cx.dir,
        resolved: resolved_direction(p, cx.dir),
        runs: para_runs(p, cx.markers, cx.own),
    }
}

/// The text of the first note of a kind and number.
pub open spec fn story_of(stories: Seq<NoteStory>, kind: NoteKind, id: u32) -> Option<NoteStory>
    decreases stories.len(),
{
    if stories.len() == 0 {
        None
    } else if stories[0].kind == kind && stories[0].id == id {
        Some(stories[0])
    } else {
        story_of(stories.drop_first(), kind, id)
    }
}

/// The nodes of the first `n` blocks of a list, and the footnotes placed so
/// far.
pub open spec fn blocks_nodes(blocks: Seq<Block>, cx: Context, n: nat, placed: Seq<u32>) -> (
    Seq<NodeTree>,
    Seq<u32>,
)
    decreases (if cx.notes { 1nat } else { 0nat }), blocks, n,
{
    if n == 0 || n > blocks.len() {
        (Seq::empty(), placed)
    } else {
        let (head, pl) = blocks_nodes(blocks, cx, (n - 1) as nat, placed);
        let (more, pl2) = match blocks[n - 1] {
            Block::Paragraph(p) => para_nodes(p, cx, pl),
            Block::Table(t) => {
                let (rows, pl2) = rows_nodes(t.rows@, cx, t.rows@.len(), pl);
                (seq![NodeTree::Table { block_index: (n - 1) as u32, rows }], pl2)
            },
        };
        (head + more, pl2)
    }
}

/// A paragraph, the text boxes anchored in it, and the footnotes first
/// referred to in it.
pub open spec fn para_nodes(p: Paragraph, cx: Context, placed: Seq<u32>) -> (
    Seq<NodeTree>,
    Seq<u32>,
)
    decreases (if cx.notes { 1nat } else { 0nat }), p, 0nat,
{
    let n = p.inline_objects@.len();
    let (boxes, pl) = box_nodes(p.inline_objects@, cx, n, placed);
    let (notes, pl2) = footnote_nodes(p.inline_objects@, cx, n, pl);
    (seq![para_node(p, cx)] + boxes + notes, pl2)
}

/// The regions of the text boxes among the first `n` objects.
pub open spec fn box_nodes(objects: Seq<InlineObject>, cx: Context, n: nat, placed: Seq<u32>) -> (
    Seq<NodeTree>,
    Seq<u32>,
)
    decreases (if cx.notes { 1nat } else { 0nat }), objects, n,
{
    if n == 0 || n > objects.len() {
        (Seq::empty(), placed)
    } else {
        let (head, pl) = box_nodes(objects, cx, (n - 1) as nat, placed);
        match objects[n - 1].kind {
            InlineKind::TextBox { id, name, alt, blocks, .. } => {
                let (nodes, pl2) = blocks_nodes(blocks@, cx, blocks@.len(), pl);
                (
                    head.push(
                        NodeTree::TextBox {
                            id: id@,
                            name: opt_chars(name),
                            description: opt_chars(alt),
                            nodes,
                        },
                    ),
                    pl2,
                )
            },
            _ => (head, pl),
        }
    }
}

/// The regions of the footnotes that the first `n` objects refer to for the
/// first time.
pub open spec fn footnote_nodes(
    objects: Seq<InlineObject>,
    cx: Context,
    n: nat,
    placed: Seq<u32>,
) -> (Seq<NodeTree>, Seq<u32>)
    decreases (if cx.notes { 1nat } else { 0nat }), objects, n,
{
    if n == 0 || n > objects.len() || !cx.notes {
        (Seq::empty(), placed)
    } else {
        let (head, pl) = footnote_nodes(objects, cx, (n - 1) as nat, placed);
        match objects[n - 1].kind {
            InlineKind::NoteRef { kind, id } => match story_of(cx.stories, kind, id) {
                Some(story) => if kind == NoteKind::Footnote && !pl.contains(id) {
                    let marker = marker_of(cx.markers, kind, id);
                    (
                        head.push(
                            NodeTree::Note {
                                kind: mirror_kind(kind),
                                id: region_id(kind, id),
                                note_id: id,
                                marker,
                                nodes: blocks_nodes(
                                    story.blocks@,
                                    Context { own: marker, notes: false, ..cx },
                                    story.blocks@.len(),
                                    Seq::empty(),
                                ).0,
                            },
                        ),
                        pl.push(id),
                    )
                } else {
                    (head, pl)
                },
                None => (head, pl),
            },
            _ => (head, pl),
        }
    }
}

/// The rows of a table, the first `n` of them.
pub open spec fn rows_nodes(rows: Seq<TableRow>, cx: Context, n: nat, placed: Seq<u32>) -> (
    Seq<Seq<CellTree>>,
    Seq<u32>,
)
    decreases (if cx.notes { 1nat } else { 0nat }), rows, n,
{
    if n == 0 || n > rows.len() {
        (Seq::empty(), placed)
    } else {
        let (head, pl) = rows_nodes(rows, cx, (n - 1) as nat, placed);
        let cells = rows[n - 1].cells@;
        let (row, pl2) = row_nodes(rows, n - 1, cells, cx, cells.len(), pl);
        (head.push(row), pl2)
    }
}

/// How many rows from `k` on continue a merge in column `c`.
pub open spec fn continued(rows: Seq<TableRow>, c: int, k: int) -> nat
    decreases rows.len() - k,
{
    if 0 <= k < rows.len() && c < rows[k].cells@.len() && rows[k].cells@[c].props.v_merge
        == VMergeRole::Continue {
        1 + continued(rows, c, k + 1)
    } else {
        0
    }
}

/// The number of rows that a cell spans.
pub open spec fn row_span(rows: Seq<TableRow>, r: int, c: int) -> u32 {
    if rows[r].cells@[c].props.v_merge == VMergeRole::Restart {
        (1 + continued(rows, c, r + 1)) as u32
    } else {
        1
    }
}

/// The number of columns that a cell spans.
pub open spec fn col_span(cell: TableCell) -> u32 {
    if cell.props.grid_span >= 1 {
        cell.props.grid_span as u32
    } else {
        1
    }
}

/// The cells of row `r`, the first `n` of them. A cell that continues a merge
/// is left out: the cell above owns it.
pub open spec fn row_nodes(
    rows: Seq<TableRow>,
    r: int,
    cells: Seq<TableCell>,
    cx: Context,
    n: nat,
    placed: Seq<u32>,
) -> (Seq<CellTree>, Seq<u32>)
    decreases (if cx.notes { 1nat } else { 0nat }), cells, n,
{
    if n == 0 || n > cells.len() {
        (Seq::empty(), placed)
    } else {
        let (head, pl) = row_nodes(rows, r, cells, cx, (n - 1) as nat, placed);
        let cell = cells[n - 1];
        if cell.props.v_merge == VMergeRole::Continue {
            (head, pl)
        } else {
            let (nodes, pl2) = cell_nodes(cell.blocks@, cx, cell.blocks@.len(), pl);
            (
                head.push(
                    CellTree {
                        row: r as u32,
                        col: (n - 1) as u32,
                        row_span: row_span(rows, r, n - 1),
                        col_span: col_span(cell),
                        nodes,
                    },
                ),
                pl2,
            )
        }
    }
}

/// The nodes of the first `n` blocks of a cell. A nested table has none.
pub open spec fn cell_nodes(blocks: Seq<Block>, cx: Context, n: nat, placed: Seq<u32>) -> (
    Seq<NodeTree>,
    Seq<u32>,
)
    decreases (if cx.notes { 1nat } else { 0nat }), blocks, n,
{
    if n == 0 || n > blocks.len() {
        (Seq::empty(), placed)
    } else {
        let (head, pl) = cell_nodes(blocks, cx, (n - 1) as nat, placed);
        match blocks[n - 1] {
            Block::Paragraph(p) => {
                let (more, pl2) = para_nodes(p, cx, pl);
                (head + more, pl2)
            },
            Block::Table(_) => (head, pl),
        }
    }
}

/// Every paragraph in a list of blocks, text boxes included, can be split
/// into runs.
pub open spec fn blocks_ok(blocks: Seq<Block>) -> bool
    decreases blocks,
{
    forall|i: int| 0 <= i < blocks.len() ==> block_ok(#[trigger] blocks[i])
}

/// Every paragraph in a block can be split into runs.
pub open spec fn block_ok(b: Block) -> bool
    decreases b,
{
    match b {
        Block::Paragraph(p) => para_ok(p),
        Block::Table(t) => table_ok(t),
    }
}

/// Every paragraph in a table can be split into runs.
pub open spec fn table_ok(t: Table) -> bool
    decreases t,
{
    forall|r: int| 0 <= r < t.rows@.len() ==> row_ok(#[trigger] t.rows@[r])
}

/// Every paragraph in a row can be split into runs.
pub open spec fn row_ok(row: TableRow) -> bool
    decreases row,
{
    forall|c: int| 0 <= c < row.cells@.len() ==> blocks_ok((#[trigger] row.cells@[c]).blocks@)
}

/// A paragraph and the text boxes in it can be split into runs.
pub open spec fn para_ok(p: Paragraph) -> bool
    decreases p,
{
    &&& pieces_ok(p)
    &&& forall|i: int|
        0 <= i < p.inline_objects@.len() ==> object_ok(#[trigger] p.inline_objects@[i])
}

/// The paragraphs of a text box can be split into runs.
pub open spec fn object_ok(o: InlineObject) -> bool
    decreases o,
{
    match o.kind {
        InlineKind::TextBox { blocks, .. } => blocks_ok(blocks@),
        _ => true,
    }
}

/// The texts of all notes can be split into runs.
pub open spec fn stories_ok(stories: Seq<NoteStory>) -> bool {
    forall|i: int| 0 <= i < stories.len() ==> blocks_ok((#[trigger] stories[i]).blocks@)
}

/// Whether every paragraph in a list of blocks, text boxes included, can be
/// split into runs.
pub fn check_blocks(blocks: &Vec<Block>) -> (r: bool)
    ensures
        r == blocks_ok(blocks@),
    decreases blocks, 1nat,
{
    let mut n: usize = 0;
    while n < blocks.len()
        invariant
            n <= blocks@.len(),
            forall|i: int| 0 <= i < n ==> block_ok(#[trigger] blocks@[i]),
        decreases blocks.len() - n,
    {
        assert(decreases_to!(blocks => blocks@[n as int]));
        if !check_block(&blocks[n]) {
            assert(!block_ok(blocks@[n as int]));
            return false;
        }
        n += 1;
    }
    true
}

fn check_block(block: &Block) -> (r: bool)
    ensures
        r == block_ok(*block),
    decreases block, 0nat,
{
    match block {
        Block::Paragraph(p) => {
            assert(decreases_to!(block => block->Paragraph_0));
            assert(decreases_to!(block->Paragraph_0 => block->Paragraph_0.inline_objects));
            check_pieces(p) && check_objects(&p.inline_objects)
        },
        Block::Table(t) => {
            assert(decreases_to!(block => block->Table_0));
            assert(decreases_to!(block->Table_0 => block->Table_0.rows));
            let mut r: usize = 0;
            while r < t.rows.len()
                invariant
                    r <= t.rows@.len(),
                    block == Block::Table(*t),
                    decreases_to!(block => t.rows),
                    forall|i: int| 0 <= i < r ==> row_ok(#[trigger] t.rows@[i]),
                decreases t.rows.len() - r,
            {
                assert(decreases_to!(t.rows => t.rows@[r as int]));
                if !check_row(&t.rows[r]) {
                    assert(!row_ok(t.rows@[r as int]));
                    return false;
                }
                r += 1;
            }
            true
        },
    }
}

fn check_row(row: &TableRow) -> (r: bool)
    ensures
        r == row_ok(*row),
    decreases row, 0nat,
{
    let mut c: usize = 0;
    assert(decreases_to!(row => row.cells));
    while c < row.cells.len()
        invariant
            c <= row.cells@.len(),
            decreases_to!(row => row.cells),
            forall|i: int| 0 <= i < c ==> blocks_ok((#[trigger] row.cells@[i]).blocks@),
        decreases row.cells.len() - c,
    {
        assert(decreases_to!(row.cells => row.cells@[c as int]));
        assert(decreases_to!(row.cells@[c as int] => row.cells@[c as int].blocks));
        if !check_blocks(&row.cells[c].blocks) {
            assert(!blocks_ok(row.cells@[c as int].blocks@));
            return false;
        }
        c += 1;
    }
    true
}

fn check_objects(objects: &Vec<InlineObject>) -> (r: bool)
    ensures
        r == (forall|i: int| 0 <= i < objects@.len() ==> object_ok(#[trigger] objects@[i])),
    decreases objects, 1nat,
{
    let mut n: usize = 0;
    while n < objects.len()
        invariant
            n <= objects@.len(),
            forall|i: int| 0 <= i < n ==> object_ok(#[trigger] objects@[i]),
        decreases objects.len() - n,
    {
        let o: &InlineObject = &objects[n];
        match &o.kind {
            InlineKind::TextBox { blocks, .. } => {
                assert(decreases_to!(objects => objects@[n as int]));
                assert(decreases_to!(o => o.kind));
                assert(decreases_to!(o.kind => o.kind->TextBox_blocks));
                if !check_blocks(blocks) {
                    assert(!object_ok(objects@[n as int]));
                    return false;
                }
            },
            _ => {},
        }
        n += 1;
    }
    true
}

/// Whether the texts of all notes can be split into runs.
pub fn check_stories(stories: &Vec<NoteStory>) -> (r: bool)
    ensures
        r == stories_ok(stories@),
{
    let mut n: usize = 0;
    while n < stories.len()
        invariant
            n <= stories@.len(),
            forall|i: int| 0 <= i < n ==> blocks_ok((#[trigger] stories@[i]).blocks@),
        decreases stories.len() - n,
    {
        if !check_blocks(&stories[n].blocks) {
            assert(!blocks_ok(stories@[n as int].blocks@));
            return false;
        }
        n += 1;
    }
    true
}

pub(crate) proof fn lemma_nodes_push(s: Seq<A11yNode>, n: A11yNode)
    ensures
        nodes_view(s.push(n)) == nodes_view(s).push(node_view(n)),
{
    assert(nodes_view(s.push(n)) =~= nodes_view(s).push(node_view(n)));
}

pub(crate) fn find_story<'a>(stories: &'a Vec<NoteStory>, kind: NoteKind, id: u32) -> (r: Option<
    &'a NoteStory,
>)
    ensures
        match r {
            Some(s) => story_of(stories@, kind, id) == Some(*s) && (stories_ok(stories@)
                ==> blocks_ok(s.blocks@)) && s.kind == kind && s.id == id,
            None => story_of(stories@, kind, id) is None,
        },
{
    let mut i: usize = 0;
    assert(stories@.skip(0) =~= stories@);
    while i < stories.len()
        invariant
            i <= stories@.len(),
            story_of(stories@, kind, id) == story_of(stories@.skip(i as int), kind, id),
        decreases stories.len() - i,
    {
        assert(stories@.skip(i as int)[0] == stories@[i as int]);
        if stories[i].kind == kind && stories[i].id == id {
            return Some(&stories[i]);
        }
        assert(stories@.skip(i as int).drop_first() =~= stories@.skip(i as int + 1));
        i += 1;
    }
    None
}

fn holds_id(ids: &Vec<u32>, id: u32) -> (r: bool)
    ensures
        r == ids@.contains(id),
{
    let mut i: usize = 0;
    while i < ids.len()
        invariant
            i <= ids@.len(),
            forall|j: int| 0 <= j < i ==> ids@[j] != id,
        decreases ids.len() - i,
    {
        if ids[i] == id {
            return true;
        }
        i += 1;
    }
    false
}

/// Append the nodes of a list of blocks. `placed` holds the footnotes whose
/// region is already placed.
pub fn push_blocks(blocks: &Vec<Block>, cx: &Mirror, placed: &mut Vec<u32>, out: &mut Vec<A11yNode>)
    requires
        blocks_ok(blocks@),
        stories_ok(cx.stories@),
    ensures
        ({
            let (nodes, pl) = blocks_nodes(blocks@, cx@, blocks@.len(), old(placed)@);
            &&& nodes_view(final(out)@) == nodes_view(old(out)@) + nodes
            &&& final(placed)@ == pl
        }),
    decreases (if cx.notes { 1nat } else { 0nat }), blocks, 1nat,
{
    let ghost before = nodes_view(out@);
    let ghost p0 = placed@;
    let mut n: usize = 0;
    assert(nodes_view(out@) =~= before + blocks_nodes(blocks@, cx@, 0, p0).0);
    while n < blocks.len()
        invariant
            n <= blocks@.len(),
            blocks_ok(blocks@),
            stories_ok(cx.stories@),
            nodes_view(out@) == before + blocks_nodes(blocks@, cx@, n as nat, p0).0,
            placed@ == blocks_nodes(blocks@, cx@, n as nat, p0).1,
        decreases blocks.len() - n,
    {
        assert(block_ok(blocks@[n as int]));
        assert(decreases_to!(blocks => blocks@[n as int]));
        let ghost so_far = nodes_view(out@);
        match &blocks[n] {
            Block::Paragraph(p) => {
                assert(blocks@[n as int] == Block::Paragraph(*p));
                assert(decreases_to!(blocks@[n as int] => blocks@[n as int]->Paragraph_0));
                push_paragraph(p, cx, placed, out);
            },
            Block::Table(t) => {
                assert(blocks@[n as int] == Block::Table(*t));
                assert(decreases_to!(blocks@[n as int] => blocks@[n as int]->Table_0));
                let rows = build_rows(t, cx, placed);
                let node = A11yNode::Table(A11yTable { block_index: n as u32, rows });
                proof {
                    lemma_nodes_push(out@, node);
                }
                out.push(node);
            },
        }
        n += 1;
        assert(nodes_view(out@) =~= before + blocks_nodes(blocks@, cx@, n as nat, p0).0);
    }
}

fn push_paragraph(p: &Paragraph, cx: &Mirror, placed: &mut Vec<u32>, out: &mut Vec<A11yNode>)
    requires
        para_ok(*p),
        stories_ok(cx.stories@),
    ensures
        ({
            let (nodes, pl) = para_nodes(*p, cx@, old(placed)@);
            &&& nodes_view(final(out)@) == nodes_view(old(out)@) + nodes
            &&& final(placed)@ == pl
        }),
    decreases (if cx.notes { 1nat } else { 0nat }), p, 0nat,
{
    let ghost before = nodes_view(out@);
    let ghost p0 = placed@;
    let node = A11yNode::Paragraph(
        A11yParagraph {
            direction: cx.dir,
            resolved_direction: resolve_base_direction(p, cx.dir),
            runs: a11y_runs(p, cx.markers, cx.own),
        },
    );
    proof {
        lemma_nodes_push(out@, node);
    }
    out.push(node);
    assert(node_view(node) == para_node(*p, cx@));
    assert(nodes_view(out@) =~= before + seq![para_node(*p, cx@)]);
    let ghost objects = p.inline_objects@;
    let ghost after_para = nodes_view(out@);
    let mut k: usize = 0;
    assert(nodes_view(out@) =~= after_para + box_nodes(objects, cx@, 0, p0).0);
    while k < p.inline_objects.len()
        invariant
            k <= objects.len(),
            objects == p.inline_objects@,
            para_ok(*p),
            stories_ok(cx.stories@),
            nodes_view(out@) == after_para + box_nodes(objects, cx@, k as nat, p0).0,
            placed@ == box_nodes(objects, cx@, k as nat, p0).1,
        decreases p.inline_objects.len() - k,
    {
        let o: &InlineObject = &p.inline_objects[k];
        assert(object_ok(p.inline_objects@[k as int]));
        let ghost so_far = nodes_view(out@);
        if let InlineKind::TextBox { id, name, alt, blocks, .. } = &o.kind {
            assert(decreases_to!(p.inline_objects => p.inline_objects@));
            assert(decreases_to!(p.inline_objects@ => p.inline_objects@[k as int]));
            assert(decreases_to!(o.kind => o.kind->TextBox_blocks));
            let mut nodes: Vec<A11yNode> = Vec::new();
            assert(nodes_view(nodes@) =~= Seq::empty());
            push_blocks(blocks, cx, placed, &mut nodes);
            assert(nodes_view(nodes@) =~= Seq::empty() + nodes_view(nodes@));
            let region = A11yNode::TextBox(
                A11yTextBox { id: id.clone(), name: copy_opt(name), description: copy_opt(alt), nodes },
            );
            proof {
                lemma_nodes_push(out@, region);
            }
            out.push(region);
        }
        k += 1;
        assert(nodes_view(out@) =~= after_para + box_nodes(objects, cx@, k as nat, p0).0);
    }
    let ghost after_boxes = nodes_view(out@);
    let ghost p1 = placed@;
    push_footnotes(&p.inline_objects, cx, placed, out);
    assert(nodes_view(out@) =~= before + para_nodes(*p, cx@, p0).0);
}

fn push_footnotes(
    objects: &Vec<InlineObject>,
    cx: &Mirror,
    placed: &mut Vec<u32>,
    out: &mut Vec<A11yNode>,
)
    requires
        stories_ok(cx.stories@),
    ensures
        ({
            let (nodes, pl) = footnote_nodes(objects@, cx@, objects@.len(), old(placed)@);
            &&& nodes_view(final(out)@) == nodes_view(old(out)@) + nodes
            &&& final(placed)@ == pl
        }),
    decreases (if cx.notes { 1nat } else { 0nat }), objects, 0nat,
{
    let ghost before = nodes_view(out@);
    let ghost p0 = placed@;
    if !cx.notes {
        assert(nodes_view(out@) =~= before + Seq::<NodeTree>::empty());
        return;
    }
    let mut k: usize = 0;
    assert(nodes_view(out@) =~= before + footnote_nodes(objects@, cx@, 0, p0).0);
    while k < objects.len()
        invariant
            k <= objects@.len(),
            cx.notes,
            stories_ok(cx.stories@),
            nodes_view(out@) == before + footnote_nodes(objects@, cx@, k as nat, p0).0,
            placed@ == footnote_nodes(objects@, cx@, k as nat, p0).1,
        decreases objects.len() - k,
    {
        if let InlineKind::NoteRef { kind, id } = &objects[k].kind {
            if let Some(story) = find_story(cx.stories, *kind, *id) {
                if *kind == NoteKind::Footnote && !holds_id(placed, *id) {
                    let region = build_note(story, cx);
                    proof {
                        lemma_nodes_push(out@, region);
                    }
                    out.push(region);
                    placed.push(*id);
                }
            }
        }
        k += 1;
        assert(nodes_view(out@) =~= before + footnote_nodes(objects@, cx@, k as nat, p0).0);
    }
}

/// The region of a note. Notes referred to inside it are not followed.
pub open spec fn note_region(story: NoteStory, cx: Context) -> NodeTree {
    let marker = marker_of(cx.markers, story.kind, story.id);
    NodeTree::Note {
        kind: mirror_kind(story.kind),
        id: region_id(story.kind, story.id),
        note_id: story.id,
        marker,
        nodes: blocks_nodes(
            story.blocks@,
            Context { own: marker, notes: false, ..cx },
            story.blocks@.len(),
            Seq::empty(),
        ).0,
    }
}

pub(crate) fn build_note(story: &NoteStory, cx: &Mirror) -> (r: A11yNode)
    requires
        cx.notes,
        blocks_ok(story.blocks@),
        stories_ok(cx.stories@),
    ensures
        node_view(r) == note_region(*story, cx@),
    decreases 0nat, story.blocks, 2nat,
{
    let marker = find_marker(cx.markers, story.kind, story.id);
    let inner = Mirror {
        dir: cx.dir,
        markers: cx.markers,
        stories: cx.stories,
        own: &marker,
        notes: false,
    };
    let mut nodes: Vec<A11yNode> = Vec::new();
    let mut placed: Vec<u32> = Vec::new();
    assert(nodes_view(nodes@) =~= Seq::empty());
    push_blocks(&story.blocks, &inner, &mut placed, &mut nodes);
    assert(nodes_view(nodes@) =~= Seq::empty() + nodes_view(nodes@));
    let kind = to_mirror_kind(story.kind);
    let id = note_region_id(story.kind, story.id);
    A11yNode::Note(
        A11yNote { note_kind: kind, id, note_id: story.id, marker: marker.clone(), nodes },
    )
}

fn count_continued(t: &Table, c: usize, from: usize) -> (r: usize)
    requires
        from <= t.rows@.len(),
    ensures
        r == continued(t.rows@, c as int, from as int),
        r <= t.rows@.len() - from,
{
    let mut k: usize = from;
    while k < t.rows.len() && c < t.rows[k].cells.len() && t.rows[k].cells[c].props.v_merge
        == VMergeRole::Continue
        invariant
            from <= k <= t.rows@.len(),
            continued(t.rows@, c as int, from as int) == (k - from) + continued(
                t.rows@,
                c as int,
                k as int,
            ),
        decreases t.rows.len() - k,
    {
        k += 1;
    }
    k - from
}

/// The rows of a table.
pub fn build_rows(t: &Table, cx: &Mirror, placed: &mut Vec<u32>) -> (r: Vec<A11yRow>)
    requires
        table_ok(*t),
        stories_ok(cx.stories@),
    ensures
        ({
            let (rows, pl) = rows_nodes(t.rows@, cx@, t.rows@.len(), old(placed)@);
            &&& rows_view(r@) == rows
            &&& final(placed)@ == pl
        }),
    decreases (if cx.notes { 1nat } else { 0nat }), t, 0nat,
{
    let ghost p0 = placed@;
    let mut out: Vec<A11yRow> = Vec::new();
    let mut r: usize = 0;
    assert(rows_view(out@) =~= rows_nodes(t.rows@, cx@, 0, p0).0);
    while r < t.rows.len()
        invariant
            r <= t.rows@.len(),
            table_ok(*t),
            stories_ok(cx.stories@),
            rows_view(out@) == rows_nodes(t.rows@, cx@, r as nat, p0).0,
            placed@ == rows_nodes(t.rows@, cx@, r as nat, p0).1,
        decreases t.rows.len() - r,
    {
        assert(row_ok(t.rows@[r as int]));
        assert(decreases_to!(t.rows => t.rows@));
        let cells = build_row(t, r, cx, placed);
        let row = A11yRow { cells };
        let ghost before = out@;
        out.push(row);
        assert(rows_view(out@) =~= rows_view(before).push(cells_view(row.cells@)));
        r += 1;
        assert(rows_view(out@) =~= rows_nodes(t.rows@, cx@, r as nat, p0).0);
    }
    out
}

fn build_row(t: &Table, r: usize, cx: &Mirror, placed: &mut Vec<u32>) -> (out: Vec<A11yCell>)
    requires
        r < t.rows@.len(),
        row_ok(t.rows@[r as int]),
        stories_ok(cx.stories@),
    ensures
        ({
            let cells = t.rows@[r as int].cells@;
            let (row, pl) = row_nodes(t.rows@, r as int, cells, cx@, cells.len(), old(placed)@);
            &&& cells_view(out@) == row
            &&& final(placed)@ == pl
        }),
    decreases (if cx.notes { 1nat } else { 0nat }), t.rows@[r as int], 0nat,
{
    let ghost p0 = placed@;
    let ghost cells = t.rows@[r as int].cells@;
    let n_rows: usize = t.rows.len();
    let mut out: Vec<A11yCell> = Vec::new();
    let mut c: usize = 0;
    assert(cells_view(out@) =~= row_nodes(t.rows@, r as int, cells, cx@, 0, p0).0);
    while c < t.rows[r].cells.len()
        invariant
            r < n_rows == t.rows@.len(),
            cells == t.rows@[r as int].cells@,
            c <= cells.len(),
            row_ok(t.rows@[r as int]),
            stories_ok(cx.stories@),
            cells_view(out@) == row_nodes(t.rows@, r as int, cells, cx@, c as nat, p0).0,
            placed@ == row_nodes(t.rows@, r as int, cells, cx@, c as nat, p0).1,
        decreases cells.len() - c,
    {
        let cell: &TableCell = &t.rows[r].cells[c];
        if cell.props.v_merge != VMergeRole::Continue {
            assert(blocks_ok(t.rows@[r as int].cells@[c as int].blocks@));
            assert(decreases_to!(t.rows@[r as int] => t.rows@[r as int].cells));
            assert(decreases_to!(t.rows@[r as int].cells => t.rows@[r as int].cells@));
            assert(decreases_to!(t.rows@[r as int].cells@ => t.rows@[r as int].cells@[c as int]));
            let nodes = build_cell(&cell.blocks, cx, placed);
            let row_span: u32 = if cell.props.v_merge == VMergeRole::Restart {
                (1 + count_continued(t, c, r + 1)) as u32
            } else {
                1
            };
            let col_span: u32 = if cell.props.grid_span >= 1 {
                cell.props.grid_span as u32
            } else {
                1
            };
            let node = A11yCell { row: r as u32, col: c as u32, row_span, col_span, nodes };
            let ghost before = out@;
            out.push(node);
            assert(cells_view(out@) =~= cells_view(before).push(crate::event::cell_view(node)));
        }
        c += 1;
        assert(cells_view(out@) =~= row_nodes(t.rows@, r as int, cells, cx@, c as nat, p0).0);
    }
    out
}

fn build_cell(blocks: &Vec<Block>, cx: &Mirror, placed: &mut Vec<u32>) -> (out: Vec<A11yNode>)
    requires
        blocks_ok(blocks@),
        stories_ok(cx.stories@),
    ensures
        ({
            let (nodes, pl) = cell_nodes(blocks@, cx@, blocks@.len(), old(placed)@);
            &&& nodes_view(out@) == nodes
            &&& final(placed)@ == pl
        }),
    decreases (if cx.notes { 1nat } else { 0nat }), blocks, 1nat,
{
    let ghost p0 = placed@;
    let mut out: Vec<A11yNode> = Vec::new();
    let mut n: usize = 0;
    assert(nodes_view(out@) =~= cell_nodes(blocks@, cx@, 0, p0).0);
    while n < blocks.len()
        invariant
            n <= blocks@.len(),
            blocks_ok(blocks@),
            stories_ok(cx.stories@),
            nodes_view(out@) == cell_nodes(blocks@, cx@, n as nat, p0).0,
            placed@ == cell_nodes(blocks@, cx@, n as nat, p0).1,
        decreases blocks.len() - n,
    {
        assert(block_ok(blocks@[n as int]));
        if let Block::Paragraph(p) = &blocks[n] {
            assert(blocks@[n as int] == Block::Paragraph(*p));
            assert(decreases_to!(blocks => blocks@[n as int]));
            assert(decreases_to!(blocks@[n as int] => blocks@[n as int]->Paragraph_0));
            push_paragraph(p, cx, placed, &mut out);
        }
        n += 1;
        assert(nodes_view(out@) =~= cell_nodes(blocks@, cx@, n as nat, p0).0);
    }
    out
}

/// The bytes that a reader of the runs hears, one run after another.
pub open spec fn spoken(runs: Seq<RunTree>) -> Seq<u8>
    decreases runs.len(),
{
    if runs.len() == 0 {
        Seq::empty()
    } else {
        spoken(runs.drop_last()) + encode_utf8(runs.last().text)
    }
}

proof fn lemma_spoken_concat(a: Seq<RunTree>, b: Seq<RunTree>)
    ensures
        spoken(a + b) == spoken(a) + spoken(b),
    decreases b.len(),
{
    if b.len() == 0 {
        assert(a + b =~= a);
        assert(spoken(a) + spoken(b) =~= spoken(a));
    } else {
        assert((a + b).drop_last() =~= a + b.drop_last());
        lemma_spoken_concat(a, b.drop_last());
        assert(spoken(a + b) =~= spoken(a) + spoken(b));
    }
}

proof fn lemma_spoken_segment(
    p: Paragraph,
    s: u32,
    e: u32,
    style: SpanStyle,
    markers: Seq<NoteMarker>,
    own: Seq<char>,
)
    requires
        p.inline_objects@.len() == 0,
        s <= e,
        range_ok(p.text@, s, e),
        e <= text_len(p.text@),
    ensures
        spoken(segment(p, s, e, style, markers, own)) == encode_utf8(p.text@).subrange(
            s as int,
            e as int,
        ),
{
    let seg = segment(p, s, e, style, markers, own);
    if s < e {
        let run = styled(text_slice(p.text@, s as int, e as int), style);
        assert(seg =~= seq![run]);
        assert(seg.drop_last() =~= Seq::<RunTree>::empty());
        lemma_slice_len(p.text@, s as int, e as int);
        assert(spoken(seg.drop_last()).len() == 0);
        assert(spoken(seg) =~= encode_utf8(run.text));
    } else {
        assert(seg =~= Seq::<RunTree>::empty());
        assert(encode_utf8(p.text@).subrange(s as int, e as int) =~= Seq::empty());
    }
}

#[verifier::rlimit(50)]
proof fn lemma_spoken_upto(p: Paragraph, markers: Seq<NoteMarker>, own: Seq<char>, n: nat)
    requires
        p.inline_objects@.len() == 0,
        runs_ok(p.text@, p.spans@),
        pieces_ok(p),
        n <= p.spans@.len(),
    ensures
        cursor(p.spans@, n) <= text_len(p.text@),
        spoken(runs_upto(p, markers, own, n)) == encode_utf8(p.text@).subrange(
            0,
            cursor(p.spans@, n) as int,
        ),
    decreases n,
{
    let bytes = encode_utf8(p.text@);
    if n == 0 {
        assert(bytes.subrange(0, 0) =~= Seq::empty());
    } else {
        let n1 = (n - 1) as nat;
        lemma_spoken_upto(p, markers, own, n1);
        let sr = p.spans@[n - 1];
        let at = cursor(p.spans@, n1);
        if n > 1 {
            assert(p.spans@[n - 2].end <= sr.start);
        }
        let gap = segment(p, at, sr.start, plain_style(), markers, own);
        let run = segment(p, sr.start, sr.end, sr.style, markers, own);
        lemma_spoken_segment(p, at, sr.start, plain_style(), markers, own);
        lemma_spoken_segment(p, sr.start, sr.end, sr.style, markers, own);
        let head = runs_upto(p, markers, own, n1);
        lemma_spoken_concat(head, gap);
        lemma_spoken_concat(head + gap, run);
        assert(spoken(runs_upto(p, markers, own, n)) =~= bytes.subrange(0, sr.end as int));
    }
}

/// The runs of a paragraph without inline objects read out its text, no byte
/// lost and none twice.
pub proof fn law_runs_read_the_text(p: Paragraph, markers: Seq<NoteMarker>, own: Seq<char>)
    requires
        p.inline_objects@.len() == 0,
        runs_ok(p.text@, p.spans@),
    ensures
        pieces_ok(p),
        spoken(para_runs(p, markers, own)) == encode_utf8(p.text@),
{
    let n = p.spans@.len();
    let bytes = encode_utf8(p.text@);
    let at = cursor(p.spans@, n);
    encode_utf8_valid_utf8(p.text@);
    is_char_boundary_start_end_of_seq(bytes);
    assert forall|i: int| 0 <= i < p.spans@.len() implies range_ok(
        p.text@,
        cursor(p.spans@, i as nat),
        (#[trigger] p.spans@[i]).start,
    ) && range_ok(p.text@, p.spans@[i].start, p.spans@[i].end) by {
        if i > 0 {
            assert(p.spans@[i - 1].end <= p.spans@[i].start);
        }
    }
    lemma_spoken_upto(p, markers, own, n);
    let tail = segment(p, at, text_len(p.text@) as u32, plain_style(), markers, own);
    lemma_spoken_segment(p, at, text_len(p.text@) as u32, plain_style(), markers, own);
    lemma_spoken_concat(runs_upto(p, markers, own, n), tail);
    assert(spoken(para_runs(p, markers, own)) =~= bytes);
}

/// A run shows a style: it is bold, italic or underlined where the style's own
/// attribute of that name says so, and nowhere else.
pub open spec fn shows(run: RunTree, style: SpanStyle) -> bool {
    &&& run.bold == (style.bold == Some(true))
    &&& run.italic == (style.italic == Some(true))
    &&& run.underline == (style.underline is Some && style.underline != Some(
        UnderlineStyle::NoLine,
    ))
}

proof fn lemma_segment_shows(
    p: Paragraph,
    s: u32,
    e: u32,
    style: SpanStyle,
    markers: Seq<NoteMarker>,
    own: Seq<char>,
    n: nat,
    k: int,
)
    requires
        n <= p.inline_objects@.len(),
        0 <= k < seg_runs(p, s, e, style, markers, own, n).len(),
    ensures
        shows(seg_runs(p, s, e, style, markers, own, n)[k], style),
    decreases n,
{
    let all = seg_runs(p, s, e, style, markers, own, n);
    let head = seg_runs(p, s, e, style, markers, own, (n - 1) as nat);
    if k < head.len() {
        lemma_segment_shows(p, s, e, style, markers, own, (n - 1) as nat, k);
        assert(all[k] == head[k]);
    } else {
        let at = seg_cursor(p.inline_objects@, s, e, (n - 1) as nat);
        let o = p.inline_objects@[n - 1];
        let text = text_run(p.text@, at, o.at, style);
        if k < head.len() + text.len() {
            assert(all[k] == text[k - head.len()]);
        } else {
            assert(all[k] == object_run(o.kind, style, markers, own));
        }
    }
}

/// Every run of a stretch of text in one style, its inline objects included,
/// shows that style.
pub proof fn law_stretch_shows_its_style(
    p: Paragraph,
    s: u32,
    e: u32,
    style: SpanStyle,
    markers: Seq<NoteMarker>,
    own: Seq<char>,
    k: int,
)
    requires
        0 <= k < segment(p, s, e, style, markers, own).len(),
    ensures
        shows(segment(p, s, e, style, markers, own)[k], style),
{
    let n = p.inline_objects@.len();
    let head = seg_runs(p, s, e, style, markers, own, n);
    let all = segment(p, s, e, style, markers, own);
    if k < head.len() {
        lemma_segment_shows(p, s, e, style, markers, own, n, k);
        assert(all[k] == head[k]);
    } else {
        assert(all[k] == styled(
            text_slice(p.text@, seg_cursor(p.inline_objects@, s, e, n) as int, e as int),
            style,
        ));
    }
}

proof fn lemma_style_run_is_there(
    p: Paragraph,
    markers: Seq<NoteMarker>,
    own: Seq<char>,
    n: nat,
    i: int,
    j: int,
)
    requires
        0 <= i < n <= p.spans@.len(),
        0 <= j < segment(
            p,
            p.spans@[i].start,
            p.spans@[i].end,
            p.spans@[i].style,
            markers,
            own,
        ).len(),
    ensures
        exists|k: int|
            0 <= k < runs_upto(p, markers, own, n).len() && #[trigger] runs_upto(
                p,
                markers,
                own,
                n,
            )[k] == segment(
                p,
                p.spans@[i].start,
                p.spans@[i].end,
                p.spans@[i].style,
                markers,
                own,
            )[j],
    decreases n,
{
    let sr = p.spans@[n - 1];
    let head = runs_upto(p, markers, own, (n - 1) as nat);
    let gap = segment(p, cursor(p.spans@, (n - 1) as nat), sr.start, plain_style(), markers, own);
    let seg = segment(p, sr.start, sr.end, sr.style, markers, own);
    let all = runs_upto(p, markers, own, n);
    assert(all =~= head + gap + seg);
    if i == n - 1 {
        assert(all[head.len() + gap.len() + j] == seg[j]);
    } else {
        lemma_style_run_is_there(p, markers, own, (n - 1) as nat, i, j);
        let goal = segment(
            p,
            p.spans@[i].start,
            p.spans@[i].end,
            p.spans@[i].style,
            markers,
            own,
        )[j];
        let k = choose|k: int| 0 <= k < head.len() && #[trigger] head[k] == goal;
        assert(all[k] == head[k]);
    }
}

/// Each style run of a paragraph is mirrored in its own style: where it holds
/// bytes and no inline object, there is a run with just that text, and it is
/// bold, italic and underlined as the style run's own attributes say.
pub proof fn law_style_run_is_mirrored(
    p: Paragraph,
    markers: Seq<NoteMarker>,
    own: Seq<char>,
    i: int,
)
    requires
        0 <= i < p.spans@.len(),
        p.spans@[i].start < p.spans@[i].end,
        p.inline_objects@.len() == 0,
    ensures
        ({
            let sr = p.spans@[i];
            let runs = para_runs(p, markers, own);
            exists|k: int|
                0 <= k < runs.len() && (#[trigger] runs[k]).text == text_slice(
                    p.text@,
                    sr.start as int,
                    sr.end as int,
                ) && runs[k].bold == (sr.style.bold == Some(true)) && runs[k].italic == (
                sr.style.italic == Some(true)) && runs[k].underline == (sr.style.underline is Some
                    && sr.style.underline != Some(UnderlineStyle::NoLine))
        }),
{
    let sr = p.spans@[i];
    let n = p.spans@.len();
    let seg = segment(p, sr.start, sr.end, sr.style, markers, own);
    assert(seg =~= seq![styled(text_slice(p.text@, sr.start as int, sr.end as int), sr.style)]);
    lemma_style_run_is_there(p, markers, own, n, i, 0);
    let head = runs_upto(p, markers, own, n);
    let k = choose|k: int| 0 <= k < head.len() && #[trigger] head[k] == seg[0];
    let runs = para_runs(p, markers, own);
    assert(runs[k] == head[k]);
    law_stretch_shows_its_style(p, sr.start, sr.end, sr.style, markers, own, 0);
    assert(runs[k].text == text_slice(p.text@, sr.start as int, sr.end as int));
}

proof fn lemma_run_has_a_style(
    p: Paragraph,
    markers: Seq<NoteMarker>,
    own: Seq<char>,
    n: nat,
    k: int,
)
    requires
        n <= p.spans@.len(),
        0 <= k < runs_upto(p, markers, own, n).len(),
    ensures
        shows(runs_upto(p, markers, own, n)[k], plain_style()) || exists|i: int|
            0 <= i < n && shows(runs_upto(p, markers, own, n)[k], (#[trigger] p.spans@[i]).style),
    decreases n,
{
    let sr = p.spans@[n - 1];
    let head = runs_upto(p, markers, own, (n - 1) as nat);
    let gap = segment(p, cursor(p.spans@, (n - 1) as nat), sr.start, plain_style(), markers, own);
    let seg = segment(p, sr.start, sr.end, sr.style, markers, own);
    let all = runs_upto(p, markers, own, n);
    assert(all =~= head + gap + seg);
    if k < head.len() {
        lemma_run_has_a_style(p, markers, own, (n - 1) as nat, k);
        assert(all[k] == head[k]);
    } else if k < head.len() + gap.len() {
        assert(all[k] == gap[k - head.len()]);
        law_stretch_shows_its_style(
            p,
            cursor(p.spans@, (n - 1) as nat),
            sr.start,
            plain_style(),
            markers,
            own,
            k - head.len(),
        );
    } else {
        let j = k - head.len() - gap.len();
        assert(all[k] == seg[j]);
        law_stretch_shows_its_style(p, sr.start, sr.end, sr.style, markers, own, j);
        assert(shows(all[k], p.spans@[n - 1].style));
    }
}

/// Every run of the mirror is plain, or shows one of the paragraph's styles:
/// no attribute comes from anywhere else.
pub proof fn law_every_run_shows_some_style(
    p: Paragraph,
    markers: Seq<NoteMarker>,
    own: Seq<char>,
    k: int,
)
    requires
        0 <= k < para_runs(p, markers, own).len(),
    ensures
        ({
            let run = para_runs(p, markers, own)[k];
            (!run.bold && !run.italic && !run.underline) || exists|i: int|
                0 <= i < p.spans@.len() && shows(run, (#[trigger] p.spans@[i]).style)
        }),
{
    let n = p.spans@.len();
    let head = runs_upto(p, markers, own, n);
    let tail = segment(
        p,
        cursor(p.spans@, n),
        text_len(p.text@) as u32,
        plain_style(),
        markers,
        own,
    );
    let all = para_runs(p, markers, own);
    if k < head.len() {
        lemma_run_has_a_style(p, markers, own, n, k);
        assert(all[k] == head[k]);
    } else {
        assert(all[k] == tail[k - head.len()]);
        law_stretch_shows_its_style(
            p,
            cursor(p.spans@, n),
            text_len(p.text@) as u32,
            plain_style(),
            markers,
            own,
            k - head.len(),
        );
    }
}

/// What an inline object is mirrored as: a reference to a note as the note's
/// marker, linked to the note's region; the mark inside a note as that note's own
/// marker; a picture as its stored file, or its relation where there is none, and
/// a text box as itself, both with their descriptions.
pub proof fn law_objects_are_mirrored(
    style: SpanStyle,
    markers: Seq<NoteMarker>,
    own: Seq<char>,
    kind: InlineKind,
)
    ensures
        ({
            let run = object_run(kind, style, markers, own);
            &&& shows(run, style)
            &&& match kind {
                InlineKind::NoteRef { kind: NoteKind::Footnote, id } => {
                    &&& run.text == marker_of(markers, NoteKind::Footnote, id)
                    &&& run.note_ref == Some(
                        (A11yNoteKind::Footnote, "footnote-"@ + decimal(id as nat)),
                    )
                    &&& run.object is None
                },
                InlineKind::NoteRef { kind: NoteKind::Endnote, id } => {
                    &&& run.text == marker_of(markers, NoteKind::Endnote, id)
                    &&& run.note_ref == Some(
                        (A11yNoteKind::Endnote, "endnote-"@ + decimal(id as nat)),
                    )
                    &&& run.object is None
                },
                InlineKind::NoteSelfRef { .. } => run.text == own && run.note_ref is None
                    && run.object is None,
                InlineKind::Image { rel_id, media_key, alt, .. } => {
                    &&& run.text.len() == 0 && run.note_ref is None
                    &&& run.object matches Some((what, name, description)) && {
                        &&& what == A11yObjectKind::Image
                        &&& media_key matches Some(key) ==> name == key@
                        &&& media_key is None ==> name == rel_id@
                        &&& alt is None ==> description is None
                        &&& alt matches Some(a) ==> description == Some(a@)
                    }
                },
                InlineKind::TextBox { id, alt, .. } => {
                    &&& run.text.len() == 0 && run.note_ref is None
                    &&& run.object matches Some((what, name, description)) && {
                        &&& what == A11yObjectKind::TextBox
                        &&& name == id@
                        &&& alt is None ==> description is None
                        &&& alt matches Some(a) ==> description == Some(a@)
                    }
                },
            }
        }),
{
}

/// A note is referred to by the text of the first marker of its kind and
/// number, which markers of other notes do not change.
pub proof fn law_marker_of_a_note(markers: Seq<NoteMarker>, kind: NoteKind, id: u32, i: int)
    requires
        0 <= i < markers.len(),
        markers[i].kind == kind && markers[i].id == id,
        forall|j: int|
            0 <= j < i ==> (#[trigger] markers[j]).kind != kind || markers[j].id != id,
    ensures
        marker_of(markers, kind, id) == markers[i].text@,
    decreases i,
{
    if i > 0 {
        let rest = markers.drop_first();
        assert(markers[0].kind != kind || markers[0].id != id);
        assert forall|j: int| 0 <= j < i - 1 implies (#[trigger] rest[j]).kind != kind || rest[j].id
            != id by {
            assert(rest[j] == markers[j + 1]);
        }
        assert(rest[i - 1] == markers[i]);
        law_marker_of_a_note(rest, kind, id, i - 1);
    }
}

/// The text of a note is that of the first story of its kind and number.
pub proof fn law_story_of_a_note(stories: Seq<NoteStory>, kind: NoteKind, id: u32, i: int)
    requires
        0 <= i < stories.len(),
        stories[i].kind == kind && stories[i].id == id,
        forall|j: int|
            0 <= j < i ==> (#[trigger] stories[j]).kind != kind || stories[j].id != id,
    ensures
        story_of(stories, kind, id) == Some(stories[i]),
    decreases i,
{
    if i > 0 {
        let rest = stories.drop_first();
        assert(stories[0].kind != kind || stories[0].id != id);
        assert forall|j: int| 0 <= j < i - 1 implies (#[trigger] rest[j]).kind != kind || rest[j].id
            != id by {
            assert(rest[j] == stories[j + 1]);
        }
        assert(rest[i - 1] == stories[i]);
        law_story_of_a_note(rest, kind, id, i - 1);
    }
}

/// The number that a row of digits says.
pub open spec fn number_said(digits: Seq<char>) -> int
    decreases digits.len(),
{
    if digits.len() == 0 {
        0
    } else {
        number_said(digits.drop_last()) * 10 + (digits.last() as int - '0' as int)
    }
}

/// A number in digits says that number, in digits alone.
pub proof fn law_digits_say_the_number(n: nat)
    ensures
        number_said(decimal(n)) == n,
        decimal(n).len() > 0,
        forall|i: int| 0 <= i < decimal(n).len() ==> '0' <= #[trigger] decimal(n)[i] <= '9',
    decreases n,
{
    if n < 10 {
        assert(decimal(n).drop_last() =~= Seq::<char>::empty());
        assert(number_said(decimal(n).drop_last()) == 0);
    } else {
        law_digits_say_the_number(n / 10);
        assert(decimal(n).drop_last() =~= decimal(n / 10));
    }
}

/// A paragraph reads in the direction set on it; where none is, in that of its
/// own letters; and where they have none, in the document's.
pub proof fn law_own_direction_comes_first(p: Paragraph, dir: Direction)
    ensures
        p.props.direction is Some ==> resolved_direction(p, dir) == p.props.direction->0,
        p.props.direction is None && p.auto_direction is Some ==> resolved_direction(p, dir)
            == p.auto_direction->0,
        p.props.direction is None && p.auto_direction is None ==> resolved_direction(p, dir) == dir,
{
}

/// The top cell of a merge spans its row and the rows below it down to the last
/// of an unbroken run whose cell at the same place continues it; every other cell
/// spans one row.
pub proof fn law_row_span_counts_the_merged_rows(rows: Seq<TableRow>, r: int, c: int, end: int)
    requires
        0 <= r < end <= rows.len() <= u32::MAX,
        0 <= c < rows[r].cells@.len(),
        forall|k: int|
            r < k < end ==> c < (#[trigger] rows[k]).cells@.len()
                && rows[k].cells@[c].props.v_merge == VMergeRole::Continue,
        end < rows.len() ==> c >= rows[end].cells@.len() || rows[end].cells@[c].props.v_merge
            != VMergeRole::Continue,
    ensures
        rows[r].cells@[c].props.v_merge == VMergeRole::Restart ==> row_span(rows, r, c) == end - r,
        rows[r].cells@[c].props.v_merge != VMergeRole::Restart ==> row_span(rows, r, c) == 1,
{
    lemma_continued_rows(rows, c, r + 1, end);
}

proof fn lemma_continued_rows(rows: Seq<TableRow>, c: int, k: int, end: int)
    requires
        0 <= k <= end <= rows.len(),
        forall|j: int|
            k <= j < end ==> c < (#[trigger] rows[j]).cells@.len()
                && rows[j].cells@[c].props.v_merge == VMergeRole::Continue,
        end < rows.len() ==> c >= rows[end].cells@.len() || rows[end].cells@[c].props.v_merge
            != VMergeRole::Continue,
    ensures
        continued(rows, c, k) == end - k,
    decreases end - k,
{
    if k < end {
        assert(c < rows[k].cells@.len());
        lemma_continued_rows(rows, c, k + 1, end);
    }
}

/// Each cell of a row that does not continue the one above is mirrored once,
/// under its own row and column, and spans the columns that it covers. No other
/// cell is.
pub proof fn law_cells_are_mirrored_in_place(
    rows: Seq<TableRow>,
    r: int,
    cells: Seq<TableCell>,
    cx: Context,
    n: nat,
    placed: Seq<u32>,
    c: int,
)
    requires
        0 <= r <= u32::MAX,
        n <= cells.len() <= u32::MAX,
        0 <= c < n,
    ensures
        ({
            let out = row_nodes(rows, r, cells, cx, n, placed).0;
            &&& cells[c].props.v_merge != VMergeRole::Continue ==> exists|k: int|
                0 <= k < out.len() && (#[trigger] out[k]).row == r && out[k].col == c
                    && out[k].row_span == row_span(rows, r, c) && out[k].col_span == if cells[c].props.grid_span
                    >= 1 {
                    cells[c].props.grid_span as int
                } else {
                    1
                }
            &&& cells[c].props.v_merge == VMergeRole::Continue ==> forall|k: int|
                0 <= k < out.len() ==> (#[trigger] out[k]).col != c
            &&& forall|k: int| 0 <= k < out.len() ==> (#[trigger] out[k]).col < n
        }),
    decreases n,
{
    let m = (n - 1) as nat;
    let head = row_nodes(rows, r, cells, cx, m, placed).0;
    let out = row_nodes(rows, r, cells, cx, n, placed).0;
    if m > 0 {
        law_cells_are_mirrored_in_place(rows, r, cells, cx, m, placed, if c < m {
            c
        } else {
            0
        });
    }
    assert(forall|k: int| 0 <= k < head.len() ==> (#[trigger] head[k]).col < m);
    assert(forall|k: int| 0 <= k < head.len() ==> out[k] == #[trigger] head[k]);
    if c < m {
        if cells[c].props.v_merge != VMergeRole::Continue {
            let k = choose|k: int|
                0 <= k < head.len() && (#[trigger] head[k]).row == r && head[k].col == c
                    && head[k].row_span == row_span(rows, r, c) && head[k].col_span == if cells[c].props.grid_span
                    >= 1 {
                    cells[c].props.grid_span as int
                } else {
                    1
                };
            assert(out[k] == head[k]);
        }
    } else if cells[c].props.v_merge != VMergeRole::Continue {
        assert(out.len() == head.len() + 1);
        assert(out[head.len() as int].col == c);
    }
}

/// Every block of a document is mirrored: a paragraph by a node with its runs
/// and the direction that it reads in, a table by one that names its place.
pub proof fn law_blocks_are_mirrored(
    blocks: Seq<Block>,
    cx: Context,
    n: nat,
    placed: Seq<u32>,
    i: int,
)
    requires
        0 <= i < n <= blocks.len() <= u32::MAX,
    ensures
        ({
            let out = blocks_nodes(blocks, cx, n, placed).0;
            match blocks[i] {
                Block::Paragraph(p) => out.contains(
                    (NodeTree::Paragraph {
                        direction: cx.dir,
                        resolved: resolved_direction(p, cx.dir),
                        runs: para_runs(p, cx.markers, cx.own),
                    }),
                ),
                Block::Table(t) => exists|k: int|
                    0 <= k < out.len() && (#[trigger] out[k]) is Table && out[k]->block_index == i
                        && out[k]->rows.len() == t.rows@.len(),
            }
        }),
    decreases n,
{
    let (head, pl) = blocks_nodes(blocks, cx, (n - 1) as nat, placed);
    let out = blocks_nodes(blocks, cx, n, placed).0;
    if i < n - 1 {
        law_blocks_are_mirrored(blocks, cx, (n - 1) as nat, placed, i);
        match blocks[i] {
            Block::Paragraph(p) => {
                let node = NodeTree::Paragraph {
                    direction: cx.dir,
                    resolved: resolved_direction(p, cx.dir),
                    runs: para_runs(p, cx.markers, cx.own),
                };
                let k = choose|k: int| 0 <= k < head.len() && head[k] == node;
                assert(out[k] == head[k]);
            },
            Block::Table(t) => {
                let k = choose|k: int|
                    0 <= k < head.len() && (#[trigger] head[k]) is Table && head[k]->block_index
                        == i && head[k]->rows.len() == t.rows@.len();
                assert(out[k] == head[k]);
            },
        }
    } else {
        match blocks[i] {
            Block::Paragraph(p) => {
                let more = para_nodes(p, cx, pl).0;
                assert(more[0] == para_node(p, cx));
                assert(out[head.len() as int] == more[0]);
            },
            Block::Table(t) => {
                lemma_rows_count(t.rows@, cx, t.rows@.len(), pl);
                assert(out[head.len() as int] is Table);
            },
        }
    }
}

proof fn lemma_rows_count(rows: Seq<TableRow>, cx: Context, n: nat, placed: Seq<u32>)
    requires
        n <= rows.len(),
    ensures
        rows_nodes(rows, cx, n, placed).0.len() == n,
    decreases n,
{
    if n > 0 {
        lemma_rows_count(rows, cx, (n - 1) as nat, placed);
    }
}

/// A footnote's text follows the first reference to it and comes only once:
/// after a paragraph is mirrored, every footnote that it refers to and that has
/// a text is placed, and none is placed twice.
pub proof fn law_footnotes_are_placed_once(
    objects: Seq<InlineObject>,
    cx: Context,
    n: nat,
    placed: Seq<u32>,
)
    requires
        n <= objects.len(),
        cx.notes,
        placed.no_duplicates(),
    ensures
        ({
            let (nodes, after) = footnote_nodes(objects, cx, n, placed);
            &&& after.no_duplicates()
            &&& after.len() == placed.len() + nodes.len()
            &&& forall|i: int|
                0 <= i < nodes.len() ==> (#[trigger] nodes[i]) is Note && nodes[i]->note_id
                    == after[placed.len() + i]
            &&& forall|i: int| 0 <= i < placed.len() ==> after[i] == #[trigger] placed[i]
            &&& forall|i: int|
                0 <= i < n ==> ((#[trigger] objects[i]).kind matches InlineKind::NoteRef {
                    kind: NoteKind::Footnote,
                    id,
                } ==> story_of(cx.stories, NoteKind::Footnote, id) is Some ==> after.contains(id))
        }),
    decreases n,
{
    if n > 0 {
        law_footnotes_are_placed_once(objects, cx, (n - 1) as nat, placed);
        let (head, pl) = footnote_nodes(objects, cx, (n - 1) as nat, placed);
        let (nodes, after) = footnote_nodes(objects, cx, n, placed);
        assert forall|i: int| 0 <= i < n implies ((#[trigger] objects[i]).kind matches InlineKind::NoteRef {
            kind: NoteKind::Footnote,
            id,
        } ==> story_of(cx.stories, NoteKind::Footnote, id) is Some ==> after.contains(id)) by {
            if let InlineKind::NoteRef { kind: NoteKind::Footnote, id } = objects[i].kind {
                if story_of(cx.stories, NoteKind::Footnote, id) is Some {
                    if pl.contains(id) {
                        let k = choose|k: int| 0 <= k < pl.len() && pl[k] == id;
                        assert(after[k] == id);
                    } else {
                        assert(i == n - 1);
                        assert(after == pl.push(id));
                        assert(after[pl.len() as int] == id);
                    }
                }
            }
        }
        assert forall|i: int| 0 <= i < nodes.len() implies (#[trigger] nodes[i]) is Note
            && nodes[i]->note_id == after[placed.len() + i] by {
            if i < head.len() {
                assert(nodes[i] == head[i]);
            }
        }
        assert forall|i: int| 0 <= i < placed.len() implies after[i] == #[trigger] placed[i] by {
            assert(pl[i] == placed[i]);
        }
    }
}

/// Every text box of a paragraph has its own region, under its name and
/// description, and no other object has one.
pub proof fn law_text_boxes_are_mirrored(
    objects: Seq<InlineObject>,
    cx: Context,
    n: nat,
    placed: Seq<u32>,
    i: int,
)
    requires
        0 <= i < n <= objects.len(),
    ensures
        ({
            let out = box_nodes(objects, cx, n, placed).0;
            &&& objects[i].kind matches InlineKind::TextBox { id, name, alt, .. } ==> exists|k: int|
                0 <= k < out.len() && (#[trigger] out[k]) is TextBox && out[k]->TextBox_id == id@
                    && out[k]->name == opt_chars(name) && out[k]->description == opt_chars(alt)
            &&& forall|k: int| 0 <= k < out.len() ==> (#[trigger] out[k]) is TextBox
        }),
    decreases n,
{
    let head = box_nodes(objects, cx, (n - 1) as nat, placed).0;
    let out = box_nodes(objects, cx, n, placed).0;
    if n > 1 {
        law_text_boxes_are_mirrored(objects, cx, (n - 1) as nat, placed, if i < n - 1 {
            i
        } else {
            0
        });
    }
    assert(forall|k: int| 0 <= k < head.len() ==> out[k] == #[trigger] head[k]);
    if let InlineKind::TextBox { id, name, alt, .. } = objects[i].kind {
        if i < n - 1 {
            let k = choose|k: int|
                0 <= k < head.len() && (#[trigger] head[k]) is TextBox && head[k]->TextBox_id
                    == id@ && head[k]->name == opt_chars(name) && head[k]->description == opt_chars(
                    alt,
                );
            assert(out[k] == head[k]);
        } else {
            assert(out[head.len() as int] is TextBox);
        }
    }
}

/// How far objects take the text of a stretch: no farther than the next object
/// that follows them.
proof fn lemma_cursor_before(objects: Seq<InlineObject>, s: u32, e: u32, n: nat, limit: u32)
    requires
        n <= objects.len(),
        s <= limit,
        forall|j: int| 0 <= j < n ==> (#[trigger] objects[j]).at + PLACEHOLDER_LEN <= limit,
    ensures
        seg_cursor(objects, s, e, n) <= limit,
    decreases n,
{
    if n > 0 {
        lemma_cursor_before(objects, s, e, (n - 1) as nat, limit);
        assert(objects[n - 1].at + PLACEHOLDER_LEN <= limit);
    }
}

/// Objects that stand one after another are each mirrored where they stand:
/// a stretch that holds the placeholder of an object has the run that stands for
/// it, in the stretch's style, and the text before the first object stands before
/// that run.
pub proof fn law_objects_stand_in_the_text(
    p: Paragraph,
    s: u32,
    e: u32,
    style: SpanStyle,
    markers: Seq<NoteMarker>,
    own: Seq<char>,
    i: int,
)
    requires
        0 <= i < p.inline_objects@.len(),
        s <= p.inline_objects@[i].at,
        p.inline_objects@[i].at + 3 <= e,
        forall|j: int|
            0 <= j < i ==> (#[trigger] p.inline_objects@[j]).at + 3 <= p.inline_objects@[i].at,
    ensures
        segment(p, s, e, style, markers, own).contains(
            object_run(p.inline_objects@[i].kind, style, markers, own),
        ),
        i == 0 && s < p.inline_objects@[0].at ==> segment(p, s, e, style, markers, own)[0].text
            == text_slice(p.text@, s as int, p.inline_objects@[0].at as int),
{
    let o = p.inline_objects@[i];
    let n = p.inline_objects@.len();
    lemma_cursor_before(p.inline_objects@, s, e, i as nat, o.at);
    let here = seg_runs(p, s, e, style, markers, own, (i + 1) as nat);
    assert(here.last() == object_run(o.kind, style, markers, own));
    lemma_runs_grow(p, s, e, style, markers, own, (i + 1) as nat, n);
    let all = seg_runs(p, s, e, style, markers, own, n);
    let seg = segment(p, s, e, style, markers, own);
    assert(all[here.len() - 1] == here.last());
    assert(seg[here.len() - 1] == all[here.len() - 1]);
    if i == 0 && s < o.at {
        assert(seg_runs(p, s, e, style, markers, own, 0).len() == 0);
        assert(here[0] == text_run(p.text@, s, o.at, style)[0]);
        assert(all[0] == here[0]);
        assert(seg[0] == all[0]);
    }
}

proof fn lemma_runs_grow(
    p: Paragraph,
    s: u32,
    e: u32,
    style: SpanStyle,
    markers: Seq<NoteMarker>,
    own: Seq<char>,
    m: nat,
    n: nat,
)
    requires
        m <= n,
    ensures
        seg_runs(p, s, e, style, markers, own, m).len() <= seg_runs(
            p,
            s,
            e,
            style,
            markers,
            own,
            n,
        ).len(),
        forall|k: int|
            0 <= k < seg_runs(p, s, e, style, markers, own, m).len() ==> #[trigger] seg_runs(
                p,
                s,
                e,
                style,
                markers,
                own,
                n,
            )[k] == seg_runs(p, s, e, style, markers, own, m)[k],
    decreases n,
{
    if m < n {
        lemma_runs_grow(p, s, e, style, markers, own, m, (n - 1) as nat);
    }
}

/// Every paragraph of a cell is mirrored in the cell, with its runs and the
/// direction that it reads in; a table in it is not.
pub proof fn law_cell_paragraphs_are_mirrored(
    blocks: Seq<Block>,
    cx: Context,
    n: nat,
    placed: Seq<u32>,
    i: int,
    p: Paragraph,
)
    requires
        0 <= i < n <= blocks.len(),
        blocks[i] == Block::Paragraph(p),
    ensures
        cell_nodes(blocks, cx, n, placed).0.contains(
            (NodeTree::Paragraph {
                direction: cx.dir,
                resolved: resolved_direction(p, cx.dir),
                runs: para_runs(p, cx.markers, cx.own),
            }),
        ),
        blocks[n - 1] is Table ==> cell_nodes(blocks, cx, n, placed) == cell_nodes(
            blocks,
            cx,
            (n - 1) as nat,
            placed,
        ),
    decreases n,
{
    let (head, pl) = cell_nodes(blocks, cx, (n - 1) as nat, placed);
    let out = cell_nodes(blocks, cx, n, placed).0;
    let node = NodeTree::Paragraph {
        direction: cx.dir,
        resolved: resolved_direction(p, cx.dir),
        runs: para_runs(p, cx.markers, cx.own),
    };
    if i < n - 1 {
        law_cell_paragraphs_are_mirrored(blocks, cx, (n - 1) as nat, placed, i, p);
        let k = choose|k: int| 0 <= k < head.len() && head[k] == node;
        assert(out[k] == head[k]);
    } else {
        let more = para_nodes(p, cx, pl).0;
        assert(more[0] == para_node(p, cx));
        assert(out[head.len() as int] == more[0]);
    }
}

/// The region of a note says which kind it is, its number and its marker, and
/// is named after both.
pub proof fn law_region_of_a_note(story: NoteStory, cx: Context)
    ensures
        note_region(story, cx) matches NodeTree::Note { kind, id, note_id, marker, .. } && {
            &&& note_id == story.id
            &&& marker == marker_of(cx.markers, story.kind, story.id)
            &&& story.kind is Footnote ==> kind is Footnote && id == "footnote-"@ + decimal(
                story.id as nat,
            )
            &&& story.kind is Endnote ==> kind is Endnote && id == "endnote-"@ + decimal(
                story.id as nat,
            )
        },
{
}

} // verus!
