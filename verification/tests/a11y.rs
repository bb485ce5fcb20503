//! The accessibility mirror and the patches that keep it in step.

use wordcore::a11y::{
    a11y_runs, note_region_id, resolve_base_direction, NoteMarker, NoteStory, StoryPart,
};
use wordcore::a11y_diff::{build_a11y_delta, build_a11y_nodes, diff_a11y, order_parts};
use wordcore::address::text_box_id;
use wordcore::common::{BlockPath, Direction, PathStep, UnderlineStyle};
use wordcore::document::{
    Block, CellProps, InlineKind, InlineObject, NoteKind, Paragraph, SpanStyle, StyleRun, Table,
    TableCell, TableRow, VMergeRole,
};
use wordcore::event::{
    A11yNode, A11yNote, A11yNoteKind, A11yObjectKind, A11yObjectRef, A11yParagraph, A11yPatch,
    A11yRun, A11yTree,
};

fn a11y_para(text: &str) -> A11yNode {
    A11yNode::Paragraph(A11yParagraph {
        direction: Direction::Ltr,
        resolved_direction: Direction::Ltr,
        runs: vec![A11yRun {
            text: text.to_string(),
            bold: false,
            italic: false,
            underline: false,
            note_ref: None,
            object: None,
        }],
    })
}

fn paras(texts: &[&str]) -> Vec<A11yNode> {
    texts.iter().map(|t| a11y_para(t)).collect()
}

#[test]
fn diff_a11y_identical_is_empty() {
    let tree = paras(&["a", "b"]);
    assert_eq!(diff_a11y(&tree, &tree), vec![]);
}

#[test]
fn diff_a11y_typing_emits_one_update() {
    let prev = paras(&["a", "b", "c"]);
    let next = paras(&["a", "bX", "c"]);
    assert_eq!(
        diff_a11y(&prev, &next),
        vec![A11yPatch::Update { index: 1, node: a11y_para("bX") }],
    );
}

#[test]
fn diff_a11y_split_emits_update_then_insert() {
    let prev = paras(&["a", "bc", "d"]);
    let next = paras(&["a", "b", "c", "d"]);
    assert_eq!(
        diff_a11y(&prev, &next),
        vec![
            A11yPatch::Update { index: 1, node: a11y_para("b") },
            A11yPatch::Insert { index: 2, node: a11y_para("c") },
        ],
    );
}

#[test]
fn diff_a11y_merge_emits_update_then_remove() {
    let prev = paras(&["a", "b", "c", "d"]);
    let next = paras(&["a", "bc", "d"]);
    assert_eq!(
        diff_a11y(&prev, &next),
        vec![
            A11yPatch::Update { index: 1, node: a11y_para("bc") },
            A11yPatch::Remove { index: 2 },
        ],
    );
}

#[test]
fn diff_a11y_append_emits_insert_only() {
    let prev = paras(&["a"]);
    let next = paras(&["a", "b"]);
    assert_eq!(
        diff_a11y(&prev, &next),
        vec![A11yPatch::Insert { index: 1, node: a11y_para("b") }],
    );
}

fn replay(held: Vec<A11yNode>, patches: Vec<A11yPatch>) -> Vec<A11yNode> {
    let mut tree = held;
    for p in patches {
        match p {
            A11yPatch::Replace { tree: t } => tree = t.nodes,
            A11yPatch::Update { index, node } => tree[index as usize] = node,
            A11yPatch::Insert { index, node } => tree.insert(index as usize, node),
            A11yPatch::Remove { index } => {
                tree.remove(index as usize);
            }
        }
    }
    tree
}

#[test]
fn replaying_a_diff_gives_the_new_tree() {
    let trees: Vec<Vec<&str>> = vec![
        vec![],
        vec!["a"],
        vec!["a", "b", "c", "d"],
        vec!["b", "c"],
        vec!["a", "x", "y", "d"],
        vec!["a", "a", "a"],
        vec!["a", "a"],
    ];
    for x in &trees {
        for y in &trees {
            let patches = diff_a11y(&paras(x), &paras(y));
            assert_eq!(patches.is_empty(), x == y);
            assert_eq!(replay(paras(x), patches), paras(y), "{x:?} to {y:?}");
        }
    }
}

#[test]
fn a_delta_is_a_whole_tree_first_and_patches_after() {
    let mut sent: Option<Vec<A11yNode>> = None;
    let first = build_a11y_delta(&mut sent, paras(&["a", "b"]));
    assert_eq!(
        first,
        vec![A11yPatch::Replace { tree: A11yTree { nodes: paras(&["a", "b"]) } }]
    );
    let held = replay(Vec::new(), first);
    let second = build_a11y_delta(&mut sent, paras(&["a", "c"]));
    assert_eq!(second, vec![A11yPatch::Update { index: 1, node: a11y_para("c") }]);
    assert_eq!(replay(held, second), paras(&["a", "c"]));
    assert!(build_a11y_delta(&mut sent, paras(&["a", "c"])).is_empty());
}

const SENTINEL: &str = "\u{FFFC}";

const ARABIC: &str = "مرحبا بالعالم";

fn para(text: &str, auto: Option<Direction>, objects: Vec<InlineObject>) -> Paragraph {
    let mut p = Paragraph::plain(text.to_string(), auto);
    p.inline_objects = objects;
    p
}

fn note_ref(at: u32, kind: NoteKind, id: u32) -> InlineObject {
    InlineObject { at, kind: InlineKind::NoteRef { kind, id } }
}

fn story(kind: NoteKind, id: u32, text: &str, auto: Option<Direction>) -> NoteStory {
    let own = InlineObject { at: 0, kind: InlineKind::NoteSelfRef { kind } };
    let body = format!("{SENTINEL} {text}");
    NoteStory { kind, id, blocks: vec![Block::Paragraph(para(&body, auto, vec![own]))] }
}

fn marker(kind: NoteKind, id: u32, text: &str) -> NoteMarker {
    NoteMarker { kind, id, text: text.to_string() }
}

fn run_texts(p: &A11yNode) -> Vec<String> {
    let A11yNode::Paragraph(p) = p else {
        panic!("expected a paragraph, got {p:?}");
    };
    p.runs.iter().map(|r| r.text.clone()).collect()
}

fn note_of(n: &A11yNode) -> &A11yNote {
    let A11yNode::Note(note) = n else {
        panic!("expected a note region, got {n:?}");
    };
    note
}

fn alpha() -> Paragraph {
    para(
        "Alpha\u{FFFC} body text",
        Some(Direction::Ltr),
        vec![note_ref(5, NoteKind::Footnote, 1)],
    )
}

#[test]
fn a_footnote_region_follows_its_reference_paragraph() {
    let body = vec![
        Block::Paragraph(alpha()),
        Block::Paragraph(para("Second paragraph", Some(Direction::Ltr), Vec::new())),
    ];
    let nodes = build_a11y_nodes(
        &body,
        &Vec::new(),
        Direction::Ltr,
        &vec![marker(NoteKind::Footnote, 1, "1")],
        &vec![story(NoteKind::Footnote, 1, "note text", Some(Direction::Ltr))],
    );
    assert_eq!(nodes.len(), 3, "{nodes:#?}");
    assert_eq!(run_texts(&nodes[0]), vec!["Alpha", "1", " body text"]);
    let A11yNode::Paragraph(anchor) = &nodes[0] else {
        unreachable!()
    };
    let noteref = anchor.runs[1].note_ref.as_ref().expect("noteref run");
    assert_eq!(noteref.kind, A11yNoteKind::Footnote);
    assert_eq!(noteref.id, "footnote-1");
    assert!(anchor.runs[0].note_ref.is_none() && anchor.runs[2].note_ref.is_none());

    let note = note_of(&nodes[1]);
    assert_eq!(note.note_kind, A11yNoteKind::Footnote);
    assert_eq!(note.id, "footnote-1");
    assert_eq!(note.note_id, 1);
    assert_eq!(note.marker, "1");
    assert_eq!(note.nodes.len(), 1);
    assert_eq!(run_texts(&note.nodes[0]), vec!["1", " note text"]);
    let A11yNode::Paragraph(np) = &note.nodes[0] else {
        unreachable!()
    };
    assert!(np.runs.iter().all(|r| r.note_ref.is_none()));

    assert_eq!(run_texts(&nodes[2]), vec!["Second paragraph"]);
}

#[test]
fn endnotes_collect_at_the_end_of_the_tree_in_reference_order() {
    let body = vec![
        Block::Paragraph(para(
            "First\u{FFFC} para",
            Some(Direction::Ltr),
            vec![note_ref(5, NoteKind::Endnote, 2)],
        )),
        Block::Paragraph(para(
            "\u{FFFC}Second\u{FFFC} para",
            Some(Direction::Ltr),
            vec![note_ref(0, NoteKind::Footnote, 1), note_ref(9, NoteKind::Endnote, 1)],
        )),
    ];
    let markers = vec![
        marker(NoteKind::Endnote, 2, "1"),
        marker(NoteKind::Endnote, 1, "2"),
        marker(NoteKind::Footnote, 1, "1"),
    ];
    let stories = vec![
        story(NoteKind::Endnote, 1, "later note", Some(Direction::Ltr)),
        story(NoteKind::Endnote, 2, "earlier note", Some(Direction::Ltr)),
        story(NoteKind::Footnote, 1, "a footnote", Some(Direction::Ltr)),
    ];
    let nodes = build_a11y_nodes(&body, &Vec::new(), Direction::Ltr, &markers, &stories);
    let kinds: Vec<&str> = nodes
        .iter()
        .map(|n| match n {
            A11yNode::Paragraph(_) => "p",
            A11yNode::Note(n) if n.note_kind == A11yNoteKind::Footnote => "fn",
            A11yNode::Note(_) => "en",
            _ => "other",
        })
        .collect();
    assert_eq!(kinds, vec!["p", "p", "fn", "en", "en"], "{nodes:#?}");
    let first = note_of(&nodes[3]);
    let second = note_of(&nodes[4]);
    assert_eq!((first.note_id, second.note_id), (2, 1));
    assert_eq!((first.marker.as_str(), second.marker.as_str()), ("1", "2"));
    assert!(run_texts(&first.nodes[0]).concat().contains("earlier note"));
    let A11yNode::Paragraph(p0) = &nodes[0] else {
        unreachable!()
    };
    let r = p0.runs.iter().find_map(|r| r.note_ref.as_ref()).expect("endnote ref");
    assert_eq!((r.kind, r.id.as_str()), (A11yNoteKind::Endnote, "endnote-2"));
}

#[test]
fn a_footnote_edit_is_one_region_update() {
    let body = vec![
        Block::Paragraph(alpha()),
        Block::Paragraph(para(
            "\u{FFFC}Second paragraph",
            Some(Direction::Ltr),
            vec![note_ref(0, NoteKind::Footnote, 2)],
        )),
    ];
    let markers =
        vec![marker(NoteKind::Footnote, 1, "1"), marker(NoteKind::Footnote, 2, "2")];
    let mut sent: Option<Vec<A11yNode>> = None;
    let with = |second: &str| {
        build_a11y_nodes(
            &body,
            &Vec::new(),
            Direction::Ltr,
            &markers,
            &vec![
                story(NoteKind::Footnote, 1, "note", None),
                story(NoteKind::Footnote, 2, second, None),
            ],
        )
    };
    let _ = build_a11y_delta(&mut sent, with(""));
    let patches = build_a11y_delta(&mut sent, with("x"));
    let [A11yPatch::Update { index, node }] = patches.as_slice() else {
        panic!("{patches:#?}");
    };
    let note = note_of(node);
    assert_eq!(note.id, "footnote-2");
    assert_eq!(*index, 3, "right after the second paragraph");
    assert!(run_texts(&note.nodes[0]).concat().ends_with('x'));
}

#[test]
fn an_endnote_edit_is_one_region_update() {
    let body = vec![Block::Paragraph(para(
        "\u{FFFC}Alpha\u{FFFC} body text",
        Some(Direction::Ltr),
        vec![note_ref(0, NoteKind::Endnote, 2), note_ref(8, NoteKind::Endnote, 1)],
    ))];
    let markers = vec![marker(NoteKind::Endnote, 2, "1"), marker(NoteKind::Endnote, 1, "2")];
    let with = |first: &str| {
        build_a11y_nodes(
            &body,
            &Vec::new(),
            Direction::Ltr,
            &markers,
            &vec![
                story(NoteKind::Endnote, 1, "end", None),
                story(NoteKind::Endnote, 2, first, None),
            ],
        )
    };
    let len = with("").len();
    let mut sent: Option<Vec<A11yNode>> = None;
    let _ = build_a11y_delta(&mut sent, with(""));
    let patches = build_a11y_delta(&mut sent, with("y"));
    let [A11yPatch::Update { index, node }] = patches.as_slice() else {
        panic!("{patches:#?}");
    };
    assert_eq!(note_of(node).id, "endnote-2");
    assert_eq!(*index as usize, len - 2, "the first endnote in the section");
}

#[test]
fn note_paragraphs_resolve_their_own_direction() {
    let body = vec![Block::Paragraph(para(
        "Latin\u{FFFC} anchor",
        Some(Direction::Ltr),
        vec![note_ref(5, NoteKind::Footnote, 1)],
    ))];
    let nodes = build_a11y_nodes(
        &body,
        &Vec::new(),
        Direction::Ltr,
        &vec![marker(NoteKind::Footnote, 1, "1")],
        &vec![story(NoteKind::Footnote, 1, ARABIC, Some(Direction::Rtl))],
    );
    let A11yNode::Paragraph(anchor) = &nodes[0] else {
        panic!("{nodes:?}");
    };
    assert_eq!(anchor.resolved_direction, Direction::Ltr);
    let note = note_of(&nodes[1]);
    let A11yNode::Paragraph(np) = &note.nodes[0] else {
        panic!("{note:?}");
    };
    assert_eq!(np.resolved_direction, Direction::Rtl);
}

fn cell(blocks: Vec<Block>, v_merge: VMergeRole, grid_span: u16) -> TableCell {
    TableCell {
        blocks,
        props: CellProps { v_merge, grid_span, shading: None, borders: None, width_twips: None },
    }
}

#[test]
fn a_footnote_in_a_table_cell_follows_the_cell_paragraph() {
    let p = para("Alpha\u{FFFC}", Some(Direction::Ltr), vec![note_ref(5, NoteKind::Footnote, 1)]);
    let body = vec![Block::Table(Table {
        rows: vec![TableRow {
            cells: vec![cell(vec![Block::Paragraph(p)], VMergeRole::Alone, 1)],
        }],
        bidi_visual: false,
    })];
    let nodes = build_a11y_nodes(
        &body,
        &Vec::new(),
        Direction::Ltr,
        &vec![marker(NoteKind::Footnote, 1, "1")],
        &vec![story(NoteKind::Footnote, 1, "cell note", None)],
    );
    assert_eq!(nodes.len(), 1, "no top-level footnote region: {nodes:#?}");
    let A11yNode::Table(t) = &nodes[0] else {
        panic!("{nodes:?}");
    };
    let cell_nodes = &t.rows[0].cells[0].nodes;
    assert_eq!(cell_nodes.len(), 2, "{cell_nodes:#?}");
    assert_eq!(note_of(&cell_nodes[1]).id, "footnote-1");
}

fn doc_with_object(text: &str, at: u32, kind: InlineKind) -> Vec<A11yNode> {
    let body = vec![Block::Paragraph(para(text, None, vec![InlineObject { at, kind }]))];
    build_a11y_nodes(&body, &Vec::new(), Direction::Ltr, &Vec::new(), &Vec::new())
}

fn object_of(node: &A11yNode) -> &A11yObjectRef {
    let A11yNode::Paragraph(p) = node else {
        panic!("expected a paragraph, got {node:?}");
    };
    p.runs.iter().find_map(|r| r.object.as_ref()).expect("object run")
}

#[test]
fn inline_image_becomes_an_object_run_with_its_media_key_and_alt() {
    let nodes = doc_with_object(
        "a\u{FFFC}b",
        1,
        InlineKind::Image {
            rel_id: "rId9".to_string(),
            media_key: Some("word/media/image7.png".to_string()),
            alt: Some("A flow diagram".to_string()),
            width_emu: 914_400,
            height_emu: 914_400,
        },
    );
    assert_eq!(nodes.len(), 1, "{nodes:#?}");
    assert_eq!(run_texts(&nodes[0]), vec!["a", "", "b"]);
    for run in run_texts(&nodes[0]) {
        assert!(!run.contains('\u{FFFC}'), "no raw sentinel: {run:?}");
    }
    let obj = object_of(&nodes[0]);
    assert_eq!(obj.kind, A11yObjectKind::Image);
    assert_eq!(obj.id, "word/media/image7.png");
    assert_eq!(obj.alt.as_deref(), Some("A flow diagram"));
}

#[test]
fn inline_image_without_media_key_or_label_falls_back_cleanly() {
    let nodes = doc_with_object(
        "\u{FFFC}",
        0,
        InlineKind::Image {
            rel_id: "rId3".to_string(),
            media_key: None,
            alt: None,
            width_emu: 100,
            height_emu: 100,
        },
    );
    assert_eq!(run_texts(&nodes[0]), vec![""]);
    let obj = object_of(&nodes[0]);
    assert_eq!(obj.kind, A11yObjectKind::Image);
    assert_eq!(obj.id, "rId3", "no media_key => rel_id doubles as the key");
    assert_eq!(obj.alt, None);
}

#[test]
fn inline_text_box_object_id_matches_its_region_id() {
    let nodes = doc_with_object(
        "c\u{FFFC}d",
        1,
        InlineKind::TextBox {
            id: "box-2".to_string(),
            name: Some("Callout".to_string()),
            alt: Some("Side note".to_string()),
            width_emu: 914_400,
            height_emu: 457_200,
            blocks: Vec::new(),
        },
    );
    assert_eq!(nodes.len(), 2, "the anchor paragraph + the box region: {nodes:#?}");
    assert_eq!(run_texts(&nodes[0]), vec!["c", "", "d"]);
    let obj = object_of(&nodes[0]);
    assert_eq!(obj.kind, A11yObjectKind::TextBox);
    assert_eq!(obj.alt.as_deref(), Some("Side note"));
    let A11yNode::TextBox(region) = &nodes[1] else {
        panic!("{:?}", nodes[1]);
    };
    assert_eq!(obj.id, region.id, "object ref addresses the SAME region");
}

fn directed(text: &str, auto: Option<Direction>, explicit: Option<Direction>) -> Block {
    let mut p = Paragraph::plain(text.to_string(), auto);
    p.props.direction = explicit;
    Block::Paragraph(p)
}

fn mixed_doc() -> Vec<Block> {
    vec![
        directed("Hello world", Some(Direction::Ltr), None),
        directed(ARABIC, Some(Direction::Rtl), None),
        directed("Explicit right to left", Some(Direction::Ltr), Some(Direction::Rtl)),
        directed(ARABIC, Some(Direction::Rtl), Some(Direction::Ltr)),
        directed("12345", None, None),
    ]
}

fn nodes_of(body: &Vec<Block>, parts: &Vec<StoryPart>, base: Direction) -> Vec<A11yNode> {
    build_a11y_nodes(body, parts, base, &Vec::new(), &Vec::new())
}

fn paragraph_dirs(nodes: &[A11yNode]) -> Vec<(Direction, Direction)> {
    nodes
        .iter()
        .filter_map(|n| match n {
            A11yNode::Paragraph(p) => Some((p.direction, p.resolved_direction)),
            _ => None,
        })
        .collect()
}

#[test]
fn each_paragraph_carries_its_resolved_direction_in_an_ltr_document() {
    let dirs = paragraph_dirs(&nodes_of(&mixed_doc(), &Vec::new(), Direction::Ltr));
    let resolved: Vec<Direction> = dirs.iter().map(|d| d.1).collect();
    assert_eq!(
        resolved,
        vec![
            Direction::Ltr,
            Direction::Rtl,
            Direction::Rtl,
            Direction::Ltr,
            Direction::Ltr,
        ]
    );
    assert!(dirs.iter().all(|d| d.0 == Direction::Ltr));
}

#[test]
fn neutral_paragraphs_follow_an_rtl_document_base() {
    let resolved: Vec<Direction> =
        paragraph_dirs(&nodes_of(&mixed_doc(), &Vec::new(), Direction::Rtl))
            .iter()
            .map(|d| d.1)
            .collect();
    assert_eq!(
        resolved,
        vec![
            Direction::Ltr,
            Direction::Rtl,
            Direction::Rtl,
            Direction::Ltr,
            Direction::Rtl,
        ]
    );
}

#[test]
fn a11y_direction_matches_the_layout_resolution() {
    let body = mixed_doc();
    let nodes = nodes_of(&body, &Vec::new(), Direction::Ltr);
    for (block, node) in body.iter().zip(nodes.iter()) {
        let (Block::Paragraph(p), A11yNode::Paragraph(a)) = (block, node) else {
            panic!("fixture is paragraphs only");
        };
        let layout = resolve_base_direction(p, Direction::Ltr);
        assert_eq!(a.resolved_direction, layout, "{:?}", p.text);
    }
}

#[test]
fn a_direction_flip_patches_only_that_paragraph() {
    let mut sent: Option<Vec<A11yNode>> = None;
    let mut body = mixed_doc();
    let _ = build_a11y_delta(&mut sent, nodes_of(&body, &Vec::new(), Direction::Ltr));
    body[0] = directed("Hello world", Some(Direction::Ltr), Some(Direction::Rtl));
    let patches = build_a11y_delta(&mut sent, nodes_of(&body, &Vec::new(), Direction::Ltr));
    let [A11yPatch::Update { index: 0, node }] = patches.as_slice() else {
        panic!("{patches:?}");
    };
    let A11yNode::Paragraph(p) = node else {
        panic!("{node:?}");
    };
    assert_eq!(p.resolved_direction, Direction::Rtl);
}

#[test]
fn region_paragraphs_resolve_independently() {
    let text_box = InlineObject {
        at: 5,
        kind: InlineKind::TextBox {
            id: "box-1".to_string(),
            name: None,
            alt: None,
            width_emu: 914_400,
            height_emu: 457_200,
            blocks: vec![directed(ARABIC, Some(Direction::Rtl), None)],
        },
    };
    let body = vec![Block::Paragraph(para(
        "Latin\u{FFFC} anchor",
        Some(Direction::Ltr),
        vec![text_box],
    ))];
    let parts = vec![StoryPart {
        header: true,
        rid: "rId1".to_string(),
        blocks: vec![directed(ARABIC, Some(Direction::Rtl), None)],
    }];
    let nodes = nodes_of(&body, &parts, Direction::Ltr);
    let text_box = nodes
        .iter()
        .find_map(|n| match n {
            A11yNode::TextBox(b) => Some(b),
            _ => None,
        })
        .expect("text box region");
    assert_eq!(
        paragraph_dirs(&text_box.nodes).iter().map(|d| d.1).collect::<Vec<_>>(),
        vec![Direction::Rtl]
    );
    let header = nodes
        .iter()
        .find_map(|n| match n {
            A11yNode::Story(s) if s.header => Some(s),
            _ => None,
        })
        .expect("header region");
    assert!(paragraph_dirs(&header.nodes).iter().any(|d| d.1 == Direction::Rtl), "{header:?}");
    let anchor = nodes
        .iter()
        .find_map(|n| match n {
            A11yNode::Paragraph(p) => Some(p),
            _ => None,
        })
        .expect("anchor");
    assert_eq!(anchor.resolved_direction, Direction::Ltr);
}

#[test]
fn merged_cells_carry_their_spans() {
    let text = |t: &str| vec![Block::Paragraph(Paragraph::plain(t.to_string(), None))];
    let body = vec![Block::Table(Table {
        rows: vec![
            TableRow {
                cells: vec![
                    cell(text("tall"), VMergeRole::Restart, 1),
                    cell(text("wide"), VMergeRole::Alone, 2),
                ],
            },
            TableRow {
                cells: vec![
                    cell(text(""), VMergeRole::Continue, 1),
                    cell(text("x"), VMergeRole::Alone, 1),
                    cell(text("y"), VMergeRole::Alone, 1),
                ],
            },
        ],
        bidi_visual: false,
    })];
    let nodes = nodes_of(&body, &Vec::new(), Direction::Ltr);
    let A11yNode::Table(t) = &nodes[0] else {
        panic!("{nodes:?}");
    };
    assert_eq!(t.block_index, 0);
    let spans: Vec<Vec<(u32, u32, u32, u32)>> = t
        .rows
        .iter()
        .map(|r| r.cells.iter().map(|c| (c.row, c.col, c.row_span, c.col_span)).collect())
        .collect();
    assert_eq!(spans, vec![vec![(0, 0, 2, 1), (0, 1, 1, 2)], vec![(1, 1, 1, 1), (1, 2, 1, 1)]]);
}

#[test]
fn runs_follow_the_styles_and_read_the_whole_text() {
    let mut p = Paragraph::plain("plain bold under".to_string(), None);
    let mut bold = SpanStyle::default();
    bold.bold = Some(true);
    let mut under = SpanStyle::default();
    under.underline = Some(UnderlineStyle::Wavy);
    p.spans.push(StyleRun { start: 6, end: 10, style: bold });
    p.spans.push(StyleRun { start: 11, end: 16, style: under });
    let runs = a11y_runs(&p, &Vec::new(), &String::new());
    let got: Vec<(&str, bool, bool)> =
        runs.iter().map(|r| (r.text.as_str(), r.bold, r.underline)).collect();
    assert_eq!(
        got,
        vec![
            ("plain ", false, false),
            ("bold", true, false),
            (" ", false, false),
            ("under", false, true),
        ]
    );
    assert_eq!(runs.iter().map(|r| r.text.as_str()).collect::<String>(), p.text);
    assert_eq!(note_region_id(NoteKind::Endnote, 42), "endnote-42");
}

fn gather(nodes: &[A11yNode], refs: &mut Vec<String>, regions: &mut Vec<String>) {
    for n in nodes {
        match n {
            A11yNode::Paragraph(p) => {
                for r in &p.runs {
                    if let Some(nr) = &r.note_ref {
                        refs.push(format!("{}={}", nr.id, r.text));
                    }
                }
            }
            A11yNode::Table(t) => {
                for row in &t.rows {
                    for c in &row.cells {
                        gather(&c.nodes, refs, regions);
                    }
                }
            }
            A11yNode::TextBox(b) => gather(&b.nodes, refs, regions),
            A11yNode::Story(s) => gather(&s.nodes, refs, regions),
            A11yNode::Note(note) => regions.push(note.id.clone()),
        }
    }
}

#[test]
fn cell_box_and_header_references_are_mirrored_to_accessibility() {
    let footnote = |text: &str, at: u32, id: u32| {
        Block::Paragraph(para(
            text,
            Some(Direction::Ltr),
            vec![note_ref(at, NoteKind::Footnote, id)],
        ))
    };
    let text_box = InlineObject {
        at: 5,
        kind: InlineKind::TextBox {
            id: "box-1".to_string(),
            name: None,
            alt: None,
            width_emu: 2 * 914_400,
            height_emu: 914_400,
            blocks: vec![footnote("Box\u{FFFC} text", 3, 3)],
        },
    };
    let body = vec![
        footnote("Body\u{FFFC} text.\u{000C}", 4, 1),
        Block::Table(Table {
            rows: vec![TableRow {
                cells: vec![cell(
                    vec![footnote("Cell\u{FFFC} text", 4, 2)],
                    VMergeRole::Alone,
                    1,
                )],
            }],
            bidi_visual: false,
        }),
        Block::Paragraph(para("Host \u{FFFC} after", Some(Direction::Ltr), vec![text_box])),
    ];
    let header = Block::Paragraph(para(
        "Header\u{FFFC} and\u{FFFC}",
        Some(Direction::Ltr),
        vec![note_ref(6, NoteKind::Footnote, 7), note_ref(13, NoteKind::Endnote, 9)],
    ));
    let parts =
        vec![StoryPart { header: true, rid: "rIdH".to_string(), blocks: vec![header] }];
    let markers = vec![
        marker(NoteKind::Footnote, 7, "1"),
        marker(NoteKind::Footnote, 1, "2"),
        marker(NoteKind::Footnote, 2, "3"),
        marker(NoteKind::Footnote, 3, "4"),
        marker(NoteKind::Endnote, 9, "1"),
    ];
    let stories = vec![
        story(NoteKind::Footnote, 1, "Body note.", None),
        story(NoteKind::Footnote, 2, "Cell note.", None),
        story(NoteKind::Footnote, 3, "Box note.", None),
        story(NoteKind::Footnote, 7, "x", None),
        story(NoteKind::Footnote, 8, "x", None),
        story(NoteKind::Endnote, 9, "Header endnote.", None),
    ];
    let nodes = build_a11y_nodes(&body, &parts, Direction::Ltr, &markers, &stories);
    let mut refs: Vec<String> = Vec::new();
    let mut regions: Vec<String> = Vec::new();
    gather(&nodes, &mut refs, &mut regions);
    assert_eq!(
        refs,
        vec!["footnote-1=2", "footnote-2=3", "footnote-3=4", "footnote-7=1", "endnote-9=1"],
        "{nodes:#?}"
    );
    for id in ["footnote-1", "footnote-2", "footnote-3", "footnote-7", "endnote-9"] {
        assert!(regions.iter().any(|r| r == id), "{id} region: {regions:?}");
    }
}

#[test]
fn text_boxes_are_named_by_their_place() {
    let body = text_box_id(None, &BlockPath::top(0), 5);
    assert_eq!(body, "0@5");
    let cell = BlockPath {
        steps: vec![
            PathStep::Block { idx: 2 },
            PathStep::Cell { row: 1, col: 0 },
            PathStep::Block { idx: 0 },
        ],
    };
    assert_eq!(text_box_id(None, &cell, 3), "2.1x0.0@3");
    assert_eq!(text_box_id(Some(&body), &BlockPath::top(0), 12), "0@5/0@12");
}

#[test]
fn headers_come_before_footers_by_name() {
    let part = |header: bool, rid: &str| StoryPart {
        header,
        rid: rid.to_string(),
        blocks: Vec::new(),
    };
    let parts = vec![
        part(false, "rId1"),
        part(true, "rId20"),
        part(true, "rId3"),
        part(true, "rId2"),
        part(false, "rId10"),
    ];
    let order: Vec<(bool, String)> =
        order_parts(parts).into_iter().map(|p| (p.header, p.rid)).collect();
    let want = [(true, "rId2"), (true, "rId20"), (true, "rId3"), (false, "rId1"), (false, "rId10")];
    assert_eq!(order, want.map(|(h, r)| (h, r.to_string())));
}

#[test]
fn a_missed_class_now_yields_a_fine_grained_a11y_update() {
    let mirror_of = |first: &str| {
        let body = [first, "second"]
            .map(|t| Block::Paragraph(Paragraph::plain(t.to_string(), Some(Direction::Ltr))))
            .into();
        build_a11y_nodes(&body, &Vec::new(), Direction::Ltr, &Vec::new(), &Vec::new())
    };
    let mut mirror = None;
    let whole = build_a11y_delta(&mut mirror, mirror_of("hello world"));
    assert!(matches!(whole.as_slice(), [A11yPatch::Replace { .. }]));
    let patches = build_a11y_delta(&mut mirror, mirror_of("1hello world"));
    assert!(
        matches!(patches.as_slice(), [A11yPatch::Update { index: 0, .. }]),
        "{patches:?}"
    );
}
