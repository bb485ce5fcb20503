//! Line geometry: caret slots, hit-testing, caret rectangles and selection
//! rectangles. Coordinates are document-absolute layout units.

use crate::common::{
    is_prefix, law_ancestor_first, law_order_follows_the_indices, path_order,
    top_pos, BlockPath, LogicalPos, PathStep, Pos, Rect,
};
use crate::selection::{cell_in, cell_of};
use vstd::prelude::*;

verus! {

/// A caret position on a line: an absolute x and the byte offset that a caret
/// there stands at.
#[derive(Clone, Copy, Debug, PartialEq, Eq, Structural)]
pub struct CaretSlot {
    pub x: i32,
    pub byte: u32,
}

/// Which side of a direction seam the caret is drawn on when its byte has two
/// slots.
#[derive(Clone, Copy, Debug, PartialEq, Eq, Structural)]
pub enum CaretAffinity {
    LeadingX,
    TrailingX,
}

impl Default for CaretAffinity {
    fn default() -> (r: Self)
        ensures
            r == CaretAffinity::LeadingX,
    {
        CaretAffinity::LeadingX
    }
}

/// One run of a line, all in one direction: its byte span and caret slots.
#[derive(Debug, PartialEq, Eq)]
pub struct RunGeom {
    pub src_start: u32,
    pub src_end: u32,
    pub slots: Vec<CaretSlot>,
}

/// One laid-out line.
#[derive(Debug, PartialEq, Eq)]
pub struct LineGeom {
    /// The paragraph that the line belongs to.
    pub path: BlockPath,
    /// Where the caret stands when the line has no slots.
    pub start_x: i32,
    /// Left edge of the hit target: the page content area, or the cell.
    pub hit_left: i32,
    pub hit_width: i32,
    pub y_top: i32,
    pub height: i32,
    pub start_byte: u32,
    pub end_byte: u32,
    /// Every run's slots, in visual order.
    pub slots: Vec<CaretSlot>,
    pub runs: Vec<RunGeom>,
}

/// Of the indices below `n` that are `ok`, the one that a left-to-right scan
/// ends with when a later index replaces the current one if it `beats` it.
pub open spec fn scan_pick(
    n: nat,
    ok: spec_fn(int) -> bool,
    beats: spec_fn(int, int) -> bool,
) -> Option<int>
    decreases n,
{
    if n == 0 {
        None
    } else {
        let i = n - 1;
        match scan_pick((n - 1) as nat, ok, beats) {
            None => if ok(i) {
                Some(i)
            } else {
                None
            },
            Some(b) => if ok(i) && beats(i, b) {
                Some(i)
            } else {
                Some(b)
            },
        }
    }
}

pub proof fn lemma_scan_range(
    n: nat,
    ok: spec_fn(int) -> bool,
    beats: spec_fn(int, int) -> bool,
)
    ensures
        match scan_pick(n, ok, beats) {
            Some(i) => 0 <= i < n && ok(i),
            None => forall|i: int| 0 <= i < n ==> !(#[trigger] ok(i)),
        },
    decreases n,
{
    if n > 0 {
        lemma_scan_range((n - 1) as nat, ok, beats);
    }
}

/// A scan by a strict comparison of keys ends with the first smallest key.
pub proof fn lemma_scan_first_least(
    n: nat,
    ok: spec_fn(int) -> bool,
    beats: spec_fn(int, int) -> bool,
    key: spec_fn(int) -> int,
)
    requires
        forall|i: int, j: int| #[trigger] beats(i, j) == (key(i) < key(j)),
    ensures
        match scan_pick(n, ok, beats) {
            Some(b) => {
                &&& 0 <= b < n && ok(b)
                &&& forall|i: int| 0 <= i < n && #[trigger] ok(i) ==> key(b) <= key(i)
                &&& forall|i: int| 0 <= i < b && #[trigger] ok(i) ==> key(b) < key(i)
            },
            None => forall|i: int| 0 <= i < n ==> !(#[trigger] ok(i)),
        },
    decreases n,
{
    if n > 0 {
        lemma_scan_first_least((n - 1) as nat, ok, beats, key);
        assert(forall|i: int, j: int| #[trigger] beats(i, j) == (key(i) < key(j)));
    }
}

/// Every index qualifies.
pub open spec fn any_index() -> spec_fn(int) -> bool {
    |i: int| true
}

pub open spec fn gap(a: int, b: int) -> int {
    if a < b {
        b - a
    } else {
        a - b
    }
}

/// The distance from `v` to the band from `lo` to `lo + size`; zero inside.
pub open spec fn band_distance(lo: int, size: int, v: int) -> int {
    if v < lo {
        lo - v
    } else if v > lo + size {
        v - (lo + size)
    } else {
        0
    }
}

pub open spec fn y_dist(line: LineGeom, y: int) -> int {
    band_distance(line.y_top as int, line.height as int, y)
}

pub open spec fn x_dist(line: LineGeom, x: int) -> int {
    band_distance(line.hit_left as int, line.hit_width as int, x)
}

fn band_distance_of(lo: i32, size: i32, v: i32) -> (r: i64)
    ensures
        r == band_distance(lo as int, size as int, v as int),
{
    let lo: i64 = lo as i64;
    let size: i64 = size as i64;
    let v: i64 = v as i64;
    if v < lo {
        lo - v
    } else if v > lo + size {
        v - lo - size
    } else {
        0
    }
}

/// Vertical distance from `y` to a line's band; zero inside it.
pub fn line_y_dist(line: &LineGeom, y: i32) -> (r: i64)
    ensures
        r == y_dist(*line, y as int),
{
    band_distance_of(line.y_top, line.height, y)
}

/// Horizontal distance from `x` to a line's hit target; zero inside it.
pub fn line_x_dist(line: &LineGeom, x: i32) -> (r: i64)
    ensures
        r == x_dist(*line, x as int),
{
    band_distance_of(line.hit_left, line.hit_width, x)
}

/// Line `i` is nearer to the point than line `j`: vertically, and then
/// horizontally.
pub open spec fn nearer_line(geom: Seq<LineGeom>, x: int, y: int) -> spec_fn(int, int) -> bool {
    |i: int, j: int|
        y_dist(geom[i], y) < y_dist(geom[j], y) || (y_dist(geom[i], y) == y_dist(geom[j], y)
            && x_dist(geom[i], x) < x_dist(geom[j], x))
}

/// The index of the line nearest to a point.
pub open spec fn nearest_line_of(geom: Seq<LineGeom>, x: int, y: int) -> Option<int> {
    scan_pick(geom.len(), any_index(), nearer_line(geom, x, y))
}

/// The index of the line nearest to `(x, y)`: the one whose rectangle holds
/// the point, else the closest by `y` and then by `x`; the first of several.
pub fn nearest_line(geom: &Vec<LineGeom>, x: i32, y: i32) -> (r: Option<usize>)
    ensures
        match r {
            Some(i) => i < geom@.len() && nearest_line_of(geom@, x as int, y as int) == Some(i as int),
            None => geom@.len() == 0,
        },
{
    let ghost beats = nearer_line(geom@, x as int, y as int);
    let mut best: Option<usize> = None;
    let mut i: usize = 0;
    while i < geom.len()
        invariant
            i <= geom@.len(),
            beats == nearer_line(geom@, x as int, y as int),
            match best {
                Some(b) => b < i && scan_pick(i as nat, any_index(), beats) == Some(b as int),
                None => i == 0,
            },
        decreases geom.len() - i,
    {
        best = match best {
            None => Some(i),
            Some(b) => {
                let ya: i64 = line_y_dist(&geom[i], y);
                let yb: i64 = line_y_dist(&geom[b], y);
                if ya < yb || (ya == yb && line_x_dist(&geom[i], x) < line_x_dist(&geom[b], x)) {
                    Some(i)
                } else {
                    Some(b)
                }
            },
        };
        i += 1;
    }
    best
}

fn gap_of(a: i32, b: i32) -> (r: i64)
    ensures
        r == gap(a as int, b as int),
{
    if a < b {
        b as i64 - a as i64
    } else {
        a as i64 - b as i64
    }
}

/// Slot `i` is nearer to `x` than slot `j`.
pub open spec fn nearer_slot(slots: Seq<CaretSlot>, x: int) -> spec_fn(int, int) -> bool {
    |i: int, j: int| gap(slots[i].x as int, x) < gap(slots[j].x as int, x)
}

/// The slot nearest to `x`, the first of several.
pub open spec fn slot_near_x(slots: Seq<CaretSlot>, x: int) -> Option<CaretSlot> {
    match scan_pick(slots.len(), any_index(), nearer_slot(slots, x)) {
        Some(i) => Some(slots[i]),
        None => None,
    }
}

/// The slot whose `x` is closest to `target_x`; `None` on a line without
/// slots.
pub fn nearest_slot_by_x(slots: &Vec<CaretSlot>, target_x: i32) -> (r: Option<CaretSlot>)
    ensures
        r == slot_near_x(slots@, target_x as int),
{
    let ghost beats = nearer_slot(slots@, target_x as int);
    let mut best: Option<usize> = None;
    let mut i: usize = 0;
    while i < slots.len()
        invariant
            i <= slots@.len(),
            beats == nearer_slot(slots@, target_x as int),
            match best {
                Some(b) => b < i && scan_pick(i as nat, any_index(), beats) == Some(b as int),
                None => i == 0,
            },
        decreases slots.len() - i,
    {
        best = match best {
            None => Some(i),
            Some(b) => if gap_of(slots[i].x, target_x) < gap_of(slots[b].x, target_x) {
                Some(i)
            } else {
                Some(b)
            },
        };
        i += 1;
    }
    match best {
        Some(b) => Some(slots[b]),
        None => None,
    }
}

/// Where a click at `(x, y)` puts the caret.
pub open spec fn hit_test(geom: Seq<LineGeom>, x: int, y: int) -> Pos {
    match nearest_line_of(geom, x, y) {
        None => top_pos(0, 0),
        Some(i) => Pos {
            path: geom[i].path@,
            offset: match slot_near_x(geom[i].slots@, x) {
                Some(s) => s.byte,
                None => geom[i].start_byte,
            },
        },
    }
}

/// Map a point to a position: the nearest line, then its nearest slot.
pub fn hit_test_geom(geom: &Vec<LineGeom>, x: i32, y: i32) -> (r: LogicalPos)
    ensures
        r@ == hit_test(geom@, x as int, y as int),
{
    match nearest_line(geom, x, y) {
        None => LogicalPos::top(0, 0),
        Some(i) => {
            let line: &LineGeom = &geom[i];
            let offset: u32 = match nearest_slot_by_x(&line.slots, x) {
                Some(s) => s.byte,
                None => line.start_byte,
            };
            LogicalPos { path: line.path.clone(), offset }
        },
    }
}

/// Slot `i` is nearer to `byte` than slot `j`.
pub open spec fn nearer_byte(slots: Seq<CaretSlot>, byte: int) -> spec_fn(int, int) -> bool {
    |i: int, j: int| gap(slots[i].byte as int, byte) < gap(slots[j].byte as int, byte)
}

/// The x of the slot whose byte is nearest to `byte`, or `fallback` when there
/// is no slot.
pub open spec fn x_near_byte(slots: Seq<CaretSlot>, byte: int, fallback: i32) -> i32 {
    match scan_pick(slots.len(), any_index(), nearer_byte(slots, byte)) {
        Some(i) => slots[i].x,
        None => fallback,
    }
}

fn byte_gap(a: u32, b: u32) -> (r: u32)
    ensures
        r == gap(a as int, b as int),
{
    if a < b {
        b - a
    } else {
        a - b
    }
}

/// The x of the slot whose byte is nearest to `byte`, within one slot list.
pub fn nearest_slot_x(slots: &Vec<CaretSlot>, byte: u32, fallback: i32) -> (r: i32)
    ensures
        r == x_near_byte(slots@, byte as int, fallback),
{
    let ghost beats = nearer_byte(slots@, byte as int);
    let mut best: Option<usize> = None;
    let mut i: usize = 0;
    while i < slots.len()
        invariant
            i <= slots@.len(),
            beats == nearer_byte(slots@, byte as int),
            match best {
                Some(b) => b < i && scan_pick(i as nat, any_index(), beats) == Some(b as int),
                None => i == 0,
            },
        decreases slots.len() - i,
    {
        best = match best {
            None => Some(i),
            Some(b) => if byte_gap(slots[i].byte, byte) < byte_gap(slots[b].byte, byte) {
                Some(i)
            } else {
                Some(b)
            },
        };
        i += 1;
    }
    match best {
        Some(b) => slots[b].x,
        None => fallback,
    }
}

/// The x of the slot nearest to `byte` on a line.
pub fn slot_x_for_byte(line: &LineGeom, byte: u32) -> (r: i32)
    ensures
        r == x_near_byte(line.slots@, byte as int, line.start_x),
{
    nearest_slot_x(&line.slots, byte, line.start_x)
}

/// Half a pixel: slots closer together than this stand at the same place.
pub const HALF_PX: i64 = 32;

/// Slot `i` lies to the asked side of `x`, by more than half a pixel.
pub open spec fn beyond(slots: Seq<CaretSlot>, x: int, right: bool) -> spec_fn(int) -> bool {
    |i: int|
        if right {
            slots[i].x > x + HALF_PX
        } else {
            slots[i].x < x - HALF_PX
        }
}

/// Slot `i` is preferred to slot `j` when the caret moves right, and left.
/// Of several slots at one x, the first wins going right and the last going
/// left.
pub open spec fn closer_beyond(slots: Seq<CaretSlot>, right: bool) -> spec_fn(int, int) -> bool {
    |i: int, j: int|
        if right {
            slots[i].x < slots[j].x
        } else {
            slots[i].x >= slots[j].x
        }
}

/// The byte of the slot next to `x` on one side.
pub open spec fn neighbor_byte(slots: Seq<CaretSlot>, x: int, right: bool) -> Option<u32> {
    match scan_pick(slots.len(), beyond(slots, x, right), closer_beyond(slots, right)) {
        Some(i) => Some(slots[i].byte),
        None => None,
    }
}

/// The byte of the visually next slot to the right or left of `current_x`;
/// `None` at the line's visual edge. Direction seams are crossed by x alone.
pub fn neighbor_slot_byte_by_x(slots: &Vec<CaretSlot>, current_x: i32, going_right: bool) -> (r:
    Option<u32>)
    ensures
        r == neighbor_byte(slots@, current_x as int, going_right),
{
    let ghost ok = beyond(slots@, current_x as int, going_right);
    let ghost beats = closer_beyond(slots@, going_right);
    let mut best: Option<usize> = None;
    let mut i: usize = 0;
    while i < slots.len()
        invariant
            i <= slots@.len(),
            ok == beyond(slots@, current_x as int, going_right),
            beats == closer_beyond(slots@, going_right),
            match best {
                Some(b) => b < i && scan_pick(i as nat, ok, beats) == Some(b as int),
                None => scan_pick(i as nat, ok, beats) is None,
            },
        decreases slots.len() - i,
    {
        let x: i64 = slots[i].x as i64;
        let qualifies: bool = if going_right {
            x > current_x as i64 + HALF_PX
        } else {
            x < current_x as i64 - HALF_PX
        };
        assert(qualifies == ok(i as int));
        if qualifies {
            best = match best {
                None => Some(i),
                Some(b) => {
                    let better: bool = if going_right {
                        slots[i].x < slots[b].x
                    } else {
                        slots[i].x >= slots[b].x
                    };
                    if better {
                        Some(i)
                    } else {
                        Some(b)
                    }
                },
            };
        }
        i += 1;
    }
    match best {
        Some(b) => Some(slots[b].byte),
        None => None,
    }
}

/// Slot `i` stands at `byte`.
pub open spec fn at_byte(slots: Seq<CaretSlot>, byte: u32) -> spec_fn(int) -> bool {
    |i: int| slots[i].byte == byte
}

/// Slot `i` is preferred to slot `j` under an affinity: the smallest x for
/// the leading side, the greatest for the trailing side.
pub open spec fn on_side(slots: Seq<CaretSlot>, affinity: CaretAffinity) -> spec_fn(
    int,
    int,
) -> bool {
    |i: int, j: int|
        match affinity {
            CaretAffinity::LeadingX => slots[i].x < slots[j].x,
            CaretAffinity::TrailingX => slots[i].x >= slots[j].x,
        }
}

/// The x at which a caret at `byte` is drawn.
pub open spec fn caret_x(line: LineGeom, byte: u32, affinity: CaretAffinity) -> i32 {
    match scan_pick(
        line.slots@.len(),
        at_byte(line.slots@, byte),
        on_side(line.slots@, affinity),
    ) {
        Some(i) => line.slots@[i].x,
        None => x_near_byte(line.slots@, byte as int, line.start_x),
    }
}

/// The x at which a caret at `byte` is drawn. At a direction seam two slots
/// share the byte and the affinity chooses; without a slot at the byte the
/// nearest one is taken.
pub fn slot_x_for_byte_with_affinity(line: &LineGeom, byte: u32, affinity: CaretAffinity) -> (r:
    i32)
    ensures
        r == caret_x(*line, byte, affinity),
{
    let ghost ok = at_byte(line.slots@, byte);
    let ghost beats = on_side(line.slots@, affinity);
    let mut best: Option<usize> = None;
    let mut i: usize = 0;
    while i < line.slots.len()
        invariant
            i <= line.slots@.len(),
            ok == at_byte(line.slots@, byte),
            beats == on_side(line.slots@, affinity),
            match best {
                Some(b) => b < i && scan_pick(i as nat, ok, beats) == Some(b as int),
                None => scan_pick(i as nat, ok, beats) is None,
            },
        decreases line.slots.len() - i,
    {
        assert((line.slots@[i as int].byte == byte) == ok(i as int));
        if line.slots[i].byte == byte {
            best = match best {
                None => Some(i),
                Some(b) => {
                    let better: bool = match affinity {
                        CaretAffinity::LeadingX => line.slots[i].x < line.slots[b].x,
                        CaretAffinity::TrailingX => line.slots[i].x >= line.slots[b].x,
                    };
                    if better {
                        Some(i)
                    } else {
                        Some(b)
                    }
                },
            };
        }
        i += 1;
    }
    match best {
        Some(b) => line.slots[b].x,
        None => slot_x_for_byte(line, byte),
    }
}

/// A line holds a position: same paragraph, offset between its ends.
pub open spec fn holds(line: LineGeom, pos: Pos) -> bool {
    line.path@ == pos.path && line.start_byte <= pos.offset <= line.end_byte
}

/// Lines that hold a position.
pub open spec fn holding(geom: Seq<LineGeom>, pos: Pos) -> spec_fn(int) -> bool {
    |i: int| holds(geom[i], pos)
}

/// No index replaces an earlier one.
pub open spec fn never() -> spec_fn(int, int) -> bool {
    |i: int, j: int| false
}

/// The index of the first line that holds a position.
pub open spec fn line_of(geom: Seq<LineGeom>, pos: Pos) -> Option<int> {
    scan_pick(geom.len(), holding(geom, pos), never())
}

/// The index of the first line that holds `pos`.
pub fn find_line(geom: &Vec<LineGeom>, pos: &LogicalPos) -> (r: Option<usize>)
    ensures
        match r {
            Some(i) => i < geom@.len() && line_of(geom@, pos@) == Some(i as int),
            None => line_of(geom@, pos@) is None,
        },
{
    let ghost ok = holding(geom@, pos@);
    let mut found: Option<usize> = None;
    let mut i: usize = 0;
    while i < geom.len()
        invariant
            i <= geom@.len(),
            ok == holding(geom@, pos@),
            match found {
                Some(b) => b < i && scan_pick(i as nat, ok, never()) == Some(b as int),
                None => scan_pick(i as nat, ok, never()) is None,
            },
        decreases geom.len() - i,
    {
        if found.is_none() {
            let l: &LineGeom = &geom[i];
            let here: bool = l.path.same(&pos.path) && pos.offset >= l.start_byte && pos.offset
                <= l.end_byte;
            assert(here == ok(i as int));
            if here {
                found = Some(i);
            }
        }
        i += 1;
    }
    found
}

/// The caret rectangle for a position.
pub open spec fn caret_rect(
    geom: Seq<LineGeom>,
    pos: Pos,
    fallback: Rect,
    caret_w: i64,
    affinity: CaretAffinity,
) -> Rect {
    let at = match line_of(geom, pos) {
        Some(i) => Some(i),
        None => if geom.len() > 0 {
            Some(0int)
        } else {
            None
        },
    };
    match at {
        Some(i) => Rect {
            x: caret_x(geom[i], pos.offset, affinity) as i64,
            y: geom[i].y_top as i64,
            w: caret_w,
            h: geom[i].height as i64,
        },
        None => fallback,
    }
}

/// The caret rectangle for `pos`, `caret_w` wide: on the line that holds it,
/// else on the first line, else `fallback`.
pub fn caret_rect_geom(
    geom: &Vec<LineGeom>,
    pos: &LogicalPos,
    fallback: Rect,
    caret_w: i64,
    affinity: CaretAffinity,
) -> (r: Rect)
    ensures
        r == caret_rect(geom@, pos@, fallback, caret_w, affinity),
{
    let at: usize = match find_line(geom, pos) {
        Some(i) => i,
        None => {
            if geom.len() == 0 {
                return fallback;
            }
            0
        },
    };
    let line: &LineGeom = &geom[at];
    Rect {
        x: slot_x_for_byte_with_affinity(line, pos.offset, affinity) as i64,
        y: line.y_top as i64,
        w: caret_w,
        h: line.height as i64,
    }
}

/// The index of the top-level table whose cell a path descends into.
pub open spec fn top_table(path: Seq<PathStep>) -> Option<u32> {
    if path.len() >= 2 && path[1] is Cell {
        match path[0] {
            PathStep::Block { idx } => Some(idx),
            PathStep::Cell { .. } => None,
        }
    } else {
        None
    }
}

/// Whether a selection takes in the whole of top-level table `t`: the table
/// lies strictly between the two ends and does not contain the second.
pub open spec fn bracketed(t: u32, start: Seq<PathStep>, end: Seq<PathStep>) -> bool {
    let table = seq![PathStep::Block { idx: t }];
    path_order(table, start) > 0 && path_order(table, end) < 0 && !is_prefix(table, end)
}

/// Whether a path lies in a table that the selection takes in whole.
pub open spec fn in_bracketed_table(
    path: Seq<PathStep>,
    start: Seq<PathStep>,
    end: Seq<PathStep>,
) -> bool {
    match top_table(path) {
        Some(t) => bracketed(t, start, end),
        None => false,
    }
}

fn is_in_bracketed_table(path: &BlockPath, start: &BlockPath, end: &BlockPath) -> (r: bool)
    ensures
        r == in_bracketed_table(path@, start@, end@),
{
    if path.steps.len() < 2 {
        return false;
    }
    match (path.steps[0], path.steps[1]) {
        (PathStep::Block { idx }, PathStep::Cell { .. }) => {
            let table = BlockPath::top(idx);
            table.after(start) && table.before(end) && !table.is_ancestor_of(end)
        },
        _ => false,
    }
}

pub open spec fn max_u32(a: u32, b: u32) -> u32 {
    if a >= b {
        a
    } else {
        b
    }
}

pub open spec fn min_u32(a: u32, b: u32) -> u32 {
    if a <= b {
        a
    } else {
        b
    }
}

/// The first selected byte of a line.
pub open spec fn line_lo(line: LineGeom, start: Pos) -> u32 {
    if path_order(line.path@, start.path) == 0 {
        max_u32(start.offset, line.start_byte)
    } else {
        line.start_byte
    }
}

/// The end of the selected bytes of a line.
pub open spec fn line_hi(line: LineGeom, end: Pos) -> u32 {
    if path_order(line.path@, end.path) == 0 {
        min_u32(end.offset, line.end_byte)
    } else {
        line.end_byte
    }
}

/// The rectangle of bytes `lo..hi` of one run.
pub open spec fn run_rect(line: LineGeom, run: RunGeom, lo: u32, hi: u32) -> Rect {
    let xa = x_near_byte(run.slots@, lo as int, line.start_x);
    let xb = x_near_byte(run.slots@, hi as int, line.start_x);
    Rect {
        x: if xa <= xb {
            xa as i64
        } else {
            xb as i64
        },
        y: line.y_top as i64,
        w: gap(xa as int, xb as int) as i64,
        h: line.height as i64,
    }
}

/// The rectangles of bytes `lo..hi` over the first `n` runs of a line: one
/// for each run that the range meets.
pub open spec fn run_rects(line: LineGeom, lo: u32, hi: u32, n: nat) -> Seq<Rect>
    decreases n,
{
    if n == 0 {
        Seq::empty()
    } else {
        let run = line.runs@[n - 1];
        let clip_lo = max_u32(lo, run.src_start);
        let clip_hi = min_u32(hi, run.src_end);
        let head = run_rects(line, lo, hi, (n - 1) as nat);
        if clip_lo < clip_hi {
            head.push(run_rect(line, run, clip_lo, clip_hi))
        } else {
            head
        }
    }
}

/// The selection rectangles of one line.
pub open spec fn line_rects(line: LineGeom, start: Pos, end: Pos) -> Seq<Rect> {
    if path_order(line.path@, start.path) < 0 || path_order(line.path@, end.path) > 0 {
        Seq::empty()
    } else if in_bracketed_table(line.path@, start.path, end.path) {
        seq![Rect {
            x: line.hit_left as i64,
            y: line.y_top as i64,
            w: line.hit_width as i64,
            h: line.height as i64,
        }]
    } else if line_lo(line, start) < line_hi(line, end) {
        run_rects(line, line_lo(line, start), line_hi(line, end), line.runs@.len())
    } else {
        Seq::empty()
    }
}

/// The selection rectangles of the first `n` lines.
pub open spec fn selection_rects(geom: Seq<LineGeom>, start: Pos, end: Pos, n: nat) -> Seq<Rect>
    decreases n,
{
    if n == 0 {
        Seq::empty()
    } else {
        selection_rects(geom, start, end, (n - 1) as nat) + line_rects(geom[n - 1], start, end)
    }
}

fn larger(a: u32, b: u32) -> (r: u32)
    ensures
        r == max_u32(a, b),
{
    if a >= b {
        a
    } else {
        b
    }
}

fn smaller(a: u32, b: u32) -> (r: u32)
    ensures
        r == min_u32(a, b),
{
    if a <= b {
        a
    } else {
        b
    }
}

fn push_run_rects(line: &LineGeom, lo: u32, hi: u32, rects: &mut Vec<Rect>)
    ensures
        final(rects)@ == old(rects)@ + run_rects(*line, lo, hi, line.runs@.len()),
{
    let ghost before = rects@;
    let mut k: usize = 0;
    assert(rects@ =~= before + run_rects(*line, lo, hi, 0));
    while k < line.runs.len()
        invariant
            k <= line.runs@.len(),
            rects@ == before + run_rects(*line, lo, hi, k as nat),
        decreases line.runs.len() - k,
    {
        let run: &RunGeom = &line.runs[k];
        let clip_lo: u32 = larger(lo, run.src_start);
        let clip_hi: u32 = smaller(hi, run.src_end);
        if clip_lo < clip_hi {
            let xa: i32 = nearest_slot_x(&run.slots, clip_lo, line.start_x);
            let xb: i32 = nearest_slot_x(&run.slots, clip_hi, line.start_x);
            rects.push(
                Rect {
                    x: if xa <= xb {
                        xa as i64
                    } else {
                        xb as i64
                    },
                    y: line.y_top as i64,
                    w: gap_of(xa, xb),
                    h: line.height as i64,
                },
            );
        }
        k += 1;
        assert(rects@ =~= before + run_rects(*line, lo, hi, k as nat));
    }
}

/// The rectangles that a text selection from `start` to `end` highlights. The
/// selected bytes are clipped against each run, so a selection across a
/// direction seam gives separate segments; a table that the selection takes
/// in whole is shaded cell by cell over the full cell width.
pub fn selection_rects_geom(geom: &Vec<LineGeom>, start: &LogicalPos, end: &LogicalPos) -> (r: Vec<
    Rect,
>)
    ensures
        r@ == selection_rects(geom@, start@, end@, geom@.len()),
{
    let mut rects: Vec<Rect> = Vec::new();
    let mut i: usize = 0;
    while i < geom.len()
        invariant
            i <= geom@.len(),
            rects@ == selection_rects(geom@, start@, end@, i as nat),
        decreases geom.len() - i,
    {
        let line: &LineGeom = &geom[i];
        let ghost before = rects@;
        let outside: bool = line.path.before(&start.path) || line.path.after(&end.path);
        if !outside {
            if is_in_bracketed_table(&line.path, &start.path, &end.path) {
                rects.push(
                    Rect {
                        x: line.hit_left as i64,
                        y: line.y_top as i64,
                        w: line.hit_width as i64,
                        h: line.height as i64,
                    },
                );
                assert(rects@ =~= before + line_rects(*line, start@, end@));
            } else {
                let lo: u32 = if line.path.after(&start.path) {
                    line.start_byte
                } else {
                    larger(start.offset, line.start_byte)
                };
                let hi: u32 = if line.path.before(&end.path) {
                    line.end_byte
                } else {
                    smaller(end.offset, line.end_byte)
                };
                if lo < hi {
                    push_run_rects(line, lo, hi, &mut rects);
                }
                assert(rects@ =~= before + line_rects(*line, start@, end@));
            }
        }
        assert(rects@ =~= before + line_rects(*line, start@, end@));
        i += 1;
    }
    rects
}

/// The highlight of one table cell.
#[derive(Clone, Copy, Debug, PartialEq, Eq, Structural)]
pub struct CellRect {
    pub row: u32,
    pub col: u32,
    pub rect: Rect,
}

pub open spec fn max_int(a: int, b: int) -> int {
    if a >= b {
        a
    } else {
        b
    }
}

pub open spec fn min_int(a: int, b: int) -> int {
    if a <= b {
        a
    } else {
        b
    }
}

/// The greatest x of `floor` and the first `n` slots.
pub open spec fn reach(slots: Seq<CaretSlot>, floor: int, n: nat) -> int
    decreases n,
{
    if n == 0 {
        floor
    } else {
        max_int(reach(slots, floor, (n - 1) as nat), slots[n - 1].x as int)
    }
}

/// The width of the text of the first `n` runs of a line.
pub open spec fn text_width(line: LineGeom, n: nat) -> int
    decreases n,
{
    if n == 0 {
        0
    } else {
        let slots = line.runs@[n - 1].slots@;
        max_int(
            text_width(line, (n - 1) as nat),
            reach(slots, line.start_x as int, slots.len()) - line.start_x,
        )
    }
}

/// The band of one line: its text width by its height.
pub open spec fn line_band(line: LineGeom) -> Rect {
    Rect {
        x: line.start_x as i64,
        y: line.y_top as i64,
        w: text_width(line, line.runs@.len()) as i64,
        h: line.height as i64,
    }
}

/// The smallest rectangle around two others.
pub open spec fn hull(a: Rect, b: Rect) -> Rect {
    let x0 = min_int(a.x as int, b.x as int);
    let y0 = min_int(a.y as int, b.y as int);
    Rect {
        x: x0 as i64,
        y: y0 as i64,
        w: (max_int(a.x + a.w, b.x + b.w) - x0) as i64,
        h: (max_int(a.y + a.h, b.y + b.h) - y0) as i64,
    }
}

/// The index at which a cell is listed.
pub open spec fn listed_at(acc: Seq<CellRect>, row: u32, col: u32) -> Option<int> {
    scan_pick(acc.len(), |i: int| acc[i].row == row && acc[i].col == col, never())
}

/// The list with one more line band of a cell taken in.
pub open spec fn with_band(acc: Seq<CellRect>, row: u32, col: u32, band: Rect) -> Seq<CellRect> {
    match listed_at(acc, row, col) {
        Some(k) => acc.update(k, CellRect { row, col, rect: hull(acc[k].rect, band) }),
        None => acc.push(CellRect { row, col, rect: band }),
    }
}

/// The highlights of the selected cells over the first `n` lines, in the
/// order in which the cells first appear.
pub open spec fn cell_rects(
    geom: Seq<LineGeom>,
    table: Seq<PathStep>,
    from: (u32, u32),
    to: (u32, u32),
    n: nat,
) -> Seq<CellRect>
    decreases n,
{
    if n == 0 {
        Seq::empty()
    } else {
        let acc = cell_rects(geom, table, from, to, (n - 1) as nat);
        match cell_in(geom[n - 1].path@, table) {
            Some((r, c)) => if from.0 <= r <= to.0 && from.1 <= c <= to.1 {
                with_band(acc, r, c, line_band(geom[n - 1]))
            } else {
                acc
            },
            None => acc,
        }
    }
}

fn reach_of(slots: &Vec<CaretSlot>, floor: i32) -> (r: i32)
    ensures
        r == reach(slots@, floor as int, slots@.len()),
        r >= floor,
{
    let mut best: i32 = floor;
    let mut i: usize = 0;
    while i < slots.len()
        invariant
            i <= slots@.len(),
            best == reach(slots@, floor as int, i as nat),
            best >= floor,
        decreases slots.len() - i,
    {
        if slots[i].x > best {
            best = slots[i].x;
        }
        i += 1;
    }
    best
}

/// A rectangle as it comes from line coordinates: its edges fit in 34 bits.
pub open spec fn moderate(r: Rect) -> bool {
    &&& -0x2_0000_0000 <= r.x <= 0x2_0000_0000
    &&& -0x2_0000_0000 <= r.y <= 0x2_0000_0000
    &&& -0x2_0000_0000 <= r.x + r.w <= 0x2_0000_0000
    &&& -0x2_0000_0000 <= r.y + r.h <= 0x2_0000_0000
}

fn line_band_of(line: &LineGeom) -> (r: Rect)
    ensures
        r == line_band(*line),
        moderate(r),
{
    let mut w: i64 = 0;
    let mut k: usize = 0;
    while k < line.runs.len()
        invariant
            k <= line.runs@.len(),
            w == text_width(*line, k as nat),
            0 <= w <= i32::MAX - line.start_x,
        decreases line.runs.len() - k,
    {
        let far: i32 = reach_of(&line.runs[k].slots, line.start_x);
        let width: i64 = far as i64 - line.start_x as i64;
        if width > w {
            w = width;
        }
        k += 1;
    }
    Rect { x: line.start_x as i64, y: line.y_top as i64, w, h: line.height as i64 }
}

fn hull_of(a: Rect, b: Rect) -> (r: Rect)
    requires
        moderate(a),
        moderate(b),
    ensures
        r == hull(a, b),
        moderate(r),
{
    let x0: i64 = if a.x <= b.x {
        a.x
    } else {
        b.x
    };
    let y0: i64 = if a.y <= b.y {
        a.y
    } else {
        b.y
    };
    let x1: i64 = if a.x + a.w >= b.x + b.w {
        a.x + a.w
    } else {
        b.x + b.w
    };
    let y1: i64 = if a.y + a.h >= b.y + b.h {
        a.y + a.h
    } else {
        b.y + b.h
    };
    Rect { x: x0, y: y0, w: x1 - x0, h: y1 - y0 }
}

fn index_listed(acc: &Vec<CellRect>, row: u32, col: u32) -> (r: Option<usize>)
    ensures
        match r {
            Some(k) => k < acc@.len() && listed_at(acc@, row, col) == Some(k as int),
            None => listed_at(acc@, row, col) is None,
        },
{
    let ghost ok = |i: int| acc@[i].row == row && acc@[i].col == col;
    let mut found: Option<usize> = None;
    let mut i: usize = 0;
    while i < acc.len()
        invariant
            i <= acc@.len(),
            ok == (|i: int| acc@[i].row == row && acc@[i].col == col),
            match found {
                Some(b) => b < i && scan_pick(i as nat, ok, never()) == Some(b as int),
                None => scan_pick(i as nat, ok, never()) is None,
            },
        decreases acc.len() - i,
    {
        if found.is_none() {
            let here: bool = acc[i].row == row && acc[i].col == col;
            assert(here == ok(i as int));
            if here {
                found = Some(i);
            }
        }
        i += 1;
    }
    found
}

/// The highlights of a rectangle of table cells: for each spanned cell that
/// has a line, the smallest rectangle around the bands of its lines.
pub fn table_cell_rects(
    geom: &Vec<LineGeom>,
    table_path: &BlockPath,
    from_row: u32,
    from_col: u32,
    to_row: u32,
    to_col: u32,
) -> (r: Vec<CellRect>)
    ensures
        r@ == cell_rects(geom@, table_path@, (from_row, from_col), (to_row, to_col), geom@.len()),
{
    let ghost (from, to) = ((from_row, from_col), (to_row, to_col));
    let mut acc: Vec<CellRect> = Vec::new();
    let mut i: usize = 0;
    while i < geom.len()
        invariant
            i <= geom@.len(),
            from == (from_row, from_col),
            to == (to_row, to_col),
            acc@ == cell_rects(geom@, table_path@, from, to, i as nat),
            forall|k: int| 0 <= k < acc@.len() ==> moderate(#[trigger] acc@[k].rect),
        decreases geom.len() - i,
    {
        let line: &LineGeom = &geom[i];
        if let Some((r, c)) = cell_of(&line.path, table_path) {
            if from_row <= r && r <= to_row && from_col <= c && c <= to_col {
                let band = line_band_of(line);
                match index_listed(&acc, r, c) {
                    Some(k) => {
                        let joined = hull_of(acc[k].rect, band);
                        acc.set(k, CellRect { row: r, col: c, rect: joined });
                    },
                    None => {
                        acc.push(CellRect { row: r, col: c, rect: band });
                    },
                }
            }
        }
        i += 1;
    }
    acc
}

/// The line that a hit test picks is nearest: no line is vertically nearer,
/// none of those equally near is horizontally nearer, and it is the first of
/// the lines that are as near.
pub proof fn law_hit_picks_nearest_line(geom: Seq<LineGeom>, x: int, y: int)
    requires
        geom.len() > 0,
    ensures
        nearest_line_of(geom, x, y) matches Some(b) && {
            &&& 0 <= b < geom.len()
            &&& forall|i: int|
                0 <= i < geom.len() ==> y_dist(geom[b], y) <= y_dist(#[trigger] geom[i], y)
            &&& forall|i: int|
                0 <= i < geom.len() && y_dist(#[trigger] geom[i], y) == y_dist(geom[b], y)
                    ==> x_dist(geom[b], x) <= x_dist(geom[i], x)
            &&& forall|i: int|
                0 <= i < b && y_dist(#[trigger] geom[i], y) == y_dist(geom[b], y)
                    ==> x_dist(geom[b], x) < x_dist(geom[i], x)
        },
{
    lemma_nearest(geom, x, y, geom.len());
}

proof fn lemma_nearest(geom: Seq<LineGeom>, x: int, y: int, n: nat)
    requires
        0 < n <= geom.len(),
    ensures
        scan_pick(n, any_index(), nearer_line(geom, x, y)) matches Some(b) && {
            &&& 0 <= b < n
            &&& forall|i: int| 0 <= i < n ==> y_dist(geom[b], y) <= y_dist(#[trigger] geom[i], y)
            &&& forall|i: int|
                0 <= i < n && y_dist(#[trigger] geom[i], y) == y_dist(geom[b], y) ==> x_dist(
                    geom[b],
                    x,
                ) <= x_dist(geom[i], x)
            &&& forall|i: int|
                0 <= i < b && y_dist(#[trigger] geom[i], y) == y_dist(geom[b], y) ==> x_dist(
                    geom[b],
                    x,
                ) < x_dist(geom[i], x)
        },
    decreases n,
{
    if n > 1 {
        lemma_nearest(geom, x, y, (n - 1) as nat);
    } else {
        assert(scan_pick(0, any_index(), nearer_line(geom, x, y)) is None);
    }
}

/// A click inside one line's rectangle, outside every other line's band,
/// lands on that line.
pub proof fn law_hit_inside_a_line(geom: Seq<LineGeom>, x: int, y: int, i: int)
    requires
        0 <= i < geom.len(),
        y_dist(geom[i], y) == 0,
        x_dist(geom[i], x) == 0,
        forall|j: int|
            0 <= j < geom.len() && j != i ==> y_dist(#[trigger] geom[j], y) > 0 || x_dist(
                geom[j],
                x,
            ) > 0,
    ensures
        nearest_line_of(geom, x, y) == Some(i),
        hit_test(geom, x, y).path == geom[i].path@,
{
    law_hit_picks_nearest_line(geom, x, y);
    let b = nearest_line_of(geom, x, y)->0;
    assert(y_dist(geom[b], y) <= y_dist(geom[i], y));
    assert(y_dist(geom[b], y) == 0);
    assert(x_dist(geom[b], x) <= x_dist(geom[i], x));
}

/// The slot that a hit test picks is the first of the nearest ones.
pub proof fn law_hit_picks_nearest_slot(slots: Seq<CaretSlot>, x: int)
    requires
        slots.len() > 0,
    ensures
        slot_near_x(slots, x) matches Some(s) && forall|i: int|
            0 <= i < slots.len() ==> gap(s.x as int, x) <= gap((#[trigger] slots[i]).x as int, x),
{
    let key = |i: int| gap(slots[i].x as int, x);
    lemma_scan_first_least(slots.len(), any_index(), nearer_slot(slots, x), key);
    assert(any_index()(0));
    let b = scan_pick(slots.len(), any_index(), nearer_slot(slots, x))->0;
    assert forall|i: int| 0 <= i < slots.len() implies gap(slots[b].x as int, x) <= gap(
        (#[trigger] slots[i]).x as int,
        x,
    ) by {
        assert(any_index()(i));
        assert(key(b) <= key(i));
    }
}

/// The visual arrow step goes to a slot strictly on the asked side, and no
/// slot on that side is closer.
pub proof fn law_visual_step_is_next(slots: Seq<CaretSlot>, x: int, right: bool)
    ensures
        match scan_pick(slots.len(), beyond(slots, x, right), closer_beyond(slots, right)) {
            Some(b) => {
                &&& 0 <= b < slots.len()
                &&& neighbor_byte(slots, x, right) == Some(slots[b].byte)
                &&& right ==> slots[b].x > x + HALF_PX && forall|i: int|
                    0 <= i < slots.len() && (#[trigger] slots[i]).x > x + HALF_PX ==> slots[b].x
                        <= slots[i].x
                &&& !right ==> slots[b].x < x - HALF_PX && forall|i: int|
                    0 <= i < slots.len() && (#[trigger] slots[i]).x < x - HALF_PX ==> slots[b].x
                        >= slots[i].x
            },
            None => {
                &&& neighbor_byte(slots, x, right) is None
                &&& right ==> forall|i: int|
                    0 <= i < slots.len() ==> (#[trigger] slots[i]).x <= x + HALF_PX
                &&& !right ==> forall|i: int|
                    0 <= i < slots.len() ==> (#[trigger] slots[i]).x >= x - HALF_PX
            },
        },
{
    lemma_step(slots, x, right, slots.len());
}

proof fn lemma_step(slots: Seq<CaretSlot>, x: int, right: bool, n: nat)
    requires
        n <= slots.len(),
    ensures
        match scan_pick(n, beyond(slots, x, right), closer_beyond(slots, right)) {
            Some(b) => {
                &&& 0 <= b < n
                &&& right ==> slots[b].x > x + HALF_PX && forall|i: int|
                    0 <= i < n && (#[trigger] slots[i]).x > x + HALF_PX ==> slots[b].x <= slots[i].x
                &&& !right ==> slots[b].x < x - HALF_PX && forall|i: int|
                    0 <= i < n && (#[trigger] slots[i]).x < x - HALF_PX ==> slots[b].x >= slots[i].x
            },
            None => {
                &&& right ==> forall|i: int| 0 <= i < n ==> (#[trigger] slots[i]).x <= x + HALF_PX
                &&& !right ==> forall|i: int| 0 <= i < n ==> (#[trigger] slots[i]).x >= x - HALF_PX
            },
        },
    decreases n,
{
    if n > 0 {
        lemma_step(slots, x, right, (n - 1) as nat);
    }
}

/// At a byte with slots, the caret is drawn at one of them: the leftmost for
/// the leading side and the rightmost for the trailing side.
pub proof fn law_affinity_picks_side(line: LineGeom, byte: u32, k: int)
    requires
        0 <= k < line.slots@.len(),
        line.slots@[k].byte == byte,
    ensures
        exists|i: int|
            0 <= i < line.slots@.len() && (#[trigger] line.slots@[i]).byte == byte && line.slots@[i].x
                == caret_x(line, byte, CaretAffinity::LeadingX),
        exists|i: int|
            0 <= i < line.slots@.len() && (#[trigger] line.slots@[i]).byte == byte && line.slots@[i].x
                == caret_x(line, byte, CaretAffinity::TrailingX),
        caret_x(line, byte, CaretAffinity::LeadingX) <= line.slots@[k].x <= caret_x(
            line,
            byte,
            CaretAffinity::TrailingX,
        ),
{
    lemma_side(line.slots@, byte, CaretAffinity::LeadingX, line.slots@.len());
    lemma_side(line.slots@, byte, CaretAffinity::TrailingX, line.slots@.len());
}

proof fn lemma_side(slots: Seq<CaretSlot>, byte: u32, affinity: CaretAffinity, n: nat)
    requires
        n <= slots.len(),
    ensures
        match scan_pick(n, at_byte(slots, byte), on_side(slots, affinity)) {
            Some(b) => {
                &&& 0 <= b < n
                &&& slots[b].byte == byte
                &&& forall|i: int|
                    0 <= i < n && (#[trigger] slots[i]).byte == byte ==> match affinity {
                        CaretAffinity::LeadingX => slots[b].x <= slots[i].x,
                        CaretAffinity::TrailingX => slots[b].x >= slots[i].x,
                    }
            },
            None => forall|i: int| 0 <= i < n ==> (#[trigger] slots[i]).byte != byte,
        },
    decreases n,
{
    if n > 0 {
        lemma_side(slots, byte, affinity, (n - 1) as nat);
    }
}

/// A selection whose two ends are the same highlights nothing.
pub proof fn law_collapsed_selection_has_no_rects(geom: Seq<LineGeom>, pos: Pos, n: nat)
    requires
        n <= geom.len(),
    ensures
        selection_rects(geom, pos, pos, n) == Seq::<Rect>::empty(),
    decreases n,
{
    if n > 0 {
        law_collapsed_selection_has_no_rects(geom, pos, (n - 1) as nat);
        assert(line_rects(geom[n - 1], pos, pos) =~= Seq::<Rect>::empty());
        assert(selection_rects(geom, pos, pos, n) =~= Seq::<Rect>::empty());
    }
}

/// Selection rectangles of a run have no negative width and lie between the
/// slots of the clipped range.
pub proof fn law_run_rect_spans_its_slots(line: LineGeom, run: RunGeom, lo: u32, hi: u32)
    ensures
        ({
            let r = run_rect(line, run, lo, hi);
            let xa = x_near_byte(run.slots@, lo as int, line.start_x);
            let xb = x_near_byte(run.slots@, hi as int, line.start_x);
            &&& r.w >= 0
            &&& r.x == min_int(xa as int, xb as int)
            &&& r.x + r.w == max_int(xa as int, xb as int)
        }),
{
}

/// Every selected cell is highlighted once.
pub proof fn law_cells_highlighted_once(
    geom: Seq<LineGeom>,
    table: Seq<PathStep>,
    from: (u32, u32),
    to: (u32, u32),
    n: nat,
)
    requires
        n <= geom.len(),
    ensures
        ({
            let s = cell_rects(geom, table, from, to, n);
            &&& forall|i: int, j: int|
                0 <= i < j < s.len() ==> (#[trigger] s[i]).row != (#[trigger] s[j]).row || s[i].col
                    != s[j].col
            &&& forall|i: int|
                0 <= i < s.len() ==> from.0 <= (#[trigger] s[i]).row <= to.0 && from.1 <= s[i].col
                    <= to.1
        }),
    decreases n,
{
    if n > 0 {
        let m = (n - 1) as nat;
        law_cells_highlighted_once(geom, table, from, to, m);
        let acc = cell_rects(geom, table, from, to, m);
        if let Some((r, c)) = cell_in(geom[n - 1].path@, table) {
            lemma_scan_range(acc.len(), |i: int| acc[i].row == r && acc[i].col == c, never());
            let ok = |i: int| acc[i].row == r && acc[i].col == c;
            assert forall|i: int| 0 <= i < acc.len() && listed_at(acc, r, c) is None implies (
            #[trigger] acc[i]).row != r || acc[i].col != c by {
                assert(!ok(i));
            }
        }
    }
}

/// A click where a caret is drawn, inside its own line's rectangle alone, puts
/// the caret back on a slot at that very place; on the same slot, where no other
/// slot of the line shares its x.
pub proof fn law_click_returns_to_the_caret(geom: Seq<LineGeom>, i: int, k: int, y: int)
    requires
        0 <= i < geom.len(),
        0 <= k < geom[i].slots@.len(),
        y_dist(geom[i], y) == 0,
        x_dist(geom[i], geom[i].slots@[k].x as int) == 0,
        forall|j: int|
            0 <= j < geom.len() && j != i ==> y_dist(#[trigger] geom[j], y) > 0 || x_dist(
                geom[j],
                geom[i].slots@[k].x as int,
            ) > 0,
    ensures
        ({
            let slots = geom[i].slots@;
            let hit = hit_test(geom, slots[k].x as int, y);
            &&& hit.path == geom[i].path@
            &&& exists|m: int|
                0 <= m < slots.len() && (#[trigger] slots[m]).x == slots[k].x && slots[m].byte
                    == hit.offset
            &&& (forall|m: int|
                0 <= m < slots.len() && (#[trigger] slots[m]).x == slots[k].x ==> m == k)
                ==> hit.offset == slots[k].byte
        }),
{
    let slots = geom[i].slots@;
    let x = slots[k].x as int;
    law_hit_inside_a_line(geom, x, y, i);
    law_hit_picks_nearest_slot(slots, x);
    lemma_scan_range(slots.len(), any_index(), nearer_slot(slots, x));
    assert(any_index()(k));
    let m = scan_pick(slots.len(), any_index(), nearer_slot(slots, x))->0;
    assert(gap(slots[m].x as int, x) <= gap(slots[k].x as int, x));
    assert(slots[m].x == slots[k].x);
}

/// Where one run of a line ends left of the place where another begins, so do
/// the rectangles that a selection draws over them: they do not overlap.
pub proof fn law_runs_apart_rects_apart(
    line: LineGeom,
    left: RunGeom,
    right: RunGeom,
    seam: int,
    lo: (u32, u32),
    hi: (u32, u32),
)
    requires
        left.slots@.len() > 0,
        right.slots@.len() > 0,
        forall|i: int| 0 <= i < left.slots@.len() ==> (#[trigger] left.slots@[i]).x <= seam,
        forall|i: int| 0 <= i < right.slots@.len() ==> seam <= (#[trigger] right.slots@[i]).x,
    ensures
        ({
            let a = run_rect(line, left, lo.0, lo.1);
            let b = run_rect(line, right, hi.0, hi.1);
            a.x + a.w <= seam <= b.x
        }),
{
    lemma_x_is_a_slot(left.slots@, lo.0 as int, line.start_x);
    lemma_x_is_a_slot(left.slots@, lo.1 as int, line.start_x);
    lemma_x_is_a_slot(right.slots@, hi.0 as int, line.start_x);
    lemma_x_is_a_slot(right.slots@, hi.1 as int, line.start_x);
}

proof fn lemma_x_is_a_slot(slots: Seq<CaretSlot>, byte: int, fallback: i32)
    requires
        slots.len() > 0,
    ensures
        exists|i: int|
            0 <= i < slots.len() && (#[trigger] slots[i]).x == x_near_byte(slots, byte, fallback),
{
    lemma_scan_range(slots.len(), any_index(), nearer_byte(slots, byte));
    assert(any_index()(0));
}

/// A line holds a position when it belongs to the same paragraph and the
/// offset lies between its ends, both taken in; the position's line is the
/// first that does.
pub proof fn law_line_of_a_position(geom: Seq<LineGeom>, pos: Pos)
    ensures
        match line_of(geom, pos) {
            Some(i) => {
                &&& 0 <= i < geom.len()
                &&& geom[i].path@ == pos.path
                &&& geom[i].start_byte <= pos.offset <= geom[i].end_byte
                &&& forall|j: int|
                    0 <= j < i ==> (#[trigger] geom[j]).path@ != pos.path || pos.offset
                        < geom[j].start_byte || pos.offset > geom[j].end_byte
            },
            None => forall|j: int|
                0 <= j < geom.len() ==> (#[trigger] geom[j]).path@ != pos.path || pos.offset
                    < geom[j].start_byte || pos.offset > geom[j].end_byte,
        },
{
    lemma_first_holder(geom, pos, geom.len());
}

proof fn lemma_first_holder(geom: Seq<LineGeom>, pos: Pos, n: nat)
    requires
        n <= geom.len(),
    ensures
        match scan_pick(n, holding(geom, pos), never()) {
            Some(i) => {
                &&& 0 <= i < n
                &&& geom[i].path@ == pos.path
                &&& geom[i].start_byte <= pos.offset <= geom[i].end_byte
                &&& forall|j: int|
                    0 <= j < i ==> (#[trigger] geom[j]).path@ != pos.path || pos.offset
                        < geom[j].start_byte || pos.offset > geom[j].end_byte
            },
            None => forall|j: int|
                0 <= j < n ==> (#[trigger] geom[j]).path@ != pos.path || pos.offset
                    < geom[j].start_byte || pos.offset > geom[j].end_byte,
        },
    decreases n,
{
    if n > 0 {
        lemma_first_holder(geom, pos, (n - 1) as nat);
    }
}

/// The distance from a point to a line is that to the nearest point of the
/// line's rectangle, along each of the two directions: some point of the
/// rectangle is that far, and none is nearer.
pub proof fn law_distance_to_a_line(line: LineGeom, x: int, y: int)
    requires
        line.height >= 0,
        line.hit_width >= 0,
    ensures
        forall|p: int|
            line.y_top <= p <= line.y_top + line.height ==> y_dist(line, y) <= #[trigger] gap(p, y),
        exists|p: int|
            line.y_top <= p <= line.y_top + line.height && y_dist(line, y) == #[trigger] gap(p, y),
        forall|p: int|
            line.hit_left <= p <= line.hit_left + line.hit_width ==> x_dist(line, x)
                <= #[trigger] gap(p, x),
        exists|p: int|
            line.hit_left <= p <= line.hit_left + line.hit_width && x_dist(line, x)
                == #[trigger] gap(p, x),
{
    let top = line.y_top as int;
    let left = line.hit_left as int;
    let py = min_int(max_int(y, top), top + line.height);
    let px = min_int(max_int(x, left), left + line.hit_width);
    assert(y_dist(line, y) == gap(py, y));
    assert(x_dist(line, x) == gap(px, x));
}

/// A gap is the absolute difference.
pub proof fn law_gap_is_the_difference(a: int, b: int)
    ensures
        gap(a, b) >= 0,
        gap(a, b) == a - b || gap(a, b) == b - a,
{
}

/// A click on a laid-out document lands in the paragraph of a line that no
/// other is nearer to the point than, on one of that line's slots that is
/// horizontally nearest, or on the line's start where it has no slot.
pub proof fn law_hit_lands_on_the_nearest_slot(geom: Seq<LineGeom>, x: int, y: int)
    requires
        geom.len() > 0,
    ensures
        exists|i: int|
            {
                let hit = hit_test(geom, x, y);
                &&& 0 <= i < geom.len()
                &&& hit.path == (#[trigger] geom[i]).path@
                &&& forall|j: int|
                    0 <= j < geom.len() ==> y_dist(geom[i], y) <= y_dist(#[trigger] geom[j], y)
                &&& geom[i].slots@.len() == 0 ==> hit.offset == geom[i].start_byte
                &&& geom[i].slots@.len() > 0 ==> exists|k: int|
                    0 <= k < geom[i].slots@.len() && (#[trigger] geom[i].slots@[k]).byte
                        == hit.offset && forall|m: int|
                        0 <= m < geom[i].slots@.len() ==> gap(geom[i].slots@[k].x as int, x) <= gap(
                            (#[trigger] geom[i].slots@[m]).x as int,
                            x,
                        )
            },
{
    law_hit_picks_nearest_line(geom, x, y);
    let i = nearest_line_of(geom, x, y)->0;
    let slots = geom[i].slots@;
    if slots.len() > 0 {
        law_hit_picks_nearest_slot(slots, x);
        lemma_scan_range(slots.len(), any_index(), nearer_slot(slots, x));
        assert(any_index()(0));
        let k = scan_pick(slots.len(), any_index(), nearer_slot(slots, x))->0;
        assert(slots[k].byte == hit_test(geom, x, y).offset);
    }
    assert(hit_test(geom, x, y).path == geom[i].path@);
}

/// The caret rectangle stands on the line that holds the position, as high as
/// the line and as wide as a caret; with no such line, on the first line; and
/// with no line at all it is the given one.
pub proof fn law_caret_stands_on_its_line(
    geom: Seq<LineGeom>,
    pos: Pos,
    fallback: Rect,
    caret_w: i64,
    affinity: CaretAffinity,
    i: int,
)
    requires
        0 <= i < geom.len(),
        line_of(geom, pos) == Some(i) || (line_of(geom, pos) is None && i == 0),
    ensures
        ({
            let r = caret_rect(geom, pos, fallback, caret_w, affinity);
            &&& r.y == geom[i].y_top
            &&& r.h == geom[i].height
            &&& r.w == caret_w
            &&& geom[i].slots@.len() == 0 ==> r.x == geom[i].start_x
            &&& geom[i].slots@.len() > 0 ==> exists|k: int|
                0 <= k < geom[i].slots@.len() && r.x == (#[trigger] geom[i].slots@[k]).x
                    && forall|m: int|
                    0 <= m < geom[i].slots@.len() ==> gap(
                        geom[i].slots@[k].byte as int,
                        pos.offset as int,
                    ) <= gap((#[trigger] geom[i].slots@[m]).byte as int, pos.offset as int)
        }),
        caret_rect(Seq::empty(), pos, fallback, caret_w, affinity) == fallback,
{
    let line = geom[i];
    let slots = line.slots@;
    assert(line_of(Seq::empty(), pos) is None);
    lemma_side(slots, pos.offset, affinity, slots.len());
    if slots.len() > 0 {
        lemma_nearest_byte(slots, pos.offset as int, line.start_x);
    }
}

/// The slot whose x stands for a byte is one of those nearest to it.
proof fn lemma_nearest_byte(slots: Seq<CaretSlot>, byte: int, fallback: i32)
    requires
        slots.len() > 0,
    ensures
        exists|k: int|
            0 <= k < slots.len() && (#[trigger] slots[k]).x == x_near_byte(slots, byte, fallback)
                && forall|m: int|
                0 <= m < slots.len() ==> gap(slots[k].byte as int, byte) <= gap(
                    (#[trigger] slots[m]).byte as int,
                    byte,
                ),
{
    let key = |i: int| gap(slots[i].byte as int, byte);
    lemma_scan_first_least(slots.len(), any_index(), nearer_byte(slots, byte), key);
    assert(any_index()(0));
    let b = scan_pick(slots.len(), any_index(), nearer_byte(slots, byte))->0;
    assert forall|m: int| 0 <= m < slots.len() implies gap(slots[b].byte as int, byte) <= gap(
        (#[trigger] slots[m]).byte as int,
        byte,
    ) by {
        assert(any_index()(m));
        assert(key(b) <= key(m));
    }
    assert(slots[b].x == x_near_byte(slots, byte, fallback));
}

/// Slot `p` is one of those whose bytes are nearest to `byte`.
pub open spec fn stands_for(slots: Seq<CaretSlot>, p: int, byte: int) -> bool {
    &&& 0 <= p < slots.len()
    &&& forall|m: int|
        0 <= m < slots.len() ==> gap(slots[p].byte as int, byte) <= gap(
            (#[trigger] slots[m]).byte as int,
            byte,
        )
}

/// The highlight covers bytes `lo..hi` of a run: it lies on the line's band, and
/// its two sides are the places of a slot nearest to `lo` and one nearest to
/// `hi`.
pub open spec fn covers_bytes(r: Rect, line: LineGeom, run: RunGeom, lo: int, hi: int) -> bool {
    let slots = run.slots@;
    &&& r.y == line.y_top
    &&& r.h == line.height
    &&& exists|p: int, q: int|
        {
            &&& #[trigger] stands_for(slots, p, lo)
            &&& #[trigger] stands_for(slots, q, hi)
            &&& slots[p].x <= slots[q].x ==> r.x == slots[p].x && r.x + r.w == slots[q].x
            &&& slots[p].x > slots[q].x ==> r.x == slots[q].x && r.x + r.w == slots[p].x
        }
}

proof fn lemma_run_rect_covers(line: LineGeom, run: RunGeom, lo: u32, hi: u32)
    requires
        run.slots@.len() > 0,
    ensures
        covers_bytes(run_rect(line, run, lo, hi), line, run, lo as int, hi as int),
{
    let slots = run.slots@;
    lemma_nearest_byte(slots, lo as int, line.start_x);
    lemma_nearest_byte(slots, hi as int, line.start_x);
    let p = choose|k: int|
        0 <= k < slots.len() && (#[trigger] slots[k]).x == x_near_byte(
            slots,
            lo as int,
            line.start_x,
        ) && forall|m: int|
            0 <= m < slots.len() ==> gap(slots[k].byte as int, lo as int) <= gap(
                (#[trigger] slots[m]).byte as int,
                lo as int,
            );
    let q = choose|k: int|
        0 <= k < slots.len() && (#[trigger] slots[k]).x == x_near_byte(
            slots,
            hi as int,
            line.start_x,
        ) && forall|m: int|
            0 <= m < slots.len() ==> gap(slots[k].byte as int, hi as int) <= gap(
                (#[trigger] slots[m]).byte as int,
                hi as int,
            );
    assert(stands_for(slots, p, lo as int));
    assert(stands_for(slots, q, hi as int));
}

proof fn lemma_run_is_highlighted(line: LineGeom, lo: u32, hi: u32, n: nat, k: int)
    requires
        0 <= k < n <= line.runs@.len(),
        max_u32(lo, line.runs@[k].src_start) < min_u32(hi, line.runs@[k].src_end),
    ensures
        exists|m: int|
            0 <= m < run_rects(line, lo, hi, n).len() && #[trigger] run_rects(line, lo, hi, n)[m]
                == run_rect(
                line,
                line.runs@[k],
                max_u32(lo, line.runs@[k].src_start),
                min_u32(hi, line.runs@[k].src_end),
            ),
    decreases n,
{
    let m = (n - 1) as nat;
    let head = run_rects(line, lo, hi, m);
    let all = run_rects(line, lo, hi, n);
    if k == m {
        assert(all[head.len() as int] == all.last());
    } else {
        lemma_run_is_highlighted(line, lo, hi, m, k);
        let j = choose|j: int|
            0 <= j < head.len() && #[trigger] head[j] == run_rect(
                line,
                line.runs@[k],
                max_u32(lo, line.runs@[k].src_start),
                min_u32(hi, line.runs@[k].src_end),
            );
        assert(all[j] == head[j]);
    }
}

proof fn lemma_line_rects_listed(geom: Seq<LineGeom>, start: Pos, end: Pos, n: nat, i: int, j: int)
    requires
        0 <= i < n <= geom.len(),
        0 <= j < line_rects(geom[i], start, end).len(),
    ensures
        selection_rects(geom, start, end, n).contains(line_rects(geom[i], start, end)[j]),
    decreases n,
{
    let m = (n - 1) as nat;
    let head = selection_rects(geom, start, end, m);
    let tail = line_rects(geom[n - 1], start, end);
    let all = selection_rects(geom, start, end, n);
    if i == m {
        assert(all[head.len() + j] == tail[j]);
    } else {
        lemma_line_rects_listed(geom, start, end, m, i, j);
        let k = choose|k: int| 0 <= k < head.len() && head[k] == line_rects(geom[i], start, end)[j];
        assert(all[k] == head[k]);
    }
}

/// The selected part of a text run is highlighted. Take a line of body text, or
/// one of the table that the selection starts or ends in, in a paragraph that is
/// neither before the start's nor after the end's. In the start's own paragraph what is
/// selected begins at the start's offset, in a later one with the line; in the
/// end's own paragraph it ends at the end's offset, in an earlier one with the
/// line. Where that meets the bytes of a run, one of the rectangles covers what
/// they share.
pub proof fn law_selected_text_is_highlighted(
    geom: Seq<LineGeom>,
    start: Pos,
    end: Pos,
    i: int,
    k: int,
    lo: int,
    hi: int,
)
    requires
        0 <= i < geom.len(),
        0 <= k < geom[i].runs@.len(),
        geom[i].runs@[k].slots@.len() > 0,
        geom[i].path@.len() < 2 || geom[i].path@[1] is Block || (start.path.len() > 0
            && start.path[0] == geom[i].path@[0]) || (end.path.len() > 0 && end.path[0]
            == geom[i].path@[0]),
        path_order(geom[i].path@, start.path) >= 0,
        path_order(geom[i].path@, end.path) <= 0,
        path_order(geom[i].path@, start.path) == 0 ==> lo >= start.offset,
        path_order(geom[i].path@, end.path) == 0 ==> hi <= end.offset,
        geom[i].start_byte <= lo < hi <= geom[i].end_byte,
        geom[i].runs@[k].src_start <= lo < hi <= geom[i].runs@[k].src_end,
        lo == geom[i].start_byte || lo == geom[i].runs@[k].src_start || (path_order(
            geom[i].path@,
            start.path,
        ) == 0 && lo == start.offset),
        hi == geom[i].end_byte || hi == geom[i].runs@[k].src_end || (path_order(
            geom[i].path@,
            end.path,
        ) == 0 && hi == end.offset),
    ensures
        exists|r: Rect|
            #[trigger] selection_rects(geom, start, end, geom.len()).contains(r) && covers_bytes(
                r,
                geom[i],
                geom[i].runs@[k],
                lo,
                hi,
            ),
{
    let line = geom[i];
    let run = line.runs@[k];
    if top_table(line.path@) is Some {
        let table = seq![line.path@[0]];
        if start.path.len() > 0 && start.path[0] == line.path@[0] {
            assert(table =~= start.path.take(1));
            law_ancestor_first(table, start.path);
        } else {
            assert(table =~= end.path.take(1));
        }
    }
    let (a, b) = (line_lo(line, start), line_hi(line, end));
    assert(max_u32(a, run.src_start) == lo);
    assert(min_u32(b, run.src_end) == hi);
    lemma_run_is_highlighted(line, a, b, line.runs@.len(), k);
    let rects = line_rects(line, start, end);
    let m = choose|m: int|
        0 <= m < rects.len() && #[trigger] rects[m] == run_rect(line, run, lo as u32, hi as u32);
    lemma_line_rects_listed(geom, start, end, geom.len(), i, m);
    lemma_run_rect_covers(line, run, lo as u32, hi as u32);
}

/// A table that stands between the two ends of a selection is highlighted cell
/// by cell: over each of its lines lies a rectangle as wide as the line's hit
/// target.
pub proof fn law_table_between_is_shaded(geom: Seq<LineGeom>, start: Pos, end: Pos, i: int, t: u32)
    requires
        0 <= i < geom.len(),
        geom[i].path@.len() >= 2,
        geom[i].path@[0] == (PathStep::Block { idx: t }),
        geom[i].path@[1] is Cell,
        start.path.len() > 0 && start.path[0] is Block && start.path[0]->idx < t,
        end.path.len() > 0 && end.path[0] is Block && t < end.path[0]->idx,
    ensures
        selection_rects(geom, start, end, geom.len()).contains(
            (Rect {
                x: geom[i].hit_left as i64,
                y: geom[i].y_top as i64,
                w: geom[i].hit_width as i64,
                h: geom[i].height as i64,
            }),
        ),
{
    let line = geom[i];
    let table = seq![PathStep::Block { idx: t }];
    assert(!is_prefix(table, end.path)) by {
        if is_prefix(table, end.path) {
            assert(table[0] == end.path.take(1)[0]);
        }
    }
    law_order_follows_the_indices(start.path, table, 0);
    law_order_follows_the_indices(table, end.path, 0);
    law_order_follows_the_indices(start.path, line.path@, 0);
    law_order_follows_the_indices(line.path@, end.path, 0);
    lemma_line_rects_listed(geom, start, end, geom.len(), i, 0);
}

/// Every rectangle of a selection lies on the band of a line whose paragraph is
/// neither before the start's nor after the end's; and outside tables it covers
/// bytes of a run of that line that the selection takes in.
pub proof fn law_only_selected_text_is_highlighted(
    geom: Seq<LineGeom>,
    start: Pos,
    end: Pos,
    n: nat,
    m: int,
)
    requires
        n <= geom.len(),
        0 <= m < selection_rects(geom, start, end, n).len(),
        forall|i: int, k: int|
            0 <= i < geom.len() && 0 <= k < geom[i].runs@.len() ==> (#[trigger] geom[i].runs@[k]).slots@.len()
                > 0,
    ensures
        exists|i: int|
            {
                let r = selection_rects(geom, start, end, n)[m];
                let path = geom[i].path@;
                &&& 0 <= i < n
                &&& r.y == (#[trigger] geom[i]).y_top && r.h == geom[i].height
                &&& path_order(path, start.path) >= 0 && path_order(path, end.path) <= 0
                &&& path.len() < 2 || path[1] is Block ==> exists|k: int, lo: int, hi: int|
                    {
                        &&& 0 <= k < geom[i].runs@.len()
                        &&& lo < hi
                        &&& path_order(path, start.path) == 0 ==> start.offset <= lo
                        &&& path_order(path, end.path) == 0 ==> hi <= end.offset
                        &&& geom[i].start_byte <= lo && hi <= geom[i].end_byte
                        &&& geom[i].runs@[k].src_start <= lo && hi <= geom[i].runs@[k].src_end
                        &&& #[trigger] covers_bytes(r, geom[i], geom[i].runs@[k], lo, hi)
                    }
            },
    decreases n,
{
    let w = (n - 1) as nat;
    let head = selection_rects(geom, start, end, w);
    let line = geom[n - 1];
    let tail = line_rects(line, start, end);
    let all = selection_rects(geom, start, end, n);
    if m < head.len() {
        assert(all[m] == head[m]);
        law_only_selected_text_is_highlighted(geom, start, end, w, m);
    } else {
        assert(all[m] == tail[m - head.len()]);
        if !in_bracketed_table(line.path@, start.path, end.path) {
            lemma_rect_covers_a_run(
                line,
                line_lo(line, start),
                line_hi(line, end),
                line.runs@.len(),
                m - head.len(),
            );
        }
        assert(geom[n - 1].y_top == all[m].y);
    }
}

proof fn lemma_rect_covers_a_run(line: LineGeom, lo: u32, hi: u32, n: nat, m: int)
    requires
        n <= line.runs@.len(),
        0 <= m < run_rects(line, lo, hi, n).len(),
        forall|k: int|
            0 <= k < line.runs@.len() ==> (#[trigger] line.runs@[k]).slots@.len() > 0,
    ensures
        run_rects(line, lo, hi, n)[m].y == line.y_top,
        run_rects(line, lo, hi, n)[m].h == line.height,
        exists|k: int, a: int, b: int|
            {
                &&& 0 <= k < n
                &&& a < b
                &&& lo <= a && b <= hi
                &&& line.runs@[k].src_start <= a && b <= line.runs@[k].src_end
                &&& #[trigger] covers_bytes(
                    run_rects(line, lo, hi, n)[m],
                    line,
                    line.runs@[k],
                    a,
                    b,
                )
            },
    decreases n,
{
    let w = (n - 1) as nat;
    let head = run_rects(line, lo, hi, w);
    let all = run_rects(line, lo, hi, n);
    if m < head.len() {
        assert(all[m] == head[m]);
        lemma_rect_covers_a_run(line, lo, hi, w, m);
    } else {
        let run = line.runs@[n - 1];
        let a = max_u32(lo, run.src_start);
        let b = min_u32(hi, run.src_end);
        lemma_run_rect_covers(line, run, a, b);
        assert(covers_bytes(all[m], line, line.runs@[n - 1], a as int, b as int));
    }
}

/// One rectangle lies inside another.
pub open spec fn inside(a: Rect, b: Rect) -> bool {
    b.x <= a.x && a.x + a.w <= b.x + b.w && b.y <= a.y && a.y + a.h <= b.y + b.h
}

/// The text of a line reaches to its rightmost slot: the line's band takes in
/// every slot of its runs that stands at or right of the line's start.
pub proof fn law_band_holds_the_text(line: LineGeom, k: int, m: int)
    requires
        0 <= k < line.runs@.len(),
        0 <= m < line.runs@[k].slots@.len(),
    ensures
        line_band(line).x == line.start_x,
        line_band(line).y == line.y_top,
        line_band(line).h == line.height,
        line.runs@[k].slots@[m].x <= line.start_x + text_width(line, line.runs@.len()),
{
    lemma_band_reaches(line, line.runs@.len(), k, m);
}

proof fn lemma_reach(slots: Seq<CaretSlot>, floor: int, n: nat, m: int)
    requires
        0 <= m < n <= slots.len(),
    ensures
        slots[m].x <= reach(slots, floor, n),
    decreases n,
{
    if m < n - 1 {
        lemma_reach(slots, floor, (n - 1) as nat, m);
    }
}

proof fn lemma_band_reaches(line: LineGeom, n: nat, k: int, m: int)
    requires
        0 <= k < n <= line.runs@.len(),
        0 <= m < line.runs@[k].slots@.len(),
    ensures
        line.runs@[k].slots@[m].x <= line.start_x + text_width(line, n),
    decreases n,
{
    if k < n - 1 {
        lemma_band_reaches(line, (n - 1) as nat, k, m);
    } else {
        let slots = line.runs@[k].slots@;
        lemma_reach(slots, line.start_x as int, slots.len(), m);
    }
}

proof fn lemma_band_moderate(line: LineGeom, n: nat)
    requires
        n <= line.runs@.len(),
    ensures
        0 <= text_width(line, n) <= i32::MAX - line.start_x,
    decreases n,
{
    if n > 0 {
        lemma_band_moderate(line, (n - 1) as nat);
        let slots = line.runs@[n - 1].slots@;
        lemma_reach_range(slots, line.start_x as int, slots.len());
    }
}

proof fn lemma_reach_range(slots: Seq<CaretSlot>, floor: int, n: nat)
    requires
        n <= slots.len(),
        floor <= i32::MAX,
    ensures
        floor <= reach(slots, floor, n) <= i32::MAX,
    decreases n,
{
    if n > 0 {
        lemma_reach_range(slots, floor, (n - 1) as nat);
    }
}

/// Every line of a selected cell is highlighted: the cell is listed, with a
/// rectangle that the line's band lies inside.
pub proof fn law_selected_cell_is_highlighted(
    geom: Seq<LineGeom>,
    table: Seq<PathStep>,
    from: (u32, u32),
    to: (u32, u32),
    n: nat,
    i: int,
    row: u32,
    col: u32,
)
    requires
        0 <= i < n <= geom.len(),
        is_prefix(table, geom[i].path@),
        geom[i].path@.len() > table.len(),
        geom[i].path@[table.len() as int] == (PathStep::Cell { row, col }),
        from.0 <= row <= to.0,
        from.1 <= col <= to.1,
    ensures
        ({
            let s = cell_rects(geom, table, from, to, n);
            exists|k: int|
                0 <= k < s.len() && (#[trigger] s[k]).row == row && s[k].col == col && inside(
                    line_band(geom[i]),
                    s[k].rect,
                )
        }),
{
    lemma_cell_holds_its_lines(geom, table, from, to, n, i, row, col);
}

proof fn lemma_cell_holds_its_lines(
    geom: Seq<LineGeom>,
    table: Seq<PathStep>,
    from: (u32, u32),
    to: (u32, u32),
    n: nat,
    i: int,
    row: u32,
    col: u32,
)
    requires
        n <= geom.len(),
    ensures
        ({
            let s = cell_rects(geom, table, from, to, n);
            &&& forall|k: int| 0 <= k < s.len() ==> moderate(#[trigger] s[k].rect)
            &&& 0 <= i < n && cell_in(geom[i].path@, table) == Some((row, col)) && from.0 <= row
                <= to.0 && from.1 <= col <= to.1 ==> exists|k: int|
                0 <= k < s.len() && (#[trigger] s[k]).row == row && s[k].col == col && inside(
                    line_band(geom[i]),
                    s[k].rect,
                )
        }),
    decreases n,
{
    if n > 0 {
        let m = (n - 1) as nat;
        lemma_cell_holds_its_lines(geom, table, from, to, m, i, row, col);
        let acc = cell_rects(geom, table, from, to, m);
        let s = cell_rects(geom, table, from, to, n);
        let line = geom[n - 1];
        lemma_band_moderate(line, line.runs@.len());
        if let Some((r, c)) = cell_in(line.path@, table) {
            let ok = |k: int| acc[k].row == r && acc[k].col == c;
            lemma_scan_range(acc.len(), ok, never());
            if from.0 <= r <= to.0 && from.1 <= c <= to.1 {
                let band = line_band(line);
                match listed_at(acc, r, c) {
                    Some(k) => {
                        assert(ok(k));
                        assert(s[k].rect == hull(acc[k].rect, band));
                        assert(inside(band, s[k].rect));
                        assert(inside(acc[k].rect, s[k].rect));
                        assert forall|j: int| 0 <= j < s.len() implies moderate(
                            #[trigger] s[j].rect,
                        ) by {
                            if j != k {
                                assert(s[j] == acc[j]);
                            }
                        }
                    },
                    None => {
                        let k = acc.len() as int;
                        assert(s[k].rect == band);
                        assert forall|j: int| 0 <= j < s.len() implies moderate(
                            #[trigger] s[j].rect,
                        ) by {
                            if j != k {
                                assert(s[j] == acc[j]);
                            }
                        }
                    },
                }
            }
            if 0 <= i < m && cell_in(geom[i].path@, table) == Some((row, col)) && from.0 <= row
                <= to.0 && from.1 <= col <= to.1 {
                let j = choose|j: int|
                    0 <= j < acc.len() && (#[trigger] acc[j]).row == row && acc[j].col == col
                        && inside(line_band(geom[i]), acc[j].rect);
                assert(s[j].row == row && s[j].col == col);
                assert(inside(line_band(geom[i]), s[j].rect));
            }
        }
    }
}

/// A scan by a strict comparison of keys ends with the first of the smallest.
proof fn lemma_scan_is_first_least(
    n: nat,
    ok: spec_fn(int) -> bool,
    beats: spec_fn(int, int) -> bool,
    key: spec_fn(int) -> int,
    k: int,
)
    requires
        forall|i: int, j: int| #[trigger] beats(i, j) == (key(i) < key(j)),
        0 <= k < n,
        ok(k),
        forall|i: int| 0 <= i < n && #[trigger] ok(i) ==> key(k) <= key(i),
        forall|i: int| 0 <= i < k && #[trigger] ok(i) ==> key(k) < key(i),
    ensures
        scan_pick(n, ok, beats) == Some(k),
{
    lemma_scan_first_least(n, ok, beats, key);
    let b = scan_pick(n, ok, beats)->0;
    assert(ok(b));
    assert(key(b) <= key(k) && key(k) <= key(b));
    if b < k {
        assert(key(k) < key(b));
    }
    if k < b {
        assert(key(b) < key(k));
    }
}

/// Of several slots that are equally near, the first is taken: for a place on
/// the line, and for a byte.
pub proof fn law_first_of_the_nearest(slots: Seq<CaretSlot>, at: int, k: int, fallback: i32)
    requires
        0 <= k < slots.len(),
    ensures
        (forall|i: int|
            0 <= i < slots.len() ==> gap(slots[k].x as int, at) <= gap(
                (#[trigger] slots[i]).x as int,
                at,
            )) && (forall|i: int|
            0 <= i < k ==> gap(slots[k].x as int, at) < gap((#[trigger] slots[i]).x as int, at))
            ==> slot_near_x(slots, at) == Some(slots[k]),
        (forall|i: int|
            0 <= i < slots.len() ==> gap(slots[k].byte as int, at) <= gap(
                (#[trigger] slots[i]).byte as int,
                at,
            )) && (forall|i: int|
            0 <= i < k ==> gap(slots[k].byte as int, at) < gap(
                (#[trigger] slots[i]).byte as int,
                at,
            )) ==> x_near_byte(slots, at, fallback) == slots[k].x,
{
    let by_x = |i: int| gap(slots[i].x as int, at);
    let by_byte = |i: int| gap(slots[i].byte as int, at);
    if (forall|i: int|
        0 <= i < slots.len() ==> gap(slots[k].x as int, at) <= gap(
            (#[trigger] slots[i]).x as int,
            at,
        )) && (forall|i: int|
        0 <= i < k ==> gap(slots[k].x as int, at) < gap((#[trigger] slots[i]).x as int, at)) {
        assert forall|i: int| 0 <= i < slots.len() && #[trigger] any_index()(i) implies by_x(k)
            <= by_x(i) by {
            assert(gap(slots[k].x as int, at) <= gap(slots[i].x as int, at));
        }
        assert forall|i: int| 0 <= i < k && #[trigger] any_index()(i) implies by_x(k) < by_x(i) by {
            assert(gap(slots[k].x as int, at) < gap(slots[i].x as int, at));
        }
        lemma_scan_is_first_least(slots.len(), any_index(), nearer_slot(slots, at), by_x, k);
    }
    if (forall|i: int|
        0 <= i < slots.len() ==> gap(slots[k].byte as int, at) <= gap(
            (#[trigger] slots[i]).byte as int,
            at,
        )) && (forall|i: int|
        0 <= i < k ==> gap(slots[k].byte as int, at) < gap((#[trigger] slots[i]).byte as int, at)) {
        assert forall|i: int| 0 <= i < slots.len() && #[trigger] any_index()(i) implies by_byte(k)
            <= by_byte(i) by {
            assert(gap(slots[k].byte as int, at) <= gap(slots[i].byte as int, at));
        }
        assert forall|i: int| 0 <= i < k && #[trigger] any_index()(i) implies by_byte(k) < by_byte(
            i,
        ) by {
            assert(gap(slots[k].byte as int, at) < gap(slots[i].byte as int, at));
        }
        lemma_scan_is_first_least(slots.len(), any_index(), nearer_byte(slots, at), by_byte, k);
    }
}

/// Of several slots at one place, a step to the right takes the first and a step
/// to the left the last.
pub proof fn law_step_among_slots_at_one_place(slots: Seq<CaretSlot>, x: int, right: bool, k: int)
    requires
        0 <= k < slots.len(),
        right ==> slots[k].x > x + 32 && (forall|i: int|
            0 <= i < slots.len() && (#[trigger] slots[i]).x > x + 32 ==> slots[k].x <= slots[i].x)
            && (forall|i: int| 0 <= i < k ==> (#[trigger] slots[i]).x != slots[k].x),
        !right ==> slots[k].x < x - 32 && (forall|i: int|
            0 <= i < slots.len() && (#[trigger] slots[i]).x < x - 32 ==> slots[i].x <= slots[k].x)
            && (forall|i: int| k < i < slots.len() ==> (#[trigger] slots[i]).x != slots[k].x),
    ensures
        neighbor_byte(slots, x, right) == Some(slots[k].byte),
{
    lemma_step_picks(slots, x, right, slots.len(), k);
}

proof fn lemma_step_picks(slots: Seq<CaretSlot>, x: int, right: bool, n: nat, k: int)
    requires
        0 <= k < n <= slots.len(),
        right ==> slots[k].x > x + 32 && (forall|i: int|
            0 <= i < slots.len() && (#[trigger] slots[i]).x > x + 32 ==> slots[k].x <= slots[i].x)
            && (forall|i: int| 0 <= i < k ==> (#[trigger] slots[i]).x != slots[k].x),
        !right ==> slots[k].x < x - 32 && (forall|i: int|
            0 <= i < slots.len() && (#[trigger] slots[i]).x < x - 32 ==> slots[i].x <= slots[k].x)
            && (forall|i: int| k < i < slots.len() ==> (#[trigger] slots[i]).x != slots[k].x),
    ensures
        scan_pick(n, beyond(slots, x, right), closer_beyond(slots, right)) == Some(k),
    decreases n,
{
    let ok = beyond(slots, x, right);
    let beats = closer_beyond(slots, right);
    lemma_scan_range((n - 1) as nat, ok, beats);
    if k < n - 1 {
        lemma_step_picks(slots, x, right, (n - 1) as nat, k);
        assert(ok(n - 1) == if right {
            slots[n - 1].x > x + 32
        } else {
            slots[n - 1].x < x - 32
        });
    } else {
        assert(ok(k));
    }
}

/// The caret of a position is drawn on its line at the place that its affinity
/// chooses.
pub proof fn law_caret_goes_by_its_affinity(
    geom: Seq<LineGeom>,
    pos: Pos,
    fallback: Rect,
    caret_w: i64,
    affinity: CaretAffinity,
    i: int,
    k: int,
)
    requires
        line_of(geom, pos) == Some(i),
        0 <= k < geom[i].slots@.len(),
        geom[i].slots@[k].byte == pos.offset,
    ensures
        ({
            let r = caret_rect(geom, pos, fallback, caret_w, affinity);
            &&& affinity == CaretAffinity::LeadingX ==> r.x <= geom[i].slots@[k].x
            &&& affinity == CaretAffinity::TrailingX ==> r.x >= geom[i].slots@[k].x
            &&& exists|m: int|
                0 <= m < geom[i].slots@.len() && (#[trigger] geom[i].slots@[m]).byte == pos.offset
                    && r.x == geom[i].slots@[m].x
        }),
{
    law_affinity_picks_side(geom[i], pos.offset, k);
}

/// A highlighted cell has a line, and its rectangle reaches no farther than the
/// bands of its lines: each of its four sides is that of one of them.
pub proof fn law_cell_highlight_is_tight(
    geom: Seq<LineGeom>,
    table: Seq<PathStep>,
    from: (u32, u32),
    to: (u32, u32),
    n: nat,
    k: int,
)
    requires
        n <= geom.len(),
        0 <= k < cell_rects(geom, table, from, to, n).len(),
    ensures
        ({
            let c = cell_rects(geom, table, from, to, n)[k];
            &&& exists|i: int|
                #![trigger geom[i]]
                0 <= i < n && cell_in(geom[i].path@, table) == Some((c.row, c.col)) && line_band(
                    geom[i],
                ).x == c.rect.x
            &&& exists|i: int|
                #![trigger geom[i]]
                0 <= i < n && cell_in(geom[i].path@, table) == Some((c.row, c.col)) && line_band(
                    geom[i],
                ).y == c.rect.y
            &&& exists|i: int|
                #![trigger geom[i]]
                0 <= i < n && cell_in(geom[i].path@, table) == Some((c.row, c.col)) && line_band(
                    geom[i],
                ).x + line_band(geom[i]).w == c.rect.x + c.rect.w
            &&& exists|i: int|
                #![trigger geom[i]]
                0 <= i < n && cell_in(geom[i].path@, table) == Some((c.row, c.col)) && line_band(
                    geom[i],
                ).y + line_band(geom[i]).h == c.rect.y + c.rect.h
        }),
    decreases n,
{
    if n > 0 {
        let m = (n - 1) as nat;
        let acc = cell_rects(geom, table, from, to, m);
        let s = cell_rects(geom, table, from, to, n);
        let line = geom[n - 1];
        lemma_band_moderate(line, line.runs@.len());
        lemma_cell_holds_its_lines(geom, table, from, to, m, 0, 0, 0);
        let changed = match cell_in(line.path@, table) {
            Some((r, c)) => if from.0 <= r <= to.0 && from.1 <= c <= to.1 {
                match listed_at(acc, r, c) {
                    Some(j) => j,
                    None => acc.len() as int,
                }
            } else {
                -1
            },
            None => -1,
        };
        if let Some((r, c)) = cell_in(line.path@, table) {
            let ok = |i: int| acc[i].row == r && acc[i].col == c;
            lemma_scan_range(acc.len(), ok, never());
        }
        if k != changed {
            assert(s[k] == acc[k]);
            law_cell_highlight_is_tight(geom, table, from, to, m, k);
        } else {
            let (r, c) = cell_in(line.path@, table)->0;
            assert(geom[n - 1] == line);
            match listed_at(acc, r, c) {
                Some(j) => {
                    let ok = |i: int| acc[i].row == r && acc[i].col == c;
                    assert(ok(j));
                    law_cell_highlight_is_tight(geom, table, from, to, m, j);
                    assert(s[k].rect == hull(acc[j].rect, line_band(line)));
                    assert(moderate(acc[j].rect));
                },
                None => {
                    assert(s[k].rect == line_band(line));
                },
            }
        }
    }
}

} // verus!
