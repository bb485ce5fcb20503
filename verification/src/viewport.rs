//! How much of the document is laid out: the visible band, the height that a
//! partial layout has to reach, and the height that the scroll bar shows.
//!
//! Heights are in layout units, [`UNITS_PER_PX`] to a point.

use crate::boxes::{LayoutBlock, LineBox, PageBox, ParagraphBox};
use crate::common::Rect;
use crate::dispatch::{Real, ONE_BITS};
use crate::paging::{height_so_far, measurable, measure_pages, LazyLayoutInfo};
use vstd::prelude::*;

verus! {

/// How far below the height asked for a partial layout goes.
pub const LAYOUT_BUFFER: i64 = 76_800;

/// The height that a layout reaches before any other was asked for.
pub const INITIAL_BUDGET: i64 = 107_776;

/// The height, in points, that a block not laid out yet is taken to have.
pub const AVG_BLOCK_HEIGHT_PT: u32 = 64;

/// The visible band and the height that the next layout has to reach.
#[derive(Debug, Clone, Copy, PartialEq, Eq, Structural)]
pub struct LazyLayoutState {
    pub viewport_y: i64,
    pub viewport_h: i64,
    pub min_target_y: i64,
}

impl Default for LazyLayoutState {
    /// The state before a viewport is known.
    fn default() -> (r: Self)
        ensures
            r == (LazyLayoutState {
                viewport_y: 0,
                viewport_h: INITIAL_BUDGET,
                min_target_y: INITIAL_BUDGET,
            }),
            r.wf(),
    {
        LazyLayoutState {
            viewport_y: 0,
            viewport_h: INITIAL_BUDGET,
            min_target_y: INITIAL_BUDGET,
        }
    }
}

/// The larger of two heights.
pub open spec fn larger(a: i64, b: i64) -> i64 {
    if b > a {
        b
    } else {
        a
    }
}

impl LazyLayoutState {
    /// The height asked for never falls below the one that every layout reaches.
    pub open spec fn wf(self) -> bool {
        self.min_target_y >= INITIAL_BUDGET
    }

    /// Note an edit: the next layout need not reach further than a first one.
    pub fn edited(&mut self)
        ensures
            *final(self) == (LazyLayoutState { min_target_y: INITIAL_BUDGET, ..*old(self) }),
            final(self).wf(),
    {
        self.min_target_y = INITIAL_BUDGET;
    }

    /// Ask for a layout down to `target`. This never lowers the height asked for.
    pub fn bump(&mut self, target: i64)
        ensures
            *final(self) == (LazyLayoutState {
                min_target_y: larger(old(self).min_target_y, target),
                ..*old(self)
            }),
            final(self).min_target_y >= old(self).min_target_y,
            final(self).min_target_y >= target,
            old(self).wf() ==> final(self).wf(),
    {
        if target > self.min_target_y {
            self.min_target_y = target;
        }
    }

    /// Note the visible band, and ask for a layout down to its lower edge.
    pub fn set_viewport(&mut self, y: i64, h: i64)
        requires
            i64::MIN <= y + h <= i64::MAX,
        ensures
            *final(self) == (LazyLayoutState {
                viewport_y: y,
                viewport_h: h,
                min_target_y: larger(old(self).min_target_y, (y + h) as i64),
            }),
            final(self).min_target_y >= old(self).min_target_y,
            final(self).min_target_y >= y + h,
            old(self).wf() ==> final(self).wf(),
    {
        self.viewport_y = y;
        self.viewport_h = h;
        self.bump(y + h);
    }
}

/// How large the document is shown: the scale of the display times the zoom of
/// the user. What is asked for before the first layout is kept for it.
#[derive(Debug, Clone, Copy, PartialEq, Eq, Structural)]
pub struct DisplayScale {
    pub device: Real,
    pub zoom: Real,
    pub queued_device: Option<Real>,
    pub queued_zoom: Option<Real>,
}

/// A number that was asked for, else another.
pub open spec fn asked_or(asked: Option<Real>, other: Real) -> Real {
    match asked {
        Some(x) => x,
        None => other,
    }
}

fn pick_asked(asked: Option<Real>, other: Real) -> (r: Real)
    ensures
        r == asked_or(asked, other),
{
    match asked {
        Some(x) => x,
        None => other,
    }
}

/// The scales after the first layout, or a new one, on a display of scale
/// `device`.
pub open spec fn laid_out(s: DisplayScale, device: Real) -> DisplayScale {
    DisplayScale {
        device: asked_or(s.queued_device, device),
        zoom: asked_or(s.queued_zoom, Real { bits: ONE_BITS }),
        queued_device: None,
        queued_zoom: None,
    }
}

impl DisplayScale {
    /// Everything at its natural size.
    pub fn new() -> (r: Self)
        ensures
            r.device.bits == ONE_BITS,
            r.zoom.bits == ONE_BITS,
            r.queued_device is None,
            r.queued_zoom is None,
    {
        let one = Real { bits: ONE_BITS };
        DisplayScale { device: one, zoom: one, queued_device: None, queued_zoom: None }
    }

    /// Keep a zoom for the first layout.
    pub fn queue_zoom(&mut self, zoom: Real)
        ensures
            *final(self) == (DisplayScale { queued_zoom: Some(zoom), ..*old(self) }),
    {
        self.queued_zoom = Some(zoom);
    }

    /// Keep the scale of the display for the first layout.
    pub fn queue_device(&mut self, device: Real)
        ensures
            *final(self) == (DisplayScale { queued_device: Some(device), ..*old(self) }),
    {
        self.queued_device = Some(device);
    }

    /// The zoom that waits for the first layout, and the scale of the display
    /// where one waits.
    pub fn pending(&self) -> (r: (Real, Option<Real>))
        ensures
            r == (asked_or(self.queued_zoom, Real { bits: ONE_BITS }), self.queued_device),
    {
        (pick_asked(self.queued_zoom, Real { bits: ONE_BITS }), self.queued_device)
    }

    /// Set the zoom. The scale of the display stays.
    pub fn set_zoom(&mut self, zoom: Real)
        ensures
            *final(self) == (DisplayScale { zoom, ..*old(self) }),
    {
        self.zoom = zoom;
    }

    /// Set the scale of the display. The zoom stays.
    pub fn set_device(&mut self, device: Real)
        ensures
            *final(self) == (DisplayScale { device, ..*old(self) }),
    {
        self.device = device;
    }

    /// Begin a layout on a display of scale `device`.
    pub fn begin(&mut self, device: Real)
        ensures
            *final(self) == laid_out(*old(self), device),
    {
        let one = Real { bits: ONE_BITS };
        *self = DisplayScale {
            device: pick_asked(self.queued_device, device),
            zoom: pick_asked(self.queued_zoom, one),
            queued_device: None,
            queued_zoom: None,
        };
    }
}

/// A zoom and a scale of the display that were asked for before the first layout
/// are in force after it, in whichever order they were asked for, and nothing of
/// them is left for a later one.
pub proof fn law_queued_scales_come_into_force(
    s: DisplayScale,
    zoom: Real,
    device: Real,
    ratio: Real,
)
    ensures
        ({
            let waiting = DisplayScale {
                queued_zoom: Some(zoom),
                queued_device: Some(device),
                ..s
            };
            let now = laid_out(waiting, ratio);
            now.zoom == zoom && now.device == device && now.queued_zoom is None
                && now.queued_device is None
        }),
        laid_out(laid_out(s, ratio), ratio).device == ratio,
{
}

/// The height at which a layout asked to reach `target` may stop.
pub open spec fn budget_for(target: Option<i64>) -> Option<i64> {
    match target {
        Some(y) => Some((y + LAYOUT_BUFFER) as i64),
        None => None,
    }
}

/// The height at which a layout asked to reach `target` may stop.
pub fn cull_budget(target: Option<i64>) -> (r: Option<i64>)
    requires
        target is Some ==> target->0 + LAYOUT_BUFFER <= i64::MAX,
    ensures
        r == budget_for(target),
{
    match target {
        Some(y) => Some(y + LAYOUT_BUFFER),
        None => None,
    }
}

/// The height that the scroll bar shows for `height` of pages, at `unit` layout
/// units to a point: blocks not laid out yet count with the height they are
/// taken to have.
pub open spec fn estimated(height: int, info: LazyLayoutInfo, unit: u32) -> int {
    if info.is_full_layout {
        height
    } else {
        height + info.remaining_blocks * AVG_BLOCK_HEIGHT_PT * unit
    }
}

/// The height that the scroll bar shows.
pub fn estimated_height(height: i64, info: LazyLayoutInfo, unit: u32) -> (r: i128)
    ensures
        r == estimated(height as int, info, unit),
{
    if info.is_full_layout {
        height as i128
    } else {
        let n: u64 = info.remaining_blocks as u64 * AVG_BLOCK_HEIGHT_PT as u64;
        assert(info.remaining_blocks * AVG_BLOCK_HEIGHT_PT <= u32::MAX * 64) by (nonlinear_arith)
            requires
                info.remaining_blocks <= u32::MAX,
                AVG_BLOCK_HEIGHT_PT == 64,
        ;
        assert(0 <= n * unit <= u32::MAX * 64 * u32::MAX) by (nonlinear_arith)
            requires
                0 <= n <= u32::MAX * 64,
                0 <= unit <= u32::MAX,
        ;
        height as i128 + n as i128 * unit as i128
    }
}

/// The scroll bar never shows less than what is laid out, and shows exactly
/// that once everything is.
pub proof fn law_estimate_covers_the_pages(height: int, info: LazyLayoutInfo, unit: u32)
    ensures
        estimated(height, info, unit) >= height,
        info.is_full_layout ==> estimated(height, info, unit) == height,
{
    assert(info.remaining_blocks * AVG_BLOCK_HEIGHT_PT * unit >= 0) by (nonlinear_arith)
        requires
            info.remaining_blocks >= 0,
            AVG_BLOCK_HEIGHT_PT == 64,
            unit >= 0,
    ;
}

/// The scroll bar's height does not grow when one more block is laid out at no
/// more than the height it was taken to have.
pub proof fn law_estimate_shrinks(height: int, block: int, remaining: u32, unit: u32)
    requires
        remaining > 0,
        block <= AVG_BLOCK_HEIGHT_PT * unit,
    ensures
        estimated(
            height + block,
            (LazyLayoutInfo {
                is_full_layout: false,
                remaining_blocks: (remaining - 1) as u32,
            }),
            unit,
        ) <= estimated(
            height,
            (LazyLayoutInfo { is_full_layout: false, remaining_blocks: remaining }),
            unit,
        ),
{
    assert((remaining - 1) * 64 * unit + 64 * unit == remaining * 64 * unit) by (nonlinear_arith);
}

/// The part of the document to repaint: the one named, else what has changed,
/// else what is visible.
pub open spec fn region(named: Option<Rect>, changed: Option<Rect>, visible: Rect) -> Rect {
    match (named, changed) {
        (Some(r), _) => r,
        (None, Some(r)) => r,
        (None, None) => visible,
    }
}

/// The part of the document to repaint.
pub fn paint_region(named: Option<Rect>, changed: Option<Rect>, visible: Rect) -> (r: Rect)
    ensures
        r == region(named, changed, visible),
{
    match (named, changed) {
        (Some(r), _) => r,
        (None, Some(r)) => r,
        (None, None) => visible,
    }
}

/// The number of glyphs in the first `n` runs of a line.
pub open spec fn line_glyphs(line: LineBox, n: nat) -> nat
    decreases n,
{
    if n == 0 {
        0
    } else {
        line_glyphs(line, (n - 1) as nat) + line.runs@[n - 1].glyphs@.len()
    }
}

/// The number of glyphs in the first `n` lines of a paragraph.
pub open spec fn para_glyphs(p: ParagraphBox, n: nat) -> nat
    decreases n,
{
    if n == 0 {
        0
    } else {
        para_glyphs(p, (n - 1) as nat) + line_glyphs(p.lines@[n - 1], p.lines@[n - 1].runs@.len())
    }
}

/// The lines and glyphs of the paragraphs among the first `n` blocks. Tables do
/// not count.
pub open spec fn block_counts(blocks: Seq<LayoutBlock>, n: nat) -> (nat, nat)
    decreases n,
{
    if n == 0 {
        (0, 0)
    } else {
        let (lines, glyphs) = block_counts(blocks, (n - 1) as nat);
        match blocks[n - 1] {
            LayoutBlock::Paragraph(p) => (
                lines + p.lines@.len(),
                glyphs + para_glyphs(p, p.lines@.len()),
            ),
            LayoutBlock::Table(_) => (lines, glyphs),
        }
    }
}

/// The lines and glyphs of the first `n` pages.
pub open spec fn page_counts(pages: Seq<PageBox>, n: nat) -> (nat, nat)
    decreases n,
{
    if n == 0 {
        (0, 0)
    } else {
        let (lines, glyphs) = page_counts(pages, (n - 1) as nat);
        let (l, g) = block_counts(pages[n - 1].blocks@, pages[n - 1].blocks@.len());
        (lines + l, glyphs + g)
    }
}

proof fn lemma_block_counts_grow(blocks: Seq<LayoutBlock>, m: nat, n: nat)
    requires
        m <= n,
    ensures
        block_counts(blocks, m).0 <= block_counts(blocks, n).0,
        block_counts(blocks, m).1 <= block_counts(blocks, n).1,
    decreases n,
{
    if m < n {
        lemma_block_counts_grow(blocks, m, (n - 1) as nat);
    }
}

proof fn lemma_page_counts_grow(pages: Seq<PageBox>, m: nat, n: nat)
    requires
        m <= n,
    ensures
        page_counts(pages, m).0 <= page_counts(pages, n).0,
        page_counts(pages, m).1 <= page_counts(pages, n).1,
    decreases n,
{
    if m < n {
        lemma_page_counts_grow(pages, m, (n - 1) as nat);
    }
}

proof fn lemma_para_glyphs_grow(p: ParagraphBox, m: nat, n: nat)
    requires
        m <= n,
    ensures
        para_glyphs(p, m) <= para_glyphs(p, n),
    decreases n,
{
    if m < n {
        lemma_para_glyphs_grow(p, m, (n - 1) as nat);
    }
}

proof fn lemma_line_glyphs_grow(line: LineBox, m: nat, n: nat)
    requires
        m <= n,
    ensures
        line_glyphs(line, m) <= line_glyphs(line, n),
    decreases n,
{
    if m < n {
        lemma_line_glyphs_grow(line, m, (n - 1) as nat);
    }
}

fn count_line(line: &LineBox) -> (r: u32)
    requires
        line_glyphs(*line, line.runs@.len()) <= u32::MAX,
    ensures
        r == line_glyphs(*line, line.runs@.len()),
{
    let mut sum: u32 = 0;
    let mut i: usize = 0;
    while i < line.runs.len()
        invariant
            i <= line.runs@.len(),
            line_glyphs(*line, line.runs@.len()) <= u32::MAX,
            sum == line_glyphs(*line, i as nat),
        decreases line.runs.len() - i,
    {
        proof {
            lemma_line_glyphs_grow(*line, (i + 1) as nat, line.runs@.len());
        }
        assert(line_glyphs(*line, (i + 1) as nat) == sum + line.runs@[i as int].glyphs@.len());
        sum += line.runs[i].glyphs.len() as u32;
        i += 1;
    }
    sum
}

fn count_para(p: &ParagraphBox) -> (r: u32)
    requires
        para_glyphs(*p, p.lines@.len()) <= u32::MAX,
    ensures
        r == para_glyphs(*p, p.lines@.len()),
{
    let mut sum: u32 = 0;
    let mut i: usize = 0;
    while i < p.lines.len()
        invariant
            i <= p.lines@.len(),
            para_glyphs(*p, p.lines@.len()) <= u32::MAX,
            sum == para_glyphs(*p, i as nat),
        decreases p.lines.len() - i,
    {
        proof {
            lemma_para_glyphs_grow(*p, (i + 1) as nat, p.lines@.len());
        }
        assert(para_glyphs(*p, (i + 1) as nat) == sum + line_glyphs(
            p.lines@[i as int],
            p.lines@[i as int].runs@.len(),
        ));
        sum += count_line(&p.lines[i]);
        i += 1;
    }
    sum
}

fn count_blocks(blocks: &Vec<LayoutBlock>) -> (r: (u32, u32))
    requires
        block_counts(blocks@, blocks@.len()).0 <= u32::MAX,
        block_counts(blocks@, blocks@.len()).1 <= u32::MAX,
    ensures
        r.0 == block_counts(blocks@, blocks@.len()).0,
        r.1 == block_counts(blocks@, blocks@.len()).1,
{
    let mut lines: u32 = 0;
    let mut glyphs: u32 = 0;
    let mut i: usize = 0;
    while i < blocks.len()
        invariant
            i <= blocks@.len(),
            block_counts(blocks@, blocks@.len()).0 <= u32::MAX,
            block_counts(blocks@, blocks@.len()).1 <= u32::MAX,
            lines == block_counts(blocks@, i as nat).0,
            glyphs == block_counts(blocks@, i as nat).1,
        decreases blocks.len() - i,
    {
        proof {
            lemma_block_counts_grow(blocks@, (i + 1) as nat, blocks@.len());
        }
        match &blocks[i] {
            LayoutBlock::Paragraph(p) => {
                assert(block_counts(blocks@, (i + 1) as nat) == (
                    (lines + p.lines@.len()) as nat,
                    (glyphs + para_glyphs(*p, p.lines@.len())) as nat,
                ));
                lines += p.lines.len() as u32;
                glyphs += count_para(p);
            },
            LayoutBlock::Table(_) => {},
        }
        i += 1;
    }
    (lines, glyphs)
}

/// The figures of one paint.
#[derive(Debug, Clone, Copy, PartialEq, Eq, Structural)]
pub struct RenderStats {
    pub page_width: i32,
    pub page_height: i32,
    pub line_count: u32,
    pub glyph_count: u32,
    pub document_height: i128,
    pub is_full_layout: bool,
    pub estimated_document_height: i128,
    pub page_count: u32,
}

/// The heights of pages.
pub open spec fn heights_of(pages: Seq<PageBox>) -> Seq<i64> {
    pages.map_values(|p: PageBox| p.height as i64)
}

/// The figures of a paint of `pages`. The first page gives the page size.
pub open spec fn stats_of(
    pages: Seq<PageBox>,
    page_gap: i64,
    info: LazyLayoutInfo,
    unit: u32,
) -> RenderStats {
    let height = height_so_far(heights_of(pages), page_gap as int, 0);
    let (lines, glyphs) = page_counts(pages, pages.len());
    RenderStats {
        page_width: if pages.len() > 0 {
            pages[0].width
        } else {
            0
        },
        page_height: if pages.len() > 0 {
            pages[0].height
        } else {
            0
        },
        line_count: lines as u32,
        glyph_count: glyphs as u32,
        document_height: height as i128,
        is_full_layout: info.is_full_layout,
        estimated_document_height: estimated(height, info, unit) as i128,
        page_count: pages.len() as u32,
    }
}

/// The figures of a paint of `pages`.
pub fn render_stats(pages: &Vec<PageBox>, page_gap: i64, info: LazyLayoutInfo, unit: u32) -> (r: RenderStats)
    requires
        measurable(heights_of(pages@), page_gap),
        page_counts(pages@, pages@.len()).0 <= u32::MAX,
        page_counts(pages@, pages@.len()).1 <= u32::MAX,
    ensures
        r == stats_of(pages@, page_gap, info, unit),
        pages@.len() >= 1 ==> r.page_count >= 1 && r.estimated_document_height
            >= r.document_height,
        pages@.len() >= 1 && r.is_full_layout ==> r.estimated_document_height == r.document_height,
{
    let mut heights: Vec<i64> = Vec::new();
    let mut lines: u32 = 0;
    let mut glyphs: u32 = 0;
    let mut i: usize = 0;
    while i < pages.len()
        invariant
            i <= pages@.len(),
            page_counts(pages@, pages@.len()).0 <= u32::MAX,
            page_counts(pages@, pages@.len()).1 <= u32::MAX,
            lines == page_counts(pages@, i as nat).0,
            glyphs == page_counts(pages@, i as nat).1,
            heights@ == heights_of(pages@).take(i as int),
        decreases pages.len() - i,
    {
        proof {
            lemma_page_counts_grow(pages@, (i + 1) as nat, pages@.len());
        }
        let ghost now = block_counts(pages@[i as int].blocks@, pages@[i as int].blocks@.len());
        assert(page_counts(pages@, (i + 1) as nat) == (
            (lines + now.0) as nat,
            (glyphs + now.1) as nat,
        ));
        let (l, g): (u32, u32) = count_blocks(&pages[i].blocks);
        lines += l;
        glyphs += g;
        heights.push(pages[i].height as i64);
        i += 1;
        assert(heights@ =~= heights_of(pages@).take(i as int));
    }
    assert(heights@ =~= heights_of(pages@));
    let height: i128 = measure_pages(&heights, page_gap, 0);
    proof {
        crate::paging::lemma_stacked_bounds(heights@, page_gap, heights@.len());
        if pages@.len() >= 1 {
            law_a_paint_shows_a_page(pages@, page_gap, info, unit);
        }
    }
    let estimate: i128 = estimated_height(height as i64, info, unit);
    RenderStats {
        page_width: if pages.len() > 0 {
            pages[0].width
        } else {
            0
        },
        page_height: if pages.len() > 0 {
            pages[0].height
        } else {
            0
        },
        line_count: lines,
        glyph_count: glyphs,
        document_height: height,
        is_full_layout: info.is_full_layout,
        estimated_document_height: estimate,
        page_count: pages.len() as u32,
    }
}

/// A paint shows at least one page, and a document that is laid out in part
/// never shows less height than its pages have.
pub proof fn law_a_paint_shows_a_page(
    pages: Seq<PageBox>,
    page_gap: i64,
    info: LazyLayoutInfo,
    unit: u32,
)
    requires
        pages.len() >= 1,
        measurable(heights_of(pages), page_gap),
    ensures
        ({
            let s = stats_of(pages, page_gap, info, unit);
            &&& s.page_count >= 1
            &&& s.page_count == pages.len()
            &&& s.page_width == pages[0].width && s.page_height == pages[0].height
            &&& s.estimated_document_height >= s.document_height
            &&& s.is_full_layout ==> s.estimated_document_height == s.document_height
        }),
{
    let heights = heights_of(pages);
    assert(heights.len() == pages.len());
    crate::paging::lemma_stacked_bounds(heights, page_gap, heights.len());
    let height = height_so_far(heights, page_gap as int, 0);
    assert(0 <= height <= 0x1000_0000 * 0x2_0000_0000);
    law_estimate_covers_the_pages(height, info, unit);
    assert(info.remaining_blocks * AVG_BLOCK_HEIGHT_PT * unit <= u32::MAX * 64 * u32::MAX)
        by (nonlinear_arith)
        requires
            0 <= info.remaining_blocks <= u32::MAX,
            AVG_BLOCK_HEIGHT_PT == 64,
            0 <= unit <= u32::MAX,
    ;
}

/// The figures of the last paint that succeeded.
#[derive(Debug, Clone, Copy, PartialEq, Eq, Structural)]
pub struct LastPaintDims {
    pub document_height: i128,
    pub page_count: u32,
    pub estimated_document_height: i128,
    pub is_full_layout: bool,
}

/// The figures that are kept of a paint.
pub open spec fn dims_of(s: RenderStats) -> LastPaintDims {
    LastPaintDims {
        document_height: s.document_height,
        page_count: s.page_count,
        estimated_document_height: s.estimated_document_height,
        is_full_layout: s.is_full_layout,
    }
}

impl Default for LastPaintDims {
    /// The figures before the first paint.
    fn default() -> (r: Self)
        ensures
            r == (LastPaintDims {
                document_height: 0,
                page_count: 0,
                estimated_document_height: 0,
                is_full_layout: false,
            }),
    {
        LastPaintDims {
            document_height: 0,
            page_count: 0,
            estimated_document_height: 0,
            is_full_layout: false,
        }
    }
}

impl LastPaintDims {
    /// Note a paint. One that failed has no figures and leaves those of the last
    /// one that succeeded.
    pub fn painted(&mut self, outcome: Option<RenderStats>)
        ensures
            *final(self) == (match outcome {
                Some(s) => dims_of(s),
                None => *old(self),
            }),
    {
        if let Some(s) = outcome {
            *self = LastPaintDims {
                document_height: s.document_height,
                page_count: s.page_count,
                estimated_document_height: s.estimated_document_height,
                is_full_layout: s.is_full_layout,
            };
        }
    }
}

/// Keep `value` as the entry for page `idx` of a list that grows as needed.
pub open spec fn with_entry(entries: Seq<Option<u32>>, idx: u32, value: u32) -> Seq<Option<u32>> {
    Seq::new(
        if idx < entries.len() {
            entries.len()
        } else {
            idx as nat + 1
        },
        |i: int|
            if i == idx {
                Some(value)
            } else if i < entries.len() {
                entries[i]
            } else {
                None
            },
    )
}

/// Register drawing surface `value` for page `idx`. Pages up to it that have no
/// surface yet get an empty entry.
pub fn set_page_canvas(surfaces: &mut Vec<Option<u32>>, idx: u32, value: u32)
    ensures
        final(surfaces)@ == with_entry(old(surfaces)@, idx, value),
{
    let ghost before = surfaces@;
    let target: usize = idx as usize;
    while surfaces.len() <= target
        invariant
            before.len() <= surfaces@.len(),
            surfaces@.len() <= target + 1 || surfaces@.len() == before.len(),
            forall|i: int| 0 <= i < before.len() ==> surfaces@[i] == before[i],
            forall|i: int| before.len() <= i < surfaces@.len() ==> surfaces@[i] is None,
        decreases target + 1 - surfaces.len(),
    {
        surfaces.push(None);
    }
    surfaces.set(target, Some(value));
    assert(surfaces@ =~= with_entry(before, idx, value));
}

/// What is painted is the part named, else what has changed, else what is
/// visible.
pub proof fn law_named_part_is_painted(named: Option<Rect>, changed: Option<Rect>, visible: Rect)
    ensures
        named is Some ==> region(named, changed, visible) == named->0,
        named is None && changed is Some ==> region(named, changed, visible) == changed->0,
        named is None && changed is None ==> region(named, changed, visible) == visible,
{
}

/// Each block that is not laid out yet counts as sixty-four points.
pub proof fn law_estimate_counts_the_blocks(height: int, remaining: u32, unit: u32)
    ensures
        estimated(
            height,
            (LazyLayoutInfo { is_full_layout: false, remaining_blocks: remaining }),
            unit,
        ) == height + remaining * 64 * unit,
{
}

/// A layout may stop twelve hundred pixels below the height that it is asked to
/// reach, and never where it is asked for all.
pub proof fn law_layout_reaches_past_its_target(target: i64)
    requires
        target + 76_800 <= i64::MAX,
    ensures
        budget_for(Some(target)) == Some((target + 1200 * 64) as i64),
        budget_for(None) is None,
{
}

/// What a paint reports: the first page's size, the number of pages and the
/// height of the stack of them.
pub proof fn law_figures_of_a_paint(
    pages: Seq<PageBox>,
    page_gap: i64,
    info: LazyLayoutInfo,
    unit: u32,
)
    requires
        0 < pages.len() <= u32::MAX,
    ensures
        ({
            let s = stats_of(pages, page_gap, info, unit);
            &&& s.page_width == pages[0].width
            &&& s.page_height == pages[0].height
            &&& s.page_count == pages.len()
            &&& s.is_full_layout == info.is_full_layout
            &&& s.line_count == page_counts(pages, pages.len()).0 as u32
            &&& s.glyph_count == page_counts(pages, pages.len()).1 as u32
            &&& dims_of(s).document_height == s.document_height
            &&& dims_of(s).page_count == s.page_count
            &&& dims_of(s).estimated_document_height == s.estimated_document_height
            &&& dims_of(s).is_full_layout == s.is_full_layout
        }),
{
}

/// Lines and glyphs are counted over every paragraph that a page shows, and
/// not over its tables: a page more adds those of its paragraphs.
pub proof fn law_counts_add_up(blocks: Seq<LayoutBlock>, n: nat)
    requires
        n < blocks.len(),
    ensures
        block_counts(blocks, 0) == (0nat, 0nat),
        blocks[n as int] is Table ==> block_counts(blocks, n + 1) == block_counts(blocks, n),
        blocks[n as int] matches LayoutBlock::Paragraph(p) ==> block_counts(blocks, n + 1).0
            == block_counts(blocks, n).0 + p.lines@.len() && block_counts(blocks, n + 1).1
            == block_counts(blocks, n).1 + para_glyphs(p, p.lines@.len()),
{
}

/// Keeping an entry for a page keeps it under that page, leaves the others as
/// they were, and fills up with nothing.
pub proof fn law_entry_is_kept(entries: Seq<Option<u32>>, idx: u32, value: u32)
    ensures
        ({
            let r = with_entry(entries, idx, value);
            &&& r.len() >= entries.len() && idx < r.len()
            &&& r[idx as int] == Some(value)
            &&& forall|i: int| 0 <= i < entries.len() && i != idx ==> r[i] == #[trigger] entries[i]
            &&& forall|i: int| entries.len() <= i < r.len() && i != idx ==> #[trigger] r[i] is None
        }),
{
}

/// Glyphs are counted run by run and line by line, and pages add up.
pub proof fn law_glyphs_add_up(line: LineBox, p: ParagraphBox, pages: Seq<PageBox>, n: nat)
    ensures
        line_glyphs(line, 0) == 0 && para_glyphs(p, 0) == 0 && page_counts(pages, 0) == (0nat, 0nat),
        n < line.runs@.len() ==> line_glyphs(line, n + 1) == line_glyphs(line, n)
            + line.runs@[n as int].glyphs@.len(),
        n < p.lines@.len() ==> para_glyphs(p, n + 1) == para_glyphs(p, n) + line_glyphs(
            p.lines@[n as int],
            p.lines@[n as int].runs@.len(),
        ),
        n < pages.len() ==> ({
            let more = block_counts(pages[n as int].blocks@, pages[n as int].blocks@.len());
            page_counts(pages, n + 1) == (
                page_counts(pages, n).0 + more.0,
                page_counts(pages, n).1 + more.1,
            )
        }),
{
}

} // verus!
