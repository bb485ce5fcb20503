//! Flowing blocks onto pages: which section opens when, which block is placed
//! next, where a partial layout stops, and which blocks each page shows.
//!
//! The pages themselves are filled elsewhere. [`Pager::next`] names the next
//! piece of work; the methods after it record what came of it.

use crate::common::{BlockPath, PathStep};
use crate::document::paths_view;
use crate::text::same_text;
use vstd::prelude::*;

verus! {

broadcast use vstd::seq_lib::group_seq_properties;

/// The blocks that one section covers. A continuous section goes on where the
/// one before it stopped.
#[derive(Debug, Clone, Copy, PartialEq, Eq, Structural)]
pub struct SectionSpan {
    pub start: u32,
    pub end: u32,
    pub continuous: bool,
}

/// The next piece of work of a layout.
#[derive(Debug, Clone, Copy, PartialEq, Eq, Structural)]
pub enum PageAction {
    /// Close the pages in progress and hand over their heights.
    FinishPages,
    /// Start new pages with this section's geometry. `page_offset` pages come
    /// before them.
    OpenSection { section: usize, page_offset: usize },
    /// Change to this section's geometry on the page in progress.
    ContinueSection { section: usize, page_offset: usize },
    /// Lay out a block. Its first paragraph has the number `para_id`.
    PlaceBlock { block: u32, para_id: u32 },
    /// Add one blank page and hand over its height, as no page was finished.
    BlankPage,
    /// The layout is complete.
    Done,
}

/// Why no layout can start.
#[derive(Debug, Clone, Copy, PartialEq, Eq, Structural)]
pub enum LayoutError {
    /// Nothing has been configured yet.
    NoConfig,
    /// The configured font has not been loaded.
    FontMissing,
}

/// A font has been loaded.
pub open spec fn is_loaded(loaded: Seq<String>, font: Seq<char>) -> bool {
    exists|i: int| 0 <= i < loaded.len() && (#[trigger] loaded[i])@ == font
}

/// Whether a layout can start: it needs a configuration, and that one's font.
pub fn check_layout(font: &Option<String>, loaded: &Vec<String>) -> (r: Result<(), LayoutError>)
    ensures
        r == (match *font {
            None => Err(LayoutError::NoConfig),
            Some(f) => if is_loaded(loaded@, f@) {
                Ok(())
            } else {
                Err(LayoutError::FontMissing)
            },
        }),
{
    let f: &String = match font {
        Some(f) => f,
        None => return Err(LayoutError::NoConfig),
    };
    let mut i: usize = 0;
    while i < loaded.len()
        invariant
            i <= loaded@.len(),
            *font == Some(*f),
            forall|j: int| 0 <= j < i ==> (#[trigger] loaded@[j])@ != f@,
        decreases loaded.len() - i,
    {
        if same_text(loaded[i].as_str(), f.as_str()) {
            assert(loaded@[i as int]@ == f@);
            return Ok(());
        }
        i += 1;
    }
    Err(LayoutError::FontMissing)
}

/// Where a layout stands.
pub ghost struct Flow {
    pub section: nat,
    pub entered: bool,
    pub block: u32,
    pub open: bool,
    pub culled: bool,
    pub para_id: u32,
    pub processed: u32,
    /// The blocks on each page in progress.
    pub page_blocks: Seq<Seq<u32>>,
    /// The heights of the finished pages, and the blocks on each.
    pub heights: Seq<i64>,
    pub blocks: Seq<Seq<u32>>,
}

/// Where a layout stands.
pub struct Pager {
    pub section: usize,
    pub entered: bool,
    pub block: u32,
    pub open: bool,
    pub culled: bool,
    pub para_id: u32,
    pub processed: u32,
    pub page_blocks: Vec<Vec<u32>>,
    pub heights: Vec<i64>,
    pub blocks: Vec<Vec<u32>>,
}

/// Lists of lists by their contents.
pub open spec fn lists(s: Seq<Vec<u32>>) -> Seq<Seq<u32>> {
    s.map_values(|v: Vec<u32>| v@)
}

impl View for Pager {
    type V = Flow;

    open spec fn view(&self) -> Flow {
        Flow {
            section: self.section as nat,
            entered: self.entered,
            block: self.block,
            open: self.open,
            culled: self.culled,
            para_id: self.para_id,
            processed: self.processed,
            page_blocks: lists(self.page_blocks@),
            heights: self.heights@,
            blocks: lists(self.blocks@),
        }
    }
}

/// The state before any work.
pub open spec fn start_flow() -> Flow {
    Flow {
        section: 0,
        entered: false,
        block: 0,
        open: false,
        culled: false,
        para_id: 0,
        processed: 0,
        page_blocks: Seq::empty(),
        heights: Seq::empty(),
        blocks: Seq::empty(),
    }
}

/// The sum of the first `n` heights, a gap after each.
pub open spec fn stacked(heights: Seq<i64>, page_gap: int, n: nat) -> int
    decreases n,
{
    if n == 0 {
        0
    } else {
        stacked(heights, page_gap, (n - 1) as nat) + heights[n - 1] + page_gap
    }
}

/// The height of finished pages and of `in_progress` more, with a gap between
/// every two pages.
pub open spec fn height_so_far(heights: Seq<i64>, page_gap: int, in_progress: int) -> int {
    if heights.len() == 0 {
        in_progress
    } else {
        stacked(heights, page_gap, heights.len()) - page_gap + (if in_progress > 0 {
            page_gap + in_progress
        } else {
            0
        })
    }
}

/// What comes after the last block: the pages in progress are finished, and
/// there is at least one page.
pub open spec fn ending(f: Flow) -> PageAction {
    if f.open {
        PageAction::FinishPages
    } else if f.heights.len() == 0 {
        PageAction::BlankPage
    } else {
        PageAction::Done
    }
}

/// What comes next when the pages are at the given height or not: `full` says
/// that they have reached the height asked for.
pub open spec fn settled(sections: Seq<SectionSpan>, total: u32, full: bool, f: Flow) -> (
    Flow,
    PageAction,
)
    decreases
            sections.len() - f.section,
            (if f.entered { 1nat } else { 0nat }),
            (if f.section < sections.len() && f.block < sections[f.section as int].end {
                sections[f.section as int].end - f.block
            } else {
                0
            }),
{
    if f.culled || f.section >= sections.len() {
        (f, ending(f))
    } else {
        let s = sections[f.section as int];
        let continued = f.section > 0 && s.continuous && f.open;
        if !f.entered {
            (
                f,
                if continued {
                    PageAction::ContinueSection {
                        section: f.section as usize,
                        page_offset: f.heights.len() as usize,
                    }
                } else if f.open {
                    PageAction::FinishPages
                } else {
                    PageAction::OpenSection {
                        section: f.section as usize,
                        page_offset: f.heights.len() as usize,
                    }
                },
            )
        } else if f.block >= s.end {
            settled(sections, total, full, Flow { section: f.section + 1, entered: false, ..f })
        } else if full {
            (Flow { culled: true, ..f }, ending(f))
        } else if f.block >= total {
            settled(sections, total, full, Flow { block: (f.block + 1) as u32, ..f })
        } else {
            (f, PageAction::PlaceBlock { block: f.block, para_id: f.para_id })
        }
    }
}

/// A list cut or filled up with empty lists to `n` entries.
pub open spec fn resized(s: Seq<Seq<u32>>, n: nat) -> Seq<Seq<u32>> {
    Seq::new(
        n,
        |i: int|
            if i < s.len() {
                s[i]
            } else {
                Seq::empty()
            },
    )
}

/// The state after the pages in progress were finished at these heights.
pub open spec fn after_finish(f: Flow, heights: Seq<i64>) -> Flow {
    Flow {
        open: false,
        page_blocks: Seq::empty(),
        heights: f.heights + heights,
        blocks: f.blocks + resized(f.page_blocks, heights.len()),
        ..f
    }
}

/// The state after a section began on new pages.
pub open spec fn after_open(f: Flow, start: u32) -> Flow {
    Flow { entered: true, open: true, block: start, page_blocks: seq![Seq::empty()], ..f }
}

/// The state after a section began on the page in progress.
pub open spec fn after_continue(f: Flow, start: u32) -> Flow {
    Flow { entered: true, block: start, ..f }
}

/// The blocks of the pages in progress after `block` was added to the last one
/// and ran over onto `new_pages` more.
pub open spec fn with_block(pages: Seq<Seq<u32>>, new_pages: nat, block: u32) -> Seq<Seq<u32>> {
    let here = if pages.len() == 0 {
        pages
    } else {
        pages.update(pages.len() - 1, pages.last().push(block))
    };
    here + Seq::new(new_pages, |i: int| seq![block])
}

/// The state after a block with `paragraphs` paragraphs was placed and ran
/// over onto `new_pages` new pages.
pub open spec fn after_place(f: Flow, new_pages: nat, paragraphs: u32) -> Flow {
    Flow {
        block: (f.block + 1) as u32,
        para_id: (f.para_id + paragraphs) as u32,
        processed: (f.processed + 1) as u32,
        page_blocks: with_block(f.page_blocks, new_pages, f.block),
        ..f
    }
}

proof fn lemma_lists_push(s: Seq<Vec<u32>>, v: Vec<u32>)
    ensures
        lists(s.push(v)) == lists(s).push(v@),
{
    assert(lists(s.push(v)) =~= lists(s).push(v@));
}

/// Note a block on the page in progress and on each page it ran over onto.
pub fn attach_block_paths(page_blocks: &mut Vec<Vec<u32>>, new_pages: usize, block: u32)
    ensures
        lists(final(page_blocks)@) == with_block(lists(old(page_blocks)@), new_pages as nat, block),
{
    let ghost before = lists(page_blocks@);
    match page_blocks.pop() {
        Some(last) => {
            let mut last = last;
            let ghost rest = page_blocks@;
            assert(lists(rest) =~= before.drop_last());
            last.push(block);
            proof {
                lemma_lists_push(rest, last);
            }
            page_blocks.push(last);
            assert(lists(page_blocks@) =~= before.update(
                before.len() - 1,
                before.last().push(block),
            ));
        },
        None => {},
    }
    let ghost here = lists(page_blocks@);
    let mut i: usize = 0;
    assert(here =~= here + Seq::new(0, |i: int| seq![block]));
    while i < new_pages
        invariant
            i <= new_pages,
            lists(page_blocks@) == here + Seq::new(i as nat, |i: int| seq![block]),
        decreases new_pages - i,
    {
        let mut v: Vec<u32> = Vec::new();
        v.push(block);
        assert(v@ =~= seq![block]);
        proof {
            lemma_lists_push(page_blocks@, v);
        }
        page_blocks.push(v);
        i += 1;
        assert(lists(page_blocks@) =~= here + Seq::new(i as nat, |i: int| seq![block]));
    }
}

/// The heights of pages and the gap between them are such that a stack of them
/// can be measured.
pub open spec fn measurable(heights: Seq<i64>, page_gap: i64) -> bool {
    &&& 0 <= page_gap <= 0x1_0000_0000
    &&& heights.len() <= 0x1000_0000
    &&& forall|i: int| 0 <= i < heights.len() ==> 0 <= #[trigger] heights[i] <= 0x1_0000_0000
}

/// A stack of pages has a height that fits.
pub proof fn lemma_stacked_bounds(heights: Seq<i64>, page_gap: i64, n: nat)
    requires
        measurable(heights, page_gap),
        n <= heights.len(),
    ensures
        0 <= stacked(heights, page_gap as int, n) <= n * 0x2_0000_0000,
        n > 0 ==> page_gap <= stacked(heights, page_gap as int, n),
    decreases n,
{
    if n > 0 {
        lemma_stacked_bounds(heights, page_gap, (n - 1) as nat);
        assert(0 <= heights[n - 1] <= 0x1_0000_0000);
    }
}

/// The height of finished pages and of `in_progress` more.
pub fn measure_pages(heights: &Vec<i64>, page_gap: i64, in_progress: i64) -> (r: i128)
    requires
        measurable(heights@, page_gap),
    ensures
        r == height_so_far(heights@, page_gap as int, in_progress as int),
{
    if heights.len() == 0 {
        return in_progress as i128;
    }
    let mut sum: i128 = 0;
    let mut i: usize = 0;
    while i < heights.len()
        invariant
            i <= heights@.len(),
            measurable(heights@, page_gap),
            sum == stacked(heights@, page_gap as int, i as nat),
        decreases heights.len() - i,
    {
        proof {
            lemma_stacked_bounds(heights@, page_gap, i as nat);
        }
        assert(0 <= heights@[i as int] <= 0x1_0000_0000);
        sum = sum + heights[i] as i128 + page_gap as i128;
        i += 1;
    }
    proof {
        lemma_stacked_bounds(heights@, page_gap, i as nat);
    }
    if in_progress > 0 {
        sum - page_gap as i128 + (page_gap as i128 + in_progress as i128)
    } else {
        sum - page_gap as i128
    }
}

/// Where each page begins: the first at zero, each other one the height of the
/// page before it and a gap further down.
pub fn page_tops(heights: &Vec<i64>, page_gap: i64) -> (r: Vec<i64>)
    requires
        measurable(heights@, page_gap),
    ensures
        r@.len() == heights@.len(),
        forall|i: int|
            0 <= i < r@.len() ==> #[trigger] r@[i] == stacked(heights@, page_gap as int, i as nat),
{
    let mut tops: Vec<i64> = Vec::new();
    let mut y: i64 = 0;
    let mut i: usize = 0;
    while i < heights.len()
        invariant
            i <= heights@.len(),
            measurable(heights@, page_gap),
            y == stacked(heights@, page_gap as int, i as nat),
            tops@.len() == i,
            forall|k: int|
                0 <= k < i ==> #[trigger] tops@[k] == stacked(heights@, page_gap as int, k as nat),
        decreases heights.len() - i,
    {
        proof {
            lemma_stacked_bounds(heights@, page_gap, (i + 1) as nat);
        }
        assert(0 <= heights@[i as int] <= 0x1_0000_0000);
        tops.push(y);
        y = y + heights[i] + page_gap;
        i += 1;
    }
    tops
}

/// No page overlaps another: a page ends a gap before each later one begins.
pub proof fn law_pages_stand_apart(heights: Seq<i64>, page_gap: i64, i: nat, j: nat)
    requires
        measurable(heights, page_gap),
        i < j < heights.len(),
    ensures
        stacked(heights, page_gap as int, i) + heights[i as int] + page_gap <= stacked(
            heights,
            page_gap as int,
            j,
        ),
    decreases j - i,
{
    if i + 1 < j {
        law_pages_stand_apart(heights, page_gap, i, (j - 1) as nat);
        assert(0 <= heights[j - 1]);
    }
}

/// Whether the pages have reached the height asked for.
pub open spec fn reached(f: Flow, budget: Option<i64>, page_gap: i64, cursor: i64) -> bool {
    match budget {
        Some(b) => height_so_far(f.heights, page_gap as int, cursor as int) >= b,
        None => false,
    }
}

impl Pager {
    /// A layout before any work.
    pub fn new() -> (r: Self)
        ensures
            r@ == start_flow(),
    {
        let r = Pager {
            section: 0,
            entered: false,
            block: 0,
            open: false,
            culled: false,
            para_id: 0,
            processed: 0,
            page_blocks: Vec::new(),
            heights: Vec::new(),
            blocks: Vec::new(),
        };
        assert(lists(r.page_blocks@) =~= Seq::empty());
        assert(lists(r.blocks@) =~= Seq::empty());
        r
    }

    fn closing(&self) -> (r: PageAction)
        ensures
            r == ending(self@),
    {
        if self.open {
            PageAction::FinishPages
        } else if self.heights.len() == 0 {
            PageAction::BlankPage
        } else {
            PageAction::Done
        }
    }

    /// The next piece of work of a layout of `total` blocks. `cursor` is how
    /// far down the page in progress is filled, and `budget` the height at
    /// which the layout may stop.
    pub fn next(
        &mut self,
        sections: &Vec<SectionSpan>,
        total: u32,
        budget: Option<i64>,
        page_gap: i64,
        cursor: i64,
    ) -> (r: PageAction)
        requires
            measurable(old(self).heights@, page_gap),
        ensures
            (final(self)@, r) == settled(
                sections@,
                total,
                reached(old(self)@, budget, page_gap, cursor),
                old(self)@,
            ),
    {
        let full: bool = match budget {
            Some(b) => measure_pages(&self.heights, page_gap, cursor) >= b as i128,
            None => false,
        };
        let ghost f0 = self@;
        while !self.culled && self.section < sections.len() && self.entered && (self.block
            >= sections[self.section].end || (!full && self.block >= total))
            invariant
                settled(sections@, total, full, self@) == settled(sections@, total, full, f0),
                self@.heights == f0.heights,
            decreases
                    sections@.len() - self.section,
                    (if self.entered {
                        1nat
                    } else {
                        0nat
                    }),
                    (if self.section < sections@.len() && self.block
                        < sections@[self.section as int].end {
                        sections@[self.section as int].end - self.block
                    } else {
                        0
                    }),
        {
            if self.block >= sections[self.section].end {
                self.section += 1;
                self.entered = false;
            } else {
                self.block += 1;
            }
        }
        if self.culled || self.section >= sections.len() {
            return self.closing();
        }
        let s: SectionSpan = sections[self.section];
        if !self.entered {
            let page_offset: usize = self.heights.len();
            if self.section > 0 && s.continuous && self.open {
                PageAction::ContinueSection { section: self.section, page_offset }
            } else if self.open {
                PageAction::FinishPages
            } else {
                PageAction::OpenSection { section: self.section, page_offset }
            }
        } else if full {
            self.culled = true;
            self.closing()
        } else {
            PageAction::PlaceBlock { block: self.block, para_id: self.para_id }
        }
    }

    /// The pages in progress were finished at these heights, or a blank page was
    /// added at the one height.
    pub fn finished(&mut self, heights: &Vec<i64>)
        ensures
            final(self)@ == after_finish(old(self)@, heights@),
    {
        let ghost f0 = self@;
        let ghost in_progress = lists(self.page_blocks@);
        let n: usize = heights.len();
        let mut i: usize = 0;
        assert(self.heights@ =~= f0.heights + heights@.take(0));
        assert(lists(self.blocks@) =~= f0.blocks + resized(in_progress, n as nat).take(0));
        while i < n
            invariant
                i <= n == heights@.len(),
                lists(self.page_blocks@) == in_progress,
                self.heights@ == f0.heights + heights@.take(i as int),
                lists(self.blocks@) == f0.blocks + resized(in_progress, n as nat).take(i as int),
                self@ == (Flow {
                    page_blocks: in_progress,
                    heights: self@.heights,
                    blocks: self@.blocks,
                    ..f0
                }),
            decreases n - i,
        {
            let mut list: Vec<u32> = Vec::new();
            if i < self.page_blocks.len() {
                let page: &Vec<u32> = &self.page_blocks[i];
                let mut k: usize = 0;
                while k < page.len()
                    invariant
                        k <= page@.len(),
                        list@ == page@.take(k as int),
                    decreases page.len() - k,
                {
                    list.push(page[k]);
                    k += 1;
                    assert(list@ =~= page@.take(k as int));
                }
                assert(list@ =~= in_progress[i as int]);
            } else {
                assert(list@ =~= Seq::empty());
            }
            assert(list@ == resized(in_progress, n as nat)[i as int]);
            proof {
                lemma_lists_push(self.blocks@, list);
            }
            self.blocks.push(list);
            self.heights.push(heights[i]);
            i += 1;
            assert(self.heights@ =~= f0.heights + heights@.take(i as int));
            assert(lists(self.blocks@) =~= f0.blocks + resized(in_progress, n as nat).take(
                i as int,
            ));
        }
        assert(heights@.take(n as int) =~= heights@);
        assert(resized(in_progress, n as nat).take(n as int) =~= resized(in_progress, n as nat));
        self.page_blocks = Vec::new();
        assert(lists(self.page_blocks@) =~= Seq::empty());
        self.open = false;
    }

    /// A section that begins with block `start` began on new pages.
    pub fn opened(&mut self, start: u32)
        ensures
            final(self)@ == after_open(old(self)@, start),
    {
        let first: Vec<u32> = Vec::new();
        let mut pages: Vec<Vec<u32>> = Vec::new();
        pages.push(first);
        assert(first@ =~= Seq::empty());
        assert(lists(pages@) =~= seq![Seq::<u32>::empty()]);
        self.page_blocks = pages;
        self.entered = true;
        self.open = true;
        self.block = start;
    }

    /// A section that begins with block `start` began on the page in progress.
    pub fn continued(&mut self, start: u32)
        ensures
            final(self)@ == after_continue(old(self)@, start),
    {
        self.entered = true;
        self.block = start;
    }

    /// The block was placed. It has `paragraphs` paragraphs and ran over onto
    /// `new_pages` new pages.
    pub fn placed(&mut self, new_pages: usize, paragraphs: u32)
        requires
            old(self).block < u32::MAX,
            old(self).processed < u32::MAX,
            old(self).para_id + paragraphs <= u32::MAX,
        ensures
            final(self)@ == after_place(old(self)@, new_pages as nat, paragraphs),
    {
        attach_block_paths(&mut self.page_blocks, new_pages, self.block);
        self.block += 1;
        self.para_id += paragraphs;
        self.processed += 1;
    }

    /// The outcome of a layout of `total` blocks.
    pub fn outcome(&self, total: u32) -> (r: LazyLayoutInfo)
        ensures
            r == layout_info(self@, total),
    {
        LazyLayoutInfo {
            is_full_layout: !self.culled,
            remaining_blocks: if total > self.processed {
                total - self.processed
            } else {
                0
            },
        }
    }

    /// The paths of the blocks on each finished page.
    pub fn page_paths(&self) -> (r: Vec<Vec<BlockPath>>)
        ensures
            r@.len() == self@.blocks.len(),
            forall|i: int|
                0 <= i < r@.len() ==> paths_view((#[trigger] r@[i])@)
                    == top_paths(self@.blocks[i]),
    {
        let mut out: Vec<Vec<BlockPath>> = Vec::new();
        let mut i: usize = 0;
        while i < self.blocks.len()
            invariant
                i <= self.blocks@.len(),
                out@.len() == i,
                forall|j: int|
                    0 <= j < i ==> paths_view((#[trigger] out@[j])@) == top_paths(
                        self.blocks@[j]@,
                    ),
            decreases self.blocks.len() - i,
        {
            let page: &Vec<u32> = &self.blocks[i];
            let mut list: Vec<BlockPath> = Vec::new();
            let mut k: usize = 0;
            while k < page.len()
                invariant
                    k <= page@.len(),
                    list@.len() == k,
                    forall|j: int|
                        0 <= j < k ==> (#[trigger] list@[j])@ == seq![
                            PathStep::Block { idx: page@[j] },
                        ],
                decreases page.len() - k,
            {
                list.push(BlockPath::top(page[k]));
                k += 1;
            }
            assert(paths_view(list@) =~= top_paths(page@));
            out.push(list);
            i += 1;
        }
        out
    }
}

/// The paths of top-level blocks.
pub open spec fn top_paths(blocks: Seq<u32>) -> Seq<Seq<PathStep>> {
    blocks.map_values(|b: u32| seq![PathStep::Block { idx: b }])
}

/// How much of a document a layout covers.
#[derive(Debug, Clone, Copy, PartialEq, Eq, Structural)]
pub struct LazyLayoutInfo {
    pub is_full_layout: bool,
    pub remaining_blocks: u32,
}

/// What a layout covers of `total` blocks.
pub open spec fn layout_info(f: Flow, total: u32) -> LazyLayoutInfo {
    LazyLayoutInfo {
        is_full_layout: !f.culled,
        remaining_blocks: if total > f.processed {
            (total - f.processed) as u32
        } else {
            0
        },
    }
}

/// The finished pages and their lists of blocks go together, and a list for
/// the page in progress exists while pages are open.
pub open spec fn flow_ok(f: Flow) -> bool {
    &&& f.heights.len() == f.blocks.len()
    &&& f.open ==> f.page_blocks.len() >= 1
    &&& !f.open ==> f.page_blocks.len() == 0
}

/// Every step of a layout keeps a list of blocks for each page.
pub proof fn law_pages_and_lists_go_together(
    sections: Seq<SectionSpan>,
    total: u32,
    full: bool,
    f: Flow,
    heights: Seq<i64>,
    start: u32,
    new_pages: nat,
    paragraphs: u32,
)
    requires
        flow_ok(f),
    ensures
        flow_ok(start_flow()),
        flow_ok(settled(sections, total, full, f).0),
        flow_ok(after_finish(f, heights)),
        flow_ok(after_open(f, start)),
        flow_ok(after_continue(f, start)),
        f.open ==> flow_ok(after_place(f, new_pages, paragraphs)),
{
    lemma_settled_keeps(sections, total, full, f);
}

/// A layout that is done has a page, and a list of blocks for each page. Where
/// no page was finished, one blank page with an empty list completes it.
pub proof fn law_a_layout_has_a_page(
    sections: Seq<SectionSpan>,
    total: u32,
    full: bool,
    f: Flow,
    height: i64,
)
    requires
        flow_ok(f),
    ensures
        ({
            let (g, a) = settled(sections, total, full, f);
            let h = after_finish(g, seq![height]);
            &&& a is Done ==> g.heights.len() == g.blocks.len() && g.heights.len() >= 1
            &&& a is BlankPage ==> g.heights.len() == 0 && h.heights == seq![height] && h.blocks
                == seq![Seq::<u32>::empty()] && settled(sections, total, full, h) == (
                h,
                PageAction::Done,
            )
        }),
{
    lemma_settled_keeps(sections, total, full, f);
    lemma_settled_ends(sections, total, full, f);
    let g = settled(sections, total, full, f).0;
    let h = after_finish(g, seq![height]);
    if ending(g) is BlankPage {
        assert(h.heights =~= seq![height]);
        assert(h.blocks =~= seq![Seq::<u32>::empty()]);
    }
}

/// A layout ends only once its pages are finished and nothing is left to place.
proof fn lemma_settled_ends(sections: Seq<SectionSpan>, total: u32, full: bool, f: Flow)
    ensures
        ({
            let (g, a) = settled(sections, total, full, f);
            a is Done || a is BlankPage ==> a == ending(g) && (g.culled || g.section
                >= sections.len())
        }),
    decreases
            sections.len() - f.section,
            (if f.entered { 1nat } else { 0nat }),
            (if f.section < sections.len() && f.block < sections[f.section as int].end {
                sections[f.section as int].end - f.block
            } else {
                0
            }),
{
    if !(f.culled || f.section >= sections.len()) && f.entered {
        let s = sections[f.section as int];
        if f.block >= s.end {
            lemma_settled_ends(
                sections,
                total,
                full,
                Flow { section: f.section + 1, entered: false, ..f },
            );
        } else if !full && f.block >= total {
            lemma_settled_ends(sections, total, full, Flow { block: (f.block + 1) as u32, ..f });
        }
    }
}

/// What choosing the next piece of work leaves as it was.
proof fn lemma_settled_keeps(sections: Seq<SectionSpan>, total: u32, full: bool, f: Flow)
    ensures
        ({
            let g = settled(sections, total, full, f).0;
            &&& g == (Flow {
                section: g.section,
                entered: g.entered,
                block: g.block,
                culled: g.culled,
                ..f
            })
            &&& g.section >= f.section
        }),
    decreases
            sections.len() - f.section,
            (if f.entered { 1nat } else { 0nat }),
            (if f.section < sections.len() && f.block < sections[f.section as int].end {
                sections[f.section as int].end - f.block
            } else {
                0
            }),
{
    if !(f.culled || f.section >= sections.len()) && f.entered {
        let s = sections[f.section as int];
        if f.block >= s.end {
            lemma_settled_keeps(
                sections,
                total,
                full,
                Flow { section: f.section + 1, entered: false, ..f },
            );
        } else if !full && f.block >= total {
            lemma_settled_keeps(sections, total, full, Flow { block: (f.block + 1) as u32, ..f });
        }
    }
}

/// The sections cover blocks 0 to `total`, each starting where the one before
/// it ends.
pub open spec fn covers(sections: Seq<SectionSpan>, total: u32) -> bool {
    &&& sections.len() == 0 ==> total == 0
    &&& sections.len() > 0 ==> sections[0].start == 0 && sections.last().end == total
    &&& forall|i: int|
        0 <= i < sections.len() ==> (#[trigger] sections[i]).start <= sections[i].end <= total
    &&& forall|i: int, j: int|
        0 <= i && j == i + 1 && j < sections.len() ==> (#[trigger] sections[i]).end == (
        #[trigger] sections[j]).start
}

/// As many blocks were placed as come before the place where the layout is.
pub open spec fn on_track(sections: Seq<SectionSpan>, total: u32, f: Flow) -> bool {
    if f.section >= sections.len() {
        f.processed == total
    } else {
        let s = sections[f.section as int];
        if f.entered {
            s.start <= f.block <= s.end && f.processed == f.block
        } else {
            f.processed == s.start
        }
    }
}

/// While the sections cover the document, each step places the block after
/// those placed before: no block is passed over and none placed twice. A
/// layout that ends without having been cut short has placed them all, and one
/// without a height to stop at is never cut short.
pub proof fn law_blocks_placed_in_turn(
    sections: Seq<SectionSpan>,
    total: u32,
    full: bool,
    f: Flow,
    new_pages: nat,
    paragraphs: u32,
)
    requires
        sections.len() <= usize::MAX,
        covers(sections, total),
        on_track(sections, total, f),
        f.para_id + paragraphs <= u32::MAX,
    ensures
        on_track(sections, total, start_flow()),
        ({
            let (g, a) = settled(sections, total, full, f);
            &&& on_track(sections, total, g)
            &&& a matches PageAction::OpenSection { section, .. } ==> section < sections.len()
                && on_track(sections, total, after_open(g, sections[section as int].start))
            &&& a matches PageAction::ContinueSection { section, .. } ==> section < sections.len()
                && on_track(sections, total, after_continue(g, sections[section as int].start))
            &&& a matches PageAction::PlaceBlock { block, .. } ==> block == f.processed && on_track(
                sections,
                total,
                after_place(g, new_pages, paragraphs),
            )
            &&& (a is Done || a is BlankPage) && !g.culled ==> g.processed == total
            &&& g.culled ==> f.culled || full
        }),
    decreases
            sections.len() - f.section,
            (if f.entered { 1nat } else { 0nat }),
            (if f.section < sections.len() && f.block < sections[f.section as int].end {
                sections[f.section as int].end - f.block
            } else {
                0
            }),
{
    if !(f.culled || f.section >= sections.len()) && f.entered {
        let s = sections[f.section as int];
        if f.block >= s.end {
            if f.section + 1 < sections.len() {
                assert(s.end == sections[f.section as int + 1].start);
            }
            law_blocks_placed_in_turn(
                sections,
                total,
                full,
                Flow { section: f.section + 1, entered: false, ..f },
                new_pages,
                paragraphs,
            );
        }
    }
}

/// A block that was placed shows on a page once the pages are finished, and on
/// as many further pages as it ran over onto.
pub proof fn law_placed_block_is_shown(f: Flow, new_pages: nat, paragraphs: u32, heights: Seq<i64>, k: nat)
    requires
        flow_ok(f),
        f.open,
        heights.len() >= f.page_blocks.len() + new_pages,
        k <= new_pages,
    ensures
        ({
            let g = after_finish(after_place(f, new_pages, paragraphs), heights);
            let page = f.blocks.len() + f.page_blocks.len() - 1 + k;
            page < g.blocks.len() && g.blocks[page].contains(f.block)
        }),
{
    let pages = with_block(f.page_blocks, new_pages, f.block);
    let n = f.page_blocks.len();
    let list = pages[n - 1 + k];
    if k == 0 {
        assert(list == f.page_blocks.last().push(f.block));
        assert(list[list.len() - 1] == f.block);
    } else {
        assert(list == seq![f.block]);
        assert(list[0] == f.block);
    }
    let g = after_finish(after_place(f, new_pages, paragraphs), heights);
    assert(g.blocks[f.blocks.len() + n - 1 + k] == list);
}

/// The height of a stack of pages is that of the pages and of a gap between
/// every two; a page in progress adds its own height and a gap above it.
pub proof fn law_height_of_a_stack(heights: Seq<i64>, page_gap: int, h: i64, in_progress: int)
    requires
        in_progress > 0,
    ensures
        height_so_far(Seq::empty(), page_gap, 0) == 0,
        height_so_far(seq![h], page_gap, 0) == h,
        heights.len() > 0 ==> height_so_far(heights.push(h), page_gap, 0) == height_so_far(
            heights,
            page_gap,
            0,
        ) + page_gap + h,
        heights.len() > 0 ==> height_so_far(heights, page_gap, in_progress) == height_so_far(
            heights,
            page_gap,
            0,
        ) + page_gap + in_progress,
        heights.len() == 0 ==> height_so_far(heights, page_gap, in_progress) == in_progress,
{
    reveal_with_fuel(stacked, 2);
    lemma_stacked_prefix(heights, heights.push(h), page_gap, heights.len());
}

proof fn lemma_stacked_prefix(a: Seq<i64>, b: Seq<i64>, page_gap: int, n: nat)
    requires
        n <= a.len() <= b.len(),
        forall|i: int| 0 <= i < a.len() ==> a[i] == #[trigger] b[i],
    ensures
        stacked(a, page_gap, n) == stacked(b, page_gap, n),
    decreases n,
{
    if n > 0 {
        lemma_stacked_prefix(a, b, page_gap, (n - 1) as nat);
        assert(a[n - 1] == b[n - 1]);
    }
}

/// How a section begins: on the page in progress where it is continuous and
/// such a page is there; else the pages in progress are finished first, and it
/// begins on new ones.
pub proof fn law_sections_begin(sections: Seq<SectionSpan>, total: u32, full: bool, f: Flow)
    requires
        !f.culled,
        !f.entered,
        f.section < sections.len() <= usize::MAX,
        f.heights.len() <= usize::MAX,
    ensures
        ({
            let (g, a) = settled(sections, total, full, f);
            let continuous = f.section > 0 && sections[f.section as int].continuous;
            &&& g == f
            &&& f.open && continuous ==> (a matches PageAction::ContinueSection {
                section,
                page_offset,
            } && section == f.section && page_offset == f.heights.len())
            &&& f.open && !continuous ==> a is FinishPages
            &&& !f.open ==> (a matches PageAction::OpenSection { section, page_offset } && section
                == f.section && page_offset == f.heights.len())
        }),
{
}

/// In a section, the block that the layout has come to is laid out next, with
/// the number that its first paragraph has; once the pages are high enough, none
/// is any more.
pub proof fn law_blocks_are_laid_out_until_full(
    sections: Seq<SectionSpan>,
    total: u32,
    f: Flow,
)
    requires
        !f.culled,
        f.entered,
        f.section < sections.len(),
        f.block < sections[f.section as int].end,
        f.block < total,
    ensures
        settled(sections, total, false, f) == (
            f,
            (PageAction::PlaceBlock { block: f.block, para_id: f.para_id }),
        ),
        settled(sections, total, true, f).0.culled,
        f.open ==> settled(sections, total, true, f).1 is FinishPages,
        !f.open && f.heights.len() > 0 ==> settled(sections, total, true, f).1 is Done,
{
}

/// A block that was placed counts, moves the layout to the next block, and
/// takes as many paragraph numbers as it has paragraphs. The page in progress
/// lists it, and so does each page that it ran over onto, where it stands alone.
pub proof fn law_placing_a_block(f: Flow, new_pages: nat, paragraphs: u32)
    requires
        f.page_blocks.len() >= 1,
        f.block < u32::MAX,
        f.processed < u32::MAX,
        f.para_id + paragraphs <= u32::MAX,
    ensures
        ({
            let g = after_place(f, new_pages, paragraphs);
            let n = f.page_blocks.len();
            &&& g.block == f.block + 1
            &&& g.processed == f.processed + 1
            &&& g.para_id == f.para_id + paragraphs
            &&& g.page_blocks.len() == n + new_pages
            &&& g.page_blocks[n - 1] == f.page_blocks[n - 1].push(f.block)
            &&& forall|i: int| 0 <= i < n - 1 ==> g.page_blocks[i] == #[trigger] f.page_blocks[i]
            &&& forall|i: int|
                n <= i < n + new_pages ==> #[trigger] g.page_blocks[i] == seq![f.block]
            &&& g.heights == f.heights && g.blocks == f.blocks && g.section == f.section
        }),
{
}

/// Finishing pages adds them, in order, behind those finished before, each with
/// the blocks that were listed for it.
pub proof fn law_finishing_pages(f: Flow, heights: Seq<i64>, i: int)
    requires
        flow_ok(f),
        0 <= i < heights.len(),
    ensures
        ({
            let g = after_finish(f, heights);
            let n = f.heights.len();
            &&& g.heights.len() == n + heights.len()
            &&& g.heights[n + i] == heights[i]
            &&& i < f.page_blocks.len() ==> g.blocks[n + i] == f.page_blocks[i]
            &&& i >= f.page_blocks.len() ==> g.blocks[n + i].len() == 0
            &&& !g.open && g.page_blocks.len() == 0
            &&& g.block == f.block && g.processed == f.processed && g.para_id == f.para_id
        }),
{
}

/// A layout is full unless it was cut short; what is left are the blocks that
/// were not placed.
pub proof fn law_what_is_left(f: Flow, total: u32)
    ensures
        layout_info(f, total).is_full_layout == !f.culled,
        f.processed <= total ==> layout_info(f, total).remaining_blocks == total - f.processed,
        f.processed > total ==> layout_info(f, total).remaining_blocks == 0,
{
}

/// A layout ends with finished pages, and with at least one: pages in progress
/// are finished first, and a blank page is added where there is none.
pub proof fn law_how_a_layout_ends(sections: Seq<SectionSpan>, total: u32, full: bool, f: Flow)
    requires
        f.culled || f.section >= sections.len(),
    ensures
        settled(sections, total, full, f).0 == f,
        f.open ==> settled(sections, total, full, f).1 is FinishPages,
        !f.open && f.heights.len() == 0 ==> settled(sections, total, full, f).1 is BlankPage,
        !f.open && f.heights.len() > 0 ==> settled(sections, total, full, f).1 is Done,
{
}

/// A layout is high enough where its pages reach the height asked for; one that
/// is asked for all never is.
pub proof fn law_high_enough(f: Flow, b: i64, page_gap: i64, cursor: i64)
    ensures
        !reached(f, None, page_gap, cursor),
        reached(f, Some(b), page_gap, cursor) <==> height_so_far(
            f.heights,
            page_gap as int,
            cursor as int,
        ) >= b,
{
}

} // verus!
