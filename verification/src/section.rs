//! The page geometry that the caret's section reports.

use crate::command::PageOrientation;
use crate::common::{BlockPath, PathStep};
use crate::dispatch::Real;
use crate::pipeline::{float_rank, rank};
use vstd::prelude::*;

verus! {

/// The geometry of a section, lengths in points.
#[derive(Clone, Copy, Debug, PartialEq, Eq, Structural)]
pub struct SectionSetup {
    pub width: Real,
    pub height: Real,
    pub margin_top: Real,
    pub margin_right: Real,
    pub margin_bottom: Real,
    pub margin_left: Real,
    pub columns: u16,
    pub column_gutter: Real,
    pub title_pg: bool,
}

/// The caret's section as the toolbar shows it, lengths in points.
#[derive(Clone, Copy, Debug, PartialEq, Eq, Structural)]
pub struct BridgeSectionGeometry {
    pub width_pt: Real,
    pub height_pt: Real,
    pub margin_top_pt: Real,
    pub margin_right_pt: Real,
    pub margin_bottom_pt: Real,
    pub margin_left_pt: Real,
    pub orientation: PageOrientation,
    /// At least one.
    pub columns: u32,
    pub column_gutter_pt: Real,
    /// Which section of the document it is, from zero.
    pub section_index: u32,
    pub section_count: u32,
    pub title_pg: bool,
    /// Whether the whole document has even and odd headers.
    pub even_odd_headers: bool,
}

/// A pattern that is not a number.
pub open spec fn is_nan(x: Real) -> bool {
    0x7F80_0000 < x.bits < 0x8000_0000 || 0xFF80_0000 < x.bits
}

/// One number is greater than another. None is greater than what is not a
/// number, nor the reverse.
pub open spec fn exceeds(a: Real, b: Real) -> bool {
    !is_nan(a) && !is_nan(b) && float_rank(a.bits) > float_rank(b.bits)
}

/// Whether one number is greater than another.
pub fn check_exceeds(a: Real, b: Real) -> (r: bool)
    ensures
        r == exceeds(a, b),
{
    let a_nan: bool = (0x7F80_0000 < a.bits && a.bits < 0x8000_0000) || 0xFF80_0000 < a.bits;
    let b_nan: bool = (0x7F80_0000 < b.bits && b.bits < 0x8000_0000) || 0xFF80_0000 < b.bits;
    !a_nan && !b_nan && rank(a.bits) > rank(b.bits)
}

/// The top-level block that a path starts at.
pub open spec fn top_block(path: Seq<PathStep>) -> Option<u32> {
    if path.len() == 0 {
        None
    } else {
        match path[0] {
            PathStep::Block { idx } => Some(idx),
            PathStep::Cell { .. } => None,
        }
    }
}

/// The top-level block that a path starts at. Its section is the caret's.
pub fn caret_block(path: &BlockPath) -> (r: Option<u32>)
    ensures
        r == top_block(path@),
{
    if path.steps.len() == 0 {
        return None;
    }
    match &path.steps[0] {
        PathStep::Block { idx } => Some(*idx),
        PathStep::Cell { .. } => None,
    }
}

/// What section `index` of `count` reports. A page that is wider than high lies
/// on its side, and a section has at least one column.
pub open spec fn section_report(
    s: SectionSetup,
    index: u32,
    count: u32,
    even_odd_headers: bool,
) -> BridgeSectionGeometry {
    BridgeSectionGeometry {
        width_pt: s.width,
        height_pt: s.height,
        margin_top_pt: s.margin_top,
        margin_right_pt: s.margin_right,
        margin_bottom_pt: s.margin_bottom,
        margin_left_pt: s.margin_left,
        orientation: if exceeds(s.width, s.height) {
            PageOrientation::Landscape
        } else {
            PageOrientation::Portrait
        },
        columns: if s.columns == 0 {
            1
        } else {
            s.columns as u32
        },
        column_gutter_pt: s.column_gutter,
        section_index: index,
        section_count: count,
        title_pg: s.title_pg,
        even_odd_headers,
    }
}

/// The geometry of the section that covers the caret: `section` is the one of
/// the path's top-level block, number `index` of `count`. A path that starts at
/// no block has none.
pub fn section_geometry_for_caret(
    path: &BlockPath,
    section: &SectionSetup,
    index: u32,
    count: u32,
    even_odd_headers: bool,
) -> (r: Option<BridgeSectionGeometry>)
    ensures
        r == (match top_block(path@) {
            Some(_) => Some(section_report(*section, index, count, even_odd_headers)),
            None => None,
        }),
{
    if caret_block(path).is_none() {
        return None;
    }
    let landscape: bool = check_exceeds(section.width, section.height);
    Some(
        BridgeSectionGeometry {
            width_pt: section.width,
            height_pt: section.height,
            margin_top_pt: section.margin_top,
            margin_right_pt: section.margin_right,
            margin_bottom_pt: section.margin_bottom,
            margin_left_pt: section.margin_left,
            orientation: if landscape {
                PageOrientation::Landscape
            } else {
                PageOrientation::Portrait
            },
            columns: if section.columns == 0 {
                1
            } else {
                section.columns as u32
            },
            column_gutter_pt: section.column_gutter,
            section_index: index,
            section_count: count,
            title_pg: section.title_pg,
            even_odd_headers,
        },
    )
}

/// A section reports its own measures, each side's margin under that side, and
/// at least one column; a page with a greater width than height lies on its side.
pub proof fn law_section_reports_its_own(
    s: SectionSetup,
    index: u32,
    count: u32,
    even_odd_headers: bool,
)
    ensures
        ({
            let r = section_report(s, index, count, even_odd_headers);
            &&& r.width_pt == s.width && r.height_pt == s.height
            &&& r.margin_top_pt == s.margin_top && r.margin_right_pt == s.margin_right
            &&& r.margin_bottom_pt == s.margin_bottom && r.margin_left_pt == s.margin_left
            &&& r.column_gutter_pt == s.column_gutter
            &&& r.columns >= 1 && (s.columns >= 1 ==> r.columns == s.columns)
            &&& r.section_index == index && r.section_count == count
            &&& r.title_pg == s.title_pg && r.even_odd_headers == even_odd_headers
            &&& s.width.bits <= 0x7F80_0000 && s.height.bits <= 0x7F80_0000 ==> ((r.orientation
                == PageOrientation::Landscape) == (s.width.bits > s.height.bits))
        }),
{
}

/// A path starts at the block that its first step names.
pub proof fn law_top_block_of_a_path(path: Seq<PathStep>)
    ensures
        path.len() > 0 && path[0] is Block ==> top_block(path) == Some(path[0]->idx),
        path.len() == 0 ==> top_block(path) is None,
{
}

} // verus!
