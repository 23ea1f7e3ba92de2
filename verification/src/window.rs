//! Where the candidate window and the input-mode indicator are placed on
//! the screen, given the caret and the monitor's work area.
//!
//! The offsets from the caret are scaled by the monitor's DPI before they
//! reach these functions; here everything is in physical pixels.
use vstd::prelude::*;

verus! {

/// Horizontal distance from the caret to the candidate window at 96 DPI.
pub const WINDOW_OFFSET_X: i32 = 15;

/// Vertical distance from the caret to the candidate window at 96 DPI.
pub const WINDOW_OFFSET_Y: i32 = 2;

/// The part of a monitor that windows may use.
#[derive(Debug, Clone, Copy, PartialEq, Eq, Structural)]
pub struct WorkArea {
    pub left: i32,
    pub top: i32,
    pub right: i32,
    pub bottom: i32,
}

impl Default for WorkArea {
    /// A full-HD screen.
    fn default() -> (r: Self)
        ensures
            r == (WorkArea { left: 0, top: 0, right: 1920, bottom: 1080 }),
    {
        WorkArea { left: 0, top: 0, right: 1920, bottom: 1080 }
    }
}

pub open spec fn is_i32(v: int) -> bool {
    i32::MIN <= v <= i32::MAX
}

/// Where the candidate window goes: below and left of the caret; above the
/// caret when it would run past the bottom; moved left when it would run
/// past the right edge; and never left of or above the work area.
pub open spec fn candidate_position(
    caret_top: int,
    caret_left: int,
    caret_bottom: int,
    window_width: int,
    window_height: int,
    area: WorkArea,
    offset_x: int,
    offset_y: int,
) -> (int, int) {
    let x0 = caret_left - offset_x;
    let y0 = caret_bottom + offset_y;
    let y1 = if y0 + window_height > area.bottom {
        caret_top - window_height - offset_y
    } else {
        y0
    };
    let x1 = if x0 + window_width > area.right {
        area.right - window_width
    } else {
        x0
    };
    let x2 = if x1 < area.left {
        area.left as int
    } else {
        x1
    };
    let y2 = if y1 < area.top {
        area.top as int
    } else {
        y1
    };
    (x2, y2)
}

/// Every sum and difference that the placement computes fits in an `i32`.
pub open spec fn candidate_arithmetic_fits(
    caret_top: int,
    caret_left: int,
    caret_bottom: int,
    window_width: int,
    window_height: int,
    area: WorkArea,
    offset_x: int,
    offset_y: int,
) -> bool {
    let x0 = caret_left - offset_x;
    let y0 = caret_bottom + offset_y;
    &&& is_i32(x0)
    &&& is_i32(y0)
    &&& is_i32(y0 + window_height)
    &&& y0 + window_height > area.bottom ==> is_i32(caret_top - window_height) && is_i32(
        caret_top - window_height - offset_y,
    )
    &&& is_i32(x0 + window_width)
    &&& x0 + window_width > area.right ==> is_i32(area.right - window_width)
}

/// The top-left corner of the candidate window, for offsets already scaled
/// to the monitor's DPI.
pub fn place_candidate_window(
    caret_top: i32,
    caret_left: i32,
    caret_bottom: i32,
    window_width: i32,
    window_height: i32,
    work_area: &WorkArea,
    offset_x: i32,
    offset_y: i32,
) -> (r: (i32, i32))
    requires
        candidate_arithmetic_fits(
            caret_top as int,
            caret_left as int,
            caret_bottom as int,
            window_width as int,
            window_height as int,
            *work_area,
            offset_x as int,
            offset_y as int,
        ),
    ensures
        (r.0 as int, r.1 as int) == candidate_position(
            caret_top as int,
            caret_left as int,
            caret_bottom as int,
            window_width as int,
            window_height as int,
            *work_area,
            offset_x as int,
            offset_y as int,
        ),
{
    let mut x = caret_left - offset_x;
    let mut y = caret_bottom + offset_y;
    if y + window_height > work_area.bottom {
        y = caret_top - window_height - offset_y;
    }
    if x + window_width > work_area.right {
        x = work_area.right - window_width;
    }
    if x < work_area.left {
        x = work_area.left;
    }
    if y < work_area.top {
        y = work_area.top;
    }
    (x, y)
}

/// The candidate window never starts left of or above the work area; it
/// ends at or before the right edge whenever it is no wider than the work
/// area; and it stays just below the caret, at the caret's left minus the
/// offset, whenever it fits there.
pub proof fn lemma_candidate_window_in_work_area(
    caret_top: int,
    caret_left: int,
    caret_bottom: int,
    window_width: int,
    window_height: int,
    area: WorkArea,
    offset_x: int,
    offset_y: int,
)
    ensures
        ({
            let (x, y) = candidate_position(
                caret_top,
                caret_left,
                caret_bottom,
                window_width,
                window_height,
                area,
                offset_x,
                offset_y,
            );
            let x0 = caret_left - offset_x;
            let y0 = caret_bottom + offset_y;
            &&& x >= area.left
            &&& y >= area.top
            &&& window_width <= area.right - area.left ==> x + window_width <= area.right
            &&& area.top <= y0 && y0 + window_height <= area.bottom ==> y == y0
            &&& area.left <= x0 && x0 + window_width <= area.right ==> x == x0
        }),
{
}

/// The top-left corner of the input-mode indicator, for offsets already
/// scaled to the monitor's DPI.
pub fn place_indicator_window(caret_left: i32, caret_bottom: i32, offset_x: i32, offset_y: i32) -> (r: (i32, i32))
    requires
        is_i32(caret_left - offset_x),
        is_i32(caret_bottom + offset_y),
    ensures
        r.0 == caret_left - offset_x,
        r.1 == caret_bottom + offset_y,
{
    (caret_left - offset_x, caret_bottom + offset_y)
}

} // verus!
