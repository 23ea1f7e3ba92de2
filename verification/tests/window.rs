use azookey::window::{
    place_candidate_window, place_indicator_window, WorkArea, WINDOW_OFFSET_X, WINDOW_OFFSET_Y,
};

fn full_hd() -> WorkArea {
    WorkArea { left: 0, top: 0, right: 1920, bottom: 1080 }
}

#[test]
fn test_work_area_default() {
    let work_area = WorkArea::default();
    assert_eq!(work_area.left, 0);
    assert_eq!(work_area.top, 0);
    assert_eq!(work_area.right, 1920);
    assert_eq!(work_area.bottom, 1080);
}

#[test]
fn offsets_at_96_dpi() {
    assert_eq!(WINDOW_OFFSET_X, 15);
    assert_eq!(WINDOW_OFFSET_Y, 2);
}

#[test]
fn test_candidate_position_normal() {
    // Offsets at a DPI scale of 1.0: 15 and 2.
    let (x, y) = place_candidate_window(500, 500, 520, 200, 150, &full_hd(), 15, 2);
    assert_eq!(x, 485);
    assert_eq!(y, 522);
}

#[test]
fn test_candidate_position_bottom_overflow() {
    let (_x, y) = place_candidate_window(1000, 500, 1020, 200, 150, &full_hd(), 15, 2);
    assert_eq!(y, 848);
}

#[test]
fn test_candidate_position_right_overflow() {
    let (x, _y) = place_candidate_window(500, 1850, 520, 200, 150, &full_hd(), 15, 2);
    assert_eq!(x, 1720);
}

#[test]
fn test_candidate_position_left_overflow() {
    let (x, _y) = place_candidate_window(500, 10, 520, 200, 150, &full_hd(), 15, 2);
    assert_eq!(x, 0);
}

#[test]
fn test_candidate_position_with_150_percent_dpi() {
    // 15 * 1.5 and 2 * 1.5, truncated.
    let (x, y) = place_candidate_window(500, 500, 520, 200, 150, &full_hd(), 22, 3);
    assert_eq!(x, 478);
    assert_eq!(y, 523);
}

#[test]
fn test_candidate_position_top_overflow() {
    let area = WorkArea { left: 0, top: 50, right: 1920, bottom: 1080 };
    let (_, y) = place_candidate_window(60, 500, 1050, 200, 150, &area, 15, 2);
    assert_eq!(y, 50);
}

#[test]
fn test_boundary_zero_offset() {
    // Offsets at a DPI scale of 0.5: 15 * 0.5 and 2 * 0.5, truncated.
    let (x, y) = place_candidate_window(100, 100, 120, 200, 150, &WorkArea::default(), 7, 1);
    assert_eq!(x, 93);
    assert_eq!(y, 121);
}

#[test]
fn candidate_wider_than_work_area_starts_at_left_edge() {
    let area = WorkArea { left: 100, top: 0, right: 300, bottom: 1080 };
    let (x, _) = place_candidate_window(500, 250, 520, 400, 150, &area, 15, 2);
    assert_eq!(x, 100);
}

#[test]
fn test_indicator_position_normal() {
    assert_eq!(place_indicator_window(500, 520, 45, 2), (455, 522));
}

#[test]
fn test_indicator_position_with_200_percent_dpi() {
    // Offsets at a DPI scale of 2.0: 45 * 2 and 2 * 2.
    assert_eq!(place_indicator_window(500, 520, 90, 4), (410, 524));
}
