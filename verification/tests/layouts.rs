use askey::layout::{centered_rect, centered_rect_fixed, config_popup_width, Area};

fn area(x: u16, y: u16, width: u16, height: u16) -> Area {
    Area { x, y, width, height }
}

#[test]
fn popup_by_percentages_is_centered() {
    assert_eq!(centered_rect(50, 50, area(0, 0, 100, 40)), area(25, 10, 50, 20));
    assert_eq!(centered_rect(100, 100, area(3, 4, 10, 10)), area(3, 4, 10, 10));
}

#[test]
fn popup_by_cells_is_centered_and_clipped() {
    assert_eq!(centered_rect_fixed(20, 10, area(0, 0, 100, 40)), area(40, 15, 20, 10));
    assert_eq!(centered_rect_fixed(200, 10, area(0, 0, 100, 40)), area(0, 15, 100, 10));
}

#[test]
fn defaults_dialog_width() {
    assert_eq!(config_popup_width(10, 5, 200), Some(80));
    assert_eq!(config_popup_width(100, 3, 200), Some(122));
    assert_eq!(config_popup_width(3, 100, 90), Some(90));
    assert_eq!(config_popup_width(65530, 0, 100), None);
    assert_eq!(config_popup_width(65536 + 10, 0, 200), Some(80));
}
