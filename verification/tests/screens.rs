use askey::screen::{
    center_pad, centered_warning, elapsed_text, frame_placement, list_width, loading_dots, place_text,
    preview_dimensions, strip_ansi, Placement,
};

#[test]
fn text_is_padded_on_every_line() {
    assert_eq!(place_text("ab\ncd", 2, 1), "\n  ab\n  cd");
    assert_eq!(place_text("x\n", 1, 0), " x\n ");
    assert_eq!(place_text("", 3, 2), "\n\n   ");
    assert_eq!(place_text("ab", 0, 0), "ab");
}

#[test]
fn centering_margin() {
    assert_eq!(center_pad(10, 4), 3);
    assert_eq!(center_pad(11, 4), 3);
    assert_eq!(center_pad(4, 4), 0);
    assert_eq!(center_pad(4, 10), 0);
}

#[test]
fn warning_is_centered() {
    assert_eq!(centered_warning("hi", 6, 5), "\n\n  hi");
    assert_eq!(centered_warning("hello", 3, 1), "hello");
    assert_eq!(centered_warning("hé", 5, 2), " hé");
}

#[test]
fn frame_is_centered_in_the_canvas() {
    let p = frame_placement(80, 24, 40, 10, 0, 0).unwrap();
    assert_eq!(p, Placement { pad_x: 20, scroll_x: 0, pad_y: 7, scroll_y: 0 });
}

#[test]
fn larger_frame_scrolls_by_half_the_overflow() {
    let p = frame_placement(10, 5, 15, 8, 0, 0).unwrap();
    assert_eq!(p, Placement { pad_x: 0, scroll_x: 2, pad_y: 0, scroll_y: 1 });
}

#[test]
fn noclip_offsets_move_the_frame() {
    let p = frame_placement(80, 24, 40, 10, -25, 3).unwrap();
    assert_eq!(p, Placement { pad_x: 0, scroll_x: 5, pad_y: 10, scroll_y: 0 });
}

#[test]
fn placement_overflow_is_reported() {
    assert!(frame_placement(40000, 10, 10000, 1, 0, 0).is_none());
    assert!(frame_placement(10, 10, 1, 1, i16::MAX, 0).is_none());
    assert!(frame_placement(10, 10, 1, 1, i16::MAX - 4, 0).is_some());
}

#[test]
fn list_width_follows_the_longest_name() {
    let names = vec!["a".to_string(), "abcdefghijklmnopqrstuvwxyz".to_string()];
    assert_eq!(list_width(&names, 200, 50), 34);
    assert_eq!(list_width(&names, 80, 20), 24);
    assert_eq!(list_width(&Vec::new(), 200, 50), 20);
    assert_eq!(list_width(&names, 10, 50), 10);
    let wide = vec!["é".repeat(200)];
    assert_eq!(list_width(&wide, 120, 30), 60);
}

#[test]
fn elapsed_time_text() {
    assert_eq!(elapsed_text(0), "00:00");
    assert_eq!(elapsed_text(65), "01:05");
    assert_eq!(elapsed_text(599), "09:59");
    assert_eq!(elapsed_text(6000), "100:00");
}

#[test]
fn loading_dots_cycle() {
    assert_eq!(loading_dots(0), ".  ");
    assert_eq!(loading_dots(150), ".. ");
    assert_eq!(loading_dots(250), "...");
    assert_eq!(loading_dots(399), "   ");
    assert_eq!(loading_dots(400), ".  ");
}

#[test]
fn escape_sequences_are_removed() {
    assert_eq!(strip_ansi("\x1b[38;2;1;2;3mab\x1b[39m c"), "ab c");
    assert_eq!(strip_ansi("\x1b[mX"), "X");
    assert_eq!(strip_ansi("plain"), "plain");
}

#[test]
fn incomplete_escape_sequences_stay() {
    assert_eq!(strip_ansi("\x1b[12"), "\x1b[12");
    assert_eq!(strip_ansi("\x1bx"), "\x1bx");
    assert_eq!(strip_ansi("\x1b[1?m"), "\x1b[1?m");
    assert_eq!(strip_ansi("\x1b\x1b[0m!"), "\x1b!");
}

#[test]
fn preview_size_is_measured_without_colors() {
    assert_eq!(preview_dimensions("\x1b[31mabc\x1b[39m\nde"), (3, 2));
    assert_eq!(preview_dimensions(""), (0, 1));
    assert_eq!(preview_dimensions("a\n\n"), (1, 3));
}
