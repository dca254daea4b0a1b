use askey::converter::{
    animated_askey, convert_animation, convert_still, delay_ms, glyphs_usable, preset_chars, preview_ansi, preview_of,
    resize_fits, resize_frame, static_askey, target_width, ColorTable, RgbaFrame,
};
use askey::screen::strip_ansi;
use askey::models::{CharsetPreset, FrameObj, Frames};
use askey::parser::parse_frames;

fn frame(width: u32, height: u32, pixels: &[[u8; 4]]) -> RgbaFrame {
    let mut v = Vec::new();
    for p in pixels {
        v.extend_from_slice(p);
    }
    RgbaFrame { width, height, pixels: v }
}

#[test]
fn preset_glyph_lists() {
    assert_eq!(preset_chars(&CharsetPreset::Blocks), vec![' ', '░', '▒', '▓', '█']);
    assert_eq!(preset_chars(&CharsetPreset::Standard), vec![' ', '.', ':', '-', '=', '+', '*', '#', '%', '@']);
    assert_eq!(preset_chars(&CharsetPreset::Detailed).len(), 75);
    assert_eq!(preset_chars(&CharsetPreset::Custom("ab".to_string())), vec!['a', 'b']);
}

#[test]
fn one_row_with_a_transparent_pixel() {
    let f = frame(2, 1, &[[255, 255, 255, 255], [10, 20, 30, 10]]);
    let glyphs = preset_chars(&CharsetPreset::Standard);
    let mut table = ColorTable::new();
    let markup = table.encode_frame(&f, &vec![9, 9], &glyphs, 16);
    assert_eq!(markup, "{0:@} ");
    assert_eq!(table.len(), 1);
    assert_eq!(table.color(0), 0xffffff);
    let pal = table.to_palette();
    assert_eq!(pal.get("0").map(|s| s.as_str()), Some("#ffffff"));
}

#[test]
fn runs_of_one_color_share_a_span() {
    let red = [200, 0, 0, 255];
    let blue = [0, 0, 200, 255];
    let f = frame(3, 2, &[red, red, blue, [0, 0, 0, 0], blue, red]);
    let glyphs = vec![' ', '#'];
    let mut table = ColorTable::new();
    let markup = table.encode_frame(&f, &vec![1, 1, 1, 1, 1, 1], &glyphs, 16);
    assert_eq!(markup, "{0:##}{1:#}\n {1:#}{0:#}");
    assert_eq!(table.len(), 2);
    assert_eq!(table.color(0), 0xd00000);
    assert_eq!(table.color(1), 0x0000d0);
}

#[test]
fn glyph_index_past_the_end_takes_the_last_glyph() {
    let f = frame(1, 1, &[[0, 0, 0, 255]]);
    let glyphs = vec![' ', 'x'];
    let mut table = ColorTable::new();
    assert_eq!(table.encode_frame(&f, &vec![7], &glyphs, 16), "{0:x}");
}

#[test]
fn space_glyph_is_blank() {
    let f = frame(2, 1, &[[0, 0, 0, 255], [9, 9, 9, 255]]);
    let glyphs = vec![' ', 'x'];
    let mut table = ColorTable::new();
    assert_eq!(table.encode_frame(&f, &vec![0, 1], &glyphs, 16), " {0:x}");
    assert_eq!(table.color(0), 0x101010);
}

#[test]
fn quantization_rounds_to_the_step_and_caps() {
    let f = frame(3, 1, &[[100, 7, 8, 255], [250, 250, 250, 255], [31, 32, 33, 255]]);
    let glyphs = vec!['o'];
    let mut table = ColorTable::new();
    let m = table.encode_frame(&f, &vec![0, 0, 0], &glyphs, 16);
    assert_eq!(m, "{0:o}{1:o}{2:o}");
    assert_eq!(table.color(0), 0x600010);
    assert_eq!(table.color(1), 0xffffff);
    assert_eq!(table.color(2), 0x202020);
    let mut t0 = ColorTable::new();
    let m0 = t0.encode_frame(&f, &vec![0, 0, 0], &glyphs, 0);
    assert_eq!(m0, "{0:o}{1:o}{2:o}");
    assert_eq!(t0.color(0), 0x640708);
}

#[test]
fn colors_are_shared_across_frames() {
    let glyphs = vec!['#'];
    let mut table = ColorTable::new();
    let a = table.encode_frame(&frame(1, 1, &[[255, 0, 0, 255]]), &vec![0], &glyphs, 16);
    let b = table.encode_frame(&frame(2, 1, &[[0, 255, 0, 255], [255, 0, 0, 255]]), &vec![0, 0], &glyphs, 16);
    assert_eq!(a, "{0:#}");
    assert_eq!(b, "{1:#}{0:#}");
    assert_eq!(table.len(), 2);
}

#[test]
fn preview_is_the_colored_frame() {
    let f = frame(2, 1, &[[255, 255, 255, 255], [0, 0, 0, 0]]);
    let mut table = ColorTable::new();
    let markup = table.encode_frame(&f, &vec![1, 1], &vec![' ', '@'], 16);
    assert_eq!(preview_ansi(markup, &table), "\x1b[38;2;255;255;255m@\x1b[39m ");
}

#[test]
fn converted_frame_reads_back_as_drawn() {
    let red = [255, 0, 0, 255];
    let green = [0, 255, 0, 255];
    let f = frame(2, 2, &[red, green, [0, 0, 0, 0], red]);
    let mut table = ColorTable::new();
    let markup = table.encode_frame(&f, &vec![0, 0, 0, 0], &vec!['%'], 16);
    let doc = static_askey("pic.png".to_string(), markup, &table);
    let parsed = parse_frames(&doc);
    assert_eq!(parsed.len(), 1);
    assert_eq!(
        parsed[0].ansi_content,
        "\x1b[38;2;255;0;0m%\x1b[39m\x1b[38;2;0;255;0m%\x1b[39m\n \x1b[38;2;255;0;0m%\x1b[39m"
    );
    assert_eq!(parsed[0].width, 2);
    assert_eq!(parsed[0].height, 2);
    assert_eq!(parsed[0].delay, 100);
}

#[test]
fn still_document_fields() {
    let mut table = ColorTable::new();
    let m = table.encode_frame(&frame(1, 1, &[[0, 0, 255, 255]]), &vec![0], &vec!['x'], 16);
    let doc = static_askey("a.png".to_string(), m, &table);
    assert_eq!(doc.v, "2.1.0");
    assert_eq!(doc.n.as_deref(), Some("a.png"));
    assert_eq!(doc.m.f, 1);
    assert_eq!(doc.m.d, 100);
    assert_eq!(doc.m.t, "simple");
    assert_eq!(doc.d, Some(100));
    assert_eq!(doc.p.get("0").map(|s| s.as_str()), Some("#0000ff"));
    match &doc.fr {
        Frames::Simple(v) => assert_eq!(v, &vec!["{0:x}".to_string()]),
        Frames::Detailed(_) => panic!("expected simple frames"),
    }
}

#[test]
fn animated_document_fields() {
    let table = ColorTable::new();
    let frames = vec![FrameObj { c: "a".to_string(), d: 30 }, FrameObj { c: "b".to_string(), d: 40 }];
    let doc = animated_askey("x.gif".to_string(), frames, 30, &table);
    assert_eq!(doc.v, "2.1.0");
    assert_eq!(doc.m.f, 2);
    assert_eq!(doc.m.d, 30);
    assert_eq!(doc.m.t, "detailed");
    assert_eq!(doc.d, Some(30));
    assert_eq!(doc.p.len(), 0);
    let parsed = parse_frames(&doc);
    assert_eq!(parsed[1].delay, 40);
}

#[test]
fn resize_gives_the_requested_size() {
    let px = [[10, 20, 30, 255]; 16];
    let src = frame(4, 4, &px);
    let r = resize_frame(&src, 2, 3);
    assert_eq!(r.width, 2);
    assert_eq!(r.height, 3);
    assert_eq!(r.pixels.len(), 2 * 3 * 4);
    for p in r.pixels.chunks(4) {
        assert_eq!(p, &[10, 20, 30, 255]);
    }
}

#[test]
fn glyphs_needed_only_for_visible_pixels() {
    let opaque = frame(1, 1, &[[0, 0, 0, 200]]);
    let clear = frame(1, 1, &[[0, 0, 0, 10]]);
    assert!(!glyphs_usable(&opaque, &Vec::new()));
    assert!(glyphs_usable(&clear, &Vec::new()));
    assert!(glyphs_usable(&opaque, &vec!['a']));
}

#[test]
fn gif_delays() {
    assert_eq!(delay_ms(100, 1, 50), 100);
    assert_eq!(delay_ms(7, 2, 50), 3);
    assert_eq!(delay_ms(5, 0, 50), 50);
}

#[test]
fn preview_measures_as_the_converted_grid() {
    let a = [200, 10, 10, 255];
    let b = [10, 200, 10, 255];
    let f = frame(3, 2, &[a, b, b, [0, 0, 0, 0], a, a]);
    let mut table = ColorTable::new();
    let markup = table.encode_frame(&f, &vec![0; 6], &vec!['▓'], 16);
    let preview = preview_ansi(markup, &table);
    assert_eq!(askey::screen::strip_ansi(&preview), "▓▓▓\n ▓▓");
    assert_eq!(askey::screen::preview_dimensions(&preview), (3, 2));
}

#[test]
fn resize_limits() {
    let src = frame(2, 2, &[[1, 2, 3, 4]; 4]);
    assert!(resize_fits(&src, 100, 100));
    assert!(!resize_fits(&src, u32::MAX, u32::MAX));
    let empty = RgbaFrame { width: 0, height: 0, pixels: Vec::new() };
    assert!(resize_fits(&empty, 3, 3));
    let r = resize_frame(&empty, 3, 2);
    assert_eq!(r.pixels, vec![0u8; 24]);
}

#[test]
fn earlier_frames_keep_their_colors_when_later_frames_add_some() {
    let mut table = ColorTable::new();
    let glyphs = vec!['#'];
    let first = table.encode_frame(&frame(1, 1, &[[255, 0, 0, 255]]), &vec![0], &glyphs, 16);
    let second = table.encode_frame(&frame(2, 1, &[[0, 0, 255, 255], [255, 0, 0, 255]]), &vec![0, 0], &glyphs, 16);
    let frames = vec![FrameObj { c: first, d: 10 }, FrameObj { c: second, d: 20 }];
    let doc = animated_askey("a.gif".to_string(), frames, 10, &table);
    let parsed = parse_frames(&doc);
    assert_eq!(parsed[0].ansi_content, "\x1b[38;2;255;0;0m#\x1b[39m");
    assert_eq!(parsed[1].ansi_content, "\x1b[38;2;0;0;255m#\x1b[39m\x1b[38;2;255;0;0m#\x1b[39m");
}

#[test]
fn conversion_width_has_a_floor_of_eight() {
    assert_eq!(target_width(0), 8);
    assert_eq!(target_width(5), 8);
    assert_eq!(target_width(8), 8);
    assert_eq!(target_width(9), 9);
    assert_eq!(target_width(60), 60);
}

#[test]
fn animation_frames_share_one_table_and_keep_their_delays() {
    let red = [255, 0, 0, 255];
    let blue = [0, 0, 255, 255];
    let frames = vec![frame(2, 1, &[red, red]), frame(2, 1, &[blue, red])];
    let idx = vec![vec![1, 1], vec![1, 0]];
    let glyphs = vec!['.', '#'];
    let doc = convert_animation("a.gif".to_string(), &frames, &idx, &vec![70, 90], &glyphs, 16);
    assert_eq!(doc.v, "2.1.0");
    assert_eq!(doc.n.as_deref(), Some("a.gif"));
    assert_eq!(doc.m.f, 2);
    assert_eq!(doc.m.d, 70);
    assert_eq!(doc.d, Some(70));
    assert_eq!(doc.p.get("0").map(|s| s.as_str()), Some("#ff0000"));
    assert_eq!(doc.p.get("1").map(|s| s.as_str()), Some("#0000ff"));
    assert_eq!(doc.p.len(), 2);
    let parsed = parse_frames(&doc);
    assert_eq!(parsed.len(), 2);
    assert_eq!(parsed[0].ansi_content, "\x1b[38;2;255;0;0m##\x1b[39m");
    assert_eq!(parsed[1].ansi_content, "\x1b[38;2;0;0;255m#\x1b[39m\x1b[38;2;255;0;0m.\x1b[39m");
    assert_eq!((parsed[0].width, parsed[0].height, parsed[0].delay), (2, 1, 70));
    assert_eq!((parsed[1].width, parsed[1].height, parsed[1].delay), (2, 1, 90));
    match &doc.fr {
        Frames::Detailed(v) => {
            assert_eq!(v[0].c, "{0:##}");
            assert_eq!(v[1].c, "{1:#}{0:.}");
        },
        Frames::Simple(_) => panic!("expected detailed frames"),
    }
}

#[test]
fn still_conversion_and_preview_show_the_same() {
    let f = frame(3, 1, &[[0, 255, 0, 255], [0, 0, 0, 0], [0, 255, 0, 255]]);
    let idx = vec![2, 2, 1];
    let glyphs = vec![' ', ':', '@'];
    let doc = convert_still("g.png".to_string(), &f, &idx, &glyphs, 16);
    assert_eq!(doc.m.t, "simple");
    let parsed = parse_frames(&doc);
    assert_eq!(parsed.len(), 1);
    let preview = preview_of(&f, &idx, &glyphs, 16);
    assert_eq!(preview, "\x1b[38;2;0;255;0m@\x1b[39m \x1b[38;2;0;255;0m:\x1b[39m");
    assert_eq!(parsed[0].ansi_content, preview);
}

#[test]
fn rendered_frame_strips_to_its_visible_text() {
    let red = [255, 0, 0, 255];
    let green = [0, 255, 0, 255];
    let f = frame(2, 2, &[red, green, [0, 0, 0, 0], red]);
    let doc = convert_still("p.png".to_string(), &f, &vec![0, 0, 0, 0], &vec!['%'], 16);
    let parsed = parse_frames(&doc);
    assert_eq!(strip_ansi(&parsed[0].ansi_content), "%%\n %");
}
