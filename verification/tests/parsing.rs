use askey::markup::MarkupStyle;
use askey::models::{AskeyFile, FrameObj, Frames, Metadata, Palette};
use askey::parser::{parse_first_frame, parse_frames, parse_hex_rgb, parse_single_frame};
use askey::text::hex_color_string;

fn palette(entries: &[(&str, &str)]) -> Palette {
    let mut p = Palette::new();
    for (k, v) in entries {
        p.insert(k.to_string(), v.to_string());
    }
    p
}

fn document(v: &str, pal: Palette, d: Option<u64>, fr: Frames) -> AskeyFile {
    AskeyFile {
        v: v.to_string(),
        n: None,
        m: Metadata { f: 0, d: 100, t: "simple".to_string() },
        p: pal,
        d,
        fr,
    }
}

#[test]
fn hex_rgb_reads_three_fields() {
    assert_eq!(parse_hex_rgb("#ff0000"), Some((255, 0, 0)));
    assert_eq!(parse_hex_rgb("#0A1b2C"), Some((10, 27, 44)));
}

#[test]
fn hex_rgb_accepts_a_plus_sign_in_a_field() {
    assert_eq!(parse_hex_rgb("#+f+1+0"), Some((15, 1, 0)));
}

#[test]
fn hex_rgb_rejects_other_text() {
    assert_eq!(parse_hex_rgb("ff0000"), None);
    assert_eq!(parse_hex_rgb("#ff000"), None);
    assert_eq!(parse_hex_rgb("#ff00000"), None);
    assert_eq!(parse_hex_rgb("#gg0000"), None);
    assert_eq!(parse_hex_rgb("#-10000"), None);
    assert_eq!(parse_hex_rgb(""), None);
}

#[test]
fn hex_color_reads_back() {
    for (r, g, b) in [(0u8, 0u8, 0u8), (255, 255, 255), (1, 128, 254), (16, 15, 160)] {
        let s = hex_color_string(r, g, b);
        assert_eq!(s.len(), 7);
        assert_eq!(parse_hex_rgb(&s), Some((r, g, b)));
    }
    assert_eq!(hex_color_string(1, 171, 255), "#01abff");
}

#[test]
fn braces_span_is_colored() {
    let p = palette(&[("0", "#ff0000")]);
    let f = parse_single_frame("{0:ab} c", &p, 70, MarkupStyle::Braces);
    assert_eq!(f.ansi_content, "\x1b[38;2;255;0;0mab\x1b[39m c");
    assert_eq!(f.width, 4);
    assert_eq!(f.height, 1);
    assert_eq!(f.delay, 70);
}

#[test]
fn tags_span_is_colored() {
    let p = palette(&[("0", "#00ff00")]);
    let f = parse_single_frame("<s c=\"0\">ab</s>x", &p, 5, MarkupStyle::Tags);
    assert_eq!(f.ansi_content, "\x1b[38;2;0;255;0mab\x1b[39mx");
    assert_eq!(f.width, 3);
    assert_eq!(f.height, 1);
}

#[test]
fn key_with_c_prefix_is_looked_up() {
    let p = palette(&[("c1", "#0000ff")]);
    let f = parse_single_frame("{1:z}", &p, 0, MarkupStyle::Braces);
    assert_eq!(f.ansi_content, "\x1b[38;2;0;0;255mz\x1b[39m");
}

#[test]
fn unknown_key_leaves_text_plain() {
    let p = Palette::new();
    let f = parse_single_frame("{q:hi}!", &p, 0, MarkupStyle::Braces);
    assert_eq!(f.ansi_content, "hi!");
    assert_eq!(f.width, 3);
}

#[test]
fn key_that_is_a_color_colors_its_text() {
    let p = Palette::new();
    let f = parse_single_frame("{#010203:x}", &p, 0, MarkupStyle::Braces);
    assert_eq!(f.ansi_content, "\x1b[38;2;1;2;3mx\x1b[39m");
}

#[test]
fn unclosed_span_is_plain_text() {
    let p = palette(&[("0", "#ff0000")]);
    let f = parse_single_frame("{0:ab", &p, 0, MarkupStyle::Braces);
    assert_eq!(f.ansi_content, "{0:ab");
    assert_eq!(f.width, 5);
}

#[test]
fn frame_size_counts_lines() {
    let p = Palette::new();
    let f = parse_single_frame("ab\ncde\n", &p, 0, MarkupStyle::Braces);
    assert_eq!(f.width, 3);
    assert_eq!(f.height, 3);
    let e = parse_single_frame("", &p, 0, MarkupStyle::Braces);
    assert_eq!(e.width, 0);
    assert_eq!(e.height, 0);
    assert_eq!(e.ansi_content, "");
}

#[test]
fn simple_frames_share_the_default_delay() {
    let a = document(
        "2.1.0",
        palette(&[("0", "#ffffff")]),
        Some(40),
        Frames::Simple(vec!["{0:a}".to_string(), "b".to_string()]),
    );
    let frames = parse_frames(&a);
    assert_eq!(frames.len(), 2);
    assert_eq!(frames[0].ansi_content, "\x1b[38;2;255;255;255ma\x1b[39m");
    assert_eq!(frames[0].delay, 40);
    assert_eq!(frames[1].ansi_content, "b");
    assert_eq!(frames[1].delay, 40);
}

#[test]
fn missing_default_delay_is_100() {
    let a = document("2.1.0", Palette::new(), None, Frames::Simple(vec!["x".to_string()]));
    assert_eq!(parse_frames(&a)[0].delay, 100);
}

#[test]
fn detailed_frames_keep_their_delays() {
    let a = document(
        "2.1.0",
        Palette::new(),
        Some(40),
        Frames::Detailed(vec![
            FrameObj { c: "a".to_string(), d: 10 },
            FrameObj { c: "bb".to_string(), d: 20 },
        ]),
    );
    let frames = parse_frames(&a);
    assert_eq!(frames.len(), 2);
    assert_eq!(frames[0].delay, 10);
    assert_eq!(frames[1].delay, 20);
    assert_eq!(frames[1].width, 2);
}

#[test]
fn older_documents_with_tags_use_tags() {
    let a = document(
        "1.0",
        palette(&[("0", "#ff0000")]),
        Some(10),
        Frames::Simple(vec!["<s c=\"0\">a</s>{0:b}".to_string()]),
    );
    let frames = parse_frames(&a);
    assert_eq!(frames[0].ansi_content, "\x1b[38;2;255;0;0ma\x1b[39m{0:b}");
}

#[test]
fn older_documents_without_tags_use_braces() {
    let a = document("1.0", palette(&[("0", "#ff0000")]), Some(10), Frames::Simple(vec!["{0:b}".to_string()]));
    assert_eq!(parse_frames(&a)[0].ansi_content, "\x1b[38;2;255;0;0mb\x1b[39m");
}

#[test]
fn format_2_1_and_1_1_use_braces() {
    for v in ["2.1.0", "1.1"] {
        let a = document(v, palette(&[("0", "#ff0000")]), Some(10), Frames::Simple(vec!["<s c=\"0\">a</s>".to_string()]));
        assert_eq!(parse_frames(&a)[0].ansi_content, "<s c=\"0\">a</s>");
    }
}

#[test]
fn first_frame_is_the_first_of_all_frames() {
    let a = document(
        "2.1.0",
        palette(&[("0", "#123456")]),
        Some(30),
        Frames::Detailed(vec![
            FrameObj { c: "{0:ab}\nc".to_string(), d: 15 },
            FrameObj { c: "z".to_string(), d: 20 },
        ]),
    );
    let all = parse_frames(&a);
    let first = parse_first_frame(&a).unwrap();
    assert_eq!(first.ansi_content, all[0].ansi_content);
    assert_eq!(first.width, all[0].width);
    assert_eq!(first.height, all[0].height);
    assert_eq!(first.delay, all[0].delay);
    assert_eq!(first.width, 2);
    assert_eq!(first.height, 2);
}

#[test]
fn no_frames_gives_no_first_frame() {
    let a = document("2.1.0", Palette::new(), None, Frames::Simple(Vec::new()));
    assert!(parse_first_frame(&a).is_none());
    assert!(parse_frames(&a).is_empty());
}
