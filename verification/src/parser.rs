//! Turning the frames of an `.askey` document into ANSI-colored text with its size.

use vstd::prelude::*;
use vstd::utf8::{encode_utf8, is_char_boundary};
use owo_colors::OwoColorize;
use crate::text::{chars_of, dec, push_chars, string_of_range, contains_exec, contains_seq, hex_color, hex2, hex_digit_char};
use crate::models::{AskeyFile, FrameObj, Frames, Palette};
use crate::markup::{MarkupStyle, Span, SpanPos, next_span, next_span_exec, lemma_next_span, tag_open_exec, tag_close_exec};

verus! {

/// One frame ready for display: its ANSI text, its size in character cells, and its delay.
pub struct ParsedFrame {
    pub ansi_content: String,
    pub width: u16,
    pub height: u16,
    pub delay: u64,
}

/// The content of a [`ParsedFrame`].
pub struct FrameView {
    pub ansi: Seq<char>,
    pub width: u16,
    pub height: u16,
    pub delay: u64,
}

impl View for ParsedFrame {
    type V = FrameView;

    open spec fn view(&self) -> FrameView {
        FrameView { ansi: self.ansi_content@, width: self.width, height: self.height, delay: self.delay }
    }
}

// ---------------------------------------------------------------------------
// Colors
// ---------------------------------------------------------------------------

/// The value of a hexadecimal digit character.
pub open spec fn hex_value(c: char) -> Option<u8> {
    if '0' <= c && c <= '9' {
        Some(((c as u32) - 48) as u8)
    } else if 'a' <= c && c <= 'f' {
        Some(((c as u32) - 87) as u8)
    } else if 'A' <= c && c <= 'F' {
        Some(((c as u32) - 55) as u8)
    } else {
        None
    }
}

/// A two-character field read as a base-16 `u8`, as `u8::from_str_radix(_, 16)` reads it:
/// two hexadecimal digits, or a `+` sign followed by one digit.
pub open spec fn hex_field(a: char, b: char) -> Option<u8> {
    if a == '+' {
        hex_value(b)
    } else {
        match (hex_value(a), hex_value(b)) {
            (Some(x), Some(y)) => Some((x * 16 + y) as u8),
            _ => None,
        }
    }
}

/// `#rrggbb` read as three bytes.
pub open spec fn spec_hex_rgb(s: Seq<char>) -> Option<(u8, u8, u8)> {
    if s.len() == 7 && s[0] == '#' {
        match (hex_field(s[1], s[2]), hex_field(s[3], s[4]), hex_field(s[5], s[6])) {
            (Some(r), Some(g), Some(b)) => Some((r, g, b)),
            _ => None,
        }
    } else {
        None
    }
}

/// Whether the byte offsets 3 and 5 of a seven-byte `#...` string fall between characters,
/// which reading its three fields needs.
pub open spec fn hex_fields_aligned(s: Seq<char>) -> bool {
    let b = encode_utf8(s);
    (s.len() > 0 && s[0] == '#' && b.len() == 7) ==> (is_char_boundary(b, 3) && is_char_boundary(b, 5))
}

fn hex_value_exec(c: char) -> (r: Option<u8>)
    ensures
        r == hex_value(c),
{
    if '0' <= c && c <= '9' {
        Some(((c as u32) - 48) as u8)
    } else if 'a' <= c && c <= 'f' {
        Some(((c as u32) - 87) as u8)
    } else if 'A' <= c && c <= 'F' {
        Some(((c as u32) - 55) as u8)
    } else {
        None
    }
}

fn hex_field_exec(a: char, b: char) -> (r: Option<u8>)
    ensures
        r == hex_field(a, b),
{
    if a == '+' {
        hex_value_exec(b)
    } else {
        match (hex_value_exec(a), hex_value_exec(b)) {
            (Some(x), Some(y)) => Some(x * 16 + y),
            _ => None,
        }
    }
}

/// Reads a `#rrggbb` color.
pub fn parse_hex_rgb(color_str: &str) -> (r: Option<(u8, u8, u8)>)
    requires
        hex_fields_aligned(color_str@),
    ensures
        r == spec_hex_rgb(color_str@),
{
    let v = chars_of(color_str);
    if v.len() == 7 && v[0] == '#' {
        match (hex_field_exec(v[1], v[2]), hex_field_exec(v[3], v[4]), hex_field_exec(v[5], v[6])) {
            (Some(r), Some(g), Some(b)) => Some((r, g, b)),
            _ => None,
        }
    } else {
        None
    }
}

proof fn lemma_hex_digit(d: nat)
    requires
        d < 16,
    ensures
        hex_value(hex_digit_char(d)) == Some(d as u8),
        hex_digit_char(d) != '+',
        '\0' <= hex_digit_char(d) <= '\u{7f}',
{
    if d < 10 {
        assert(hex_digit_char(d) as u32 == d + 48);
    } else {
        assert(hex_digit_char(d) as u32 == d + 87);
    }
}

proof fn lemma_hex2(b: u8)
    ensures
        hex_field(hex2(b)[0], hex2(b)[1]) == Some(b),
        '\0' <= hex2(b)[0] <= '\u{7f}',
        '\0' <= hex2(b)[1] <= '\u{7f}',
{
    lemma_hex_digit((b / 16) as nat);
    lemma_hex_digit((b % 16) as nat);
}

/// A color written as `#rrggbb` reads back as the same three bytes, and its fields can be
/// read: what the converter puts in a palette is the color the player draws.
pub proof fn lemma_hex_color_roundtrip(r: u8, g: u8, b: u8)
    ensures
        hex_fields_aligned(hex_color(r, g, b)),
        spec_hex_rgb(hex_color(r, g, b)) == Some((r, g, b)),
{
    let s = hex_color(r, g, b);
    lemma_hex2(r);
    lemma_hex2(g);
    lemma_hex2(b);
    assert(s[1] == hex2(r)[0] && s[2] == hex2(r)[1]);
    assert(s[3] == hex2(g)[0] && s[4] == hex2(g)[1]);
    assert(s[5] == hex2(b)[0] && s[6] == hex2(b)[1]);
    assert(vstd::utf8::is_ascii_chars(s));
    let bytes = encode_utf8(s);
    vstd::utf8::is_ascii_chars_encode_utf8(s);
    vstd::utf8::encode_utf8_valid_utf8(s);
    assert(s[3] as u8 == bytes[3]);
    assert(s[5] as u8 == bytes[5]);
    vstd::utf8::is_char_boundary_iff_is_leading_byte(bytes, 3);
    vstd::utf8::is_char_boundary_iff_is_leading_byte(bytes, 5);
}

/// The color of a span: the palette's value for the key, else for the key with a `c`
/// in front (when the key does not start with `c` itself), else the key itself.
pub open spec fn resolve_color(pal: Map<Seq<char>, Seq<char>>, key: Seq<char>) -> Seq<char> {
    if pal.contains_key(key) {
        pal[key]
    } else if !(key.len() > 0 && key[0] == 'c') && pal.contains_key(seq!['c'] + key) {
        pal[seq!['c'] + key]
    } else {
        key
    }
}

/// A key the palette holds takes the palette's color; a key neither it nor its `c`-prefixed
/// form is found under stands for itself; a key found only with a `c` in front takes that
/// entry, unless it already starts with `c`.
pub proof fn lemma_resolve_color(pal: Map<Seq<char>, Seq<char>>, key: Seq<char>, col: Seq<char>)
    ensures
        resolve_color(pal.insert(key, col), key) == col,
        resolve_color(Map::empty(), key) == key,
        !(key.len() > 0 && key[0] == 'c') && !pal.contains_key(key)
            ==> resolve_color(pal.insert(seq!['c'] + key, col), key) == col,
        key.len() > 0 && key[0] == 'c' && !pal.contains_key(key)
            ==> resolve_color(pal.insert(seq!['c'] + key, col), key) == key,
{
    if key.len() > 0 && key[0] == 'c' && !pal.contains_key(key) {
        assert((seq!['c'] + key).len() != key.len());
        assert(seq!['c'] + key != key);
    }
    if !pal.contains_key(key) {
        assert((seq!['c'] + key).len() != key.len());
        assert(seq!['c'] + key != key);
    }
}

/// `ESC [ 38 ; 2 ; r ; g ; b m`, the text, then `ESC [ 39 m`.
pub open spec fn truecolor_seq(text: Seq<char>, r: u8, g: u8, b: u8) -> Seq<char> {
    seq!['\x1b', '[', '3', '8', ';', '2', ';'] + dec(r as nat) + seq![';'] + dec(g as nat) + seq![';']
        + dec(b as nat) + seq!['m'] + text + seq!['\x1b', '[', '3', '9', 'm']
}

/// The text of a span, colored with its resolved color when that reads as `#rrggbb`.
pub open spec fn colorize(pal: Map<Seq<char>, Seq<char>>, key: Seq<char>, text: Seq<char>) -> Seq<char> {
    let col = resolve_color(pal, key);
    if hex_fields_aligned(col) {
        match spec_hex_rgb(col) {
            Some((r, g, b)) => truecolor_seq(text, r, g, b),
            None => text,
        }
    } else {
        text
    }
}

/// Wraps `text` in a 24-bit foreground color with `owo_colors`.
///
/// Trusted: `OwoColorize::truecolor(r, g, b)` displays as `ESC[38;2;{r};{g};{b}m`, the text,
/// and `ESC[39m` (its `Rgb::fmt_ansi_fg` and the `Display` impl of `FgDynColorDisplay`).
#[verifier::external_body]
fn truecolor(text: &str, r: u8, g: u8, b: u8) -> (s: String)
    ensures
        s@ == truecolor_seq(text@, r, g, b),
{
    text.truecolor(r, g, b).to_string()
}

fn color_fields(col: &str) -> (r: Option<(u8, u8, u8)>)
    ensures
        r == (if hex_fields_aligned(col@) { spec_hex_rgb(col@) } else { None }),
{
    let v = chars_of(col);
    let bytes = col.as_bytes();
    if v.len() > 0 && v[0] == '#' && bytes.len() == 7 && !(col.is_char_boundary(3) && col.is_char_boundary(5)) {
        None
    } else {
        parse_hex_rgb(col)
    }
}

/// Appends the colored text of a span to `out`.
fn push_colored(out: &mut String, palette: &Palette, key: &String, text: &String)
    ensures
        final(out)@ == old(out)@ + colorize(palette.map(), key@, text@),
{
    let col: String = match palette.get(key.as_str()) {
        Some(v) => v.clone(),
        None => {
            let kc = chars_of(key.as_str());
            let mut prefixed = String::new();
            prefixed.push('c');
            push_chars(&mut prefixed, &kc, 0, kc.len());
            assert(kc@.subrange(0, kc@.len() as int) =~= kc@);
            assert(prefixed@ =~= seq!['c'] + key@);
            if !(kc.len() > 0 && kc[0] == 'c') {
                match palette.get(prefixed.as_str()) {
                    Some(v) => v.clone(),
                    None => key.clone(),
                }
            } else {
                key.clone()
            }
        },
    };
    assert(col@ == resolve_color(palette.map(), key@));
    match color_fields(col.as_str()) {
        Some((r, g, b)) => {
            let colored = truecolor(text.as_str(), r, g, b);
            let cc = chars_of(colored.as_str());
            push_chars(out, &cc, 0, cc.len());
            assert(cc@.subrange(0, cc@.len() as int) =~= cc@);
        },
        None => {
            let tc = chars_of(text.as_str());
            push_chars(out, &tc, 0, tc.len());
            assert(tc@.subrange(0, tc@.len() as int) =~= tc@);
        },
    }
}

// ---------------------------------------------------------------------------
// Frames
// ---------------------------------------------------------------------------

/// The ANSI text of `c[from..]`: plain text is kept, each span becomes its colored text.
pub open spec fn frame_ansi(c: Seq<char>, style: MarkupStyle, pal: Map<Seq<char>, Seq<char>>, from: int) -> Seq<char>
    decreases c.len() - from,
{
    if from < 0 || from > c.len() {
        seq![]
    } else {
        match next_span(c, style, from) {
            Some(s) => {
                proof {
                    lemma_next_span(c, style, from);
                }
                c.subrange(from, s.start) + colorize(pal, c.subrange(s.key_start, s.key_end), c.subrange(s.text_start, s.text_end))
                    + frame_ansi(c, style, pal, s.end)
            },
            None => c.subrange(from, c.len() as int),
        }
    }
}

/// The characters of `c[from..]` that show on screen: plain text and span texts, without markup.
pub open spec fn frame_visible(c: Seq<char>, style: MarkupStyle, from: int) -> Seq<char>
    decreases c.len() - from,
{
    if from < 0 || from > c.len() {
        seq![]
    } else {
        match next_span(c, style, from) {
            Some(s) => {
                proof {
                    lemma_next_span(c, style, from);
                }
                c.subrange(from, s.start) + c.subrange(s.text_start, s.text_end) + frame_visible(c, style, s.end)
            },
            None => c.subrange(from, c.len() as int),
        }
    }
}

/// Number of line breaks.
pub open spec fn newline_count(s: Seq<char>) -> nat
    decreases s.len(),
{
    if s.len() == 0 {
        0
    } else {
        newline_count(s.drop_last()) + if s.last() == '\n' { 1nat } else { 0nat }
    }
}

/// Length of the last line (the characters after the last line break).
pub open spec fn last_line_len(s: Seq<char>) -> nat
    decreases s.len(),
{
    if s.len() == 0 {
        0
    } else if s.last() == '\n' {
        0
    } else {
        last_line_len(s.drop_last()) + 1
    }
}

/// Length of the longest line.
pub open spec fn max_line_len(s: Seq<char>) -> nat
    decreases s.len(),
{
    if s.len() == 0 {
        0
    } else {
        let m = max_line_len(s.drop_last());
        let l = last_line_len(s);
        if l > m { l } else { m }
    }
}

/// Width in cells of displayed text.
pub open spec fn text_width(vis: Seq<char>) -> u16 {
    max_line_len(vis) as u16
}

/// Height in lines of displayed text: none for empty text, else one more than its line breaks.
pub open spec fn text_height(vis: Seq<char>) -> u16 {
    if vis.len() == 0 {
        0
    } else {
        (newline_count(vis) + 1) as u16
    }
}

/// A text has no more line breaks than characters, and its last line is no longer than its
/// longest, which is no longer than the text.
pub proof fn lemma_line_stats_bounds(s: Seq<char>)
    ensures
        newline_count(s) <= s.len(),
        last_line_len(s) <= max_line_len(s) <= s.len(),
        newline_count(s) == 0 ==> last_line_len(s) == s.len(),
    decreases s.len(),
{
    if s.len() > 0 {
        lemma_line_stats_bounds(s.drop_last());
    }
}

/// Line statistics of the text seen so far.
struct LineStats {
    max: usize,
    cur: usize,
    lines: usize,
}

impl LineStats {
    spec fn describes(self, vis: Seq<char>) -> bool {
        &&& self.max == max_line_len(vis)
        &&& self.cur == last_line_len(vis)
        &&& self.lines == newline_count(vis)
    }
}

/// Counts the characters `c[from..to]` as displayed text following `vis`.
fn count_visible(stats: &mut LineStats, c: &Vec<char>, from: usize, to: usize, Ghost(vis): Ghost<Seq<char>>)
    requires
        from <= to <= c@.len(),
        old(stats).describes(vis),
        vis.len() + (to - from) <= usize::MAX,
    ensures
        final(stats).describes(vis + c@.subrange(from as int, to as int)),
{
    let mut i = from;
    while i < to
        invariant
            from <= i <= to <= c@.len(),
            vis.len() + (to - from) <= usize::MAX,
            stats.describes(vis + c@.subrange(from as int, i as int)),
        decreases to - i,
    {
        let ghost before = vis + c@.subrange(from as int, i as int);
        let ghost after = vis + c@.subrange(from as int, i + 1);
        assert(after.drop_last() =~= before);
        proof {
            lemma_line_stats_bounds(before);
            lemma_line_stats_bounds(after);
        }
        if c[i] == '\n' {
            stats.cur = 0;
            stats.lines = stats.lines + 1;
        } else {
            stats.cur = stats.cur + 1;
            if stats.cur > stats.max {
                stats.max = stats.cur;
            }
        }
        i += 1;
    }
}

proof fn lemma_concat3(a: Seq<char>, b: Seq<char>, x: Seq<char>, rest: Seq<char>)
    ensures
        (a + b + x) + rest == a + (b + x + rest),
{
    assert((a + b + x) + rest =~= a + (b + x + rest));
}

proof fn lemma_frame_end(c: Seq<char>, style: MarkupStyle, pal: Map<Seq<char>, Seq<char>>, from: int)
    requires
        0 <= from <= c.len(),
        next_span(c, style, from) is None,
    ensures
        frame_ansi(c, style, pal, from) == c.subrange(from, c.len() as int),
        frame_visible(c, style, from) == c.subrange(from, c.len() as int),
{
}

proof fn lemma_frame_step(c: Seq<char>, style: MarkupStyle, pal: Map<Seq<char>, Seq<char>>, from: int)
    requires
        0 <= from <= c.len(),
        next_span(c, style, from) is Some,
    ensures
        ({
            let s = next_span(c, style, from)->0;
            &&& from <= s.start
            &&& crate::markup::well_placed(c, s)
            &&& frame_ansi(c, style, pal, from) == c.subrange(from, s.start) + colorize(
                pal,
                c.subrange(s.key_start, s.key_end),
                c.subrange(s.text_start, s.text_end),
            ) + frame_ansi(c, style, pal, s.end)
            &&& frame_visible(c, style, from) == c.subrange(from, s.start) + c.subrange(s.text_start, s.text_end)
                + frame_visible(c, style, s.end)
        }),
{
    lemma_next_span(c, style, from);
}

/// A frame of markup rendered and measured.
pub open spec fn rendered_frame(content: Seq<char>, style: MarkupStyle, pal: Map<Seq<char>, Seq<char>>, delay: u64) -> FrameView {
    FrameView {
        ansi: frame_ansi(content, style, pal, 0),
        width: text_width(frame_visible(content, style, 0)),
        height: text_height(frame_visible(content, style, 0)),
        delay,
    }
}

/// Renders one frame of markup in the given style with the palette's colors,
/// and measures the text it displays.
pub fn parse_single_frame(content: &str, palette: &Palette, delay: u64, style: MarkupStyle) -> (f: ParsedFrame)
    ensures
        f@ == rendered_frame(content@, style, palette.map(), delay),
{
    let c = chars_of(content);
    let open = tag_open_exec();
    let close = tag_close_exec();
    let ghost pal = palette.map();
    let mut out = String::new();
    let mut stats = LineStats { max: 0, cur: 0, lines: 0 };
    let ghost mut vis: Seq<char> = seq![];
    let mut pos: usize = 0;
    loop
        invariant_except_break
            frame_ansi(c@, style, pal, 0) == out@ + frame_ansi(c@, style, pal, pos as int),
            frame_visible(c@, style, 0) == vis + frame_visible(c@, style, pos as int),
        invariant
            pos <= c@.len(),
            c@ == content@,
            open@ == crate::markup::tag_open(),
            close@ == crate::markup::tag_close(),
            pal == palette.map(),
            vis.len() <= pos,
            stats.describes(vis),
        ensures
            frame_ansi(c@, style, pal, 0) == out@,
            frame_visible(c@, style, 0) == vis,
        decreases c@.len() - pos,
    {
        proof {
            lemma_next_span(c@, style, pos as int);
        }
        match next_span_exec(&c, style, pos, &open, &close) {
            None => {
                push_chars(&mut out, &c, pos, c.len());
                count_visible(&mut stats, &c, pos, c.len(), Ghost(vis));
                proof {
                    lemma_frame_end(c@, style, pal, pos as int);
                    vis = vis + c@.subrange(pos as int, c@.len() as int);
                }
                pos = c.len();
                break;
            },
            Some(sp) => {
                proof {
                    lemma_frame_step(c@, style, pal, pos as int);
                }
                let ghost out0 = out@;
                let ghost vis0 = vis;
                push_chars(&mut out, &c, pos, sp.start);
                count_visible(&mut stats, &c, pos, sp.start, Ghost(vis));
                let ghost vis1 = vis + c@.subrange(pos as int, sp.start as int);
                let key = string_of_range(&c, sp.key_start, sp.key_end);
                let text = string_of_range(&c, sp.text_start, sp.text_end);
                push_colored(&mut out, palette, &key, &text);
                count_visible(&mut stats, &c, sp.text_start, sp.text_end, Ghost(vis1));
                proof {
                    vis = vis1 + c@.subrange(sp.text_start as int, sp.text_end as int);
                    lemma_concat3(out0, c@.subrange(pos as int, sp.start as int),
                        colorize(pal, key@, text@), frame_ansi(c@, style, pal, sp.end as int));
                    lemma_concat3(vis0, c@.subrange(pos as int, sp.start as int),
                        c@.subrange(sp.text_start as int, sp.text_end as int), frame_visible(c@, style, sp.end as int));
                }
                pos = sp.end;
            },
        }
    }
    proof {
        lemma_line_stats_bounds(vis);
    }
    if stats.cur > stats.max {
        stats.max = stats.cur;
    }
    let lines = stats.lines;
    proof {
        assert(vis.len() > 0 ==> lines > 0 || stats.max > 0);
    }
    let height: u16 = if lines > 0 || stats.max > 0 {
        let low = #[verifier::truncate] (lines as u16);
        if low == 0xffff {
            assert((lines as u16) == 0xffff ==> (lines + 1) as u16 == 0) by (bit_vector);
            0
        } else {
            assert((lines as u16) < 0xffff ==> (lines + 1) as u16 == (lines as u16) + 1) by (bit_vector);
            low + 1
        }
    } else {
        0
    };
    let width = #[verifier::truncate] (stats.max as u16);
    ParsedFrame { ansi_content: out, width, height, delay }
}

// ---------------------------------------------------------------------------
// Documents
// ---------------------------------------------------------------------------

/// The markup of every frame, in order.
pub open spec fn frame_texts(fr: Frames) -> Seq<Seq<char>> {
    match fr {
        Frames::Simple(list) => list@.map_values(|t: String| t@),
        Frames::Detailed(list) => list@.map_values(|f: FrameObj| f.c@),
    }
}

/// The delay of every frame: a frame's own delay, or the document's default delay
/// (100 ms when it has none) for frames without one.
pub open spec fn frame_delays(a: AskeyFile) -> Seq<u64> {
    match a.fr {
        Frames::Simple(list) => Seq::new(list@.len(), |i: int| match a.d { Some(d) => d, None => 100u64 }),
        Frames::Detailed(list) => list@.map_values(|f: FrameObj| f.d),
    }
}

/// `<s c=`
pub open spec fn tag_marker() -> Seq<char> {
    seq!['<', 's', ' ', 'c', '=']
}

/// The markup style of a document: braces for versions 2.1.0 and 1.1, and whenever
/// the first frame holds no `<s c=`; tags otherwise.
pub open spec fn markup_style(version: Seq<char>, first: Option<Seq<char>>) -> MarkupStyle {
    if version == "2.1.0"@ || version == "1.1"@ || (first matches Some(f) && !contains_seq(f, tag_marker())) {
        MarkupStyle::Braces
    } else {
        MarkupStyle::Tags
    }
}

/// The markup style used for all frames of a document.
pub open spec fn document_style(a: AskeyFile) -> MarkupStyle {
    let texts = frame_texts(a.fr);
    markup_style(a.v@, if texts.len() > 0 { Some(texts[0]) } else { None })
}

/// Every frame of a document rendered and measured.
pub open spec fn rendered_frames(a: AskeyFile) -> Seq<FrameView> {
    let texts = frame_texts(a.fr);
    let delays = frame_delays(a);
    Seq::new(texts.len(), |i: int| rendered_frame(texts[i], document_style(a), a.p.map(), delays[i]))
}

/// The first frame of a document rendered and measured, when it has frames.
pub open spec fn rendered_first_frame(a: AskeyFile) -> Option<FrameView> {
    let texts = frame_texts(a.fr);
    if texts.len() == 0 {
        None
    } else {
        Some(rendered_frame(texts[0], markup_style(a.v@, Some(texts[0])), a.p.map(), frame_delays(a)[0]))
    }
}

fn tag_marker_exec() -> (v: Vec<char>)
    ensures
        v@ == tag_marker(),
{
    let v = vec!['<', 's', ' ', 'c', '='];
    assert(v@ =~= tag_marker());
    v
}

fn choose_style(version: &String, first: Option<&str>) -> (st: MarkupStyle)
    ensures
        st == markup_style(version@, match first { Some(f) => Some(f@), None => None }),
{
    let v21 = "2.1.0".to_string();
    let v11 = "1.1".to_string();
    proof {
        broadcast use vstd::string::group_string_axioms;
    }
    if *version == v21 || *version == v11 {
        return MarkupStyle::Braces;
    }
    match first {
        Some(f) => {
            let fc = chars_of(f);
            let marker = tag_marker_exec();
            if !contains_exec(&fc, &marker) {
                MarkupStyle::Braces
            } else {
                MarkupStyle::Tags
            }
        },
        None => MarkupStyle::Tags,
    }
}

/// Renders and measures every frame of a document.
pub fn parse_frames(askey: &AskeyFile) -> (r: Vec<ParsedFrame>)
    ensures
        r@.len() == rendered_frames(*askey).len(),
        forall|i: int| 0 <= i < r@.len() ==> (#[trigger] r@[i])@ == rendered_frames(*askey)[i],
{
    let ghost texts = frame_texts(askey.fr);
    let ghost delays = frame_delays(*askey);
    let default_delay: u64 = match askey.d {
        Some(d) => d,
        None => 100,
    };
    let mut out: Vec<ParsedFrame> = Vec::new();
    match &askey.fr {
        Frames::Simple(list) => {
            let style = choose_style(&askey.v, if list.len() > 0 { Some(list[0].as_str()) } else { None });
            assert(style == document_style(*askey));
            let mut i: usize = 0;
            while i < list.len()
                invariant
                    0 <= i <= list@.len(),
                    texts == list@.map_values(|t: String| t@),
                    askey.fr == Frames::Simple(*list),
                    delays == frame_delays(*askey),
                    style == document_style(*askey),
                    default_delay == (match askey.d { Some(d) => d, None => 100u64 }),
                    out@.len() == i,
                    forall|j: int| 0 <= j < i ==> (#[trigger] out@[j])@ == rendered_frames(*askey)[j],
                decreases list@.len() - i,
            {
                let f = parse_single_frame(list[i].as_str(), &askey.p, default_delay, style);
                out.push(f);
                i += 1;
            }
        },
        Frames::Detailed(list) => {
            let style = choose_style(&askey.v, if list.len() > 0 { Some(list[0].c.as_str()) } else { None });
            assert(style == document_style(*askey));
            let mut i: usize = 0;
            while i < list.len()
                invariant
                    0 <= i <= list@.len(),
                    texts == list@.map_values(|f: FrameObj| f.c@),
                    askey.fr == Frames::Detailed(*list),
                    delays == frame_delays(*askey),
                    style == document_style(*askey),
                    out@.len() == i,
                    forall|j: int| 0 <= j < i ==> (#[trigger] out@[j])@ == rendered_frames(*askey)[j],
                decreases list@.len() - i,
            {
                let f = parse_single_frame(list[i].c.as_str(), &askey.p, list[i].d, style);
                out.push(f);
                i += 1;
            }
        },
    }
    out
}

/// Renders and measures the first frame of a document, if it has one.
pub fn parse_first_frame(askey: &AskeyFile) -> (r: Option<ParsedFrame>)
    ensures
        match r {
            Some(f) => rendered_first_frame(*askey) == Some(f@),
            None => rendered_first_frame(*askey) is None,
        },
{
    match &askey.fr {
        Frames::Simple(list) => {
            if list.len() == 0 {
                return None;
            }
            let delay: u64 = match askey.d {
                Some(d) => d,
                None => 100,
            };
            let style = choose_style(&askey.v, Some(list[0].as_str()));
            Some(parse_single_frame(list[0].as_str(), &askey.p, delay, style))
        },
        Frames::Detailed(list) => {
            if list.len() == 0 {
                return None;
            }
            let style = choose_style(&askey.v, Some(list[0].c.as_str()));
            Some(parse_single_frame(list[0].c.as_str(), &askey.p, list[0].d, style))
        },
    }
}

/// The first frame rendered alone is the first of all frames rendered together.
pub proof fn lemma_first_frame_is_first(a: AskeyFile)
    ensures
        rendered_first_frame(a) is None <==> rendered_frames(a).len() == 0,
        rendered_frames(a).len() > 0 ==> rendered_first_frame(a) == Some(rendered_frames(a)[0]),
{
}

} // verus!
