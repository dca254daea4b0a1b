//! What a conversion writes is what the player shows: the braces markup the converter
//! makes from a grid of cells reads back, through the parser, as exactly those glyphs, and
//! each run of glyphs in exactly its color.

use vstd::prelude::*;
use crate::text::{dec, digit_char, hex_color};
use crate::markup::{MarkupStyle, Span, find_char, span_at, next_span, lemma_find_char, lemma_next_span};
use crate::parser::{
    frame_visible, frame_ansi, colorize, resolve_color, truecolor_seq, lemma_hex_color_roundtrip, newline_count,
    last_line_len, max_line_len, text_width, text_height, FrameView, rendered_frames, rendered_frame, frame_texts,
};
use crate::models::AskeyFile;
use crate::converter::{
    Cell, glyph_text, run_len, lemma_run_len, span_markup, encode_cells, row_of, grid_markup, table_key, color_index,
    palette_of, lemma_palette_of, color_hex, unpack_rgb, lemma_color_index, lemma_digit_char, table_after,
    lemma_table_after_grows, table_through,
};
use crate::parser::frame_delays;

verus! {

// ---------------------------------------------------------------------------
// Reading markup that follows other text
// ---------------------------------------------------------------------------

/// `s` moved `d` characters to the right.
pub open spec fn shift_span(s: Span, d: int) -> Span {
    Span {
        start: s.start + d,
        key_start: s.key_start + d,
        key_end: s.key_end + d,
        text_start: s.text_start + d,
        text_end: s.text_end + d,
        end: s.end + d,
    }
}

proof fn lemma_find_char_shift(p: Seq<char>, r: Seq<char>, t: char, x: int)
    requires
        0 <= x,
    ensures
        find_char(p + r, t, p.len() + x) == match find_char(r, t, x) {
            Some(k) => Some(k + p.len()),
            None => None::<int>,
        },
    decreases r.len() - x,
{
    if x < r.len() {
        assert((p + r)[p.len() + x] == r[x]);
        if r[x] != t {
            lemma_find_char_shift(p, r, t, x + 1);
            assert(p.len() + x + 1 == p.len() + (x + 1));
        }
    }
}

proof fn lemma_span_at_shift(p: Seq<char>, r: Seq<char>, x: int)
    requires
        0 <= x,
    ensures
        span_at(p + r, MarkupStyle::Braces, p.len() + x) == match span_at(r, MarkupStyle::Braces, x) {
            Some(s) => Some(shift_span(s, p.len() as int)),
            None => None::<Span>,
        },
{
    let c = p + r;
    let d = p.len() as int;
    if x < r.len() {
        assert(c[d + x] == r[x]);
        lemma_find_char_shift(p, r, ':', x + 1);
        assert(d + x + 1 == d + (x + 1));
        if let Some(j) = find_char(r, ':', x + 1) {
            lemma_find_char(r, ':', x + 1);
            lemma_find_char_shift(p, r, '}', j + 1);
            assert(d + j + 1 == d + (j + 1));
        }
    }
}

proof fn lemma_next_span_shift(p: Seq<char>, r: Seq<char>, x: int)
    requires
        0 <= x,
    ensures
        next_span(p + r, MarkupStyle::Braces, p.len() + x) == match next_span(r, MarkupStyle::Braces, x) {
            Some(s) => Some(shift_span(s, p.len() as int)),
            None => None::<Span>,
        },
    decreases r.len() - x,
{
    if x < r.len() {
        lemma_span_at_shift(p, r, x);
        if span_at(r, MarkupStyle::Braces, x) is None {
            lemma_next_span_shift(p, r, x + 1);
            assert(p.len() + x + 1 == p.len() + (x + 1));
        }
    }
}

proof fn lemma_visible_shift(p: Seq<char>, r: Seq<char>, x: int)
    requires
        0 <= x,
    ensures
        frame_visible(p + r, MarkupStyle::Braces, p.len() + x) == frame_visible(r, MarkupStyle::Braces, x),
    decreases r.len() - x,
{
    let c = p + r;
    let d = p.len() as int;
    if x <= r.len() {
        lemma_next_span_shift(p, r, x);
        lemma_next_span(r, MarkupStyle::Braces, x);
        match next_span(r, MarkupStyle::Braces, x) {
            Some(s) => {
                assert(c.subrange(d + x, d + s.start) =~= r.subrange(x, s.start));
                assert(c.subrange(d + s.text_start, d + s.text_end) =~= r.subrange(s.text_start, s.text_end));
                lemma_visible_shift(p, r, s.end);
            },
            None => {
                assert(c.subrange(d + x, c.len() as int) =~= r.subrange(x, r.len() as int));
            },
        }
    }
}

proof fn lemma_ansi_shift(p: Seq<char>, r: Seq<char>, pal: Map<Seq<char>, Seq<char>>, x: int)
    requires
        0 <= x,
    ensures
        frame_ansi(p + r, MarkupStyle::Braces, pal, p.len() + x) == frame_ansi(r, MarkupStyle::Braces, pal, x),
    decreases r.len() - x,
{
    let c = p + r;
    let d = p.len() as int;
    if x <= r.len() {
        lemma_next_span_shift(p, r, x);
        lemma_next_span(r, MarkupStyle::Braces, x);
        match next_span(r, MarkupStyle::Braces, x) {
            Some(s) => {
                assert(c.subrange(d + x, d + s.start) =~= r.subrange(x, s.start));
                assert(c.subrange(d + s.key_start, d + s.key_end) =~= r.subrange(s.key_start, s.key_end));
                assert(c.subrange(d + s.text_start, d + s.text_end) =~= r.subrange(s.text_start, s.text_end));
                lemma_ansi_shift(p, r, pal, s.end);
            },
            None => {
                assert(c.subrange(d + x, c.len() as int) =~= r.subrange(x, r.len() as int));
            },
        }
    }
}

/// Where no span starts, the character shows as it is.
proof fn lemma_plain_step(c: Seq<char>, pal: Map<Seq<char>, Seq<char>>, from: int)
    requires
        0 <= from < c.len(),
        span_at(c, MarkupStyle::Braces, from) is None,
    ensures
        frame_visible(c, MarkupStyle::Braces, from) == seq![c[from]] + frame_visible(c, MarkupStyle::Braces, from + 1),
        frame_ansi(c, MarkupStyle::Braces, pal, from) == seq![c[from]] + frame_ansi(c, MarkupStyle::Braces, pal, from + 1),
{
    lemma_next_span(c, MarkupStyle::Braces, from + 1);
    match next_span(c, MarkupStyle::Braces, from + 1) {
        Some(s) => {
            assert(c.subrange(from, s.start) =~= seq![c[from]] + c.subrange(from + 1, s.start));
        },
        None => {
            assert(c.subrange(from, c.len() as int) =~= seq![c[from]] + c.subrange(from + 1, c.len() as int));
        },
    }
}

/// Where a span starts, its text shows (colored, in the ANSI text) and reading goes on after it.
proof fn lemma_span_step(c: Seq<char>, pal: Map<Seq<char>, Seq<char>>, from: int, s: Span)
    requires
        0 <= from < c.len(),
        span_at(c, MarkupStyle::Braces, from) == Some(s),
    ensures
        frame_visible(c, MarkupStyle::Braces, from) == c.subrange(s.text_start, s.text_end)
            + frame_visible(c, MarkupStyle::Braces, s.end),
        frame_ansi(c, MarkupStyle::Braces, pal, from) == colorize(pal, c.subrange(s.key_start, s.key_end),
            c.subrange(s.text_start, s.text_end)) + frame_ansi(c, MarkupStyle::Braces, pal, s.end),
{
    crate::markup::lemma_span_at(c, MarkupStyle::Braces, from);
    assert(c.subrange(from, from) =~= Seq::<char>::empty());
    assert(Seq::<char>::empty() + c.subrange(s.text_start, s.text_end) =~= c.subrange(s.text_start, s.text_end));
}

proof fn lemma_find_char_at(c: Seq<char>, t: char, from: int, at: int)
    requires
        0 <= from <= at < c.len(),
        c[at] == t,
        forall|m: int| from <= m < at ==> c[m] != t,
    ensures
        find_char(c, t, from) == Some(at),
{
    lemma_find_char(c, t, from);
}

// ---------------------------------------------------------------------------
// The markup of a row of cells, read back
// ---------------------------------------------------------------------------

/// The digits of a decimal representation are `0` to `9`.
pub proof fn lemma_dec_digits(n: nat)
    ensures
        forall|i: int| 0 <= i < dec(n).len() ==> '0' <= #[trigger] dec(n)[i] <= '9',
    decreases n,
{
    if n < 10 {
        lemma_digit_char(n);
    } else {
        lemma_dec_digits(n / 10);
        lemma_digit_char(n % 10);
        assert forall|i: int| 0 <= i < dec(n).len() implies '0' <= #[trigger] dec(n)[i] <= '9' by {
            if i < dec(n / 10).len() {
                assert(dec(n)[i] == dec(n / 10)[i]);
            }
        }
    }
}

/// Whether no cell shows a closing brace, which would end its span early.
pub open spec fn no_close_brace(cells: Seq<Cell>) -> bool {
    forall|i: int| 0 <= i < cells.len() ==> !(#[trigger] cells[i] matches Cell::Glyph(ch, _) && ch == '}')
}

/// The span of `{key:text}` read at the start of markup that begins with it.
proof fn lemma_read_span(key: nat, text: Seq<char>, rest: Seq<char>)
    requires
        forall|i: int| 0 <= i < text.len() ==> text[i] != '}',
    ensures
        ({
            let m = span_markup(key, text);
            let c = m + rest;
            let kl = dec(key).len() as int;
            &&& span_at(c, MarkupStyle::Braces, 0) == Some(Span {
                start: 0,
                key_start: 1,
                key_end: 1 + kl,
                text_start: 2 + kl,
                text_end: 2 + kl + text.len(),
                end: m.len() as int,
            })
            &&& c.subrange(1, 1 + kl) == dec(key)
            &&& c.subrange(2 + kl, 2 + kl + text.len()) == text
            &&& m.len() == 3 + kl + text.len()
        }),
{
    let m = span_markup(key, text);
    let c = m + rest;
    let kl = dec(key).len() as int;
    lemma_dec_digits(key);
    crate::converter::lemma_dec_len(key);
    assert(c[0] == '{');
    assert forall|i: int| 0 <= i < kl implies c[1 + i] == dec(key)[i] by {}
    assert(c[1 + kl] == ':');
    assert forall|i: int| 0 <= i < text.len() implies c[2 + kl + i] == text[i] by {}
    assert(c[2 + kl + text.len()] == '}');
    assert forall|mm: int| 1 <= mm < 1 + kl implies c[mm] != ':' by {
        assert(c[mm] == dec(key)[mm - 1]);
    }
    lemma_find_char_at(c, ':', 1, 1 + kl);
    assert forall|mm: int| 2 + kl <= mm < 2 + kl + text.len() implies c[mm] != '}' by {
        assert(c[mm] == text[mm - 2 - kl]);
    }
    lemma_find_char_at(c, '}', 2 + kl, 2 + kl + text.len());
    assert(c.subrange(1, 1 + kl) =~= dec(key));
    assert(c.subrange(2 + kl, 2 + kl + text.len()) =~= text);
}

proof fn lemma_tail_no_close_brace(cells: Seq<Cell>, k: int)
    requires
        no_close_brace(cells),
        0 <= k <= cells.len(),
    ensures
        no_close_brace(cells.skip(k)),
{
    assert forall|i: int| 0 <= i < cells.skip(k).len() implies !(#[trigger] cells.skip(k)[i] matches Cell::Glyph(ch, _) && ch == '}') by {
        assert(cells.skip(k)[i] == cells[i + k]);
    }
}

proof fn lemma_row_visible_blank(cells: Seq<Cell>, key: spec_fn(u32) -> nat, rest: Seq<char>)
    requires
        cells.len() > 0,
        cells[0] is Blank,
        frame_visible(encode_cells(cells.skip(1), key) + rest, MarkupStyle::Braces, 0)
            == glyph_text(cells.skip(1)) + frame_visible(rest, MarkupStyle::Braces, 0),
    ensures
        frame_visible(encode_cells(cells, key) + rest, MarkupStyle::Braces, 0)
            == glyph_text(cells) + frame_visible(rest, MarkupStyle::Braces, 0),
{
    assert(cells.skip(1) =~= cells.drop_first());
    let tail_enc = encode_cells(cells.drop_first(), key);
    let c = encode_cells(cells, key) + rest;
    assert(c =~= seq![' '] + (tail_enc + rest));
    lemma_plain_step(c, Map::empty(), 0);
    lemma_visible_shift(seq![' '], tail_enc + rest, 0);
    assert(glyph_text(cells) =~= seq![' '] + glyph_text(cells.drop_first()));
    assert(seq![' '] + (glyph_text(cells.drop_first()) + frame_visible(rest, MarkupStyle::Braces, 0))
        =~= glyph_text(cells) + frame_visible(rest, MarkupStyle::Braces, 0));
}

proof fn lemma_row_visible_run(cells: Seq<Cell>, key: spec_fn(u32) -> nat, rest: Seq<char>, ch: char, col: u32)
    requires
        cells.len() > 0,
        cells[0] == Cell::Glyph(ch, col),
        no_close_brace(cells),
        frame_visible(encode_cells(cells.skip(run_len(cells, col) as int), key) + rest, MarkupStyle::Braces, 0)
            == glyph_text(cells.skip(run_len(cells, col) as int)) + frame_visible(rest, MarkupStyle::Braces, 0),
    ensures
        frame_visible(encode_cells(cells, key) + rest, MarkupStyle::Braces, 0)
            == glyph_text(cells) + frame_visible(rest, MarkupStyle::Braces, 0),
{
    lemma_run_len(cells, col);
    let k = run_len(cells, col) as int;
    let text = glyph_text(cells.take(k));
    let head = span_markup(key(col), text);
    let tail = cells.skip(k);
    let after = encode_cells(tail, key) + rest;
    let c = head + after;
    assert(encode_cells(cells, key) + rest =~= c);
    assert forall|i: int| 0 <= i < text.len() implies text[i] != '}' by {
        assert(cells.take(k)[i] == cells[i]);
    }
    lemma_read_span(key(col), text, after);
    let kl = dec(key(col)).len() as int;
    lemma_span_step(c, Map::empty(), 0, Span {
        start: 0,
        key_start: 1,
        key_end: 1 + kl,
        text_start: 2 + kl,
        text_end: 2 + kl + text.len(),
        end: head.len() as int,
    });
    lemma_visible_shift(head, after, 0);
    assert(glyph_text(cells) =~= text + glyph_text(tail));
    assert(text + (glyph_text(tail) + frame_visible(rest, MarkupStyle::Braces, 0))
        =~= glyph_text(cells) + frame_visible(rest, MarkupStyle::Braces, 0));
}

/// The braces markup of a row of cells, followed by any text, shows the row's glyphs (a space
/// for a blank cell) followed by what that text shows.
pub proof fn lemma_row_visible(cells: Seq<Cell>, key: spec_fn(u32) -> nat, rest: Seq<char>)
    requires
        no_close_brace(cells),
    ensures
        frame_visible(encode_cells(cells, key) + rest, MarkupStyle::Braces, 0)
            == glyph_text(cells) + frame_visible(rest, MarkupStyle::Braces, 0),
    decreases cells.len(),
{
    if cells.len() == 0 {
        assert(encode_cells(cells, key) + rest =~= rest);
        assert(glyph_text(cells) + frame_visible(rest, MarkupStyle::Braces, 0) =~= frame_visible(rest, MarkupStyle::Braces, 0));
    } else {
        match cells[0] {
            Cell::Blank => {
                lemma_tail_no_close_brace(cells, 1);
                lemma_row_visible(cells.skip(1), key, rest);
                lemma_row_visible_blank(cells, key, rest);
            },
            Cell::Glyph(ch, col) => {
                lemma_run_len(cells, col);
                let k = run_len(cells, col) as int;
                lemma_tail_no_close_brace(cells, k);
                lemma_row_visible(cells.skip(k), key, rest);
                lemma_row_visible_run(cells, key, rest, ch, col);
            },
        }
    }
}

/// The glyphs of the first `rows` rows of a grid `w` wide, rows separated by line breaks.
pub open spec fn grid_text(cells: Seq<Cell>, w: nat, rows: nat) -> Seq<char>
    decreases rows,
{
    if rows == 0 {
        seq![]
    } else if rows == 1 {
        glyph_text(row_of(cells, w, 0))
    } else {
        grid_text(cells, w, (rows - 1) as nat) + seq!['\n'] + glyph_text(row_of(cells, w, rows - 1))
    }
}

proof fn lemma_row_no_close_brace(cells: Seq<Cell>, w: nat, y: int)
    requires
        no_close_brace(cells),
        0 <= y,
        y * w + w <= cells.len(),
    ensures
        no_close_brace(row_of(cells, w, y)),
{
    assert forall|i: int| 0 <= i < row_of(cells, w, y).len() implies !(#[trigger] row_of(cells, w, y)[i] matches Cell::Glyph(ch, _) && ch == '}') by {
        assert(row_of(cells, w, y)[i] == cells[y * w + i]);
    }
}

#[verifier::spinoff_prover]
proof fn lemma_grid_visible(cells: Seq<Cell>, w: nat, rows: nat, key: spec_fn(u32) -> nat, rest: Seq<char>)
    requires
        no_close_brace(cells),
        rows * w <= cells.len(),
    ensures
        frame_visible(grid_markup(cells, w, rows, key) + rest, MarkupStyle::Braces, 0)
            == grid_text(cells, w, rows) + frame_visible(rest, MarkupStyle::Braces, 0),
    decreases rows,
{
    if rows == 0 {
        assert(grid_markup(cells, w, rows, key) + rest =~= rest);
        assert(grid_text(cells, w, rows) + frame_visible(rest, MarkupStyle::Braces, 0) =~= frame_visible(rest, MarkupStyle::Braces, 0));
    } else {
        let y = rows - 1;
        assert(y * w + w == rows * w) by (nonlinear_arith)
            requires y == rows - 1;
        assert(y * w >= 0) by (nonlinear_arith)
            requires y >= 0;
        lemma_row_no_close_brace(cells, w, y);
        let row = row_of(cells, w, y);
        if rows == 1 {
            lemma_row_visible(row, key, rest);
        } else {
            let tail = seq!['\n'] + (encode_cells(row, key) + rest);
            assert(grid_markup(cells, w, rows, key) + rest =~= grid_markup(cells, w, (rows - 1) as nat, key) + tail);
            assert((rows - 1) * w <= rows * w) by (nonlinear_arith)
                requires rows >= 1;
            lemma_grid_visible(cells, w, (rows - 1) as nat, key, tail);
            lemma_plain_step(tail, Map::empty(), 0);
            lemma_visible_shift(seq!['\n'], encode_cells(row, key) + rest, 0);
            lemma_row_visible(row, key, rest);
            assert(grid_text(cells, w, rows) + frame_visible(rest, MarkupStyle::Braces, 0)
                =~= grid_text(cells, w, (rows - 1) as nat) + (seq!['\n'] + (glyph_text(row) + frame_visible(rest, MarkupStyle::Braces, 0))));
        }
    }
}

/// The markup the converter writes for a grid `w` cells wide and `h` rows high shows, once
/// parsed, exactly the grid's glyphs, row by row (a space for each blank cell), provided no
/// glyph is a closing brace.
pub proof fn lemma_grid_shows_glyphs(cells: Seq<Cell>, w: nat, h: nat, key: spec_fn(u32) -> nat)
    requires
        no_close_brace(cells),
        h * w <= cells.len(),
    ensures
        frame_visible(grid_markup(cells, w, h, key), MarkupStyle::Braces, 0) == grid_text(cells, w, h),
{
    lemma_grid_visible(cells, w, h, key, Seq::empty());
    assert(grid_markup(cells, w, h, key) + Seq::<char>::empty() =~= grid_markup(cells, w, h, key));
    assert(grid_text(cells, w, h) + Seq::<char>::empty() =~= grid_text(cells, w, h));
}

// ---------------------------------------------------------------------------
// Colors read back
// ---------------------------------------------------------------------------

/// What a row of cells shows in the terminal: a space for a blank cell, and each maximal run
/// of glyphs of one color as those glyphs in that 24-bit color.
pub open spec fn shown_cells(cells: Seq<Cell>) -> Seq<char>
    decreases cells.len(),
{
    if cells.len() == 0 {
        seq![]
    } else {
        match cells[0] {
            Cell::Blank => seq![' '] + shown_cells(cells.drop_first()),
            Cell::Glyph(_, col) => {
                proof {
                    lemma_run_len(cells, col);
                }
                let k = run_len(cells, col) as int;
                let (r, g, b) = unpack_rgb(col);
                truecolor_seq(glyph_text(cells.take(k)), r, g, b) + shown_cells(cells.skip(k))
            },
        }
    }
}

/// What the first `rows` rows of a grid `w` wide show, rows separated by line breaks.
pub open spec fn grid_shown(cells: Seq<Cell>, w: nat, rows: nat) -> Seq<char>
    decreases rows,
{
    if rows == 0 {
        seq![]
    } else if rows == 1 {
        shown_cells(row_of(cells, w, 0))
    } else {
        grid_shown(cells, w, (rows - 1) as nat) + seq!['\n'] + shown_cells(row_of(cells, w, rows - 1))
    }
}

/// Whether every glyph color of the cells is in the table.
pub open spec fn colors_in(cells: Seq<Cell>, t: Seq<u32>) -> bool {
    forall|i: int| 0 <= i < cells.len() ==> (#[trigger] cells[i] matches Cell::Glyph(_, c) ==> t.contains(c))
}

/// A span keyed by a color's position in a table shows its text in that color, with the
/// table's palette.
proof fn lemma_palette_color(t: Seq<u32>, col: u32, text: Seq<char>)
    requires
        t.no_duplicates(),
        t.contains(col),
    ensures
        colorize(palette_of(t), dec(color_index(t, col) as nat), text)
            == truecolor_seq(text, unpack_rgb(col).0, unpack_rgb(col).1, unpack_rgb(col).2),
{
    let i = color_index(t, col);
    assert(0 <= i < t.len() && t[i] == col);
    lemma_palette_of(t);
    assert(palette_of(t).contains_key(dec(i as nat)));
    assert(resolve_color(palette_of(t), dec(i as nat)) == color_hex(col));
    lemma_hex_color_roundtrip(unpack_rgb(col).0, unpack_rgb(col).1, unpack_rgb(col).2);
}

proof fn lemma_tail_colors_in(cells: Seq<Cell>, t: Seq<u32>, k: int)
    requires
        colors_in(cells, t),
        0 <= k <= cells.len(),
    ensures
        colors_in(cells.skip(k), t),
{
    assert forall|i: int| 0 <= i < cells.skip(k).len() implies (#[trigger] cells.skip(k)[i] matches Cell::Glyph(_, c) ==> t.contains(c)) by {
        assert(cells.skip(k)[i] == cells[i + k]);
    }
}

proof fn lemma_row_shown_blank(cells: Seq<Cell>, t: Seq<u32>, rest: Seq<char>)
    requires
        cells.len() > 0,
        cells[0] is Blank,
        frame_ansi(encode_cells(cells.skip(1), table_key(t)) + rest, MarkupStyle::Braces, palette_of(t), 0)
            == shown_cells(cells.skip(1)) + frame_ansi(rest, MarkupStyle::Braces, palette_of(t), 0),
    ensures
        frame_ansi(encode_cells(cells, table_key(t)) + rest, MarkupStyle::Braces, palette_of(t), 0)
            == shown_cells(cells) + frame_ansi(rest, MarkupStyle::Braces, palette_of(t), 0),
{
    let pal = palette_of(t);
    let key = table_key(t);
    assert(cells.skip(1) =~= cells.drop_first());
    let tail_enc = encode_cells(cells.drop_first(), key);
    let c = encode_cells(cells, key) + rest;
    assert(c =~= seq![' '] + (tail_enc + rest));
    lemma_plain_step(c, pal, 0);
    lemma_ansi_shift(seq![' '], tail_enc + rest, pal, 0);
    assert(seq![' '] + (shown_cells(cells.drop_first()) + frame_ansi(rest, MarkupStyle::Braces, pal, 0))
        =~= shown_cells(cells) + frame_ansi(rest, MarkupStyle::Braces, pal, 0));
}

proof fn lemma_row_shown_run(cells: Seq<Cell>, t: Seq<u32>, rest: Seq<char>, ch: char, col: u32)
    requires
        cells.len() > 0,
        cells[0] == Cell::Glyph(ch, col),
        no_close_brace(cells),
        t.no_duplicates(),
        t.contains(col),
        frame_ansi(encode_cells(cells.skip(run_len(cells, col) as int), table_key(t)) + rest, MarkupStyle::Braces, palette_of(t), 0)
            == shown_cells(cells.skip(run_len(cells, col) as int)) + frame_ansi(rest, MarkupStyle::Braces, palette_of(t), 0),
    ensures
        frame_ansi(encode_cells(cells, table_key(t)) + rest, MarkupStyle::Braces, palette_of(t), 0)
            == shown_cells(cells) + frame_ansi(rest, MarkupStyle::Braces, palette_of(t), 0),
{
    let pal = palette_of(t);
    let key = table_key(t);
    lemma_run_len(cells, col);
    let k = run_len(cells, col) as int;
    let text = glyph_text(cells.take(k));
    let head = span_markup(key(col), text);
    let tail = cells.skip(k);
    let after = encode_cells(tail, key) + rest;
    let c = head + after;
    assert(encode_cells(cells, key) + rest =~= c);
    assert forall|i: int| 0 <= i < text.len() implies text[i] != '}' by {
        assert(cells.take(k)[i] == cells[i]);
    }
    lemma_read_span(key(col), text, after);
    let kl = dec(key(col)).len() as int;
    lemma_span_step(c, pal, 0, Span {
        start: 0,
        key_start: 1,
        key_end: 1 + kl,
        text_start: 2 + kl,
        text_end: 2 + kl + text.len(),
        end: head.len() as int,
    });
    lemma_ansi_shift(head, after, pal, 0);
    lemma_palette_color(t, col, text);
    let colored = truecolor_seq(text, unpack_rgb(col).0, unpack_rgb(col).1, unpack_rgb(col).2);
    assert(colored + (shown_cells(tail) + frame_ansi(rest, MarkupStyle::Braces, pal, 0))
        =~= shown_cells(cells) + frame_ansi(rest, MarkupStyle::Braces, pal, 0));
}

/// The braces markup of a row of cells, keyed by a table's positions and followed by any
/// text, shows in the table's palette each run of glyphs in its own color, then what that
/// text shows.
pub proof fn lemma_row_shown(cells: Seq<Cell>, t: Seq<u32>, rest: Seq<char>)
    requires
        no_close_brace(cells),
        t.no_duplicates(),
        colors_in(cells, t),
    ensures
        frame_ansi(encode_cells(cells, table_key(t)) + rest, MarkupStyle::Braces, palette_of(t), 0)
            == shown_cells(cells) + frame_ansi(rest, MarkupStyle::Braces, palette_of(t), 0),
    decreases cells.len(),
{
    let pal = palette_of(t);
    if cells.len() == 0 {
        assert(encode_cells(cells, table_key(t)) + rest =~= rest);
        assert(shown_cells(cells) + frame_ansi(rest, MarkupStyle::Braces, pal, 0) =~= frame_ansi(rest, MarkupStyle::Braces, pal, 0));
    } else {
        match cells[0] {
            Cell::Blank => {
                lemma_tail_no_close_brace(cells, 1);
                lemma_tail_colors_in(cells, t, 1);
                lemma_row_shown(cells.skip(1), t, rest);
                lemma_row_shown_blank(cells, t, rest);
            },
            Cell::Glyph(ch, col) => {
                lemma_run_len(cells, col);
                let k = run_len(cells, col) as int;
                lemma_tail_no_close_brace(cells, k);
                lemma_tail_colors_in(cells, t, k);
                assert(cells[0] matches Cell::Glyph(_, c) ==> t.contains(c));
                lemma_row_shown(cells.skip(k), t, rest);
                lemma_row_shown_run(cells, t, rest, ch, col);
            },
        }
    }
}

proof fn lemma_row_colors_in(cells: Seq<Cell>, t: Seq<u32>, w: nat, y: int)
    requires
        colors_in(cells, t),
        0 <= y,
        y * w + w <= cells.len(),
    ensures
        colors_in(row_of(cells, w, y), t),
{
    assert forall|i: int| 0 <= i < row_of(cells, w, y).len() implies (#[trigger] row_of(cells, w, y)[i] matches Cell::Glyph(_, c) ==> t.contains(c)) by {
        assert(row_of(cells, w, y)[i] == cells[y * w + i]);
    }
}

#[verifier::spinoff_prover]
proof fn lemma_grid_shown(cells: Seq<Cell>, t: Seq<u32>, w: nat, rows: nat, rest: Seq<char>)
    requires
        no_close_brace(cells),
        t.no_duplicates(),
        colors_in(cells, t),
        rows * w <= cells.len(),
    ensures
        frame_ansi(grid_markup(cells, w, rows, table_key(t)) + rest, MarkupStyle::Braces, palette_of(t), 0)
            == grid_shown(cells, w, rows) + frame_ansi(rest, MarkupStyle::Braces, palette_of(t), 0),
    decreases rows,
{
    let pal = palette_of(t);
    let key = table_key(t);
    if rows == 0 {
        assert(grid_markup(cells, w, rows, key) + rest =~= rest);
        assert(grid_shown(cells, w, rows) + frame_ansi(rest, MarkupStyle::Braces, pal, 0) =~= frame_ansi(rest, MarkupStyle::Braces, pal, 0));
    } else {
        let y = rows - 1;
        assert(y * w + w == rows * w) by (nonlinear_arith)
            requires y == rows - 1;
        assert(y * w >= 0) by (nonlinear_arith)
            requires y >= 0;
        lemma_row_no_close_brace(cells, w, y);
        lemma_row_colors_in(cells, t, w, y);
        let row = row_of(cells, w, y);
        if rows == 1 {
            lemma_row_shown(row, t, rest);
        } else {
            let tail = seq!['\n'] + (encode_cells(row, key) + rest);
            assert(grid_markup(cells, w, rows, key) + rest =~= grid_markup(cells, w, (rows - 1) as nat, key) + tail);
            assert((rows - 1) * w <= rows * w) by (nonlinear_arith)
                requires rows >= 1;
            lemma_grid_shown(cells, t, w, (rows - 1) as nat, tail);
            lemma_plain_step(tail, pal, 0);
            lemma_ansi_shift(seq!['\n'], encode_cells(row, key) + rest, pal, 0);
            lemma_row_shown(row, t, rest);
            assert(grid_shown(cells, w, rows) + frame_ansi(rest, MarkupStyle::Braces, pal, 0)
                =~= grid_shown(cells, w, (rows - 1) as nat) + (seq!['\n'] + (shown_cells(row) + frame_ansi(rest, MarkupStyle::Braces, pal, 0))));
        }
    }
}

/// Every glyph color of the cells is in the table after them.
pub proof fn lemma_table_after_has_colors(t0: Seq<u32>, cells: Seq<Cell>)
    ensures
        colors_in(cells, table_after(t0, cells)),
    decreases cells.len(),
{
    if cells.len() > 0 {
        let s = cells.drop_last();
        lemma_table_after_has_colors(t0, s);
        let t1 = table_after(t0, s);
        let t2 = table_after(t0, cells);
        assert(forall|c: u32| t1.contains(c) ==> t2.contains(c)) by {
            assert forall|c: u32| t1.contains(c) implies t2.contains(c) by {
                let j = choose|j: int| 0 <= j < t1.len() && t1[j] == c;
                match cells.last() {
                    Cell::Glyph(_, x) => if !t1.contains(x) { assert(t2[j] == c); },
                    Cell::Blank => {},
                }
            }
        }
        assert forall|i: int| 0 <= i < cells.len() implies (#[trigger] cells[i] matches Cell::Glyph(_, c) ==> t2.contains(c)) by {
            if i < cells.len() - 1 {
                assert(cells[i] == s[i]);
            } else {
                match cells.last() {
                    Cell::Glyph(_, x) => if !t1.contains(x) { assert(t2[t1.len() as int] == x); },
                    Cell::Blank => {},
                }
            }
        }
    }
}

/// A converted frame reads back as it was drawn: with the table the conversion leaves, the
/// markup written for a grid `w` cells wide and `h` rows high shows, once parsed with that
/// table's palette, each row's runs of glyphs in their own colors and blank cells as spaces,
/// rows separated by line breaks; its visible characters are exactly the grid's glyphs.
/// It holds when no glyph is a closing brace (which would end a span early; the detailed
/// character set has one).
pub proof fn lemma_conversion_reads_back(t0: Seq<u32>, cells: Seq<Cell>, w: nat, h: nat)
    requires
        t0.no_duplicates(),
        no_close_brace(cells),
        h * w <= cells.len(),
    ensures
        ({
            let tf = table_after(t0, cells);
            let markup = grid_markup(cells, w, h, table_key(tf));
            &&& frame_ansi(markup, MarkupStyle::Braces, palette_of(tf), 0) == grid_shown(cells, w, h)
            &&& frame_visible(markup, MarkupStyle::Braces, 0) == grid_text(cells, w, h)
        }),
{
    let tf = table_after(t0, cells);
    lemma_table_after_grows(t0, cells, cells.len() as int, cells.len() as int);
    assert(cells.take(cells.len() as int) =~= cells);
    lemma_table_after_has_colors(t0, cells);
    lemma_grid_shown(cells, tf, w, h, Seq::empty());
    lemma_grid_shows_glyphs(cells, w, h, table_key(tf));
    let markup = grid_markup(cells, w, h, table_key(tf));
    assert(markup + Seq::<char>::empty() =~= markup);
    assert(grid_shown(cells, w, h) + Seq::<char>::empty() =~= grid_shown(cells, w, h));
}

// ---------------------------------------------------------------------------
// The size of a converted frame
// ---------------------------------------------------------------------------

/// Appending text without line breaks to `a` adds to its last line.
proof fn lemma_append_line(a: Seq<char>, b: Seq<char>)
    requires
        forall|i: int| 0 <= i < b.len() ==> b[i] != '\n',
    ensures
        newline_count(a + b) == newline_count(a),
        last_line_len(a + b) == last_line_len(a) + b.len(),
        max_line_len(a + b) == if max_line_len(a) > last_line_len(a) + b.len() {
            max_line_len(a)
        } else {
            last_line_len(a) + b.len()
        },
    decreases b.len(),
{
    crate::parser::lemma_line_stats_bounds(a);
    if b.len() == 0 {
        assert(a + b =~= a);
    } else {
        let b1 = b.drop_last();
        lemma_append_line(a, b1);
        assert((a + b).drop_last() =~= a + b1);
        assert((a + b).last() == b.last());
    }
}

/// Appending a line break ends the last line.
proof fn lemma_append_break(a: Seq<char>)
    ensures
        newline_count(a + seq!['\n']) == newline_count(a) + 1,
        last_line_len(a + seq!['\n']) == 0,
        max_line_len(a + seq!['\n']) == max_line_len(a),
{
    crate::parser::lemma_line_stats_bounds(a);
    assert((a + seq!['\n']).drop_last() =~= a);
}

/// Whether no cell shows a line break.
pub open spec fn no_line_break(cells: Seq<Cell>) -> bool {
    forall|i: int| 0 <= i < cells.len() ==> !(#[trigger] cells[i] matches Cell::Glyph(ch, _) && ch == '\n')
}

proof fn lemma_grid_text_lines(cells: Seq<Cell>, w: nat, rows: nat)
    requires
        no_line_break(cells),
        rows >= 1,
        rows * w <= cells.len(),
    ensures
        newline_count(grid_text(cells, w, rows)) == rows - 1,
        last_line_len(grid_text(cells, w, rows)) == w,
        max_line_len(grid_text(cells, w, rows)) == w,
        grid_text(cells, w, rows).len() > 0 || w == 0,
    decreases rows,
{
    let y = rows - 1;
    assert(y * w + w == rows * w) by (nonlinear_arith)
        requires y == rows - 1;
    assert(y * w >= 0) by (nonlinear_arith)
        requires y >= 0;
    let row = row_of(cells, w, y);
    let text = glyph_text(row);
    assert forall|i: int| 0 <= i < text.len() implies text[i] != '\n' by {
        assert(row[i] == cells[y * w + i]);
    }
    if rows == 1 {
        lemma_append_line(Seq::empty(), text);
        assert(Seq::<char>::empty() + text =~= text);
    } else {
        assert((rows - 1) * w <= rows * w) by (nonlinear_arith)
            requires rows >= 1;
        lemma_grid_text_lines(cells, w, (rows - 1) as nat);
        let a = grid_text(cells, w, (rows - 1) as nat);
        lemma_append_break(a);
        lemma_append_line(a + seq!['\n'], text);
        crate::parser::lemma_line_stats_bounds(a);
        assert(grid_text(cells, w, rows) == a + seq!['\n'] + text);
    }
}

/// A grid `w` cells wide and `h` rows high (both at least one) whose glyphs are no line
/// breaks shows `h` lines of `w` characters: the player measures the converted frame
/// `w` by `h` (as 16-bit sizes).
pub proof fn lemma_grid_text_size(cells: Seq<Cell>, w: nat, h: nat)
    requires
        no_line_break(cells),
        w >= 1,
        h >= 1,
        h * w <= cells.len(),
    ensures
        text_width(grid_text(cells, w, h)) == w as u16,
        text_height(grid_text(cells, w, h)) == h as u16,
{
    lemma_grid_text_lines(cells, w, h);
}

/// A still image converted into a document (format 2.1.0, the table's palette, one frame
/// of the grid's markup, 100 ms) is played back as one frame that shows each run of glyphs
/// in its color, measures `w` by `h`, and lasts 100 ms.
pub proof fn lemma_still_document_shows_grid(a: AskeyFile, t0: Seq<u32>, cells: Seq<Cell>, w: nat, h: nat)
    requires
        t0.no_duplicates(),
        no_close_brace(cells),
        no_line_break(cells),
        w >= 1,
        h >= 1,
        h * w <= cells.len(),
        a.v@ == "2.1.0"@,
        a.p.map() == palette_of(table_after(t0, cells)),
        a.d == Some(100u64),
        a.fr is Simple,
        frame_texts(a.fr) == seq![grid_markup(cells, w, h, table_key(table_after(t0, cells)))],
    ensures
        rendered_frames(a).len() == 1,
        rendered_frames(a)[0] == (FrameView { ansi: grid_shown(cells, w, h), width: w as u16, height: h as u16, delay: 100 }),
{
    lemma_conversion_reads_back(t0, cells, w, h);
    lemma_grid_text_size(cells, w, h);
    let markup = grid_markup(cells, w, h, table_key(table_after(t0, cells)));
    assert(frame_texts(a.fr)[0] == markup);
    assert(rendered_frames(a)[0] == rendered_frame(markup, MarkupStyle::Braces, a.p.map(), 100));
}

// ---------------------------------------------------------------------------
// Frames converted before the palette grew
// ---------------------------------------------------------------------------

/// Two ways of keying colors that agree on the colors of the cells give the same markup.
proof fn lemma_encode_keys_agree(cells: Seq<Cell>, k1: spec_fn(u32) -> nat, k2: spec_fn(u32) -> nat)
    requires
        forall|i: int| 0 <= i < cells.len() ==> (#[trigger] cells[i] matches Cell::Glyph(_, c) ==> k1(c) == k2(c)),
    ensures
        encode_cells(cells, k1) == encode_cells(cells, k2),
    decreases cells.len(),
{
    if cells.len() > 0 {
        let k = match cells[0] {
            Cell::Blank => 1int,
            Cell::Glyph(_, col) => {
                lemma_run_len(cells, col);
                run_len(cells, col) as int
            },
        };
        let tail = cells.skip(k);
        assert forall|i: int| 0 <= i < tail.len() implies (#[trigger] tail[i] matches Cell::Glyph(_, c) ==> k1(c) == k2(c)) by {
            assert(tail[i] == cells[i + k]);
        }
        lemma_encode_keys_agree(tail, k1, k2);
        if cells[0] is Blank {
            assert(cells.skip(1) =~= cells.drop_first());
        }
    }
}

proof fn lemma_grid_keys_agree(cells: Seq<Cell>, w: nat, rows: nat, k1: spec_fn(u32) -> nat, k2: spec_fn(u32) -> nat)
    requires
        forall|i: int| 0 <= i < cells.len() ==> (#[trigger] cells[i] matches Cell::Glyph(_, c) ==> k1(c) == k2(c)),
        rows * w <= cells.len(),
    ensures
        grid_markup(cells, w, rows, k1) == grid_markup(cells, w, rows, k2),
    decreases rows,
{
    if rows > 0 {
        let y = rows - 1;
        assert(y * w + w == rows * w) by (nonlinear_arith)
            requires y == rows - 1;
        assert(y * w >= 0) by (nonlinear_arith)
            requires y >= 0;
        assert((rows - 1) * w <= rows * w) by (nonlinear_arith)
            requires rows >= 1;
        let row = row_of(cells, w, y);
        assert forall|i: int| 0 <= i < row.len() implies (#[trigger] row[i] matches Cell::Glyph(_, c) ==> k1(c) == k2(c)) by {
            assert(row[i] == cells[y * w + i]);
        }
        lemma_encode_keys_agree(row, k1, k2);
        lemma_grid_keys_agree(cells, w, (rows - 1) as nat, k1, k2);
    }
}

/// A frame converted while the table held `t` (every color of the frame among them) reads
/// back as drawn with the palette of any later table `tf` that extends `t` without repeats:
/// colors added by later frames of an animation do not change the earlier frames.
pub proof fn lemma_earlier_frame_reads_back(t: Seq<u32>, tf: Seq<u32>, cells: Seq<Cell>, w: nat, h: nat)
    requires
        tf.no_duplicates(),
        t.len() <= tf.len(),
        tf.take(t.len() as int) == t,
        colors_in(cells, t),
        no_close_brace(cells),
        h * w <= cells.len(),
    ensures
        frame_ansi(grid_markup(cells, w, h, table_key(t)), MarkupStyle::Braces, palette_of(tf), 0) == grid_shown(cells, w, h),
{
    assert forall|i: int| 0 <= i < cells.len() implies (#[trigger] cells[i] matches Cell::Glyph(_, c) ==> table_key(t)(c) == table_key(tf)(c)) by {
        if let Cell::Glyph(_, c) = cells[i] {
            assert(t.contains(c));
            let j = choose|j: int| 0 <= j < t.len() && t[j] == c;
            assert(tf[j] == t[j]);
            assert(t.no_duplicates()) by {
                assert forall|a: int, b: int| 0 <= a < t.len() && 0 <= b < t.len() && a != b implies t[a] != t[b] by {
                    assert(tf[a] == t[a] && tf[b] == t[b]);
                }
            }
            lemma_color_index(t, c, j);
            lemma_color_index(tf, c, j);
        }
    }
    lemma_grid_keys_agree(cells, w, h, table_key(t), table_key(tf));
    assert forall|i: int| 0 <= i < cells.len() implies (#[trigger] cells[i] matches Cell::Glyph(_, c) ==> tf.contains(c)) by {
        if let Cell::Glyph(_, c) = cells[i] {
            assert(t.contains(c));
            let j = choose|j: int| 0 <= j < t.len() && t[j] == c;
            assert(tf[j] == t[j]);
        }
    }
    lemma_grid_shown(cells, tf, w, h, Seq::empty());
    let markup = grid_markup(cells, w, h, table_key(tf));
    assert(markup + Seq::<char>::empty() =~= markup);
    assert(grid_shown(cells, w, h) + Seq::<char>::empty() =~= grid_shown(cells, w, h));
}

// ---------------------------------------------------------------------------
// Converted animations
// ---------------------------------------------------------------------------

proof fn lemma_table_after_extends(t: Seq<u32>, cells: Seq<Cell>)
    requires
        t.no_duplicates(),
    ensures
        table_after(t, cells).no_duplicates(),
        t.len() <= table_after(t, cells).len(),
        table_after(t, cells).take(t.len() as int) == t,
{
    lemma_table_after_grows(t, cells, 0, cells.len() as int);
    assert(cells.take(cells.len() as int) =~= cells);
    assert(cells.take(0) =~= Seq::<Cell>::empty());
    assert(table_after(t, Seq::<Cell>::empty()) == t);
}

/// The tables of an animation's conversion only grow: the table after `j` frames begins the
/// table after `k >= j` frames, and neither repeats a color.
pub proof fn lemma_table_through_grows(cs: Seq<Seq<Cell>>, j: nat, k: nat)
    requires
        j <= k,
    ensures
        table_through(cs, k).no_duplicates(),
        table_through(cs, j).len() <= table_through(cs, k).len(),
        table_through(cs, k).take(table_through(cs, j).len() as int) == table_through(cs, j),
    decreases k,
{
    if k == 0 {
        assert(table_through(cs, 0).take(0) =~= table_through(cs, 0));
    } else if j == k {
        lemma_table_through_grows(cs, 0, (k - 1) as nat);
        lemma_table_after_extends(table_through(cs, (k - 1) as nat), cs[k - 1]);
        assert(table_through(cs, k).take(table_through(cs, k).len() as int) =~= table_through(cs, k));
    } else {
        lemma_table_through_grows(cs, j, (k - 1) as nat);
        let prev = table_through(cs, (k - 1) as nat);
        lemma_table_after_extends(prev, cs[k - 1]);
        let next = table_through(cs, k);
        let lj = table_through(cs, j).len() as int;
        assert(next.take(lj) =~= prev.take(lj)) by {
            assert forall|x: int| 0 <= x < lj implies next.take(lj)[x] == prev.take(lj)[x] by {
                assert(next.take(prev.len() as int)[x] == prev[x]);
            }
        }
    }
}

/// Whether each frame's cells show no closing brace and no line break, and fill a grid `w`
/// by `h`.
pub open spec fn frames_drawable(cs: Seq<Seq<Cell>>, w: nat, h: nat) -> bool {
    forall|i: int| 0 <= i < cs.len() ==> no_close_brace(#[trigger] cs[i]) && no_line_break(cs[i]) && h * w <= cs[i].len()
}

/// A converted animation plays back as drawn: with frames `w` by `h` (both at least one),
/// each frame's markup keyed by the table as it stood once that frame was converted, and the
/// document's palette that of the final table, every frame shows its glyph runs in their
/// colors, measures `w` by `h`, and keeps its delay. It holds when no glyph is a closing
/// brace or a line break.
pub proof fn lemma_animation_plays_as_drawn(a: AskeyFile, cs: Seq<Seq<Cell>>, w: nat, h: nat)
    requires
        w >= 1,
        h >= 1,
        frames_drawable(cs, w, h),
        a.v@ == "2.1.0"@,
        a.p.map() == palette_of(table_through(cs, cs.len())),
        frame_texts(a.fr) == Seq::new(cs.len(), |i: int| grid_markup(cs[i], w, h, table_key(table_through(cs, (i + 1) as nat)))),
    ensures
        rendered_frames(a).len() == cs.len(),
        forall|i: int| 0 <= i < cs.len() ==> #[trigger] rendered_frames(a)[i] == (FrameView {
            ansi: grid_shown(cs[i], w, h),
            width: w as u16,
            height: h as u16,
            delay: frame_delays(a)[i],
        }),
{
    let n = cs.len();
    let tf = table_through(cs, n);
    assert forall|i: int| 0 <= i < n implies #[trigger] rendered_frames(a)[i] == (FrameView {
        ansi: grid_shown(cs[i], w, h),
        width: w as u16,
        height: h as u16,
        delay: frame_delays(a)[i],
    }) by {
        let ti = table_through(cs, (i + 1) as nat);
        lemma_table_through_grows(cs, (i + 1) as nat, n);
        lemma_table_through_grows(cs, 0, i as nat);
        lemma_table_after_has_colors(table_through(cs, i as nat), cs[i]);
        assert(ti == table_after(table_through(cs, i as nat), cs[i]));
        assert(no_close_brace(cs[i]) && no_line_break(cs[i]) && h * w <= cs[i].len());
        lemma_earlier_frame_reads_back(ti, tf, cs[i], w, h);
        lemma_grid_shows_glyphs(cs[i], w, h, table_key(ti));
        lemma_grid_text_size(cs[i], w, h);
        let markup = grid_markup(cs[i], w, h, table_key(ti));
        assert(frame_texts(a.fr)[i] == markup);
        assert(frame_texts(a.fr).len() > 0);
        assert(rendered_frames(a)[i] == rendered_frame(markup, MarkupStyle::Braces, a.p.map(), frame_delays(a)[i]));
    }
}

/// The live preview of an animation's first frame (converted alone, with its own table) is
/// what playing the converted animation shows first, when no glyph is a closing brace.
pub proof fn lemma_preview_is_first_frame(cs: Seq<Seq<Cell>>, w: nat, h: nat)
    requires
        cs.len() > 0,
        no_close_brace(cs[0]),
        h * w <= cs[0].len(),
    ensures
        frame_ansi(grid_markup(cs[0], w, h, table_key(table_after(seq![], cs[0]))), MarkupStyle::Braces,
            palette_of(table_after(seq![], cs[0])), 0)
            == frame_ansi(grid_markup(cs[0], w, h, table_key(table_through(cs, 1))), MarkupStyle::Braces,
            palette_of(table_through(cs, cs.len())), 0),
{
    let t1 = table_through(cs, 1);
    assert(t1 == table_after(table_through(cs, 0), cs[0]));
    assert(Seq::<u32>::empty().no_duplicates());
    lemma_conversion_reads_back(seq![], cs[0], w, h);
    lemma_table_through_grows(cs, 1, cs.len());
    lemma_table_after_has_colors(seq![], cs[0]);
    lemma_earlier_frame_reads_back(t1, table_through(cs, cs.len()), cs[0], w, h);
}

// ---------------------------------------------------------------------------
// The keys of the spans written
// ---------------------------------------------------------------------------

/// Whether every span of `c[from..]` has its key in `keys`.
pub open spec fn span_keys_in(c: Seq<char>, style: MarkupStyle, from: int, keys: Set<Seq<char>>) -> bool
    decreases c.len() - from,
{
    if from < 0 || from > c.len() {
        true
    } else {
        match next_span(c, style, from) {
            Some(s) => {
                proof {
                    lemma_next_span(c, style, from);
                }
                keys.contains(c.subrange(s.key_start, s.key_end)) && span_keys_in(c, style, s.end, keys)
            },
            None => true,
        }
    }
}

proof fn lemma_keys_shift(p: Seq<char>, r: Seq<char>, x: int, keys: Set<Seq<char>>)
    requires
        0 <= x,
    ensures
        span_keys_in(p + r, MarkupStyle::Braces, p.len() + x, keys) == span_keys_in(r, MarkupStyle::Braces, x, keys),
    decreases r.len() - x,
{
    let c = p + r;
    let d = p.len() as int;
    if x <= r.len() {
        lemma_next_span_shift(p, r, x);
        lemma_next_span(r, MarkupStyle::Braces, x);
        if let Some(s) = next_span(r, MarkupStyle::Braces, x) {
            assert(c.subrange(d + s.key_start, d + s.key_end) =~= r.subrange(s.key_start, s.key_end));
            lemma_keys_shift(p, r, s.end, keys);
        }
    }
}

proof fn lemma_keys_plain_step(c: Seq<char>, from: int, keys: Set<Seq<char>>)
    requires
        0 <= from < c.len(),
        span_at(c, MarkupStyle::Braces, from) is None,
    ensures
        span_keys_in(c, MarkupStyle::Braces, from, keys) == span_keys_in(c, MarkupStyle::Braces, from + 1, keys),
{
    lemma_next_span(c, MarkupStyle::Braces, from + 1);
}

proof fn lemma_keys_span_step(c: Seq<char>, from: int, s: Span, keys: Set<Seq<char>>)
    requires
        0 <= from < c.len(),
        span_at(c, MarkupStyle::Braces, from) == Some(s),
    ensures
        span_keys_in(c, MarkupStyle::Braces, from, keys)
            == (keys.contains(c.subrange(s.key_start, s.key_end)) && span_keys_in(c, MarkupStyle::Braces, s.end, keys)),
{
    crate::markup::lemma_span_at(c, MarkupStyle::Braces, from);
}

/// A color of a table, keyed by its position, has its key among the palette's.
proof fn lemma_table_key_in_palette(t: Seq<u32>, col: u32)
    requires
        t.contains(col),
    ensures
        palette_of(t).dom().contains(dec(table_key(t)(col))),
{
    lemma_palette_of(t);
    let i = color_index(t, col);
    assert(0 <= i < t.len());
    assert(palette_of(t).contains_key(dec(i as nat)));
}

proof fn lemma_row_keys(cells: Seq<Cell>, t: Seq<u32>, rest: Seq<char>)
    requires
        no_close_brace(cells),
        colors_in(cells, t),
    ensures
        span_keys_in(encode_cells(cells, table_key(t)) + rest, MarkupStyle::Braces, 0, palette_of(t).dom())
            == span_keys_in(rest, MarkupStyle::Braces, 0, palette_of(t).dom()),
    decreases cells.len(),
{
    let keys = palette_of(t).dom();
    let key = table_key(t);
    if cells.len() == 0 {
        assert(encode_cells(cells, key) + rest =~= rest);
    } else {
        match cells[0] {
            Cell::Blank => {
                lemma_tail_no_close_brace(cells, 1);
                lemma_tail_colors_in(cells, t, 1);
                lemma_row_keys(cells.skip(1), t, rest);
                assert(cells.skip(1) =~= cells.drop_first());
                let tail_enc = encode_cells(cells.drop_first(), key);
                let c = encode_cells(cells, key) + rest;
                assert(c =~= seq![' '] + (tail_enc + rest));
                lemma_keys_plain_step(c, 0, keys);
                lemma_keys_shift(seq![' '], tail_enc + rest, 0, keys);
            },
            Cell::Glyph(ch, col) => {
                lemma_run_len(cells, col);
                let k = run_len(cells, col) as int;
                lemma_tail_no_close_brace(cells, k);
                lemma_tail_colors_in(cells, t, k);
                assert(cells[0] matches Cell::Glyph(_, c) ==> t.contains(c));
                lemma_row_keys(cells.skip(k), t, rest);
                let text = glyph_text(cells.take(k));
                let head = span_markup(key(col), text);
                let after = encode_cells(cells.skip(k), key) + rest;
                let c = head + after;
                assert(encode_cells(cells, key) + rest =~= c);
                assert forall|i: int| 0 <= i < text.len() implies text[i] != '}' by {
                    assert(cells.take(k)[i] == cells[i]);
                }
                lemma_read_span(key(col), text, after);
                let kl = dec(key(col)).len() as int;
                lemma_keys_span_step(c, 0, Span {
                    start: 0,
                    key_start: 1,
                    key_end: 1 + kl,
                    text_start: 2 + kl,
                    text_end: 2 + kl + text.len(),
                    end: head.len() as int,
                }, keys);
                lemma_keys_shift(head, after, 0, keys);
                lemma_table_key_in_palette(t, col);
            },
        }
    }
}

#[verifier::spinoff_prover]
proof fn lemma_grid_keys(cells: Seq<Cell>, t: Seq<u32>, w: nat, rows: nat, rest: Seq<char>)
    requires
        no_close_brace(cells),
        colors_in(cells, t),
        rows * w <= cells.len(),
    ensures
        span_keys_in(grid_markup(cells, w, rows, table_key(t)) + rest, MarkupStyle::Braces, 0, palette_of(t).dom())
            == span_keys_in(rest, MarkupStyle::Braces, 0, palette_of(t).dom()),
    decreases rows,
{
    let keys = palette_of(t).dom();
    let key = table_key(t);
    if rows == 0 {
        assert(grid_markup(cells, w, rows, key) + rest =~= rest);
    } else {
        let y = rows - 1;
        assert(y * w + w == rows * w) by (nonlinear_arith)
            requires y == rows - 1;
        assert(y * w >= 0) by (nonlinear_arith)
            requires y >= 0;
        lemma_row_no_close_brace(cells, w, y);
        lemma_row_colors_in(cells, t, w, y);
        let row = row_of(cells, w, y);
        if rows == 1 {
            lemma_row_keys(row, t, rest);
        } else {
            let tail = seq!['\n'] + (encode_cells(row, key) + rest);
            assert(grid_markup(cells, w, rows, key) + rest =~= grid_markup(cells, w, (rows - 1) as nat, key) + tail);
            assert((rows - 1) * w <= rows * w) by (nonlinear_arith)
                requires rows >= 1;
            lemma_grid_keys(cells, t, w, (rows - 1) as nat, tail);
            lemma_keys_plain_step(tail, 0, keys);
            lemma_keys_shift(seq!['\n'], encode_cells(row, key) + rest, 0, keys);
            lemma_row_keys(row, t, rest);
        }
    }
}

/// Every span of a converted frame's markup is keyed by a key of the palette the
/// conversion leaves: the converter never writes a color that the document lacks. It holds
/// when no glyph is a closing brace (which would end a span early).
pub proof fn lemma_span_keys_in_palette(t0: Seq<u32>, cells: Seq<Cell>, w: nat, h: nat)
    requires
        no_close_brace(cells),
        h * w <= cells.len(),
    ensures
        ({
            let tf = table_after(t0, cells);
            span_keys_in(grid_markup(cells, w, h, table_key(tf)), MarkupStyle::Braces, 0, palette_of(tf).dom())
        }),
{
    let tf = table_after(t0, cells);
    lemma_table_after_has_colors(t0, cells);
    lemma_grid_keys(cells, tf, w, h, Seq::empty());
    let markup = grid_markup(cells, w, h, table_key(tf));
    assert(markup + Seq::<char>::empty() =~= markup);
}

proof fn lemma_keys_subset(c: Seq<char>, style: MarkupStyle, from: int, k1: Set<Seq<char>>, k2: Set<Seq<char>>)
    requires
        span_keys_in(c, style, from, k1),
        k1.subset_of(k2),
    ensures
        span_keys_in(c, style, from, k2),
    decreases c.len() - from,
{
    if 0 <= from <= c.len() {
        lemma_next_span(c, style, from);
        if let Some(s) = next_span(c, style, from) {
            lemma_keys_subset(c, style, s.end, k1, k2);
        }
    }
}

/// Every span of every frame of a converted animation is keyed by a key of the document's
/// palette, the table's at the end of the conversion, though each frame was keyed by the
/// table as it stood then. It holds when no glyph is a closing brace.
pub proof fn lemma_animation_span_keys_in_palette(cs: Seq<Seq<Cell>>, w: nat, h: nat)
    requires
        forall|i: int| 0 <= i < cs.len() ==> no_close_brace(#[trigger] cs[i]) && h * w <= cs[i].len(),
    ensures
        forall|i: int| 0 <= i < cs.len() ==> span_keys_in(
            #[trigger] grid_markup(cs[i], w, h, table_key(table_through(cs, (i + 1) as nat))),
            MarkupStyle::Braces,
            0,
            palette_of(table_through(cs, cs.len())).dom(),
        ),
{
    let tf = table_through(cs, cs.len());
    assert forall|i: int| 0 <= i < cs.len() implies span_keys_in(
        #[trigger] grid_markup(cs[i], w, h, table_key(table_through(cs, (i + 1) as nat))),
        MarkupStyle::Braces,
        0,
        palette_of(tf).dom(),
    ) by {
        let ti = table_through(cs, (i + 1) as nat);
        assert(ti == table_after(table_through(cs, i as nat), cs[i]));
        lemma_span_keys_in_palette(table_through(cs, i as nat), cs[i], w, h);
        lemma_table_through_grows(cs, (i + 1) as nat, cs.len());
        lemma_palette_of(ti);
        lemma_palette_of(tf);
        assert forall|k: Seq<char>| palette_of(ti).dom().contains(k) implies palette_of(tf).dom().contains(k) by {
            assert(palette_of(ti).contains_key(k));
            let j = choose|j: int| 0 <= j < ti.len() && k == #[trigger] dec(j as nat);
            assert(palette_of(tf).contains_key(dec(j as nat)));
        }
        lemma_keys_subset(grid_markup(cs[i], w, h, table_key(ti)), MarkupStyle::Braces, 0, palette_of(ti).dom(), palette_of(tf).dom());
    }
}

} // verus!
