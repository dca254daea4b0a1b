//! What the conversion screen measures of a preview: once its color escape sequences are
//! removed, the colored text of a converted grid is the grid's glyphs again.

use vstd::prelude::*;
use crate::text::dec;
use crate::parser::{truecolor_seq, colorize, frame_visible};
use crate::screen::{escape_end, is_final_char, is_param_char, param_run_end, spec_strip_ansi, stripped_from, first_line, line_end};
use crate::parser::newline_count;
use crate::converter::{Cell, glyph_text, lemma_run_len, row_of, run_len, unpack_rgb};
use crate::fidelity::{grid_shown, grid_text, lemma_dec_digits, shown_cells, no_line_break, no_close_brace, lemma_conversion_reads_back};
use crate::converter::{grid_markup, palette_of, table_after, table_key};
use crate::markup::{MarkupStyle, next_span, lemma_next_span};
use crate::parser::frame_ansi;

verus! {

// ---------------------------------------------------------------------------
// Removing escape sequences from text that follows other text
// ---------------------------------------------------------------------------

proof fn lemma_param_run_shift(p: Seq<char>, q: Seq<char>, x: int)
    requires
        0 <= x,
    ensures
        param_run_end(p + q, p.len() + x) == param_run_end(q, x) + p.len(),
    decreases q.len() - x,
{
    if x < q.len() {
        assert((p + q)[p.len() + x] == q[x]);
        if is_param_char(q[x]) {
            lemma_param_run_shift(p, q, x + 1);
            assert(p.len() + x + 1 == p.len() + (x + 1));
        }
    }
}

proof fn lemma_escape_end_shift(p: Seq<char>, q: Seq<char>, x: int)
    requires
        0 <= x,
    ensures
        escape_end(p + q, p.len() + x) == match escape_end(q, x) {
            Some(e) => Some(e + p.len()),
            None => None::<int>,
        },
{
    if x + 1 < q.len() {
        assert((p + q)[p.len() + x] == q[x]);
        assert((p + q)[p.len() + x + 1] == q[x + 1]);
        lemma_param_run_shift(p, q, x + 2);
        lemma_param_run_end_bounds(q, x + 2);
        assert(p.len() + x + 2 == p.len() + (x + 2));
        let j = param_run_end(q, x + 2);
        if 0 <= j < q.len() {
            assert((p + q)[p.len() + j] == q[j]);
        }
    }
}

proof fn lemma_param_run_end_bounds(s: Seq<char>, i: int)
    requires
        0 <= i,
    ensures
        i <= param_run_end(s, i),
        i <= s.len() ==> param_run_end(s, i) <= s.len(),
    decreases s.len() - i,
{
    if i < s.len() && is_param_char(s[i]) {
        lemma_param_run_end_bounds(s, i + 1);
    }
}

/// Removing the escape sequences of text that follows other text does not depend on it.
pub proof fn lemma_stripped_shift(p: Seq<char>, q: Seq<char>, x: int)
    requires
        0 <= x,
    ensures
        stripped_from(p + q, p.len() + x) == stripped_from(q, x),
    decreases q.len() - x, 1int,
{
    if x < q.len() {
        lemma_escape_end_shift(p, q, x);
        assert((p + q)[p.len() + x] == q[x]);
        match escape_end(q, x) {
            Some(e) => {
                if x < e <= q.len() {
                    lemma_stripped_shift(p, q, e);
                    assert(p.len() + e == e + p.len());
                }
            },
            None => {
                lemma_stripped_shift(p, q, x + 1);
                assert(p.len() + x + 1 == p.len() + (x + 1));
            },
        }
    }
}

/// Text without escape characters, followed by anything, keeps all its characters.
proof fn lemma_strip_plain(t: Seq<char>, rest: Seq<char>)
    requires
        forall|i: int| 0 <= i < t.len() ==> t[i] != '\u{1b}',
    ensures
        stripped_from(t + rest, 0) == t + stripped_from(rest, 0),
    decreases t.len(),
{
    if t.len() == 0 {
        assert(t + rest =~= rest);
        assert(t + stripped_from(rest, 0) =~= stripped_from(rest, 0));
    } else {
        let s = t + rest;
        assert(s[0] == t[0]);
        let tail = t.drop_first();
        assert forall|i: int| 0 <= i < tail.len() implies tail[i] != '\u{1b}' by {
            assert(tail[i] == t[i + 1]);
        }
        lemma_strip_plain(tail, rest);
        assert(s =~= seq![t[0]] + (tail + rest));
        lemma_stripped_shift(seq![t[0]], tail + rest, 0);
        assert(seq![t[0]] + (tail + stripped_from(rest, 0)) =~= t + stripped_from(rest, 0));
    }
}

/// An escape sequence (ESC, `[`, parameter characters, a letter) at the start of the text
/// is removed whole.
proof fn lemma_strip_escape(params: Seq<char>, last: char, rest: Seq<char>)
    requires
        forall|i: int| 0 <= i < params.len() ==> is_param_char(#[trigger] params[i]),
        is_final_char(last),
    ensures
        stripped_from(seq!['\u{1b}', '['] + params + seq![last] + rest, 0) == stripped_from(rest, 0),
{
    let esc = seq!['\u{1b}', '['] + params + seq![last];
    let s = esc + rest;
    assert forall|k: int| 2 <= k < 2 + params.len() implies is_param_char(#[trigger] s[k]) by {
        assert(s[k] == params[k - 2]);
    }
    assert(s[2 + params.len() as int] == last);
    lemma_param_run_to(s, 2, 2 + params.len() as int);
    assert(escape_end(s, 0) == Some(esc.len() as int));
    lemma_stripped_shift(esc, rest, 0);
}

proof fn lemma_param_run_to(s: Seq<char>, i: int, j: int)
    requires
        0 <= i <= j < s.len(),
        forall|k: int| i <= k < j ==> is_param_char(#[trigger] s[k]),
        !is_param_char(s[j]),
    ensures
        param_run_end(s, i) == j,
    decreases j - i,
{
    if i < j {
        lemma_param_run_to(s, i + 1, j);
    }
}

proof fn lemma_dec_params(n: nat)
    ensures
        forall|i: int| 0 <= i < dec(n).len() ==> is_param_char(#[trigger] dec(n)[i]),
{
    lemma_dec_digits(n);
}

/// A text in a 24-bit color, followed by anything, loses its color once escape sequences
/// are removed, provided the text holds no escape character.
pub proof fn lemma_strip_truecolor(t: Seq<char>, r: u8, g: u8, b: u8, rest: Seq<char>)
    requires
        forall|i: int| 0 <= i < t.len() ==> t[i] != '\u{1b}',
    ensures
        stripped_from(truecolor_seq(t, r, g, b) + rest, 0) == t + stripped_from(rest, 0),
{
    let params = seq!['3', '8', ';', '2', ';'] + dec(r as nat) + seq![';'] + dec(g as nat) + seq![';'] + dec(b as nat);
    lemma_dec_params(r as nat);
    lemma_dec_params(g as nat);
    lemma_dec_params(b as nat);
    assert forall|i: int| 0 <= i < params.len() implies is_param_char(#[trigger] params[i]) by {
        let l1 = 5int;
        let l2 = l1 + dec(r as nat).len();
        let l3 = l2 + 1;
        let l4 = l3 + dec(g as nat).len();
        let l5 = l4 + 1;
        if i < l1 {
        } else if i < l2 {
            assert(params[i] == dec(r as nat)[i - l1]);
        } else if i < l3 {
        } else if i < l4 {
            assert(params[i] == dec(g as nat)[i - l3]);
        } else if i < l5 {
        } else {
            assert(params[i] == dec(b as nat)[i - l5]);
        }
    }
    let close = seq!['\u{1b}', '[', '3', '9', 'm'];
    let after = t + (close + rest);
    assert(truecolor_seq(t, r, g, b) + rest =~= seq!['\u{1b}', '['] + params + seq!['m'] + after);
    lemma_strip_escape(params, 'm', after);
    lemma_strip_plain(t, close + rest);
    let cp = seq!['3', '9'];
    assert forall|i: int| 0 <= i < cp.len() implies is_param_char(#[trigger] cp[i]) by {}
    assert(close + rest =~= seq!['\u{1b}', '['] + cp + seq!['m'] + rest);
    lemma_strip_escape(cp, 'm', rest);
}

// ---------------------------------------------------------------------------
// Converted grids
// ---------------------------------------------------------------------------

/// Whether no cell shows an escape character.
pub open spec fn no_escape(cells: Seq<Cell>) -> bool {
    forall|i: int| 0 <= i < cells.len() ==> !(#[trigger] cells[i] matches Cell::Glyph(ch, _) && ch == '\u{1b}')
}

proof fn lemma_tail_no_escape(cells: Seq<Cell>, k: int)
    requires
        no_escape(cells),
        0 <= k <= cells.len(),
    ensures
        no_escape(cells.skip(k)),
{
    assert forall|i: int| 0 <= i < cells.skip(k).len() implies !(#[trigger] cells.skip(k)[i] matches Cell::Glyph(ch, _) && ch == '\u{1b}') by {
        assert(cells.skip(k)[i] == cells[i + k]);
    }
}

proof fn lemma_row_stripped_step(cells: Seq<Cell>, rest: Seq<char>)
    requires
        cells.len() > 0,
        no_escape(cells),
        ({
            let k = match cells[0] { Cell::Blank => 1int, Cell::Glyph(_, col) => run_len(cells, col) as int };
            stripped_from(shown_cells(cells.skip(k)) + rest, 0) == glyph_text(cells.skip(k)) + stripped_from(rest, 0)
        }),
    ensures
        stripped_from(shown_cells(cells) + rest, 0) == glyph_text(cells) + stripped_from(rest, 0),
{
    match cells[0] {
        Cell::Blank => {
            assert(cells.skip(1) =~= cells.drop_first());
            let tail = shown_cells(cells.drop_first()) + rest;
            assert(shown_cells(cells) + rest =~= seq![' '] + tail);
            lemma_strip_plain(seq![' '], tail);
            assert(glyph_text(cells) =~= seq![' '] + glyph_text(cells.drop_first()));
            assert(seq![' '] + (glyph_text(cells.drop_first()) + stripped_from(rest, 0)) =~= glyph_text(cells) + stripped_from(rest, 0));
        },
        Cell::Glyph(_, col) => {
            lemma_run_len(cells, col);
            let k = run_len(cells, col) as int;
            let text = glyph_text(cells.take(k));
            let (r, g, b) = unpack_rgb(col);
            assert forall|i: int| 0 <= i < text.len() implies text[i] != '\u{1b}' by {
                assert(cells.take(k)[i] == cells[i]);
            }
            let after = shown_cells(cells.skip(k)) + rest;
            assert(shown_cells(cells) + rest =~= truecolor_seq(text, r, g, b) + after);
            lemma_strip_truecolor(text, r, g, b, after);
            assert(glyph_text(cells) =~= text + glyph_text(cells.skip(k)));
            assert(text + (glyph_text(cells.skip(k)) + stripped_from(rest, 0)) =~= glyph_text(cells) + stripped_from(rest, 0));
        },
    }
}

/// The colored text of a row, followed by anything, is the row's glyphs once escape
/// sequences are removed, provided no glyph is an escape character.
pub proof fn lemma_row_stripped(cells: Seq<Cell>, rest: Seq<char>)
    requires
        no_escape(cells),
    ensures
        stripped_from(shown_cells(cells) + rest, 0) == glyph_text(cells) + stripped_from(rest, 0),
    decreases cells.len(),
{
    if cells.len() == 0 {
        assert(shown_cells(cells) + rest =~= rest);
        assert(glyph_text(cells) + stripped_from(rest, 0) =~= stripped_from(rest, 0));
    } else {
        let k = match cells[0] {
            Cell::Blank => 1int,
            Cell::Glyph(_, col) => {
                lemma_run_len(cells, col);
                run_len(cells, col) as int
            },
        };
        lemma_tail_no_escape(cells, k);
        lemma_row_stripped(cells.skip(k), rest);
        lemma_row_stripped_step(cells, rest);
    }
}

proof fn lemma_row_no_escape(cells: Seq<Cell>, w: nat, y: int)
    requires
        no_escape(cells),
        0 <= y,
        y * w + w <= cells.len(),
    ensures
        no_escape(row_of(cells, w, y)),
{
    assert forall|i: int| 0 <= i < row_of(cells, w, y).len() implies !(#[trigger] row_of(cells, w, y)[i] matches Cell::Glyph(ch, _) && ch == '\u{1b}') by {
        assert(row_of(cells, w, y)[i] == cells[y * w + i]);
    }
}

proof fn lemma_grid_stripped(cells: Seq<Cell>, w: nat, rows: nat, rest: Seq<char>)
    requires
        no_escape(cells),
        rows * w <= cells.len(),
    ensures
        stripped_from(grid_shown(cells, w, rows) + rest, 0) == grid_text(cells, w, rows) + stripped_from(rest, 0),
    decreases rows,
{
    if rows == 0 {
        assert(grid_shown(cells, w, rows) + rest =~= rest);
        assert(grid_text(cells, w, rows) + stripped_from(rest, 0) =~= stripped_from(rest, 0));
    } else {
        let y = rows - 1;
        assert(y * w + w == rows * w) by (nonlinear_arith)
            requires y == rows - 1;
        assert(y * w >= 0) by (nonlinear_arith)
            requires y >= 0;
        lemma_row_no_escape(cells, w, y);
        let row = row_of(cells, w, y);
        if rows == 1 {
            lemma_row_stripped(row, rest);
        } else {
            let tail = seq!['\n'] + (shown_cells(row) + rest);
            assert(grid_shown(cells, w, rows) + rest =~= grid_shown(cells, w, (rows - 1) as nat) + tail);
            assert((rows - 1) * w <= rows * w) by (nonlinear_arith)
                requires rows >= 1;
            lemma_grid_stripped(cells, w, (rows - 1) as nat, tail);
            lemma_strip_plain(seq!['\n'], shown_cells(row) + rest);
            lemma_row_stripped(row, rest);
            assert(grid_text(cells, w, rows) + stripped_from(rest, 0)
                =~= grid_text(cells, w, (rows - 1) as nat) + (seq!['\n'] + (glyph_text(row) + stripped_from(rest, 0))));
        }
    }
}

/// What the converter shows for a grid, with its color escape sequences removed, is the
/// grid's glyphs, row by row: the preview measures as the glyphs it shows. It holds when no
/// glyph is an escape character.
pub proof fn lemma_shown_grid_strips_to_glyphs(cells: Seq<Cell>, w: nat, h: nat)
    requires
        no_escape(cells),
        h * w <= cells.len(),
    ensures
        spec_strip_ansi(grid_shown(cells, w, h)) == grid_text(cells, w, h),
{
    lemma_grid_stripped(cells, w, h, Seq::empty());
    assert(grid_shown(cells, w, h) + Seq::<char>::empty() =~= grid_shown(cells, w, h));
    assert(grid_text(cells, w, h) + Seq::<char>::empty() =~= grid_text(cells, w, h));
}

// ---------------------------------------------------------------------------
// The size the conversion screen measures
// ---------------------------------------------------------------------------

/// Whether `s` holds no line break.
pub open spec fn no_break(s: Seq<char>) -> bool {
    forall|i: int| 0 <= i < s.len() ==> s[i] != '\n'
}

proof fn lemma_newline_count_concat(a: Seq<char>, b: Seq<char>)
    ensures
        newline_count(a + b) == newline_count(a) + newline_count(b),
    decreases b.len(),
{
    if b.len() == 0 {
        assert(a + b =~= a);
    } else {
        lemma_newline_count_concat(a, b.drop_last());
        assert((a + b).drop_last() =~= a + b.drop_last());
        assert((a + b).last() == b.last());
    }
}

proof fn lemma_no_break_count(s: Seq<char>)
    requires
        no_break(s),
    ensures
        newline_count(s) == 0,
    decreases s.len(),
{
    if s.len() > 0 {
        assert forall|i: int| 0 <= i < s.drop_last().len() implies s.drop_last()[i] != '\n' by {
            assert(s.drop_last()[i] == s[i]);
        }
        lemma_no_break_count(s.drop_last());
        assert(s.last() == s[s.len() - 1]);
    }
}

proof fn lemma_no_break_concat(a: Seq<char>, b: Seq<char>)
    requires
        no_break(a),
        no_break(b),
    ensures
        no_break(a + b),
{
    assert forall|i: int| 0 <= i < (a + b).len() implies (a + b)[i] != '\n' by {
        if i < a.len() {
            assert((a + b)[i] == a[i]);
        } else {
            assert((a + b)[i] == b[i - a.len()]);
        }
    }
}

proof fn lemma_truecolor_no_break(t: Seq<char>, r: u8, g: u8, b: u8)
    requires
        no_break(t),
    ensures
        no_break(truecolor_seq(t, r, g, b)),
{
    lemma_dec_digits(r as nat);
    lemma_dec_digits(g as nat);
    lemma_dec_digits(b as nat);
    let p1 = seq!['\u{1b}', '[', '3', '8', ';', '2', ';'];
    let sc = seq![';'];
    assert(no_break(p1)) by {
        assert forall|i: int| 0 <= i < p1.len() implies p1[i] != '\n' by {}
    }
    assert(no_break(sc)) by {
        assert forall|i: int| 0 <= i < sc.len() implies sc[i] != '\n' by {}
    }
    let m = seq!['m'];
    assert(no_break(m)) by {
        assert forall|i: int| 0 <= i < m.len() implies m[i] != '\n' by {}
    }
    let close = seq!['\u{1b}', '[', '3', '9', 'm'];
    assert(no_break(close)) by {
        assert forall|i: int| 0 <= i < close.len() implies close[i] != '\n' by {}
    }
    assert(no_break(dec(r as nat)));
    assert(no_break(dec(g as nat)));
    assert(no_break(dec(b as nat)));
    lemma_no_break_concat(p1, dec(r as nat));
    lemma_no_break_concat(p1 + dec(r as nat), sc);
    lemma_no_break_concat(p1 + dec(r as nat) + sc, dec(g as nat));
    lemma_no_break_concat(p1 + dec(r as nat) + sc + dec(g as nat), sc);
    lemma_no_break_concat(p1 + dec(r as nat) + sc + dec(g as nat) + sc, dec(b as nat));
    lemma_no_break_concat(p1 + dec(r as nat) + sc + dec(g as nat) + sc + dec(b as nat), m);
    lemma_no_break_concat(p1 + dec(r as nat) + sc + dec(g as nat) + sc + dec(b as nat) + m, t);
    lemma_no_break_concat(p1 + dec(r as nat) + sc + dec(g as nat) + sc + dec(b as nat) + m + t, close);
}

/// The colored text of a row whose glyphs are no line breaks is one line.
proof fn lemma_shown_no_break(cells: Seq<Cell>)
    requires
        no_line_break(cells),
    ensures
        no_break(shown_cells(cells)),
    decreases cells.len(),
{
    if cells.len() > 0 {
        match cells[0] {
            Cell::Blank => {
                assert forall|i: int| 0 <= i < cells.drop_first().len() implies !(#[trigger] cells.drop_first()[i] matches Cell::Glyph(ch, _) && ch == '\n') by {
                    assert(cells.drop_first()[i] == cells[i + 1]);
                }
                lemma_shown_no_break(cells.drop_first());
                assert(no_break(seq![' '])) by {
                    assert forall|i: int| 0 <= i < seq![' '].len() implies seq![' '][i] != '\n' by {}
                }
                lemma_no_break_concat(seq![' '], shown_cells(cells.drop_first()));
            },
            Cell::Glyph(_, col) => {
                lemma_run_len(cells, col);
                let k = run_len(cells, col) as int;
                let text = glyph_text(cells.take(k));
                assert forall|i: int| 0 <= i < text.len() implies text[i] != '\n' by {
                    assert(cells.take(k)[i] == cells[i]);
                }
                let tail = cells.skip(k);
                assert forall|i: int| 0 <= i < tail.len() implies !(#[trigger] tail[i] matches Cell::Glyph(ch, _) && ch == '\n') by {
                    assert(tail[i] == cells[i + k]);
                }
                lemma_shown_no_break(tail);
                let (r, g, b) = unpack_rgb(col);
                lemma_truecolor_no_break(text, r, g, b);
                lemma_no_break_concat(truecolor_seq(text, r, g, b), shown_cells(tail));
            },
        }
    }
}

proof fn lemma_line_end_at(s: Seq<char>, i: int, j: int)
    requires
        0 <= i <= j <= s.len(),
        forall|k: int| i <= k < j ==> s[k] != '\n',
        j == s.len() || s[j] == '\n',
    ensures
        line_end(s, i) == j,
    decreases j - i,
{
    if i < j {
        lemma_line_end_at(s, i + 1, j);
    }
}

proof fn lemma_grid_shown_lines(cells: Seq<Cell>, w: nat, rows: nat)
    requires
        no_line_break(cells),
        rows >= 1,
        rows * w <= cells.len(),
    ensures
        newline_count(grid_shown(cells, w, rows)) == rows - 1,
        first_line(grid_shown(cells, w, rows)) == shown_cells(row_of(cells, w, 0)),
    decreases rows,
{
    assert(0 * w + w <= cells.len()) by (nonlinear_arith)
        requires rows * w <= cells.len(), rows >= 1;
    let row0 = row_of(cells, w, 0);
    assert forall|i: int| 0 <= i < row0.len() implies !(#[trigger] row0[i] matches Cell::Glyph(ch, _) && ch == '\n') by {
        assert(row0[i] == cells[i]);
    }
    lemma_shown_no_break(row0);
    let first = shown_cells(row0);
    if rows == 1 {
        lemma_no_break_count(first);
        lemma_line_end_at(first, 0, first.len() as int);
        assert(first.take(first.len() as int) =~= first);
    } else {
        let y = rows - 1;
        assert(y * w + w == rows * w) by (nonlinear_arith)
            requires y == rows - 1;
        assert(y * w >= 0) by (nonlinear_arith)
            requires y >= 0;
        assert((rows - 1) * w <= rows * w) by (nonlinear_arith)
            requires rows >= 1;
        lemma_grid_shown_lines(cells, w, (rows - 1) as nat);
        let row = row_of(cells, w, y);
        assert forall|i: int| 0 <= i < row.len() implies !(#[trigger] row[i] matches Cell::Glyph(ch, _) && ch == '\n') by {
            assert(row[i] == cells[y * w + i]);
        }
        lemma_shown_no_break(row);
        lemma_no_break_count(shown_cells(row));
        let a = grid_shown(cells, w, (rows - 1) as nat);
        let s = grid_shown(cells, w, rows);
        assert(s == a + seq!['\n'] + shown_cells(row));
        lemma_newline_count_concat(a, seq!['\n']);
        lemma_newline_count_concat(a + seq!['\n'], shown_cells(row));
        assert(newline_count(seq!['\n']) == 1) by {
            let nl = seq!['\n'];
            assert(nl.drop_last() =~= Seq::<char>::empty());
            assert(nl.last() == '\n');
            assert(newline_count(Seq::<char>::empty()) == 0);
            assert(newline_count(nl) == newline_count(nl.drop_last()) + 1);
        }
        // the first line of `s` is the first line of `a`, which ends where `a`'s first break is
        let e = line_end(a, 0);
        if rows - 1 == 1 {
            lemma_no_break_count(first);
            lemma_line_end_at(a, 0, a.len() as int);
            assert(s[a.len() as int] == '\n');
            assert forall|k: int| 0 <= k < a.len() implies s[k] != '\n' by {
                assert(s[k] == a[k]);
            }
            lemma_line_end_at(s, 0, a.len() as int);
            assert(s.take(a.len() as int) =~= a);
            assert(a.take(a.len() as int) =~= a);
        } else {
            lemma_line_end_bound(a, 0);
            assert(first_line(a) == first);
            assert(e < a.len()) by {
                if e == a.len() {
                    assert(a.take(e) =~= a);
                    lemma_no_break_count(first);
                    assert(newline_count(a) == 0);
                }
            }
            lemma_line_end_props(a, 0);
            assert(a[e] == '\n');
            assert(s[e] == '\n');
            assert forall|k: int| 0 <= k < e implies s[k] != '\n' by {
                assert(s[k] == a[k]);
            }
            lemma_line_end_at(s, 0, e);
            assert(s.take(e) =~= a.take(e));
        }
    }
}

proof fn lemma_line_end_bound(s: Seq<char>, i: int)
    requires
        0 <= i <= s.len(),
    ensures
        i <= line_end(s, i) <= s.len(),
    decreases s.len() - i,
{
    if i < s.len() && s[i] != '\n' {
        lemma_line_end_bound(s, i + 1);
    }
}

proof fn lemma_line_end_props(s: Seq<char>, i: int)
    requires
        0 <= i <= s.len(),
    ensures
        forall|k: int| i <= k < line_end(s, i) ==> s[k] != '\n',
        line_end(s, i) < s.len() ==> s[line_end(s, i)] == '\n',
    decreases s.len() - i,
{
    if i < s.len() && s[i] != '\n' {
        lemma_line_end_props(s, i + 1);
    }
}

/// The conversion screen measures the preview of a converted grid `w` cells wide and `h`
/// rows high (both at least one) as `w` by `h`: its first line without escape sequences
/// holds `w` characters, and it has `h - 1` line breaks. It holds when no glyph is a line
/// break or an escape character.
pub proof fn lemma_preview_measures_grid(cells: Seq<Cell>, w: nat, h: nat)
    requires
        no_line_break(cells),
        no_escape(cells),
        h >= 1,
        h * w <= cells.len(),
    ensures
        spec_strip_ansi(first_line(grid_shown(cells, w, h))).len() == w,
        newline_count(grid_shown(cells, w, h)) + 1 == h,
{
    lemma_grid_shown_lines(cells, w, h);
    assert(0 * w + w <= cells.len()) by (nonlinear_arith)
        requires h * w <= cells.len(), h >= 1;
    let row0 = row_of(cells, w, 0);
    assert forall|i: int| 0 <= i < row0.len() implies !(#[trigger] row0[i] matches Cell::Glyph(ch, _) && ch == '\u{1b}') by {
        assert(row0[i] == cells[i]);
    }
    lemma_row_stripped(row0, Seq::empty());
    assert(shown_cells(row0) + Seq::<char>::empty() =~= shown_cells(row0));
    assert(glyph_text(row0) + Seq::<char>::empty() =~= glyph_text(row0));
}

/// The preview of a converted frame, as the converter colors it with the table the
/// conversion leaves, measures on the conversion screen exactly the size of the grid
/// converted, `w` by `h` (both at least one), when no glyph is a closing brace, a line
/// break or an escape character.
pub proof fn lemma_preview_size_is_grid_size(t0: Seq<u32>, cells: Seq<Cell>, w: nat, h: nat)
    requires
        t0.no_duplicates(),
        no_close_brace(cells),
        no_line_break(cells),
        no_escape(cells),
        h >= 1,
        h * w <= cells.len(),
    ensures
        ({
            let tf = table_after(t0, cells);
            let preview = frame_ansi(grid_markup(cells, w, h, table_key(tf)), MarkupStyle::Braces, palette_of(tf), 0);
            &&& spec_strip_ansi(first_line(preview)).len() == w
            &&& newline_count(preview) + 1 == h
        }),
{
    lemma_conversion_reads_back(t0, cells, w, h);
    lemma_preview_measures_grid(cells, w, h);
}

// ---------------------------------------------------------------------------
// Any rendered frame
// ---------------------------------------------------------------------------

/// Whether `s` holds no escape character.
pub open spec fn no_escape_char(s: Seq<char>) -> bool {
    forall|i: int| 0 <= i < s.len() ==> s[i] != '\u{1b}'
}

proof fn lemma_strip_colorized(pal: Map<Seq<char>, Seq<char>>, key: Seq<char>, text: Seq<char>, rest: Seq<char>)
    requires
        no_escape_char(text),
    ensures
        stripped_from(colorize(pal, key, text) + rest, 0) == text + stripped_from(rest, 0),
{
    let col = crate::parser::resolve_color(pal, key);
    if crate::parser::hex_fields_aligned(col) && crate::parser::spec_hex_rgb(col) is Some {
        let (r, g, b) = crate::parser::spec_hex_rgb(col)->0;
        lemma_strip_truecolor(text, r, g, b, rest);
    } else {
        lemma_strip_plain(text, rest);
    }
}

/// One span step: plain text, then a colored span text, then a tail that strips to
/// `vis_tail`.
proof fn lemma_strip_span_step(
    a: Seq<char>,
    pal: Map<Seq<char>, Seq<char>>,
    key: Seq<char>,
    text: Seq<char>,
    tail: Seq<char>,
    vis_tail: Seq<char>,
    rest: Seq<char>,
)
    requires
        no_escape_char(a),
        no_escape_char(text),
        stripped_from(tail + rest, 0) == vis_tail + stripped_from(rest, 0),
    ensures
        stripped_from(a + colorize(pal, key, text) + tail + rest, 0) == a + text + vis_tail + stripped_from(rest, 0),
{
    assert(a + colorize(pal, key, text) + tail + rest =~= a + (colorize(pal, key, text) + (tail + rest)));
    lemma_strip_plain(a, colorize(pal, key, text) + (tail + rest));
    lemma_strip_colorized(pal, key, text, tail + rest);
    assert(a + (text + (vis_tail + stripped_from(rest, 0))) =~= a + text + vis_tail + stripped_from(rest, 0));
}

/// A slice of text without escape characters has none either.
proof fn lemma_no_escape_slice(c: Seq<char>, i: int, j: int)
    requires
        no_escape_char(c),
        0 <= i <= j <= c.len(),
    ensures
        no_escape_char(c.subrange(i, j)),
{
    assert forall|k: int| 0 <= k < j - i implies c.subrange(i, j)[k] != '\u{1b}' by {
        assert(c.subrange(i, j)[k] == c[i + k]);
    }
}

proof fn lemma_frame_stripped(c: Seq<char>, style: MarkupStyle, pal: Map<Seq<char>, Seq<char>>, from: int, rest: Seq<char>)
    requires
        0 <= from <= c.len(),
        no_escape_char(c),
    ensures
        stripped_from(frame_ansi(c, style, pal, from) + rest, 0) == frame_visible(c, style, from) + stripped_from(rest, 0),
    decreases c.len() - from,
{
    lemma_next_span(c, style, from);
    match next_span(c, style, from) {
        Some(sp) => {
            lemma_no_escape_slice(c, from, sp.start);
            lemma_no_escape_slice(c, sp.text_start, sp.text_end);
            lemma_frame_stripped(c, style, pal, sp.end, rest);
            lemma_strip_span_step(
                c.subrange(from, sp.start),
                pal,
                c.subrange(sp.key_start, sp.key_end),
                c.subrange(sp.text_start, sp.text_end),
                frame_ansi(c, style, pal, sp.end),
                frame_visible(c, style, sp.end),
                rest,
            );
        },
        None => {
            lemma_no_escape_slice(c, from, c.len() as int);
            lemma_strip_plain(c.subrange(from, c.len() as int), rest);
        },
    }
}

/// Removing the color escape sequences from a rendered frame leaves exactly its visible
/// text, in either markup style and with any palette, when the frame's markup holds no
/// escape character.
pub proof fn lemma_rendered_frame_strips_to_visible(c: Seq<char>, style: MarkupStyle, pal: Map<Seq<char>, Seq<char>>)
    requires
        no_escape_char(c),
    ensures
        spec_strip_ansi(frame_ansi(c, style, pal, 0)) == frame_visible(c, style, 0),
{
    lemma_frame_stripped(c, style, pal, 0, Seq::empty());
    assert(frame_ansi(c, style, pal, 0) + Seq::<char>::empty() =~= frame_ansi(c, style, pal, 0));
    assert(frame_visible(c, style, 0) + Seq::<char>::empty() =~= frame_visible(c, style, 0));
}

} // verus!
