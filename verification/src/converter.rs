//! Converting images into `.askey` frames: pixels become glyphs, colors become palette keys,
//! and runs of same-colored glyphs become `{key:text}` spans.

use vstd::prelude::*;
use vstd::hash_map::HashMapWithView;
use crate::text::{chars_of, dec, decimal, digit_char, hex_color, hex_color_string};
use crate::models::{AskeyFile, CharsetPreset, FrameObj, Frames, Metadata, Palette};
use crate::markup::MarkupStyle;
use crate::parser::{frame_ansi, frame_delays, frame_texts, parse_frames, rendered_frames};

verus! {

broadcast use vstd::std_specs::hash::group_hash_axioms;

/// An RGBA image: `width * height` pixels of four bytes each, row by row.
#[derive(Debug, Clone)]
pub struct RgbaFrame {
    pub width: u32,
    pub height: u32,
    pub pixels: Vec<u8>,
}

impl RgbaFrame {
    /// Whether the pixel bytes match the size.
    pub open spec fn wf(&self) -> bool {
        self.pixels@.len() == self.width * self.height * 4
    }
}

// ---------------------------------------------------------------------------
// Glyphs and colors of single pixels
// ---------------------------------------------------------------------------

/// The glyphs of a character-set preset, from darkest to brightest.
pub open spec fn preset_glyphs(p: CharsetPreset) -> Seq<char> {
    match p {
        CharsetPreset::Blocks => " ░▒▓█"@,
        CharsetPreset::Standard => " .:-=+*#%@"@,
        CharsetPreset::Detailed => " .'`^\",:;Il!i><~+_-?][}{1)(|\\/tfjrxnuvczXYUJCLQ0OZmwqpdbkhaogpyLDBWM#*&8%@$"@,
        CharsetPreset::Custom(s) => s@,
    }
}

/// The named presets go from a blank, for the darkest pixels, to their densest glyph, for
/// the brightest: the first glyph is a space and no other is. Blocks has 5 glyphs ending in
/// a full block, standard 10 ending in `@`, detailed 75 from ` .` to `%@$`, its two before
/// the last being standard's two densest.
pub proof fn lemma_named_preset_glyphs(p: CharsetPreset)
    requires
        p !is Custom,
    ensures
        preset_glyphs(p).len() >= 5,
        preset_glyphs(p)[0] == ' ',
        forall|i: int| 1 <= i < preset_glyphs(p).len() ==> preset_glyphs(p)[i] != ' ',
        p == CharsetPreset::Blocks ==> preset_glyphs(p).len() == 5 && preset_glyphs(p).last() == '█',
        p == CharsetPreset::Standard ==> preset_glyphs(p).len() == 10 && preset_glyphs(p).last() == '@'
            && preset_glyphs(p)[1] == '.',
        p == CharsetPreset::Detailed ==> preset_glyphs(p).len() == 75 && preset_glyphs(p).last() == '$'
            && preset_glyphs(p)[1] == '.'
            && preset_glyphs(p).subrange(72, 74) == preset_glyphs(CharsetPreset::Standard).subrange(8, 10),
{
    reveal_strlit(" ░▒▓█");
    reveal_strlit(" .:-=+*#%@");
    reveal_strlit(" .'`^\",:;Il!i><~+_-?][}{1)(|\\/tfjrxnuvczXYUJCLQ0OZmwqpdbkhaogpyLDBWM#*&8%@$");
    assert(preset_glyphs(CharsetPreset::Detailed).subrange(72, 74) =~= preset_glyphs(CharsetPreset::Standard).subrange(8, 10));
}

/// With a named preset, a visible pixel given the first glyph (the darkest) stays blank,
/// and one given the last glyph or beyond (the brightest) shows the preset's densest glyph.
pub proof fn lemma_named_preset_cells(p: CharsetPreset, px: Seq<u8>, glyph_idx: Seq<usize>, step: u8, i: int)
    requires
        p !is Custom,
        0 <= i < glyph_idx.len(),
        px[4 * i + 3] >= 64,
    ensures
        glyph_idx[i] == 0 ==> cell_at(px, glyph_idx, preset_glyphs(p), step, i) is Blank,
        glyph_idx[i] >= preset_glyphs(p).len() - 1 ==> (cell_at(px, glyph_idx, preset_glyphs(p), step, i) matches Cell::Glyph(ch, _)
            && ch == preset_glyphs(p).last()),
{
    lemma_named_preset_glyphs(p);
}

/// The glyphs of a character-set preset.
pub fn preset_chars(p: &CharsetPreset) -> (v: Vec<char>)
    ensures
        v@ == preset_glyphs(*p),
{
    match p {
        CharsetPreset::Blocks => chars_of(" ░▒▓█"),
        CharsetPreset::Standard => chars_of(" .:-=+*#%@"),
        CharsetPreset::Detailed => chars_of(" .'`^\",:;Il!i><~+_-?][}{1)(|\\/tfjrxnuvczXYUJCLQ0OZmwqpdbkhaogpyLDBWM#*&8%@$"),
        CharsetPreset::Custom(s) => chars_of(s.as_str()),
    }
}

/// A channel rounded to the nearest multiple of the step (a step of 0 counts as 1),
/// capped at 255.
pub open spec fn quantize_channel(v: u8, step: u8) -> u8 {
    let q: int = if step == 0 { 1 } else { step as int };
    let x: int = ((v as int + q / 2) / q) * q;
    if x > 255 { 255u8 } else { x as u8 }
}

/// Quantizing rounds a channel to a nearest multiple of the step (halves rounding up),
/// capped at 255: below the cap the result is a multiple of the step within half a step
/// of the channel; a step of 1 keeps every channel, and a channel already a multiple of
/// the step stays.
pub proof fn lemma_quantize_channel_nearest(v: u8, step: u8)
    requires
        step > 0,
    ensures
        quantize_channel(v, step) <= 255,
        quantize_channel(v, step) < 255 ==> quantize_channel(v, step) % step == 0,
        quantize_channel(v, step) < 255 ==> v - step / 2 <= quantize_channel(v, step) <= v + step / 2,
        quantize_channel(v, step) == 255 ==> v + step / 2 >= 255 - step,
        step == 1 ==> quantize_channel(v, step) == v,
        v % step == 0 ==> quantize_channel(v, step) == v,
{
    let q = step as int;
    let t = (v as int + q / 2) / q;
    assert(t * q <= v as int + q / 2 < t * q + q) by (nonlinear_arith)
        requires q > 0, t == (v as int + q / 2) / q, v >= 0;
    assert((t * q) % q == 0) by (nonlinear_arith)
        requires q > 0;
    if v % step == 0 {
        assert(t == v as int / q) by (nonlinear_arith)
            requires q > 0, t == (v as int + q / 2) / q, (v as int) % q == 0, v >= 0;
        assert(t * q == v) by (nonlinear_arith)
            requires q > 0, t == v as int / q, (v as int) % q == 0, v >= 0;
    }
    if step == 1 {
        assert(t == v);
    }
}

/// A color packed as `0xRRGGBB`.
pub open spec fn pack_rgb(r: u8, g: u8, b: u8) -> u32 {
    (r as int * 65536 + g as int * 256 + b as int) as u32
}

/// The channels of a packed color.
pub open spec fn unpack_rgb(c: u32) -> (u8, u8, u8) {
    ((c / 65536) as u8, ((c / 256) % 256) as u8, (c % 256) as u8)
}

/// A packed color unpacks to its three channels, and fits in 24 bits.
pub proof fn lemma_pack_unpack(r: u8, g: u8, b: u8)
    ensures
        unpack_rgb(pack_rgb(r, g, b)) == (r, g, b),
        pack_rgb(r, g, b) < 0x1000000,
{
    let c = r as int * 65536 + g as int * 256 + b as int;
    assert(c < 0x1000000);
    assert(c / 65536 == r as int) by (nonlinear_arith)
        requires c == r as int * 65536 + g as int * 256 + b as int, 0 <= g < 256, 0 <= b < 256;
    assert((c / 256) % 256 == g as int) by (nonlinear_arith)
        requires c == r as int * 65536 + g as int * 256 + b as int, 0 <= g < 256, 0 <= b < 256, 0 <= r < 256;
    assert(c % 256 == b as int) by (nonlinear_arith)
        requires c == r as int * 65536 + g as int * 256 + b as int, 0 <= b < 256, 0 <= r, 0 <= g;
}

/// What one pixel becomes.
pub enum Cell {
    /// A space outside any span.
    Blank,
    /// A glyph drawn in a (packed, quantized) color.
    Glyph(char, u32),
}

/// The cell of pixel `i`: a pixel with alpha below 64, or whose glyph is a space, is blank;
/// any other pixel shows its glyph (the glyph index capped at the last glyph) in its
/// quantized color.
pub open spec fn cell_at(px: Seq<u8>, glyph_idx: Seq<usize>, glyphs: Seq<char>, step: u8, i: int) -> Cell {
    if px[4 * i + 3] < 64 {
        Cell::Blank
    } else {
        let gi: int = if (glyph_idx[i] as int) < glyphs.len() - 1 { glyph_idx[i] as int } else { glyphs.len() - 1 };
        let ch = glyphs[gi];
        if ch == ' ' {
            Cell::Blank
        } else {
            Cell::Glyph(ch, pack_rgb(
                quantize_channel(px[4 * i], step),
                quantize_channel(px[4 * i + 1], step),
                quantize_channel(px[4 * i + 2], step),
            ))
        }
    }
}

/// The cells of all pixels, row by row.
pub open spec fn frame_cells(f: RgbaFrame, glyph_idx: Seq<usize>, glyphs: Seq<char>, step: u8) -> Seq<Cell> {
    Seq::new((f.width * f.height) as nat, |i: int| cell_at(f.pixels@, glyph_idx, glyphs, step, i))
}

/// Whether every pixel is too transparent to show a glyph.
pub open spec fn all_transparent(px: Seq<u8>, n: int) -> bool {
    forall|i: int| 0 <= i < n ==> #[trigger] px[4 * i + 3] < 64
}

fn quantize_channel_exec(v: u8, step: u8) -> (r: u8)
    ensures
        r == quantize_channel(v, step),
{
    let q: u16 = if step == 0 { 1 } else { step as u16 };
    let half = q / 2;
    let t: u16 = (v as u16 + half) / q;
    assert(t as int * q as int <= v as int + q as int / 2) by (nonlinear_arith)
        requires q > 0, v >= 0, t as int == (v as int + q as int / 2) / q as int;
    let x: u16 = t * q;
    if x > 255 { 255 } else { x as u8 }
}

fn pack_rgb_exec(r: u8, g: u8, b: u8) -> (c: u32)
    ensures
        c == pack_rgb(r, g, b),
{
    (r as u32) * 65536 + (g as u32) * 256 + (b as u32)
}

fn cell_at_exec(f: &RgbaFrame, glyph_idx: &Vec<usize>, glyphs: &Vec<char>, step: u8, i: usize) -> (c: Cell)
    requires
        f.wf(),
        glyph_idx@.len() == f.width * f.height,
        i < f.width * f.height,
        glyphs@.len() > 0 || all_transparent(f.pixels@, f.width * f.height),
    ensures
        c == cell_at(f.pixels@, glyph_idx@, glyphs@, step, i as int),
{
    assert(4 * i + 3 < f.pixels@.len()) by (nonlinear_arith)
        requires i < f.width * f.height, f.pixels@.len() == f.width * f.height * 4;
    let n = f.pixels.len();
    assert(4 * i + 3 < n);
    let base = 4 * i;
    if f.pixels[base + 3] < 64 {
        Cell::Blank
    } else {
        assert(glyphs@.len() > 0) by {
            if glyphs@.len() == 0 {
                assert(f.pixels@[4 * (i as int) + 3] < 64);
            }
        }
        let last = glyphs.len() - 1;
        let gi = if glyph_idx[i] < last { glyph_idx[i] } else { last };
        let ch = glyphs[gi];
        if ch == ' ' {
            Cell::Blank
        } else {
            let r = quantize_channel_exec(f.pixels[base], step);
            let g = quantize_channel_exec(f.pixels[base + 1], step);
            let b = quantize_channel_exec(f.pixels[base + 2], step);
            Cell::Glyph(ch, pack_rgb_exec(r, g, b))
        }
    }
}

// ---------------------------------------------------------------------------
// The color table: palette keys are the positions of colors in order of first use
// ---------------------------------------------------------------------------

/// The position of color `c` in the table `t`.
pub open spec fn color_index(t: Seq<u32>, c: u32) -> int {
    choose|i: int| 0 <= i < t.len() && t[i] == c
}

/// The table after meeting the glyph colors of `cells` in order: new colors are appended.
pub open spec fn table_after(t: Seq<u32>, cells: Seq<Cell>) -> Seq<u32>
    decreases cells.len(),
{
    if cells.len() == 0 {
        t
    } else {
        let t1 = table_after(t, cells.drop_last());
        match cells.last() {
            Cell::Glyph(_, c) => if t1.contains(c) { t1 } else { t1.push(c) },
            Cell::Blank => t1,
        }
    }
}

/// The colors met so far in a conversion, in order of first use, each once.
pub struct ColorTable {
    colors: Vec<u32>,
    ids: HashMapWithView<u32, usize>,
}

impl View for ColorTable {
    type V = Seq<u32>;

    closed spec fn view(&self) -> Seq<u32> {
        self.colors@
    }
}

/// In a table without repeats, a color's key is the one position that holds it.
pub proof fn lemma_color_index(t: Seq<u32>, c: u32, i: int)
    requires
        t.no_duplicates(),
        0 <= i < t.len(),
        t[i] == c,
    ensures
        color_index(t, c) == i,
{
    let j = color_index(t, c);
    assert(0 <= j < t.len() && t[j] == c);
}

impl ColorTable {
    #[verifier::type_invariant]
    closed spec fn wf(self) -> bool {
        &&& self.colors@.no_duplicates()
        &&& forall|c: u32| #[trigger] self.ids@.contains_key(c) <==> self.colors@.contains(c)
        &&& forall|i: int| 0 <= i < self.colors@.len() ==> self.ids@[#[trigger] self.colors@[i]] == i
    }

    /// An empty table.
    pub fn new() -> (t: Self)
        ensures
            t@ == Seq::<u32>::empty(),
    {
        let t = ColorTable { colors: Vec::new(), ids: HashMapWithView::new() };
        assert(t.colors@.no_duplicates());
        t
    }

    /// The key of color `c`, appending it to the table when it is new.
    pub fn key_of(&mut self, c: u32) -> (k: usize)
        ensures
            final(self)@ == (if old(self)@.contains(c) { old(self)@ } else { old(self)@.push(c) }),
            k < final(self)@.len(),
            final(self)@[k as int] == c,
            k == color_index(final(self)@, c),
            final(self)@.no_duplicates(),
    {
        proof {
            use_type_invariant(&*self);
        }
        match self.ids.get(&c) {
            Some(k) => {
                let k = *k;
                proof {
                    let i = choose|i: int| 0 <= i < self.colors@.len() && self.colors@[i] == c;
                    assert(self.ids@[self.colors@[i]] == i);
                    lemma_color_index(self.colors@, c, k as int);
                }
                k
            },
            None => {
                let mut old_t = ColorTable::new();
                std::mem::swap(self, &mut old_t);
                proof {
                    use_type_invariant(&old_t);
                }
                let ColorTable { mut colors, mut ids } = old_t;
                let ghost old_colors = colors@;
                let k = colors.len();
                colors.push(c);
                ids.insert(c, k);
                proof {
                    assert(!old_colors.contains(c));
                    assert(colors@.no_duplicates()) by {
                        assert forall|i: int, j: int| 0 <= i < colors@.len() && 0 <= j < colors@.len() && i != j
                            implies colors@[i] != colors@[j] by {
                            if i < old_colors.len() && j < old_colors.len() {
                                assert(old_colors[i] == colors@[i] && old_colors[j] == colors@[j]);
                            } else if i < old_colors.len() {
                                assert(old_colors[i] == colors@[i]);
                            } else if j < old_colors.len() {
                                assert(old_colors[j] == colors@[j]);
                            }
                        }
                    }
                    assert forall|d: u32| #[trigger] ids@.contains_key(d) <==> colors@.contains(d) by {
                        if colors@.contains(d) && d != c {
                            let i = choose|i: int| 0 <= i < colors@.len() && colors@[i] == d;
                            assert(old_colors[i] == d);
                        }
                        if old_colors.contains(d) {
                            let i = choose|i: int| 0 <= i < old_colors.len() && old_colors[i] == d;
                            assert(colors@[i] == d);
                        }
                        if d == c {
                            assert(colors@[k as int] == d);
                        }
                    }
                    assert forall|i: int| 0 <= i < colors@.len() implies ids@[#[trigger] colors@[i]] == i by {
                        if i < old_colors.len() {
                            assert(colors@[i] == old_colors[i]);
                            assert(old_colors[i] != c);
                        }
                    }
                    lemma_color_index(colors@, c, k as int);
                }
                *self = ColorTable { colors, ids };
                k
            },
        }
    }

    /// Number of colors.
    pub fn len(&self) -> (n: usize)
        ensures
            n == self@.len(),
    {
        self.colors.len()
    }

    /// The color with key `k`.
    pub fn color(&self, k: usize) -> (c: u32)
        requires
            k < self@.len(),
        ensures
            c == self@[k as int],
    {
        self.colors[k]
    }
}

// ---------------------------------------------------------------------------
// The markup of a row of cells
// ---------------------------------------------------------------------------

/// Whether cell `x` shows a glyph of color `col`.
pub open spec fn has_color(x: Cell, col: u32) -> bool {
    x matches Cell::Glyph(_, c) && c == col
}

/// Number of leading cells that show glyphs of color `col`.
pub open spec fn run_len(cells: Seq<Cell>, col: u32) -> nat
    decreases cells.len(),
{
    if cells.len() > 0 && has_color(cells[0], col) {
        1 + run_len(cells.drop_first(), col)
    } else {
        0
    }
}

/// The glyphs shown by cells (a space for a blank cell).
pub open spec fn glyph_text(cells: Seq<Cell>) -> Seq<char> {
    cells.map_values(|x: Cell| match x {
        Cell::Glyph(ch, _) => ch,
        Cell::Blank => ' ',
    })
}

/// `{key:text}`
pub open spec fn span_markup(key: nat, text: Seq<char>) -> Seq<char> {
    seq!['{'] + dec(key) + seq![':'] + text + seq!['}']
}

/// A run of one color covers only cells of that color and ends at a cell of another.
pub proof fn lemma_run_len(cells: Seq<Cell>, col: u32)
    ensures
        run_len(cells, col) <= cells.len(),
        forall|j: int| 0 <= j < run_len(cells, col) ==> has_color(#[trigger] cells[j], col),
        run_len(cells, col) < cells.len() ==> !has_color(cells[run_len(cells, col) as int], col),
        cells.len() > 0 && has_color(cells[0], col) ==> run_len(cells, col) >= 1,
    decreases cells.len(),
{
    if cells.len() > 0 && has_color(cells[0], col) {
        lemma_run_len(cells.drop_first(), col);
        assert forall|j: int| 0 <= j < run_len(cells, col) implies has_color(#[trigger] cells[j], col) by {
            if j > 0 {
                assert(cells[j] == cells.drop_first()[j - 1]);
            }
        }
    }
}

/// The markup of a row: a blank cell is a space; each maximal run of glyphs of one color
/// is one span `{key:glyphs}`, keyed by `key` of the color.
pub open spec fn encode_cells(cells: Seq<Cell>, key: spec_fn(u32) -> nat) -> Seq<char>
    decreases cells.len(),
{
    if cells.len() == 0 {
        seq![]
    } else {
        match cells[0] {
            Cell::Blank => seq![' '] + encode_cells(cells.drop_first(), key),
            Cell::Glyph(_, col) => {
                proof {
                    lemma_run_len(cells, col);
                }
                let k = run_len(cells, col) as int;
                span_markup(key(col), glyph_text(cells.take(k))) + encode_cells(cells.skip(k), key)
            },
        }
    }
}

proof fn lemma_run_len_push(s: Seq<Cell>, x: Cell, col: u32)
    ensures
        run_len(s, col) < s.len() ==> run_len(s.push(x), col) == run_len(s, col),
        run_len(s, col) == s.len() ==> run_len(s.push(x), col) == s.len() + if has_color(x, col) { 1nat } else { 0nat },
    decreases s.len(),
{
    lemma_run_len(s, col);
    let t = s.push(x);
    if s.len() == 0 {
        assert(t.drop_first() =~= Seq::<Cell>::empty());
        assert(run_len(Seq::<Cell>::empty(), col) == 0);
    } else {
        assert(t[0] == s[0]);
        if has_color(s[0], col) {
            assert(t.drop_first() =~= s.drop_first().push(x));
            lemma_run_len_push(s.drop_first(), x, col);
        }
    }
}

proof fn lemma_encode_nonempty(s: Seq<Cell>, key: spec_fn(u32) -> nat)
    ensures
        s.len() > 0 ==> encode_cells(s, key).len() > 0,
{
    if s.len() > 0 {
        match s[0] {
            Cell::Blank => {},
            Cell::Glyph(_, col) => {
                lemma_run_len(s, col);
            },
        }
    }
}

/// The markup that a cell appended to a row adds (see [`lemma_encode_push`]).
pub open spec fn encode_push(enc: Seq<char>, s: Seq<Cell>, x: Cell, key: spec_fn(u32) -> nat) -> Seq<char> {
    match x {
        Cell::Blank => enc + seq![' '],
        Cell::Glyph(ch, col) => if s.len() > 0 && has_color(s.last(), col) {
            enc.drop_last() + seq![ch, '}']
        } else {
            enc + span_markup(key(col), seq![ch])
        },
    }
}

proof fn lemma_encode_single(x: Cell, key: spec_fn(u32) -> nat)
    ensures
        encode_cells(seq![x], key) == encode_push(seq![], Seq::<Cell>::empty(), x, key),
{
    let t = seq![x];
    assert(t.drop_first() =~= Seq::<Cell>::empty());
    assert(encode_cells(Seq::<Cell>::empty(), key) =~= seq![]);
    match x {
        Cell::Blank => {
            lemma_encode_blank_head(t, key);
            assert(encode_cells(t, key) =~= seq![' ']);
        },
        Cell::Glyph(ch, col) => {
            lemma_encode_glyph_head(t, ch, col, key);
            lemma_run_len(t, col);
            assert(run_len(t.drop_first(), col) == 0);
            assert(t.take(1) =~= t);
            assert(t.skip(1) =~= Seq::<Cell>::empty());
            assert(glyph_text(t) =~= seq![ch]);
            assert(encode_cells(t, key) =~= span_markup(key(col), seq![ch]));
        },
    }
}

proof fn lemma_encode_blank_head(s: Seq<Cell>, key: spec_fn(u32) -> nat)
    requires
        s.len() > 0,
        s[0] is Blank,
    ensures
        encode_cells(s, key) == seq![' '] + encode_cells(s.drop_first(), key),
{
}

proof fn lemma_encode_glyph_head(s: Seq<Cell>, ch: char, col: u32, key: spec_fn(u32) -> nat)
    requires
        s.len() > 0,
        s[0] == Cell::Glyph(ch, col),
    ensures
        encode_cells(s, key) == span_markup(key(col), glyph_text(s.take(run_len(s, col) as int)))
            + encode_cells(s.skip(run_len(s, col) as int), key),
{
}

proof fn lemma_push_prefix(p: Seq<char>, enc: Seq<char>, s: Seq<Cell>, x: Cell, key: spec_fn(u32) -> nat)
    requires
        enc.len() > 0,
    ensures
        encode_push(p + enc, s, x, key) == p + encode_push(enc, s, x, key),
{
    match x {
        Cell::Blank => {
            assert(encode_push(p + enc, s, x, key) =~= p + encode_push(enc, s, x, key));
        },
        Cell::Glyph(ch, col) => {
            assert((p + enc).drop_last() =~= p + enc.drop_last());
            assert(encode_push(p + enc, s, x, key) =~= p + encode_push(enc, s, x, key));
        },
    }
}

/// Appending a cell to a row appends its markup: a space for a blank cell, the glyph inside
/// the last span when the row ends in a glyph of the same color, else a new span.
pub proof fn lemma_encode_push(s: Seq<Cell>, x: Cell, key: spec_fn(u32) -> nat)
    ensures
        encode_cells(s.push(x), key) == encode_push(encode_cells(s, key), s, x, key),
    decreases s.len(),
{
    let t = s.push(x);
    if s.len() == 0 {
        assert(t =~= seq![x]);
        lemma_encode_single(x, key);
        assert(encode_cells(s, key) =~= seq![]);
    } else {
        assert(t[0] == s[0]);
        match s[0] {
            Cell::Blank => {
                let s1 = s.drop_first();
                assert(t.drop_first() =~= s1.push(x));
                lemma_encode_blank_head(s, key);
                lemma_encode_blank_head(t, key);
                lemma_encode_push(s1, x, key);
                if s1.len() > 0 {
                    assert(s1.last() == s.last());
                    lemma_encode_nonempty(s1, key);
                    lemma_push_prefix(seq![' '], encode_cells(s1, key), s1, x, key);
                    assert(encode_push(encode_cells(s1, key), s1, x, key) == encode_push(encode_cells(s1, key), s, x, key));
                } else {
                    assert(encode_cells(s1, key) =~= seq![]);
                    assert(encode_cells(s, key) =~= seq![' ']);
                    match x {
                        Cell::Blank => {},
                        Cell::Glyph(ch, col) => {
                            assert(!has_color(s.last(), col));
                        },
                    }
                    assert(encode_cells(t, key) =~= encode_push(encode_cells(s, key), s, x, key));
                }
            },
            Cell::Glyph(ch0, col0) => {
                lemma_run_len(s, col0);
                lemma_run_len_push(s, x, col0);
                lemma_encode_glyph_head(s, ch0, col0, key);
                lemma_encode_glyph_head(t, ch0, col0, key);
                let k = run_len(s, col0) as int;
                let head = span_markup(key(col0), glyph_text(s.take(k)));
                if k < s.len() {
                    let rest = s.skip(k);
                    assert(t.take(k) =~= s.take(k));
                    assert(t.skip(k) =~= rest.push(x));
                    lemma_encode_push(rest, x, key);
                    lemma_encode_nonempty(rest, key);
                    assert(rest.last() == s.last());
                    lemma_push_prefix(head, encode_cells(rest, key), rest, x, key);
                    assert(encode_push(encode_cells(rest, key), rest, x, key) == encode_push(encode_cells(rest, key), s, x, key));
                } else {
                    lemma_encode_full_run(s, x, ch0, col0, key);
                }
            },
        }
    }
}

proof fn lemma_encode_full_run(s: Seq<Cell>, x: Cell, ch0: char, col0: u32, key: spec_fn(u32) -> nat)
    requires
        s.len() > 0,
        s[0] == Cell::Glyph(ch0, col0),
        run_len(s, col0) == s.len(),
    ensures
        encode_cells(s.push(x), key) == encode_push(encode_cells(s, key), s, x, key),
{
    let t = s.push(x);
    let k = s.len() as int;
    lemma_run_len(s, col0);
    lemma_run_len_push(s, x, col0);
    assert(t[0] == s[0]);
    lemma_encode_glyph_head(s, ch0, col0, key);
    lemma_encode_glyph_head(t, ch0, col0, key);
    assert(s.take(k) =~= s);
    assert(s.skip(k) =~= Seq::<Cell>::empty());
    assert(encode_cells(s, key) =~= span_markup(key(col0), glyph_text(s)));
    assert(has_color(s[k - 1], col0));
    if has_color(x, col0) {
        assert(t.take(k + 1) =~= t);
        assert(t.skip(k + 1) =~= Seq::<Cell>::empty());
        match x {
            Cell::Glyph(ch, col) => {
                assert(glyph_text(t) =~= glyph_text(s).push(ch));
                assert(encode_cells(t, key) =~= encode_cells(s, key).drop_last() + seq![ch, '}']);
            },
            Cell::Blank => {},
        }
    } else {
        assert(t.take(k) =~= s);
        assert(t.skip(k) =~= seq![x]);
        lemma_encode_single(x, key);
        assert(encode_cells(t, key) =~= encode_cells(s, key) + encode_cells(seq![x], key));
        match x {
            Cell::Blank => {
                assert(encode_cells(t, key) =~= encode_push(encode_cells(s, key), s, x, key));
            },
            Cell::Glyph(ch, col) => {
                assert(encode_cells(t, key) =~= encode_push(encode_cells(s, key), s, x, key));
            },
        }
    }
}

// ---------------------------------------------------------------------------
// The markup of a frame
// ---------------------------------------------------------------------------

/// Row `y` of a grid of cells `w` wide.
pub open spec fn row_of(cells: Seq<Cell>, w: nat, y: int) -> Seq<Cell> {
    cells.subrange(y * w, y * w + w)
}

/// The markup of the first `rows` rows, separated by line breaks.
pub open spec fn grid_markup(cells: Seq<Cell>, w: nat, rows: nat, key: spec_fn(u32) -> nat) -> Seq<char>
    decreases rows,
{
    if rows == 0 {
        seq![]
    } else if rows == 1 {
        encode_cells(row_of(cells, w, 0), key)
    } else {
        grid_markup(cells, w, (rows - 1) as nat, key) + seq!['\n'] + encode_cells(row_of(cells, w, rows - 1), key)
    }
}

/// The palette key of each color: its position in the table.
pub open spec fn table_key(t: Seq<u32>) -> spec_fn(u32) -> nat {
    |c: u32| color_index(t, c) as nat
}

proof fn lemma_table_after_push(t: Seq<u32>, s: Seq<Cell>, x: Cell)
    ensures
        table_after(t, s.push(x)) == match x {
            Cell::Glyph(_, c) => if table_after(t, s).contains(c) { table_after(t, s) } else { table_after(t, s).push(c) },
            Cell::Blank => table_after(t, s),
        },
{
    assert(s.push(x).drop_last() =~= s);
}

/// The table after some cells begins with the table before them, and never repeats a color.
pub proof fn lemma_table_after_grows(t: Seq<u32>, cells: Seq<Cell>, i: int, j: int)
    requires
        t.no_duplicates(),
        0 <= i <= j <= cells.len(),
    ensures
        table_after(t, cells.take(j)).no_duplicates(),
        table_after(t, cells.take(i)).len() <= table_after(t, cells.take(j)).len(),
        table_after(t, cells.take(j)).take(table_after(t, cells.take(i)).len() as int) == table_after(t, cells.take(i)),
    decreases j - i,
{
    lemma_table_after_distinct(t, cells.take(j));
    if i < j {
        lemma_table_after_grows(t, cells, i, j - 1);
        assert(cells.take(j) =~= cells.take(j - 1).push(cells[j - 1]));
        lemma_table_after_push(t, cells.take(j - 1), cells[j - 1]);
        let a = table_after(t, cells.take(i));
        let b = table_after(t, cells.take(j - 1));
        let c = table_after(t, cells.take(j));
        assert(c.take(a.len() as int) =~= b.take(a.len() as int));
    } else {
        assert(table_after(t, cells.take(j)).take(table_after(t, cells.take(j)).len() as int) =~= table_after(t, cells.take(j)));
    }
}

proof fn lemma_table_after_distinct(t: Seq<u32>, s: Seq<Cell>)
    requires
        t.no_duplicates(),
    ensures
        table_after(t, s).no_duplicates(),
    decreases s.len(),
{
    if s.len() > 0 {
        lemma_table_after_distinct(t, s.drop_last());
        let t1 = table_after(t, s.drop_last());
        match s.last() {
            Cell::Glyph(_, c) => {
                if !t1.contains(c) {
                    assert forall|a: int, b: int| 0 <= a < t1.push(c).len() && 0 <= b < t1.push(c).len() && a != b
                        implies t1.push(c)[a] != t1.push(c)[b] by {
                        if a == t1.len() as int {
                            assert(t1[b] != c);
                        } else if b == t1.len() as int {
                            assert(t1[a] != c);
                        }
                    }
                }
            },
            Cell::Blank => {},
        }
    }
}

/// Appends `{key:text}` to `out`.
fn push_span(out: &mut String, key: usize, text: &String)
    ensures
        final(out)@ == old(out)@ + span_markup(key as nat, text@),
{
    out.push('{');
    let k = decimal(key as u64);
    crate::text::push_str(out, k.as_str());
    out.push(':');
    crate::text::push_str(out, text.as_str());
    out.push('}');
    assert(final(out)@ =~= old(out)@ + span_markup(key as nat, text@));
}

/// The table once a cell has been met.
pub open spec fn table_with(t: Seq<u32>, x: Cell) -> Seq<u32> {
    match x {
        Cell::Glyph(_, c) => if t.contains(c) { t } else { t.push(c) },
        Cell::Blank => t,
    }
}

/// The state of a row being encoded: `out` holds the finished markup, and when a span is
/// open, `open` holds its key and `acc` its glyphs so far.
pub open spec fn row_state(out: Seq<char>, open: Option<usize>, acc: Seq<char>, base: Seq<char>, prefix: Seq<Cell>, tf: Seq<u32>) -> bool {
    match open {
        None => out == base + encode_cells(prefix, table_key(tf)) && (prefix.len() == 0 || prefix.last() is Blank),
        Some(k) => out + span_markup(k as nat, acc) == base + encode_cells(prefix, table_key(tf)) && prefix.len() > 0
            && (k as int) < tf.len() && has_color(prefix.last(), tf[k as int]) && color_index(tf, tf[k as int]) == k,
    }
}

/// Encodes one more cell of a row.
fn push_cell(
    table: &mut ColorTable,
    out: &mut String,
    open: &mut Option<usize>,
    acc: &mut String,
    cell: Cell,
    Ghost(base): Ghost<Seq<char>>,
    Ghost(prefix): Ghost<Seq<Cell>>,
    Ghost(tf): Ghost<Seq<u32>>,
)
    requires
        row_state(old(out)@, *old(open), old(acc)@, base, prefix, tf),
        tf.no_duplicates(),
        table_with(old(table)@, cell).len() <= tf.len(),
        tf.take(table_with(old(table)@, cell).len() as int) == table_with(old(table)@, cell),
    ensures
        final(table)@ == table_with(old(table)@, cell),
        row_state(final(out)@, *final(open), final(acc)@, base, prefix.push(cell), tf),
{
    match cell {
        Cell::Blank => {
            push_blank(out, open, acc, Ghost(base), Ghost(prefix), Ghost(tf));
        },
        Cell::Glyph(ch, col) => {
            push_glyph(table, out, open, acc, ch, col, Ghost(base), Ghost(prefix), Ghost(tf));
        },
    }
}

fn push_blank(
    out: &mut String,
    open: &mut Option<usize>,
    acc: &mut String,
    Ghost(base): Ghost<Seq<char>>,
    Ghost(prefix): Ghost<Seq<Cell>>,
    Ghost(tf): Ghost<Seq<u32>>,
)
    requires
        row_state(old(out)@, *old(open), old(acc)@, base, prefix, tf),
    ensures
        row_state(final(out)@, *final(open), final(acc)@, base, prefix.push(Cell::Blank), tf),
{
    let ghost key = table_key(tf);
    proof {
        lemma_encode_push(prefix, Cell::Blank, key);
    }
    match *open {
        Some(k) => {
            push_span(out, k, acc);
        },
        None => {},
    }
    out.push(' ');
    *open = None;
    assert(out@ =~= base + encode_cells(prefix.push(Cell::Blank), key));
    assert(prefix.push(Cell::Blank).last() is Blank);
}

fn push_glyph(
    table: &mut ColorTable,
    out: &mut String,
    open: &mut Option<usize>,
    acc: &mut String,
    ch: char,
    col: u32,
    Ghost(base): Ghost<Seq<char>>,
    Ghost(prefix): Ghost<Seq<Cell>>,
    Ghost(tf): Ghost<Seq<u32>>,
)
    requires
        row_state(old(out)@, *old(open), old(acc)@, base, prefix, tf),
        tf.no_duplicates(),
        table_with(old(table)@, Cell::Glyph(ch, col)).len() <= tf.len(),
        tf.take(table_with(old(table)@, Cell::Glyph(ch, col)).len() as int) == table_with(old(table)@, Cell::Glyph(ch, col)),
    ensures
        final(table)@ == table_with(old(table)@, Cell::Glyph(ch, col)),
        row_state(final(out)@, *final(open), final(acc)@, base, prefix.push(Cell::Glyph(ch, col)), tf),
{
    let ghost key = table_key(tf);
    let ghost cell = Cell::Glyph(ch, col);
    proof {
        lemma_encode_push(prefix, cell, key);
    }
    let k = table.key_of(col);
    proof {
        let tc = table@;
        assert(tf.take(tc.len() as int)[k as int] == tf[k as int]);
        assert(tf[k as int] == col);
        lemma_color_index(tf, col, k as int);
        assert(prefix.push(cell).last() == cell);
    }
    let same = match *open {
        Some(k0) => k0 == k,
        None => false,
    };
    if same {
        let ghost acc0 = acc@;
        acc.push(ch);
        proof {
            assert(has_color(prefix.last(), col));
            let e = encode_cells(prefix, key);
            let o = out@;
            assert(o + span_markup(k as nat, acc0) == base + e);
            assert(encode_cells(prefix.push(cell), key) == e.drop_last() + seq![ch, '}']);
            assert((o + span_markup(k as nat, acc0)).drop_last() + seq![ch, '}'] =~= o + span_markup(k as nat, acc@));
            assert((base + e).drop_last() =~= base + e.drop_last());
            assert(o + span_markup(k as nat, acc@) =~= base + encode_cells(prefix.push(cell), key));
            assert(row_state(out@, *open, acc@, base, prefix.push(cell), tf));
        }
    } else {
        match *open {
            Some(k0) => {
                proof {
                    if has_color(prefix.last(), col) {
                        assert(tf[k0 as int] == col);
                    }
                }
                push_span(out, k0, acc);
            },
            None => {},
        }
        *acc = String::new();
        acc.push(ch);
        *open = Some(k);
        proof {
            assert(span_markup(k as nat, acc@) =~= span_markup(key(col), seq![ch]));
            assert(!(prefix.len() > 0 && has_color(prefix.last(), col)));
            assert(encode_cells(prefix.push(cell), key) == encode_cells(prefix, key) + span_markup(key(col), seq![ch]));
            assert(out@ + span_markup(k as nat, acc@) =~= base + encode_cells(prefix.push(cell), key));
            assert(row_state(out@, *open, acc@, base, prefix.push(cell), tf));
        }
    }
}

impl ColorTable {
    /// The markup of a frame: each row encoded (see [`encode_cells`]), rows separated by
    /// line breaks. Glyph colors new to the table are appended to it in the order met,
    /// and each span is keyed by its color's position in the table.
    #[verifier::rlimit(50)]
    pub fn encode_frame(&mut self, f: &RgbaFrame, glyph_idx: &Vec<usize>, glyphs: &Vec<char>, step: u8) -> (m: String)
        requires
            f.wf(),
            glyph_idx@.len() == f.width * f.height,
            glyphs@.len() > 0 || all_transparent(f.pixels@, f.width * f.height),
        ensures
            final(self)@ == table_after(old(self)@, frame_cells(*f, glyph_idx@, glyphs@, step)),
            m@ == grid_markup(
                frame_cells(*f, glyph_idx@, glyphs@, step),
                f.width as nat,
                f.height as nat,
                table_key(final(self)@),
            ),
    {
        proof {
            use_type_invariant(&*self);
        }
        let ghost t0 = self@;
        let ghost cells = frame_cells(*f, glyph_idx@, glyphs@, step);
        let ghost tf = table_after(t0, cells);
        let ghost key = table_key(tf);
        let w = f.width as usize;
        let h = f.height as usize;
        let n = f.pixels.len();
        assert(w * h * 4 == n) by (nonlinear_arith)
            requires n == f.width * f.height * 4, w == f.width, h == f.height;
        proof {
            assert(cells.take(cells.len() as int) =~= cells);
            lemma_table_after_grows(t0, cells, 0, cells.len() as int);
            assert(cells.take(0) =~= Seq::<Cell>::empty());
        }
        let mut out = String::new();
        let mut y: usize = 0;
        while y < h
            invariant
                w == f.width,
                h == f.height,
                w * h * 4 == n,
                n == f.pixels@.len(),
                f.wf(),
                glyph_idx@.len() == f.width * f.height,
                glyphs@.len() > 0 || all_transparent(f.pixels@, f.width * f.height),
                cells == frame_cells(*f, glyph_idx@, glyphs@, step),
                cells.len() == w * h,
                t0.no_duplicates(),
                tf == table_after(t0, cells),
                tf.no_duplicates(),
                key == table_key(tf),
                0 <= y <= h,
                self@ == table_after(t0, cells.take(y * w)),
                out@ == grid_markup(cells, w as nat, y as nat, key),
            decreases h - y,
        {
            let ghost row = row_of(cells, w as nat, y as int);
            assert(y * w + w <= w * h) by (nonlinear_arith)
                requires y < h;
            let ghost base = out@ + if y > 0 { seq!['\n'] } else { Seq::<char>::empty() };
            if y > 0 {
                out.push('\n');
            }
            assert(out@ == base);
            let mut open: Option<usize> = None;
            let mut acc = String::new();
            let mut x: usize = 0;
            assert(row.take(0) =~= Seq::<Cell>::empty());
            assert(encode_cells(Seq::<Cell>::empty(), key) =~= seq![]);
            while x < w
                invariant
                    w == f.width,
                    h == f.height,
                    w * h * 4 == n,
                    n == f.pixels@.len(),
                    f.wf(),
                    glyph_idx@.len() == f.width * f.height,
                    glyphs@.len() > 0 || all_transparent(f.pixels@, f.width * f.height),
                    cells == frame_cells(*f, glyph_idx@, glyphs@, step),
                    cells.len() == w * h,
                    t0.no_duplicates(),
                    tf == table_after(t0, cells),
                    tf.no_duplicates(),
                    key == table_key(tf),
                    y < h,
                    y * w + w <= w * h,
                    row == row_of(cells, w as nat, y as int),
                    0 <= x <= w,
                    self@ == table_after(t0, cells.take(y * w + x)),
                    row_state(out@, open, acc@, base, row.take(x as int), tf),
                decreases w - x,
            {
                let i = y * w + x;
                let cell = cell_at_exec(f, glyph_idx, glyphs, step, i);
                proof {
                    assert(row.take(x + 1) =~= row.take(x as int).push(cell));
                    assert(cells.take(i + 1) =~= cells.take(i as int).push(cell));
                    lemma_table_after_push(t0, cells.take(i as int), cell);
                    lemma_table_after_grows(t0, cells, i + 1, cells.len() as int);
                    assert(cells.take(cells.len() as int) =~= cells);
                    assert(table_with(self@, cell) == table_after(t0, cells.take(i + 1)));
                }
                push_cell(self, &mut out, &mut open, &mut acc, cell, Ghost(base), Ghost(row.take(x as int)), Ghost(tf));
                x += 1;
            }
            match open {
                Some(k) => {
                    push_span(&mut out, k, &acc);
                },
                None => {},
            }
            proof {
                assert(row.take(w as int) =~= row);
                assert((y + 1) * w == y * w + w) by (nonlinear_arith);
                if y == 0 {
                    assert(out@ =~= grid_markup(cells, w as nat, 1, key));
                } else {
                    assert(out@ =~= grid_markup(cells, w as nat, (y + 1) as nat, key));
                }
            }
            y += 1;
        }
        proof {
            assert(h * w == cells.len()) by (nonlinear_arith)
                requires cells.len() == w * h;
            assert(cells.take(h * w) =~= cells);
        }
        out
    }
}

// ---------------------------------------------------------------------------
// The palette of a conversion
// ---------------------------------------------------------------------------

/// `#rrggbb` of a packed color.
pub open spec fn color_hex(c: u32) -> Seq<char> {
    hex_color(unpack_rgb(c).0, unpack_rgb(c).1, unpack_rgb(c).2)
}

/// The palette of a table: the decimal position of each color maps to its `#rrggbb`.
pub open spec fn palette_of(t: Seq<u32>) -> Map<Seq<char>, Seq<char>>
    decreases t.len(),
{
    if t.len() == 0 {
        Map::empty()
    } else {
        palette_of(t.drop_last()).insert(dec((t.len() - 1) as nat), color_hex(t.last()))
    }
}

/// Different numbers have different decimal representations.
pub proof fn lemma_dec_injective(a: nat, b: nat)
    requires
        dec(a) == dec(b),
    ensures
        a == b,
    decreases a,
{
    lemma_dec_len(a);
    lemma_dec_len(b);
    if a < 10 && b < 10 {
        assert(dec(a) == seq![digit_char(a)]);
        assert(dec(b) == seq![digit_char(b)]);
        assert(dec(a)[0] == dec(b)[0]);
        assert(seq![digit_char(a)][0] == digit_char(a));
        assert(seq![digit_char(b)][0] == digit_char(b));
        assert(digit_char(a) == digit_char(b));
        lemma_digit_char(a);
        lemma_digit_char(b);
    } else if a >= 10 && b >= 10 {
        assert(dec(a).drop_last() =~= dec(a / 10));
        assert(dec(b).drop_last() =~= dec(b / 10));
        assert(dec(a).last() == dec(b).last());
        assert(dec(a).last() == digit_char(a % 10));
        assert(dec(b).last() == digit_char(b % 10));
        lemma_digit_char(a % 10);
        lemma_digit_char(b % 10);
        lemma_dec_injective(a / 10, b / 10);
        assert(a == (a / 10) * 10 + a % 10);
        assert(b == (b / 10) * 10 + b % 10);
    } else {
        assert(dec(a).len() != dec(b).len());
    }
}

/// The digit characters are the codes 48 to 57.
pub proof fn lemma_digit_char(d: nat)
    requires
        d < 10,
    ensures
        digit_char(d) as u32 == d + 48,
{
}

/// A decimal representation has one digit for numbers below 10 and more otherwise.
pub proof fn lemma_dec_len(n: nat)
    ensures
        (n < 10) == (dec(n).len() == 1),
        dec(n).len() >= 1,
    decreases n,
{
    if n >= 10 {
        lemma_dec_len(n / 10);
    }
}

/// In the palette of a table, the key of position `i` holds the color at `i`, and no other key exists.
pub proof fn lemma_palette_of(t: Seq<u32>)
    ensures
        forall|i: int| 0 <= i < t.len() ==> palette_of(t).contains_key(#[trigger] dec(i as nat))
            && palette_of(t)[dec(i as nat)] == color_hex(t[i]),
        forall|k: Seq<char>| #[trigger] palette_of(t).contains_key(k) ==> exists|i: int| 0 <= i < t.len() && k == #[trigger] dec(i as nat),
    decreases t.len(),
{
    if t.len() > 0 {
        let p = t.drop_last();
        lemma_palette_of(p);
        assert forall|i: int| 0 <= i < t.len() implies palette_of(t).contains_key(#[trigger] dec(i as nat))
            && palette_of(t)[dec(i as nat)] == color_hex(t[i]) by {
            if i < t.len() - 1 {
                if dec(i as nat) == dec((t.len() - 1) as nat) {
                    lemma_dec_injective(i as nat, (t.len() - 1) as nat);
                }
                assert(p[i] == t[i]);
                assert(palette_of(p).contains_key(dec(i as nat)));
            }
        }
        assert forall|k: Seq<char>| #[trigger] palette_of(t).contains_key(k) implies exists|i: int| 0 <= i < t.len() && k == #[trigger] dec(i as nat) by {
            if k != dec((t.len() - 1) as nat) {
                assert(palette_of(p).contains_key(k));
                let i = choose|i: int| 0 <= i < p.len() && k == #[trigger] dec(i as nat);
                assert(0 <= i < t.len() && k == dec(i as nat));
            }
        }
    }
}

impl ColorTable {
    /// The palette of the colors met: key `i` (in decimal) holds `#rrggbb` of color `i`.
    pub fn to_palette(&self) -> (p: Palette)
        ensures
            p.map() == palette_of(self@),
    {
        let mut p = Palette::new();
        let mut i: usize = 0;
        assert(palette_of(self@.take(0)) =~= Map::<Seq<char>, Seq<char>>::empty());
        while i < self.colors.len()
            invariant
                0 <= i <= self@.len(),
                p.map() == palette_of(self@.take(i as int)),
            decreases self@.len() - i,
        {
            let c = self.colors[i];
            let r = (c / 65536) as u8;
            let g = ((c / 256) % 256) as u8;
            let b = (c % 256) as u8;
            let hex = hex_color_string(r, g, b);
            let key = decimal(i as u64);
            p.insert(key, hex);
            proof {
                assert(self@.take(i + 1).drop_last() =~= self@.take(i as int));
            }
            i += 1;
        }
        assert(self@.take(self@.len() as int) =~= self@);
        p
    }
}

// ---------------------------------------------------------------------------
// Resizing
// ---------------------------------------------------------------------------

/// The pixels that `image::imageops::resize` computes with the triangle filter for a
/// `src_w` by `src_h` RGBA image scaled to `w` by `h`.
pub uninterp spec fn triangle_resize(src_w: u32, src_h: u32, src: Seq<u8>, w: u32, h: u32) -> Seq<u8>;

/// Whether resizing a `src_w` by `src_h` image to `w` by `h` stays within the memory a
/// vector can address: the result's bytes, and unless the image is empty or keeps its size,
/// the intermediate rows of four 32-bit floats per pixel that the filter computes.
pub open spec fn resize_in_range(src_w: u32, src_h: u32, w: u32, h: u32) -> bool {
    &&& w as int * h as int * 4 <= isize::MAX
    &&& (src_w == 0 || src_h == 0 || (w == src_w && h == src_h) || src_w as int * h as int * 16 <= isize::MAX)
}

/// Resizes an RGBA image with `image::imageops::resize` and `FilterType::Triangle`.
///
/// Trusted: the result is named by `triangle_resize`; it is a `w` by `h` RGBA buffer
/// (`ImageBuffer::new(w, h)` filled by the sampler, or a copy when the size is kept).
#[verifier::external_body]
fn resize_pixels(src: &RgbaFrame, w: u32, h: u32) -> (p: Vec<u8>)
    requires
        src.wf(),
        resize_in_range(src.width, src.height, w, h),
    ensures
        p@ == triangle_resize(src.width, src.height, src.pixels@, w, h),
        p@.len() == w * h * 4,
{
    match image::RgbaImage::from_raw(src.width, src.height, src.pixels.clone()) {
        Some(img) => image::imageops::resize(&img, w, h, image::imageops::FilterType::Triangle).into_raw(),
        None => Vec::new(),
    }
}

/// Whether an image can be resized to `w` by `h` (see [`resize_in_range`]).
pub fn resize_fits(src: &RgbaFrame, w: u32, h: u32) -> (r: bool)
    ensures
        r == resize_in_range(src.width, src.height, w, h),
{
    let a = w as u128;
    let b = h as u128;
    let c = src.width as u128;
    assert(a * b <= 0xffff_ffff * 0xffff_ffff) by (nonlinear_arith)
        requires a <= 0xffff_ffff, b <= 0xffff_ffff;
    assert(c * b <= 0xffff_ffff * 0xffff_ffff) by (nonlinear_arith)
        requires c <= 0xffff_ffff, b <= 0xffff_ffff;
    let out = a * b * 4;
    let mid = c * b * 16;
    let limit = isize::MAX as u128;
    out <= limit && (src.width == 0 || src.height == 0 || (w == src.width && h == src.height) || mid <= limit)
}

/// The image scaled to `w` by `h` with a triangle filter.
pub fn resize_frame(src: &RgbaFrame, w: u32, h: u32) -> (r: RgbaFrame)
    requires
        src.wf(),
        resize_in_range(src.width, src.height, w, h),
    ensures
        r.wf(),
        r.width == w,
        r.height == h,
        r.pixels@ == triangle_resize(src.width, src.height, src.pixels@, w, h),
{
    let pixels = resize_pixels(src, w, h);
    RgbaFrame { width: w, height: h, pixels }
}

/// Whether a frame can be drawn with the glyphs: there is a glyph, or no pixel needs one.
pub fn glyphs_usable(f: &RgbaFrame, glyphs: &Vec<char>) -> (r: bool)
    requires
        f.wf(),
    ensures
        r == (glyphs@.len() > 0 || all_transparent(f.pixels@, f.width * f.height)),
{
    if glyphs.len() > 0 {
        return true;
    }
    let n = f.pixels.len();
    let count = n / 4;
    assert(count == f.width * f.height);
    let mut i: usize = 0;
    while i < count
        invariant
            n == f.pixels@.len(),
            count == f.width * f.height,
            count * 4 == n,
            glyphs@.len() == 0,
            0 <= i <= count,
            forall|j: int| 0 <= j < i ==> #[trigger] f.pixels@[4 * j + 3] < 64,
        decreases count - i,
    {
        if f.pixels[4 * i + 3] >= 64 {
            assert(f.pixels@[4 * (i as int) + 3] >= 64);
            assert(!all_transparent(f.pixels@, f.width * f.height));
            return false;
        }
        i += 1;
    }
    true
}

/// The delay of a GIF frame in milliseconds: its numerator over its denominator,
/// or the fallback when the denominator is 0.
pub fn delay_ms(numer: u32, denom: u32, fallback: u64) -> (d: u64)
    ensures
        d == if denom > 0 { (numer / denom) as u64 } else { fallback },
        denom > 0 ==> d * denom <= numer < (d + 1) * denom,
        denom == 0 ==> d == fallback,
{
    proof {
        if denom > 0 {
            let n = numer as int;
            let m = denom as int;
            assert((n / m) * m <= n < (n / m + 1) * m) by (nonlinear_arith)
                requires m > 0, n >= 0;
        }
    }
    if denom > 0 {
        (numer / denom) as u64
    } else {
        fallback
    }
}

// ---------------------------------------------------------------------------
// Documents made by a conversion
// ---------------------------------------------------------------------------

/// A document holding one still frame: format 2.1.0, 100 ms delay, the table's palette.
pub fn static_askey(name: String, markup: String, table: &ColorTable) -> (a: AskeyFile)
    ensures
        a.v@ == "2.1.0"@,
        a.n matches Some(n) && n@ == name@,
        a.m.f == 1,
        a.m.d == 100,
        a.m.t@ == "simple"@,
        a.p.map() == palette_of(table@),
        a.d == Some(100u64),
        a.fr is Simple,
        frame_texts(a.fr) == seq![markup@],
{
    proof {
        broadcast use vstd::string::group_string_axioms;
    }
    let mut list: Vec<String> = Vec::new();
    list.push(markup);
    let a = AskeyFile {
        v: "2.1.0".to_string(),
        n: Some(name),
        m: Metadata { f: 1, d: 100, t: "simple".to_string() },
        p: table.to_palette(),
        d: Some(100),
        fr: Frames::Simple(list),
    };
    assert(frame_texts(a.fr) =~= seq![markup@]);
    a
}

/// A document holding animated frames: format 2.1.0, the given default delay,
/// the table's palette, and the frame count in its metadata.
pub fn animated_askey(name: String, frames: Vec<FrameObj>, default_delay: u64, table: &ColorTable) -> (a: AskeyFile)
    ensures
        a.v@ == "2.1.0"@,
        a.n matches Some(n) && n@ == name@,
        a.m.f == frames@.len(),
        a.m.d == default_delay,
        a.m.t@ == "detailed"@,
        a.p.map() == palette_of(table@),
        a.d == Some(default_delay),
        a.fr == Frames::Detailed(frames),
{
    proof {
        broadcast use vstd::string::group_string_axioms;
    }
    let f = frames.len();
    AskeyFile {
        v: "2.1.0".to_string(),
        n: Some(name),
        m: Metadata { f, d: default_delay, t: "detailed".to_string() },
        p: table.to_palette(),
        d: Some(default_delay),
        fr: Frames::Detailed(frames),
    }
}

/// The ANSI text of one frame of braces markup colored with the table's palette,
/// as the player shows it.
pub fn preview_ansi(markup: String, table: &ColorTable) -> (s: String)
    ensures
        s@ == frame_ansi(markup@, MarkupStyle::Braces, palette_of(table@), 0),
{
    proof {
        broadcast use vstd::string::group_string_axioms;
    }
    let mut list: Vec<String> = Vec::new();
    list.push(markup);
    let a = AskeyFile {
        v: "2.1.0".to_string(),
        n: None,
        m: Metadata { f: 1, d: 100, t: "simple".to_string() },
        p: table.to_palette(),
        d: Some(100),
        fr: Frames::Simple(list),
    };
    assert(frame_texts(a.fr) =~= seq![markup@]);
    let parsed = parse_frames(&a);
    if parsed.len() > 0 {
        assert(parsed@[0]@ == rendered_frames(a)[0]);
        parsed[0].ansi_content.clone()
    } else {
        String::new()
    }
}

// ---------------------------------------------------------------------------
// Whole conversions
// ---------------------------------------------------------------------------

/// The width of a conversion: the requested width, at least 8 columns.
pub fn target_width(width: u32) -> (w: u32)
    ensures
        w == (if width > 8 { width } else { 8 }),
        w >= 8,
        w >= width,
        width >= 8 ==> w == width,
{
    if width > 8 { width } else { 8 }
}

/// Whether every frame matches its size, has a glyph index per pixel, and can be drawn with
/// the glyphs.
pub open spec fn frames_ready(frames: Seq<RgbaFrame>, idx: Seq<Vec<usize>>, glyphs: Seq<char>) -> bool {
    &&& idx.len() == frames.len()
    &&& forall|i: int| 0 <= i < frames.len() ==> (#[trigger] frames[i]).wf()
        && idx[i]@.len() == frames[i].width * frames[i].height
        && (glyphs.len() > 0 || all_transparent(frames[i].pixels@, frames[i].width * frames[i].height))
}

/// The cells of each frame.
pub open spec fn frames_cells(frames: Seq<RgbaFrame>, idx: Seq<Vec<usize>>, glyphs: Seq<char>, step: u8) -> Seq<Seq<Cell>> {
    Seq::new(frames.len(), |i: int| frame_cells(frames[i], idx[i]@, glyphs, step))
}

/// The color table after the first `n` frames, starting from an empty one.
pub open spec fn table_through(cs: Seq<Seq<Cell>>, n: nat) -> Seq<u32>
    decreases n,
{
    if n == 0 { seq![] } else { table_after(table_through(cs, (n - 1) as nat), cs[n - 1]) }
}

/// The markup of each frame of an animation, each keyed by the table as it stood once that
/// frame was converted.
pub open spec fn animation_markups(frames: Seq<RgbaFrame>, cs: Seq<Seq<Cell>>) -> Seq<Seq<char>> {
    Seq::new(frames.len(), |i: int| grid_markup(cs[i], frames[i].width as nat, frames[i].height as nat, table_key(table_through(cs, (i + 1) as nat))))
}

/// An animation converted from resized frames, their glyph indices and their delays: each
/// frame encoded in turn with one color table, in a document of format 2.1.0 whose default
/// delay is the first frame's and whose palette is the table's at the end.
pub fn convert_animation(
    name: String,
    frames: &Vec<RgbaFrame>,
    idx: &Vec<Vec<usize>>,
    delays: &Vec<u64>,
    glyphs: &Vec<char>,
    step: u8,
) -> (a: AskeyFile)
    requires
        frames@.len() > 0,
        delays@.len() == frames@.len(),
        frames_ready(frames@, idx@, glyphs@),
    ensures
        ({
            let cs = frames_cells(frames@, idx@, glyphs@, step);
            &&& a.v@ == "2.1.0"@
            &&& a.n matches Some(n) && n@ == name@
            &&& a.m.f == frames@.len()
            &&& a.m.d == delays@[0]
            &&& a.m.t@ == "detailed"@
            &&& a.p.map() == palette_of(table_through(cs, frames@.len() as nat))
            &&& a.d == Some(delays@[0])
            &&& a.fr is Detailed
            &&& frame_texts(a.fr) == animation_markups(frames@, cs)
            &&& frame_delays(a) == delays@
        }),
{
    let ghost cs = frames_cells(frames@, idx@, glyphs@, step);
    let mut table = ColorTable::new();
    let mut objs: Vec<FrameObj> = Vec::new();
    let mut i: usize = 0;
    while i < frames.len()
        invariant
            0 <= i <= frames@.len(),
            delays@.len() == frames@.len(),
            frames_ready(frames@, idx@, glyphs@),
            cs == frames_cells(frames@, idx@, glyphs@, step),
            table@ == table_through(cs, i as nat),
            objs@.len() == i,
            forall|j: int| 0 <= j < i ==> (#[trigger] objs@[j]).c@ == animation_markups(frames@, cs)[j] && objs@[j].d == delays@[j],
        decreases frames@.len() - i,
    {
        assert(frames@[i as int].wf());
        let c = table.encode_frame(&frames[i], &idx[i], glyphs, step);
        proof {
            assert(cs[i as int] == frame_cells(frames@[i as int], idx@[i as int]@, glyphs@, step));
            assert(table_through(cs, (i + 1) as nat) == table_after(table_through(cs, i as nat), cs[i as int]));
        }
        objs.push(FrameObj { c, d: delays[i] });
        i += 1;
    }
    let d0 = delays[0];
    let a = animated_askey(name, objs, d0, &table);
    proof {
        assert(frame_texts(a.fr) =~= animation_markups(frames@, cs));
        assert(frame_delays(a) =~= delays@);
    }
    a
}

/// A still image converted from its resized frame and glyph indices, with a new color table.
pub fn convert_still(name: String, frame: &RgbaFrame, idx: &Vec<usize>, glyphs: &Vec<char>, step: u8) -> (a: AskeyFile)
    requires
        frame.wf(),
        idx@.len() == frame.width * frame.height,
        glyphs@.len() > 0 || all_transparent(frame.pixels@, frame.width * frame.height),
    ensures
        ({
            let cells = frame_cells(*frame, idx@, glyphs@, step);
            let t = table_after(seq![], cells);
            &&& a.v@ == "2.1.0"@
            &&& a.n matches Some(n) && n@ == name@
            &&& a.m.f == 1
            &&& a.m.d == 100
            &&& a.m.t@ == "simple"@
            &&& a.p.map() == palette_of(t)
            &&& a.d == Some(100u64)
            &&& a.fr is Simple
            &&& frame_texts(a.fr) == seq![grid_markup(cells, frame.width as nat, frame.height as nat, table_key(t))]
        }),
{
    let mut table = ColorTable::new();
    let markup = table.encode_frame(frame, idx, glyphs, step);
    static_askey(name, markup, &table)
}

/// The live preview of a frame: converted with a new color table and shown as the player
/// shows it.
pub fn preview_of(frame: &RgbaFrame, idx: &Vec<usize>, glyphs: &Vec<char>, step: u8) -> (s: String)
    requires
        frame.wf(),
        idx@.len() == frame.width * frame.height,
        glyphs@.len() > 0 || all_transparent(frame.pixels@, frame.width * frame.height),
    ensures
        ({
            let cells = frame_cells(*frame, idx@, glyphs@, step);
            let t = table_after(seq![], cells);
            s@ == frame_ansi(grid_markup(cells, frame.width as nat, frame.height as nat, table_key(t)), MarkupStyle::Braces, palette_of(t), 0)
        }),
{
    let mut table = ColorTable::new();
    let markup = table.encode_frame(frame, idx, glyphs, step);
    preview_ansi(markup, &table)
}

} // verus!
