//! Where frames and messages go inside a screen area: padding, centering, the
//! no-clip offsets, and the small texts the dashboards show.

use vstd::prelude::*;
use crate::text::{chars_of, push_str, dec, decimal, string_of_range};
use crate::parser::newline_count;

verus! {

/// `n` copies of `c`.
pub open spec fn repeat(c: char, n: nat) -> Seq<char> {
    Seq::new(n, |_i: int| c)
}

/// What one character of a frame becomes once its lines are indented by `pad`.
pub open spec fn indented_char(c: char, pad: Seq<char>) -> Seq<char> {
    if c == '\n' {
        seq![c] + pad
    } else {
        seq![c]
    }
}

/// `s` with `pad` put after each of its line breaks.
pub open spec fn indent_after_breaks(s: Seq<char>, pad: Seq<char>) -> Seq<char>
    decreases s.len(),
{
    if s.len() == 0 {
        Seq::empty()
    } else {
        indent_after_breaks(s.drop_last(), pad) + indented_char(s.last(), pad)
    }
}

/// `s` moved down by `pad_y` blank lines and right by `pad_x` spaces on every line.
pub open spec fn positioned(s: Seq<char>, pad_x: nat, pad_y: nat) -> Seq<char> {
    repeat('\n', pad_y) + repeat(' ', pad_x) + indent_after_breaks(s, repeat(' ', pad_x))
}

/// Appends `n` copies of `c`.
fn push_repeat(out: &mut String, c: char, n: u16)
    ensures
        final(out)@ == old(out)@ + repeat(c, n as nat),
{
    let mut i: u16 = 0;
    while i < n
        invariant
            i <= n,
            out@ == old(out)@ + repeat(c, i as nat),
        decreases n - i,
    {
        out.push(c);
        i += 1;
        assert(repeat(c, i as nat) =~= repeat(c, (i - 1) as nat).push(c));
    }
}

/// The text `content` placed `pad_y` lines down and `pad_x` columns right: every one of its
/// lines starts with `pad_x` spaces, and `pad_y` line breaks come first.
pub fn place_text(content: &str, pad_x: u16, pad_y: u16) -> (r: String)
    ensures
        r@ == positioned(content@, pad_x as nat, pad_y as nat),
{
    let mut out = String::new();
    push_repeat(&mut out, '\n', pad_y);
    let mut pad = String::new();
    push_repeat(&mut pad, ' ', pad_x);
    assert(pad@ =~= repeat(' ', pad_x as nat));
    push_str(&mut out, pad.as_str());
    let v = chars_of(content);
    let ghost head = out@;
    let mut i: usize = 0;
    while i < v.len()
        invariant
            0 <= i <= v@.len(),
            v@ == content@,
            pad@ == repeat(' ', pad_x as nat),
            out@ == head + indent_after_breaks(v@.take(i as int), pad@),
        decreases v@.len() - i,
    {
        let c = v[i];
        out.push(c);
        if c == '\n' {
            push_str(&mut out, pad.as_str());
        }
        assert(v@.take(i + 1).drop_last() =~= v@.take(i as int));
        i += 1;
    }
    assert(v@.take(v@.len() as int) =~= v@);
    assert(head =~= repeat('\n', pad_y as nat) + repeat(' ', pad_x as nat));
    out
}

/// The margin that centers something `inner` cells long in `outer` cells; none when it does not fit.
pub open spec fn spec_center_pad(outer: u16, inner: u16) -> u16 {
    if outer > inner { ((outer - inner) / 2) as u16 } else { 0 }
}

/// The margin that centers something `inner` cells long in `outer` cells; 0 when it does not fit.
pub fn center_pad(outer: u16, inner: u16) -> (r: u16)
    ensures
        r == spec_center_pad(outer, inner),
{
    if outer > inner { (outer - inner) / 2 } else { 0 }
}

/// A one-line message centered in an area `width` by `height`: above it, half of the
/// lines but one; before it, half of the columns it leaves free.
pub open spec fn centered_message(text: Seq<char>, width: u16, height: u16) -> Seq<char> {
    let pad_y: nat = if height > 1 { ((height - 1) / 2) as nat } else { 0 };
    let pad_x: nat = spec_center_pad(width, text.len() as u16) as nat;
    repeat('\n', pad_y) + repeat(' ', pad_x) + text
}

/// The warning shown instead of a frame that does not fit, centered in its area.
pub fn centered_warning(text: &str, width: u16, height: u16) -> (r: String)
    ensures
        r@ == centered_message(text@, width, height),
{
    let mut out = String::new();
    let pad_y: u16 = if height > 1 { (height - 1) / 2 } else { 0 };
    push_repeat(&mut out, '\n', pad_y);
    let v = chars_of(text);
    let len: u16 = v.len() as u16;
    push_repeat(&mut out, ' ', center_pad(width, len));
    push_str(&mut out, text);
    out
}

/// `d / 2` rounded toward zero, as integer division does.
pub open spec fn half_toward_zero(d: int) -> int {
    if d >= 0 { d / 2 } else { -((-d) / 2) }
}

/// The shift of a frame `size` cells long centered in `canvas` cells and moved by `shift`,
/// computed the way 16-bit signed arithmetic does: both lengths taken as 16-bit signed
/// values.
pub open spec fn axis_offset(canvas: u16, size: u16, shift: i16) -> int {
    half_toward_zero((canvas as i16) - (size as i16)) + shift
}

/// Whether that 16-bit arithmetic stays in range: the difference of the lengths and the
/// shifted offset are both 16-bit signed values.
pub open spec fn axis_fits(canvas: u16, size: u16, shift: i16) -> bool {
    &&& i16::MIN <= (canvas as i16) - (size as i16) <= i16::MAX
    &&& i16::MIN <= axis_offset(canvas, size, shift) <= i16::MAX
}

/// How a frame sits in a canvas along both axes: blank cells before it (`pad_*`), or
/// cells of it scrolled out of view (`scroll_*`); at most one of each pair is non-zero.
#[derive(Debug, Clone, Copy, PartialEq, Eq, Structural)]
pub struct Placement {
    pub pad_x: u16,
    pub scroll_x: u16,
    pub pad_y: u16,
    pub scroll_y: u16,
}

/// The padding and scrolling along one axis for an offset: a non-negative offset pads,
/// a negative one scrolls by its magnitude.
pub open spec fn pad_and_scroll(offset: int) -> (u16, u16) {
    if offset >= 0 { (offset as u16, 0u16) } else { (0u16, (-offset) as u16) }
}

fn axis_placement(canvas: u16, size: u16, shift: i16) -> (r: Option<(u16, u16)>)
    ensures
        r.is_some() == axis_fits(canvas, size, shift),
        r.is_some() ==> r.unwrap() == pad_and_scroll(axis_offset(canvas, size, shift)),
{
    let c: i32 = (canvas as i16) as i32;
    let s: i32 = (size as i16) as i32;
    let d: i32 = c - s;
    if d < -32768 || d > 32767 {
        return None;
    }
    let base: i32 = if d >= 0 { d / 2 } else { -((-d) / 2) };
    let off: i32 = base + shift as i32;
    if off < -32768 || off > 32767 {
        return None;
    }
    if off >= 0 {
        Some((off as u16, 0))
    } else {
        Some((0, (-off) as u16))
    }
}

/// Where a frame `frame_w` by `frame_h` goes in a canvas `canvas_w` by `canvas_h`: centered,
/// then moved by the no-clip offsets. `None` where the 16-bit signed arithmetic of the
/// computation overflows.
pub fn frame_placement(
    canvas_w: u16,
    canvas_h: u16,
    frame_w: u16,
    frame_h: u16,
    off_x: i16,
    off_y: i16,
) -> (r: Option<Placement>)
    ensures
        r.is_some() == (axis_fits(canvas_w, frame_w, off_x) && axis_fits(canvas_h, frame_h, off_y)),
        r.is_some() ==> {
            let p = r.unwrap();
            &&& (p.pad_x, p.scroll_x) == pad_and_scroll(axis_offset(canvas_w, frame_w, off_x))
            &&& (p.pad_y, p.scroll_y) == pad_and_scroll(axis_offset(canvas_h, frame_h, off_y))
        },
{
    match (axis_placement(canvas_w, frame_w, off_x), axis_placement(canvas_h, frame_h, off_y)) {
        (Some((pad_x, scroll_x)), Some((pad_y, scroll_y))) => Some(Placement { pad_x, scroll_x, pad_y, scroll_y }),
        _ => None,
    }
}

/// A frame no larger than its canvas (sizes below 2^15), not moved, is centered without
/// scrolling: the padding before it is half the room left, and it ends inside the canvas.
pub proof fn lemma_fitting_frame_is_inside(canvas: u16, size: u16)
    requires
        size <= canvas <= i16::MAX,
    ensures
        axis_fits(canvas, size, 0),
        pad_and_scroll(axis_offset(canvas, size, 0)) == (((canvas - size) / 2) as u16, 0u16),
        ((canvas - size) / 2) + size <= canvas,
{
    assert((canvas as i16) as int == canvas as int) by (bit_vector)
        requires canvas <= 0x7fff;
    assert((size as i16) as int == size as int) by (bit_vector)
        requires size <= 0x7fff;
}

/// The no-clip offset moves a frame by exactly its amount.
pub proof fn lemma_offset_moves_frame(canvas: u16, size: u16, shift: i16)
    ensures
        axis_offset(canvas, size, shift) == axis_offset(canvas, size, 0) + shift,
{
}

/// The length in characters of the longest of `names`; 0 for none.
pub open spec fn longest_name(names: Seq<String>) -> nat
    decreases names.len(),
{
    if names.len() == 0 {
        0
    } else {
        let m = longest_name(names.drop_last());
        let l = names.last()@.len();
        if l > m { l } else { m }
    }
}

/// The width of the animation list: its longest name plus 8, at least 20, and at most
/// a share of the screen width (30% on a small screen, under 100 by 24, else 50%),
/// that share being at least 20 columns but never more than the screen.
pub open spec fn spec_list_width(longest: nat, screen_w: u16, screen_h: u16) -> int {
    let pct: int = if screen_w < 100 || screen_h < 24 { 30 } else { 50 };
    let share: int = (screen_w * pct) / 100;
    let share_min: int = if share < 20 { 20 } else { share };
    let allowed: int = if share_min > screen_w { screen_w as int } else { share_min };
    let wanted: int = if longest + 8 < 20 { 20 } else { longest + 8int };
    if wanted > allowed { allowed } else { wanted }
}

/// The width of the animation list for these names on a screen `screen_w` by `screen_h`.
pub fn list_width(names: &Vec<String>, screen_w: u16, screen_h: u16) -> (r: u16)
    ensures
        r == spec_list_width(longest_name(names@), screen_w, screen_h),
{
    let mut longest: usize = 0;
    let mut i: usize = 0;
    while i < names.len()
        invariant
            0 <= i <= names@.len(),
            longest == longest_name(names@.take(i as int)),
        decreases names@.len() - i,
    {
        let l = chars_of(names[i].as_str()).len();
        if l > longest {
            longest = l;
        }
        assert(names@.take(i + 1).drop_last() =~= names@.take(i as int));
        i += 1;
    }
    assert(names@.take(names@.len() as int) =~= names@);
    let pct: usize = if screen_w < 100 || screen_h < 24 { 30 } else { 50 };
    let share: usize = (screen_w as usize * pct) / 100;
    let share_min: usize = if share < 20 { 20 } else { share };
    let allowed: usize = if share_min > screen_w as usize { screen_w as usize } else { share_min };
    if longest >= allowed {
        return allowed as u16;
    }
    let wanted: usize = if longest + 8 < 20 { 20 } else { longest + 8 };
    if wanted > allowed { allowed as u16 } else { wanted as u16 }
}

/// The list never takes more than the screen's width, nor more than a 30% share of it
/// (or 20 columns, if more) on a screen under 100 columns wide or 24 rows high, nor more
/// than half of it (or 20 columns) otherwise. It takes at least 20 columns when the screen
/// has them, and it is the longest name plus 8 (at least 20) whenever that fits in the
/// share. A longer name never gives a narrower list.
pub proof fn lemma_list_width_bounds(longest: nat, longer: nat, screen_w: u16, screen_h: u16)
    requires
        longest <= longer,
    ensures
        ({
            let r = spec_list_width(longest, screen_w, screen_h);
            let small: int = if screen_w * 30 / 100 < 20 { 20 } else { screen_w * 30 / 100 };
            let half: int = if screen_w * 50 / 100 < 20 { 20 } else { screen_w * 50 / 100 };
            let wanted: int = if longest + 8 < 20 { 20 } else { longest + 8int };
            &&& r <= screen_w
            &&& (screen_w < 100 || screen_h < 24 ==> r <= small)
            &&& r <= half
            &&& r >= (if screen_w < 20 { screen_w as int } else { 20 })
            &&& (wanted <= screen_w && wanted <= small ==> r == wanted)
            &&& (screen_w >= 100 && screen_h >= 24 && wanted <= screen_w && wanted <= half ==> r == wanted)
            &&& r <= spec_list_width(longer, screen_w, screen_h)
        }),
{
    assert(screen_w * 30 / 100 <= screen_w * 50 / 100) by (nonlinear_arith)
        requires screen_w >= 0;
}

/// `n` in decimal, with a leading zero below 10.
pub open spec fn two_digits(n: nat) -> Seq<char> {
    if n < 10 { seq!['0'] + dec(n) } else { dec(n) }
}

/// A playback time of `secs` seconds as minutes and seconds, each at least two digits.
pub open spec fn spec_elapsed_text(secs: nat) -> Seq<char> {
    two_digits(secs / 60) + seq![':'] + two_digits(secs % 60)
}

fn push_two_digits(out: &mut String, n: u64)
    ensures
        final(out)@ == old(out)@ + two_digits(n as nat),
{
    if n < 10 {
        out.push('0');
    }
    let d = decimal(n);
    push_str(out, d.as_str());
}

/// The playback time shown on the dashboard, minutes and seconds.
pub fn elapsed_text(secs: u64) -> (r: String)
    ensures
        r@ == spec_elapsed_text(secs as nat),
{
    let mut out = String::new();
    push_two_digits(&mut out, secs / 60);
    out.push(':');
    push_two_digits(&mut out, secs % 60);
    out
}

/// The dots after "Loading": one, two, three, then none, changing every 100 ms.
pub open spec fn spec_loading_dots(elapsed_ms: nat) -> Seq<char> {
    let tick = (elapsed_ms / 100) % 4;
    if tick == 0 {
        seq!['.', ' ', ' ']
    } else if tick == 1 {
        seq!['.', '.', ' ']
    } else if tick == 2 {
        seq!['.', '.', '.']
    } else {
        seq![' ', ' ', ' ']
    }
}

/// The dots after "Loading" `elapsed_ms` milliseconds after loading began.
pub fn loading_dots(elapsed_ms: u128) -> (r: String)
    ensures
        r@ == spec_loading_dots(elapsed_ms as nat),
{
    let tick = (elapsed_ms / 100) % 4;
    let mut out = String::new();
    if tick == 0 {
        out.push('.');
        out.push(' ');
        out.push(' ');
    } else if tick == 1 {
        out.push('.');
        out.push('.');
        out.push(' ');
    } else if tick == 2 {
        out.push('.');
        out.push('.');
        out.push('.');
    } else {
        out.push(' ');
        out.push(' ');
        out.push(' ');
    }
    out
}

/// A parameter character of an escape sequence: a digit or `;`.
pub open spec fn is_param_char(c: char) -> bool {
    ('0' <= c && c <= '9') || c == ';'
}

/// A final character of an escape sequence: an ASCII letter.
pub open spec fn is_final_char(c: char) -> bool {
    ('a' <= c && c <= 'z') || ('A' <= c && c <= 'Z')
}

/// The end of the run of parameter characters that starts at `i`.
pub open spec fn param_run_end(s: Seq<char>, i: int) -> int
    decreases s.len() - i,
{
    if 0 <= i < s.len() && is_param_char(s[i]) {
        param_run_end(s, i + 1)
    } else {
        i
    }
}

/// Where the escape sequence starting at `i` ends: ESC, `[`, parameter characters, then
/// one letter. `None` where none starts there.
pub open spec fn escape_end(s: Seq<char>, i: int) -> Option<int> {
    if 0 <= i && i + 1 < s.len() && s[i] == '\u{1b}' && s[i + 1] == '[' {
        let j = param_run_end(s, i + 2);
        if j < s.len() && is_final_char(s[j]) {
            Some(j + 1)
        } else {
            None
        }
    } else {
        None
    }
}

/// The characters of `s` from `i` on, without its escape sequences.
pub open spec fn stripped_from(s: Seq<char>, i: int) -> Seq<char>
    decreases s.len() - i, 1int,
{
    if i < 0 || i >= s.len() {
        Seq::empty()
    } else {
        match escape_end(s, i) {
            Some(e) => if i < e <= s.len() { stripped_from(s, e) } else { Seq::empty() },
            None => seq![s[i]] + stripped_from(s, i + 1),
        }
    }
}

/// `s` without its color escape sequences.
pub open spec fn spec_strip_ansi(s: Seq<char>) -> Seq<char> {
    stripped_from(s, 0)
}

proof fn lemma_param_run_end(s: Seq<char>, i: int)
    requires
        0 <= i <= s.len(),
    ensures
        i <= param_run_end(s, i) <= s.len(),
        forall|k: int| i <= k < param_run_end(s, i) ==> is_param_char(#[trigger] s[k]),
        param_run_end(s, i) < s.len() ==> !is_param_char(s[param_run_end(s, i)]),
    decreases s.len() - i,
{
    if i < s.len() && is_param_char(s[i]) {
        lemma_param_run_end(s, i + 1);
    }
}

/// The end of the escape sequence starting at `i` of `v`, if one does.
fn escape_end_exec(v: &Vec<char>, i: usize) -> (r: Option<usize>)
    requires
        i < v@.len(),
    ensures
        match escape_end(v@, i as int) {
            Some(e) => r == Some(e as usize) && i < e <= v@.len(),
            None => r.is_none(),
        },
{
    if i < v.len() - 1 && v[i] == '\u{1b}' && v[i + 1] == '[' {
        proof { lemma_param_run_end(v@, i + 2); }
        let mut j: usize = i + 2;
        while j < v.len() && (('0' <= v[j] && v[j] <= '9') || v[j] == ';')
            invariant
                i + 2 <= j <= v@.len(),
                param_run_end(v@, j as int) == param_run_end(v@, i + 2),
            decreases v@.len() - j,
        {
            j += 1;
        }
        if j < v.len() && (('a' <= v[j] && v[j] <= 'z') || ('A' <= v[j] && v[j] <= 'Z')) {
            Some(j + 1)
        } else {
            None
        }
    } else {
        None
    }
}

/// `s` without its color escape sequences (ESC, `[`, digits and `;`, one letter), as a
/// search-and-remove of them from left to right leaves it.
pub fn strip_ansi(s: &str) -> (r: String)
    ensures
        r@ == spec_strip_ansi(s@),
{
    let v = chars_of(s);
    let mut out = String::new();
    let mut i: usize = 0;
    while i < v.len()
        invariant
            0 <= i <= v@.len(),
            v@ == s@,
            out@ + stripped_from(v@, i as int) == stripped_from(v@, 0),
        decreases v@.len() - i,
    {
        match escape_end_exec(&v, i) {
            Some(e) => {
                i = e;
            },
            None => {
                let ghost before = out@;
                out.push(v[i]);
                assert(out@ + stripped_from(v@, i + 1) =~= before + (seq![v@[i as int]] + stripped_from(v@, i + 1)));
                i += 1;
            },
        }
    }
    assert(stripped_from(v@, i as int) =~= Seq::<char>::empty());
    assert(out@ + Seq::<char>::empty() =~= out@);
    out
}

/// The index of the first line break at or after `i`, or the length of `s` if none.
pub open spec fn line_end(s: Seq<char>, i: int) -> int
    decreases s.len() - i,
{
    if 0 <= i < s.len() && s[i] != '\n' {
        line_end(s, i + 1)
    } else {
        i
    }
}

/// The first line of `s`, without its line break.
pub open spec fn first_line(s: Seq<char>) -> Seq<char> {
    s.take(line_end(s, 0))
}

proof fn lemma_line_end(s: Seq<char>, i: int)
    requires
        0 <= i <= s.len(),
    ensures
        i <= line_end(s, i) <= s.len(),
    decreases s.len() - i,
{
    if i < s.len() && s[i] != '\n' {
        lemma_line_end(s, i + 1);
    }
}

/// The size of a converted preview as the conversion screen measures it: the width is the
/// number of characters of its first line without escape sequences, the height one more
/// than its line breaks; both cut to 16 bits.
pub fn preview_dimensions(ansi: &str) -> (r: (u16, u16))
    ensures
        r.0 == spec_strip_ansi(first_line(ansi@)).len() as u16,
        r.1 == (newline_count(ansi@) + 1) as u16,
{
    let v = chars_of(ansi);
    proof { lemma_line_end(v@, 0); }
    let mut j: usize = 0;
    while j < v.len() && v[j] != '\n'
        invariant
            0 <= j <= v@.len(),
            line_end(v@, j as int) == line_end(v@, 0),
        decreases v@.len() - j,
    {
        j += 1;
    }
    let line = string_of_range(&v, 0, j);
    assert(line@ =~= first_line(ansi@));
    let plain = chars_of(strip_ansi(line.as_str()).as_str());
    let mut breaks: usize = 0;
    let mut k: usize = 0;
    while k < v.len()
        invariant
            0 <= k <= v@.len(),
            breaks == newline_count(v@.take(k as int)),
            breaks <= k,
        decreases v@.len() - k,
    {
        if v[k] == '\n' {
            breaks += 1;
        }
        assert(v@.take(k + 1).drop_last() =~= v@.take(k as int));
        k += 1;
    }
    assert(v@.take(v@.len() as int) =~= v@);
    (#[verifier::truncate] (plain.len() as u16), #[verifier::truncate] (((breaks as u128) + 1) as u16))
}

// ---------------------------------------------------------------------------
// Laws of the small texts and margins
// ---------------------------------------------------------------------------

/// The margin centers: what it leaves on the far side is the same or one more; nothing is
/// left before something that does not fit.
pub proof fn lemma_center_pad_centers(outer: u16, inner: u16)
    ensures
        outer > inner ==> 2 * spec_center_pad(outer, inner) + inner <= outer <= 2 * spec_center_pad(outer, inner) + inner + 1,
        outer <= inner ==> spec_center_pad(outer, inner) == 0,
{
}

/// The loading dots come back every 400 ms; at any time they are three characters, some
/// dots then spaces, one more dot every 100 ms after the first three, then none.
pub proof fn lemma_loading_dots_cycle(ms: nat)
    ensures
        spec_loading_dots(ms + 400) == spec_loading_dots(ms),
        spec_loading_dots(ms) == repeat('.', ((ms / 100 + 1) % 4) as nat) + repeat(' ', (3 - (ms / 100 + 1) % 4) as nat),
{
    assert((ms + 400) / 100 == ms / 100 + 4) by (nonlinear_arith);
    assert((ms / 100 + 4) % 4 == (ms / 100) % 4) by (nonlinear_arith);
    assert((ms / 100 + 1) % 4 == ((ms / 100) % 4 + 1) % 4) by (nonlinear_arith);
    let k = (ms / 100) % 4;
    if k == 0 {
        assert(repeat('.', 1) + repeat(' ', 2) =~= seq!['.', ' ', ' ']);
    } else if k == 1 {
        assert(repeat('.', 2) + repeat(' ', 1) =~= seq!['.', '.', ' ']);
    } else if k == 2 {
        assert(repeat('.', 3) + repeat(' ', 0) =~= seq!['.', '.', '.']);
    } else {
        assert(repeat('.', 0) + repeat(' ', 3) =~= seq![' ', ' ', ' ']);
    }
}

/// The value of a decimal digit character.
pub open spec fn digit_value(c: char) -> int {
    c as int - 48
}

proof fn lemma_two_digits(n: nat)
    requires
        n < 100,
    ensures
        two_digits(n).len() == 2,
        0 <= digit_value(two_digits(n)[0]) < 10,
        0 <= digit_value(two_digits(n)[1]) < 10,
        digit_value(two_digits(n)[0]) * 10 + digit_value(two_digits(n)[1]) == n,
{
    if n >= 10 {
        assert(n / 10 < 10);
        assert(dec(n) == dec(n / 10).push(crate::text::digit_char(n % 10)));
        assert(dec(n / 10) == seq![crate::text::digit_char(n / 10)]);
    }
}

/// Under 100 minutes, the playback time reads `mm:ss`: five characters, a colon in the
/// middle, and the digits give back the seconds: minutes times 60 plus seconds, the
/// seconds under 60.
pub proof fn lemma_elapsed_text_reads_back(secs: nat)
    requires
        secs < 6000,
    ensures
        ({
            let t = spec_elapsed_text(secs);
            let m = digit_value(t[0]) * 10 + digit_value(t[1]);
            let s = digit_value(t[3]) * 10 + digit_value(t[4]);
            &&& t.len() == 5
            &&& t[2] == ':'
            &&& forall|i: int| 0 <= i < 5 && i != 2 ==> 0 <= #[trigger] digit_value(t[i]) < 10
            &&& 0 <= s < 60
            &&& m * 60 + s == secs
        }),
{
    lemma_two_digits(secs / 60);
    lemma_two_digits(secs % 60);
    let a = two_digits(secs / 60);
    let b = two_digits(secs % 60);
    let t = spec_elapsed_text(secs);
    assert(t[0] == a[0] && t[1] == a[1] && t[3] == b[0] && t[4] == b[1]);
}

/// Along an axis, the frame's padding and scrolling say where it starts: padding minus
/// scrolling is the centered offset moved by the no-clip shift, and at most one of them is
/// non-zero.
pub proof fn lemma_placement_is_offset(canvas: u16, size: u16, shift: i16)
    requires
        axis_fits(canvas, size, shift),
    ensures
        ({
            let (pad, scroll) = pad_and_scroll(axis_offset(canvas, size, shift));
            &&& pad as int - scroll as int == axis_offset(canvas, size, shift)
            &&& pad == 0 || scroll == 0
        }),
{
}

proof fn lemma_newline_count_concat(a: Seq<char>, b: Seq<char>)
    ensures
        newline_count(a + b) == newline_count(a) + newline_count(b),
    decreases b.len(),
{
    if b.len() == 0 {
        assert(a + b =~= a);
    } else {
        lemma_newline_count_concat(a, b.drop_last());
        assert((a + b).drop_last() =~= a + b.drop_last());
    }
}

proof fn lemma_repeat_newlines(c: char, n: nat)
    ensures
        newline_count(repeat(c, n)) == (if c == '\n' { n } else { 0 }),
    decreases n,
{
    if n > 0 {
        lemma_repeat_newlines(c, (n - 1) as nat);
        assert(repeat(c, n).drop_last() =~= repeat(c, (n - 1) as nat));
    }
}

proof fn lemma_one_char_newlines(c: char)
    ensures
        newline_count(seq![c]) == (if c == '\n' { 1nat } else { 0nat }),
{
    assert(seq![c].drop_last() =~= Seq::<char>::empty());
    assert(seq![c].last() == c);
    assert(newline_count(Seq::<char>::empty()) == 0);
}

proof fn lemma_indent_counts(s: Seq<char>, pad: Seq<char>)
    requires
        newline_count(pad) == 0,
    ensures
        newline_count(indent_after_breaks(s, pad)) == newline_count(s),
        indent_after_breaks(s, pad).len() == s.len() + newline_count(s) * pad.len(),
    decreases s.len(),
{
    if s.len() > 0 {
        let d = s.drop_last();
        lemma_indent_counts(d, pad);
        let c = s.last();
        lemma_newline_count_concat(indent_after_breaks(d, pad), indented_char(c, pad));
        lemma_one_char_newlines(c);
        let n = newline_count(d);
        let p = pad.len();
        if c == '\n' {
            lemma_newline_count_concat(seq![c], pad);
            assert(newline_count(s) == n + 1);
            assert((n + 1) * p == n * p + p) by (nonlinear_arith);
            assert(indent_after_breaks(s, pad).len() == d.len() + n * p + 1 + p);
        } else {
            assert(newline_count(s) == n);
            assert(indent_after_breaks(s, pad).len() == d.len() + n * p + 1);
        }
    } else {
        assert(newline_count(s) == 0);
        assert(0 * pad.len() == 0) by (nonlinear_arith);
    }
}

/// Placing text `pad_x` columns right and `pad_y` lines down adds exactly `pad_y` line
/// breaks, and `pad_x` spaces for each of its lines; with no padding the text is unchanged.
pub proof fn lemma_positioned_counts(s: Seq<char>, pad_x: nat, pad_y: nat)
    ensures
        newline_count(positioned(s, pad_x, pad_y)) == newline_count(s) + pad_y,
        positioned(s, pad_x, pad_y).len() == pad_y + pad_x * (newline_count(s) + 1) + s.len(),
        positioned(s, 0, 0) == s,
{
    let pad = repeat(' ', pad_x);
    lemma_repeat_newlines(' ', pad_x);
    lemma_repeat_newlines('\n', pad_y);
    lemma_indent_counts(s, pad);
    lemma_newline_count_concat(repeat('\n', pad_y), pad);
    lemma_newline_count_concat(repeat('\n', pad_y) + pad, indent_after_breaks(s, pad));
    assert(pad_x * (newline_count(s) + 1) == newline_count(s) * pad_x + pad_x) by (nonlinear_arith);
    lemma_indent_empty(s);
    assert(repeat('\n', 0) + repeat(' ', 0) + s =~= s);
}

proof fn lemma_indent_empty(s: Seq<char>)
    ensures
        indent_after_breaks(s, repeat(' ', 0)) == s,
    decreases s.len(),
{
    if s.len() > 0 {
        lemma_indent_empty(s.drop_last());
        assert(repeat(' ', 0) =~= Seq::<char>::empty());
        assert(indented_char(s.last(), repeat(' ', 0)) =~= seq![s.last()]);
        assert(s.drop_last() + seq![s.last()] =~= s);
    }
}

/// A one-line warning is centered: the lines above it are half of those it leaves free
/// (rounded down), and the spaces before it half of the columns it leaves free, or none
/// when it is too wide; the message ends with the warning itself.
pub proof fn lemma_centered_message(text: Seq<char>, width: u16, height: u16)
    requires
        newline_count(text) == 0,
        text.len() <= u16::MAX,
    ensures
        ({
            let m = centered_message(text, width, height);
            let above = newline_count(m);
            let before = m.len() - above - text.len();
            &&& m.skip(m.len() - text.len()) == text
            &&& (height >= 1 ==> 2 * above <= height - 1 <= 2 * above + 1)
            &&& (height == 0 ==> above == 0)
            &&& (width > text.len() ==> 2 * before + text.len() <= width <= 2 * before + text.len() + 1)
            &&& (width <= text.len() ==> before == 0)
        }),
{
    let pad_y: nat = if height > 1 { ((height - 1) / 2) as nat } else { 0 };
    let pad_x: nat = spec_center_pad(width, text.len() as u16) as nat;
    lemma_repeat_newlines('\n', pad_y);
    lemma_repeat_newlines(' ', pad_x);
    lemma_newline_count_concat(repeat('\n', pad_y), repeat(' ', pad_x));
    lemma_newline_count_concat(repeat('\n', pad_y) + repeat(' ', pad_x), text);
    let m = centered_message(text, width, height);
    assert(m.skip(m.len() - text.len()) =~= text);
}

} // verus!
