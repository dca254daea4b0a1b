//! The animation catalog's rules: how a pasted or dropped path is cleaned up, which files
//! are converted or imported, and in which order the animations are listed.

use vstd::prelude::*;
use crate::text::{chars_of, string_of_range, chars_eq, ascii_lowercase, seq_ascii_lowercase};

verus! {

/// A character of Unicode's White_Space property, the whitespace that trimming removes.
pub open spec fn is_white_space(c: char) -> bool {
    let u = c as u32;
    (0x09 <= u && u <= 0x0D) || u == 0x20 || u == 0x85 || u == 0xA0 || u == 0x1680
        || (0x2000 <= u && u <= 0x200A) || u == 0x2028 || u == 0x2029 || u == 0x202F
        || u == 0x205F || u == 0x3000
}

/// Which characters a trim removes: whitespace, or one given character.
#[derive(Debug, Clone, Copy, PartialEq, Eq, Structural)]
pub enum Trim {
    WhiteSpace,
    Char(char),
}

/// Whether the trim `t` removes `c`.
pub open spec fn trims(t: Trim, c: char) -> bool {
    match t {
        Trim::WhiteSpace => is_white_space(c),
        Trim::Char(x) => c == x,
    }
}

/// `s` without the characters `t` removes at its start.
pub open spec fn trim_start(s: Seq<char>, t: Trim) -> Seq<char>
    decreases s.len(),
{
    if s.len() > 0 && trims(t, s[0]) { trim_start(s.drop_first(), t) } else { s }
}

/// `s` without the characters `t` removes at its end.
pub open spec fn trim_end(s: Seq<char>, t: Trim) -> Seq<char>
    decreases s.len(),
{
    if s.len() > 0 && trims(t, s.last()) { trim_end(s.drop_last(), t) } else { s }
}

/// `s` without the characters `t` removes at either end.
pub open spec fn trim_both(s: Seq<char>, t: Trim) -> Seq<char> {
    trim_end(trim_start(s, t), t)
}

/// A pasted path cleaned up: whitespace, then double quotes, then single quotes, then
/// whitespace again taken off both ends.
pub open spec fn spec_clean_path(s: Seq<char>) -> Seq<char> {
    trim_both(trim_both(trim_both(trim_both(s, Trim::WhiteSpace), Trim::Char('"')), Trim::Char('\'')), Trim::WhiteSpace)
}

fn trims_exec(t: Trim, c: char) -> (r: bool)
    ensures
        r == trims(t, c),
{
    match t {
        Trim::WhiteSpace => {
            let u = c as u32;
            (0x09 <= u && u <= 0x0D) || u == 0x20 || u == 0x85 || u == 0xA0 || u == 0x1680
                || (0x2000 <= u && u <= 0x200A) || u == 0x2028 || u == 0x2029 || u == 0x202F
                || u == 0x205F || u == 0x3000
        },
        Trim::Char(x) => c == x,
    }
}

/// The bounds of `v[from..to]` once trimmed by `t`.
fn trimmed_bounds(v: &Vec<char>, from: usize, to: usize, t: Trim) -> (r: (usize, usize))
    requires
        from <= to <= v@.len(),
    ensures
        from <= r.0 <= r.1 <= to,
        v@.subrange(r.0 as int, r.1 as int) == trim_both(v@.subrange(from as int, to as int), t),
{
    let mut i: usize = from;
    while i < to && trims_exec(t, v[i])
        invariant
            from <= i <= to <= v@.len(),
            trim_start(v@.subrange(from as int, to as int), t) == trim_start(v@.subrange(i as int, to as int), t),
        decreases to - i,
    {
        assert(v@.subrange(i as int, to as int).drop_first() =~= v@.subrange(i + 1, to as int));
        i += 1;
    }
    let mut j: usize = to;
    while j > i && trims_exec(t, v[j - 1])
        invariant
            from <= i <= j <= to <= v@.len(),
            trim_end(v@.subrange(i as int, to as int), t) == trim_end(v@.subrange(i as int, j as int), t),
        decreases j - i,
    {
        assert(v@.subrange(i as int, j as int).drop_last() =~= v@.subrange(i as int, j - 1));
        j -= 1;
    }
    (i, j)
}

/// A pasted or dropped path cleaned up as the importer reads it: whitespace, double
/// quotes, single quotes and whitespace again trimmed off both ends, in that order.
pub fn clean_pasted_path(text: &str) -> (r: String)
    ensures
        r@ == spec_clean_path(text@),
{
    let v = chars_of(text);
    let (a, b) = trimmed_bounds(&v, 0, v.len(), Trim::WhiteSpace);
    assert(v@.subrange(0, v@.len() as int) =~= text@);
    let (c, d) = trimmed_bounds(&v, a, b, Trim::Char('"'));
    let (e, f) = trimmed_bounds(&v, c, d, Trim::Char('\''));
    let (g, h) = trimmed_bounds(&v, e, f, Trim::WhiteSpace);
    string_of_range(&v, g, h)
}

proof fn lemma_trim_start_ends(s: Seq<char>, t: Trim)
    ensures
        trim_start(s, t).len() > 0 ==> !trims(t, trim_start(s, t)[0]),
        trim_start(s, t).len() <= s.len(),
        trim_start(s, t) == s.skip(s.len() - trim_start(s, t).len()),
    decreases s.len(),
{
    if s.len() > 0 && trims(t, s[0]) {
        lemma_trim_start_ends(s.drop_first(), t);
        assert(s.drop_first().skip(s.drop_first().len() - trim_start(s, t).len()) =~= s.skip(s.len() - trim_start(s, t).len()));
    } else {
        assert(s.skip(0) =~= s);
    }
}

proof fn lemma_trim_end_ends(s: Seq<char>, t: Trim)
    ensures
        trim_end(s, t).len() > 0 ==> !trims(t, trim_end(s, t).last()),
        trim_end(s, t).len() <= s.len(),
        trim_end(s, t) == s.take(trim_end(s, t).len() as int),
    decreases s.len(),
{
    if s.len() > 0 && trims(t, s.last()) {
        lemma_trim_end_ends(s.drop_last(), t);
        assert(s.drop_last().take(trim_end(s, t).len() as int) =~= s.take(trim_end(s, t).len() as int));
    } else {
        assert(s.take(s.len() as int) =~= s);
    }
}

/// A cleaned path neither starts nor ends with whitespace, and it is a piece of the text
/// it was cleaned from (nothing is added or changed, only taken off the ends).
pub proof fn lemma_clean_path_trimmed(s: Seq<char>)
    ensures
        spec_clean_path(s).len() > 0 ==> !is_white_space(spec_clean_path(s)[0]),
        spec_clean_path(s).len() > 0 ==> !is_white_space(spec_clean_path(s).last()),
        spec_clean_path(s).len() <= s.len(),
        exists|i: int| 0 <= i <= s.len() - spec_clean_path(s).len()
            && #[trigger] s.subrange(i, i + spec_clean_path(s).len()) == spec_clean_path(s),
{
    let a = trim_both(s, Trim::WhiteSpace);
    let b = trim_both(a, Trim::Char('"'));
    let c = trim_both(b, Trim::Char('\''));
    let u = trim_start(c, Trim::WhiteSpace);
    let r = trim_end(u, Trim::WhiteSpace);
    lemma_trim_start_ends(u, Trim::WhiteSpace);
    lemma_trim_end_ends(u, Trim::WhiteSpace);
    lemma_trim_start_ends(c, Trim::WhiteSpace);
    if r.len() > 0 {
        assert(r[0] == u[0]);
    }
    // r is a piece of s: each trim keeps a contiguous piece.
    lemma_trim_piece(s, Trim::WhiteSpace);
    lemma_trim_piece(a, Trim::Char('"'));
    lemma_trim_piece(b, Trim::Char('\''));
    lemma_trim_piece(c, Trim::WhiteSpace);
    let i1 = choose|i: int| 0 <= i <= s.len() - a.len() && #[trigger] s.subrange(i, i + a.len()) == a;
    let i2 = choose|i: int| 0 <= i <= a.len() - b.len() && #[trigger] a.subrange(i, i + b.len()) == b;
    let i3 = choose|i: int| 0 <= i <= b.len() - c.len() && #[trigger] b.subrange(i, i + c.len()) == c;
    let i4 = choose|i: int| 0 <= i <= c.len() - r.len() && #[trigger] c.subrange(i, i + r.len()) == r;
    let k = i1 + i2 + i3 + i4;
    assert(s.subrange(k, k + r.len()) =~= r);
}

proof fn lemma_trim_piece(s: Seq<char>, t: Trim)
    ensures
        trim_both(s, t).len() <= s.len(),
        exists|i: int| 0 <= i <= s.len() - trim_both(s, t).len() && #[trigger] s.subrange(i, i + trim_both(s, t).len()) == trim_both(s, t),
{
    let u = trim_start(s, t);
    let r = trim_end(u, t);
    lemma_trim_start_ends(s, t);
    lemma_trim_end_ends(u, t);
    let i = s.len() - u.len();
    assert(s.subrange(i, i + r.len()) =~= r);
}

/// The kind of a dropped file does not depend on the letter case of its extension.
pub proof fn lemma_drop_kind_any_case(ext: Seq<char>)
    ensures
        spec_drop_kind(ext) == spec_drop_kind(seq_ascii_lowercase(ext)),
{
    assert(seq_ascii_lowercase(seq_ascii_lowercase(ext)) =~= seq_ascii_lowercase(ext));
}

/// What a dropped file is, by its extension: an image to convert, an animation to import,
/// or neither.
#[derive(Debug, Clone, Copy, PartialEq, Eq, Structural)]
pub enum DropKind {
    Image,
    Animation,
    Other,
}

/// The kind of a dropped file whose extension is `ext`, in any letter case: `gif`, `png`,
/// `jpg`, `jpeg` and `webp` are images, `askey` is an animation.
pub open spec fn spec_drop_kind(ext: Seq<char>) -> DropKind {
    let e = seq_ascii_lowercase(ext);
    if e == seq!['g', 'i', 'f'] || e == seq!['p', 'n', 'g'] || e == seq!['j', 'p', 'g']
        || e == seq!['j', 'p', 'e', 'g'] || e == seq!['w', 'e', 'b', 'p'] {
        DropKind::Image
    } else if e == seq!['a', 's', 'k', 'e', 'y'] {
        DropKind::Animation
    } else {
        DropKind::Other
    }
}

/// The kind of a dropped file with extension `ext`.
pub fn drop_kind(ext: &str) -> (r: DropKind)
    ensures
        r == spec_drop_kind(ext@),
{
    let lower = ascii_lowercase(ext);
    let e = chars_of(lower.as_str());
    let gif = vec!['g', 'i', 'f'];
    let png = vec!['p', 'n', 'g'];
    let jpg = vec!['j', 'p', 'g'];
    let jpeg = vec!['j', 'p', 'e', 'g'];
    let webp = vec!['w', 'e', 'b', 'p'];
    let askey = vec!['a', 's', 'k', 'e', 'y'];
    assert(gif@ =~= seq!['g', 'i', 'f']);
    assert(png@ =~= seq!['p', 'n', 'g']);
    assert(jpg@ =~= seq!['j', 'p', 'g']);
    assert(jpeg@ =~= seq!['j', 'p', 'e', 'g']);
    assert(webp@ =~= seq!['w', 'e', 'b', 'p']);
    assert(askey@ =~= seq!['a', 's', 'k', 'e', 'y']);
    if chars_eq(&e, &gif) || chars_eq(&e, &png) || chars_eq(&e, &jpg) || chars_eq(&e, &jpeg) || chars_eq(&e, &webp) {
        DropKind::Image
    } else if chars_eq(&e, &askey) {
        DropKind::Animation
    } else {
        DropKind::Other
    }
}

/// Whether text `a` comes before text `b`: at the first character where they differ the
/// one with the smaller code point comes first, and a prefix comes before what extends it.
pub open spec fn text_before(a: Seq<char>, b: Seq<char>) -> bool
    decreases a.len(),
{
    if a.len() == 0 {
        b.len() > 0
    } else if b.len() == 0 {
        false
    } else if a[0] != b[0] {
        (a[0] as int) < (b[0] as int)
    } else {
        text_before(a.drop_first(), b.drop_first())
    }
}

/// No text comes before itself, and of two texts at most one comes before the other.
pub proof fn lemma_text_before_asymmetric(a: Seq<char>, b: Seq<char>)
    ensures
        !text_before(a, a),
        text_before(a, b) ==> !text_before(b, a),
    decreases a.len(),
{
    if a.len() > 0 && b.len() > 0 {
        lemma_text_before_asymmetric(a.drop_first(), b.drop_first());
    }
    if a.len() > 0 {
        lemma_text_before_asymmetric(a.drop_first(), a.drop_first());
    }
}

/// Coming before is transitive.
pub proof fn lemma_text_before_transitive(a: Seq<char>, b: Seq<char>, c: Seq<char>)
    requires
        text_before(a, b),
        text_before(b, c),
    ensures
        text_before(a, c),
    decreases a.len(),
{
    if a.len() > 0 && b.len() > 0 && c.len() > 0 && a[0] == b[0] && b[0] == c[0] {
        lemma_text_before_transitive(a.drop_first(), b.drop_first(), c.drop_first());
    }
}

/// Of two different texts, one comes before the other.
pub proof fn lemma_text_before_total(a: Seq<char>, b: Seq<char>)
    requires
        a != b,
    ensures
        text_before(a, b) || text_before(b, a),
    decreases a.len(),
{
    if a.len() == 0 && b.len() == 0 {
        assert(a =~= b);
    } else if a.len() > 0 && b.len() > 0 && a[0] == b[0] {
        if a.drop_first() == b.drop_first() {
            assert(a =~= seq![a[0]] + a.drop_first());
            assert(b =~= seq![b[0]] + b.drop_first());
        } else {
            lemma_text_before_total(a.drop_first(), b.drop_first());
        }
    } else if a.len() > 0 && b.len() > 0 {
        assert((a[0] as int) != (b[0] as int));
    }
}

fn text_before_exec(a: &Vec<char>, b: &Vec<char>) -> (r: bool)
    ensures
        r == text_before(a@, b@),
{
    let mut i: usize = 0;
    assert(a@.skip(0) =~= a@ && b@.skip(0) =~= b@);
    while i < a.len() && i < b.len() && a[i] == b[i]
        invariant
            0 <= i <= a@.len(),
            i <= b@.len(),
            text_before(a@, b@) == text_before(a@.skip(i as int), b@.skip(i as int)),
        decreases a@.len() - i,
    {
        assert(a@.skip(i as int).drop_first() =~= a@.skip(i + 1));
        assert(b@.skip(i as int).drop_first() =~= b@.skip(i + 1));
        i += 1;
    }
    if i == a.len() {
        i < b.len()
    } else if i == b.len() {
        false
    } else {
        a[i] < b[i]
    }
}

/// The keys the animations are listed by: their names in ASCII lower case.
pub open spec fn name_keys(names: Seq<String>) -> Seq<Seq<char>> {
    Seq::new(names.len(), |i: int| seq_ascii_lowercase(names[i]@))
}

/// Whether animation `x` is listed before animation `y`: its key comes first, or the keys
/// are equal and it came first.
pub open spec fn listed_before(keys: Seq<Seq<char>>, x: int, y: int) -> bool {
    text_before(keys[x], keys[y]) || (keys[x] == keys[y] && x < y)
}

proof fn lemma_listed_before_transitive(keys: Seq<Seq<char>>, x: int, y: int, z: int)
    requires
        listed_before(keys, x, y),
        listed_before(keys, y, z),
    ensures
        listed_before(keys, x, z),
{
    if text_before(keys[x], keys[y]) && text_before(keys[y], keys[z]) {
        lemma_text_before_transitive(keys[x], keys[y], keys[z]);
    }
}

/// Whether `order` lists the positions `0..n` each once, ordered by `listed_before`.
pub open spec fn is_listing(keys: Seq<Seq<char>>, order: Seq<usize>, n: int) -> bool {
    &&& order.len() == n
    &&& forall|a: int| 0 <= a < n ==> (#[trigger] order[a]) < n
    &&& forall|k: usize| k < n ==> #[trigger] order.contains(k)
    &&& forall|a: int, b: int| 0 <= a < b < n ==> listed_before(keys, #[trigger] order[a] as int, #[trigger] order[b] as int)
}

proof fn lemma_insert_keeps_listing(keys: Seq<Seq<char>>, order: Seq<usize>, i: int, p: int)
    requires
        0 <= p <= i,
        i < usize::MAX,
        is_listing(keys, order, i),
        p > 0 ==> !text_before(keys[i], keys[order[p - 1] as int]),
        forall|q: int| p <= q < i ==> text_before(keys[i], #[trigger] keys[order[q] as int]),
    ensures
        is_listing(keys, order.insert(p, i as usize), i + 1),
{
    let o2 = order.insert(p, i as usize);
    assert forall|k: usize| k < i + 1 implies #[trigger] o2.contains(k) by {
        if k == i {
            assert(o2[p] == k);
        } else {
            assert(order.contains(k));
            let q = choose|q: int| 0 <= q < order.len() && order[q] == k;
            if q < p {
                assert(o2[q] == k);
            } else {
                assert(o2[q + 1] == k);
            }
        }
    }
    if p > 0 {
        let y = order[p - 1] as int;
        if keys[y] != keys[i] {
            lemma_text_before_total(keys[i], keys[y]);
        }
        assert(listed_before(keys, y, i));
    }
    assert forall|a: int, b: int| 0 <= a < b < i + 1 implies listed_before(keys, #[trigger] o2[a] as int, #[trigger] o2[b] as int) by {
        if b < p {
            assert(o2[a] == order[a] && o2[b] == order[b]);
        } else if a > p {
            assert(o2[a] == order[a - 1] && o2[b] == order[b - 1]);
        } else if a < p && b > p {
            assert(o2[a] == order[a] && o2[b] == order[b - 1]);
        } else if a < p && b == p {
            let y = order[p - 1] as int;
            if a < p - 1 {
                assert(listed_before(keys, order[a] as int, y));
                lemma_listed_before_transitive(keys, order[a] as int, y, i);
            }
        } else {
            assert(a == p && b > p);
            assert(o2[b] == order[b - 1]);
            assert(text_before(keys[i], keys[order[b - 1] as int]));
        }
    }
}

/// The order in which the animations are listed: by name in ASCII lower case, in code
/// point order; animations whose names compare equal keep their order. The result gives
/// the positions in `names`, each once.
pub fn listing_order(names: &Vec<String>) -> (order: Vec<usize>)
    ensures
        is_listing(name_keys(names@), order@, names@.len() as int),
{
    let ghost keys_spec = name_keys(names@);
    let mut keys: Vec<Vec<char>> = Vec::new();
    let mut k: usize = 0;
    while k < names.len()
        invariant
            0 <= k <= names@.len(),
            keys_spec == name_keys(names@),
            keys@.len() == k,
            forall|j: int| 0 <= j < k ==> (#[trigger] keys@[j])@ == keys_spec[j],
        decreases names@.len() - k,
    {
        let lower = ascii_lowercase(names[k].as_str());
        keys.push(chars_of(lower.as_str()));
        k += 1;
    }
    let mut order: Vec<usize> = Vec::new();
    let mut i: usize = 0;
    while i < names.len()
        invariant
            0 <= i <= names@.len(),
            keys@.len() == names@.len(),
            keys_spec == name_keys(names@),
            forall|j: int| 0 <= j < names@.len() ==> (#[trigger] keys@[j])@ == keys_spec[j],
            is_listing(keys_spec, order@, i as int),
        decreases names@.len() - i,
    {
        let mut p: usize = i;
        while p > 0 && text_before_exec(&keys[i], &keys[order[p - 1]])
            invariant
                0 <= p <= i < names@.len(),
                keys@.len() == names@.len(),
                forall|j: int| 0 <= j < names@.len() ==> (#[trigger] keys@[j])@ == keys_spec[j],
                is_listing(keys_spec, order@, i as int),
                forall|q: int| p <= q < i ==> text_before(keys_spec[i as int], #[trigger] keys_spec[order@[q] as int]),
            decreases p,
        {
            p -= 1;
        }
        proof {
            lemma_insert_keeps_listing(keys_spec, order@, i as int, p as int);
        }
        order.insert(p, i);
        i += 1;
    }
    order
}

} // verus!
