//! The frame markup of `.askey` files.
//!
//! A frame is text in which colored spans are marked up in one of two styles:
//! `{key:text}` (format 2.1 and 1.1) or `<s c="key">text</s>` (the older tag style).
//! A span is recognized at the leftmost position where it can start; its key runs to the
//! first `:` (or `"`), and its text runs to the first closing `}` (or `</s>`) after the key.
//! Scanning resumes right after a recognized span.

use vstd::prelude::*;
use crate::text::{occurs_at, occurs_at_exec};

verus! {

/// The two span styles of the frame markup.
#[derive(Debug, Clone, Copy, PartialEq, Eq, Structural)]
pub enum MarkupStyle {
    /// `{key:text}`
    Braces,
    /// `<s c="key">text</s>`
    Tags,
}

/// Where a recognized span lies in the frame text: the span covers `start..end`,
/// its key `key_start..key_end`, its text `text_start..text_end`.
pub struct Span {
    pub start: int,
    pub key_start: int,
    pub key_end: int,
    pub text_start: int,
    pub text_end: int,
    pub end: int,
}

/// The same positions, for executable code.
#[derive(Debug, Clone, Copy)]
pub struct SpanPos {
    pub start: usize,
    pub key_start: usize,
    pub key_end: usize,
    pub text_start: usize,
    pub text_end: usize,
    pub end: usize,
}

impl SpanPos {
    /// The positions as integers.
    pub open spec fn view_span(self) -> Span {
        Span {
            start: self.start as int,
            key_start: self.key_start as int,
            key_end: self.key_end as int,
            text_start: self.text_start as int,
            text_end: self.text_end as int,
            end: self.end as int,
        }
    }
}

/// The first index `k >= from` with `c[k] == t`.
pub open spec fn find_char(c: Seq<char>, t: char, from: int) -> Option<int>
    decreases c.len() - from,
{
    if from < 0 || from >= c.len() {
        None
    } else if c[from] == t {
        Some(from)
    } else {
        find_char(c, t, from + 1)
    }
}

/// The first index `k >= from` at which `pat` occurs in `c`.
pub open spec fn find_seq(c: Seq<char>, pat: Seq<char>, from: int) -> Option<int>
    decreases c.len() - from,
{
    if from < 0 || from >= c.len() {
        None
    } else if occurs_at(c, pat, from) {
        Some(from)
    } else {
        find_seq(c, pat, from + 1)
    }
}

/// `<s c="`
pub open spec fn tag_open() -> Seq<char> {
    seq!['<', 's', ' ', 'c', '=', '"']
}

/// `</s>`
pub open spec fn tag_close() -> Seq<char> {
    seq!['<', '/', 's', '>']
}

/// The span that starts at index `i`, if one does.
pub open spec fn span_at(c: Seq<char>, style: MarkupStyle, i: int) -> Option<Span> {
    match style {
        MarkupStyle::Braces => {
            if 0 <= i < c.len() && c[i] == '{' {
                match find_char(c, ':', i + 1) {
                    Some(j) => if j > i + 1 {
                        match find_char(c, '}', j + 1) {
                            Some(k) => Some(
                                Span { start: i, key_start: i + 1, key_end: j, text_start: j + 1, text_end: k, end: k + 1 },
                            ),
                            None => None,
                        }
                    } else {
                        None
                    },
                    None => None,
                }
            } else {
                None
            }
        },
        MarkupStyle::Tags => {
            if 0 <= i && occurs_at(c, tag_open(), i) {
                match find_char(c, '"', i + 6) {
                    Some(q) => if q > i + 6 && c.len() - q > 1 && c[q + 1] == '>' {
                        match find_seq(c, tag_close(), q + 2) {
                            Some(k) => Some(
                                Span { start: i, key_start: i + 6, key_end: q, text_start: q + 2, text_end: k, end: k + 4 },
                            ),
                            None => None,
                        }
                    } else {
                        None
                    },
                    None => None,
                }
            } else {
                None
            }
        },
    }
}

/// The leftmost span that starts at or after `from`.
pub open spec fn next_span(c: Seq<char>, style: MarkupStyle, from: int) -> Option<Span>
    decreases c.len() - from,
{
    if from < 0 || from >= c.len() {
        None
    } else {
        match span_at(c, style, from) {
            Some(s) => Some(s),
            None => next_span(c, style, from + 1),
        }
    }
}

/// The character found is the first `t` at or after `from`; when none is found there is none.
pub proof fn lemma_find_char(c: Seq<char>, t: char, from: int)
    requires
        0 <= from,
    ensures
        match find_char(c, t, from) {
            Some(k) => from <= k < c.len() && c[k] == t && forall|m: int| from <= m < k ==> c[m] != t,
            None => forall|m: int| from <= m < c.len() ==> c[m] != t,
        },
    decreases c.len() - from,
{
    if from < c.len() && c[from] != t {
        lemma_find_char(c, t, from + 1);
    }
}

/// The place found is the first occurrence of `pat` at or after `from`; when none is found
/// there is none.
pub proof fn lemma_find_seq(c: Seq<char>, pat: Seq<char>, from: int)
    requires
        0 <= from,
    ensures
        match find_seq(c, pat, from) {
            Some(k) => from <= k < c.len() && occurs_at(c, pat, k) && forall|m: int|
                from <= m < k ==> !occurs_at(c, pat, m),
            None => forall|m: int| from <= m < c.len() ==> !occurs_at(c, pat, m),
        },
    decreases c.len() - from,
{
    if from < c.len() && !occurs_at(c, pat, from) {
        lemma_find_seq(c, pat, from + 1);
    }
}

/// Whether `s` lies properly inside `c`: key and text are in order, and the span is not empty.
pub open spec fn well_placed(c: Seq<char>, s: Span) -> bool {
    &&& 0 <= s.start < s.key_start <= s.key_end < s.text_start <= s.text_end < s.end <= c.len()
}

/// A span found at `i` starts there and lies properly inside the text.
pub proof fn lemma_span_at(c: Seq<char>, style: MarkupStyle, i: int)
    ensures
        span_at(c, style, i) matches Some(s) ==> s.start == i && well_placed(c, s),
{
    match style {
        MarkupStyle::Braces => {
            if 0 <= i < c.len() && c[i] == '{' {
                lemma_find_char(c, ':', i + 1);
                if let Some(j) = find_char(c, ':', i + 1) {
                    lemma_find_char(c, '}', j + 1);
                }
            }
        },
        MarkupStyle::Tags => {
            if 0 <= i && occurs_at(c, tag_open(), i) {
                lemma_find_char(c, '"', i + 6);
                if let Some(q) = find_char(c, '"', i + 6) {
                    if q + 2 <= c.len() {
                        lemma_find_seq(c, tag_close(), q + 2);
                    }
                }
            }
        },
    }
}

/// The span found is the leftmost one at or after `from`; when none is found no span starts
/// there or later.
pub proof fn lemma_next_span(c: Seq<char>, style: MarkupStyle, from: int)
    requires
        0 <= from,
    ensures
        match next_span(c, style, from) {
            Some(s) => from <= s.start && well_placed(c, s) && span_at(c, style, s.start) == Some(s)
                && forall|m: int| from <= m < s.start ==> span_at(c, style, m) is None,
            None => forall|m: int| from <= m < c.len() ==> span_at(c, style, m) is None,
        },
    decreases c.len() - from,
{
    if from < c.len() {
        lemma_span_at(c, style, from);
        if span_at(c, style, from) is None {
            lemma_next_span(c, style, from + 1);
        }
    }
}

/// The first index `k >= from` with `c[k] == t` (executable).
pub fn find_char_exec(c: &Vec<char>, t: char, from: usize) -> (r: Option<usize>)
    ensures
        match r {
            Some(k) => find_char(c@, t, from as int) == Some(k as int),
            None => find_char(c@, t, from as int) is None,
        },
{
    let mut k = from;
    proof {
        lemma_find_char(c@, t, from as int);
    }
    while k < c.len()
        invariant
            from <= k,
            forall|m: int| from <= m < k ==> c@[m] != t,
            find_char(c@, t, from as int) == find_char(c@, t, k as int),
        decreases c@.len() - k,
    {
        if c[k] == t {
            return Some(k);
        }
        k += 1;
    }
    None
}

/// The first index `k >= from` at which `pat` occurs (executable).
pub fn find_seq_exec(c: &Vec<char>, pat: &Vec<char>, from: usize) -> (r: Option<usize>)
    ensures
        match r {
            Some(k) => find_seq(c@, pat@, from as int) == Some(k as int),
            None => find_seq(c@, pat@, from as int) is None,
        },
{
    let mut k = from;
    while k < c.len()
        invariant
            from <= k,
            find_seq(c@, pat@, from as int) == find_seq(c@, pat@, k as int),
        decreases c@.len() - k,
    {
        if occurs_at_exec(c, pat, k) {
            return Some(k);
        }
        k += 1;
    }
    None
}

/// The characters of `<s c="`.
pub fn tag_open_exec() -> (v: Vec<char>)
    ensures
        v@ == tag_open(),
{
    let v = vec!['<', 's', ' ', 'c', '=', '"'];
    assert(v@ =~= tag_open());
    v
}

/// The characters of `</s>`.
pub fn tag_close_exec() -> (v: Vec<char>)
    ensures
        v@ == tag_close(),
{
    let v = vec!['<', '/', 's', '>'];
    assert(v@ =~= tag_close());
    v
}

/// The span that starts at index `i`, if one does (executable).
pub fn span_at_exec(c: &Vec<char>, style: MarkupStyle, i: usize, open: &Vec<char>, close: &Vec<char>) -> (r: Option<SpanPos>)
    requires
        open@ == tag_open(),
        close@ == tag_close(),
    ensures
        match r {
            Some(p) => span_at(c@, style, i as int) == Some(p.view_span()),
            None => span_at(c@, style, i as int) is None,
        },
{
    proof {
        lemma_span_at(c@, style, i as int);
    }
    match style {
        MarkupStyle::Braces => {
            if i < c.len() && c[i] == '{' {
                match find_char_exec(c, ':', i + 1) {
                    Some(j) => {
                        if j > i + 1 {
                            proof {
                                lemma_find_char(c@, ':', i + 1);
                            }
                            match find_char_exec(c, '}', j + 1) {
                                Some(k) => {
                                    proof {
                                        lemma_find_char(c@, '}', j + 1);
                                    }
                                    Some(SpanPos { start: i, key_start: i + 1, key_end: j, text_start: j + 1, text_end: k, end: k + 1 })
                                },
                                None => None,
                            }
                        } else {
                            None
                        }
                    },
                    None => None,
                }
            } else {
                None
            }
        },
        MarkupStyle::Tags => {
            if occurs_at_exec(c, open, i) {
                let n = c.len();
                assert(tag_open().len() == 6);
                assert(i + 6 <= n);
                match find_char_exec(c, '"', i + 6) {
                    Some(q) => {
                        proof {
                            lemma_find_char(c@, '"', i + 6);
                        }
                        if q > i + 6 && c.len() - q > 1 && c[q + 1] == '>' {
                            match find_seq_exec(c, close, q + 2) {
                                Some(k) => {
                                    proof {
                                        lemma_find_seq(c@, tag_close(), q + 2);
                                    }
                                    Some(SpanPos { start: i, key_start: i + 6, key_end: q, text_start: q + 2, text_end: k, end: k + 4 })
                                },
                                None => None,
                            }
                        } else {
                            None
                        }
                    },
                    None => None,
                }
            } else {
                None
            }
        },
    }
}

/// The leftmost span that starts at or after `from` (executable).
pub fn next_span_exec(c: &Vec<char>, style: MarkupStyle, from: usize, open: &Vec<char>, close: &Vec<char>) -> (r: Option<SpanPos>)
    requires
        open@ == tag_open(),
        close@ == tag_close(),
    ensures
        match r {
            Some(p) => next_span(c@, style, from as int) == Some(p.view_span()),
            None => next_span(c@, style, from as int) is None,
        },
{
    let mut i = from;
    while i < c.len()
        invariant
            from <= i,
            next_span(c@, style, from as int) == next_span(c@, style, i as int),
            open@ == tag_open(),
            close@ == tag_close(),
        decreases c@.len() - i,
    {
        match span_at_exec(c, style, i, open, close) {
            Some(p) => {
                return Some(p);
            },
            None => {},
        }
        i += 1;
    }
    None
}

} // verus!
