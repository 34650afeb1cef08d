//! Text as a sequence of characters: conversion from and to strings, and the
//! division of a text into lines.

use vstd::prelude::*;
use vstd::slice::slice_subrange;

verus! {

/// Trusted: `String::push` of the standard library appends the character to
/// the end of the string and changes nothing else.
pub assume_specification[ String::push ](s: &mut String, c: char)
    ensures
        final(s)@ == old(s)@.push(c),
;

/// A half-open range of positions in a text.
#[derive(Clone, Copy, Debug, PartialEq, Eq)]
pub struct Span {
    pub start: usize,
    pub end: usize,
}

/// The values of a list of strings, in order.
pub open spec fn string_views(strings: Seq<String>) -> Seq<Seq<char>> {
    strings.map_values(|s: String| s@)
}

/// The pieces of `text` between its line feeds. A text with `n` line feeds
/// has `n + 1` pieces, of which any may be empty.
pub open spec fn segments(text: Seq<char>) -> Seq<Seq<char>>
    decreases text.len(),
{
    if text.len() == 0 {
        seq![Seq::<char>::empty()]
    } else {
        let before = segments(text.drop_last());
        if text.last() == '\n' {
            before.push(Seq::<char>::empty())
        } else {
            before.update(before.len() - 1, before.last().push(text.last()))
        }
    }
}

/// `piece` without the carriage return that ends it, if one does.
pub open spec fn without_carriage_return(piece: Seq<char>) -> Seq<char> {
    if piece.len() > 0 && piece.last() == '\r' {
        piece.drop_last()
    } else {
        piece
    }
}

/// The lines of `text`. A line ends at a line feed or at a carriage return
/// directly followed by one; neither belongs to the line. The last line needs
/// no line ending, and a carriage return that ends the text stays in it.
pub open spec fn lines_of(text: Seq<char>) -> Seq<Seq<char>> {
    let pieces = segments(text);
    let closed = Seq::new(
        (pieces.len() - 1) as nat,
        |i: int| without_carriage_return(pieces[i]),
    );
    if pieces.last().len() == 0 {
        closed
    } else {
        closed.push(pieces.last())
    }
}

/// Every text has at least one piece.
pub proof fn lemma_segments_nonempty(text: Seq<char>)
    ensures
        segments(text).len() >= 1,
    decreases text.len(),
{
    if text.len() > 0 {
        lemma_segments_nonempty(text.drop_last());
    }
}

/// The characters of `text`, in order.
pub fn chars_of(text: &str) -> (chars: Vec<char>)
    ensures
        chars@ == text@,
{
    let mut chars: Vec<char> = Vec::new();
    for c in it: text.chars()
        invariant
            it.seq() == text@,
            chars@ == text@.take(it.index() as int),
    {
        chars.push(c);
    }
    chars
}

/// The string made of `chars`, in order.
pub fn string_of(chars: &[char]) -> (s: String)
    ensures
        s@ == chars@,
{
    let mut s = String::new();
    let mut i: usize = 0;
    while i < chars.len()
        invariant
            i <= chars.len(),
            s@ == chars@.take(i as int),
        decreases chars.len() - i,
    {
        s.push(chars[i]);
        i += 1;
    }
    s
}

/// Whether `wanted` is one of `strings`.
pub fn contains_string(strings: &Vec<String>, wanted: &String) -> (r: bool)
    ensures
        r == string_views(strings@).contains(wanted@),
{
    let mut i: usize = 0;
    while i < strings.len()
        invariant
            i <= strings@.len(),
            forall|k: int| 0 <= k < i ==> string_views(strings@)[k] != wanted@,
        decreases strings@.len() - i,
    {
        if strings[i] == *wanted {
            assert(string_views(strings@)[i as int] == wanted@);
            return true;
        }
        i += 1;
    }
    false
}

/// A copy of `strings`.
pub fn copy_strings(strings: &Vec<String>) -> (r: Vec<String>)
    ensures
        string_views(r@) == string_views(strings@),
{
    let mut r: Vec<String> = Vec::new();
    let mut i: usize = 0;
    while i < strings.len()
        invariant
            i <= strings@.len(),
            r@.len() == i,
            forall|k: int| 0 <= k < i ==> (#[trigger] r@[k])@ == strings@[k]@,
        decreases strings@.len() - i,
    {
        r.push(strings[i].clone());
        i += 1;
    }
    assert(string_views(r@) == string_views(strings@));
    r
}

/// The position of the first `c` in `s`.
pub fn find_first(s: &[char], c: char) -> (r: Option<usize>)
    ensures
        match r {
            Some(k) => s@.index_of_first(c) == Some(k as int) && k < s@.len(),
            None => s@.index_of_first(c) is None,
        },
{
    let mut i: usize = 0;
    while i < s.len()
        invariant
            i <= s.len(),
            forall|j: int| 0 <= j < i ==> s@[j] != c,
        decreases s.len() - i,
    {
        if s[i] == c {
            proof {
                s@.index_of_first_ensures(c);
                assert(s@.contains(c));
            }
            return Some(i);
        }
        i += 1;
    }
    proof {
        s@.index_of_first_ensures(c);
    }
    None
}

/// The positions of the lines of `chars`, in order.
pub fn line_spans(chars: &[char]) -> (spans: Vec<Span>)
    ensures
        spans@.len() == lines_of(chars@).len(),
        forall|i: int|
            0 <= i < spans@.len() ==> {
                &&& (#[trigger] spans@[i]).start <= spans@[i].end <= chars@.len()
                &&& chars@.subrange(spans@[i].start as int, spans@[i].end as int) == lines_of(
                    chars@,
                )[i]
            },
{
    let mut spans: Vec<Span> = Vec::new();
    let mut start: usize = 0;
    let mut i: usize = 0;
    while i < chars.len()
        invariant
            start <= i <= chars.len(),
            segments(chars@.take(i as int)).len() == spans@.len() + 1,
            segments(chars@.take(i as int)).last() == chars@.subrange(start as int, i as int),
            forall|k: int|
                0 <= k < spans@.len() ==> {
                    &&& (#[trigger] spans@[k]).start <= spans@[k].end <= chars@.len()
                    &&& chars@.subrange(spans@[k].start as int, spans@[k].end as int)
                        == without_carriage_return(segments(chars@.take(i as int))[k])
                },
        decreases chars.len() - i,
    {
        let ghost before = chars@.take(i as int);
        let ghost now = chars@.take(i + 1);
        proof {
            assert(now.drop_last() == before);
            assert(now.last() == chars@[i as int]);
        }
        if chars[i] == '\n' {
            let end: usize = if i > start && chars[i - 1] == '\r' {
                i - 1
            } else {
                i
            };
            proof {
                let piece = chars@.subrange(start as int, i as int);
                if i > start && chars@[i - 1] == '\r' {
                    assert(piece.last() == '\r');
                    assert(piece.drop_last() == chars@.subrange(start as int, end as int));
                }
                assert(chars@.subrange(start as int, end as int) == without_carriage_return(
                    piece,
                ));
                assert(chars@.subrange(i + 1, i + 1) == Seq::<char>::empty());
            }
            spans.push(Span { start, end });
            start = i + 1;
        } else {
            proof {
                assert(chars@.subrange(start as int, i + 1) == chars@.subrange(
                    start as int,
                    i as int,
                ).push(chars@[i as int]));
            }
        }
        i += 1;
    }
    proof {
        assert(chars@.take(chars@.len() as int) == chars@);
    }
    if start < chars.len() {
        spans.push(Span { start, end: chars.len() });
    }
    proof {
        assert(spans@.len() == lines_of(chars@).len());
    }
    spans
}

/// The lines of `text` as strings, in order.
pub fn lines(text: &str) -> (out: Vec<String>)
    ensures
        string_views(out@) == lines_of(text@),
{
    let chars = chars_of(text);
    let spans = line_spans(chars.as_slice());
    let mut out: Vec<String> = Vec::new();
    let mut i: usize = 0;
    while i < spans.len()
        invariant
            i <= spans@.len(),
            chars@ == text@,
            out@.len() == i,
            spans@.len() == lines_of(text@).len(),
            forall|k: int|
                0 <= k < spans@.len() ==> {
                    &&& (#[trigger] spans@[k]).start <= spans@[k].end <= chars@.len()
                    &&& chars@.subrange(spans@[k].start as int, spans@[k].end as int) == lines_of(
                        text@,
                    )[k]
                },
            forall|k: int| 0 <= k < i ==> (#[trigger] out@[k])@ == lines_of(text@)[k],
        decreases spans@.len() - i,
    {
        let span = spans[i];
        let line = string_of(slice_subrange(chars.as_slice(), span.start, span.end));
        out.push(line);
        i += 1;
    }
    assert(string_views(out@) == lines_of(text@));
    out
}

} // verus!
