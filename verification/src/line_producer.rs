//! The line source: a text to its lines.
//!
//! The text is split at its line feeds. Each line is numbered, from 1, by
//! its place among all lines of the text; white space is taken off both its
//! ends, and a line of which nothing is left is passed over.
use crate::text::slice_of;
use crate::text::boundary;
use crate::text::lemma_boundary_behind_ascii;
use crate::text::lemma_boundary_behind_character;
use crate::text::spans;
use crate::text::spans_of;
use crate::text::split;
use crate::text::Span;
use vstd::prelude::*;
use vstd::string::*;
use vstd::utf8::*;

verus! {

/// The byte that ends a line: a line feed.
pub const LINE_FEED: u8 = 0x0a;

/// The bytes are the encoding of one white space character: of one of
/// U+0009 to U+000D, U+0020, U+0085, U+00A0, U+1680, U+2000 to U+200A,
/// U+2028, U+2029, U+202F, U+205F and U+3000.
pub open spec fn is_space(bytes: Seq<u8>) -> bool {
    ||| bytes.len() == 1 && (0x09 <= bytes[0] <= 0x0d || bytes[0] == 0x20)
    ||| bytes.len() == 2 && bytes[0] == 0xc2 && (bytes[1] == 0x85 || bytes[1] == 0xa0)
    ||| bytes.len() == 3 && bytes[0] == 0xe1 && bytes[1] == 0x9a && bytes[2] == 0x80
    ||| bytes.len() == 3 && bytes[0] == 0xe2 && bytes[1] == 0x80 && (0x80 <= bytes[2] <= 0x8a || bytes[2] == 0xa8
        || bytes[2] == 0xa9 || bytes[2] == 0xaf)
    ||| bytes.len() == 3 && bytes[0] == 0xe2 && bytes[1] == 0x81 && bytes[2] == 0x9f
    ||| bytes.len() == 3 && bytes[0] == 0xe3 && bytes[1] == 0x80 && bytes[2] == 0x80
}

/// The number of bytes of the white space character that the text starts
/// with; 0 where it starts with none.
pub open spec fn space_ahead(text: Seq<u8>) -> int {
    if text.len() >= 1 && is_space(text.subrange(0, 1)) {
        1
    } else if text.len() >= 2 && is_space(text.subrange(0, 2)) {
        2
    } else if text.len() >= 3 && is_space(text.subrange(0, 3)) {
        3
    } else {
        0
    }
}

/// The number of bytes of the white space character that the text ends
/// with; 0 where it ends with none.
pub open spec fn space_behind(text: Seq<u8>) -> int {
    if text.len() >= 1 && is_space(text.subrange(text.len() - 1, text.len() as int)) {
        1
    } else if text.len() >= 2 && is_space(text.subrange(text.len() - 2, text.len() as int)) {
        2
    } else if text.len() >= 3 && is_space(text.subrange(text.len() - 3, text.len() as int)) {
        3
    } else {
        0
    }
}

/// The text without the white space that it starts with.
pub open spec fn trim_start(text: Seq<u8>) -> Seq<u8>
    decreases text.len(),
{
    if space_ahead(text) > 0 {
        trim_start(text.subrange(space_ahead(text), text.len() as int))
    } else {
        text
    }
}

/// The text without the white space that it ends with.
pub open spec fn trim_end(text: Seq<u8>) -> Seq<u8>
    decreases text.len(),
{
    if space_behind(text) > 0 {
        trim_end(text.subrange(0, text.len() - space_behind(text)))
    } else {
        text
    }
}

/// The text without the white space at its two ends.
pub open spec fn trimmed(text: Seq<u8>) -> Seq<u8> {
    trim_end(trim_start(text))
}

/// Of the first `n` lines, those that are not blank, trimmed, each with its
/// number.
pub open spec fn numbered(lines: Seq<Seq<u8>>, n: int) -> Seq<(int, Seq<u8>)>
    decreases n,
{
    if n <= 0 {
        Seq::empty()
    } else {
        let before = numbered(lines, n - 1);
        if trimmed(lines[n - 1]).len() > 0 {
            before.push((n, trimmed(lines[n - 1])))
        } else {
            before
        }
    }
}

/// The lines of a text that are not blank, trimmed, each with its number.
pub open spec fn lines_of(text: Seq<u8>) -> Seq<(int, Seq<u8>)> {
    numbered(split(text, LINE_FEED), split(text, LINE_FEED).len() as int)
}

/// Measures the white space character that a part of a text starts with.
fn measure_ahead(text: &[u8], from: usize, to: usize) -> (width: usize)
    requires
        from <= to <= text.len(),
    ensures
        width == space_ahead(text@.subrange(from as int, to as int)),
        width <= to - from,
{
    let length = to - from;
    if length == 0 {
        return 0;
    }
    let first: u8 = text[from];
    let ghost part = text@.subrange(from as int, to as int);
    assert(part.subrange(0, 1)[0] == first);
    if (0x09 <= first && first <= 0x0d) || first == 0x20 {
        return 1;
    }
    if length < 2 {
        return 0;
    }
    let second: u8 = text[from + 1];
    assert(part.subrange(0, 2)[0] == first && part.subrange(0, 2)[1] == second);
    if first == 0xc2 && (second == 0x85 || second == 0xa0) {
        return 2;
    }
    if length < 3 {
        return 0;
    }
    let third: u8 = text[from + 2];
    assert(part.subrange(0, 3)[0] == first && part.subrange(0, 3)[1] == second && part.subrange(0, 3)[2]
        == third);
    if first == 0xe1 && second == 0x9a && third == 0x80 {
        return 3;
    }
    if first == 0xe2 && second == 0x80 && ((0x80 <= third && third <= 0x8a) || third == 0xa8 || third == 0xa9
        || third == 0xaf) {
        return 3;
    }
    if first == 0xe2 && second == 0x81 && third == 0x9f {
        return 3;
    }
    if first == 0xe3 && second == 0x80 && third == 0x80 {
        return 3;
    }
    0
}

/// Measures the white space character that a part of a text ends with.
fn measure_behind(text: &[u8], from: usize, to: usize) -> (width: usize)
    requires
        from <= to <= text.len(),
    ensures
        width == space_behind(text@.subrange(from as int, to as int)),
        width <= to - from,
{
    let length = to - from;
    if length == 0 {
        return 0;
    }
    let last: u8 = text[to - 1];
    let ghost part = text@.subrange(from as int, to as int);
    assert(part.subrange(part.len() - 1, part.len() as int)[0] == last);
    if (0x09 <= last && last <= 0x0d) || last == 0x20 {
        return 1;
    }
    if length < 2 {
        return 0;
    }
    let second: u8 = text[to - 2];
    assert(part.subrange(part.len() - 2, part.len() as int)[0] == second && part.subrange(
        part.len() - 2,
        part.len() as int,
    )[1] == last);
    if second == 0xc2 && (last == 0x85 || last == 0xa0) {
        return 2;
    }
    if length < 3 {
        return 0;
    }
    let first: u8 = text[to - 3];
    assert(part.subrange(part.len() - 3, part.len() as int)[0] == first && part.subrange(
        part.len() - 3,
        part.len() as int,
    )[1] == second && part.subrange(part.len() - 3, part.len() as int)[2] == last);
    if first == 0xe1 && second == 0x9a && last == 0x80 {
        return 3;
    }
    if first == 0xe2 && second == 0x80 && ((0x80 <= last && last <= 0x8a) || last == 0xa8 || last == 0xa9 || last
        == 0xaf) {
        return 3;
    }
    if first == 0xe2 && second == 0x81 && last == 0x9f {
        return 3;
    }
    if first == 0xe3 && second == 0x80 && last == 0x80 {
        return 3;
    }
    0
}

/// A white space character takes as many bytes as its first byte says.
proof fn lemma_space_is_a_character(text: Seq<u8>)
    requires
        space_ahead(text) > 0,
    ensures
        length_of_first_codepoint(text) == space_ahead(text),
{
    let width = space_ahead(text);
    assert(text.subrange(0, width)[0] == text[0]);
}

/// A white space character starts with a byte that continues no character.
proof fn lemma_space_starts_a_character(text: Seq<u8>)
    requires
        space_behind(text) > 0,
    ensures
        !is_continuation_byte(text[text.len() - space_behind(text)]),
{
    let width = space_behind(text);
    assert(text.subrange(text.len() - width, text.len() as int)[0] == text[text.len() - width]);
}

/// Takes the white space off the two ends of a part of a text.
pub(crate) fn trim(text: &[u8], span: Span) -> (kept: Span)
    requires
        valid_utf8(text@),
        span.from <= span.to <= text.len(),
        boundary(text@, span.from as int),
        boundary(text@, span.to as int),
    ensures
        span.from <= kept.from <= kept.to <= span.to,
        boundary(text@, kept.from as int),
        boundary(text@, kept.to as int),
        text@.subrange(kept.from as int, kept.to as int) == trimmed(
            text@.subrange(span.from as int, span.to as int),
        ),
{
    let ghost whole = text@.subrange(span.from as int, span.to as int);
    let mut from: usize = span.from;
    let mut to: usize = span.to;
    loop
        invariant
            valid_utf8(text@),
            span.from <= from <= to <= text.len(),
            to == span.to,
            boundary(text@, from as int),
            trim_start(whole) == trim_start(text@.subrange(from as int, to as int)),
        ensures
            space_ahead(text@.subrange(from as int, to as int)) == 0,
        decreases to - from,
    {
        let width = measure_ahead(text, from, to);
        if width == 0 {
            break ;
        }
        proof {
            let part = text@.subrange(from as int, to as int);
            let rest = text@.subrange(from as int, text.len() as int);
            assert(part.subrange(0, 1) =~= rest.subrange(0, 1));
            if part.len() >= 2 {
                assert(part.subrange(0, 2) =~= rest.subrange(0, 2));
            }
            if part.len() >= 3 {
                assert(part.subrange(0, 3) =~= rest.subrange(0, 3));
            }
            assert(space_ahead(rest) == width);
            lemma_space_is_a_character(rest);
            lemma_boundary_behind_character(text@, from as int);
            assert(part.subrange(width as int, part.len() as int) =~= text@.subrange(from + width, to as int));
        }
        from = from + width;
    }
    let ghost start = text@.subrange(from as int, to as int);
    assert(trim_start(whole) == start);
    loop
        invariant
            span.from <= from <= to <= span.to <= text.len(),
            boundary(text@, from as int),
            boundary(text@, to as int),
            trim_end(start) == trim_end(text@.subrange(from as int, to as int)),
        ensures
            space_behind(text@.subrange(from as int, to as int)) == 0,
        decreases to - from,
    {
        let width = measure_behind(text, from, to);
        if width == 0 {
            break ;
        }
        proof {
            let part = text@.subrange(from as int, to as int);
            lemma_space_starts_a_character(part);
            assert(part[part.len() - width] == text@[to - width]);
            assert(part.subrange(0, part.len() - width) =~= text@.subrange(from as int, to - width));
        }
        to = to - width;
    }
    Span { from: from, to: to }
}

/// The ends of a line lie between characters of the text.
proof fn lemma_line_boundaries(text: Seq<u8>, found: Seq<Span>, k: int)
    requires
        valid_utf8(text),
        spans_of(text, LINE_FEED, found),
        0 <= k < found.len(),
    ensures
        boundary(text, found[k].from as int),
        boundary(text, found[k].to as int),
{
    if k > 0 {
        assert(found[k - 1].to + 1 == found[k].from);
        lemma_boundary_behind_ascii(text, found[k - 1].to as int);
    }
    if k < found.len() - 1 {
        assert(text[found[k].to as int] == LINE_FEED);
    }
}

/// From the contents of an input file, generates its lines: each line that
/// is not blank, trimmed and with its number.
pub fn line_producer(contents: &str) -> (lines: Vec<(usize, String)>)
    ensures
        lines.len() == lines_of(contents.spec_bytes()).len(),
        forall|i: int|
            0 <= i < lines.len() ==> {
                &&& (#[trigger] lines[i]).0 == lines_of(contents.spec_bytes())[i].0
                &&& lines[i].1@ == decode_utf8(lines_of(contents.spec_bytes())[i].1)
                &&& encode_utf8(lines[i].1@) == lines_of(contents.spec_bytes())[i].1
            },
{
    proof {
        encode_utf8_valid_utf8(contents@);
    }
    let bytes = contents.as_bytes();
    let found = spans(bytes, LINE_FEED);
    let ghost pieces = split(bytes@, LINE_FEED);
    let mut lines: Vec<(usize, String)> = Vec::new();
    let mut k: usize = 0;
    while k < found.len()
        invariant
            0 <= k <= found.len(),
            bytes@ == contents.spec_bytes(),
            valid_utf8(bytes@),
            pieces == split(bytes@, LINE_FEED),
            spans_of(bytes@, LINE_FEED, found@),
            lines.len() == numbered(pieces, k as int).len(),
            forall|i: int|
                0 <= i < lines.len() ==> {
                    &&& (#[trigger] lines[i]).0 == numbered(pieces, k as int)[i].0
                    &&& lines[i].1@ == decode_utf8(numbered(pieces, k as int)[i].1)
                    &&& encode_utf8(lines[i].1@) == numbered(pieces, k as int)[i].1
                },
        decreases found.len() - k,
    {
        proof {
            lemma_line_boundaries(bytes@, found@, k as int);
        }
        let kept = trim(bytes, found[k]);
        if kept.to > kept.from {
            lines.push((k + 1, slice_of(contents, kept.from, kept.to)));
        }
        k += 1;
    }
    lines
}

/// What is left of a text without the white space that it starts with
/// starts with none, and is the end of the text.
proof fn lemma_trim_start(text: Seq<u8>)
    ensures
        space_ahead(trim_start(text)) == 0,
        trim_start(text).len() <= text.len(),
    decreases text.len(),
{
    if space_ahead(text) > 0 {
        lemma_trim_start(text.subrange(space_ahead(text), text.len() as int));
    }
}

/// What is left of a text without the white space that it ends with ends
/// with none, and is a beginning of the text.
proof fn lemma_trim_end(text: Seq<u8>)
    ensures
        space_behind(trim_end(text)) == 0,
        trim_end(text).len() <= text.len(),
        trim_end(text) == text.subrange(0, trim_end(text).len() as int),
    decreases text.len(),
{
    if space_behind(text) > 0 {
        let rest = text.subrange(0, text.len() - space_behind(text));
        lemma_trim_end(rest);
        assert(rest.subrange(0, trim_end(rest).len() as int) =~= text.subrange(0, trim_end(rest).len() as int));
    } else {
        assert(text.subrange(0, text.len() as int) =~= text);
    }
}

/// A trimmed text has no white space at either end.
pub proof fn lemma_trimmed(text: Seq<u8>)
    ensures
        space_ahead(trimmed(text)) == 0,
        space_behind(trimmed(text)) == 0,
        trimmed(text).len() <= text.len(),
{
    let start = trim_start(text);
    lemma_trim_start(text);
    lemma_trim_end(start);
    let kept = trimmed(text);
    if kept.len() >= 1 {
        assert(kept.subrange(0, 1) =~= start.subrange(0, 1));
    }
    if kept.len() >= 2 {
        assert(kept.subrange(0, 2) =~= start.subrange(0, 2));
    }
    if kept.len() >= 3 {
        assert(kept.subrange(0, 3) =~= start.subrange(0, 3));
    }
}

/// The numbered lines of the first `n` lines are those that are not blank,
/// in their order.
proof fn lemma_numbered(lines: Seq<Seq<u8>>, n: int)
    requires
        0 <= n <= lines.len(),
    ensures
        numbered(lines, n).len() <= n,
        forall|i: int|
            0 <= i < numbered(lines, n).len() ==> {
                let line = #[trigger] numbered(lines, n)[i];
                &&& 1 <= line.0 <= n
                &&& line.1 == trimmed(lines[line.0 - 1])
                &&& line.1.len() > 0
            },
        forall|i: int, j: int|
            0 <= i < j < numbered(lines, n).len() ==> numbered(lines, n)[i].0 < numbered(lines, n)[j].0,
        forall|k: int|
            0 <= k < n && trimmed(#[trigger] lines[k]).len() > 0 ==> exists|i: int|
                0 <= i < numbered(lines, n).len() && (#[trigger] numbered(lines, n)[i]).0 == k + 1,
    decreases n,
{
    if n > 0 {
        lemma_numbered(lines, n - 1);
        let before = numbered(lines, n - 1);
        let now = numbered(lines, n);
        assert forall|k: int| 0 <= k < n && trimmed(#[trigger] lines[k]).len() > 0 implies exists|i: int|
            0 <= i < now.len() && (#[trigger] now[i]).0 == k + 1 by {
            if k < n - 1 {
                let i = choose|i: int| 0 <= i < before.len() && (#[trigger] before[i]).0 == k + 1;
                assert(now[i] == before[i]);
            } else {
                assert(now[now.len() - 1].0 == n);
            }
        }
    }
}

/// The line source hands out each line of the text that is not blank, once
/// and in the order of the text, under the number of its place among all
/// lines, counted from 1, and without white space at its ends.
pub proof fn lemma_lines(text: Seq<u8>)
    ensures
        forall|i: int|
            0 <= i < lines_of(text).len() ==> {
                let line = #[trigger] lines_of(text)[i];
                &&& 1 <= line.0 <= split(text, LINE_FEED).len()
                &&& line.1 == trimmed(split(text, LINE_FEED)[line.0 - 1])
                &&& line.1.len() > 0
                &&& space_ahead(line.1) == 0
                &&& space_behind(line.1) == 0
            },
        forall|i: int, j: int| 0 <= i < j < lines_of(text).len() ==> lines_of(text)[i].0 < lines_of(text)[j].0,
        forall|k: int|
            0 <= k < split(text, LINE_FEED).len() && trimmed(#[trigger] split(text, LINE_FEED)[k]).len() > 0
                ==> exists|i: int| 0 <= i < lines_of(text).len() && (#[trigger] lines_of(text)[i]).0 == k + 1,
{
    let lines = split(text, LINE_FEED);
    lemma_numbered(lines, lines.len() as int);
    assert forall|k: int| 0 <= k < lines.len() && trimmed(#[trigger] lines[k]).len() > 0 implies exists|i: int|
        0 <= i < lines_of(text).len() && (#[trigger] lines_of(text)[i]).0 == k + 1 by {
        let found = numbered(lines, lines.len() as int);
        let i = choose|i: int| 0 <= i < found.len() && (#[trigger] found[i]).0 == k + 1;
        assert(lines_of(text)[i] == found[i]);
    }
    assert forall|i: int| 0 <= i < lines_of(text).len() implies space_ahead((#[trigger] lines_of(text)[i]).1) == 0
        && space_behind(lines_of(text)[i].1) == 0 by {
        lemma_trimmed(lines[lines_of(text)[i].0 - 1]);
    }
}

} // verus!
