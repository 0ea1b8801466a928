//! Text as bytes: splitting at a mark and cutting parts out of a string.
//!
//! A string is read through its UTF-8 encoding. A part of it can be taken
//! where it starts and ends between two characters.
use vstd::prelude::*;
use vstd::string::*;
use vstd::utf8::*;

verus! {

/// The parts of a text between the occurrences of a mark: one more part
/// than there are marks, empty parts included.
pub open spec fn split(text: Seq<u8>, mark: u8) -> Seq<Seq<u8>>
    decreases text.len(),
{
    if text.len() == 0 {
        seq![Seq::empty()]
    } else {
        let before = split(text.drop_last(), mark);
        if text.last() == mark {
            before.push(Seq::empty())
        } else {
            before.update(before.len() - 1, before.last().push(text.last()))
        }
    }
}

/// The parts of a text with the mark between each two of them.
pub open spec fn join(parts: Seq<Seq<u8>>, mark: u8) -> Seq<u8>
    decreases parts.len(),
{
    if parts.len() == 0 {
        Seq::empty()
    } else if parts.len() == 1 {
        parts[0]
    } else {
        join(parts.drop_last(), mark) + seq![mark] + parts.last()
    }
}

/// Splitting loses nothing: no part holds the mark, and the parts joined by
/// the mark are the text.
pub proof fn lemma_split(text: Seq<u8>, mark: u8)
    ensures
        split(text, mark).len() >= 1,
        join(split(text, mark), mark) == text,
        forall|k: int, i: int|
            0 <= k < split(text, mark).len() && 0 <= i < split(text, mark)[k].len() ==> split(text, mark)[k][i]
                != mark,
    decreases text.len(),
{
    if text.len() == 0 {
        assert(join(split(text, mark), mark) =~= text);
    } else {
        let head = text.drop_last();
        let before = split(head, mark);
        lemma_split(head, mark);
        if text.last() == mark {
            let parts = before.push(Seq::empty());
            assert(parts.drop_last() =~= before);
            assert(join(parts, mark) =~= text);
        } else {
            let parts = before.update(before.len() - 1, before.last().push(text.last()));
            if before.len() == 1 {
                assert(join(parts, mark) =~= text);
            } else {
                assert(parts.drop_last() =~= before.drop_last());
                assert(join(parts, mark) =~= join(before, mark).push(text.last()));
                assert(join(parts, mark) =~= text);
            }
        }
    }
}

/// A part of a text: the bytes from `from` up to, not including, `to`.
#[derive(PartialEq, Eq, Clone, Copy, Debug, Structural)]
pub struct Span {
    pub from: usize,
    pub to: usize,
}

/// The spans are those of the parts of the text between the marks: the
/// first starts the text, each ends at a mark behind which the next starts,
/// and the last ends the text.
pub open spec fn spans_of(text: Seq<u8>, mark: u8, spans: Seq<Span>) -> bool {
    &&& spans.len() == split(text, mark).len()
    &&& spans.len() >= 1
    &&& spans[0].from == 0
    &&& spans[spans.len() - 1].to == text.len()
    &&& forall|k: int|
        0 <= k < spans.len() ==> {
            &&& (#[trigger] spans[k]).from <= spans[k].to <= text.len()
            &&& text.subrange(spans[k].from as int, spans[k].to as int) == split(text, mark)[k]
        }
    &&& forall|k: int|
        0 <= k < spans.len() - 1 ==> {
            &&& text[(#[trigger] spans[k]).to as int] == mark
            &&& spans[k + 1].from == spans[k].to + 1
        }
}

/// Finds the parts of a text between the occurrences of a mark.
pub fn spans(text: &[u8], mark: u8) -> (found: Vec<Span>)
    ensures
        spans_of(text@, mark, found@),
{
    let mut found: Vec<Span> = Vec::new();
    let mut from: usize = 0;
    let mut i: usize = 0;
    assert(text@.take(0) =~= Seq::empty());
    assert(text@.subrange(0, 0) =~= Seq::empty());
    while i < text.len()
        invariant
            0 <= from <= i <= text.len(),
            found.len() + 1 == split(text@.take(i as int), mark).len(),
            text@.subrange(from as int, i as int) == split(text@.take(i as int), mark).last(),
            found.len() == 0 ==> from == 0,
            found.len() > 0 ==> from == found[found.len() - 1].to + 1,
            forall|k: int|
                0 <= k < found.len() ==> {
                    &&& (#[trigger] found[k]).from <= found[k].to < i
                    &&& text@[found[k].to as int] == mark
                    &&& text@.subrange(found[k].from as int, found[k].to as int) == split(
                        text@.take(i as int),
                        mark,
                    )[k]
                },
            found.len() > 0 ==> found[0].from == 0,
            forall|k: int| 0 <= k < found.len() - 1 ==> found[k + 1].from == (#[trigger] found[k]).to + 1,
        decreases text.len() - i,
    {
        let ghost before = split(text@.take(i as int), mark);
        assert(text@.take(i + 1).drop_last() =~= text@.take(i as int));
        assert(text@.take(i + 1).last() == text@[i as int]);
        if text[i] == mark {
            found.push(Span { from: from, to: i });
            from = i + 1;
            assert(text@.subrange(from as int, i + 1) =~= Seq::empty());
        } else {
            assert(text@.subrange(from as int, i + 1) =~= text@.subrange(from as int, i as int).push(
                text@[i as int],
            ));
        }
        i += 1;
    }
    assert(text@.take(i as int) =~= text@);
    found.push(Span { from: from, to: i });
    found
}

/// A place in a text between two characters, read off the bytes: the start
/// and the end of the text, and every place before a byte that does not
/// continue a character.
pub open spec fn boundary(text: Seq<u8>, at: int) -> bool {
    at == 0 || at == text.len() || (0 < at < text.len() && !is_continuation_byte(text[at]))
}

/// In the encoding of a string the places between two characters are those
/// that the bytes show.
pub proof fn lemma_boundary(text: Seq<u8>, at: int)
    requires
        valid_utf8(text),
        0 <= at <= text.len(),
    ensures
        boundary(text, at) == is_char_boundary(text, at),
{
    is_char_boundary_start_end_of_seq(text);
    if 0 < at < text.len() {
        is_char_boundary_iff_not_is_continuation_byte(text, at);
    }
}

/// Behind a byte that is a character of its own, a character starts or the
/// text ends.
pub proof fn lemma_boundary_behind_ascii(text: Seq<u8>, at: int)
    requires
        valid_utf8(text),
        0 <= at < text.len(),
        text[at] < 0x80,
    ensures
        boundary(text, at + 1),
{
    lemma_boundary(text, at);
    valid_utf8_split(text, at);
    let rest = text.subrange(at, text.len() as int);
    assert(rest[0] == text[at]);
    assert(valid_utf8(rest));
    assert(length_of_first_scalar(rest) == 1);
    let tail = pop_first_scalar(rest);
    assert(valid_utf8(tail));
    assert(tail =~= text.subrange(at + 1, text.len() as int));
    if at + 1 < text.len() {
        assert(tail[0] == text[at + 1]);
        assert(valid_first_scalar(tail));
    }
}

/// Behind the character that starts at a place between characters, another
/// starts or the text ends. How many bytes the character takes shows in its
/// first byte.
pub proof fn lemma_boundary_behind_character(text: Seq<u8>, at: int)
    requires
        valid_utf8(text),
        0 <= at < text.len(),
        boundary(text, at),
    ensures
        at + length_of_first_codepoint(text.subrange(at, text.len() as int)) <= text.len(),
        boundary(text, at + length_of_first_codepoint(text.subrange(at, text.len() as int))),
{
    lemma_boundary(text, at);
    valid_utf8_split(text, at);
    let rest = text.subrange(at, text.len() as int);
    assert(valid_utf8(rest));
    assert(valid_first_scalar(rest));
    let width = length_of_first_scalar(rest);
    let tail = pop_first_scalar(rest);
    assert(valid_utf8(tail));
    assert(tail =~= text.subrange(at + width, text.len() as int));
    if at + width < text.len() {
        assert(tail[0] == text[at + width]);
        assert(valid_first_scalar(tail));
    }
}

/// Cuts out the part of a string between two places that lie between
/// characters.
pub(crate) fn slice_of(text: &str, from: usize, to: usize) -> (part: String)
    requires
        from <= to <= text.spec_bytes().len(),
        boundary(text.spec_bytes(), from as int),
        boundary(text.spec_bytes(), to as int),
    ensures
        part@ == decode_utf8(text.spec_bytes().subrange(from as int, to as int)),
        encode_utf8(part@) == text.spec_bytes().subrange(from as int, to as int),
{
    proof {
        encode_utf8_valid_utf8(text@);
        lemma_boundary(text.spec_bytes(), from as int);
        lemma_boundary(text.spec_bytes(), to as int);
    }
    let (head, _) = text.split_at(to);
    proof {
        encode_utf8_valid_utf8(head@);
        lemma_boundary(head.spec_bytes(), from as int);
        if 0 < from < to {
            assert(head.spec_bytes()[from as int] == text.spec_bytes()[from as int]);
        }
    }
    let (_, part) = head.split_at(from);
    proof {
        encode_utf8_decode_utf8(part@);
        assert(part.spec_bytes() =~= text.spec_bytes().subrange(from as int, to as int));
    }
    part.to_owned()
}

} // verus!
