//! The tokenizer: raw text to segments, and segments to fields.

use crate::text::{
    chars_of, contains, find, first_occurrence, lemma_first_occurrence, occurs_at, string_of,
};
use vstd::prelude::*;

verus! {

/// What stands between two segments.
pub open spec fn segment_delimiter() -> Seq<char> {
    "~\n"@
}

/// What stands between two fields of a segment.
pub open spec fn field_delimiter() -> Seq<char> {
    "*"@
}

/// The pieces of `text` between the occurrences of `delimiter`, found from
/// left to right and not overlapping. A text without the delimiter is one
/// piece; the empty text is one empty piece.
pub open spec fn split(text: Seq<char>, delimiter: Seq<char>) -> Seq<Seq<char>>
    decreases text.len(),
{
    let at = first_occurrence(text, delimiter, 0);
    if delimiter.len() == 0 || at < 0 {
        seq![text]
    } else {
        proof {
            lemma_first_occurrence(text, delimiter, 0);
        }
        seq![text.take(at)] + split(text.skip(at + delimiter.len()), delimiter)
    }
}

/// The segments of a message, each split into its fields.
pub open spec fn tokenized(text: Seq<char>) -> Seq<Seq<Seq<char>>> {
    let lines = split(text, segment_delimiter());
    Seq::new(lines.len(), |i: int| split(lines[i], field_delimiter()))
}

/// The pieces, with `delimiter` put between each two of them, in order.
pub open spec fn joined(pieces: Seq<Seq<char>>, delimiter: Seq<char>) -> Seq<char>
    decreases pieces.len(),
{
    if pieces.len() == 0 {
        Seq::empty()
    } else if pieces.len() == 1 {
        pieces[0]
    } else {
        pieces[0] + delimiter + joined(pieces.drop_first(), delimiter)
    }
}

/// Splitting gives at least one piece.
pub proof fn lemma_split_is_nonempty(text: Seq<char>, delimiter: Seq<char>)
    ensures
        split(text, delimiter).len() >= 1,
{
}

/// Splitting loses nothing: the pieces, joined by the delimiter, are the
/// text.
pub proof fn lemma_split_joins_back(text: Seq<char>, delimiter: Seq<char>)
    requires
        delimiter.len() > 0,
    ensures
        joined(split(text, delimiter), delimiter) == text,
    decreases text.len(),
{
    let at = first_occurrence(text, delimiter, 0);
    if at >= 0 {
        lemma_first_occurrence(text, delimiter, 0);
        let rest = text.skip(at + delimiter.len());
        let pieces = split(text, delimiter);
        lemma_split_joins_back(rest, delimiter);
        lemma_split_is_nonempty(rest, delimiter);
        assert(pieces.drop_first() =~= split(rest, delimiter));
    }
}

/// No piece holds the delimiter.
pub proof fn lemma_pieces_hold_no_delimiter(text: Seq<char>, delimiter: Seq<char>, i: int)
    requires
        delimiter.len() > 0,
        0 <= i < split(text, delimiter).len(),
    ensures
        !contains(split(text, delimiter)[i], delimiter),
    decreases text.len(),
{
    let at = first_occurrence(text, delimiter, 0);
    lemma_first_occurrence(text, delimiter, 0);
    if at < 0 {
        assert forall|k: int| !occurs_at(text, delimiter, k) by {}
    } else if i == 0 {
        let piece = text.take(at);
        assert forall|k: int| !occurs_at(piece, delimiter, k) by {
            if occurs_at(piece, delimiter, k) {
                assert(piece.subrange(k, k + delimiter.len()) =~= text.subrange(
                    k,
                    k + delimiter.len(),
                ));
                assert(occurs_at(text, delimiter, k));
            }
        }
    } else {
        let rest = text.skip(at + delimiter.len());
        lemma_pieces_hold_no_delimiter(rest, delimiter, i - 1);
    }
}

/// A message has at least one segment, and each segment at least one field:
/// its code.
pub proof fn lemma_tokenized_has_codes(text: Seq<char>)
    ensures
        tokenized(text).len() >= 1,
        forall|i: int|
            0 <= i < tokenized(text).len() ==> (#[trigger] tokenized(text)[i]).len() >= 1,
{
    let lines = split(text, segment_delimiter());
    lemma_split_is_nonempty(text, segment_delimiter());
    assert forall|i: int| 0 <= i < tokenized(text).len() implies (#[trigger] tokenized(
        text,
    )[i]).len() >= 1 by {
        lemma_split_is_nonempty(lines[i], field_delimiter());
    }
}

/// Searching a suffix of the text finds what searching the text from the
/// start of that suffix finds.
proof fn lemma_first_occurrence_in_suffix(text: Seq<char>, pattern: Seq<char>, from: int)
    requires
        0 <= from <= text.len(),
    ensures
        ({
            let whole = first_occurrence(text, pattern, from);
            let suffix = first_occurrence(text.skip(from), pattern, 0);
            if whole == -1 {
                suffix == -1
            } else {
                suffix == whole - from
            }
        }),
{
    let whole = first_occurrence(text, pattern, from);
    let suffix = first_occurrence(text.skip(from), pattern, 0);
    lemma_first_occurrence(text, pattern, from);
    lemma_first_occurrence(text.skip(from), pattern, 0);
    assert forall|i: int| 0 <= i implies (occurs_at(text.skip(from), pattern, i) <==> occurs_at(
        text,
        pattern,
        from + i,
    )) by {
        if i + pattern.len() <= text.len() - from {
            assert(text.skip(from).subrange(i, i + pattern.len()) =~= text.subrange(
                from + i,
                from + i + pattern.len(),
            ));
        }
    }
    if whole != -1 {
        assert(occurs_at(text.skip(from), pattern, whole - from));
    }
}

/// The mathematical value of a list of pieces.
pub open spec fn pieces_of(pieces: Seq<Vec<char>>) -> Seq<Seq<char>> {
    Seq::new(pieces.len(), |i: int| pieces[i]@)
}

fn copy_range(text: &Vec<char>, from: usize, to: usize) -> (piece: Vec<char>)
    requires
        from <= to <= text.len(),
    ensures
        piece@ == text@.subrange(from as int, to as int),
{
    let mut piece: Vec<char> = Vec::new();
    let mut i: usize = from;
    while i < to
        invariant
            from <= i <= to <= text.len(),
            piece@ == text@.subrange(from as int, i as int),
        decreases to - i,
    {
        piece.push(text[i]);
        i = i + 1;
    }
    piece
}

/// Splits `text` at every occurrence of `delimiter`. An empty delimiter
/// splits nowhere.
pub fn split_chars(text: &Vec<char>, delimiter: &Vec<char>) -> (pieces: Vec<Vec<char>>)
    ensures
        pieces_of(pieces@) == split(text@, delimiter@),
{
    let mut pieces: Vec<Vec<char>> = Vec::new();
    let mut start: usize = 0;
    let mut done = false;
    if delimiter.len() == 0 {
        pieces.push(copy_range(text, 0, text.len()));
        done = true;
    }
    assert(text@.skip(0) =~= text@);
    while !done
        invariant
            delimiter.len() > 0 || done,
            start <= text.len(),
            !done ==> pieces_of(pieces@) + split(text@.skip(start as int), delimiter@) == split(
                text@,
                delimiter@,
            ),
            done ==> pieces_of(pieces@) == split(text@, delimiter@),
        decreases text.len() - start + (if done { 0int } else { 1int }),
    {
        let ghost rest = text@.skip(start as int);
        let ghost before = pieces_of(pieces@);
        proof {
            lemma_first_occurrence_in_suffix(text@, delimiter@, start as int);
            lemma_first_occurrence(text@, delimiter@, start as int);
        }
        match find(text, delimiter, start) {
            Some(at) => {
                let piece = copy_range(text, start, at);
                pieces.push(piece);
                proof {
                    assert(rest.take(at - start) =~= piece@);
                    assert(rest.skip(at - start + delimiter.len()) =~= text@.skip(
                        at + delimiter.len(),
                    ));
                    assert(before + seq![piece@] + split(
                        text@.skip(at + delimiter.len()),
                        delimiter@,
                    ) =~= before + split(rest, delimiter@));
                }
                start = at + delimiter.len();
            },
            None => {
                pieces.push(copy_range(text, start, text.len()));
                done = true;
            },
        }
    }
    pieces
}

/// Splits the text of a message into its segments, which the two characters
/// `~` and line feed separate, and each segment into its fields, which `*`
/// separates. Nothing is escaped and nothing is trimmed.
pub fn prepare_segments(x12: &str) -> (segments: Vec<Vec<String>>)
    ensures
        segments.deep_view() == tokenized(x12@),
        segments.len() >= 1,
        forall|i: int| 0 <= i < segments.len() ==> (#[trigger] segments[i]).len() >= 1,
{
    proof {
        lemma_tokenized_has_codes(x12@);
    }
    let text = chars_of(x12);
    let delim_segment = chars_of("~\n");
    let delim_data = chars_of("*");
    let lines = split_chars(&text, &delim_segment);
    let mut segments: Vec<Vec<String>> = Vec::new();
    let mut i: usize = 0;
    while i < lines.len()
        invariant
            i <= lines.len(),
            delim_data@ == field_delimiter(),
            pieces_of(lines@) == split(x12@, segment_delimiter()),
            segments.deep_view() == tokenized(x12@).take(i as int),
        decreases lines.len() - i,
    {
        let fields = split_chars(&lines[i], &delim_data);
        let mut segment: Vec<String> = Vec::new();
        let mut j: usize = 0;
        while j < fields.len()
            invariant
                j <= fields.len(),
                segment.deep_view() == pieces_of(fields@).take(j as int),
            decreases fields.len() - j,
        {
            let field = string_of(&fields[j], 0, fields[j].len());
            assert(field@ =~= fields[j as int]@);
            segment.push(field);
            assert(pieces_of(fields@).take(j + 1) =~= pieces_of(fields@).take(j as int).push(
                fields[j as int]@,
            ));
            j = j + 1;
        }
        assert(segment.deep_view() == tokenized(x12@)[i as int]);
        segments.push(segment);
        assert(tokenized(x12@).take(i + 1) =~= tokenized(x12@).take(i as int).push(
            tokenized(x12@)[i as int],
        ));
        i = i + 1;
    }
    assert forall|i: int| 0 <= i < segments.len() implies (#[trigger] segments[i]).len() >= 1 by {
        assert(segments.deep_view()[i].len() == segments[i].len());
    }
    segments
}

} // verus!
