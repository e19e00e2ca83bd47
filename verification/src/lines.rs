//! The line form of cycles and indices.
//!
//! A line holds pieces of text with four spaces between one piece and the
//! next. A cycle is a line of its edges; an entry of the parallel edge index is
//! the line of its edge and the edges parallel to it; an entry of the incident
//! edge index is a line of the vertex and its edges.

use vstd::prelude::*;
use crate::edge_index::grouped;
use crate::faces::parallel_entries;
use crate::graph::Edge;
use crate::text::{
    chars_of, decimal, edge_of_text, edge_text, lemma_decimal_is_number,
    lemma_edge_text_round_trip, lemma_number_of_decimal, number_of, parse_edge_between,
    parse_number_between, push_decimal, push_edge,
};

verus! {

/// What stands between two pieces of a line: four spaces.
pub open spec fn gap() -> Seq<char> {
    seq![' ', ' ', ' ', ' ']
}

/// `s` begins with four spaces.
pub open spec fn starts_with_gap(s: Seq<char>) -> bool {
    s.len() >= 4 && s[0] == ' ' && s[1] == ' ' && s[2] == ' ' && s[3] == ' '
}

/// `pieces` with `prefix` put before its first piece.
pub open spec fn attach(prefix: Seq<char>, pieces: Seq<Seq<char>>) -> Seq<Seq<char>> {
    pieces.update(0, prefix + pieces[0])
}

/// The pieces of a line: the text between the gaps, where the gaps are found
/// from left to right and do not overlap.
pub open spec fn pieces(s: Seq<char>) -> Seq<Seq<char>>
    decreases s.len(),
{
    if starts_with_gap(s) {
        seq![Seq::empty()] + pieces(s.skip(4))
    } else if s.len() == 0 {
        seq![Seq::empty()]
    } else {
        attach(seq![s[0]], pieces(s.skip(1)))
    }
}

/// The pieces with a gap between one and the next.
pub open spec fn joined(texts: Seq<Seq<char>>) -> Seq<char>
    decreases texts.len(),
{
    if texts.len() == 0 {
        Seq::empty()
    } else if texts.len() == 1 {
        texts[0]
    } else {
        texts[0] + gap() + joined(texts.drop_first())
    }
}

/// The texts of the edges.
pub open spec fn edge_texts(edges: Seq<Edge>) -> Seq<Seq<char>> {
    Seq::new(edges.len(), |i: int| edge_text(edges[i]))
}

/// The line of the edges.
pub open spec fn edges_line(edges: Seq<Edge>) -> Seq<char> {
    joined(edge_texts(edges))
}

/// The line of a vertex and its edges.
pub open spec fn incident_line(v: usize, edges: Seq<Edge>) -> Seq<char> {
    joined(seq![decimal(v as nat)] + edge_texts(edges))
}

/// Every piece writes an edge.
pub open spec fn all_edges(texts: Seq<Seq<char>>) -> bool {
    forall|i: int| 0 <= i < texts.len() ==> edge_of_text(#[trigger] texts[i]) is Some
}

/// The edges that the pieces write, if each of them writes one.
pub open spec fn edges_of_pieces(texts: Seq<Seq<char>>) -> Option<Seq<Edge>> {
    if all_edges(texts) {
        Some(Seq::new(texts.len(), |i: int| edge_of_text(texts[i])->0))
    } else {
        None
    }
}

/// The edges that the line writes, if each of its pieces writes one.
pub open spec fn edges_of_line(s: Seq<char>) -> Option<Seq<Edge>> {
    edges_of_pieces(pieces(s))
}

/// The vertex and the edges that the line writes, if its first piece is a
/// number and each of the others writes an edge.
pub open spec fn incident_of_line(s: Seq<char>) -> Option<(usize, Seq<Edge>)> {
    let texts = pieces(s);
    match (number_of(texts[0]), edges_of_pieces(texts.skip(1))) {
        (Some(v), Some(edges)) => Some((v, edges)),
        _ => None,
    }
}

/// Every space of `s` is followed by a character of `s` that is no space, so
/// that no gap begins in `s`.
pub open spec fn spaces_are_single(s: Seq<char>) -> bool {
    forall|i: int|
        0 <= i < s.len() && #[trigger] s[i] == ' ' ==> i + 1 < s.len() && s[i + 1] != ' '
}

/// A line has at least one piece.
pub proof fn lemma_pieces_nonempty(s: Seq<char>)
    ensures
        pieces(s).len() >= 1,
    decreases s.len(),
{
    if starts_with_gap(s) {
        lemma_pieces_nonempty(s.skip(4));
    } else if s.len() > 0 {
        lemma_pieces_nonempty(s.skip(1));
    }
}

/// Text in which no gap begins, put before a line, lengthens the first piece
/// of the line.
pub proof fn lemma_pieces_after_text(text: Seq<char>, rest: Seq<char>)
    requires
        spaces_are_single(text),
    ensures
        pieces(text + rest) == attach(text, pieces(rest)),
    decreases text.len(),
{
    lemma_pieces_nonempty(rest);
    if text.len() == 0 {
        assert(text + rest =~= rest);
        assert(text + pieces(rest)[0] =~= pieces(rest)[0]);
        assert(attach(text, pieces(rest)) =~= pieces(rest));
    } else {
        let whole = text + rest;
        let tail = text.skip(1);
        assert(whole[0] == text[0]);
        if text[0] == ' ' {
            assert(whole[1] == text[1]);
        }
        assert(!starts_with_gap(whole));
        assert(whole.skip(1) =~= tail + rest);
        assert(spaces_are_single(tail)) by {
            assert forall|i: int| 0 <= i < tail.len() && #[trigger] tail[i] == ' ' implies i + 1
                < tail.len() && tail[i + 1] != ' ' by {
                assert(text[i + 1] == ' ');
            }
        }
        lemma_pieces_after_text(tail, rest);
        assert(seq![text[0]] + (tail + pieces(rest)[0]) =~= text + pieces(rest)[0]);
        assert(attach(seq![text[0]], attach(tail, pieces(rest))) =~= attach(text, pieces(rest)));
    }
}

/// The pieces of joined texts are the texts, where no gap begins in a text.
pub proof fn lemma_pieces_of_joined(texts: Seq<Seq<char>>)
    requires
        texts.len() >= 1,
        forall|i: int| 0 <= i < texts.len() ==> spaces_are_single(#[trigger] texts[i]),
    ensures
        pieces(joined(texts)) == texts,
    decreases texts.len(),
{
    let first = texts[0];
    let none = Seq::<char>::empty();
    if texts.len() == 1 {
        lemma_pieces_after_text(first, none);
        assert(first + none =~= first);
        assert(pieces(none) =~= seq![none]);
        assert(attach(first, seq![none]) =~= texts);
    } else {
        let others = texts.drop_first();
        assert forall|i: int| 0 <= i < others.len() implies spaces_are_single(
            #[trigger] others[i],
        ) by {
            assert(others[i] == texts[i + 1]);
        }
        lemma_pieces_of_joined(others);
        let rest = gap() + joined(others);
        assert(starts_with_gap(rest));
        assert(rest.skip(4) =~= joined(others));
        assert(pieces(rest) == seq![none] + others);
        lemma_pieces_after_text(first, rest);
        assert(first + rest =~= joined(texts));
        assert(first + none =~= first);
        assert(attach(first, seq![none] + others) =~= texts);
    }
}

/// No gap begins in a number.
pub proof fn lemma_decimal_spaces_single(n: nat)
    ensures
        spaces_are_single(decimal(n)),
{
    lemma_decimal_is_number(n);
}

/// No gap begins in the text of an edge.
pub proof fn lemma_edge_text_spaces_single(edge: Edge)
    ensures
        spaces_are_single(edge_text(edge)),
{
    let first = decimal(edge.0 as nat);
    let second = decimal(edge.1 as nat);
    let text = edge_text(edge);
    lemma_decimal_is_number(edge.0 as nat);
    lemma_decimal_is_number(edge.1 as nat);
    assert forall|i: int| 0 <= i < text.len() && #[trigger] text[i] == ' ' implies i + 1
        < text.len() && text[i + 1] != ' ' by {
        if 1 <= i < 1 + first.len() {
            assert(text[i] == first[i - 1]);
        } else if 3 + first.len() <= i < 3 + first.len() + second.len() {
            assert(text[i] == second[i - 3 - first.len()]);
        } else {
            assert(i == 2 + first.len());
            assert(text[i + 1] == second[0]);
        }
    }
}

/// Reading the line of one or more edges gives the edges back.
pub proof fn lemma_edges_line_round_trip(edges: Seq<Edge>)
    requires
        edges.len() >= 1,
    ensures
        edges_of_line(edges_line(edges)) == Some(edges),
{
    let texts = edge_texts(edges);
    assert forall|i: int| 0 <= i < texts.len() implies spaces_are_single(#[trigger] texts[i]) by {
        lemma_edge_text_spaces_single(edges[i]);
    }
    lemma_pieces_of_joined(texts);
    assert forall|i: int| 0 <= i < texts.len() implies edge_of_text(#[trigger] texts[i]) == Some(
        edges[i],
    ) by {
        lemma_edge_text_round_trip(edges[i]);
    }
    assert(edges_of_pieces(texts)->0 =~= edges);
}

/// Reading the line of a vertex and its edges gives both back.
pub proof fn lemma_incident_line_round_trip(v: usize, edges: Seq<Edge>)
    ensures
        incident_of_line(incident_line(v, edges)) == Some((v, edges)),
{
    let texts = seq![decimal(v as nat)] + edge_texts(edges);
    assert forall|i: int| 0 <= i < texts.len() implies spaces_are_single(#[trigger] texts[i]) by {
        if i == 0 {
            lemma_decimal_spaces_single(v as nat);
        } else {
            assert(texts[i] == edge_text(edges[i - 1]));
            lemma_edge_text_spaces_single(edges[i - 1]);
        }
    }
    lemma_pieces_of_joined(texts);
    lemma_number_of_decimal(v);
    assert(texts.skip(1) =~= edge_texts(edges));
    assert forall|i: int| 0 <= i < edges.len() implies edge_of_text(
        #[trigger] edge_texts(edges)[i],
    ) == Some(edges[i]) by {
        lemma_edge_text_round_trip(edges[i]);
    }
    assert(edges_of_pieces(edge_texts(edges))->0 =~= edges);
}

/// Cycles that are written to lines and read back are the same cycles, so
/// every index that is built from what was read is the index that is built
/// from what was written.
pub proof fn lemma_cycles_survive_lines(cycles: Seq<Seq<Edge>>, read: Seq<Seq<Edge>>)
    requires
        forall|k: int| 0 <= k < cycles.len() ==> (#[trigger] cycles[k]).len() >= 1,
        read.len() == cycles.len(),
        forall|k: int|
            0 <= k < cycles.len() ==> edges_of_line(edges_line(cycles[k])) == Some(
                #[trigger] read[k],
            ),
    ensures
        read == cycles,
        parallel_entries(read, read.len() as int) == parallel_entries(cycles, cycles.len() as int),
        grouped(parallel_entries(read, read.len() as int)) == grouped(
            parallel_entries(cycles, cycles.len() as int),
        ),
{
    assert forall|k: int| 0 <= k < cycles.len() implies read[k] == cycles[k] by {
        lemma_edges_line_round_trip(cycles[k]);
    }
    assert(read =~= cycles);
}

/// The texts that `chars` holds between the bounds.
pub open spec fn texts_between(chars: Seq<char>, bounds: Seq<(usize, usize)>) -> Seq<Seq<char>> {
    Seq::new(bounds.len(), |k: int| chars.subrange(bounds[k].0 as int, bounds[k].1 as int))
}

/// The pieces of the line, each by its bounds.
pub(crate) fn piece_bounds(chars: &Vec<char>) -> (bounds: Vec<(usize, usize)>)
    ensures
        bounds@.len() >= 1,
        forall|k: int|
            0 <= k < bounds@.len() ==> (#[trigger] bounds@[k]).0 <= bounds@[k].1 <= chars@.len(),
        texts_between(chars@, bounds@) == pieces(chars@),
{
    let len: usize = chars.len();
    let mut bounds: Vec<(usize, usize)> = Vec::new();
    let mut start: usize = 0;
    let mut i: usize = 0;
    proof {
        lemma_pieces_nonempty(chars@);
        assert(chars@.skip(0) =~= chars@);
        assert(chars@.subrange(0, 0) + pieces(chars@)[0] =~= pieces(chars@)[0]);
        assert(texts_between(chars@, bounds@) + attach(chars@.subrange(0, 0), pieces(chars@))
            =~= pieces(chars@));
    }
    while i < len
        invariant
            len == chars@.len(),
            0 <= start <= i <= len,
            forall|k: int|
                0 <= k < bounds@.len() ==> (#[trigger] bounds@[k]).0 <= bounds@[k].1 <= len,
            pieces(chars@) == texts_between(chars@, bounds@) + attach(
                chars@.subrange(start as int, i as int),
                pieces(chars@.skip(i as int)),
            ),
        decreases len - i,
    {
        let ghost rest = chars@.skip(i as int);
        let ghost open = chars@.subrange(start as int, i as int);
        let ghost closed = texts_between(chars@, bounds@);
        proof {
            assert(rest[0] == chars@[i as int]);
            if len - i >= 4 {
                assert(rest[1] == chars@[i + 1]);
                assert(rest[2] == chars@[i + 2]);
                assert(rest[3] == chars@[i + 3]);
            }
        }
        if len - i >= 4 && chars[i] == ' ' && chars[i + 1] == ' ' && chars[i + 2] == ' ' && chars[i
            + 3] == ' ' {
            bounds.push((start, i));
            proof {
                let after = pieces(chars@.skip(i + 4));
                let none = Seq::<char>::empty();
                lemma_pieces_nonempty(chars@.skip(i + 4));
                assert(rest.skip(4) =~= chars@.skip(i + 4));
                assert(pieces(rest) == seq![none] + after);
                assert(open + none =~= open);
                assert(attach(open, seq![none] + after) =~= seq![open] + after);
                assert(chars@.subrange(i + 4, i + 4) + after[0] =~= after[0]);
                assert(attach(chars@.subrange(i + 4, i + 4), after) =~= after);
                assert(texts_between(chars@, bounds@) =~= closed.push(open));
                assert(closed + (seq![open] + after) =~= closed.push(open) + after);
            }
            start = i + 4;
            i += 4;
        } else {
            proof {
                let after = pieces(chars@.skip(i + 1));
                lemma_pieces_nonempty(chars@.skip(i + 1));
                assert(rest.skip(1) =~= chars@.skip(i + 1));
                assert(!starts_with_gap(rest));
                assert(pieces(rest) == attach(seq![rest[0]], after));
                assert(open + (seq![rest[0]] + after[0]) =~= chars@.subrange(start as int, i + 1)
                    + after[0]);
                assert(attach(open, attach(seq![rest[0]], after)) =~= attach(
                    chars@.subrange(start as int, i + 1),
                    after,
                ));
            }
            i += 1;
        }
    }
    bounds.push((start, len));
    proof {
        let none = Seq::<char>::empty();
        let open = chars@.subrange(start as int, len as int);
        assert(chars@.skip(len as int) =~= none);
        assert(pieces(none) =~= seq![none]);
        assert(open + none =~= open);
        assert(attach(open, seq![none]) =~= seq![open]);
        assert(texts_between(chars@, bounds@) =~= pieces(chars@));
    }
    bounds
}

/// The edges that `chars` writes between each of the bounds from position
/// `from` on, if each of those pieces writes an edge.
fn parse_pieces(chars: &Vec<char>, bounds: &Vec<(usize, usize)>, from: usize) -> (r: Option<
    Vec<Edge>,
>)
    requires
        from <= bounds@.len(),
        forall|k: int|
            0 <= k < bounds@.len() ==> (#[trigger] bounds@[k]).0 <= bounds@[k].1 <= chars@.len(),
    ensures
        match r {
            Some(edges) => edges_of_pieces(texts_between(chars@, bounds@).skip(from as int))
                == Some(edges@),
            None => edges_of_pieces(texts_between(chars@, bounds@).skip(from as int)) is None,
        },
{
    let ghost texts = texts_between(chars@, bounds@).skip(from as int);
    let mut edges: Vec<Edge> = Vec::new();
    let mut k: usize = from;
    while k < bounds.len()
        invariant
            from <= k <= bounds@.len(),
            forall|j: int|
                0 <= j < bounds@.len() ==> (#[trigger] bounds@[j]).0 <= bounds@[j].1
                    <= chars@.len(),
            texts == texts_between(chars@, bounds@).skip(from as int),
            edges@.len() == k - from,
            forall|j: int|
                0 <= j < k - from ==> edge_of_text(#[trigger] texts[j]) == Some(edges@[j]),
        decreases bounds.len() - k,
    {
        let piece: (usize, usize) = bounds[k];
        proof {
            assert(texts[k - from] == chars@.subrange(piece.0 as int, piece.1 as int));
        }
        match parse_edge_between(chars, piece.0, piece.1) {
            Some(edge) => {
                edges.push(edge);
            },
            None => {
                proof {
                    assert(edge_of_text(texts[k - from]) is None);
                }
                return None;
            },
        }
        k += 1;
    }
    proof {
        assert(all_edges(texts));
        assert(edges_of_pieces(texts)->0 =~= edges@);
    }
    Some(edges)
}

/// Reads a line of edges: `None` where a piece of the line writes no edge.
pub fn parse_edges(line: &str) -> (r: Option<Vec<Edge>>)
    ensures
        match r {
            Some(edges) => edges_of_line(line@) == Some(edges@),
            None => edges_of_line(line@) is None,
        },
{
    let chars: Vec<char> = chars_of(line);
    let bounds: Vec<(usize, usize)> = piece_bounds(&chars);
    proof {
        assert(texts_between(chars@, bounds@).skip(0) =~= texts_between(chars@, bounds@));
    }
    parse_pieces(&chars, &bounds, 0)
}

/// Reads a line of a vertex and its edges: `None` where the first piece is no
/// number or another piece writes no edge.
pub fn parse_incident_line(line: &str) -> (r: Option<(usize, Vec<Edge>)>)
    ensures
        match r {
            Some((v, edges)) => incident_of_line(line@) == Some((v, edges@)),
            None => incident_of_line(line@) is None,
        },
{
    let chars: Vec<char> = chars_of(line);
    let bounds: Vec<(usize, usize)> = piece_bounds(&chars);
    let first: (usize, usize) = bounds[0];
    proof {
        assert(texts_between(chars@, bounds@)[0] == chars@.subrange(
            first.0 as int,
            first.1 as int,
        ));
    }
    match parse_number_between(&chars, first.0, first.1) {
        Some(v) => match parse_pieces(&chars, &bounds, 1) {
            Some(edges) => Some((v, edges)),
            None => None,
        },
        None => None,
    }
}

/// The pieces of a line.
pub fn split_line(line: &str) -> (texts: Vec<String>)
    ensures
        texts@.len() == pieces(line@).len(),
        forall|k: int| 0 <= k < texts@.len() ==> (#[trigger] texts@[k])@ == pieces(line@)[k],
{
    let chars: Vec<char> = chars_of(line);
    let bounds: Vec<(usize, usize)> = piece_bounds(&chars);
    let mut texts: Vec<String> = Vec::new();
    let mut k: usize = 0;
    while k < bounds.len()
        invariant
            0 <= k <= bounds@.len(),
            chars@ == line@,
            forall|j: int|
                0 <= j < bounds@.len() ==> (#[trigger] bounds@[j]).0 <= bounds@[j].1
                    <= chars@.len(),
            texts_between(chars@, bounds@) == pieces(line@),
            texts@.len() == k,
            forall|j: int| 0 <= j < k ==> (#[trigger] texts@[j])@ == pieces(line@)[j],
        decreases bounds.len() - k,
    {
        let piece: (usize, usize) = bounds[k];
        proof {
            assert(texts_between(chars@, bounds@)[k as int] == chars@.subrange(
                piece.0 as int,
                piece.1 as int,
            ));
        }
        let mut text: String = String::new();
        text.append(line.substring_char(piece.0, piece.1));
        proof {
            assert(Seq::<char>::empty() + line@.subrange(piece.0 as int, piece.1 as int)
                =~= line@.subrange(piece.0 as int, piece.1 as int));
        }
        texts.push(text);
        k += 1;
    }
    texts
}

/// One more text is joined on after a gap.
proof fn lemma_joined_push(texts: Seq<Seq<char>>, text: Seq<char>)
    requires
        texts.len() >= 1,
    ensures
        joined(texts.push(text)) == joined(texts) + gap() + text,
    decreases texts.len(),
{
    let longer = texts.push(text);
    assert(longer[0] == texts[0]);
    if texts.len() == 1 {
        assert(longer.drop_first() =~= seq![text]);
        assert(joined(seq![text]) == text);
    } else {
        assert(longer.drop_first() =~= texts.drop_first().push(text));
        lemma_joined_push(texts.drop_first(), text);
        assert(texts[0] + gap() + (joined(texts.drop_first()) + gap() + text) =~= (texts[0] + gap()
            + joined(texts.drop_first())) + gap() + text);
    }
}

/// Appends to `out` the texts of the edges, each after a gap.
fn push_edges_after(out: &mut String, edges: &Vec<Edge>, before: Ghost<Seq<Seq<char>>>)
    requires
        before@.len() >= 1,
        old(out)@ == joined(before@),
    ensures
        final(out)@ == joined(before@ + edge_texts(edges@)),
{
    let mut k: usize = 0;
    proof {
        reveal_strlit("    ");
        assert(edge_texts(edges@).take(0) =~= Seq::<Seq<char>>::empty());
        assert(before@ + edge_texts(edges@).take(0) =~= before@);
    }
    while k < edges.len()
        invariant
            0 <= k <= edges.len(),
            before@.len() >= 1,
            "    "@ == gap(),
            out@ == joined(before@ + edge_texts(edges@).take(k as int)),
        decreases edges.len() - k,
    {
        proof {
            let done = before@ + edge_texts(edges@).take(k as int);
            lemma_joined_push(done, edge_text(edges@[k as int]));
            assert(done.push(edge_text(edges@[k as int])) =~= before@ + edge_texts(edges@).take(
                k + 1,
            ));
        }
        out.append("    ");
        push_edge(out, edges[k]);
        k += 1;
    }
    proof {
        assert(edge_texts(edges@).take(k as int) =~= edge_texts(edges@));
    }
}

/// The line of the edges.
pub fn format_edges(edges: &Vec<Edge>) -> (line: String)
    ensures
        line@ == edges_line(edges@),
        edges@.len() >= 1 ==> edges_of_line(line@) == Some(edges@),
{
    let mut line: String = String::new();
    if edges.len() == 0 {
        assert(edge_texts(edges@) =~= Seq::<Seq<char>>::empty());
        return line;
    }
    push_edge(&mut line, edges[0]);
    let mut k: usize = 1;
    proof {
        reveal_strlit("    ");
        assert("    "@ =~= gap());
        assert(Seq::<char>::empty() + edge_text(edges@[0]) =~= edge_text(edges@[0]));
        assert(edge_texts(edges@).take(1) =~= seq![edge_text(edges@[0])]);
    }
    while k < edges.len()
        invariant
            1 <= k <= edges.len(),
            "    "@ == gap(),
            line@ == joined(edge_texts(edges@).take(k as int)),
        decreases edges.len() - k,
    {
        proof {
            let done = edge_texts(edges@).take(k as int);
            lemma_joined_push(done, edge_text(edges@[k as int]));
            assert(done.push(edge_text(edges@[k as int])) =~= edge_texts(edges@).take(k + 1));
        }
        line.append("    ");
        push_edge(&mut line, edges[k]);
        k += 1;
    }
    proof {
        assert(edge_texts(edges@).take(k as int) =~= edge_texts(edges@));
        lemma_edges_line_round_trip(edges@);
    }
    line
}

/// The line of a vertex and its edges.
pub fn format_incident_line(v: usize, edges: &Vec<Edge>) -> (line: String)
    ensures
        line@ == incident_line(v, edges@),
        incident_of_line(line@) == Some((v, edges@)),
{
    let mut line: String = String::new();
    push_decimal(&mut line, v);
    proof {
        assert(Seq::<char>::empty() + decimal(v as nat) =~= decimal(v as nat));
        assert(joined(seq![decimal(v as nat)]) == decimal(v as nat));
    }
    let ghost head: Seq<Seq<char>> = seq![decimal(v as nat)];
    push_edges_after(&mut line, edges, Ghost(head));
    proof {
        lemma_incident_line_round_trip(v, edges@);
    }
    line
}

} // verus!
