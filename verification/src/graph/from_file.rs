//! Graphs from a text in which the first line holds the number of vertices and every
//! other line an edge: the ids of its ends and what else belongs to the edge,
//! separated by tabs.

use vstd::prelude::*;
use vstd::slice::slice_subrange;
use vstd::string::StringExecFns;
use crate::text::{decimal, decimal_text};
use super::batch::batch_result;
use super::error::GraphError;
use super::graph::Graph;
use super::graph_structs::Vertex;
use super::traits::GraphBase;

verus! {

/// The pieces of `s` from `start` on that `sep` separates, `i` being how far `s`
/// has been looked at.
pub open spec fn pieces(s: Seq<u8>, sep: u8, start: int, i: int) -> Seq<Seq<u8>>
    decreases s.len() - i,
{
    if i >= s.len() {
        seq![s.subrange(start, s.len() as int)]
    } else if s[i] == sep {
        seq![s.subrange(start, i)] + pieces(s, sep, i + 1, i + 1)
    } else {
        pieces(s, sep, start, i + 1)
    }
}

/// The pieces of `s` that `sep` separates; one more than `s` holds separators.
pub open spec fn split_at(s: Seq<u8>, sep: u8) -> Seq<Seq<u8>> {
    pieces(s, sep, 0, 0)
}

/// What the slices hold.
pub open spec fn views(slices: Seq<&[u8]>) -> Seq<Seq<u8>> {
    Seq::new(slices.len(), |i: int| slices[i]@)
}

/// The line without the carriage return at its end, if it has one.
pub open spec fn without_cr(line: Seq<u8>) -> Seq<u8> {
    if line.len() > 0 && line.last() == 13 {
        line.drop_last()
    } else {
        line
    }
}

/// The lines without the empty lines at their end.
pub open spec fn trimmed(lines: Seq<Seq<u8>>) -> Seq<Seq<u8>>
    decreases lines.len(),
{
    if lines.len() > 0 && lines.last().len() == 0 {
        trimmed(lines.drop_last())
    } else {
        lines
    }
}

/// The lines of a text: what line feeds separate, each without the carriage return
/// at its end, and without the empty lines at the end of the text.
pub open spec fn lines_of(text: Seq<u8>) -> Seq<Seq<u8>> {
    trimmed(split_at(text, 10).map_values(|line: Seq<u8>| without_cr(line)))
}

/// The number that decimal digits stand for.
pub open spec fn digits_value(digits: Seq<u8>) -> nat
    decreases digits.len(),
{
    if digits.len() == 0 {
        0
    } else {
        digits_value(digits.drop_last()) * 10 + (digits.last() - 48) as nat
    }
}

/// The digits of a number: the token without the plus sign that it may begin with.
pub open spec fn digits_of(token: Seq<u8>) -> Seq<u8> {
    if token.len() > 0 && token[0] == 43 {
        token.skip(1)
    } else {
        token
    }
}

/// The number that a token stands for: decimal digits, at least one, after a plus
/// sign or none, that stand for a number within `usize`.
pub open spec fn number(token: Seq<u8>) -> Option<usize> {
    let digits = digits_of(token);
    if digits.len() > 0 && (forall|i: int| 0 <= i < digits.len() ==> 48 <= #[trigger] digits[i] <= 57)
        && digits_value(digits) <= usize::MAX {
        Some(digits_value(digits) as usize)
    } else {
        None
    }
}

/// More digits stand for no smaller number.
pub proof fn lemma_digits_grow(digits: Seq<u8>, n: int)
    requires
        0 <= n <= digits.len(),
        forall|i: int| 0 <= i < digits.len() ==> 48 <= #[trigger] digits[i] <= 57,
    ensures
        digits_value(digits.take(n)) <= digits_value(digits),
    decreases digits.len() - n,
{
    if n < digits.len() {
        lemma_digits_grow(digits, n + 1);
        assert(digits.take(n + 1).drop_last() =~= digits.take(n));
        assert(digits_value(digits.take(n)) * 10 >= digits_value(digits.take(n))) by (nonlinear_arith);
    } else {
        assert(digits.take(n) =~= digits);
    }
}

/// The pieces of `text` that `separator` separates.
pub fn split<'a>(text: &'a [u8], separator: u8) -> (r: Vec<&'a [u8]>)
    ensures
        views(r@) == split_at(text@, separator),
        r.len() > 0,
{
    let mut result: Vec<&'a [u8]> = Vec::new();
    let mut start: usize = 0;
    let mut i: usize = 0;
    while i < text.len()
        invariant
            0 <= start <= i <= text.len(),
            split_at(text@, separator) == views(result@) + pieces(
                text@,
                separator,
                start as int,
                i as int,
            ),
        decreases text.len() - i,
    {
        if text[i] == separator {
            let ghost before = result@;
            result.push(slice_subrange(text, start, i));
            proof {
                assert(views(result@) =~= views(before) + seq![text@.subrange(start as int, i as int)]);
                assert(views(before) + (seq![text@.subrange(start as int, i as int)] + pieces(
                    text@,
                    separator,
                    i + 1,
                    i + 1,
                )) =~= views(result@) + pieces(text@, separator, i + 1, i + 1));
            }
            start = i + 1;
        }
        i += 1;
    }
    let ghost before = result@;
    result.push(slice_subrange(text, start, text.len()));
    proof {
        assert(views(result@) =~= views(before) + seq![
            text@.subrange(start as int, text@.len() as int),
        ]);
    }
    result
}

/// The lines of a text.
pub fn lines<'a>(text: &'a [u8]) -> (r: Vec<&'a [u8]>)
    ensures
        views(r@) == lines_of(text@),
{
    let raw = split(text, 10);
    let ghost whole = split_at(text@, 10).map_values(|line: Seq<u8>| without_cr(line));
    let mut result: Vec<&'a [u8]> = Vec::new();
    let mut i: usize = 0;
    while i < raw.len()
        invariant
            0 <= i <= raw.len(),
            views(raw@) == split_at(text@, 10),
            whole == split_at(text@, 10).map_values(|line: Seq<u8>| without_cr(line)),
            views(result@) == whole.take(i as int),
        decreases raw.len() - i,
    {
        let line = raw[i];
        let ghost before = result@;
        proof {
            assert(views(raw@)[i as int] == line@);
        }
        if line.len() > 0 && line[line.len() - 1] == 13 {
            result.push(slice_subrange(line, 0, line.len() - 1));
        } else {
            result.push(line);
        }
        proof {
            assert(views(result@) =~= views(before).push(without_cr(line@)));
            assert(whole.take(i + 1) =~= whole.take(i as int).push(whole[i as int]));
        }
        i += 1;
    }
    proof {
        assert(whole.take(raw.len() as int) =~= whole);
    }
    // The empty lines at the end do not count.
    while result.len() > 0 && result[result.len() - 1].len() == 0
        invariant
            trimmed(views(result@)) == trimmed(whole),
        decreases result.len(),
    {
        let ghost before = result@;
        result.pop();
        proof {
            assert(views(before).last() == before[before.len() - 1]@);
            assert(views(result@) =~= views(before).drop_last());
        }
    }
    proof {
        if result.len() > 0 {
            assert(views(result@).last() == result[result.len() - 1]@);
        }
    }
    result
}

/// The number that a token stands for.
pub fn parse_number(token: &[u8]) -> (r: Option<usize>)
    ensures
        r == number(token@),
{
    let start: usize = if token.len() > 0 && token[0] == 43 {
        1
    } else {
        0
    };
    let ghost digits = digits_of(token@);
    if start == token.len() {
        return None;
    }
    let mut value: usize = 0;
    let mut i: usize = start;
    while i < token.len()
        invariant
            start <= i <= token.len(),
            start <= 1,
            digits == token@.skip(start as int),
            digits == digits_of(token@),
            forall|k: int| 0 <= k < i - start ==> 48 <= #[trigger] digits[k] <= 57,
            value == digits_value(digits.take(i - start)),
        decreases token.len() - i,
    {
        let c = token[i];
        proof {
            assert(digits[i - start] == c);
        }
        if c < 48 || c > 57 {
            return None;
        }
        let d = (c - 48) as usize;
        proof {
            assert(digits.take(i - start + 1).drop_last() =~= digits.take(i - start));
            assert(digits.take(i - start + 1).last() == c);
        }
        if value > (usize::MAX - d) / 10 {
            proof {
                let ghost longer = digits_value(digits.take(i - start + 1));
                assert(longer > usize::MAX) by (nonlinear_arith)
                    requires
                        longer == value * 10 + d,
                        value > (usize::MAX - d) / 10,
                        d <= 9,
                ;
                if forall|k: int| 0 <= k < digits.len() ==> 48 <= #[trigger] digits[k] <= 57 {
                    lemma_digits_grow(digits, i - start + 1);
                }
            }
            return None;
        }
        proof {
            assert(value * 10 + d <= usize::MAX) by (nonlinear_arith)
                requires
                    value <= (usize::MAX - d) / 10,
                    d <= 9,
            ;
        }
        value = value * 10 + d;
        i += 1;
    }
    proof {
        assert(digits.take(digits.len() as int) =~= digits);
    }
    Some(value)
}

/// What is wrong with the line of an edge.
pub enum LineFlaw {
    /// The first column is no number.
    FromNumber,
    /// The line has one column only.
    MissingTo,
    /// The second column is no number.
    ToNumber,
    /// An end of the edge is not below the number of vertices.
    OutOfRange,
}

/// What is wrong with the line of an edge in a graph of `n` vertices, if anything.
pub open spec fn line_flaw(line: Seq<u8>, n: usize) -> Option<LineFlaw> {
    let columns = split_at(line, 9);
    if number(columns[0]) is None {
        Some(LineFlaw::FromNumber)
    } else if columns.len() < 2 {
        Some(LineFlaw::MissingTo)
    } else if number(columns[1]) is None {
        Some(LineFlaw::ToNumber)
    } else if number(columns[0])->Some_0 >= n || number(columns[1])->Some_0 >= n {
        Some(LineFlaw::OutOfRange)
    } else {
        None
    }
}

/// The first of the lines from the second up to the `upto`-th that has something
/// wrong with it; `upto` where none has.
pub open spec fn first_flawed(lines: Seq<Seq<u8>>, n: usize, upto: int) -> int
    decreases upto,
{
    if upto <= 1 {
        upto
    } else {
        let k = first_flawed(lines, n, upto - 1);
        if k < upto - 1 {
            k
        } else if line_flaw(lines[upto - 1], n) is Some {
            upto - 1
        } else {
            upto
        }
    }
}

/// A flaw among the first lines stays the first flaw.
pub proof fn lemma_flaw_stays(lines: Seq<Seq<u8>>, n: usize, found: int, upto: int)
    requires
        1 <= found <= upto,
        first_flawed(lines, n, found) < found,
    ensures
        first_flawed(lines, n, upto) == first_flawed(lines, n, found),
    decreases upto - found,
{
    if found < upto {
        lemma_flaw_stays(lines, n, found, upto - 1);
    }
}

/// The text of the error for a flaw in the line of an edge.
pub open spec fn line_error(line: Seq<u8>, n: usize, e: GraphError) -> bool {
    let columns = split_at(line, 9);
    match line_flaw(line, n) {
        Some(LineFlaw::FromNumber) => e matches GraphError::ParseError(msg) && msg@
            == "Cannot parse \"from\" vertex"@,
        Some(LineFlaw::MissingTo) => e matches GraphError::InvalidFormat(msg) && msg@
            == "Missing 'to' vertex id in edge definition"@,
        Some(LineFlaw::ToNumber) => e matches GraphError::ParseError(msg) && msg@
            == "Cannot parse \"to\" vertex"@,
        Some(LineFlaw::OutOfRange) => e matches GraphError::InvalidFormat(msg) && msg@
            == "Vertex ID out of range: expected 0-"@ + decimal_text((n - 1) as nat) + ", got "@
            + decimal_text(number(columns[0])->Some_0 as nat) + " or "@ + decimal_text(
            number(columns[1])->Some_0 as nat,
        ),
        None => false,
    }
}

/// The error for a text that is no description of a graph: for the first thing that
/// is wrong with it.
pub open spec fn text_error(text: Seq<u8>, e: GraphError) -> bool {
    let lines = lines_of(text);
    if lines.len() == 0 {
        e matches GraphError::InvalidFormat(msg) && msg@
            == "The file must contain at least one line with the number of edges"@
    } else if number(lines[0]) is None {
        e matches GraphError::ParseError(msg) && msg@ == "Cannot parse number of vertices (1st line)"@
    } else if number(lines[0])->Some_0 == 0 {
        e matches GraphError::InvalidFormat(msg) && msg@ == "Number of vertices must be greater than 0"@
    } else {
        let n = number(lines[0])->Some_0;
        let k = first_flawed(lines, n, lines.len() as int);
        if k < lines.len() {
            line_error(lines[k], n, e)
        } else {
            lines.len() == 1 && (e matches GraphError::InvalidFormat(msg) && msg@
                == "No edges found in file"@)
        }
    }
}

/// The text describes a graph: a number of vertices above 0, and at least one edge
/// between vertices below that number.
pub open spec fn text_ok(text: Seq<u8>) -> bool {
    let lines = lines_of(text);
    &&& lines.len() >= 2
    &&& number(lines[0]) is Some
    &&& number(lines[0])->Some_0 > 0
    &&& first_flawed(lines, number(lines[0])->Some_0, lines.len() as int) == lines.len()
}

/// The edge that a line without flaw describes: its ends and its other columns.
pub open spec fn line_edge(line: Seq<u8>) -> (usize, usize, Seq<Seq<u8>>) {
    let columns = split_at(line, 9);
    (number(columns[0])->Some_0, number(columns[1])->Some_0, columns.skip(2))
}

/// The edge `got` is the edge that `line` describes.
pub open spec fn edge_read(got: (usize, usize, Vec<&[u8]>), line: Seq<u8>) -> bool {
    got.0 == line_edge(line).0 && got.1 == line_edge(line).1 && views(got.2@) == line_edge(line).2
}

/// The number of vertices and the edges that a text describes.
pub fn parse_hoever<'a>(contents: &'a [u8]) -> (r: Result<
    (usize, Vec<(usize, usize, Vec<&'a [u8]>)>),
    GraphError,
>)
    ensures
        r is Ok <==> text_ok(contents@),
        match r {
            Ok((n, edges)) => {
                let lines = lines_of(contents@);
                &&& n == number(lines[0])->Some_0
                &&& edges.len() == lines.len() - 1
                &&& forall|i: int| 0 <= i < edges.len() ==> edge_read(#[trigger] edges[i], lines[i + 1])
                &&& forall|i: int| 0 <= i < edges.len() ==> (#[trigger] edges[i]).0 < n && edges[i].1 < n
            },
            Err(e) => text_error(contents@, e),
        },
{
    let all = lines(contents);
    let ghost texts = lines_of(contents@);
    if all.len() == 0 {
        return Err(
            GraphError::InvalidFormat(
                String::from_str("The file must contain at least one line with the number of edges"),
            ),
        );
    }
    proof {
        assert(views(all@)[0] == all[0]@);
    }
    let n_vertices = match parse_number(all[0]) {
        Some(n) => n,
        None => {
            return Err(
                GraphError::ParseError(String::from_str("Cannot parse number of vertices (1st line)")),
            );
        },
    };
    if n_vertices == 0 {
        return Err(
            GraphError::InvalidFormat(String::from_str("Number of vertices must be greater than 0")),
        );
    }
    let mut edges: Vec<(usize, usize, Vec<&'a [u8]>)> = Vec::new();
    let mut i: usize = 1;
    while i < all.len()
        invariant
            1 <= i <= all.len(),
            texts == lines_of(contents@),
            views(all@) == texts,
            n_vertices > 0,
            number(texts[0]) == Some(n_vertices),
            first_flawed(texts, n_vertices, i as int) == i,
            edges.len() == i - 1,
            forall|k: int| 0 <= k < edges.len() ==> edge_read(#[trigger] edges[k], texts[k + 1]),
            forall|k: int|
                0 <= k < edges.len() ==> (#[trigger] edges[k]).0 < n_vertices && edges[k].1
                    < n_vertices,
        decreases all.len() - i,
    {
        let line = all[i];
        proof {
            assert(views(all@)[i as int] == line@);
        }
        let columns = split(line, 9);
        proof {
            assert(views(columns@)[0] == columns[0]@);
        }
        let from = match parse_number(columns[0]) {
            Some(v) => v,
            None => {
                proof {
                    lemma_flaw_stays(texts, n_vertices, i + 1, all.len() as int);
                }
                return Err(GraphError::ParseError(String::from_str("Cannot parse \"from\" vertex")));
            },
        };
        if columns.len() < 2 {
            proof {
                lemma_flaw_stays(texts, n_vertices, i + 1, all.len() as int);
            }
            return Err(
                GraphError::InvalidFormat(String::from_str("Missing 'to' vertex id in edge definition")),
            );
        }
        proof {
            assert(views(columns@)[1] == columns[1]@);
        }
        let to = match parse_number(columns[1]) {
            Some(v) => v,
            None => {
                proof {
                    lemma_flaw_stays(texts, n_vertices, i + 1, all.len() as int);
                }
                return Err(GraphError::ParseError(String::from_str("Cannot parse \"to\" vertex")));
            },
        };
        if from >= n_vertices || to >= n_vertices {
            proof {
                lemma_flaw_stays(texts, n_vertices, i + 1, all.len() as int);
            }
            let mut message = String::from_str("Vertex ID out of range: expected 0-");
            message.append(decimal(n_vertices - 1).as_str());
            message.append(", got ");
            message.append(decimal(from).as_str());
            message.append(" or ");
            message.append(decimal(to).as_str());
            return Err(GraphError::InvalidFormat(message));
        }
        // What is left of the line belongs to the edge.
        let mut rest: Vec<&'a [u8]> = Vec::new();
        let mut c: usize = 2;
        while c < columns.len()
            invariant
                2 <= c <= columns.len(),
                views(rest@) == views(columns@).subrange(2, c as int),
            decreases columns.len() - c,
        {
            let ghost before = rest@;
            rest.push(columns[c]);
            proof {
                assert(views(columns@)[c as int] == columns[c as int]@);
                assert(views(rest@) =~= views(before).push(columns[c as int]@));
                assert(views(columns@).subrange(2, c + 1) =~= views(columns@).subrange(
                    2,
                    c as int,
                ).push(views(columns@)[c as int]));
            }
            c += 1;
        }
        proof {
            assert(views(columns@).subrange(2, columns.len() as int) =~= views(columns@).skip(2));
        }
        edges.push((from, to, rest));
        i += 1;
    }
    if edges.len() == 0 {
        return Err(GraphError::InvalidFormat(String::from_str("No edges found in file")));
    }
    Ok((n_vertices, edges))
}

/// The vertices and edges that the builders make of what a text describes: a
/// vertex for each number below the number of vertices, and for each line of an
/// edge the edge that `edge_builder` makes of its other columns.
pub open spec fn built_from<V, E, VertexFn: Fn(usize) -> V, EdgeFn: Fn(Vec<&[u8]>) -> E>(
    text: Seq<u8>,
    vertex_builder: VertexFn,
    edge_builder: EdgeFn,
    vertices: Seq<V>,
    edges: Seq<(usize, usize, E)>,
) -> bool {
    let lines = lines_of(text);
    &&& vertices.len() == number(lines[0])->Some_0
    &&& forall|i: int|
        0 <= i < vertices.len() ==> call_ensures(vertex_builder, (i as usize,), #[trigger] vertices[i])
    &&& edges.len() == lines.len() - 1
    &&& forall|i: int|
        0 <= i < edges.len() ==> {
            &&& (#[trigger] edges[i]).0 == line_edge(lines[i + 1]).0
            &&& edges[i].1 == line_edge(lines[i + 1]).1
            &&& exists|columns: Vec<&[u8]>|
                views(columns@) == line_edge(lines[i + 1]).2 && #[trigger] call_ensures(
                    edge_builder,
                    (columns,),
                    edges[i].2,
                )
        }
}

impl<Backend: GraphBase> Graph<Backend> where Backend::Vertex: Copy, Backend::Edge: Copy {
    /// The graph that a text describes: its first line holds the number of vertices,
    /// and `vertex_builder` makes the vertex for each number below it; every other
    /// line holds an edge, the ids of its ends in the first two columns, and
    /// `edge_builder` makes its payload of the other columns. Where the text is no
    /// such description, the error says what is wrong with it first.
    pub fn from_hoever_file<VertexFn, EdgeFn>(
        contents: &[u8],
        vertex_builder: VertexFn,
        edge_builder: EdgeFn,
    ) -> (r: Result<Self, GraphError>) where
        VertexFn: Fn(usize) -> Backend::Vertex,
        EdgeFn: Fn(Vec<&[u8]>) -> Backend::Edge,

        requires
            forall|id: usize| call_requires(vertex_builder, (id,)),
            forall|columns: Vec<&[u8]>| call_requires(edge_builder, (columns,)),
        ensures
            !text_ok(contents@) ==> r is Err && text_error(contents@, r->Err_0),
            text_ok(contents@) ==> exists|
                vertices: Seq<Backend::Vertex>,
                edges: Seq<(usize, usize, Backend::Edge)>,
            |
                #[trigger] built_from(contents@, vertex_builder, edge_builder, vertices, edges)
                    && batch_result::<Backend>(vertices, edges, r),
    {
        let (n_vertices, lines) = match parse_hoever(contents) {
            Ok(parsed) => parsed,
            Err(e) => {
                return Err(e);
            },
        };
        let ghost texts = lines_of(contents@);
        let mut edges: Vec<(usize, usize, Backend::Edge)> = Vec::new();
        let mut k: usize = 0;
        let count = lines.len();
        let mut lines = lines;
        // The edges, from the last line to the first.
        let mut reversed: Vec<(usize, usize, Backend::Edge)> = Vec::new();
        let ghost all = lines@;
        let ghost mut given: Seq<Vec<&[u8]>> = Seq::empty();
        while lines.len() > 0
            invariant
                lines@ == all.take(lines.len() as int),
                reversed.len() == all.len() - lines.len(),
                given.len() == reversed.len(),
                all.len() == count,
                texts.len() == all.len() + 1,
                forall|columns: Vec<&[u8]>| call_requires(edge_builder, (columns,)),
                forall|i: int| 0 <= i < all.len() ==> edge_read(#[trigger] all[i], texts[i + 1]),
                forall|i: int|
                    0 <= i < reversed.len() ==> {
                        let at = all.len() - 1 - i;
                        &&& (#[trigger] reversed[i]).0 == line_edge(texts[at + 1]).0
                        &&& reversed[i].1 == line_edge(texts[at + 1]).1
                        &&& views(given[i]@) == line_edge(texts[at + 1]).2
                        &&& call_ensures(edge_builder, (given[i],), reversed[i].2)
                    },
            decreases lines.len(),
        {
            let ghost at = lines.len() - 1;
            let ghost before = reversed@;
            let ghost given_before = given;
            match lines.pop() {
                Some((from, to, columns)) => {
                    proof {
                        assert(all[at] == (from, to, columns));
                        assert(edge_read(all[at], texts[at + 1]));
                        given = given.push(columns);
                    }
                    let edge = edge_builder(columns);
                    reversed.push((from, to, edge));
                    proof {
                        assert forall|i: int| 0 <= i < reversed.len() implies {
                            let at = all.len() - 1 - i;
                            &&& (#[trigger] reversed[i]).0 == line_edge(texts[at + 1]).0
                            &&& reversed[i].1 == line_edge(texts[at + 1]).1
                            &&& views(given[i]@) == line_edge(texts[at + 1]).2
                            &&& call_ensures(edge_builder, (given[i],), reversed[i].2)
                        } by {
                            if i < before.len() {
                                assert(reversed[i] == before[i]);
                                assert(given[i] == given_before[i]);
                            }
                        }
                    }
                },
                None => {},
            }
        }
        while k < count
            invariant
                0 <= k <= count,
                reversed.len() == count,
                edges.len() == k,
                forall|i: int| 0 <= i < k ==> #[trigger] edges[i] == reversed[count - 1 - i],
            decreases count - k,
        {
            edges.push(reversed[count - 1 - k]);
            k += 1;
        }
        // The vertices by number.
        let mut vertices: Vec<Backend::Vertex> = Vec::new();
        let mut id: usize = 0;
        while id < n_vertices
            invariant
                0 <= id <= n_vertices,
                vertices.len() == id,
                forall|id: usize| call_requires(vertex_builder, (id,)),
                forall|i: int|
                    0 <= i < vertices.len() ==> call_ensures(
                        vertex_builder,
                        (i as usize,),
                        #[trigger] vertices[i],
                    ),
            decreases n_vertices - id,
        {
            vertices.push(vertex_builder(id));
            id += 1;
        }
        proof {
            assert forall|i: int| 0 <= i < edges.len() implies {
                &&& (#[trigger] edges[i]).0 == line_edge(texts[i + 1]).0
                &&& edges[i].1 == line_edge(texts[i + 1]).1
                &&& exists|columns: Vec<&[u8]>|
                    views(columns@) == line_edge(texts[i + 1]).2 && #[trigger] call_ensures(
                        edge_builder,
                        (columns,),
                        edges[i].2,
                    )
            } by {
                let j = count - 1 - i;
                assert(edges[i] == reversed[j]);
                assert(all.len() - 1 - j == i);
                assert(views(given[j]@) == line_edge(texts[i + 1]).2 && call_ensures(
                    edge_builder,
                    (given[j],),
                    edges[i].2,
                ));
            }
            assert(built_from(contents@, vertex_builder, edge_builder, vertices@, edges@));
        }
        Self::from_vertices_and_edges(vertices, edges)
    }
}

impl<Backend: GraphBase<Vertex = Vertex>> Graph<Backend> where Backend::Edge: Copy {
    /// The graph that a text describes, with vertices that carry nothing but their
    /// numbers.
    pub fn from_hoever_file_with_weights<EdgeFn>(contents: &[u8], edge_builder: EdgeFn) -> (r: Result<
        Self,
        GraphError,
    >) where EdgeFn: Fn(Vec<&[u8]>) -> Backend::Edge
        requires
            forall|columns: Vec<&[u8]>| call_requires(edge_builder, (columns,)),
        ensures
            !text_ok(contents@) ==> r is Err && text_error(contents@, r->Err_0),
            text_ok(contents@) ==> exists|vertices: Seq<Vertex>, edges: Seq<(usize, usize, Backend::Edge)>|
                #[trigger] numbered(contents@, edge_builder, vertices, edges) && batch_result::<Backend>(
                    vertices,
                    edges,
                    r,
                ),
    {
        let vertex_builder = |id: usize| -> (v: Vertex)
            ensures
                v.id == id,
            { Vertex { id } };
        let r = Self::from_hoever_file(contents, vertex_builder, edge_builder);
        proof {
            if text_ok(contents@) {
                let (vertices, edges) = choose|
                    vertices: Seq<Vertex>,
                    edges: Seq<(usize, usize, Backend::Edge)>,
                |
                    #[trigger] built_from(contents@, vertex_builder, edge_builder, vertices, edges)
                        && batch_result::<Backend>(vertices, edges, r);
                assert(numbered(contents@, edge_builder, vertices, edges));
            }
        }
        r
    }
}

/// As `built_from`, with the vertex of each number carrying that number as its id.
pub open spec fn numbered<E, EdgeFn: Fn(Vec<&[u8]>) -> E>(
    text: Seq<u8>,
    edge_builder: EdgeFn,
    vertices: Seq<Vertex>,
    edges: Seq<(usize, usize, E)>,
) -> bool {
    let lines = lines_of(text);
    &&& vertices.len() == number(lines[0])->Some_0
    &&& forall|i: int| 0 <= i < vertices.len() ==> (#[trigger] vertices[i]).id == i
    &&& edges.len() == lines.len() - 1
    &&& forall|i: int|
        0 <= i < edges.len() ==> {
            &&& (#[trigger] edges[i]).0 == line_edge(lines[i + 1]).0
            &&& edges[i].1 == line_edge(lines[i + 1]).1
            &&& exists|columns: Vec<&[u8]>|
                views(columns@) == line_edge(lines[i + 1]).2 && #[trigger] call_ensures(
                    edge_builder,
                    (columns,),
                    edges[i].2,
                )
        }
}

impl<Backend: GraphBase<Vertex = Vertex, Edge = ()>> Graph<Backend> {
    /// The graph that a text describes, with vertices that carry nothing but their
    /// numbers and edges that carry nothing.
    pub fn from_hoever_file_default(contents: &[u8]) -> (r: Result<Self, GraphError>)
        ensures
            !text_ok(contents@) ==> r is Err && text_error(contents@, r->Err_0),
            text_ok(contents@) ==> exists|vertices: Seq<Vertex>, edges: Seq<(usize, usize, ())>|
                #[trigger] plain(contents@, vertices, edges) && batch_result::<Backend>(
                    vertices,
                    edges,
                    r,
                ),
    {
        let edge_builder = |columns: Vec<&[u8]>| -> (e: ()) { () };
        let r = Self::from_hoever_file_with_weights(contents, edge_builder);
        proof {
            if text_ok(contents@) {
                let (vertices, edges) = choose|vertices: Seq<Vertex>, edges: Seq<(usize, usize, ())>|
                    #[trigger] numbered(contents@, edge_builder, vertices, edges) && batch_result::<
                        Backend,
                    >(vertices, edges, r);
                assert(plain(contents@, vertices, edges));
            }
        }
        r
    }
}

/// The vertices by number and the edges by line.
pub open spec fn plain(text: Seq<u8>, vertices: Seq<Vertex>, edges: Seq<(usize, usize, ())>) -> bool {
    let lines = lines_of(text);
    &&& vertices.len() == number(lines[0])->Some_0
    &&& forall|i: int| 0 <= i < vertices.len() ==> (#[trigger] vertices[i]).id == i
    &&& edges.len() == lines.len() - 1
    &&& forall|i: int|
        0 <= i < edges.len() ==> (#[trigger] edges[i]).0 == line_edge(lines[i + 1]).0 && edges[i].1
            == line_edge(lines[i + 1]).1
}

} // verus!
