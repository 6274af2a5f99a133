//! The edge-list text format: one edge per line, written as three decimal
//! numbers separated by whitespace, `<u> <v> <w>`.

use crate::error::GraphError;
use crate::graph::Graph;
use crate::model::GraphView;
use crate::model_proofs::lemma_add_edge;
use vstd::prelude::*;

verus! {

/// An ASCII decimal digit.
pub open spec fn is_digit(c: u8) -> bool {
    48 <= c <= 57
}

/// A space, a tab, a carriage return or a line feed.
pub open spec fn is_space(c: u8) -> bool {
    c == 32 || c == 9 || c == 13 || c == 10
}

/// The position after the digits that start at position `i`.
pub open spec fn digits_end(s: Seq<u8>, i: int) -> int
    decreases s.len() - i,
{
    if 0 <= i < s.len() && is_digit(s[i]) {
        digits_end(s, i + 1)
    } else {
        i
    }
}

/// The position after the whitespace that starts at position `i`.
pub open spec fn spaces_end(s: Seq<u8>, i: int) -> int
    decreases s.len() - i,
{
    if 0 <= i < s.len() && is_space(s[i]) {
        spaces_end(s, i + 1)
    } else {
        i
    }
}

/// The number that a sequence of digits denotes.
pub open spec fn decimal(s: Seq<u8>) -> nat
    decreases s.len(),
{
    if s.len() == 0 {
        0
    } else {
        decimal(s.drop_last()) * 10 + (s.last() - 48) as nat
    }
}

/// The edge that a line denotes: digits, whitespace, digits, whitespace,
/// digits, from the start of the line; what follows the third number is not
/// looked at. `None` where a part is missing or a number is out of range.
pub open spec fn edge_line(s: Seq<u8>) -> Option<(i32, i32, i128)> {
    let a = digits_end(s, 0);
    let b = spaces_end(s, a);
    let c = digits_end(s, b);
    let d = spaces_end(s, c);
    let e = digits_end(s, d);
    if 0 < a && a < b && b < c && c < d && d < e && decimal(s.subrange(0, a)) <= i32::MAX
        && decimal(s.subrange(b, c)) <= i32::MAX && decimal(s.subrange(d, e)) <= i128::MAX {
        Some(
            (
                decimal(s.subrange(0, a)) as i32,
                decimal(s.subrange(b, c)) as i32,
                decimal(s.subrange(d, e)) as i128,
            ),
        )
    } else {
        None
    }
}

/// Reads the digits that start at `start`: where they end, and the number
/// they denote unless it is above `limit`.
fn scan_digits(s: &[u8], start: usize, limit: u128) -> (r: (usize, Option<u128>))
    requires
        start <= s@.len(),
        limit <= i128::MAX,
    ensures
        r.0 == digits_end(s@, start as int),
        start <= r.0 <= s@.len(),
        r.1 == if decimal(s@.subrange(start as int, r.0 as int)) <= limit {
            Some(decimal(s@.subrange(start as int, r.0 as int)) as u128)
        } else {
            None::<u128>
        },
{
    let mut i = start;
    let mut acc: Option<u128> = Some(0);
    proof {
        assert(s@.subrange(start as int, start as int).len() == 0);
    }
    while i < s.len() && s[i] >= 48 && s[i] <= 57
        invariant
            start <= i <= s@.len(),
            limit <= i128::MAX,
            digits_end(s@, i as int) == digits_end(s@, start as int),
            acc == if decimal(s@.subrange(start as int, i as int)) <= limit {
                Some(decimal(s@.subrange(start as int, i as int)) as u128)
            } else {
                None::<u128>
            },
        decreases s@.len() - i,
    {
        let d = (s[i] - 48) as u128;
        proof {
            let upto = s@.subrange(start as int, i + 1);
            assert(upto.drop_last() =~= s@.subrange(start as int, i as int));
            assert(upto.last() == s@[i as int]);
        }
        acc = match acc {
            Some(v) => if d <= limit && v <= (limit - d) / 10 {
                Some(v * 10 + d)
            } else {
                None
            },
            None => None,
        };
        i += 1;
    }
    (i, acc)
}

/// Finds where the whitespace that starts at `start` ends.
fn scan_spaces(s: &[u8], start: usize) -> (end: usize)
    requires
        start <= s@.len(),
    ensures
        end == spaces_end(s@, start as int),
        start <= end <= s@.len(),
{
    let mut i = start;
    while i < s.len() && (s[i] == 32 || s[i] == 9 || s[i] == 13 || s[i] == 10)
        invariant
            start <= i <= s@.len(),
            spaces_end(s@, i as int) == spaces_end(s@, start as int),
        decreases s@.len() - i,
    {
        i += 1;
    }
    i
}

/// Parses a line of an edge-weight list.
pub fn parse_edge_weight(line: &[u8]) -> (r: Result<(i32, i32, i128), GraphError>)
    ensures
        r == match edge_line(line@) {
            Some(edge) => Ok::<(i32, i32, i128), GraphError>(edge),
            None => Err::<(i32, i32, i128), GraphError>(GraphError::MalformedEdgeLine),
        },
{
    let (a, x) = scan_digits(line, 0, 0x7fff_ffff);
    let b = scan_spaces(line, a);
    let (c, y) = scan_digits(line, b, 0x7fff_ffff);
    let d = scan_spaces(line, c);
    let (e, z) = scan_digits(line, d, 0x7fff_ffff_ffff_ffff_ffff_ffff_ffff_ffff);
    if 0 < a && a < b && b < c && c < d && d < e {
        match (x, y, z) {
            (Some(u), Some(v), Some(w)) => Ok((u as i32, v as i32, w as i128)),
            _ => Err(GraphError::MalformedEdgeLine),
        }
    } else {
        Err(GraphError::MalformedEdgeLine)
    }
}

/// The graph that results from adding the edges that `lines` denote, in
/// order, to `g`; `None` if one of the lines denotes no edge.
pub open spec fn load(g: GraphView, lines: Seq<Vec<u8>>) -> Option<GraphView>
    decreases lines.len(),
{
    if lines.len() == 0 {
        Some(g)
    } else {
        match edge_line(lines[0]@) {
            Some(e) => load(g.add_edge(e.0, e.1, e.2), lines.drop_first()),
            None => None,
        }
    }
}

/// Builds a graph from the lines of an edge-weight list. One malformed line
/// fails the whole load.
pub fn from_lines_ew(lines: &Vec<Vec<u8>>) -> (r: Result<Graph, GraphError>)
    requires
        lines@.len() <= 0x7fff_ffff,
    ensures
        match load(GraphView::empty(), lines@) {
            Some(g) => r.is_ok() && r.unwrap().wf() && r.unwrap()@ == g,
            None => match r {
                Err(e) => e == GraphError::MalformedEdgeLine,
                Ok(_) => false,
            },
        },
{
    let mut graph = Graph::new();
    let mut i: usize = 0;
    proof {
        assert(lines@.skip(0) =~= lines@);
    }
    while i < lines.len()
        invariant
            0 <= i <= lines@.len(),
            lines@.len() <= 0x7fff_ffff,
            graph.wf(),
            graph@.nodes.len() <= 2 * i,
            graph@.edges.len() <= i,
            load(graph@, lines@.skip(i as int)) == load(GraphView::empty(), lines@),
        decreases lines@.len() - i,
    {
        proof {
            assert(lines@.skip(i as int)[0] == lines@[i as int]);
            assert(lines@.skip(i as int).drop_first() =~= lines@.skip(i + 1));
        }
        let (u, v, w) = match parse_edge_weight(lines[i].as_slice()) {
            Ok(edge) => edge,
            Err(e) => { return Err(e); },
        };
        proof {
            lemma_add_edge(graph@, u, v, w);
        }
        graph.add_edge(u, v, w);
        i += 1;
    }
    Ok(graph)
}

} // verus!
