//! A test case: one graph, one start node and the queries put to it; read
//! from lines of text and answered as lines of text.
//!
//! A case starts with a header line of four numbers: nodes, edges, queries
//! and the start node. One line per edge follows, with source, target and
//! weight, and then one line per query, with the target alone. A header of
//! four zeros ends the input.

use vstd::prelude::*;
use vstd::string::StringExecFns;
use crate::graph::{Edge, Graph, GraphError, Neighbor, answers, endpoints_below, grouped};
use crate::text::{
    chars_of, decimal, fields, parse_i32, parse_i32_spec, parse_u16, parse_u16_spec, push_decimal,
    split_fields, texts_of,
};

verus! {

/// Why a test case could not be read.
#[derive(Clone, Copy, Debug, PartialEq, Eq)]
pub enum InputError {
    /// A field that should hold a number does not.
    InvalidNumber,
    /// An edge names a node that the graph does not have.
    InvalidNodeIndex,
}

/// What an input error says in words.
pub open spec fn input_error_text(error: InputError) -> Seq<char> {
    match error {
        InputError::InvalidNumber => "invalid number"@,
        InputError::InvalidNodeIndex => "invalid node index"@,
    }
}

impl InputError {
    /// The error in words.
    pub fn message(&self) -> (text: &'static str)
        ensures
            text@ == input_error_text(*self),
    {
        match self {
            InputError::InvalidNumber => "invalid number",
            InputError::InvalidNodeIndex => "invalid node index",
        }
    }
}

/// What reading one item gives: the item, nothing because the input ends
/// before it, or a field that is no number.
pub enum Read<T> {
    Value(T),
    Missing,
    Invalid,
}

/// The four numbers of a header line.
pub struct Header {
    pub num_nodes: u16,
    pub num_edges: i32,
    pub num_queries: i32,
    pub start_node: u16,
}

/// Field `k` read as a `u16`.
pub open spec fn field_u16(fs: Seq<Seq<char>>, k: int) -> Read<u16> {
    if k >= fs.len() {
        Read::Missing
    } else {
        match parse_u16_spec(fs[k]) {
            Some(x) => Read::Value(x),
            None => Read::Invalid,
        }
    }
}

/// Field `k` read as an `i32`.
pub open spec fn field_i32(fs: Seq<Seq<char>>, k: int) -> Read<i32> {
    if k >= fs.len() {
        Read::Missing
    } else {
        match parse_i32_spec(fs[k]) {
            Some(x) => Read::Value(x),
            None => Read::Invalid,
        }
    }
}

/// Reads on with `next` where `first` gave a value, and stops where it did not.
pub open spec fn and_then<A, B>(first: Read<A>, next: spec_fn(A) -> Read<B>) -> Read<B> {
    match first {
        Read::Value(a) => next(a),
        Read::Missing => Read::Missing,
        Read::Invalid => Read::Invalid,
    }
}

/// The header that a line holds. The fields are read from left to right,
/// and the first that is missing or no number decides.
pub open spec fn header_of(line: Seq<char>) -> Read<Header> {
    let fs = fields(line);
    and_then(
        field_u16(fs, 0),
        |n: u16|
            and_then(
                field_i32(fs, 1),
                |m: i32|
                    and_then(
                        field_i32(fs, 2),
                        |q: i32|
                            and_then(
                                field_u16(fs, 3),
                                |s: u16|
                                    Read::Value(
                                        Header {
                                            num_nodes: n,
                                            num_edges: m,
                                            num_queries: q,
                                            start_node: s,
                                        },
                                    ),
                            ),
                    ),
            ),
    )
}

/// The edge that a line holds.
pub open spec fn edge_of(line: Seq<char>) -> Read<Edge> {
    let fs = fields(line);
    and_then(
        field_u16(fs, 0),
        |a: u16|
            and_then(
                field_u16(fs, 1),
                |b: u16|
                    and_then(
                        field_u16(fs, 2),
                        |w: u16| Read::Value(Edge { a: a, b: b, weight: w }),
                    ),
            ),
    )
}

/// The query that a line holds: the whole line is the number.
pub open spec fn query_of(line: Seq<char>) -> Read<u16> {
    match parse_u16_spec(line) {
        Some(x) => Read::Value(x),
        None => Read::Invalid,
    }
}

/// The line at position `at`, read with `item`.
pub open spec fn line_at<T>(lines: Seq<Seq<char>>, at: int, item: spec_fn(Seq<char>) -> Read<T>)
    -> Read<T> {
    if 0 <= at < lines.len() {
        item(lines[at])
    } else {
        Read::Missing
    }
}

/// The `count` items on the lines from position `from` on. The lines are
/// read in order, and the first that is missing or invalid decides.
pub open spec fn items_from<T>(
    lines: Seq<Seq<char>>,
    from: int,
    count: nat,
    item: spec_fn(Seq<char>) -> Read<T>,
) -> Read<Seq<T>>
    decreases count,
{
    if count == 0 {
        Read::Value(Seq::empty())
    } else {
        match items_from(lines, from, (count - 1) as nat, item) {
            Read::Value(front) => match line_at(lines, from + count - 1, item) {
                Read::Value(last) => Read::Value(front.push(last)),
                Read::Missing => Read::Missing,
                Read::Invalid => Read::Invalid,
            },
            Read::Missing => Read::Missing,
            Read::Invalid => Read::Invalid,
        }
    }
}

/// A count that is negative counts as zero.
pub open spec fn as_count(c: i32) -> nat {
    if c > 0 {
        c as nat
    } else {
        0
    }
}

/// What a test case holds, and the position of the line after it.
pub struct Parsed {
    pub num_nodes: u16,
    pub edges: Seq<Edge>,
    pub start_node: u16,
    pub queries: Seq<u16>,
    pub next: int,
}

/// The test case that starts at line `at`. `Ok(None)` where the input ends
/// there, where the header is four zeros, and where the input ends before
/// the case is complete.
pub open spec fn case_at(lines: Seq<Seq<char>>, at: int) -> Result<Option<Parsed>, InputError> {
    match line_at(lines, at, |l: Seq<char>| header_of(l)) {
        Read::Missing => Ok(None),
        Read::Invalid => Err(InputError::InvalidNumber),
        Read::Value(h) => {
            if h.num_nodes == 0 && h.num_edges == 0 && h.num_queries == 0 && h.start_node == 0 {
                Ok(None)
            } else {
                let m = as_count(h.num_edges);
                let q = as_count(h.num_queries);
                match items_from(lines, at + 1, m, |l: Seq<char>| edge_of(l)) {
                    Read::Missing => Ok(None),
                    Read::Invalid => Err(InputError::InvalidNumber),
                    Read::Value(edges) => {
                        if !endpoints_below(edges, h.num_nodes as int) {
                            Err(InputError::InvalidNodeIndex)
                        } else {
                            match items_from(lines, at + 1 + m, q, |l: Seq<char>| query_of(l)) {
                                Read::Missing => Ok(None),
                                Read::Invalid => Err(InputError::InvalidNumber),
                                Read::Value(queries) => Ok(
                                    Some(
                                        Parsed {
                                            num_nodes: h.num_nodes,
                                            edges: edges,
                                            start_node: h.start_node,
                                            queries: queries,
                                            next: at + 1 + m + q,
                                        },
                                    ),
                                ),
                            }
                        }
                    },
                }
            }
        },
    }
}

/// The texts of a vector of lines.
pub open spec fn line_texts(lines: Seq<String>) -> Seq<Seq<char>> {
    Seq::new(lines.len(), |i: int| lines[i]@)
}

/// Once a line is missing or invalid, asking for more items changes nothing.
proof fn lemma_items_stop<T>(
    lines: Seq<Seq<char>>,
    from: int,
    seen: nat,
    count: nat,
    item: spec_fn(Seq<char>) -> Read<T>,
)
    requires
        seen <= count,
        !(items_from(lines, from, seen, item) is Value),
    ensures
        items_from(lines, from, count, item) == items_from(lines, from, seen, item),
    decreases count,
{
    if seen < count {
        lemma_items_stop(lines, from, seen, (count - 1) as nat, item);
    }
}

fn read_u16(fs: &Vec<Vec<char>>, k: usize) -> (r: Result<Option<u16>, InputError>)
    ensures
        match field_u16(texts_of(fs@), k as int) {
            Read::Value(x) => r == Ok::<Option<u16>, InputError>(Some(x)),
            Read::Missing => r == Ok::<Option<u16>, InputError>(None),
            Read::Invalid => r == Err::<Option<u16>, InputError>(InputError::InvalidNumber),
        },
{
    if k >= fs.len() {
        return Ok(None);
    }
    match parse_u16(&fs[k]) {
        Some(x) => Ok(Some(x)),
        None => Err(InputError::InvalidNumber),
    }
}

fn read_i32(fs: &Vec<Vec<char>>, k: usize) -> (r: Result<Option<i32>, InputError>)
    ensures
        match field_i32(texts_of(fs@), k as int) {
            Read::Value(x) => r == Ok::<Option<i32>, InputError>(Some(x)),
            Read::Missing => r == Ok::<Option<i32>, InputError>(None),
            Read::Invalid => r == Err::<Option<i32>, InputError>(InputError::InvalidNumber),
        },
{
    if k >= fs.len() {
        return Ok(None);
    }
    match parse_i32(&fs[k]) {
        Some(x) => Ok(Some(x)),
        None => Err(InputError::InvalidNumber),
    }
}

/// Reads a header line.
fn read_header(line: &str) -> (r: Result<Option<(u16, i32, i32, u16)>, InputError>)
    ensures
        match header_of(line@) {
            Read::Value(h) => r == Ok::<Option<(u16, i32, i32, u16)>, InputError>(
                Some((h.num_nodes, h.num_edges, h.num_queries, h.start_node)),
            ),
            Read::Missing => r == Ok::<Option<(u16, i32, i32, u16)>, InputError>(None),
            Read::Invalid => r == Err::<Option<(u16, i32, i32, u16)>, InputError>(
                InputError::InvalidNumber,
            ),
        },
{
    let fs = split_fields(line);
    let n = match read_u16(&fs, 0) {
        Ok(Some(x)) => x,
        Ok(None) => { return Ok(None); },
        Err(e) => { return Err(e); },
    };
    let m = match read_i32(&fs, 1) {
        Ok(Some(x)) => x,
        Ok(None) => { return Ok(None); },
        Err(e) => { return Err(e); },
    };
    let q = match read_i32(&fs, 2) {
        Ok(Some(x)) => x,
        Ok(None) => { return Ok(None); },
        Err(e) => { return Err(e); },
    };
    let s = match read_u16(&fs, 3) {
        Ok(Some(x)) => x,
        Ok(None) => { return Ok(None); },
        Err(e) => { return Err(e); },
    };
    Ok(Some((n, m, q, s)))
}

/// Reads an edge line.
fn read_edge(line: &str) -> (r: Result<Option<Edge>, InputError>)
    ensures
        match edge_of(line@) {
            Read::Value(e) => r == Ok::<Option<Edge>, InputError>(Some(e)),
            Read::Missing => r == Ok::<Option<Edge>, InputError>(None),
            Read::Invalid => r == Err::<Option<Edge>, InputError>(InputError::InvalidNumber),
        },
{
    let fs = split_fields(line);
    let a = match read_u16(&fs, 0) {
        Ok(Some(x)) => x,
        Ok(None) => { return Ok(None); },
        Err(e) => { return Err(e); },
    };
    let b = match read_u16(&fs, 1) {
        Ok(Some(x)) => x,
        Ok(None) => { return Ok(None); },
        Err(e) => { return Err(e); },
    };
    let w = match read_u16(&fs, 2) {
        Ok(Some(x)) => x,
        Ok(None) => { return Ok(None); },
        Err(e) => { return Err(e); },
    };
    Ok(Some(Edge::new(a, b, w)))
}

/// One graph, the node that every query starts from, and the targets asked for.
pub struct TestCase {
    pub graph: Graph,
    pub start_node: u16,
    pub queries: Vec<u16>,
}

/// The line that answers a query: the distance in decimal digits, or the
/// word for an unreachable target.
pub open spec fn answer_line(answer: Option<u32>) -> Seq<char> {
    match answer {
        Some(d) => decimal(d as nat) + "\n"@,
        None => "Impossible\n"@,
    }
}

/// The lines that answer a run of queries, one after the other.
pub open spec fn rendered(answers: Seq<Option<u32>>) -> Seq<char>
    decreases answers.len(),
{
    if answers.len() == 0 {
        Seq::empty()
    } else {
        rendered(answers.drop_last()) + answer_line(answers.last())
    }
}

/// `found` holds the right answer to each of the queries, in order.
pub open spec fn all_answered(
    adj: Seq<Seq<Neighbor>>,
    start: int,
    queries: Seq<u16>,
    found: Seq<Option<u32>>,
) -> bool {
    &&& found.len() == queries.len()
    &&& forall|i: int|
        0 <= i < queries.len() ==> answers(adj, start, queries[i] as int, #[trigger] found[i])
}

/// The start node and every query name a node of the graph, or nothing is asked.
pub open spec fn all_valid(adj: Seq<Seq<Neighbor>>, start: int, queries: Seq<u16>) -> bool {
    queries.len() == 0 || (0 <= start < adj.len() && forall|i: int|
        0 <= i < queries.len() ==> #[trigger] queries[i] < adj.len())
}

impl TestCase {
    /// The test case with the given parts.
    pub fn new(graph: Graph, start_node: u16, queries: Vec<u16>) -> (case: Self)
        ensures
            case.graph == graph,
            case.start_node == start_node,
            case.queries == queries,
    {
        Self { graph, start_node, queries }
    }

    /// Reads the test case that starts at line `position`, and gives the
    /// position of the line after it.
    #[verifier::loop_isolation(false)]
    pub fn from_lines(lines: &Vec<String>, position: usize) -> (r: Result<
        Option<(TestCase, usize)>,
        InputError,
    >)
        ensures
            match case_at(line_texts(lines@), position as int) {
                Ok(Some(p)) => {
                    &&& r matches Ok(Some((case, next)))
                    &&& case.graph@ == grouped(p.num_nodes as int, p.edges)
                    &&& case.start_node == p.start_node
                    &&& case.queries@ == p.queries
                    &&& next == p.next
                },
                Ok(None) => r matches Ok(None),
                Err(e) => r matches Err(f) && f == e,
            },
    {
        let ghost texts = line_texts(lines@);
        let ghost header_item = |l: Seq<char>| header_of(l);
        let ghost edge_item = |l: Seq<char>| edge_of(l);
        let ghost query_item = |l: Seq<char>| query_of(l);
        if position >= lines.len() {
            return Ok(None);
        }
        let (num_nodes, num_edges, num_queries, start_node) = match read_header(
            lines[position].as_str(),
        ) {
            Ok(Some(h)) => h,
            Ok(None) => { return Ok(None); },
            Err(e) => { return Err(e); },
        };
        if num_nodes == 0 && num_edges == 0 && num_queries == 0 && start_node == 0 {
            return Ok(None);
        }
        let ghost m = as_count(num_edges);
        let ghost q = as_count(num_queries);
        let mut at: usize = position + 1;
        let mut edges: Vec<Edge> = Vec::new();
        let mut i: i32 = 0;
        while i < num_edges
            invariant
                texts == line_texts(lines@),
                edge_item == |l: Seq<char>| edge_of(l),
                m == as_count(num_edges),
                0 <= i,
                i <= m,
                at == position + 1 + i,
                at <= lines@.len(),
                items_from(texts, position + 1, i as nat, edge_item) == Read::Value(edges@),
            decreases num_edges - i,
        {
            if at >= lines.len() {
                proof {
                    lemma_items_stop(texts, position + 1, (i + 1) as nat, m, edge_item);
                }
                return Ok(None);
            }
            let edge = match read_edge(lines[at].as_str()) {
                Ok(Some(e)) => e,
                Ok(None) => {
                    proof {
                        lemma_items_stop(texts, position + 1, (i + 1) as nat, m, edge_item);
                    }
                    return Ok(None);
                },
                Err(e) => {
                    proof {
                        lemma_items_stop(texts, position + 1, (i + 1) as nat, m, edge_item);
                    }
                    return Err(e);
                },
            };
            edges.push(edge);
            at += 1;
            i += 1;
        }
        let graph = match Graph::build(num_nodes, &edges) {
            Ok(g) => g,
            Err(_) => { return Err(InputError::InvalidNodeIndex); },
        };
        let mut queries: Vec<u16> = Vec::new();
        let mut j: i32 = 0;
        while j < num_queries
            invariant
                texts == line_texts(lines@),
                query_item == |l: Seq<char>| query_of(l),
                q == as_count(num_queries),
                0 <= j,
                j <= q,
                at == position + 1 + m + j,
                at <= lines@.len(),
                items_from(texts, position + 1 + m, j as nat, query_item) == Read::Value(
                    queries@,
                ),
            decreases num_queries - j,
        {
            if at >= lines.len() {
                proof {
                    lemma_items_stop(texts, position + 1 + m, (j + 1) as nat, q, query_item);
                }
                return Ok(None);
            }
            let line = chars_of(lines[at].as_str());
            let query = match parse_u16(&line) {
                Some(x) => x,
                None => {
                    proof {
                        lemma_items_stop(texts, position + 1 + m, (j + 1) as nat, q, query_item);
                    }
                    return Err(InputError::InvalidNumber);
                },
            };
            queries.push(query);
            at += 1;
            j += 1;
        }
        Ok(Some((TestCase::new(graph, start_node, queries), at)))
    }

    /// Answers every query, in order. Nothing is answered unless every query
    /// can be.
    pub fn solve(&self) -> (r: Result<Vec<Option<u32>>, GraphError>)
        ensures
            match r {
                Ok(found) => {
                    &&& all_valid(self.graph@, self.start_node as int, self.queries@)
                    &&& all_answered(self.graph@, self.start_node as int, self.queries@, found@)
                },
                Err(e) => {
                    &&& e == GraphError::InvalidNodeIndex
                    &&& !all_valid(self.graph@, self.start_node as int, self.queries@)
                },
            },
    {
        let mut found: Vec<Option<u32>> = Vec::new();
        let mut i: usize = 0;
        while i < self.queries.len()
            invariant
                i <= self.queries@.len(),
                found@.len() == i,
                i > 0 ==> self.start_node < self.graph@.len(),
                forall|k: int| 0 <= k < i ==> #[trigger] self.queries@[k] < self.graph@.len(),
                forall|k: int|
                    0 <= k < i ==> answers(
                        self.graph@,
                        self.start_node as int,
                        self.queries@[k] as int,
                        #[trigger] found@[k],
                    ),
            decreases self.queries@.len() - i,
        {
            match self.graph.shortest_path(self.start_node, self.queries[i]) {
                Ok(answer) => {
                    found.push(answer);
                },
                Err(e) => {
                    assert(!(self.queries@[i as int] < self.graph@.len()) || !(self.start_node
                        < self.graph@.len()));
                    return Err(e);
                },
            }
            i += 1;
        }
        Ok(found)
    }

    /// The answers to the queries as text, one line per query: the distance,
    /// or `Impossible` for a target that cannot be reached.
    pub fn output_format(&self) -> (r: Result<String, GraphError>)
        ensures
            match r {
                Ok(text) => {
                    &&& all_valid(self.graph@, self.start_node as int, self.queries@)
                    &&& exists|found: Seq<Option<u32>>| #[trigger]
                        all_answered(self.graph@, self.start_node as int, self.queries@, found)
                            && text@ == rendered(found)
                },
                Err(e) => {
                    &&& e == GraphError::InvalidNodeIndex
                    &&& !all_valid(self.graph@, self.start_node as int, self.queries@)
                },
            },
    {
        let found = match self.solve() {
            Ok(found) => found,
            Err(e) => { return Err(e); },
        };
        Ok(render(&found))
    }
}

/// Writes one line per answer.
pub fn render(found: &Vec<Option<u32>>) -> (text: String)
    ensures
        text@ == rendered(found@),
{
    let mut result = String::new();
    let mut i: usize = 0;
    while i < found.len()
        invariant
            i <= found@.len(),
            result@ == rendered(found@.take(i as int)),
        decreases found@.len() - i,
    {
        proof {
            assert(found@.take(i + 1).drop_last() == found@.take(i as int));
            assert(found@.take(i + 1).last() == found@[i as int]);
        }
        match found[i] {
            Some(distance) => {
                push_decimal(&mut result, distance);
                result.append("\n");
            },
            None => {
                result.append("Impossible\n");
            },
        }
        i += 1;
    }
    proof {
        assert(found@.take(i as int) == found@);
    }
    result
}

} // verus!
