use vstd::prelude::*;
use vstd::string::StringSliceAdditionalSpecFns;
use vstd::utf8::encode_utf8;

use rand::rngs::ThreadRng;
use rand::Rng;

use crate::error::Error;
use crate::graph::{degree_sum, Graph, GraphView};

verus! {

#[verifier::external_type_specification]
#[verifier::external_body]
pub struct ExThreadRng(ThreadRng);

/// Relies on rand::thread_rng: a handle to the thread's random generator.
pub assume_specification[ rand::thread_rng ]() -> ThreadRng;

/// Relies on rand::Rng::gen_range: a value drawn from the non-empty range
/// `low..high` (it panics on an empty range, which `requires` rules out).
#[verifier::external_body]
fn random_index(rng: &mut ThreadRng, low: usize, high: usize) -> (r: usize)
    requires
        low < high,
    ensures
        low <= r < high,
{
    rng.gen_range(low..high)
}

/// How many random draws an edge of a random graph gets before it falls back
/// to the first free slot.
pub const RANDOM_ATTEMPTS: usize = 64;

/// Builds graphs from the line-oriented text format or at random.
pub struct GraphBuilder {}

/// The pieces of `s` between single spaces: `"a  b"` gives `"a"`, `""`, `"b"`.
pub open spec fn words(s: Seq<u8>) -> Seq<Seq<u8>>
    decreases s.len(),
{
    if s.len() == 0 {
        seq![Seq::empty()]
    } else {
        let w = words(s.drop_last());
        if s.last() == 32u8 {
            w.push(Seq::empty())
        } else {
            w.update(w.len() - 1, w.last().push(s.last()))
        }
    }
}

/// Every byte of `d` is an ASCII decimal digit.
pub open spec fn all_digits(d: Seq<u8>) -> bool {
    forall|i: int| 0 <= i < d.len() ==> 48u8 <= #[trigger] d[i] <= 57u8
}

/// The value of the decimal digits `d`.
pub open spec fn decimal_value(d: Seq<u8>) -> nat
    decreases d.len(),
{
    if d.len() == 0 {
        0
    } else {
        decimal_value(d.drop_last()) * 10 + (d.last() - 48u8) as nat
    }
}

/// The digits of a number word, after an optional leading `+`.
pub open spec fn number_digits(w: Seq<u8>) -> Seq<u8> {
    if w.len() > 0 && w[0] == 43u8 {
        w.drop_first()
    } else {
        w
    }
}

/// The machine-sized number that the word `w` spells, if any: an optional
/// `+` and at least one decimal digit, with a value that fits in `usize`.
pub open spec fn number_value(w: Seq<u8>) -> Option<nat> {
    let d = number_digits(w);
    if d.len() > 0 && all_digits(d) && decimal_value(d) <= usize::MAX {
        Some(decimal_value(d))
    } else {
        None
    }
}

/// The two numbers of an edge line: exactly two words, both numbers.
pub open spec fn edge_line_value(s: Seq<u8>) -> Option<(nat, nat)> {
    let w = words(s);
    if w.len() == 2 && number_value(w[0]) is Some && number_value(w[1]) is Some {
        Some((number_value(w[0])->0, number_value(w[1])->0))
    } else {
        None
    }
}

/// The header line starts with `p` and has five words, the last three of them
/// numbers: fixed nodes, free nodes, edges.
pub open spec fn header_value(s: Seq<u8>) -> Option<(Seq<u8>, nat, nat, nat)> {
    let w = words(s);
    if s.len() > 0 && s[0] == 112u8 && w.len() == 5 && number_value(w[2]) is Some && number_value(w[3]) is Some
        && number_value(w[4]) is Some {
        Some((w[1], number_value(w[2])->0, number_value(w[3])->0, number_value(w[4])->0))
    } else {
        None
    }
}

/// A line that the format passes over: an empty line or a comment, which
/// starts with `c`.
pub open spec fn is_skipped_line(l: Seq<u8>) -> bool {
    l.len() == 0 || l[0] == 99u8
}

/// A line that starts with `p`, as the header does.
pub open spec fn is_header_line(l: Seq<u8>) -> bool {
    l.len() > 0 && l[0] == 112u8
}

/// The index of the first line at or after `i` that starts with `p`, or
/// `lines.len()` when there is none.
pub open spec fn header_index(lines: Seq<Seq<u8>>, i: int) -> int
    decreases lines.len() - i,
{
    if i >= lines.len() || i < 0 {
        lines.len() as int
    } else if is_header_line(lines[i]) {
        i
    } else {
        header_index(lines, i + 1)
    }
}

/// What a run of edge lines amounts to: the edges as pairs of node ids, or
/// the kind of the first fault among the lines.
pub enum EdgeListing {
    Edges(Set<(int, int)>),
    BadLine,
    BadIndex,
}

/// The edges that lines `start .. end` list for a graph with `fixed` fixed
/// and `free` free nodes. Node numbers in the text count from 1 and the free
/// nodes follow the fixed ones.
pub open spec fn edge_listing(lines: Seq<Seq<u8>>, start: int, end: int, fixed: nat, free: nat) -> EdgeListing
    decreases end - start,
{
    if end <= start {
        EdgeListing::Edges(Set::empty())
    } else {
        match edge_listing(lines, start, end - 1, fixed, free) {
            EdgeListing::Edges(s) => {
                let l = lines[end - 1];
                if is_skipped_line(l) {
                    EdgeListing::Edges(s)
                } else {
                    match edge_line_value(l) {
                        None => EdgeListing::BadLine,
                        Some(e) => if 1 <= e.0 <= fixed && fixed + 1 <= e.1 <= fixed + free {
                            EdgeListing::Edges(s.insert((e.0 - 1, e.1 - 1)))
                        } else {
                            EdgeListing::BadIndex
                        },
                    }
                }
            },
            other => other,
        }
    }
}

/// What a whole graph text amounts to.
pub enum GraphText {
    Loaded { fixed: nat, free: nat, edges: Set<(int, int)> },
    ParseFailure,
    IndexFailure,
}

/// The graph that the lines describe: the first line starting with `p` is the
/// header, the lines after it list edges, and the header's edge count must
/// equal the number of distinct edges listed.
pub open spec fn graph_text(lines: Seq<Seq<u8>>) -> GraphText {
    let p = header_index(lines, 0);
    if p >= lines.len() {
        GraphText::ParseFailure
    } else {
        match header_value(lines[p]) {
            None => GraphText::ParseFailure,
            Some(h) => if h.1 + h.2 > usize::MAX {
                GraphText::ParseFailure
            } else {
                match edge_listing(lines, p + 1, lines.len() as int, h.1, h.2) {
                    EdgeListing::Edges(s) => if s.len() == h.3 {
                        GraphText::Loaded { fixed: h.1, free: h.2, edges: s }
                    } else {
                        GraphText::ParseFailure
                    },
                    EdgeListing::BadLine => GraphText::ParseFailure,
                    EdgeListing::BadIndex => GraphText::IndexFailure,
                }
            },
        }
    }
}

/// The bytes of every line.
pub open spec fn line_bytes(lines: Seq<String>) -> Seq<Seq<u8>> {
    lines.map_values(|l: String| encode_utf8(l@))
}

/// The words of `bytes`, split at every single space.
fn split_words(bytes: &[u8]) -> (r: Vec<Vec<u8>>)
    ensures
        r@.map_values(|w: Vec<u8>| w@) == words(bytes@),
{
    let mut result: Vec<Vec<u8>> = Vec::new();
    let mut current: Vec<u8> = Vec::new();
    let mut i: usize = 0;
    while i < bytes.len()
        invariant
            i <= bytes@.len(),
            result@.map_values(|w: Vec<u8>| w@).push(current@) == words(bytes@.take(i as int)),
        decreases bytes@.len() - i,
    {
        let ghost before = result@.map_values(|w: Vec<u8>| w@).push(current@);
        assert(bytes@.take(i + 1).drop_last() =~= bytes@.take(i as int));
        if bytes[i] == 32u8 {
            result.push(current);
            current = Vec::new();
            assert(result@.map_values(|w: Vec<u8>| w@).push(current@) =~= before.push(Seq::empty()));
        } else {
            current.push(bytes[i]);
            assert(result@.map_values(|w: Vec<u8>| w@).push(current@) =~= before.update(
                before.len() - 1,
                before.last().push(bytes@[i as int]),
            ));
        }
        i = i + 1;
    }
    assert(bytes@.take(bytes@.len() as int) =~= bytes@);
    result.push(current);
    result
}

/// Reads a number word: an optional `+` and decimal digits whose value fits.
fn parse_number(word: &Vec<u8>) -> (r: Option<usize>)
    ensures
        r matches Some(v) ==> number_value(word@) == Some(v as nat),
        r is None ==> number_value(word@) is None,
{
    let mut start: usize = 0;
    if word.len() > 0 && word[0] == 43u8 {
        start = 1;
    }
    let ghost d = number_digits(word@);
    assert(d =~= word@.skip(start as int));
    if start >= word.len() {
        return None;
    }
    let mut value: usize = 0;
    let mut i: usize = start;
    while i < word.len()
        invariant
            d == number_digits(word@),
            d == word@.skip(start as int),
            start <= i <= word@.len(),
            all_digits(d.take(i - start)),
            value == decimal_value(d.take(i - start)),
        decreases word@.len() - i,
    {
        let b = word[i];
        let ghost k = i - start;
        assert(d.take(k + 1).drop_last() =~= d.take(k));
        if b < 48u8 || b > 57u8 {
            assert(d[k] == b);
            return None;
        }
        let digit = (b - 48u8) as usize;
        if value > (usize::MAX - digit) / 10 {
            proof {
                assert(d[k] == b);
                assert(decimal_value(d.take(k + 1)) > usize::MAX) by (nonlinear_arith)
                    requires
                        value > (usize::MAX - digit) / 10,
                        decimal_value(d.take(k + 1)) == value * 10 + digit,
                        digit <= 9,
                ;
                lemma_decimal_prefix(d, k + 1);
            }
            return None;
        }
        assert(value * 10 + digit <= usize::MAX) by (nonlinear_arith)
            requires
                value <= (usize::MAX - digit) / 10,
                digit <= 9,
        ;
        value = value * 10 + digit;
        i = i + 1;
    }
    assert(d.take(d.len() as int) =~= d);
    Some(value)
}

/// Whether `line` starts with `p`.
fn starts_with_p(line: &String) -> (r: bool)
    ensures
        r == is_header_line(encode_utf8(line@)),
{
    let bytes = line.as_str().as_bytes();
    bytes.len() > 0 && bytes[0] == 112u8
}

/// Once a line is at fault, the listing of any longer run of lines reports
/// that same fault.
proof fn lemma_listing_fault_persists(lines: Seq<Seq<u8>>, start: int, end: int, last: int, fixed: nat, free: nat)
    requires
        start <= end <= last,
        !(edge_listing(lines, start, end, fixed, free) is Edges),
    ensures
        edge_listing(lines, start, last, fixed, free) == edge_listing(lines, start, end, fixed, free),
    decreases last - end,
{
    if end < last {
        lemma_listing_fault_persists(lines, start, end, last - 1, fixed, free);
    }
}

/// Room for an edge means both layers are non-empty.
proof fn lemma_layers_nonempty(fixed: nat, free: nat, edges: nat)
    requires
        0 < edges <= fixed * free,
    ensures
        fixed > 0,
        free > 0,
{
    if fixed == 0 {
        assert(fixed * free == 0);
    }
    if free == 0 {
        assert(fixed * free == 0);
    }
}

/// When each of the first `n` fixed nodes is joined to every free node, they
/// hold `n * free` edges.
proof fn lemma_full_rows(g: GraphView, n: nat)
    requires
        n <= g.adj.len(),
        forall|x: int| 0 <= x < n ==> (#[trigger] g.adj[x]).len() == g.free,
    ensures
        degree_sum(g.adj, n) == n * g.free,
    decreases n,
{
    if n > 0 {
        let k = (n - 1) as nat;
        lemma_full_rows(g, k);
        assert(k * g.free + g.free == n * g.free) by (nonlinear_arith)
            requires
                k + 1 == n,
        ;
    } else {
        assert(0 * g.free == 0);
    }
}

/// A prefix of a run of digits is worth no more than the whole run.
proof fn lemma_decimal_prefix(d: Seq<u8>, k: int)
    requires
        0 <= k <= d.len(),
    ensures
        all_digits(d) ==> decimal_value(d.take(k)) <= decimal_value(d),
    decreases d.len() - k,
{
    if all_digits(d) {
        if k < d.len() {
            lemma_decimal_prefix(d, k + 1);
            assert(d.take(k + 1).drop_last() =~= d.take(k));
            assert(48u8 <= d[k] <= 57u8);
            assert(d.take(k + 1).last() == d[k]);
        } else {
            assert(d.take(k) =~= d);
        }
    }
}

impl GraphBuilder {
    /// Builds the graph that a text in the graph format describes, given as
    /// its lines.
    pub fn build_graph_from_lines(lines: &Vec<String>) -> (r: Result<Graph, Error>)
        ensures
            match r {
                Ok(g) => match graph_text(line_bytes(lines@)) {
                    GraphText::Loaded { fixed, free, edges } => {
                        &&& g.wf()
                        &&& g@.fixed == fixed
                        &&& g@.free == free
                        &&& g@.edges == edges.len()
                        &&& forall|x: int, f: int|
                            g@.is_fixed(x) && g@.is_free(f) ==> (#[trigger] g@.has_edge(x, f) <==> edges.contains((x, f)))
                    },
                    _ => false,
                },
                Err(e) => (graph_text(line_bytes(lines@)) is ParseFailure && e is ParseError) || (graph_text(
                    line_bytes(lines@),
                ) is IndexFailure && e is IndexError),
            },
    {
        let ghost ls = line_bytes(lines@);
        let mut index: usize = 0;
        while index < lines.len() && !starts_with_p(&lines[index])
            invariant
                ls == line_bytes(lines@),
                index <= lines@.len(),
                header_index(ls, index as int) == header_index(ls, 0),
            decreases lines@.len() - index,
        {
            index = index + 1;
        }
        if index >= lines.len() {
            return Err(Error::ParseError("Could not find a valid p line in the file".to_string()));
        }
        let info = match PLineInfo::build(lines[index].as_str()) {
            Some(info) => info,
            None => return Err(Error::ParseError("The found p-line was invalid".to_string())),
        };
        let fixed_count = info.number_of_fixed_nodes;
        let free_count = info.number_of_free_nodes;
        if fixed_count > usize::MAX - free_count {
            return Err(Error::ParseError("The node counts of the p-line are too large".to_string()));
        }
        let mut graph = Graph::new(fixed_count, free_count);
        let ghost mut listed: Set<(int, int)> = Set::empty();
        let mut k: usize = index + 1;
        while k < lines.len()
            invariant
                ls == line_bytes(lines@),
                index < k <= lines@.len(),
                header_index(ls, 0) == index,
                header_value(ls[index as int]) == Some(
                    (info.descriptor@, fixed_count as nat, free_count as nat, info.number_of_edges as nat),
                ),
                fixed_count + free_count <= usize::MAX,
                graph.wf(),
                graph@.fixed == fixed_count,
                graph@.free == free_count,
                edge_listing(ls, index + 1, k as int, fixed_count as nat, free_count as nat) == EdgeListing::Edges(
                    listed,
                ),
                listed.finite(),
                listed.len() <= k - index - 1,
                graph@.edges == listed.len(),
                forall|x: int, f: int|
                    graph@.is_fixed(x) && graph@.is_free(f) ==> (#[trigger] graph@.has_edge(x, f) <==> listed.contains(
                        (x, f),
                    )),
            decreases lines@.len() - k,
        {
            let line = lines[k].as_str();
            let bytes = line.as_bytes();
            assert(bytes@ == ls[k as int]);
            assert(edge_listing(ls, index + 1, k + 1, fixed_count as nat, free_count as nat) == if is_skipped_line(ls[k as int]) {
                EdgeListing::Edges(listed)
            } else {
                match edge_line_value(ls[k as int]) {
                    None => EdgeListing::BadLine,
                    Some(e) => if 1 <= e.0 <= fixed_count && fixed_count + 1 <= e.1 <= fixed_count + free_count {
                        EdgeListing::Edges(listed.insert((e.0 - 1, e.1 - 1)))
                    } else {
                        EdgeListing::BadIndex
                    },
                }
            });
            if bytes.len() == 0 || bytes[0] == 99u8 {
                k = k + 1;
            } else {
                let (fixed_number, free_number) = match GraphBuilder::parse_edge_line(line) {
                    Some(edge) => edge,
                    None => {
                        proof {
                            lemma_listing_fault_persists(ls, index + 1, k + 1, lines@.len() as int, fixed_count as nat, free_count as nat);
                        }
                        return Err(Error::ParseError("Unexpected line found!".to_string()));
                    },
                };
                if fixed_number == 0 || free_number == 0 {
                    proof {
                        lemma_listing_fault_persists(ls, index + 1, k + 1, lines@.len() as int, fixed_count as nat, free_count as nat);
                    }
                    return Err(Error::IndexError("Node numbers start at 1".to_string()));
                }
                let fixed_id = fixed_number - 1;
                let free_id = free_number - 1;
                match graph.add_edge(fixed_id, free_id) {
                    Ok(_) => {},
                    Err(e) => {
                        proof {
                            lemma_listing_fault_persists(ls, index + 1, k + 1, lines@.len() as int, fixed_count as nat, free_count as nat);
                        }
                        return Err(e);
                    },
                }
                proof {
                    listed = listed.insert((fixed_id as int, free_id as int));
                }
                k = k + 1;
            }
        }
        if graph.number_of_edges() != info.number_of_edges {
            return Err(Error::ParseError("The number of edges in the file was invalid".to_string()));
        }
        Ok(graph)
    }

    /// A graph with the given layer sizes and `number_of_edges` distinct edges
    /// placed at random, or a `ValueError` when the layers cannot hold that
    /// many edges. Each edge is drawn at random; if a few draws all hit edges
    /// already present, it takes the first free slot instead.
    pub fn build_random_graph(
        number_of_fixed_nodes: usize,
        number_of_free_nodes: usize,
        number_of_edges: usize,
    ) -> (r: Result<Graph, Error>)
        requires
            number_of_fixed_nodes + number_of_free_nodes <= usize::MAX,
        ensures
            match r {
                Ok(g) => {
                    &&& g.wf()
                    &&& g@.fixed == number_of_fixed_nodes
                    &&& g@.free == number_of_free_nodes
                    &&& g@.edges == number_of_edges
                },
                Err(e) => number_of_edges > number_of_fixed_nodes * number_of_free_nodes && e is ValueError,
            },
    {
        let fixed_count = number_of_fixed_nodes;
        let free_count = number_of_free_nodes;
        let node_count = fixed_count + free_count;
        if free_count == 0 || fixed_count <= usize::MAX / free_count {
            proof {
                if free_count > 0 {
                    assert(fixed_count * free_count <= usize::MAX) by (nonlinear_arith)
                        requires
                            fixed_count <= usize::MAX / free_count,
                            free_count > 0,
                    ;
                }
            }
            if number_of_edges > fixed_count * free_count {
                return Err(
                    Error::ValueError("It is not possible to construct the graph with that many edges".to_string()),
                );
            }
        } else {
            assert(fixed_count * free_count > usize::MAX) by (nonlinear_arith)
                requires
                    fixed_count > usize::MAX / free_count,
                    free_count > 0,
            ;
        }
        let mut graph = Graph::new(fixed_count, free_count);
        let mut rng = rand::thread_rng();
        let mut count: usize = 0;
        while count < number_of_edges
            invariant
                graph.wf(),
                graph@.fixed == fixed_count,
                graph@.free == free_count,
                node_count == fixed_count + free_count,
                graph@.edges == count,
                count <= number_of_edges,
                number_of_edges <= fixed_count * free_count,
            decreases number_of_edges - count,
        {
            let mut inserted = false;
            let mut attempts: usize = 0;
            while !inserted && attempts < RANDOM_ATTEMPTS
                invariant
                    graph.wf(),
                    graph@.fixed == fixed_count,
                    graph@.free == free_count,
                    node_count == fixed_count + free_count,
                    graph@.edges == count + if inserted {
                        1nat
                    } else {
                        0nat
                    },
                    count < number_of_edges,
                    number_of_edges <= fixed_count * free_count,
                decreases RANDOM_ATTEMPTS - attempts,
            {
                proof {
                    lemma_layers_nonempty(fixed_count as nat, free_count as nat, number_of_edges as nat);
                }
                let fixed_id = random_index(&mut rng, 0, fixed_count);
                let free_id = random_index(&mut rng, fixed_count, node_count);
                match graph.add_edge(fixed_id, free_id) {
                    Ok(added) => {
                        inserted = added;
                    },
                    Err(e) => {
                        return Err(e);
                    },
                }
                attempts = attempts + 1;
            }
            let mut row: usize = 0;
            while !inserted && row < fixed_count
                invariant
                    graph.wf(),
                    graph@.fixed == fixed_count,
                    graph@.free == free_count,
                    graph@.edges == count + if inserted {
                        1nat
                    } else {
                        0nat
                    },
                    count < number_of_edges,
                    number_of_edges <= fixed_count * free_count,
                    row <= fixed_count,
                    !inserted ==> forall|x: int| 0 <= x < row ==> (#[trigger] graph@.adj[x]).len() == free_count,
                decreases fixed_count - row,
            {
                match graph.first_non_neighbor(row) {
                    Some(free_id) => {
                        match graph.add_edge(row, free_id) {
                            Ok(added) => {
                                inserted = added;
                            },
                            Err(e) => {
                                return Err(e);
                            },
                        }
                    },
                    None => {},
                }
                row = row + 1;
            }
            if !inserted {
                proof {
                    lemma_full_rows(graph@, fixed_count as nat);
                }
            }
            count = count + 1;
        }
        Ok(graph)
    }

    /// Reads an edge line: two numbers separated by one space.
    pub fn parse_edge_line(line: &str) -> (r: Option<(usize, usize)>)
        ensures
            r matches Some(e) ==> edge_line_value(line.spec_bytes()) == Some((e.0 as nat, e.1 as nat)),
            r is None ==> edge_line_value(line.spec_bytes()) is None,
    {
        let words = split_words(line.as_bytes());
        let ghost w = words@.map_values(|w: Vec<u8>| w@);
        if words.len() != 2 {
            return None;
        }
        assert(words@[0]@ == w[0]);
        assert(words@[1]@ == w[1]);
        let fixed_option = parse_number(&words[0]);
        let free_option = parse_number(&words[1]);
        match (fixed_option, free_option) {
            (Some(fixed), Some(free)) => Some((fixed, free)),
            _ => None,
        }
    }
}

/// The values of a header line.
pub struct PLineInfo {
    pub descriptor: Vec<u8>,
    pub number_of_fixed_nodes: usize,
    pub number_of_free_nodes: usize,
    pub number_of_edges: usize,
}

impl PLineInfo {
    /// Reads a header line `p <descriptor> <fixed> <free> <edges>`.
    pub fn build(p_line: &str) -> (r: Option<PLineInfo>)
        ensures
            r matches Some(info) ==> header_value(p_line.spec_bytes()) == Some(
                (
                    info.descriptor@,
                    info.number_of_fixed_nodes as nat,
                    info.number_of_free_nodes as nat,
                    info.number_of_edges as nat,
                ),
            ),
            r is None ==> header_value(p_line.spec_bytes()) is None,
    {
        let bytes = p_line.as_bytes();
        if bytes.len() == 0 || bytes[0] != 112u8 {
            return None;
        }
        let words = split_words(bytes);
        let ghost w = words@.map_values(|w: Vec<u8>| w@);
        if words.len() != 5 {
            return None;
        }
        assert(words@[1]@ == w[1]);
        assert(words@[2]@ == w[2]);
        assert(words@[3]@ == w[3]);
        assert(words@[4]@ == w[4]);
        let descriptor = words[1].clone();
        let number_of_fixed_nodes = parse_number(&words[2]);
        let number_of_free_nodes = parse_number(&words[3]);
        let number_of_edges = parse_number(&words[4]);
        match (number_of_fixed_nodes, number_of_free_nodes, number_of_edges) {
            (Some(number_of_fixed_nodes), Some(number_of_free_nodes), Some(number_of_edges)) => Some(
                PLineInfo { descriptor, number_of_fixed_nodes, number_of_free_nodes, number_of_edges },
            ),
            _ => None,
        }
    }
}

} // verus!
