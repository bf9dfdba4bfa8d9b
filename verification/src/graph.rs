//! Export of the dependency graph as a DOT text for visualization: one
//! quoted node line per package, one quoted edge line per dependency, no
//! edge labels. Writing the text to a file is the caller's part.

use vstd::prelude::*;
use vstd::string::StrSliceExecFns;
use vstd::string::StringExecFns;

use crate::monorepo::{DepsGraph, MonorepoError};
use crate::pg::{edges_of, pg_all_edges};

verus! {

/// Options of the graph-export command: the monorepo path, optional.
pub struct Options {
    pub path: Option<String>,
}

/// What the graph-export command can fail on: the monorepo itself, or
/// writing the output file (the cause as text, produced by the caller
/// that owns the file).
#[derive(Debug)]
pub enum Error {
    Monorepo(MonorepoError),
    FileWrite(String),
}

/// The first line of the text.
pub open spec fn header_text() -> Seq<char> {
    seq!['d', 'i', 'g', 'r', 'a', 'p', 'h', ' ', '{', '\n']
}

/// The last line of the text.
pub open spec fn footer_text() -> Seq<char> {
    seq!['}', '\n']
}

/// One node line: the name quoted, closed by a semicolon.
pub open spec fn render_node_line(name: Seq<char>) -> Seq<char> {
    seq!['"'] + name + seq!['"', ';']
}

/// One edge line: both names quoted around an arrow, closed by a
/// semicolon.
pub open spec fn render_edge_line(a: Seq<char>, b: Seq<char>) -> Seq<char> {
    seq!['"'] + a + seq!['"', ' ', '-', '>', ' ', '"'] + b + seq!['"', ';']
}

/// The node lines, one per name, each ended by a newline.
pub open spec fn node_lines(names: Seq<Seq<char>>) -> Seq<char>
    decreases names.len(),
{
    if names.len() == 0 {
        Seq::empty()
    } else {
        node_lines(names.drop_last()) + render_node_line(names.last()) + seq!['\n']
    }
}

/// The edge lines, one per listed edge, each ended by a newline.
pub open spec fn edge_lines(names: Seq<Seq<char>>, es: Seq<(usize, usize)>) -> Seq<char>
    decreases es.len(),
{
    if es.len() == 0 {
        Seq::empty()
    } else {
        edge_lines(names, es.drop_last()) + render_edge_line(
            names[es.last().0 as int],
            names[es.last().1 as int],
        ) + seq!['\n']
    }
}

/// The whole text for a name table and a listing of the edges.
pub open spec fn export_text(names: Seq<Seq<char>>, es: Seq<(usize, usize)>) -> Seq<char> {
    header_text() + node_lines(names) + edge_lines(names, es) + footer_text()
}

/// The listing holds exactly the edges of the set.
pub open spec fn edge_listing(es: Seq<(usize, usize)>, edges: Set<(usize, usize)>) -> bool {
    forall|e: (usize, usize)| #[trigger] es.contains(e) <==> edges.contains(e)
}

/// Renders the graph as DOT text: the header line, one line per package
/// name, one line per dependency edge (in some listing of the edge set),
/// and the closing brace.
pub fn export_dot(graph: &DepsGraph) -> (r: String)
    requires
        graph.wf(),
    ensures
        exists|es: Seq<(usize, usize)>|
            #[trigger] edge_listing(es, edges_of(graph.pg)) && r@ == export_text(
                graph.names_view(),
                es,
            ),
{
    let ghost nv = graph.names_view();
    proof {
        reveal_strlit("digraph {\n");
        reveal_strlit("\"");
        reveal_strlit("\";\n");
        reveal_strlit("\" -> \"");
        reveal_strlit("}\n");
    }
    let mut out = String::new();
    out.append("digraph {\n");
    proof {
        assert(out@ =~= header_text());
    }
    let mut i: usize = 0;
    while i < graph.names.len()
        invariant
            i <= graph.names@.len(),
            nv == graph.names_view(),
            nv.len() == graph.names@.len(),
            out@ == header_text() + node_lines(nv.take(i as int)),
        decreases graph.names@.len() - i,
    {
        proof {
            reveal_strlit("\"");
            reveal_strlit("\";\n");
        }
        out.append("\"");
        out.append(graph.names[i].as_str());
        out.append("\";\n");
        proof {
            assert(nv.take(i + 1).drop_last() =~= nv.take(i as int));
            assert(nv.take(i + 1).last() == nv[i as int]);
            assert(out@ =~= header_text() + node_lines(nv.take(i + 1)));
        }
        i += 1;
    }
    proof {
        assert(nv.take(nv.len() as int) =~= nv);
    }
    let edges = pg_all_edges(&graph.pg);
    let ghost es = edges@;
    let mut t: usize = 0;
    while t < edges.len()
        invariant
            t <= es.len(),
            edges@ == es,
            nv == graph.names_view(),
            nv.len() == graph.names@.len(),
            graph.wf(),
            edge_listing(es, edges_of(graph.pg)),
            out@ == header_text() + node_lines(nv) + edge_lines(nv, es.take(t as int)),
        decreases es.len() - t,
    {
        proof {
            reveal_strlit("\"");
            reveal_strlit("\";\n");
            reveal_strlit("\" -> \"");
            assert(es.contains(es[t as int]));
        }
        let (a, b) = edges[t];
        out.append("\"");
        out.append(graph.names[a].as_str());
        out.append("\" -> \"");
        out.append(graph.names[b].as_str());
        out.append("\";\n");
        proof {
            assert(es.take(t + 1).drop_last() =~= es.take(t as int));
            assert(es.take(t + 1).last() == es[t as int]);
            assert(out@ =~= header_text() + node_lines(nv) + edge_lines(nv, es.take(t + 1)));
        }
        t += 1;
    }
    proof {
        assert(es.take(es.len() as int) =~= es);
    }
    out.append("}\n");
    proof {
        assert(out@ =~= export_text(nv, es));
    }
    out
}

/// The header line, without its newline.
pub open spec fn header_line() -> Seq<char> {
    seq!['d', 'i', 'g', 'r', 'a', 'p', 'h', ' ', '{']
}

/// The footer line, without its newline.
pub open spec fn footer_line() -> Seq<char> {
    seq!['}']
}

/// The quoted arrow between the two names of an edge line.
pub open spec fn quote_arrow() -> Seq<char> {
    seq!['"', ' ', '-', '>', ' ', '"']
}

/// The position of the first occurrence of `c` at or after `i`, or the
/// length if none.
pub open spec fn first_at(text: Seq<char>, i: int, c: char) -> int
    decreases text.len() - i,
{
    if i < 0 || i >= text.len() {
        text.len() as int
    } else if text[i] == c {
        i
    } else {
        first_at(text, i + 1, c)
    }
}

/// Where the occurrences of `c` over a stretch are known, the first one is
/// pinned down.
proof fn lemma_first_at_is(text: Seq<char>, i: int, j: int, c: char)
    requires
        0 <= i <= j <= text.len(),
        forall|k: int| i <= k < j ==> text[k] != c,
        j == text.len() || text[j] == c,
    ensures
        first_at(text, i, c) == j,
    decreases j - i,
{
    if i < j {
        assert(text[i] != c);
        lemma_first_at_is(text, i + 1, j, c);
    }
}

/// The text cut at each newline; the final newline closes the last line.
pub open spec fn split_lines(text: Seq<char>) -> Seq<Seq<char>>
    decreases text.len(),
{
    if text.len() == 0 {
        Seq::empty()
    } else {
        let j = first_at(text, 0, '\n');
        if 0 <= j < text.len() {
            seq![text.take(j)] + split_lines(text.skip(j + 1))
        } else {
            seq![text]
        }
    }
}

/// Splitting takes one newline-free line off the front at a time.
proof fn lemma_split_cons(l: Seq<char>, rest: Seq<char>)
    requires
        !l.contains('\n'),
    ensures
        split_lines(l + seq!['\n'] + rest) == seq![l] + split_lines(rest),
{
    let text = l + seq!['\n'] + rest;
    assert forall|k: int| 0 <= k < l.len() implies text[k] != '\n' by {
        assert(text[k] == l[k]);
        assert(!l.contains('\n') ==> l[k] != '\n');
    }
    assert(text[l.len() as int] == '\n');
    lemma_first_at_is(text, 0, l.len() as int, '\n');
    assert(text.take(l.len() as int) =~= l);
    assert(text.skip(l.len() as int + 1) =~= rest);
}

/// The lines joined back, each closed by a newline.
pub open spec fn join_lines(ls: Seq<Seq<char>>) -> Seq<char>
    decreases ls.len(),
{
    if ls.len() == 0 {
        Seq::empty()
    } else {
        ls.first() + seq!['\n'] + join_lines(ls.drop_first())
    }
}

/// Joining distributes over appending one line at the end.
proof fn lemma_join_push(ls: Seq<Seq<char>>, l: Seq<char>)
    ensures
        join_lines(ls.push(l)) == join_lines(ls) + l + seq!['\n'],
    decreases ls.len(),
{
    if ls.len() == 0 {
        assert(ls.push(l).first() == l);
        assert(ls.push(l).drop_first() =~= ls);
        assert(join_lines(ls) == Seq::<char>::empty());
        assert(join_lines(ls.push(l)) == l + seq!['\n'] + join_lines(ls.push(l).drop_first()));
        assert(join_lines(ls.push(l)) =~= join_lines(ls) + l + seq!['\n']);
    } else {
        assert(ls.push(l).drop_first() =~= ls.drop_first().push(l));
        lemma_join_push(ls.drop_first(), l);
        assert(ls.push(l).first() == ls.first());
        assert(join_lines(ls) == ls.first() + seq!['\n'] + join_lines(ls.drop_first()));
        assert(join_lines(ls.push(l)) == ls.first() + seq!['\n'] + join_lines(
            ls.drop_first().push(l),
        ));
        assert(join_lines(ls.push(l)) =~= join_lines(ls) + l + seq!['\n']);
    }
}

/// Splitting inverts joining, line for line, when no line holds a newline.
proof fn lemma_split_join(ls: Seq<Seq<char>>)
    requires
        forall|t: int| 0 <= t < ls.len() ==> !(#[trigger] ls[t]).contains('\n'),
    ensures
        split_lines(join_lines(ls)) == ls,
    decreases ls.len(),
{
    if ls.len() > 0 {
        assert(!ls.first().contains('\n'));
        lemma_split_cons(ls.first(), join_lines(ls.drop_first()));
        lemma_split_join(ls.drop_first());
        assert(seq![ls.first()] + ls.drop_first() =~= ls);
    }
}

/// The edge line of one listed edge.
pub open spec fn edge_line_of(names: Seq<Seq<char>>, e: (usize, usize)) -> Seq<char> {
    render_edge_line(names[e.0 as int], names[e.1 as int])
}

/// The lines of the text, in order: header, nodes, edges, footer.
pub open spec fn export_lines(names: Seq<Seq<char>>, es: Seq<(usize, usize)>) -> Seq<Seq<char>> {
    seq![header_line()] + names.map_values(|n: Seq<char>| render_node_line(n)) + es.map_values(
        |e: (usize, usize)| edge_line_of(names, e),
    ) + seq![footer_line()]
}

/// The node lines are the joined rendered names.
proof fn lemma_node_lines_join(names: Seq<Seq<char>>)
    ensures
        node_lines(names) == join_lines(names.map_values(|n: Seq<char>| render_node_line(n))),
    decreases names.len(),
{
    let f = |n: Seq<char>| render_node_line(n);
    if names.len() == 0 {
        assert(names.map_values(f) =~= Seq::<Seq<char>>::empty());
    } else {
        lemma_node_lines_join(names.drop_last());
        assert(names.map_values(f) =~= names.drop_last().map_values(f).push(f(names.last())));
        lemma_join_push(names.drop_last().map_values(f), f(names.last()));
    }
}

/// The edge lines are the joined rendered edges.
proof fn lemma_edge_lines_join(names: Seq<Seq<char>>, es: Seq<(usize, usize)>)
    ensures
        edge_lines(names, es) == join_lines(es.map_values(|e: (usize, usize)| edge_line_of(names, e))),
    decreases es.len(),
{
    let f = |e: (usize, usize)| edge_line_of(names, e);
    if es.len() == 0 {
        assert(es.map_values(f) =~= Seq::<Seq<char>>::empty());
    } else {
        lemma_edge_lines_join(names, es.drop_last());
        assert(es.map_values(f) =~= es.drop_last().map_values(f).push(f(es.last())));
        lemma_join_push(es.drop_last().map_values(f), f(es.last()));
    }
}

/// Joining distributes over concatenation of line lists.
proof fn lemma_join_concat(ls1: Seq<Seq<char>>, ls2: Seq<Seq<char>>)
    ensures
        join_lines(ls1 + ls2) == join_lines(ls1) + join_lines(ls2),
    decreases ls1.len(),
{
    if ls1.len() == 0 {
        assert(ls1 + ls2 =~= ls2);
        assert(join_lines(ls1) + join_lines(ls2) =~= join_lines(ls2));
    } else {
        assert((ls1 + ls2).drop_first() =~= ls1.drop_first() + ls2);
        lemma_join_concat(ls1.drop_first(), ls2);
        assert((ls1 + ls2).first() == ls1.first());
        assert(join_lines(ls1 + ls2) =~= join_lines(ls1) + join_lines(ls2));
    }
}

/// The text is its lines joined.
proof fn lemma_export_text_lines(names: Seq<Seq<char>>, es: Seq<(usize, usize)>)
    ensures
        export_text(names, es) == join_lines(export_lines(names, es)),
{
    let nls = names.map_values(|n: Seq<char>| render_node_line(n));
    let els = es.map_values(|e: (usize, usize)| edge_line_of(names, e));
    lemma_node_lines_join(names);
    lemma_edge_lines_join(names, es);
    lemma_join_concat(seq![header_line()], nls + els + seq![footer_line()]);
    lemma_join_concat(nls, els + seq![footer_line()]);
    lemma_join_concat(els, seq![footer_line()]);
    assert(seq![header_line()].drop_first() =~= Seq::<Seq<char>>::empty());
    assert(seq![footer_line()].drop_first() =~= Seq::<Seq<char>>::empty());
    assert(join_lines(seq![header_line()]) == header_line() + seq!['\n'] + join_lines(
        seq![header_line()].drop_first(),
    ));
    assert(join_lines(seq![footer_line()]) == footer_line() + seq!['\n'] + join_lines(
        seq![footer_line()].drop_first(),
    ));
    assert(join_lines(seq![header_line()]) =~= header_text());
    assert(join_lines(seq![footer_line()]) =~= footer_text());
    assert(seq![header_line()] + (nls + els + seq![footer_line()]) =~= export_lines(names, es));
    assert(nls + (els + seq![footer_line()]) =~= nls + els + seq![footer_line()]);
    assert(export_text(names, es) =~= join_lines(export_lines(names, es)));
}

/// Whether a line reads as a node line, and the name it carries.
pub open spec fn parse_is_node(l: Seq<char>) -> bool {
    l.len() >= 3 && l[0] == '"' && first_at(l, 1, '"') == l.len() - 2 && l[l.len() - 1] == ';'
}

/// The name of a node line.
pub open spec fn parse_node_name(l: Seq<char>) -> Seq<char> {
    l.subrange(1, l.len() - 2)
}

/// Whether a line reads as an edge line, and the two names it carries.
pub open spec fn parse_is_edge(l: Seq<char>) -> bool {
    let j = first_at(l, 1, '"');
    &&& l.len() >= 9
    &&& l[0] == '"'
    &&& j + 6 <= l.len() - 2
    &&& l.subrange(j, j + 6) == quote_arrow()
    &&& first_at(l, j + 6, '"') == l.len() - 2
    &&& l[l.len() - 1] == ';'
}

/// The two names of an edge line, as (dependent, dependency).
pub open spec fn parse_edge_pair(l: Seq<char>) -> (Seq<char>, Seq<char>) {
    let j = first_at(l, 1, '"');
    (l.subrange(1, j), l.subrange(j + 6, l.len() - 2))
}

/// The node names read back from the text.
pub open spec fn parsed_nodes(text: Seq<char>) -> Set<Seq<char>> {
    Set::new(
        |a: Seq<char>|
            exists|t: int|
                0 <= t < split_lines(text).len() && parse_is_node(#[trigger] split_lines(text)[t])
                    && parse_node_name(split_lines(text)[t]) == a,
    )
}

/// The edge name pairs read back from the text.
pub open spec fn parsed_edges(text: Seq<char>) -> Set<(Seq<char>, Seq<char>)> {
    Set::new(
        |e: (Seq<char>, Seq<char>)|
            exists|t: int|
                0 <= t < split_lines(text).len() && parse_is_edge(#[trigger] split_lines(text)[t])
                    && parse_edge_pair(split_lines(text)[t]) == e,
    )
}

/// A rendered node line parses back to exactly its name, and to nothing
/// else.
proof fn lemma_parse_node_line(name: Seq<char>)
    requires
        !name.contains('"'),
    ensures
        parse_is_node(render_node_line(name)),
        parse_node_name(render_node_line(name)) == name,
        !parse_is_edge(render_node_line(name)),
{
    let l = render_node_line(name);
    assert(l.len() == name.len() + 3);
    assert forall|k: int| 1 <= k < name.len() + 1 implies l[k] != '"' by {
        assert(l[k] == name[k - 1]);
        assert(!name.contains('"') ==> name[k - 1] != '"');
    }
    assert(l[name.len() as int + 1] == '"');
    lemma_first_at_is(l, 1, name.len() as int + 1, '"');
    assert(parse_node_name(l) =~= name);
}

/// A rendered edge line parses back to exactly its two names, and to
/// nothing else.
proof fn lemma_parse_edge_line(a: Seq<char>, b: Seq<char>)
    requires
        !a.contains('"'),
        !b.contains('"'),
    ensures
        parse_is_edge(render_edge_line(a, b)),
        parse_edge_pair(render_edge_line(a, b)) == (a, b),
        !parse_is_node(render_edge_line(a, b)),
{
    let l = render_edge_line(a, b);
    let j: int = 1 + a.len() as int;
    assert(l.len() == a.len() + b.len() + 9);
    assert forall|k: int| 1 <= k < j implies l[k] != '"' by {
        assert(l[k] == a[k - 1]);
        assert(!a.contains('"') ==> a[k - 1] != '"');
    }
    assert(l[j] == '"');
    lemma_first_at_is(l, 1, j, '"');
    assert(l.subrange(j, j + 6) =~= quote_arrow());
    assert forall|k: int| j + 6 <= k < l.len() - 2 implies l[k] != '"' by {
        assert(l[k] == b[k - (j + 6)]);
        assert(!b.contains('"') ==> b[k - (j + 6)] != '"');
    }
    assert(l[l.len() - 2] == '"');
    lemma_first_at_is(l, j + 6, l.len() - 2, '"');
    assert(l.subrange(1, j) =~= a);
    assert(l.subrange(j + 6, l.len() - 2) =~= b);
}

/// Neither the header line nor the footer line reads as a node or an edge.
proof fn lemma_parse_frame_lines()
    ensures
        !parse_is_node(header_line()),
        !parse_is_edge(header_line()),
        !parse_is_node(footer_line()),
        !parse_is_edge(footer_line()),
{
    assert(header_line()[0] == 'd');
    assert(footer_line().len() == 1);
}

/// Re-parsing the exported text recovers exactly the node set and the
/// edge set of the graph it was rendered from, whatever order the edges
/// were listed in. The names must hold no quote and no newline, the two
/// characters the format spends.
#[verifier::rlimit(100)]
pub proof fn lemma_export_round_trip(names: Seq<Seq<char>>, es: Seq<(usize, usize)>)
    requires
        forall|i: int|
            0 <= i < names.len() ==> !(#[trigger] names[i]).contains('"') && !names[i].contains(
                '\n',
            ),
        forall|t: int|
            0 <= t < es.len() ==> (#[trigger] es[t]).0 < names.len() && es[t].1 < names.len(),
    ensures
        parsed_nodes(export_text(names, es)) == names.to_set(),
        parsed_edges(export_text(names, es)) == Set::new(
            |e: (Seq<char>, Seq<char>)|
                exists|t: int|
                    0 <= t < es.len() && names[(#[trigger] es[t]).0 as int] == e.0
                        && names[es[t].1 as int] == e.1,
        ),
{
    let text = export_text(names, es);
    let ls = export_lines(names, es);
    let nls = names.map_values(|n: Seq<char>| render_node_line(n));
    let els = es.map_values(|e: (usize, usize)| edge_line_of(names, e));
    lemma_export_text_lines(names, es);
    assert forall|t: int| 0 <= t < ls.len() implies !(#[trigger] ls[t]).contains('\n') by {
        lemma_line_shapes(names, es, t);
    }
    lemma_split_join(ls);
    assert(split_lines(text) == ls);
    assert(parsed_nodes(text) =~= names.to_set()) by {
        assert forall|a: Seq<char>| parsed_nodes(text).contains(a) implies names.to_set().contains(
            a,
        ) by {
            let t = choose|t: int|
                0 <= t < ls.len() && parse_is_node(#[trigger] split_lines(text)[t])
                    && parse_node_name(split_lines(text)[t]) == a;
            lemma_line_shapes(names, es, t);
            assert(1 <= t < 1 + names.len());
            assert(names.contains(names[t - 1]));
        }
        assert forall|a: Seq<char>| names.to_set().contains(a) implies parsed_nodes(text).contains(
            a,
        ) by {
            let i = choose|i: int| 0 <= i < names.len() && names[i] == a;
            lemma_parse_node_line(names[i]);
            assert(ls[1 + i] == nls[i] && nls[i] == render_node_line(names[i]));
            assert(parse_is_node(split_lines(text)[1 + i]) && parse_node_name(
                split_lines(text)[1 + i],
            ) == a);
        }
    }
    let espairs = Set::new(
        |e: (Seq<char>, Seq<char>)|
            exists|t: int|
                0 <= t < es.len() && names[(#[trigger] es[t]).0 as int] == e.0
                    && names[es[t].1 as int] == e.1,
    );
    assert(parsed_edges(text) =~= espairs) by {
        assert forall|e: (Seq<char>, Seq<char>)| parsed_edges(text).contains(e)
            implies espairs.contains(e) by {
            let t = choose|t: int|
                0 <= t < ls.len() && parse_is_edge(#[trigger] split_lines(text)[t])
                    && parse_edge_pair(split_lines(text)[t]) == e;
            lemma_line_shapes(names, es, t);
            assert(1 + names.len() <= t < 1 + names.len() + es.len());
            let t2 = t - 1 - names.len();
            assert(0 <= t2 < es.len() && names[es[t2].0 as int] == e.0 && names[es[t2].1 as int]
                == e.1);
        }
        assert forall|e: (Seq<char>, Seq<char>)| espairs.contains(e) implies parsed_edges(
            text,
        ).contains(e) by {
            let t2 = choose|t2: int|
                0 <= t2 < es.len() && names[(#[trigger] es[t2]).0 as int] == e.0
                    && names[es[t2].1 as int] == e.1;
            lemma_parse_edge_line(names[es[t2].0 as int], names[es[t2].1 as int]);
            assert(ls[1 + names.len() + t2] == els[t2] && els[t2] == render_edge_line(
                names[es[t2].0 as int],
                names[es[t2].1 as int],
            ));
            assert(parse_is_edge(split_lines(text)[1 + names.len() + t2]) && parse_edge_pair(
                split_lines(text)[1 + names.len() + t2],
            ) == e);
        }
    }
}

/// What each line of the text is: the header, a node line, an edge line,
/// or the footer, each free of newlines and parsed as only itself.
#[verifier::rlimit(100)]
proof fn lemma_line_shapes(names: Seq<Seq<char>>, es: Seq<(usize, usize)>, t: int)
    requires
        forall|i: int|
            0 <= i < names.len() ==> !(#[trigger] names[i]).contains('"') && !names[i].contains(
                '\n',
            ),
        forall|t2: int|
            0 <= t2 < es.len() ==> (#[trigger] es[t2]).0 < names.len() && es[t2].1 < names.len(),
        0 <= t < export_lines(names, es).len(),
    ensures
        !export_lines(names, es)[t].contains('\n'),
        parse_is_node(export_lines(names, es)[t]) <==> 1 <= t < 1 + names.len(),
        parse_is_node(export_lines(names, es)[t]) ==> parse_node_name(export_lines(names, es)[t])
            == names[t - 1],
        parse_is_edge(export_lines(names, es)[t]) <==> 1 + names.len() <= t < 1 + names.len()
            + es.len(),
        parse_is_edge(export_lines(names, es)[t]) ==> parse_edge_pair(export_lines(names, es)[t])
            == (names[es[t - 1 - names.len()].0 as int], names[es[t - 1 - names.len()].1 as int]),
{
    let ls = export_lines(names, es);
    lemma_parse_frame_lines();
    if t == 0 {
        assert(ls[t] == header_line());
        assert(!header_line().contains('\n')) by {
            assert forall|k: int| 0 <= k < header_line().len() implies header_line()[k] != '\n' by {
            }
        }
    } else if t < 1 + names.len() {
        let i = t - 1;
        assert(ls[t] == render_node_line(names[i]));
        lemma_parse_node_line(names[i]);
        let l = render_node_line(names[i]);
        assert(!l.contains('\n')) by {
            if l.contains('\n') {
                let k = choose|k: int| 0 <= k < l.len() && l[k] == '\n';
                if 1 <= k < l.len() - 2 {
                    assert(names[i][k - 1] == '\n');
                    assert(names[i].contains(names[i][k - 1]));
                }
            }
        }
    } else if t < 1 + names.len() + es.len() {
        let t2 = t - 1 - names.len();
        let a = names[es[t2].0 as int];
        let b = names[es[t2].1 as int];
        assert(ls[t] == render_edge_line(a, b));
        lemma_parse_edge_line(a, b);
        let l = render_edge_line(a, b);
        assert(!l.contains('\n')) by {
            if l.contains('\n') {
                let k = choose|k: int| 0 <= k < l.len() && l[k] == '\n';
                if 1 <= k < 1 + a.len() {
                    assert(a[k - 1] == '\n');
                    assert(a.contains(a[k - 1]));
                } else if 1 + a.len() + 6 <= k < l.len() - 2 {
                    assert(b[k - a.len() - 7] == '\n');
                    assert(b.contains(b[k - a.len() - 7]));
                }
            }
        }
    } else {
        assert(ls[t] == footer_line());
    }
}

/// Round trip at the graph: any listing of the graph's edges, rendered as
/// DOT text, parses back to exactly the graph's node set and edge set —
/// the text `export_dot` returns loses nothing but the edge order. The
/// names must hold no quote and no newline, the two characters the format
/// spends.
pub proof fn lemma_export_dot_round_trip(graph: DepsGraph, es: Seq<(usize, usize)>)
    requires
        graph.wf(),
        edge_listing(es, edges_of(graph.pg)),
        forall|i: int|
            0 <= i < graph.names_view().len() ==> !(#[trigger] graph.names_view()[i]).contains('"')
                && !graph.names_view()[i].contains('\n'),
    ensures
        parsed_nodes(export_text(graph.names_view(), es)) == graph.node_set(),
        parsed_edges(export_text(graph.names_view(), es)) == graph.edge_set(),
{
    let nv = graph.names_view();
    assert forall|t: int| 0 <= t < es.len() implies (#[trigger] es[t]).0 < nv.len() && es[t].1
        < nv.len() by {
        assert(es.contains(es[t]));
        assert(edges_of(graph.pg).contains(es[t]));
    }
    lemma_export_round_trip(nv, es);
    let espairs = Set::new(
        |e: (Seq<char>, Seq<char>)|
            exists|t: int|
                0 <= t < es.len() && nv[(#[trigger] es[t]).0 as int] == e.0 && nv[es[t].1 as int]
                    == e.1,
    );
    assert(espairs =~= graph.edge_set()) by {
        assert forall|e: (Seq<char>, Seq<char>)| espairs.contains(e) implies graph.edge_set()
            .contains(e) by {
            let t = choose|t: int|
                0 <= t < es.len() && nv[(#[trigger] es[t]).0 as int] == e.0 && nv[es[t].1 as int]
                    == e.1;
            assert(es.contains(es[t]));
            assert(edges_of(graph.pg).contains(es[t]));
        }
        assert forall|e: (Seq<char>, Seq<char>)| graph.edge_set().contains(e) implies espairs
            .contains(e) by {
            let ij = choose|ij: (usize, usize)|
                #[trigger] edges_of(graph.pg).contains(ij) && ij.0 < nv.len() && ij.1 < nv.len()
                    && nv[ij.0 as int] == e.0 && nv[ij.1 as int] == e.1;
            assert(es.contains(ij));
            let t = choose|t: int| 0 <= t < es.len() && es[t] == ij;
            assert(nv[es[t].0 as int] == e.0 && nv[es[t].1 as int] == e.1);
        }
    }
}

} // verus!
