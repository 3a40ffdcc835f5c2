//! The project graph written out: as a Graphviz DOT document (nodes
//! coloured by kind, each distinct link drawn once) and as Cypher
//! statements for a graph database (ids, names and files quoted so that
//! the statements stay well formed).
use vstd::prelude::*;
use crate::graph::{links_view, nodes_view, Graph, Node, NodeView};
use crate::text::{chars_of, occurs_at, push_chars, push_str, replace_char, replace_char_chars, same_text, string_from_chars};

verus! {

// ---------------------------------------------------------------------
// Distinct links
// ---------------------------------------------------------------------

/// The links without repeats: each distinct link once, where it first
/// occurs.
pub open spec fn distinct_links(links: Seq<(Seq<char>, Seq<char>)>) -> Seq<(Seq<char>, Seq<char>)>
    decreases links.len(),
{
    if links.len() == 0 {
        Seq::empty()
    } else {
        let p = distinct_links(links.drop_last());
        if links.drop_last().contains(links.last()) {
            p
        } else {
            p.push(links.last())
        }
    }
}

/// The distinct links hold every link, each exactly once, and nothing else.
pub proof fn lemma_distinct_links(links: Seq<(Seq<char>, Seq<char>)>)
    ensures
        forall|x: (Seq<char>, Seq<char>)| #[trigger]
            distinct_links(links).contains(x) <==> links.contains(x),
        forall|i: int, j: int|
            0 <= i < j < distinct_links(links).len() ==> #[trigger] distinct_links(links)[i]
                != #[trigger] distinct_links(links)[j],
    decreases links.len(),
{
    if links.len() > 0 {
        let prefix = links.drop_last();
        let x = links.last();
        lemma_distinct_links(prefix);
        let p = distinct_links(prefix);
        assert forall|y: (Seq<char>, Seq<char>)| #[trigger]
            distinct_links(links).contains(y) <==> links.contains(y) by {
            if links.contains(y) {
                let k = choose|k: int| 0 <= k < links.len() && links[k] == y;
                if k < links.len() - 1 {
                    assert(prefix[k] == y);
                    assert(prefix.contains(y));
                }
            }
            if prefix.contains(y) {
                let k = choose|k: int| 0 <= k < prefix.len() && prefix[k] == y;
                assert(links[k] == y);
            }
            if !prefix.contains(x) {
                if p.push(x).contains(y) {
                    let k = choose|k: int| 0 <= k < p.push(x).len() && p.push(x)[k] == y;
                    if k < p.len() {
                        assert(p[k] == y);
                        assert(p.contains(y));
                    }
                }
                if p.contains(y) {
                    let k = choose|k: int| 0 <= k < p.len() && p[k] == y;
                    assert(p.push(x)[k] == y);
                }
                assert(p.push(x)[p.len() as int] == x);
            }
            assert(links[links.len() - 1] == x);
        }
        if !prefix.contains(x) {
            assert forall|i: int, j: int|
                0 <= i < j < p.push(x).len() implies #[trigger] p.push(x)[i]
                != #[trigger] p.push(x)[j] by {
                if j == p.len() {
                    assert(p.contains(p[i]));
                } else {
                    assert(p[i] != p[j]);
                }
            }
        }
    }
}

/// Whether the link at `i` already occurred before it.
fn seen_before(links: &Vec<(String, String)>, i: usize) -> (b: bool)
    requires
        i < links@.len(),
    ensures
        b == links_view(links@).take(i as int).contains(links_view(links@)[i as int]),
{
    let ghost lv = links_view(links@);
    let mut j: usize = 0;
    while j < i
        invariant
            i < links@.len(),
            j <= i,
            lv == links_view(links@),
            forall|k: int| 0 <= k < j ==> lv[k] != lv[i as int],
        decreases i - j,
    {
        if same_text(links[j].0.as_str(), links[i].0.as_str()) && same_text(
            links[j].1.as_str(),
            links[i].1.as_str(),
        ) {
            proof {
                assert(lv.take(i as int)[j as int] == lv[i as int]);
            }
            return true;
        }
        j = j + 1;
    }
    proof {
        if lv.take(i as int).contains(lv[i as int]) {
            let k = choose|k: int| 0 <= k < i && lv.take(i as int)[k] == lv[i as int];
            assert(lv[k] == lv[i as int]);
        }
    }
    false
}

// ---------------------------------------------------------------------
// DOT
// ---------------------------------------------------------------------

/// The fill colour of a node of this kind: structs and classes light blue,
/// functions and methods light green, modules light grey, `impl` blocks
/// light yellow, anything else white.
pub open spec fn dot_color(kind: Seq<char>) -> Seq<char> {
    if kind == "23"@ || kind == "5"@ {
        "lightblue"@
    } else if kind == "12"@ || kind == "6"@ {
        "lightgreen"@
    } else if kind == "2"@ {
        "lightgrey"@
    } else if kind == "26"@ {
        "lightyellow"@
    } else {
        "white"@
    }
}

fn dot_color_exec(kind: &str) -> (c: &'static str)
    ensures
        c@ == dot_color(kind@),
{
    if same_text(kind, "23") || same_text(kind, "5") {
        "lightblue"
    } else if same_text(kind, "12") || same_text(kind, "6") {
        "lightgreen"
    } else if same_text(kind, "2") {
        "lightgrey"
    } else if same_text(kind, "26") {
        "lightyellow"
    } else {
        "white"
    }
}

/// A node's name with each `"` written as `\"`.
pub open spec fn dot_escape(name: Seq<char>) -> Seq<char> {
    replace_char(name, '"', seq!['\\', '"'])
}

/// The DOT statement of a node:
/// `  "id" [label="name\n(kind:k)", fillcolor="colour", style="filled,rounded"];`
pub open spec fn dot_node_line(n: NodeView) -> Seq<char> {
    "  \""@ + n.id + "\" [label=\""@ + dot_escape(n.name) + "\\n(kind:"@ + n.kind
        + ")\", fillcolor=\""@ + dot_color(n.kind) + "\", style=\"filled,rounded\"];\n"@
}

/// The DOT statement of a link: `  "from" -> "to";`
pub open spec fn dot_link_line(l: (Seq<char>, Seq<char>)) -> Seq<char> {
    "  \""@ + l.0 + "\" -> \""@ + l.1 + "\";\n"@
}

/// The statements of the nodes, in order.
pub open spec fn dot_nodes(nodes: Seq<NodeView>) -> Seq<char>
    decreases nodes.len(),
{
    if nodes.len() == 0 {
        Seq::empty()
    } else {
        dot_nodes(nodes.drop_last()) + dot_node_line(nodes.last())
    }
}

/// The statements of the links, in order.
pub open spec fn dot_links(links: Seq<(Seq<char>, Seq<char>)>) -> Seq<char>
    decreases links.len(),
{
    if links.len() == 0 {
        Seq::empty()
    } else {
        dot_links(links.drop_last()) + dot_link_line(links.last())
    }
}

/// The opening of the document: the graph, left to right, and the look of
/// its nodes and links.
pub open spec fn dot_preamble() -> Seq<char> {
    "digraph NeuroGraph {\n"@ + "  rankdir=LR;\n"@
        + "  node [shape=box, style=rounded, fontname=\"Arial\", fontsize=10];\n"@
        + "  edge [fontsize=8, color=\"#555555\"];\n\n"@
}

/// The DOT document of a graph: the preamble, a statement per node, a
/// statement per distinct link, and the closing brace.
pub open spec fn dot_document_view(nodes: Seq<NodeView>, links: Seq<(Seq<char>, Seq<char>)>) -> Seq<
    char,
> {
    dot_preamble() + dot_nodes(nodes) + dot_links(distinct_links(links)) + "}\n"@
}

/// Drawing one more link adds exactly its statement, whatever its ends
/// (a link from a node to itself included).
pub proof fn lemma_dot_links_step(links: Seq<(Seq<char>, Seq<char>)>, l: (Seq<char>, Seq<char>))
    ensures
        dot_links(links.push(l)) == dot_links(links) + dot_link_line(l),
{
    assert(links.push(l).drop_last() =~= links);
}

proof fn lemma_dot_links_prefix(links: Seq<(Seq<char>, Seq<char>)>, j: int)
    requires
        0 <= j <= links.len(),
    ensures
        dot_links(links.take(j)).len() <= dot_links(links).len(),
        dot_links(links).subrange(0, dot_links(links.take(j)).len() as int) == dot_links(links.take(j)),
        j < links.len() ==> dot_links(links.take(j + 1)) == dot_links(links.take(j)) + dot_link_line(links[j]),
    decreases links.len(),
{
    if j < links.len() {
        assert(links.take(j + 1).drop_last() =~= links.take(j));
        assert(links.take(j + 1).last() == links[j]);
    }
    if j == links.len() {
        assert(links.take(j) =~= links);
        assert(dot_links(links).subrange(0, dot_links(links).len() as int) =~= dot_links(links));
    } else {
        let n = links.len() - 1;
        lemma_dot_links_prefix(links.drop_last(), j);
        assert(links.drop_last().take(j) =~= links.take(j));
        let a = dot_links(links.drop_last());
        assert(dot_links(links) == a + dot_link_line(links.last()));
        assert(dot_links(links).subrange(0, dot_links(links.take(j)).len() as int) =~= a.subrange(
            0,
            dot_links(links.take(j)).len() as int,
        ));
    }
}

/// Every link of the graph, a link from a node to itself included, has its
/// statement `"from" -> "to";` in the DOT document.
pub proof fn lemma_dot_draws_every_link(
    nodes: Seq<NodeView>,
    links: Seq<(Seq<char>, Seq<char>)>,
    l: (Seq<char>, Seq<char>),
)
    requires
        links.contains(l),
    ensures
        exists|i: int| occurs_at(dot_document_view(nodes, links), dot_link_line(l), i),
{
    lemma_distinct_links(links);
    let d = distinct_links(links);
    assert(d.contains(l));
    let k = choose|k: int| 0 <= k < d.len() && d[k] == l;
    lemma_dot_links_prefix(d, k);
    lemma_dot_links_prefix(d, k + 1);
    assert(dot_links(d).subrange(
        dot_links(d.take(k)).len() as int,
        dot_links(d.take(k)).len() + dot_link_line(l).len() as int,
    ) =~= dot_links(d.take(k + 1)).subrange(
        dot_links(d.take(k)).len() as int,
        dot_links(d.take(k + 1)).len() as int,
    ));
    let head = dot_preamble() + dot_nodes(nodes);
    let doc = dot_document_view(nodes, links);
    let i = head.len() + dot_links(d.take(k)).len() as int;
    let t = dot_link_line(l);
    assert(doc =~= head + dot_links(d) + "}\n"@);
    assert(doc.subrange(i, i + t.len()) =~= dot_links(d).subrange(
        dot_links(d.take(k)).len() as int,
        dot_links(d.take(k)).len() + t.len() as int,
    ));
    let a = dot_links(d.take(k));
    assert((a + t).subrange(a.len() as int, a.len() + t.len() as int) =~= t);
    assert(occurs_at(doc, t, i));
}

fn push_dot_node(out: &mut Vec<char>, n: &Node)
    ensures
        final(out)@ == old(out)@ + dot_node_line(n@),
{
    push_str(out, "  \"");
    push_str(out, n.id.as_str());
    push_str(out, "\" [label=\"");
    let name = chars_of(n.name.as_str());
    let escaped = replace_char_chars(name.as_slice(), '"', ['\\', '"'].as_slice());
    proof {
        assert(['\\', '"']@ =~= seq!['\\', '"']);
    }
    push_chars(out, escaped.as_slice());
    push_str(out, "\\n(kind:");
    push_str(out, n.kind.as_str());
    push_str(out, ")\", fillcolor=\"");
    push_str(out, dot_color_exec(n.kind.as_str()));
    push_str(out, "\", style=\"filled,rounded\"];\n");
    proof {
        assert(final(out)@ =~= old(out)@ + dot_node_line(n@));
    }
}

fn push_dot_link(out: &mut Vec<char>, l: &(String, String))
    ensures
        final(out)@ == old(out)@ + dot_link_line((l.0@, l.1@)),
{
    push_str(out, "  \"");
    push_str(out, l.0.as_str());
    push_str(out, "\" -> \"");
    push_str(out, l.1.as_str());
    push_str(out, "\";\n");
    proof {
        assert(final(out)@ =~= old(out)@ + dot_link_line((l.0@, l.1@)));
    }
}

/// The DOT document of the graph (what the explorer writes to
/// `.neurogit/graph.dot`).
pub fn dot_document(graph: &Graph) -> (s: String)
    ensures
        s@ == dot_document_view(graph.node_list(), graph.link_list()),
{
    let mut out: Vec<char> = Vec::new();
    push_str(&mut out, "digraph NeuroGraph {\n");
    push_str(&mut out, "  rankdir=LR;\n");
    push_str(&mut out, "  node [shape=box, style=rounded, fontname=\"Arial\", fontsize=10];\n");
    push_str(&mut out, "  edge [fontsize=8, color=\"#555555\"];\n\n");
    let ghost pre = out@;
    proof {
        assert(pre =~= dot_preamble());
    }
    let nodes = graph.nodes();
    let ghost nv = nodes_view(nodes@);
    let mut i: usize = 0;
    proof {
        assert(nv.take(0) =~= Seq::<NodeView>::empty());
        assert(out@ =~= pre + dot_nodes(nv.take(0)));
    }
    while i < nodes.len()
        invariant
            i <= nodes@.len(),
            nv == nodes_view(nodes@),
            out@ == pre + dot_nodes(nv.take(i as int)),
        decreases nodes@.len() - i,
    {
        proof {
            assert(nv.take(i + 1).drop_last() =~= nv.take(i as int));
            assert(nv.take(i + 1).last() == nodes@[i as int]@);
        }
        push_dot_node(&mut out, &nodes[i]);
        proof {
            assert(out@ =~= pre + dot_nodes(nv.take(i + 1)));
        }
        i = i + 1;
    }
    proof {
        assert(nv.take(nv.len() as int) =~= nv);
    }
    let ghost mid = out@;
    let links = graph.calls();
    let ghost lv = links_view(links@);
    let mut k: usize = 0;
    proof {
        assert(lv.take(0) =~= Seq::<(Seq<char>, Seq<char>)>::empty());
        assert(out@ =~= mid + dot_links(distinct_links(lv.take(0))));
    }
    while k < links.len()
        invariant
            k <= links@.len(),
            lv == links_view(links@),
            out@ == mid + dot_links(distinct_links(lv.take(k as int))),
        decreases links@.len() - k,
    {
        proof {
            assert(lv.take(k + 1).drop_last() =~= lv.take(k as int));
            assert(lv.take(k + 1).last() == lv[k as int]);
        }
        if !seen_before(links, k) {
            push_dot_link(&mut out, &links[k]);
            proof {
                let p = distinct_links(lv.take(k as int));
                assert(distinct_links(lv.take(k + 1)) == p.push(lv[k as int]));
                assert(p.push(lv[k as int]).drop_last() =~= p);
                assert(out@ =~= mid + dot_links(distinct_links(lv.take(k + 1))));
            }
        }
        k = k + 1;
    }
    proof {
        assert(lv.take(lv.len() as int) =~= lv);
    }
    push_str(&mut out, "}\n");
    proof {
        assert(out@ =~= dot_document_view(graph.node_list(), graph.link_list()));
    }
    string_from_chars(out.as_slice())
}

/// In a name written for DOT, every `"` has a backslash before it.
pub proof fn lemma_dot_quotes_escaped(name: Seq<char>)
    ensures
        forall|i: int|
            0 <= i < dot_escape(name).len() && #[trigger] dot_escape(name)[i] == '"' ==> i > 0
                && dot_escape(name)[i - 1] == '\\',
    decreases name.len(),
{
    if name.len() > 0 {
        lemma_dot_quotes_escaped(name.drop_last());
        let p = dot_escape(name.drop_last());
        let c = name.last();
        let tail = if c == '"' {
            seq!['\\', '"']
        } else {
            seq![c]
        };
        assert(dot_escape(name) == p + tail);
        assert forall|i: int|
            0 <= i < (p + tail).len() && #[trigger] (p + tail)[i] == '"' implies i > 0 && (p
            + tail)[i - 1] == '\\' by {
            if i < p.len() {
                assert(p[i] == '"');
            } else if c == '"' {
                if i == p.len() {
                    assert((p + tail)[i] == '\\');
                }
            }
        }
    }
}

// ---------------------------------------------------------------------
// Cypher
// ---------------------------------------------------------------------

/// An id or path made safe for a single-quoted Cypher string: `\` becomes
/// `/`, and `'` becomes `\'`.
pub open spec fn cypher_clean_path(s: Seq<char>) -> Seq<char> {
    quote_escaped(slashed(s))
}

/// A name made safe for a single-quoted Cypher string: `"` becomes `\"`,
/// and `'` becomes `\'`.
pub open spec fn cypher_clean_name(s: Seq<char>) -> Seq<char> {
    replace_char(replace_char(s, '"', seq!['\\', '"']), '\'', seq!['\\', '\''])
}

/// The statement that creates or updates a node.
pub open spec fn cypher_node_line(n: NodeView) -> Seq<char> {
    "MERGE (n:Node {id: '"@ + cypher_clean_path(n.id) + "'}) SET n.name = '"@ + cypher_clean_name(
        n.name,
    ) + "', n.kind = '"@ + n.kind + "', n.file = '"@ + cypher_clean_path(n.file) + "';\n"@
}

/// The statement that creates a link, with its two ends cleaned as node ids
/// are.
pub open spec fn cypher_link_line(l: (Seq<char>, Seq<char>)) -> Seq<char> {
    "MERGE (a:Node {id: '"@ + cypher_clean_path(l.0) + "'}) MERGE (b:Node {id: '"@
        + cypher_clean_path(l.1) + "'}) MERGE (a)-[:CALLS]->(b);\n"@
}

/// The statements of the nodes, in order.
pub open spec fn cypher_nodes(nodes: Seq<NodeView>) -> Seq<char>
    decreases nodes.len(),
{
    if nodes.len() == 0 {
        Seq::empty()
    } else {
        cypher_nodes(nodes.drop_last()) + cypher_node_line(nodes.last())
    }
}

/// The statements of the links, in order, repeats included.
pub open spec fn cypher_links(links: Seq<(Seq<char>, Seq<char>)>) -> Seq<char>
    decreases links.len(),
{
    if links.len() == 0 {
        Seq::empty()
    } else {
        cypher_links(links.drop_last()) + cypher_link_line(links.last())
    }
}

/// The Cypher script of a graph: the uniqueness constraint on node ids, a
/// statement per node, a statement per link.
pub open spec fn cypher_view(nodes: Seq<NodeView>, links: Seq<(Seq<char>, Seq<char>)>) -> Seq<char> {
    "CREATE CONSTRAINT IF NOT EXISTS FOR (n:Node) REQUIRE n.id IS UNIQUE;\n"@ + cypher_nodes(nodes)
        + cypher_links(links)
}

/// Writing one more link adds exactly its CALLS statement, whatever its
/// ends (a link from a node to itself included).
pub proof fn lemma_cypher_links_step(links: Seq<(Seq<char>, Seq<char>)>, l: (Seq<char>, Seq<char>))
    ensures
        cypher_links(links.push(l)) == cypher_links(links) + cypher_link_line(l),
{
    assert(links.push(l).drop_last() =~= links);
}

proof fn lemma_cypher_links_prefix(links: Seq<(Seq<char>, Seq<char>)>, j: int)
    requires
        0 <= j <= links.len(),
    ensures
        cypher_links(links.take(j)).len() <= cypher_links(links).len(),
        cypher_links(links).subrange(0, cypher_links(links.take(j)).len() as int) == cypher_links(links.take(j)),
        j < links.len() ==> cypher_links(links.take(j + 1)) == cypher_links(links.take(j)) + cypher_link_line(links[j]),
    decreases links.len(),
{
    if j < links.len() {
        assert(links.take(j + 1).drop_last() =~= links.take(j));
        assert(links.take(j + 1).last() == links[j]);
    }
    if j == links.len() {
        assert(links.take(j) =~= links);
        assert(cypher_links(links).subrange(0, cypher_links(links).len() as int) =~= cypher_links(links));
    } else {
        let n = links.len() - 1;
        lemma_cypher_links_prefix(links.drop_last(), j);
        assert(links.drop_last().take(j) =~= links.take(j));
        let a = cypher_links(links.drop_last());
        assert(cypher_links(links) == a + cypher_link_line(links.last()));
        assert(cypher_links(links).subrange(0, cypher_links(links.take(j)).len() as int) =~= a.subrange(
            0,
            cypher_links(links.take(j)).len() as int,
        ));
    }
}

/// The `k`-th link of the graph, a link from a node to itself included,
/// has its CALLS statement in the Cypher script, after the statements of
/// the links before it.
pub proof fn lemma_cypher_writes_every_link(
    nodes: Seq<NodeView>,
    links: Seq<(Seq<char>, Seq<char>)>,
    k: int,
)
    requires
        0 <= k < links.len(),
    ensures
        occurs_at(
            cypher_view(nodes, links),
            cypher_link_line(links[k]),
            cypher_view(nodes, links.take(k)).len() as int,
        ),
{
    lemma_cypher_links_prefix(links, k);
    lemma_cypher_links_prefix(links, k + 1);
    assert(cypher_links(links).subrange(
        cypher_links(links.take(k)).len() as int,
        cypher_links(links.take(k)).len() + cypher_link_line(links[k]).len() as int,
    ) =~= cypher_links(links.take(k + 1)).subrange(
        cypher_links(links.take(k)).len() as int,
        cypher_links(links.take(k + 1)).len() as int,
    ));
    let head = "CREATE CONSTRAINT IF NOT EXISTS FOR (n:Node) REQUIRE n.id IS UNIQUE;\n"@ + cypher_nodes(nodes);
    let doc = cypher_view(nodes, links);
    let i = cypher_view(nodes, links.take(k)).len() as int;
    let t = cypher_link_line(links[k]);
    assert(doc =~= head + cypher_links(links));
    assert(cypher_view(nodes, links.take(k)) =~= head + cypher_links(links.take(k)));
    assert(doc.subrange(i, i + t.len()) =~= cypher_links(links).subrange(
        cypher_links(links.take(k)).len() as int,
        cypher_links(links.take(k)).len() + t.len() as int,
    ));
    let a = cypher_links(links.take(k));
    assert((a + t).subrange(a.len() as int, a.len() + t.len() as int) =~= t);
    assert(occurs_at(doc, t, i));
}

fn clean_path_exec(s: &str) -> (r: Vec<char>)
    ensures
        r@ == cypher_clean_path(s@),
{
    let cs = chars_of(s);
    let a = replace_char_chars(cs.as_slice(), '\\', ['/'].as_slice());
    let b = replace_char_chars(a.as_slice(), '\'', ['\\', '\''].as_slice());
    proof {
        assert(['/']@ =~= seq!['/']);
        assert(['\\', '\'']@ =~= seq!['\\', '\'']);
    }
    b
}

fn clean_name_exec(s: &str) -> (r: Vec<char>)
    ensures
        r@ == cypher_clean_name(s@),
{
    let cs = chars_of(s);
    let a = replace_char_chars(cs.as_slice(), '"', ['\\', '"'].as_slice());
    let b = replace_char_chars(a.as_slice(), '\'', ['\\', '\''].as_slice());
    proof {
        assert(['\\', '"']@ =~= seq!['\\', '"']);
        assert(['\\', '\'']@ =~= seq!['\\', '\'']);
    }
    b
}

fn push_cypher_node(out: &mut Vec<char>, n: &Node)
    ensures
        final(out)@ == old(out)@ + cypher_node_line(n@),
{
    push_str(out, "MERGE (n:Node {id: '");
    let id = clean_path_exec(n.id.as_str());
    push_chars(out, id.as_slice());
    push_str(out, "'}) SET n.name = '");
    let name = clean_name_exec(n.name.as_str());
    push_chars(out, name.as_slice());
    push_str(out, "', n.kind = '");
    push_str(out, n.kind.as_str());
    push_str(out, "', n.file = '");
    let file = clean_path_exec(n.file.as_str());
    push_chars(out, file.as_slice());
    push_str(out, "';\n");
    proof {
        assert(final(out)@ =~= old(out)@ + cypher_node_line(n@));
    }
}

fn push_cypher_link(out: &mut Vec<char>, l: &(String, String))
    ensures
        final(out)@ == old(out)@ + cypher_link_line((l.0@, l.1@)),
{
    push_str(out, "MERGE (a:Node {id: '");
    let a = clean_path_exec(l.0.as_str());
    push_chars(out, a.as_slice());
    push_str(out, "'}) MERGE (b:Node {id: '");
    let b = clean_path_exec(l.1.as_str());
    push_chars(out, b.as_slice());
    push_str(out, "'}) MERGE (a)-[:CALLS]->(b);\n");
    proof {
        assert(final(out)@ =~= old(out)@ + cypher_link_line((l.0@, l.1@)));
    }
}

/// The Cypher script that loads the graph into a graph database.
pub fn export_to_cypher(graph: &Graph) -> (s: String)
    ensures
        s@ == cypher_view(graph.node_list(), graph.link_list()),
{
    let mut out: Vec<char> = Vec::new();
    push_str(&mut out, "CREATE CONSTRAINT IF NOT EXISTS FOR (n:Node) REQUIRE n.id IS UNIQUE;\n");
    let ghost pre = out@;
    let nodes = graph.nodes();
    let ghost nv = nodes_view(nodes@);
    let mut i: usize = 0;
    proof {
        assert(nv.take(0) =~= Seq::<NodeView>::empty());
        assert(out@ =~= pre + cypher_nodes(nv.take(0)));
    }
    while i < nodes.len()
        invariant
            i <= nodes@.len(),
            nv == nodes_view(nodes@),
            out@ == pre + cypher_nodes(nv.take(i as int)),
        decreases nodes@.len() - i,
    {
        proof {
            assert(nv.take(i + 1).drop_last() =~= nv.take(i as int));
            assert(nv.take(i + 1).last() == nodes@[i as int]@);
        }
        push_cypher_node(&mut out, &nodes[i]);
        proof {
            assert(out@ =~= pre + cypher_nodes(nv.take(i + 1)));
        }
        i = i + 1;
    }
    proof {
        assert(nv.take(nv.len() as int) =~= nv);
    }
    let ghost mid = out@;
    let links = graph.calls();
    let ghost lv = links_view(links@);
    let mut k: usize = 0;
    proof {
        assert(lv.take(0) =~= Seq::<(Seq<char>, Seq<char>)>::empty());
        assert(out@ =~= mid + cypher_links(lv.take(0)));
    }
    while k < links.len()
        invariant
            k <= links@.len(),
            lv == links_view(links@),
            out@ == mid + cypher_links(lv.take(k as int)),
        decreases links@.len() - k,
    {
        proof {
            assert(lv.take(k + 1).drop_last() =~= lv.take(k as int));
            assert(lv.take(k + 1).last() == lv[k as int]);
        }
        push_cypher_link(&mut out, &links[k]);
        proof {
            assert(out@ =~= mid + cypher_links(lv.take(k + 1)));
        }
        k = k + 1;
    }
    proof {
        assert(lv.take(lv.len() as int) =~= lv);
        assert(out@ =~= cypher_view(graph.node_list(), graph.link_list()));
    }
    string_from_chars(out.as_slice())
}

/// In an id cleaned for Cypher, every `'` has a backslash before it and
/// every backslash has a `'` after it: the quoted string cannot end early.
pub proof fn lemma_cypher_quotes_escaped(s: Seq<char>)
    ensures
        forall|i: int|
            0 <= i < cypher_clean_path(s).len() && #[trigger] cypher_clean_path(s)[i] == '\''
                ==> i > 0 && cypher_clean_path(s)[i - 1] == '\\',
        forall|i: int|
            0 <= i < cypher_clean_path(s).len() && #[trigger] cypher_clean_path(s)[i] == '\\'
                ==> i + 1 < cypher_clean_path(s).len() && cypher_clean_path(s)[i + 1] == '\'',
{
    lemma_no_backslash(s);
    lemma_quote_escape(slashed(s));
}

/// `s` with each `\` written as `/`.
pub open spec fn slashed(s: Seq<char>) -> Seq<char> {
    replace_char(s, '\\', seq!['/'])
}

/// `s` with each `'` written as `\'`.
pub open spec fn quote_escaped(s: Seq<char>) -> Seq<char> {
    replace_char(s, '\'', seq!['\\', '\''])
}

proof fn lemma_no_backslash(s: Seq<char>)
    ensures
        forall|i: int| 0 <= i < slashed(s).len() ==> #[trigger] slashed(s)[i] != '\\',
    decreases s.len(),
{
    if s.len() > 0 {
        lemma_no_backslash(s.drop_last());
        let p = slashed(s.drop_last());
        let c = s.last();
        let tail = if c == '\\' {
            seq!['/']
        } else {
            seq![c]
        };
        assert(slashed(s) == p + tail);
        assert forall|i: int| 0 <= i < (p + tail).len() implies #[trigger] (p + tail)[i] != '\\' by {
            if i < p.len() {
                assert((p + tail)[i] == p[i]);
            }
        }
    }
}

proof fn lemma_quote_escape(t: Seq<char>)
    requires
        forall|i: int| 0 <= i < t.len() ==> #[trigger] t[i] != '\\',
    ensures
        forall|i: int|
            0 <= i < quote_escaped(t).len() && #[trigger] quote_escaped(t)[i] == '\''
                ==> i > 0 && quote_escaped(t)[i - 1] == '\\',
        forall|i: int|
            0 <= i < quote_escaped(t).len() && #[trigger] quote_escaped(t)[i] == '\\'
                ==> i + 1 < quote_escaped(t).len() && quote_escaped(t)[i + 1] == '\'',
    decreases t.len(),
{
    if t.len() > 0 {
        let u = t.drop_last();
        assert forall|i: int| 0 <= i < u.len() implies #[trigger] u[i] != '\\' by {
            assert(u[i] == t[i]);
        }
        lemma_quote_escape(u);
        let p = quote_escaped(u);
        let c = t.last();
        assert(c == t[t.len() - 1]);
        let tail = if c == '\'' {
            seq!['\\', '\'']
        } else {
            seq![c]
        };
        let r = p + tail;
        assert(quote_escaped(t) == r);
        assert forall|i: int| 0 <= i < r.len() && #[trigger] r[i] == '\'' implies i > 0 && r[i
            - 1] == '\\' by {
            if i < p.len() {
                assert(p[i] == '\'');
            } else if c == '\'' {
                if i == p.len() {
                    assert(r[i] == '\\');
                }
            }
        }
        assert forall|i: int| 0 <= i < r.len() && #[trigger] r[i] == '\\' implies i + 1 < r.len()
            && r[i + 1] == '\'' by {
            if i < p.len() {
                assert(p[i] == '\\');
                if i + 1 < p.len() {
                    assert(r[i + 1] == p[i + 1]);
                }
            } else if c != '\'' {
                assert(r[i] == c);
            }
        }
    }
}

} // verus!
