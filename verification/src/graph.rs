//! The project graph: one node per symbol that the language server reports,
//! named `file:line:character`, and the links between them (a symbol to the
//! symbols declared inside it, an `impl` block's target to the block, a
//! function to the functions it calls).
use vstd::prelude::*;

verus! {

// ---------------------------------------------------------------------
// Nodes and the graph
// ---------------------------------------------------------------------

/// A symbol of the project: its id (`file:line:character`), its name, the
/// file it is declared in, its position, and its kind (the number the
/// language server gives, in decimal).
#[derive(Debug, Clone, PartialEq, Eq, Hash)]
pub struct Node {
    pub id: String,
    pub name: String,
    pub file: String,
    pub line: u32,
    pub col: u32,
    pub kind: String,
}

/// The mathematical form of a [`Node`].
pub struct NodeView {
    pub id: Seq<char>,
    pub name: Seq<char>,
    pub file: Seq<char>,
    pub line: u32,
    pub col: u32,
    pub kind: Seq<char>,
}

impl View for Node {
    type V = NodeView;

    open spec fn view(&self) -> NodeView {
        NodeView {
            id: self.id@,
            name: self.name@,
            file: self.file@,
            line: self.line,
            col: self.col,
            kind: self.kind@,
        }
    }
}

impl Node {
    /// A copy of the node.
    pub fn copy(&self) -> (n: Node)
        ensures
            n@ == self@,
    {
        Node {
            id: self.id.clone(),
            name: self.name.clone(),
            file: self.file.clone(),
            line: self.line,
            col: self.col,
            kind: self.kind.clone(),
        }
    }
}

/// The views of a sequence of nodes.
pub open spec fn nodes_view(v: Seq<Node>) -> Seq<NodeView> {
    Seq::new(v.len(), |i: int| v[i]@)
}

/// The views of a sequence of links.
pub open spec fn links_view(v: Seq<(String, String)>) -> Seq<(Seq<char>, Seq<char>)> {
    Seq::new(v.len(), |i: int| (v[i].0@, v[i].1@))
}

/// No two nodes share an id.
pub open spec fn ids_unique(nodes: Seq<NodeView>) -> bool {
    forall|i: int, j: int|
        0 <= i < nodes.len() && 0 <= j < nodes.len() && i != j ==> #[trigger] nodes[i].id
            != #[trigger] nodes[j].id
}

/// Where the node with this id stands, if there is one.
pub open spec fn node_index(nodes: Seq<NodeView>, id: Seq<char>) -> Option<int> {
    if exists|i: int| 0 <= i < nodes.len() && nodes[i].id == id {
        Some(choose|i: int| 0 <= i < nodes.len() && nodes[i].id == id)
    } else {
        None
    }
}

/// The nodes after `node` is put in: it takes the place of the node with
/// the same id where there is one, and comes last otherwise.
pub open spec fn nodes_after_insert(nodes: Seq<NodeView>, node: NodeView) -> Seq<NodeView> {
    match node_index(nodes, node.id) {
        Some(i) => nodes.update(i, node),
        None => nodes.push(node),
    }
}

/// The project graph: its nodes, each id at most once, and its links
/// (pairs of ids, in the order they were found).
#[derive(Debug)]
pub struct Graph {
    nodes: Vec<Node>,
    calls: Vec<(String, String)>,
}

impl Graph {
    /// The nodes, in the order they were first put in.
    pub closed spec fn node_list(&self) -> Seq<NodeView> {
        nodes_view(self.nodes@)
    }

    /// The links, in the order they were found.
    pub closed spec fn link_list(&self) -> Seq<(Seq<char>, Seq<char>)> {
        links_view(self.calls@)
    }

    #[verifier::type_invariant]
    closed spec fn unique_ids(&self) -> bool {
        ids_unique(nodes_view(self.nodes@))
    }

    /// An empty graph.
    pub fn new() -> (g: Graph)
        ensures
            g.node_list() == Seq::<NodeView>::empty(),
            g.link_list() == Seq::<(Seq<char>, Seq<char>)>::empty(),
    {
        let g = Graph { nodes: Vec::new(), calls: Vec::new() };
        proof {
            assert(nodes_view(g.nodes@) =~= Seq::<NodeView>::empty());
            assert(links_view(g.calls@) =~= Seq::<(Seq<char>, Seq<char>)>::empty());
        }
        g
    }

}

impl Default for Graph {
    /// An empty graph.
    fn default() -> (g: Graph)
        ensures
            g.node_list() == Seq::<NodeView>::empty(),
            g.link_list() == Seq::<(Seq<char>, Seq<char>)>::empty(),
    {
        Graph::new()
    }
}

impl Graph {
    /// The nodes.
    pub fn nodes(&self) -> (r: &Vec<Node>)
        ensures
            nodes_view(r@) == self.node_list(),
    {
        &self.nodes
    }

    /// The links.
    pub fn calls(&self) -> (r: &Vec<(String, String)>)
        ensures
            links_view(r@) == self.link_list(),
    {
        &self.calls
    }

    /// Where the node with this id stands.
    pub fn find(&self, id: &str) -> (r: Option<usize>)
        ensures
            match r {
                Some(i) => node_index(self.node_list(), id@) == Some(i as int),
                None => node_index(self.node_list(), id@).is_none(),
            },
    {
        proof {
            use_type_invariant(self);
        }
        let ghost nv = nodes_view(self.nodes@);
        let mut i: usize = 0;
        while i < self.nodes.len()
            invariant
                i <= self.nodes@.len(),
                nv == nodes_view(self.nodes@),
                ids_unique(nv),
                forall|j: int| 0 <= j < i ==> nv[j].id != id@,
            decreases self.nodes@.len() - i,
        {
            if crate::text::same_text(self.nodes[i].id.as_str(), id) {
                proof {
                    assert(nv[i as int].id == id@);
                    let k = choose|k: int| 0 <= k < nv.len() && nv[k].id == id@;
                    if k != i {
                        assert(nv[k].id != nv[i as int].id);
                    }
                }
                return Some(i);
            }
            i = i + 1;
        }
        None
    }

    /// Puts a node in: it takes the place of the node with the same id, or
    /// comes last where there is none.
    pub fn insert_node(&mut self, node: Node)
        ensures
            final(self).node_list() == nodes_after_insert(old(self).node_list(), node@),
            final(self).link_list() == old(self).link_list(),
            ids_unique(old(self).node_list()),
            ids_unique(final(self).node_list()),
    {
        proof {
            use_type_invariant(&*self);
        }
        let ghost old_nodes = nodes_view(self.nodes@);
        let ghost nv = node@;
        let found = self.find(node.id.as_str());
        let mut v: Vec<Node> = Vec::new();
        std::mem::swap(&mut v, &mut self.nodes);
        match found {
            Some(i) => {
                v.set(i, node);
                proof {
                    assert(nodes_view(v@) =~= old_nodes.update(i as int, nv));
                    assert forall|a: int, b: int|
                        0 <= a < nodes_view(v@).len() && 0 <= b < nodes_view(v@).len() && a
                            != b implies #[trigger] nodes_view(v@)[a].id != #[trigger] nodes_view(
                        v@,
                    )[b].id by {
                        if a != i && b != i {
                            assert(old_nodes[a].id != old_nodes[b].id);
                        } else if a == i {
                            assert(old_nodes[i as int].id == nv.id);
                            assert(old_nodes[b].id != old_nodes[i as int].id);
                        } else {
                            assert(old_nodes[i as int].id == nv.id);
                            assert(old_nodes[a].id != old_nodes[i as int].id);
                        }
                    }
                }
            },
            None => {
                v.push(node);
                proof {
                    assert(nodes_view(v@) =~= old_nodes.push(nv));
                    assert forall|a: int, b: int|
                        0 <= a < nodes_view(v@).len() && 0 <= b < nodes_view(v@).len() && a
                            != b implies #[trigger] nodes_view(v@)[a].id != #[trigger] nodes_view(
                        v@,
                    )[b].id by {
                        if a < old_nodes.len() && b < old_nodes.len() {
                            assert(old_nodes[a].id != old_nodes[b].id);
                        } else if a == old_nodes.len() {
                            assert(!(0 <= b < old_nodes.len() && old_nodes[b].id == nv.id));
                        } else {
                            assert(!(0 <= a < old_nodes.len() && old_nodes[a].id == nv.id));
                        }
                    }
                }
            },
        }
        self.nodes = v;
    }

    /// Adds a link from `from` to `to` after the others.
    pub fn add_link(&mut self, from: String, to: String)
        ensures
            final(self).node_list() == old(self).node_list(),
            final(self).link_list() == old(self).link_list().push((from@, to@)),
    {
        proof {
            use_type_invariant(&*self);
        }
        let ghost f = from@;
        let ghost t = to@;
        let mut v: Vec<(String, String)> = Vec::new();
        std::mem::swap(&mut v, &mut self.calls);
        let ghost old_calls = v@;
        v.push((from, to));
        proof {
            assert(links_view(v@) =~= links_view(old_calls).push((f, t)));
        }
        self.calls = v;
    }
}

/// After a node is put in, looking up its id finds it; the nodes with other
/// ids are still there as they were; and ids stay unique.
pub proof fn lemma_insert_then_find(nodes: Seq<NodeView>, node: NodeView)
    requires
        ids_unique(nodes),
    ensures
        ids_unique(nodes_after_insert(nodes, node)),
        node_index(nodes_after_insert(nodes, node), node.id) matches Some(i)
            && nodes_after_insert(nodes, node)[i] == node,
        forall|k: int|
            0 <= k < nodes.len() && nodes[k].id != node.id ==> #[trigger] nodes_after_insert(
                nodes,
                node,
            ).contains(nodes[k]),
{
    let after = nodes_after_insert(nodes, node);
    match node_index(nodes, node.id) {
        Some(i) => {
            assert(after[i] == node);
            assert forall|a: int, b: int|
                0 <= a < after.len() && 0 <= b < after.len() && a != b implies #[trigger] after[a].id
                != #[trigger] after[b].id by {
                if a != i && b != i {
                    assert(nodes[a].id != nodes[b].id);
                } else if a == i {
                    assert(nodes[b].id != nodes[i].id);
                } else {
                    assert(nodes[a].id != nodes[i].id);
                }
            }
            let j = choose|j: int| 0 <= j < after.len() && after[j].id == node.id;
            if j != i {
                assert(after[j].id != after[i].id);
            }
            assert forall|k: int|
                0 <= k < nodes.len() && nodes[k].id != node.id implies #[trigger] after.contains(
                nodes[k],
            ) by {
                assert(k != i);
                assert(after[k] == nodes[k]);
            }
        },
        None => {
            let n = nodes.len() as int;
            assert(after[n] == node);
            assert forall|a: int, b: int|
                0 <= a < after.len() && 0 <= b < after.len() && a != b implies #[trigger] after[a].id
                != #[trigger] after[b].id by {
                if a < n && b < n {
                    assert(nodes[a].id != nodes[b].id);
                } else if a == n {
                    assert(!(0 <= b < nodes.len() && nodes[b].id == node.id));
                } else {
                    assert(!(0 <= a < nodes.len() && nodes[a].id == node.id));
                }
            }
            let j = choose|j: int| 0 <= j < after.len() && after[j].id == node.id;
            if j != n {
                assert(after[j].id != after[n].id);
            }
            assert forall|k: int|
                0 <= k < nodes.len() && nodes[k].id != node.id implies #[trigger] after.contains(
                nodes[k],
            ) by {
                assert(after[k] == nodes[k]);
            }
        },
    }
}

} // verus!
