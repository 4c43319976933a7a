//! Nodes and edges of the automaton graphs.
//!
//! Both the nondeterministic and the deterministic automaton store their
//! nodes in a flat arena (a `Vec<Node>`); a node's identifier is its index
//! in that arena, so edges refer to their destination by plain index and the
//! cyclic structure introduced by repetition operators needs no owning
//! references.

use vstd::prelude::*;
use vstd::string::StringExecFns;

use crate::state_set::sorted_strict;

verus! {

/// Appends `c` to `s`, escaped for the textual graph format: backslashes
/// and quotes are escaped, and the three control characters are written
/// out as two-character escapes.
fn push_escaped_char(s: &mut String, c: char)
    ensures
        old(s)@.len() <= final(s)@.len(),
        forall|t: int| 0 <= t < old(s)@.len() ==> final(s)@[t] == old(s)@[t],
{
    if c == '\\' {
        s.append("\\\\");
    } else if c == '"' {
        s.append("\\\"");
    } else if c == '\t' {
        s.append("\\\\t");
    } else if c == '\n' {
        s.append("\\\\n");
    } else if c == '\r' {
        s.append("\\\\r");
    } else {
        crate::text::string_push(s, c);
    }
}

/// The label of an automaton edge: either an epsilon transition, which is
/// consumable without reading an input character, or the set of characters
/// that may reach the destination (kept as a vector, possibly with
/// repetitions; its meaning is the set of its elements).
pub enum Label {
    Epsilon,
    Chars(Vec<char>),
}

impl Label {
    /// Whether the label is an epsilon transition.
    pub open spec fn is_epsilon(self) -> bool {
        self is Epsilon
    }

    /// The characters the label matches; an epsilon label matches none.
    pub open spec fn has_char(self, c: char) -> bool {
        match self {
            Label::Epsilon => false,
            Label::Chars(v) => v@.contains(c),
        }
    }

    /// Builds a label matching exactly the characters of `chars`.
    pub fn of_chars(chars: Vec<char>) -> (r: Label)
        ensures
            !r.is_epsilon(),
            forall|c: char| r.has_char(c) == chars@.contains(c),
            r == (Label::Chars(chars)),
    {
        Label::Chars(chars)
    }

    /// Builds a label matching exactly the single character `c`.
    pub fn of_char(c: char) -> (r: Label)
        ensures
            !r.is_epsilon(),
            forall|d: char| r.has_char(d) == (d == c),
    {
        let mut v: Vec<char> = Vec::new();
        v.push(c);
        proof {
            assert(v@.contains(c)) by {
                assert(v@[0] == c);
            }
        }
        Label::Chars(v)
    }

    /// Whether the label is an epsilon transition.
    pub fn is_eps(&self) -> (r: bool)
        ensures
            r == self.is_epsilon(),
    {
        match self {
            Label::Epsilon => true,
            Label::Chars(_) => false,
        }
    }

    /// Whether the label matches the character `c`.
    pub fn contains_char(&self, c: char) -> (r: bool)
        ensures
            r == self.has_char(c),
    {
        match self {
            Label::Epsilon => false,
            Label::Chars(v) => {
                let mut i: usize = 0;
                let mut found = false;
                while i < v.len()
                    invariant
                        i <= v.len(),
                        found == exists|k: int| 0 <= k < i && v@[k] == c,
                    decreases v.len() - i,
                {
                    if v[i] == c {
                        found = true;
                    }
                    i = i + 1;
                }
                found
            },
        }
    }
}

/// An edge between nodes of one automaton graph: the index of the node the
/// edge leads to, and the label under which it may be taken.
pub struct Edge {
    /// The identifier (arena index) of the destination node.
    pub to: usize,
    /// The set of characters carried by the edge, or epsilon.
    pub label: Label,
}

impl Edge {
    /// Creates a new edge to node `to` under `label`.
    pub fn new(to: usize, label: Label) -> (r: Edge)
        ensures
            r.to == to,
            r.label == label,
    {
        Edge { to, label }
    }

    /// The identifier of the destination node.
    pub fn get_to(&self) -> (r: usize)
        ensures
            r == self.to,
    {
        self.to
    }

    /// The label of the edge.
    pub fn get_sym(&self) -> (r: &Label)
        ensures
            r == self.label,
    {
        &self.label
    }

    /// Adds the character `ch` to the set carried by a non-epsilon edge.
    pub fn push(&mut self, ch: char)
        requires
            !old(self).label.is_epsilon(),
        ensures
            final(self).to == old(self).to,
            !final(self).label.is_epsilon(),
            forall|c: char| final(self).label.has_char(c) == (old(self).label.has_char(c) || c
                == ch),
    {
        match &mut self.label {
            Label::Epsilon => {
                proof {
                    assert(false);
                }
            },
            Label::Chars(v) => {
                let ghost oldv = v@;
                v.push(ch);
                proof {
                    assert forall|c: char| v@.contains(c) == (oldv.contains(c) || c == ch) by {
                        if oldv.contains(c) {
                            let k = choose|k: int| 0 <= k < oldv.len() && oldv[k] == c;
                            assert(v@[k] == c);
                        }
                        if c == ch {
                            assert(v@[v@.len() - 1] == c);
                        }
                        if v@.contains(c) {
                            let k = choose|k: int| 0 <= k < v@.len() && v@[k] == c;
                            if k < v@.len() - 1 {
                                assert(oldv[k] == c);
                            }
                        }
                    }
                }
            },
        }
    }
}

/// A node of an automaton graph: its arena index, a name (the emitted token
/// type when the node is terminal, otherwise an internal tag), a terminal
/// flag, and the ordered list of its outgoing edges.
pub struct Node {
    /// The name of the node; for a terminal node, the token type it emits.
    pub name: String,
    /// The ordered outgoing edges of the node.
    pub outgoing_edges: Vec<Edge>,
    /// The identifier of the node: its index in the graph's arena.
    pub id: usize,
    /// Whether the node is a terminal (accepting) state.
    pub terminal: bool,
}

impl Node {
    /// All edge destinations are identifiers below `n` (the arena size).
    pub open spec fn edges_below(self, n: int) -> bool {
        forall|j: int|
            0 <= j < self.outgoing_edges@.len() ==> (#[trigger] self.outgoing_edges@[j]).to < n
    }

    /// Creates a new node with the given name, terminal flag and identifier.
    pub fn new(name: String, terminal: bool, id: usize) -> (r: Node)
        ensures
            r.name == name,
            r.terminal == terminal,
            r.id == id,
            r.outgoing_edges@ =~= Seq::<Edge>::empty(),
    {
        Node { name, outgoing_edges: Vec::new(), id, terminal }
    }

    /// The name of the node.
    pub fn get_name(&self) -> (r: &String)
        ensures
            r == self.name,
    {
        &self.name
    }

    /// Replaces the name of the node.
    pub fn set_name(&mut self, name: String)
        ensures
            *final(self) == (Node { name, ..*old(self) }),
    {
        self.name = name;
    }

    /// A mutable borrow of the node's outgoing edges.
    pub fn get_mut_outgoing_edges(&mut self) -> (r: &mut Vec<Edge>)
        ensures
            *r == old(self).outgoing_edges,
            *final(self) == (Node { outgoing_edges: *final(r), ..*old(self) }),
    {
        &mut self.outgoing_edges
    }

    /// The outgoing edges of the node, in order.
    pub fn get_outgoing_edges(&self) -> (r: &Vec<Edge>)
        ensures
            r == self.outgoing_edges,
    {
        &self.outgoing_edges
    }

    /// The identifier of the node.
    pub fn get_id(&self) -> (r: usize)
        ensures
            r == self.id,
    {
        self.id
    }

    /// Whether the node is a terminal (accepting) state.
    pub fn is_terminal(&self) -> (r: bool)
        ensures
            r == self.terminal,
    {
        self.terminal
    }

    /// Sets or clears the terminal flag of the node.
    pub fn set_terminal(&mut self, terminal: bool)
        ensures
            *final(self) == (Node { terminal, ..*old(self) }),
    {
        self.terminal = terminal;
    }

    /// Renders the part of the automaton reachable from this node as a
    /// textual directed-graph description: one line per edge, labeled
    /// with the edge's characters (escaped), and one line per terminal
    /// node marking it with a double circle and its token name.  A
    /// derived view only: nothing else depends on its exact text.
    pub fn to_dot(&self, nodes: &Vec<Node>) -> (r: String)
        requires
            wf_nodes(nodes@),
            self.id < nodes@.len(),
        ensures
            r@.len() >= 15,
            r@.subrange(0, 13) == "digraph FA {\n"@,
            r@.subrange(r@.len() - 2, r@.len() as int) == "}\n"@,
    {
        let mut dot_string = String::from_str("digraph FA {\n");
        proof {
            reveal_strlit("digraph FA {\n");
            reveal_strlit("}\n");
        }
        let ghost header = dot_string@;
        let mut visited: Vec<usize> = Vec::new();
        self.write_dot(&mut dot_string, nodes, &mut visited);
        let ghost body = dot_string@;
        dot_string.append("}\n");
        proof {
            assert(dot_string@.subrange(0, 13) =~= header);
            assert(dot_string@.subrange(dot_string@.len() - 2, dot_string@.len() as int)
                =~= "}\n"@);
        }
        dot_string
    }

    /// Walks the nodes reachable from this one, appending their edges and
    /// terminal markings to `dot_string`; `visited` records the nodes
    /// already written, so that cycles are walked only once.
    fn write_dot(&self, dot_string: &mut String, nodes: &Vec<Node>, visited: &mut Vec<usize>)
        requires
            wf_nodes(nodes@),
            self.id < nodes@.len(),
            sorted_strict(old(visited)@),
            forall|i: int| 0 <= i < old(visited)@.len() ==> old(visited)@[i] < nodes@.len(),
        ensures
            old(dot_string)@.is_prefix_of(final(dot_string)@),
            sorted_strict(final(visited)@),
            forall|i: int| 0 <= i < final(visited)@.len() ==> final(visited)@[i] < nodes@.len(),
    {
        let n = nodes.len();
        let mut stack: Vec<usize> = Vec::new();
        if !crate::state_set::ss_contains(visited, self.id) {
            let ghost pre = visited@;
            crate::state_set::ss_insert(visited, self.id);
            stack.push(self.id);
            proof {
                crate::state_set::lemma_insert_keeps_bound(pre, visited@, self.id, n);
            }
        }
        while stack.len() > 0
            invariant
                wf_nodes(nodes@),
                n == nodes@.len(),
                sorted_strict(visited@),
                forall|i: int| 0 <= i < visited@.len() ==> (#[trigger] visited@[i]) < n,
                forall|k: int| 0 <= k < stack@.len() ==> (#[trigger] stack@[k]) < n,
                old(dot_string)@.len() <= dot_string@.len(),
                forall|t: int|
                    0 <= t < old(dot_string)@.len() ==> (#[trigger] dot_string@[t]) == old(
                        dot_string,
                    )@[t],
            decreases n - visited@.len(), stack@.len(),
        {
            let id = match stack.pop() {
                Some(x) => x,
                None => {
                    proof {
                        assert(false);
                    }
                    0
                },
            };
            let edges_len = nodes[id].outgoing_edges.len();
            let ghost visited_entry = visited@;
            let ghost stack_entry = stack@;
            let mut j: usize = 0;
            while j < edges_len
                invariant
                    wf_nodes(nodes@),
                    n == nodes@.len(),
                    id < n,
                    edges_len == nodes@[id as int].outgoing_edges@.len(),
                    j <= edges_len,
                    sorted_strict(visited@),
                    forall|i: int| 0 <= i < visited@.len() ==> (#[trigger] visited@[i]) < n,
                    forall|k: int| 0 <= k < stack@.len() ==> (#[trigger] stack@[k]) < n,
                    old(dot_string)@.len() <= dot_string@.len(),
                    forall|t: int|
                        0 <= t < old(dot_string)@.len() ==> (#[trigger] dot_string@[t]) == old(
                            dot_string,
                        )@[t],
                    visited@.len() >= visited_entry.len(),
                    visited@.len() > visited_entry.len() || stack@ == stack_entry,
                decreases edges_len - j,
            {
                let to = nodes[id].outgoing_edges[j].get_to();
                dot_string.append("    ");
                let id_str = crate::text::usize_to_string(id);
                dot_string.append(id_str.as_str());
                dot_string.append(" -> ");
                let to_str = crate::text::usize_to_string(to);
                dot_string.append(to_str.as_str());
                dot_string.append(" [label=\"");
                match nodes[id].outgoing_edges[j].get_sym() {
                    Label::Epsilon => {
                        dot_string.append("<eps>");
                    },
                    Label::Chars(v) => {
                        let mut ci: usize = 0;
                        while ci < v.len()
                            invariant
                                ci <= v@.len(),
                                old(dot_string)@.len() <= dot_string@.len(),
                                forall|t: int|
                                    0 <= t < old(dot_string)@.len() ==> (
                                    #[trigger] dot_string@[t]) == old(dot_string)@[t],
                            decreases v@.len() - ci,
                        {
                            push_escaped_char(dot_string, v[ci]);
                            ci = ci + 1;
                        }
                    },
                }
                dot_string.append("\"];\n");
                if !crate::state_set::ss_contains(visited, to) {
                    let ghost pre = visited@;
                    crate::state_set::ss_insert(visited, to);
                    stack.push(to);
                    proof {
                        assert(to < n) by {
                            assert(nodes@[id as int].edges_below(n as int));
                        }
                        crate::state_set::lemma_insert_keeps_bound(pre, visited@, to, n);
                    }
                }
                j = j + 1;
            }
            if nodes[id].is_terminal() {
                dot_string.append("    ");
                let id_str = crate::text::usize_to_string(id);
                dot_string.append(id_str.as_str());
                dot_string.append(" [shape=doublecircle, label=\"");
                let name_chars = crate::text::chars_of(nodes[id].get_name().as_str());
                let mut ci: usize = 0;
                while ci < name_chars.len()
                    invariant
                        ci <= name_chars@.len(),
                        old(dot_string)@.len() <= dot_string@.len(),
                        forall|t: int|
                            0 <= t < old(dot_string)@.len() ==> (#[trigger] dot_string@[t])
                                == old(dot_string)@[t],
                    decreases name_chars@.len() - ci,
                {
                    push_escaped_char(dot_string, name_chars[ci]);
                    ci = ci + 1;
                }
                dot_string.append("\"];\n");
            }
            proof {
                crate::state_set::lemma_sorted_len_bound(visited@, n);
            }
        }
        proof {
            assert(old(dot_string)@ =~= dot_string@.subrange(0, old(dot_string)@.len() as int));
        }
    }

    /// Appends an outgoing edge to node `to` under `label`.
    pub fn add_outgoing_edge(&mut self, to: usize, label: Label)
        ensures
            final(self).outgoing_edges@ == old(self).outgoing_edges@.push(
                Edge { to, label },
            ),
            final(self).name == old(self).name,
            final(self).id == old(self).id,
            final(self).terminal == old(self).terminal,
    {
        self.outgoing_edges.push(Edge::new(to, label));
    }
}

/// Well-formedness of an automaton graph arena: each node records its own
/// index as its identifier, and every edge destination is a valid index.
pub open spec fn wf_nodes(nodes: Seq<Node>) -> bool {
    forall|i: int|
        0 <= i < nodes.len() ==> (#[trigger] nodes[i]).id == i && nodes[i].edges_below(
            nodes.len() as int,
        )
}

/// Whether the graph has an edge from `a` to `b` under any label.
pub open spec fn has_any_edge(nodes: Seq<Node>, a: usize, b: usize) -> bool {
    a < nodes.len() && exists|j: int|
        0 <= j < nodes[a as int].outgoing_edges@.len() && (#[trigger] nodes[
            a as int
        ].outgoing_edges@[j]).to == b
}

/// Whether `p` is a chain of edges in the graph.
pub open spec fn is_edge_path(nodes: Seq<Node>, p: Seq<usize>) -> bool {
    p.len() > 0 && forall|i: int|
        0 <= i < p.len() - 1 ==> #[trigger] has_any_edge(nodes, p[i], p[i + 1])
}

/// Whether `x` can be reached from `root` by following edges.
pub open spec fn reachable_from(nodes: Seq<Node>, root: usize, x: usize) -> bool {
    exists|p: Seq<usize>| is_edge_path(nodes, p) && p[0] == root && p.last() == x
}

/// Every identifier on an edge path out of a valid node is valid.
proof fn lemma_edge_path_valid(nodes: Seq<Node>, p: Seq<usize>)
    requires
        wf_nodes(nodes),
        is_edge_path(nodes, p),
        p[0] < nodes.len(),
    ensures
        p.last() < nodes.len(),
    decreases p.len(),
{
    if p.len() > 1 {
        let q = p.take(p.len() - 1);
        assert(is_edge_path(nodes, q)) by {
            assert forall|i: int|
                0 <= i < q.len() - 1 implies #[trigger] has_any_edge(nodes, q[i], q[i + 1]) by {
                assert(q[i] == p[i] && q[i + 1] == p[i + 1]);
            }
        }
        assert(q[0] == p[0]);
        lemma_edge_path_valid(nodes, q);
        let i = p.len() - 2;
        assert(has_any_edge(nodes, p[i], p[i + 1]));
        let a = p[i];
        let j = choose|j: int|
            0 <= j < nodes[a as int].outgoing_edges@.len() && (#[trigger] nodes[
                a as int
            ].outgoing_edges@[j]).to == p[i + 1];
        assert(nodes[a as int].edges_below(nodes.len() as int));
        assert(p.last() == p[i + 1]);
    }
}

/// In a well-formed graph, whose single root is a valid identifier, every
/// node reachable from the root is reached through defined transitions
/// only: no edge on the way dangles, and the reached identifier itself
/// is a valid index into the arena.
pub proof fn lemma_reachable_ids_valid(nodes: Seq<Node>, root: usize, x: usize)
    requires
        wf_nodes(nodes),
        root < nodes.len(),
        reachable_from(nodes, root, x),
    ensures
        x < nodes.len(),
{
    let p = choose|p: Seq<usize>| is_edge_path(nodes, p) && p[0] == root && p.last() == x;
    lemma_edge_path_valid(nodes, p);
}

/// Appends a fresh node with no edges to the arena and returns its
/// identifier.
pub fn arena_push(nodes: &mut Vec<Node>, name: String, terminal: bool) -> (id: usize)
    requires
        wf_nodes(old(nodes)@),
    ensures
        id == old(nodes)@.len(),
        final(nodes)@.len() == old(nodes)@.len() + 1,
        forall|i: int| 0 <= i < old(nodes)@.len() ==> final(nodes)@[i] == old(nodes)@[i],
        final(nodes)@[id as int].name == name,
        final(nodes)@[id as int].terminal == terminal,
        final(nodes)@[id as int].id == id,
        final(nodes)@[id as int].outgoing_edges@.len() == 0,
        wf_nodes(final(nodes)@),
{
    let id = nodes.len();
    let node = Node::new(name, terminal, id);
    nodes.push(node);
    proof {
        assert forall|i: int| 0 <= i < nodes@.len() implies (#[trigger] nodes@[i]).id == i
            && nodes@[i].edges_below(nodes@.len() as int) by {
            if i < id {
                assert(nodes@[i] == old(nodes)@[i]);
                assert(old(nodes)@[i].edges_below(old(nodes)@.len() as int));
            }
        }
    }
    id
}

/// Appends an edge from `from` to `to` under `label`.
pub fn arena_add_edge(nodes: &mut Vec<Node>, from: usize, to: usize, label: Label)
    requires
        wf_nodes(old(nodes)@),
        from < old(nodes)@.len(),
        to < old(nodes)@.len(),
    ensures
        final(nodes)@ == old(nodes)@.update(
            from as int,
            Node {
                outgoing_edges: final(nodes)@[from as int].outgoing_edges,
                ..old(nodes)@[from as int]
            },
        ),
        final(nodes)@[from as int].outgoing_edges@ == old(nodes)@[from as int].outgoing_edges@.push(
            Edge { to, label },
        ),
        wf_nodes(final(nodes)@),
{
    nodes[from].add_outgoing_edge(to, label);
    proof {
        assert forall|i: int| 0 <= i < nodes@.len() implies (#[trigger] nodes@[i]).id == i
            && nodes@[i].edges_below(nodes@.len() as int) by {
            assert(old(nodes)@[i].edges_below(old(nodes)@.len() as int));
            if i == from {
                let es = nodes@[i].outgoing_edges@;
                assert forall|j: int| 0 <= j < es.len() implies (#[trigger] es[j]).to
                    < nodes@.len() by {
                    if j < es.len() - 1 {
                        assert(es[j] == old(nodes)@[i].outgoing_edges@[j]);
                    }
                }
            }
        }
    }
}

/// Adds the character `c` to the label of edge `ei` of node `from`.
pub fn arena_extend_edge(nodes: &mut Vec<Node>, from: usize, ei: usize, c: char)
    requires
        wf_nodes(old(nodes)@),
        from < old(nodes)@.len(),
        ei < old(nodes)@[from as int].outgoing_edges@.len(),
        !old(nodes)@[from as int].outgoing_edges@[ei as int].label.is_epsilon(),
    ensures
        final(nodes)@ == old(nodes)@.update(
            from as int,
            Node {
                outgoing_edges: final(nodes)@[from as int].outgoing_edges,
                ..old(nodes)@[from as int]
            },
        ),
        final(nodes)@[from as int].outgoing_edges@.len() == old(nodes)@[
            from as int
        ].outgoing_edges@.len(),
        forall|j: int|
            0 <= j < final(nodes)@[from as int].outgoing_edges@.len() && j != ei
                ==> final(nodes)@[from as int].outgoing_edges@[j] == old(nodes)@[
                from as int
            ].outgoing_edges@[j],
        final(nodes)@[from as int].outgoing_edges@[ei as int].to == old(nodes)@[
            from as int
        ].outgoing_edges@[ei as int].to,
        !final(nodes)@[from as int].outgoing_edges@[ei as int].label.is_epsilon(),
        forall|d: char|
            final(nodes)@[from as int].outgoing_edges@[ei as int].label.has_char(d) == (old(
                nodes,
            )@[from as int].outgoing_edges@[ei as int].label.has_char(d) || d == c),
        wf_nodes(final(nodes)@),
{
    nodes[from].outgoing_edges[ei].push(c);
    proof {
        assert forall|i: int| 0 <= i < nodes@.len() implies (#[trigger] nodes@[i]).id == i
            && nodes@[i].edges_below(nodes@.len() as int) by {
            assert(old(nodes)@[i].edges_below(old(nodes)@.len() as int));
            if i == from {
                let es = nodes@[i].outgoing_edges@;
                assert forall|j: int| 0 <= j < es.len() implies (#[trigger] es[j]).to
                    < nodes@.len() by {
                    assert(es[j].to == old(nodes)@[i].outgoing_edges@[j].to);
                }
            }
        }
    }
}

} // verus!
