//! Subset construction and the scanner.
//!
//! The deterministic automaton is built from the nondeterministic one by
//! the standard subset construction: every deterministic state stands for
//! a set of nondeterministic state identifiers (an epsilon-closure), and
//! the table of those sets is kept, so that no two deterministic states
//! are ever created for the same set.

use vstd::prelude::*;

use crate::nfa::Nfa;
use crate::node::Edge;
use crate::node::Label;
use crate::node::Node;
use crate::node::wf_nodes;
use crate::state_set::sorted_strict;
use crate::state_set::no_dup_chars;

verus! {

/// The set of elements of an identifier sequence.
pub open spec fn ids_set(s: Seq<usize>) -> Set<usize> {
    Set::new(|x: usize| s.contains(x))
}

/// Whether the graph has an epsilon edge from `a` to `b`.
pub open spec fn has_eps_edge(nodes: Seq<Node>, a: usize, b: usize) -> bool {
    a < nodes.len() && exists|j: int|
        0 <= j < nodes[a as int].outgoing_edges@.len() && (#[trigger] nodes[
            a as int
        ].outgoing_edges@[j]).label.is_epsilon() && nodes[a as int].outgoing_edges@[j].to == b
}

/// Whether the graph has an edge from `a` to `b` whose label matches `c`.
pub open spec fn has_char_edge(nodes: Seq<Node>, a: usize, b: usize, c: char) -> bool {
    a < nodes.len() && exists|j: int|
        0 <= j < nodes[a as int].outgoing_edges@.len() && (#[trigger] nodes[
            a as int
        ].outgoing_edges@[j]).label.has_char(c) && nodes[a as int].outgoing_edges@[j].to == b
}

/// Whether `p` is a chain of epsilon edges.
pub open spec fn is_eps_path(nodes: Seq<Node>, p: Seq<usize>) -> bool {
    p.len() > 0 && forall|i: int|
        0 <= i < p.len() - 1 ==> #[trigger] has_eps_edge(nodes, p[i], p[i + 1])
}

/// Whether `x` is reachable from the set `s` by epsilon edges alone.
pub open spec fn eps_reach(nodes: Seq<Node>, s: Set<usize>, x: usize) -> bool {
    exists|p: Seq<usize>| is_eps_path(nodes, p) && s.contains(p[0]) && p.last() == x
}

/// The epsilon-closure of `s`: everything reachable from `s` by epsilon
/// edges alone (including `s` itself).
pub open spec fn spec_closure(nodes: Seq<Node>, s: Set<usize>) -> Set<usize> {
    Set::new(|x: usize| eps_reach(nodes, s, x))
}

/// Whether `s` is closed under epsilon edges.
pub open spec fn eps_closed(nodes: Seq<Node>, s: Set<usize>) -> bool {
    forall|a: usize, b: usize|
        s.contains(a) && #[trigger] has_eps_edge(nodes, a, b) ==> s.contains(b)
}

/// The states reachable from `s` by one edge whose label matches `c`.
pub open spec fn spec_move(nodes: Seq<Node>, s: Set<usize>, c: char) -> Set<usize> {
    Set::new(|b: usize| exists|a: usize| s.contains(a) && #[trigger] has_char_edge(nodes, a, b, c))
}

/// The characters appearing on some non-epsilon edge out of `s`.
pub open spec fn spec_symbols(nodes: Seq<Node>, s: Set<usize>) -> Set<char> {
    Set::new(
        |c: char|
            exists|a: usize, b: usize|
                s.contains(a) && #[trigger] has_char_edge(nodes, a, b, c),
    )
}

/// One subset-construction transition: move on `c`, then epsilon-close.
pub open spec fn spec_delta(nodes: Seq<Node>, s: Set<usize>, c: char) -> Set<usize> {
    spec_closure(nodes, spec_move(nodes, s, c))
}

/// The set of nondeterministic states that the word `w` leads to from the
/// root's closure.
pub open spec fn delta_word(nodes: Seq<Node>, root: usize, w: Seq<char>) -> Set<usize>
    decreases w.len(),
{
    if w.len() == 0 {
        spec_closure(nodes, Set::empty().insert(root))
    } else {
        spec_delta(nodes, delta_word(nodes, root, w.drop_last()), w.last())
    }
}

/// A member of `s` is in its closure (by the one-state path).
pub proof fn lemma_closure_member(nodes: Seq<Node>, s: Set<usize>, x: usize)
    requires
        s.contains(x),
    ensures
        spec_closure(nodes, s).contains(x),
{
    let p = seq![x];
    assert(is_eps_path(nodes, p));
    assert(s.contains(p[0]) && p.last() == x);
}

/// The closure is closed: an epsilon edge out of it stays inside.
pub proof fn lemma_closure_step(nodes: Seq<Node>, s: Set<usize>, x: usize, y: usize)
    requires
        spec_closure(nodes, s).contains(x),
        has_eps_edge(nodes, x, y),
    ensures
        spec_closure(nodes, s).contains(y),
{
    let p = choose|p: Seq<usize>| is_eps_path(nodes, p) && s.contains(p[0]) && p.last() == x;
    let q = p.push(y);
    assert(is_eps_path(nodes, q)) by {
        assert forall|i: int| 0 <= i < q.len() - 1 implies #[trigger] has_eps_edge(nodes, q[i], q[i + 1]) by {
            if i < p.len() - 1 {
                assert(q[i] == p[i] && q[i + 1] == p[i + 1]);
            } else {
                assert(q[i] == p.last() && q[i + 1] == y);
            }
        }
    }
    assert(s.contains(q[0]) && q.last() == y);
}

/// An epsilon path starting in a closed set ends in it.
proof fn lemma_path_in_closed(nodes: Seq<Node>, t: Set<usize>, p: Seq<usize>)
    requires
        is_eps_path(nodes, p),
        eps_closed(nodes, t),
        t.contains(p[0]),
    ensures
        t.contains(p.last()),
    decreases p.len(),
{
    if p.len() > 1 {
        let q = p.take(p.len() - 1);
        assert(is_eps_path(nodes, q)) by {
            assert forall|i: int|
                0 <= i < q.len() - 1 implies #[trigger] has_eps_edge(nodes, q[i], q[i + 1]) by {
                assert(q[i] == p[i] && q[i + 1] == p[i + 1]);
            }
        }
        assert(q[0] == p[0]);
        lemma_path_in_closed(nodes, t, q);
        let i = p.len() - 2;
        assert(has_eps_edge(nodes, p[i], p[i + 1]));
        assert(q.last() == p[i]);
        assert(p.last() == p[i + 1]);
    }
}

/// The closure is the least closed superset: any closed superset of `s`
/// holds the whole closure.
pub proof fn lemma_closure_minimal(nodes: Seq<Node>, s: Set<usize>, t: Set<usize>)
    requires
        forall|x: usize| s.contains(x) ==> t.contains(x),
        eps_closed(nodes, t),
    ensures
        forall|x: usize| spec_closure(nodes, s).contains(x) ==> t.contains(x),
{
    assert forall|x: usize| spec_closure(nodes, s).contains(x) implies t.contains(x) by {
        let p = choose|p: Seq<usize>| is_eps_path(nodes, p) && s.contains(p[0]) && p.last() == x;
        lemma_path_in_closed(nodes, t, p);
    }
}

/// The closure of the empty set is empty.
pub proof fn lemma_closure_empty(nodes: Seq<Node>)
    ensures
        spec_closure(nodes, Set::empty()) =~= Set::<usize>::empty(),
{
    assert forall|x: usize| !spec_closure(nodes, Set::<usize>::empty()).contains(x) by {
        if eps_reach(nodes, Set::empty(), x) {
            let p = choose|p: Seq<usize>|
                is_eps_path(nodes, p) && Set::<usize>::empty().contains(p[0]) && p.last() == x;
            assert(false);
        }
    }
}

/// A character that labels no edge out of `s` moves `s` nowhere.
pub proof fn lemma_no_symbol_delta_empty(nodes: Seq<Node>, s: Set<usize>, c: char)
    requires
        !spec_symbols(nodes, s).contains(c),
    ensures
        spec_delta(nodes, s, c) =~= Set::<usize>::empty(),
{
    assert(spec_move(nodes, s, c) =~= Set::<usize>::empty()) by {
        assert forall|b: usize| !spec_move(nodes, s, c).contains(b) by {
            if exists|a: usize| s.contains(a) && #[trigger] has_char_edge(nodes, a, b, c) {
                let a = choose|a: usize| s.contains(a) && #[trigger] has_char_edge(nodes, a, b, c);
                assert(spec_symbols(nodes, s).contains(c));
            }
        }
    }
    lemma_closure_empty(nodes);
    assert(spec_delta(nodes, s, c) =~= Set::<usize>::empty());
}

/// A deterministic node: no epsilon edges, and no character matched by
/// two of its edges.
pub open spec fn node_deterministic(nd: Node) -> bool {
    &&& (forall|j: int|
        0 <= j < nd.outgoing_edges@.len() ==> !(#[trigger] nd.outgoing_edges@[j]).label.is_epsilon())
    &&& (forall|j1: int, j2: int, c: char|
        0 <= j1 < j2 < nd.outgoing_edges@.len() && (#[trigger] nd.outgoing_edges@[j1].label.has_char(
            c,
        )) ==> !(#[trigger] nd.outgoing_edges@[j2].label.has_char(c)))
}

/// Every node of the graph is deterministic.
pub open spec fn deterministic_nodes(nodes: Seq<Node>) -> bool {
    forall|i: int| 0 <= i < nodes.len() ==> node_deterministic(#[trigger] nodes[i])
}

/// Whether some state of `ss` is terminal in the graph.
pub open spec fn any_terminal(nodes: Seq<Node>, ss: Seq<usize>) -> bool {
    exists|i: int| 0 <= i < ss.len() && (#[trigger] nodes[ss[i] as int]).terminal
}

/// The token name of a deterministic state standing for the states `ss`:
/// the name of the first terminal state in ascending identifier order, or
/// the placeholder name when none is terminal.
pub open spec fn spec_state_name(nodes: Seq<Node>, ss: Seq<usize>) -> Seq<char>
    decreases ss.len(),
{
    if ss.len() == 0 {
        seq!['<', '>']
    } else if nodes[ss[0] as int].terminal {
        nodes[ss[0] as int].name@
    } else {
        spec_state_name(nodes, ss.skip(1))
    }
}

/// The destination of the first edge in `es` whose label matches `c`, if
/// any: the scanner takes the first matching transition.
pub open spec fn first_edge_target(es: Seq<Edge>, c: char) -> Option<usize>
    decreases es.len(),
{
    if es.len() == 0 {
        Option::None
    } else if es[0].label.has_char(c) {
        Option::Some(es[0].to)
    } else {
        first_edge_target(es.drop_first(), c)
    }
}

/// The walk of the maximal-munch scanner: from state `id` at position
/// `j`, follow matching edges while they exist, recording after each step
/// into a terminal state the checkpoint (one past the position, and the
/// state's token name), and return the last checkpoint recorded, if any.
pub open spec fn spec_munch(
    nodes: Seq<Node>,
    id: usize,
    chars: Seq<char>,
    j: int,
    best: Option<(int, Seq<char>)>,
) -> Option<(int, Seq<char>)>
    decreases chars.len() - j,
{
    if j < 0 || j >= chars.len() || id >= nodes.len() {
        best
    } else {
        match first_edge_target(nodes[id as int].outgoing_edges@, chars[j]) {
            Option::None => best,
            Option::Some(nid) => {
                let nbest = if nid < nodes.len() && nodes[nid as int].terminal {
                    Option::Some((j + 1, nodes[nid as int].name@))
                } else {
                    best
                };
                spec_munch(nodes, nid, chars, j + 1, nbest)
            },
        }
    }
}

/// The token stream of the maximal-munch scanner starting at position
/// `i`: at each position the longest accepted prefix is emitted as a
/// (token name, trimmed lexeme) pair — unless the accepting state carries
/// the reserved skip name — and a character with no match at all is
/// silently skipped.
pub open spec fn spec_lex(nodes: Seq<Node>, root: usize, chars: Seq<char>, i: int) -> Seq<
    (Seq<char>, Seq<char>),
>
    decreases chars.len() - i,
{
    if i < 0 || i >= chars.len() {
        Seq::empty()
    } else {
        match spec_munch(nodes, root, chars, i, Option::None) {
            Option::None => spec_lex(nodes, root, chars, i + 1),
            Option::Some(best) => {
                if i < best.0 <= chars.len() {
                    let tok = crate::text::trim_chars(chars.subrange(i, best.0));
                    let rest = spec_lex(nodes, root, chars, best.0);
                    if crate::nfa::is_skip_name(best.1) {
                        rest
                    } else {
                        seq![(best.1, tok)] + rest
                    }
                } else {
                    spec_lex(nodes, root, chars, i + 1)
                }
            },
        }
    }
}

/// The character-sequence view of a token vector.
pub open spec fn tokens_view(ts: Seq<(String, String)>) -> Seq<(Seq<char>, Seq<char>)> {
    ts.map_values(|t: (String, String)| (t.0@, t.1@))
}

/// Shape of one subset-construction table entry: a sorted, nonempty set
/// of valid nondeterministic state identifiers, paired with its node
/// identifier `id`.
pub open spec fn table_entry_ok(nn: Seq<Node>, e: (Vec<usize>, usize), id: int) -> bool {
    &&& sorted_strict(e.0@)
    &&& e.0@.len() > 0
    &&& (forall|i: int| 0 <= i < e.0@.len() ==> e.0@[i] < nn.len())
    &&& e.1 == id
}

/// The table's entries are well shaped and their node identifiers are
/// consecutive, starting at `base`.
pub open spec fn table_ok(nn: Seq<Node>, table: Seq<(Vec<usize>, usize)>, base: int) -> bool {
    forall|k: int| 0 <= k < table.len() ==> table_entry_ok(nn, #[trigger] table[k], base + k)
}

/// No two table entries hold the same set: the state-deduplication
/// invariant of subset construction.
pub open spec fn table_distinct(table: Seq<(Vec<usize>, usize)>) -> bool {
    forall|k1: int, k2: int|
        0 <= k1 < k2 < table.len() ==> (#[trigger] table[k1]).0@ != (#[trigger] table[k2]).0@
}

/// Whether some table entry holds exactly the set `s`.
pub open spec fn table_has_set(table: Seq<(Vec<usize>, usize)>, s: Set<usize>) -> bool {
    exists|k: int| 0 <= k < table.len() && ids_set((#[trigger] table[k]).0@) == s
}

/// Every table entry is a set that some input word leads to.
pub open spec fn table_reachable(nn: Seq<Node>, root: usize, table: Seq<(Vec<usize>, usize)>) -> bool {
    forall|k: int|
        0 <= k < table.len() ==> exists|w: Seq<char>|
            ids_set((#[trigger] table[k]).0@) == #[trigger] delta_word(nn, root, w)
}

/// The table is closed under transitions: wherever a symbol moves one of
/// its sets to a nonempty set, that set is in the table too.
pub open spec fn table_closed(nn: Seq<Node>, table: Seq<(Vec<usize>, usize)>) -> bool {
    forall|k: int, c: char|
        0 <= k < table.len() && #[trigger] spec_delta(nn, ids_set(table[k].0@), c) != Set::<
            usize,
        >::empty() ==> table_has_set(table, spec_delta(nn, ids_set(table[k].0@), c))
}

/// Edge soundness of one deterministic node standing for the set `s`:
/// every character matched by one of its edges does move `s` somewhere
/// nonempty, and the edge leads to the table entry standing for exactly
/// that delta set.
pub open spec fn node_edge_sound(
    nn: Seq<Node>,
    dnode: Node,
    s: Set<usize>,
    table: Seq<(Vec<usize>, usize)>,
) -> bool {
    forall|j: int, c: char|
        0 <= j < dnode.outgoing_edges@.len() && #[trigger] dnode.outgoing_edges@[j].label.has_char(
            c,
        ) ==> spec_delta(nn, s, c) != Set::<usize>::empty() && (exists|k2: int|
            0 <= k2 < table.len() && (#[trigger] table[k2]).1 == dnode.outgoing_edges@[j].to
                && ids_set(table[k2].0@) == spec_delta(nn, s, c))
}

/// Edge completeness of one deterministic node standing for the set
/// `s`: every character that moves `s` somewhere nonempty is matched by
/// one of its edges.
pub open spec fn node_edge_complete(nn: Seq<Node>, dnode: Node, s: Set<usize>) -> bool {
    forall|c: char|
        #[trigger] spec_delta(nn, s, c) != Set::<usize>::empty() ==> exists|j: int|
            0 <= j < dnode.outgoing_edges@.len() && (#[trigger] dnode.outgoing_edges@[j]).label.has_char(
                c,
            )
}

/// The accepting structure of one deterministic node standing for the
/// sorted member list `ss`: terminal exactly when some member is
/// terminal, named after the first terminal member in ascending
/// identifier order (or the placeholder name when none is).
pub open spec fn node_accepting_ok(nn: Seq<Node>, dnode: Node, ss: Seq<usize>) -> bool {
    &&& dnode.terminal == any_terminal(nn, ss)
    &&& dnode.name@ == spec_state_name(nn, ss)
}

/// No two edges of the node lead to the same destination: repeated
/// symbols toward one destination were merged into one edge's label
/// rather than added as duplicate edges.
pub open spec fn node_targets_distinct(nd: Node) -> bool {
    forall|j1: int, j2: int|
        0 <= j1 < j2 < nd.outgoing_edges@.len() ==> (#[trigger] nd.outgoing_edges@[j1]).to != (
        #[trigger] nd.outgoing_edges@[j2]).to
}

/// Edge soundness survives extending the table with new entries.
proof fn lemma_sound_table_extend(
    nn: Seq<Node>,
    dnode: Node,
    s: Set<usize>,
    t1: Seq<(Vec<usize>, usize)>,
    t2: Seq<(Vec<usize>, usize)>,
)
    requires
        node_edge_sound(nn, dnode, s, t1),
        t1.len() <= t2.len(),
        forall|k: int| 0 <= k < t1.len() ==> t2[k] == t1[k],
    ensures
        node_edge_sound(nn, dnode, s, t2),
{
    assert forall|j: int, c: char|
        0 <= j < dnode.outgoing_edges@.len() && #[trigger] dnode.outgoing_edges@[j].label.has_char(
            c,
        ) implies spec_delta(nn, s, c) != Set::<usize>::empty() && (exists|k2: int|
        0 <= k2 < t2.len() && (#[trigger] t2[k2]).1 == dnode.outgoing_edges@[j].to && ids_set(
            t2[k2].0@,
        ) == spec_delta(nn, s, c)) by {
        let k2 = choose|k2: int|
            0 <= k2 < t1.len() && (#[trigger] t1[k2]).1 == dnode.outgoing_edges@[j].to && ids_set(
                t1[k2].0@,
            ) == spec_delta(nn, s, c);
        assert(t2[k2] == t1[k2]);
    }
}

/// A deterministic finite automaton: the nondeterministic automaton it
/// was built from, its own node arena, the identifier of its root, and
/// the subset-construction table pairing each deterministic state's set
/// of nondeterministic state identifiers with its node identifier.
pub struct Dfa {
    /// The underlying nondeterministic automaton.
    pub nfa: Nfa,
    /// The node arena; a node's identifier is its index.
    pub nodes: Vec<Node>,
    /// The identifier of the root node.
    pub root_id: usize,
    /// The subset-construction table: each entry pairs a sorted, deduped,
    /// nonempty set of nondeterministic state identifiers with the
    /// deterministic node standing for it.
    pub state_sets: Vec<(Vec<usize>, usize)>,
}

impl Dfa {
    /// Well-formedness: both arenas are consistent and both roots exist.
    pub open spec fn wf(self) -> bool {
        &&& wf_nodes(self.nodes@)
        &&& self.root_id < self.nodes@.len()
        &&& self.nfa.wf()
    }

    /// Creates a deterministic automaton holding an empty nondeterministic
    /// backbone and a placeholder root node.
    pub fn new() -> (r: Dfa)
        ensures
            r.wf(),
            r.root_id == 0,
            r.nodes@.len() == 1,
            r.nodes@[0].name@ == "DFA"@,
            r.nodes@[0].terminal == false,
            r.nodes@[0].outgoing_edges@.len() == 0,
            r.state_sets@.len() == 0,
            deterministic_nodes(r.nodes@),
    {
        let nfa = Nfa::new();
        let mut nodes: Vec<Node> = Vec::new();
        let root = Node::new(String::from_str("DFA"), false, 0);
        nodes.push(root);
        let r = Dfa { nfa, nodes, root_id: 0, state_sets: Vec::new() };
        proof {
            assert(deterministic_nodes(r.nodes@)) by {
                assert(r.nodes@[0].outgoing_edges@.len() == 0);
            }
        }
        r
    }

    /// Replaces the underlying nondeterministic automaton.
    pub fn set_nfa(&mut self, nfa: Nfa)
        requires
            nfa.wf(),
            old(self).wf(),
        ensures
            final(self).nfa == nfa,
            final(self).nodes == old(self).nodes,
            final(self).root_id == old(self).root_id,
            final(self).state_sets == old(self).state_sets,
            final(self).wf(),
    {
        self.nfa = nfa;
    }

    /// Computes the epsilon-closure of `state_set` (a sorted set of
    /// nondeterministic state identifiers) with a work-stack.
    #[verifier::rlimit(100)]
    fn epsilon_closure(&self, state_set: &Vec<usize>) -> (r: Vec<usize>)
        requires
            self.nfa.wf(),
            sorted_strict(state_set@),
            forall|i: int| 0 <= i < state_set@.len() ==> state_set@[i] < self.nfa.nodes@.len(),
        ensures
            sorted_strict(r@),
            forall|i: int| 0 <= i < r@.len() ==> r@[i] < self.nfa.nodes@.len(),
            forall|x: usize|
                r@.contains(x) == spec_closure(self.nfa.nodes@, ids_set(state_set@)).contains(x),
    {
        let ghost nn = self.nfa.nodes@;
        let ghost s0 = ids_set(state_set@);
        let n = self.nfa.nodes.len();

        let mut closure: Vec<usize> = Vec::new();
        let mut stack: Vec<usize> = Vec::new();
        let mut i: usize = 0;
        while i < state_set.len()
            invariant
                i <= state_set@.len(),
                closure@ == state_set@.take(i as int),
                stack@ == state_set@.take(i as int),
                sorted_strict(state_set@),
            decreases state_set@.len() - i,
        {
            closure.push(state_set[i]);
            stack.push(state_set[i]);
            i = i + 1;
            proof {
                assert(closure@ =~= state_set@.take(i as int));
                assert(stack@ =~= state_set@.take(i as int));
            }
        }
        proof {
            assert(closure@ =~= state_set@);
            assert(stack@ =~= state_set@);
            assert forall|x: usize| closure@.contains(x) implies spec_closure(nn, s0).contains(x)
                by {
                lemma_closure_member(nn, s0, x);
            }
        }

        while stack.len() > 0
            invariant
                self.nfa.wf(),
                nn == self.nfa.nodes@,
                s0 == ids_set(state_set@),
                n == nn.len(),
                sorted_strict(closure@),
                forall|i2: int| 0 <= i2 < closure@.len() ==> (#[trigger] closure@[i2]) < n,
                forall|k: int| 0 <= k < stack@.len() ==> closure@.contains(#[trigger] stack@[k]),
                forall|x: usize| state_set@.contains(x) ==> closure@.contains(x),
                forall|x: usize| closure@.contains(x) ==> spec_closure(nn, s0).contains(x),
                forall|a: usize, b: usize|
                    closure@.contains(a) && !stack@.contains(a) && #[trigger] has_eps_edge(
                        nn,
                        a,
                        b,
                    ) ==> closure@.contains(b),
            decreases n - closure@.len(), stack@.len(),
        {
            let ghost stack_before = stack@;
            let state_id = match stack.pop() {
                Some(x) => x,
                None => {
                    proof {
                        assert(false);
                    }
                    0
                },
            };
            proof {
                assert(closure@.contains(state_id));
                assert forall|a: usize, b: usize|
                    closure@.contains(a) && !stack@.contains(a) && a != state_id
                        && #[trigger] has_eps_edge(nn, a, b) implies closure@.contains(b) by {
                    if stack_before.contains(a) {
                        let k = choose|k: int|
                            0 <= k < stack_before.len() && stack_before[k] == a;
                        if k < stack_before.len() - 1 {
                            assert(stack@[k] == a);
                        }
                    }
                }
            }
            let edges_len = self.nfa.nodes[state_id].outgoing_edges.len();
            let ghost stack_entry = stack@;
            let ghost closure_entry = closure@;
            let mut j: usize = 0;
            while j < edges_len
                invariant
                    self.nfa.wf(),
                    nn == self.nfa.nodes@,
                    s0 == ids_set(state_set@),
                    n == nn.len(),
                    state_id < n,
                    edges_len == nn[state_id as int].outgoing_edges@.len(),
                    j <= edges_len,
                    sorted_strict(closure@),
                    forall|i2: int| 0 <= i2 < closure@.len() ==> (#[trigger] closure@[i2]) < n,
                    forall|k: int| 0 <= k < stack@.len() ==> closure@.contains(#[trigger] stack@[k]),
                    forall|x: usize| state_set@.contains(x) ==> closure@.contains(x),
                    forall|x: usize| closure@.contains(x) ==> spec_closure(nn, s0).contains(x),
                    closure@.len() >= closure_entry.len(),
                    closure@.len() > closure_entry.len() || stack@ == stack_entry,
                    closure@.contains(state_id),
                    forall|a: usize, b: usize|
                        closure@.contains(a) && !stack@.contains(a) && a != state_id
                            && #[trigger] has_eps_edge(nn, a, b) ==> closure@.contains(b),
                    forall|j2: int|
                        0 <= j2 < j && (#[trigger] nn[state_id as int].outgoing_edges@[j2]).label.is_epsilon()
                            ==> closure@.contains(nn[state_id as int].outgoing_edges@[j2].to),
                decreases edges_len - j,
            {
                let to = self.nfa.nodes[state_id].outgoing_edges[j].get_to();
                let eps = self.nfa.nodes[state_id].outgoing_edges[j].get_sym().is_eps();
                if eps {
                    if !crate::state_set::ss_contains(&closure, to) {
                        let ghost closure_pre = closure@;
                        let ghost stack_pre = stack@;
                        ss_insert_tracked(&mut closure, to);
                        stack.push(to);
                        proof {
                            assert forall|a: usize, b: usize|
                                closure@.contains(a) && !stack@.contains(a) && a != state_id
                                    && #[trigger] has_eps_edge(nn, a, b) implies closure@.contains(
                                b,
                            ) by {
                                assert(stack@.last() == to);
                                assert(a != to);
                                if stack_pre.contains(a) {
                                    let k = choose|k: int|
                                        0 <= k < stack_pre.len() && stack_pre[k] == a;
                                    assert(stack@[k] == a);
                                }
                                assert(closure_pre.contains(a));
                                assert(closure_pre.contains(b));
                            }
                            assert(to < n) by {
                                assert(nn[state_id as int].edges_below(n as int));
                            }
                            crate::state_set::lemma_insert_keeps_bound(
                                closure_pre,
                                closure@,
                                to,
                                n,
                            );
                            assert(has_eps_edge(nn, state_id, to)) by {
                                assert((nn[state_id as int].outgoing_edges@[j as int]).label.is_epsilon()
                                    && nn[state_id as int].outgoing_edges@[j as int].to == to);
                            }
                            lemma_closure_step(nn, s0, state_id, to);
                            assert(stack@.contains(to)) by {
                                assert(stack@.last() == to);
                            }
                            assert forall|k: int|
                                0 <= k < stack@.len() implies closure@.contains(
                                #[trigger] stack@[k],
                            ) by {
                                if k < stack@.len() - 1 {
                                    assert(closure@.contains(stack@[k]));
                                }
                            }
                        }
                    }
                }
                j = j + 1;
            }
            proof {
                assert forall|a: usize, b: usize|
                    closure@.contains(a) && !stack@.contains(a) && #[trigger] has_eps_edge(
                        nn,
                        a,
                        b,
                    ) implies closure@.contains(b) by {
                    if a == state_id {
                        let j2 = choose|j2: int|
                            0 <= j2 < nn[a as int].outgoing_edges@.len() && (#[trigger] nn[
                                a as int
                            ].outgoing_edges@[j2]).label.is_epsilon() && nn[
                                a as int
                            ].outgoing_edges@[j2].to == b;
                        assert(closure@.contains(nn[state_id as int].outgoing_edges@[j2].to));
                    }
                }
                crate::state_set::lemma_sorted_len_bound(closure@, n);
            }
        }
        proof {
            assert(eps_closed(nn, ids_set(closure@))) by {
                assert forall|a: usize, b: usize|
                    ids_set(closure@).contains(a) && #[trigger] has_eps_edge(nn, a, b) implies
                    ids_set(closure@).contains(b) by {
                    assert(closure@.contains(a));
                    assert(!stack@.contains(a));
                }
            }
            lemma_closure_minimal(nn, s0, ids_set(closure@));
            assert forall|x: usize|
                closure@.contains(x) == spec_closure(nn, s0).contains(x) by {
                if spec_closure(nn, s0).contains(x) {
                    assert(ids_set(closure@).contains(x));
                }
            }
        }
        closure
    }

    /// Computes the set of states reachable from `state_set` over an edge
    /// whose label matches `ch`.
    fn move_nfa(&self, state_set: &Vec<usize>, ch: char) -> (r: Vec<usize>)
        requires
            self.nfa.wf(),
            sorted_strict(state_set@),
            forall|i: int| 0 <= i < state_set@.len() ==> state_set@[i] < self.nfa.nodes@.len(),
        ensures
            sorted_strict(r@),
            forall|i: int| 0 <= i < r@.len() ==> r@[i] < self.nfa.nodes@.len(),
            forall|b: usize|
                r@.contains(b) == spec_move(self.nfa.nodes@, ids_set(state_set@), ch).contains(b),
    {
        let ghost nn = self.nfa.nodes@;
        let ghost s0 = ids_set(state_set@);
        let n = self.nfa.nodes.len();
        let mut result: Vec<usize> = Vec::new();
        let mut ai: usize = 0;
        while ai < state_set.len()
            invariant
                self.nfa.wf(),
                nn == self.nfa.nodes@,
                s0 == ids_set(state_set@),
                n == nn.len(),
                ai <= state_set@.len(),
                sorted_strict(state_set@),
                forall|i: int| 0 <= i < state_set@.len() ==> state_set@[i] < n,
                sorted_strict(result@),
                forall|i: int| 0 <= i < result@.len() ==> (#[trigger] result@[i]) < n,
                forall|b: usize| result@.contains(b) ==> spec_move(nn, s0, ch).contains(b),
                forall|a2: int, j2: int|
                    0 <= a2 < ai && 0 <= j2 < nn[state_set@[a2] as int].outgoing_edges@.len() && (
                    #[trigger] nn[state_set@[a2] as int].outgoing_edges@[j2]).label.has_char(ch)
                        ==> result@.contains(nn[state_set@[a2] as int].outgoing_edges@[j2].to),
            decreases state_set@.len() - ai,
        {
            let sid = state_set[ai];
            let edges_len = self.nfa.nodes[sid].outgoing_edges.len();
            let mut j: usize = 0;
            while j < edges_len
                invariant
                    self.nfa.wf(),
                    nn == self.nfa.nodes@,
                    s0 == ids_set(state_set@),
                    n == nn.len(),
                    ai < state_set@.len(),
                    sid == state_set@[ai as int],
                    sid < n,
                    edges_len == nn[sid as int].outgoing_edges@.len(),
                    j <= edges_len,
                    sorted_strict(result@),
                    forall|i: int| 0 <= i < result@.len() ==> (#[trigger] result@[i]) < n,
                    forall|b: usize| result@.contains(b) ==> spec_move(nn, s0, ch).contains(b),
                    forall|a2: int, j2: int|
                        0 <= a2 < ai && 0 <= j2 < nn[state_set@[a2] as int].outgoing_edges@.len()
                            && (#[trigger] nn[state_set@[a2] as int].outgoing_edges@[j2]).label.has_char(
                            ch,
                        ) ==> result@.contains(nn[state_set@[a2] as int].outgoing_edges@[j2].to),
                    forall|j2: int|
                        0 <= j2 < j && (#[trigger] nn[sid as int].outgoing_edges@[j2]).label.has_char(
                            ch,
                        ) ==> result@.contains(nn[sid as int].outgoing_edges@[j2].to),
                decreases edges_len - j,
            {
                let matches_ch = self.nfa.nodes[sid].outgoing_edges[j].get_sym().contains_char(ch);
                if matches_ch {
                    let to = self.nfa.nodes[sid].outgoing_edges[j].get_to();
                    let ghost pre = result@;
                    ss_insert_tracked(&mut result, to);
                    proof {
                        assert(to < n) by {
                            assert(nn[sid as int].edges_below(n as int));
                        }
                        crate::state_set::lemma_insert_keeps_bound(pre, result@, to, n);
                        assert(spec_move(nn, s0, ch).contains(to)) by {
                            assert(state_set@.contains(sid)) by {
                                assert(state_set@[ai as int] == sid);
                            }
                            assert(has_char_edge(nn, sid, to, ch)) by {
                                assert((#[trigger] nn[sid as int].outgoing_edges@[j as int]).label.has_char(
                                    ch,
                                ) && nn[sid as int].outgoing_edges@[j as int].to == to);
                            }
                        }
                    }
                }
                j = j + 1;
            }
            ai = ai + 1;
        }
        proof {
            assert forall|b: usize|
                result@.contains(b) == spec_move(nn, s0, ch).contains(b) by {
                if spec_move(nn, s0, ch).contains(b) {
                    let a = choose|a: usize|
                        s0.contains(a) && #[trigger] has_char_edge(nn, a, b, ch);
                    let a2 = choose|a2: int|
                        0 <= a2 < state_set@.len() && state_set@[a2] == a;
                    let j2 = choose|j2: int|
                        0 <= j2 < nn[a as int].outgoing_edges@.len() && (#[trigger] nn[
                            a as int
                        ].outgoing_edges@[j2]).label.has_char(ch) && nn[
                            a as int
                        ].outgoing_edges@[j2].to == b;
                    assert(result@.contains(nn[state_set@[a2] as int].outgoing_edges@[j2].to));
                }
            }
        }
        result
    }

    /// Collects every character that labels a non-epsilon edge out of
    /// `state_set`, without duplicates, in first-seen order.
    fn extract_symbols(&self, state_set: &Vec<usize>) -> (r: Vec<char>)
        requires
            self.nfa.wf(),
            sorted_strict(state_set@),
            forall|i: int| 0 <= i < state_set@.len() ==> state_set@[i] < self.nfa.nodes@.len(),
        ensures
            no_dup_chars(r@),
            forall|c: char|
                r@.contains(c) == spec_symbols(self.nfa.nodes@, ids_set(state_set@)).contains(c),
    {
        let ghost nn = self.nfa.nodes@;
        let ghost s0 = ids_set(state_set@);
        let mut result: Vec<char> = Vec::new();
        let mut ai: usize = 0;
        while ai < state_set.len()
            invariant
                self.nfa.wf(),
                nn == self.nfa.nodes@,
                s0 == ids_set(state_set@),
                ai <= state_set@.len(),
                forall|i: int| 0 <= i < state_set@.len() ==> state_set@[i] < nn.len(),
                no_dup_chars(result@),
                forall|c: char| result@.contains(c) ==> spec_symbols(nn, s0).contains(c),
                forall|a2: int, j2: int, c: char|
                    0 <= a2 < ai && 0 <= j2 < nn[state_set@[a2] as int].outgoing_edges@.len()
                        && #[trigger] nn[state_set@[a2] as int].outgoing_edges@[j2].label.has_char(c)
                        ==> result@.contains(c),
            decreases state_set@.len() - ai,
        {
            let sid = state_set[ai];
            let edges_len = self.nfa.nodes[sid].outgoing_edges.len();
            let mut j: usize = 0;
            while j < edges_len
                invariant
                    self.nfa.wf(),
                    nn == self.nfa.nodes@,
                    s0 == ids_set(state_set@),
                    ai < state_set@.len(),
                    sid == state_set@[ai as int],
                    sid < nn.len(),
                    edges_len == nn[sid as int].outgoing_edges@.len(),
                    j <= edges_len,
                    no_dup_chars(result@),
                    forall|c: char| result@.contains(c) ==> spec_symbols(nn, s0).contains(c),
                    forall|a2: int, j2: int, c: char|
                        0 <= a2 < ai && 0 <= j2 < nn[state_set@[a2] as int].outgoing_edges@.len()
                            && #[trigger] nn[state_set@[a2] as int].outgoing_edges@[j2].label.has_char(c)
                            ==> result@.contains(c),
                    forall|j2: int, c: char|
                        0 <= j2 < j && #[trigger] nn[sid as int].outgoing_edges@[j2].label.has_char(c)
                            ==> result@.contains(c),
                decreases edges_len - j,
            {
                let ghost to_b = nn[sid as int].outgoing_edges@[j as int].to;
                match self.nfa.nodes[sid].outgoing_edges[j].get_sym() {
                    Label::Epsilon => {},
                    Label::Chars(v) => {
                        let mut ci: usize = 0;
                        while ci < v.len()
                            invariant
                                self.nfa.wf(),
                                nn == self.nfa.nodes@,
                                s0 == ids_set(state_set@),
                                ai < state_set@.len(),
                                sid == state_set@[ai as int],
                                sid < nn.len(),
                                j < nn[sid as int].outgoing_edges@.len(),
                                nn[sid as int].outgoing_edges@[j as int].label == (Label::Chars(
                                    *v,
                                )),
                                to_b == nn[sid as int].outgoing_edges@[j as int].to,
                                ci <= v@.len(),
                                no_dup_chars(result@),
                                forall|c: char|
                                    result@.contains(c) ==> spec_symbols(nn, s0).contains(c),
                                forall|a2: int, j2: int, c: char|
                                    0 <= a2 < ai && 0 <= j2 < nn[
                                        state_set@[a2] as int
                                    ].outgoing_edges@.len() && #[trigger] nn[
                                        state_set@[a2] as int
                                    ].outgoing_edges@[j2].label.has_char(c) ==> result@.contains(
                                        c,
                                    ),
                                forall|j2: int, c: char|
                                    0 <= j2 < j && #[trigger] nn[
                                        sid as int
                                    ].outgoing_edges@[j2].label.has_char(c) ==> result@.contains(
                                        c,
                                    ),
                                forall|c2: int| 0 <= c2 < ci ==> result@.contains(#[trigger] v@[c2]),
                            decreases v@.len() - ci,
                        {
                            let c = v[ci];
                            crate::state_set::cs_insert(&mut result, c);
                            proof {
                                assert(spec_symbols(nn, s0).contains(c)) by {
                                    assert(state_set@.contains(sid)) by {
                                        assert(state_set@[ai as int] == sid);
                                    }
                                    assert(has_char_edge(nn, sid, to_b, c)) by {
                                        assert(v@.contains(c)) by {
                                            assert(v@[ci as int] == c);
                                        }
                                        assert((#[trigger] nn[
                                            sid as int
                                        ].outgoing_edges@[j as int]).label.has_char(c) && nn[
                                            sid as int
                                        ].outgoing_edges@[j as int].to == to_b);
                                    }
                                }
                            }
                            ci = ci + 1;
                        }
                        proof {
                            assert forall|c: char|
                                (#[trigger] nn[sid as int].outgoing_edges@[j as int]).label.has_char(
                                    c,
                                ) implies result@.contains(c) by {
                                let c2 = choose|c2: int| 0 <= c2 < v@.len() && v@[c2] == c;
                                assert(result@.contains(v@[c2]));
                            }
                        }
                    },
                }
                j = j + 1;
            }
            ai = ai + 1;
        }
        proof {
            assert forall|c: char|
                result@.contains(c) == spec_symbols(nn, s0).contains(c) by {
                if spec_symbols(nn, s0).contains(c) {
                    let (a, b): (usize, usize) = choose|a: usize, b: usize|
                        s0.contains(a) && #[trigger] has_char_edge(nn, a, b, c);
                    let a2 = choose|a2: int|
                        0 <= a2 < state_set@.len() && state_set@[a2] == a;
                    let j2 = choose|j2: int|
                        0 <= j2 < nn[a as int].outgoing_edges@.len() && (#[trigger] nn[
                            a as int
                        ].outgoing_edges@[j2]).label.has_char(c) && nn[
                            a as int
                        ].outgoing_edges@[j2].to == b;
                    assert((#[trigger] nn[state_set@[a2] as int].outgoing_edges@[j2]).label.has_char(
                        c,
                    ));
                }
            }
        }
        result
    }

    /// Creates one deterministic node standing for the set `state_set` of
    /// nondeterministic states: terminal exactly when some member is
    /// terminal, named after the first terminal member in ascending
    /// identifier order (or with a placeholder name when none is).
    fn create_dfa_state(&mut self, state_set: &Vec<usize>) -> (id: usize)
        requires
            old(self).wf(),
            sorted_strict(state_set@),
            forall|i: int|
                0 <= i < state_set@.len() ==> state_set@[i] < old(self).nfa.nodes@.len(),
        ensures
            final(self).nfa == old(self).nfa,
            final(self).root_id == old(self).root_id,
            final(self).state_sets == old(self).state_sets,
            final(self).nodes@.len() == old(self).nodes@.len() + 1,
            forall|i: int| 0 <= i < old(self).nodes@.len() ==> final(self).nodes@[i] == old(
                self,
            ).nodes@[i],
            id == old(self).nodes@.len(),
            final(self).nodes@[id as int].terminal == any_terminal(
                old(self).nfa.nodes@,
                state_set@,
            ),
            final(self).nodes@[id as int].name@ == spec_state_name(
                old(self).nfa.nodes@,
                state_set@,
            ),
            final(self).nodes@[id as int].outgoing_edges@.len() == 0,
            final(self).wf(),
    {
        let ghost nn = self.nfa.nodes@;
        let mut found = false;
        let mut name = String::from_str("<>");
        proof {
            reveal_strlit("<>");
            assert(name@ =~= seq!['<', '>']);
            assert(state_set@.skip(0) =~= state_set@);
        }
        let mut i: usize = 0;
        while i < state_set.len()
            invariant
                self.nfa.wf(),
                nn == self.nfa.nodes@,
                i <= state_set@.len(),
                forall|k: int| 0 <= k < state_set@.len() ==> state_set@[k] < nn.len(),
                found == exists|k: int|
                    0 <= k < i && (#[trigger] nn[state_set@[k] as int]).terminal,
                !found ==> name@ == seq!['<', '>'],
                spec_state_name(nn, state_set@) == (if found {
                    name@
                } else {
                    spec_state_name(nn, state_set@.skip(i as int))
                }),
            decreases state_set@.len() - i,
        {
            let sid = state_set[i];
            proof {
                assert(state_set@.skip(i as int)[0] == state_set@[i as int]);
                assert(state_set@.skip(i as int).skip(1) =~= state_set@.skip(i as int + 1));
            }
            if !found {
                let term = self.nfa.nodes[sid].is_terminal();
                if term {
                    found = true;
                    name = self.nfa.nodes[sid].get_name().clone();
                    proof {
                        assert(nn[state_set@[i as int] as int].terminal);
                    }
                }
            }
            i = i + 1;
        }
        proof {
            assert(state_set@.skip(state_set@.len() as int) =~= Seq::<usize>::empty());
            assert(found == any_terminal(nn, state_set@)) by {
                if any_terminal(nn, state_set@) {
                    let k = choose|k: int|
                        0 <= k < state_set@.len() && (#[trigger] nn[state_set@[k] as int]).terminal;
                    assert(0 <= k < i);
                }
            }
        }
        let id = crate::node::arena_push(&mut self.nodes, name, found);
        id
    }

    /// Looks `set` up in the subset-construction table, returning the
    /// index of the entry holding exactly that vector.
    fn find_state(&self, set: &Vec<usize>) -> (r: Option<usize>)
        ensures
            match r {
                Some(k) => k < self.state_sets@.len() && self.state_sets@[k as int].0@ == set@,
                None => forall|k: int|
                    0 <= k < self.state_sets@.len() ==> (#[trigger] self.state_sets@[k]).0@
                        != set@,
            },
    {
        let mut k: usize = 0;
        while k < self.state_sets.len()
            invariant
                k <= self.state_sets@.len(),
                forall|k2: int|
                    0 <= k2 < k ==> (#[trigger] self.state_sets@[k2]).0@ != set@,
            decreases self.state_sets@.len() - k,
        {
            if crate::state_set::ss_eq(&self.state_sets[k].0, set) {
                return Some(k);
            }
            k = k + 1;
        }
        None
    }

    /// Finds the index of the edge of node `from` leading to `to`, if any.
    fn find_edge_to(&self, from: usize, to: usize) -> (r: Option<usize>)
        requires
            from < self.nodes@.len(),
        ensures
            match r {
                Some(ei) => ei < self.nodes@[from as int].outgoing_edges@.len() && self.nodes@[
                    from as int
                ].outgoing_edges@[ei as int].to == to,
                None => forall|j: int|
                    0 <= j < self.nodes@[from as int].outgoing_edges@.len() ==> (
                    #[trigger] self.nodes@[from as int].outgoing_edges@[j]).to != to,
            },
    {
        let edges_len = self.nodes[from].outgoing_edges.len();
        let mut ei: usize = 0;
        while ei < edges_len
            invariant
                from < self.nodes@.len(),
                edges_len == self.nodes@[from as int].outgoing_edges@.len(),
                ei <= edges_len,
                forall|j: int|
                    0 <= j < ei ==> (#[trigger] self.nodes@[from as int].outgoing_edges@[j]).to
                        != to,
            decreases edges_len - ei,
        {
            if self.nodes[from].outgoing_edges[ei].get_to() == to {
                return Some(ei);
            }
            ei = ei + 1;
        }
        None
    }

    /// Builds the deterministic automaton by subset construction: the
    /// root becomes the epsilon-closure of the nondeterministic root, and
    /// a worklist pass creates one deterministic state per distinct
    /// nonempty closure reached, merging repeated transitions to the same
    /// destination into one edge.  Afterwards the graph is deterministic,
    /// the table of state sets is duplicate-free and closed under
    /// transitions, and every entry is reachable by some input word.
    #[verifier::rlimit(100)]
    pub fn construct_dfa(&mut self)
        requires
            old(self).wf(),
            deterministic_nodes(old(self).nodes@),
            old(self).state_sets@.len() == 0,
        ensures
            final(self).wf(),
            final(self).nfa == old(self).nfa,
            deterministic_nodes(final(self).nodes@),
            final(self).state_sets@.len() > 0,
            final(self).nodes@.len() == old(self).nodes@.len() + final(self).state_sets@.len(),
            forall|i: int|
                0 <= i < old(self).nodes@.len() ==> final(self).nodes@[i] == old(self).nodes@[i],
            table_ok(
                old(self).nfa.nodes@,
                final(self).state_sets@,
                old(self).nodes@.len() as int,
            ),
            table_distinct(final(self).state_sets@),
            table_reachable(old(self).nfa.nodes@, old(self).nfa.root_id, final(self).state_sets@),
            table_closed(old(self).nfa.nodes@, final(self).state_sets@),
            ids_set(final(self).state_sets@[0].0@) == spec_closure(
                old(self).nfa.nodes@,
                Set::empty().insert(old(self).nfa.root_id),
            ),
            final(self).root_id == final(self).state_sets@[0].1,
            forall|k: int|
                0 <= k < final(self).state_sets@.len() ==> node_edge_sound(
                    old(self).nfa.nodes@,
                    final(self).nodes@[(#[trigger] final(self).state_sets@[k]).1 as int],
                    ids_set(final(self).state_sets@[k].0@),
                    final(self).state_sets@,
                ),
            forall|k: int|
                0 <= k < final(self).state_sets@.len() ==> node_edge_complete(
                    old(self).nfa.nodes@,
                    final(self).nodes@[(#[trigger] final(self).state_sets@[k]).1 as int],
                    ids_set(final(self).state_sets@[k].0@),
                ),
            forall|k: int|
                0 <= k < final(self).state_sets@.len() ==> node_accepting_ok(
                    old(self).nfa.nodes@,
                    final(self).nodes@[(#[trigger] final(self).state_sets@[k]).1 as int],
                    final(self).state_sets@[k].0@,
                ),
            forall|k: int|
                0 <= k < final(self).state_sets@.len() ==> node_targets_distinct(
                    final(self).nodes@[(#[trigger] final(self).state_sets@[k]).1 as int],
                ),
    {
        let ghost nn = self.nfa.nodes@;
        let ghost nfa_root_g = self.nfa.root_id;
        let ghost base = old(self).nodes@.len() as int;
        let nfa_root = self.nfa.root_id;

        let mut start_vec: Vec<usize> = Vec::new();
        start_vec.push(nfa_root);
        proof {
            assert(sorted_strict(start_vec@));
            assert(ids_set(start_vec@) =~= Set::empty().insert(nfa_root)) by {
                assert(start_vec@.contains(nfa_root)) by {
                    assert(start_vec@[0] == nfa_root);
                }
                assert forall|x: usize| start_vec@.contains(x) implies x == nfa_root by {
                    let k = choose|k: int| 0 <= k < start_vec@.len() && start_vec@[k] == x;
                }
            }
        }
        let start_closure = self.epsilon_closure(&start_vec);
        proof {
            assert(ids_set(start_closure@) =~= spec_closure(nn, Set::empty().insert(nfa_root)));
            lemma_closure_member(nn, Set::empty().insert(nfa_root), nfa_root);
            assert(start_closure@.contains(nfa_root));
            assert(start_closure@.len() > 0);
        }
        let start_id = self.create_dfa_state(&start_closure);
        self.root_id = start_id;
        self.state_sets.push((start_closure, start_id));
        proof {
            assert(table_ok(nn, self.state_sets@, base)) by {
                assert(table_entry_ok(nn, self.state_sets@[0], base));
            }
            assert(table_reachable(nn, nfa_root_g, self.state_sets@)) by {
                let w0 = Seq::<char>::empty();
                assert(ids_set(self.state_sets@[0].0@) == delta_word(nn, nfa_root_g, w0));
            }
            assert(node_accepting_ok(nn, self.nodes@[start_id as int], self.state_sets@[0].0@));
            assert(deterministic_nodes(self.nodes@)) by {
                assert forall|i: int|
                    0 <= i < self.nodes@.len() implies node_deterministic(
                    #[trigger] self.nodes@[i],
                ) by {
                    if i < base {
                        assert(self.nodes@[i] == old(self).nodes@[i]);
                        assert(node_deterministic(old(self).nodes@[i]));
                    } else {
                        assert(self.nodes@[i].outgoing_edges@.len() == 0);
                    }
                }
            }
            vstd::arithmetic::power2::lemma_pow2_pos(nn.len() as nat);
        }

        let mut h: usize = 0;
        while h < self.state_sets.len()
            invariant
                self.wf(),
                old(self).wf(),
                self.nfa == old(self).nfa,
                nn == self.nfa.nodes@,
                nfa_root_g == self.nfa.root_id,
                base == old(self).nodes@.len() as int,
                deterministic_nodes(old(self).nodes@),
                h <= self.state_sets@.len(),
                self.state_sets@.len() > 0,
                self.nodes@.len() == base + self.state_sets@.len(),
                forall|i: int|
                    0 <= i < base ==> self.nodes@[i] == old(self).nodes@[i],
                table_ok(nn, self.state_sets@, base),
                table_distinct(self.state_sets@),
                table_reachable(nn, nfa_root_g, self.state_sets@),
                ids_set(self.state_sets@[0].0@) == spec_closure(
                    nn,
                    Set::empty().insert(nfa_root_g),
                ),
                self.root_id == self.state_sets@[0].1,
                deterministic_nodes(self.nodes@),
                forall|k: int|
                    h <= k < self.state_sets@.len() ==> (#[trigger] self.nodes@[base
                        + k]).outgoing_edges@.len() == 0,
                forall|k: int, c: char|
                    0 <= k < h && #[trigger] spec_delta(nn, ids_set(self.state_sets@[k].0@), c)
                        != Set::<usize>::empty() ==> table_has_set(
                        self.state_sets@,
                        spec_delta(nn, ids_set(self.state_sets@[k].0@), c),
                    ),
                forall|k: int|
                    0 <= k < h ==> node_edge_sound(
                        nn,
                        self.nodes@[(#[trigger] self.state_sets@[k]).1 as int],
                        ids_set(self.state_sets@[k].0@),
                        self.state_sets@,
                    ),
                forall|k: int|
                    0 <= k < h ==> node_edge_complete(
                        nn,
                        self.nodes@[(#[trigger] self.state_sets@[k]).1 as int],
                        ids_set(self.state_sets@[k].0@),
                    ),
                forall|k: int|
                    0 <= k < self.state_sets@.len() ==> node_accepting_ok(
                        nn,
                        self.nodes@[(#[trigger] self.state_sets@[k]).1 as int],
                        self.state_sets@[k].0@,
                    ),
                forall|k: int|
                    0 <= k < h ==> node_targets_distinct(
                        self.nodes@[(#[trigger] self.state_sets@[k]).1 as int],
                    ),
                self.state_sets@.len() <= vstd::arithmetic::power2::pow2(nn.len() as nat),
            decreases vstd::arithmetic::power2::pow2(nn.len() as nat) - self.state_sets@.len(),
                self.state_sets@.len() - h,
        {
            let current = crate::state_set::ss_clone(&self.state_sets[h].0);
            let current_id = self.state_sets[h].1;
            let ghost set_h = ids_set(current@);
            proof {
                assert(table_entry_ok(nn, self.state_sets@[h as int], base + h));
                assert(current_id == base + h);
            }
            let symbols = self.extract_symbols(&current);
            let ghost table_at_h = self.state_sets@;
            let mut si: usize = 0;
            while si < symbols.len()
                invariant
                    self.wf(),
                    old(self).wf(),
                    self.nfa == old(self).nfa,
                    nn == self.nfa.nodes@,
                    nfa_root_g == self.nfa.root_id,
                    base == old(self).nodes@.len() as int,
                    deterministic_nodes(old(self).nodes@),
                    h < self.state_sets@.len(),
                    self.nodes@.len() == base + self.state_sets@.len(),
                    forall|i: int|
                        0 <= i < base ==> self.nodes@[i] == old(self).nodes@[i],
                    table_ok(nn, self.state_sets@, base),
                    table_distinct(self.state_sets@),
                    table_reachable(nn, nfa_root_g, self.state_sets@),
                    ids_set(self.state_sets@[0].0@) == spec_closure(
                        nn,
                        Set::empty().insert(nfa_root_g),
                    ),
                    self.root_id == self.state_sets@[0].1,
                    deterministic_nodes(self.nodes@),
                    si <= symbols@.len(),
                    current@ == self.state_sets@[h as int].0@,
                    set_h == ids_set(current@),
                    sorted_strict(current@),
                    forall|i: int| 0 <= i < current@.len() ==> current@[i] < nn.len(),
                    current_id == base + h,
                    no_dup_chars(symbols@),
                    forall|c: char| symbols@.contains(c) == spec_symbols(nn, set_h).contains(c),
                    forall|k: int|
                        h < k < self.state_sets@.len() ==> (#[trigger] self.nodes@[base
                            + k]).outgoing_edges@.len() == 0,
                    forall|k: int, c: char|
                        0 <= k < h && #[trigger] spec_delta(nn, ids_set(self.state_sets@[k].0@), c)
                            != Set::<usize>::empty() ==> table_has_set(
                            self.state_sets@,
                            spec_delta(nn, ids_set(self.state_sets@[k].0@), c),
                        ),
                    forall|s2: int|
                        0 <= s2 < si && #[trigger] spec_delta(nn, set_h, symbols@[s2]) != Set::<
                            usize,
                        >::empty() ==> table_has_set(
                            self.state_sets@,
                            spec_delta(nn, set_h, symbols@[s2]),
                        ),
                    forall|k: int|
                        0 <= k < h ==> node_edge_sound(
                            nn,
                            self.nodes@[(#[trigger] self.state_sets@[k]).1 as int],
                            ids_set(self.state_sets@[k].0@),
                            self.state_sets@,
                        ),
                    forall|k: int|
                        0 <= k < h ==> node_edge_complete(
                            nn,
                            self.nodes@[(#[trigger] self.state_sets@[k]).1 as int],
                            ids_set(self.state_sets@[k].0@),
                        ),
                    forall|k: int|
                        0 <= k < self.state_sets@.len() ==> node_accepting_ok(
                            nn,
                            self.nodes@[(#[trigger] self.state_sets@[k]).1 as int],
                            self.state_sets@[k].0@,
                        ),
                    forall|k: int|
                        0 <= k < h ==> node_targets_distinct(
                            self.nodes@[(#[trigger] self.state_sets@[k]).1 as int],
                        ),
                    node_edge_sound(nn, self.nodes@[current_id as int], set_h, self.state_sets@),
                    forall|s2: int|
                        0 <= s2 < si && #[trigger] spec_delta(nn, set_h, symbols@[s2]) != Set::<
                            usize,
                        >::empty() ==> (exists|j: int|
                            0 <= j < self.nodes@[current_id as int].outgoing_edges@.len() && (
                            #[trigger] self.nodes@[
                                current_id as int
                            ].outgoing_edges@[j]).label.has_char(symbols@[s2])),
                    forall|j: int, c: char|
                        0 <= j < self.nodes@[current_id as int].outgoing_edges@.len()
                            && #[trigger] self.nodes@[
                            current_id as int
                        ].outgoing_edges@[j].label.has_char(c) ==> symbols@.subrange(
                            0,
                            si as int,
                        ).contains(c),
                    forall|j1: int, j2: int|
                        0 <= j1 < j2 < self.nodes@[current_id as int].outgoing_edges@.len() ==> (
                        #[trigger] self.nodes@[current_id as int].outgoing_edges@[j1]).to != (
                        #[trigger] self.nodes@[current_id as int].outgoing_edges@[j2]).to,
                    self.state_sets@.len() <= vstd::arithmetic::power2::pow2(nn.len() as nat),
                    self.state_sets@.len() >= table_at_h.len(),
                decreases symbols@.len() - si,
            {
                let ghost table_iter = self.state_sets@;
                let ghost nodes_iter = self.nodes@;
                let ch = symbols[si];
                let moved = self.move_nfa(&current, ch);
                let closure = self.epsilon_closure(&moved);
                proof {
                    assert(ids_set(moved@) =~= spec_move(nn, set_h, ch));
                    assert(ids_set(closure@) =~= spec_delta(nn, set_h, ch));
                }
                if closure.len() > 0 {
                    proof {
                        assert(spec_delta(nn, set_h, ch) != Set::<usize>::empty()) by {
                            assert(closure@.contains(closure@[0]));
                            assert(ids_set(closure@).contains(closure@[0]));
                            assert(!Set::<usize>::empty().contains(closure@[0]));
                        }
                    }
                    let ghost table_pre = self.state_sets@;
                    let ghost mut k_next: int = 0;
                    let next_id: usize;
                    match self.find_state(&closure) {
                        Some(k2) => {
                            next_id = self.state_sets[k2].1;
                            proof {
                                k_next = k2 as int;
                                assert(table_entry_ok(nn, self.state_sets@[k2 as int], base + k2));
                                assert(ids_set(self.state_sets@[k2 as int].0@) == spec_delta(
                                    nn,
                                    set_h,
                                    ch,
                                ));
                                assert(table_has_set(self.state_sets@, spec_delta(nn, set_h, ch)))
                                    by {
                                    assert(ids_set(self.state_sets@[k2 as int].0@) == spec_delta(
                                        nn,
                                        set_h,
                                        ch,
                                    ));
                                }
                            }
                        },
                        None => {
                            let nid = self.create_dfa_state(&closure);
                            self.state_sets.push((closure, nid));
                            next_id = nid;
                            proof {
                                let newk = self.state_sets@.len() - 1;
                                k_next = newk;
                                assert(self.state_sets@[newk].1 == nid);
                                assert(nid == base + newk);
                                assert(table_ok(nn, self.state_sets@, base)) by {
                                    assert forall|k: int|
                                        0 <= k < self.state_sets@.len() implies table_entry_ok(
                                        nn,
                                        #[trigger] self.state_sets@[k],
                                        base + k,
                                    ) by {
                                        if k < newk {
                                            assert(self.state_sets@[k] == table_pre[k]);
                                            assert(table_entry_ok(nn, table_pre[k], base + k));
                                        }
                                    }
                                }
                                assert(table_distinct(self.state_sets@)) by {
                                    assert forall|k1: int, k2: int|
                                        0 <= k1 < k2 < self.state_sets@.len() implies (
                                        #[trigger] self.state_sets@[k1]).0@ != (
                                        #[trigger] self.state_sets@[k2]).0@ by {
                                        if k2 < newk {
                                            assert(self.state_sets@[k1] == table_pre[k1]);
                                            assert(self.state_sets@[k2] == table_pre[k2]);
                                        } else {
                                            assert(self.state_sets@[k1] == table_pre[k1]);
                                            assert(table_pre[k1].0@ != closure@);
                                        }
                                    }
                                }
                                assert(table_reachable(nn, nfa_root_g, self.state_sets@)) by {
                                    let w = choose|w: Seq<char>|
                                        ids_set(table_pre[h as int].0@) == #[trigger] delta_word(
                                            nn,
                                            nfa_root_g,
                                            w,
                                        );
                                    let w2 = w.push(ch);
                                    assert(w2.drop_last() =~= w);
                                    assert(w2.last() == ch);
                                    assert(delta_word(nn, nfa_root_g, w2) == spec_delta(
                                        nn,
                                        delta_word(nn, nfa_root_g, w),
                                        ch,
                                    ));
                                    assert(table_pre[h as int].0@ == current@);
                                    assert(ids_set(self.state_sets@[newk].0@) == delta_word(
                                        nn,
                                        nfa_root_g,
                                        w2,
                                    ));
                                    assert forall|k: int|
                                        0 <= k < self.state_sets@.len() implies exists|
                                        w3: Seq<char>,
                                    |
                                        ids_set((#[trigger] self.state_sets@[k]).0@)
                                            == #[trigger] delta_word(nn, nfa_root_g, w3) by {
                                        if k < newk {
                                            assert(self.state_sets@[k] == table_pre[k]);
                                            let w4 = choose|w4: Seq<char>|
                                                ids_set(table_pre[k].0@) == #[trigger] delta_word(
                                                    nn,
                                                    nfa_root_g,
                                                    w4,
                                                );
                                            assert(ids_set(self.state_sets@[k].0@) == delta_word(
                                                nn,
                                                nfa_root_g,
                                                w4,
                                            ));
                                        }
                                    }
                                }
                                assert(table_has_set(self.state_sets@, spec_delta(nn, set_h, ch)))
                                    by {
                                    assert(ids_set(self.state_sets@[newk].0@) == spec_delta(
                                        nn,
                                        set_h,
                                        ch,
                                    ));
                                }
                                assert(node_accepting_ok(
                                    nn,
                                    self.nodes@[nid as int],
                                    self.state_sets@[newk].0@,
                                ));
                                assert forall|k: int|
                                    0 <= k < self.state_sets@.len() implies node_accepting_ok(
                                    nn,
                                    self.nodes@[(#[trigger] self.state_sets@[k]).1 as int],
                                    self.state_sets@[k].0@,
                                ) by {
                                    if k < newk {
                                        assert(self.state_sets@[k] == table_pre[k]);
                                        assert(table_entry_ok(nn, table_pre[k], base + k));
                                        let id_k = table_pre[k].1;
                                        assert(self.nodes@[id_k as int] == nodes_iter[
                                            id_k as int
                                        ]);
                                    }
                                }
                                assert(deterministic_nodes(self.nodes@)) by {
                                    assert forall|i: int|
                                        0 <= i < self.nodes@.len() implies node_deterministic(
                                        #[trigger] self.nodes@[i],
                                    ) by {
                                        if i < self.nodes@.len() - 1 {
                                        } else {
                                            assert(self.nodes@[i].outgoing_edges@.len() == 0);
                                        }
                                    }
                                }
                                assert(self.state_sets@.len()
                                    <= vstd::arithmetic::power2::pow2(nn.len() as nat)) by {
                                    let sets = self.state_sets@.map_values(
                                        |e: (Vec<usize>, usize)| e.0@,
                                    );
                                    assert forall|k: int|
                                        0 <= k < sets.len() implies sorted_strict(
                                        #[trigger] sets[k],
                                    ) by {
                                        assert(table_entry_ok(
                                            nn,
                                            self.state_sets@[k],
                                            base + k,
                                        ));
                                        assert(sets[k] == self.state_sets@[k].0@);
                                    }
                                    assert forall|k: int, i: int|
                                        0 <= k < sets.len() && 0 <= i < sets[k].len() implies (
                                    #[trigger] sets[k][i]) < nn.len() by {
                                        assert(table_entry_ok(
                                            nn,
                                            self.state_sets@[k],
                                            base + k,
                                        ));
                                        assert(sets[k] == self.state_sets@[k].0@);
                                    }
                                    assert forall|k1: int, k2: int|
                                        0 <= k1 < k2 < sets.len() implies (#[trigger] sets[k1])
                                        != (#[trigger] sets[k2]) by {
                                        assert(sets[k1] == self.state_sets@[k1].0@);
                                        assert(sets[k2] == self.state_sets@[k2].0@);
                                    }
                                    crate::state_set::lemma_distinct_sets_bound(
                                        sets,
                                        nn.len() as nat,
                                    );
                                }
                            }
                        },
                    }
                    proof {
                        assert(forall|k: int|
                            0 <= k < table_iter.len() ==> self.state_sets@[k] == table_iter[k]);
                        assert(0 <= k_next < self.state_sets@.len());
                        assert(self.state_sets@[k_next as int].1 == next_id);
                        assert(ids_set(self.state_sets@[k_next as int].0@) == spec_delta(
                            nn,
                            set_h,
                            ch,
                        ));
                        assert(self.nodes@[current_id as int] == nodes_iter[current_id as int]);
                        lemma_sound_table_extend(
                            nn,
                            self.nodes@[current_id as int],
                            set_h,
                            table_iter,
                            self.state_sets@,
                        );
                    }
                    let ghost nodes_pre = self.nodes@;
                    let ghost edges_pre = self.nodes@[current_id as int].outgoing_edges@;
                    match self.find_edge_to(current_id, next_id) {
                        Some(ei) => {
                            proof {
                                assert(!edges_pre[ei as int].label.is_epsilon()) by {
                                    assert(node_deterministic(nodes_pre[current_id as int]));
                                }
                            }
                            crate::node::arena_extend_edge(&mut self.nodes, current_id, ei, ch);
                            proof {
                                let es = self.nodes@[current_id as int].outgoing_edges@;
                                let pes = nodes_pre[current_id as int].outgoing_edges@;
                                assert forall|j: int, c: char|
                                    0 <= j < es.len() && #[trigger] es[j].label.has_char(c) implies
                                    spec_delta(nn, set_h, c) != Set::<usize>::empty() && (exists|
                                    k2: int,
                                |
                                    0 <= k2 < self.state_sets@.len() && (
                                    #[trigger] self.state_sets@[k2]).1 == es[j].to && ids_set(
                                        self.state_sets@[k2].0@,
                                    ) == spec_delta(nn, set_h, c)) by {
                                    assert(node_edge_sound(
                                        nn,
                                        nodes_pre[current_id as int],
                                        set_h,
                                        self.state_sets@,
                                    ));
                                    if j == ei {
                                        if c == ch {
                                            assert(es[j].to == next_id);
                                            assert(self.state_sets@[k_next as int].1 == es[j].to);
                                        } else {
                                            assert(pes[j].label.has_char(c));
                                            assert(pes[j].to == es[j].to);
                                        }
                                    } else {
                                        assert(es[j] == pes[j]);
                                    }
                                }
                                assert(es[ei as int].label.has_char(ch));
                            }
                        },
                        None => {
                            crate::node::arena_add_edge(
                                &mut self.nodes,
                                current_id,
                                next_id,
                                Label::of_char(ch),
                            );
                            proof {
                                let es = self.nodes@[current_id as int].outgoing_edges@;
                                let pes = nodes_pre[current_id as int].outgoing_edges@;
                                assert forall|j: int, c: char|
                                    0 <= j < es.len() && #[trigger] es[j].label.has_char(c) implies
                                    spec_delta(nn, set_h, c) != Set::<usize>::empty() && (exists|
                                    k2: int,
                                |
                                    0 <= k2 < self.state_sets@.len() && (
                                    #[trigger] self.state_sets@[k2]).1 == es[j].to && ids_set(
                                        self.state_sets@[k2].0@,
                                    ) == spec_delta(nn, set_h, c)) by {
                                    assert(node_edge_sound(
                                        nn,
                                        nodes_pre[current_id as int],
                                        set_h,
                                        self.state_sets@,
                                    ));
                                    if j < es.len() - 1 {
                                        assert(es[j] == pes[j]);
                                    } else {
                                        assert(c == ch);
                                        assert(es[j].to == next_id);
                                        assert(self.state_sets@[k_next as int].1 == next_id);
                                    }
                                }
                                assert(es[es.len() - 1].label.has_char(ch));
                            }
                        },
                    }
                    proof {
                        lemma_edge_step_keeps_invariants(
                            nodes_pre,
                            self.nodes@,
                            current_id,
                            next_id,
                            symbols@,
                            si as int,
                            ch,
                        );
                    }
                } else {
                    proof {
                        assert(spec_delta(nn, set_h, ch) =~= Set::<usize>::empty()) by {
                            assert forall|x: usize|
                                !spec_delta(nn, set_h, ch).contains(x) by {
                                if ids_set(closure@).contains(x) {
                                    assert(closure@.contains(x));
                                }
                            }
                        }
                        assert(symbols@.subrange(0, si as int + 1) =~= symbols@.subrange(
                            0,
                            si as int,
                        ).push(symbols@[si as int]));
                    }
                }
                proof {
                    assert(forall|k: int|
                        0 <= k < table_iter.len() ==> self.state_sets@[k] == table_iter[k]);
                    assert forall|s2: int|
                        0 <= s2 < si + 1 && #[trigger] spec_delta(nn, set_h, symbols@[s2])
                            != Set::<usize>::empty() implies table_has_set(
                        self.state_sets@,
                        spec_delta(nn, set_h, symbols@[s2]),
                    ) by {
                        if s2 < si {
                            assert(table_has_set(table_iter, spec_delta(nn, set_h, symbols@[s2])));
                            let k3 = choose|k3: int|
                                0 <= k3 < table_iter.len() && ids_set(
                                    (#[trigger] table_iter[k3]).0@,
                                ) == spec_delta(nn, set_h, symbols@[s2]);
                            assert(ids_set((self.state_sets@[k3]).0@) == spec_delta(
                                nn,
                                set_h,
                                symbols@[s2],
                            ));
                        }
                    }
                    assert forall|k: int, c: char|
                        0 <= k < h && #[trigger] spec_delta(nn, ids_set(self.state_sets@[k].0@), c)
                            != Set::<usize>::empty() implies table_has_set(
                        self.state_sets@,
                        spec_delta(nn, ids_set(self.state_sets@[k].0@), c),
                    ) by {
                        assert(self.state_sets@[k] == table_iter[k]);
                        assert(table_has_set(table_iter, spec_delta(nn, ids_set(table_iter[k].0@), c)));
                        let k3 = choose|k3: int|
                            0 <= k3 < table_iter.len() && ids_set((#[trigger] table_iter[k3]).0@)
                                == spec_delta(nn, ids_set(table_iter[k].0@), c);
                        assert(ids_set((self.state_sets@[k3]).0@) == spec_delta(
                            nn,
                            ids_set(self.state_sets@[k].0@),
                            c,
                        ));
                    }
                    assert(forall|i: int|
                        0 <= i < nodes_iter.len() && i != current_id ==> self.nodes@[i]
                            == nodes_iter[i]);
                    assert forall|k: int|
                        0 <= k < h implies node_edge_sound(
                        nn,
                        self.nodes@[(#[trigger] self.state_sets@[k]).1 as int],
                        ids_set(self.state_sets@[k].0@),
                        self.state_sets@,
                    ) by {
                        assert(self.state_sets@[k] == table_iter[k]);
                        let id_k = table_iter[k].1;
                        assert(table_entry_ok(nn, table_iter[k], base + k));
                        assert(id_k != current_id);
                        assert(self.nodes@[id_k as int] == nodes_iter[id_k as int]);
                        lemma_sound_table_extend(
                            nn,
                            nodes_iter[id_k as int],
                            ids_set(table_iter[k].0@),
                            table_iter,
                            self.state_sets@,
                        );
                    }
                    assert forall|k: int|
                        0 <= k < h implies node_edge_complete(
                        nn,
                        self.nodes@[(#[trigger] self.state_sets@[k]).1 as int],
                        ids_set(self.state_sets@[k].0@),
                    ) by {
                        assert(self.state_sets@[k] == table_iter[k]);
                        let id_k = table_iter[k].1;
                        assert(table_entry_ok(nn, table_iter[k], base + k));
                        assert(id_k != current_id);
                        assert(self.nodes@[id_k as int] == nodes_iter[id_k as int]);
                    }
                    assert forall|k: int|
                        0 <= k < h implies node_targets_distinct(
                        self.nodes@[(#[trigger] self.state_sets@[k]).1 as int],
                    ) by {
                        assert(self.state_sets@[k] == table_iter[k]);
                        let id_k = table_iter[k].1;
                        assert(table_entry_ok(nn, table_iter[k], base + k));
                        assert(id_k != current_id);
                        assert(self.nodes@[id_k as int] == nodes_iter[id_k as int]);
                    }
                    assert forall|k: int|
                        0 <= k < self.state_sets@.len() implies node_accepting_ok(
                        nn,
                        self.nodes@[(#[trigger] self.state_sets@[k]).1 as int],
                        self.state_sets@[k].0@,
                    ) by {
                        let id_k = self.state_sets@[k].1;
                        assert(table_entry_ok(nn, self.state_sets@[k], base + k));
                        if k < table_iter.len() {
                            assert(self.state_sets@[k] == table_iter[k]);
                            if id_k != current_id {
                                assert(self.nodes@[id_k as int] == nodes_iter[id_k as int]);
                            } else {
                                assert(self.nodes@[id_k as int].terminal == nodes_iter[
                                    id_k as int
                                ].terminal);
                                assert(self.nodes@[id_k as int].name == nodes_iter[
                                    id_k as int
                                ].name);
                            }
                        }
                    }
                    assert forall|s2: int|
                        0 <= s2 < si + 1 && #[trigger] spec_delta(nn, set_h, symbols@[s2]) != Set::<
                            usize,
                        >::empty() implies (exists|j: int|
                        0 <= j < self.nodes@[current_id as int].outgoing_edges@.len() && (
                        #[trigger] self.nodes@[current_id as int].outgoing_edges@[j]).label.has_char(
                            symbols@[s2],
                        )) by {
                        if s2 < si {
                            let j = choose|j: int|
                                0 <= j < nodes_iter[current_id as int].outgoing_edges@.len() && (
                                #[trigger] nodes_iter[
                                    current_id as int
                                ].outgoing_edges@[j]).label.has_char(symbols@[s2]);
                            assert(self.nodes@[current_id as int].outgoing_edges@[j].label.has_char(
                                symbols@[s2],
                            ));
                        }
                    }
                }
                si = si + 1;
                proof {
                    assert(symbols@.subrange(0, si as int) =~= symbols@.subrange(
                        0,
                        si as int - 1,
                    ).push(symbols@[si as int - 1]));
                    assert forall|j: int, c: char|
                        0 <= j < self.nodes@[current_id as int].outgoing_edges@.len()
                            && #[trigger] self.nodes@[
                            current_id as int
                        ].outgoing_edges@[j].label.has_char(c) implies symbols@.subrange(
                        0,
                        si as int,
                    ).contains(c) by {
                        if symbols@.subrange(0, si as int - 1).contains(c) {
                            let k = choose|k: int|
                                0 <= k < si - 1 && #[trigger] symbols@.subrange(
                                    0,
                                    si as int - 1,
                                )[k] == c;
                            assert(symbols@.subrange(0, si as int)[k] == c);
                        } else {
                            assert(symbols@.subrange(0, si as int)[si - 1] == symbols@[si - 1]);
                        }
                    }
                }
            }
            proof {
                assert forall|c: char|
                    #[trigger] spec_delta(nn, set_h, c) != Set::<usize>::empty() implies
                    table_has_set(self.state_sets@, spec_delta(nn, set_h, c)) by {
                    if spec_symbols(nn, set_h).contains(c) {
                        assert(symbols@.contains(c));
                        let s2 = choose|s2: int| 0 <= s2 < symbols@.len() && symbols@[s2] == c;
                        assert(spec_delta(nn, set_h, symbols@[s2]) != Set::<usize>::empty());
                    } else {
                        lemma_no_symbol_delta_empty(nn, set_h, c);
                    }
                }
                assert(set_h == ids_set(self.state_sets@[h as int].0@));
                assert(self.state_sets@[h as int].1 == current_id);
                assert forall|c: char|
                    #[trigger] spec_delta(nn, set_h, c) != Set::<usize>::empty() implies (exists|
                    j: int,
                |
                    0 <= j < self.nodes@[current_id as int].outgoing_edges@.len() && (
                    #[trigger] self.nodes@[current_id as int].outgoing_edges@[j]).label.has_char(
                        c,
                    )) by {
                    if spec_symbols(nn, set_h).contains(c) {
                        assert(symbols@.contains(c));
                        let s2 = choose|s2: int| 0 <= s2 < symbols@.len() && symbols@[s2] == c;
                        assert(spec_delta(nn, set_h, symbols@[s2]) != Set::<usize>::empty());
                    } else {
                        lemma_no_symbol_delta_empty(nn, set_h, c);
                    }
                }
                assert(node_edge_complete(nn, self.nodes@[current_id as int], set_h));
                assert(node_targets_distinct(self.nodes@[current_id as int]));
            }
            h = h + 1;
        }
        proof {
            assert(table_closed(nn, self.state_sets@));
        }
    }

    /// Scans `input` with the automaton under the maximal-munch policy:
    /// from each position the walk follows matching edges as far as it
    /// can, the last accepting state reached wins (backtracking to it),
    /// its token name and the whitespace-trimmed lexeme are emitted —
    /// except for the reserved skip name `;`, which is dropped — and a
    /// position with no match at all is skipped one character at a time.
    #[verifier::rlimit(100)]
    pub fn lex(&mut self, input: &str) -> (tokens: Vec<(String, String)>)
        requires
            old(self).wf(),
        ensures
            *final(self) == *old(self),
            tokens_view(tokens@) == spec_lex(
                old(self).nodes@,
                old(self).root_id,
                input@,
                0,
            ),
    {
        let ghost dn = self.nodes@;
        let ghost root_g = self.root_id;
        let chars = crate::text::chars_of(input);
        let mut tokens: Vec<(String, String)> = Vec::new();
        let mut index: usize = 0;
        proof {
            assert(tokens_view(tokens@) =~= Seq::<(Seq<char>, Seq<char>)>::empty());
        }
        while index < chars.len()
            invariant
                *self == *old(self),
                self.wf(),
                dn == self.nodes@,
                root_g == self.root_id,
                chars@ == input@,
                index <= chars@.len(),
                spec_lex(dn, root_g, input@, 0) == tokens_view(tokens@) + spec_lex(
                    dn,
                    root_g,
                    input@,
                    index as int,
                ),
            decreases chars@.len() - index,
        {
            let ghost index0 = index as int;
            let mut current_state_id = self.root_id;
            let mut have_accept = false;
            let mut accept_end: usize = 0;
            let mut accept_name = String::new();
            let mut stuck = false;
            let mut j = index;

            while j < chars.len() && !stuck
                invariant
                    *self == *old(self),
                    self.wf(),
                    dn == self.nodes@,
                    root_g == self.root_id,
                    chars@ == input@,
                    index <= j <= chars@.len(),
                    index < chars@.len(),
                    index0 == index as int,
                    current_state_id < dn.len(),
                    have_accept ==> index < accept_end <= j,
                    spec_munch(dn, root_g, chars@, index0, Option::None) == (if stuck {
                        if have_accept {
                            Option::Some((accept_end as int, accept_name@))
                        } else {
                            Option::<(int, Seq<char>)>::None
                        }
                    } else {
                        spec_munch(
                            dn,
                            current_state_id,
                            chars@,
                            j as int,
                            if have_accept {
                                Option::Some((accept_end as int, accept_name@))
                            } else {
                                Option::<(int, Seq<char>)>::None
                            },
                        )
                    }),
                decreases chars@.len() - j, (if stuck { 0int } else { 1int }),
            {
                let c = chars[j];
                let edges_len = self.nodes[current_state_id].outgoing_edges.len();
                let mut ei: usize = 0;
                let mut found = false;
                let mut next: usize = 0;
                proof {
                    assert(dn[current_state_id as int].outgoing_edges@.skip(0)
                        =~= dn[current_state_id as int].outgoing_edges@);
                }
                while ei < edges_len && !found
                    invariant
                        *self == *old(self),
                        self.wf(),
                        dn == self.nodes@,
                        current_state_id < dn.len(),
                        found ==> next < dn.len(),
                        edges_len == dn[current_state_id as int].outgoing_edges@.len(),
                        ei <= edges_len,
                        !found ==> first_edge_target(
                            dn[current_state_id as int].outgoing_edges@,
                            c,
                        ) == first_edge_target(
                            dn[current_state_id as int].outgoing_edges@.skip(ei as int),
                            c,
                        ),
                        found ==> first_edge_target(
                            dn[current_state_id as int].outgoing_edges@,
                            c,
                        ) == Option::Some(next),
                    decreases edges_len - ei, (if found { 0int } else { 1int }),
                {
                    let ghost es = dn[current_state_id as int].outgoing_edges@;
                    proof {
                        assert(es.skip(ei as int)[0] == es[ei as int]);
                        assert(es.skip(ei as int).drop_first() =~= es.skip(ei as int + 1));
                    }
                    let matches_c = self.nodes[current_state_id].outgoing_edges[ei].get_sym()
                        .contains_char(c);
                    if matches_c {
                        found = true;
                        next = self.nodes[current_state_id].outgoing_edges[ei].get_to();
                        proof {
                            assert(dn[current_state_id as int].edges_below(dn.len() as int));
                        }
                    } else {
                        ei = ei + 1;
                    }
                }
                proof {
                    if !found {
                        let es = dn[current_state_id as int].outgoing_edges@;
                        assert(es.skip(ei as int) =~= Seq::<Edge>::empty());
                    }
                }
                if found {
                    proof {
                        assert(dn[current_state_id as int].edges_below(dn.len() as int));
                        assert(chars@[j as int] == c);
                    }
                    current_state_id = next;
                    if self.nodes[current_state_id].is_terminal() {
                        have_accept = true;
                        accept_end = j + 1;
                        accept_name = self.nodes[current_state_id].get_name().clone();
                    }
                    j = j + 1;
                } else {
                    stuck = true;
                }
            }
            proof {
                if !stuck {
                    assert(j == chars@.len());
                }
                assert(spec_munch(dn, root_g, chars@, index0, Option::None) == (if have_accept {
                    Option::Some((accept_end as int, accept_name@))
                } else {
                    Option::<(int, Seq<char>)>::None
                }));
            }

            if have_accept {
                let token = crate::text::trim_range(&chars, index, accept_end);
                let skip = Nfa::is_skip_str(&accept_name);
                let ghost tv_pre = tokens_view(tokens@);
                if !skip {
                    tokens.push((accept_name, token));
                    proof {
                        assert(tokens_view(tokens@) =~= tv_pre + seq![
                            (
                                spec_munch(
                                    dn,
                                    root_g,
                                    chars@,
                                    index0,
                                    Option::None,
                                )->Some_0.1,
                                crate::text::trim_chars(
                                    chars@.subrange(index0, accept_end as int),
                                ),
                            ),
                        ]);
                    }
                }
                index = accept_end;
            } else {
                index = index + 1;
            }
        }
        proof {
            assert(spec_lex(dn, root_g, input@, index as int) =~= Seq::<
                (Seq<char>, Seq<char>),
            >::empty());
            assert(tokens_view(tokens@) =~= spec_lex(dn, root_g, input@, 0));
        }
        tokens
    }
}

/// On a well-shaped, duplicate-free table the entries stand for pairwise
/// distinct sets of nondeterministic states: the sorted vectors are a
/// canonical form, so vector distinctness is set distinctness.  This is
/// the state-deduplication invariant of subset construction.
pub proof fn lemma_table_sets_distinct(nn: Seq<Node>, table: Seq<(Vec<usize>, usize)>, base: int)
    requires
        table_ok(nn, table, base),
        table_distinct(table),
    ensures
        forall|k1: int, k2: int|
            0 <= k1 < k2 < table.len() ==> ids_set((#[trigger] table[k1]).0@) != ids_set(
                (#[trigger] table[k2]).0@,
            ),
{
    assert forall|k1: int, k2: int|
        0 <= k1 < k2 < table.len() implies ids_set((#[trigger] table[k1]).0@) != ids_set(
        (#[trigger] table[k2]).0@,
    ) by {
        if ids_set(table[k1].0@) == ids_set(table[k2].0@) {
            assert(table_entry_ok(nn, table[k1], base + k1));
            assert(table_entry_ok(nn, table[k2], base + k2));
            assert forall|x: usize| table[k1].0@.contains(x) == table[k2].0@.contains(x) by {
                assert(ids_set(table[k1].0@).contains(x) == ids_set(table[k2].0@).contains(x));
            }
            crate::state_set::lemma_sorted_canonical(table[k1].0@, table[k2].0@);
        }
    }
}

/// The move of the empty set is empty on any symbol.
proof fn lemma_delta_of_empty(nodes: Seq<Node>, c: char)
    ensures
        spec_delta(nodes, Set::empty(), c) =~= Set::<usize>::empty(),
{
    assert(spec_move(nodes, Set::empty(), c) =~= Set::<usize>::empty()) by {
        assert forall|b: usize| !spec_move(nodes, Set::<usize>::empty(), c).contains(b) by {
            if exists|a: usize|
                Set::<usize>::empty().contains(a) && #[trigger] has_char_edge(nodes, a, b, c) {
                let a = choose|a: usize|
                    Set::<usize>::empty().contains(a) && #[trigger] has_char_edge(nodes, a, b, c);
                assert(false);
            }
        }
    }
    lemma_closure_empty(nodes);
}

/// Every nonempty set that some word leads to appears in a table that
/// holds the start set and is closed under transitions.
proof fn lemma_word_set_in_table(
    nn: Seq<Node>,
    root: usize,
    t: Seq<(Vec<usize>, usize)>,
    w: Seq<char>,
)
    requires
        t.len() > 0,
        ids_set(t[0].0@) == spec_closure(nn, Set::empty().insert(root)),
        table_closed(nn, t),
        delta_word(nn, root, w) != Set::<usize>::empty(),
    ensures
        table_has_set(t, delta_word(nn, root, w)),
    decreases w.len(),
{
    if w.len() == 0 {
        assert(ids_set(t[0].0@) == delta_word(nn, root, w));
    } else {
        let d = delta_word(nn, root, w.drop_last());
        let c = w.last();
        assert(d != Set::<usize>::empty()) by {
            if d == Set::<usize>::empty() {
                lemma_delta_of_empty(nn, c);
                assert(delta_word(nn, root, w) =~= Set::<usize>::empty());
            }
        }
        lemma_word_set_in_table(nn, root, t, w.drop_last());
        let k = choose|k: int| 0 <= k < t.len() && ids_set((#[trigger] t[k]).0@) == d;
        assert(spec_delta(nn, ids_set(t[k].0@), c) == delta_word(nn, root, w));
        assert(table_has_set(t, spec_delta(nn, ids_set(t[k].0@), c)));
    }
}

/// Idempotence of subset construction: two tables built from the same
/// nondeterministic automaton — each holding the start closure, closed
/// under transitions, reachable, with nonempty entries — hold exactly the
/// same family of state sets.  Building the deterministic automaton
/// twice yields the same partition of nondeterministic states into
/// deterministic states, whatever identifiers the nodes got.
pub proof fn lemma_subset_construction_unique(
    nn: Seq<Node>,
    root: usize,
    t1: Seq<(Vec<usize>, usize)>,
    t2: Seq<(Vec<usize>, usize)>,
)
    requires
        t1.len() > 0,
        t2.len() > 0,
        ids_set(t1[0].0@) == spec_closure(nn, Set::empty().insert(root)),
        ids_set(t2[0].0@) == spec_closure(nn, Set::empty().insert(root)),
        table_closed(nn, t1),
        table_closed(nn, t2),
        table_reachable(nn, root, t1),
        table_reachable(nn, root, t2),
        forall|k: int| 0 <= k < t1.len() ==> (#[trigger] t1[k]).0@.len() > 0,
        forall|k: int| 0 <= k < t2.len() ==> (#[trigger] t2[k]).0@.len() > 0,
    ensures
        forall|k: int| 0 <= k < t1.len() ==> table_has_set(t2, ids_set((#[trigger] t1[k]).0@)),
        forall|k: int| 0 <= k < t2.len() ==> table_has_set(t1, ids_set((#[trigger] t2[k]).0@)),
{
    assert forall|k: int|
        0 <= k < t1.len() implies table_has_set(t2, ids_set((#[trigger] t1[k]).0@)) by {
        let w = choose|w: Seq<char>|
            ids_set((t1[k]).0@) == #[trigger] delta_word(nn, root, w);
        assert(ids_set(t1[k].0@) != Set::<usize>::empty()) by {
            let x = t1[k].0@[0];
            assert(t1[k].0@.contains(x));
            assert(ids_set(t1[k].0@).contains(x));
        }
        lemma_word_set_in_table(nn, root, t2, w);
    }
    assert forall|k: int|
        0 <= k < t2.len() implies table_has_set(t1, ids_set((#[trigger] t2[k]).0@)) by {
        let w = choose|w: Seq<char>|
            ids_set((t2[k]).0@) == #[trigger] delta_word(nn, root, w);
        assert(ids_set(t2[k].0@) != Set::<usize>::empty()) by {
            let x = t2[k].0@[0];
            assert(t2[k].0@.contains(x));
            assert(ids_set(t2[k].0@).contains(x));
        }
        lemma_word_set_in_table(nn, root, t1, w);
    }
}

/// Matching entries of two subset-construction tables agree on
/// acceptance: two sorted entries holding the same set of
/// nondeterministic states are the same vector (the sorted form is
/// canonical), so the terminal flag and token name that subset
/// construction derives from them are equal.  Together with the same
/// partition, this makes two builds from one nondeterministic automaton
/// isomorphic: matched states carry the same terminal flag and name.
pub proof fn lemma_matched_states_agree(nn: Seq<Node>, a: Seq<usize>, b: Seq<usize>)
    requires
        sorted_strict(a),
        sorted_strict(b),
        ids_set(a) == ids_set(b),
    ensures
        a == b,
        any_terminal(nn, a) == any_terminal(nn, b),
        spec_state_name(nn, a) == spec_state_name(nn, b),
{
    assert forall|x: usize| a.contains(x) == b.contains(x) by {
        assert(ids_set(a).contains(x) == a.contains(x));
        assert(ids_set(b).contains(x) == b.contains(x));
        assert(ids_set(a).contains(x) == ids_set(b).contains(x));
    }
    crate::state_set::lemma_sorted_canonical(a, b);
}

/// Adding the symbol `ch` (new among the processed symbols) to exactly
/// one edge of the current node — merged into the edge to `next_id` or as
/// a fresh edge — keeps the node deterministic, its edge labels within
/// the processed symbols, and its edge targets distinct.
proof fn lemma_edge_step_keeps_invariants(
    pre: Seq<Node>,
    post: Seq<Node>,
    current_id: usize,
    next_id: usize,
    symbols: Seq<char>,
    si: int,
    ch: char,
)
    requires
        0 <= si < symbols.len(),
        ch == symbols[si],
        no_dup_chars(symbols),
        current_id < pre.len(),
        post.len() == pre.len(),
        deterministic_nodes(pre),
        forall|i: int| 0 <= i < pre.len() && i != current_id ==> post[i] == pre[i],
        forall|j: int, c: char|
            0 <= j < pre[current_id as int].outgoing_edges@.len() && #[trigger] pre[
                current_id as int
            ].outgoing_edges@[j].label.has_char(c) ==> symbols.subrange(0, si).contains(c),
        forall|j1: int, j2: int|
            0 <= j1 < j2 < pre[current_id as int].outgoing_edges@.len() ==> (#[trigger] pre[
                current_id as int
            ].outgoing_edges@[j1]).to != (#[trigger] pre[current_id as int].outgoing_edges@[j2]).to,
        // the change: either one edge extended by ch, or one new edge {ch} appended
        ({
            ||| (exists|ei: int|
                {
                    &&& 0 <= ei < pre[current_id as int].outgoing_edges@.len()
                    &&& post[current_id as int].outgoing_edges@.len() == pre[
                        current_id as int
                    ].outgoing_edges@.len()
                    &&& (forall|j: int|
                        0 <= j < pre[current_id as int].outgoing_edges@.len() && j != ei
                            ==> post[current_id as int].outgoing_edges@[j] == pre[
                            current_id as int
                        ].outgoing_edges@[j])
                    &&& (#[trigger] post[current_id as int].outgoing_edges@[ei]).to == pre[
                        current_id as int
                    ].outgoing_edges@[ei].to
                    &&& !post[current_id as int].outgoing_edges@[ei].label.is_epsilon()
                    &&& (forall|d: char|
                        post[current_id as int].outgoing_edges@[ei].label.has_char(d) == (pre[
                            current_id as int
                        ].outgoing_edges@[ei].label.has_char(d) || d == ch))
                })
            ||| {
                &&& post[current_id as int].outgoing_edges@.len() == pre[
                    current_id as int
                ].outgoing_edges@.len() + 1
                &&& (forall|j: int|
                    0 <= j < pre[current_id as int].outgoing_edges@.len() ==> post[
                        current_id as int
                    ].outgoing_edges@[j] == pre[current_id as int].outgoing_edges@[j])
                &&& post[current_id as int].outgoing_edges@.last().to == next_id
                &&& !post[current_id as int].outgoing_edges@.last().label.is_epsilon()
                &&& (forall|d: char|
                    post[current_id as int].outgoing_edges@.last().label.has_char(d) == (d == ch))
                &&& (forall|j: int|
                    0 <= j < pre[current_id as int].outgoing_edges@.len() ==> (#[trigger] pre[
                        current_id as int
                    ].outgoing_edges@[j]).to != next_id)
            }
        }),
    ensures
        deterministic_nodes(post),
        forall|j: int, c: char|
            0 <= j < post[current_id as int].outgoing_edges@.len() && #[trigger] post[
                current_id as int
            ].outgoing_edges@[j].label.has_char(c) ==> symbols.subrange(0, si + 1).contains(c),
        forall|j1: int, j2: int|
            0 <= j1 < j2 < post[current_id as int].outgoing_edges@.len() ==> (#[trigger] post[
                current_id as int
            ].outgoing_edges@[j1]).to != (#[trigger] post[
                current_id as int
            ].outgoing_edges@[j2]).to,
{
    let pes = pre[current_id as int].outgoing_edges@;
    let pos = post[current_id as int].outgoing_edges@;
    assert(!symbols.subrange(0, si).contains(ch)) by {
        if symbols.subrange(0, si).contains(ch) {
            let k = choose|k: int| 0 <= k < si && symbols.subrange(0, si)[k] == ch;
            assert(symbols[k] == ch && symbols[si] == ch);
        }
    }
    assert forall|j: int, c: char|
        0 <= j < pos.len() && #[trigger] pos[j].label.has_char(c) implies symbols.subrange(
        0,
        si + 1,
    ).contains(c) by {
        assert(symbols.subrange(0, si + 1)[si] == ch);
        if c != ch {
            assert(pes[j].label.has_char(c) || (j < pes.len() && pes[j].label.has_char(c)));
            assert(symbols.subrange(0, si).contains(c));
            let k = choose|k: int| 0 <= k < si && symbols.subrange(0, si)[k] == c;
            assert(symbols.subrange(0, si + 1)[k] == c);
        }
    }
    assert forall|j1: int, j2: int|
        0 <= j1 < j2 < pos.len() implies (#[trigger] pos[j1]).to != (#[trigger] pos[j2]).to by {
        if j2 < pes.len() {
            assert(pos[j1].to == pes[j1].to && pos[j2].to == pes[j2].to);
        } else {
            assert(pos[j1].to == pes[j1].to);
            assert(pos[j2].to == next_id);
        }
    }
    assert forall|i: int| 0 <= i < post.len() implies node_deterministic(#[trigger] post[i]) by {
        if i != current_id {
            assert(post[i] == pre[i]);
            assert(node_deterministic(pre[i]));
        } else {
            assert(node_deterministic(pre[i]));
            assert forall|j: int|
                0 <= j < pos.len() implies !(#[trigger] pos[j]).label.is_epsilon() by {
                if j < pes.len() {
                    if pos[j] == pes[j] {
                    }
                }
            }
            assert forall|j1: int, j2: int, c: char|
                0 <= j1 < j2 < pos.len() && (#[trigger] pos[j1].label.has_char(c)) implies !(
                #[trigger] pos[j2].label.has_char(c)) by {
                if pos[j1].label.has_char(c) && pos[j2].label.has_char(c) {
                    if c == ch {
                        assert(!pes[j1].label.has_char(ch) || !pes[j2].label.has_char(ch));
                        assert(false);
                    } else {
                        assert(pes[j1].label.has_char(c) && pes[j2].label.has_char(c));
                        assert(false);
                    }
                }
            }
        }
    }
}

/// Inserts into a sorted vector, keeping membership facts in scope.
fn ss_insert_tracked(v: &mut Vec<usize>, x: usize)
    requires
        sorted_strict(old(v)@),
    ensures
        sorted_strict(final(v)@),
        forall|y: usize| final(v)@.contains(y) == (old(v)@.contains(y) || y == x),
        final(v)@.contains(x),
        forall|y: usize| old(v)@.contains(y) ==> final(v)@.contains(y),
        !old(v)@.contains(x) ==> final(v)@.len() == old(v)@.len() + 1,
        old(v)@.contains(x) ==> final(v)@ == old(v)@,
{
    crate::state_set::ss_insert(v, x);
}

} // verus!
