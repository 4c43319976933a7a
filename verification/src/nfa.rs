//! The nondeterministic finite automaton and the regex compiler.
//!
//! Each rule's pattern is compiled into a fragment of one shared graph,
//! rooted at the automaton's single start node.  The supported syntax is
//! literals, escapes (`\s` is the whitespace class, any other escaped
//! character stands for itself), bracket expressions with ranges and
//! negation, groups, alternation, and the postfix repetition operators
//! `*`, `+` and `?`.
//!
//! A malformed pattern — a dangling escape, an unterminated bracket or
//! group, or a repetition operator with no preceding unit — is rejected
//! with a `PatternError`; the spec functions below say exactly which
//! patterns are accepted.  Ranges inside brackets are supported between
//! ASCII endpoints; a range with a non-ASCII endpoint is likewise rejected.

use vstd::prelude::*;
use vstd::string::StringExecFns;

use crate::errors::LexError;
use crate::node::Edge;
use crate::node::Label;
use crate::node::Node;
use crate::node::wf_nodes;
use crate::text::chars_of;
use crate::text::find_char;
use crate::text::find_from;
use crate::text::lemma_find_shift;
use crate::text::string_of_char;
use crate::text::string_of_range;

verus! {

/// Two characters with the same scalar value are the same character.
proof fn lemma_char_cast_inj(a: char, b: char)
    requires
        a as u32 == b as u32,
    ensures
        a == b,
{
    vstd::utf8::char_u32_cast(a, a as u32);
    vstd::utf8::char_u32_cast(b, b as u32);
}

/// The characters an escape stands for, in order: `\s` is the whitespace
/// class, any other escaped character stands for itself.
pub open spec fn escape_seq(c: char) -> Seq<char> {
    if c == 's' {
        seq![' ', '\t', '\n', '\r']
    } else {
        seq![c]
    }
}

/// The set of characters an escape stands for.
pub open spec fn escape_chars(c: char) -> Set<char> {
    chars_set(escape_seq(c))
}

/// The characters a range `p-e` adds beyond `p` itself: those strictly
/// between `p` (exclusive) and `e` (inclusive).
pub open spec fn range_chars(p: char, e: char) -> Set<char> {
    Set::new(|c: char| (p as u32) < (c as u32) && (c as u32) <= (e as u32))
}

/// Whether `c` is an ASCII character.
pub open spec fn ascii_char(c: char) -> bool {
    (c as u32) < 128
}

/// The set of elements of a character sequence.
pub open spec fn chars_set(s: Seq<char>) -> Set<char> {
    Set::new(|c: char| s.contains(c))
}

/// Whether `c` is printable ASCII (space through tilde, inclusive).
pub open spec fn printable(c: char) -> bool {
    32 <= (c as u32) && (c as u32) <= 126
}

/// Whether the bracket content `t` names a negated set.
pub open spec fn bracket_negated(t: Seq<char>) -> bool {
    t.len() > 0 && t[0] == '^'
}

/// The bracket content with a leading `^` stripped.
pub open spec fn bracket_body(t: Seq<char>) -> Seq<char> {
    if bracket_negated(t) {
        t.skip(1)
    } else {
        t
    }
}

/// Whether a bracket body is well formed, scanning left to right with
/// `prev` the most recent single character (the possible start of a
/// range).  An escape must be followed by a character, and a range must
/// have an ASCII start and end and an end character present.
pub open spec fn bracket_body_ok(t: Seq<char>, prev: Option<char>) -> bool
    decreases t.len(),
{
    if t.len() == 0 {
        true
    } else if t[0] == '\\' {
        t.len() >= 2 && bracket_body_ok(t.skip(2), Some(t[1]))
    } else if t[0] == '-' {
        match prev {
            Option::None => bracket_body_ok(t.skip(1), Option::None),
            Option::Some(p) => t.len() >= 2 && ascii_char(p) && ascii_char(t[1])
                && bracket_body_ok(t.skip(2), Some(t[1])),
        }
    } else {
        bracket_body_ok(t.skip(1), Some(t[0]))
    }
}

/// The set of characters named by a well-formed bracket body.
pub open spec fn bracket_body_set(t: Seq<char>, prev: Option<char>) -> Set<char>
    decreases t.len(),
{
    if t.len() == 0 {
        Set::empty()
    } else if t[0] == '\\' {
        if t.len() >= 2 {
            escape_chars(t[1]).union(bracket_body_set(t.skip(2), Some(t[1])))
        } else {
            Set::empty()
        }
    } else if t[0] == '-' {
        match prev {
            Option::None => bracket_body_set(t.skip(1), Option::None),
            Option::Some(p) => if t.len() >= 2 {
                range_chars(p, t[1]).union(bracket_body_set(t.skip(2), Some(t[1])))
            } else {
                Set::empty()
            },
        }
    } else {
        chars_set(seq![t[0]]).union(bracket_body_set(t.skip(1), Some(t[0])))
    }
}

/// Whether a whole bracket content (possibly starting with `^`) is well
/// formed.
pub open spec fn bracket_ok(t: Seq<char>) -> bool {
    bracket_body_ok(bracket_body(t), Option::None)
}

/// The set of characters a bracket expression matches: the named set, or
/// for a negated bracket its complement within printable ASCII.
pub open spec fn bracket_set(t: Seq<char>) -> Set<char> {
    if bracket_negated(t) {
        Set::new(|c: char| printable(c) && !bracket_body_set(t.skip(1), Option::None).contains(c))
    } else {
        bracket_body_set(t, Option::None)
    }
}

/// Whether the remaining pattern `s` is well formed when `units` units
/// (literals, escapes, brackets, groups, or operator results) stand
/// complete in the current alternation branch.  A repetition operator
/// needs at least one preceding unit; `|` starts a fresh branch.
pub open spec fn regex_ok_from(s: Seq<char>, units: nat) -> bool
    decreases s.len(),
{
    if s.len() == 0 {
        true
    } else {
        let c = s[0];
        if c == '|' {
            regex_ok_from(s.skip(1), 0)
        } else if c == '\\' {
            s.len() >= 2 && regex_ok_from(s.skip(2), units + 1)
        } else if c == '[' {
            match find_from(s, ']', 1) {
                Option::None => false,
                Option::Some(j) => 1 <= j < s.len() && bracket_ok(s.subrange(1, j))
                    && regex_ok_from(s.skip(j + 1), units + 1),
            }
        } else if c == '(' {
            match find_from(s, ')', 1) {
                Option::None => false,
                Option::Some(j) => 1 <= j < s.len() && regex_ok_from(s.subrange(1, j), 0)
                    && regex_ok_from(s.skip(j + 1), units + 1),
            }
        } else if c == '*' || c == '+' || c == '?' {
            units >= 1 && regex_ok_from(s.skip(1), units)
        } else {
            regex_ok_from(s.skip(1), units + 1)
        }
    }
}

/// Whether a whole pattern is well formed.
pub open spec fn regex_ok(s: Seq<char>) -> bool {
    regex_ok_from(s, 0)
}

/// Whether `c` opens a regex construct of its own (everything else is a
/// literal, including the stray closers `]` and `)`).
pub open spec fn is_meta_char(c: char) -> bool {
    c == '|' || c == '\\' || c == '[' || c == '(' || c == '*' || c == '+' || c == '?'
}

/// Whether the pattern is one literal character.
pub open spec fn shape_literal(s: Seq<char>) -> bool {
    s.len() == 1 && !is_meta_char(s[0])
}

/// Whether the pattern is one literal character followed by the postfix
/// operator `op`.
pub open spec fn shape_literal_op(s: Seq<char>, op: char) -> bool {
    s.len() == 2 && !is_meta_char(s[0]) && s[1] == op
}

/// The edge list `post` is `pre` plus one new edge to node `x` labeled
/// with exactly the character `c`.
pub open spec fn gained_literal_edge(pre: Seq<Edge>, post: Seq<Edge>, x: int, c: char) -> bool {
    &&& post.len() == pre.len() + 1
    &&& (forall|j: int| 0 <= j < pre.len() ==> post[j] == pre[j])
    &&& post.last().to as int == x
    &&& !post.last().label.is_epsilon()
    &&& (forall|d: char| post.last().label.has_char(d) == (d == c))
}

/// Whether the pattern is one escape: a backslash and the escaped
/// character.
pub open spec fn shape_escape(s: Seq<char>) -> bool {
    s.len() == 2 && s[0] == '\\'
}

/// The edge list `post` is `pre` plus four new edges to node `x`, labeled
/// with the four whitespace characters in order: the wiring of the
/// whitespace class.
pub open spec fn gained_ws_edges(pre: Seq<Edge>, post: Seq<Edge>, x: int) -> bool {
    &&& post.len() == pre.len() + 4
    &&& (forall|j: int| 0 <= j < pre.len() ==> post[j] == pre[j])
    &&& (forall|t: int|
        0 <= t < 4 ==> (#[trigger] post[pre.len() + t]).to as int == x && !post[pre.len()
            + t].label.is_epsilon())
    &&& (forall|d: char| #[trigger] post[pre.len() as int].label.has_char(d) == (d == ' '))
    &&& (forall|d: char| #[trigger] post[pre.len() as int + 1].label.has_char(d) == (d == '\t'))
    &&& (forall|d: char| #[trigger] post[pre.len() as int + 2].label.has_char(d) == (d == '\n'))
    &&& (forall|d: char| #[trigger] post[pre.len() as int + 3].label.has_char(d) == (d == '\r'))
}

/// Whether the pattern is two literal alternatives joined by `|`.
pub open spec fn shape_alternation(s: Seq<char>) -> bool {
    s.len() == 3 && !is_meta_char(s[0]) && s[1] == '|' && !is_meta_char(s[2])
}

/// The edge list `post` is `pre` plus one new epsilon edge to node `x`.
pub open spec fn gained_eps_edge(pre: Seq<Edge>, post: Seq<Edge>, x: int) -> bool {
    &&& post.len() == pre.len() + 1
    &&& (forall|j: int| 0 <= j < pre.len() ==> post[j] == pre[j])
    &&& post.last().to as int == x
    &&& post.last().label.is_epsilon()
}

/// The edge list holds exactly one literal edge: to node `x`, labeled
/// with exactly the character `c`.
pub open spec fn only_literal_edge_to(es: Seq<Edge>, x: int, c: char) -> bool {
    &&& es.len() == 1
    &&& es[0].to as int == x
    &&& !es[0].label.is_epsilon()
    &&& (forall|d: char| es[0].label.has_char(d) == (d == c))
}

/// The edge list `post` is `pre` plus two new literal edges: one to `x1`
/// labeled exactly `c1`, then one to `x2` labeled exactly `c2`.
pub open spec fn gained_two_literal_edges(
    pre: Seq<Edge>,
    post: Seq<Edge>,
    x1: int,
    c1: char,
    x2: int,
    c2: char,
) -> bool {
    &&& post.len() == pre.len() + 2
    &&& (forall|j: int| 0 <= j < pre.len() ==> post[j] == pre[j])
    &&& post[pre.len() as int].to as int == x1
    &&& !post[pre.len() as int].label.is_epsilon()
    &&& (forall|d: char| #[trigger] post[pre.len() as int].label.has_char(d) == (d == c1))
    &&& post.last().to as int == x2
    &&& !post.last().label.is_epsilon()
    &&& (forall|d: char| post.last().label.has_char(d) == (d == c2))
}

/// The edge list holds exactly one edge: an epsilon edge to node `x`.
pub open spec fn only_eps_edge_to(es: Seq<Edge>, x: int) -> bool {
    &&& es.len() == 1
    &&& es[0].to as int == x
    &&& es[0].label.is_epsilon()
}

/// The reserved skip-marker token name, a single `;`.
pub open spec fn is_skip_name(s: Seq<char>) -> bool {
    s =~= seq![';']
}

/// A nondeterministic finite automaton: the ordered rules it was built
/// from, the node arena, and the identifier of the shared root node.
pub struct Nfa {
    /// The loaded rules, each a (pattern, token name) pair, in file order.
    pub keywords: Vec<(String, String)>,
    /// The node arena; a node's identifier is its index.
    pub nodes: Vec<Node>,
    /// The identifier of the root node.
    pub root_id: usize,
}

impl Nfa {
    /// Well-formedness: the arena is consistent and the root exists.
    pub open spec fn wf(self) -> bool {
        &&& wf_nodes(self.nodes@)
        &&& self.root_id < self.nodes@.len()
    }

    /// The node arena (spec view).
    pub open spec fn spec_nodes(self) -> Seq<Node> {
        self.nodes@
    }

    /// The root identifier (spec view).
    pub open spec fn spec_root_id(self) -> usize {
        self.root_id
    }

    /// The loaded rules (spec view).
    pub open spec fn spec_keywords(self) -> Seq<(String, String)> {
        self.keywords@
    }

    /// The node arena.
    pub fn get_nodes(&self) -> (r: &Vec<Node>)
        ensures
            r == self.nodes,
    {
        &self.nodes
    }

    /// The identifier of the root node.
    pub fn get_root_id(&self) -> (r: usize)
        ensures
            r == self.root_id,
    {
        self.root_id
    }

    /// Creates an automaton holding only its root node and no rules.
    pub fn new() -> (r: Nfa)
        ensures
            r.wf(),
            r.spec_root_id() == 0,
            r.spec_nodes().len() == 1,
            r.spec_nodes()[0].terminal == false,
            r.spec_nodes()[0].outgoing_edges@.len() == 0,
            r.spec_keywords().len() == 0,
    {
        let root = Node::new(String::from_str("NFA"), false, 0);
        let mut nodes: Vec<Node> = Vec::new();
        nodes.push(root);
        Nfa { keywords: Vec::new(), nodes, root_id: 0 }
    }

    /// Appends a fresh non-terminal node named `name` and returns its
    /// identifier.
    fn push_node(&mut self, name: String) -> (id: usize)
        requires
            wf_nodes(old(self).nodes@),
        ensures
            id == old(self).nodes@.len(),
            final(self).nodes@ == old(self).nodes@.push(
                Node { name, outgoing_edges: final(self).nodes@[id as int].outgoing_edges, id, terminal: false },
            ),
            final(self).nodes@[id as int].outgoing_edges@.len() == 0,
            wf_nodes(final(self).nodes@),
            final(self).root_id == old(self).root_id,
            final(self).keywords == old(self).keywords,
    {
        let id = self.nodes.len();
        let node = Node::new(name, false, id);
        self.nodes.push(node);
        proof {
            assert forall|i: int| 0 <= i < self.nodes@.len() implies (#[trigger] self.nodes@[i]).id
                == i && self.nodes@[i].edges_below(self.nodes@.len() as int) by {
                if i < id {
                    assert(self.nodes@[i] == old(self).nodes@[i]);
                    assert(old(self).nodes@[i].edges_below(old(self).nodes@.len() as int));
                }
            }
        }
        id
    }

    /// Appends an edge from `from` to `to` under `label`.
    fn add_edge(&mut self, from: usize, to: usize, label: Label)
        requires
            wf_nodes(old(self).nodes@),
            from < old(self).nodes@.len(),
            to < old(self).nodes@.len(),
        ensures
            final(self).nodes@ == old(self).nodes@.update(
                from as int,
                Node {
                    outgoing_edges: final(self).nodes@[from as int].outgoing_edges,
                    ..old(self).nodes@[from as int]
                },
            ),
            final(self).nodes@[from as int].outgoing_edges@ == old(self).nodes@[
                from as int
            ].outgoing_edges@.push(Edge { to, label }),
            wf_nodes(final(self).nodes@),
            final(self).root_id == old(self).root_id,
            final(self).keywords == old(self).keywords,
    {
        self.nodes[from].add_outgoing_edge(to, label);
        proof {
            assert forall|i: int| 0 <= i < self.nodes@.len() implies (#[trigger] self.nodes@[i]).id
                == i && self.nodes@[i].edges_below(self.nodes@.len() as int) by {
                assert(old(self).nodes@[i].edges_below(old(self).nodes@.len() as int));
                if i == from {
                    let es = self.nodes@[i].outgoing_edges@;
                    assert forall|j: int| 0 <= j < es.len() implies (#[trigger] es[j]).to
                        < self.nodes@.len() by {
                        if j < es.len() - 1 {
                            assert(es[j] == old(self).nodes@[i].outgoing_edges@[j]);
                        }
                    }
                }
            }
        }
    }

    /// Marks node `id` terminal and names it `name` (the token it emits).
    fn mark_terminal(&mut self, id: usize, name: String)
        requires
            wf_nodes(old(self).nodes@),
            id < old(self).nodes@.len(),
        ensures
            final(self).nodes@ == old(self).nodes@.update(
                id as int,
                Node { terminal: true, name, ..old(self).nodes@[id as int] },
            ),
            wf_nodes(final(self).nodes@),
            final(self).root_id == old(self).root_id,
            final(self).keywords == old(self).keywords,
    {
        self.nodes[id].set_terminal(true);
        self.nodes[id].set_name(name);
        proof {
            assert(self.nodes@ =~= old(self).nodes@.update(
                id as int,
                Node { terminal: true, name: self.nodes@[id as int].name, ..old(self).nodes@[id as int] },
            ));
            assert forall|i: int| 0 <= i < self.nodes@.len() implies (#[trigger] self.nodes@[i]).id
                == i && self.nodes@[i].edges_below(self.nodes@.len() as int) by {
                assert(old(self).nodes@[i].edges_below(old(self).nodes@.len() as int));
            }
        }
    }

    /// Compiles a bracket expression: resolves `regex` (the content
    /// between the brackets) to its character set, appends one new node
    /// named `name`, and wires one edge labeled with that set from
    /// `start_node_id` to the new node.  Returns the new node's
    /// identifier, or a `PatternError` when the content is malformed, in
    /// which case the automaton is unchanged.
    pub fn parse_regex_set(&mut self, regex: &str, name: &str, start_node_id: usize) -> (r: Result<
        usize,
        LexError,
    >)
        requires
            old(self).wf(),
            start_node_id < old(self).spec_nodes().len(),
        ensures
            final(self).wf(),
            final(self).spec_root_id() == old(self).spec_root_id(),
            final(self).spec_keywords() == old(self).spec_keywords(),
            r is Ok <==> bracket_ok(regex@),
            r is Err ==> *final(self) == *old(self),
            r matches Err(e) ==> (e matches LexError::PatternError { pattern: p2, name: n2 }
                && p2@ == regex@ && n2@ == name@),
            r matches Ok(id) ==> {
                &&& id == old(self).spec_nodes().len()
                &&& final(self).spec_nodes().len() == old(self).spec_nodes().len() + 1
                &&& final(self).spec_nodes()[id as int].terminal == false
                &&& final(self).spec_nodes()[id as int].name@ == name@
                &&& final(self).spec_nodes()[id as int].outgoing_edges@.len() == 0
                &&& (forall|i: int|
                    0 <= i < old(self).spec_nodes().len() && i != start_node_id
                        ==> final(self).spec_nodes()[i] == old(self).spec_nodes()[i])
                &&& final(self).spec_nodes()[start_node_id as int].outgoing_edges@ == old(
                    self,
                ).spec_nodes()[start_node_id as int].outgoing_edges@.push(
                    final(self).spec_nodes()[start_node_id as int].outgoing_edges@.last(),
                )
                &&& final(self).spec_nodes()[start_node_id as int].outgoing_edges@.last().to == id
                &&& !final(self).spec_nodes()[
                    start_node_id as int
                ].outgoing_edges@.last().label.is_epsilon()
                &&& (forall|c: char|
                    final(self).spec_nodes()[
                        start_node_id as int
                    ].outgoing_edges@.last().label.has_char(c) == bracket_set(regex@).contains(c))
                &&& final(self).spec_nodes()[start_node_id as int].terminal == old(
                    self,
                ).spec_nodes()[start_node_id as int].terminal
                &&& final(self).spec_nodes()[start_node_id as int].name == old(self).spec_nodes()[
                    start_node_id as int
                ].name
            },
    {
        let t = chars_of(regex);
        let negated = t.len() > 0 && t[0] == '^';
        let start_idx: usize = if negated {
            1
        } else {
            0
        };
        let ghost body = bracket_body(regex@);
        proof {
            assert(negated == bracket_negated(regex@));
            assert(t@.skip(start_idx as int) =~= body);
        }

        let mut set_chars: Vec<char> = Vec::new();
        let mut i: usize = start_idx;
        let mut prev: Option<char> = None;

        while i < t.len()
            invariant
                *self == *old(self),
                old(self).wf(),
                start_idx <= i <= t@.len(),
                t@ == regex@,
                body == bracket_body(regex@),
                bracket_ok(regex@) == bracket_body_ok(t@.skip(i as int), prev),
                bracket_body_ok(body, Option::None) == bracket_body_ok(t@.skip(i as int), prev),
                forall|c: char|
                    #![trigger bracket_body_set(body, Option::None).contains(c)]
                    (set_chars@.contains(c) || bracket_body_set(t@.skip(i as int), prev).contains(
                        c,
                    )) == bracket_body_set(body, Option::None).contains(c),
            decreases t@.len() - i,
        {
            let ghost rest = t@.skip(i as int);
            proof {
                assert(rest[0] == t@[i as int]);
            }
            let c = t[i];
            if c == '\\' {
                if i + 1 >= t.len() {
                    proof {
                        assert(rest.len() < 2);
                        assert(!bracket_body_ok(rest, prev));
                    }
                    return Err(
                        LexError::PatternError {
                            pattern: regex.to_owned(),
                            name: name.to_owned(),
                        },
                    );
                }
                let nx = t[i + 1];
                proof {
                    assert(rest[1] == nx);
                    assert(rest.skip(2) =~= t@.skip(i + 2));
                }
                let ghost pre = set_chars@;
                if nx == 's' {
                    set_chars.push(' ');
                    set_chars.push('\t');
                    set_chars.push('\n');
                    set_chars.push('\r');
                    proof {
                        assert(set_chars@ =~= pre + seq![' ', '\t', '\n', '\r']);
                        lemma_contains_after_pushes(pre, set_chars@, seq![' ', '\t', '\n', '\r']);
                    }
                } else {
                    set_chars.push(nx);
                    proof {
                        assert(set_chars@ =~= pre + seq![nx]);
                        lemma_contains_after_pushes(pre, set_chars@, seq![nx]);
                    }
                }
                proof {
                    assert(set_chars@ =~= pre + escape_seq(nx));
                    assert forall|c2: char|
                        set_chars@.contains(c2) == (pre.contains(c2) || escape_chars(nx).contains(
                            c2,
                        )) by {
                        assert(set_chars@.contains(c2) == (pre.contains(c2) || escape_seq(
                            nx,
                        ).contains(c2)));
                    }
                    assert(bracket_body_set(rest, prev) == escape_chars(nx).union(
                        bracket_body_set(rest.skip(2), Some(nx)),
                    ));
                    lemma_cover_step(
                        pre,
                        set_chars@,
                        escape_chars(nx),
                        rest,
                        prev,
                        t@.skip(i + 2),
                        Some(nx),
                        body,
                    );
                }
                prev = Some(nx);
                i = i + 2;
            } else if c == '-' {
                match prev {
                    None => {
                        proof {
                            assert(rest.skip(1) =~= t@.skip(i + 1));
                        }
                        i = i + 1;
                    },
                    Some(p) => {
                        if i + 1 >= t.len() {
                            proof {
                                assert(!bracket_body_ok(rest, prev));
                            }
                            return Err(
                                LexError::PatternError {
                                    pattern: regex.to_owned(),
                                    name: name.to_owned(),
                                },
                            );
                        }
                        let e = t[i + 1];
                        proof {
                            assert(rest[1] == e);
                            assert(rest.skip(2) =~= t@.skip(i + 2));
                        }
                        if !((p as u32) < 128 && (e as u32) < 128) {
                            proof {
                                assert(!bracket_body_ok(rest, prev));
                            }
                            return Err(
                                LexError::PatternError {
                                    pattern: regex.to_owned(),
                                    name: name.to_owned(),
                                },
                            );
                        }
                        let p32 = p as u32;
                        let e32 = e as u32;
                        let ghost pre = set_chars@;
                        let mut code: u32 = p32 + 1;
                        while code <= e32
                            invariant
                                p32 < 128,
                                e32 < 128,
                                p32 < code <= 128,
                                code == p32 + 1 || code <= e32 + 1,
                                forall|c2: char| #![trigger set_chars@.contains(c2)]
                                    set_chars@.contains(c2) == (pre.contains(c2) || (p32 < (
                                    c2 as u32) && (c2 as u32) < code)),
                            decreases e32 + 1 - code,
                        {
                            let ch = (code as u8) as char;
                            proof {
                                assert(ch as u32 == code);
                            }
                            let ghost mid = set_chars@;
                            set_chars.push(ch);
                            code = code + 1;
                            proof {
                                assert(set_chars@ =~= mid + seq![ch]);
                                lemma_contains_after_pushes(mid, set_chars@, seq![ch]);
                                lemma_singleton_contains(ch);
                                assert forall|c2: char| #![trigger set_chars@.contains(c2)]
                                    set_chars@.contains(c2) == (pre.contains(c2) || (p32 < (
                                    c2 as u32) && (c2 as u32) < code)) by {
                                    assert(seq![ch].contains(c2) == (c2 == ch));
                                    assert(set_chars@.contains(c2) == (mid.contains(c2)
                                        || seq![ch].contains(c2)));
                                    assert(mid.contains(c2) == (pre.contains(c2) || (p32 < (
                                    c2 as u32) && (c2 as u32) < code - 1)));
                                    assert(ch as u32 == code - 1);
                                    if (c2 as u32) == ch as u32 {
                                        lemma_char_cast_inj(c2, ch);
                                    }
                                }
                            }
                        }
                        proof {
                            assert forall|c2: char|
                                set_chars@.contains(c2) == (pre.contains(c2) || range_chars(
                                    p,
                                    e,
                                ).contains(c2)) by {
                                assert(set_chars@.contains(c2) == (pre.contains(c2) || (p32 < (
                                c2 as u32) && (c2 as u32) < code)));
                                assert(range_chars(p, e).contains(c2) == (p32 < (c2 as u32) && (
                                c2 as u32) <= e32));
                            }
                            assert(bracket_body_set(rest, prev) == range_chars(p, e).union(
                                bracket_body_set(rest.skip(2), Some(e)),
                            ));
                            lemma_cover_step(
                                pre,
                                set_chars@,
                                range_chars(p, e),
                                rest,
                                prev,
                                t@.skip(i + 2),
                                Some(e),
                                body,
                            );
                        }
                        prev = Some(e);
                        i = i + 2;
                    },
                }
            } else {
                proof {
                    assert(rest.skip(1) =~= t@.skip(i + 1));
                }
                let ghost pre = set_chars@;
                set_chars.push(c);
                proof {
                    assert(set_chars@ =~= pre + seq![c]);
                    lemma_contains_after_pushes(pre, set_chars@, seq![c]);
                    assert forall|c2: char|
                        set_chars@.contains(c2) == (pre.contains(c2) || chars_set(
                            seq![c],
                        ).contains(c2)) by {
                        assert(set_chars@.contains(c2) == (pre.contains(c2) || seq![c].contains(
                            c2,
                        )));
                    }
                    assert(bracket_body_set(rest, prev) == chars_set(seq![c]).union(
                        bracket_body_set(rest.skip(1), Some(c)),
                    ));
                    lemma_cover_step(
                        pre,
                        set_chars@,
                        chars_set(seq![c]),
                        rest,
                        prev,
                        t@.skip(i + 1),
                        Some(c),
                        body,
                    );
                }
                prev = Some(c);
                i = i + 1;
            }
        }
        proof {
            assert(t@.skip(i as int) =~= Seq::<char>::empty());
            assert(bracket_ok(regex@));
            assert(forall|c: char|
                set_chars@.contains(c) == bracket_body_set(body, Option::None).contains(c));
        }

        let label_chars: Vec<char> = if negated {
            let mut v: Vec<char> = Vec::new();
            let mut code: u8 = 32;
            while code <= 126
                invariant
                    32 <= code <= 127,
                    forall|c2: char|
                        v@.contains(c2) == (32 <= (c2 as u32) && (c2 as u32) < code && !set_chars@.contains(
                            c2,
                        )),
            decreases 127 - code,
            {
                let ch = code as char;
                proof {
                    assert(ch as u32 == code);
                }
                let ghost pre = v@;
                let present = crate::state_set::cs_contains(&set_chars, ch);
                if !present {
                    v.push(ch);
                    proof {
                        assert(v@ =~= pre + seq![ch]);
                        lemma_contains_after_pushes(pre, v@, seq![ch]);
                        lemma_singleton_contains(ch);
                    }
                }
                code = code + 1;
                proof {
                    assert forall|c2: char|
                        v@.contains(c2) == (32 <= (c2 as u32) && (c2 as u32) < code
                            && !set_chars@.contains(c2)) by {
                        if (c2 as u32) == ch as u32 {
                            lemma_char_cast_inj(c2, ch);
                        }
                        if !present {
                            assert(v@.contains(c2) == (pre.contains(c2) || c2 == ch));
                        }
                    }
                }
            }
            v
        } else {
            set_chars
        };

        let new_id = self.nodes.len();
        let nm = name.to_owned();
        let node = Node::new(nm, false, new_id);
        self.nodes.push(node);
        proof {
            assert forall|k: int| 0 <= k < self.nodes@.len() implies (#[trigger] self.nodes@[k]).id
                == k && self.nodes@[k].edges_below(self.nodes@.len() as int) by {
                if k < new_id {
                    assert(self.nodes@[k] == old(self).nodes@[k]);
                    assert(old(self).nodes@[k].edges_below(old(self).nodes@.len() as int));
                }
            }
        }
        let label = Label::of_chars(label_chars);
        self.add_edge(start_node_id, new_id, label);
        proof {
            let es = self.nodes@[start_node_id as int].outgoing_edges@;
            assert(es.last().to == new_id);
            assert forall|c: char| es.last().label.has_char(c) == bracket_set(regex@).contains(c)
                by {
                if negated {
                } else {
                    assert(bracket_body(regex@) =~= regex@);
                }
            }
        }
        Ok(new_id)
    }

    /// Compiles a parenthesized group: a fresh group-start node is reached
    /// from `start_node_id` by an epsilon edge, and the group's content is
    /// compiled from there (never marking terminals).  Returns the group's
    /// exit node, or a `PatternError` when the content is malformed.
    pub fn parse_regex_group(&mut self, regex: &str, name: &str, start_node_id: usize) -> (r:
        Result<usize, LexError>)
        requires
            old(self).wf(),
            start_node_id < old(self).spec_nodes().len(),
        ensures
            final(self).wf(),
            final(self).spec_root_id() == old(self).spec_root_id(),
            final(self).spec_keywords() == old(self).spec_keywords(),
            final(self).spec_nodes().len() >= old(self).spec_nodes().len(),
            r is Ok <==> regex_ok(regex@),
            r matches Err(e) ==> (e matches LexError::PatternError { pattern: p2, name: n2 }
                && p2@ == regex@ && n2@ == name@),
            r matches Ok(id) ==> id < final(self).spec_nodes().len(),
            r matches Ok(id) ==> id >= old(self).spec_nodes().len(),
            forall|i: int|
                0 <= i < final(self).spec_nodes().len() ==> final(self).spec_nodes()[i].terminal
                    == (i < old(self).spec_nodes().len() && old(self).spec_nodes()[i].terminal),
            forall|i: int|
                0 <= i < old(self).spec_nodes().len() ==> final(self).spec_nodes()[i].name == old(
                    self,
                ).spec_nodes()[i].name,
            forall|i: int|
                0 <= i < old(self).spec_nodes().len() ==> final(self).spec_nodes()[
                    i
                ].outgoing_edges@.len() >= old(self).spec_nodes()[i].outgoing_edges@.len(),
            forall|i: int, j: int|
                0 <= i < old(self).spec_nodes().len() && 0 <= j < old(self).spec_nodes()[
                    i
                ].outgoing_edges@.len() ==> (#[trigger] final(self).spec_nodes()[
                    i
                ].outgoing_edges@[j]) == old(self).spec_nodes()[i].outgoing_edges@[j],
            final(self).spec_nodes()[start_node_id as int].outgoing_edges@.len() > old(
                self,
            ).spec_nodes()[start_node_id as int].outgoing_edges@.len(),
            r matches Ok(exit) ==> (shape_literal(regex@) ==> {
                &&& final(self).spec_nodes().len() == old(self).spec_nodes().len() + 2
                &&& exit as int == old(self).spec_nodes().len() + 1
                &&& gained_eps_edge(
                    old(self).spec_nodes()[start_node_id as int].outgoing_edges@,
                    final(self).spec_nodes()[start_node_id as int].outgoing_edges@,
                    old(self).spec_nodes().len() as int,
                )
                &&& only_literal_edge_to(
                    final(self).spec_nodes()[old(self).spec_nodes().len() as int].outgoing_edges@,
                    exit as int,
                    regex@[0],
                )
                &&& final(self).spec_nodes()[exit as int].outgoing_edges@.len() == 0
                &&& (forall|i: int|
                    0 <= i < old(self).spec_nodes().len() && i != start_node_id
                        ==> final(self).spec_nodes()[i] == old(self).spec_nodes()[i])
            }),
        decreases regex@.len(), 1nat,
    {
        let group_start = self.push_node(String::from_str("("));
        self.add_edge(start_node_id, group_start, Label::Epsilon);
        self.parse_regex(regex, name, group_start, false)
    }

    /// Compiles the pattern `regex` into the automaton, wiring its
    /// fragments from `start_node_id`, and returns the identifier of the
    /// fragment's exit node — the last unit's node, or, when alternation
    /// occurred, a synthetic merge node joining all branch exits.  When
    /// `mark_ending` is set the exit node is marked terminal and named
    /// `name`, so that reaching it accepts the token.  A malformed pattern
    /// is rejected with a `PatternError`: the spec function `regex_ok`
    /// says exactly which patterns are accepted.
    #[verifier::rlimit(100)]
    pub fn parse_regex(
        &mut self,
        regex: &str,
        name: &str,
        start_node_id: usize,
        mark_ending: bool,
    ) -> (r: Result<usize, LexError>)
        requires
            old(self).wf(),
            start_node_id < old(self).spec_nodes().len(),
        ensures
            final(self).wf(),
            final(self).spec_root_id() == old(self).spec_root_id(),
            final(self).spec_keywords() == old(self).spec_keywords(),
            final(self).spec_nodes().len() >= old(self).spec_nodes().len(),
            r is Ok <==> regex_ok(regex@),
            r matches Err(e) ==> (e matches LexError::PatternError { pattern: p2, name: n2 }
                && p2@ == regex@ && n2@ == name@),
            r matches Ok(id) ==> id < final(self).spec_nodes().len(),
            r matches Ok(id) ==> (regex@.len() > 0 ==> id >= old(self).spec_nodes().len()),
            r matches Ok(id) ==> (regex@.len() == 0 ==> id == start_node_id),
            r matches Ok(exit) ==> (forall|i: int|
                0 <= i < final(self).spec_nodes().len() ==> final(self).spec_nodes()[i].terminal
                    == ((mark_ending && i == exit) || (i < old(self).spec_nodes().len() && old(
                    self,
                ).spec_nodes()[i].terminal))),
            r matches Ok(exit) ==> (forall|i: int|
                0 <= i < old(self).spec_nodes().len() && !(mark_ending && i == exit)
                    ==> final(self).spec_nodes()[i].name == old(self).spec_nodes()[i].name),
            r matches Ok(exit) ==> (mark_ending ==> final(self).spec_nodes()[exit as int].name@
                == name@),
            forall|i: int|
                0 <= i < old(self).spec_nodes().len() ==> final(self).spec_nodes()[
                    i
                ].outgoing_edges@.len() >= old(self).spec_nodes()[i].outgoing_edges@.len(),
            forall|i: int, j: int|
                0 <= i < old(self).spec_nodes().len() && 0 <= j < old(self).spec_nodes()[
                    i
                ].outgoing_edges@.len() ==> (#[trigger] final(self).spec_nodes()[
                    i
                ].outgoing_edges@[j]) == old(self).spec_nodes()[i].outgoing_edges@[j],
            r matches Ok(id) ==> (regex@.len() > 0 ==> final(self).spec_nodes()[
                start_node_id as int
            ].outgoing_edges@.len() > old(self).spec_nodes()[
                start_node_id as int
            ].outgoing_edges@.len()),
            r matches Ok(exit) ==> (shape_literal(regex@) ==> {
                &&& final(self).spec_nodes().len() == old(self).spec_nodes().len() + 1
                &&& exit as int == old(self).spec_nodes().len()
                &&& gained_literal_edge(
                    old(self).spec_nodes()[start_node_id as int].outgoing_edges@,
                    final(self).spec_nodes()[start_node_id as int].outgoing_edges@,
                    exit as int,
                    regex@[0],
                )
                &&& final(self).spec_nodes()[exit as int].outgoing_edges@.len() == 0
                &&& (forall|i: int|
                    0 <= i < old(self).spec_nodes().len() && i != start_node_id
                        ==> final(self).spec_nodes()[i] == old(self).spec_nodes()[i])
            }),
            r matches Ok(exit) ==> ((shape_escape(regex@) && regex@[1] != 's') ==> {
                &&& final(self).spec_nodes().len() == old(self).spec_nodes().len() + 1
                &&& exit as int == old(self).spec_nodes().len()
                &&& gained_literal_edge(
                    old(self).spec_nodes()[start_node_id as int].outgoing_edges@,
                    final(self).spec_nodes()[start_node_id as int].outgoing_edges@,
                    exit as int,
                    regex@[1],
                )
                &&& final(self).spec_nodes()[exit as int].outgoing_edges@.len() == 0
                &&& (forall|i: int|
                    0 <= i < old(self).spec_nodes().len() && i != start_node_id
                        ==> final(self).spec_nodes()[i] == old(self).spec_nodes()[i])
            }),
            r matches Ok(exit) ==> ((shape_escape(regex@) && regex@[1] == 's') ==> {
                &&& final(self).spec_nodes().len() == old(self).spec_nodes().len() + 1
                &&& exit as int == old(self).spec_nodes().len()
                &&& gained_ws_edges(
                    old(self).spec_nodes()[start_node_id as int].outgoing_edges@,
                    final(self).spec_nodes()[start_node_id as int].outgoing_edges@,
                    exit as int,
                )
                &&& final(self).spec_nodes()[exit as int].outgoing_edges@.len() == 0
                &&& (forall|i: int|
                    0 <= i < old(self).spec_nodes().len() && i != start_node_id
                        ==> final(self).spec_nodes()[i] == old(self).spec_nodes()[i])
            }),
            r matches Ok(exit) ==> (shape_literal_op(regex@, '+') ==> {
                &&& final(self).spec_nodes().len() == old(self).spec_nodes().len() + 1
                &&& exit as int == old(self).spec_nodes().len()
                &&& gained_literal_edge(
                    old(self).spec_nodes()[start_node_id as int].outgoing_edges@,
                    final(self).spec_nodes()[start_node_id as int].outgoing_edges@,
                    exit as int,
                    regex@[0],
                )
                &&& only_eps_edge_to(
                    final(self).spec_nodes()[exit as int].outgoing_edges@,
                    start_node_id as int,
                )
                &&& (forall|i: int|
                    0 <= i < old(self).spec_nodes().len() && i != start_node_id
                        ==> final(self).spec_nodes()[i] == old(self).spec_nodes()[i])
            }),
            r matches Ok(exit) ==> (shape_literal_op(regex@, '*') ==> {
                &&& final(self).spec_nodes().len() == old(self).spec_nodes().len() + 2
                &&& exit as int == old(self).spec_nodes().len() + 1
                &&& final(self).spec_nodes()[start_node_id as int].outgoing_edges@.len() == old(
                    self,
                ).spec_nodes()[start_node_id as int].outgoing_edges@.len() + 2
                &&& (forall|j: int|
                    0 <= j < old(self).spec_nodes()[start_node_id as int].outgoing_edges@.len()
                        ==> final(self).spec_nodes()[start_node_id as int].outgoing_edges@[j]
                        == old(self).spec_nodes()[start_node_id as int].outgoing_edges@[j])
                &&& final(self).spec_nodes()[start_node_id as int].outgoing_edges@[old(
                    self,
                ).spec_nodes()[start_node_id as int].outgoing_edges@.len() as int].to as int == old(
                    self,
                ).spec_nodes().len()
                &&& !final(self).spec_nodes()[start_node_id as int].outgoing_edges@[old(
                    self,
                ).spec_nodes()[start_node_id as int].outgoing_edges@.len() as int].label.is_epsilon()
                &&& (forall|d: char|
                    final(self).spec_nodes()[start_node_id as int].outgoing_edges@[old(
                        self,
                    ).spec_nodes()[start_node_id as int].outgoing_edges@.len() as int].label.has_char(
                        d,
                    ) == (d == regex@[0]))
                &&& final(self).spec_nodes()[start_node_id as int].outgoing_edges@.last().to as int
                    == exit as int
                &&& final(self).spec_nodes()[
                    start_node_id as int
                ].outgoing_edges@.last().label.is_epsilon()
                &&& only_eps_edge_to(
                    final(self).spec_nodes()[old(self).spec_nodes().len() as int].outgoing_edges@,
                    exit as int,
                )
                &&& only_eps_edge_to(
                    final(self).spec_nodes()[exit as int].outgoing_edges@,
                    start_node_id as int,
                )
                &&& (forall|i: int|
                    0 <= i < old(self).spec_nodes().len() && i != start_node_id
                        ==> final(self).spec_nodes()[i] == old(self).spec_nodes()[i])
            }),
            r matches Ok(exit) ==> (shape_literal_op(regex@, '?') ==> {
                &&& final(self).spec_nodes().len() == old(self).spec_nodes().len() + 2
                &&& exit as int == old(self).spec_nodes().len() + 1
                &&& final(self).spec_nodes()[start_node_id as int].outgoing_edges@.len() == old(
                    self,
                ).spec_nodes()[start_node_id as int].outgoing_edges@.len() + 2
                &&& (forall|j: int|
                    0 <= j < old(self).spec_nodes()[start_node_id as int].outgoing_edges@.len()
                        ==> final(self).spec_nodes()[start_node_id as int].outgoing_edges@[j]
                        == old(self).spec_nodes()[start_node_id as int].outgoing_edges@[j])
                &&& final(self).spec_nodes()[start_node_id as int].outgoing_edges@[old(
                    self,
                ).spec_nodes()[start_node_id as int].outgoing_edges@.len() as int].to as int == old(
                    self,
                ).spec_nodes().len()
                &&& (forall|d: char|
                    final(self).spec_nodes()[start_node_id as int].outgoing_edges@[old(
                        self,
                    ).spec_nodes()[start_node_id as int].outgoing_edges@.len() as int].label.has_char(
                        d,
                    ) == (d == regex@[0]))
                &&& final(self).spec_nodes()[start_node_id as int].outgoing_edges@.last().to as int
                    == exit as int
                &&& final(self).spec_nodes()[
                    start_node_id as int
                ].outgoing_edges@.last().label.is_epsilon()
                &&& only_eps_edge_to(
                    final(self).spec_nodes()[old(self).spec_nodes().len() as int].outgoing_edges@,
                    exit as int,
                )
                &&& final(self).spec_nodes()[exit as int].outgoing_edges@.len() == 0
                &&& (forall|i: int|
                    0 <= i < old(self).spec_nodes().len() && i != start_node_id
                        ==> final(self).spec_nodes()[i] == old(self).spec_nodes()[i])
            }),
            r matches Ok(exit) ==> (shape_alternation(regex@) ==> {
                &&& final(self).spec_nodes().len() == old(self).spec_nodes().len() + 3
                &&& exit as int == old(self).spec_nodes().len() + 2
                &&& gained_two_literal_edges(
                    old(self).spec_nodes()[start_node_id as int].outgoing_edges@,
                    final(self).spec_nodes()[start_node_id as int].outgoing_edges@,
                    old(self).spec_nodes().len() as int,
                    regex@[0],
                    old(self).spec_nodes().len() as int + 1,
                    regex@[2],
                )
                &&& only_eps_edge_to(
                    final(self).spec_nodes()[old(self).spec_nodes().len() as int].outgoing_edges@,
                    exit as int,
                )
                &&& only_eps_edge_to(
                    final(self).spec_nodes()[old(self).spec_nodes().len() as int
                        + 1].outgoing_edges@,
                    exit as int,
                )
                &&& final(self).spec_nodes()[exit as int].outgoing_edges@.len() == 0
                &&& (forall|i: int|
                    0 <= i < old(self).spec_nodes().len() && i != start_node_id
                        ==> final(self).spec_nodes()[i] == old(self).spec_nodes()[i])
            }),
            r is Err ==> (forall|i: int|
                0 <= i < final(self).spec_nodes().len() ==> final(self).spec_nodes()[i].terminal
                    == (i < old(self).spec_nodes().len() && old(self).spec_nodes()[i].terminal)),
            r is Err ==> (forall|i: int|
                0 <= i < old(self).spec_nodes().len() ==> final(self).spec_nodes()[i].name == old(
                    self,
                ).spec_nodes()[i].name),
        decreases regex@.len(), 0nat,
    {
        let chars = chars_of(regex);
        let branch_start = start_node_id;
        let mut alternatives: Vec<usize> = Vec::new();
        let mut stack: Vec<usize> = Vec::new();
        stack.push(branch_start);
        let mut pos: usize = 0;
        proof {
            assert(chars@.skip(0) =~= chars@);
        }

        while pos < chars.len()
            invariant
                self.wf(),
                old(self).wf(),
                self.root_id == old(self).root_id,
                self.keywords@ == old(self).keywords@,
                self.nodes@.len() >= old(self).nodes@.len(),
                branch_start == start_node_id,
                start_node_id < old(self).nodes@.len(),
                stack@.len() >= 1,
                forall|k: int| 0 <= k < stack@.len() ==> (#[trigger] stack@[k]) < self.nodes@.len(),
                forall|k: int|
                    0 <= k < alternatives@.len() ==> (#[trigger] alternatives@[k])
                        < self.nodes@.len(),
                pos <= chars@.len(),
                chars@ == regex@,
                pos > 0 ==> (stack@[stack@.len() - 1] >= old(self).nodes@.len()
                    || alternatives@.len() > 0),
                pos == 0 ==> stack@.len() == 1 && stack@[0] == branch_start
                    && alternatives@.len() == 0 && self.nodes@ == old(self).nodes@,
                (pos == 1 && !is_meta_char(chars@[0])) ==> stack@.len() >= 2,
                pos == 1 ==> (chars@[0] == '|' || !is_meta_char(chars@[0])),
                (pos == 1 && stack@.len() >= 2) ==> {
                    &&& self.nodes@.len() == old(self).nodes@.len() + 1
                    &&& stack@.len() == 2
                    &&& stack@[0] == start_node_id
                    &&& stack@[1] as int == old(self).nodes@.len()
                    &&& alternatives@.len() == 0
                    &&& !is_meta_char(chars@[0])
                    &&& gained_literal_edge(
                        old(self).nodes@[start_node_id as int].outgoing_edges@,
                        self.nodes@[start_node_id as int].outgoing_edges@,
                        old(self).nodes@.len() as int,
                        chars@[0],
                    )
                    &&& self.nodes@[old(self).nodes@.len() as int].outgoing_edges@.len() == 0
                    &&& (forall|i: int|
                        0 <= i < old(self).nodes@.len() && i != start_node_id ==> self.nodes@[i]
                            == old(self).nodes@[i])
                },
                (pos == 2 && 2 <= chars@.len() && chars@[0] == '\\' && chars@[1] != 's') ==> {
                    &&& self.nodes@.len() == old(self).nodes@.len() + 1
                    &&& stack@.len() == 2
                    &&& stack@[0] == start_node_id
                    &&& stack@[1] as int == old(self).nodes@.len()
                    &&& alternatives@.len() == 0
                    &&& gained_literal_edge(
                        old(self).nodes@[start_node_id as int].outgoing_edges@,
                        self.nodes@[start_node_id as int].outgoing_edges@,
                        old(self).nodes@.len() as int,
                        chars@[1],
                    )
                    &&& self.nodes@[old(self).nodes@.len() as int].outgoing_edges@.len() == 0
                    &&& (forall|i: int|
                        0 <= i < old(self).nodes@.len() && i != start_node_id ==> self.nodes@[i]
                            == old(self).nodes@[i])
                },
                (pos == 2 && 2 <= chars@.len() && chars@[0] == '\\' && chars@[1] == 's') ==> {
                    &&& self.nodes@.len() == old(self).nodes@.len() + 1
                    &&& stack@.len() == 2
                    &&& stack@[0] == start_node_id
                    &&& stack@[1] as int == old(self).nodes@.len()
                    &&& alternatives@.len() == 0
                    &&& gained_ws_edges(
                        old(self).nodes@[start_node_id as int].outgoing_edges@,
                        self.nodes@[start_node_id as int].outgoing_edges@,
                        old(self).nodes@.len() as int,
                    )
                    &&& self.nodes@[old(self).nodes@.len() as int].outgoing_edges@.len() == 0
                    &&& (forall|i: int|
                        0 <= i < old(self).nodes@.len() && i != start_node_id ==> self.nodes@[i]
                            == old(self).nodes@[i])
                },
                (pos == 2 && 2 <= chars@.len() && !is_meta_char(chars@[0]) && chars@[1] == '+')
                    ==> {
                    &&& self.nodes@.len() == old(self).nodes@.len() + 1
                    &&& stack@.len() == 2
                    &&& stack@[0] == start_node_id
                    &&& stack@[1] as int == old(self).nodes@.len()
                    &&& alternatives@.len() == 0
                    &&& gained_literal_edge(
                        old(self).nodes@[start_node_id as int].outgoing_edges@,
                        self.nodes@[start_node_id as int].outgoing_edges@,
                        old(self).nodes@.len() as int,
                        chars@[0],
                    )
                    &&& only_eps_edge_to(
                        self.nodes@[old(self).nodes@.len() as int].outgoing_edges@,
                        start_node_id as int,
                    )
                    &&& (forall|i: int|
                        0 <= i < old(self).nodes@.len() && i != start_node_id ==> self.nodes@[i]
                            == old(self).nodes@[i])
                },
                (pos == 2 && 2 <= chars@.len() && !is_meta_char(chars@[0]) && chars@[1] == '*')
                    ==> {
                    &&& self.nodes@.len() == old(self).nodes@.len() + 2
                    &&& stack@.len() == 2
                    &&& stack@[0] == start_node_id
                    &&& stack@[1] as int == old(self).nodes@.len() + 1
                    &&& alternatives@.len() == 0
                    &&& self.nodes@[start_node_id as int].outgoing_edges@.len() == old(
                        self,
                    ).nodes@[start_node_id as int].outgoing_edges@.len() + 2
                    &&& (forall|j: int|
                        0 <= j < old(self).nodes@[start_node_id as int].outgoing_edges@.len()
                            ==> self.nodes@[start_node_id as int].outgoing_edges@[j] == old(
                            self,
                        ).nodes@[start_node_id as int].outgoing_edges@[j])
                    &&& self.nodes@[start_node_id as int].outgoing_edges@[old(self).nodes@[
                        start_node_id as int
                    ].outgoing_edges@.len() as int].to as int == old(self).nodes@.len()
                    &&& !self.nodes@[start_node_id as int].outgoing_edges@[old(self).nodes@[
                        start_node_id as int
                    ].outgoing_edges@.len() as int].label.is_epsilon()
                    &&& (forall|d: char|
                        self.nodes@[start_node_id as int].outgoing_edges@[old(self).nodes@[
                            start_node_id as int
                        ].outgoing_edges@.len() as int].label.has_char(d) == (d == chars@[0]))
                    &&& self.nodes@[start_node_id as int].outgoing_edges@.last().to as int == old(
                        self,
                    ).nodes@.len() + 1
                    &&& self.nodes@[
                        start_node_id as int
                    ].outgoing_edges@.last().label.is_epsilon()
                    &&& only_eps_edge_to(
                        self.nodes@[old(self).nodes@.len() as int].outgoing_edges@,
                        old(self).nodes@.len() as int + 1,
                    )
                    &&& only_eps_edge_to(
                        self.nodes@[old(self).nodes@.len() as int + 1].outgoing_edges@,
                        start_node_id as int,
                    )
                    &&& (forall|i: int|
                        0 <= i < old(self).nodes@.len() && i != start_node_id ==> self.nodes@[i]
                            == old(self).nodes@[i])
                },
                (pos == 2 && 2 <= chars@.len() && !is_meta_char(chars@[0]) && chars@[1] == '?')
                    ==> {
                    &&& self.nodes@.len() == old(self).nodes@.len() + 2
                    &&& stack@.len() == 2
                    &&& stack@[0] == start_node_id
                    &&& stack@[1] as int == old(self).nodes@.len() + 1
                    &&& alternatives@.len() == 0
                    &&& self.nodes@[start_node_id as int].outgoing_edges@.len() == old(
                        self,
                    ).nodes@[start_node_id as int].outgoing_edges@.len() + 2
                    &&& (forall|j: int|
                        0 <= j < old(self).nodes@[start_node_id as int].outgoing_edges@.len()
                            ==> self.nodes@[start_node_id as int].outgoing_edges@[j] == old(
                            self,
                        ).nodes@[start_node_id as int].outgoing_edges@[j])
                    &&& self.nodes@[start_node_id as int].outgoing_edges@[old(self).nodes@[
                        start_node_id as int
                    ].outgoing_edges@.len() as int].to as int == old(self).nodes@.len()
                    &&& (forall|d: char|
                        self.nodes@[start_node_id as int].outgoing_edges@[old(self).nodes@[
                            start_node_id as int
                        ].outgoing_edges@.len() as int].label.has_char(d) == (d == chars@[0]))
                    &&& self.nodes@[start_node_id as int].outgoing_edges@.last().to as int == old(
                        self,
                    ).nodes@.len() + 1
                    &&& self.nodes@[
                        start_node_id as int
                    ].outgoing_edges@.last().label.is_epsilon()
                    &&& only_eps_edge_to(
                        self.nodes@[old(self).nodes@.len() as int].outgoing_edges@,
                        old(self).nodes@.len() as int + 1,
                    )
                    &&& self.nodes@[old(self).nodes@.len() as int + 1].outgoing_edges@.len() == 0
                    &&& (forall|i: int|
                        0 <= i < old(self).nodes@.len() && i != start_node_id ==> self.nodes@[i]
                            == old(self).nodes@[i])
                },
                (pos == 2 && 2 <= chars@.len() && !is_meta_char(chars@[0]) && chars@[1] == '|')
                    ==> {
                    &&& self.nodes@.len() == old(self).nodes@.len() + 1
                    &&& stack@.len() == 1
                    &&& stack@[0] == branch_start
                    &&& alternatives@.len() == 1
                    &&& alternatives@[0] as int == old(self).nodes@.len()
                    &&& gained_literal_edge(
                        old(self).nodes@[start_node_id as int].outgoing_edges@,
                        self.nodes@[start_node_id as int].outgoing_edges@,
                        old(self).nodes@.len() as int,
                        chars@[0],
                    )
                    &&& self.nodes@[old(self).nodes@.len() as int].outgoing_edges@.len() == 0
                    &&& (forall|i: int|
                        0 <= i < old(self).nodes@.len() && i != start_node_id ==> self.nodes@[i]
                            == old(self).nodes@[i])
                },
                (pos == 3 && 3 <= chars@.len() && !is_meta_char(chars@[0]) && chars@[1] == '|'
                    && !is_meta_char(chars@[2])) ==> {
                    &&& self.nodes@.len() == old(self).nodes@.len() + 2
                    &&& stack@.len() == 2
                    &&& stack@[0] == branch_start
                    &&& stack@[1] as int == old(self).nodes@.len() + 1
                    &&& alternatives@.len() == 1
                    &&& alternatives@[0] as int == old(self).nodes@.len()
                    &&& gained_two_literal_edges(
                        old(self).nodes@[start_node_id as int].outgoing_edges@,
                        self.nodes@[start_node_id as int].outgoing_edges@,
                        old(self).nodes@.len() as int,
                        chars@[0],
                        old(self).nodes@.len() as int + 1,
                        chars@[2],
                    )
                    &&& self.nodes@[old(self).nodes@.len() as int].outgoing_edges@.len() == 0
                    &&& self.nodes@[old(self).nodes@.len() as int + 1].outgoing_edges@.len() == 0
                    &&& (forall|i: int|
                        0 <= i < old(self).nodes@.len() && i != start_node_id ==> self.nodes@[i]
                            == old(self).nodes@[i])
                },
                regex_ok(regex@) == regex_ok_from(
                    chars@.skip(pos as int),
                    (stack@.len() - 1) as nat,
                ),
                forall|i: int|
                    0 <= i < self.nodes@.len() ==> (#[trigger] self.nodes@[i]).terminal == (i < old(
                        self,
                    ).nodes@.len() && old(self).nodes@[i].terminal),
                forall|i: int|
                    0 <= i < old(self).nodes@.len() ==> (#[trigger] self.nodes@[i]).name == old(
                        self,
                    ).nodes@[i].name,
                forall|i: int|
                    0 <= i < old(self).nodes@.len() ==> (#[trigger] self.nodes@[i]).outgoing_edges@.len()
                        >= old(self).nodes@[i].outgoing_edges@.len(),
                forall|i: int, j: int|
                    0 <= i < old(self).nodes@.len() && 0 <= j < old(self).nodes@[
                        i
                    ].outgoing_edges@.len() ==> (#[trigger] self.nodes@[i].outgoing_edges@[j])
                        == old(self).nodes@[i].outgoing_edges@[j],
                pos > 0 ==> (self.nodes@[start_node_id as int].outgoing_edges@.len() > old(
                    self,
                ).nodes@[start_node_id as int].outgoing_edges@.len() || alternatives@.contains(
                    branch_start,
                )),
            decreases chars@.len() - pos,
        {
            let ghost rest = chars@.skip(pos as int);
            let ghost units = (stack@.len() - 1) as nat;
            proof {
                assert(rest[0] == chars@[pos as int]);
                assert(rest.skip(1) =~= chars@.skip(pos as int + 1));
            }
            let c = chars[pos];
            if c == '|' {
                let current_alt = stack[stack.len() - 1];
                let ghost alts_pre = alternatives@;
                alternatives.push(current_alt);
                proof {
                    if pos == 0 {
                        assert(alternatives@.last() == branch_start);
                    }
                    if alts_pre.contains(branch_start) {
                        let m = choose|m: int| 0 <= m < alts_pre.len() && alts_pre[m] == branch_start;
                        assert(alternatives@[m] == branch_start);
                    }
                }
                let mut fresh: Vec<usize> = Vec::new();
                fresh.push(branch_start);
                stack = fresh;
                proof {
                    assert(regex_ok_from(rest, units) == regex_ok_from(rest.skip(1), 0));
                }
                pos = pos + 1;
            } else if c == '\\' {
                if pos + 1 >= chars.len() {
                    proof {
                        assert(rest.len() < 2);
                        assert(!regex_ok_from(rest, units));
                    }
                    return Err(
                        LexError::PatternError {
                            pattern: regex.to_owned(),
                            name: name.to_owned(),
                        },
                    );
                }
                let nx = chars[pos + 1];
                proof {
                    assert(rest[1] == nx);
                    assert(rest.skip(2) =~= chars@.skip(pos as int + 2));
                    assert(regex_ok_from(rest, units) == (rest.len() >= 2 && regex_ok_from(
                        rest.skip(2),
                        units + 1,
                    )));
                }
                let top = stack[stack.len() - 1];
                if nx == 's' {
                    let new_id = self.push_node(name.to_owned());
                    self.add_edge(top, new_id, Label::of_char(' '));
                    self.add_edge(top, new_id, Label::of_char('\t'));
                    self.add_edge(top, new_id, Label::of_char('\n'));
                    self.add_edge(top, new_id, Label::of_char('\r'));
                    stack.push(new_id);
                } else {
                    let new_id = self.push_node(string_of_char(nx));
                    self.add_edge(top, new_id, Label::of_char(nx));
                    stack.push(new_id);
                }
                pos = pos + 2;
            } else if c == '[' {
                match find_char(&chars, ']', pos + 1) {
                    None => {
                        proof {
                            lemma_find_shift(chars@, ']', pos as int, 1);
                            assert(!regex_ok_from(rest, units));
                        }
                        return Err(
                            LexError::PatternError {
                                pattern: regex.to_owned(),
                                name: name.to_owned(),
                            },
                        );
                    },
                    Some(j) => {
                        proof {
                            lemma_find_shift(chars@, ']', pos as int, 1);
                            assert(find_from(rest, ']', 1) == Some(j - pos as int));
                            assert(rest.subrange(1, j - pos as int) =~= chars@.subrange(
                                pos as int + 1,
                                j as int,
                            ));
                            assert(rest.skip(j - pos as int + 1) =~= chars@.skip(j as int + 1));
                        }
                        let content = string_of_range(&chars, pos + 1, j);
                        let top = stack[stack.len() - 1];
                        match self.parse_regex_set(content.as_str(), name, top) {
                            Ok(nid) => {
                                stack.push(nid);
                                pos = j + 1;
                            },
                            Err(_) => {
                                proof {
                                    assert(!regex_ok_from(rest, units));
                                }
                                return Err(
                                    LexError::PatternError {
                                        pattern: regex.to_owned(),
                                        name: name.to_owned(),
                                    },
                                );
                            },
                        }
                    },
                }
            } else if c == '(' {
                match find_char(&chars, ')', pos + 1) {
                    None => {
                        proof {
                            lemma_find_shift(chars@, ')', pos as int, 1);
                            assert(!regex_ok_from(rest, units));
                        }
                        return Err(
                            LexError::PatternError {
                                pattern: regex.to_owned(),
                                name: name.to_owned(),
                            },
                        );
                    },
                    Some(j) => {
                        proof {
                            lemma_find_shift(chars@, ')', pos as int, 1);
                            assert(find_from(rest, ')', 1) == Some(j - pos as int));
                            assert(rest.subrange(1, j - pos as int) =~= chars@.subrange(
                                pos as int + 1,
                                j as int,
                            ));
                            assert(rest.skip(j - pos as int + 1) =~= chars@.skip(j as int + 1));
                        }
                        let content = string_of_range(&chars, pos + 1, j);
                        let top = stack[stack.len() - 1];
                        match self.parse_regex_group(content.as_str(), name, top) {
                            Ok(gid) => {
                                stack.push(gid);
                                pos = j + 1;
                            },
                            Err(_) => {
                                proof {
                                    assert(!regex_ok_from(rest, units));
                                }
                                return Err(
                                    LexError::PatternError {
                                        pattern: regex.to_owned(),
                                        name: name.to_owned(),
                                    },
                                );
                            },
                        }
                    },
                }
            } else if c == '*' {
                if stack.len() < 2 {
                    proof {
                        assert(!regex_ok_from(rest, units));
                    }
                    return Err(
                        LexError::PatternError {
                            pattern: regex.to_owned(),
                            name: name.to_owned(),
                        },
                    );
                }
                let repeat_node_id = match stack.pop() {
                    Some(x) => x,
                    None => {
                        proof {
                            assert(false);
                        }
                        0
                    },
                };
                let prev_node_id = stack[stack.len() - 1];
                let merge_node_id = self.push_node(name.to_owned());
                stack.push(merge_node_id);
                self.add_edge(prev_node_id, merge_node_id, Label::Epsilon);
                self.add_edge(repeat_node_id, merge_node_id, Label::Epsilon);
                self.add_edge(merge_node_id, prev_node_id, Label::Epsilon);
                proof {
                    assert(regex_ok_from(rest, units) == (units >= 1 && regex_ok_from(
                        rest.skip(1),
                        units,
                    )));
                }
                pos = pos + 1;
            } else if c == '+' {
                if stack.len() < 2 {
                    proof {
                        assert(!regex_ok_from(rest, units));
                    }
                    return Err(
                        LexError::PatternError {
                            pattern: regex.to_owned(),
                            name: name.to_owned(),
                        },
                    );
                }
                let repeat_node_id = stack[stack.len() - 1];
                let prev_node_id = stack[stack.len() - 2];
                self.add_edge(repeat_node_id, prev_node_id, Label::Epsilon);
                proof {
                    assert(regex_ok_from(rest, units) == (units >= 1 && regex_ok_from(
                        rest.skip(1),
                        units,
                    )));
                }
                pos = pos + 1;
            } else if c == '?' {
                if stack.len() < 2 {
                    proof {
                        assert(!regex_ok_from(rest, units));
                    }
                    return Err(
                        LexError::PatternError {
                            pattern: regex.to_owned(),
                            name: name.to_owned(),
                        },
                    );
                }
                let optional_id = match stack.pop() {
                    Some(x) => x,
                    None => {
                        proof {
                            assert(false);
                        }
                        0
                    },
                };
                let prev_id = stack[stack.len() - 1];
                let merge_node_id = self.push_node(string_of_char('?'));
                self.add_edge(prev_id, merge_node_id, Label::Epsilon);
                self.add_edge(optional_id, merge_node_id, Label::Epsilon);
                stack.push(merge_node_id);
                proof {
                    assert(regex_ok_from(rest, units) == (units >= 1 && regex_ok_from(
                        rest.skip(1),
                        units,
                    )));
                }
                pos = pos + 1;
            } else {
                let top = stack[stack.len() - 1];
                let new_id = self.push_node(string_of_char(c));
                self.add_edge(top, new_id, Label::of_char(c));
                stack.push(new_id);
                proof {
                    assert(regex_ok_from(rest, units) == regex_ok_from(rest.skip(1), units + 1));
                }
                pos = pos + 1;
            }
        }
        proof {
            assert(chars@.skip(pos as int) =~= Seq::<char>::empty());
            assert(regex_ok(regex@));
        }

        let end_node_id: usize;
        if alternatives.len() > 0 {
            let top = stack[stack.len() - 1];
            let ghost alts0 = alternatives@;
            alternatives.push(top);
            proof {
                if alts0.contains(branch_start) {
                    let m = choose|m: int| 0 <= m < alts0.len() && alts0[m] == branch_start;
                    assert(alternatives@[m] == branch_start);
                }
            }
            let merge_node_id = self.push_node(name.to_owned());
            let mut k: usize = 0;
            while k < alternatives.len()
                invariant
                    self.wf(),
                    old(self).wf(),
                    self.root_id == old(self).root_id,
                    self.keywords@ == old(self).keywords@,
                    self.nodes@.len() >= old(self).nodes@.len(),
                    k <= alternatives@.len(),
                    merge_node_id < self.nodes@.len(),
                    forall|m: int|
                        0 <= m < alternatives@.len() ==> (#[trigger] alternatives@[m])
                            < self.nodes@.len(),
                    forall|i: int|
                        0 <= i < self.nodes@.len() ==> (#[trigger] self.nodes@[i]).terminal == (i
                            < old(self).nodes@.len() && old(self).nodes@[i].terminal),
                    forall|i: int|
                        0 <= i < old(self).nodes@.len() ==> (#[trigger] self.nodes@[i]).name == old(
                            self,
                        ).nodes@[i].name,
                    forall|i: int|
                        0 <= i < old(self).nodes@.len() ==> (#[trigger] self.nodes@[i]).outgoing_edges@.len()
                            >= old(self).nodes@[i].outgoing_edges@.len(),
                    forall|i: int, j: int|
                        0 <= i < old(self).nodes@.len() && 0 <= j < old(self).nodes@[
                            i
                        ].outgoing_edges@.len() ==> (#[trigger] self.nodes@[i].outgoing_edges@[j])
                            == old(self).nodes@[i].outgoing_edges@[j],
                    start_node_id < old(self).nodes@.len(),
                    chars@.len() > 0 ==> (self.nodes@[start_node_id as int].outgoing_edges@.len()
                        > old(self).nodes@[start_node_id as int].outgoing_edges@.len() || (
                    exists|m: int|
                        k <= m < alternatives@.len() && alternatives@[m] == branch_start)),
                    branch_start == start_node_id,
                    shape_alternation(chars@) ==> {
                        &&& self.nodes@.len() == old(self).nodes@.len() + 3
                        &&& merge_node_id as int == old(self).nodes@.len() + 2
                        &&& alternatives@.len() == 2
                        &&& alternatives@[0] as int == old(self).nodes@.len()
                        &&& alternatives@[1] as int == old(self).nodes@.len() + 1
                        &&& gained_two_literal_edges(
                            old(self).nodes@[start_node_id as int].outgoing_edges@,
                            self.nodes@[start_node_id as int].outgoing_edges@,
                            old(self).nodes@.len() as int,
                            chars@[0],
                            old(self).nodes@.len() as int + 1,
                            chars@[2],
                        )
                        &&& (k >= 1 ==> only_eps_edge_to(
                            self.nodes@[old(self).nodes@.len() as int].outgoing_edges@,
                            old(self).nodes@.len() as int + 2,
                        ))
                        &&& (k == 0 ==> self.nodes@[old(
                            self,
                        ).nodes@.len() as int].outgoing_edges@.len() == 0)
                        &&& (k >= 2 ==> only_eps_edge_to(
                            self.nodes@[old(self).nodes@.len() as int + 1].outgoing_edges@,
                            old(self).nodes@.len() as int + 2,
                        ))
                        &&& (k <= 1 ==> self.nodes@[old(self).nodes@.len() as int
                            + 1].outgoing_edges@.len() == 0)
                        &&& self.nodes@[old(self).nodes@.len() as int + 2].outgoing_edges@.len()
                            == 0
                        &&& (forall|i: int|
                            0 <= i < old(self).nodes@.len() && i != start_node_id
                                ==> self.nodes@[i] == old(self).nodes@[i])
                    },
                decreases alternatives@.len() - k,
            {
                self.add_edge(alternatives[k], merge_node_id, Label::Epsilon);
                k = k + 1;
            }
            end_node_id = merge_node_id;
        } else {
            end_node_id = stack[stack.len() - 1];
        }
        if mark_ending {
            self.mark_terminal(end_node_id, name.to_owned());
        }
        Ok(end_node_id)
    }

    /// Whether `s` is the reserved skip-marker name, a single `;`.
    pub(crate) fn is_skip_str(s: &String) -> (r: bool)
        ensures
            r == is_skip_name(s@),
    {
        let n = s.as_str().unicode_len();
        if n != 1 {
            proof {
                assert(!(s@ =~= seq![';']));
            }
            false
        } else {
            let c = s.as_str().get_char(0);
            proof {
                if c == ';' {
                    assert(s@ =~= seq![';']);
                }
            }
            c == ';'
        }
    }

    /// Loads the rules of the given rule-file text, in file order, after
    /// any rules already loaded: ignored lines (blank or `%%` markers)
    /// are skipped, the last word of every other line is its token name
    /// (quotes trimmed), and the preceding words joined with single
    /// spaces are its pattern.  A non-ignored line without any word has
    /// no token name: the load fails with a `RuleFileError` and leaves
    /// the automaton unchanged.
    pub fn add_keywords(&mut self, input: &str) -> (r: Result<(), LexError>)
        ensures
            final(self).nodes == old(self).nodes,
            final(self).root_id == old(self).root_id,
            r is Ok <==> crate::rules::rules_ok(input@),
            r is Ok ==> kw_view(final(self).keywords@) == kw_view(old(self).keywords@)
                + crate::rules::spec_rules(input@),
            r is Err ==> *final(self) == *old(self),
            r matches Err(e) ==> (e matches LexError::RuleFileError { line: l2 } && (exists|k: int|
                0 <= k < crate::rules::split_lines(input@).len() && !crate::rules::ignored_line(
                    #[trigger] crate::rules::split_lines(input@)[k],
                ) && crate::rules::split_words(crate::rules::split_lines(input@)[k]).len() == 0
                    && l2@ == crate::rules::split_lines(input@)[k])),
    {
        let chars = chars_of(input);
        let lines = crate::rules::ex_lines(&chars);
        let ghost lv = crate::rules::lines_view(lines@);
        let mut new_rules: Vec<(String, String)> = Vec::new();
        let mut li: usize = 0;
        proof {
            assert(lv == crate::rules::split_lines(input@));
            assert(kw_view(new_rules@) =~= Seq::<(Seq<char>, Seq<char>)>::empty());
            assert(lv.skip(0) =~= lv);
        }
        while li < lines.len()
            invariant
                *self == *old(self),
                li <= lines@.len(),
                lv == crate::rules::lines_view(lines@),
                lv == crate::rules::split_lines(input@),
                forall|k: int|
                    0 <= k < li ==> (crate::rules::ignored_line(#[trigger] lv[k])
                        || crate::rules::split_words(lv[k]).len() >= 1),
                crate::rules::rules_of_lines(lv) == kw_view(new_rules@)
                    + crate::rules::rules_of_lines(lv.skip(li as int)),
            decreases lines@.len() - li,
        {
            proof {
                assert(lv.skip(li as int)[0] == lv[li as int]);
                assert(lv.skip(li as int).skip(1) =~= lv.skip(li as int + 1));
                assert(lines@[li as int]@ == lv[li as int]);
            }
            let line = &lines[li];
            let ignored = crate::rules::ex_ignored(line);
            if !ignored {
                let words = crate::rules::ex_words(line);
                let ghost ws = crate::rules::split_words(lv[li as int]);
                proof {
                    assert(crate::rules::lines_view(words@) == ws);
                }
                if words.len() == 0 {
                    proof {
                        assert(!crate::rules::lines_ok(lv)) by {
                            assert(!(crate::rules::ignored_line(lv[li as int])
                                || crate::rules::split_words(lv[li as int]).len() >= 1));
                        }
                    }
                    return Err(
                        LexError::RuleFileError { line: crate::text::string_of_chars(line) },
                    );
                }
                let n_w = words.len();
                let name = crate::rules::ex_trim_quotes(&words[n_w - 1]);
                let pat = crate::rules::ex_join(&words, n_w - 1);
                proof {
                    assert(ws[n_w - 1] == words@[n_w - 1]@);
                    assert(ws.last() == ws[n_w - 1]);
                    assert(crate::rules::lines_view(words@).take(n_w - 1) =~= ws.take(
                        ws.len() - 1,
                    ));
                    assert((pat@, name@) == crate::rules::line_rule(lv[li as int]));
                }
                let ghost kv_pre = kw_view(new_rules@);
                new_rules.push((pat, name));
                proof {
                    assert(kw_view(new_rules@) =~= kv_pre + seq![
                        crate::rules::line_rule(lv[li as int]),
                    ]);
                    assert(crate::rules::rules_of_lines(lv.skip(li as int)) == seq![
                        crate::rules::line_rule(lv[li as int]),
                    ] + crate::rules::rules_of_lines(lv.skip(li as int + 1)));
                }
            } else {
                proof {
                    assert(crate::rules::rules_of_lines(lv.skip(li as int))
                        == crate::rules::rules_of_lines(lv.skip(li as int + 1)));
                }
            }
            li = li + 1;
        }
        proof {
            assert(lv.skip(lines@.len() as int) =~= Seq::<Seq<char>>::empty());
            assert(crate::rules::rules_of_lines(lv) =~= kw_view(new_rules@));
            assert(crate::rules::lines_ok(lv));
        }
        let ghost kw_pre = self.keywords@;
        let ghost added = new_rules@;
        self.keywords.append(&mut new_rules);
        proof {
            assert(self.keywords@ == kw_pre + added);
            assert(kw_view(self.keywords@) =~= kw_view(kw_pre) + kw_view(added));
        }
        Ok(())
    }

    /// Builds the automaton from the loaded rules: every applicable rule
    /// — not a skip rule, not an empty pattern — is compiled against the
    /// shared root with its ending marked, so all fragments are reachable
    /// from the one start node and each applicable rule contributes a
    /// terminal node carrying its token name.  Stops at the first
    /// malformed pattern.
    pub fn construct(&mut self) -> (r: Result<(), LexError>)
        requires
            old(self).wf(),
        ensures
            final(self).wf(),
            final(self).spec_root_id() == old(self).spec_root_id(),
            final(self).spec_keywords() == old(self).spec_keywords(),
            r is Ok <==> (forall|k: int|
                0 <= k < old(self).keywords@.len() && rule_applies(
                    #[trigger] old(self).keywords@[k],
                ) ==> regex_ok(old(self).keywords@[k].0@)),
            r matches Err(e) ==> (e matches LexError::PatternError { pattern: p2, name: n2 }
                && (exists|k: int|
                0 <= k < old(self).keywords@.len() && rule_applies(
                    #[trigger] old(self).keywords@[k],
                ) && !regex_ok(old(self).keywords@[k].0@) && p2@ == old(self).keywords@[k].0@
                    && n2@ == old(self).keywords@[k].1@)),
            r is Ok ==> (forall|k: int|
                0 <= k < old(self).keywords@.len() && rule_applies(
                    #[trigger] old(self).keywords@[k],
                ) ==> has_terminal_named(final(self).spec_nodes(), old(self).keywords@[k].1@)),
    {
        let n = self.keywords.len();
        let root = self.root_id;
        let mut k: usize = 0;
        while k < n
            invariant
                self.wf(),
                old(self).wf(),
                self.root_id == old(self).root_id,
                self.keywords@ == old(self).keywords@,
                n == self.keywords@.len(),
                k <= n,
                root == self.root_id,
                forall|m: int|
                    0 <= m < k && rule_applies(#[trigger] self.keywords@[m]) ==> regex_ok(
                        self.keywords@[m].0@,
                    ),
                forall|m: int|
                    0 <= m < k && rule_applies(#[trigger] self.keywords@[m]) ==> has_terminal_named(
                        self.nodes@,
                        self.keywords@[m].1@,
                    ),
            decreases n - k,
        {
            let pat = self.keywords[k].0.clone();
            let nm = self.keywords[k].1.clone();
            let skip = Self::is_skip_str(&nm);
            let empty = pat.as_str().is_empty();
            if !skip && !empty {
                let ghost pre = *self;
                match self.parse_regex(pat.as_str(), nm.as_str(), root, true) {
                    Ok(exit) => {
                        proof {
                            assert(self.nodes@[exit as int].terminal);
                            assert(self.nodes@[exit as int].name@ == nm@);
                            assert forall|m: int|
                                0 <= m < k + 1 && rule_applies(
                                    #[trigger] self.keywords@[m],
                                ) implies has_terminal_named(self.nodes@, self.keywords@[m].1@) by {
                                if m < k {
                                    assert(has_terminal_named(pre.nodes@, pre.keywords@[m].1@));
                                    let id = choose|id: int|
                                        0 <= id < pre.nodes@.len() && (
                                        #[trigger] pre.nodes@[id]).terminal && pre.nodes@[id].name@
                                            == pre.keywords@[m].1@;
                                    assert(self.nodes@[id].terminal);
                                    assert(self.nodes@[id].name@ == self.keywords@[m].1@);
                                } else {
                                    assert(nm@ == self.keywords@[m].1@);
                                    assert(self.nodes@[exit as int].terminal);
                                }
                            }
                        }
                    },
                    Err(e) => {
                        proof {
                            assert(rule_applies(self.keywords@[k as int]));
                            assert(!regex_ok(self.keywords@[k as int].0@));
                        }
                        return Err(e);
                    },
                }
            }
            k = k + 1;
        }
        proof {
            assert forall|k2: int|
                0 <= k2 < old(self).keywords@.len() && rule_applies(
                    #[trigger] old(self).keywords@[k2],
                ) implies has_terminal_named(self.nodes@, old(self).keywords@[k2].1@) by {
                assert(self.keywords@[k2] == old(self).keywords@[k2]);
                assert(rule_applies(self.keywords@[k2]));
                assert(has_terminal_named(self.nodes@, self.keywords@[k2].1@));
            }
        }
        Ok(())
    }
}

/// Whether a loaded rule takes part in automaton construction: skip
/// rules (named `;`) and rules with a structurally empty pattern are
/// left out.
pub open spec fn rule_applies(kw: (String, String)) -> bool {
    !is_skip_name(kw.1@) && kw.0@.len() > 0
}

/// The (pattern, token name) view of a loaded rule list.
pub open spec fn kw_view(ks: Seq<(String, String)>) -> Seq<(Seq<char>, Seq<char>)> {
    ks.map_values(|k: (String, String)| (k.0@, k.1@))
}

/// Whether the arena holds a terminal node whose name is `name`.
pub open spec fn has_terminal_named(nodes: Seq<Node>, name: Seq<char>) -> bool {
    exists|id: int|
        0 <= id < nodes.len() && (#[trigger] nodes[id]).terminal && nodes[id].name@ == name
}

/// A singleton sequence holds exactly its one element.
proof fn lemma_singleton_contains(x: char)
    ensures
        forall|c: char| #[trigger] seq![x].contains(c) == (c == x),
{
    assert forall|c: char| #[trigger] seq![x].contains(c) == (c == x) by {
        if c == x {
            assert(seq![x][0] == c);
        }
    }
}

/// One step of the bracket scan: when the characters named at the head of
/// `rest` are moved from the pending set into the accumulator, the
/// accumulator and the pending set together still cover the whole body.
proof fn lemma_cover_step(
    pre: Seq<char>,
    post: Seq<char>,
    added: Set<char>,
    rest: Seq<char>,
    prev: Option<char>,
    rest2: Seq<char>,
    prev2: Option<char>,
    body: Seq<char>,
)
    requires
        forall|c: char| post.contains(c) == (pre.contains(c) || added.contains(c)),
        bracket_body_set(rest, prev) == added.union(bracket_body_set(rest2, prev2)),
        forall|c: char|
            (pre.contains(c) || bracket_body_set(rest, prev).contains(c)) == bracket_body_set(
                body,
                Option::None,
            ).contains(c),
    ensures
        forall|c: char|
            #![trigger bracket_body_set(body, Option::None).contains(c)]
            (post.contains(c) || bracket_body_set(rest2, prev2).contains(c)) == bracket_body_set(
                body,
                Option::None,
            ).contains(c),
{
    assert forall|c: char|
        #![trigger bracket_body_set(body, Option::None).contains(c)]
        (post.contains(c) || bracket_body_set(rest2, prev2).contains(c)) == bracket_body_set(
            body,
            Option::None,
        ).contains(c) by {
        assert(post.contains(c) == (pre.contains(c) || added.contains(c)));
        assert((pre.contains(c) || bracket_body_set(rest, prev).contains(c)) == bracket_body_set(
            body,
            Option::None,
        ).contains(c));
        assert(bracket_body_set(rest, prev).contains(c) == (added.contains(c)
            || bracket_body_set(rest2, prev2).contains(c)));
    }
}

/// After pushing exactly the characters of `added` onto a vector with
/// contents `pre`, membership is membership in either.
proof fn lemma_contains_after_pushes(pre: Seq<char>, post: Seq<char>, added: Seq<char>)
    requires
        post == pre + added,
    ensures
        forall|c: char| post.contains(c) == (pre.contains(c) || added.contains(c)),
{
    assert forall|c: char| post.contains(c) == (pre.contains(c) || added.contains(c)) by {
        if pre.contains(c) {
            let k = choose|k: int| 0 <= k < pre.len() && pre[k] == c;
            assert(post[k] == c);
        }
        if added.contains(c) {
            let k = choose|k: int| 0 <= k < added.len() && added[k] == c;
            assert(post[pre.len() + k] == c);
        }
        if post.contains(c) {
            let k = choose|k: int| 0 <= k < post.len() && post[k] == c;
            if k < pre.len() {
                assert(pre[k] == c);
            } else {
                assert(added[k - pre.len()] == c);
            }
        }
    }
}

} // verus!
