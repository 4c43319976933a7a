use lex4oat::Dfa;
use lex4oat::Label;
use lex4oat::LexError;
use lex4oat::LibLex4Oat;
use lex4oat::Edge;
use lex4oat::Lex4Oat;
use lex4oat::Nfa;
use lex4oat::Node;

fn label_has(label: &Label, c: char) -> bool {
    match label {
        Label::Epsilon => false,
        Label::Chars(v) => v.contains(&c),
    }
}

fn built_dfa(rules: &str) -> Dfa {
    let mut nfa = Nfa::new();
    nfa.add_keywords(rules).expect("rule lines should parse");
    nfa.construct().expect("patterns should compile");
    let mut dfa = Dfa::new();
    dfa.set_nfa(nfa);
    dfa.construct_dfa();
    dfa
}

#[test]
fn rule_file_parsing_joins_and_trims() {
    let mut nfa = Nfa::new();
    nfa.add_keywords("%% header\nx y Z\n\nabc \"KEYWORD\"\n").expect("should parse");
    assert_eq!(nfa.keywords.len(), 2);
    assert_eq!(nfa.keywords[0], (String::from("x y"), String::from("Z")));
    assert_eq!(nfa.keywords[1], (String::from("abc"), String::from("KEYWORD")));
}

#[test]
fn rule_line_without_name_is_rejected() {
    let mut nfa = Nfa::new();
    let err = nfa.add_keywords("ab ID\n   \n").unwrap_err();
    assert!(matches!(err, LexError::RuleFileError { .. }));
    // the failed load leaves the automaton unchanged
    assert_eq!(nfa.keywords.len(), 0);
}

#[test]
fn dangling_escape_is_rejected() {
    let mut lexer = Lex4Oat::new(String::new());
    let err = lexer.construct_nfa("ab\\ BAD\n").unwrap_err();
    assert!(matches!(err, LexError::PatternError { .. }));
}

#[test]
fn unterminated_bracket_is_rejected() {
    let mut lexer = Lex4Oat::new(String::new());
    let err = lexer.construct_nfa("[abc BAD\n").unwrap_err();
    assert!(matches!(err, LexError::PatternError { .. }));
}

#[test]
fn unterminated_group_is_rejected() {
    let mut lexer = Lex4Oat::new(String::new());
    let err = lexer.construct_nfa("(ab BAD\n").unwrap_err();
    assert!(matches!(err, LexError::PatternError { .. }));
}

#[test]
fn dangling_operator_is_rejected() {
    let mut lexer = Lex4Oat::new(String::new());
    let err = lexer.construct_nfa("* BAD\n").unwrap_err();
    assert!(matches!(err, LexError::PatternError { .. }));
}

#[test]
fn error_message_names_the_pattern() {
    let mut lexer = Lex4Oat::new(String::new());
    let err = lexer.construct_nfa("* BAD\n").unwrap_err();
    let msg = err.message();
    assert!(msg.contains("*"));
    assert!(msg.contains("BAD"));
}

#[test]
fn dfa_is_deterministic() {
    let dfa = built_dfa("ab ID\nabc KEYWORD\na|b AB\n[a-z]+ W\n");
    for node in &dfa.nodes {
        let edges: &Vec<Edge> = node.get_outgoing_edges();
        for e in edges {
            assert!(!matches!(e.get_sym(), Label::Epsilon));
        }
        for i in 0..edges.len() {
            for j in (i + 1)..edges.len() {
                for code in 0u8..=127 {
                    let c = code as char;
                    assert!(
                        !(label_has(edges[i].get_sym(), c) && label_has(edges[j].get_sym(), c)),
                        "two edges of one state match {:?}",
                        c
                    );
                }
            }
        }
    }
}

#[test]
fn dfa_state_sets_are_distinct() {
    let dfa = built_dfa("ab ID\nabc KEYWORD\n");
    for i in 0..dfa.state_sets.len() {
        for j in (i + 1)..dfa.state_sets.len() {
            assert_ne!(dfa.state_sets[i].0, dfa.state_sets[j].0);
        }
    }
}

#[test]
fn rebuilding_gives_the_same_partition() {
    let rules = "ab ID\nabc KEYWORD\na|b* AB\n";
    let d1 = built_dfa(rules);
    let d2 = built_dfa(rules);
    assert_eq!(d1.state_sets.len(), d2.state_sets.len());
    for (set, _) in &d1.state_sets {
        assert!(d2.state_sets.iter().any(|(s2, _)| s2 == set));
    }
    for (set, _) in &d2.state_sets {
        assert!(d1.state_sets.iter().any(|(s2, _)| s2 == set));
    }
}

#[test]
fn dfa_edges_reference_existing_nodes() {
    let dfa = built_dfa("ab ID\n[0-9]+ NUM\n");
    assert!(dfa.root_id < dfa.nodes.len());
    for node in &dfa.nodes {
        for e in node.get_outgoing_edges() {
            assert!(e.get_to() < dfa.nodes.len());
        }
    }
}

#[test]
fn nfa_marks_one_terminal_per_rule() {
    let mut nfa = Nfa::new();
    nfa.add_keywords("ab ID\nabc KEYWORD\n").expect("should parse");
    nfa.construct().expect("should compile");
    let names: Vec<&str> = nfa
        .nodes
        .iter()
        .filter(|n| n.is_terminal())
        .map(|n| n.get_name().as_str())
        .collect();
    assert!(names.contains(&"ID"));
    assert!(names.contains(&"KEYWORD"));
}

#[test]
fn node_and_edge_accessors() {
    let mut node = Node::new(String::from("start"), false, 7);
    assert_eq!(node.get_id(), 7);
    assert_eq!(node.get_name(), "start");
    assert!(!node.is_terminal());
    node.set_terminal(true);
    assert!(node.is_terminal());
    node.set_name(String::from("TOKEN"));
    assert_eq!(node.get_name(), "TOKEN");
    node.add_outgoing_edge(3, Label::of_char('x'));
    assert_eq!(node.get_outgoing_edges().len(), 1);
    assert_eq!(node.get_outgoing_edges()[0].get_to(), 3);

    let mut edge = Edge::new(5, Label::of_chars(vec!['a', 'b']));
    assert_eq!(edge.get_to(), 5);
    assert!(label_has(edge.get_sym(), 'a'));
    assert!(!label_has(edge.get_sym(), 'z'));
    edge.push('z');
    assert!(label_has(edge.get_sym(), 'z'));
}

#[test]
fn dot_export_frames_the_graph() {
    let dfa = built_dfa("a A\n");
    let root = &dfa.nodes[dfa.root_id];
    let dot = root.to_dot(&dfa.nodes);
    assert!(dot.starts_with("digraph FA {\n"));
    assert!(dot.ends_with("}\n"));
    assert!(dot.contains("doublecircle"));
}

#[test]
fn reference_lexer_holder_stores_tokens() {
    let mut lib = LibLex4Oat::new(String::from("a b"));
    assert!(lib.tokens().is_empty());
    lib.set_tokens(vec![(String::from("A"), String::from("a"))]);
    assert_eq!(lib.tokens().len(), 1);
    assert_eq!(lib.tokens()[0], (String::from("A"), String::from("a")));
}

#[test]
fn empty_pattern_rules_are_skipped() {
    let mut lexer = Lex4Oat::new(String::from("z"));
    lexer.construct_nfa("Z\n").expect("a name-only line is loaded and skipped");
    lexer.construct_dfa();
    assert!(lexer.lex().is_empty());
}

#[test]
fn construction_stops_at_the_first_bad_pattern() {
    let mut lexer = Lex4Oat::new(String::new());
    let err = lexer.construct_nfa("ab GOOD\n[x BAD\ncd ALSO\n").unwrap_err();
    assert!(matches!(err, LexError::PatternError { .. }));
}

#[test]
fn plus_wires_one_epsilon_back_edge() {
    let mut nfa = Nfa::new();
    let root = nfa.get_root_id();
    let exit = nfa.parse_regex("a+", "T", root, true).expect("pattern should compile");
    // one fresh node: the literal's exit, which loops back to the start
    assert_eq!(nfa.nodes.len(), 2);
    assert_eq!(exit, 1);
    let back = nfa.nodes[exit].get_outgoing_edges();
    assert_eq!(back.len(), 1);
    assert_eq!(back[0].get_to(), root);
    assert!(matches!(back[0].get_sym(), Label::Epsilon));
    // the start wires exactly one new edge, labeled with the literal
    let start_edges = nfa.nodes[root].get_outgoing_edges();
    assert_eq!(start_edges.len(), 1);
    assert_eq!(start_edges[0].get_to(), exit);
    assert!(label_has(start_edges[0].get_sym(), 'a'));
    assert!(!label_has(start_edges[0].get_sym(), 'b'));
}

#[test]
fn star_wires_three_epsilon_edges() {
    let mut nfa = Nfa::new();
    let root = nfa.get_root_id();
    let exit = nfa.parse_regex("a*", "T", root, true).expect("pattern should compile");
    // two fresh nodes: the literal's exit and the merge node
    assert_eq!(nfa.nodes.len(), 3);
    assert_eq!(exit, 2);
    let start_edges = nfa.nodes[root].get_outgoing_edges();
    // the literal edge, then the bypass epsilon into the merge node
    assert_eq!(start_edges.len(), 2);
    assert!(label_has(start_edges[0].get_sym(), 'a'));
    assert_eq!(start_edges[0].get_to(), 1);
    assert!(matches!(start_edges[1].get_sym(), Label::Epsilon));
    assert_eq!(start_edges[1].get_to(), exit);
    // the unit's exit joins the merge node, and the merge node loops back
    assert_eq!(nfa.nodes[1].get_outgoing_edges().len(), 1);
    assert_eq!(nfa.nodes[1].get_outgoing_edges()[0].get_to(), exit);
    assert_eq!(nfa.nodes[exit].get_outgoing_edges().len(), 1);
    assert_eq!(nfa.nodes[exit].get_outgoing_edges()[0].get_to(), root);
}

#[test]
fn alternation_joins_branches_in_a_merge_node() {
    let mut nfa = Nfa::new();
    let root = nfa.get_root_id();
    let exit = nfa.parse_regex("a|b", "T", root, true).expect("pattern should compile");
    // both branches compiled from the shared start, joined in a fresh merge
    assert_eq!(nfa.nodes.len(), 4);
    assert_eq!(exit, 3);
    let start_edges = nfa.nodes[root].get_outgoing_edges();
    assert_eq!(start_edges.len(), 2);
    assert!(label_has(start_edges[0].get_sym(), 'a'));
    assert_eq!(start_edges[0].get_to(), 1);
    assert!(label_has(start_edges[1].get_sym(), 'b'));
    assert_eq!(start_edges[1].get_to(), 2);
    for branch in 1..=2 {
        let es = nfa.nodes[branch].get_outgoing_edges();
        assert_eq!(es.len(), 1);
        assert_eq!(es[0].get_to(), exit);
        assert!(matches!(es[0].get_sym(), Label::Epsilon));
    }
    assert!(nfa.nodes[exit].is_terminal());
    assert_eq!(nfa.nodes[exit].get_name(), "T");
}

#[test]
fn dfa_states_carry_first_terminal_name() {
    let dfa = built_dfa("ab ID\nabc KEYWORD\n");
    // every table entry's node is terminal exactly when the set holds a
    // terminal NFA state, and carries that state's name
    for (set, id) in &dfa.state_sets {
        let node = &dfa.nodes[*id];
        let nfa_nodes = dfa.nfa.get_nodes();
        let any = set.iter().any(|s| nfa_nodes[*s].is_terminal());
        assert_eq!(node.is_terminal(), any);
        if let Some(first) = set.iter().find(|s| nfa_nodes[**s].is_terminal()) {
            assert_eq!(node.get_name(), nfa_nodes[*first].get_name());
        }
    }
}
