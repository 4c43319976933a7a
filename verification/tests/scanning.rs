use lex4oat::Dfa;
use lex4oat::Lex4Oat;
use lex4oat::Nfa;

fn build_and_lex(rules: &str, input: &str) -> Vec<(String, String)> {
    let mut lexer = Lex4Oat::new(String::from(input));
    lexer.construct_nfa(rules).expect("rules should compile");
    lexer.construct_dfa();
    lexer.minimize_dfa();
    lexer.lex()
}

#[test]
fn longest_match_wins() {
    let tokens = build_and_lex("ab ID\nabc KEYWORD\n", "abcx");
    assert_eq!(tokens.len(), 1);
    assert_eq!(tokens[0].0, "KEYWORD");
    assert_eq!(tokens[0].1, "abc");
    for (name, _) in &tokens {
        assert_ne!(name, "ID");
    }
}

#[test]
fn alternation_matches_each_branch() {
    let tokens = build_and_lex("a|b AB\n", "ab");
    assert_eq!(tokens.len(), 2);
    assert_eq!(tokens[0], (String::from("AB"), String::from("a")));
    assert_eq!(tokens[1], (String::from("AB"), String::from("b")));
}

#[test]
fn star_matches_maximal_prefix() {
    let tokens = build_and_lex("a* STARS\n", "aaab");
    assert_eq!(tokens, vec![(String::from("STARS"), String::from("aaa"))]);
}

#[test]
fn plus_requires_one_occurrence() {
    let none = build_and_lex("a+ PLUS\n", "b");
    assert!(none.is_empty());
    let two = build_and_lex("a+ PLUS\n", "aa");
    assert_eq!(two, vec![(String::from("PLUS"), String::from("aa"))]);
}

#[test]
fn negated_bracket_rejects_named_char() {
    let rules = "[^a] NOTA\n";
    assert!(build_and_lex(rules, "a").is_empty());
    assert_eq!(build_and_lex(rules, "b"), vec![(String::from("NOTA"), String::from("b"))]);
    assert_eq!(build_and_lex(rules, "1"), vec![(String::from("NOTA"), String::from("1"))]);
    // a space is accepted too; the emitted lexeme is whitespace-trimmed
    assert_eq!(build_and_lex(rules, " "), vec![(String::from("NOTA"), String::from(""))]);
}

#[test]
fn skip_rule_matches_but_emits_nothing() {
    // compile a whitespace rule under the reserved skip name directly,
    // beside an ordinary rule
    let mut nfa = Nfa::new();
    let root = nfa.get_root_id();
    nfa.parse_regex("a", "A", root, true).expect("pattern should compile");
    nfa.parse_regex("\\s", ";", root, true).expect("pattern should compile");
    let mut dfa = Dfa::new();
    dfa.set_nfa(nfa);
    dfa.construct_dfa();
    let tokens = dfa.lex("a a");
    assert_eq!(
        tokens,
        vec![(String::from("A"), String::from("a")), (String::from("A"), String::from("a"))]
    );
}

#[test]
fn whitespace_class_rule() {
    let tokens = build_and_lex("a A\n\\s WS\n", "a a");
    assert_eq!(tokens.len(), 3);
    assert_eq!(tokens[0], (String::from("A"), String::from("a")));
    // the whitespace lexeme is trimmed away, but the token is emitted
    assert_eq!(tokens[1], (String::from("WS"), String::from("")));
    assert_eq!(tokens[2], (String::from("A"), String::from("a")));
}

#[test]
fn escaped_operator_is_literal() {
    let tokens = build_and_lex("a\\+b PLUSLIT\n", "a+b");
    assert_eq!(tokens, vec![(String::from("PLUSLIT"), String::from("a+b"))]);
}

#[test]
fn bracket_range_expands_inclusively() {
    let tokens = build_and_lex("[a-c]+ LETTERS\n", "abcb");
    assert_eq!(tokens, vec![(String::from("LETTERS"), String::from("abcb"))]);
    assert!(build_and_lex("[a-c]+ LETTERS\n", "d").is_empty());
}

#[test]
fn group_with_repetition() {
    let tokens = build_and_lex("(ab)+ PAIRS\n", "ababx");
    assert_eq!(tokens, vec![(String::from("PAIRS"), String::from("abab"))]);
}

#[test]
fn optional_suffix() {
    assert_eq!(build_and_lex("ab? OPT\n", "a"), vec![(String::from("OPT"), String::from("a"))]);
    assert_eq!(build_and_lex("ab? OPT\n", "ab"), vec![(String::from("OPT"), String::from("ab"))]);
}

#[test]
fn unmatched_characters_are_skipped_silently() {
    let tokens = build_and_lex("a A\n", "xayaz");
    assert_eq!(
        tokens,
        vec![(String::from("A"), String::from("a")), (String::from("A"), String::from("a"))]
    );
}

#[test]
fn keyword_style_rules_tokenize_program_text() {
    let rules = "if IF\n[a-z]+ IDENT\n[0-9]+ NUM\n\\s+ ;\n";
    let mut lexer = Lex4Oat::new(String::from("if x 42"));
    lexer.construct_nfa(rules).expect("rules should compile");
    lexer.construct_dfa();
    let tokens = lexer.lex();
    // "if" is also a run of letters; the tie-break picks the first
    // terminal state in ascending identifier order, which is IF
    assert_eq!(tokens.len(), 3);
    assert_eq!(tokens[0].1, "if");
    assert_eq!(tokens[1], (String::from("IDENT"), String::from("x")));
    assert_eq!(tokens[2], (String::from("NUM"), String::from("42")));
}
