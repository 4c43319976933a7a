//! The lexer facade: load rules, build the nondeterministic automaton,
//! convert it to a deterministic one, and scan the input.

use vstd::prelude::*;

use crate::dfa::Dfa;
use crate::dfa::deterministic_nodes;
use crate::dfa::node_accepting_ok;
use crate::dfa::node_edge_complete;
use crate::dfa::node_edge_sound;
use crate::dfa::node_targets_distinct;
use crate::dfa::ids_set;
use crate::dfa::spec_closure;
use crate::dfa::spec_lex;
use crate::dfa::table_closed;
use crate::dfa::table_distinct;
use crate::dfa::table_ok;
use crate::dfa::table_reachable;
use crate::dfa::tokens_view;
use crate::errors::LexError;
use crate::nfa::Nfa;
use crate::nfa::has_terminal_named;
use crate::nfa::is_skip_name;
use crate::nfa::kw_view;
use crate::nfa::regex_ok;
use crate::nfa::rule_applies;
use crate::rules::rules_ok;
use crate::rules::spec_rules;

verus! {

/// Whether a rule, given as its (pattern, token name) view, takes part
/// in automaton construction.
pub open spec fn rule_applies_view(kw: (Seq<char>, Seq<char>)) -> bool {
    !is_skip_name(kw.1) && kw.0.len() > 0
}

/// A lexer for a rule set: the input text, the nondeterministic
/// automaton built from the rules, and the deterministic automaton
/// driven over the input.
pub struct Lex4Oat {
    /// The source text to be scanned.
    pub input: String,
    /// The nondeterministic automaton under construction.
    pub nfa: Nfa,
    /// The deterministic automaton used for scanning.
    pub dfa: Dfa,
}

impl Lex4Oat {
    /// Well-formedness of both automata.
    pub open spec fn wf(self) -> bool {
        &&& self.nfa.wf()
        &&& self.dfa.wf()
    }

    /// Creates a lexer over `input` with both automata still empty.
    pub fn new(input: String) -> (r: Lex4Oat)
        ensures
            r.wf(),
            r.input == input,
            r.nfa.spec_keywords().len() == 0,
            r.dfa.state_sets@.len() == 0,
            deterministic_nodes(r.dfa.nodes@),
    {
        Lex4Oat { input, nfa: Nfa::new(), dfa: Dfa::new() }
    }

    /// Loads the rule text and builds the nondeterministic automaton:
    /// succeeds exactly when the rule lines are well formed and every
    /// applicable rule's pattern is a well-formed regex, and then every
    /// applicable rule has contributed a terminal state carrying its
    /// token name.
    pub fn construct_nfa(&mut self, rules: &str) -> (r: Result<(), LexError>)
        requires
            old(self).wf(),
            old(self).nfa.spec_keywords().len() == 0,
        ensures
            final(self).wf(),
            final(self).input == old(self).input,
            final(self).dfa == old(self).dfa,
            r is Ok <==> (rules_ok(rules@) && (forall|k: int|
                0 <= k < spec_rules(rules@).len() && rule_applies_view(
                    #[trigger] spec_rules(rules@)[k],
                ) ==> regex_ok(spec_rules(rules@)[k].0))),
            r matches Err(e) ==> ((rules_ok(rules@) ==> e is PatternError) && (!rules_ok(rules@)
                ==> e is RuleFileError)),
            r is Ok ==> (forall|k: int|
                0 <= k < spec_rules(rules@).len() && rule_applies_view(
                    #[trigger] spec_rules(rules@)[k],
                ) ==> has_terminal_named(final(self).nfa.spec_nodes(), spec_rules(rules@)[k].1)),
    {
        match self.nfa.add_keywords(rules) {
            Err(e) => {
                proof {
                    assert(!rules_ok(rules@));
                }
                Err(e)
            },
            Ok(_) => {
                let ghost kws = self.nfa.keywords@;
                proof {
                    assert(kw_view(kws) =~= spec_rules(rules@)) by {
                        assert(kw_view(old(self).nfa.keywords@) =~= Seq::<
                            (Seq<char>, Seq<char>),
                        >::empty());
                    }
                    assert forall|k: int|
                        0 <= k < kws.len() implies (rule_applies(#[trigger] kws[k])
                        == rule_applies_view(spec_rules(rules@)[k]) && kws[k].0@ == spec_rules(
                        rules@,
                    )[k].0 && kws[k].1@ == spec_rules(rules@)[k].1) by {
                        assert(kw_view(kws)[k] == (kws[k].0@, kws[k].1@));
                    }
                    assert(kws.len() == spec_rules(rules@).len());
                }
                let r2 = self.nfa.construct();
                match r2 {
                    Ok(_) => {
                        proof {
                            assert forall|k: int|
                                0 <= k < spec_rules(rules@).len() && rule_applies_view(
                                    #[trigger] spec_rules(rules@)[k],
                                ) implies regex_ok(spec_rules(rules@)[k].0) && has_terminal_named(
                                self.nfa.nodes@,
                                spec_rules(rules@)[k].1,
                            ) by {
                                assert(rule_applies(kws[k]));
                                assert(regex_ok(kws[k].0@));
                                assert(has_terminal_named(self.nfa.nodes@, kws[k].1@));
                            }
                        }
                        Ok(())
                    },
                    Err(e) => {
                        proof {
                            assert(!(forall|k: int|
                                0 <= k < spec_rules(rules@).len() && rule_applies_view(
                                    #[trigger] spec_rules(rules@)[k],
                                ) ==> regex_ok(spec_rules(rules@)[k].0))) by {
                                let k = choose|k: int|
                                    0 <= k < kws.len() && rule_applies(#[trigger] kws[k])
                                        && !regex_ok(kws[k].0@);
                                assert(rule_applies_view(spec_rules(rules@)[k]));
                                assert(!regex_ok(spec_rules(rules@)[k].0));
                            }
                        }
                        Err(e)
                    },
                }
            },
        }
    }

    /// Hands the nondeterministic automaton to the deterministic one and
    /// runs subset construction.  Afterwards the deterministic graph is
    /// deterministic, its state-set table is duplicate-free, closed under
    /// transitions and reachable, and its root stands for the
    /// epsilon-closure of the nondeterministic root.
    pub fn construct_dfa(&mut self)
        requires
            old(self).wf(),
            old(self).dfa.state_sets@.len() == 0,
            deterministic_nodes(old(self).dfa.nodes@),
        ensures
            final(self).wf(),
            final(self).input == old(self).input,
            final(self).dfa.nfa == old(self).nfa,
            deterministic_nodes(final(self).dfa.nodes@),
            final(self).dfa.state_sets@.len() > 0,
            table_ok(
                old(self).nfa.nodes@,
                final(self).dfa.state_sets@,
                old(self).dfa.nodes@.len() as int,
            ),
            table_distinct(final(self).dfa.state_sets@),
            table_reachable(
                old(self).nfa.nodes@,
                old(self).nfa.root_id,
                final(self).dfa.state_sets@,
            ),
            table_closed(old(self).nfa.nodes@, final(self).dfa.state_sets@),
            ids_set(final(self).dfa.state_sets@[0].0@) == spec_closure(
                old(self).nfa.nodes@,
                Set::empty().insert(old(self).nfa.root_id),
            ),
            final(self).dfa.root_id == final(self).dfa.state_sets@[0].1,
            forall|k: int|
                0 <= k < final(self).dfa.state_sets@.len() ==> node_edge_sound(
                    old(self).nfa.nodes@,
                    final(self).dfa.nodes@[(#[trigger] final(self).dfa.state_sets@[k]).1 as int],
                    ids_set(final(self).dfa.state_sets@[k].0@),
                    final(self).dfa.state_sets@,
                ),
            forall|k: int|
                0 <= k < final(self).dfa.state_sets@.len() ==> node_edge_complete(
                    old(self).nfa.nodes@,
                    final(self).dfa.nodes@[(#[trigger] final(self).dfa.state_sets@[k]).1 as int],
                    ids_set(final(self).dfa.state_sets@[k].0@),
                ),
            forall|k: int|
                0 <= k < final(self).dfa.state_sets@.len() ==> node_accepting_ok(
                    old(self).nfa.nodes@,
                    final(self).dfa.nodes@[(#[trigger] final(self).dfa.state_sets@[k]).1 as int],
                    final(self).dfa.state_sets@[k].0@,
                ),
            forall|k: int|
                0 <= k < final(self).dfa.state_sets@.len() ==> node_targets_distinct(
                    final(self).dfa.nodes@[(#[trigger] final(self).dfa.state_sets@[k]).1 as int],
                ),
    {
        let mut tmp = Nfa::new();
        core::mem::swap(&mut tmp, &mut self.nfa);
        self.dfa.set_nfa(tmp);
        self.dfa.construct_dfa();
    }

    /// The minimization hook: the deterministic automaton is deliberately
    /// left exactly as subset construction built it.
    pub fn minimize_dfa(&mut self)
        ensures
            *final(self) == *old(self),
    {
    }

    /// Scans the stored input with the deterministic automaton and
    /// returns the token stream.
    pub fn lex(&mut self) -> (tokens: Vec<(String, String)>)
        requires
            old(self).wf(),
        ensures
            *final(self) == *old(self),
            tokens_view(tokens@) == spec_lex(
                old(self).dfa.nodes@,
                old(self).dfa.root_id,
                old(self).input@,
                0,
            ),
    {
        let tokens = self.dfa.lex(self.input.as_str());
        tokens
    }
}

} // verus!
