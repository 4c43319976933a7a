//! Construction-time errors.
//!
//! Building a lexer can fail in two ways: a malformed regular-expression
//! pattern, or a malformed rule line.  Both are reported as structured
//! errors instead of aborting.  References to nonexistent node identifiers
//! — the remaining failure the design names — are ruled out by the graph
//! well-formedness invariant, so no error variant exists for them.

use vstd::prelude::*;
use vstd::string::StringExecFns;

verus! {

/// An error raised while building the automata from a rule set.
#[derive(Debug)]
pub enum LexError {
    /// A malformed regular-expression pattern: a dangling escape, an
    /// unterminated bracket or group, or a repetition operator with no
    /// preceding unit.  Carries the pattern text and its token name.
    PatternError { pattern: String, name: String },
    /// A rule line holding text but no token name.
    RuleFileError { line: String },
}

impl LexError {
    /// A diagnostic line naming the offending rule.
    pub fn message(&self) -> (r: String)
        ensures
            r@.len() > 0,
    {
        match self {
            LexError::PatternError { pattern, name } => {
                proof {
                    reveal_strlit("malformed pattern `");
                }
                let mut s = String::from_str("malformed pattern `");
                s.append(pattern.as_str());
                s.append("` for token `");
                s.append(name.as_str());
                s.append("`");
                s
            },
            LexError::RuleFileError { line } => {
                proof {
                    reveal_strlit("rule line without a token name: `");
                }
                let mut s = String::from_str("rule line without a token name: `");
                s.append(line.as_str());
                s.append("`");
                s
            },
        }
    }
}

} // verus!
