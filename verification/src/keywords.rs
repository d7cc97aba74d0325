//! The single table of the language's keywords: each CAPS spelling, whether it
//! may begin a top-level statement, and its syntax card (canonical form, a
//! one-line meaning, and a real example). The reserved-word check, the parser's
//! keyword matching, recovery resync and the diagnostic cards all derive from it.
use vstd::prelude::*;
use crate::text::{chars_eq, chars_of};

verus! {

/// Every keyword of the language, in teaching order: the top-level statements
/// first (so the menu of statements keeps that order), then the body and
/// modifier words.
#[derive(Clone, Copy, PartialEq, Eq, Debug, Structural)]
pub enum Kw {
    /// `DOMAIN`
    Domain,
    /// `FACT`
    Fact,
    /// `NOT`
    Not,
    /// `ASSUME`
    Assume,
    /// `PREMISE`
    Premise,
    /// `RULE`
    Rule,
    /// `CHECK`
    Check,
    /// `SET`
    SetDef,
    /// `CLOSE`
    Close,
    /// `VAR`
    Var,
    /// `PROVIDE`
    Provide,
    /// `IMPORT`
    Import,
    /// `AS`
    As,
    /// `FOR`
    For,
    /// `EACH`
    Each,
    /// `IN`
    In,
    /// `WHEN`
    When,
    /// `THEN`
    Then,
    /// `UNLESS`
    Unless,
    /// `AND`
    And,
    /// `OR`
    Or,
    /// `EXCLUSIVE`
    Exclusive,
    /// `FORBIDS`
    Forbids,
    /// `ONEOF`
    OneOf,
    /// `ATLEAST`
    AtLeast,
    /// `EXISTS`
    Exists,
    /// `WITNESS`
    Witness,
    /// `BECAUSE`
    Because,
    /// `BIDIRECTIONAL`
    Bidirectional,
    /// `TRANSITIVE`
    Transitive,
    /// `SYMMETRIC`
    Symmetric,
    /// `REFLEXIVE`
    Reflexive,
    /// `EQUIVALENCE`
    Equivalence,
    /// `SCC`
    Scc,
    /// `DEFAULT`
    Default,
}

/// How many keywords there are.
pub const KW_COUNT: usize = 35;

/// How many keywords may begin a top-level statement (they come first).
pub const TOP_LEVEL_COUNT: usize = 12;

/// The CAPS spelling of a keyword.
pub open spec fn kw_spec(k: Kw) -> Seq<char> {
    match k {
        Kw::Domain => seq!['D', 'O', 'M', 'A', 'I', 'N'],
        Kw::Fact => seq!['F', 'A', 'C', 'T'],
        Kw::Not => seq!['N', 'O', 'T'],
        Kw::Assume => seq!['A', 'S', 'S', 'U', 'M', 'E'],
        Kw::Premise => seq!['P', 'R', 'E', 'M', 'I', 'S', 'E'],
        Kw::Rule => seq!['R', 'U', 'L', 'E'],
        Kw::Check => seq!['C', 'H', 'E', 'C', 'K'],
        Kw::SetDef => seq!['S', 'E', 'T'],
        Kw::Close => seq!['C', 'L', 'O', 'S', 'E'],
        Kw::Var => seq!['V', 'A', 'R'],
        Kw::Provide => seq!['P', 'R', 'O', 'V', 'I', 'D', 'E'],
        Kw::Import => seq!['I', 'M', 'P', 'O', 'R', 'T'],
        Kw::As => seq!['A', 'S'],
        Kw::For => seq!['F', 'O', 'R'],
        Kw::Each => seq!['E', 'A', 'C', 'H'],
        Kw::In => seq!['I', 'N'],
        Kw::When => seq!['W', 'H', 'E', 'N'],
        Kw::Then => seq!['T', 'H', 'E', 'N'],
        Kw::Unless => seq!['U', 'N', 'L', 'E', 'S', 'S'],
        Kw::And => seq!['A', 'N', 'D'],
        Kw::Or => seq!['O', 'R'],
        Kw::Exclusive => seq!['E', 'X', 'C', 'L', 'U', 'S', 'I', 'V', 'E'],
        Kw::Forbids => seq!['F', 'O', 'R', 'B', 'I', 'D', 'S'],
        Kw::OneOf => seq!['O', 'N', 'E', 'O', 'F'],
        Kw::AtLeast => seq!['A', 'T', 'L', 'E', 'A', 'S', 'T'],
        Kw::Exists => seq!['E', 'X', 'I', 'S', 'T', 'S'],
        Kw::Witness => seq!['W', 'I', 'T', 'N', 'E', 'S', 'S'],
        Kw::Because => seq!['B', 'E', 'C', 'A', 'U', 'S', 'E'],
        Kw::Bidirectional => seq!['B', 'I', 'D', 'I', 'R', 'E', 'C', 'T', 'I', 'O', 'N', 'A', 'L'],
        Kw::Transitive => seq!['T', 'R', 'A', 'N', 'S', 'I', 'T', 'I', 'V', 'E'],
        Kw::Symmetric => seq!['S', 'Y', 'M', 'M', 'E', 'T', 'R', 'I', 'C'],
        Kw::Reflexive => seq!['R', 'E', 'F', 'L', 'E', 'X', 'I', 'V', 'E'],
        Kw::Equivalence => seq!['E', 'Q', 'U', 'I', 'V', 'A', 'L', 'E', 'N', 'C', 'E'],
        Kw::Scc => seq!['S', 'C', 'C'],
        Kw::Default => seq!['D', 'E', 'F', 'A', 'U', 'L', 'T'],
    }
}

/// Whether a keyword may begin a top-level statement.
pub open spec fn kw_top_level(k: Kw) -> bool {
    match k {
        Kw::Domain => true,
        Kw::Fact => true,
        Kw::Not => true,
        Kw::Assume => true,
        Kw::Premise => true,
        Kw::Rule => true,
        Kw::Check => true,
        Kw::SetDef => true,
        Kw::Close => true,
        Kw::Var => true,
        Kw::Provide => true,
        Kw::Import => true,
        Kw::As => false,
        Kw::For => false,
        Kw::Each => false,
        Kw::In => false,
        Kw::When => false,
        Kw::Then => false,
        Kw::Unless => false,
        Kw::And => false,
        Kw::Or => false,
        Kw::Exclusive => false,
        Kw::Forbids => false,
        Kw::OneOf => false,
        Kw::AtLeast => false,
        Kw::Exists => false,
        Kw::Witness => false,
        Kw::Because => false,
        Kw::Bidirectional => false,
        Kw::Transitive => false,
        Kw::Symmetric => false,
        Kw::Reflexive => false,
        Kw::Equivalence => false,
        Kw::Scc => false,
        Kw::Default => false,
    }
}

/// The keyword at position `i` of the teaching order.
pub open spec fn kw_at(i: int) -> Kw {
    if i == 0 {
        Kw::Domain
    } else if i == 1 {
        Kw::Fact
    } else if i == 2 {
        Kw::Not
    } else if i == 3 {
        Kw::Assume
    } else if i == 4 {
        Kw::Premise
    } else if i == 5 {
        Kw::Rule
    } else if i == 6 {
        Kw::Check
    } else if i == 7 {
        Kw::SetDef
    } else if i == 8 {
        Kw::Close
    } else if i == 9 {
        Kw::Var
    } else if i == 10 {
        Kw::Provide
    } else if i == 11 {
        Kw::Import
    } else if i == 12 {
        Kw::As
    } else if i == 13 {
        Kw::For
    } else if i == 14 {
        Kw::Each
    } else if i == 15 {
        Kw::In
    } else if i == 16 {
        Kw::When
    } else if i == 17 {
        Kw::Then
    } else if i == 18 {
        Kw::Unless
    } else if i == 19 {
        Kw::And
    } else if i == 20 {
        Kw::Or
    } else if i == 21 {
        Kw::Exclusive
    } else if i == 22 {
        Kw::Forbids
    } else if i == 23 {
        Kw::OneOf
    } else if i == 24 {
        Kw::AtLeast
    } else if i == 25 {
        Kw::Exists
    } else if i == 26 {
        Kw::Witness
    } else if i == 27 {
        Kw::Because
    } else if i == 28 {
        Kw::Bidirectional
    } else if i == 29 {
        Kw::Transitive
    } else if i == 30 {
        Kw::Symmetric
    } else if i == 31 {
        Kw::Reflexive
    } else if i == 32 {
        Kw::Equivalence
    } else if i == 33 {
        Kw::Scc
    } else {
        Kw::Default
    }
}

/// The position of a keyword in the teaching order.
pub open spec fn kw_index(k: Kw) -> int {
    match k {
        Kw::Domain => 0,
        Kw::Fact => 1,
        Kw::Not => 2,
        Kw::Assume => 3,
        Kw::Premise => 4,
        Kw::Rule => 5,
        Kw::Check => 6,
        Kw::SetDef => 7,
        Kw::Close => 8,
        Kw::Var => 9,
        Kw::Provide => 10,
        Kw::Import => 11,
        Kw::As => 12,
        Kw::For => 13,
        Kw::Each => 14,
        Kw::In => 15,
        Kw::When => 16,
        Kw::Then => 17,
        Kw::Unless => 18,
        Kw::And => 19,
        Kw::Or => 20,
        Kw::Exclusive => 21,
        Kw::Forbids => 22,
        Kw::OneOf => 23,
        Kw::AtLeast => 24,
        Kw::Exists => 25,
        Kw::Witness => 26,
        Kw::Because => 27,
        Kw::Bidirectional => 28,
        Kw::Transitive => 29,
        Kw::Symmetric => 30,
        Kw::Reflexive => 31,
        Kw::Equivalence => 32,
        Kw::Scc => 33,
        Kw::Default => 34,
    }
}

/// `kw_index` and `kw_at` are inverse; the top-level keywords are exactly the
/// first `TOP_LEVEL_COUNT`.
pub proof fn lemma_kw_index(k: Kw)
    ensures
        0 <= kw_index(k) < KW_COUNT,
        kw_at(kw_index(k)) == k,
        kw_top_level(k) <==> kw_index(k) < TOP_LEVEL_COUNT,
{
}

/// `kw_at` maps every index below `KW_COUNT` to the keyword with that index.
pub proof fn lemma_kw_at(i: int)
    requires
        0 <= i < KW_COUNT,
    ensures
        kw_index(kw_at(i)) == i,
{
}

/// Whether `w` is the spelling of some keyword.
pub open spec fn is_keyword(w: Seq<char>) -> bool {
    exists|k: Kw| kw_spec(k) == w
}

/// A keyword is spelled in capital letters.
pub proof fn lemma_kw_chars(k: Kw)
    ensures
        kw_spec(k).len() > 0,
        forall|i: int| 0 <= i < kw_spec(k).len() ==> 'A' <= #[trigger] kw_spec(k)[i] && kw_spec(k)[i] <= 'Z',
{
    let w = kw_spec(k);
    assert forall|i: int| 0 <= i < w.len() implies 'A' <= #[trigger] w[i] && w[i] <= 'Z' by {
        match k {
            _ => {},
        }
    }
}

/// Distinct keywords have distinct spellings.
pub proof fn lemma_kw_spec_injective(a: Kw, b: Kw)
    ensures
        kw_spec(a) == kw_spec(b) ==> a == b,
{
    if kw_spec(a) == kw_spec(b) && a != b {
        lemma_kw_spec_differ(a, b);
    }
}

proof fn lemma_kw_spec_differ(a: Kw, b: Kw)
    requires
        a != b,
    ensures
        kw_spec(a) != kw_spec(b),
{
    let x = kw_spec(a);
    let y = kw_spec(b);
    if x.len() == y.len() {
        match (a, b) {
            (Kw::Domain, Kw::Assume) | (Kw::Assume, Kw::Domain) => assert(x[0] != y[0]),
            (Kw::Domain, Kw::Import) | (Kw::Import, Kw::Domain) => assert(x[0] != y[0]),
            (Kw::Domain, Kw::Exists) | (Kw::Exists, Kw::Domain) => assert(x[0] != y[0]),
            (Kw::Fact, Kw::Rule) | (Kw::Rule, Kw::Fact) => assert(x[0] != y[0]),
            (Kw::Fact, Kw::Each) | (Kw::Each, Kw::Fact) => assert(x[0] != y[0]),
            (Kw::Fact, Kw::When) | (Kw::When, Kw::Fact) => assert(x[0] != y[0]),
            (Kw::Fact, Kw::Then) | (Kw::Then, Kw::Fact) => assert(x[0] != y[0]),
            (Kw::Not, Kw::SetDef) | (Kw::SetDef, Kw::Not) => assert(x[0] != y[0]),
            (Kw::Not, Kw::Var) | (Kw::Var, Kw::Not) => assert(x[0] != y[0]),
            (Kw::Not, Kw::For) | (Kw::For, Kw::Not) => assert(x[0] != y[0]),
            (Kw::Not, Kw::And) | (Kw::And, Kw::Not) => assert(x[0] != y[0]),
            (Kw::Not, Kw::Scc) | (Kw::Scc, Kw::Not) => assert(x[0] != y[0]),
            (Kw::Assume, Kw::Import) | (Kw::Import, Kw::Assume) => assert(x[0] != y[0]),
            (Kw::Assume, Kw::Exists) | (Kw::Exists, Kw::Assume) => assert(x[0] != y[0]),
            (Kw::Premise, Kw::Provide) | (Kw::Provide, Kw::Premise) => assert(x[2] != y[2]),
            (Kw::Premise, Kw::Forbids) | (Kw::Forbids, Kw::Premise) => assert(x[0] != y[0]),
            (Kw::Premise, Kw::AtLeast) | (Kw::AtLeast, Kw::Premise) => assert(x[0] != y[0]),
            (Kw::Premise, Kw::Default) | (Kw::Default, Kw::Premise) => assert(x[0] != y[0]),
            (Kw::Rule, Kw::Each) | (Kw::Each, Kw::Rule) => assert(x[0] != y[0]),
            (Kw::Rule, Kw::When) | (Kw::When, Kw::Rule) => assert(x[0] != y[0]),
            (Kw::Rule, Kw::Then) | (Kw::Then, Kw::Rule) => assert(x[0] != y[0]),
            (Kw::Check, Kw::Close) | (Kw::Close, Kw::Check) => assert(x[1] != y[1]),
            (Kw::Check, Kw::OneOf) | (Kw::OneOf, Kw::Check) => assert(x[0] != y[0]),
            (Kw::SetDef, Kw::Var) | (Kw::Var, Kw::SetDef) => assert(x[0] != y[0]),
            (Kw::SetDef, Kw::For) | (Kw::For, Kw::SetDef) => assert(x[0] != y[0]),
            (Kw::SetDef, Kw::And) | (Kw::And, Kw::SetDef) => assert(x[0] != y[0]),
            (Kw::SetDef, Kw::Scc) | (Kw::Scc, Kw::SetDef) => assert(x[1] != y[1]),
            (Kw::Close, Kw::OneOf) | (Kw::OneOf, Kw::Close) => assert(x[0] != y[0]),
            (Kw::Var, Kw::For) | (Kw::For, Kw::Var) => assert(x[0] != y[0]),
            (Kw::Var, Kw::And) | (Kw::And, Kw::Var) => assert(x[0] != y[0]),
            (Kw::Var, Kw::Scc) | (Kw::Scc, Kw::Var) => assert(x[0] != y[0]),
            (Kw::Provide, Kw::Forbids) | (Kw::Forbids, Kw::Provide) => assert(x[0] != y[0]),
            (Kw::Provide, Kw::AtLeast) | (Kw::AtLeast, Kw::Provide) => assert(x[0] != y[0]),
            (Kw::Provide, Kw::Default) | (Kw::Default, Kw::Provide) => assert(x[0] != y[0]),
            (Kw::Import, Kw::Exists) | (Kw::Exists, Kw::Import) => assert(x[0] != y[0]),
            (Kw::As, Kw::In) | (Kw::In, Kw::As) => assert(x[0] != y[0]),
            (Kw::As, Kw::Or) | (Kw::Or, Kw::As) => assert(x[0] != y[0]),
            (Kw::For, Kw::And) | (Kw::And, Kw::For) => assert(x[0] != y[0]),
            (Kw::For, Kw::Scc) | (Kw::Scc, Kw::For) => assert(x[0] != y[0]),
            (Kw::Each, Kw::When) | (Kw::When, Kw::Each) => assert(x[0] != y[0]),
            (Kw::Each, Kw::Then) | (Kw::Then, Kw::Each) => assert(x[0] != y[0]),
            (Kw::In, Kw::Or) | (Kw::Or, Kw::In) => assert(x[0] != y[0]),
            (Kw::When, Kw::Then) | (Kw::Then, Kw::When) => assert(x[0] != y[0]),
            (Kw::And, Kw::Scc) | (Kw::Scc, Kw::And) => assert(x[0] != y[0]),
            (Kw::Exclusive, Kw::Symmetric) | (Kw::Symmetric, Kw::Exclusive) => assert(x[0] != y[0]),
            (Kw::Exclusive, Kw::Reflexive) | (Kw::Reflexive, Kw::Exclusive) => assert(x[0] != y[0]),
            (Kw::Forbids, Kw::AtLeast) | (Kw::AtLeast, Kw::Forbids) => assert(x[0] != y[0]),
            (Kw::Forbids, Kw::Default) | (Kw::Default, Kw::Forbids) => assert(x[0] != y[0]),
            (Kw::AtLeast, Kw::Default) | (Kw::Default, Kw::AtLeast) => assert(x[0] != y[0]),
            (Kw::Symmetric, Kw::Reflexive) | (Kw::Reflexive, Kw::Symmetric) => assert(x[0] != y[0]),
            _ => {},
        }
    }
}

/// The spelling of a keyword as a static string.
pub fn kw_text(k: Kw) -> (r: &'static str)
    ensures
        r@ == kw_spec(k),
{
    match k {
        Kw::Domain => {
            proof {
                reveal_strlit("DOMAIN");
            }
            "DOMAIN"
        },
        Kw::Fact => {
            proof {
                reveal_strlit("FACT");
            }
            "FACT"
        },
        Kw::Not => {
            proof {
                reveal_strlit("NOT");
            }
            "NOT"
        },
        Kw::Assume => {
            proof {
                reveal_strlit("ASSUME");
            }
            "ASSUME"
        },
        Kw::Premise => {
            proof {
                reveal_strlit("PREMISE");
            }
            "PREMISE"
        },
        Kw::Rule => {
            proof {
                reveal_strlit("RULE");
            }
            "RULE"
        },
        Kw::Check => {
            proof {
                reveal_strlit("CHECK");
            }
            "CHECK"
        },
        Kw::SetDef => {
            proof {
                reveal_strlit("SET");
            }
            "SET"
        },
        Kw::Close => {
            proof {
                reveal_strlit("CLOSE");
            }
            "CLOSE"
        },
        Kw::Var => {
            proof {
                reveal_strlit("VAR");
            }
            "VAR"
        },
        Kw::Provide => {
            proof {
                reveal_strlit("PROVIDE");
            }
            "PROVIDE"
        },
        Kw::Import => {
            proof {
                reveal_strlit("IMPORT");
            }
            "IMPORT"
        },
        Kw::As => {
            proof {
                reveal_strlit("AS");
            }
            "AS"
        },
        Kw::For => {
            proof {
                reveal_strlit("FOR");
            }
            "FOR"
        },
        Kw::Each => {
            proof {
                reveal_strlit("EACH");
            }
            "EACH"
        },
        Kw::In => {
            proof {
                reveal_strlit("IN");
            }
            "IN"
        },
        Kw::When => {
            proof {
                reveal_strlit("WHEN");
            }
            "WHEN"
        },
        Kw::Then => {
            proof {
                reveal_strlit("THEN");
            }
            "THEN"
        },
        Kw::Unless => {
            proof {
                reveal_strlit("UNLESS");
            }
            "UNLESS"
        },
        Kw::And => {
            proof {
                reveal_strlit("AND");
            }
            "AND"
        },
        Kw::Or => {
            proof {
                reveal_strlit("OR");
            }
            "OR"
        },
        Kw::Exclusive => {
            proof {
                reveal_strlit("EXCLUSIVE");
            }
            "EXCLUSIVE"
        },
        Kw::Forbids => {
            proof {
                reveal_strlit("FORBIDS");
            }
            "FORBIDS"
        },
        Kw::OneOf => {
            proof {
                reveal_strlit("ONEOF");
            }
            "ONEOF"
        },
        Kw::AtLeast => {
            proof {
                reveal_strlit("ATLEAST");
            }
            "ATLEAST"
        },
        Kw::Exists => {
            proof {
                reveal_strlit("EXISTS");
            }
            "EXISTS"
        },
        Kw::Witness => {
            proof {
                reveal_strlit("WITNESS");
            }
            "WITNESS"
        },
        Kw::Because => {
            proof {
                reveal_strlit("BECAUSE");
            }
            "BECAUSE"
        },
        Kw::Bidirectional => {
            proof {
                reveal_strlit("BIDIRECTIONAL");
            }
            "BIDIRECTIONAL"
        },
        Kw::Transitive => {
            proof {
                reveal_strlit("TRANSITIVE");
            }
            "TRANSITIVE"
        },
        Kw::Symmetric => {
            proof {
                reveal_strlit("SYMMETRIC");
            }
            "SYMMETRIC"
        },
        Kw::Reflexive => {
            proof {
                reveal_strlit("REFLEXIVE");
            }
            "REFLEXIVE"
        },
        Kw::Equivalence => {
            proof {
                reveal_strlit("EQUIVALENCE");
            }
            "EQUIVALENCE"
        },
        Kw::Scc => {
            proof {
                reveal_strlit("SCC");
            }
            "SCC"
        },
        Kw::Default => {
            proof {
                reveal_strlit("DEFAULT");
            }
            "DEFAULT"
        },
    }
}

/// The spelling of a keyword as characters.
pub fn kw_chars(k: Kw) -> (r: Vec<char>)
    ensures
        r@ == kw_spec(k),
{
    match k {
        Kw::Domain => vec!['D', 'O', 'M', 'A', 'I', 'N'],
        Kw::Fact => vec!['F', 'A', 'C', 'T'],
        Kw::Not => vec!['N', 'O', 'T'],
        Kw::Assume => vec!['A', 'S', 'S', 'U', 'M', 'E'],
        Kw::Premise => vec!['P', 'R', 'E', 'M', 'I', 'S', 'E'],
        Kw::Rule => vec!['R', 'U', 'L', 'E'],
        Kw::Check => vec!['C', 'H', 'E', 'C', 'K'],
        Kw::SetDef => vec!['S', 'E', 'T'],
        Kw::Close => vec!['C', 'L', 'O', 'S', 'E'],
        Kw::Var => vec!['V', 'A', 'R'],
        Kw::Provide => vec!['P', 'R', 'O', 'V', 'I', 'D', 'E'],
        Kw::Import => vec!['I', 'M', 'P', 'O', 'R', 'T'],
        Kw::As => vec!['A', 'S'],
        Kw::For => vec!['F', 'O', 'R'],
        Kw::Each => vec!['E', 'A', 'C', 'H'],
        Kw::In => vec!['I', 'N'],
        Kw::When => vec!['W', 'H', 'E', 'N'],
        Kw::Then => vec!['T', 'H', 'E', 'N'],
        Kw::Unless => vec!['U', 'N', 'L', 'E', 'S', 'S'],
        Kw::And => vec!['A', 'N', 'D'],
        Kw::Or => vec!['O', 'R'],
        Kw::Exclusive => vec!['E', 'X', 'C', 'L', 'U', 'S', 'I', 'V', 'E'],
        Kw::Forbids => vec!['F', 'O', 'R', 'B', 'I', 'D', 'S'],
        Kw::OneOf => vec!['O', 'N', 'E', 'O', 'F'],
        Kw::AtLeast => vec!['A', 'T', 'L', 'E', 'A', 'S', 'T'],
        Kw::Exists => vec!['E', 'X', 'I', 'S', 'T', 'S'],
        Kw::Witness => vec!['W', 'I', 'T', 'N', 'E', 'S', 'S'],
        Kw::Because => vec!['B', 'E', 'C', 'A', 'U', 'S', 'E'],
        Kw::Bidirectional => vec!['B', 'I', 'D', 'I', 'R', 'E', 'C', 'T', 'I', 'O', 'N', 'A', 'L'],
        Kw::Transitive => vec!['T', 'R', 'A', 'N', 'S', 'I', 'T', 'I', 'V', 'E'],
        Kw::Symmetric => vec!['S', 'Y', 'M', 'M', 'E', 'T', 'R', 'I', 'C'],
        Kw::Reflexive => vec!['R', 'E', 'F', 'L', 'E', 'X', 'I', 'V', 'E'],
        Kw::Equivalence => vec!['E', 'Q', 'U', 'I', 'V', 'A', 'L', 'E', 'N', 'C', 'E'],
        Kw::Scc => vec!['S', 'C', 'C'],
        Kw::Default => vec!['D', 'E', 'F', 'A', 'U', 'L', 'T'],
    }
}

/// The keyword at position `i` of the teaching order.
pub fn kw_by_index(i: usize) -> (k: Kw)
    requires
        i < KW_COUNT,
    ensures
        k == kw_at(i as int),
{
    if i == 0 {
        Kw::Domain
    } else if i == 1 {
        Kw::Fact
    } else if i == 2 {
        Kw::Not
    } else if i == 3 {
        Kw::Assume
    } else if i == 4 {
        Kw::Premise
    } else if i == 5 {
        Kw::Rule
    } else if i == 6 {
        Kw::Check
    } else if i == 7 {
        Kw::SetDef
    } else if i == 8 {
        Kw::Close
    } else if i == 9 {
        Kw::Var
    } else if i == 10 {
        Kw::Provide
    } else if i == 11 {
        Kw::Import
    } else if i == 12 {
        Kw::As
    } else if i == 13 {
        Kw::For
    } else if i == 14 {
        Kw::Each
    } else if i == 15 {
        Kw::In
    } else if i == 16 {
        Kw::When
    } else if i == 17 {
        Kw::Then
    } else if i == 18 {
        Kw::Unless
    } else if i == 19 {
        Kw::And
    } else if i == 20 {
        Kw::Or
    } else if i == 21 {
        Kw::Exclusive
    } else if i == 22 {
        Kw::Forbids
    } else if i == 23 {
        Kw::OneOf
    } else if i == 24 {
        Kw::AtLeast
    } else if i == 25 {
        Kw::Exists
    } else if i == 26 {
        Kw::Witness
    } else if i == 27 {
        Kw::Because
    } else if i == 28 {
        Kw::Bidirectional
    } else if i == 29 {
        Kw::Transitive
    } else if i == 30 {
        Kw::Symmetric
    } else if i == 31 {
        Kw::Reflexive
    } else if i == 32 {
        Kw::Equivalence
    } else if i == 33 {
        Kw::Scc
    } else {
        Kw::Default
    }
}

/// The correct-syntax reference for one keyword: its canonical written form
/// (with `<slots>` and `[optional]` parts), a one-line plain meaning, and a real,
/// valid example a model can copy.
#[derive(Clone, Copy, PartialEq, Eq, Debug)]
pub struct Card {
    /// The canonical written form.
    pub form: &'static str,
    /// A one-line plain meaning.
    pub gloss: &'static str,
    /// A real, valid example line.
    pub example: &'static str,
}

/// One keyword: its spelling, whether it may begin a top-level statement, and its
/// syntax card.
#[derive(Clone, Copy, PartialEq, Eq, Debug)]
pub struct Keyword {
    /// The CAPS spelling.
    pub text: &'static str,
    /// Whether it may begin a top-level statement.
    pub top_level: bool,
    /// The keyword's syntax card.
    pub card: Card,
}

/// The syntax card of a keyword.
pub open spec fn card_spec(k: Kw) -> Card {
    match k {
        Kw::Domain => Card {
            form: "DOMAIN <name>",
            gloss: "declare this file's domain (required, once, first) — the namespace bare atoms fall into",
            example: "DOMAIN physics",
        },
        Kw::Fact => Card {
            form: "FACT [<domain>.]<Subject> <predicate> [<object>]",
            gloss: "assert an atom is TRUE",
            example: "FACT socrates is human",
        },
        Kw::Not => Card {
            form: "NOT <Subject> <predicate> [<object>]",
            gloss: "assert an atom is FALSE",
            example: "NOT socrates is immortal",
        },
        Kw::Assume => Card {
            form: "ASSUME [NOT] <Subject> <predicate> [<object>]",
            gloss: "a soft, retractable hypothesis (the solver may ask you to drop it)",
            example: "ASSUME release is_ready",
        },
        Kw::Premise => Card {
            form: "PREMISE <name>:  then a list body or a WHEN ... THEN implication",
            gloss: "a checked first principle (a constraint that must hold)",
            example: "PREMISE wings:\n    WHEN bird has feathers\n    THEN bird can_fly",
        },
        Kw::Rule => Card {
            form: "RULE <name>:  then a WHEN ... THEN implication",
            gloss: "an inference rule: when the WHEN holds, it derives the THEN as a fact",
            example: "RULE mortal:\n    WHEN x is human\n    THEN x is mortal",
        },
        Kw::Check => Card {
            form: "CHECK [<subject>] [BIDIRECTIONAL]",
            gloss: "run the query; an optional subject narrows the report",
            example: "CHECK socrates",
        },
        Kw::SetDef => Card {
            form: "SET <name>  then one element per line (>= 1)",
            gloss: "declare a finite set of elements to quantify a PREMISE/RULE over (FOR EACH ... IN)",
            example: "SET tasks\n    deploy\n    backup",
        },
        Kw::Close => Card {
            form: "CLOSE <relation> TRANSITIVE",
            gloss: "make a relation transitive at compile time (a->b, b->c implies a->c); a cycle is an error",
            example: "CLOSE depends_on TRANSITIVE",
        },
        Kw::Var => Card {
            form: "VAR <name> [DEFAULT true|false]",
            gloss: "declare an external boolean port (a bare proposition); its value comes from CLI/API/data, else DEFAULT, else UNKNOWN",
            example: "VAR db_ready DEFAULT false",
        },
        Kw::Provide => Card {
            form: "PROVIDE [<domain>.]<port|atom>: true|false",
            gloss: "bind an external value (a VAR port, or an atom); a domain. prefix disambiguates across imports. In a --data file or alongside the program",
            example: "PROVIDE db_ready: true",
        },
        Kw::Import => Card {
            form: "IMPORT \"<path>\" [AS <alias>]",
            gloss: "pull in another .vrf source for reuse; its atoms are named <domain>.<atom>",
            example: "IMPORT \"physics.vrf\"",
        },
        Kw::As => Card {
            form: "IMPORT \"<path>\" AS <alias>",
            gloss: "give the imported domain a local name to reference it by",
            example: "IMPORT \"physics.vrf\" AS phys",
        },
        Kw::For => Card {
            form: "PREMISE <name> FOR EACH <binder> IN <set>:  then the usual body",
            gloss: "quantify a PREMISE/RULE: instantiate its body once per element of <set>, binding <binder>",
            example: "PREMISE colored FOR EACH n IN nodes:\n    ONEOF\n        n is red\n        n is blue",
        },
        Kw::Each => Card {
            form: "FOR EACH <binder> IN <set>",
            gloss: "part of the FOR EACH ... IN quantifier on a PREMISE/RULE header",
            example: "FOR EACH t IN tasks",
        },
        Kw::In => Card {
            form: "FOR EACH <binder> IN <set>",
            gloss: "names the declared SET a FOR EACH quantifier ranges over",
            example: "FOR EACH t IN tasks",
        },
        Kw::When => Card {
            form: "WHEN <literal>   (literal = [NOT] <Subject> <predicate> [<object>])",
            gloss: "the condition (if-part) of an implication; continue with AND/OR",
            example: "WHEN motor over_100",
        },
        Kw::Then => Card {
            form: "THEN <literal>",
            gloss: "the conclusion (then-part) of an implication; continue with AND/OR",
            example: "THEN motor uses fast_path",
        },
        Kw::Unless => Card {
            form: "RULE … THEN <literal> UNLESS <literal>  (one UNLESS per line, repeatable)",
            gloss: "a defeasible exception on a RULE: the rule derives its THEN by default, but is suppressed when an UNLESS literal is established TRUE (FALSE/UNKNOWN lets the default stand)",
            example: "RULE fly:\n    WHEN x is bird\n    THEN x can_fly\n    UNLESS x is penguin",
        },
        Kw::And => Card {
            form: "AND <literal>",
            gloss: "extend the current WHEN or THEN group (all must hold); do not mix with OR",
            example: "AND motor is reviewed",
        },
        Kw::Or => Card {
            form: "OR <literal>",
            gloss: "extend the current WHEN or THEN group (at least one holds); do not mix with AND",
            example: "OR motor is hotfixed",
        },
        Kw::Exclusive => Card {
            form: "EXCLUSIVE  then one atom per line (>= 2 atoms)",
            gloss: "at most one of the listed atoms may be TRUE",
            example: "EXCLUSIVE\n    light is on\n    light is off",
        },
        Kw::Forbids => Card {
            form: "FORBIDS  then one atom per line (>= 2 atoms)",
            gloss: "at most one may be TRUE (a synonym of EXCLUSIVE)",
            example: "FORBIDS\n    door is open\n    door is locked",
        },
        Kw::OneOf => Card {
            form: "ONEOF  then one atom per line (>= 2 atoms)",
            gloss: "exactly one of the listed atoms is TRUE",
            example: "ONEOF\n    mode is idle\n    mode is run",
        },
        Kw::AtLeast => Card {
            form: "ATLEAST  then one atom per line (>= 2 atoms)",
            gloss: "at least one of the listed atoms is TRUE",
            example: "ATLEAST\n    plan has tests\n    plan has review",
        },
        Kw::Exists => Card {
            form: "EXISTS <binder> IN <set>  then one condition line using the binder",
            gloss: "at least one element satisfies the condition (the existential; the dual of FOR EACH)",
            example: "EXISTS h IN handlers\n    h handles request",
        },
        Kw::Witness => Card {
            form: "EXISTS <binder> WITNESS <term>  then one condition line using the binder",
            gloss: "prove EXISTS by naming the one element that satisfies it — needs no SET; grounds to a single atom",
            example: "EXISTS h WITNESS auth_service\n    h is ready",
        },
        Kw::Because => Card {
            form: "FACT <atom> BECAUSE <atom>",
            gloss: "name the ground a FACT rests on; the engine checks it holds (ground FALSE -> CONFLICT, UNKNOWN -> WARNING)",
            example: "FACT api healthy BECAUSE db reachable",
        },
        Kw::Bidirectional => Card {
            form: "CHECK [<subject>] BIDIRECTIONAL",
            gloss: "a CHECK modifier: also run the backward pass (finds UNDERDETERMINED)",
            example: "CHECK BIDIRECTIONAL",
        },
        Kw::Transitive => Card {
            form: "CLOSE <relation> TRANSITIVE",
            gloss: "the closure kind for CLOSE: a->b and b->c implies a->c (a cycle is an error)",
            example: "CLOSE depends_on TRANSITIVE",
        },
        Kw::Symmetric => Card {
            form: "CLOSE <relation> SYMMETRIC",
            gloss: "a closure kind for CLOSE: a->b implies b->a (a two-way relation)",
            example: "CLOSE conflicts_with SYMMETRIC",
        },
        Kw::Reflexive => Card {
            form: "CLOSE <relation> REFLEXIVE",
            gloss: "a closure kind for CLOSE: add x->x for every node the relation mentions",
            example: "CLOSE compatible_with REFLEXIVE",
        },
        Kw::Equivalence => Card {
            form: "CLOSE <relation> EQUIVALENCE",
            gloss: "a closure kind for CLOSE: reflexive + symmetric + transitive — groups nodes into classes",
            example: "CLOSE same_team EQUIVALENCE",
        },
        Kw::Scc => Card {
            form: "CLOSE <relation> SCC",
            gloss: "a closure kind for CLOSE: group nodes that reach each other (mutual reachability; isolates directed cycles)",
            example: "CLOSE depends_on SCC",
        },
        Kw::Default => Card {
            form: "VAR <name> DEFAULT true|false",
            gloss: "the fallback value of a VAR port when no external value is supplied",
            example: "VAR db_ready DEFAULT false",
        },
    }
}

/// The syntax card of a keyword.
pub fn card(k: Kw) -> (c: Card)
    ensures
        c == card_spec(k),
{
    match k {
        Kw::Domain => Card {
            form: "DOMAIN <name>",
            gloss: "declare this file's domain (required, once, first) — the namespace bare atoms fall into",
            example: "DOMAIN physics",
        },
        Kw::Fact => Card {
            form: "FACT [<domain>.]<Subject> <predicate> [<object>]",
            gloss: "assert an atom is TRUE",
            example: "FACT socrates is human",
        },
        Kw::Not => Card {
            form: "NOT <Subject> <predicate> [<object>]",
            gloss: "assert an atom is FALSE",
            example: "NOT socrates is immortal",
        },
        Kw::Assume => Card {
            form: "ASSUME [NOT] <Subject> <predicate> [<object>]",
            gloss: "a soft, retractable hypothesis (the solver may ask you to drop it)",
            example: "ASSUME release is_ready",
        },
        Kw::Premise => Card {
            form: "PREMISE <name>:  then a list body or a WHEN ... THEN implication",
            gloss: "a checked first principle (a constraint that must hold)",
            example: "PREMISE wings:\n    WHEN bird has feathers\n    THEN bird can_fly",
        },
        Kw::Rule => Card {
            form: "RULE <name>:  then a WHEN ... THEN implication",
            gloss: "an inference rule: when the WHEN holds, it derives the THEN as a fact",
            example: "RULE mortal:\n    WHEN x is human\n    THEN x is mortal",
        },
        Kw::Check => Card {
            form: "CHECK [<subject>] [BIDIRECTIONAL]",
            gloss: "run the query; an optional subject narrows the report",
            example: "CHECK socrates",
        },
        Kw::SetDef => Card {
            form: "SET <name>  then one element per line (>= 1)",
            gloss: "declare a finite set of elements to quantify a PREMISE/RULE over (FOR EACH ... IN)",
            example: "SET tasks\n    deploy\n    backup",
        },
        Kw::Close => Card {
            form: "CLOSE <relation> TRANSITIVE",
            gloss: "make a relation transitive at compile time (a->b, b->c implies a->c); a cycle is an error",
            example: "CLOSE depends_on TRANSITIVE",
        },
        Kw::Var => Card {
            form: "VAR <name> [DEFAULT true|false]",
            gloss: "declare an external boolean port (a bare proposition); its value comes from CLI/API/data, else DEFAULT, else UNKNOWN",
            example: "VAR db_ready DEFAULT false",
        },
        Kw::Provide => Card {
            form: "PROVIDE [<domain>.]<port|atom>: true|false",
            gloss: "bind an external value (a VAR port, or an atom); a domain. prefix disambiguates across imports. In a --data file or alongside the program",
            example: "PROVIDE db_ready: true",
        },
        Kw::Import => Card {
            form: "IMPORT \"<path>\" [AS <alias>]",
            gloss: "pull in another .vrf source for reuse; its atoms are named <domain>.<atom>",
            example: "IMPORT \"physics.vrf\"",
        },
        Kw::As => Card {
            form: "IMPORT \"<path>\" AS <alias>",
            gloss: "give the imported domain a local name to reference it by",
            example: "IMPORT \"physics.vrf\" AS phys",
        },
        Kw::For => Card {
            form: "PREMISE <name> FOR EACH <binder> IN <set>:  then the usual body",
            gloss: "quantify a PREMISE/RULE: instantiate its body once per element of <set>, binding <binder>",
            example: "PREMISE colored FOR EACH n IN nodes:\n    ONEOF\n        n is red\n        n is blue",
        },
        Kw::Each => Card {
            form: "FOR EACH <binder> IN <set>",
            gloss: "part of the FOR EACH ... IN quantifier on a PREMISE/RULE header",
            example: "FOR EACH t IN tasks",
        },
        Kw::In => Card {
            form: "FOR EACH <binder> IN <set>",
            gloss: "names the declared SET a FOR EACH quantifier ranges over",
            example: "FOR EACH t IN tasks",
        },
        Kw::When => Card {
            form: "WHEN <literal>   (literal = [NOT] <Subject> <predicate> [<object>])",
            gloss: "the condition (if-part) of an implication; continue with AND/OR",
            example: "WHEN motor over_100",
        },
        Kw::Then => Card {
            form: "THEN <literal>",
            gloss: "the conclusion (then-part) of an implication; continue with AND/OR",
            example: "THEN motor uses fast_path",
        },
        Kw::Unless => Card {
            form: "RULE … THEN <literal> UNLESS <literal>  (one UNLESS per line, repeatable)",
            gloss: "a defeasible exception on a RULE: the rule derives its THEN by default, but is suppressed when an UNLESS literal is established TRUE (FALSE/UNKNOWN lets the default stand)",
            example: "RULE fly:\n    WHEN x is bird\n    THEN x can_fly\n    UNLESS x is penguin",
        },
        Kw::And => Card {
            form: "AND <literal>",
            gloss: "extend the current WHEN or THEN group (all must hold); do not mix with OR",
            example: "AND motor is reviewed",
        },
        Kw::Or => Card {
            form: "OR <literal>",
            gloss: "extend the current WHEN or THEN group (at least one holds); do not mix with AND",
            example: "OR motor is hotfixed",
        },
        Kw::Exclusive => Card {
            form: "EXCLUSIVE  then one atom per line (>= 2 atoms)",
            gloss: "at most one of the listed atoms may be TRUE",
            example: "EXCLUSIVE\n    light is on\n    light is off",
        },
        Kw::Forbids => Card {
            form: "FORBIDS  then one atom per line (>= 2 atoms)",
            gloss: "at most one may be TRUE (a synonym of EXCLUSIVE)",
            example: "FORBIDS\n    door is open\n    door is locked",
        },
        Kw::OneOf => Card {
            form: "ONEOF  then one atom per line (>= 2 atoms)",
            gloss: "exactly one of the listed atoms is TRUE",
            example: "ONEOF\n    mode is idle\n    mode is run",
        },
        Kw::AtLeast => Card {
            form: "ATLEAST  then one atom per line (>= 2 atoms)",
            gloss: "at least one of the listed atoms is TRUE",
            example: "ATLEAST\n    plan has tests\n    plan has review",
        },
        Kw::Exists => Card {
            form: "EXISTS <binder> IN <set>  then one condition line using the binder",
            gloss: "at least one element satisfies the condition (the existential; the dual of FOR EACH)",
            example: "EXISTS h IN handlers\n    h handles request",
        },
        Kw::Witness => Card {
            form: "EXISTS <binder> WITNESS <term>  then one condition line using the binder",
            gloss: "prove EXISTS by naming the one element that satisfies it — needs no SET; grounds to a single atom",
            example: "EXISTS h WITNESS auth_service\n    h is ready",
        },
        Kw::Because => Card {
            form: "FACT <atom> BECAUSE <atom>",
            gloss: "name the ground a FACT rests on; the engine checks it holds (ground FALSE -> CONFLICT, UNKNOWN -> WARNING)",
            example: "FACT api healthy BECAUSE db reachable",
        },
        Kw::Bidirectional => Card {
            form: "CHECK [<subject>] BIDIRECTIONAL",
            gloss: "a CHECK modifier: also run the backward pass (finds UNDERDETERMINED)",
            example: "CHECK BIDIRECTIONAL",
        },
        Kw::Transitive => Card {
            form: "CLOSE <relation> TRANSITIVE",
            gloss: "the closure kind for CLOSE: a->b and b->c implies a->c (a cycle is an error)",
            example: "CLOSE depends_on TRANSITIVE",
        },
        Kw::Symmetric => Card {
            form: "CLOSE <relation> SYMMETRIC",
            gloss: "a closure kind for CLOSE: a->b implies b->a (a two-way relation)",
            example: "CLOSE conflicts_with SYMMETRIC",
        },
        Kw::Reflexive => Card {
            form: "CLOSE <relation> REFLEXIVE",
            gloss: "a closure kind for CLOSE: add x->x for every node the relation mentions",
            example: "CLOSE compatible_with REFLEXIVE",
        },
        Kw::Equivalence => Card {
            form: "CLOSE <relation> EQUIVALENCE",
            gloss: "a closure kind for CLOSE: reflexive + symmetric + transitive — groups nodes into classes",
            example: "CLOSE same_team EQUIVALENCE",
        },
        Kw::Scc => Card {
            form: "CLOSE <relation> SCC",
            gloss: "a closure kind for CLOSE: group nodes that reach each other (mutual reachability; isolates directed cycles)",
            example: "CLOSE depends_on SCC",
        },
        Kw::Default => Card {
            form: "VAR <name> DEFAULT true|false",
            gloss: "the fallback value of a VAR port when no external value is supplied",
            example: "VAR db_ready DEFAULT false",
        },
    }
}

/// The table entry of one keyword.
pub fn keyword(k: Kw) -> (r: Keyword)
    ensures
        r.text@ == kw_spec(k),
        r.top_level == kw_top_level(k),
        r.card == card_spec(k),
{
    proof {
        lemma_kw_index(k);
    }
    Keyword { text: kw_text(k), top_level: kw_is_top_level(k), card: card(k) }
}

/// Whether a keyword may begin a top-level statement.
pub fn kw_is_top_level(k: Kw) -> (r: bool)
    ensures
        r == kw_top_level(k),
{
    match k {
        Kw::Domain => true,
        Kw::Fact => true,
        Kw::Not => true,
        Kw::Assume => true,
        Kw::Premise => true,
        Kw::Rule => true,
        Kw::Check => true,
        Kw::SetDef => true,
        Kw::Close => true,
        Kw::Var => true,
        Kw::Provide => true,
        Kw::Import => true,
        Kw::As => false,
        Kw::For => false,
        Kw::Each => false,
        Kw::In => false,
        Kw::When => false,
        Kw::Then => false,
        Kw::Unless => false,
        Kw::And => false,
        Kw::Or => false,
        Kw::Exclusive => false,
        Kw::Forbids => false,
        Kw::OneOf => false,
        Kw::AtLeast => false,
        Kw::Exists => false,
        Kw::Witness => false,
        Kw::Because => false,
        Kw::Bidirectional => false,
        Kw::Transitive => false,
        Kw::Symmetric => false,
        Kw::Reflexive => false,
        Kw::Equivalence => false,
        Kw::Scc => false,
        Kw::Default => false,
    }
}

/// Every keyword, in teaching order (the top-level statements first).
pub fn keywords() -> (r: Vec<Keyword>)
    ensures
        r@.len() == KW_COUNT,
        forall|i: int|
            0 <= i < KW_COUNT ==> {
                &&& (#[trigger] r@[i]).text@ == kw_spec(kw_at(i))
                &&& r@[i].top_level == kw_top_level(kw_at(i))
                &&& r@[i].card == card_spec(kw_at(i))
            },
{
    let mut r: Vec<Keyword> = Vec::new();
    let mut i: usize = 0;
    while i < KW_COUNT
        invariant
            i <= KW_COUNT,
            r@.len() == i,
            forall|j: int|
                0 <= j < i ==> {
                    &&& (#[trigger] r@[j]).text@ == kw_spec(kw_at(j))
                    &&& r@[j].top_level == kw_top_level(kw_at(j))
                    &&& r@[j].card == card_spec(kw_at(j))
                },
        decreases KW_COUNT - i,
    {
        r.push(keyword(kw_by_index(i)));
        i = i + 1;
    }
    r
}

/// The keywords that may begin a top-level statement, in teaching order.
pub fn top_level_forms() -> (r: Vec<Keyword>)
    ensures
        r@.len() == TOP_LEVEL_COUNT,
        forall|i: int|
            0 <= i < TOP_LEVEL_COUNT ==> {
                &&& (#[trigger] r@[i]).text@ == kw_spec(kw_at(i))
                &&& kw_top_level(kw_at(i))
                &&& r@[i].top_level
                &&& r@[i].card == card_spec(kw_at(i))
            },
{
    let mut r: Vec<Keyword> = Vec::new();
    let mut i: usize = 0;
    while i < TOP_LEVEL_COUNT
        invariant
            i <= TOP_LEVEL_COUNT,
            r@.len() == i,
            forall|j: int|
                0 <= j < i ==> {
                    &&& (#[trigger] r@[j]).text@ == kw_spec(kw_at(j))
                    &&& kw_top_level(kw_at(j))
                    &&& r@[j].top_level
                    &&& r@[j].card == card_spec(kw_at(j))
                },
        decreases TOP_LEVEL_COUNT - i,
    {
        proof {
            lemma_kw_index(kw_at(i as int));
            lemma_kw_at(i as int);
        }
        r.push(keyword(kw_by_index(i)));
        i = i + 1;
    }
    r
}

/// The keyword spelled exactly `w`, if any.
pub fn lookup_keyword(w: &[char]) -> (r: Option<Kw>)
    ensures
        match r {
            Some(k) => kw_spec(k) == w@,
            None => !is_keyword(w@),
        },
{
    let mut i: usize = 0;
    while i < KW_COUNT
        invariant
            i <= KW_COUNT,
            forall|j: int| 0 <= j < i ==> kw_spec(#[trigger] kw_at(j)) != w@,
        decreases KW_COUNT - i,
    {
        let k = kw_by_index(i);
        let t = kw_chars(k);
        if chars_eq(t.as_slice(), w) {
            return Some(k);
        }
        i = i + 1;
    }
    proof {
        assert forall|k: Kw| kw_spec(k) != w@ by {
            lemma_kw_index(k);
            assert(kw_spec(kw_at(kw_index(k))) != w@);
        }
    }
    None
}

/// Whether `word` is a reserved keyword (an identifier may not equal one).
pub fn is_reserved(word: &str) -> (r: bool)
    ensures
        r == is_keyword(word@),
{
    let w = chars_of(word);
    lookup_keyword(w.as_slice()).is_some()
}

/// Whether `word` can begin a top-level statement (used by recovery resync).
pub fn is_top_level(word: &str) -> (r: bool)
    ensures
        r == exists|k: Kw| kw_spec(k) == word@ && kw_top_level(k),
{
    let w = chars_of(word);
    match lookup_keyword(w.as_slice()) {
        Some(k) => {
            proof {
                assert forall|k2: Kw| kw_spec(k2) == word@ implies k2 == k by {
                    lemma_kw_spec_injective(k, k2);
                }
            }
            kw_is_top_level(k)
        },
        None => false,
    }
}

/// The syntax card for `word`, or `None` if it is not a keyword.
pub fn card_for(word: &str) -> (r: Option<Card>)
    ensures
        match r {
            Some(c) => exists|k: Kw| kw_spec(k) == word@ && c == card_spec(k),
            None => !is_keyword(word@),
        },
{
    let w = chars_of(word);
    match lookup_keyword(w.as_slice()) {
        Some(k) => Some(card(k)),
        None => None,
    }
}

/// The statement menu: the top-level keywords of the first `n` teaching
/// positions joined by `", "`, with `"or "` before the last of all of them.
pub open spec fn menu_prefix(n: nat) -> Seq<char>
    decreases n,
{
    if n == 0 {
        Seq::empty()
    } else if n == 1 {
        kw_spec(kw_at(0))
    } else {
        let sep: Seq<char> = if n == TOP_LEVEL_COUNT {
            seq![',', ' ', 'o', 'r', ' ']
        } else {
            seq![',', ' ']
        };
        menu_prefix((n - 1) as nat) + sep + kw_spec(kw_at(n - 1))
    }
}

/// Every statement keyword as one readable list, e.g. `DOMAIN, FACT, ..., or
/// IMPORT` (used by the "expected a statement" message).
pub fn top_level_menu() -> (r: String)
    ensures
        r@ == menu_prefix(TOP_LEVEL_COUNT as nat),
{
    let mut out = String::new();
    let mut i: usize = 0;
    while i < TOP_LEVEL_COUNT
        invariant
            i <= TOP_LEVEL_COUNT,
            out@ == menu_prefix(i as nat),
        decreases TOP_LEVEL_COUNT - i,
    {
        let ghost before = out@;
        if i > 0 {
            crate::text::push_char(&mut out, ',');
            crate::text::push_char(&mut out, ' ');
            if i + 1 == TOP_LEVEL_COUNT {
                crate::text::push_char(&mut out, 'o');
                crate::text::push_char(&mut out, 'r');
                crate::text::push_char(&mut out, ' ');
            }
        }
        let k = kw_by_index(i);
        let w = kw_chars(k);
        crate::text::push_chars(&mut out, w.as_slice());
        proof {
            if i > 0 {
                let sep: Seq<char> = if i + 1 == TOP_LEVEL_COUNT {
                    seq![',', ' ', 'o', 'r', ' ']
                } else {
                    seq![',', ' ']
                };
                assert(out@ =~= before + sep + kw_spec(kw_at(i as int)));
            } else {
                assert(out@ =~= kw_spec(kw_at(0)));
            }
        }
        i = i + 1;
    }
    out
}

} // verus!
