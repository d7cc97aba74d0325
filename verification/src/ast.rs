//! The abstract syntax tree a `.vrf` source parses into, and the structural
//! guarantees the grammar gives about it (every name is a valid, non-reserved
//! identifier; list bodies hold at least two atoms; and so on).
use vstd::prelude::*;
use crate::keywords::is_keyword;
use crate::text::{ascii_letter, ascii_word_char, char_alphabetic, char_alphanumeric};

verus! {

/// Data together with the place in the source where its construct starts.
#[derive(Debug, Clone, PartialEq, Eq)]
pub struct Located<T> {
    /// The parsed data.
    pub data: T,
    /// 1-based line of the start of the construct.
    pub line: usize,
    /// 1-based column (in characters) of the start of the construct.
    pub col: usize,
}

/// An atom: the triple `(subject, predicate?, object?)`, optionally qualified by
/// a domain (`physics.engine has fuel`). The object is part of identity.
#[derive(Debug, Clone, PartialEq, Eq)]
pub struct Atom {
    /// The `domain.` prefix on the subject, if written.
    pub domain: Option<String>,
    /// The entity the claim is about.
    pub subject: String,
    /// The relation or property; `None` for a bare proposition (a `VAR` port).
    pub predicate: Option<String>,
    /// The value the predicate relates the subject to; only with a predicate.
    pub object: Option<String>,
}

/// An atom, optionally negated (`NOT ...`).
#[derive(Debug, Clone, PartialEq, Eq)]
pub struct Literal {
    /// `true` when written with a leading `NOT`.
    pub negated: bool,
    /// The underlying atom.
    pub atom: Atom,
}

/// The list-constraint operators of a list `PREMISE`.
#[derive(Debug, Clone, Copy, PartialEq, Eq, Structural)]
pub enum ListOp {
    /// `EXCLUSIVE` — at most one of the atoms is TRUE (pairwise).
    Exclusive,
    /// `FORBIDS` — a synonym of `EXCLUSIVE`.
    Forbids,
    /// `ONEOF` — exactly one is TRUE.
    OneOf,
    /// `ATLEAST` — at least one is TRUE.
    AtLeast,
}

/// How the literals of a `WHEN`/`THEN` group combine.
#[derive(Debug, Clone, Copy, PartialEq, Eq, Structural)]
pub enum Conn {
    /// `AND` continuation lines (also a single-literal group).
    And,
    /// `OR` continuation lines.
    Or,
}

/// A `FOR EACH` quantifier on a `PREMISE`/`RULE` header.
#[derive(Debug, Clone, PartialEq, Eq)]
pub enum Quant {
    /// `FOR EACH <binder> IN <set>`.
    InSet {
        /// The name bound inside the body.
        binder: Located<String>,
        /// The declared set ranged over.
        set: Located<String>,
    },
    /// `FOR EACH <left> <predicate> <right>` — over the declared FACT pairs.
    Relation {
        /// Bound to each matching fact's subject.
        left: Located<String>,
        /// The relation predicate.
        predicate: Located<String>,
        /// Bound to each matching fact's object.
        right: Located<String>,
    },
}

/// Which closure a `CLOSE` statement applies to a relation.
#[derive(Debug, Clone, Copy, PartialEq, Eq, Structural)]
pub enum CloseKind {
    /// `TRANSITIVE` — `a→b`, `b→c` gives `a→c` (requires a DAG).
    Transitive,
    /// `SYMMETRIC` — `a→b` gives `b→a`.
    Symmetric,
    /// `REFLEXIVE` — `x→x` for every node the relation mentions.
    Reflexive,
    /// `EQUIVALENCE` — reflexive + symmetric + transitive.
    Equivalence,
    /// `SCC` — mutual reachability (strongly connected grouping).
    Scc,
}

/// The body of a `PREMISE` or `RULE`.
#[derive(Debug, Clone, PartialEq, Eq)]
pub enum Body {
    /// `EXCLUSIVE`/`FORBIDS`/`ONEOF`/`ATLEAST` over at least two atoms.
    List {
        /// Which list constraint.
        op: ListOp,
        /// The atoms (at least two).
        atoms: Vec<Located<Atom>>,
    },
    /// `WHEN … THEN …` — antecedent and consequent groups.
    Impl {
        /// The conditions.
        antecedent: Vec<Located<Literal>>,
        /// How the conditions combine.
        ante_conn: Conn,
        /// The results.
        consequent: Vec<Located<Literal>>,
        /// How the results combine.
        cons_conn: Conn,
    },
    /// `EXISTS <binder> IN <set>` then one condition atom using the binder.
    Exists {
        /// The name bound in the condition.
        binder: Located<String>,
        /// The declared set ranged over.
        set: Located<String>,
        /// The condition atom.
        atom: Located<Atom>,
    },
}

/// A top-level statement.
#[derive(Debug, Clone, PartialEq, Eq)]
pub enum Statement {
    /// `DOMAIN <name>`.
    Domain(Located<String>),
    /// `IMPORT "path" [AS <alias>]`.
    Import {
        /// The quoted path.
        path: Located<String>,
        /// The local alias, if `AS <alias>` was given.
        alias: Option<Located<String>>,
    },
    /// `FACT <atom>` — a TRUE assertion.
    Fact(Located<Atom>),
    /// `NOT <atom>` — a FALSE assertion.
    Negation(Located<Atom>),
    /// `ASSUME [NOT] <atom>` — a soft, retractable assertion.
    Assume(Located<Literal>),
    /// `SET <name>` then one element per line.
    SetDecl {
        /// The set's name.
        name: Located<String>,
        /// Its elements (at least one).
        elements: Vec<Located<String>>,
    },
    /// `CLOSE <relation> <kind>`.
    Close {
        /// The relation predicate to close.
        relation: Located<String>,
        /// Which closure to apply.
        kind: CloseKind,
    },
    /// `VAR <name> [DEFAULT true|false]` — an external boolean port.
    Var {
        /// The port's name.
        name: Located<String>,
        /// The `DEFAULT` fallback, if written.
        default: Option<bool>,
    },
    /// `PROVIDE [<domain>.]<port|atom>: true|false` — bind an external value.
    Provide {
        /// The port or atom bound.
        atom: Located<Atom>,
        /// The value bound to it.
        value: bool,
    },
    /// `PREMISE <name> [FOR EACH …]:` then a body — a checked principle.
    Premise {
        /// The premise's label.
        name: Located<String>,
        /// The optional quantifier.
        quant: Option<Quant>,
        /// The constraint.
        body: Body,
    },
    /// `RULE <name> [FOR EACH …]:` then `WHEN … THEN` — a fact-producing rule.
    Rule {
        /// The rule's label.
        name: Located<String>,
        /// The optional quantifier.
        quant: Option<Quant>,
        /// Always an implication body.
        body: Body,
    },
    /// `CHECK [subject] [BIDIRECTIONAL]`.
    Check {
        /// The subject the report is narrowed to, if any.
        subject: Option<Located<String>>,
        /// Whether the backward pass runs.
        bidirectional: bool,
    },
}

/// A parsed program: its statements in source order.
#[derive(Debug, Clone, PartialEq, Eq)]
pub struct Program {
    /// Top-level statements in source order.
    pub statements: Vec<Statement>,
}

// --- the grammar's structural guarantees ------------------------------------

/// A character an identifier may start with: a letter of any script (for
/// ASCII, `a..z` and `A..Z`).
pub open spec fn ident_start(c: char) -> bool {
    if (c as int) < 128 {
        ascii_letter(c)
    } else {
        char_alphabetic(c)
    }
}

/// A character an identifier may continue with: a letter or digit of any
/// script, or `_`.
pub open spec fn ident_char(c: char) -> bool {
    if (c as int) < 128 {
        ascii_word_char(c)
    } else {
        char_alphanumeric(c)
    }
}

/// A word shaped like an identifier (it may still be a reserved keyword).
pub open spec fn ident_word(w: Seq<char>) -> bool {
    &&& w.len() > 0
    &&& ident_start(w[0])
    &&& forall|i: int| 1 <= i < w.len() ==> ident_char(#[trigger] w[i])
}

/// A valid identifier: identifier-shaped and not a reserved keyword.
pub open spec fn valid_ident(w: Seq<char>) -> bool {
    ident_word(w) && !is_keyword(w)
}

/// A located name that is a valid identifier at a real position.
pub open spec fn wf_name(l: Located<String>) -> bool {
    valid_ident(l.data@) && l.line >= 1 && l.col >= 1
}

/// An optional located name, valid when present.
pub open spec fn wf_opt_name(l: Option<Located<String>>) -> bool {
    match l {
        Some(n) => wf_name(n),
        None => true,
    }
}

/// An optional identifier, valid when present.
pub open spec fn wf_opt_ident(w: Option<String>) -> bool {
    match w {
        Some(s) => valid_ident(s@),
        None => true,
    }
}

/// A well-formed atom: every part is a valid identifier and an object only
/// follows a predicate.
pub open spec fn wf_atom(a: Atom) -> bool {
    &&& wf_opt_ident(a.domain)
    &&& valid_ident(a.subject@)
    &&& wf_opt_ident(a.predicate)
    &&& wf_opt_ident(a.object)
    &&& (a.object is Some ==> a.predicate is Some)
}

/// A well-formed located atom.
pub open spec fn wf_located_atom(a: Located<Atom>) -> bool {
    wf_atom(a.data) && a.line >= 1 && a.col >= 1
}

/// A well-formed located literal.
pub open spec fn wf_located_literal(l: Located<Literal>) -> bool {
    wf_atom(l.data.atom) && l.line >= 1 && l.col >= 1
}

/// A well-formed quantifier.
pub open spec fn wf_quant(q: Quant) -> bool {
    match q {
        Quant::InSet { binder, set } => wf_name(binder) && wf_name(set),
        Quant::Relation { left, predicate, right } => wf_name(left) && wf_name(predicate)
            && wf_name(right),
    }
}

/// A well-formed body: list bodies hold at least two atoms, implications at
/// least one literal on each side.
pub open spec fn wf_body(b: Body) -> bool {
    match b {
        Body::List { op, atoms } => atoms@.len() >= 2 && forall|i: int|
            0 <= i < atoms@.len() ==> wf_located_atom(#[trigger] atoms@[i]),
        Body::Impl { antecedent, ante_conn, consequent, cons_conn } => {
            &&& antecedent@.len() >= 1
            &&& consequent@.len() >= 1
            &&& forall|i: int|
                0 <= i < antecedent@.len() ==> wf_located_literal(#[trigger] antecedent@[i])
            &&& forall|i: int|
                0 <= i < consequent@.len() ==> wf_located_literal(#[trigger] consequent@[i])
        },
        Body::Exists { binder, set, atom } => wf_name(binder) && wf_name(set)
            && wf_located_atom(atom),
    }
}

/// A well-formed optional quantifier.
pub open spec fn wf_opt_quant(q: Option<Quant>) -> bool {
    match q {
        Some(q) => wf_quant(q),
        None => true,
    }
}

/// A well-formed statement, as the grammar guarantees it.
pub open spec fn wf_statement(s: Statement) -> bool {
    match s {
        Statement::Domain(n) => wf_name(n),
        Statement::Import { path, alias } => {
            &&& path.line >= 1
            &&& forall|i: int|
                0 <= i < path.data@.len() ==> #[trigger] path.data@[i] != '"' && path.data@[i]
                    != '\n'
            &&& wf_opt_name(alias)
        },
        Statement::Fact(a) => wf_located_atom(a),
        Statement::Negation(a) => wf_located_atom(a),
        Statement::Assume(l) => wf_located_literal(l),
        Statement::SetDecl { name, elements } => {
            &&& wf_name(name)
            &&& elements@.len() >= 1
            &&& forall|i: int| 0 <= i < elements@.len() ==> wf_name(#[trigger] elements@[i])
        },
        Statement::Close { relation, kind } => wf_name(relation),
        Statement::Var { name, default } => wf_name(name),
        Statement::Provide { atom, value } => wf_located_atom(atom),
        Statement::Premise { name, quant, body } => wf_name(name) && wf_opt_quant(quant)
            && wf_body(body),
        Statement::Rule { name, quant, body } => wf_name(name) && wf_opt_quant(quant) && wf_body(
            body,
        ) && body is Impl,
        Statement::Check { subject, bidirectional } => wf_opt_name(subject),
    }
}

/// A well-formed program: every statement is well-formed.
pub open spec fn wf_program(p: Program) -> bool {
    forall|i: int| 0 <= i < p.statements@.len() ==> wf_statement(#[trigger] p.statements@[i])
}

} // verus!
