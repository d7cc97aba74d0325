//! The compiled intermediate representation: the solver's input. Atoms are
//! interned into dense ids in one canonical order, and every constraint is an
//! `Impossible` clause over literals of those ids.
use vstd::prelude::*;
use crate::text::{
    Order, chars_of_string, compare_chars, lemma_seq_lt_irrefl, lemma_seq_lt_total,
    lemma_seq_lt_trans, seq_lt,
};

verus! {

/// Dense atom identifier (also the SAT variable number).
pub type AtomId = u32;

/// The identity of an atom: the `domain` plus the triple
/// `(subject, predicate?, object?)`. The domain is the leading sort key, so
/// atoms group by domain; the order is otherwise lexicographic, with an absent
/// predicate or object ordering before any present one. Two atoms with the same
/// triple in different domains are distinct.
#[derive(Debug, Clone, PartialEq, Eq, PartialOrd, Ord)]
pub struct AtomKey {
    /// The (canonical, never aliased) domain the atom belongs to.
    pub domain: String,
    /// The entity the claim is about.
    pub subject: String,
    /// The relation or property; `None` for a bare proposition (a `VAR` port).
    pub predicate: Option<String>,
    /// Optional object; part of identity. Always `None` when `predicate` is.
    pub object: Option<String>,
}

/// The abstract value of an [`AtomKey`]: its four parts as character sequences.
#[verifier::ext_equal]
pub struct KeyV {
    /// The domain.
    pub domain: Seq<char>,
    /// The subject.
    pub subject: Seq<char>,
    /// The predicate, if any.
    pub predicate: Option<Seq<char>>,
    /// The object, if any.
    pub object: Option<Seq<char>>,
}

/// The characters of an optional string.
pub open spec fn opt_view(o: Option<String>) -> Option<Seq<char>> {
    match o {
        Some(s) => Some(s@),
        None => None,
    }
}

impl View for AtomKey {
    type V = KeyV;

    open spec fn view(&self) -> KeyV {
        KeyV {
            domain: self.domain@,
            subject: self.subject@,
            predicate: opt_view(self.predicate),
            object: opt_view(self.object),
        }
    }
}

/// The order on optional parts: absent first, then lexicographic.
pub open spec fn opt_lt(a: Option<Seq<char>>, b: Option<Seq<char>>) -> bool {
    match (a, b) {
        (None, Some(_)) => true,
        (Some(x), Some(y)) => seq_lt(x, y),
        _ => false,
    }
}

/// The canonical (strict) order on atom identities: by domain, then subject,
/// then predicate, then object.
pub open spec fn key_lt(a: KeyV, b: KeyV) -> bool {
    ||| seq_lt(a.domain, b.domain)
    ||| a.domain == b.domain && seq_lt(a.subject, b.subject)
    ||| a.domain == b.domain && a.subject == b.subject && opt_lt(a.predicate, b.predicate)
    ||| a.domain == b.domain && a.subject == b.subject && a.predicate == b.predicate && opt_lt(
        a.object,
        b.object,
    )
}

/// The three-way comparison `key_lt` induces.
pub open spec fn key_order(a: KeyV, b: KeyV) -> Order {
    if a == b {
        Order::Equal
    } else if key_lt(a, b) {
        Order::Less
    } else {
        Order::Greater
    }
}

proof fn lemma_opt_lt(a: Option<Seq<char>>, b: Option<Seq<char>>, c: Option<Seq<char>>)
    ensures
        !opt_lt(a, a),
        a != b ==> (opt_lt(a, b) || opt_lt(b, a)),
        !(opt_lt(a, b) && opt_lt(b, a)),
        opt_lt(a, b) && opt_lt(b, c) ==> opt_lt(a, c),
{
    match a {
        Some(x) => lemma_seq_lt_irrefl(x),
        None => {},
    }
    match (a, b) {
        (Some(x), Some(y)) => lemma_seq_lt_total(x, y),
        _ => {},
    }
    match (a, b, c) {
        (Some(x), Some(y), Some(z)) => {
            if seq_lt(x, y) && seq_lt(y, z) {
                lemma_seq_lt_trans(x, y, z);
            }
        },
        _ => {},
    }
}

/// `key_lt` is a strict total order on atom identities.
pub proof fn lemma_key_lt(a: KeyV, b: KeyV, c: KeyV)
    ensures
        !key_lt(a, a),
        a != b ==> (key_lt(a, b) || key_lt(b, a)),
        !(key_lt(a, b) && key_lt(b, a)),
        key_lt(a, b) && key_lt(b, c) ==> key_lt(a, c),
{
    lemma_seq_lt_irrefl(a.domain);
    lemma_seq_lt_irrefl(a.subject);
    lemma_seq_lt_total(a.domain, b.domain);
    lemma_seq_lt_total(a.subject, b.subject);
    lemma_seq_lt_total(b.domain, c.domain);
    lemma_seq_lt_total(b.subject, c.subject);
    lemma_seq_lt_total(a.domain, c.domain);
    lemma_seq_lt_total(a.subject, c.subject);
    lemma_opt_lt(a.predicate, b.predicate, c.predicate);
    lemma_opt_lt(a.object, b.object, c.object);
    lemma_opt_lt(a.predicate, a.predicate, a.predicate);
    lemma_opt_lt(a.object, a.object, a.object);
    if seq_lt(a.domain, b.domain) && seq_lt(b.domain, c.domain) {
        lemma_seq_lt_trans(a.domain, b.domain, c.domain);
    }
    if seq_lt(a.subject, b.subject) && seq_lt(b.subject, c.subject) {
        lemma_seq_lt_trans(a.subject, b.subject, c.subject);
    }
    if a != b {
        if a.domain == b.domain && a.subject == b.subject && a.predicate == b.predicate
            && a.object == b.object {
            assert(a =~= b);
        }
    }
}

/// A sequence of atom identities in strictly increasing canonical order (so
/// also free of duplicates).
pub open spec fn keys_sorted(s: Seq<KeyV>) -> bool {
    forall|i: int, j: int| 0 <= i < j < s.len() ==> key_lt(#[trigger] s[i], #[trigger] s[j])
}

/// Three-way comparison of optional strings.
fn compare_opt(a: &Option<String>, b: &Option<String>) -> (r: Order)
    ensures
        r == (if opt_view(*a) == opt_view(*b) {
            Order::Equal
        } else if opt_lt(opt_view(*a), opt_view(*b)) {
            Order::Less
        } else {
            Order::Greater
        }),
{
    proof {
        lemma_opt_lt(opt_view(*a), opt_view(*b), opt_view(*b));
    }
    match (a, b) {
        (None, None) => Order::Equal,
        (None, Some(_)) => Order::Less,
        (Some(_), None) => Order::Greater,
        (Some(x), Some(y)) => {
            let xs = chars_of_string(x);
            let ys = chars_of_string(y);
            compare_chars(xs.as_slice(), ys.as_slice())
        },
    }
}

/// Three-way comparison of two strings by their characters.
pub fn compare_strings(a: &String, b: &String) -> (r: Order)
    ensures
        r == (if a@ == b@ {
            Order::Equal
        } else if seq_lt(a@, b@) {
            Order::Less
        } else {
            Order::Greater
        }),
{
    let xs = chars_of_string(a);
    let ys = chars_of_string(b);
    compare_chars(xs.as_slice(), ys.as_slice())
}

/// Three-way comparison of two atom identities in canonical order.
pub fn compare_keys(a: &AtomKey, b: &AtomKey) -> (r: Order)
    ensures
        r == key_order(a@, b@),
{
    proof {
        lemma_key_lt(a@, b@, b@);
    }
    match compare_strings(&a.domain, &b.domain) {
        Order::Less => Order::Less,
        Order::Greater => Order::Greater,
        Order::Equal => match compare_strings(&a.subject, &b.subject) {
            Order::Less => Order::Less,
            Order::Greater => Order::Greater,
            Order::Equal => match compare_opt(&a.predicate, &b.predicate) {
                Order::Less => Order::Less,
                Order::Greater => Order::Greater,
                Order::Equal => {
                    let r = compare_opt(&a.object, &b.object);
                    proof {
                        if r == Order::Equal {
                            assert(a@ =~= b@);
                        }
                    }
                    r
                },
            },
        },
    }
}

/// An owned copy of an atom identity.
pub fn copy_key(k: &AtomKey) -> (r: AtomKey)
    ensures
        r@ == k@,
{
    AtomKey {
        domain: k.domain.clone(),
        subject: k.subject.clone(),
        predicate: copy_opt(&k.predicate),
        object: copy_opt(&k.object),
    }
}

/// An owned copy of an optional string.
pub fn copy_opt(o: &Option<String>) -> (r: Option<String>)
    ensures
        opt_view(r) == opt_view(*o),
{
    match o {
        Some(s) => Some(s.clone()),
        None => None,
    }
}

/// A literal inside an `Impossible` clause: an atom, optionally negated.
#[derive(Debug, Clone, Copy, PartialEq, Eq, Structural)]
pub struct Lit {
    /// Interned id of the atom (also its SAT variable number).
    pub atom: AtomId,
    /// `true` means the literal is `NOT atom` inside the clause.
    pub negated: bool,
}

/// A confident truth value. UNKNOWN is the absence of a fact, never stored.
#[derive(Debug, Clone, Copy, PartialEq, Eq, Structural)]
pub enum Value {
    /// The atom is asserted TRUE.
    True,
    /// The atom is asserted FALSE.
    False,
}

/// Where a piece of IR came from, for readable reports.
#[derive(Debug, Clone, PartialEq, Eq)]
pub struct Origin {
    /// The source label it came from.
    pub source: String,
    /// 1-based line of the originating statement (0 for an external value).
    pub line: u32,
    /// The premise or rule name, if it came from a named construct.
    pub premise: Option<String>,
    /// The surface keyword of the construct (or [`KIND_UNSAT`]).
    pub kind: &'static str,
}

/// The kind the solver stamps on a conflict that belongs to the program being
/// jointly unsatisfiable rather than to one construct.
pub const KIND_UNSAT: &'static str = "UNSAT";

/// A confident fact. Conflicting facts on one atom are both kept.
#[derive(Debug, Clone, PartialEq, Eq)]
pub struct Fact {
    /// The atom this fact pins down.
    pub atom: AtomId,
    /// The asserted truth value.
    pub value: Value,
    /// Where it came from.
    pub origin: Origin,
    /// `true` for an `ASSUME`: a soft, retractable hypothesis.
    pub soft: bool,
}

/// An `Impossible` clause: the listed literals cannot all hold at once.
#[derive(Debug, Clone, PartialEq, Eq)]
pub struct Clause {
    /// The literals that cannot all hold together.
    pub lits: Vec<Lit>,
    /// Where it came from.
    pub origin: Origin,
}

/// A forward-chaining rule: when every antecedent literal holds, the
/// consequent literals are derived.
#[derive(Debug, Clone, PartialEq, Eq)]
pub struct Rule {
    /// Literals that must all hold for the rule to fire.
    pub antecedent: Vec<Lit>,
    /// Literals derived when it fires.
    pub consequent: Vec<Lit>,
    /// Where it came from.
    pub origin: Origin,
}

/// A `CHECK` query.
#[derive(Debug, Clone, PartialEq, Eq)]
pub struct Check {
    /// Restrict the report to this subject; `None` checks everything.
    pub subject: Option<String>,
    /// `true` also runs the backward pass.
    pub bidirectional: bool,
}

/// An advisory record: a file imports a domain it never references.
#[derive(Debug, Clone, PartialEq, Eq, PartialOrd, Ord)]
pub struct UnusedImport {
    /// The source that declared the unused `IMPORT`.
    pub file: String,
    /// The imported domain never referenced from `file`.
    pub domain: String,
    /// The local alias, if the import used `AS <alias>`.
    pub alias: Option<String>,
    /// 1-based line of the `IMPORT` statement.
    pub line: u32,
}

/// One external value bound to a port key, with a short origin tag.
#[derive(Debug, Clone, PartialEq, Eq)]
pub struct PortBinding {
    /// The boolean truth supplied.
    pub value: bool,
    /// Where it came from: `"CLI"`, `"api"`, `"data:<file>"`, `"PROVIDE <file>"`.
    pub origin: String,
}

/// How a declared `VAR` port got (or did not get) its value.
#[derive(Debug, Clone, Copy, PartialEq, Eq, Structural)]
pub enum PlaceholderStatus {
    /// An external value was supplied.
    Supplied,
    /// No external value; the port's `DEFAULT` was used.
    DefaultUsed,
    /// No external value and no `DEFAULT`: the port stays UNKNOWN.
    Unset,
}

/// A report record for one declared `VAR` port.
#[derive(Debug, Clone, PartialEq, Eq)]
pub struct PlaceholderInfo {
    /// The port's name (qualified `domain.name` when the name is declared in
    /// more than one domain).
    pub key: String,
    /// How it resolved.
    pub status: PlaceholderStatus,
    /// The resolved value, or `None` when unset.
    pub value: Option<bool>,
    /// The origin of a supplied value (`None` for default/unset).
    pub origin: Option<String>,
}

/// The compiled IR: the solver's input.
#[derive(Debug, Clone, PartialEq, Eq)]
pub struct Compiled {
    /// Indexed by [`AtomId`]; canonically sorted.
    pub atoms: Vec<AtomKey>,
    /// Confident assertions.
    pub facts: Vec<Fact>,
    /// `Impossible` clauses.
    pub clauses: Vec<Clause>,
    /// Forward-chaining rules.
    pub rules: Vec<Rule>,
    /// `CHECK` queries.
    pub checks: Vec<Check>,
    /// Imports seen but not resolved (single-source compilation only).
    pub pending_imports: Vec<String>,
    /// Advisory: imports a file makes but never references.
    pub unused_imports: Vec<UnusedImport>,
    /// Atoms read as data (relation edges and declared ports), in id order.
    pub consumed: Vec<AtomId>,
    /// One record per declared `VAR` port.
    pub placeholders: Vec<PlaceholderInfo>,
}

/// Every literal refers to an interned atom.
pub open spec fn lits_in_range(lits: Seq<Lit>, n: nat) -> bool {
    forall|i: int| 0 <= i < lits.len() ==> (#[trigger] lits[i]).atom < n
}

/// The structural guarantees of a compiled IR: atoms are in strictly
/// increasing canonical order (hence distinct), and every id used anywhere
/// names one of them; `consumed` is strictly increasing.
pub open spec fn wf_compiled(c: Compiled) -> bool {
    let n = c.atoms@.len();
    &&& keys_sorted(crate::table::key_views(c.atoms@))
    &&& forall|i: int| 0 <= i < c.facts@.len() ==> (#[trigger] c.facts@[i]).atom < n
    &&& forall|i: int| 0 <= i < c.clauses@.len() ==> lits_in_range((#[trigger] c.clauses@[i]).lits@, n)
    &&& forall|i: int|
        0 <= i < c.rules@.len() ==> lits_in_range((#[trigger] c.rules@[i]).antecedent@, n)
            && lits_in_range(c.rules@[i].consequent@, n)
    &&& forall|i: int| 0 <= i < c.consumed@.len() ==> (#[trigger] c.consumed@[i]) < n
    &&& forall|i: int, j: int| 0 <= i < j < c.consumed@.len() ==> c.consumed@[i] < c.consumed@[j]
}

} // verus!
