//! The compiler: accumulates statements from one or more sources into clauses,
//! facts and rules keyed by atom identity, then interns the atoms in canonical
//! order and lowers everything to dense ids.
use vstd::prelude::*;
use crate::ast::{Atom, Body, CloseKind, Conn, ListOp, Located, Literal, Program, Quant, Statement, wf_body};
use crate::closure::{
    equivalence_closure, equivalence_spec, lists, pair_set, pair_views, reflexive_closure, reflexive_spec,
    scc_closure, scc_spec, symmetric_closure, symmetric_spec, transitive_closure, transitive_spec,
};
use crate::error::CompileError;
use crate::ir::{AtomKey, Check, KeyV, Origin, Value, compare_keys, copy_key, copy_opt, opt_view};
use crate::kw;
use crate::lower::{
    DomainCtx, LitV, RawLit, at_least_one_lits, at_least_one_spec, clauses_v, copy_lits, impl_lits,
    impl_spec, key2_spec, key_spec, keys_spec, lit_v, lits_spec, lits_v, pairwise_lits,
    pairwise_spec, resolve_atoms, resolve_lits, same_clause, same_lits, subs_v,
};
use crate::table::{insert_key, key_views, keys_sorted_empty, search_key};
use crate::text::Order;

verus! {

/// A fact keyed by atom identity.
pub(crate) struct RawFact {
    pub(crate) key: AtomKey,
    pub(crate) value: Value,
    pub(crate) origin: Origin,
    pub(crate) soft: bool,
}

/// A clause keyed by atom identity.
pub(crate) struct RawClause {
    pub(crate) lits: Vec<RawLit>,
    pub(crate) origin: Origin,
}

/// A rule keyed by atom identity.
pub(crate) struct RawRule {
    pub(crate) antecedent: Vec<RawLit>,
    pub(crate) consequent: Vec<RawLit>,
    pub(crate) origin: Origin,
}

/// The clause lists of a list of raw clauses.
pub(crate) open spec fn clause_lits(cs: Seq<RawClause>) -> Seq<Seq<LitV>> {
    cs.map_values(|c: RawClause| lits_v(c.lits@))
}

/// The (antecedent, consequent) lists of a list of raw rules.
pub(crate) open spec fn rule_lits(rs: Seq<RawRule>) -> Seq<(Seq<LitV>, Seq<LitV>)> {
    rs.map_values(|r: RawRule| (lits_v(r.antecedent@), lits_v(r.consequent@)))
}

/// Append a clause unless one with the same literals is already present
/// (`P ∧ P ≡ P`).
pub open spec fn push_dedup(cs: Seq<Seq<LitV>>, c: Seq<LitV>) -> Seq<Seq<LitV>> {
    if exists|i: int| 0 <= i < cs.len() && same_clause(cs[i], c) {
        cs
    } else {
        cs.push(c)
    }
}

/// Append each candidate clause in order, deduplicating as it goes.
pub open spec fn push_all(cs: Seq<Seq<LitV>>, new: Seq<Seq<LitV>>) -> Seq<Seq<LitV>>
    decreases new.len(),
{
    if new.len() == 0 {
        cs
    } else {
        push_dedup(push_all(cs, new.drop_last()), new.last())
    }
}

/// The clauses a list premise lowers to.
pub open spec fn list_clauses(op: ListOp, keys: Seq<KeyV>) -> Seq<Seq<LitV>> {
    match op {
        ListOp::Exclusive => pairwise_spec(keys),
        ListOp::Forbids => pairwise_spec(keys),
        ListOp::OneOf => pairwise_spec(keys).push(at_least_one_spec(keys)),
        ListOp::AtLeast => seq![at_least_one_spec(keys)],
    }
}

/// The rules a `RULE` lowers to: one rule on the whole antecedent under `AND`,
/// one rule per antecedent literal under `OR` (`(a ∨ b) → C` is
/// `(a → C) ∧ (b → C)`).
pub open spec fn rules_spec(ante: Seq<LitV>, ac: Conn, cons: Seq<LitV>) -> Seq<(Seq<LitV>, Seq<LitV>)> {
    match ac {
        Conn::And => seq![(ante, cons)],
        Conn::Or => ante.map_values(|l: LitV| (seq![l], cons)),
    }
}

/// The keys an `EXISTS` grounds to: its atom once per element, the binder
/// replaced by that element.
pub open spec fn exists_keys(
    ctx: DomainCtx,
    atom: Atom,
    outer: Seq<(Seq<char>, Seq<char>)>,
    binder: Seq<char>,
    elements: Seq<Seq<char>>,
) -> Option<Seq<KeyV>> {
    if elements.len() == 0 {
        Some(Seq::empty())
    } else if resolve_spec_ok(ctx, atom) {
        Some(elements.map_values(|el: Seq<char>| key2_spec(ctx, atom, outer, seq![(binder, el)])->0))
    } else {
        None
    }
}

/// Whether an atom's domain prefix resolves.
pub open spec fn resolve_spec_ok(ctx: DomainCtx, atom: Atom) -> bool {
    crate::lower::resolve_spec(ctx, opt_view(atom.domain)) is Some
}

/// A declared `SET`.
pub(crate) struct SetEntry {
    pub(crate) name: String,
    pub(crate) elements: Vec<String>,
}

/// The declared sets as `(name, elements)`.
pub(crate) open spec fn sets_v(sets: Seq<SetEntry>) -> Seq<(Seq<char>, Seq<Seq<char>>)> {
    sets.map_values(|e: SetEntry| (e.name@, crate::table::string_views(e.elements@)))
}

/// The elements of the last `SET` named `n` among the statements.
pub open spec fn last_set(stmts: Seq<Statement>, n: Seq<char>) -> Option<Seq<Seq<char>>>
    decreases stmts.len(),
{
    if stmts.len() == 0 {
        None
    } else {
        match stmts.last() {
            Statement::SetDecl { name, elements } => if name.data@ == n {
                Some(elements@.map_values(|l: Located<String>| l.data@))
            } else {
                last_set(stmts.drop_last(), n)
            },
            _ => last_set(stmts.drop_last(), n),
        }
    }
}

/// The `(subject, object)` pairs the 3-part `FACT`s with predicate `q` state,
/// in order.
pub open spec fn fact_pairs(stmts: Seq<Statement>, q: Seq<char>) -> Seq<crate::closure::PairV>
    decreases stmts.len(),
{
    if stmts.len() == 0 {
        Seq::empty()
    } else {
        fact_pairs(stmts.drop_last(), q) + match stmts.last() {
            Statement::Fact(a) => match (a.data.predicate, a.data.object) {
                (Some(p), Some(o)) => if p@ == q {
                    seq![(a.data.subject@, o@)]
                } else {
                    Seq::empty()
                },
                _ => Seq::empty(),
            },
            _ => Seq::empty(),
        }
    }
}

/// The closure of a pair set under `kind`.
pub open spec fn close_set(kind: CloseKind, ps: Set<crate::closure::PairV>) -> Set<crate::closure::PairV> {
    match kind {
        CloseKind::Transitive => transitive_spec(ps),
        CloseKind::Symmetric => symmetric_spec(ps),
        CloseKind::Reflexive => reflexive_spec(ps),
        CloseKind::Equivalence => equivalence_spec(ps),
        CloseKind::Scc => scc_spec(ps),
    }
}

/// Closing under `kind` makes a node reach itself where a DAG is required.
pub open spec fn close_cyclic(kind: CloseKind, ps: Set<crate::closure::PairV>) -> bool {
    kind == CloseKind::Transitive && exists|x: Seq<char>| transitive_spec(ps).contains((x, x))
}

/// The pairs of relation `q`, from `ps`, after the `CLOSE`s of `q` among the
/// statements, in order; `None` when one of them meets a cycle.
pub open spec fn after_closes(stmts: Seq<Statement>, q: Seq<char>, ps: Set<crate::closure::PairV>) -> Option<
    Set<crate::closure::PairV>,
>
    decreases stmts.len(),
{
    if stmts.len() == 0 {
        Some(ps)
    } else {
        match after_closes(stmts.drop_last(), q, ps) {
            None => None,
            Some(s1) => match stmts.last() {
                Statement::Close { relation, kind } => if relation.data@ == q {
                    if close_cyclic(kind, s1) {
                        None
                    } else {
                        Some(close_set(kind, s1))
                    }
                } else {
                    Some(s1)
                },
                _ => Some(s1),
            },
        }
    }
}

/// Some statement closes relation `q`.
pub open spec fn closes_rel(stmts: Seq<Statement>, q: Seq<char>) -> bool {
    exists|i: int| 0 <= i < stmts.len() && closes_at(#[trigger] stmts[i], q)
}

/// The statement closes relation `q`.
pub open spec fn closes_at(st: Statement, q: Seq<char>) -> bool {
    st matches Statement::Close { relation, .. } && relation.data@ == q
}

/// A failed closure stays failed whatever follows.
proof fn lemma_after_none(stmts: Seq<Statement>, q: Seq<char>, ps: Set<crate::closure::PairV>, k: int)
    requires
        0 <= k <= stmts.len(),
        after_closes(stmts.subrange(0, k), q, ps) is None,
    ensures
        after_closes(stmts, q, ps) is None,
    decreases stmts.len() - k,
{
    if k < stmts.len() {
        assert(stmts.subrange(0, k + 1).drop_last() =~= stmts.subrange(0, k));
        lemma_after_none(stmts, q, ps, k + 1);
    } else {
        assert(stmts.subrange(0, k) =~= stmts);
    }
}

/// `(domain, name)` pairs in lexicographic order.
pub open spec fn name_lt(a: (Seq<char>, Seq<char>), b: (Seq<char>, Seq<char>)) -> bool {
    crate::text::seq_lt(a.0, b.0) || (a.0 == b.0 && crate::text::seq_lt(a.1, b.1))
}

proof fn lemma_name_lt_trans(a: (Seq<char>, Seq<char>), b: (Seq<char>, Seq<char>), c: (Seq<char>, Seq<char>))
    requires
        name_lt(a, b),
        name_lt(b, c),
    ensures
        name_lt(a, c),
{
    if crate::text::seq_lt(a.0, b.0) && crate::text::seq_lt(b.0, c.0) {
        crate::text::lemma_seq_lt_trans(a.0, b.0, c.0);
    } else if a.0 == b.0 && b.0 == c.0 {
        crate::text::lemma_seq_lt_trans(a.1, b.1, c.1);
    }
}

/// A port's `(domain, name)`.
pub(crate) open spec fn port_name_key(p: PortDecl) -> (Seq<char>, Seq<char>) {
    (p.domain@, p.name@)
}

/// The ports are strictly ordered by `(domain, name)`.
pub(crate) open spec fn ports_sorted(ports: Seq<PortDecl>) -> bool {
    forall|i: int, j: int| 0 <= i < j < ports.len() ==> name_lt(port_name_key(#[trigger] ports[i]), port_name_key(#[trigger] ports[j]))
}

/// The names of the declared ports, in order.
pub(crate) open spec fn port_names(ports: Seq<PortDecl>) -> Seq<Seq<char>> {
    ports.map_values(|p: PortDecl| p.name@)
}

/// The names of the declared sets, in declaration order.
pub(crate) open spec fn set_names(sets: Seq<SetEntry>) -> Seq<Seq<char>> {
    sets.map_values(|e: SetEntry| e.name@)
}

/// The elements of the first set named `name`.
pub open spec fn set_lookup(sets: Seq<(Seq<char>, Seq<Seq<char>>)>, name: Seq<char>) -> Option<Seq<Seq<char>>>
    decreases sets.len(),
{
    if sets.len() == 0 {
        None
    } else if sets[0].0 == name {
        Some(sets[0].1)
    } else {
        set_lookup(sets.drop_first(), name)
    }
}

/// The value under the first entry named `name`.
pub open spec fn first_value<V>(s: Seq<(Seq<char>, V)>, name: Seq<char>) -> Option<V>
    decreases s.len(),
{
    if s.len() == 0 {
        None
    } else if s[0].0 == name {
        Some(s[0].1)
    } else {
        first_value(s.drop_first(), name)
    }
}

/// Set lookup is first-entry lookup.
proof fn lemma_set_first(s: Seq<(Seq<char>, Seq<Seq<char>>)>, n: Seq<char>)
    ensures
        set_lookup(s, n) == first_value(s, n),
    decreases s.len(),
{
    if s.len() > 0 {
        lemma_set_first(s.drop_first(), n);
    }
}

/// Entries before `i` not named `n` do not matter to a lookup of `n`.
proof fn lemma_first_skip<V>(s: Seq<(Seq<char>, V)>, n: Seq<char>, i: int)
    requires
        0 <= i <= s.len(),
        forall|j: int| 0 <= j < i ==> (#[trigger] s[j]).0 != n,
    ensures
        first_value(s, n) == first_value(s.subrange(i, s.len() as int), n),
    decreases i,
{
    if i > 0 {
        assert(s.drop_first().subrange(i - 1, s.drop_first().len() as int) =~= s.subrange(i, s.len() as int));
        assert forall|j: int| 0 <= j < i - 1 implies (#[trigger] s.drop_first()[j]).0 != n by {
            assert(s.drop_first()[j] == s[j + 1]);
        }
        lemma_first_skip(s.drop_first(), n, i - 1);
    } else {
        assert(s.subrange(0, s.len() as int) =~= s);
    }
}

/// Replacing the first entry named `e.0` replaces that name's value only.
proof fn lemma_first_update<V>(s: Seq<(Seq<char>, V)>, i: int, e: (Seq<char>, V), n: Seq<char>)
    requires
        0 <= i < s.len(),
        s[i].0 == e.0,
        forall|j: int| 0 <= j < i ==> (#[trigger] s[j]).0 != e.0,
    ensures
        first_value(s.update(i, e), n) == if n == e.0 {
            Some(e.1)
        } else {
            first_value(s, n)
        },
    decreases i,
{
    if i > 0 {
        assert(s.update(i, e).drop_first() =~= s.drop_first().update(i - 1, e));
        assert forall|j: int| 0 <= j < i - 1 implies (#[trigger] s.drop_first()[j]).0 != e.0 by {
            assert(s.drop_first()[j] == s[j + 1]);
        }
        assert(s[0].0 != e.0);
        lemma_first_update(s.drop_first(), i - 1, e, n);
    } else {
        assert(s.update(0, e).drop_first() =~= s.drop_first());
    }
}

/// Inserting an entry under a new name anywhere adds just that name.
proof fn lemma_first_insert<V>(s: Seq<(Seq<char>, V)>, i: int, e: (Seq<char>, V), n: Seq<char>)
    requires
        0 <= i <= s.len(),
        first_value(s, e.0) is None,
    ensures
        first_value(s.insert(i, e), n) == if n == e.0 {
            Some(e.1)
        } else {
            first_value(s, n)
        },
    decreases i,
{
    if i > 0 {
        assert(s.insert(i, e).drop_first() =~= s.drop_first().insert(i - 1, e));
        assert(s.insert(i, e)[0] == s[0]);
        lemma_first_insert(s.drop_first(), i - 1, e, n);
    } else {
        assert(s.insert(0, e).drop_first() =~= s);
        assert(s.insert(0, e)[0] == e);
    }
}

/// The relations as `(predicate, pairs)`.
pub(crate) open spec fn rels_v(rels: Seq<(String, Vec<(String, String)>)>) -> Seq<(Seq<char>, Seq<crate::closure::PairV>)> {
    rels.map_values(|r: (String, Vec<(String, String)>)| (r.0@, crate::closure::pair_views(r.1@)))
}

/// The pairs of relation `p` (none when it is not declared).
pub open spec fn rel_pairs(rels: Seq<(Seq<char>, Seq<crate::closure::PairV>)>, p: Seq<char>) -> Seq<crate::closure::PairV> {
    match first_value(rels, p) {
        Some(v) => v,
        None => Seq::empty(),
    }
}

/// A declared port as plain values.
pub(crate) open spec fn port_view(d: PortDecl) -> (Seq<char>, Seq<char>, Option<bool>, Seq<char>, u32) {
    (d.domain@, d.name@, d.default, d.source@, d.line)
}

/// The declared ports as plain values.
pub(crate) open spec fn port_views(ports: Seq<PortDecl>) -> Seq<(Seq<char>, Seq<char>, Option<bool>, Seq<char>, u32)> {
    ports.map_values(|d: PortDecl| port_view(d))
}

/// Accumulates statements from one or more sources, then interns and emits
/// the IR.
pub struct Compiler {
    pub(crate) keys: Vec<AtomKey>,
    pub(crate) facts: Vec<RawFact>,
    pub(crate) clauses: Vec<RawClause>,
    pub(crate) rules: Vec<RawRule>,
    pub(crate) decls: Decls,
}

/// Everything besides the atoms and the constraints: queries, pending
/// imports, declarations and redefinition bookkeeping.
pub(crate) struct Decls {
    pub(crate) checks: Vec<Check>,
    pub(crate) pending_imports: Vec<String>,
    /// `(source, name, body hash)` of every named construct seen.
    pub(crate) defined: Vec<(String, String, String)>,
    /// `(domain, subject, predicate, value)`: the closed value sets `ONEOF`s declare.
    pub(crate) oneof: Vec<(String, String, String, String)>,
    pub(crate) sets: Vec<SetEntry>,
    /// Relation pairs by predicate, from 3-part facts (closed by `CLOSE`).
    pub(crate) relations: Vec<(String, Vec<(String, String)>)>,
    /// Atoms read as data (relation edges, declared ports), sorted.
    pub(crate) consumed: Vec<AtomKey>,
    pub(crate) ports: Vec<PortDecl>,
    pub(crate) provides: Vec<(PortRef, crate::ir::PortBinding)>,
}

/// A declared `VAR` port: its `DEFAULT` and where it was declared.
pub(crate) struct PortDecl {
    pub(crate) domain: String,
    pub(crate) name: String,
    pub(crate) default: Option<bool>,
    pub(crate) source: String,
    pub(crate) line: u32,
}

/// A reference an external value binds: optional canonical domain, subject,
/// optional predicate and object.
pub(crate) struct PortRef {
    pub(crate) domain: Option<String>,
    pub(crate) subject: String,
    pub(crate) predicate: Option<String>,
    pub(crate) object: Option<String>,
}

/// Every atom a fact, clause or rule refers to is interned.
pub(crate) open spec fn interned(
    atoms: Set<KeyV>,
    facts: Seq<RawFact>,
    clauses: Seq<RawClause>,
    rules: Seq<RawRule>,
) -> bool {
    &&& forall|i: int| 0 <= i < facts.len() ==> atoms.contains(#[trigger] facts[i].key@)
    &&& forall|i: int, j: int|
        0 <= i < clauses.len() && 0 <= j < clauses[i].lits@.len() ==> atoms.contains(
            (#[trigger] clauses[i].lits@[j]).key@,
        )
    &&& forall|i: int, j: int|
        0 <= i < rules.len() && 0 <= j < rules[i].antecedent@.len() ==> atoms.contains(
            (#[trigger] rules[i].antecedent@[j]).key@,
        )
    &&& forall|i: int, j: int|
        0 <= i < rules.len() && 0 <= j < rules[i].consequent@.len() ==> atoms.contains(
            (#[trigger] rules[i].consequent@[j]).key@,
        )
}

impl Compiler {
    /// The interned atoms.
    pub closed spec fn atoms(self) -> Set<KeyV> {
        key_views(self.keys@).to_set()
    }

    /// The clauses so far, as literal lists.
    pub closed spec fn clause_list(self) -> Seq<Seq<LitV>> {
        clause_lits(self.clauses@)
    }

    /// The rules so far, as (antecedent, consequent) literal lists.
    pub closed spec fn rule_list(self) -> Seq<(Seq<LitV>, Seq<LitV>)> {
        rule_lits(self.rules@)
    }

    /// The compiler's invariant: atoms are held in strictly increasing
    /// canonical order, everything refers to interned atoms, and the ports are
    /// ordered by `(domain, name)`.
    pub closed spec fn wf(self) -> bool {
        &&& crate::ir::keys_sorted(key_views(self.keys@))
        &&& crate::ir::keys_sorted(key_views(self.decls.consumed@))
        &&& interned(self.atoms(), self.facts@, self.clauses@, self.rules@)
        &&& ports_sorted(self.decls.ports@)
    }

    /// Nothing is declared yet: no named constructs, closed value sets, sets,
    /// relations, data atoms, ports or provided values.
    pub closed spec fn no_decls(self) -> bool {
        &&& self.decls.defined@.len() == 0
        &&& self.decls.oneof@.len() == 0
        &&& self.decls.sets@.len() == 0
        &&& self.decls.relations@.len() == 0
        &&& self.decls.consumed@.len() == 0
        &&& self.decls.ports@.len() == 0
        &&& self.decls.provides@.len() == 0
    }

    /// No fact, clause or rule refers to an atom, and no `PROVIDE` binds one.
    pub closed spec fn unreferenced(self) -> bool {
        &&& all_refs(self) == Seq::<RefV>::empty()
        &&& self.decls.provides@.len() == 0
    }

    /// What `unreferenced` says, for callers outside this module.
    pub(crate) proof fn lemma_unreferenced(self)
        requires
            self.unreferenced(),
        ensures
            all_refs(self) == Seq::<RefV>::empty(),
            self.decls.provides@.len() == 0,
    {
    }

    /// Nothing is interned, recorded or declared yet.
    pub closed spec fn fresh(self) -> bool {
        &&& self.key_list() == Seq::<KeyV>::empty()
        &&& self.fact_list() == Seq::<FactV>::empty()
        &&& self.clause_list() == Seq::<Seq<LitV>>::empty()
        &&& self.rule_list() == Seq::<(Seq<LitV>, Seq<LitV>)>::empty()
        &&& self.check_list() == Seq::<Check>::empty()
        &&& self.pending_list() == Seq::<String>::empty()
        &&& self.no_decls()
        &&& self.unreferenced()
        &&& self.decls.checks@.len() == 0
        &&& self.decls.pending_imports@.len() == 0
    }

    /// No fact, clause or rule uses a value outside a closed `ONEOF` set.
    pub closed spec fn closed_world(self) -> bool {
        !(exists|x: RefV| #[trigger] offends(self, x))
    }

    /// Resolving the ports of `self` against `inputs` succeeded with the
    /// placeholders `ps` and gave `n`: no bare proposition is used undeclared;
    /// the bindings (`PROVIDE`s first, then `inputs`) merge; each port gets its
    /// placeholder record; the `VAR` facts and then the provided facts follow
    /// the earlier facts; every port is an interned atom.
    pub closed spec fn ports_resolved(
        self,
        n: Compiler,
        inputs: Seq<(String, crate::ir::PortBinding)>,
        ps: Seq<crate::ir::PlaceholderInfo>,
    ) -> bool {
        let m = merged_spec(self, provide_binds(self.decls.provides@) + input_binds(inputs))->Some_0;
        let f0 = self.fact_list();
        let vf = var_facts(self.decls.ports@, m);
        let f1 = n.fact_list();
        &&& !(exists|x: RefV| #[trigger] undeclared(self, x))
        &&& merged_spec(self, provide_binds(self.decls.provides@) + input_binds(inputs)) is Some
        &&& ps.len() == self.decls.ports@.len()
        &&& ports_sorted(self.decls.ports@)
        &&& forall|i: int| 0 <= i < ps.len() ==> placeholder_ok(self.decls.ports@, i, m, #[trigger] ps[i])
        &&& f0.len() + vf.len() <= f1.len()
        &&& f1.subrange(0, (f0.len() + vf.len()) as int) == f0 + vf
        &&& provide_facts_ok(m, f1.subrange((f0.len() + vf.len()) as int, f1.len() as int))
        &&& forall|i: int| 0 <= i < self.decls.ports@.len() ==> n.atoms().contains(
            KeyV { domain: (#[trigger] self.decls.ports@[i]).domain@, subject: self.decls.ports@[i].name@, predicate: None, object: None },
        )
    }

    /// A fresh, empty compiler.
    pub fn new() -> (c: Compiler)
        ensures
            c.wf(),
            c.atoms() == Set::<KeyV>::empty(),
            c.clause_list() == Seq::<Seq<LitV>>::empty(),
            c.rule_list() == Seq::<(Seq<LitV>, Seq<LitV>)>::empty(),
            c.fact_list() == Seq::<FactV>::empty(),
            c.check_list() == Seq::<Check>::empty(),
            c.pending_list() == Seq::<String>::empty(),
            c.no_decls(),
            c.unreferenced(),
            c.key_list() == Seq::<KeyV>::empty(),
            c.fresh(),
    {
        let c = Compiler {
            keys: Vec::new(),
            facts: Vec::new(),
            clauses: Vec::new(),
            rules: Vec::new(),
            decls: Decls {
                checks: Vec::new(),
                pending_imports: Vec::new(),
                defined: Vec::new(),
                oneof: Vec::new(),
                sets: Vec::new(),
                relations: Vec::new(),
                consumed: Vec::new(),
                ports: Vec::new(),
                provides: Vec::new(),
            },
        };
        proof {
            assert(key_views(c.keys@).to_set() =~= Set::<KeyV>::empty());
            assert(clause_lits(c.clauses@) =~= Seq::<Seq<LitV>>::empty());
            assert(rule_lits(c.rules@) =~= Seq::<(Seq<LitV>, Seq<LitV>)>::empty());
            assert(fact_views(c.facts@) =~= Seq::<FactV>::empty());
            assert(all_refs(c) =~= Seq::<RefV>::empty());
        }
        c
    }

    /// Record an atom identity in the shared universe.
    fn intern(&mut self, k: &AtomKey)
        requires
            old(self).wf(),
        ensures
            final(self).wf(),
            final(self).atoms() == old(self).atoms().insert(k@),
            final(self).facts == old(self).facts,
            final(self).clauses == old(self).clauses,
            final(self).rules == old(self).rules,
            final(self).decls == old(self).decls,
    {
        insert_key(&mut self.keys, k);
        proof {
            let a = key_views(self.keys@).to_set();
            assert forall|x: KeyV| old(self).atoms().contains(x) implies a.contains(x) by {}
        }
    }

    /// Intern every key of a list.
    fn intern_all(&mut self, ks: &Vec<AtomKey>)
        requires
            old(self).wf(),
        ensures
            final(self).wf(),
            final(self).atoms() == old(self).atoms() + crate::table::key_views(ks@).to_set(),
            final(self).facts == old(self).facts,
            final(self).clauses == old(self).clauses,
            final(self).rules == old(self).rules,
            final(self).decls == old(self).decls,
    {
        let mut i: usize = 0;
        while i < ks.len()
            invariant
                self.wf(),
                i <= ks@.len(),
                self.atoms() == old(self).atoms() + crate::table::key_views(ks@).subrange(
                    0,
                    i as int,
                ).to_set(),
                self.facts == old(self).facts,
                self.clauses == old(self).clauses,
                self.rules == old(self).rules,
                self.decls == old(self).decls,
            decreases ks@.len() - i,
        {
            self.intern(&ks[i]);
            proof {
                crate::closure::lemma_prefix_set(crate::table::key_views(ks@), i as int);
                assert(self.atoms() =~= old(self).atoms() + crate::table::key_views(ks@).subrange(
                    0,
                    i + 1,
                ).to_set());
            }
            i = i + 1;
        }
        proof {
            assert(crate::table::key_views(ks@).subrange(0, ks@.len() as int) =~= crate::table::key_views(ks@));
        }
    }

    /// Intern the atom of every literal of a list.
    fn intern_lits(&mut self, ls: &Vec<RawLit>)
        requires
            old(self).wf(),
        ensures
            final(self).wf(),
            final(self).atoms() == old(self).atoms() + lits_v(ls@).map_values(|l: LitV| l.0).to_set(),
            final(self).facts == old(self).facts,
            final(self).clauses == old(self).clauses,
            final(self).rules == old(self).rules,
            final(self).decls == old(self).decls,
    {
        let ghost kv = lits_v(ls@).map_values(|l: LitV| l.0);
        let mut i: usize = 0;
        while i < ls.len()
            invariant
                self.wf(),
                kv == lits_v(ls@).map_values(|l: LitV| l.0),
                i <= ls@.len(),
                self.atoms() == old(self).atoms() + kv.subrange(0, i as int).to_set(),
                self.facts == old(self).facts,
                self.clauses == old(self).clauses,
                self.rules == old(self).rules,
                self.decls == old(self).decls,
            decreases ls@.len() - i,
        {
            self.intern(&ls[i].key);
            proof {
                assert(kv[i as int] == ls@[i as int].key@);
                crate::closure::lemma_prefix_set(kv, i as int);
                assert(self.atoms() =~= old(self).atoms() + kv.subrange(0, i + 1).to_set());
            }
            i = i + 1;
        }
        proof {
            assert(kv.subrange(0, ls@.len() as int) =~= kv);
        }
    }

    /// Append a clause unless one with the same literals is already present.
    fn push_clause(&mut self, lits: Vec<RawLit>, origin: &Origin)
        requires
            old(self).wf(),
            forall|j: int| 0 <= j < lits@.len() ==> old(self).atoms().contains(#[trigger] lits@[j].key@),
        ensures
            final(self).wf(),
            final(self).clause_list() == push_dedup(old(self).clause_list(), lits_v(lits@)),
            tagged_after(old(self).clause_origins(), final(self).clause_origins(), origin_v(*origin)),
            final(self).keys == old(self).keys,
            final(self).facts == old(self).facts,
            final(self).rules == old(self).rules,
            final(self).decls == old(self).decls,
    {
        let mut i: usize = 0;
        while i < self.clauses.len()
            invariant
                self.wf(),
                self.clauses == old(self).clauses,
                self.keys == old(self).keys,
                self.facts == old(self).facts,
                self.rules == old(self).rules,
                self.decls == old(self).decls,
                i <= self.clauses@.len(),
                forall|k: int| 0 <= k < i ==> !same_clause(#[trigger] clause_lits(self.clauses@)[k], lits_v(lits@)),
            decreases self.clauses@.len() - i,
        {
            if same_lits(&self.clauses[i].lits, &lits) {
                proof {
                    assert(same_clause(clause_lits(self.clauses@)[i as int], lits_v(lits@)));
                    lemma_tagged_refl(self.clause_origins(), origin_v(*origin));
                }
                return;
            }
            i = i + 1;
        }
        let ghost before = self.clauses@;
        let ghost lv = lits_v(lits@);
        let ghost lk = lits@;
        let ghost co = old(self).clause_origins();
        self.clauses.push(RawClause { lits, origin: copy_origin(origin) });
        proof {
            assert(clause_lits(self.clauses@) =~= clause_lits(before).push(lv));
            assert(self.clause_origins() =~= co.push(origin_v(*origin)));
            assert(self.clause_origins().subrange(0, co.len() as int) =~= co);
            assert forall|i: int, j: int|
                0 <= i < self.clauses@.len() && 0 <= j < self.clauses@[i].lits@.len() implies self.atoms().contains(
                (#[trigger] self.clauses@[i].lits@[j]).key@,
            ) by {
                if i == before.len() {
                    assert(self.clauses@[i].lits@ == lk);
                } else {
                    assert(self.clauses@[i] == before[i]);
                }
            }
        }
    }

    /// Append each candidate clause in order (deduplicated).
    fn push_clauses(&mut self, cands: &Vec<Vec<RawLit>>, origin: &Origin)
        requires
            old(self).wf(),
            forall|i: int, j: int|
                0 <= i < cands@.len() && 0 <= j < cands@[i]@.len() ==> old(self).atoms().contains(
                    (#[trigger] cands@[i]@[j]).key@,
                ),
        ensures
            final(self).wf(),
            final(self).clause_list() == push_all(old(self).clause_list(), clauses_v(cands@)),
            tagged_after(old(self).clause_origins(), final(self).clause_origins(), origin_v(*origin)),
            final(self).keys == old(self).keys,
            final(self).facts == old(self).facts,
            final(self).rules == old(self).rules,
            final(self).decls == old(self).decls,
    {
        let mut i: usize = 0;
        proof {
            assert(clauses_v(cands@).subrange(0, 0) =~= Seq::<Seq<LitV>>::empty());
            lemma_tagged_refl(self.clause_origins(), origin_v(*origin));
        }
        while i < cands.len()
            invariant
                self.wf(),
                i <= cands@.len(),
                self.clause_list() == push_all(old(self).clause_list(), clauses_v(cands@).subrange(0, i as int)),
                tagged_after(old(self).clause_origins(), self.clause_origins(), origin_v(*origin)),
                self.keys == old(self).keys,
                self.facts == old(self).facts,
                self.rules == old(self).rules,
                self.decls == old(self).decls,
                forall|a: int, j: int|
                    0 <= a < cands@.len() && 0 <= j < cands@[a]@.len() ==> self.atoms().contains(
                        (#[trigger] cands@[a]@[j]).key@,
                    ),
            decreases cands@.len() - i,
        {
            let c = copy_lits(&cands[i]);
            proof {
                assert(lits_v(c@).len() == c@.len());
                assert(lits_v(cands@[i as int]@).len() == cands@[i as int]@.len());
                assert forall|j: int| 0 <= j < c@.len() implies self.atoms().contains(#[trigger] c@[j].key@) by {
                    assert(lits_v(c@)[j] == lit_v(c@[j]));
                    assert(lits_v(cands@[i as int]@)[j] == lit_v(cands@[i as int]@[j]));
                    assert(cands@[i as int]@[j].key@ == c@[j].key@);
                }
            }
            let ghost co = self.clause_origins();
            self.push_clause(c, origin);
            proof {
                lemma_tagged_trans(old(self).clause_origins(), co, self.clause_origins(), origin_v(*origin));
                let sub = clauses_v(cands@).subrange(0, i + 1);
                assert(sub.drop_last() =~= clauses_v(cands@).subrange(0, i as int));
                assert(sub.last() == lits_v(cands@[i as int]@));
            }
            i = i + 1;
        }
        proof {
            assert(clauses_v(cands@).subrange(0, cands@.len() as int) =~= clauses_v(cands@));
        }
    }
}

/// An origin as (source, line, premise name, kind).
pub type OriginV = (Seq<char>, u32, Option<Seq<char>>, Seq<char>);

/// The abstract value of an origin.
pub open spec fn origin_v(o: Origin) -> OriginV {
    (o.source@, o.line, opt_view(o.premise), o.kind@)
}

/// `n` keeps `o` as its prefix and every entry it adds is `g`.
pub open spec fn tagged_after(o: Seq<OriginV>, n: Seq<OriginV>, g: OriginV) -> bool {
    &&& o.len() <= n.len()
    &&& n.subrange(0, o.len() as int) == o
    &&& forall|i: int| o.len() <= i < n.len() ==> n[i] == g
}

proof fn lemma_tagged_refl(o: Seq<OriginV>, g: OriginV)
    ensures
        tagged_after(o, o, g),
{
    assert(o.subrange(0, o.len() as int) =~= o);
}

proof fn lemma_tagged_trans(a: Seq<OriginV>, b: Seq<OriginV>, c: Seq<OriginV>, g: OriginV)
    requires
        tagged_after(a, b, g),
        tagged_after(b, c, g),
    ensures
        tagged_after(a, c, g),
{
    assert forall|i: int| 0 <= i < a.len() implies c[i] == a[i] by {
        assert(c[i] == c.subrange(0, b.len() as int)[i]);
        assert(b[i] == b.subrange(0, a.len() as int)[i]);
    }
    assert(c.subrange(0, a.len() as int) =~= a);
    assert forall|i: int| a.len() <= i < c.len() implies c[i] == g by {
        if i < b.len() {
            assert(c[i] == c.subrange(0, b.len() as int)[i]);
        }
    }
}

/// An owned copy of an origin.
pub fn copy_origin(o: &Origin) -> (r: Origin)
    ensures
        r.source@ == o.source@,
        r.line == o.line,
        opt_view(r.premise) == opt_view(o.premise),
        r.kind == o.kind,
{
    Origin { source: o.source.clone(), line: o.line, premise: copy_opt(&o.premise), kind: o.kind }
}

/// The abstract value of a fact: atom, value, kind and softness.
pub type FactV = (KeyV, Value, Seq<char>, bool);

/// The facts as (atom, value, kind, soft).
pub(crate) open spec fn fact_views(fs: Seq<RawFact>) -> Seq<FactV> {
    fs.map_values(|f: RawFact| (f.key@, f.value, f.origin.kind@, f.soft))
}

/// Append a fact unless one with the same atom, value and kind is present
/// (an identical `FACT` twice is idempotent; a `FACT` and a `NOT` on one atom
/// are both kept).
pub open spec fn push_fact(fs: Seq<FactV>, f: FactV) -> Seq<FactV> {
    if exists|i: int| 0 <= i < fs.len() && fs[i].0 == f.0 && fs[i].1 == f.1 && fs[i].2 == f.2 {
        fs
    } else {
        fs.push(f)
    }
}

impl Compiler {
    /// The facts so far, as (atom, value, kind, soft).
    pub closed spec fn fact_list(self) -> Seq<FactV> {
        fact_views(self.facts@)
    }

    /// The interned atoms in canonical order.
    pub closed spec fn key_list(self) -> Seq<KeyV> {
        key_views(self.keys@)
    }

    /// Where each clause came from, in clause order.
    pub closed spec fn fact_origins(self) -> Seq<OriginV> {
        self.facts@.map_values(|f: RawFact| origin_v(f.origin))
    }

    /// Where each clause came from, in clause order.
    pub closed spec fn clause_origins(self) -> Seq<OriginV> {
        self.clauses@.map_values(|c: RawClause| origin_v(c.origin))
    }

    /// Where each rule came from, in rule order.
    pub closed spec fn rule_origins(self) -> Seq<OriginV> {
        self.rules@.map_values(|r: RawRule| origin_v(r.origin))
    }

    /// There is one origin per clause and one per rule.
    pub proof fn lemma_origin_lens(self)
        ensures
            self.fact_origins().len() == self.fact_list().len(),
            self.clause_origins().len() == self.clause_list().len(),
            self.rule_origins().len() == self.rule_list().len(),
    {
    }

    /// The interned atoms, in canonical order, are exactly the atom set.
    pub proof fn lemma_key_list_atoms(self)
        ensures
            self.key_list().to_set() == self.atoms(),
    {
    }

    /// The atoms read as data (relation edges and declared ports).
    pub closed spec fn consumed_set(self) -> Set<KeyV> {
        key_views(self.decls.consumed@).to_set()
    }

    /// Domain `d` declares a `VAR` port named `n`.
    pub closed spec fn declares_port(self, d: Seq<char>, n: Seq<char>) -> bool {
        port_declared(self.decls.ports@, d, n)
    }

    /// The `CHECK` queries so far.
    pub closed spec fn check_list(self) -> Seq<Check> {
        self.decls.checks@
    }

    /// The imports recorded as pending so far.
    pub closed spec fn pending_list(self) -> Seq<String> {
        self.decls.pending_imports@
    }

    /// Emit a list premise: intern its atoms, then its clauses. A `ONEOF`
    /// also records each member's object as a declared value of its variable.
    fn emit_list(&mut self, op: ListOp, keys: &Vec<AtomKey>, origin: &Origin)
        requires
            old(self).wf(),
        ensures
            final(self).wf(),
            final(self).atoms() == old(self).atoms() + key_views(keys@).to_set(),
            final(self).clause_list() == push_all(old(self).clause_list(), list_clauses(op, key_views(keys@))),
            tagged_after(old(self).clause_origins(), final(self).clause_origins(), origin_v(*origin)),
            final(self).facts == old(self).facts,
            final(self).rules == old(self).rules,
            same_but_oneof(old(self).decls, final(self).decls),
            op != ListOp::OneOf ==> final(self).decls == old(self).decls,
    {
        self.intern_all(keys);
        let ghost kv = key_views(keys@);
        let ghost mid = self.clause_list();
        let ghost co0 = self.clause_origins();
        proof {
            assert(mid == old(self).clause_list());
            assert(co0 == old(self).clause_origins());
        }
        proof {
            crate::lower::lemma_pairwise_keys(kv);
            crate::lower::lemma_alo_keys(kv);
        }
        match op {
            ListOp::Exclusive => {
                self.emit_pairwise(keys, origin);
                proof {
                    assert(list_clauses(op, kv) == pairwise_spec(kv));
                }
            },
            ListOp::Forbids => {
                self.emit_pairwise(keys, origin);
                proof {
                    assert(list_clauses(op, kv) == pairwise_spec(kv));
                }
            },
            ListOp::OneOf => {
                self.emit_pairwise(keys, origin);
                let ghost co1 = self.clause_origins();
                let alo = at_least_one_lits(keys);
                proof {
                    assert(lits_v(alo@).len() == alo@.len());
                    assert(at_least_one_spec(kv).len() == kv.len());
                    assert forall|j: int| 0 <= j < alo@.len() implies self.atoms().contains(#[trigger] alo@[j].key@) by {
                        assert(lits_v(alo@)[j] == lit_v(alo@[j]));
                        assert(at_least_one_spec(kv)[j] == (kv[j], true));
                        assert(kv.contains(kv[j]));
                    }
                }
                self.push_clause(alo, origin);
                proof {
                    let l = list_clauses(op, kv);
                    assert(l.drop_last() =~= pairwise_spec(kv));
                    assert(l.last() == at_least_one_spec(kv));
                    assert(push_all(mid, l) == push_dedup(push_all(mid, l.drop_last()), l.last()));
                    assert(self.clause_list() == push_all(mid, l));
                    lemma_tagged_trans(co0, co1, self.clause_origins(), origin_v(*origin));
                }
                self.record_oneof(keys);
            },
            ListOp::AtLeast => {
                let alo = at_least_one_lits(keys);
                proof {
                    assert(lits_v(alo@).len() == alo@.len());
                    assert(at_least_one_spec(kv).len() == kv.len());
                    assert forall|j: int| 0 <= j < alo@.len() implies self.atoms().contains(#[trigger] alo@[j].key@) by {
                        assert(lits_v(alo@)[j] == lit_v(alo@[j]));
                        assert(at_least_one_spec(kv)[j] == (kv[j], true));
                        assert(kv.contains(kv[j]));
                    }
                }
                self.push_clause(alo, origin);
                proof {
                    let l = list_clauses(op, kv);
                    assert(l.drop_last() =~= Seq::<Seq<LitV>>::empty());
                    assert(l.last() == at_least_one_spec(kv));
                    assert(push_all(mid, l) == push_dedup(push_all(mid, l.drop_last()), l.last()));
                    assert(self.clause_list() == push_all(mid, l));
                }
            },
        }
    }

    /// "At most one": one clause `[a_i, a_j]` per pair of the (interned) keys.
    fn emit_pairwise(&mut self, keys: &Vec<AtomKey>, origin: &Origin)
        requires
            old(self).wf(),
            key_views(keys@).to_set() <= old(self).atoms(),
        ensures
            final(self).wf(),
            final(self).clause_list() == push_all(old(self).clause_list(), pairwise_spec(key_views(keys@))),
            tagged_after(old(self).clause_origins(), final(self).clause_origins(), origin_v(*origin)),
            final(self).keys == old(self).keys,
            final(self).facts == old(self).facts,
            final(self).rules == old(self).rules,
            final(self).decls == old(self).decls,
    {
        let cs = pairwise_lits(keys);
        proof {
            crate::lower::lemma_pairwise_keys(key_views(keys@));
            crate::lower::lemma_cands_keys(cs@, self.atoms());
        }
        self.push_clauses(&cs, origin);
    }

    /// Record each `(predicate, object)` member of a `ONEOF` as a declared
    /// value of its `(domain, subject, predicate)` variable.
    fn record_oneof(&mut self, keys: &Vec<AtomKey>)
        ensures
            final(self).keys == old(self).keys,
            final(self).facts == old(self).facts,
            final(self).clauses == old(self).clauses,
            final(self).rules == old(self).rules,
            same_but_oneof(old(self).decls, final(self).decls),
            forall|d: Seq<char>, sub: Seq<char>, p: Seq<char>, v: Seq<char>| #[trigger] declares(final(self).decls.oneof@, d, sub, p, v)
                <==> (declares(old(self).decls.oneof@, d, sub, p, v) || oneof_member(key_views(keys@), d, sub, p, v)),
    {
        let mut i: usize = 0;
        while i < keys.len()
            invariant
                i <= keys@.len(),
                self.keys == old(self).keys,
                self.facts == old(self).facts,
                self.clauses == old(self).clauses,
                self.rules == old(self).rules,
                same_but_oneof(old(self).decls, self.decls),
                forall|d: Seq<char>, sub: Seq<char>, p: Seq<char>, v: Seq<char>| #[trigger] declares(self.decls.oneof@, d, sub, p, v)
                    <==> (declares(old(self).decls.oneof@, d, sub, p, v) || oneof_member(key_views(keys@).subrange(0, i as int), d, sub, p, v)),
            decreases keys@.len() - i,
        {
            let ghost o0 = self.decls.oneof@;
            let ghost kv = key_views(keys@);
            proof {
                assert forall|d: Seq<char>, sub: Seq<char>, p: Seq<char>, v: Seq<char>| #[trigger] oneof_member(kv.subrange(0, i + 1), d, sub, p, v)
                    <==> (oneof_member(kv.subrange(0, i as int), d, sub, p, v) || (kv[i as int].domain == d && kv[i as int].subject == sub
                    && kv[i as int].predicate == Some(p) && kv[i as int].object == Some(v))) by {
                    if oneof_member(kv.subrange(0, i + 1), d, sub, p, v) {
                        let j = choose|j: int| 0 <= j < i + 1 && #[trigger] kv.subrange(0, i + 1)[j] == (KeyV { domain: d, subject: sub, predicate: Some(p), object: Some(v) });
                        if j < i {
                            assert(kv.subrange(0, i as int)[j] == kv.subrange(0, i + 1)[j]);
                        }
                    }
                    if oneof_member(kv.subrange(0, i as int), d, sub, p, v) {
                        let j = choose|j: int| 0 <= j < i && #[trigger] kv.subrange(0, i as int)[j] == (KeyV { domain: d, subject: sub, predicate: Some(p), object: Some(v) });
                        assert(kv.subrange(0, i + 1)[j] == kv.subrange(0, i as int)[j]);
                    }
                    if kv[i as int].domain == d && kv[i as int].subject == sub && kv[i as int].predicate == Some(p) && kv[i as int].object == Some(v) {
                        assert(kv.subrange(0, i + 1)[i as int] == kv[i as int]);
                    }
                }
            }
            let k = &keys[i];
            match (&k.predicate, &k.object) {
                (Some(p), Some(o)) => {
                    if !self.has_oneof(&k.domain, &k.subject, p, o) {
                        let e = (k.domain.clone(), k.subject.clone(), p.clone(), o.clone());
                        self.decls.oneof.push(e);
                        proof {
                            assert forall|d: Seq<char>, sub: Seq<char>, pp: Seq<char>, v: Seq<char>| #[trigger] declares(self.decls.oneof@, d, sub, pp, v)
                                <==> (declares(o0, d, sub, pp, v) || (k.domain@ == d && k.subject@ == sub && p@ == pp && o@ == v)) by {
                                if declares(self.decls.oneof@, d, sub, pp, v) {
                                    let j = choose|j: int| 0 <= j < self.decls.oneof@.len() && (#[trigger] self.decls.oneof@[j]).0@ == d
                                        && self.decls.oneof@[j].1@ == sub && self.decls.oneof@[j].2@ == pp && self.decls.oneof@[j].3@ == v;
                                    if j < o0.len() {
                                        assert(self.decls.oneof@[j] == o0[j]);
                                    }
                                }
                                if declares(o0, d, sub, pp, v) {
                                    let j = choose|j: int| 0 <= j < o0.len() && (#[trigger] o0[j]).0@ == d && o0[j].1@ == sub && o0[j].2@ == pp && o0[j].3@ == v;
                                    assert(self.decls.oneof@[j] == o0[j]);
                                }
                                if k.domain@ == d && k.subject@ == sub && p@ == pp && o@ == v {
                                    assert(self.decls.oneof@[o0.len() as int] == e);
                                }
                            }
                        }
                    }
                },
                _ => {},
            }
            i = i + 1;
        }
        proof {
            assert(key_views(keys@).subrange(0, keys@.len() as int) =~= key_views(keys@));
        }
    }

    /// Whether `value` is a declared value of `(domain, subject, predicate)`.
    fn has_oneof(&self, domain: &String, subject: &String, predicate: &String, value: &String) -> (r: bool)
        ensures
            r == exists|i: int| 0 <= i < self.decls.oneof@.len() && (#[trigger] self.decls.oneof@[i]).0@ == domain@
                && self.decls.oneof@[i].1@ == subject@ && self.decls.oneof@[i].2@ == predicate@
                && self.decls.oneof@[i].3@ == value@,
    {
        let mut i: usize = 0;
        while i < self.decls.oneof.len()
            invariant
                i <= self.decls.oneof@.len(),
                forall|j: int| 0 <= j < i ==> !((#[trigger] self.decls.oneof@[j]).0@ == domain@
                    && self.decls.oneof@[j].1@ == subject@ && self.decls.oneof@[j].2@ == predicate@
                    && self.decls.oneof@[j].3@ == value@),
            decreases self.decls.oneof@.len() - i,
        {
            let e = &self.decls.oneof[i];
            if crate::ir::compare_strings(&e.0, domain) == Order::Equal
                && crate::ir::compare_strings(&e.1, subject) == Order::Equal
                && crate::ir::compare_strings(&e.2, predicate) == Order::Equal
                && crate::ir::compare_strings(&e.3, value) == Order::Equal {
                return true;
            }
            i = i + 1;
        }
        false
    }

    /// Emit an implication premise: intern its atoms, then `Impossible(A ∧ ¬C)`
    /// grouped by the connectives.
    fn emit_impl(&mut self, ante: &Vec<RawLit>, ac: Conn, cons: &Vec<RawLit>, cc: Conn, origin: &Origin)
        requires
            old(self).wf(),
        ensures
            final(self).wf(),
            final(self).atoms() == old(self).atoms() + crate::lower::lit_keys(lits_v(ante@))
                + crate::lower::lit_keys(lits_v(cons@)),
            final(self).clause_list() == push_all(
                old(self).clause_list(),
                impl_spec(lits_v(ante@), ac, lits_v(cons@), cc),
            ),
            tagged_after(old(self).clause_origins(), final(self).clause_origins(), origin_v(*origin)),
            final(self).facts == old(self).facts,
            final(self).rules == old(self).rules,
            final(self).decls == old(self).decls,
    {
        self.intern_lits(ante);
        self.intern_lits(cons);
        let cs = impl_lits(ante, ac, cons, cc);
        proof {
            crate::lower::lemma_impl_keys(lits_v(ante@), ac, lits_v(cons@), cc);
            assert(crate::lower::lit_keys(lits_v(ante@)) + crate::lower::lit_keys(lits_v(cons@)) <= self.atoms());
            let s = self.atoms();
            let ii = impl_spec(lits_v(ante@), ac, lits_v(cons@), cc);
            assert(crate::lower::keys_within(clauses_v(cs@), s)) by {
                assert forall|i: int, j: int| 0 <= i < ii.len() && 0 <= j < ii[i].len() implies s.contains((#[trigger] ii[i][j]).0) by {
                    assert((crate::lower::lit_keys(lits_v(ante@)) + crate::lower::lit_keys(lits_v(cons@))).contains(ii[i][j].0));
                }
            }
            crate::lower::lemma_cands_keys(cs@, s);
        }
        self.push_clauses(&cs, origin);
    }

    /// Emit a rule: intern its atoms, then one rule on the whole antecedent
    /// (`AND`) or one rule per antecedent literal (`OR`).
    #[verifier::spinoff_prover]
    fn emit_rule(&mut self, ante: &Vec<RawLit>, ac: Conn, cons: &Vec<RawLit>, origin: &Origin)
        requires
            old(self).wf(),
        ensures
            final(self).wf(),
            final(self).atoms() == old(self).atoms() + crate::lower::lit_keys(lits_v(ante@))
                + crate::lower::lit_keys(lits_v(cons@)),
            final(self).rule_list() == old(self).rule_list() + rules_spec(lits_v(ante@), ac, lits_v(cons@)),
            tagged_after(old(self).rule_origins(), final(self).rule_origins(), origin_v(*origin)),
            final(self).facts == old(self).facts,
            final(self).clauses == old(self).clauses,
            final(self).decls == old(self).decls,
    {
        self.intern_lits(ante);
        self.intern_lits(cons);
        let ghost s = self.atoms();
        proof {
            assert forall|j: int| 0 <= j < ante@.len() implies s.contains(#[trigger] ante@[j].key@) by {
                assert(lits_v(ante@)[j] == lit_v(ante@[j]));
                assert(lits_v(ante@).map_values(|l: LitV| l.0)[j] == ante@[j].key@);
                assert(lits_v(ante@).map_values(|l: LitV| l.0).contains(ante@[j].key@));
            }
            assert forall|j: int| 0 <= j < cons@.len() implies s.contains(#[trigger] cons@[j].key@) by {
                assert(lits_v(cons@)[j] == lit_v(cons@[j]));
                assert(lits_v(cons@).map_values(|l: LitV| l.0)[j] == cons@[j].key@);
                assert(lits_v(cons@).map_values(|l: LitV| l.0).contains(cons@[j].key@));
            }
        }
        let ghost before = self.rules@;
        proof {
            lemma_tagged_refl(self.rule_origins(), origin_v(*origin));
        }
        match ac {
            Conn::And => {
                let r = RawRule { antecedent: copy_lits(ante), consequent: copy_lits(cons), origin: copy_origin(origin) };
                let ghost rv = r;
                proof {
                    lemma_lits_keys_in(rv.antecedent@, ante@, s);
                    lemma_lits_keys_in(rv.consequent@, cons@, s);
                }
                self.rules.push(r);
                proof {
                    assert(self.rules@.last() == rv);
                    assert(rule_lits(self.rules@) =~= rule_lits(before) + rules_spec(lits_v(ante@), ac, lits_v(cons@)));
                    self.lemma_rules_interned(before, s);
                    let bo = before.map_values(|r: RawRule| origin_v(r.origin));
                    assert(self.rule_origins() =~= bo.push(origin_v(*origin)));
                    assert(self.rule_origins().subrange(0, bo.len() as int) =~= bo);
                }
            },
            Conn::Or => {
                let mut i: usize = 0;
                while i < ante.len()
                    invariant
                        i <= ante@.len(),
                        ac == Conn::Or,
                        s == self.atoms(),
                        crate::ir::keys_sorted(key_views(self.keys@)),
                        crate::ir::keys_sorted(key_views(self.decls.consumed@)),
                        interned(s, self.facts@, self.clauses@, self.rules@),
                        forall|j: int| 0 <= j < ante@.len() ==> s.contains(#[trigger] ante@[j].key@),
                        forall|j: int| 0 <= j < cons@.len() ==> s.contains(#[trigger] cons@[j].key@),
                        rule_lits(self.rules@) == rule_lits(before) + rules_spec(lits_v(ante@), ac, lits_v(cons@)).subrange(0, i as int),
                        self.facts == old(self).facts,
                        self.clauses == old(self).clauses,
                        self.decls == old(self).decls,
                        self.keys == self.keys,
                        tagged_after(before.map_values(|r: RawRule| origin_v(r.origin)), self.rule_origins(), origin_v(*origin)),
                    decreases ante@.len() - i,
                {
                    let mut one: Vec<RawLit> = Vec::new();
                    one.push(copy_lit_of(&ante[i]));
                    let r = RawRule { antecedent: one, consequent: copy_lits(cons), origin: copy_origin(origin) };
                    let ghost rs0 = self.rules@;
                    proof {
                        assert(lits_v(r.antecedent@) =~= seq![lits_v(ante@)[i as int]]);
                    }
                    let ghost rv = r;
                    proof {
                        lemma_lits_keys_in(rv.consequent@, cons@, s);
                    }
                    self.rules.push(r);
                    proof {
                        let spec = rules_spec(lits_v(ante@), ac, lits_v(cons@));
                        assert(lits_v(ante@).len() == ante@.len());
                        assert(spec[i as int] == (seq![lits_v(ante@)[i as int]], lits_v(cons@)));
                        assert(rule_lits(self.rules@) =~= rule_lits(rs0).push((lits_v(rv.antecedent@), lits_v(rv.consequent@))));
                        let o0 = rs0.map_values(|r: RawRule| origin_v(r.origin));
                        assert(self.rule_origins() =~= o0.push(origin_v(*origin)));
                        assert(self.rule_origins().subrange(0, o0.len() as int) =~= o0);
                        lemma_tagged_trans(before.map_values(|r: RawRule| origin_v(r.origin)), o0, self.rule_origins(), origin_v(*origin));
                        assert(spec.subrange(0, i + 1) =~= spec.subrange(0, i as int).push(spec[i as int]));
                        assert(rule_lits(self.rules@) =~= rule_lits(before) + rules_spec(lits_v(ante@), ac, lits_v(cons@)).subrange(0, i + 1));
                        assert forall|a: int, j: int| 0 <= a < self.rules@.len() && 0 <= j < self.rules@[a].antecedent@.len() implies s.contains((#[trigger] self.rules@[a].antecedent@[j]).key@) by {
                            if a < rs0.len() {
                                assert(self.rules@[a] == rs0[a]);
                            } else {
                                assert(self.rules@[a].antecedent@[j].key@ == ante@[i as int].key@);
                            }
                        }
                        assert forall|a: int, j: int| 0 <= a < self.rules@.len() && 0 <= j < self.rules@[a].consequent@.len() implies s.contains((#[trigger] self.rules@[a].consequent@[j]).key@) by {
                            if a < rs0.len() {
                                assert(self.rules@[a] == rs0[a]);
                            } else {
                                assert(self.rules@[a] == rv);
                            }
                        }
                    }
                    i = i + 1;
                }
                proof {
                    assert(rules_spec(lits_v(ante@), ac, lits_v(cons@)).subrange(0, ante@.len() as int)
                        =~= rules_spec(lits_v(ante@), ac, lits_v(cons@)));
                }
            },
        }
    }

    #[verifier::spinoff_prover]
    proof fn lemma_rules_interned(&self, before: Seq<RawRule>, s: Set<KeyV>)
        requires
            s == self.atoms(),
            self.rules@.len() == before.len() + 1,
            forall|a: int| 0 <= a < before.len() ==> self.rules@[a] == before[a],
            interned(s, self.facts@, self.clauses@, before),
            forall|j: int| 0 <= j < self.rules@.last().antecedent@.len() ==> s.contains(#[trigger] self.rules@.last().antecedent@[j].key@),
            forall|j: int| 0 <= j < self.rules@.last().consequent@.len() ==> s.contains(#[trigger] self.rules@.last().consequent@[j].key@),
        ensures
            interned(s, self.facts@, self.clauses@, self.rules@),
    {
        assert forall|a: int, j: int| 0 <= a < self.rules@.len() && 0 <= j < self.rules@[a].antecedent@.len() implies s.contains((#[trigger] self.rules@[a].antecedent@[j]).key@) by {
            if a < before.len() {
                assert(self.rules@[a] == before[a]);
            } else {
                assert(self.rules@[a] == self.rules@.last());
            }
        }
        assert forall|a: int, j: int| 0 <= a < self.rules@.len() && 0 <= j < self.rules@[a].consequent@.len() implies s.contains((#[trigger] self.rules@[a].consequent@[j]).key@) by {
            if a < before.len() {
                assert(self.rules@[a] == before[a]);
            } else {
                assert(self.rules@[a] == self.rules@.last());
            }
        }
    }
}

proof fn lemma_lits_keys_in(ls: Seq<RawLit>, ms: Seq<RawLit>, s: Set<KeyV>)
    requires
        lits_v(ls) == lits_v(ms),
        forall|j: int| 0 <= j < ms.len() ==> s.contains(#[trigger] ms[j].key@),
    ensures
        forall|j: int| 0 <= j < ls.len() ==> s.contains(#[trigger] ls[j].key@),
{
    assert(lits_v(ls).len() == ls.len() && lits_v(ms).len() == ms.len());
    assert forall|j: int| 0 <= j < ls.len() implies s.contains(#[trigger] ls[j].key@) by {
        assert(lits_v(ls)[j] == lit_v(ls[j]));
        assert(lits_v(ms)[j] == lit_v(ms[j]));
    }
}

fn copy_lit_of(l: &RawLit) -> (r: RawLit)
    ensures
        lit_v(r) == lit_v(*l),
        r.key@ == l.key@,
{
    RawLit { key: copy_key(&l.key), negated: l.negated }
}

/// Every declaration but the `ONEOF` value sets is the same.
pub(crate) open spec fn same_but_oneof(a: Decls, b: Decls) -> bool {
    &&& a.checks == b.checks
    &&& a.pending_imports == b.pending_imports
    &&& a.defined == b.defined
    &&& a.sets == b.sets
    &&& a.relations == b.relations
    &&& a.consumed == b.consumed
    &&& a.ports == b.ports
    &&& a.provides == b.provides
}

/// What emitting one (possibly grounded) named body does: the clauses or rules
/// it adds, or the error it stops with.
pub(crate) open spec fn emitted(
    o: Compiler,
    n: Compiler,
    body: Body,
    is_rule: bool,
    ctx: DomainCtx,
    subs: Seq<(Seq<char>, Seq<char>)>,
    r: Result<(), CompileError>,
) -> bool {
    match body {
        Body::Impl { antecedent, ante_conn, consequent, cons_conn } => {
            let a = lits_spec(ctx, antecedent@, subs);
            let c = lits_spec(ctx, consequent@, subs);
            if is_rule && cons_conn == Conn::Or {
                r matches Err(CompileError::RuleDisjunctiveConsequent { .. })
            } else if a is None || c is None {
                r matches Err(CompileError::UnknownDomain { .. })
            } else if is_rule {
                &&& r is Ok
                &&& n.rule_list() == o.rule_list() + rules_spec(a->0, ante_conn, c->0)
                &&& n.clause_list() == o.clause_list()
            } else {
                &&& r is Ok
                &&& n.clause_list() == push_all(o.clause_list(), impl_spec(a->0, ante_conn, c->0, cons_conn))
                &&& n.rule_list() == o.rule_list()
            }
        },
        Body::List { op, atoms } => match keys_spec(ctx, atoms@, subs) {
            None => r matches Err(CompileError::UnknownDomain { .. }),
            Some(ks) => {
                &&& r is Ok
                &&& n.clause_list() == push_all(o.clause_list(), list_clauses(op, ks))
                &&& n.rule_list() == o.rule_list()
            },
        },
        Body::Exists { binder, set, atom } => match set_lookup(sets_v(o.decls.sets@), set.data@) {
            None => r matches Err(CompileError::UnknownSet { .. }),
            Some(els) => match exists_keys(ctx, atom.data, subs, binder.data@, els) {
                None => r matches Err(CompileError::UnknownDomain { .. }),
                Some(ks) => {
                    &&& r is Ok
                    &&& n.clause_list() == push_dedup(o.clause_list(), at_least_one_spec(ks))
                    &&& n.rule_list() == o.rule_list()
                },
            },
        },
    }
}

impl Compiler {
    /// The declared set named `name`, by position.
    fn find_set(&self, name: &String) -> (r: Option<usize>)
        ensures
            match r {
                Some(i) => i < self.decls.sets@.len() && set_lookup(sets_v(self.decls.sets@), name@) == Some(
                    crate::table::string_views(self.decls.sets@[i as int].elements@),
                ) && self.decls.sets@[i as int].name@ == name@ && forall|j: int| 0 <= j < i ==> (#[trigger] self.decls.sets@[j]).name@ != name@,
                None => set_lookup(sets_v(self.decls.sets@), name@) is None,
            },
    {
        let ghost sv = sets_v(self.decls.sets@);
        let mut i: usize = 0;
        proof {
            assert(sv.subrange(0, sv.len() as int) =~= sv);
        }
        while i < self.decls.sets.len()
            invariant
                sv == sets_v(self.decls.sets@),
                i <= sv.len(),
                set_lookup(sv, name@) == set_lookup(sv.subrange(i as int, sv.len() as int), name@),
                forall|j: int| 0 <= j < i ==> (#[trigger] self.decls.sets@[j]).name@ != name@,
            decreases sv.len() - i,
        {
            let ghost rest = sv.subrange(i as int, sv.len() as int);
            proof {
                assert(rest[0] == sv[i as int]);
                assert(rest.drop_first() =~= sv.subrange(i + 1, sv.len() as int));
            }
            if crate::ir::compare_strings(&self.decls.sets[i].name, name) == Order::Equal {
                return Some(i);
            }
            i = i + 1;
        }
        None
    }

    /// `" — did you mean `x`?"` for the declared set nearest to `name`.
    fn set_suggestion(&self, name: &String) -> (r: String)
        ensures
            ({
                let ns = set_names(self.decls.sets@);
                (exists|i: int| crate::error::nearest_at(name@, ns, i) && r@ == crate::error::suggestion_spec(name@, ns, Some(i)))
                    || (crate::error::nothing_near(name@, ns) && r@.len() == 0)
            }),
    {
        let mut names: Vec<&str> = Vec::new();
        let mut i: usize = 0;
        while i < self.decls.sets.len()
            invariant
                i <= self.decls.sets@.len(),
                crate::error::cand_views(names@) == set_names(self.decls.sets@.subrange(0, i as int)),
            decreases self.decls.sets@.len() - i,
        {
            let ghost n0 = names@;
            names.push(self.decls.sets[i].name.as_str());
            proof {
                assert(crate::error::cand_views(names@) =~= crate::error::cand_views(n0).push(self.decls.sets@[i as int].name@));
                assert(set_names(self.decls.sets@.subrange(0, i + 1)) =~= set_names(self.decls.sets@.subrange(0, i as int)).push(
                    self.decls.sets@[i as int].name@,
                ));
            }
            i = i + 1;
        }
        proof {
            assert(self.decls.sets@.subrange(0, self.decls.sets@.len() as int) =~= self.decls.sets@);
        }
        crate::error::did_you_mean(name.as_str(), names.as_slice())
    }

    /// Emit the clauses or rules of one named body, with the binders `subs`
    /// substituted (a `FOR EACH` grounding; empty when unquantified).
    fn emit_named(
        &mut self,
        source: &String,
        name: &String,
        line: u32,
        body: &Body,
        subs: &Vec<(String, String)>,
        is_rule: bool,
        ctx: &DomainCtx,
    ) -> (r: Result<(), CompileError>)
        requires
            old(self).wf(),
        ensures
            final(self).wf(),
            emitted(*old(self), *final(self), *body, is_rule, *ctx, subs_v(subs@), r),
            final(self).facts == old(self).facts,
            old(self).atoms() <= final(self).atoms(),
            same_but_oneof(old(self).decls, final(self).decls),
            r is Err ==> *final(self) == *old(self),
            r matches Err(e) ==> stmt_error(e),
            r is Ok ==> tagged_after(
                old(self).clause_origins(),
                final(self).clause_origins(),
                (source@, line, Some(name@), named_kind(*body, is_rule)),
            ),
            r is Ok ==> tagged_after(
                old(self).rule_origins(),
                final(self).rule_origins(),
                (source@, line, Some(name@), named_kind(*body, is_rule)),
            ),
            (is_rule && body matches Body::Impl { cons_conn: Conn::Or, .. }) ==> (r matches Err(
                CompileError::RuleDisjunctiveConsequent { name: n },
            ) && n@ == name@),
    {
        match body {
            Body::Impl { antecedent, ante_conn, consequent, cons_conn } => {
                if is_rule && *cons_conn == Conn::Or {
                    return Err(CompileError::RuleDisjunctiveConsequent { name: name.clone() });
                }
                let a = resolve_lits(ctx, antecedent, subs)?;
                let c = resolve_lits(ctx, consequent, subs)?;
                let kind = if is_rule {
                    kw::RULE
                } else {
                    kw::PREMISE
                };
                let origin = Origin { source: source.clone(), line, premise: Some(name.clone()), kind };
                let ghost g = (source@, line, Some(name@), named_kind(*body, is_rule));
                proof {
                    assert(origin_v(origin) == g);
                    lemma_tagged_refl(self.clause_origins(), g);
                    lemma_tagged_refl(self.rule_origins(), g);
                }
                if is_rule {
                    self.emit_rule(&a, *ante_conn, &c, &origin);
                } else {
                    self.emit_impl(&a, *ante_conn, &c, *cons_conn, &origin);
                }
                Ok(())
            },
            Body::List { op, atoms } => {
                let ks = resolve_atoms(ctx, atoms, subs)?;
                let origin = Origin {
                    source: source.clone(),
                    line,
                    premise: Some(name.clone()),
                    kind: crate::sig::list_kind(*op),
                };
                proof {
                    assert(origin_v(origin) == (source@, line, Some(name@), named_kind(*body, is_rule)));
                    lemma_tagged_refl(self.rule_origins(), origin_v(origin));
                }
                self.emit_list(*op, &ks, &origin);
                Ok(())
            },
            Body::Exists { binder, set, atom } => {
                let idx = match self.find_set(&set.data) {
                    Some(i) => i,
                    None => {
                        return Err(
                            CompileError::UnknownSet {
                                file: source.clone(),
                                line: set.line as u32,
                                set: set.data.clone(),
                                suggestion: self.set_suggestion(&set.data),
                            },
                        );
                    },
                };
                let ghost els = crate::table::string_views(self.decls.sets@[idx as int].elements@);
                let n = self.decls.sets[idx].elements.len();
                if n > 0 {
                    let _d = ctx.resolve(&atom.data.domain)?;
                }
                let mut ks: Vec<AtomKey> = Vec::new();
                let mut j: usize = 0;
                while j < n
                    invariant
                        idx < self.decls.sets@.len(),
                        n == self.decls.sets@[idx as int].elements@.len(),
                        els == crate::table::string_views(self.decls.sets@[idx as int].elements@),
                        j <= n,
                        n > 0 ==> resolve_spec_ok(*ctx, atom.data),
                        *self == *old(self),
                        key_views(ks@) == els.subrange(0, j as int).map_values(
                            |el: Seq<char>| key2_spec(*ctx, atom.data, subs_v(subs@), seq![(binder.data@, el)])->0,
                        ),
                    decreases n - j,
                {
                    let mut inner: Vec<(String, String)> = Vec::new();
                    inner.push((binder.data.clone(), self.decls.sets[idx].elements[j].clone()));
                    proof {
                        assert(subs_v(inner@) =~= seq![(binder.data@, els[j as int])]);
                    }
                    let k = ctx.key2(&atom.data, subs, &inner);
                    match k {
                        Ok(k) => {
                            let ghost ks0 = ks@;
                            let ghost kv = k@;
                            ks.push(k);
                            proof {
                                assert(key_views(ks@) =~= key_views(ks0).push(kv));
                                let f = |el: Seq<char>| key2_spec(*ctx, atom.data, subs_v(subs@), seq![(binder.data@, el)])->0;
                                assert(els.subrange(0, j + 1) =~= els.subrange(0, j as int).push(els[j as int]));
                                assert(els.subrange(0, j + 1).map_values(f) =~= els.subrange(0, j as int).map_values(f).push(f(els[j as int])));
                                assert(kv == f(els[j as int]));
                                assert(key_views(ks@) =~= els.subrange(0, j + 1).map_values(
                                    |el: Seq<char>| key2_spec(*ctx, atom.data, subs_v(subs@), seq![(binder.data@, el)])->0,
                                ));
                            }
                        },
                        Err(e) => {
                            return Err(e);
                        },
                    }
                    j = j + 1;
                }
                // (the loop above needs the domain to resolve; check it first)
                proof {
                    assert(els.subrange(0, n as int) =~= els);
                }
                proof {
                    assert(exists_keys(*ctx, atom.data, subs_v(subs@), binder.data@, els) == Some(key_views(ks@)));
                }
                let origin = Origin { source: source.clone(), line, premise: Some(name.clone()), kind: kw::EXISTS };
                proof {
                    assert(origin_v(origin) == (source@, line, Some(name@), named_kind(*body, is_rule)));
                    lemma_tagged_refl(self.rule_origins(), origin_v(origin));
                }
                self.intern_all(&ks);
                let alo = at_least_one_lits(&ks);
                proof {
                    assert(lits_v(alo@).len() == alo@.len());
                    assert forall|j: int| 0 <= j < alo@.len() implies self.atoms().contains(#[trigger] alo@[j].key@) by {
                        assert(lits_v(alo@)[j] == lit_v(alo@[j]));
                        assert(at_least_one_spec(key_views(ks@))[j] == (key_views(ks@)[j], true));
                        assert(key_views(ks@).contains(key_views(ks@)[j]));
                    }
                }
                self.push_clause(alo, &origin);
                Ok(())
            },
        }
    }
}

/// Emitting `body` under the substitutions of `ss`, one at a time, went
/// through the compilers `cs` with results `rs`: step `i` takes `cs[i]` to
/// `cs[i + 1]` with result `rs[i]`, and only the last step may fail.
pub(crate) open spec fn ground_steps(
    cs: Seq<Compiler>,
    rs: Seq<Result<(), CompileError>>,
    body: Body,
    is_rule: bool,
    ctx: DomainCtx,
    ss: Seq<Seq<(Seq<char>, Seq<char>)>>,
) -> bool {
    &&& cs.len() == rs.len() + 1
    &&& rs.len() <= ss.len()
    &&& forall|i: int| 0 <= i < rs.len() ==> #[trigger] emitted(cs[i], cs[i + 1], body, is_rule, ctx, ss[i], rs[i])
    &&& forall|i: int| 0 <= i < rs.len() - 1 ==> (#[trigger] rs[i]) is Ok
}

/// Emitting `body` once per substitution of `ss`, in order, takes `o` to `n`
/// with result `r`; the first error stops the grounding and is the result.
pub(crate) open spec fn grounded(
    o: Compiler,
    n: Compiler,
    body: Body,
    is_rule: bool,
    ctx: DomainCtx,
    ss: Seq<Seq<(Seq<char>, Seq<char>)>>,
    r: Result<(), CompileError>,
) -> bool {
    exists|cs: Seq<Compiler>, rs: Seq<Result<(), CompileError>>|
        #[trigger] ground_steps(cs, rs, body, is_rule, ctx, ss) && cs[0] == o && cs.last() == n && if rs.len() > 0
            && rs.last() is Err {
            r == rs.last()
        } else {
            r is Ok && rs.len() == ss.len()
        }
}

/// One substitution per set element: the binder is the element.
pub open spec fn set_substs(binder: Seq<char>, els: Seq<Seq<char>>) -> Seq<Seq<(Seq<char>, Seq<char>)>> {
    els.map_values(|e: Seq<char>| seq![(binder, e)])
}

/// One substitution per relation pair: the left binder is the pair's first
/// element, the right binder its second.
pub open spec fn pair_substs(left: Seq<char>, right: Seq<char>, ps: Seq<(Seq<char>, Seq<char>)>) -> Seq<
    Seq<(Seq<char>, Seq<char>)>,
> {
    ps.map_values(|p: (Seq<char>, Seq<char>)| seq![(left, p.0), (right, p.1)])
}

/// A `FOR EACH` over a set: an undeclared set is an `UnknownSet` error naming
/// the source and the set; otherwise the body is emitted once per element, in
/// order, with the binder bound to the element, starting from `o` with only
/// its definition recorded.
pub(crate) open spec fn set_grounding(
    o: Compiler,
    n: Compiler,
    source: Seq<char>,
    body: Body,
    is_rule: bool,
    ctx: DomainCtx,
    binder: Seq<char>,
    set: Seq<char>,
    r: Result<(), CompileError>,
) -> bool {
    match set_lookup(sets_v(o.decls.sets@), set) {
        None => r matches Err(CompileError::UnknownSet { file, set: s, suggestion, .. }) && file@ == source && s@ == set && ({
            let ns = set_names(o.decls.sets@);
            (exists|i: int| crate::error::nearest_at(set, ns, i) && suggestion@ == crate::error::suggestion_spec(set, ns, Some(i)))
                || (crate::error::nothing_near(set, ns) && suggestion@.len() == 0)
        }),
        Some(els) => exists|mid: Compiler|
            #[trigger] grounded(mid, n, body, is_rule, ctx, set_substs(binder, els), r) && mid.clause_list() == o.clause_list()
                && mid.rule_list() == o.rule_list() && mid.decls.sets == o.decls.sets,
    }
}

/// A `FOR EACH` over a relation: the body is emitted once per recorded pair of
/// `predicate`, in order, with `left` and `right` bound to the pair.
pub(crate) open spec fn pair_grounding(
    o: Compiler,
    n: Compiler,
    body: Body,
    is_rule: bool,
    ctx: DomainCtx,
    left: Seq<char>,
    predicate: Seq<char>,
    right: Seq<char>,
    r: Result<(), CompileError>,
) -> bool {
    exists|mid: Compiler|
        #[trigger] grounded(mid, n, body, is_rule, ctx, pair_substs(left, right, rel_pairs(rels_v(o.decls.relations@), predicate)), r)
            && mid.clause_list() == o.clause_list() && mid.rule_list() == o.rule_list() && mid.decls.sets == o.decls.sets
}

/// What recording one named `PREMISE` or `RULE` does: an unresolvable domain
/// or a conflicting redefinition in the same source is an error that changes
/// nothing, an identical redefinition is accepted and changes nothing, and a
/// new definition is recorded and its body emitted (once, or once per element
/// or pair of its `FOR EACH`).
pub(crate) open spec fn named_effect(
    o: Compiler,
    n: Compiler,
    source: Seq<char>,
    name: Located<String>,
    quant: Option<Quant>,
    body: Body,
    is_rule: bool,
    ctx: DomainCtx,
    r: Result<(), CompileError>,
) -> bool {
    match crate::sig::canon_spec(name.data@, body, is_rule, ctx) {
        None => r matches Err(CompileError::UnknownDomain { .. }) && n == o,
        Some(c) => match defined_lookup(o.decls.defined@, source, name.data@) {
            Some(h) => if h == crate::hash::text_hash(named_text(c, quant)) {
                r is Ok && n == o
            } else {
                (r matches Err(CompileError::PremiseRedefinition { name: n }) && n@ == name.data@)
                    && n == o
            },
            None => {
                &&& defined_lookup(n.decls.defined@, source, name.data@) == Some(
                    crate::hash::text_hash(named_text(c, quant)),
                )
                &&& (quant is None ==> exists|mid: Compiler| #[trigger] emitted(mid, n, body, is_rule, ctx, Seq::empty(), r)
                    && mid.clause_list() == o.clause_list() && mid.rule_list() == o.rule_list()
                    && mid.decls.sets == o.decls.sets)
                &&& (quant matches Some(Quant::InSet { binder, set }) ==> set_grounding(
                    o,
                    n,
                    source,
                    body,
                    is_rule,
                    ctx,
                    binder.data@,
                    set.data@,
                    r,
                ))
                &&& (quant matches Some(Quant::Relation { left, predicate, right }) ==> pair_grounding(
                    o,
                    n,
                    body,
                    is_rule,
                    ctx,
                    left.data@,
                    predicate.data@,
                    right.data@,
                    r,
                ))
            },
        },
    }
}

/// `n` is `o` with the port `e` inserted at some position.
pub(crate) open spec fn port_added(
    o: Seq<PortDecl>,
    n: Seq<PortDecl>,
    e: (Seq<char>, Seq<char>, Option<bool>, Seq<char>, u32),
) -> bool {
    exists|i: int| 0 <= i <= o.len() && port_views(n) == #[trigger] port_views(o).insert(i, e)
}

/// The text of an optional located name.
pub open spec fn located_view(o: Option<Located<String>>) -> Option<Seq<char>> {
    match o {
        Some(l) => Some(l.data@),
        None => None,
    }
}

/// A check as (subject, bidirectional).
pub open spec fn check_views(cs: Seq<Check>) -> Seq<(Option<Seq<char>>, bool)> {
    cs.map_values(|c: Check| (opt_view(c.subject), c.bidirectional))
}

/// The reference a `PROVIDE` of `a` records, with its domain prefix resolved.
pub(crate) open spec fn provided_ref(ctx: DomainCtx, a: Atom) -> PortRefV {
    PortRefV {
        domain: if a.domain is None {
            None
        } else {
            crate::lower::resolve_spec(ctx, opt_view(a.domain))
        },
        subject: a.subject@,
        predicate: opt_view(a.predicate),
        object: opt_view(a.object),
    }
}

/// Where the facts of `n` came from: those of `o`, and, where `n` holds one
/// fact more, the statement of `source` on `line` with keyword `kind`.
pub(crate) open spec fn facts_placed(o: Compiler, n: Compiler, source: Seq<char>, line: usize, kind: Seq<char>) -> bool {
    n.fact_origins() == if n.fact_list().len() == o.fact_list().len() {
        o.fact_origins()
    } else {
        o.fact_origins().push((source, line as u32, None::<Seq<char>>, kind))
    }
}

/// What adding one statement of a source does: its fact, its named body, its
/// check, its port declaration or its provided value, or the error it stops
/// with.
pub closed spec fn stmt_effect(
    o: Compiler,
    n: Compiler,
    source: Seq<char>,
    stmt: Statement,
    ctx: DomainCtx,
    r: Result<(), CompileError>,
) -> bool {
    &&& match stmt {
        Statement::Fact(a) => match key_spec(ctx, a.data, Seq::empty()) {
            None => r is Err,
            Some(k) => r is Ok && n.fact_list() == push_fact(o.fact_list(), (k, Value::True, kw::FACT@, false))
                && n.clause_list() == o.clause_list() && n.rule_list() == o.rule_list() && facts_placed(o, n, source, a.line, kw::FACT@),
        },
        Statement::Negation(a) => match key_spec(ctx, a.data, Seq::empty()) {
            None => r is Err,
            Some(k) => r is Ok && n.fact_list() == push_fact(o.fact_list(), (k, Value::False, kw::NOT@, false))
                && n.clause_list() == o.clause_list() && n.rule_list() == o.rule_list() && facts_placed(o, n, source, a.line, kw::NOT@),
        },
        Statement::Assume(l) => match key_spec(ctx, l.data.atom, Seq::empty()) {
            None => r is Err,
            Some(k) => r is Ok && n.fact_list() == push_fact(
                o.fact_list(),
                (k, if l.data.negated { Value::False } else { Value::True }, kw::ASSUME@, true),
            ) && n.clause_list() == o.clause_list() && n.rule_list() == o.rule_list() && facts_placed(o, n, source, l.line, kw::ASSUME@),
        },
        Statement::Premise { name, quant, body } => n.fact_list() == o.fact_list() && n.fact_origins() == o.fact_origins() && named_effect(
            o,
            n,
            source,
            name,
            quant,
            body,
            false,
            ctx,
            r,
        ),
        Statement::Rule { name, quant, body } => n.fact_list() == o.fact_list() && n.fact_origins() == o.fact_origins() && named_effect(
            o,
            n,
            source,
            name,
            quant,
            body,
            true,
            ctx,
            r,
        ),
        _ => n.fact_list() == o.fact_list() && n.fact_origins() == o.fact_origins() && n.clause_list() == o.clause_list()
            && n.rule_list() == o.rule_list(),
    }
    &&& match stmt {
        Statement::Check { subject, bidirectional } => r is Ok && check_views(n.check_list()) == check_views(
            o.check_list(),
        ).push((located_view(subject), bidirectional)),
        Statement::Var { name, default } => {
            &&& r is Ok
            &&& port_declared(n.decls.ports@, ctx.current@, name.data@)
            &&& (port_declared(o.decls.ports@, ctx.current@, name.data@) && n.decls.ports
                == o.decls.ports) || port_added(
                o.decls.ports@,
                n.decls.ports@,
                (ctx.current@, name.data@, default, source, name.line as u32),
            )
        },
        Statement::Provide { atom, value } => {
            &&& (r is Ok <==> (atom.data.domain is None || crate::lower::resolve_spec(ctx, opt_view(atom.data.domain)) is Some))
            &&& r is Ok ==> provide_binds(n.decls.provides@) == provide_binds(o.decls.provides@).push(
                (provided_ref(ctx, atom.data), value, "PROVIDE "@ + source),
            )
            &&& r is Err ==> n == o
        },
        _ => true,
    }
    &&& (!(stmt is Check) ==> n.check_list() == o.check_list())
    &&& (!(stmt is Var) ==> n.decls.ports == o.decls.ports)
    &&& (!(stmt is Provide) ==> n.decls.provides == o.decls.provides)
    &&& n.pending_list() == o.pending_list()
}

/// A source's declarations and closures are collected from `o` into `n`:
/// atoms, facts, clauses, rules and every other declaration are kept; each set
/// name maps to its last `SET` in the source (or keeps its elements); each
/// relation gains the source's 3-part facts and is then closed by the source's
/// `CLOSE`s.
pub(crate) open spec fn decls_collected(o: Compiler, n: Compiler, stmts: Seq<Statement>) -> bool {
    &&& n.keys == o.keys
    &&& n.facts == o.facts
    &&& n.clauses == o.clauses
    &&& n.rules == o.rules
    &&& n.decls.checks == o.decls.checks
    &&& n.decls.pending_imports == o.decls.pending_imports
    &&& n.decls.defined == o.decls.defined
    &&& n.decls.oneof == o.decls.oneof
    &&& n.decls.consumed == o.decls.consumed
    &&& n.decls.ports == o.decls.ports
    &&& n.decls.provides == o.decls.provides
    &&& forall|nm: Seq<char>| #[trigger] set_lookup(sets_v(n.decls.sets@), nm) == match last_set(stmts, nm) {
        Some(e) => Some(e),
        None => set_lookup(sets_v(o.decls.sets@), nm),
    }
    &&& forall|q: Seq<char>|
        #[trigger] rel_pairs(rels_v(n.decls.relations@), q).to_set() == after_closes(
            stmts,
            q,
            (rel_pairs(rels_v(o.decls.relations@), q) + fact_pairs(stmts, q)).to_set(),
        )->Some_0
    &&& forall|q: Seq<char>|
        !closes_rel(stmts, q) ==> #[trigger] rel_pairs(rels_v(n.decls.relations@), q) == rel_pairs(rels_v(o.decls.relations@), q)
            + fact_pairs(stmts, q)
}

/// The pending imports, as text.
pub(crate) open spec fn pending_views(c: Compiler) -> Seq<Seq<char>> {
    c.decls.pending_imports@.map_values(|p: String| p@)
}

/// One statement of a source, added after the declarations: `DOMAIN` changes
/// nothing, `IMPORT` records its path as pending and changes nothing else,
/// and every other statement has its own effect, without error.
pub(crate) open spec fn step_effect(o: Compiler, n: Compiler, source: Seq<char>, st: Statement, ctx: DomainCtx) -> bool {
    match st {
        Statement::Domain(_) => n == o,
        Statement::Import { path, .. } => {
            &&& n.keys == o.keys
            &&& n.facts == o.facts
            &&& n.clauses == o.clauses
            &&& n.rules == o.rules
            &&& n.decls.checks == o.decls.checks
            &&& n.decls.defined == o.decls.defined
            &&& n.decls.oneof == o.decls.oneof
            &&& n.decls.sets == o.decls.sets
            &&& n.decls.relations == o.decls.relations
            &&& n.decls.consumed == o.decls.consumed
            &&& n.decls.ports == o.decls.ports
            &&& n.decls.provides == o.decls.provides
            &&& pending_views(n) == pending_views(o).push(path.data@)
        },
        _ => stmt_effect(o, n, source, st, ctx, Ok(())),
    }
}

/// The statements are added one after another, through the compilers `cs`.
pub(crate) open spec fn source_steps(cs: Seq<Compiler>, source: Seq<char>, stmts: Seq<Statement>, ctx: DomainCtx) -> bool {
    &&& cs.len() == stmts.len() + 1
    &&& forall|i: int| 0 <= i < stmts.len() ==> #[trigger] step_effect(cs[i], cs[i + 1], source, stmts[i], ctx)
}

/// A source's own naming context: its domain, bound to itself only.
pub(crate) open spec fn own_ctx(ctx: DomainCtx, d: Seq<char>) -> bool {
    &&& ctx.current@ == d
    &&& ctx.aliases@.len() == 1
    &&& ctx.aliases@[0].0@ == d
    &&& ctx.aliases@[0].1@ == d
}

/// Adding the source `text`, labelled `source`, took `o` to `n`: the text is
/// the program `stmts` with exactly one `DOMAIN`; its declarations and
/// closures were collected, then its statements were added in order in its
/// own domain, through the compilers `cs`.
pub closed spec fn source_applied(
    o: Compiler,
    n: Compiler,
    source: Seq<char>,
    text: Seq<char>,
    stmts: Seq<Statement>,
    cs: Seq<Compiler>,
    ctx: DomainCtx,
) -> bool {
    &&& crate::syntax::program_ok(text, stmts)
    &&& domain_count(stmts) == 1
    &&& first_domain(stmts) == Some(ctx.current@)
    &&& own_ctx(ctx, ctx.current@)
    &&& decls_collected(o, cs[0], stmts)
    &&& source_steps(cs, source, stmts, ctx)
    &&& cs.last() == n
}

/// One statement of a resolved file: `DOMAIN` and `IMPORT` change nothing
/// (the graph walk handled the imports), every other statement has its own
/// effect, without error.
pub(crate) open spec fn file_step(o: Compiler, n: Compiler, source: Seq<char>, st: Statement, ctx: DomainCtx) -> bool {
    match st {
        Statement::Domain(_) => n == o,
        Statement::Import { .. } => n == o,
        _ => stmt_effect(o, n, source, st, ctx, Ok(())),
    }
}

/// Adding the resolved file `text`, labelled `source`, in the context `ctx`
/// took `o` to `n`: the text is the program `stmts`; its declarations and
/// closures were collected, then its statements were added in order.
pub(crate) open spec fn file_applied(
    o: Compiler,
    n: Compiler,
    source: Seq<char>,
    text: Seq<char>,
    ctx: DomainCtx,
    stmts: Seq<Statement>,
    cs: Seq<Compiler>,
) -> bool {
    &&& crate::syntax::program_ok(text, stmts)
    &&& decls_collected(o, cs[0], stmts)
    &&& cs.len() == stmts.len() + 1
    &&& forall|i: int| 0 <= i < stmts.len() ==> #[trigger] file_step(cs[i], cs[i + 1], source, stmts[i], ctx)
    &&& cs.last() == n
}

/// Compiling the source `text`, labelled `source`, against `inputs` gave `c`:
/// from the fresh compiler `s0` the source was added (to `s1`), its values
/// were checked against the closed sets, its ports were resolved (to `s2`,
/// with `c`'s placeholders), and `c` is what `s2` lowers to.
pub closed spec fn source_compiled(
    s0: Compiler,
    s1: Compiler,
    s2: Compiler,
    source: Seq<char>,
    text: Seq<char>,
    inputs: Seq<(String, crate::ir::PortBinding)>,
    stmts: Seq<Statement>,
    cs: Seq<Compiler>,
    ctx: DomainCtx,
    c: crate::ir::Compiled,
) -> bool {
    &&& s0.fresh()
    &&& source_applied(s0, s1, source, text, stmts, cs, ctx)
    &&& s1.closed_world()
    &&& s1.ports_resolved(s2, inputs, c.placeholders@)
    &&& s2.lowered_to(c)
}

/// Every step of `source_compiled`, as a caller in this crate needs it.
pub(crate) proof fn lemma_source_compiled(
    s0: Compiler,
    s1: Compiler,
    s2: Compiler,
    source: Seq<char>,
    text: Seq<char>,
    inputs: Seq<(String, crate::ir::PortBinding)>,
    stmts: Seq<Statement>,
    cs: Seq<Compiler>,
    ctx: DomainCtx,
    c: crate::ir::Compiled,
)
    requires
        s0.fresh(),
        source_applied(s0, s1, source, text, stmts, cs, ctx),
        s1.closed_world(),
        s1.ports_resolved(s2, inputs, c.placeholders@),
        s2.lowered_to(c),
    ensures
        source_compiled(s0, s1, s2, source, text, inputs, stmts, cs, ctx, c),
{
}

/// The errors a single statement can stop with: a domain prefix bound to
/// nothing, a conflicting redefinition, a quantifier over an undeclared set,
/// or a `RULE` concluding a disjunction.
pub open spec fn stmt_error(e: CompileError) -> bool {
    ||| e is UnknownDomain
    ||| e is PremiseRedefinition
    ||| e is UnknownSet
    ||| e is RuleDisjunctiveConsequent
}

/// Statement `i` of the source's program failed with `e`, taking the compiler
/// to `n`: the declarations were collected from `o` into `cs[0]`, the
/// statements before `i` were added through `cs`, and statement `i` (neither
/// `DOMAIN` nor `IMPORT`) stopped with `e`.
pub(crate) open spec fn step_failed(
    o: Compiler,
    n: Compiler,
    source: Seq<char>,
    stmts: Seq<Statement>,
    cs: Seq<Compiler>,
    ctx: DomainCtx,
    i: int,
    e: CompileError,
) -> bool {
    &&& 0 <= i < stmts.len()
    &&& !(stmts[i] is Domain || stmts[i] is Import)
    &&& first_domain(stmts) == Some(ctx.current@)
    &&& own_ctx(ctx, ctx.current@)
    &&& decls_collected(o, cs[0], stmts)
    &&& source_steps(cs, source, stmts.subrange(0, i), ctx)
    &&& stmt_effect(cs.last(), n, source, stmts[i], ctx, Err(e))
    &&& stmt_error(e)
}

/// Why the program `stmts` of a source labelled `source` could not be added to
/// `o` (leaving `n`): it declares no `DOMAIN`, or several; a `CLOSE` makes its
/// relation cyclic; or one of its statements failed.
pub(crate) open spec fn stmts_failed(o: Compiler, n: Compiler, source: Seq<char>, stmts: Seq<Statement>, e: CompileError) -> bool {
    ||| domain_count(stmts) == 0 && (e matches CompileError::MissingDomain { file } && file@ == source) && n == o
    ||| domain_count(stmts) > 1 && (e matches CompileError::DuplicateDomain { file } && file@ == source) && n == o
    ||| domain_count(stmts) == 1 && e is CyclicRelation && exists|q: Seq<char>|
        #[trigger] after_closes(stmts, q, (rel_pairs(rels_v(o.decls.relations@), q) + fact_pairs(stmts, q)).to_set()) is None
    ||| domain_count(stmts) == 1 && exists|cs: Seq<Compiler>, ctx: DomainCtx, i: int| #[trigger] step_failed(o, n, source, stmts, cs, ctx, i, e)
}

/// Why adding the source `text`, labelled `source`, to `o` failed with `e`,
/// leaving `n`: the text is not a program (a syntax error labelled with the
/// source, nothing changed; no program the parser reads back is the text), or
/// it is a program that could not be added.
pub closed spec fn source_failed(o: Compiler, n: Compiler, source: Seq<char>, text: Seq<char>, e: CompileError) -> bool {
    ||| (e matches CompileError::Parse(d) && d.label() == Some(source)) && n == o && !(text.len() < usize::MAX && exists|s: Seq<Statement>|
        #[trigger] crate::syntax::program_ok(text, s) && crate::syntax::readable(text, s))
    ||| exists|stmts: Seq<Statement>| #[trigger] crate::syntax::program_ok(text, stmts) && stmts_failed(o, n, source, stmts, e)
}

/// Why adding the resolved file `text`, labelled `source`, to `o` in the
/// context `ctx` failed with `e`, leaving `n`: the text is not a program the
/// parser reads back (a syntax error labelled with the source, nothing
/// changed), a `CLOSE` makes its relation cyclic, or statement `i` stopped
/// with `e` after the ones before it were added (through `cs`).
pub(crate) open spec fn file_failed(o: Compiler, n: Compiler, source: Seq<char>, text: Seq<char>, ctx: DomainCtx, e: CompileError) -> bool {
    ||| (e matches CompileError::Parse(d) && d.label() == Some(source)) && n == o && !(text.len() < usize::MAX && exists|s: Seq<Statement>|
        #[trigger] crate::syntax::program_ok(text, s) && crate::syntax::readable(text, s))
    ||| exists|stmts: Seq<Statement>| #[trigger] crate::syntax::program_ok(text, stmts) && {
        ||| e is CyclicRelation && exists|q: Seq<char>|
            #[trigger] after_closes(stmts, q, (rel_pairs(rels_v(o.decls.relations@), q) + fact_pairs(stmts, q)).to_set()) is None
        ||| exists|cs: Seq<Compiler>, i: int| #[trigger] file_step_failed(o, n, source, stmts, cs, ctx, i, e)
    }
}

/// Statement `i` of a resolved file's program failed with `e`, taking the
/// compiler to `n`: the declarations were collected from `o` into `cs[0]`,
/// the statements before `i` were added through `cs`, and statement `i`
/// (neither `DOMAIN` nor `IMPORT`) stopped with `e`.
pub(crate) open spec fn file_step_failed(
    o: Compiler,
    n: Compiler,
    source: Seq<char>,
    stmts: Seq<Statement>,
    cs: Seq<Compiler>,
    ctx: DomainCtx,
    i: int,
    e: CompileError,
) -> bool {
    &&& 0 <= i < stmts.len()
    &&& !(stmts[i] is Domain || stmts[i] is Import)
    &&& decls_collected(o, cs[0], stmts)
    &&& cs.len() == i + 1
    &&& (forall|k: int| 0 <= k < i ==> #[trigger] file_step(cs[k], cs[k + 1], source, stmts[k], ctx))
    &&& stmt_effect(cs.last(), n, source, stmts[i], ctx, Err(e))
    &&& stmt_error(e)
}

/// The kind a named body's clauses and rules carry: `RULE` or `PREMISE` for an
/// implication, the list keyword for a list, `EXISTS` for an existential.
pub open spec fn named_kind(body: Body, is_rule: bool) -> Seq<char> {
    match body {
        Body::Impl { .. } => if is_rule {
            kw::RULE@
        } else {
            kw::PREMISE@
        },
        Body::List { op, .. } => crate::sig::list_kind_spec(op),
        Body::Exists { .. } => kw::EXISTS@,
    }
}

/// The body hash a named construct was first recorded with in `source`.
pub(crate) open spec fn defined_lookup(defs: Seq<(String, String, String)>, source: Seq<char>, name: Seq<char>) -> Option<Seq<char>>
    decreases defs.len(),
{
    if defs.len() == 0 {
        None
    } else if defs[0].0@ == source && defs[0].1@ == name {
        Some(defs[0].2@)
    } else {
        defined_lookup(defs.drop_first(), source, name)
    }
}

/// The text a named construct's redefinition hash covers: its canonical body,
/// then its quantifier's signature.
pub open spec fn named_text(canon: Seq<char>, quant: Option<Quant>) -> Seq<char> {
    match quant {
        Some(q) => canon + crate::sig::quant_sig_spec(q),
        None => canon,
    }
}

impl Compiler {
    /// Accumulate a fact; an identical one (same atom, value and kind) is
    /// dropped as idempotent, while a `FACT` and a `NOT` on one atom are both
    /// kept so the solver can report the conflict.
    fn add_fact(
        &mut self,
        source: &String,
        a: &Atom,
        line: usize,
        value: Value,
        kind: &'static str,
        soft: bool,
        ctx: &DomainCtx,
    ) -> (r: Result<(), CompileError>)
        requires
            old(self).wf(),
        ensures
            final(self).wf(),
            match key_spec(*ctx, *a, Seq::empty()) {
                None => r matches Err(CompileError::UnknownDomain { .. }) && *final(self) == *old(self),
                Some(k) => {
                    &&& r is Ok
                    &&& final(self).atoms() == old(self).atoms().insert(k)
                    &&& final(self).fact_list() == push_fact(old(self).fact_list(), (k, value, kind@, soft))
                    &&& facts_placed(*old(self), *final(self), source@, line, kind@)
                },
            },
            final(self).clauses == old(self).clauses,
            final(self).rules == old(self).rules,
            final(self).decls == old(self).decls,
    {
        let none: Vec<(String, String)> = Vec::new();
        proof {
            assert(subs_v(none@) =~= Seq::<(Seq<char>, Seq<char>)>::empty());
        }
        let key = ctx.key(a, &none)?;
        self.intern(&key);
        let ghost fl = fact_views(self.facts@);
        let ghost s1 = *self;
        let mut i: usize = 0;
        while i < self.facts.len()
            invariant
                *self == s1,
                s1.wf(),
                s1.clauses == old(self).clauses,
                s1.rules == old(self).rules,
                s1.decls == old(self).decls,
                s1.facts == old(self).facts,
                s1.atoms() == old(self).atoms().insert(key@),
                key_spec(*ctx, *a, Seq::empty()) == Some(key@),
                fl == fact_views(self.facts@),
                i <= self.facts@.len(),
                forall|j: int| 0 <= j < i ==> !((#[trigger] fl[j]).0 == key@ && fl[j].1 == value && fl[j].2 == kind@),
            decreases self.facts@.len() - i,
        {
            let f = &self.facts[i];
            proof {
                assert(fl[i as int] == (f.key@, f.value, f.origin.kind@, f.soft));
            }
            if f.value == value && compare_keys(&f.key, &key) == Order::Equal && crate::text::str_eq(f.origin.kind, kind) {
                proof {
                    assert(fl[i as int].0 == key@ && fl[i as int].1 == value && fl[i as int].2 == kind@);
                    assert(push_fact(fl, (key@, value, kind@, soft)) == fl);
                }
                return Ok(());
            }
            i = i + 1;
        }
        let ghost before = self.facts@;
        let ghost kv = key@;
        let fact = RawFact {
            key,
            value,
            origin: Origin { source: source.clone(), line: line as u32, premise: None, kind },
            soft,
        };
        let ghost fv = fact;
        self.facts.push(fact);
        proof {
            assert(fact_views(self.facts@) =~= fl.push((kv, value, kind@, soft)));
            assert(self.fact_origins() =~= old(self).fact_origins().push((source@, line as u32, None::<Seq<char>>, kind@)));
            assert forall|i: int| 0 <= i < self.facts@.len() implies self.atoms().contains(#[trigger] self.facts@[i].key@) by {
                if i < before.len() {
                    assert(self.facts@[i] == before[i]);
                } else {
                    assert(self.facts@[i] == fv);
                }
            }
        }
        Ok(())
    }

    /// Where a named construct is recorded in `source`, by position.
    fn find_defined(&self, source: &String, name: &String) -> (r: Option<usize>)
        ensures
            match r {
                Some(i) => i < self.decls.defined@.len() && defined_lookup(self.decls.defined@, source@, name@)
                    == Some(self.decls.defined@[i as int].2@),
                None => defined_lookup(self.decls.defined@, source@, name@) is None,
            },
    {
        let ghost d = self.decls.defined@;
        let mut i: usize = 0;
        proof {
            assert(d.subrange(0, d.len() as int) =~= d);
        }
        while i < self.decls.defined.len()
            invariant
                d == self.decls.defined@,
                i <= d.len(),
                defined_lookup(d, source@, name@) == defined_lookup(d.subrange(i as int, d.len() as int), source@, name@),
            decreases d.len() - i,
        {
            let ghost rest = d.subrange(i as int, d.len() as int);
            proof {
                assert(rest[0] == d[i as int]);
                assert(rest.drop_first() =~= d.subrange(i + 1, d.len() as int));
            }
            if crate::ir::compare_strings(&self.decls.defined[i].0, source) == Order::Equal
                && crate::ir::compare_strings(&self.decls.defined[i].1, name) == Order::Equal {
                return Some(i);
            }
            i = i + 1;
        }
        None
    }

    /// Handle a `PREMISE` or `RULE`. Its canonical body (with its quantifier)
    /// is hashed: the same name in the same source with the same hash is
    /// idempotent, with a different hash a `PremiseRedefinition`. A first
    /// definition is emitted once, or once per element / related pair under a
    /// `FOR EACH`.
    fn add_named(
        &mut self,
        source: &String,
        name: &Located<String>,
        quant: &Option<Quant>,
        body: &Body,
        is_rule: bool,
        ctx: &DomainCtx,
    ) -> (r: Result<(), CompileError>)
        requires
            old(self).wf(),
        ensures
            final(self).wf(),
            final(self).facts == old(self).facts,
            old(self).atoms() <= final(self).atoms(),
            final(self).decls.checks == old(self).decls.checks,
            final(self).decls.ports == old(self).decls.ports,
            final(self).decls.provides == old(self).decls.provides,
            final(self).decls.pending_imports == old(self).decls.pending_imports,
            r matches Err(e) ==> stmt_error(e),
            match crate::sig::canon_spec(name.data@, *body, is_rule, *ctx) {
                None => r matches Err(CompileError::UnknownDomain { .. }) && *final(self) == *old(self),
                Some(c) => match defined_lookup(old(self).decls.defined@, source@, name.data@) {
                    Some(h) => if h == crate::hash::text_hash(named_text(c, *quant)) {
                        r is Ok && *final(self) == *old(self)
                    } else {
                        (r matches Err(CompileError::PremiseRedefinition { name: n }) && n@ == name.data@)
                            && *final(self) == *old(self)
                    },
                    None => {
                        &&& defined_lookup(final(self).decls.defined@, source@, name.data@) == Some(
                            crate::hash::text_hash(named_text(c, *quant)),
                        )
                        &&& (quant is None ==> exists|mid: Compiler| #[trigger] emitted(mid, *final(self), *body, is_rule, *ctx, Seq::empty(), r)
                            && mid.clause_list() == old(self).clause_list() && mid.rule_list() == old(self).rule_list()
                            && mid.decls.sets == old(self).decls.sets)
                        &&& (quant matches Some(Quant::InSet { binder, set }) ==> set_grounding(
                            *old(self),
                            *final(self),
                            source@,
                            *body,
                            is_rule,
                            *ctx,
                            binder.data@,
                            set.data@,
                            r,
                        ))
                        &&& (quant matches Some(Quant::Relation { left, predicate, right }) ==> pair_grounding(
                            *old(self),
                            *final(self),
                            *body,
                            is_rule,
                            *ctx,
                            left.data@,
                            predicate.data@,
                            right.data@,
                            r,
                        ))
                    },
                },
            },
    {
        let line = name.line as u32;
        let mut canon = crate::sig::canonical_body(&name.data, body, is_rule, ctx)?;
        match quant {
            Some(q) => {
                let qs = crate::sig::quant_sig(q);
                crate::text::push_string(&mut canon, &qs);
            },
            None => {},
        }
        let hash = crate::hash::hash_text(&canon);
        match self.find_defined(source, &name.data) {
            Some(i) => {
                if crate::ir::compare_strings(&self.decls.defined[i].2, &hash) == Order::Equal {
                    return Ok(());
                } else {
                    return Err(CompileError::PremiseRedefinition { name: name.data.clone() });
                }
            },
            None => {},
        }
        let ghost d0 = self.decls.defined@;
        self.decls.defined.push((source.clone(), name.data.clone(), hash));
        proof {
            lemma_defined_push(d0, self.decls.defined@.last(), source@, name.data@);
        }
        let ghost mid = *self;
        match quant {
            None => {
                let none: Vec<(String, String)> = Vec::new();
                proof {
                    assert(subs_v(none@) =~= Seq::<(Seq<char>, Seq<char>)>::empty());
                }
                let r = self.emit_named(source, &name.data, line, body, &none, is_rule, ctx);
                proof {
                    assert(emitted(mid, *self, *body, is_rule, *ctx, Seq::empty(), r));
                }
                r
            },
            Some(Quant::InSet { binder, set }) => {
                let idx = match self.find_set(&set.data) {
                    Some(i) => i,
                    None => {
                        return Err(
                            CompileError::UnknownSet {
                                file: source.clone(),
                                line: set.line as u32,
                                set: set.data.clone(),
                                suggestion: self.set_suggestion(&set.data),
                            },
                        );
                    },
                };
                let els = copy_strings(&self.decls.sets[idx].elements);
                let ghost ss = set_substs(binder.data@, crate::table::string_views(els@));
                let ghost mut cs: Seq<Compiler> = seq![mid];
                let ghost mut rs: Seq<Result<(), CompileError>> = Seq::empty();
                let mut j: usize = 0;
                while j < els.len()
                    invariant
                        self.wf(),
                        self.facts == old(self).facts,
                        old(self).atoms() <= self.atoms(),
                        self.decls.defined == mid.decls.defined,
                        self.decls.checks == old(self).decls.checks,
                        self.decls.ports == old(self).decls.ports,
                        self.decls.provides == old(self).decls.provides,
                        self.decls.pending_imports == old(self).decls.pending_imports,
                        crate::sig::canon_spec(name.data@, *body, is_rule, *ctx) is Some,
                        quant is Some,
                        defined_lookup(old(self).decls.defined@, source@, name.data@) is None,
                        defined_lookup(mid.decls.defined@, source@, name.data@) == Some(crate::hash::text_hash(named_text(crate::sig::canon_spec(name.data@, *body, is_rule, *ctx)->0, *quant))),
                        ss == set_substs(binder.data@, crate::table::string_views(els@)),
                        *quant == Some(Quant::InSet { binder: *binder, set: *set }),
                        set_lookup(sets_v(old(self).decls.sets@), set.data@) == Some(crate::table::string_views(els@)),
                        mid.clause_list() == old(self).clause_list(),
                        mid.rule_list() == old(self).rule_list(),
                        mid.decls.sets == old(self).decls.sets,
                        j <= els@.len(),
                        ground_steps(cs, rs, *body, is_rule, *ctx, ss),
                        rs.len() == j,
                        forall|i: int| 0 <= i < rs.len() ==> (#[trigger] rs[i]) is Ok,
                        cs[0] == mid,
                        cs.last() == *self,
                    decreases els@.len() - j,
                {
                    let mut subs: Vec<(String, String)> = Vec::new();
                    subs.push((binder.data.clone(), els[j].clone()));
                    proof {
                        assert(subs_v(subs@) =~= ss[j as int]);
                    }
                    let r = self.emit_named(source, &name.data, line, body, &subs, is_rule, ctx);
                    proof {
                        let cs0 = cs;
                        let rs0 = rs;
                        cs = cs.push(*self);
                        rs = rs.push(r);
                        assert forall|i: int| 0 <= i < rs.len() implies #[trigger] emitted(cs[i], cs[i + 1], *body, is_rule, *ctx, ss[i], rs[i]) by {
                            if i < rs0.len() {
                                assert(emitted(cs0[i], cs0[i + 1], *body, is_rule, *ctx, ss[i], rs0[i]));
                            }
                        }
                        assert(ground_steps(cs, rs, *body, is_rule, *ctx, ss));
                    }
                    match r {
                        Ok(()) => {},
                        Err(e) => {
                            proof {
                                assert(ground_steps(cs, rs, *body, is_rule, *ctx, ss) && cs[0] == mid && cs.last() == *self);
                                assert(grounded(mid, *self, *body, is_rule, *ctx, ss, Err(e)));
                                let lk = set_lookup(sets_v(old(self).decls.sets@), set.data@);
                    assert(lk == Some(crate::table::string_views(els@)));
                    assert(set_substs(binder.data@, lk->0) == ss);
                    assert(grounded(mid, *self, *body, is_rule, *ctx, set_substs(binder.data@, lk->0), Err(e)));
                    assert(set_grounding(*old(self), *self, source@, *body, is_rule, *ctx, binder.data@, set.data@, Err(e)));
                            }
                            return Err(e);
                        },
                    }
                    j = j + 1;
                }
                proof {
                    assert(ground_steps(cs, rs, *body, is_rule, *ctx, ss) && cs[0] == mid && cs.last() == *self);
                    assert(grounded(mid, *self, *body, is_rule, *ctx, ss, Ok(())));
                    let lk = set_lookup(sets_v(old(self).decls.sets@), set.data@);
                    assert(lk == Some(crate::table::string_views(els@)));
                    assert(set_substs(binder.data@, lk->0) == ss);
                    assert(grounded(mid, *self, *body, is_rule, *ctx, set_substs(binder.data@, lk->0), Ok(())));
                    assert(set_grounding(*old(self), *self, source@, *body, is_rule, *ctx, binder.data@, set.data@, Ok(())));
                }
                Ok(())
            },
            Some(Quant::Relation { left, predicate, right }) => {
                let pairs = self.relation_pairs(&predicate.data);
                let ghost ss = pair_substs(left.data@, right.data@, crate::closure::pair_views(pairs@));
                let ghost mut cs: Seq<Compiler> = seq![mid];
                let ghost mut rs: Seq<Result<(), CompileError>> = Seq::empty();
                let mut j: usize = 0;
                while j < pairs.len()
                    invariant
                        self.wf(),
                        self.facts == old(self).facts,
                        old(self).atoms() <= self.atoms(),
                        self.decls.defined == mid.decls.defined,
                        self.decls.checks == old(self).decls.checks,
                        self.decls.ports == old(self).decls.ports,
                        self.decls.provides == old(self).decls.provides,
                        self.decls.pending_imports == old(self).decls.pending_imports,
                        crate::sig::canon_spec(name.data@, *body, is_rule, *ctx) is Some,
                        quant is Some,
                        defined_lookup(old(self).decls.defined@, source@, name.data@) is None,
                        defined_lookup(mid.decls.defined@, source@, name.data@) == Some(crate::hash::text_hash(named_text(crate::sig::canon_spec(name.data@, *body, is_rule, *ctx)->0, *quant))),
                        ss == pair_substs(left.data@, right.data@, crate::closure::pair_views(pairs@)),
                        *quant == Some(Quant::Relation { left: *left, predicate: *predicate, right: *right }),
                        crate::closure::pair_views(pairs@) == rel_pairs(rels_v(old(self).decls.relations@), predicate.data@),
                        mid.clause_list() == old(self).clause_list(),
                        mid.rule_list() == old(self).rule_list(),
                        mid.decls.sets == old(self).decls.sets,
                        j <= pairs@.len(),
                        ground_steps(cs, rs, *body, is_rule, *ctx, ss),
                        rs.len() == j,
                        forall|i: int| 0 <= i < rs.len() ==> (#[trigger] rs[i]) is Ok,
                        cs[0] == mid,
                        cs.last() == *self,
                    decreases pairs@.len() - j,
                {
                    let mut subs: Vec<(String, String)> = Vec::new();
                    subs.push((left.data.clone(), pairs[j].0.clone()));
                    subs.push((right.data.clone(), pairs[j].1.clone()));
                    let ghost before = *self;
                    proof {
                        assert(crate::closure::pair_views(pairs@)[j as int] == (pairs@[j as int].0@, pairs@[j as int].1@));
                        assert(subs_v(subs@) =~= ss[j as int]);
                    }
                    let r = self.emit_named(source, &name.data, line, body, &subs, is_rule, ctx);
                    proof {
                        let cs0 = cs;
                        let rs0 = rs;
                        cs = cs.push(*self);
                        rs = rs.push(r);
                        assert forall|i: int| 0 <= i < rs.len() implies #[trigger] emitted(cs[i], cs[i + 1], *body, is_rule, *ctx, ss[i], rs[i]) by {
                            if i < rs0.len() {
                                assert(emitted(cs0[i], cs0[i + 1], *body, is_rule, *ctx, ss[i], rs0[i]));
                            }
                        }
                        assert(ground_steps(cs, rs, *body, is_rule, *ctx, ss));
                    }
                    match r {
                        Ok(()) => {},
                        Err(e) => {
                            proof {
                                assert(ground_steps(cs, rs, *body, is_rule, *ctx, ss) && cs[0] == mid && cs.last() == *self);
                                assert(grounded(mid, *self, *body, is_rule, *ctx, ss, Err(e)));
                                assert(pair_grounding(*old(self), *self, *body, is_rule, *ctx, left.data@, predicate.data@, right.data@, Err(e)));
                            }
                            return Err(e);
                        },
                    }
                    // The edge atom is read as data by the quantifier, not idle.
                    let edge = Atom {
                        domain: None,
                        subject: pairs[j].0.clone(),
                        predicate: Some(predicate.data.clone()),
                        object: Some(pairs[j].1.clone()),
                    };
                    let none: Vec<(String, String)> = Vec::new();
                    match ctx.key(&edge, &none) {
                        Ok(k) => {
                            insert_key(&mut self.decls.consumed, &k);
                        },
                        Err(_) => {},
                    }
                    proof {
                        let k = cs.len() - 1;
                        let cs1 = cs;
                        assert(self.clauses == cs1[k].clauses && self.rules == cs1[k].rules);
                        assert(self.clause_list() == cs1[k].clause_list());
                        assert(self.rule_list() == cs1[k].rule_list());
                        cs = cs.update(k, *self);
                        assert forall|i: int| 0 <= i < rs.len() implies #[trigger] emitted(cs[i], cs[i + 1], *body, is_rule, *ctx, ss[i], rs[i]) by {
                            assert(emitted(cs1[i], cs1[i + 1], *body, is_rule, *ctx, ss[i], rs[i]));
                        }
                    }
                    j = j + 1;
                }
                proof {
                    assert(ground_steps(cs, rs, *body, is_rule, *ctx, ss) && cs[0] == mid && cs.last() == *self);
                    assert(grounded(mid, *self, *body, is_rule, *ctx, ss, Ok(())));
                    assert(pair_grounding(*old(self), *self, *body, is_rule, *ctx, left.data@, predicate.data@, right.data@, Ok(())));
                }
                Ok(())
            },
        }
    }

    /// The declared pairs of a relation (empty when none is declared).
    fn relation_pairs(&self, predicate: &String) -> (r: Vec<(String, String)>)
        ensures
            crate::closure::pair_views(r@) == rel_pairs(rels_v(self.decls.relations@), predicate@),
    {
        let ghost rv = rels_v(self.decls.relations@);
        let mut i: usize = 0;
        while i < self.decls.relations.len()
            invariant
                rv == rels_v(self.decls.relations@),
                i <= rv.len(),
                forall|j: int| 0 <= j < i ==> (#[trigger] rv[j]).0 != predicate@,
            decreases self.decls.relations@.len() - i,
        {
            if crate::ir::compare_strings(&self.decls.relations[i].0, predicate) == Order::Equal {
                proof {
                    lemma_first_skip(rv, predicate@, i as int);
                    assert(rv.subrange(i as int, rv.len() as int)[0] == rv[i as int]);
                }
                return copy_pairs(&self.decls.relations[i].1);
            }
            i = i + 1;
        }
        proof {
            lemma_first_skip(rv, predicate@, rv.len() as int);
            assert(rv.subrange(rv.len() as int, rv.len() as int).len() == 0);
        }
        let r: Vec<(String, String)> = Vec::new();
        proof {
            assert(crate::closure::pair_views(r@) =~= Seq::<crate::closure::PairV>::empty());
        }
        r
    }
}

proof fn lemma_defined_push(d0: Seq<(String, String, String)>, e: (String, String, String), source: Seq<char>, name: Seq<char>)
    requires
        defined_lookup(d0, source, name) is None,
        e.0@ == source,
        e.1@ == name,
    ensures
        defined_lookup(d0.push(e), source, name) == Some(e.2@),
    decreases d0.len(),
{
    if d0.len() > 0 {
        assert(d0.push(e).drop_first() =~= d0.drop_first().push(e));
        lemma_defined_push(d0.drop_first(), e, source, name);
    } else {
        assert(d0.push(e)[0] == e);
    }
}

/// An owned copy of a list of strings.
fn copy_strings(v: &Vec<String>) -> (r: Vec<String>)
    ensures
        r@ == v@,
{
    let mut r: Vec<String> = Vec::new();
    let mut i: usize = 0;
    while i < v.len()
        invariant
            i <= v@.len(),
            r@ == v@.subrange(0, i as int),
        decreases v@.len() - i,
    {
        r.push(v[i].clone());
        proof {
            assert(r@ =~= v@.subrange(0, i + 1));
        }
        i = i + 1;
    }
    proof {
        assert(v@.subrange(0, v@.len() as int) =~= v@);
    }
    r
}

/// An owned copy of a list of pairs.
pub(crate) fn copy_pairs(v: &Vec<(String, String)>) -> (r: Vec<(String, String)>)
    ensures
        crate::closure::pair_views(r@) == crate::closure::pair_views(v@),
{
    let mut r: Vec<(String, String)> = Vec::new();
    let mut i: usize = 0;
    while i < v.len()
        invariant
            i <= v@.len(),
            crate::closure::pair_views(r@) == crate::closure::pair_views(v@).subrange(0, i as int),
        decreases v@.len() - i,
    {
        let ghost r0 = r@;
        let x = (v[i].0.clone(), v[i].1.clone());
        let ghost xv = x;
        r.push(x);
        proof {
            assert(crate::closure::pair_views(r@) =~= crate::closure::pair_views(r0).push((xv.0@, xv.1@)));
            assert(crate::closure::pair_views(v@)[i as int] == (v@[i as int].0@, v@[i as int].1@));
            assert(crate::closure::pair_views(r@) =~= crate::closure::pair_views(v@).subrange(0, i + 1));
        }
        i = i + 1;
    }
    proof {
        assert(crate::closure::pair_views(v@).subrange(0, v@.len() as int) =~= crate::closure::pair_views(v@));
    }
    r
}

/// Whether `stmts` declares exactly one `DOMAIN`, and which.
pub open spec fn domain_count(stmts: Seq<Statement>) -> nat
    decreases stmts.len(),
{
    if stmts.len() == 0 {
        0
    } else {
        domain_count(stmts.drop_last()) + (if stmts.last() is Domain {
            1nat
        } else {
            0nat
        })
    }
}

/// The name of the first `DOMAIN` declaration.
pub open spec fn first_domain(stmts: Seq<Statement>) -> Option<Seq<char>>
    decreases stmts.len(),
{
    if stmts.len() == 0 {
        None
    } else {
        match first_domain(stmts.drop_last()) {
            Some(d) => Some(d),
            None => match stmts.last() {
                Statement::Domain(n) => Some(n.data@),
                _ => None,
            },
        }
    }
}

/// The single `DOMAIN` a source declares: `MissingDomain` when it has none,
/// `DuplicateDomain` when it has more than one.
pub fn extract_domain(program: &Program, source: &String) -> (r: Result<String, CompileError>)
    ensures
        domain_count(program.statements@) == 0 <==> r matches Err(CompileError::MissingDomain { .. }),
        domain_count(program.statements@) > 1 <==> r matches Err(CompileError::DuplicateDomain { .. }),
        domain_count(program.statements@) == 1 <==> r is Ok,
        r matches Ok(d) ==> first_domain(program.statements@) == Some(d@),
        r matches Err(CompileError::MissingDomain { file }) ==> file@ == source@,
        r matches Err(CompileError::DuplicateDomain { file }) ==> file@ == source@,
{
    let st = &program.statements;
    let mut found: Option<String> = None;
    let mut i: usize = 0;
    while i < st.len()
        invariant
            st@ == program.statements@,
            i <= st@.len(),
            domain_count(st@.subrange(0, i as int)) <= 1,
            match found {
                Some(d) => domain_count(st@.subrange(0, i as int)) == 1 && first_domain(st@.subrange(0, i as int)) == Some(d@),
                None => domain_count(st@.subrange(0, i as int)) == 0 && first_domain(st@.subrange(0, i as int)) is None,
            },
        decreases st@.len() - i,
    {
        proof {
            assert(st@.subrange(0, i + 1).drop_last() =~= st@.subrange(0, i as int));
            assert(st@.subrange(0, i + 1).last() == st@[i as int]);
        }
        match &st[i] {
            Statement::Domain(n) => {
                if found.is_some() {
                    proof {
                        assert(st@[i as int] is Domain);
                        assert(domain_count(st@.subrange(0, i + 1)) == 2);
                        lemma_domain_count_prefix(st@, i + 1);
                    }
                    return Err(CompileError::DuplicateDomain { file: source.clone() });
                }
                found = Some(n.data.clone());
            },
            _ => {},
        }
        i = i + 1;
    }
    proof {
        assert(st@.subrange(0, st@.len() as int) =~= st@);
    }
    match found {
        Some(d) => Ok(d),
        None => Err(CompileError::MissingDomain { file: source.clone() }),
    }
}

/// Programs with the same statement kinds declare as many domains.
pub proof fn lemma_kinds_domain_count(a: Seq<Statement>, b: Seq<Statement>)
    requires
        crate::grammar::stmt_kinds(a) == crate::grammar::stmt_kinds(b),
    ensures
        domain_count(a) == domain_count(b),
    decreases a.len(),
{
    assert(a.len() == crate::grammar::stmt_kinds(a).len());
    assert(b.len() == crate::grammar::stmt_kinds(b).len());
    if a.len() > 0 {
        assert(crate::grammar::stmt_kinds(a.drop_last()) =~= crate::grammar::stmt_kinds(a).drop_last());
        assert(crate::grammar::stmt_kinds(b.drop_last()) =~= crate::grammar::stmt_kinds(b).drop_last());
        assert(crate::grammar::stmt_kinds(a)[a.len() - 1] == crate::syntax::lead_kw(a.last()));
        assert(crate::grammar::stmt_kinds(b)[b.len() - 1] == crate::syntax::lead_kw(b.last()));
        lemma_kinds_domain_count(a.drop_last(), b.drop_last());
    }
}

proof fn lemma_domain_count_prefix(s: Seq<Statement>, k: int)
    requires
        0 <= k <= s.len(),
    ensures
        domain_count(s) >= domain_count(s.subrange(0, k)),
    decreases s.len() - k,
{
    if k < s.len() {
        lemma_domain_count_prefix(s, k + 1);
        assert(s.subrange(0, k + 1).drop_last() =~= s.subrange(0, k));
    } else {
        assert(s.subrange(0, k) =~= s);
    }
}

impl Compiler {
    /// Record every `SET` and every relation pair (a 3-part `FACT`) so a
    /// `FOR EACH` may reference one declared anywhere in the source.
    fn collect_decls(&mut self, program: &Program)
        requires
            old(self).wf(),
        ensures
            final(self).wf(),
            final(self).keys == old(self).keys,
            final(self).facts == old(self).facts,
            final(self).clauses == old(self).clauses,
            final(self).rules == old(self).rules,
            final(self).decls.consumed == old(self).decls.consumed,
            final(self).decls.defined == old(self).decls.defined,
            final(self).decls.ports == old(self).decls.ports,
            final(self).decls.oneof == old(self).decls.oneof,
            final(self).decls.checks == old(self).decls.checks,
            final(self).decls.pending_imports == old(self).decls.pending_imports,
            final(self).decls.provides == old(self).decls.provides,
            program.statements@.len() == 0 ==> *final(self) == *old(self),
            forall|n: Seq<char>| #[trigger] set_lookup(sets_v(final(self).decls.sets@), n) == match last_set(program.statements@, n) {
                Some(e) => Some(e),
                None => set_lookup(sets_v(old(self).decls.sets@), n),
            },
            forall|q: Seq<char>| #[trigger] rel_pairs(rels_v(final(self).decls.relations@), q) == rel_pairs(
                rels_v(old(self).decls.relations@),
                q,
            ) + fact_pairs(program.statements@, q),
    {
        let ghost st = program.statements@;
        let mut i: usize = 0;
        while i < program.statements.len()
            invariant
                self.wf(),
                st == program.statements@,
                i <= st.len(),
                self.keys == old(self).keys,
                self.facts == old(self).facts,
                self.clauses == old(self).clauses,
                self.rules == old(self).rules,
                self.decls.consumed == old(self).decls.consumed,
                self.decls.defined == old(self).decls.defined,
                self.decls.ports == old(self).decls.ports,
                self.decls.oneof == old(self).decls.oneof,
                self.decls.checks == old(self).decls.checks,
                self.decls.pending_imports == old(self).decls.pending_imports,
                self.decls.provides == old(self).decls.provides,
                st.len() == 0 ==> *self == *old(self),
                forall|n: Seq<char>| #[trigger] set_lookup(sets_v(self.decls.sets@), n) == match last_set(st.subrange(0, i as int), n) {
                    Some(e) => Some(e),
                    None => set_lookup(sets_v(old(self).decls.sets@), n),
                },
                forall|q: Seq<char>| #[trigger] rel_pairs(rels_v(self.decls.relations@), q) == rel_pairs(
                    rels_v(old(self).decls.relations@),
                    q,
                ) + fact_pairs(st.subrange(0, i as int), q),
            decreases program.statements@.len() - i,
        {
            proof {
                assert(st.subrange(0, i + 1).drop_last() =~= st.subrange(0, i as int));
                assert(st.subrange(0, i + 1).last() == st[i as int]);
            }
            let ghost sets0 = sets_v(self.decls.sets@);
            let ghost rels0 = rels_v(self.decls.relations@);
            match &program.statements[i] {
                Statement::SetDecl { name, elements } => {
                    let mut els: Vec<String> = Vec::new();
                    let mut j: usize = 0;
                    while j < elements.len()
                        invariant
                            j <= elements@.len(),
                            crate::table::string_views(els@) == elements@.subrange(0, j as int).map_values(|l: Located<String>| l.data@),
                        decreases elements@.len() - j,
                    {
                        let ghost e0 = els@;
                        let c = elements[j].data.clone();
                        proof {
                            assert(c@ == elements@[j as int].data@);
                            assert(crate::table::string_views(e0) == elements@.subrange(0, j as int).map_values(|l: Located<String>| l.data@));
                        }
                        els.push(c);
                        proof {
                            assert(crate::table::string_views(els@) =~= crate::table::string_views(e0).push(c@));
                            assert(elements@.subrange(0, j + 1).map_values(|l: Located<String>| l.data@) =~= elements@.subrange(0, j as int).map_values(
                                |l: Located<String>| l.data@,
                            ).push(elements@[j as int].data@));
                            assert(crate::table::string_views(els@) =~= elements@.subrange(0, j + 1).map_values(|l: Located<String>| l.data@));
                        }
                        j = j + 1;
                    }
                    proof {
                        assert(elements@.subrange(0, elements@.len() as int) =~= elements@);
                    }
                    self.declare_set(&name.data, els);
                    proof {
                        assert forall|q: Seq<char>| #[trigger] fact_pairs(st.subrange(0, i + 1), q) == fact_pairs(st.subrange(0, i as int), q) by {
                            assert(fact_pairs(st.subrange(0, i + 1), q) =~= fact_pairs(st.subrange(0, i as int), q) + Seq::<crate::closure::PairV>::empty());
                        }
                    }
                },
                Statement::Fact(a) => {
                    match (&a.data.predicate, &a.data.object) {
                        (Some(p), Some(o)) => {
                            self.add_relation_pair(p, &a.data.subject, o);
                            proof {
                                assert forall|q: Seq<char>| #[trigger] rel_pairs(rels_v(self.decls.relations@), q) == rel_pairs(
                                    rels_v(old(self).decls.relations@),
                                    q,
                                ) + fact_pairs(st.subrange(0, i + 1), q) by {
                                    assert(rel_pairs(rels0, q) == rel_pairs(rels_v(old(self).decls.relations@), q) + fact_pairs(st.subrange(0, i as int), q));
                                    if q == p@ {
                                        assert(fact_pairs(st.subrange(0, i + 1), q) =~= fact_pairs(st.subrange(0, i as int), q).push((a.data.subject@, o@)));
                                        assert(rel_pairs(rels0, q).push((a.data.subject@, o@)) =~= rel_pairs(rels_v(old(self).decls.relations@), q)
                                            + fact_pairs(st.subrange(0, i as int), q).push((a.data.subject@, o@)));
                                    } else {
                                        assert(fact_pairs(st.subrange(0, i + 1), q) =~= fact_pairs(st.subrange(0, i as int), q));
                                    }
                                }
                            }
                        },
                        _ => {
                            proof {
                                assert forall|q: Seq<char>| #[trigger] fact_pairs(st.subrange(0, i + 1), q) == fact_pairs(st.subrange(0, i as int), q) by {
                                    assert(fact_pairs(st.subrange(0, i + 1), q) =~= fact_pairs(st.subrange(0, i as int), q));
                                }
                            }
                        },
                    }
                },
                _ => {
                    proof {
                        assert forall|q: Seq<char>| #[trigger] fact_pairs(st.subrange(0, i + 1), q) == fact_pairs(st.subrange(0, i as int), q) by {
                            assert(fact_pairs(st.subrange(0, i + 1), q) =~= fact_pairs(st.subrange(0, i as int), q));
                        }
                    }
                },
            }
            i = i + 1;
        }
        proof {
            assert(st.subrange(0, st.len() as int) =~= st);
        }
    }

    /// Declare (or redeclare) a set, keeping the sets ordered by name.
    fn declare_set(&mut self, name: &String, elements: Vec<String>)
        ensures
            final(self).keys == old(self).keys,
            final(self).facts == old(self).facts,
            final(self).clauses == old(self).clauses,
            final(self).rules == old(self).rules,
            final(self).decls.consumed == old(self).decls.consumed,
            final(self).decls.defined == old(self).decls.defined,
            final(self).decls.relations == old(self).decls.relations,
            final(self).decls.ports == old(self).decls.ports,
            final(self).decls.oneof == old(self).decls.oneof,
            final(self).decls.checks == old(self).decls.checks,
            final(self).decls.pending_imports == old(self).decls.pending_imports,
            final(self).decls.provides == old(self).decls.provides,
            forall|n: Seq<char>| #[trigger] set_lookup(sets_v(final(self).decls.sets@), n) == if n == name@ {
                Some(crate::table::string_views(elements@))
            } else {
                set_lookup(sets_v(old(self).decls.sets@), n)
            },
    {
        let ghost sv0 = sets_v(self.decls.sets@);
        let ghost ev = (name@, crate::table::string_views(elements@));
        match self.find_set(name) {
            Some(i) => {
                self.decls.sets.set(i, SetEntry { name: name.clone(), elements });
                proof {
                    assert(sets_v(self.decls.sets@) =~= sv0.update(i as int, ev));
                    assert forall|j: int| 0 <= j < i implies (#[trigger] sv0[j]).0 != ev.0 by {
                        assert(old(self).decls.sets@[j].name@ != name@);
                    }
                    assert forall|n: Seq<char>| #[trigger] set_lookup(sets_v(self.decls.sets@), n) == if n == name@ {
                        Some(ev.1)
                    } else {
                        set_lookup(sv0, n)
                    } by {
                        lemma_set_first(sets_v(self.decls.sets@), n);
                        lemma_set_first(sv0, n);
                        lemma_first_update(sv0, i as int, ev, n);
                    }
                }
            },
            None => {
                let mut p: usize = 0;
                while p < self.decls.sets.len() && crate::ir::compare_strings(&self.decls.sets[p].name, name) == Order::Less
                    invariant
                        p <= self.decls.sets@.len(),
                    decreases self.decls.sets@.len() - p,
                {
                    p = p + 1;
                }
                self.decls.sets.insert(p, SetEntry { name: name.clone(), elements });
                proof {
                    assert(sets_v(self.decls.sets@) =~= sv0.insert(p as int, ev));
                    lemma_set_first(sv0, name@);
                    assert forall|n: Seq<char>| #[trigger] set_lookup(sets_v(self.decls.sets@), n) == if n == name@ {
                        Some(ev.1)
                    } else {
                        set_lookup(sv0, n)
                    } by {
                        lemma_set_first(sets_v(self.decls.sets@), n);
                        lemma_set_first(sv0, n);
                        lemma_first_insert(sv0, p as int, ev, n);
                    }
                }
            },
        }
    }

    /// Add one `(subject, object)` pair to a relation.
    fn add_relation_pair(&mut self, predicate: &String, subject: &String, object: &String)
        ensures
            final(self).keys == old(self).keys,
            final(self).facts == old(self).facts,
            final(self).clauses == old(self).clauses,
            final(self).rules == old(self).rules,
            final(self).decls.consumed == old(self).decls.consumed,
            final(self).decls.defined == old(self).decls.defined,
            final(self).decls.sets == old(self).decls.sets,
            final(self).decls.ports == old(self).decls.ports,
            final(self).decls.oneof == old(self).decls.oneof,
            final(self).decls.checks == old(self).decls.checks,
            final(self).decls.pending_imports == old(self).decls.pending_imports,
            final(self).decls.provides == old(self).decls.provides,
            forall|q: Seq<char>| #[trigger] rel_pairs(rels_v(final(self).decls.relations@), q) == if q == predicate@ {
                rel_pairs(rels_v(old(self).decls.relations@), q).push((subject@, object@))
            } else {
                rel_pairs(rels_v(old(self).decls.relations@), q)
            },
    {
        let ghost rv0 = rels_v(self.decls.relations@);
        let mut i: usize = 0;
        while i < self.decls.relations.len()
            invariant
                self.keys == old(self).keys,
                self.facts == old(self).facts,
                self.clauses == old(self).clauses,
                self.rules == old(self).rules,
                self.decls == old(self).decls,
                rv0 == rels_v(self.decls.relations@),
                i <= rv0.len(),
                forall|j: int| 0 <= j < i ==> (#[trigger] rv0[j]).0 != predicate@,
            decreases self.decls.relations@.len() - i,
        {
            if crate::ir::compare_strings(&self.decls.relations[i].0, predicate) == Order::Equal {
                let mut pairs = copy_pairs(&self.decls.relations[i].1);
                let ghost pv0 = crate::closure::pair_views(pairs@);
                pairs.push((subject.clone(), object.clone()));
                let ghost ev = (predicate@, crate::closure::pair_views(pairs@));
                self.decls.relations.set(i, (predicate.clone(), pairs));
                proof {
                    assert(ev.1 =~= pv0.push((subject@, object@)));
                    assert(rels_v(self.decls.relations@) =~= rv0.update(i as int, ev));
                    lemma_first_skip(rv0, predicate@, i as int);
                    assert(rv0.subrange(i as int, rv0.len() as int)[0] == rv0[i as int]);
                    assert forall|q: Seq<char>| #[trigger] rel_pairs(rels_v(self.decls.relations@), q) == if q == predicate@ {
                        rel_pairs(rv0, q).push((subject@, object@))
                    } else {
                        rel_pairs(rv0, q)
                    } by {
                        lemma_first_update(rv0, i as int, ev, q);
                    }
                }
                return;
            }
            i = i + 1;
        }
        let mut pairs: Vec<(String, String)> = Vec::new();
        pairs.push((subject.clone(), object.clone()));
        let ghost ev = (predicate@, crate::closure::pair_views(pairs@));
        self.decls.relations.push((predicate.clone(), pairs));
        proof {
            assert(ev.1 =~= seq![(subject@, object@)]);
            assert(rels_v(self.decls.relations@) =~= rv0.insert(rv0.len() as int, ev));
            lemma_first_skip(rv0, predicate@, rv0.len() as int);
            assert(rv0.subrange(rv0.len() as int, rv0.len() as int).len() == 0);
            assert forall|q: Seq<char>| #[trigger] rel_pairs(rels_v(self.decls.relations@), q) == if q == predicate@ {
                rel_pairs(rv0, q).push((subject@, object@))
            } else {
                rel_pairs(rv0, q)
            } by {
                lemma_first_insert(rv0, rv0.len() as int, ev, q);
                assert(Seq::<crate::closure::PairV>::empty().push((subject@, object@)) =~= seq![(subject@, object@)]);
            }
        }
    }

    /// Replace a relation's pairs.
    fn set_relation(&mut self, predicate: &String, pairs: Vec<(String, String)>)
        ensures
            final(self).keys == old(self).keys,
            final(self).facts == old(self).facts,
            final(self).clauses == old(self).clauses,
            final(self).rules == old(self).rules,
            final(self).decls.consumed == old(self).decls.consumed,
            final(self).decls.defined == old(self).decls.defined,
            final(self).decls.sets == old(self).decls.sets,
            final(self).decls.ports == old(self).decls.ports,
            final(self).decls.oneof == old(self).decls.oneof,
            final(self).decls.checks == old(self).decls.checks,
            final(self).decls.pending_imports == old(self).decls.pending_imports,
            final(self).decls.provides == old(self).decls.provides,
            forall|q: Seq<char>| #[trigger] rel_pairs(rels_v(final(self).decls.relations@), q) == if q == predicate@ {
                crate::closure::pair_views(pairs@)
            } else {
                rel_pairs(rels_v(old(self).decls.relations@), q)
            },
    {
        let ghost rv0 = rels_v(self.decls.relations@);
        let ghost ev = (predicate@, crate::closure::pair_views(pairs@));
        let mut i: usize = 0;
        while i < self.decls.relations.len()
            invariant
                self.keys == old(self).keys,
                self.facts == old(self).facts,
                self.clauses == old(self).clauses,
                self.rules == old(self).rules,
                self.decls == old(self).decls,
                rv0 == rels_v(self.decls.relations@),
                ev == (predicate@, crate::closure::pair_views(pairs@)),
                i <= rv0.len(),
                forall|j: int| 0 <= j < i ==> (#[trigger] rv0[j]).0 != predicate@,
            decreases self.decls.relations@.len() - i,
        {
            if crate::ir::compare_strings(&self.decls.relations[i].0, predicate) == Order::Equal {
                self.decls.relations.set(i, (predicate.clone(), pairs));
                proof {
                    assert(rels_v(self.decls.relations@) =~= rv0.update(i as int, ev));
                    assert forall|q: Seq<char>| #[trigger] rel_pairs(rels_v(self.decls.relations@), q) == if q == predicate@ {
                        ev.1
                    } else {
                        rel_pairs(rv0, q)
                    } by {
                        lemma_first_update(rv0, i as int, ev, q);
                    }
                }
                return;
            }
            i = i + 1;
        }
        self.decls.relations.push((predicate.clone(), pairs));
        proof {
            assert(rels_v(self.decls.relations@) =~= rv0.insert(rv0.len() as int, ev));
            lemma_first_skip(rv0, predicate@, rv0.len() as int);
            assert(rv0.subrange(rv0.len() as int, rv0.len() as int).len() == 0);
            assert forall|q: Seq<char>| #[trigger] rel_pairs(rels_v(self.decls.relations@), q) == if q == predicate@ {
                ev.1
            } else {
                rel_pairs(rv0, q)
            } by {
                lemma_first_insert(rv0, rv0.len() as int, ev, q);
            }
        }
    }

    /// Apply every `CLOSE` of a source to its relation, in order. A
    /// `TRANSITIVE` closure that makes a node reach itself is a
    /// `CyclicRelation` error (it requires a DAG).
    #[verifier::spinoff_prover]
    #[verifier::rlimit(40)]
    fn apply_closures(&mut self, program: &Program, source: &String) -> (r: Result<(), CompileError>)
        requires
            old(self).wf(),
        ensures
            final(self).wf(),
            final(self).keys == old(self).keys,
            final(self).facts == old(self).facts,
            final(self).clauses == old(self).clauses,
            final(self).rules == old(self).rules,
            final(self).decls.consumed == old(self).decls.consumed,
            final(self).decls.defined == old(self).decls.defined,
            final(self).decls.sets == old(self).decls.sets,
            final(self).decls.ports == old(self).decls.ports,
            final(self).decls.oneof == old(self).decls.oneof,
            final(self).decls.checks == old(self).decls.checks,
            final(self).decls.pending_imports == old(self).decls.pending_imports,
            final(self).decls.provides == old(self).decls.provides,
            program.statements@.len() == 0 ==> *final(self) == *old(self),
            r is Err ==> r matches Err(CompileError::CyclicRelation { .. }),
            r is Ok <==> forall|q: Seq<char>| #[trigger] after_closes(
                program.statements@,
                q,
                rel_pairs(rels_v(old(self).decls.relations@), q).to_set(),
            ) is Some,
            r is Ok ==> forall|q: Seq<char>|
                #[trigger] rel_pairs(rels_v(final(self).decls.relations@), q).to_set() == after_closes(
                    program.statements@,
                    q,
                    rel_pairs(rels_v(old(self).decls.relations@), q).to_set(),
                )->Some_0,
            r is Ok ==> forall|q: Seq<char>|
                !closes_rel(program.statements@, q) ==> #[trigger] rel_pairs(rels_v(final(self).decls.relations@), q)
                    == rel_pairs(rels_v(old(self).decls.relations@), q),
    {
        let ghost st = program.statements@;
        let ghost r0 = rels_v(self.decls.relations@);
        let mut i: usize = 0;
        while i < program.statements.len()
            invariant
                self.wf(),
                st == program.statements@,
                r0 == rels_v(old(self).decls.relations@),
                i <= st.len(),
                self.keys == old(self).keys,
                self.facts == old(self).facts,
                self.clauses == old(self).clauses,
                self.rules == old(self).rules,
                self.decls.consumed == old(self).decls.consumed,
                self.decls.defined == old(self).decls.defined,
                self.decls.sets == old(self).decls.sets,
                self.decls.ports == old(self).decls.ports,
                self.decls.oneof == old(self).decls.oneof,
                self.decls.checks == old(self).decls.checks,
                self.decls.pending_imports == old(self).decls.pending_imports,
                self.decls.provides == old(self).decls.provides,
                st.len() == 0 ==> *self == *old(self),
                forall|q: Seq<char>|
                    #[trigger] after_closes(st.subrange(0, i as int), q, rel_pairs(r0, q).to_set()) == Some(
                        rel_pairs(rels_v(self.decls.relations@), q).to_set(),
                    ),
                forall|q: Seq<char>|
                    !closes_rel(st.subrange(0, i as int), q) ==> #[trigger] rel_pairs(rels_v(self.decls.relations@), q) == rel_pairs(r0, q),
            decreases program.statements@.len() - i,
        {
            proof {
                assert(st.subrange(0, i + 1).drop_last() =~= st.subrange(0, i as int));
                assert(st.subrange(0, i + 1).last() == st[i as int]);
            }
            let ghost cur = rels_v(self.decls.relations@);
            match &program.statements[i] {
                Statement::Close { relation, kind } => {
                    let pairs = self.relation_pairs(&relation.data);
                    let ghost pset = pair_set(pairs@);
                    proof {
                        assert(pset == rel_pairs(cur, relation.data@).to_set());
                    }
                    let closed = match close_pairs(pairs, *kind, source, &relation.data, relation.line) {
                        Ok(c) => c,
                        Err(e) => {
                            proof {
                                let q = relation.data@;
                                assert(close_cyclic(*kind, pset));
                                assert(after_closes(st.subrange(0, i as int), q, rel_pairs(r0, q).to_set()) == Some(rel_pairs(cur, q).to_set()));
                                assert(st.subrange(0, i + 1).last() == st[i as int]);
                                assert(after_closes(st.subrange(0, i + 1), q, rel_pairs(r0, q).to_set()) is None);
                                lemma_after_none(st, q, rel_pairs(r0, q).to_set(), i + 1);
                            }
                            return Err(e);
                        },
                    };
                    proof {
                        assert(!close_cyclic(*kind, pset));
                        assert(pair_set(closed@) == close_set(*kind, pset));
                    }
                    self.set_relation(&relation.data, closed);
                    proof {
                        assert forall|q: Seq<char>|
                            #[trigger] after_closes(st.subrange(0, i + 1), q, rel_pairs(r0, q).to_set()) == Some(
                                rel_pairs(rels_v(self.decls.relations@), q).to_set(),
                            ) by {
                            assert(after_closes(st.subrange(0, i as int), q, rel_pairs(r0, q).to_set()) == Some(rel_pairs(cur, q).to_set()));
                        }
                        assert forall|q: Seq<char>|
                            !closes_rel(st.subrange(0, i + 1), q) implies #[trigger] rel_pairs(rels_v(self.decls.relations@), q) == rel_pairs(r0, q) by {
                            if q == relation.data@ {
                                assert(st.subrange(0, i + 1)[i as int] == st[i as int]);
                            } else {
                                if closes_rel(st.subrange(0, i as int), q) {
                                    let j = choose|j: int| 0 <= j < i && closes_at(#[trigger] st.subrange(0, i as int)[j], q);
                                    assert(st.subrange(0, i + 1)[j] == st.subrange(0, i as int)[j]);
                                }
                            }
                        }
                    }
                },
                _ => {
                    proof {
                        assert forall|q: Seq<char>|
                            !closes_rel(st.subrange(0, i + 1), q) implies #[trigger] rel_pairs(rels_v(self.decls.relations@), q) == rel_pairs(r0, q) by {
                            if closes_rel(st.subrange(0, i as int), q) {
                                let j = choose|j: int| 0 <= j < i && closes_at(#[trigger] st.subrange(0, i as int)[j], q);
                                assert(st.subrange(0, i + 1)[j] == st.subrange(0, i as int)[j]);
                            }
                        }
                        assert forall|q: Seq<char>|
                            #[trigger] after_closes(st.subrange(0, i + 1), q, rel_pairs(r0, q).to_set()) == Some(
                                rel_pairs(rels_v(self.decls.relations@), q).to_set(),
                            ) by {
                            assert(after_closes(st.subrange(0, i as int), q, rel_pairs(r0, q).to_set()) == Some(rel_pairs(cur, q).to_set()));
                        }
                    }
                },
            }
            i = i + 1;
        }
        proof {
            assert(st.subrange(0, st.len() as int) =~= st);
        }
        Ok(())
    }
}

/// The closure of one relation's pairs under `kind`; a transitive closure in
/// which some node reaches itself is a `CyclicRelation` error naming the
/// first such node (in canonical order).
pub fn close_pairs(
    pairs: Vec<(String, String)>,
    kind: CloseKind,
    source: &String,
    relation: &String,
    line: usize,
) -> (r: Result<Vec<(String, String)>, CompileError>)
    ensures
        match kind {
            CloseKind::Transitive => {
                let t = transitive_spec(pair_set(pairs@));
                match r {
                    Ok(c) => lists(c@, t) && forall|x: Seq<char>| !t.contains((x, x)),
                    Err(e) => (exists|x: Seq<char>| t.contains((x, x))) && (e matches CompileError::CyclicRelation {
                        relation: rel,
                        node,
                        ..
                    } && rel@ == relation@ && t.contains((node@, node@))),
                }
            },
            CloseKind::Symmetric => r matches Ok(c) && lists(c@, symmetric_spec(pair_set(pairs@))),
            CloseKind::Reflexive => r matches Ok(c) && lists(c@, reflexive_spec(pair_set(pairs@))),
            CloseKind::Equivalence => r matches Ok(c) && lists(c@, equivalence_spec(pair_set(pairs@))),
            CloseKind::Scc => r matches Ok(c) && lists(c@, scc_spec(pair_set(pairs@))),
        },
{
    match kind {
        CloseKind::Transitive => {
            let ghost t = transitive_spec(pair_set(pairs@));
            let ghost pv = pairs@;
            let closed = transitive_closure(pairs);
            let mut i: usize = 0;
            while i < closed.len()
                invariant
                    pv == pairs@,
                    t == transitive_spec(pair_set(pv)),
                    kind == CloseKind::Transitive,
                    lists(closed@, t),
                    i <= closed@.len(),
                    forall|j: int| 0 <= j < i ==> (#[trigger] pair_views(closed@)[j]).0 != pair_views(closed@)[j].1,
                decreases closed@.len() - i,
            {
                if crate::ir::compare_strings(&closed[i].0, &closed[i].1) == Order::Equal {
                    proof {
                        let x = closed@[i as int].0@;
                        assert(pair_views(closed@)[i as int] == (x, x));
                        assert(pair_views(closed@).contains(pair_views(closed@)[i as int]));
                        assert(pair_set(closed@).contains((x, x)));
                        assert(t.contains((x, x)));
                    }
                    return Err(
                        CompileError::CyclicRelation {
                            file: source.clone(),
                            line: line as u32,
                            relation: relation.clone(),
                            node: closed[i].0.clone(),
                        },
                    );
                }
                proof {
                    assert(pair_views(closed@)[i as int] == (closed@[i as int].0@, closed@[i as int].1@));
                }
                i = i + 1;
            }
            proof {
                assert forall|x: Seq<char>| !t.contains((x, x)) by {
                    if t.contains((x, x)) {
                        assert(pair_views(closed@).to_set().contains((x, x)));
                        let j = choose|j: int| 0 <= j < pair_views(closed@).len() && pair_views(closed@)[j] == (x, x);
                        assert(pair_views(closed@)[j].0 != pair_views(closed@)[j].1);
                    }
                }
            }
            Ok(closed)
        },
        CloseKind::Symmetric => Ok(symmetric_closure(pairs)),
        CloseKind::Reflexive => Ok(reflexive_closure(pairs)),
        CloseKind::Equivalence => Ok(equivalence_closure(pairs)),
        CloseKind::Scc => Ok(scc_closure(pairs)),
    }
}

impl Compiler {
    /// Route one statement to the right accumulator, resolving atom domains in
    /// `ctx`. (`IMPORT` and `DOMAIN` are handled by the loaders.)
    fn add_statement(&mut self, source: &String, stmt: &Statement, ctx: &DomainCtx) -> (r: Result<(), CompileError>)
        requires
            old(self).wf(),
        ensures
            final(self).wf(),
            old(self).atoms() <= final(self).atoms(),
            stmt_effect(*old(self), *final(self), source@, *stmt, *ctx, r),
            r matches Err(e) ==> stmt_error(e),
    {
        match stmt {
            Statement::Import { .. } | Statement::Domain(_) => Ok(()),
            Statement::Fact(a) => self.add_fact(source, &a.data, a.line, Value::True, kw::FACT, false, ctx),
            Statement::Negation(a) => self.add_fact(source, &a.data, a.line, Value::False, kw::NOT, false, ctx),
            Statement::Assume(l) => {
                let value = if l.data.negated {
                    Value::False
                } else {
                    Value::True
                };
                self.add_fact(source, &l.data.atom, l.line, value, kw::ASSUME, true, ctx)
            },
            Statement::Check { subject, bidirectional } => {
                let subject = match subject {
                    Some(s) => Some(s.data.clone()),
                    None => None,
                };
                let ghost c0 = self.decls.checks@;
                self.decls.checks.push(Check { subject, bidirectional: *bidirectional });
                proof {
                    assert(check_views(self.decls.checks@) =~= check_views(c0).push(
                        (located_view(stmt->Check_subject), *bidirectional),
                    ));
                }
                Ok(())
            },
            Statement::SetDecl { .. } | Statement::Close { .. } => Ok(()),
            Statement::Var { name, default } => {
                self.declare_port(&ctx.current, &name.data, *default, source, name.line as u32);
                Ok(())
            },
            Statement::Provide { atom, value } => {
                let a = &atom.data;
                let domain = match &a.domain {
                    None => None,
                    Some(_) => Some(ctx.resolve(&a.domain)?),
                };
                let mut origin = String::new();
                crate::text::push_str(&mut origin, "PROVIDE ");
                crate::text::push_string(&mut origin, source);
                let ghost p0 = self.decls.provides@;
                proof {
                    assert(origin@ =~= "PROVIDE "@ + source@);
                }
                self.decls.provides.push(
                    (
                        PortRef {
                            domain,
                            subject: a.subject.clone(),
                            predicate: copy_opt(&a.predicate),
                            object: copy_opt(&a.object),
                        },
                        crate::ir::PortBinding { value: *value, origin },
                    ),
                );
                proof {
                    assert(provide_binds(self.decls.provides@) =~= provide_binds(p0).push(
                        (provided_ref(*ctx, atom.data), *value, "PROVIDE "@ + source@),
                    ));
                }
                Ok(())
            },
            Statement::Premise { name, quant, body } => self.add_named(source, name, quant, body, false, ctx),
            Statement::Rule { name, quant, body } => self.add_named(source, name, quant, body, true, ctx),
        }
    }

    /// Declare a `VAR` port under `(domain, name)`; the first declaration
    /// wins. Ports are kept ordered by `(domain, name)`.
    fn declare_port(&mut self, domain: &String, name: &String, default: Option<bool>, source: &String, line: u32)
        ensures
            final(self).keys == old(self).keys,
            final(self).facts == old(self).facts,
            final(self).clauses == old(self).clauses,
            final(self).rules == old(self).rules,
            final(self).decls.consumed == old(self).decls.consumed,
            final(self).decls.sets == old(self).decls.sets,
            final(self).decls.relations == old(self).decls.relations,
            final(self).decls.oneof == old(self).decls.oneof,
            final(self).decls.provides == old(self).decls.provides,
            final(self).decls.checks == old(self).decls.checks,
            final(self).decls.pending_imports == old(self).decls.pending_imports,
            port_declared(final(self).decls.ports@, domain@, name@),
            ports_sorted(old(self).decls.ports@) ==> ports_sorted(final(self).decls.ports@),
            (port_declared(old(self).decls.ports@, domain@, name@) && final(self).decls.ports == old(self).decls.ports) || exists|i: int|
                0 <= i <= old(self).decls.ports@.len() && port_views(final(self).decls.ports@) == port_views(old(self).decls.ports@).insert(
                    i,
                    (domain@, name@, default, source@, line),
                ),
    {
        let mut p: usize = 0;
        while p < self.decls.ports.len()
            invariant
                p <= self.decls.ports@.len(),
                self.keys == old(self).keys,
                self.facts == old(self).facts,
                self.clauses == old(self).clauses,
                self.rules == old(self).rules,
                self.decls == old(self).decls,
                forall|q: int| 0 <= q < p ==> name_lt(port_name_key(#[trigger] self.decls.ports@[q]), (domain@, name@)),
            ensures
                p <= self.decls.ports@.len(),
                self.keys == old(self).keys,
                self.facts == old(self).facts,
                self.clauses == old(self).clauses,
                self.rules == old(self).rules,
                self.decls == old(self).decls,
                forall|q: int| 0 <= q < p ==> name_lt(port_name_key(#[trigger] self.decls.ports@[q]), (domain@, name@)),
                p == self.decls.ports@.len() || name_lt((domain@, name@), port_name_key(self.decls.ports@[p as int])),
            decreases self.decls.ports@.len() - p,
        {
            let c = match crate::ir::compare_strings(&self.decls.ports[p].domain, domain) {
                Order::Equal => crate::ir::compare_strings(&self.decls.ports[p].name, name),
                o => o,
            };
            match c {
                Order::Equal => {
                    proof {
                        assert(self.decls.ports@[p as int].domain@ == domain@ && self.decls.ports@[p as int].name@ == name@);
                    }
                    return;
                },
                Order::Greater => {
                    proof {
                        let pk = port_name_key(self.decls.ports@[p as int]);
                        crate::text::lemma_seq_lt_total(pk.0, domain@);
                        crate::text::lemma_seq_lt_total(pk.1, name@);
                        assert(name_lt((domain@, name@), pk));
                    }
                    break;
                },
                Order::Less => {},
            }
            p = p + 1;
        }
        let ghost ports0 = self.decls.ports@;
        proof {
            if p < ports0.len() {
                let pk = port_name_key(ports0[p as int]);
                crate::text::lemma_seq_lt_total(pk.0, domain@);
                crate::text::lemma_seq_lt_irrefl(domain@);
                crate::text::lemma_seq_lt_irrefl(name@);
            }
        }
        let ghost pv0 = port_views(self.decls.ports@);
        let d = PortDecl { domain: domain.clone(), name: name.clone(), default, source: source.clone(), line };
        let ghost dv = port_view(d);
        self.decls.ports.insert(p, d);
        proof {
            assert(port_views(self.decls.ports@) =~= pv0.insert(p as int, dv));
            assert(self.decls.ports@[p as int] == d);
            if ports_sorted(ports0) {
                let np = self.decls.ports@;
                assert forall|i: int, j: int| 0 <= i < j < np.len() implies name_lt(port_name_key(#[trigger] np[i]), port_name_key(#[trigger] np[j])) by {
                    if j < p {
                        assert(np[i] == ports0[i] && np[j] == ports0[j]);
                    } else if j == p {
                        assert(np[i] == ports0[i]);
                    } else if i < p {
                        assert(np[i] == ports0[i] && np[j] == ports0[j - 1]);
                        lemma_name_lt_trans(port_name_key(np[i]), (domain@, name@), port_name_key(ports0[p as int]));
                        if j - 1 > p {
                            lemma_name_lt_trans(port_name_key(np[i]), port_name_key(ports0[p as int]), port_name_key(ports0[j - 1]));
                        }
                    } else if i == p {
                        assert(np[j] == ports0[j - 1]);
                        if j - 1 > p {
                            lemma_name_lt_trans((domain@, name@), port_name_key(ports0[p as int]), port_name_key(ports0[j - 1]));
                        }
                    } else {
                        assert(np[i] == ports0[i - 1] && np[j] == ports0[j - 1]);
                    }
                }
            }
        }
    }
}

/// A lowered literal names the atom its keyed literal did, with the same
/// polarity.
pub open spec fn lit_lowered(atoms: Seq<AtomKey>, l: crate::ir::Lit, r: LitV) -> bool {
    &&& (l.atom as int) < atoms.len()
    &&& atoms[l.atom as int]@ == r.0
    &&& l.negated == r.1
}

/// A lowered literal list, position by position.
pub open spec fn lits_lowered(atoms: Seq<AtomKey>, ls: Seq<crate::ir::Lit>, rs: Seq<LitV>) -> bool {
    &&& ls.len() == rs.len()
    &&& forall|i: int| 0 <= i < ls.len() ==> lit_lowered(atoms, #[trigger] ls[i], rs[i])
}

/// Parse one source, attaching its label to any syntax diagnostics.
pub(crate) fn parse_tagged(file: &String, content: &str) -> (r: Result<Program, CompileError>)
    ensures
        content@.len() < usize::MAX && crate::syntax::program_ok(content@, Seq::<Statement>::empty()) ==> (r matches Ok(p)
            && p.statements@.len() == 0),
        content@.len() < usize::MAX && (exists|s: Seq<Statement>| #[trigger] crate::syntax::program_ok(content@, s)
            && crate::syntax::readable(content@, s)) ==> r is Ok,
        forall|s: Seq<Statement>|
            content@.len() < usize::MAX && #[trigger] crate::syntax::program_ok(content@, s) && crate::syntax::readable(content@, s)
                ==> (r matches Ok(p) && crate::grammar::stmt_kinds(p.statements@) == crate::grammar::stmt_kinds(s)),
        match r {
            Ok(p) => crate::ast::wf_program(p) && crate::syntax::program_ok(content@, p.statements@),
            Err(e) => e matches CompileError::Parse(d) && d.label() == Some(file@) && d.entries().len() > 0,
        },
{
    match crate::grammar::parse(content) {
        Ok(p) => Ok(p),
        Err(mut d) => {
            d.set_file(file.as_str());
            Err(CompileError::Parse(d))
        },
    }
}

impl Compiler {
    /// Parse one source and accumulate its statements. `source` labels its
    /// provenance. The source must declare its `DOMAIN`; its `IMPORT`s are
    /// recorded as pending (they cannot be bound without a resolver), so it may
    /// reference only its own domain. It fails only for a reason
    /// `source_failed` gives, and a syntax error leaves the compiler as it was.
    pub fn add_source(&mut self, source: &str, src: &str) -> (r: Result<(), CompileError>)
        requires
            old(self).wf(),
        ensures
            final(self).wf(),
            old(self).atoms() <= final(self).atoms(),
            r is Ok ==> exists|stmts: Seq<Statement>| #[trigger] crate::syntax::program_ok(src@, stmts) && domain_count(stmts) == 1,
            r is Ok ==> exists|stmts: Seq<Statement>, cs: Seq<Compiler>, ctx: DomainCtx|
                #[trigger] source_applied(*old(self), *final(self), source@, src@, stmts, cs, ctx),
            r is Err ==> (r matches Err(CompileError::Parse(d)) && d.label() == Some(source@)) || exists|stmts: Seq<Statement>|
                #[trigger] crate::syntax::program_ok(src@, stmts),
            r matches Err(e) ==> source_failed(*old(self), *final(self), source@, src@, e),
            r matches Err(CompileError::Parse(_)) ==> *final(self) == *old(self),
            src@.len() < usize::MAX && crate::syntax::program_ok(src@, Seq::<Statement>::empty()) ==> (r matches Err(
                CompileError::MissingDomain { file },
            ) && file@ == source@ && *final(self) == *old(self)),
            forall|s: Seq<Statement>|
                src@.len() < usize::MAX && #[trigger] crate::syntax::program_ok(src@, s) && crate::syntax::readable(src@, s) ==> {
                    &&& domain_count(s) == 0 ==> (r matches Err(CompileError::MissingDomain { file }) && file@ == source@
                        && *final(self) == *old(self))
                    &&& domain_count(s) > 1 ==> (r matches Err(CompileError::DuplicateDomain { file }) && file@ == source@
                        && *final(self) == *old(self))
                },
    {
        let label = crate::text::string_of(source);
        let program = match parse_tagged(&label, src) {
            Ok(p) => p,
            Err(e) => {
                return Err(e);
            },
        };
        proof {
            assert forall|s: Seq<Statement>|
                src@.len() < usize::MAX && #[trigger] crate::syntax::program_ok(src@, s) && crate::syntax::readable(src@, s) implies domain_count(s)
                    == domain_count(program.statements@) by {
                lemma_kinds_domain_count(s, program.statements@);
            }
        }
        let domain = match extract_domain(&program, &label) {
            Ok(d) => d,
            Err(e) => {
                proof {
                    assert(crate::syntax::program_ok(src@, program.statements@));
                }
                return Err(e);
            },
        };
        proof {
            assert(crate::syntax::program_ok(src@, program.statements@));
            assert(!(src@.len() < usize::MAX && crate::syntax::program_ok(src@, Seq::<Statement>::empty())));
        }
        let mut aliases: Vec<(String, String)> = Vec::new();
        aliases.push((domain.clone(), domain.clone()));
        let ctx = DomainCtx { current: domain, aliases };
        let ghost st = program.statements@;
        self.collect_decls(&program);
        match self.apply_closures(&program, &label) {
            Ok(()) => {},
            Err(e) => {
                return Err(e);
            },
        }
        proof {
            assert forall|q: Seq<char>| !closes_rel(st, q) implies #[trigger] rel_pairs(rels_v(self.decls.relations@), q)
                == rel_pairs(rels_v(old(self).decls.relations@), q) + fact_pairs(st, q) by {}
            assert(decls_collected(*old(self), *self, st));
            assert(own_ctx(ctx, ctx.current@));
            assert(first_domain(st) == Some(ctx.current@));
            assert(source_steps(seq![*self], label@, st.subrange(0, 0), ctx));
        }
        let ghost mut cs: Seq<Compiler> = seq![*self];
        let mut i: usize = 0;
        while i < program.statements.len()
            invariant
                self.wf(),
                old(self).atoms() <= self.atoms(),
                crate::syntax::program_ok(src@, program.statements@),
                !(src@.len() < usize::MAX && crate::syntax::program_ok(src@, Seq::<Statement>::empty())),
                forall|s: Seq<Statement>|
                    src@.len() < usize::MAX && #[trigger] crate::syntax::program_ok(src@, s) && crate::syntax::readable(src@, s)
                        ==> domain_count(s) == 1,
                st == program.statements@,
                i <= st.len(),
                source_steps(cs, label@, st.subrange(0, i as int), ctx),
                cs.last() == *self,
                label@ == source@,
                decls_collected(*old(self), cs[0], st),
                own_ctx(ctx, ctx.current@),
                first_domain(st) == Some(ctx.current@),
                domain_count(st) == 1,
            decreases program.statements@.len() - i,
        {
            let ghost before = *self;
            match &program.statements[i] {
                Statement::Domain(_) => {
                    proof {
                        assert(step_effect(before, *self, label@, st[i as int], ctx));
                    }
                },
                Statement::Import { path, .. } => {
                    self.decls.pending_imports.push(path.data.clone());
                    proof {
                        assert(pending_views(*self) =~= pending_views(before).push(path.data@));
                        assert(step_effect(before, *self, label@, st[i as int], ctx));
                    }
                },
                other => {
                    let r = self.add_statement(&label, other, &ctx);
                    let ghost rg = r;
                    match r {
                        Ok(()) => {},
                        Err(e) => {
                            proof {
                                assert(stmt_effect(before, *self, label@, st[i as int], ctx, Err(e)));
                                assert(step_failed(*old(self), *self, source@, st, cs, ctx, i as int, e));
                                assert(stmts_failed(*old(self), *self, source@, st, e));
                            }
                            return Err(e);
                        },
                    }
                    proof {
                        assert(rg is Ok);
                        assert(rg == Ok::<(), CompileError>(rg->Ok_0));
                        assert(rg->Ok_0 == ());
                        assert(rg == Ok::<(), CompileError>(()));
                        assert(stmt_effect(before, *self, label@, *other, ctx, Ok(())));
                        assert(step_effect(before, *self, label@, st[i as int], ctx));
                    }
                },
            }
            proof {
                let cs0 = cs;
                let pre = st.subrange(0, i as int);
                let t = st.subrange(0, i + 1);
                assert(step_effect(before, *self, label@, st[i as int], ctx));
                cs = cs.push(*self);
                assert forall|k: int| 0 <= k < t.len() implies #[trigger] step_effect(cs[k], cs[k + 1], label@, t[k], ctx) by {
                    if k < pre.len() {
                        assert(t[k] == pre[k]);
                        assert(step_effect(cs0[k], cs0[k + 1], label@, pre[k], ctx));
                    }
                }
            }
            i = i + 1;
        }
        proof {
            assert(st.subrange(0, st.len() as int) =~= st);
            assert(source_applied(*old(self), *self, source@, src@, st, cs, ctx));
        }
        Ok(())
    }

    /// Compile one resolved file's statements in its domain context. A
    /// blank file is accepted and changes nothing.
    pub(crate) fn add_resolved(&mut self, path: &String, content: &String, ctx: &DomainCtx) -> (r: Result<(), CompileError>)
        requires
            old(self).wf(),
        ensures
            final(self).wf(),
            old(self).atoms() <= final(self).atoms(),
            r is Err ==> (r matches Err(CompileError::Parse(d)) && d.label() == Some(path@)) || exists|stmts: Seq<Statement>|
                #[trigger] crate::syntax::program_ok(content@, stmts),
            content@.len() < usize::MAX && crate::syntax::program_ok(content@, Seq::<Statement>::empty()) ==> (r is Ok
                && *final(self) == *old(self)),
            r is Ok ==> exists|stmts: Seq<Statement>, cs: Seq<Compiler>|
                #[trigger] file_applied(*old(self), *final(self), path@, content@, *ctx, stmts, cs),
            r matches Err(e) ==> file_failed(*old(self), *final(self), path@, content@, *ctx, e),
    {
        let program = match parse_tagged(path, content.as_str()) {
            Ok(p) => p,
            Err(e) => {
                return Err(e);
            },
        };
        let ghost blank = content@.len() < usize::MAX && crate::syntax::program_ok(content@, Seq::<Statement>::empty());
        proof {
            assert(crate::syntax::program_ok(content@, program.statements@));
        }
        self.collect_decls(&program);
        proof {
            if blank {
                assert forall|q: Seq<char>|
                    #[trigger] after_closes(program.statements@, q, rel_pairs(rels_v(self.decls.relations@), q).to_set())
                        is Some by {}
            }
        }
        match self.apply_closures(&program, path) {
            Ok(()) => {},
            Err(e) => {
                return Err(e);
            },
        }
        let ghost st = program.statements@;
        proof {
            assert forall|q: Seq<char>| !closes_rel(st, q) implies #[trigger] rel_pairs(rels_v(self.decls.relations@), q)
                == rel_pairs(rels_v(old(self).decls.relations@), q) + fact_pairs(st, q) by {}
            assert(decls_collected(*old(self), *self, st));
        }
        let ghost mut cs: Seq<Compiler> = seq![*self];
        let mut i: usize = 0;
        while i < program.statements.len()
            invariant
                self.wf(),
                old(self).atoms() <= self.atoms(),
                crate::syntax::program_ok(content@, program.statements@),
                content@.len() < usize::MAX && crate::syntax::program_ok(content@, Seq::<Statement>::empty())
                    ==> program.statements@.len() == 0 && *self == *old(self),
                st == program.statements@,
                i <= st.len(),
                decls_collected(*old(self), cs[0], st),
                cs.len() == i + 1,
                forall|k: int| 0 <= k < i ==> #[trigger] file_step(cs[k], cs[k + 1], path@, st[k], *ctx),
                cs.last() == *self,
            decreases program.statements@.len() - i,
        {
            let ghost before = *self;
            match &program.statements[i] {
                Statement::Domain(_) | Statement::Import { .. } => {},
                other => {
                    let r = self.add_statement(path, other, ctx);
                    let ghost rg = r;
                    match r {
                        Ok(()) => {},
                        Err(e) => {
                            proof {
                                assert(stmt_effect(before, *self, path@, st[i as int], *ctx, Err(e)));
                                assert(file_step_failed(*old(self), *self, path@, st, cs, *ctx, i as int, e));
                            }
                            return Err(e);
                        },
                    }
                    proof {
                        assert(rg == Ok::<(), CompileError>(rg->Ok_0));
                        assert(rg->Ok_0 == ());
                        assert(stmt_effect(before, *self, path@, *other, *ctx, Ok(())));
                    }
                },
            }
            proof {
                let cs0 = cs;
                assert(file_step(before, *self, path@, st[i as int], *ctx));
                cs = cs.push(*self);
                assert forall|k: int| 0 <= k < i + 1 implies #[trigger] file_step(cs[k], cs[k + 1], path@, st[k], *ctx) by {
                    if k < i {
                        assert(file_step(cs0[k], cs0[k + 1], path@, st[k], *ctx));
                    }
                }
            }
            i = i + 1;
        }
        proof {
            assert(file_applied(*old(self), *self, path@, content@, *ctx, st, cs));
        }
        Ok(())
    }

    /// The id of an interned atom: its position in the canonical order.
    fn id_of(&self, k: &AtomKey) -> (r: u32)
        requires
            self.wf(),
            self.atoms().contains(k@),
            self.keys@.len() <= 0x1_0000_0000,
        ensures
            (r as int) < self.keys@.len(),
            self.keys@[r as int]@ == k@,
    {
        match search_key(&self.keys, k) {
            Ok(i) => i as u32,
            Err(_) => {
                proof {
                    assert(false);
                }
                0
            },
        }
    }

    fn lower_lits(&self, rs: &Vec<RawLit>) -> (r: Vec<crate::ir::Lit>)
        requires
            self.wf(),
            self.keys@.len() <= 0x1_0000_0000,
            forall|j: int| 0 <= j < rs@.len() ==> self.atoms().contains(#[trigger] rs@[j].key@),
        ensures
            lits_lowered(self.keys@, r@, lits_v(rs@)),
    {
        let mut r: Vec<crate::ir::Lit> = Vec::new();
        let mut j: usize = 0;
        while j < rs.len()
            invariant
                self.wf(),
                self.keys@.len() <= 0x1_0000_0000,
                forall|j: int| 0 <= j < rs@.len() ==> self.atoms().contains(#[trigger] rs@[j].key@),
                j <= rs@.len(),
                r@.len() == j,
                forall|i: int| 0 <= i < j ==> lit_lowered(self.keys@, #[trigger] r@[i], lit_v(rs@[i])),
            decreases rs@.len() - j,
        {
            let id = self.id_of(&rs[j].key);
            r.push(crate::ir::Lit { atom: id, negated: rs[j].negated });
            j = j + 1;
        }
        proof {
            assert forall|i: int| 0 <= i < r@.len() implies lit_lowered(self.keys@, #[trigger] r@[i], lits_v(rs@)[i]) by {
                assert(lits_v(rs@)[i] == lit_v(rs@[i]));
            }
        }
        r
    }

    /// The IR this compiler lowers to: its atoms are the interned keys in
    /// canonical order; its checks and pending imports are the recorded ones;
    /// and, when the ids fit, each fact, clause and rule is the recorded one
    /// with its atoms replaced by their ids, with the same origin, and the
    /// data atoms are marked by id.
    pub open spec fn lowered_to(self, c: crate::ir::Compiled) -> bool {
        &&& key_views(c.atoms@) == self.key_list()
        &&& crate::ir::keys_sorted(key_views(c.atoms@))
        &&& c.checks@ == self.check_list()
        &&& c.pending_imports@ == self.pending_list()
        &&& self.key_list().len() <= 0x1_0000_0000 ==> {
            &&& crate::ir::wf_compiled(c)
            &&& c.facts@.len() == self.fact_list().len()
            &&& forall|i: int| 0 <= i < c.facts@.len() ==> {
                &&& c.atoms@[(#[trigger] c.facts@[i]).atom as int]@ == self.fact_list()[i].0
                &&& c.facts@[i].value == self.fact_list()[i].1
                &&& c.facts@[i].origin.kind@ == self.fact_list()[i].2
                &&& c.facts@[i].soft == self.fact_list()[i].3
            }
            &&& forall|i: int| 0 <= i < c.facts@.len() ==> origin_v((#[trigger] c.facts@[i]).origin) == self.fact_origins()[i]
            &&& c.clauses@.len() == self.clause_list().len()
            &&& forall|i: int| 0 <= i < c.clauses@.len() ==> lits_lowered(
                c.atoms@,
                (#[trigger] c.clauses@[i]).lits@,
                self.clause_list()[i],
            )
            &&& c.rules@.len() == self.rule_list().len()
            &&& forall|i: int| 0 <= i < c.rules@.len() ==> lits_lowered(
                c.atoms@,
                (#[trigger] c.rules@[i]).antecedent@,
                self.rule_list()[i].0,
            ) && lits_lowered(c.atoms@, c.rules@[i].consequent@, self.rule_list()[i].1)
            &&& forall|i: int| 0 <= i < c.clauses@.len() ==> origin_v((#[trigger] c.clauses@[i]).origin) == self.clause_origins()[i]
            &&& forall|i: int| 0 <= i < c.rules@.len() ==> origin_v((#[trigger] c.rules@[i]).origin) == self.rule_origins()[i]
            &&& forall|i: int| 0 <= i < c.atoms@.len() ==> (self.consumed_set().contains(
                #[trigger] c.atoms@[i]@,
            ) <==> c.consumed@.contains(i as u32))
        }
    }

    /// Intern all atoms in canonical order and lower the accumulated facts,
    /// clauses and rules to ids: every lowered literal names exactly the atom
    /// its source literal did.
    pub fn finalize(self) -> (c: crate::ir::Compiled)
        requires
            self.wf(),
        ensures
            key_views(c.atoms@) == self.key_list(),
            crate::ir::keys_sorted(key_views(c.atoms@)),
            c.checks@ == self.check_list(),
            c.pending_imports@ == self.pending_list(),
            c.unused_imports@.len() == 0,
            c.placeholders@.len() == 0,
            self.lowered_to(c),
            self.key_list().len() <= 0x1_0000_0000 ==> {
                &&& crate::ir::wf_compiled(c)
                &&& c.facts@.len() == self.fact_list().len()
                &&& forall|i: int| 0 <= i < c.facts@.len() ==> {
                    &&& c.atoms@[(#[trigger] c.facts@[i]).atom as int]@ == self.fact_list()[i].0
                    &&& c.facts@[i].value == self.fact_list()[i].1
                    &&& c.facts@[i].origin.kind@ == self.fact_list()[i].2
                    &&& c.facts@[i].soft == self.fact_list()[i].3
                }
                &&& forall|i: int| 0 <= i < c.facts@.len() ==> origin_v((#[trigger] c.facts@[i]).origin) == self.fact_origins()[i]
                &&& c.clauses@.len() == self.clause_list().len()
                &&& forall|i: int| 0 <= i < c.clauses@.len() ==> lits_lowered(
                    c.atoms@,
                    (#[trigger] c.clauses@[i]).lits@,
                    self.clause_list()[i],
                )
                &&& c.rules@.len() == self.rule_list().len()
                &&& forall|i: int| 0 <= i < c.rules@.len() ==> lits_lowered(
                    c.atoms@,
                    (#[trigger] c.rules@[i]).antecedent@,
                    self.rule_list()[i].0,
                ) && lits_lowered(c.atoms@, c.rules@[i].consequent@, self.rule_list()[i].1)
                &&& forall|i: int| 0 <= i < c.clauses@.len() ==> origin_v((#[trigger] c.clauses@[i]).origin) == self.clause_origins()[i]
                &&& forall|i: int| 0 <= i < c.rules@.len() ==> origin_v((#[trigger] c.rules@[i]).origin) == self.rule_origins()[i]
                &&& forall|i: int| 0 <= i < c.atoms@.len() ==> (self.consumed_set().contains(
                    #[trigger] c.atoms@[i]@,
                ) <==> c.consumed@.contains(i as u32))
            },
    {
        let big = (self.keys.len() as u64) > 0x1_0000_0000u64;
        let mut facts: Vec<crate::ir::Fact> = Vec::new();
        let mut clauses: Vec<crate::ir::Clause> = Vec::new();
        let mut rules: Vec<crate::ir::Rule> = Vec::new();
        let mut consumed: Vec<u32> = Vec::new();
        if !big {
            let mut i: usize = 0;
            while i < self.facts.len()
                invariant
                    self.wf(),
                    self.keys@.len() <= 0x1_0000_0000,
                    i <= self.facts@.len(),
                    facts@.len() == i,
                    forall|j: int| 0 <= j < i ==> {
                        &&& ((#[trigger] facts@[j]).atom as int) < self.keys@.len()
                        &&& self.keys@[facts@[j].atom as int]@ == self.facts@[j].key@
                        &&& facts@[j].value == self.facts@[j].value
                        &&& facts@[j].soft == self.facts@[j].soft
                        &&& facts@[j].origin.kind == self.facts@[j].origin.kind
                        &&& origin_v(facts@[j].origin) == origin_v(self.facts@[j].origin)
                    },
                decreases self.facts@.len() - i,
            {
                let f = &self.facts[i];
                let id = self.id_of(&f.key);
                facts.push(crate::ir::Fact { atom: id, value: f.value, origin: copy_origin(&f.origin), soft: f.soft });
                i = i + 1;
            }
            let mut i: usize = 0;
            while i < self.clauses.len()
                invariant
                    self.wf(),
                    self.keys@.len() <= 0x1_0000_0000,
                    i <= self.clauses@.len(),
                    clauses@.len() == i,
                    forall|j: int| 0 <= j < i ==> lits_lowered(self.keys@, (#[trigger] clauses@[j]).lits@, lits_v(self.clauses@[j].lits@)),
                    forall|j: int| 0 <= j < i ==> origin_v((#[trigger] clauses@[j]).origin) == origin_v(self.clauses@[j].origin),
                decreases self.clauses@.len() - i,
            {
                let lits = self.lower_lits(&self.clauses[i].lits);
                clauses.push(crate::ir::Clause { lits, origin: copy_origin(&self.clauses[i].origin) });
                i = i + 1;
            }
            let mut i: usize = 0;
            while i < self.rules.len()
                invariant
                    self.wf(),
                    self.keys@.len() <= 0x1_0000_0000,
                    i <= self.rules@.len(),
                    rules@.len() == i,
                    forall|j: int| 0 <= j < i ==> lits_lowered(self.keys@, (#[trigger] rules@[j]).antecedent@, lits_v(self.rules@[j].antecedent@))
                        && lits_lowered(self.keys@, rules@[j].consequent@, lits_v(self.rules@[j].consequent@)),
                    forall|j: int| 0 <= j < i ==> origin_v((#[trigger] rules@[j]).origin) == origin_v(self.rules@[j].origin),
                decreases self.rules@.len() - i,
            {
                let a = self.lower_lits(&self.rules[i].antecedent);
                let c = self.lower_lits(&self.rules[i].consequent);
                rules.push(crate::ir::Rule { antecedent: a, consequent: c, origin: copy_origin(&self.rules[i].origin) });
                i = i + 1;
            }
            let mut i: usize = 0;
            while i < self.keys.len()
                invariant
                    self.wf(),
                    self.keys@.len() <= 0x1_0000_0000,
                    i <= self.keys@.len(),
                    forall|j: int| 0 <= j < consumed@.len() ==> (#[trigger] consumed@[j] as int) < i,
                    forall|a: int, b: int| 0 <= a < b < consumed@.len() ==> consumed@[a] < consumed@[b],
                    forall|j: int| 0 <= j < i ==> (key_views(self.decls.consumed@).contains(#[trigger] self.keys@[j]@)
                        <==> consumed@.contains(j as u32)),
                decreases self.keys@.len() - i,
            {
                let found = search_key(&self.decls.consumed, &self.keys[i]);
                let ghost c0 = consumed@;
                if found.is_ok() {
                    consumed.push(i as u32);
                }
                proof {
                    assert((i as u32) as int == i);
                    assert forall|j: int| 0 <= j < i + 1 implies (key_views(self.decls.consumed@).contains(#[trigger] self.keys@[j]@)
                        <==> consumed@.contains(j as u32)) by {
                        assert((j as u32) as int == j);
                        if consumed@.contains(j as u32) {
                            let k = choose|k: int| 0 <= k < consumed@.len() && consumed@[k] == j as u32;
                            if k < c0.len() {
                                assert(c0[k] == j as u32);
                                assert(c0.contains(j as u32));
                            }
                        }
                        if j < i && c0.contains(j as u32) {
                            let k = choose|k: int| 0 <= k < c0.len() && c0[k] == j as u32;
                            assert(consumed@[k] == j as u32);
                        }
                        if j == i {
                            if found.is_ok() {
                                assert(consumed@[consumed@.len() - 1] == i as u32);
                            } else {
                                assert(consumed@ == c0);
                                if c0.contains(j as u32) {
                                    let k = choose|k: int| 0 <= k < c0.len() && c0[k] == j as u32;
                                    assert((c0[k] as int) < i);
                                }
                            }
                        }
                    }
                }
                i = i + 1;
            }
            proof {
                assert forall|i: int| 0 <= i < self.facts@.len() implies fact_views(self.facts@)[i] == (self.facts@[i].key@, self.facts@[i].value, self.facts@[i].origin.kind@, self.facts@[i].soft) by {}
                assert forall|i: int| 0 <= i < self.facts@.len() implies self.fact_origins()[i] == origin_v(self.facts@[i].origin) by {}
                assert forall|i: int| 0 <= i < self.clauses@.len() implies clause_lits(self.clauses@)[i] == lits_v(self.clauses@[i].lits@) by {}
                assert forall|i: int| 0 <= i < self.rules@.len() implies rule_lits(self.rules@)[i] == (lits_v(self.rules@[i].antecedent@), lits_v(self.rules@[i].consequent@)) by {}
            }
        }
        let Compiler { keys, facts: _, clauses: _, rules: _, decls } = self;
        crate::ir::Compiled {
            atoms: keys,
            facts,
            clauses,
            rules,
            checks: decls.checks,
            pending_imports: decls.pending_imports,
            unused_imports: Vec::new(),
            consumed,
            placeholders: Vec::new(),
        }
    }
}

// --- closed world -------------------------------------------------------------

/// `(domain, subject, predicate)` has values declared by some `ONEOF`.
pub(crate) open spec fn closes(oneof: Seq<(String, String, String, String)>, d: Seq<char>, sub: Seq<char>, p: Seq<char>) -> bool {
    exists|i: int| 0 <= i < oneof.len() && (#[trigger] oneof[i]).0@ == d && oneof[i].1@ == sub && oneof[i].2@ == p
}

/// `(d, sub, p, v)` is the atom `d.sub p v` of a `ONEOF` list.
pub(crate) open spec fn oneof_member(keys: Seq<KeyV>, d: Seq<char>, sub: Seq<char>, p: Seq<char>, v: Seq<char>) -> bool {
    exists|j: int| 0 <= j < keys.len() && #[trigger] keys[j] == (KeyV { domain: d, subject: sub, predicate: Some(p), object: Some(v) })
}

/// `value` is a declared value of `(domain, subject, predicate)`.
pub(crate) open spec fn declares(oneof: Seq<(String, String, String, String)>, d: Seq<char>, sub: Seq<char>, p: Seq<char>, v: Seq<char>) -> bool {
    exists|i: int| 0 <= i < oneof.len() && (#[trigger] oneof[i]).0@ == d && oneof[i].1@ == sub && oneof[i].2@ == p && oneof[i].3@ == v
}

/// An atom that names a value of a closed variable that its `ONEOF` did not
/// declare.
pub(crate) open spec fn out_of_set(oneof: Seq<(String, String, String, String)>, k: KeyV) -> bool {
    match (k.predicate, k.object) {
        (Some(p), Some(o)) => closes(oneof, k.domain, k.subject, p) && !declares(oneof, k.domain, k.subject, p, o),
        _ => false,
    }
}

/// One atom reference with the source and line it came from.
pub type RefV = (Seq<char>, u32, KeyV);

/// The references of the facts.
pub(crate) open spec fn fact_refs(fs: Seq<RawFact>) -> Seq<RefV> {
    fs.map_values(|f: RawFact| (f.origin.source@, f.origin.line, f.key@))
}

/// The references of a literal list under one origin.
pub(crate) open spec fn lit_refs(ls: Seq<RawLit>, o: Origin) -> Seq<RefV> {
    ls.map_values(|l: RawLit| (o.source@, o.line, l.key@))
}

/// The references of the clauses, clause by clause.
pub(crate) open spec fn clause_refs(cs: Seq<RawClause>) -> Seq<RefV> {
    cs.map_values(|c: RawClause| lit_refs(c.lits@, c.origin)).flatten()
}

/// The references of the rules, rule by rule (antecedent, then consequent).
pub(crate) open spec fn rule_refs(rs: Seq<RawRule>) -> Seq<RefV> {
    rs.map_values(|r: RawRule| lit_refs(r.antecedent@, r.origin) + lit_refs(r.consequent@, r.origin)).flatten()
}

/// Every atom reference of the program so far: facts, then clauses, then
/// rules.
pub(crate) open spec fn all_refs(c: Compiler) -> Seq<RefV> {
    fact_refs(c.facts@) + clause_refs(c.clauses@) + rule_refs(c.rules@)
}

/// The report of an out-of-set value of the variable `k`: the declared
/// values, sorted and comma-joined, and a "did you mean" for the closest one.
pub(crate) open spec fn value_report(oneof: Seq<(String, String, String, String)>, k: KeyV, u: crate::error::UnknownValue) -> bool {
    exists|vals: Seq<Seq<char>>|
        #[trigger] crate::table::strings_sorted(vals) && (forall|v: Seq<char>| #[trigger] vals.contains(v) <==> declares(
            oneof,
            k.domain,
            k.subject,
            u.predicate@,
            v,
        )) && u.declared@ == crate::sig::join_spec(vals, ", "@) && ((exists|i: int|
            crate::error::nearest_at(u.value@, vals, i) && u.suggestion@ == crate::error::suggestion_spec(u.value@, vals, Some(i)))
            || (crate::error::nothing_near(u.value@, vals) && u.suggestion@.len() == 0))
}

/// A reference that breaks the closed world.
pub(crate) open spec fn offends(c: Compiler, r: RefV) -> bool {
    out_of_set(c.decls.oneof@, r.2) && all_refs(c).contains(r)
}

/// The order offenders are reported in: by source, then line, then subject,
/// then object.
pub open spec fn offender_lt(a: (Seq<char>, u32, KeyV), b: (Seq<char>, u32, KeyV)) -> bool {
    ||| crate::text::seq_lt(a.0, b.0)
    ||| a.0 == b.0 && a.1 < b.1
    ||| a.0 == b.0 && a.1 == b.1 && crate::text::seq_lt(a.2.subject, b.2.subject)
    ||| a.0 == b.0 && a.1 == b.1 && a.2.subject == b.2.subject && crate::ir::opt_lt(a.2.object, b.2.object)
}

fn offender_before(a: &(String, u32, AtomKey), b: &(String, u32, AtomKey)) -> (r: bool)
    ensures
        r == offender_lt((a.0@, a.1, a.2@), (b.0@, b.1, b.2@)),
{
    proof {
        crate::text::lemma_seq_lt_irrefl(a.0@);
        crate::text::lemma_seq_lt_irrefl(a.2.subject@);
        crate::text::lemma_seq_lt_total(a.0@, b.0@);
        crate::text::lemma_seq_lt_total(a.2.subject@, b.2.subject@);
        match (opt_view(a.2.object), opt_view(b.2.object)) {
            (Some(x), Some(y)) => {
                crate::text::lemma_seq_lt_irrefl(x);
                crate::text::lemma_seq_lt_total(x, y);
            },
            _ => {},
        }
    }
    match crate::ir::compare_strings(&a.0, &b.0) {
        Order::Less => true,
        Order::Greater => {
            proof {
                crate::text::lemma_seq_lt_total(a.0@, b.0@);
            }
            false
        },
        Order::Equal => {
            if a.1 != b.1 {
                a.1 < b.1
            } else {
                match crate::ir::compare_strings(&a.2.subject, &b.2.subject) {
                    Order::Less => true,
                    Order::Greater => {
                        proof {
                            crate::text::lemma_seq_lt_total(a.2.subject@, b.2.subject@);
                        }
                        false
                    },
                    Order::Equal => match (&a.2.object, &b.2.object) {
                        (None, Some(_)) => true,
                        (Some(x), Some(y)) => crate::ir::compare_strings(x, y) == Order::Less,
                        _ => false,
                    },
                }
            }
        },
    }
}

impl Compiler {
    fn is_out_of_set(&self, k: &AtomKey) -> (r: bool)
        ensures
            r == out_of_set(self.decls.oneof@, k@),
    {
        match (&k.predicate, &k.object) {
            (Some(p), Some(o)) => {
                let mut closed = false;
                let mut declared = false;
                let mut i: usize = 0;
                while i < self.decls.oneof.len()
                    invariant
                        i <= self.decls.oneof@.len(),
                        closed == exists|j: int| 0 <= j < i && (#[trigger] self.decls.oneof@[j]).0@ == k.domain@ && self.decls.oneof@[j].1@ == k.subject@ && self.decls.oneof@[j].2@ == p@,
                        declared == exists|j: int| 0 <= j < i && (#[trigger] self.decls.oneof@[j]).0@ == k.domain@ && self.decls.oneof@[j].1@ == k.subject@ && self.decls.oneof@[j].2@ == p@ && self.decls.oneof@[j].3@ == o@,
                    decreases self.decls.oneof@.len() - i,
                {
                    let e = &self.decls.oneof[i];
                    if crate::ir::compare_strings(&e.0, &k.domain) == Order::Equal
                        && crate::ir::compare_strings(&e.1, &k.subject) == Order::Equal
                        && crate::ir::compare_strings(&e.2, p) == Order::Equal {
                        closed = true;
                        if crate::ir::compare_strings(&e.3, o) == Order::Equal {
                            declared = true;
                        }
                    }
                    i = i + 1;
                }
                closed && !declared
            },
            _ => false,
        }
    }

    /// The declared values of a closed variable, sorted and comma-joined.
    fn declared_values(&self, d: &String, sub: &String, p: &String) -> (r: (Vec<String>, String))
        ensures
            crate::table::strings_sorted(crate::table::string_views(r.0@)),
            forall|v: Seq<char>| #[trigger] crate::table::string_views(r.0@).contains(v) <==> declares(
                self.decls.oneof@,
                d@,
                sub@,
                p@,
                v,
            ),
            r.1@ == crate::sig::join_spec(crate::table::string_views(r.0@), ", "@),
    {
        let mut vals: Vec<String> = Vec::new();
        let mut i: usize = 0;
        proof {
            assert(crate::table::string_views(vals@).to_set() =~= Set::<Seq<char>>::empty());
        }
        while i < self.decls.oneof.len()
            invariant
                i <= self.decls.oneof@.len(),
                crate::table::strings_sorted(crate::table::string_views(vals@)),
                forall|v: Seq<char>| #[trigger] crate::table::string_views(vals@).to_set().contains(v) <==> declares(
                    self.decls.oneof@.subrange(0, i as int),
                    d@,
                    sub@,
                    p@,
                    v,
                ),
            decreases self.decls.oneof@.len() - i,
        {
            let ghost o = self.decls.oneof@;
            proof {
                assert forall|v: Seq<char>| declares(o.subrange(0, i + 1), d@, sub@, p@, v) <==> (declares(o.subrange(0, i as int), d@, sub@, p@, v) || (
                    o[i as int].0@ == d@ && o[i as int].1@ == sub@ && o[i as int].2@ == p@ && o[i as int].3@ == v)) by {
                    if declares(o.subrange(0, i + 1), d@, sub@, p@, v) {
                        let j = choose|j: int| 0 <= j < i + 1 && (#[trigger] o.subrange(0, i + 1)[j]).0@ == d@ && o.subrange(0, i + 1)[j].1@ == sub@
                            && o.subrange(0, i + 1)[j].2@ == p@ && o.subrange(0, i + 1)[j].3@ == v;
                        if j < i {
                            assert(o.subrange(0, i as int)[j] == o.subrange(0, i + 1)[j]);
                        }
                    }
                    if declares(o.subrange(0, i as int), d@, sub@, p@, v) {
                        let j = choose|j: int| 0 <= j < i && (#[trigger] o.subrange(0, i as int)[j]).0@ == d@ && o.subrange(0, i as int)[j].1@ == sub@
                            && o.subrange(0, i as int)[j].2@ == p@ && o.subrange(0, i as int)[j].3@ == v;
                        assert(o.subrange(0, i + 1)[j] == o.subrange(0, i as int)[j]);
                    }
                    if o[i as int].0@ == d@ && o[i as int].1@ == sub@ && o[i as int].2@ == p@ && o[i as int].3@ == v {
                        assert(o.subrange(0, i + 1)[i as int] == o[i as int]);
                    }
                }
            }
            let e = &self.decls.oneof[i];
            let ghost s0 = crate::table::string_views(vals@).to_set();
            let ghost hit = o[i as int].0@ == d@ && o[i as int].1@ == sub@ && o[i as int].2@ == p@;
            if crate::ir::compare_strings(&e.0, d) == Order::Equal
                && crate::ir::compare_strings(&e.1, sub) == Order::Equal
                && crate::ir::compare_strings(&e.2, p) == Order::Equal {
                crate::table::insert_string(&mut vals, &e.3);
            }
            proof {
                assert(crate::table::string_views(vals@).to_set() == if hit { s0.insert(o[i as int].3@) } else { s0 });
                assert forall|v: Seq<char>| #[trigger] crate::table::string_views(vals@).to_set().contains(v) <==> declares(
                    o.subrange(0, i + 1),
                    d@,
                    sub@,
                    p@,
                    v,
                ) by {
                    assert(s0.contains(v) <==> declares(o.subrange(0, i as int), d@, sub@, p@, v));
                    assert(declares(o.subrange(0, i + 1), d@, sub@, p@, v) <==> (declares(o.subrange(0, i as int), d@, sub@, p@, v) || (
                        hit && o[i as int].3@ == v)));
                }
            }
            i = i + 1;
        }
        proof {
            assert(self.decls.oneof@.subrange(0, self.decls.oneof@.len() as int) =~= self.decls.oneof@);
            assert forall|v: Seq<char>| #[trigger] crate::table::string_views(vals@).contains(v) <==> crate::table::string_views(vals@).to_set().contains(v) by {}
        }
        let joined = crate::sig::join_strings(&vals, ", ");
        (vals, joined)
    }

    /// Every atom reference with its source and line (facts, then clauses,
    /// then rules).
    fn references(&self) -> (r: Vec<(String, u32, AtomKey)>)
        ensures
            r@.map_values(|x: (String, u32, AtomKey)| (x.0@, x.1, x.2@)) == all_refs(*self),
    {
        let mut r: Vec<(String, u32, AtomKey)> = Vec::new();
        let ghost f = |x: (String, u32, AtomKey)| (x.0@, x.1, x.2@);
        let mut i: usize = 0;
        while i < self.facts.len()
            invariant
                f == (|x: (String, u32, AtomKey)| (x.0@, x.1, x.2@)),
                i <= self.facts@.len(),
                r@.map_values(f) == fact_refs(self.facts@.subrange(0, i as int)),
            decreases self.facts@.len() - i,
        {
            let ghost r0 = r@;
            let x = (self.facts[i].origin.source.clone(), self.facts[i].origin.line, copy_key(&self.facts[i].key));
            let ghost xv = x;
            r.push(x);
            proof {
                assert(r@.map_values(f) =~= r0.map_values(f).push(f(xv)));
                assert(fact_refs(self.facts@.subrange(0, i + 1)) =~= fact_refs(self.facts@.subrange(0, i as int)).push(f(xv)));
            }
            i = i + 1;
        }
        proof {
            assert(self.facts@.subrange(0, self.facts@.len() as int) =~= self.facts@);
        }
        let ghost base = r@.map_values(f);
        let ghost cf = |c: RawClause| lit_refs(c.lits@, c.origin);
        let mut i: usize = 0;
        while i < self.clauses.len()
            invariant
                f == (|x: (String, u32, AtomKey)| (x.0@, x.1, x.2@)),
                cf == (|c: RawClause| lit_refs(c.lits@, c.origin)),
                base == fact_refs(self.facts@),
                i <= self.clauses@.len(),
                r@.map_values(f) == base + self.clauses@.subrange(0, i as int).map_values(cf).flatten(),
            decreases self.clauses@.len() - i,
        {
            let c = &self.clauses[i];
            let ghost r0 = r@.map_values(f);
            let mut j: usize = 0;
            while j < c.lits.len()
                invariant
                    f == (|x: (String, u32, AtomKey)| (x.0@, x.1, x.2@)),
                    c == &self.clauses@[i as int],
                    i < self.clauses@.len(),
                    j <= c.lits@.len(),
                    r@.map_values(f) == r0 + lit_refs(c.lits@.subrange(0, j as int), c.origin),
                decreases c.lits@.len() - j,
            {
                let ghost r1 = r@;
                let x = (c.origin.source.clone(), c.origin.line, copy_key(&c.lits[j].key));
                let ghost xv = x;
                r.push(x);
                proof {
                    assert(r@.map_values(f) =~= r1.map_values(f).push(f(xv)));
                    assert(lit_refs(c.lits@.subrange(0, j + 1), c.origin) =~= lit_refs(c.lits@.subrange(0, j as int), c.origin).push(f(xv)));
                }
                j = j + 1;
            }
            proof {
                assert(c.lits@.subrange(0, c.lits@.len() as int) =~= c.lits@);
                let pre = self.clauses@.subrange(0, i as int).map_values(cf);
                assert(self.clauses@.subrange(0, i + 1).map_values(cf) =~= pre.push(cf(self.clauses@[i as int])));
                pre.lemma_flatten_push(cf(self.clauses@[i as int]));
            }
            i = i + 1;
        }
        proof {
            assert(self.clauses@.subrange(0, self.clauses@.len() as int) =~= self.clauses@);
        }
        let ghost base2 = r@.map_values(f);
        let ghost rf = |x: RawRule| lit_refs(x.antecedent@, x.origin) + lit_refs(x.consequent@, x.origin);
        let mut i: usize = 0;
        while i < self.rules.len()
            invariant
                f == (|x: (String, u32, AtomKey)| (x.0@, x.1, x.2@)),
                rf == (|x: RawRule| lit_refs(x.antecedent@, x.origin) + lit_refs(x.consequent@, x.origin)),
                base2 == fact_refs(self.facts@) + clause_refs(self.clauses@),
                i <= self.rules@.len(),
                r@.map_values(f) == base2 + self.rules@.subrange(0, i as int).map_values(rf).flatten(),
            decreases self.rules@.len() - i,
        {
            let ru = &self.rules[i];
            let ghost r0 = r@.map_values(f);
            let mut j: usize = 0;
            while j < ru.antecedent.len()
                invariant
                    f == (|x: (String, u32, AtomKey)| (x.0@, x.1, x.2@)),
                    ru == &self.rules@[i as int],
                    i < self.rules@.len(),
                    j <= ru.antecedent@.len(),
                    r@.map_values(f) == r0 + lit_refs(ru.antecedent@.subrange(0, j as int), ru.origin),
                decreases ru.antecedent@.len() - j,
            {
                let ghost r1 = r@;
                let x = (ru.origin.source.clone(), ru.origin.line, copy_key(&ru.antecedent[j].key));
                let ghost xv = x;
                r.push(x);
                proof {
                    assert(r@.map_values(f) =~= r1.map_values(f).push(f(xv)));
                    assert(lit_refs(ru.antecedent@.subrange(0, j + 1), ru.origin) =~= lit_refs(ru.antecedent@.subrange(0, j as int), ru.origin).push(f(xv)));
                }
                j = j + 1;
            }
            proof {
                assert(ru.antecedent@.subrange(0, ru.antecedent@.len() as int) =~= ru.antecedent@);
            }
            let ghost r2 = r@.map_values(f);
            let mut j: usize = 0;
            while j < ru.consequent.len()
                invariant
                    f == (|x: (String, u32, AtomKey)| (x.0@, x.1, x.2@)),
                    ru == &self.rules@[i as int],
                    i < self.rules@.len(),
                    j <= ru.consequent@.len(),
                    r@.map_values(f) == r2 + lit_refs(ru.consequent@.subrange(0, j as int), ru.origin),
                decreases ru.consequent@.len() - j,
            {
                let ghost r1 = r@;
                let x = (ru.origin.source.clone(), ru.origin.line, copy_key(&ru.consequent[j].key));
                let ghost xv = x;
                r.push(x);
                proof {
                    assert(r@.map_values(f) =~= r1.map_values(f).push(f(xv)));
                    assert(lit_refs(ru.consequent@.subrange(0, j + 1), ru.origin) =~= lit_refs(ru.consequent@.subrange(0, j as int), ru.origin).push(f(xv)));
                }
                j = j + 1;
            }
            proof {
                assert(ru.consequent@.subrange(0, ru.consequent@.len() as int) =~= ru.consequent@);
                let pre = self.rules@.subrange(0, i as int).map_values(rf);
                assert(self.rules@.subrange(0, i + 1).map_values(rf) =~= pre.push(rf(self.rules@[i as int])));
                pre.lemma_flatten_push(rf(self.rules@[i as int]));
            }
            i = i + 1;
        }
        proof {
            assert(self.rules@.subrange(0, self.rules@.len() as int) =~= self.rules@);
        }
        r
    }

    /// Closed-world check: once a `ONEOF` enumerates a variable's values, a
    /// reference with an object outside that set is rejected as a likely typo.
    /// The earliest offender (by source, line, subject, object; the first
    /// found on a tie) is reported, with a "did you mean" suggestion when a
    /// declared value is close.
    pub(crate) fn validate_closed_world(&self) -> (r: Result<(), CompileError>)
        ensures
            r is Ok <==> !(exists|x: RefV| #[trigger] offends(*self, x)),
            r is Ok <==> self.closed_world(),
            r is Err ==> (r matches Err(CompileError::UnknownValue(u)) && (exists|k: KeyV| {
                &&& #[trigger] offends(*self, (u.file@, u.line, k))
                &&& k.object == Some(u.value@)
                &&& k.subject == u.subject@
                &&& k.predicate == Some(u.predicate@)
                &&& value_report(self.decls.oneof@, k, *u)
                &&& forall|x: RefV| #[trigger] offends(*self, x) ==> !offender_lt(x, (u.file@, u.line, k))
            })),
    {
        let refs = self.references();
        let ghost rv = refs@.map_values(|x: (String, u32, AtomKey)| (x.0@, x.1, x.2@));
        let mut best: Option<usize> = None;
        let mut i: usize = 0;
        while i < refs.len()
            invariant
                rv == refs@.map_values(|x: (String, u32, AtomKey)| (x.0@, x.1, x.2@)),
                rv == all_refs(*self),
                i <= refs@.len(),
                match best {
                    Some(b) => b < i && out_of_set(self.decls.oneof@, rv[b as int].2) && forall|j: int|
                        0 <= j < i && out_of_set(self.decls.oneof@, (#[trigger] rv[j]).2) ==> !offender_lt(rv[j], rv[b as int]),
                    None => forall|j: int| 0 <= j < i ==> !out_of_set(self.decls.oneof@, (#[trigger] rv[j]).2),
                },
            decreases refs@.len() - i,
        {
            proof {
                assert(rv[i as int] == (refs@[i as int].0@, refs@[i as int].1, refs@[i as int].2@));
            }
            if self.is_out_of_set(&refs[i].2) {
                match best {
                    None => {
                        proof {
                            lemma_offender_lt(rv[i as int], rv[i as int], rv[i as int]);
                        }
                        best = Some(i);
                    },
                    Some(b) => {
                        proof {
                            assert(rv[b as int] == (refs@[b as int].0@, refs@[b as int].1, refs@[b as int].2@));
                        }
                        if offender_before(&refs[i], &refs[b]) {
                            proof {
                                assert forall|j: int| 0 <= j < i + 1 && out_of_set(self.decls.oneof@, (#[trigger] rv[j]).2) implies !offender_lt(rv[j], rv[i as int]) by {
                                    lemma_offender_lt(rv[j], rv[i as int], rv[b as int]);
                                }
                            }
                            best = Some(i);
                        } else {
                            proof {
                                assert forall|j: int| 0 <= j < i + 1 && out_of_set(self.decls.oneof@, (#[trigger] rv[j]).2) implies !offender_lt(rv[j], rv[b as int]) by {
                                }
                            }
                        }
                    },
                }
            }
            i = i + 1;
        }
        match best {
            None => {
                proof {
                    assert forall|x: RefV| !#[trigger] offends(*self, x) by {
                        if offends(*self, x) {
                            let j = choose|j: int| 0 <= j < rv.len() && rv[j] == x;
                            assert(!out_of_set(self.decls.oneof@, rv[j].2));
                        }
                    }
                }
                Ok(())
            },
            Some(b) => {
                let key = &refs[b].2;
                let file = refs[b].0.clone();
                let line = refs[b].1;
                let pred = match &key.predicate {
                    Some(p) => p.clone(),
                    None => String::new(),
                };
                let value = match &key.object {
                    Some(o) => o.clone(),
                    None => String::new(),
                };
                let (vals, declared) = self.declared_values(&key.domain, &key.subject, &pred);
                let mut names: Vec<&str> = Vec::new();
                let mut n: usize = 0;
                while n < vals.len()
                    invariant
                        n <= vals@.len(),
                        crate::error::cand_views(names@) == crate::table::string_views(vals@.subrange(0, n as int)),
                    decreases vals@.len() - n,
                {
                    let ghost n0 = names@;
                    names.push(vals[n].as_str());
                    proof {
                        assert(crate::error::cand_views(names@) =~= crate::error::cand_views(n0).push(vals@[n as int]@));
                        assert(crate::table::string_views(vals@.subrange(0, n + 1)) =~= crate::table::string_views(
                            vals@.subrange(0, n as int),
                        ).push(vals@[n as int]@));
                    }
                    n = n + 1;
                }
                proof {
                    assert(vals@.subrange(0, vals@.len() as int) =~= vals@);
                }
                let suggestion = crate::error::did_you_mean(value.as_str(), names.as_slice());
                let ghost bv = rv[b as int];
                proof {
                    assert(bv == (file@, line, key@));
                    assert(rv.contains(bv));
                    assert(offends(*self, bv));
                    assert forall|x: RefV| #[trigger] offends(*self, x) implies !offender_lt(x, bv) by {
                        let j = choose|j: int| 0 <= j < rv.len() && rv[j] == x;
                    }
                    assert(key@.object == Some(value@));
                }
                let uv = crate::error::UnknownValue {
                    file,
                    line,
                    subject: key.subject.clone(),
                    predicate: pred,
                    value,
                    declared,
                    suggestion,
                };
                proof {
                    assert(offends(*self, (uv.file@, uv.line, key@)));
                    assert(key@.subject == uv.subject@);
                    assert(key@.object == Some(uv.value@));
                    assert(key@.predicate == Some(uv.predicate@));
                    assert(crate::table::strings_sorted(crate::table::string_views(vals@)));
                    assert(value_report(self.decls.oneof@, key@, uv));
                }
                let r = Err(CompileError::UnknownValue(Box::new(uv)));
                proof {
                    assert(r matches Err(CompileError::UnknownValue(u)) && offends(*self, (u.file@, u.line, key@)) && key@.object == Some(u.value@) && key@.subject == u.subject@);
                }
                r
            },
        }
    }
}

/// The reporting order is transitive and asymmetric.
proof fn lemma_offender_lt(a: RefV, b: RefV, c: RefV)
    ensures
        offender_lt(a, b) && offender_lt(b, c) ==> offender_lt(a, c),
        !(offender_lt(a, b) && offender_lt(b, a)),
        !offender_lt(a, a),
{
    crate::text::lemma_seq_lt_total(a.0, b.0);
    crate::text::lemma_seq_lt_total(a.2.subject, b.2.subject);
    crate::text::lemma_seq_lt_irrefl(a.0);
    crate::text::lemma_seq_lt_irrefl(a.2.subject);
    if crate::text::seq_lt(a.0, b.0) && crate::text::seq_lt(b.0, c.0) {
        crate::text::lemma_seq_lt_trans(a.0, b.0, c.0);
    }
    if crate::text::seq_lt(a.2.subject, b.2.subject) && crate::text::seq_lt(b.2.subject, c.2.subject) {
        crate::text::lemma_seq_lt_trans(a.2.subject, b.2.subject, c.2.subject);
    }
    crate::ir::lemma_key_lt(
        KeyV { domain: Seq::empty(), subject: Seq::empty(), predicate: None, object: a.2.object },
        KeyV { domain: Seq::empty(), subject: Seq::empty(), predicate: None, object: b.2.object },
        KeyV { domain: Seq::empty(), subject: Seq::empty(), predicate: None, object: c.2.object },
    );
}


// --- ports ---------------------------------------------------------------------

/// A `VAR` port is declared for `(domain, name)`.
pub(crate) open spec fn port_declared(ports: Seq<PortDecl>, d: Seq<char>, n: Seq<char>) -> bool {
    exists|i: int| 0 <= i < ports.len() && (#[trigger] ports[i]).domain@ == d && ports[i].name@ == n
}

/// A bare proposition used without a `VAR` declaring it.
pub(crate) open spec fn undeclared(c: Compiler, r: RefV) -> bool {
    &&& r.2.predicate is None
    &&& !port_declared(c.decls.ports@, r.2.domain, r.2.subject)
    &&& all_refs(c).contains(r)
}

/// The order undeclared uses are reported in: by source, then line, then name.
pub open spec fn use_lt(a: RefV, b: RefV) -> bool {
    ||| crate::text::seq_lt(a.0, b.0)
    ||| a.0 == b.0 && a.1 < b.1
    ||| a.0 == b.0 && a.1 == b.1 && crate::text::seq_lt(a.2.subject, b.2.subject)
}

proof fn lemma_use_lt(a: RefV, b: RefV, c: RefV)
    ensures
        use_lt(a, b) && use_lt(b, c) ==> use_lt(a, c),
        !use_lt(a, a),
{
    crate::text::lemma_seq_lt_irrefl(a.0);
    crate::text::lemma_seq_lt_irrefl(a.2.subject);
    if crate::text::seq_lt(a.0, b.0) && crate::text::seq_lt(b.0, c.0) {
        crate::text::lemma_seq_lt_trans(a.0, b.0, c.0);
    }
    if crate::text::seq_lt(a.2.subject, b.2.subject) && crate::text::seq_lt(b.2.subject, c.2.subject) {
        crate::text::lemma_seq_lt_trans(a.2.subject, b.2.subject, c.2.subject);
    }
}

fn use_before(a: &(String, u32, AtomKey), b: &(String, u32, AtomKey)) -> (r: bool)
    ensures
        r == use_lt((a.0@, a.1, a.2@), (b.0@, b.1, b.2@)),
{
    proof {
        crate::text::lemma_seq_lt_irrefl(a.0@);
        crate::text::lemma_seq_lt_irrefl(a.2.subject@);
        crate::text::lemma_seq_lt_total(a.0@, b.0@);
        crate::text::lemma_seq_lt_total(a.2.subject@, b.2.subject@);
    }
    match crate::ir::compare_strings(&a.0, &b.0) {
        Order::Less => true,
        Order::Greater => false,
        Order::Equal => {
            if a.1 != b.1 {
                a.1 < b.1
            } else {
                crate::ir::compare_strings(&a.2.subject, &b.2.subject) == Order::Less
            }
        },
    }
}

/// An optional part after a space.
pub open spec fn spaced(o: Option<Seq<char>>) -> Seq<char> {
    match o {
        Some(x) => seq![' '] + x,
        None => Seq::empty(),
    }
}

/// `domain.subject[ predicate[ object]]`, the label of an atom.
pub open spec fn key_label(k: KeyV) -> Seq<char> {
    k.domain + seq!['.'] + k.subject + spaced(k.predicate) + spaced(k.object)
}

/// `[domain.]subject[ predicate[ object]]`, a reference as written.
pub open spec fn ref_label(r: PortRefV) -> Seq<char> {
    (match r.domain {
        Some(d) => d + seq!['.'],
        None => Seq::empty(),
    }) + r.subject + spaced(r.predicate) + spaced(r.object)
}

/// `domain.subject predicate object`, the label of a resolved atom.
pub(crate) fn atomkey_label(k: &AtomKey) -> (r: String)
    ensures
        r@ == key_label(k@),
{
    let mut s = String::new();
    crate::text::push_string(&mut s, &k.domain);
    crate::text::push_char(&mut s, '.');
    crate::text::push_string(&mut s, &k.subject);
    match &k.predicate {
        Some(p) => {
            crate::text::push_char(&mut s, ' ');
            crate::text::push_string(&mut s, p);
        },
        None => {},
    }
    match &k.object {
        Some(o) => {
            crate::text::push_char(&mut s, ' ');
            crate::text::push_string(&mut s, o);
        },
        None => {},
    }
    proof {
        assert(s@ =~= key_label(k@));
    }
    s
}

impl PortRef {
    /// The key the way it was written (`engine has_fuel`, `self.has_vision`).
    pub(crate) fn label(&self) -> (r: String)
        ensures
            r@ == ref_label(ref_view(*self)),
    {
        let mut s = String::new();
        match &self.domain {
            Some(d) => {
                crate::text::push_string(&mut s, d);
                crate::text::push_char(&mut s, '.');
            },
            None => {},
        }
        crate::text::push_string(&mut s, &self.subject);
        match &self.predicate {
            Some(p) => {
                crate::text::push_char(&mut s, ' ');
                crate::text::push_string(&mut s, p);
            },
            None => {},
        }
        match &self.object {
            Some(o) => {
                crate::text::push_char(&mut s, ' ');
                crate::text::push_string(&mut s, o);
            },
            None => {},
        }
        proof {
            assert(s@ =~= ref_label(ref_view(*self)));
        }
        s
    }
}

/// The whitespace-separated words of `s`, in order.
pub open spec fn words(s: Seq<char>) -> Seq<Seq<char>>
    decreases s.len(),
{
    if s.len() == 0 {
        Seq::empty()
    } else if crate::text::char_whitespace(s[0]) {
        words(s.drop_first())
    } else {
        let n = word_len(s);
        proof {
            lemma_word_len(s);
        }
        seq![s.subrange(0, n)] + words(s.subrange(n, s.len() as int))
    }
}

/// The length of the leading run of non-whitespace characters.
pub open spec fn word_len(s: Seq<char>) -> int
    decreases s.len(),
{
    if s.len() == 0 || crate::text::char_whitespace(s[0]) {
        0
    } else {
        1 + word_len(s.drop_first())
    }
}

/// A word is never longer than what remains, and non-empty at a
/// non-whitespace character.
pub proof fn lemma_word_len(s: Seq<char>)
    ensures
        0 <= word_len(s) <= s.len(),
        s.len() > 0 && !crate::text::char_whitespace(s[0]) ==> word_len(s) > 0,
    decreases s.len(),
{
    if s.len() > 0 && !crate::text::char_whitespace(s[0]) {
        lemma_word_len(s.drop_first());
    }
}

/// The characters of each word.
pub(crate) open spec fn word_views(v: Seq<Vec<char>>) -> Seq<Seq<char>> {
    v.map_values(|w: Vec<char>| w@)
}

/// The whitespace-separated words of a key.
pub(crate) fn split_words(key: &str) -> (r: Vec<Vec<char>>)
    ensures
        word_views(r@) == words(key@),
{
    let cs = crate::text::chars_of(key);
    let n = cs.len();
    let mut out: Vec<Vec<char>> = Vec::new();
    let mut i: usize = 0;
    proof {
        assert(cs@.subrange(0, n as int) =~= cs@);
        assert(word_views(out@) =~= Seq::<Seq<char>>::empty());
    }
    while i < n
        invariant
            n == cs@.len(),
            cs@ == key@,
            i <= n,
            word_views(out@) + words(cs@.subrange(i as int, n as int)) == words(key@),
        decreases n - i,
    {
        let ghost rest = cs@.subrange(i as int, n as int);
        if crate::text::is_whitespace(cs[i]) {
            proof {
                assert(rest[0] == cs@[i as int]);
                assert(rest.drop_first() =~= cs@.subrange(i + 1, n as int));
            }
            i = i + 1;
        } else {
            let start = i;
            let mut w: Vec<char> = Vec::new();
            while i < n && !crate::text::is_whitespace(cs[i])
                invariant
                    n == cs@.len(),
                    start <= i <= n,
                    w@ == cs@.subrange(start as int, i as int),
                    word_len(cs@.subrange(start as int, n as int)) == (i - start) + word_len(cs@.subrange(i as int, n as int)),
                decreases n - i,
            {
                proof {
                    let t = cs@.subrange(i as int, n as int);
                    assert(t[0] == cs@[i as int]);
                    assert(t.drop_first() =~= cs@.subrange(i + 1, n as int));
                }
                w.push(cs[i]);
                proof {
                    assert(w@ =~= cs@.subrange(start as int, i + 1));
                }
                i = i + 1;
            }
            proof {
                let t = cs@.subrange(i as int, n as int);
                if i < n {
                    assert(t[0] == cs@[i as int]);
                }
                assert(word_len(t) == 0);
                lemma_word_len(rest);
                assert(rest[0] == cs@[start as int]);
                let k = word_len(rest);
                assert(k == i - start);
                assert(rest.subrange(0, k) =~= w@);
                assert(rest.subrange(k, rest.len() as int) =~= t);
            }
            let ghost o0 = out@;
            let ghost wv = w@;
            out.push(w);
            proof {
                assert(word_views(out@) =~= word_views(o0).push(wv));
            }
        }
    }
    proof {
        assert(words(cs@.subrange(n as int, n as int)) =~= Seq::<Seq<char>>::empty());
        assert(word_views(out@) =~= word_views(out@) + words(cs@.subrange(n as int, n as int)));
    }
    out
}

/// Where the first `.` of `w` is.
pub open spec fn first_dot(w: Seq<char>, d: int) -> bool {
    &&& 0 <= d < w.len()
    &&& w[d] == '.'
    &&& forall|j: int| 0 <= j < d ==> w[j] != '.'
}

/// The first word of a key (empty when it has none).
pub open spec fn first_word(ws: Seq<Seq<char>>) -> Seq<char> {
    if ws.len() > 0 {
        ws[0]
    } else {
        Seq::empty()
    }
}

/// The `i`-th word, if the key has one.
pub open spec fn word_at(ws: Seq<Seq<char>>, i: int) -> Option<Seq<char>> {
    if ws.len() > i {
        Some(ws[i])
    } else {
        None
    }
}

/// Parse a CLI/API key (`db_ready`, `self.has_vision`, `engine has_fuel`): a
/// `domain.` prefix in the first word names the domain; the words are then
/// subject, predicate and object.
pub(crate) fn parse_port_ref(key: &str) -> (r: PortRef)
    ensures
        ({
            let w = first_word(words(key@));
            match r.domain {
                Some(d) => exists|k: int| #[trigger] first_dot(w, k) && d@ == w.subrange(0, k) && r.subject@ == w.subrange(k + 1, w.len() as int),
                None => (forall|j: int| 0 <= j < w.len() ==> w[j] != '.') && r.subject@ == w,
            }
        }),
        opt_view(r.predicate) == word_at(words(key@), 1),
        opt_view(r.object) == word_at(words(key@), 2),
        ref_view(r) == key_ref(key@),
{
    let ws = split_words(key);
    let empty: Vec<char> = Vec::new();
    let first: &Vec<char> = if ws.len() > 0 {
        &ws[0]
    } else {
        &empty
    };
    proof {
        assert(first@ == first_word(words(key@)));
    }
    let mut dot: Option<usize> = None;
    let mut i: usize = 0;
    while i < first.len()
        invariant_except_break
            dot is None,
        invariant
            i <= first@.len(),
            forall|j: int| 0 <= j < i ==> first@[j] != '.',
        ensures
            (dot is None && i == first@.len()) || (dot == Some(i) && i < first@.len() && first@[i as int] == '.'),
        decreases first@.len() - i,
    {
        if first[i] == '.' {
            dot = Some(i);
            break;
        }
        i = i + 1;
    }
    let (domain, subject) = match dot {
        Some(d) => {
            let mut a = String::new();
            let mut b = String::new();
            let mut j: usize = 0;
            while j < first.len()
                invariant
                    d < first@.len(),
                    j <= first@.len(),
                    a@ == first@.subrange(0, if j < d { j as int } else { d as int }),
                    b@ == first@.subrange(d + 1, if j > d + 1 { j as int } else { d + 1 }),
                decreases first@.len() - j,
            {
                if j < d {
                    crate::text::push_char(&mut a, first[j]);
                    proof {
                        assert(a@ =~= first@.subrange(0, j + 1));
                    }
                } else if j > d {
                    crate::text::push_char(&mut b, first[j]);
                    proof {
                        assert(b@ =~= first@.subrange(d + 1, j + 1));
                    }
                }
                j = j + 1;
            }
            proof {
                assert(first_dot(first@, d as int));
            }
            (Some(a), b)
        },
        None => (None, crate::text::string_from_chars(first.as_slice())),
    };
    let predicate = if ws.len() > 1 {
        Some(crate::text::string_from_chars(ws[1].as_slice()))
    } else {
        None
    };
    let object = if ws.len() > 2 {
        Some(crate::text::string_from_chars(ws[2].as_slice()))
    } else {
        None
    };
    let r = PortRef { domain, subject, predicate, object };
    proof {
        let w = first_word(words(key@));
        w.index_of_first_ensures('.');
        match opt_view(r.domain) {
            Some(d) => {
                let k = choose|k: int| #[trigger] first_dot(w, k) && d == w.subrange(0, k) && r.subject@ == w.subrange(k + 1, w.len() as int);
                assert(w.contains('.')) by {
                    assert(w[k] == '.');
                }
                let f = w.index_of_first('.')->0;
                assert(f == k) by {
                    if f < k {
                        assert(w[f] == '.');
                    } else if k < f {
                        assert(w[k] == '.');
                    }
                }
            },
            None => {
                if w.contains('.') {
                    let f = w.index_of_first('.')->0;
                    assert(w[f] == '.');
                }
            },
        }
        assert(ref_view(r) == key_ref(key@));
    }
    r
}

/// A port reference as character sequences.
pub struct PortRefV {
    /// The `domain.` prefix, if written.
    pub domain: Option<Seq<char>>,
    /// The subject.
    pub subject: Seq<char>,
    /// The predicate, if any.
    pub predicate: Option<Seq<char>>,
    /// The object, if any.
    pub object: Option<Seq<char>>,
}

/// The abstract value of a [`PortRef`].
pub(crate) open spec fn ref_view(r: PortRef) -> PortRefV {
    PortRefV { domain: opt_view(r.domain), subject: r.subject@, predicate: opt_view(r.predicate), object: opt_view(r.object) }
}

/// The reference a CLI/API key names: its first word split at its first `.`
/// into domain and subject, then predicate and object.
pub open spec fn key_ref(key: Seq<char>) -> PortRefV {
    let ws = words(key);
    let w = first_word(ws);
    match w.index_of_first('.') {
        Some(d) => PortRefV {
            domain: Some(w.subrange(0, d)),
            subject: w.subrange(d + 1, w.len() as int),
            predicate: word_at(ws, 1),
            object: word_at(ws, 2),
        },
        None => PortRefV { domain: None, subject: w, predicate: word_at(ws, 1), object: word_at(ws, 2) },
    }
}

/// Whether a reference's domain (when it names one) is `d`.
pub open spec fn domain_fits(rf: PortRefV, d: Seq<char>) -> bool {
    match rf.domain {
        Some(x) => x == d,
        None => true,
    }
}

/// The declared ports a one-word reference can mean, as atoms, in order.
pub(crate) open spec fn port_hits(ports: Seq<PortDecl>, rf: PortRefV) -> Seq<KeyV>
    decreases ports.len(),
{
    if ports.len() == 0 {
        Seq::empty()
    } else {
        let p = ports.last();
        port_hits(ports.drop_last(), rf) + if p.name@ == rf.subject && domain_fits(rf, p.domain@) {
            seq![KeyV { domain: p.domain@, subject: rf.subject, predicate: None, object: None }]
        } else {
            Seq::empty()
        }
    }
}

/// The interned atoms a longer reference can mean, in order.
pub open spec fn atom_hits(keys: Seq<KeyV>, rf: PortRefV) -> Seq<KeyV>
    decreases keys.len(),
{
    if keys.len() == 0 {
        Seq::empty()
    } else {
        let k = keys.last();
        atom_hits(keys.drop_last(), rf) + if k.subject == rf.subject && k.predicate == rf.predicate && k.object
            == rf.object && domain_fits(rf, k.domain) {
            seq![k]
        } else {
            Seq::empty()
        }
    }
}

/// What a reference can mean in `c`: a one-word reference a declared port,
/// a longer one an interned atom.
pub closed spec fn ref_hits(c: Compiler, rf: PortRefV) -> Seq<KeyV> {
    if rf.predicate is None {
        port_hits(c.decls.ports@, rf)
    } else {
        atom_hits(key_views(c.keys@), rf)
    }
}

/// The atoms a binding pool holds, in order.
pub(crate) open spec fn pool_keys(m: Seq<(AtomKey, crate::ir::PortBinding)>) -> Seq<KeyV> {
    m.map_values(|e: (AtomKey, crate::ir::PortBinding)| e.0@)
}

/// Where a pool holds atom `k` (meaningful when it holds it).
pub(crate) open spec fn pool_index(m: Seq<(AtomKey, crate::ir::PortBinding)>, k: KeyV) -> int {
    choose|j: int| 0 <= j < m.len() && m[j].0@ == k
}

/// A binding pool as a map from atom to value and origin.
pub(crate) open spec fn pool(m: Seq<(AtomKey, crate::ir::PortBinding)>) -> Map<KeyV, (bool, Seq<char>)> {
    Map::new(
        |k: KeyV| exists|j: int| 0 <= j < m.len() && m[j].0@ == k,
        |k: KeyV| (m[pool_index(m, k)].1.value, m[pool_index(m, k)].1.origin@),
    )
}

/// In an ordered pool, the entry at `j` is the pool's binding of its atom.
proof fn lemma_pool_at(m: Seq<(AtomKey, crate::ir::PortBinding)>, j: int)
    requires
        crate::ir::keys_sorted(pool_keys(m)),
        0 <= j < m.len(),
    ensures
        pool(m).contains_key(m[j].0@),
        pool(m)[m[j].0@] == (m[j].1.value, m[j].1.origin@),
{
    let k = m[j].0@;
    assert(0 <= j < m.len() && m[j].0@ == k);
    let c = pool_index(m, k);
    assert(0 <= c < m.len() && m[c].0@ == k);
    assert(pool_keys(m)[c] == m[c].0@ && pool_keys(m)[j] == m[j].0@);
    crate::ir::lemma_key_lt(k, k, k);
    if c < j {
        assert(crate::ir::key_lt(pool_keys(m)[c], pool_keys(m)[j]));
    } else if j < c {
        assert(crate::ir::key_lt(pool_keys(m)[j], pool_keys(m)[c]));
    }
    assert(c == j);
}

/// One binding to merge: the reference, its value and its origin.
pub type BindV = (PortRefV, bool, Seq<char>);

/// The in-file `PROVIDE` bindings.
pub(crate) open spec fn provide_binds(ps: Seq<(PortRef, crate::ir::PortBinding)>) -> Seq<BindV> {
    ps.map_values(|p: (PortRef, crate::ir::PortBinding)| (ref_view(p.0), p.1.value, p.1.origin@))
}

/// The external bindings, each key read as a reference.
pub open spec fn input_binds(inputs: Seq<(String, crate::ir::PortBinding)>) -> Seq<BindV> {
    inputs.map_values(|x: (String, crate::ir::PortBinding)| (key_ref(x.0@), x.1.value, x.1.origin@))
}

/// Merge bindings in order into one pool by the atom each reference means:
/// `None` when a reference means no atom or more than one, or two values for
/// one atom disagree (the first value and origin stay).
pub(crate) open spec fn merged_spec(c: Compiler, bs: Seq<BindV>) -> Option<Map<KeyV, (bool, Seq<char>)>>
    decreases bs.len(),
{
    if bs.len() == 0 {
        Some(Map::empty())
    } else {
        match merged_spec(c, bs.drop_last()) {
            None => None,
            Some(m) => {
                let h = ref_hits(c, bs.last().0);
                if h.len() != 1 {
                    None
                } else if m.contains_key(h[0]) {
                    if m[h[0]].0 != bs.last().1 {
                        None
                    } else {
                        Some(m)
                    }
                } else {
                    Some(m.insert(h[0], (bs.last().1, bs.last().2)))
                }
            }
        }
    }
}

/// A failed merge stays failed whatever follows.
/// Binding `j` of `bs` is the first that cannot merge because it gives its
/// atom a value other than the one an earlier binding gave: `a` is the kept
/// (first) binding's value and origin, `b` the conflicting one's, and `name`
/// is the atom's label.
pub(crate) open spec fn conflict_at(
    c: Compiler,
    bs: Seq<BindV>,
    j: int,
    name: Seq<char>,
    a: (bool, Seq<char>),
    b: (bool, Seq<char>),
) -> bool {
    &&& 0 <= j < bs.len()
    &&& merged_spec(c, bs.subrange(0, j)) is Some
    &&& ref_hits(c, bs[j].0).len() == 1
    &&& ({
        let m = merged_spec(c, bs.subrange(0, j))->Some_0;
        let h = ref_hits(c, bs[j].0)[0];
        &&& m.contains_key(h)
        &&& m[h] == a
        &&& b == (bs[j].1, bs[j].2)
        &&& a.0 != b.0
        &&& name == key_label(h)
    })
}

/// Binding `j` of `bs` is the first whose reference does not mean exactly one
/// atom; `e` is the error that reports it: an unknown port (a bare name no
/// `VAR` declares), an unknown atom (a multi-word name no statement uses), or
/// an ambiguous one, with the domains that declare it.
pub(crate) open spec fn unresolved_at(c: Compiler, bs: Seq<BindV>, j: int, e: CompileError) -> bool {
    &&& 0 <= j < bs.len()
    &&& merged_spec(c, bs.subrange(0, j)) is Some
    &&& ({
        let h = ref_hits(c, bs[j].0);
        &&& h.len() != 1
        &&& h.len() == 0 && bs[j].0.predicate is None ==> (e matches CompileError::UnknownPort { name, .. } && name@ == ref_label(
            bs[j].0,
        ))
        &&& h.len() == 0 && bs[j].0.predicate is Some ==> (e matches CompileError::UnknownExternalAtom { name } && name@
            == ref_label(bs[j].0))
        &&& h.len() > 1 ==> (e matches CompileError::AmbiguousPort { domains, .. } && domains@ == crate::sig::join_spec(
            h.map_values(|k: KeyV| k.domain),
            ", "@,
        ))
    })
}

proof fn lemma_merged_none(c: Compiler, bs: Seq<BindV>, k: int)
    requires
        0 <= k <= bs.len(),
        merged_spec(c, bs.subrange(0, k)) is None,
    ensures
        merged_spec(c, bs) is None,
    decreases bs.len() - k,
{
    if k < bs.len() {
        assert(bs.subrange(0, k + 1).drop_last() =~= bs.subrange(0, k));
        lemma_merged_none(c, bs, k + 1);
    } else {
        assert(bs.subrange(0, k) =~= bs);
    }
}

/// How many declared ports have this name.
pub(crate) open spec fn name_count(ports: Seq<PortDecl>, n: Seq<char>) -> nat
    decreases ports.len(),
{
    if ports.len() == 0 {
        0
    } else {
        name_count(ports.drop_last(), n) + if ports.last().name@ == n {
            1nat
        } else {
            0nat
        }
    }
}

/// The atom a declared port stands for.
pub(crate) open spec fn port_key(d: PortDecl) -> KeyV {
    KeyV { domain: d.domain@, subject: d.name@, predicate: None, object: None }
}

/// A port's value: supplied, else its `DEFAULT`, else none.
pub(crate) open spec fn port_value(d: PortDecl, m: Map<KeyV, (bool, Seq<char>)>) -> Option<bool> {
    if m.contains_key(port_key(d)) {
        Some(m[port_key(d)].0)
    } else {
        d.default
    }
}

/// The truth value a boolean asserts.
pub open spec fn truth(v: bool) -> Value {
    if v {
        Value::True
    } else {
        Value::False
    }
}

/// The hard facts the resolved ports assert, in port order.
pub(crate) open spec fn var_facts(ports: Seq<PortDecl>, m: Map<KeyV, (bool, Seq<char>)>) -> Seq<FactV>
    decreases ports.len(),
{
    if ports.len() == 0 {
        Seq::empty()
    } else {
        var_facts(ports.drop_last(), m) + match port_value(ports.last(), m) {
            Some(v) => seq![(port_key(ports.last()), truth(v), kw::VAR@, false)],
            None => Seq::empty(),
        }
    }
}

/// The facts of `(port index, value)` records.
pub(crate) open spec fn synth_facts(ports: Seq<PortDecl>, sy: Seq<(usize, bool)>) -> Seq<FactV> {
    sy.map_values(|x: (usize, bool)| (port_key(ports[x.0 as int]), truth(x.1), kw::VAR@, false))
}

/// `t` holds one hard `PROVIDE` fact per multi-word atom of the pool `m`,
/// with its value, in canonical atom order.
pub(crate) open spec fn provide_facts_ok(m: Map<KeyV, (bool, Seq<char>)>, t: Seq<FactV>) -> bool {
    &&& forall|a: int|
        0 <= a < t.len() ==> {
            let f = #[trigger] t[a];
            &&& m.contains_key(f.0)
            &&& f.0.predicate is Some
            &&& f.1 == truth(m[f.0].0)
            &&& f.2 == kw::PROVIDE@
            &&& !f.3
        }
    &&& forall|k: KeyV| #[trigger] m.contains_key(k) && k.predicate is Some ==> exists|a: int| 0 <= a < t.len() && #[trigger] t[a].0 == k
    &&& forall|a: int, b: int| 0 <= a < b < t.len() ==> crate::ir::key_lt(#[trigger] t[a].0, #[trigger] t[b].0)
}

/// The report record of port `i` given the merged pool `m`: its name
/// (qualified when the name is declared in more than one domain), then a
/// supplied value, else its `DEFAULT`, else unset.
pub(crate) open spec fn placeholder_ok(
    ports: Seq<PortDecl>,
    i: int,
    m: Map<KeyV, (bool, Seq<char>)>,
    p: crate::ir::PlaceholderInfo,
) -> bool {
    let d = ports[i];
    let key = KeyV { domain: d.domain@, subject: d.name@, predicate: None, object: None };
    &&& p.key@ == if name_count(ports, d.name@) > 1 {
        d.domain@ + seq!['.'] + d.name@
    } else {
        d.name@
    }
    &&& if m.contains_key(key) {
        p.status == crate::ir::PlaceholderStatus::Supplied && p.value == Some(m[key].0) && opt_view(p.origin) == Some(
            m[key].1,
        )
    } else {
        match d.default {
            Some(v) => p.status == crate::ir::PlaceholderStatus::DefaultUsed && p.value == Some(v) && p.origin is None,
            None => p.status == crate::ir::PlaceholderStatus::Unset && p.value is None && p.origin is None,
        }
    }
}

// --- laws of single statements and of references ---------------------------------

/// Some fact in `fs` holds atom `k` with value `v` and keyword `kind`.
pub open spec fn records(fs: Seq<FactV>, k: KeyV, v: Value, kind: Seq<char>) -> bool {
    exists|i: int| 0 <= i < fs.len() && (#[trigger] fs[i]).0 == k && fs[i].1 == v && fs[i].2 == kind
}

/// The plain statement an assumption's literal reads as: `NOT <atom>` when
/// the literal is negated, `FACT <atom>` otherwise.
pub open spec fn plain_of(l: Located<Literal>) -> Statement {
    let a = Located { data: l.data.atom, line: l.line, col: l.col };
    if l.data.negated {
        Statement::Negation(a)
    } else {
        Statement::Fact(a)
    }
}

/// Adding a fact records it.
proof fn lemma_push_fact_records(fs: Seq<FactV>, f: FactV)
    ensures
        records(push_fact(fs, f), f.0, f.1, f.2),
{
    if exists|i: int| 0 <= i < fs.len() && fs[i].0 == f.0 && fs[i].1 == f.1 && fs[i].2 == f.2 {
        let i = choose|i: int| 0 <= i < fs.len() && fs[i].0 == f.0 && fs[i].1 == f.1 && fs[i].2 == f.2;
        assert(push_fact(fs, f)[i] == fs[i]);
    } else {
        let n = push_fact(fs, f);
        assert(n[fs.len() as int] == f);
    }
}

/// An `ASSUME` records its atom with the value its literal is written with:
/// `FALSE` exactly when the literal is negated, the same value the plain `NOT`
/// (or `FACT`) of that atom records; the two succeed together.
pub proof fn law_assume_value(
    o: Compiler,
    n1: Compiler,
    n2: Compiler,
    source: Seq<char>,
    l: Located<Literal>,
    ctx: DomainCtx,
    r1: Result<(), CompileError>,
    r2: Result<(), CompileError>,
)
    requires
        stmt_effect(o, n1, source, Statement::Assume(l), ctx, r1),
        stmt_effect(o, n2, source, plain_of(l), ctx, r2),
    ensures
        r1 is Ok <==> r2 is Ok,
        r1 is Ok ==> exists|k: KeyV, v: Value| {
            &&& #[trigger] records(n1.fact_list(), k, v, kw::ASSUME@)
            &&& records(n2.fact_list(), k, v, if l.data.negated { kw::NOT@ } else { kw::FACT@ })
            &&& (v == Value::False <==> l.data.negated)
        },
{
    match key_spec(ctx, l.data.atom, Seq::empty()) {
        Some(k) => {
            let v = if l.data.negated { Value::False } else { Value::True };
            let kind = if l.data.negated { kw::NOT@ } else { kw::FACT@ };
            lemma_push_fact_records(o.fact_list(), (k, v, kw::ASSUME@, true));
            lemma_push_fact_records(o.fact_list(), (k, v, kind, false));
            assert(records(n1.fact_list(), k, v, kw::ASSUME@));
        },
        None => {},
    }
}

/// A `CHECK` adds exactly one check at the end, for the subject written and
/// with the `BIDIRECTIONAL` flag the statement carries; earlier checks stay.
pub proof fn law_check_recorded(
    o: Compiler,
    n: Compiler,
    source: Seq<char>,
    subject: Option<Located<String>>,
    bidirectional: bool,
    ctx: DomainCtx,
    r: Result<(), CompileError>,
)
    requires
        stmt_effect(o, n, source, Statement::Check { subject, bidirectional }, ctx, r),
    ensures
        r is Ok,
        n.check_list().len() == o.check_list().len() + 1,
        n.check_list().last().bidirectional == bidirectional,
        opt_view(n.check_list().last().subject) == located_view(subject),
        forall|i: int| 0 <= i < o.check_list().len() ==> check_views(n.check_list())[i] == check_views(o.check_list())[i],
{
    let cn = check_views(n.check_list());
    let co = check_views(o.check_list());
    assert(cn == co.push((located_view(subject), bidirectional)));
    assert(cn.len() == n.check_list().len());
    assert(co.len() == o.check_list().len());
    let last = n.check_list().len() - 1;
    assert(cn[last] == (opt_view(n.check_list()[last].subject), n.check_list()[last].bidirectional));
}

/// A reference with a `d.` prefix hits only ports of `d` with its name.
proof fn lemma_port_hits_qualified(ps: Seq<PortDecl>, rf: PortRefV, d: Seq<char>)
    requires
        rf.domain == Some(d),
        ports_sorted(ps),
    ensures
        port_hits(ps, rf) == if port_declared(ps, d, rf.subject) {
            seq![KeyV { domain: d, subject: rf.subject, predicate: None, object: None }]
        } else {
            Seq::<KeyV>::empty()
        },
    decreases ps.len(),
{
    if ps.len() > 0 {
        let q = ps.drop_last();
        assert forall|i: int, j: int| 0 <= i < j < q.len() implies name_lt(port_name_key(#[trigger] q[i]), port_name_key(#[trigger] q[j])) by {
            assert(q[i] == ps[i] && q[j] == ps[j]);
        }
        lemma_port_hits_qualified(q, rf, d);
        let p = ps.last();
        let hit = p.name@ == rf.subject && p.domain@ == d;
        if hit && port_declared(q, d, rf.subject) {
            let i = choose|i: int| 0 <= i < q.len() && (#[trigger] q[i]).domain@ == d && q[i].name@ == rf.subject;
            assert(q[i] == ps[i]);
            assert(name_lt(port_name_key(ps[i]), port_name_key(ps[ps.len() - 1])));
            crate::text::lemma_seq_lt_irrefl(d);
            crate::text::lemma_seq_lt_irrefl(rf.subject);
        }
        if port_declared(ps, d, rf.subject) && !hit {
            let i = choose|i: int| 0 <= i < ps.len() && (#[trigger] ps[i]).domain@ == d && ps[i].name@ == rf.subject;
            assert(i < ps.len() - 1);
            assert(q[i] == ps[i]);
        }
        if port_declared(q, d, rf.subject) {
            let i = choose|i: int| 0 <= i < q.len() && (#[trigger] q[i]).domain@ == d && q[i].name@ == rf.subject;
            assert(ps[i] == q[i]);
        }
        if hit {
            assert(ps[ps.len() - 1] == p);
        }
    }
}

/// A one-word reference written with a `d.` prefix means the port `d`
/// declares under that name, and nothing else: a port of another domain never
/// answers it, and it resolves whenever `d` declares the port.
pub proof fn law_qualified_port_ref(c: Compiler, rf: PortRefV, d: Seq<char>)
    requires
        c.wf(),
        rf.domain == Some(d),
        rf.predicate is None,
    ensures
        ref_hits(c, rf) == if c.declares_port(d, rf.subject) {
            seq![KeyV { domain: d, subject: rf.subject, predicate: None, object: None }]
        } else {
            Seq::<KeyV>::empty()
        },
{
    lemma_port_hits_qualified(c.decls.ports@, rf, d);
}

/// A longer reference written with a `d.` prefix means only atoms of domain
/// `d` with its subject, predicate and object.
pub proof fn law_qualified_atom_ref(keys: Seq<KeyV>, rf: PortRefV, d: Seq<char>)
    requires
        rf.domain == Some(d),
    ensures
        forall|i: int| 0 <= i < atom_hits(keys, rf).len() ==> {
            let k = #[trigger] atom_hits(keys, rf)[i];
            &&& k.domain == d
            &&& k.subject == rf.subject
            &&& k.predicate == rf.predicate
            &&& k.object == rf.object
            &&& keys.contains(k)
        },
    decreases keys.len(),
{
    if keys.len() > 0 {
        let q = keys.drop_last();
        law_qualified_atom_ref(q, rf, d);
        let h0 = atom_hits(q, rf);
        assert forall|i: int| 0 <= i < atom_hits(keys, rf).len() implies {
            let k = #[trigger] atom_hits(keys, rf)[i];
            &&& k.domain == d
            &&& k.subject == rf.subject
            &&& k.predicate == rf.predicate
            &&& k.object == rf.object
            &&& keys.contains(k)
        } by {
            if i < h0.len() {
                assert(atom_hits(keys, rf)[i] == h0[i]);
                let k = h0[i];
                let j = choose|j: int| 0 <= j < q.len() && q[j] == k;
                assert(keys[j] == q[j]);
            } else {
                assert(keys[keys.len() - 1] == keys.last());
            }
        }
    }
}

impl Compiler {
    /// Resolve one external reference to the atom it binds: a one-word
    /// reference must name a declared `VAR` port, a longer one an atom the
    /// program already uses. Without a `domain.` prefix, a name found in more
    /// than one domain is ambiguous.
    #[verifier::rlimit(40)]
    fn resolve_port_ref(&self, rf: &PortRef) -> (r: Result<AtomKey, CompileError>)
        requires
            self.wf(),
        ensures
            r matches Ok(k) ==> self.atoms().contains(k@) || (k@.predicate is None && port_declared(self.decls.ports@, k@.domain, k@.subject)
                && k@.object is None),
            r is Err ==> (r matches Err(CompileError::UnknownPort { .. }) || r matches Err(CompileError::AmbiguousPort { .. })
                || r matches Err(CompileError::UnknownExternalAtom { .. })),
            ({
                let h = ref_hits(*self, ref_view(*rf));
                &&& (r is Ok <==> h.len() == 1)
                &&& (r matches Ok(k) ==> k@ == h[0])
                &&& (h.len() == 0 ==> if rf.predicate is None {
                    r matches Err(CompileError::UnknownPort { .. })
                } else {
                    r matches Err(CompileError::UnknownExternalAtom { .. })
                })
                &&& (h.len() > 1 ==> r matches Err(CompileError::AmbiguousPort { .. }))
                &&& (h.len() > 1 ==> (r matches Err(CompileError::AmbiguousPort { domains, .. }) && domains@ == crate::sig::join_spec(
                    h.map_values(|k: KeyV| k.domain),
                    ", "@,
                )))
            }),
            r matches Err(CompileError::UnknownExternalAtom { name }) ==> name@ == ref_label(ref_view(*rf)),
            r matches Err(CompileError::AmbiguousPort { name, .. }) ==> name@ == if rf.predicate is None {
                rf.subject@
            } else {
                ref_label(ref_view(*rf))
            },
            r matches Err(CompileError::UnknownPort { name, suggestion }) ==> ({
                let ns = port_names(self.decls.ports@);
                &&& name@ == ref_label(ref_view(*rf))
                &&& (exists|i: int| crate::error::nearest_at(rf.subject@, ns, i) && suggestion@ == crate::error::suggestion_spec(rf.subject@, ns, Some(i)))
                    || (crate::error::nothing_near(rf.subject@, ns) && suggestion@.len() == 0)
            }),
    {
        let ghost rv = ref_view(*rf);
        if rf.predicate.is_none() {
            let mut domains: Vec<&String> = Vec::new();
            let mut names: Vec<&str> = Vec::new();
            let mut i: usize = 0;
            while i < self.decls.ports.len()
                invariant
                    i <= self.decls.ports@.len(),
                    rv == ref_view(*rf),
                    forall|j: int| 0 <= j < domains@.len() ==> port_declared(self.decls.ports@, (#[trigger] domains@[j])@, rf.subject@),
                    domains@.len() == port_hits(self.decls.ports@.subrange(0, i as int), rv).len(),
                    forall|j: int| 0 <= j < domains@.len() ==> (#[trigger] domains@[j])@ == port_hits(self.decls.ports@.subrange(0, i as int), rv)[j].domain,
                    forall|j: int| 0 <= j < domains@.len() ==> port_hits(self.decls.ports@.subrange(0, i as int), rv)[j] == (KeyV { domain: domains@[j]@, subject: rv.subject, predicate: None, object: None }),
                    crate::error::cand_views(names@) == port_names(self.decls.ports@.subrange(0, i as int)),
                decreases self.decls.ports@.len() - i,
            {
                let ghost n0 = names@;
                proof {
                    assert(self.decls.ports@.subrange(0, i + 1).drop_last() =~= self.decls.ports@.subrange(0, i as int));
                    assert(self.decls.ports@.subrange(0, i + 1).last() == self.decls.ports@[i as int]);
                }
                let p = &self.decls.ports[i];
                names.push(p.name.as_str());
                proof {
                    assert(crate::error::cand_views(names@) =~= crate::error::cand_views(n0).push(self.decls.ports@[i as int].name@));
                    assert(port_names(self.decls.ports@.subrange(0, i + 1)) =~= port_names(self.decls.ports@.subrange(0, i as int)).push(
                        self.decls.ports@[i as int].name@,
                    ));
                }
                if crate::ir::compare_strings(&p.name, &rf.subject) == Order::Equal {
                    let matches_domain = match &rf.domain {
                        None => true,
                        Some(d) => crate::ir::compare_strings(&p.domain, d) == Order::Equal,
                    };
                    if matches_domain {
                        proof {
                            assert(self.decls.ports@[i as int].domain@ == p.domain@);
                        }
                        domains.push(&p.domain);
                    }
                }
                i = i + 1;
            }
            proof {
                assert(self.decls.ports@.subrange(0, self.decls.ports@.len() as int) =~= self.decls.ports@);
                assert(crate::error::cand_views(names@) == port_names(self.decls.ports@));
            }
            if domains.len() == 0 {
                Err(
                    CompileError::UnknownPort {
                        name: rf.label(),
                        suggestion: crate::error::did_you_mean(rf.subject.as_str(), names.as_slice()),
                    },
                )
            } else if domains.len() == 1 {
                Ok(AtomKey { domain: domains[0].clone(), subject: rf.subject.clone(), predicate: None, object: None })
            } else {
                let ghost dv = domains@.map_values(|d: &String| d@);
                proof {
                    let h = port_hits(self.decls.ports@, rv);
                    assert(dv =~= h.map_values(|k: KeyV| k.domain));
                }
                let mut joined = String::new();
                let mut j: usize = 0;
                while j < domains.len()
                    invariant
                        j <= domains@.len(),
                        dv == domains@.map_values(|d: &String| d@),
                        joined@ == crate::sig::join_spec(dv.subrange(0, j as int), ", "@),
                    decreases domains@.len() - j,
                {
                    let ghost j0 = joined@;
                    if j > 0 {
                        crate::text::push_str(&mut joined, ", ");
                    }
                    crate::text::push_string(&mut joined, domains[j]);
                    proof {
                        let sub = dv.subrange(0, j + 1);
                        assert(sub.drop_last() =~= dv.subrange(0, j as int));
                        assert(sub.last() == domains@[j as int]@);
                        if j == 0 {
                            assert(j0 =~= Seq::<char>::empty());
                            assert(joined@ =~= sub[0]);
                        } else {
                            assert(joined@ =~= j0 + ", "@ + domains@[j as int]@);
                        }
                    }
                    j = j + 1;
                }
                proof {
                    assert(dv.subrange(0, dv.len() as int) =~= dv);
                }
                Err(CompileError::AmbiguousPort { name: rf.subject.clone(), domains: joined })
            }
        } else {
            let mut cands: Vec<usize> = Vec::new();
            let mut i: usize = 0;
            while i < self.keys.len()
                invariant
                    i <= self.keys@.len(),
                    rv == ref_view(*rf),
                    forall|j: int| 0 <= j < cands@.len() ==> (#[trigger] cands@[j]) < self.keys@.len(),
                    cands@.len() == atom_hits(key_views(self.keys@).subrange(0, i as int), rv).len(),
                    forall|j: int| 0 <= j < cands@.len() ==> key_views(self.keys@)[#[trigger] cands@[j] as int] == atom_hits(key_views(self.keys@).subrange(0, i as int), rv)[j],
                decreases self.keys@.len() - i,
            {
                proof {
                    assert(key_views(self.keys@).subrange(0, i + 1).drop_last() =~= key_views(self.keys@).subrange(0, i as int));
                    assert(key_views(self.keys@).subrange(0, i + 1).last() == key_views(self.keys@)[i as int]);
                    assert(key_views(self.keys@)[i as int] == self.keys@[i as int]@);
                }
                let k = &self.keys[i];
                let same = crate::ir::compare_strings(&k.subject, &rf.subject) == Order::Equal
                    && opt_eq(&k.predicate, &rf.predicate) && opt_eq(&k.object, &rf.object)
                    && match &rf.domain {
                        None => true,
                        Some(d) => crate::ir::compare_strings(&k.domain, d) == Order::Equal,
                    };
                if same {
                    cands.push(i);
                }
                i = i + 1;
            }
            proof {
                assert(key_views(self.keys@).subrange(0, self.keys@.len() as int) =~= key_views(self.keys@));
            }
            if cands.len() == 0 {
                Err(CompileError::UnknownExternalAtom { name: rf.label() })
            } else if cands.len() == 1 {
                let k = copy_key(&self.keys[cands[0]]);
                proof {
                    assert(key_views(self.keys@)[cands@[0] as int] == k@);
                    assert(key_views(self.keys@).contains(k@));
                }
                Ok(k)
            } else {
                let ghost h = atom_hits(key_views(self.keys@), rv);
                let ghost dv = h.map_values(|k: KeyV| k.domain);
                let mut joined = String::new();
                let mut j: usize = 0;
                while j < cands.len()
                    invariant
                        forall|j: int| 0 <= j < cands@.len() ==> (#[trigger] cands@[j]) < self.keys@.len(),
                        cands@.len() == h.len(),
                        forall|q: int| 0 <= q < cands@.len() ==> key_views(self.keys@)[#[trigger] cands@[q] as int] == h[q],
                        dv == h.map_values(|k: KeyV| k.domain),
                        j <= cands@.len(),
                        joined@ == crate::sig::join_spec(dv.subrange(0, j as int), ", "@),
                    decreases cands@.len() - j,
                {
                    let ghost j0 = joined@;
                    if j > 0 {
                        crate::text::push_str(&mut joined, ", ");
                    }
                    crate::text::push_string(&mut joined, &self.keys[cands[j]].domain);
                    proof {
                        let sub = dv.subrange(0, j + 1);
                        assert(sub.drop_last() =~= dv.subrange(0, j as int));
                        assert(key_views(self.keys@)[cands@[j as int] as int] == h[j as int]);
                        assert(key_views(self.keys@)[cands@[j as int] as int] == self.keys@[cands@[j as int] as int]@);
                        assert(sub.last() == self.keys@[cands@[j as int] as int].domain@);
                        if j == 0 {
                            assert(j0 =~= Seq::<char>::empty());
                            assert(joined@ =~= sub[0]);
                        } else {
                            assert(joined@ =~= j0 + ", "@ + sub.last());
                        }
                    }
                    j = j + 1;
                }
                proof {
                    assert(dv.subrange(0, dv.len() as int) =~= dv);
                }
                Err(CompileError::AmbiguousPort { name: rf.label(), domains: joined })
            }
        }
    }
}

fn opt_eq(a: &Option<String>, b: &Option<String>) -> (r: bool)
    ensures
        r == (opt_view(*a) == opt_view(*b)),
{
    match (a, b) {
        (None, None) => true,
        (Some(x), Some(y)) => crate::ir::compare_strings(x, y) == Order::Equal,
        _ => false,
    }
}

impl Compiler {
    /// Append a fact whose atom is interned.
    fn push_raw_fact(&mut self, f: RawFact)
        requires
            old(self).wf(),
            old(self).atoms().contains(f.key@),
        ensures
            final(self).wf(),
            final(self).facts@ == old(self).facts@.push(f),
            final(self).keys == old(self).keys,
            final(self).clauses == old(self).clauses,
            final(self).rules == old(self).rules,
            final(self).decls == old(self).decls,
    {
        let ghost before = self.facts@;
        let ghost fv = f;
        self.facts.push(f);
        proof {
            assert forall|i: int| 0 <= i < self.facts@.len() implies self.atoms().contains(#[trigger] self.facts@[i].key@) by {
                if i < before.len() {
                    assert(self.facts@[i] == before[i]);
                }
            }
        }
    }

    fn is_undeclared(&self, k: &AtomKey) -> (r: bool)
        ensures
            r == (k@.predicate is None && !port_declared(self.decls.ports@, k@.domain, k@.subject)),
    {
        if k.predicate.is_some() {
            return false;
        }
        let mut i: usize = 0;
        while i < self.decls.ports.len()
            invariant
                i <= self.decls.ports@.len(),
                forall|j: int| 0 <= j < i ==> !((#[trigger] self.decls.ports@[j]).domain@ == k@.domain && self.decls.ports@[j].name@ == k@.subject),
            decreases self.decls.ports@.len() - i,
        {
            if crate::ir::compare_strings(&self.decls.ports[i].domain, &k.domain) == Order::Equal
                && crate::ir::compare_strings(&self.decls.ports[i].name, &k.subject) == Order::Equal {
                return false;
            }
            i = i + 1;
        }
        true
    }

    /// Add one binding to the merged pool, keyed by the atom it resolves to;
    /// two different values for one atom conflict. The pool stays ordered by
    /// atom.
    fn merge_binding(
        merged: &mut Vec<(AtomKey, crate::ir::PortBinding)>,
        key: AtomKey,
        b: crate::ir::PortBinding,
    ) -> (r: Result<(), CompileError>)
        requires
            crate::ir::keys_sorted(pool_keys(old(merged)@)),
        ensures
            crate::ir::keys_sorted(pool_keys(final(merged)@)),
            r is Err ==> r matches Err(CompileError::PortConflict { .. }),
            r matches Err(CompileError::PortConflict { name, a_value, a_origin, b_value, b_origin }) ==> {
                let p0 = pool(old(merged)@);
                &&& p0.contains_key(key@)
                &&& name@ == key_label(key@)
                &&& a_value == p0[key@].0
                &&& a_origin@ == p0[key@].1
                &&& b_value == b.value
                &&& b_origin@ == b.origin@
            },
            forall|i: int| 0 <= i < final(merged)@.len() ==> (exists|j: int| 0 <= j < old(merged)@.len() && old(merged)@[j].0 == (#[trigger] final(merged)@[i]).0) || final(merged)@[i].0 == key,
            ({
                let p0 = pool(old(merged)@);
                if p0.contains_key(key@) && p0[key@].0 != b.value {
                    r is Err
                } else {
                    &&& r is Ok
                    &&& pool(final(merged)@) == if p0.contains_key(key@) {
                        p0
                    } else {
                        p0.insert(key@, (b.value, b.origin@))
                    }
                }
            }),
    {
        let ghost m0 = merged@;
        let mut i: usize = 0;
        while i < merged.len() && compare_keys(&merged[i].0, &key) == Order::Less
            invariant
                i <= merged@.len(),
                merged@ == m0,
                m0 == old(merged)@,
                crate::ir::keys_sorted(pool_keys(m0)),
                forall|j: int| 0 <= j < i ==> crate::ir::key_lt(#[trigger] m0[j].0@, key@),
            decreases merged@.len() - i,
        {
            i = i + 1;
        }
        if i < merged.len() {
            let o = compare_keys(&merged[i].0, &key);
            proof {
                crate::ir::lemma_key_lt(m0[i as int].0@, key@, key@);
            }
            if o == Order::Equal {
                proof {
                    lemma_pool_at(m0, i as int);
                }
                if merged[i].1.value != b.value {
                    return Err(
                        CompileError::PortConflict {
                            name: atomkey_label(&key),
                            a_value: merged[i].1.value,
                            a_origin: merged[i].1.origin.clone(),
                            b_value: b.value,
                            b_origin: b.origin,
                        },
                    );
                }
                return Ok(());
            }
            proof {
                assert(crate::ir::key_lt(key@, m0[i as int].0@));
            }
        }
        proof {
            assert forall|j: int| 0 <= j < m0.len() implies m0[j].0@ != key@ by {
                crate::ir::lemma_key_lt(m0[j].0@, m0[j].0@, key@);
                if j >= i {
                    assert(crate::ir::key_lt(key@, m0[i as int].0@));
                    assert(pool_keys(m0)[i as int] == m0[i as int].0@);
                    assert(pool_keys(m0)[j] == m0[j].0@);
                    crate::ir::lemma_key_lt(key@, m0[i as int].0@, m0[j].0@);
                    crate::ir::lemma_key_lt(key@, key@, key@);
                }
            }
            assert(!pool(m0).contains_key(key@));
        }
        let ghost bv = b;
        merged.insert(i, (key, b));
        proof {
            let m1 = merged@;
            assert(m1.len() == m0.len() + 1);
            assert(m1[i as int].0@ == key@);
            assert forall|a: int| 0 <= a < m1.len() implies #[trigger] m1[a] == if a < i {
                m0[a]
            } else if a == i {
                m1[i as int]
            } else {
                m0[a - 1]
            } by {}
            assert forall|a: int| 0 <= a < merged@.len() implies (exists|j: int| 0 <= j < m0.len() && m0[j].0 == (#[trigger] merged@[a]).0) || merged@[a].0 == key by {
                if a < i {
                    assert(merged@[a] == m0[a]);
                } else if a > i {
                    assert(merged@[a] == m0[a - 1]);
                }
            }
            assert forall|x: int, y: int| 0 <= x < y < m1.len() implies crate::ir::key_lt(#[trigger] pool_keys(m1)[x], #[trigger] pool_keys(m1)[y]) by {
                assert(pool_keys(m1)[x] == m1[x].0@);
                assert(pool_keys(m1)[y] == m1[y].0@);
                if y < i {
                    assert(pool_keys(m0)[x] == m0[x].0@ && pool_keys(m0)[y] == m0[y].0@);
                } else if y == i {
                    assert(crate::ir::key_lt(m0[x].0@, key@));
                } else if x == i {
                    assert(pool_keys(m0)[i as int] == m0[i as int].0@);
                    assert(pool_keys(m0)[y - 1] == m0[y - 1].0@);
                    if y - 1 > i {
                        crate::ir::lemma_key_lt(key@, m0[i as int].0@, m0[y - 1].0@);
                    }
                } else if x < i {
                    assert(pool_keys(m0)[x] == m0[x].0@ && pool_keys(m0)[y - 1] == m0[y - 1].0@);
                } else {
                    assert(pool_keys(m0)[x - 1] == m0[x - 1].0@ && pool_keys(m0)[y - 1] == m0[y - 1].0@);
                }
            }
            let p1 = pool(m1);
            let want = pool(m0).insert(key@, (bv.value, bv.origin@));
            assert forall|k: KeyV| #[trigger] p1.contains_key(k) <==> want.contains_key(k) by {
                if p1.contains_key(k) {
                    let a = choose|a: int| 0 <= a < m1.len() && m1[a].0@ == k;
                    if a < i {
                        assert(m0[a].0@ == k);
                    } else if a > i {
                        assert(m0[a - 1].0@ == k);
                    }
                }
                if want.contains_key(k) && k != key@ {
                    let j = choose|j: int| 0 <= j < m0.len() && m0[j].0@ == k;
                    if j < i {
                        assert(m1[j].0@ == k);
                    } else {
                        assert(m1[j + 1].0@ == k);
                    }
                }
                if k == key@ {
                    assert(m1[i as int].0@ == k);
                }
            }
            assert forall|k: KeyV| #[trigger] p1.contains_key(k) implies p1[k] == want[k] by {
                let a = choose|a: int| 0 <= a < m1.len() && m1[a].0@ == k;
                lemma_pool_at(m1, a);
                if a < i {
                    lemma_pool_at(m0, a);
                } else if a > i {
                    lemma_pool_at(m0, a - 1);
                } else {
                    assert(m1[i as int] == (key, bv));
                }
            }
            assert(p1 =~= want);
        }
        Ok(())
    }

    /// Resolve every declared `VAR` port against the external `inputs` (and
    /// the in-file `PROVIDE`s), check that every used bare proposition is
    /// declared, and assert a hard fact for each resolved port. Returns one
    /// report record per declared port.
    pub(crate) fn resolve_ports(&mut self, inputs: &[(String, crate::ir::PortBinding)]) -> (r: Result<Vec<crate::ir::PlaceholderInfo>, CompileError>)
        requires
            old(self).wf(),
        ensures
            final(self).wf(),
            (r matches Err(CompileError::UndeclaredPort { .. })) <==> (exists|x: RefV| #[trigger] undeclared(*old(self), x)),
            r matches Err(CompileError::UndeclaredPort { file, line, name, .. }) ==> exists|k: KeyV| {
                &&& #[trigger] undeclared(*old(self), (file@, line, k))
                &&& k.subject == name@
                &&& forall|x: RefV| #[trigger] undeclared(*old(self), x) ==> !use_lt(x, (file@, line, k))
            },
            r is Err ==> *final(self) == *old(self),
            r matches Ok(ps) ==> old(self).ports_resolved(*final(self), inputs@, ps@),
            (r matches Err(CompileError::UnknownPort { .. }) || r matches Err(CompileError::UnknownExternalAtom { .. })
                || r matches Err(CompileError::AmbiguousPort { .. })) ==> exists|j: int|
                #[trigger] unresolved_at(*old(self), provide_binds(old(self).decls.provides@) + input_binds(inputs@), j, r->Err_0),
            r matches Err(CompileError::PortConflict { name, a_value, a_origin, b_value, b_origin }) ==> exists|j: int|
                #[trigger] conflict_at(
                    *old(self),
                    provide_binds(old(self).decls.provides@) + input_binds(inputs@),
                    j,
                    name@,
                    (a_value, a_origin@),
                    (b_value, b_origin@),
                ),
            r is Ok ==> ports_sorted(old(self).decls.ports@),
            r matches Err(CompileError::UndeclaredPort { name, suggestion, .. }) ==> ({
                let ns = port_names(old(self).decls.ports@);
                (exists|i: int| crate::error::nearest_at(name@, ns, i) && suggestion@ == crate::error::suggestion_spec(name@, ns, Some(i)))
                    || (crate::error::nothing_near(name@, ns) && suggestion@.len() == 0)
            }),
            r is Err ==> (r matches Err(CompileError::UndeclaredPort { .. }) || r matches Err(CompileError::UnknownPort { .. })
                || r matches Err(CompileError::AmbiguousPort { .. }) || r matches Err(CompileError::UnknownExternalAtom { .. })
                || r matches Err(CompileError::PortConflict { .. })),
            !(exists|x: RefV| #[trigger] undeclared(*old(self), x)) ==> (r is Ok <==> merged_spec(
                *old(self),
                provide_binds(old(self).decls.provides@) + input_binds(inputs@),
            ) is Some),
            r matches Ok(ps) ==> ps@.len() == old(self).decls.ports@.len() && forall|i: int|
                0 <= i < ps@.len() ==> placeholder_ok(
                    old(self).decls.ports@,
                    i,
                    merged_spec(*old(self), provide_binds(old(self).decls.provides@) + input_binds(inputs@))->Some_0,
                    #[trigger] ps@[i],
                ),
            r is Ok ==> ({
                let m = merged_spec(*old(self), provide_binds(old(self).decls.provides@) + input_binds(inputs@))->Some_0;
                let f0 = old(self).fact_list();
                let vf = var_facts(old(self).decls.ports@, m);
                let f1 = final(self).fact_list();
                &&& f0.len() + vf.len() <= f1.len()
                &&& f1.subrange(0, (f0.len() + vf.len()) as int) == f0 + vf
                &&& provide_facts_ok(m, f1.subrange((f0.len() + vf.len()) as int, f1.len() as int))
            }),
            r is Ok ==> forall|i: int| 0 <= i < old(self).decls.ports@.len() ==> final(self).atoms().contains(
                KeyV {
                    domain: (#[trigger] old(self).decls.ports@[i]).domain@,
                    subject: old(self).decls.ports@[i].name@,
                    predicate: None,
                    object: None,
                },
            ),
    {
        // (1) every used bare proposition must be a declared port
        let refs = self.references();
        let ghost rv = refs@.map_values(|x: (String, u32, AtomKey)| (x.0@, x.1, x.2@));
        let mut best: Option<usize> = None;
        let mut i: usize = 0;
        while i < refs.len()
            invariant
                rv == refs@.map_values(|x: (String, u32, AtomKey)| (x.0@, x.1, x.2@)),
                rv == all_refs(*self),
                *self == *old(self),
                i <= refs@.len(),
                match best {
                    Some(b) => b < i && rv[b as int].2.predicate is None && !port_declared(self.decls.ports@, rv[b as int].2.domain, rv[b as int].2.subject)
                        && forall|j: int| 0 <= j < i && (#[trigger] rv[j]).2.predicate is None && !port_declared(self.decls.ports@, rv[j].2.domain, rv[j].2.subject)
                            ==> !use_lt(rv[j], rv[b as int]),
                    None => forall|j: int| 0 <= j < i ==> !((#[trigger] rv[j]).2.predicate is None && !port_declared(self.decls.ports@, rv[j].2.domain, rv[j].2.subject)),
                },
            decreases refs@.len() - i,
        {
            proof {
                assert(rv[i as int] == (refs@[i as int].0@, refs@[i as int].1, refs@[i as int].2@));
            }
            if self.is_undeclared(&refs[i].2) {
                match best {
                    None => {
                        proof {
                            lemma_use_lt(rv[i as int], rv[i as int], rv[i as int]);
                        }
                        best = Some(i);
                    },
                    Some(b) => {
                        proof {
                            assert(rv[b as int] == (refs@[b as int].0@, refs@[b as int].1, refs@[b as int].2@));
                        }
                        if use_before(&refs[i], &refs[b]) {
                            proof {
                                assert forall|j: int| 0 <= j < i + 1 && (#[trigger] rv[j]).2.predicate is None && !port_declared(self.decls.ports@, rv[j].2.domain, rv[j].2.subject)
                                    implies !use_lt(rv[j], rv[i as int]) by {
                                    lemma_use_lt(rv[j], rv[i as int], rv[b as int]);
                                    lemma_use_lt(rv[i as int], rv[i as int], rv[i as int]);
                                }
                            }
                            best = Some(i);
                        }
                    },
                }
            }
            i = i + 1;
        }
        match best {
            Some(b) => {
                let mut names: Vec<&str> = Vec::new();
                let mut k: usize = 0;
                while k < self.decls.ports.len()
                    invariant
                        k <= self.decls.ports@.len(),
                        crate::error::cand_views(names@) == port_names(self.decls.ports@.subrange(0, k as int)),
                    decreases self.decls.ports@.len() - k,
                {
                    let ghost n0 = names@;
                    names.push(self.decls.ports[k].name.as_str());
                    proof {
                        assert(crate::error::cand_views(names@) =~= crate::error::cand_views(n0).push(self.decls.ports@[k as int].name@));
                        assert(port_names(self.decls.ports@.subrange(0, k + 1)) =~= port_names(self.decls.ports@.subrange(0, k as int)).push(
                            self.decls.ports@[k as int].name@,
                        ));
                    }
                    k = k + 1;
                }
                proof {
                    assert(self.decls.ports@.subrange(0, self.decls.ports@.len() as int) =~= self.decls.ports@);
                }
                let name = refs[b].2.subject.clone();
                let suggestion = crate::error::did_you_mean(name.as_str(), names.as_slice());
                let file = refs[b].0.clone();
                let line = refs[b].1;
                let ghost bv = rv[b as int];
                proof {
                    assert(bv == (refs@[b as int].0@, refs@[b as int].1, refs@[b as int].2@));
                    assert(rv.contains(bv));
                    assert(undeclared(*old(self), bv));
                    assert forall|x: RefV| #[trigger] undeclared(*old(self), x) implies !use_lt(x, bv) by {
                        let j = choose|j: int| 0 <= j < rv.len() && rv[j] == x;
                    }
                }
                proof {
                    let k = refs@[b as int].2@;
                    assert(bv == (file@, line, k));
                    assert(k.subject == name@);
                    assert(undeclared(*old(self), (file@, line, k)));
                    assert(forall|x: RefV| #[trigger] undeclared(*old(self), x) ==> !use_lt(x, (file@, line, k)));
                }
                let e = CompileError::UndeclaredPort { file, line, name, suggestion };
                proof {
                    let k = refs@[b as int].2@;
                    assert(e matches CompileError::UndeclaredPort { file: f, line: l, name: nm, .. } && undeclared(*old(self), (f@, l, k)) && k.subject == nm@);
                }
                return Err(e);
            },
            None => {
                proof {
                    assert forall|x: RefV| !#[trigger] undeclared(*old(self), x) by {
                        if undeclared(*old(self), x) {
                            let j = choose|j: int| 0 <= j < rv.len() && rv[j] == x;
                        }
                    }
                }
            },
        }
        // (2) resolve every binding (in-file PROVIDEs, then external values)
        // to an atom, merging by atom; disagreeing values conflict.
        let mut merged: Vec<(AtomKey, crate::ir::PortBinding)> = Vec::new();
        let ghost bs = provide_binds(self.decls.provides@) + input_binds(inputs@);
        let ghost np = self.decls.provides@.len() as int;
        proof {
            assert(bs.subrange(0, 0) =~= Seq::<BindV>::empty());
            assert(pool(merged@) =~= Map::<KeyV, (bool, Seq<char>)>::empty());
        }
        let mut i: usize = 0;
        while i < self.decls.provides.len()
            invariant
                self.wf(),
                *self == *old(self),
                !(exists|x: RefV| #[trigger] undeclared(*old(self), x)),
                bs == provide_binds(self.decls.provides@) + input_binds(inputs@),
                np == self.decls.provides@.len(),
                i <= np,
                crate::ir::keys_sorted(pool_keys(merged@)),
                merged_spec(*old(self), bs.subrange(0, i as int)) == Some(pool(merged@)),
                forall|j: int| 0 <= j < merged@.len() ==> self.atoms().contains((#[trigger] merged@[j]).0@) || ((merged@[j].0@).predicate is None
                    && port_declared(self.decls.ports@, merged@[j].0@.domain, merged@[j].0@.subject) && merged@[j].0@.object is None),
            decreases self.decls.provides@.len() - i,
        {
            proof {
                assert(bs.subrange(0, i + 1).drop_last() =~= bs.subrange(0, i as int));
                assert(bs.subrange(0, i + 1).last() == bs[i as int]);
                assert(bs[i as int] == (ref_view(self.decls.provides@[i as int].0), self.decls.provides@[i as int].1.value, self.decls.provides@[i as int].1.origin@));
            }
            let key = match self.resolve_port_ref(&self.decls.provides[i].0) {
                Ok(k) => k,
                Err(e) => {
                    proof {
                        lemma_merged_none(*old(self), bs, i + 1);
                        assert(bs[i as int].0 == ref_view(self.decls.provides@[i as int].0));
                        assert(unresolved_at(*old(self), bs, i as int, e));
                    }
                    return Err(e);
                },
            };
            let b = crate::ir::PortBinding { value: self.decls.provides[i].1.value, origin: self.decls.provides[i].1.origin.clone() };
            let ghost m0 = merged@;
            let ghost kv = key@;
            let ghost bv = (b.value, b.origin@);
            match Self::merge_binding(&mut merged, key, b) {
                Ok(()) => {},
                Err(e) => {
                    proof {
                        lemma_merged_none(*old(self), bs, i + 1);
                        match &e {
                            CompileError::PortConflict { name, a_value, a_origin, b_value, b_origin } => {
                                assert(bv == (bs[i as int].1, bs[i as int].2));
                                assert(conflict_at(*old(self), bs, i as int, name@, (*a_value, a_origin@), (*b_value, b_origin@)));
                            },
                            _ => {},
                        }
                    }
                    return Err(e);
                },
            }
            i = i + 1;
        }
        let mut i: usize = 0;
        while i < inputs.len()
            invariant
                self.wf(),
                *self == *old(self),
                !(exists|x: RefV| #[trigger] undeclared(*old(self), x)),
                bs == provide_binds(self.decls.provides@) + input_binds(inputs@),
                np == self.decls.provides@.len(),
                i <= inputs@.len(),
                crate::ir::keys_sorted(pool_keys(merged@)),
                merged_spec(*old(self), bs.subrange(0, np + i)) == Some(pool(merged@)),
                forall|j: int| 0 <= j < merged@.len() ==> self.atoms().contains((#[trigger] merged@[j]).0@) || ((merged@[j].0@).predicate is None
                    && port_declared(self.decls.ports@, merged@[j].0@.domain, merged@[j].0@.subject) && merged@[j].0@.object is None),
            decreases inputs@.len() - i,
        {
            proof {
                assert(bs.subrange(0, np + i + 1).drop_last() =~= bs.subrange(0, np + i));
                assert(bs.subrange(0, np + i + 1).last() == bs[np + i]);
                assert(bs[np + i] == (key_ref(inputs@[i as int].0@), inputs@[i as int].1.value, inputs@[i as int].1.origin@));
            }
            let rf = parse_port_ref(inputs[i].0.as_str());
            let key = match self.resolve_port_ref(&rf) {
                Ok(k) => k,
                Err(e) => {
                    proof {
                        lemma_merged_none(*old(self), bs, np + i + 1);
                        assert(bs[np + i].0 == ref_view(rf));
                        assert(unresolved_at(*old(self), bs, np + i, e));
                    }
                    return Err(e);
                },
            };
            let b = crate::ir::PortBinding { value: inputs[i].1.value, origin: inputs[i].1.origin.clone() };
            let ghost bv = (b.value, b.origin@);
            match Self::merge_binding(&mut merged, key, b) {
                Ok(()) => {},
                Err(e) => {
                    proof {
                        lemma_merged_none(*old(self), bs, np + i + 1);
                        match &e {
                            CompileError::PortConflict { name, a_value, a_origin, b_value, b_origin } => {
                                assert(bv == (bs[np + i].1, bs[np + i].2));
                                assert(conflict_at(*old(self), bs, np + i, name@, (*a_value, a_origin@), (*b_value, b_origin@)));
                            },
                            _ => {},
                        }
                    }
                    return Err(e);
                },
            }
            i = i + 1;
        }
        let ghost pm = pool(merged@);
        proof {
            assert(bs.subrange(0, bs.len() as int) =~= bs);
            assert(np + inputs@.len() == bs.len());
        }
        // (3) each declared port: supplied > DEFAULT > unset
        let n = self.decls.ports.len();
        let mut placeholders: Vec<crate::ir::PlaceholderInfo> = Vec::new();
        let mut synth: Vec<(usize, bool)> = Vec::new();
        let mut i: usize = 0;
        while i < n
            invariant
                n == self.decls.ports@.len(),
                *self == *old(self),
                crate::ir::keys_sorted(pool_keys(merged@)),
                pm == pool(merged@),
                i <= n,
                placeholders@.len() == i,
                forall|q: int| 0 <= q < i ==> placeholder_ok(self.decls.ports@, q, pm, #[trigger] placeholders@[q]),
                forall|j: int| 0 <= j < synth@.len() ==> (#[trigger] synth@[j]).0 < n,
                synth_facts(self.decls.ports@, synth@) == var_facts(self.decls.ports@.subrange(0, i as int), pm),
            decreases n - i,
        {
            proof {
                assert(self.decls.ports@.subrange(0, i + 1).drop_last() =~= self.decls.ports@.subrange(0, i as int));
                assert(self.decls.ports@.subrange(0, i + 1).last() == self.decls.ports@[i as int]);
            }
            let port = &self.decls.ports[i];
            let key = AtomKey { domain: port.domain.clone(), subject: port.name.clone(), predicate: None, object: None };
            let mut found: Option<usize> = None;
            let mut j: usize = 0;
            while j < merged.len()
                invariant_except_break
                    found is None,
                invariant
                    j <= merged@.len(),
                    found matches Some(f) ==> f < merged@.len() && merged@[f as int].0@ == key@,
                    forall|q: int| 0 <= q < j ==> (#[trigger] merged@[q]).0@ != key@,
                ensures
                    found matches Some(f) ==> f < merged@.len() && merged@[f as int].0@ == key@,
                    found is None ==> forall|q: int| 0 <= q < merged@.len() ==> (#[trigger] merged@[q]).0@ != key@,
                decreases merged@.len() - j,
            {
                if compare_keys(&merged[j].0, &key) == Order::Equal {
                    found = Some(j);
                    break;
                }
                j = j + 1;
            }
            let ghost kv = key@;
            proof {
                match found {
                    Some(f) => {
                        lemma_pool_at(merged@, f as int);
                    },
                    None => {
                        if pm.contains_key(kv) {
                            let w = choose|w: int| 0 <= w < merged@.len() && merged@[w].0@ == kv;
                            assert(merged@[w].0@ != kv);
                        }
                    },
                }
            }
            let (status, value, origin) = match found {
                Some(f) => (crate::ir::PlaceholderStatus::Supplied, Some(merged[f].1.value), Some(merged[f].1.origin.clone())),
                None => match port.default {
                    Some(v) => (crate::ir::PlaceholderStatus::DefaultUsed, Some(v), None),
                    None => (crate::ir::PlaceholderStatus::Unset, None, None),
                },
            };
            proof {
                assert(value == port_value(self.decls.ports@[i as int], pm));
            }
            let ghost sy0 = synth@;
            match value {
                Some(v) => {
                    synth.push((i, v));
                    proof {
                        assert(synth_facts(self.decls.ports@, synth@) =~= synth_facts(self.decls.ports@, sy0).push(
                            (port_key(self.decls.ports@[i as int]), truth(v), kw::VAR@, false),
                        ));
                    }
                },
                None => {},
            }
            let mut count: usize = 0;
            let mut j: usize = 0;
            while j < n
                invariant
                    n == self.decls.ports@.len(),
                    count <= j <= n,
                    count == name_count(self.decls.ports@.subrange(0, j as int), port.name@),
                decreases n - j,
            {
                proof {
                    assert(self.decls.ports@.subrange(0, j + 1).drop_last() =~= self.decls.ports@.subrange(0, j as int));
                    assert(self.decls.ports@.subrange(0, j + 1).last() == self.decls.ports@[j as int]);
                }
                if crate::ir::compare_strings(&self.decls.ports[j].name, &port.name) == Order::Equal {
                    count = count + 1;
                }
                j = j + 1;
            }
            proof {
                assert(self.decls.ports@.subrange(0, n as int) =~= self.decls.ports@);
            }
            let label = if count > 1 {
                let mut l = port.domain.clone();
                crate::text::push_char(&mut l, '.');
                crate::text::push_string(&mut l, &port.name);
                proof {
                    assert(l@ =~= port.domain@ + seq!['.'] + port.name@);
                }
                l
            } else {
                port.name.clone()
            };
            let info = crate::ir::PlaceholderInfo { key: label, status, value, origin };
            proof {
                let d = self.decls.ports@[i as int];
                assert(d == *port);
                assert(kv == KeyV { domain: d.domain@, subject: d.name@, predicate: None, object: None });
                assert(info.key@ == if name_count(self.decls.ports@, d.name@) > 1 {
                    d.domain@ + seq!['.'] + d.name@
                } else {
                    d.name@
                });
                if pm.contains_key(kv) {
                    assert(found is Some);
                    assert(info.status == crate::ir::PlaceholderStatus::Supplied);
                    assert(info.value == Some(pm[kv].0));
                    assert(opt_view(info.origin) == Some(pm[kv].1));
                } else {
                    assert(found is None);
                }
                assert(placeholder_ok(self.decls.ports@, i as int, pm, info));
            }
            placeholders.push(info);
            i = i + 1;
        }
        // (4) intern every declared port, keep it out of the idle-fact lint,
        // and assert a hard fact for each resolved one.
        proof {
            assert(self.decls.ports@.subrange(0, n as int) =~= self.decls.ports@);
        }
        let ghost vf = var_facts(self.decls.ports@, pm);
        let mut i: usize = 0;
        while i < n
            invariant
                self.wf(),
                n == self.decls.ports@.len(),
                self.decls.ports == old(self).decls.ports,
                self.facts == old(self).facts,
                old(self).atoms() <= self.atoms(),
                i <= n,
                forall|j: int| 0 <= j < i ==> self.atoms().contains(
                    KeyV { domain: (#[trigger] self.decls.ports@[j]).domain@, subject: self.decls.ports@[j].name@, predicate: None, object: None },
                ),
            decreases n - i,
        {
            let key = AtomKey {
                domain: self.decls.ports[i].domain.clone(),
                subject: self.decls.ports[i].name.clone(),
                predicate: None,
                object: None,
            };
            self.intern(&key);
            insert_key(&mut self.decls.consumed, &key);
            i = i + 1;
        }
        let mut i: usize = 0;
        while i < synth.len()
            invariant
                self.wf(),
                n == self.decls.ports@.len(),
                self.decls.ports == old(self).decls.ports,
                old(self).atoms() <= self.atoms(),
                i <= synth@.len(),
                forall|j: int| 0 <= j < synth@.len() ==> (#[trigger] synth@[j]).0 < n,
                forall|j: int| 0 <= j < n ==> self.atoms().contains(
                    KeyV { domain: (#[trigger] self.decls.ports@[j]).domain@, subject: self.decls.ports@[j].name@, predicate: None, object: None },
                ),
                self.fact_list() == old(self).fact_list() + synth_facts(self.decls.ports@, synth@.subrange(0, i as int)),
            decreases synth@.len() - i,
        {
            let (pi, v) = synth[i];
            let port = &self.decls.ports[pi];
            let key = AtomKey { domain: port.domain.clone(), subject: port.name.clone(), predicate: None, object: None };
            let f = RawFact {
                key,
                value: if v {
                    Value::True
                } else {
                    Value::False
                },
                origin: Origin { source: port.source.clone(), line: port.line, premise: None, kind: kw::VAR },
                soft: false,
            };
            proof {
                assert(self.atoms().contains(KeyV { domain: self.decls.ports@[pi as int].domain@, subject: self.decls.ports@[pi as int].name@, predicate: None, object: None }));
                assert(f.key@ == KeyV { domain: self.decls.ports@[pi as int].domain@, subject: self.decls.ports@[pi as int].name@, predicate: None, object: None });
            }
            let ghost fl0 = self.fact_list();
            self.push_raw_fact(f);
            proof {
                assert(synth@.subrange(0, i + 1) =~= synth@.subrange(0, i as int).push(synth@[i as int]));
                assert(self.fact_list() =~= fl0.push((f.key@, f.value, f.origin.kind@, f.soft)));
                assert(synth_facts(self.decls.ports@, synth@.subrange(0, i + 1)) =~= synth_facts(self.decls.ports@, synth@.subrange(0, i as int)).push(
                    (f.key@, f.value, f.origin.kind@, f.soft),
                ));
            }
            i = i + 1;
        }
        proof {
            assert(synth@.subrange(0, synth@.len() as int) =~= synth@);
        }
        let ghost f45 = self.fact_list();
        // (5) a multi-word binding asserts an atom the program uses.
        let ghost mut tail: Seq<FactV> = Seq::empty();
        let ghost mut src: Seq<int> = Seq::empty();
        let mut i: usize = 0;
        while i < merged.len()
            invariant
                self.wf(),
                old(self).atoms() <= self.atoms(),
                self.decls.ports == old(self).decls.ports,
                crate::ir::keys_sorted(pool_keys(merged@)),
                pm == pool(merged@),
                i <= merged@.len(),
                forall|j: int| 0 <= j < merged@.len() ==> old(self).atoms().contains((#[trigger] merged@[j]).0@) || ((merged@[j].0@).predicate is None
                    && port_declared(old(self).decls.ports@, merged@[j].0@.domain, merged@[j].0@.subject) && merged@[j].0@.object is None),
                forall|j: int| 0 <= j < old(self).decls.ports@.len() ==> self.atoms().contains(
                    KeyV { domain: (#[trigger] old(self).decls.ports@[j]).domain@, subject: old(self).decls.ports@[j].name@, predicate: None, object: None },
                ),
                self.fact_list() == f45 + tail,
                src.len() == tail.len(),
                forall|a: int| 0 <= a < tail.len() ==> 0 <= #[trigger] src[a] < i && tail[a].0 == merged@[src[a]].0@,
                forall|a: int|
                    0 <= a < tail.len() ==> {
                        let f = #[trigger] tail[a];
                        &&& pm.contains_key(f.0)
                        &&& f.0.predicate is Some
                        &&& f.1 == truth(pm[f.0].0)
                        &&& f.2 == kw::PROVIDE@
                        &&& !f.3
                    },
                forall|j: int| 0 <= j < i && (#[trigger] merged@[j]).0@.predicate is Some ==> exists|a: int| 0 <= a < tail.len() && #[trigger] tail[a].0 == merged@[j].0@,
                forall|a: int, b: int| 0 <= a < b < tail.len() ==> crate::ir::key_lt(#[trigger] tail[a].0, #[trigger] tail[b].0),
            decreases merged@.len() - i,
        {
            if merged[i].0.predicate.is_some() {
                let f = RawFact {
                    key: copy_key(&merged[i].0),
                    value: if merged[i].1.value {
                        Value::True
                    } else {
                        Value::False
                    },
                    origin: Origin { source: merged[i].1.origin.clone(), line: 0, premise: None, kind: kw::PROVIDE },
                    soft: false,
                };
                let ghost fl0 = self.fact_list();
                let ghost t0 = tail;
                let ghost s0 = src;
                self.push_raw_fact(f);
                proof {
                    lemma_pool_at(merged@, i as int);
                    let fv = (f.key@, f.value, f.origin.kind@, f.soft);
                    tail = t0.push(fv);
                    src = s0.push(i as int);
                    assert(self.fact_list() =~= fl0.push(fv));
                    assert(self.fact_list() =~= f45 + tail);
                    assert forall|a: int, b: int| 0 <= a < b < tail.len() implies crate::ir::key_lt(#[trigger] tail[a].0, #[trigger] tail[b].0) by {
                        if b == t0.len() {
                            assert(tail[a] == t0[a]);
                            assert(pool_keys(merged@)[src[a]] == merged@[src[a]].0@);
                            assert(pool_keys(merged@)[i as int] == merged@[i as int].0@);
                        } else {
                            assert(tail[a] == t0[a] && tail[b] == t0[b]);
                        }
                    }
                    assert forall|j: int| 0 <= j < i + 1 && (#[trigger] merged@[j]).0@.predicate is Some implies exists|a: int| 0 <= a < tail.len() && #[trigger] tail[a].0 == merged@[j].0@ by {
                        if j == i {
                            assert(tail[t0.len() as int].0 == merged@[j].0@);
                        } else {
                            let a = choose|a: int| 0 <= a < t0.len() && #[trigger] t0[a].0 == merged@[j].0@;
                            assert(tail[a] == t0[a]);
                        }
                    }
                }
            }
            i = i + 1;
        }
        proof {
            let f0 = old(self).fact_list();
            let f1 = self.fact_list();
            assert(f45 == f0 + vf);
            assert(f1.subrange(0, (f0.len() + vf.len()) as int) =~= f0 + vf);
            assert(f1.subrange((f0.len() + vf.len()) as int, f1.len() as int) =~= tail);
            assert forall|k: KeyV| #[trigger] pm.contains_key(k) && k.predicate is Some implies exists|a: int| 0 <= a < tail.len() && #[trigger] tail[a].0 == k by {
                let j = choose|j: int| 0 <= j < merged@.len() && merged@[j].0@ == k;
                assert(merged@[j].0@.predicate is Some);
            }
            assert(provide_facts_ok(pm, tail));
        }
        Ok(placeholders)
    }
}

/// The closed world of `c` is broken, and `e` reports its first offender: a
/// reference giving the variable a value its `ONEOF` does not declare.
pub(crate) open spec fn world_rejected(c: Compiler, e: CompileError) -> bool {
    &&& !c.closed_world()
    &&& e matches CompileError::UnknownValue(u) && exists|k: KeyV| {
        &&& #[trigger] offends(c, (u.file@, u.line, k))
        &&& k.object == Some(u.value@)
        &&& k.subject == u.subject@
        &&& k.predicate == Some(u.predicate@)
        &&& value_report(c.decls.oneof@, k, *u)
        &&& forall|x: RefV| #[trigger] offends(c, x) ==> !offender_lt(x, (u.file@, u.line, k))
    }
}

/// The ports of `c` could not be resolved against `inputs`, and `e` says why:
/// a bare proposition used without its `VAR` (the first such use, with a
/// suggestion among the declared ports); a binding whose reference means no
/// atom or more than one; or a binding giving a port another value than an
/// earlier one did.
pub(crate) open spec fn ports_rejected(c: Compiler, inputs: Seq<(String, crate::ir::PortBinding)>, e: CompileError) -> bool {
    let bs = provide_binds(c.decls.provides@) + input_binds(inputs);
    ||| e matches CompileError::UndeclaredPort { file, line, name, suggestion } && (exists|k: KeyV| {
        &&& #[trigger] undeclared(c, (file@, line, k))
        &&& k.subject == name@
        &&& forall|x: RefV| #[trigger] undeclared(c, x) ==> !use_lt(x, (file@, line, k))
    }) && ({
        let ns = port_names(c.decls.ports@);
        (exists|i: int| crate::error::nearest_at(name@, ns, i) && suggestion@ == crate::error::suggestion_spec(name@, ns, Some(i)))
            || (crate::error::nothing_near(name@, ns) && suggestion@.len() == 0)
    })
    ||| (e is UnknownPort || e is UnknownExternalAtom || e is AmbiguousPort) && exists|j: int| #[trigger] unresolved_at(c, bs, j, e)
    ||| e matches CompileError::PortConflict { name, a_value, a_origin, b_value, b_origin } && exists|j: int|
        #[trigger] conflict_at(c, bs, j, name@, (a_value, a_origin@), (b_value, b_origin@))
}

/// Why compiling the source `text`, labelled `source`, against `inputs` failed
/// with `e`: the source could not be added to a fresh compiler; or, once
/// added, a variable takes a value outside its closed set; or, with the closed
/// world intact, its ports could not be resolved.
pub closed spec fn source_rejected(
    source: Seq<char>,
    text: Seq<char>,
    inputs: Seq<(String, crate::ir::PortBinding)>,
    e: CompileError,
) -> bool {
    ||| exists|s0: Compiler, n: Compiler| #[trigger] source_failed(s0, n, source, text, e) && s0.fresh()
    ||| exists|s0: Compiler, s1: Compiler, stmts: Seq<Statement>, cs: Seq<Compiler>, ctx: DomainCtx|
        #[trigger] source_applied(s0, s1, source, text, stmts, cs, ctx) && s0.fresh() && world_rejected(s1, e)
    ||| exists|s0: Compiler, s1: Compiler, stmts: Seq<Statement>, cs: Seq<Compiler>, ctx: DomainCtx|
        #[trigger] source_applied(s0, s1, source, text, stmts, cs, ctx) && s0.fresh() && s1.closed_world()
            && ports_rejected(s1, inputs, e)
}

/// Each way the single-source pipeline stops is one of `source_rejected`'s.
pub(crate) proof fn lemma_source_rejected(
    s0: Compiler,
    s1: Compiler,
    source: Seq<char>,
    text: Seq<char>,
    inputs: Seq<(String, crate::ir::PortBinding)>,
    e: CompileError,
)
    requires
        s0.fresh(),
        source_failed(s0, s1, source, text, e) || (exists|stmts: Seq<Statement>, cs: Seq<Compiler>, ctx: DomainCtx|
            #[trigger] source_applied(s0, s1, source, text, stmts, cs, ctx)) && (world_rejected(s1, e) || (s1.closed_world()
            && ports_rejected(s1, inputs, e))),
    ensures
        source_rejected(source, text, inputs, e),
{
    if source_failed(s0, s1, source, text, e) {
    } else {
        let (stmts, cs, ctx) = choose|stmts: Seq<Statement>, cs: Seq<Compiler>, ctx: DomainCtx|
            #[trigger] source_applied(s0, s1, source, text, stmts, cs, ctx);
        assert(source_applied(s0, s1, source, text, stmts, cs, ctx));
    }
}

} // verus!
