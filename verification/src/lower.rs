//! The desugaring of surface constraints into `Impossible` clauses over
//! literals keyed by atom identity, and the domain context atoms are resolved
//! in.
//!
//! - `EXCLUSIVE`/`FORBIDS` (at most one): one clause `[a_i, a_j]` per
//!   unordered pair;
//! - `ATLEAST` (at least one): one clause `[NOT a_1, …, NOT a_n]`;
//! - `ONEOF`: both;
//! - `WHEN A THEN C`: `Impossible(A ∧ ¬C)`, with each side grouped by its
//!   connective (an `AND` antecedent shares every clause, an `OR` antecedent
//!   gives one clause per literal; an `AND` consequent gives one clause per
//!   negated literal, an `OR` consequent shares its negated literals).
use vstd::prelude::*;
use crate::ast::{Atom, Conn, Located, Literal};
use crate::error::CompileError;
use crate::ir::{AtomKey, KeyV, compare_keys, copy_key, copy_opt, opt_view};
use crate::text::Order;

verus! {

/// The abstract value of a literal: an atom identity and whether it is negated.
pub type LitV = (KeyV, bool);

/// A literal keyed by atom identity (before atoms are numbered).
pub struct RawLit {
    /// The atom.
    pub key: AtomKey,
    /// `true` for `NOT atom`.
    pub negated: bool,
}

/// The abstract value of a raw literal.
pub open spec fn lit_v(l: RawLit) -> LitV {
    (l.key@, l.negated)
}

/// The abstract values of a list of raw literals.
pub open spec fn lits_v(v: Seq<RawLit>) -> Seq<LitV> {
    v.map_values(|l: RawLit| lit_v(l))
}

/// The abstract values of a list of candidate clauses.
pub open spec fn clauses_v(v: Seq<Vec<RawLit>>) -> Seq<Seq<LitV>> {
    v.map_values(|c: Vec<RawLit>| lits_v(c@))
}

/// Appending a literal appends its value.
pub proof fn lemma_lits_push(v: Seq<RawLit>, x: RawLit)
    ensures
        lits_v(v.push(x)) == lits_v(v).push(lit_v(x)),
{
    assert(lits_v(v.push(x)) =~= lits_v(v).push(lit_v(x)));
}

/// Appending a clause appends its value.
pub proof fn lemma_clauses_push(v: Seq<Vec<RawLit>>, x: Vec<RawLit>)
    ensures
        clauses_v(v.push(x)) == clauses_v(v).push(lits_v(x@)),
{
    assert(clauses_v(v.push(x)) =~= clauses_v(v).push(lits_v(x@)));
}

/// An owned copy of a raw literal.
pub fn copy_lit(l: &RawLit) -> (r: RawLit)
    ensures
        lit_v(r) == lit_v(*l),
{
    RawLit { key: copy_key(&l.key), negated: l.negated }
}

/// An owned copy of a list of raw literals.
pub fn copy_lits(v: &Vec<RawLit>) -> (r: Vec<RawLit>)
    ensures
        lits_v(r@) == lits_v(v@),
{
    let mut r: Vec<RawLit> = Vec::new();
    let mut i: usize = 0;
    while i < v.len()
        invariant
            i <= v@.len(),
            lits_v(r@) == lits_v(v@).subrange(0, i as int),
        decreases v@.len() - i,
    {
        let ghost r0 = r@;
        let x = copy_lit(&v[i]);
        let ghost xv = x;
        r.push(x);
        proof {
            lemma_lits_push(r0, xv);
            assert(lits_v(v@)[i as int] == lit_v(v@[i as int]));
            assert(lits_v(r@) =~= lits_v(v@).subrange(0, i + 1));
        }
        i = i + 1;
    }
    proof {
        assert(lits_v(v@).subrange(0, v@.len() as int) =~= lits_v(v@));
    }
    r
}

// --- the clause shapes --------------------------------------------------------

/// "At most one is TRUE": one clause `[a_i, a_j]` per pair `i < j`, in order
/// of `i`, then `j`.
pub open spec fn pairwise_spec(keys: Seq<KeyV>) -> Seq<Seq<LitV>>
    decreases keys.len(),
{
    if keys.len() == 0 {
        Seq::empty()
    } else {
        keys.drop_first().map_values(|r: KeyV| seq![(keys[0], false), (r, false)])
            + pairwise_spec(keys.drop_first())
    }
}

/// "At least one is TRUE": the one clause `[NOT a_1, …, NOT a_n]`.
pub open spec fn at_least_one_spec(keys: Seq<KeyV>) -> Seq<LitV> {
    keys.map_values(|k: KeyV| (k, true))
}

/// A literal with its polarity flipped.
pub open spec fn negate(l: LitV) -> LitV {
    (l.0, !l.1)
}

/// The groups an antecedent contributes: the whole list under `AND`, one
/// literal each under `OR`.
pub open spec fn ante_groups(ante: Seq<LitV>, conn: Conn) -> Seq<Seq<LitV>> {
    match conn {
        Conn::And => seq![ante],
        Conn::Or => ante.map_values(|l: LitV| seq![l]),
    }
}

/// The groups a consequent contributes: one literal each under `AND`, the
/// whole list under `OR`.
pub open spec fn cons_groups(cons: Seq<LitV>, conn: Conn) -> Seq<Seq<LitV>> {
    match conn {
        Conn::And => cons.map_values(|l: LitV| seq![l]),
        Conn::Or => seq![cons],
    }
}

/// One clause per (antecedent group, consequent group) pair, antecedent group
/// major: the antecedent group's literals, then the consequent group's
/// literals negated.
pub open spec fn grid_spec(ags: Seq<Seq<LitV>>, cgs: Seq<Seq<LitV>>) -> Seq<Seq<LitV>>
    decreases ags.len(),
{
    if ags.len() == 0 {
        Seq::empty()
    } else {
        cgs.map_values(|cg: Seq<LitV>| ags[0] + cg.map_values(|l: LitV| negate(l)))
            + grid_spec(ags.drop_first(), cgs)
    }
}

/// The clauses `WHEN ante THEN cons` desugars to: `Impossible(A ∧ ¬C)`.
pub open spec fn impl_spec(ante: Seq<LitV>, ac: Conn, cons: Seq<LitV>, cc: Conn) -> Seq<
    Seq<LitV>,
> {
    grid_spec(ante_groups(ante, ac), cons_groups(cons, cc))
}

/// The clauses of [`pairwise_spec`].
pub fn pairwise_lits(keys: &Vec<AtomKey>) -> (r: Vec<Vec<RawLit>>)
    ensures
        clauses_v(r@) == pairwise_spec(crate::table::key_views(keys@)),
{
    let ghost kv = crate::table::key_views(keys@);
    let n = keys.len();
    let mut r: Vec<Vec<RawLit>> = Vec::new();
    let mut i: usize = 0;
    proof {
        assert(kv.subrange(0, n as int) =~= kv);
    }
    while i < n
        invariant
            n == keys@.len(),
            kv == crate::table::key_views(keys@),
            i <= n,
            clauses_v(r@) + pairwise_spec(kv.subrange(i as int, n as int)) == pairwise_spec(kv),
        decreases n - i,
    {
        let ghost rest = kv.subrange(i as int, n as int);
        let ghost r0 = clauses_v(r@);
        let mut j: usize = i + 1;
        while j < n
            invariant
                n == keys@.len(),
                kv == crate::table::key_views(keys@),
                i < n,
                i + 1 <= j <= n,
                rest == kv.subrange(i as int, n as int),
                clauses_v(r@) == r0 + rest.drop_first().subrange(0, j - i - 1).map_values(
                    |x: KeyV| seq![(rest[0], false), (x, false)],
                ),
            decreases n - j,
        {
            let mut c: Vec<RawLit> = Vec::new();
            c.push(RawLit { key: copy_key(&keys[i]), negated: false });
            c.push(RawLit { key: copy_key(&keys[j]), negated: false });
            let ghost rr = r@;
            let ghost cc = c;
            proof {
                assert(kv[i as int] == keys@[i as int]@ && kv[j as int] == keys@[j as int]@);
                assert(rest[0] == kv[i as int]);
                assert(rest.drop_first()[j - i - 1] == kv[j as int]);
                assert(lits_v(c@) =~= seq![(rest[0], false), (rest.drop_first()[j - i - 1], false)]);
            }
            r.push(c);
            proof {
                lemma_clauses_push(rr, cc);
                assert(clauses_v(r@) =~= r0 + rest.drop_first().subrange(0, j - i).map_values(
                    |x: KeyV| seq![(rest[0], false), (x, false)],
                ));
            }
            j = j + 1;
        }
        proof {
            assert(rest.drop_first().subrange(0, n - i - 1) =~= rest.drop_first());
            assert(rest.drop_first() =~= kv.subrange(i + 1, n as int));
            assert(clauses_v(r@) + pairwise_spec(kv.subrange(i + 1, n as int)) =~= r0
                + pairwise_spec(rest));
        }
        i = i + 1;
    }
    proof {
        assert(kv.subrange(n as int, n as int) =~= Seq::<KeyV>::empty());
        assert(clauses_v(r@) =~= clauses_v(r@) + pairwise_spec(kv.subrange(n as int, n as int)));
    }
    r
}

/// The clause of [`at_least_one_spec`].
pub fn at_least_one_lits(keys: &Vec<AtomKey>) -> (r: Vec<RawLit>)
    ensures
        lits_v(r@) == at_least_one_spec(crate::table::key_views(keys@)),
{
    let mut r: Vec<RawLit> = Vec::new();
    let mut i: usize = 0;
    while i < keys.len()
        invariant
            i <= keys@.len(),
            lits_v(r@) == at_least_one_spec(crate::table::key_views(keys@)).subrange(0, i as int),
        decreases keys@.len() - i,
    {
        let ghost r0 = r@;
        let x = RawLit { key: copy_key(&keys[i]), negated: true };
        let ghost xv = x;
        r.push(x);
        proof {
            lemma_lits_push(r0, xv);
            assert(lits_v(r@) =~= at_least_one_spec(crate::table::key_views(keys@)).subrange(
                0,
                i + 1,
            ));
        }
        i = i + 1;
    }
    proof {
        assert(at_least_one_spec(crate::table::key_views(keys@)).subrange(0, keys@.len() as int)
            =~= at_least_one_spec(crate::table::key_views(keys@)));
    }
    r
}

fn groups_ante(ante: &Vec<RawLit>, conn: Conn) -> (r: Vec<Vec<RawLit>>)
    ensures
        clauses_v(r@) == ante_groups(lits_v(ante@), conn),
{
    let mut r: Vec<Vec<RawLit>> = Vec::new();
    match conn {
        Conn::And => {
            r.push(copy_lits(ante));
            proof {
                assert(clauses_v(r@) =~= ante_groups(lits_v(ante@), conn));
            }
        },
        Conn::Or => {
            let mut i: usize = 0;
            while i < ante.len()
                invariant
                    conn == Conn::Or,
                    i <= ante@.len(),
                    clauses_v(r@) == ante_groups(lits_v(ante@), conn).subrange(0, i as int),
                decreases ante@.len() - i,
            {
                let mut g: Vec<RawLit> = Vec::new();
                g.push(copy_lit(&ante[i]));
                let ghost rr = r@;
                let ghost gg = g;
                proof {
                    assert(lits_v(g@) =~= seq![lits_v(ante@)[i as int]]);
                }
                r.push(g);
                proof {
                    lemma_clauses_push(rr, gg);
                    assert(clauses_v(r@) =~= ante_groups(lits_v(ante@), conn).subrange(0, i + 1));
                }
                i = i + 1;
            }
            proof {
                assert(ante_groups(lits_v(ante@), conn).subrange(0, ante@.len() as int)
                    =~= ante_groups(lits_v(ante@), conn));
            }
        },
    }
    r
}

fn groups_cons(cons: &Vec<RawLit>, conn: Conn) -> (r: Vec<Vec<RawLit>>)
    ensures
        clauses_v(r@) == cons_groups(lits_v(cons@), conn),
{
    let mut r: Vec<Vec<RawLit>> = Vec::new();
    match conn {
        Conn::Or => {
            r.push(copy_lits(cons));
            proof {
                assert(clauses_v(r@) =~= cons_groups(lits_v(cons@), conn));
            }
        },
        Conn::And => {
            let mut i: usize = 0;
            while i < cons.len()
                invariant
                    conn == Conn::And,
                    i <= cons@.len(),
                    clauses_v(r@) == cons_groups(lits_v(cons@), conn).subrange(0, i as int),
                decreases cons@.len() - i,
            {
                let mut g: Vec<RawLit> = Vec::new();
                g.push(copy_lit(&cons[i]));
                let ghost rr = r@;
                let ghost gg = g;
                proof {
                    assert(lits_v(g@) =~= seq![lits_v(cons@)[i as int]]);
                }
                r.push(g);
                proof {
                    lemma_clauses_push(rr, gg);
                    assert(clauses_v(r@) =~= cons_groups(lits_v(cons@), conn).subrange(0, i + 1));
                }
                i = i + 1;
            }
            proof {
                assert(cons_groups(lits_v(cons@), conn).subrange(0, cons@.len() as int)
                    =~= cons_groups(lits_v(cons@), conn));
            }
        },
    }
    r
}

/// A group's literals followed by another group's literals negated.
fn join_negated(ag: &Vec<RawLit>, cg: &Vec<RawLit>) -> (r: Vec<RawLit>)
    ensures
        lits_v(r@) == lits_v(ag@) + lits_v(cg@).map_values(|l: LitV| negate(l)),
{
    let mut r = copy_lits(ag);
    let mut k: usize = 0;
    while k < cg.len()
        invariant
            k <= cg@.len(),
            lits_v(r@) == lits_v(ag@) + lits_v(cg@).map_values(|l: LitV| negate(l)).subrange(
                0,
                k as int,
            ),
        decreases cg@.len() - k,
    {
        let ghost r0 = r@;
        let x = RawLit { key: copy_key(&cg[k].key), negated: !cg[k].negated };
        let ghost xv = x;
        r.push(x);
        proof {
            lemma_lits_push(r0, xv);
            assert(lits_v(cg@)[k as int] == lit_v(cg@[k as int]));
            assert(lits_v(r@) =~= lits_v(ag@) + lits_v(cg@).map_values(|l: LitV| negate(l)).subrange(
                0,
                k + 1,
            ));
        }
        k = k + 1;
    }
    proof {
        assert(lits_v(cg@).map_values(|l: LitV| negate(l)).subrange(0, cg@.len() as int)
            =~= lits_v(cg@).map_values(|l: LitV| negate(l)));
    }
    r
}

/// The clauses of [`impl_spec`].
pub fn impl_lits(ante: &Vec<RawLit>, ac: Conn, cons: &Vec<RawLit>, cc: Conn) -> (r: Vec<
    Vec<RawLit>,
>)
    ensures
        clauses_v(r@) == impl_spec(lits_v(ante@), ac, lits_v(cons@), cc),
{
    let ags = groups_ante(ante, ac);
    let cgs = groups_cons(cons, cc);
    let ghost agv = clauses_v(ags@);
    let ghost cgv = clauses_v(cgs@);
    let n = ags.len();
    let mut r: Vec<Vec<RawLit>> = Vec::new();
    let mut i: usize = 0;
    proof {
        assert(agv.subrange(0, n as int) =~= agv);
    }
    while i < n
        invariant
            n == ags@.len(),
            agv == clauses_v(ags@),
            cgv == clauses_v(cgs@),
            i <= n,
            clauses_v(r@) + grid_spec(agv.subrange(i as int, n as int), cgv) == grid_spec(agv, cgv),
        decreases n - i,
    {
        let ghost rest = agv.subrange(i as int, n as int);
        let ghost r0 = clauses_v(r@);
        let ghost row = cgv.map_values(
            |cg: Seq<LitV>| rest[0] + cg.map_values(|l: LitV| negate(l)),
        );
        let mut j: usize = 0;
        while j < cgs.len()
            invariant
                n == ags@.len(),
                agv == clauses_v(ags@),
                cgv == clauses_v(cgs@),
                i < n,
                j <= cgs@.len(),
                rest == agv.subrange(i as int, n as int),
                row == cgv.map_values(|cg: Seq<LitV>| rest[0] + cg.map_values(|l: LitV| negate(l))),
                clauses_v(r@) == r0 + row.subrange(0, j as int),
            decreases cgs@.len() - j,
        {
            let c = join_negated(&ags[i], &cgs[j]);
            let ghost rr = r@;
            let ghost cc = c;
            r.push(c);
            proof {
                lemma_clauses_push(rr, cc);
                assert(rest[0] == agv[i as int]);
                assert(agv[i as int] == lits_v(ags@[i as int]@));
                assert(cgv[j as int] == lits_v(cgs@[j as int]@));
                assert(clauses_v(r@) =~= r0 + row.subrange(0, j + 1));
            }
            j = j + 1;
        }
        proof {
            assert(row.subrange(0, cgs@.len() as int) =~= row);
            assert(rest.drop_first() =~= agv.subrange(i + 1, n as int));
            assert(clauses_v(r@) + grid_spec(agv.subrange(i + 1, n as int), cgv) =~= r0 + grid_spec(
                rest,
                cgv,
            ));
        }
        i = i + 1;
    }
    proof {
        assert(agv.subrange(n as int, n as int) =~= Seq::<Seq<LitV>>::empty());
        assert(clauses_v(r@) =~= clauses_v(r@) + grid_spec(
            agv.subrange(n as int, n as int),
            cgv,
        ));
    }
    r
}

// --- clause identity ------------------------------------------------------------

/// Two clauses are the same constraint when they hold the same literals
/// (order and repetition do not matter: `P ∧ P ≡ P`).
pub open spec fn same_clause(a: Seq<LitV>, b: Seq<LitV>) -> bool {
    a.to_set() == b.to_set()
}

fn lit_eq(a: &RawLit, b: &RawLit) -> (r: bool)
    ensures
        r == (lit_v(*a) == lit_v(*b)),
{
    a.negated == b.negated && compare_keys(&a.key, &b.key) == Order::Equal
}

fn holds_lit(v: &Vec<RawLit>, l: &RawLit) -> (r: bool)
    ensures
        r == lits_v(v@).contains(lit_v(*l)),
{
    let mut i: usize = 0;
    while i < v.len()
        invariant
            i <= v@.len(),
            forall|j: int| 0 <= j < i ==> lits_v(v@)[j] != lit_v(*l),
        decreases v@.len() - i,
    {
        if lit_eq(&v[i], l) {
            proof {
                assert(lits_v(v@)[i as int] == lit_v(*l));
            }
            return true;
        }
        i = i + 1;
    }
    false
}

fn lits_within(a: &Vec<RawLit>, b: &Vec<RawLit>) -> (r: bool)
    ensures
        r == lits_v(a@).to_set().subset_of(lits_v(b@).to_set()),
{
    let mut i: usize = 0;
    while i < a.len()
        invariant
            i <= a@.len(),
            forall|j: int| 0 <= j < i ==> lits_v(b@).contains(#[trigger] lits_v(a@)[j]),
        decreases a@.len() - i,
    {
        if !holds_lit(b, &a[i]) {
            proof {
                assert(lits_v(a@).to_set().contains(lits_v(a@)[i as int]));
            }
            return false;
        }
        i = i + 1;
    }
    proof {
        assert forall|x: LitV| lits_v(a@).to_set().contains(x) implies lits_v(b@).to_set().contains(x) by {
            let j = choose|j: int| 0 <= j < lits_v(a@).len() && lits_v(a@)[j] == x;
        }
    }
    true
}

/// Whether two clauses hold the same literals.
pub fn same_lits(a: &Vec<RawLit>, b: &Vec<RawLit>) -> (r: bool)
    ensures
        r == same_clause(lits_v(a@), lits_v(b@)),
{
    let x = lits_within(a, b);
    let y = lits_within(b, a);
    proof {
        if x && y {
            assert(lits_v(a@).to_set() =~= lits_v(b@).to_set());
        }
    }
    x && y
}

// --- domain context ---------------------------------------------------------------

/// The domain context one file is compiled in: its own declared domain (where
/// bare atoms fall) and the local names it may qualify atoms with.
pub struct DomainCtx {
    /// The file's own domain.
    pub current: String,
    /// `(local name, canonical domain)` for every name visible in the file.
    pub aliases: Vec<(String, String)>,
}

/// The first binding of `name` among `aliases`.
pub open spec fn alias_lookup(aliases: Seq<(String, String)>, name: Seq<char>) -> Option<Seq<char>>
    decreases aliases.len(),
{
    if aliases.len() == 0 {
        None
    } else if aliases[0].0@ == name {
        Some(aliases[0].1@)
    } else {
        alias_lookup(aliases.drop_first(), name)
    }
}

/// The canonical domain an optional `domain.` prefix names in `ctx`: the
/// file's own domain without a prefix, else the prefix's binding.
pub open spec fn resolve_spec(ctx: DomainCtx, prefix: Option<Seq<char>>) -> Option<Seq<char>> {
    match prefix {
        None => Some(ctx.current@),
        Some(p) => alias_lookup(ctx.aliases@, p),
    }
}

/// Binder substitutions `(name, value)` as character sequences.
pub open spec fn subs_v(subs: Seq<(String, String)>) -> Seq<(Seq<char>, Seq<char>)> {
    subs.map_values(|p: (String, String)| (p.0@, p.1@))
}

/// An identifier with the first matching binder replaced by its value.
pub open spec fn subst_id(s: Seq<char>, subs: Seq<(Seq<char>, Seq<char>)>) -> Seq<char>
    decreases subs.len(),
{
    if subs.len() == 0 {
        s
    } else if subs[0].0 == s {
        subs[0].1
    } else {
        subst_id(s, subs.drop_first())
    }
}

/// An optional identifier with binders replaced.
pub open spec fn subst_opt(o: Option<Seq<char>>, subs: Seq<(Seq<char>, Seq<char>)>) -> Option<Seq<char>> {
    match o {
        Some(s) => Some(subst_id(s, subs)),
        None => None,
    }
}

/// The identity an atom has in `ctx` once the binders `subs` are replaced in
/// its subject, predicate and object, if its prefix resolves.
pub open spec fn key_spec(ctx: DomainCtx, a: Atom, subs: Seq<(Seq<char>, Seq<char>)>) -> Option<KeyV> {
    match resolve_spec(ctx, opt_view(a.domain)) {
        Some(d) => Some(
            KeyV {
                domain: d,
                subject: subst_id(a.subject@, subs),
                predicate: subst_opt(opt_view(a.predicate), subs),
                object: subst_opt(opt_view(a.object), subs),
            },
        ),
        None => None,
    }
}

/// Replace a binder in one identifier; a non-binder passes through.
pub fn subst_ident(s: &String, subs: &Vec<(String, String)>) -> (r: String)
    ensures
        r@ == subst_id(s@, subs_v(subs@)),
{
    let mut i: usize = 0;
    proof {
        assert(subs_v(subs@).subrange(0, subs@.len() as int) =~= subs_v(subs@));
    }
    while i < subs.len()
        invariant
            i <= subs@.len(),
            subst_id(s@, subs_v(subs@)) == subst_id(s@, subs_v(subs@).subrange(i as int, subs@.len() as int)),
        decreases subs@.len() - i,
    {
        let ghost rest = subs_v(subs@).subrange(i as int, subs@.len() as int);
        proof {
            assert(rest[0] == (subs@[i as int].0@, subs@[i as int].1@));
            assert(rest.drop_first() =~= subs_v(subs@).subrange(i + 1, subs@.len() as int));
        }
        if crate::ir::compare_strings(&subs[i].0, s) == Order::Equal {
            return subs[i].1.clone();
        }
        i = i + 1;
    }
    proof {
        assert(subs_v(subs@).subrange(subs@.len() as int, subs@.len() as int).len() == 0);
    }
    s.clone()
}

fn subst_opt_exec(o: &Option<String>, subs: &Vec<(String, String)>) -> (r: Option<String>)
    ensures
        opt_view(r) == subst_opt(opt_view(*o), subs_v(subs@)),
{
    match o {
        Some(s) => Some(subst_ident(s, subs)),
        None => None,
    }
}

impl DomainCtx {
    /// Resolve an optional `domain.` prefix to a canonical domain; a prefix not
    /// bound here is an `UnknownDomain` error.
    pub fn resolve(&self, prefix: &Option<String>) -> (r: Result<String, CompileError>)
        ensures
            match r {
                Ok(d) => resolve_spec(*self, opt_view(*prefix)) == Some(d@),
                Err(e) => resolve_spec(*self, opt_view(*prefix)) is None && (
                e matches CompileError::UnknownDomain { domain } && Some(domain@) == opt_view(*prefix)),
            },
    {
        match prefix {
            None => Ok(self.current.clone()),
            Some(p) => {
                let mut i: usize = 0;
                proof {
                    assert(self.aliases@.subrange(0, self.aliases@.len() as int) =~= self.aliases@);
                }
                while i < self.aliases.len()
                    invariant
                        opt_view(*prefix) == Some(p@),
                        i <= self.aliases@.len(),
                        alias_lookup(self.aliases@, p@) == alias_lookup(
                            self.aliases@.subrange(i as int, self.aliases@.len() as int),
                            p@,
                        ),
                    decreases self.aliases@.len() - i,
                {
                    let ghost rest = self.aliases@.subrange(i as int, self.aliases@.len() as int);
                    proof {
                        assert(rest[0] == self.aliases@[i as int]);
                        assert(rest.drop_first() =~= self.aliases@.subrange(
                            i + 1,
                            self.aliases@.len() as int,
                        ));
                    }
                    if crate::ir::compare_strings(&self.aliases[i].0, p) == Order::Equal {
                        proof {
                            assert(rest.len() > 0);
                            assert(rest[0].0@ == p@);
                            assert(alias_lookup(rest, p@) == Some(rest[0].1@));
                        }
                        let d = self.aliases[i].1.clone();
                        proof {
                            assert(d@ == rest[0].1@);
                            assert(resolve_spec(*self, opt_view(*prefix)) == Some(d@));
                        }
                        return Ok(d);
                    }
                    i = i + 1;
                }
                Err(CompileError::UnknownDomain { domain: p.clone() })
            },
        }
    }

    /// The identity of an atom in this context, with the binders `subs`
    /// replaced.
    pub fn key(&self, a: &Atom, subs: &Vec<(String, String)>) -> (r: Result<AtomKey, CompileError>)
        ensures
            match r {
                Ok(k) => key_spec(*self, *a, subs_v(subs@)) == Some(k@),
                Err(e) => key_spec(*self, *a, subs_v(subs@)) is None && e is UnknownDomain,
            },
    {
        let domain = self.resolve(&a.domain)?;
        Ok(
            AtomKey {
                domain,
                subject: subst_ident(&a.subject, subs),
                predicate: subst_opt_exec(&a.predicate, subs),
                object: subst_opt_exec(&a.object, subs),
            },
        )
    }
}

/// The identities of a list of atoms in `ctx`, if every prefix resolves.
pub open spec fn keys_spec(ctx: DomainCtx, atoms: Seq<Located<Atom>>, subs: Seq<(Seq<char>, Seq<char>)>) -> Option<Seq<KeyV>>
    decreases atoms.len(),
{
    if atoms.len() == 0 {
        Some(Seq::empty())
    } else {
        match (keys_spec(ctx, atoms.drop_last(), subs), key_spec(ctx, atoms.last().data, subs)) {
            (Some(ks), Some(k)) => Some(ks.push(k)),
            _ => None,
        }
    }
}

/// The literals of a list of located literals in `ctx`, if every prefix
/// resolves.
pub open spec fn lits_spec(ctx: DomainCtx, lits: Seq<Located<Literal>>, subs: Seq<(Seq<char>, Seq<char>)>) -> Option<Seq<LitV>>
    decreases lits.len(),
{
    if lits.len() == 0 {
        Some(Seq::empty())
    } else {
        match (lits_spec(ctx, lits.drop_last(), subs), key_spec(ctx, lits.last().data.atom, subs)) {
            (Some(ls), Some(k)) => Some(ls.push((k, lits.last().data.negated))),
            _ => None,
        }
    }
}

/// Resolve every atom of a list.
pub fn resolve_atoms(ctx: &DomainCtx, atoms: &Vec<Located<Atom>>, subs: &Vec<(String, String)>) -> (r: Result<
    Vec<AtomKey>,
    CompileError,
>)
    ensures
        match r {
            Ok(ks) => keys_spec(*ctx, atoms@, subs_v(subs@)) == Some(crate::table::key_views(ks@)),
            Err(e) => keys_spec(*ctx, atoms@, subs_v(subs@)) is None && e is UnknownDomain,
        },
{
    let mut ks: Vec<AtomKey> = Vec::new();
    let mut i: usize = 0;
    while i < atoms.len()
        invariant
            i <= atoms@.len(),
            keys_spec(*ctx, atoms@.subrange(0, i as int), subs_v(subs@)) == Some(
                crate::table::key_views(ks@),
            ),
        decreases atoms@.len() - i,
    {
        proof {
            assert(atoms@.subrange(0, i + 1).drop_last() =~= atoms@.subrange(0, i as int));
        }
        match ctx.key(&atoms[i].data, subs) {
            Ok(k) => {
                ks.push(k);
                proof {
                    assert(crate::table::key_views(ks@) =~= crate::table::key_views(ks@.drop_last()).push(k@));
                }
            },
            Err(e) => {
                proof {
                    lemma_keys_spec_none(*ctx, atoms@, subs_v(subs@), i as int);
                }
                return Err(e);
            },
        }
        i = i + 1;
    }
    proof {
        assert(atoms@.subrange(0, atoms@.len() as int) =~= atoms@);
    }
    Ok(ks)
}

/// Once one atom fails to resolve, the whole list does.
proof fn lemma_keys_spec_none(ctx: DomainCtx, atoms: Seq<Located<Atom>>, subs: Seq<(Seq<char>, Seq<char>)>, i: int)
    requires
        0 <= i < atoms.len(),
        key_spec(ctx, atoms[i].data, subs) is None,
    ensures
        keys_spec(ctx, atoms, subs) is None,
    decreases atoms.len(),
{
    if i < atoms.len() - 1 {
        assert(atoms.drop_last()[i] == atoms[i]);
        lemma_keys_spec_none(ctx, atoms.drop_last(), subs, i);
    }
}

/// Once one literal fails to resolve, the whole list does.
proof fn lemma_lits_spec_none(ctx: DomainCtx, lits: Seq<Located<Literal>>, subs: Seq<(Seq<char>, Seq<char>)>, i: int)
    requires
        0 <= i < lits.len(),
        key_spec(ctx, lits[i].data.atom, subs) is None,
    ensures
        lits_spec(ctx, lits, subs) is None,
    decreases lits.len(),
{
    if i < lits.len() - 1 {
        assert(lits.drop_last()[i] == lits[i]);
        lemma_lits_spec_none(ctx, lits.drop_last(), subs, i);
    }
}

/// Resolve every literal of a list.
pub fn resolve_lits(ctx: &DomainCtx, lits: &Vec<Located<Literal>>, subs: &Vec<(String, String)>) -> (r: Result<
    Vec<RawLit>,
    CompileError,
>)
    ensures
        match r {
            Ok(ls) => lits_spec(*ctx, lits@, subs_v(subs@)) == Some(lits_v(ls@)),
            Err(e) => lits_spec(*ctx, lits@, subs_v(subs@)) is None && e is UnknownDomain,
        },
{
    let mut ls: Vec<RawLit> = Vec::new();
    let mut i: usize = 0;
    while i < lits.len()
        invariant
            i <= lits@.len(),
            lits_spec(*ctx, lits@.subrange(0, i as int), subs_v(subs@)) == Some(lits_v(ls@)),
        decreases lits@.len() - i,
    {
        proof {
            assert(lits@.subrange(0, i + 1).drop_last() =~= lits@.subrange(0, i as int));
        }
        match ctx.key(&lits[i].data.atom, subs) {
            Ok(k) => {
                ls.push(RawLit { key: k, negated: lits[i].data.negated });
                proof {
                    assert(lits_v(ls@) =~= lits_v(ls@.drop_last()).push(lit_v(ls@.last())));
                }
            },
            Err(e) => {
                proof {
                    lemma_lits_spec_none(*ctx, lits@, subs_v(subs@), i as int);
                }
                return Err(e);
            },
        }
        i = i + 1;
    }
    proof {
        assert(lits@.subrange(0, lits@.len() as int) =~= lits@);
    }
    Ok(ls)
}

/// The identity of an atom after two rounds of substitution: first `outer`
/// (an enclosing `FOR EACH`), then `inner` (an `EXISTS` binder).
pub open spec fn key2_spec(
    ctx: DomainCtx,
    a: Atom,
    outer: Seq<(Seq<char>, Seq<char>)>,
    inner: Seq<(Seq<char>, Seq<char>)>,
) -> Option<KeyV> {
    match resolve_spec(ctx, opt_view(a.domain)) {
        Some(d) => Some(
            KeyV {
                domain: d,
                subject: subst_id(subst_id(a.subject@, outer), inner),
                predicate: subst_opt(subst_opt(opt_view(a.predicate), outer), inner),
                object: subst_opt(subst_opt(opt_view(a.object), outer), inner),
            },
        ),
        None => None,
    }
}

impl DomainCtx {
    /// The identity of an atom after substituting `outer`, then `inner`.
    pub fn key2(&self, a: &Atom, outer: &Vec<(String, String)>, inner: &Vec<(String, String)>) -> (r: Result<AtomKey, CompileError>)
        ensures
            match r {
                Ok(k) => key2_spec(*self, *a, subs_v(outer@), subs_v(inner@)) == Some(k@),
                Err(e) => key2_spec(*self, *a, subs_v(outer@), subs_v(inner@)) is None && e is UnknownDomain,
            },
    {
        let domain = self.resolve(&a.domain)?;
        let s1 = subst_ident(&a.subject, outer);
        let p1 = subst_opt_exec(&a.predicate, outer);
        let o1 = subst_opt_exec(&a.object, outer);
        Ok(
            AtomKey {
                domain,
                subject: subst_ident(&s1, inner),
                predicate: subst_opt_exec(&p1, inner),
                object: subst_opt_exec(&o1, inner),
            },
        )
    }
}

// --- which atoms the clause shapes mention ---------------------------------------

/// Every literal of every clause has its atom in `s`.
pub open spec fn keys_within(cs: Seq<Seq<LitV>>, s: Set<KeyV>) -> bool {
    forall|i: int, j: int| 0 <= i < cs.len() && 0 <= j < cs[i].len() ==> s.contains((#[trigger] cs[i][j]).0)
}

/// The pairwise clauses mention only the listed atoms.
pub proof fn lemma_pairwise_keys(kv: Seq<KeyV>)
    ensures
        keys_within(pairwise_spec(kv), kv.to_set()),
    decreases kv.len(),
{
    if kv.len() > 0 {
        let rest = kv.drop_first();
        lemma_pairwise_keys(rest);
        let row = rest.map_values(|r: KeyV| seq![(kv[0], false), (r, false)]);
        let pw = pairwise_spec(kv);
        assert(pw == row + pairwise_spec(rest));
        assert forall|i: int, j: int| 0 <= i < pw.len() && 0 <= j < pw[i].len() implies kv.to_set().contains((#[trigger] pw[i][j]).0) by {
            if i < row.len() {
                assert(pw[i] == row[i]);
                assert(kv[i + 1] == rest[i]);
                assert(kv.contains(kv[0]));
                assert(kv.contains(kv[i + 1]));
            } else {
                let x = pairwise_spec(rest)[i - row.len()][j].0;
                assert(pw[i] == pairwise_spec(rest)[i - row.len()]);
                assert(rest.to_set().contains(x));
                let k = choose|k: int| 0 <= k < rest.len() && rest[k] == x;
                assert(kv[k + 1] == x);
                assert(kv.contains(x));
            }
        }
    }
}

/// The at-least-one clause mentions only the listed atoms.
pub proof fn lemma_alo_keys(kv: Seq<KeyV>)
    ensures
        keys_within(seq![at_least_one_spec(kv)], kv.to_set()),
{
    let c = seq![at_least_one_spec(kv)];
    assert forall|i: int, j: int| 0 <= i < c.len() && 0 <= j < c[i].len() implies kv.to_set().contains((#[trigger] c[i][j]).0) by {
        assert(c[i][j].0 == kv[j]);
        assert(kv.contains(kv[j]));
    }
}

/// The keys of a literal list.
pub open spec fn lit_keys(ls: Seq<LitV>) -> Set<KeyV> {
    ls.map_values(|l: LitV| l.0).to_set()
}

/// The implication clauses mention only the atoms of their two sides.
pub proof fn lemma_impl_keys(a: Seq<LitV>, ac: Conn, c: Seq<LitV>, cc: Conn)
    ensures
        keys_within(impl_spec(a, ac, c, cc), lit_keys(a) + lit_keys(c)),
{
    let s = lit_keys(a) + lit_keys(c);
    let ags = ante_groups(a, ac);
    let cgs = cons_groups(c, cc);
    assert forall|i: int, j: int| 0 <= i < ags.len() && 0 <= j < ags[i].len() implies s.contains((#[trigger] ags[i][j]).0) by {
        match ac {
            Conn::And => {
                assert(ags[i] == a);
            },
            Conn::Or => {
                assert(ags[i] == seq![a[i]]);
                assert(j == 0);
            },
        }
        assert(ags[i][j] == a[if ac == Conn::And { j } else { i }]);
        let k = if ac == Conn::And { j } else { i };
        assert(a.map_values(|l: LitV| l.0)[k] == a[k].0);
    }
    assert forall|i: int, j: int| 0 <= i < cgs.len() && 0 <= j < cgs[i].len() implies s.contains((#[trigger] cgs[i][j]).0) by {
        match cc {
            Conn::Or => {
                assert(cgs[i] == c);
            },
            Conn::And => {
                assert(cgs[i] == seq![c[i]]);
                assert(j == 0);
            },
        }
        let k = if cc == Conn::Or { j } else { i };
        assert(cgs[i][j] == c[k]);
        assert(c.map_values(|l: LitV| l.0)[k] == c[k].0);
    }
    lemma_grid_keys(ags, cgs, s);
}

proof fn lemma_grid_keys(ags: Seq<Seq<LitV>>, cgs: Seq<Seq<LitV>>, s: Set<KeyV>)
    requires
        keys_within(ags, s),
        keys_within(cgs, s),
    ensures
        keys_within(grid_spec(ags, cgs), s),
    decreases ags.len(),
{
    if ags.len() > 0 {
        let rest = ags.drop_first();
        assert(keys_within(rest, s)) by {
            assert forall|i: int, j: int| 0 <= i < rest.len() && 0 <= j < rest[i].len() implies s.contains((#[trigger] rest[i][j]).0) by {
                assert(rest[i] == ags[i + 1]);
            }
        }
        lemma_grid_keys(rest, cgs, s);
        let row = cgs.map_values(|cg: Seq<LitV>| ags[0] + cg.map_values(|l: LitV| negate(l)));
        let g = grid_spec(ags, cgs);
        assert(g == row + grid_spec(rest, cgs));
        assert forall|i: int, j: int| 0 <= i < g.len() && 0 <= j < g[i].len() implies s.contains((#[trigger] g[i][j]).0) by {
            if i < row.len() {
                assert(g[i] == row[i]);
                if j < ags[0].len() {
                    assert(g[i][j] == ags[0][j]);
                } else {
                    assert(g[i][j] == negate(cgs[i][j - ags[0].len()]));
                    assert(g[i][j].0 == cgs[i][j - ags[0].len()].0);
                }
            } else {
                assert(g[i] == grid_spec(rest, cgs)[i - row.len()]);
            }
        }
    }
}

/// Candidate clauses whose literals' atoms are all in `s`, by position.
pub proof fn lemma_cands_keys(cands: Seq<Vec<RawLit>>, s: Set<KeyV>)
    requires
        keys_within(clauses_v(cands), s),
    ensures
        forall|i: int, j: int| 0 <= i < cands.len() && 0 <= j < cands[i]@.len() ==> s.contains((#[trigger] cands[i]@[j]).key@),
{
    assert forall|i: int, j: int| 0 <= i < cands.len() && 0 <= j < cands[i]@.len() implies s.contains((#[trigger] cands[i]@[j]).key@) by {
        assert(clauses_v(cands)[i] == lits_v(cands[i]@));
        assert(lits_v(cands[i]@)[j] == lit_v(cands[i]@[j]));
    }
}

} // verus!
