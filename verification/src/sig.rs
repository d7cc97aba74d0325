//! Canonical signatures: the order-independent text a named construct's body
//! is hashed from (so reordering a body is not a redefinition, but changing it
//! is).
use vstd::prelude::*;
use crate::ast::{Body, Conn, ListOp, Located, Literal, Quant};
use crate::error::CompileError;
use crate::ir::{AtomKey, KeyV};
use crate::kw;
use crate::lower::{DomainCtx, LitV, RawLit, key_spec, keys_spec, lit_v, lits_spec, lits_v, resolve_atoms, resolve_lits, subs_v};
use crate::table::{lemma_string_views_push, sort_strings, str_le, string_views};
use crate::text::{push_char, push_str, push_string};

verus! {

/// The text of an optional part (empty when absent).
pub open spec fn opt_text(o: Option<Seq<char>>) -> Seq<char> {
    match o {
        Some(s) => s,
        None => Seq::empty(),
    }
}

/// `domain|subject|predicate|object`, absent parts empty.
pub open spec fn key_sig_spec(k: KeyV) -> Seq<char> {
    k.domain + "|"@ + k.subject + "|"@ + opt_text(k.predicate) + "|"@ + opt_text(k.object)
}

/// A literal's key signature followed by `|1` when negated, `|0` otherwise.
pub open spec fn lit_sig_spec(l: LitV) -> Seq<char> {
    key_sig_spec(l.0) + (if l.1 {
        "|1"@
    } else {
        "|0"@
    })
}

/// `parts` joined with `sep` between consecutive parts.
pub open spec fn join_spec(parts: Seq<Seq<char>>, sep: Seq<char>) -> Seq<char>
    decreases parts.len(),
{
    if parts.len() == 0 {
        Seq::empty()
    } else if parts.len() == 1 {
        parts[0]
    } else {
        join_spec(parts.drop_last(), sep) + sep + parts.last()
    }
}

fn push_opt(s: &mut String, o: &Option<String>)
    ensures
        final(s)@ == old(s)@ + opt_text(crate::ir::opt_view(*o)),
{
    match o {
        Some(t) => push_string(s, t),
        None => {
            proof {
                assert(old(s)@ + Seq::<char>::empty() =~= old(s)@);
            }
        },
    }
}

/// The signature of an atom identity.
pub fn key_sig(k: &AtomKey) -> (r: String)
    ensures
        r@ == key_sig_spec(k@),
{
    let mut s = String::new();
    push_string(&mut s, &k.domain);
    push_str(&mut s, "|");
    push_string(&mut s, &k.subject);
    push_str(&mut s, "|");
    push_opt(&mut s, &k.predicate);
    push_str(&mut s, "|");
    push_opt(&mut s, &k.object);
    proof {
        assert(s@ =~= key_sig_spec(k@));
    }
    s
}

/// The signature of a literal.
pub fn lit_sig(l: &RawLit) -> (r: String)
    ensures
        r@ == lit_sig_spec(lit_v(*l)),
{
    let mut s = key_sig(&l.key);
    if l.negated {
        push_str(&mut s, "|1");
    } else {
        push_str(&mut s, "|0");
    }
    s
}

/// `parts` joined with `sep`.
pub fn join_strings(parts: &Vec<String>, sep: &str) -> (r: String)
    ensures
        r@ == join_spec(string_views(parts@), sep@),
{
    let mut s = String::new();
    let mut i: usize = 0;
    while i < parts.len()
        invariant
            i <= parts@.len(),
            s@ == join_spec(string_views(parts@).subrange(0, i as int), sep@),
        decreases parts@.len() - i,
    {
        let ghost before = s@;
        if i > 0 {
            push_str(&mut s, sep);
        }
        push_string(&mut s, &parts[i]);
        proof {
            let sub = string_views(parts@).subrange(0, i + 1);
            assert(sub.drop_last() =~= string_views(parts@).subrange(0, i as int));
            assert(sub.last() == parts@[i as int]@);
            if i == 0 {
                assert(s@ =~= sub[0]);
            }
        }
        i = i + 1;
    }
    proof {
        assert(string_views(parts@).subrange(0, parts@.len() as int) =~= string_views(parts@));
    }
    s
}

/// The surface keyword of a list operator.
pub open spec fn list_kind_spec(op: ListOp) -> Seq<char> {
    match op {
        ListOp::Exclusive => kw::EXCLUSIVE@,
        ListOp::Forbids => kw::FORBIDS@,
        ListOp::OneOf => kw::ONEOF@,
        ListOp::AtLeast => kw::ATLEAST@,
    }
}

/// The surface keyword of a list operator, the `kind` its clauses carry.
pub fn list_kind(op: ListOp) -> (r: &'static str)
    ensures
        r@ == list_kind_spec(op),
{
    match op {
        ListOp::Exclusive => kw::EXCLUSIVE,
        ListOp::Forbids => kw::FORBIDS,
        ListOp::OneOf => kw::ONEOF,
        ListOp::AtLeast => kw::ATLEAST,
    }
}

/// The spelling of a connective in a signature.
pub open spec fn conn_spec(c: Conn) -> Seq<char> {
    match c {
        Conn::And => "AND"@,
        Conn::Or => "OR"@,
    }
}

fn conn_text(c: Conn) -> (r: &'static str)
    ensures
        r@ == conn_spec(c),
{
    match c {
        Conn::And => "AND",
        Conn::Or => "OR",
    }
}

/// The sorted, `;`-joined signatures of a list of keys.
pub open spec fn keys_part(ks: Seq<KeyV>) -> Seq<char> {
    join_spec(ks.map_values(|k: KeyV| key_sig_spec(k)).sort_by(str_le()), ";"@)
}

/// The sorted, `;`-joined signatures of a list of literals.
pub open spec fn lits_part(ls: Seq<LitV>) -> Seq<char> {
    join_spec(ls.map_values(|l: LitV| lit_sig_spec(l)).sort_by(str_le()), ";"@)
}

/// The canonical text of a named construct's body in `ctx`: the kind and
/// name, then the body with each side's signatures sorted (so the order the
/// lines were written in does not matter). `None` when an atom's domain does
/// not resolve.
pub open spec fn canon_spec(name: Seq<char>, body: Body, is_rule: bool, ctx: DomainCtx) -> Option<
    Seq<char>,
> {
    let head = (if is_rule {
        kw::RULE@
    } else {
        kw::PREMISE@
    }) + "|"@ + name + "|"@;
    let none = Seq::<(Seq<char>, Seq<char>)>::empty();
    match body {
        Body::List { op, atoms } => match keys_spec(ctx, atoms@, none) {
            Some(ks) => Some(head + "LIST|"@ + list_kind_spec(op) + "|"@ + keys_part(ks)),
            None => None,
        },
        Body::Impl { antecedent, ante_conn, consequent, cons_conn } => match (
            lits_spec(ctx, antecedent@, none),
            lits_spec(ctx, consequent@, none),
        ) {
            (Some(a), Some(c)) => Some(
                head + "IMPL|ANTE|"@ + conn_spec(ante_conn) + "|"@ + lits_part(a) + "|CONS|"@
                    + conn_spec(cons_conn) + "|"@ + lits_part(c),
            ),
            _ => None,
        },
        Body::Exists { binder, set, atom } => match keys_spec(ctx, seq![atom], none) {
            Some(ks) => Some(
                head + "EXISTS|"@ + binder.data@ + "|"@ + set.data@ + "|"@ + key_sig_spec(ks[0]),
            ),
            None => None,
        },
    }
}

fn key_sigs(ks: &Vec<AtomKey>) -> (r: Vec<String>)
    ensures
        string_views(r@) == crate::table::key_views(ks@).map_values(|k: KeyV| key_sig_spec(k)),
{
    let mut r: Vec<String> = Vec::new();
    let mut i: usize = 0;
    while i < ks.len()
        invariant
            i <= ks@.len(),
            string_views(r@) == crate::table::key_views(ks@).map_values(
                |k: KeyV| key_sig_spec(k),
            ).subrange(0, i as int),
        decreases ks@.len() - i,
    {
        let ghost r0 = r@;
        let x = key_sig(&ks[i]);
        let ghost xv = x;
        r.push(x);
        proof {
            lemma_string_views_push(r0, xv);
            assert(string_views(r@) =~= crate::table::key_views(ks@).map_values(
                |k: KeyV| key_sig_spec(k),
            ).subrange(0, i + 1));
        }
        i = i + 1;
    }
    proof {
        assert(crate::table::key_views(ks@).map_values(|k: KeyV| key_sig_spec(k)).subrange(
            0,
            ks@.len() as int,
        ) =~= crate::table::key_views(ks@).map_values(|k: KeyV| key_sig_spec(k)));
    }
    r
}

fn lit_sigs(ls: &Vec<RawLit>) -> (r: Vec<String>)
    ensures
        string_views(r@) == lits_v(ls@).map_values(|l: LitV| lit_sig_spec(l)),
{
    let mut r: Vec<String> = Vec::new();
    let mut i: usize = 0;
    while i < ls.len()
        invariant
            i <= ls@.len(),
            string_views(r@) == lits_v(ls@).map_values(|l: LitV| lit_sig_spec(l)).subrange(0, i as int),
        decreases ls@.len() - i,
    {
        let ghost r0 = r@;
        let x = lit_sig(&ls[i]);
        let ghost xv = x;
        r.push(x);
        proof {
            lemma_string_views_push(r0, xv);
            assert(lits_v(ls@)[i as int] == lit_v(ls@[i as int]));
            assert(string_views(r@) =~= lits_v(ls@).map_values(|l: LitV| lit_sig_spec(l)).subrange(
                0,
                i + 1,
            ));
        }
        i = i + 1;
    }
    proof {
        assert(lits_v(ls@).map_values(|l: LitV| lit_sig_spec(l)).subrange(0, ls@.len() as int)
            =~= lits_v(ls@).map_values(|l: LitV| lit_sig_spec(l)));
    }
    r
}

/// The canonical text of a named construct's body (see [`canon_spec`]).
pub fn canonical_body(name: &String, body: &Body, is_rule: bool, ctx: &DomainCtx) -> (r: Result<
    String,
    CompileError,
>)
    ensures
        match r {
            Ok(s) => canon_spec(name@, *body, is_rule, *ctx) == Some(s@),
            Err(e) => canon_spec(name@, *body, is_rule, *ctx) is None && e is UnknownDomain,
        },
{
    let none: Vec<(String, String)> = Vec::new();
    proof {
        assert(subs_v(none@) =~= Seq::<(Seq<char>, Seq<char>)>::empty());
    }
    let mut s = String::new();
    if is_rule {
        push_str(&mut s, kw::RULE);
    } else {
        push_str(&mut s, kw::PREMISE);
    }
    push_str(&mut s, "|");
    push_string(&mut s, name);
    push_str(&mut s, "|");
    let ghost head = s@;
    proof {
        assert(head =~= (if is_rule {
            kw::RULE@
        } else {
            kw::PREMISE@
        }) + "|"@ + name@ + "|"@);
    }
    match body {
        Body::List { op, atoms } => {
            let ks = resolve_atoms(ctx, atoms, &none)?;
            proof {
                assert(keys_spec(*ctx, atoms@, Seq::<(Seq<char>, Seq<char>)>::empty()) == Some(crate::table::key_views(ks@)));
            }
            let sigs = key_sigs(&ks);
            let sorted = sort_strings(&sigs);
            push_str(&mut s, "LIST|");
            push_str(&mut s, list_kind(*op));
            push_str(&mut s, "|");
            let joined = join_strings(&sorted, ";");
            push_string(&mut s, &joined);
            proof {
                assert(s@ =~= head + "LIST|"@ + list_kind_spec(*op) + "|"@ + keys_part(
                    crate::table::key_views(ks@),
                ));
                assert(canon_spec(name@, *body, is_rule, *ctx) == Some(s@));
            }
        },
        Body::Impl { antecedent, ante_conn, consequent, cons_conn } => {
            let a = resolve_lits(ctx, antecedent, &none)?;
            let c = resolve_lits(ctx, consequent, &none)?;
            let asorted = sort_strings(&lit_sigs(&a));
            let csorted = sort_strings(&lit_sigs(&c));
            push_str(&mut s, "IMPL|ANTE|");
            push_str(&mut s, conn_text(*ante_conn));
            push_str(&mut s, "|");
            let aj = join_strings(&asorted, ";");
            push_string(&mut s, &aj);
            push_str(&mut s, "|CONS|");
            push_str(&mut s, conn_text(*cons_conn));
            push_str(&mut s, "|");
            let cj = join_strings(&csorted, ";");
            push_string(&mut s, &cj);
            proof {
                assert(s@ =~= head + "IMPL|ANTE|"@ + conn_spec(*ante_conn) + "|"@ + lits_part(
                    lits_v(a@),
                ) + "|CONS|"@ + conn_spec(*cons_conn) + "|"@ + lits_part(lits_v(c@)));
                assert(canon_spec(name@, *body, is_rule, *ctx) == Some(s@));
            }
        },
        Body::Exists { binder, set, atom } => {
            let k = ctx.key(&atom.data, &none);
            proof {
                let one = seq![*atom];
                assert(one.drop_last() =~= Seq::<Located<crate::ast::Atom>>::empty());
                assert(one.last() == *atom);
            }
            let k = k?;
            proof {
                let none_v = Seq::<(Seq<char>, Seq<char>)>::empty();
                let one = seq![*atom];
                assert(key_spec(*ctx, atom.data, none_v) == Some(k@));
                assert(keys_spec(*ctx, one.drop_last(), none_v) == Some(Seq::<KeyV>::empty()));
                assert(keys_spec(*ctx, one, none_v) == Some(Seq::<KeyV>::empty().push(k@)));
                assert(Seq::<KeyV>::empty().push(k@)[0] == k@);
            }
            push_str(&mut s, "EXISTS|");
            push_string(&mut s, &binder.data);
            push_str(&mut s, "|");
            push_string(&mut s, &set.data);
            push_str(&mut s, "|");
            let ksig = key_sig(&k);
            push_string(&mut s, &ksig);
            proof {
                assert(s@ =~= head + "EXISTS|"@ + binder.data@ + "|"@ + set.data@ + "|"@
                    + key_sig_spec(k@));
                assert(canon_spec(name@, *body, is_rule, *ctx) == Some(s@));
            }
        },
    }
    Ok(s)
}

/// The quantifier's part of a redefinition signature.
pub open spec fn quant_sig_spec(q: Quant) -> Seq<char> {
    match q {
        Quant::InSet { binder, set } => "|FOREACH "@ + binder.data@ + " IN "@ + set.data@,
        Quant::Relation { left, predicate, right } => "|FOREACH "@ + left.data@ + " "@
            + predicate.data@ + " "@ + right.data@,
    }
}

/// The canonical signature of a `FOR EACH` quantifier, appended to the body
/// text so two same-named constructs differing only in it still differ.
pub fn quant_sig(q: &Quant) -> (r: String)
    ensures
        r@ == quant_sig_spec(*q),
{
    let mut s = String::new();
    push_str(&mut s, "|FOREACH ");
    match q {
        Quant::InSet { binder, set } => {
            push_string(&mut s, &binder.data);
            push_str(&mut s, " IN ");
            push_string(&mut s, &set.data);
        },
        Quant::Relation { left, predicate, right } => {
            push_string(&mut s, &left.data);
            push_char(&mut s, ' ');
            push_string(&mut s, &predicate.data);
            push_char(&mut s, ' ');
            push_string(&mut s, &right.data);
            proof {
                assert(" "@ =~= seq![' ']) by {
                    reveal_strlit(" ");
                }
            }
        },
    }
    proof {
        assert(s@ =~= quant_sig_spec(*q));
    }
    s
}

} // verus!
