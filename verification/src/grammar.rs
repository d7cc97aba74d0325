//! The grammar: atoms, literals, bodies and statements, and the recovering
//! top-level driver that reports every syntax error in one pass.
//!
//! Once a statement's leading keyword is recognised it is *committed*: every
//! later failure becomes a `Failure` with a precise message (see
//! [`promote`]). The driver records a diagnostic for each broken statement,
//! resynchronises to the next line that starts with a top-level keyword, and
//! carries on.
use vstd::prelude::*;
use crate::ast::{
    Atom, Body, CloseKind, Conn, ListOp, Literal, Located, Program, Quant, Statement, valid_ident,
    wf_atom, wf_body, wf_located_atom, wf_located_literal, wf_name, wf_opt_name, wf_opt_quant,
    wf_program, wf_quant, wf_statement,
};
use crate::diag::{Diagnostic, Diagnostics, make_diag};
use crate::keywords::{Kw, is_keyword, kw_spec, kw_top_level, lookup_keyword, lemma_kw_chars};
use crate::scan::{
    PErr, PRes, Src, bool_lit, eol, fail_at, identifier, line_ending, promote, skip_noise,
    skip_spaces, space1, tag, tag_char,
};
use crate::text::{is_whitespace, string_of, white};
use crate::scan::{holds_at, is_space, word_stop};
use crate::ast::{ident_char, ident_start};
use crate::syntax::{
    block_end, placed, placed_after_spaces, cont_placed, atom_line_ahead, atom_line_ok, atom_line_parts, atom_lines, atom_lines_ok, atom_ok, atom_parts, atom_step, body_ok, cont_group_ok,
    cont_ahead, cont_line_ok, cont_line_parts, cont_lines, cont_step, element_line_ok, element_line_parts, element_lines,
    element_line_ahead, element_lines_ok, element_step, eol_ok, exists_body_parts, for_each_ok, for_each_parts, header_ok, header_parts,
    ident_ok, impl_body_parts, impl_ok, kw_ok, kw_space_ok, list_body_parts, list_kw, close_kw, conn_kw, literal_ok, literal_parts, program_chain,
    program_ok, program_step, at_end_ok, tail_at, lemma_noise_unique, noise_ok, atom_follow, lemma_ident_unique,
    lemma_eol_unique, lemma_kw_space_unique, lemma_eol_follow, lemma_spaces_unique, eol_parts, bool_ok, one_line,
    lead_kw, space1_ok, spaces_ok, statement_ok, stmt_parts, stmt_written, plain_blanks, noise_chain, noise_step,
    noise_line_ok, noise_parts, comment_ok, line_end_ok,
};

verus! {

/// The common shape of a sub-parser's result: progress within the source on
/// success, a position within the source on failure.
pub open spec fn progress<T>(r: PRes<T>, pos: usize, n: nat) -> bool {
    match r {
        Ok((_, e)) => pos <= e <= n,
        Err(er) => pos <= err_pos(er) <= n,
    }
}

/// Where a sub-parser failed.
pub open spec fn err_pos(e: PErr) -> usize {
    match e {
        PErr::Error(p) => p,
        PErr::Failure(p, _) => p,
    }
}

/// `[<domain>.]<subject> [<predicate> [<object>]]`. It reads as much of an
/// atom as is written: wherever an atom ends before what may follow one, it
/// is that atom's end that is reached.
pub fn atom(src: &Src, pos: usize) -> (r: PRes<Located<Atom>>)
    requires
        src.wf(),
        pos <= src.len(),
    ensures
        progress(r, pos, src.len()),
        r matches Ok((a, e)) ==> wf_located_atom(a) && pos < e && atom_ok(src.text@, pos as int, a.data, e as int),
        r matches Ok((a, e)) ==> placed(src.text@, a, pos as int),
        r matches Err(er) ==> er == PErr::Error(pos),
        forall|a: Atom, e: int|
            #[trigger] atom_ok(src.text@, pos as int, a, e) && atom_follow(src.text@, e) ==> (r matches Ok((a2, e2))
                && e2 == e && (a2.data.predicate is Some <==> a.predicate is Some)),
{
    let ghost t = src.text@;
    // An optional `domain.` prefix: an identifier immediately followed by `.`.
    let id0 = identifier(src, pos);
    let ghost g0 = id0;
    let (domain, p) = match id0 {
        Ok((d, e)) => match tag_char(src, e, '.') {
            Some(e2) => (Some(d.data), e2),
            None => (None, pos),
        },
        Err(_) => (None, pos),
    };
    let ghost q0 = p as int;
    let ghost gdom = domain;
    let (subject, p) = match identifier(src, p) {
        Ok(v) => v,
        Err(_) => {
            proof {
                assert forall|a: Atom, e: int| #[trigger] atom_ok(t, pos as int, a, e) && atom_follow(t, e) implies false by {
                    let w = choose|w: Seq<int>| #[trigger] atom_parts(t, pos as int, a, e, w);
                    lemma_atom_subject_start(t, pos as int, a, e, w, g0, gdom, q0);
                }
            }
            return Err(PErr::Error(pos));
        },
    };
    let ghost q1 = p as int;
    let ghost mut q2: int = q1;
    let ghost mut q3: int = q1;
    let ghost mut s1: Option<usize> = None;
    let ghost mut i1: bool = false;
    // An optional predicate, then (only after a predicate) an optional object.
    let (predicate, p) = match space1(src, p) {
        Some(q) => {
            proof {
                s1 = Some(q);
            }
            match identifier(src, q) {
                Ok((id, e)) => {
                    proof {
                        q2 = q as int;
                        q3 = e as int;
                        i1 = true;
                    }
                    (Some(id.data), e)
                },
                Err(_) => {
                    proof {
                        assert(forall|f: int, x: Seq<char>| !#[trigger] ident_ok(t, q as int, f, x));
                    }
                    (None, p)
                },
            }
        },
        None => {
            proof {
                assert(forall|f: int| !#[trigger] space1_ok(t, q1, f));
            }
            (None, p)
        },
    };
    proof {
        assert(s1 is None ==> forall|f: int| !#[trigger] space1_ok(t, q1, f));
        assert(s1 is Some ==> space1_ok(t, q1, s1->0 as int));
        assert(i1 ==> s1 is Some && q2 == s1->0 && predicate is Some && ident_ok(t, q2, q3, predicate->0@) && p == q3);
        assert(!i1 ==> predicate is None && p == q1);
        assert((!i1 && s1 is Some) ==> forall|f: int, x: Seq<char>| !#[trigger] ident_ok(t, s1->0 as int, f, x));
    }
    let ghost mut q4: int = p as int;
    let ghost mut s2: Option<usize> = None;
    let ghost mut i2: bool = false;
    let ghost pq = p as int;
    let (object, p) = if predicate.is_some() {
        match space1(src, p) {
            Some(q) => {
                proof {
                    s2 = Some(q);
                }
                match identifier(src, q) {
                    Ok((id, e)) => {
                        proof {
                            q4 = q as int;
                            i2 = true;
                        }
                        (Some(id.data), e)
                    },
                    Err(_) => {
                        proof {
                            assert(forall|f: int, x: Seq<char>| !#[trigger] ident_ok(t, q as int, f, x));
                        }
                        (None, p)
                    },
                }
            },
            None => {
                proof {
                    assert(forall|f: int| !#[trigger] space1_ok(t, pq, f));
                }
                (None, p)
            },
        }
    } else {
        (None, p)
    };
    proof {
        assert(predicate is Some ==> (s2 is None ==> forall|f: int| !#[trigger] space1_ok(t, pq, f)));
        assert(s2 is Some ==> space1_ok(t, pq, s2->0 as int));
        assert(i2 ==> s2 is Some && q4 == s2->0 && object is Some && ident_ok(t, q4, p as int, object->0@));
        assert(!i2 ==> object is None && p == pq);
        assert((!i2 && s2 is Some) ==> forall|f: int, x: Seq<char>| !#[trigger] ident_ok(t, s2->0 as int, f, x));
    }
    let a = Atom { domain, subject: subject.data, predicate, object };
    proof {
        assert(atom_parts(src.text@, pos as int, a, p as int, seq![q0, q1, q2, q3, q4]));
        assert forall|b: Atom, e: int| #[trigger] atom_ok(t, pos as int, b, e) && atom_follow(t, e) implies e == p && (
            a.predicate is Some <==> b.predicate is Some) by {
            let w = choose|w: Seq<int>| #[trigger] atom_parts(t, pos as int, b, e, w);
            lemma_atom_subject_start(t, pos as int, b, e, w, g0, gdom, q0);
            lemma_ident_unique(t, q0, w[1], b.subject@, q1, a.subject@);
            match b.predicate {
                Some(pr) => {
                    assert(space1_ok(t, q1, w[2]));
                    assert(s1 is Some);
                    lemma_spaces_unique(t, q1, w[2], s1->0 as int);
                    assert(i1);
                    lemma_ident_unique(t, q2, w[3], pr@, q3, a.predicate->0@);
                    assert(pq == w[3]);
                    match b.object {
                        Some(o) => {
                            assert(space1_ok(t, pq, w[4]));
                            assert(s2 is Some);
                            lemma_spaces_unique(t, pq, w[4], s2->0 as int);
                            assert(i2);
                            lemma_ident_unique(t, q4, e, o@, p as int, a.object->0@);
                        },
                        None => {
                            let f = choose|f: int| #![trigger spaces_ok(t, e, f)] spaces_ok(t, e, f) && (f == t.len() || t[f] == '/' || t[f] == '\n' || t[f] == '\r' || t[f] == ':');
                            if i2 {
                                lemma_spaces_unique(t, e, f, s2->0 as int);
                                assert(ident_start(t[f]));
                            }
                        },
                    }
                },
                None => {
                    let f = choose|f: int| #![trigger spaces_ok(t, e, f)] spaces_ok(t, e, f) && (f == t.len() || t[f] == '/' || t[f] == '\n' || t[f] == '\r' || t[f] == ':');
                    if i1 {
                        lemma_spaces_unique(t, e, f, s1->0 as int);
                        assert(ident_start(t[f]));
                    }
                },
            }
        }
    }
    Ok((src.located(a, pos), p))
}

/// Wherever an atom is written at `pos` before what may follow one, its
/// subject starts where the domain step of [`atom`] left off.
proof fn lemma_atom_subject_start(
    t: Seq<char>,
    pos: int,
    a: Atom,
    e: int,
    w: Seq<int>,
    g0: PRes<Located<String>>,
    gdom: Option<String>,
    q0: int,
)
    requires
        atom_parts(t, pos, a, e, w),
        atom_follow(t, e),
        0 <= pos <= t.len(),
        match g0 {
            Ok((id, x)) => ident_ok(t, pos, x as int, id.data@),
            Err(_) => forall|x: int, s: Seq<char>| !#[trigger] ident_ok(t, pos, x, s),
        },
        gdom is Some ==> (g0 matches Ok((_, x)) && x < t.len() && t[x as int] == '.' && q0 == x + 1),
        gdom is None ==> (q0 == pos && (g0 is Err || (g0 matches Ok((_, x)) && (x >= t.len() || t[x as int] != '.')))),
    ensures
        w[0] == q0,
{
    match a.domain {
        Some(d) => {
            if let Ok((id, x)) = g0 {
                lemma_ident_unique(t, pos, x as int, id.data@, w[0] - 1, d@);
            }
        },
        None => {
            if let Ok((id, x)) = g0 {
                lemma_ident_unique(t, pos, x as int, id.data@, w[1], a.subject@);
                if a.predicate is None {
                    let f = choose|f: int| #![trigger spaces_ok(t, e, f)] spaces_ok(t, e, f) && (f == t.len() || t[f] == '/' || t[f] == '\n' || t[f] == '\r' || t[f] == ':');
                    if f > e {
                        assert(is_space(t[e]));
                    }
                }
            }
        },
    }
}

/// No identifier starts where a keyword is written and then a space.
proof fn lemma_kw_space_no_ident(t: Seq<char>, p: int, k: Kw, q: int, x: int, s: Seq<char>)
    requires
        kw_ok(t, p, k, q),
        q < t.len(),
        is_space(t[q]),
        kw_spec(k).len() > 0,
        forall|i: int| 0 <= i < kw_spec(k).len() ==> ident_char(#[trigger] kw_spec(k)[i]),
    ensures
        !ident_ok(t, p, x, s),
{
    if ident_ok(t, p, x, s) {
        if x < q {
            assert(t[x] == kw_spec(k)[x - p]);
        } else if x > q {
            assert(s[q - p] == t[q]);
        } else {
            assert(s =~= kw_spec(k));
            assert(is_keyword(s));
        }
    }
}

/// An optionally `NOT`-prefixed atom; like [`atom`], it reads the whole
/// literal that is written.
pub fn literal(src: &Src, pos: usize) -> (r: PRes<Located<Literal>>)
    requires
        src.wf(),
        pos <= src.len(),
    ensures
        progress(r, pos, src.len()),
        r matches Ok((l, e)) ==> wf_located_literal(l) && pos < e && literal_ok(src.text@, pos as int, l.data, e as int),
        r matches Ok((l, e)) ==> placed(src.text@, l, pos as int),
        r matches Err(er) ==> er is Error,
        forall|l: Literal, e: int|
            #[trigger] literal_ok(src.text@, pos as int, l, e) && atom_follow(src.text@, e) ==> (r matches Ok((_, e2))
                && e2 == e),
{
    let ghost t = src.text@;
    let ghost mut w0: int = pos as int;
    let (negated, p) = match tag(src, pos, Kw::Not) {
        Some(e) => match space1(src, e) {
            Some(e2) => {
                proof {
                    w0 = e as int;
                }
                (true, e2)
            },
            None => {
                proof {
                    assert(forall|f: int| !#[trigger] space1_ok(t, e as int, f));
                }
                (false, pos)
            },
        },
        None => (false, pos),
    };
    proof {
        lemma_kw_chars(Kw::Not);
        assert forall|l: Literal, e: int| #[trigger] literal_ok(t, pos as int, l, e) && atom_follow(t, e) implies atom_ok(
            t,
            p as int,
            l.atom,
            e,
        ) by {
            let w = choose|w: Seq<int>| #[trigger] literal_parts(t, pos as int, l, e, w);
            if l.negated {
                lemma_spaces_unique(t, w[0], w[1], p as int);
            } else if negated {
                let x = choose|x: Seq<int>| #[trigger] atom_parts(t, pos as int, l.atom, e, x);
                match l.atom.domain {
                    Some(d) => {
                        lemma_kw_space_no_ident(t, pos as int, Kw::Not, w0, x[0] - 1, d@);
                    },
                    None => {
                        lemma_kw_space_no_ident(t, pos as int, Kw::Not, w0, x[1], l.atom.subject@);
                    },
                }
            }
        }
    }
    match atom(src, p) {
        Ok((a, e)) => {
            let l = Literal { negated, atom: a.data };
            proof {
                assert(literal_parts(src.text@, pos as int, l, e as int, seq![w0, p as int]));
            }
            Ok((src.located(l, pos), e))
        },
        Err(_) => Err(PErr::Error(p)),
    }
}

/// An atom on its own (possibly indented) line.
fn atom_line(src: &Src, pos: usize) -> (r: PRes<Located<Atom>>)
    requires
        src.wf(),
        pos <= src.len(),
    ensures
        progress(r, pos, src.len()),
        r matches Ok((a, e)) ==> wf_located_atom(a) && pos < e && atom_line_ok(src.text@, pos as int, a.data, e as int),
        r matches Ok((a, e)) ==> placed_after_spaces(src.text@, a, pos as int),
        r matches Err(er) ==> er is Error,
        forall|a: Atom, e: int| #[trigger] atom_line_ok(src.text@, pos as int, a, e) ==> (r matches Ok((_, e2)) && e2 == e),
{
    let ghost t = src.text@;
    let p0 = skip_spaces(src, pos);
    proof {
        assert forall|a: Atom, e: int| #[trigger] atom_line_ok(t, pos as int, a, e) implies ({
            let w = choose|w: Seq<int>| #[trigger] atom_line_parts(t, pos as int, a, e, w);
            w[0] == p0 && atom_follow(t, w[1])
        }) by {
            let w = choose|w: Seq<int>| #[trigger] atom_line_parts(t, pos as int, a, e, w);
            lemma_spaces_unique(t, pos as int, w[0], p0 as int);
            lemma_eol_follow(t, w[1], e);
        }
    }
    let (a, p) = match atom(src, p0) {
        Ok(v) => v,
        Err(_) => {
            proof {
                assert forall|a: Atom, e: int| !#[trigger] atom_line_ok(t, pos as int, a, e) by {
                    if atom_line_ok(t, pos as int, a, e) {
                        let w = choose|w: Seq<int>| #[trigger] atom_line_parts(t, pos as int, a, e, w);
                        assert(atom_ok(t, p0 as int, a, w[1]));
                    }
                }
            }
            return Err(PErr::Error(p0));
        },
    };
    proof {
        assert forall|a2: Atom, e: int| #[trigger] atom_line_ok(t, pos as int, a2, e) implies ({
            let w = choose|w: Seq<int>| #[trigger] atom_line_parts(t, pos as int, a2, e, w);
            w[1] == p
        }) by {
            let w = choose|w: Seq<int>| #[trigger] atom_line_parts(t, pos as int, a2, e, w);
            assert(atom_ok(t, p0 as int, a2, w[1]));
        }
    }
    match eol(src, p) {
        Some(e) => {
            proof {
                assert(atom_line_parts(src.text@, pos as int, a.data, e as int, seq![p0 as int, p as int]));
                assert forall|a2: Atom, f: int| #[trigger] atom_line_ok(t, pos as int, a2, f) implies f == e by {
                    let w = choose|w: Seq<int>| #[trigger] atom_line_parts(t, pos as int, a2, f, w);
                    lemma_eol_unique(t, p as int, f, e as int);
                }
            }
            Ok((a, e))
        },
        None => {
            proof {
                assert forall|a2: Atom, f: int| !#[trigger] atom_line_ok(t, pos as int, a2, f) by {
                    if atom_line_ok(t, pos as int, a2, f) {
                        let w = choose|w: Seq<int>| #[trigger] atom_line_parts(t, pos as int, a2, f, w);
                        assert(eol_ok(t, p as int, f));
                    }
                }
            }
            Err(PErr::Error(p))
        },
    }
}

/// Zero or more atom lines.
fn many_atom_lines(src: &Src, pos: usize) -> (r: (Vec<Located<Atom>>, usize))
    requires
        src.wf(),
        pos <= src.len(),
    ensures
        pos <= r.1 <= src.len(),
        forall|i: int| 0 <= i < r.0@.len() ==> wf_located_atom(#[trigger] r.0@[i]),
        atom_lines_ok(src.text@, pos as int, r.0@, r.1 as int),
        forall|atoms: Seq<Located<Atom>>, e: int|
            #[trigger] atom_lines_ok(src.text@, pos as int, atoms, e) && !atom_line_ahead(src.text@, e) ==> r.1 == e,
{
    let ghost t = src.text@;
    let mut out: Vec<Located<Atom>> = Vec::new();
    let mut p = pos;
    let ghost mut ps: Seq<int> = seq![pos as int];
    loop
        invariant
            src.wf(),
            t == src.text@,
            pos <= p <= src.len(),
            forall|i: int| 0 <= i < out@.len() ==> wf_located_atom(#[trigger] out@[i]),
            atom_lines(src.text@, ps, out@),
            ps[0] == pos,
            ps.last() == p,
            forall|atoms: Seq<Located<Atom>>, qs: Seq<int>|
                #[trigger] atom_lines(t, qs, atoms) && qs[0] == pos && !atom_line_ahead(t, qs.last()) ==> out@.len()
                    <= atoms.len() && qs[out@.len() as int] == p,
        decreases src.len() - p,
    {
        let rl = atom_line(src, p);
        let ghost k = out@.len() as int;
        proof {
            assert forall|atoms: Seq<Located<Atom>>, qs: Seq<int>|
                #[trigger] atom_lines(t, qs, atoms) && qs[0] == pos && !atom_line_ahead(t, qs.last()) implies (k == atoms.len()
                    && rl is Err) || (k < atoms.len() && (rl matches Ok((_, e2)) && e2 == qs[k + 1])) by {
                if k < atoms.len() {
                    assert(atom_step(t, qs, atoms, k));
                    assert(atom_line_ok(t, qs[k], atoms[k].data, qs[k + 1]));
                } else {
                    if rl is Ok {
                        assert(atom_line_ok(t, p as int, rl->Ok_0.0.data, rl->Ok_0.1 as int));
                    }
                }
            }
        }
        match rl {
            Ok((a, e)) => {
                let ghost old_ps = ps;
                let ghost old_out = out@;
                out.push(a);
                proof {
                    ps = ps.push(e as int);
                    assert forall|i: int| 0 <= i < out@.len() implies #[trigger] atom_step(src.text@, ps, out@, i) by {
                        if i < old_out.len() {
                            assert(atom_step(src.text@, old_ps, old_out, i));
                        }
                    }
                }
                p = e;
            },
            Err(_) => {
                proof {
                    assert forall|atoms: Seq<Located<Atom>>, f: int|
                        #[trigger] atom_lines_ok(t, pos as int, atoms, f) && !atom_line_ahead(t, f) implies f == p by {
                        let qs = choose|qs: Seq<int>| #[trigger] atom_lines(t, qs, atoms) && qs[0] == pos && qs.last() == f;
                        assert(atom_lines(t, qs, atoms));
                    }
                }
                return (out, p);
            },
        }
    }
}

/// A `SET` element: one identifier on its own (possibly indented) line.
fn element_line(src: &Src, pos: usize) -> (r: PRes<Located<String>>)
    requires
        src.wf(),
        pos <= src.len(),
    ensures
        progress(r, pos, src.len()),
        r matches Ok((n, e)) ==> wf_name(n) && pos < e && element_line_ok(src.text@, pos as int, n.data@, e as int),
        r matches Ok((n, e)) ==> placed_after_spaces(src.text@, n, pos as int),
        r matches Err(er) ==> er is Error,
        forall|n: Seq<char>, e: int| #[trigger] element_line_ok(src.text@, pos as int, n, e) ==> (r matches Ok((_, e2)) && e2 == e),
{
    let ghost t = src.text@;
    let p0 = skip_spaces(src, pos);
    proof {
        assert forall|n: Seq<char>, e: int| #[trigger] element_line_ok(t, pos as int, n, e) implies ({
            let w = choose|w: Seq<int>| #[trigger] element_line_parts(t, pos as int, n, e, w);
            w[0] == p0
        }) by {
            let w = choose|w: Seq<int>| #[trigger] element_line_parts(t, pos as int, n, e, w);
            lemma_spaces_unique(t, pos as int, w[0], p0 as int);
        }
    }
    let (id, p) = match identifier(src, p0) {
        Ok(v) => v,
        Err(_) => {
            proof {
                assert forall|n: Seq<char>, e: int| !#[trigger] element_line_ok(t, pos as int, n, e) by {
                    if element_line_ok(t, pos as int, n, e) {
                        let w = choose|w: Seq<int>| #[trigger] element_line_parts(t, pos as int, n, e, w);
                        assert(ident_ok(t, p0 as int, w[1], n));
                    }
                }
            }
            return Err(PErr::Error(p0));
        },
    };
    proof {
        assert forall|n: Seq<char>, e: int| #[trigger] element_line_ok(t, pos as int, n, e) implies ({
            let w = choose|w: Seq<int>| #[trigger] element_line_parts(t, pos as int, n, e, w);
            w[1] == p
        }) by {
            let w = choose|w: Seq<int>| #[trigger] element_line_parts(t, pos as int, n, e, w);
            lemma_ident_unique(t, p0 as int, w[1], n, p as int, id.data@);
        }
    }
    match eol(src, p) {
        Some(e) => {
            proof {
                assert(element_line_parts(src.text@, pos as int, id.data@, e as int, seq![p0 as int, p as int]));
                assert forall|n: Seq<char>, f: int| #[trigger] element_line_ok(t, pos as int, n, f) implies f == e by {
                    let w = choose|w: Seq<int>| #[trigger] element_line_parts(t, pos as int, n, f, w);
                    lemma_eol_unique(t, p as int, f, e as int);
                }
            }
            Ok((id, e))
        },
        None => {
            proof {
                assert forall|n: Seq<char>, f: int| !#[trigger] element_line_ok(t, pos as int, n, f) by {
                    if element_line_ok(t, pos as int, n, f) {
                        let w = choose|w: Seq<int>| #[trigger] element_line_parts(t, pos as int, n, f, w);
                        assert(eol_ok(t, p as int, f));
                    }
                }
            }
            Err(PErr::Error(p))
        },
    }
}

/// The diagnostic for a list body with fewer than two atoms.
const LIST_NEEDS_TWO_ATOMS: &'static str = "a list premise needs at least two atoms";

/// One of the list-constraint keywords.
fn list_op(src: &Src, pos: usize) -> (r: Option<(ListOp, usize)>)
    requires
        src.wf(),
        pos <= src.len(),
    ensures
        r matches Some((_, e)) ==> pos < e <= src.len(),
        r matches Some((op, e)) ==> kw_ok(src.text@, pos as int, list_kw(op), e as int),
        forall|op: ListOp, e: int| #[trigger] kw_ok(src.text@, pos as int, list_kw(op), e) ==> r == Some((op, e as usize)),
{
    let ghost t = src.text@;
    proof {
        assert forall|op: ListOp, e: int| #[trigger] kw_ok(t, pos as int, list_kw(op), e) implies t[pos as int] == kw_spec(list_kw(op))[0] by {
            assert(t.subrange(pos as int, e)[0] == t[pos as int]);
        }
    }
    if let Some(e) = tag(src, pos, Kw::Exclusive) {
        return Some((ListOp::Exclusive, e));
    }
    if let Some(e) = tag(src, pos, Kw::Forbids) {
        proof {
            assert(t.subrange(pos as int, e as int)[0] == t[pos as int]);
        }
        return Some((ListOp::Forbids, e));
    }
    if let Some(e) = tag(src, pos, Kw::OneOf) {
        proof {
            assert(t.subrange(pos as int, e as int)[0] == t[pos as int]);
        }
        return Some((ListOp::OneOf, e));
    }
    if let Some(e) = tag(src, pos, Kw::AtLeast) {
        proof {
            assert(t.subrange(pos as int, e as int)[0] == t[pos as int]);
        }
        return Some((ListOp::AtLeast, e));
    }
    proof {
        assert forall|op: ListOp, e: int| !#[trigger] kw_ok(t, pos as int, list_kw(op), e) by {
            match op {
                ListOp::Exclusive => {},
                ListOp::Forbids => {},
                ListOp::OneOf => {},
                ListOp::AtLeast => {},
            }
        }
    }
    None
}

/// A list body: a list operator on its own line, then one atom per line (at
/// least two). A missing operator stays a recoverable `Error`.
#[verifier::spinoff_prover]
#[verifier::rlimit(100)]
fn list_body(src: &Src, pos: usize) -> (r: PRes<Body>)
    requires
        src.wf(),
        pos <= src.len(),
    ensures
        progress(r, pos, src.len()),
        r matches Ok((b, _)) ==> wf_body(b) && b is List,
        r matches Ok((b, e)) ==> body_ok(src.text@, pos as int, b, e as int),
        forall|b: Body, e: int, w: Seq<int>|
            #[trigger] list_body_parts(src.text@, pos as int, b, e, w) && !atom_line_ahead(src.text@, e) ==> (r matches Ok(
                (_, e2),
            ) && e2 == e),
        forall|q: int|
            #[trigger] spaces_ok(src.text@, pos as int, q) && (holds_at(src.text@, q, kw_spec(Kw::Exists)) || holds_at(
                src.text@,
                q,
                kw_spec(Kw::When),
            )) ==> r matches Err(PErr::Error(_)),
{
    let ghost t = src.text@;
    let p = skip_spaces(src, pos);
    let ghost w0 = p as int;
    proof {
        assert forall|b: Body, e: int, w: Seq<int>| #[trigger] list_body_parts(t, pos as int, b, e, w) implies w[0] == w0 by {
            lemma_spaces_unique(t, pos as int, w[0], w0);
        }
    }
    let (op, p) = match list_op(src, p) {
        Some(v) => v,
        None => {
            proof {
                assert forall|b: Body, e: int, w: Seq<int>| !(#[trigger] list_body_parts(t, pos as int, b, e, w) && !atom_line_ahead(t, e)) by {
                    if list_body_parts(t, pos as int, b, e, w) && !atom_line_ahead(t, e) {
                        assert(kw_ok(t, w[0], list_kw(b->op), w[1]));
                    }
                }
            }
            return Err(PErr::Error(p));
        },
    };
    proof {
        assert forall|q: int| #[trigger] spaces_ok(t, pos as int, q) implies !(holds_at(t, q, kw_spec(Kw::Exists)) || holds_at(
            t,
            q,
            kw_spec(Kw::When),
        )) by {
            lemma_spaces_unique(t, pos as int, q, w0);
            lemma_list_kw_clash(t, q, op);
        }
    }
    let ghost w1 = p as int;
    let p = match eol(src, p) {
        Some(e) => e,
        None => {
            proof {
                assert forall|b: Body, e: int, w: Seq<int>| !(#[trigger] list_body_parts(t, pos as int, b, e, w) && !atom_line_ahead(t, e)) by {
                    if list_body_parts(t, pos as int, b, e, w) && !atom_line_ahead(t, e) {
                        assert(eol_ok(t, w[1], w[2]));
                    }
                }
            }
            return fail_at(p, "expected a newline after the list operator");
        },
    };
    let ghost w2 = p as int;
    proof {
        assert forall|b: Body, e: int, w: Seq<int>| #[trigger] list_body_parts(t, pos as int, b, e, w) implies w[2] == w2 by {
            lemma_eol_unique(t, w1, w[2], w2);
        }
    }
    let (first, p) = match atom_line(src, p) {
        Ok(v) => v,
        Err(_) => {
            proof {
                assert forall|b: Body, e: int, w: Seq<int>| !(#[trigger] list_body_parts(t, pos as int, b, e, w) && !atom_line_ahead(t, e)) by {
                    if list_body_parts(t, pos as int, b, e, w) && !atom_line_ahead(t, e) {
                        let qs = choose|qs: Seq<int>| #[trigger] atom_lines(t, qs, b->atoms@) && qs[0] == w[2] && qs.last() == e;
                        assert(atom_step(t, qs, b->atoms@, 0));
                        assert(atom_step(t, qs, b->atoms@, 1));
                    }
                }
            }
            return fail_at(p, LIST_NEEDS_TWO_ATOMS);
        },
    };
    let ghost pa = p as int;
    let (second, p) = match atom_line(src, p) {
        Ok(v) => v,
        Err(_) => {
            proof {
                assert forall|b: Body, e: int, w: Seq<int>| !(#[trigger] list_body_parts(t, pos as int, b, e, w) && !atom_line_ahead(t, e)) by {
                    if list_body_parts(t, pos as int, b, e, w) && !atom_line_ahead(t, e) {
                        let qs = choose|qs: Seq<int>| #[trigger] atom_lines(t, qs, b->atoms@) && qs[0] == w[2] && qs.last() == e;
                        assert(atom_step(t, qs, b->atoms@, 0));
                        assert(atom_step(t, qs, b->atoms@, 1));
                    }
                }
            }
            return fail_at(p, LIST_NEEDS_TWO_ATOMS);
        },
    };
    let ghost pb = p as int;
    proof {
        assert forall|b: Body, e: int, w: Seq<int>| #[trigger] list_body_parts(t, pos as int, b, e, w) && !atom_line_ahead(t, e)
            implies atom_lines_ok(t, pb, b->atoms@.subrange(2, b->atoms@.len() as int), e) by {
            let atoms = b->atoms@;
            let qs = choose|qs: Seq<int>| #[trigger] atom_lines(t, qs, atoms) && qs[0] == w[2] && qs.last() == e;
            assert(atom_step(t, qs, atoms, 0));
            assert(atom_step(t, qs, atoms, 1));
            let qs2 = qs.subrange(2, qs.len() as int);
            let a2 = atoms.subrange(2, atoms.len() as int);
            assert forall|i: int| 0 <= i < a2.len() implies #[trigger] atom_step(t, qs2, a2, i) by {
                assert(atom_step(t, qs, atoms, i + 2));
            }
            assert(atom_lines(t, qs2, a2));
        }
    }
    let (rest, p) = many_atom_lines(src, p);
    let ghost gf = first;
    let ghost gs = second;
    let ghost grest = rest@;
    let mut atoms: Vec<Located<Atom>> = Vec::new();
    atoms.push(first);
    atoms.push(second);
    let mut rest = rest;
    atoms.append(&mut rest);
    let b = Body::List { op, atoms };
    proof {
        let rps = choose|ps: Seq<int>| #[trigger] atom_lines(src.text@, ps, grest) && ps[0] == pb && ps.last() == p as int;
        let ps = seq![w2, pa] + rps;
        let all = seq![gf, gs] + grest;
        assert(all =~= b->atoms@);
        assert forall|i: int| 0 <= i < all.len() implies #[trigger] atom_step(src.text@, ps, all, i) by {
            if i >= 2 {
                assert(atom_step(src.text@, rps, grest, i - 2));
                assert(ps[i] == rps[i - 2] && ps[i + 1] == rps[i - 1] && all[i] == grest[i - 2]);
            }
        }
        assert(atom_lines(src.text@, ps, all));
        assert(list_body_parts(src.text@, pos as int, b, p as int, seq![w0, w1, w2]));
        assert forall|b2: Body, f: int, w: Seq<int>| #[trigger] list_body_parts(t, pos as int, b2, f, w) && !atom_line_ahead(t, f)
            implies f == p by {
            assert(atom_lines_ok(t, pb, b2->atoms@.subrange(2, b2->atoms@.len() as int), f));
        }
    }
    Ok((b, p))
}

/// No list keyword is written where `EXISTS` or `WHEN` is.
proof fn lemma_list_kw_clash(t: Seq<char>, q: int, op: ListOp)
    requires
        0 <= q,
    ensures
        !(holds_at(t, q, kw_spec(list_kw(op))) && (holds_at(t, q, kw_spec(Kw::Exists)) || holds_at(t, q, kw_spec(Kw::When)))),
{
    if holds_at(t, q, kw_spec(list_kw(op))) && (holds_at(t, q, kw_spec(Kw::Exists)) || holds_at(t, q, kw_spec(Kw::When))) {
        let a = kw_spec(list_kw(op));
        assert(t.subrange(q, q + a.len())[0] == t[q]);
        assert(t.subrange(q, q + a.len())[2] == t[q + 2]);
        if holds_at(t, q, kw_spec(Kw::Exists)) {
            assert(t.subrange(q, q + 6)[0] == t[q]);
            assert(t.subrange(q, q + 6)[2] == t[q + 2]);
        } else {
            assert(t.subrange(q, q + 4)[0] == t[q]);
        }
    }
}

/// An `EXISTS <binder> IN <set>` header on its own line, then one condition
/// atom line using the binder. A missing `EXISTS` stays a recoverable `Error`.
fn exists_body(src: &Src, pos: usize) -> (r: PRes<Body>)
    requires
        src.wf(),
        pos <= src.len(),
    ensures
        progress(r, pos, src.len()),
        r matches Ok((b, _)) ==> wf_body(b) && b is Exists,
        r matches Ok((b, e)) ==> body_ok(src.text@, pos as int, b, e as int),
        forall|b: Body, e: int, w: Seq<int>|
            #[trigger] exists_body_parts(src.text@, pos as int, b, e, w) ==> (r matches Ok((_, e2)) && e2 == e),
        forall|q: int|
            #[trigger] spaces_ok(src.text@, pos as int, q) && holds_at(src.text@, q, kw_spec(Kw::When)) ==> r matches Err(
                PErr::Error(_),
            ),
{
    let ghost t = src.text@;
    let p0 = skip_spaces(src, pos);
    proof {
        assert forall|b: Body, e: int, w: Seq<int>| #[trigger] exists_body_parts(t, pos as int, b, e, w) implies w[0] == p0 by {
            lemma_spaces_unique(t, pos as int, w[0], p0 as int);
        }
    }
    let p1 = match tag(src, p0, Kw::Exists) {
        Some(e) => e,
        None => {
            proof {
                assert forall|b: Body, e: int, w: Seq<int>| !#[trigger] exists_body_parts(t, pos as int, b, e, w) by {
                    if exists_body_parts(t, pos as int, b, e, w) {
                        assert(kw_ok(t, w[0], Kw::Exists, w[1]));
                    }
                }
            }
            return Err(PErr::Error(p0));
        },
    };
    proof {
        assert forall|q: int| #[trigger] spaces_ok(t, pos as int, q) implies !holds_at(t, q, kw_spec(Kw::When)) by {
            lemma_spaces_unique(t, pos as int, q, p0 as int);
            assert(t.subrange(p0 as int, p1 as int)[0] == t[p0 as int]);
            if holds_at(t, q, kw_spec(Kw::When)) {
                assert(t.subrange(q, q + 4)[0] == t[q]);
            }
        }
    }
    let p2 = match space1(src, p1) {
        Some(e) => e,
        None => {
            proof {
                assert forall|b: Body, e: int, w: Seq<int>| !#[trigger] exists_body_parts(t, pos as int, b, e, w) by {
                    if exists_body_parts(t, pos as int, b, e, w) {
                        assert(space1_ok(t, w[1], w[2]));
                    }
                }
            }
            return fail_at(p1, "EXISTS expects a binder: EXISTS <binder> IN <set>");
        },
    };
    proof {
        assert forall|b: Body, e: int, w: Seq<int>| #[trigger] exists_body_parts(t, pos as int, b, e, w) implies w[2] == p2 by {
            lemma_spaces_unique(t, p1 as int, w[2], p2 as int);
        }
    }
    let (binder, p3) = match identifier(src, p2) {
        Ok(v) => v,
        Err(_) => {
            proof {
                assert forall|b: Body, e: int, w: Seq<int>| !#[trigger] exists_body_parts(t, pos as int, b, e, w) by {
                    if exists_body_parts(t, pos as int, b, e, w) {
                        assert(ident_ok(t, w[2], w[3], b->binder.data@));
                    }
                }
            }
            return fail_at(p2, "EXISTS expects a binder: EXISTS <binder> IN <set>");
        },
    };
    proof {
        assert forall|b: Body, e: int, w: Seq<int>| #[trigger] exists_body_parts(t, pos as int, b, e, w) implies w[3] == p3 by {
            lemma_ident_unique(t, p2 as int, w[3], b->binder.data@, p3 as int, binder.data@);
        }
    }
    let p4 = match space1(src, p3) {
        Some(e) => e,
        None => {
            proof {
                assert forall|b: Body, e: int, w: Seq<int>| !#[trigger] exists_body_parts(t, pos as int, b, e, w) by {
                    if exists_body_parts(t, pos as int, b, e, w) {
                        assert(space1_ok(t, w[3], w[4]));
                    }
                }
            }
            return fail_at(p3, "EXISTS expects IN <set> after the binder: EXISTS <binder> IN <set>");
        },
    };
    proof {
        assert forall|b: Body, e: int, w: Seq<int>| #[trigger] exists_body_parts(t, pos as int, b, e, w) implies w[4] == p4 by {
            lemma_spaces_unique(t, p3 as int, w[4], p4 as int);
        }
    }
    let p5 = match tag(src, p4, Kw::In) {
        Some(e) => e,
        None => {
            proof {
                assert forall|b: Body, e: int, w: Seq<int>| !#[trigger] exists_body_parts(t, pos as int, b, e, w) by {
                    if exists_body_parts(t, pos as int, b, e, w) {
                        assert(kw_ok(t, w[4], Kw::In, w[5]));
                    }
                }
            }
            return fail_at(p3, "EXISTS expects IN <set> after the binder: EXISTS <binder> IN <set>");
        },
    };
    let p6 = match space1(src, p5) {
        Some(e) => e,
        None => {
            proof {
                assert forall|b: Body, e: int, w: Seq<int>| !#[trigger] exists_body_parts(t, pos as int, b, e, w) by {
                    if exists_body_parts(t, pos as int, b, e, w) {
                        assert(space1_ok(t, w[5], w[6]));
                    }
                }
            }
            return fail_at(p3, "EXISTS expects IN <set> after the binder: EXISTS <binder> IN <set>");
        },
    };
    proof {
        assert forall|b: Body, e: int, w: Seq<int>| #[trigger] exists_body_parts(t, pos as int, b, e, w) implies w[6] == p6 by {
            lemma_spaces_unique(t, p5 as int, w[6], p6 as int);
        }
    }
    let (set, p7) = match identifier(src, p6) {
        Ok(v) => v,
        Err(_) => {
            proof {
                assert forall|b: Body, e: int, w: Seq<int>| !#[trigger] exists_body_parts(t, pos as int, b, e, w) by {
                    if exists_body_parts(t, pos as int, b, e, w) {
                        assert(ident_ok(t, w[6], w[7], b->set.data@));
                    }
                }
            }
            return fail_at(p6, "expected a set name after IN");
        },
    };
    proof {
        assert forall|b: Body, e: int, w: Seq<int>| #[trigger] exists_body_parts(t, pos as int, b, e, w) implies w[7] == p7 by {
            lemma_ident_unique(t, p6 as int, w[7], b->set.data@, p7 as int, set.data@);
        }
    }
    let p8 = match eol(src, p7) {
        Some(e) => e,
        None => {
            proof {
                assert forall|b: Body, e: int, w: Seq<int>| !#[trigger] exists_body_parts(t, pos as int, b, e, w) by {
                    if exists_body_parts(t, pos as int, b, e, w) {
                        assert(eol_ok(t, w[7], w[8]));
                    }
                }
            }
            return fail_at(p7, "unexpected text after 'EXISTS <binder> IN <set>'");
        },
    };
    proof {
        assert forall|b: Body, e: int, w: Seq<int>| #[trigger] exists_body_parts(t, pos as int, b, e, w) implies w[8] == p8 by {
            lemma_eol_unique(t, p7 as int, w[8], p8 as int);
        }
    }
    let (a, e) = match atom_line(src, p8) {
        Ok(v) => v,
        Err(_) => {
            proof {
                assert forall|b: Body, e: int, w: Seq<int>| !#[trigger] exists_body_parts(t, pos as int, b, e, w) by {
                    if exists_body_parts(t, pos as int, b, e, w) {
                        assert(atom_line_ok(t, w[8], b->atom.data, e));
                    }
                }
            }
            return fail_at(
                p8,
                "EXISTS needs one condition line using the binder, e.g. h handles request",
            );
        },
    };
    let b = Body::Exists { binder, set, atom: a };
    proof {
        assert(exists_body_parts(
            src.text@,
            pos as int,
            b,
            e as int,
            seq![p0 as int, p1 as int, p2 as int, p3 as int, p4 as int, p5 as int, p6 as int, p7 as int, p8 as int],
        ));
        assert forall|b2: Body, f: int, w: Seq<int>| #[trigger] exists_body_parts(t, pos as int, b2, f, w) implies f == e by {
            assert(atom_line_ok(t, w[8], b2->atom.data, f));
        }
    }
    Ok((b, e))
}

/// A continuation `AND <literal>` / `OR <literal>` line. A line that is neither
/// `AND` nor `OR` (or has no space after it) is a recoverable `Error`.
fn cont_line(src: &Src, pos: usize) -> (r: PRes<(Conn, Located<Literal>)>)
    requires
        src.wf(),
        pos <= src.len(),
    ensures
        progress(r, pos, src.len()),
        r matches Ok((cl, e)) ==> wf_located_literal(cl.1) && pos < e && cont_line_ok(
            src.text@,
            pos as int,
            cl.0,
            cl.1.data,
            e as int,
        ),
        r matches Ok((cl, e)) ==> cont_placed(src.text@, pos as int, cl.0, cl.1, e as int),
        !cont_ahead(src.text@, pos as int) ==> r matches Err(PErr::Error(_)),
        forall|c: Conn, l: Literal, e: int|
            #[trigger] cont_line_ok(src.text@, pos as int, c, l, e) ==> (r matches Ok((cl, e2)) && e2 == e && cl.0 == c),
{
    let ghost t = src.text@;
    let p0 = skip_spaces(src, pos);
    let (conn, p1) = match tag(src, p0, Kw::And) {
        Some(e) => (Conn::And, e),
        None => match tag(src, p0, Kw::Or) {
            Some(e) => (Conn::Or, e),
            None => {
                proof {
                    assert forall|c: Conn, l: Literal, e: int| !#[trigger] cont_line_ok(t, pos as int, c, l, e) by {
                        if cont_line_ok(t, pos as int, c, l, e) {
                            let w = choose|w: Seq<int>| #[trigger] cont_line_parts(t, pos as int, c, l, e, w);
                            lemma_spaces_unique(t, pos as int, w[0], p0 as int);
                        }
                    }
                }
                return Err(PErr::Error(p0));
            },
        },
    };
    proof {
        assert(cont_ahead(t, pos as int));
        assert forall|c: Conn, l: Literal, e: int| #[trigger] cont_line_ok(t, pos as int, c, l, e) implies c == conn && ({
            let w = choose|w: Seq<int>| #[trigger] cont_line_parts(t, pos as int, c, l, e, w);
            w[0] == p0 && w[1] == p1
        }) by {
            let w = choose|w: Seq<int>| #[trigger] cont_line_parts(t, pos as int, c, l, e, w);
            lemma_spaces_unique(t, pos as int, w[0], p0 as int);
            if c != conn {
                lemma_and_or_clash(t, p0 as int);
            }
        }
    }
    let p2 = match space1(src, p1) {
        Some(e) => e,
        None => {
            return Err(PErr::Error(p1));
        },
    };
    proof {
        assert forall|c: Conn, l: Literal, e: int| #[trigger] cont_line_ok(t, pos as int, c, l, e) implies ({
            let w = choose|w: Seq<int>| #[trigger] cont_line_parts(t, pos as int, c, l, e, w);
            w[2] == p2 && atom_follow(t, w[3])
        }) by {
            let w = choose|w: Seq<int>| #[trigger] cont_line_parts(t, pos as int, c, l, e, w);
            lemma_spaces_unique(t, p1 as int, w[2], p2 as int);
            lemma_eol_follow(t, w[3], e);
        }
    }
    let (lit, p3) = match literal(src, p2) {
        Ok(v) => v,
        Err(_) => {
            proof {
                assert forall|c: Conn, l: Literal, e: int| !#[trigger] cont_line_ok(t, pos as int, c, l, e) by {
                    if cont_line_ok(t, pos as int, c, l, e) {
                        let w = choose|w: Seq<int>| #[trigger] cont_line_parts(t, pos as int, c, l, e, w);
                        assert(literal_ok(t, p2 as int, l, w[3]));
                    }
                }
            }
            return fail_at(p2, "AND/OR expects a literal: [NOT] <Subject> <predicate> [<object>]");
        },
    };
    proof {
        assert forall|c: Conn, l: Literal, e: int| #[trigger] cont_line_ok(t, pos as int, c, l, e) implies ({
            let w = choose|w: Seq<int>| #[trigger] cont_line_parts(t, pos as int, c, l, e, w);
            w[3] == p3
        }) by {
            let w = choose|w: Seq<int>| #[trigger] cont_line_parts(t, pos as int, c, l, e, w);
            assert(literal_ok(t, p2 as int, l, w[3]));
        }
    }
    match eol(src, p3) {
        Some(e) => {
            proof {
                assert(cont_line_parts(src.text@, pos as int, conn, lit.data, e as int, seq![p0 as int, p1 as int, p2 as int, p3 as int]));
                assert forall|c: Conn, l: Literal, f: int| #[trigger] cont_line_ok(t, pos as int, c, l, f) implies f == e by {
                    let w = choose|w: Seq<int>| #[trigger] cont_line_parts(t, pos as int, c, l, f, w);
                    lemma_eol_unique(t, p3 as int, f, e as int);
                }
            }
            Ok(((conn, lit), e))
        },
        None => {
            proof {
                assert forall|c: Conn, l: Literal, f: int| !#[trigger] cont_line_ok(t, pos as int, c, l, f) by {
                    if cont_line_ok(t, pos as int, c, l, f) {
                        let w = choose|w: Seq<int>| #[trigger] cont_line_parts(t, pos as int, c, l, f, w);
                        assert(eol_ok(t, p3 as int, f));
                    }
                }
            }
            fail_at(p3, "unexpected text after the AND/OR literal")
        },
    }
}

/// Where spaces from `p` lead to a keyword other than `AND` and `OR` (one
/// whose first letter is neither `A` nor `O`), no continuation line starts.
proof fn lemma_kw_not_cont(t: Seq<char>, p: int, q: int, k: Kw)
    requires
        spaces_ok(t, p, q),
        holds_at(t, q, kw_spec(k)),
        kw_spec(k)[0] != 'A',
        kw_spec(k)[0] != 'O',
    ensures
        !cont_ahead(t, p),
{
    lemma_kw_chars(k);
    assert(t.subrange(q, q + kw_spec(k).len())[0] == t[q]);
    if cont_ahead(t, p) {
        let q2 = choose|q2: int| #![trigger spaces_ok(t, p, q2)] spaces_ok(t, p, q2) && (holds_at(t, q2, kw_spec(Kw::And)) || holds_at(t, q2, kw_spec(Kw::Or)));
        lemma_spaces_unique(t, p, q, q2);
        assert(t.subrange(q, q + 3)[0] == t[q] || t.subrange(q, q + 2)[0] == t[q]);
        if holds_at(t, q, kw_spec(Kw::And)) {
            assert(t.subrange(q, q + 3)[0] == t[q]);
        } else {
            assert(t.subrange(q, q + 2)[0] == t[q]);
        }
    }
}

/// `AND` and `OR` are not both written at one place.
proof fn lemma_and_or_clash(t: Seq<char>, q: int)
    requires
        0 <= q,
    ensures
        !(holds_at(t, q, kw_spec(Kw::And)) && holds_at(t, q, kw_spec(Kw::Or))),
{
    if holds_at(t, q, kw_spec(Kw::And)) && holds_at(t, q, kw_spec(Kw::Or)) {
        assert(t.subrange(q, q + 3)[0] == t[q]);
        assert(t.subrange(q, q + 2)[0] == t[q]);
    }
}

/// Zero or more continuation lines, checked for a uniform connective. The
/// result is the literals, the group's connective (`AND` when there are no
/// continuation lines) and the end position; a mix of `AND` and `OR` fails at
/// the first line that switches, with `mix_msg`.
fn cont_group(src: &Src, pos: usize, mix_msg: &str) -> (r: PRes<(Vec<Located<Literal>>, Conn)>)
    requires
        src.wf(),
        pos <= src.len(),
    ensures
        progress(r, pos, src.len()),
        r matches Ok((g, _)) ==> forall|i: int|
            0 <= i < g.0@.len() ==> wf_located_literal(#[trigger] g.0@[i]),
        r matches Ok((g, e)) ==> cont_group_ok(src.text@, pos as int, g.0@, g.1, e as int),
        forall|ls: Seq<Located<Literal>>, c: Conn, e: int|
            #[trigger] cont_group_ok(src.text@, pos as int, ls, c, e) && !cont_ahead(src.text@, e) ==> (r matches Ok((_, e2))
                && e2 == e),
{
    let ghost t = src.text@;
    let mut lits: Vec<Located<Literal>> = Vec::new();
    let mut seen: Option<Conn> = None;
    let mut p = pos;
    let ghost mut ps: Seq<int> = seq![pos as int];
    let ghost mut gc: Conn = Conn::And;
    loop
        invariant
            src.wf(),
            t == src.text@,
            pos <= p <= src.len(),
            forall|i: int| 0 <= i < lits@.len() ==> wf_located_literal(#[trigger] lits@[i]),
            cont_lines(src.text@, ps, lits@, gc),
            ps[0] == pos,
            ps.last() == p,
            seen is None ==> lits@.len() == 0 && gc == Conn::And,
            seen is Some ==> lits@.len() > 0,
            seen matches Some(c) ==> c == gc,
            forall|ls: Seq<Located<Literal>>, c: Conn, qs: Seq<int>|
                #[trigger] cont_lines(t, qs, ls, c) && qs[0] == pos && !cont_ahead(t, qs.last()) ==> lits@.len() <= ls.len()
                    && qs[lits@.len() as int] == p && (lits@.len() > 0 ==> gc == c),
        decreases src.len() - p,
    {
        let rl = cont_line(src, p);
        let ghost k = lits@.len() as int;
        proof {
            assert forall|ls: Seq<Located<Literal>>, c: Conn, qs: Seq<int>|
                #[trigger] cont_lines(t, qs, ls, c) && qs[0] == pos && !cont_ahead(t, qs.last()) implies (k == ls.len()
                    && (rl matches Err(PErr::Error(_)))) || (k < ls.len() && (rl matches Ok((cl, e2)) && e2 == qs[k + 1] && cl.0
                    == c)) by {
                if k < ls.len() {
                    assert(cont_step(t, qs, ls, c, k));
                    assert(cont_line_ok(t, qs[k], c, ls[k].data, qs[k + 1]));
                }
            }
        }
        match rl {
            Ok(((conn, lit), e)) => {
                match seen {
                    Some(s) => {
                        if s != conn {
                            let at = skip_spaces(src, p);
                            proof {
                                assert forall|ls: Seq<Located<Literal>>, c: Conn, f: int|
                                    !(#[trigger] cont_group_ok(t, pos as int, ls, c, f) && !cont_ahead(t, f)) by {
                                    if cont_group_ok(t, pos as int, ls, c, f) && !cont_ahead(t, f) {
                                        let qs = choose|qs: Seq<int>| #[trigger] cont_lines(t, qs, ls, c) && qs[0] == pos && qs.last() == f;
                                        assert(cont_lines(t, qs, ls, c));
                                    }
                                }
                            }
                            return fail_at(at, mix_msg);
                        }
                    },
                    None => {
                        seen = Some(conn);
                        proof {
                            gc = conn;
                        }
                    },
                }
                let ghost old_ps = ps;
                let ghost old_lits = lits@;
                lits.push(lit);
                proof {
                    ps = ps.push(e as int);
                    assert forall|i: int| 0 <= i < lits@.len() implies #[trigger] cont_step(src.text@, ps, lits@, gc, i) by {
                        if i < old_lits.len() {
                            assert(cont_step(src.text@, old_ps, old_lits, gc, i));
                        }
                    }
                }
                p = e;
            },
            Err(PErr::Failure(q, m)) => {
                proof {
                    assert forall|ls: Seq<Located<Literal>>, c: Conn, f: int|
                        !(#[trigger] cont_group_ok(t, pos as int, ls, c, f) && !cont_ahead(t, f)) by {
                        if cont_group_ok(t, pos as int, ls, c, f) && !cont_ahead(t, f) {
                            let qs = choose|qs: Seq<int>| #[trigger] cont_lines(t, qs, ls, c) && qs[0] == pos && qs.last() == f;
                            assert(cont_lines(t, qs, ls, c));
                        }
                    }
                }
                return Err(PErr::Failure(q, m));
            },
            Err(PErr::Error(_)) => {
                let conn = match seen {
                    Some(c) => c,
                    None => Conn::And,
                };
                proof {
                    assert(conn == gc);
                    assert(cont_lines(src.text@, ps, lits@, conn));
                    assert forall|ls: Seq<Located<Literal>>, c: Conn, f: int|
                        #[trigger] cont_group_ok(t, pos as int, ls, c, f) && !cont_ahead(t, f) implies f == p by {
                        let qs = choose|qs: Seq<int>| #[trigger] cont_lines(t, qs, ls, c) && qs[0] == pos && qs.last() == f;
                        assert(cont_lines(t, qs, ls, c));
                    }
                }
                return Ok(((lits, conn), p));
            },
        }
    }
}

/// An implication body: `WHEN <lit>` with `AND`/`OR` continuations, then
/// `THEN <lit>` with continuations. A missing `WHEN` stays a recoverable `Error`.
#[verifier::spinoff_prover]
#[verifier::rlimit(100)]
fn impl_body(src: &Src, pos: usize) -> (r: PRes<Body>)
    requires
        src.wf(),
        pos <= src.len(),
    ensures
        progress(r, pos, src.len()),
        r matches Ok((b, _)) ==> wf_body(b) && b is Impl,
        r matches Ok((b, e)) ==> body_ok(src.text@, pos as int, b, e as int) && impl_ok(
            src.text@,
            pos as int,
            b,
            e as int,
        ),
        forall|b: Body, e: int|
            #[trigger] impl_ok(src.text@, pos as int, b, e) && !cont_ahead(src.text@, e) ==> (r matches Ok((_, e2)) && e2 == e),
{
    let ghost t = src.text@;
    let p0 = skip_spaces(src, pos);
    proof {
        assert forall|b: Body, e: int| #[trigger] impl_ok(t, pos as int, b, e) && !cont_ahead(t, e) implies ({
            let w = choose|w: Seq<int>| #[trigger] impl_body_parts(t, pos as int, b, e, w);
            &&& w[0] == p0
            &&& atom_follow(t, w[3])
            &&& !cont_ahead(t, w[5])
        }) by {
            let w = choose|w: Seq<int>| #[trigger] impl_body_parts(t, pos as int, b, e, w);
            lemma_spaces_unique(t, pos as int, w[0], p0 as int);
            lemma_eol_follow(t, w[3], w[4]);
            lemma_kw_not_cont(t, w[5], w[6], Kw::Then);
        }
    }
    let p1 = match tag(src, p0, Kw::When) {
        Some(e) => e,
        None => {
            proof {
                assert forall|b: Body, e: int| !(#[trigger] impl_ok(t, pos as int, b, e) && !cont_ahead(t, e)) by {
                    if impl_ok(t, pos as int, b, e) && !cont_ahead(t, e) {
                        let w = choose|w: Seq<int>| #[trigger] impl_body_parts(t, pos as int, b, e, w);
                        assert(kw_ok(t, w[0], Kw::When, w[1]));
                    }
                }
            }
            return Err(PErr::Error(p0));
        },
    };
    let p2 = match space1(src, p1) {
        Some(e2) => e2,
        None => {
            proof {
                assert forall|b: Body, e: int| !(#[trigger] impl_ok(t, pos as int, b, e) && !cont_ahead(t, e)) by {
                    if impl_ok(t, pos as int, b, e) && !cont_ahead(t, e) {
                        let w = choose|w: Seq<int>| #[trigger] impl_body_parts(t, pos as int, b, e, w);
                        assert(space1_ok(t, w[1], w[2]));
                    }
                }
            }
            return Err(PErr::Error(p0));
        },
    };
    proof {
        assert forall|b: Body, e: int| #[trigger] impl_ok(t, pos as int, b, e) && !cont_ahead(t, e) implies ({
            let w = choose|w: Seq<int>| #[trigger] impl_body_parts(t, pos as int, b, e, w);
            w[2] == p2
        }) by {
            let w = choose|w: Seq<int>| #[trigger] impl_body_parts(t, pos as int, b, e, w);
            lemma_spaces_unique(t, p1 as int, w[2], p2 as int);
        }
    }
    let (when, p3) = match literal(src, p2) {
        Ok(v) => v,
        Err(_) => {
            proof {
                assert forall|b: Body, e: int| !(#[trigger] impl_ok(t, pos as int, b, e) && !cont_ahead(t, e)) by {
                    if impl_ok(t, pos as int, b, e) && !cont_ahead(t, e) {
                        let w = choose|w: Seq<int>| #[trigger] impl_body_parts(t, pos as int, b, e, w);
                        assert(literal_ok(t, w[2], b->antecedent@[0].data, w[3]));
                    }
                }
            }
            return fail_at(p2, "WHEN expects a literal: [NOT] <Subject> <predicate> [<object>]");
        },
    };
    proof {
        assert forall|b: Body, e: int| #[trigger] impl_ok(t, pos as int, b, e) && !cont_ahead(t, e) implies ({
            let w = choose|w: Seq<int>| #[trigger] impl_body_parts(t, pos as int, b, e, w);
            w[3] == p3
        }) by {
            let w = choose|w: Seq<int>| #[trigger] impl_body_parts(t, pos as int, b, e, w);
            assert(literal_ok(t, w[2], b->antecedent@[0].data, w[3]));
        }
    }
    let p4 = match eol(src, p3) {
        Some(e) => e,
        None => {
            proof {
                assert forall|b: Body, e: int| !(#[trigger] impl_ok(t, pos as int, b, e) && !cont_ahead(t, e)) by {
                    if impl_ok(t, pos as int, b, e) && !cont_ahead(t, e) {
                        let w = choose|w: Seq<int>| #[trigger] impl_body_parts(t, pos as int, b, e, w);
                        assert(eol_ok(t, w[3], w[4]));
                    }
                }
            }
            return fail_at(p3, "unexpected text after the WHEN literal");
        },
    };
    proof {
        assert forall|b: Body, e: int| #[trigger] impl_ok(t, pos as int, b, e) && !cont_ahead(t, e) implies ({
            let w = choose|w: Seq<int>| #[trigger] impl_body_parts(t, pos as int, b, e, w);
            w[4] == p4
        }) by {
            let w = choose|w: Seq<int>| #[trigger] impl_body_parts(t, pos as int, b, e, w);
            lemma_eol_unique(t, p3 as int, w[4], p4 as int);
        }
    }
    let ((ante_rest, ante_conn), p5) = match cont_group(
        src,
        p4,
        "don't mix AND and OR in one WHEN group — split it into separate premises",
    ) {
        Ok(v) => v,
        Err(e) => {
            proof {
                assert forall|b: Body, e: int| !(#[trigger] impl_ok(t, pos as int, b, e) && !cont_ahead(t, e)) by {
                    if impl_ok(t, pos as int, b, e) && !cont_ahead(t, e) {
                        let w = choose|w: Seq<int>| #[trigger] impl_body_parts(t, pos as int, b, e, w);
                        assert(cont_group_ok(t, w[4], b->antecedent@.drop_first(), b->ante_conn, w[5]));
                    }
                }
            }
            return Err(e);
        },
    };
    let p6 = skip_spaces(src, p5);
    proof {
        assert forall|b: Body, e: int| #[trigger] impl_ok(t, pos as int, b, e) && !cont_ahead(t, e) implies ({
            let w = choose|w: Seq<int>| #[trigger] impl_body_parts(t, pos as int, b, e, w);
            w[5] == p5 && w[6] == p6
        }) by {
            let w = choose|w: Seq<int>| #[trigger] impl_body_parts(t, pos as int, b, e, w);
            assert(cont_group_ok(t, w[4], b->antecedent@.drop_first(), b->ante_conn, w[5]));
            lemma_spaces_unique(t, p5 as int, w[6], p6 as int);
        }
    }
    let p7 = match tag(src, p6, Kw::Then) {
        Some(e) => e,
        None => {
            proof {
                assert forall|b: Body, e: int| !(#[trigger] impl_ok(t, pos as int, b, e) && !cont_ahead(t, e)) by {
                    if impl_ok(t, pos as int, b, e) && !cont_ahead(t, e) {
                        let w = choose|w: Seq<int>| #[trigger] impl_body_parts(t, pos as int, b, e, w);
                        assert(kw_ok(t, w[6], Kw::Then, w[7]));
                    }
                }
            }
            return fail_at(p6, "expected THEN to complete the WHEN ... THEN implication");
        },
    };
    let p8 = match space1(src, p7) {
        Some(e) => e,
        None => {
            proof {
                assert forall|b: Body, e: int| !(#[trigger] impl_ok(t, pos as int, b, e) && !cont_ahead(t, e)) by {
                    if impl_ok(t, pos as int, b, e) && !cont_ahead(t, e) {
                        let w = choose|w: Seq<int>| #[trigger] impl_body_parts(t, pos as int, b, e, w);
                        assert(space1_ok(t, w[7], w[8]));
                    }
                }
            }
            return fail_at(p7, "THEN expects a literal: [NOT] <Subject> <predicate> [<object>]");
        },
    };
    proof {
        assert forall|b: Body, e: int| #[trigger] impl_ok(t, pos as int, b, e) && !cont_ahead(t, e) implies ({
            let w = choose|w: Seq<int>| #[trigger] impl_body_parts(t, pos as int, b, e, w);
            w[8] == p8 && atom_follow(t, w[9])
        }) by {
            let w = choose|w: Seq<int>| #[trigger] impl_body_parts(t, pos as int, b, e, w);
            lemma_spaces_unique(t, p7 as int, w[8], p8 as int);
            let q = choose|q: int| #![trigger eol_ok(t, w[9], q)] eol_ok(t, w[9], q) && cont_group_ok(t, q, b->consequent@.drop_first(), b->cons_conn, e);
            lemma_eol_follow(t, w[9], q);
        }
    }
    let (then, p9) = match literal(src, p8) {
        Ok(v) => v,
        Err(_) => {
            proof {
                assert forall|b: Body, e: int| !(#[trigger] impl_ok(t, pos as int, b, e) && !cont_ahead(t, e)) by {
                    if impl_ok(t, pos as int, b, e) && !cont_ahead(t, e) {
                        let w = choose|w: Seq<int>| #[trigger] impl_body_parts(t, pos as int, b, e, w);
                        assert(literal_ok(t, w[8], b->consequent@[0].data, w[9]));
                    }
                }
            }
            return fail_at(p7, "THEN expects a literal: [NOT] <Subject> <predicate> [<object>]");
        },
    };
    proof {
        assert forall|b: Body, e: int| #[trigger] impl_ok(t, pos as int, b, e) && !cont_ahead(t, e) implies ({
            let w = choose|w: Seq<int>| #[trigger] impl_body_parts(t, pos as int, b, e, w);
            w[9] == p9
        }) by {
            let w = choose|w: Seq<int>| #[trigger] impl_body_parts(t, pos as int, b, e, w);
            assert(literal_ok(t, w[8], b->consequent@[0].data, w[9]));
        }
    }
    let p10 = match eol(src, p9) {
        Some(e) => e,
        None => {
            proof {
                assert forall|b: Body, e: int| !(#[trigger] impl_ok(t, pos as int, b, e) && !cont_ahead(t, e)) by {
                    if impl_ok(t, pos as int, b, e) && !cont_ahead(t, e) {
                        let w = choose|w: Seq<int>| #[trigger] impl_body_parts(t, pos as int, b, e, w);
                        let q = choose|q: int| #![trigger eol_ok(t, w[9], q)] eol_ok(t, w[9], q) && cont_group_ok(t, q, b->consequent@.drop_first(), b->cons_conn, e);
                        assert(eol_ok(t, p9 as int, q));
                    }
                }
            }
            return fail_at(p9, "unexpected text after the THEN literal");
        },
    };
    proof {
        assert forall|b: Body, e: int| #[trigger] impl_ok(t, pos as int, b, e) && !cont_ahead(t, e) implies
            exists|ls: Seq<Located<Literal>>, c: Conn| #[trigger] cont_group_ok(t, p10 as int, ls, c, e) by {
            let w = choose|w: Seq<int>| #[trigger] impl_body_parts(t, pos as int, b, e, w);
            let q = choose|q: int| #![trigger eol_ok(t, w[9], q)] eol_ok(t, w[9], q) && cont_group_ok(t, q, b->consequent@.drop_first(), b->cons_conn, e);
            lemma_eol_unique(t, p9 as int, q, p10 as int);
            assert(cont_group_ok(t, p10 as int, b->consequent@.drop_first(), b->cons_conn, e));
        }
    }
    let ((cons_rest, cons_conn), e) = match cont_group(
        src,
        p10,
        "don't mix AND and OR in one THEN group — split it into separate premises",
    ) {
        Ok(v) => v,
        Err(e) => {
            proof {
                assert forall|b: Body, f: int| !(#[trigger] impl_ok(t, pos as int, b, f) && !cont_ahead(t, f)) by {
                    if impl_ok(t, pos as int, b, f) && !cont_ahead(t, f) {
                        let (ls, c) = choose|ls: Seq<Located<Literal>>, c: Conn| #[trigger] cont_group_ok(t, p10 as int, ls, c, f);
                        assert(cont_group_ok(t, p10 as int, ls, c, f));
                    }
                }
            }
            return Err(e);
        },
    };
    proof {
        assert forall|b: Body, f: int| #[trigger] impl_ok(t, pos as int, b, f) && !cont_ahead(t, f) implies f == e by {
            let (ls, c) = choose|ls: Seq<Located<Literal>>, c: Conn| #[trigger] cont_group_ok(t, p10 as int, ls, c, f);
            assert(cont_group_ok(t, p10 as int, ls, c, f));
        }
    }
    let ghost gw = when;
    let ghost gt = then;
    let ghost ar = ante_rest@;
    let ghost cr = cons_rest@;
    let antecedent = prepend_literal(when, ante_rest);
    let consequent = prepend_literal(then, cons_rest);
    let b = Body::Impl { antecedent, ante_conn, consequent, cons_conn };
    proof {
        assert(b->antecedent@.drop_first() =~= ar);
        assert(b->consequent@.drop_first() =~= cr);
        assert(b->antecedent@[0] == gw);
        assert(b->consequent@[0] == gt);
        assert(eol_ok(src.text@, p9 as int, p10 as int));
        assert(impl_body_parts(
            src.text@,
            pos as int,
            b,
            e as int,
            seq![p0 as int, p1 as int, p2 as int, p3 as int, p4 as int, p5 as int, p6 as int, p7 as int, p8 as int, p9 as int],
        ));
    }
    Ok((b, e))
}

/// `first` followed by `rest`.
fn prepend_literal(first: Located<Literal>, rest: Vec<Located<Literal>>) -> (r: Vec<
    Located<Literal>,
>)
    ensures
        r@ == seq![first] + rest@,
{
    let mut out: Vec<Located<Literal>> = Vec::new();
    out.push(first);
    let mut rest = rest;
    out.append(&mut rest);
    out
}


/// Where two keywords are each written at `p` and each ends a word, they
/// are the same keyword.
proof fn lemma_kw_clash(t: Seq<char>, p: int, x: Kw, y: Kw)
    requires
        0 <= p,
        holds_at(t, p, kw_spec(x)),
        holds_at(t, p, kw_spec(y)),
        word_stop(t, p + kw_spec(x).len()),
        word_stop(t, p + kw_spec(y).len()),
    ensures
        x == y,
{
    lemma_kw_chars(x);
    lemma_kw_chars(y);
    let a = kw_spec(x);
    let b = kw_spec(y);
    if a.len() < b.len() {
        assert(t.subrange(p, p + b.len())[a.len() as int] == t[p + a.len()]);
        assert(ident_char(b[a.len() as int]));
    } else if b.len() < a.len() {
        assert(t.subrange(p, p + a.len())[b.len() as int] == t[p + b.len()]);
        assert(ident_char(a[b.len() as int]));
    } else {
        assert(a =~= b);
        crate::keywords::lemma_kw_spec_injective(x, y);
    }
}

/// A keyword followed by spaces ends a word.
proof fn lemma_kw_space_stop(t: Seq<char>, p: int, k: Kw, e: int)
    requires
        kw_space_ok(t, p, k, e),
    ensures
        holds_at(t, p, kw_spec(k)),
        word_stop(t, p + kw_spec(k).len()),
{
    let q = choose|q: int| #![trigger kw_ok(t, p, k, q)] kw_ok(t, p, k, q) && space1_ok(t, q, e);
    assert(is_space(t[q]));
}

/// No identifier starts where a keyword is written and then a word ends.
proof fn lemma_kw_word_no_ident(t: Seq<char>, p: int, k: Kw, q: int, x: int, s: Seq<char>)
    requires
        0 <= p,
        kw_ok(t, p, k, q),
        word_stop(t, q),
    ensures
        !ident_ok(t, p, x, s),
{
    lemma_kw_chars(k);
    if ident_ok(t, p, x, s) {
        if x < q {
            assert(t.subrange(p, q)[x - p] == t[x]);
        } else if x > q {
            assert(s[q - p] == t[q]);
        } else {
            assert(s =~= kw_spec(k));
            assert(is_keyword(s));
        }
    }
}

/// A statement begins with its keyword, which ends a word.
/// The kinds of a program's statements, by their leading keyword.
pub open spec fn stmt_kinds(s: Seq<Statement>) -> Seq<Kw> {
    s.map_values(|x: Statement| lead_kw(x))
}

/// The statements parsed so far, ending at the chain positions `ps`, follow
/// the one-line program `s2` written with chain `c2`, kind by kind; once the
/// parse has ended they cover all of it.
spec fn tracks(c2: Seq<int>, s2: Seq<Statement>, ps: Seq<int>, sts: Seq<Statement>, ended: bool) -> bool {
    &&& sts.len() <= s2.len()
    &&& ps == c2.subrange(0, 2 * sts.len() as int + 1)
    &&& stmt_kinds(sts) == stmt_kinds(s2).subrange(0, sts.len() as int)
    &&& ended ==> sts.len() == s2.len()
}

/// Two statements starting at one place start with one keyword.
proof fn lemma_stmt_kind_unique(t: Seq<char>, q: int, s1: Statement, e1: int, s2: Statement, e2: int)
    requires
        0 <= q,
        statement_ok(t, q, s1, e1),
        statement_ok(t, q, s2, e2),
    ensures
        lead_kw(s1) == lead_kw(s2),
{
    let a = choose|a: int| #![trigger spaces_ok(t, q, a)] spaces_ok(t, q, a) && stmt_written(t, a, s1, e1);
    let b = choose|b: int| #![trigger spaces_ok(t, q, b)] spaces_ok(t, q, b) && stmt_written(t, b, s2, e2);
    crate::syntax::lemma_spaces_unique(t, q, a, b);
    lemma_stmt_lead(t, a, s1, e1);
    lemma_stmt_lead(t, a, s2, e2);
    lemma_kw_clash(t, a, lead_kw(s1), lead_kw(s2));
}

/// A statement cannot start where only an ignorable tail is left.
proof fn lemma_stmt_not_at_end(t: Seq<char>, q: int, st: Statement, e: int)
    requires
        0 <= q,
        statement_ok(t, q, st, e),
    ensures
        !at_end_ok(t, q),
{
    let q2 = choose|q2: int| #![trigger spaces_ok(t, q, q2)] spaces_ok(t, q, q2) && stmt_written(t, q2, st, e);
    lemma_stmt_lead(t, q2, st, e);
    let k = kw_spec(lead_kw(st));
    lemma_kw_chars(lead_kw(st));
    assert(t[q2] == k[0]) by {
        assert(t.subrange(q2, q2 + k.len())[0] == t[q2]);
    }
    assert(!white(t[q2]));
    if at_end_ok(t, q) {
        let i = choose|i: int| #[trigger] tail_at(t, q, i);
        if i > q2 {
            assert(white(t[q2]));
        } else if i < q2 {
            assert(crate::scan::is_space(t[i]));
        }
    }
}

/// Nothing an identifier or a keyword starts with is at `q`: the end of the
/// text, or an ASCII character that is not a letter.
spec fn quiet_at(t: Seq<char>, q: int) -> bool {
    q >= t.len() || (0 <= q && (t[q] as int) < 128 && !crate::text::ascii_letter(t[q]))
}

/// Where the first character after the spaces at `e` is quiet, a block
/// statement ending at `e` has nothing more to read.
proof fn lemma_quiet_block_end(t: Seq<char>, e: int)
    requires
        0 <= e,
        forall|q: int| #[trigger] spaces_ok(t, e, q) ==> quiet_at(t, q),
    ensures
        block_end(t, e),
{
    assert forall|q: int, x: int, s: Seq<char>| spaces_ok(t, e, q) implies !#[trigger] ident_ok(t, q, x, s) by {
        if ident_ok(t, q, x, s) {
            assert(s[0] == t[q]);
        }
    }
    if cont_ahead(t, e) {
        let q = choose|q: int| #![trigger spaces_ok(t, e, q)] spaces_ok(t, e, q) && (holds_at(t, q, kw_spec(Kw::And)) || holds_at(t, q, kw_spec(Kw::Or)));
        assert(t.subrange(q, q + 2)[0] == t[q]);
    }
    if atom_line_ahead(t, e) {
        let (a, g) = choose|a: Atom, g: int| #[trigger] atom_line_ok(t, e, a, g);
        let w = choose|w: Seq<int>| #[trigger] atom_line_parts(t, e, a, g, w);
        let w2 = choose|w2: Seq<int>| #[trigger] atom_parts(t, w[0], a, w[1], w2);
        assert(spaces_ok(t, e, w[0]));
        match a.domain {
            Some(d) => { assert(ident_ok(t, w[0], w2[0] - 1, d@)); },
            None => { assert(ident_ok(t, w[0], w2[1], a.subject@)); },
        }
    }
    if element_line_ahead(t, e) {
        let (n, g) = choose|n: Seq<char>, g: int| #[trigger] element_line_ok(t, e, n, g);
        let w = choose|w: Seq<int>| #[trigger] element_line_parts(t, e, n, g, w);
        assert(spaces_ok(t, e, w[0]));
    }
}

/// Where the spaces at `e` lead to a statement's keyword, a block statement
/// ending at `e` has nothing more to read.
proof fn lemma_kw_block_end(t: Seq<char>, e: int, q: int, st: Statement)
    requires
        0 <= e,
        spaces_ok(t, e, q),
        holds_at(t, q, kw_spec(lead_kw(st))),
        word_stop(t, q + kw_spec(lead_kw(st)).len()),
    ensures
        block_end(t, e),
{
    let k = lead_kw(st);
    let n = kw_spec(k).len();
    lemma_kw_chars(k);
    assert(kw_ok(t, q, k, q + n));
    assert forall|q2: int, x: int, s: Seq<char>| spaces_ok(t, e, q2) implies !#[trigger] ident_ok(t, q2, x, s) by {
        lemma_spaces_unique(t, e, q, q2);
        lemma_kw_word_no_ident(t, q, k, q + n, x, s);
    }
    if cont_ahead(t, e) {
        let q2 = choose|q2: int| #![trigger spaces_ok(t, e, q2)] spaces_ok(t, e, q2) && (holds_at(t, q2, kw_spec(Kw::And)) || holds_at(t, q2, kw_spec(Kw::Or)));
        lemma_spaces_unique(t, e, q, q2);
        assert(t.subrange(q, q + n)[0] == t[q]);
        assert(t.subrange(q, q + n)[1] == t[q + 1]);
        assert(t.subrange(q, q + 2)[0] == t[q]);
        assert(t.subrange(q, q + 2)[1] == t[q + 1]);
        match st {
            _ => {},
        }
    }
    if atom_line_ahead(t, e) {
        let (a, g) = choose|a: Atom, g: int| #[trigger] atom_line_ok(t, e, a, g);
        let w = choose|w: Seq<int>| #[trigger] atom_line_parts(t, e, a, g, w);
        let w2 = choose|w2: Seq<int>| #[trigger] atom_parts(t, w[0], a, w[1], w2);
        assert(spaces_ok(t, e, w[0]));
        match a.domain {
            Some(d) => { assert(ident_ok(t, w[0], w2[0] - 1, d@)); },
            None => { assert(ident_ok(t, w[0], w2[1], a.subject@)); },
        }
    }
    if element_line_ahead(t, e) {
        let (nm, g) = choose|nm: Seq<char>, g: int| #[trigger] element_line_ok(t, e, nm, g);
        let w = choose|w: Seq<int>| #[trigger] element_line_parts(t, e, nm, g, w);
        assert(spaces_ok(t, e, w[0]));
    }
}

/// Blank and comment lines from `e` up to the next statement, or up to the
/// ignorable tail, leave a block statement ending at `e` nothing more to read
/// (where the text's blanks are ASCII).
proof fn lemma_block_end(t: Seq<char>, e: int, f: int)
    requires
        noise_ok(t, e, f),
        (exists|st: Statement, g: int| #[trigger] statement_ok(t, f, st, g)) || at_end_ok(t, f),
        plain_blanks(t),
    ensures
        block_end(t, e),
{
    let ps = choose|ps: Seq<int>| #[trigger] noise_chain(t, ps, e, f);
    if ps.len() > 1 {
        assert(noise_step(t, ps, 0));
        let w = choose|w: Seq<int>| #[trigger] noise_parts(t, e, ps[1], w);
        assert(spaces_ok(t, e, w[0]));
        assert forall|q: int| #[trigger] spaces_ok(t, e, q) implies quiet_at(t, q) by {
            lemma_spaces_unique(t, e, q, w[0]);
        }
        lemma_quiet_block_end(t, e);
    } else {
        assert(e == f);
        if exists|st: Statement, g: int| #[trigger] statement_ok(t, f, st, g) {
            let (st, g) = choose|st: Statement, g: int| #[trigger] statement_ok(t, f, st, g);
            let q = choose|q: int| #![trigger spaces_ok(t, f, q)] spaces_ok(t, f, q) && stmt_written(t, q, st, g);
            assert(spaces_ok(t, f, q));
            lemma_stmt_lead(t, q, st, g);
            lemma_kw_block_end(t, e, q, st);
        } else {
            let i = choose|i: int| #[trigger] tail_at(t, f, i);
            assert(tail_at(t, f, i));
            assert forall|q: int| #[trigger] spaces_ok(t, e, q) implies quiet_at(t, q) by {
                if q < i {
                    assert(white(t[q]));
                } else if q > i {
                    assert(is_space(t[i]));
                }
            }
            lemma_quiet_block_end(t, e);
        }
    }
}

proof fn lemma_stmt_lead(t: Seq<char>, p: int, st: Statement, e: int)
    requires
        0 <= p,
        stmt_written(t, p, st, e),
    ensures
        holds_at(t, p, kw_spec(lead_kw(st))),
        word_stop(t, p + kw_spec(lead_kw(st)).len()),
{
    let w = choose|w: Seq<int>| #[trigger] stmt_parts(t, p, st, e, w);
    match st {
        Statement::Check { subject, bidirectional } => {
            match subject {
                Some(_) => {
                    assert(is_space(t[w[0]]));
                },
                None => {
                    if bidirectional {
                        assert(is_space(t[w[0]]));
                    } else {
                        lemma_eol_stop(t, w[0], e);
                    }
                },
            }
        },
        _ => {
            lemma_kw_space_stop(t, p, lead_kw(st), w[0]);
        },
    }
}

/// Where a statement is written, no other statement keyword is written
/// followed by a space.
proof fn lemma_not_lead(t: Seq<char>, p: int, st: Statement, e: int, y: Kw)
    requires
        0 <= p,
        stmt_written(t, p, st, e),
        y != lead_kw(st),
    ensures
        forall|f: int| !#[trigger] kw_space_ok(t, p, y, f),
{
    lemma_stmt_lead(t, p, st, e);
    assert forall|f: int| !#[trigger] kw_space_ok(t, p, y, f) by {
        if kw_space_ok(t, p, y, f) {
            lemma_kw_space_stop(t, p, y, f);
            lemma_kw_clash(t, p, lead_kw(st), y);
        }
    }
}

/// What ends a statement line ends a word, and may follow an atom.
proof fn lemma_eol_stop(t: Seq<char>, p: int, e: int)
    requires
        eol_ok(t, p, e),
    ensures
        word_stop(t, p),
        atom_follow(t, p),
{
    let w = choose|w: Seq<int>| #[trigger] eol_parts(t, p, e, w);
    if w[0] > p {
        assert(is_space(t[p]));
    }
    lemma_eol_follow(t, p, e);
}

/// The shape every statement parser promises: progress on success, a position
/// within the source on failure, and a well-formed statement.
pub open spec fn stmt_ok(r: PRes<Statement>, pos: usize, n: nat) -> bool {
    &&& progress(r, pos, n)
    &&& r matches Ok((st, e)) ==> wf_statement(st) && pos < e
}

/// Match `keyword` then at least one space.
fn keyword_space(src: &Src, pos: usize, k: Kw) -> (r: Option<usize>)
    requires
        src.wf(),
        pos <= src.len(),
    ensures
        r matches Some(e) ==> pos < e <= src.len() && kw_space_ok(src.text@, pos as int, k, e as int),
        r is None ==> forall|f: int| !#[trigger] kw_space_ok(src.text@, pos as int, k, f),
{
    match tag(src, pos, k) {
        Some(e) => {
            let r = space1(src, e);
            proof {
                if let Some(e2) = r {
                    assert(kw_ok(src.text@, pos as int, k, e as int) && space1_ok(src.text@, e as int, e2 as int));
                } else {
                    assert forall|f: int| !#[trigger] kw_space_ok(src.text@, pos as int, k, f) by {
                        if kw_space_ok(src.text@, pos as int, k, f) {
                            let q = choose|q: int| #![trigger kw_ok(src.text@, pos as int, k, q)] kw_ok(src.text@, pos as int, k, q) && space1_ok(src.text@, q, f);
                            assert(q == e);
                        }
                    }
                }
            }
            r
        },
        None => None,
    }
}

/// Require the end of the line at `pos`, failing with `msg` there otherwise.
fn eol_or(src: &Src, pos: usize, msg: &str) -> (r: PRes<()>)
    requires
        src.wf(),
        pos <= src.len(),
    ensures
        progress(r, pos, src.len()),
        r matches Ok((_, e)) ==> eol_ok(src.text@, pos as int, e as int),
        forall|f: int| #[trigger] eol_ok(src.text@, pos as int, f) ==> (r matches Ok((_, e)) && e == f),
{
    proof {
        assert forall|f: int| #[trigger] eol_ok(src.text@, pos as int, f) implies true by {}
    }
    match eol(src, pos) {
        Some(e) => {
            proof {
                assert forall|f: int| #[trigger] eol_ok(src.text@, pos as int, f) implies f == e by {
                    lemma_eol_unique(src.text@, pos as int, f, e as int);
                }
            }
            Ok(((), e))
        },
        None => fail_at(pos, msg),
    }
}

/// `DOMAIN <name>`.
#[verifier::spinoff_prover]
#[verifier::rlimit(30)]
fn stmt_domain(src: &Src, pos: usize) -> (r: PRes<Statement>)
    requires
        src.wf(),
        pos <= src.len(),
    ensures
        stmt_ok(r, pos, src.len()),
        r matches Ok((st, e)) ==> stmt_written(src.text@, pos as int, st, e as int),
        (forall|f: int| !#[trigger] kw_space_ok(src.text@, pos as int, Kw::Domain, f)) ==> r matches Err(PErr::Error(_)),
        forall|st: Statement, e: int|
            #[trigger] stmt_written(src.text@, pos as int, st, e) && st is Domain ==> (r matches Ok((_, e2)) && e2 == e),
{
    let ghost t = src.text@;
    let p0 = match keyword_space(src, pos, Kw::Domain) {
        Some(e) => e,
        None => {
            return Err(PErr::Error(pos));
        },
    };
    let (name, p1) = match identifier(src, p0) {
        Ok(v) => v,
        Err(_) => {
            proof {
                assert forall|st: Statement, e: int| #[trigger] stmt_written(t, pos as int, st, e) && st is Domain implies false by {
                    let w = choose|w: Seq<int>| #[trigger] stmt_parts(t, pos as int, st, e, w);
                    lemma_kw_space_unique(t, pos as int, Kw::Domain, w[0], p0 as int);
                }
            }
            return fail_at(p0, "DOMAIN expects a name (a lowercase identifier), e.g. DOMAIN physics");
        },
    };
    proof {
        assert forall|st: Statement, e: int| #[trigger] stmt_written(t, pos as int, st, e) && st is Domain implies eol_ok(
            t,
            p1 as int,
            e,
        ) by {
            let w = choose|w: Seq<int>| #[trigger] stmt_parts(t, pos as int, st, e, w);
            lemma_kw_space_unique(t, pos as int, Kw::Domain, w[0], p0 as int);
            lemma_ident_unique(t, p0 as int, w[1], st->Domain_0.data@, p1 as int, name.data@);
        }
    }
    let ((), e) = eol_or(src, p1, "unexpected text after the DOMAIN name")?;
    let st = Statement::Domain(name);
    proof {
        assert(stmt_parts(src.text@, pos as int, st, e as int, seq![p0 as int, p1 as int, 0, 0, 0, 0, 0, 0]));
    }
    Ok((st, e))
}

/// `IMPORT "<path>" [AS <alias>]`.
#[verifier::spinoff_prover]
#[verifier::rlimit(30)]
fn stmt_import(src: &Src, pos: usize) -> (r: PRes<Statement>)
    requires
        src.wf(),
        pos <= src.len(),
    ensures
        stmt_ok(r, pos, src.len()),
        r matches Ok((st, e)) ==> stmt_written(src.text@, pos as int, st, e as int),
        (forall|f: int| !#[trigger] kw_space_ok(src.text@, pos as int, Kw::Import, f)) ==> r matches Err(PErr::Error(_)),
        forall|st: Statement, e: int|
            #[trigger] stmt_written(src.text@, pos as int, st, e) && st is Import ==> (r matches Ok((_, e2)) && e2 == e),
{
    let ghost t = src.text@;
    let start = match keyword_space(src, pos, Kw::Import) {
        Some(e) => e,
        None => {
            return Err(PErr::Error(pos));
        },
    };
    proof {
        assert forall|st: Statement, e: int| #[trigger] stmt_written(t, pos as int, st, e) && st is Import implies {
            let w = choose|w: Seq<int>| #[trigger] stmt_parts(t, pos as int, st, e, w);
            w[0] == start
        } by {
            let w = choose|w: Seq<int>| #[trigger] stmt_parts(t, pos as int, st, e, w);
            lemma_kw_space_unique(t, pos as int, Kw::Import, w[0], start as int);
        }
    }
    let msg = "IMPORT expects a quoted path, e.g. IMPORT \"physics.vrf\"";
    let p = match tag_char(src, start, '"') {
        Some(e) => e,
        None => {
            return fail_at(start, msg);
        },
    };
    let mut q = p;
    while q < src.text.len() && src.text[q] != '"' && src.text[q] != '\n'
        invariant
            src.wf(),
            p <= q <= src.len(),
            forall|i: int| p <= i < q ==> #[trigger] src.text@[i] != '"' && src.text@[i] != '\n',
        decreases src.len() - q,
    {
        q = q + 1;
    }
    proof {
        assert forall|st: Statement, e: int| #[trigger] stmt_written(t, pos as int, st, e) && st is Import implies {
            let w = choose|w: Seq<int>| #[trigger] stmt_parts(t, pos as int, st, e, w);
            w[1] == q
        } by {
            let w = choose|w: Seq<int>| #[trigger] stmt_parts(t, pos as int, st, e, w);
            if q < w[1] {
                assert(t[q as int] != '"' && t[q as int] != '\n');
            } else if q > w[1] {
                assert(t[w[1]] != '"');
            }
        }
    }
    let after = match tag_char(src, q, '"') {
        Some(e) => e,
        None => {
            return fail_at(start, msg);
        },
    };
    let path_text = src.slice(p, q);
    let path = src.located(path_text, start);
    let ghost mut w2: int = 0;
    let ghost mut w3: int = 0;
    let ghost mut w4: int = 0;
    let ghost mut sa: Option<usize> = None;
    let ghost mut ka: Option<usize> = None;
    // Optional `AS <alias>`: a local name for the imported domain.
    let (alias, p) = match space1(src, after) {
        Some(e) => {
            proof {
                sa = Some(e);
            }
            match keyword_space(src, e, Kw::As) {
                Some(e2) => {
                    proof {
                        ka = Some(e2);
                    }
                    match identifier(src, e2) {
                        Ok((a, e3)) => {
                            proof {
                                w2 = e as int;
                                w3 = e2 as int;
                                w4 = e3 as int;
                            }
                            (Some(a), e3)
                        },
                        Err(_) => {
                            proof {
                                assert(forall|f: int, x: Seq<char>| !#[trigger] ident_ok(t, e2 as int, f, x));
                            }
                            (None, after)
                        },
                    }
                },
                None => {
                    proof {
                        assert(forall|f: int| !#[trigger] kw_space_ok(t, e as int, Kw::As, f));
                    }
                    (None, after)
                },
            }
        },
        None => {
            proof {
                assert(forall|f: int| !#[trigger] space1_ok(t, after as int, f));
            }
            (None, after)
        },
    };
    proof {
        assert forall|st: Statement, f: int| #[trigger] stmt_written(t, pos as int, st, f) && st is Import implies {
            let w = choose|w: Seq<int>| #[trigger] stmt_parts(t, pos as int, st, f, w);
            &&& (alias is Some <==> st->Import_alias is Some)
            &&& eol_ok(t, p as int, f)
        } by {
            let w = choose|w: Seq<int>| #[trigger] stmt_parts(t, pos as int, st, f, w);
            match st->Import_alias {
                Some(a) => {
                    lemma_spaces_unique(t, after as int, w[2], sa->0 as int);
                    lemma_kw_space_unique(t, w[2], Kw::As, w[3], ka->0 as int);
                    if alias is Some {
                        lemma_ident_unique(t, w[3], w[4], a.data@, p as int, alias->0.data@);
                    }
                },
                None => {
                    if alias is Some {
                        lemma_eol_stop(t, after as int, f);
                        let g = choose|g: int| #![trigger spaces_ok(t, after as int, g)] spaces_ok(t, after as int, g) && (g == t.len() || t[g] == '/' || t[g] == '\n' || t[g] == '\r' || t[g] == ':');
                        lemma_spaces_unique(t, after as int, g, w2);
                        let k = choose|k: int| #![trigger kw_ok(t, w2, Kw::As, k)] kw_ok(t, w2, Kw::As, k) && space1_ok(t, k, w3);
                        assert(t.subrange(w2, w2 + 2)[0] == t[w2]);
                    }
                },
            }
        }
    }
    let ((), e) = eol_or(src, p, "unexpected text after the IMPORT path (did you mean AS <alias>?)")?;
    let st = Statement::Import { path, alias };
    proof {
        assert(stmt_parts(src.text@, pos as int, st, e as int, seq![start as int, q as int, w2, w3, w4, 0, 0, 0]));
    }
    Ok((st, e))
}

/// Zero or more `SET` element lines.
fn many_elements(src: &Src, pos: usize) -> (r: (Vec<Located<String>>, usize))
    requires
        src.wf(),
        pos <= src.len(),
    ensures
        pos <= r.1 <= src.len(),
        forall|i: int| 0 <= i < r.0@.len() ==> wf_name(#[trigger] r.0@[i]),
        element_lines_ok(src.text@, pos as int, r.0@, r.1 as int),
        forall|names: Seq<Located<String>>, e: int|
            #[trigger] element_lines_ok(src.text@, pos as int, names, e) && !element_line_ahead(src.text@, e) ==> r.1 == e,
{
    let ghost t = src.text@;
    let mut out: Vec<Located<String>> = Vec::new();
    let mut p = pos;
    let ghost mut ps: Seq<int> = seq![pos as int];
    loop
        invariant
            src.wf(),
            t == src.text@,
            pos <= p <= src.len(),
            forall|i: int| 0 <= i < out@.len() ==> wf_name(#[trigger] out@[i]),
            element_lines(src.text@, ps, out@),
            ps[0] == pos,
            ps.last() == p,
            forall|names: Seq<Located<String>>, qs: Seq<int>|
                #[trigger] element_lines(t, qs, names) && qs[0] == pos && !element_line_ahead(t, qs.last()) ==> out@.len()
                    <= names.len() && qs[out@.len() as int] == p,
        decreases src.len() - p,
    {
        let rl = element_line(src, p);
        let ghost k = out@.len() as int;
        proof {
            assert forall|names: Seq<Located<String>>, qs: Seq<int>|
                #[trigger] element_lines(t, qs, names) && qs[0] == pos && !element_line_ahead(t, qs.last()) implies (k
                    == names.len() && rl is Err) || (k < names.len() && (rl matches Ok((_, e2)) && e2 == qs[k + 1])) by {
                if k < names.len() {
                    assert(element_step(t, qs, names, k));
                    assert(element_line_ok(t, qs[k], names[k].data@, qs[k + 1]));
                } else {
                    if rl is Ok {
                        assert(element_line_ok(t, p as int, rl->Ok_0.0.data@, rl->Ok_0.1 as int));
                    }
                }
            }
        }
        match rl {
            Ok((n, e)) => {
                let ghost old_ps = ps;
                let ghost old_out = out@;
                out.push(n);
                proof {
                    ps = ps.push(e as int);
                    assert forall|i: int| 0 <= i < out@.len() implies #[trigger] element_step(src.text@, ps, out@, i) by {
                        if i < old_out.len() {
                            assert(element_step(src.text@, old_ps, old_out, i));
                        }
                    }
                }
                p = e;
            },
            Err(_) => {
                proof {
                    assert forall|names: Seq<Located<String>>, f: int|
                        #[trigger] element_lines_ok(t, pos as int, names, f) && !element_line_ahead(t, f) implies f == p by {
                        let qs = choose|qs: Seq<int>| #[trigger] element_lines(t, qs, names) && qs[0] == pos && qs.last() == f;
                        assert(element_lines(t, qs, names));
                    }
                }
                return (out, p);
            },
        }
    }
}

/// `SET <name>` then one identifier per line (at least one).
#[verifier::spinoff_prover]
#[verifier::rlimit(30)]
fn stmt_set(src: &Src, pos: usize) -> (r: PRes<Statement>)
    requires
        src.wf(),
        pos <= src.len(),
    ensures
        stmt_ok(r, pos, src.len()),
        r matches Ok((st, e)) ==> stmt_written(src.text@, pos as int, st, e as int),
        (forall|f: int| !#[trigger] kw_space_ok(src.text@, pos as int, Kw::SetDef, f)) ==> r matches Err(PErr::Error(_)),
        forall|st: Statement, e: int|
            #[trigger] stmt_written(src.text@, pos as int, st, e) && st is SetDecl && block_end(src.text@, e) ==> (r matches Ok(
                (_, e2),
            ) && e2 == e),
{
    let ghost t = src.text@;
    let p0 = match keyword_space(src, pos, Kw::SetDef) {
        Some(e) => e,
        None => {
            return Err(PErr::Error(pos));
        },
    };
    proof {
        assert forall|st: Statement, e: int| #[trigger] stmt_written(t, pos as int, st, e) && st is SetDecl implies ({
            let w = choose|w: Seq<int>| #[trigger] stmt_parts(t, pos as int, st, e, w);
            w[0] == p0
        }) by {
            let w = choose|w: Seq<int>| #[trigger] stmt_parts(t, pos as int, st, e, w);
            lemma_kw_space_unique(t, pos as int, Kw::SetDef, w[0], p0 as int);
        }
    }
    let (name, p1) = match identifier(src, p0) {
        Ok(v) => v,
        Err(_) => {
            proof {
                assert forall|st: Statement, e: int| !(#[trigger] stmt_written(t, pos as int, st, e) && st is SetDecl) by {
                    if stmt_written(t, pos as int, st, e) && st is SetDecl {
                        let w = choose|w: Seq<int>| #[trigger] stmt_parts(t, pos as int, st, e, w);
                        assert(ident_ok(t, w[0], w[1], st->SetDecl_name.data@));
                    }
                }
            }
            return fail_at(p0, "SET expects a name (a lowercase identifier), e.g. SET tasks");
        },
    };
    proof {
        assert forall|st: Statement, e: int| #[trigger] stmt_written(t, pos as int, st, e) && st is SetDecl implies ({
            let w = choose|w: Seq<int>| #[trigger] stmt_parts(t, pos as int, st, e, w);
            w[1] == p1
        }) by {
            let w = choose|w: Seq<int>| #[trigger] stmt_parts(t, pos as int, st, e, w);
            lemma_ident_unique(t, p0 as int, w[1], st->SetDecl_name.data@, p1 as int, name.data@);
        }
    }
    let ((), p2) = eol_or(src, p1, "unexpected text after the SET name")?;
    proof {
        assert forall|st: Statement, e: int| #[trigger] stmt_written(t, pos as int, st, e) && st is SetDecl implies ({
            let w = choose|w: Seq<int>| #[trigger] stmt_parts(t, pos as int, st, e, w);
            w[2] == p2
        }) by {
            let w = choose|w: Seq<int>| #[trigger] stmt_parts(t, pos as int, st, e, w);
            assert(eol_ok(t, p1 as int, w[2]));
        }
    }
    let (first, p3) = match element_line(src, p2) {
        Ok(v) => v,
        Err(_) => {
            proof {
                assert forall|st: Statement, e: int| !(#[trigger] stmt_written(t, pos as int, st, e) && st is SetDecl) by {
                    if stmt_written(t, pos as int, st, e) && st is SetDecl {
                        let w = choose|w: Seq<int>| #[trigger] stmt_parts(t, pos as int, st, e, w);
                        let qs = choose|qs: Seq<int>| #[trigger] element_lines(t, qs, st->SetDecl_elements@) && qs[0] == w[2] && qs.last() == e;
                        assert(element_step(t, qs, st->SetDecl_elements@, 0));
                    }
                }
            }
            return fail_at(p2, "a SET needs at least one element — one identifier per line");
        },
    };
    proof {
        assert forall|st: Statement, e: int| #[trigger] stmt_written(t, pos as int, st, e) && st is SetDecl implies
            element_lines_ok(t, p3 as int, st->SetDecl_elements@.drop_first(), e) by {
            let w = choose|w: Seq<int>| #[trigger] stmt_parts(t, pos as int, st, e, w);
            let names = st->SetDecl_elements@;
            let qs = choose|qs: Seq<int>| #[trigger] element_lines(t, qs, names) && qs[0] == w[2] && qs.last() == e;
            assert(element_step(t, qs, names, 0));
            let qs2 = qs.drop_first();
            let n2 = names.drop_first();
            assert forall|i: int| 0 <= i < n2.len() implies #[trigger] element_step(t, qs2, n2, i) by {
                assert(element_step(t, qs, names, i + 1));
            }
            assert(element_lines(t, qs2, n2));
        }
    }
    let (rest, e) = many_elements(src, p3);
    let ghost gf = first;
    let ghost grest = rest@;
    let mut elements: Vec<Located<String>> = Vec::new();
    elements.push(first);
    let mut rest = rest;
    elements.append(&mut rest);
    let st = Statement::SetDecl { name, elements };
    proof {
        let rps = choose|ps: Seq<int>| #[trigger] element_lines(src.text@, ps, grest) && ps[0] == p3 as int && ps.last() == e as int;
        let ps = seq![p2 as int] + rps;
        let all = seq![gf] + grest;
        assert(all =~= st->elements@);
        assert forall|i: int| 0 <= i < all.len() implies #[trigger] element_step(src.text@, ps, all, i) by {
            if i >= 1 {
                assert(element_step(src.text@, rps, grest, i - 1));
                assert(ps[i] == rps[i - 1] && ps[i + 1] == rps[i] && all[i] == grest[i - 1]);
            }
        }
        assert(element_lines(src.text@, ps, all));
        assert(stmt_parts(src.text@, pos as int, st, e as int, seq![p0 as int, p1 as int, p2 as int, 0, 0, 0, 0, 0]));
        assert forall|st2: Statement, f: int| #[trigger] stmt_written(t, pos as int, st2, f) && st2 is SetDecl && block_end(t, f)
            implies f == e by {
            assert(element_lines_ok(t, p3 as int, st2->SetDecl_elements@.drop_first(), f));
        }
    }
    Ok((st, e))
}

/// The closure kind word of a `CLOSE`.
fn close_kind(src: &Src, pos: usize) -> (r: Option<(CloseKind, usize)>)
    requires
        src.wf(),
        pos <= src.len(),
    ensures
        r matches Some((_, e)) ==> pos < e <= src.len(),
        r matches Some((k, e)) ==> kw_ok(src.text@, pos as int, close_kw(k), e as int),
        forall|k: CloseKind, e: int| #[trigger] kw_ok(src.text@, pos as int, close_kw(k), e) ==> r == Some((k, e as usize)),
{
    proof {
        assert forall|k: CloseKind, e: int| #[trigger] kw_ok(src.text@, pos as int, close_kw(k), e) implies true by {}
    }
    let r = close_kind_tags(src, pos);
    proof {
        assert forall|k: CloseKind, e: int| #[trigger] kw_ok(src.text@, pos as int, close_kw(k), e) implies r == Some((k, e as usize)) by {
            match r {
                Some((k2, e2)) => {
                    lemma_close_clash(src.text@, pos as int, k, k2);
                },
                None => {},
            }
        }
    }
    r
}

/// Two closure kinds written at one place are the same kind.
proof fn lemma_close_clash(t: Seq<char>, p: int, k1: CloseKind, k2: CloseKind)
    requires
        0 <= p,
        holds_at(t, p, kw_spec(close_kw(k1))),
        holds_at(t, p, kw_spec(close_kw(k2))),
    ensures
        k1 == k2,
{
    let a = kw_spec(close_kw(k1));
    let b = kw_spec(close_kw(k2));
    assert(a.len() >= 3 && b.len() >= 3);
    assert(a[0] == t[p] && b[0] == t[p]) by {
        assert(t.subrange(p, p + a.len())[0] == t[p]);
        assert(t.subrange(p, p + b.len())[0] == t[p]);
    }
    assert(a[1] == t[p + 1] && b[1] == t[p + 1]) by {
        assert(t.subrange(p, p + a.len())[1] == t[p + 1]);
        assert(t.subrange(p, p + b.len())[1] == t[p + 1]);
    }
}

/// The closure kind word at `pos`, trying each kind in turn.
fn close_kind_tags(src: &Src, pos: usize) -> (r: Option<(CloseKind, usize)>)
    requires
        src.wf(),
        pos <= src.len(),
    ensures
        r matches Some((_, e)) ==> pos < e <= src.len(),
        r matches Some((k, e)) ==> kw_ok(src.text@, pos as int, close_kw(k), e as int),
        r is None ==> forall|k: CloseKind| !holds_at(src.text@, pos as int, #[trigger] kw_spec(close_kw(k))),
{
    if let Some(e) = tag(src, pos, Kw::Transitive) {
        return Some((CloseKind::Transitive, e));
    }
    if let Some(e) = tag(src, pos, Kw::Symmetric) {
        return Some((CloseKind::Symmetric, e));
    }
    if let Some(e) = tag(src, pos, Kw::Reflexive) {
        return Some((CloseKind::Reflexive, e));
    }
    if let Some(e) = tag(src, pos, Kw::Equivalence) {
        return Some((CloseKind::Equivalence, e));
    }
    if let Some(e) = tag(src, pos, Kw::Scc) {
        return Some((CloseKind::Scc, e));
    }
    proof {
        assert forall|k: CloseKind| !holds_at(src.text@, pos as int, #[trigger] kw_spec(close_kw(k))) by {
            match k {
                CloseKind::Transitive => {},
                CloseKind::Symmetric => {},
                CloseKind::Reflexive => {},
                CloseKind::Equivalence => {},
                CloseKind::Scc => {},
            }
        }
    }
    None
}

/// `CLOSE <relation> <kind>`.
#[verifier::spinoff_prover]
#[verifier::rlimit(30)]
fn stmt_close(src: &Src, pos: usize) -> (r: PRes<Statement>)
    requires
        src.wf(),
        pos <= src.len(),
    ensures
        stmt_ok(r, pos, src.len()),
        r matches Ok((st, e)) ==> stmt_written(src.text@, pos as int, st, e as int),
        (forall|f: int| !#[trigger] kw_space_ok(src.text@, pos as int, Kw::Close, f)) ==> r matches Err(PErr::Error(_)),
        forall|st: Statement, e: int|
            #[trigger] stmt_written(src.text@, pos as int, st, e) && st is Close ==> (r matches Ok((_, e2)) && e2 == e),
{
    let ghost t = src.text@;
    let p0 = match keyword_space(src, pos, Kw::Close) {
        Some(e) => e,
        None => {
            return Err(PErr::Error(pos));
        },
    };
    let (relation, p1) = match identifier(src, p0) {
        Ok(v) => v,
        Err(_) => {
            proof {
                assert forall|st: Statement, e: int| #[trigger] stmt_written(t, pos as int, st, e) && st is Close implies false by {
                    let w = choose|w: Seq<int>| #[trigger] stmt_parts(t, pos as int, st, e, w);
                    lemma_kw_space_unique(t, pos as int, Kw::Close, w[0], p0 as int);
                }
            }
            return fail_at(p0, "CLOSE expects a relation name, e.g. CLOSE depends_on TRANSITIVE");
        },
    };
    proof {
        assert forall|st: Statement, e: int| #[trigger] stmt_written(t, pos as int, st, e) && st is Close implies {
            let w = choose|w: Seq<int>| #[trigger] stmt_parts(t, pos as int, st, e, w);
            w[1] == p1 && space1_ok(t, p1 as int, w[2])
        } by {
            let w = choose|w: Seq<int>| #[trigger] stmt_parts(t, pos as int, st, e, w);
            lemma_kw_space_unique(t, pos as int, Kw::Close, w[0], p0 as int);
            lemma_ident_unique(t, p0 as int, w[1], st->relation.data@, p1 as int, relation.data@);
        }
    }
    let kind_msg = "CLOSE expects a closure kind: CLOSE <relation> TRANSITIVE|SYMMETRIC|REFLEXIVE|EQUIVALENCE|SCC";
    let p2 = match space1(src, p1) {
        Some(e) => e,
        None => {
            return fail_at(p1, kind_msg);
        },
    };
    proof {
        assert forall|st: Statement, e: int| #[trigger] stmt_written(t, pos as int, st, e) && st is Close implies {
            let w = choose|w: Seq<int>| #[trigger] stmt_parts(t, pos as int, st, e, w);
            w[2] == p2
        } by {
            let w = choose|w: Seq<int>| #[trigger] stmt_parts(t, pos as int, st, e, w);
            lemma_spaces_unique(t, p1 as int, w[2], p2 as int);
        }
    }
    let (kind, p3) = match close_kind(src, p2) {
        Some(v) => v,
        None => {
            return fail_at(p1, kind_msg);
        },
    };
    proof {
        assert forall|st: Statement, e: int| #[trigger] stmt_written(t, pos as int, st, e) && st is Close implies eol_ok(
            t,
            p3 as int,
            e,
        ) by {
            let w = choose|w: Seq<int>| #[trigger] stmt_parts(t, pos as int, st, e, w);
            assert(kw_ok(t, p2 as int, close_kw(st->kind), w[3]));
        }
    }
    let ((), e) = eol_or(src, p3, "unexpected text after 'CLOSE <relation> <kind>'")?;
    let st = Statement::Close { relation, kind };
    proof {
        assert(stmt_parts(src.text@, pos as int, st, e as int, seq![p0 as int, p1 as int, p2 as int, p3 as int, 0, 0, 0, 0]));
    }
    Ok((st, e))
}

/// `VAR <name> [DEFAULT true|false]`.
#[verifier::spinoff_prover]
#[verifier::rlimit(30)]
fn stmt_var(src: &Src, pos: usize) -> (r: PRes<Statement>)
    requires
        src.wf(),
        pos <= src.len(),
    ensures
        stmt_ok(r, pos, src.len()),
        r matches Ok((st, e)) ==> stmt_written(src.text@, pos as int, st, e as int),
        (forall|f: int| !#[trigger] kw_space_ok(src.text@, pos as int, Kw::Var, f)) ==> r matches Err(PErr::Error(_)),
        forall|st: Statement, e: int|
            #[trigger] stmt_written(src.text@, pos as int, st, e) && st is Var ==> (r matches Ok((_, e2)) && e2 == e),
{
    let ghost t = src.text@;
    let p0 = match keyword_space(src, pos, Kw::Var) {
        Some(e) => e,
        None => {
            return Err(PErr::Error(pos));
        },
    };
    let (name, p1) = match identifier(src, p0) {
        Ok(v) => v,
        Err(_) => {
            proof {
                assert forall|st: Statement, e: int| #[trigger] stmt_written(t, pos as int, st, e) && st is Var implies false by {
                    let w = choose|w: Seq<int>| #[trigger] stmt_parts(t, pos as int, st, e, w);
                    lemma_kw_space_unique(t, pos as int, Kw::Var, w[0], p0 as int);
                }
            }
            return fail_at(p0, "VAR expects a name (a lowercase identifier), e.g. VAR db_ready");
        },
    };
    proof {
        assert forall|st: Statement, e: int| #[trigger] stmt_written(t, pos as int, st, e) && st is Var implies {
            let w = choose|w: Seq<int>| #[trigger] stmt_parts(t, pos as int, st, e, w);
            w[1] == p1
        } by {
            let w = choose|w: Seq<int>| #[trigger] stmt_parts(t, pos as int, st, e, w);
            lemma_kw_space_unique(t, pos as int, Kw::Var, w[0], p0 as int);
            lemma_ident_unique(t, p0 as int, w[1], st->Var_name.data@, p1 as int, name.data@);
        }
    }
    // Optional `DEFAULT true|false`; once DEFAULT matches, a bad value commits.
    let ghost mut w2: int = 0;
    let has_default = match space1(src, p1) {
        Some(e) => {
            proof {
                w2 = e as int;
            }
            tag(src, e, Kw::Default)
        },
        None => None,
    };
    proof {
        assert forall|st: Statement, e: int| #[trigger] stmt_written(t, pos as int, st, e) && st is Var implies (
        st->Var_default is Some <==> has_default is Some) by {
            let w = choose|w: Seq<int>| #[trigger] stmt_parts(t, pos as int, st, e, w);
            match st->Var_default {
                Some(b) => {
                    let q = choose|q: int| #![trigger kw_ok(t, w[2], Kw::Default, q)] kw_ok(t, w[2], Kw::Default, q) && space1_ok(t, q, w[3]);
                    if has_default is None {
                        if w2 != w[2] {
                            assert(space1_ok(t, p1 as int, w[2]));
                        }
                    }
                },
                None => {
                    lemma_eol_stop(t, p1 as int, e);
                    if let Some(x) = has_default {
                        let f = choose|f: int| #![trigger spaces_ok(t, p1 as int, f)] spaces_ok(t, p1 as int, f) && (f == t.len() || t[f] == '/' || t[f] == '\n' || t[f] == '\r' || t[f] == ':');
                        lemma_spaces_unique(t, p1 as int, f, w2);
                        assert(t.subrange(w2, w2 + 7)[0] == t[w2]);
                    }
                },
            }
        }
    }
    let ghost mut w3: int = 0;
    let (default, p) = match has_default {
        Some(e) => {
            let v = match space1(src, e) {
                Some(e2) => e2,
                None => {
                    proof {
                        assert forall|st: Statement, f: int| #[trigger] stmt_written(t, pos as int, st, f) && st is Var implies false by {
                            let w = choose|w: Seq<int>| #[trigger] stmt_parts(t, pos as int, st, f, w);
                            lemma_spaces_unique(t, p1 as int, w[2], w2);
                            let q = choose|q: int| #![trigger kw_ok(t, w[2], Kw::Default, q)] kw_ok(t, w[2], Kw::Default, q) && space1_ok(t, q, w[3]);
                        }
                    }
                    return fail_at(e, "DEFAULT expects a value: DEFAULT true|false");
                },
            };
            proof {
                w3 = v as int;
                assert(kw_ok(src.text@, w2, Kw::Default, e as int) && space1_ok(src.text@, e as int, v as int));
                assert forall|st: Statement, f: int| #[trigger] stmt_written(t, pos as int, st, f) && st is Var implies {
                    let w = choose|w: Seq<int>| #[trigger] stmt_parts(t, pos as int, st, f, w);
                    &&& w[3] == v
                    &&& bool_ok(t, v as int, w[4], st->Var_default->0)
                    &&& word_stop(t, w[4])
                    &&& eol_ok(t, w[4], f)
                } by {
                    let w = choose|w: Seq<int>| #[trigger] stmt_parts(t, pos as int, st, f, w);
                    lemma_spaces_unique(t, p1 as int, w[2], w2);
                    let q = choose|q: int| #![trigger kw_ok(t, w[2], Kw::Default, q)] kw_ok(t, w[2], Kw::Default, q) && space1_ok(t, q, w[3]);
                    lemma_spaces_unique(t, e as int, w[3], v as int);
                    lemma_eol_stop(t, w[4], f);
                }
            }
            match bool_lit(src, v) {
                Ok((b, e3)) => (Some(b), e3),
                Err(_) => {
                    return fail_at(v, "DEFAULT expects true or false");
                },
            }
        },
        None => (None, p1),
    };
    proof {
        assert forall|st: Statement, f: int| #[trigger] stmt_written(t, pos as int, st, f) && st is Var implies eol_ok(
            t,
            p as int,
            f,
        ) by {
            let w = choose|w: Seq<int>| #[trigger] stmt_parts(t, pos as int, st, f, w);
        }
    }
    let ((), e) = eol_or(src, p, "unexpected text after the VAR declaration")?;
    let st = Statement::Var { name, default };
    proof {
        assert(stmt_parts(src.text@, pos as int, st, e as int, seq![p0 as int, p1 as int, w2, w3, p as int, 0, 0, 0]));
    }
    Ok((st, e))
}

/// `PROVIDE [<domain>.]<port|atom>: true|false`.
#[verifier::spinoff_prover]
#[verifier::rlimit(30)]
fn stmt_provide(src: &Src, pos: usize) -> (r: PRes<Statement>)
    requires
        src.wf(),
        pos <= src.len(),
    ensures
        stmt_ok(r, pos, src.len()),
        r matches Ok((st, e)) ==> stmt_written(src.text@, pos as int, st, e as int),
        (forall|f: int| !#[trigger] kw_space_ok(src.text@, pos as int, Kw::Provide, f)) ==> r matches Err(PErr::Error(_)),
        forall|st: Statement, e: int|
            #[trigger] stmt_written(src.text@, pos as int, st, e) && st is Provide ==> (r matches Ok((_, e2)) && e2 == e),
{
    let ghost t = src.text@;
    let p0 = match keyword_space(src, pos, Kw::Provide) {
        Some(e) => e,
        None => {
            return Err(PErr::Error(pos));
        },
    };
    proof {
        assert forall|st: Statement, e: int| #[trigger] stmt_written(t, pos as int, st, e) && st is Provide implies {
            let w = choose|w: Seq<int>| #[trigger] stmt_parts(t, pos as int, st, e, w);
            &&& atom_ok(t, p0 as int, st->Provide_atom.data, w[1])
            &&& atom_follow(t, w[1])
            &&& spaces_ok(t, w[1], w[2])
            &&& t[w[2]] == ':'
            &&& spaces_ok(t, w[2] + 1, w[3])
            &&& bool_ok(t, w[3], w[4], st->Provide_value)
            &&& word_stop(t, w[4])
            &&& eol_ok(t, w[4], e)
        } by {
            let w = choose|w: Seq<int>| #[trigger] stmt_parts(t, pos as int, st, e, w);
            lemma_kw_space_unique(t, pos as int, Kw::Provide, w[0], p0 as int);
            lemma_eol_stop(t, w[4], e);
            assert(spaces_ok(t, w[1], w[2]));
        }
    }
    let (a, p1) = match atom(src, p0) {
        Ok(v) => v,
        Err(_) => {
            return fail_at(p0, "PROVIDE expects a port or atom, e.g. PROVIDE db_ready: true");
        },
    };
    let p2 = skip_spaces(src, p1);
    proof {
        assert forall|st: Statement, e: int| #[trigger] stmt_written(t, pos as int, st, e) && st is Provide implies {
            let w = choose|w: Seq<int>| #[trigger] stmt_parts(t, pos as int, st, e, w);
            w[2] == p2 && spaces_ok(t, p2 + 1, w[3])
        } by {
            let w = choose|w: Seq<int>| #[trigger] stmt_parts(t, pos as int, st, e, w);
            lemma_spaces_unique(t, p1 as int, w[2], p2 as int);
        }
    }
    let p = match tag_char(src, p2, ':') {
        Some(e) => e,
        None => {
            return fail_at(p2, "PROVIDE expects ':' then a value: PROVIDE <port>: true|false");
        },
    };
    let p3 = skip_spaces(src, p);
    proof {
        assert forall|st: Statement, e: int| #[trigger] stmt_written(t, pos as int, st, e) && st is Provide implies {
            let w = choose|w: Seq<int>| #[trigger] stmt_parts(t, pos as int, st, e, w);
            w[3] == p3
        } by {
            let w = choose|w: Seq<int>| #[trigger] stmt_parts(t, pos as int, st, e, w);
            lemma_spaces_unique(t, p as int, w[3], p3 as int);
        }
    }
    let (value, p4) = match bool_lit(src, p3) {
        Ok(v) => v,
        Err(_) => {
            return fail_at(p3, "PROVIDE expects true or false");
        },
    };
    let ((), e) = eol_or(src, p4, "unexpected text after the PROVIDE value")?;
    let st = Statement::Provide { atom: a, value };
    proof {
        assert(stmt_parts(src.text@, pos as int, st, e as int, seq![p0 as int, p1 as int, p2 as int, p3 as int, p4 as int, 0, 0, 0]));
    }
    Ok((st, e))
}

/// `FACT <atom>`.
#[verifier::spinoff_prover]
#[verifier::rlimit(30)]
fn stmt_fact(src: &Src, pos: usize) -> (r: PRes<Statement>)
    requires
        src.wf(),
        pos <= src.len(),
    ensures
        stmt_ok(r, pos, src.len()),
        r matches Ok((st, e)) ==> stmt_written(src.text@, pos as int, st, e as int),
        (forall|f: int| !#[trigger] kw_space_ok(src.text@, pos as int, Kw::Fact, f)) ==> r matches Err(PErr::Error(_)),
        forall|st: Statement, e: int|
            #[trigger] stmt_written(src.text@, pos as int, st, e) && st is Fact ==> (r matches Ok((_, e2)) && e2 == e),
{
    let ghost t = src.text@;
    let p = match keyword_space(src, pos, Kw::Fact) {
        Some(e) => e,
        None => {
            return Err(PErr::Error(pos));
        },
    };
    proof {
        assert forall|st: Statement, e: int| #[trigger] stmt_written(t, pos as int, st, e) && st is Fact implies {
            let w = choose|w: Seq<int>| #[trigger] stmt_parts(t, pos as int, st, e, w);
            &&& w[0] == p
            &&& atom_ok(t, p as int, st->Fact_0.data, w[1])
            &&& atom_follow(t, w[1])
            &&& st->Fact_0.data.predicate is Some
            &&& eol_ok(t, w[1], e)
        } by {
            let w = choose|w: Seq<int>| #[trigger] stmt_parts(t, pos as int, st, e, w);
            lemma_kw_space_unique(t, pos as int, Kw::Fact, w[0], p as int);
            lemma_eol_stop(t, w[1], e);
        }
    }
    let a_start = p;
    let (a, p1) = match atom(src, p) {
        Ok(v) => v,
        Err(_) => {
            return fail_at(p, "FACT expects an atom: <Subject> <predicate> [<object>]");
        },
    };
    if a.data.predicate.is_none() {
        // a lone identifier names a port; asserting it needs a predicate
        return fail_at(a_start, "FACT expects an atom: <Subject> <predicate> [<object>]");
    }
    let ((), e) = eol_or(src, p1, "unexpected text after the FACT atom")?;
    let st = Statement::Fact(a);
    proof {
        assert(stmt_parts(src.text@, pos as int, st, e as int, seq![p as int, p1 as int, 0, 0, 0, 0, 0, 0]));
    }
    Ok((st, e))
}

/// `ASSUME [NOT] <atom>`.
#[verifier::spinoff_prover]
#[verifier::rlimit(30)]
fn stmt_assume(src: &Src, pos: usize) -> (r: PRes<Statement>)
    requires
        src.wf(),
        pos <= src.len(),
    ensures
        stmt_ok(r, pos, src.len()),
        r matches Ok((st, e)) ==> stmt_written(src.text@, pos as int, st, e as int),
        (forall|f: int| !#[trigger] kw_space_ok(src.text@, pos as int, Kw::Assume, f)) ==> r matches Err(PErr::Error(_)),
        forall|st: Statement, e: int|
            #[trigger] stmt_written(src.text@, pos as int, st, e) && st is Assume ==> (r matches Ok((_, e2)) && e2 == e),
{
    let ghost t = src.text@;
    let p = match keyword_space(src, pos, Kw::Assume) {
        Some(e) => e,
        None => {
            return Err(PErr::Error(pos));
        },
    };
    proof {
        assert forall|st: Statement, e: int| #[trigger] stmt_written(t, pos as int, st, e) && st is Assume implies {
            let w = choose|w: Seq<int>| #[trigger] stmt_parts(t, pos as int, st, e, w);
            &&& literal_ok(t, p as int, st->Assume_0.data, w[1])
            &&& atom_follow(t, w[1])
            &&& eol_ok(t, w[1], e)
        } by {
            let w = choose|w: Seq<int>| #[trigger] stmt_parts(t, pos as int, st, e, w);
            lemma_kw_space_unique(t, pos as int, Kw::Assume, w[0], p as int);
            lemma_eol_stop(t, w[1], e);
        }
    }
    let (l, p1) = match literal(src, p) {
        Ok(v) => v,
        Err(_) => {
            return fail_at(p, "ASSUME expects an atom: [NOT] <Subject> <predicate> [<object>]");
        },
    };
    let ((), e) = eol_or(src, p1, "unexpected text after the ASSUME atom")?;
    let st = Statement::Assume(l);
    proof {
        assert(stmt_parts(src.text@, pos as int, st, e as int, seq![p as int, p1 as int, 0, 0, 0, 0, 0, 0]));
    }
    Ok((st, e))
}

/// `NOT <atom>` — tried last, so a body-level `NOT` is never read as one.
#[verifier::spinoff_prover]
#[verifier::rlimit(30)]
fn stmt_negation(src: &Src, pos: usize) -> (r: PRes<Statement>)
    requires
        src.wf(),
        pos <= src.len(),
    ensures
        stmt_ok(r, pos, src.len()),
        r matches Ok((st, e)) ==> stmt_written(src.text@, pos as int, st, e as int),
        (forall|f: int| !#[trigger] kw_space_ok(src.text@, pos as int, Kw::Not, f)) ==> r matches Err(PErr::Error(_)),
        forall|st: Statement, e: int|
            #[trigger] stmt_written(src.text@, pos as int, st, e) && st is Negation ==> (r matches Ok((_, e2)) && e2 == e),
{
    let ghost t = src.text@;
    let p = match keyword_space(src, pos, Kw::Not) {
        Some(e) => e,
        None => {
            return Err(PErr::Error(pos));
        },
    };
    proof {
        assert forall|st: Statement, e: int| #[trigger] stmt_written(t, pos as int, st, e) && st is Negation implies {
            let w = choose|w: Seq<int>| #[trigger] stmt_parts(t, pos as int, st, e, w);
            &&& w[0] == p
            &&& atom_ok(t, p as int, st->Negation_0.data, w[1])
            &&& atom_follow(t, w[1])
            &&& st->Negation_0.data.predicate is Some
            &&& eol_ok(t, w[1], e)
        } by {
            let w = choose|w: Seq<int>| #[trigger] stmt_parts(t, pos as int, st, e, w);
            lemma_kw_space_unique(t, pos as int, Kw::Not, w[0], p as int);
            lemma_eol_stop(t, w[1], e);
        }
    }
    let a_start = p;
    let (a, p1) = match atom(src, p) {
        Ok(v) => v,
        Err(_) => {
            return fail_at(p, "NOT expects an atom: <Subject> <predicate> [<object>]");
        },
    };
    if a.data.predicate.is_none() {
        // a lone identifier names a port; asserting it needs a predicate
        return fail_at(a_start, "NOT expects an atom: <Subject> <predicate> [<object>]");
    }
    let ((), e) = eol_or(src, p1, "unexpected text after the NOT atom")?;
    let st = Statement::Negation(a);
    proof {
        assert(stmt_parts(src.text@, pos as int, st, e as int, seq![p as int, p1 as int, 0, 0, 0, 0, 0, 0]));
    }
    Ok((st, e))
}

/// `CHECK [<subject>] [BIDIRECTIONAL]` — both optional; never committed.
#[verifier::spinoff_prover]
#[verifier::rlimit(30)]
fn stmt_check(src: &Src, pos: usize) -> (r: PRes<Statement>)
    requires
        src.wf(),
        pos <= src.len(),
    ensures
        stmt_ok(r, pos, src.len()),
        r matches Ok((st, e)) ==> stmt_written(src.text@, pos as int, st, e as int),
        !holds_at(src.text@, pos as int, kw_spec(Kw::Check)) ==> r matches Err(PErr::Error(_)),
        forall|st: Statement, e: int|
            #[trigger] stmt_written(src.text@, pos as int, st, e) && st is Check ==> (r matches Ok((_, e2)) && e2 == e),
{
    let ghost t = src.text@;
    let p0 = match tag(src, pos, Kw::Check) {
        Some(e) => e,
        None => {
            return Err(PErr::Error(pos));
        },
    };
    let ghost mut w1: int = 0;
    let ghost mut sx: Option<usize> = None;
    let (subject, p2) = match space1(src, p0) {
        Some(e) => {
            proof {
                sx = Some(e);
            }
            match identifier(src, e) {
                Ok((id, e2)) => {
                    proof {
                        w1 = e as int;
                    }
                    (Some(id), e2)
                },
                Err(_) => {
                    proof {
                        assert(forall|f: int, x: Seq<char>| !#[trigger] ident_ok(t, e as int, f, x));
                    }
                    (None, p0)
                },
            }
        },
        None => {
            proof {
                assert(forall|f: int| !#[trigger] space1_ok(t, p0 as int, f));
            }
            (None, p0)
        },
    };
    proof {
        assert forall|st: Statement, f: int| #[trigger] stmt_written(t, pos as int, st, f) && st is Check implies {
            let w = choose|w: Seq<int>| #[trigger] stmt_parts(t, pos as int, st, f, w);
            w[2] == p2
        } by {
            let w = choose|w: Seq<int>| #[trigger] stmt_parts(t, pos as int, st, f, w);
            match st->Check_subject {
                Some(sj) => {
                    lemma_spaces_unique(t, p0 as int, w[1], sx->0 as int);
                    if subject is Some {
                        lemma_ident_unique(t, w[1], w[2], sj.data@, p2 as int, subject->0.data@);
                    }
                },
                None => {
                    if subject is Some {
                        if st->Check_bidirectional {
                            lemma_spaces_unique(t, p0 as int, w[3], w1);
                            lemma_eol_stop(t, w[4], f);
                            lemma_kw_word_no_ident(t, w[3], Kw::Bidirectional, w[4], p2 as int, subject->0.data@);
                        } else {
                            lemma_eol_stop(t, w[4], f);
                            let g = choose|g: int| #![trigger spaces_ok(t, w[4], g)] spaces_ok(t, w[4], g) && (g == t.len() || t[g] == '/' || t[g] == '\n' || t[g] == '\r' || t[g] == ':');
                            lemma_spaces_unique(t, p0 as int, g, w1);
                            assert(ident_start(t[w1]));
                        }
                    }
                },
            }
        }
    }
    let ghost mut w3: int = 0;
    let ghost mut sy: Option<usize> = None;
    let (bidirectional, p) = match space1(src, p2) {
        Some(e) => {
            proof {
                sy = Some(e);
            }
            match tag(src, e, Kw::Bidirectional) {
                Some(e2) => {
                    proof {
                        w3 = e as int;
                    }
                    (true, e2)
                },
                None => (false, p2),
            }
        },
        None => {
            proof {
                assert(forall|f: int| !#[trigger] space1_ok(t, p2 as int, f));
            }
            (false, p2)
        },
    };
    proof {
        assert forall|st: Statement, f: int| #[trigger] stmt_written(t, pos as int, st, f) && st is Check implies eol_ok(
            t,
            p as int,
            f,
        ) by {
            let w = choose|w: Seq<int>| #[trigger] stmt_parts(t, pos as int, st, f, w);
            if st->Check_bidirectional {
                lemma_spaces_unique(t, p2 as int, w[3], sy->0 as int);
            } else if bidirectional {
                lemma_eol_stop(t, w[4], f);
                let g = choose|g: int| #![trigger spaces_ok(t, w[4], g)] spaces_ok(t, w[4], g) && (g == t.len() || t[g] == '/' || t[g] == '\n' || t[g] == '\r' || t[g] == ':');
                lemma_spaces_unique(t, p2 as int, g, w3);
                assert(t.subrange(w3, w3 + 13)[0] == t[w3]);
            }
        }
    }
    match eol(src, p) {
        Some(e) => {
            let st = Statement::Check { subject, bidirectional };
            proof {
                assert(stmt_parts(src.text@, pos as int, st, e as int, seq![p0 as int, w1, p2 as int, w3, p as int, 0, 0, 0]));
                assert forall|st2: Statement, f: int| #[trigger] stmt_written(t, pos as int, st2, f) && st2 is Check implies f == e by {
                    lemma_eol_unique(t, p as int, f, e as int);
                }
            }
            Ok((st, e))
        },
        None => Err(PErr::Error(pos)),
    }
}

/// The optional `FOR EACH …` quantifier on a header: `FOR EACH <b> IN <set>` or
/// `FOR EACH <a> <relation> <b>`. No `FOR` is a recoverable `Error`.
fn for_each(src: &Src, pos: usize) -> (r: PRes<Quant>)
    requires
        src.wf(),
        pos <= src.len(),
    ensures
        progress(r, pos, src.len()),
        r matches Ok((q, _)) ==> wf_quant(q),
        r matches Ok((q, e)) ==> for_each_ok(src.text@, pos as int, q, e as int),
        !holds_at(src.text@, pos as int, kw_spec(Kw::For)) ==> r matches Err(PErr::Error(_)),
        forall|q: Quant, e: int, w: Seq<int>|
            #[trigger] for_each_parts(src.text@, pos as int, q, e, w) ==> (r matches Ok((_, e2)) && e2 == e),
{
    let ghost t = src.text@;
    let p0 = match tag(src, pos, Kw::For) {
        Some(e) => e,
        None => {
            proof {
                assert forall|q: Quant, e: int, w: Seq<int>| !#[trigger] for_each_parts(t, pos as int, q, e, w) by {
                    if for_each_parts(t, pos as int, q, e, w) {
                        assert(kw_ok(t, pos as int, Kw::For, w[0]));
                    }
                }
            }
            return Err(PErr::Error(pos));
        },
    };
    let each_msg = "FOR must be followed by EACH: FOR EACH <binder> IN <set>  (or  FOR EACH <a> <relation> <b>)";
    let p1 = match space1(src, p0) {
        Some(e) => e,
        None => {
            proof {
                assert forall|q: Quant, e: int, w: Seq<int>| !#[trigger] for_each_parts(t, pos as int, q, e, w) by {
                    if for_each_parts(t, pos as int, q, e, w) {
                        assert(space1_ok(t, w[0], w[1]));
                    }
                }
            }
            return fail_at(p0, each_msg);
        },
    };
    proof {
        assert forall|q: Quant, e: int, w: Seq<int>| #[trigger] for_each_parts(t, pos as int, q, e, w) implies w[1] == p1 by {
            lemma_spaces_unique(t, p0 as int, w[1], p1 as int);
        }
    }
    let p2 = match tag(src, p1, Kw::Each) {
        Some(e) => e,
        None => {
            proof {
                assert forall|q: Quant, e: int, w: Seq<int>| !#[trigger] for_each_parts(t, pos as int, q, e, w) by {
                    if for_each_parts(t, pos as int, q, e, w) {
                        assert(kw_ok(t, w[1], Kw::Each, w[2]));
                    }
                }
            }
            return fail_at(p0, each_msg);
        },
    };
    let p3 = match space1(src, p2) {
        Some(e) => e,
        None => {
            proof {
                assert forall|q: Quant, e: int, w: Seq<int>| !#[trigger] for_each_parts(t, pos as int, q, e, w) by {
                    if for_each_parts(t, pos as int, q, e, w) {
                        assert(space1_ok(t, w[2], w[3]));
                    }
                }
            }
            return fail_at(p0, each_msg);
        },
    };
    proof {
        assert forall|q: Quant, e: int, w: Seq<int>| #[trigger] for_each_parts(t, pos as int, q, e, w) implies w[3] == p3 by {
            lemma_spaces_unique(t, p2 as int, w[3], p3 as int);
        }
    }
    let (first, p4) = match identifier(src, p3) {
        Ok(v) => v,
        Err(_) => {
            proof {
                assert forall|q: Quant, e: int, w: Seq<int>| !#[trigger] for_each_parts(t, pos as int, q, e, w) by {
                    if for_each_parts(t, pos as int, q, e, w) {
                        match q {
                            Quant::InSet { binder, .. } => { assert(ident_ok(t, w[3], w[4], binder.data@)); },
                            Quant::Relation { left, .. } => { assert(ident_ok(t, w[3], w[4], left.data@)); },
                        }
                    }
                }
            }
            return fail_at(p3, "expected a binder name after FOR EACH");
        },
    };
    proof {
        assert forall|q: Quant, e: int, w: Seq<int>| #[trigger] for_each_parts(t, pos as int, q, e, w) implies w[4] == p4 by {
            match q {
                Quant::InSet { binder, .. } => { lemma_ident_unique(t, p3 as int, w[4], binder.data@, p4 as int, first.data@); },
                Quant::Relation { left, .. } => { lemma_ident_unique(t, p3 as int, w[4], left.data@, p4 as int, first.data@); },
            }
        }
    }
    let p5 = match space1(src, p4) {
        Some(e) => e,
        None => {
            proof {
                assert forall|q: Quant, e: int, w: Seq<int>| !#[trigger] for_each_parts(t, pos as int, q, e, w) by {
                    if for_each_parts(t, pos as int, q, e, w) {
                        assert(space1_ok(t, w[4], w[5]));
                    }
                }
            }
            return fail_at(p4, "expected `IN <set>` or a relation `<rel> <binder>` after the FOR EACH binder");
        },
    };
    proof {
        assert forall|q: Quant, e: int, w: Seq<int>| #[trigger] for_each_parts(t, pos as int, q, e, w) implies w[5] == p5 by {
            lemma_spaces_unique(t, p4 as int, w[5], p5 as int);
        }
    }
    // `IN <set>` → a set quantifier; otherwise `<predicate> <right>` → a relation.
    if let Some(p6) = tag(src, p5, Kw::In) {
        if let Some(rest) = space1(src, p6) {
            proof {
                assert(kw_ok(t, p5 as int, Kw::In, p6 as int));
                assert(word_stop(t, p6 as int)) by {
                    assert(is_space(t[p6 as int]));
                }
                assert forall|q: Quant, e: int, w: Seq<int>| #[trigger] for_each_parts(t, pos as int, q, e, w) implies q is InSet && w[7] == rest by {
                    match q {
                        Quant::InSet { .. } => {
                            lemma_spaces_unique(t, p6 as int, w[7], rest as int);
                        },
                        Quant::Relation { predicate, .. } => {
                            lemma_kw_word_no_ident(t, p5 as int, Kw::In, p6 as int, w[6], predicate.data@);
                        },
                    }
                }
            }
            let (set, e) = match identifier(src, rest) {
                Ok(v) => v,
                Err(_) => {
            proof {
                assert forall|q: Quant, e: int, w: Seq<int>| !#[trigger] for_each_parts(t, pos as int, q, e, w) by {
                    if for_each_parts(t, pos as int, q, e, w) {
                        assert(ident_ok(t, w[7], e, q->set.data@));
                    }
                }
            }
                    return fail_at(rest, "expected a set name after IN");
                },
            };
            let q = Quant::InSet { binder: first, set };
            proof {
                assert(for_each_parts(
                    src.text@,
                    pos as int,
                    q,
                    e as int,
                    seq![p0 as int, p1 as int, p2 as int, p3 as int, p4 as int, p5 as int, p6 as int, rest as int],
                ));
                assert forall|q2: Quant, f: int, w: Seq<int>| #[trigger] for_each_parts(t, pos as int, q2, f, w) implies f == e by {
                    lemma_ident_unique(t, rest as int, f, q2->set.data@, e as int, set.data@);
                }
            }
            return Ok((q, e));
        } else {
            proof {
                assert forall|q: Quant, e: int, w: Seq<int>| #[trigger] for_each_parts(t, pos as int, q, e, w) implies q is Relation by {
                    if q is InSet {
                        assert(space1_ok(t, w[6], w[7]));
                    }
                }
            }
        }
    } else {
        proof {
            assert forall|q: Quant, e: int, w: Seq<int>| #[trigger] for_each_parts(t, pos as int, q, e, w) implies q is Relation by {
                if q is InSet {
                    assert(kw_ok(t, w[5], Kw::In, w[6]));
                }
            }
        }
    }
    let (predicate, p6) = match identifier(src, p5) {
        Ok(v) => v,
        Err(_) => {
            proof {
                assert forall|q: Quant, e: int, w: Seq<int>| !#[trigger] for_each_parts(t, pos as int, q, e, w) by {
                    if for_each_parts(t, pos as int, q, e, w) {
                        assert(ident_ok(t, w[5], w[6], q->predicate.data@));
                    }
                }
            }
            return fail_at(p5, "expected a relation name (FOR EACH <a> <relation> <b>)");
        },
    };
    proof {
        assert forall|q: Quant, e: int, w: Seq<int>| #[trigger] for_each_parts(t, pos as int, q, e, w) implies w[6] == p6 by {
            lemma_ident_unique(t, p5 as int, w[6], q->predicate.data@, p6 as int, predicate.data@);
        }
    }
    let p7 = match space1(src, p6) {
        Some(e) => e,
        None => {
            proof {
                assert forall|q: Quant, e: int, w: Seq<int>| !#[trigger] for_each_parts(t, pos as int, q, e, w) by {
                    if for_each_parts(t, pos as int, q, e, w) {
                        assert(space1_ok(t, w[6], w[7]));
                    }
                }
            }
            return fail_at(p6, "expected the second binder after the relation (FOR EACH <a> <relation> <b>)");
        },
    };
    proof {
        assert forall|q: Quant, e: int, w: Seq<int>| #[trigger] for_each_parts(t, pos as int, q, e, w) implies w[7] == p7 by {
            lemma_spaces_unique(t, p6 as int, w[7], p7 as int);
        }
    }
    let (right, e) = match identifier(src, p7) {
        Ok(v) => v,
        Err(_) => {
            proof {
                assert forall|q: Quant, e: int, w: Seq<int>| !#[trigger] for_each_parts(t, pos as int, q, e, w) by {
                    if for_each_parts(t, pos as int, q, e, w) {
                        assert(ident_ok(t, w[7], e, q->right.data@));
                    }
                }
            }
            return fail_at(p7, "expected the second binder (FOR EACH <a> <relation> <b>)");
        },
    };
    let q = Quant::Relation { left: first, predicate, right };
    proof {
        assert(for_each_parts(
            src.text@,
            pos as int,
            q,
            e as int,
            seq![p0 as int, p1 as int, p2 as int, p3 as int, p4 as int, p5 as int, p6 as int, p7 as int],
        ));
        assert forall|q2: Quant, f: int, w: Seq<int>| #[trigger] for_each_parts(t, pos as int, q2, f, w) implies f == e by {
            lemma_ident_unique(t, p7 as int, f, q2->right.data@, e as int, right.data@);
        }
    }
    Ok((q, e))
}

/// The `<name> [FOR EACH …]:` header shared by `PREMISE` and `RULE`, after the
/// keyword; each keyword passes its own three diagnostics.
#[verifier::spinoff_prover]
#[verifier::rlimit(40)]
fn named_header(
    src: &Src,
    pos: usize,
    name_msg: &str,
    colon_msg: &str,
    tail_msg: &str,
) -> (r: PRes<(Located<String>, Option<Quant>)>)
    requires
        src.wf(),
        pos <= src.len(),
    ensures
        progress(r, pos, src.len()),
        r matches Ok((h, e)) ==> wf_name(h.0) && wf_opt_quant(h.1) && pos < e,
        r matches Ok((h, e)) ==> header_ok(src.text@, pos as int, h.0.data@, h.1, e as int),
        r matches Ok((h, e)) ==> placed(src.text@, h.0, pos as int),
        forall|n: Seq<char>, qu: Option<Quant>, e: int, w: Seq<int>|
            #[trigger] header_parts(src.text@, pos as int, n, qu, e, w) ==> (r matches Ok((_, e2)) && e2 == e),
{
    let ghost t = src.text@;
    let (name, p0) = match identifier(src, pos) {
        Ok(v) => v,
        Err(_) => {
            proof {
                assert forall|n: Seq<char>, qu: Option<Quant>, e: int, w: Seq<int>| !#[trigger] header_parts(t, pos as int, n, qu, e, w) by {
                    if header_parts(t, pos as int, n, qu, e, w) {
                        assert(ident_ok(t, pos as int, w[0], n));
                    }
                }
            }
            return fail_at(pos, name_msg);
        },
    };
    proof {
        assert forall|n: Seq<char>, qu: Option<Quant>, e: int, w: Seq<int>| #[trigger] header_parts(t, pos as int, n, qu, e, w)
            implies w[0] == p0 by {
            lemma_ident_unique(t, pos as int, w[0], n, p0 as int, name.data@);
        }
    }
    let (quant, p1) = match space1(src, p0) {
        Some(e) => match for_each(src, e) {
            Ok((q, e2)) => {
                proof {
                    assert(space1_ok(src.text@, p0 as int, e as int) && for_each_ok(src.text@, e as int, q, e2 as int));
                    assert forall|n: Seq<char>, qu: Option<Quant>, f: int, w: Seq<int>| #[trigger] header_parts(t, pos as int, n, qu, f, w)
                        implies w[1] == e2 by {
                        match qu {
                            None => {
                                lemma_spaces_unique(t, p0 as int, w[2], e as int);
                                assert(t.subrange(e as int, e + 3)[0] == t[e as int]);
                            },
                            Some(q2) => {
                                let s2 = choose|s2: int| #![trigger space1_ok(t, w[0], s2)] space1_ok(t, w[0], s2) && for_each_ok(t, s2, q2, w[1]);
                                lemma_spaces_unique(t, p0 as int, s2, e as int);
                                let w2 = choose|w2: Seq<int>| #[trigger] for_each_parts(t, e as int, q2, w[1], w2);
                                assert(for_each_parts(t, e as int, q2, w[1], w2));
                            },
                        }
                    }
                }
                (Some(q), e2)
            },
            Err(PErr::Failure(q, m)) => {
            proof {
                assert forall|n: Seq<char>, qu: Option<Quant>, e: int, w: Seq<int>| !#[trigger] header_parts(t, pos as int, n, qu, e, w) by {
                    if header_parts(t, pos as int, n, qu, e, w) {
                        match qu {
                            None => {
                                lemma_spaces_unique(t, p0 as int, w[2], e as int);
                                assert(t.subrange(e as int, e + 3)[0] == t[e as int]);
                            },
                            Some(q2) => {
                                let s2 = choose|s2: int| #![trigger space1_ok(t, w[0], s2)] space1_ok(t, w[0], s2) && for_each_ok(t, s2, q2, w[1]);
                                lemma_spaces_unique(t, p0 as int, s2, e as int);
                                let w2 = choose|w2: Seq<int>| #[trigger] for_each_parts(t, e as int, q2, w[1], w2);
                                assert(for_each_parts(t, e as int, q2, w[1], w2));
                            },
                        }
                    }
                }
            }
                return Err(PErr::Failure(q, m));
            },
            Err(PErr::Error(_)) => {
                proof {
                    assert forall|n: Seq<char>, qu: Option<Quant>, f: int, w: Seq<int>| #[trigger] header_parts(t, pos as int, n, qu, f, w)
                        implies qu is None by {
                        if let Some(q2) = qu {
                            let s2 = choose|s2: int| #![trigger space1_ok(t, w[0], s2)] space1_ok(t, w[0], s2) && for_each_ok(t, s2, q2, w[1]);
                            lemma_spaces_unique(t, p0 as int, s2, e as int);
                            let w2 = choose|w2: Seq<int>| #[trigger] for_each_parts(t, e as int, q2, w[1], w2);
                            assert(for_each_parts(t, e as int, q2, w[1], w2));
                        }
                    }
                }
                (None, p0)
            },
        },
        None => {
            proof {
                assert forall|n: Seq<char>, qu: Option<Quant>, f: int, w: Seq<int>| #[trigger] header_parts(t, pos as int, n, qu, f, w)
                    implies qu is None by {
                    if let Some(q2) = qu {
                        let s2 = choose|s2: int| #![trigger space1_ok(t, w[0], s2)] space1_ok(t, w[0], s2) && for_each_ok(t, s2, q2, w[1]);
                    }
                }
            }
            (None, p0)
        },
    };
    let p2 = skip_spaces(src, p1);
    proof {
        assert forall|n: Seq<char>, qu: Option<Quant>, f: int, w: Seq<int>| #[trigger] header_parts(t, pos as int, n, qu, f, w)
            implies w[2] == p2 by {
            lemma_spaces_unique(t, p1 as int, w[2], p2 as int);
        }
    }
    let p3 = match tag_char(src, p2, ':') {
        Some(e) => e,
        None => {
            proof {
                assert forall|n: Seq<char>, qu: Option<Quant>, e: int, w: Seq<int>| !#[trigger] header_parts(t, pos as int, n, qu, e, w) by {
                    if header_parts(t, pos as int, n, qu, e, w) {
                        assert(t[w[2]] == ':');
                    }
                }
            }
            return fail_at(p2, colon_msg);
        },
    };
    let ((), e) = match eol_or(src, p3, tail_msg) {
        Ok(v) => v,
        Err(er) => {
            proof {
                assert forall|n: Seq<char>, qu: Option<Quant>, e: int, w: Seq<int>| !#[trigger] header_parts(t, pos as int, n, qu, e, w) by {
                    if header_parts(t, pos as int, n, qu, e, w) {
                        assert(eol_ok(t, w[3], e));
                    }
                }
            }
            return Err(er);
        },
    };
    proof {
        assert(header_parts(src.text@, pos as int, name.data@, quant, e as int, seq![p0 as int, p1 as int, p2 as int, p3 as int]));
    }
    Ok(((name, quant), e))
}

/// `PREMISE <name> [FOR EACH …]:` then a list, `EXISTS` or implication body.
#[verifier::spinoff_prover]
#[verifier::rlimit(30)]
fn stmt_premise(src: &Src, pos: usize) -> (r: PRes<Statement>)
    requires
        src.wf(),
        pos <= src.len(),
    ensures
        stmt_ok(r, pos, src.len()),
        r matches Ok((st, e)) ==> stmt_written(src.text@, pos as int, st, e as int),
        (forall|f: int| !#[trigger] kw_space_ok(src.text@, pos as int, Kw::Premise, f)) ==> r matches Err(PErr::Error(_)),
        forall|st: Statement, e: int|
            #[trigger] stmt_written(src.text@, pos as int, st, e) && st is Premise && block_end(src.text@, e) ==> (r matches Ok(
                (_, e2),
            ) && e2 == e),
{
    let ghost t = src.text@;
    let p = match keyword_space(src, pos, Kw::Premise) {
        Some(e) => e,
        None => {
            return Err(PErr::Error(pos));
        },
    };
    let rh = named_header(
        src,
        p,
        "expected a premise name (a lowercase identifier)",
        "expected ':' after the premise name",
        "unexpected text after 'PREMISE <name>:'",
    );
    proof {
        assert forall|st: Statement, e: int| #[trigger] stmt_written(t, pos as int, st, e) && st is Premise implies ({
            let w = choose|w: Seq<int>| #[trigger] stmt_parts(t, pos as int, st, e, w);
            &&& w[0] == p
            &&& rh matches Ok((_, e2)) && e2 == w[1]
            &&& body_ok(t, w[1], st->Premise_body, e)
        }) by {
            let w = choose|w: Seq<int>| #[trigger] stmt_parts(t, pos as int, st, e, w);
            lemma_kw_space_unique(t, pos as int, Kw::Premise, w[0], p as int);
            let hw = choose|hw: Seq<int>| #[trigger] header_parts(t, p as int, st->Premise_name.data@, st->Premise_quant, w[1], hw);
            assert(header_parts(t, p as int, st->Premise_name.data@, st->Premise_quant, w[1], hw));
        }
    }
    let ((name, quant), p1) = rh?;
    proof {
        assert forall|st: Statement, e: int| #[trigger] stmt_written(t, pos as int, st, e) && st is Premise && block_end(t, e) implies ({
            let b = st->Premise_body;
            &&& (b is List ==> exists|w: Seq<int>| #[trigger] list_body_parts(t, p1 as int, b, e, w))
            &&& (b is Exists ==> exists|w: Seq<int>| #[trigger] exists_body_parts(t, p1 as int, b, e, w))
            &&& (b is Impl ==> impl_ok(t, p1 as int, b, e))
            &&& (!(b is List) ==> exists|q: int| #[trigger] spaces_ok(t, p1 as int, q) && (holds_at(t, q, kw_spec(Kw::Exists)) || holds_at(t, q, kw_spec(Kw::When))))
            &&& (b is Impl ==> exists|q: int| #[trigger] spaces_ok(t, p1 as int, q) && holds_at(t, q, kw_spec(Kw::When)))
        }) by {
            let b = st->Premise_body;
            let w = choose|w: Seq<int>|
                #![trigger list_body_parts(t, p1 as int, b, e, w)]
                #![trigger exists_body_parts(t, p1 as int, b, e, w)]
                #![trigger impl_body_parts(t, p1 as int, b, e, w)]
                list_body_parts(t, p1 as int, b, e, w) || exists_body_parts(t, p1 as int, b, e, w) || impl_body_parts(t, p1 as int, b, e, w);
            if b is Exists {
                assert(exists_body_parts(t, p1 as int, b, e, w));
                assert(spaces_ok(t, p1 as int, w[0]));
            } else if b is Impl {
                assert(impl_body_parts(t, p1 as int, b, e, w));
                assert(spaces_ok(t, p1 as int, w[0]));
            }
        }
    }
    let body_msg = "a premise body must be a list (EXCLUSIVE/FORBIDS/ONEOF/ATLEAST), EXISTS, or WHEN ... THEN";
    let (body, e) = match list_body(src, p1) {
        Ok(v) => v,
        Err(PErr::Failure(q, m)) => {
            return Err(PErr::Failure(q, m));
        },
        Err(PErr::Error(_)) => match exists_body(src, p1) {
            Ok(v) => v,
            Err(PErr::Failure(q, m)) => {
                return Err(PErr::Failure(q, m));
            },
            Err(PErr::Error(_)) => match impl_body(src, p1) {
                Ok(v) => v,
                Err(PErr::Failure(q, m)) => {
                    return Err(PErr::Failure(q, m));
                },
                Err(PErr::Error(_)) => {
                    return fail_at(p1, body_msg);
                },
            },
        },
    };
    let st = Statement::Premise { name, quant, body };
    proof {
        assert(stmt_parts(src.text@, pos as int, st, e as int, seq![p as int, p1 as int, 0, 0, 0, 0, 0, 0]));
    }
    Ok((st, e))
}

/// `RULE <name> [FOR EACH …]:` then a `WHEN … THEN` body.
#[verifier::spinoff_prover]
#[verifier::rlimit(100)]
fn stmt_rule(src: &Src, pos: usize) -> (r: PRes<Statement>)
    requires
        src.wf(),
        pos <= src.len(),
    ensures
        stmt_ok(r, pos, src.len()),
        r matches Ok((st, e)) ==> stmt_written(src.text@, pos as int, st, e as int),
        (forall|f: int| !#[trigger] kw_space_ok(src.text@, pos as int, Kw::Rule, f)) ==> r matches Err(PErr::Error(_)),
        forall|st: Statement, e: int|
            #[trigger] stmt_written(src.text@, pos as int, st, e) && st is Rule && block_end(src.text@, e) ==> (r matches Ok(
                (_, e2),
            ) && e2 == e),
{
    let ghost t = src.text@;
    let p = match keyword_space(src, pos, Kw::Rule) {
        Some(e) => e,
        None => {
            return Err(PErr::Error(pos));
        },
    };
    let rh = named_header(
        src,
        p,
        "expected a rule name (a lowercase identifier)",
        "expected ':' after the rule name",
        "unexpected text after 'RULE <name>:'",
    );
    proof {
        assert forall|st: Statement, e: int| #[trigger] stmt_written(t, pos as int, st, e) && st is Rule implies ({
            let w = choose|w: Seq<int>| #[trigger] stmt_parts(t, pos as int, st, e, w);
            &&& rh matches Ok((_, e2)) && e2 == w[1]
            &&& impl_ok(t, w[1], st->Rule_body, e)
        }) by {
            let w = choose|w: Seq<int>| #[trigger] stmt_parts(t, pos as int, st, e, w);
            lemma_kw_space_unique(t, pos as int, Kw::Rule, w[0], p as int);
            let hw = choose|hw: Seq<int>| #[trigger] header_parts(t, p as int, st->Rule_name.data@, st->Rule_quant, w[1], hw);
            assert(header_parts(t, p as int, st->Rule_name.data@, st->Rule_quant, w[1], hw));
        }
    }
    let ((name, quant), p1) = rh?;
    let (body, e) = match impl_body(src, p1) {
        Ok(v) => v,
        Err(PErr::Failure(q, m)) => {
            return Err(PErr::Failure(q, m));
        },
        Err(PErr::Error(_)) => {
            return fail_at(p1, "a rule body must be WHEN ... THEN");
        },
    };
    let st = Statement::Rule { name, quant, body };
    proof {
        assert(stmt_parts(src.text@, pos as int, st, e as int, seq![p as int, p1 as int, 0, 0, 0, 0, 0, 0]));
    }
    Ok((st, e))
}

/// One top-level statement (after cosmetic indentation). Each branch commits on
/// its keyword; a line that starts none of them is an `Error` at its first
/// non-space character.
#[verifier::spinoff_prover]
pub fn statement(src: &Src, pos: usize) -> (r: PRes<Statement>)
    requires
        src.wf(),
        pos <= src.len(),
    ensures
        stmt_ok(r, pos, src.len()),
        r matches Ok((st, e)) ==> statement_ok(src.text@, pos as int, st, e as int),
        forall|st: Statement, e: int|
            #[trigger] statement_ok(src.text@, pos as int, st, e) && (one_line(st) || block_end(src.text@, e)) ==> (r matches Ok((_, e2)) && e2 == e),
{
    let ghost t = src.text@;
    let p = skip_spaces(src, pos);
    assert(spaces_ok(src.text@, pos as int, p as int));
    proof {
        assert forall|st: Statement, e: int| #[trigger] statement_ok(t, pos as int, st, e) implies stmt_written(t, p as int, st, e) by {
            let q = choose|q: int| #![trigger spaces_ok(t, pos as int, q)] spaces_ok(t, pos as int, q) && stmt_written(t, q, st, e);
            lemma_spaces_unique(t, pos as int, q, p as int);
        }
    }
    let r = statement_at(src, p);
    proof {
        assert forall|st: Statement, e: int| #[trigger] statement_ok(t, pos as int, st, e) && (one_line(st) || block_end(t, e)) implies (r matches Ok((_, e2)) && e2 == e) by {
            assert(stmt_written(t, p as int, st, e));
        }
    }
    match r {
        Ok((st, e)) => {
            proof {
                assert(statement_ok(t, pos as int, st, e as int));
            }
            Ok((st, e))
        },
        Err(er) => Err(er),
    }
}

/// A statement after its indentation, from `p`: each kind is tried in turn
/// until one recognises its keyword.
#[verifier::spinoff_prover]
fn statement_at(src: &Src, p: usize) -> (r: PRes<Statement>)
    requires
        src.wf(),
        p <= src.len(),
    ensures
        stmt_ok(r, p, src.len()),
        r matches Ok((st, e)) ==> stmt_written(src.text@, p as int, st, e as int),
        forall|st: Statement, e: int|
            #[trigger] stmt_written(src.text@, p as int, st, e) && (one_line(st) || block_end(src.text@, e)) ==> (r matches Ok((_, e2)) && e2 == e),
{
    let ghost t = src.text@;
    let r1 = stmt_domain(src, p);
    proof {
        assert forall|st: Statement, e: int| #[trigger] stmt_written(t, p as int, st, e) && (one_line(st) || block_end(t, e)) && !(r1 matches Err(PErr::Error(_))) implies st is Domain by {
            if !(st is Domain) {
                lemma_not_lead(t, p as int, st, e, Kw::Domain);
            }
        }
    }
    match r1 {
        Err(PErr::Error(_)) => {},
        other => {
            return other;
        },
    }
    let r1 = stmt_import(src, p);
    proof {
        assert forall|st: Statement, e: int| #[trigger] stmt_written(t, p as int, st, e) && (one_line(st) || block_end(t, e)) && !(r1 matches Err(PErr::Error(_))) implies st is Import by {
            if !(st is Import) {
                lemma_not_lead(t, p as int, st, e, Kw::Import);
            }
        }
    }
    match r1 {
        Err(PErr::Error(_)) => {},
        other => {
            return other;
        },
    }
    let r1 = stmt_set(src, p);
    proof {
        assert forall|st: Statement, e: int| #[trigger] stmt_written(t, p as int, st, e) && (one_line(st) || block_end(t, e)) && !(r1 matches Err(PErr::Error(_))) implies st is SetDecl by {
            if !(st is SetDecl) {
                lemma_not_lead(t, p as int, st, e, Kw::SetDef);
            }
        }
    }
    match r1 {
        Err(PErr::Error(_)) => {},
        other => {
            return other;
        },
    }
    let r1 = stmt_close(src, p);
    proof {
        assert forall|st: Statement, e: int| #[trigger] stmt_written(t, p as int, st, e) && (one_line(st) || block_end(t, e)) && !(r1 matches Err(PErr::Error(_))) implies st is Close by {
            if !(st is Close) {
                lemma_not_lead(t, p as int, st, e, Kw::Close);
            }
        }
    }
    match r1 {
        Err(PErr::Error(_)) => {},
        other => {
            return other;
        },
    }
    let r1 = stmt_var(src, p);
    proof {
        assert forall|st: Statement, e: int| #[trigger] stmt_written(t, p as int, st, e) && (one_line(st) || block_end(t, e)) && !(r1 matches Err(PErr::Error(_))) implies st is Var by {
            if !(st is Var) {
                lemma_not_lead(t, p as int, st, e, Kw::Var);
            }
        }
    }
    match r1 {
        Err(PErr::Error(_)) => {},
        other => {
            return other;
        },
    }
    let r1 = stmt_provide(src, p);
    proof {
        assert forall|st: Statement, e: int| #[trigger] stmt_written(t, p as int, st, e) && (one_line(st) || block_end(t, e)) && !(r1 matches Err(PErr::Error(_))) implies st is Provide by {
            if !(st is Provide) {
                lemma_not_lead(t, p as int, st, e, Kw::Provide);
            }
        }
    }
    match r1 {
        Err(PErr::Error(_)) => {},
        other => {
            return other;
        },
    }
    statement_later(src, p)
}

/// The later statement kinds, tried in turn.
#[verifier::spinoff_prover]
fn statement_later(src: &Src, p: usize) -> (r: PRes<Statement>)
    requires
        src.wf(),
        p <= src.len(),
        forall|st: Statement, e: int| #[trigger] stmt_written(src.text@, p as int, st, e) && (one_line(st) || block_end(src.text@, e)) ==> !(st is Domain
            || st is Import || st is SetDecl || st is Close || st is Var || st is Provide),
    ensures
        stmt_ok(r, p, src.len()),
        r matches Ok((st, e)) ==> stmt_written(src.text@, p as int, st, e as int),
        forall|st: Statement, e: int|
            #[trigger] stmt_written(src.text@, p as int, st, e) && (one_line(st) || block_end(src.text@, e)) ==> (r matches Ok((_, e2)) && e2 == e),
{
    let ghost t = src.text@;
    let r1 = stmt_fact(src, p);
    proof {
        assert forall|st: Statement, e: int| #[trigger] stmt_written(t, p as int, st, e) && (one_line(st) || block_end(t, e)) && !(r1 matches Err(PErr::Error(_))) implies st is Fact by {
            if !(st is Fact) {
                lemma_not_lead(t, p as int, st, e, Kw::Fact);
            }
        }
    }
    match r1 {
        Err(PErr::Error(_)) => {},
        other => {
            return other;
        },
    }
    let r1 = stmt_assume(src, p);
    proof {
        assert forall|st: Statement, e: int| #[trigger] stmt_written(t, p as int, st, e) && (one_line(st) || block_end(t, e)) && !(r1 matches Err(PErr::Error(_))) implies st is Assume by {
            if !(st is Assume) {
                lemma_not_lead(t, p as int, st, e, Kw::Assume);
            }
        }
    }
    match r1 {
        Err(PErr::Error(_)) => {},
        other => {
            return other;
        },
    }
    statement_last(src, p)
}

/// The last statement kinds, tried in turn.
#[verifier::spinoff_prover]
fn statement_last(src: &Src, p: usize) -> (r: PRes<Statement>)
    requires
        src.wf(),
        p <= src.len(),
        forall|st: Statement, e: int| #[trigger] stmt_written(src.text@, p as int, st, e) && (one_line(st) || block_end(src.text@, e)) ==> (st is Check
            || st is Negation || st is Premise || st is Rule),
    ensures
        stmt_ok(r, p, src.len()),
        r matches Ok((st, e)) ==> stmt_written(src.text@, p as int, st, e as int),
        forall|st: Statement, e: int|
            #[trigger] stmt_written(src.text@, p as int, st, e) && (one_line(st) || block_end(src.text@, e)) ==> (r matches Ok((_, e2)) && e2 == e),
{
    let ghost t = src.text@;
    let r1 = stmt_premise(src, p);
    proof {
        assert forall|st: Statement, e: int| #[trigger] stmt_written(t, p as int, st, e) && (one_line(st) || block_end(t, e)) && !(r1 matches Err(PErr::Error(_))) implies st is Premise by {
            if !(st is Premise) {
                lemma_not_lead(t, p as int, st, e, Kw::Premise);
            }
        }
    }
    match r1 {
        Err(PErr::Error(_)) => {},
        other => {
            return other;
        },
    }
    let r1 = stmt_rule(src, p);
    proof {
        assert forall|st: Statement, e: int| #[trigger] stmt_written(t, p as int, st, e) && (one_line(st) || block_end(t, e)) && !(r1 matches Err(PErr::Error(_))) implies st is Rule by {
            if !(st is Rule) {
                lemma_not_lead(t, p as int, st, e, Kw::Rule);
            }
        }
    }
    match r1 {
        Err(PErr::Error(_)) => {},
        other => {
            return other;
        },
    }
    let r1 = stmt_check(src, p);
    proof {
        assert forall|st: Statement, e: int| #[trigger] stmt_written(t, p as int, st, e) && (one_line(st) || block_end(t, e)) && !(r1 matches Err(PErr::Error(_))) implies st is Check by {
            if !(st is Check) {
                lemma_not_lead(t, p as int, st, e, Kw::Check);
                assert(st is Negation);
                assert(t.subrange(p as int, p + 3)[0] == t[p as int]);
                assert(t.subrange(p as int, p + 5)[0] == t[p as int]);
            }
        }
    }
    match r1 {
        Err(PErr::Error(_)) => {},
        other => {
            return other;
        },
    }
    let r1 = stmt_negation(src, p);
    proof {
        assert forall|st: Statement, e: int| #[trigger] stmt_written(t, p as int, st, e) && (one_line(st) || block_end(t, e)) implies st is Negation by {
            if !(st is Negation) {
                lemma_not_lead(t, p as int, st, e, Kw::Not);
            }
        }
    }
    match r1 {
        Err(PErr::Error(_)) => Err(PErr::Error(p)),
        other => other,
    }
}

// --- recovering driver -----------------------------------------------------

/// The message for a line that begins with no known top-level keyword; the
/// menu of statements comes from the keyword table.
fn not_a_statement() -> (r: String)
    ensures
        r@ == "expected a statement — a line must start with "@ + crate::keywords::menu_prefix(
            crate::keywords::TOP_LEVEL_COUNT as nat,
        ),
{
    let mut s = string_of("expected a statement — a line must start with ");
    let menu = crate::keywords::top_level_menu();
    crate::text::push_string(&mut s, &menu);
    s
}

/// Whether only an ignorable tail remains at `pos`: whitespace only, or a
/// trailing `//` comment with no line feed after it.
fn at_end(src: &Src, pos: usize) -> (r: bool)
    requires
        src.wf(),
        pos <= src.len(),
    ensures
        pos == src.len() ==> r,
        !r ==> pos < src.len(),
        r == at_end_ok(src.text@, pos as int),
{
    let mut i = pos;
    while i < src.text.len() && is_whitespace(src.text[i])
        invariant
            src.wf(),
            pos <= i <= src.len(),
            forall|k: int| pos <= k < i ==> white(#[trigger] src.text@[k]),
        decreases src.len() - i,
    {
        i = i + 1;
    }
    proof {
        // a tail can only begin where the whitespace run stops
        assert forall|j: int| #[trigger] tail_at(src.text@, pos as int, j) implies j == i by {
            if j < i {
                assert(src.text@[j] == '/');
            } else if j > i {
                assert(white(src.text@[i as int]));
            }
        }
    }
    if i == src.text.len() {
        proof {
            assert(tail_at(src.text@, pos as int, i as int));
        }
        return true;
    }
    if i + 1 < src.text.len() && src.text[i] == '/' && src.text[i + 1] == '/' {
        let mut j = i;
        while j < src.text.len()
            invariant
                src.wf(),
                pos <= i,
                i + 1 < src.len(),
                i <= j <= src.len(),
                forall|k: int| i <= k < j ==> #[trigger] src.text@[k] != '\n',
                forall|k: int| #[trigger] tail_at(src.text@, pos as int, k) ==> k == i,
            decreases src.len() - j,
        {
            if src.text[j] == '\n' {
                proof {
                    assert(!tail_at(src.text@, pos as int, i as int));
                }
                return false;
            }
            j = j + 1;
        }
        proof {
            assert(tail_at(src.text@, pos as int, i as int));
        }
        return true;
    }
    proof {
        assert(!tail_at(src.text@, pos as int, i as int));
    }
    false
}

/// Consume through the next line ending (or to the end of the source). A lone
/// carriage return is consumed as one character, so the scan always advances.
fn consume_line(src: &Src, pos: usize) -> (r: usize)
    requires
        src.wf(),
        pos <= src.len(),
    ensures
        pos <= r <= src.len(),
        pos < src.len() ==> pos < r,
{
    let mut i = pos;
    while i < src.text.len() && src.text[i] != '\n' && src.text[i] != '\r'
        invariant
            src.wf(),
            pos <= i <= src.len(),
        decreases src.len() - i,
    {
        i = i + 1;
    }
    match line_ending(src, i) {
        Some(e) => e,
        None => if i < src.text.len() {
            i + 1
        } else {
            i
        },
    }
}

/// Whether the line at `pos` begins (after indentation) with a top-level keyword
/// (its leading run of ASCII capitals spells one).
fn starts_top_level(src: &Src, pos: usize) -> (r: bool)
    requires
        src.wf(),
        pos <= src.len(),
    ensures
        r == exists|q: int, j: int| #[trigger] caps_at(src.text@, pos as int, q, j) && top_word(src.text@.subrange(q, j)),
{
    let p = skip_spaces(src, pos);
    let mut w: Vec<char> = Vec::new();
    let mut i = p;
    while i < src.text.len() && 'A' <= src.text[i] && src.text[i] <= 'Z'
        invariant
            src.wf(),
            p <= i <= src.len(),
            w@ == src.text@.subrange(p as int, i as int),
            forall|k: int| p <= k < i ==> 'A' <= #[trigger] src.text@[k] && src.text@[k] <= 'Z',
        decreases src.len() - i,
    {
        w.push(src.text[i]);
        i = i + 1;
        proof {
            assert(w@ =~= src.text@.subrange(p as int, i as int));
        }
    }
    let ghost t = src.text@;
    proof {
        assert(caps_at(t, pos as int, p as int, i as int));
        assert forall|q: int, j: int| #[trigger] caps_at(t, pos as int, q, j) implies q == p && j == i by {
            lemma_spaces_unique(t, pos as int, q, p as int);
            if j < i {
                assert('A' <= t[j] && t[j] <= 'Z');
            } else if i < j {
                assert('A' <= t[i as int] && t[i as int] <= 'Z');
            }
        }
    }
    match lookup_keyword(w.as_slice()) {
        Some(k) => {
            let r = crate::keywords::kw_is_top_level(k);
            proof {
                assert forall|k2: Kw| kw_spec(k2) == w@ implies k2 == k by {
                    crate::keywords::lemma_kw_spec_injective(k, k2);
                }
            }
            r
        },
        None => false,
    }
}

/// Inline spaces from `pos` to `q`, then a maximal run of capital letters
/// from `q` to `j`.
pub open spec fn caps_at(t: Seq<char>, pos: int, q: int, j: int) -> bool {
    &&& spaces_ok(t, pos, q)
    &&& q <= j <= t.len()
    &&& forall|k: int| q <= k < j ==> 'A' <= #[trigger] t[k] && t[k] <= 'Z'
    &&& (j == t.len() || !('A' <= t[j] && t[j] <= 'Z'))
}

/// `w` spells a top-level keyword.
pub open spec fn top_word(w: Seq<char>) -> bool {
    exists|k: Kw| kw_top_level(k) && #[trigger] kw_spec(k) == w
}

/// Resynchronise after an error at `at`: skip the rest of that line, then every
/// line until one begins with a top-level keyword, or the end.
fn resync(src: &Src, at: usize) -> (r: usize)
    requires
        src.wf(),
        at <= src.len(),
    ensures
        at <= r <= src.len(),
        at < src.len() ==> at < r,
{
    let mut p = consume_line(src, at);
    loop
        invariant
            src.wf(),
            at <= p <= src.len(),
            at < src.len() ==> at < p,
        decreases src.len() - p,
    {
        if p == src.text.len() || starts_top_level(src, p) {
            return p;
        }
        p = consume_line(src, p);
    }
}

/// Each statement of the chain `c` is written on one line, or ends where its
/// block has nothing more to read.
#[verifier::opaque]
spec fn chain_fits(t: Seq<char>, c: Seq<int>, s: Seq<Statement>) -> bool {
    forall|k: int| 0 <= k < s.len() ==> #[trigger] one_line(s[k]) || block_end(t, c[2 * k + 2])
}

/// A program of one-line statements, or one whose text has only ASCII blanks,
/// fits its chain.
proof fn lemma_chain_fits(t: Seq<char>, c: Seq<int>, s: Seq<Statement>)
    requires
        program_chain(t, c, s),
        crate::syntax::readable(t, s),
    ensures
        chain_fits(t, c, s),
{
    reveal(chain_fits);
    assert forall|k: int| 0 <= k < s.len() implies #[trigger] one_line(s[k]) || block_end(t, c[2 * k + 2]) by {
        if !one_line(s[k]) {
            assert(program_step(t, c, s, k));
            if k + 1 < s.len() {
                assert(program_step(t, c, s, k + 1));
                assert(statement_ok(t, c[2 * (k + 1) + 1], s[k + 1], c[2 * (k + 1) + 2]));
                lemma_block_end(t, c[2 * k + 2], c[2 * k + 3]);
            } else {
                lemma_block_end(t, c[2 * k + 2], c[2 * k + 3]);
            }
        }
    }
}

/// Statement `k` of a fitting chain fits on its line or ends its block.
proof fn lemma_fits_at(t: Seq<char>, c: Seq<int>, s: Seq<Statement>, k: int)
    requires
        chain_fits(t, c, s),
        0 <= k < s.len(),
    ensures
        one_line(s[k]) || block_end(t, c[2 * k + 2]),
{
    reveal(chain_fits);
}

/// Statements read from the start up to `input`, then noise up to `q`,
/// where no statement that may end is written: the text breaks at `q`.
proof fn lemma_first_break(t: Seq<char>, ps: Seq<int>, stmts: Seq<Statement>, input: int, q: int)
    requires
        ps.len() == 2 * stmts.len() + 1,
        ps[0] == 0,
        ps.last() == input,
        forall|i: int| 0 <= i < stmts.len() ==> #[trigger] program_step(t, ps, stmts, i),
        noise_ok(t, input, q),
        forall|st: Statement, e: int| #[trigger] statement_ok(t, q, st, e) ==> !(one_line(st) || block_end(t, e)),
    ensures
        crate::syntax::breaks_at(t, q),
{
    let fin = ps.push(q);
    assert forall|i: int| 0 <= i < stmts.len() implies #[trigger] program_step(t, fin, stmts, i) by {
        assert(program_step(t, ps, stmts, i));
        assert(fin[2 * i] == ps[2 * i] && fin[2 * i + 1] == ps[2 * i + 1] && fin[2 * i + 2] == ps[2 * i + 2]);
    }
    assert(fin[2 * stmts.len() as int] == input);
    assert(crate::syntax::prefix_chain(t, fin, stmts));
}

/// Parse a full `.vrf` source, collecting every syntax error. A clean parse
/// gives the program, whose statements carry the grammar's structural
/// guarantees; otherwise every error comes back as one diagnostic each.
#[verifier::spinoff_prover]
#[verifier::rlimit(100)]
pub fn parse(text: &str) -> (r: Result<Program, Diagnostics>)
    ensures
        text@.len() < usize::MAX && (exists|s: Seq<Statement>| #[trigger] program_ok(text@, s) && crate::syntax::readable(text@, s)) ==> r is Ok,
        forall|s: Seq<Statement>|
            text@.len() < usize::MAX && #[trigger] program_ok(text@, s) && crate::syntax::readable(text@, s)
                ==> (r matches Ok(p) && stmt_kinds(p.statements@) == stmt_kinds(s)),
        text@.len() < usize::MAX && program_ok(text@, Seq::<Statement>::empty()) ==> (r matches Ok(p)
            && p.statements@.len() == 0),
        match r {
            Ok(p) => wf_program(p) && program_ok(text@, p.statements@),
            Err(d) => d.entries().len() > 0 && d.label() is None && (forall|i: int|
                0 <= i < d.entries().len() ==> {
                    let e = #[trigger] d.entries()[i];
                    &&& e.line >= 1 && e.col >= 1 && e.width >= 1
                    &&& e.general ==> e.keyword is None
                }) && (exists|dp: Seq<int>| #[trigger] crate::diag::diags_at(text@, d.entries(), dp)) && (text@.len()
                < usize::MAX ==> exists|q: int| #[trigger] crate::syntax::breaks_at(text@, q) && crate::diag::diag_from(text@, d.entries()[0], q)),
        },
{
    let chars = crate::text::chars_of(text);
    if chars.len() == usize::MAX {
        // Unreachable for any real source; reported rather than assumed away.
        let d = Diagnostic {
            line: 1,
            col: 1,
            width: 1,
            message: string_of("source too large"),
            keyword: None,
            general: false,
            line_text: String::new(),
        };
        let mut errors: Vec<Diagnostic> = Vec::new();
        errors.push(d);
        proof {
            assert(crate::diag::diags_at(text@, errors@, seq![0int]));
        }
        return Err(Diagnostics::unlabelled(errors));
    }
    let src = Src::new(text);
    let mut statements: Vec<Statement> = Vec::new();
    let mut errors: Vec<Diagnostic> = Vec::new();
    let mut input: usize = 0;
    let ghost t = src.text@;
    let ghost mut ps: Seq<int> = seq![0int];
    let ghost mut dp: Seq<int> = Seq::empty();
    // Where the text first breaks.
    let ghost mut fq: int = 0;
    let ghost mut ended: bool = false;
    let ghost blank = program_ok(t, Seq::<Statement>::empty());
    let ghost one = exists|s: Seq<Statement>, c: Seq<int>| #[trigger] program_chain(t, c, s) && chain_fits(t, c, s);
    let ghost (gs, gc): (Seq<Statement>, Seq<int>) = choose|s: Seq<Statement>, c: Seq<int>| #[trigger] program_chain(t, c, s)
        && chain_fits(t, c, s);
    proof {
        if one {
            assert(program_ok(t, gs));
            assert(program_chain(t, gc, gs));
            assert(ps =~= gc.subrange(0, 1));
        }
        assert forall|s2: Seq<Statement>, c2: Seq<int>|
            #[trigger] program_chain(t, c2, s2) && chain_fits(t, c2, s2) implies tracks(c2, s2, ps, statements@, ended) by {
            assert(ps =~= c2.subrange(0, 1));
            assert(stmt_kinds(statements@) =~= stmt_kinds(s2).subrange(0, 0));
        }
    }
    loop
        invariant_except_break
            !ended,
        invariant
            src.wf(),
            t == src.text@,
            t == text@,
            blank == program_ok(t, Seq::<Statement>::empty()),
            blank ==> input == 0 && statements@.len() == 0 && errors@.len() == 0,
            input <= src.len(),
            crate::diag::diags_at(t, errors@, dp),
            forall|i: int| 0 <= i < dp.len() ==> #[trigger] dp[i] <= input,
            errors@.len() > 0 ==> crate::syntax::breaks_at(t, fq) && fq <= dp[0],
            forall|i: int| 0 <= i < statements@.len() ==> wf_statement(#[trigger] statements@[i]),
            errors@.len() == 0 ==> {
                &&& ps.len() == 2 * statements@.len() + 1
                &&& ps[0] == 0
                &&& ps.last() == input
                &&& forall|i: int| 0 <= i < statements@.len() ==> #[trigger] program_step(t, ps, statements@, i)
            },
            ended ==> errors@.len() == 0 ==> program_ok(t, statements@),
            one == exists|s: Seq<Statement>, c: Seq<int>| #[trigger] program_chain(t, c, s) && chain_fits(t, c, s),
            one ==> program_chain(t, gc, gs) && chain_fits(t, gc, gs),
            one ==> errors@.len() == 0 && statements@.len() <= gs.len() && ps == gc.subrange(0, 2 * statements@.len() as int + 1),
            forall|s2: Seq<Statement>, c2: Seq<int>|
                #[trigger] program_chain(t, c2, s2) && chain_fits(t, c2, s2) ==> tracks(c2, s2, ps, statements@, ended),
            forall|i: int|
                0 <= i < errors@.len() ==> {
                    let e = #[trigger] errors@[i];
                    &&& e.line >= 1 && e.col >= 1 && e.width >= 1
                    &&& e.general ==> e.keyword is None
                },
        ensures
            ended,
        decreases src.len() - input,
    {
        let before = input;
        let q = skip_noise(&src, input);
        proof {
            assert forall|s2: Seq<Statement>, c2: Seq<int>|
                #[trigger] program_chain(t, c2, s2) && chain_fits(t, c2, s2) implies {
                    let k = statements@.len() as int;
                    &&& q == c2[2 * k + 1]
                    &&& k < s2.len() ==> !at_end_ok(t, q as int) && statement_ok(t, q as int, s2[k], c2[2 * k + 2])
                        && (crate::syntax::one_line(s2[k]) || block_end(t, c2[2 * k + 2]))
                    &&& k == s2.len() ==> at_end_ok(t, q as int)
                } by {
                let k = statements@.len() as int;
                assert(tracks(c2, s2, ps, statements@, ended));
                assert(program_ok(t, s2));
                assert(one);
                assert(input == c2[2 * k]);
                if k < s2.len() {
                    lemma_fits_at(t, c2, s2, k);
                    assert(program_step(t, c2, s2, k));
                    lemma_noise_unique(t, input as int, q as int, c2[2 * k + 1]);
                    lemma_stmt_not_at_end(t, q as int, s2[k], c2[2 * k + 2]);
                } else {
                    lemma_noise_unique(t, input as int, q as int, c2[2 * k + 1]);
                }
            }
            if one {
                let k = statements@.len() as int;
                assert(input == gc[2 * k]);
                if k < gs.len() {
                    assert(program_step(t, gc, gs, k));
                    lemma_noise_unique(t, input as int, q as int, gc[2 * k + 1]);
                    lemma_stmt_not_at_end(t, q as int, gs[k], gc[2 * k + 2]);
                } else {
                    lemma_noise_unique(t, input as int, q as int, gc[2 * k + 1]);
                }
            }
        }
        if at_end(&src, q) {
            proof {
                if errors@.len() == 0 {
                    let fin = ps.push(q as int);
                    assert forall|i: int| 0 <= i < statements@.len() implies #[trigger] program_step(t, fin, statements@, i) by {
                        assert(program_step(t, ps, statements@, i));
                        assert(fin[2 * i] == ps[2 * i] && fin[2 * i + 1] == ps[2 * i + 1] && fin[2 * i + 2] == ps[2 * i + 2]);
                    }
                    assert(fin[2 * statements@.len() as int] == before as int);
                    assert(program_chain(t, fin, statements@));
                }
                ended = true;
                assert forall|s2: Seq<Statement>, c2: Seq<int>|
                    #[trigger] program_chain(t, c2, s2) && chain_fits(t, c2, s2) implies tracks(c2, s2, ps, statements@, ended) by {
                    let k = statements@.len() as int;
                    assert(tracks(c2, s2, ps, statements@, false));
                    if k < s2.len() {
                        assert(!at_end_ok(t, q as int));
                    }
                }
            }
            break ;
        }
        proof {
            if blank {
                let c = choose|ps: Seq<int>| #[trigger] program_chain(t, ps, Seq::<Statement>::empty());
                assert(noise_ok(t, c[0], c[1]));
                lemma_noise_unique(t, 0, q as int, c[1]);
                assert(at_end_ok(t, c[1]));
            }
            assert(!blank);
        }
        proof {
            if one {
                let k = statements@.len() as int;
                assert(k < gs.len());
                assert(program_step(t, gc, gs, k));
                lemma_fits_at(t, gc, gs, k);
                assert(statement_ok(t, q as int, gs[k], gc[2 * k + 2]));
            }
        }
        match statement(&src, q) {
            Ok((st, e)) => {
                let ghost old_ps = ps;
                let ghost old_st = statements@;
                proof {
                    if one {
                        let k = statements@.len() as int;
                        assert(e as int == gc[2 * k + 2]);
                    }
                }
                let ghost tk_ps = ps;
                let ghost tk_st = statements@;
                statements.push(st);
                proof {
                    if errors@.len() == 0 {
                        ps = ps.push(q as int).push(e as int);
                        assert forall|i: int| 0 <= i < statements@.len() implies #[trigger] program_step(t, ps, statements@, i) by {
                            if i < old_st.len() {
                                assert(program_step(t, old_ps, old_st, i));
                                assert(ps[2 * i] == old_ps[2 * i] && ps[2 * i + 1] == old_ps[2 * i + 1] && ps[2 * i + 2] == old_ps[2 * i + 2]);
                                assert(statements@[i] == old_st[i]);
                            } else {
                                assert(ps[2 * i] == before as int);
                            }
                        }
                        if one {
                            assert(ps =~= gc.subrange(0, 2 * statements@.len() as int + 1));
                        }
                    }
                    assert forall|s2: Seq<Statement>, c2: Seq<int>|
                        #[trigger] program_chain(t, c2, s2) && chain_fits(t, c2, s2) implies tracks(c2, s2, ps, statements@, ended) by {
                        let k = tk_st.len() as int;
                        assert(tracks(c2, s2, tk_ps, tk_st, ended));
                        assert(k < s2.len());
                        assert(statement_ok(t, q as int, s2[k], c2[2 * k + 2]));
                        assert(e as int == c2[2 * k + 2]);
                        lemma_stmt_kind_unique(t, q as int, st, e as int, s2[k], c2[2 * k + 2]);
                        assert(program_ok(t, s2));
                        assert(one);
                        assert(errors@.len() == 0);
                        assert(q == c2[2 * k + 1]);
                        assert(ps == tk_ps.push(q as int).push(e as int));
                        assert(ps =~= c2.subrange(0, 2 * statements@.len() as int + 1));
                        assert(stmt_kinds(statements@) =~= stmt_kinds(s2).subrange(0, statements@.len() as int));
                    }
                }
                input = e;
            },
            Err(PErr::Failure(f, m)) => {
                let ghost e0 = errors@;
                proof {
                    if e0.len() == 0 {
                        lemma_first_break(t, ps, statements@, input as int, q as int);
                        fq = q as int;
                    }
                }
                errors.push(make_diag(&src, f, m, false));
                proof {
                    dp = dp.push(f as int);
                    assert forall|i: int| 0 <= i < errors@.len() implies 0 <= dp[i] <= t.len() && (#[trigger] errors@[i]).line
                        == crate::scan::line_of(t, dp[i]) && errors@[i].col == crate::scan::col_of(t, dp[i]) by {
                        if i < e0.len() {
                            assert(errors@[i] == e0[i]);
                        }
                    }
                }
                input = resync(&src, f);
            },
            Err(PErr::Error(f)) => {
                let ghost e0 = errors@;
                proof {
                    if e0.len() == 0 {
                        lemma_first_break(t, ps, statements@, input as int, q as int);
                        fq = q as int;
                    }
                }
                errors.push(make_diag(&src, f, not_a_statement(), true));
                proof {
                    dp = dp.push(f as int);
                    assert forall|i: int| 0 <= i < errors@.len() implies 0 <= dp[i] <= t.len() && (#[trigger] errors@[i]).line
                        == crate::scan::line_of(t, dp[i]) && errors@[i].col == crate::scan::col_of(t, dp[i]) by {
                        if i < e0.len() {
                            assert(errors@[i] == e0[i]);
                        }
                    }
                }
                input = resync(&src, f);
            },
        }
    }
    proof {
        assert forall|s: Seq<Statement>|
            text@.len() < usize::MAX && #[trigger] program_ok(text@, s) && crate::syntax::readable(text@, s)
                implies errors@.len() == 0 && stmt_kinds(statements@) == stmt_kinds(s) by {
            let c = choose|c: Seq<int>| #[trigger] program_chain(t, c, s);
            lemma_chain_fits(t, c, s);
            assert(tracks(c, s, ps, statements@, ended));
            assert(stmt_kinds(s).subrange(0, s.len() as int) =~= stmt_kinds(s));
        }
    }
    if errors.len() == 0 {
        Ok(Program { statements })
    } else {
        Err(Diagnostics::unlabelled(errors))
    }
}
} // verus!
