//! Properties of the lowering, the relation closures, path normalisation and
//! the edit distance that hold for every input, stated over the same
//! specifications the functions' contracts use.
use vstd::prelude::*;
use crate::closure::{
    PairV, equivalence_spec, is_path, lemma_reach_extend, lemma_reach_nodes, lemma_step_reaches, nodes_spec,
    reaches, reflexive_spec, symmetric_spec, transitive_spec,
};
use crate::compiler::{FactV, push_dedup, push_fact};
use crate::error::lev;
use crate::ast::{Atom, Body, Statement};
use crate::binding::{SourceNode, lookup_v, referenced};
use crate::compiler::{PortRefV, first_word, key_ref, word_len, words};
use crate::ir::opt_view;
use crate::pipeline::provide_key_spec;
use crate::resolve::{atom_prefixes, body_prefixes, lit_prefixes, opt_views, stmt_prefixes, used_prefixes};
use crate::ir::KeyV;
use crate::lower::{LitV, same_clause, ante_groups, at_least_one_spec, cons_groups, grid_spec, impl_spec, negate, pairwise_spec};
use crate::paths::{is_sep, join_slash, normalized, segments, split_state, starts_with_sep, step_seg, walk};

verus! {

// --- lowering ------------------------------------------------------------------

/// `EXCLUSIVE` over `n` atoms unfolds into `n·(n−1)/2` clauses, each made of
/// exactly two positive literals naming two of the atoms, the earlier first.
pub proof fn law_pairwise_shape(keys: Seq<KeyV>)
    ensures
        2 * pairwise_spec(keys).len() == keys.len() * (keys.len() - 1),
        forall|c: int| 0 <= c < pairwise_spec(keys).len() ==> {
            let cl = #[trigger] pairwise_spec(keys)[c];
            &&& cl.len() == 2
            &&& !cl[0].1 && !cl[1].1
            &&& exists|i: int, j: int| 0 <= i < j < keys.len() && cl[0].0 == keys[i] && cl[1].0 == keys[j]
        },
    decreases keys.len(),
{
    if keys.len() > 0 {
        let rest = keys.drop_first();
        law_pairwise_shape(rest);
        let n = keys.len();
        let head = rest.map_values(|r: KeyV| seq![(keys[0], false), (r, false)]);
        assert(pairwise_spec(keys) == head + pairwise_spec(rest));
        assert(2 * (n - 1) + (n - 1) * (n - 2) == n * (n - 1)) by (nonlinear_arith);
        assert forall|c: int| 0 <= c < pairwise_spec(keys).len() implies {
            let cl = #[trigger] pairwise_spec(keys)[c];
            &&& cl.len() == 2
            &&& !cl[0].1 && !cl[1].1
            &&& exists|i: int, j: int| 0 <= i < j < keys.len() && cl[0].0 == keys[i] && cl[1].0 == keys[j]
        } by {
            let cl = pairwise_spec(keys)[c];
            if c < head.len() {
                assert(cl == seq![(keys[0], false), (rest[c], false)]);
                assert(cl[1].0 == keys[c + 1]);
            } else {
                let c2 = c - head.len();
                assert(cl == pairwise_spec(rest)[c2]);
                let (i, j) = choose|i: int, j: int| 0 <= i < j < rest.len() && cl[0].0 == rest[i] && cl[1].0 == rest[j];
                assert(cl[0].0 == keys[i + 1] && cl[1].0 == keys[j + 1]);
            }
        }
    }
}

/// "At least one is TRUE" is a single clause listing every atom negated.
pub proof fn law_at_least_one_shape(keys: Seq<KeyV>)
    ensures
        at_least_one_spec(keys).len() == keys.len(),
        forall|i: int| 0 <= i < keys.len() ==> #[trigger] at_least_one_spec(keys)[i] == (keys[i], true),
{
}

/// `WHEN A THEN C` unfolds into one clause per (antecedent group, consequent
/// group) pair: under `AND` the antecedent is one group and each consequent
/// literal is its own group; under `OR` it is the other way round. Each clause
/// holds its antecedent group's literals followed by its consequent group's
/// literals, negated.
pub proof fn law_implication_shape(ante: Seq<LitV>, ac: crate::ast::Conn, cons: Seq<LitV>, cc: crate::ast::Conn)
    ensures
        impl_spec(ante, ac, cons, cc).len() == ante_groups(ante, ac).len() * cons_groups(cons, cc).len(),
        forall|i: int, j: int|
            0 <= i < ante_groups(ante, ac).len() && 0 <= j < cons_groups(cons, cc).len() ==> #[trigger] impl_spec(
                ante,
                ac,
                cons,
                cc,
            )[i * cons_groups(cons, cc).len() + j] == ante_groups(ante, ac)[i] + cons_groups(cons, cc)[j].map_values(
                |l: LitV| negate(l),
            ),
{
    lemma_grid(ante_groups(ante, ac), cons_groups(cons, cc));
}

proof fn lemma_grid(ags: Seq<Seq<LitV>>, cgs: Seq<Seq<LitV>>)
    ensures
        grid_spec(ags, cgs).len() == ags.len() * cgs.len(),
        forall|i: int, j: int|
            0 <= i < ags.len() && 0 <= j < cgs.len() ==> #[trigger] grid_spec(ags, cgs)[i * cgs.len() + j] == ags[i]
                + cgs[j].map_values(|l: LitV| negate(l)),
    decreases ags.len(),
{
    if ags.len() > 0 {
        let rest = ags.drop_first();
        lemma_grid(rest, cgs);
        let m = cgs.len();
        let row = cgs.map_values(|cg: Seq<LitV>| ags[0] + cg.map_values(|l: LitV| negate(l)));
        assert(grid_spec(ags, cgs) == row + grid_spec(rest, cgs));
        assert(ags.len() * m == m + rest.len() * m) by (nonlinear_arith)
            requires
                rest.len() == ags.len() - 1,
        ;
        assert forall|i: int, j: int| 0 <= i < ags.len() && 0 <= j < m implies #[trigger] grid_spec(ags, cgs)[i * m
            + j] == ags[i] + cgs[j].map_values(|l: LitV| negate(l)) by {
            if i == 0 {
                assert(grid_spec(ags, cgs)[i * m + j] == row[j]);
            } else {
                assert(i * m + j == m + ((i - 1) * m + j)) by (nonlinear_arith);
                assert((i - 1) * m + j < rest.len() * m) by (nonlinear_arith)
                    requires
                        0 <= i - 1 < rest.len(),
                        0 <= j < m,
                ;
                assert(0 <= (i - 1) * m) by (nonlinear_arith)
                    requires
                        i >= 1,
                        m >= 0,
                ;
                assert(grid_spec(ags, cgs)[i * m + j] == grid_spec(rest, cgs)[(i - 1) * m + j]);
                assert(rest[i - 1] == ags[i]);
            }
        }
    }
}

// --- accumulating clauses and facts -----------------------------------------------

/// Adding a clause that is already there (as a set of literals) changes
/// nothing, so a premise stated twice contributes its clauses once; adding
/// the same clause twice is adding it once.
pub proof fn law_clause_dedup(cs: Seq<Seq<LitV>>, c: Seq<LitV>)
    ensures
        (exists|i: int| 0 <= i < cs.len() && same_clause(cs[i], c)) ==> push_dedup(cs, c) == cs,
        push_dedup(push_dedup(cs, c), c) == push_dedup(cs, c),
{
    let once = push_dedup(cs, c);
    if !(exists|i: int| 0 <= i < cs.len() && same_clause(cs[i], c)) {
        assert(once[cs.len() as int] == c);
        assert(same_clause(once[cs.len() as int], c));
    } else {
        let i = choose|i: int| 0 <= i < cs.len() && same_clause(cs[i], c);
        assert(same_clause(once[i], c));
    }
}

/// Asserting the same fact (atom, value and kind) twice records it once.
pub proof fn law_fact_dedup(fs: Seq<FactV>, f: FactV)
    ensures
        push_fact(push_fact(fs, f), f) == push_fact(fs, f),
{
    let once = push_fact(fs, f);
    if !(exists|i: int| 0 <= i < fs.len() && fs[i].0 == f.0 && fs[i].1 == f.1 && fs[i].2 == f.2) {
        assert(once[fs.len() as int] == f);
    } else {
        let i = choose|i: int| 0 <= i < fs.len() && fs[i].0 == f.0 && fs[i].1 == f.1 && fs[i].2 == f.2;
        assert(once[i] == fs[i]);
    }
}

// --- relation closures --------------------------------------------------------

/// The symmetric closure keeps every pair, holds the reverse of each of its
/// pairs, and closing it again changes nothing.
pub proof fn law_symmetric_closure(ps: Set<PairV>)
    ensures
        ps <= symmetric_spec(ps),
        forall|a: Seq<char>, b: Seq<char>|
            #[trigger] symmetric_spec(ps).contains((a, b)) ==> symmetric_spec(ps).contains((b, a)),
        symmetric_spec(symmetric_spec(ps)) == symmetric_spec(ps),
{
    assert(symmetric_spec(symmetric_spec(ps)) =~= symmetric_spec(ps));
}

/// The reflexive closure keeps every pair, relates every node of the
/// relation to itself, mentions no new node, and closing it again changes
/// nothing.
pub proof fn law_reflexive_closure(ps: Set<PairV>)
    ensures
        ps <= reflexive_spec(ps),
        forall|x: Seq<char>| #[trigger] nodes_spec(ps).contains(x) ==> reflexive_spec(ps).contains((x, x)),
        nodes_spec(reflexive_spec(ps)) == nodes_spec(ps),
        reflexive_spec(reflexive_spec(ps)) == reflexive_spec(ps),
{
    let r = reflexive_spec(ps);
    assert(nodes_spec(r) =~= nodes_spec(ps)) by {
        assert forall|n: Seq<char>| nodes_spec(r).contains(n) implies nodes_spec(ps).contains(n) by {
            let o = choose|o: Seq<char>| r.contains((n, o)) || r.contains((o, n));
            if r.contains((n, o)) && !ps.contains((n, o)) {
            } else if r.contains((o, n)) && !ps.contains((o, n)) {
            } else if ps.contains((n, o)) {
            } else {
                assert(ps.contains((o, n)));
            }
        }
        assert forall|n: Seq<char>| nodes_spec(ps).contains(n) implies nodes_spec(r).contains(n) by {
            let o = choose|o: Seq<char>| ps.contains((n, o)) || ps.contains((o, n));
            assert(r.contains((n, o)) || r.contains((o, n)));
        }
    }
    assert(reflexive_spec(r) =~= r);
}

/// Paths compose: `a` reaching `b` and `b` reaching `c` means `a` reaches `c`.
#[verifier::spinoff_prover]
pub proof fn lemma_reach_trans(ps: Set<PairV>, a: Seq<char>, b: Seq<char>, c: Seq<char>)
    requires
        reaches(ps, a, b),
        reaches(ps, b, c),
    ensures
        reaches(ps, a, c),
{
    let p1 = choose|path: Seq<Seq<char>>| #[trigger] is_path(ps, path) && path[0] == a && path.last() == b;
    let p2 = choose|path: Seq<Seq<char>>| #[trigger] is_path(ps, path) && path[0] == b && path.last() == c;
    let p = p1 + p2.drop_first();
    assert forall|i: int| 0 <= i < p.len() - 1 implies ps.contains((#[trigger] p[i], p[i + 1])) by {
        if i < p1.len() - 1 {
            assert(p[i] == p1[i] && p[i + 1] == p1[i + 1]);
        } else if i == p1.len() - 1 {
            assert(p[i] == b && p[i + 1] == p2[1]);
            assert(ps.contains((p2[0], p2[1])));
        } else {
            let k = i - p1.len() + 1;
            assert(p[i] == p2[k] && p[i + 1] == p2[k + 1]);
        }
    }
    assert(is_path(ps, p));
}

/// The transitive closure keeps every pair, is transitive, and closing it
/// again changes nothing.
pub proof fn law_transitive_closure(ps: Set<PairV>)
    ensures
        ps <= transitive_spec(ps),
        forall|a: Seq<char>, b: Seq<char>, c: Seq<char>|
            #[trigger] transitive_spec(ps).contains((a, b)) && #[trigger] transitive_spec(ps).contains((b, c))
                ==> transitive_spec(ps).contains((a, c)),
        transitive_spec(transitive_spec(ps)) == transitive_spec(ps),
{
    let t = transitive_spec(ps);
    assert forall|p: PairV| ps.contains(p) implies t.contains(p) by {
        lemma_step_reaches(ps, p.0, p.1);
    }
    assert forall|a: Seq<char>, b: Seq<char>, c: Seq<char>|
        #[trigger] t.contains((a, b)) && #[trigger] t.contains((b, c)) implies t.contains((a, c)) by {
        lemma_reach_trans(ps, a, b, c);
    }
    assert(transitive_spec(t) =~= t) by {
        assert forall|p: PairV| transitive_spec(t).contains(p) implies t.contains(p) by {
            lemma_reach_collapse(ps, p.0, p.1);
        }
        assert forall|p: PairV| t.contains(p) implies transitive_spec(t).contains(p) by {
            lemma_step_reaches(t, p.0, p.1);
        }
    }
}

/// Reaching through reachability is reaching.
proof fn lemma_reach_collapse(ps: Set<PairV>, a: Seq<char>, c: Seq<char>)
    requires
        reaches(transitive_spec(ps), a, c),
    ensures
        reaches(ps, a, c),
{
    let t = transitive_spec(ps);
    let path = choose|path: Seq<Seq<char>>| #[trigger] is_path(t, path) && path[0] == a && path.last() == c;
    lemma_collapse_prefix(ps, path, path.len() - 1);
}

proof fn lemma_collapse_prefix(ps: Set<PairV>, path: Seq<Seq<char>>, k: int)
    requires
        is_path(transitive_spec(ps), path),
        1 <= k < path.len(),
    ensures
        reaches(ps, path[0], path[k]),
    decreases k,
{
    assert(transitive_spec(ps).contains((path[k - 1], path[k])));
    if k > 1 {
        lemma_collapse_prefix(ps, path, k - 1);
        lemma_reach_trans(ps, path[0], path[k - 1], path[k]);
    }
}

/// Reaching in a symmetric relation goes both ways.
proof fn lemma_reach_symmetric(ps: Set<PairV>, a: Seq<char>, c: Seq<char>)
    requires
        forall|x: Seq<char>, y: Seq<char>| #[trigger] ps.contains((x, y)) ==> ps.contains((y, x)),
        reaches(ps, a, c),
    ensures
        reaches(ps, c, a),
{
    let path = choose|path: Seq<Seq<char>>| #[trigger] is_path(ps, path) && path[0] == a && path.last() == c;
    lemma_back_along(ps, path, path.len() - 1);
}

/// Walking a path backwards from step `k` reaches its start.
proof fn lemma_back_along(ps: Set<PairV>, path: Seq<Seq<char>>, k: int)
    requires
        forall|x: Seq<char>, y: Seq<char>| #[trigger] ps.contains((x, y)) ==> ps.contains((y, x)),
        is_path(ps, path),
        1 <= k < path.len(),
    ensures
        reaches(ps, path[k], path[0]),
    decreases k,
{
    assert(ps.contains((path[k - 1], path[k])));
    assert(ps.contains((path[k], path[k - 1])));
    lemma_step_reaches(ps, path[k], path[k - 1]);
    if k > 1 {
        lemma_back_along(ps, path, k - 1);
        lemma_reach_trans(ps, path[k], path[k - 1], path[0]);
    }
}

/// The equivalence closure is an equivalence on the nodes it relates: every
/// node of the given relation is related to itself, it is symmetric and
/// transitive, and it keeps every given pair.
pub proof fn law_equivalence_closure(ps: Set<PairV>)
    ensures
        ps <= equivalence_spec(ps),
        forall|x: Seq<char>| #[trigger] nodes_spec(ps).contains(x) ==> equivalence_spec(ps).contains((x, x)),
        forall|a: Seq<char>, b: Seq<char>|
            #[trigger] equivalence_spec(ps).contains((a, b)) ==> equivalence_spec(ps).contains((b, a)),
        forall|a: Seq<char>, b: Seq<char>, c: Seq<char>|
            #[trigger] equivalence_spec(ps).contains((a, b)) && #[trigger] equivalence_spec(ps).contains((b, c))
                ==> equivalence_spec(ps).contains((a, c)),
{
    let s = symmetric_spec(ps);
    let t = transitive_spec(s);
    let e = equivalence_spec(ps);
    law_symmetric_closure(ps);
    law_transitive_closure(s);
    assert forall|p: PairV| ps.contains(p) implies e.contains(p) by {
        assert(s.contains(p));
        assert(t.contains(p));
    }
    // every node of `ps` reaches itself through a pair and its reverse
    assert forall|x: Seq<char>| #[trigger] nodes_spec(ps).contains(x) implies e.contains((x, x)) by {
        let o = choose|o: Seq<char>| ps.contains((x, o)) || ps.contains((o, x));
        assert(s.contains((x, o)) && s.contains((o, x)));
        lemma_step_reaches(s, x, o);
        lemma_reach_extend(s, x, o, x);
    }
    // nodes of `t` are reached both ways, so `t` holds its self pairs
    assert forall|a: Seq<char>, b: Seq<char>| #[trigger] t.contains((a, b)) implies t.contains((b, a)) by {
        lemma_reach_symmetric(s, a, b);
    }
    assert forall|a: Seq<char>, b: Seq<char>| #[trigger] e.contains((a, b)) implies e.contains((b, a)) by {
        if t.contains((a, b)) {
            lemma_reach_symmetric(s, a, b);
        }
    }
    assert forall|a: Seq<char>, b: Seq<char>, c: Seq<char>|
        #[trigger] e.contains((a, b)) && #[trigger] e.contains((b, c)) implies e.contains((a, c)) by {
        if t.contains((a, b)) && t.contains((b, c)) {
            lemma_reach_trans(s, a, b, c);
        } else if t.contains((a, b)) {
            // (b, c) is a self pair: c == b
            assert(b == c);
        } else if t.contains((b, c)) {
            assert(a == b);
        } else {
            assert(a == b && b == c);
        }
    }
}

// --- import paths ----------------------------------------------------------------

/// A path with every `\` written as `/`.
pub open spec fn forward_slashes(s: Seq<char>) -> Seq<char> {
    s.map_values(|c: char| if c == '\\' { '/' } else { c })
}

proof fn lemma_split_forward(s: Seq<char>)
    ensures
        split_state(forward_slashes(s)) == split_state(s),
    decreases s.len(),
{
    if s.len() > 0 {
        assert(forward_slashes(s).drop_last() =~= forward_slashes(s.drop_last()));
        lemma_split_forward(s.drop_last());
        let c = s.last();
        assert(forward_slashes(s).last() == if c == '\\' { '/' } else { c });
    }
}

/// Normalisation does not depend on the separator style: a Windows-style and
/// a Unix-style spelling of the same import resolve to the same path.
pub proof fn law_separator_style_irrelevant(base: Seq<char>, relative: Seq<char>)
    ensures
        normalized(forward_slashes(base), forward_slashes(relative)) == normalized(base, relative),
{
    lemma_split_forward(base);
    lemma_split_forward(relative);
    assert(segments(forward_slashes(base)) == segments(base));
    assert(segments(forward_slashes(relative)) == segments(relative));
    assert(starts_with_sep(forward_slashes(base)) == starts_with_sep(base));
    assert(starts_with_sep(forward_slashes(relative)) == starts_with_sep(relative));
}

/// A path segment that survives normalisation: not empty, not `.` or `..`,
/// and free of separators.
pub open spec fn clean_name(seg: Seq<char>) -> bool {
    &&& seg.len() > 0
    &&& seg != seq!['.']
    &&& seg != seq!['.', '.']
    &&& forall|i: int| 0 <= i < seg.len() ==> !is_sep(#[trigger] seg[i])
}

/// Free of separators.
spec fn sep_free(seg: Seq<char>) -> bool {
    forall|i: int| 0 <= i < seg.len() ==> !is_sep(#[trigger] seg[i])
}

/// Every segment splitting produces is free of separators.
proof fn lemma_split_sep_free(s: Seq<char>)
    ensures
        sep_free(split_state(s).1),
        forall|i: int| 0 <= i < split_state(s).0.len() ==> sep_free(#[trigger] split_state(s).0[i]),
    decreases s.len(),
{
    if s.len() > 0 {
        lemma_split_sep_free(s.drop_last());
        let (done, cur) = split_state(s.drop_last());
        if !is_sep(s.last()) {
            assert forall|i: int| 0 <= i < cur.push(s.last()).len() implies !is_sep(#[trigger] cur.push(s.last())[i]) by {
                if i < cur.len() {
                    assert(cur.push(s.last())[i] == cur[i]);
                }
            }
        }
    }
}

/// Walking segments only ever keeps clean names.
proof fn lemma_walk_clean(parts: Seq<Seq<char>>, segs: Seq<Seq<char>>)
    requires
        forall|i: int| 0 <= i < parts.len() ==> clean_name(#[trigger] parts[i]),
        forall|i: int| 0 <= i < segs.len() ==> sep_free(#[trigger] segs[i]),
    ensures
        forall|i: int| 0 <= i < walk(parts, segs).len() ==> clean_name(#[trigger] walk(parts, segs)[i]),
    decreases segs.len(),
{
    if segs.len() > 0 {
        lemma_walk_clean(parts, segs.drop_last());
        let w = walk(parts, segs.drop_last());
        let g = segs.last();
        assert(sep_free(g));
        if !(g.len() == 0 || g == seq!['.']) && g != seq!['.', '.'] {
            assert forall|i: int| 0 <= i < w.push(g).len() implies clean_name(#[trigger] w.push(g)[i]) by {
                if i < w.len() {
                    assert(w.push(g)[i] == w[i]);
                }
            }
        } else if g == seq!['.', '.'] && w.len() > 0 {
            assert forall|i: int| 0 <= i < w.drop_last().len() implies clean_name(#[trigger] w.drop_last()[i]) by {
                assert(w.drop_last()[i] == w[i]);
            }
        }
    }
}

/// Walking clean names appends them.
proof fn lemma_walk_names(parts: Seq<Seq<char>>, segs: Seq<Seq<char>>)
    requires
        forall|i: int| 0 <= i < segs.len() ==> clean_name(#[trigger] segs[i]),
    ensures
        walk(parts, segs) == parts + segs,
    decreases segs.len(),
{
    if segs.len() > 0 {
        lemma_walk_names(parts, segs.drop_last());
        assert(clean_name(segs.last()));
        assert(parts + segs =~= (parts + segs.drop_last()).push(segs.last()));
    } else {
        assert(parts + segs =~= parts);
    }
}

/// A leading empty segment changes nothing.
proof fn lemma_walk_lead_empty(parts: Seq<Seq<char>>, segs: Seq<Seq<char>>)
    ensures
        walk(parts, seq![Seq::<char>::empty()] + segs) == walk(parts, segs),
    decreases segs.len(),
{
    let l = seq![Seq::<char>::empty()] + segs;
    if segs.len() > 0 {
        lemma_walk_lead_empty(parts, segs.drop_last());
        assert(l.drop_last() =~= seq![Seq::<char>::empty()] + segs.drop_last());
        assert(l.last() == segs.last());
        assert(walk(parts, l) == step_seg(walk(parts, l.drop_last()), l.last()));
        assert(walk(parts, segs) == step_seg(walk(parts, segs.drop_last()), segs.last()));
    } else {
        assert(l.drop_last() =~= Seq::<Seq<char>>::empty());
        assert(l.last() == Seq::<char>::empty());
        assert(walk(parts, l) == step_seg(walk(parts, l.drop_last()), l.last()));
        assert(walk(parts, l.drop_last()) == parts);
        assert(segs =~= Seq::<Seq<char>>::empty());
    }
}

/// Splitting `x` followed by separator-free `b` extends the open segment.
proof fn lemma_split_append(x: Seq<char>, b: Seq<char>)
    requires
        sep_free(b),
    ensures
        split_state(x + b) == (split_state(x).0, split_state(x).1 + b),
    decreases b.len(),
{
    if b.len() == 0 {
        assert(x + b =~= x);
        assert(split_state(x).1 + b =~= split_state(x).1);
    } else {
        lemma_split_append(x, b.drop_last());
        assert((x + b).drop_last() =~= x + b.drop_last());
        assert((x + b).last() == b.last());
        assert(split_state(x).1 + b =~= (split_state(x).1 + b.drop_last()).push(b.last()));
    }
}

/// Joining separator-free segments and splitting again gives them back.
proof fn lemma_segments_join(parts: Seq<Seq<char>>)
    requires
        parts.len() >= 1,
        forall|i: int| 0 <= i < parts.len() ==> sep_free(#[trigger] parts[i]),
    ensures
        segments(join_slash(parts)) == parts,
    decreases parts.len(),
{
    if parts.len() == 1 {
        lemma_split_append(Seq::empty(), parts[0]);
        assert(Seq::<char>::empty() + parts[0] =~= parts[0]);
        assert(Seq::<char>::empty() + parts[0] =~= parts[0]);
        assert(seq![parts[0]] =~= parts);
    } else {
        let init = parts.drop_last();
        let j = join_slash(init);
        lemma_segments_join(init);
        assert(sep_free(parts.last()));
        lemma_split_append(j + seq!['/'], parts.last());
        assert((j + seq!['/']).drop_last() =~= j);
        assert((j + seq!['/']).last() == '/');
        assert(Seq::<char>::empty() + parts.last() =~= parts.last());
        assert(parts =~= init.push(parts.last()));
    }
}

/// A root slash before a join is an empty first segment.
proof fn lemma_join_lead_empty(parts: Seq<Seq<char>>)
    requires
        parts.len() >= 1,
    ensures
        join_slash(seq![Seq::<char>::empty()] + parts) == seq!['/'] + join_slash(parts),
    decreases parts.len(),
{
    let l = seq![Seq::<char>::empty()] + parts;
    if parts.len() == 1 {
        assert(l.drop_last() =~= seq![Seq::<char>::empty()]);
        assert(join_slash(l.drop_last()) =~= Seq::<char>::empty());
        assert(seq!['/'] + parts[0] =~= Seq::<char>::empty() + seq!['/'] + parts[0]);
    } else {
        lemma_join_lead_empty(parts.drop_last());
        assert(l.drop_last() =~= seq![Seq::<char>::empty()] + parts.drop_last());
        assert(seq!['/'] + join_slash(parts) =~= seq!['/'] + join_slash(parts.drop_last()) + seq!['/'] + parts.last());
    }
}

/// The names a normalised path is made of: clean, joined with `/`, after a
/// root `/` where base or target is absolute.
proof fn lemma_normalized_parts(base: Seq<char>, relative: Seq<char>) -> (parts: Seq<Seq<char>>)
    ensures
        forall|i: int| 0 <= i < parts.len() ==> clean_name(#[trigger] parts[i]),
        normalized(base, relative) == if starts_with_sep(base) || starts_with_sep(relative) {
            seq!['/'] + join_slash(parts)
        } else {
            join_slash(parts)
        },
{
    lemma_split_sep_free(base);
    lemma_split_sep_free(relative);
    let sb = segments(base).drop_last();
    assert forall|i: int| 0 <= i < sb.len() implies sep_free(#[trigger] sb[i]) by {
        assert(sb[i] == split_state(base).0[i]);
    }
    let sr = segments(relative);
    assert forall|i: int| 0 <= i < sr.len() implies sep_free(#[trigger] sr[i]) by {
        if i < split_state(relative).0.len() {
            assert(sr[i] == split_state(relative).0[i]);
        }
    }
    lemma_walk_clean(Seq::empty(), sb);
    let dir = walk(Seq::empty(), sb);
    lemma_walk_clean(dir, sr);
    lemma_walk_clean(Seq::empty(), sr);
    if starts_with_sep(relative) {
        walk(Seq::empty(), sr)
    } else {
        walk(dir, sr)
    }
}

/// A normalised path is clean: every name in it is a real segment (not
/// empty, `.` or `..`) with no separator, and `..` never climbs above the
/// start, so the path is those names joined with `/` (after a root `/` where
/// the base or the target is absolute).
pub proof fn law_normalized_clean(base: Seq<char>, relative: Seq<char>)
    ensures
        exists|parts: Seq<Seq<char>>|
            (forall|i: int| 0 <= i < parts.len() ==> clean_name(#[trigger] parts[i])) && normalized(base, relative) == if starts_with_sep(base)
                || starts_with_sep(relative) {
                seq!['/'] + join_slash(parts)
            } else {
                join_slash(parts)
            },
{
    let parts = lemma_normalized_parts(base, relative);
}

/// Normalising an already normalised path changes nothing: read from the
/// top directory, it names itself.
pub proof fn law_normalized_idempotent(base: Seq<char>, relative: Seq<char>)
    ensures
        normalized(Seq::empty(), normalized(base, relative)) == normalized(base, relative),
{
    let parts = lemma_normalized_parts(base, relative);
    let p = normalized(base, relative);
    assert(segments(Seq::<char>::empty()) =~= seq![Seq::<char>::empty()]);
    assert(segments(Seq::<char>::empty()).drop_last() =~= Seq::<Seq<char>>::empty());
    assert(!starts_with_sep(Seq::<char>::empty()));
    assert forall|i: int| 0 <= i < parts.len() implies sep_free(#[trigger] parts[i]) by {
        assert(clean_name(parts[i]));
    }
    if starts_with_sep(base) || starts_with_sep(relative) {
        assert(starts_with_sep(p));
        if parts.len() == 0 {
            assert(join_slash(parts) =~= Seq::<char>::empty());
            assert(p =~= seq!['/']);
            assert(split_state(p.drop_last()) == (Seq::<Seq<char>>::empty(), Seq::<char>::empty()));
            assert(segments(p) =~= seq![Seq::<char>::empty(), Seq::<char>::empty()]);
            lemma_walk_lead_empty(Seq::empty(), Seq::empty());
            assert(seq![Seq::<char>::empty()] + Seq::<Seq<char>>::empty() =~= seq![Seq::<char>::empty()]);
            lemma_walk_lead_empty(Seq::empty(), seq![Seq::<char>::empty()]);
            assert(seq![Seq::<char>::empty()] + seq![Seq::<char>::empty()] =~= seq![Seq::<char>::empty(), Seq::<char>::empty()]);
        } else {
            let l = seq![Seq::<char>::empty()] + parts;
            lemma_join_lead_empty(parts);
            assert forall|i: int| 0 <= i < l.len() implies sep_free(#[trigger] l[i]) by {
                if i > 0 {
                    assert(l[i] == parts[i - 1]);
                }
            }
            lemma_segments_join(l);
            lemma_walk_lead_empty(Seq::empty(), parts);
            lemma_walk_names(Seq::empty(), parts);
            assert(Seq::<Seq<char>>::empty() + parts =~= parts);
        }
    } else {
        if parts.len() == 0 {
            assert(join_slash(parts) =~= Seq::<char>::empty());
            assert(p =~= Seq::<char>::empty());
        } else {
            lemma_segments_join(parts);
            lemma_walk_names(Seq::empty(), parts);
            assert(Seq::<Seq<char>>::empty() + parts =~= parts);
            assert(clean_name(parts[0]));
            assert(!starts_with_sep(p)) by {
                lemma_join_first(parts);
            }
        }
    }
}

/// A join starts with the first part's first character.
proof fn lemma_join_first(parts: Seq<Seq<char>>)
    requires
        parts.len() >= 1,
        parts[0].len() > 0,
    ensures
        join_slash(parts).len() > 0,
        join_slash(parts)[0] == parts[0][0],
    decreases parts.len(),
{
    if parts.len() > 1 {
        lemma_join_first(parts.drop_last());
        let j = join_slash(parts.drop_last());
        assert((j + seq!['/'] + parts.last())[0] == j[0]);
    }
}

// --- edit distance ----------------------------------------------------------------

/// `b` is `a` after one edit: a character inserted, deleted or replaced.
pub open spec fn one_edit(a: Seq<char>, b: Seq<char>) -> bool {
    ||| exists|i: int, c: char| 0 <= i <= a.len() && b == #[trigger] a.insert(i, c)
    ||| exists|i: int| 0 <= i < a.len() && b == #[trigger] a.remove(i)
    ||| exists|i: int, c: char| 0 <= i < a.len() && b == #[trigger] a.update(i, c)
}

/// Step `i` of `ss` is one edit.
pub open spec fn edit_step(ss: Seq<Seq<char>>, i: int) -> bool {
    one_edit(ss[i], ss[i + 1])
}

/// `ss` goes from `a` to `b` one edit at a time, in `ss.len() - 1` edits.
pub open spec fn edit_path(ss: Seq<Seq<char>>, a: Seq<char>, b: Seq<char>) -> bool {
    &&& ss.len() >= 1
    &&& ss[0] == a
    &&& ss.last() == b
    &&& forall|i: int| 0 <= i < ss.len() - 1 ==> #[trigger] edit_step(ss, i)
}

/// Dropping the last character of the first string moves the distance by at
/// most one.
proof fn lemma_lev_drop_first(a: Seq<char>, y: Seq<char>)
    requires
        a.len() > 0,
    ensures
        lev(a, y) <= lev(a.drop_last(), y) + 1,
{
    if y.len() == 0 {
    }
}

/// Inserting a character into the second string costs at most one.
proof fn lemma_lev_insert(a: Seq<char>, b: Seq<char>, i: int, c: char)
    requires
        0 <= i <= b.len(),
    ensures
        lev(a, b.insert(i, c)) <= lev(a, b) + 1,
    decreases a.len() + b.len(),
{
    let b2 = b.insert(i, c);
    if a.len() == 0 {
    } else if i == b.len() {
        assert(b2.drop_last() =~= b);
    } else {
        let a1 = a.drop_last();
        let bd = b.drop_last();
        assert(b2.drop_last() =~= bd.insert(i, c));
        assert(b2.last() == b.last());
        lemma_lev_insert(a1, b, i, c);
        lemma_lev_insert(a, bd, i, c);
        lemma_lev_insert(a1, bd, i, c);
    }
}

/// Deleting a character of the second string costs at most one.
proof fn lemma_lev_remove(a: Seq<char>, b: Seq<char>, i: int)
    requires
        0 <= i < b.len(),
    ensures
        lev(a, b.remove(i)) <= lev(a, b) + 1,
    decreases a.len() + b.len(),
{
    let b2 = b.remove(i);
    let bd = b.drop_last();
    if a.len() == 0 {
    } else if i == b.len() - 1 {
        assert(b2 =~= bd);
        let a1 = a.drop_last();
        lemma_lev_drop_first(a, bd);
        lemma_lev_remove(a1, b, i);
    } else {
        let a1 = a.drop_last();
        assert(b2.drop_last() =~= bd.remove(i));
        assert(b2.last() == b.last());
        lemma_lev_remove(a1, b, i);
        lemma_lev_remove(a, bd, i);
        lemma_lev_remove(a1, bd, i);
    }
}

/// Replacing a character of the second string costs at most one.
proof fn lemma_lev_update(a: Seq<char>, b: Seq<char>, i: int, c: char)
    requires
        0 <= i < b.len(),
    ensures
        lev(a, b.update(i, c)) <= lev(a, b) + 1,
    decreases a.len() + b.len(),
{
    let b2 = b.update(i, c);
    let bd = b.drop_last();
    if a.len() == 0 {
    } else {
        let a1 = a.drop_last();
        lemma_lev_update(a1, b, i, c);
        if i == b.len() - 1 {
            assert(b2.drop_last() =~= bd);
        } else {
            assert(b2.drop_last() =~= bd.update(i, c));
            assert(b2.last() == b.last());
            lemma_lev_update(a, bd, i, c);
            lemma_lev_update(a1, bd, i, c);
        }
    }
}

/// One edit of the second string moves the distance by at most one.
proof fn lemma_lev_one_edit(a: Seq<char>, b: Seq<char>, c: Seq<char>)
    requires
        one_edit(b, c),
    ensures
        lev(a, c) <= lev(a, b) + 1,
{
    if exists|i: int, x: char| 0 <= i <= b.len() && c == #[trigger] b.insert(i, x) {
        let (i, x) = choose|i: int, x: char| 0 <= i <= b.len() && c == #[trigger] b.insert(i, x);
        lemma_lev_insert(a, b, i, x);
    } else if exists|i: int| 0 <= i < b.len() && c == #[trigger] b.remove(i) {
        let i = choose|i: int| 0 <= i < b.len() && c == #[trigger] b.remove(i);
        lemma_lev_remove(a, b, i);
    } else {
        let (i, x) = choose|i: int, x: char| 0 <= i < b.len() && c == #[trigger] b.update(i, x);
        lemma_lev_update(a, b, i, x);
    }
}

/// Along an edit path from `a`, the distance from `a` grows by at most one per
/// edit.
proof fn lemma_lev_path_bound(ss: Seq<Seq<char>>, a: Seq<char>, k: int)
    requires
        ss.len() >= 1,
        ss[0] == a,
        forall|i: int| 0 <= i < ss.len() - 1 ==> #[trigger] edit_step(ss, i),
        0 <= k < ss.len(),
    ensures
        lev(a, ss[k]) <= k,
    decreases k,
{
    if k == 0 {
        crate::error::lemma_lev_zero_iff_equal(a, a);
    } else {
        lemma_lev_path_bound(ss, a, k - 1);
        assert(edit_step(ss, k - 1));
        lemma_lev_one_edit(a, ss[k - 1], ss[k]);
    }
}

/// An edit path with `x` appended to every string is an edit path.
proof fn lemma_path_push(ss: Seq<Seq<char>>, x: char) -> (ts: Seq<Seq<char>>)
    requires
        ss.len() >= 1,
        forall|i: int| 0 <= i < ss.len() - 1 ==> #[trigger] edit_step(ss, i),
    ensures
        ts.len() == ss.len(),
        forall|i: int| 0 <= i < ts.len() ==> #[trigger] ts[i] == ss[i].push(x),
        forall|i: int| 0 <= i < ts.len() - 1 ==> #[trigger] edit_step(ts, i),
{
    let ts = ss.map_values(|s: Seq<char>| s.push(x));
    assert forall|i: int| 0 <= i < ts.len() - 1 implies #[trigger] edit_step(ts, i) by {
        let s = ss[i];
        let t = ss[i + 1];
        assert(edit_step(ss, i));
        if exists|j: int, c: char| 0 <= j <= s.len() && t == #[trigger] s.insert(j, c) {
            let (j, c) = choose|j: int, c: char| 0 <= j <= s.len() && t == #[trigger] s.insert(j, c);
            assert(t.push(x) =~= s.push(x).insert(j, c));
        } else if exists|j: int| 0 <= j < s.len() && t == #[trigger] s.remove(j) {
            let j = choose|j: int| 0 <= j < s.len() && t == #[trigger] s.remove(j);
            assert(t.push(x) =~= s.push(x).remove(j));
        } else {
            let (j, c) = choose|j: int, c: char| 0 <= j < s.len() && t == #[trigger] s.update(j, c);
            assert(t.push(x) =~= s.push(x).update(j, c));
        }
    }
    ts
}

/// Some edit path from `a` to `b` takes exactly `lev(a, b)` edits.
proof fn lemma_lev_path_exists(a: Seq<char>, b: Seq<char>) -> (ss: Seq<Seq<char>>)
    ensures
        edit_path(ss, a, b),
        ss.len() == lev(a, b) + 1,
    decreases a.len() + b.len(),
{
    if a.len() == 0 && b.len() == 0 {
        assert(a =~= b);
        seq![a]
    } else if b.len() == 0 || (a.len() > 0 && lev(a, b) == lev(a.drop_last(), b) + 1) {
        // delete the last character of `a`, then go on
        let a1 = a.drop_last();
        let p = lemma_lev_path_exists(a1, b);
        let ss = seq![a] + p;
        assert(a.remove(a.len() - 1) =~= a1);
        assert(one_edit(a, a1));
        assert forall|i: int| 0 <= i < ss.len() - 1 implies #[trigger] edit_step(ss, i) by {
            if i > 0 {
                assert(ss[i] == p[i - 1] && ss[i + 1] == p[i]);
                assert(edit_step(p, i - 1));
            }
        }
        if b.len() == 0 {
            crate::error::lemma_lev_bound(a1, b);
        }
        ss
    } else if a.len() == 0 || lev(a, b) == lev(a, b.drop_last()) + 1 {
        // reach all but the last character of `b`, then insert it
        let bd = b.drop_last();
        let p = lemma_lev_path_exists(a, bd);
        let ss = p.push(b);
        assert(bd.insert(bd.len() as int, b.last()) =~= b);
        assert(one_edit(bd, b));
        assert forall|i: int| 0 <= i < ss.len() - 1 implies #[trigger] edit_step(ss, i) by {
            if i < p.len() - 1 {
                assert(ss[i] == p[i] && ss[i + 1] == p[i + 1]);
                assert(edit_step(p, i));
            }
        }
        ss
    } else {
        // turn `a`'s prefix into `b`'s, keeping `a`'s last character, then
        // replace that character if it differs
        let a1 = a.drop_last();
        let bd = b.drop_last();
        let x = a.last();
        let p = lemma_lev_path_exists(a1, bd);
        let q = lemma_path_push(p, x);
        assert(q[0] =~= a);
        if x == b.last() {
            assert(q.last() == bd.push(x));
            assert(bd.push(x) =~= b);
            q
        } else {
            let ss = q.push(b);
            assert(bd.push(x).update(bd.len() as int, b.last()) =~= b);
            assert(one_edit(bd.push(x), b));
            assert forall|i: int| 0 <= i < ss.len() - 1 implies #[trigger] edit_step(ss, i) by {
                if i < q.len() - 1 {
                    assert(ss[i] == q[i] && ss[i + 1] == q[i + 1]);
                    assert(edit_step(q, i));
                }
            }
            ss
        }
    }
}

/// The edit distance is the least number of single-character insertions,
/// deletions and substitutions that turn `a` into `b`: some path of edits
/// takes exactly that many, and none takes fewer.
pub proof fn law_lev_least_edits(a: Seq<char>, b: Seq<char>)
    ensures
        exists|ss: Seq<Seq<char>>| #[trigger] edit_path(ss, a, b) && ss.len() == lev(a, b) + 1,
        forall|ss: Seq<Seq<char>>| #[trigger] edit_path(ss, a, b) ==> lev(a, b) <= ss.len() - 1,
{
    let ss = lemma_lev_path_exists(a, b);
    assert(edit_path(ss, a, b));
    assert forall|ss: Seq<Seq<char>>| #[trigger] edit_path(ss, a, b) implies lev(a, b) <= ss.len() - 1 by {
        lemma_lev_path_bound(ss, a, ss.len() - 1);
    }
}

// --- keys of provided values --------------------------------------------------

/// No character of `w` is whitespace or a `.`.
pub open spec fn key_safe(w: Seq<char>) -> bool {
    forall|i: int| 0 <= i < w.len() ==> !crate::text::char_whitespace(#[trigger] w[i]) && w[i] != '.'
}

/// Leading non-whitespace run of `x` followed by a space or the end.
proof fn lemma_word_len_of(x: Seq<char>, t: Seq<char>)
    requires
        forall|i: int| 0 <= i < x.len() ==> !crate::text::char_whitespace(#[trigger] x[i]),
        t.len() == 0 || crate::text::char_whitespace(t[0]),
    ensures
        word_len(x + t) == x.len(),
    decreases x.len(),
{
    if x.len() > 0 {
        assert((x + t).drop_first() =~= x.drop_first() + t);
        assert((x + t)[0] == x[0]);
        lemma_word_len_of(x.drop_first(), t);
    } else {
        assert(x + t =~= t);
    }
}

/// A word ended by a space or the end splits off first.
proof fn lemma_words_lead(x: Seq<char>, t: Seq<char>)
    requires
        x.len() > 0,
        forall|i: int| 0 <= i < x.len() ==> !crate::text::char_whitespace(#[trigger] x[i]),
        t.len() == 0 || crate::text::char_whitespace(t[0]),
    ensures
        words(x + t) == seq![x] + words(t),
{
    let s = x + t;
    lemma_word_len_of(x, t);
    assert(s[0] == x[0]);
    assert(!crate::text::char_whitespace(s[0]));
    assert(s.subrange(0, x.len() as int) =~= x);
    assert(s.subrange(x.len() as int, s.len() as int) =~= t);
}

/// A leading space is skipped.
proof fn lemma_words_space(t: Seq<char>)
    ensures
        words(seq![' '] + t) == words(t),
{
    let s = seq![' '] + t;
    assert(s[0] == ' ');
    assert(crate::text::char_whitespace(' '));
    assert(s.drop_first() =~= t);
}

/// A key-safe word has no whitespace.
proof fn lemma_safe_no_space(w: Seq<char>)
    requires
        key_safe(w),
    ensures
        forall|i: int| 0 <= i < w.len() ==> !crate::text::char_whitespace(#[trigger] w[i]),
{
}

/// The key a `PROVIDE` binds, read back as a reference, names the atom that
/// was written: its domain, subject, predicate and object, for names free of
/// whitespace and `.` (as identifiers are).
pub proof fn law_provide_key_roundtrip(a: Atom)
    requires
        a.subject@.len() > 0,
        key_safe(a.subject@),
        match opt_view(a.domain) {
            Some(d) => key_safe(d),
            None => true,
        },
        match opt_view(a.predicate) {
            Some(p) => p.len() > 0 && key_safe(p),
            None => true,
        },
        match opt_view(a.object) {
            Some(o) => o.len() > 0 && key_safe(o),
            None => true,
        },
        a.object is Some ==> a.predicate is Some,
    ensures
        key_ref(provide_key_spec(a)) == (PortRefV {
            domain: opt_view(a.domain),
            subject: a.subject@,
            predicate: opt_view(a.predicate),
            object: opt_view(a.object),
        }),
{
    let dpart: Seq<char> = match opt_view(a.domain) {
        Some(d) => d + seq!['.'],
        None => Seq::empty(),
    };
    let subj = a.subject@;
    let w1 = dpart + subj;
    let pp: Seq<char> = match opt_view(a.predicate) {
        Some(p) => seq![' '] + p,
        None => Seq::empty(),
    };
    let oo: Seq<char> = match opt_view(a.object) {
        Some(o) => seq![' '] + o,
        None => Seq::empty(),
    };
    let key = provide_key_spec(a);
    assert(key == w1 + pp + oo);
    assert(!crate::text::char_whitespace('.'));
    assert forall|i: int| 0 <= i < w1.len() implies !crate::text::char_whitespace(#[trigger] w1[i]) by {
        if i < dpart.len() {
            assert(w1[i] == dpart[i]);
            match opt_view(a.domain) {
                Some(d) => {
                    if i < d.len() {
                        assert(dpart[i] == d[i]);
                    }
                },
                None => {},
            }
        } else {
            assert(w1[i] == subj[i - dpart.len()]);
        }
    }
    let ws = words(key);
    match opt_view(a.predicate) {
        None => {
            assert(oo.len() == 0);
            assert(key =~= w1 + Seq::<char>::empty());
            lemma_words_lead(w1, Seq::<char>::empty());
            assert(ws =~= seq![w1]);
        },
        Some(p) => {
            lemma_safe_no_space(p);
            match opt_view(a.object) {
                None => {
                    assert(key =~= w1 + (seq![' '] + p));
                    lemma_words_lead(w1, seq![' '] + p);
                    lemma_words_space(p);
                    assert(p =~= p + Seq::<char>::empty());
                    lemma_words_lead(p, Seq::<char>::empty());
                    assert(ws =~= seq![w1, p]);
                },
                Some(o) => {
                    lemma_safe_no_space(o);
                    let rest = seq![' '] + o;
                    assert(key =~= w1 + (seq![' '] + (p + rest)));
                    lemma_words_lead(w1, seq![' '] + (p + rest));
                    lemma_words_space(p + rest);
                    lemma_words_lead(p, rest);
                    lemma_words_space(o);
                    assert(o =~= o + Seq::<char>::empty());
                    lemma_words_lead(o, Seq::<char>::empty());
                    assert(ws =~= seq![w1, p, o]);
                },
            }
        },
    }
    assert(first_word(ws) == w1);
    w1.index_of_first_ensures('.');
    match opt_view(a.domain) {
        Some(d) => {
            let k = d.len() as int;
            assert(w1[k] == '.');
            assert(w1.contains('.'));
            let idx = w1.index_of_first('.')->0;
            if idx < k {
                assert(w1[idx] == d[idx]);
            }
            assert(idx == k);
            assert(w1.subrange(0, k) =~= d);
            assert(w1.subrange(k + 1, w1.len() as int) =~= subj);
        },
        None => {
            assert(w1 =~= subj);
            if w1.contains('.') {
                let j = choose|j: int| 0 <= j < w1.len() && w1[j] == '.';
                assert(subj[j] == '.');
            }
        },
    }
}

// --- prefixes a source uses -------------------------------------------------------

/// Some atom written in body `b` carries prefix `x`.
pub open spec fn body_writes(b: Body, x: Option<Seq<char>>) -> bool {
    match b {
        Body::List { atoms, .. } => exists|i: int| 0 <= i < atoms@.len() && opt_view((#[trigger] atoms@[i]).data.domain) == x,
        Body::Impl { antecedent, consequent, .. } => {
            ||| exists|i: int| 0 <= i < antecedent@.len() && opt_view((#[trigger] antecedent@[i]).data.atom.domain) == x
            ||| exists|i: int| 0 <= i < consequent@.len() && opt_view((#[trigger] consequent@[i]).data.atom.domain) == x
        },
        Body::Exists { atom, .. } => opt_view(atom.data.domain) == x,
    }
}

/// Some atom written in statement `st` (a fact, negation or assumption, a
/// list atom, an antecedent or consequent literal, or an `EXISTS` condition)
/// carries prefix `x` (`None`: no prefix).
pub open spec fn writes_prefix(st: Statement, x: Option<Seq<char>>) -> bool {
    match st {
        Statement::Fact(a) => opt_view(a.data.domain) == x,
        Statement::Negation(a) => opt_view(a.data.domain) == x,
        Statement::Assume(l) => opt_view(l.data.atom.domain) == x,
        Statement::Premise { body, .. } => body_writes(body, x),
        Statement::Rule { body, .. } => body_writes(body, x),
        _ => false,
    }
}

/// A statement's prefixes include every prefix one of its atoms carries.
proof fn lemma_stmt_prefixes_complete(st: Statement, x: Option<Seq<char>>)
    requires
        writes_prefix(st, x),
    ensures
        stmt_prefixes(st).contains(x),
{
    let b = match st {
        Statement::Premise { body, .. } => Some(body),
        Statement::Rule { body, .. } => Some(body),
        _ => None,
    };
    match b {
        Some(body) => {
            assert(stmt_prefixes(st) == body_prefixes(body));
            match body {
                Body::List { atoms, .. } => {
                    let i = choose|i: int| 0 <= i < atoms@.len() && opt_view((#[trigger] atoms@[i]).data.domain) == x;
                    assert(atom_prefixes(atoms@)[i] == x);
                },
                Body::Impl { antecedent, consequent, .. } => {
                    let pa = lit_prefixes(antecedent@);
                    let pc = lit_prefixes(consequent@);
                    if exists|i: int| 0 <= i < antecedent@.len() && opt_view((#[trigger] antecedent@[i]).data.atom.domain) == x {
                        let i = choose|i: int| 0 <= i < antecedent@.len() && opt_view((#[trigger] antecedent@[i]).data.atom.domain) == x;
                        assert((pa + pc)[i] == pa[i]);
                    } else {
                        let i = choose|i: int| 0 <= i < consequent@.len() && opt_view((#[trigger] consequent@[i]).data.atom.domain) == x;
                        assert((pa + pc)[pa.len() + i] == pc[i]);
                    }
                },
                Body::Exists { .. } => {
                    assert(body_prefixes(body)[0] == x);
                },
            }
        },
        None => {
            assert(stmt_prefixes(st)[0] == x);
        },
    }
}

/// The prefixes a source uses include the prefix of every atom written in
/// any of its statements: facts, list atoms, and every antecedent and
/// consequent literal.
pub proof fn law_used_prefixes_complete(stmts: Seq<Statement>, j: int, x: Option<Seq<char>>)
    requires
        0 <= j < stmts.len(),
        writes_prefix(stmts[j], x),
    ensures
        used_prefixes(stmts).contains(x),
    decreases stmts.len(),
{
    let q = stmts.drop_last();
    let tail = match stmts.last() {
        Statement::Import { .. } => Seq::<Option<Seq<char>>>::empty(),
        other => stmt_prefixes(other),
    };
    assert(used_prefixes(stmts) == used_prefixes(q) + tail);
    if j < stmts.len() - 1 {
        assert(q[j] == stmts[j]);
        law_used_prefixes_complete(q, j, x);
        let i = choose|i: int| 0 <= i < used_prefixes(q).len() && used_prefixes(q)[i] == x;
        assert((used_prefixes(q) + tail)[i] == x);
    } else {
        assert(stmts[j] == stmts.last());
        lemma_stmt_prefixes_complete(stmts.last(), x);
        let i = choose|i: int| 0 <= i < tail.len() && tail[i] == x;
        assert((used_prefixes(q) + tail)[used_prefixes(q).len() + i] == x);
    }
}

/// An import is never reported unused while an atom of its importer names
/// its domain: a parsed source whose statement `j` writes an atom with prefix
/// `x` references the domain `x` stands for (its own domain for no prefix,
/// the domain an alias is bound to otherwise).
pub proof fn law_referenced_when_written(
    n: SourceNode,
    stmts: Seq<Statement>,
    al: Seq<(Seq<char>, Seq<char>)>,
    j: int,
    x: Option<Seq<char>>,
    d: Seq<char>,
)
    requires
        opt_views(n.used@) == used_prefixes(stmts),
        0 <= j < stmts.len(),
        writes_prefix(stmts[j], x),
        match x {
            None => d == n.domain@,
            Some(a) => lookup_v(al, a) == Some(d),
        },
    ensures
        referenced(n.domain@, al, n.used@, d),
{
    law_used_prefixes_complete(stmts, j, x);
    let i = choose|i: int| 0 <= i < used_prefixes(stmts).len() && used_prefixes(stmts)[i] == x;
    assert(opt_views(n.used@)[i] == opt_view(n.used@[i]));
    assert(0 <= i < n.used@.len());
}

} // verus!