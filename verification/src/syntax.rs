//! The surface syntax as relations between a text, a position, what is read
//! there, and where it ends. A parsed program satisfies them: every
//! statement, atom and name it holds is written in the text exactly as these
//! relations say, statement after statement, with only blank and comment
//! lines between them.
use vstd::prelude::*;
use crate::ast::{
    Atom, Body, CloseKind, Conn, ListOp, Literal, Located, Quant, Statement, ident_char, valid_ident,
};
use crate::keywords::{Kw, kw_spec};
use crate::scan::{col_of, holds_at, is_space, line_of};
use crate::text::white;

verus! {

// --- lexical pieces --------------------------------------------------------------

/// `l` carries the line and column of position `p` of `t`.
pub open spec fn placed<T>(t: Seq<char>, l: Located<T>, p: int) -> bool {
    l.line == line_of(t, p) && l.col == col_of(t, p)
}

/// `l` carries the position where the spaces from `p` end.
pub open spec fn placed_after_spaces<T>(t: Seq<char>, l: Located<T>, p: int) -> bool {
    exists|q: int| #![trigger spaces_ok(t, p, q)] spaces_ok(t, p, q) && placed(t, l, q)
}

/// `t[p..e]` is a (possibly empty) maximal run of inline spaces.
pub open spec fn spaces_ok(t: Seq<char>, p: int, e: int) -> bool {
    &&& 0 <= p <= e <= t.len()
    &&& forall|i: int| p <= i < e ==> is_space(#[trigger] t[i])
    &&& (e == t.len() || !is_space(t[e]))
}

/// `t[p..e]` is a non-empty maximal run of inline spaces.
pub open spec fn space1_ok(t: Seq<char>, p: int, e: int) -> bool {
    spaces_ok(t, p, e) && p < e
}

/// Keyword `k` is written at `p` and ends at `e`.
pub open spec fn kw_ok(t: Seq<char>, p: int, k: Kw, e: int) -> bool {
    holds_at(t, p, kw_spec(k)) && e == p + kw_spec(k).len()
}

/// `t[p..e]` is the identifier `s`: a valid, unreserved identifier that the
/// next character does not continue.
pub open spec fn ident_ok(t: Seq<char>, p: int, e: int, s: Seq<char>) -> bool {
    &&& 0 <= p < e <= t.len()
    &&& s == t.subrange(p, e)
    &&& valid_ident(s)
    &&& (e == t.len() || !ident_char(t[e]))
}

/// An optional `//` comment from `p` up to (not including) the line ending.
pub open spec fn comment_ok(t: Seq<char>, p: int, e: int) -> bool {
    if 0 <= p && p + 1 < t.len() && t[p] == '/' && t[p + 1] == '/' {
        &&& p + 2 <= e <= t.len()
        &&& forall|i: int| p + 2 <= i < e ==> #[trigger] t[i] != '\n' && t[i] != '\r'
        &&& (e == t.len() || t[e] == '\n' || t[e] == '\r')
    } else {
        e == p
    }
}

/// Two maximal space runs from the same place end at the same place.
pub proof fn lemma_spaces_unique(t: Seq<char>, p: int, a: int, b: int)
    requires
        spaces_ok(t, p, a),
        spaces_ok(t, p, b),
    ensures
        a == b,
{
    if a < b {
        assert(is_space(t[a]));
    } else if b < a {
        assert(is_space(t[b]));
    }
}

/// A comment from a given place ends at one place.
pub proof fn lemma_comment_unique(t: Seq<char>, p: int, a: int, b: int)
    requires
        comment_ok(t, p, a),
        comment_ok(t, p, b),
    ensures
        a == b,
{
    if 0 <= p && p + 1 < t.len() && t[p] == '/' && t[p + 1] == '/' {
        if a < b {
            assert(t[a] != '\n' && t[a] != '\r');
        } else if b < a {
            assert(t[b] != '\n' && t[b] != '\r');
        }
    }
}

/// A line ending, `\n` or `\r\n`, from `p` to `e`.
pub open spec fn line_end_ok(t: Seq<char>, p: int, e: int) -> bool {
    ||| (0 <= p < t.len() && t[p] == '\n' && e == p + 1)
    ||| (0 <= p && p + 1 < t.len() && t[p] == '\r' && t[p + 1] == '\n' && e == p + 2)
}

/// The end of a statement line: spaces, an optional comment, then a line
/// ending or the end of the text.
pub open spec fn eol_parts(t: Seq<char>, p: int, e: int, w: Seq<int>) -> bool {
    &&& w.len() == 2
    &&& spaces_ok(t, p, w[0])
    &&& comment_ok(t, w[0], w[1])
    &&& ((w[1] == t.len() && e == w[1]) || line_end_ok(t, w[1], e))
}

/// `t[p..e]` ends a statement line.
pub open spec fn eol_ok(t: Seq<char>, p: int, e: int) -> bool {
    exists|w: Seq<int>| #[trigger] eol_parts(t, p, e, w)
}

/// A blank or comment-only line from `p` to `e`, line ending included.
pub open spec fn noise_parts(t: Seq<char>, p: int, e: int, w: Seq<int>) -> bool {
    &&& w.len() == 2
    &&& spaces_ok(t, p, w[0])
    &&& comment_ok(t, w[0], w[1])
    &&& line_end_ok(t, w[1], e)
}

/// `t[p..e]` is one blank or comment-only line.
pub open spec fn noise_line_ok(t: Seq<char>, p: int, e: int) -> bool {
    exists|w: Seq<int>| #[trigger] noise_parts(t, p, e, w)
}

/// `t[p..e]` is a run of blank or comment-only lines after which no such line
/// starts.
pub open spec fn noise_ok(t: Seq<char>, p: int, e: int) -> bool {
    exists|ps: Seq<int>| #[trigger] noise_chain(t, ps, p, e)
}

/// `ps` steps from `p` to `e` one blank or comment line at a time, and no
/// such line starts at `e`.
pub open spec fn noise_chain(t: Seq<char>, ps: Seq<int>, p: int, e: int) -> bool {
    &&& ps.len() >= 1
    &&& ps[0] == p
    &&& ps.last() == e
    &&& forall|i: int| 0 <= i < ps.len() - 1 ==> #[trigger] noise_step(t, ps, i)
    &&& forall|f: int| !#[trigger] noise_line_ok(t, e, f)
}

/// Step `i` of `ps` is one blank or comment line.
pub open spec fn noise_step(t: Seq<char>, ps: Seq<int>, i: int) -> bool {
    noise_line_ok(t, ps[i], ps[i + 1])
}

/// A line ending from a given place ends at one place.
pub proof fn lemma_line_end_unique(t: Seq<char>, p: int, a: int, b: int)
    requires
        line_end_ok(t, p, a),
        line_end_ok(t, p, b),
    ensures
        a == b,
{
}

/// A blank or comment line from a given place ends at one place.
pub proof fn lemma_noise_line_unique(t: Seq<char>, p: int, a: int, b: int)
    requires
        noise_line_ok(t, p, a),
        noise_line_ok(t, p, b),
    ensures
        a == b,
{
    let wa = choose|w: Seq<int>| #[trigger] noise_parts(t, p, a, w);
    let wb = choose|w: Seq<int>| #[trigger] noise_parts(t, p, b, w);
    lemma_spaces_unique(t, p, wa[0], wb[0]);
    lemma_comment_unique(t, wa[0], wa[1], wb[1]);
    lemma_line_end_unique(t, wa[1], a, b);
}

/// Two chains of blank or comment lines from one place agree step by step.
proof fn lemma_noise_chains_agree(t: Seq<char>, c1: Seq<int>, c2: Seq<int>, p: int, a: int, b: int, k: int)
    requires
        noise_chain(t, c1, p, a),
        noise_chain(t, c2, p, b),
        0 <= k < c1.len(),
        k < c2.len(),
    ensures
        c1[k] == c2[k],
    decreases k,
{
    if k > 0 {
        lemma_noise_chains_agree(t, c1, c2, p, a, b, k - 1);
        assert(noise_step(t, c1, k - 1));
        assert(noise_step(t, c2, k - 1));
        lemma_noise_line_unique(t, c1[k - 1], c1[k], c2[k]);
    }
}

/// A maximal run of blank or comment lines from a given place ends at one
/// place.
pub proof fn lemma_noise_unique(t: Seq<char>, p: int, a: int, b: int)
    requires
        noise_ok(t, p, a),
        noise_ok(t, p, b),
    ensures
        a == b,
{
    let c1 = choose|ps: Seq<int>| #[trigger] noise_chain(t, ps, p, a);
    let c2 = choose|ps: Seq<int>| #[trigger] noise_chain(t, ps, p, b);
    if c1.len() < c2.len() {
        let k = c1.len() - 1;
        lemma_noise_chains_agree(t, c1, c2, p, a, b, k);
        assert(noise_step(t, c2, k));
        assert(noise_line_ok(t, a, c2[k + 1]));
    } else if c2.len() < c1.len() {
        let k = c2.len() - 1;
        lemma_noise_chains_agree(t, c1, c2, p, a, b, k);
        assert(noise_step(t, c1, k));
        assert(noise_line_ok(t, b, c1[k + 1]));
    } else {
        lemma_noise_chains_agree(t, c1, c2, p, a, b, c1.len() - 1);
    }
}

/// An identifier from a given place is one word.
pub proof fn lemma_ident_unique(t: Seq<char>, p: int, e1: int, s1: Seq<char>, e2: int, s2: Seq<char>)
    requires
        ident_ok(t, p, e1, s1),
        ident_ok(t, p, e2, s2),
    ensures
        e1 == e2,
        s1 == s2,
{
    if e1 < e2 {
        assert(s2[e1 - p] == t[e1]);
    } else if e2 < e1 {
        assert(s1[e2 - p] == t[e2]);
    }
}

/// The end of a statement line from a given place is one place.
pub proof fn lemma_eol_unique(t: Seq<char>, p: int, a: int, b: int)
    requires
        eol_ok(t, p, a),
        eol_ok(t, p, b),
    ensures
        a == b,
{
    let wa = choose|w: Seq<int>| #[trigger] eol_parts(t, p, a, w);
    let wb = choose|w: Seq<int>| #[trigger] eol_parts(t, p, b, w);
    lemma_spaces_unique(t, p, wa[0], wb[0]);
    lemma_comment_unique(t, wa[0], wa[1], wb[1]);
    if wa[1] == t.len() {
    } else {
        lemma_line_end_unique(t, wa[1], a, b);
    }
}

/// A keyword and the spaces after it end at one place.
pub proof fn lemma_kw_space_unique(t: Seq<char>, p: int, k: Kw, a: int, b: int)
    requires
        kw_space_ok(t, p, k, a),
        kw_space_ok(t, p, k, b),
    ensures
        a == b,
{
    let qa = choose|q: int| #![trigger kw_ok(t, p, k, q)] kw_ok(t, p, k, q) && space1_ok(t, q, a);
    let qb = choose|q: int| #![trigger kw_ok(t, p, k, q)] kw_ok(t, p, k, q) && space1_ok(t, q, b);
    lemma_spaces_unique(t, qa, a, b);
}

/// After `e` come inline spaces and then the end, a comment, a line ending
/// or a `:` — what may follow an atom.
pub open spec fn atom_follow(t: Seq<char>, e: int) -> bool {
    exists|q: int|
        #![trigger spaces_ok(t, e, q)]
        spaces_ok(t, e, q) && (q == t.len() || t[q] == '/' || t[q] == '\n' || t[q] == '\r' || t[q] == ':')
}

/// The end of a statement line may follow an atom.
pub proof fn lemma_eol_follow(t: Seq<char>, e: int, f: int)
    requires
        eol_ok(t, e, f),
    ensures
        atom_follow(t, e),
{
    let w = choose|w: Seq<int>| #[trigger] eol_parts(t, e, f, w);
    assert(spaces_ok(t, e, w[0]));
}

/// From `p` to `i` only whitespace, and from `i` either nothing or a final
/// `//` comment with no line feed in it.
pub open spec fn tail_at(t: Seq<char>, p: int, i: int) -> bool {
    &&& 0 <= p <= i <= t.len()
    &&& forall|j: int| p <= j < i ==> white(#[trigger] t[j])
    &&& (i == t.len() || (i + 1 < t.len() && t[i] == '/' && t[i + 1] == '/' && forall|j: int|
        i <= j < t.len() ==> #[trigger] t[j] != '\n'))
}

/// Only whitespace, or whitespace then a final `//` comment with no line feed
/// after it, is left from `p`.
pub open spec fn at_end_ok(t: Seq<char>, p: int) -> bool {
    exists|i: int| #[trigger] tail_at(t, p, i)
}

/// `true` or `false`, written from `p` to `e`.
pub open spec fn bool_ok(t: Seq<char>, p: int, e: int, b: bool) -> bool {
    &&& 0 <= p < e <= t.len()
    &&& t.subrange(p, e) == if b {
        seq!['t', 'r', 'u', 'e']
    } else {
        seq!['f', 'a', 'l', 's', 'e']
    }
}

// --- atoms and literals ---------------------------------------------------------

/// An atom `[<domain>.]<subject> [<predicate> [<object>]]` from `p` to `e`;
/// `w` holds the subject's start and end, then the predicate's, then the
/// object's start.
pub open spec fn atom_parts(t: Seq<char>, p: int, a: Atom, e: int, w: Seq<int>) -> bool {
    &&& w.len() == 5
    &&& match a.domain {
        None => w[0] == p,
        Some(d) => ident_ok(t, p, w[0] - 1, d@) && t[w[0] - 1] == '.',
    }
    &&& ident_ok(t, w[0], w[1], a.subject@)
    &&& match a.predicate {
        None => a.object is None && e == w[1],
        Some(pr) => {
            &&& space1_ok(t, w[1], w[2])
            &&& ident_ok(t, w[2], w[3], pr@)
            &&& match a.object {
                None => e == w[3],
                Some(o) => space1_ok(t, w[3], w[4]) && ident_ok(t, w[4], e, o@),
            }
        },
    }
}

/// An atom is written from `p` to `e`.
pub open spec fn atom_ok(t: Seq<char>, p: int, a: Atom, e: int) -> bool {
    exists|w: Seq<int>| #[trigger] atom_parts(t, p, a, e, w)
}

/// A literal, `[NOT ]<atom>`, from `p` to `e`.
pub open spec fn literal_parts(t: Seq<char>, p: int, l: Literal, e: int, w: Seq<int>) -> bool {
    &&& w.len() == 2
    &&& if l.negated {
        kw_ok(t, p, Kw::Not, w[0]) && space1_ok(t, w[0], w[1]) && atom_ok(t, w[1], l.atom, e)
    } else {
        atom_ok(t, p, l.atom, e)
    }
}

/// A literal is written from `p` to `e`.
pub open spec fn literal_ok(t: Seq<char>, p: int, l: Literal, e: int) -> bool {
    exists|w: Seq<int>| #[trigger] literal_parts(t, p, l, e, w)
}

/// An atom on its own (possibly indented) line.
pub open spec fn atom_line_parts(t: Seq<char>, p: int, a: Atom, e: int, w: Seq<int>) -> bool {
    &&& w.len() == 2
    &&& spaces_ok(t, p, w[0])
    &&& atom_ok(t, w[0], a, w[1])
    &&& eol_ok(t, w[1], e)
}

/// An atom line from `p` to `e`.
pub open spec fn atom_line_ok(t: Seq<char>, p: int, a: Atom, e: int) -> bool {
    exists|w: Seq<int>| #[trigger] atom_line_parts(t, p, a, e, w)
}

/// An atom line starts at `p`.
pub open spec fn atom_line_ahead(t: Seq<char>, p: int) -> bool {
    exists|a: Atom, e: int| #[trigger] atom_line_ok(t, p, a, e)
}

/// `ps` steps over one atom line per atom.
pub open spec fn atom_lines(t: Seq<char>, ps: Seq<int>, atoms: Seq<Located<Atom>>) -> bool {
    &&& ps.len() == atoms.len() + 1
    &&& forall|i: int| 0 <= i < atoms.len() ==> #[trigger] atom_step(t, ps, atoms, i)
}

/// Step `i` of `ps` is the line of atom `i`.
pub open spec fn atom_step(t: Seq<char>, ps: Seq<int>, atoms: Seq<Located<Atom>>, i: int) -> bool {
    atom_line_ok(t, ps[i], atoms[i].data, ps[i + 1]) && placed_after_spaces(t, atoms[i], ps[i])
}

/// One atom line per atom, from `p` to `e`.
pub open spec fn atom_lines_ok(t: Seq<char>, p: int, atoms: Seq<Located<Atom>>, e: int) -> bool {
    exists|ps: Seq<int>| #[trigger] atom_lines(t, ps, atoms) && ps[0] == p && ps.last() == e
}

/// A name on its own (possibly indented) line.
pub open spec fn element_line_parts(t: Seq<char>, p: int, s: Seq<char>, e: int, w: Seq<int>) -> bool {
    &&& w.len() == 2
    &&& spaces_ok(t, p, w[0])
    &&& ident_ok(t, w[0], w[1], s)
    &&& eol_ok(t, w[1], e)
}

/// A name line from `p` to `e`.
pub open spec fn element_line_ok(t: Seq<char>, p: int, s: Seq<char>, e: int) -> bool {
    exists|w: Seq<int>| #[trigger] element_line_parts(t, p, s, e, w)
}

/// A name line starts at `p`.
pub open spec fn element_line_ahead(t: Seq<char>, p: int) -> bool {
    exists|n: Seq<char>, e: int| #[trigger] element_line_ok(t, p, n, e)
}

/// `ps` steps over one name line per name.
pub open spec fn element_lines(t: Seq<char>, ps: Seq<int>, names: Seq<Located<String>>) -> bool {
    &&& ps.len() == names.len() + 1
    &&& forall|i: int| 0 <= i < names.len() ==> #[trigger] element_step(t, ps, names, i)
}

/// Step `i` of `ps` is the line of name `i`.
pub open spec fn element_step(t: Seq<char>, ps: Seq<int>, names: Seq<Located<String>>, i: int) -> bool {
    element_line_ok(t, ps[i], names[i].data@, ps[i + 1]) && placed_after_spaces(t, names[i], ps[i])
}

/// One name line per name, from `p` to `e`.
pub open spec fn element_lines_ok(t: Seq<char>, p: int, names: Seq<Located<String>>, e: int) -> bool {
    exists|ps: Seq<int>| #[trigger] element_lines(t, ps, names) && ps[0] == p && ps.last() == e
}

// --- bodies ----------------------------------------------------------------------

/// The keyword of a list operator.
pub open spec fn list_kw(op: ListOp) -> Kw {
    match op {
        ListOp::Exclusive => Kw::Exclusive,
        ListOp::Forbids => Kw::Forbids,
        ListOp::OneOf => Kw::OneOf,
        ListOp::AtLeast => Kw::AtLeast,
    }
}

/// The keyword of a connective.
pub open spec fn conn_kw(c: Conn) -> Kw {
    match c {
        Conn::And => Kw::And,
        Conn::Or => Kw::Or,
    }
}

/// A list body: the operator on its own line, then at least two atom lines.
pub open spec fn list_body_parts(t: Seq<char>, p: int, b: Body, e: int, w: Seq<int>) -> bool {
    &&& w.len() == 3
    &&& b matches Body::List { op, atoms }
    &&& atoms@.len() >= 2
    &&& spaces_ok(t, p, w[0])
    &&& kw_ok(t, w[0], list_kw(op), w[1])
    &&& eol_ok(t, w[1], w[2])
    &&& atom_lines_ok(t, w[2], atoms@, e)
}

/// `EXISTS <binder> IN <set>` on its own line, then one condition atom line.
pub open spec fn exists_body_parts(t: Seq<char>, p: int, b: Body, e: int, w: Seq<int>) -> bool {
    &&& w.len() == 9
    &&& b matches Body::Exists { binder, set, atom }
    &&& spaces_ok(t, p, w[0])
    &&& kw_ok(t, w[0], Kw::Exists, w[1])
    &&& space1_ok(t, w[1], w[2])
    &&& ident_ok(t, w[2], w[3], binder.data@)
    &&& space1_ok(t, w[3], w[4])
    &&& kw_ok(t, w[4], Kw::In, w[5])
    &&& space1_ok(t, w[5], w[6])
    &&& ident_ok(t, w[6], w[7], set.data@)
    &&& eol_ok(t, w[7], w[8])
    &&& atom_line_ok(t, w[8], atom.data, e)
    &&& placed(t, binder, w[2])
    &&& placed(t, set, w[6])
    &&& placed_after_spaces(t, atom, w[8])
}

/// An `AND <literal>` or `OR <literal>` line.
pub open spec fn cont_line_parts(t: Seq<char>, p: int, c: Conn, l: Literal, e: int, w: Seq<int>) -> bool {
    &&& w.len() == 4
    &&& spaces_ok(t, p, w[0])
    &&& kw_ok(t, w[0], conn_kw(c), w[1])
    &&& space1_ok(t, w[1], w[2])
    &&& literal_ok(t, w[2], l, w[3])
    &&& eol_ok(t, w[3], e)
}

/// A continuation line from `p` to `e`.
pub open spec fn cont_line_ok(t: Seq<char>, p: int, c: Conn, l: Literal, e: int) -> bool {
    exists|w: Seq<int>| #[trigger] cont_line_parts(t, p, c, l, e, w)
}

/// `ps` steps over one continuation line per literal, all with connective `c`.
pub open spec fn cont_lines(t: Seq<char>, ps: Seq<int>, lits: Seq<Located<Literal>>, c: Conn) -> bool {
    &&& ps.len() == lits.len() + 1
    &&& forall|i: int| 0 <= i < lits.len() ==> #[trigger] cont_step(t, ps, lits, c, i)
}

/// Step `i` of `ps` is the continuation line of literal `i`.
pub open spec fn cont_step(t: Seq<char>, ps: Seq<int>, lits: Seq<Located<Literal>>, c: Conn, i: int) -> bool {
    cont_line_ok(t, ps[i], c, lits[i].data, ps[i + 1]) && cont_placed(t, ps[i], c, lits[i], ps[i + 1])
}

/// The literal of the continuation line from `p` to `e` carries the position
/// where it is written.
pub open spec fn cont_placed(t: Seq<char>, p: int, c: Conn, l: Located<Literal>, e: int) -> bool {
    exists|w: Seq<int>| #[trigger] cont_line_parts(t, p, c, l.data, e, w) && placed(t, l, w[2])
}

/// After the spaces at `p` comes `AND` or `OR`: a continuation line may start
/// there.
pub open spec fn cont_ahead(t: Seq<char>, p: int) -> bool {
    exists|q: int|
        #![trigger spaces_ok(t, p, q)]
        spaces_ok(t, p, q) && (holds_at(t, q, kw_spec(Kw::And)) || holds_at(t, q, kw_spec(Kw::Or)))
}

/// Continuation lines from `p` to `e`, all with connective `c` (`AND` when
/// there are none).
pub open spec fn cont_group_ok(t: Seq<char>, p: int, lits: Seq<Located<Literal>>, c: Conn, e: int) -> bool {
    &&& (lits.len() == 0 ==> c == Conn::And)
    &&& exists|ps: Seq<int>| #[trigger] cont_lines(t, ps, lits, c) && ps[0] == p && ps.last() == e
}

/// `WHEN <literal>` with its continuations, then `THEN <literal>` with its.
pub open spec fn impl_body_parts(t: Seq<char>, p: int, b: Body, e: int, w: Seq<int>) -> bool {
    &&& w.len() == 10
    &&& b matches Body::Impl { antecedent, ante_conn, consequent, cons_conn }
    &&& antecedent@.len() >= 1
    &&& consequent@.len() >= 1
    &&& spaces_ok(t, p, w[0])
    &&& kw_ok(t, w[0], Kw::When, w[1])
    &&& space1_ok(t, w[1], w[2])
    &&& literal_ok(t, w[2], antecedent@[0].data, w[3])
    &&& placed(t, antecedent@[0], w[2])
    &&& eol_ok(t, w[3], w[4])
    &&& cont_group_ok(t, w[4], antecedent@.drop_first(), ante_conn, w[5])
    &&& spaces_ok(t, w[5], w[6])
    &&& kw_ok(t, w[6], Kw::Then, w[7])
    &&& space1_ok(t, w[7], w[8])
    &&& literal_ok(t, w[8], consequent@[0].data, w[9])
    &&& placed(t, consequent@[0], w[8])
    &&& exists|q: int|
        #![trigger eol_ok(t, w[9], q)]
        eol_ok(t, w[9], q) && cont_group_ok(t, q, consequent@.drop_first(), cons_conn, e)
}

/// A premise or rule body from `p` to `e`.
pub open spec fn body_ok(t: Seq<char>, p: int, b: Body, e: int) -> bool {
    exists|w: Seq<int>|
        #![trigger list_body_parts(t, p, b, e, w)]
        #![trigger exists_body_parts(t, p, b, e, w)]
        #![trigger impl_body_parts(t, p, b, e, w)]
        list_body_parts(t, p, b, e, w) || exists_body_parts(t, p, b, e, w) || impl_body_parts(t, p, b, e, w)
}

/// An implication body from `p` to `e`.
pub open spec fn impl_ok(t: Seq<char>, p: int, b: Body, e: int) -> bool {
    exists|w: Seq<int>| #[trigger] impl_body_parts(t, p, b, e, w)
}

// --- headers ---------------------------------------------------------------------

/// `FOR EACH <binder> IN <set>` or `FOR EACH <a> <relation> <b>`.
pub open spec fn for_each_parts(t: Seq<char>, p: int, q: Quant, e: int, w: Seq<int>) -> bool {
    &&& w.len() == 8
    &&& kw_ok(t, p, Kw::For, w[0])
    &&& space1_ok(t, w[0], w[1])
    &&& kw_ok(t, w[1], Kw::Each, w[2])
    &&& space1_ok(t, w[2], w[3])
    &&& match q {
        Quant::InSet { binder, set } => {
            &&& ident_ok(t, w[3], w[4], binder.data@)
            &&& space1_ok(t, w[4], w[5])
            &&& kw_ok(t, w[5], Kw::In, w[6])
            &&& space1_ok(t, w[6], w[7])
            &&& ident_ok(t, w[7], e, set.data@)
            &&& placed(t, binder, w[3])
            &&& placed(t, set, w[7])
        },
        Quant::Relation { left, predicate, right } => {
            &&& ident_ok(t, w[3], w[4], left.data@)
            &&& space1_ok(t, w[4], w[5])
            &&& ident_ok(t, w[5], w[6], predicate.data@)
            &&& space1_ok(t, w[6], w[7])
            &&& ident_ok(t, w[7], e, right.data@)
            &&& placed(t, left, w[3])
            &&& placed(t, predicate, w[5])
            &&& placed(t, right, w[7])
        },
    }
}

/// A quantifier from `p` to `e`.
pub open spec fn for_each_ok(t: Seq<char>, p: int, q: Quant, e: int) -> bool {
    exists|w: Seq<int>| #[trigger] for_each_parts(t, p, q, e, w)
}

/// `<name> [FOR EACH …]:` to the end of its line.
pub open spec fn header_parts(t: Seq<char>, p: int, name: Seq<char>, quant: Option<Quant>, e: int, w: Seq<int>) -> bool {
    &&& w.len() == 4
    &&& ident_ok(t, p, w[0], name)
    &&& match quant {
        None => w[1] == w[0],
        Some(q) => exists|s: int| #![trigger space1_ok(t, w[0], s)] space1_ok(t, w[0], s) && for_each_ok(t, s, q, w[1]),
    }
    &&& spaces_ok(t, w[1], w[2])
    &&& 0 <= w[2] < t.len() && t[w[2]] == ':' && w[3] == w[2] + 1
    &&& eol_ok(t, w[3], e)
}

/// A premise or rule header from `p` to `e`.
pub open spec fn header_ok(t: Seq<char>, p: int, name: Seq<char>, quant: Option<Quant>, e: int) -> bool {
    exists|w: Seq<int>| #[trigger] header_parts(t, p, name, quant, e, w)
}

// --- statements ------------------------------------------------------------------

/// Keyword `k`, then at least one space, from `p` to `e`.
pub open spec fn kw_space_ok(t: Seq<char>, p: int, k: Kw, e: int) -> bool {
    exists|q: int| #![trigger kw_ok(t, p, k, q)] kw_ok(t, p, k, q) && space1_ok(t, q, e)
}

/// The keyword of a closure kind.
pub open spec fn close_kw(k: CloseKind) -> Kw {
    match k {
        CloseKind::Transitive => Kw::Transitive,
        CloseKind::Symmetric => Kw::Symmetric,
        CloseKind::Reflexive => Kw::Reflexive,
        CloseKind::Equivalence => Kw::Equivalence,
        CloseKind::Scc => Kw::Scc,
    }
}

/// A statement written (after its indentation) from `p` to `e`; `w` holds
/// the positions between its parts.
pub open spec fn stmt_parts(t: Seq<char>, p: int, st: Statement, e: int, w: Seq<int>) -> bool {
    &&& w.len() == 8
    &&& match st {
        Statement::Domain(name) => {
            &&& kw_space_ok(t, p, Kw::Domain, w[0])
            &&& ident_ok(t, w[0], w[1], name.data@)
            &&& placed(t, name, w[0])
            &&& eol_ok(t, w[1], e)
        },
        Statement::Import { path, alias } => {
            &&& kw_space_ok(t, p, Kw::Import, w[0])
            &&& 0 <= w[0] && w[0] < w[1] < t.len() && t[w[0]] == '"' && t[w[1]] == '"'
            &&& forall|i: int| w[0] < i < w[1] ==> #[trigger] t[i] != '"' && t[i] != '\n'
            &&& path.data@ == t.subrange(w[0] + 1, w[1])
            &&& placed(t, path, w[0])
            &&& match alias {
                None => eol_ok(t, w[1] + 1, e),
                Some(a) => {
                    &&& space1_ok(t, w[1] + 1, w[2])
                    &&& kw_space_ok(t, w[2], Kw::As, w[3])
                    &&& ident_ok(t, w[3], w[4], a.data@)
                    &&& placed(t, a, w[3])
                    &&& eol_ok(t, w[4], e)
                },
            }
        },
        Statement::SetDecl { name, elements } => {
            &&& kw_space_ok(t, p, Kw::SetDef, w[0])
            &&& ident_ok(t, w[0], w[1], name.data@)
            &&& placed(t, name, w[0])
            &&& eol_ok(t, w[1], w[2])
            &&& elements@.len() >= 1
            &&& element_lines_ok(t, w[2], elements@, e)
        },
        Statement::Close { relation, kind } => {
            &&& kw_space_ok(t, p, Kw::Close, w[0])
            &&& ident_ok(t, w[0], w[1], relation.data@)
            &&& placed(t, relation, w[0])
            &&& space1_ok(t, w[1], w[2])
            &&& kw_ok(t, w[2], close_kw(kind), w[3])
            &&& eol_ok(t, w[3], e)
        },
        Statement::Var { name, default } => {
            &&& kw_space_ok(t, p, Kw::Var, w[0])
            &&& ident_ok(t, w[0], w[1], name.data@)
            &&& placed(t, name, w[0])
            &&& match default {
                None => eol_ok(t, w[1], e),
                Some(b) => {
                    &&& space1_ok(t, w[1], w[2])
                    &&& kw_space_ok(t, w[2], Kw::Default, w[3])
                    &&& bool_ok(t, w[3], w[4], b)
                    &&& eol_ok(t, w[4], e)
                },
            }
        },
        Statement::Provide { atom, value } => {
            &&& kw_space_ok(t, p, Kw::Provide, w[0])
            &&& atom_ok(t, w[0], atom.data, w[1])
            &&& placed(t, atom, w[0])
            &&& spaces_ok(t, w[1], w[2])
            &&& 0 <= w[2] < t.len() && t[w[2]] == ':'
            &&& spaces_ok(t, w[2] + 1, w[3])
            &&& bool_ok(t, w[3], w[4], value)
            &&& eol_ok(t, w[4], e)
        },
        Statement::Fact(a) => {
            &&& kw_space_ok(t, p, Kw::Fact, w[0])
            &&& atom_ok(t, w[0], a.data, w[1])
            &&& placed(t, a, w[0])
            &&& a.data.predicate is Some
            &&& eol_ok(t, w[1], e)
        },
        Statement::Negation(a) => {
            &&& kw_space_ok(t, p, Kw::Not, w[0])
            &&& atom_ok(t, w[0], a.data, w[1])
            &&& placed(t, a, w[0])
            &&& a.data.predicate is Some
            &&& eol_ok(t, w[1], e)
        },
        Statement::Assume(l) => {
            &&& kw_space_ok(t, p, Kw::Assume, w[0])
            &&& literal_ok(t, w[0], l.data, w[1])
            &&& placed(t, l, w[0])
            &&& eol_ok(t, w[1], e)
        },
        Statement::Check { subject, bidirectional } => {
            &&& kw_ok(t, p, Kw::Check, w[0])
            &&& match subject {
                None => w[2] == w[0],
                Some(s) => space1_ok(t, w[0], w[1]) && ident_ok(t, w[1], w[2], s.data@) && placed(t, s, w[1]),
            }
            &&& if bidirectional {
                space1_ok(t, w[2], w[3]) && kw_ok(t, w[3], Kw::Bidirectional, w[4])
            } else {
                w[4] == w[2]
            }
            &&& eol_ok(t, w[4], e)
        },
        Statement::Premise { name, quant, body } => {
            &&& kw_space_ok(t, p, Kw::Premise, w[0])
            &&& header_ok(t, w[0], name.data@, quant, w[1])
            &&& placed(t, name, w[0])
            &&& body_ok(t, w[1], body, e)
        },
        Statement::Rule { name, quant, body } => {
            &&& kw_space_ok(t, p, Kw::Rule, w[0])
            &&& header_ok(t, w[0], name.data@, quant, w[1])
            &&& placed(t, name, w[0])
            &&& impl_ok(t, w[1], body, e)
        },
    }
}

/// Where a block statement may end: no continuation, atom or name line
/// starts at `e`.
pub open spec fn block_end(t: Seq<char>, e: int) -> bool {
    !cont_ahead(t, e) && !atom_line_ahead(t, e) && !element_line_ahead(t, e)
}

/// Every blank character of the text is ASCII.
pub open spec fn plain_blanks(t: Seq<char>) -> bool {
    forall|i: int| 0 <= i < t.len() && white(#[trigger] t[i]) ==> (t[i] as int) < 128
}

/// A statement written on a single line (every kind but `SET`, `PREMISE` and
/// `RULE`).
pub open spec fn one_line(st: Statement) -> bool {
    !(st is SetDecl || st is Premise || st is Rule)
}

/// Every statement is written on a single line.
pub open spec fn all_one_line(stmts: Seq<Statement>) -> bool {
    forall|i: int| 0 <= i < stmts.len() ==> one_line(#[trigger] stmts[i])
}

/// The program `stmts` is one the parser reads back whatever its layout: its
/// statements each fit on a line, or the text's blanks are all ASCII.
pub open spec fn readable(t: Seq<char>, stmts: Seq<Statement>) -> bool {
    all_one_line(stmts) || plain_blanks(t)
}

/// The keyword a statement begins with.
pub open spec fn lead_kw(st: Statement) -> Kw {
    match st {
        Statement::Domain(_) => Kw::Domain,
        Statement::Import { .. } => Kw::Import,
        Statement::Fact(_) => Kw::Fact,
        Statement::Negation(_) => Kw::Not,
        Statement::Assume(_) => Kw::Assume,
        Statement::SetDecl { .. } => Kw::SetDef,
        Statement::Close { .. } => Kw::Close,
        Statement::Var { .. } => Kw::Var,
        Statement::Provide { .. } => Kw::Provide,
        Statement::Premise { .. } => Kw::Premise,
        Statement::Rule { .. } => Kw::Rule,
        Statement::Check { .. } => Kw::Check,
    }
}

/// A statement, after its indentation, from `p` to `e`.
pub open spec fn stmt_written(t: Seq<char>, p: int, st: Statement, e: int) -> bool {
    exists|w: Seq<int>| #[trigger] stmt_parts(t, p, st, e, w)
}

/// A statement line, indentation included, from `p` to `e`.
pub open spec fn statement_ok(t: Seq<char>, p: int, st: Statement, e: int) -> bool {
    exists|q: int| #![trigger spaces_ok(t, p, q)] spaces_ok(t, p, q) && stmt_written(t, q, st, e)
}

// --- programs --------------------------------------------------------------------

/// `ps` alternates blank/comment runs and statements: the `i`-th statement
/// starts at `ps[2i + 1]`, after the run from `ps[2i]`, and ends at
/// `ps[2i + 2]`; the last run reaches an ignorable tail.
pub open spec fn program_chain(t: Seq<char>, ps: Seq<int>, stmts: Seq<Statement>) -> bool {
    &&& ps.len() == 2 * stmts.len() + 2
    &&& ps[0] == 0
    &&& forall|i: int| 0 <= i < stmts.len() ==> #[trigger] program_step(t, ps, stmts, i)
    &&& noise_ok(t, ps[2 * stmts.len() as int], ps[2 * stmts.len() as int + 1])
    &&& at_end_ok(t, ps[2 * stmts.len() as int + 1])
}

/// Statement `i` follows its blank/comment run.
pub open spec fn program_step(t: Seq<char>, ps: Seq<int>, stmts: Seq<Statement>, i: int) -> bool {
    noise_ok(t, ps[2 * i], ps[2 * i + 1]) && statement_ok(t, ps[2 * i + 1], stmts[i], ps[2 * i + 2])
}

/// The text from its start is a run of well-formed statements `stmts`, each
/// after its noise, and then noise up to `ps.last()`.
pub open spec fn prefix_chain(t: Seq<char>, ps: Seq<int>, stmts: Seq<Statement>) -> bool {
    &&& ps.len() == 2 * stmts.len() + 2
    &&& ps[0] == 0
    &&& forall|i: int| 0 <= i < stmts.len() ==> #[trigger] program_step(t, ps, stmts, i)
    &&& noise_ok(t, ps[2 * stmts.len() as int], ps[2 * stmts.len() as int + 1])
}

/// The text breaks at `q`: it reads as statements up to `q`, and no
/// statement that may end where it would end is written at `q`.
pub open spec fn breaks_at(t: Seq<char>, q: int) -> bool {
    &&& exists|ps: Seq<int>, stmts: Seq<Statement>| #[trigger] prefix_chain(t, ps, stmts) && ps.last() == q
    &&& forall|st: Statement, e: int| #[trigger] statement_ok(t, q, st, e) ==> !(one_line(st) || block_end(t, e))
}

/// The text is exactly these statements, in order, with blank and comment
/// lines between them and an ignorable tail.
pub open spec fn program_ok(t: Seq<char>, stmts: Seq<Statement>) -> bool {
    exists|ps: Seq<int>| #[trigger] program_chain(t, ps, stmts)
}

} // verus!
