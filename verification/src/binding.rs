//! The import graph once every source is known: each file's domain context
//! (its own domain plus one binding per `IMPORT`), the alias clashes, and the
//! advisory list of imports a file never references.
use vstd::prelude::*;
use vstd::relations::{sorted_by, total_ordering};
use crate::error::CompileError;
use crate::ir::{KeyV, UnusedImport, copy_opt, key_lt, lemma_key_lt, opt_view, compare_strings};
use crate::lower::DomainCtx;
use crate::text::{Order, str_eq};

verus! {

/// One `IMPORT` of a source: its optional alias, the index of the source it
/// reaches, and its line.
pub struct ImportEdge {
    /// The local alias, if `AS <alias>` was given.
    pub alias: Option<String>,
    /// Index of the imported source among the graph's nodes.
    pub child: usize,
    /// 1-based line of the `IMPORT`.
    pub line: u32,
}

/// One distinct source of the import graph.
pub struct SourceNode {
    /// The path it was first reached by.
    pub path: String,
    /// Its text.
    pub content: String,
    /// Its declared `DOMAIN`.
    pub domain: String,
    /// Its `IMPORT`s, in source order.
    pub edges: Vec<ImportEdge>,
    /// The domain prefixes its atoms are written with (`None`: no prefix).
    pub used: Vec<Option<String>>,
}

/// One source ready to compile: where it came from, its text, and the domain
/// context its atoms resolve in.
pub struct ResolvedFile {
    /// Provenance path.
    pub path: String,
    /// Source text.
    pub content: String,
    /// Own domain and import bindings.
    pub ctx: DomainCtx,
}

/// Every edge points at a node and every listed index is a node.
pub open spec fn graph_closed(nodes: Seq<SourceNode>, order: Seq<usize>) -> bool {
    &&& forall|i: int, j: int|
        0 <= i < nodes.len() && 0 <= j < nodes[i].edges@.len() ==> (#[trigger] nodes[i].edges@[j]).child
            < nodes.len()
    &&& forall|k: int| 0 <= k < order.len() ==> (#[trigger] order[k]) < nodes.len()
}

/// Binding pairs as character sequences.
pub open spec fn pair_views(v: Seq<(String, String)>) -> Seq<(Seq<char>, Seq<char>)> {
    v.map_values(|p: (String, String)| (p.0@, p.1@))
}

/// The first binding of `name`.
pub open spec fn lookup_v(al: Seq<(Seq<char>, Seq<char>)>, name: Seq<char>) -> Option<Seq<char>>
    decreases al.len(),
{
    if al.len() == 0 {
        None
    } else if al[0].0 == name {
        Some(al[0].1)
    } else {
        lookup_v(al.drop_first(), name)
    }
}

/// The domain an edge reaches.
pub open spec fn child_domain(nodes: Seq<SourceNode>, e: ImportEdge) -> Seq<char> {
    nodes[e.child as int].domain@
}

/// The local name an edge binds: its alias, else the reached domain.
pub open spec fn bound_name(nodes: Seq<SourceNode>, e: ImportEdge) -> Seq<char> {
    match opt_view(e.alias) {
        Some(a) => a,
        None => child_domain(nodes, e),
    }
}

/// The bindings of a file with domain `own` after its `edges`: its own domain
/// bound to itself, then one binding per edge; `Err(name)` when a name would
/// be bound to two different domains.
pub open spec fn bind_edges(nodes: Seq<SourceNode>, own: Seq<char>, edges: Seq<ImportEdge>) -> Result<
    Seq<(Seq<char>, Seq<char>)>,
    Seq<char>,
>
    decreases edges.len(),
{
    if edges.len() == 0 {
        Ok(seq![(own, own)])
    } else {
        match bind_edges(nodes, own, edges.drop_last()) {
            Err(a) => Err(a),
            Ok(al) => {
                let b = bound_name(nodes, edges.last());
                let d = child_domain(nodes, edges.last());
                match lookup_v(al, b) {
                    Some(x) => if x == d {
                        Ok(al)
                    } else {
                        Err(b)
                    },
                    None => Ok(al.push((b, d))),
                }
            },
        }
    }
}

/// Whether a file whose atoms carry the prefixes `used` references domain `d`.
pub open spec fn referenced(own: Seq<char>, al: Seq<(Seq<char>, Seq<char>)>, used: Seq<Option<String>>, d: Seq<char>) -> bool {
    exists|i: int|
        0 <= i < used.len() && match #[trigger] used[i] {
            None => d == own,
            Some(n) => lookup_v(al, n@) == Some(d),
        }
}

/// An unused-import record as plain values: file, domain, alias, line.
pub type UnusedV = (Seq<char>, Seq<char>, Option<Seq<char>>, u32);

/// The plain values of a record.
pub open spec fn unused_v(u: UnusedImport) -> UnusedV {
    (u.file@, u.domain@, opt_view(u.alias), u.line)
}

/// The plain values of a list of records.
pub open spec fn unused_views(v: Seq<UnusedImport>) -> Seq<UnusedV> {
    v.map_values(|u: UnusedImport| unused_v(u))
}

/// The imports among `edges` of node `n` whose domain `n` never references.
pub open spec fn unused_of(nodes: Seq<SourceNode>, n: SourceNode, al: Seq<(Seq<char>, Seq<char>)>, edges: Seq<ImportEdge>) -> Seq<UnusedV>
    decreases edges.len(),
{
    if edges.len() == 0 {
        Seq::empty()
    } else {
        let e = edges.last();
        let d = child_domain(nodes, e);
        unused_of(nodes, n, al, edges.drop_last()) + if referenced(n.domain@, al, n.used@, d) {
            Seq::<UnusedV>::empty()
        } else {
            seq![(n.path@, d, opt_view(e.alias), e.line)]
        }
    }
}

/// The bindings of each listed source, and the unused imports in listing
/// order; `Err(name)` for the first alias clash.
pub open spec fn contexts_spec(nodes: Seq<SourceNode>, order: Seq<usize>) -> Result<
    (Seq<Seq<(Seq<char>, Seq<char>)>>, Seq<UnusedV>),
    Seq<char>,
>
    decreases order.len(),
{
    if order.len() == 0 {
        Ok((Seq::empty(), Seq::empty()))
    } else {
        match contexts_spec(nodes, order.drop_last()) {
            Err(a) => Err(a),
            Ok((als, un)) => {
                let n = nodes[order.last() as int];
                match bind_edges(nodes, n.domain@, n.edges@) {
                    Err(a) => Err(a),
                    Ok(al) => Ok((als.push(al), un + unused_of(nodes, n, al, n.edges@))),
                }
            },
        }
    }
}

// --- the order of unused-import records ---------------------------------------

/// The order of records: by file, domain, alias (absent first), then line.
pub open spec fn unused_lt(a: UnusedV, b: UnusedV) -> bool {
    let ka = KeyV { domain: a.0, subject: a.1, predicate: a.2, object: None };
    let kb = KeyV { domain: b.0, subject: b.1, predicate: b.2, object: None };
    key_lt(ka, kb) || (ka == kb && a.3 < b.3)
}

/// The non-strict order on records.
pub open spec fn unused_le() -> spec_fn(UnusedV, UnusedV) -> bool {
    |a: UnusedV, b: UnusedV| a == b || unused_lt(a, b)
}

proof fn lemma_unused_lt(a: UnusedV, b: UnusedV, c: UnusedV)
    ensures
        !unused_lt(a, a),
        a != b ==> (unused_lt(a, b) || unused_lt(b, a)),
        !(unused_lt(a, b) && unused_lt(b, a)),
        unused_lt(a, b) && unused_lt(b, c) ==> unused_lt(a, c),
{
    let ka = KeyV { domain: a.0, subject: a.1, predicate: a.2, object: None };
    let kb = KeyV { domain: b.0, subject: b.1, predicate: b.2, object: None };
    let kc = KeyV { domain: c.0, subject: c.1, predicate: c.2, object: None };
    lemma_key_lt(ka, kb, kc);
    lemma_key_lt(kb, kc, ka);
    lemma_key_lt(kc, ka, kb);
    lemma_key_lt(ka, kc, kb);
}

/// The record order is total.
pub proof fn lemma_unused_le_total()
    ensures
        total_ordering(unused_le()),
{
    assert forall|x: UnusedV, y: UnusedV| #[trigger] unused_le()(x, y) && #[trigger] unused_le()(y, x) implies x
        == y by {
        lemma_unused_lt(x, y, y);
    }
    assert forall|x: UnusedV, y: UnusedV, z: UnusedV| #[trigger] unused_le()(x, y) && #[trigger] unused_le()(
        y,
        z,
    ) implies unused_le()(x, z) by {
        lemma_unused_lt(x, y, z);
    }
    assert forall|x: UnusedV, y: UnusedV| #[trigger] unused_le()(x, y) || #[trigger] unused_le()(y, x) by {
        lemma_unused_lt(x, y, y);
    }
}

fn compare_opt_strings(a: &Option<String>, b: &Option<String>) -> (r: Order)
    ensures
        r == (if opt_view(*a) == opt_view(*b) {
            Order::Equal
        } else if crate::ir::opt_lt(opt_view(*a), opt_view(*b)) {
            Order::Less
        } else {
            Order::Greater
        }),
{
    match (a, b) {
        (None, None) => Order::Equal,
        (None, Some(_)) => Order::Less,
        (Some(_), None) => Order::Greater,
        (Some(x), Some(y)) => {
            let r = compare_strings(x, y);
            proof {
                crate::text::lemma_seq_lt_total(x@, y@);
            }
            r
        },
    }
}

/// Whether record `a` orders strictly after record `b`.
fn unused_after(a: &UnusedImport, b: &UnusedImport) -> (r: bool)
    ensures
        r == unused_lt(unused_v(*b), unused_v(*a)),
{
    proof {
        lemma_unused_lt(unused_v(*a), unused_v(*b), unused_v(*b));
        crate::text::lemma_seq_lt_total(a.file@, b.file@);
        crate::text::lemma_seq_lt_total(a.domain@, b.domain@);
    }
    match compare_strings(&a.file, &b.file) {
        Order::Less => false,
        Order::Greater => true,
        Order::Equal => match compare_strings(&a.domain, &b.domain) {
            Order::Less => false,
            Order::Greater => true,
            Order::Equal => match compare_opt_strings(&a.alias, &b.alias) {
                Order::Less => false,
                Order::Greater => true,
                Order::Equal => a.line > b.line,
            },
        },
    }
}

/// The records in sorted order (the unique sorted arrangement of the same
/// multiset).
pub fn sort_unused(v: Vec<UnusedImport>) -> (r: Vec<UnusedImport>)
    ensures
        unused_views(r@) == unused_views(v@).sort_by(unused_le()),
        unused_views(r@).to_multiset() == unused_views(v@).to_multiset(),
        sorted_by(unused_views(r@), unused_le()),
{
    let mut r: Vec<UnusedImport> = Vec::new();
    let mut i: usize = 0;
    proof {
        assert(unused_views(r@) =~= unused_views(v@).subrange(0, 0));
    }
    while i < v.len()
        invariant
            i <= v@.len(),
            sorted_by(unused_views(r@), unused_le()),
            unused_views(r@).to_multiset() == unused_views(v@).subrange(0, i as int).to_multiset(),
        decreases v@.len() - i,
    {
        let x = &v[i];
        let ghost xv = unused_v(*x);
        // bisection: every entry before `lo` is <= x, every entry from `hi` on is > x
        let mut lo: usize = 0;
        let mut hi: usize = r.len();
        while lo < hi
            invariant
                lo <= hi <= r@.len(),
                sorted_by(unused_views(r@), unused_le()),
                xv == unused_v(*x),
                forall|k: int| 0 <= k < lo ==> #[trigger] unused_le()(unused_views(r@)[k], xv),
                forall|k: int| hi <= k < r@.len() ==> unused_lt(xv, #[trigger] unused_views(r@)[k]),
            decreases hi - lo,
        {
            let mid = lo + (hi - lo) / 2;
            if unused_after(&r[mid], x) {
                proof {
                    assert forall|k: int| mid <= k < r@.len() implies unused_lt(
                        xv,
                        #[trigger] unused_views(r@)[k],
                    ) by {
                        if k > mid {
                            assert(unused_le()(unused_views(r@)[mid as int], unused_views(r@)[k]));
                            lemma_unused_lt(xv, unused_views(r@)[mid as int], unused_views(r@)[k]);
                        }
                    }
                }
                hi = mid;
            } else {
                proof {
                    lemma_unused_lt(unused_views(r@)[mid as int], xv, xv);
                    assert forall|k: int| 0 <= k < mid + 1 implies #[trigger] unused_le()(
                        unused_views(r@)[k],
                        xv,
                    ) by {
                        if k < mid {
                            assert(unused_le()(unused_views(r@)[k], unused_views(r@)[mid as int]));
                            lemma_unused_lt(unused_views(r@)[k], unused_views(r@)[mid as int], xv);
                        }
                    }
                }
                lo = mid + 1;
            }
        }
        let p = lo;
        let ghost old_r = unused_views(r@);
        let item = UnusedImport { file: x.file.clone(), domain: x.domain.clone(), alias: copy_opt(&x.alias), line: x.line };
        r.insert(p, item);
        proof {
            let nr = unused_views(r@);
            assert(nr =~= old_r.subrange(0, p as int).push(xv) + old_r.subrange(p as int, old_r.len() as int));
            assert forall|a: int, b: int| 0 <= a < b < nr.len() implies #[trigger] unused_le()(nr[a], nr[b]) by {
                if b < p {
                    assert(unused_le()(old_r[a], old_r[b]));
                } else if a > p {
                    assert(unused_le()(old_r[a - 1], old_r[b - 1]));
                } else if a == p {
                    assert(nr[b] == old_r[b - 1]);
                } else if b == p {
                    assert(nr[a] == old_r[a]);
                } else {
                    assert(nr[a] == old_r[a] && nr[b] == old_r[b - 1]);
                    assert(unused_le()(old_r[a], xv));
                    assert(unused_lt(xv, old_r[b - 1]));
                    lemma_unused_lt(old_r[a], xv, old_r[b - 1]);
                }
            }
            vstd::seq_lib::lemma_multiset_commutative(old_r.subrange(0, p as int).push(xv), old_r.subrange(p as int, old_r.len() as int));
            vstd::seq_lib::lemma_multiset_commutative(old_r.subrange(0, p as int), old_r.subrange(p as int, old_r.len() as int));
            assert(old_r =~= old_r.subrange(0, p as int) + old_r.subrange(p as int, old_r.len() as int));
            let pre = unused_views(v@).subrange(0, i as int);
            assert(unused_views(v@).subrange(0, i + 1) =~= pre.push(xv));
            assert(old_r.subrange(0, p as int).push(xv).to_multiset() =~= old_r.subrange(0, p as int).to_multiset().insert(xv)) by {
                broadcast use vstd::seq_lib::group_to_multiset_ensures;
            }
            assert(pre.push(xv).to_multiset() =~= pre.to_multiset().insert(xv)) by {
                broadcast use vstd::seq_lib::group_to_multiset_ensures;
            }
            assert(nr.to_multiset() =~= unused_views(v@).subrange(0, i + 1).to_multiset());
        }
        i = i + 1;
    }
    proof {
        assert(unused_views(v@).subrange(0, v@.len() as int) =~= unused_views(v@));
        lemma_unused_le_total();
        unused_views(v@).lemma_sort_by_ensures(unused_le());
        vstd::seq_lib::lemma_sorted_unique(unused_views(r@), unused_views(v@).sort_by(unused_le()), unused_le());
    }
    r
}

/// A clash among the first `j` edges is the clash of all of them.
proof fn lemma_bind_err(nodes: Seq<SourceNode>, own: Seq<char>, edges: Seq<ImportEdge>, j: int)
    requires
        0 <= j <= edges.len(),
        bind_edges(nodes, own, edges.subrange(0, j)) is Err,
    ensures
        bind_edges(nodes, own, edges) == bind_edges(nodes, own, edges.subrange(0, j)),
    decreases edges.len() - j,
{
    if j < edges.len() {
        let t = edges.subrange(0, j + 1);
        assert(t.drop_last() =~= edges.subrange(0, j));
        lemma_bind_err(nodes, own, edges, j + 1);
    } else {
        assert(edges.subrange(0, j) =~= edges);
    }
}

/// A clash among the first `k` listed sources is the overall clash.
proof fn lemma_contexts_err(nodes: Seq<SourceNode>, order: Seq<usize>, k: int)
    requires
        0 <= k <= order.len(),
        contexts_spec(nodes, order.subrange(0, k)) is Err,
    ensures
        contexts_spec(nodes, order) == contexts_spec(nodes, order.subrange(0, k)),
    decreases order.len() - k,
{
    if k < order.len() {
        let t = order.subrange(0, k + 1);
        assert(t.drop_last() =~= order.subrange(0, k));
        lemma_contexts_err(nodes, order, k + 1);
    } else {
        assert(order.subrange(0, k) =~= order);
    }
}

// --- binding ------------------------------------------------------------------

/// The position of the first binding of `name`, if any.
fn find_binding(al: &Vec<(String, String)>, name: &String) -> (r: Option<usize>)
    ensures
        match r {
            Some(i) => i < al@.len() && lookup_v(pair_views(al@), name@) == Some(al@[i as int].1@),
            None => lookup_v(pair_views(al@), name@) is None,
        },
{
    let ghost pv = pair_views(al@);
    let mut i: usize = 0;
    proof {
        assert(pv.subrange(0, pv.len() as int) =~= pv);
    }
    while i < al.len()
        invariant
            pv == pair_views(al@),
            i <= al@.len(),
            lookup_v(pv, name@) == lookup_v(pv.subrange(i as int, pv.len() as int), name@),
        decreases al@.len() - i,
    {
        let ghost rest = pv.subrange(i as int, pv.len() as int);
        proof {
            assert(rest.drop_first() =~= pv.subrange(i + 1, pv.len() as int));
            assert(rest[0] == (al@[i as int].0@, al@[i as int].1@));
        }
        if str_eq(al[i].0.as_str(), name.as_str()) {
            return Some(i);
        }
        i = i + 1;
    }
    None
}

/// Whether the prefixes `used` reference domain `d`, given the bindings `al`.
fn is_referenced(al: &Vec<(String, String)>, own: &String, used: &Vec<Option<String>>, d: &String) -> (r: bool)
    ensures
        r == referenced(own@, pair_views(al@), used@, d@),
{
    let mut i: usize = 0;
    while i < used.len()
        invariant
            i <= used@.len(),
            forall|k: int|
                0 <= k < i ==> !match #[trigger] used@[k] {
                    None => d@ == own@,
                    Some(n) => lookup_v(pair_views(al@), n@) == Some(d@),
                },
        decreases used@.len() - i,
    {
        let hit = match &used[i] {
            None => str_eq(d.as_str(), own.as_str()),
            Some(n) => match find_binding(al, n) {
                Some(j) => str_eq(al[j].1.as_str(), d.as_str()),
                None => false,
            },
        };
        if hit {
            return true;
        }
        i = i + 1;
    }
    false
}

/// The domain context of one source: its own domain, then one binding per
/// `IMPORT`; a name bound to two different domains is a `DomainAliasClash`.
fn bind_file(nodes: &Vec<SourceNode>, n: &SourceNode) -> (r: Result<DomainCtx, CompileError>)
    requires
        forall|j: int| 0 <= j < n.edges@.len() ==> (#[trigger] n.edges@[j]).child < nodes@.len(),
    ensures
        match bind_edges(nodes@, n.domain@, n.edges@) {
            Ok(al) => r matches Ok(ctx) && ctx.current@ == n.domain@ && pair_views(ctx.aliases@) == al,
            Err(a) => r matches Err(CompileError::DomainAliasClash { alias }) && alias@ == a,
        },
{
    let mut aliases: Vec<(String, String)> = Vec::new();
    aliases.push((n.domain.clone(), n.domain.clone()));
    let mut j: usize = 0;
    proof {
        assert(n.edges@.subrange(0, 0) =~= Seq::<ImportEdge>::empty());
        assert(pair_views(aliases@) =~= seq![(n.domain@, n.domain@)]);
    }
    while j < n.edges.len()
        invariant
            forall|k: int| 0 <= k < n.edges@.len() ==> (#[trigger] n.edges@[k]).child < nodes@.len(),
            j <= n.edges@.len(),
            bind_edges(nodes@, n.domain@, n.edges@.subrange(0, j as int)) == Ok::<
                Seq<(Seq<char>, Seq<char>)>,
                Seq<char>,
            >(pair_views(aliases@)),
        decreases n.edges@.len() - j,
    {
        let e = &n.edges[j];
        let d = &nodes[e.child].domain;
        let b: String = match &e.alias {
            Some(a) => a.clone(),
            None => d.clone(),
        };
        proof {
            let t = n.edges@.subrange(0, j + 1);
            assert(t.drop_last() =~= n.edges@.subrange(0, j as int));
            assert(t.last() == n.edges@[j as int]);
        }
        match find_binding(&aliases, &b) {
            Some(x) => {
                if !str_eq(aliases[x].1.as_str(), d.as_str()) {
                    proof {
                        assert(bind_edges(nodes@, n.domain@, n.edges@.subrange(0, j + 1)) == Err::<
                            Seq<(Seq<char>, Seq<char>)>,
                            Seq<char>,
                        >(b@));
                        lemma_bind_err(nodes@, n.domain@, n.edges@, j + 1);
                    }
                    return Err(CompileError::DomainAliasClash { alias: b });
                }
            },
            None => {
                let ghost a0 = pair_views(aliases@);
                aliases.push((b, d.clone()));
                proof {
                    assert(pair_views(aliases@) =~= a0.push((b@, d@)));
                }
            },
        }
        j = j + 1;
    }
    proof {
        assert(n.edges@.subrange(0, n.edges@.len() as int) =~= n.edges@);
    }
    Ok(DomainCtx { current: n.domain.clone(), aliases })
}

/// The unused imports of one source, given its bindings, appended to `out`.
fn push_unused(nodes: &Vec<SourceNode>, n: &SourceNode, al: &Vec<(String, String)>, out: &mut Vec<UnusedImport>)
    requires
        forall|j: int| 0 <= j < n.edges@.len() ==> (#[trigger] n.edges@[j]).child < nodes@.len(),
    ensures
        unused_views(final(out)@) == unused_views(old(out)@) + unused_of(nodes@, *n, pair_views(al@), n.edges@),
{
    let ghost base = unused_views(out@);
    let mut j: usize = 0;
    proof {
        assert(unused_views(out@) =~= base + unused_of(nodes@, *n, pair_views(al@), n.edges@.subrange(0, 0)));
    }
    while j < n.edges.len()
        invariant
            forall|k: int| 0 <= k < n.edges@.len() ==> (#[trigger] n.edges@[k]).child < nodes@.len(),
            j <= n.edges@.len(),
            unused_views(out@) == base + unused_of(nodes@, *n, pair_views(al@), n.edges@.subrange(0, j as int)),
        decreases n.edges@.len() - j,
    {
        let e = &n.edges[j];
        let d = &nodes[e.child].domain;
        let ghost before = unused_views(out@);
        proof {
            let t = n.edges@.subrange(0, j + 1);
            assert(t.drop_last() =~= n.edges@.subrange(0, j as int));
            assert(t.last() == n.edges@[j as int]);
        }
        if !is_referenced(al, &n.domain, &n.used, d) {
            out.push(UnusedImport { file: n.path.clone(), domain: d.clone(), alias: copy_opt(&e.alias), line: e.line });
            proof {
                assert(unused_views(out@) =~= before.push((n.path@, d@, opt_view(e.alias), e.line)));
            }
        } else {
            proof {
                assert(unused_views(out@) =~= before + Seq::<UnusedV>::empty());
            }
        }
        proof {
            assert(unused_views(out@) =~= base + unused_of(nodes@, *n, pair_views(al@), n.edges@.subrange(0, j + 1)));
        }
        j = j + 1;
    }
    proof {
        assert(n.edges@.subrange(0, n.edges@.len() as int) =~= n.edges@);
    }
}

/// Every listed source with its domain context, in listing order, and the
/// unused imports in sorted order; the first alias clash in listing order is
/// a `DomainAliasClash`.
pub fn bind_contexts(nodes: &Vec<SourceNode>, order: &Vec<usize>) -> (r: Result<
    (Vec<ResolvedFile>, Vec<UnusedImport>),
    CompileError,
>)
    requires
        graph_closed(nodes@, order@),
    ensures
        match contexts_spec(nodes@, order@) {
            Ok((als, un)) => r matches Ok((files, unused)) && files@.len() == order@.len() && (forall|k: int|
                0 <= k < order@.len() ==> {
                    let n = nodes@[order@[k] as int];
                    &&& (#[trigger] files@[k]).path@ == n.path@
                    &&& files@[k].content@ == n.content@
                    &&& files@[k].ctx.current@ == n.domain@
                    &&& pair_views(files@[k].ctx.aliases@) == als[k]
                }) && unused_views(unused@) == un.sort_by(unused_le()),
            Err(a) => r matches Err(CompileError::DomainAliasClash { alias }) && alias@ == a,
        },
{
    let mut files: Vec<ResolvedFile> = Vec::new();
    let mut unused: Vec<UnusedImport> = Vec::new();
    let ghost mut als: Seq<Seq<(Seq<char>, Seq<char>)>> = Seq::empty();
    let mut k: usize = 0;
    proof {
        assert(order@.subrange(0, 0) =~= Seq::<usize>::empty());
        assert(unused_views(unused@) =~= Seq::<UnusedV>::empty());
    }
    while k < order.len()
        invariant
            graph_closed(nodes@, order@),
            k <= order@.len(),
            contexts_spec(nodes@, order@.subrange(0, k as int)) == Ok::<
                (Seq<Seq<(Seq<char>, Seq<char>)>>, Seq<UnusedV>),
                Seq<char>,
            >((als, unused_views(unused@))),
            files@.len() == k,
            als.len() == k,
            forall|i: int|
                0 <= i < k ==> {
                    let n = nodes@[order@[i] as int];
                    &&& (#[trigger] files@[i]).path@ == n.path@
                    &&& files@[i].content@ == n.content@
                    &&& files@[i].ctx.current@ == n.domain@
                    &&& pair_views(files@[i].ctx.aliases@) == als[i]
                },
        decreases order@.len() - k,
    {
        let idx = order[k];
        let n = &nodes[idx];
        proof {
            let t = order@.subrange(0, k + 1);
            assert(t.drop_last() =~= order@.subrange(0, k as int));
            assert(t.last() == idx);
            assert(forall|j: int| 0 <= j < n.edges@.len() ==> (#[trigger] n.edges@[j]).child < nodes@.len()) by {
                assert forall|j: int| 0 <= j < n.edges@.len() implies (#[trigger] n.edges@[j]).child < nodes@.len() by {
                    assert(nodes@[idx as int].edges@[j].child < nodes@.len());
                }
            }
        }
        let ctx = match bind_file(nodes, n) {
            Ok(c) => c,
            Err(e) => {
                proof {
                    lemma_contexts_err(nodes@, order@, k + 1);
                }
                return Err(e);
            },
        };
        let ghost al = pair_views(ctx.aliases@);
        push_unused(nodes, n, &ctx.aliases, &mut unused);
        proof {
            als = als.push(al);
        }
        files.push(ResolvedFile { path: n.path.clone(), content: n.content.clone(), ctx });
        k = k + 1;
    }
    proof {
        assert(order@.subrange(0, order@.len() as int) =~= order@);
    }
    let sorted = sort_unused(unused);
    Ok((files, sorted))
}

} // verus!
