//! Import resolution, independent of where sources live: a [`Resolver`]
//! turns an `IMPORT` path into text, the graph of sources reachable from the
//! root is walked without recursion and deduplicated by content hash, and the
//! whole graph compiles into one IR.
use vstd::prelude::*;
use crate::ast::{Atom, Body, Literal, Located, Statement};
use crate::binding::{ImportEdge, ResolvedFile, SourceNode, bind_contexts, graph_closed, contexts_spec, lemma_unused_le_total, unused_views, unused_le};
use crate::ir::{UnusedImport, wf_compiled};
use vstd::relations::sorted_by;
use crate::compiler::{BindV, Compiler, RefV, all_refs, extract_domain, input_binds, parse_tagged, provide_binds};
use crate::syntax::program_ok;
use crate::error::CompileError;
use crate::hash::{hash_text, text_hash};
use crate::ir::{Compiled, PortBinding, copy_opt, opt_view};
use crate::paths::{normalize_import_path, normalized};
use crate::strtable::StrTable;
use crate::text::string_of;

verus! {

/// Turns an `IMPORT` path into source text. The compiler only consumes
/// strings: a file system, a callback, or a table in memory can back it.
pub trait Resolver {
    /// Whether `load` may give `r` (a text, or an error) for `path`: what the
    /// implementation promises of its store. Unless an implementation says
    /// more, any outcome may come (a store on disk can change under it).
    open spec fn loads(&self, path: Seq<char>, r: Result<Seq<char>, CompileError>) -> bool {
        true
    }

    /// The path `relative` names from the source at `base`: unless an
    /// implementation says otherwise, the normalised join of the two.
    open spec fn resolves(&self, base: Seq<char>, relative: Seq<char>) -> Seq<char> {
        normalized(base, relative)
    }

    /// The source text stored under a resolved path.
    fn load(&self, path: &str) -> (r: Result<String, CompileError>)
        ensures
            self.loads(path@, text_result(r)),
    ;

    /// The path `relative` names from the source at `base`.
    fn resolve(&self, base: &str, relative: &str) -> (r: String)
        ensures
            r@ == self.resolves(base@, relative@),
    ;
}

/// A load outcome with its text as characters.
pub open spec fn text_result(r: Result<String, CompileError>) -> Result<Seq<char>, CompileError> {
    match r {
        Ok(t) => Ok(t@),
        Err(e) => Err(e),
    }
}

/// A resolver serving sources from a table in memory.
pub struct MemoryResolver {
    sources: StrTable<String>,
}

impl MemoryResolver {
    /// The sources served: path to text.
    pub closed spec fn sources(&self) -> Map<Seq<char>, Seq<char>> {
        self.sources@.map_values(|s: String| s@)
    }

    /// A resolver with no sources.
    pub fn new() -> (r: Self)
        ensures
            r.sources() == Map::<Seq<char>, Seq<char>>::empty(),
    {
        let r = MemoryResolver { sources: StrTable::new() };
        proof {
            assert(r.sources() =~= Map::<Seq<char>, Seq<char>>::empty());
        }
        r
    }

    /// Serve `content` under `path` (replacing an earlier source there);
    /// returns the resolver again, for chaining.
    pub fn add(&mut self, path: &str, content: &str) -> (r: &mut Self)
        ensures
            r.sources() == old(self).sources().insert(path@, content@),
            *final(self) == *final(r),
    {
        let ghost before = self.sources@;
        let k = string_of(path);
        let v = string_of(content);
        let ghost vv = v;
        self.sources.insert(k, v);
        proof {
            assert(self.sources@ == before.insert(path@, vv));
            assert(self.sources() =~= old(self).sources().insert(path@, content@));
        }
        self
    }
}

impl Resolver for MemoryResolver {
    /// A stored path gives its text; any other path is `ImportNotFound`
    /// naming it.
    open spec fn loads(&self, path: Seq<char>, r: Result<Seq<char>, CompileError>) -> bool {
        match r {
            Ok(t) => self.sources().contains_key(path) && t == self.sources()[path],
            Err(e) => !self.sources().contains_key(path) && (e matches CompileError::ImportNotFound(p) && p@ == path),
        }
    }

    /// Paths resolve by normalisation.
    open spec fn resolves(&self, base: Seq<char>, relative: Seq<char>) -> Seq<char> {
        normalized(base, relative)
    }

    /// The stored text, or `ImportNotFound` naming the path.
    fn load(&self, path: &str) -> (r: Result<String, CompileError>) {
        match self.sources.get(path) {
            Some(t) => Ok(t.clone()),
            None => Err(CompileError::ImportNotFound(string_of(path))),
        }
    }

    /// Paths resolve with [`normalize_import_path`].
    fn resolve(&self, base: &str, relative: &str) -> (r: String) {
        normalize_import_path(base, relative)
    }
}

// --- the prefixes a statement's atoms carry -------------------------------------

/// The prefixes of a list of atoms.
pub open spec fn atom_prefixes(atoms: Seq<Located<Atom>>) -> Seq<Option<Seq<char>>> {
    atoms.map_values(|a: Located<Atom>| opt_view(a.data.domain))
}

/// The prefixes of a list of literals.
pub open spec fn lit_prefixes(lits: Seq<Located<Literal>>) -> Seq<Option<Seq<char>>> {
    lits.map_values(|l: Located<Literal>| opt_view(l.data.atom.domain))
}

/// The domain prefixes a statement's atoms are written with (`None`: no
/// prefix), in order; statements without atoms carry none.
pub open spec fn stmt_prefixes(s: Statement) -> Seq<Option<Seq<char>>> {
    match s {
        Statement::Fact(a) => seq![opt_view(a.data.domain)],
        Statement::Negation(a) => seq![opt_view(a.data.domain)],
        Statement::Assume(l) => seq![opt_view(l.data.atom.domain)],
        Statement::Premise { body, .. } => body_prefixes(body),
        Statement::Rule { body, .. } => body_prefixes(body),
        _ => Seq::empty(),
    }
}

/// The prefixes of a constraint body.
pub open spec fn body_prefixes(b: Body) -> Seq<Option<Seq<char>>> {
    match b {
        Body::List { atoms, .. } => atom_prefixes(atoms@),
        Body::Impl { antecedent, consequent, .. } => lit_prefixes(antecedent@) + lit_prefixes(consequent@),
        Body::Exists { atom, .. } => seq![opt_view(atom.data.domain)],
    }
}

/// Optional strings as optional character sequences.
pub open spec fn opt_views(v: Seq<Option<String>>) -> Seq<Option<Seq<char>>> {
    v.map_values(|o: Option<String>| opt_view(o))
}

fn push_atom_prefixes(atoms: &Vec<Located<Atom>>, out: &mut Vec<Option<String>>)
    ensures
        opt_views(final(out)@) == opt_views(old(out)@) + atom_prefixes(atoms@),
{
    let ghost base = opt_views(out@);
    let mut i: usize = 0;
    while i < atoms.len()
        invariant
            i <= atoms@.len(),
            opt_views(out@) == base + atom_prefixes(atoms@).subrange(0, i as int),
        decreases atoms@.len() - i,
    {
        let ghost o0 = opt_views(out@);
        out.push(copy_opt(&atoms[i].data.domain));
        proof {
            assert(opt_views(out@) =~= o0.push(opt_view(atoms@[i as int].data.domain)));
            assert(atom_prefixes(atoms@).subrange(0, i + 1) =~= atom_prefixes(atoms@).subrange(0, i as int).push(
                opt_view(atoms@[i as int].data.domain),
            ));
        }
        i = i + 1;
    }
    proof {
        assert(atom_prefixes(atoms@).subrange(0, atoms@.len() as int) =~= atom_prefixes(atoms@));
    }
}

fn push_lit_prefixes(lits: &Vec<Located<Literal>>, out: &mut Vec<Option<String>>)
    ensures
        opt_views(final(out)@) == opt_views(old(out)@) + lit_prefixes(lits@),
{
    let ghost base = opt_views(out@);
    let mut i: usize = 0;
    while i < lits.len()
        invariant
            i <= lits@.len(),
            opt_views(out@) == base + lit_prefixes(lits@).subrange(0, i as int),
        decreases lits@.len() - i,
    {
        let ghost o0 = opt_views(out@);
        out.push(copy_opt(&lits[i].data.atom.domain));
        proof {
            assert(opt_views(out@) =~= o0.push(opt_view(lits@[i as int].data.atom.domain)));
            assert(lit_prefixes(lits@).subrange(0, i + 1) =~= lit_prefixes(lits@).subrange(0, i as int).push(
                opt_view(lits@[i as int].data.atom.domain),
            ));
        }
        i = i + 1;
    }
    proof {
        assert(lit_prefixes(lits@).subrange(0, lits@.len() as int) =~= lit_prefixes(lits@));
    }
}

/// Append the prefixes a statement's atoms carry.
fn collect_prefixes(stmt: &Statement, out: &mut Vec<Option<String>>)
    ensures
        opt_views(final(out)@) == opt_views(old(out)@) + stmt_prefixes(*stmt),
{
    let ghost o0 = opt_views(out@);
    match stmt {
        Statement::Fact(a) | Statement::Negation(a) => {
            out.push(copy_opt(&a.data.domain));
            proof {
                assert(opt_views(out@) =~= o0 + stmt_prefixes(*stmt));
            }
        },
        Statement::Assume(l) => {
            out.push(copy_opt(&l.data.atom.domain));
            proof {
                assert(opt_views(out@) =~= o0 + stmt_prefixes(*stmt));
            }
        },
        Statement::Premise { body, .. } | Statement::Rule { body, .. } => match body {
            Body::List { atoms, .. } => push_atom_prefixes(atoms, out),
            Body::Impl { antecedent, consequent, .. } => {
                push_lit_prefixes(antecedent, out);
                push_lit_prefixes(consequent, out);
                proof {
                    assert(opt_views(out@) =~= o0 + stmt_prefixes(*stmt));
                }
            },
            Body::Exists { atom, .. } => {
                out.push(copy_opt(&atom.data.domain));
                proof {
                    assert(opt_views(out@) =~= o0 + stmt_prefixes(*stmt));
                }
            },
        },
        _ => {
            proof {
                assert(opt_views(out@) =~= o0 + stmt_prefixes(*stmt));
            }
        },
    }
}

// --- what the walk reaches --------------------------------------------------------

/// From the source at `p`, whose text is `t`, an `IMPORT` leads to `q`: `t`
/// is a program with one `DOMAIN`, and one of its `IMPORT` targets resolves
/// from `p` to `q`.
pub open spec fn imports_to<R: Resolver>(res: &R, p: Seq<char>, t: Seq<char>, q: Seq<char>) -> bool {
    exists|stmts: Seq<Statement>, k: int|
        #![trigger program_ok(t, stmts), import_targets(stmts)[k]]
        program_ok(t, stmts) && crate::compiler::domain_count(stmts) == 1 && 0 <= k < import_targets(stmts).len() && q
            == res.resolves(p, import_targets(stmts)[k])
}

/// `(path, text)` pairs leading from the root: each path loads its text, and
/// each later path is one an `IMPORT` of the one before leads to.
pub open spec fn reach_chain<R: Resolver>(res: &R, root: Seq<char>, ch: Seq<(Seq<char>, Seq<char>)>) -> bool {
    &&& ch.len() >= 1
    &&& ch[0].0 == root
    &&& forall|i: int| #![trigger ch[i]] 0 <= i < ch.len() ==> res.loads(ch[i].0, Ok(ch[i].1))
    &&& forall|i: int| 0 <= i < ch.len() - 1 ==> #[trigger] imports_to(res, ch[i].0, ch[i].1, ch[i + 1].0)
}

/// The walk reaches the path `p` after the chain `ch`: `p` is the root, or an
/// `IMPORT` of the chain's last source leads to it.
pub open spec fn reaches_path<R: Resolver>(res: &R, root: Seq<char>, ch: Seq<(Seq<char>, Seq<char>)>, p: Seq<char>) -> bool {
    ||| ch.len() == 0 && p == root
    ||| reach_chain(res, root, ch) && imports_to(res, ch.last().0, ch.last().1, p)
}

/// The text `t` loaded from `p` is refused with `e`: it does not parse (a
/// syntax error labelled with `p`), or it declares no `DOMAIN`, or several.
pub open spec fn text_refused(p: Seq<char>, t: Seq<char>, e: CompileError) -> bool {
    ||| (e matches CompileError::Parse(d) && d.label() == Some(p)) && !(t.len() < usize::MAX && exists|s: Seq<Statement>|
        #[trigger] program_ok(t, s) && crate::syntax::readable(t, s))
    ||| exists|stmts: Seq<Statement>| #[trigger] program_ok(t, stmts) && {
        ||| crate::compiler::domain_count(stmts) == 0 && (e matches CompileError::MissingDomain { file } && file@ == p)
        ||| crate::compiler::domain_count(stmts) > 1 && (e matches CompileError::DuplicateDomain { file } && file@ == p)
    }
}

/// The sum of a sequence of counts.
pub open spec fn nat_total(ks: Seq<nat>) -> nat
    decreases ks.len(),
{
    if ks.len() == 0 {
        0
    } else {
        nat_total(ks.drop_last()) + ks.last()
    }
}

/// Reached sources with pairwise different texts (by hash), each a program
/// with one `DOMAIN` holding `ks[i]` imports, that together with their
/// imports number at least `usize::MAX - 1`.
pub open spec fn exhaust_witness<R: Resolver>(
    res: &R,
    root: Seq<char>,
    cs: Seq<Seq<(Seq<char>, Seq<char>)>>,
    ks: Seq<nat>,
) -> bool {
    &&& cs.len() == ks.len()
    &&& forall|i: int| 0 <= i < cs.len() ==> reach_chain(res, root, #[trigger] cs[i])
    &&& forall|i: int, j: int|
        0 <= i < cs.len() && 0 <= j < cs.len() && i != j ==> text_hash((#[trigger] cs[i]).last().1) != text_hash(
            (#[trigger] cs[j]).last().1,
        )
    &&& forall|i: int| 0 <= i < cs.len() ==> #[trigger] counted(cs[i].last().1, ks[i])
    &&& cs.len() + nat_total(ks) >= usize::MAX - 1
}

/// The text `t` is a program with one `DOMAIN` and `k` imports.
pub open spec fn counted(t: Seq<char>, k: nat) -> bool {
    exists|stmts: Seq<Statement>|
        #[trigger] program_ok(t, stmts) && crate::compiler::domain_count(stmts) == 1 && k == import_edges(stmts).len()
}

/// The walk from `root` is too large for the machine: it reaches sources and
/// imports numbering at least `usize::MAX - 1`.
pub open spec fn walk_exhausted<R: Resolver>(res: &R, root: Seq<char>) -> bool {
    exists|cs: Seq<Seq<(Seq<char>, Seq<char>)>>, ks: Seq<nat>| #[trigger] exhaust_witness(res, root, cs, ks)
}

/// Why the walk from `root` failed with `e`: a reached path did not load; a
/// reached text is refused; a reached text is (by hash) the text of a source
/// on the chain of distinct texts that led to it, an import cycle, reported
/// as `CircularImport` naming the path; or the walk is too large for the machine
/// (also reported as `CircularImport`).
pub open spec fn walk_failed<R: Resolver>(res: &R, root: Seq<char>, e: CompileError) -> bool {
    ||| exists|ch: Seq<(Seq<char>, Seq<char>)>, p: Seq<char>| #[trigger] reaches_path(res, root, ch, p) && res.loads(p, Err(e))
    ||| exists|ch: Seq<(Seq<char>, Seq<char>)>, p: Seq<char>, t: Seq<char>|
        #![trigger reaches_path(res, root, ch, p), res.loads(p, Ok(t))]
        reaches_path(res, root, ch, p) && res.loads(p, Ok(t)) && text_refused(p, t, e)
    ||| e matches CompileError::CircularImport(q) && exists|ch: Seq<(Seq<char>, Seq<char>)>, t: Seq<char>|
        #![trigger reaches_path(res, root, ch, q@), res.loads(q@, Ok(t))]
        reaches_path(res, root, ch, q@) && res.loads(q@, Ok(t)) && texts_distinct(ch) && exists|j: int|
            0 <= j < ch.len() && text_hash(#[trigger] ch[j].1) == text_hash(t)
    ||| e is CircularImport && walk_exhausted(res, root)
}

/// No two sources on the chain have the same text (by hash).
pub open spec fn texts_distinct(ch: Seq<(Seq<char>, Seq<char>)>) -> bool {
    forall|j1: int, j2: int| 0 <= j1 < j2 < ch.len() ==> text_hash((#[trigger] ch[j1]).1) != text_hash((#[trigger] ch[j2]).1)
}

/// The `(path, text)` pairs of the nodes at the indices `a`.
pub open spec fn chain_of(nodes: Seq<SourceNode>, a: Seq<int>) -> Seq<(Seq<char>, Seq<char>)> {
    a.map_values(|k: int| (nodes[k].path@, nodes[k].content@))
}

/// The number of imports of each node.
pub open spec fn edge_lens(nodes: Seq<SourceNode>) -> Seq<nat> {
    nodes.map_values(|n: SourceNode| n.edges@.len())
}

// --- discovering the graph -------------------------------------------------------

/// Pending work of the graph walk.
enum Step {
    /// Visit the source at this path; `from` is the import edge that led here.
    Enter { path: String, from: Option<usize> },
    /// The source with this index is finished.
    Exit(usize),
}

spec fn enters(s: Step, e: usize) -> bool {
    s matches Step::Enter { from: Some(x), .. } && x == e
}

/// Content hashes of distinct nodes differ.
pub open spec fn hashes_distinct(nodes: Seq<SourceNode>) -> bool {
    forall|i: int, j: int|
        0 <= i < nodes.len() && 0 <= j < nodes.len() && i != j ==> text_hash((#[trigger] nodes[i]).content@)
            != text_hash((#[trigger] nodes[j]).content@)
}

/// A line number as stored on an edge (clamped to `u32`).
pub open spec fn edge_line(l: usize) -> u32 {
    if l <= 0xffff_ffff {
        l as u32
    } else {
        0xffff_ffff
    }
}

/// The `IMPORT`s of statements as `(alias, line)`, in order.
pub open spec fn import_edges(stmts: Seq<Statement>) -> Seq<(Option<Seq<char>>, u32)>
    decreases stmts.len(),
{
    if stmts.len() == 0 {
        Seq::empty()
    } else {
        import_edges(stmts.drop_last()) + match stmts.last() {
            Statement::Import { path, alias } => seq![
                (
                    match alias {
                        Some(a) => Some(a.data@),
                        None => None,
                    },
                    edge_line(path.line),
                ),
            ],
            _ => Seq::empty(),
        }
    }
}

/// The prefixes the statements other than `IMPORT`s use, in order.
pub open spec fn used_prefixes(stmts: Seq<Statement>) -> Seq<Option<Seq<char>>>
    decreases stmts.len(),
{
    if stmts.len() == 0 {
        Seq::empty()
    } else {
        used_prefixes(stmts.drop_last()) + match stmts.last() {
            Statement::Import { .. } => Seq::empty(),
            other => stmt_prefixes(other),
        }
    }
}

/// The targets of the `IMPORT`s of statements, as written, in order.
pub open spec fn import_targets(stmts: Seq<Statement>) -> Seq<Seq<char>>
    decreases stmts.len(),
{
    if stmts.len() == 0 {
        Seq::empty()
    } else {
        import_targets(stmts.drop_last()) + match stmts.last() {
            Statement::Import { path, .. } => seq![path.data@],
            _ => Seq::empty(),
        }
    }
}

/// A node is one parsed source: its text is a program with exactly one
/// `DOMAIN`, which is the node's domain; its edges are that program's
/// `IMPORT`s, in order (alias and line), and its used prefixes are those of
/// its other statements.
pub open spec fn node_parsed(n: SourceNode) -> bool {
    exists|stmts: Seq<Statement>|
        #[trigger] crate::syntax::program_ok(n.content@, stmts) && n.edges@.map_values(|e: ImportEdge| edge_view(e))
            == import_edges(stmts) && crate::compiler::domain_count(stmts) == 1 && crate::compiler::first_domain(stmts)
            == Some(n.domain@) && opt_views(n.used@) == used_prefixes(stmts)
}

/// An edge as `(alias, line)`.
pub open spec fn edge_view(e: ImportEdge) -> (Option<Seq<char>>, u32) {
    (opt_view(e.alias), e.line)
}

/// The `IMPORT`s of a parsed source (alias, line, resolved path of the
/// target) and the prefixes its other statements use.
fn scan_source<R: Resolver>(resolver: &R, path: &String, statements: &Vec<Statement>) -> (r: (
    Vec<ImportEdge>,
    Vec<String>,
    Vec<Option<String>>,
))
    ensures
        r.0@.len() == r.1@.len(),
        r.0@.map_values(|e: ImportEdge| edge_view(e)) == import_edges(statements@),
        opt_views(r.2@) == used_prefixes(statements@),
        r.1@.len() == import_targets(statements@).len(),
        forall|k: int| 0 <= k < r.1@.len() ==> (#[trigger] r.1@[k])@ == resolver.resolves(path@, import_targets(statements@)[k]),
{
    let mut edges: Vec<ImportEdge> = Vec::new();
    let mut children: Vec<String> = Vec::new();
    let mut used: Vec<Option<String>> = Vec::new();
    let mut i: usize = 0;
    while i < statements.len()
        invariant
            i <= statements@.len(),
            edges@.len() == children@.len(),
            edges@.map_values(|e: ImportEdge| edge_view(e)) == import_edges(statements@.subrange(0, i as int)),
            opt_views(used@) == used_prefixes(statements@.subrange(0, i as int)),
            children@.len() == import_targets(statements@.subrange(0, i as int)).len(),
            forall|k: int| 0 <= k < children@.len() ==> (#[trigger] children@[k])@ == resolver.resolves(
                path@,
                import_targets(statements@.subrange(0, i as int))[k],
            ),
        decreases statements@.len() - i,
    {
        proof {
            assert(statements@.subrange(0, i + 1).drop_last() =~= statements@.subrange(0, i as int));
            assert(statements@.subrange(0, i + 1).last() == statements@[i as int]);
        }
        let ghost e0 = edges@;
        let ghost u0 = opt_views(used@);
        match &statements[i] {
            Statement::Import { path: p, alias } => {
                let a = match alias {
                    Some(x) => Some(x.data.clone()),
                    None => None,
                };
                let line: u32 = if p.line <= 0xffff_ffff {
                    p.line as u32
                } else {
                    0xffff_ffff
                };
                let edge = ImportEdge { alias: a, child: 0, line };
                let ghost ev = edge_view(edge);
                let ghost c0 = children@;
                edges.push(edge);
                children.push(resolver.resolve(path.as_str(), p.data.as_str()));
                proof {
                    let t0 = import_targets(statements@.subrange(0, i as int));
                    assert(import_targets(statements@.subrange(0, i + 1)) =~= t0.push(p.data@));
                    assert forall|k: int| 0 <= k < children@.len() implies (#[trigger] children@[k])@ == resolver.resolves(
                        path@,
                        import_targets(statements@.subrange(0, i + 1))[k],
                    ) by {
                        if k < c0.len() {
                            assert(children@[k] == c0[k]);
                        }
                    }
                    assert(edges@.map_values(|e: ImportEdge| edge_view(e)) =~= e0.map_values(|e: ImportEdge| edge_view(e)).push(ev));
                    assert(opt_views(used@) =~= used_prefixes(statements@.subrange(0, i + 1)));
                }
            },
            other => {
                collect_prefixes(other, &mut used);
                proof {
                    assert(import_targets(statements@.subrange(0, i + 1)) =~= import_targets(statements@.subrange(0, i as int)));
                    assert(edges@.map_values(|e: ImportEdge| edge_view(e)) =~= import_edges(statements@.subrange(0, i + 1)));
                }
            },
        }
        i = i + 1;
    }
    proof {
        assert(statements@.subrange(0, statements@.len() as int) =~= statements@);
    }
    (edges, children, used)
}

fn push_nones(links: &mut Vec<Option<usize>>, n: usize)
    ensures
        final(links)@.len() == old(links)@.len() + n,
        forall|e: int| 0 <= e < old(links)@.len() ==> #[trigger] final(links)@[e] == old(links)@[e],
        forall|e: int| old(links)@.len() <= e < final(links)@.len() ==> #[trigger] final(links)@[e] is None,
{
    let mut k: usize = 0;
    while k < n
        invariant
            k <= n,
            links@.len() == old(links)@.len() + k,
            forall|e: int| 0 <= e < old(links)@.len() ==> #[trigger] links@[e] == old(links)@[e],
            forall|e: int| old(links)@.len() <= e < links@.len() ==> #[trigger] links@[e] is None,
        decreases n - k,
    {
        links.push(None);
        k = k + 1;
    }
}

/// Push one `Enter` per child, last child first (so the first is visited first).
fn push_enters(work: &mut Vec<Step>, children: &Vec<String>, first: usize)
    requires
        first + children@.len() <= usize::MAX,
    ensures
        final(work)@.len() == old(work)@.len() + children@.len(),
        forall|w: int| 0 <= w < old(work)@.len() ==> #[trigger] final(work)@[w] == old(work)@[w],
        forall|k: int|
            0 <= k < children@.len() ==> #[trigger] final(work)@[old(work)@.len() + children@.len() - 1 - k]
                == (Step::Enter { path: children@[k], from: Some((first + k) as usize) }),
{
    let n = children.len();
    let mut j: usize = 0;
    while j < n
        invariant
            n == children@.len(),
            first + n <= usize::MAX,
            j <= n,
            work@.len() == old(work)@.len() + j,
            forall|w: int| 0 <= w < old(work)@.len() ==> #[trigger] work@[w] == old(work)@[w],
            forall|k: int|
                n - j <= k < n ==> #[trigger] work@[old(work)@.len() + n - 1 - k] == (Step::Enter {
                    path: children@[k],
                    from: Some((first + k) as usize),
                }),
        decreases n - j,
    {
        let k = n - 1 - j;
        work.push(Step::Enter { path: children[k].clone(), from: Some(first + k) });
        j = j + 1;
    }
}

/// A pending step is in order: the root's entry waits alone before any source
/// is read; an import's entry leads, by one of its source's `IMPORT`s, to its
/// path, and every source still being walked below it is on the chain of the
/// source it belongs to.
spec fn step_ok<R: Resolver>(
    res: &R,
    root: Seq<char>,
    nodes: Seq<SourceNode>,
    anc: Seq<Seq<int>>,
    done: Seq<bool>,
    xpos: Seq<int>,
    owner: Seq<int>,
    st: Step,
    w: int,
) -> bool {
    match st {
        Step::Enter { path, from } => match from {
            None => path@ == root && nodes.len() == 0,
            Some(e) => {
                let o = owner[e as int];
                &&& 0 <= e < owner.len()
                &&& 0 <= o < nodes.len()
                &&& imports_to(res, nodes[o].path@, nodes[o].content@, path@)
                &&& forall|j: int| 0 <= j < nodes.len() && !done[j] && xpos[j] < w ==> #[trigger] anc[o].contains(j)
            },
        },
        Step::Exit(_) => true,
    }
}

/// What the walk keeps of how it got where it is: each source's chain from
/// the root (`anc`), each pending step in order, each stored hash naming its
/// source's text, the links counting the sources' imports, and the steps
/// taken so far (`u64::MAX - fuel`) accounting for every step pushed.
#[verifier::opaque]
spec fn walk_ghost<R: Resolver>(
    res: &R,
    root: Seq<char>,
    nodes: Seq<SourceNode>,
    anc: Seq<Seq<int>>,
    done: Seq<bool>,
    xpos: Seq<int>,
    owner: Seq<int>,
    work: Seq<Step>,
    by_hash: Map<Seq<char>, usize>,
    links: int,
    fuel: int,
) -> bool {
    &&& anc.len() == nodes.len()
    &&& forall|i: int| 0 <= i < nodes.len() ==> (#[trigger] anc[i]).len() >= 1 && anc[i].last() == i
    &&& forall|i: int, k: int| 0 <= i < nodes.len() && 0 <= k < anc[i].len() ==> 0 <= #[trigger] anc[i][k] < nodes.len()
    &&& forall|i: int, k1: int, k2: int|
        0 <= i < nodes.len() && 0 <= k1 < k2 < anc[i].len() ==> #[trigger] anc[i][k1] < #[trigger] anc[i][k2]
    &&& forall|i: int| 0 <= i < nodes.len() ==> reach_chain(res, root, chain_of(nodes, #[trigger] anc[i]))
    &&& forall|w: int| 0 <= w < work.len() ==> step_ok(res, root, nodes, anc, done, xpos, owner, #[trigger] work[w], w)
    &&& forall|h: Seq<char>| #[trigger] by_hash.contains_key(h) ==> text_hash(nodes[by_hash[h] as int].content@) == h
        && by_hash[h] < nodes.len()
    &&& links == nat_total(edge_lens(nodes))
    &&& work.len() + (u64::MAX - fuel) == 1 + nodes.len() + links
}

/// The walk's chains reach each source and end at it.
proof fn lemma_ghost_chains<R: Resolver>(
    res: &R,
    root: Seq<char>,
    nodes: Seq<SourceNode>,
    anc: Seq<Seq<int>>,
    done: Seq<bool>,
    xpos: Seq<int>,
    owner: Seq<int>,
    work: Seq<Step>,
    by_hash: Map<Seq<char>, usize>,
    links: int,
    fuel: int,
)
    requires
        walk_ghost(res, root, nodes, anc, done, xpos, owner, work, by_hash, links, fuel),
    ensures
        forall|i: int|
            0 <= i < nodes.len() ==> exists|ch: Seq<(Seq<char>, Seq<char>)>|
                #[trigger] reach_chain(res, root, ch) && ch.last() == ((#[trigger] nodes[i]).path@, nodes[i].content@),
{
    reveal(walk_ghost);
    assert forall|i: int| 0 <= i < nodes.len() implies exists|ch: Seq<(Seq<char>, Seq<char>)>|
        #[trigger] reach_chain(res, root, ch) && ch.last() == ((#[trigger] nodes[i]).path@, nodes[i].content@) by {
        let ch = chain_of(nodes, anc[i]);
        assert(anc[i][anc[i].len() - 1] == i);
        assert(reach_chain(res, root, ch));
    }
}

/// A walk that ran out of fuel reached sources and imports numbering at
/// least `usize::MAX - 1`.
proof fn lemma_ghost_exhausted<R: Resolver>(
    res: &R,
    root: Seq<char>,
    nodes: Seq<SourceNode>,
    anc: Seq<Seq<int>>,
    done: Seq<bool>,
    xpos: Seq<int>,
    owner: Seq<int>,
    work: Seq<Step>,
    by_hash: Map<Seq<char>, usize>,
    links: int,
)
    requires
        walk_ghost(res, root, nodes, anc, done, xpos, owner, work, by_hash, links, 0),
        work.len() > 0,
        forall|i: int|
            0 <= i < nodes.len() ==> by_hash.contains_key(text_hash((#[trigger] nodes[i]).content@)) && by_hash[text_hash(
                nodes[i].content@,
            )] == i,
        forall|i: int| 0 <= i < nodes.len() ==> #[trigger] node_parsed(nodes[i]),
    ensures
        walk_exhausted(res, root),
{
    reveal(walk_ghost);
    lemma_node_chains(res, root, nodes, anc, by_hash);
    assert(exhaust_witness(res, root, node_chains(nodes, anc), edge_lens(nodes)));
}

/// The path of the entry on top of the walk is reached by its chain.
proof fn lemma_ghost_entry<R: Resolver>(
    res: &R,
    root: Seq<char>,
    nodes: Seq<SourceNode>,
    anc: Seq<Seq<int>>,
    done: Seq<bool>,
    xpos: Seq<int>,
    owner: Seq<int>,
    work: Seq<Step>,
    by_hash: Map<Seq<char>, usize>,
    links: int,
    fuel: int,
    path: String,
    from: Option<usize>,
)
    requires
        walk_ghost(res, root, nodes, anc, done, xpos, owner, work, by_hash, links, fuel),
        work.len() > 0,
        work.last() == (Step::Enter { path, from }),
    ensures
        reaches_path(res, root, entry_chain(nodes, anc, owner, from), path@),
        from is None ==> nodes.len() == 0,
{
    reveal(walk_ghost);
    assert(step_ok(res, root, nodes, anc, done, xpos, owner, work[work.len() - 1], work.len() - 1));
    if let Some(e) = from {
        let o = owner[e as int];
        assert(anc[o][anc[o].len() - 1] == o);
    }
}

/// Reading again a text whose source is still being walked is a cycle.
proof fn lemma_ghost_cycle<R: Resolver>(
    res: &R,
    root: Seq<char>,
    nodes: Seq<SourceNode>,
    anc: Seq<Seq<int>>,
    done: Seq<bool>,
    xpos: Seq<int>,
    owner: Seq<int>,
    work: Seq<Step>,
    by_hash: Map<Seq<char>, usize>,
    links: int,
    fuel: int,
    path: String,
    from: Option<usize>,
    t: Seq<char>,
    idx: int,
    err: CompileError,
)
    requires
        walk_ghost(res, root, nodes, anc, done, xpos, owner, work, by_hash, links, fuel),
        work.len() > 0,
        work.last() == (Step::Enter { path, from }),
        err matches CompileError::CircularImport(q) && q@ == path@,
        res.loads(path@, Ok(t)),
        by_hash.contains_key(text_hash(t)),
        by_hash[text_hash(t)] == idx,
        0 <= idx < nodes.len(),
        !done[idx],
        xpos[idx] < work.len() - 1,
        forall|i: int|
            0 <= i < nodes.len() ==> by_hash.contains_key(text_hash((#[trigger] nodes[i]).content@)) && by_hash[text_hash(
                nodes[i].content@,
            )] == i,
    ensures
        walk_failed(res, root, err),
{
    reveal(walk_ghost);
    let top = work.len() - 1;
    assert(step_ok(res, root, nodes, anc, done, xpos, owner, work[top], top));
    let ch = entry_chain(nodes, anc, owner, from);
    lemma_ghost_entry(res, root, nodes, anc, done, xpos, owner, work, by_hash, links, fuel, path, from);
    assert(nodes.len() > 0);
    let e = from->Some_0;
    let o = owner[e as int];
    assert(anc[o].contains(idx));
    let j = choose|j: int| 0 <= j < anc[o].len() && anc[o][j] == idx;
    assert(ch[j] == (nodes[idx].path@, nodes[idx].content@));
    assert(text_hash(ch[j].1) == text_hash(t));
    assert(exists|j: int| 0 <= j < ch.len() && text_hash(#[trigger] ch[j].1) == text_hash(t));
    assert(reaches_path(res, root, ch, path@) && res.loads(path@, Ok(t)));
    let q = err->CircularImport_0;
    assert(reaches_path(res, root, ch, q@) && res.loads(q@, Ok(t)));
    assert(text_hash(ch[j].1) == text_hash(t));
    assert forall|j1: int, j2: int| 0 <= j1 < j2 < ch.len() implies text_hash((#[trigger] ch[j1]).1) != text_hash(
        (#[trigger] ch[j2]).1,
    ) by {
        let i1 = anc[o][j1];
        let i2 = anc[o][j2];
        assert(i1 < i2);
        assert(0 <= i1 < nodes.len() && 0 <= i2 < nodes.len());
        assert(ch[j1].1 == nodes[i1].content@ && ch[j2].1 == nodes[i2].content@);
        assert(by_hash[text_hash(nodes[i1].content@)] == i1);
        assert(by_hash[text_hash(nodes[i2].content@)] == i2);
    }
}

/// Finishing a source keeps the walk in order.
proof fn lemma_ghost_exit<R: Resolver>(
    res: &R,
    root: Seq<char>,
    nodes: Seq<SourceNode>,
    anc: Seq<Seq<int>>,
    done: Seq<bool>,
    xpos: Seq<int>,
    owner: Seq<int>,
    work: Seq<Step>,
    by_hash: Map<Seq<char>, usize>,
    links: int,
    fuel: int,
    i: int,
)
    requires
        walk_ghost(res, root, nodes, anc, done, xpos, owner, work, by_hash, links, fuel),
        work.len() > 0,
        work.last() == Step::Exit(i as usize),
        0 <= i < done.len(),
        done.len() == nodes.len(),
        fuel > 0,
    ensures
        walk_ghost(res, root, nodes, anc, done.update(i, true), xpos, owner, work.drop_last(), by_hash, links, fuel - 1),
{
    reveal(walk_ghost);
    let w1 = work.drop_last();
    let d1 = done.update(i, true);
    assert forall|w: int| 0 <= w < w1.len() implies step_ok(res, root, nodes, anc, d1, xpos, owner, #[trigger] w1[w], w) by {
        assert(w1[w] == work[w]);
        assert(step_ok(res, root, nodes, anc, done, xpos, owner, work[w], w));
        if let Step::Enter { path: p, from: Some(e) } = work[w] {
            let o = owner[e as int];
            assert forall|j: int| 0 <= j < nodes.len() && !d1[j] && xpos[j] < w implies #[trigger] anc[o].contains(j) by {
                assert(!done[j]);
            }
        }
    }
}

/// Linking an import to a finished source keeps the walk in order.
proof fn lemma_ghost_link<R: Resolver>(
    res: &R,
    root: Seq<char>,
    nodes: Seq<SourceNode>,
    anc: Seq<Seq<int>>,
    done: Seq<bool>,
    xpos: Seq<int>,
    owner: Seq<int>,
    work: Seq<Step>,
    by_hash: Map<Seq<char>, usize>,
    links: int,
    fuel: int,
)
    requires
        walk_ghost(res, root, nodes, anc, done, xpos, owner, work, by_hash, links, fuel),
        work.len() > 0,
        fuel > 0,
    ensures
        walk_ghost(res, root, nodes, anc, done, xpos, owner, work.drop_last(), by_hash, links, fuel - 1),
{
    reveal(walk_ghost);
    let w1 = work.drop_last();
    assert forall|w: int| 0 <= w < w1.len() implies step_ok(res, root, nodes, anc, done, xpos, owner, #[trigger] w1[w], w) by {
        assert(w1[w] == work[w]);
        assert(step_ok(res, root, nodes, anc, done, xpos, owner, work[w], w));
    }
}

/// The chain of a new source: its importer's, then itself (the root alone).
spec fn new_anc(anc: Seq<Seq<int>>, owner: Seq<int>, from: Option<usize>, idx: int) -> Seq<int> {
    match from {
        Some(e) => anc[owner[e as int]].push(idx),
        None => seq![idx],
    }
}

/// Reading a new source, pushing its exit and its imports' entries, keeps
/// the walk in order.
proof fn lemma_ghost_new<R: Resolver>(
    res: &R,
    root: Seq<char>,
    n0: Seq<SourceNode>,
    anc: Seq<Seq<int>>,
    d0: Seq<bool>,
    xp0: Seq<int>,
    own0: Seq<int>,
    w0: Seq<Step>,
    bh0: Map<Seq<char>, usize>,
    links0: int,
    fuel0: int,
    path: String,
    from: Option<usize>,
    t: Seq<char>,
    pst: Seq<Statement>,
    cs: Seq<Seq<char>>,
    nodes: Seq<SourceNode>,
    done: Seq<bool>,
    xpos: Seq<int>,
    owner: Seq<int>,
    work: Seq<Step>,
    by_hash: Map<Seq<char>, usize>,
)
    requires
        walk_ghost(res, root, n0, anc, d0, xp0, own0, w0, bh0, links0, fuel0),
        w0.len() > 0,
        w0.last() == (Step::Enter { path, from }),
        fuel0 > 0,
        own0.len() == links0,
        n0.len() == 0 ==> w0.len() == 1,
        d0.len() == n0.len(),
        xp0.len() == n0.len(),
        n0.len() < usize::MAX,
        forall|j: int| 0 <= j < n0.len() && !d0[j] ==> 0 <= xp0[j] < w0.len() && w0[xp0[j]] == Step::Exit(j as usize),
        res.loads(path@, Ok(t)),
        !bh0.contains_key(text_hash(t)),
        program_ok(t, pst),
        crate::compiler::domain_count(pst) == 1,
        cs.len() == import_targets(pst).len(),
        forall|k: int| 0 <= k < cs.len() ==> #[trigger] cs[k] == res.resolves(path@, import_targets(pst)[k]),
        nodes.len() == n0.len() + 1,
        forall|j: int| 0 <= j < n0.len() ==> nodes[j] == n0[j],
        nodes[n0.len() as int].path@ == path@,
        nodes[n0.len() as int].content@ == t,
        nodes[n0.len() as int].edges@.len() == cs.len(),
        done == d0.push(false),
        xpos == xp0.push(w0.len() - 1),
        owner.len() == links0 + cs.len(),
        forall|e: int| 0 <= e < links0 ==> owner[e] == own0[e],
        forall|e: int| links0 <= e < links0 + cs.len() ==> owner[e] == n0.len(),
        by_hash == bh0.insert(text_hash(t), n0.len() as usize),
        work.len() == w0.len() + cs.len(),
        forall|w: int| 0 <= w < w0.len() - 1 ==> work[w] == w0[w],
        work[w0.len() - 1] == Step::Exit(n0.len() as usize),
        forall|k: int|
            0 <= k < cs.len() ==> ((#[trigger] work[w0.len() + cs.len() - 1 - k]) matches Step::Enter { path: p, from: Some(f) }
                && p@ == cs[k] && f == links0 + k),
    ensures
        walk_ghost(
            res,
            root,
            nodes,
            anc.push(new_anc(anc, own0, from, n0.len() as int)),
            done,
            xpos,
            owner,
            work,
            by_hash,
            links0 + cs.len(),
            fuel0 - 1,
        ),
{
    reveal(walk_ghost);
    let idx = n0.len() as int;
    let top = w0.len() - 1;
    let a_new = new_anc(anc, own0, from, idx);
    let na = anc.push(a_new);
    lemma_ghost_entry(res, root, n0, anc, d0, xp0, own0, w0, bh0, links0, fuel0, path, from);
    let ch = entry_chain(n0, anc, own0, from);
    lemma_chain_extend(res, root, ch, path@, t);
    assert(step_ok(res, root, n0, anc, d0, xp0, own0, w0[top], top));
    assert forall|i: int| 0 <= i < nodes.len() implies (#[trigger] na[i]).len() >= 1 && na[i].last() == i by {
        if i < idx {
            assert(na[i] == anc[i]);
        }
    }
    assert forall|i: int, k: int| 0 <= i < nodes.len() && 0 <= k < na[i].len() implies 0 <= #[trigger] na[i][k] < nodes.len() by {
        if i < idx {
            assert(na[i] == anc[i]);
        } else if let Some(e) = from {
            if k < a_new.len() - 1 {
                assert(na[i][k] == anc[own0[e as int]][k]);
            }
        }
    }
    assert(chain_of(nodes, a_new) =~= ch.push((path@, t))) by {
        if let Some(e) = from {
            let o = own0[e as int];
            assert forall|k: int| 0 <= k < anc[o].len() implies nodes[anc[o][k]] == n0[anc[o][k]] by {
                assert(anc[o][k] < idx);
            }
        }
    }
    assert forall|i: int| 0 <= i < nodes.len() implies reach_chain(res, root, chain_of(nodes, #[trigger] na[i])) by {
        if i < idx {
            assert(na[i] == anc[i]);
            assert(chain_of(nodes, anc[i]) =~= chain_of(n0, anc[i])) by {
                assert forall|k: int| 0 <= k < anc[i].len() implies nodes[anc[i][k]] == n0[anc[i][k]] by {
                    assert(anc[i][k] < idx);
                }
            }
        } else {
            assert(na[i] == a_new);
        }
    }
    assert forall|w: int| 0 <= w < work.len() implies step_ok(res, root, nodes, na, done, xpos, owner, #[trigger] work[w], w) by {
        if w < top {
            assert(work[w] == w0[w]);
            assert(step_ok(res, root, n0, anc, d0, xp0, own0, w0[w], w));
            match w0[w] {
                Step::Enter { path: p2, from: f2 } => match f2 {
                    Some(e2) => {
                        let o2 = own0[e2 as int];
                        assert(owner[e2 as int] == o2);
                        assert(nodes[o2] == n0[o2]);
                        assert(na[o2] == anc[o2]);
                        assert forall|j: int| 0 <= j < nodes.len() && !done[j] && xpos[j] < w implies #[trigger] na[o2].contains(j) by {
                            if j < idx {
                                assert(!d0[j] && xp0[j] < w);
                            }
                        }
                    },
                    None => {},
                },
                Step::Exit(_) => {},
            }
        } else if w > top {
            let k = w0.len() + cs.len() - 1 - w;
            assert(work[w0.len() + cs.len() - 1 - k] == work[w]);
            let f = links0 + k;
            assert(owner[f] == idx);
            assert(cs[k] == res.resolves(path@, import_targets(pst)[k]));
            assert(imports_to(res, nodes[idx].path@, nodes[idx].content@, cs[k]));
            assert forall|j: int| 0 <= j < nodes.len() && !done[j] && xpos[j] < w implies #[trigger] na[idx].contains(j) by {
                if j == idx {
                    assert(a_new[a_new.len() - 1] == idx);
                } else {
                    assert(!d0[j]);
                    assert(xp0[j] != top);
                    let e = from->Some_0;
                    let o = own0[e as int];
                    assert(anc[o].contains(j));
                    let q = choose|q: int| 0 <= q < anc[o].len() && anc[o][q] == j;
                    assert(a_new[q] == j);
                }
            }
        }
    }
    assert forall|h: Seq<char>| #[trigger] by_hash.contains_key(h) implies text_hash(nodes[by_hash[h] as int].content@) == h by {
        if h != text_hash(t) {
            assert(bh0.contains_key(h) && by_hash[h] == bh0[h]);
            assert((bh0[h] as int) < n0.len());
            assert(nodes[bh0[h] as int] == n0[bh0[h] as int]);
            assert(text_hash(n0[bh0[h] as int].content@) == h);
        } else {
            assert(by_hash[h] as int == idx);
        }
    }
    assert forall|h: Seq<char>| #[trigger] by_hash.contains_key(h) implies by_hash[h] < nodes.len() by {
        if h != text_hash(t) {
            assert(bh0.contains_key(h));
        }
    }
    assert(edge_lens(nodes).drop_last() =~= edge_lens(n0));
}

/// A new source whose imports would overflow the links makes the walk too
/// large for the machine.
proof fn lemma_ghost_overflow<R: Resolver>(
    res: &R,
    root: Seq<char>,
    nodes: Seq<SourceNode>,
    anc: Seq<Seq<int>>,
    done: Seq<bool>,
    xpos: Seq<int>,
    owner: Seq<int>,
    work: Seq<Step>,
    by_hash: Map<Seq<char>, usize>,
    links: int,
    fuel: int,
    path: String,
    from: Option<usize>,
    t: Seq<char>,
    pst: Seq<Statement>,
    n: nat,
)
    requires
        walk_ghost(res, root, nodes, anc, done, xpos, owner, work, by_hash, links, fuel),
        work.len() > 0,
        work.last() == (Step::Enter { path, from }),
        res.loads(path@, Ok(t)),
        !by_hash.contains_key(text_hash(t)),
        forall|i: int|
            0 <= i < nodes.len() ==> by_hash.contains_key(text_hash((#[trigger] nodes[i]).content@)) && by_hash[text_hash(
                nodes[i].content@,
            )] == i,
        forall|i: int| 0 <= i < nodes.len() ==> #[trigger] node_parsed(nodes[i]),
        program_ok(t, pst),
        crate::compiler::domain_count(pst) == 1,
        n == import_edges(pst).len(),
        links + n > usize::MAX,
    ensures
        walk_exhausted(res, root),
{
    reveal(walk_ghost);
    lemma_node_chains(res, root, nodes, anc, by_hash);
    lemma_ghost_entry(res, root, nodes, anc, done, xpos, owner, work, by_hash, links, fuel, path, from);
    let ch = entry_chain(nodes, anc, owner, from);
    lemma_chain_extend(res, root, ch, path@, t);
    let cs0 = node_chains(nodes, anc);
    let cur = ch.push((path@, t));
    let cs = cs0.push(cur);
    let ks = edge_lens(nodes).push(n);
    assert(ks.drop_last() =~= edge_lens(nodes));
    assert(cur.last() == (path@, t));
    assert forall|i: int| 0 <= i < cs.len() implies reach_chain(res, root, #[trigger] cs[i]) by {
        if i < cs0.len() {
            assert(cs[i] == cs0[i]);
        }
    }
    assert forall|i: int, j: int|
        0 <= i < cs.len() && 0 <= j < cs.len() && i != j implies text_hash((#[trigger] cs[i]).last().1) != text_hash(
            (#[trigger] cs[j]).last().1,
        ) by {
        if i < cs0.len() {
            assert(cs[i] == cs0[i]);
            assert(cs0[i].last() == (nodes[i].path@, nodes[i].content@));
        }
        if j < cs0.len() {
            assert(cs[j] == cs0[j]);
            assert(cs0[j].last() == (nodes[j].path@, nodes[j].content@));
        }
    }
    assert forall|i: int| 0 <= i < cs.len() implies #[trigger] counted(cs[i].last().1, ks[i]) by {
        if i < cs0.len() {
            assert(cs[i] == cs0[i]);
        } else {
            assert(program_ok(t, pst));
        }
    }
    assert(exhaust_witness(res, root, cs, ks));
}

/// A reached path that loads extends the chain that reached it.
proof fn lemma_chain_extend<R: Resolver>(res: &R, root: Seq<char>, ch: Seq<(Seq<char>, Seq<char>)>, p: Seq<char>, t: Seq<char>)
    requires
        reaches_path(res, root, ch, p),
        res.loads(p, Ok(t)),
    ensures
        reach_chain(res, root, ch.push((p, t))),
{
    let c2 = ch.push((p, t));
    assert(c2[c2.len() - 1] == (p, t));
    if ch.len() > 0 {
        assert forall|i: int| #![trigger c2[i]] 0 <= i < c2.len() implies res.loads(c2[i].0, Ok(c2[i].1)) by {
            if i < ch.len() {
                assert(c2[i] == ch[i]);
            }
        }
        assert forall|i: int| 0 <= i < c2.len() - 1 implies #[trigger] imports_to(res, c2[i].0, c2[i].1, c2[i + 1].0) by {
            if i < ch.len() - 1 {
                assert(c2[i] == ch[i] && c2[i + 1] == ch[i + 1]);
                assert(imports_to(res, ch[i].0, ch[i].1, ch[i + 1].0));
            } else {
                assert(c2[i] == ch[ch.len() - 1]);
            }
        }
    }
}

/// The chains of all the walk's sources, by index.
spec fn node_chains(nodes: Seq<SourceNode>, anc: Seq<Seq<int>>) -> Seq<Seq<(Seq<char>, Seq<char>)>> {
    Seq::new(nodes.len(), |i: int| chain_of(nodes, anc[i]))
}

/// The chain the walk followed to reach an entry's path.
spec fn entry_chain(nodes: Seq<SourceNode>, anc: Seq<Seq<int>>, owner: Seq<int>, from: Option<usize>) -> Seq<(Seq<char>, Seq<char>)> {
    match from {
        Some(e) => chain_of(nodes, anc[owner[e as int]]),
        None => Seq::empty(),
    }
}

/// The chains of the walk's sources: each reaches its source, their texts
/// differ, and each is a program with one `DOMAIN` and its source's imports.
proof fn lemma_node_chains<R: Resolver>(
    res: &R,
    root: Seq<char>,
    nodes: Seq<SourceNode>,
    anc: Seq<Seq<int>>,
    by_hash: Map<Seq<char>, usize>,
)
    requires
        anc.len() == nodes.len(),
        forall|i: int| 0 <= i < nodes.len() ==> (#[trigger] anc[i]).len() >= 1 && anc[i].last() == i,
        forall|i: int, k: int| 0 <= i < nodes.len() && 0 <= k < anc[i].len() ==> 0 <= #[trigger] anc[i][k] < nodes.len(),
        forall|i: int| 0 <= i < nodes.len() ==> reach_chain(res, root, chain_of(nodes, #[trigger] anc[i])),
        forall|i: int|
            0 <= i < nodes.len() ==> by_hash.contains_key(text_hash((#[trigger] nodes[i]).content@)) && by_hash[text_hash(
                nodes[i].content@,
            )] == i,
        forall|i: int| 0 <= i < nodes.len() ==> #[trigger] node_parsed(nodes[i]),
    ensures
        ({
            let cs = node_chains(nodes, anc);
            let ks = edge_lens(nodes);
            &&& cs.len() == ks.len()
            &&& forall|i: int| 0 <= i < cs.len() ==> reach_chain(res, root, #[trigger] cs[i])
            &&& forall|i: int| 0 <= i < cs.len() ==> (#[trigger] cs[i]).last() == (nodes[i].path@, nodes[i].content@)
            &&& forall|i: int, j: int|
                0 <= i < cs.len() && 0 <= j < cs.len() && i != j ==> text_hash((#[trigger] cs[i]).last().1) != text_hash(
                    (#[trigger] cs[j]).last().1,
                )
            &&& forall|i: int| 0 <= i < cs.len() ==> #[trigger] counted(cs[i].last().1, ks[i])
        }),
{
    let cs = node_chains(nodes, anc);
    let ks = edge_lens(nodes);
    assert forall|i: int| 0 <= i < cs.len() implies (#[trigger] cs[i]).last() == (nodes[i].path@, nodes[i].content@) by {
        assert(cs[i] == chain_of(nodes, anc[i]));
        assert(anc[i][anc[i].len() - 1] == i);
    }
    assert forall|i: int| 0 <= i < cs.len() implies reach_chain(res, root, #[trigger] cs[i]) by {
        assert(cs[i] == chain_of(nodes, anc[i]));
    }
    assert forall|i: int, j: int|
        0 <= i < cs.len() && 0 <= j < cs.len() && i != j implies text_hash((#[trigger] cs[i]).last().1) != text_hash(
            (#[trigger] cs[j]).last().1,
        ) by {
        assert(cs[i].last() == (nodes[i].path@, nodes[i].content@));
        assert(cs[j].last() == (nodes[j].path@, nodes[j].content@));
        assert(by_hash[text_hash(nodes[i].content@)] == i);
        assert(by_hash[text_hash(nodes[j].content@)] == j);
    }
    assert forall|i: int| 0 <= i < cs.len() implies #[trigger] counted(cs[i].last().1, ks[i]) by {
        assert(cs[i].last() == (nodes[i].path@, nodes[i].content@));
        assert(node_parsed(nodes[i]));
        let st = choose|st: Seq<Statement>|
            #[trigger] program_ok(nodes[i].content@, st) && nodes[i].edges@.map_values(|e: ImportEdge| edge_view(e))
                == import_edges(st) && crate::compiler::domain_count(st) == 1 && crate::compiler::first_domain(st) == Some(
                nodes[i].domain@,
            ) && opt_views(nodes[i].used@) == used_prefixes(st);
        assert(nodes[i].edges@.map_values(|e: ImportEdge| edge_view(e)).len() == nodes[i].edges@.len());
        assert(ks[i] == nodes[i].edges@.len());
        assert(program_ok(cs[i].last().1, st));
    }
}

/// Source `i` has a place in `order`.
pub open spec fn listed(order: Seq<usize>, i: int) -> bool {
    exists|a: int| 0 <= a < order.len() && #[trigger] order[a] == i
}

/// The walk order lists every source exactly once, and each source after
/// every source it imports.
pub open spec fn walk_order(nodes: Seq<SourceNode>, order: Seq<usize>) -> bool {
    &&& forall|a: int, b: int|
        0 <= a < order.len() && 0 <= b < order.len() && #[trigger] order[a] == #[trigger] order[b] ==> a == b
    &&& forall|i: int| 0 <= i < nodes.len() ==> #[trigger] listed(order, i)
    &&& forall|a: int, k: int|
        0 <= a < order.len() && 0 <= k < nodes[order[a] as int].edges@.len() ==> exists|b: int|
            0 <= b < a && #[trigger] order[b] == (#[trigger] nodes[order[a] as int].edges@[k]).child
}

/// What the walk keeps of its stack and its links: each import edge belongs
/// to one source; an unresolved edge waits as one `Enter` above its source's
/// `Exit`; each unfinished source's `Exit` is on the stack; finished sources
/// are in `order` after the sources they import; every stored hash names its
/// source.
#[verifier::opaque]
spec fn walk_inv(
    root: Seq<char>,
    nodes: Seq<SourceNode>,
    firsts: Seq<usize>,
    done: Seq<bool>,
    links: Seq<Option<usize>>,
    owner: Seq<int>,
    xpos: Seq<int>,
    opos: Seq<int>,
    order: Seq<usize>,
    work: Seq<Step>,
    by_hash: Map<Seq<char>, usize>,
) -> bool {
    &&& nodes.len() == firsts.len()
    &&& nodes.len() == done.len()
    &&& nodes.len() == xpos.len()
    &&& nodes.len() == opos.len()
    &&& links.len() == owner.len()
    &&& links.len() <= usize::MAX
    &&& nodes.len() <= usize::MAX
    &&& forall|i: int| 0 <= i < nodes.len() ==> #[trigger] firsts[i] + nodes[i].edges@.len() <= links.len()
    &&& forall|e: int|
        0 <= e < links.len() ==> {
            let o = #[trigger] owner[e];
            &&& 0 <= o < nodes.len()
            &&& firsts[o] <= e < firsts[o] + nodes[o].edges@.len()
        }
    &&& forall|i: int, e: int|
        0 <= i < nodes.len() && firsts[i] <= e < firsts[i] + (#[trigger] nodes[i]).edges@.len() ==> #[trigger] owner[e] == i
    &&& forall|e: int|
        0 <= e < links.len() ==> match #[trigger] links[e] {
            Some(c) => c < nodes.len(),
            None => exists|w: int| 0 <= w < work.len() && #[trigger] enters(work[w], e as usize),
        }
    &&& forall|w: int|
        0 <= w < work.len() ==> match #[trigger] work[w] {
            Step::Exit(i) => i < nodes.len() && !done[i as int] && xpos[i as int] == w,
            Step::Enter { from, .. } => match from {
                Some(e) => e < links.len() && links[e as int] is None && !done[owner[e as int]] && xpos[owner[e as int]] < w,
                None => true,
            },
        }
    &&& forall|w1: int, w2: int, e: usize|
        0 <= w1 < work.len() && 0 <= w2 < work.len() && #[trigger] enters(work[w1], e) && #[trigger] enters(work[w2], e) ==> w1 == w2
    &&& forall|i: int| 0 <= i < nodes.len() && !(#[trigger] done[i]) ==> 0 <= xpos[i] < work.len() && work[xpos[i]] == Step::Exit(i as usize)
    &&& forall|e: int|
        0 <= e < links.len() && !done[owner[e]] ==> match #[trigger] links[e] {
            Some(c) => done[c as int] || xpos[c as int] > xpos[owner[e]],
            None => true,
        }
    &&& forall|k: int| 0 <= k < order.len() ==> #[trigger] order[k] < nodes.len() && done[order[k] as int] && opos[order[k] as int] == k
    &&& forall|i: int| 0 <= i < nodes.len() && #[trigger] done[i] ==> 0 <= opos[i] < order.len() && order[opos[i]] == i
    &&& forall|e: int|
        0 <= e < links.len() && done[owner[e]] ==> match #[trigger] links[e] {
            Some(c) => done[c as int] && opos[c as int] < opos[owner[e]],
            None => false,
        }
    &&& forall|i: int|
        0 <= i < nodes.len() ==> by_hash.contains_key(text_hash((#[trigger] nodes[i]).content@)) && by_hash[text_hash(nodes[i].content@)] == i
    &&& forall|h: Seq<char>| #[trigger] by_hash.contains_key(h) ==> by_hash[h] < nodes.len()
    &&& nodes.len() > 0 ==> nodes[0].path@ == root
    &&& nodes.len() == 0 ==> work.len() == 1 && (work[0] matches Step::Enter { path, from: None } && path@ == root)
    &&& forall|i: int| 0 <= i < nodes.len() ==> #[trigger] node_parsed(nodes[i])
    &&& nodes.len() > 0 && !done[0] ==> xpos[0] == 0
    &&& nodes.len() > 0 && done[0] ==> work.len() == 0 && order.len() > 0 && order.last() == 0
}

/// The facts of the walk that its steps read: the hashes of its sources, that
/// they parsed, where unfinished sources wait, and what the top step is.
proof fn lemma_inv_facts(
    root: Seq<char>,
    nodes: Seq<SourceNode>,
    firsts: Seq<usize>,
    done: Seq<bool>,
    links: Seq<Option<usize>>,
    owner: Seq<int>,
    xpos: Seq<int>,
    opos: Seq<int>,
    order: Seq<usize>,
    work: Seq<Step>,
    by_hash: Map<Seq<char>, usize>,
)
    requires
        walk_inv(root, nodes, firsts, done, links, owner, xpos, opos, order, work, by_hash),
    ensures
        forall|i: int|
            0 <= i < nodes.len() ==> by_hash.contains_key(text_hash((#[trigger] nodes[i]).content@)) && by_hash[text_hash(nodes[i].content@)] == i,
        forall|i: int| 0 <= i < nodes.len() ==> #[trigger] node_parsed(nodes[i]),
        forall|i: int| 0 <= i < nodes.len() && !(#[trigger] done[i]) ==> 0 <= xpos[i] < work.len() && work[xpos[i]] == Step::Exit(i as usize),
        nodes.len() == 0 ==> work.len() == 1,
        work.len() > 0 ==> match work.last() {
            Step::Exit(i) => i < nodes.len() && !done[i as int] && xpos[i as int] == work.len() - 1,
            Step::Enter { from, .. } => match from {
                Some(e) => e < links.len() && links[e as int] is None && !done[owner[e as int]] && xpos[owner[e as int]] < work.len() - 1,
                None => true,
            },
        },
{
    reveal(walk_inv);
    if work.len() > 0 {
        assert(work[work.len() - 1] == work.last());
    }
}

/// The walk after it finishes source `i`.
proof fn lemma_inv_exit(
    root: Seq<char>,
    nodes: Seq<SourceNode>,
    firsts: Seq<usize>,
    d0: Seq<bool>,
    links: Seq<Option<usize>>,
    owner: Seq<int>,
    xpos: Seq<int>,
    op0: Seq<int>,
    ord0: Seq<usize>,
    w0: Seq<Step>,
    by_hash: Map<Seq<char>, usize>,
    i: usize,
)
    requires
        walk_inv(root, nodes, firsts, d0, links, owner, xpos, op0, ord0, w0, by_hash),
        w0.len() > 0,
        w0.last() == Step::Exit(i),
    ensures
        walk_inv(
            root,
            nodes,
            firsts,
            d0.update(i as int, true),
            links,
            owner,
            xpos,
            op0.update(i as int, ord0.len() as int),
            ord0.push(i),
            w0.drop_last(),
            by_hash,
        ),
{
    reveal(walk_inv);
    let top = w0.len() - 1;
    assert(w0[top] == Step::Exit(i));
    let done = d0.update(i as int, true);
    let order = ord0.push(i);
    let opos = op0.update(i as int, ord0.len() as int);
    let work = w0.drop_last();
    assert(i < nodes.len() && !d0[i as int] && xpos[i as int] == top);
    if i == 0 {
        assert(work.len() == 0);
    } else if !done[0] {
        assert(!d0[0]);
    }
    assert forall|e: int| 0 <= e < links.len() && #[trigger] links[e] is None implies exists|w: int|
        0 <= w < work.len() && #[trigger] enters(work[w], e as usize) by {
        let w = choose|w: int| 0 <= w < w0.len() && #[trigger] enters(w0[w], e as usize);
        assert(w != top);
        assert(work[w] == w0[w]);
    }
    assert forall|w: int| 0 <= w < work.len() implies match #[trigger] work[w] {
        Step::Exit(j) => j < nodes.len() && !done[j as int] && xpos[j as int] == w,
        Step::Enter { from, .. } => match from {
            Some(e) => e < links.len() && links[e as int] is None && !done[owner[e as int]] && xpos[owner[e as int]] < w,
            None => true,
        },
    } by {
        assert(work[w] == w0[w]);
        match w0[w] {
            Step::Exit(j) => {
                assert(j != i);
            },
            Step::Enter { from, .. } => match from {
                Some(e) => {
                    assert(owner[e as int] != i);
                },
                None => {},
            },
        }
    }
    assert forall|w1: int, w2: int, e: usize|
        0 <= w1 < work.len() && 0 <= w2 < work.len() && #[trigger] enters(work[w1], e) && #[trigger] enters(work[w2], e) implies w1 == w2 by {
        assert(work[w1] == w0[w1]);
        assert(work[w2] == w0[w2]);
        assert(enters(w0[w1], e) && enters(w0[w2], e));
    }
    assert forall|j: int| 0 <= j < nodes.len() && !(#[trigger] done[j]) implies 0 <= xpos[j] < work.len()
        && work[xpos[j]] == Step::Exit(j as usize) by {
        assert(j != i);
        assert(!d0[j]);
        assert(0 <= xpos[j] < w0.len());
        assert(w0[xpos[j]] == Step::Exit(j as usize));
        assert(xpos[j] != top) by {
            if xpos[j] == top {
                assert(w0[top] == Step::Exit(i));
                assert(j == i);
            }
        }
        assert(work[xpos[j]] == w0[xpos[j]]);
    }
    assert forall|e: int| 0 <= e < links.len() && !done[owner[e]] implies match #[trigger] links[e] {
        Some(c) => done[c as int] || xpos[c as int] > xpos[owner[e]],
        None => true,
    } by {
        assert(owner[e] != i);
        assert(!d0[owner[e]]);
    }
    assert forall|k: int| 0 <= k < order.len() implies #[trigger] order[k] < nodes.len() && done[order[k] as int]
        && opos[order[k] as int] == k by {
        if k < ord0.len() {
            assert(order[k] == ord0[k]);
            assert(d0[ord0[k] as int]);
            assert(ord0[k] != i);
        }
    }
    assert forall|j: int| 0 <= j < nodes.len() && #[trigger] done[j] implies 0 <= opos[j] < order.len() && order[opos[j]] == j by {
        if j != i {
            assert(d0[j]);
            assert(order[opos[j]] == ord0[opos[j]]);
        }
    }
    assert forall|e: int| 0 <= e < links.len() && done[owner[e]] implies match #[trigger] links[e] {
        Some(c) => done[c as int] && opos[c as int] < opos[owner[e]],
        None => false,
    } by {
        if owner[e] == i {
            if links[e] is None {
                let w = choose|w: int| 0 <= w < w0.len() && #[trigger] enters(w0[w], e as usize);
                assert(xpos[i as int] < w);
            } else {
                let c = links[e]->0;
                assert(d0[c as int] || xpos[c as int] > top);
                if !d0[c as int] {
                    assert(xpos[c as int] < w0.len());
                }
                assert(c != i);
            }
        } else {
            assert(d0[owner[e]]);
        }
    }
}

/// The links after import edge `from` (if any) is pointed at source `idx`.
spec fn link_set(links: Seq<Option<usize>>, from: Option<usize>, idx: int) -> Seq<Option<usize>> {
    match from {
        Some(e) => links.update(e as int, Some(idx as usize)),
        None => links,
    }
}

/// The walk after an entry reaches a finished source `idx` again.
proof fn lemma_inv_link(
    root: Seq<char>,
    nodes: Seq<SourceNode>,
    firsts: Seq<usize>,
    done: Seq<bool>,
    l0: Seq<Option<usize>>,
    owner: Seq<int>,
    xpos: Seq<int>,
    opos: Seq<int>,
    order: Seq<usize>,
    w0: Seq<Step>,
    by_hash: Map<Seq<char>, usize>,
    path: String,
    from: Option<usize>,
    idx: int,
)
    requires
        walk_inv(root, nodes, firsts, done, l0, owner, xpos, opos, order, w0, by_hash),
        w0.len() > 0,
        w0.last() == (Step::Enter { path, from }),
        0 <= idx < nodes.len(),
        done[idx],
    ensures
        walk_inv(root, nodes, firsts, done, link_set(l0, from, idx), owner, xpos, opos, order, w0.drop_last(), by_hash),
{
    reveal(walk_inv);
    let top = w0.len() - 1;
    assert(w0[top] == w0.last());
    let links = link_set(l0, from, idx);
    let work = w0.drop_last();
    if nodes.len() > 0 && done[0] {
        assert(w0.len() == 0);
    }
    assert forall|e: int| 0 <= e < links.len() && #[trigger] links[e] is None implies exists|w: int|
        0 <= w < work.len() && #[trigger] enters(work[w], e as usize) by {
        assert(l0[e] is None);
        let w = choose|w: int| 0 <= w < w0.len() && #[trigger] enters(w0[w], e as usize);
        assert(w != top);
        assert(work[w] == w0[w]);
    }
    assert forall|w: int| 0 <= w < work.len() implies match #[trigger] work[w] {
        Step::Exit(j) => j < nodes.len() && !done[j as int] && xpos[j as int] == w,
        Step::Enter { from, .. } => match from {
            Some(e) => e < links.len() && links[e as int] is None && !done[owner[e as int]] && xpos[owner[e as int]] < w,
            None => true,
        },
    } by {
        assert(work[w] == w0[w]);
        match w0[w] {
            Step::Enter { from: f2, .. } => match f2 {
                Some(e2) => {
                    assert(enters(w0[w], e2));
                    if from == Some(e2) {
                        assert(enters(w0[top], e2));
                    }
                },
                None => {},
            },
            _ => {},
        }
    }
    assert forall|w1: int, w2: int, e: usize|
        0 <= w1 < work.len() && 0 <= w2 < work.len() && #[trigger] enters(work[w1], e) && #[trigger] enters(work[w2], e) implies w1 == w2 by {
        assert(work[w1] == w0[w1]);
        assert(work[w2] == w0[w2]);
    }
    assert forall|j: int| 0 <= j < nodes.len() && !(#[trigger] done[j]) implies 0 <= xpos[j] < work.len()
        && work[xpos[j]] == Step::Exit(j as usize) by {
        assert(w0[xpos[j]] == Step::Exit(j as usize));
        assert(xpos[j] != top);
        assert(work[xpos[j]] == w0[xpos[j]]);
    }
    assert forall|e: int| 0 <= e < links.len() && done[owner[e]] implies match #[trigger] links[e] {
        Some(c) => done[c as int] && opos[c as int] < opos[owner[e]],
        None => false,
    } by {
        if from == Some(e as usize) {
            assert(!done[owner[e]]);
        }
        assert(links[e] == l0[e]);
    }
    assert forall|e: int| 0 <= e < links.len() && !done[owner[e]] implies match #[trigger] links[e] {
        Some(c) => done[c as int] || xpos[c as int] > xpos[owner[e]],
        None => true,
    } by {
        if from != Some(e as usize) {
            assert(links[e] == l0[e]);
        }
    }
    assert forall|e: int| 0 <= e < links.len() implies match #[trigger] links[e] {
        Some(c) => c < nodes.len(),
        None => exists|w: int| 0 <= w < work.len() && #[trigger] enters(work[w], e as usize),
    } by {
        if from != Some(e as usize) {
            assert(links[e] == l0[e]);
        }
    }
}

/// The walk after an entry reads and parses a new source `node`, whose
/// imports `ps` are pushed as entries above its `Exit`.
#[verifier::rlimit(50)]
proof fn lemma_inv_new(
    root: Seq<char>,
    n0: Seq<SourceNode>,
    f0: Seq<usize>,
    d0: Seq<bool>,
    l0: Seq<Option<usize>>,
    own0: Seq<int>,
    xp0: Seq<int>,
    op0: Seq<int>,
    order: Seq<usize>,
    w0: Seq<Step>,
    bh0: Map<Seq<char>, usize>,
    path: String,
    from: Option<usize>,
    node: SourceNode,
    ps: Seq<String>,
    nodes: Seq<SourceNode>,
    firsts: Seq<usize>,
    done: Seq<bool>,
    links: Seq<Option<usize>>,
    owner: Seq<int>,
    xpos: Seq<int>,
    opos: Seq<int>,
    work: Seq<Step>,
    by_hash: Map<Seq<char>, usize>,
)
    requires
        walk_inv(root, n0, f0, d0, l0, own0, xp0, op0, order, w0, bh0),
        w0.len() > 0,
        w0.last() == (Step::Enter { path, from }),
        from is None ==> n0.len() == 0,
        n0.len() < usize::MAX,
        !bh0.contains_key(text_hash(node.content@)),
        node_parsed(node),
        node.path@ == path@,
        node.edges@.len() == ps.len(),
        l0.len() + ps.len() <= usize::MAX,
        nodes == n0.push(node),
        firsts == f0.push(l0.len() as usize),
        done == d0.push(false),
        owner == own0 + Seq::new(ps.len(), |k: int| n0.len() as int),
        xpos == xp0.push(w0.len() - 1),
        opos == op0.push(0),
        by_hash == bh0.insert(text_hash(node.content@), n0.len() as usize),
        links.len() == l0.len() + ps.len(),
        forall|e: int| 0 <= e < l0.len() ==> #[trigger] links[e] == link_set(l0, from, n0.len() as int)[e],
        forall|e: int| l0.len() <= e < links.len() ==> #[trigger] links[e] is None,
        work.len() == w0.len() + ps.len(),
        forall|w: int| 0 <= w < w0.len() - 1 ==> #[trigger] work[w] == w0[w],
        work[w0.len() - 1] == Step::Exit(n0.len() as usize),
        forall|k: int|
            0 <= k < ps.len() ==> #[trigger] work[w0.len() + ps.len() - 1 - k] == (Step::Enter {
                path: ps[k],
                from: Some((l0.len() + k) as usize),
            }),
    ensures
        walk_inv(root, nodes, firsts, done, links, owner, xpos, opos, order, work, by_hash),
{
    reveal(walk_inv);
    let idx = n0.len() as int;
    let first = l0.len() as int;
    let n = ps.len() as int;
    let top = w0.len() - 1;
    let l1 = link_set(l0, from, idx);
    let node_hash = text_hash(node.content@);
    assert(w0[top] == w0.last());
    assert(nodes[idx] == node);
    if n0.len() == 0 {
        assert(w0.len() == 1);
        assert(nodes[0].path@ == root);
    } else {
        assert(nodes[0] == n0[0]);
    }
    assert forall|j: int| 0 <= j < nodes.len() implies #[trigger] node_parsed(nodes[j]) by {
        if j < idx {
            assert(nodes[j] == n0[j]);
        }
    }
    assert forall|i: int| 0 <= i < nodes.len() implies by_hash.contains_key(text_hash((#[trigger] nodes[i]).content@))
        && by_hash[text_hash(nodes[i].content@)] == i by {
        if i < idx {
            assert(nodes[i] == n0[i]);
            assert(text_hash(n0[i].content@) != node_hash);
        }
    }
    assert forall|h: Seq<char>| #[trigger] by_hash.contains_key(h) implies by_hash[h] < nodes.len() by {
        if h != node_hash {
            assert(bh0.contains_key(h));
        }
    }
    assert forall|i: int| 0 <= i < nodes.len() implies #[trigger] firsts[i] + nodes[i].edges@.len() <= links.len() by {
        if i < idx {
            assert(nodes[i] == n0[i]);
            assert(firsts[i] == f0[i]);
        }
    }
    assert forall|e: int| 0 <= e < links.len() implies {
        let o = #[trigger] owner[e];
        &&& 0 <= o < nodes.len()
        &&& firsts[o] <= e < firsts[o] + nodes[o].edges@.len()
    } by {
        if e < first {
            assert(owner[e] == own0[e]);
            assert(nodes[own0[e]] == n0[own0[e]]);
            assert(firsts[own0[e]] == f0[own0[e]]);
        } else {
            assert(owner[e] == idx);
        }
    }
    assert forall|i: int, e: int|
        0 <= i < nodes.len() && firsts[i] <= e < firsts[i] + (#[trigger] nodes[i]).edges@.len() implies #[trigger] owner[e] == i by {
        if i < idx {
            assert(nodes[i] == n0[i]);
            assert(firsts[i] == f0[i]);
            assert(owner[e] == own0[e]);
        }
    }
    assert forall|e: int| 0 <= e < links.len() implies match #[trigger] links[e] {
        Some(c) => c < nodes.len(),
        None => exists|w: int| 0 <= w < work.len() && #[trigger] enters(work[w], e as usize),
    } by {
        if e < first {
            assert(links[e] == l1[e]);
            if l1[e] is None {
                assert(l0[e] is None);
                let w = choose|w: int| 0 <= w < w0.len() && #[trigger] enters(w0[w], e as usize);
                assert(w != top);
                assert(work[w] == w0[w]);
            }
        } else {
            let k = e - first;
            let w = w0.len() + n - 1 - k;
            assert(work[w] == (Step::Enter { path: ps[k], from: Some((first + k) as usize) }));
            assert(enters(work[w], e as usize));
        }
    }
    assert forall|w: int| 0 <= w < work.len() implies match #[trigger] work[w] {
        Step::Exit(j) => j < nodes.len() && !done[j as int] && xpos[j as int] == w,
        Step::Enter { from, .. } => match from {
            Some(e) => e < links.len() && links[e as int] is None && !done[owner[e as int]] && xpos[owner[e as int]] < w,
            None => true,
        },
    } by {
        if w < top {
            assert(work[w] == w0[w]);
            match w0[w] {
                Step::Enter { from: f2, .. } => match f2 {
                    Some(e2) => {
                        assert(enters(w0[w], e2));
                        if from == Some(e2) {
                            assert(enters(w0[top], e2));
                        }
                        assert(owner[e2 as int] == own0[e2 as int]);
                        assert(links[e2 as int] == l1[e2 as int]);
                    },
                    None => {},
                },
                Step::Exit(j) => {
                    assert(j < idx);
                },
            }
        } else if w == top {
            assert(work[w] == Step::Exit(idx as usize));
        } else {
            let k = w0.len() + n - 1 - w;
            assert(work[w0.len() + n - 1 - k] == (Step::Enter { path: ps[k], from: Some((first + k) as usize) }));
            assert(owner[first + k] == idx);
        }
    }
    assert forall|w1: int, w2: int, e: usize|
        0 <= w1 < work.len() && 0 <= w2 < work.len() && #[trigger] enters(work[w1], e) && #[trigger] enters(work[w2], e) implies w1 == w2 by {
        if w1 < top {
            assert(work[w1] == w0[w1]);
        } else if w1 > top {
            let k = w0.len() + n - 1 - w1;
            assert(work[w0.len() + n - 1 - k] == (Step::Enter { path: ps[k], from: Some((first + k) as usize) }));
        }
        if w2 < top {
            assert(work[w2] == w0[w2]);
        } else if w2 > top {
            let k = w0.len() + n - 1 - w2;
            assert(work[w0.len() + n - 1 - k] == (Step::Enter { path: ps[k], from: Some((first + k) as usize) }));
        }
        if w1 < top && w2 < top {
            assert(enters(w0[w1], e) && enters(w0[w2], e));
        }
    }
    assert forall|j: int| 0 <= j < nodes.len() && !(#[trigger] done[j]) implies 0 <= xpos[j] < work.len()
        && work[xpos[j]] == Step::Exit(j as usize) by {
        if j < idx {
            assert(!d0[j]);
            assert(w0[xp0[j]] == Step::Exit(j as usize));
            assert(xp0[j] != top);
            assert(work[xpos[j]] == w0[xpos[j]]);
        }
    }
    assert forall|e: int| 0 <= e < links.len() && !done[owner[e]] implies match #[trigger] links[e] {
        Some(c) => done[c as int] || xpos[c as int] > xpos[owner[e]],
        None => true,
    } by {
        if e < first {
            assert(owner[e] == own0[e]);
            if from == Some(e as usize) {
                assert(xpos[owner[e]] < top);
            } else {
                assert(links[e] == l0[e]);
                if l0[e] is Some {
                    let c = l0[e]->0;
                    assert(c < idx);
                }
            }
        }
    }
    assert forall|k: int| 0 <= k < order.len() implies #[trigger] order[k] < nodes.len() && done[order[k] as int]
        && opos[order[k] as int] == k by {
        assert(order[k] < idx);
    }
    assert forall|j: int| 0 <= j < nodes.len() && #[trigger] done[j] implies 0 <= opos[j] < order.len() && order[opos[j]] == j by {
        assert(j < idx);
    }
    assert forall|e: int| 0 <= e < links.len() && done[owner[e]] implies match #[trigger] links[e] {
        Some(c) => done[c as int] && opos[c as int] < opos[owner[e]],
        None => false,
    } by {
        if e < first {
            assert(owner[e] == own0[e]);
            if from == Some(e as usize) {
                assert(!d0[own0[e]]);
            }
            assert(links[e] == l0[e]);
            let c = l0[e]->0;
            assert(c < idx);
        } else {
            assert(owner[e] == idx);
        }
    }
    if idx > 0 && done[0] {
        assert(d0[0]);
    }
}

/// What a loaded source is to the walk.
pub enum Arrival {
    /// The walk stops with this error.
    Failed(CompileError),
    /// The text is that of the finished source with this index.
    Seen(usize),
    /// A source not met before: its text, the text's hash, its statements and
    /// its domain.
    Fresh { content: String, hash: String, program: crate::ast::Program, domain: String },
}

/// What the walk makes of the outcome of loading `path`, given the hashes of
/// the sources met so far and which of them are finished: a load error stops
/// it with that error; a text met before is that source again if it is
/// finished, and otherwise an import cycle (`CircularImport` naming `path`);
/// a new text must parse and declare exactly one `DOMAIN`, else it is refused
/// (`text_refused`) and its error stops the walk.
pub fn arrive(path: &String, loaded: Result<String, CompileError>, by_hash: &StrTable<usize>, done: &Vec<bool>) -> (r: Arrival)
    requires
        forall|h: Seq<char>| #[trigger] by_hash@.contains_key(h) ==> by_hash@[h] < done@.len(),
    ensures
        match loaded {
            Err(e) => r == Arrival::Failed(e),
            Ok(t) => if by_hash@.contains_key(text_hash(t@)) {
                let i = by_hash@[text_hash(t@)];
                if done@[i as int] {
                    r == Arrival::Seen(i)
                } else {
                    r matches Arrival::Failed(CompileError::CircularImport(q)) && q@ == path@
                }
            } else {
                match r {
                    Arrival::Fresh { content, hash, program, domain } => {
                        &&& content@ == t@
                        &&& hash@ == text_hash(t@)
                        &&& crate::ast::wf_program(program)
                        &&& program_ok(t@, program.statements@)
                        &&& crate::compiler::domain_count(program.statements@) == 1
                        &&& crate::compiler::first_domain(program.statements@) == Some(domain@)
                    },
                    Arrival::Failed(e) => text_refused(path@, t@, e),
                    Arrival::Seen(_) => false,
                }
            },
        },
{
    let content = match loaded {
        Ok(t) => t,
        Err(e) => {
            return Arrival::Failed(e);
        },
    };
    let hash = hash_text(&content);
    let seen: Option<usize> = match by_hash.get(hash.as_str()) {
        Some(ix) => Some(*ix),
        None => None,
    };
    match seen {
        Some(idx) => {
            if done[idx] {
                Arrival::Seen(idx)
            } else {
                Arrival::Failed(CompileError::CircularImport(path.clone()))
            }
        },
        None => {
            let program = match parse_tagged(path, content.as_str()) {
                Ok(p) => p,
                Err(e) => {
                    return Arrival::Failed(e);
                },
            };
            match extract_domain(&program, path) {
                Ok(domain) => Arrival::Fresh { content, hash, program, domain },
                Err(e) => {
                    proof {
                        assert(program_ok(content@, program.statements@));
                    }
                    Arrival::Failed(e)
                },
            }
        },
    }
}

/// Every source reachable from `root` through `IMPORT`s, each distinct text
/// once (sources are identified by content hash, so a diamond or a repeated
/// import is visited once), with each edge pointing at the source it reached,
/// and the sources listed in the order their walk finished (imports before
/// importers). The walk is iterative: depth is bounded by memory, not by the
/// call stack. An import that reaches a source still being walked is a
/// `CircularImport` naming the path. A walk longer than `u64::MAX` steps is
/// reported the same way for the root. Each path is loaded once per entry and
/// what came back is judged by [`arrive`]; the walk fails exactly for a
/// reason `walk_failed` gives.
#[verifier::spinoff_prover]
#[verifier::rlimit(100)]
pub fn discover<R: Resolver>(root: &str, resolver: &R) -> (r: Result<(Vec<SourceNode>, Vec<usize>), CompileError>)
    ensures
        r matches Ok((nodes, order)) ==> {
            &&& graph_closed(nodes@, order@)
            &&& walk_order(nodes@, order@)
            &&& hashes_distinct(nodes@)
            &&& nodes@.len() >= 1
            &&& nodes@[0].path@ == root@
            &&& order@.last() == 0
            &&& forall|i: int| 0 <= i < nodes@.len() ==> #[trigger] node_parsed(nodes@[i])
            &&& forall|i: int|
                0 <= i < nodes@.len() ==> exists|ch: Seq<(Seq<char>, Seq<char>)>|
                    #[trigger] reach_chain(resolver, root@, ch) && ch.last() == ((#[trigger] nodes@[i]).path@, nodes@[i].content@)
        },
        r matches Err(e) ==> walk_failed(resolver, root@, e),
        (forall|e: CompileError| !#[trigger] walk_failed(resolver, root@, e)) ==> r is Ok,
{
    let mut nodes: Vec<SourceNode> = Vec::new();
    let mut firsts: Vec<usize> = Vec::new();
    let mut done: Vec<bool> = Vec::new();
    let mut links: Vec<Option<usize>> = Vec::new();
    let mut by_hash: StrTable<usize> = StrTable::new();
    let mut order: Vec<usize> = Vec::new();
    let mut work: Vec<Step> = Vec::new();
    work.push(Step::Enter { path: string_of(root), from: None });
    let mut fuel: u64 = u64::MAX;
    // owner[e]: the source whose import edge `e` is; xpos[i]: where the `Exit`
    // of an unfinished source sits on the stack; opos[i]: where a finished
    // source sits in `order`.
    let ghost mut owner: Seq<int> = Seq::empty();
    let ghost mut xpos: Seq<int> = Seq::empty();
    let ghost mut opos: Seq<int> = Seq::empty();
    // anc[i]: the sources on the chain that led to source `i`, root first.
    let ghost mut anc: Seq<Seq<int>> = Seq::empty();
    proof {
        assert(edge_lens(nodes@) =~= Seq::<nat>::empty());
        reveal(walk_ghost);
        reveal(walk_inv);
    }
    while work.len() > 0
        invariant
            walk_ghost(resolver, root@, nodes@, anc, done@, xpos, owner, work@, by_hash@, links@.len() as int, fuel as int),
            walk_inv(root@, nodes@, firsts@, done@, links@, owner, xpos, opos, order@, work@, by_hash@),
            owner.len() == links@.len(),
            nodes@.len() == firsts@.len(),
            nodes@.len() == done@.len(),
            nodes@.len() == xpos.len(),
            nodes@.len() == opos.len(),
            links@.len() <= usize::MAX,
            forall|h: Seq<char>| #[trigger] by_hash@.contains_key(h) ==> by_hash@[h] < nodes@.len(),
        decreases fuel,
    {
        proof {
            lemma_inv_facts(root@, nodes@, firsts@, done@, links@, owner, xpos, opos, order@, work@, by_hash@);
        }
        if fuel == 0 {
            proof {
                lemma_ghost_exhausted(resolver, root@, nodes@, anc, done@, xpos, owner, work@, by_hash@, links@.len() as int);
            }
            let e = CompileError::CircularImport(string_of(root));
            proof {
                assert(walk_failed(resolver, root@, e));
            }
            return Err(e);
        }
        let ghost fu0 = fuel as int;
        fuel = fuel - 1;
        let ghost w0 = work@;
        let step = match work.pop() {
            Some(s) => s,
            None => {
                return Err(CompileError::CircularImport(string_of(root)));
            },
        };
        proof {
            assert(step == w0.last());
            assert(work@ == w0.drop_last());
        }
        match step {
            Step::Exit(i) => {
                let ghost d0 = done@;
                let ghost ord0 = order@;
                let ghost op0 = opos;
                done.set(i, true);
                order.push(i);
                proof {
                    lemma_ghost_exit(resolver, root@, nodes@, anc, d0, xpos, owner, w0, by_hash@, links@.len() as int, fu0, i as int);
                    lemma_inv_exit(root@, nodes@, firsts@, d0, links@, owner, xpos, op0, ord0, w0, by_hash@, i);
                    opos = op0.update(i as int, ord0.len() as int);
                    assert(done@ == d0.update(i as int, true));
                    assert(order@ == ord0.push(i));
                }
            },
            Step::Enter { path, from } => {
                let ghost ch = entry_chain(nodes@, anc, owner, from);
                proof {
                    lemma_ghost_entry(resolver, root@, nodes@, anc, done@, xpos, owner, w0, by_hash@, links@.len() as int, fu0, path, from);
                }
                let loaded = resolver.load(path.as_str());
                let ghost lv = text_result(loaded);
                proof {
                    assert(resolver.loads(path@, lv));
                    lemma_inv_facts(root@, nodes@, firsts@, done@, links@, owner, xpos, opos, order@, w0, by_hash@);
                }
                match arrive(&path, loaded, &by_hash, &done) {
                    Arrival::Failed(e) => {
                        proof {
                            match lv {
                                Ok(t) => {
                                    if by_hash@.contains_key(text_hash(t)) {
                                        let idx = by_hash@[text_hash(t)];
                                        assert(0 <= xpos[idx as int] < w0.len() && w0[xpos[idx as int]] == Step::Exit(idx));
                                        assert(xpos[idx as int] != w0.len() - 1);
                                        if !done@[idx as int] {
                                            lemma_ghost_cycle(resolver, root@, nodes@, anc, done@, xpos, owner, w0, by_hash@, links@.len() as int, fu0, path, from, t, idx as int, e);
                                        }
                                    } else {
                                        assert(text_refused(path@, t, e));
                                        assert(resolver.loads(path@, Ok(t)));
                                    }
                                },
                                Err(e0) => {
                                    assert(e0 == e);
                                    assert(resolver.loads(path@, Err(e)));
                                },
                            }
                            assert(walk_failed(resolver, root@, e));
                        }
                        return Err(e);
                    },
                    Arrival::Seen(idx) => {
                        let ghost l0 = links@;
                        match from {
                            Some(e) => {
                                links.set(e, Some(idx));
                            },
                            None => {},
                        }
                        proof {
                            lemma_ghost_link(resolver, root@, nodes@, anc, done@, xpos, owner, w0, by_hash@, l0.len() as int, fu0);
                            lemma_inv_link(root@, nodes@, firsts@, done@, l0, owner, xpos, opos, order@, w0, by_hash@, path, from, idx as int);
                            assert(links@ == link_set(l0, from, idx as int));
                        }
                    },
                    Arrival::Fresh { content, hash, program, domain } => {
                        proof {
                            assert(resolver.loads(path@, Ok(content@)));
                        }
                        let (edges, children, used) = scan_source(resolver, &path, &program.statements);
                        let idx = nodes.len();
                        let first = links.len();
                        proof {
                            lemma_chain_extend(resolver, root@, ch, path@, content@);
                            assert(!by_hash@.contains_key(text_hash(content@)));
                            assert(children@.len() == import_edges(program.statements@).len()) by {
                                assert(edges@.map_values(|e: ImportEdge| edge_view(e)).len() == edges@.len());
                            }
                        }
                        if children.len() > usize::MAX - first {
                            proof {
                                lemma_ghost_overflow(resolver, root@, nodes@, anc, done@, xpos, owner, w0, by_hash@, links@.len() as int, fu0, path, from, content@, program.statements@, children@.len());
                            }
                            let e = CompileError::CircularImport(path);
                            proof {
                                assert(walk_failed(resolver, root@, e));
                            }
                            return Err(e);
                        }
                        let ghost xp0 = xpos;
                        let ghost op0 = opos;
                        let ghost bh0 = by_hash@;
                        let ghost lk0 = links@.len() as int;
                        let ghost l0 = links@;
                        match from {
                            Some(e) => {
                                links.set(e, Some(idx));
                            },
                            None => {},
                        }
                        let ghost l1 = links@;
                        proof {
                            assert(l1 == link_set(l0, from, idx as int));
                        }
                        push_nones(&mut links, children.len());
                        let ghost wm = work@;
                        work.push(Step::Exit(idx));
                        let ghost wx = work@;
                        push_enters(&mut work, &children, first);
                        let ghost node_hash = hash@;
                        by_hash.insert(hash, idx);
                        let ghost n0 = nodes@;
                        let ghost f0 = firsts@;
                        let ghost d0 = done@;
                        let ghost own0 = owner;
                        let ghost pst = program.statements@;
                        let ghost gpath = path;
                        let ghost gtext = content@;
                        proof {
                            assert(crate::syntax::program_ok(content@, pst));
                        }
                        nodes.push(SourceNode { path, content, domain, edges, used });
                        let nl = nodes.len();
                        proof {
                            assert(crate::syntax::program_ok(nodes@[idx as int].content@, pst));
                            assert(node_parsed(nodes@[idx as int]));
                        }
                        firsts.push(first);
                        done.push(false);
                        proof {
                            let n = children@.len();
                            owner = owner + Seq::new(n, |k: int| idx as int);
                            xpos = xpos.push(wm.len() as int);
                            opos = opos.push(0int);
                            assert(n0.len() < usize::MAX);
                            assert(nodes@ == n0.push(nodes@[idx as int]));
                            assert(node_hash == text_hash(nodes@[idx as int].content@));
                            assert forall|w: int| 0 <= w < w0.len() - 1 implies #[trigger] work@[w] == w0[w] by {
                                assert(work@[w] == wx[w]);
                                assert(wx[w] == wm[w]);
                            }
                            assert(work@[w0.len() - 1] == wx[wm.len() as int]);
                            lemma_inv_new(root@, n0, f0, d0, l0, own0, xp0, op0, order@, w0, bh0, gpath, from, nodes@[idx as int], children@,
                                nodes@, firsts@, done@, links@, owner, xpos, opos, work@, by_hash@);
                            lemma_ghost_new(resolver, root@, n0, anc, d0, xp0, own0, w0, bh0, lk0, fu0, gpath, from, gtext, pst,
                                children@.map_values(|c: String| c@), nodes@, done@, xpos, owner, work@, by_hash@);
                            anc = anc.push(new_anc(anc, own0, from, n0.len() as int));
                        }
                    },
                }
            },
        }
    }
    // every edge reached its target: build the closed graph
    proof {
        reveal(walk_inv);
        assert forall|e: int| 0 <= e < links@.len() implies match #[trigger] links@[e] {
            Some(c) => c < nodes@.len(),
            None => false,
        } by {
            if links@[e] is None {
                let w = choose|w: int| 0 <= w < work@.len() && #[trigger] enters(work@[w], e as usize);
            }
        }
        assert forall|i: int| 0 <= i < nodes@.len() implies #[trigger] done@[i] by {
            if !done@[i] {
                assert(0 <= xpos[i] < work@.len());
            }
        }
    }
    let mut out: Vec<SourceNode> = Vec::new();
    let mut i: usize = 0;
    while i < nodes.len()
        invariant
            i <= nodes@.len(),
            nodes@.len() == firsts@.len(),
            links@.len() <= usize::MAX,
            forall|j: int| 0 <= j < nodes@.len() ==> #[trigger] firsts@[j] + nodes@[j].edges@.len() <= links@.len(),
            forall|e: int| 0 <= e < links@.len() ==> match #[trigger] links@[e] {
                Some(c) => c < nodes@.len(),
                None => false,
            },
            out@.len() == i,
            forall|j: int| 0 <= j < i ==> (#[trigger] out@[j]).content@ == nodes@[j].content@ && out@[j].path@
                == nodes@[j].path@ && out@[j].edges@.len() == nodes@[j].edges@.len(),
            forall|j: int, k: int|
                0 <= j < i && 0 <= k < out@[j].edges@.len() ==> (#[trigger] out@[j].edges@[k]).child < nodes@.len()
                    && links@[firsts@[j] + k] == Some(out@[j].edges@[k].child),
            forall|j: int| 0 <= j < nodes@.len() ==> #[trigger] node_parsed(nodes@[j]),
            forall|j: int| 0 <= j < i ==> #[trigger] node_parsed(out@[j]),
        decreases nodes@.len() - i,
    {
        let n = &nodes[i];
        let mut edges: Vec<ImportEdge> = Vec::new();
        let mut k: usize = 0;
        while k < n.edges.len()
            invariant
                k <= n.edges@.len(),
                edges@.len() == k,
                i < firsts@.len(),
                links@.len() <= usize::MAX,
                firsts@[i as int] + n.edges@.len() <= links@.len(),
                forall|e: int| 0 <= e < links@.len() ==> match #[trigger] links@[e] {
                    Some(c) => c < nodes@.len(),
                    None => false,
                },
                forall|q: int| 0 <= q < edges@.len() ==> (#[trigger] edges@[q]).child < nodes@.len()
                    && links@[firsts@[i as int] + q] == Some(edges@[q].child),
                forall|q: int| 0 <= q < edges@.len() ==> edge_view(#[trigger] edges@[q]) == edge_view(n.edges@[q]),
            decreases n.edges@.len() - k,
        {
            assert(firsts@[i as int] + k < links@.len());
            let child: usize = match links[firsts[i] + k] {
                Some(c) => c,
                None => 0,
            };
            let e = &n.edges[k];
            edges.push(ImportEdge { alias: copy_opt(&e.alias), child, line: e.line });
            k = k + 1;
        }
        let mut used: Vec<Option<String>> = Vec::new();
        let mut u: usize = 0;
        while u < n.used.len()
            invariant
                u <= n.used@.len(),
                used@.len() == u,
                forall|q: int| 0 <= q < u ==> opt_view(#[trigger] used@[q]) == opt_view(n.used@[q]),
            decreases n.used@.len() - u,
        {
            used.push(copy_opt(&n.used[u]));
            u = u + 1;
        }
        let ghost ev = edges@.map_values(|e: ImportEdge| edge_view(e));
        let ghost uv = opt_views(used@);
        proof {
            assert(ev =~= n.edges@.map_values(|e: ImportEdge| edge_view(e)));
            assert(uv =~= opt_views(n.used@));
        }
        let ghost o0 = out@;
        out.push(SourceNode {
            path: n.path.clone(),
            content: n.content.clone(),
            domain: n.domain.clone(),
            edges,
            used,
        });
        proof {
            assert(node_parsed(nodes@[i as int]));
            let st = choose|st: Seq<Statement>|
                #[trigger] crate::syntax::program_ok(nodes@[i as int].content@, st) && nodes@[i as int].edges@.map_values(|e: ImportEdge| edge_view(e))
                    == import_edges(st) && crate::compiler::domain_count(st) == 1 && crate::compiler::first_domain(st)
                    == Some(nodes@[i as int].domain@) && opt_views(nodes@[i as int].used@) == used_prefixes(st);
            assert(crate::syntax::program_ok(out@[i as int].content@, st));
            assert(node_parsed(out@[i as int]));
            assert forall|j: int| 0 <= j < i + 1 implies #[trigger] node_parsed(out@[j]) by {
                if j < i {
                    assert(out@[j] == o0[j]);
                }
            }
        }
        i = i + 1;
    }
    proof {
        assert forall|a: int, b: int|
            0 <= a < out@.len() && 0 <= b < out@.len() && a != b implies text_hash((#[trigger] out@[a]).content@)
            != text_hash((#[trigger] out@[b]).content@) by {
            assert(by_hash@[text_hash(nodes@[a].content@)] == a);
            assert(by_hash@[text_hash(nodes@[b].content@)] == b);
        }
        assert forall|a: int, b: int|
            0 <= a < order@.len() && 0 <= b < order@.len() && #[trigger] order@[a] == #[trigger] order@[b] implies a == b by {
            assert(opos[order@[a] as int] == a);
            assert(opos[order@[b] as int] == b);
        }
        assert forall|a: int, k: int|
            0 <= a < order@.len() && 0 <= k < out@[order@[a] as int].edges@.len() implies exists|b: int|
                0 <= b < a && #[trigger] order@[b] == (#[trigger] out@[order@[a] as int].edges@[k]).child by {
            let j = order@[a] as int;
            let e = firsts@[j] + k;
            assert(nodes@[j].edges@.len() == out@[j].edges@.len());
            assert(owner[e] == j);
            assert(done@[j]);
            let c = out@[j].edges@[k].child;
            assert(links@[e] == Some(c));
            assert(opos[c as int] < opos[j]);
            assert(opos[j] == a);
            assert(order@[opos[c as int]] == c);
        }
    }
    assert(graph_closed(out@, order@));
    assert(walk_order(out@, order@)) by {
        let nd = out@;
        let od = order@;
        assert(forall|a: int, b: int|
            0 <= a < od.len() && 0 <= b < od.len() && #[trigger] od[a] == #[trigger] od[b] ==> a == b);
        assert forall|i: int| 0 <= i < nd.len() implies #[trigger] listed(od, i) by {
            assert(done@[i]);
            assert(0 <= opos[i] < od.len());
            assert(od[opos[i]] == i);
        }
        assert(forall|a: int, k: int|
            0 <= a < od.len() && 0 <= k < nd[od[a] as int].edges@.len() ==> exists|b: int|
                0 <= b < a && #[trigger] od[b] == (#[trigger] nd[od[a] as int].edges@[k]).child);
    }
    assert(hashes_distinct(out@));
    proof {
        lemma_ghost_chains(resolver, root@, nodes@, anc, done@, xpos, owner, work@, by_hash@, links@.len() as int, fuel as int);
        assert forall|i: int| 0 <= i < out@.len() implies exists|ch: Seq<(Seq<char>, Seq<char>)>|
            #[trigger] reach_chain(resolver, root@, ch) && ch.last() == ((#[trigger] out@[i]).path@, out@[i].content@) by {
            assert(nodes@[i].path@ == out@[i].path@ && nodes@[i].content@ == out@[i].content@);
        }
    }
    assert(out@.len() >= 1);
    assert(out@[0].path@ == root@);
    Ok((out, order))
}

// --- compiling a graph ------------------------------------------------------------

/// Adding the resolved file `f` took `o` to `n`.
pub(crate) open spec fn file_added(o: Compiler, n: Compiler, f: ResolvedFile) -> bool {
    exists|stmts: Seq<Statement>, cs: Seq<Compiler>|
        #[trigger] crate::compiler::file_applied(o, n, f.path@, f.content@, f.ctx, stmts, cs)
}

/// Compiling `files` against `inputs` gave `c`: starting from a fresh
/// compiler, the files were added in order (through `ss`), the values were
/// checked against the closed sets, the ports were resolved (to `s2`, with
/// `c`'s placeholders), and `c` is what `s2` lowers to.
pub closed spec fn files_compiled(
    files: Seq<ResolvedFile>,
    inputs: Seq<(String, PortBinding)>,
    ss: Seq<Compiler>,
    s2: Compiler,
    c: Compiled,
) -> bool {
    &&& ss.len() == files.len() + 1
    &&& ss[0].fresh()
    &&& forall|i: int| 0 <= i < files.len() ==> #[trigger] file_added(ss[i], ss[i + 1], files[i])
    &&& ss.last().closed_world()
    &&& ss.last().ports_resolved(s2, inputs, c.placeholders@)
    &&& s2.lowered_to(c)
}

/// The first `k` files were added in order to a fresh compiler, through `ss`.
pub(crate) open spec fn files_added(files: Seq<ResolvedFile>, ss: Seq<Compiler>, k: int) -> bool {
    &&& 0 <= k <= files.len()
    &&& ss.len() == k + 1
    &&& ss[0].fresh()
    &&& forall|i: int| 0 <= i < k ==> #[trigger] file_added(ss[i], ss[i + 1], files[i])
}

/// Why compiling `files` against `inputs` failed with `e`: after the files
/// before it were added, one file could not be added; or, all added, a
/// variable takes a value outside its closed set; or, with the closed world
/// intact, the ports could not be resolved.
pub closed spec fn files_rejected(files: Seq<ResolvedFile>, inputs: Seq<(String, PortBinding)>, e: CompileError) -> bool {
    ||| exists|ss: Seq<Compiler>, n: Compiler, k: int|
        #![trigger files_added(files, ss, k), crate::compiler::file_failed(ss.last(), n, files[k].path@, files[k].content@, files[k].ctx, e)]
        files_added(files, ss, k) && k < files.len() && crate::compiler::file_failed(
            ss.last(),
            n,
            files[k].path@,
            files[k].content@,
            files[k].ctx,
            e,
        )
    ||| exists|ss: Seq<Compiler>| #[trigger] files_added(files, ss, files.len() as int) && crate::compiler::world_rejected(ss.last(), e)
    ||| exists|ss: Seq<Compiler>|
        #[trigger] files_added(files, ss, files.len() as int) && ss.last().closed_world() && crate::compiler::ports_rejected(
            ss.last(),
            inputs,
            e,
        )
}

/// Every file's text is blank: it holds no statement at all.
pub open spec fn all_blank(files: Seq<ResolvedFile>) -> bool {
    forall|j: int|
        0 <= j < files.len() ==> (#[trigger] files[j]).content@.len() < usize::MAX && program_ok(
            files[j].content@,
            Seq::<Statement>::empty(),
        )
}

/// Compile resolved sources, each in its own domain context, into one IR that
/// carries the given unused-import records; declared `VAR` ports (from any
/// source) are resolved once, after every source is added, against `inputs`.
/// Blank files with no inputs compile; in general it fails only for a reason
/// `files_rejected` gives.
pub fn compile_files(files: &Vec<ResolvedFile>, unused: Vec<UnusedImport>, inputs: &[(String, PortBinding)]) -> (r:
    Result<Compiled, CompileError>)
    ensures
        r matches Ok(c) ==> {
            &&& c.atoms@.len() <= 0x1_0000_0000 ==> wf_compiled(c)
            &&& c.unused_imports@ == unused@
        },
        all_blank(files@) && inputs@.len() == 0 ==> r is Ok,
        r matches Ok(c) ==> exists|ss: Seq<Compiler>, s2: Compiler| #[trigger] files_compiled(files@, inputs@, ss, s2, c),
        r matches Err(e) ==> files_rejected(files@, inputs@, e),
{
    let mut c = Compiler::new();
    let ghost mut ss: Seq<Compiler> = seq![c];
    let mut i: usize = 0;
    while i < files.len()
        invariant
            c.wf(),
            i <= files@.len(),
            all_blank(files@) ==> c.unreferenced(),
            ss.len() == i + 1,
            ss[0].fresh(),
            ss.last() == c,
            forall|k: int| 0 <= k < i ==> #[trigger] file_added(ss[k], ss[k + 1], files@[k]),
        decreases files@.len() - i,
    {
        let ghost before = c;
        proof {
            if all_blank(files@) {
                assert(files@[i as int].content@.len() < usize::MAX);
            }
        }
        match c.add_resolved(&files[i].path, &files[i].content, &files[i].ctx) {
            Ok(()) => {},
            Err(e) => {
                proof {
                    assert(files_added(files@, ss, i as int));
                    assert(crate::compiler::file_failed(ss.last(), c, files@[i as int].path@, files@[i as int].content@, files@[i as int].ctx, e));
                    assert(files_rejected(files@, inputs@, e));
                }
                return Err(e);
            },
        }
        proof {
            let ss0 = ss;
            assert(file_added(before, c, files@[i as int]));
            ss = ss.push(c);
            assert forall|k: int| 0 <= k < i + 1 implies #[trigger] file_added(ss[k], ss[k + 1], files@[k]) by {
                if k < i {
                    assert(file_added(ss0[k], ss0[k + 1], files@[k]));
                }
            }
        }
        i = i + 1;
    }
    proof {
        if all_blank(files@) {
            c.lemma_unreferenced();
            assert(forall|x: RefV| !all_refs(c).contains(x));
        }
    }
    proof {
        assert(files_added(files@, ss, files@.len() as int));
    }
    match c.validate_closed_world() {
        Ok(()) => {},
        Err(e) => {
            proof {
                assert(crate::compiler::world_rejected(c, e));
                assert(files_rejected(files@, inputs@, e));
            }
            return Err(e);
        },
    }
    proof {
        if all_blank(files@) && inputs@.len() == 0 {
            c.lemma_unreferenced();
            assert(forall|x: RefV| !all_refs(c).contains(x));
            assert(provide_binds(c.decls.provides@) + input_binds(inputs@) =~= Seq::<BindV>::empty());
        }
    }
    let ghost s1 = c;
    let placeholders = match c.resolve_ports(inputs) {
        Ok(p) => p,
        Err(e) => {
            proof {
                assert(crate::compiler::ports_rejected(s1, inputs@, e));
                assert(files_rejected(files@, inputs@, e));
            }
            return Err(e);
        },
    };
    let ghost s2 = c;
    let mut compiled = c.finalize();
    compiled.unused_imports = unused;
    compiled.placeholders = placeholders;
    proof {
        assert(s2.lowered_to(compiled));
        assert(files_compiled(files@, inputs@, ss, s2, compiled));
    }
    let res: Result<Compiled, CompileError> = Ok(compiled);
    proof {
        assert(res->Ok_0 == compiled);
        assert(res matches Ok(cc) && cc == compiled);
    }
    res
}

/// Compile a root source and all its transitive `IMPORT`s into one IR.
///
/// Each source declares a `DOMAIN`; atoms unify only within a domain, and a
/// source names an imported domain by its alias (or its name). Sources are
/// identified by content hash, so one reached by several paths compiles once,
/// and an import cycle is an error. Unused imports are reported in sorted
/// order.
pub fn compile<R: Resolver>(root: &str, resolver: &R) -> (r: Result<Compiled, CompileError>)
    ensures
        r matches Ok(c) ==> {
            &&& c.atoms@.len() <= 0x1_0000_0000 ==> wf_compiled(c)
            &&& sorted_by(unused_views(c.unused_imports@), unused_le())
            &&& reached_graph(root@, c)
            &&& compiled_graph(root@, Seq::<(String, PortBinding)>::empty(), c)
        },
        r matches Err(e) ==> compile_failed(resolver, root@, Seq::<(String, PortBinding)>::empty(), e),
        (forall|e: CompileError| !#[trigger] compile_failed(resolver, root@, Seq::<(String, PortBinding)>::empty(), e)) ==> r is Ok,
{
    let none: Vec<(String, PortBinding)> = Vec::new();
    proof {
        assert(none@ =~= Seq::<(String, PortBinding)>::empty());
    }
    compile_with(root, resolver, none.as_slice())
}

/// Like [`compile`], resolving the declared `VAR` ports of every source
/// against `inputs`.
pub fn compile_with<R: Resolver>(root: &str, resolver: &R, inputs: &[(String, PortBinding)]) -> (r: Result<
    Compiled,
    CompileError,
>)
    ensures
        r matches Ok(c) ==> {
            &&& c.atoms@.len() <= 0x1_0000_0000 ==> wf_compiled(c)
            &&& sorted_by(unused_views(c.unused_imports@), unused_le())
            &&& reached_graph(root@, c)
            &&& compiled_graph(root@, inputs@, c)
        },
        r matches Err(e) ==> compile_failed(resolver, root@, inputs@, e),
        (forall|e: CompileError| !#[trigger] compile_failed(resolver, root@, inputs@, e)) ==> r is Ok,
{
    let (nodes, order) = match discover(root, resolver) {
        Ok(x) => x,
        Err(e) => {
            proof {
                assert(compile_failed(resolver, root@, inputs@, e));
            }
            return Err(e);
        },
    };
    proof {
        assert(walked(resolver, root@, nodes@, order@));
    }
    let (files, unused) = match bind_contexts(&nodes, &order) {
        Ok(x) => x,
        Err(e) => {
            proof {
                assert(compile_failed(resolver, root@, inputs@, e));
            }
            return Err(e);
        },
    };
    proof {
        lemma_unused_le_total();
        match contexts_spec(nodes@, order@) {
            Ok((als, un)) => {
                un.lemma_sort_by_ensures(unused_le());
            },
            Err(_) => {},
        }
        assert(files_fit(nodes@, order@, files@));
    }
    let r = compile_files(&files, unused, inputs);
    proof {
        if r is Ok {
            assert(graph_fits(root@, nodes@, order@, r->Ok_0));
            let (ss, s2) = choose|ss: Seq<Compiler>, s2: Compiler| #[trigger] files_compiled(files@, inputs@, ss, s2, r->Ok_0);
            assert(graph_compiled(root@, inputs@, nodes@, order@, files@, ss, s2, r->Ok_0));
        } else {
            assert(compile_failed(resolver, root@, inputs@, r->Err_0));
        }
    }
    r
}

/// The walk from `root` gave the import graph `nodes`, walked in `order`:
/// closed, each source once and after its imports, distinct texts, the root
/// first in `nodes` and last in `order`, every source parsed and reached from
/// the root through `IMPORT`s that resolve to it.
pub open spec fn walked<R: Resolver>(res: &R, root: Seq<char>, nodes: Seq<SourceNode>, order: Seq<usize>) -> bool {
    &&& graph_closed(nodes, order)
    &&& walk_order(nodes, order)
    &&& hashes_distinct(nodes)
    &&& nodes.len() >= 1
    &&& nodes[0].path@ == root
    &&& order.last() == 0
    &&& forall|i: int| 0 <= i < nodes.len() ==> #[trigger] node_parsed(nodes[i])
    &&& forall|i: int|
        0 <= i < nodes.len() ==> exists|ch: Seq<(Seq<char>, Seq<char>)>|
            #[trigger] reach_chain(res, root, ch) && ch.last() == ((#[trigger] nodes[i]).path@, nodes[i].content@)
}

/// Why compiling what `root` reaches against `inputs` failed with `e`: the
/// walk failed; or the walk gave a graph in which two imports bind the same
/// name (`DomainAliasClash`); or the graph's files, bound to their contexts,
/// were refused.
pub open spec fn compile_failed<R: Resolver>(
    res: &R,
    root: Seq<char>,
    inputs: Seq<(String, PortBinding)>,
    e: CompileError,
) -> bool {
    ||| walk_failed(res, root, e)
    ||| exists|nodes: Seq<SourceNode>, order: Seq<usize>|
        #[trigger] walked(res, root, nodes, order) && match contexts_spec(nodes, order) {
            Err(a) => e matches CompileError::DomainAliasClash { alias } && alias@ == a,
            Ok(_) => exists|files: Seq<ResolvedFile>| #[trigger] files_fit(nodes, order, files) && files_rejected(files, inputs, e),
        }
}

/// `nodes`, walked in `order` (each once, imports first, the root last), is an
/// import graph rooted at `root` whose nodes are parsed sources with their
/// `IMPORT`s as edges, and whose unused imports are those `c` reports.
pub open spec fn graph_fits(root: Seq<char>, nodes: Seq<SourceNode>, order: Seq<usize>, c: Compiled) -> bool {
    &&& graph_closed(nodes, order)
    &&& walk_order(nodes, order)
    &&& hashes_distinct(nodes)
    &&& nodes.len() >= 1
    &&& nodes[0].path@ == root
    &&& order.last() == 0
    &&& forall|i: int| 0 <= i < nodes.len() ==> #[trigger] node_parsed(nodes[i])
    &&& match contexts_spec(nodes, order) {
        Ok((als, un)) => unused_views(c.unused_imports@) == un.sort_by(unused_le()),
        Err(_) => false,
    }
}

/// The files are the graph's sources in walk order, each with its text, its
/// domain and the names its `IMPORT`s bind.
pub closed spec fn files_fit(nodes: Seq<SourceNode>, order: Seq<usize>, files: Seq<ResolvedFile>) -> bool {
    match contexts_spec(nodes, order) {
        Ok((als, un)) => files.len() == order.len() && forall|k: int|
            0 <= k < order.len() ==> {
                let n = nodes[order[k] as int];
                &&& (#[trigger] files[k]).path@ == n.path@
                &&& files[k].content@ == n.content@
                &&& files[k].ctx.current@ == n.domain@
                &&& crate::closure::pair_views(files[k].ctx.aliases@) == als[k]
            },
        Err(_) => false,
    }
}

/// `c` is what the import graph rooted at `root` compiles to against `inputs`:
/// the graph was walked, its sources were bound to their contexts, and those
/// files were compiled in walk order.
pub closed spec fn graph_compiled(
    root: Seq<char>,
    inputs: Seq<(String, PortBinding)>,
    nodes: Seq<SourceNode>,
    order: Seq<usize>,
    files: Seq<ResolvedFile>,
    ss: Seq<Compiler>,
    s2: Compiler,
    c: Compiled,
) -> bool {
    &&& graph_fits(root, nodes, order, c)
    &&& files_fit(nodes, order, files)
    &&& files_compiled(files, inputs, ss, s2, c)
}

/// Some import graph rooted at `root` compiles to `c` against `inputs`.
pub open spec fn compiled_graph(root: Seq<char>, inputs: Seq<(String, PortBinding)>, c: Compiled) -> bool {
    exists|nodes: Seq<SourceNode>, order: Seq<usize>, files: Seq<ResolvedFile>, ss: Seq<Compiler>, s2: Compiler|
        #[trigger] graph_compiled(root, inputs, nodes, order, files, ss, s2, c)
}

/// The unused imports `c` reports are those of an import graph rooted at
/// `root` in which distinct nodes have distinct texts.
pub open spec fn reached_graph(root: Seq<char>, c: Compiled) -> bool {
    exists|nodes: Seq<SourceNode>, order: Seq<usize>| #[trigger] graph_fits(root, nodes, order, c)
}

} // verus!
