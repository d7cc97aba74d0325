//! Single-source compilation and data files: parse, accumulate, check the
//! closed world, resolve the ports, and lower to the IR.
use vstd::prelude::*;
use crate::ast::{Atom, Statement};
use crate::compiler::{Compiler, lemma_source_compiled, lemma_source_rejected, parse_tagged, source_applied, source_compiled, source_rejected};
use crate::lower::DomainCtx;
use crate::error::CompileError;
use crate::ir::{Compiled, PortBinding, opt_view, wf_compiled};
use crate::text::{push_char, push_str, push_string, string_of};
use crate::syntax::program_ok;

verus! {

/// The 1-based line a statement begins on (0 for a bare `CHECK`).
pub open spec fn statement_line_spec(s: Statement) -> u32 {
    match s {
        Statement::Domain(n) => n.line as u32,
        Statement::Import { path, .. } => path.line as u32,
        Statement::Fact(a) => a.line as u32,
        Statement::Negation(a) => a.line as u32,
        Statement::Assume(l) => l.line as u32,
        Statement::SetDecl { name, .. } => name.line as u32,
        Statement::Close { relation, .. } => relation.line as u32,
        Statement::Var { name, .. } => name.line as u32,
        Statement::Provide { atom, .. } => atom.line as u32,
        Statement::Premise { name, .. } => name.line as u32,
        Statement::Rule { name, .. } => name.line as u32,
        Statement::Check { subject, .. } => match subject {
            Some(s) => s.line as u32,
            None => 0,
        },
    }
}

/// The 1-based source line a statement begins on (for diagnostics).
pub fn statement_line(s: &Statement) -> (r: u32)
    ensures
        r == statement_line_spec(*s),
{
    match s {
        Statement::Domain(n) => n.line as u32,
        Statement::Import { path, .. } => path.line as u32,
        Statement::Fact(a) => a.line as u32,
        Statement::Negation(a) => a.line as u32,
        Statement::Assume(l) => l.line as u32,
        Statement::SetDecl { name, .. } => name.line as u32,
        Statement::Close { relation, .. } => relation.line as u32,
        Statement::Var { name, .. } => name.line as u32,
        Statement::Provide { atom, .. } => atom.line as u32,
        Statement::Premise { name, .. } => name.line as u32,
        Statement::Rule { name, .. } => name.line as u32,
        Statement::Check { subject, .. } => match subject {
            Some(s) => s.line as u32,
            None => 0,
        },
    }
}

/// The key string a `PROVIDE` target is written as:
/// `[domain.]subject[ predicate[ object]]`.
pub open spec fn provide_key_spec(a: Atom) -> Seq<char> {
    (match opt_view(a.domain) {
        Some(d) => d + seq!['.'],
        None => Seq::empty(),
    }) + a.subject@ + (match opt_view(a.predicate) {
        Some(p) => seq![' '] + p,
        None => Seq::empty(),
    }) + (match opt_view(a.object) {
        Some(o) => seq![' '] + o,
        None => Seq::empty(),
    })
}

/// The key string of a `PROVIDE` target.
pub fn provide_key(a: &Atom) -> (r: String)
    ensures
        r@ == provide_key_spec(*a),
{
    let mut key = String::new();
    match &a.domain {
        Some(d) => {
            push_string(&mut key, d);
            push_char(&mut key, '.');
        },
        None => {},
    }
    push_string(&mut key, &a.subject);
    match &a.predicate {
        Some(p) => {
            push_char(&mut key, ' ');
            push_string(&mut key, p);
        },
        None => {},
    }
    match &a.object {
        Some(o) => {
            push_char(&mut key, ' ');
            push_string(&mut key, o);
        },
        None => {},
    }
    proof {
        assert(key@ =~= provide_key_spec(*a));
    }
    key
}

/// The `(key, value)` pairs the `PROVIDE`s of `stmts` bind, in order.
pub open spec fn provides_of(stmts: Seq<Statement>) -> Seq<(Seq<char>, bool)>
    decreases stmts.len(),
{
    if stmts.len() == 0 {
        Seq::empty()
    } else {
        provides_of(stmts.drop_last()) + match stmts.last() {
            Statement::Provide { atom, value } => seq![(provide_key_spec(atom.data), value)],
            _ => Seq::empty(),
        }
    }
}

/// Whether every statement is a `PROVIDE` or a `DOMAIN`.
pub open spec fn data_only(stmts: Seq<Statement>) -> bool {
    forall|i: int| 0 <= i < stmts.len() ==> (#[trigger] stmts[i] is Provide || stmts[i] is Domain)
}

/// The first statement that is neither `PROVIDE` nor `DOMAIN` begins on `line`.
pub open spec fn first_non_data(stmts: Seq<Statement>, line: u32) -> bool {
    exists|i: int| {
        &&& 0 <= i < stmts.len()
        &&& !(#[trigger] stmts[i] is Provide || stmts[i] is Domain)
        &&& (forall|j: int| 0 <= j < i ==> (stmts[j] is Provide || stmts[j] is Domain))
        &&& line == statement_line_spec(stmts[i])
    }
}

/// The `(key, value)` bindings of a data program: `Err` at the first statement
/// that is neither `PROVIDE` nor `DOMAIN`.
pub fn data_bindings(file: &String, stmts: &Vec<Statement>) -> (r: Result<Vec<(String, bool)>, CompileError>)
    ensures
        match r {
            Ok(v) => data_only(stmts@) && v@.map_values(|p: (String, bool)| (p.0@, p.1)) == provides_of(stmts@),
            Err(e) => !data_only(stmts@) && exists|i: int| {
                &&& 0 <= i < stmts@.len()
                &&& !(#[trigger] stmts@[i] is Provide || stmts@[i] is Domain)
                &&& (forall|j: int| 0 <= j < i ==> (stmts@[j] is Provide || stmts@[j] is Domain))
                &&& e matches CompileError::DataFileStatement { file: f, line }
                &&& f@ == file@
                &&& line == statement_line_spec(stmts@[i])
            },
        },
{
    let mut out: Vec<(String, bool)> = Vec::new();
    let mut i: usize = 0;
    while i < stmts.len()
        invariant
            i <= stmts@.len(),
            forall|j: int| 0 <= j < i ==> (#[trigger] stmts@[j] is Provide || stmts@[j] is Domain),
            out@.map_values(|p: (String, bool)| (p.0@, p.1)) == provides_of(stmts@.subrange(0, i as int)),
        decreases stmts@.len() - i,
    {
        let ghost o0 = out@;
        proof {
            assert(stmts@.subrange(0, i + 1).drop_last() =~= stmts@.subrange(0, i as int));
            assert(stmts@.subrange(0, i + 1).last() == stmts@[i as int]);
        }
        match &stmts[i] {
            Statement::Provide { atom, value } => {
                let k = provide_key(&atom.data);
                let ghost kv = k@;
                out.push((k, *value));
                proof {
                    assert(out@.map_values(|p: (String, bool)| (p.0@, p.1)) =~= o0.map_values(
                        |p: (String, bool)| (p.0@, p.1),
                    ).push((kv, *value)));
                }
            },
            Statement::Domain(_) => {
                proof {
                    assert(provides_of(stmts@.subrange(0, i + 1)) =~= provides_of(stmts@.subrange(0, i as int)));
                }
            },
            other => {
                let e = CompileError::DataFileStatement { file: file.clone(), line: statement_line(other) };
                proof {
                    assert(!(stmts@[i as int] is Provide || stmts@[i as int] is Domain));
                }
                return Err(e);
            },
        }
        i = i + 1;
    }
    proof {
        assert(stmts@.subrange(0, stmts@.len() as int) =~= stmts@);
    }
    Ok(out)
}

/// Programs with the same statement kinds are data-only alike.
pub proof fn lemma_kinds_data_only(a: Seq<Statement>, b: Seq<Statement>)
    requires
        crate::grammar::stmt_kinds(a) == crate::grammar::stmt_kinds(b),
    ensures
        data_only(a) <==> data_only(b),
{
    assert(a.len() == crate::grammar::stmt_kinds(a).len());
    assert(b.len() == crate::grammar::stmt_kinds(b).len());
    assert forall|i: int| 0 <= i < a.len() implies ((a[i] is Provide || a[i] is Domain) <==> (b[i] is Provide || b[i] is Domain)) by {
        assert(crate::grammar::stmt_kinds(a)[i] == crate::syntax::lead_kw(a[i]));
        assert(crate::grammar::stmt_kinds(b)[i] == crate::syntax::lead_kw(b[i]));
    }
    if data_only(a) {
        assert forall|i: int| 0 <= i < b.len() implies (#[trigger] b[i] is Provide || b[i] is Domain) by {
            assert(a[i] is Provide || a[i] is Domain);
        }
    }
    if data_only(b) {
        assert forall|i: int| 0 <= i < a.len() implies (#[trigger] a[i] is Provide || a[i] is Domain) by {
            assert(b[i] is Provide || b[i] is Domain);
        }
    }
}

/// Parse a data-only source and extract its `PROVIDE` bindings as
/// `(key, value)` pairs. A data file carries only values: any statement other
/// than `PROVIDE` (or `DOMAIN`) is a `DataFileStatement` error.
pub fn read_data_source(file: &str, src: &str) -> (r: Result<Vec<(String, bool)>, CompileError>)
    ensures
        r matches Err(CompileError::Parse(d)) ==> d.label() == Some(file@),
        src@.len() < usize::MAX && (exists|s: Seq<Statement>| #[trigger] program_ok(src@, s) && crate::syntax::readable(src@, s))
            ==> !(r matches Err(CompileError::Parse(_))),
        forall|s: Seq<Statement>|
            src@.len() < usize::MAX && #[trigger] program_ok(src@, s) && crate::syntax::readable(src@, s) ==> (r is Ok <==> data_only(s)),
        r is Err ==> (r matches Err(CompileError::Parse(_)) || r matches Err(CompileError::DataFileStatement { .. })),
        r matches Err(CompileError::DataFileStatement { file: f, line }) ==> f@ == file@ && exists|stmts: Seq<Statement>|
            #[trigger] program_ok(src@, stmts) && first_non_data(stmts, line),
        r matches Ok(v) ==> exists|stmts: Seq<Statement>|
            #[trigger] program_ok(src@, stmts) && data_only(stmts) && v@.map_values(|p: (String, bool)| (p.0@, p.1))
                == provides_of(stmts),
{
    let label = string_of(file);
    let program = parse_tagged(&label, src)?;
    let r = data_bindings(&label, &program.statements);
    proof {
        assert(program_ok(src@, program.statements@));
        assert forall|s: Seq<Statement>|
            src@.len() < usize::MAX && #[trigger] program_ok(src@, s) && crate::syntax::readable(src@, s) implies (r is Ok <==> data_only(s)) by {
            lemma_kinds_data_only(s, program.statements@);
        }
    }
    r
}

/// The origin tag of a value read from a data file: `data:<file>`.
pub open spec fn data_origin(file: Seq<char>) -> Seq<char> {
    "data:"@ + file
}

/// `bindings` are the `(key, value)` pairs `kv`, in order, each tagged with
/// origin `data:<file>`.
pub open spec fn bound_as(bindings: Seq<(String, PortBinding)>, kv: Seq<(Seq<char>, bool)>, file: Seq<char>) -> bool {
    &&& bindings.len() == kv.len()
    &&& forall|i: int| 0 <= i < kv.len() ==> {
        &&& (#[trigger] bindings[i]).0@ == kv[i].0
        &&& bindings[i].1.value == kv[i].1
        &&& bindings[i].1.origin@ == data_origin(file)
    }
}

/// Parse a data-only source into port bindings, each tagged with origin
/// `data:<file>`.
pub fn read_data_bindings(file: &str, src: &str) -> (r: Result<Vec<(String, PortBinding)>, CompileError>)
    ensures
        r matches Err(CompileError::Parse(d)) ==> d.label() == Some(file@),
        src@.len() < usize::MAX && (exists|s: Seq<Statement>| #[trigger] program_ok(src@, s) && crate::syntax::readable(src@, s))
            ==> !(r matches Err(CompileError::Parse(_))),
        forall|s: Seq<Statement>|
            src@.len() < usize::MAX && #[trigger] program_ok(src@, s) && crate::syntax::readable(src@, s) ==> (r is Ok <==> data_only(s)),
        r is Err ==> (r matches Err(CompileError::Parse(_)) || r matches Err(CompileError::DataFileStatement { .. })),
        r matches Err(CompileError::DataFileStatement { file: f, line }) ==> f@ == file@ && exists|stmts: Seq<Statement>|
            #[trigger] program_ok(src@, stmts) && first_non_data(stmts, line),
        r matches Ok(v) ==> exists|stmts: Seq<Statement>|
            #[trigger] program_ok(src@, stmts) && data_only(stmts) && bound_as(v@, provides_of(stmts), file@),
{
    let pairs = read_data_source(file, src)?;
    let ghost kv = pairs@.map_values(|p: (String, bool)| (p.0@, p.1));
    let mut out: Vec<(String, PortBinding)> = Vec::new();
    let mut i: usize = 0;
    while i < pairs.len()
        invariant
            i <= pairs@.len(),
            kv == pairs@.map_values(|p: (String, bool)| (p.0@, p.1)),
            bound_as(out@, kv.subrange(0, i as int), file@),
        decreases pairs@.len() - i,
    {
        let mut origin = String::new();
        push_str(&mut origin, "data:");
        push_str(&mut origin, file);
        proof {
            reveal_strlit("data:");
        }
        out.push((pairs[i].0.clone(), PortBinding { value: pairs[i].1, origin }));
        i = i + 1;
    }
    proof {
        assert(kv.subrange(0, pairs@.len() as int) =~= kv);
    }
    Ok(out)
}

/// The inline `(port, value)` pairs that carry a boolean, in order.
pub open spec fn api_inputs(values: Seq<(String, Option<bool>)>) -> Seq<(Seq<char>, bool)>
    decreases values.len(),
{
    if values.len() == 0 {
        Seq::empty()
    } else {
        api_inputs(values.drop_last()) + match values.last().1 {
            Some(b) => seq![(values.last().0@, b)],
            None => Seq::empty(),
        }
    }
}

/// `bindings` are the pairs `kv`, in order, each with origin `api`.
pub open spec fn api_bound(bindings: Seq<(String, PortBinding)>, kv: Seq<(Seq<char>, bool)>) -> bool {
    &&& bindings.len() == kv.len()
    &&& forall|i: int| 0 <= i < kv.len() ==> {
        &&& (#[trigger] bindings[i]).0@ == kv[i].0
        &&& bindings[i].1.value == kv[i].1
        &&& bindings[i].1.origin@ == "api"@
    }
}

/// `bindings` are what the data source `src`, named `file`, provides.
pub open spec fn source_bound(file: Seq<char>, src: Seq<char>, bindings: Seq<(String, PortBinding)>) -> bool {
    exists|stmts: Seq<Statement>|
        #[trigger] program_ok(src, stmts) && data_only(stmts) && bound_as(bindings, provides_of(stmts), file)
}

/// Data source `j` provides `bindings[cuts[j]..cuts[j + 1]]` (nothing when
/// it carries no text).
pub open spec fn source_slice(
    data: Seq<(String, Option<String>)>,
    bindings: Seq<(String, PortBinding)>,
    cuts: Seq<int>,
    j: int,
) -> bool {
    &&& cuts[j] <= cuts[j + 1]
    &&& match data[j].1 {
        None => cuts[j + 1] == cuts[j],
        Some(src) => source_bound(data[j].0@, src@, bindings.subrange(cuts[j], cuts[j + 1])),
    }
}

/// `bindings` are, source after source, what the named data sources that
/// carry text provide.
pub open spec fn data_inputs(data: Seq<(String, Option<String>)>, bindings: Seq<(String, PortBinding)>) -> bool {
    exists|cuts: Seq<int>| #[trigger] data_cuts(data, bindings, cuts)
}

/// `cuts` splits `bindings` into one slice per data source.
pub open spec fn data_cuts(data: Seq<(String, Option<String>)>, bindings: Seq<(String, PortBinding)>, cuts: Seq<int>) -> bool {
    &&& cuts.len() == data.len() + 1
    &&& cuts[0] == 0
    &&& cuts[data.len() as int] == bindings.len()
    &&& forall|j: int| 0 <= j <= data.len() ==> 0 <= #[trigger] cuts[j] <= bindings.len()
    &&& forall|j: int| 0 <= j < data.len() ==> #[trigger] source_slice(data, bindings, cuts, j)
}

/// Merge inline `values` and named `data` sources into one input list: first
/// each `(port, value)` whose value is a boolean (a `None` value is an entry
/// that is not one, and is skipped), with origin `api`; then, source by
/// source, the `PROVIDE`s of each data source that carries text (read like a
/// data file, origin `data:<name>`). A data source that does not parse, or
/// holds anything but `PROVIDE` and `DOMAIN`, is the error.
pub fn collect_inputs(values: &[(String, Option<bool>)], data: &[(String, Option<String>)]) -> (r: Result<
    Vec<(String, PortBinding)>,
    CompileError,
>)
    ensures
        r matches Ok(v) ==> {
            let m = api_inputs(values@).len() as int;
            &&& m <= v@.len()
            &&& api_bound(v@.subrange(0, m), api_inputs(values@))
            &&& data_inputs(data@, v@.subrange(m, v@.len() as int))
        },
        r is Err ==> (r matches Err(CompileError::Parse(_)) || r matches Err(CompileError::DataFileStatement { .. })),
        r matches Err(CompileError::Parse(d)) ==> exists|j: int|
            0 <= j < data@.len() && (#[trigger] data@[j]).1 is Some && d.label() == Some(data@[j].0@),
{
    let mut inputs: Vec<(String, PortBinding)> = Vec::new();
    let mut i: usize = 0;
    while i < values.len()
        invariant
            i <= values@.len(),
            api_bound(inputs@, api_inputs(values@.subrange(0, i as int))),
        decreases values@.len() - i,
    {
        proof {
            assert(values@.subrange(0, i + 1).drop_last() =~= values@.subrange(0, i as int));
            assert(values@.subrange(0, i + 1).last() == values@[i as int]);
        }
        match values[i].1 {
            Some(value) => {
                let origin = string_of("api");
                inputs.push((values[i].0.clone(), PortBinding { value, origin }));
            },
            None => {},
        }
        i = i + 1;
    }
    proof {
        assert(values@.subrange(0, values@.len() as int) =~= values@);
    }
    let m = inputs.len();
    let ghost api = inputs@;
    let ghost mut cuts: Seq<int> = seq![0int];
    let mut j: usize = 0;
    while j < data.len()
        invariant
            j <= data@.len(),
            m == api.len(),
            m <= inputs@.len(),
            inputs@.subrange(0, m as int) == api,
            data_cuts(data@.subrange(0, j as int), inputs@.subrange(m as int, inputs@.len() as int), cuts),
        decreases data@.len() - j,
    {
        let ghost pre = data@.subrange(0, j as int);
        let ghost tail = inputs@.subrange(m as int, inputs@.len() as int);
        let ghost c0 = cuts;
        match &data[j].1 {
            Some(src) => {
                let r = read_data_bindings(data[j].0.as_str(), src.as_str());
                match r {
                    Ok(b) => {
                        let mut b = b;
                        let ghost bv = b@;
                        let ghost i0 = inputs@;
                        inputs.append(&mut b);
                        proof {
                            let nt = inputs@.subrange(m as int, inputs@.len() as int);
                            let d1 = data@.subrange(0, j + 1);
                            cuts = c0.push(nt.len() as int);
                            assert(inputs@.subrange(0, m as int) =~= i0.subrange(0, m as int));
                            assert(nt.subrange(0, tail.len() as int) =~= tail);
                            assert(nt.subrange(tail.len() as int, nt.len() as int) =~= bv);
                            assert forall|q: int| 0 <= q < d1.len() implies #[trigger] source_slice(d1, nt, cuts, q) by {
                                if q < j {
                                    assert(source_slice(pre, tail, c0, q));
                                    assert(d1[q] == pre[q]);
                                    assert(0 <= c0[q] <= tail.len() && 0 <= c0[q + 1] <= tail.len());
                                    assert(nt.subrange(cuts[q], cuts[q + 1]) =~= tail.subrange(c0[q], c0[q + 1]));
                                } else {
                                    assert(d1[q] == data@[j as int]);
                                    assert(nt.subrange(cuts[q], cuts[q + 1]) =~= bv);
                                }
                            }
                            assert forall|q: int| 0 <= q <= d1.len() implies 0 <= #[trigger] cuts[q] <= nt.len() by {
                                if q <= j {
                                    assert(0 <= c0[q] <= tail.len());
                                }
                            }
                            assert(data_cuts(d1, nt, cuts));
                        }
                    },
                    Err(e) => {
                        proof {
                            assert(data@[j as int].1 is Some);
                        }
                        return Err(e);
                    },
                }
            },
            None => {
                proof {
                    let d1 = data@.subrange(0, j + 1);
                    cuts = c0.push(tail.len() as int);
                    assert forall|q: int| 0 <= q < d1.len() implies #[trigger] source_slice(d1, tail, cuts, q) by {
                        if q < j {
                            assert(source_slice(pre, tail, c0, q));
                            assert(d1[q] == pre[q]);
                        } else {
                            assert(d1[q] == data@[j as int]);
                        }
                    }
                    assert forall|q: int| 0 <= q <= d1.len() implies 0 <= #[trigger] cuts[q] <= tail.len() by {
                        if q <= j {
                            assert(0 <= c0[q] <= tail.len());
                        }
                    }
                    assert(data_cuts(d1, tail, cuts));
                }
            },
        }
        j = j + 1;
    }
    proof {
        assert(data@.subrange(0, data@.len() as int) =~= data@);
        assert(data_cuts(data@, inputs@.subrange(m as int, inputs@.len() as int), cuts));
    }
    Ok(inputs)
}

/// Compile a single source into the IR. `IMPORT`s are recorded as pending,
/// not resolved. A syntax error is reported against `source`; a blank source
/// is refused for its missing `DOMAIN`. It fails only for a reason
/// `source_rejected` gives, so it succeeds wherever none of them holds.
pub fn compile_source(source: &str, src: &str) -> (r: Result<Compiled, CompileError>)
    ensures
        r matches Ok(c) ==> (c.atoms@.len() <= 0x1_0000_0000 ==> wf_compiled(c)) && c.unused_imports@.len() == 0,
        r is Ok ==> exists|stmts: Seq<Statement>| #[trigger] program_ok(src@, stmts) && crate::compiler::domain_count(stmts) == 1,
        r is Err ==> (r matches Err(CompileError::Parse(d)) && d.label() == Some(source@)) || exists|stmts: Seq<Statement>|
            #[trigger] program_ok(src@, stmts),
        src@.len() < usize::MAX && program_ok(src@, Seq::<Statement>::empty()) ==> (r matches Err(
            CompileError::MissingDomain { file },
        ) && file@ == source@),
        r matches Ok(c) ==> exists|s0: Compiler, s1: Compiler, s2: Compiler, stmts: Seq<Statement>, cs: Seq<Compiler>, ctx: DomainCtx|
            #[trigger] source_compiled(s0, s1, s2, source@, src@, Seq::<(String, PortBinding)>::empty(), stmts, cs, ctx, c),
        r matches Err(e) ==> source_rejected(source@, src@, Seq::<(String, PortBinding)>::empty(), e),
        forall|s: Seq<Statement>|
            src@.len() < usize::MAX && #[trigger] program_ok(src@, s) && crate::syntax::readable(src@, s) ==> {
                &&& crate::compiler::domain_count(s) == 0 ==> (r matches Err(CompileError::MissingDomain { file }) && file@ == source@)
                &&& crate::compiler::domain_count(s) > 1 ==> (r matches Err(CompileError::DuplicateDomain { file }) && file@ == source@)
            },
{
    let none: Vec<(String, PortBinding)> = Vec::new();
    proof {
        assert(none@ =~= Seq::<(String, PortBinding)>::empty());
    }
    compile_source_with(source, src, none.as_slice())
}

/// Like [`compile_source`], resolving the declared `VAR` ports against the
/// external `inputs`; the result carries one placeholder record per port. It
/// fails only for a reason `source_rejected` gives.
pub fn compile_source_with(source: &str, src: &str, inputs: &[(String, PortBinding)]) -> (r: Result<
    Compiled,
    CompileError,
>)
    ensures
        r matches Ok(c) ==> (c.atoms@.len() <= 0x1_0000_0000 ==> wf_compiled(c)) && c.unused_imports@.len() == 0,
        r is Ok ==> exists|stmts: Seq<Statement>| #[trigger] program_ok(src@, stmts) && crate::compiler::domain_count(stmts) == 1,
        r is Err ==> (r matches Err(CompileError::Parse(d)) && d.label() == Some(source@)) || exists|stmts: Seq<Statement>|
            #[trigger] program_ok(src@, stmts),
        src@.len() < usize::MAX && program_ok(src@, Seq::<Statement>::empty()) ==> (r matches Err(
            CompileError::MissingDomain { file },
        ) && file@ == source@),
        r matches Ok(c) ==> exists|s0: Compiler, s1: Compiler, s2: Compiler, stmts: Seq<Statement>, cs: Seq<Compiler>, ctx: DomainCtx|
            #[trigger] source_compiled(s0, s1, s2, source@, src@, inputs@, stmts, cs, ctx, c),
        r matches Err(e) ==> source_rejected(source@, src@, inputs@, e),
        forall|s: Seq<Statement>|
            src@.len() < usize::MAX && #[trigger] program_ok(src@, s) && crate::syntax::readable(src@, s) ==> {
                &&& crate::compiler::domain_count(s) == 0 ==> (r matches Err(CompileError::MissingDomain { file }) && file@ == source@)
                &&& crate::compiler::domain_count(s) > 1 ==> (r matches Err(CompileError::DuplicateDomain { file }) && file@ == source@)
            },
{
    let mut c = Compiler::new();
    let ghost s0 = c;
    match c.add_source(source, src) {
        Ok(()) => {},
        Err(e) => {
            proof {
                lemma_source_rejected(s0, c, source@, src@, inputs@, e);
            }
            return Err(e);
        },
    }
    let ghost s1 = c;
    match c.validate_closed_world() {
        Ok(()) => {},
        Err(e) => {
            proof {
                assert(crate::compiler::world_rejected(s1, e));
                lemma_source_rejected(s0, s1, source@, src@, inputs@, e);
            }
            return Err(e);
        },
    }
    let placeholders = match c.resolve_ports(inputs) {
        Ok(p) => p,
        Err(e) => {
            proof {
                assert(crate::compiler::ports_rejected(s1, inputs@, e));
                lemma_source_rejected(s0, s1, source@, src@, inputs@, e);
            }
            return Err(e);
        },
    };
    let ghost s2 = c;
    let mut compiled = c.finalize();
    let ghost c1 = compiled;
    compiled.placeholders = placeholders;
    proof {
        let (stmts, cs, ctx) = choose|stmts: Seq<Statement>, cs: Seq<Compiler>, ctx: DomainCtx|
            #[trigger] source_applied(s0, s1, source@, src@, stmts, cs, ctx);
        assert(s2.lowered_to(c1));
        assert(s2.lowered_to(compiled));
        lemma_source_compiled(s0, s1, s2, source@, src@, inputs@, stmts, cs, ctx, compiled);
        assert(exists|t0: Compiler, t1: Compiler, t2: Compiler, st: Seq<Statement>, cs2: Seq<Compiler>, cx: DomainCtx|
            #[trigger] source_compiled(t0, t1, t2, source@, src@, inputs@, st, cs2, cx, compiled));
    }
    let res: Result<Compiled, CompileError> = Ok(compiled);
    proof {
        assert(res->Ok_0 == compiled);
        assert(res matches Ok(cc) && cc == compiled);
        assert(res matches Ok(cc) ==> exists|t0: Compiler, t1: Compiler, t2: Compiler, st: Seq<Statement>, cs2: Seq<Compiler>, cx: DomainCtx|
            #[trigger] source_compiled(t0, t1, t2, source@, src@, inputs@, st, cs2, cx, cc));
    }
    res
}

} // verus!
