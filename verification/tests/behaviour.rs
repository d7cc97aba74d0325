//! Concrete cases for the library's laws, formulas and wrappers.
use elenchus::setargs::{SetTokenError, parse_set};
use elenchus::{
    CompileError, MemoryResolver, compile, compile_source, hash_hex, levenshtein, normalize_import_path,
    parse,
};

fn lev(a: &str, b: &str) -> usize {
    levenshtein(&a.chars().collect::<Vec<char>>(), &b.chars().collect::<Vec<char>>())
}

#[test]
fn hash_hex_is_the_sha256_of_the_bytes() {
    assert_eq!(
        hash_hex(b"abc"),
        "ba7816bf8f01cfea414140de5dae2223b00361a396177a9cb410ff61f20015ad"
    );
    assert_eq!(
        hash_hex(b""),
        "e3b0c44298fc1c149afbf4c8996fb92427ae41e4649b934ca495991b7852b855"
    );
}

#[test]
fn import_paths_normalise_against_the_importing_directory() {
    assert_eq!(normalize_import_path("dir/main.vrf", "../lib/x.vrf"), "lib/x.vrf");
    assert_eq!(normalize_import_path("a/b/main.vrf", "./c.vrf"), "a/b/c.vrf");
    assert_eq!(normalize_import_path("/abs/main.vrf", "x.vrf"), "/abs/x.vrf");
    assert_eq!(normalize_import_path("dir/main.vrf", "/root/x.vrf"), "/root/x.vrf");
    assert_eq!(normalize_import_path("main.vrf", "../../x.vrf"), "x.vrf");
}

#[test]
fn separator_style_does_not_change_the_normalised_path() {
    let unix = normalize_import_path("a/b/main.vrf", "../c/d.vrf");
    let windows = normalize_import_path("a\\b\\main.vrf", "..\\c\\d.vrf");
    assert_eq!(unix, windows);
    assert_eq!(unix, "a/c/d.vrf");
}

#[test]
fn set_tokens_become_cli_bindings() {
    let b = parse_set(&vec!["a:true b:false".to_string(), "  c:true ".to_string()]).ok().unwrap();
    assert_eq!(b.len(), 3);
    assert_eq!(b[0].0, "a");
    assert!(b[0].1.value);
    assert_eq!(b[1].0, "b");
    assert!(!b[1].1.value);
    assert_eq!(b[2].0, "c");
    assert!(b.iter().all(|(_, p)| p.origin == "CLI"));
}

#[test]
fn set_token_without_colon_is_refused() {
    match parse_set(&vec!["a:true lonely".to_string()]) {
        Err(SetTokenError::MissingColon { token }) => assert_eq!(token, "lonely"),
        _ => panic!("expected a missing-colon refusal"),
    }
}

#[test]
fn set_token_with_a_bad_value_is_refused() {
    match parse_set(&vec!["a:maybe".to_string()]) {
        Err(SetTokenError::BadValue { token }) => assert_eq!(token, "a:maybe"),
        _ => panic!("expected a bad-value refusal"),
    }
}

#[test]
fn a_syntax_error_renders_with_its_card() {
    let d = parse("FACT lonely\n").err().unwrap();
    let shown = d.render(None, None);
    assert!(shown.starts_with("RESULT: 1 syntax error\n\nFACT  (1 problem)\n"), "{shown}");
    assert!(shown.contains("  syntax  : FACT [<domain>.]<Subject> <predicate> [<object>]"), "{shown}");
    assert!(shown.contains("    line 1, col 6 - FACT expects an atom"), "{shown}");
    assert!(shown.contains("      | FACT lonely\n      |      ^^^^^^"), "{shown}");
}

#[test]
fn a_class_cap_counts_the_hidden_classes() {
    let d = parse("FACT lonely\nIMPORT nothx\nNOT lonely\n").err().unwrap();
    let shown = d.render(Some(1), None);
    assert!(shown.starts_with("RESULT: 3 syntax errors"), "{shown}");
    assert!(shown.ends_with("more classes — pass --max-classes 0 for all"), "{shown}");
}

#[test]
fn exclusive_over_four_atoms_is_six_pairs() {
    let c = compile_source(
        "t.vrf",
        "DOMAIN t\nPREMISE e:\n    EXCLUSIVE\n        x a\n        x b\n        x c\n        x d\n",
    )
    .unwrap();
    assert_eq!(c.clauses.len(), 6);
    assert!(c.clauses.iter().all(|cl| cl.lits.len() == 2 && cl.lits.iter().all(|l| !l.negated)));
}

#[test]
fn and_implication_is_one_clause_per_consequent() {
    let c = compile_source(
        "t.vrf",
        "DOMAIN t\nPREMISE r:\n    WHEN x a\n    AND x b\n    THEN x c\n    AND x d\n",
    )
    .unwrap();
    assert_eq!(c.clauses.len(), 2);
    for cl in &c.clauses {
        assert_eq!(cl.lits.len(), 3);
        assert_eq!(cl.lits.iter().filter(|l| l.negated).count(), 1);
    }
}

fn pairs_after(closes: &str) -> usize {
    let src = format!(
        "DOMAIN t\nFACT a r b\nFACT b r c\n{closes}PREMISE p FOR EACH x r y:\n    WHEN x src\n    THEN y dst\n"
    );
    compile_source("t.vrf", &src).unwrap().clauses.len()
}

#[test]
fn closing_twice_is_closing_once() {
    assert_eq!(pairs_after("CLOSE r SYMMETRIC\n"), pairs_after("CLOSE r SYMMETRIC\nCLOSE r SYMMETRIC\n"));
    assert_eq!(pairs_after("CLOSE r TRANSITIVE\n"), 3);
    assert_eq!(pairs_after("CLOSE r REFLEXIVE\n"), pairs_after("CLOSE r REFLEXIVE\nCLOSE r REFLEXIVE\n"));
}

#[test]
fn identical_sources_at_two_paths_compile_once() {
    let mut r = MemoryResolver::new();
    r.add("main.vrf", "DOMAIN main\nIMPORT \"x.vrf\" AS a\nIMPORT \"y.vrf\" AS b\nFACT a.s p\n");
    r.add("x.vrf", "DOMAIN lib\nFACT s p\n");
    r.add("y.vrf", "DOMAIN lib\nFACT s p\n");
    let c = compile("main.vrf", &r).unwrap();
    // the shared text is one source: its fact is compiled once
    assert_eq!(c.facts.len(), 1);
    assert_eq!(c.atoms.len(), 1);
}

#[test]
fn unused_imports_come_out_sorted() {
    let mut r = MemoryResolver::new();
    r.add("m.vrf", "DOMAIN m\nIMPORT \"z.vrf\"\nIMPORT \"a.vrf\"\nFACT x y\n");
    r.add("z.vrf", "DOMAIN zed\nFACT q r\n");
    r.add("a.vrf", "DOMAIN ay\nFACT q s\n");
    let c = compile("m.vrf", &r).unwrap();
    let domains: Vec<&str> = c.unused_imports.iter().map(|u| u.domain.as_str()).collect();
    assert_eq!(domains, ["ay", "zed"]);
}

#[test]
fn a_clashing_alias_names_the_alias() {
    let mut r = MemoryResolver::new();
    r.add("m.vrf", "DOMAIN m\nIMPORT \"a.vrf\" AS x\nIMPORT \"b.vrf\" AS x\nFACT x.s p\n");
    r.add("a.vrf", "DOMAIN one\nFACT s p\n");
    r.add("b.vrf", "DOMAIN two\nFACT s q\n");
    match compile("m.vrf", &r) {
        Err(CompileError::DomainAliasClash { alias }) => assert_eq!(alias, "x"),
        other => panic!("expected an alias clash, got {other:?}"),
    }
}

#[test]
fn edit_distance_is_symmetric_and_zero_on_itself() {
    assert_eq!(lev("kitten", "sitting"), lev("sitting", "kitten"));
    assert_eq!(lev("flaw", "lawn"), 2);
    assert_eq!(lev("same", "same"), 0);
    assert!(lev("abc", "") <= 3);
}

#[test]
fn a_qualified_port_key_sets_the_qualified_port() {
    let c = elenchus::compile_source_with(
        "d.vrf",
        "DOMAIN d\nVAR k\n",
        &[("d.k".to_string(), elenchus::PortBinding { value: true, origin: "test".to_string() })],
    )
    .unwrap();
    assert_eq!(c.placeholders.len(), 1);
    assert_eq!(c.placeholders[0].value, Some(true));
}

#[test]
fn an_external_value_for_an_unused_atom_is_refused() {
    let err = elenchus::compile_source_with(
        "d.vrf",
        "DOMAIN d\nFACT engine runs\n",
        &[("engine has_fuel".to_string(), elenchus::PortBinding { value: true, origin: "test".to_string() })],
    )
    .unwrap_err();
    assert!(matches!(err, CompileError::UnknownExternalAtom { ref name } if name == "engine has_fuel"), "{err:?}");
}

#[test]
fn an_external_value_for_a_used_atom_becomes_a_fact() {
    let c = elenchus::compile_source_with(
        "d.vrf",
        "DOMAIN d\nPREMISE p:\n    WHEN engine has_fuel\n    THEN engine runs\n",
        &[("engine has_fuel".to_string(), elenchus::PortBinding { value: true, origin: "test".to_string() })],
    )
    .unwrap();
    assert_eq!(c.facts.len(), 1);
    let k = &c.atoms[c.facts[0].atom as usize];
    assert_eq!(k.subject, "engine");
    assert_eq!(k.predicate.as_deref(), Some("has_fuel"));
}

#[test]
fn a_bare_fact_is_a_syntax_error() {
    let err = compile_source("main.vrf", "DOMAIN main\nFACT lonely\n").unwrap_err();
    match err {
        CompileError::Parse(d) => {
            assert_eq!(d.len(), 1);
            assert!(d.render(None, None).starts_with("RESULT: 1 syntax error in main.vrf"));
        }
        other => panic!("expected a parse error, got {other:?}"),
    }
}

#[test]
fn a_diamond_is_walked_once_each_with_imports_first() {
    let mut r = MemoryResolver::new();
    r.add("top.vrf", "DOMAIN top\nIMPORT \"left.vrf\"\nIMPORT \"right.vrf\"\nFACT s p\n");
    r.add("left.vrf", "DOMAIN left\nIMPORT \"base.vrf\"\nFACT s p\n");
    r.add("right.vrf", "DOMAIN right\nIMPORT \"base.vrf\"\nFACT s q\n");
    r.add("base.vrf", "DOMAIN base\nFACT s r\n");
    let (nodes, order) = elenchus::resolve::discover("top.vrf", &r).unwrap();
    assert_eq!(nodes.len(), 4);
    assert_eq!(nodes[0].path, "top.vrf");
    let paths: Vec<&str> = order.iter().map(|&i| nodes[i].path.as_str()).collect();
    assert_eq!(paths, ["base.vrf", "left.vrf", "right.vrf", "top.vrf"]);
    for (a, &i) in order.iter().enumerate() {
        for e in &nodes[i].edges {
            let b = order.iter().position(|&j| j == e.child).unwrap();
            assert!(b < a);
        }
    }
}

#[test]
fn an_import_cycle_is_refused() {
    let mut r = MemoryResolver::new();
    r.add("a.vrf", "DOMAIN a\nIMPORT \"b.vrf\"\nFACT s p\n");
    r.add("b.vrf", "DOMAIN b\nIMPORT \"a.vrf\"\nFACT s q\n");
    match elenchus::resolve::discover("a.vrf", &r) {
        Err(CompileError::CircularImport(p)) => assert_eq!(p, "a.vrf"),
        other => panic!("expected a circular import, got {:?}", other.map(|_| ())),
    }
}

#[test]
fn inputs_merge_inline_values_then_data_sources() {
    let values = vec![
        ("a".to_string(), Some(true)),
        ("b".to_string(), None),
        ("c".to_string(), Some(false)),
    ];
    let data = vec![
        ("one.vrf".to_string(), Some("PROVIDE x: true\nPROVIDE y: false\n".to_string())),
        ("none.vrf".to_string(), None),
        ("two.vrf".to_string(), Some("PROVIDE z: true\n".to_string())),
    ];
    let got = elenchus::pipeline::collect_inputs(&values, &data).unwrap();
    let flat: Vec<(&str, bool, &str)> =
        got.iter().map(|(k, b)| (k.as_str(), b.value, b.origin.as_str())).collect();
    assert_eq!(
        flat,
        [
            ("a", true, "api"),
            ("c", false, "api"),
            ("x", true, "data:one.vrf"),
            ("y", false, "data:one.vrf"),
            ("z", true, "data:two.vrf"),
        ]
    );
}

#[test]
fn a_data_source_with_logic_fails_the_inputs() {
    let data = vec![("bad.vrf".to_string(), Some("PROVIDE x: true\nFACT s p\n".to_string()))];
    match elenchus::pipeline::collect_inputs(&[], &data) {
        Err(CompileError::DataFileStatement { file, line }) => {
            assert_eq!(file, "bad.vrf");
            assert_eq!(line, 2);
        }
        other => panic!("expected a data-file error, got {other:?}"),
    }
}

#[test]
fn every_block_statement_reads_back() {
    let text = "DOMAIN d\n\
SET crew\n    ann\n    bob\n\
// a comment between statements\n\
PREMISE pick:\n    EXCLUSIVE\n        x a\n        x b\n\
PREMISE someone FOR EACH t IN crew:\n    EXISTS h IN crew\n        h helps t\n\
PREMISE chain:\n    WHEN x a\n    AND x c\n    THEN x d\n    OR x e\n\
RULE warm:\n    WHEN x a\n    THEN x warm\n\
FACT x a\n";
    let p = parse(text).unwrap();
    assert_eq!(p.statements.len(), 7);
    assert!(matches!(p.statements[1], elenchus::Statement::SetDecl { .. }));
    assert!(matches!(p.statements[5], elenchus::Statement::Rule { .. }));
    assert!(matches!(p.statements[6], elenchus::Statement::Fact(_)));
}

#[test]
fn a_domainless_block_program_is_refused_for_its_domain() {
    let err = compile_source("m.vrf", "RULE r:\n    WHEN x a\n    THEN x b\n").unwrap_err();
    assert!(matches!(err, CompileError::MissingDomain { .. }));
    let err = compile_source("m.vrf", "DOMAIN a\nSET s\n    one\nDOMAIN b\n").unwrap_err();
    assert!(matches!(err, CompileError::DuplicateDomain { .. }));
}

#[test]
fn normalising_twice_is_normalising_once() {
    for (base, rel) in [
        ("a/b/main.vrf", "../c/./d.vrf"),
        ("/abs/main.vrf", "x/../y.vrf"),
        ("main.vrf", "../../x.vrf"),
        ("dir\\main.vrf", "sub\\.\\z.vrf"),
        ("", ""),
    ] {
        let once = normalize_import_path(base, rel);
        assert_eq!(normalize_import_path("", &once), once);
        assert!(!once.contains('\\'));
        assert!(once.split('/').skip(usize::from(once.starts_with('/'))).all(|s| once.is_empty() || (!s.is_empty() && s != "." && s != "..")));
    }
}

#[test]
fn edit_distance_counts_the_fewest_edits() {
    // "flaw" -> "law" (delete f) -> "lawn" (insert n): two edits, and no
    // single edit does it.
    assert_eq!(lev("flaw", "lawn"), 2);
    // One substitution.
    assert_eq!(lev("gear", "bear"), 1);
    // Every character replaced or added.
    assert_eq!(lev("", "abc"), 3);
    assert_eq!(lev("abc", "xyz"), 3);
}
