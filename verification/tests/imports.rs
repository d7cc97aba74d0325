//! Multi-source programs held in memory: deduplication, provenance, cycles and
//! errors in imported sources.
use elenchus::hash::hash_text;
use elenchus::resolve::{Arrival, arrive};
use elenchus::strtable::StrTable;
use elenchus::{CompileError, MemoryResolver, compile};

/// car.vrf imports engine.vrf and safety.vrf, which both import base.vrf.
fn car_graph() -> MemoryResolver {
    let mut r = MemoryResolver::new();
    r.add(
        "core/base.vrf",
        "DOMAIN car\nPREMISE exactly_one_gear:\n    ONEOF\n        Car gear low\n        Car gear mid\n        Car gear high\n",
    );
    r.add(
        "std/engine.vrf",
        "DOMAIN car\nIMPORT \"../core/base.vrf\"\nPREMISE engine_needs_fuel:\n    WHEN Car running\n    THEN Car has fuel\nRULE running_implies_warm:\n    WHEN Car running\n    THEN Car warm\n",
    );
    r.add(
        "std/safety.vrf",
        "DOMAIN car\nIMPORT \"../core/base.vrf\"\nPREMISE drive_safely:\n    WHEN Car moving\n    THEN Car belted\n",
    );
    r.add(
        "car.vrf",
        "DOMAIN car\nIMPORT \"std/engine.vrf\"\nIMPORT \"std/safety.vrf\"\nFACT Car has fuel\nFACT Car running\nFACT Car moving\nNOT Car broken\n",
    );
    r
}

#[test]
fn full_car_graph_merges_with_diamond_dedup() {
    let c = compile("car.vrf", &car_graph()).unwrap();
    assert!(c.pending_imports.is_empty(), "all imports must be resolved");
    // base: ONEOF over 3 gears -> 3 pairwise + 1 at-least-one, merged once;
    // + engine_needs_fuel (1) + drive_safely (1).
    assert_eq!(c.clauses.len(), 6);
    assert_eq!(c.rules.len(), 1);
    assert_eq!(c.facts.len(), 4);
}

#[test]
fn fact_unifies_with_imported_premise_atom() {
    let c = compile("car.vrf", &car_graph()).unwrap();
    let has_fuel = c
        .atoms
        .iter()
        .position(|a| a.subject == "Car" && a.predicate.as_deref() == Some("has") && a.object.as_deref() == Some("fuel"))
        .expect("Car has fuel atom") as u32;
    assert!(c.facts.iter().any(|f| f.atom == has_fuel));
    assert!(
        c.clauses.iter().any(|cl| cl.origin.premise.as_deref() == Some("engine_needs_fuel")
            && cl.lits.iter().any(|l| l.atom == has_fuel)),
        "the imported premise must reference the same atom as the local fact"
    );
}

#[test]
fn base_provenance_points_at_the_shared_file() {
    let c = compile("car.vrf", &car_graph()).unwrap();
    let gears: Vec<_> = c.clauses.iter().filter(|cl| cl.origin.premise.as_deref() == Some("exactly_one_gear")).collect();
    assert_eq!(gears.len(), 4);
    assert!(gears.iter().all(|cl| cl.origin.source == "core/base.vrf" && cl.origin.kind == "ONEOF"));
}

#[test]
fn circular_file_imports_detected() {
    let mut r = MemoryResolver::new();
    r.add("cycle/x.vrf", "DOMAIN x\nIMPORT \"y.vrf\"\n");
    r.add("cycle/y.vrf", "DOMAIN y\nIMPORT \"x.vrf\"\n");
    let e = compile("cycle/x.vrf", &r).unwrap_err();
    assert!(matches!(e, CompileError::CircularImport(_)), "got {e:?}");
}

#[test]
fn imports_self_import_is_circular() {
    let mut r = MemoryResolver::new();
    r.add("me.vrf", "DOMAIN me\nIMPORT \"me.vrf\"\n");
    let e = compile("me.vrf", &r).unwrap_err();
    assert!(matches!(e, CompileError::CircularImport(_)), "got {e:?}");
}

#[test]
fn parse_error_in_imported_file_names_that_file() {
    let mut r = MemoryResolver::new();
    r.add("broken/main.vrf", "DOMAIN main\nIMPORT \"bad.vrf\"\n");
    r.add("broken/bad.vrf", "DOMAIN bad\nFACT lonely\n");
    let e = compile("broken/main.vrf", &r).unwrap_err();
    match e {
        CompileError::Parse(d) => {
            let file = d.file().expect("a labelled diagnostic");
            assert!(file.ends_with("bad.vrf"), "file = {file}");
        },
        other => panic!("expected a Parse error naming the imported file, got {other:?}"),
    }
}

#[test]
fn imports_missing_import_errors() {
    let mut r = MemoryResolver::new();
    r.add("main.vrf", "DOMAIN main\nIMPORT \"ghost.vrf\"\n");
    assert!(compile("main.vrf", &r).is_err());
}

#[test]
fn arrival_of_a_loaded_source() {
    let path = "a.vrf".to_string();
    let text = "DOMAIN a\nFACT x y\n".to_string();
    let mut seen: StrTable<usize> = StrTable::new();
    let done = vec![false];

    // A load error stops the walk with that error.
    match arrive(&path, Err(CompileError::ImportNotFound("a.vrf".to_string())), &seen, &done) {
        Arrival::Failed(CompileError::ImportNotFound(p)) => assert_eq!(p, "a.vrf"),
        _ => panic!("expected the load error"),
    }
    // A new text is parsed, with its one domain.
    match arrive(&path, Ok(text.clone()), &seen, &done) {
        Arrival::Fresh { content, hash, program, domain } => {
            assert_eq!(content, text);
            assert_eq!(hash, hash_text(&text));
            assert_eq!(program.statements.len(), 2);
            assert_eq!(domain, "a");
        },
        _ => panic!("expected a fresh source"),
    }
    // A text without a DOMAIN is refused.
    match arrive(&path, Ok("FACT x y\n".to_string()), &seen, &done) {
        Arrival::Failed(CompileError::MissingDomain { file }) => assert_eq!(file, "a.vrf"),
        _ => panic!("expected MissingDomain"),
    }
    // The text of a source still being walked is an import cycle.
    seen.insert(hash_text(&text), 0);
    match arrive(&path, Ok(text.clone()), &seen, &done) {
        Arrival::Failed(CompileError::CircularImport(p)) => assert_eq!(p, "a.vrf"),
        _ => panic!("expected CircularImport"),
    }
    // The text of a finished source is that source again.
    match arrive(&path, Ok(text.clone()), &seen, &vec![true]) {
        Arrival::Seen(i) => assert_eq!(i, 0),
        _ => panic!("expected the finished source"),
    }
}
