//! Recovery after syntax errors, the per-class caps, and the card examples.
use elenchus::{Diagnostics, keywords, parse};

/// The diagnostics of a source expected to fail (panics if it parsed).
fn diags(src: &str) -> Diagnostics {
    match parse(src) {
        Ok(_) => panic!("expected a parse error, but it parsed:\n{src}"),
        Err(d) => d,
    }
}

const BROKEN: &str = "\
FACT a b c d
FACT a b
NOT a b c d
CHECK
PREMISE p:
    WHEN x y
    THEN model uses too many words
";


#[test]
fn recovery_yields_exactly_one_error_per_broken_statement() {
    // No cascade: the broken PREMISE body does not spawn extra errors on its
    // WHEN/THEN lines, so exactly three statements failed.
    assert_eq!(diags(BROKEN).len(), 3);
}

#[test]
fn recovery_does_not_swallow_following_valid_statements() {
    // A valid FACT after a broken one still parses (it is found at resync).
    let src = "FACT a b c d\nFACT good one\n";
    assert_eq!(diags(src).len(), 1);
}

#[test]
fn many_errors_are_grouped_without_panicking() {
    // A large pile of broken lines (all one class) stays well-behaved: every
    // error is collected, grouped under one class, and the per-class cap trims it.
    let mut src = String::new();
    for i in 0..200 {
        src.push_str(&format!("FACT a b c d{i}\n"));
    }
    let d = diags(&src);
    assert_eq!(d.len(), 200);
    let shown = d.render(None, Some(3));
    assert!(shown.contains("FACT  (200 problems)"), "{shown}");
    assert!(shown.contains("... and 197 more FACT problems"), "{shown}");
}

#[test]
fn top_level_card_examples_actually_parse() {
    // The examples a model is told to copy must themselves be valid programs.
    // A trailing newline is not required: `eol` accepts EOF too. Drawn straight
    // from the keyword table, so every top-level statement is covered and no new
    // one can slip in untested.
    for k in keywords().iter().filter(|k| k.top_level) {
        assert!(
            parse(k.card.example).is_ok(),
            "{} card example must parse:\n{}",
            k.text,
            k.card.example
        );
    }
}
