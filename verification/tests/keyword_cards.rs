//! Every reserved word carries a complete syntax card.
use elenchus::diag::keyword_in;
use elenchus::{card_for, is_reserved, keywords};

#[test]
fn every_reserved_word_has_a_complete_card() {
    for k in keywords() {
        let card = card_for(k.text).unwrap_or_else(|| panic!("no syntax card for {}", k.text));
        assert!(!card.form.is_empty(), "{}: empty form", k.text);
        assert!(!card.gloss.is_empty(), "{}: empty gloss", k.text);
        assert!(!card.example.is_empty(), "{}: empty example", k.text);
        assert!(
            card.form.contains(k.text),
            "{}: form must name the keyword",
            k.text
        );
    }
}

#[test]
fn unknown_keyword_has_no_card() {
    assert!(card_for("DEFINITELY_NOT_A_KEYWORD").is_none());
}

#[test]
fn cards_cover_the_defeasible_and_witness_words() {
    for w in ["UNLESS", "WITNESS", "BECAUSE"] {
        assert!(is_reserved(w), "{w} must be reserved");
        let c = card_for(w).expect("a card");
        assert!(c.form.contains(w));
        assert!(!c.gloss.is_empty() && !c.example.is_empty());
    }
    assert_eq!(keywords().len(), 35);
    assert!(!is_reserved("WITNESSES"));
}

#[test]
fn cards_keyword_in_finds_witness() {
    let k = keyword_in("expected a term after WITNESS").expect("a keyword");
    assert_eq!(k, "WITNESS");
    assert_eq!(keyword_in("expected ':' after the rule name"), None);
}
