use anafind::Pattern;

#[test]
fn no_dots() {
    let p: Pattern = "melancholy".into();

    assert!(p.matches("melancholy"));
    assert!(!p.matches("melancholyy"));
    assert!(!p.matches("melanchol"));
}

#[test]
fn one_dot() {
    assert!(Pattern::from(".ots").matches("dots"));
    assert!(Pattern::from("d.ts").matches("dots"));
    assert!(Pattern::from("do.s").matches("dots"));
    assert!(Pattern::from("dot.").matches("dots"));
}

#[test]
fn dots() {
    assert!(Pattern::from("n.t.gl.b").matches("notaglob"));
}

#[test]
fn literal_mismatch_at_last_position() {
    assert!(Pattern::from("d.ts").matches("dots"));
    assert!(!Pattern::from("d.ts").matches("dote"));
}

#[test]
fn literal_mismatch_at_first_position() {
    assert!(!Pattern::from("d.ts").matches("pots"));
}

#[test]
fn literals_are_case_sensitive() {
    assert!(!Pattern::from("Dots").matches("dots"));
    assert!(Pattern::from("Dots").matches("Dots"));
}

#[test]
fn empty_pattern_matches_only_the_empty_word() {
    assert!(Pattern::from("").matches(""));
    assert!(!Pattern::from("").matches("a"));
    assert!(!Pattern::from(".").matches(""));
}

#[test]
fn all_wildcards_match_any_word_of_that_length() {
    assert!(Pattern::from("....").matches("dots"));
    assert!(Pattern::from("....").matches("ante"));
    assert!(!Pattern::from("....").matches("ant"));
    assert!(!Pattern::from("....").matches("antes"));
}

#[test]
fn a_literal_dot_in_the_word_is_matched_by_the_wildcard() {
    assert!(Pattern::from("a.b").matches("a.b"));
    assert!(Pattern::from("a.b").matches("axb"));
}

#[test]
fn lengths_are_taken_in_characters() {
    // "é" is one character of two bytes: one wildcard matches it, two do not.
    assert!(Pattern::from(".").matches("é"));
    assert!(!Pattern::from("..").matches("é"));
    assert!(Pattern::from("é").matches("é"));
    assert!(!Pattern::from("é").matches("e"));
    assert!(!Pattern::from("é").matches("ab"));
    assert!(Pattern::from(".t.").matches("été"));
    assert!(Pattern::from("日.").matches("日本"));
    assert!(!Pattern::from("日.").matches("日本語"));
}

#[test]
fn a_pattern_longer_or_shorter_than_the_word_does_not_match() {
    assert!(!Pattern::from(".b").matches("é"));
    assert!(!Pattern::from("b.").matches("é"));
    assert!(!Pattern::from(".").matches("ab"));
    assert!(!Pattern::from("a").matches("ab"));
    assert!(!Pattern::from("ab.").matches("ab"));
    assert!(Pattern::from(".b").matches("ab"));
}
