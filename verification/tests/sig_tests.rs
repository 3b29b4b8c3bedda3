use anafind::Sig;
use std::collections::hash_map::DefaultHasher;
use std::hash::{Hash, Hasher};

#[test]
fn simple_test() {
    // The sig string for a word is what is expected.
    let sig = Sig::for_word("astonishment");
    assert_eq!("a1e1h1i1m1n2o1s2t2", sig.as_str());
}

#[test]
fn hsh_test() {
    // Ensures that the hash of the sig string is the same as the
    // hash of the sig.
    let sig = Sig::for_word("supercilious");

    let mut hasher1 = DefaultHasher::new();
    sig.as_str().hash(&mut hasher1);
    let sig_hash = hasher1.finish();

    let mut hasher2 = DefaultHasher::new();
    sig.hash(&mut hasher2);
    let hash = hasher2.finish();

    assert_eq!(sig_hash, hash);
}

#[test]
fn eq_test() {
    let sig1 = Sig::for_word("abc");
    let sig2 = Sig::for_word("cba");

    let two_sig1 = Sig::for_word("abca");
    let two_sig2 = Sig::for_word("baca");

    let not_sig1 = Sig::for_word("abd");

    let short_sig1 = Sig::for_word("ab");

    // Everything is eq to itself.
    assert_eq!(sig1, sig1);
    assert_eq!(sig2, sig2);
    assert_eq!(two_sig1, two_sig1);
    assert_eq!(two_sig2, two_sig2);
    assert_eq!(not_sig1, not_sig1);
    assert_eq!(short_sig1, short_sig1);

    // Order doesn't matter
    assert_eq!(sig1, sig2);
    assert_eq!(sig2, sig1);

    // things that are not equal
    assert_ne!(sig1, two_sig1);
    assert_ne!(sig1, not_sig1);
    assert_ne!(sig1, short_sig1);
}

#[test]
fn contains_test() {
    let sig_one = Sig::for_word("a");
    let sig_two = Sig::for_word("ab");
    let sig_three = Sig::for_word("abc");
    let sig_four = Sig::for_word("abcd");

    assert!(sig_four.contains(&sig_four));
    assert!(sig_four.contains(&sig_three));
    assert!(sig_four.contains(&sig_two));
    assert!(sig_four.contains(&sig_one));

    assert!(!sig_three.contains(&sig_four));

    let rep_one = Sig::for_word("aa");
    assert!(rep_one.contains(&sig_one));
    assert!(!sig_one.contains(&rep_one));
}

#[test]
fn elephant() {
    let elephant = Sig::for_word("elephant");
    let ant = Sig::for_word("ant");

    assert!(elephant.contains(&ant));
}

#[test]
fn order_of_letters_does_not_matter() {
    assert_eq!(Sig::for_word("abc"), Sig::for_word("cba"));
    assert_eq!(Sig::for_word("abc"), Sig::for_word("bca"));
    assert_eq!(Sig::for_word("cba").as_str(), "a1b1c1");
    assert_eq!(Sig::for_word("bca").as_str(), "a1b1c1");
}

#[test]
fn case_does_not_matter() {
    assert_eq!(Sig::for_word("ABC"), Sig::for_word("abc"));
    assert_eq!(Sig::for_word("ABC").as_str(), "a1b1c1");
    assert_eq!(Sig::for_word("AbCa").as_str(), "a2b1c1");
}

#[test]
fn every_signature_contains_itself() {
    for word in ["", "a", "aa", "abc", "elephant", "Astonishment", "été"] {
        let sig = Sig::for_word(word);
        assert!(sig.contains(&sig));
        assert!(sig.contains(&Sig::for_word(word)));
    }
}

#[test]
fn containment_goes_one_way() {
    assert!(Sig::for_word("abcd").contains(&Sig::for_word("abc")));
    assert!(!Sig::for_word("abc").contains(&Sig::for_word("abcd")));
}

#[test]
fn containment_counts_repetitions() {
    assert!(Sig::for_word("aa").contains(&Sig::for_word("a")));
    assert!(!Sig::for_word("a").contains(&Sig::for_word("aa")));
    assert!(Sig::for_word("banana").contains(&Sig::for_word("nana")));
    assert!(!Sig::for_word("banana").contains(&Sig::for_word("bananas")));
    assert!(!Sig::for_word("banana").contains(&Sig::for_word("bbn")));
}

#[test]
fn containment_of_as_many_letters_still_compares_each() {
    // As many distinct letters on both sides, but not the same ones.
    assert!(!Sig::for_word("abc").contains(&Sig::for_word("abd")));
    assert!(!Sig::for_word("abd").contains(&Sig::for_word("abc")));
    // Fewer distinct letters, one of them missing.
    assert!(!Sig::for_word("abcd").contains(&Sig::for_word("xy")));
}

#[test]
fn different_letters_give_different_signatures() {
    assert_ne!(Sig::for_word("abc"), Sig::for_word("abd"));
    assert_ne!(Sig::for_word("abc"), Sig::for_word("ab"));
}

#[test]
fn empty_word_has_the_empty_signature() {
    let sig = Sig::for_word("");
    assert_eq!(sig.as_str(), "");
    assert_eq!(sig.count('a'), 0);
    assert!(Sig::for_word("abc").contains(&sig));
    assert!(!sig.contains(&Sig::for_word("a")));
}

#[test]
fn counts_of_two_and_three_digits() {
    let ten = "a".repeat(10);
    assert_eq!(Sig::for_word(&ten).as_str(), "a10");
    let many = format!("{}{}", "b".repeat(123), "a".repeat(40));
    assert_eq!(Sig::for_word(&many).as_str(), "a40b123");
    assert_eq!(Sig::for_word(&many).count('b'), 123);
}

#[test]
fn counts_beyond_a_byte() {
    let word = "z".repeat(300);
    let sig = Sig::for_word(&word);
    assert_eq!(sig.as_str(), "z300");
    assert_eq!(sig.count('z'), 300);
}

#[test]
fn count_of_each_letter() {
    let sig = Sig::for_word("Astonishment");
    assert_eq!(sig.count('a'), 1);
    assert_eq!(sig.count('n'), 2);
    assert_eq!(sig.count('s'), 2);
    assert_eq!(sig.count('t'), 2);
    assert_eq!(sig.count('z'), 0);
    assert_eq!(sig.count('A'), 0);
}

#[test]
fn letters_stand_in_order_of_code_point() {
    assert_eq!(Sig::for_word("b a").as_str(), " 1a1b1");
    assert_eq!(Sig::for_word("zèbre").as_str(), "b1e1r1z1è1");
    assert_eq!(Sig::for_word("ÉTÉ").as_str(), "t1é2");
}

#[test]
fn digits_are_letters_too() {
    assert_eq!(Sig::for_word("12").as_str(), "1121");
    // The canonical form of a hundred and twenty-one ones reads the same.
    assert_eq!(Sig::for_word(&"1".repeat(121)).as_str(), "1121");
    assert_eq!(Sig::for_word("12"), Sig::for_word(&"1".repeat(121)));
}

#[test]
fn signature_as_text() {
    assert_eq!(Sig::for_word("astonishment").to_string(), "Sig:a1e1h1i1m1n2o1s2t2");
    assert_eq!(Sig::for_word("").to_string(), "Sig:");
}

#[test]
fn equal_signatures_hash_alike() {
    let mut first = DefaultHasher::new();
    Sig::for_word("listen").hash(&mut first);
    let mut second = DefaultHasher::new();
    Sig::for_word("Silent").hash(&mut second);
    assert_eq!(first.finish(), second.finish());
}

#[test]
fn digits_among_the_letters() {
    assert!(!Sig::for_word("").has_digit());
    assert!(!Sig::for_word("Astonishment").has_digit());
    assert!(Sig::for_word("route66").has_digit());
    assert!(Sig::for_word("0").has_digit());
    assert!(Sig::for_word("9").has_digit());
    assert!(!Sig::for_word("/:").has_digit());
}

#[test]
fn lowercase_form_decides_the_letters() {
    // A capital sigma at the end of a word has another lowercase form than elsewhere,
    // so these two words of the same characters have different letters.
    assert_eq!(Sig::for_word("ΑΣ").as_str(), "α1ς1");
    assert_eq!(Sig::for_word("ΣΑ").as_str(), "α1σ1");
    assert_ne!(Sig::for_word("ΑΣ"), Sig::for_word("ΣΑ"));
    // A character whose lowercase form takes two characters.
    assert_eq!(Sig::for_word("İ").as_str(), "i1\u{307}1");
}

#[test]
fn signature_of_a_lowercase_form() {
    assert_eq!(Sig::of_lowercase("astonishment").as_str(), "a1e1h1i1m1n2o1s2t2");
    assert_eq!(Sig::of_lowercase("cba").as_str(), "a1b1c1");
    assert_eq!(Sig::of_lowercase("").as_str(), "");
    // The characters are taken as they stand.
    assert_eq!(Sig::of_lowercase("AbA").as_str(), "A2b1");
    assert_ne!(Sig::of_lowercase("ABC"), Sig::of_lowercase("abc"));
    assert_eq!(Sig::of_lowercase("abc"), Sig::for_word("ABC"));
    assert!(Sig::of_lowercase("abcd").contains(&Sig::of_lowercase("abc")));
    assert!(!Sig::of_lowercase("abc").contains(&Sig::of_lowercase("abcd")));
    assert!(Sig::of_lowercase("aa").contains(&Sig::of_lowercase("a")));
    assert!(!Sig::of_lowercase("a").contains(&Sig::of_lowercase("aa")));
}

#[test]
fn a_word_and_its_lowercase_form_have_the_same_signature() {
    for word in ["ABC", "Astonishment", "ÉTÉ", "ΑΣ", "İ", "route66", ""] {
        assert_eq!(Sig::for_word(word), Sig::for_word(&word.to_lowercase()));
        assert_eq!(Sig::for_word(word), Sig::of_lowercase(&word.to_lowercase()));
    }
}
