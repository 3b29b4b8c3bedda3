use anafind::text::{char_count, chars_of, hash_of, push_decimal};

#[test]
fn characters_of_a_string() {
    assert_eq!(chars_of(""), Vec::<char>::new());
    assert_eq!(chars_of("abc"), vec!['a', 'b', 'c']);
    assert_eq!(chars_of("été"), vec!['é', 't', 'é']);
}

#[test]
fn length_in_characters() {
    assert_eq!(char_count(""), 0);
    assert_eq!(char_count("dots"), 4);
    assert_eq!(char_count("été"), 3);
    assert_eq!(char_count("日本"), 2);
}

#[test]
fn decimal_numerals() {
    let mut out = String::new();
    push_decimal(&mut out, 0);
    assert_eq!(out, "0");
    push_decimal(&mut out, 7);
    assert_eq!(out, "07");
    push_decimal(&mut out, 10);
    assert_eq!(out, "0710");
    let mut out = String::from("n=");
    push_decimal(&mut out, 12345);
    assert_eq!(out, "n=12345");
    let mut out = String::new();
    push_decimal(&mut out, usize::MAX);
    assert_eq!(out, usize::MAX.to_string());
}

#[test]
fn hash_codes() {
    assert_eq!(hash_of(""), 0xcbf29ce484222325);
    assert_eq!(hash_of("a"), 0xaf63dc4c8601ec8c);
    assert_eq!(hash_of("foobar"), 0x85944171f73967e8);
    assert_eq!(hash_of("a1b1c1"), 0x121401401f9cc42e);
    assert_eq!(hash_of("é"), 0xaf64644c8602d3a4);
    assert_ne!(hash_of("ab"), hash_of("ba"));
}
