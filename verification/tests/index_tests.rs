use anafind::filter::{keeps_word, DEFAULT_MIN_LENGTH};
use anafind::{Index, Pattern, Sig};

fn dictionary(words: &[&str]) -> Index {
    let words: Vec<String> = words.iter().map(|w| w.to_string()).collect();
    Index::build(&words)
}

#[test]
fn finds_the_words_made_of_the_letters() {
    let index = dictionary(&["ant", "tan", "ants", "at"]);
    assert_eq!(index.query("ants", None, 3, None), vec!["ant", "ants", "tan"]);
}

#[test]
fn finds_the_pattern_itself_and_its_parts() {
    let index = dictionary(&["elephant", "ant", "plane"]);
    assert_eq!(index.query("elephant", None, 3, None), vec!["ant", "elephant", "plane"]);
}

#[test]
fn a_word_with_a_letter_too_many_is_left_out() {
    let index = dictionary(&["elephant", "ant", "plane", "planet", "antenna", "help"]);
    assert_eq!(
        index.query("elephant", None, 3, None),
        vec!["ant", "elephant", "help", "plane", "planet"]
    );
}

#[test]
fn exact_length_leaves_only_words_of_that_length() {
    let index = dictionary(&["ant", "tan", "ants", "at", "tans", "a"]);
    assert_eq!(index.query("ants", Some(4), 3, None), vec!["ants", "tans"]);
    assert_eq!(index.query("ants", Some(4), 0, None), vec!["ants", "tans"]);
    assert_eq!(index.query("ants", Some(4), 4, None), vec!["ants", "tans"]);
    assert_eq!(index.query("ants", Some(3), 1, None), vec!["ant", "tan"]);
}

#[test]
fn exact_length_below_the_minimum_finds_nothing() {
    let index = dictionary(&["ant", "tan", "ants", "at"]);
    assert_eq!(index.query("ants", Some(2), 3, None), Vec::<String>::new());
    assert_eq!(index.query("ants", Some(2), 2, None), vec!["at"]);
}

#[test]
fn minimum_length_leaves_out_shorter_words() {
    let index = dictionary(&["ant", "tan", "ants", "at", "a"]);
    assert_eq!(index.query("ants", None, 0, None), vec!["a", "ant", "ants", "at", "tan"]);
    assert_eq!(index.query("ants", None, 2, None), vec!["ant", "ants", "at", "tan"]);
    assert_eq!(index.query("ants", None, 4, None), vec!["ants"]);
    assert_eq!(index.query("ants", None, 5, None), Vec::<String>::new());
}

#[test]
fn positional_pattern_filters_the_words() {
    let index = dictionary(&["dots", "dote", "tods", "dot", "stod"]);
    let pattern = Pattern::from("d.ts");
    assert_eq!(index.query("dotes", None, 3, Some(&pattern)), vec!["dots"]);
    let pattern = Pattern::from("..t.");
    assert_eq!(index.query("dotes", None, 3, Some(&pattern)), vec!["dote", "dots"]);
    let pattern = Pattern::from("...");
    assert_eq!(index.query("dotes", Some(4), 3, Some(&pattern)), Vec::<String>::new());
}

#[test]
fn words_come_out_in_lowercase_and_in_order() {
    let index = dictionary(&["Tan", "NAT", "ant", "Ants"]);
    assert_eq!(index.query("STAN", None, 3, None), vec!["ant", "ants", "nat", "tan"]);
}

#[test]
fn words_are_ordered_by_code_point() {
    let index = dictionary(&["b", "a", "B", "ab", "é", "z", "aa"]);
    assert_eq!(index.query("aabzé", None, 0, None), vec!["a", "aa", "ab", "b", "b", "z", "é"]);
}

#[test]
fn a_word_that_comes_twice_is_found_twice() {
    let index = dictionary(&["ant", "tan", "ant"]);
    assert_eq!(index.query("tan", None, 3, None), vec!["ant", "ant", "tan"]);
}

#[test]
fn the_same_query_gives_the_same_answer() {
    let index = dictionary(&["tan", "ants", "ant", "at", "nat", "stan", "tans"]);
    let pattern = Pattern::from(".a..");
    let first = index.query("ants", None, 3, Some(&pattern));
    let second = index.query("ants", None, 3, Some(&pattern));
    assert_eq!(first, vec!["tans"]);
    assert_eq!(first, second);
    let first = index.query("ants", None, 3, None);
    let second = index.query("ants", None, 3, None);
    assert_eq!(first, vec!["ant", "ants", "nat", "stan", "tan", "tans"]);
    assert_eq!(first, second);
}

#[test]
fn the_empty_pattern_finds_only_empty_words() {
    let index = dictionary(&["ant", "a", ""]);
    assert_eq!(index.query("", None, 3, None), Vec::<String>::new());
    assert_eq!(index.query("", None, 0, None), vec![""]);
}

#[test]
fn the_empty_index_finds_nothing() {
    let index = Index::new();
    assert_eq!(index.query("ants", None, 0, None), Vec::<String>::new());
    let index = dictionary(&[]);
    assert_eq!(index.query("ants", None, 0, None), Vec::<String>::new());
}

#[test]
fn words_can_be_added_one_by_one() {
    let mut index = Index::new();
    index.add("Listen");
    index.add("silent");
    index.add("enlist");
    index.add("list");
    assert_eq!(index.query("tinsel", None, 3, None), vec!["enlist", "list", "listen", "silent"]);
    assert_eq!(index.query("tinsel", Some(6), 3, None), vec!["enlist", "listen", "silent"]);
    assert_eq!(index.query("lits", None, 3, None), vec!["list"]);
}

#[test]
fn lengths_of_words_are_taken_in_characters() {
    let index = dictionary(&["été", "tee", "é"]);
    // "été" has three characters, which take five bytes.
    assert_eq!(index.query("été", Some(3), 0, None), vec!["été"]);
    assert_eq!(index.query("été", Some(5), 0, None), Vec::<String>::new());
    assert_eq!(index.query("été", None, 3, None), vec!["été"]);
    assert_eq!(index.query("été", None, 4, None), Vec::<String>::new());
    assert_eq!(index.query("tee", Some(3), 0, None), vec!["tee"]);
    assert_eq!(index.query("é", Some(1), 0, None), vec!["é"]);
    assert_eq!(index.query("é", None, 2, None), Vec::<String>::new());
    assert!(keeps_word("é", Some(1), 1, None));
    assert!(!keeps_word("é", None, 2, None));
    assert!(!keeps_word("é", Some(2), 0, None));
}

#[test]
fn filters_on_one_word() {
    let pattern = Pattern::from("d.ts");
    assert!(keeps_word("dots", None, 3, None));
    assert!(keeps_word("dots", Some(4), 3, None));
    assert!(keeps_word("dots", Some(4), 4, Some(&pattern)));
    assert!(!keeps_word("dots", Some(5), 3, None));
    assert!(!keeps_word("dots", None, 5, None));
    assert!(!keeps_word("dote", None, 3, Some(&pattern)));
    assert!(!keeps_word("do", None, 3, None));
}

#[test]
fn default_minimum_length_is_three() {
    assert_eq!(DEFAULT_MIN_LENGTH, 3);
    let index = dictionary(&["ant", "tan", "ants", "at"]);
    assert_eq!(index.query("ants", None, DEFAULT_MIN_LENGTH, None), vec!["ant", "ants", "tan"]);
}

#[test]
fn many_words_with_many_signatures() {
    // All the words of one to three letters over five letters.
    let letters = ["a", "b", "c", "d", "e"];
    let mut words: Vec<String> = Vec::new();
    for x in letters {
        words.push(x.to_string());
        for y in letters {
            words.push(format!("{}{}", x, y));
            for z in letters {
                words.push(format!("{}{}{}", x, y, z));
            }
        }
    }
    let index = Index::build(&words);
    assert_eq!(index.query("abc", None, 3, None), vec!["abc", "acb", "bac", "bca", "cab", "cba"]);
    assert_eq!(index.query("aab", None, 3, None), vec!["aab", "aba", "baa"]);
    assert_eq!(index.query("aab", None, 2, None), vec!["aa", "aab", "ab", "aba", "ba", "baa"]);
    assert_eq!(index.query("eee", None, 1, None), vec!["e", "ee", "eee"]);
    assert_eq!(index.query("abcde", None, 0, None).len(), 5 + 20 + 60);
    let pattern = Pattern::from(".e.");
    assert_eq!(index.query("aeb", None, 0, Some(&pattern)), vec!["aeb", "bea"]);
}

#[test]
fn the_first_signature_of_a_canonical_form_decides() {
    // "12" and a hundred and twenty-one ones have the same canonical form, so they
    // share a group: the letters of the word that came first are those of the group.
    let ones = "1".repeat(121);
    let index = dictionary(&["12", &ones]);
    assert_eq!(index.query("12", None, 0, None), vec![ones.as_str(), "12"]);
    assert_eq!(index.query(&ones, None, 0, None), Vec::<String>::new());
    let index = dictionary(&[&ones, "12"]);
    assert_eq!(index.query("12", None, 0, None), Vec::<String>::new());
    assert_eq!(index.query(&ones, None, 0, None), vec![ones.as_str(), "12"]);
}

#[test]
fn words_given_in_lowercase_are_added_as_they_stand() {
    let mut index = Index::new();
    index.add_lowercase("listen".to_string());
    index.add_lowercase("silent".to_string());
    index.add_lowercase("list".to_string());
    // No lowercase form is taken: this word has other letters than "listen".
    index.add_lowercase("LISTEN".to_string());
    let have = Sig::of_lowercase("tinsel");
    assert_eq!(index.query_letters(&have, None, 3, None), vec!["list", "listen", "silent"]);
    assert_eq!(index.query_letters(&have, Some(6), 3, None), vec!["listen", "silent"]);
    let pattern = Pattern::from("s.....");
    assert_eq!(index.query_letters(&have, None, 3, Some(&pattern)), vec!["silent"]);
    let have = Sig::of_lowercase("LISTEN");
    assert_eq!(index.query_letters(&have, None, 3, None), vec!["LISTEN"]);
    let have = Sig::of_lowercase("lits");
    assert_eq!(index.query_letters(&have, None, 5, None), Vec::<String>::new());
}

#[test]
fn a_query_by_letters_is_the_query_by_the_pattern() {
    let index = dictionary(&["ant", "tan", "ants", "at"]);
    let have = Sig::for_word("ANTS");
    assert_eq!(index.query_letters(&have, None, 3, None), index.query("ANTS", None, 3, None));
    assert_eq!(index.query_letters(&have, None, 3, None), vec!["ant", "ants", "tan"]);
}
