//! The model of an index: the groups of a dictionary, and what a query finds in them.
use crate::canon::{canonical_form, digit_free, lemma_canonical_injective};
use crate::filter::{keeps, kept, lemma_kept_keeps, Filters};
use crate::order::{ascending_words, lemma_ascending_unique};
use crate::sig::letters_of;
use crate::text::lowercase;
use vstd::multiset::Multiset;
use vstd::prelude::*;

verus! {

/// The words of a dictionary that share a signature: the letters of the first of them,
/// and the words in lowercase, in the order in which they came.
pub struct Group {
    pub letters: Multiset<char>,
    pub words: Seq<Seq<char>>,
}

/// The index of the first group whose letters have the canonical form `key`, or the
/// number of groups if none has.
pub open spec fn position(groups: Seq<Group>, key: Seq<char>) -> int
    decreases groups.len(),
{
    if groups.len() == 0 {
        0
    } else if canonical_form(groups[0].letters) == key {
        0
    } else {
        1 + position(groups.drop_first(), key)
    }
}

/// The groups after a word that is given in its lowercase form has joined them: it is
/// the last word of the group of its signature, which is a new last group if there was
/// none.
pub open spec fn add_lowercase(groups: Seq<Group>, lower: Seq<char>) -> Seq<Group> {
    let letters = lower.to_multiset();
    let at = position(groups, canonical_form(letters));
    if at < groups.len() {
        groups.update(
            at,
            Group { letters: groups[at].letters, words: groups[at].words.push(lower) },
        )
    } else {
        groups.push(Group { letters, words: seq![lower] })
    }
}

/// The groups after `word` has joined them, in its lowercase form.
pub open spec fn add_word(groups: Seq<Group>, word: Seq<char>) -> Seq<Group> {
    add_lowercase(groups, lowercase(word))
}

/// The groups of a dictionary: its words added one after the other.
pub open spec fn index_of(words: Seq<Seq<char>>) -> Seq<Group>
    decreases words.len(),
{
    if words.len() == 0 {
        Seq::empty()
    } else {
        add_word(index_of(words.drop_last()), words.last())
    }
}

/// The lowercase forms of the words of a dictionary whose signature has the canonical
/// form `key`, in the order of the dictionary.
pub open spec fn members(words: Seq<Seq<char>>, key: Seq<char>) -> Seq<Seq<char>>
    decreases words.len(),
{
    if words.len() == 0 {
        Seq::empty()
    } else if canonical_form(letters_of(words.last())) == key {
        members(words.drop_last(), key).push(lowercase(words.last()))
    } else {
        members(words.drop_last(), key)
    }
}

/// The words that a query finds, before they are put in order: of each group whose
/// letters are among `have`, the words that pass the filters.
pub open spec fn candidates(groups: Seq<Group>, have: Multiset<char>, f: Filters) -> Seq<Seq<char>>
    decreases groups.len(),
{
    if groups.len() == 0 {
        Seq::empty()
    } else {
        let before = candidates(groups.drop_last(), have, f);
        if groups.last().letters.subset_of(have) {
            before + kept(groups.last().words, f)
        } else {
            before
        }
    }
}

/// What a query should find in a dictionary, word by word: the lowercase form of each
/// word whose letters are among `have` and which passes the filters, in the order of
/// the dictionary.
pub open spec fn answers(words: Seq<Seq<char>>, have: Multiset<char>, f: Filters) -> Seq<Seq<char>>
    decreases words.len(),
{
    if words.len() == 0 {
        Seq::empty()
    } else {
        let before = answers(words.drop_last(), have, f);
        let word = words.last();
        if letters_of(word).subset_of(have) && keeps(lowercase(word), f) {
            before.push(lowercase(word))
        } else {
            before
        }
    }
}

/// Whether `word` is an answer: the lowercase form of a word of the dictionary whose
/// letters are among `have`, and one that passes the filters.
pub open spec fn is_answer(
    word: Seq<char>,
    words: Seq<Seq<char>>,
    have: Multiset<char>,
    f: Filters,
) -> bool {
    exists|i: int|
        0 <= i < words.len() && lowercase(#[trigger] words[i]) == word && letters_of(
            words[i],
        ).subset_of(have) && keeps(word, f)
}

/// Whether no word of the dictionary has a decimal digit among its letters.
pub open spec fn without_digits(words: Seq<Seq<char>>) -> bool {
    forall|i: int| 0 <= i < words.len() ==> digit_free(letters_of(#[trigger] words[i]))
}

/// Whether `found` is what a query with the letters `have` returns: the candidates,
/// each as often as it is one, in ascending lexicographic order.
pub open spec fn is_result(
    found: Seq<Seq<char>>,
    groups: Seq<Group>,
    have: Multiset<char>,
    f: Filters,
) -> bool {
    &&& ascending_words(found)
    &&& found.to_multiset() == candidates(groups, have, f).to_multiset()
}

/// No two groups have letters with the same canonical form.
pub open spec fn distinct_keys(groups: Seq<Group>) -> bool {
    forall|i: int, j: int|
        0 <= i < j < groups.len() ==> canonical_form((#[trigger] groups[i]).letters)
            != canonical_form((#[trigger] groups[j]).letters)
}

/// Where no group before `at` has the key, and the group at `at` has it or `at` is the
/// number of groups, `at` is the key's position.
pub proof fn lemma_position(groups: Seq<Group>, key: Seq<char>, at: int)
    requires
        0 <= at <= groups.len(),
        forall|j: int| 0 <= j < at ==> canonical_form((#[trigger] groups[j]).letters) != key,
        at < groups.len() ==> canonical_form(groups[at].letters) == key,
    ensures
        position(groups, key) == at,
    decreases groups.len(),
{
    if at > 0 {
        let rest = groups.drop_first();
        assert(canonical_form(groups[0].letters) != key);
        assert forall|j: int| 0 <= j < at - 1 implies canonical_form((#[trigger] rest[j]).letters)
            != key by {
            assert(rest[j] == groups[j + 1]);
        }
        lemma_position(rest, key, at - 1);
    }
}

/// Every candidate passes the filters.
pub proof fn lemma_candidates_keep(groups: Seq<Group>, have: Multiset<char>, f: Filters)
    ensures
        forall|i: int|
            0 <= i < candidates(groups, have, f).len() ==> keeps(
                (#[trigger] candidates(groups, have, f)[i]),
                f,
            ),
    decreases groups.len(),
{
    if groups.len() > 0 {
        lemma_candidates_keep(groups.drop_last(), have, f);
        lemma_kept_keeps(groups.last().words, f);
        let all = candidates(groups, have, f);
        let before = candidates(groups.drop_last(), have, f);
        let last = kept(groups.last().words, f);
        assert forall|i: int| 0 <= i < all.len() implies keeps(#[trigger] all[i], f) by {
            if i < before.len() {
                assert(all[i] == before[i]);
            } else {
                assert(all[i] == last[i - before.len()]);
            }
        }
    }
}

/// A query has one result: two sequences that both are the result of the same query
/// on the same groups are equal, word for word.
pub proof fn lemma_result_unique(
    first: Seq<Seq<char>>,
    second: Seq<Seq<char>>,
    groups: Seq<Group>,
    have: Multiset<char>,
    f: Filters,
)
    requires
        is_result(first, groups, have, f),
        is_result(second, groups, have, f),
    ensures
        first == second,
{
    lemma_ascending_unique(first, second);
}

/// Every word of a query's result passes the filters; with a length given, each has
/// exactly so many characters, whatever the minimum is.
pub proof fn lemma_result_keeps(
    found: Seq<Seq<char>>,
    groups: Seq<Group>,
    have: Multiset<char>,
    f: Filters,
)
    requires
        is_result(found, groups, have, f),
    ensures
        forall|i: int| 0 <= i < found.len() ==> keeps(#[trigger] found[i], f),
        f.length matches Some(n) ==> forall|i: int|
            0 <= i < found.len() ==> (#[trigger] found[i]).len() == n,
{
    let c = candidates(groups, have, f);
    lemma_candidates_keep(groups, have, f);
    assert forall|i: int| 0 <= i < found.len() implies keeps(#[trigger] found[i], f) by {
        vstd::seq_lib::to_multiset_contains(found, found[i]);
        vstd::seq_lib::to_multiset_contains(c, found[i]);
        assert(found.contains(found[i]));
        let k = choose|k: int| 0 <= k < c.len() && c[k] == found[i];
        assert(keeps(c[k], f));
    }
}

/// A length below the least length finds nothing: no word has both.
pub proof fn lemma_length_below_minimum(
    found: Seq<Seq<char>>,
    groups: Seq<Group>,
    have: Multiset<char>,
    f: Filters,
)
    requires
        is_result(found, groups, have, f),
        f.length matches Some(n) && n < f.min_length,
    ensures
        found.len() == 0,
{
    lemma_result_keeps(found, groups, have, f);
    if found.len() > 0 {
        assert(keeps(found[0], f));
    }
}

/// A key's position is at most the number of groups; no group before it has the key,
/// and the group at it, if there is one, has the key.
pub proof fn lemma_position_is_first(groups: Seq<Group>, key: Seq<char>)
    ensures
        0 <= position(groups, key) <= groups.len(),
        forall|j: int|
            0 <= j < position(groups, key) ==> canonical_form((#[trigger] groups[j]).letters)
                != key,
        position(groups, key) < groups.len() ==> canonical_form(
            groups[position(groups, key)].letters,
        ) == key,
    decreases groups.len(),
{
    if groups.len() > 0 && canonical_form(groups[0].letters) != key {
        let rest = groups.drop_first();
        lemma_position_is_first(rest, key);
        assert forall|j: int| 0 <= j < position(groups, key) implies canonical_form(
            (#[trigger] groups[j]).letters,
        ) != key by {
            if j > 0 {
                assert(groups[j] == rest[j - 1]);
            }
        }
    }
}

/// The groups of a dictionary have distinct keys.
pub proof fn lemma_index_distinct(words: Seq<Seq<char>>)
    ensures
        distinct_keys(index_of(words)),
    decreases words.len(),
{
    if words.len() > 0 {
        let groups = index_of(words.drop_last());
        lemma_index_distinct(words.drop_last());
        lemma_position_is_first(groups, canonical_form(letters_of(words.last())));
    }
}

/// A key that no word of the dictionary has is without members.
pub proof fn lemma_no_members(words: Seq<Seq<char>>, key: Seq<char>)
    requires
        forall|j: int|
            0 <= j < words.len() ==> canonical_form(letters_of(#[trigger] words[j])) != key,
    ensures
        members(words, key) == Seq::<Seq<char>>::empty(),
    decreases words.len(),
{
    if words.len() > 0 {
        let rest = words.drop_last();
        assert forall|j: int| 0 <= j < rest.len() implies canonical_form(
            letters_of(#[trigger] rest[j]),
        ) != key by {
            assert(rest[j] == words[j]);
        }
        lemma_no_members(rest, key);
        assert(words[words.len() - 1] == words.last());
    }
}

/// The index groups the words of a dictionary by signature: each word has a group
/// with the key of its signature, and each group holds, in the order of the
/// dictionary, the lowercase forms of the words whose signature has the group's key.
pub proof fn lemma_index_groups(words: Seq<Seq<char>>)
    ensures
        forall|j: int|
            0 <= j < words.len() ==> position(
                index_of(words),
                canonical_form(letters_of(#[trigger] words[j])),
            ) < index_of(words).len(),
        forall|i: int|
            0 <= i < index_of(words).len() ==> (#[trigger] index_of(words)[i]).words == members(
                words,
                canonical_form(index_of(words)[i].letters),
            ),
    decreases words.len(),
{
    if words.len() > 0 {
        let rest = words.drop_last();
        let word = words.last();
        let key = canonical_form(letters_of(word));
        let old = index_of(rest);
        let new = index_of(words);
        let at = position(old, key);
        lemma_index_groups(rest);
        lemma_index_distinct(words);
        lemma_position_is_first(old, key);
        let here = if at < old.len() { at } else { old.len() as int };
        assert(canonical_form(new[here].letters) == key);
        assert forall|i: int| 0 <= i < new.len() implies (#[trigger] new[i]).words == members(
            words,
            canonical_form(new[i].letters),
        ) by {
            if i == here {
                if at >= old.len() {
                    assert forall|j: int| 0 <= j < rest.len() implies canonical_form(
                        letters_of(#[trigger] rest[j]),
                    ) != key by {
                        lemma_position_is_first(old, canonical_form(letters_of(rest[j])));
                    }
                    lemma_no_members(rest, key);
                    assert(new[i].words =~= members(words, key));
                }
            } else {
                assert(new[i] == old[i]);
                if i < here {
                    assert(canonical_form(new[i].letters) != canonical_form(new[here].letters));
                } else {
                    assert(canonical_form(new[here].letters) != canonical_form(new[i].letters));
                }
            }
        }
        assert forall|j: int| 0 <= j < words.len() implies position(
            new,
            canonical_form(letters_of(#[trigger] words[j])),
        ) < new.len() by {
            let k = canonical_form(letters_of(words[j]));
            lemma_position_is_first(new, k);
            if j < rest.len() {
                assert(rest[j] == words[j]);
                let p = position(old, k);
                lemma_position_is_first(old, k);
                assert(canonical_form(new[p].letters) == k);
            }
        }
    }
}

/// The letters of the groups of a dictionary without digits are without digits.
pub proof fn lemma_index_without_digits(words: Seq<Seq<char>>)
    requires
        without_digits(words),
    ensures
        forall|i: int|
            0 <= i < index_of(words).len() ==> digit_free((#[trigger] index_of(words)[i]).letters),
    decreases words.len(),
{
    if words.len() > 0 {
        let rest = words.drop_last();
        assert forall|i: int| 0 <= i < rest.len() implies digit_free(
            letters_of(#[trigger] rest[i]),
        ) by {
            assert(rest[i] == words[i]);
        }
        lemma_index_without_digits(rest);
        lemma_position_is_first(index_of(rest), canonical_form(letters_of(words.last())));
        assert(digit_free(letters_of(words[words.len() - 1])));
    }
}

/// The candidates after a word has joined a group are the candidates before, and the
/// word too if the group's letters are among `have` and the word passes the filters.
pub proof fn lemma_candidates_joined(
    groups: Seq<Group>,
    at: int,
    word: Seq<char>,
    have: Multiset<char>,
    f: Filters,
)
    requires
        0 <= at < groups.len(),
    ensures
        ({
            let joined = groups.update(
                at,
                Group { letters: groups[at].letters, words: groups[at].words.push(word) },
            );
            let before = candidates(groups, have, f).to_multiset();
            let after = candidates(joined, have, f).to_multiset();
            if groups[at].letters.subset_of(have) && keeps(word, f) {
                after == before.insert(word)
            } else {
                after == before
            }
        }),
    decreases groups.len(),
{

    let grown = Group { letters: groups[at].letters, words: groups[at].words.push(word) };
    let joined = groups.update(at, grown);
    let rest = groups.drop_last();
    let head = candidates(rest, have, f);
    if at == groups.len() - 1 {
        assert(joined.drop_last() =~= rest);
        assert(grown.words.drop_last() =~= groups[at].words);
        let tail = kept(groups[at].words, f);
        if groups[at].letters.subset_of(have) && keeps(word, f) {
            assert(candidates(joined, have, f) =~= (head + tail).push(word));
            vstd::seq_lib::to_multiset_build(head + tail, word);
        } else {
            assert(candidates(joined, have, f) =~= candidates(groups, have, f));
        }
    } else {
        assert(joined.drop_last() =~= rest.update(at, grown));
        assert(joined.last() == groups.last());
        assert(rest[at] == groups[at]);
        lemma_candidates_joined(rest, at, word, have, f);
        let head_joined = candidates(joined.drop_last(), have, f);
        let tail = kept(groups.last().words, f);
        vstd::seq_lib::lemma_multiset_commutative(head, tail);
        vstd::seq_lib::lemma_multiset_commutative(head_joined, tail);
        if groups.last().letters.subset_of(have) {
            if groups[at].letters.subset_of(have) && keeps(word, f) {
                assert((head_joined + tail).to_multiset() =~= (head + tail).to_multiset().insert(
                    word,
                ));
            }
        }
    }
}

/// In a dictionary without digits, the candidates of a query are the answers: each
/// word whose letters are among `have` and which passes the filters, in lowercase, as
/// often as it stands in the dictionary.
pub proof fn lemma_candidates_are_answers(words: Seq<Seq<char>>, have: Multiset<char>, f: Filters)
    requires
        without_digits(words),
    ensures
        candidates(index_of(words), have, f).to_multiset() == answers(words, have, f).to_multiset(),
    decreases words.len(),
{

    if words.len() > 0 {
        let rest = words.drop_last();
        let word = words.last();
        let lower = lowercase(word);
        let groups = index_of(rest);
        let key = canonical_form(letters_of(word));
        let at = position(groups, key);
        assert forall|i: int| 0 <= i < rest.len() implies digit_free(
            letters_of(#[trigger] rest[i]),
        ) by {
            assert(rest[i] == words[i]);
        }
        assert(digit_free(letters_of(words[words.len() - 1])));
        lemma_candidates_are_answers(rest, have, f);
        lemma_index_without_digits(rest);
        lemma_position_is_first(groups, key);
        let found = candidates(groups, have, f);
        let due = answers(rest, have, f);
        vstd::seq_lib::to_multiset_build(due, lower);
        if at < groups.len() {
            lemma_canonical_injective(groups[at].letters, letters_of(word));
            lemma_candidates_joined(groups, at, lower, have, f);
        } else {
            let opened = Group { letters: letters_of(word), words: seq![lower] };
            assert(groups.push(opened).drop_last() =~= groups);
            assert(seq![lower].drop_last() =~= Seq::<Seq<char>>::empty());
            assert(seq![lower].last() == lower);
            assert(kept(seq![lower].drop_last(), f).len() == 0);
            let only = kept(seq![lower], f);
            if letters_of(word).subset_of(have) && keeps(lower, f) {
                assert(only =~= seq![lower]);
                assert(found + only =~= found.push(lower));
                vstd::seq_lib::to_multiset_build(found, lower);
            } else if letters_of(word).subset_of(have) {
                assert(only =~= Seq::<Seq<char>>::empty());
                assert(found + only =~= found);
            }
        }
    }
}

/// The answers hold the words that are answers, and no others.
pub proof fn lemma_answers_contain(
    word: Seq<char>,
    words: Seq<Seq<char>>,
    have: Multiset<char>,
    f: Filters,
)
    ensures
        answers(words, have, f).contains(word) <==> is_answer(word, words, have, f),
    decreases words.len(),
{
    if words.len() > 0 {
        let rest = words.drop_last();
        let last = words.last();
        let before = answers(rest, have, f);
        let all = answers(words, have, f);
        lemma_answers_contain(word, rest, have, f);
        if all.contains(word) {
            let k = choose|k: int| 0 <= k < all.len() && all[k] == word;
            if k < before.len() {
                assert(before[k] == word);
                let i = choose|i: int|
                    0 <= i < rest.len() && lowercase(#[trigger] rest[i]) == word && letters_of(
                        rest[i],
                    ).subset_of(have) && keeps(word, f);
                assert(words[i] == rest[i]);
            } else {
                assert(words[words.len() - 1] == last);
            }
        }
        if is_answer(word, words, have, f) {
            let i = choose|i: int|
                0 <= i < words.len() && lowercase(#[trigger] words[i]) == word && letters_of(
                    words[i],
                ).subset_of(have) && keeps(word, f);
            if i < rest.len() {
                assert(rest[i] == words[i]);
                let k = choose|k: int| 0 <= k < before.len() && before[k] == word;
                assert(all[k] == word);
            } else {
                assert(all[before.len() as int] == word);
            }
        }
    }
}

/// In a dictionary without digits, the result of a query holds the answers, each as
/// often as it is one: the result is the answers in ascending lexicographic order.
pub proof fn lemma_result_is_answers(
    found: Seq<Seq<char>>,
    words: Seq<Seq<char>>,
    have: Multiset<char>,
    f: Filters,
)
    requires
        without_digits(words),
        is_result(found, index_of(words), have, f),
    ensures
        ascending_words(found),
        found.to_multiset() == answers(words, have, f).to_multiset(),
        forall|word: Seq<char>| found.contains(word) <==> is_answer(word, words, have, f),
{
    lemma_candidates_are_answers(words, have, f);
    let due = answers(words, have, f);
    assert forall|word: Seq<char>| found.contains(word) <==> is_answer(word, words, have, f) by {
        vstd::seq_lib::to_multiset_contains(found, word);
        vstd::seq_lib::to_multiset_contains(due, word);
        lemma_answers_contain(word, words, have, f);
    }
}

} // verus!
