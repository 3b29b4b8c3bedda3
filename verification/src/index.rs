//! The index of a dictionary, and queries on it.
use crate::canon::canonical_form;
use crate::filter::{filters, keeps, keeps_word, kept};
use crate::groups::{
    add_lowercase, add_word, candidates, distinct_keys, index_of, is_result, lemma_position,
    lemma_result_keeps, position, Group,
};
use crate::order::sort_words;
use crate::pattern::Pattern;
use crate::sig::{letters_of, Sig};
use crate::text::{hash_code, hash_of};
use std::collections::HashMap;
use vstd::prelude::*;

verus! {

/// The words that share a signature, with the signature of the first of them.
struct Bucket {
    sig: Sig,
    words: Vec<String>,
}

/// The buckets of an index, and under each hash code the places of the buckets whose
/// signature has that code.
struct Store {
    buckets: Vec<Bucket>,
    slots: HashMap<u64, Vec<usize>>,
}

/// The group that a bucket stands for.
spec fn group_of(b: Bucket) -> Group {
    Group { letters: b.sig@, words: b.words.deep_view() }
}

/// The groups that buckets stand for.
spec fn groups_of(buckets: Seq<Bucket>) -> Seq<Group> {
    Seq::new(buckets.len(), |i: int| group_of(buckets[i]))
}

/// The hash code of a bucket's signature.
spec fn code_of(b: Bucket) -> u64 {
    hash_code(b.sig.canonical())
}

/// Every bucket's signature is well formed.
spec fn sound(buckets: Seq<Bucket>) -> bool {
    forall|i: int| 0 <= i < buckets.len() ==> (#[trigger] buckets[i]).sig.wf()
}

/// No bucket's signature has the canonical form `key`.
spec fn absent(buckets: Seq<Bucket>, key: Seq<char>) -> bool {
    forall|i: int| 0 <= i < buckets.len() ==> (#[trigger] buckets[i]).sig.canonical() != key
}

/// Whether the place `at` stands under the hash code `code`.
spec fn listed(slots: Map<u64, Vec<usize>>, code: u64, at: int) -> bool {
    slots.contains_key(code) && exists|k: int| 0 <= k < slots[code]@.len() && slots[code]@[k] == at
}

/// Each bucket's place stands under the hash code of its signature.
spec fn covered(buckets: Seq<Bucket>, slots: Map<u64, Vec<usize>>) -> bool {
    forall|i: int| 0 <= i < buckets.len() ==> listed(slots, code_of(#[trigger] buckets[i]), i)
}

/// Every place that stands under a hash code is below `len`.
spec fn in_range(slots: Map<u64, Vec<usize>>, len: nat) -> bool {
    forall|code: u64, k: int|
        slots.contains_key(code) && 0 <= k < slots[code]@.len() ==> (#[trigger] slots[code]@[k])
            < len
}

/// The canonical form of each group's letters is the one that its bucket's signature
/// holds.
proof fn lemma_keys(buckets: Seq<Bucket>)
    requires
        sound(buckets),
    ensures
        forall|i: int|
            0 <= i < buckets.len() ==> canonical_form((#[trigger] groups_of(buckets)[i]).letters)
                == buckets[i].sig.canonical(),
{
    let groups = groups_of(buckets);
    assert forall|i: int| 0 <= i < buckets.len() implies canonical_form(
        (#[trigger] groups[i]).letters,
    ) == buckets[i].sig.canonical() by {
        buckets[i].sig.lemma_canonical();
    }
}

/// A key that no bucket has stands behind all the groups.
proof fn lemma_absent(buckets: Seq<Bucket>, key: Seq<char>)
    requires
        sound(buckets),
        absent(buckets, key),
    ensures
        position(groups_of(buckets), key) == buckets.len(),
{
    let groups = groups_of(buckets);
    lemma_keys(buckets);
    assert forall|i: int| 0 <= i < groups.len() implies canonical_form(
        (#[trigger] groups[i]).letters,
    ) != key by {
        assert(buckets[i].sig.canonical() != key);
    }
    lemma_position(groups, key, groups.len() as int);
}

/// Among groups with distinct keys, the key of the bucket at `at` stands at `at`.
proof fn lemma_present(buckets: Seq<Bucket>, at: int)
    requires
        sound(buckets),
        distinct_keys(groups_of(buckets)),
        0 <= at < buckets.len(),
    ensures
        position(groups_of(buckets), buckets[at].sig.canonical()) == at,
{
    let groups = groups_of(buckets);
    let key = buckets[at].sig.canonical();
    lemma_keys(buckets);
    assert(canonical_form(groups[at].letters) == key);
    assert forall|i: int| 0 <= i < at implies canonical_form((#[trigger] groups[i]).letters)
        != key by {
        assert(canonical_form(groups[i].letters) != canonical_form(groups[at].letters));
    }
    lemma_position(groups, key, at);
}

impl Store {
    /// Each bucket's signature is well formed, no two buckets have equal signatures,
    /// each bucket's place stands under the hash code of its signature, and every
    /// place that stands under a hash code is that of a bucket.
    spec fn wf(&self) -> bool {
        &&& sound(self.buckets@)
        &&& distinct_keys(groups_of(self.buckets@))
        &&& covered(self.buckets@, self.slots@)
        &&& in_range(self.slots@, self.buckets@.len())
    }

    /// The store without buckets.
    fn new() -> (r: Store)
        ensures
            r.wf(),
            r.buckets@.len() == 0,
    {
        Store { buckets: Vec::new(), slots: HashMap::new() }
    }

    /// The place of the bucket whose signature equals `sig`, or the number of buckets
    /// if there is none.
    fn find(&self, sig: &Sig) -> (at: usize)
        requires
            self.wf(),
        ensures
            at <= self.buckets@.len(),
            at == position(groups_of(self.buckets@), sig.canonical()),
            at == self.buckets@.len() ==> absent(self.buckets@, sig.canonical()),
    {
        broadcast use vstd::std_specs::hash::group_hash_axioms;

        let ghost key = sig.canonical();
        let code = hash_of(sig.as_str());
        match self.slots.get(&code) {
            None => {
                proof {
                    assert forall|i: int| 0 <= i < self.buckets@.len() implies code_of(
                        #[trigger] self.buckets@[i],
                    ) != code by {
                        assert(listed(self.slots@, code_of(self.buckets@[i]), i));
                    }
                    lemma_absent(self.buckets@, key);
                }
                self.buckets.len()
            },
            Some(places) => {
                let mut k: usize = 0;
                while k < places.len()
                    invariant
                        k <= places.len(),
                        self.wf(),
                        key == sig.canonical(),
                        self.slots@.contains_key(code),
                        *places == self.slots@[code],
                        forall|n: int|
                            0 <= n < k ==> self.buckets@[(#[trigger] places@[n]) as int]
                                .sig.canonical() != key,
                    decreases places.len() - k,
                {
                    let at = places[k];
                    assert(self.slots@[code]@[k as int] < self.buckets@.len());
                    if self.buckets[at].sig == *sig {
                        proof {
                            lemma_present(self.buckets@, at as int);
                        }
                        return at;
                    }
                    k += 1;
                }
                proof {
                    assert forall|i: int| 0 <= i < self.buckets@.len() && code_of(
                        #[trigger] self.buckets@[i],
                    ) == code implies self.buckets@[i].sig.canonical() != key by {
                        assert(listed(self.slots@, code, i));
                        let n = choose|n: int| 0 <= n < places@.len() && places@[n] == i;
                        assert(self.buckets@[places@[n] as int].sig.canonical() != key);
                    }
                    lemma_absent(self.buckets@, key);
                }
                self.buckets.len()
            },
        }
    }

    /// Appends `lower` to the words of the bucket at `at`.
    fn extend(&mut self, at: usize, lower: String)
        requires
            old(self).wf(),
            at < old(self).buckets@.len(),
        ensures
            final(self).wf(),
            groups_of(final(self).buckets@) == groups_of(old(self).buckets@).update(
                at as int,
                Group {
                    letters: groups_of(old(self).buckets@)[at as int].letters,
                    words: groups_of(old(self).buckets@)[at as int].words.push(lower@),
                },
            ),
    {
        let ghost before = self.buckets@;
        self.buckets[at].words.push(lower);
        proof {
            let after = self.buckets@;
            assert(after.len() == before.len());
            assert(after[at as int].sig == before[at as int].sig);
            assert(forall|i: int| 0 <= i < before.len() && i != at ==> after[i] == before[i]);
            assert(after[at as int].words.deep_view() =~= before[at as int].words.deep_view().push(
                lower@,
            ));
            assert(groups_of(after) =~= groups_of(before).update(
                at as int,
                Group {
                    letters: groups_of(before)[at as int].letters,
                    words: groups_of(before)[at as int].words.push(lower@),
                },
            ));
            assert(distinct_keys(groups_of(after))) by {
                assert forall|i: int, j: int| 0 <= i < j < after.len() implies canonical_form(
                    (#[trigger] groups_of(after)[i]).letters,
                ) != canonical_form((#[trigger] groups_of(after)[j]).letters) by {
                    assert(groups_of(after)[i].letters == groups_of(before)[i].letters);
                    assert(groups_of(after)[j].letters == groups_of(before)[j].letters);
                }
            }
            assert(covered(after, self.slots@)) by {
                assert forall|i: int| 0 <= i < after.len() implies listed(
                    self.slots@,
                    code_of(#[trigger] after[i]),
                    i,
                ) by {
                    assert(code_of(after[i]) == code_of(before[i]));
                    assert(listed(self.slots@, code_of(before[i]), i));
                }
            }
        }
    }

    /// Puts the place that the next bucket will have under `code`.
    fn list_next(&mut self, code: u64)
        requires
            covered(old(self).buckets@, old(self).slots@),
            in_range(old(self).slots@, old(self).buckets@.len()),
        ensures
            final(self).buckets == old(self).buckets,
            covered(final(self).buckets@, final(self).slots@),
            in_range(final(self).slots@, final(self).buckets@.len() + 1),
            listed(final(self).slots@, code, final(self).buckets@.len() as int),
    {
        broadcast use vstd::std_specs::hash::group_hash_axioms;

        let at = self.buckets.len();
        let ghost slots_before = self.slots@;
        let mut places = match self.slots.remove(&code) {
            Some(places) => places,
            None => Vec::new(),
        };
        let ghost places_before = places@;
        places.push(at);
        self.slots.insert(code, places);
        proof {
            let slots = self.slots@;
            assert(slots[code]@[places_before.len() as int] == at);
            assert forall|i: int| 0 <= i < self.buckets@.len() implies listed(
                slots,
                code_of(#[trigger] self.buckets@[i]),
                i,
            ) by {
                let c = code_of(self.buckets@[i]);
                assert(listed(slots_before, c, i));
                let k = choose|k: int| 0 <= k < slots_before[c]@.len() && slots_before[c]@[k] == i;
                if c == code {
                    assert(places_before[k] == i);
                    assert(slots[code]@[k] == i);
                } else {
                    assert(slots[c] == slots_before[c]);
                    assert(slots[c]@[k] == i);
                }
            }
            assert forall|h: u64, k: int|
                slots.contains_key(h) && 0 <= k < slots[h]@.len() implies (#[trigger] slots[h]@[k])
                < self.buckets@.len() + 1 by {
                if h == code {
                    if k < places_before.len() {
                        assert(slots_before.contains_key(code));
                        assert(slots[h]@[k] == slots_before[code]@[k]);
                    }
                } else {
                    assert(slots[h] == slots_before[h]);
                    assert(slots_before.contains_key(h));
                }
            }
        }
    }

    /// Adds a last bucket, for `sig`, with the one word `lower`.
    fn open(&mut self, sig: Sig, lower: String)
        requires
            old(self).wf(),
            sig.wf(),
            absent(old(self).buckets@, sig.canonical()),
        ensures
            final(self).wf(),
            groups_of(final(self).buckets@) == groups_of(old(self).buckets@).push(
                Group { letters: sig@, words: seq![lower@] },
            ),
    {
        let ghost before = self.buckets@;
        let code = hash_of(sig.as_str());
        let mut words: Vec<String> = Vec::new();
        words.push(lower);
        proof {
            assert(words.deep_view() =~= seq![lower@]);
        }
        self.list_next(code);
        let ghost slots = self.slots@;
        self.buckets.push(Bucket { sig, words });
        proof {
            let after = self.buckets@;
            assert(groups_of(after) =~= groups_of(before).push(
                Group { letters: sig@, words: seq![lower@] },
            ));
            lemma_keys(after);
            assert(distinct_keys(groups_of(after))) by {
                assert forall|i: int, j: int| 0 <= i < j < after.len() implies canonical_form(
                    (#[trigger] groups_of(after)[i]).letters,
                ) != canonical_form((#[trigger] groups_of(after)[j]).letters) by {
                    assert(after[i] == before[i]);
                    if j < before.len() {
                        assert(after[j] == before[j]);
                        assert(groups_of(after)[i] == groups_of(before)[i]);
                        assert(groups_of(after)[j] == groups_of(before)[j]);
                    }
                }
            }
            assert(covered(after, self.slots@)) by {
                assert forall|i: int| 0 <= i < after.len() implies listed(
                    self.slots@,
                    code_of(#[trigger] after[i]),
                    i,
                ) by {
                    if i < before.len() {
                        assert(after[i] == before[i]);
                        assert(listed(slots, code_of(before[i]), i));
                    }
                }
            }
        }
    }

    /// Adds the word `lower`, as it stands: to the bucket of its signature, or to a new
    /// last one.
    fn add(&mut self, lower: String)
        requires
            old(self).wf(),
        ensures
            final(self).wf(),
            groups_of(final(self).buckets@) == add_lowercase(
                groups_of(old(self).buckets@),
                lower@,
            ),
    {
        let sig = Sig::of_lowercase(lower.as_str());
        let at = self.find(&sig);
        if at < self.buckets.len() {
            self.extend(at, lower);
        } else {
            self.open(sig, lower);
        }
    }
}

/// A dictionary's words, grouped by signature.
pub struct Index {
    store: Store,
}

impl View for Index {
    type V = Seq<Group>;

    /// The groups of the index, in the order in which their first words came.
    closed spec fn view(&self) -> Seq<Group> {
        groups_of(self.store.buckets@)
    }
}

impl Index {
    /// What holds of every index: each bucket's signature is well formed, no two
    /// buckets have equal signatures, and each bucket is found under the hash code of
    /// its signature.
    #[verifier::type_invariant]
    pub closed spec fn wf(&self) -> bool {
        self.store.wf()
    }

    /// No two groups of an index have letters with the same canonical form.
    pub proof fn lemma_distinct(&self)
        requires
            self.wf(),
        ensures
            distinct_keys(self@),
    {
    }

    /// An index without words.
    pub fn new() -> (r: Index)
        ensures
            r.wf(),
            r@ == Seq::<Group>::empty(),
    {
        let r = Index { store: Store::new() };
        assert(r@ =~= Seq::<Group>::empty());
        r
    }

    /// Adds to the index a word that is given in its lowercase form: `lower` joins, as
    /// it stands, the group of its signature, which is a new last group if no word of
    /// that signature came before.
    pub fn add_lowercase(&mut self, lower: String)
        ensures
            final(self).wf(),
            final(self)@ == add_lowercase(old(self)@, lower@),
    {
        proof {
            use_type_invariant(&*self);
        }
        let mut store = Store::new();
        std::mem::swap(&mut self.store, &mut store);
        store.add(lower);
        std::mem::swap(&mut self.store, &mut store);
    }

    /// Adds `word` to the index: its lowercase form joins the group of its signature,
    /// which is a new last group if no word of that signature came before.
    pub fn add(&mut self, word: &str)
        ensures
            final(self).wf(),
            final(self)@ == add_word(old(self)@, word@),
    {
        self.add_lowercase(word.to_lowercase());
    }

    /// The index of a dictionary: its words, added one after the other.
    pub fn build(words: &Vec<String>) -> (r: Index)
        ensures
            r.wf(),
            r@ == index_of(words.deep_view()),
    {
        let mut r = Index::new();
        let mut i: usize = 0;
        while i < words.len()
            invariant
                i <= words.len(),
                r.wf(),
                r@ == index_of(words.deep_view().take(i as int)),
            decreases words.len() - i,
        {
            proof {
                let next = words.deep_view().take(i + 1);
                assert(next.drop_last() =~= words.deep_view().take(i as int));
                assert(next.last() == words@[i as int]@);
            }
            r.add(words[i].as_str());
            i += 1;
        }
        proof {
            assert(words.deep_view().take(i as int) =~= words.deep_view());
        }
        r
    }

    /// The words of the index that can be made from the letters `have` and pass the
    /// filters, in ascending lexicographic order: of each group whose letters are among
    /// `have`, the words of at least `min_length` characters, of exactly `length`
    /// characters if a length is given, and that `mtch` matches if a pattern is given.
    pub fn query_letters(
        &self,
        have: &Sig,
        length: Option<usize>,
        min_length: usize,
        mtch: Option<&Pattern>,
    ) -> (found: Vec<String>)
        ensures
            is_result(found.deep_view(), self@, have@, filters(length, min_length, mtch)),
            forall|i: int|
                0 <= i < found.len() ==> keeps(
                    (#[trigger] found@[i])@,
                    filters(length, min_length, mtch),
                ),
            length matches Some(n) ==> forall|i: int|
                0 <= i < found.len() ==> (#[trigger] found@[i])@.len() == n,
    {
        let mut found: Vec<String> = Vec::new();
        let mut i: usize = 0;
        let ghost f = filters(length, min_length, mtch);
        while i < self.store.buckets.len()
            invariant
                i <= self.store.buckets.len(),
                f == filters(length, min_length, mtch),
                found.deep_view() == candidates(self@.take(i as int), have@, f),
            decreases self.store.buckets.len() - i,
        {
            let bucket = &self.store.buckets[i];
            proof {
                assert(self@.take(i + 1).drop_last() =~= self@.take(i as int));
                assert(self@.take(i + 1).last() == group_of(*bucket));
            }
            if have.contains(&bucket.sig) {
                collect(&bucket.words, length, min_length, mtch, &mut found);
            }
            i += 1;
        }
        proof {
            assert(self@.take(i as int) =~= self@);
        }
        sort_words(&mut found);
        proof {
            lemma_result_keeps(found.deep_view(), self@, have@, f);
            assert forall|i: int| 0 <= i < found.len() implies keeps(
                (#[trigger] found@[i])@,
                f,
            ) by {
                assert(found.deep_view()[i] == found@[i]@);
            }
        }
        found
    }

    /// The words of the index that can be made from the letters of `pattern` and pass
    /// the filters, in ascending lexicographic order: the query with the letters of the
    /// lowercase form of `pattern`.
    pub fn query(
        &self,
        pattern: &str,
        length: Option<usize>,
        min_length: usize,
        mtch: Option<&Pattern>,
    ) -> (found: Vec<String>)
        ensures
            is_result(
                found.deep_view(),
                self@,
                letters_of(pattern@),
                filters(length, min_length, mtch),
            ),
            forall|i: int|
                0 <= i < found.len() ==> keeps(
                    (#[trigger] found@[i])@,
                    filters(length, min_length, mtch),
                ),
            length matches Some(n) ==> forall|i: int|
                0 <= i < found.len() ==> (#[trigger] found@[i])@.len() == n,
    {
        let have = Sig::for_word(pattern);
        self.query_letters(&have, length, min_length, mtch)
    }
}

/// Appends to `found` the words that pass the filters.
fn collect(
    words: &Vec<String>,
    length: Option<usize>,
    min_length: usize,
    mtch: Option<&Pattern>,
    found: &mut Vec<String>,
)
    ensures
        final(found).deep_view() == old(found).deep_view() + kept(
            words.deep_view(),
            filters(length, min_length, mtch),
        ),
{
    let ghost f = filters(length, min_length, mtch);
    let mut j: usize = 0;
    proof {
        assert(found.deep_view() =~= old(found).deep_view() + kept(words.deep_view().take(0), f));
    }
    while j < words.len()
        invariant
            j <= words.len(),
            f == filters(length, min_length, mtch),
            found.deep_view() == old(found).deep_view() + kept(words.deep_view().take(j as int), f),
        decreases words.len() - j,
    {
        let word = &words[j];
        let ghost so_far = found.deep_view();
        proof {
            let next = words.deep_view().take(j + 1);
            assert(next.drop_last() =~= words.deep_view().take(j as int));
            assert(next.last() == word@);
        }
        if keeps_word(word.as_str(), length, min_length, mtch) {
            found.push(word.clone());
            proof {
                assert(found.deep_view() =~= so_far.push(word@));
            }
        }
        proof {
            assert(found.deep_view() =~= old(found).deep_view() + kept(
                words.deep_view().take(j + 1),
                f,
            ));
        }
        j += 1;
    }
    proof {
        assert(words.deep_view().take(j as int) =~= words.deep_view());
    }
}

} // verus!
