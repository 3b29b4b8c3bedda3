//! Signatures: the letters of a word as a multiset, with their canonical form.
use crate::canon::{
    canonical_below, canonical_form, digit_free, lemma_canonical_gap, lemma_canonical_injective,
    lemma_canonical_step, lemma_code_point, CODE_POINT_LIMIT,
};
use crate::text::{chars_of, is_digit, lowercase, push_decimal};
use vstd::multiset::Multiset;
use vstd::prelude::*;
use vstd::std_specs::cmp::PartialEqSpec;
use vstd::string::StringExecFns;

verus! {

/// The letters of a word: the multiset of the characters of its lowercase form.
pub open spec fn letters_of(word: Seq<char>) -> Multiset<char> {
    lowercase(word).to_multiset()
}

/// The entries are ordered by character, strictly ascending.
spec fn ascending(e: Seq<(char, usize)>) -> bool {
    forall|i: int, j: int| #![trigger e[i], e[j]] 0 <= i < j < e.len() ==> e[i].0 < e[j].0
}

/// Every entry counts at least one occurrence.
spec fn positive(e: Seq<(char, usize)>) -> bool {
    forall|i: int| 0 <= i < e.len() ==> (#[trigger] e[i]).1 >= 1
}

/// The multiset that holds `n` times the character `c` and nothing else.
spec fn copies(c: char, n: nat) -> Multiset<char>
    decreases n,
{
    if n == 0 {
        Multiset::empty()
    } else {
        copies(c, (n - 1) as nat).insert(c)
    }
}

/// The multiset that a sequence of entries stands for: each character as many times as
/// its entries count together.
spec fn tally(e: Seq<(char, usize)>) -> Multiset<char>
    decreases e.len(),
{
    if e.len() == 0 {
        Multiset::empty()
    } else {
        tally(e.drop_last()).add(copies(e.last().0, e.last().1 as nat))
    }
}

/// Copies of a character hold that character as often as they are, and no other.
proof fn lemma_copies_count(c: char, n: nat, d: char)
    ensures
        copies(c, n).count(d) == if d == c { n } else { 0 },
    decreases n,
{
    if n > 0 {
        lemma_copies_count(c, (n - 1) as nat, d);
    }
}

/// With no character in two entries, a character occurs as often as its entry says,
/// and a character without an entry does not occur.
proof fn lemma_tally_count(e: Seq<(char, usize)>, c: char)
    requires
        ascending(e),
    ensures
        forall|i: int| 0 <= i < e.len() && (#[trigger] e[i]).0 == c ==> tally(e).count(c) == e[i].1,
        (forall|i: int| 0 <= i < e.len() ==> (#[trigger] e[i]).0 != c) ==> tally(e).count(c) == 0,
    decreases e.len(),
{
    if e.len() > 0 {
        let rest = e.drop_last();
        lemma_tally_count(rest, c);
        lemma_copies_count(e.last().0, e.last().1 as nat, c);
        assert forall|i: int| 0 <= i < e.len() && (#[trigger] e[i]).0 == c implies tally(e).count(c)
            == e[i].1 by {
            if i < e.len() - 1 {
                assert(rest[i] == e[i]);
            } else {
                assert forall|j: int| 0 <= j < rest.len() implies (#[trigger] rest[j]).0 != c by {
                    assert(rest[j] == e[j]);
                }
            }
        }
        if forall|i: int| 0 <= i < e.len() ==> (#[trigger] e[i]).0 != c {
            assert forall|j: int| 0 <= j < rest.len() implies (#[trigger] rest[j]).0 != c by {
                assert(rest[j] == e[j]);
            }
        }
    }
}

/// A new entry for one occurrence of `c` adds one `c` to the multiset.
proof fn lemma_tally_insert(e: Seq<(char, usize)>, k: int, c: char)
    requires
        0 <= k <= e.len(),
    ensures
        tally(e.insert(k, (c, 1usize))) == tally(e).insert(c),
    decreases e.len(),
{
    let f = e.insert(k, (c, 1usize));
    assert(copies(c, 1) =~= Multiset::singleton(c)) by {
        assert(copies(c, 0) =~= Multiset::empty());
    }
    if k == e.len() {
        assert(f.drop_last() =~= e);
        assert(tally(f) =~= tally(e).insert(c));
    } else {
        assert(f.drop_last() =~= e.drop_last().insert(k, (c, 1usize)));
        assert(f.last() == e.last());
        lemma_tally_insert(e.drop_last(), k, c);
        assert(tally(f) =~= tally(e).insert(c));
    }
}

/// An entry that counts one more adds one of its character to the multiset.
proof fn lemma_tally_increment(e: Seq<(char, usize)>, k: int)
    requires
        0 <= k < e.len(),
        e[k].1 < usize::MAX,
    ensures
        tally(e.update(k, (e[k].0, (e[k].1 + 1) as usize))) == tally(e).insert(e[k].0),
    decreases e.len(),
{
    let f = e.update(k, (e[k].0, (e[k].1 + 1) as usize));
    if k == e.len() - 1 {
        assert(f.drop_last() =~= e.drop_last());
        assert(copies(e[k].0, (e[k].1 + 1) as nat) == copies(e[k].0, e[k].1 as nat).insert(e[k].0));
        assert(tally(f) =~= tally(e).insert(e[k].0));
    } else {
        assert(f.drop_last() =~= e.drop_last().update(k, (e[k].0, (e[k].1 + 1) as usize)));
        assert(f.last() == e.last());
        lemma_tally_increment(e.drop_last(), k);
        assert(tally(f) =~= tally(e).insert(e[k].0));
    }
}

/// A signature: the letters of a word without their order, and their canonical form.
#[derive(Debug)]
pub struct Sig {
    letters: Vec<(char, usize)>,
    sig: String,
}

impl View for Sig {
    type V = Multiset<char>;

    /// The multiset of the signature's letters.
    closed spec fn view(&self) -> Multiset<char> {
        tally(self.letters@)
    }
}

/// The place of `c` among ascending entries: the index of the first entry whose
/// character is not below `c`, or the number of entries if there is none.
fn place(e: &Vec<(char, usize)>, c: char) -> (k: usize)
    requires
        ascending(e@),
    ensures
        k <= e.len(),
        forall|i: int| 0 <= i < k ==> (#[trigger] e@[i]).0 < c,
        forall|i: int| k <= i < e.len() ==> (#[trigger] e@[i]).0 >= c,
{
    let mut lo: usize = 0;
    let mut hi: usize = e.len();
    while lo < hi
        invariant
            ascending(e@),
            lo <= hi <= e.len(),
            forall|i: int| 0 <= i < lo ==> (#[trigger] e@[i]).0 < c,
            forall|i: int| hi <= i < e.len() ==> (#[trigger] e@[i]).0 >= c,
        decreases hi - lo,
    {
        let mid: usize = lo + (hi - lo) / 2;
        if e[mid].0 < c {
            lo = mid + 1;
        } else {
            hi = mid;
        }
    }
    lo
}

/// The entries, ordered by character, that count how often each character occurs in
/// `chars`.
fn count_letters(chars: &Vec<char>) -> (e: Vec<(char, usize)>)
    ensures
        ascending(e@),
        positive(e@),
        tally(e@) == chars@.to_multiset(),
{
    let mut e: Vec<(char, usize)> = Vec::new();
    let mut i: usize = 0;
    proof {
        vstd::seq_lib::to_multiset_len(chars@.take(0));
    }
    while i < chars.len()
        invariant
            i <= chars.len(),
            ascending(e@),
            positive(e@),
            tally(e@) == chars@.take(i as int).to_multiset(),
        decreases chars.len() - i,
    {
        let c = chars[i];
        let k = place(&e, c);
        proof {
            assert(chars@.take(i + 1) =~= chars@.take(i as int).push(c));
            vstd::seq_lib::to_multiset_build(chars@.take(i as int), c);
            vstd::seq_lib::to_multiset_len(chars@.take(i as int));
            lemma_tally_count(e@, c);
        }
        let ghost before = e@;
        if k < e.len() && e[k].0 == c {
            let n = e[k].1;
            proof {
                assert(tally(before).count(c) == n);
                assert(tally(before).count(c) <= tally(before).len());
                lemma_tally_increment(before, k as int);
            }
            e.set(k, (c, n + 1));
        } else {
            proof {
                lemma_tally_insert(before, k as int, c);
            }
            e.insert(k, (c, 1));
            assert forall|a: int, b: int| 0 <= a < b < e@.len() implies e@[a].0 < e@[b].0 by {
                if b < k {
                    assert(e@[a] == before[a] && e@[b] == before[b]);
                } else if b == k {
                    assert(e@[a] == before[a]);
                } else if a < k {
                    assert(e@[a] == before[a] && e@[b] == before[b - 1]);
                } else if a == k {
                    assert(e@[b] == before[b - 1]);
                } else {
                    assert(e@[a] == before[a - 1] && e@[b] == before[b - 1]);
                }
            }
            assert forall|a: int| 0 <= a < e@.len() implies (#[trigger] e@[a]).1 >= 1 by {
                if a < k {
                    assert(e@[a] == before[a]);
                } else if a > k {
                    assert(e@[a] == before[a - 1]);
                }
            }
        }
        i += 1;
    }
    assert(chars@.take(i as int) =~= chars@);
    e
}

/// The canonical form of the multiset that the entries stand for.
fn render(e: &Vec<(char, usize)>) -> (out: String)
    requires
        ascending(e@),
        positive(e@),
    ensures
        out@ == canonical_form(tally(e@)),
{
    let ghost m = tally(e@);
    let mut out = String::new();
    let mut i: usize = 0;
    let ghost mut done: nat = 0;
    while i < e.len()
        invariant
            i <= e.len(),
            ascending(e@),
            positive(e@),
            m == tally(e@),
            done <= CODE_POINT_LIMIT,
            i == 0 ==> done == 0,
            i > 0 ==> done == e@[i - 1].0 as int + 1,
            out@ == canonical_below(m, done),
        decreases e.len() - i,
    {
        let c = e[i].0;
        let n = e[i].1;
        proof {
            lemma_code_point(c);
            lemma_tally_count(e@, c);
            assert(m.count(c) == n);
            assert(e@[i as int].0 == c);
            assert forall|d: char| done <= d as int && (d as int) < c as int implies m.count(d)
                == 0 by {
                assert forall|j: int| 0 <= j < e.len() implies (#[trigger] e@[j]).0 != d by {
                    if j < i {
                        assert(j < i - 1 ==> e@[j].0 < e@[i - 1].0);
                    } else if j > i {
                        assert(e@[i as int].0 < e@[j].0);
                    }
                }
                lemma_tally_count(e@, d);
            }
            lemma_canonical_gap(m, done, c as nat);
            lemma_canonical_step(m, c);
            done = c as nat + 1;
        }
        out.push(c);
        push_decimal(&mut out, n);
        i += 1;
    }
    proof {
        assert forall|d: char| done <= d as int && (d as int) < CODE_POINT_LIMIT implies m.count(d)
            == 0 by {
            assert forall|j: int| 0 <= j < e.len() implies (#[trigger] e@[j]).0 != d by {
                assert(j < i - 1 ==> e@[j].0 < e@[i - 1].0);
            }
            lemma_tally_count(e@, d);
        }
        lemma_canonical_gap(m, done, CODE_POINT_LIMIT as nat);
    }
    out
}

/// Entries whose letters are among those of other entries are no more than these.
proof fn lemma_no_more_entries(a: Seq<(char, usize)>, b: Seq<(char, usize)>)
    requires
        ascending(a),
        ascending(b),
        positive(b),
        tally(b).subset_of(tally(a)),
    ensures
        b.len() <= a.len(),
{
    let ka = a.map_values(|p: (char, usize)| p.0);
    let kb = b.map_values(|p: (char, usize)| p.0);
    assert(ka.no_duplicates());
    assert(kb.no_duplicates());
    assert forall|c: char| kb.to_set().contains(c) implies ka.to_set().contains(c) by {
        let j = choose|j: int| 0 <= j < kb.len() && kb[j] == c;
        assert(b[j].0 == c);
        lemma_tally_count(b, c);
        lemma_tally_count(a, c);
        assert(tally(b).count(c) <= tally(a).count(c));
        let i = choose|i: int| 0 <= i < a.len() && (#[trigger] a[i]).0 == c;
        assert(ka[i] == c);
    }
    ka.unique_seq_to_set();
    kb.unique_seq_to_set();
    vstd::set_lib::lemma_len_subset(kb.to_set(), ka.to_set());
}

impl Sig {
    /// What holds of every signature: its entries are ordered by character, each counts
    /// at least one occurrence, and its string is the canonical form of its letters.
    #[verifier::type_invariant]
    pub closed spec fn wf(&self) -> bool {
        &&& ascending(self.letters@)
        &&& positive(self.letters@)
        &&& self.sig@ == canonical_form(tally(self.letters@))
    }

    /// The canonical form that the signature holds.
    pub closed spec fn canonical(&self) -> Seq<char> {
        self.sig@
    }

    /// The canonical form that a signature holds is that of its letters.
    pub proof fn lemma_canonical(&self)
        requires
            self.wf(),
        ensures
            self.canonical() == canonical_form(self@),
    {
    }

    /// Signatures of the same letters have the same canonical form and are equal. So the
    /// signatures of two words are equal whenever the lowercase forms of the words hold
    /// the same characters, in whatever order.
    pub proof fn lemma_same_letters(&self, other: &Sig)
        requires
            self.wf(),
            other.wf(),
            self@ == other@,
        ensures
            self.canonical() == other.canonical(),
            self.eq_spec(other),
    {
    }

    /// Case does not matter: the signatures of two words with the same lowercase form,
    /// as those of a word and of that word in other case, are equal.
    pub proof fn lemma_same_lowercase(&self, other: &Sig, first: Seq<char>, second: Seq<char>)
        requires
            self.wf(),
            other.wf(),
            self@ == letters_of(first),
            other@ == letters_of(second),
            lowercase(first) == lowercase(second),
        ensures
            self.canonical() == other.canonical(),
            self.eq_spec(other),
    {
    }

    /// Equal signatures of letters without digits have the same letters.
    pub proof fn lemma_equal_same_letters(&self, other: &Sig)
        requires
            self.wf(),
            other.wf(),
            digit_free(self@),
            digit_free(other@),
            self.eq_spec(other),
        ensures
            self@ == other@,
    {
        lemma_canonical_injective(self@, other@);
    }

    /// Every signature contains itself.
    pub proof fn lemma_contains_reflexive(&self)
        ensures
            self@.subset_of(self@),
    {
    }

    /// What is contained in a signature that a third contains, the third contains too.
    pub proof fn lemma_contains_transitive(&self, middle: &Sig, inner: &Sig)
        requires
            middle@.subset_of(self@),
            inner@.subset_of(middle@),
        ensures
            inner@.subset_of(self@),
    {
        assert forall|c: char| inner@.count(c) <= self@.count(c) by {
            assert(inner@.count(c) <= middle@.count(c));
            assert(middle@.count(c) <= self@.count(c));
        }
    }

    /// Two signatures that contain each other have the same letters, and are equal.
    pub proof fn lemma_contains_antisymmetric(&self, other: &Sig)
        requires
            self.wf(),
            other.wf(),
            other@.subset_of(self@),
            self@.subset_of(other@),
        ensures
            self@ == other@,
            self.eq_spec(other),
    {
        assert forall|c: char| self@.count(c) == other@.count(c) by {
            assert(self@.count(c) <= other@.count(c));
            assert(other@.count(c) <= self@.count(c));
        }
        assert(self@ =~= other@);
    }

    /// The canonical form, as a string slice.
    pub fn as_str(&self) -> (s: &str)
        ensures
            s@ == self.canonical(),
    {
        self.sig.as_str()
    }

    /// How often `c` occurs among the signature's letters.
    pub fn count(&self, c: char) -> (n: usize)
        ensures
            n == self@.count(c),
    {
        proof {
            use_type_invariant(self);
            lemma_tally_count(self.letters@, c);
        }
        let k = place(&self.letters, c);
        if k < self.letters.len() && self.letters[k].0 == c {
            self.letters[k].1
        } else {
            0
        }
    }

    /// Whether a decimal digit is among the signature's letters.
    pub fn has_digit(&self) -> (r: bool)
        ensures
            r == !digit_free(self@),
    {
        proof {
            use_type_invariant(self);
        }
        let mut i: usize = 0;
        while i < self.letters.len()
            invariant
                i <= self.letters.len(),
                ascending(self.letters@),
                positive(self.letters@),
                forall|k: int| 0 <= k < i ==> !is_digit((#[trigger] self.letters@[k]).0),
            decreases self.letters.len() - i,
        {
            let c = self.letters[i].0;
            if '0' <= c && c <= '9' {
                proof {
                    lemma_tally_count(self.letters@, c);
                    assert(self@.count(c) > 0 && is_digit(c));
                }
                return true;
            }
            i += 1;
        }
        proof {
            assert forall|c: char| self@.count(c) > 0 implies !is_digit(c) by {
                lemma_tally_count(self.letters@, c);
            }
        }
        false
    }

    /// Whether `other` can be made from the letters of `self`: no letter occurs in
    /// `other` more often than in `self`.
    pub fn contains(&self, other: &Sig) -> (r: bool)
        ensures
            r == other@.subset_of(self@),
    {
        proof {
            use_type_invariant(self);
            use_type_invariant(other);
        }
        if other.letters.len() > self.letters.len() {
            proof {
                if other@.subset_of(self@) {
                    lemma_no_more_entries(self.letters@, other.letters@);
                }
            }
            return false;
        }
        let mut j: usize = 0;
        while j < other.letters.len()
            invariant
                j <= other.letters.len(),
                ascending(other.letters@),
                forall|k: int|
                    0 <= k < j ==> other@.count((#[trigger] other.letters@[k]).0) <= self@.count(
                        other.letters@[k].0,
                    ),
            decreases other.letters.len() - j,
        {
            let c = other.letters[j].0;
            let n = other.letters[j].1;
            proof {
                lemma_tally_count(other.letters@, c);
            }
            if self.count(c) < n {
                return false;
            }
            j += 1;
        }
        proof {
            assert forall|c: char| other@.count(c) <= self@.count(c) by {
                lemma_tally_count(other.letters@, c);
            }
        }
        true
    }

    /// The signature as text: the canonical form behind a fixed prefix.
    pub fn to_string(&self) -> (s: String)
        ensures
            s@ == "Sig:"@ + self.canonical(),
    {
        let mut s = String::from_str("Sig:");
        s.append(self.sig.as_str());
        s
    }

    /// The signature of a word that is given in its lowercase form: the characters of
    /// `lower` as they stand, with their canonical form.
    pub fn of_lowercase(lower: &str) -> (r: Sig)
        ensures
            r.wf(),
            r@ == lower@.to_multiset(),
            r.canonical() == canonical_form(lower@.to_multiset()),
    {
        let chars = chars_of(lower);
        let letters = count_letters(&chars);
        let sig = render(&letters);
        Sig { letters, sig }
    }

    /// The signature of `word`: the letters of its lowercase form, with their canonical
    /// form.
    pub fn for_word(word: &str) -> (r: Sig)
        ensures
            r.wf(),
            r@ == letters_of(word@),
            r.canonical() == canonical_form(letters_of(word@)),
    {
        let lower = word.to_lowercase();
        Sig::of_lowercase(lower.as_str())
    }
}

impl PartialEq for Sig {
    /// Two signatures are equal when their canonical forms are.
    fn eq(&self, other: &Sig) -> (r: bool) {
        self.sig == other.sig
    }
}

impl Eq for Sig {

}

impl vstd::std_specs::cmp::PartialEqSpecImpl for Sig {
    open spec fn obeys_eq_spec() -> bool {
        true
    }

    open spec fn eq_spec(&self, other: &Sig) -> bool {
        self.canonical() == other.canonical()
    }
}

impl std::hash::Hash for Sig {
    /// Feeds the canonical form, and nothing else, to the hasher: equal signatures feed
    /// it the same.
    fn hash<H: std::hash::Hasher>(&self, state: &mut H) {
        self.sig.hash(state)
    }
}

} // verus!
