//! String-keyed maps and sets kept in ascending key order, as `BTreeMap`
//! and `BTreeSet` keep theirs: keys are ordered lexicographically by their
//! characters, which for UTF-8 text is the order of their bytes.

use vstd::prelude::*;
use crate::text::str_chars;

verus! {

// ---------------------------------------------------------------------------
// Lexicographic order of character sequences
// ---------------------------------------------------------------------------

/// `a` orders strictly before `b`: at the first position where they differ
/// `a` has the smaller character, or `a` is a proper prefix of `b`.
pub open spec fn seq_lt(a: Seq<char>, b: Seq<char>) -> bool
    decreases a.len(),
{
    if a.len() == 0 {
        b.len() > 0
    } else if b.len() == 0 {
        false
    } else if a[0] < b[0] {
        true
    } else if a[0] == b[0] {
        seq_lt(a.drop_first(), b.drop_first())
    } else {
        false
    }
}

/// No sequence orders before itself.
pub proof fn lemma_seq_lt_irreflexive(a: Seq<char>)
    ensures
        !seq_lt(a, a),
    decreases a.len(),
{
    if a.len() > 0 {
        lemma_seq_lt_irreflexive(a.drop_first());
    }
}

/// The order is transitive.
pub proof fn lemma_seq_lt_transitive(a: Seq<char>, b: Seq<char>, c: Seq<char>)
    requires
        seq_lt(a, b),
        seq_lt(b, c),
    ensures
        seq_lt(a, c),
    decreases a.len(),
{
    if a.len() > 0 && b.len() > 0 && c.len() > 0 {
        if a[0] == b[0] && b[0] == c[0] {
            lemma_seq_lt_transitive(a.drop_first(), b.drop_first(), c.drop_first());
        }
    }
}

/// Any two distinct sequences are ordered one way or the other.
pub proof fn lemma_seq_lt_total(a: Seq<char>, b: Seq<char>)
    requires
        a != b,
    ensures
        seq_lt(a, b) || seq_lt(b, a),
    decreases a.len(),
{
    if a.len() > 0 && b.len() > 0 && a[0] == b[0] {
        if a.drop_first() == b.drop_first() {
            assert(a =~= seq![a[0]] + a.drop_first());
            assert(b =~= seq![b[0]] + b.drop_first());
        }
        lemma_seq_lt_total(a.drop_first(), b.drop_first());
    } else if a.len() == 0 && b.len() == 0 {
        assert(a =~= b);
    }
}

/// The order is asymmetric.
pub proof fn lemma_seq_lt_asymmetric(a: Seq<char>, b: Seq<char>)
    requires
        seq_lt(a, b),
    ensures
        !seq_lt(b, a),
{
    if seq_lt(b, a) {
        lemma_seq_lt_transitive(a, b, a);
        lemma_seq_lt_irreflexive(a);
    }
}

proof fn lemma_seq_lt_skip(a: Seq<char>, b: Seq<char>, i: int)
    requires
        0 <= i <= a.len(),
        i <= b.len(),
        forall|k: int| 0 <= k < i ==> a[k] == b[k],
    ensures
        seq_lt(a, b) == seq_lt(a.skip(i), b.skip(i)),
    decreases i,
{
    if i > 0 {
        lemma_seq_lt_skip(a.drop_first(), b.drop_first(), i - 1);
        assert(a.drop_first().skip(i - 1) =~= a.skip(i));
        assert(b.drop_first().skip(i - 1) =~= b.skip(i));
    } else {
        assert(a.skip(0) =~= a);
        assert(b.skip(0) =~= b);
    }
}

/// Whether `a` orders strictly before `b`.
pub fn chars_lt(a: &Vec<char>, b: &Vec<char>) -> (r: bool)
    ensures
        r == seq_lt(a@, b@),
{
    let mut i: usize = 0;
    while i < a.len() && i < b.len() && a[i] == b[i]
        invariant
            i <= a.len(),
            i <= b.len(),
            forall|k: int| 0 <= k < i ==> a@[k] == b@[k],
        decreases a.len() - i,
    {
        i = i + 1;
    }
    proof {
        lemma_seq_lt_skip(a@, b@, i as int);
    }
    if i == a.len() {
        i < b.len()
    } else if i == b.len() {
        false
    } else {
        a[i] < b[i]
    }
}

/// Whether `a` and `b` hold the same characters.
pub fn chars_eq(a: &Vec<char>, b: &Vec<char>) -> (r: bool)
    ensures
        r == (a@ == b@),
{
    if a.len() != b.len() {
        return false;
    }
    let mut i: usize = 0;
    while i < a.len()
        invariant
            i <= a.len() == b.len(),
            forall|k: int| 0 <= k < i ==> a@[k] == b@[k],
        decreases a.len() - i,
    {
        if a[i] != b[i] {
            return false;
        }
        i = i + 1;
    }
    assert(a@ =~= b@);
    true
}

// ---------------------------------------------------------------------------
// Sorted string-keyed map
// ---------------------------------------------------------------------------

/// Whether `keys` ascend strictly.
pub open spec fn strictly_ascending(keys: Seq<Seq<char>>) -> bool {
    forall|i: int, j: int| 0 <= i < j < keys.len() ==> seq_lt(#[trigger] keys[i], #[trigger] keys[j])
}

/// Strictly ascending keys are distinct.
pub proof fn lemma_ascending_distinct(keys: Seq<Seq<char>>, i: int, j: int)
    requires
        strictly_ascending(keys),
        0 <= i < keys.len(),
        0 <= j < keys.len(),
        i != j,
    ensures
        keys[i] != keys[j],
{
    if i < j {
        assert(seq_lt(keys[i], keys[j]));
        lemma_seq_lt_irreflexive(keys[i]);
    } else {
        assert(seq_lt(keys[j], keys[i]));
        lemma_seq_lt_irreflexive(keys[j]);
    }
}

/// A map from strings to values, its entries kept in strictly ascending key
/// order.
#[derive(Debug)]
pub struct StrMap<T> {
    entries: Vec<(String, T)>,
}

impl<T> View for StrMap<T> {
    type V = Seq<(Seq<char>, T)>;

    /// The entries in ascending key order.
    closed spec fn view(&self) -> Seq<(Seq<char>, T)> {
        entries_view(self.entries@)
    }
}

/// The keys of `entries` as character sequences, their values as they are.
pub open spec fn entries_view<T>(entries: Seq<(String, T)>) -> Seq<(Seq<char>, T)> {
    entries.map_values(|e: (String, T)| (e.0@, e.1))
}

/// The keys of entries, in order.
pub open spec fn keys_of<T>(entries: Seq<(Seq<char>, T)>) -> Seq<Seq<char>> {
    entries.map_values(|e: (Seq<char>, T)| e.0)
}

/// Whether some entry has key `k`.
pub open spec fn has_key<T>(entries: Seq<(Seq<char>, T)>, k: Seq<char>) -> bool {
    exists|i: int| 0 <= i < entries.len() && #[trigger] entries[i].0 == k
}

impl<T> StrMap<T> {
    /// Entries ascend strictly by key.
    #[verifier::type_invariant]
    closed spec fn ascending(&self) -> bool {
        strictly_ascending(keys_of(self@))
    }

    /// The keys ascend strictly, so no key occurs twice.
    pub fn keys_ascend(&self)
        ensures
            strictly_ascending(keys_of(self@)),
    {
        proof {
            use_type_invariant(self);
        }
    }

    /// The empty map.
    pub fn new() -> (m: Self)
        ensures
            m@ == Seq::<(Seq<char>, T)>::empty(),
    {
        let m = StrMap { entries: Vec::new() };
        assert(m@ =~= Seq::<(Seq<char>, T)>::empty());
        m
    }

    /// Number of entries.
    pub fn len(&self) -> (n: usize)
        ensures
            n == self@.len(),
    {
        self.entries.len()
    }

    /// The key of the `i`-th entry in ascending order.
    pub fn key_at(&self, i: usize) -> (k: &String)
        requires
            i < self@.len(),
        ensures
            k@ == self@[i as int].0,
    {
        &self.entries[i].0
    }

    /// The value of the `i`-th entry in ascending order.
    pub fn value_at(&self, i: usize) -> (v: &T)
        requires
            i < self@.len(),
        ensures
            *v == self@[i as int].1,
    {
        &self.entries[i].1
    }

    /// The entries, in ascending key order.
    pub fn into_entries(self) -> (entries: Vec<(String, T)>)
        ensures
            entries_view(entries@) == self@,
    {
        self.entries
    }

    /// The position of the entry with key `key`, if there is one.
    pub fn find(&self, key: &str) -> (r: Option<usize>)
        ensures
            r matches Some(i) ==> i < self@.len() && self@[i as int].0 == key@,
            r is None <==> !has_key(self@, key@),
    {
        proof {
            use_type_invariant(self);
        }
        let wanted = str_chars(key);
        let mut i: usize = 0;
        while i < self.entries.len()
            invariant
                i <= self.entries.len(),
                wanted@ == key@,
                forall|k: int| 0 <= k < i ==> (#[trigger] self@[k]).0 != key@,
            decreases self.entries.len() - i,
        {
            let here = str_chars(self.entries[i].0.as_str());
            if chars_eq(&here, &wanted) {
                assert(self@[i as int].0 == key@);
                return Some(i);
            }
            i = i + 1;
        }
        None
    }

    /// The value stored under `key`, if any.
    pub fn get(&self, key: &str) -> (r: Option<&T>)
        ensures
            r matches Some(v) ==> exists|i: int|
                0 <= i < self@.len() && self@[i].0 == key@ && self@[i].1 == *v,
            r is None <==> !has_key(self@, key@),
    {
        match self.find(key) {
            Some(i) => Some(&self.entries[i].1),
            None => None,
        }
    }

    /// Whether some entry has key `key`.
    pub fn contains_key(&self, key: &str) -> (b: bool)
        ensures
            b == has_key(self@, key@),
    {
        self.find(key).is_some()
    }

    /// Stores `value` under `key`, replacing the value of an entry with an
    /// equal key, and keeping the entries in ascending key order.
    pub fn insert(&mut self, key: String, value: T)
        ensures
            has_key(old(self)@, key@) ==> final(self)@.len() == old(self)@.len(),
            !has_key(old(self)@, key@) ==> final(self)@.len() == old(self)@.len() + 1,
            forall|k: Seq<char>| #[trigger] has_key(final(self)@, k) <==> (has_key(old(self)@, k) || k == key@),
            forall|i: int|
                0 <= i < final(self)@.len() && final(self)@[i].0 == key@ ==> #[trigger] final(self)@[i].1
                    == value,
            forall|i: int|
                0 <= i < old(self)@.len() && old(self)@[i].0 != key@ ==> exists|j: int|
                    0 <= j < final(self)@.len() && #[trigger] final(self)@[j] == #[trigger] old(self)@[i],
    {
        proof {
            use_type_invariant(&*self);
        }
        let ghost old_view = self@;
        let ghost old_keys = keys_of(old_view);
        let wanted = str_chars(key.as_str());
        let n = self.entries.len();
        let mut k: usize = 0;
        while k < n
            invariant
                k <= n == self.entries.len(),
                self@ == old_view,
                old_keys == keys_of(old_view),
                wanted@ == key@,
                forall|i: int| 0 <= i < k ==> seq_lt(#[trigger] old_keys[i], key@),
            ensures
                k <= n == self.entries.len(),
                self@ == old_view,
                forall|i: int| 0 <= i < k ==> seq_lt(#[trigger] old_keys[i], key@),
                k < n ==> !seq_lt(old_keys[k as int], key@),
            decreases n - k,
        {
            let here = str_chars(self.entries[k].0.as_str());
            assert(here@ == old_keys[k as int]);
            if !chars_lt(&here, &wanted) {
                break;
            }
            k = k + 1;
        }
        assert(k < n ==> !seq_lt(old_keys[k as int], key@));
        let mut found = false;
        if k < n {
            let here = str_chars(self.entries[k].0.as_str());
            assert(here@ == old_keys[k as int]);
            found = chars_eq(&here, &wanted);
        }
        if found {
            proof {
                assert(old_keys[k as int] == key@);
                assert forall|i: int| 0 <= i < n && i != k implies old_keys[i] != key@ by {
                    lemma_ascending_distinct(old_keys, i, k as int);
                }
            }
            let mut entries: Vec<(String, T)> = Vec::new();
            std::mem::swap(&mut entries, &mut self.entries);
            entries.set(k, (key, value));
            proof {
                assert(keys_of(entries_view(entries@)) =~= old_keys);
                assert forall|q: Seq<char>| #[trigger] has_key(entries_view(entries@), q) <==> (has_key(old_view, q)
                    || q == key@) by {
                    if has_key(old_view, q) {
                        let i = choose|i: int| 0 <= i < old_view.len() && #[trigger] old_view[i].0 == q;
                        assert(entries_view(entries@)[i].0 == q);
                    }
                    if q == key@ {
                        assert(entries_view(entries@)[k as int].0 == q);
                    }
                    if has_key(entries_view(entries@), q) {
                        let i = choose|i: int| 0 <= i < entries_view(entries@).len() && #[trigger] entries_view(entries@)[i].0 == q;
                        assert(old_view[i].0 == q);
                    }
                }
                assert forall|i: int|
                    0 <= i < old_view.len() && old_view[i].0 != key@ implies exists|j: int|
                        0 <= j < entries_view(entries@).len() && #[trigger] entries_view(entries@)[j] == #[trigger] old_view[i] by {
                    assert(i != k);
                    assert(entries_view(entries@)[i] == old_view[i]);
                }
                assert forall|i: int|
                    0 <= i < entries_view(entries@).len() && entries_view(entries@)[i].0 == key@ implies #[trigger] entries_view(entries@)[i].1
                        == value by {
                    if i != k {
                        assert(old_keys[i] != key@);
                    }
                }
                assert(has_key(old_view, key@)) by {
                    assert(old_view[k as int].0 == key@);
                }
            }
            self.entries = entries;
        } else {
            proof {
                if k < n {
                    lemma_seq_lt_total(old_keys[k as int], key@);
                    assert(seq_lt(key@, old_keys[k as int]));
                }
                assert forall|i: int| 0 <= i < n implies old_keys[i] != key@ by {
                    if i < k {
                        lemma_seq_lt_irreflexive(key@);
                    } else {
                        assert(k < n);
                        if i > k {
                            assert(seq_lt(old_keys[k as int], old_keys[i]));
                            lemma_seq_lt_transitive(key@, old_keys[k as int], old_keys[i]);
                        }
                        lemma_seq_lt_irreflexive(key@);
                    }
                }
                assert(!has_key(old_view, key@)) by {
                    if has_key(old_view, key@) {
                        let i = choose|i: int| 0 <= i < old_view.len() && #[trigger] old_view[i].0 == key@;
                        assert(old_keys[i] == key@);
                    }
                }
            }
            let mut entries: Vec<(String, T)> = Vec::new();
            std::mem::swap(&mut entries, &mut self.entries);
            entries.insert(k, (key, value));
            proof {
                let nk = keys_of(entries_view(entries@));
                assert(nk.len() == n + 1);
                assert forall|i: int| 0 <= i < n + 1 implies #[trigger] nk[i] == (if i < k {
                    old_keys[i]
                } else if i == k {
                    key@
                } else {
                    old_keys[i - 1]
                }) by {}
                assert forall|i: int, j: int| 0 <= i < j < nk.len() implies seq_lt(
                    #[trigger] nk[i],
                    #[trigger] nk[j],
                ) by {
                    if j < k {
                        assert(seq_lt(old_keys[i], old_keys[j]));
                    } else if j == k {
                        assert(seq_lt(old_keys[i], key@));
                    } else if i < k {
                        assert(seq_lt(old_keys[i], key@));
                        if j - 1 > k {
                            assert(seq_lt(old_keys[k as int], old_keys[j - 1]));
                            lemma_seq_lt_transitive(key@, old_keys[k as int], old_keys[j - 1]);
                        }
                        lemma_seq_lt_transitive(old_keys[i], key@, old_keys[j - 1]);
                    } else if i == k {
                        if j - 1 > k {
                            assert(seq_lt(old_keys[k as int], old_keys[j - 1]));
                            lemma_seq_lt_transitive(key@, old_keys[k as int], old_keys[j - 1]);
                        }
                    } else {
                        assert(seq_lt(old_keys[i - 1], old_keys[j - 1]));
                    }
                }
                assert forall|q: Seq<char>| #[trigger] has_key(entries_view(entries@), q) <==> (has_key(old_view, q)
                    || q == key@) by {
                    if has_key(old_view, q) {
                        let i = choose|i: int| 0 <= i < old_view.len() && #[trigger] old_view[i].0 == q;
                        if i < k {
                            assert(entries_view(entries@)[i].0 == q);
                        } else {
                            assert(entries_view(entries@)[i + 1].0 == q);
                        }
                    }
                    if q == key@ {
                        assert(entries_view(entries@)[k as int].0 == q);
                    }
                    if has_key(entries_view(entries@), q) {
                        let i = choose|i: int| 0 <= i < entries_view(entries@).len() && #[trigger] entries_view(entries@)[i].0 == q;
                        if i < k {
                            assert(old_view[i].0 == q);
                        } else if i > k {
                            assert(old_view[i - 1].0 == q);
                        }
                    }
                }
                assert forall|i: int|
                    0 <= i < old_view.len() && old_view[i].0 != key@ implies exists|j: int|
                        0 <= j < entries_view(entries@).len() && #[trigger] entries_view(entries@)[j] == #[trigger] old_view[i] by {
                    if i < k {
                        assert(entries_view(entries@)[i] == old_view[i]);
                    } else {
                        assert(entries_view(entries@)[i + 1] == old_view[i]);
                    }
                }
                assert forall|i: int|
                    0 <= i < entries_view(entries@).len() && entries_view(entries@)[i].0 == key@ implies #[trigger] entries_view(entries@)[i].1
                        == value by {
                    if i < k {
                        assert(old_keys[i] != key@);
                    } else if i > k {
                        assert(old_keys[i - 1] != key@);
                    }
                }
            }
            self.entries = entries;
        }
    }
}

/// A set of strings, kept in strictly ascending order.
pub type StrSet = StrMap<()>;

impl StrMap<()> {
    /// Adds `key` to the set.
    pub fn insert_key(&mut self, key: String)
        ensures
            forall|k: Seq<char>| #[trigger] has_key(final(self)@, k) <==> (has_key(old(self)@, k) || k == key@),
            has_key(old(self)@, key@) ==> final(self)@.len() == old(self)@.len(),
            !has_key(old(self)@, key@) ==> final(self)@.len() == old(self)@.len() + 1,
    {
        self.insert(key, ());
    }

    /// Whether `key` is in the set.
    pub fn contains(&self, key: &str) -> (b: bool)
        ensures
            b == has_key(self@, key@),
    {
        self.contains_key(key)
    }
}

} // verus!
