//! A small map keyed by byte strings that keeps its keys in the order in
//! which they were first inserted.

use vstd::prelude::*;

verus! {

/// Whether two byte strings are the same.
pub fn bytes_eq(a: &[u8], b: &[u8]) -> (r: bool)
    ensures
        r == (a@ == b@),
{
    if a.len() != b.len() {
        return false;
    }
    let mut i: usize = 0;
    while i < a.len()
        invariant
            i <= a.len(),
            a.len() == b.len(),
            forall|j: int| 0 <= j < i ==> a@[j] == b@[j],
        decreases a.len() - i,
    {
        if a[i] != b[i] {
            return false;
        }
        i = i + 1;
    }
    assert(a@ =~= b@);
    true
}

/// A copy of a byte string.
pub fn copy_bytes(a: &[u8]) -> (r: Vec<u8>)
    ensures
        r@ == a@,
{
    let mut out: Vec<u8> = Vec::new();
    let mut i: usize = 0;
    while i < a.len()
        invariant
            i <= a.len(),
            out@ == a@.take(i as int),
        decreases a.len() - i,
    {
        out.push(a[i]);
        assert(a@.take(i + 1) =~= a@.take(i as int).push(a@[i as int]));
        i = i + 1;
    }
    assert(a@.take(a@.len() as int) =~= a@);
    out
}

/// The byte strings held by `keys`, in their order.
pub open spec fn key_views(keys: Seq<Vec<u8>>) -> Seq<Seq<u8>> {
    Seq::new(keys.len(), |i: int| keys[i]@)
}

/// The place of `key` in `keys`, where it occurs.
pub fn position(keys: &Vec<Vec<u8>>, key: &[u8]) -> (r: Option<usize>)
    ensures
        match r {
            Some(i) => i < keys.len() && keys@[i as int]@ == key@,
            None => !key_views(keys@).contains(key@),
        },
{
    let mut i: usize = 0;
    while i < keys.len()
        invariant
            i <= keys.len(),
            forall|j: int| 0 <= j < i ==> keys@[j]@ != key@,
        decreases keys.len() - i,
    {
        if bytes_eq(keys[i].as_slice(), key) {
            return Some(i);
        }
        i = i + 1;
    }
    assert forall|j: int| 0 <= j < key_views(keys@).len() implies key_views(keys@)[j] != key@ by {
        assert(key_views(keys@)[j] == keys@[j]@);
    }
    None
}

/// The map that pairs each of `keys` with the value at the same place.
pub open spec fn paired<T>(keys: Seq<Seq<u8>>, values: Seq<T>) -> Map<Seq<u8>, T> {
    Map::new(|k: Seq<u8>| keys.contains(k), |k: Seq<u8>| values[keys.index_of(k)])
}

/// In a sequence without repetition an element is found at its own place.
pub proof fn lemma_index_of<K>(s: Seq<K>, i: int)
    requires
        s.no_duplicates(),
        0 <= i < s.len(),
    ensures
        s.index_of(s[i]) == i,
        s.contains(s[i]),
{
    let j = s.index_of(s[i]);
    assert(0 <= j < s.len() && s[j] == s[i]);
}

/// A sequence without repetition stays so when an element it does not hold
/// is put behind it.
pub proof fn lemma_push_distinct<K>(s: Seq<K>, k: K)
    requires
        s.no_duplicates(),
        !s.contains(k),
    ensures
        s.push(k).no_duplicates(),
        forall|q: K| s.push(k).contains(q) <==> (s.contains(q) || q == k),
{
    let s2 = s.push(k);
    assert forall|i: int, j: int| 0 <= i < s2.len() && 0 <= j < s2.len() && i != j implies s2[i]
        != s2[j] by {
        if i < s.len() {
            assert(s.contains(s[i]));
        }
        if j < s.len() {
            assert(s.contains(s[j]));
        }
    }
    assert forall|q: K| s2.contains(q) <==> (s.contains(q) || q == k) by {
        if s.contains(q) {
            let i = s.index_of(q);
            assert(s2[i] == q);
        }
        if q == k {
            assert(s2[s.len() as int] == k);
        }
        if s2.contains(q) {
            let i = s2.index_of(q);
            if i < s.len() {
                assert(s[i] == q);
            }
        }
    }
}

/// A sequence without repetition stays so when an element is taken out, and
/// then no longer holds that element.
pub proof fn lemma_remove_distinct<K>(s: Seq<K>, i: int)
    requires
        s.no_duplicates(),
        0 <= i < s.len(),
    ensures
        s.remove(i).no_duplicates(),
        forall|q: K| s.remove(i).contains(q) <==> (s.contains(q) && q != s[i]),
{
    let s2 = s.remove(i);
    assert forall|a: int| 0 <= a < s2.len() implies s2[a] == s[if a < i {
        a
    } else {
        a + 1
    }] by {}
    assert forall|q: K| s2.contains(q) <==> (s.contains(q) && q != s[i]) by {
        if s2.contains(q) {
            let a = s2.index_of(q);
            let b = if a < i {
                a
            } else {
                a + 1
            };
            assert(s[b] == q);
        }
        if s.contains(q) && q != s[i] {
            let b = s.index_of(q);
            let a = if b < i {
                b
            } else {
                b - 1
            };
            assert(s2[a] == q);
        }
    }
}

proof fn lemma_paired_push<T>(keys: Seq<Seq<u8>>, values: Seq<T>, k: Seq<u8>, v: T)
    requires
        keys.no_duplicates(),
        keys.len() == values.len(),
        !keys.contains(k),
    ensures
        keys.push(k).no_duplicates(),
        paired(keys.push(k), values.push(v)) == paired(keys, values).insert(k, v),
{
    let keys2 = keys.push(k);
    let values2 = values.push(v);
    lemma_push_distinct(keys, k);
    assert forall|q: Seq<u8>| keys2.contains(q) implies #[trigger] paired(keys2, values2)[q]
        == paired(keys, values).insert(k, v)[q] by {
        if q == k {
            lemma_index_of(keys2, keys.len() as int);
        } else {
            let i = keys.index_of(q);
            assert(keys2[i] == q);
            lemma_index_of(keys2, i);
        }
    }
    assert(paired(keys2, values2) =~= paired(keys, values).insert(k, v));
}

proof fn lemma_paired_update<T>(keys: Seq<Seq<u8>>, values: Seq<T>, i: int, v: T)
    requires
        keys.no_duplicates(),
        keys.len() == values.len(),
        0 <= i < keys.len(),
    ensures
        paired(keys, values.update(i, v)) == paired(keys, values).insert(keys[i], v),
{
    lemma_index_of(keys, i);
    assert forall|q: Seq<u8>| keys.contains(q) implies #[trigger] paired(keys, values.update(i, v))[q]
        == paired(keys, values).insert(keys[i], v)[q] by {
        let j = keys.index_of(q);
        assert(keys[j] == q);
    }
    assert(paired(keys, values.update(i, v)) =~= paired(keys, values).insert(keys[i], v));
}

proof fn lemma_paired_remove<T>(keys: Seq<Seq<u8>>, values: Seq<T>, i: int)
    requires
        keys.no_duplicates(),
        keys.len() == values.len(),
        0 <= i < keys.len(),
    ensures
        keys.remove(i).no_duplicates(),
        paired(keys.remove(i), values.remove(i)) == paired(keys, values).remove(keys[i]),
{
    let keys2 = keys.remove(i);
    let values2 = values.remove(i);
    lemma_remove_distinct(keys, i);
    assert forall|q: Seq<u8>| keys2.contains(q) implies #[trigger] paired(keys2, values2)[q]
        == paired(keys, values).remove(keys[i])[q] by {
        let a = keys2.index_of(q);
        let b = if a < i {
            a
        } else {
            a + 1
        };
        assert(keys2[a] == q);
        assert(keys[b] == q);
        lemma_index_of(keys, b);
    }
    assert(paired(keys2, values2) =~= paired(keys, values).remove(keys[i]));
}

/// A map from byte strings to values of type `T`.
pub struct Table<T> {
    keys: Vec<Vec<u8>>,
    values: Vec<T>,
}

impl<T> View for Table<T> {
    type V = Map<Seq<u8>, T>;

    closed spec fn view(&self) -> Map<Seq<u8>, T> {
        paired(key_views(self.keys@), self.values@)
    }
}

impl<T> Table<T> {
    /// The keys in the order in which they were first inserted.
    pub closed spec fn keys(&self) -> Seq<Seq<u8>> {
        key_views(self.keys@)
    }

    /// The values in the order of their keys.
    pub closed spec fn values(&self) -> Seq<T> {
        self.values@
    }

    /// Every key has one value, and no key occurs twice.
    pub closed spec fn wf(&self) -> bool {
        &&& self.keys@.len() == self.values@.len()
        &&& key_views(self.keys@).no_duplicates()
    }

    /// How the keys, the values and the map of a table belong together.
    pub proof fn lemma_entries(&self)
        requires
            self.wf(),
        ensures
            self.keys().no_duplicates(),
            self.keys().len() == self.values().len(),
            forall|k: Seq<u8>| self@.contains_key(k) <==> self.keys().contains(k),
            forall|i: int|
                0 <= i < self.keys().len() ==> self@.contains_key(#[trigger] self.keys()[i])
                    && self@[self.keys()[i]] == self.values()[i],
    {
        assert forall|i: int| 0 <= i < self.keys().len() implies self@.contains_key(
            #[trigger] self.keys()[i],
        ) && self@[self.keys()[i]] == self.values()[i] by {
            lemma_index_of(self.keys(), i);
        }
    }

    /// A table without entries.
    pub fn new() -> (r: Self)
        ensures
            r.wf(),
            r@ == Map::<Seq<u8>, T>::empty(),
            r.keys() == Seq::<Seq<u8>>::empty(),
    {
        let r = Table { keys: Vec::new(), values: Vec::new() };
        assert(r.keys() =~= Seq::<Seq<u8>>::empty());
        assert(r@ =~= Map::<Seq<u8>, T>::empty());
        r
    }

    /// The number of entries.
    pub fn len(&self) -> (n: usize)
        requires
            self.wf(),
        ensures
            n == self.keys().len(),
    {
        self.keys.len()
    }

    /// The key at place `i`.
    pub fn key_at(&self, i: usize) -> (k: &Vec<u8>)
        requires
            self.wf(),
            i < self.keys().len(),
        ensures
            k@ == self.keys()[i as int],
    {
        &self.keys[i]
    }

    /// The value at place `i`.
    pub fn value_at(&self, i: usize) -> (v: &T)
        requires
            self.wf(),
            i < self.keys().len(),
        ensures
            *v == self.values()[i as int],
            self@.contains_key(self.keys()[i as int]),
            *v == self@[self.keys()[i as int]],
    {
        proof {
            self.lemma_entries();
        }
        &self.values[i]
    }

    /// Whether `key` has a value.
    pub fn contains_key(&self, key: &[u8]) -> (r: bool)
        requires
            self.wf(),
        ensures
            r == self@.contains_key(key@),
    {
        match position(&self.keys, key) {
            Some(i) => {
                assert(key_views(self.keys@)[i as int] == key@);
                true
            },
            None => false,
        }
    }

    /// The value of `key`, where it has one.
    pub fn get(&self, key: &[u8]) -> (r: Option<&T>)
        requires
            self.wf(),
        ensures
            match r {
                Some(v) => self@.contains_key(key@) && *v == self@[key@],
                None => !self@.contains_key(key@),
            },
    {
        match position(&self.keys, key) {
            Some(i) => {
                proof {
                    assert(key_views(self.keys@)[i as int] == key@);
                    lemma_index_of(key_views(self.keys@), i as int);
                }
                Some(&self.values[i])
            },
            None => None,
        }
    }

    /// Gives `key` the value `value`. A new key goes behind the others; a
    /// key that had a value keeps its place.
    pub fn insert(&mut self, key: Vec<u8>, value: T)
        requires
            old(self).wf(),
        ensures
            final(self).wf(),
            final(self)@ == old(self)@.insert(key@, value),
            final(self).keys() == (if old(self)@.contains_key(key@) {
                old(self).keys()
            } else {
                old(self).keys().push(key@)
            }),
    {
        let ghost keys0 = key_views(self.keys@);
        let ghost values0 = self.values@;
        match position(&self.keys, key.as_slice()) {
            Some(i) => {
                proof {
                    assert(keys0[i as int] == key@);
                    lemma_paired_update(keys0, values0, i as int, value);
                }
                self.values[i] = value;
            },
            None => {
                proof {
                    lemma_paired_push(keys0, values0, key@, value);
                }
                self.keys.push(key);
                self.values.push(value);
                assert(key_views(self.keys@) =~= keys0.push(key@));
            },
        }
    }

    /// Takes `key` and its value out. The other keys keep their order.
    pub fn remove(&mut self, key: &[u8]) -> (r: Option<T>)
        requires
            old(self).wf(),
        ensures
            final(self).wf(),
            final(self)@ == old(self)@.remove(key@),
            r == old(self)@.get(key@),
            final(self).keys() == (if old(self)@.contains_key(key@) {
                old(self).keys().remove(old(self).keys().index_of(key@))
            } else {
                old(self).keys()
            }),
    {
        let ghost keys0 = key_views(self.keys@);
        let ghost values0 = self.values@;
        match position(&self.keys, key) {
            Some(i) => {
                proof {
                    assert(keys0[i as int] == key@);
                    lemma_index_of(keys0, i as int);
                    lemma_paired_remove(keys0, values0, i as int);
                }
                self.keys.remove(i);
                let v = self.values.remove(i);
                assert(key_views(self.keys@) =~= keys0.remove(i as int));
                Some(v)
            },
            None => {
                assert(self@ =~= self@.remove(key@));
                None
            },
        }
    }
}

} // verus!
