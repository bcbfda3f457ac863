//! A map from string keys to values, kept as a vector of entries with
//! distinct keys.
use vstd::prelude::*;

verus! {

/// The texts of a sequence of strings.
pub open spec fn texts_of(v: Seq<String>) -> Seq<Seq<char>> {
    v.map_values(|s: String| s@)
}

pub struct Table<V> {
    entries: Vec<(String, V)>,
}

impl<V> Table<V> {
    /// No key occurs in two entries.
    pub closed spec fn wf(&self) -> bool {
        forall|i: int, j: int|
            0 <= i < self.entries@.len() && 0 <= j < self.entries@.len() && i != j
                ==> #[trigger] self.entries@[i].0@ != #[trigger] self.entries@[j].0@
    }

    closed spec fn key_at(&self, k: Seq<char>, i: int) -> bool {
        0 <= i < self.entries@.len() && self.entries@[i].0@ == k
    }

    pub closed spec fn view(&self) -> Map<Seq<char>, V> {
        Map::new(
            |k: Seq<char>| exists|i: int| self.key_at(k, i),
            |k: Seq<char>| self.entries@[choose|i: int| self.key_at(k, i)].1,
        )
    }

    proof fn lemma_entry(&self, i: int)
        requires
            self.wf(),
            0 <= i < self.entries@.len(),
        ensures
            self.view().contains_key(self.entries@[i].0@),
            self.view()[self.entries@[i].0@] == self.entries@[i].1,
    {
        let k = self.entries@[i].0@;
        assert(self.key_at(k, i));
        let j = choose|j: int| self.key_at(k, j);
        assert(self.key_at(k, j));
        assert(i == j);
    }

    pub fn new() -> (r: Self)
        ensures
            r.wf(),
            r.view() == Map::<Seq<char>, V>::empty(),
    {
        let r = Table { entries: Vec::new() };
        assert(r.view() =~= Map::<Seq<char>, V>::empty());
        r
    }

    fn find(&self, key: &String) -> (r: Option<usize>)
        requires
            self.wf(),
        ensures
            match r {
                Some(i) => self.key_at(key@, i as int),
                None => !self.view().contains_key(key@),
            },
    {
        let mut i: usize = 0;
        while i < self.entries.len()
            invariant
                0 <= i <= self.entries@.len(),
                forall|j: int| 0 <= j < i ==> self.entries@[j].0@ != key@,
            decreases self.entries@.len() - i,
        {
            if self.entries[i].0 == *key {
                return Some(i);
            }
            i = i + 1;
        }
        None
    }

    pub fn contains(&self, key: &String) -> (r: bool)
        requires
            self.wf(),
        ensures
            r == self.view().contains_key(key@),
    {
        match self.find(key) {
            Some(i) => {
                proof {
                    self.lemma_entry(i as int);
                }
                true
            },
            None => false,
        }
    }

    pub fn get(&self, key: &String) -> (r: Option<&V>)
        requires
            self.wf(),
        ensures
            match r {
                Some(v) => self.view().contains_key(key@) && *v == self.view()[key@],
                None => !self.view().contains_key(key@),
            },
    {
        match self.find(key) {
            Some(i) => {
                proof {
                    self.lemma_entry(i as int);
                }
                Some(&self.entries[i].1)
            },
            None => None,
        }
    }

    pub fn insert(&mut self, key: String, value: V)
        requires
            old(self).wf(),
        ensures
            final(self).wf(),
            final(self).view() == old(self).view().insert(key@, value),
    {
        match self.find(&key) {
            Some(i) => {
                let ghost k = key@;
                self.entries.set(i, (key, value));
                proof {
                    assert forall|a: int| 0 <= a < self.entries@.len() implies #[trigger] self.entries@[a].0@
                        == old(self).entries@[a].0@ by {}
                    assert(self.wf());
                    let m = self.view();
                    let want = old(self).view().insert(k, value);
                    assert forall|q: Seq<char>| m.contains_key(q) <==> want.contains_key(q) by {
                        if q == k {
                            assert(self.key_at(q, i as int));
                        }
                        if want.contains_key(q) && q != k {
                            let j = choose|j: int| old(self).key_at(q, j);
                            assert(self.key_at(q, j));
                        }
                        if m.contains_key(q) {
                            let j = choose|j: int| self.key_at(q, j);
                            if j != i {
                                assert(old(self).key_at(q, j));
                            }
                        }
                    }
                    assert forall|q: Seq<char>| #[trigger] m.contains_key(q) implies m[q] == want[q] by {
                        let j = choose|j: int| self.key_at(q, j);
                        self.lemma_entry(j);
                        if j != i as int {
                            old(self).lemma_entry(j);
                        }
                    }
                    assert(m =~= want);
                }
            },
            None => {
                let ghost k = key@;
                proof {
                    assert forall|j: int| 0 <= j < old(self).entries@.len() implies #[trigger] old(self).entries@[j].0@
                        != k by {
                        if old(self).entries@[j].0@ == k {
                            assert(old(self).key_at(k, j));
                        }
                    }
                }
                self.entries.push((key, value));
                proof {
                    let n = old(self).entries@.len() as int;
                    assert forall|a: int| 0 <= a < n implies #[trigger] self.entries@[a] == old(self).entries@[a] by {}
                    assert(self.wf());
                    let m = self.view();
                    let want = old(self).view().insert(k, value);
                    assert forall|q: Seq<char>| m.contains_key(q) <==> want.contains_key(q) by {
                        if want.contains_key(q) && q != k {
                            let j = choose|j: int| old(self).key_at(q, j);
                            assert(self.key_at(q, j));
                        }
                        if q == k {
                            assert(self.key_at(q, n));
                        }
                        if m.contains_key(q) {
                            let j = choose|j: int| self.key_at(q, j);
                            if j != n {
                                assert(old(self).key_at(q, j));
                            }
                        }
                    }
                    assert forall|q: Seq<char>| #[trigger] m.contains_key(q) implies m[q] == want[q] by {
                        let j = choose|j: int| self.key_at(q, j);
                        self.lemma_entry(j);
                        if j != n {
                            old(self).lemma_entry(j);
                        }
                    }
                    assert(m =~= want);
                }
            },
        }
    }

    pub fn remove(&mut self, key: &String)
        requires
            old(self).wf(),
        ensures
            final(self).wf(),
            final(self).view() == old(self).view().remove(key@),
    {
        match self.find(key) {
            Some(i) => {
                self.entries.remove(i);
                proof {
                    let m = self.view();
                    let want = old(self).view().remove(key@);
                    let o = old(self).entries@;
                    assert forall|a: int| 0 <= a < self.entries@.len() implies #[trigger] self.entries@[a]
                        == o[if a < i { a } else { a + 1 }] by {}
                    assert forall|q: Seq<char>| m.contains_key(q) <==> want.contains_key(q) by {
                        if want.contains_key(q) {
                            let j = choose|j: int| old(self).key_at(q, j);
                            if j < i {
                                assert(self.key_at(q, j));
                            } else {
                                assert(j != i);
                                assert(self.key_at(q, j - 1));
                            }
                        }
                        if m.contains_key(q) {
                            let j = choose|j: int| self.key_at(q, j);
                            if j < i {
                                assert(old(self).key_at(q, j));
                            } else {
                                assert(old(self).key_at(q, j + 1));
                            }
                        }
                    }
                    assert forall|q: Seq<char>| #[trigger] m.contains_key(q) implies m[q] == want[q] by {
                        let j = choose|j: int| self.key_at(q, j);
                        self.lemma_entry(j);
                        if j < i {
                            old(self).lemma_entry(j);
                        } else {
                            old(self).lemma_entry(j + 1);
                        }
                    }
                    assert(m =~= want);
                }
            },
            None => {
                assert(old(self).view().remove(key@) =~= old(self).view());
            },
        }
    }

    /// The keys, in the order the entries are kept.
    pub closed spec fn key_order(&self) -> Seq<Seq<char>> {
        self.entries@.map_values(|e: (String, V)| e.0@)
    }

    /// The keys in order: each key of the map exactly once.
    pub proof fn lemma_key_order(&self)
        requires
            self.wf(),
        ensures
            self.key_order().no_duplicates(),
            forall|k: Seq<char>| self.view().contains_key(k) <==> self.key_order().contains(k),
    {
        assert forall|k: Seq<char>| self.view().contains_key(k) <==> self.key_order().contains(k) by {
            if self.view().contains_key(k) {
                let i = choose|i: int| self.key_at(k, i);
                assert(self.key_order()[i] == k);
            }
            if self.key_order().contains(k) {
                let i = choose|i: int| 0 <= i < self.key_order().len() && self.key_order()[i] == k;
                assert(self.key_at(k, i));
            }
        }
    }

    pub fn keys(&self) -> (r: Vec<String>)
        ensures
            texts_of(r@) == self.key_order(),
    {
        let mut r: Vec<String> = Vec::new();
        let mut i: usize = 0;
        while i < self.entries.len()
            invariant
                0 <= i <= self.entries@.len(),
                r@.len() == i,
                texts_of(r@) == self.key_order().subrange(0, i as int),
            decreases self.entries@.len() - i,
        {
            let ghost prev = r@;
            let k = self.entries[i].0.clone();
            assert(k@ == self.entries@[i as int].0@);
            r.push(k);
            assert forall|j: int| 0 <= j < i implies #[trigger] r@[j] == prev[j] by {}
            assert(texts_of(prev) == self.key_order().subrange(0, i as int));
            assert forall|j: int| 0 <= j < i implies #[trigger] texts_of(prev)[j] == self.key_order()[j] by {}
            i = i + 1;
            assert(texts_of(r@) =~= self.key_order().subrange(0, i as int));
        }
        assert(self.key_order().subrange(0, i as int) =~= self.key_order());
        r
    }

    pub fn clear(&mut self)
        ensures
            final(self).wf(),
            final(self).view() == Map::<Seq<char>, V>::empty(),
    {
        self.entries.clear();
        assert(self.view() =~= Map::<Seq<char>, V>::empty());
    }
}

} // verus!
