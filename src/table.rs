use vstd::prelude::*;

verus! {

/// A map from string keys to values, kept as a list of entries in the order
/// in which their keys were first written. Keys are distinct. The order is
/// what a commit reports its results in; a hashed map would give no order
/// to rely on, and its lookups are not specified for string keys.
pub struct Table<V> {
    pub entries: Vec<(String, V)>,
}

/// Position of the entry whose key reads `k`, if any.
pub open spec fn key_at<V>(s: Seq<(String, V)>, i: int, k: Seq<char>) -> bool {
    0 <= i < s.len() && s[i].0@ == k
}

impl<V> Table<V> {
    pub open spec fn wf(&self) -> bool {
        forall|i: int, j: int|
            0 <= i < self.entries@.len() && 0 <= j < self.entries@.len() && i != j
                ==> self.entries@[i].0@ != self.entries@[j].0@
    }

    pub open spec fn has(&self, k: Seq<char>) -> bool {
        exists|i: int| key_at(self.entries@, i, k)
    }

    /// The table as a map from key to value.
    pub open spec fn view(&self) -> Map<Seq<char>, V> {
        Map::new(
            |k: Seq<char>| self.has(k),
            |k: Seq<char>| self.entries@[choose|i: int| key_at(self.entries@, i, k)].1,
        )
    }

    /// The keys in the order in which the entries stand.
    pub open spec fn key_order(&self) -> Seq<Seq<char>> {
        self.entries@.map_values(|e: (String, V)| e.0@)
    }

    pub proof fn lemma_entry(&self, i: int)
        requires
            self.wf(),
            0 <= i < self.entries@.len(),
        ensures
            self@.contains_key(self.entries@[i].0@),
            self@[self.entries@[i].0@] == self.entries@[i].1,
    {
        let k = self.entries@[i].0@;
        assert(key_at(self.entries@, i, k));
        let j = choose|j: int| key_at(self.entries@, j, k);
        assert(j == i);
    }

    /// The keys of the entries standing before position `j`.
    pub open spec fn keys_before(&self, j: int) -> Set<Seq<char>> {
        Set::new(|k: Seq<char>| exists|i: int| 0 <= i < j && key_at(self.entries@, i, k))
    }

    pub proof fn lemma_keys_before(&self, j: int)
        requires
            self.wf(),
            0 <= j < self.entries@.len(),
        ensures
            self.keys_before(j + 1) == self.keys_before(j).insert(self.entries@[j].0@),
            self.key_order().subrange(0, j + 1).drop_last() == self.key_order().subrange(0, j),
            self.key_order().subrange(0, j + 1).last() == self.entries@[j].0@,
    {
        let k = self.entries@[j].0@;
        assert forall|kk: Seq<char>| self.keys_before(j + 1).contains(kk) == self.keys_before(j).insert(k).contains(kk) by {
            if self.keys_before(j + 1).contains(kk) && kk != k {
                let i = choose|i: int| 0 <= i < j + 1 && key_at(self.entries@, i, kk);
                assert(i < j);
            }
            if kk == k {
                assert(key_at(self.entries@, j, kk));
            }
        }
        assert(self.keys_before(j + 1) =~= self.keys_before(j).insert(k));
        assert(self.key_order().subrange(0, j + 1).drop_last() =~= self.key_order().subrange(0, j));
    }

    pub proof fn lemma_keys_before_len(&self, j: int)
        requires
            self.wf(),
            0 <= j <= self.entries@.len(),
        ensures
            self.keys_before(j).finite(),
            self.keys_before(j).len() == j,
        decreases j,
    {
        if j == 0 {
            assert(self.keys_before(0) =~= Set::<Seq<char>>::empty());
        } else {
            self.lemma_keys_before_len(j - 1);
            self.lemma_keys_before(j - 1);
            let k = self.entries@[j - 1].0@;
            if self.keys_before(j - 1).contains(k) {
                let i = choose|i: int| 0 <= i < j - 1 && key_at(self.entries@, i, k);
                assert(self.entries@[i].0@ == self.entries@[j - 1].0@);
            }
        }
    }

    /// A table holds as many keys as entries.
    pub proof fn lemma_dom_len(&self)
        requires
            self.wf(),
        ensures
            self@.dom().finite(),
            self@.dom().len() == self.entries@.len(),
    {
        self.lemma_keys_all();
        self.lemma_keys_before_len(self.entries@.len() as int);
    }

    /// All keys lie before the end.
    pub proof fn lemma_keys_all(&self)
        ensures
            self.keys_before(self.entries@.len() as int) == self@.dom(),
            self.key_order().subrange(0, self.entries@.len() as int) == self.key_order(),
    {
        assert(self.keys_before(self.entries@.len() as int) =~= self@.dom());
        assert(self.key_order().subrange(0, self.entries@.len() as int) =~= self.key_order());
    }

    /// A key is in the table exactly when it is in the order.
    pub proof fn lemma_order_has(&self, k: Seq<char>)
        ensures
            self@.contains_key(k) == self.key_order().contains(k),
    {
        if self@.contains_key(k) {
            let i = choose|i: int| key_at(self.entries@, i, k);
            assert(self.key_order()[i] == k);
        }
        if self.key_order().contains(k) {
            let i = choose|i: int| 0 <= i < self.key_order().len() && self.key_order()[i] == k;
            assert(key_at(self.entries@, i, k));
        }
    }

    pub fn new() -> (r: Self)
        ensures
            r.wf(),
            r@ == Map::<Seq<char>, V>::empty(),
            r.entries@.len() == 0,
    {
        let r = Table { entries: Vec::new() };
        assert(r@ =~= Map::<Seq<char>, V>::empty());
        r
    }

    pub fn len(&self) -> (n: usize)
        ensures
            n == self.entries@.len(),
    {
        self.entries.len()
    }

    /// Where the entry for `k` stands.
    pub fn find(&self, k: &String) -> (r: Option<usize>)
        requires
            self.wf(),
        ensures
            match r {
                Some(i) => i < self.entries@.len() && self.entries@[i as int].0@ == k@,
                None => !self@.contains_key(k@),
            },
    {
        let mut i: usize = 0;
        while i < self.entries.len()
            invariant
                i <= self.entries@.len(),
                forall|j: int| 0 <= j < i ==> self.entries@[j].0@ != k@,
            decreases self.entries@.len() - i,
        {
            if self.entries[i].0 == *k {
                return Some(i);
            }
            i = i + 1;
        }
        None
    }

    pub fn get(&self, k: &String) -> (r: Option<&V>)
        requires
            self.wf(),
        ensures
            match r {
                Some(v) => self@.contains_key(k@) && self@[k@] == *v,
                None => !self@.contains_key(k@),
            },
    {
        match self.find(k) {
            Some(i) => {
                proof { self.lemma_entry(i as int); }
                Some(&self.entries[i].1)
            },
            None => None,
        }
    }

    /// Overwriting the entry at `i` with one of the same key writes that key.
    proof fn lemma_overwrite(old_t: Self, new_t: Self, i: int)
        requires
            old_t.wf(),
            0 <= i < old_t.entries@.len(),
            new_t.entries@ == old_t.entries@.update(i, new_t.entries@[i]),
            new_t.entries@[i].0@ == old_t.entries@[i].0@,
        ensures
            new_t.wf(),
            new_t@ == old_t@.insert(new_t.entries@[i].0@, new_t.entries@[i].1),
            new_t.key_order() == old_t.key_order(),
    {
        let k = new_t.entries@[i].0@;
        let v = new_t.entries@[i].1;
        old_t.lemma_entry(i);
        assert(key_at(new_t.entries@, i, k));
        assert forall|j: int| 0 <= j < new_t.entries@.len() implies #[trigger] new_t.entries@[j].0@ == old_t.entries@[j].0@ by {}
        assert(new_t.wf());
        assert forall|kk: Seq<char>| #![auto] new_t@.contains_key(kk) == old_t@.insert(k, v).contains_key(kk) by {
            if old_t.has(kk) {
                let j = choose|j: int| key_at(old_t.entries@, j, kk);
                assert(key_at(new_t.entries@, j, kk));
            }
            if new_t.has(kk) {
                let j = choose|j: int| key_at(new_t.entries@, j, kk);
                assert(key_at(old_t.entries@, j, kk));
            }
        }
        assert forall|kk: Seq<char>| #![auto] new_t@.contains_key(kk) ==> new_t@[kk] == old_t@.insert(k, v)[kk] by {
            if new_t.has(kk) {
                let j = choose|j: int| key_at(new_t.entries@, j, kk);
                new_t.lemma_entry(j);
                if j != i {
                    old_t.lemma_entry(j);
                }
            }
        }
        assert(new_t@ =~= old_t@.insert(k, v));
        assert(new_t.key_order() =~= old_t.key_order());
    }

    /// Writes `v` under `k`, handing back the value it replaces; a new key
    /// goes to the end of the order.
    pub fn replace(&mut self, k: String, v: V) -> (r: Option<V>)
        requires
            old(self).wf(),
        ensures
            final(self).wf(),
            final(self)@ == old(self)@.insert(k@, v),
            old(self)@.contains_key(k@) ==> final(self).key_order() == old(self).key_order(),
            !old(self)@.contains_key(k@) ==> final(self).key_order() == old(self).key_order().push(k@),
            match r {
                Some(w) => old(self)@.contains_key(k@) && old(self)@[k@] == w,
                None => !old(self)@.contains_key(k@),
            },
    {
        let ghost old_t = *self;
        match self.find(&k) {
            Some(i) => {
                proof { old_t.lemma_entry(i as int); }
                let e = self.entries.remove(i);
                self.entries.insert(i, (k, v));
                proof {
                    assert(self.entries@ =~= old_t.entries@.update(i as int, self.entries@[i as int]));
                    Self::lemma_overwrite(old_t, *self, i as int);
                }
                Some(e.1)
            },
            None => {
                self.insert(k, v);
                None
            },
        }
    }

    /// Writes `v` under `k`; a new key goes to the end of the order.
    pub fn insert(&mut self, k: String, v: V)
        requires
            old(self).wf(),
        ensures
            final(self).wf(),
            final(self)@ == old(self)@.insert(k@, v),
            old(self)@.contains_key(k@) ==> final(self).key_order() == old(self).key_order(),
            !old(self)@.contains_key(k@) ==> final(self).key_order() == old(self).key_order().push(k@),
    {
        let ghost old_t = *self;
        match self.find(&k) {
            Some(i) => {
                proof { old_t.lemma_entry(i as int); }
                self.entries.set(i, (k, v));
                proof { Self::lemma_overwrite(old_t, *self, i as int); }
            },
            None => {
                self.entries.push((k, v));
                proof {
                    let n = old_t.entries@.len() as int;
                    assert forall|j: int| 0 <= j < n implies #[trigger] old_t.entries@[j].0@ != k@ by {
                        if old_t.entries@[j].0@ == k@ {
                            assert(key_at(old_t.entries@, j, k@));
                        }
                    }
                    assert forall|j: int| 0 <= j < n implies #[trigger] self.entries@[j] == old_t.entries@[j] by {}
                    assert(self.wf());
                    assert forall|kk: Seq<char>| #![auto] self@.contains_key(kk) == old_t@.insert(k@, v).contains_key(kk) by {
                        if old_t.has(kk) {
                            let j = choose|j: int| key_at(old_t.entries@, j, kk);
                            assert(key_at(self.entries@, j, kk));
                        }
                        if self.has(kk) && kk != k@ {
                            let j = choose|j: int| key_at(self.entries@, j, kk);
                            assert(key_at(old_t.entries@, j, kk));
                        }
                        if kk == k@ {
                            assert(key_at(self.entries@, n, kk));
                        }
                    }
                    assert forall|kk: Seq<char>| #![auto] self@.contains_key(kk) ==> self@[kk] == old_t@.insert(k@, v)[kk] by {
                        if self.has(kk) {
                            let j = choose|j: int| key_at(self.entries@, j, kk);
                            self.lemma_entry(j);
                            if j != n {
                                old_t.lemma_entry(j);
                            }
                        }
                    }
                    assert(self@ =~= old_t@.insert(k@, v));
                    assert(self.key_order() =~= old_t.key_order().push(k@));
                }
            },
        }
    }

    /// Takes the entry for `k` out, handing back its value.
    pub fn remove(&mut self, k: &String) -> (r: Option<V>)
        requires
            old(self).wf(),
        ensures
            final(self).wf(),
            final(self)@ == old(self)@.remove(k@),
            match r {
                Some(v) => old(self)@.contains_key(k@) && old(self)@[k@] == v,
                None => !old(self)@.contains_key(k@),
            },
    {
        let ghost old_t = *self;
        match self.find(k) {
            Some(i) => {
                proof { old_t.lemma_entry(i as int); }
                let e = self.entries.remove(i);
                proof {
                    assert forall|kk: Seq<char>| #![auto] self@.contains_key(kk) == old_t@.remove(k@).contains_key(kk) by {
                        if old_t.has(kk) && kk != k@ {
                            let j = choose|j: int| key_at(old_t.entries@, j, kk);
                            if j < i {
                                assert(key_at(self.entries@, j, kk));
                            } else {
                                assert(key_at(self.entries@, j - 1, kk));
                            }
                        }
                        if self.has(kk) {
                            let j = choose|j: int| key_at(self.entries@, j, kk);
                            if j < i {
                                assert(key_at(old_t.entries@, j, kk));
                            } else {
                                assert(key_at(old_t.entries@, j + 1, kk));
                            }
                        }
                    }
                    assert forall|kk: Seq<char>| #![auto] self@.contains_key(kk) ==> self@[kk] == old_t@.remove(k@)[kk] by {
                        if self.has(kk) {
                            let j = choose|j: int| key_at(self.entries@, j, kk);
                            self.lemma_entry(j);
                            if j < i {
                                old_t.lemma_entry(j);
                            } else {
                                old_t.lemma_entry(j + 1);
                            }
                        }
                    }
                    assert(self@ =~= old_t@.remove(k@));
                }
                Some(e.1)
            },
            None => {
                proof { assert(self@ =~= old_t@.remove(k@)); }
                None
            },
        }
    }
}

} // verus!
