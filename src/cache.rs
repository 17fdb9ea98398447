use vstd::prelude::*;
use std::time::Duration;
use crate::model::Text;
use crate::avl::{Node, avl, count, entries, is_min_key, insert, remove, remove_min, find, leftmost,
    lemma_entries_finite_count};
use crate::raft_state::{clock_millis, elapsed};

verus! {

/// Relies on `Duration::as_millis`: the whole milliseconds of a duration.
#[verifier::external_body]
fn duration_millis(d: Duration) -> (r: u128)
{
    d.as_millis()
}

/// A bounded map from string keys to values in a height-balanced search
/// tree. Each entry remembers when it was written (milliseconds); an entry
/// older than the time to live reads as absent and is dropped when read.
/// When full, a new key evicts the entry with the least key.
pub struct AVLCache<V> {
    root: Option<Box<Node<V>>>,
    capacity: usize,
    size: usize,
    ttl: u64,
}

impl<V: Clone> AVLCache<V> {
    /// The entries: key to value and write time.
    pub closed spec fn view(&self) -> Map<Text, (V, u64)> {
        entries(self.root)
    }

    /// The tree that holds the entries.
    pub closed spec fn tree(&self) -> Option<Box<Node<V>>> {
        self.root
    }

    pub closed spec fn capacity_spec(&self) -> nat {
        self.capacity as nat
    }

    pub closed spec fn ttl_spec(&self) -> u64 {
        self.ttl
    }

    pub closed spec fn size_spec(&self) -> nat {
        self.size as nat
    }

    pub closed spec fn wf(&self) -> bool {
        &&& avl(self.root)
        &&& self.size == count(self.root)
        &&& 0 < self.capacity < usize::MAX
        &&& self.size <= self.capacity
    }

    /// A well-formed cache is a balanced search tree that holds no more
    /// entries than its capacity.
    pub proof fn law_balanced_and_bounded(&self)
        requires
            self.wf(),
        ensures
            avl(self.tree()),
            self.size_spec() == self@.dom().len(),
            self@.dom().finite(),
            self.size_spec() <= self.capacity_spec(),
    {
        lemma_entries_finite_count(self.root);
    }

    /// An empty cache with the time to live given in milliseconds.
    pub fn with_ttl_millis(capacity: usize, ttl: u64) -> (r: Self)
        requires
            0 < capacity < usize::MAX,
        ensures
            r.wf(),
            r@ == Map::<Text, (V, u64)>::empty(),
            r.capacity_spec() == capacity,
            r.ttl_spec() == ttl,
            r.size_spec() == 0,
    {
        let r = AVLCache { root: None, capacity, size: 0, ttl };
        proof {
            assert(r@ =~= Map::<Text, (V, u64)>::empty());
        }
        r
    }

    /// An empty cache.
    pub fn new(capacity: usize, ttl: Duration) -> (r: Self)
        requires
            0 < capacity < usize::MAX,
        ensures
            r.wf(),
            r@ == Map::<Text, (V, u64)>::empty(),
            r.capacity_spec() == capacity,
            r.size_spec() == 0,
    {
        let ms = duration_millis(ttl);
        let t: u64 = if ms > u64::MAX as u128 { u64::MAX } else { ms as u64 };
        Self::with_ttl_millis(capacity, t)
    }

    /// The number of entries held.
    pub fn len(&self) -> (r: usize)
        requires
            self.wf(),
        ensures
            r == self.size_spec(),
            r == self@.dom().len(),
    {
        proof {
            lemma_entries_finite_count(self.root);
        }
        self.size
    }

    /// Whether `key` has an entry, fresh or not.
    pub fn contains_key(&self, key: &String) -> (r: bool)
        requires
            self.wf(),
        ensures
            r == self@.contains_key(key@),
    {
        find(&self.root, key).is_some()
    }

    /// Takes the entry for `key` out, handing back its value.
    pub fn remove(&mut self, key: &String) -> (r: Option<V>)
        requires
            old(self).wf(),
        ensures
            final(self).wf(),
            final(self)@ == old(self)@.remove(key@),
            final(self).capacity_spec() == old(self).capacity_spec(),
            final(self).ttl_spec() == old(self).ttl_spec(),
            match r {
                Some(v) => old(self)@.contains_key(key@) && old(self)@[key@].0 == v,
                None => !old(self)@.contains_key(key@),
            },
    {
        let t = self.root.take();
        let (nt, res) = remove(t, key);
        self.root = nt;
        match res {
            Some(e) => {
                self.size = self.size - 1;
                Some(e.0)
            },
            None => None,
        }
    }

    /// Writes `value` under `key`, stamped `now`. A new key in a full cache
    /// first evicts the entry with the least key.
    pub fn put_at(&mut self, key: String, value: V, now: u64)
        requires
            old(self).wf(),
        ensures
            final(self).wf(),
            final(self).capacity_spec() == old(self).capacity_spec(),
            final(self).ttl_spec() == old(self).ttl_spec(),
            old(self)@.contains_key(key@) || old(self).size_spec() < old(self).capacity_spec()
                ==> final(self)@ == old(self)@.insert(key@, (value, now)),
            !old(self)@.contains_key(key@) && old(self).size_spec() == old(self).capacity_spec()
                ==> exists|m: Text| is_min_key(old(self)@, m) && final(self)@ == old(self)@.remove(m).insert(key@, (value, now)),
            final(self)@.contains_key(key@) && final(self)@[key@] == (value, now),
            forall|k: Text| k != key@ && #[trigger] final(self)@.contains_key(k)
                ==> old(self)@.contains_key(k) && final(self)@[k] == old(self)@[k],
    {
        let ghost m0 = self@;
        let present = find(&self.root, &key).is_some();
        let ghost evicted: Text = key@;
        if !present && self.size == self.capacity {
            let t = self.root.take();
            match t {
                Some(b) => {
                    let (rest, mk, _mv, _mts) = remove_min(b);
                    proof {
                        evicted = mk@;
                    }
                    self.root = rest;
                    self.size = self.size - 1;
                },
                None => {},
            }
        }
        let t = self.root.take();
        let ghost before = entries(t);
        self.root = insert(t, key, value, now);
        if !present {
            self.size = self.size + 1;
        }
        proof {
            if !present && old(self).size == old(self).capacity {
                assert(is_min_key(m0, evicted) && self@ == m0.remove(evicted).insert(key@, (value, now)));
            }
        }
    }

    /// Writes `value` under `key`, stamped by the clock.
    pub fn put(&mut self, key: String, value: V)
        requires
            old(self).wf(),
        ensures
            final(self).wf(),
            final(self).capacity_spec() == old(self).capacity_spec(),
            final(self).ttl_spec() == old(self).ttl_spec(),
            old(self)@.contains_key(key@) || old(self).size_spec() < old(self).capacity_spec()
                ==> final(self)@.contains_key(key@) && final(self)@[key@].0 == value
                && final(self)@.remove(key@) == old(self)@.remove(key@),
            !old(self)@.contains_key(key@) && old(self).size_spec() == old(self).capacity_spec()
                ==> exists|m: Text| #[trigger] is_min_key(old(self)@, m) && final(self)@.remove(key@) == old(self)@.remove(m)
                    && final(self)@.contains_key(key@) && final(self)@[key@].0 == value,
    {
        let now = clock_millis();
        self.put_at(key, value, now);
        proof {
            if !old(self)@.contains_key(key@) && old(self).size_spec() == old(self).capacity_spec() {
                let m = choose|m: Text| is_min_key(old(self)@, m)
                    && final(self)@ == old(self)@.remove(m).insert(key@, (value, now));
                assert(final(self)@.remove(key@) =~= old(self)@.remove(m));
                assert(is_min_key(old(self)@, m));
            }
            if old(self)@.contains_key(key@) || old(self).size_spec() < old(self).capacity_spec() {
                assert(final(self)@.remove(key@) =~= old(self)@.remove(key@));
            }
        }
    }

    /// Reads `key` at `now`. A fresh entry (younger than the time to live)
    /// gives its value and is written again stamped `now`; a stale one is
    /// dropped and reads as absent.
    pub fn get_at(&mut self, key: &String, now: u64) -> (r: Option<V>)
        requires
            old(self).wf(),
        ensures
            final(self).wf(),
            final(self).capacity_spec() == old(self).capacity_spec(),
            final(self).ttl_spec() == old(self).ttl_spec(),
            !old(self)@.contains_key(key@) ==> r is None && final(self)@ == old(self)@,
            old(self)@.contains_key(key@) && elapsed(old(self)@[key@].1, now) >= old(self).ttl_spec()
                ==> r is None && final(self)@ == old(self)@.remove(key@),
            old(self)@.contains_key(key@) && elapsed(old(self)@[key@].1, now) < old(self).ttl_spec() ==> {
                &&& r matches Some(x) && cloned(old(self)@[key@].0, x)
                &&& final(self)@.contains_key(key@)
                &&& final(self)@[key@].1 == now
                &&& cloned(r->0, final(self)@[key@].0)
                &&& final(self)@.remove(key@) == old(self)@.remove(key@)
            },
            forall|k: Text| k != key@ && #[trigger] final(self)@.contains_key(k)
                ==> old(self)@.contains_key(k) && final(self)@[k] == old(self)@[k],
    {
        let found: Option<(V, u64)> = match find(&self.root, key) {
            Some(n) => Some((n.value.clone(), n.timestamp)),
            None => None,
        };
        match found {
            None => None,
            Some((v, ts)) => {
                let age: u64 = if now >= ts { now - ts } else { 0 };
                if age < self.ttl {
                    let again = v.clone();
                    self.put_at(key.clone(), again, now);
                    proof {
                        assert(self@.remove(key@) =~= old(self)@.remove(key@));
                        assert forall|k: Text| k != key@ && #[trigger] self@.contains_key(k)
                            implies old(self)@.contains_key(k) && self@[k] == old(self)@[k] by {
                            assert(self@.remove(key@).contains_key(k));
                        }
                    }
                    Some(v)
                } else {
                    let _ = self.remove(key);
                    None
                }
            },
        }
    }

    /// Reads `key` by the clock, as `get_at` does.
    pub fn get(&mut self, key: &String) -> (r: Option<V>)
        requires
            old(self).wf(),
        ensures
            final(self).wf(),
            final(self).capacity_spec() == old(self).capacity_spec(),
            final(self).ttl_spec() == old(self).ttl_spec(),
            !old(self)@.contains_key(key@) ==> r is None && final(self)@ == old(self)@,
            r matches Some(x) ==> old(self)@.contains_key(key@) && cloned(old(self)@[key@].0, x),
            r matches Some(x) ==> final(self)@.contains_key(key@) && cloned(x, final(self)@[key@].0)
                && final(self)@.remove(key@) == old(self)@.remove(key@),
            old(self)@.contains_key(key@) && r is None ==> final(self)@ == old(self)@.remove(key@),
            final(self)@.dom().subset_of(old(self)@.dom()),
    {
        let now = clock_millis();
        let r = self.get_at(key, now);
        proof {
            assert forall|x: Text| self@.dom().contains(x) implies old(self)@.dom().contains(x) by {
                if x != key@ {
                    assert(self@.remove(key@).contains_key(x));
                }
            }
        }
        r
    }

    /// The entry with the least key, if any.
    pub fn min(&self) -> (r: Option<(String, V)>)
        requires
            self.wf(),
        ensures
            r is None <==> self@.dom().is_empty(),
            r matches Some((k, v)) ==> is_min_key(self@, k@) && cloned(self@[k@].0, v),
    {
        match &self.root {
            None => {
                proof {
                    assert(self@.dom() =~= Set::<Text>::empty());
                }
                None
            },
            Some(n) => {
                let m = leftmost(n);
                proof {
                    assert(!self@.dom().is_empty()) by {
                        assert(self@.dom().contains(m.key@));
                    }
                }
                Some((m.key.clone(), m.value.clone()))
            },
        }
    }

    /// Drops every entry.
    pub fn clear(&mut self)
        requires
            old(self).wf(),
        ensures
            final(self).wf(),
            final(self)@ == Map::<Text, (V, u64)>::empty(),
            final(self).capacity_spec() == old(self).capacity_spec(),
            final(self).ttl_spec() == old(self).ttl_spec(),
    {
        self.root = None;
        self.size = 0;
        proof {
            assert(self@ =~= Map::<Text, (V, u64)>::empty());
        }
    }
}

} // verus!
