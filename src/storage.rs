use vstd::prelude::*;
use std::collections::VecDeque;
use crate::table::{Table, key_at};
use crate::keys::{normalize, normalize_key, words, split_words, append_text};
use crate::model::{Text, Items, StoreModel, LayerModel, lookup, stepped, apply_overlay, merge_order,
    lemma_apply_step, lemma_union_step, list_result, ok_text, queued_text};
use crate::num::{counter_value, decimal, parse_counter, format_i64, format_usize};
use crate::cache::AVLCache;
use crate::raft_state::clock_millis;

verus! {

pub open spec fn opt_text(o: Option<String>) -> Option<Text> {
    match o {
        Some(s) => Some(s@),
        None => None,
    }
}

pub open spec fn items_of(d: VecDeque<String>) -> Items {
    d@.map_values(|s: String| s@)
}

pub open spec fn opt_items(o: Option<VecDeque<String>>) -> Option<Items> {
    match o {
        Some(d) => Some(items_of(d)),
        None => None,
    }
}

/// A list copied item by item.
pub fn copy_list(d: &VecDeque<String>) -> (r: VecDeque<String>)
    ensures
        items_of(r) == items_of(*d),
{
    let mut r: VecDeque<String> = VecDeque::new();
    let mut i: usize = 0;
    while i < d.len()
        invariant
            i <= d@.len(),
            r@.len() == i,
            items_of(r) == items_of(*d).subrange(0, i as int),
        decreases d@.len() - i,
    {
        let s = d[i].clone();
        proof {
            assert(s@ == d@[i as int]@);
        }
        let ghost r0 = r;
        r.push_back(s);
        i = i + 1;
        proof {
            assert(r@.len() == i);
            assert(items_of(r).len() == i);
            assert forall|j: int| 0 <= j < i implies #[trigger] items_of(r)[j] == items_of(*d).subrange(0, i as int)[j] by {
                assert(r@[j] == r0@.push(s)[j]);
                if j < i - 1 {
                    assert(items_of(r0)[j] == items_of(*d).subrange(0, i - 1)[j]);
                }
            }
            assert(items_of(r) =~= items_of(*d).subrange(0, i as int));
        }
    }
    proof {
        assert(items_of(*d).subrange(0, d@.len() as int) =~= items_of(*d));
    }
    r
}

/// The texts of a vector of strings.
pub open spec fn texts(v: Vec<String>) -> Seq<Text> {
    v@.map_values(|s: String| s@)
}

/// Appends `count` copies of `word`.
fn push_copies(v: &mut Vec<String>, count: usize, word: &str)
    ensures
        texts(*final(v)) == texts(*old(v)) + Seq::new(count as nat, |i: int| word@),
{
    let ghost v0 = texts(*v);
    let mut j: usize = 0;
    proof {
        assert(texts(*v) =~= v0 + Seq::new(0, |i: int| word@));
    }
    while j < count
        invariant
            j <= count,
            texts(*v) == v0 + Seq::new(j as nat, |i: int| word@),
        decreases count - j,
    {
        let ghost before = texts(*v);
        v.push(String::from_str(word));
        j = j + 1;
        proof {
            assert(texts(*v) =~= before.push(word@));
            assert(texts(*v) =~= v0 + Seq::new(j as nat, |i: int| word@));
        }
    }
}

fn copy_opt_string(o: &Option<String>) -> (r: Option<String>)
    ensures
        opt_text(r) == opt_text(*o),
{
    match o {
        Some(s) => Some(s.clone()),
        None => None,
    }
}

fn copy_opt_list(o: &Option<VecDeque<String>>) -> (r: Option<VecDeque<String>>)
    ensures
        opt_items(r) == opt_items(*o),
{
    match o {
        Some(d) => Some(copy_list(d)),
        None => None,
    }
}

/// Folds a committed outermost string overlay into the base table.
fn fold_strings(base: &mut Table<String>, overlay: &Table<Option<String>>)
    requires
        old(base).wf(),
        overlay.wf(),
    ensures
        final(base).wf(),
        final(base)@.map_values(|s: String| s@) == apply_overlay(
            old(base)@.map_values(|s: String| s@),
            overlay@.map_values(|o: Option<String>| opt_text(o)),
        ),
{
    let ghost b0 = base@.map_values(|s: String| s@);
    let ghost o = overlay@.map_values(|o: Option<String>| opt_text(o));
    proof {
        assert(apply_overlay(b0, o.restrict(overlay.keys_before(0))) =~= b0);
    }
    let mut j: usize = 0;
    while j < overlay.entries.len()
        invariant
            base.wf(),
            overlay.wf(),
            j <= overlay.entries@.len(),
            o == overlay@.map_values(|o: Option<String>| opt_text(o)),
            base@.map_values(|s: String| s@) == apply_overlay(b0, o.restrict(overlay.keys_before(j as int))),
        decreases overlay.entries@.len() - j,
    {
        let ghost cur = base@.map_values(|s: String| s@);
        let e = &overlay.entries[j];
        let k = e.0.clone();
        proof {
            overlay.lemma_entry(j as int);
            overlay.lemma_keys_before(j as int);
            lemma_apply_step(b0, o, overlay.keys_before(j as int), k@);
        }
        match &e.1 {
            Some(v) => {
                base.insert(k, v.clone());
                proof {
                    assert(base@.map_values(|s: String| s@) =~= cur.insert(k@, v@));
                }
            },
            None => {
                let _ = base.remove(&k);
                proof {
                    assert(base@.map_values(|s: String| s@) =~= cur.remove(k@));
                }
            },
        }
        j = j + 1;
    }
    proof {
        overlay.lemma_keys_all();
        assert(o.restrict(overlay@.dom()) =~= o);
    }
}

/// Folds a committed outermost list overlay into the base table.
fn fold_lists(base: &mut Table<VecDeque<String>>, overlay: &Table<Option<VecDeque<String>>>)
    requires
        old(base).wf(),
        overlay.wf(),
    ensures
        final(base).wf(),
        final(base)@.map_values(|d: VecDeque<String>| items_of(d)) == apply_overlay(
            old(base)@.map_values(|d: VecDeque<String>| items_of(d)),
            overlay@.map_values(|o: Option<VecDeque<String>>| opt_items(o)),
        ),
{
    let ghost b0 = base@.map_values(|d: VecDeque<String>| items_of(d));
    let ghost o = overlay@.map_values(|o: Option<VecDeque<String>>| opt_items(o));
    proof {
        assert(apply_overlay(b0, o.restrict(overlay.keys_before(0))) =~= b0);
    }
    let mut j: usize = 0;
    while j < overlay.entries.len()
        invariant
            base.wf(),
            overlay.wf(),
            j <= overlay.entries@.len(),
            o == overlay@.map_values(|o: Option<VecDeque<String>>| opt_items(o)),
            base@.map_values(|d: VecDeque<String>| items_of(d)) == apply_overlay(b0, o.restrict(overlay.keys_before(j as int))),
        decreases overlay.entries@.len() - j,
    {
        let ghost cur = base@.map_values(|d: VecDeque<String>| items_of(d));
        let e = &overlay.entries[j];
        let k = e.0.clone();
        proof {
            overlay.lemma_entry(j as int);
            overlay.lemma_keys_before(j as int);
            lemma_apply_step(b0, o, overlay.keys_before(j as int), k@);
        }
        match &e.1 {
            Some(v) => {
                let c = copy_list(v);
                base.insert(k, c);
                proof {
                    assert(base@.map_values(|d: VecDeque<String>| items_of(d)) =~= cur.insert(k@, items_of(*v)));
                }
            },
            None => {
                let _ = base.remove(&k);
                proof {
                    assert(base@.map_values(|d: VecDeque<String>| items_of(d)) =~= cur.remove(k@));
                }
            },
        }
        j = j + 1;
    }
    proof {
        overlay.lemma_keys_all();
        assert(o.restrict(overlay@.dom()) =~= o);
    }
}

/// Writes the string entries of a committed inner layer into its parent.
fn merge_strings(parent: &mut Table<Option<String>>, child: &Table<Option<String>>)
    requires
        old(parent).wf(),
        child.wf(),
    ensures
        final(parent).wf(),
        final(parent)@.map_values(|o: Option<String>| opt_text(o))
            == old(parent)@.map_values(|o: Option<String>| opt_text(o)).union_prefer_right(
            child@.map_values(|o: Option<String>| opt_text(o))),
        final(parent).key_order() == merge_order(old(parent).key_order(), child.key_order()),
{
    let ghost p0 = parent@.map_values(|o: Option<String>| opt_text(o));
    let ghost p0o = parent.key_order();
    let ghost o = child@.map_values(|o: Option<String>| opt_text(o));
    let ghost co = child.key_order();
    proof {
        assert(p0.union_prefer_right(o.restrict(child.keys_before(0))) =~= p0);
        assert(co.subrange(0, 0) =~= Seq::<Text>::empty());
    }
    let mut j: usize = 0;
    while j < child.entries.len()
        invariant
            parent.wf(),
            child.wf(),
            j <= child.entries@.len(),
            o == child@.map_values(|o: Option<String>| opt_text(o)),
            co == child.key_order(),
            parent@.map_values(|o: Option<String>| opt_text(o)) == p0.union_prefer_right(o.restrict(child.keys_before(j as int))),
            parent.key_order() == merge_order(p0o, co.subrange(0, j as int)),
        decreases child.entries@.len() - j,
    {
        let ghost cur = parent@.map_values(|o: Option<String>| opt_text(o));
        let ghost t0 = *parent;
        let e = &child.entries[j];
        let k = e.0.clone();
        proof {
            child.lemma_entry(j as int);
            child.lemma_keys_before(j as int);
            lemma_union_step(p0, o, child.keys_before(j as int), k@);
            t0.lemma_order_has(k@);
        }
        let v = copy_opt_string(&e.1);
        parent.insert(k, v);
        proof {
            assert(parent@.map_values(|o: Option<String>| opt_text(o)) =~= cur.insert(k@, opt_text(v)));
        }
        j = j + 1;
    }
    proof {
        child.lemma_keys_all();
        assert(o.restrict(child@.dom()) =~= o);
    }
}

/// Writes the list entries of a committed inner layer into its parent.
fn merge_lists(parent: &mut Table<Option<VecDeque<String>>>, child: &Table<Option<VecDeque<String>>>)
    requires
        old(parent).wf(),
        child.wf(),
    ensures
        final(parent).wf(),
        final(parent)@.map_values(|o: Option<VecDeque<String>>| opt_items(o))
            == old(parent)@.map_values(|o: Option<VecDeque<String>>| opt_items(o)).union_prefer_right(
            child@.map_values(|o: Option<VecDeque<String>>| opt_items(o))),
        final(parent).key_order() == merge_order(old(parent).key_order(), child.key_order()),
{
    let ghost p0 = parent@.map_values(|o: Option<VecDeque<String>>| opt_items(o));
    let ghost p0o = parent.key_order();
    let ghost o = child@.map_values(|o: Option<VecDeque<String>>| opt_items(o));
    let ghost co = child.key_order();
    proof {
        assert(p0.union_prefer_right(o.restrict(child.keys_before(0))) =~= p0);
        assert(co.subrange(0, 0) =~= Seq::<Text>::empty());
    }
    let mut j: usize = 0;
    while j < child.entries.len()
        invariant
            parent.wf(),
            child.wf(),
            j <= child.entries@.len(),
            o == child@.map_values(|o: Option<VecDeque<String>>| opt_items(o)),
            co == child.key_order(),
            parent@.map_values(|o: Option<VecDeque<String>>| opt_items(o)) == p0.union_prefer_right(o.restrict(child.keys_before(j as int))),
            parent.key_order() == merge_order(p0o, co.subrange(0, j as int)),
        decreases child.entries@.len() - j,
    {
        let ghost cur = parent@.map_values(|o: Option<VecDeque<String>>| opt_items(o));
        let ghost t0 = *parent;
        let e = &child.entries[j];
        let k = e.0.clone();
        proof {
            child.lemma_entry(j as int);
            child.lemma_keys_before(j as int);
            lemma_union_step(p0, o, child.keys_before(j as int), k@);
            t0.lemma_order_has(k@);
        }
        let v = copy_opt_list(&e.1);
        parent.insert(k, v);
        proof {
            assert(parent@.map_values(|o: Option<VecDeque<String>>| opt_items(o)) =~= cur.insert(k@, opt_items(v)));
        }
        j = j + 1;
    }
    proof {
        child.lemma_keys_all();
        assert(o.restrict(child@.dom()) =~= o);
    }
}

/// The snapshot line of a string entry.
pub open spec fn string_line(k: Text, v: Text) -> Text {
    "STRING "@ + k + " "@ + v
}

/// The items of a list, each after a space.
pub open spec fn spaced(items: Items) -> Text
    decreases items.len(),
{
    if items.len() == 0 {
        Seq::empty()
    } else {
        spaced(items.drop_last()) + " "@ + items.last()
    }
}

/// The snapshot line of a list entry: its key, its length, its items.
pub open spec fn list_line(k: Text, items: Items) -> Text {
    "LIST "@ + k + " "@ + decimal(items.len() as int) + spaced(items)
}

/// The snapshot line of some string of the base table.
pub open spec fn is_string_line(m: StoreModel, line: Text) -> bool {
    exists|k: Text| #[trigger] m.strings.contains_key(k) && line == string_line(k, m.strings[k])
}

/// The snapshot line of some list of the base table.
pub open spec fn is_list_line(m: StoreModel, line: Text) -> bool {
    exists|k: Text| #[trigger] m.lists.contains_key(k) && line == list_line(k, m.lists[k])
}

/// The tables that snapshot lines describe, read in order: a `STRING` line
/// with at least a key and a value sets the string, a `LIST` line with at
/// least a key and a count sets the list to the words after the count;
/// other lines are skipped.
pub open spec fn loaded(lines: Seq<Text>) -> (Map<Text, Text>, Map<Text, Items>)
    decreases lines.len(),
{
    if lines.len() == 0 {
        (Map::empty(), Map::empty())
    } else {
        let (ss, ls) = loaded(lines.drop_last());
        let w = words(lines.last());
        if w.len() >= 3 && w[0] == "STRING"@ {
            (ss.insert(w[1], w[2]), ls)
        } else if w.len() >= 3 && w[0] == "LIST"@ {
            (ss, ls.insert(w[1], w.subrange(3, w.len() as int)))
        } else {
            (ss, ls)
        }
    }
}

/// The string of a words-vector entry, compared with a literal.
fn word_is(w: &String, lit: &str) -> (r: bool)
    ensures
        r == (w@ == lit@),
{
    *w == String::from_str(lit)
}

/// The snapshot line of a string entry.
fn make_string_line(k: &String, v: &String) -> (r: String)
    ensures
        r@ == string_line(k@, v@),
{
    let mut out = String::from_str("STRING ");
    append_text(&mut out, k.as_str());
    append_text(&mut out, " ");
    append_text(&mut out, v.as_str());
    out
}

/// The snapshot line of a list entry.
fn make_list_line(k: &String, d: &VecDeque<String>) -> (r: String)
    ensures
        r@ == list_line(k@, items_of(*d)),
{
    let mut out = String::from_str("LIST ");
    append_text(&mut out, k.as_str());
    append_text(&mut out, " ");
    let n = format_usize(d.len());
    append_text(&mut out, n.as_str());
    let ghost head = out@;
    let mut i: usize = 0;
    proof {
        assert(items_of(*d).subrange(0, 0) =~= Seq::<Text>::empty());
        assert(out@ =~= head + spaced(items_of(*d).subrange(0, 0)));
    }
    while i < d.len()
        invariant
            i <= d@.len(),
            out@ == head + spaced(items_of(*d).subrange(0, i as int)),
        decreases d@.len() - i,
    {
        append_text(&mut out, " ");
        append_text(&mut out, d[i].as_str());
        i = i + 1;
        proof {
            let sub = items_of(*d).subrange(0, i as int);
            assert(sub.drop_last() =~= items_of(*d).subrange(0, i - 1));
            assert(sub.last() == d@[i - 1]@);
        }
    }
    proof {
        assert(items_of(*d).subrange(0, d@.len() as int) =~= items_of(*d));
    }
    out
}

/// A list holding the words from position `from` on.
fn list_from(w: &Vec<String>, from: usize) -> (r: VecDeque<String>)
    requires
        from <= w@.len(),
    ensures
        items_of(r) == texts(*w).subrange(from as int, w@.len() as int),
{
    let mut r: VecDeque<String> = VecDeque::new();
    let mut i: usize = from;
    proof {
        assert(items_of(r) =~= texts(*w).subrange(from as int, from as int));
    }
    while i < w.len()
        invariant
            from <= i <= w@.len(),
            r@.len() == i - from,
            items_of(r) == texts(*w).subrange(from as int, i as int),
        decreases w@.len() - i,
    {
        let ghost r0 = r;
        r.push_back(w[i].clone());
        i = i + 1;
        proof {
            assert(items_of(r) =~= items_of(r0).push(w@[i - 1]@));
            assert(items_of(r) =~= texts(*w).subrange(from as int, i as int));
        }
    }
    r
}

/// One transaction: the writes made in it, not yet folded below.
struct TransactionLayer {
    strings: Table<Option<String>>,
    lists: Table<Option<VecDeque<String>>>,
}

impl TransactionLayer {
    spec fn wf(&self) -> bool {
        self.strings.wf() && self.lists.wf()
    }

    spec fn model(&self) -> LayerModel {
        LayerModel {
            strings: self.strings@.map_values(|o: Option<String>| opt_text(o)),
            lists: self.lists@.map_values(|o: Option<VecDeque<String>>| opt_items(o)),
            string_order: self.strings.key_order(),
            list_order: self.lists.key_order(),
        }
    }

    /// What committing this layer as the outermost one reports.
    fn outer_results(&self) -> (r: Vec<String>)
        requires
            self.wf(),
        ensures
            texts(r) == self.model().string_order.map_values(|k: Text| ok_text())
                + self.model().list_order.map_values(|k: Text| list_result(self.model().lists[k])),
    {
        let ghost so = self.strings.key_order();
        let ghost lo = self.lists.key_order();
        let ghost lm = self.model().lists;
        let mut r: Vec<String> = Vec::new();
        proof {
            reveal_strlit("OK");
            assert(texts(r) =~= Seq::<Text>::empty());
        }
        push_copies(&mut r, self.strings.len(), "OK");
        proof {
            assert("OK"@ =~= ok_text());
            assert(so.len() == self.strings.entries@.len());
            assert(texts(r) =~= so.map_values(|k: Text| ok_text()));
        }
        let ghost sres = texts(r);
        proof {
            self.strings.lemma_keys_all();
            assert(lo.subrange(0, 0).map_values(|k: Text| list_result(lm[k])) =~= Seq::<Text>::empty());
            assert(sres + lo.subrange(0, 0).map_values(|k: Text| list_result(lm[k])) =~= sres);
        }
        let mut j: usize = 0;
        while j < self.lists.entries.len()
            invariant
                self.wf(),
                j <= self.lists.entries@.len(),
                lo == self.lists.key_order(),
                lm == self.model().lists,
                sres == so.map_values(|k: Text| ok_text()),
                texts(r) == sres + lo.subrange(0, j as int).map_values(|k: Text| list_result(lm[k])),
            decreases self.lists.entries@.len() - j,
        {
            let e = &self.lists.entries[j];
            let ghost before = texts(r);
            proof {
                self.lists.lemma_entry(j as int);
            }
            let t = match &e.1 {
                Some(d) => format_usize(d.len()),
                None => {
                    proof {
                        reveal_strlit("OK");
                    }
                    String::from_str("OK")
                },
            };
            proof {
                assert(lm[lo[j as int]] == opt_items(e.1));
                assert(t@ == list_result(lm[lo[j as int]]));
            }
            r.push(t);
            j = j + 1;
            proof {
                assert(texts(r) =~= before.push(t@));
                assert(lo.subrange(0, j as int).map_values(|k: Text| list_result(lm[k])) =~= lo.subrange(0, j - 1).map_values(|k: Text| list_result(lm[k])).push(t@));
                assert(texts(r) =~= sres + lo.subrange(0, j as int).map_values(|k: Text| list_result(lm[k])));
            }
        }
        proof {
            self.lists.lemma_keys_all();
        }
        r
    }
}

/// The storage engine: string and list tables under a stack of nested
/// transaction layers. Keys are stored ASCII-lower-cased.
pub struct MemoryStorage {
    strings: Table<String>,
    lists: Table<VecDeque<String>>,
    transaction_stack: Vec<TransactionLayer>,
    cache: AVLCache<String>,
}

impl MemoryStorage {
    /// The read cache in front of the string table: key to value and the
    /// time it was cached.
    pub closed spec fn cache_view(&self) -> Map<Text, (String, u64)> {
        self.cache@
    }

    /// The read cache never disagrees with the store: a cached value is
    /// what its key reads as.
    pub proof fn law_cache_agrees(&self, k: Text)
        requires
            self.wf(),
            self.cache_view().contains_key(k),
        ensures
            self@.string_at(k) == Some(self.cache_view()[k].0@),
    {
    }

    /// Every cached string is what its key reads as.
    pub closed spec fn coherent(&self) -> bool {
        forall|k: Text| #[trigger] self.cache@.contains_key(k) ==> self@.string_at(k) == Some(self.cache@[k].0@)
    }

    pub closed spec fn wf(&self) -> bool {
        &&& self.tables_wf()
        &&& self.cache.wf()
        &&& self.coherent()
    }

    closed spec fn tables_wf(&self) -> bool {
        &&& self.strings.wf()
        &&& self.lists.wf()
        &&& forall|i: int| 0 <= i < self.transaction_stack@.len() ==> (#[trigger] self.transaction_stack@[i]).wf()
    }

    pub closed spec fn view(&self) -> StoreModel {
        StoreModel {
            strings: self.strings@.map_values(|s: String| s@),
            lists: self.lists@.map_values(|d: VecDeque<String>| items_of(d)),
            layers: self.transaction_stack@.map_values(|l: TransactionLayer| l.model()),
        }
    }

    /// An empty engine with no open transaction.
    pub fn new() -> (r: Self)
        ensures
            r.wf(),
            r@.strings == Map::<Text, Text>::empty(),
            r@.lists == Map::<Text, Items>::empty(),
            r@.layers.len() == 0,
    {
        let r = MemoryStorage {
            strings: Table::new(),
            lists: Table::new(),
            transaction_stack: Vec::new(),
            cache: AVLCache::with_ttl_millis(1000, 300_000),
        };
        proof {
            assert(r@.strings =~= Map::<Text, Text>::empty());
            assert(r@.lists =~= Map::<Text, Items>::empty());
        }
        r
    }

    /// The number of open transactions.
    pub fn depth(&self) -> (n: usize)
        ensures
            n == self@.layers.len(),
    {
        self.transaction_stack.len()
    }

    /// The string that a stored key reads as.
    fn read_string(&self, nk: &String) -> (r: Option<String>)
        requires
            self.tables_wf(),
        ensures
            opt_text(r) == self@.string_at(nk@),
    {
        let ghost ov = self@.string_overlays();
        proof {
            assert(ov.subrange(0, self.transaction_stack@.len() as int) =~= ov);
        }
        let mut i: usize = self.transaction_stack.len();
        while i > 0
            invariant
                self.tables_wf(),
                i <= self.transaction_stack@.len(),
                ov == self@.string_overlays(),
                self@.string_at(nk@) == lookup(self@.strings, ov.subrange(0, i as int), nk@),
            decreases i,
        {
            i = i - 1;
            let ghost sub = ov.subrange(0, i as int + 1);
            proof {
                assert(sub.drop_last() =~= ov.subrange(0, i as int));
                assert(self.transaction_stack@[i as int].wf());
                assert(sub.last() == self.transaction_stack@[i as int].model().strings);
            }
            match self.transaction_stack[i].strings.get(nk) {
                Some(o) => {
                    return match o {
                        Some(s) => Some(s.clone()),
                        None => None,
                    };
                },
                None => {},
            }
        }
        match self.strings.get(nk) {
            Some(s) => Some(s.clone()),
            None => None,
        }
    }

    /// The list that a stored key reads as, through the layers below
    /// position `below` and the base table.
    fn read_list_below(&self, nk: &String, below: usize) -> (r: Option<VecDeque<String>>)
        requires
            self.tables_wf(),
            below <= self.transaction_stack@.len(),
        ensures
            opt_items(r) == lookup(self@.lists, self@.list_overlays().subrange(0, below as int), nk@),
    {
        let ghost ov = self@.list_overlays();
        let mut i: usize = below;
        while i > 0
            invariant
                self.tables_wf(),
                i <= below <= self.transaction_stack@.len(),
                ov == self@.list_overlays(),
                lookup(self@.lists, ov.subrange(0, below as int), nk@) == lookup(self@.lists, ov.subrange(0, i as int), nk@),
            decreases i,
        {
            i = i - 1;
            let ghost sub = ov.subrange(0, i as int + 1);
            proof {
                assert(sub.drop_last() =~= ov.subrange(0, i as int));
                assert(self.transaction_stack@[i as int].wf());
                assert(sub.last() == self.transaction_stack@[i as int].model().lists);
            }
            match self.transaction_stack[i].lists.get(nk) {
                Some(o) => {
                    return match o {
                        Some(d) => Some(copy_list(d)),
                        None => None,
                    };
                },
                None => {},
            }
        }
        match self.lists.get(nk) {
            Some(d) => Some(copy_list(d)),
            None => None,
        }
    }

    /// Writes a string entry, or a tombstone, into the innermost layer.
    fn put_top_string(&mut self, nk: String, v: Option<String>)
        requires
            old(self).tables_wf(),
            old(self)@.in_transaction(),
        ensures
            final(self).tables_wf(),
            final(self).cache == old(self).cache,
            final(self)@ == old(self)@.with_top(old(self)@.top().put_string(nk@, opt_text(v))),
    {
        let ghost m = self@;
        let mut top = self.transaction_stack.pop().unwrap();
        let ghost old_top = top;
        proof {
            assert(old_top.model() == m.top());
        }
        top.strings.insert(nk, v);
        proof {
            assert(top.model().strings =~= old_top.model().strings.insert(nk@, opt_text(v)));
        }
        self.transaction_stack.push(top);
        proof {
            assert(self@.layers =~= m.layers.update(m.layers.len() - 1, m.top().put_string(nk@, opt_text(v))));
        }
    }

    /// Writes a list entry, or a tombstone, into the innermost layer.
    fn put_top_list(&mut self, nk: String, v: Option<VecDeque<String>>)
        requires
            old(self).tables_wf(),
            old(self)@.in_transaction(),
        ensures
            final(self).tables_wf(),
            final(self).cache == old(self).cache,
            final(self)@ == old(self)@.with_top(old(self)@.top().put_list(nk@, opt_items(v))),
    {
        let ghost m = self@;
        let mut top = self.transaction_stack.pop().unwrap();
        let ghost old_top = top;
        proof {
            assert(old_top.model() == m.top());
        }
        top.lists.insert(nk, v);
        proof {
            assert(top.model().lists =~= old_top.model().lists.insert(nk@, opt_items(v)));
        }
        self.transaction_stack.push(top);
        proof {
            assert(self@.layers =~= m.layers.update(m.layers.len() - 1, m.top().put_list(nk@, opt_items(v))));
        }
    }

    /// Writes a string where writes go.
    fn write_string(&mut self, nk: String, v: String)
        requires
            old(self).tables_wf(),
        ensures
            final(self).tables_wf(),
            final(self).cache == old(self).cache,
            final(self)@ == old(self)@.write_string(nk@, Some(v@)),
    {
        if self.transaction_stack.len() > 0 {
            self.put_top_string(nk, Some(v));
        } else {
            let ghost m = self@;
            self.strings.insert(nk, v);
            proof {
                assert(self@.strings =~= m.strings.insert(nk@, v@));
            }
        }
    }

    /// Stores `value` under `key`.
    pub fn set(&mut self, key: String, value: String)
        requires
            old(self).wf(),
        ensures
            final(self).wf(),
            final(self)@ == old(self)@.write_string(normalize(key@), Some(value@)),
    {
        let ghost m0 = self@;
        let ghost c0 = self.cache@;
        let nk = normalize_key(key.as_str());
        let k2 = nk.clone();
        let c = value.clone();
        self.write_string(nk, value);
        let now = clock_millis();
        self.cache.put_at(k2, c, now);
        proof {
            assert forall|k: Text| #[trigger] self.cache@.contains_key(k) implies self@.string_at(k) == Some(self.cache@[k].0@) by {
                m0.lemma_write_string_reads(k2@, Some(c@), k);
                if k != k2@ {
                    assert(c0.contains_key(k));
                }
            }
        }
    }

    /// The string stored under `key`, if any.
    pub fn get(&mut self, key: &str) -> (r: Option<String>)
        requires
            old(self).wf(),
        ensures
            final(self).wf(),
            final(self)@ == old(self)@,
            opt_text(r) == old(self)@.string_at(normalize(key@)),
    {
        let ghost c0 = self.cache@;
        let nk = normalize_key(key);
        let now = clock_millis();
        match self.cache.get_at(&nk, now) {
            Some(v) => {
                proof {
                    assert(c0.contains_key(nk@));
                    assert forall|k: Text| #[trigger] self.cache@.contains_key(k) implies self@.string_at(k) == Some(self.cache@[k].0@) by {
                        if k != nk@ {
                            assert(c0.contains_key(k));
                        }
                    }
                }
                return Some(v);
            },
            None => {},
        }
        let ghost c1 = self.cache@;
        let r = self.read_string(&nk);
        match &r {
            Some(v) => {
                let k2 = nk.clone();
                self.cache.put_at(k2, v.clone(), now);
                proof {
                    assert forall|k: Text| #[trigger] self.cache@.contains_key(k) implies self@.string_at(k) == Some(self.cache@[k].0@) by {
                        if k != nk@ {
                            assert(c1.contains_key(k));
                            assert(c0.contains_key(k));
                        }
                    }
                }
            },
            None => {
                proof {
                    assert forall|k: Text| #[trigger] self.cache@.contains_key(k) implies self@.string_at(k) == Some(self.cache@[k].0@) by {
                        if k != nk@ {
                            assert(c0.contains_key(k));
                        }
                    }
                }
            },
        }
        r
    }

    /// Deletes `key` as a string and as a list. Inside a transaction this
    /// records tombstones and reports `true`; outside, it reports whether
    /// either table held the key.
    pub fn del(&mut self, key: &str) -> (r: bool)
        requires
            old(self).wf(),
        ensures
            final(self).wf(),
            final(self)@ == old(self)@.delete(normalize(key@)),
            r == (old(self)@.in_transaction() || old(self)@.strings.contains_key(normalize(key@))
                || old(self)@.lists.contains_key(normalize(key@))),
    {
        let ghost m0 = self@;
        let ghost c0 = self.cache@;
        let nk = normalize_key(key);
        let kc = nk.clone();
        if self.transaction_stack.len() > 0 {
            let ghost m = self@;
            let k2 = nk.clone();
            self.put_top_string(nk, None);
            let ghost m1 = self@;
            self.put_top_list(k2, None);
            proof {
                let t1 = m.top().put_string(k2@, None);
                assert(m1.top() == t1);
                assert(self@.layers =~= m.layers.update(m.layers.len() - 1, t1.put_list(k2@, None)));
            }
            self.cache.remove(&kc);
            proof {
                assert forall|k: Text| #[trigger] self.cache@.contains_key(k) implies self@.string_at(k) == Some(self.cache@[k].0@) by {
                    m0.lemma_delete_reads(kc@, k);
                }
            }
            true
        } else {
            let ghost m = self@;
            let a = self.strings.remove(&nk);
            let b = self.lists.remove(&nk);
            proof {
                assert(self@.strings =~= m.strings.remove(nk@));
                assert(self@.lists =~= m.lists.remove(nk@));
            }
            let r = a.is_some() || b.is_some();
            if r {
                self.cache.remove(&kc);
            }
            proof {
                assert forall|k: Text| #[trigger] self.cache@.contains_key(k) implies self@.string_at(k) == Some(self.cache@[k].0@) by {
                    m0.lemma_delete_reads(kc@, k);
                    if k == kc@ && !r {
                        assert(c0.contains_key(k));
                    }
                }
            }
            r
        }
    }

    /// Takes the list that `nk` reads as out of the engine, leaving an empty
    /// list written in its place.
    fn take_list(&mut self, nk: &String) -> (r: VecDeque<String>)
        requires
            old(self).tables_wf(),
        ensures
            final(self).tables_wf(),
            final(self).cache == old(self).cache,
            items_of(r) == old(self)@.list_or_empty(nk@),
            final(self)@ == old(self)@.write_list(nk@, Seq::empty()),
    {
        let ghost m = self@;
        if self.transaction_stack.len() > 0 {
            let mut top = self.transaction_stack.pop().unwrap();
            let ghost old_top = top;
            proof {
                assert(old_top.model() == m.top());
                assert(self@.list_overlays() =~= m.list_overlays().drop_last());
                assert(self@.list_overlays().subrange(0, self.transaction_stack@.len() as int) =~= self@.list_overlays());
            }
            let e: VecDeque<String> = VecDeque::new();
            proof {
                assert(items_of(e) =~= Seq::<Text>::empty());
            }
            let cur = top.lists.replace(nk.clone(), Some(e));
            let l = match cur {
                Some(Some(l)) => l,
                Some(None) => VecDeque::new(),
                None => match self.read_list_below(nk, self.transaction_stack.len()) {
                    Some(l) => l,
                    None => VecDeque::new(),
                },
            };
            proof {
                assert(top.model().lists =~= old_top.model().lists.insert(nk@, Some(Seq::empty())));
            }
            self.transaction_stack.push(top);
            proof {
                assert(self@.layers =~= m.layers.update(m.layers.len() - 1, m.top().put_list(nk@, Some(Seq::empty()))));
            }
            l
        } else {
            let e: VecDeque<String> = VecDeque::new();
            proof {
                assert(items_of(e) =~= Seq::<Text>::empty());
            }
            let cur = self.lists.replace(nk.clone(), e);
            proof {
                assert(self@.lists =~= m.lists.insert(nk@, Seq::empty()));
            }
            match cur {
                Some(l) => l,
                None => VecDeque::new(),
            }
        }
    }

    /// Writes a list where writes go.
    fn write_list(&mut self, nk: String, l: VecDeque<String>)
        requires
            old(self).tables_wf(),
        ensures
            final(self).tables_wf(),
            final(self).cache == old(self).cache,
            final(self)@ == old(self)@.write_list(nk@, items_of(l)),
    {
        if self.transaction_stack.len() > 0 {
            self.put_top_list(nk, Some(l));
        } else {
            let ghost m = self@;
            self.lists.insert(nk, l);
            proof {
                assert(self@.lists =~= m.lists.insert(nk@, items_of(l)));
            }
        }
    }

    fn step_counter(&mut self, key: &str, up: bool) -> (r: i64)
        requires
            old(self).wf(),
        ensures
            final(self).wf(),
            r == stepped(counter_value(old(self)@.string_at(normalize(key@))), up),
            final(self)@ == old(self)@.write_string(normalize(key@), Some(decimal(r as int))),
    {
        let nk = normalize_key(key);
        let n: i64 = match self.read_string(&nk) {
            Some(s) => parse_counter(s.as_str()),
            None => 0,
        };
        let v: i64 = if up {
            if n == i64::MAX { i64::MIN } else { n + 1 }
        } else {
            if n == i64::MIN { i64::MAX } else { n - 1 }
        };
        let text = format_i64(v);
        let ghost m0 = self@;
        let kc = nk.clone();
        self.write_string(nk, text);
        self.cache.remove(&kc);
        proof {
            assert forall|k: Text| #[trigger] self.cache@.contains_key(k) implies self@.string_at(k) == Some(self.cache@[k].0@) by {
                m0.lemma_write_string_reads(kc@, Some(decimal(v as int)), k);
            }
        }
        v
    }

    /// Adds one to the counter under `key`: a missing or non-numeric value
    /// counts as zero. The new value is stored as its decimal numeral.
    pub fn incr(&mut self, key: &str) -> (r: i64)
        requires
            old(self).wf(),
        ensures
            final(self).wf(),
            r == stepped(counter_value(old(self)@.string_at(normalize(key@))), true),
            final(self)@ == old(self)@.write_string(normalize(key@), Some(decimal(r as int))),
    {
        self.step_counter(key, true)
    }

    /// Takes one from the counter under `key`, as `incr` adds one.
    pub fn decr(&mut self, key: &str) -> (r: i64)
        requires
            old(self).wf(),
        ensures
            final(self).wf(),
            r == stepped(counter_value(old(self)@.string_at(normalize(key@))), false),
            final(self)@ == old(self)@.write_string(normalize(key@), Some(decimal(r as int))),
    {
        self.step_counter(key, false)
    }

    /// Puts `value` at the front of the list under `key`, returning the new
    /// length.
    pub fn lpush(&mut self, key: &str, value: String) -> (r: usize)
        requires
            old(self).wf(),
        ensures
            final(self).wf(),
            r == old(self)@.list_or_empty(normalize(key@)).len() + 1,
            final(self)@ == old(self)@.write_list(normalize(key@),
                seq![value@] + old(self)@.list_or_empty(normalize(key@))),
    {
        let ghost m = self@;
        let nk = normalize_key(key);
        let mut l = self.take_list(&nk);
        let ghost l0 = l;
        l.push_front(value);
        let n = l.len();
        proof {
            assert(items_of(l) =~= seq![value@] + items_of(l0));
        }
        let ghost l_final = l;
        self.write_list(nk, l);
        proof {
            m.lemma_write_list_twice(nk@, Seq::empty(), seq![value@] + items_of(l0));
        }
        proof {
            assert forall|k: Text| #[trigger] self.cache@.contains_key(k) implies self@.string_at(k) == Some(self.cache@[k].0@) by {
                m.lemma_write_list_strings(nk@, Seq::empty(), k);
                m.write_list(nk@, Seq::empty()).lemma_write_list_strings(nk@, items_of(l_final), k);
                m.lemma_write_list_strings(nk@, items_of(l_final), k);
            }
        }
        n
    }

    /// Puts `value` at the back of the list under `key`, returning the new
    /// length.
    pub fn rpush(&mut self, key: &str, value: String) -> (r: usize)
        requires
            old(self).wf(),
        ensures
            final(self).wf(),
            r == old(self)@.list_or_empty(normalize(key@)).len() + 1,
            final(self)@ == old(self)@.write_list(normalize(key@),
                old(self)@.list_or_empty(normalize(key@)).push(value@)),
    {
        let ghost m = self@;
        let nk = normalize_key(key);
        let mut l = self.take_list(&nk);
        let ghost l0 = l;
        l.push_back(value);
        let n = l.len();
        proof {
            assert(items_of(l) =~= items_of(l0).push(value@));
        }
        let ghost l_final = l;
        self.write_list(nk, l);
        proof {
            m.lemma_write_list_twice(nk@, Seq::empty(), items_of(l0).push(value@));
        }
        proof {
            assert forall|k: Text| #[trigger] self.cache@.contains_key(k) implies self@.string_at(k) == Some(self.cache@[k].0@) by {
                m.lemma_write_list_strings(nk@, Seq::empty(), k);
                m.write_list(nk@, Seq::empty()).lemma_write_list_strings(nk@, items_of(l_final), k);
                m.lemma_write_list_strings(nk@, items_of(l_final), k);
            }
        }
        n
    }

    /// Takes the front item off the list under `key`. The list, empty if
    /// it was missing, is written back where writes go.
    pub fn lpop(&mut self, key: &str) -> (r: Option<String>)
        requires
            old(self).wf(),
        ensures
            final(self).wf(),
            ({
                let l = old(self)@.list_or_empty(normalize(key@));
                &&& opt_text(r) == (if l.len() > 0 { Some(l[0]) } else { None })
                &&& final(self)@ == old(self)@.write_list(normalize(key@),
                    if l.len() > 0 { l.drop_first() } else { l })
            }),
    {
        let ghost m = self@;
        let nk = normalize_key(key);
        let mut l = self.take_list(&nk);
        let ghost l0 = l;
        let r = l.pop_front();
        proof {
            if l0@.len() > 0 {
                assert(items_of(l) =~= items_of(l0).drop_first());
            }
        }
        let ghost l_final = l;
        self.write_list(nk, l);
        proof {
            m.lemma_write_list_twice(nk@, Seq::empty(), items_of(l));
        }
        proof {
            assert forall|k: Text| #[trigger] self.cache@.contains_key(k) implies self@.string_at(k) == Some(self.cache@[k].0@) by {
                m.lemma_write_list_strings(nk@, Seq::empty(), k);
                m.write_list(nk@, Seq::empty()).lemma_write_list_strings(nk@, items_of(l_final), k);
                m.lemma_write_list_strings(nk@, items_of(l_final), k);
            }
        }
        r
    }

    /// Takes the back item off the list under `key`, as `lpop` does the
    /// front one.
    pub fn rpop(&mut self, key: &str) -> (r: Option<String>)
        requires
            old(self).wf(),
        ensures
            final(self).wf(),
            ({
                let l = old(self)@.list_or_empty(normalize(key@));
                &&& opt_text(r) == (if l.len() > 0 { Some(l.last()) } else { None })
                &&& final(self)@ == old(self)@.write_list(normalize(key@),
                    if l.len() > 0 { l.drop_last() } else { l })
            }),
    {
        let ghost m = self@;
        let nk = normalize_key(key);
        let mut l = self.take_list(&nk);
        let ghost l0 = l;
        let r = l.pop_back();
        proof {
            if l0@.len() > 0 {
                assert(items_of(l) =~= items_of(l0).drop_last());
            }
        }
        let ghost l_final = l;
        self.write_list(nk, l);
        proof {
            m.lemma_write_list_twice(nk@, Seq::empty(), items_of(l));
        }
        proof {
            assert forall|k: Text| #[trigger] self.cache@.contains_key(k) implies self@.string_at(k) == Some(self.cache@[k].0@) by {
                m.lemma_write_list_strings(nk@, Seq::empty(), k);
                m.write_list(nk@, Seq::empty()).lemma_write_list_strings(nk@, items_of(l_final), k);
                m.lemma_write_list_strings(nk@, items_of(l_final), k);
            }
        }
        r
    }

    /// Opens a transaction: a new empty innermost layer.
    pub fn start_transaction(&mut self)
        requires
            old(self).wf(),
        ensures
            final(self).wf(),
            final(self)@ == old(self)@.begin(),
    {
        let ghost m = self@;
        let layer = TransactionLayer { strings: Table::new(), lists: Table::new() };
        proof {
            assert(layer.model().strings =~= Map::empty());
            assert(layer.model().lists =~= Map::empty());
            assert(layer.model().string_order =~= Seq::empty());
            assert(layer.model().list_order =~= Seq::empty());
        }
        self.transaction_stack.push(layer);
        proof {
            assert(self@.layers =~= m.layers.push(LayerModel::empty()));
            assert forall|k: Text| #[trigger] self.cache@.contains_key(k) implies self@.string_at(k) == Some(self.cache@[k].0@) by {
                m.lemma_begin_strings(k);
            }
        }
    }

    /// Closes the innermost transaction, folding its writes into the layer
    /// below, or into the base tables where it is the outermost one. Reports
    /// one result per entry written in it; fails where no transaction is
    /// open.
    pub fn commit_transaction(&mut self) -> (r: Result<Vec<String>, String>)
        requires
            old(self).wf(),
        ensures
            final(self).wf(),
            r is Err <==> !old(self)@.in_transaction(),
            r is Err ==> final(self)@ == old(self)@,
            r matches Err(e) ==> e@ == "No active transaction to commit"@,
            r is Ok ==> final(self).cache_view() == Map::<Text, (String, u64)>::empty(),
            r matches Ok(v) ==> final(self)@ == old(self)@.commit() && texts(v) == old(self)@.commit_results(),
    {
        if self.transaction_stack.len() == 0 {
            return Err(String::from_str("No active transaction to commit"));
        }
        let ghost m = self@;
        let top = self.transaction_stack.pop().unwrap();
        proof {
            assert(top.model() == m.top());
            assert(top.wf());
        }
        if self.transaction_stack.len() == 0 {
            let results = top.outer_results();
            fold_strings(&mut self.strings, &top.strings);
            fold_lists(&mut self.lists, &top.lists);
            proof {
                assert(self@.layers =~= Seq::<LayerModel>::empty());
            }
            self.cache.clear();
            Ok(results)
        } else {
            let mut parent = self.transaction_stack.pop().unwrap();
            let ghost p0 = parent;
            proof {
                assert(p0.model() == m.layers.drop_last().last());
                assert(p0.wf());
            }
            merge_strings(&mut parent.strings, &top.strings);
            merge_lists(&mut parent.lists, &top.lists);
            proof {
                assert(parent.model() == p0.model().absorb(top.model()));
            }
            self.transaction_stack.push(parent);
            proof {
                let rest = m.layers.drop_last();
                assert(self@.layers =~= rest.update(rest.len() - 1, rest.last().absorb(m.top())));
            }
            let mut results: Vec<String> = Vec::new();
            proof {
                reveal_strlit("QUEUED");
                assert(texts(results) =~= Seq::<Text>::empty());
            }
            push_copies(&mut results, top.strings.len(), "QUEUED");
            push_copies(&mut results, top.lists.len(), "QUEUED");
            proof {
                assert("QUEUED"@ =~= queued_text());
                assert(top.strings.key_order().len() == top.strings.entries@.len());
                assert(top.lists.key_order().len() == top.lists.entries@.len());
                assert(texts(results) =~= m.commit_results());
            }
            self.cache.clear();
            Ok(results)
        }
    }

    /// Discards the innermost transaction; fails where none is open.
    pub fn rollback_transaction(&mut self) -> (r: Result<(), String>)
        requires
            old(self).wf(),
        ensures
            final(self).wf(),
            r is Err <==> !old(self)@.in_transaction(),
            r is Ok ==> final(self)@ == old(self)@.rollback(),
            r is Err ==> final(self)@ == old(self)@,
            r matches Err(e) ==> e@ == "No active transaction to rollback"@,
            r is Ok ==> final(self).cache_view() == Map::<Text, (String, u64)>::empty(),
    {
        if self.transaction_stack.len() == 0 {
            return Err(String::from_str("No active transaction to rollback"));
        }
        let ghost m = self@;
        let _ = self.transaction_stack.pop();
        proof {
            assert(self@.layers =~= m.layers.drop_last());
        }
        self.cache.clear();
        Ok(())
    }

    /// The snapshot lines of the base tables: one per string, then one per
    /// list.
    pub fn snapshot_lines(&self) -> (r: Vec<String>)
        requires
            self.wf(),
        ensures
            ({
                let ns = self@.strings.dom().len();
                let n = ns + self@.lists.dom().len();
                &&& texts(r).len() == n
                &&& forall|i: int| 0 <= i < ns ==> is_string_line(self@, #[trigger] texts(r)[i])
                &&& forall|i: int| ns <= i < n ==> is_list_line(self@, #[trigger] texts(r)[i])
                &&& forall|k: Text| #[trigger] self@.strings.contains_key(k)
                    ==> texts(r).subrange(0, ns as int).contains(string_line(k, self@.strings[k]))
                &&& forall|k: Text| #[trigger] self@.lists.contains_key(k)
                    ==> texts(r).subrange(ns as int, n as int).contains(list_line(k, self@.lists[k]))
            }),
    {
        proof {
            self.strings.lemma_dom_len();
            self.lists.lemma_dom_len();
            assert(self@.strings.dom() =~= self.strings@.dom());
            assert(self@.lists.dom() =~= self.lists@.dom());
        }
        let ghost m = self@;
        let ghost se = self.strings.entries@;
        let ghost le = self.lists.entries@;
        let ns = self.strings.entries.len();
        let mut r: Vec<String> = Vec::new();
        let mut i: usize = 0;
        while i < ns
            invariant
                self.wf(),
                m == self@,
                se == self.strings.entries@,
                ns == se.len(),
                i <= ns,
                r@.len() == i,
                forall|j: int| 0 <= j < i ==> (#[trigger] r@[j])@ == string_line(se[j].0@, se[j].1@),
            decreases ns - i,
        {
            let e = &self.strings.entries[i];
            let line = make_string_line(&e.0, &e.1);
            r.push(line);
            i = i + 1;
        }
        let nl = self.lists.entries.len();
        let mut i: usize = 0;
        while i < nl
            invariant
                self.wf(),
                m == self@,
                le == self.lists.entries@,
                se == self.strings.entries@,
                ns == se.len(),
                nl == le.len(),
                i <= nl,
                r@.len() == ns + i,
                forall|j: int| 0 <= j < ns ==> (#[trigger] r@[j])@ == string_line(se[j].0@, se[j].1@),
                forall|j: int| 0 <= j < i ==> (#[trigger] r@[ns + j])@ == list_line(le[j].0@, items_of(le[j].1)),
            decreases nl - i,
        {
            let e = &self.lists.entries[i];
            let line = make_list_line(&e.0, &e.1);
            let ghost before = r@;
            r.push(line);
            proof {
                assert forall|j: int| 0 <= j < ns implies (#[trigger] r@[j])@ == string_line(se[j].0@, se[j].1@) by {
                    assert(r@[j] == before[j]);
                }
                assert forall|j: int| 0 <= j < i + 1 implies (#[trigger] r@[ns + j])@ == list_line(le[j].0@, items_of(le[j].1)) by {
                    if j < i {
                        assert(r@[ns + j] == before[ns + j]);
                    }
                }
            }
            i = i + 1;
        }
        proof {
            let t = texts(r);
            let n = ns + nl;
            assert forall|j: int| 0 <= j < ns implies is_string_line(m, #[trigger] t[j]) by {
                self.strings.lemma_entry(j);
                assert(m.strings.contains_key(se[j].0@) && t[j] == string_line(se[j].0@, m.strings[se[j].0@]));
            }
            assert forall|j: int| ns <= j < n implies is_list_line(m, #[trigger] t[j]) by {
                self.lists.lemma_entry(j - ns);
                assert(r@[ns + (j - ns)] == r@[j]);
                assert(m.lists.contains_key(le[j - ns].0@) && t[j] == list_line(le[j - ns].0@, m.lists[le[j - ns].0@]));
            }
            assert forall|k: Text| #[trigger] m.strings.contains_key(k)
                implies t.subrange(0, ns as int).contains(string_line(k, m.strings[k])) by {
                let j = choose|j: int| key_at(se, j, k);
                self.strings.lemma_entry(j);
                assert(t.subrange(0, ns as int)[j] == string_line(k, m.strings[k]));
            }
            assert forall|k: Text| #[trigger] m.lists.contains_key(k)
                implies t.subrange(ns as int, n as int).contains(list_line(k, m.lists[k])) by {
                let j = choose|j: int| key_at(le, j, k);
                self.lists.lemma_entry(j);
                assert(r@[ns + j]@ == list_line(k, m.lists[k]));
                assert(t.subrange(ns as int, n as int)[j] == list_line(k, m.lists[k]));
            }
        }
        r
    }

    /// Replaces the base tables by what snapshot lines describe.
    pub fn load_snapshot_lines(&mut self, lines: &Vec<String>)
        requires
            old(self).wf(),
        ensures
            final(self).wf(),
            (final(self)@.strings, final(self)@.lists) == loaded(texts(*lines)),
            final(self).cache_view() == Map::<Text, (String, u64)>::empty(),
            final(self)@.layers == old(self)@.layers,
    {
        let mut ss: Table<String> = Table::new();
        let mut ls: Table<VecDeque<String>> = Table::new();
        let mut i: usize = 0;
        proof {
            assert(texts(*lines).subrange(0, 0) =~= Seq::<Text>::empty());
            assert(ss@.map_values(|s: String| s@) =~= Map::<Text, Text>::empty());
            assert(ls@.map_values(|d: VecDeque<String>| items_of(d)) =~= Map::<Text, Items>::empty());
        }
        while i < lines.len()
            invariant
                ss.wf(),
                ls.wf(),
                i <= lines@.len(),
                (ss@.map_values(|s: String| s@), ls@.map_values(|d: VecDeque<String>| items_of(d)))
                    == loaded(texts(*lines).subrange(0, i as int)),
            decreases lines@.len() - i,
        {
            let w = split_words(lines[i].as_str());
            let ghost ws = words(lines@[i as int]@);
            proof {
                assert(texts(w) == ws);
                let sub = texts(*lines).subrange(0, i as int + 1);
                assert(sub.drop_last() =~= texts(*lines).subrange(0, i as int));
                assert(sub.last() == lines@[i as int]@);
            }
            let ghost s0 = ss@.map_values(|s: String| s@);
            let ghost l0 = ls@.map_values(|d: VecDeque<String>| items_of(d));
            if w.len() >= 3 && word_is(&w[0], "STRING") {
                proof {
                    assert(texts(w)[0] == w@[0]@);
                    assert(texts(w)[1] == w@[1]@);
                    assert(texts(w)[2] == w@[2]@);
                }
                ss.insert(w[1].clone(), w[2].clone());
                proof {
                    assert(ss@.map_values(|s: String| s@) =~= s0.insert(ws[1], ws[2]));
                }
            } else if w.len() >= 3 && word_is(&w[0], "LIST") {
                proof {
                    assert(texts(w)[0] == w@[0]@);
                    assert(texts(w)[1] == w@[1]@);
                }
                let d = list_from(&w, 3);
                ls.insert(w[1].clone(), d);
                proof {
                    assert(ls@.map_values(|d: VecDeque<String>| items_of(d)) =~= l0.insert(ws[1], ws.subrange(3, ws.len() as int)));
                }
            } else {
                proof {
                    if w@.len() >= 3 {
                        assert(texts(w)[0] == w@[0]@);
                    }
                }
            }
            i = i + 1;
        }
        proof {
            assert(texts(*lines).subrange(0, lines@.len() as int) =~= texts(*lines));
        }
        self.strings = ss;
        self.lists = ls;
        self.cache.clear();
    }

    /// The length of the list that `key` reads as; zero where there is none.
    pub fn llen(&self, key: &str) -> (r: usize)
        requires
            self.wf(),
        ensures
            r == self@.list_or_empty(normalize(key@)).len(),
    {
        let nk = normalize_key(key);
        proof {
            assert(self@.list_overlays().subrange(0, self.transaction_stack@.len() as int) =~= self@.list_overlays());
        }
        match self.read_list_below(&nk, self.transaction_stack.len()) {
            Some(d) => d.len(),
            None => 0,
        }
    }
}

} // verus!
