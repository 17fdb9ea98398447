use vstd::prelude::*;

verus! {

/// A stored string value, as characters.
pub type Text = Seq<char>;

/// A stored list, front first.
pub type Items = Seq<Seq<char>>;

/// What a key reads as through a stack of overlays above a base map: the
/// topmost overlay that mentions the key decides (a tombstone reads as
/// absent); where none does, the base map does.
pub open spec fn lookup<S>(base: Map<Text, S>, overlays: Seq<Map<Text, Option<S>>>, k: Text) -> Option<S>
    decreases overlays.len(),
{
    if overlays.len() == 0 {
        if base.contains_key(k) {
            Some(base[k])
        } else {
            None
        }
    } else if overlays.last().contains_key(k) {
        overlays.last()[k]
    } else {
        lookup(base, overlays.drop_last(), k)
    }
}

/// The base map after an overlay is folded into it: values are written,
/// tombstones delete.
pub open spec fn apply_overlay<S>(base: Map<Text, S>, overlay: Map<Text, Option<S>>) -> Map<Text, S> {
    Map::new(
        |k: Text|
            if overlay.contains_key(k) {
                overlay[k] is Some
            } else {
                base.contains_key(k)
            },
        |k: Text|
            if overlay.contains_key(k) {
                overlay[k]->0
            } else {
                base[k]
            },
    )
}

/// Folding one more overlay key into the base map writes or deletes it.
pub proof fn lemma_apply_step<S>(b0: Map<Text, S>, o: Map<Text, Option<S>>, p: Set<Text>, k: Text)
    requires
        o.contains_key(k),
    ensures
        apply_overlay(b0, o.restrict(p.insert(k))) == (match o[k] {
            Some(x) => apply_overlay(b0, o.restrict(p)).insert(k, x),
            None => apply_overlay(b0, o.restrict(p)).remove(k),
        }),
{
    match o[k] {
        Some(x) => {
            assert(apply_overlay(b0, o.restrict(p.insert(k))) =~= apply_overlay(b0, o.restrict(p)).insert(k, x));
        },
        None => {
            assert(apply_overlay(b0, o.restrict(p.insert(k))) =~= apply_overlay(b0, o.restrict(p)).remove(k));
        },
    }
}

/// Merging one more key of a child layer into its parent writes it.
pub proof fn lemma_union_step<S>(p0: Map<Text, S>, o: Map<Text, S>, p: Set<Text>, k: Text)
    requires
        o.contains_key(k),
    ensures
        p0.union_prefer_right(o.restrict(p.insert(k))) == p0.union_prefer_right(o.restrict(p)).insert(k, o[k]),
{
    assert(p0.union_prefer_right(o.restrict(p.insert(k))) =~= p0.union_prefer_right(o.restrict(p)).insert(k, o[k]));
}

/// The order of keys after the keys of `child`, in turn, are written into a
/// layer whose keys stand in the order `parent`: a new key goes last.
pub open spec fn merge_order(parent: Seq<Text>, child: Seq<Text>) -> Seq<Text>
    decreases child.len(),
{
    if child.len() == 0 {
        parent
    } else {
        let m = merge_order(parent, child.drop_last());
        if m.contains(child.last()) {
            m
        } else {
            m.push(child.last())
        }
    }
}

/// One transaction layer: overlays of strings and of lists, each with the
/// order in which its keys were first written.
pub struct LayerModel {
    pub strings: Map<Text, Option<Text>>,
    pub lists: Map<Text, Option<Items>>,
    pub string_order: Seq<Text>,
    pub list_order: Seq<Text>,
}

impl LayerModel {
    pub open spec fn empty() -> LayerModel {
        LayerModel {
            strings: Map::empty(),
            lists: Map::empty(),
            string_order: Seq::empty(),
            list_order: Seq::empty(),
        }
    }

    pub open spec fn put_string(self, k: Text, v: Option<Text>) -> LayerModel {
        LayerModel {
            strings: self.strings.insert(k, v),
            string_order: if self.strings.contains_key(k) {
                self.string_order
            } else {
                self.string_order.push(k)
            },
            ..self
        }
    }

    pub open spec fn put_list(self, k: Text, v: Option<Items>) -> LayerModel {
        LayerModel {
            lists: self.lists.insert(k, v),
            list_order: if self.lists.contains_key(k) {
                self.list_order
            } else {
                self.list_order.push(k)
            },
            ..self
        }
    }

    /// This layer with a committed inner layer folded into it.
    pub open spec fn absorb(self, child: LayerModel) -> LayerModel {
        LayerModel {
            strings: self.strings.union_prefer_right(child.strings),
            lists: self.lists.union_prefer_right(child.lists),
            string_order: merge_order(self.string_order, child.string_order),
            list_order: merge_order(self.list_order, child.list_order),
        }
    }
}

/// A counter moved one step up or down, wrapping at the ends of `i64`.
pub open spec fn stepped(n: int, up: bool) -> int {
    if up {
        if n == i64::MAX { i64::MIN as int } else { n + 1 }
    } else {
        if n == i64::MIN { i64::MAX as int } else { n - 1 }
    }
}

/// What a list entry of a committed outermost layer reports: the length of
/// a written list, `OK` for a deleted one.
pub open spec fn list_result(v: Option<Items>) -> Text {
    match v {
        Some(l) => crate::num::decimal(l.len() as int),
        None => seq!['O', 'K'],
    }
}

pub open spec fn ok_text() -> Text {
    seq!['O', 'K']
}

pub open spec fn queued_text() -> Text {
    seq!['Q', 'U', 'E', 'U', 'E', 'D']
}

/// The state of the storage engine: base string and list tables, and the
/// stack of open transaction layers, innermost last.
pub struct StoreModel {
    pub strings: Map<Text, Text>,
    pub lists: Map<Text, Items>,
    pub layers: Seq<LayerModel>,
}

impl StoreModel {
    pub open spec fn string_overlays(self) -> Seq<Map<Text, Option<Text>>> {
        self.layers.map_values(|l: LayerModel| l.strings)
    }

    pub open spec fn list_overlays(self) -> Seq<Map<Text, Option<Items>>> {
        self.layers.map_values(|l: LayerModel| l.lists)
    }

    /// The string a key reads as.
    pub open spec fn string_at(self, k: Text) -> Option<Text> {
        lookup(self.strings, self.string_overlays(), k)
    }

    /// The list a key reads as.
    pub open spec fn list_at(self, k: Text) -> Option<Items> {
        lookup(self.lists, self.list_overlays(), k)
    }

    /// The list a key reads as, an absent one being empty.
    pub open spec fn list_or_empty(self, k: Text) -> Items {
        match self.list_at(k) {
            Some(l) => l,
            None => Seq::empty(),
        }
    }

    pub open spec fn in_transaction(self) -> bool {
        self.layers.len() > 0
    }

    pub open spec fn top(self) -> LayerModel {
        self.layers.last()
    }

    pub open spec fn with_top(self, l: LayerModel) -> StoreModel {
        StoreModel { layers: self.layers.update(self.layers.len() - 1, l), ..self }
    }

    /// A string written (or, with `None`, deleted) where writes go: the
    /// innermost layer, or the base table outside a transaction.
    pub open spec fn write_string(self, k: Text, v: Option<Text>) -> StoreModel {
        if self.in_transaction() {
            self.with_top(self.top().put_string(k, v))
        } else {
            match v {
                Some(t) => StoreModel { strings: self.strings.insert(k, t), ..self },
                None => StoreModel { strings: self.strings.remove(k), ..self },
            }
        }
    }

    /// A list written where writes go.
    pub open spec fn write_list(self, k: Text, v: Items) -> StoreModel {
        if self.in_transaction() {
            self.with_top(self.top().put_list(k, Some(v)))
        } else {
            StoreModel { lists: self.lists.insert(k, v), ..self }
        }
    }

    /// A key deleted: tombstones for both kinds in the innermost layer, or
    /// removal from both base tables.
    pub open spec fn delete(self, k: Text) -> StoreModel {
        if self.in_transaction() {
            self.with_top(self.top().put_string(k, None).put_list(k, None))
        } else {
            StoreModel { strings: self.strings.remove(k), lists: self.lists.remove(k), ..self }
        }
    }

    /// Writing a list twice under one key leaves what the second write
    /// wrote.
    pub proof fn lemma_write_list_twice(self, k: Text, a: Items, b: Items)
        ensures
            self.write_list(k, a).write_list(k, b) == self.write_list(k, b),
    {
        if self.in_transaction() {
            let t = self.top();
            assert(t.put_list(k, Some(a)).put_list(k, Some(b)).lists =~= t.put_list(k, Some(b)).lists);
            assert(self.write_list(k, a).write_list(k, b).layers =~= self.write_list(k, b).layers);
        } else {
            assert(self.lists.insert(k, a).insert(k, b) =~= self.lists.insert(k, b));
        }
    }

    /// A string written under `k` reads back; other keys read as before.
    pub proof fn lemma_write_string_reads(self, k: Text, v: Option<Text>, x: Text)
        ensures
            self.write_string(k, v).string_at(x) == (if x == k { v } else { self.string_at(x) }),
    {
        let m2 = self.write_string(k, v);
        if self.in_transaction() {
            assert(m2.string_overlays().drop_last() =~= self.string_overlays().drop_last());
            assert(m2.string_overlays().last() == m2.top().strings);
            assert(self.string_overlays().last() == self.top().strings);
        }
    }

    /// Deleting `k` leaves it absent as a string; other keys read as before.
    pub proof fn lemma_delete_reads(self, k: Text, x: Text)
        ensures
            self.delete(k).string_at(x) == (if x == k { None } else { self.string_at(x) }),
    {
        let m2 = self.delete(k);
        if self.in_transaction() {
            assert(m2.string_overlays().drop_last() =~= self.string_overlays().drop_last());
            assert(m2.string_overlays().last() == m2.top().strings);
            assert(self.string_overlays().last() == self.top().strings);
        }
    }

    /// Writing a list changes what no string reads as.
    pub proof fn lemma_write_list_strings(self, k: Text, v: Items, x: Text)
        ensures
            self.write_list(k, v).string_at(x) == self.string_at(x),
    {
        if self.in_transaction() {
            assert(self.write_list(k, v).string_overlays() =~= self.string_overlays());
        }
    }

    /// Opening a transaction changes what no string reads as.
    pub proof fn lemma_begin_strings(self, x: Text)
        ensures
            self.begin().string_at(x) == self.string_at(x),
    {
        let m2 = self.begin();
        assert(m2.string_overlays().drop_last() =~= self.string_overlays());
        assert(m2.string_overlays().last() == LayerModel::empty().strings);
    }

    pub open spec fn begin(self) -> StoreModel {
        StoreModel { layers: self.layers.push(LayerModel::empty()), ..self }
    }

    pub open spec fn rollback(self) -> StoreModel {
        StoreModel { layers: self.layers.drop_last(), ..self }
    }

    /// The innermost layer folded into the one below it, or into the base
    /// tables where it is the only one.
    pub open spec fn commit(self) -> StoreModel {
        let top = self.top();
        if self.layers.len() == 1 {
            StoreModel {
                strings: apply_overlay(self.strings, top.strings),
                lists: apply_overlay(self.lists, top.lists),
                layers: Seq::empty(),
            }
        } else {
            let rest = self.layers.drop_last();
            StoreModel {
                layers: rest.update(rest.len() - 1, rest.last().absorb(top)),
                ..self
            }
        }
    }

    /// What a commit reports: one `OK` per string entry, then one result per
    /// list entry, for the outermost layer; one `QUEUED` per entry otherwise.
    pub open spec fn commit_results(self) -> Seq<Text> {
        let top = self.top();
        if self.layers.len() == 1 {
            top.string_order.map_values(|k: Text| ok_text())
                + top.list_order.map_values(|k: Text| list_result(top.lists[k]))
        } else {
            Seq::new(
                top.string_order.len() + top.list_order.len(),
                |i: int| queued_text(),
            )
        }
    }
}

} // verus!
