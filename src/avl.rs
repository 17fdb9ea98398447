use vstd::prelude::*;
use crate::model::Text;
use core::cmp::Ordering;
use crate::text_order::{compare_text, text_lt, lemma_text_lt_asymmetric, lemma_text_lt_transitive, lemma_text_lt_irreflexive};

verus! {

/// A node of a height-balanced search tree keyed by strings; each entry
/// carries a value and the time (milliseconds) it was written.
pub struct Node<V> {
    pub key: String,
    pub value: V,
    pub left: Option<Box<Node<V>>>,
    pub right: Option<Box<Node<V>>>,
    pub height: usize,
    pub timestamp: u64,
}

pub open spec fn max_nat(a: nat, b: nat) -> nat {
    if a >= b { a } else { b }
}

/// The height of a tree; an empty one has height zero.
pub open spec fn ht<V>(t: Option<Box<Node<V>>>) -> nat
    decreases t,
{
    match t {
        None => 0,
        Some(n) => 1 + max_nat(ht(n.left), ht(n.right)),
    }
}

/// The number of entries of a tree.
pub open spec fn count<V>(t: Option<Box<Node<V>>>) -> nat
    decreases t,
{
    match t {
        None => 0,
        Some(n) => count(n.left) + count(n.right) + 1,
    }
}

/// The entries of a tree: key to value and write time.
pub open spec fn entries<V>(t: Option<Box<Node<V>>>) -> Map<Text, (V, u64)>
    decreases t,
{
    match t {
        None => Map::empty(),
        Some(n) => entries(n.left).union_prefer_right(entries(n.right)).insert(n.key@, (n.value, n.timestamp)),
    }
}

pub open spec fn all_below<V>(t: Option<Box<Node<V>>>, k: Text) -> bool {
    forall|x: Text| entries(t).contains_key(x) ==> text_lt(x, k)
}

pub open spec fn all_above<V>(t: Option<Box<Node<V>>>, k: Text) -> bool {
    forall|x: Text| entries(t).contains_key(x) ==> text_lt(k, x)
}

/// Keys on the left of every node are smaller than its key, keys on the
/// right larger.
pub open spec fn ordered<V>(t: Option<Box<Node<V>>>) -> bool
    decreases t,
{
    match t {
        None => true,
        Some(n) => ordered(n.left) && ordered(n.right) && all_below(n.left, n.key@) && all_above(n.right, n.key@),
    }
}

/// Every node records its height, and the heights of its two subtrees
/// differ by at most one.
pub open spec fn balanced<V>(t: Option<Box<Node<V>>>) -> bool
    decreases t,
{
    match t {
        None => true,
        Some(n) => {
            &&& balanced(n.left)
            &&& balanced(n.right)
            &&& n.height == ht(t)
            &&& ht(n.left) <= ht(n.right) + 1
            &&& ht(n.right) <= ht(n.left) + 1
        },
    }
}

/// A well-formed tree: ordered and balanced.
pub open spec fn avl<V>(t: Option<Box<Node<V>>>) -> bool {
    ordered(t) && balanced(t)
}

pub proof fn lemma_height_le_count<V>(t: Option<Box<Node<V>>>)
    ensures
        ht(t) <= count(t),
    decreases t,
{
    if let Some(n) = t {
        lemma_height_le_count(n.left);
        lemma_height_le_count(n.right);
    }
}

pub proof fn lemma_entries_finite_count<V>(t: Option<Box<Node<V>>>)
    requires
        ordered(t),
    ensures
        entries(t).dom().finite(),
        entries(t).dom().len() == count(t),
    decreases t,
{
    if let Some(n) = t {
        lemma_entries_finite_count(n.left);
        lemma_entries_finite_count(n.right);
        let l = entries(n.left).dom();
        let r = entries(n.right).dom();
        assert(l.disjoint(r)) by {
            assert forall|x: Text| l.contains(x) implies !r.contains(x) by {
                if r.contains(x) {
                    lemma_text_lt_asymmetric(x, n.key@);
                    lemma_text_lt_transitive(n.key@, x, n.key@);
                    lemma_text_lt_irreflexive(n.key@);
                }
            }
        }
        vstd::set_lib::lemma_set_disjoint_lens(l, r);
        assert(entries(n.left).union_prefer_right(entries(n.right)).dom() =~= l + r);
        assert(!(l + r).contains(n.key@)) by {
            if l.contains(n.key@) {
                lemma_text_lt_irreflexive(n.key@);
            }
            if r.contains(n.key@) {
                lemma_text_lt_irreflexive(n.key@);
            }
        }
        assert(entries(t).dom() =~= (l + r).insert(n.key@));
    }
}

pub fn height_of<V>(t: &Option<Box<Node<V>>>) -> (r: usize)
    requires
        balanced(*t),
    ensures
        r == ht(*t),
{
    match t {
        None => 0,
        Some(n) => n.height,
    }
}

/// A node built from its parts, recording its height.
pub fn make_node<V>(key: String, value: V, timestamp: u64, left: Option<Box<Node<V>>>, right: Option<Box<Node<V>>>) -> (r: Box<Node<V>>)
    requires
        balanced(left),
        balanced(right),
        ht(left) <= ht(right) + 1,
        ht(right) <= ht(left) + 1,
        count(left) + count(right) + 1 <= usize::MAX,
    ensures
        r.key == key,
        r.value == value,
        r.timestamp == timestamp,
        r.left == left,
        r.right == right,
        balanced(Some(r)),
{
    proof {
        lemma_height_le_count(left);
        lemma_height_le_count(right);
    }
    let hl = height_of(&left);
    let hr = height_of(&right);
    let h = if hl >= hr { hl + 1 } else { hr + 1 };
    Box::new(Node { key, value, left, right, height: h, timestamp })
}

/// The entries of a node with the given parts.
pub open spec fn joined<V>(l: Option<Box<Node<V>>>, k: Text, v: V, ts: u64, r: Option<Box<Node<V>>>) -> Map<Text, (V, u64)> {
    entries(l).union_prefer_right(entries(r)).insert(k, (v, ts))
}

proof fn lemma_below_trans<V>(t: Option<Box<Node<V>>>, a: Text, b: Text)
    requires
        all_below(t, a),
        text_lt(a, b),
    ensures
        all_below(t, b),
{
    assert forall|x: Text| entries(t).contains_key(x) implies text_lt(x, b) by {
        lemma_text_lt_transitive(x, a, b);
    }
}

proof fn lemma_above_trans<V>(t: Option<Box<Node<V>>>, a: Text, b: Text)
    requires
        all_above(t, b),
        text_lt(a, b),
    ensures
        all_above(t, a),
{
    assert forall|x: Text| entries(t).contains_key(x) implies text_lt(a, x) by {
        lemma_text_lt_transitive(a, b, x);
    }
}

proof fn lemma_below_excludes<V>(t: Option<Box<Node<V>>>, k: Text, x: Text)
    requires
        all_below(t, k),
        x == k || text_lt(k, x),
    ensures
        !entries(t).contains_key(x),
{
    if entries(t).contains_key(x) {
        if x == k {
            lemma_text_lt_irreflexive(k);
        } else {
            lemma_text_lt_asymmetric(x, k);
        }
    }
}

proof fn lemma_above_excludes<V>(t: Option<Box<Node<V>>>, k: Text, x: Text)
    requires
        all_above(t, k),
        x == k || text_lt(x, k),
    ensures
        !entries(t).contains_key(x),
{
    if entries(t).contains_key(x) {
        if x == k {
            lemma_text_lt_irreflexive(k);
        } else {
            lemma_text_lt_asymmetric(x, k);
        }
    }
}

pub open spec fn keys_below<V>(m: Map<Text, (V, u64)>, k: Text) -> bool {
    forall|x: Text| m.contains_key(x) ==> text_lt(x, k)
}

pub open spec fn keys_above<V>(m: Map<Text, (V, u64)>, k: Text) -> bool {
    forall|x: Text| m.contains_key(x) ==> text_lt(k, x)
}

/// Re-hanging three ordered parts around two keys keeps the entries:
/// `(a k1 b) k2 c` holds what `a k1 (b k2 c)` holds.
proof fn lemma_rotate_entries<V>(
    a: Map<Text, (V, u64)>, k1: Text, v1: (V, u64), b: Map<Text, (V, u64)>,
    k2: Text, v2: (V, u64), c: Map<Text, (V, u64)>,
)
    requires
        keys_below(a, k1),
        keys_above(b, k1),
        keys_below(b, k2),
        text_lt(k1, k2),
        keys_above(c, k2),
    ensures
        a.union_prefer_right(b).insert(k1, v1).union_prefer_right(c).insert(k2, v2)
            == a.union_prefer_right(b.union_prefer_right(c).insert(k2, v2)).insert(k1, v1),
{
    let m1 = a.union_prefer_right(b).insert(k1, v1).union_prefer_right(c).insert(k2, v2);
    let m2 = a.union_prefer_right(b.union_prefer_right(c).insert(k2, v2)).insert(k1, v1);
    assert forall|x: Text| #[trigger] m1.contains_key(x) == m2.contains_key(x) by {}
    assert forall|x: Text| m1.contains_key(x) implies #[trigger] m1[x] == m2[x] by {
        if x == k2 {
            lemma_text_lt_irreflexive(k2);
        } else if x == k1 {
            if c.contains_key(x) {
                lemma_text_lt_asymmetric(k1, k2);
            }
        } else if c.contains_key(x) {
            if b.contains_key(x) {
                lemma_text_lt_asymmetric(x, k2);
            }
            if a.contains_key(x) {
                lemma_text_lt_transitive(x, k1, k2);
                lemma_text_lt_asymmetric(x, k2);
            }
        } else if b.contains_key(x) {
            if a.contains_key(x) {
                lemma_text_lt_asymmetric(x, k1);
            }
        }
    }
    assert(m1 =~= m2);
}

/// Rebalances a node whose left side is two levels taller.
fn fix_left_heavy<V>(key: String, value: V, timestamp: u64, left: Option<Box<Node<V>>>, right: Option<Box<Node<V>>>) -> (r: Option<Box<Node<V>>>)
    requires
        avl(left),
        avl(right),
        all_below(left, key@),
        all_above(right, key@),
        ht(left) == ht(right) + 2,
        count(left) + count(right) + 1 <= usize::MAX,
    ensures
        r is Some,
        avl(r),
        entries(r) == joined(left, key@, value, timestamp, right),
        count(r) == count(left) + count(right) + 1,
        max_nat(ht(left), ht(right)) <= ht(r) <= max_nat(ht(left), ht(right)) + 1,
        ht(left) <= ht(right) + 1 && ht(right) <= ht(left) + 1 ==> ht(r) == max_nat(ht(left), ht(right)) + 1,
{
    let l = left.unwrap();
    let ghost lt = Some(l);
    let Node { key: lk, value: lv, left: a, right: b, height: _, timestamp: lts } = *l;
    proof {
        assert(entries(lt) == joined(a, lk@, lv, lts, b));
        assert(count(lt) == count(a) + count(b) + 1);
        assert forall|x: Text| entries(a).contains_key(x) implies text_lt(x, key@) by {
            assert(entries(lt).contains_key(x));
        }
        assert forall|x: Text| entries(b).contains_key(x) implies text_lt(x, key@) by {
            assert(entries(lt).contains_key(x));
        }
        assert(entries(lt).contains_key(lk@));
    }
    let ha = height_of(&a);
    let hb = height_of(&b);
    if ha >= hb {
        proof {
            lemma_above_trans(right, lk@, key@);
            lemma_rotate_entries(entries(a), lk@, (lv, lts), entries(b), key@, (value, timestamp), entries(right));
        }
        let inner = make_node(key, value, timestamp, b, right);
        proof {
            assert(entries(Some(inner)) == joined(inner.left, inner.key@, inner.value, inner.timestamp, inner.right));
            assert forall|x: Text| entries(Some(inner)).contains_key(x) implies text_lt(lk@, x) by {}
        }
        proof {
            assert(ordered(Some(inner)));
        }
        let root = make_node(lk, lv, lts, a, Some(inner));
        proof {
            assert(ordered(Some(root)));
            assert(count(Some(root)) == count(root.left) + count(root.right) + 1);
        }
        Some(root)
    } else {
        let m = b.unwrap();
        let ghost mt = Some(m);
        let Node { key: mk, value: mv, left: b1, right: b2, height: _, timestamp: mts } = *m;
        proof {
            assert(entries(mt) == joined(b1, mk@, mv, mts, b2));
            assert(count(mt) == count(b1) + count(b2) + 1);
            assert(entries(mt).contains_key(mk@));
            assert forall|x: Text| entries(b1).contains_key(x) implies text_lt(lk@, x) && text_lt(x, key@) by {
                assert(entries(mt).contains_key(x));
            }
            assert forall|x: Text| entries(b2).contains_key(x) implies text_lt(lk@, x) && text_lt(x, key@) by {
                assert(entries(mt).contains_key(x));
            }
            assert(ordered(mt) && balanced(mt));
            assert(balanced(b1) && balanced(b2) && ordered(b1) && ordered(b2));
            assert(all_below(b1, mk@) && all_above(b2, mk@));
            lemma_rotate_entries(entries(a), lk@, (lv, lts), entries(b1), mk@, (mv, mts), entries(b2));
            lemma_below_trans(a, lk@, mk@);
            lemma_above_trans(right, mk@, key@);
            assert(keys_below(joined(a, lk@, lv, lts, b1), mk@));
            lemma_rotate_entries(
                joined(a, lk@, lv, lts, b1), mk@, (mv, mts), entries(b2), key@, (value, timestamp), entries(right));
        }
        let l2 = make_node(lk, lv, lts, a, b1);
        let r2 = make_node(key, value, timestamp, b2, right);
        proof {
            assert(entries(Some(l2)) == joined(a, lk@, lv, lts, b1));
            assert(entries(Some(r2)) == joined(b2, key@, value, timestamp, right));
            assert(ordered(Some(l2)));
            assert(ordered(Some(r2)));
            assert(all_below(Some(l2), mk@));
            assert(all_above(Some(r2), mk@));
        }
        let root = make_node(mk, mv, mts, Some(l2), Some(r2));
        proof {
            assert(ordered(Some(root)));
            assert(count(Some(root)) == count(root.left) + count(root.right) + 1);
        }
        Some(root)
    }
}

/// Rebalances a node whose right side is two levels taller.
fn fix_right_heavy<V>(key: String, value: V, timestamp: u64, left: Option<Box<Node<V>>>, right: Option<Box<Node<V>>>) -> (r: Option<Box<Node<V>>>)
    requires
        avl(left),
        avl(right),
        all_below(left, key@),
        all_above(right, key@),
        ht(right) == ht(left) + 2,
        count(left) + count(right) + 1 <= usize::MAX,
    ensures
        r is Some,
        avl(r),
        entries(r) == joined(left, key@, value, timestamp, right),
        count(r) == count(left) + count(right) + 1,
        max_nat(ht(left), ht(right)) <= ht(r) <= max_nat(ht(left), ht(right)) + 1,
        ht(left) <= ht(right) + 1 && ht(right) <= ht(left) + 1 ==> ht(r) == max_nat(ht(left), ht(right)) + 1,
{
    let rn = right.unwrap();
    let ghost rt = Some(rn);
    let Node { key: rk, value: rv, left: b, right: c, height: _, timestamp: rts } = *rn;
    proof {
        assert(entries(rt) == joined(b, rk@, rv, rts, c));
        assert(count(rt) == count(b) + count(c) + 1);
        assert forall|x: Text| entries(b).contains_key(x) implies text_lt(key@, x) by {
            assert(entries(rt).contains_key(x));
        }
        assert forall|x: Text| entries(c).contains_key(x) implies text_lt(key@, x) by {
            assert(entries(rt).contains_key(x));
        }
        assert(entries(rt).contains_key(rk@));
    }
    let hb = height_of(&b);
    let hc = height_of(&c);
    if hc >= hb {
        proof {
            lemma_below_trans(left, key@, rk@);
            lemma_rotate_entries(entries(left), key@, (value, timestamp), entries(b), rk@, (rv, rts), entries(c));
        }
        let inner = make_node(key, value, timestamp, left, b);
        proof {
            assert(entries(Some(inner)) == joined(left, key@, value, timestamp, b));
            assert(ordered(Some(inner)));
            assert(all_below(Some(inner), rk@));
        }
        let root = make_node(rk, rv, rts, Some(inner), c);
        proof {
            assert(ordered(Some(root)));
            assert(count(Some(root)) == count(root.left) + count(root.right) + 1);
        }
        Some(root)
    } else {
        let m = b.unwrap();
        let ghost mt = Some(m);
        let Node { key: mk, value: mv, left: b1, right: b2, height: _, timestamp: mts } = *m;
        proof {
            assert(entries(mt) == joined(b1, mk@, mv, mts, b2));
            assert(count(mt) == count(b1) + count(b2) + 1);
            assert(entries(mt).contains_key(mk@));
            assert forall|x: Text| entries(b1).contains_key(x) implies text_lt(key@, x) && text_lt(x, rk@) by {
                assert(entries(mt).contains_key(x));
            }
            assert forall|x: Text| entries(b2).contains_key(x) implies text_lt(key@, x) && text_lt(x, rk@) by {
                assert(entries(mt).contains_key(x));
            }
            assert(ordered(mt) && balanced(mt));
            assert(balanced(b1) && balanced(b2) && ordered(b1) && ordered(b2));
            assert(all_below(b1, mk@) && all_above(b2, mk@));
            lemma_rotate_entries(entries(b1), mk@, (mv, mts), entries(b2), rk@, (rv, rts), entries(c));
            lemma_below_trans(left, key@, mk@);
            lemma_above_trans(c, mk@, rk@);
            assert(keys_above(joined(b2, rk@, rv, rts, c), mk@));
            lemma_rotate_entries(
                entries(left), key@, (value, timestamp), entries(b1), mk@, (mv, mts), joined(b2, rk@, rv, rts, c));
        }
        let l2 = make_node(key, value, timestamp, left, b1);
        let r2 = make_node(rk, rv, rts, b2, c);
        proof {
            assert(entries(Some(l2)) == joined(left, key@, value, timestamp, b1));
            assert(entries(Some(r2)) == joined(b2, rk@, rv, rts, c));
            assert(ordered(Some(l2)));
            assert(ordered(Some(r2)));
            assert(all_below(Some(l2), mk@));
            assert(all_above(Some(r2), mk@));
        }
        let root = make_node(mk, mv, mts, Some(l2), Some(r2));
        proof {
            assert(ordered(Some(root)));
            assert(count(Some(root)) == count(root.left) + count(root.right) + 1);
        }
        Some(root)
    }
}

/// A node built from its parts and brought back into balance, where the
/// heights of the parts differ by at most two.
pub fn balance<V>(key: String, value: V, timestamp: u64, left: Option<Box<Node<V>>>, right: Option<Box<Node<V>>>) -> (r: Option<Box<Node<V>>>)
    requires
        avl(left),
        avl(right),
        all_below(left, key@),
        all_above(right, key@),
        ht(left) <= ht(right) + 2,
        ht(right) <= ht(left) + 2,
        count(left) + count(right) + 1 <= usize::MAX,
    ensures
        r is Some,
        avl(r),
        entries(r) == joined(left, key@, value, timestamp, right),
        count(r) == count(left) + count(right) + 1,
        max_nat(ht(left), ht(right)) <= ht(r) <= max_nat(ht(left), ht(right)) + 1,
        ht(left) <= ht(right) + 1 && ht(right) <= ht(left) + 1 ==> ht(r) == max_nat(ht(left), ht(right)) + 1,
{
    let hl = height_of(&left);
    let hr = height_of(&right);
    if hl > hr && hl - hr > 1 {
        fix_left_heavy(key, value, timestamp, left, right)
    } else if hr > hl && hr - hl > 1 {
        fix_right_heavy(key, value, timestamp, left, right)
    } else {
        let root = make_node(key, value, timestamp, left, right);
        proof {
            assert(ordered(Some(root)));
            assert(count(Some(root)) == count(root.left) + count(root.right) + 1);
        }
        Some(root)
    }
}
/// The tree with `key` written: its value and write time replaced where it
/// is present, a new entry otherwise.
pub fn insert<V>(t: Option<Box<Node<V>>>, key: String, value: V, timestamp: u64) -> (r: Option<Box<Node<V>>>)
    requires
        avl(t),
        count(t) + 1 <= usize::MAX,
    ensures
        r is Some,
        avl(r),
        entries(r) == entries(t).insert(key@, (value, timestamp)),
        count(r) == count(t) + if entries(t).contains_key(key@) { 0nat } else { 1nat },
        ht(t) <= ht(r) <= ht(t) + 1,
    decreases t,
{
    match t {
        None => {
            let n = make_node(key, value, timestamp, None, None);
            proof {
                assert(entries(Some(n)) =~= entries(t).insert(key@, (value, timestamp)));
            }
            Some(n)
        },
        Some(n) => {
            let ghost old_t = Some(n);
            let Node { key: k, value: v, left: l, right: r, height: _, timestamp: ts } = *n;
            proof {
                assert(entries(old_t) == joined(l, k@, v, ts, r));
                assert(count(old_t) == count(l) + count(r) + 1);
            }
            match compare_text(&key, &k) {
                Ordering::Equal => {
                    let n2 = make_node(k, value, timestamp, l, r);
                    proof {
                        assert(entries(Some(n2)) =~= entries(old_t).insert(key@, (value, timestamp)));
                        assert(ordered(Some(n2)));
                    }
                    Some(n2)
                },
                Ordering::Less => {
                    proof {
                        lemma_above_excludes(r, k@, key@);
                    }
                    let nl = insert(l, key, value, timestamp);
                    proof {
                        assert(entries(nl).contains_key(key@));
                        assert(all_below(nl, k@));
                        assert(joined(nl, k@, v, ts, r) =~= entries(old_t).insert(key@, (value, timestamp)));
                    }
                    balance(k, v, ts, nl, r)
                },
                Ordering::Greater => {
                    proof {
                        lemma_below_excludes(l, k@, key@);
                    }
                    let nr = insert(r, key, value, timestamp);
                    proof {
                        assert(all_above(nr, k@));
                        assert(joined(l, k@, v, ts, nr) =~= entries(old_t).insert(key@, (value, timestamp)));
                    }
                    balance(k, v, ts, l, nr)
                },
            }
        },
    }
}

/// The least key of a map: present, and below every other key.
pub open spec fn is_min_key<V>(m: Map<Text, (V, u64)>, k: Text) -> bool {
    m.contains_key(k) && forall|x: Text| m.contains_key(x) && x != k ==> text_lt(k, x)
}

/// Takes the entry with the least key out of a non-empty tree.
pub fn remove_min<V>(n: Box<Node<V>>) -> (r: (Option<Box<Node<V>>>, String, V, u64))
    requires
        avl(Some(n)),
        count(Some(n)) <= usize::MAX,
    ensures
        avl(r.0),
        is_min_key(entries(Some(n)), r.1@),
        entries(Some(n))[r.1@] == (r.2, r.3),
        entries(r.0) == entries(Some(n)).remove(r.1@),
        all_above(r.0, r.1@),
        count(r.0) + 1 == count(Some(n)),
        ht(r.0) <= ht(Some(n)) <= ht(r.0) + 1,
    decreases n,
{
    let ghost old_t = Some(n);
    let Node { key: k, value: v, left: l, right: r, height: _, timestamp: ts } = *n;
    proof {
        assert(entries(old_t) == joined(l, k@, v, ts, r));
        assert(count(old_t) == count(l) + count(r) + 1);
    }
    match l {
        None => {
            proof {
                lemma_above_excludes(r, k@, k@);
                assert(entries(r) =~= entries(old_t).remove(k@));
            }
            (r, k, v, ts)
        },
        Some(lb) => {
            let ghost lt = Some(lb);
            let (nl, mk, mv, mts) = remove_min(lb);
            proof {
                assert(entries(lt).contains_key(mk@));
                assert(text_lt(mk@, k@));
                lemma_text_lt_irreflexive(k@);
                lemma_above_excludes(r, k@, mk@);
                lemma_above_trans(r, mk@, k@);
                assert forall|x: Text| entries(old_t).contains_key(x) && x != mk@ implies text_lt(mk@, x) by {
                    if entries(r).contains_key(x) {
                    } else if x == k@ {
                    } else {
                        assert(entries(lt).contains_key(x));
                    }
                }
                assert(all_below(nl, k@));
                assert(joined(nl, k@, v, ts, r) =~= entries(old_t).remove(mk@));
                lemma_entries_finite_count(lt);
            }
            let b = balance(k, v, ts, nl, r);
            proof {
                assert forall|x: Text| entries(b).contains_key(x) implies text_lt(mk@, x) by {
                    if entries(r).contains_key(x) {
                    } else if x == k@ {
                    } else {
                        assert(entries(nl).contains_key(x));
                    }
                }
            }
            (b, mk, mv, mts)
        },
    }
}

/// The tree without `key`, and the value and write time it held there.
pub fn remove<V>(t: Option<Box<Node<V>>>, key: &String) -> (r: (Option<Box<Node<V>>>, Option<(V, u64)>))
    requires
        avl(t),
        count(t) <= usize::MAX,
    ensures
        avl(r.0),
        entries(r.0) == entries(t).remove(key@),
        r.1 == (if entries(t).contains_key(key@) { Some(entries(t)[key@]) } else { None::<(V, u64)> }),
        count(r.0) + (if entries(t).contains_key(key@) { 1nat } else { 0nat }) == count(t),
        ht(r.0) <= ht(t) <= ht(r.0) + 1,
    decreases t,
{
    match t {
        None => {
            proof {
                assert(entries(t).remove(key@) =~= entries(t));
            }
            (None, None)
        },
        Some(n) => {
            let ghost old_t = Some(n);
            let Node { key: k, value: v, left: l, right: r, height: _, timestamp: ts } = *n;
            proof {
                assert(entries(old_t) == joined(l, k@, v, ts, r));
                assert(count(old_t) == count(l) + count(r) + 1);
            }
            match compare_text(key, &k) {
                Ordering::Equal => {
                    proof {
                        lemma_below_excludes(l, k@, k@);
                        lemma_above_excludes(r, k@, k@);
                    }
                    match l {
                        None => {
                            proof {
                                assert(entries(r) =~= entries(old_t).remove(key@));
                            }
                            (r, Some((v, ts)))
                        },
                        Some(lb) => {
                            match r {
                                None => {
                                    proof {
                                        assert(entries(Some(lb)) =~= entries(old_t).remove(key@));
                                    }
                                    (Some(lb), Some((v, ts)))
                                },
                                Some(rb) => {
                                    let ghost rt = Some(rb);
                                    let ghost ltr = Some(lb);
                                    let (nr, mk, mv, mts) = remove_min(rb);
                                    proof {
                                        assert(entries(rt).contains_key(mk@));
                                        lemma_below_trans(ltr, k@, mk@);
                                        lemma_below_excludes(ltr, k@, mk@);
                                        assert(joined(ltr, mk@, mv, mts, nr) =~= entries(old_t).remove(key@));
                                    }
                                    (balance(mk, mv, mts, Some(lb), nr), Some((v, ts)))
                                },
                            }
                        },
                    }
                },
                Ordering::Less => {
                    proof {
                        lemma_above_excludes(r, k@, key@);
                        lemma_text_lt_irreflexive(k@);
                    }
                    let (nl, res) = remove(l, key);
                    proof {
                        assert(all_below(nl, k@));
                        assert(joined(nl, k@, v, ts, r) =~= entries(old_t).remove(key@));
                    }
                    (balance(k, v, ts, nl, r), res)
                },
                Ordering::Greater => {
                    proof {
                        lemma_below_excludes(l, k@, key@);
                        lemma_text_lt_irreflexive(k@);
                    }
                    let (nr, res) = remove(r, key);
                    proof {
                        assert(all_above(nr, k@));
                        assert(joined(l, k@, v, ts, nr) =~= entries(old_t).remove(key@));
                    }
                    (balance(k, v, ts, l, nr), res)
                },
            }
        },
    }
}

/// The node holding `key`, if any.
pub fn find<'a, V>(t: &'a Option<Box<Node<V>>>, key: &String) -> (r: Option<&'a Node<V>>)
    requires
        ordered(*t),
    ensures
        match r {
            Some(n) => entries(*t).contains_key(key@) && entries(*t)[key@] == (n.value, n.timestamp) && n.key@ == key@,
            None => !entries(*t).contains_key(key@),
        },
    decreases *t,
{
    match t {
        None => None,
        Some(n) => {
            proof {
                assert(entries(*t) == joined(n.left, n.key@, n.value, n.timestamp, n.right));
            }
            match compare_text(key, &n.key) {
                Ordering::Equal => Some(&**n),
                Ordering::Less => {
                    proof {
                        lemma_above_excludes(n.right, n.key@, key@);
                        lemma_text_lt_irreflexive(n.key@);
                    }
                    find(&n.left, key)
                },
                Ordering::Greater => {
                    proof {
                        lemma_below_excludes(n.left, n.key@, key@);
                        lemma_text_lt_irreflexive(n.key@);
                    }
                    find(&n.right, key)
                },
            }
        },
    }
}

/// The node with the least key of a non-empty tree.
pub fn leftmost<V>(n: &Box<Node<V>>) -> (r: &Node<V>)
    requires
        ordered(Some(*n)),
    ensures
        is_min_key(entries(Some(*n)), r.key@),
        entries(Some(*n))[r.key@] == (r.value, r.timestamp),
    decreases *n,
{
    proof {
        assert(entries(Some(*n)) == joined(n.left, n.key@, n.value, n.timestamp, n.right));
    }
    match &n.left {
        None => {
            proof {
                lemma_above_excludes(n.right, n.key@, n.key@);
            }
            &**n
        },
        Some(l) => {
            let m = leftmost(l);
            proof {
                assert(entries(Some(*l)).contains_key(m.key@));
                lemma_above_trans(n.right, m.key@, n.key@);
                lemma_above_excludes(n.right, n.key@, m.key@);
                lemma_text_lt_irreflexive(n.key@);
                assert forall|x: Text| entries(Some(*n)).contains_key(x) && x != m.key@ implies text_lt(m.key@, x) by {
                    if entries(n.right).contains_key(x) {
                    } else if x == n.key@ {
                    } else {
                        assert(entries(Some(*l)).contains_key(x));
                    }
                }
            }
            m
        },
    }
}

} // verus!
