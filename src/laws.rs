use vstd::prelude::*;
use crate::keys::normalize;
use crate::model::{Text, StoreModel, lookup, apply_overlay};
use crate::num::{decimal, counter_value, lemma_decimal_round_trip};
use crate::commands::{CommandModel, step, run, nil_text};

verus! {

/// A command that reads or writes data, as opposed to one that opens or
/// closes a transaction.
pub open spec fn is_data_command(c: CommandModel) -> bool {
    !(c is Multi || c is Exec || c is Discard)
}

/// A value stored under a key reads back under any key that normalises to
/// the same stored key.
pub proof fn law_set_then_get(m: StoreModel, k1: Text, k2: Text, v: Text)
    requires
        normalize(k1) == normalize(k2),
    ensures
        step(step(m, CommandModel::SetValue(k1, v)).0, CommandModel::Get(k2)).1 == v,
{
    m.lemma_write_string_reads(normalize(k1), Some(v), normalize(k1));
}

/// Once a key is deleted it reads as absent.
pub proof fn law_del_then_get(m: StoreModel, k1: Text, k2: Text)
    requires
        normalize(k1) == normalize(k2),
    ensures
        step(step(m, CommandModel::Del(k1)).0, CommandModel::Get(k2)).1 == nil_text(),
{
    m.lemma_delete_reads(normalize(k1), normalize(k1));
}

/// Deleting a key just set under any spelling of it reports success.
pub proof fn law_set_then_del(m: StoreModel, k1: Text, k2: Text, v: Text)
    requires
        normalize(k1) == normalize(k2),
    ensures
        step(step(m, CommandModel::SetValue(k1, v)).0, CommandModel::Del(k2)).1 == "1"@,
{
}

/// `n` increments of a counter.
pub open spec fn increments(k: Text, n: nat) -> Seq<CommandModel> {
    Seq::new(n, |i: int| CommandModel::Incr(k))
}

/// Incrementing an absent counter `n` times reads `n`, and the last reply
/// is `n`.
pub proof fn law_incr_counts(m: StoreModel, k: Text, n: nat)
    requires
        m.string_at(normalize(k)) is None,
        n <= i64::MAX,
    ensures
        run(m, increments(k, n)).0.string_at(normalize(k)) == (if n == 0 { None } else { Some(decimal(n as int)) }),
        n > 0 ==> run(m, increments(k, n)).1.last() == decimal(n as int),
    decreases n,
{
    if n > 0 {
        law_incr_counts(m, k, (n - 1) as nat);
        assert(increments(k, n).drop_last() =~= increments(k, (n - 1) as nat));
        let m1 = run(m, increments(k, (n - 1) as nat)).0;
        if n > 1 {
            lemma_decimal_round_trip(n - 1);
        }
        assert(counter_value(m1.string_at(normalize(k))) == n - 1);
        m1.lemma_write_string_reads(normalize(k), Some(decimal(n as int)), normalize(k));
    }
}

/// A data command run inside a transaction changes only the innermost
/// layer.
proof fn lemma_data_step_keeps_below(m: StoreModel, c: CommandModel)
    requires
        m.in_transaction(),
        is_data_command(c),
    ensures
        step(m, c).0.strings == m.strings,
        step(m, c).0.lists == m.lists,
        step(m, c).0.layers.len() == m.layers.len(),
        step(m, c).0.layers.drop_last() == m.layers.drop_last(),
{
    let m2 = step(m, c).0;
    assert(m2.layers.drop_last() =~= m.layers.drop_last());
}

proof fn lemma_data_run_keeps_below(m: StoreModel, cs: Seq<CommandModel>)
    requires
        m.in_transaction(),
        forall|i: int| 0 <= i < cs.len() ==> is_data_command(#[trigger] cs[i]),
    ensures
        run(m, cs).0.strings == m.strings,
        run(m, cs).0.lists == m.lists,
        run(m, cs).0.layers.len() == m.layers.len(),
        run(m, cs).0.layers.drop_last() == m.layers.drop_last(),
    decreases cs.len(),
{
    if cs.len() > 0 {
        let init = cs.drop_last();
        assert forall|i: int| 0 <= i < init.len() implies is_data_command(#[trigger] init[i]) by {
            assert(init[i] == cs[i]);
        }
        lemma_data_run_keeps_below(m, init);
        let m1 = run(m, init).0;
        assert(is_data_command(cs[cs.len() - 1]));
        lemma_data_step_keeps_below(m1, cs.last());
    }
}

/// Opening a transaction, running data commands in it and discarding it
/// leaves the engine as it was.
pub proof fn law_discard_restores(m: StoreModel, cs: Seq<CommandModel>)
    requires
        forall|i: int| 0 <= i < cs.len() ==> is_data_command(#[trigger] cs[i]),
    ensures
        step(run(step(m, CommandModel::Multi).0, cs).0, CommandModel::Discard).0 == m,
{
    let m1 = step(m, CommandModel::Multi).0;
    lemma_data_run_keeps_below(m1, cs);
    let m2 = run(m1, cs).0;
    assert(m1.layers.drop_last() =~= m.layers);
    assert(step(m2, CommandModel::Discard).0.layers =~= m.layers);
}

proof fn lemma_lookup_merge<S>(base: Map<Text, S>, ovs: Seq<Map<Text, Option<S>>>, k: Text)
    requires
        ovs.len() >= 2,
    ensures
        lookup(base, ovs.drop_last().drop_last().push(ovs[ovs.len() - 2].union_prefer_right(ovs.last())), k)
            == lookup(base, ovs, k),
{
    let merged = ovs.drop_last().drop_last().push(ovs[ovs.len() - 2].union_prefer_right(ovs.last()));
    assert(merged.drop_last() =~= ovs.drop_last().drop_last());
    assert(ovs.drop_last().last() == ovs[ovs.len() - 2]);
    if !ovs.last().contains_key(k) {
        assert(lookup(base, ovs, k) == lookup(base, ovs.drop_last(), k));
    }
}

proof fn lemma_lookup_apply<S>(base: Map<Text, S>, t: Map<Text, Option<S>>, k: Text)
    ensures
        lookup(apply_overlay(base, t), Seq::empty(), k) == lookup(base, seq![t], k),
{
    assert(seq![t].drop_last() =~= Seq::<Map<Text, Option<S>>>::empty());
    assert(seq![t].last() == t);
    let a = apply_overlay(base, t);
    if t.contains_key(k) {
        match t[k] {
            Some(x) => {
                assert(a.contains_key(k) && a[k] == x);
            },
            None => {
                assert(!a.contains_key(k));
            },
        }
    } else {
        assert(a.contains_key(k) == base.contains_key(k));
        assert(lookup(base, seq![t], k) == lookup(base, Seq::<Map<Text, Option<S>>>::empty(), k));
    }
}

/// How many transactions a batch leaves open: each `MULTI` opens one, each
/// `EXEC` or `DISCARD` closes one.
pub open spec fn opened(cs: Seq<CommandModel>) -> int
    decreases cs.len(),
{
    if cs.len() == 0 {
        0
    } else {
        opened(cs.drop_last()) + match cs.last() {
            CommandModel::Multi => 1int,
            CommandModel::Exec => -1int,
            CommandModel::Discard => -1int,
            _ => 0int,
        }
    }
}

/// No prefix of the batch closes more transactions than it opened.
pub open spec fn stays_inside(cs: Seq<CommandModel>) -> bool {
    forall|k: int| 0 <= k <= cs.len() ==> opened(#[trigger] cs.subrange(0, k)) >= 0
}

proof fn lemma_inside_run_keeps_below(m: StoreModel, cs: Seq<CommandModel>)
    requires
        m.in_transaction(),
        stays_inside(cs),
    ensures
        run(m, cs).0.strings == m.strings,
        run(m, cs).0.lists == m.lists,
        run(m, cs).0.layers.len() == m.layers.len() + opened(cs),
        run(m, cs).0.layers.subrange(0, m.layers.len() - 1) == m.layers.subrange(0, m.layers.len() - 1),
    decreases cs.len(),
{
    let l = m.layers.len() - 1;
    if cs.len() == 0 {
        assert(cs.subrange(0, 0) =~= cs);
    } else {
        let p = cs.drop_last();
        assert forall|k: int| 0 <= k <= p.len() implies opened(#[trigger] p.subrange(0, k)) >= 0 by {
            assert(p.subrange(0, k) =~= cs.subrange(0, k));
        }
        lemma_inside_run_keeps_below(m, p);
        assert(cs.subrange(0, cs.len() as int) =~= cs);
        assert(opened(cs) >= 0);
        let m1 = run(m, p).0;
        let c = cs.last();
        let m2 = step(m1, c).0;
        assert(m1.layers.len() >= m.layers.len());
        if is_data_command(c) {
            lemma_data_step_keeps_below(m1, c);
            assert(m2.layers.subrange(0, l) =~= m2.layers.drop_last().subrange(0, l));
            assert(m1.layers.subrange(0, l) =~= m1.layers.drop_last().subrange(0, l));
        } else if c is Multi {
            assert(m2.layers.subrange(0, l) =~= m1.layers.subrange(0, l));
        } else if c is Exec {
            assert(m1.layers.len() >= 2);
            assert(m2.layers.subrange(0, l) =~= m1.layers.subrange(0, l));
        } else {
            assert(m2.layers.subrange(0, l) =~= m1.layers.subrange(0, l));
        }
    }
}

/// Opening a transaction, running in it any commands whose own
/// transactions all close again, and discarding it leaves the engine as it
/// was.
pub proof fn law_discard_restores_nested(m: StoreModel, cs: Seq<CommandModel>)
    requires
        stays_inside(cs),
        opened(cs) == 0,
    ensures
        step(run(step(m, CommandModel::Multi).0, cs).0, CommandModel::Discard).0 == m,
{
    let m1 = step(m, CommandModel::Multi).0;
    lemma_inside_run_keeps_below(m1, cs);
    let m2 = run(m1, cs).0;
    assert(m1.layers.subrange(0, m1.layers.len() - 1) =~= m.layers);
    assert(m2.layers.drop_last() =~= m2.layers.subrange(0, m2.layers.len() - 1));
    assert(step(m2, CommandModel::Discard).0.layers =~= m.layers);
}

/// Committing the innermost transaction changes what no key reads as:
/// every change made in it stays visible.
pub proof fn law_commit_keeps_reads(m: StoreModel, k: Text)
    requires
        m.in_transaction(),
    ensures
        m.commit().string_at(k) == m.string_at(k),
        m.commit().list_at(k) == m.list_at(k),
{
    let c = m.commit();
    let top = m.top();
    if m.layers.len() == 1 {
        assert(m.string_overlays() =~= seq![top.strings]);
        assert(m.list_overlays() =~= seq![top.lists]);
        assert(c.string_overlays() =~= Seq::<Map<Text, Option<Text>>>::empty());
        assert(c.list_overlays() =~= Seq::<Map<Text, Option<Seq<Text>>>>::empty());
        lemma_lookup_apply(m.strings, top.strings, k);
        lemma_lookup_apply(m.lists, top.lists, k);
    } else {
        let so = m.string_overlays();
        let lo = m.list_overlays();
        assert(c.string_overlays() =~= so.drop_last().drop_last().push(so[so.len() - 2].union_prefer_right(so.last())));
        assert(c.list_overlays() =~= lo.drop_last().drop_last().push(lo[lo.len() - 2].union_prefer_right(lo.last())));
        lemma_lookup_merge(m.strings, so, k);
        lemma_lookup_merge(m.lists, lo, k);
    }
}

/// An inner commit leaves in the layer below exactly its prior entries
/// together with the inner layer's, the inner ones taking precedence.
pub proof fn law_nested_commit_merges(m: StoreModel)
    requires
        m.layers.len() > 1,
    ensures
        m.commit().layers.len() == m.layers.len() - 1,
        m.commit().top().strings == m.layers[m.layers.len() - 2].strings.union_prefer_right(m.top().strings),
        m.commit().top().lists == m.layers[m.layers.len() - 2].lists.union_prefer_right(m.top().lists),
        m.commit().strings == m.strings,
        m.commit().lists == m.lists,
{
}

/// An outermost commit folds the transaction's writes and tombstones into
/// the base tables.
pub proof fn law_outer_commit_applies(m: StoreModel)
    requires
        m.layers.len() == 1,
    ensures
        !m.commit().in_transaction(),
        m.commit().strings == apply_overlay(m.strings, m.top().strings),
        m.commit().lists == apply_overlay(m.lists, m.top().lists),
{
}

} // verus!
