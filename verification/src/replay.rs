//! Why committing the recorder into the cache keeps the cache's entries in
//! step with the history: a cache keyed by the history indices of the last
//! commit ends up keyed by the indices of the pending history, each kept
//! entry under its new index and each inserted one under its own.
use vstd::prelude::*;

use crate::cache::{
    applied, change_map, entries_rekeyed, entries_with, entries_without, increasing, insert_list, leaf_for,
    new_key, rekey_fold, removal_ids, sorted_keys, tree_with, tree_without, CacheModel, EntryModel,
};
use crate::counts::{
    indexed_leaves, leaf_count, leaf_total, lemma_indexed_unique, lemma_inserted_counts, lemma_node_id_injective,
    lemma_removed_counts, lemma_renamed_absent, lemma_wtotal_any_flag, lemma_renamed_present, lemma_selected_ids_indexed, renamed_id,
    renames_apart, unique_leaves,
};
use crate::tree::{node_id_of, renamed, renamed_from, selected_ids, NodeModel};
use crate::recorder::{
    commit_mutations, has_mirror, recorder_wf, removals, slot_mutation, slot_mutations,
    MutationModel, RecorderModel, SlotModel,
};

verus! {

/// What the cache holds at `k` once the pending history `slots` is
/// committed: the entry that slot `k` kept, or the one inserted there.
pub open spec fn replayed_entry(es: Map<i64, EntryModel>, slots: Seq<SlotModel>, k: i64) -> EntryModel {
    match slots[k as int] {
        SlotModel::Mirror(o) => es[o as i64],
        SlotModel::Inserted(labels, payload) => EntryModel { id: k, labels, payload },
    }
}

/// The entries of a cache keyed by the committed history indices, once the
/// pending history `slots` is committed: one for each slot.
pub open spec fn replayed(es: Map<i64, EntryModel>, slots: Seq<SlotModel>) -> Map<i64, EntryModel> {
    Map::new(|k: i64| 0 <= k < slots.len(), |k: i64| replayed_entry(es, slots, k))
}

/// Whether the keys of `es` are exactly the indices `0..n`.
pub open spec fn keyed_by_index(es: Map<i64, EntryModel>, n: nat) -> bool {
    forall|k: i64| #[trigger] es.dom().contains(k) <==> 0 <= k < n
}

// ---------------------------------------------------------------------------
// The three views of a batch, over concatenation
// ---------------------------------------------------------------------------

proof fn lemma_removal_ids_concat(a: Seq<MutationModel>, b: Seq<MutationModel>)
    ensures
        removal_ids(a + b) == removal_ids(a) + removal_ids(b),
    decreases b.len(),
{
    if b.len() == 0 {
        assert(a + b =~= a);
        assert(removal_ids(a) + removal_ids(b) =~= removal_ids(a));
    } else {
        let b1 = b.drop_last();
        assert((a + b).drop_last() =~= a + b1);
        assert((a + b).last() == b.last());
        lemma_removal_ids_concat(a, b1);
        assert(removal_ids(a + b) =~= removal_ids(a) + removal_ids(b));
    }
}

proof fn lemma_insert_list_concat(a: Seq<MutationModel>, b: Seq<MutationModel>)
    ensures
        insert_list(a + b) == insert_list(a) + insert_list(b),
    decreases b.len(),
{
    if b.len() == 0 {
        assert(a + b =~= a);
        assert(insert_list(a) + insert_list(b) =~= insert_list(a));
    } else {
        let b1 = b.drop_last();
        assert((a + b).drop_last() =~= a + b1);
        assert((a + b).last() == b.last());
        lemma_insert_list_concat(a, b1);
        assert(insert_list(a + b) =~= insert_list(a) + insert_list(b));
    }
}

proof fn lemma_change_map_concat(a: Seq<MutationModel>, b: Seq<MutationModel>)
    ensures
        change_map(a + b) == change_map(a).union_prefer_right(change_map(b)),
    decreases b.len(),
{
    if b.len() == 0 {
        assert(a + b =~= a);
        assert(change_map(a).union_prefer_right(change_map(b)) =~= change_map(a));
    } else {
        let b1 = b.drop_last();
        assert((a + b).drop_last() =~= a + b1);
        assert((a + b).last() == b.last());
        lemma_change_map_concat(a, b1);
        match b.last() {
            MutationModel::IndexChange(o, n) => {
                assert(change_map(a + b) =~= change_map(a).union_prefer_right(change_map(b)));
            },
            _ => {},
        }
    }
}

proof fn lemma_change_map_finite(ms: Seq<MutationModel>)
    ensures
        change_map(ms).dom().finite(),
    decreases ms.len(),
{
    if ms.len() > 0 {
        lemma_change_map_finite(ms.drop_last());
    }
}

/// A batch with no removes removes nothing.
proof fn lemma_no_removes(ms: Seq<MutationModel>)
    requires
        forall|j: int| 0 <= j < ms.len() ==> !(#[trigger] ms[j] is Remove),
    ensures
        removal_ids(ms) == Seq::<i64>::empty(),
    decreases ms.len(),
{
    if ms.len() > 0 {
        let m1 = ms.drop_last();
        assert forall|j: int| 0 <= j < m1.len() implies !(#[trigger] m1[j] is Remove) by {
            assert(m1[j] == ms[j]);
        }
        lemma_no_removes(m1);
        assert(!(ms[ms.len() - 1] is Remove));
    }
}

/// A batch of removes only moves and inserts nothing.
proof fn lemma_only_removes(ms: Seq<MutationModel>)
    requires
        forall|j: int| 0 <= j < ms.len() ==> #[trigger] ms[j] is Remove,
    ensures
        change_map(ms) == Map::<i64, i64>::empty(),
        insert_list(ms) == Seq::<EntryModel>::empty(),
    decreases ms.len(),
{
    if ms.len() > 0 {
        let m1 = ms.drop_last();
        assert forall|j: int| 0 <= j < m1.len() implies #[trigger] m1[j] is Remove by {
            assert(m1[j] == ms[j]);
        }
        lemma_only_removes(m1);
        assert(ms[ms.len() - 1] is Remove);
        assert(insert_list(ms) =~= insert_list(m1));
    }
}

proof fn lemma_slot_mutations_no_removes(s: Seq<SlotModel>, n: nat)
    requires
        n <= s.len(),
    ensures
        forall|j: int| 0 <= j < slot_mutations(s, n).len() ==> !(#[trigger] slot_mutations(s, n)[j] is Remove),
    decreases n,
{
    if n > 0 {
        let p = slot_mutations(s, (n - 1) as nat);
        let x = slot_mutation(s, n - 1);
        lemma_slot_mutations_no_removes(s, (n - 1) as nat);
        assert forall|j: int| 0 <= j < slot_mutations(s, n).len() implies !(#[trigger] slot_mutations(s, n)[j] is Remove) by {
            if j < p.len() {
                assert(slot_mutations(s, n)[j] == p[j]);
            } else {
                assert(slot_mutations(s, n)[j] == x[j - p.len()]);
            }
        }
    }
}

proof fn lemma_removals_only_removes(s: Seq<SlotModel>, n: nat)
    ensures
        forall|j: int| 0 <= j < removals(s, n).len() ==> #[trigger] removals(s, n)[j] is Remove,
    decreases n,
{
    if n > 0 {
        let p = removals(s, (n - 1) as nat);
        lemma_removals_only_removes(s, (n - 1) as nat);
        assert forall|j: int| 0 <= j < removals(s, n).len() implies #[trigger] removals(s, n)[j] is Remove by {
            if j < p.len() {
                assert(removals(s, n)[j] == p[j]);
            }
        }
    }
}

// ---------------------------------------------------------------------------
// The removes
// ---------------------------------------------------------------------------

/// Removing what `removals(s, n)` names keeps, of the keys below `n`, those
/// that some slot mirrors.
proof fn lemma_entries_without_removals(es: Map<i64, EntryModel>, s: Seq<SlotModel>, n: nat)
    requires
        n <= i64::MAX,
    ensures
        forall|k: i64| #[trigger]
            entries_without(es, removal_ids(removals(s, n))).dom().contains(k) <==> es.dom().contains(k)
                && !(0 <= k < n && !has_mirror(s, k as nat)),
        forall|k: i64| #[trigger]
            entries_without(es, removal_ids(removals(s, n))).dom().contains(k) ==> entries_without(
                es,
                removal_ids(removals(s, n)),
            )[k] == es[k],
    decreases n,
{
    if n > 0 {
        let m = (n - 1) as nat;
        lemma_entries_without_removals(es, s, m);
        let p = removals(s, m);
        let x: Seq<MutationModel> = if has_mirror(s, m) {
            Seq::empty()
        } else {
            seq![MutationModel::Remove(m)]
        };
        assert(removals(s, n) == p + x);
        lemma_removal_ids_concat(p, x);
        let rp = removal_ids(p);
        reveal_with_fuel(removal_ids, 2);
        if has_mirror(s, m) {
            assert(removal_ids(x) =~= Seq::<i64>::empty());
            assert(removal_ids(removals(s, n)) =~= rp);
        } else {
            assert(x.drop_last() =~= Seq::<MutationModel>::empty());
            assert(removal_ids(x) =~= seq![m as i64]);
            let ids = removal_ids(removals(s, n));
            assert(ids =~= rp.push(m as i64));
            assert(ids.drop_last() =~= rp);
            assert(entries_without(es, ids) == entries_without(es, rp).remove(m as i64));
        }
    }
}

// ---------------------------------------------------------------------------
// The index changes
// ---------------------------------------------------------------------------

/// Whether slot `i` keeps the committed entry `k` and moves it.
spec fn moves(s: Seq<SlotModel>, i: int, k: i64) -> bool {
    match s[i] {
        SlotModel::Mirror(o) => o as i64 == k && o != i,
        _ => false,
    }
}

/// Where slot `i` mirrors `o` and `o` is not `i`, the index changes of the
/// first `n` slots move `o` to `i`; and they move nothing else.
proof fn lemma_change_map_of_slots(r: RecorderModel, n: nat)
    requires
        recorder_wf(r),
        n <= r.slots.len(),
        r.history_len <= i64::MAX,
        r.slots.len() <= i64::MAX,
    ensures
        forall|i: int| #![trigger r.slots[i]]
            0 <= i < n ==> match r.slots[i] {
                SlotModel::Mirror(o) => o != i ==> change_map(slot_mutations(r.slots, n)).dom().contains(
                    o as i64,
                ) && change_map(slot_mutations(r.slots, n))[o as i64] == i as i64,
                _ => true,
            },
        forall|k: i64| #[trigger]
            change_map(slot_mutations(r.slots, n)).dom().contains(k) ==> exists|i: int|
                0 <= i < n && #[trigger] moves(r.slots, i, k),
    decreases n,
{
    let s = r.slots;
    if n > 0 {
        let m = (n - 1) as nat;
        lemma_change_map_of_slots(r, m);
        let p = slot_mutations(s, m);
        let x = slot_mutation(s, m as int);
        lemma_change_map_concat(p, x);
        let cp = change_map(p);
        let cn = change_map(slot_mutations(s, n));
        reveal_with_fuel(change_map, 2);
        match s[m as int] {
            SlotModel::Mirror(om) => {
                if om != m {
                    assert(x.drop_last() =~= Seq::<MutationModel>::empty());
                    assert(change_map(x) =~= Map::<i64, i64>::empty().insert(om as i64, m as i64));
                    assert forall|i: int| #![trigger s[i]]
                        0 <= i < n implies match s[i] {
                            SlotModel::Mirror(o) => o != i ==> cn.dom().contains(o as i64) && cn[o as i64]
                                == i as i64,
                            _ => true,
                        } by {
                        if i < m {
                            match s[i] {
                                SlotModel::Mirror(o) => {
                                    assert(s[i] != s[m as int]);
                                },
                                _ => {},
                            }
                        }
                    }
                    assert forall|k: i64| #[trigger] cn.dom().contains(k) implies exists|i: int|
                        0 <= i < n && #[trigger] moves(s, i, k) by {
                        if k == om as i64 {
                            assert(moves(s, m as int, k));
                        } else {
                            assert(cp.dom().contains(k));
                        }
                    }
                } else {
                    assert(change_map(x) =~= Map::<i64, i64>::empty());
                    assert(cn =~= cp);
                }
            },
            SlotModel::Inserted(..) => {
                assert(x.drop_last() =~= Seq::<MutationModel>::empty());
                assert(change_map(x) =~= Map::<i64, i64>::empty());
                assert(cn =~= cp);
            },
        }
    }
}

/// A committed entry that slot `i` keeps gets the key `i`.
proof fn lemma_new_key_of_slot(r: RecorderModel, i: int)
    requires
        recorder_wf(r),
        r.history_len <= i64::MAX,
        r.slots.len() <= i64::MAX,
        0 <= i < r.slots.len(),
        r.slots[i] is Mirror,
    ensures
        new_key(change_map(slot_mutations(r.slots, r.slots.len())), (r.slots[i]->Mirror_0) as i64) == i as i64,
{
    let s = r.slots;
    lemma_change_map_of_slots(r, s.len());
    let ch = change_map(slot_mutations(s, s.len()));
    let o = s[i]->Mirror_0;
    assert(o < r.history_len);
    if o == i {
        if ch.dom().contains(o as i64) {
            let j = choose|j: int| 0 <= j < s.len() && #[trigger] moves(s, j, o as i64);
            assert(s[j] != s[i]);
            assert(s[j]->Mirror_0 < r.history_len);
        }
    } else {
        assert(match s[i] {
            SlotModel::Mirror(o) => o != i ==> ch.dom().contains(o as i64) && ch[o as i64] == i as i64,
            _ => true,
        });
    }
}

// ---------------------------------------------------------------------------
// Rekeying
// ---------------------------------------------------------------------------

/// Rekeying along keys whose new keys are all distinct stores each entry
/// under its new key, and nothing else.
proof fn lemma_rekey_fold(es: Map<i64, EntryModel>, ks: Seq<i64>, ch: Map<i64, i64>)
    requires
        forall|a: int, b: int|
            0 <= a < b < ks.len() ==> new_key(ch, #[trigger] ks[a]) != new_key(ch, #[trigger] ks[b]),
    ensures
        forall|j: int| #![trigger ks[j]]
            0 <= j < ks.len() ==> rekey_fold(es, ks, ch).dom().contains(new_key(ch, ks[j]))
                && rekey_fold(es, ks, ch)[new_key(ch, ks[j])] == es[ks[j]],
        forall|k: i64| #[trigger]
            rekey_fold(es, ks, ch).dom().contains(k) ==> exists|j: int|
                0 <= j < ks.len() && new_key(ch, #[trigger] ks[j]) == k,
    decreases ks.len(),
{
    if ks.len() > 0 {
        let k1 = ks.drop_last();
        assert forall|a: int, b: int|
            0 <= a < b < k1.len() implies new_key(ch, #[trigger] k1[a]) != new_key(ch, #[trigger] k1[b]) by {
            assert(k1[a] == ks[a] && k1[b] == ks[b]);
        }
        lemma_rekey_fold(es, k1, ch);
        let last = ks.len() - 1;
        assert forall|j: int| #![trigger ks[j]]
            0 <= j < ks.len() implies rekey_fold(es, ks, ch).dom().contains(new_key(ch, ks[j]))
                && rekey_fold(es, ks, ch)[new_key(ch, ks[j])] == es[ks[j]] by {
            if j < last {
                assert(k1[j] == ks[j]);
                assert(new_key(ch, ks[j]) != new_key(ch, ks[last]));
            }
        }
        assert forall|k: i64| #[trigger] rekey_fold(es, ks, ch).dom().contains(k) implies exists|j: int|
            0 <= j < ks.len() && new_key(ch, #[trigger] ks[j]) == k by {
            if k != new_key(ch, ks[last]) {
                assert(rekey_fold(es, k1, ch).dom().contains(k));
                let j = choose|j: int| 0 <= j < k1.len() && new_key(ch, #[trigger] k1[j]) == k;
                assert(k1[j] == ks[j]);
            } else {
                assert(new_key(ch, ks[last]) == k);
            }
        }
    }
}

/// The committed indices below `n` that some slot keeps, in increasing order.
spec fn kept(s: Seq<SlotModel>, n: nat) -> Seq<i64>
    decreases n,
{
    if n == 0 {
        Seq::empty()
    } else {
        kept(s, (n - 1) as nat) + if has_mirror(s, (n - 1) as nat) {
            seq![(n - 1) as i64]
        } else {
            Seq::empty()
        }
    }
}

proof fn lemma_kept(s: Seq<SlotModel>, n: nat)
    requires
        n <= i64::MAX,
    ensures
        increasing(kept(s, n)),
        forall|j: int| 0 <= j < kept(s, n).len() ==> 0 <= #[trigger] kept(s, n)[j] < n,
        kept(s, n).to_set() == Set::new(|k: i64| 0 <= k < n && has_mirror(s, k as nat)),
    decreases n,
{
    if n == 0 {
        assert(kept(s, n).to_set() =~= Set::new(|k: i64| 0 <= k < n && has_mirror(s, k as nat)));
    } else {
        let m = (n - 1) as nat;
        lemma_kept(s, m);
        let p = kept(s, m);
        if has_mirror(s, m) {
            Seq::<i64>::lemma_to_set_insert_commutes(p, m as i64);
            assert(kept(s, n) == p + seq![m as i64]);
            assert(kept(s, n).to_set() =~= Set::new(|k: i64| 0 <= k < n && has_mirror(s, k as nat)));
            assert forall|a: int, b: int| 0 <= a < b < kept(s, n).len() implies kept(s, n)[a] < kept(s, n)[b] by {
                if b < p.len() {
                    assert(kept(s, n)[a] == p[a] && kept(s, n)[b] == p[b]);
                } else {
                    assert(kept(s, n)[a] == p[a]);
                }
            }
            assert forall|j: int| 0 <= j < kept(s, n).len() implies 0 <= #[trigger] kept(s, n)[j] < n by {
                if j < p.len() {
                    assert(kept(s, n)[j] == p[j]);
                }
            }
        } else {
            assert(kept(s, n) =~= p);
            assert(kept(s, n).to_set() =~= Set::new(|k: i64| 0 <= k < n && has_mirror(s, k as nat)));
        }
    }
}

// ---------------------------------------------------------------------------
// The inserts
// ---------------------------------------------------------------------------

proof fn lemma_entries_with_concat(es: Map<i64, EntryModel>, a: Seq<EntryModel>, b: Seq<EntryModel>)
    ensures
        entries_with(es, a + b) == entries_with(entries_with(es, a), b),
    decreases b.len(),
{
    if b.len() == 0 {
        assert(a + b =~= a);
    } else {
        let b1 = b.drop_last();
        assert((a + b).drop_last() =~= a + b1);
        assert((a + b).last() == b.last());
        lemma_entries_with_concat(es, a, b1);
    }
}

/// Storing the inserts of the first `n` slots adds each inserted slot's
/// entry under its index.
proof fn lemma_entries_with_slots(es: Map<i64, EntryModel>, s: Seq<SlotModel>, n: nat)
    requires
        n <= s.len(),
        s.len() <= i64::MAX,
    ensures
        forall|k: i64| #[trigger]
            entries_with(es, insert_list(slot_mutations(s, n))).dom().contains(k) <==> es.dom().contains(k)
                || (0 <= k < n && s[k as int] is Inserted),
        forall|k: i64| #[trigger]
            entries_with(es, insert_list(slot_mutations(s, n))).dom().contains(k) ==> entries_with(
                es,
                insert_list(slot_mutations(s, n)),
            )[k] == if 0 <= k < n && s[k as int] is Inserted {
                replayed_entry(es, s, k)
            } else {
                es[k]
            },
    decreases n,
{
    if n > 0 {
        let m = (n - 1) as nat;
        lemma_entries_with_slots(es, s, m);
        let p = slot_mutations(s, m);
        let x = slot_mutation(s, m as int);
        lemma_insert_list_concat(p, x);
        lemma_entries_with_concat(es, insert_list(p), insert_list(x));
        let e1 = entries_with(es, insert_list(p));
        let en = entries_with(es, insert_list(slot_mutations(s, n)));
        reveal_with_fuel(insert_list, 2);
        reveal_with_fuel(entries_with, 2);
        match s[m as int] {
            SlotModel::Inserted(labels, payload) => {
                assert(x.drop_last() =~= Seq::<MutationModel>::empty());
                let e = EntryModel { id: m as i64, labels, payload };
                assert(insert_list(x) =~= seq![e]);
                assert(seq![e].drop_last() =~= Seq::<EntryModel>::empty());
                assert(en == e1.insert(m as i64, e));
            },
            SlotModel::Mirror(o) => {
                if o != m {
                    assert(x.drop_last() =~= Seq::<MutationModel>::empty());
                }
                assert(insert_list(x) =~= Seq::<EntryModel>::empty());
                assert(en == e1);
            },
        }
    }
}

// ---------------------------------------------------------------------------
// The law
// ---------------------------------------------------------------------------

/// The entries after the removes and the index changes of a commit.
spec fn moved_entries(c: CacheModel, r: RecorderModel) -> Map<i64, EntryModel> {
    let es1 = entries_without(c.entries, removal_ids(removals(r.slots, r.history_len)));
    let ch = change_map(slot_mutations(r.slots, r.slots.len()));
    if ch.dom().len() > 0 {
        entries_rekeyed(es1, ch)
    } else {
        es1
    }
}

/// After the removes and the index changes, the cache holds, at each slot
/// that keeps a committed entry, that entry, and nothing else.
proof fn lemma_moved_entries(c: CacheModel, r: RecorderModel)
    requires
        recorder_wf(r),
        keyed_by_index(c.entries, r.history_len),
        r.history_len <= i64::MAX,
        r.slots.len() <= i64::MAX,
    ensures
        forall|k: i64| #[trigger]
            moved_entries(c, r).dom().contains(k) <==> 0 <= k < r.slots.len() && r.slots[k as int] is Mirror,
        forall|k: i64| #[trigger]
            moved_entries(c, r).dom().contains(k) ==> moved_entries(c, r)[k] == replayed_entry(
                c.entries,
                r.slots,
                k,
            ),
{
    let s = r.slots;
    let h = r.history_len;
    let es1 = entries_without(c.entries, removal_ids(removals(s, h)));
    let ch = change_map(slot_mutations(s, s.len()));
    lemma_entries_without_removals(c.entries, s, h);
    lemma_change_map_finite(slot_mutations(s, s.len()));
    assert forall|i: int| 0 <= i < s.len() && (#[trigger] s[i]) is Mirror implies new_key(ch, (s[i]->Mirror_0) as i64) == i as i64 by {
        lemma_new_key_of_slot(r, i);
    }
    // The kept keys: exactly the mirrored committed indices.
    assert forall|k: i64| #[trigger] es1.dom().contains(k) <==> 0 <= k < h && has_mirror(s, k as nat) by {}
    if ch.dom().len() > 0 {
        lemma_kept(s, h);
        assert(kept(s, h).to_set() =~= es1.dom());
        let ks = sorted_keys(es1);
        assert(increasing(ks) && ks.to_set() == es1.dom());
        assert forall|a: int, b: int|
            0 <= a < b < ks.len() implies new_key(ch, #[trigger] ks[a]) != new_key(ch, #[trigger] ks[b]) by {
            assert(ks.to_set().contains(ks[a]) && ks.to_set().contains(ks[b]));
            let ia = choose|i: int| 0 <= i < s.len() && s[i] == SlotModel::Mirror(ks[a] as nat);
            let ib = choose|i: int| 0 <= i < s.len() && s[i] == SlotModel::Mirror(ks[b] as nat);
            assert(s[ia] is Mirror && s[ib] is Mirror);
            assert(ks[a] < ks[b]);
            assert(s[ia] != s[ib]);
        }
        lemma_rekey_fold(es1, ks, ch);
        let es2 = entries_rekeyed(es1, ch);
        assert forall|k: i64| #[trigger] es2.dom().contains(k) implies 0 <= k < s.len() && s[k as int] is Mirror
            && es2[k] == replayed_entry(c.entries, s, k) by {
            let j = choose|j: int| 0 <= j < ks.len() && new_key(ch, #[trigger] ks[j]) == k;
            assert(ks.to_set().contains(ks[j]));
            let i = choose|i: int| 0 <= i < s.len() && s[i] == SlotModel::Mirror(ks[j] as nat);
            assert(s[i] is Mirror);
            assert(new_key(ch, (s[i]->Mirror_0) as i64) == i as i64);
        }
        assert forall|k: i64| 0 <= k < s.len() && (#[trigger] s[k as int]) is Mirror implies es2.dom().contains(k) by {
            let o = s[k as int]->Mirror_0;
            assert(o < h);
            assert(has_mirror(s, o));
            assert(es1.dom().contains(o as i64));
            assert(ks.to_set().contains(o as i64));
            let j = choose|j: int| 0 <= j < ks.len() && ks[j] == o as i64;
            assert(new_key(ch, (s[k as int]->Mirror_0) as i64) == k as i64);
            assert(new_key(ch, ks[j]) == k);
        }
    } else {
        assert(ch.dom() =~= Set::<i64>::empty());
        assert forall|k: i64| #[trigger] es1.dom().contains(k) implies 0 <= k < s.len() && s[k as int] is Mirror
            && es1[k] == replayed_entry(c.entries, s, k) by {
            let i = choose|i: int| 0 <= i < s.len() && s[i] == SlotModel::Mirror(k as nat);
            assert(new_key(ch, (s[i]->Mirror_0) as i64) == i as i64);
        }
        assert forall|k: i64| 0 <= k < s.len() && (#[trigger] s[k as int]) is Mirror implies es1.dom().contains(k) by {
            let o = s[k as int]->Mirror_0;
            assert(new_key(ch, (s[k as int]->Mirror_0) as i64) == k as i64);
            assert(o < h);
            assert(has_mirror(s, o));
        }
    }
}

/// Committing the recorder into a cache whose entries are keyed by the
/// history indices of the last commit leaves the cache holding one entry per
/// index of the pending history: under index `k`, the committed entry that
/// slot `k` kept (moved there from its old index), or the entry inserted at
/// slot `k`, with `k` as its id. The tree's summaries do not touch the
/// entries, so this is what the cache holds after a commit.
pub proof fn lemma_commit_replays_history(c: CacheModel, r: RecorderModel)
    requires
        recorder_wf(r),
        keyed_by_index(c.entries, r.history_len),
        r.history_len <= i64::MAX,
        r.slots.len() <= i64::MAX,
    ensures
        applied(c, commit_mutations(r)).entries == replayed(c.entries, r.slots),
        keyed_by_index(applied(c, commit_mutations(r)).entries, r.slots.len()),
{
    let s = r.slots;
    let h = r.history_len;
    let a = slot_mutations(s, s.len());
    let b = removals(s, h);
    let ms = commit_mutations(r);
    assert(ms == a + b);
    lemma_slot_mutations_no_removes(s, s.len());
    lemma_removals_only_removes(s, h);
    lemma_no_removes(a);
    lemma_only_removes(b);
    lemma_removal_ids_concat(a, b);
    lemma_change_map_concat(a, b);
    lemma_insert_list_concat(a, b);
    assert(removal_ids(ms) =~= removal_ids(b));
    assert(change_map(ms) =~= change_map(a));
    assert(insert_list(ms) =~= insert_list(a));
    lemma_moved_entries(c, r);
    let es1 = entries_without(c.entries, removal_ids(b));
    let ch = change_map(a);
    let es2 = moved_entries(c, r);
    lemma_entries_with_slots(es2, s, s.len());
    let es3 = entries_with(es2, insert_list(a));
    assert(applied(c, ms).entries == es3);
    assert forall|k: i64| #[trigger] es3.dom().contains(k) implies 0 <= k < s.len() && es3[k] == replayed_entry(c.entries, s, k) by {
        if 0 <= k < s.len() && s[k as int] is Inserted {
            assert(es3[k] == replayed_entry(es2, s, k));
        } else {
            assert(es2.dom().contains(k));
            assert(es3[k] == es2[k]);
        }
    }
    assert forall|k: i64| 0 <= k < s.len() implies #[trigger] es3.dom().contains(k) by {
        if !(s[k as int] is Inserted) {
            assert(s[k as int] is Mirror);
            assert(0 <= k < s.len() && s[k as int] is Mirror);
            assert(es2.dom().contains(k));
        }
    }
    assert(es3 =~= replayed(c.entries, s));
}

// ---------------------------------------------------------------------------
// The tree through a commit
// ---------------------------------------------------------------------------

/// Whether `id` is the leaf id of a committed index below `n` that no slot
/// keeps.
spec fn removed_at(s: Seq<SlotModel>, n: nat, id: Seq<char>) -> bool {
    exists|o: int| 0 <= o < n && !has_mirror(s, o as nat) && id == node_id_of(o)
}

/// Removing the leaves that `removals(s, n)` names drops the leaf of each
/// committed index below `n` that no slot keeps, and keeps every other count.
proof fn lemma_tree_without_removals(t: NodeModel, s: Seq<SlotModel>, n: nat, id: Seq<char>, w: bool)
    requires
        n <= i64::MAX,
        leaf_total(t, id) <= 1,
    ensures
        removed_at(s, n, id) ==> leaf_total(tree_without(t, removal_ids(removals(s, n))), id) == 0,
        !removed_at(s, n, id) ==> leaf_count(tree_without(t, removal_ids(removals(s, n))), id, true, w) == leaf_count(
            t,
            id,
            true,
            w,
        ) && leaf_count(tree_without(t, removal_ids(removals(s, n))), id, false, w) == leaf_count(t, id, false, w),
    decreases n,
{
    if n == 0 {
        assert(removal_ids(removals(s, 0)) =~= Seq::<i64>::empty());
    } else {
        let m = (n - 1) as nat;
        lemma_tree_without_removals(t, s, m, id, w);
        lemma_tree_without_removals(t, s, m, id, false);
        let p = removals(s, m);
        let x: Seq<MutationModel> = if has_mirror(s, m) {
            Seq::empty()
        } else {
            seq![MutationModel::Remove(m)]
        };
        assert(removals(s, n) == p + x);
        lemma_removal_ids_concat(p, x);
        let rp = removal_ids(p);
        reveal_with_fuel(removal_ids, 2);
        if has_mirror(s, m) {
            assert(removal_ids(x) =~= Seq::<i64>::empty());
            assert(removal_ids(removals(s, n)) =~= rp);
            if removed_at(s, n, id) {
                let o = choose|o: int| 0 <= o < n && !has_mirror(s, o as nat) && id == node_id_of(o);
                assert(o != m);
                assert(removed_at(s, m, id));
            }
        } else {
            assert(x.drop_last() =~= Seq::<MutationModel>::empty());
            assert(removal_ids(x) =~= seq![m as i64]);
            let ids = removal_ids(removals(s, n));
            assert(ids =~= rp.push(m as i64));
            assert(ids.drop_last() =~= rp);
            let prev = tree_without(t, rp);
            assert(tree_without(t, ids) == crate::tree::removed(prev, node_id_of(m as int)));
            lemma_removed_counts(prev, node_id_of(m as int), id, w);
            lemma_removed_counts(prev, node_id_of(m as int), id, false);
            if id == node_id_of(m as int) {
                assert(removed_at(s, n, id));
            } else if removed_at(s, n, id) {
                let o = choose|o: int| 0 <= o < n && !has_mirror(s, o as nat) && id == node_id_of(o);
                assert(o != m);
                assert(removed_at(s, m, id));
            }
        }
    }
}

proof fn lemma_tree_with_concat(t: NodeModel, a: Seq<EntryModel>, b: Seq<EntryModel>)
    ensures
        tree_with(t, a + b) == tree_with(tree_with(t, a), b),
    decreases b.len(),
{
    if b.len() == 0 {
        assert(a + b =~= a);
    } else {
        let b1 = b.drop_last();
        assert((a + b).drop_last() =~= a + b1);
        assert((a + b).last() == b.last());
        lemma_tree_with_concat(t, a, b1);
    }
}

/// Whether `id` is the leaf id of a slot below `n` that was inserted.
spec fn inserted_at(s: Seq<SlotModel>, n: nat, id: Seq<char>) -> bool {
    exists|k: int| 0 <= k < n && (#[trigger] s[k]) is Inserted && id == node_id_of(k)
}

/// Inserting the leaves of the inserted slots below `n`, where none is in
/// the tree yet, adds one selected leaf for each and keeps every other count.
proof fn lemma_tree_with_slots(t: NodeModel, s: Seq<SlotModel>, n: nat, id: Seq<char>, w: bool)
    requires
        n <= s.len(),
        s.len() <= i64::MAX,
        forall|k: int| 0 <= k < n && (#[trigger] s[k]) is Inserted ==> leaf_total(t, node_id_of(k)) == 0,
    ensures
        inserted_at(s, n, id) ==> leaf_count(tree_with(t, insert_list(slot_mutations(s, n))), id, !w, w) == leaf_count(
            t,
            id,
            !w,
            w,
        ) + 1 && leaf_count(tree_with(t, insert_list(slot_mutations(s, n))), id, w, w) == leaf_count(t, id, w, w),
        !inserted_at(s, n, id) ==> leaf_count(tree_with(t, insert_list(slot_mutations(s, n))), id, true, w) == leaf_count(
            t,
            id,
            true,
            w,
        ) && leaf_count(tree_with(t, insert_list(slot_mutations(s, n))), id, false, w) == leaf_count(t, id, false, w),
    decreases n,
{
    if n == 0 {
        assert(insert_list(slot_mutations(s, 0)) =~= Seq::<EntryModel>::empty());
    } else {
        let m = (n - 1) as nat;
        assert forall|k: int| 0 <= k < m && (#[trigger] s[k]) is Inserted implies leaf_total(t, node_id_of(k)) == 0 by {}
        lemma_tree_with_slots(t, s, m, id, w);
        let p = slot_mutations(s, m);
        let x = slot_mutation(s, m as int);
        lemma_insert_list_concat(p, x);
        lemma_tree_with_concat(t, insert_list(p), insert_list(x));
        let prev = tree_with(t, insert_list(p));
        let after = tree_with(t, insert_list(slot_mutations(s, n)));
        assert(slot_mutations(s, n) == p + x);
        assert(after == tree_with(prev, insert_list(x)));
        reveal_with_fuel(insert_list, 2);
        reveal_with_fuel(tree_with, 2);
        match s[m as int] {
            SlotModel::Inserted(labels, payload) => {
                assert(x.drop_last() =~= Seq::<MutationModel>::empty());
                let e = EntryModel { id: m as i64, labels, payload };
                assert(insert_list(x) =~= seq![e]);
                assert(seq![e].drop_last() =~= Seq::<EntryModel>::empty());
                let leaf = leaf_for(e);
                assert(after == crate::tree::inserted(prev, leaf, 0));
                let lid = node_id_of(m as int);
                lemma_tree_with_slots(t, s, m, lid, false);
                if inserted_at(s, m, lid) {
                    let k = choose|k: int| 0 <= k < m && (#[trigger] s[k]) is Inserted && lid == node_id_of(k);
                    lemma_node_id_injective(k, m as int);
                }
                assert(leaf_total(t, lid) == 0);
                assert(leaf.id == lid && leaf.selected);
                lemma_inserted_counts(prev, leaf, 0, id, true, w);
                lemma_inserted_counts(prev, leaf, 0, id, false, w);
                assert(!leaf.collapsed);
                if id == lid {
                    assert(inserted_at(s, n, id));
                    if inserted_at(s, m, id) {
                        let k = choose|k: int| 0 <= k < m && (#[trigger] s[k]) is Inserted && id == node_id_of(k);
                        lemma_node_id_injective(k, m as int);
                    }
                } else if inserted_at(s, n, id) {
                    let k = choose|k: int| 0 <= k < n && (#[trigger] s[k]) is Inserted && id == node_id_of(k);
                    assert(k != m);
                    assert(inserted_at(s, m, id));
                }
            },
            SlotModel::Mirror(o) => {
                if o != m {
                    assert(x.drop_last() =~= Seq::<MutationModel>::empty());
                }
                assert(insert_list(x) =~= Seq::<EntryModel>::empty());
                assert(after == prev);
                if inserted_at(s, n, id) {
                    let k = choose|k: int| 0 <= k < n && (#[trigger] s[k]) is Inserted && id == node_id_of(k);
                    assert(k != m);
                    assert(inserted_at(s, m, id));
                }
            },
        }
    }
}

/// The id that a renaming gives the leaf of index `o`: that of its new key.
proof fn lemma_renamed_id_index(ch: Map<i64, i64>, o: i64)
    ensures
        renamed_id(node_id_of(o as int), ch) == node_id_of(new_key(ch, o) as int),
{
    let id = node_id_of(o as int);
    if renamed_from(id, ch) {
        let o2 = choose|o2: i64| ch.dom().contains(o2) && node_id_of(o2 as int) == id;
        lemma_node_id_injective(o2 as int, o as int);
    } else {
        assert(!ch.dom().contains(o));
    }
}

/// After the removes of a commit, the tree holds, of the committed indices,
/// exactly those that some slot keeps, each as before.
proof fn lemma_tree_after_removes(t: NodeModel, r: RecorderModel)
    requires
        indexed_leaves(t, r.history_len),
        r.history_len <= i64::MAX,
    ensures
        unique_leaves(tree_without(t, removal_ids(removals(r.slots, r.history_len)))),
        forall|id: Seq<char>| #[trigger]
            leaf_total(tree_without(t, removal_ids(removals(r.slots, r.history_len))), id) > 0 ==> exists|o: int|
                0 <= o < r.history_len && has_mirror(r.slots, o as nat) && id == node_id_of(o),
        forall|o: int, b: bool, w: bool|
            0 <= o < r.history_len && has_mirror(r.slots, o as nat) ==> #[trigger] leaf_count(
                tree_without(t, removal_ids(removals(r.slots, r.history_len))),
                node_id_of(o),
                b,
                w,
            ) == leaf_count(t, node_id_of(o), b, w),
{
    let s = r.slots;
    let h = r.history_len;
    let t1 = tree_without(t, removal_ids(removals(s, h)));
    lemma_indexed_unique(t, h);
    assert forall|id: Seq<char>| #[trigger] leaf_total(t1, id) <= leaf_total(t, id) && (leaf_total(t1, id) > 0
        ==> !removed_at(s, h, id)) by {
        lemma_tree_without_removals(t, s, h, id, false);
    }
    assert forall|y: Seq<char>| #[trigger] leaf_total(t1, y) <= 1 by {
        assert(leaf_total(t1, y) <= leaf_total(t, y));
    }
    assert forall|id: Seq<char>| #[trigger] leaf_total(t1, id) > 0 implies exists|o: int|
        0 <= o < h && has_mirror(s, o as nat) && id == node_id_of(o) by {
        assert(leaf_total(t, id) > 0);
        let o = choose|o: int| 0 <= o < h && id == node_id_of(o);
        if !has_mirror(s, o as nat) {
            assert(removed_at(s, h, id));
        }
    }
    assert forall|o: int, b: bool, w: bool| 0 <= o < h && has_mirror(s, o as nat) implies #[trigger] leaf_count(
        t1,
        node_id_of(o),
        b,
        w,
    ) == leaf_count(t, node_id_of(o), b, w) by {
        lemma_tree_without_removals(t, s, h, node_id_of(o), w);
        if removed_at(s, h, node_id_of(o)) {
            let o2 = choose|o2: int| 0 <= o2 < h && !has_mirror(s, o2 as nat) && node_id_of(o) == node_id_of(o2);
            lemma_node_id_injective(o, o2);
        }
    }
}

/// The tree after the removes and the index changes of a commit.
spec fn renamed_tree(t: NodeModel, r: RecorderModel) -> NodeModel {
    let t1 = tree_without(t, removal_ids(removals(r.slots, r.history_len)));
    let ch = change_map(slot_mutations(r.slots, r.slots.len()));
    if ch.dom().len() > 0 {
        renamed(t1, ch)
    } else {
        t1
    }
}

/// After the removes and the index changes of a commit, the tree holds a
/// leaf for each slot that keeps a committed index, with that index's
/// selection, and no other leaf.
proof fn lemma_tree_after_renames(t: NodeModel, r: RecorderModel)
    requires
        recorder_wf(r),
        indexed_leaves(t, r.history_len),
        r.history_len <= i64::MAX,
        r.slots.len() <= i64::MAX,
    ensures
        forall|k: int, b: bool, w: bool|
            0 <= k < r.slots.len() && r.slots[k] is Mirror ==> #[trigger] leaf_count(renamed_tree(t, r), node_id_of(k), b, w)
                == leaf_count(t, node_id_of(r.slots[k]->Mirror_0 as int), b, w),
        forall|x: Seq<char>| #[trigger]
            leaf_total(renamed_tree(t, r), x) > 0 ==> exists|k: int|
                0 <= k < r.slots.len() && r.slots[k] is Mirror && x == node_id_of(k),
{
    let s = r.slots;
    let h = r.history_len;
    let t1 = tree_without(t, removal_ids(removals(s, h)));
    let ch = change_map(slot_mutations(s, s.len()));
    let t2 = renamed_tree(t, r);
    lemma_tree_after_removes(t, r);
    // Each kept index goes to the slot that keeps it.
    assert forall|k: int| 0 <= k < s.len() && (#[trigger] s[k]) is Mirror implies renamed_id(
        node_id_of(s[k]->Mirror_0 as int),
        ch,
    ) == node_id_of(k) && s[k]->Mirror_0 < h && has_mirror(s, s[k]->Mirror_0) by {
        lemma_new_key_of_slot(r, k);
        lemma_renamed_id_index(ch, s[k]->Mirror_0 as i64);
        assert(s[k] == SlotModel::Mirror(s[k]->Mirror_0));
    }
    // The slot that keeps a present leaf.
    assert forall|y: Seq<char>| #[trigger] leaf_total(t1, y) > 0 implies exists|k: int|
        0 <= k < s.len() && s[k] is Mirror && y == node_id_of(s[k]->Mirror_0 as int) by {
        let o = choose|o: int| 0 <= o < h && has_mirror(s, o as nat) && y == node_id_of(o);
        let k = choose|k: int| 0 <= k < s.len() && s[k] == SlotModel::Mirror(o as nat);
        assert(s[k] is Mirror && s[k]->Mirror_0 == o);
    }
    if ch.dom().len() > 0 {
        assert(t2 == renamed(t1, ch));
        assert(renames_apart(t1, ch)) by {
            assert forall|y1: Seq<char>, y2: Seq<char>|
                #![trigger leaf_total(t1, y1), leaf_total(t1, y2)]
                leaf_total(t1, y1) > 0 && leaf_total(t1, y2) > 0 && y1 != y2 implies renamed_id(y1, ch) != renamed_id(
                    y2,
                    ch,
                ) by {
                let k1 = choose|k: int| 0 <= k < s.len() && s[k] is Mirror && y1 == node_id_of(s[k]->Mirror_0 as int);
                let k2 = choose|k: int| 0 <= k < s.len() && s[k] is Mirror && y2 == node_id_of(s[k]->Mirror_0 as int);
                assert(k1 != k2);
                if renamed_id(y1, ch) == renamed_id(y2, ch) {
                    lemma_node_id_injective(k1, k2);
                }
            }
        }
        assert forall|k: int, b: bool, w: bool|
            0 <= k < s.len() && s[k] is Mirror implies #[trigger] leaf_count(t2, node_id_of(k), b, w) == leaf_count(
                t,
                node_id_of(s[k]->Mirror_0 as int),
                b,
                w,
            ) by {
            let o = s[k]->Mirror_0 as int;
            assert(leaf_count(t1, node_id_of(o), true, w) == leaf_count(t, node_id_of(o), true, w));
            assert(leaf_count(t1, node_id_of(o), false, w) == leaf_count(t, node_id_of(o), false, w));
            assert(leaf_count(t1, node_id_of(o), true, false) == leaf_count(t, node_id_of(o), true, false));
            assert(leaf_count(t1, node_id_of(o), false, false) == leaf_count(t, node_id_of(o), false, false));
            assert(leaf_total(t, node_id_of(o)) == 1);
            lemma_renamed_present(t1, ch, node_id_of(o), w);
        }
        assert forall|x: Seq<char>| #[trigger] leaf_total(t2, x) > 0 implies exists|k: int|
            0 <= k < s.len() && s[k] is Mirror && x == node_id_of(k) by {
            if !exists|k: int| 0 <= k < s.len() && s[k] is Mirror && x == node_id_of(k) {
                assert forall|y: Seq<char>| #[trigger] leaf_total(t1, y) > 0 implies renamed_id(y, ch) != x by {
                    let k = choose|k: int| 0 <= k < s.len() && s[k] is Mirror && y == node_id_of(s[k]->Mirror_0 as int);
                    assert(renamed_id(y, ch) == node_id_of(k));
                }
                lemma_renamed_absent(t1, ch, x, false);
            }
        }
    } else {
        assert(t2 == t1);
        lemma_change_map_finite(slot_mutations(s, s.len()));
        assert(ch.dom() =~= Set::<i64>::empty());
        assert forall|k: int| 0 <= k < s.len() && (#[trigger] s[k]) is Mirror implies s[k]->Mirror_0 == k by {
            lemma_new_key_of_slot(r, k);
            assert(!ch.dom().contains(s[k]->Mirror_0 as i64));
        }
        assert forall|k: int, b: bool, w: bool|
            0 <= k < s.len() && s[k] is Mirror implies #[trigger] leaf_count(t2, node_id_of(k), b, w) == leaf_count(
                t,
                node_id_of(s[k]->Mirror_0 as int),
                b,
                w,
            ) by {
            assert(s[k]->Mirror_0 == k);
        }
        assert forall|x: Seq<char>| #[trigger] leaf_total(t2, x) > 0 implies exists|k: int|
            0 <= k < s.len() && s[k] is Mirror && x == node_id_of(k) by {
            let k = choose|k: int| 0 <= k < s.len() && s[k] is Mirror && x == node_id_of(s[k]->Mirror_0 as int);
            assert(s[k]->Mirror_0 == k);
        }
    }
}

/// Whether the leaf of index `k` under `t` is collapsed.
pub open spec fn leaf_collapsed(t: NodeModel, k: int) -> bool {
    leaf_count(t, node_id_of(k), true, true) > 0
}

/// Committing the recorder into a cache whose tree holds one leaf per
/// committed history index keeps every selection the user made: the tree
/// ends up with one leaf per index of the pending history, the index of a
/// kept entry selected exactly when its committed index was, and the index
/// of an inserted entry selected, as every new entry starts out; likewise a
/// kept entry's leaf keeps its collapse state, and a new one starts
/// expanded. The tree's summaries touch no selection
/// (`lemma_summary_keeps_selection`), so this is what the cache selects
/// after a commit.
pub proof fn lemma_commit_keeps_selection(c: CacheModel, r: RecorderModel)
    requires
        recorder_wf(r),
        indexed_leaves(c.tree, r.history_len),
        r.history_len <= i64::MAX,
        r.slots.len() <= i64::MAX,
    ensures
        indexed_leaves(applied(c, commit_mutations(r)).tree, r.slots.len()),
        forall|x: i64| #[trigger]
            selected_ids(applied(c, commit_mutations(r)).tree).contains(x) <==> 0 <= x < r.slots.len() && match r.slots[x as int] {
                SlotModel::Inserted(..) => true,
                SlotModel::Mirror(o) => selected_ids(c.tree).contains(o as i64),
            },
        forall|k: int|
            0 <= k < r.slots.len() ==> (#[trigger] leaf_collapsed(applied(c, commit_mutations(r)).tree, k) <==> match r.slots[k] {
                SlotModel::Inserted(..) => false,
                SlotModel::Mirror(o) => leaf_collapsed(c.tree, o as int),
            }),
{
    let s = r.slots;
    let h = r.history_len;
    let t = c.tree;
    let a = slot_mutations(s, s.len());
    let b = removals(s, h);
    let ms = commit_mutations(r);
    assert(ms == a + b);
    lemma_slot_mutations_no_removes(s, s.len());
    lemma_removals_only_removes(s, h);
    lemma_no_removes(a);
    lemma_only_removes(b);
    lemma_removal_ids_concat(a, b);
    lemma_change_map_concat(a, b);
    lemma_insert_list_concat(a, b);
    assert(removal_ids(ms) =~= removal_ids(b));
    assert(change_map(ms) =~= change_map(a));
    assert(insert_list(ms) =~= insert_list(a));
    let rs = removal_ids(b);
    if rs.len() == 0 {
        assert(tree_without(t, rs) == t);
    }
    let t2 = renamed_tree(t, r);
    let ins = insert_list(a);
    if ins.len() == 0 {
        assert(tree_with(t2, ins) == t2);
    }
    let t3 = tree_with(t2, ins);
    assert(applied(c, ms).tree == t3);
    lemma_tree_after_renames(t, r);
    let n = s.len();
    // No inserted slot has a leaf yet.
    assert forall|k: int| 0 <= k < n && (#[trigger] s[k]) is Inserted implies leaf_total(t2, node_id_of(k)) == 0 by {
        if leaf_total(t2, node_id_of(k)) > 0 {
            let k2 = choose|k2: int| 0 <= k2 < n && s[k2] is Mirror && node_id_of(k) == node_id_of(k2);
            lemma_node_id_injective(k, k2);
        }
    }
    // Each slot's leaf.
    assert forall|k: int| 0 <= k < n implies #[trigger] leaf_total(t3, node_id_of(k)) == 1 && (leaf_count(
        t3,
        node_id_of(k),
        true,
        false,
    ) > 0 <==> match s[k] {
        SlotModel::Inserted(..) => true,
        SlotModel::Mirror(o) => leaf_count(t, node_id_of(o as int), true, false) > 0,
    }) by {
        lemma_tree_with_slots(t2, s, n, node_id_of(k), false);
        match s[k] {
            SlotModel::Inserted(..) => {
                assert(inserted_at(s, n, node_id_of(k)));
            },
            SlotModel::Mirror(o) => {
                if inserted_at(s, n, node_id_of(k)) {
                    let k2 = choose|k2: int| 0 <= k2 < n && (#[trigger] s[k2]) is Inserted && node_id_of(k) == node_id_of(k2);
                    lemma_node_id_injective(k, k2);
                }
                assert(leaf_count(t2, node_id_of(k), true, false) == leaf_count(t, node_id_of(o as int), true, false));
                assert(leaf_count(t2, node_id_of(k), false, false) == leaf_count(t, node_id_of(o as int), false, false));
                assert(o < h);
                assert(leaf_total(t, node_id_of(o as int)) == 1);
            },
        }
    }
    // No other leaf.
    assert forall|id: Seq<char>| #[trigger] leaf_total(t3, id) > 0 implies exists|k: int| 0 <= k < n && id == node_id_of(k) by {
        lemma_tree_with_slots(t2, s, n, id, false);
        if !inserted_at(s, n, id) {
            assert(leaf_total(t2, id) > 0);
            let k = choose|k: int| 0 <= k < n && s[k] is Mirror && id == node_id_of(k);
        }
    }
    // Each leaf's collapse state.
    assert forall|k: int| 0 <= k < n implies (#[trigger] leaf_collapsed(t3, k) <==> match s[k] {
        SlotModel::Inserted(..) => false,
        SlotModel::Mirror(o) => leaf_collapsed(t, o as int),
    }) by {
        lemma_tree_with_slots(t2, s, n, node_id_of(k), true);
        match s[k] {
            SlotModel::Inserted(..) => {
                assert(inserted_at(s, n, node_id_of(k)));
                assert(leaf_total(t2, node_id_of(k)) == 0);
                lemma_wtotal_any_flag(t2, node_id_of(k), true);
            },
            SlotModel::Mirror(o) => {
                if inserted_at(s, n, node_id_of(k)) {
                    let k2 = choose|k2: int| 0 <= k2 < n && (#[trigger] s[k2]) is Inserted && node_id_of(k) == node_id_of(k2);
                    lemma_node_id_injective(k, k2);
                }
                assert(leaf_count(t2, node_id_of(k), true, true) == leaf_count(t, node_id_of(o as int), true, true));
            },
        }
    }
    assert(indexed_leaves(t3, n));
    assert forall|x: i64| #[trigger] selected_ids(t3).contains(x) <==> 0 <= x < n && match s[x as int] {
        SlotModel::Inserted(..) => true,
        SlotModel::Mirror(o) => selected_ids(t).contains(o as i64),
    } by {
        lemma_selected_ids_indexed(t3, n, x);
        if 0 <= x < n {
            assert(leaf_total(t3, node_id_of(x as int)) == 1);
            match s[x as int] {
                SlotModel::Mirror(o) => {
                    assert(o < h);
                    lemma_selected_ids_indexed(t, h, o as i64);
                },
                _ => {},
            }
        }
    }
}

/// Whether a cache is in step with a recorder: its entries keyed by the
/// committed history indices and its tree holding one leaf per index.
pub open spec fn in_step(c: CacheModel, r: RecorderModel) -> bool {
    &&& keyed_by_index(c.entries, r.history_len)
    &&& indexed_leaves(c.tree, r.history_len)
    &&& r.history_len <= i64::MAX
}

/// What a commit selects: each index of the pending history `slots` whose
/// slot was inserted, or keeps an index that `t` selects.
pub open spec fn selection_after_commit(t: NodeModel, slots: Seq<SlotModel>, x: i64) -> bool {
    0 <= x < slots.len() && match slots[x as int] {
        SlotModel::Inserted(..) => true,
        SlotModel::Mirror(o) => selected_ids(t).contains(o as i64),
    }
}

/// A batch of no mutations leaves the cache as it is.
pub proof fn lemma_applied_nothing(c: CacheModel)
    ensures
        applied(c, Seq::empty()) == c,
{
    let e = Seq::<MutationModel>::empty();
    assert(removal_ids(e) =~= Seq::<i64>::empty());
    assert(change_map(e) =~= Map::<i64, i64>::empty());
    assert(change_map(e).dom() =~= Set::<i64>::empty());
    assert(insert_list(e) =~= Seq::<EntryModel>::empty());
}

/// After a commit into a cache whose entries and leaves are keyed by the
/// committed history indices, every selected id is the id of a cached
/// entry: what the cache selects is a subset of what it holds.
pub proof fn lemma_committed_selection_is_cached(c: CacheModel, r: RecorderModel)
    requires
        recorder_wf(r),
        keyed_by_index(c.entries, r.history_len),
        indexed_leaves(c.tree, r.history_len),
        r.history_len <= i64::MAX,
        r.slots.len() <= i64::MAX,
    ensures
        forall|x: i64| #[trigger]
            selected_ids(applied(c, commit_mutations(r)).tree).contains(x) ==> applied(
                c,
                commit_mutations(r),
            ).entries.dom().contains(x),
{
    lemma_commit_replays_history(c, r);
    lemma_commit_keeps_selection(c, r);
}

} // verus!

