//! The conversation history, kept in step with the context tree: every edit
//! of the list of items is mirrored into the tree's recorder, and the tree's
//! selection decides what goes into the next prompt.
use vstd::prelude::*;
use vstd::utf8::encode_utf8;

use crate::cache::{applied, CacheModel};
use crate::client::ContextTreeClient;
use crate::items::{
    api_message, body_of, build_entry_labels, build_entry_payload, copy_item, copy_items, entry_body,
    is_api_message, item_views, labels_of, payload_of, reasoning_length, ItemView, ResponseItem,
};
use crate::normalize::{
    counterpart, ensure_call_outputs_present, insert_views, normalized, orphan, orphan_removals, output_inserts,
    remove_corresponding_for, remove_orphan_outputs, with_outputs, without_orphans,
};
use crate::prompt::{build_prompt_context_tree, shown, PromptContextActions, PromptContextTree};
use crate::recorder::{commit_mutations, mirrors, RecorderModel, SlotModel};
use crate::replay::{in_step, selection_after_commit};
use crate::summarizer::summarized_tree;
use crate::text::{copy_str, views};
use crate::tree::{selected_ids, toggled_collapsed, toggled_selected, NodeModel};

verus! {

// ---------------------------------------------------------------------------
// What the recorder is told
// ---------------------------------------------------------------------------

/// The pending slot that an item recorded under `task` takes.
pub open spec fn entry_slot(v: ItemView, task: Option<Seq<char>>) -> SlotModel {
    SlotModel::Inserted(labels_of(v, task), payload_of(v))
}

/// The pending slots of items recorded one after the other.
pub open spec fn entry_slots(vs: Seq<ItemView>, task: Option<Seq<char>>) -> Seq<SlotModel> {
    vs.map_values(|v: ItemView| entry_slot(v, task))
}

/// `slots` after the inserts `events`, replayed in order.
pub open spec fn inserts_applied(slots: Seq<SlotModel>, events: Seq<(nat, ItemView)>, task: Option<Seq<char>>) -> Seq<SlotModel>
    decreases events.len(),
{
    if events.len() == 0 {
        slots
    } else {
        inserts_applied(slots, events.drop_last(), task).insert(
            events.last().0 as int,
            entry_slot(events.last().1, task),
        )
    }
}

/// `slots` after the removes at `positions`, replayed in order.
pub open spec fn removes_applied(slots: Seq<SlotModel>, positions: Seq<nat>) -> Seq<SlotModel>
    decreases positions.len(),
{
    if positions.len() == 0 {
        slots
    } else {
        removes_applied(slots, positions.drop_last()).remove(positions.last() as int)
    }
}

/// Whether the history keeps an item it is given: an API message, or a
/// ghost snapshot.
pub open spec fn kept_on_record(v: ItemView) -> bool {
    api_message(v) || v is GhostSnapshot
}

/// The items of `vs` that the history keeps, in order.
pub open spec fn recorded_items(vs: Seq<ItemView>) -> Seq<ItemView>
    decreases vs.len(),
{
    if vs.len() == 0 {
        Seq::empty()
    } else {
        recorded_items(vs.drop_last()) + if kept_on_record(vs.last()) {
            seq![vs.last()]
        } else {
            Seq::empty()
        }
    }
}

/// Whether the item at index `k` goes into the next prompt: its entry is
/// selected, or it has no entry in the committed cache yet (an item added
/// since the last commit counts as selected).
pub open spec fn goes_to_prompt(k: i64, selected: Seq<i64>, cached: Set<i64>) -> bool {
    selected.contains(k) || !cached.contains(k)
}

/// The items of `h` that go into the next prompt, in order.
pub open spec fn chosen_items(h: Seq<ItemView>, selected: Seq<i64>, cached: Set<i64>) -> Seq<ItemView>
    decreases h.len(),
{
    if h.len() == 0 {
        Seq::empty()
    } else {
        chosen_items(h.drop_last(), selected, cached) + if goes_to_prompt(
            (h.len() - 1) as i64,
            selected,
            cached,
        ) {
            seq![h.last()]
        } else {
            Seq::empty()
        }
    }
}

/// The items that go into the prompt are exactly those of `h` at the
/// indices that go to the prompt, in increasing order: every index that is
/// selected or not yet cached is among them, and no other.
pub proof fn lemma_chosen_items_exactly(h: Seq<ItemView>, selected: Seq<i64>, cached: Set<i64>) -> (idx: Seq<int>)
    ensures
        forall|i: int, j: int| 0 <= i < j < idx.len() ==> idx[i] < idx[j],
        forall|i: int|
            0 <= i < idx.len() ==> 0 <= #[trigger] idx[i] < h.len() && goes_to_prompt(idx[i] as i64, selected, cached),
        forall|k: int| 0 <= k < h.len() && goes_to_prompt(k as i64, selected, cached) ==> #[trigger] idx.contains(k),
        chosen_items(h, selected, cached) == idx.map_values(|k: int| h[k]),
    decreases h.len(),
{
    if h.len() == 0 {
        Seq::empty()
    } else {
        let d = h.drop_last();
        let n = h.len() - 1;
        let p = lemma_chosen_items_exactly(d, selected, cached);
        assert(p.map_values(|k: int| d[k]) =~= p.map_values(|k: int| h[k]));
        if goes_to_prompt(n as i64, selected, cached) {
            let idx = p.push(n);
            assert(idx.map_values(|k: int| h[k]) =~= p.map_values(|k: int| h[k]) + seq![h.last()]);
            assert forall|k: int| 0 <= k < h.len() && goes_to_prompt(k as i64, selected, cached) implies #[trigger] idx.contains(k) by {
                if k < n {
                    assert(p.contains(k));
                    let t = choose|t: int| 0 <= t < p.len() && p[t] == k;
                    assert(idx[t] == k);
                } else {
                    assert(idx[idx.len() - 1] == k);
                }
            }
            idx
        } else {
            assert(chosen_items(h, selected, cached) =~= chosen_items(d, selected, cached));
            assert forall|k: int| 0 <= k < h.len() && goes_to_prompt(k as i64, selected, cached) implies #[trigger] p.contains(k) by {
                assert(k < n);
            }
            p
        }
    }
}

/// `h` without its ghost snapshots.
pub open spec fn without_ghosts(h: Seq<ItemView>) -> Seq<ItemView>
    decreases h.len(),
{
    if h.len() == 0 {
        Seq::empty()
    } else {
        without_ghosts(h.drop_last()) + if h.last() is GhostSnapshot {
            Seq::empty()
        } else {
            seq![h.last()]
        }
    }
}

/// What the next prompt is given of the history `h`: the items whose entry
/// is selected or not yet in the committed cache (whose indices are
/// `cached`), never an unchecked one, and never a ghost snapshot.
pub open spec fn prompt_history(h: Seq<ItemView>, selected: Seq<i64>, cached: Set<i64>) -> Seq<ItemView> {
    without_ghosts(chosen_items(h, selected, cached))
}

/// Whether an item is a message from the user.
pub open spec fn is_user_message(v: ItemView) -> bool {
    v matches ItemView::Message { role, .. } && role == "user"@
}

/// The index of the last message from the user in `h`, or -1 where there is
/// none.
pub open spec fn last_user_index(h: Seq<ItemView>) -> int
    decreases h.len(),
{
    if h.len() == 0 {
        -1
    } else if is_user_message(h.last()) {
        h.len() - 1
    } else {
        last_user_index(h.drop_last())
    }
}

/// The estimated length of the encrypted reasoning that an item carries,
/// where it is reasoning with encrypted content.
pub open spec fn item_reasoning_length(v: ItemView) -> nat {
    match v {
        ItemView::Reasoning { encrypted_content: Some(e), .. } => reasoning_length(
            (encode_utf8(e).len() as usize) as nat,
        ),
        _ => 0,
    }
}

/// The estimated lengths of the encrypted reasoning of all items of `h`,
/// added up.
pub open spec fn reasoning_total(h: Seq<ItemView>) -> nat
    decreases h.len(),
{
    if h.len() == 0 {
        0
    } else {
        reasoning_total(h.drop_last()) + item_reasoning_length(h.last())
    }
}

/// The estimated length of the encrypted reasoning before the last message
/// from the user, capped at `usize::MAX`; 0 where the user never spoke.
pub open spec fn non_last_reasoning_length(h: Seq<ItemView>) -> nat {
    let k = last_user_index(h);
    if k < 0 {
        0
    } else {
        let t = reasoning_total(h.take(k));
        if t > usize::MAX {
            usize::MAX as nat
        } else {
            t
        }
    }
}

/// The tree after the toggles of `actions`, in order; an empty list of ids
/// is skipped.
pub open spec fn actions_applied(t: NodeModel, actions: Seq<PromptContextActions>) -> NodeModel
    decreases actions.len(),
{
    if actions.len() == 0 {
        t
    } else {
        let t1 = actions_applied(t, actions.drop_last());
        let a = actions.last();
        let t2 = if a.toggle_selected@.len() > 0 {
            toggled_selected(t1, views(a.toggle_selected@))
        } else {
            t1
        };
        if a.toggle_collapsed@.len() > 0 {
            toggled_collapsed(t2, views(a.toggle_collapsed@))
        } else {
            t2
        }
    }
}

/// The view of an optional task id.
pub open spec fn task_view(t: Option<String>) -> Option<Seq<char>> {
    match t {
        Some(s) => Some(s@),
        None => None,
    }
}

// ---------------------------------------------------------------------------
// The recorder mirrors the items
// ---------------------------------------------------------------------------

/// Whether a pending slot agrees with the item at its index: an inserted
/// slot carries the item's payload.
pub open spec fn slot_mirrors(slot: SlotModel, v: ItemView) -> bool {
    match slot {
        SlotModel::Inserted(_, p) => p == payload_of(v),
        SlotModel::Mirror(_) => true,
    }
}

/// Whether the pending slots describe the items: one slot per item, and
/// each inserted slot with the payload of its item.
pub open spec fn mirrored(slots: Seq<SlotModel>, items: Seq<ItemView>) -> bool {
    &&& slots.len() == items.len()
    &&& forall|i: int| 0 <= i < slots.len() ==> slot_mirrors(#[trigger] slots[i], items[i])
}

/// `items` after the inserts `events`, in order.
pub open spec fn items_inserted(items: Seq<ItemView>, events: Seq<(nat, ItemView)>) -> Seq<ItemView>
    decreases events.len(),
{
    if events.len() == 0 {
        items
    } else {
        items_inserted(items, events.drop_last()).insert(events.last().0 as int, events.last().1)
    }
}

/// `items` after the removes at `positions`, in order.
pub open spec fn items_removed(items: Seq<ItemView>, positions: Seq<nat>) -> Seq<ItemView>
    decreases positions.len(),
{
    if positions.len() == 0 {
        items
    } else {
        items_removed(items, positions.drop_last()).remove(positions.last() as int)
    }
}

proof fn lemma_mirrored_insert(s: Seq<SlotModel>, it: Seq<ItemView>, p: int, v: ItemView, task: Option<Seq<char>>)
    requires
        mirrored(s, it),
        0 <= p <= s.len(),
    ensures
        mirrored(s.insert(p, entry_slot(v, task)), it.insert(p, v)),
{
    let s2 = s.insert(p, entry_slot(v, task));
    let i2 = it.insert(p, v);
    assert forall|i: int| 0 <= i < s2.len() implies slot_mirrors(#[trigger] s2[i], i2[i]) by {
        if i < p {
            assert(s2[i] == s[i] && i2[i] == it[i]);
        } else if i > p {
            assert(s2[i] == s[i - 1] && i2[i] == it[i - 1]);
        }
    }
}

proof fn lemma_mirrored_remove(s: Seq<SlotModel>, it: Seq<ItemView>, p: int)
    requires
        mirrored(s, it),
        0 <= p < s.len(),
    ensures
        mirrored(s.remove(p), it.remove(p)),
{
    let s2 = s.remove(p);
    let i2 = it.remove(p);
    assert forall|i: int| 0 <= i < s2.len() implies slot_mirrors(#[trigger] s2[i], i2[i]) by {
        if i < p {
            assert(s2[i] == s[i] && i2[i] == it[i]);
        } else {
            assert(s2[i] == s[i + 1] && i2[i] == it[i + 1]);
        }
    }
}

/// Replaying the same inserts on the slots and on the items keeps them in step.
proof fn lemma_mirrored_inserts(s: Seq<SlotModel>, it: Seq<ItemView>, events: Seq<(nat, ItemView)>, task: Option<Seq<char>>)
    requires
        mirrored(s, it),
        forall|t: int| 0 <= t < events.len() ==> (#[trigger] events[t]).0 <= s.len(),
    ensures
        mirrored(inserts_applied(s, events, task), items_inserted(it, events)),
        inserts_applied(s, events, task).len() == s.len() + events.len(),
    decreases events.len(),
{
    if events.len() > 0 {
        let e1 = events.drop_last();
        assert forall|t: int| 0 <= t < e1.len() implies (#[trigger] e1[t]).0 <= s.len() by {
            assert(e1[t] == events[t]);
        }
        lemma_mirrored_inserts(s, it, e1, task);
        assert(events.last() == events[events.len() - 1]);
        lemma_mirrored_insert(
            inserts_applied(s, e1, task),
            items_inserted(it, e1),
            events.last().0 as int,
            events.last().1,
            task,
        );
    }
}

/// Replaying the same removes on the slots and on the items keeps them in step.
proof fn lemma_mirrored_removes(s: Seq<SlotModel>, it: Seq<ItemView>, positions: Seq<nat>)
    requires
        mirrored(s, it),
        forall|t: int| 0 <= t < positions.len() ==> #[trigger] positions[t] + t < s.len(),
    ensures
        mirrored(removes_applied(s, positions), items_removed(it, positions)),
        removes_applied(s, positions).len() == s.len() - positions.len(),
    decreases positions.len(),
{
    if positions.len() > 0 {
        let p1 = positions.drop_last();
        assert forall|t: int| 0 <= t < p1.len() implies #[trigger] p1[t] + t < s.len() by {
            assert(p1[t] == positions[t]);
        }
        lemma_mirrored_removes(s, it, p1);
        assert(positions.last() == positions[positions.len() - 1]);
        lemma_mirrored_remove(removes_applied(s, p1), items_removed(it, p1), positions.last() as int);
    }
}

proof fn lemma_items_inserted_concat(it: Seq<ItemView>, a: Seq<(nat, ItemView)>, b: Seq<(nat, ItemView)>)
    ensures
        items_inserted(it, a + b) == items_inserted(items_inserted(it, a), b),
    decreases b.len(),
{
    if b.len() == 0 {
        assert(a + b =~= a);
    } else {
        assert((a + b).drop_last() =~= a + b.drop_last());
        assert((a + b).last() == b.last());
        lemma_items_inserted_concat(it, a, b.drop_last());
    }
}

/// The inserts that add the missing outputs, replayed on any items that
/// begin with the first `n` of `all`, give `with_outputs(all, n)` followed by
/// the rest.
proof fn lemma_output_inserts_replay(all: Seq<ItemView>, n: nat, s: Seq<ItemView>)
    requires
        n <= all.len(),
        n <= s.len(),
        forall|i: int| 0 <= i < n ==> #[trigger] s[i] == all[i],
    ensures
        items_inserted(s, output_inserts(all, n)) == with_outputs(all, n) + s.skip(n as int),
    decreases n,
{
    if n == 0 {
        assert(s.skip(0) =~= s);
        assert(with_outputs(all, 0) + s =~= s);
    } else {
        let m = (n - 1) as nat;
        let x = all[m as int];
        let head: Seq<(nat, ItemView)> = if crate::normalize::missing_output(all, x) {
            seq![(n, crate::normalize::synthetic_output(x))]
        } else {
            Seq::empty()
        };
        assert(output_inserts(all, n) == head + output_inserts(all, m));
        lemma_items_inserted_concat(s, head, output_inserts(all, m));
        let s2 = items_inserted(s, head);
        if crate::normalize::missing_output(all, x) {
            assert(head.drop_last() =~= Seq::<(nat, ItemView)>::empty());
            assert(items_inserted(s, head.drop_last()) == s);
            assert(head.last() == (n, crate::normalize::synthetic_output(x)));
            assert(s2 == s.insert(n as int, crate::normalize::synthetic_output(x)));
        } else {
            assert(s2 == s);
        }
        assert forall|i: int| 0 <= i < m implies #[trigger] s2[i] == all[i] by {
            assert(s2[i] == s[i]);
        }
        lemma_output_inserts_replay(all, m, s2);
        if crate::normalize::missing_output(all, x) {
            assert(s2.skip(m as int) =~= seq![x, crate::normalize::synthetic_output(x)] + s.skip(n as int));
            assert(with_outputs(all, m) + s2.skip(m as int) =~= with_outputs(all, n) + s.skip(n as int));
        } else {
            assert(s.skip(m as int) =~= seq![x] + s.skip(n as int));
            assert(with_outputs(all, m) + s.skip(m as int) =~= with_outputs(all, n) + s.skip(n as int));
        }
    }
}

/// The removes of the orphans, replayed on any items that begin with the
/// first `n` of `all`, give `without_orphans(all, n)` followed by the rest.
proof fn lemma_orphan_removals_replay(all: Seq<ItemView>, n: nat, s: Seq<ItemView>)
    requires
        n <= all.len(),
        n <= s.len(),
        forall|i: int| 0 <= i < n ==> #[trigger] s[i] == all[i],
    ensures
        items_removed(s, orphan_removals(all, n)) == without_orphans(all, n) + s.skip(n as int),
    decreases n,
{
    if n == 0 {
        assert(s.skip(0) =~= s);
        assert(without_orphans(all, 0) + s =~= s);
    } else {
        let m = (n - 1) as nat;
        lemma_orphan_removals_replay(all, m, s);
        let w = without_orphans(all, m);
        let x = all[m as int];
        assert(s.skip(m as int) =~= seq![x] + s.skip(n as int));
        if orphan(all, x) {
            let ps = orphan_removals(all, n);
            assert(ps == orphan_removals(all, m).push(w.len()));
            assert(ps.drop_last() =~= orphan_removals(all, m));
            assert((w + s.skip(m as int)).remove(w.len() as int) =~= w + s.skip(n as int));
            assert(without_orphans(all, n) =~= w);
        } else {
            assert(orphan_removals(all, n) =~= orphan_removals(all, m));
            assert(w + s.skip(m as int) =~= without_orphans(all, n) + s.skip(n as int));
        }
    }
}

/// New items start selected and earlier choices stand: where the history
/// was committed with `h` items and new items `vs` were recorded since, a
/// commit selects the earlier indices that were selected, and every new one.
pub proof fn lemma_new_items_start_selected(t: NodeModel, h: nat, vs: Seq<ItemView>, task: Option<Seq<char>>, x: i64)
    ensures
        selection_after_commit(t, mirrors(h) + entry_slots(vs, task), x) <==> (0 <= x < h && selected_ids(t).contains(
            x,
        )) || (h <= x < h + vs.len()),
{
    let slots = mirrors(h) + entry_slots(vs, task);
    if 0 <= x < h {
        assert(slots[x as int] == SlotModel::Mirror(x as nat));
    } else if h <= x < h + vs.len() {
        assert(slots[x as int] == entry_slot(vs[x - h], task));
    }
}

// ---------------------------------------------------------------------------
// The tree side
// ---------------------------------------------------------------------------

/// The context tree client, seen from the history.
#[derive(Debug)]
pub struct ContextTreeState<M> {
    client: ContextTreeClient<M>,
}

impl<M> ContextTreeState<M> {
    /// The client's invariant.
    pub closed spec fn inv(&self) -> bool {
        self.client.inv()
    }

    /// The recorder as plain values.
    pub closed spec fn recorder_view(&self) -> RecorderModel {
        self.client.recorder_view()
    }

    /// The cache as plain values.
    pub closed spec fn cache_view(&self) -> CacheModel {
        self.client.cache_view()
    }

    /// The model that long summaries are asked of, if any.
    pub closed spec fn stored_model(&self) -> Option<M> {
        self.client.stored_model()
    }

    /// Whether long summaries are asked of a model.
    pub open spec fn uses_model(&self) -> bool {
        self.stored_model() is Some
    }

    /// A tree client with nothing recorded.
    pub fn new(context_model: Option<M>) -> (s: Self)
        ensures
            s.inv(),
            s.recorder_view().slots.len() == 0,
            s.recorder_view().history_len == 0,
            s.cache_view().entries == Map::<i64, crate::cache::EntryModel>::empty(),
            s.cache_view().tree == crate::cache::empty_tree(),
            s.stored_model() == context_model,
            in_step(s.cache_view(), s.recorder_view()),
    {
        let client = ContextTreeClient::new(context_model);
        proof {
            assert(mirrors(0) =~= Seq::<SlotModel>::empty());
        }
        ContextTreeState { client }
    }

    /// The model that long summaries are asked of, if any.
    pub fn context_model(&self) -> (m: Option<&M>)
        ensures
            match (m, self.stored_model()) {
                (Some(a), Some(b)) => *a == b,
                (None, None) => true,
                _ => false,
            },
    {
        self.client.summarizer().model()
    }

    /// Records that `item` was inserted at `index` of the history.
    pub fn record_insert(&mut self, index: usize, item: &ResponseItem, task_id: Option<&str>)
        requires
            old(self).inv(),
            index <= old(self).recorder_view().slots.len(),
        ensures
            final(self).inv(),
            final(self).recorder_view() == (RecorderModel {
                history_len: old(self).recorder_view().history_len,
                slots: old(self).recorder_view().slots.insert(
                    index as int,
                    entry_slot(
                        item@,
                        match task_id {
                            Some(t) => Some(t@),
                            None => None,
                        },
                    ),
                ),
            }),
            final(self).cache_view() == old(self).cache_view(),
            final(self).stored_model() == old(self).stored_model(),
    {
        let payload = build_entry_payload(item);
        let labels = build_entry_labels(item, task_id);
        self.client.recorder().insert(index, labels, payload);
    }

    /// Records that the entry at `index` of the history was removed.
    pub fn record_remove(&mut self, index: usize)
        requires
            old(self).inv(),
            index < old(self).recorder_view().slots.len(),
        ensures
            final(self).inv(),
            final(self).recorder_view() == (RecorderModel {
                history_len: old(self).recorder_view().history_len,
                slots: old(self).recorder_view().slots.remove(index as int),
            }),
            final(self).cache_view() == old(self).cache_view(),
            final(self).stored_model() == old(self).stored_model(),
    {
        self.client.recorder().remove(index);
    }

    /// The history indices of the selected entries.
    pub fn selected_entry_ids(&self) -> (ids: Vec<i64>)
        ensures
            ids@ == selected_ids(self.cache_view().tree),
    {
        self.client.cache().selected()
    }

    /// The indices of the entries in the committed cache, in increasing order.
    pub fn cached_entry_ids(&self) -> (ids: Vec<i64>)
        ensures
            ids@.to_set() == self.cache_view().entries.dom(),
    {
        self.client.cache().entry_ids()
    }

    /// The tree as shown to a user.
    pub fn prompt_tree(&self) -> (t: PromptContextTree)
        ensures
            t@ == shown(self.cache_view().tree),
    {
        build_prompt_context_tree(self.client.cache().tree())
    }

    /// Flips the selection of the listed ids.
    pub fn toggle_selected(&mut self, ids: &[String])
        requires
            old(self).inv(),
        ensures
            final(self).inv(),
            final(self).cache_view() == (CacheModel {
                tree: toggled_selected(old(self).cache_view().tree, views(ids@)),
                ..old(self).cache_view()
            }),
            final(self).recorder_view() == old(self).recorder_view(),
            final(self).stored_model() == old(self).stored_model(),
            in_step(old(self).cache_view(), old(self).recorder_view()) ==> in_step(
                final(self).cache_view(),
                final(self).recorder_view(),
            ),
    {
        self.client.toggle_selected(ids);
    }

    /// Flips the collapse state of the listed ids.
    pub fn toggle_collapsed(&mut self, ids: &[String])
        requires
            old(self).inv(),
        ensures
            final(self).inv(),
            final(self).cache_view() == (CacheModel {
                tree: toggled_collapsed(old(self).cache_view().tree, views(ids@)),
                ..old(self).cache_view()
            }),
            final(self).recorder_view() == old(self).recorder_view(),
            final(self).stored_model() == old(self).stored_model(),
            in_step(old(self).cache_view(), old(self).recorder_view()) ==> in_step(
                final(self).cache_view(),
                final(self).recorder_view(),
            ),
    {
        self.client.toggle_collapsed(ids);
    }

    /// Commits the recorder into the cache and summarizes with no model
    /// reply at hand; returns the text whose summary the model is to give,
    /// if one is needed.
    pub fn commit(&mut self) -> (pending: Option<String>)
        requires
            old(self).inv(),
        ensures
            final(self).inv(),
            final(self).recorder_view() == (RecorderModel {
                history_len: old(self).recorder_view().slots.len(),
                slots: mirrors(old(self).recorder_view().slots.len()),
            }),
            final(self).stored_model() == old(self).stored_model(),
            commit_mutations(old(self).recorder_view()).len() == 0 ==> final(self).cache_view()
                == old(self).cache_view() && pending is None,
            commit_mutations(old(self).recorder_view()).len() > 0 ==> ({
                let c1 = applied(old(self).cache_view(), commit_mutations(old(self).recorder_view()));
                match summarized_tree(c1.tree, c1.entries, Seq::empty(), old(self).uses_model()) {
                    Ok(t) => pending is None && final(self).cache_view() == (CacheModel { tree: t, ..c1 }),
                    Err(c) => pending matches Some(p) && p@ == c && final(self).cache_view() == c1,
                }
            }),
            in_step(old(self).cache_view(), old(self).recorder_view()) && old(self).recorder_view().slots.len()
                <= i64::MAX ==> in_step(final(self).cache_view(), final(self).recorder_view()) && forall|x: i64|
                #[trigger] selected_ids(final(self).cache_view().tree).contains(x) <==> selection_after_commit(
                    old(self).cache_view().tree,
                    old(self).recorder_view().slots,
                    x,
                ),
    {
        self.client.commit_history_mutation()
    }

    /// Goes on with a summary pass, given the model's replies so far.
    pub fn resume_summary(&mut self, replies: &Vec<String>) -> (pending: Option<String>)
        requires
            old(self).inv(),
        ensures
            final(self).inv(),
            final(self).recorder_view() == old(self).recorder_view(),
            final(self).stored_model() == old(self).stored_model(),
            match summarized_tree(
                old(self).cache_view().tree,
                old(self).cache_view().entries,
                views(replies@),
                old(self).uses_model(),
            ) {
                Ok(t) => pending is None && final(self).cache_view() == (CacheModel {
                    tree: t,
                    ..old(self).cache_view()
                }),
                Err(c) => pending matches Some(p) && p@ == c && final(self).cache_view()
                    == old(self).cache_view(),
            },
            in_step(old(self).cache_view(), old(self).recorder_view()) ==> in_step(
                final(self).cache_view(),
                final(self).recorder_view(),
            ) && forall|x: i64| #[trigger]
                selected_ids(final(self).cache_view().tree).contains(x) <==> selected_ids(
                    old(self).cache_view().tree,
                ).contains(x),
    {
        self.client.resume_summary(replies)
    }
}

// ---------------------------------------------------------------------------
// The history
// ---------------------------------------------------------------------------

/// The conversation history, oldest item first, with the context tree that
/// mirrors it.
#[derive(Debug)]
pub struct ContextManager<M> {
    items: Vec<ResponseItem>,
    tree: ContextTreeState<M>,
    current_task_id: Option<String>,
}

impl<M> Default for ContextManager<M> {
    /// An empty history with no model for summaries.
    fn default() -> (h: Self)
        ensures
            h.inv(),
            h.items_view() == Seq::<ItemView>::empty(),
            h.recorder_view() == (RecorderModel { history_len: 0, slots: Seq::empty() }),
            h.cache_view() == (CacheModel { entries: Map::empty(), tree: crate::cache::empty_tree() }),
            h.task() is None,
            h.stored_model() is None,
            in_step(h.cache_view(), h.recorder_view()),
    {
        Self::new()
    }
}

impl<M> ContextManager<M> {
    /// The history's invariant: the tree client's, and a pending slot of the
    /// recorder for each item.
    pub closed spec fn inv(&self) -> bool {
        self.tree.inv() && self.tree.recorder_view().slots.len() == self.items@.len() && mirrored(
            self.tree.recorder_view().slots,
            item_views(self.items@),
        )
    }

    /// The items, oldest first.
    pub closed spec fn items_view(&self) -> Seq<ItemView> {
        item_views(self.items@)
    }

    /// The recorder as plain values.
    pub closed spec fn recorder_view(&self) -> RecorderModel {
        self.tree.recorder_view()
    }

    /// The cache as plain values.
    pub closed spec fn cache_view(&self) -> CacheModel {
        self.tree.cache_view()
    }

    /// The task that the items are being recorded for.
    pub closed spec fn task(&self) -> Option<Seq<char>> {
        task_view(self.current_task_id)
    }

    /// The model that long summaries are asked of, if any.
    pub closed spec fn stored_model(&self) -> Option<M> {
        self.tree.stored_model()
    }

    /// Whether long summaries are asked of a model.
    pub open spec fn uses_model(&self) -> bool {
        self.stored_model() is Some
    }

    /// The recorder is always told what the items are: it has one pending
    /// slot per item, and each slot inserted since the last commit carries
    /// the payload of the item at its index.
    pub proof fn lemma_recorder_mirrors_items(&self)
        requires
            self.inv(),
        ensures
            mirrored(self.recorder_view().slots, self.items_view()),
    {
    }

    /// An empty history with no model for summaries.
    pub fn new() -> (h: Self)
        ensures
            h.inv(),
            h.items_view() == Seq::<ItemView>::empty(),
            h.recorder_view() == (RecorderModel { history_len: 0, slots: Seq::empty() }),
            h.cache_view() == (CacheModel { entries: Map::empty(), tree: crate::cache::empty_tree() }),
            h.task() is None,
            h.stored_model() is None,
            in_step(h.cache_view(), h.recorder_view()),
    {
        Self::with_context_model(None)
    }

    /// An empty history, whose tree asks `context_model`, where there is
    /// one, for long summaries.
    pub fn with_context_model(context_model: Option<M>) -> (h: Self)
        ensures
            h.inv(),
            h.items_view() == Seq::<ItemView>::empty(),
            h.recorder_view() == (RecorderModel { history_len: 0, slots: Seq::empty() }),
            h.cache_view() == (CacheModel { entries: Map::empty(), tree: crate::cache::empty_tree() }),
            h.task() is None,
            h.stored_model() == context_model,
            in_step(h.cache_view(), h.recorder_view()),
    {
        let h = ContextManager {
            items: Vec::new(),
            tree: ContextTreeState::new(context_model),
            current_task_id: None,
        };
        proof {
            assert(h.items_view() =~= Seq::<ItemView>::empty());
            assert(h.recorder_view().slots =~= Seq::<SlotModel>::empty());
        }
        h
    }

    /// Records `items`, oldest first, for the task `task_id`: each API
    /// message and ghost snapshot is appended and mirrored into the tree's
    /// recorder; the other items are skipped. Items are stored as given:
    /// tool outputs are not truncated here, so the caller truncates them to
    /// its budget first.
    pub fn record_items(&mut self, items: Vec<ResponseItem>, task_id: Option<&str>)
        requires
            old(self).inv(),
        ensures
            final(self).inv(),
            final(self).task() == match task_id {
                Some(t) => Some(t@),
                None => None,
            },
            final(self).items_view() == old(self).items_view() + recorded_items(item_views(items@)),
            final(self).recorder_view() == (RecorderModel {
                history_len: old(self).recorder_view().history_len,
                slots: old(self).recorder_view().slots + entry_slots(
                    recorded_items(item_views(items@)),
                    final(self).task(),
                ),
            }),
            final(self).cache_view() == old(self).cache_view(),
            final(self).stored_model() == old(self).stored_model(),
    {
        self.current_task_id = match task_id {
            Some(id) => Some(copy_str(id)),
            None => None,
        };
        let ghost task = self.task();
        let ghost all = item_views(items@);
        let ghost old_items = item_views(self.items@);
        let ghost old_slots = self.tree.recorder_view().slots;
        let mut i: usize = 0;
        while i < items.len()
            invariant
                0 <= i <= items@.len(),
                all == item_views(items@),
                self.tree.inv(),
                self.tree.recorder_view().slots.len() == self.items@.len(),
                task == self.task(),
                item_views(self.items@) == old_items + recorded_items(all.take(i as int)),
                self.tree.recorder_view() == (RecorderModel {
                    history_len: old(self).recorder_view().history_len,
                    slots: old_slots + entry_slots(recorded_items(all.take(i as int)), task),
                }),
                self.tree.cache_view() == old(self).cache_view(),
                self.tree.stored_model() == old(self).stored_model(),
            decreases items.len() - i,
        {
            let item = &items[i];
            let is_ghost_snapshot = match item {
                ResponseItem::GhostSnapshot => true,
                _ => false,
            };
            proof {
                assert(all.take(i + 1).drop_last() =~= all.take(i as int));
                assert(all.take(i + 1).last() == item@);
            }
            if is_api_message(item) || is_ghost_snapshot {
                let index = self.items.len();
                let task_ref = match &self.current_task_id {
                    Some(t) => Some(t.as_str()),
                    None => None,
                };
                proof {
                    assert(match task_ref {
                        Some(t) => Some(t@),
                        None => None,
                    } == task);
                }
                let ghost slots_before = self.tree.recorder_view().slots;
                self.tree.record_insert(index, item, task_ref);
                let ghost before = self.items@;
                self.items.push(copy_item(item));
                proof {
                    assert(slots_before.insert(index as int, entry_slot(item@, task)) =~= slots_before.push(
                        entry_slot(item@, task),
                    ));
                    let r = recorded_items(all.take(i as int));
                    assert(recorded_items(all.take(i + 1)) == r + seq![item@]);
                    assert(item_views(self.items@) =~= item_views(before).push(item@));
                    assert(entry_slots(r + seq![item@], task) =~= entry_slots(r, task).push(entry_slot(item@, task)));
                    assert(old_slots + entry_slots(r, task) + seq![entry_slot(item@, task)] =~= old_slots
                        + entry_slots(r, task).push(entry_slot(item@, task)));
                }
            } else {
                proof {
                    assert(recorded_items(all.take(i + 1)) =~= recorded_items(all.take(i as int)));
                }
            }
            i += 1;
        }
        proof {
            assert(all.take(items@.len() as int) =~= all);
        }
    }

    /// Adds the missing call outputs and drops the orphan outputs, mirroring
    /// each edit into the recorder.
    fn normalize_history(&mut self)
        requires
            old(self).inv(),
            old(self).items_view().len() * 2 <= usize::MAX,
        ensures
            final(self).inv(),
            final(self).items_view() == normalized(old(self).items_view()),
            final(self).recorder_view() == (RecorderModel {
                history_len: old(self).recorder_view().history_len,
                slots: removes_applied(
                    inserts_applied(
                        old(self).recorder_view().slots,
                        output_inserts(old(self).items_view(), old(self).items_view().len()),
                        old(self).task(),
                    ),
                    orphan_removals(
                        with_outputs(old(self).items_view(), old(self).items_view().len()),
                        with_outputs(old(self).items_view(), old(self).items_view().len()).len(),
                    ),
                ),
            }),
            final(self).cache_view() == old(self).cache_view(),
            final(self).task() == old(self).task(),
            final(self).stored_model() == old(self).stored_model(),
    {
        let ghost all = item_views(self.items@);
        let ghost n = all.len();
        let ghost task = self.task();
        let ghost old_slots = self.tree.recorder_view().slots;
        proof {
            crate::normalize::lemma_output_inserts_bounds(all, n);
        }
        let inserts = ensure_call_outputs_present(&mut self.items);
        let ghost events = insert_views(inserts@);
        let mut t: usize = 0;
        while t < inserts.len()
            invariant
                0 <= t <= inserts@.len(),
                events == insert_views(inserts@),
                events == output_inserts(all, n),
                item_views(self.items@) == with_outputs(all, n),
                with_outputs(all, n).len() == n + events.len(),
                forall|q: int| 0 <= q < events.len() ==> (#[trigger] events[q]).0 <= n,
                self.tree.inv(),
                task == self.task(),
                self.tree.recorder_view().slots.len() == n + t,
                self.tree.recorder_view() == (RecorderModel {
                    history_len: old(self).recorder_view().history_len,
                    slots: inserts_applied(old_slots, events.take(t as int), task),
                }),
                self.tree.cache_view() == old(self).cache_view(),
                self.tree.stored_model() == old(self).stored_model(),
            decreases inserts.len() - t,
        {
            let (idx, item) = (&inserts[t].0, &inserts[t].1);
            proof {
                assert(events[t as int] == (*idx as nat, item@));
                assert(events.take(t + 1).drop_last() =~= events.take(t as int));
            }
            let task_ref = match &self.current_task_id {
                Some(s) => Some(s.as_str()),
                None => None,
            };
            self.tree.record_insert(*idx, item, task_ref);
            t += 1;
        }
        proof {
            assert(events.take(inserts@.len() as int) =~= events);
        }
        let ghost r = item_views(self.items@);
        let ghost mid_slots = self.tree.recorder_view().slots;
        proof {
            crate::normalize::lemma_orphan_removals_bounds(r, r.len());
        }
        let removed = remove_orphan_outputs(&mut self.items);
        let ghost positions = removed@.map_values(|i: usize| i as nat);
        let mut u: usize = 0;
        while u < removed.len()
            invariant
                0 <= u <= removed@.len(),
                positions == removed@.map_values(|i: usize| i as nat),
                positions == orphan_removals(r, r.len()),
                item_views(self.items@) == without_orphans(r, r.len()),
                positions.len() + without_orphans(r, r.len()).len() == r.len(),
                forall|q: int| 0 <= q < positions.len() ==> #[trigger] positions[q] + q < r.len(),
                self.tree.inv(),
                task == self.task(),
                self.tree.recorder_view().slots.len() == r.len() - u,
                self.tree.recorder_view() == (RecorderModel {
                    history_len: old(self).recorder_view().history_len,
                    slots: removes_applied(mid_slots, positions.take(u as int)),
                }),
                self.tree.cache_view() == old(self).cache_view(),
                self.tree.stored_model() == old(self).stored_model(),
            decreases removed.len() - u,
        {
            let p = removed[u];
            proof {
                assert(positions[u as int] == p as nat);
                assert(positions.take(u + 1).drop_last() =~= positions.take(u as int));
            }
            self.tree.record_remove(p);
            u += 1;
        }
        proof {
            assert(positions.take(removed@.len() as int) =~= positions);
            lemma_mirrored_inserts(old_slots, all, events, task);
            lemma_output_inserts_replay(all, n, all);
            assert(all.skip(n as int) =~= Seq::<ItemView>::empty());
            assert(with_outputs(all, n) + all.skip(n as int) =~= r);
            lemma_mirrored_removes(mid_slots, r, positions);
            lemma_orphan_removals_replay(r, r.len(), r);
            assert(r.skip(r.len() as int) =~= Seq::<ItemView>::empty());
            assert(without_orphans(r, r.len()) + r.skip(r.len() as int) =~= without_orphans(r, r.len()));
        }
    }

    /// The history, normalized first: every call with its output and every
    /// output with its call.
    pub fn get_history(&mut self) -> (h: Vec<ResponseItem>)
        requires
            old(self).inv(),
            old(self).items_view().len() * 2 <= usize::MAX,
        ensures
            final(self).inv(),
            item_views(h@) == normalized(old(self).items_view()),
            final(self).items_view() == normalized(old(self).items_view()),
            final(self).recorder_view() == (RecorderModel {
                history_len: old(self).recorder_view().history_len,
                slots: removes_applied(
                    inserts_applied(
                        old(self).recorder_view().slots,
                        output_inserts(old(self).items_view(), old(self).items_view().len()),
                        old(self).task(),
                    ),
                    orphan_removals(
                        with_outputs(old(self).items_view(), old(self).items_view().len()),
                        with_outputs(old(self).items_view(), old(self).items_view().len()).len(),
                    ),
                ),
            }),
            final(self).cache_view() == old(self).cache_view(),
            final(self).task() == old(self).task(),
            final(self).stored_model() == old(self).stored_model(),
    {
        self.normalize_history();
        self.contents()
    }

    /// A copy of the items.
    fn contents(&self) -> (h: Vec<ResponseItem>)
        ensures
            item_views(h@) == self.items_view(),
    {
        copy_items(&self.items)
    }

    /// The estimated length, in bytes of text, of the encrypted reasoning
    /// recorded before the last message from the user: the sum, never above
    /// `usize::MAX`, of the estimates of each such item; 0 where the user
    /// never spoke.
    pub fn non_last_reasoning_length(&self) -> (n: usize)
        ensures
            n == non_last_reasoning_length(self.items_view()),
    {
        let ghost h = self.items_view();
        let mut k: usize = self.items.len();
        let mut found = false;
        assert(h.take(k as int) =~= h);
        while k > 0
            invariant_except_break
                k <= h.len(),
                h == item_views(self.items@),
                last_user_index(h) == last_user_index(h.take(k as int)),
                !found,
            invariant
                k <= h.len(),
            ensures
                found ==> (k < h.len() && last_user_index(h) == k),
                !found ==> last_user_index(h) == -1,
            decreases k,
        {
            proof {
                assert(h.take(k as int).drop_last() =~= h.take(k - 1));
                assert(h.take(k as int).last() == h[k - 1]);
            }
            let is_user = match &self.items[k - 1] {
                ResponseItem::Message { role, .. } => crate::text::str_eq(role.as_str(), "user"),
                _ => false,
            };
            proof {
                reveal_strlit("user");
            }
            if is_user {
                k = k - 1;
                found = true;
                break;
            }
            k = k - 1;
        }
        proof {
            if !found {
                assert(h.take(0) =~= Seq::<ItemView>::empty());
            }
        }
        if !found {
            return 0;
        }
        let mut total: usize = 0;
        let mut i: usize = 0;
        while i < k
            invariant
                i <= k,
                k < h.len(),
                h == item_views(self.items@),
                total == (if reasoning_total(h.take(i as int)) > usize::MAX {
                    usize::MAX as nat
                } else {
                    reasoning_total(h.take(i as int))
                }),
            decreases k - i,
        {
            proof {
                assert(h.take(i + 1).drop_last() =~= h.take(i as int));
                assert(h.take(i + 1).last() == h[i as int]);
            }
            let add = match &self.items[i] {
                ResponseItem::Reasoning { encrypted_content: Some(e), .. } => {
                    crate::items::estimate_reasoning_length(e.as_str().len())
                },
                _ => 0,
            };
            assert(add == item_reasoning_length(h[i as int]));
            total = total.saturating_add(add);
            i += 1;
        }
        total
    }

    /// Drops the ghost snapshots of `items`.
    fn remove_ghost_snapshots(items: &mut Vec<ResponseItem>)
        ensures
            item_views(final(items)@) == without_ghosts(item_views(old(items)@)),
    {
        let ghost all = item_views(items@);
        let mut rest: Vec<ResponseItem> = Vec::new();
        std::mem::swap(&mut rest, items);
        let n = rest.len();
        let mut kept: Vec<ResponseItem> = Vec::new();
        let mut i: usize = 0;
        assert(item_views(rest@) =~= all.skip(0));
        while i < n
            invariant
                0 <= i <= n,
                n == all.len(),
                rest@.len() == n - i,
                item_views(rest@) == all.skip(i as int),
                item_views(kept@) == without_ghosts(all.take(i as int)),
            decreases n - i,
        {
            let ghost before = rest@;
            let ghost kept_before = kept@;
            let x = rest.remove(0);
            proof {
                assert(item_views(before)[0] == all[i as int]);
                assert(x@ == all[i as int]);
                assert(item_views(rest@) =~= all.skip(i + 1)) by {
                    assert forall|k: int| 0 <= k < rest@.len() implies #[trigger] item_views(rest@)[k] == all.skip(i + 1)[k] by {
                        assert(rest@[k] == before[k + 1]);
                        assert(item_views(before)[k + 1] == all.skip(i as int)[k + 1]);
                    }
                }
                assert(all.take(i + 1).drop_last() =~= all.take(i as int));
                assert(all.take(i + 1).last() == all[i as int]);
            }
            let is_ghost = match &x {
                ResponseItem::GhostSnapshot => true,
                _ => false,
            };
            if !is_ghost {
                kept.push(x);
                proof {
                    assert(item_views(kept@) =~= item_views(kept_before).push(all[i as int]));
                }
            } else {
                proof {
                    assert(without_ghosts(all.take(i + 1)) =~= without_ghosts(all.take(i as int)));
                }
            }
            i += 1;
        }
        assert(all.take(n as int) =~= all);
        *items = kept;
    }

    /// The history for the next prompt: normalized, then only the items the
    /// user checked (their entry in the committed cache is selected) and
    /// the items recorded since the last commit (no entry yet; they count
    /// as selected), in order and without ghost snapshots. An unchecked item
    /// is never sent.
    pub fn get_history_for_prompt(&mut self) -> (h: Vec<ResponseItem>)
        requires
            old(self).inv(),
            old(self).items_view().len() * 2 <= usize::MAX,
        ensures
            final(self).inv(),
            item_views(h@) == prompt_history(
                normalized(old(self).items_view()),
                selected_ids(old(self).cache_view().tree),
                old(self).cache_view().entries.dom(),
            ),
            final(self).items_view() == normalized(old(self).items_view()),
            final(self).cache_view() == old(self).cache_view(),
            final(self).task() == old(self).task(),
            final(self).stored_model() == old(self).stored_model(),
    {
        let mut history = self.get_history();
        let selected = self.tree.selected_entry_ids();
        let cached = self.tree.cached_entry_ids();
        let ghost cset = cached@.to_set();
        {
            let ghost all = item_views(history@);
            let mut rest: Vec<ResponseItem> = Vec::new();
            std::mem::swap(&mut rest, &mut history);
            let n = rest.len();
            let mut kept: Vec<ResponseItem> = Vec::new();
            let mut i: usize = 0;
            assert(item_views(rest@) =~= all.skip(0));
            while i < n
                invariant
                    0 <= i <= n,
                    n == all.len(),
                    rest@.len() == n - i,
                    item_views(rest@) == all.skip(i as int),
                    item_views(kept@) == chosen_items(all.take(i as int), selected@, cset),
                    cset == cached@.to_set(),
                decreases n - i,
            {
                let ghost before = rest@;
                let ghost kept_before = kept@;
                let x = rest.remove(0);
                proof {
                    assert(item_views(before)[0] == all[i as int]);
                    assert(x@ == all[i as int]);
                    assert(item_views(rest@) =~= all.skip(i + 1)) by {
                        assert forall|k: int| 0 <= k < rest@.len() implies #[trigger] item_views(rest@)[k] == all.skip(i + 1)[k] by {
                            assert(rest@[k] == before[k + 1]);
                            assert(item_views(before)[k + 1] == all.skip(i as int)[k + 1]);
                        }
                    }
                    assert(all.take(i + 1).drop_last() =~= all.take(i as int));
                    assert(all.take(i + 1).last() == all[i as int]);
                    assert(all.take(i + 1).len() - 1 == i);
                }
                let idx = i as i64;
                let mut found = false;
                let mut j: usize = 0;
                while j < selected.len()
                    invariant
                        0 <= j <= selected@.len(),
                        found == exists|q: int| 0 <= q < j && selected@[q] == idx,
                    decreases selected.len() - j,
                {
                    if selected[j] == idx {
                        found = true;
                    }
                    j += 1;
                }
                proof {
                    assert(found == selected@.contains(idx));
                }
                let mut in_cache = false;
                let mut j: usize = 0;
                while j < cached.len()
                    invariant
                        0 <= j <= cached@.len(),
                        in_cache == exists|q: int| 0 <= q < j && cached@[q] == idx,
                    decreases cached.len() - j,
                {
                    if cached[j] == idx {
                        in_cache = true;
                    }
                    j += 1;
                }
                proof {
                    assert(in_cache == cached@.contains(idx));
                    assert(cached@.contains(idx) == cset.contains(idx));
                }
                if found || !in_cache {
                    kept.push(x);
                    proof {
                        assert(item_views(kept@) =~= item_views(kept_before).push(all[i as int]));
                    }
                } else {
                    proof {
                        assert(chosen_items(all.take(i + 1), selected@, cset) =~= chosen_items(all.take(i as int), selected@, cset));
                    }
                }
                i += 1;
            }
            assert(all.take(n as int) =~= all);
            history = kept;
        }
        Self::remove_ghost_snapshots(&mut history);
        history
    }

    /// Removes the oldest item, and the output of its call or the call of
    /// its output if there is one, mirroring both removes into the recorder.
    pub fn remove_first_item(&mut self)
        requires
            old(self).inv(),
        ensures
            final(self).inv(),
            old(self).items_view().len() == 0 ==> final(self).items_view() == old(self).items_view()
                && final(self).recorder_view() == old(self).recorder_view(),
            old(self).items_view().len() > 0 ==> ({
                let rest = old(self).items_view().remove(0);
                let slots = old(self).recorder_view().slots.remove(0);
                match counterpart(rest, old(self).items_view()[0]) {
                    Some(p) => final(self).items_view() == rest.remove(p) && final(self).recorder_view()
                        == (RecorderModel { slots: slots.remove(p), ..old(self).recorder_view() }),
                    None => final(self).items_view() == rest && final(self).recorder_view() == (
                    RecorderModel { slots, ..old(self).recorder_view() }),
                }
            }),
            final(self).cache_view() == old(self).cache_view(),
            final(self).task() == old(self).task(),
            final(self).stored_model() == old(self).stored_model(),
    {
        if self.items.len() > 0 {
            let ghost before = self.items@;
            let removed = self.items.remove(0);
            proof {
                assert(item_views(self.items@) =~= item_views(before).remove(0));
                assert(removed@ == item_views(before)[0]);
            }
            self.tree.record_remove(0);
            let ghost mid = self.items@;
            match remove_corresponding_for(&mut self.items, &removed) {
                Some(index) => {
                    proof {
                        assert(index < mid.len());
                    }
                    self.tree.record_remove(index);
                    proof {
                        assert(item_views(self.items@).len() == self.items@.len());
                    }
                },
                None => {},
            }
        }
    }

    /// Replaces the whole history by `items`, with no task: every entry is
    /// reported removed, then each new item inserted.
    pub fn replace(&mut self, items: Vec<ResponseItem>)
        requires
            old(self).inv(),
        ensures
            final(self).inv(),
            final(self).items_view() == item_views(items@),
            final(self).task() is None,
            final(self).recorder_view() == (RecorderModel {
                history_len: old(self).recorder_view().history_len,
                slots: entry_slots(item_views(items@), None),
            }),
            final(self).cache_view() == old(self).cache_view(),
            final(self).stored_model() == old(self).stored_model(),
    {
        let previous_len = self.items.len();
        self.items.clear();
        self.current_task_id = None;
        let ghost old_slots = self.tree.recorder_view().slots;
        assert(old_slots.skip(0) =~= old_slots);
        let mut k: usize = 0;
        while k < previous_len
            invariant
                0 <= k <= previous_len,
                old_slots.len() == previous_len,
                self.items@.len() == 0,
                self.current_task_id is None,
                self.tree.inv(),
                self.tree.recorder_view() == (RecorderModel {
                    history_len: old(self).recorder_view().history_len,
                    slots: old_slots.skip(k as int),
                }),
                self.tree.cache_view() == old(self).cache_view(),
                self.tree.stored_model() == old(self).stored_model(),
            decreases previous_len - k,
        {
            self.tree.record_remove(0);
            proof {
                assert(old_slots.skip(k as int).remove(0) =~= old_slots.skip(k + 1));
            }
            k += 1;
        }
        let ghost all = item_views(items@);
        let mut i: usize = 0;
        assert(self.tree.recorder_view().slots =~= Seq::<SlotModel>::empty());
        assert(entry_slots(all.take(0), None) =~= Seq::<SlotModel>::empty());
        assert(item_views(self.items@) =~= Seq::<ItemView>::empty());
        while i < items.len()
            invariant
                0 <= i <= items@.len(),
                all == item_views(items@),
                self.current_task_id is None,
                self.tree.inv(),
                item_views(self.items@) == all.take(i as int),
                self.tree.recorder_view() == (RecorderModel {
                    history_len: old(self).recorder_view().history_len,
                    slots: entry_slots(all.take(i as int), None),
                }),
                self.tree.cache_view() == old(self).cache_view(),
                self.tree.stored_model() == old(self).stored_model(),
            decreases items.len() - i,
        {
            let index = self.items.len();
            proof {
                assert(index == i);
            }
            self.tree.record_insert(index, &items[i], None);
            let ghost before = self.items@;
            self.items.push(copy_item(&items[i]));
            proof {
                assert(item_views(self.items@) =~= all.take(i + 1));
                assert(entry_slots(all.take(i as int), None).insert(i as int, entry_slot(all[i as int], None))
                    =~= entry_slots(all.take(i + 1), None));
            }
            i += 1;
        }
        assert(all.take(items@.len() as int) =~= all);
    }

    /// Commits the recorded mutations into the tree (only at turn and task
    /// boundaries), summarizing with no model reply at hand; returns the text
    /// whose summary the model is to give, if one is needed.
    pub fn commit_context_tree(&mut self) -> (pending: Option<String>)
        requires
            old(self).inv(),
        ensures
            final(self).inv(),
            final(self).items_view() == old(self).items_view(),
            final(self).recorder_view() == (RecorderModel {
                history_len: old(self).recorder_view().slots.len(),
                slots: mirrors(old(self).recorder_view().slots.len()),
            }),
            final(self).task() == old(self).task(),
            final(self).stored_model() == old(self).stored_model(),
            commit_mutations(old(self).recorder_view()).len() == 0 ==> final(self).cache_view()
                == old(self).cache_view() && pending is None,
            commit_mutations(old(self).recorder_view()).len() > 0 ==> ({
                let c1 = applied(old(self).cache_view(), commit_mutations(old(self).recorder_view()));
                match summarized_tree(c1.tree, c1.entries, Seq::empty(), old(self).uses_model()) {
                    Ok(t) => pending is None && final(self).cache_view() == (CacheModel { tree: t, ..c1 }),
                    Err(c) => pending matches Some(p) && p@ == c && final(self).cache_view() == c1,
                }
            }),
            in_step(old(self).cache_view(), old(self).recorder_view()) && old(self).recorder_view().slots.len()
                <= i64::MAX ==> in_step(final(self).cache_view(), final(self).recorder_view()) && forall|x: i64|
                #[trigger] selected_ids(final(self).cache_view().tree).contains(x) <==> selection_after_commit(
                    old(self).cache_view().tree,
                    old(self).recorder_view().slots,
                    x,
                ),
    {
        self.tree.commit()
    }

    /// Goes on with the summary pass of a commit, given the summaries that
    /// the model gave so far (each resolved by `resolve_model_reply`), in the
    /// order in which they were asked for.
    pub fn resume_context_summary(&mut self, replies: &Vec<String>) -> (pending: Option<String>)
        requires
            old(self).inv(),
        ensures
            final(self).inv(),
            final(self).items_view() == old(self).items_view(),
            final(self).recorder_view() == old(self).recorder_view(),
            final(self).task() == old(self).task(),
            final(self).stored_model() == old(self).stored_model(),
            match summarized_tree(
                old(self).cache_view().tree,
                old(self).cache_view().entries,
                views(replies@),
                old(self).uses_model(),
            ) {
                Ok(t) => pending is None && final(self).cache_view() == (CacheModel {
                    tree: t,
                    ..old(self).cache_view()
                }),
                Err(c) => pending matches Some(p) && p@ == c && final(self).cache_view()
                    == old(self).cache_view(),
            },
            in_step(old(self).cache_view(), old(self).recorder_view()) ==> in_step(
                final(self).cache_view(),
                final(self).recorder_view(),
            ) && forall|x: i64| #[trigger]
                selected_ids(final(self).cache_view().tree).contains(x) <==> selected_ids(
                    old(self).cache_view().tree,
                ).contains(x),
    {
        self.tree.resume_summary(replies)
    }

    /// The model that long summaries are asked of, if any.
    pub fn context_model(&self) -> (m: Option<&M>)
        ensures
            match (m, self.stored_model()) {
                (Some(a), Some(b)) => *a == b,
                (None, None) => true,
                _ => false,
            },
    {
        self.tree.context_model()
    }

    /// The tree as shown to a user.
    pub fn context_tree(&self) -> (t: PromptContextTree)
        ensures
            t@ == shown(self.cache_view().tree),
    {
        self.tree.prompt_tree()
    }

    /// Applies a user's toggles, in order.
    pub fn apply_context_actions(&mut self, actions: &[PromptContextActions])
        requires
            old(self).inv(),
        ensures
            final(self).inv(),
            final(self).cache_view() == (CacheModel {
                tree: actions_applied(old(self).cache_view().tree, actions@),
                ..old(self).cache_view()
            }),
            final(self).items_view() == old(self).items_view(),
            final(self).recorder_view() == old(self).recorder_view(),
            final(self).task() == old(self).task(),
            final(self).stored_model() == old(self).stored_model(),
            in_step(old(self).cache_view(), old(self).recorder_view()) ==> in_step(
                final(self).cache_view(),
                final(self).recorder_view(),
            ),
    {
        let mut i: usize = 0;
        while i < actions.len()
            invariant
                0 <= i <= actions@.len(),
                self.inv(),
                in_step(old(self).cache_view(), old(self).recorder_view()) ==> in_step(
                    self.cache_view(),
                    self.recorder_view(),
                ),
                self.cache_view() == (CacheModel {
                    tree: actions_applied(old(self).cache_view().tree, actions@.take(i as int)),
                    ..old(self).cache_view()
                }),
                self.items_view() == old(self).items_view(),
                self.recorder_view() == old(self).recorder_view(),
                self.task() == old(self).task(),
                self.stored_model() == old(self).stored_model(),
            decreases actions.len() - i,
        {
            let action = &actions[i];
            proof {
                assert(actions@.take(i + 1).drop_last() =~= actions@.take(i as int));
                assert(actions@.take(i + 1).last() == *action);
            }
            if action.toggle_selected.len() > 0 {
                self.tree.toggle_selected(action.toggle_selected.as_slice());
            }
            if action.toggle_collapsed.len() > 0 {
                self.tree.toggle_collapsed(action.toggle_collapsed.as_slice());
            }
            i += 1;
        }
        assert(actions@.take(actions@.len() as int) =~= actions@);
    }
}

/// Whether an item is a message from the assistant.
pub open spec fn is_assistant_message(v: ItemView) -> bool {
    v matches ItemView::Message { role, .. } && role == "assistant"@
}

/// The last assistant message among `done`, if there is one.
pub open spec fn final_assistant_message(done: Seq<ItemView>) -> Option<ItemView>
    decreases done.len(),
{
    if done.len() == 0 {
        None
    } else if is_assistant_message(done.last()) {
        Some(done.last())
    } else {
        final_assistant_message(done.drop_last())
    }
}

/// The summary a model's reply gives, from the output items it finished in
/// order: the body of the assistant's final message. A reply with no
/// assistant message gives none, and the summarizer then keeps the
/// combined text.
pub fn summary_reply(done: &Vec<ResponseItem>) -> (r: Option<String>)
    ensures
        match (r, final_assistant_message(item_views(done@))) {
            (Some(t), Some(m)) => t@ == body_of(m),
            (None, None) => true,
            _ => false,
        },
{
    let ghost all = item_views(done@);
    let mut i: usize = done.len();
    assert(all.take(i as int) =~= all);
    while i > 0
        invariant
            0 <= i <= done@.len(),
            all == item_views(done@),
            final_assistant_message(all) == final_assistant_message(all.take(i as int)),
        decreases i,
    {
        let item = &done[i - 1];
        assert(item@ == all[i - 1]);
        assert(all.take(i as int).last() == all[i - 1]);
        assert(all.take(i as int).drop_last() =~= all.take(i - 1));
        let is_assistant = match item {
            ResponseItem::Message { role, .. } => crate::text::str_eq(role.as_str(), "assistant"),
            _ => false,
        };
        if is_assistant {
            return Some(entry_body(item));
        }
        i -= 1;
    }
    assert(all.take(0) =~= Seq::<ItemView>::empty());
    None
}

} // verus!

