//! The history mutation recorder: it mirrors the edits made to an ordered
//! history and, on commit, reports them as index changes, inserts and removes.
use std::collections::HashSet;
use vstd::prelude::*;

use crate::text::views;

verus! {

broadcast use vstd::std_specs::hash::group_hash_axioms;

/// Who produced a recorded entry.
#[derive(Clone, Copy, Debug, PartialEq, Eq, Structural)]
pub enum EntryRole {
    User,
    Assistant,
    Tool,
    Other,
}

/// Minimal payload describing a recorded entry: its role, a title and a body.
#[derive(Clone, Debug)]
pub struct EntryPayload {
    pub role: EntryRole,
    pub title: String,
    pub body: String,
}

/// The payload as plain values.
pub struct PayloadModel {
    pub role: EntryRole,
    pub title: Seq<char>,
    pub body: Seq<char>,
}

impl View for EntryPayload {
    type V = PayloadModel;

    open spec fn view(&self) -> PayloadModel {
        PayloadModel { role: self.role, title: self.title@, body: self.body@ }
    }
}

impl EntryPayload {
    /// A payload with the given role, title and body.
    pub fn new(role: EntryRole, title: String, body: String) -> (p: Self)
        ensures
            p@ == (PayloadModel { role, title: title@, body: body@ }),
    {
        EntryPayload { role, title, body }
    }

    /// A copy of this payload.
    pub fn copy(&self) -> (p: Self)
        ensures
            p@ == self@,
    {
        EntryPayload { role: self.role, title: self.title.clone(), body: self.body.clone() }
    }
}

/// A copy of a list of labels.
pub fn copy_labels(labels: &Vec<String>) -> (r: Vec<String>)
    ensures
        views(r@) == views(labels@),
{
    let mut r: Vec<String> = Vec::new();
    let mut i: usize = 0;
    while i < labels.len()
        invariant
            0 <= i <= labels@.len(),
            views(r@) == views(labels@).take(i as int),
        decreases labels.len() - i,
    {
        let ghost before = r@;
        let c = labels[i].clone();
        r.push(c);
        proof {
            assert(r@ == before.push(c));
            assert(c@ == labels@[i as int]@);
            assert(views(r@) =~= views(before).push(c@));
            assert(views(labels@).take(i + 1) =~= views(labels@).take(i as int).push(labels@[i as int]@));
        }
        i += 1;
    }
    assert(views(labels@).take(labels@.len() as int) =~= views(labels@));
    r
}

/// One slot of the pending history: an entry that was already there (at
/// `original_index`), or one inserted since the last commit.
#[derive(Clone, Debug)]
enum MutatedEntry {
    Mirror { original_index: usize },
    Inserted { labels: Vec<String>, payload: EntryPayload },
}

/// A slot of the pending history, as plain values.
pub enum SlotModel {
    Mirror(nat),
    Inserted(Seq<Seq<char>>, PayloadModel),
}

impl View for MutatedEntry {
    type V = SlotModel;

    closed spec fn view(&self) -> SlotModel {
        match self {
            MutatedEntry::Mirror { original_index } => SlotModel::Mirror(*original_index as nat),
            MutatedEntry::Inserted { labels, payload } => SlotModel::Inserted(
                views(labels@),
                payload@,
            ),
        }
    }
}

/// Describes a mutation applied to the ordered history vector.
#[derive(Clone, Debug)]
pub enum HistoryMutation {
    IndexChange { old_index: usize, new_index: usize },
    Insert { index: usize, labels: Vec<String>, payload: EntryPayload },
    Remove { index: usize },
}

/// A mutation as plain values.
pub enum MutationModel {
    IndexChange(nat, nat),
    Insert(nat, Seq<Seq<char>>, PayloadModel),
    Remove(nat),
}

impl View for HistoryMutation {
    type V = MutationModel;

    open spec fn view(&self) -> MutationModel {
        match self {
            HistoryMutation::IndexChange { old_index, new_index } => MutationModel::IndexChange(
                *old_index as nat,
                *new_index as nat,
            ),
            HistoryMutation::Insert { index, labels, payload } => MutationModel::Insert(
                *index as nat,
                views(labels@),
                payload@,
            ),
            HistoryMutation::Remove { index } => MutationModel::Remove(*index as nat),
        }
    }
}

/// The views of a list of mutations.
pub open spec fn mutation_views(v: Seq<HistoryMutation>) -> Seq<MutationModel> {
    v.map_values(|m: HistoryMutation| m@)
}

/// Collects incoming mutations until callers decide to commit them to the cache.
#[derive(Debug)]
pub struct HistoryMutationRecorder {
    current_history_len: usize,
    mutated_history: Vec<MutatedEntry>,
}

/// The recorder as plain values: the length of the history at the last
/// commit, and the pending history.
pub struct RecorderModel {
    pub history_len: nat,
    pub slots: Seq<SlotModel>,
}

/// The pending history of `n` untouched entries.
pub open spec fn mirrors(n: nat) -> Seq<SlotModel> {
    Seq::new(n, |i: int| SlotModel::Mirror(i as nat))
}

/// Whether the entry at `original` in the committed history is still in `slots`.
pub open spec fn has_mirror(slots: Seq<SlotModel>, original: nat) -> bool {
    exists|i: int| 0 <= i < slots.len() && slots[i] == SlotModel::Mirror(original)
}

/// The mutation that slot `i` of the pending history reports, if any: a
/// moved entry reports an index change, an inserted one an insert.
pub open spec fn slot_mutation(slots: Seq<SlotModel>, i: int) -> Seq<MutationModel> {
    match slots[i] {
        SlotModel::Mirror(o) => if o != i {
            seq![MutationModel::IndexChange(o, i as nat)]
        } else {
            Seq::empty()
        },
        SlotModel::Inserted(labels, payload) => seq![
            MutationModel::Insert(i as nat, labels, payload),
        ],
    }
}

/// The index changes and inserts of the first `n` slots, in slot order.
pub open spec fn slot_mutations(slots: Seq<SlotModel>, n: nat) -> Seq<MutationModel>
    decreases n,
{
    if n == 0 {
        Seq::empty()
    } else {
        slot_mutations(slots, (n - 1) as nat) + slot_mutation(slots, n - 1)
    }
}

/// The removes for the committed entries `0..n` that no slot keeps, in index order.
pub open spec fn removals(slots: Seq<SlotModel>, n: nat) -> Seq<MutationModel>
    decreases n,
{
    if n == 0 {
        Seq::empty()
    } else {
        removals(slots, (n - 1) as nat) + if has_mirror(slots, (n - 1) as nat) {
            Seq::empty()
        } else {
            seq![MutationModel::Remove((n - 1) as nat)]
        }
    }
}

/// What a commit of `r` reports: index changes and inserts in slot order,
/// then removes in index order.
pub open spec fn commit_mutations(r: RecorderModel) -> Seq<MutationModel> {
    slot_mutations(r.slots, r.slots.len()) + removals(r.slots, r.history_len)
}

impl View for HistoryMutationRecorder {
    type V = RecorderModel;

    closed spec fn view(&self) -> RecorderModel {
        RecorderModel {
            history_len: self.current_history_len as nat,
            slots: self.mutated_history@.map_values(|e: MutatedEntry| e@),
        }
    }
}

/// The recorder's invariant: every slot that mirrors a committed entry names
/// a distinct index below the committed length.
pub open spec fn recorder_wf(r: RecorderModel) -> bool {
    &&& forall|i: int|
        0 <= i < r.slots.len() ==> match #[trigger] r.slots[i] {
            SlotModel::Mirror(o) => o < r.history_len,
            _ => true,
        }
    &&& forall|i: int, j: int|
        0 <= i < r.slots.len() && 0 <= j < r.slots.len() && i != j && (#[trigger] r.slots[i]) is Mirror
            ==> r.slots[i] != #[trigger] r.slots[j]
}

impl HistoryMutationRecorder {
    /// The recorder's invariant: every kept entry names a distinct index of
    /// the committed history.
    #[verifier::type_invariant]
    spec fn well_formed(self) -> bool {
        recorder_wf(self@)
    }

    /// A recorder for a history of `history_len` entries, none mutated yet.
    pub fn new(history_len: usize) -> (r: Self)
        ensures
            r@ == (RecorderModel { history_len: history_len as nat, slots: mirrors(history_len as nat) }),
            recorder_wf(r@),
    {
        let mut mutated_history: Vec<MutatedEntry> = Vec::new();
        let mut index: usize = 0;
        while index < history_len
            invariant
                0 <= index <= history_len,
                mutated_history@.map_values(|e: MutatedEntry| e@) =~= mirrors(index as nat),
            decreases history_len - index,
        {
            let ghost before = mutated_history@;
            mutated_history.push(MutatedEntry::Mirror { original_index: index });
            proof {
                assert(mutated_history@.map_values(|e: MutatedEntry| e@) =~= before.map_values(
                    |e: MutatedEntry| e@,
                ).push(SlotModel::Mirror(index as nat)));
            }
            index += 1;
        }
        HistoryMutationRecorder { current_history_len: history_len, mutated_history }
    }

    /// The number of entries of the pending history.
    pub fn pending_len(&self) -> (n: usize)
        ensures
            n == self@.slots.len(),
    {
        self.mutated_history.len()
    }

    /// Records that a new entry was inserted at `index` of the history.
    pub fn insert(&mut self, index: usize, labels: Vec<String>, payload: EntryPayload)
        requires
            index <= old(self)@.slots.len(),
        ensures
            final(self)@ == (RecorderModel {
                history_len: old(self)@.history_len,
                slots: old(self)@.slots.insert(
                    index as int,
                    SlotModel::Inserted(views(labels@), payload@),
                ),
            }),
            recorder_wf(final(self)@),
    {
        proof {
            use_type_invariant(&*self);
        }
        let ghost old_slots = self@.slots;
        let ghost h = self@.history_len;
        let mut v: Vec<MutatedEntry> = Vec::new();
        std::mem::swap(&mut v, &mut self.mutated_history);
        assert(v@.map_values(|e: MutatedEntry| e@) == old_slots);
        v.insert(index, MutatedEntry::Inserted { labels, payload });
        proof {
            let s = v@.map_values(|e: MutatedEntry| e@);
            assert(s =~= old_slots.insert(index as int, SlotModel::Inserted(views(labels@), payload@)));
            assert forall|i: int, j: int|
                0 <= i < s.len() && 0 <= j < s.len() && i != j && (#[trigger] s[i]) is Mirror
                implies s[i] != #[trigger] s[j] by {
                if j != index {
                    let oi = if i < index { i } else { i - 1 };
                    let oj = if j < index { j } else { j - 1 };
                    assert(s[i] == old_slots[oi]);
                    assert(s[j] == old_slots[oj]);
                }
            }
            assert forall|i: int| 0 <= i < s.len() implies match #[trigger] s[i] {
                SlotModel::Mirror(o) => o < h,
                _ => true,
            } by {
                if i != index {
                    let oi = if i < index { i } else { i - 1 };
                    assert(s[i] == old_slots[oi]);
                }
            }
            assert(recorder_wf(RecorderModel { history_len: h, slots: s }));
        }
        std::mem::swap(&mut v, &mut self.mutated_history);
    }

    /// Records that the entry at `index` of the history was removed.
    pub fn remove(&mut self, index: usize)
        requires
            index < old(self)@.slots.len(),
        ensures
            final(self)@ == (RecorderModel {
                history_len: old(self)@.history_len,
                slots: old(self)@.slots.remove(index as int),
            }),
            recorder_wf(final(self)@),
    {
        proof {
            use_type_invariant(&*self);
        }
        let ghost old_slots = self@.slots;
        let ghost h = self@.history_len;
        let mut v: Vec<MutatedEntry> = Vec::new();
        std::mem::swap(&mut v, &mut self.mutated_history);
        assert(v@.map_values(|e: MutatedEntry| e@) == old_slots);
        v.remove(index);
        proof {
            let s = v@.map_values(|e: MutatedEntry| e@);
            assert(s =~= old_slots.remove(index as int));
            assert forall|i: int, j: int|
                0 <= i < s.len() && 0 <= j < s.len() && i != j && (#[trigger] s[i]) is Mirror
                implies s[i] != #[trigger] s[j] by {
                let oi = if i < index { i } else { i + 1 };
                let oj = if j < index { j } else { j + 1 };
                assert(s[i] == old_slots[oi]);
                assert(s[j] == old_slots[oj]);
            }
            assert forall|i: int| 0 <= i < s.len() implies match #[trigger] s[i] {
                SlotModel::Mirror(o) => o < h,
                _ => true,
            } by {
                let oi = if i < index { i } else { i + 1 };
                assert(s[i] == old_slots[oi]);
            }
            assert(recorder_wf(RecorderModel { history_len: h, slots: s }));
        }
        std::mem::swap(&mut v, &mut self.mutated_history);
    }

    /// Records that the entry at `index` was replaced by a new one: a remove
    /// followed by an insert at the same index.
    pub fn replace(&mut self, index: usize, labels: Vec<String>, payload: EntryPayload)
        requires
            index < old(self)@.slots.len(),
        ensures
            final(self)@ == (RecorderModel {
                history_len: old(self)@.history_len,
                slots: old(self)@.slots.update(
                    index as int,
                    SlotModel::Inserted(views(labels@), payload@),
                ),
            }),
            recorder_wf(final(self)@),
    {
        let ghost old_slots = self@.slots;
        let ghost lv = views(labels@);
        let ghost pv = payload@;
        self.remove(index);
        self.insert(index, labels, payload);
        proof {
            assert(old_slots.remove(index as int).insert(index as int, SlotModel::Inserted(lv, pv))
                =~= old_slots.update(index as int, SlotModel::Inserted(lv, pv)));
        }
    }

    /// Forgets the pending history: every entry reads as removed until new
    /// ones are inserted.
    pub fn clear(&mut self)
        ensures
            final(self)@ == (RecorderModel {
                history_len: old(self)@.history_len,
                slots: Seq::empty(),
            }),
            recorder_wf(final(self)@),
    {
        self.mutated_history = Vec::new();
        assert(self@.slots =~= Seq::<SlotModel>::empty());
    }

    /// Reports the mutations since the last commit (index changes and inserts
    /// in pending order, then removes in index order), and starts anew from
    /// the pending history, all of whose entries are then untouched.
    pub fn commit(&mut self) -> (mutations: Vec<HistoryMutation>)
        ensures
            mutation_views(mutations@) == commit_mutations(old(self)@),
            final(self)@ == (RecorderModel {
                history_len: old(self)@.slots.len(),
                slots: mirrors(old(self)@.slots.len()),
            }),
            recorder_wf(final(self)@),
    {
        let ghost slots = self@.slots;
        let mut mutations: Vec<HistoryMutation> = Vec::new();
        let mut original_indices: HashSet<usize> = HashSet::new();
        let n = self.mutated_history.len();
        let mut index: usize = 0;
        while index < n
            invariant
                0 <= index <= n,
                n == self.mutated_history@.len(),
                slots == self@.slots,
                mutation_views(mutations@) == slot_mutations(slots, index as nat),
                forall|o: usize|
                    original_indices@.contains(o) <==> exists|i: int|
                        0 <= i < index && slots[i] == SlotModel::Mirror(o as nat),
            decreases n - index,
        {
            let ghost before = mutations@;
            match &self.mutated_history[index] {
                MutatedEntry::Mirror { original_index } => {
                    let o = *original_index;
                    original_indices.insert(o);
                    if o != index {
                        mutations.push(HistoryMutation::IndexChange { old_index: o, new_index: index });
                    }
                },
                MutatedEntry::Inserted { labels, payload } => {
                    mutations.push(
                        HistoryMutation::Insert {
                            index,
                            labels: copy_labels(labels),
                            payload: payload.copy(),
                        },
                    );
                },
            }
            proof {
                assert(slots[index as int] == self.mutated_history@[index as int]@);
                assert(mutation_views(mutations@) =~= slot_mutations(slots, index as nat)
                    + slot_mutation(slots, index as int));
                assert forall|o: usize|
                    original_indices@.contains(o) <==> exists|i: int|
                        0 <= i < index + 1 && slots[i] == SlotModel::Mirror(o as nat) by {
                    if exists|i: int| 0 <= i < index + 1 && slots[i] == SlotModel::Mirror(o as nat) {
                        let i = choose|i: int|
                            0 <= i < index + 1 && slots[i] == SlotModel::Mirror(o as nat);
                        if i < index {
                        }
                    }
                }
            }
            index += 1;
        }
        let ghost first = mutations@;
        let len = self.current_history_len;
        let mut original_index: usize = 0;
        while original_index < len
            invariant
                0 <= original_index <= len,
                len == self@.history_len,
                n == slots.len(),
                slots == self@.slots,
                mutation_views(first) == slot_mutations(slots, n as nat),
                mutations@.len() >= first.len(),
                mutations@.subrange(0, first.len() as int) == first,
                mutation_views(mutations@.subrange(first.len() as int, mutations@.len() as int))
                    == removals(slots, original_index as nat),
                forall|o: usize|
                    original_indices@.contains(o) <==> exists|i: int|
                        0 <= i < n && slots[i] == SlotModel::Mirror(o as nat),
            decreases len - original_index,
        {
            let ghost before = mutations@;
            if !original_indices.contains(&original_index) {
                mutations.push(HistoryMutation::Remove { index: original_index });
            }
            proof {
                assert(has_mirror(slots, original_index as nat) == original_indices@.contains(
                    original_index,
                ));
                assert(mutations@.subrange(0, first.len() as int) =~= first);
                if has_mirror(slots, original_index as nat) {
                    assert(mutations@ == before);
                    assert(mutation_views(mutations@.subrange(first.len() as int, mutations@.len() as int))
                        =~= removals(slots, (original_index + 1) as nat));
                } else {
                    assert(mutation_views(mutations@.subrange(first.len() as int, mutations@.len() as int))
                        =~= mutation_views(before.subrange(first.len() as int, before.len() as int))
                        + seq![MutationModel::Remove(original_index as nat)]);
                }
            }
            original_index += 1;
        }
        proof {
            assert(mutations@ =~= first + mutations@.subrange(first.len() as int, mutations@.len() as int));
            assert(mutation_views(mutations@) =~= mutation_views(first) + mutation_views(
                mutations@.subrange(first.len() as int, mutations@.len() as int),
            ));
        }
        self.reset_mutated_history(n);
        mutations
    }

    /// Resets the recorder to a history of `history_len` untouched entries.
    fn reset_mutated_history(&mut self, history_len: usize)
        ensures
            final(self)@ == (RecorderModel {
                history_len: history_len as nat,
                slots: mirrors(history_len as nat),
            }),
            recorder_wf(final(self)@),
    {
        *self = Self::new(history_len);
    }
}

impl Clone for HistoryMutationRecorder {
    /// A recorder with the same committed length and pending history.
    fn clone(&self) -> (r: Self)
        ensures
            r@ == self@,
    {
        proof {
            use_type_invariant(self);
        }
        let mut v: Vec<MutatedEntry> = Vec::new();
        let mut i: usize = 0;
        while i < self.mutated_history.len()
            invariant
                0 <= i <= self.mutated_history@.len(),
                v@.map_values(|e: MutatedEntry| e@) =~= self@.slots.take(i as int),
            decreases self.mutated_history.len() - i,
        {
            let e = match &self.mutated_history[i] {
                MutatedEntry::Mirror { original_index } => MutatedEntry::Mirror { original_index: *original_index },
                MutatedEntry::Inserted { labels, payload } => MutatedEntry::Inserted {
                    labels: copy_labels(labels),
                    payload: payload.copy(),
                },
            };
            let ghost before = v@;
            assert(e@ == self.mutated_history@[i as int]@);
            v.push(e);
            proof {
                assert(v@.map_values(|e: MutatedEntry| e@) =~= before.map_values(|e: MutatedEntry| e@).push(e@));
                assert(self@.slots.take(i + 1) =~= self@.slots.take(i as int).push(self@.slots[i as int]));
            }
            i += 1;
        }
        assert(self@.slots.take(self@.slots.len() as int) =~= self@.slots);
        HistoryMutationRecorder { current_history_len: self.current_history_len, mutated_history: v }
    }
}

impl Default for HistoryMutationRecorder {
    fn default() -> (r: Self)
        ensures
            r@ == (RecorderModel { history_len: 0, slots: Seq::empty() }),
    {
        let r = Self::new(0);
        assert(mirrors(0) =~= Seq::<SlotModel>::empty());
        r
    }
}


proof fn lemma_mirrors_move_nothing(n: nat, k: nat)
    requires
        k <= n,
    ensures
        slot_mutations(mirrors(n), k) == Seq::<MutationModel>::empty(),
    decreases k,
{
    if k > 0 {
        lemma_mirrors_move_nothing(n, (k - 1) as nat);
        assert(mirrors(n)[k - 1] == SlotModel::Mirror((k - 1) as nat));
        assert(slot_mutations(mirrors(n), k) =~= Seq::<MutationModel>::empty());
    }
}

proof fn lemma_mirrors_remove_nothing(n: nat, k: nat)
    requires
        k <= n,
    ensures
        removals(mirrors(n), k) == Seq::<MutationModel>::empty(),
    decreases k,
{
    if k > 0 {
        lemma_mirrors_remove_nothing(n, (k - 1) as nat);
        assert(mirrors(n)[k - 1] == SlotModel::Mirror((k - 1) as nat));
        assert(has_mirror(mirrors(n), (k - 1) as nat));
        assert(removals(mirrors(n), k) =~= Seq::<MutationModel>::empty());
    }
}

/// A commit right after a commit reports nothing: the pending history that a
/// commit starts from keeps every entry where it was.
pub proof fn lemma_commit_after_commit_is_empty(n: nat)
    ensures
        commit_mutations(RecorderModel { history_len: n, slots: mirrors(n) }) == Seq::<MutationModel>::empty(),
{
    lemma_mirrors_move_nothing(n, n);
    lemma_mirrors_remove_nothing(n, n);
    assert(commit_mutations(RecorderModel { history_len: n, slots: mirrors(n) }) =~= Seq::<MutationModel>::empty());
}

/// After `clear`, a commit removes every entry of the committed history, in
/// index order, and reports nothing else.
pub proof fn lemma_commit_after_clear_removes_all(h: nat)
    ensures
        commit_mutations(RecorderModel { history_len: h, slots: Seq::empty() }) == Seq::new(
            h,
            |i: int| MutationModel::Remove(i as nat),
        ),
    decreases h,
{
    let r = RecorderModel { history_len: h, slots: Seq::<SlotModel>::empty() };
    assert(slot_mutations(r.slots, 0) == Seq::<MutationModel>::empty());
    if h > 0 {
        lemma_commit_after_clear_removes_all((h - 1) as nat);
        assert(!has_mirror(r.slots, (h - 1) as nat));
        assert(removals(r.slots, h) =~= removals(r.slots, (h - 1) as nat) + seq![MutationModel::Remove((h - 1) as nat)]);
        assert(commit_mutations(RecorderModel { history_len: (h - 1) as nat, slots: Seq::empty() }) =~= removals(r.slots, (h - 1) as nat));
    }
    assert(commit_mutations(r) =~= Seq::new(h, |i: int| MutationModel::Remove(i as nat)));
}

/// Removing at an index right after inserting there gives back the pending
/// history.
pub proof fn lemma_remove_undoes_insert(r: RecorderModel, index: int, slot: SlotModel)
    requires
        0 <= index <= r.slots.len(),
    ensures
        r.slots.insert(index, slot).remove(index) == r.slots,
{
    assert(r.slots.insert(index, slot).remove(index) =~= r.slots);
}

/// A replace at an index is a remove there followed by an insert there.
pub proof fn lemma_replace_is_remove_then_insert(r: RecorderModel, index: int, slot: SlotModel)
    requires
        0 <= index < r.slots.len(),
    ensures
        r.slots.update(index, slot) == r.slots.remove(index).insert(index, slot),
{
    assert(r.slots.update(index, slot) =~= r.slots.remove(index).insert(index, slot));
}

/// The pending position a mutation is about: the new index of an index
/// change, the index of an insert, the index of a remove.
pub open spec fn mutation_position(m: MutationModel) -> nat {
    match m {
        MutationModel::IndexChange(_, n) => n,
        MutationModel::Insert(i, _, _) => i,
        MutationModel::Remove(i) => i,
    }
}

/// Whether `m` is what slot `i` of `slots` reports.
pub open spec fn reported_by_slot(slots: Seq<SlotModel>, i: int, m: MutationModel) -> bool {
    match m {
        MutationModel::IndexChange(o, n) => n == i && slots[i] == SlotModel::Mirror(o) && o != i,
        MutationModel::Insert(n, labels, payload) => n == i && slots[i] == SlotModel::Inserted(labels, payload),
        MutationModel::Remove(_) => false,
    }
}

proof fn lemma_slot_mutations_shape(s: Seq<SlotModel>, n: nat)
    requires
        n <= s.len(),
    ensures
        forall|j: int| 0 <= j < slot_mutations(s, n).len() ==> reported_by_slot(
            s,
            mutation_position(#[trigger] slot_mutations(s, n)[j]) as int,
            slot_mutations(s, n)[j],
        ) && mutation_position(slot_mutations(s, n)[j]) < n,
        forall|a: int, b: int|
            0 <= a < b < slot_mutations(s, n).len() ==> mutation_position(#[trigger] slot_mutations(s, n)[a])
                < mutation_position(#[trigger] slot_mutations(s, n)[b]),
        forall|i: int, m: MutationModel| 0 <= i < n && #[trigger] reported_by_slot(s, i, m) ==> slot_mutations(
            s,
            n,
        ).contains(m),
    decreases n,
{
    if n > 0 {
        let k = (n - 1) as nat;
        lemma_slot_mutations_shape(s, k);
        let p = slot_mutations(s, k);
        let x = slot_mutation(s, k as int);
        let q = slot_mutations(s, n);
        assert(q == p + x);
        assert forall|j: int| 0 <= j < x.len() implies reported_by_slot(s, mutation_position(#[trigger] x[j]) as int, x[j])
            && mutation_position(x[j]) == k by {}
        assert forall|j: int| 0 <= j < q.len() implies reported_by_slot(
            s,
            mutation_position(#[trigger] q[j]) as int,
            q[j],
        ) && mutation_position(q[j]) < n by {
            if j < p.len() {
                assert(q[j] == p[j]);
            } else {
                assert(q[j] == x[j - p.len()]);
            }
        }
        assert forall|a: int, b: int| 0 <= a < b < q.len() implies mutation_position(#[trigger] q[a])
            < mutation_position(#[trigger] q[b]) by {
            if b < p.len() {
                assert(q[a] == p[a] && q[b] == p[b]);
            } else if a < p.len() {
                assert(q[a] == p[a] && q[b] == x[b - p.len()]);
            } else {
                assert(x.len() <= 1);
            }
        }
        assert forall|i: int, m: MutationModel| 0 <= i < n && #[trigger] reported_by_slot(s, i, m) implies q.contains(m) by {
            if i < k {
                assert(p.contains(m));
                let j = choose|j: int| 0 <= j < p.len() && p[j] == m;
                assert(q[j] == m);
            } else {
                assert(x =~= seq![m]);
                assert(q[p.len() as int] == m);
            }
        }
    }
}

proof fn lemma_removals_shape(s: Seq<SlotModel>, n: nat)
    ensures
        forall|j: int| 0 <= j < removals(s, n).len() ==> (#[trigger] removals(s, n)[j]) is Remove
            && removals(s, n)[j]->Remove_0 < n && !has_mirror(s, removals(s, n)[j]->Remove_0),
        forall|a: int, b: int|
            0 <= a < b < removals(s, n).len() ==> (#[trigger] removals(s, n)[a])->Remove_0 < (
            #[trigger] removals(s, n)[b])->Remove_0,
        forall|o: nat| o < n && !has_mirror(s, o) ==> #[trigger] removals(s, n).contains(MutationModel::Remove(o)),
    decreases n,
{
    if n > 0 {
        let k = (n - 1) as nat;
        lemma_removals_shape(s, k);
        let p = removals(s, k);
        let q = removals(s, n);
        if has_mirror(s, k) {
            assert(q =~= p);
            assert forall|o: nat| o < n && !has_mirror(s, o) implies #[trigger] q.contains(MutationModel::Remove(o)) by {
                assert(o != k);
                assert(p.contains(MutationModel::Remove(o)));
            }
        } else {
            assert(q == p + seq![MutationModel::Remove(k)]);
            assert forall|j: int| 0 <= j < q.len() implies (#[trigger] q[j]) is Remove && q[j]->Remove_0 < n
                && !has_mirror(s, q[j]->Remove_0) by {
                if j < p.len() {
                    assert(q[j] == p[j]);
                }
            }
            assert forall|a: int, b: int| 0 <= a < b < q.len() implies (#[trigger] q[a])->Remove_0 < (
            #[trigger] q[b])->Remove_0 by {
                assert(q[a] == p[a]);
                if b < p.len() {
                    assert(q[b] == p[b]);
                }
            }
            assert forall|o: nat| o < n && !has_mirror(s, o) implies #[trigger] q.contains(MutationModel::Remove(o)) by {
                if o < k {
                    assert(p.contains(MutationModel::Remove(o)));
                    let j = choose|j: int| 0 <= j < p.len() && p[j] == MutationModel::Remove(o);
                    assert(q[j] == MutationModel::Remove(o));
                } else {
                    assert(q[p.len() as int] == MutationModel::Remove(o));
                }
            }
        }
    }
}

/// A commit reports exactly: an index change from `o` to `i` for each slot
/// `i` that keeps the committed index `o != i`; an insert at `i` for each
/// slot `i` inserted since the last commit; a remove of `o` for each
/// committed index `o` that no slot keeps; and nothing else.
pub proof fn lemma_commit_reports_exactly(r: RecorderModel, m: MutationModel)
    requires
        recorder_wf(r),
    ensures
        commit_mutations(r).contains(m) <==> match m {
            MutationModel::IndexChange(o, i) => i < r.slots.len() && r.slots[i as int] == SlotModel::Mirror(o) && o != i,
            MutationModel::Insert(i, labels, payload) => i < r.slots.len() && r.slots[i as int]
                == SlotModel::Inserted(labels, payload),
            MutationModel::Remove(o) => o < r.history_len && !has_mirror(r.slots, o),
        },
{
    let s = r.slots;
    let a = slot_mutations(s, s.len());
    let b = removals(s, r.history_len);
    lemma_slot_mutations_shape(s, s.len());
    lemma_removals_shape(s, r.history_len);
    let ms = commit_mutations(r);
    assert(ms == a + b);
    if ms.contains(m) {
        let j = choose|j: int| 0 <= j < ms.len() && ms[j] == m;
        if j < a.len() {
            assert(a[j] == m);
        } else {
            assert(b[j - a.len()] == m);
        }
    }
    match m {
        MutationModel::IndexChange(o, i) => {
            if i < s.len() && s[i as int] == SlotModel::Mirror(o) && o != i {
                assert(reported_by_slot(s, i as int, m));
                let j = choose|j: int| 0 <= j < a.len() && a[j] == m;
                assert(ms[j] == m);
            }
        },
        MutationModel::Insert(i, labels, payload) => {
            if i < s.len() && s[i as int] == SlotModel::Inserted(labels, payload) {
                assert(reported_by_slot(s, i as int, m));
                let j = choose|j: int| 0 <= j < a.len() && a[j] == m;
                assert(ms[j] == m);
            }
        },
        MutationModel::Remove(o) => {
            if o < r.history_len && !has_mirror(s, o) {
                assert(b.contains(m));
                let j = choose|j: int| 0 <= j < b.len() && b[j] == m;
                assert(ms[a.len() + j] == m);
            }
        },
    }
}

/// A commit reports the index changes and inserts first, in increasing order
/// of their pending position, then the removes, in increasing order of
/// index; no two index changes move one committed index, and no removed
/// index is also moved.
pub proof fn lemma_commit_order(r: RecorderModel)
    requires
        recorder_wf(r),
    ensures
        ({
            let ms = commit_mutations(r);
            let k = slot_mutations(r.slots, r.slots.len()).len();
            &&& k <= ms.len()
            &&& forall|j: int| 0 <= j < k ==> !(#[trigger] ms[j] is Remove)
            &&& forall|j: int| k <= j < ms.len() ==> #[trigger] ms[j] is Remove
            &&& forall|a: int, b: int| 0 <= a < b < k ==> mutation_position(#[trigger] ms[a]) < mutation_position(
                #[trigger] ms[b],
            )
            &&& forall|a: int, b: int| k <= a < b < ms.len() ==> mutation_position(#[trigger] ms[a])
                < mutation_position(#[trigger] ms[b])
            &&& forall|a: int, b: int|
                0 <= a < ms.len() && 0 <= b < ms.len() && a != b && (#[trigger] ms[a]) is IndexChange && (
                #[trigger] ms[b]) is IndexChange ==> ms[a]->IndexChange_0 != ms[b]->IndexChange_0
            &&& forall|a: int, b: int|
                0 <= a < ms.len() && 0 <= b < ms.len() && (#[trigger] ms[a]) is IndexChange && (
                #[trigger] ms[b]) is Remove ==> ms[a]->IndexChange_0 != ms[b]->Remove_0
        }),
{
    let s = r.slots;
    let a = slot_mutations(s, s.len());
    let b = removals(s, r.history_len);
    lemma_slot_mutations_shape(s, s.len());
    lemma_removals_shape(s, r.history_len);
    let ms = commit_mutations(r);
    let k = a.len();
    assert(ms == a + b);
    assert forall|j: int| 0 <= j < k implies !(#[trigger] ms[j] is Remove) by {
        assert(ms[j] == a[j]);
        assert(reported_by_slot(s, mutation_position(a[j]) as int, a[j]));
    }
    assert forall|j: int| k <= j < ms.len() implies #[trigger] ms[j] is Remove by {
        assert(ms[j] == b[j - k]);
    }
    assert forall|x: int, y: int| 0 <= x < y < k implies mutation_position(#[trigger] ms[x]) < mutation_position(
        #[trigger] ms[y],
    ) by {
        assert(ms[x] == a[x] && ms[y] == a[y]);
    }
    assert forall|x: int, y: int| k <= x < y < ms.len() implies mutation_position(#[trigger] ms[x]) < mutation_position(
        #[trigger] ms[y],
    ) by {
        assert(ms[x] == b[x - k] && ms[y] == b[y - k]);
    }
    assert forall|x: int, y: int|
        0 <= x < ms.len() && 0 <= y < ms.len() && x != y && (#[trigger] ms[x]) is IndexChange && (
        #[trigger] ms[y]) is IndexChange implies ms[x]->IndexChange_0 != ms[y]->IndexChange_0 by {
        assert(x < k && y < k);
        assert(ms[x] == a[x] && ms[y] == a[y]);
        let px = mutation_position(a[x]) as int;
        let py = mutation_position(a[y]) as int;
        assert(reported_by_slot(s, px, a[x]) && reported_by_slot(s, py, a[y]));
        if x < y {
            assert(px < py);
        } else {
            assert(py < px);
        }
        assert(s[px] is Mirror);
    }
    assert forall|x: int, y: int|
        0 <= x < ms.len() && 0 <= y < ms.len() && (#[trigger] ms[x]) is IndexChange && (
        #[trigger] ms[y]) is Remove implies ms[x]->IndexChange_0 != ms[y]->Remove_0 by {
        assert(x < k);
        assert(ms[x] == a[x]);
        assert(ms[y] == b[y - k]);
        let px = mutation_position(a[x]) as int;
        assert(reported_by_slot(s, px, a[x]));
        assert(s[px] == SlotModel::Mirror(ms[x]->IndexChange_0));
        assert(has_mirror(s, ms[x]->IndexChange_0));
    }
}

} // verus!
