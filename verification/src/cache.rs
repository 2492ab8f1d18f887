//! The cache of recorded entries, keyed by history index, and the tree built
//! from their label chains.
use std::collections::BTreeMap;
use std::collections::HashMap;
use vstd::prelude::*;
use vstd::std_specs::btree::spec_keys_iter;
use vstd::std_specs::iter::IteratorSpec;

use crate::recorder::{
    copy_labels, mutation_views, EntryPayload, HistoryMutation, MutationModel, PayloadModel,
};
use crate::summarizer::{lemma_summarized_tree_wf, summarized_tree, ContextTreeSummarizer};
use crate::text::views;
use crate::tree::{
    inserted, lemma_models_of, new_model, node_id_of, removed, renamed, selected_ids,
    toggled_collapsed, toggled_selected, wf, ContextTree, ContextTreeNode, NodeModel,
};

verus! {

broadcast use {vstd::std_specs::btree::group_btree_axioms, vstd::std_specs::hash::group_hash_axioms};

/// A recorded entry: its history index, label chain and payload.
#[derive(Clone, Debug)]
pub struct CachedEntry {
    pub id: i64,
    pub labels: Vec<String>,
    pub payload: EntryPayload,
}

/// A recorded entry as plain values.
pub struct EntryModel {
    pub id: i64,
    pub labels: Seq<Seq<char>>,
    pub payload: PayloadModel,
}

impl View for CachedEntry {
    type V = EntryModel;

    open spec fn view(&self) -> EntryModel {
        EntryModel { id: self.id, labels: views(self.labels@), payload: self.payload@ }
    }
}

impl CachedEntry {
    /// A copy of this entry.
    pub fn copy(&self) -> (e: Self)
        ensures
            e@ == self@,
    {
        CachedEntry { id: self.id, labels: copy_labels(&self.labels), payload: self.payload.copy() }
    }
}

/// The views of the values of a map.
pub open spec fn entry_views(m: Map<i64, CachedEntry>) -> Map<i64, EntryModel> {
    m.map_values(|e: CachedEntry| e@)
}

/// The cache: the recorded entries by history index, and the context tree.
#[derive(Debug)]
pub struct ContextTreeCache {
    entries: BTreeMap<i64, CachedEntry>,
    tree: ContextTree,
}

/// The cache as plain values.
pub struct CacheModel {
    pub entries: Map<i64, EntryModel>,
    pub tree: NodeModel,
}

impl View for ContextTreeCache {
    type V = CacheModel;

    closed spec fn view(&self) -> CacheModel {
        CacheModel { entries: entry_views(self.entries@), tree: self.tree@ }
    }
}

/// Whether `s` is strictly increasing.
pub open spec fn increasing(s: Seq<i64>) -> bool {
    forall|i: int, j: int| 0 <= i < j < s.len() ==> s[i] < s[j]
}

/// The tree of an empty cache: a root node `root` with no labels.
pub open spec fn empty_tree() -> NodeModel {
    new_model(seq!['r', 'o', 'o', 't'], Seq::empty())
}


/// Puts `x` into the strictly increasing `v`, where it is not there yet.
fn insert_sorted(v: &mut Vec<i64>, x: i64)
    requires
        increasing(old(v)@),
    ensures
        increasing(final(v)@),
        final(v)@.to_set() == old(v)@.to_set().insert(x),
{
    let mut p: usize = 0;
    while p < v.len() && v[p] < x
        invariant
            0 <= p <= v@.len(),
            forall|j: int| 0 <= j < p ==> v@[j] < x,
        decreases v.len() - p,
    {
        p += 1;
    }
    if p < v.len() && v[p] == x {
        proof {
            assert(old(v)@.to_set().insert(x) =~= old(v)@.to_set());
        }
        return;
    }
    let ghost before = v@;
    v.insert(p, x);
    proof {
        assert(v@.to_set() =~= before.to_set().insert(x)) by {
            assert forall|y: i64| v@.to_set().contains(y) implies before.to_set().insert(x).contains(y) by {
                let j = choose|j: int| 0 <= j < v@.len() && v@[j] == y;
                if j < p {
                    assert(before[j] == y);
                } else if j > p {
                    assert(before[j - 1] == y);
                }
            }
            assert forall|y: i64| before.to_set().insert(x).contains(y) implies v@.to_set().contains(y) by {
                if y == x {
                    assert(v@[p as int] == x);
                } else {
                    let j = choose|j: int| 0 <= j < before.len() && before[j] == y;
                    if j < p {
                        assert(v@[j] == y);
                    } else {
                        assert(v@[j + 1] == y);
                    }
                }
            }
        }
        assert forall|a: int, b: int| 0 <= a < b < v@.len() implies v@[a] < v@[b] by {
            if b < p {
            } else if b == p {
            } else if a < p {
                assert(v@[b] == before[b - 1]);
                assert(before[p as int] > x);
            } else if a == p {
                assert(v@[b] == before[b - 1]);
                if b - 1 > p {
                    assert(before[p as int] < before[b - 1]);
                }
            } else {
            }
        }
    }
}


// ---------------------------------------------------------------------------
// Applying a batch of mutations
// ---------------------------------------------------------------------------

/// The leaf that the tree holds for an entry.
pub open spec fn leaf_for(e: EntryModel) -> NodeModel {
    new_model(node_id_of(e.id as int), e.labels)
}

/// The indices of the removes in `ms`, in order.
pub open spec fn removal_ids(ms: Seq<MutationModel>) -> Seq<i64>
    decreases ms.len(),
{
    if ms.len() == 0 {
        Seq::empty()
    } else {
        removal_ids(ms.drop_last()) + match ms.last() {
            MutationModel::Remove(i) => seq![i as i64],
            _ => Seq::empty(),
        }
    }
}

/// The index changes of `ms` as a map from old to new index (a later change
/// of the same index wins).
pub open spec fn change_map(ms: Seq<MutationModel>) -> Map<i64, i64>
    decreases ms.len(),
{
    if ms.len() == 0 {
        Map::empty()
    } else {
        match ms.last() {
            MutationModel::IndexChange(o, n) => change_map(ms.drop_last()).insert(o as i64, n as i64),
            _ => change_map(ms.drop_last()),
        }
    }
}

/// The entries that the inserts of `ms` add, in order.
pub open spec fn insert_list(ms: Seq<MutationModel>) -> Seq<EntryModel>
    decreases ms.len(),
{
    if ms.len() == 0 {
        Seq::empty()
    } else {
        insert_list(ms.drop_last()) + match ms.last() {
            MutationModel::Insert(i, labels, payload) => seq![
                EntryModel { id: i as i64, labels, payload },
            ],
            _ => Seq::empty(),
        }
    }
}

/// `es` without the keys `ids`.
pub open spec fn entries_without(es: Map<i64, EntryModel>, ids: Seq<i64>) -> Map<i64, EntryModel>
    decreases ids.len(),
{
    if ids.len() == 0 {
        es
    } else {
        entries_without(es, ids.drop_last()).remove(ids.last())
    }
}

/// `t` without the leaves of the indices `ids`, removed one after the other.
pub open spec fn tree_without(t: NodeModel, ids: Seq<i64>) -> NodeModel
    decreases ids.len(),
{
    if ids.len() == 0 {
        t
    } else {
        removed(tree_without(t, ids.drop_last()), node_id_of(ids.last() as int))
    }
}

/// `es` with the entries of `list` stored under their ids, one after the other.
pub open spec fn entries_with(es: Map<i64, EntryModel>, list: Seq<EntryModel>) -> Map<i64, EntryModel>
    decreases list.len(),
{
    if list.len() == 0 {
        es
    } else {
        entries_with(es, list.drop_last()).insert(list.last().id, list.last())
    }
}

/// `t` with the leaves of the entries of `list` inserted one after the other.
pub open spec fn tree_with(t: NodeModel, list: Seq<EntryModel>) -> NodeModel
    decreases list.len(),
{
    if list.len() == 0 {
        t
    } else {
        inserted(tree_with(t, list.drop_last()), leaf_for(list.last()), 0)
    }
}

/// The new key of the old key `k`.
pub open spec fn new_key(ch: Map<i64, i64>, k: i64) -> i64 {
    if ch.dom().contains(k) {
        ch[k]
    } else {
        k
    }
}

/// The entries of `es` under the keys `ks`, stored one after the other
/// under their new keys: where two land on one key, the later one stays.
pub open spec fn rekey_fold(es: Map<i64, EntryModel>, ks: Seq<i64>, ch: Map<i64, i64>) -> Map<i64, EntryModel>
    decreases ks.len(),
{
    if ks.len() == 0 {
        Map::empty()
    } else {
        rekey_fold(es, ks.drop_last(), ch).insert(new_key(ch, ks.last()), es[ks.last()])
    }
}

/// The keys of `es` in increasing order.
pub open spec fn sorted_keys(es: Map<i64, EntryModel>) -> Seq<i64> {
    choose|s: Seq<i64>| increasing(s) && s.to_set() == es.dom()
}

/// `es` with every key moved as `ch` says, taken in increasing order of the
/// old keys (so of two entries moved onto one key, the one with the larger
/// old key stays).
pub open spec fn entries_rekeyed(es: Map<i64, EntryModel>, ch: Map<i64, i64>) -> Map<i64, EntryModel> {
    rekey_fold(es, sorted_keys(es), ch)
}

/// The cache after a batch of mutations: the removes first (entries and
/// leaves), then the index changes (keys and leaf ids), then the inserts;
/// each step only where the batch has some of its kind.
pub open spec fn applied(c: CacheModel, ms: Seq<MutationModel>) -> CacheModel {
    let rs = removal_ids(ms);
    let ch = change_map(ms);
    let ins = insert_list(ms);
    let c1 = if rs.len() > 0 {
        CacheModel { entries: entries_without(c.entries, rs), tree: tree_without(c.tree, rs) }
    } else {
        c
    };
    let c2 = if ch.dom().len() > 0 {
        CacheModel { entries: entries_rekeyed(c1.entries, ch), tree: renamed(c1.tree, ch) }
    } else {
        c1
    };
    if ins.len() > 0 {
        CacheModel { entries: entries_with(c2.entries, ins), tree: tree_with(c2.tree, ins) }
    } else {
        c2
    }
}

/// Two increasing sequences with the same elements are equal.
pub proof fn lemma_increasing_unique(s1: Seq<i64>, s2: Seq<i64>)
    requires
        increasing(s1),
        increasing(s2),
        s1.to_set() == s2.to_set(),
    ensures
        s1 == s2,
    decreases s1.len(),
{
    if s1.len() == 0 {
        if s2.len() > 0 {
            assert(s2.to_set().contains(s2[0]));
        }
        assert(s1 =~= s2);
    } else {
        assert(s1.to_set().contains(s1[0]));
        if s2.len() == 0 {
            assert(false);
        }
        assert(s2.to_set().contains(s2[0]));
        let j = choose|j: int| 0 <= j < s2.len() && s2[j] == s1[0];
        let k = choose|k: int| 0 <= k < s1.len() && s1[k] == s2[0];
        if j > 0 {
            assert(s2[0] < s1[0]);
            if k > 0 {
                assert(s1[0] < s1[k]);
            }
        }
        assert(s1[0] == s2[0]);
        let t1 = s1.drop_first();
        let t2 = s2.drop_first();
        assert(t1.to_set() =~= t2.to_set()) by {
            assert forall|x: i64| t1.to_set().contains(x) implies t2.to_set().contains(x) by {
                let a = choose|a: int| 0 <= a < t1.len() && t1[a] == x;
                assert(s1[a + 1] == x);
                assert(s2.to_set().contains(x));
                let b = choose|b: int| 0 <= b < s2.len() && s2[b] == x;
                if b == 0 {
                    assert(s1[0] < s1[a + 1]);
                }
                assert(t2[b - 1] == x);
            }
            assert forall|x: i64| t2.to_set().contains(x) implies t1.to_set().contains(x) by {
                let a = choose|a: int| 0 <= a < t2.len() && t2[a] == x;
                assert(s2[a + 1] == x);
                assert(s1.to_set().contains(x));
                let b = choose|b: int| 0 <= b < s1.len() && s1[b] == x;
                if b == 0 {
                    assert(s2[0] < s2[a + 1]);
                }
                assert(t1[b - 1] == x);
            }
        }
        lemma_increasing_unique(t1, t2);
        assert(s1 =~= seq![s1[0]] + t1);
        assert(s2 =~= seq![s2[0]] + t2);
    }
}

impl Default for ContextTreeCache {
    /// An empty cache.
    fn default() -> (c: Self)
        ensures
            c@ == (CacheModel { entries: Map::empty(), tree: empty_tree() }),
            c.inv(),
    {
        Self::new()
    }
}

impl ContextTreeCache {
    /// The cache's invariant: its tree is well formed.
    pub closed spec fn inv(&self) -> bool {
        wf(self.tree@)
    }

    /// An empty cache: no entries, and a tree of just the root.
    pub fn new() -> (c: Self)
        ensures
            c@ == (CacheModel { entries: Map::empty(), tree: empty_tree() }),
            c.inv(),
    {
        let id = String::from_str("root");
        proof {
            reveal_strlit("root");
        }
        let root = ContextTreeNode::new(id.as_str(), Vec::new());
        let c = ContextTreeCache { entries: BTreeMap::new(), tree: ContextTree { root } };
        proof {
            assert(views(Seq::<String>::empty()) =~= Seq::<Seq<char>>::empty());
            assert(id@ =~= seq!['r', 'o', 'o', 't']);
            assert(entry_views(c.entries@) =~= Map::<i64, EntryModel>::empty());
            lemma_models_of(&c.tree.root);
        }
        c
    }

    /// The history indices of the selected entry leaves, in tree order.
    pub fn selected(&self) -> (ids: Vec<i64>)
        ensures
            ids@ == selected_ids(self@.tree),
    {
        self.tree.get_selected_entry_ids()
    }

    /// The context tree.
    pub fn tree(&self) -> (t: &ContextTree)
        ensures
            t@ == self@.tree,
    {
        &self.tree
    }

    /// Flips `selected` on every node and leaf whose id is listed.
    pub fn toggle_selected(&mut self, node_ids: &[String])
        requires
            old(self).inv(),
        ensures
            final(self)@ == (CacheModel {
                tree: toggled_selected(old(self)@.tree, views(node_ids@)),
                ..old(self)@
            }),
            final(self).inv(),
    {
        self.tree.toggle_selected(node_ids);
        proof {
            crate::tree::lemma_toggled_wf(old(self).tree@, views(node_ids@));
        }
    }

    /// Flips `collapsed` on every node and leaf whose id is listed.
    pub fn toggle_collapsed(&mut self, node_ids: &[String])
        requires
            old(self).inv(),
        ensures
            final(self)@ == (CacheModel {
                tree: toggled_collapsed(old(self)@.tree, views(node_ids@)),
                ..old(self)@
            }),
            final(self).inv(),
    {
        self.tree.toggle_collapsed(node_ids);
        proof {
            crate::tree::lemma_toggled_wf(old(self).tree@, views(node_ids@));
        }
    }

    /// The history indices of the cached entries, in increasing order.
    pub fn entry_ids(&self) -> (ids: Vec<i64>)
        ensures
            ids@.to_set() == self@.entries.dom(),
            increasing(ids@),
    {
        let mut keys: Vec<i64> = Vec::new();
        let ghost ks = spec_keys_iter(&self.entries).remaining().map_values(|r: &i64| *r);
        for k in it: self.entries.keys()
            invariant
                it.seq() == spec_keys_iter(&self.entries).remaining(),
                ks == it.seq().map_values(|r: &i64| *r),
                keys@ == ks.take(it.index() as int),
        {
            keys.push(*k);
            proof {
                assert(ks.take(it.index() + 1) =~= keys@);
            }
        }
        proof {
            assert(keys@ =~= ks);
            let s = spec_keys_iter(&self.entries).remaining();
            assert(s.unref().to_set() == self.entries@.dom());
            assert(s.unref() =~= ks);
            assert(entry_views(self.entries@).dom() =~= self.entries@.dom());
        }
        let mut ids: Vec<i64> = Vec::new();
        let mut i: usize = 0;
        while i < keys.len()
            invariant
                0 <= i <= keys@.len(),
                ids@.to_set() == keys@.take(i as int).to_set(),
                increasing(ids@),
            decreases keys.len() - i,
        {
            insert_sorted(&mut ids, keys[i]);
            proof {
                assert(keys@.take(i + 1) =~= keys@.take(i as int).push(keys@[i as int]));
                keys@.take(i as int).lemma_push_to_set_commute(keys@[i as int]);
            }
            i += 1;
        }
        assert(keys@.take(keys@.len() as int) =~= keys@);
        ids
    }

    /// Applies a batch of mutations: the removes first (entries and leaves),
    /// then the index changes (keys and leaf ids), then the inserts.
    pub fn apply_mutation_batch(&mut self, mutations: &Vec<HistoryMutation>)
        requires
            old(self).inv(),
        ensures
            final(self)@ == applied(old(self)@, mutation_views(mutations@)),
            final(self).inv(),
    {
        let ghost ms = mutation_views(mutations@);
        let mut index_changes: HashMap<i64, i64> = HashMap::new();
        let mut removes: Vec<i64> = Vec::new();
        let mut inserts: Vec<CachedEntry> = Vec::new();
        let mut i: usize = 0;
        while i < mutations.len()
            invariant
                0 <= i <= mutations@.len(),
                ms == mutation_views(mutations@),
                index_changes@ == change_map(ms.take(i as int)),
                removes@ == removal_ids(ms.take(i as int)),
                inserts@.map_values(|e: CachedEntry| e@) == insert_list(ms.take(i as int)),
            decreases mutations.len() - i,
        {
            proof {
                assert(ms.take(i + 1).drop_last() =~= ms.take(i as int));
                assert(ms.take(i + 1).last() == mutations@[i as int]@);
            }
            match &mutations[i] {
                HistoryMutation::IndexChange { old_index, new_index } => {
                    index_changes.insert(*old_index as i64, *new_index as i64);
                    proof {
                        assert(removal_ids(ms.take(i + 1)) =~= removal_ids(ms.take(i as int)));
                        assert(insert_list(ms.take(i + 1)) =~= insert_list(ms.take(i as int)));
                    }
                },
                HistoryMutation::Remove { index } => {
                    removes.push(*index as i64);
                    proof {
                        assert(insert_list(ms.take(i + 1)) =~= insert_list(ms.take(i as int)));
                    }
                },
                HistoryMutation::Insert { index, labels, payload } => {
                    let ghost before = inserts@;
                    inserts.push(
                        CachedEntry { id: *index as i64, labels: copy_labels(labels), payload: payload.copy() },
                    );
                    proof {
                        assert(removal_ids(ms.take(i + 1)) =~= removal_ids(ms.take(i as int)));
                        assert(inserts@.map_values(|e: CachedEntry| e@) =~= before.map_values(|e: CachedEntry| e@).push(inserts@.last()@));
                    }
                },
            }
            i += 1;
        }
        proof {
            assert(ms.take(mutations@.len() as int) =~= ms);
        }
        if !removes.is_empty() {
            self.apply_removes(&removes);
        }
        if !index_changes.is_empty() {
            self.apply_index_changes(&index_changes);
        }
        if !inserts.is_empty() {
            self.apply_inserts(&inserts);
        }
        proof {
            assert(index_changes@.dom().len() > 0 <==> !index_changes@.is_empty()) by {
                if index_changes@.dom().len() == 0 {
                    assert(index_changes@.dom() =~= Set::<i64>::empty());
                    assert(index_changes@ =~= Map::<i64, i64>::empty());
                }
                if index_changes@.is_empty() {
                    assert(index_changes@.dom() =~= Set::<i64>::empty());
                }
            }
        }
    }

    /// Removes the entries and leaves of the indices `removes`, one after the other.
    fn apply_removes(&mut self, removes: &Vec<i64>)
        requires
            old(self).inv(),
        ensures
            final(self)@ == (CacheModel {
                entries: entries_without(old(self)@.entries, removes@),
                tree: tree_without(old(self)@.tree, removes@),
            }),
            final(self).inv(),
    {
        let mut i: usize = 0;
        while i < removes.len()
            invariant
                0 <= i <= removes@.len(),
                self.inv(),
                self@ == (CacheModel {
                    entries: entries_without(old(self)@.entries, removes@.take(i as int)),
                    tree: tree_without(old(self)@.tree, removes@.take(i as int)),
                }),
            decreases removes.len() - i,
        {
            let id = removes[i];
            let ghost before = self.entries@;
            self.entries.remove(&id);
            self.tree.remove_entry_node(id);
            proof {
                assert(removes@.take(i + 1).drop_last() =~= removes@.take(i as int));
                assert(entry_views(self.entries@) =~= entry_views(before).remove(id));
            }
            i += 1;
        }
        assert(removes@.take(removes@.len() as int) =~= removes@);
    }

    /// Moves every entry and leaf whose index `changes` maps to its new index.
    fn apply_index_changes(&mut self, changes: &HashMap<i64, i64>)
        requires
            old(self).inv(),
        ensures
            final(self)@ == (CacheModel {
                entries: entries_rekeyed(old(self)@.entries, changes@),
                tree: renamed(old(self)@.tree, changes@),
            }),
            final(self).inv(),
    {
        let keys = self.entry_ids();
        let ghost es = old(self)@.entries;
        proof {
            let sk = sorted_keys(es);
            assert(increasing(keys@) && keys@.to_set() == es.dom());
            assert(increasing(sk) && sk.to_set() == es.dom());
            lemma_increasing_unique(keys@, sk);
        }
        let mut pending: BTreeMap<i64, CachedEntry> = BTreeMap::new();
        std::mem::swap(&mut pending, &mut self.entries);
        proof {
            assert forall|j: int| 0 <= j < keys@.len() implies #[trigger] pending@.contains_key(keys@[j])
                && pending@[keys@[j]]@ == es[keys@[j]] by {
                assert(keys@.to_set().contains(keys@[j]));
                assert(es.dom().contains(keys@[j]));
            }
        }
        let mut i: usize = 0;
        while i < keys.len()
            invariant
                0 <= i <= keys@.len(),
                keys@ == sorted_keys(es),
                increasing(keys@),
                keys@.to_set() == es.dom(),
                es == old(self)@.entries,
                self.tree == old(self).tree,
                forall|j: int| i <= j < keys@.len() ==> #[trigger] pending@.contains_key(keys@[j])
                    && pending@[keys@[j]]@ == es[keys@[j]],
                entry_views(self.entries@) == rekey_fold(es, keys@.take(i as int), changes@),
            decreases keys.len() - i,
        {
            let k = keys[i];
            let ghost before = self.entries@;
            let ghost before_pending = pending@;
            match pending.remove(&k) {
                Some(e) => {
                    let nk = match changes.get(&k) {
                        Some(n) => *n,
                        None => k,
                    };
                    self.entries.insert(nk, e);
                    proof {
                        assert(nk == new_key(changes@, k));
                        assert(keys@.take(i + 1).drop_last() =~= keys@.take(i as int));
                        assert(entry_views(self.entries@) =~= entry_views(before).insert(nk, es[k]));
                        assert forall|j: int| i + 1 <= j < keys@.len() implies #[trigger] pending@.contains_key(keys@[j])
                            && pending@[keys@[j]]@ == es[keys@[j]] by {
                            assert(keys@[i as int] < keys@[j]);
                            assert(keys@[j] != k);
                            assert(before_pending.contains_key(keys@[j]));
                            assert(pending@ == before_pending.remove(k));
                        }
                    }
                },
                None => {
                    proof {
                        assert(false);
                    }
                },
            }
            i += 1;
        }
        assert(keys@.take(keys@.len() as int) =~= keys@);
        self.tree.rename_entry_nodes(changes);
    }

    /// Stores each of `inserts` under its index and inserts its leaf, one after the other.
    fn apply_inserts(&mut self, inserts: &Vec<CachedEntry>)
        requires
            old(self).inv(),
        ensures
            final(self)@ == (CacheModel {
                entries: entries_with(old(self)@.entries, inserts@.map_values(|e: CachedEntry| e@)),
                tree: tree_with(old(self)@.tree, inserts@.map_values(|e: CachedEntry| e@)),
            }),
            final(self).inv(),
    {
        let ghost list = inserts@.map_values(|e: CachedEntry| e@);
        let mut i: usize = 0;
        while i < inserts.len()
            invariant
                0 <= i <= inserts@.len(),
                list == inserts@.map_values(|e: CachedEntry| e@),
                self.inv(),
                self@ == (CacheModel {
                    entries: entries_with(old(self)@.entries, list.take(i as int)),
                    tree: tree_with(old(self)@.tree, list.take(i as int)),
                }),
            decreases inserts.len() - i,
        {
            let entry = &inserts[i];
            let ghost before = self.entries@;
            self.entries.insert(entry.id, entry.copy());
            self.tree.insert_entry_node(entry);
            proof {
                assert(list.take(i + 1).drop_last() =~= list.take(i as int));
                assert(list.take(i + 1).last() == entry@);
                assert(entry_views(self.entries@) =~= entry_views(before).insert(entry.id, entry@));
            }
            i += 1;
        }
        assert(list.take(inserts@.len() as int) =~= list);
    }

    /// Applies a batch of mutations, then runs a summary pass with no model
    /// reply at hand; an empty batch changes nothing. Returns the text whose
    /// summary the model is to give, if the pass needs one.
    pub fn apply_mutations<M>(
        &mut self,
        summarizer: &ContextTreeSummarizer<M>,
        mutations: Vec<HistoryMutation>,
    ) -> (pending: Option<String>)
        requires
            old(self).inv(),
        ensures
            final(self).inv(),
            mutations@.len() == 0 ==> final(self)@ == old(self)@ && pending is None,
            mutations@.len() > 0 ==> ({
                let c1 = applied(old(self)@, mutation_views(mutations@));
                match summarized_tree(c1.tree, c1.entries, Seq::empty(), summarizer.uses_model()) {
                    Ok(t) => pending is None && final(self)@ == (CacheModel { tree: t, ..c1 }),
                    Err(c) => pending matches Some(p) && p@ == c && final(self)@ == c1,
                }
            }),
    {
        if mutations.is_empty() {
            return None;
        }
        self.apply_mutation_batch(&mutations);
        let replies: Vec<String> = Vec::new();
        proof {
            assert(views(replies@) =~= Seq::<Seq<char>>::empty());
        }
        self.summarize(summarizer, &replies)
    }

    /// A summary pass with the given model replies, in the order the nodes
    /// ask for them. Returns the text of the first node whose reply is still
    /// missing, with the cache left as it was, or `None` with the tree summarized.
    pub fn summarize<M>(&mut self, summarizer: &ContextTreeSummarizer<M>, replies: &Vec<String>) -> (pending: Option<String>)
        requires
            old(self).inv(),
        ensures
            final(self).inv(),
            match summarized_tree(old(self)@.tree, old(self)@.entries, views(replies@), summarizer.uses_model()) {
                Ok(t) => pending is None && final(self)@ == (CacheModel { tree: t, ..old(self)@ }),
                Err(c) => pending matches Some(p) && p@ == c && final(self)@ == old(self)@,
            },
    {
        let pending = summarizer.summarize_tree(&mut self.tree, &self.entries, replies);
        proof {
            lemma_summarized_tree_wf(old(self).tree@, entry_views(self.entries@), views(replies@), summarizer.uses_model());
        }
        pending
    }
}

} // verus!
