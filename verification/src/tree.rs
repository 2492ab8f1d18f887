//! The context tree: entries grouped by their label chains.
//!
//! Every node keeps its group children ordered by label and its entry leaves
//! ordered by id (lexicographic order of the characters, as a `BTreeMap`
//! keyed by `String` keeps them), with no key twice.
use std::collections::HashMap;
use vstd::prelude::*;

use crate::cache::CachedEntry;
use crate::text::{
    append_str, chars_of, copy_str, decimal, has_prefix, i64_to_decimal, join, join_seq, lemma_parse_decimal,
    lemma_seq_lt_total, lemma_seq_lt_transitive, parse_i64, parse_i64_seq, seq_lt, starts_with, str_lt,
    string_from_chars, string_from_range, views,
};

verus! {

broadcast use vstd::std_specs::hash::group_hash_axioms;

/// A node of the context tree: a group of entries sharing a label prefix, or
/// an entry leaf (id `entry-{n}`).
#[derive(Debug)]
pub struct ContextTreeNode {
    pub id: String,
    pub labels: Vec<String>,
    pub updated: bool,
    /// Group children, ordered by their last label.
    pub children: Vec<ContextTreeNode>,
    /// Entry leaves, ordered by id.
    pub entry_nodes: Vec<ContextTreeNode>,
    pub title: String,
    pub summary: String,
    pub selected: bool,
    pub collapsed: bool,
    pub min_entry_id: i64,
}

/// The tree, rooted at a node with id `root` and no labels.
#[derive(Debug)]
pub struct ContextTree {
    pub root: ContextTreeNode,
}

/// A node as plain values.
#[verifier::ext_equal]
pub struct NodeModel {
    pub id: Seq<char>,
    pub labels: Seq<Seq<char>>,
    pub updated: bool,
    pub children: Seq<NodeModel>,
    pub entry_nodes: Seq<NodeModel>,
    pub title: Seq<char>,
    pub summary: Seq<char>,
    pub selected: bool,
    pub collapsed: bool,
    pub min_entry_id: i64,
}

impl ContextTreeNode {
    /// The node as plain values.
    pub open spec fn model(&self) -> NodeModel
        decreases self,
    {
        NodeModel {
            id: self.id@,
            labels: views(self.labels@),
            updated: self.updated,
            children: Seq::new(
                self.children@.len(),
                |i: int|
                    if 0 <= i < self.children@.len() {
                        self.children@[i].model()
                    } else {
                        arbitrary()
                    },
            ),
            entry_nodes: Seq::new(
                self.entry_nodes@.len(),
                |i: int|
                    if 0 <= i < self.entry_nodes@.len() {
                        self.entry_nodes@[i].model()
                    } else {
                        arbitrary()
                    },
            ),
            title: self.title@,
            summary: self.summary@,
            selected: self.selected,
            collapsed: self.collapsed,
            min_entry_id: self.min_entry_id,
        }
    }
}

impl View for ContextTreeNode {
    type V = NodeModel;

    open spec fn view(&self) -> NodeModel {
        self.model()
    }
}

impl View for ContextTree {
    type V = NodeModel;

    open spec fn view(&self) -> NodeModel {
        self.root.model()
    }
}

// ---------------------------------------------------------------------------
// Ids
// ---------------------------------------------------------------------------

/// `entry-`, the prefix of the ids of entry leaves.
pub open spec fn entry_prefix() -> Seq<char> {
    seq!['e', 'n', 't', 'r', 'y', '-']
}

/// Whether `id` is the id of an entry leaf.
pub open spec fn is_entry_id(id: Seq<char>) -> bool {
    has_prefix(id, entry_prefix())
}

/// `id` without the `entry-` prefix, where it has one.
pub open spec fn strip_entry_prefix(id: Seq<char>) -> Seq<char> {
    if is_entry_id(id) {
        id.skip(6)
    } else {
        id
    }
}

/// The history index that an id names: the number after `entry-`, or 0 where
/// there is none.
pub open spec fn entry_id_of(id: Seq<char>) -> i64 {
    match parse_i64_seq(strip_entry_prefix(id)) {
        Some(v) => v,
        None => 0,
    }
}

/// The `min_entry_id` of a fresh node: its own index for an entry leaf whose
/// id parses, `i64::MAX` otherwise.
pub open spec fn initial_min_entry_id(id: Seq<char>) -> i64 {
    if is_entry_id(id) {
        match parse_i64_seq(id.skip(6)) {
            Some(v) => v,
            None => i64::MAX,
        }
    } else {
        i64::MAX
    }
}

/// The id of the leaf for history index `n`: `entry-{n}`.
pub open spec fn node_id_of(n: int) -> Seq<char> {
    entry_prefix() + decimal(n)
}

/// The id of the group node for a label chain: `/` followed by the labels
/// joined with `/`.
pub open spec fn group_id(labels: Seq<Seq<char>>) -> Seq<char> {
    seq!['/'] + join_seq(labels, seq!['/'])
}

/// A fresh node: updated, selected and expanded, with no children, empty
/// title and summary.
pub open spec fn new_model(id: Seq<char>, labels: Seq<Seq<char>>) -> NodeModel {
    NodeModel {
        id,
        labels,
        updated: true,
        children: Seq::empty(),
        entry_nodes: Seq::empty(),
        title: Seq::empty(),
        summary: Seq::empty(),
        selected: true,
        collapsed: false,
        min_entry_id: initial_min_entry_id(id),
    }
}

pub open spec fn min_i64(a: i64, b: i64) -> i64 {
    if a <= b {
        a
    } else {
        b
    }
}

/// The smallest index named by the entry leaves in `s`, or `i64::MAX`.
pub open spec fn min_over_entries(s: Seq<NodeModel>) -> i64
    decreases s.len(),
{
    if s.len() == 0 {
        i64::MAX
    } else {
        min_i64(min_over_entries(s.drop_last()), entry_id_of(s.last().id))
    }
}

/// The smallest `min_entry_id` of the nodes in `s`, or `i64::MAX`.
pub open spec fn min_over_children(s: Seq<NodeModel>) -> i64
    decreases s.len(),
{
    if s.len() == 0 {
        i64::MAX
    } else {
        min_i64(min_over_children(s.drop_last()), s.last().min_entry_id)
    }
}

/// What `recompute_min_entry_id` stores: an entry leaf's own index, or the
/// smallest index among a group's entry leaves and its children's
/// `min_entry_id`.
pub open spec fn recomputed_min(m: NodeModel) -> i64 {
    if is_entry_id(m.id) {
        entry_id_of(m.id)
    } else {
        min_i64(min_over_entries(m.entry_nodes), min_over_children(m.children))
    }
}

// ---------------------------------------------------------------------------
// Ordering of children and entry leaves
// ---------------------------------------------------------------------------

/// The key of a group child: its last label.
pub open spec fn child_key(c: NodeModel) -> Seq<char> {
    c.labels.last()
}

/// The keys of group children.
pub open spec fn child_keys(s: Seq<NodeModel>) -> Seq<Seq<char>> {
    s.map_values(|c: NodeModel| child_key(c))
}

/// The keys of entry leaves: their ids.
pub open spec fn entry_keys(s: Seq<NodeModel>) -> Seq<Seq<char>> {
    s.map_values(|e: NodeModel| e.id)
}

/// Whether the keys are strictly increasing.
pub open spec fn strictly_sorted(keys: Seq<Seq<char>>) -> bool {
    forall|i: int, j: int| 0 <= i < j < keys.len() ==> seq_lt(#[trigger] keys[i], #[trigger] keys[j])
}

/// The number of leading keys that come before `k`: where `k` goes.
pub open spec fn lower_bound(keys: Seq<Seq<char>>, k: Seq<char>) -> nat
    decreases keys.len(),
{
    if keys.len() > 0 && seq_lt(keys[0], k) {
        1 + lower_bound(keys.drop_first(), k)
    } else {
        0
    }
}

/// `s` with `n` stored under key `k`: replacing the element with that key,
/// or inserted where the order puts it (`BTreeMap::insert`).
pub open spec fn put_keyed(s: Seq<NodeModel>, keys: Seq<Seq<char>>, k: Seq<char>, n: NodeModel) -> Seq<
    NodeModel,
> {
    let p = lower_bound(keys, k) as int;
    if p < s.len() && keys[p] == k {
        s.update(p, n)
    } else {
        s.insert(p, n)
    }
}

/// `s` with the entry leaf `e` stored under its id.
pub open spec fn put_entry(s: Seq<NodeModel>, e: NodeModel) -> Seq<NodeModel> {
    put_keyed(s, entry_keys(s), e.id, e)
}

/// `s` with the group child `c` stored under its last label.
pub open spec fn put_child(s: Seq<NodeModel>, c: NodeModel) -> Seq<NodeModel> {
    put_keyed(s, child_keys(s), child_key(c), c)
}

/// The tree's invariant: at every node, group children have labels and are
/// strictly ordered by their last label, and entry leaves are strictly
/// ordered by id.
pub open spec fn wf(m: NodeModel) -> bool
    decreases m,
{
    &&& forall|i: int| 0 <= i < m.children.len() ==> #[trigger] m.children[i].labels.len() > 0
    &&& strictly_sorted(child_keys(m.children))
    &&& strictly_sorted(entry_keys(m.entry_nodes))
    &&& forall|i: int| 0 <= i < m.children.len() ==> wf(#[trigger] m.children[i])
}

// ---------------------------------------------------------------------------
// Selection and collapse
// ---------------------------------------------------------------------------

/// `ss` concatenated in order.
pub open spec fn concat_all<A>(ss: Seq<Seq<A>>) -> Seq<A>
    decreases ss.len(),
{
    if ss.len() == 0 {
        Seq::empty()
    } else {
        concat_all(ss.drop_last()) + ss.last()
    }
}

/// The indices of the selected entry leaves of `s`, in order.
pub open spec fn selected_in_entries(s: Seq<NodeModel>) -> Seq<i64>
    decreases s.len(),
{
    if s.len() == 0 {
        Seq::empty()
    } else {
        selected_in_entries(s.drop_last()) + if s.last().selected {
            seq![entry_id_of(s.last().id)]
        } else {
            Seq::empty()
        }
    }
}

/// The indices of the selected entry leaves under `m`: the node's own
/// leaves in order, then each child's, child by child.
pub open spec fn selected_ids(m: NodeModel) -> Seq<i64>
    decreases m,
{
    selected_in_entries(m.entry_nodes) + concat_all(selected_per_child(m.children))
}

/// `selected_ids` of each node of `cs`.
pub open spec fn selected_per_child(cs: Seq<NodeModel>) -> Seq<Seq<i64>>
    decreases cs,
{
    if cs.len() == 0 {
        Seq::empty()
    } else {
        selected_per_child(cs.drop_last()).push(selected_ids(cs.last()))
    }
}

/// Whether `id` is one of `ids`.
pub open spec fn listed(ids: Seq<Seq<char>>, id: Seq<char>) -> bool {
    ids.contains(id)
}

/// `m` with `selected` flipped on every node and leaf whose id is listed.
pub open spec fn toggled_selected(m: NodeModel, ids: Seq<Seq<char>>) -> NodeModel
    decreases m,
{
    NodeModel {
        selected: if listed(ids, m.id) {
            !m.selected
        } else {
            m.selected
        },
        entry_nodes: Seq::new(
            m.entry_nodes.len(),
            |i: int|
                if 0 <= i < m.entry_nodes.len() {
                    let e = m.entry_nodes[i];
                    NodeModel {
                        selected: if listed(ids, e.id) {
                            !e.selected
                        } else {
                            e.selected
                        },
                        ..e
                    }
                } else {
                    arbitrary()
                },
        ),
        children: Seq::new(
            m.children.len(),
            |i: int|
                if 0 <= i < m.children.len() {
                    toggled_selected(m.children[i], ids)
                } else {
                    arbitrary()
                },
        ),
        ..m
    }
}

/// `m` with `collapsed` flipped on every node and leaf whose id is listed.
pub open spec fn toggled_collapsed(m: NodeModel, ids: Seq<Seq<char>>) -> NodeModel
    decreases m,
{
    NodeModel {
        collapsed: if listed(ids, m.id) {
            !m.collapsed
        } else {
            m.collapsed
        },
        entry_nodes: Seq::new(
            m.entry_nodes.len(),
            |i: int|
                if 0 <= i < m.entry_nodes.len() {
                    let e = m.entry_nodes[i];
                    NodeModel {
                        collapsed: if listed(ids, e.id) {
                            !e.collapsed
                        } else {
                            e.collapsed
                        },
                        ..e
                    }
                } else {
                    arbitrary()
                },
        ),
        children: Seq::new(
            m.children.len(),
            |i: int|
                if 0 <= i < m.children.len() {
                    toggled_collapsed(m.children[i], ids)
                } else {
                    arbitrary()
                },
        ),
        ..m
    }
}


// ---------------------------------------------------------------------------
// Insertion
// ---------------------------------------------------------------------------

/// The tree `node` (at depth `depth` of the entry's label chain) after
/// inserting the leaf `entry`: the leaf goes under the group named by the
/// entry's labels, with the missing groups created on the way; every node on
/// the path is marked updated and its `min_entry_id` lowered to the new leaf's.
pub open spec fn inserted(node: NodeModel, entry: NodeModel, depth: nat) -> NodeModel
    decreases entry.labels.len() - depth,
{
    if depth >= entry.labels.len() {
        NodeModel {
            entry_nodes: put_entry(node.entry_nodes, entry),
            updated: true,
            min_entry_id: min_i64(node.min_entry_id, entry_id_of(entry.id)),
            ..node
        }
    } else {
        let label = entry.labels[depth as int];
        let p = lower_bound(child_keys(node.children), label) as int;
        let found = p < node.children.len() && child_key(node.children[p]) == label;
        let child = if found {
            node.children[p]
        } else {
            new_model(group_id(node.labels.push(label)), node.labels.push(label))
        };
        let c2 = inserted(child, entry, depth + 1);
        NodeModel {
            children: if found {
                node.children.update(p, c2)
            } else {
                node.children.insert(p, c2)
            },
            updated: true,
            min_entry_id: min_i64(node.min_entry_id, c2.min_entry_id),
            ..node
        }
    }
}

/// `lower_bound` is the first index whose key does not come before `k`.
pub proof fn lemma_lower_bound_is(keys: Seq<Seq<char>>, k: Seq<char>, i: int)
    requires
        0 <= i <= keys.len(),
        forall|j: int| 0 <= j < i ==> seq_lt(#[trigger] keys[j], k),
        i < keys.len() ==> !seq_lt(keys[i], k),
    ensures
        lower_bound(keys, k) == i,
    decreases i,
{
    if i > 0 {
        assert forall|j: int| 0 <= j < i - 1 implies seq_lt(#[trigger] keys.drop_first()[j], k) by {
            assert(keys.drop_first()[j] == keys[j + 1]);
        }
        if i - 1 < keys.len() - 1 {
            assert(keys.drop_first()[i - 1] == keys[i]);
        }
        lemma_lower_bound_is(keys.drop_first(), k, i - 1);
        assert(seq_lt(keys[0], k));
    }
}

/// In strictly sorted keys, `lower_bound` splits the keys into those before
/// `k` and those not before it.
pub proof fn lemma_lower_bound_sorted(keys: Seq<Seq<char>>, k: Seq<char>)
    requires
        strictly_sorted(keys),
    ensures
        lower_bound(keys, k) <= keys.len(),
        forall|j: int| 0 <= j < lower_bound(keys, k) ==> seq_lt(#[trigger] keys[j], k),
        forall|j: int| lower_bound(keys, k) <= j < keys.len() ==> !seq_lt(#[trigger] keys[j], k),
    decreases keys.len(),
{
    if keys.len() > 0 {
        let t = keys.drop_first();
        assert(strictly_sorted(t)) by {
            assert forall|i: int, j: int| 0 <= i < j < t.len() implies seq_lt(#[trigger] t[i], #[trigger] t[j]) by {
                assert(t[i] == keys[i + 1]);
                assert(t[j] == keys[j + 1]);
            }
        }
        lemma_lower_bound_sorted(t, k);
        if seq_lt(keys[0], k) {
            assert forall|j: int| 0 <= j < lower_bound(keys, k) implies seq_lt(#[trigger] keys[j], k) by {
                if j > 0 {
                    assert(keys[j] == t[j - 1]);
                }
            }
            assert forall|j: int| lower_bound(keys, k) <= j < keys.len() implies !seq_lt(#[trigger] keys[j], k) by {
                assert(keys[j] == t[j - 1]);
            }
        } else {
            assert forall|j: int| 0 <= j < keys.len() implies !seq_lt(#[trigger] keys[j], k) by {
                if j > 0 && seq_lt(keys[j], k) {
                    assert(seq_lt(keys[0], keys[j]));
                    lemma_seq_lt_transitive(keys[0], keys[j], k);
                }
            }
        }
    }
}

/// Storing under a key keeps strictly sorted keys strictly sorted.
pub proof fn lemma_put_keyed_sorted(s: Seq<NodeModel>, keys: Seq<Seq<char>>, k: Seq<char>, n: NodeModel, key_of: spec_fn(NodeModel) -> Seq<char>)
    requires
        keys == s.map_values(key_of),
        strictly_sorted(keys),
        key_of(n) == k,
    ensures
        strictly_sorted(put_keyed(s, keys, k, n).map_values(key_of)),
        put_keyed(s, keys, k, n).len() >= s.len(),
{
    lemma_lower_bound_sorted(keys, k);
    let p = lower_bound(keys, k) as int;
    let r = put_keyed(s, keys, k, n);
    let rk = r.map_values(key_of);
    if p < s.len() && keys[p] == k {
        assert(rk =~= keys);
    } else {
        assert forall|j: int| p <= j < keys.len() implies seq_lt(k, #[trigger] keys[j]) by {
            if j == p {
                lemma_seq_lt_total(k, keys[j]);
            } else {
                if keys[p] != k {
                    lemma_seq_lt_total(k, keys[p]);
                    lemma_seq_lt_transitive(k, keys[p], keys[j]);
                } else {
                }
            }
        }
        assert forall|i: int, j: int| 0 <= i < j < rk.len() implies seq_lt(#[trigger] rk[i], #[trigger] rk[j]) by {
            if j < p {
                assert(rk[i] == keys[i] && rk[j] == keys[j]);
            } else if j == p {
                assert(rk[i] == keys[i] && rk[j] == k);
            } else if i < p {
                assert(rk[i] == keys[i] && rk[j] == keys[j - 1]);
                lemma_seq_lt_transitive(keys[i], k, keys[j - 1]);
            } else if i == p {
                assert(rk[i] == k && rk[j] == keys[j - 1]);
            } else {
                assert(rk[i] == keys[i - 1] && rk[j] == keys[j - 1]);
            }
        }
    }
}


// ---------------------------------------------------------------------------
// Removal
// ---------------------------------------------------------------------------

/// The ids of all entry leaves under `m`, in tree order.
pub open spec fn entry_ids_under(m: NodeModel) -> Seq<Seq<char>>
    decreases m,
{
    entry_keys(m.entry_nodes) + concat_all(ids_per_child(m.children))
}

/// `entry_ids_under` of each node of `cs`.
pub open spec fn ids_per_child(cs: Seq<NodeModel>) -> Seq<Seq<Seq<char>>>
    decreases cs,
{
    if cs.len() == 0 {
        Seq::empty()
    } else {
        ids_per_child(cs.drop_last()).push(entry_ids_under(cs.last()))
    }
}

/// Whether a leaf with id `t` is somewhere under `m`.
pub open spec fn holds_entry(m: NodeModel, t: Seq<char>) -> bool {
    entry_ids_under(m).contains(t)
}

/// The first index from `i` on of a node of `cs` that holds a leaf `t`, or
/// `cs.len()`.
pub open spec fn first_holding(cs: Seq<NodeModel>, t: Seq<char>, i: int) -> int
    decreases cs.len() - i,
{
    if i >= cs.len() {
        cs.len() as int
    } else if holds_entry(cs[i], t) {
        i
    } else {
        first_holding(cs, t, i + 1)
    }
}

/// The first index of `t` in `keys`, or `keys.len()`.
pub open spec fn find_key(keys: Seq<Seq<char>>, t: Seq<char>) -> int
    decreases keys.len(),
{
    if keys.len() == 0 {
        0
    } else if keys[0] == t {
        0
    } else {
        1 + find_key(keys.drop_first(), t)
    }
}

/// Whether some node of `cs` is marked updated.
pub open spec fn any_updated(cs: Seq<NodeModel>) -> bool {
    exists|i: int| 0 <= i < cs.len() && (#[trigger] cs[i]).updated
}

/// `m` after a search that finds nothing: every node is marked updated when
/// one of its children is, and every group's `min_entry_id` is recomputed,
/// bottom up.
pub open spec fn refreshed(m: NodeModel) -> NodeModel
    decreases m,
{
    let cs = refreshed_children(m.children);
    let m2 = NodeModel { children: cs, updated: m.updated || any_updated(cs), ..m };
    NodeModel { min_entry_id: recomputed_min(m2), ..m2 }
}

/// `refreshed` of each node of `cs`.
pub open spec fn refreshed_children(cs: Seq<NodeModel>) -> Seq<NodeModel>
    decreases cs,
{
    if cs.len() == 0 {
        Seq::empty()
    } else {
        refreshed_children(cs.drop_last()).push(refreshed(cs.last()))
    }
}

/// Whether `m` has neither children nor entry leaves.
pub open spec fn is_empty_group(m: NodeModel) -> bool {
    m.children.len() == 0 && m.entry_nodes.len() == 0
}

/// `m` after removing the leaf `t`: the first leaf with that id, in tree order
/// (the node's own leaves, then child by child), is dropped; a group left
/// with neither children nor leaves is dropped with it; the nodes on the path
/// are marked updated and their `min_entry_id` recomputed, and the children
/// searched before the one holding `t` are `refreshed`.
pub open spec fn removed(m: NodeModel, t: Seq<char>) -> NodeModel
    decreases m,
{
    let keys = entry_keys(m.entry_nodes);
    if keys.contains(t) {
        let m2 = NodeModel {
            entry_nodes: m.entry_nodes.remove(find_key(keys, t)),
            updated: true,
            ..m
        };
        NodeModel { min_entry_id: recomputed_min(m2), ..m2 }
    } else {
        let k = first_holding(m.children, t, 0);
        if 0 <= k < m.children.len() {
            let c = removed(m.children[k], t);
            let cs = refreshed_children(m.children.take(k)) + (if is_empty_group(c) {
                Seq::empty()
            } else {
                seq![c]
            }) + m.children.skip(k + 1);
            let m2 = NodeModel { children: cs, updated: true, ..m };
            NodeModel { min_entry_id: recomputed_min(m2), ..m2 }
        } else {
            refreshed(m)
        }
    }
}

pub(crate) proof fn lemma_concat_all_contains<A>(ss: Seq<Seq<A>>, x: A)
    ensures
        concat_all(ss).contains(x) <==> exists|i: int| 0 <= i < ss.len() && (#[trigger] ss[i]).contains(x),
    decreases ss.len(),
{
    if ss.len() > 0 {
        lemma_concat_all_contains(ss.drop_last(), x);
        let a = concat_all(ss.drop_last());
        let b = ss.last();
        if concat_all(ss).contains(x) {
            let j = choose|j: int| 0 <= j < concat_all(ss).len() && concat_all(ss)[j] == x;
            if j < a.len() {
                assert(a[j] == x);
                let i = choose|i: int| 0 <= i < ss.drop_last().len() && (#[trigger] ss.drop_last()[i]).contains(x);
                assert(ss[i] == ss.drop_last()[i]);
            } else {
                assert(b[j - a.len()] == x);
                assert(ss[ss.len() - 1].contains(x));
            }
        }
        if exists|i: int| 0 <= i < ss.len() && (#[trigger] ss[i]).contains(x) {
            let i = choose|i: int| 0 <= i < ss.len() && (#[trigger] ss[i]).contains(x);
            if i < ss.len() - 1 {
                assert(ss.drop_last()[i] == ss[i]);
                assert(a.contains(x));
                let j = choose|j: int| 0 <= j < a.len() && a[j] == x;
                assert(concat_all(ss)[j] == x);
            } else {
                let j = choose|j: int| 0 <= j < b.len() && b[j] == x;
                assert(concat_all(ss)[a.len() + j] == x);
            }
        }
    }
}

proof fn lemma_ids_per_child(cs: Seq<NodeModel>)
    ensures
        ids_per_child(cs).len() == cs.len(),
        forall|i: int| 0 <= i < cs.len() ==> #[trigger] ids_per_child(cs)[i] == entry_ids_under(cs[i]),
    decreases cs.len(),
{
    if cs.len() > 0 {
        lemma_ids_per_child(cs.drop_last());
        assert forall|i: int| 0 <= i < cs.len() implies #[trigger] ids_per_child(cs)[i] == entry_ids_under(cs[i]) by {
            if i < cs.len() - 1 {
                assert(cs.drop_last()[i] == cs[i]);
            }
        }
    }
}

/// A node holds `t` exactly when one of its own leaves or one of its children does.
pub(crate) proof fn lemma_holds_entry(m: NodeModel, t: Seq<char>)
    ensures
        holds_entry(m, t) <==> (entry_keys(m.entry_nodes).contains(t) || exists|i: int|
            0 <= i < m.children.len() && holds_entry(#[trigger] m.children[i], t)),
{
    lemma_ids_per_child(m.children);
    lemma_concat_all_contains(ids_per_child(m.children), t);
    let a = entry_keys(m.entry_nodes);
    let b = concat_all(ids_per_child(m.children));
    if entry_ids_under(m).contains(t) {
        let j = choose|j: int| 0 <= j < (a + b).len() && (a + b)[j] == t;
        if j < a.len() {
            assert(a[j] == t);
        } else {
            assert(b[j - a.len()] == t);
            let i = choose|i: int| 0 <= i < ids_per_child(m.children).len() && (#[trigger] ids_per_child(m.children)[i]).contains(t);
            assert(holds_entry(m.children[i], t));
        }
    }
    if a.contains(t) {
        let j = choose|j: int| 0 <= j < a.len() && a[j] == t;
        assert((a + b)[j] == t);
    }
    if exists|i: int| 0 <= i < m.children.len() && holds_entry(#[trigger] m.children[i], t) {
        let i = choose|i: int| 0 <= i < m.children.len() && holds_entry(#[trigger] m.children[i], t);
        assert(ids_per_child(m.children)[i].contains(t));
        assert(b.contains(t));
        let j = choose|j: int| 0 <= j < b.len() && b[j] == t;
        assert((a + b)[a.len() + j] == t);
    }
}

proof fn lemma_first_holding(cs: Seq<NodeModel>, t: Seq<char>, i: int, k: int)
    requires
        0 <= i <= k <= cs.len(),
        forall|j: int| i <= j < k ==> !holds_entry(#[trigger] cs[j], t),
        k < cs.len() ==> holds_entry(cs[k], t),
    ensures
        first_holding(cs, t, i) == k,
    decreases k - i,
{
    if i < k {
        lemma_first_holding(cs, t, i + 1, k);
    }
}

/// A node that does not hold `t` is only refreshed by its removal.
proof fn lemma_removed_absent(m: NodeModel, t: Seq<char>)
    requires
        !holds_entry(m, t),
    ensures
        removed(m, t) == refreshed(m),
{
    lemma_holds_entry(m, t);
    lemma_first_holding(m.children, t, 0, m.children.len() as int);
}

pub(crate) proof fn lemma_refreshed_children(cs: Seq<NodeModel>)
    ensures
        refreshed_children(cs).len() == cs.len(),
        forall|i: int| 0 <= i < cs.len() ==> #[trigger] refreshed_children(cs)[i] == refreshed(cs[i]),
    decreases cs.len(),
{
    if cs.len() > 0 {
        lemma_refreshed_children(cs.drop_last());
        assert forall|i: int| 0 <= i < cs.len() implies #[trigger] refreshed_children(cs)[i] == refreshed(cs[i]) by {
            if i < cs.len() - 1 {
                assert(cs.drop_last()[i] == cs[i]);
            }
        }
    }
}

proof fn lemma_find_key(keys: Seq<Seq<char>>, t: Seq<char>, i: int)
    requires
        0 <= i <= keys.len(),
        forall|j: int| 0 <= j < i ==> #[trigger] keys[j] != t,
        i < keys.len() ==> keys[i] == t,
    ensures
        find_key(keys, t) == i,
    decreases i,
{
    if i > 0 {
        assert forall|j: int| 0 <= j < i - 1 implies #[trigger] keys.drop_first()[j] != t by {
            assert(keys.drop_first()[j] == keys[j + 1]);
        }
        if i - 1 < keys.len() - 1 {
            assert(keys.drop_first()[i - 1] == keys[i]);
        }
        lemma_find_key(keys.drop_first(), t, i - 1);
    }
}


// ---------------------------------------------------------------------------
// Renaming
// ---------------------------------------------------------------------------

/// The leaf id of history index `n` names `n` again.
pub proof fn lemma_entry_id_of_node_id(n: i64)
    ensures
        is_entry_id(node_id_of(n as int)),
        entry_id_of(node_id_of(n as int)) == n,
{
    let id = node_id_of(n as int);
    assert(id.take(6) =~= entry_prefix());
    assert(id.skip(6) =~= decimal(n as int));
    lemma_parse_decimal(n);
}

/// Whether the leaf id `id` is `entry-{o}` for an index `o` that `renames` maps.
pub open spec fn renamed_from(id: Seq<char>, renames: Map<i64, i64>) -> bool {
    exists|o: i64| renames.dom().contains(o) && node_id_of(o as int) == id
}

/// The leaf `e`, renamed to `entry-{renames[o]}` when its id is `entry-{o}`
/// for an index `o` that `renames` maps.
pub open spec fn renamed_leaf(e: NodeModel, renames: Map<i64, i64>) -> NodeModel {
    if renamed_from(e.id, renames) {
        let o = choose|o: i64| renames.dom().contains(o) && node_id_of(o as int) == e.id;
        NodeModel { id: node_id_of(renames[o] as int), ..e }
    } else {
        e
    }
}

/// The leaves of `s` stored one after the other under their ids, starting
/// from none: a later leaf replaces an earlier one with the same id.
pub open spec fn collect_entries(s: Seq<NodeModel>) -> Seq<NodeModel>
    decreases s.len(),
{
    if s.len() == 0 {
        Seq::empty()
    } else {
        put_entry(collect_entries(s.drop_last()), s.last())
    }
}

/// `m` with every leaf renamed as `renames` says (each node's leaves
/// collected again under their new ids) and every group's `min_entry_id`
/// recomputed, bottom up.
pub open spec fn renamed(m: NodeModel, renames: Map<i64, i64>) -> NodeModel
    decreases m,
{
    let es = collect_entries(m.entry_nodes.map_values(|e: NodeModel| renamed_leaf(e, renames)));
    let cs = renamed_children(m.children, renames);
    let m2 = NodeModel { entry_nodes: es, children: cs, ..m };
    NodeModel { min_entry_id: recomputed_min(m2), ..m2 }
}

/// `renamed` of each node of `cs`.
pub open spec fn renamed_children(cs: Seq<NodeModel>, renames: Map<i64, i64>) -> Seq<NodeModel>
    decreases cs,
{
    if cs.len() == 0 {
        Seq::empty()
    } else {
        renamed_children(cs.drop_last(), renames).push(renamed(cs.last(), renames))
    }
}

pub(crate) proof fn lemma_renamed_children(cs: Seq<NodeModel>, renames: Map<i64, i64>)
    ensures
        renamed_children(cs, renames).len() == cs.len(),
        forall|i: int| 0 <= i < cs.len() ==> #[trigger] renamed_children(cs, renames)[i] == renamed(cs[i], renames),
    decreases cs.len(),
{
    if cs.len() > 0 {
        lemma_renamed_children(cs.drop_last(), renames);
        assert forall|i: int| 0 <= i < cs.len() implies #[trigger] renamed_children(cs, renames)[i] == renamed(cs[i], renames) by {
            if i < cs.len() - 1 {
                assert(cs.drop_last()[i] == cs[i]);
            }
        }
    }
}


// ---------------------------------------------------------------------------
// Every operation keeps the tree well formed
// ---------------------------------------------------------------------------

proof fn lemma_sorted_remove(keys: Seq<Seq<char>>, i: int)
    requires
        strictly_sorted(keys),
        0 <= i < keys.len(),
    ensures
        strictly_sorted(keys.remove(i)),
{
    let r = keys.remove(i);
    assert forall|a: int, b: int| 0 <= a < b < r.len() implies seq_lt(#[trigger] r[a], #[trigger] r[b]) by {
        let oa = if a < i { a } else { a + 1 };
        let ob = if b < i { b } else { b + 1 };
        assert(r[a] == keys[oa] && r[b] == keys[ob]);
    }
}

/// Refreshing keeps the id, the labels and the well-formedness of a node.
proof fn lemma_refreshed_wf(m: NodeModel)
    requires
        wf(m),
    ensures
        wf(refreshed(m)),
        refreshed(m).labels == m.labels,
        refreshed(m).id == m.id,
        refreshed(m).entry_nodes == m.entry_nodes,
    decreases m,
{
    lemma_refreshed_children(m.children);
    let cs = refreshed_children(m.children);
    assert forall|i: int| 0 <= i < cs.len() implies wf(#[trigger] cs[i]) && cs[i].labels == m.children[i].labels by {
        lemma_refreshed_wf(m.children[i]);
    }
    assert(child_keys(cs) =~= child_keys(m.children));
}

/// Removing a leaf keeps the id, the labels and the well-formedness of a node.
proof fn lemma_removed_wf(m: NodeModel, t: Seq<char>)
    requires
        wf(m),
    ensures
        wf(removed(m, t)),
        removed(m, t).labels == m.labels,
        removed(m, t).id == m.id,
    decreases m,
{
    let keys = entry_keys(m.entry_nodes);
    if keys.contains(t) {
        let i = find_key(keys, t);
        let j = choose|j: int| 0 <= j < keys.len() && keys[j] == t;
        lemma_find_key_bound(keys, t, j);
        lemma_sorted_remove(keys, i);
        assert(entry_keys(m.entry_nodes.remove(i)) =~= keys.remove(i));
    } else {
        let k = first_holding(m.children, t, 0);
        lemma_first_holding_bound(m.children, t, 0);
        if 0 <= k < m.children.len() {
            let c = removed(m.children[k], t);
            lemma_removed_wf(m.children[k], t);
            lemma_refreshed_children(m.children.take(k));
            let pre = refreshed_children(m.children.take(k));
            assert forall|i: int| 0 <= i < pre.len() implies wf(#[trigger] pre[i]) && pre[i].labels == m.children[i].labels by {
                lemma_refreshed_wf(m.children[i]);
            }
            let cs = pre + (if is_empty_group(c) { Seq::empty() } else { seq![c] }) + m.children.skip(k + 1);
            if is_empty_group(c) {
                assert(child_keys(cs) =~= child_keys(m.children).remove(k));
                lemma_sorted_remove(child_keys(m.children), k);
            } else {
                assert(child_keys(cs) =~= child_keys(m.children));
            }
            assert forall|i: int| 0 <= i < cs.len() implies #[trigger] cs[i].labels.len() > 0 && wf(cs[i]) by {
                if i < k {
                } else if i == k && !is_empty_group(c) {
                } else {
                    let oi = if is_empty_group(c) { i + 1 } else { i };
                    assert(cs[i] == m.children[oi]);
                }
            }
        } else {
            lemma_refreshed_wf(m);
        }
    }
}

pub(crate) proof fn lemma_find_key_bound(keys: Seq<Seq<char>>, t: Seq<char>, j: int)
    requires
        0 <= j < keys.len(),
        keys[j] == t,
    ensures
        0 <= find_key(keys, t) <= j,
        keys[find_key(keys, t)] == t,
    decreases keys.len(),
{
    if keys[0] != t {
        lemma_find_key_bound(keys.drop_first(), t, j - 1);
    }
}

proof fn lemma_first_holding_bound(cs: Seq<NodeModel>, t: Seq<char>, i: int)
    requires
        0 <= i,
    ensures
        i <= first_holding(cs, t, i) <= cs.len() || (i > cs.len() && first_holding(cs, t, i) == cs.len()),
    decreases cs.len() - i,
{
    if i < cs.len() && !holds_entry(cs[i], t) {
        lemma_first_holding_bound(cs, t, i + 1);
    }
}

/// Collecting leaves under their ids gives strictly ordered ids.
proof fn lemma_collect_entries_sorted(s: Seq<NodeModel>)
    ensures
        strictly_sorted(entry_keys(collect_entries(s))),
    decreases s.len(),
{
    if s.len() > 0 {
        lemma_collect_entries_sorted(s.drop_last());
        let c = collect_entries(s.drop_last());
        let key_of = |e: NodeModel| e.id;
        assert(entry_keys(c) == c.map_values(key_of));
        lemma_put_keyed_sorted(c, entry_keys(c), s.last().id, s.last(), key_of);
        assert(entry_keys(collect_entries(s)) =~= collect_entries(s).map_values(key_of));
    } else {
        assert(entry_keys(collect_entries(s)) =~= Seq::<Seq<char>>::empty());
    }
}

/// Renaming keeps the id, the labels and the well-formedness of a node.
proof fn lemma_renamed_wf(m: NodeModel, r: Map<i64, i64>)
    requires
        wf(m),
    ensures
        wf(renamed(m, r)),
        renamed(m, r).labels == m.labels,
        renamed(m, r).id == m.id,
    decreases m,
{
    lemma_renamed_children(m.children, r);
    let cs = renamed_children(m.children, r);
    assert forall|i: int| 0 <= i < cs.len() implies wf(#[trigger] cs[i]) && cs[i].labels == m.children[i].labels by {
        lemma_renamed_wf(m.children[i], r);
    }
    assert(child_keys(cs) =~= child_keys(m.children));
    lemma_collect_entries_sorted(m.entry_nodes.map_values(|e: NodeModel| renamed_leaf(e, r)));
}


/// Toggling keeps the id, the labels and the well-formedness of a node.
pub proof fn lemma_toggled_wf(m: NodeModel, ids: Seq<Seq<char>>)
    requires
        wf(m),
    ensures
        wf(toggled_selected(m, ids)),
        wf(toggled_collapsed(m, ids)),
        toggled_selected(m, ids).labels == m.labels,
        toggled_collapsed(m, ids).labels == m.labels,
{
    lemma_toggled_selected_wf(m, ids);
    lemma_toggled_collapsed_wf(m, ids);
}

proof fn lemma_toggled_selected_wf(m: NodeModel, ids: Seq<Seq<char>>)
    requires
        wf(m),
    ensures
        wf(toggled_selected(m, ids)),
        toggled_selected(m, ids).labels == m.labels,
    decreases m,
{
    let a = toggled_selected(m, ids);
    assert forall|i: int| 0 <= i < m.children.len() implies wf(#[trigger] a.children[i])
        && a.children[i].labels == m.children[i].labels by {
        lemma_toggled_selected_wf(m.children[i], ids);
    }
    assert(child_keys(a.children) =~= child_keys(m.children));
    assert(entry_keys(a.entry_nodes) =~= entry_keys(m.entry_nodes));
}

proof fn lemma_toggled_collapsed_wf(m: NodeModel, ids: Seq<Seq<char>>)
    requires
        wf(m),
    ensures
        wf(toggled_collapsed(m, ids)),
        toggled_collapsed(m, ids).labels == m.labels,
    decreases m,
{
    let b = toggled_collapsed(m, ids);
    assert forall|i: int| 0 <= i < m.children.len() implies wf(#[trigger] b.children[i])
        && b.children[i].labels == m.children[i].labels by {
        lemma_toggled_collapsed_wf(m.children[i], ids);
    }
    assert(child_keys(b.children) =~= child_keys(m.children));
    assert(entry_keys(b.entry_nodes) =~= entry_keys(m.entry_nodes));
}

// ---------------------------------------------------------------------------
// Executable helpers
// ---------------------------------------------------------------------------

/// Whether `s@` is one of `ids`.
fn is_listed(ids: &[String], s: &String) -> (r: bool)
    ensures
        r == listed(views(ids@), s@),
{
    let mut i: usize = 0;
    while i < ids.len()
        invariant
            0 <= i <= ids@.len(),
            forall|j: int| 0 <= j < i ==> ids@[j]@ != s@,
        decreases ids.len() - i,
    {
        if ids[i] == *s {
            assert(views(ids@)[i as int] == s@);
            return true;
        }
        i += 1;
    }
    assert(!views(ids@).contains(s@)) by {
        assert forall|j: int| 0 <= j < views(ids@).len() implies views(ids@)[j] != s@ by {
            assert(views(ids@)[j] == ids@[j]@);
        }
    }
    false
}

/// `entry-` as a string.
fn entry_prefix_string() -> (s: String)
    ensures
        s@ == entry_prefix(),
{
    let s = String::from_str("entry-");
    proof {
        reveal_strlit("entry-");
        assert(s@ =~= entry_prefix());
    }
    s
}

/// Whether `id` starts with `entry-`.
pub(crate) fn id_is_entry(id: &str) -> (r: bool)
    ensures
        r == is_entry_id(id@),
{
    let p = entry_prefix_string();
    starts_with(id, p.as_str())
}

/// `id` without the `entry-` prefix, where it has one.
pub(crate) fn strip_entry(id: &str) -> (r: String)
    ensures
        r@ == strip_entry_prefix(id@),
{
    let v = chars_of(id);
    if id_is_entry(id) {
        string_from_range(&v, 6, v.len())
    } else {
        string_from_chars(&v)
    }
}

/// The leaf id for the history index `entry_id`: `entry-{entry_id}`.
pub fn into_node_id(entry_id: i64) -> (s: String)
    ensures
        s@ == node_id_of(entry_id as int),
{
    let mut s = entry_prefix_string();
    let d = i64_to_decimal(entry_id);
    append_str(&mut s, d.as_str());
    s
}

impl ContextTreeNode {
    /// A fresh node with the given id and labels: updated, selected and
    /// expanded, with no children and empty title and summary; its
    /// `min_entry_id` is its own index for an entry leaf, `i64::MAX` otherwise.
    pub fn new(id: &str, labels: Vec<String>) -> (n: Self)
        ensures
            n@ == new_model(id@, views(labels@)),
    {
        let min_entry_id = if id_is_entry(id) {
            let v = chars_of(id);
            let rest = string_from_range(&v, 6, v.len());
            match parse_i64(rest.as_str()) {
                Some(x) => x,
                None => i64::MAX,
            }
        } else {
            i64::MAX
        };
        let n = ContextTreeNode {
            id: copy_str(id),
            labels,
            updated: true,
            children: Vec::new(),
            entry_nodes: Vec::new(),
            title: String::new(),
            summary: String::new(),
            selected: true,
            collapsed: false,
            min_entry_id,
        };
        assert(n@.children =~= Seq::<NodeModel>::empty());
        assert(n@.entry_nodes =~= Seq::<NodeModel>::empty());
        assert(n@.id == id@);
        assert(n@.labels == views(labels@));
        assert(n@.title == Seq::<char>::empty());
        assert(n@.min_entry_id == initial_min_entry_id(id@));
        assert(n@ =~= new_model(id@, views(labels@)));
        n
    }

    /// Whether this node is an entry leaf (its id starts with `entry-`).
    pub fn is_entry(&self) -> (r: bool)
        ensures
            r == is_entry_id(self.id@),
    {
        id_is_entry(self.id.as_str())
    }

    /// The history index this node's id names (0 where it names none).
    pub fn entry_id(&self) -> (r: i64)
        ensures
            r == entry_id_of(self.id@),
    {
        let rest = strip_entry(self.id.as_str());
        match parse_i64(rest.as_str()) {
            Some(v) => v,
            None => 0,
        }
    }

    /// Sets `min_entry_id` from this node's own id (for a leaf) or from its
    /// entry leaves and children.
    pub fn recompute_min_entry_id(&mut self)
        ensures
            final(self)@ == (NodeModel { min_entry_id: recomputed_min(old(self)@), ..old(self)@ }),
    {
        if self.is_entry() {
            self.min_entry_id = self.entry_id();
            assert(self@ =~= (NodeModel { min_entry_id: recomputed_min(old(self)@), ..old(self)@ }));
            return;
        }
        let mut min_id = i64::MAX;
        let mut i: usize = 0;
        while i < self.entry_nodes.len()
            invariant
                0 <= i <= self.entry_nodes@.len(),
                min_id == min_over_entries(self@.entry_nodes.take(i as int)),
            decreases self.entry_nodes.len() - i,
        {
            let e = self.entry_nodes[i].entry_id();
            proof {
                assert(self@.entry_nodes.take(i + 1).drop_last() =~= self@.entry_nodes.take(i as int));
                assert(self@.entry_nodes[i as int] == self.entry_nodes@[i as int]@);
            }
            if e < min_id {
                min_id = e;
            }
            i += 1;
        }
        assert(self@.entry_nodes.take(self.entry_nodes@.len() as int) =~= self@.entry_nodes);
        let ghost me = min_id;
        let mut j: usize = 0;
        while j < self.children.len()
            invariant
                0 <= j <= self.children@.len(),
                me == min_over_entries(self@.entry_nodes),
                min_id == min_i64(me, min_over_children(self@.children.take(j as int))),
            decreases self.children.len() - j,
        {
            let c = self.children[j].min_entry_id;
            proof {
                assert(self@.children.take(j + 1).drop_last() =~= self@.children.take(j as int));
                assert(self@.children[j as int] == self.children@[j as int]@);
            }
            if c < min_id {
                min_id = c;
            }
            j += 1;
        }
        assert(self@.children.take(self.children@.len() as int) =~= self@.children);
        self.min_entry_id = min_id;
        assert(self@ =~= (NodeModel { min_entry_id: recomputed_min(old(self)@), ..old(self)@ }));
    }
}

/// Flips `selected` on every node and leaf of `node` whose id is listed.
fn toggle_node_selected(node: &mut ContextTreeNode, node_ids: &[String])
    ensures
        final(node)@ == toggled_selected(old(node)@, views(node_ids@)),
    decreases *old(node),
{
    let ghost ids = views(node_ids@);
    if is_listed(node_ids, &node.id) {
        node.selected = !node.selected;
    }
    let ne = node.entry_nodes.len();
    let mut i: usize = 0;
    while i < ne
        invariant
            0 <= i <= ne,
            ne == node.entry_nodes@.len(),
            ids == views(node_ids@),
            node.entry_nodes@.len() == old(node).entry_nodes@.len(),
            forall|j: int|
                0 <= j < i ==> #[trigger] node.entry_nodes@[j]@ == toggled_selected(old(node)@, ids).entry_nodes[j],
            forall|j: int| i <= j < ne ==> node.entry_nodes@[j] == old(node).entry_nodes@[j],
            node.id == old(node).id,
            node.labels == old(node).labels,
            node.updated == old(node).updated,
            node.children == old(node).children,
            node.title == old(node).title,
            node.summary == old(node).summary,
            node.collapsed == old(node).collapsed,
            node.min_entry_id == old(node).min_entry_id,
            node.selected == toggled_selected(old(node)@, ids).selected,
        decreases ne - i,
    {
        let ghost e_old = old(node).entry_nodes@[i as int];
        assert(old(node)@.entry_nodes[i as int] == e_old@);
        if is_listed(node_ids, &node.entry_nodes[i].id) {
            let s = node.entry_nodes[i].selected;
            node.entry_nodes[i].selected = !s;
        }
        proof {
            let t = toggled_selected(old(node)@, ids);
            assert(t.entry_nodes[i as int] == (NodeModel {
                selected: if listed(ids, e_old@.id) { !e_old@.selected } else { e_old@.selected },
                ..e_old@
            }));
            assert(node.entry_nodes@[i as int].children == e_old.children);
            assert(node.entry_nodes@[i as int].entry_nodes == e_old.entry_nodes);
            assert(node.entry_nodes@[i as int]@.children == e_old@.children);
            assert(node.entry_nodes@[i as int]@ =~= toggled_selected(old(node)@, ids).entry_nodes[i as int]);
        }
        i += 1;
    }
    let nc = node.children.len();
    let mut k: usize = 0;
    while k < nc
        invariant
            0 <= k <= nc,
            nc == node.children@.len(),
            ids == views(node_ids@),
            node.children@.len() == old(node).children@.len(),
            forall|j: int|
                0 <= j < k ==> #[trigger] node.children@[j]@ == toggled_selected(old(node)@, ids).children[j],
            forall|j: int| k <= j < nc ==> node.children@[j] == old(node).children@[j],
            node.entry_nodes@.len() == old(node).entry_nodes@.len(),
            forall|j: int|
                0 <= j < ne ==> #[trigger] node.entry_nodes@[j]@ == toggled_selected(old(node)@, ids).entry_nodes[j],
            ne == node.entry_nodes@.len(),
            node.id == old(node).id,
            node.labels == old(node).labels,
            node.updated == old(node).updated,
            node.title == old(node).title,
            node.summary == old(node).summary,
            node.collapsed == old(node).collapsed,
            node.min_entry_id == old(node).min_entry_id,
            node.selected == toggled_selected(old(node)@, ids).selected,
        decreases nc - k,
    {
        toggle_node_selected(&mut node.children[k], node_ids);
        k += 1;
    }
    proof {
        let t = toggled_selected(old(node)@, ids);
        assert forall|j: int| 0 <= j < nc implies node@.children[j] == t.children[j] by {
            assert(node.children@[j]@ == t.children[j]);
        }
        assert forall|j: int| 0 <= j < ne implies node@.entry_nodes[j] == t.entry_nodes[j] by {
            assert(node.entry_nodes@[j]@ == t.entry_nodes[j]);
        }
        assert(node@.children =~= t.children);
        assert(node@.entry_nodes =~= t.entry_nodes);
    }
    assert(node@ =~= toggled_selected(old(node)@, ids));
}

/// Flips `collapsed` on every node and leaf of `node` whose id is listed.
fn toggle_node_collapsed(node: &mut ContextTreeNode, node_ids: &[String])
    ensures
        final(node)@ == toggled_collapsed(old(node)@, views(node_ids@)),
    decreases *old(node),
{
    let ghost ids = views(node_ids@);
    if is_listed(node_ids, &node.id) {
        node.collapsed = !node.collapsed;
    }
    let ne = node.entry_nodes.len();
    let mut i: usize = 0;
    while i < ne
        invariant
            0 <= i <= ne,
            ne == node.entry_nodes@.len(),
            ids == views(node_ids@),
            node.entry_nodes@.len() == old(node).entry_nodes@.len(),
            forall|j: int|
                0 <= j < i ==> #[trigger] node.entry_nodes@[j]@ == toggled_collapsed(old(node)@, ids).entry_nodes[j],
            forall|j: int| i <= j < ne ==> node.entry_nodes@[j] == old(node).entry_nodes@[j],
            node.id == old(node).id,
            node.labels == old(node).labels,
            node.updated == old(node).updated,
            node.children == old(node).children,
            node.title == old(node).title,
            node.summary == old(node).summary,
            node.selected == old(node).selected,
            node.min_entry_id == old(node).min_entry_id,
            node.collapsed == toggled_collapsed(old(node)@, ids).collapsed,
        decreases ne - i,
    {
        let ghost e_old = old(node).entry_nodes@[i as int];
        assert(old(node)@.entry_nodes[i as int] == e_old@);
        if is_listed(node_ids, &node.entry_nodes[i].id) {
            let s = node.entry_nodes[i].collapsed;
            node.entry_nodes[i].collapsed = !s;
        }
        proof {
            assert(node.entry_nodes@[i as int]@.children == e_old@.children);
            assert(node.entry_nodes@[i as int]@ =~= toggled_collapsed(old(node)@, ids).entry_nodes[i as int]);
        }
        i += 1;
    }
    let nc = node.children.len();
    let mut k: usize = 0;
    while k < nc
        invariant
            0 <= k <= nc,
            nc == node.children@.len(),
            ids == views(node_ids@),
            node.children@.len() == old(node).children@.len(),
            forall|j: int|
                0 <= j < k ==> #[trigger] node.children@[j]@ == toggled_collapsed(old(node)@, ids).children[j],
            forall|j: int| k <= j < nc ==> node.children@[j] == old(node).children@[j],
            node.entry_nodes@.len() == old(node).entry_nodes@.len(),
            forall|j: int|
                0 <= j < ne ==> #[trigger] node.entry_nodes@[j]@ == toggled_collapsed(old(node)@, ids).entry_nodes[j],
            ne == node.entry_nodes@.len(),
            node.id == old(node).id,
            node.labels == old(node).labels,
            node.updated == old(node).updated,
            node.title == old(node).title,
            node.summary == old(node).summary,
            node.selected == old(node).selected,
            node.min_entry_id == old(node).min_entry_id,
            node.collapsed == toggled_collapsed(old(node)@, ids).collapsed,
        decreases nc - k,
    {
        toggle_node_collapsed(&mut node.children[k], node_ids);
        k += 1;
    }
    proof {
        let t = toggled_collapsed(old(node)@, ids);
        assert forall|j: int| 0 <= j < nc implies node@.children[j] == t.children[j] by {
            assert(node.children@[j]@ == t.children[j]);
        }
        assert forall|j: int| 0 <= j < ne implies node@.entry_nodes[j] == t.entry_nodes[j] by {
            assert(node.entry_nodes@[j]@ == t.entry_nodes[j]);
        }
        assert(node@.children =~= t.children);
        assert(node@.entry_nodes =~= t.entry_nodes);
    }
    assert(node@ =~= toggled_collapsed(old(node)@, ids));
}

/// Appends the indices of the selected entry leaves under `node` to `out`.
fn collect_selected_entry_ids(node: &ContextTreeNode, out: &mut Vec<i64>)
    ensures
        final(out)@ == old(out)@ + selected_ids(node@),
    decreases node,
{
    let ghost start = out@;
    let mut i: usize = 0;
    while i < node.entry_nodes.len()
        invariant
            0 <= i <= node.entry_nodes@.len(),
            out@ == start + selected_in_entries(node@.entry_nodes.take(i as int)),
        decreases node.entry_nodes.len() - i,
    {
        let e = &node.entry_nodes[i];
        proof {
            assert(node@.entry_nodes.take(i + 1).drop_last() =~= node@.entry_nodes.take(i as int));
            assert(node@.entry_nodes[i as int] == e@);
        }
        if e.selected {
            out.push(e.entry_id());
        }
        proof {
            assert(out@ =~= start + selected_in_entries(node@.entry_nodes.take(i + 1)));
        }
        i += 1;
    }
    assert(node@.entry_nodes.take(node.entry_nodes@.len() as int) =~= node@.entry_nodes);
    let ghost mid = out@;
    let ghost cs = node@.children;
    let mut k: usize = 0;
    while k < node.children.len()
        invariant
            0 <= k <= node.children@.len(),
            cs == node@.children,
            out@ == mid + concat_all(selected_per_child(cs.take(k as int))),
            mid == old(out)@ + selected_in_entries(node@.entry_nodes),
        decreases node.children.len() - k,
    {
        collect_selected_entry_ids(&node.children[k], out);
        proof {
            assert(cs.take(k + 1).drop_last() =~= cs.take(k as int));
            assert(cs.take(k + 1).last() == node.children@[k as int]@);
            let prev = selected_per_child(cs.take(k as int));
            let cur = selected_per_child(cs.take(k + 1));
            assert(cur == prev.push(selected_ids(node.children@[k as int]@)));
            assert(cur.drop_last() =~= prev);
            assert(concat_all(cur) == concat_all(prev) + selected_ids(node.children@[k as int]@));
            assert(out@ =~= mid + concat_all(selected_per_child(cs.take(k + 1))));
        }
        k += 1;
    }
    assert(cs.take(node.children@.len() as int) =~= cs);
    assert(out@ =~= old(out)@ + selected_ids(node@));
}


/// The models of a list of nodes.
pub open spec fn models(v: Seq<ContextTreeNode>) -> Seq<NodeModel> {
    v.map_values(|n: ContextTreeNode| n@)
}

pub proof fn lemma_models_of(node: &ContextTreeNode)
    ensures
        node@.children == models(node.children@),
        node@.entry_nodes == models(node.entry_nodes@),
{
    assert(node@.children =~= models(node.children@));
    assert(node@.entry_nodes =~= models(node.entry_nodes@));
}

/// Where the key `k` goes among the entry leaves `v`.
fn entries_lower_bound(v: &Vec<ContextTreeNode>, k: &String) -> (p: usize)
    ensures
        p == lower_bound(entry_keys(models(v@)), k@),
        p <= v@.len(),
{
    let ghost keys = entry_keys(models(v@));
    let mut i: usize = 0;
    while i < v.len() && str_lt(v[i].id.as_str(), k.as_str())
        invariant
            0 <= i <= v@.len(),
            keys == entry_keys(models(v@)),
            forall|j: int| 0 <= j < i ==> seq_lt(#[trigger] keys[j], k@),
        decreases v.len() - i,
    {
        assert(keys[i as int] == v@[i as int].id@);
        i += 1;
    }
    proof {
        if i < v.len() {
            assert(keys[i as int] == v@[i as int].id@);
        }
        lemma_lower_bound_is(keys, k@, i as int);
    }
    i
}

/// Where the key `k` goes among the group children `v`.
fn children_lower_bound(v: &Vec<ContextTreeNode>, k: &String) -> (p: usize)
    requires
        forall|j: int| 0 <= j < v@.len() ==> (#[trigger] v@[j]).labels@.len() > 0,
    ensures
        p == lower_bound(child_keys(models(v@)), k@),
        p <= v@.len(),
{
    let ghost keys = child_keys(models(v@));
    let mut i: usize = 0;
    while i < v.len() && str_lt(v[i].labels[v[i].labels.len() - 1].as_str(), k.as_str())
        invariant
            0 <= i <= v@.len(),
            keys == child_keys(models(v@)),
            forall|j: int| 0 <= j < v@.len() ==> (#[trigger] v@[j]).labels@.len() > 0,
            forall|j: int| 0 <= j < i ==> seq_lt(#[trigger] keys[j], k@),
        decreases v.len() - i,
    {
        assert(keys[i as int] == v@[i as int].labels@.last()@);
        i += 1;
    }
    proof {
        if i < v.len() {
            assert(keys[i as int] == v@[i as int].labels@.last()@);
        }
        lemma_lower_bound_is(keys, k@, i as int);
    }
    i
}

/// Stores the leaf `e` among the entry leaves `v`, under its id.
fn put_entry_node(v: &mut Vec<ContextTreeNode>, e: ContextTreeNode)
    ensures
        models(final(v)@) == put_entry(models(old(v)@), e@),
{
    let p = entries_lower_bound(v, &e.id);
    let ghost m = models(v@);
    if p < v.len() && v[p].id == e.id {
        let ghost em = e@;
        v.set(p, e);
        assert(models(v@) =~= m.update(p as int, em));
    } else {
        let ghost em = e@;
        v.insert(p, e);
        assert(models(v@) =~= m.insert(p as int, em));
    }
}

/// Inserts the leaf `entry_node` under `node`, following the entry's labels
/// from `depth` on.
#[verifier::spinoff_prover]
#[verifier::rlimit(50)]
fn insert_entry_into_tree(node: &mut ContextTreeNode, entry_node: ContextTreeNode, depth: usize)
    requires
        wf(old(node)@),
    ensures
        final(node)@ == inserted(old(node)@, entry_node@, depth as nat),
        wf(final(node)@),
    decreases entry_node.labels@.len() - depth,
{
    proof {
        lemma_models_of(node);
    }
    if depth >= entry_node.labels.len() {
        let entry_id = entry_node.entry_id();
        let ghost em = entry_node@;
        put_entry_node(&mut node.entry_nodes, entry_node);
        node.updated = true;
        if entry_id < node.min_entry_id {
            node.min_entry_id = entry_id;
        }
        proof {
            lemma_models_of(node);
            lemma_put_keyed_sorted(
                old(node)@.entry_nodes,
                entry_keys(old(node)@.entry_nodes),
                em.id,
                em,
                |e: NodeModel| e.id,
            );
            assert(node@ =~= inserted(old(node)@, em, depth as nat));
            assert(node@.children == old(node)@.children);
        }
        return;
    }
    let label = entry_node.labels[depth].clone();
    assert(forall|j: int| 0 <= j < node.children@.len() ==> (#[trigger] node.children@[j]).labels@.len() > 0) by {
        assert forall|j: int| 0 <= j < node.children@.len() implies (#[trigger] node.children@[j]).labels@.len() > 0 by {
            assert(node@.children[j] == node.children@[j]@);
            assert(node@.children[j].labels == views(node.children@[j].labels@));
            assert(node@.children[j].labels.len() > 0);
        }
    }
    let p = children_lower_bound(&node.children, &label);
    let ghost em = entry_node@;
    let ghost old_m = old(node)@;
    let found = p < node.children.len() && {
        let c = &node.children[p];
        c.labels[c.labels.len() - 1] == label
    };
    assert(found == (p < old_m.children.len() && child_key(old_m.children[p as int]) == label@)) by {
        if p < old_m.children.len() {
            assert(old_m.children[p as int] == node.children@[p as int]@);
        }
    }
    if !found {
        let mut labels = crate::recorder::copy_labels(&node.labels);
        labels.push(label);
        let sep = String::from_str("/");
        let mut id = String::from_str("/");
        proof {
            reveal_strlit("/");
        }
        let joined = join(&labels, sep.as_str());
        append_str(&mut id, joined.as_str());
        proof {
            assert(views(labels@) =~= old_m.labels.push(label@));
        }
        proof {
            assert(sep@ == seq!['/']);
            assert(joined@ == join_seq(old_m.labels.push(label@), seq!['/']));
            assert(id@ == seq!['/'] + join_seq(old_m.labels.push(label@), seq!['/']));
        }
        let child = ContextTreeNode::new(id.as_str(), labels);
        assert(child@ == new_model(group_id(old_m.labels.push(label@)), old_m.labels.push(label@)));
        node.children.insert(p, child);
        proof {
            assert(node.children@[p as int] == child);
        }
    }
    let ghost child_before = node.children@[p as int]@;
    proof {
        lemma_models_of(node);
        let lbl = label@;
        if found {
            assert(child_before == old_m.children[p as int]);
            assert(wf(child_before));
        } else {
            assert(child_before == new_model(group_id(old_m.labels.push(lbl)), old_m.labels.push(lbl)));
        }
    }
    insert_entry_into_tree(&mut node.children[p], entry_node, depth + 1);
    let cm = node.children[p].min_entry_id;
    if cm < node.min_entry_id {
        node.min_entry_id = cm;
    }
    node.updated = true;
    proof {
        lemma_models_of(node);
        let t = inserted(old_m, em, depth as nat);
        let lbl = label@;
        assert(em.labels[depth as int] == lbl);
        assert(node@.children[p as int] == inserted(child_before, em, depth as nat + 1));
        if found {
            assert(node@.children =~= old_m.children.update(p as int, node@.children[p as int]));
        } else {
            assert(node@.children =~= old_m.children.insert(p as int, node@.children[p as int]));
        }
        assert(node@ =~= t);
        let c2 = node@.children[p as int];
        assert(c2.labels == child_before.labels);
        assert(child_key(c2) == lbl);
        assert(c2.labels.len() > 0);
        let key_of = |c: NodeModel| child_key(c);
        assert(child_keys(old_m.children) == old_m.children.map_values(key_of));
        lemma_put_keyed_sorted(old_m.children, child_keys(old_m.children), lbl, c2, key_of);
        assert(node@.children == put_keyed(old_m.children, child_keys(old_m.children), lbl, c2));
        assert(child_keys(node@.children) =~= node@.children.map_values(key_of));
        assert forall|j: int| 0 <= j < node@.children.len() implies #[trigger] node@.children[j].labels.len() > 0 && wf(node@.children[j]) by {
            if j != p {
                let oj = if j < p || found { j } else { j - 1 };
                assert(node@.children[j] == old_m.children[oj]);
            }
        }
        assert(wf(node@));
    }
}


/// Removes the leaf `target` from under `node`, dropping groups that end up
/// empty; returns whether it was found.
fn remove_entry_from_tree(node: &mut ContextTreeNode, target: &String) -> (found: bool)
    ensures
        final(node)@ == removed(old(node)@, target@),
        found == holds_entry(old(node)@, target@),
    decreases *old(node),
{
    let ghost old_m = old(node)@;
    let ghost t = target@;
    proof {
        lemma_models_of(node);
        lemma_holds_entry(old_m, t);
    }
    let ne = node.entry_nodes.len();
    let mut i: usize = 0;
    while i < ne && !(node.entry_nodes[i].id == *target)
        invariant
            0 <= i <= ne,
            ne == node.entry_nodes@.len(),
            node@ == old_m,
            old_m == old(node)@,
            t == target@,
            forall|j: int| 0 <= j < i ==> #[trigger] entry_keys(old_m.entry_nodes)[j] != t,
        decreases ne - i,
    {
        proof {
            lemma_models_of(node);
            assert(models(node.entry_nodes@)[i as int] == node.entry_nodes@[i as int]@);
            assert(entry_keys(old_m.entry_nodes)[i as int] == node.entry_nodes@[i as int].id@);
            assert(node.entry_nodes@[i as int].id@ != target@);
        }
        i += 1;
    }
    if i < ne {
        proof {
            lemma_models_of(node);
            let keys = entry_keys(old_m.entry_nodes);
            assert(keys[i as int] == node.entry_nodes@[i as int].id@);
            assert(keys[i as int] == t);
            lemma_find_key(keys, t, i as int);
        }
        node.entry_nodes.remove(i);
        node.updated = true;
        proof {
            lemma_models_of(node);
            assert(node@.entry_nodes =~= old_m.entry_nodes.remove(i as int));
        }
        node.recompute_min_entry_id();
        proof {
            assert(node@ =~= removed(old_m, t));
        }
        return true;
    }
    proof {
        let keys = entry_keys(old_m.entry_nodes);
        assert(!keys.contains(t)) by {
            assert forall|j: int| 0 <= j < keys.len() implies keys[j] != t by {}
        }
    }
    let n = node.children.len();
    let mut k: usize = 0;
    while k < n
        invariant
            0 <= k <= n,
            n == node.children@.len(),
            n == old_m.children.len(),
            old_m == old(node)@,
            !entry_keys(old_m.entry_nodes).contains(t),
            t == target@,
            holds_entry(old_m, t) <==> (exists|j: int| 0 <= j < n && holds_entry(#[trigger] old_m.children[j], t)),
            forall|j: int| 0 <= j < k ==> !holds_entry(#[trigger] old_m.children[j], t),
            forall|j: int| 0 <= j < k ==> #[trigger] node.children@[j]@ == refreshed(old_m.children[j]),
            forall|j: int| k <= j < n ==> #[trigger] node.children@[j]@ == old_m.children[j],
            forall|j: int| k <= j < n ==> #[trigger] node.children@[j] == old(node).children@[j],
            node.updated == (old_m.updated || any_updated(refreshed_children(old_m.children.take(k as int)))),
            node@ == (NodeModel { children: node@.children, updated: node.updated, ..old_m }),
        decreases n - k,
    {
        let ghost ck = old_m.children[k as int];
        proof {
            lemma_models_of(node);
            assert(node.children@[k as int] == old(node).children@[k as int]);
            assert(decreases_to!(*old(node) => old(node).children));
            assert(decreases_to!(old(node).children => old(node).children@));
            assert(k < old(node).children@.len());
            assert(decreases_to!(old(node).children@ => old(node).children@[k as int]));
            assert(decreases_to!(*old(node) => old(node).children@[k as int]));
        }
        let f = remove_entry_from_tree(&mut node.children[k], target);
        if f {
            proof {
                lemma_first_holding(old_m.children, t, 0, k as int);
                lemma_refreshed_children(old_m.children.take(k as int));
            }
            let empty = node.children[k].children.len() == 0 && node.children[k].entry_nodes.len() == 0;
            let ghost c = node.children@[k as int]@;
            proof {
                lemma_models_of(&node.children@[k as int]);
            }
            if empty {
                node.children.remove(k);
            }
            node.updated = true;
            proof {
                lemma_models_of(node);
                let cs = refreshed_children(old_m.children.take(k as int)) + (if is_empty_group(c) {
                    Seq::empty()
                } else {
                    seq![c]
                }) + old_m.children.skip(k + 1);
                assert(node@.children =~= cs) by {
                    assert forall|j: int| 0 <= j < cs.len() implies node@.children[j] == cs[j] by {
                        if j < k {
                            assert(node.children@[j]@ == refreshed(old_m.children[j]));
                            assert(old_m.children.take(k as int)[j] == old_m.children[j]);
                        } else if j == k && !empty {
                        } else {
                            let oj = if empty { j + 1 } else { j };
                            assert(node.children@[j] == old(node).children@[oj]);
                        }
                    }
                }
            }
            node.recompute_min_entry_id();
            proof {
                assert(node@ =~= removed(old_m, t));
            }
            return true;
        }
        proof {
            lemma_removed_absent(ck, t);
            lemma_models_of(node);
        }
        let cu = node.children[k].updated;
        assert(cu == refreshed(ck).updated);
        let ghost prev_updated = node.updated;
        node.updated = node.updated || cu;
        proof {
            assert(node.updated == (prev_updated || refreshed(ck).updated));
            lemma_refreshed_children(old_m.children.take(k + 1));
            lemma_refreshed_children(old_m.children.take(k as int));
            let a = refreshed_children(old_m.children.take(k as int));
            let b = refreshed_children(old_m.children.take(k + 1));
            assert(b == a.push(refreshed(ck))) by {
                assert(old_m.children.take(k + 1).drop_last() =~= old_m.children.take(k as int));
            }
            if any_updated(b) {
                let j = choose|j: int| 0 <= j < b.len() && (#[trigger] b[j]).updated;
                if j < k {
                    assert(a[j] == b[j]);
                }
            }
            if any_updated(a) {
                let j = choose|j: int| 0 <= j < a.len() && (#[trigger] a[j]).updated;
                assert(b[j] == a[j]);
            }
            if refreshed(ck).updated {
                assert(b[k as int] == refreshed(ck));
            }
            assert(any_updated(b) == (any_updated(a) || refreshed(ck).updated));
            lemma_models_of(node);
            assert(node@ =~= (NodeModel { children: node@.children, updated: node.updated, ..old_m }));
        }
        k += 1;
    }
    proof {
        lemma_models_of(node);
        lemma_refreshed_children(old_m.children);
        assert(old_m.children.take(n as int) =~= old_m.children);
        assert(node@.children =~= refreshed_children(old_m.children)) by {
            assert forall|j: int| 0 <= j < n implies node@.children[j] == refreshed_children(old_m.children)[j] by {
                assert(node.children@[j]@ == refreshed(old_m.children[j]));
            }
        }
        lemma_first_holding(old_m.children, t, 0, n as int);
    }
    node.recompute_min_entry_id();
    proof {
        assert(node@ =~= removed(old_m, t));
    }
    false
}


/// The leaf `e` renamed as `renames` says.
fn rename_leaf(e: &mut ContextTreeNode, renames: &HashMap<i64, i64>)
    ensures
        final(e)@ == renamed_leaf(old(e)@, renames@),
{
    let k = e.entry_id();
    let ghost r = renames@;
    let ghost em = e@;
    match renames.get(&k) {
        Some(n) => {
            let old_id = into_node_id(k);
            if old_id == e.id {
                let new_id = into_node_id(*n);
                e.id = new_id;
                proof {
                    lemma_models_of(e);
                    assert(renamed_from(em.id, r));
                    let o = choose|o: i64| r.dom().contains(o) && node_id_of(o as int) == em.id;
                    lemma_entry_id_of_node_id(o);
                    assert(o == k);
                    assert(e@ =~= renamed_leaf(em, r));
                }
                return;
            }
            proof {
                if renamed_from(em.id, r) {
                    let o = choose|o: i64| r.dom().contains(o) && node_id_of(o as int) == em.id;
                    lemma_entry_id_of_node_id(o);
                }
            }
        },
        None => {
            proof {
                if renamed_from(em.id, r) {
                    let o = choose|o: i64| r.dom().contains(o) && node_id_of(o as int) == em.id;
                    lemma_entry_id_of_node_id(o);
                }
            }
        },
    }
}

/// Renames the leaves under `node` as `renames` says and recomputes
/// `min_entry_id` bottom up.
fn rename_entries_in_tree(node: &mut ContextTreeNode, renames: &HashMap<i64, i64>)
    ensures
        final(node)@ == renamed(old(node)@, renames@),
    decreases *old(node),
{
    let ghost old_m = old(node)@;
    let ghost r = renames@;
    let ghost mapped = old_m.entry_nodes.map_values(|e: NodeModel| renamed_leaf(e, r));
    proof {
        lemma_models_of(node);
    }
    let mut pending: Vec<ContextTreeNode> = Vec::new();
    std::mem::swap(&mut pending, &mut node.entry_nodes);
    let ne = pending.len();
    let mut i: usize = 0;
    while i < ne
        invariant
            0 <= i <= ne,
            ne == old_m.entry_nodes.len(),
            old_m == old(node)@,
            r == renames@,
            mapped == old_m.entry_nodes.map_values(|e: NodeModel| renamed_leaf(e, r)),
            models(pending@) == old_m.entry_nodes.skip(i as int),
            models(node.entry_nodes@) == collect_entries(mapped.take(i as int)),
            node.children == old(node).children,
            node@ == (NodeModel { entry_nodes: node@.entry_nodes, ..old_m }),
        decreases ne - i,
    {
        let ghost before = pending@;
        assert(models(pending@).len() == pending@.len());
        assert(pending@.len() > 0);
        let mut e = pending.remove(0);
        proof {
            assert(e@ == old_m.entry_nodes[i as int]) by {
                assert(models(before)[0] == before[0]@);
                assert(old_m.entry_nodes.skip(i as int)[0] == old_m.entry_nodes[i as int]);
            }
            assert forall|j: int| 0 <= j < pending@.len() implies #[trigger] models(pending@)[j] == old_m.entry_nodes.skip(i + 1)[j] by {
                assert(pending@[j] == before[j + 1]);
                assert(models(before)[j + 1] == before[j + 1]@);
            }
            assert(models(pending@) =~= old_m.entry_nodes.skip(i + 1));
        }
        rename_leaf(&mut e, renames);
        put_entry_node(&mut node.entry_nodes, e);
        proof {
            assert(mapped.take(i + 1).drop_last() =~= mapped.take(i as int));
            assert(mapped.take(i + 1).last() == mapped[i as int]);
            lemma_models_of(node);
            assert(node@ =~= (NodeModel { entry_nodes: node@.entry_nodes, ..old_m }));
        }
        i += 1;
    }
    proof {
        assert(mapped.take(ne as int) =~= mapped);
    }
    let nc = node.children.len();
    let mut k: usize = 0;
    while k < nc
        invariant
            0 <= k <= nc,
            nc == node.children@.len(),
            nc == old_m.children.len(),
            old_m == old(node)@,
            r == renames@,
            forall|j: int| 0 <= j < k ==> #[trigger] node.children@[j]@ == renamed(old_m.children[j], r),
            forall|j: int| k <= j < nc ==> #[trigger] node.children@[j] == old(node).children@[j],
            models(node.entry_nodes@) == collect_entries(mapped),
            mapped == old_m.entry_nodes.map_values(|e: NodeModel| renamed_leaf(e, r)),
            node@ == (NodeModel { entry_nodes: node@.entry_nodes, children: node@.children, ..old_m }),
        decreases nc - k,
    {
        proof {
            lemma_models_of(node);
            assert(node.children@[k as int]@ == old_m.children[k as int]);
            assert(decreases_to!(old(node).children@ => old(node).children@[k as int]));
        }
        rename_entries_in_tree(&mut node.children[k], renames);
        proof {
            lemma_models_of(node);
            assert(node@ =~= (NodeModel { entry_nodes: node@.entry_nodes, children: node@.children, ..old_m }));
        }
        k += 1;
    }
    proof {
        lemma_models_of(node);
        lemma_renamed_children(old_m.children, r);
        assert(node@.children =~= renamed_children(old_m.children, r)) by {
            assert forall|j: int| 0 <= j < nc implies node@.children[j] == renamed_children(old_m.children, r)[j] by {
                assert(node.children@[j]@ == renamed(old_m.children[j], r));
            }
        }
    }
    node.recompute_min_entry_id();
    proof {
        assert(node@ =~= renamed(old_m, r));
    }
}


/// A copy of `n` and everything under it.
pub fn copy_node(n: &ContextTreeNode) -> (r: ContextTreeNode)
    ensures
        r@ == n@,
    decreases n,
{
    let mut children: Vec<ContextTreeNode> = Vec::new();
    let mut i: usize = 0;
    while i < n.children.len()
        invariant
            0 <= i <= n.children@.len(),
            children@.len() == i,
            forall|j: int| 0 <= j < i ==> #[trigger] children@[j]@ == n.children@[j]@,
        decreases n.children.len() - i,
    {
        children.push(copy_node(&n.children[i]));
        i += 1;
    }
    let mut entry_nodes: Vec<ContextTreeNode> = Vec::new();
    let mut k: usize = 0;
    while k < n.entry_nodes.len()
        invariant
            0 <= k <= n.entry_nodes@.len(),
            entry_nodes@.len() == k,
            forall|j: int| 0 <= j < k ==> #[trigger] entry_nodes@[j]@ == n.entry_nodes@[j]@,
        decreases n.entry_nodes.len() - k,
    {
        entry_nodes.push(copy_node(&n.entry_nodes[k]));
        k += 1;
    }
    let r = ContextTreeNode {
        id: n.id.clone(),
        labels: crate::recorder::copy_labels(&n.labels),
        updated: n.updated,
        children,
        entry_nodes,
        title: n.title.clone(),
        summary: n.summary.clone(),
        selected: n.selected,
        collapsed: n.collapsed,
        min_entry_id: n.min_entry_id,
    };
    proof {
        lemma_models_of(&r);
        lemma_models_of(n);
        assert(r@.children =~= n@.children);
        assert(r@.entry_nodes =~= n@.entry_nodes);
        assert(r@ =~= n@);
    }
    r
}

impl ContextTree {
    /// Inserts the leaf for `entry` (id `entry-{entry.id}`, the entry's
    /// labels) under the groups its labels name, creating missing groups.
    pub fn insert_entry_node(&mut self, entry: &CachedEntry)
        requires
            wf(old(self)@),
        ensures
            final(self)@ == inserted(
                old(self)@,
                new_model(node_id_of(entry.id as int), views(entry.labels@)),
                0,
            ),
            wf(final(self)@),
    {
        let id = into_node_id(entry.id);
        let node = ContextTreeNode::new(id.as_str(), crate::recorder::copy_labels(&entry.labels));
        insert_entry_into_tree(&mut self.root, node, 0);
    }

    /// Removes the leaf of history index `entry_id`, dropping groups left empty.
    pub fn remove_entry_node(&mut self, entry_id: i64)
        ensures
            final(self)@ == removed(old(self)@, node_id_of(entry_id as int)),
            wf(old(self)@) ==> wf(final(self)@),
    {
        let node_id = into_node_id(entry_id);
        remove_entry_from_tree(&mut self.root, &node_id);
        proof {
            if wf(old(self)@) {
                lemma_removed_wf(old(self)@, node_id@);
            }
        }
    }

    /// Renames the leaves of the history indices that `renames` maps to the
    /// indices it maps them to.
    pub fn rename_entry_nodes(&mut self, renames: &HashMap<i64, i64>)
        ensures
            final(self)@ == renamed(old(self)@, renames@),
            wf(old(self)@) ==> wf(final(self)@),
    {
        rename_entries_in_tree(&mut self.root, renames);
        proof {
            if wf(old(self)@) {
                lemma_renamed_wf(old(self)@, renames@);
            }
        }
    }

    /// The indices of the selected entry leaves, in tree order.
    pub fn get_selected_entry_ids(&self) -> (ids: Vec<i64>)
        ensures
            ids@ == selected_ids(self@),
    {
        let mut ids: Vec<i64> = Vec::new();
        collect_selected_entry_ids(&self.root, &mut ids);
        assert(ids@ =~= selected_ids(self@));
        ids
    }

    /// Flips `selected` on every node and leaf whose id is listed.
    pub fn toggle_selected(&mut self, node_ids: &[String])
        ensures
            final(self)@ == toggled_selected(old(self)@, views(node_ids@)),
    {
        toggle_node_selected(&mut self.root, node_ids);
    }

    /// Flips `collapsed` on every node and leaf whose id is listed.
    pub fn toggle_collapsed(&mut self, node_ids: &[String])
        ensures
            final(self)@ == toggled_collapsed(old(self)@, views(node_ids@)),
    {
        toggle_node_collapsed(&mut self.root, node_ids);
    }
}

} // verus!
