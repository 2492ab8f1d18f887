//! Laws of the tree's operations: a toggle flips exactly the listed nodes
//! and is undone by the same toggle; an insertion places its leaf under its
//! label path, selected, while every other selection stays as it was, and
//! lowers the minima on its path; a renaming keeps the tree's shape, moves
//! each leaf to its new id and leaves each group's minimum at the least
//! index under it.
use vstd::prelude::*;

use crate::text::{lemma_seq_lt_irreflexive, seq_lt};
use crate::tree::{
    child_key, child_keys, collect_entries, concat_all, entry_id_of, entry_keys, entry_prefix, group_id, inserted,
    is_entry_id, lemma_concat_all_contains, lemma_entry_id_of_node_id, listed, lower_bound, min_i64,
    min_over_children, min_over_entries, new_model, node_id_of, put_entry, recomputed_min, renamed,
    renamed_children, renamed_leaf, selected_ids, selected_in_entries, selected_per_child, toggled_collapsed,
    toggled_selected, NodeModel,
};

verus! {

/// Toggling `selected` twice on the same ids gives back the tree.
pub proof fn lemma_toggle_selected_twice(m: NodeModel, ids: Seq<Seq<char>>)
    ensures
        toggled_selected(toggled_selected(m, ids), ids) == m,
    decreases m,
{
    let t1 = toggled_selected(m, ids);
    let t2 = toggled_selected(t1, ids);
    assert forall|i: int| 0 <= i < m.children.len() implies #[trigger] t2.children[i] == m.children[i] by {
        lemma_toggle_selected_twice(m.children[i], ids);
    }
    assert(t2.children =~= m.children);
    assert(t2.entry_nodes =~= m.entry_nodes);
    assert(t2 =~= m);
}

/// Toggling `collapsed` twice on the same ids gives back the tree.
pub proof fn lemma_toggle_collapsed_twice(m: NodeModel, ids: Seq<Seq<char>>)
    ensures
        toggled_collapsed(toggled_collapsed(m, ids), ids) == m,
    decreases m,
{
    let t1 = toggled_collapsed(m, ids);
    let t2 = toggled_collapsed(t1, ids);
    assert forall|i: int| 0 <= i < m.children.len() implies #[trigger] t2.children[i] == m.children[i] by {
        lemma_toggle_collapsed_twice(m.children[i], ids);
    }
    assert(t2.children =~= m.children);
    assert(t2.entry_nodes =~= m.entry_nodes);
    assert(t2 =~= m);
}

/// Whether one of the leaves `s` is selected and names `x`.
pub open spec fn selects(s: Seq<NodeModel>, x: i64) -> bool {
    exists|i: int| 0 <= i < s.len() && (#[trigger] s[i]).selected && entry_id_of(s[i].id) == x
}

proof fn lemma_selected_in_entries(s: Seq<NodeModel>, x: i64)
    ensures
        selected_in_entries(s).contains(x) <==> selects(s, x),
    decreases s.len(),
{
    if s.len() > 0 {
        let s1 = s.drop_last();
        lemma_selected_in_entries(s1, x);
        let a = selected_in_entries(s1);
        let l = s.last();
        let b: Seq<i64> = if l.selected {
            seq![entry_id_of(l.id)]
        } else {
            Seq::empty()
        };
        assert(selected_in_entries(s) == a + b);
        if selected_in_entries(s).contains(x) {
            let j = choose|j: int| 0 <= j < (a + b).len() && (a + b)[j] == x;
            if j < a.len() {
                assert(a[j] == x);
                let i = choose|i: int| 0 <= i < s1.len() && (#[trigger] s1[i]).selected && entry_id_of(s1[i].id) == x;
                assert(s[i] == s1[i]);
            } else {
                assert(s[s.len() - 1] == l);
            }
        }
        if selects(s, x) {
            let i = choose|i: int| 0 <= i < s.len() && (#[trigger] s[i]).selected && entry_id_of(s[i].id) == x;
            if i < s.len() - 1 {
                assert(s1[i] == s[i]);
                let j = choose|j: int| 0 <= j < a.len() && a[j] == x;
                assert((a + b)[j] == x);
            } else {
                assert((a + b)[a.len() as int] == x);
            }
        }
    }
}

proof fn lemma_selected_per_child(cs: Seq<NodeModel>)
    ensures
        selected_per_child(cs).len() == cs.len(),
        forall|i: int| 0 <= i < cs.len() ==> #[trigger] selected_per_child(cs)[i] == selected_ids(cs[i]),
    decreases cs.len(),
{
    if cs.len() > 0 {
        lemma_selected_per_child(cs.drop_last());
        assert forall|i: int| 0 <= i < cs.len() implies #[trigger] selected_per_child(cs)[i] == selected_ids(cs[i]) by {
            if i < cs.len() - 1 {
                assert(cs.drop_last()[i] == cs[i]);
            }
        }
    }
}

/// Whether one of the nodes `cs` has `x` among its selected ids.
pub open spec fn some_child_selects(cs: Seq<NodeModel>, x: i64) -> bool {
    exists|i: int| 0 <= i < cs.len() && selected_ids(#[trigger] cs[i]).contains(x)
}

/// A node selects `x` when one of its own leaves or one of its children does.
pub(crate) proof fn lemma_selected_ids_contains(m: NodeModel, x: i64)
    ensures
        selected_ids(m).contains(x) <==> selects(m.entry_nodes, x) || some_child_selects(m.children, x),
{
    lemma_selected_in_entries(m.entry_nodes, x);
    lemma_selected_per_child(m.children);
    let ss = selected_per_child(m.children);
    lemma_concat_all_contains(ss, x);
    let a = selected_in_entries(m.entry_nodes);
    let b = concat_all(ss);
    assert(selected_ids(m) == a + b);
    if (a + b).contains(x) {
        let j = choose|j: int| 0 <= j < (a + b).len() && (a + b)[j] == x;
        if j < a.len() {
            assert(a[j] == x);
        } else {
            assert(b[j - a.len()] == x);
            assert(b.contains(x));
            let i = choose|i: int| 0 <= i < ss.len() && (#[trigger] ss[i]).contains(x);
            assert(selected_ids(m.children[i]).contains(x));
        }
    }
    if a.contains(x) {
        let j = choose|j: int| 0 <= j < a.len() && a[j] == x;
        assert((a + b)[j] == x);
    }
    if some_child_selects(m.children, x) {
        let i = choose|i: int| 0 <= i < m.children.len() && selected_ids(#[trigger] m.children[i]).contains(x);
        assert(ss[i].contains(x));
        assert(b.contains(x));
        let j = choose|j: int| 0 <= j < b.len() && b[j] == x;
        assert((a + b)[a.len() + j] == x);
    }
}

pub(crate) proof fn lemma_lower_bound_le(keys: Seq<Seq<char>>, k: Seq<char>)
    ensures
        lower_bound(keys, k) <= keys.len(),
    decreases keys.len(),
{
    if keys.len() > 0 {
        lemma_lower_bound_le(keys.drop_first(), k);
    }
}

/// Storing the selected leaf of `n` among the leaves `s` selects `n` and
/// keeps every other selection.
proof fn lemma_put_entry_selects(s: Seq<NodeModel>, e: NodeModel, n: i64, x: i64)
    requires
        e.selected,
        entry_id_of(e.id) == n,
    ensures
        selects(put_entry(s, e), x) <==> x == n || selects(s, x),
{
    let keys = entry_keys(s);
    let p = lower_bound(keys, e.id) as int;
    lemma_lower_bound_le(keys, e.id);
    let s2 = put_entry(s, e);
    if p < s.len() && keys[p] == e.id {
        assert(s2 == s.update(p, e));
        assert(s[p].id == e.id);
        if x == n {
            assert(s2[p] == e);
        } else {
            if selects(s2, x) {
                let i = choose|i: int| 0 <= i < s2.len() && (#[trigger] s2[i]).selected && entry_id_of(s2[i].id) == x;
                assert(i != p);
                assert(s[i] == s2[i]);
            }
            if selects(s, x) {
                let i = choose|i: int| 0 <= i < s.len() && (#[trigger] s[i]).selected && entry_id_of(s[i].id) == x;
                assert(i != p);
                assert(s2[i] == s[i]);
            }
        }
    } else {
        assert(s2 == s.insert(p, e));
        if x == n {
            assert(s2[p] == e);
        } else {
            if selects(s2, x) {
                let i = choose|i: int| 0 <= i < s2.len() && (#[trigger] s2[i]).selected && entry_id_of(s2[i].id) == x;
                assert(i != p);
                if i < p {
                    assert(s[i] == s2[i]);
                } else {
                    assert(s[i - 1] == s2[i]);
                }
            }
            if selects(s, x) {
                let i = choose|i: int| 0 <= i < s.len() && (#[trigger] s[i]).selected && entry_id_of(s[i].id) == x;
                if i < p {
                    assert(s2[i] == s[i]);
                } else {
                    assert(s2[i + 1] == s[i]);
                }
            }
        }
    }
}

proof fn lemma_inserted_selects(node: NodeModel, e: NodeModel, n: i64, depth: nat, x: i64)
    requires
        e.selected,
        entry_id_of(e.id) == n,
    ensures
        selected_ids(inserted(node, e, depth)).contains(x) <==> x == n || selected_ids(node).contains(x),
    decreases e.labels.len() - depth,
{
    let r = inserted(node, e, depth);
    lemma_selected_ids_contains(node, x);
    lemma_selected_ids_contains(r, x);
    if depth >= e.labels.len() {
        lemma_put_entry_selects(node.entry_nodes, e, n, x);
        assert(r.children == node.children);
    } else {
        let label = e.labels[depth as int];
        let p = lower_bound(child_keys(node.children), label) as int;
        lemma_lower_bound_le(child_keys(node.children), label);
        let found = p < node.children.len() && child_key(node.children[p]) == label;
        let child = if found {
            node.children[p]
        } else {
            new_model(group_id(node.labels.push(label)), node.labels.push(label))
        };
        let c2 = inserted(child, e, depth + 1);
        lemma_inserted_selects(child, e, n, depth + 1, x);
        assert(r.entry_nodes == node.entry_nodes);
        let cs = node.children;
        let cs2 = r.children;
        if !found {
            lemma_selected_ids_contains(child, x);
            assert(!selected_ids(child).contains(x));
        }
        if found {
            assert(cs2 == cs.update(p, c2));
        } else {
            assert(cs2 == cs.insert(p, c2));
        }
        if x == n {
            assert(selected_ids(cs2[p]).contains(x));
        } else {
            if some_child_selects(cs2, x) {
                let i = choose|i: int| 0 <= i < cs2.len() && selected_ids(#[trigger] cs2[i]).contains(x);
                if found {
                    assert(cs[i] == cs2[i] || i == p);
                    assert(selected_ids(cs[i]).contains(x));
                } else {
                    assert(i != p);
                    if i < p {
                        assert(cs[i] == cs2[i]);
                    } else {
                        assert(cs[i - 1] == cs2[i]);
                    }
                }
            }
            if some_child_selects(cs, x) {
                let i = choose|i: int| 0 <= i < cs.len() && selected_ids(#[trigger] cs[i]).contains(x);
                if found {
                    assert(selected_ids(cs2[i]).contains(x));
                } else if i < p {
                    assert(cs2[i] == cs[i]);
                } else {
                    assert(cs2[i + 1] == cs[i]);
                }
            }
        }
    }
}

/// Inserting the leaf of history index `n` selects `n` (a new entry starts
/// selected) and leaves every other index selected or not as it was.
pub proof fn lemma_insert_selects_new_entry(t: NodeModel, n: i64, labels: Seq<Seq<char>>, x: i64)
    ensures
        selected_ids(inserted(t, new_model(node_id_of(n as int), labels), 0)).contains(x) <==> x == n
            || selected_ids(t).contains(x),
{
    lemma_entry_id_of_node_id(n);
    lemma_inserted_selects(t, new_model(node_id_of(n as int), labels), n, 0, x);
}

/// The node reached from `m` by following the child indices of `path`.
pub open spec fn group_at(m: NodeModel, path: Seq<int>) -> Option<NodeModel>
    decreases path.len(),
{
    if path.len() == 0 {
        Some(m)
    } else if 0 <= path[0] < m.children.len() {
        group_at(m.children[path[0]], path.drop_first())
    } else {
        None
    }
}

/// Whether `n2` is `n` with `selected` flipped where its id is listed, on
/// the node and on each of its leaves, and with nothing else changed (the
/// children are compared path by path).
pub open spec fn selection_flipped(n: NodeModel, n2: NodeModel, ids: Seq<Seq<char>>) -> bool {
    &&& n2.selected == (n.selected != listed(ids, n.id))
    &&& n2.id == n.id && n2.labels == n.labels && n2.collapsed == n.collapsed && n2.updated == n.updated
    &&& n2.title == n.title && n2.summary == n.summary && n2.min_entry_id == n.min_entry_id
    &&& n2.children.len() == n.children.len()
    &&& n2.entry_nodes.len() == n.entry_nodes.len()
    &&& forall|i: int|
        0 <= i < n.entry_nodes.len() ==> #[trigger] n2.entry_nodes[i] == (NodeModel {
            selected: n.entry_nodes[i].selected != listed(ids, n.entry_nodes[i].id),
            ..n.entry_nodes[i]
        })
}

/// Toggling `selected` flips it on exactly the listed nodes and leaves (once,
/// however often an id is listed) and changes nothing else: every node of
/// the tree, reached by its path, is the old one with its own flag and its
/// leaves' flags flipped where listed.
pub proof fn lemma_toggle_selected_flips_listed(t: NodeModel, ids: Seq<Seq<char>>, path: Seq<int>)
    ensures
        group_at(toggled_selected(t, ids), path) is Some <==> group_at(t, path) is Some,
        group_at(t, path) is Some ==> selection_flipped(
            group_at(t, path)->Some_0,
            group_at(toggled_selected(t, ids), path)->Some_0,
            ids,
        ),
    decreases path.len(),
{
    if path.len() > 0 && 0 <= path[0] < t.children.len() {
        lemma_toggle_selected_flips_listed(t.children[path[0]], ids, path.drop_first());
    }
}

/// Whether `n2` is `n` with `collapsed` flipped where its id is listed, on
/// the node and on each of its leaves, and with nothing else changed.
pub open spec fn collapse_flipped(n: NodeModel, n2: NodeModel, ids: Seq<Seq<char>>) -> bool {
    &&& n2.collapsed == (n.collapsed != listed(ids, n.id))
    &&& n2.id == n.id && n2.labels == n.labels && n2.selected == n.selected && n2.updated == n.updated
    &&& n2.title == n.title && n2.summary == n.summary && n2.min_entry_id == n.min_entry_id
    &&& n2.children.len() == n.children.len()
    &&& n2.entry_nodes.len() == n.entry_nodes.len()
    &&& forall|i: int|
        0 <= i < n.entry_nodes.len() ==> #[trigger] n2.entry_nodes[i] == (NodeModel {
            collapsed: n.entry_nodes[i].collapsed != listed(ids, n.entry_nodes[i].id),
            ..n.entry_nodes[i]
        })
}

/// Toggling `collapsed` flips it on exactly the listed nodes and leaves and
/// changes nothing else.
pub proof fn lemma_toggle_collapsed_flips_listed(t: NodeModel, ids: Seq<Seq<char>>, path: Seq<int>)
    ensures
        group_at(toggled_collapsed(t, ids), path) is Some <==> group_at(t, path) is Some,
        group_at(t, path) is Some ==> collapse_flipped(
            group_at(t, path)->Some_0,
            group_at(toggled_collapsed(t, ids), path)->Some_0,
            ids,
        ),
    decreases path.len(),
{
    if path.len() > 0 && 0 <= path[0] < t.children.len() {
        lemma_toggle_collapsed_flips_listed(t.children[path[0]], ids, path.drop_first());
    }
}

/// The group reached from `m` by following `labels` from `depth` on, each
/// label naming the child keyed by it.
pub open spec fn group_by_labels(m: NodeModel, labels: Seq<Seq<char>>, depth: nat) -> Option<NodeModel>
    decreases labels.len() - depth,
{
    if depth >= labels.len() {
        Some(m)
    } else {
        let p = lower_bound(child_keys(m.children), labels[depth as int]) as int;
        if p < m.children.len() && child_key(m.children[p]) == labels[depth as int] {
            group_by_labels(m.children[p], labels, depth + 1)
        } else {
            None
        }
    }
}

/// Whether every node from `m` along `labels` (from `depth` on) is marked updated.
pub open spec fn updated_along(m: NodeModel, labels: Seq<Seq<char>>, depth: nat) -> bool
    decreases labels.len() - depth,
{
    m.updated && (depth < labels.len() ==> {
        let p = lower_bound(child_keys(m.children), labels[depth as int]) as int;
        p < m.children.len() && updated_along(m.children[p], labels, depth + 1)
    })
}

proof fn lemma_lower_bound_prefix(keys: Seq<Seq<char>>, k: Seq<char>)
    ensures
        forall|j: int| 0 <= j < lower_bound(keys, k) ==> seq_lt(#[trigger] keys[j], k),
        lower_bound(keys, k) < keys.len() ==> !seq_lt(keys[lower_bound(keys, k) as int], k),
    decreases keys.len(),
{
    if keys.len() > 0 && seq_lt(keys[0], k) {
        lemma_lower_bound_prefix(keys.drop_first(), k);
        lemma_lower_bound_le(keys.drop_first(), k);
        assert forall|j: int| 0 <= j < lower_bound(keys, k) implies seq_lt(#[trigger] keys[j], k) by {
            if j > 0 {
                assert(keys[j] == keys.drop_first()[j - 1]);
            }
        }
    }
}

/// Whether `e` is one of the leaves of `g`.
pub open spec fn has_leaf(g: NodeModel, e: NodeModel) -> bool {
    exists|i: int| 0 <= i < g.entry_nodes.len() && #[trigger] g.entry_nodes[i] == e
}

/// Inserting a leaf puts it under the group its labels name (the groups on
/// the way created where missing), marks every node on that path updated,
/// and lowers the `min_entry_id` of the node it starts from to at most the
/// leaf's index; the node's other children are kept.
pub proof fn lemma_insert_places_leaf(node: NodeModel, e: NodeModel, depth: nat)
    ensures
        group_by_labels(inserted(node, e, depth), e.labels, depth) is Some,
        has_leaf(group_by_labels(inserted(node, e, depth), e.labels, depth)->Some_0, e),
        updated_along(inserted(node, e, depth), e.labels, depth),
        inserted(node, e, depth).min_entry_id <= node.min_entry_id,
        inserted(node, e, depth).min_entry_id <= entry_id_of(e.id),
        inserted(node, e, depth).labels == node.labels,
        inserted(node, e, depth).id == node.id,
        depth < e.labels.len() ==> inserted(node, e, depth).entry_nodes == node.entry_nodes && forall|j: int|
            0 <= j < node.children.len() && child_key(#[trigger] node.children[j]) != e.labels[depth as int]
                ==> inserted(node, e, depth).children.contains(node.children[j]),
    decreases e.labels.len() - depth,
{
    let r = inserted(node, e, depth);
    if depth >= e.labels.len() {
        let en = node.entry_nodes;
        let keys = entry_keys(en);
        let p = lower_bound(keys, e.id) as int;
        lemma_lower_bound_le(keys, e.id);
        if p < en.len() && keys[p] == e.id {
            assert(r.entry_nodes == en.update(p, e));
        } else {
            assert(r.entry_nodes == en.insert(p, e));
        }
        assert(0 <= p < r.entry_nodes.len() && r.entry_nodes[p] == e);
        assert(group_by_labels(r, e.labels, depth) == Some(r));
        assert(has_leaf(r, e));
    } else {
        let cs = node.children;
        let label = e.labels[depth as int];
        let keys = child_keys(cs);
        let p = lower_bound(keys, label) as int;
        lemma_lower_bound_le(keys, label);
        lemma_lower_bound_prefix(keys, label);
        let found = p < cs.len() && child_key(cs[p]) == label;
        let child = if found {
            cs[p]
        } else {
            new_model(group_id(node.labels.push(label)), node.labels.push(label))
        };
        let c2 = inserted(child, e, depth + 1);
        lemma_insert_places_leaf(child, e, depth + 1);
        assert(child_key(c2) == label);
        let keys2 = child_keys(r.children);
        if found {
            assert(r.children == cs.update(p, c2));
            assert(keys2 =~= keys.update(p, label));
            assert forall|j: int| 0 <= j < p implies seq_lt(#[trigger] keys2[j], label) by {
                assert(keys2[j] == keys[j]);
            }
            lemma_seq_lt_irreflexive(label);
            crate::tree::lemma_lower_bound_is(keys2, label, p);
            assert forall|j: int| 0 <= j < cs.len() && child_key(#[trigger] cs[j]) != label implies r.children.contains(cs[j]) by {
                assert(j != p);
                assert(r.children[j] == cs[j]);
            }
        } else {
            assert(r.children == cs.insert(p, c2));
            assert(keys2 =~= keys.insert(p, label));
            assert forall|j: int| 0 <= j < p implies seq_lt(#[trigger] keys2[j], label) by {
                assert(keys2[j] == keys[j]);
            }
            lemma_seq_lt_irreflexive(label);
            crate::tree::lemma_lower_bound_is(keys2, label, p);
            assert forall|j: int| 0 <= j < cs.len() && child_key(#[trigger] cs[j]) != label implies r.children.contains(cs[j]) by {
                if j < p {
                    assert(r.children[j] == cs[j]);
                } else {
                    assert(r.children[j + 1] == cs[j]);
                }
            }
        }
        assert(r.children[p] == c2);
        assert(p < r.children.len() && child_key(r.children[p]) == label);
        assert(lower_bound(child_keys(r.children), label) == p);
        assert(group_by_labels(r, e.labels, depth) == group_by_labels(c2, e.labels, depth + 1));
    }
}

/// Collecting leaves with distinct ids keeps exactly those leaves.
pub proof fn lemma_collect_keeps_leaves(s: Seq<NodeModel>)
    requires
        forall|i: int, j: int| 0 <= i < j < s.len() ==> (#[trigger] s[i]).id != (#[trigger] s[j]).id,
    ensures
        forall|x: NodeModel| #[trigger] collect_entries(s).contains(x) <==> s.contains(x),
        collect_entries(s).len() == s.len(),
    decreases s.len(),
{
    if s.len() > 0 {
        let s1 = s.drop_last();
        let e = s.last();
        assert forall|i: int, j: int| 0 <= i < j < s1.len() implies (#[trigger] s1[i]).id != (#[trigger] s1[j]).id by {
            assert(s1[i] == s[i] && s1[j] == s[j]);
        }
        lemma_collect_keeps_leaves(s1);
        let c = collect_entries(s1);
        let keys = entry_keys(c);
        let p = lower_bound(keys, e.id) as int;
        lemma_lower_bound_le(keys, e.id);
        if p < c.len() && keys[p] == e.id {
            assert(c.contains(c[p]));
            let j = choose|j: int| 0 <= j < s1.len() && s1[j] == c[p];
            assert(s[j] == s1[j]);
            assert(s[j].id == s[s.len() - 1].id);
            assert(false);
        }
        assert(put_entry(c, e) == c.insert(p, e));
        let c2 = c.insert(p, e);
        assert forall|x: NodeModel| #[trigger] c2.contains(x) <==> s.contains(x) by {
            if c2.contains(x) {
                let j = choose|j: int| 0 <= j < c2.len() && c2[j] == x;
                if j == p {
                    assert(s[s.len() - 1] == x);
                } else {
                    let k = if j < p { j } else { j - 1 };
                    assert(c[k] == x);
                    assert(c.contains(x));
                    let i = choose|i: int| 0 <= i < s1.len() && s1[i] == x;
                    assert(s[i] == x);
                }
            }
            if s.contains(x) {
                let i = choose|i: int| 0 <= i < s.len() && s[i] == x;
                if i == s.len() - 1 {
                    assert(c2[p] == x);
                } else {
                    assert(s1[i] == x);
                    assert(s1.contains(x));
                    assert(c.contains(x));
                    let j = choose|j: int| 0 <= j < c.len() && c[j] == x;
                    assert(keys.len() == c.len());
                    if j < p {
                        assert(c2[j] == x);
                    } else {
                        assert(c2[j + 1] == x);
                    }
                }
            }
        }
    }
}

/// Renaming keeps the shape of the tree and everything of its groups but
/// their `min_entry_id`, which is recomputed from the renamed leaves; the
/// leaves of each group are its old leaves, each with its new id.
pub proof fn lemma_rename_keeps_groups(t: NodeModel, renames: Map<i64, i64>, path: Seq<int>)
    ensures
        group_at(renamed(t, renames), path) is Some <==> group_at(t, path) is Some,
        group_at(t, path) is Some ==> ({
            let n = group_at(t, path)->Some_0;
            let n2 = group_at(renamed(t, renames), path)->Some_0;
            &&& n2.id == n.id && n2.labels == n.labels && n2.selected == n.selected && n2.collapsed
                == n.collapsed && n2.updated == n.updated && n2.title == n.title && n2.summary == n.summary
            &&& n2.children.len() == n.children.len()
            &&& n2.entry_nodes == collect_entries(renamed_leaves(n.entry_nodes, renames))
            &&& n2.min_entry_id == recomputed_min(NodeModel { min_entry_id: n2.min_entry_id, ..n2 })
        }),
    decreases path.len(),
{
    crate::tree::lemma_renamed_children(t.children, renames);
    if path.len() > 0 && 0 <= path[0] < t.children.len() {
        lemma_rename_keeps_groups(t.children[path[0]], renames, path.drop_first());
    }
}

/// The leaves `leaves`, each with the id `renames` gives it.
pub open spec fn renamed_leaves(leaves: Seq<NodeModel>, renames: Map<i64, i64>) -> Seq<NodeModel> {
    leaves.map_values(|e: NodeModel| renamed_leaf(e, renames))
}

/// Where the renamed ids of a group's leaves are distinct, its leaves after
/// renaming are exactly its old leaves with their new ids (every other
/// field of a leaf kept).
pub proof fn lemma_renamed_leaves(leaves: Seq<NodeModel>, renames: Map<i64, i64>)
    requires
        forall|i: int, j: int|
            0 <= i < j < leaves.len() ==> renamed_leaf(#[trigger] leaves[i], renames).id != renamed_leaf(
                #[trigger] leaves[j],
                renames,
            ).id,
    ensures
        forall|x: NodeModel| #[trigger]
            collect_entries(renamed_leaves(leaves, renames)).contains(x) <==> exists|i: int|
                0 <= i < leaves.len() && x == renamed_leaf(#[trigger] leaves[i], renames),
        forall|e: NodeModel| #[trigger] renamed_leaf(e, renames) == (NodeModel { id: renamed_leaf(e, renames).id, ..e }),
{
    let m = renamed_leaves(leaves, renames);
    assert forall|i: int, j: int| 0 <= i < j < m.len() implies (#[trigger] m[i]).id != (#[trigger] m[j]).id by {}
    lemma_collect_keeps_leaves(m);
    assert forall|x: NodeModel| #[trigger] collect_entries(m).contains(x) <==> exists|i: int|
        0 <= i < leaves.len() && x == renamed_leaf(#[trigger] leaves[i], renames) by {
        if m.contains(x) {
            let i = choose|i: int| 0 <= i < m.len() && m[i] == x;
            assert(x == renamed_leaf(leaves[i], renames));
        }
        if exists|i: int| 0 <= i < leaves.len() && x == renamed_leaf(#[trigger] leaves[i], renames) {
            let i = choose|i: int| 0 <= i < leaves.len() && x == renamed_leaf(#[trigger] leaves[i], renames);
            assert(m[i] == x);
        }
    }
}

// ---------------------------------------------------------------------------
// Minima
// ---------------------------------------------------------------------------

/// The least history index named in the subtree of `m`: an entry leaf's own
/// index, or the least among a group's leaves and its children's subtrees
/// (`i64::MAX` where there is none).
pub open spec fn least_id(m: NodeModel) -> i64
    decreases m,
{
    if is_entry_id(m.id) {
        entry_id_of(m.id)
    } else {
        min_i64(min_over_entries(m.entry_nodes), least_of_children(m.children))
    }
}

/// The least `least_id` of the nodes in `cs`, or `i64::MAX`.
pub open spec fn least_of_children(cs: Seq<NodeModel>) -> i64
    decreases cs,
{
    if cs.len() == 0 {
        i64::MAX
    } else {
        min_i64(least_of_children(cs.drop_last()), least_id(cs.last()))
    }
}

/// Whether every node under `m` stores no larger a `min_entry_id` than any
/// of its children: the minima are consistent with the subtrees.
pub open spec fn mins_consistent(m: NodeModel) -> bool
    decreases m,
{
    forall|j: int|
        0 <= j < m.children.len() ==> m.min_entry_id <= (#[trigger] m.children[j]).min_entry_id && mins_consistent(
            m.children[j],
        )
}

proof fn lemma_children_minima(cs: Seq<NodeModel>)
    requires
        forall|j: int| 0 <= j < cs.len() ==> (#[trigger] cs[j]).min_entry_id == least_id(cs[j]),
    ensures
        min_over_children(cs) == least_of_children(cs),
    decreases cs.len(),
{
    if cs.len() > 0 {
        lemma_children_minima(cs.drop_last());
    }
}

/// After a renaming, every node stores as its `min_entry_id` the least
/// history index named in its subtree (`i64::MAX` where none is).
pub proof fn lemma_renamed_min_is_least(m: NodeModel, renames: Map<i64, i64>)
    ensures
        renamed(m, renames).min_entry_id == least_id(renamed(m, renames)),
    decreases m,
{
    crate::tree::lemma_renamed_children(m.children, renames);
    let cs = renamed_children(m.children, renames);
    assert forall|j: int| 0 <= j < cs.len() implies (#[trigger] cs[j]).min_entry_id == least_id(cs[j]) by {
        lemma_renamed_min_is_least(m.children[j], renames);
    }
    lemma_children_minima(cs);
}

/// Renaming leaves every group's `min_entry_id` at the least history index
/// named in its subtree, at every path of the tree.
pub proof fn lemma_renamed_groups_hold_least_ids(t: NodeModel, renames: Map<i64, i64>, path: Seq<int>)
    ensures
        group_at(t, path) is Some ==> group_at(renamed(t, renames), path)->Some_0.min_entry_id == least_id(
            group_at(renamed(t, renames), path)->Some_0,
        ),
    decreases path.len(),
{
    crate::tree::lemma_renamed_children(t.children, renames);
    if path.len() == 0 {
        lemma_renamed_min_is_least(t, renames);
    } else if 0 <= path[0] < t.children.len() {
        lemma_renamed_groups_hold_least_ids(t.children[path[0]], renames, path.drop_first());
    }
}

/// Inserting a leaf into a tree whose minima are consistent lowers the
/// `min_entry_id` of the node it starts from to exactly the smaller of its
/// old value and the leaf's index, and replaces the child on the leaf's
/// label path by the same insertion one level down (into a fresh group
/// where there was none), so the same holds at every node of the path.
pub proof fn lemma_insert_path_minima(node: NodeModel, e: NodeModel, depth: nat)
    requires
        mins_consistent(node),
    ensures
        inserted(node, e, depth).min_entry_id == min_i64(node.min_entry_id, entry_id_of(e.id)),
        mins_consistent(inserted(node, e, depth)),
        depth < e.labels.len() ==> ({
            let label = e.labels[depth as int];
            let p = lower_bound(child_keys(node.children), label) as int;
            let found = p < node.children.len() && child_key(node.children[p]) == label;
            let child = if found {
                node.children[p]
            } else {
                new_model(group_id(node.labels.push(label)), node.labels.push(label))
            };
            &&& inserted(node, e, depth).children.contains(inserted(child, e, depth + 1))
            &&& mins_consistent(child)
        }),
    decreases e.labels.len() - depth,
{
    let r = inserted(node, e, depth);
    if depth < e.labels.len() {
        let cs = node.children;
        let label = e.labels[depth as int];
        let p = lower_bound(child_keys(cs), label) as int;
        lemma_lower_bound_le(child_keys(cs), label);
        let found = p < cs.len() && child_key(cs[p]) == label;
        let child = if found {
            cs[p]
        } else {
            new_model(group_id(node.labels.push(label)), node.labels.push(label))
        };
        if !found {
            let g = group_id(node.labels.push(label));
            assert(g[0] == '/');
            assert(entry_prefix()[0] == 'e');
            assert(!is_entry_id(g)) by {
                if is_entry_id(g) {
                    assert(g.take(6)[0] == g[0]);
                }
            }
            assert(child.children.len() == 0);
        }
        lemma_insert_path_minima(child, e, depth + 1);
        let c2 = inserted(child, e, depth + 1);
        if found {
            assert(r.children == cs.update(p, c2));
            assert(r.children[p] == c2);
        } else {
            assert(r.children == cs.insert(p, c2));
            assert(r.children[p] == c2);
        }
        assert forall|j: int| 0 <= j < r.children.len() implies r.min_entry_id <= (
        #[trigger] r.children[j]).min_entry_id && mins_consistent(r.children[j]) by {
            if j != p {
                if found || j < p {
                    assert(r.children[j] == cs[j]);
                } else {
                    assert(r.children[j] == cs[j - 1]);
                }
            }
        }
    }
}

} // verus!
