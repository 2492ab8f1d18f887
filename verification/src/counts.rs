//! Counting the entry leaves of a tree by id and selection, and how each
//! operation on the tree changes those counts: a removal drops one leaf, a
//! renaming moves leaves to their new ids, an insertion adds one leaf, and a
//! summary pass or a collapse toggle leaves every count as it was.
use vstd::prelude::*;

use crate::cache::EntryModel;
use crate::selection::{lemma_lower_bound_le, lemma_selected_ids_contains, selects, some_child_selects};
use crate::summarizer::{summarized_children, summarized_leaves, summarized_node, summarized_tree};
use crate::tree::{
    child_key, child_keys, collect_entries, entry_id_of, entry_keys, find_key, first_holding, group_id,
    holds_entry, inserted, is_empty_group, lemma_find_key_bound, lemma_holds_entry, lemma_refreshed_children,
    lemma_renamed_children, lower_bound, new_model, node_id_of, put_entry, refreshed, refreshed_children, removed,
    renamed, renamed_children, renamed_from, renamed_leaf, selected_ids, toggled_collapsed, toggled_selected,
    NodeModel,
};

verus! {

/// The flag of a leaf that a count looks at: `collapsed` where `w` is set,
/// else `selected`.
pub open spec fn flag(e: NodeModel, w: bool) -> bool {
    if w {
        e.collapsed
    } else {
        e.selected
    }
}

/// The number of leaves of `s` with id `id` and flag `b` (the flag that `w`
/// picks).
pub open spec fn count_leaves(s: Seq<NodeModel>, id: Seq<char>, b: bool, w: bool) -> nat
    decreases s.len(),
{
    if s.len() == 0 {
        0
    } else {
        count_leaves(s.drop_last(), id, b, w) + if s.last().id == id && flag(s.last(), w) == b {
            1nat
        } else {
            0nat
        }
    }
}

/// The number of entry leaves anywhere under `m` with id `id` and selection `b`.
pub open spec fn leaf_count(m: NodeModel, id: Seq<char>, b: bool, w: bool) -> nat
    decreases m,
{
    count_leaves(m.entry_nodes, id, b, w) + children_count(m.children, id, b, w)
}

/// `leaf_count` added up over the nodes of `cs`.
pub open spec fn children_count(cs: Seq<NodeModel>, id: Seq<char>, b: bool, w: bool) -> nat
    decreases cs,
{
    if cs.len() == 0 {
        0
    } else {
        children_count(cs.drop_last(), id, b, w) + leaf_count(cs.last(), id, b, w)
    }
}

/// The number of entry leaves under `m` with id `id`, selected or not.
pub open spec fn leaf_total(m: NodeModel, id: Seq<char>) -> nat {
    wtotal(m, id, false)
}

/// The number of entry leaves under `m` with id `id`, counted by the flag
/// that `w` picks, either way.
pub open spec fn wtotal(m: NodeModel, id: Seq<char>, w: bool) -> nat {
    leaf_count(m, id, true, w) + leaf_count(m, id, false, w)
}

/// Whether the leaf `e` has id `id` and selection `b`.
pub open spec fn marks(e: NodeModel, id: Seq<char>, b: bool, w: bool) -> nat {
    if e.id == id && flag(e, w) == b {
        1
    } else {
        0
    }
}

// ---------------------------------------------------------------------------
// Counting over sequences
// ---------------------------------------------------------------------------

pub proof fn lemma_count_leaves_concat(a: Seq<NodeModel>, c: Seq<NodeModel>, id: Seq<char>, b: bool, w: bool)
    ensures
        count_leaves(a + c, id, b, w) == count_leaves(a, id, b, w) + count_leaves(c, id, b, w),
    decreases c.len(),
{
    if c.len() == 0 {
        assert(a + c =~= a);
    } else {
        assert((a + c).drop_last() =~= a + c.drop_last());
        assert((a + c).last() == c.last());
        lemma_count_leaves_concat(a, c.drop_last(), id, b, w);
    }
}

pub proof fn lemma_count_leaves_single(e: NodeModel, id: Seq<char>, b: bool, w: bool)
    ensures
        count_leaves(seq![e], id, b, w) == marks(e, id, b, w),
{
    assert(seq![e].drop_last() =~= Seq::<NodeModel>::empty());
    assert(count_leaves(Seq::<NodeModel>::empty(), id, b, w) == 0);
    assert(seq![e].last() == e);
}

/// Counting around position `i`.
pub proof fn lemma_count_leaves_split(s: Seq<NodeModel>, i: int, id: Seq<char>, b: bool, w: bool)
    requires
        0 <= i < s.len(),
    ensures
        count_leaves(s, id, b, w) == count_leaves(s.take(i), id, b, w) + marks(s[i], id, b, w) + count_leaves(
            s.skip(i + 1),
            id,
            b, w,
        ),
{
    assert(s =~= s.take(i) + seq![s[i]] + s.skip(i + 1));
    lemma_count_leaves_concat(s.take(i) + seq![s[i]], s.skip(i + 1), id, b, w);
    lemma_count_leaves_concat(s.take(i), seq![s[i]], id, b, w);
    lemma_count_leaves_single(s[i], id, b, w);
}

pub proof fn lemma_count_leaves_remove(s: Seq<NodeModel>, i: int, id: Seq<char>, b: bool, w: bool)
    requires
        0 <= i < s.len(),
    ensures
        count_leaves(s.remove(i), id, b, w) + marks(s[i], id, b, w) == count_leaves(s, id, b, w),
{
    lemma_count_leaves_split(s, i, id, b, w);
    assert(s.remove(i) =~= s.take(i) + s.skip(i + 1));
    lemma_count_leaves_concat(s.take(i), s.skip(i + 1), id, b, w);
}

pub proof fn lemma_count_leaves_insert(s: Seq<NodeModel>, i: int, e: NodeModel, id: Seq<char>, b: bool, w: bool)
    requires
        0 <= i <= s.len(),
    ensures
        count_leaves(s.insert(i, e), id, b, w) == count_leaves(s, id, b, w) + marks(e, id, b, w),
{
    let t = s.insert(i, e);
    lemma_count_leaves_split(t, i, id, b, w);
    assert(t.take(i) =~= s.take(i));
    assert(t.skip(i + 1) =~= s.skip(i));
    assert(s =~= s.take(i) + s.skip(i));
    lemma_count_leaves_concat(s.take(i), s.skip(i), id, b, w);
}

/// Leaves that keep their ids and the counted flag keep the counts.
pub proof fn lemma_count_leaves_same_marks(s: Seq<NodeModel>, t: Seq<NodeModel>, id: Seq<char>, b: bool, w: bool)
    requires
        s.len() == t.len(),
        forall|j: int| 0 <= j < s.len() ==> (#[trigger] s[j]).id == t[j].id && flag(s[j], w) == flag(t[j], w),
    ensures
        count_leaves(s, id, b, w) == count_leaves(t, id, b, w),
    decreases s.len(),
{
    if s.len() > 0 {
        assert forall|j: int| 0 <= j < s.len() - 1 implies (#[trigger] s.drop_last()[j]).id == t.drop_last()[j].id
            && flag(s.drop_last()[j], w) == flag(t.drop_last()[j], w) by {
            assert(s.drop_last()[j] == s[j] && t.drop_last()[j] == t[j]);
        }
        lemma_count_leaves_same_marks(s.drop_last(), t.drop_last(), id, b, w);
    }
}

/// A leaf id is a key exactly when some leaf carries it.
pub proof fn lemma_count_leaves_keys(s: Seq<NodeModel>, id: Seq<char>, w: bool)
    ensures
        entry_keys(s).contains(id) <==> count_leaves(s, id, true, w) + count_leaves(s, id, false, w) > 0,
    decreases s.len(),
{
    if s.len() > 0 {
        let s1 = s.drop_last();
        lemma_count_leaves_keys(s1, id, w);
        assert(entry_keys(s) =~= entry_keys(s1).push(s.last().id));
        if entry_keys(s).contains(id) && s.last().id != id {
            let j = choose|j: int| 0 <= j < entry_keys(s).len() && entry_keys(s)[j] == id;
            assert(entry_keys(s1)[j] == id);
        }
        if entry_keys(s1).contains(id) {
            let j = choose|j: int| 0 <= j < entry_keys(s1).len() && entry_keys(s1)[j] == id;
            assert(entry_keys(s)[j] == id);
        }
        if s.last().id == id {
            assert(entry_keys(s)[s.len() - 1] == id);
        }
    }
}

/// The count at the `i`th leaf's own id and selection is at least one.
pub proof fn lemma_count_leaves_at(s: Seq<NodeModel>, i: int, w: bool)
    requires
        0 <= i < s.len(),
    ensures
        count_leaves(s, s[i].id, flag(s[i], w), w) > 0,
{
    lemma_count_leaves_split(s, i, s[i].id, flag(s[i], w), w);
}

// ---------------------------------------------------------------------------
// Counting over children
// ---------------------------------------------------------------------------

pub proof fn lemma_children_count_concat(a: Seq<NodeModel>, c: Seq<NodeModel>, id: Seq<char>, b: bool, w: bool)
    ensures
        children_count(a + c, id, b, w) == children_count(a, id, b, w) + children_count(c, id, b, w),
    decreases c.len(),
{
    if c.len() == 0 {
        assert(a + c =~= a);
    } else {
        assert((a + c).drop_last() =~= a + c.drop_last());
        assert((a + c).last() == c.last());
        lemma_children_count_concat(a, c.drop_last(), id, b, w);
    }
}

pub proof fn lemma_children_count_single(n: NodeModel, id: Seq<char>, b: bool, w: bool)
    ensures
        children_count(seq![n], id, b, w) == leaf_count(n, id, b, w),
{
    assert(seq![n].drop_last() =~= Seq::<NodeModel>::empty());
    assert(children_count(Seq::<NodeModel>::empty(), id, b, w) == 0);
    assert(seq![n].last() == n);
}

pub proof fn lemma_children_count_split(s: Seq<NodeModel>, i: int, id: Seq<char>, b: bool, w: bool)
    requires
        0 <= i < s.len(),
    ensures
        children_count(s, id, b, w) == children_count(s.take(i), id, b, w) + leaf_count(s[i], id, b, w)
            + children_count(s.skip(i + 1), id, b, w),
{
    assert(s =~= s.take(i) + seq![s[i]] + s.skip(i + 1));
    lemma_children_count_concat(s.take(i) + seq![s[i]], s.skip(i + 1), id, b, w);
    lemma_children_count_concat(s.take(i), seq![s[i]], id, b, w);
    lemma_children_count_single(s[i], id, b, w);
}

pub proof fn lemma_children_count_insert(s: Seq<NodeModel>, i: int, n: NodeModel, id: Seq<char>, b: bool, w: bool)
    requires
        0 <= i <= s.len(),
    ensures
        children_count(s.insert(i, n), id, b, w) == children_count(s, id, b, w) + leaf_count(n, id, b, w),
{
    let t = s.insert(i, n);
    lemma_children_count_split(t, i, id, b, w);
    assert(t.take(i) =~= s.take(i));
    assert(t.skip(i + 1) =~= s.skip(i));
    assert(s =~= s.take(i) + s.skip(i));
    lemma_children_count_concat(s.take(i), s.skip(i), id, b, w);
}

pub proof fn lemma_children_count_update(s: Seq<NodeModel>, i: int, n: NodeModel, id: Seq<char>, b: bool, w: bool)
    requires
        0 <= i < s.len(),
    ensures
        children_count(s.update(i, n), id, b, w) + leaf_count(s[i], id, b, w) == children_count(s, id, b, w)
            + leaf_count(n, id, b, w),
{
    let t = s.update(i, n);
    lemma_children_count_split(t, i, id, b, w);
    lemma_children_count_split(s, i, id, b, w);
    assert(t.take(i) =~= s.take(i));
    assert(t.skip(i + 1) =~= s.skip(i + 1));
}

/// Children with the same counts, one by one, have the same counts together.
pub proof fn lemma_children_count_pointwise(s: Seq<NodeModel>, t: Seq<NodeModel>, id: Seq<char>, b: bool, w: bool)
    requires
        s.len() == t.len(),
        forall|j: int| 0 <= j < s.len() ==> leaf_count(#[trigger] s[j], id, b, w) == leaf_count(t[j], id, b, w),
    ensures
        children_count(s, id, b, w) == children_count(t, id, b, w),
    decreases s.len(),
{
    if s.len() > 0 {
        assert forall|j: int| 0 <= j < s.len() - 1 implies leaf_count(#[trigger] s.drop_last()[j], id, b, w)
            == leaf_count(t.drop_last()[j], id, b, w) by {
            assert(s.drop_last()[j] == s[j] && t.drop_last()[j] == t[j]);
        }
        lemma_children_count_pointwise(s.drop_last(), t.drop_last(), id, b, w);
        assert(leaf_count(s[s.len() - 1], id, b, w) == leaf_count(t[t.len() - 1], id, b, w));
    }
}

/// Each child counts for no more than all of them.
pub proof fn lemma_children_count_ge(s: Seq<NodeModel>, i: int, id: Seq<char>, b: bool, w: bool)
    requires
        0 <= i < s.len(),
    ensures
        leaf_count(s[i], id, b, w) <= children_count(s, id, b, w),
{
    lemma_children_count_split(s, i, id, b, w);
}

/// Children that all count nothing count nothing together.
pub proof fn lemma_children_count_zero(s: Seq<NodeModel>, id: Seq<char>, b: bool, w: bool)
    requires
        forall|j: int| 0 <= j < s.len() ==> leaf_count(#[trigger] s[j], id, b, w) == 0,
    ensures
        children_count(s, id, b, w) == 0,
    decreases s.len(),
{
    if s.len() > 0 {
        assert forall|j: int| 0 <= j < s.len() - 1 implies leaf_count(#[trigger] s.drop_last()[j], id, b, w) == 0 by {
            assert(s.drop_last()[j] == s[j]);
        }
        lemma_children_count_zero(s.drop_last(), id, b, w);
        assert(leaf_count(s[s.len() - 1], id, b, w) == 0);
    }
}

/// Leaves with no count at all count nothing.
pub proof fn lemma_count_leaves_zero(s: Seq<NodeModel>, id: Seq<char>, b: bool, w: bool)
    requires
        forall|j: int| 0 <= j < s.len() ==> marks(#[trigger] s[j], id, b, w) == 0,
    ensures
        count_leaves(s, id, b, w) == 0,
    decreases s.len(),
{
    if s.len() > 0 {
        assert forall|j: int| 0 <= j < s.len() - 1 implies marks(#[trigger] s.drop_last()[j], id, b, w) == 0 by {
            assert(s.drop_last()[j] == s[j]);
        }
        lemma_count_leaves_zero(s.drop_last(), id, b, w);
        assert(marks(s[s.len() - 1], id, b, w) == 0);
    }
}

// ---------------------------------------------------------------------------
// Subtrees
// ---------------------------------------------------------------------------

/// A node with neither children nor leaves counts nothing.
pub proof fn lemma_empty_group_counts(m: NodeModel, x: Seq<char>, b: bool, w: bool)
    requires
        is_empty_group(m),
    ensures
        leaf_count(m, x, b, w) == 0,
{
}

/// A fresh node counts nothing.
pub proof fn lemma_new_model_counts(id: Seq<char>, labels: Seq<Seq<char>>, x: Seq<char>, b: bool, w: bool)
    ensures
        leaf_count(new_model(id, labels), x, b, w) == 0,
{
}

/// A child, and the node's own leaves, count no more than the node.
pub proof fn lemma_child_count_le(m: NodeModel, i: int, x: Seq<char>, b: bool, w: bool)
    requires
        0 <= i < m.children.len(),
    ensures
        leaf_count(m.children[i], x, b, w) <= leaf_count(m, x, b, w),
{
    lemma_children_count_ge(m.children, i, x, b, w);
}

/// A node holds a leaf `t` exactly when it counts one.
pub proof fn lemma_holds_entry_count(m: NodeModel, t: Seq<char>, w: bool)
    ensures
        holds_entry(m, t) <==> wtotal(m, t, w) > 0,
    decreases m,
{
    lemma_holds_entry(m, t);
    lemma_count_leaves_keys(m.entry_nodes, t, w);
    let cs = m.children;
    assert forall|i: int| 0 <= i < cs.len() implies (holds_entry(#[trigger] cs[i], t) <==> wtotal(cs[i], t, w) > 0) by {
        lemma_holds_entry_count(cs[i], t, w);
    }
    if exists|i: int| 0 <= i < cs.len() && holds_entry(#[trigger] cs[i], t) {
        let i = choose|i: int| 0 <= i < cs.len() && holds_entry(#[trigger] cs[i], t);
        lemma_children_count_ge(cs, i, t, true, w);
        lemma_children_count_ge(cs, i, t, false, w);
    } else {
        assert forall|j: int| 0 <= j < cs.len() implies leaf_count(#[trigger] cs[j], t, true, w) == 0 by {
            assert(!holds_entry(cs[j], t));
        }
        assert forall|j: int| 0 <= j < cs.len() implies leaf_count(#[trigger] cs[j], t, false, w) == 0 by {
            assert(!holds_entry(cs[j], t));
        }
        lemma_children_count_zero(cs, t, true, w);
        lemma_children_count_zero(cs, t, false, w);
    }
}

/// What `first_holding` finds: the first node from `i` on that holds `t`.
pub proof fn lemma_first_holding_is(cs: Seq<NodeModel>, t: Seq<char>, i: int)
    requires
        0 <= i <= cs.len(),
    ensures
        i <= first_holding(cs, t, i) <= cs.len(),
        first_holding(cs, t, i) < cs.len() ==> holds_entry(cs[first_holding(cs, t, i)], t),
        forall|j: int| i <= j < first_holding(cs, t, i) ==> !holds_entry(#[trigger] cs[j], t),
    decreases cs.len() - i,
{
    if i < cs.len() && !holds_entry(cs[i], t) {
        lemma_first_holding_is(cs, t, i + 1);
    }
}

// ---------------------------------------------------------------------------
// Refreshing and removing
// ---------------------------------------------------------------------------

/// Removing a leaf `t` that a node holds marks that node updated, so the
/// summary pass revisits it, and keeps its id; where `t` lies under a child,
/// the first child that holds it is replaced, at its place, by that child
/// with `t` removed, or is dropped where that leaves it empty. By induction
/// every node on the path from the node down to the leaf's group is
/// updated.
pub proof fn lemma_removal_marks_path(m: NodeModel, t: Seq<char>)
    requires
        holds_entry(m, t),
    ensures
        removed(m, t).updated,
        removed(m, t).id == m.id,
        removed(m, t).labels == m.labels,
        !entry_keys(m.entry_nodes).contains(t) ==> exists|k: int|
            0 <= k < m.children.len() && holds_entry(#[trigger] m.children[k], t) && (forall|j: int|
                0 <= j < k ==> !holds_entry(#[trigger] m.children[j], t)) && if is_empty_group(
                removed(m.children[k], t),
            ) {
                removed(m, t).children.len() + 1 == m.children.len()
            } else {
                removed(m, t).children.len() == m.children.len() && removed(m, t).children[k] == removed(
                    m.children[k],
                    t,
                )
            },
{
    lemma_holds_entry(m, t);
    let keys = entry_keys(m.entry_nodes);
    if !keys.contains(t) {
        let cs = m.children;
        let i = choose|i: int| 0 <= i < cs.len() && holds_entry(#[trigger] cs[i], t);
        lemma_first_holding_is(cs, t, 0);
        let k = first_holding(cs, t, 0);
        assert(k <= i);
        assert(0 <= k < cs.len());
        lemma_refreshed_children(cs.take(k));
        let c = removed(cs[k], t);
        let r = removed(m, t);
        if is_empty_group(c) {
            assert(r.children == refreshed_children(cs.take(k)) + Seq::<NodeModel>::empty() + cs.skip(k + 1));
        } else {
            assert(r.children == refreshed_children(cs.take(k)) + seq![c] + cs.skip(k + 1));
            assert(r.children[k] == c);
        }
        assert(holds_entry(cs[k], t));
    }
}

/// Refreshing keeps every count.
pub proof fn lemma_refreshed_counts(m: NodeModel, x: Seq<char>, b: bool, w: bool)
    ensures
        leaf_count(refreshed(m), x, b, w) == leaf_count(m, x, b, w),
    decreases m,
{
    let cs = m.children;
    lemma_refreshed_children(cs);
    assert forall|j: int| 0 <= j < cs.len() implies leaf_count(#[trigger] refreshed_children(cs)[j], x, b, w) == leaf_count(
        cs[j],
        x,
        b, w,
    ) by {
        lemma_refreshed_counts(cs[j], x, b, w);
    }
    lemma_children_count_pointwise(refreshed_children(cs), cs, x, b, w);
}

/// Refreshing each child keeps the children's counts.
pub proof fn lemma_refreshed_children_counts(cs: Seq<NodeModel>, x: Seq<char>, b: bool, w: bool)
    ensures
        children_count(refreshed_children(cs), x, b, w) == children_count(cs, x, b, w),
{
    lemma_refreshed_children(cs);
    assert forall|j: int| 0 <= j < cs.len() implies leaf_count(#[trigger] refreshed_children(cs)[j], x, b, w) == leaf_count(
        cs[j],
        x,
        b, w,
    ) by {
        lemma_refreshed_counts(cs[j], x, b, w);
    }
    lemma_children_count_pointwise(refreshed_children(cs), cs, x, b, w);
}

/// Removing the leaf `t` drops one leaf with that id, where there is one,
/// and keeps every other count.
pub proof fn lemma_removed_counts(m: NodeModel, t: Seq<char>, x: Seq<char>, w: bool)
    ensures
        x != t ==> leaf_count(removed(m, t), x, true, w) == leaf_count(m, x, true, w),
        x != t ==> leaf_count(removed(m, t), x, false, w) == leaf_count(m, x, false, w),
        leaf_count(removed(m, t), t, true, w) <= leaf_count(m, t, true, w),
        leaf_count(removed(m, t), t, false, w) <= leaf_count(m, t, false, w),
        wtotal(m, t, w) > 0 ==> wtotal(removed(m, t), t, w) + 1 == wtotal(m, t, w),
    decreases m,
{
    let keys = entry_keys(m.entry_nodes);
    let r = removed(m, t);
    let en = m.entry_nodes;
    let cs = m.children;
    if keys.contains(t) {
        let j = choose|j: int| 0 <= j < keys.len() && keys[j] == t;
        lemma_find_key_bound(keys, t, j);
        let i = find_key(keys, t);
        assert(en[i].id == t);
        lemma_count_leaves_remove(en, i, x, true, w);
        lemma_count_leaves_remove(en, i, x, false, w);
        lemma_count_leaves_remove(en, i, t, true, w);
        lemma_count_leaves_remove(en, i, t, false, w);
        assert(r.entry_nodes == en.remove(i));
        assert(r.children == cs);
    } else {
        let k = first_holding(cs, t, 0);
        lemma_first_holding_is(cs, t, 0);
        if 0 <= k < cs.len() {
            let c = removed(cs[k], t);
            lemma_removed_counts(cs[k], t, x, w);
            let pre = refreshed_children(cs.take(k));
            let mid: Seq<NodeModel> = if is_empty_group(c) {
                Seq::empty()
            } else {
                seq![c]
            };
            let post = cs.skip(k + 1);
            let cs2 = pre + mid + post;
            assert(r.children == cs2);
            assert(r.entry_nodes == en);
            lemma_holds_entry_count(cs[k], t, w);
            lemma_children_count_split(cs, k, t, true, w);
            lemma_children_count_split(cs, k, t, false, w);
            assert forall|bb: bool| #[trigger] children_count(cs2, x, bb, w) == children_count(cs.take(k), x, bb, w)
                + leaf_count(c, x, bb, w) + children_count(post, x, bb, w) by {
                lemma_children_count_concat(pre + mid, post, x, bb, w);
                lemma_children_count_concat(pre, mid, x, bb, w);
                lemma_refreshed_children_counts(cs.take(k), x, bb, w);
                if is_empty_group(c) {
                    lemma_empty_group_counts(c, x, bb, w);
                } else {
                    lemma_children_count_single(c, x, bb, w);
                }
            }
            assert forall|bb: bool| #[trigger] children_count(cs2, t, bb, w) == children_count(cs.take(k), t, bb, w)
                + leaf_count(c, t, bb, w) + children_count(post, t, bb, w) by {
                lemma_children_count_concat(pre + mid, post, t, bb, w);
                lemma_children_count_concat(pre, mid, t, bb, w);
                lemma_refreshed_children_counts(cs.take(k), t, bb, w);
                if is_empty_group(c) {
                    lemma_empty_group_counts(c, t, bb, w);
                } else {
                    lemma_children_count_single(c, t, bb, w);
                }
            }
            assert(children_count(cs2, x, true, w) == children_count(cs.take(k), x, true, w) + leaf_count(c, x, true, w)
                + children_count(post, x, true, w));
            assert(children_count(cs2, x, false, w) == children_count(cs.take(k), x, false, w) + leaf_count(c, x, false, w)
                + children_count(post, x, false, w));
            assert(children_count(cs2, t, true, w) == children_count(cs.take(k), t, true, w) + leaf_count(c, t, true, w)
                + children_count(post, t, true, w));
            assert(children_count(cs2, t, false, w) == children_count(cs.take(k), t, false, w) + leaf_count(c, t, false, w)
                + children_count(post, t, false, w));
            lemma_children_count_split(cs, k, x, true, w);
            lemma_children_count_split(cs, k, x, false, w);
        } else {
            lemma_refreshed_counts(m, x, true, w);
            lemma_refreshed_counts(m, x, false, w);
            lemma_refreshed_counts(m, t, true, w);
            lemma_refreshed_counts(m, t, false, w);
            lemma_count_leaves_keys(en, t, w);
            assert forall|j: int| 0 <= j < cs.len() implies leaf_count(#[trigger] cs[j], t, true, w) == 0 by {
                lemma_holds_entry_count(cs[j], t, w);
            }
            assert forall|j: int| 0 <= j < cs.len() implies leaf_count(#[trigger] cs[j], t, false, w) == 0 by {
                lemma_holds_entry_count(cs[j], t, w);
            }
            lemma_children_count_zero(cs, t, true, w);
            lemma_children_count_zero(cs, t, false, w);
        }
    }
}

// ---------------------------------------------------------------------------
// Renaming
// ---------------------------------------------------------------------------

/// The id that a leaf with id `id` gets from `renames`.
pub open spec fn renamed_id(id: Seq<char>, renames: Map<i64, i64>) -> Seq<char> {
    if renamed_from(id, renames) {
        let o = choose|o: i64| renames.dom().contains(o) && node_id_of(o as int) == id;
        node_id_of(renames[o] as int)
    } else {
        id
    }
}

/// No id is carried by two leaves under `m`.
pub open spec fn unique_leaves(m: NodeModel) -> bool {
    forall|y: Seq<char>| #[trigger] leaf_total(m, y) <= 1
}

/// `renames` gives distinct ids to the distinct leaf ids under `m`.
pub open spec fn renames_apart(m: NodeModel, renames: Map<i64, i64>) -> bool {
    forall|y1: Seq<char>, y2: Seq<char>|
        #![trigger leaf_total(m, y1), leaf_total(m, y2)]
        leaf_total(m, y1) > 0 && leaf_total(m, y2) > 0 && y1 != y2 ==> renamed_id(y1, renames) != renamed_id(
            y2,
            renames,
        )
}

pub proof fn lemma_renamed_leaf(e: NodeModel, renames: Map<i64, i64>)
    ensures
        renamed_leaf(e, renames).id == renamed_id(e.id, renames),
        renamed_leaf(e, renames).selected == e.selected,
        renamed_leaf(e, renames).collapsed == e.collapsed,
{
}

/// Collecting leaves with distinct ids under their ids keeps every count.
pub proof fn lemma_collect_counts(s: Seq<NodeModel>, x: Seq<char>, b: bool, w: bool)
    requires
        forall|i: int, j: int| 0 <= i < j < s.len() ==> (#[trigger] s[i]).id != (#[trigger] s[j]).id,
    ensures
        count_leaves(collect_entries(s), x, b, w) == count_leaves(s, x, b, w),
    decreases s.len(),
{
    if s.len() > 0 {
        let s1 = s.drop_last();
        let e = s.last();
        assert forall|i: int, j: int| 0 <= i < j < s1.len() implies (#[trigger] s1[i]).id != (#[trigger] s1[j]).id by {
            assert(s1[i] == s[i] && s1[j] == s[j]);
        }
        lemma_collect_counts(s1, x, b, w);
        let c = collect_entries(s1);
        assert forall|j: int| 0 <= j < s1.len() implies marks(#[trigger] s1[j], e.id, true, w) == 0 by {
            assert(s1[j] == s[j]);
            assert(s[j].id != s[s.len() - 1].id);
        }
        assert forall|j: int| 0 <= j < s1.len() implies marks(#[trigger] s1[j], e.id, false, w) == 0 by {
            assert(s1[j] == s[j]);
            assert(s[j].id != s[s.len() - 1].id);
        }
        lemma_count_leaves_zero(s1, e.id, true, w);
        lemma_count_leaves_zero(s1, e.id, false, w);
        lemma_collect_counts(s1, e.id, true, w);
        lemma_collect_counts(s1, e.id, false, w);
        lemma_count_leaves_keys(c, e.id, w);
        let keys = entry_keys(c);
        let p = lower_bound(keys, e.id) as int;
        lemma_lower_bound_le(keys, e.id);
        if p < c.len() && keys[p] == e.id {
            assert(keys.contains(e.id));
        }
        assert(put_entry(c, e) == c.insert(p, e));
        lemma_count_leaves_insert(c, p, e, x, b, w);
    }
}

/// Renaming leaves maps the count of a present id to its new id, where no
/// other leaf shares that new id.
pub proof fn lemma_mapped_counts(s: Seq<NodeModel>, renames: Map<i64, i64>, y: Seq<char>, b: bool, w: bool)
    requires
        forall|j: int| 0 <= j < s.len() && (#[trigger] s[j]).id != y ==> renamed_id(s[j].id, renames) != renamed_id(
            y,
            renames,
        ),
    ensures
        count_leaves(s.map_values(|e: NodeModel| renamed_leaf(e, renames)), renamed_id(y, renames), b, w)
            == count_leaves(s, y, b, w),
    decreases s.len(),
{
    if s.len() > 0 {
        let s1 = s.drop_last();
        assert forall|j: int| 0 <= j < s1.len() && (#[trigger] s1[j]).id != y implies renamed_id(s1[j].id, renames)
            != renamed_id(y, renames) by {
            assert(s1[j] == s[j]);
        }
        lemma_mapped_counts(s1, renames, y, b, w);
        let f = |e: NodeModel| renamed_leaf(e, renames);
        assert(s.map_values(f).drop_last() =~= s1.map_values(f));
        assert(s.map_values(f).last() == renamed_leaf(s.last(), renames));
        lemma_renamed_leaf(s.last(), renames);
        assert(s.last() == s[s.len() - 1]);
    }
}

/// Renamed leaves count nothing at an id that no leaf is renamed to.
pub proof fn lemma_mapped_absent(s: Seq<NodeModel>, renames: Map<i64, i64>, x: Seq<char>, b: bool, w: bool)
    requires
        forall|j: int| 0 <= j < s.len() ==> renamed_id((#[trigger] s[j]).id, renames) != x,
    ensures
        count_leaves(s.map_values(|e: NodeModel| renamed_leaf(e, renames)), x, b, w) == 0,
{
    let t = s.map_values(|e: NodeModel| renamed_leaf(e, renames));
    assert forall|j: int| 0 <= j < t.len() implies marks(#[trigger] t[j], x, b, w) == 0 by {
        lemma_renamed_leaf(s[j], renames);
    }
    lemma_count_leaves_zero(t, x, b, w);
}

/// Two leaves with one id count two.
pub proof fn lemma_count_leaves_two(s: Seq<NodeModel>, i: int, j: int)
    requires
        0 <= i < j < s.len(),
        s[i].id == s[j].id,
    ensures
        count_leaves(s, s[i].id, true, false) + count_leaves(s, s[i].id, false, false) >= 2,
{
    let y = s[i].id;
    lemma_count_leaves_split(s, j, y, true, false);
    lemma_count_leaves_split(s, j, y, false, false);
    assert(s.take(j)[i] == s[i]);
    lemma_count_leaves_split(s.take(j), i, y, true, false);
    lemma_count_leaves_split(s.take(j), i, y, false, false);
}

/// A node's own leaves count no more than the node.
pub proof fn lemma_own_count_le(m: NodeModel, x: Seq<char>, b: bool, w: bool)
    ensures
        count_leaves(m.entry_nodes, x, b, w) <= leaf_count(m, x, b, w),
{
}

/// Under unique leaves, a node's own leaves have distinct ids, each counted
/// by the node.
pub proof fn lemma_own_leaves_distinct(m: NodeModel)
    requires
        unique_leaves(m),
    ensures
        forall|i: int, j: int|
            0 <= i < j < m.entry_nodes.len() ==> (#[trigger] m.entry_nodes[i]).id != (#[trigger] m.entry_nodes[j]).id,
        forall|i: int| 0 <= i < m.entry_nodes.len() ==> leaf_total(m, (#[trigger] m.entry_nodes[i]).id) > 0,
{
    let en = m.entry_nodes;
    assert forall|i: int, j: int| 0 <= i < j < en.len() implies (#[trigger] en[i]).id != (#[trigger] en[j]).id by {
        if en[i].id == en[j].id {
            lemma_count_leaves_two(en, i, j);
            lemma_own_count_le(m, en[i].id, true, false);
            lemma_own_count_le(m, en[i].id, false, false);
            assert(leaf_total(m, en[i].id) <= 1);
        }
    }
    assert forall|i: int| 0 <= i < en.len() implies leaf_total(m, (#[trigger] en[i]).id) > 0 by {
        lemma_count_leaves_at(en, i, false);
        lemma_own_count_le(m, en[i].id, en[i].selected, false);
    }
}

/// Uniqueness and distinct renaming hold of each child too.
pub proof fn lemma_child_inherits(m: NodeModel, renames: Map<i64, i64>, i: int)
    requires
        0 <= i < m.children.len(),
    ensures
        unique_leaves(m) ==> unique_leaves(m.children[i]),
        renames_apart(m, renames) ==> renames_apart(m.children[i], renames),
        forall|y: Seq<char>| #[trigger] leaf_total(m.children[i], y) <= leaf_total(m, y),
{
    let c = m.children[i];
    assert forall|y: Seq<char>| #[trigger] leaf_total(c, y) <= leaf_total(m, y) by {
        lemma_child_count_le(m, i, y, true, false);
        lemma_child_count_le(m, i, y, false, false);
    }
    if renames_apart(m, renames) {
        assert forall|y1: Seq<char>, y2: Seq<char>|
            #![trigger leaf_total(c, y1), leaf_total(c, y2)]
            leaf_total(c, y1) > 0 && leaf_total(c, y2) > 0 && y1 != y2 implies renamed_id(y1, renames) != renamed_id(
                y2,
                renames,
            ) by {
            assert(leaf_total(c, y1) <= leaf_total(m, y1));
            assert(leaf_total(c, y2) <= leaf_total(m, y2));
        }
    }
    if unique_leaves(m) {
        assert forall|y: Seq<char>| #[trigger] leaf_total(c, y) <= 1 by {
            assert(leaf_total(c, y) <= leaf_total(m, y));
        }
    }
}

/// Renaming leaves no leaf at an id that no present leaf is renamed to.
pub proof fn lemma_renamed_absent(m: NodeModel, renames: Map<i64, i64>, x: Seq<char>, w: bool)
    requires
        unique_leaves(m),
        renames_apart(m, renames),
        forall|y: Seq<char>| #[trigger] leaf_total(m, y) > 0 ==> renamed_id(y, renames) != x,
    ensures
        leaf_count(renamed(m, renames), x, true, w) == 0,
        leaf_count(renamed(m, renames), x, false, w) == 0,
    decreases m,
{
    let en = m.entry_nodes;
    let cs = m.children;
    let f = |e: NodeModel| renamed_leaf(e, renames);
    let mapped = en.map_values(f);
    lemma_own_leaves_distinct(m);
    assert forall|i: int, j: int| 0 <= i < j < mapped.len() implies (#[trigger] mapped[i]).id != (#[trigger] mapped[j]).id by {
        lemma_renamed_leaf(en[i], renames);
        lemma_renamed_leaf(en[j], renames);
        assert(leaf_total(m, en[i].id) > 0 && leaf_total(m, en[j].id) > 0);
    }
    assert forall|j: int| 0 <= j < en.len() implies renamed_id((#[trigger] en[j]).id, renames) != x by {
        assert(leaf_total(m, en[j].id) > 0);
    }
    lemma_collect_counts(mapped, x, true, w);
    lemma_collect_counts(mapped, x, false, w);
    lemma_mapped_absent(en, renames, x, true, w);
    lemma_mapped_absent(en, renames, x, false, w);
    lemma_renamed_children(cs, renames);
    let rcs = renamed_children(cs, renames);
    assert forall|j: int| 0 <= j < rcs.len() implies leaf_count(#[trigger] rcs[j], x, true, w) == 0 && leaf_count(
        rcs[j],
        x,
        false, w,
    ) == 0 by {
        lemma_child_inherits(m, renames, j);
        assert forall|y: Seq<char>| #[trigger] leaf_total(cs[j], y) > 0 implies renamed_id(y, renames) != x by {
            assert(leaf_total(cs[j], y) <= leaf_total(m, y));
        }
        lemma_renamed_absent(cs[j], renames, x, w);
    }
    assert forall|j: int| 0 <= j < rcs.len() implies leaf_count(#[trigger] rcs[j], x, true, w) == 0 by {}
    assert forall|j: int| 0 <= j < rcs.len() implies leaf_count(#[trigger] rcs[j], x, false, w) == 0 by {}
    lemma_children_count_zero(rcs, x, true, w);
    lemma_children_count_zero(rcs, x, false, w);
}

/// Renaming moves the leaves of a present id to its new id.
pub proof fn lemma_renamed_present(m: NodeModel, renames: Map<i64, i64>, y: Seq<char>, w: bool)
    requires
        unique_leaves(m),
        renames_apart(m, renames),
        leaf_total(m, y) > 0,
    ensures
        leaf_count(renamed(m, renames), renamed_id(y, renames), true, w) == leaf_count(m, y, true, w),
        leaf_count(renamed(m, renames), renamed_id(y, renames), false, w) == leaf_count(m, y, false, w),
    decreases m,
{
    let en = m.entry_nodes;
    let cs = m.children;
    let ry = renamed_id(y, renames);
    let f = |e: NodeModel| renamed_leaf(e, renames);
    let mapped = en.map_values(f);
    lemma_own_leaves_distinct(m);
    assert forall|i: int, j: int| 0 <= i < j < mapped.len() implies (#[trigger] mapped[i]).id != (#[trigger] mapped[j]).id by {
        lemma_renamed_leaf(en[i], renames);
        lemma_renamed_leaf(en[j], renames);
        assert(leaf_total(m, en[i].id) > 0 && leaf_total(m, en[j].id) > 0);
    }
    assert forall|j: int| 0 <= j < en.len() && (#[trigger] en[j]).id != y implies renamed_id(en[j].id, renames) != ry by {
        assert(leaf_total(m, en[j].id) > 0);
    }
    lemma_collect_counts(mapped, ry, true, w);
    lemma_collect_counts(mapped, ry, false, w);
    lemma_mapped_counts(en, renames, y, true, w);
    lemma_mapped_counts(en, renames, y, false, w);
    lemma_renamed_children(cs, renames);
    let rcs = renamed_children(cs, renames);
    assert forall|j: int| 0 <= j < rcs.len() implies leaf_count(#[trigger] rcs[j], ry, true, w) == leaf_count(cs[j], y, true, w)
        && leaf_count(rcs[j], ry, false, w) == leaf_count(cs[j], y, false, w) by {
        lemma_child_inherits(m, renames, j);
        if leaf_total(cs[j], y) > 0 {
            lemma_renamed_present(cs[j], renames, y, w);
        } else {
            assert forall|y2: Seq<char>| #[trigger] leaf_total(cs[j], y2) > 0 implies renamed_id(y2, renames) != ry by {
                assert(leaf_total(cs[j], y2) <= leaf_total(m, y2));
                assert(y2 != y);
            }
            lemma_renamed_absent(cs[j], renames, ry, w);
            lemma_wtotal_any_flag(cs[j], y, w);
        }
    }
    assert forall|j: int| 0 <= j < rcs.len() implies leaf_count(#[trigger] rcs[j], ry, true, w) == leaf_count(cs[j], y, true, w) by {}
    assert forall|j: int| 0 <= j < rcs.len() implies leaf_count(#[trigger] rcs[j], ry, false, w) == leaf_count(cs[j], y, false, w) by {}
    lemma_children_count_pointwise_to(rcs, cs, ry, y, true, w);
    lemma_children_count_pointwise_to(rcs, cs, ry, y, false, w);
}

/// Children whose counts at `x` match the other children's at `y`, one by
/// one, match together.
pub proof fn lemma_children_count_pointwise_to(
    s: Seq<NodeModel>,
    t: Seq<NodeModel>,
    x: Seq<char>,
    y: Seq<char>,
    b: bool,
    w: bool,
)
    requires
        s.len() == t.len(),
        forall|j: int| 0 <= j < s.len() ==> leaf_count(#[trigger] s[j], x, b, w) == leaf_count(t[j], y, b, w),
    ensures
        children_count(s, x, b, w) == children_count(t, y, b, w),
    decreases s.len(),
{
    if s.len() > 0 {
        assert forall|j: int| 0 <= j < s.len() - 1 implies leaf_count(#[trigger] s.drop_last()[j], x, b, w) == leaf_count(
            t.drop_last()[j],
            y,
            b, w,
        ) by {
            assert(s.drop_last()[j] == s[j] && t.drop_last()[j] == t[j]);
        }
        lemma_children_count_pointwise_to(s.drop_last(), t.drop_last(), x, y, b, w);
        assert(leaf_count(s[s.len() - 1], x, b, w) == leaf_count(t[t.len() - 1], y, b, w));
    }
}

// ---------------------------------------------------------------------------
// Inserting
// ---------------------------------------------------------------------------

/// Inserting a leaf whose id is not yet in the tree adds that one leaf and
/// keeps every other count.
pub proof fn lemma_inserted_counts(node: NodeModel, e: NodeModel, depth: nat, x: Seq<char>, b: bool, w: bool)
    requires
        leaf_total(node, e.id) == 0,
    ensures
        leaf_count(inserted(node, e, depth), x, b, w) == leaf_count(node, x, b, w) + marks(e, x, b, w),
    decreases e.labels.len() - depth,
{
    let r = inserted(node, e, depth);
    if depth >= e.labels.len() {
        let en = node.entry_nodes;
        let keys = entry_keys(en);
        lemma_own_count_le(node, e.id, true, false);
        lemma_own_count_le(node, e.id, false, false);
        lemma_count_leaves_keys(en, e.id, false);
        let p = lower_bound(keys, e.id) as int;
        lemma_lower_bound_le(keys, e.id);
        if p < en.len() && keys[p] == e.id {
            assert(keys.contains(e.id));
        }
        assert(put_entry(en, e) == en.insert(p, e));
        lemma_count_leaves_insert(en, p, e, x, b, w);
        assert(r.children == node.children);
    } else {
        let cs = node.children;
        let label = e.labels[depth as int];
        let p = lower_bound(child_keys(cs), label) as int;
        lemma_lower_bound_le(child_keys(cs), label);
        let found = p < cs.len() && child_key(cs[p]) == label;
        let child = if found {
            cs[p]
        } else {
            new_model(group_id(node.labels.push(label)), node.labels.push(label))
        };
        if found {
            lemma_child_count_le(node, p, e.id, true, false);
            lemma_child_count_le(node, p, e.id, false, false);
        } else {
            lemma_new_model_counts(group_id(node.labels.push(label)), node.labels.push(label), e.id, true, false);
            lemma_new_model_counts(group_id(node.labels.push(label)), node.labels.push(label), e.id, false, false);
            lemma_new_model_counts(group_id(node.labels.push(label)), node.labels.push(label), x, b, w);
        }
        let c2 = inserted(child, e, depth + 1);
        lemma_inserted_counts(child, e, depth + 1, x, b, w);
        assert(r.entry_nodes == node.entry_nodes);
        if found {
            assert(r.children == cs.update(p, c2));
            lemma_children_count_update(cs, p, c2, x, b, w);
        } else {
            assert(r.children == cs.insert(p, c2));
            lemma_children_count_insert(cs, p, c2, x, b, w);
        }
    }
}

// ---------------------------------------------------------------------------
// Summaries and toggles
// ---------------------------------------------------------------------------

/// A summary pass over a node keeps every count.
pub proof fn lemma_summarized_node_counts(
    n: NodeModel,
    es: Map<i64, EntryModel>,
    rs: Seq<Seq<char>>,
    used: nat,
    use_model: bool,
    x: Seq<char>,
    b: bool,
    w: bool,
)
    ensures
        summarized_node(n, es, rs, used, use_model) matches Ok((n2, u)) ==> leaf_count(n2, x, b, w) == leaf_count(n, x, b, w),
    decreases n,
{
    if n.updated {
        lemma_summarized_children_counts(n.children, es, rs, used, use_model, x, b, w);
        let ls = summarized_leaves(n.entry_nodes, es);
        lemma_count_leaves_same_marks(ls, n.entry_nodes, x, b, w);
    }
}

/// A summary pass over nodes keeps their counts.
pub proof fn lemma_summarized_children_counts(
    cs: Seq<NodeModel>,
    es: Map<i64, EntryModel>,
    rs: Seq<Seq<char>>,
    used: nat,
    use_model: bool,
    x: Seq<char>,
    b: bool,
    w: bool,
)
    ensures
        summarized_children(cs, es, rs, used, use_model) matches Ok((cs2, u)) ==> children_count(cs2, x, b, w)
            == children_count(cs, x, b, w),
    decreases cs,
{
    if cs.len() > 0 {
        lemma_summarized_children_counts(cs.drop_last(), es, rs, used, use_model, x, b, w);
        if let Ok((done, u)) = summarized_children(cs.drop_last(), es, rs, used, use_model) {
            lemma_summarized_node_counts(cs.last(), es, rs, u, use_model, x, b, w);
            if let Ok((n2, u2)) = summarized_node(cs.last(), es, rs, u, use_model) {
                let cs2 = done.push(n2);
                assert(cs2.drop_last() =~= done);
                assert(cs2.last() == n2);
            }
        }
    }
}

/// A summary pass over a tree keeps every count.
pub proof fn lemma_summarized_tree_counts(
    t: NodeModel,
    es: Map<i64, EntryModel>,
    rs: Seq<Seq<char>>,
    use_model: bool,
    x: Seq<char>,
    b: bool,
    w: bool,
)
    ensures
        summarized_tree(t, es, rs, use_model) matches Ok(t2) ==> leaf_count(t2, x, b, w) == leaf_count(t, x, b, w),
{
    lemma_summarized_children_counts(t.children, es, rs, 0, use_model, x, b, w);
    let ls = summarized_leaves(t.entry_nodes, es);
    lemma_count_leaves_same_marks(ls, t.entry_nodes, x, b, w);
}

/// Toggling `collapsed` keeps every count of selected leaves.
pub proof fn lemma_toggled_collapsed_counts(m: NodeModel, ids: Seq<Seq<char>>, x: Seq<char>, b: bool)
    ensures
        leaf_count(toggled_collapsed(m, ids), x, b, false) == leaf_count(m, x, b, false),
    decreases m,
{
    let t = toggled_collapsed(m, ids);
    lemma_count_leaves_same_marks(t.entry_nodes, m.entry_nodes, x, b, false);
    assert forall|j: int| 0 <= j < m.children.len() implies leaf_count(#[trigger] t.children[j], x, b, false) == leaf_count(
        m.children[j],
        x,
        b,
        false,
    ) by {
        lemma_toggled_collapsed_counts(m.children[j], ids, x, b);
    }
    lemma_children_count_pointwise(t.children, m.children, x, b, false);
}

/// Leaves with the same ids, one by one, count the same at an id,
/// selected or not.
pub proof fn lemma_count_leaves_same_ids(s: Seq<NodeModel>, t: Seq<NodeModel>, id: Seq<char>)
    requires
        s.len() == t.len(),
        forall|j: int| 0 <= j < s.len() ==> (#[trigger] s[j]).id == t[j].id,
    ensures
        count_leaves(s, id, true, false) + count_leaves(s, id, false, false) == count_leaves(t, id, true, false) + count_leaves(t, id, false, false),
    decreases s.len(),
{
    if s.len() > 0 {
        assert forall|j: int| 0 <= j < s.len() - 1 implies (#[trigger] s.drop_last()[j]).id == t.drop_last()[j].id by {
            assert(s.drop_last()[j] == s[j] && t.drop_last()[j] == t[j]);
        }
        lemma_count_leaves_same_ids(s.drop_last(), t.drop_last(), id);
        assert(s[s.len() - 1].id == t[t.len() - 1].id);
    }
}

/// Toggling `selected` keeps how many leaves carry each id.
pub proof fn lemma_toggled_selected_totals(m: NodeModel, ids: Seq<Seq<char>>, x: Seq<char>)
    ensures
        leaf_total(toggled_selected(m, ids), x) == leaf_total(m, x),
    decreases m,
{
    let t = toggled_selected(m, ids);
    lemma_count_leaves_same_ids(t.entry_nodes, m.entry_nodes, x);
    assert forall|j: int| 0 <= j < m.children.len() implies leaf_total(#[trigger] t.children[j], x) == leaf_total(
        m.children[j],
        x,
    ) by {
        lemma_toggled_selected_totals(m.children[j], ids, x);
    }
    lemma_children_total_pointwise(t.children, m.children, x);
}

/// Children with the same totals, one by one, have the same totals together.
pub proof fn lemma_children_total_pointwise(s: Seq<NodeModel>, t: Seq<NodeModel>, x: Seq<char>)
    requires
        s.len() == t.len(),
        forall|j: int| 0 <= j < s.len() ==> leaf_total(#[trigger] s[j], x) == leaf_total(t[j], x),
    ensures
        children_count(s, x, true, false) + children_count(s, x, false, false) == children_count(t, x, true, false) + children_count(
            t,
            x,
            false, false,
        ),
    decreases s.len(),
{
    if s.len() > 0 {
        assert forall|j: int| 0 <= j < s.len() - 1 implies leaf_total(#[trigger] s.drop_last()[j], x) == leaf_total(
            t.drop_last()[j],
            x,
        ) by {
            assert(s.drop_last()[j] == s[j] && t.drop_last()[j] == t[j]);
        }
        lemma_children_total_pointwise(s.drop_last(), t.drop_last(), x);
        assert(leaf_total(s[s.len() - 1], x) == leaf_total(t[t.len() - 1], x));
    }
}

// ---------------------------------------------------------------------------
// Selected ids
// ---------------------------------------------------------------------------

/// Some leaf of `s` is counted at `id` with selection `b` exactly when the count is positive.
pub proof fn lemma_count_leaves_witness(s: Seq<NodeModel>, id: Seq<char>, b: bool, w: bool)
    ensures
        count_leaves(s, id, b, w) > 0 <==> exists|i: int| 0 <= i < s.len() && (#[trigger] s[i]).id == id && flag(s[i], w) == b,
{
    if exists|i: int| 0 <= i < s.len() && (#[trigger] s[i]).id == id && flag(s[i], w) == b {
        let i = choose|i: int| 0 <= i < s.len() && (#[trigger] s[i]).id == id && flag(s[i], w) == b;
        lemma_count_leaves_at(s, i, w);
    } else {
        assert forall|j: int| 0 <= j < s.len() implies marks(#[trigger] s[j], id, b, w) == 0 by {}
        lemma_count_leaves_zero(s, id, b, w);
    }
}

/// Whether some leaf under `m` is selected and names index `x`.
pub open spec fn selects_index(m: NodeModel, x: i64) -> bool {
    exists|id: Seq<char>| entry_id_of(id) == x && #[trigger] leaf_count(m, id, true, false) > 0
}

/// A tree selects index `x` exactly when a selected leaf under it names `x`.
pub proof fn lemma_selected_ids_count(m: NodeModel, x: i64)
    ensures
        selected_ids(m).contains(x) <==> selects_index(m, x),
    decreases m,
{
    lemma_selected_ids_contains(m, x);
    let en = m.entry_nodes;
    let cs = m.children;
    if selects(en, x) {
        let i = choose|i: int| 0 <= i < en.len() && (#[trigger] en[i]).selected && entry_id_of(en[i].id) == x;
        lemma_count_leaves_at(en, i, false);
        assert(leaf_count(m, en[i].id, true, false) > 0);
    }
    if some_child_selects(cs, x) {
        let i = choose|i: int| 0 <= i < cs.len() && selected_ids(#[trigger] cs[i]).contains(x);
        lemma_selected_ids_count(cs[i], x);
        let id = choose|id: Seq<char>| entry_id_of(id) == x && #[trigger] leaf_count(cs[i], id, true, false) > 0;
        lemma_children_count_ge(cs, i, id, true, false);
        assert(leaf_count(m, id, true, false) > 0);
    }
    if selects_index(m, x) {
        let id = choose|id: Seq<char>| entry_id_of(id) == x && #[trigger] leaf_count(m, id, true, false) > 0;
        if count_leaves(en, id, true, false) > 0 {
            lemma_count_leaves_witness(en, id, true, false);
            let i = choose|i: int| 0 <= i < en.len() && (#[trigger] en[i]).id == id && en[i].selected == true;
            assert(selects(en, x));
        } else {
            assert(children_count(cs, id, true, false) > 0);
            if forall|j: int| 0 <= j < cs.len() ==> leaf_count(#[trigger] cs[j], id, true, false) == 0 {
                lemma_children_count_zero(cs, id, true, false);
            }
            let j = choose|j: int| 0 <= j < cs.len() && leaf_count(#[trigger] cs[j], id, true, false) != 0;
            lemma_selected_ids_count(cs[j], x);
            assert(selects_index(cs[j], x));
            assert(some_child_selects(cs, x));
        }
    }
}

// ---------------------------------------------------------------------------
// Trees whose leaves name the history indices
// ---------------------------------------------------------------------------

/// Whether the leaves of `t` are exactly `entry-0` to `entry-{n - 1}`, one
/// each.
pub open spec fn indexed_leaves(t: NodeModel, n: nat) -> bool {
    &&& forall|k: int| 0 <= k < n ==> #[trigger] leaf_total(t, node_id_of(k)) == 1
    &&& forall|id: Seq<char>| #[trigger] leaf_total(t, id) > 0 ==> exists|k: int| 0 <= k < n && id == node_id_of(k)
}

/// Distinct indices have distinct leaf ids.
pub proof fn lemma_node_id_injective(a: int, b: int)
    requires
        i64::MIN <= a <= i64::MAX,
        i64::MIN <= b <= i64::MAX,
        node_id_of(a) == node_id_of(b),
    ensures
        a == b,
{
    crate::tree::lemma_entry_id_of_node_id(a as i64);
    crate::tree::lemma_entry_id_of_node_id(b as i64);
}

/// Indexed leaves are unique.
pub proof fn lemma_indexed_unique(t: NodeModel, n: nat)
    requires
        indexed_leaves(t, n),
    ensures
        unique_leaves(t),
{
    assert forall|y: Seq<char>| #[trigger] leaf_total(t, y) <= 1 by {
        if leaf_total(t, y) > 0 {
            let k = choose|k: int| 0 <= k < n && y == node_id_of(k);
            assert(leaf_total(t, node_id_of(k)) == 1);
        }
    }
}

/// In a tree with indexed leaves, index `x` is selected exactly when it is
/// one of the indices and its leaf is selected.
pub proof fn lemma_selected_ids_indexed(t: NodeModel, n: nat, x: i64)
    requires
        indexed_leaves(t, n),
        n <= i64::MAX,
    ensures
        selected_ids(t).contains(x) <==> 0 <= x < n && leaf_count(t, node_id_of(x as int), true, false) > 0,
{
    lemma_selected_ids_count(t, x);
    crate::tree::lemma_entry_id_of_node_id(x);
    if selects_index(t, x) {
        let id = choose|id: Seq<char>| entry_id_of(id) == x && #[trigger] leaf_count(t, id, true, false) > 0;
        assert(leaf_total(t, id) > 0);
        let k = choose|k: int| 0 <= k < n && id == node_id_of(k);
        crate::tree::lemma_entry_id_of_node_id(k as i64);
        assert(k == x);
    }
    if 0 <= x < n && leaf_count(t, node_id_of(x as int), true, false) > 0 {
        assert(entry_id_of(node_id_of(x as int)) == x);
        assert(selects_index(t, x));
    }
}

/// Toggling `selected` or `collapsed` keeps the leaves indexed.
pub proof fn lemma_toggles_keep_indexed(t: NodeModel, n: nat, ids: Seq<Seq<char>>)
    requires
        indexed_leaves(t, n),
    ensures
        indexed_leaves(toggled_selected(t, ids), n),
        indexed_leaves(toggled_collapsed(t, ids), n),
{
    assert forall|id: Seq<char>| #[trigger] leaf_total(toggled_selected(t, ids), id) == leaf_total(t, id) by {
        lemma_toggled_selected_totals(t, ids, id);
    }
    assert forall|id: Seq<char>| #[trigger] leaf_total(toggled_collapsed(t, ids), id) == leaf_total(t, id) by {
        lemma_toggled_collapsed_counts(t, ids, id, true);
        lemma_toggled_collapsed_counts(t, ids, id, false);
    }
    let t1 = toggled_selected(t, ids);
    let t2 = toggled_collapsed(t, ids);
    assert forall|k: int| 0 <= k < n implies #[trigger] leaf_total(t1, node_id_of(k)) == 1 by {
        assert(leaf_total(t1, node_id_of(k)) == leaf_total(t, node_id_of(k)));
    }
    assert forall|k: int| 0 <= k < n implies #[trigger] leaf_total(t2, node_id_of(k)) == 1 by {
        assert(leaf_total(t2, node_id_of(k)) == leaf_total(t, node_id_of(k)));
    }
    assert forall|id: Seq<char>| #[trigger] leaf_total(t1, id) > 0 implies exists|k: int| 0 <= k < n && id == node_id_of(k) by {
        assert(leaf_total(t1, id) == leaf_total(t, id));
    }
    assert forall|id: Seq<char>| #[trigger] leaf_total(t2, id) > 0 implies exists|k: int| 0 <= k < n && id == node_id_of(k) by {
        assert(leaf_total(t2, id) == leaf_total(t, id));
    }
}

/// A summary pass keeps the leaves indexed and every selection as it was.
pub proof fn lemma_summary_keeps_selection(t: NodeModel, es: Map<i64, EntryModel>, rs: Seq<Seq<char>>, use_model: bool, n: nat)
    requires
        indexed_leaves(t, n),
        n <= i64::MAX,
    ensures
        summarized_tree(t, es, rs, use_model) matches Ok(t2) ==> indexed_leaves(t2, n) && forall|x: i64|
            #[trigger] selected_ids(t2).contains(x) <==> selected_ids(t).contains(x),
{
    if let Ok(t2) = summarized_tree(t, es, rs, use_model) {
        assert forall|id: Seq<char>, b: bool, w: bool| #[trigger] leaf_count(t2, id, b, w) == leaf_count(t, id, b, w) by {
            lemma_summarized_tree_counts(t, es, rs, use_model, id, b, w);
        }
        assert forall|k: int| 0 <= k < n implies #[trigger] leaf_total(t2, node_id_of(k)) == 1 by {
            assert(leaf_count(t2, node_id_of(k), true, false) == leaf_count(t, node_id_of(k), true, false));
            assert(leaf_count(t2, node_id_of(k), false, false) == leaf_count(t, node_id_of(k), false, false));
            assert(leaf_total(t, node_id_of(k)) == 1);
        }
        assert forall|id: Seq<char>| #[trigger] leaf_total(t2, id) > 0 implies exists|k: int| 0 <= k < n && id == node_id_of(k) by {
            assert(leaf_count(t2, id, true, false) == leaf_count(t, id, true, false));
            assert(leaf_count(t2, id, false, false) == leaf_count(t, id, false, false));
            assert(leaf_total(t, id) > 0);
        }
        assert forall|x: i64| #[trigger] selected_ids(t2).contains(x) <==> selected_ids(t).contains(x) by {
            lemma_selected_ids_indexed(t, n, x);
            lemma_selected_ids_indexed(t2, n, x);
            assert(leaf_count(t2, node_id_of(x as int), true, false) == leaf_count(t, node_id_of(x as int), true, false));
        }
    }
}

/// How many leaves carry an id does not depend on the flag they are
/// counted by.
pub proof fn lemma_count_leaves_any_flag(s: Seq<NodeModel>, id: Seq<char>, w: bool)
    ensures
        count_leaves(s, id, true, w) + count_leaves(s, id, false, w) == count_leaves(s, id, true, false)
            + count_leaves(s, id, false, false),
    decreases s.len(),
{
    if s.len() > 0 {
        lemma_count_leaves_any_flag(s.drop_last(), id, w);
    }
}

/// How many leaves under a node carry an id does not depend on the flag
/// they are counted by.
pub proof fn lemma_wtotal_any_flag(m: NodeModel, id: Seq<char>, w: bool)
    ensures
        wtotal(m, id, w) == leaf_total(m, id),
    decreases m,
{
    lemma_count_leaves_any_flag(m.entry_nodes, id, w);
    assert forall|j: int| 0 <= j < m.children.len() implies #[trigger] wtotal(m.children[j], id, w) == leaf_total(
        m.children[j],
        id,
    ) by {
        lemma_wtotal_any_flag(m.children[j], id, w);
    }
    lemma_children_wtotal(m.children, id, w);
}

proof fn lemma_children_wtotal(cs: Seq<NodeModel>, id: Seq<char>, w: bool)
    requires
        forall|j: int| 0 <= j < cs.len() ==> #[trigger] wtotal(cs[j], id, w) == leaf_total(cs[j], id),
    ensures
        children_count(cs, id, true, w) + children_count(cs, id, false, w) == children_count(cs, id, true, false)
            + children_count(cs, id, false, false),
    decreases cs.len(),
{
    if cs.len() > 0 {
        assert forall|j: int| 0 <= j < cs.len() - 1 implies #[trigger] wtotal(cs.drop_last()[j], id, w) == leaf_total(
            cs.drop_last()[j],
            id,
        ) by {
            assert(cs.drop_last()[j] == cs[j]);
        }
        lemma_children_wtotal(cs.drop_last(), id, w);
        assert(wtotal(cs[cs.len() - 1], id, w) == leaf_total(cs[cs.len() - 1], id));
    }
}

} // verus!
