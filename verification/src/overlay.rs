//! The context overlay: the tree shown as a list of foldable rows with
//! checkboxes, the selected row's details, and the toggles a user makes,
//! kept until they are saved or dropped.
use vstd::prelude::*;

use crate::markdown::{
    line_views, markdown_line, plain, render_markdown_line, span_views, SpanView, StyledSpan, TextStyle,
};
use crate::prompt::{PromptContextActions, PromptContextNode, PromptContextTree, PromptNodeView};
use crate::recorder::copy_labels;
use crate::text::{
    append_str, copy_str, has_prefix, join, join_seq, lines_of, parse_i64, parse_i64_seq, str_lines, views,
};
use crate::tree::{concat_all, entry_prefix, id_is_entry, strip_entry};

verus! {

// ---------------------------------------------------------------------------
// Nodes
// ---------------------------------------------------------------------------

/// A node of the overlay's copy of the tree. Children are ordered by the
/// smallest history index under them.
#[derive(Debug)]
pub struct OverlayNode {
    pub id: String,
    pub labels: Vec<String>,
    pub title: String,
    pub summary: String,
    pub selected: bool,
    pub collapsed: bool,
    pub children: Vec<OverlayNode>,
    pub min_entry_id: Option<i64>,
}

/// An overlay node as plain values.
#[verifier::ext_equal]
pub struct OverlayView {
    pub id: Seq<char>,
    pub labels: Seq<Seq<char>>,
    pub title: Seq<char>,
    pub summary: Seq<char>,
    pub selected: bool,
    pub collapsed: bool,
    pub children: Seq<OverlayView>,
    pub min_entry_id: Option<i64>,
}

impl OverlayNode {
    /// The node as plain values.
    pub open spec fn model(&self) -> OverlayView
        decreases self,
    {
        OverlayView {
            id: self.id@,
            labels: views(self.labels@),
            title: self.title@,
            summary: self.summary@,
            selected: self.selected,
            collapsed: self.collapsed,
            children: Seq::new(
                self.children@.len(),
                |i: int|
                    if 0 <= i < self.children@.len() {
                        self.children@[i].model()
                    } else {
                        arbitrary()
                    },
            ),
            min_entry_id: self.min_entry_id,
        }
    }
}

impl View for OverlayNode {
    type V = OverlayView;

    open spec fn view(&self) -> OverlayView {
        self.model()
    }
}

/// The views of a list of nodes.
pub open spec fn overlay_views(v: Seq<OverlayNode>) -> Seq<OverlayView> {
    v.map_values(|n: OverlayNode| n@)
}

proof fn lemma_children_views(n: &OverlayNode)
    ensures
        n@.children == overlay_views(n.children@),
{
    assert(n@.children =~= overlay_views(n.children@));
}

/// The key that orders siblings: the smallest history index under a node,
/// or `i64::MAX` where there is none.
pub open spec fn sort_key(v: OverlayView) -> i64 {
    match v.min_entry_id {
        Some(x) => x,
        None => i64::MAX,
    }
}

/// The number of leading nodes of `s` whose key is at most `k`.
pub open spec fn upper_by_key(s: Seq<OverlayView>, k: i64) -> nat
    decreases s.len(),
{
    if s.len() > 0 && sort_key(s[0]) <= k {
        1 + upper_by_key(s.drop_first(), k)
    } else {
        0
    }
}

/// `s` stably sorted by key (`sort_by_key`).
pub open spec fn key_sorted(s: Seq<OverlayView>) -> Seq<OverlayView>
    decreases s.len(),
{
    if s.len() == 0 {
        Seq::empty()
    } else {
        let t = key_sorted(s.drop_last());
        t.insert(upper_by_key(t, sort_key(s.last())) as int, s.last())
    }
}

/// The smaller of two optional indices, where there is one.
pub open spec fn min_opt(a: Option<i64>, b: Option<i64>) -> Option<i64> {
    match (a, b) {
        (Some(x), Some(y)) => Some(if x <= y { x } else { y }),
        (Some(x), None) => Some(x),
        (None, y) => y,
    }
}

/// The smallest `min_entry_id` among `cs`, where any has one.
pub open spec fn min_of_children(cs: Seq<OverlayView>) -> Option<i64>
    decreases cs.len(),
{
    if cs.len() == 0 {
        None
    } else {
        min_opt(min_of_children(cs.drop_last()), cs.last().min_entry_id)
    }
}

/// The overlay nodes made from the children of a shown node, in order.
pub open spec fn overlay_children(p: PromptNodeView) -> Seq<OverlayView>
    decreases p, 0int,
{
    Seq::new(
        p.children.len(),
        |i: int|
            if 0 <= i < p.children.len() {
                overlay_of(p.children[i])
            } else {
                arbitrary()
            },
    )
}

/// The overlay node made from a shown node: its children made in turn and
/// sorted by key; an entry leaf keeps the index its id names, a group the
/// smallest of its children's.
pub open spec fn overlay_of(p: PromptNodeView) -> OverlayView
    decreases p, 1int,
{
    let children = key_sorted(overlay_children(p));
    OverlayView {
        id: p.id,
        labels: p.labels,
        title: p.title,
        summary: p.summary,
        selected: p.selected,
        collapsed: p.collapsed,
        children,
        min_entry_id: if has_prefix(p.id, entry_prefix()) {
            parse_i64_seq(p.id.skip(6))
        } else {
            min_of_children(children)
        },
    }
}

proof fn lemma_upper_by_key_is(s: Seq<OverlayView>, k: i64, i: int)
    requires
        0 <= i <= s.len(),
        forall|j: int| 0 <= j < i ==> sort_key(#[trigger] s[j]) <= k,
        i < s.len() ==> sort_key(s[i]) > k,
    ensures
        upper_by_key(s, k) == i,
    decreases i,
{
    if i > 0 {
        assert forall|j: int| 0 <= j < i - 1 implies sort_key(#[trigger] s.drop_first()[j]) <= k by {
            assert(s.drop_first()[j] == s[j + 1]);
        }
        if i - 1 < s.len() - 1 {
            assert(s.drop_first()[i - 1] == s[i]);
        }
        lemma_upper_by_key_is(s.drop_first(), k, i - 1);
    }
}

/// The key of a node.
fn key_of(n: &OverlayNode) -> (k: i64)
    ensures
        k == sort_key(n@),
{
    match n.min_entry_id {
        Some(v) => v,
        None => i64::MAX,
    }
}

/// `nodes` stably sorted by key.
fn sort_by_min_entry(nodes: Vec<OverlayNode>) -> (r: Vec<OverlayNode>)
    ensures
        overlay_views(r@) == key_sorted(overlay_views(nodes@)),
{
    let ghost all = overlay_views(nodes@);
    let mut rest = nodes;
    let mut sorted: Vec<OverlayNode> = Vec::new();
    let n = rest.len();
    let mut i: usize = 0;
    assert(overlay_views(rest@) =~= all.skip(0));
    assert(all.take(0) =~= Seq::<OverlayView>::empty());
    while i < n
        invariant
            0 <= i <= n,
            n == all.len(),
            rest@.len() == n - i,
            overlay_views(rest@) == all.skip(i as int),
            overlay_views(sorted@) == key_sorted(all.take(i as int)),
        decreases n - i,
    {
        let ghost before = rest@;
        let x = rest.remove(0);
        proof {
            assert(overlay_views(before)[0] == all[i as int]);
            assert(x@ == all[i as int]);
            assert(overlay_views(rest@) =~= all.skip(i + 1)) by {
                assert forall|k: int| 0 <= k < rest@.len() implies #[trigger] overlay_views(rest@)[k] == all.skip(i + 1)[k] by {
                    assert(rest@[k] == before[k + 1]);
                    assert(overlay_views(before)[k + 1] == all.skip(i as int)[k + 1]);
                }
            }
        }
        let key = key_of(&x);
        let ghost sv = overlay_views(sorted@);
        let mut p: usize = 0;
        while p < sorted.len() && key_of(&sorted[p]) <= key
            invariant
                0 <= p <= sorted@.len(),
                sv == overlay_views(sorted@),
                key == sort_key(x@),
                forall|j: int| 0 <= j < p ==> sort_key(#[trigger] sv[j]) <= key,
            decreases sorted.len() - p,
        {
            proof {
                assert(sv[p as int] == sorted@[p as int]@);
            }
            p += 1;
        }
        proof {
            if p < sorted.len() {
                assert(sv[p as int] == sorted@[p as int]@);
            }
            lemma_upper_by_key_is(sv, key, p as int);
        }
        let ghost xv = x@;
        sorted.insert(p, x);
        proof {
            assert(all.take(i + 1).drop_last() =~= all.take(i as int));
            assert(all.take(i + 1).last() == xv);
            assert(overlay_views(sorted@) =~= sv.insert(p as int, xv));
        }
        i += 1;
    }
    assert(all.take(n as int) =~= all);
    sorted
}

/// The smallest `min_entry_id` among `nodes`.
fn min_entry_of(nodes: &Vec<OverlayNode>) -> (r: Option<i64>)
    ensures
        r == min_of_children(overlay_views(nodes@)),
{
    let ghost all = overlay_views(nodes@);
    let mut m: Option<i64> = None;
    let mut i: usize = 0;
    assert(all.take(0) =~= Seq::<OverlayView>::empty());
    while i < nodes.len()
        invariant
            0 <= i <= nodes@.len(),
            all == overlay_views(nodes@),
            m == min_of_children(all.take(i as int)),
        decreases nodes.len() - i,
    {
        proof {
            assert(all.take(i + 1).drop_last() =~= all.take(i as int));
            assert(all.take(i + 1).last() == nodes@[i as int]@);
        }
        m = match (m, nodes[i].min_entry_id) {
            (Some(x), Some(y)) => Some(if x <= y { x } else { y }),
            (Some(x), None) => Some(x),
            (None, y) => y,
        };
        i += 1;
    }
    assert(all.take(nodes@.len() as int) =~= all);
    m
}

impl OverlayNode {
    /// The overlay node for a shown node of the tree.
    pub fn from_prompt(node: &PromptContextNode) -> (r: Self)
        ensures
            r@ == overlay_of(node@),
        decreases node,
    {
        let ghost p = node@;
        let mut made: Vec<OverlayNode> = Vec::new();
        let mut i: usize = 0;
        while i < node.children.len()
            invariant
                0 <= i <= node.children@.len(),
                p == node@,
                made@.len() == i,
                forall|k: int| 0 <= k < i ==> (#[trigger] made@[k])@ == overlay_of(p.children[k]),
            decreases node.children.len() - i,
        {
            assert(decreases_to!(node => node.children));
            assert(decreases_to!(node.children => node.children@[i as int]));
            let c = OverlayNode::from_prompt(&node.children[i]);
            proof {
                assert(p.children[i as int] == node.children@[i as int]@);
            }
            made.push(c);
            i += 1;
        }
        assert(overlay_views(made@) =~= overlay_children(p));
        let children = sort_by_min_entry(made);
        let min_entry_id = if id_is_entry(node.id.as_str()) {
            let digits = strip_entry(node.id.as_str());
            parse_i64(digits.as_str())
        } else {
            min_entry_of(&children)
        };
        let r = OverlayNode {
            id: node.id.clone(),
            labels: copy_labels(&node.labels),
            title: node.title.clone(),
            summary: node.summary.clone(),
            selected: node.selected,
            collapsed: node.collapsed,
            children,
            min_entry_id,
        };
        proof {
            lemma_children_views(&r);
            assert(r@ =~= overlay_of(p));
        }
        r
    }
}

// ---------------------------------------------------------------------------
// Selecting and collapsing a subtree
// ---------------------------------------------------------------------------

/// `v` with it and every node under it selected (or not, as `sel` says).
pub open spec fn all_selected(v: OverlayView, sel: bool) -> OverlayView
    decreases v,
{
    OverlayView {
        selected: sel,
        children: Seq::new(
            v.children.len(),
            |i: int|
                if 0 <= i < v.children.len() {
                    all_selected(v.children[i], sel)
                } else {
                    arbitrary()
                },
        ),
        ..v
    }
}

/// The ids of `v` and the nodes under it whose selection differs from
/// `sel`, in pre-order.
pub open spec fn selection_changes(v: OverlayView, sel: bool) -> Seq<Seq<char>>
    decreases v,
{
    (if v.selected != sel {
        seq![v.id]
    } else {
        Seq::empty()
    }) + concat_all(selection_changes_per_child(v.children, sel))
}

/// `selection_changes` of each of `cs`.
pub open spec fn selection_changes_per_child(cs: Seq<OverlayView>, sel: bool) -> Seq<Seq<Seq<char>>>
    decreases cs,
{
    if cs.len() == 0 {
        Seq::empty()
    } else {
        selection_changes_per_child(cs.drop_last(), sel).push(selection_changes(cs.last(), sel))
    }
}

/// `v` with every node under it (not `v` itself) collapsed (or not, as `c`
/// says).
pub open spec fn collapsed_below(v: OverlayView, c: bool) -> OverlayView
    decreases v,
{
    OverlayView {
        children: Seq::new(
            v.children.len(),
            |i: int|
                if 0 <= i < v.children.len() {
                    OverlayView { collapsed: c, ..collapsed_below(v.children[i], c) }
                } else {
                    arbitrary()
                },
        ),
        ..v
    }
}

/// The ids of the nodes under `v` whose collapse state differs from `c`, in
/// pre-order.
pub open spec fn collapse_changes_below(v: OverlayView, c: bool) -> Seq<Seq<char>>
    decreases v,
{
    concat_all(collapse_changes_per_child(v.children, c))
}

/// For each of `cs`: its id if its state differs from `c`, then the changes
/// under it.
pub open spec fn collapse_changes_per_child(cs: Seq<OverlayView>, c: bool) -> Seq<Seq<Seq<char>>>
    decreases cs,
{
    if cs.len() == 0 {
        Seq::empty()
    } else {
        collapse_changes_per_child(cs.drop_last(), c).push(
            (if cs.last().collapsed != c {
                seq![cs.last().id]
            } else {
                Seq::empty()
            }) + collapse_changes_below(cs.last(), c),
        )
    }
}

proof fn lemma_concat_all_push<A>(ss: Seq<Seq<A>>, x: Seq<A>)
    ensures
        concat_all(ss.push(x)) == concat_all(ss) + x,
{
    assert(ss.push(x).drop_last() =~= ss);
}

impl OverlayNode {
    /// Selects (or unselects) this node and every node under it; the ids of
    /// those that change are appended to `changed`, in pre-order.
    pub fn set_descendants_selected(&mut self, selected: bool, changed: &mut Vec<String>)
        ensures
            final(self)@ == all_selected(old(self)@, selected),
            views(final(changed)@) == views(old(changed)@) + selection_changes(old(self)@, selected),
        decreases *old(self),
    {
        let ghost v = old(self)@;
        let ghost ch0 = views(changed@);
        if self.selected != selected {
            self.selected = selected;
            changed.push(self.id.clone());
        }
        let ghost own: Seq<Seq<char>> = if v.selected != selected {
            seq![v.id]
        } else {
            Seq::empty()
        };
        assert(views(changed@) =~= ch0 + own);
        let n = self.children.len();
        let mut k: usize = 0;
        assert(v.children.take(0) =~= Seq::<OverlayView>::empty());
        while k < n
            invariant
                0 <= k <= n,
                n == self.children@.len(),
                n == old(self).children@.len(),
                v == old(self)@,
                forall|j: int| 0 <= j < k ==> #[trigger] self.children@[j]@ == all_selected(v.children[j], selected),
                forall|j: int| k <= j < n ==> self.children@[j] == old(self).children@[j],
                self.id == old(self).id,
                self.labels == old(self).labels,
                self.title == old(self).title,
                self.summary == old(self).summary,
                self.collapsed == old(self).collapsed,
                self.min_entry_id == old(self).min_entry_id,
                self.selected == selected,
                views(changed@) == ch0 + own + concat_all(selection_changes_per_child(v.children.take(k as int), selected)),
            decreases n - k,
        {
            let ghost before = views(changed@);
            proof {
                assert(v.children[k as int] == old(self).children@[k as int]@);
            }
            self.children[k].set_descendants_selected(selected, changed);
            proof {
                assert(v.children.take(k + 1).drop_last() =~= v.children.take(k as int));
                assert(v.children.take(k + 1).last() == v.children[k as int]);
                lemma_concat_all_push(
                    selection_changes_per_child(v.children.take(k as int), selected),
                    selection_changes(v.children[k as int], selected),
                );
            }
            k += 1;
        }
        proof {
            assert(v.children.take(n as int) =~= v.children);
            let t = all_selected(v, selected);
            assert forall|j: int| 0 <= j < n implies self@.children[j] == t.children[j] by {
                assert(self.children@[j]@ == t.children[j]);
            }
            assert(self@.children =~= t.children);
            assert(self@ =~= t);
        }
    }

    /// Collapses (or expands) every node under this one; the ids of those
    /// that change are appended to `changed`, in pre-order.
    pub fn set_descendants_collapsed(&mut self, collapsed: bool, changed: &mut Vec<String>)
        ensures
            final(self)@ == collapsed_below(old(self)@, collapsed),
            views(final(changed)@) == views(old(changed)@) + collapse_changes_below(old(self)@, collapsed),
        decreases *old(self), 0int,
    {
        let ghost v = old(self)@;
        let ghost ch0 = views(changed@);
        let n = self.children.len();
        let mut k: usize = 0;
        assert(v.children.take(0) =~= Seq::<OverlayView>::empty());
        assert(views(changed@) =~= ch0 + concat_all(collapse_changes_per_child(v.children.take(0), collapsed)));
        while k < n
            invariant
                0 <= k <= n,
                n == self.children@.len(),
                n == old(self).children@.len(),
                v == old(self)@,
                forall|j: int|
                    0 <= j < k ==> #[trigger] self.children@[j]@ == (OverlayView {
                        collapsed: collapsed,
                        ..collapsed_below(v.children[j], collapsed)
                    }),
                forall|j: int| k <= j < n ==> self.children@[j] == old(self).children@[j],
                self.id == old(self).id,
                self.labels == old(self).labels,
                self.title == old(self).title,
                self.summary == old(self).summary,
                self.collapsed == old(self).collapsed,
                self.selected == old(self).selected,
                self.min_entry_id == old(self).min_entry_id,
                views(changed@) == ch0 + concat_all(collapse_changes_per_child(v.children.take(k as int), collapsed)),
            decreases n - k,
        {
            proof {
                assert(v.children[k as int] == old(self).children@[k as int]@);
            }
            assert(decreases_to!(*old(self) => old(self).children));
            assert(decreases_to!(old(self).children => old(self).children@[k as int]));
            collapse_child(&mut self.children[k], collapsed, changed);
            proof {
                let own: Seq<Seq<char>> = if v.children[k as int].collapsed != collapsed {
                    seq![v.children[k as int].id]
                } else {
                    Seq::empty()
                };
                assert(v.children.take(k + 1).drop_last() =~= v.children.take(k as int));
                assert(v.children.take(k + 1).last() == v.children[k as int]);
                lemma_concat_all_push(
                    collapse_changes_per_child(v.children.take(k as int), collapsed),
                    own + collapse_changes_below(v.children[k as int], collapsed),
                );
            }
            k += 1;
        }
        proof {
            assert(v.children.take(n as int) =~= v.children);
            let t = collapsed_below(v, collapsed);
            assert forall|j: int| 0 <= j < n implies self@.children[j] == t.children[j] by {
                assert(self.children@[j]@ == t.children[j]);
            }
            assert(self@.children =~= t.children);
            assert(self@ =~= t);
        }
    }
}

/// Collapses (or expands) `c` and every node under it; the ids of those
/// that change are appended to `changed`, `c`'s first.
fn collapse_child(c: &mut OverlayNode, collapsed: bool, changed: &mut Vec<String>)
    ensures
        final(c)@ == (OverlayView { collapsed: collapsed, ..collapsed_below(old(c)@, collapsed) }),
        views(final(changed)@) == views(old(changed)@) + (if old(c)@.collapsed != collapsed {
            seq![old(c)@.id]
        } else {
            Seq::<Seq<char>>::empty()
        }) + collapse_changes_below(old(c)@, collapsed),
    decreases *old(c), 1int,
{
    let ghost before = views(changed@);
    if c.collapsed != collapsed {
        changed.push(c.id.clone());
    }
    let ghost mid = views(changed@);
    c.set_descendants_collapsed(collapsed, changed);
    c.collapsed = collapsed;
    proof {
        assert(c@ =~= (OverlayView { collapsed: collapsed, ..collapsed_below(old(c)@, collapsed) }));
    }
}

// ---------------------------------------------------------------------------
// The checkbox of a row
// ---------------------------------------------------------------------------

/// How much of a subtree is selected.
#[derive(Clone, Copy, Debug, PartialEq, Eq, Structural)]
pub enum SelectionState {
    Selected,
    Unselected,
    Partial,
    Empty,
}

/// The states of each of `cs`.
pub open spec fn states_of(cs: Seq<OverlayView>) -> Seq<SelectionState>
    decreases cs,
{
    if cs.len() == 0 {
        Seq::empty()
    } else {
        states_of(cs.drop_last()).push(selection_of(cs.last()))
    }
}

/// How many of `s` are `st`.
pub open spec fn count_state(s: Seq<SelectionState>, st: SelectionState) -> nat
    decreases s.len(),
{
    if s.len() == 0 {
        0
    } else {
        count_state(s.drop_last(), st) + if s.last() == st {
            1nat
        } else {
            0nat
        }
    }
}

/// The state of a node: a leaf's own selection; for a group, partial where a
/// child is, else from its selected and unselected children (none where no
/// child counts).
pub open spec fn selection_of(v: OverlayView) -> SelectionState
    decreases v,
{
    if v.children.len() == 0 {
        if v.selected {
            SelectionState::Selected
        } else {
            SelectionState::Unselected
        }
    } else {
        let st = states_of(v.children);
        let selected = count_state(st, SelectionState::Selected);
        let total = selected + count_state(st, SelectionState::Unselected);
        if count_state(st, SelectionState::Partial) > 0 {
            SelectionState::Partial
        } else if total == 0 {
            SelectionState::Empty
        } else if selected == total {
            SelectionState::Selected
        } else if selected == 0 {
            SelectionState::Unselected
        } else {
            SelectionState::Partial
        }
    }
}

proof fn lemma_states_of(cs: Seq<OverlayView>)
    ensures
        states_of(cs).len() == cs.len(),
        forall|i: int| 0 <= i < cs.len() ==> #[trigger] states_of(cs)[i] == selection_of(cs[i]),
    decreases cs.len(),
{
    if cs.len() > 0 {
        lemma_states_of(cs.drop_last());
        assert forall|i: int| 0 <= i < cs.len() implies #[trigger] states_of(cs)[i] == selection_of(cs[i]) by {
            if i < cs.len() - 1 {
                assert(cs.drop_last()[i] == cs[i]);
            }
        }
    }
}

proof fn lemma_count_state_take(s: Seq<SelectionState>, st: SelectionState, k: int)
    requires
        0 <= k < s.len(),
    ensures
        count_state(s.take(k + 1), st) == count_state(s.take(k), st) + if s[k] == st {
            1nat
        } else {
            0nat
        },
{
    assert(s.take(k + 1).drop_last() =~= s.take(k));
}

proof fn lemma_count_state_bound(s: Seq<SelectionState>, st: SelectionState)
    ensures
        count_state(s, st) <= s.len(),
    decreases s.len(),
{
    if s.len() > 0 {
        lemma_count_state_bound(s.drop_last(), st);
    }
}

/// The state of a node's checkbox.
pub fn selection_state(node: &OverlayNode) -> (st: SelectionState)
    ensures
        st == selection_of(node@),
    decreases node,
{
    let ghost v = node@;
    if node.children.len() == 0 {
        return if node.selected {
            SelectionState::Selected
        } else {
            SelectionState::Unselected
        };
    }
    let ghost st = states_of(v.children);
    proof {
        lemma_states_of(v.children);
        lemma_count_state_bound(st, SelectionState::Selected);
        lemma_count_state_bound(st, SelectionState::Unselected);
    }
    let mut total: usize = 0;
    let mut selected: usize = 0;
    let mut i: usize = 0;
    assert(st.take(0) =~= Seq::<SelectionState>::empty());
    while i < node.children.len()
        invariant
            0 <= i <= node.children@.len(),
            v == node@,
            st == states_of(v.children),
            st.len() == v.children.len(),
            forall|q: int| 0 <= q < v.children.len() ==> #[trigger] st[q] == selection_of(v.children[q]),
            selected == count_state(st.take(i as int), SelectionState::Selected),
            total == selected + count_state(st.take(i as int), SelectionState::Unselected),
            count_state(st.take(i as int), SelectionState::Partial) == 0,
            total <= i,
        decreases node.children.len() - i,
    {
        assert(decreases_to!(node => node.children));
        assert(decreases_to!(node.children => node.children@[i as int]));
        let s = selection_state(&node.children[i]);
        proof {
            assert(v.children[i as int] == node.children@[i as int]@);
            assert(s == st[i as int]);
            lemma_count_state_take(st, SelectionState::Selected, i as int);
            lemma_count_state_take(st, SelectionState::Unselected, i as int);
            lemma_count_state_take(st, SelectionState::Partial, i as int);
        }
        match s {
            SelectionState::Selected => {
                selected += 1;
                total += 1;
            },
            SelectionState::Unselected => {
                total += 1;
            },
            SelectionState::Partial => {
                proof {
                    let p = count_state(st.take(i + 1), SelectionState::Partial);
                    assert(p > 0);
                    assert(st.take(st.len() as int) =~= st);
                    lemma_count_monotone(st, SelectionState::Partial, i + 1);
                }
                return SelectionState::Partial;
            },
            SelectionState::Empty => {},
        }
        i += 1;
    }
    proof {
        assert(st.take(st.len() as int) =~= st);
    }
    if total == 0 {
        SelectionState::Empty
    } else if selected == total {
        SelectionState::Selected
    } else if selected == 0 {
        SelectionState::Unselected
    } else {
        SelectionState::Partial
    }
}

proof fn lemma_count_monotone(s: Seq<SelectionState>, st: SelectionState, k: int)
    requires
        0 <= k <= s.len(),
    ensures
        count_state(s.take(k), st) <= count_state(s, st),
    decreases s.len() - k,
{
    if k < s.len() {
        lemma_count_monotone(s, st, k + 1);
        lemma_count_state_take(s, st, k);
    } else {
        assert(s.take(k) =~= s);
    }
}

/// The checkbox drawn for a state.
pub open spec fn marker_of(st: SelectionState) -> Seq<char> {
    match st {
        SelectionState::Selected => "[x]"@,
        SelectionState::Unselected => "[ ]"@,
        SelectionState::Partial => "[~]"@,
        SelectionState::Empty => "[ ]"@,
    }
}

/// The checkbox for a state.
pub fn selection_marker(state: SelectionState) -> (s: &'static str)
    ensures
        s@ == marker_of(state),
{
    match state {
        SelectionState::Selected => "[x]",
        SelectionState::Unselected => "[ ]",
        SelectionState::Partial => "[~]",
        SelectionState::Empty => "[ ]",
    }
}

// ---------------------------------------------------------------------------
// Rows and paths
// ---------------------------------------------------------------------------

/// The paths of the rows shown under `v`, whose own path is `prefix`: each
/// child in order, followed by its own rows unless it is collapsed.
pub open spec fn paths_under(v: OverlayView, prefix: Seq<usize>) -> Seq<Seq<usize>>
    decreases v,
{
    paths_of_children(v.children, prefix)
}

/// The rows of the children `cs` of the node at `prefix`.
pub open spec fn paths_of_children(cs: Seq<OverlayView>, prefix: Seq<usize>) -> Seq<Seq<usize>>
    decreases cs,
{
    if cs.len() == 0 {
        Seq::empty()
    } else {
        let p = prefix.push((cs.len() - 1) as usize);
        paths_of_children(cs.drop_last(), prefix) + seq![p] + if cs.last().collapsed {
            Seq::empty()
        } else {
            paths_under(cs.last(), p)
        }
    }
}

/// The views of a list of paths.
pub open spec fn path_views(v: Seq<Vec<usize>>) -> Seq<Seq<usize>> {
    v.map_values(|p: Vec<usize>| p@)
}

/// The node at `path` under `v`, if the path leads anywhere.
pub open spec fn node_at(v: OverlayView, path: Seq<usize>) -> Option<OverlayView>
    decreases path.len(),
{
    if path.len() == 0 {
        Some(v)
    } else if path[0] < v.children.len() {
        node_at(v.children[path[0] as int], path.drop_first())
    } else {
        None
    }
}

/// `v` with the node at `path` replaced by `n` (unchanged where the path
/// leads nowhere).
pub open spec fn replace_at(v: OverlayView, path: Seq<usize>, n: OverlayView) -> OverlayView
    decreases path.len(),
{
    if path.len() == 0 {
        n
    } else if path[0] < v.children.len() {
        OverlayView {
            children: v.children.update(
                path[0] as int,
                replace_at(v.children[path[0] as int], path.drop_first(), n),
            ),
            ..v
        }
    } else {
        v
    }
}

fn copy_path(p: &Vec<usize>) -> (r: Vec<usize>)
    ensures
        r@ == p@,
{
    let r = p.clone();
    assert(r@ =~= p@);
    r
}

/// Collects the paths of the rows under `node`, whose path is `prefix`.
fn collect_paths(node: &OverlayNode, prefix: &mut Vec<usize>, visible_paths: &mut Vec<Vec<usize>>)
    ensures
        final(prefix)@ == old(prefix)@,
        path_views(final(visible_paths)@) == path_views(old(visible_paths)@) + paths_under(node@, old(prefix)@),
    decreases node,
{
    let ghost v = node@;
    let ghost p0 = prefix@;
    let ghost start = path_views(visible_paths@);
    let n = node.children.len();
    let mut idx: usize = 0;
    assert(v.children.take(0) =~= Seq::<OverlayView>::empty());
    assert(path_views(visible_paths@) =~= start + paths_of_children(v.children.take(0), p0));
    while idx < n
        invariant
            0 <= idx <= n,
            n == node.children@.len(),
            v == node@,
            prefix@ == p0,
            path_views(visible_paths@) == start + paths_of_children(v.children.take(idx as int), p0),
        decreases n - idx,
    {
        prefix.push(idx);
        let ghost before = path_views(visible_paths@);
        visible_paths.push(copy_path(prefix));
        proof {
            assert(path_views(visible_paths@) =~= before.push(p0.push(idx)));
            assert(v.children[idx as int] == node.children@[idx as int]@);
            assert(v.children.take(idx + 1).drop_last() =~= v.children.take(idx as int));
            assert(v.children.take(idx + 1).last() == v.children[idx as int]);
        }
        if !node.children[idx].collapsed {
            assert(decreases_to!(node => node.children));
            assert(decreases_to!(node.children => node.children@[idx as int]));
            collect_paths(&node.children[idx], prefix, visible_paths);
        }
        let _ = prefix.pop();
        proof {
            assert(prefix@ =~= p0);
        }
        idx += 1;
    }
    assert(v.children.take(n as int) =~= v.children);
}

/// The node at `path`, if the path leads anywhere.
fn node_at_path<'a>(root: &'a OverlayNode, path: &Vec<usize>) -> (r: Option<&'a OverlayNode>)
    ensures
        match node_at(root@, path@) {
            Some(v) => r matches Some(n) && n@ == v,
            None => r is None,
        },
{
    let mut current = root;
    let mut i: usize = 0;
    assert(path@.skip(0) =~= path@);
    while i < path.len()
        invariant
            0 <= i <= path@.len(),
            node_at(root@, path@) == node_at(current@, path@.skip(i as int)),
        decreases path.len() - i,
    {
        let idx = path[i];
        proof {
            assert(path@.skip(i as int)[0] == idx);
            assert(path@.skip(i as int).drop_first() =~= path@.skip(i + 1));
        }
        if idx < current.children.len() {
            proof {
                assert(current@.children[idx as int] == current.children@[idx as int]@);
            }
            current = &current.children[idx];
        } else {
            return None;
        }
        i += 1;
    }
    assert(path@.skip(path@.len() as int) =~= Seq::<usize>::empty());
    Some(current)
}

/// Flips the selection of the node at `path[depth..]` under `node`, and of
/// every node under it, collecting the ids that change.
fn toggle_at(node: &mut OverlayNode, path: &Vec<usize>, depth: usize, changed: &mut Vec<String>) -> (found: bool)
    requires
        depth <= path@.len(),
    ensures
        match node_at(old(node)@, path@.skip(depth as int)) {
            Some(n) => found && final(node)@ == replace_at(
                old(node)@,
                path@.skip(depth as int),
                all_selected(n, !n.selected),
            ) && views(final(changed)@) == views(old(changed)@) + selection_changes(n, !n.selected),
            None => !found && final(node)@ == old(node)@ && final(changed)@ == old(changed)@,
        },
    decreases path@.len() - depth,
{
    let ghost rest = path@.skip(depth as int);
    if depth == path.len() {
        let new_state = !node.selected;
        node.set_descendants_selected(new_state, changed);
        return true;
    }
    let idx = path[depth];
    proof {
        assert(rest[0] == idx);
        assert(rest.drop_first() =~= path@.skip(depth + 1));
    }
    if idx < node.children.len() {
        let ghost c_old = node.children@[idx as int];
        proof {
            assert(old(node)@.children[idx as int] == c_old@);
        }
        let found = toggle_at(&mut node.children[idx], path, depth + 1, changed);
        proof {
            assert(node@.children =~= old(node)@.children.update(idx as int, node.children@[idx as int]@));
            assert(node@ =~= OverlayView { children: old(node)@.children.update(idx as int, node.children@[idx as int]@), ..old(node)@ });
            assert(old(node)@.children.update(idx as int, c_old@) =~= old(node)@.children);
        }
        found
    } else {
        false
    }
}

/// Sets the collapse state of the node at `path[depth..]` under `node` (and,
/// with `recursive`, of every node under it), collecting the ids that
/// change; `Some(false)` where that node has no children.
fn collapse_at(
    node: &mut OverlayNode,
    path: &Vec<usize>,
    depth: usize,
    collapse: bool,
    recursive: bool,
    changed: &mut Vec<String>,
) -> (r: Option<bool>)
    requires
        depth <= path@.len(),
    ensures
        match node_at(old(node)@, path@.skip(depth as int)) {
            Some(n) => if n.children.len() == 0 {
                r == Some(false) && final(node)@ == old(node)@ && final(changed)@ == old(changed)@
            } else {
                r == Some(true) && final(node)@ == replace_at(
                    old(node)@,
                    path@.skip(depth as int),
                    collapse_result(n, collapse, recursive),
                ) && views(final(changed)@) == views(old(changed)@) + collapse_result_changes(
                    n,
                    collapse,
                    recursive,
                )
            },
            None => r is None && final(node)@ == old(node)@ && final(changed)@ == old(changed)@,
        },
    decreases path@.len() - depth,
{
    let ghost rest = path@.skip(depth as int);
    if depth == path.len() {
        if node.children.len() == 0 {
            return Some(false);
        }
        let ghost before = views(changed@);
        let ghost n0 = node@;
        if node.collapsed != collapse {
            node.collapsed = collapse;
            changed.push(node.id.clone());
        }
        proof {
            assert(node@ =~= OverlayView { collapsed: collapse, ..n0 });
        }
        if recursive {
            node.set_descendants_collapsed(collapse, changed);
            proof {
                assert(collapsed_below(OverlayView { collapsed: collapse, ..n0 }, collapse) =~= OverlayView {
                    collapsed: collapse,
                    ..collapsed_below(n0, collapse)
                });
            }
        }
        return Some(true);
    }
    let idx = path[depth];
    proof {
        assert(rest[0] == idx);
        assert(rest.drop_first() =~= path@.skip(depth + 1));
    }
    if idx < node.children.len() {
        let ghost c_old = node.children@[idx as int];
        proof {
            assert(old(node)@.children[idx as int] == c_old@);
        }
        let r = collapse_at(&mut node.children[idx], path, depth + 1, collapse, recursive, changed);
        proof {
            assert(node@.children =~= old(node)@.children.update(idx as int, node.children@[idx as int]@));
            assert(node@ =~= OverlayView { children: old(node)@.children.update(idx as int, node.children@[idx as int]@), ..old(node)@ });
            assert(old(node)@.children.update(idx as int, c_old@) =~= old(node)@.children);
        }
        r
    } else {
        None
    }
}

/// The node after its collapse state is set (and, with `recursive`, that of
/// every node under it).
pub open spec fn collapse_result(n: OverlayView, collapse: bool, recursive: bool) -> OverlayView {
    if recursive {
        OverlayView { collapsed: collapse, ..collapsed_below(n, collapse) }
    } else {
        OverlayView { collapsed: collapse, ..n }
    }
}

/// The ids that change when the collapse state is set.
pub open spec fn collapse_result_changes(n: OverlayView, collapse: bool, recursive: bool) -> Seq<Seq<char>> {
    (if n.collapsed != collapse {
        seq![n.id]
    } else {
        Seq::empty()
    }) + if recursive {
        collapse_changes_below(n, collapse)
    } else {
        Seq::empty()
    }
}

// ---------------------------------------------------------------------------
// Details of a node
// ---------------------------------------------------------------------------

/// The detail lines of a node: its title in bold; its labels; its summary,
/// line by line with markdown, or a dim note where it has none; an empty
/// line; its id.
pub open spec fn detail_lines_of(v: OverlayView) -> Seq<Seq<SpanView>> {
    seq![seq![SpanView { text: v.title, style: TextStyle { bold: true, ..plain() } }]] + (if v.labels.len() > 0 {
        seq![
            seq![
                SpanView { text: "Labels: "@, style: TextStyle { dim: true, ..plain() } },
                SpanView { text: join_seq(v.labels, "/"@), style: plain() },
            ],
        ]
    } else {
        Seq::empty()
    }) + (if v.summary.len() == 0 {
        seq![seq![SpanView { text: "No summary available."@, style: TextStyle { dim: true, ..plain() } }]]
    } else {
        lines_of(v.summary).map_values(|l: Seq<char>| markdown_line(l))
    }) + seq![
        seq![SpanView { text: Seq::empty(), style: plain() }],
        seq![
            SpanView { text: "Node ID: "@, style: TextStyle { dim: true, ..plain() } },
            SpanView { text: v.id, style: plain() },
        ],
    ]
}

fn span(text: String, bold: bool, dim: bool) -> (s: StyledSpan)
    ensures
        s@ == (SpanView { text: text@, style: TextStyle { bold, italic: false, dim } }),
{
    StyledSpan { text, style: TextStyle { bold, italic: false, dim } }
}

/// The detail lines of a node.
pub fn detail_lines_for_node(node: &OverlayNode) -> (lines: Vec<Vec<StyledSpan>>)
    ensures
        line_views(lines@) == detail_lines_of(node@),
{
    let ghost v = node@;
    let mut lines: Vec<Vec<StyledSpan>> = Vec::new();
    let mut title_line: Vec<StyledSpan> = Vec::new();
    title_line.push(span(node.title.clone(), true, false));
    assert(span_views(title_line@) =~= seq![SpanView { text: v.title, style: TextStyle { bold: true, ..plain() } }]);
    let ghost tl = span_views(title_line@);
    lines.push(title_line);
    assert(line_views(lines@) =~= seq![tl]);
    let ghost l1 = line_views(lines@);
    assert(l1 =~= seq![seq![SpanView { text: v.title, style: TextStyle { bold: true, ..plain() } }]]);
    if node.labels.len() > 0 {
        let mut label_line: Vec<StyledSpan> = Vec::new();
        label_line.push(span(copy_str("Labels: "), false, true));
        label_line.push(span(join(&node.labels, "/"), false, false));
        let ghost ll = span_views(label_line@);
        assert(ll =~= seq![
            SpanView { text: "Labels: "@, style: TextStyle { dim: true, ..plain() } },
            SpanView { text: join_seq(v.labels, "/"@), style: plain() },
        ]);
        lines.push(label_line);
        assert(line_views(lines@) =~= l1.push(ll));
    } else {
        assert(line_views(lines@) =~= l1);
    }
    let ghost l2 = line_views(lines@);
    assert(l2 =~= l1 + (if v.labels.len() > 0 {
        seq![
            seq![
                SpanView { text: "Labels: "@, style: TextStyle { dim: true, ..plain() } },
                SpanView { text: join_seq(v.labels, "/"@), style: plain() },
            ],
        ]
    } else {
        Seq::<Seq<SpanView>>::empty()
    }));
    if node.summary.as_str().is_empty() {
        let mut none_line: Vec<StyledSpan> = Vec::new();
        none_line.push(span(copy_str("No summary available."), false, true));
        let ghost nl = span_views(none_line@);
        assert(nl =~= seq![SpanView { text: "No summary available."@, style: TextStyle { dim: true, ..plain() } }]);
        lines.push(none_line);
        assert(line_views(lines@) =~= l2.push(nl));
        assert(line_views(lines@) =~= l2 + seq![seq![SpanView { text: "No summary available."@, style: TextStyle { dim: true, ..plain() } }]]);
    } else {
        let parts = str_lines(node.summary.as_str());
        let ghost pv = views(parts@);
        let mut j: usize = 0;
        while j < parts.len()
            invariant
                0 <= j <= parts@.len(),
                pv == views(parts@),
                pv == lines_of(v.summary),
                line_views(lines@) == l2 + pv.take(j as int).map_values(|l: Seq<char>| markdown_line(l)),
            decreases parts.len() - j,
        {
            let ghost before = line_views(lines@);
            let line = render_markdown_line(parts[j].as_str());
            lines.push(line);
            proof {
                assert(parts@[j as int]@ == pv[j as int]);
                assert(pv.take(j + 1).map_values(|l: Seq<char>| markdown_line(l)) =~= pv.take(j as int).map_values(
                    |l: Seq<char>| markdown_line(l),
                ).push(markdown_line(pv[j as int])));
                assert(line_views(lines@) =~= before.push(markdown_line(pv[j as int])));
            }
            j += 1;
        }
        assert(pv.take(parts@.len() as int) =~= pv);
    }
    let ghost l3 = line_views(lines@);
    let mut blank: Vec<StyledSpan> = Vec::new();
    blank.push(span(String::new(), false, false));
    let ghost bl = span_views(blank@);
    assert(bl =~= seq![SpanView { text: Seq::empty(), style: plain() }]);
    lines.push(blank);
    let mut id_line: Vec<StyledSpan> = Vec::new();
    id_line.push(span(copy_str("Node ID: "), false, true));
    id_line.push(span(node.id.clone(), false, false));
    let ghost il = span_views(id_line@);
    assert(il =~= seq![
        SpanView { text: "Node ID: "@, style: TextStyle { dim: true, ..plain() } },
        SpanView { text: v.id, style: plain() },
    ]);
    lines.push(id_line);
    proof {
        assert(line_views(lines@) =~= l3.push(bl).push(il));
        assert(line_views(lines@) =~= l3 + seq![
            seq![SpanView { text: Seq::empty(), style: plain() }],
            seq![
                SpanView { text: "Node ID: "@, style: TextStyle { dim: true, ..plain() } },
                SpanView { text: v.id, style: plain() },
            ],
        ]);
    }
    lines
}

// ---------------------------------------------------------------------------
// Keys
// ---------------------------------------------------------------------------

/// A key, as the overlay reads it.
#[derive(Clone, Copy, Debug, PartialEq, Eq, Structural)]
pub enum OverlayKeyCode {
    Up,
    Down,
    PageUp,
    PageDown,
    Left,
    Right,
    Enter,
    Esc,
    Char(char),
    Other,
}

/// Whether a key went down, repeats, or went up.
#[derive(Clone, Copy, Debug, PartialEq, Eq, Structural)]
pub enum OverlayKeyKind {
    Press,
    Repeat,
    Release,
}

/// A key event.
#[derive(Clone, Copy, Debug, PartialEq, Eq, Structural)]
pub struct OverlayKey {
    pub code: OverlayKeyCode,
    pub kind: OverlayKeyKind,
}

/// How the overlay was left.
#[derive(Clone, Copy, Debug, PartialEq, Eq, Structural)]
pub enum ExitAction {
    Save,
    Cancel,
}

// ---------------------------------------------------------------------------
// The overlay
// ---------------------------------------------------------------------------

/// The context overlay: the tree, the rows shown, the selected row, the
/// scroll positions, whether and how it was left, and the toggles made.
#[derive(Debug)]
pub struct ContextOverlay {
    root: OverlayNode,
    visible_paths: Vec<Vec<usize>>,
    selected: usize,
    list_scroll: usize,
    detail_scroll: usize,
    last_detail_total_height: usize,
    last_detail_area_height: u16,
    is_done: bool,
    exit_action: Option<ExitAction>,
    pending_selected: Vec<String>,
    pending_collapsed: Vec<String>,
}

/// The overlay as plain values.
pub struct OverlayState {
    pub root: OverlayView,
    pub visible_paths: Seq<Seq<usize>>,
    pub selected: usize,
    pub list_scroll: usize,
    pub detail_scroll: usize,
    pub last_detail_total_height: usize,
    pub last_detail_area_height: u16,
    pub is_done: bool,
    pub exit_action: Option<ExitAction>,
    pub pending_selected: Seq<Seq<char>>,
    pub pending_collapsed: Seq<Seq<char>>,
}

impl View for ContextOverlay {
    type V = OverlayState;

    closed spec fn view(&self) -> OverlayState {
        OverlayState {
            root: self.root@,
            visible_paths: path_views(self.visible_paths@),
            selected: self.selected,
            list_scroll: self.list_scroll,
            detail_scroll: self.detail_scroll,
            last_detail_total_height: self.last_detail_total_height,
            last_detail_area_height: self.last_detail_area_height,
            is_done: self.is_done,
            exit_action: self.exit_action,
            pending_selected: views(self.pending_selected@),
            pending_collapsed: views(self.pending_collapsed@),
        }
    }
}

/// The overlay's state once its rows are rebuilt from its tree: the row
/// selected stays where it can, else moves to the last row; the list
/// scroll stays within the rows.
pub open spec fn rebuilt(s: OverlayState) -> OverlayState {
    let paths = paths_under(s.root, Seq::empty());
    if paths.len() == 0 {
        OverlayState { visible_paths: paths, selected: 0, list_scroll: 0, ..s }
    } else {
        OverlayState {
            visible_paths: paths,
            selected: if s.selected >= paths.len() {
                (paths.len() - 1) as usize
            } else {
                s.selected
            },
            list_scroll: if s.list_scroll <= paths.len() - 1 {
                s.list_scroll
            } else {
                (paths.len() - 1) as usize
            },
            ..s
        }
    }
}

/// The placeholder shown when there is no tree.
pub open spec fn placeholder_view() -> OverlayView {
    OverlayView {
        id: "placeholder-root"@,
        labels: seq!["conversation"@],
        title: "Conversation"@,
        summary: Seq::empty(),
        selected: true,
        collapsed: false,
        children: seq![
            OverlayView {
                id: "placeholder-child"@,
                labels: seq!["conversation"@],
                title: "Context tree unavailable"@,
                summary: "No prompt context tree is available right now."@,
                selected: true,
                collapsed: false,
                children: Seq::empty(),
                min_entry_id: None,
            },
        ],
        min_entry_id: None,
    }
}

/// Where the selected row goes when moved by `delta`: kept within the rows.
pub open spec fn moved(selected: int, delta: int, len: int) -> int {
    let next = selected + delta;
    if next < 0 {
        0
    } else if next >= len {
        len - 1
    } else {
        next
    }
}

/// The list scroll that keeps the selected row among `visible` rows.
pub open spec fn scrolled_to_selection(s: OverlayState, visible: nat) -> usize {
    if visible == 0 || s.visible_paths.len() == 0 {
        0
    } else if s.selected < s.list_scroll {
        s.selected
    } else if s.selected >= s.list_scroll + visible {
        (s.selected + 1 - visible) as usize
    } else {
        s.list_scroll
    }
}

/// The width of the list pane in an area `width` wide: a third, at least
/// 20, but leaving 20 for the details where it can (and at least 10).
pub open spec fn list_width_of(width: u16) -> u16 {
    let left = if width / 3 >= 20 {
        width / 3
    } else {
        20
    };
    let rest = if width >= left {
        width - left
    } else {
        0
    };
    if rest < 20 {
        let w = if width >= 20 {
            width - 20
        } else {
            0
        };
        (if w >= 10 {
            w
        } else {
            10
        }) as u16
    } else {
        left
    }
}

/// The width of the list pane.
pub fn list_width(width: u16) -> (w: u16)
    ensures
        w == list_width_of(width),
{
    let min_detail: u16 = 20;
    let default_left = width / 3;
    let mut left_width = if default_left >= 20 {
        default_left
    } else {
        20
    };
    let rest = if width >= left_width {
        width - left_width
    } else {
        0
    };
    if rest < min_detail {
        let w = if width >= min_detail {
            width - min_detail
        } else {
            0
        };
        left_width = if w >= 10 {
            w
        } else {
            10
        };
    }
    left_width
}

impl ContextOverlay {
    /// An overlay over `tree`, or over a placeholder where there is none.
    pub fn new(tree: Option<PromptContextTree>) -> (o: Self)
        ensures
            o@ == rebuilt(
                OverlayState {
                    root: match tree {
                        Some(t) => overlay_of(t@),
                        None => placeholder_view(),
                    },
                    visible_paths: Seq::empty(),
                    selected: 0,
                    list_scroll: 0,
                    detail_scroll: 0,
                    last_detail_total_height: 0,
                    last_detail_area_height: 0,
                    is_done: false,
                    exit_action: None,
                    pending_selected: Seq::empty(),
                    pending_collapsed: Seq::empty(),
                },
            ),
    {
        let root = match &tree {
            Some(ctx) => OverlayNode::from_prompt(&ctx.root),
            None => Self::placeholder_root(),
        };
        let mut overlay = ContextOverlay {
            root,
            visible_paths: Vec::new(),
            selected: 0,
            list_scroll: 0,
            detail_scroll: 0,
            last_detail_total_height: 0,
            last_detail_area_height: 0,
            is_done: false,
            exit_action: None,
            pending_selected: Vec::new(),
            pending_collapsed: Vec::new(),
        };
        proof {
            assert(path_views(overlay.visible_paths@) =~= Seq::<Seq<usize>>::empty());
            assert(views(overlay.pending_selected@) =~= Seq::<Seq<char>>::empty());
            assert(views(overlay.pending_collapsed@) =~= Seq::<Seq<char>>::empty());
        }
        overlay.rebuild_visible_paths();
        overlay
    }

    /// The placeholder tree: a conversation with one child that says no
    /// tree is available.
    pub fn placeholder_root() -> (n: OverlayNode)
        ensures
            n@ == placeholder_view(),
    {
        let mut child_labels: Vec<String> = Vec::new();
        child_labels.push(copy_str("conversation"));
        let child = OverlayNode {
            id: copy_str("placeholder-child"),
            labels: child_labels,
            title: copy_str("Context tree unavailable"),
            summary: copy_str("No prompt context tree is available right now."),
            selected: true,
            collapsed: false,
            children: Vec::new(),
            min_entry_id: None,
        };
        let mut labels: Vec<String> = Vec::new();
        labels.push(copy_str("conversation"));
        let mut children: Vec<OverlayNode> = Vec::new();
        children.push(child);
        let n = OverlayNode {
            id: copy_str("placeholder-root"),
            labels,
            title: copy_str("Conversation"),
            summary: String::new(),
            selected: true,
            collapsed: false,
            children,
            min_entry_id: None,
        };
        proof {
            assert(n.children@[0]@.children =~= Seq::<OverlayView>::empty());
            assert(n.children@[0]@.labels =~= seq!["conversation"@]);
            assert(n.children@[0]@ =~= placeholder_view().children[0]);
            assert(n@.children =~= placeholder_view().children);
            assert(n@.labels =~= seq!["conversation"@]);
            assert(n@ =~= placeholder_view());
        }
        n
    }

    /// Whether the overlay was left.
    pub fn is_done(&self) -> (r: bool)
        ensures
            r == self@.is_done,
    {
        self.is_done
    }

    /// How the overlay was left: cancelled, unless it was saved.
    pub fn exit_action(&self) -> (a: ExitAction)
        ensures
            a == match self@.exit_action {
                Some(x) => x,
                None => ExitAction::Cancel,
            },
    {
        match self.exit_action {
            Some(x) => x,
            None => ExitAction::Cancel,
        }
    }

    /// Hands over the toggles made so far, and forgets them.
    pub fn take_selection_updates(&mut self) -> (a: PromptContextActions)
        ensures
            views(a.toggle_selected@) == old(self)@.pending_selected,
            views(a.toggle_collapsed@) == old(self)@.pending_collapsed,
            final(self)@ == (OverlayState {
                pending_selected: Seq::empty(),
                pending_collapsed: Seq::empty(),
                ..old(self)@
            }),
    {
        let mut sel: Vec<String> = Vec::new();
        let mut col: Vec<String> = Vec::new();
        std::mem::swap(&mut sel, &mut self.pending_selected);
        std::mem::swap(&mut col, &mut self.pending_collapsed);
        assert(views(self.pending_selected@) =~= Seq::<Seq<char>>::empty());
        assert(views(self.pending_collapsed@) =~= Seq::<Seq<char>>::empty());
        PromptContextActions { toggle_selected: sel, toggle_collapsed: col }
    }

    /// Forgets the toggles made so far.
    pub fn discard_selection_updates(&mut self)
        ensures
            final(self)@ == (OverlayState {
                pending_selected: Seq::empty(),
                pending_collapsed: Seq::empty(),
                ..old(self)@
            }),
    {
        self.pending_selected.clear();
        self.pending_collapsed.clear();
        assert(views(self.pending_selected@) =~= Seq::<Seq<char>>::empty());
        assert(views(self.pending_collapsed@) =~= Seq::<Seq<char>>::empty());
    }

    /// How far a page scrolls the details: the height of the detail pane,
    /// at least one line.
    pub fn page_scroll_amount(&self) -> (n: usize)
        ensures
            n == if self@.last_detail_area_height >= 1 {
                self@.last_detail_area_height as usize
            } else {
                1usize
            },
    {
        if self.last_detail_area_height >= 1 {
            self.last_detail_area_height as usize
        } else {
            1
        }
    }

    /// Moves the selected row by `delta`, within the rows; returns whether
    /// it moved (then the details scroll back to the top).
    pub fn move_selection(&mut self, delta: isize) -> (changed: bool)
        ensures
            (changed, final(self)@) == after_move(old(self)@, delta as int),
    {
        if self.visible_paths.len() == 0 {
            return false;
        }
        let len = self.visible_paths.len() as i128;
        let mut next: i128 = self.selected as i128 + delta as i128;
        if next < 0 {
            next = 0;
        } else if next >= len {
            next = len - 1;
        }
        let next = next as usize;
        let changed = next != self.selected;
        self.selected = next;
        if changed {
            self.detail_scroll = 0;
        }
        changed
    }

    /// Scrolls the details by `delta` lines, not above the top; returns
    /// whether they moved. Nothing moves before the details were drawn.
    pub fn scroll_detail(&mut self, delta: isize) -> (changed: bool)
        ensures
            (changed, final(self)@) == after_scroll(old(self)@, delta as int),
    {
        if delta == 0 || self.last_detail_total_height == 0 {
            return false;
        }
        let mut next: i128 = self.detail_scroll as i128 + delta as i128;
        if next < 0 {
            next = 0;
        }
        if next == self.detail_scroll as i128 {
            return false;
        }
        if next > usize::MAX as i128 {
            next = usize::MAX as i128;
        }
        self.detail_scroll = next as usize;
        true
    }

    /// Moves the list scroll so that the selected row is among `visible` rows.
    pub fn ensure_selection_visible(&mut self, visible: usize)
        ensures
            final(self)@ == (OverlayState {
                list_scroll: scrolled_to_selection(old(self)@, visible as nat),
                ..old(self)@
            }),
    {
        if visible == 0 || self.visible_paths.len() == 0 {
            self.list_scroll = 0;
            return;
        }
        if self.selected < self.list_scroll {
            self.list_scroll = self.selected;
        } else if self.selected - self.list_scroll >= visible {
            self.list_scroll = self.selected - visible + 1;
        }
    }

    /// Rebuilds the rows from the tree.
    pub fn rebuild_visible_paths(&mut self)
        ensures
            final(self)@ == rebuilt(old(self)@),
    {
        self.visible_paths.clear();
        let mut current: Vec<usize> = Vec::new();
        proof {
            assert(path_views(self.visible_paths@) =~= Seq::<Seq<usize>>::empty());
            assert(current@ =~= Seq::<usize>::empty());
        }
        collect_paths(&self.root, &mut current, &mut self.visible_paths);
        proof {
            assert(path_views(self.visible_paths@) =~= paths_under(self.root@, Seq::empty()));
        }
        if self.visible_paths.len() == 0 {
            self.selected = 0;
            self.list_scroll = 0;
            return;
        }
        if self.selected >= self.visible_paths.len() {
            self.selected = self.visible_paths.len() - 1;
        }
        if self.list_scroll > self.visible_paths.len() - 1 {
            self.list_scroll = self.visible_paths.len() - 1;
        }
    }

    /// The node at `path`, if the path leads anywhere.
    pub fn node(&self, path: &Vec<usize>) -> (r: Option<&OverlayNode>)
        ensures
            match node_at(self@.root, path@) {
                Some(v) => r matches Some(n) && n@ == v,
                None => r is None,
            },
    {
        node_at_path(&self.root, path)
    }

    /// Flips the selection of the selected row's node and of every node
    /// under it; returns whether anything changed.
    pub fn toggle_selection(&mut self) -> (changed: bool)
        ensures
            (changed, final(self)@) == after_toggle(old(self)@),
    {
        if self.selected >= self.visible_paths.len() {
            return false;
        }
        let path = copy_path(&self.visible_paths[self.selected]);
        proof {
            assert(path@ == old(self)@.visible_paths[self.selected as int]);
            assert(path@.skip(0) =~= path@);
        }
        let mut changed_nodes: Vec<String> = Vec::new();
        let found = toggle_at(&mut self.root, &path, 0, &mut changed_nodes);
        if !found {
            return false;
        }
        let ghost before = views(self.pending_selected@);
        self.pending_selected.append(&mut changed_nodes);
        proof {
            assert(views(self.pending_selected@) =~= before + selection_changes(
                node_at(old(self)@.root, path@).unwrap(),
                !node_at(old(self)@.root, path@).unwrap().selected,
            ));
        }
        true
    }

    /// Collapses the selected row's node (and, with `recursive`, every node
    /// under it).
    pub fn collapse_current(&mut self, recursive: bool) -> (changed: bool)
        ensures
            changed == collapse_changed(old(self)@, true, recursive),
            final(self)@ == collapse_state_after(old(self)@, true, recursive),
    {
        self.set_collapse_state(true, recursive)
    }

    /// Expands the selected row's node (and, with `recursive`, every node
    /// under it).
    pub fn expand_current(&mut self, recursive: bool) -> (changed: bool)
        ensures
            changed == collapse_changed(old(self)@, false, recursive),
            final(self)@ == collapse_state_after(old(self)@, false, recursive),
    {
        self.set_collapse_state(false, recursive)
    }

    /// Sets the collapse state of the selected row's node (and, with
    /// `recursive`, of every node under it). A node without children is
    /// left alone. Where anything changed, the toggles are kept, the details
    /// scroll back to the top and the rows are rebuilt.
    pub fn set_collapse_state(&mut self, collapse: bool, recursive: bool) -> (changed: bool)
        ensures
            changed == collapse_changed(old(self)@, collapse, recursive),
            final(self)@ == collapse_state_after(old(self)@, collapse, recursive),
    {
        if self.selected >= self.visible_paths.len() {
            return false;
        }
        let path = copy_path(&self.visible_paths[self.selected]);
        proof {
            assert(path@ == old(self)@.visible_paths[self.selected as int]);
            assert(path@.skip(0) =~= path@);
        }
        let mut changed_nodes: Vec<String> = Vec::new();
        let r = collapse_at(&mut self.root, &path, 0, collapse, recursive, &mut changed_nodes);
        match r {
            Some(true) => {},
            _ => {
                return false;
            },
        }
        if changed_nodes.len() == 0 {
            return false;
        }
        let ghost before = views(self.pending_collapsed@);
        self.pending_collapsed.append(&mut changed_nodes);
        self.detail_scroll = 0;
        proof {
            let n = node_at(old(self)@.root, path@).unwrap();
            assert(views(self.pending_collapsed@) =~= before + collapse_result_changes(n, collapse, recursive));
        }
        self.rebuild_visible_paths();
        true
    }

    /// Handles a key; returns whether the overlay changed and is to be
    /// drawn again.
    pub fn handle_key(&mut self, key: OverlayKey) -> (changed: bool)
        ensures
            (changed, final(self)@) == key_outcome(old(self)@, key),
    {
        match key.kind {
            OverlayKeyKind::Press | OverlayKeyKind::Repeat => {},
            OverlayKeyKind::Release => {
                return false;
            },
        }
        match key.code {
            OverlayKeyCode::Esc => self.cancel_exit(),
            OverlayKeyCode::Enter => self.toggle_selection(),
            OverlayKeyCode::Up => self.move_selection(-1),
            OverlayKeyCode::Down => self.move_selection(1),
            OverlayKeyCode::PageUp => {
                let page = self.page_scroll_amount() as isize;
                self.scroll_detail(-page)
            },
            OverlayKeyCode::PageDown => {
                let page = self.page_scroll_amount() as isize;
                self.scroll_detail(page)
            },
            OverlayKeyCode::Left => self.collapse_current(false),
            OverlayKeyCode::Right => self.expand_current(false),
            OverlayKeyCode::Char(c) => {
                if c == 'q' || c == 'x' {
                    self.cancel_exit()
                } else if c == 's' {
                    self.save_and_exit()
                } else if c == ' ' {
                    self.toggle_selection()
                } else if c == 'k' {
                    self.move_selection(-1)
                } else if c == 'j' {
                    self.move_selection(1)
                } else if c == 'h' {
                    self.collapse_current(false)
                } else if c == 'l' {
                    self.expand_current(false)
                } else if c == 'H' {
                    self.collapse_current(true)
                } else if c == 'L' {
                    self.expand_current(true)
                } else {
                    false
                }
            },
            OverlayKeyCode::Other => false,
        }
    }

    /// Leaves the overlay, saving the toggles.
    pub fn save_and_exit(&mut self) -> (r: bool)
        ensures
            r,
            final(self)@ == (OverlayState { is_done: true, exit_action: Some(ExitAction::Save), ..old(self)@ }),
    {
        self.is_done = true;
        self.exit_action = Some(ExitAction::Save);
        true
    }

    /// Leaves the overlay, dropping the toggles.
    pub fn cancel_exit(&mut self) -> (r: bool)
        ensures
            r,
            final(self)@ == (OverlayState { is_done: true, exit_action: Some(ExitAction::Cancel), ..old(self)@ }),
    {
        self.is_done = true;
        self.exit_action = Some(ExitAction::Cancel);
        true
    }
}

/// The outcome of moving the selected row by `delta`: whether it moved,
/// and the overlay after.
pub open spec fn after_move(s: OverlayState, delta: int) -> (bool, OverlayState) {
    if s.visible_paths.len() == 0 {
        (false, s)
    } else {
        let next = moved(s.selected as int, delta, s.visible_paths.len() as int);
        let changed = next != s.selected;
        (changed, OverlayState {
            selected: next as usize,
            detail_scroll: if changed {
                0
            } else {
                s.detail_scroll
            },
            ..s
        })
    }
}

/// The outcome of scrolling the details by `delta`.
pub open spec fn after_scroll(s: OverlayState, delta: int) -> (bool, OverlayState) {
    let next = if s.detail_scroll + delta < 0 {
        0
    } else {
        s.detail_scroll + delta
    };
    if delta == 0 || s.last_detail_total_height == 0 || next == s.detail_scroll {
        (false, s)
    } else {
        (true, OverlayState {
            detail_scroll: if next > usize::MAX {
                usize::MAX
            } else {
                next as usize
            },
            ..s
        })
    }
}

/// The outcome of flipping the selection under the selected row.
pub open spec fn after_toggle(s: OverlayState) -> (bool, OverlayState) {
    if s.selected < s.visible_paths.len() {
        match node_at(s.root, s.visible_paths[s.selected as int]) {
            Some(n) => (true, OverlayState {
                root: replace_at(s.root, s.visible_paths[s.selected as int], all_selected(n, !n.selected)),
                pending_selected: s.pending_selected + selection_changes(n, !n.selected),
                ..s
            }),
            None => (false, s),
        }
    } else {
        (false, s)
    }
}

/// The number of lines a page scrolls.
pub open spec fn page_of(s: OverlayState) -> int {
    if s.last_detail_area_height >= 1 {
        s.last_detail_area_height as int
    } else {
        1
    }
}

/// The outcome of a key: `q`, `Esc` and `x` cancel, `s` saves, space and
/// `Enter` toggle the selection, up/`k` and down/`j` move, page up and down
/// scroll the details, left/`h` and right/`l` collapse and expand, `H` and
/// `L` do so for the whole subtree; only presses and repeats count.
pub open spec fn key_outcome(s: OverlayState, key: OverlayKey) -> (bool, OverlayState) {
    if !(key.kind is Press || key.kind is Repeat) {
        (false, s)
    } else {
        match key.code {
            OverlayKeyCode::Esc => (true, OverlayState { is_done: true, exit_action: Some(ExitAction::Cancel), ..s }),
            OverlayKeyCode::Enter => after_toggle(s),
            OverlayKeyCode::Up => after_move(s, -1),
            OverlayKeyCode::Down => after_move(s, 1),
            OverlayKeyCode::PageUp => after_scroll(s, -page_of(s)),
            OverlayKeyCode::PageDown => after_scroll(s, page_of(s)),
            OverlayKeyCode::Left => (collapse_changed(s, true, false), collapse_state_after(s, true, false)),
            OverlayKeyCode::Right => (collapse_changed(s, false, false), collapse_state_after(s, false, false)),
            OverlayKeyCode::Char(c) => if c == 'q' || c == 'x' {
                (true, OverlayState { is_done: true, exit_action: Some(ExitAction::Cancel), ..s })
            } else if c == 's' {
                (true, OverlayState { is_done: true, exit_action: Some(ExitAction::Save), ..s })
            } else if c == ' ' {
                after_toggle(s)
            } else if c == 'k' {
                after_move(s, -1)
            } else if c == 'j' {
                after_move(s, 1)
            } else if c == 'h' {
                (collapse_changed(s, true, false), collapse_state_after(s, true, false))
            } else if c == 'l' {
                (collapse_changed(s, false, false), collapse_state_after(s, false, false))
            } else if c == 'H' {
                (collapse_changed(s, true, true), collapse_state_after(s, true, true))
            } else if c == 'L' {
                (collapse_changed(s, false, true), collapse_state_after(s, false, true))
            } else {
                (false, s)
            },
            OverlayKeyCode::Other => (false, s),
        }
    }
}

/// Whether setting the collapse state changes anything.
pub open spec fn collapse_changed(s: OverlayState, collapse: bool, recursive: bool) -> bool {
    s.selected < s.visible_paths.len() && match node_at(s.root, s.visible_paths[s.selected as int]) {
        Some(n) => n.children.len() > 0 && collapse_result_changes(n, collapse, recursive).len() > 0,
        None => false,
    }
}

/// The overlay after setting the collapse state of the selected row's node.
pub open spec fn collapse_state_after(s: OverlayState, collapse: bool, recursive: bool) -> OverlayState {
    if s.selected < s.visible_paths.len() {
        let path = s.visible_paths[s.selected as int];
        match node_at(s.root, path) {
            Some(n) => if n.children.len() == 0 {
                s
            } else {
                let root = replace_at(s.root, path, collapse_result(n, collapse, recursive));
                let ch = collapse_result_changes(n, collapse, recursive);
                if ch.len() == 0 {
                    OverlayState { root, ..s }
                } else {
                    rebuilt(OverlayState { root, pending_collapsed: s.pending_collapsed + ch, detail_scroll: 0, ..s })
                }
            },
            None => s,
        }
    } else {
        s
    }
}

// ---------------------------------------------------------------------------
// What the panes show
// ---------------------------------------------------------------------------

/// `t` repeated `n` times.
pub open spec fn repeated(t: Seq<char>, n: nat) -> Seq<char>
    decreases n,
{
    if n == 0 {
        Seq::empty()
    } else {
        repeated(t, (n - 1) as nat) + t
    }
}

fn repeat_str(t: &str, n: usize) -> (r: String)
    ensures
        r@ == repeated(t@, n as nat),
{
    let mut r = String::new();
    let mut i: usize = 0;
    while i < n
        invariant
            0 <= i <= n,
            r@ == repeated(t@, i as nat),
        decreases n - i,
    {
        crate::text::append_str(&mut r, t);
        i += 1;
    }
    r
}

/// The fold mark of a row: none for a leaf, `>` when collapsed, `v` when open.
pub open spec fn fold_of(v: OverlayView) -> Seq<char> {
    if v.children.len() == 0 {
        "  "@
    } else if v.collapsed {
        "> "@
    } else {
        "v "@
    }
}

/// What comes before a row's title: two spaces per level below the top,
/// the fold mark, the checkbox and a space.
pub open spec fn row_prefix(depth: nat, v: OverlayView) -> Seq<char> {
    repeated("  "@, if depth >= 1 { (depth - 1) as nat } else { 0 }) + fold_of(v) + marker_of(selection_of(v)) + " "@
}

/// The lines that `textwrap::wrap` makes of `text` in `width` columns, with
/// `initial` before the first line and `subsequent` before the others.
pub uninterp spec fn wrapped_lines(text: Seq<char>, width: nat, initial: Seq<char>, subsequent: Seq<char>) -> Seq<Seq<char>>;

/// `textwrap::wrap(text, &Options::new(width).initial_indent(initial).subsequent_indent(subsequent))`,
/// each line as an owned string. Its result is named by `wrapped_lines`;
/// nothing more of it is stated.
#[verifier::external_body]
fn wrap_title(text: &str, width: usize, initial: &str, subsequent: &str) -> (r: Vec<String>)
    requires
        width >= 1,
    ensures
        views(r@) == wrapped_lines(text@, width as nat, initial@, subsequent@),
{
    let opts = textwrap::Options::new(width).initial_indent(initial).subsequent_indent(subsequent);
    textwrap::wrap(text, &opts).into_iter().map(|line| line.into_owned()).collect()
}

/// A line of the list pane.
#[derive(Debug)]
pub struct ListLine {
    pub text: String,
    pub highlighted: bool,
    pub dim: bool,
}

/// A line of the list pane as plain values.
pub struct ListLineView {
    pub text: Seq<char>,
    pub highlighted: bool,
    pub dim: bool,
}

impl View for ListLine {
    type V = ListLineView;

    open spec fn view(&self) -> ListLineView {
        ListLineView { text: self.text@, highlighted: self.highlighted, dim: self.dim }
    }
}

/// The views of list lines.
pub open spec fn list_line_views(v: Seq<ListLine>) -> Seq<ListLineView> {
    v.map_values(|l: ListLine| l@)
}

/// The text of a line of spans, the spans' texts one after the other.
pub open spec fn line_text(l: Seq<SpanView>) -> Seq<char>
    decreases l.len(),
{
    if l.len() == 0 {
        Seq::empty()
    } else {
        line_text(l.drop_last()) + l.last().text
    }
}

/// The lines that one detail line takes in `width` columns: its text
/// wrapped, or one empty line where wrapping gives none.
pub open spec fn wrapped_detail_line(l: Seq<SpanView>, width: nat) -> Seq<Seq<char>> {
    let w = wrapped_lines(line_text(l), width, Seq::empty(), Seq::empty());
    if w.len() == 0 {
        seq![Seq::empty()]
    } else {
        w
    }
}

/// The detail lines `ls` wrapped in `width` columns, in order.
pub open spec fn wrapped_detail(ls: Seq<Seq<SpanView>>, width: nat) -> Seq<Seq<char>>
    decreases ls.len(),
{
    if ls.len() == 0 {
        Seq::empty()
    } else {
        wrapped_detail(ls.drop_last(), width) + wrapped_detail_line(ls.last(), width)
    }
}

/// The detail lines wrapped in `width` columns: how many of them there are
/// is the height of the detail text that the pane scrolls through.
pub fn wrap_detail_lines(lines: &Vec<Vec<StyledSpan>>, width: usize) -> (r: Vec<String>)
    requires
        width >= 1,
    ensures
        views(r@) == wrapped_detail(line_views(lines@), width as nat),
{
    let ghost ls = line_views(lines@);
    let mut r: Vec<String> = Vec::new();
    let mut i: usize = 0;
    while i < lines.len()
        invariant
            0 <= i <= lines@.len(),
            ls == line_views(lines@),
            width >= 1,
            views(r@) == wrapped_detail(ls.take(i as int), width as nat),
        decreases lines@.len() - i,
    {
        let line = &lines[i];
        let ghost l = ls[i as int];
        assert(l == span_views(line@));
        let mut text = String::new();
        let mut j: usize = 0;
        while j < line.len()
            invariant
                0 <= j <= line@.len(),
                l == span_views(line@),
                text@ == line_text(l.take(j as int)),
            decreases line@.len() - j,
        {
            append_str(&mut text, line[j].text.as_str());
            proof {
                assert(l.take(j + 1).drop_last() =~= l.take(j as int));
            }
            j += 1;
        }
        assert(l.take(line@.len() as int) =~= l);
        let empty = "";
        proof {
            reveal_strlit("");
        }
        assert(empty@ =~= Seq::<char>::empty());
        let mut w = wrap_title(text.as_str(), width, empty, empty);
        let ghost before = views(r@);
        if w.len() == 0 {
            r.push(String::new());
            proof {
                assert(views(r@) =~= before + seq![Seq::<char>::empty()]);
            }
        } else {
            let ghost wv = views(w@);
            r.append(&mut w);
            proof {
                assert(views(r@) =~= before + wv);
            }
        }
        proof {
            assert(ls.take(i + 1).drop_last() =~= ls.take(i as int));
        }
        i += 1;
    }
    assert(ls.take(lines@.len() as int) =~= ls);
    r
}

/// The lines of row `idx` in `width` columns: its title wrapped after its
/// prefix (or the prefix alone), highlighted where it is the selected row.
pub open spec fn row_lines(s: OverlayState, idx: int, width: nat) -> Seq<ListLineView> {
    let path = s.visible_paths[idx];
    match node_at(s.root, path) {
        Some(v) => {
            let prefix = row_prefix(path.len(), v);
            let w = wrapped_lines(v.title, width, prefix, repeated(" "@, prefix.len()));
            let ls = if w.len() == 0 {
                seq![prefix]
            } else {
                w
            };
            ls.map_values(|l: Seq<char>| ListLineView { text: l, highlighted: idx == s.selected, dim: false })
        },
        None => Seq::empty(),
    }
}

/// The lines of the rows `from..to`.
pub open spec fn rows_between(s: OverlayState, from: int, to: int, width: nat) -> Seq<ListLineView>
    decreases to - from,
{
    if from >= to {
        Seq::empty()
    } else {
        row_lines(s, from, width) + rows_between(s, from + 1, to, width)
    }
}

/// The list pane of an area `width` by `height`: the rows from the list
/// scroll on, as many as fit, or a dim note where there are none.
pub open spec fn list_pane(s: OverlayState, width: u16, height: u16) -> Seq<ListLineView> {
    let to = if s.list_scroll + height <= s.visible_paths.len() {
        s.list_scroll + height
    } else {
        s.visible_paths.len() as int
    };
    let rows = rows_between(s, s.list_scroll as int, to, if width >= 1 { width as nat } else { 1 });
    if rows.len() == 0 {
        seq![ListLineView { text: "No nodes available"@, highlighted: false, dim: true }]
    } else {
        rows
    }
}

/// The detail pane of the selected row, or a dim note.
pub open spec fn detail_pane(s: OverlayState) -> Seq<Seq<SpanView>> {
    let none = seq![seq![SpanView { text: "No details available."@, style: TextStyle { dim: true, ..plain() } }]];
    if s.selected < s.visible_paths.len() {
        match node_at(s.root, s.visible_paths[s.selected as int]) {
            Some(v) => detail_lines_of(v),
            None => none,
        }
    } else {
        none
    }
}

proof fn lemma_rows_between_snoc(s: OverlayState, from: int, to: int, width: nat)
    requires
        from <= to,
    ensures
        rows_between(s, from, to + 1, width) == rows_between(s, from, to, width) + row_lines(s, to, width),
    decreases to - from,
{
    if from < to {
        lemma_rows_between_snoc(s, from + 1, to, width);
        assert(rows_between(s, from, to + 1, width) =~= row_lines(s, from, width) + rows_between(
            s,
            from + 1,
            to + 1,
            width,
        ));
    } else {
        assert(rows_between(s, to + 1, to + 1, width) =~= Seq::<ListLineView>::empty());
        assert(rows_between(s, from, to + 1, width) =~= row_lines(s, to, width));
    }
}

impl ContextOverlay {
    /// The lines of row `idx`.
    fn list_row(&self, idx: usize, width: usize) -> (lines: Vec<ListLine>)
        requires
            idx < self@.visible_paths.len(),
            width >= 1,
        ensures
            list_line_views(lines@) == row_lines(self@, idx as int, width as nat),
    {
        let path = &self.visible_paths[idx];
        let mut lines: Vec<ListLine> = Vec::new();
        match self.node(path) {
            Some(node) => {
                let depth = path.len();
                let indent = repeat_str("  ", if depth >= 1 {
                    depth - 1
                } else {
                    0
                });
                let marker = selection_marker(selection_state(node));
                let fold = if node.children.len() == 0 {
                    "  "
                } else if node.collapsed {
                    "> "
                } else {
                    "v "
                };
                let mut prefix = indent;
                crate::text::append_str(&mut prefix, fold);
                crate::text::append_str(&mut prefix, marker);
                crate::text::append_str(&mut prefix, " ");
                let prefix_len = crate::text::chars_of(prefix.as_str()).len();
                let subsequent = repeat_str(" ", prefix_len);
                let wrapped = wrap_title(node.title.as_str(), width, prefix.as_str(), subsequent.as_str());
                let highlighted = idx == self.selected;
                let ghost v = node@;
                let ghost p = prefix@;
                proof {
                    assert(p == row_prefix(path@.len(), v));
                }
                if wrapped.len() == 0 {
                    lines.push(ListLine { text: prefix, highlighted, dim: false });
                    proof {
                        assert(list_line_views(lines@) =~= seq![p].map_values(
                            |l: Seq<char>| ListLineView { text: l, highlighted: highlighted, dim: false },
                        ));
                    }
                } else {
                    let ghost wv = views(wrapped@);
                    let mut k: usize = 0;
                    while k < wrapped.len()
                        invariant
                            0 <= k <= wrapped@.len(),
                            wv == views(wrapped@),
                            list_line_views(lines@) == wv.take(k as int).map_values(
                                |l: Seq<char>| ListLineView { text: l, highlighted: highlighted, dim: false },
                            ),
                        decreases wrapped.len() - k,
                    {
                        let ghost before = list_line_views(lines@);
                        lines.push(ListLine { text: wrapped[k].clone(), highlighted, dim: false });
                        proof {
                            assert(list_line_views(lines@) =~= before.push(
                                ListLineView { text: wv[k as int], highlighted: highlighted, dim: false },
                            ));
                            assert(wv.take(k + 1).map_values(
                                |l: Seq<char>| ListLineView { text: l, highlighted: highlighted, dim: false },
                            ) =~= wv.take(k as int).map_values(
                                |l: Seq<char>| ListLineView { text: l, highlighted: highlighted, dim: false },
                            ).push(ListLineView { text: wv[k as int], highlighted: highlighted, dim: false }));
                        }
                        k += 1;
                    }
                    assert(wv.take(wrapped@.len() as int) =~= wv);
                }
            },
            None => {
                assert(list_line_views(lines@) =~= Seq::<ListLineView>::empty());
            },
        }
        lines
    }

    /// The list pane of an area `width` by `height` (nothing where the area
    /// is empty); first scrolls the list so that the selected row shows.
    pub fn list_lines(&mut self, width: u16, height: u16) -> (lines: Vec<ListLine>)
        ensures
            width == 0 || height == 0 ==> lines@.len() == 0 && final(self)@ == old(self)@,
            width > 0 && height > 0 ==> ({
                let s = OverlayState {
                    list_scroll: scrolled_to_selection(old(self)@, height as nat),
                    ..old(self)@
                };
                &&& final(self)@ == s
                &&& list_line_views(lines@) == list_pane(s, width, height)
            }),
    {
        let mut lines: Vec<ListLine> = Vec::new();
        if width == 0 || height == 0 {
            return lines;
        }
        self.ensure_selection_visible(height as usize);
        let len = self.visible_paths.len();
        let start = self.list_scroll;
        let end = if start <= len && len - start >= height as usize {
            start + height as usize
        } else {
            len
        };
        let w = width as usize;
        let ghost s = self@;
        let mut idx = start;
        proof {
            assert(list_line_views(lines@) =~= rows_between(s, start as int, start as int, w as nat));
        }
        while idx < end
            invariant
                start <= idx,
                idx <= end || end < start,
                end <= len,
                len == self@.visible_paths.len(),
                s == self@,
                w >= 1,
                idx <= end ==> list_line_views(lines@) == rows_between(s, start as int, idx as int, w as nat),
                end < start ==> lines@.len() == 0,
            decreases end - idx,
        {
            let ghost before = list_line_views(lines@);
            let mut row = self.list_row(idx, w);
            let ghost rv = list_line_views(row@);
            lines.append(&mut row);
            proof {
                assert(list_line_views(lines@) =~= before + rv);
                lemma_rows_between_snoc(s, start as int, idx as int, w as nat);
            }
            idx += 1;
        }
        proof {
            if end < start {
                assert(rows_between(s, start as int, end as int, w as nat) =~= Seq::<ListLineView>::empty());
                assert(list_line_views(lines@) =~= Seq::<ListLineView>::empty());
            }
        }
        if lines.len() == 0 {
            lines.push(ListLine { text: copy_str("No nodes available"), highlighted: false, dim: true });
            assert(list_line_views(lines@) =~= seq![ListLineView { text: "No nodes available"@, highlighted: false, dim: true }]);
        }
        lines
    }

    /// The detail pane of the selected row.
    pub fn detail_lines(&self) -> (lines: Vec<Vec<StyledSpan>>)
        ensures
            line_views(lines@) == detail_pane(self@),
    {
        if self.selected < self.visible_paths.len() {
            match self.node(&self.visible_paths[self.selected]) {
                Some(node) => {
                    return detail_lines_for_node(node);
                },
                None => {},
            }
        }
        let mut line: Vec<StyledSpan> = Vec::new();
        line.push(span(copy_str("No details available."), false, true));
        let ghost l = span_views(line@);
        assert(l =~= seq![SpanView { text: "No details available."@, style: TextStyle { dim: true, ..plain() } }]);
        let mut lines: Vec<Vec<StyledSpan>> = Vec::new();
        lines.push(line);
        assert(line_views(lines@) =~= seq![l]);
        lines
    }

    /// Records the size of the detail pane and the height of its wrapped
    /// text, and keeps the detail scroll within the text; returns the scroll
    /// to draw with. An empty pane records nothing to scroll.
    pub fn record_detail_layout(&mut self, width: u16, height: u16, total_height: usize) -> (scroll: u16)
        ensures
            width == 0 || height == 0 ==> scroll == 0 && final(self)@ == (OverlayState {
                last_detail_area_height: 0,
                last_detail_total_height: 0,
                ..old(self)@
            }),
            width > 0 && height > 0 ==> ({
                let max_scroll = if total_height > height {
                    total_height - height
                } else {
                    0
                };
                let d = if max_scroll == 0 {
                    0
                } else if old(self)@.detail_scroll <= max_scroll {
                    old(self)@.detail_scroll as int
                } else {
                    max_scroll
                };
                &&& final(self)@ == (OverlayState {
                    last_detail_total_height: total_height,
                    last_detail_area_height: height,
                    detail_scroll: d as usize,
                    ..old(self)@
                })
                &&& scroll == (d as usize) as u16
            }),
    {
        if width == 0 || height == 0 {
            self.last_detail_area_height = 0;
            self.last_detail_total_height = 0;
            return 0;
        }
        self.last_detail_total_height = total_height;
        self.last_detail_area_height = height;
        let max_scroll = if total_height > height as usize {
            total_height - height as usize
        } else {
            0
        };
        if max_scroll == 0 {
            self.detail_scroll = 0;
        } else if self.detail_scroll > max_scroll {
            self.detail_scroll = max_scroll;
        }
        self.detail_scroll as u16
    }
}

/// When the overlay closes: the toggles to send where it was saved and some
/// were made; none otherwise. Either way the overlay forgets them.
pub fn handle_close(ctx: &mut ContextOverlay) -> (r: Option<PromptContextActions>)
    ensures
        final(ctx)@ == (OverlayState {
            pending_selected: Seq::empty(),
            pending_collapsed: Seq::empty(),
            ..old(ctx)@
        }),
        match r {
            Some(a) => old(ctx)@.exit_action == Some(ExitAction::Save) && (old(ctx)@.pending_selected.len() > 0
                || old(ctx)@.pending_collapsed.len() > 0) && views(a.toggle_selected@)
                == old(ctx)@.pending_selected && views(a.toggle_collapsed@) == old(ctx)@.pending_collapsed,
            None => !(old(ctx)@.exit_action == Some(ExitAction::Save) && (old(ctx)@.pending_selected.len() > 0
                || old(ctx)@.pending_collapsed.len() > 0)),
        },
{
    match ctx.exit_action() {
        ExitAction::Save => {
            let updates = ctx.take_selection_updates();
            if !updates.is_empty() {
                Some(updates)
            } else {
                None
            }
        },
        ExitAction::Cancel => {
            let _ = ctx.take_selection_updates();
            None
        },
    }
}

// ---------------------------------------------------------------------------
// Key hints
// ---------------------------------------------------------------------------

/// The keys of a hint, shown one after the other with `/` between them.
pub open spec fn hint_keys(keys: Seq<Seq<char>>) -> Seq<Seq<char>>
    decreases keys.len(),
{
    if keys.len() <= 1 {
        keys
    } else {
        hint_keys(keys.drop_last()) + seq!["/"@, keys.last()]
    }
}

/// The pieces of the hint for `keys` doing `desc`: nothing where there are
/// no keys; else two spaces, the keys with `/` between them, and a space
/// before the description.
pub open spec fn hint_segment(keys: Seq<Seq<char>>, desc: Seq<char>) -> Seq<Seq<char>> {
    if keys.len() == 0 {
        Seq::empty()
    } else {
        seq!["  "@] + hint_keys(keys) + seq![" "@ + desc]
    }
}

/// The pieces of the hint for the keys (as they are shown) doing `desc`.
pub fn render_hint_segment(keys: &Vec<String>, desc: &str) -> (spans: Vec<String>)
    ensures
        views(spans@) == hint_segment(views(keys@), desc@),
{
    let mut spans: Vec<String> = Vec::new();
    if keys.len() == 0 {
        proof {
            assert(views(spans@) =~= Seq::<Seq<char>>::empty());
        }
        return spans;
    }
    spans.push(copy_str("  "));
    let ghost ks = views(keys@);
    let mut i: usize = 0;
    while i < keys.len()
        invariant
            0 <= i <= keys@.len(),
            keys@.len() > 0,
            ks == views(keys@),
            views(spans@) == seq!["  "@] + hint_keys(ks.take(i as int)),
        decreases keys.len() - i,
    {
        let ghost before = views(spans@);
        proof {
            reveal_strlit("/");
            assert(ks.take(i + 1).drop_last() =~= ks.take(i as int));
            assert(ks.take(i + 1).last() == ks[i as int]);
        }
        if i > 0 {
            let slash = copy_str("/");
            spans.push(slash);
            proof {
                assert(views(spans@) =~= before.push("/"@));
            }
        }
        let ghost mid = views(spans@);
        let key = copy_str(keys[i].as_str());
        assert(key@ == ks[i as int]);
        spans.push(key);
        proof {
            assert(views(spans@) =~= mid.push(ks[i as int]));
            if i == 0 {
                assert(ks.take(1) =~= seq![ks[0]]);
                assert(hint_keys(ks.take(1)) == ks.take(1));
                assert(hint_keys(ks.take(0)) =~= Seq::<Seq<char>>::empty());
                assert(views(spans@) =~= seq!["  "@] + hint_keys(ks.take(i + 1)));
            } else {
                assert(hint_keys(ks.take(i + 1)) == hint_keys(ks.take(i as int)) + seq!["/"@, ks[i as int]]);
                assert(views(spans@) =~= seq!["  "@] + hint_keys(ks.take(i + 1)));
            }
        }
        i += 1;
    }
    let mut tail = copy_str(" ");
    append_str(&mut tail, desc);
    spans.push(tail);
    proof {
        assert(ks.take(keys@.len() as int) =~= ks);
        assert(views(spans@) =~= hint_segment(ks, desc@));
    }
    spans
}

// ---------------------------------------------------------------------------
// Laws of the overlay
// ---------------------------------------------------------------------------

/// Counting states that are all `st`.
proof fn lemma_count_state_all(s: Seq<SelectionState>, st: SelectionState, other: SelectionState)
    requires
        forall|i: int| 0 <= i < s.len() ==> #[trigger] s[i] == st,
        other != st,
    ensures
        count_state(s, st) == s.len(),
        count_state(s, other) == 0,
    decreases s.len(),
{
    if s.len() > 0 {
        assert forall|i: int| 0 <= i < s.len() - 1 implies #[trigger] s.drop_last()[i] == st by {
            assert(s.drop_last()[i] == s[i]);
        }
        lemma_count_state_all(s.drop_last(), st, other);
        assert(s.last() == s[s.len() - 1]);
    }
}

/// How many times `x` occurs in `s`.
pub open spec fn occurrences(s: Seq<Seq<char>>, x: Seq<char>) -> nat
    decreases s.len(),
{
    if s.len() == 0 {
        0
    } else {
        occurrences(s.drop_last(), x) + if s.last() == x {
            1nat
        } else {
            0nat
        }
    }
}

/// How many nodes of the subtree of `v` have the id `x` and a selection
/// other than `sel`.
pub open spec fn differing_nodes(v: OverlayView, sel: bool, x: Seq<char>) -> nat
    decreases v,
{
    (if v.id == x && v.selected != sel {
        1nat
    } else {
        0nat
    }) + differing_in(v.children, sel, x)
}

/// `differing_nodes` summed over `cs`.
pub open spec fn differing_in(cs: Seq<OverlayView>, sel: bool, x: Seq<char>) -> nat
    decreases cs,
{
    if cs.len() == 0 {
        0
    } else {
        differing_in(cs.drop_last(), sel, x) + differing_nodes(cs.last(), sel, x)
    }
}

/// Whether `v` and every node under it have `selected == sel`.
pub open spec fn all_marked(v: OverlayView, sel: bool) -> bool
    decreases v,
{
    v.selected == sel && forall|i: int| 0 <= i < v.children.len() ==> all_marked(#[trigger] v.children[i], sel)
}

proof fn lemma_occurrences_concat(a: Seq<Seq<char>>, b: Seq<Seq<char>>, x: Seq<char>)
    ensures
        occurrences(a + b, x) == occurrences(a, x) + occurrences(b, x),
    decreases b.len(),
{
    if b.len() > 0 {
        lemma_occurrences_concat(a, b.drop_last(), x);
        assert((a + b).drop_last() =~= a + b.drop_last());
    }
}

proof fn lemma_changes_in_children(cs: Seq<OverlayView>, sel: bool, x: Seq<char>)
    ensures
        occurrences(concat_all(selection_changes_per_child(cs, sel)), x) == differing_in(cs, sel, x),
    decreases cs,
{
    if cs.len() > 0 {
        lemma_changes_in_children(cs.drop_last(), sel, x);
        lemma_changes_count(cs.last(), sel, x);
        lemma_concat_all_push(selection_changes_per_child(cs.drop_last(), sel), selection_changes(cs.last(), sel));
        lemma_occurrences_concat(
            concat_all(selection_changes_per_child(cs.drop_last(), sel)),
            selection_changes(cs.last(), sel),
            x,
        );
    }
}

/// The ids that selecting (or unselecting) a subtree reports are exactly
/// those of its nodes whose selection was other than the new one: each id
/// occurs as many times as there are such nodes with that id, so a node
/// already in the new state is never reported.
pub proof fn lemma_changes_count(v: OverlayView, sel: bool, x: Seq<char>)
    ensures
        occurrences(selection_changes(v, sel), x) == differing_nodes(v, sel, x),
    decreases v,
{
    let own: Seq<Seq<char>> = if v.selected != sel {
        seq![v.id]
    } else {
        Seq::empty()
    };
    lemma_changes_in_children(v.children, sel, x);
    lemma_occurrences_concat(own, concat_all(selection_changes_per_child(v.children, sel)), x);
    assert(occurrences(Seq::<Seq<char>>::empty(), x) == 0);
    if v.selected != sel {
        assert(own.drop_last() =~= Seq::<Seq<char>>::empty());
    }
}

/// Selecting (or unselecting) a subtree leaves every node of it in the new
/// state.
pub proof fn lemma_all_selected_marks_all(v: OverlayView, sel: bool)
    ensures
        all_marked(all_selected(v, sel), sel),
    decreases v,
{
    let a = all_selected(v, sel);
    assert forall|i: int| 0 <= i < a.children.len() implies all_marked(#[trigger] a.children[i], sel) by {
        lemma_all_selected_marks_all(v.children[i], sel);
    }
}

/// Whether some leaf (a node without children) of the subtree of `v` has
/// `selected == b`.
pub open spec fn has_leaf_selected(v: OverlayView, b: bool) -> bool
    decreases v,
{
    if v.children.len() == 0 {
        v.selected == b
    } else {
        exists|i: int| 0 <= i < v.children.len() && has_leaf_selected(#[trigger] v.children[i], b)
    }
}

proof fn lemma_count_state_split(s: Seq<SelectionState>)
    ensures
        count_state(s, SelectionState::Selected) + count_state(s, SelectionState::Unselected) + count_state(
            s,
            SelectionState::Partial,
        ) + count_state(s, SelectionState::Empty) == s.len(),
    decreases s.len(),
{
    if s.len() > 0 {
        lemma_count_state_split(s.drop_last());
    }
}

proof fn lemma_count_state_positive(s: Seq<SelectionState>, st: SelectionState)
    ensures
        count_state(s, st) > 0 <==> exists|i: int| 0 <= i < s.len() && s[i] == st,
    decreases s.len(),
{
    if s.len() > 0 {
        lemma_count_state_positive(s.drop_last(), st);
        if exists|i: int| 0 <= i < s.len() && s[i] == st {
            let i = choose|i: int| 0 <= i < s.len() && s[i] == st;
            if i < s.len() - 1 {
                assert(s.drop_last()[i] == st);
            }
        }
        if exists|i: int| 0 <= i < s.len() - 1 && s.drop_last()[i] == st {
            let i = choose|i: int| 0 <= i < s.len() - 1 && s.drop_last()[i] == st;
            assert(s[i] == st);
        }
    }
}

/// The mark of a row follows the leaves under it: checked where every leaf
/// of its subtree is selected, unchecked where none is, and partial where
/// some are and some are not, however deep they lie. Every subtree has a
/// leaf, so no row is empty.
pub proof fn lemma_selection_follows_leaves(v: OverlayView)
    ensures
        has_leaf_selected(v, true) || has_leaf_selected(v, false),
        selection_of(v) == (if !has_leaf_selected(v, false) {
            SelectionState::Selected
        } else if !has_leaf_selected(v, true) {
            SelectionState::Unselected
        } else {
            SelectionState::Partial
        }),
    decreases v,
{
    if v.children.len() > 0 {
        let cs = v.children;
        assert forall|i: int| 0 <= i < cs.len() implies (has_leaf_selected(#[trigger] cs[i], true)
            || has_leaf_selected(cs[i], false)) && selection_of(cs[i]) == (if !has_leaf_selected(cs[i], false) {
            SelectionState::Selected
        } else if !has_leaf_selected(cs[i], true) {
            SelectionState::Unselected
        } else {
            SelectionState::Partial
        }) by {
            lemma_selection_follows_leaves(cs[i]);
        }
        let st = states_of(cs);
        lemma_states_of(cs);
        lemma_count_state_split(st);
        lemma_count_state_positive(st, SelectionState::Selected);
        lemma_count_state_positive(st, SelectionState::Unselected);
        lemma_count_state_positive(st, SelectionState::Partial);
        lemma_count_state_positive(st, SelectionState::Empty);
        assert(has_leaf_selected(cs[0], true) || has_leaf_selected(cs[0], false));
        assert(count_state(st, SelectionState::Empty) == 0) by {
            if count_state(st, SelectionState::Empty) > 0 {
                let i = choose|i: int| 0 <= i < st.len() && st[i] == SelectionState::Empty;
                assert(st[i] == selection_of(cs[i]));
            }
        }
        if has_leaf_selected(v, true) {
            let i = choose|i: int| 0 <= i < cs.len() && has_leaf_selected(#[trigger] cs[i], true);
            assert(st[i] == selection_of(cs[i]));
        }
        if has_leaf_selected(v, false) {
            let i = choose|i: int| 0 <= i < cs.len() && has_leaf_selected(#[trigger] cs[i], false);
            assert(st[i] == selection_of(cs[i]));
        }
        if count_state(st, SelectionState::Partial) > 0 {
            let i = choose|i: int| 0 <= i < st.len() && st[i] == SelectionState::Partial;
            assert(st[i] == selection_of(cs[i]));
            assert(has_leaf_selected(v, true));
            assert(has_leaf_selected(v, false));
        } else if count_state(st, SelectionState::Unselected) > 0 {
            let i = choose|i: int| 0 <= i < st.len() && st[i] == SelectionState::Unselected;
            assert(st[i] == selection_of(cs[i]));
            assert(has_leaf_selected(v, false));
            if count_state(st, SelectionState::Selected) > 0 {
                let j = choose|j: int| 0 <= j < st.len() && st[j] == SelectionState::Selected;
                assert(st[j] == selection_of(cs[j]));
                assert(has_leaf_selected(v, true));
            } else {
                assert forall|j: int| 0 <= j < cs.len() implies !has_leaf_selected(#[trigger] cs[j], true) by {
                    assert(st[j] == selection_of(cs[j]));
                }
            }
        } else {
            assert forall|j: int| 0 <= j < cs.len() implies !has_leaf_selected(#[trigger] cs[j], false) by {
                assert(st[j] == selection_of(cs[j]));
            }
            assert(st[0] == selection_of(cs[0]));
        }
    }
}

/// Toggling a row selects (or unselects) the whole subtree under it, so its
/// mark, and the mark of every row under it, is never partial: all checked
/// or all unchecked.
pub proof fn lemma_toggled_subtree_is_uniform(v: OverlayView, sel: bool)
    ensures
        selection_of(all_selected(v, sel)) == (if sel {
            SelectionState::Selected
        } else {
            SelectionState::Unselected
        }),
    decreases v,
{
    let a = all_selected(v, sel);
    if a.children.len() > 0 {
        let want = if sel {
            SelectionState::Selected
        } else {
            SelectionState::Unselected
        };
        let other = if sel {
            SelectionState::Unselected
        } else {
            SelectionState::Selected
        };
        let st = states_of(a.children);
        lemma_states_of(a.children);
        assert forall|i: int| 0 <= i < st.len() implies #[trigger] st[i] == want by {
            lemma_toggled_subtree_is_uniform(v.children[i], sel);
        }
        lemma_count_state_all(st, want, other);
        lemma_count_state_all(st, want, SelectionState::Partial);
    }
}

/// After `ensure_selection_visible`, the selected row is among the
/// `visible` rows shown from the list scroll on, wherever there are rows to
/// show.
pub proof fn lemma_selection_is_visible(s: OverlayState, visible: nat)
    requires
        visible > 0,
        s.visible_paths.len() > 0,
        s.selected <= usize::MAX,
    ensures
        scrolled_to_selection(s, visible) <= s.selected < scrolled_to_selection(s, visible) + visible,
{
}

/// Whether the selected row is one of the rows (the first, where there are none).
pub open spec fn selection_on_a_row(s: OverlayState) -> bool {
    if s.visible_paths.len() == 0 {
        s.selected == 0
    } else {
        s.selected < s.visible_paths.len()
    }
}

/// Rebuilding the rows puts the selection on one of them.
pub proof fn lemma_rebuilt_selection_on_a_row(s: OverlayState)
    ensures
        selection_on_a_row(rebuilt(s)),
{
}

/// Whatever key is pressed, the selection stays on one of the rows.
pub proof fn lemma_key_keeps_selection_on_a_row(s: OverlayState, key: OverlayKey)
    requires
        selection_on_a_row(s),
    ensures
        selection_on_a_row(key_outcome(s, key).1),
{
    if key.kind is Press || key.kind is Repeat {
        assert forall|collapse: bool, recursive: bool| #[trigger] selection_on_a_row(collapse_state_after(s, collapse, recursive)) by {
            if s.selected < s.visible_paths.len() {
                let path = s.visible_paths[s.selected as int];
                if let Some(n) = node_at(s.root, path) {
                    if n.children.len() > 0 {
                        let root = replace_at(s.root, path, collapse_result(n, collapse, recursive));
                        let ch = collapse_result_changes(n, collapse, recursive);
                        lemma_rebuilt_selection_on_a_row(
                            OverlayState { root, pending_collapsed: s.pending_collapsed + ch, detail_scroll: 0, ..s },
                        );
                    }
                }
            }
        }
    }
}

} // verus!
