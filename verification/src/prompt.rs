//! The context tree as it is handed to a user interface, and the selection
//! and collapse toggles that come back from it.
use vstd::prelude::*;

use crate::recorder::copy_labels;
use crate::text::views;
use crate::tree::{ContextTree, ContextTreeNode, NodeModel};

verus! {

/// A node of the tree as shown to a user: group children first, then entry
/// leaves, each in tree order.
#[derive(Debug)]
pub struct PromptContextNode {
    pub id: String,
    pub labels: Vec<String>,
    pub title: String,
    pub summary: String,
    pub selected: bool,
    pub collapsed: bool,
    pub children: Vec<PromptContextNode>,
}

/// The tree as shown to a user.
#[derive(Debug)]
pub struct PromptContextTree {
    pub root: PromptContextNode,
}

/// A shown node as plain values.
#[verifier::ext_equal]
pub struct PromptNodeView {
    pub id: Seq<char>,
    pub labels: Seq<Seq<char>>,
    pub title: Seq<char>,
    pub summary: Seq<char>,
    pub selected: bool,
    pub collapsed: bool,
    pub children: Seq<PromptNodeView>,
}

impl PromptContextNode {
    /// The node as plain values.
    pub open spec fn model(&self) -> PromptNodeView
        decreases self,
    {
        PromptNodeView {
            id: self.id@,
            labels: views(self.labels@),
            title: self.title@,
            summary: self.summary@,
            selected: self.selected,
            collapsed: self.collapsed,
            children: Seq::new(
                self.children@.len(),
                |i: int|
                    if 0 <= i < self.children@.len() {
                        self.children@[i].model()
                    } else {
                        arbitrary()
                    },
            ),
        }
    }
}

impl View for PromptContextNode {
    type V = PromptNodeView;

    open spec fn view(&self) -> PromptNodeView {
        self.model()
    }
}

impl View for PromptContextTree {
    type V = PromptNodeView;

    open spec fn view(&self) -> PromptNodeView {
        self.root.model()
    }
}

/// The shown form of a tree node: the same fields, with the group children
/// and then the entry leaves as its children.
pub open spec fn shown(m: NodeModel) -> PromptNodeView
    decreases m,
{
    PromptNodeView {
        id: m.id,
        labels: m.labels,
        title: m.title,
        summary: m.summary,
        selected: m.selected,
        collapsed: m.collapsed,
        children: Seq::new(
            m.children.len() + m.entry_nodes.len(),
            |i: int|
                if 0 <= i < m.children.len() {
                    shown(m.children[i])
                } else if m.children.len() <= i < m.children.len() + m.entry_nodes.len() {
                    shown(m.entry_nodes[i - m.children.len()])
                } else {
                    arbitrary()
                },
        ),
    }
}

/// The shown form of a node of the tree.
pub fn build_prompt_context_node(node: &ContextTreeNode) -> (r: PromptContextNode)
    ensures
        r@ == shown(node@),
    decreases node,
{
    let ghost m = node@;
    let mut children: Vec<PromptContextNode> = Vec::new();
    let mut i: usize = 0;
    while i < node.children.len()
        invariant
            0 <= i <= node.children@.len(),
            m == node@,
            children@.len() == i,
            forall|k: int| 0 <= k < i ==> (#[trigger] children@[k])@ == shown(m.children[k]),
        decreases node.children.len() - i,
    {
        assert(decreases_to!(node => node.children));
        assert(decreases_to!(node.children => node.children@[i as int]));
        let c = build_prompt_context_node(&node.children[i]);
        proof {
            assert(m.children[i as int] == node.children@[i as int]@);
        }
        children.push(c);
        i += 1;
    }
    let mut j: usize = 0;
    while j < node.entry_nodes.len()
        invariant
            0 <= j <= node.entry_nodes@.len(),
            m == node@,
            children@.len() == m.children.len() + j,
            forall|k: int| 0 <= k < m.children.len() ==> (#[trigger] children@[k])@ == shown(m.children[k]),
            forall|k: int|
                m.children.len() <= k < m.children.len() + j ==> (#[trigger] children@[k])@ == shown(
                    m.entry_nodes[k - m.children.len()],
                ),
        decreases node.entry_nodes.len() - j,
    {
        assert(decreases_to!(node => node.entry_nodes));
        assert(decreases_to!(node.entry_nodes => node.entry_nodes@[j as int]));
        let c = build_prompt_context_node(&node.entry_nodes[j]);
        proof {
            assert(m.entry_nodes[j as int] == node.entry_nodes@[j as int]@);
        }
        children.push(c);
        j += 1;
    }
    let r = PromptContextNode {
        id: node.id.clone(),
        labels: copy_labels(&node.labels),
        title: node.title.clone(),
        summary: node.summary.clone(),
        selected: node.selected,
        collapsed: node.collapsed,
        children,
    };
    proof {
        assert(r@.children =~= shown(m).children);
        assert(r@ =~= shown(m));
    }
    r
}

/// The shown form of the tree.
pub fn build_prompt_context_tree(tree: &ContextTree) -> (r: PromptContextTree)
    ensures
        r@ == shown(tree@),
{
    PromptContextTree { root: build_prompt_context_node(&tree.root) }
}

/// What a user asked for: the ids whose selection, and the ids whose
/// collapse state, are to be flipped.
#[derive(Clone, Debug)]
pub struct PromptContextActions {
    pub toggle_selected: Vec<String>,
    pub toggle_collapsed: Vec<String>,
}

impl PromptContextActions {
    /// Whether nothing is asked for.
    pub fn is_empty(&self) -> (r: bool)
        ensures
            r == (self.toggle_selected@.len() == 0 && self.toggle_collapsed@.len() == 0),
    {
        self.toggle_selected.len() == 0 && self.toggle_collapsed.len() == 0
    }
}

} // verus!
