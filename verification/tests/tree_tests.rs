use std::collections::HashMap;

use codex_context_tree::cache::CachedEntry;
use codex_context_tree::tree::into_node_id;
use codex_context_tree::ContextTree;
use codex_context_tree::ContextTreeNode;
use codex_context_tree::EntryPayload;
use codex_context_tree::EntryRole;

fn labels(ls: &[&str]) -> Vec<String> {
    ls.iter().map(|s| s.to_string()).collect()
}

fn entry(id: i64, ls: &[&str]) -> CachedEntry {
    CachedEntry {
        id,
        labels: labels(ls),
        payload: EntryPayload::new(EntryRole::User, format!("t{id}"), format!("b{id}")),
    }
}

fn empty_tree() -> ContextTree {
    ContextTree { root: ContextTreeNode::new("root", vec![]) }
}

#[test]
fn node_ids_name_indices() {
    assert_eq!(into_node_id(5), "entry-5");
    assert_eq!(into_node_id(-3), "entry--3");
    let leaf = ContextTreeNode::new("entry-7", vec![]);
    assert!(leaf.is_entry());
    assert_eq!(leaf.entry_id(), 7);
    assert_eq!(leaf.min_entry_id, 7);
    assert!(leaf.selected);
    assert!(!leaf.collapsed);
    assert!(leaf.updated);
    let group = ContextTreeNode::new("/a", labels(&["a"]));
    assert!(!group.is_entry());
    assert_eq!(group.entry_id(), 0);
    assert_eq!(group.min_entry_id, i64::MAX);
    let odd = ContextTreeNode::new("entry-x", vec![]);
    assert!(odd.is_entry());
    assert_eq!(odd.min_entry_id, i64::MAX);
}

#[test]
fn insert_builds_groups_along_labels() {
    let mut t = empty_tree();
    t.insert_entry_node(&entry(2, &["task:1", "role:user"]));
    t.insert_entry_node(&entry(0, &["task:1", "assistant"]));
    let root = &t.root;
    assert_eq!(root.children.len(), 1);
    let task = &root.children[0];
    assert_eq!(task.id, "/task:1");
    assert_eq!(task.min_entry_id, 0);
    let names: Vec<&str> = task.children.iter().map(|c| c.id.as_str()).collect();
    assert_eq!(names, vec!["/task:1/assistant", "/task:1/role:user"]);
    assert_eq!(task.children[1].entry_nodes[0].id, "entry-2");
    assert_eq!(root.min_entry_id, 0);
}

#[test]
fn new_entries_are_selected() {
    let mut t = empty_tree();
    t.insert_entry_node(&entry(1, &["a"]));
    t.insert_entry_node(&entry(0, &[]));
    assert_eq!(t.get_selected_entry_ids(), vec![0, 1]);
}

#[test]
fn toggling_twice_restores_selection() {
    let mut t = empty_tree();
    t.insert_entry_node(&entry(1, &["a"]));
    t.insert_entry_node(&entry(2, &["a"]));
    let ids = vec!["entry-1".to_string(), "/a".to_string()];
    t.toggle_selected(&ids);
    assert_eq!(t.get_selected_entry_ids(), vec![2]);
    assert!(!t.root.children[0].selected);
    t.toggle_selected(&ids);
    assert_eq!(t.get_selected_entry_ids(), vec![1, 2]);
    assert!(t.root.children[0].selected);
}

#[test]
fn toggling_collapse_twice_restores() {
    let mut t = empty_tree();
    t.insert_entry_node(&entry(1, &["a"]));
    let ids = vec!["/a".to_string()];
    t.toggle_collapsed(&ids);
    assert!(t.root.children[0].collapsed);
    t.toggle_collapsed(&ids);
    assert!(!t.root.children[0].collapsed);
}

#[test]
fn removing_the_last_leaf_drops_its_groups() {
    let mut t = empty_tree();
    t.insert_entry_node(&entry(1, &["a", "b"]));
    t.insert_entry_node(&entry(2, &["c"]));
    t.remove_entry_node(1);
    assert_eq!(t.root.children.len(), 1);
    assert_eq!(t.root.children[0].id, "/c");
    assert_eq!(t.root.min_entry_id, 2);
    t.remove_entry_node(2);
    assert!(t.root.children.is_empty());
    assert_eq!(t.root.min_entry_id, i64::MAX);
}

#[test]
fn removing_a_missing_leaf_changes_no_entry() {
    let mut t = empty_tree();
    t.insert_entry_node(&entry(1, &["a"]));
    t.remove_entry_node(9);
    assert_eq!(t.get_selected_entry_ids(), vec![1]);
}

#[test]
fn renaming_moves_leaves_to_new_indices() {
    let mut t = empty_tree();
    t.insert_entry_node(&entry(1, &["a"]));
    t.insert_entry_node(&entry(2, &["a"]));
    let mut renames = HashMap::new();
    renames.insert(1, 0);
    renames.insert(2, 1);
    t.rename_entry_nodes(&renames);
    let ids: Vec<&str> = t.root.children[0].entry_nodes.iter().map(|e| e.id.as_str()).collect();
    assert_eq!(ids, vec!["entry-0", "entry-1"]);
    assert_eq!(t.get_selected_entry_ids(), vec![0, 1]);
    assert_eq!(t.root.children[0].min_entry_id, 0);
}

#[test]
fn recompute_min_entry_id_of_a_group() {
    let mut t = empty_tree();
    t.insert_entry_node(&entry(4, &["a"]));
    t.insert_entry_node(&entry(3, &["a", "b"]));
    let mut group = codex_context_tree::tree::copy_node(&t.root.children[0]);
    group.min_entry_id = 100;
    group.recompute_min_entry_id();
    assert_eq!(group.min_entry_id, 3);
}
