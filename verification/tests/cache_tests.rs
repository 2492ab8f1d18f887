use codex_context_tree::cache::ContextTreeCache;
use codex_context_tree::recorder::HistoryMutation;
use codex_context_tree::summarizer::resolve_model_reply;
use codex_context_tree::summarizer::ContextTreeSummarizer;
use codex_context_tree::ContextTreeClient;
use codex_context_tree::EntryPayload;
use codex_context_tree::EntryRole;

fn payload(title: &str, body: &str) -> EntryPayload {
    EntryPayload::new(EntryRole::Assistant, title.to_string(), body.to_string())
}

fn labels(ls: &[&str]) -> Vec<String> {
    ls.iter().map(|s| s.to_string()).collect()
}

#[test]
fn new_cache_is_empty() {
    let c = ContextTreeCache::new();
    assert!(c.selected().is_empty());
    assert!(c.entry_ids().is_empty());
    assert_eq!(c.tree().root.id, "root");
}

#[test]
fn applying_inserts_adds_entries_and_leaves() {
    let mut c = ContextTreeCache::new();
    let s: ContextTreeSummarizer<()> = ContextTreeSummarizer::new(None);
    let pending = c.apply_mutations(
        &s,
        vec![
            HistoryMutation::Insert { index: 1, labels: labels(&["a"]), payload: payload("one", "first") },
            HistoryMutation::Insert { index: 0, labels: labels(&["a"]), payload: payload("zero", "second") },
        ],
    );
    assert!(pending.is_none());
    assert_eq!(c.entry_ids(), vec![0, 1]);
    assert_eq!(c.selected(), vec![0, 1]);
    let group = &c.tree().root.children[0];
    assert_eq!(group.entry_nodes[0].title, "zero");
    assert_eq!(group.entry_nodes[0].summary, "second");
    assert_eq!(group.summary, "zero:\n\nsecond\n\n===\n\none:\n\nfirst");
    assert_eq!(group.title, "/a");
    assert!(!group.updated);
}

#[test]
fn empty_batch_changes_nothing() {
    let mut c = ContextTreeCache::new();
    let s: ContextTreeSummarizer<()> = ContextTreeSummarizer::new(None);
    assert!(c.apply_mutations(&s, vec![]).is_none());
    assert!(c.entry_ids().is_empty());
}

#[test]
fn commit_keeps_cache_keyed_by_history_index() {
    let mut client: ContextTreeClient<()> = ContextTreeClient::new(None);
    client.recorder().insert(0, labels(&["a"]), payload("A", "a"));
    client.recorder().insert(1, labels(&["a"]), payload("B", "b"));
    client.recorder().insert(2, labels(&["b"]), payload("C", "c"));
    assert!(client.commit_history_mutation().is_none());
    assert_eq!(client.cache().entry_ids(), vec![0, 1, 2]);
    client.recorder().remove(0);
    client.recorder().insert(2, labels(&["b"]), payload("D", "d"));
    assert!(client.commit_history_mutation().is_none());
    assert_eq!(client.cache().entry_ids(), vec![0, 1, 2]);
    assert_eq!(client.cache().selected(), vec![0, 1, 2]);
    let a = &client.cache().tree().root.children[0];
    assert_eq!(a.entry_nodes.len(), 1);
    assert_eq!(a.entry_nodes[0].id, "entry-0");
    assert_eq!(a.entry_nodes[0].title, "B");
    let b = &client.cache().tree().root.children[1];
    let ids: Vec<&str> = b.entry_nodes.iter().map(|e| e.id.as_str()).collect();
    assert_eq!(ids, vec!["entry-1", "entry-2"]);
    assert_eq!(b.entry_nodes[0].title, "C");
    assert_eq!(b.entry_nodes[1].title, "D");
}

#[test]
fn commit_with_nothing_recorded_reports_nothing() {
    let mut client: ContextTreeClient<()> = ContextTreeClient::new(None);
    assert!(client.commit_history_mutation().is_none());
    assert!(client.cache().entry_ids().is_empty());
}

#[test]
fn selection_survives_a_commit() {
    let mut client: ContextTreeClient<()> = ContextTreeClient::new(None);
    client.recorder().insert(0, labels(&["a"]), payload("A", "a"));
    client.recorder().insert(1, labels(&["a"]), payload("B", "b"));
    client.commit_history_mutation();
    client.toggle_selected(&["entry-1".to_string()]);
    assert_eq!(client.cache().selected(), vec![0]);
    client.recorder().insert(2, labels(&["a"]), payload("C", "c"));
    client.commit_history_mutation();
    assert_eq!(client.cache().selected(), vec![0, 2]);
    client.toggle_collapsed(&["/a".to_string()]);
    assert!(client.cache().tree().root.children[0].collapsed);
}

#[test]
fn long_summaries_are_asked_of_the_model() {
    let mut client: ContextTreeClient<u8> = ContextTreeClient::new(Some(7));
    let long_body = vec!["word"; 120].join(" ");
    client.recorder().insert(0, labels(&["a"]), payload("T", &long_body));
    let pending = client.commit_history_mutation();
    let text = pending.expect("a summary is asked for");
    assert_eq!(text, format!("T:\n\n{long_body}"));
    let group = &client.cache().tree().root.children[0];
    assert!(group.updated);
    let pending = client.resume_summary(&vec!["short".to_string()]);
    assert!(pending.is_none());
    assert_eq!(client.cache().tree().root.children[0].summary, "short");
}

#[test]
fn an_empty_reply_keeps_the_combined_text() {
    let mut client: ContextTreeClient<u8> = ContextTreeClient::new(Some(1));
    let long_body = vec!["w"; 101].join(" ");
    client.recorder().insert(0, labels(&["g"]), payload("T", &long_body));
    let asked = client.commit_history_mutation().expect("a summary is asked for");
    let summary = resolve_model_reply(&asked, Some("   ".to_string()));
    assert!(client.resume_summary(&vec![summary]).is_none());
    assert_eq!(client.cache().tree().root.children[0].summary, format!("T:\n\n{long_body}"));
}

#[test]
fn without_a_model_long_summaries_stay_combined() {
    let mut client: ContextTreeClient<u8> = ContextTreeClient::new(None);
    let long_body = vec!["w"; 150].join(" ");
    client.recorder().insert(0, labels(&["g"]), payload("T", &long_body));
    assert!(client.commit_history_mutation().is_none());
    assert_eq!(client.cache().tree().root.children[0].summary, format!("T:\n\n{long_body}"));
}

#[test]
fn a_moved_entry_keeps_its_selection() {
    let mut client: ContextTreeClient<()> = ContextTreeClient::new(None);
    client.recorder().insert(0, labels(&["a"]), payload("A", "a"));
    client.recorder().insert(1, labels(&["b"]), payload("B", "b"));
    client.recorder().insert(2, labels(&["c"]), payload("C", "c"));
    client.commit_history_mutation();
    client.toggle_selected(&["entry-2".to_string()]);
    assert_eq!(client.cache().selected(), vec![0, 1]);
    // The first entry goes; the other two move down one index, and a new one comes last.
    client.recorder().remove(0);
    client.recorder().insert(2, labels(&["a"]), payload("D", "d"));
    client.commit_history_mutation();
    assert_eq!(client.cache().entry_ids(), vec![0, 1, 2]);
    let mut selected = client.cache().selected();
    selected.sort();
    assert_eq!(selected, vec![0, 2]);
    let tree = client.cache().tree();
    let ids: Vec<String> = tree.root.children.iter().map(|c| c.entry_nodes[0].id.clone()).collect();
    assert_eq!(ids, vec!["entry-2", "entry-0", "entry-1"]);
    assert!(!tree.root.children[2].entry_nodes[0].selected);
}

#[test]
fn a_default_cache_is_empty() {
    let c = ContextTreeCache::default();
    assert!(c.entry_ids().is_empty());
    assert!(c.selected().is_empty());
}

#[test]
fn a_moved_entry_keeps_its_collapse_state() {
    let mut client: ContextTreeClient<()> = ContextTreeClient::new(None);
    client.recorder().insert(0, labels(&["a"]), payload("A", "a"));
    client.recorder().insert(1, labels(&["b"]), payload("B", "b"));
    client.commit_history_mutation();
    client.toggle_collapsed(&["entry-1".to_string()]);
    // The first entry goes, the collapsed one moves down to index 0, and a new one comes last.
    client.recorder().remove(0);
    client.recorder().insert(1, labels(&["b"]), payload("C", "c"));
    client.commit_history_mutation();
    let tree = client.cache().tree();
    let group = &tree.root.children[0];
    assert_eq!(group.entry_nodes.len(), 2);
    assert_eq!(group.entry_nodes[0].id, "entry-0");
    assert!(group.entry_nodes[0].collapsed);
    assert_eq!(group.entry_nodes[1].id, "entry-1");
    assert!(!group.entry_nodes[1].collapsed);
}
