use codex_context_tree::history::ContextManager;
use codex_context_tree::items::entry_title;
use codex_context_tree::items::ContentItem;
use codex_context_tree::items::FunctionCallOutputPayload;
use codex_context_tree::items::ResponseItem;
use codex_context_tree::prompt::PromptContextActions;
use codex_context_tree::prompt::PromptContextNode;

fn message(role: &str, text: &str) -> ResponseItem {
    ResponseItem::Message { role: role.to_string(), content: vec![ContentItem::OutputText { text: text.to_string() }] }
}

fn call(id: &str) -> ResponseItem {
    ResponseItem::FunctionCall { name: "f".to_string(), arguments: "{}".to_string(), call_id: id.to_string() }
}

fn output(id: &str) -> ResponseItem {
    ResponseItem::FunctionCallOutput {
        call_id: id.to_string(),
        output: FunctionCallOutputPayload { content: "ok".to_string(), content_items: None, success: None },
    }
}

fn titles(items: &[ResponseItem]) -> Vec<String> {
    items.iter().map(entry_title).collect()
}

fn ids(node: &PromptContextNode) -> Vec<String> {
    node.children.iter().map(|c| c.id.clone()).collect()
}

fn toggle_selected(ids: &[&str]) -> PromptContextActions {
    PromptContextActions { toggle_selected: ids.iter().map(|s| s.to_string()).collect(), toggle_collapsed: vec![] }
}

#[test]
fn recording_keeps_api_messages_and_ghost_snapshots() {
    let mut h: ContextManager<()> = ContextManager::new();
    h.record_items(
        vec![message("system", "s"), message("user", "u"), ResponseItem::GhostSnapshot, ResponseItem::Other, message("assistant", "a")],
        Some("t1"),
    );
    assert!(h.commit_context_tree().is_none());
    let tree = h.context_tree();
    assert_eq!(ids(&tree.root), vec!["/task:t1"]);
    let task = &tree.root.children[0];
    assert_eq!(ids(task), vec!["/task:t1/role:assistant", "/task:t1/role:user", "entry-1"]);
    assert_eq!(task.children[0].children[0].id, "entry-2");
    assert_eq!(task.children[0].children[0].title, "assistant message");
    assert_eq!(task.children[0].children[0].summary, "a");
    let prompt = h.get_history_for_prompt();
    assert_eq!(titles(&prompt), vec!["user message", "assistant message"]);
}

#[test]
fn unselected_entries_leave_the_prompt() {
    let mut h: ContextManager<()> = ContextManager::new();
    h.record_items(vec![message("user", "u"), message("assistant", "a")], None);
    h.commit_context_tree();
    h.apply_context_actions(&[toggle_selected(&["entry-0"])]);
    assert_eq!(titles(&h.get_history_for_prompt()), vec!["assistant message"]);
    h.apply_context_actions(&[toggle_selected(&["entry-0"])]);
    assert_eq!(titles(&h.get_history_for_prompt()), vec!["user message", "assistant message"]);
}

#[test]
fn with_nothing_checked_nothing_is_sent() {
    let mut h: ContextManager<()> = ContextManager::new();
    h.record_items(vec![message("user", "u"), message("assistant", "a")], None);
    h.commit_context_tree();
    h.apply_context_actions(&[toggle_selected(&["entry-0", "entry-1"])]);
    assert!(h.get_history_for_prompt().is_empty());
    h.record_items(vec![message("user", "next")], None);
    assert_eq!(titles(&h.get_history_for_prompt()), vec!["user message"]);
}

#[test]
fn before_a_commit_every_item_is_sent() {
    let mut h: ContextManager<()> = ContextManager::new();
    h.record_items(vec![message("user", "u")], None);
    assert_eq!(titles(&h.get_history_for_prompt()), vec!["user message"]);
}

#[test]
fn items_recorded_since_the_commit_count_as_selected() {
    let mut h: ContextManager<()> = ContextManager::new();
    h.record_items(vec![message("user", "u"), message("assistant", "a")], None);
    h.commit_context_tree();
    h.apply_context_actions(&[toggle_selected(&["entry-0"])]);
    h.record_items(vec![message("user", "again")], None);
    assert_eq!(titles(&h.get_history_for_prompt()), vec!["assistant message", "user message"]);
    h.commit_context_tree();
    assert_eq!(titles(&h.get_history_for_prompt()), vec!["assistant message", "user message"]);
}

#[test]
fn history_adds_missing_outputs_and_mirrors_them() {
    let mut h: ContextManager<()> = ContextManager::new();
    h.record_items(vec![call("a"), output("zz")], Some("t"));
    let hist = h.get_history();
    assert_eq!(titles(&hist), vec!["function call: f", "function output: a"]);
    h.commit_context_tree();
    let tree = h.context_tree();
    let calls = &tree.root.children[0].children[0].children[0];
    assert_eq!(calls.id, "/task:t/functions/call:a");
    assert_eq!(ids(calls), vec!["entry-0", "entry-1"]);
    assert_eq!(calls.children[1].title, "function output: a");
    assert_eq!(calls.children[1].summary, "aborted");
}

#[test]
fn removing_the_first_item_takes_its_output_along() {
    let mut h: ContextManager<()> = ContextManager::new();
    h.record_items(vec![call("a"), message("user", "u"), output("a")], None);
    h.remove_first_item();
    assert_eq!(titles(&h.get_history()), vec!["user message"]);
    h.commit_context_tree();
    let tree = h.context_tree();
    assert_eq!(ids(&tree.root), vec!["/role:user"]);
    assert_eq!(ids(&tree.root.children[0]), vec!["entry-0"]);
}

#[test]
fn removing_from_an_empty_history_does_nothing() {
    let mut h: ContextManager<()> = ContextManager::new();
    h.remove_first_item();
    assert!(h.get_history().is_empty());
}

#[test]
fn replace_swaps_the_whole_history() {
    let mut h: ContextManager<()> = ContextManager::new();
    h.record_items(vec![message("user", "u")], Some("t"));
    h.commit_context_tree();
    h.replace(vec![message("assistant", "a"), message("user", "b")]);
    assert_eq!(titles(&h.get_history()), vec!["assistant message", "user message"]);
    h.commit_context_tree();
    let tree = h.context_tree();
    assert_eq!(ids(&tree.root), vec!["/role:assistant", "/role:user"]);
    assert_eq!(tree.root.children[1].children[0].id, "entry-1");
    assert_eq!(tree.root.children[1].children[0].summary, "b");
}

#[test]
fn collapse_toggles_reach_the_tree() {
    let mut h: ContextManager<()> = ContextManager::new();
    h.record_items(vec![message("user", "u")], None);
    h.commit_context_tree();
    h.apply_context_actions(&[PromptContextActions { toggle_selected: vec![], toggle_collapsed: vec!["/role:user".to_string()] }]);
    assert!(h.context_tree().root.children[0].collapsed);
}

#[test]
fn long_histories_ask_the_model_and_resume() {
    let mut h: ContextManager<u8> = ContextManager::with_context_model(Some(3));
    let long = vec!["w"; 200].join(" ");
    h.record_items(vec![message("user", &long)], None);
    let pending = h.commit_context_tree().expect("summary asked for");
    assert!(pending.starts_with("user message:\n\n"));
    assert!(h.resume_context_summary(&vec!["brief".to_string()]).is_none());
    assert_eq!(h.context_tree().root.children[0].summary, "brief");
}

fn reasoning(encrypted_bytes: usize) -> ResponseItem {
    ResponseItem::Reasoning { summary: vec![], content: None, encrypted_content: Some("x".repeat(encrypted_bytes)) }
}

#[test]
fn reasoning_before_the_last_user_message_is_estimated() {
    let mut h: ContextManager<()> = ContextManager::new();
    assert_eq!(h.non_last_reasoning_length(), 0);
    h.record_items(vec![reasoning(4000), message("user", "u"), reasoning(2000)], None);
    assert_eq!(h.non_last_reasoning_length(), 2350);
    h.record_items(vec![message("user", "again"), reasoning(8000)], None);
    assert_eq!(h.non_last_reasoning_length(), 2350 + 850);
    let mut none: ContextManager<()> = ContextManager::new();
    none.record_items(vec![reasoning(4000), message("assistant", "a")], None);
    assert_eq!(none.non_last_reasoning_length(), 0);
}

#[test]
fn choices_persist_and_new_items_start_selected() {
    let mut h: ContextManager<()> = ContextManager::new();
    h.record_items(vec![message("user", "u"), message("assistant", "a")], Some("t1"));
    h.commit_context_tree();
    h.apply_context_actions(&[toggle_selected(&["entry-0"])]);
    h.record_items(vec![message("user", "again")], Some("t2"));
    h.commit_context_tree();
    let prompt = h.get_history_for_prompt();
    assert_eq!(titles(&prompt), vec!["assistant message", "user message"]);
}

#[test]
fn a_default_history_is_empty() {
    let mut h: ContextManager<()> = ContextManager::default();
    assert!(h.get_history().is_empty());
    assert!(h.context_model().is_none());
}
