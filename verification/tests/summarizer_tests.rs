use codex_context_tree::cache::CachedEntry;
use codex_context_tree::summarizer::ContextTreeSummarizer;
use codex_context_tree::tree::ContextTreeNode;
use codex_context_tree::EntryPayload;
use codex_context_tree::EntryRole;
use std::collections::BTreeMap;
use codex_context_tree::summarizer::clip_text;
use codex_context_tree::summarizer::format_summary;
use codex_context_tree::summarizer::resolve_model_reply;
use codex_context_tree::summarizer::summary_request;
use codex_context_tree::PromptModelError;
use codex_context_tree::PromptRequest;

#[test]
fn clip_text_keeps_short_text() {
    assert_eq!(clip_text("hello", 5), "hello");
    assert_eq!(clip_text("", 3), "");
}

#[test]
fn clip_text_cuts_and_marks() {
    assert_eq!(clip_text("hello world", 5), "hello...");
    assert_eq!(clip_text("hello world", 6), "hello...");
    assert_eq!(clip_text("héllo wörld", 7), "héllo w...");
}

#[test]
fn format_summary_joins_title_and_summary() {
    assert_eq!(format_summary(" t ", " s "), "t:\n\ns");
    assert_eq!(format_summary("t", "  "), "t");
    assert_eq!(format_summary("", "s"), "s");
    assert_eq!(format_summary("", ""), "");
}

#[test]
fn model_replies_are_used_when_they_say_something() {
    assert_eq!(resolve_model_reply("combined", Some("reply".to_string())), "reply");
    assert_eq!(resolve_model_reply("combined", Some(" \n ".to_string())), "combined");
    assert_eq!(resolve_model_reply("combined", None), "combined");
}

#[test]
fn summary_request_carries_the_text() {
    let r = summary_request("abc");
    assert_eq!(r.system_prompt, "Summarize the following context for future turns.");
    assert_eq!(r.user_prompt, "abc");
    let q = PromptRequest::new("s".to_string(), "u".to_string());
    assert_eq!(q.system_prompt, "s");
    assert_eq!(q.user_prompt, "u");
}

#[test]
fn prompt_model_error_describes_itself() {
    let e = PromptModelError::Failed { message: "boom".to_string() };
    assert_eq!(e.describe(), "prompt model failed: boom");
}

#[test]
fn summarize_node_summarizes_a_group_from_its_leaves() {
    let mut group = ContextTreeNode::new("/a", vec!["a".to_string()]);
    group.entry_nodes.push(ContextTreeNode::new("entry-0", vec!["a".to_string()]));
    let mut entries = BTreeMap::new();
    entries.insert(
        0,
        CachedEntry {
            id: 0,
            labels: vec!["a".to_string()],
            payload: EntryPayload::new(EntryRole::User, "Hello".to_string(), "body".to_string()),
        },
    );
    let s: ContextTreeSummarizer<()> = ContextTreeSummarizer::new(None);
    assert!(s.model().is_none());
    assert!(s.summarize_node(&mut group, &entries, &vec![]).is_none());
    assert_eq!(group.title, "/a");
    assert_eq!(group.summary, "Hello:\n\nbody");
    assert!(!group.updated);
    assert_eq!(group.entry_nodes[0].title, "Hello");
    let with_model = ContextTreeSummarizer::new(Some(7u8));
    assert_eq!(with_model.model(), Some(&7u8));
}
