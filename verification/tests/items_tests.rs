use codex_context_tree::history::summary_reply;
use codex_context_tree::items::build_entry_labels;
use codex_context_tree::items::build_entry_payload;
use codex_context_tree::items::entry_body;
use codex_context_tree::items::entry_role;
use codex_context_tree::items::entry_title;
use codex_context_tree::items::estimate_reasoning_length;
use codex_context_tree::items::is_api_message;
use codex_context_tree::items::ContentItem;
use codex_context_tree::items::FunctionCallOutputContentItem;
use codex_context_tree::items::FunctionCallOutputPayload;
use codex_context_tree::items::LocalShellAction;
use codex_context_tree::items::LocalShellExecAction;
use codex_context_tree::items::LocalShellStatus;
use codex_context_tree::items::ReasoningItemContent;
use codex_context_tree::items::ReasoningItemReasoningSummary;
use codex_context_tree::items::ResponseItem;
use codex_context_tree::items::WebSearchAction;
use codex_context_tree::EntryRole;

fn message(role: &str, text: &str) -> ResponseItem {
    ResponseItem::Message {
        role: role.to_string(),
        content: vec![ContentItem::InputText { text: text.to_string() }],
    }
}

#[test]
fn api_messages_exclude_system_and_ghosts() {
    assert!(is_api_message(&message("user", "hi")));
    assert!(is_api_message(&message("assistant", "hi")));
    assert!(!is_api_message(&message("system", "hi")));
    assert!(!is_api_message(&ResponseItem::GhostSnapshot));
    assert!(!is_api_message(&ResponseItem::Other));
    assert!(is_api_message(&ResponseItem::CompactionSummary { encrypted_content: "x".to_string() }));
}

#[test]
fn reasoning_length_estimate() {
    assert_eq!(estimate_reasoning_length(1000), 100);
    assert_eq!(estimate_reasoning_length(800), 0);
    assert_eq!(estimate_reasoning_length(0), 0);
    assert_eq!(estimate_reasoning_length(usize::MAX), usize::MAX / 4 - 650);
}

#[test]
fn message_title_role_body_labels() {
    let m = ResponseItem::Message {
        role: "user".to_string(),
        content: vec![
            ContentItem::InputText { text: "hello".to_string() },
            ContentItem::InputImage { image_url: "http://x/y.png".to_string() },
            ContentItem::OutputText { text: "bye".to_string() },
        ],
    };
    assert_eq!(entry_title(&m), "user message");
    assert_eq!(entry_role(&m), EntryRole::User);
    assert_eq!(entry_body(&m), "hello\n\nimage: http://x/y.png\n\nbye");
    assert_eq!(build_entry_labels(&m, Some("7")), vec!["task:7", "role:user"]);
    assert_eq!(build_entry_labels(&m, None), vec!["role:user"]);
    assert_eq!(entry_role(&message("assistant", "x")), EntryRole::Assistant);
}

#[test]
fn reasoning_body_has_its_parts() {
    let r = ResponseItem::Reasoning {
        summary: vec![
            ReasoningItemReasoningSummary::SummaryText { text: "s1".to_string() },
            ReasoningItemReasoningSummary::SummaryText { text: "s2".to_string() },
        ],
        content: Some(vec![
            ReasoningItemContent::ReasoningText { text: "c1".to_string() },
            ReasoningItemContent::Text { text: "c2".to_string() },
        ]),
        encrypted_content: Some("héllo".to_string()),
    };
    assert_eq!(entry_body(&r), "s1\ns2\n\nc1\nc2\n\nencrypted content: 6");
    assert_eq!(entry_title(&r), "assistant reasoning");
    assert_eq!(entry_role(&r), EntryRole::Assistant);
    assert_eq!(build_entry_labels(&r, None), vec!["assistant", "reasoning"]);
    let empty = ResponseItem::Reasoning { summary: vec![], content: None, encrypted_content: None };
    assert_eq!(entry_body(&empty), "");
}

#[test]
fn function_call_and_output() {
    let call = ResponseItem::FunctionCall {
        name: "shell".to_string(),
        arguments: "{\"cmd\":\"ls\"}".to_string(),
        call_id: "c1".to_string(),
    };
    assert_eq!(entry_title(&call), "function call: shell");
    assert_eq!(entry_body(&call), "{\"cmd\":\"ls\"}");
    assert_eq!(entry_role(&call), EntryRole::Tool);
    assert_eq!(build_entry_labels(&call, Some("t")), vec!["task:t", "functions", "call:c1"]);
    let out = ResponseItem::FunctionCallOutput {
        call_id: "c1".to_string(),
        output: FunctionCallOutputPayload {
            content: "ok".to_string(),
            content_items: Some(vec![
                FunctionCallOutputContentItem::InputText { text: "more".to_string() },
                FunctionCallOutputContentItem::InputImage { image_url: "u".to_string() },
            ]),
            success: Some(true),
        },
    };
    assert_eq!(entry_title(&out), "function output: c1");
    assert_eq!(entry_body(&out), "ok\n\nmore\nimage: u");
    let bare = ResponseItem::FunctionCallOutput {
        call_id: "c2".to_string(),
        output: FunctionCallOutputPayload { content: String::new(), content_items: Some(vec![]), success: None },
    };
    assert_eq!(entry_body(&bare), "");
    let only_items = ResponseItem::FunctionCallOutput {
        call_id: "c3".to_string(),
        output: FunctionCallOutputPayload {
            content: String::new(),
            content_items: Some(vec![FunctionCallOutputContentItem::InputText { text: "x".to_string() }]),
            success: None,
        },
    };
    assert_eq!(entry_body(&only_items), "x");
}

#[test]
fn custom_tools() {
    let call = ResponseItem::CustomToolCall {
        call_id: "k".to_string(),
        name: "apply_patch".to_string(),
        input: "patch".to_string(),
    };
    assert_eq!(entry_title(&call), "tool call: apply_patch");
    assert_eq!(entry_body(&call), "patch");
    assert_eq!(build_entry_labels(&call, None), vec!["custom_tools", "call:k", "tool:apply_patch"]);
    let out = ResponseItem::CustomToolCallOutput { call_id: "k".to_string(), output: "done".to_string() };
    assert_eq!(entry_title(&out), "tool output: k");
    assert_eq!(entry_body(&out), "done");
    assert_eq!(build_entry_labels(&out, None), vec!["custom_tools", "call:k"]);
}

#[test]
fn local_shell_calls() {
    let call = ResponseItem::LocalShellCall {
        call_id: Some("s1".to_string()),
        status: LocalShellStatus::Completed,
        action: LocalShellAction::Exec(LocalShellExecAction {
            command: vec!["ls".to_string(), "-la".to_string()],
            timeout_ms: None,
            working_directory: Some("/tmp".to_string()),
            user: Some("me".to_string()),
        }),
    };
    assert_eq!(entry_title(&call), "local shell call");
    assert_eq!(entry_body(&call), "ls -la | user: me | cwd: /tmp | status: Completed");
    assert_eq!(build_entry_labels(&call, None), vec!["shell", "call:s1"]);
    let bare = ResponseItem::LocalShellCall {
        call_id: None,
        status: LocalShellStatus::InProgress,
        action: LocalShellAction::Exec(LocalShellExecAction {
            command: vec!["pwd".to_string()],
            timeout_ms: Some(5),
            working_directory: None,
            user: None,
        }),
    };
    assert_eq!(entry_body(&bare), "pwd | status: InProgress");
    assert_eq!(build_entry_labels(&bare, None), vec!["shell"]);
}

#[test]
fn web_searches() {
    let search = ResponseItem::WebSearchCall { action: WebSearchAction::Search { query: Some("rust \"verus\"".to_string()) } };
    assert_eq!(entry_body(&search), "rust \"verus\"");
    assert_eq!(entry_title(&search), "web search");
    assert_eq!(
        build_entry_labels(&search, None),
        vec!["web_search".to_string(), "action:Search { query: Some(\"rust \\\"verus\\\"\") }".to_string()]
    );
    let none = ResponseItem::WebSearchCall { action: WebSearchAction::Search { query: None } };
    assert_eq!(entry_body(&none), "search");
    assert_eq!(build_entry_labels(&none, None)[1], "action:Search { query: None }");
    let open = ResponseItem::WebSearchCall { action: WebSearchAction::OpenPage { url: None } };
    assert_eq!(entry_body(&open), "");
    assert_eq!(build_entry_labels(&open, None)[1], "action:OpenPage { url: None }");
    let find = ResponseItem::WebSearchCall {
        action: WebSearchAction::FindInPage { url: Some("u".to_string()), pattern: Some("p".to_string()) },
    };
    assert_eq!(entry_body(&find), "u | p");
    assert_eq!(build_entry_labels(&find, None)[1], "action:FindInPage { url: Some(\"u\"), pattern: Some(\"p\") }");
    let other = ResponseItem::WebSearchCall { action: WebSearchAction::Other };
    assert_eq!(entry_body(&other), "web search action");
    assert_eq!(build_entry_labels(&other, None)[1], "action:Other");
}

#[test]
fn other_kinds() {
    let c = ResponseItem::CompactionSummary { encrypted_content: "enc".to_string() };
    assert_eq!(entry_title(&c), "compaction summary");
    assert_eq!(entry_body(&c), "enc");
    assert_eq!(entry_role(&c), EntryRole::Assistant);
    assert_eq!(build_entry_labels(&c, None), vec!["compaction"]);
    let g = ResponseItem::GhostSnapshot;
    assert_eq!(entry_title(&g), "ghost snapshot");
    assert_eq!(entry_body(&g), "");
    assert_eq!(entry_role(&g), EntryRole::Other);
    assert!(build_entry_labels(&g, Some("t")) == vec!["task:t".to_string()]);
    let o = ResponseItem::Other;
    assert_eq!(entry_title(&o), "other");
    assert_eq!(build_entry_labels(&o, None), vec!["other"]);
    let p = build_entry_payload(&message("user", "hey"));
    assert_eq!(p.role, EntryRole::User);
    assert_eq!(p.title, "user message");
    assert_eq!(p.body, "hey");
}

#[test]
fn the_summary_is_the_final_assistant_message() {
    let reasoning = ResponseItem::Reasoning { summary: vec![], content: None, encrypted_content: None };
    let done = vec![
        reasoning,
        message("assistant", "draft"),
        message("user", "ignored"),
        message("assistant", "final"),
        ResponseItem::GhostSnapshot,
    ];
    assert_eq!(summary_reply(&done), Some("final".to_string()));
    assert_eq!(summary_reply(&vec![message("user", "only")]), None);
    assert_eq!(summary_reply(&vec![]), None);
}

#[test]
fn entries_of_one_task_share_their_first_label() {
    let m = message("assistant", "x");
    let r = ResponseItem::Reasoning { summary: vec![], content: None, encrypted_content: None };
    let a = build_entry_labels(&m, Some("t1"));
    let b = build_entry_labels(&r, Some("t1"));
    assert_eq!(a[0], "task:t1");
    assert_eq!(b[0], "task:t1");
    assert!(!a.iter().chain(b.iter()).any(|l| l == "conversation"));
}
