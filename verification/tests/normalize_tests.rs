use codex_context_tree::items::entry_title;
use codex_context_tree::items::FunctionCallOutputPayload;
use codex_context_tree::items::LocalShellAction;
use codex_context_tree::items::LocalShellExecAction;
use codex_context_tree::items::LocalShellStatus;
use codex_context_tree::items::ResponseItem;
use codex_context_tree::normalize::ensure_call_outputs_present;
use codex_context_tree::normalize::remove_corresponding_for;
use codex_context_tree::normalize::remove_orphan_outputs;

fn call(id: &str) -> ResponseItem {
    ResponseItem::FunctionCall { name: "f".to_string(), arguments: "{}".to_string(), call_id: id.to_string() }
}

fn output(id: &str) -> ResponseItem {
    ResponseItem::FunctionCallOutput {
        call_id: id.to_string(),
        output: FunctionCallOutputPayload { content: "ok".to_string(), content_items: None, success: None },
    }
}

fn custom_call(id: &str) -> ResponseItem {
    ResponseItem::CustomToolCall { call_id: id.to_string(), name: "t".to_string(), input: "i".to_string() }
}

fn custom_output(id: &str) -> ResponseItem {
    ResponseItem::CustomToolCallOutput { call_id: id.to_string(), output: "o".to_string() }
}

fn shell(id: Option<&str>) -> ResponseItem {
    ResponseItem::LocalShellCall {
        call_id: id.map(|s| s.to_string()),
        status: LocalShellStatus::Completed,
        action: LocalShellAction::Exec(LocalShellExecAction {
            command: vec!["ls".to_string()],
            timeout_ms: None,
            working_directory: None,
            user: None,
        }),
    }
}

fn titles(items: &[ResponseItem]) -> Vec<String> {
    items.iter().map(entry_title).collect()
}

fn aborted_content(item: &ResponseItem) -> Option<String> {
    match item {
        ResponseItem::FunctionCallOutput { output, .. } => Some(output.content.clone()),
        ResponseItem::CustomToolCallOutput { output, .. } => Some(output.clone()),
        _ => None,
    }
}

#[test]
fn missing_outputs_are_added_after_their_calls() {
    let mut items = vec![call("a"), custom_call("b"), shell(Some("c")), shell(None), call("d"), output("d")];
    let inserts = ensure_call_outputs_present(&mut items);
    assert_eq!(
        titles(&items),
        vec![
            "function call: f",
            "function output: a",
            "tool call: t",
            "tool output: b",
            "local shell call",
            "function output: c",
            "local shell call",
            "function call: f",
            "function output: d",
        ]
    );
    assert_eq!(aborted_content(&items[1]), Some("aborted".to_string()));
    assert_eq!(aborted_content(&items[3]), Some("aborted".to_string()));
    assert_eq!(aborted_content(&items[8]), Some("ok".to_string()));
    let positions: Vec<usize> = inserts.iter().map(|(i, _)| *i).collect();
    assert_eq!(positions, vec![3, 2, 1]);
    assert_eq!(titles(&inserts.into_iter().map(|(_, it)| it).collect::<Vec<_>>()), vec![
        "function output: c",
        "tool output: b",
        "function output: a",
    ]);
}

#[test]
fn answered_calls_are_left_alone() {
    let mut items = vec![call("a"), output("a")];
    assert!(ensure_call_outputs_present(&mut items).is_empty());
    assert_eq!(items.len(), 2);
}

#[test]
fn orphan_outputs_are_dropped() {
    let mut items = vec![output("x"), call("a"), output("a"), custom_output("y"), shell(Some("s")), output("s"), output("z")];
    let removed = remove_orphan_outputs(&mut items);
    assert_eq!(removed, vec![0, 2, 4]);
    assert_eq!(
        titles(&items),
        vec!["function call: f", "function output: a", "local shell call", "function output: s"]
    );
}

#[test]
fn counterparts_are_removed() {
    let mut items = vec![call("a"), output("a"), custom_call("b"), custom_output("b"), shell(Some("s")), output("s")];
    assert_eq!(remove_corresponding_for(&mut items, &call("a")), Some(1));
    assert_eq!(remove_corresponding_for(&mut items, &custom_output("b")), Some(1));
    assert_eq!(remove_corresponding_for(&mut items, &output("s")), Some(2));
    assert_eq!(titles(&items), vec!["function call: f", "tool output: b", "function output: s"]);
    assert_eq!(remove_corresponding_for(&mut items, &shell(Some("s"))), Some(2));
    assert_eq!(remove_corresponding_for(&mut items, &shell(None)), None);
    assert_eq!(remove_corresponding_for(&mut items, &ResponseItem::Other), None);
    assert_eq!(items.len(), 2);
}

#[test]
fn a_function_output_prefers_a_function_call() {
    let mut items = vec![shell(Some("q")), call("q")];
    assert_eq!(remove_corresponding_for(&mut items, &output("q")), Some(1));
    assert_eq!(remove_corresponding_for(&mut items, &output("q")), Some(0));
    assert!(items.is_empty());
}

#[test]
fn normalization_leaves_every_call_answered() {
    let mut items = vec![output("orphan"), call("a"), custom_call("b"), custom_output("b"), output("zz")];
    ensure_call_outputs_present(&mut items);
    remove_orphan_outputs(&mut items);
    assert_eq!(
        titles(&items),
        vec!["function call: f", "function output: a", "tool call: t", "tool output: b"]
    );
}
