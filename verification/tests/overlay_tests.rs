use codex_context_tree::markdown::inline_spans;
use codex_context_tree::markdown::render_markdown_line;
use codex_context_tree::markdown::StyledSpan;
use codex_context_tree::markdown::TextStyle;
use codex_context_tree::overlay::detail_lines_for_node;
use codex_context_tree::overlay::handle_close;
use codex_context_tree::overlay::list_width;
use codex_context_tree::overlay::render_hint_segment;
use codex_context_tree::overlay::selection_marker;
use codex_context_tree::overlay::selection_state;
use codex_context_tree::overlay::wrap_detail_lines;
use codex_context_tree::overlay::ContextOverlay;
use codex_context_tree::overlay::ExitAction;
use codex_context_tree::overlay::OverlayKey;
use codex_context_tree::overlay::OverlayKeyCode;
use codex_context_tree::overlay::OverlayKeyKind;
use codex_context_tree::overlay::OverlayNode;
use codex_context_tree::overlay::SelectionState;
use codex_context_tree::prompt::PromptContextNode;
use codex_context_tree::prompt::PromptContextTree;

fn node(id: &str, labels: &[&str], title: &str, summary: &str, collapsed: bool, children: Vec<PromptContextNode>) -> PromptContextNode {
    PromptContextNode {
        id: id.to_string(),
        labels: labels.iter().map(|s| s.to_string()).collect(),
        title: title.to_string(),
        summary: summary.to_string(),
        selected: true,
        collapsed,
        children,
    }
}

fn sample(b_collapsed: bool) -> PromptContextTree {
    PromptContextTree {
        root: node(
            "root",
            &[],
            "root",
            "",
            false,
            vec![
                node(
                    "/b",
                    &["b"],
                    "Group B",
                    "",
                    b_collapsed,
                    vec![node("entry-1", &["b"], "one", "", true, vec![])],
                ),
                node(
                    "/a",
                    &["a"],
                    "Group A",
                    "# Head\n- item **b**",
                    false,
                    vec![
                        node("entry-2", &["a"], "two", "", true, vec![]),
                        node("entry-0", &["a"], "zero", "", true, vec![]),
                    ],
                ),
            ],
        ),
    }
}

fn key(c: char) -> OverlayKey {
    OverlayKey { code: OverlayKeyCode::Char(c), kind: OverlayKeyKind::Press }
}

fn code(code: OverlayKeyCode) -> OverlayKey {
    OverlayKey { code, kind: OverlayKeyKind::Press }
}

fn rows(o: &mut ContextOverlay) -> Vec<String> {
    o.list_lines(60, 20).into_iter().map(|l| l.text).collect()
}

fn highlighted(o: &mut ContextOverlay) -> Vec<String> {
    o.list_lines(60, 20).into_iter().filter(|l| l.highlighted).map(|l| l.text).collect()
}

#[test]
fn rows_follow_the_smallest_index() {
    let mut o = ContextOverlay::new(Some(sample(false)));
    assert_eq!(
        rows(&mut o),
        vec!["v [x] Group A", "    [x] zero", "    [x] two", "v [x] Group B", "    [x] one"]
    );
    assert_eq!(highlighted(&mut o), vec!["v [x] Group A"]);
}

#[test]
fn collapsed_groups_hide_their_rows() {
    let mut o = ContextOverlay::new(Some(sample(true)));
    assert_eq!(rows(&mut o), vec!["v [x] Group A", "    [x] zero", "    [x] two", "> [x] Group B"]);
}

#[test]
fn moving_stays_within_the_rows() {
    let mut o = ContextOverlay::new(Some(sample(false)));
    assert!(!o.handle_key(code(OverlayKeyCode::Up)));
    assert!(o.handle_key(key('j')));
    assert_eq!(highlighted(&mut o), vec!["    [x] zero"]);
    for _ in 0..10 {
        o.handle_key(code(OverlayKeyCode::Down));
    }
    assert_eq!(highlighted(&mut o), vec!["    [x] one"]);
    assert!(o.handle_key(key('k')));
    assert_eq!(highlighted(&mut o), vec!["v [x] Group B"]);
    assert!(!o.handle_key(OverlayKey { code: OverlayKeyCode::Down, kind: OverlayKeyKind::Release }));
    assert!(!o.handle_key(key('z')));
}

#[test]
fn toggling_a_group_toggles_its_subtree_and_is_saved() {
    let mut o = ContextOverlay::new(Some(sample(false)));
    assert!(o.handle_key(key(' ')));
    assert_eq!(rows(&mut o)[..3].to_vec(), vec!["v [ ] Group A", "    [ ] zero", "    [ ] two"]);
    assert!(o.handle_key(key('s')));
    assert!(o.is_done());
    assert_eq!(o.exit_action(), ExitAction::Save);
    let updates = handle_close(&mut o).expect("toggles are sent");
    assert_eq!(updates.toggle_selected, vec!["/a", "entry-0", "entry-2"]);
    assert!(updates.toggle_collapsed.is_empty());
    assert!(handle_close(&mut o).is_none());
}

#[test]
fn a_partly_selected_group_shows_a_tilde() {
    let mut o = ContextOverlay::new(Some(sample(false)));
    o.handle_key(key('j'));
    assert!(o.handle_key(code(OverlayKeyCode::Enter)));
    assert_eq!(rows(&mut o)[..3].to_vec(), vec!["v [~] Group A", "    [ ] zero", "    [x] two"]);
}

#[test]
fn cancelling_drops_the_toggles() {
    let mut o = ContextOverlay::new(Some(sample(false)));
    o.handle_key(key(' '));
    assert!(o.handle_key(key('q')));
    assert_eq!(o.exit_action(), ExitAction::Cancel);
    assert!(handle_close(&mut o).is_none());
    let mut p = ContextOverlay::new(Some(sample(false)));
    assert_eq!(p.exit_action(), ExitAction::Cancel);
    assert!(p.handle_key(code(OverlayKeyCode::Esc)));
    assert!(p.is_done());
    assert!(p.handle_key(key('x')));
}

#[test]
fn collapsing_and_expanding_rebuild_the_rows() {
    let mut o = ContextOverlay::new(Some(sample(false)));
    assert!(o.handle_key(code(OverlayKeyCode::Left)));
    assert_eq!(rows(&mut o), vec!["> [x] Group A", "v [x] Group B", "    [x] one"]);
    assert!(!o.handle_key(key('h')));
    assert!(o.handle_key(key('l')));
    assert_eq!(rows(&mut o).len(), 5);
    o.handle_key(key('j'));
    assert!(!o.handle_key(code(OverlayKeyCode::Right)));
    let updates = o.take_selection_updates();
    assert_eq!(updates.toggle_collapsed, vec!["/a", "/a"]);
    assert!(o.take_selection_updates().toggle_collapsed.is_empty());
}

#[test]
fn collapsing_a_subtree_reports_every_change() {
    let mut o = ContextOverlay::new(Some(sample(false)));
    assert!(o.handle_key(key('H')));
    let updates = o.take_selection_updates();
    assert_eq!(updates.toggle_collapsed, vec!["/a"]);
    assert!(o.handle_key(key('L')));
    let updates = o.take_selection_updates();
    assert_eq!(updates.toggle_collapsed, vec!["/a", "entry-0", "entry-2"]);
    o.discard_selection_updates();
}

#[test]
fn the_placeholder_stands_in_for_a_missing_tree() {
    let mut o = ContextOverlay::new(None);
    assert_eq!(rows(&mut o), vec!["  [x] Context tree unavailable"]);
    let details = o.detail_lines();
    let texts: Vec<String> = details.iter().map(|l| l.iter().map(|s| s.text.clone()).collect::<String>()).collect();
    assert_eq!(
        texts,
        vec![
            "Context tree unavailable",
            "Labels: conversation",
            "No prompt context tree is available right now.",
            "",
            "Node ID: placeholder-child",
        ]
    );
    let root = ContextOverlay::placeholder_root();
    assert_eq!(root.id, "placeholder-root");
    assert_eq!(root.children.len(), 1);
}

#[test]
fn an_empty_tree_shows_a_note() {
    let tree = PromptContextTree { root: node("root", &[], "root", "", false, vec![]) };
    let mut o = ContextOverlay::new(Some(tree));
    let lines = o.list_lines(30, 5);
    assert_eq!(lines.len(), 1);
    assert_eq!(lines[0].text, "No nodes available");
    assert!(lines[0].dim);
    let details = o.detail_lines();
    assert_eq!(details[0][0].text, "No details available.");
    assert!(details[0][0].style.dim);
    assert!(!o.handle_key(key(' ')));
    assert!(o.list_lines(0, 5).is_empty());
}

#[test]
fn long_titles_wrap_under_their_prefix() {
    let tree = PromptContextTree {
        root: node("root", &[], "root", "", false, vec![node("entry-3", &[], "alpha beta gamma", "", true, vec![])]),
    };
    let mut o = ContextOverlay::new(Some(tree));
    let lines: Vec<String> = o.list_lines(16, 5).into_iter().map(|l| l.text).collect();
    assert_eq!(lines, vec!["  [x] alpha beta", "      gamma"]);
}

#[test]
fn the_list_scrolls_to_the_selection() {
    let mut o = ContextOverlay::new(Some(sample(false)));
    for _ in 0..4 {
        o.handle_key(key('j'));
    }
    let lines: Vec<String> = o.list_lines(60, 2).into_iter().map(|l| l.text).collect();
    assert_eq!(lines, vec!["v [x] Group B", "    [x] one"]);
    o.handle_key(key('k'));
    o.handle_key(key('k'));
    o.handle_key(key('k'));
    let lines: Vec<String> = o.list_lines(60, 2).into_iter().map(|l| l.text).collect();
    assert_eq!(lines, vec!["    [x] zero", "    [x] two"]);
}

#[test]
fn details_show_markdown_summaries() {
    let o = ContextOverlay::new(Some(sample(false)));
    let details = o.detail_lines();
    assert_eq!(details.len(), 6);
    assert_eq!(details[0][0].text, "Group A");
    assert!(details[0][0].style.bold);
    assert_eq!(details[1][0].text, "Labels: ");
    assert_eq!(details[1][1].text, "a");
    assert_eq!(details[2][0].text, "Head");
    assert!(details[2][0].style.bold);
    assert_eq!(details[3][0].text, "• ");
    assert!(details[3][0].style.dim);
    assert_eq!(details[3][1].text, "item ");
    assert_eq!(details[3][2].text, "b");
    assert!(details[3][2].style.bold);
    assert_eq!(details[5][1].text, "/a");
}

#[test]
fn the_detail_scroll_stays_within_the_text() {
    let mut o = ContextOverlay::new(Some(sample(false)));
    assert_eq!(o.page_scroll_amount(), 1);
    assert!(!o.handle_key(code(OverlayKeyCode::PageDown)));
    assert_eq!(o.record_detail_layout(40, 10, 50), 0);
    assert_eq!(o.page_scroll_amount(), 10);
    assert!(o.handle_key(code(OverlayKeyCode::PageDown)));
    assert_eq!(o.record_detail_layout(40, 10, 50), 10);
    assert!(o.scroll_detail(1000));
    assert_eq!(o.record_detail_layout(40, 10, 50), 40);
    assert!(o.handle_key(code(OverlayKeyCode::PageUp)));
    assert_eq!(o.record_detail_layout(40, 10, 50), 30);
    assert!(!o.scroll_detail(0));
    assert!(o.scroll_detail(-100));
    assert!(!o.scroll_detail(-1));
    assert_eq!(o.record_detail_layout(40, 10, 5), 0);
    assert_eq!(o.record_detail_layout(0, 10, 50), 0);
    assert!(!o.scroll_detail(3));
    o.record_detail_layout(40, 10, 50);
    o.scroll_detail(5);
    assert!(o.move_selection(1));
    assert_eq!(o.record_detail_layout(40, 10, 50), 0);
}

#[test]
fn markdown_lines() {
    let spans = render_markdown_line("  ## Title *x*");
    let parts: Vec<(String, TextStyle)> = spans.into_iter().map(|s| (s.text, s.style)).collect();
    assert_eq!(
        parts,
        vec![
            ("  ".to_string(), TextStyle { bold: false, italic: false, dim: false }),
            ("Title ".to_string(), TextStyle { bold: true, italic: false, dim: false }),
            ("x".to_string(), TextStyle { bold: true, italic: true, dim: false }),
        ]
    );
    let blank = render_markdown_line("   ");
    assert_eq!(blank.len(), 2);
    assert_eq!(blank[1].text, "");
    let plain = render_markdown_line("just text");
    assert_eq!(plain.len(), 1);
    assert_eq!(plain[0].text, "just text");
    let star = render_markdown_line("* point");
    assert_eq!(star[0].text, "• ");
    assert_eq!(star[1].text, "point");
    let not_heading = render_markdown_line("#nospace");
    assert_eq!(not_heading[0].text, "#nospace");
}

#[test]
fn inline_emphasis() {
    let base = TextStyle { bold: false, italic: false, dim: false };
    let spans = inline_spans("a**b**c*d*", base);
    let parts: Vec<(String, bool, bool)> = spans.into_iter().map(|s| (s.text, s.style.bold, s.style.italic)).collect();
    assert_eq!(
        parts,
        vec![
            ("a".to_string(), false, false),
            ("b".to_string(), true, false),
            ("c".to_string(), false, false),
            ("d".to_string(), false, true),
        ]
    );
    let empty = inline_spans("**", TextStyle { bold: true, italic: false, dim: true });
    assert_eq!(empty.len(), 1);
    assert_eq!(empty[0].text, "");
    assert_eq!(empty[0].style, base);
}

#[test]
fn selection_states_and_markers() {
    assert_eq!(selection_marker(SelectionState::Selected), "[x]");
    assert_eq!(selection_marker(SelectionState::Unselected), "[ ]");
    assert_eq!(selection_marker(SelectionState::Partial), "[~]");
    assert_eq!(selection_marker(SelectionState::Empty), "[ ]");
    let mut leaf = OverlayNode::from_prompt(&node("entry-4", &[], "t", "", true, vec![]));
    assert_eq!(selection_state(&leaf), SelectionState::Selected);
    assert_eq!(leaf.min_entry_id, Some(4));
    let mut changed = Vec::new();
    leaf.set_descendants_selected(false, &mut changed);
    assert_eq!(selection_state(&leaf), SelectionState::Unselected);
    assert_eq!(changed, vec!["entry-4"]);
    let group = OverlayNode::from_prompt(&node("/g", &["g"], "g", "", false, vec![]));
    assert_eq!(group.min_entry_id, None);
    assert_eq!(selection_state(&group), SelectionState::Selected);
    let odd = OverlayNode::from_prompt(&node("entry-x", &[], "t", "", true, vec![]));
    assert_eq!(odd.min_entry_id, None);
}

#[test]
fn detail_lines_split_summaries_into_lines() {
    let n = OverlayNode::from_prompt(&node("entry-9", &[], "T", "one\r\ntwo\n", true, vec![]));
    let lines = detail_lines_for_node(&n);
    let texts: Vec<String> = lines.iter().map(|l| l.iter().map(|s| s.text.clone()).collect::<String>()).collect();
    assert_eq!(texts, vec!["T", "one", "two", "", "Node ID: entry-9"]);
}

#[test]
fn list_widths() {
    assert_eq!(list_width(90), 30);
    assert_eq!(list_width(40), 20);
    assert_eq!(list_width(30), 10);
    assert_eq!(list_width(10), 10);
    assert_eq!(list_width(45), 20);
}

#[test]
fn hint_segments_join_their_keys() {
    let keys = vec!["↑".to_string(), "↓".to_string(), "j".to_string()];
    assert_eq!(render_hint_segment(&keys, "navigate"), vec!["  ", "↑", "/", "↓", "/", "j", " navigate"]);
    assert_eq!(render_hint_segment(&vec!["s".to_string()], "save & exit"), vec!["  ", "s", " save & exit"]);
    assert!(render_hint_segment(&vec![], "nothing").is_empty());
}

fn plain_span(text: &str) -> StyledSpan {
    StyledSpan { text: text.to_string(), style: TextStyle { bold: false, italic: false, dim: false } }
}

#[test]
fn detail_lines_wrap_to_the_pane_width() {
    let lines = vec![
        vec![plain_span("Labels: "), plain_span("a/b")],
        vec![],
        vec![plain_span("alpha beta")],
    ];
    let wrapped = wrap_detail_lines(&lines, 9);
    assert_eq!(wrapped, vec!["Labels:", "a/b", "", "alpha", "beta"]);
    let wide = wrap_detail_lines(&lines, 80);
    assert_eq!(wide, vec!["Labels: a/b", "", "alpha beta"]);
}
