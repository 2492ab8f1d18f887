use codex_context_tree::recorder::HistoryMutation;
use codex_context_tree::EntryPayload;
use codex_context_tree::EntryRole;
use codex_context_tree::HistoryMutationRecorder;

fn payload(title: &str) -> EntryPayload {
    EntryPayload::new(EntryRole::User, title.to_string(), format!("{title} body"))
}

fn describe(m: &HistoryMutation) -> String {
    match m {
        HistoryMutation::IndexChange { old_index, new_index } => format!("move {old_index}->{new_index}"),
        HistoryMutation::Insert { index, labels, payload } => {
            format!("insert {index} {} {}", labels.join("/"), payload.title)
        }
        HistoryMutation::Remove { index } => format!("remove {index}"),
    }
}

fn describe_all(ms: &[HistoryMutation]) -> Vec<String> {
    ms.iter().map(describe).collect()
}

#[test]
fn fresh_recorder_commits_nothing() {
    let mut r = HistoryMutationRecorder::new(3);
    assert_eq!(r.pending_len(), 3);
    assert!(r.commit().is_empty());
}

#[test]
fn default_recorder_is_empty() {
    let mut r = HistoryMutationRecorder::default();
    assert_eq!(r.pending_len(), 0);
    assert!(r.commit().is_empty());
}

#[test]
fn insert_reports_insert_and_moves() {
    let mut r = HistoryMutationRecorder::new(2);
    r.insert(0, vec!["a".to_string()], payload("new"));
    let ms = r.commit();
    assert_eq!(
        describe_all(&ms),
        vec!["insert 0 a new", "move 0->1", "move 1->2"]
    );
    assert_eq!(r.pending_len(), 3);
}

#[test]
fn remove_reports_moves_then_removes() {
    let mut r = HistoryMutationRecorder::new(3);
    r.remove(0);
    let ms = r.commit();
    assert_eq!(describe_all(&ms), vec!["move 1->0", "move 2->1", "remove 0"]);
}

#[test]
fn replace_is_remove_then_insert() {
    let mut a = HistoryMutationRecorder::new(2);
    a.replace(1, vec!["x".to_string()], payload("r"));
    let mut b = HistoryMutationRecorder::new(2);
    b.remove(1);
    b.insert(1, vec!["x".to_string()], payload("r"));
    assert_eq!(describe_all(&a.commit()), describe_all(&b.commit()));
}

#[test]
fn replace_reports_insert_and_remove() {
    let mut r = HistoryMutationRecorder::new(2);
    r.replace(1, vec!["x".to_string()], payload("r"));
    assert_eq!(describe_all(&r.commit()), vec!["insert 1 x r", "remove 1"]);
}

#[test]
fn commit_after_commit_reports_nothing() {
    let mut r = HistoryMutationRecorder::new(1);
    r.insert(1, vec![], payload("p"));
    r.remove(0);
    assert!(!r.commit().is_empty());
    assert!(r.commit().is_empty());
}

#[test]
fn clear_then_commit_removes_everything() {
    let mut r = HistoryMutationRecorder::new(3);
    r.clear();
    assert_eq!(r.pending_len(), 0);
    assert_eq!(describe_all(&r.commit()), vec!["remove 0", "remove 1", "remove 2"]);
    assert_eq!(r.pending_len(), 0);
}

#[test]
fn remove_undoes_insert() {
    let mut r = HistoryMutationRecorder::new(2);
    r.insert(1, vec![], payload("p"));
    r.remove(1);
    assert!(r.commit().is_empty());
}

#[test]
fn payload_new_keeps_fields() {
    let p = EntryPayload::new(EntryRole::Tool, "t".to_string(), "b".to_string());
    assert_eq!(p.role, EntryRole::Tool);
    assert_eq!(p.title, "t");
    assert_eq!(p.body, "b");
    let q = p.copy();
    assert_eq!(q.title, "t");
}
