use line_anchor::buffer::Buffer;
use line_anchor::diagnostics::{
    apply_diagnostics_to_state, apply_diagnostics_to_state_cached, diagnostic_id,
    diagnostic_to_overlay, same_id, Diagnostic, DiagnosticLevel, EditorState, SEVERITY_ERROR,
    SEVERITY_WARNING,
};

fn diag(
    start: (u32, u32),
    end: (u32, u32),
    severity: Option<i32>,
    message: &str,
) -> Diagnostic {
    Diagnostic {
        start_line: start.0,
        start_character: start.1,
        end_line: end.0,
        end_character: end.1,
        severity,
        message: message.to_string(),
        source: None,
    }
}

fn overlay_summary(state: &EditorState) -> Vec<(u32, u32, String, usize, usize, i32)> {
    state
        .overlays
        .iter()
        .map(|o| (o.id.line, o.id.character, o.id.prefix.clone(), o.start, o.end, o.priority))
        .collect()
}

#[test]
fn test_diagnostic_to_overlay_error() {
    let buffer = Buffer::from_str_test("hello world");
    let diagnostic = diag((0, 0), (0, 5), Some(SEVERITY_ERROR), "Test error");

    let result = diagnostic_to_overlay(&diagnostic, &buffer);
    assert!(result.is_some());

    let (range, level, priority) = result.unwrap();
    assert_eq!(range, (0, 5));
    assert_eq!(priority, 100);
    assert_eq!(level, DiagnosticLevel::Error);
}

#[test]
fn test_diagnostic_to_overlay_warning() {
    let buffer = Buffer::from_str_test("hello world");
    let diagnostic = diag((0, 6), (0, 11), Some(SEVERITY_WARNING), "Test warning");

    let result = diagnostic_to_overlay(&diagnostic, &buffer);
    assert!(result.is_some());

    let (range, level, priority) = result.unwrap();
    assert_eq!(range, (6, 11));
    assert_eq!(priority, 50);
    assert_eq!(level, DiagnosticLevel::Warning);
}

#[test]
fn test_diagnostic_to_overlay_multiline() {
    let buffer = Buffer::from_str_test("line1\nline2\nline3");
    let diagnostic = diag((0, 3), (1, 2), Some(SEVERITY_ERROR), "Multi-line error");

    let result = diagnostic_to_overlay(&diagnostic, &buffer);
    assert!(result.is_some());

    let (range, _, _) = result.unwrap();
    assert_eq!(range.0, 3);
    assert_eq!(range.1, 8);
}

#[test]
fn overlay_levels_and_unknown_severity() {
    let buffer = Buffer::from_str_test("abc");
    let info = diagnostic_to_overlay(&diag((0, 0), (0, 1), Some(3), "i"), &buffer).unwrap();
    assert_eq!((info.1, info.2), (DiagnosticLevel::Information, 30));
    let hint = diagnostic_to_overlay(&diag((0, 0), (0, 1), Some(4), "h"), &buffer).unwrap();
    assert_eq!((hint.1, hint.2), (DiagnosticLevel::Hint, 10));
    let none = diagnostic_to_overlay(&diag((0, 0), (0, 1), None, "n"), &buffer).unwrap();
    assert_eq!((none.1, none.2), (DiagnosticLevel::Hint, 10));
    assert!(diagnostic_to_overlay(&diag((0, 0), (0, 1), Some(7), "x"), &buffer).is_none());
}

#[test]
fn identity_uses_position_and_message_prefix() {
    let a = diagnostic_id(&diag((2, 4), (2, 9), Some(1), "unused variable `x`"));
    assert_eq!((a.line, a.character, a.prefix.as_str()), (2, 4, "unused v"));
    let b = diagnostic_id(&diag((2, 4), (3, 0), Some(2), "unused value"));
    assert!(same_id(&a, &b));
    let c = diagnostic_id(&diag((2, 5), (2, 9), Some(1), "unused variable `x`"));
    assert!(!same_id(&a, &c));
    let short = diagnostic_id(&diag((0, 0), (0, 0), None, "é!"));
    assert_eq!(short.prefix, "é!");
}

#[test]
fn reapplying_the_same_diagnostics_changes_nothing() {
    let buffer = Buffer::from_str_test("fn main() {\n    let x = 1;\n}\n");
    let mut state = EditorState::new(buffer);
    let set_a = vec![
        diag((1, 8), (1, 9), Some(SEVERITY_WARNING), "unused variable"),
        diag((0, 3), (0, 7), Some(SEVERITY_ERROR), "bad name"),
    ];
    apply_diagnostics_to_state(&mut state, &set_a);
    let first = overlay_summary(&state);
    assert_eq!(
        first,
        vec![
            (1, 8, "unused v".to_string(), 20, 21, 50),
            (0, 3, "bad name".to_string(), 3, 7, 100),
        ]
    );
    assert_eq!(state.margin_lines, vec![1, 0]);
    apply_diagnostics_to_state(&mut state, &set_a);
    assert_eq!(overlay_summary(&state), first);
    assert_eq!(state.margin_lines, vec![1, 0]);
}

#[test]
fn changed_diagnostics_remove_stale_and_add_new() {
    let buffer = Buffer::from_str_test("aaaa\nbbbb\ncccc\n");
    let mut state = EditorState::new(buffer);
    let set_a = vec![
        diag((0, 0), (0, 2), Some(SEVERITY_ERROR), "first"),
        diag((1, 1), (1, 3), Some(SEVERITY_WARNING), "second"),
    ];
    apply_diagnostics_to_state(&mut state, &set_a);
    let set_b = vec![
        diag((1, 1), (1, 4), Some(SEVERITY_WARNING), "second"),
        diag((2, 0), (2, 4), None, "third"),
        diag((2, 2), (2, 3), Some(9), "unknown"),
    ];
    apply_diagnostics_to_state(&mut state, &set_b);
    // The kept overlay is untouched: it still spans the range of set A.
    assert_eq!(
        overlay_summary(&state),
        vec![
            (1, 1, "second".to_string(), 6, 8, 50),
            (2, 0, "third".to_string(), 10, 14, 10),
        ]
    );
    assert_eq!(state.margin_lines, vec![1, 2]);
    assert_eq!(state.overlays[1].message, "third");
}

#[test]
fn cached_apply_skips_an_unchanged_set() {
    let buffer = Buffer::from_str_test("one\ntwo\n");
    let mut state = EditorState::new(buffer);
    let set_a = vec![diag((0, 0), (0, 3), Some(SEVERITY_ERROR), "e")];
    apply_diagnostics_to_state_cached(&mut state, &set_a);
    assert_eq!(state.overlays.len(), 1);
    assert!(state.diagnostic_hash.is_some());

    // Overlays cleared behind the cache's back stay cleared: the same set is skipped.
    state.overlays.clear();
    apply_diagnostics_to_state_cached(&mut state, &set_a);
    assert_eq!(state.overlays.len(), 0);

    // A different set is applied.
    let set_b = vec![diag((1, 0), (1, 3), Some(SEVERITY_WARNING), "w")];
    let hash_a = state.diagnostic_hash;
    apply_diagnostics_to_state_cached(&mut state, &set_b);
    assert_eq!(state.overlays.len(), 1);
    assert_eq!((state.overlays[0].start, state.overlays[0].end), (4, 7));
    assert_ne!(state.diagnostic_hash, hash_a);
}

#[test]
fn reversed_range_gives_no_overlay() {
    let buffer = Buffer::from_str_test("hello world");
    let reversed = diag((0, 5), (0, 0), Some(SEVERITY_ERROR), "backwards");
    assert!(diagnostic_to_overlay(&reversed, &buffer).is_none());
    let empty = diag((0, 3), (0, 3), Some(SEVERITY_ERROR), "empty");
    assert_eq!(diagnostic_to_overlay(&empty, &buffer).unwrap().0, (3, 3));

    let mut state = EditorState::new(buffer);
    apply_diagnostics_to_state(&mut state, &vec![reversed]);
    assert!(state.overlays.is_empty());
    assert!(state.margin_lines.is_empty());
}
