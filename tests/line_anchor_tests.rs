use line_anchor::buffer::Buffer;
use line_anchor::config::LARGE_FILE_THRESHOLD_BYTES;
use line_anchor::line_anchor::LineAnchorManager;
use line_anchor::marker::{AnchorConfidence, DeletePolicy, MarkerId, MarkerList};

#[test]
fn test_line_anchor_basic() {
    let buffer = Buffer::from_str_test("line1\nline2\nline3\n");
    let mut markers = MarkerList::new();
    let manager = LineAnchorManager::new(buffer.len(), LARGE_FILE_THRESHOLD_BYTES as usize);

    let byte = manager.line_to_byte(0, &buffer, &mut markers);
    assert_eq!(byte, 0);

    let byte = manager.line_to_byte(1, &buffer, &mut markers);
    assert_eq!(byte, 6);

    let line = manager.byte_to_line(6, &buffer, &mut markers);
    assert_eq!(line, 1);
}

#[test]
fn test_estimated_anchor_creation() {
    let text = "x".repeat(100) + "\n";
    let text = text.repeat(1000);
    let buffer = Buffer::from_str_test(&text);
    let mut markers = MarkerList::new();
    let manager = LineAnchorManager::new(buffer.len(), LARGE_FILE_THRESHOLD_BYTES as usize);

    let byte = manager.line_to_byte(500, &buffer, &mut markers);

    let anchors = markers.query_line_anchors(0, buffer.len());
    assert!(!anchors.is_empty(), "Should have created at least one anchor");

    let expected_byte = 500 * 101;
    let diff = (byte as i64 - expected_byte as i64).abs();
    assert!(diff < 1000, "Estimated position should be close to actual (diff: {})", diff);
}

#[test]
fn test_relative_anchor_creation() {
    let text = "line\n".repeat(200);
    let buffer = Buffer::from_str_test(&text);
    let mut markers = MarkerList::new();
    let manager = LineAnchorManager::new(buffer.len(), LARGE_FILE_THRESHOLD_BYTES as usize);

    let _ = manager.line_to_byte(0, &buffer, &mut markers);
    let _ = manager.line_to_byte(50, &buffer, &mut markers);

    let anchors = markers.query_line_anchors(0, buffer.len());
    assert!(anchors.len() >= 5, "Should have created multiple anchors along the path");
}

#[test]
fn test_small_threshold_with_large_file() {
    let text = "x".repeat(50) + "\n";
    let text = text.repeat(100);
    let buffer = Buffer::from_str(&text, 1000);
    let mut markers = MarkerList::new();

    let manager = LineAnchorManager::new(buffer.len(), 1000);

    let byte = manager.line_to_byte(50, &buffer, &mut markers);

    let expected_byte = 50 * 51;
    let diff = (byte as i64 - expected_byte as i64).abs();
    assert!(diff < 3000, "Estimated position should be within ~3000 bytes (diff: {})", diff);
}

#[test]
fn test_lsp_position_to_byte() {
    let buffer = Buffer::from_str_test("hello\nworld\ntest");

    assert_eq!(buffer.lsp_position_to_byte(0, 0), 0);
    assert_eq!(buffer.lsp_position_to_byte(0, 5), 5);
    assert_eq!(buffer.lsp_position_to_byte(1, 0), 6);
    assert_eq!(buffer.lsp_position_to_byte(1, 5), 11);
    assert_eq!(buffer.lsp_position_to_byte(2, 0), 12);
    assert_eq!(buffer.lsp_position_to_byte(10, 0), buffer.len());
}

#[test]
fn lsp_position_counts_utf16_units() {
    // 'é' is two bytes and one unit; '😀' is four bytes and two units.
    let buffer = Buffer::from_str_test("aé😀b\nz");
    assert_eq!(buffer.lsp_position_to_byte(0, 1), 1);
    assert_eq!(buffer.lsp_position_to_byte(0, 2), 3);
    assert_eq!(buffer.lsp_position_to_byte(0, 3), 7);
    assert_eq!(buffer.lsp_position_to_byte(0, 4), 7);
    assert_eq!(buffer.lsp_position_to_byte(0, 5), 8);
    // A column past the end of the line stops at the newline.
    assert_eq!(buffer.lsp_position_to_byte(0, 50), 8);
    assert_eq!(buffer.lsp_position_to_byte(1, 1), 10);
}

fn small_manager(buffer: &Buffer) -> LineAnchorManager {
    LineAnchorManager::new(buffer.len(), LARGE_FILE_THRESHOLD_BYTES as usize)
}

#[test]
fn round_trip_on_every_byte() {
    let buffer = Buffer::from_str_test("ab\n\ncde\nf\n\ngh");
    let manager = small_manager(&buffer);
    let mut markers = MarkerList::new();
    let _ = manager.line_to_byte(0, &buffer, &mut markers);
    for b in 0..buffer.len() {
        let line = manager.byte_to_line(b, &buffer, &mut markers);
        let start = manager.line_to_byte(line, &buffer, &mut markers);
        let next = manager.line_to_byte(line + 1, &buffer, &mut markers);
        assert!(start <= b && b < next, "byte {} line {} span {}..{}", b, line, start, next);
    }
}

#[test]
fn line_starts_are_monotonic() {
    let buffer = Buffer::from_str_test("a\nbb\n\nccc\nd");
    let manager = small_manager(&buffer);
    let mut markers = MarkerList::new();
    let starts: Vec<usize> =
        (0..8).map(|l| manager.line_to_byte(l, &buffer, &mut markers)).collect();
    assert_eq!(starts, vec![0, 2, 5, 6, 10, 11, 11, 11]);
    for w in starts.windows(2) {
        assert!(w[0] <= w[1]);
    }
}

#[test]
fn lines_past_the_end_give_the_length() {
    let buffer = Buffer::from_str_test("a\nb\n");
    let manager = small_manager(&buffer);
    let mut markers = MarkerList::new();
    assert_eq!(manager.line_to_byte(2, &buffer, &mut markers), 4);
    assert_eq!(manager.line_to_byte(7, &buffer, &mut markers), 4);

    let buffer = Buffer::from_str_test("a\nb");
    let mut markers = MarkerList::new();
    let manager = small_manager(&buffer);
    assert_eq!(manager.line_to_byte(1, &buffer, &mut markers), 2);
    assert_eq!(manager.line_to_byte(2, &buffer, &mut markers), 3);

    let buffer = Buffer::from_str_test("");
    let mut markers = MarkerList::new();
    let manager = small_manager(&buffer);
    assert_eq!(manager.line_to_byte(0, &buffer, &mut markers), 0);
    assert_eq!(manager.line_to_byte(3, &buffer, &mut markers), 0);
}

#[test]
fn repeated_calls_agree_and_keep_anchors() {
    let text = "line\n".repeat(300);
    let buffer = Buffer::from_str_test(&text);
    let manager = small_manager(&buffer);
    let mut markers = MarkerList::new();
    let first = manager.line_to_byte(123, &buffer, &mut markers);
    let snapshot = markers.query_line_anchors(0, usize::MAX);
    let second = manager.line_to_byte(123, &buffer, &mut markers);
    assert_eq!(first, 615);
    assert_eq!(first, second);
    let after = markers.query_line_anchors(0, usize::MAX);
    assert!(after.len() >= snapshot.len());
    assert_eq!(&after[..snapshot.len()], &snapshot[..]);

    let l1 = manager.byte_to_line(777, &buffer, &mut markers);
    let l2 = manager.byte_to_line(777, &buffer, &mut markers);
    assert_eq!(l1, 155);
    assert_eq!(l1, l2);
}

#[test]
fn scanning_records_an_anchor_every_ten_lines() {
    let text = "line\n".repeat(200);
    let buffer = Buffer::from_str_test(&text);
    let manager = small_manager(&buffer);
    let mut markers = MarkerList::new();
    assert_eq!(manager.line_to_byte(50, &buffer, &mut markers), 250);
    let anchors = markers.query_line_anchors(0, buffer.len());
    let lines: Vec<usize> = anchors.iter().map(|a| a.line).collect();
    assert_eq!(lines, vec![0, 10, 20, 30, 40, 50]);
    assert_eq!(anchors[0].confidence, AnchorConfidence::Exact);
    assert_eq!(anchors[1].confidence, AnchorConfidence::Relative(anchors[0].id.0));
    assert_eq!((anchors[5].start, anchors[5].end), (250, 254));
}

#[test]
fn estimate_uses_the_line_count_hint() {
    let text = "x".repeat(100) + "\n";
    let text = text.repeat(1000);
    let buffer = Buffer::from_str(&text, 10);
    let mut manager = LineAnchorManager::new(buffer.len(), 10);
    manager.set_estimated_total_lines(1000);
    let mut markers = MarkerList::new();
    assert_eq!(manager.line_to_byte(500, &buffer, &mut markers), 50500);
    let anchors = markers.query_line_anchors(0, usize::MAX);
    assert_eq!(anchors.len(), 1);
    assert_eq!(anchors[0].confidence, AnchorConfidence::Estimated);
    assert_eq!((anchors[0].start, anchors[0].end, anchors[0].line), (50500, 50600, 500));
}

#[test]
fn estimate_past_the_end_gives_the_length() {
    let text = "ab\n".repeat(10);
    let buffer = Buffer::from_str(&text, 1);
    let manager = LineAnchorManager::new(buffer.len(), 1);
    let mut markers = MarkerList::new();
    assert_eq!(manager.line_to_byte(200, &buffer, &mut markers), 30);
    assert_eq!(markers.len(), 0);
}

#[test]
fn far_byte_is_projected() {
    let text = "y".repeat(9) + "\n";
    let text = text.repeat(3000);
    let buffer = Buffer::from_str(&text, 1);
    let manager = LineAnchorManager::new(buffer.len(), 1);
    let mut markers = MarkerList::new();
    // No anchor yet: the line is projected at 100 bytes per line.
    assert_eq!(manager.byte_to_line(25000, &buffer, &mut markers), 250);
    assert_eq!(markers.len(), 1);
}

#[test]
fn huge_line_count_hint_keeps_a_positive_average() {
    let buffer = Buffer::from_str("abc\ndef\n", 1);
    let mut manager = LineAnchorManager::new(buffer.len(), 1);
    manager.set_estimated_total_lines(1_000_000);
    manager.update_file_size(buffer.len());
    let mut markers = MarkerList::new();
    // The average is 1 byte per line, so byte 5 projects to line 5.
    assert_eq!(manager.byte_to_line(5, &buffer, &mut markers), 5);
    assert_eq!(manager.line_to_byte(5, &buffer, &mut markers), 4);
}

#[test]
fn marker_list_nearest_and_remove() {
    let mut markers = MarkerList::new();
    let a = markers.create_line_anchor(0, 3, 0, AnchorConfidence::Exact).unwrap();
    let b = markers.create_line_anchor(10, 14, 4, AnchorConfidence::Estimated).unwrap();
    let c = markers.create_line_anchor(20, 20, 9, AnchorConfidence::Relative(a.0)).unwrap();
    assert_eq!((a, b, c), (MarkerId(0), MarkerId(1), MarkerId(2)));

    assert_eq!(markers.nearest_line_anchor_before(15).unwrap().id, b);
    assert_eq!(markers.nearest_line_anchor_before(9).unwrap().id, a);
    assert_eq!(markers.nearest_line_anchor_before_line(8).unwrap().id, b);
    assert_eq!(markers.nearest_line_anchor_before_line(9).unwrap().id, c);

    let hits = markers.query_line_anchors(2, 11);
    assert_eq!(hits.iter().map(|x| x.id).collect::<Vec<_>>(), vec![a, b]);
    let hits = markers.query_line_anchors(20, 21);
    assert_eq!(hits.iter().map(|x| x.id).collect::<Vec<_>>(), vec![c]);

    markers.remove_by_id(b);
    markers.remove_by_id(b);
    assert_eq!(markers.len(), 2);
    assert_eq!(markers.nearest_line_anchor_before(15).unwrap().id, a);
    let d = markers.create_line_anchor(5, 6, 1, AnchorConfidence::Exact).unwrap();
    assert_eq!(d, MarkerId(3));
}

#[test]
fn manager_new_without_bytes_and_with_empty_lines() {
    let buffer = Buffer::from_str_test("\n\n\n");
    let manager = small_manager(&buffer);
    let mut markers = MarkerList::new();
    assert_eq!(manager.line_to_byte(2, &buffer, &mut markers), 2);
    assert_eq!(manager.byte_to_line(2, &buffer, &mut markers), 2);
    assert_eq!(manager.byte_to_line(3, &buffer, &mut markers), 3);
}

fn spans(markers: &MarkerList) -> Vec<(u64, usize, usize)> {
    markers.query_line_anchors(0, usize::MAX).iter().map(|a| (a.id.0, a.start, a.end)).collect()
}

fn three_anchors() -> MarkerList {
    let mut markers = MarkerList::new();
    markers.create_line_anchor(0, 3, 0, AnchorConfidence::Exact);
    markers.create_line_anchor(10, 14, 2, AnchorConfidence::Estimated);
    markers.create_line_anchor(20, 20, 4, AnchorConfidence::Exact);
    markers
}

#[test]
fn insertion_shifts_later_offsets() {
    let mut markers = three_anchors();
    markers.adjust_for_insert(10, 5);
    assert_eq!(spans(&markers), vec![(0, 0, 3), (1, 15, 19), (2, 25, 25)]);
    markers.adjust_for_insert(2, 1);
    assert_eq!(spans(&markers), vec![(0, 0, 4), (1, 16, 20), (2, 26, 26)]);
}

#[test]
fn deletion_removes_or_contracts_destroyed_spans() {
    let mut markers = three_anchors();
    markers.adjust_for_delete(9, 6, DeletePolicy::Remove);
    assert_eq!(spans(&markers), vec![(0, 0, 3), (2, 14, 14)]);

    let mut markers = three_anchors();
    markers.adjust_for_delete(9, 6, DeletePolicy::Contract);
    assert_eq!(spans(&markers), vec![(0, 0, 3), (1, 9, 9), (2, 14, 14)]);

    let mut markers = three_anchors();
    markers.adjust_for_delete(1, 11, DeletePolicy::Remove);
    assert_eq!(spans(&markers), vec![(0, 0, 1), (1, 1, 3), (2, 9, 9)]);
}

#[test]
fn jump_in_large_mode_lands_near_the_line() {
    let text = "x".repeat(100) + "\n";
    let text = text.repeat(1000);
    let buffer = Buffer::from_str(&text, 1000);
    let manager = LineAnchorManager::new(buffer.len(), 1000);
    let mut markers = MarkerList::new();
    // Projected at 100 bytes per line: byte 50000 lies on the line starting at 49995.
    let byte = manager.line_to_byte(500, &buffer, &mut markers);
    assert_eq!(byte, 49995);
    assert!((byte as i64 - 500 * 101).abs() < 1000);
    // A second call is answered by the estimated anchor just recorded.
    assert_eq!(manager.line_to_byte(500, &buffer, &mut markers), 49995);
    assert_eq!(markers.len(), 1);
}
