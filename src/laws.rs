//! Laws of line / byte conversion, stated over the exact answers that
//! `LineAnchorManager::line_to_byte` and `LineAnchorManager::byte_to_line` give
//! while their anchors record true lines.
use vstd::prelude::*;
use crate::line_anchor::{
    anchors_sound, byte_in_scan_reach, byte_to_line_post, estimate_anchors, first_at_line,
    first_containing, line_in_scan_reach, line_to_byte_post, starts_sound,
};
use crate::marker::LineAnchor;
use crate::text::{
    lemma_line_of_line_start, lemma_line_of_mono, lemma_line_of_same, lemma_line_start_bounds,
    lemma_line_start_mono, lemma_line_start_saturates, lemma_next_newline, lemma_within_own_line,
    line_count, line_of, line_start, next_newline, NEWLINE,
};

verus! {

/// Round trip: every byte of the text lies in the span of the line it is
/// reported on, from that line's start up to (not including) the next line's start.
pub proof fn lemma_round_trip(t: Seq<u8>, b: int)
    requires
        0 <= b < t.len(),
    ensures
        line_start(t, line_of(t, b)) <= b < line_start(t, line_of(t, b) + 1),
{
    lemma_within_own_line(t, b);
    let n = line_of(t, b);
    lemma_line_start_bounds(t, n);
    lemma_next_newline(t, line_start(t, n));
    assert(line_start(t, n + 1) == if next_newline(t, line_start(t, n)) < t.len() {
        next_newline(t, line_start(t, n)) + 1
    } else {
        t.len() as int
    });
}

/// Monotonicity: a later line never starts before an earlier one.
pub proof fn lemma_monotonic(t: Seq<u8>, line1: nat, line2: nat)
    requires
        line1 < line2,
    ensures
        line_start(t, line1) <= line_start(t, line2),
{
    lemma_line_start_mono(t, line1, line2);
}

/// End-of-file sentinel: every line at or beyond the text's line count starts
/// at the end of the text.
pub proof fn lemma_end_of_file_sentinel(t: Seq<u8>, line: nat)
    requires
        line >= line_count(t),
    ensures
        line_start(t, line) == t.len(),
{
    let len = t.len() as int;
    let n = line_of(t, len);
    let s = line_start(t, n);
    lemma_line_of_line_start(t, n);
    lemma_line_start_bounds(t, n);
    if len > 0 && t[len - 1] != NEWLINE {
        lemma_next_newline(t, s);
        let e = next_newline(t, s);
        if e < len {
            lemma_line_of_same(t, s, e);
            assert(line_of(t, e + 1) == line_of(t, e) + 1);
            lemma_line_of_mono(t, e + 1, len);
        }
        assert(line_start(t, n + 1) == len);
        lemma_line_start_saturates(t, n + 1, line);
    } else {
        if s < len {
            lemma_line_of_mono(t, s, len - 1);
            assert(line_of(t, len) == line_of(t, len - 1) + 1);
        }
        lemma_line_start_saturates(t, n, line);
    }
}

/// Adding anchors never takes away an answer: an anchor found for a line or a
/// byte is still the one found afterwards, and a line or byte within scan reach
/// stays within it. So while the anchors record true lines, repeating a call that
/// was answered exactly gives the same answer again.
pub proof fn lemma_exact_answers_persist(
    before: Seq<LineAnchor>,
    after: Seq<LineAnchor>,
    line: int,
    byte: int,
)
    requires
        before.is_prefix_of(after),
    ensures
        first_at_line(before, line).is_some() ==> first_at_line(after, line) == first_at_line(
            before,
            line,
        ),
        first_containing(before, byte).is_some() ==> first_containing(after, byte)
            == first_containing(before, byte),
        line_in_scan_reach(before, line) ==> line_in_scan_reach(after, line),
        byte_in_scan_reach(before, byte) ==> byte_in_scan_reach(after, byte),
    decreases before.len(),
{
    if line_in_scan_reach(before, line) {
        let i = choose|i: int|
            0 <= i < before.len() && before[i].line <= line && line - before[i].line
                < crate::line_anchor::MAX_SCAN_LINES;
        assert(after[i] == before[i]);
    }
    if byte_in_scan_reach(before, byte) {
        let i = choose|i: int|
            0 <= i < before.len() && before[i].start <= byte && byte - before[i].start
                < crate::line_anchor::MAX_SCAN_BYTES;
        assert(after[i] == before[i]);
    }
    if before.len() > 0 {
        assert(after[0] == before[0]);
        assert(before.drop_first().is_prefix_of(after.drop_first())) by {
            assert forall|k: int| 0 <= k < before.drop_first().len() implies before.drop_first()[k]
                == after.drop_first()[k] by {
                assert(before[k + 1] == after[k + 1]);
            }
            assert(before.drop_first() =~= after.drop_first().subrange(
                0,
                before.drop_first().len() as int,
            ));
        }
        lemma_exact_answers_persist(before.drop_first(), after.drop_first(), line, byte);
    }
}

proof fn lemma_first_at_line_member(s: Seq<LineAnchor>, n: int)
    ensures
        first_at_line(s, n) matches Some(a) ==> s.contains(a) && a.line == n,
    decreases s.len(),
{
    if s.len() > 0 && s[0].line != n {
        lemma_first_at_line_member(s.drop_first(), n);
        if let Some(a) = first_at_line(s.drop_first(), n) {
            let i = choose|i: int| 0 <= i < s.drop_first().len() && s.drop_first()[i] == a;
            assert(s[i + 1] == a);
        }
    }
}

proof fn lemma_first_at_line_push(s: Seq<LineAnchor>, x: LineAnchor, n: int)
    requires
        first_at_line(s, n) is None,
        x.line == n,
    ensures
        first_at_line(s.push(x), n) == Some(x),
    decreases s.len(),
{
    if s.len() > 0 {
        assert(s.push(x)[0] == s[0]);
        assert(s.push(x).drop_first() == s.drop_first().push(x));
        lemma_first_at_line_push(s.drop_first(), x, n);
    } else {
        assert(s.push(x)[0] == x);
    }
}

/// Idempotence of `line_to_byte`: asked twice for the same line with no edit in
/// between, it gives the same answer, and the anchors of the first state stay
/// where they were. This holds whenever the first answer comes from a recorded
/// anchor or a projection, and whenever every anchor starts where its line starts.
pub proof fn lemma_line_to_byte_idempotent(
    t: Seq<u8>,
    small: bool,
    avg: int,
    m0: Seq<LineAnchor>,
    m1: Seq<LineAnchor>,
    m2: Seq<LineAnchor>,
    n: int,
    r1: int,
    r2: int,
    id1: int,
    id2: int,
)
    requires
        0 <= n <= usize::MAX,
        avg >= 1,
        t.len() <= usize::MAX,
        line_to_byte_post(t, small, avg, m0, n, m1, r1, id1),
        line_to_byte_post(t, small, avg, m1, n, m2, r2, id2),
        first_at_line(m0, n) is Some || starts_sound(t, m0) || (!small && !line_in_scan_reach(
            m0,
            n,
        )),
    ensures
        r1 == r2,
        m0.is_prefix_of(m2),
{
    assert(m0.is_prefix_of(m2)) by {
        assert forall|i: int| 0 <= i < m0.len() implies m0[i] == m2[i] by {
            assert(m0[i] == m1[i]);
            assert(m1[i] == m2[i]);
        }
        assert(m0 =~= m2.subrange(0, m0.len() as int));
    }
    if first_at_line(m0, n) is Some {
    } else if small || line_in_scan_reach(m0, n) {
        lemma_exact_answers_persist(m0, m1, n, 0);
        lemma_first_at_line_member(m1, n);
        if let Some(a) = first_at_line(m1, n) {
            let i = choose|i: int| 0 <= i < m1.len() && m1[i] == a;
            assert(m1[i].start == line_start(t, m1[i].line as nat));
        }
    } else {
        let added = estimate_anchors(t, n, avg, id1);
        if added.len() > 0 {
            assert(0 <= n * avg) by (nonlinear_arith)
                requires
                    n >= 0,
                    avg >= 1,
            ;
            crate::text::lemma_prev_line_start(t, n * avg);
            assert(m1 == m0.push(added[0]));
            lemma_first_at_line_push(m0, added[0], n);
        } else {
            assert(m1 == m0 + added);
            assert(m1 =~= m0);
        }
    }
}

/// Idempotence of `byte_to_line`: asked twice for the same byte with no edit in
/// between, it gives the same answer, and the anchors of the first state stay
/// where they were. This holds whenever the first answer comes from an anchor
/// holding the byte, or from a scan over anchors that record true lines.
pub proof fn lemma_byte_to_line_idempotent(
    t: Seq<u8>,
    avg: int,
    m0: Seq<LineAnchor>,
    m1: Seq<LineAnchor>,
    m2: Seq<LineAnchor>,
    b: int,
    r1: int,
    r2: int,
    id1: int,
    id2: int,
)
    requires
        byte_to_line_post(t, avg, m0, b, m1, r1, id1),
        byte_to_line_post(t, avg, m1, b, m2, r2, id2),
        first_containing(m0, b) is Some || (anchors_sound(t, m0) && byte_in_scan_reach(m0, b)),
    ensures
        r1 == r2,
        m0.is_prefix_of(m2),
{
    assert(m0.is_prefix_of(m2)) by {
        assert forall|i: int| 0 <= i < m0.len() implies m0[i] == m2[i] by {
            assert(m0[i] == m1[i]);
            assert(m1[i] == m2[i]);
        }
        assert(m0 =~= m2.subrange(0, m0.len() as int));
    }
    if first_containing(m0, b) is None {
        lemma_exact_answers_persist(m0, m1, 0, b);
    }
}

} // verus!
