//! Line anchors for line number / byte offset conversion that scales to huge
//! files: exact anchors near the start, relative anchors every few lines along
//! scanned paths, and estimated anchors for long jumps.
use vstd::prelude::*;
use crate::buffer::Buffer;
use crate::marker::{AnchorConfidence, LineAnchor, MarkerId, MarkerList};
use crate::text::{
    lemma_line_of_mono, lemma_line_of_same, lemma_line_start_saturates, lemma_next_newline,
    line_of, line_start,
    next_newline, prev_line_start, NEWLINE,
};

verus! {

/// A scan from an anchor covers at most this many lines.
pub const MAX_SCAN_LINES: usize = 100;

/// A scan from an anchor covers fewer than this many bytes.
pub const MAX_SCAN_BYTES: usize = 10000;

/// A relative anchor is recorded on each line whose number is a multiple of this.
pub const ANCHOR_SPACING: usize = 10;

/// The line length assumed before anything is known about the file.
pub const DEFAULT_LINE_LENGTH: usize = 100;

/// The anchor records the true start, line number and end of one line of `t`.
pub open spec fn anchor_sound(t: Seq<u8>, a: LineAnchor) -> bool {
    &&& a.start == line_start(t, a.line as nat)
    &&& line_of(t, a.start as int) == a.line
    &&& a.end == next_newline(t, a.start as int)
}

/// Every anchor records a true line of `t`.
pub open spec fn anchors_sound(t: Seq<u8>, s: Seq<LineAnchor>) -> bool {
    forall|i: int| 0 <= i < s.len() ==> anchor_sound(t, #[trigger] s[i])
}

/// No anchor reaches past byte `len`.
pub open spec fn anchors_within(s: Seq<LineAnchor>, len: int) -> bool {
    forall|i: int| 0 <= i < s.len() ==> #[trigger] s[i].end <= len
}

/// The first anchor recorded for line `n`.
pub open spec fn first_at_line(s: Seq<LineAnchor>, n: int) -> Option<LineAnchor>
    decreases s.len(),
{
    if s.len() == 0 {
        None
    } else if s[0].line == n {
        Some(s[0])
    } else {
        first_at_line(s.drop_first(), n)
    }
}

/// The first anchor whose span holds byte `b`.
pub open spec fn first_containing(s: Seq<LineAnchor>, b: int) -> Option<LineAnchor>
    decreases s.len(),
{
    if s.len() == 0 {
        None
    } else if crate::marker::overlaps(s[0], b, b + 1) {
        Some(s[0])
    } else {
        first_containing(s.drop_first(), b)
    }
}

/// Some anchor starts at or before `b`, fewer than `MAX_SCAN_BYTES` bytes before it.
pub open spec fn byte_in_scan_reach(s: Seq<LineAnchor>, b: int) -> bool {
    exists|i: int| 0 <= i < s.len() && s[i].start <= b && b - s[i].start < MAX_SCAN_BYTES
}

/// Some anchor is recorded at or before line `n`, fewer than `MAX_SCAN_LINES` lines before it.
pub open spec fn line_in_scan_reach(s: Seq<LineAnchor>, n: int) -> bool {
    exists|i: int| 0 <= i < s.len() && s[i].line <= n && n - s[i].line < MAX_SCAN_LINES
}

/// The projected start of line `n` at `avg` bytes per line: the start of the line
/// holding byte `n * avg`, or `len` of `t` when that byte lies past its end.
pub open spec fn estimated_line_start(t: Seq<u8>, n: int, avg: int) -> int {
    if n * avg >= t.len() {
        t.len() as int
    } else {
        prev_line_start(t, n * avg)
    }
}

/// The position reached from `p` by passing `k` newlines: just after the `k`-th
/// newline at or after `p`, or `t.len()` when there are fewer.
pub open spec fn advance_lines(t: Seq<u8>, p: int, k: nat) -> int
    decreases k,
{
    if k == 0 {
        p
    } else {
        let e = next_newline(t, p);
        if e < t.len() {
            advance_lines(t, e + 1, (k - 1) as nat)
        } else {
            t.len() as int
        }
    }
}

/// The relative anchors recorded while passing `k` newlines forward from `p`,
/// which lies on line `line`: one on each line whose number is a multiple of
/// `ANCHOR_SPACING`, spanning that line, with identities counted up from `id`.
pub open spec fn line_scan_anchors(
    t: Seq<u8>,
    p: int,
    line: int,
    k: nat,
    parent: u64,
    id: int,
) -> Seq<LineAnchor>
    decreases k,
{
    if k == 0 {
        Seq::empty()
    } else {
        let e = next_newline(t, p);
        if e < t.len() {
            let here = if (line + 1) % (ANCHOR_SPACING as int) == 0 {
                seq![
                    LineAnchor {
                        id: MarkerId(id as u64),
                        start: (e + 1) as usize,
                        end: next_newline(t, e + 1) as usize,
                        line: (line + 1) as usize,
                        confidence: AnchorConfidence::Relative(parent),
                    },
                ]
            } else {
                Seq::empty()
            };
            here + line_scan_anchors(t, e + 1, line + 1, (k - 1) as nat, parent, id + here.len())
        } else {
            Seq::empty()
        }
    }
}

/// The estimated anchor recorded for line `n` at `avg` bytes per line, given
/// the next identity `id`: none when the projection lies past the end of `t` or
/// identities have run out.
pub open spec fn estimate_anchors(t: Seq<u8>, n: int, avg: int, id: int) -> Seq<LineAnchor> {
    if n * avg >= t.len() || id >= u64::MAX {
        Seq::empty()
    } else {
        seq![
            LineAnchor {
                id: MarkerId(id as u64),
                start: prev_line_start(t, n * avg) as usize,
                end: next_newline(t, n * avg) as usize,
                line: n as usize,
                confidence: AnchorConfidence::Estimated,
            },
        ]
    }
}

/// Every anchor starts where its line starts.
pub open spec fn starts_sound(t: Seq<u8>, s: Seq<LineAnchor>) -> bool {
    forall|i: int| 0 <= i < s.len() ==> #[trigger] s[i].start == line_start(t, s[i].line as nat)
}

/// Passing `d` newlines from the start of line `n` reaches the start of line `n + d`.
pub proof fn lemma_advance_line_start(t: Seq<u8>, n: nat, d: nat)
    ensures
        advance_lines(t, line_start(t, n), d) == line_start(t, n + d),
    decreases d,
{
    if d > 0 {
        let e = next_newline(t, line_start(t, n));
        if e < t.len() {
            lemma_advance_line_start(t, n + 1, (d - 1) as nat);
        } else {
            assert(line_start(t, n + 1) == t.len());
            lemma_line_start_saturates(t, n + 1, n + d);
        }
    }
}

/// `a` is a nearest anchor of `s` at or before line `n`: no anchor at or before
/// `n` is on a later line.
pub open spec fn nearest_by_line(s: Seq<LineAnchor>, a: LineAnchor, n: int) -> bool {
    &&& s.contains(a)
    &&& a.line <= n
    &&& forall|j: int| 0 <= j < s.len() && s[j].line <= n ==> s[j].line <= a.line
}

/// `a` is a nearest anchor of `s` starting at or before byte `b`: no anchor
/// starting at or before `b` starts later.
pub open spec fn nearest_by_start(s: Seq<LineAnchor>, a: LineAnchor, b: int) -> bool {
    &&& s.contains(a)
    &&& a.start <= b
    &&& forall|j: int| 0 <= j < s.len() && s[j].start <= b ==> s[j].start <= a.start
}

/// The exact anchor recorded for line 0 of `t` with identity `id`.
pub open spec fn line_zero_anchor(t: Seq<u8>, id: int) -> LineAnchor {
    LineAnchor {
        id: MarkerId(id as u64),
        start: 0,
        end: next_newline(t, 0) as usize,
        line: 0,
        confidence: AnchorConfidence::Exact,
    }
}

/// What `LineAnchorManager::line_to_byte` promises when it answers `r` for line
/// `n` over text `t`, turning the anchors `before` into `after`; `small` tells
/// small-file mode, `avg` is the average line length and `id` the next identity.
///
/// An anchor recorded for the line answers directly. In small-file mode the
/// answer is a scan of `n` lines from a nearest anchor on line 0, or else from
/// byte 0 after recording an exact anchor for line 0. Otherwise it is a scan
/// from a nearest anchor fewer than `MAX_SCAN_LINES` lines back, or else a
/// projection recorded as an estimated anchor. While every anchor starts where
/// its line starts, every answer but a projection is the line's true start.
pub open spec fn line_to_byte_post(
    t: Seq<u8>,
    small: bool,
    avg: int,
    before: Seq<LineAnchor>,
    n: int,
    after: Seq<LineAnchor>,
    r: int,
    id: int,
) -> bool {
    let found = first_at_line(before, n) is Some;
    let zero_nearest = exists|a: LineAnchor| nearest_by_line(before, a, n) && a.line == 0;
    &&& before.is_prefix_of(after)
    &&& first_at_line(before, n) matches Some(a) ==> r == a.start && after == before
    &&& !found && small && zero_nearest ==> exists|a: LineAnchor|
        nearest_by_line(before, a, n) && a.line == 0 && r == advance_lines(t, a.start as int, n as nat)
            && (id + n < u64::MAX ==> after == before + line_scan_anchors(
            t,
            a.start as int,
            0,
            n as nat,
            a.id.0,
            id,
        ))
    &&& !found && small && !zero_nearest ==> r == advance_lines(t, 0, n as nat) && (id + n + 1
        < u64::MAX ==> after == before.push(line_zero_anchor(t, id)) + line_scan_anchors(
        t,
        0,
        0,
        n as nat,
        id as u64,
        id + 1,
    ))
    &&& !found && !small && line_in_scan_reach(before, n) ==> exists|a: LineAnchor|
        nearest_by_line(before, a, n) && n - a.line < MAX_SCAN_LINES && r == advance_lines(
            t,
            a.start as int,
            (n - a.line) as nat,
        ) && (id + (n - a.line) < u64::MAX ==> after == before + line_scan_anchors(
            t,
            a.start as int,
            a.line as int,
            (n - a.line) as nat,
            a.id.0,
            id,
        ))
    &&& !found && !small && !line_in_scan_reach(before, n) ==> r == estimated_line_start(t, n, avg)
        && after == before + estimate_anchors(t, n, avg, id)
    &&& starts_sound(t, before) && (found || small || line_in_scan_reach(before, n)) ==> r
        == line_start(t, n as nat) && starts_sound(t, after)
    &&& anchors_sound(t, before) && (found || small || line_in_scan_reach(before, n))
        ==> anchors_sound(t, after)
}

/// What `LineAnchorManager::byte_to_line` promises when it answers `r` for byte
/// `b` over text `t`, turning the anchors `before` into `after`; `avg` is the
/// average line length and `id` the next identity.
///
/// An anchor holding the byte answers directly. Otherwise the answer counts the
/// newlines from a nearest anchor starting fewer than `MAX_SCAN_BYTES` bytes
/// before `b`, or else is the projection `b / avg`, recorded as an estimated
/// anchor. While every anchor records a true line, every answer but a
/// projection is the true line.
pub open spec fn byte_to_line_post(
    t: Seq<u8>,
    avg: int,
    before: Seq<LineAnchor>,
    b: int,
    after: Seq<LineAnchor>,
    r: int,
    id: int,
) -> bool {
    let found = first_containing(before, b) is Some;
    &&& before.is_prefix_of(after)
    &&& first_containing(before, b) matches Some(a) ==> r == a.line && after == before
    &&& !found && byte_in_scan_reach(before, b) ==> exists|a: LineAnchor|
        nearest_by_start(before, a, b) && b - a.start < MAX_SCAN_BYTES && (a.line + (b - a.start)
            <= usize::MAX ==> r == a.line + line_of(t, b) - line_of(t, a.start as int) && (id + (b
            - a.start) < u64::MAX ==> after == before + line_scan_anchors(
            t,
            a.start as int,
            a.line as int,
            (line_of(t, b) - line_of(t, a.start as int)) as nat,
            a.id.0,
            id,
        ))) && (a.line + (b - a.start) > usize::MAX ==> r == b / avg && after == before
            + estimate_anchors(t, b / avg, avg, id))
    &&& !found && !byte_in_scan_reach(before, b) ==> r == b / avg && after == before
        + estimate_anchors(t, b / avg, avg, id)
    &&& anchors_sound(t, before) && (found || byte_in_scan_reach(before, b)) ==> r == line_of(t, b)
        && anchors_sound(t, after)
}

proof fn lemma_sound_push(t: Seq<u8>, s: Seq<LineAnchor>, a: LineAnchor)
    requires
        anchors_sound(t, s),
        anchor_sound(t, a),
    ensures
        anchors_sound(t, s.push(a)),
{
    assert forall|i: int| 0 <= i < s.push(a).len() implies anchor_sound(t, #[trigger] s.push(a)[i]) by {
        if i < s.len() {
            assert(s.push(a)[i] == s[i]);
        }
    }
}

proof fn lemma_within_push(s: Seq<LineAnchor>, a: LineAnchor, len: int)
    requires
        anchors_within(s, len),
        a.end <= len,
    ensures
        anchors_within(s.push(a), len),
{
    assert forall|i: int| 0 <= i < s.push(a).len() implies #[trigger] s.push(a)[i].end <= len by {
        if i < s.len() {
            assert(s.push(a)[i] == s[i]);
        }
    }
}

proof fn lemma_member_within(markers: &MarkerList, a: LineAnchor, len: int)
    requires
        markers.wf(),
        anchors_within(markers@, len),
        markers@.contains(a),
    ensures
        a.start <= a.end <= len,
{
    let i = choose|i: int| 0 <= i < markers@.len() && markers@[i] == a;
    assert(markers@[i].id.0 < markers.spec_next_id());
    assert(markers@[i].end <= len);
}

/// Manages line anchors for line number / byte offset conversion.
pub struct LineAnchorManager {
    /// Estimated total lines in the file, from a hint or from the file size.
    estimated_total_lines: Option<usize>,
    /// File size in bytes.
    file_size: usize,
    /// Average line length in bytes; never 0.
    avg_line_length: usize,
    /// Files below this size are always resolved exactly from line 0.
    large_file_threshold: usize,
}

impl LineAnchorManager {
    pub closed spec fn spec_estimated_total_lines(&self) -> Option<usize> {
        self.estimated_total_lines
    }

    pub closed spec fn spec_file_size(&self) -> usize {
        self.file_size
    }

    pub closed spec fn spec_avg_line_length(&self) -> usize {
        self.avg_line_length
    }

    pub closed spec fn spec_large_file_threshold(&self) -> usize {
        self.large_file_threshold
    }

    /// The average line length is positive.
    pub open spec fn wf(&self) -> bool {
        self.spec_avg_line_length() >= 1
    }

    /// Small-file mode: every line is resolved by scanning from line 0.
    pub open spec fn is_small_file(&self) -> bool {
        self.spec_file_size() < self.spec_large_file_threshold()
    }

    /// Creates a manager for a file of `file_size` bytes, assuming lines of
    /// `DEFAULT_LINE_LENGTH` bytes.
    pub fn new(file_size: usize, large_file_threshold: usize) -> (r: Self)
        ensures
            r.wf(),
            r.spec_file_size() == file_size,
            r.spec_large_file_threshold() == large_file_threshold,
            r.spec_avg_line_length() == DEFAULT_LINE_LENGTH,
            r.spec_estimated_total_lines() == if file_size > 0 {
                Some((file_size / DEFAULT_LINE_LENGTH) as usize)
            } else {
                None
            },
    {
        let avg_line_length = DEFAULT_LINE_LENGTH;
        let estimated_total_lines = if file_size > 0 {
            Some(file_size / avg_line_length)
        } else {
            None
        };
        LineAnchorManager { estimated_total_lines, file_size, avg_line_length, large_file_threshold }
    }

    /// Records a new file size (after edits); an existing line estimate is
    /// recomputed from it.
    pub fn update_file_size(&mut self, new_size: usize)
        requires
            old(self).wf(),
        ensures
            final(self).wf(),
            final(self).spec_file_size() == new_size,
            final(self).spec_avg_line_length() == old(self).spec_avg_line_length(),
            final(self).spec_large_file_threshold() == old(self).spec_large_file_threshold(),
            final(self).spec_estimated_total_lines() == if old(
                self,
            ).spec_estimated_total_lines().is_some() {
                Some((new_size / old(self).spec_avg_line_length()) as usize)
            } else {
                None
            },
    {
        self.file_size = new_size;
        if self.estimated_total_lines.is_some() {
            self.estimated_total_lines = Some(new_size / self.avg_line_length);
        }
    }

    /// Records a line count (from language tooling or elsewhere); when both it
    /// and the file size are positive, the average line length becomes
    /// `file_size / lines`, and at least 1.
    pub fn set_estimated_total_lines(&mut self, lines: usize)
        requires
            old(self).wf(),
        ensures
            final(self).wf(),
            final(self).spec_estimated_total_lines() == Some(lines),
            final(self).spec_file_size() == old(self).spec_file_size(),
            final(self).spec_large_file_threshold() == old(self).spec_large_file_threshold(),
            final(self).spec_avg_line_length() == if lines > 0 && old(self).spec_file_size() > 0 {
                if old(self).spec_file_size() / lines >= 1 {
                    (old(self).spec_file_size() / lines) as usize
                } else {
                    1
                }
            } else {
                old(self).spec_avg_line_length()
            },
    {
        self.estimated_total_lines = Some(lines);
        if lines > 0 && self.file_size > 0 {
            let avg = self.file_size / lines;
            self.avg_line_length = if avg >= 1 {
                avg
            } else {
                1
            };
        }
    }

    /// Start of the line holding `from_byte`, found by looking back through
    /// windows of `avg_line_length` bytes.
    fn scan_to_prev_newline(&self, buffer: &Buffer, from_byte: usize) -> (r: usize)
        requires
            self.wf(),
            from_byte <= buffer@.len(),
        ensures
            r == prev_line_start(buffer@, from_byte as int),
    {
        if from_byte == 0 {
            return 0;
        }
        let mut pos = from_byte;
        loop
            invariant
                self.wf(),
                0 < pos <= from_byte <= buffer@.len(),
                prev_line_start(buffer@, from_byte as int) == prev_line_start(buffer@, pos as int),
            decreases pos,
        {
            let search_start = if pos > self.avg_line_length {
                pos - self.avg_line_length
            } else {
                0
            };
            let mut i = pos;
            while i > search_start
                invariant
                    search_start <= i <= pos <= buffer@.len(),
                    prev_line_start(buffer@, from_byte as int) == prev_line_start(
                        buffer@,
                        i as int,
                    ),
                decreases i,
            {
                if buffer.byte_at(i - 1) == NEWLINE {
                    return i;
                }
                i = i - 1;
            }
            if search_start == 0 {
                return 0;
            }
            pos = search_start;
        }
    }

    /// First newline at or after `from_byte`, or the buffer's length, found by
    /// looking ahead through windows of `avg_line_length` bytes.
    fn scan_to_next_newline(&self, buffer: &Buffer, from_byte: usize) -> (r: usize)
        requires
            self.wf(),
            from_byte <= buffer@.len(),
        ensures
            r == next_newline(buffer@, from_byte as int),
    {
        let len = buffer.len();
        let mut pos = from_byte;
        loop
            invariant
                self.wf(),
                from_byte <= pos <= len,
                len == buffer@.len(),
                next_newline(buffer@, from_byte as int) == next_newline(buffer@, pos as int),
            decreases len - pos,
        {
            let search_end = if len - pos > self.avg_line_length {
                pos + self.avg_line_length
            } else {
                len
            };
            let mut i = pos;
            while i < search_end
                invariant
                    pos <= i <= search_end <= len,
                    len == buffer@.len(),
                    next_newline(buffer@, from_byte as int) == next_newline(buffer@, i as int),
                decreases search_end - i,
            {
                if buffer.byte_at(i) == NEWLINE {
                    return i;
                }
                i = i + 1;
            }
            if search_end == len {
                return len;
            }
            pos = search_end;
        }
    }

    /// Walks `n_lines` lines forward from `start_byte`, which lies on line
    /// `start_line`, recording a relative anchor on every `ANCHOR_SPACING`-th line.
    /// Returns where the walk ends, or the buffer's length when the text runs out.
    fn scan_forward_n_lines(
        &self,
        buffer: &Buffer,
        markers: &mut MarkerList,
        parent_anchor_id: MarkerId,
        start_byte: usize,
        start_line: usize,
        n_lines: usize,
    ) -> (r: usize)
        requires
            self.wf(),
            old(markers).wf(),
            anchors_within(old(markers)@, buffer@.len() as int),
            start_byte <= buffer@.len(),
            start_line + n_lines <= usize::MAX,
        ensures
            final(markers).wf(),
            anchors_within(final(markers)@, buffer@.len() as int),
            old(markers)@.is_prefix_of(final(markers)@),
            r <= buffer@.len(),
            r == advance_lines(buffer@, start_byte as int, n_lines as nat),
            old(markers).spec_next_id() + n_lines < u64::MAX ==> final(markers)@ == old(markers)@
                + line_scan_anchors(
                buffer@,
                start_byte as int,
                start_line as int,
                n_lines as nat,
                parent_anchor_id.0,
                old(markers).spec_next_id() as int,
            ),
            start_byte == line_start(buffer@, start_line as nat) ==> (starts_sound(
                buffer@,
                old(markers)@,
            ) ==> starts_sound(buffer@, final(markers)@)),
            start_byte == line_start(buffer@, start_line as nat) && line_of(
                buffer@,
                start_byte as int,
            ) == start_line ==> r == line_start(buffer@, (start_line + n_lines) as nat) && (
            anchors_sound(buffer@, old(markers)@) ==> anchors_sound(buffer@, final(markers)@)),
    {
        let ghost t = buffer@;
        let ghost exact = start_byte == line_start(t, start_line as nat) && line_of(
            t,
            start_byte as int,
        ) == start_line;
        let ghost was_sound = anchors_sound(t, old(markers)@);
        let ghost sexact = start_byte == line_start(t, start_line as nat);
        let ghost starts_was = starts_sound(t, old(markers)@);
        let ghost id0 = old(markers).spec_next_id() as int;
        let ghost ids_ok = id0 + n_lines < u64::MAX;
        let ghost full = line_scan_anchors(
            t,
            start_byte as int,
            start_line as int,
            n_lines as nat,
            parent_anchor_id.0,
            id0,
        );
        let len = buffer.len();
        let mut current_byte = start_byte;
        let mut current_line = start_line;
        let mut k: usize = 0;
        while k < n_lines
            invariant
                self.wf(),
                t == buffer@,
                exact == (start_byte == line_start(t, start_line as nat) && line_of(
                    t,
                    start_byte as int,
                ) == start_line),
                was_sound == anchors_sound(t, old(markers)@),
                sexact == (start_byte == line_start(t, start_line as nat)),
                starts_was == starts_sound(t, old(markers)@),
                id0 == old(markers).spec_next_id() as int,
                ids_ok == (id0 + n_lines < u64::MAX),
                full == line_scan_anchors(
                    t,
                    start_byte as int,
                    start_line as int,
                    n_lines as nat,
                    parent_anchor_id.0,
                    id0,
                ),
                advance_lines(t, start_byte as int, n_lines as nat) == advance_lines(
                    t,
                    current_byte as int,
                    (n_lines - k) as nat,
                ),
                ids_ok ==> markers.spec_next_id() <= id0 + k && markers@ + line_scan_anchors(
                    t,
                    current_byte as int,
                    current_line as int,
                    (n_lines - k) as nat,
                    parent_anchor_id.0,
                    markers.spec_next_id() as int,
                ) == old(markers)@ + full,
                sexact ==> current_byte == line_start(t, current_line as nat) && (starts_was
                    ==> starts_sound(t, markers@)),
                len == t.len(),
                markers.wf(),
                anchors_within(markers@, len as int),
                old(markers)@.is_prefix_of(markers@),
                k <= n_lines,
                current_line == start_line + k,
                start_line + n_lines <= usize::MAX,
                current_byte <= len,
                exact ==> current_byte == line_start(t, current_line as nat) && line_of(
                    t,
                    current_byte as int,
                ) == current_line && (was_sound ==> anchors_sound(t, markers@)),
            decreases n_lines - k,
        {
            let line_end = self.scan_to_next_newline(buffer, current_byte);
            proof {
                lemma_next_newline(t, current_byte as int);
            }
            if line_end >= len {
                proof {
                    if exact {
                        assert(line_start(t, (current_line + 1) as nat) == len);
                        lemma_line_start_saturates(
                            t,
                            (current_line + 1) as nat,
                            (start_line + n_lines) as nat,
                        );
                    }
                    if ids_ok {
                        assert(markers@ + Seq::<LineAnchor>::empty() == markers@);
                    }
                }
                return len;
            }
            proof {
                lemma_line_of_same(t, current_byte as int, line_end as int);
                assert(line_of(t, line_end + 1) == line_of(t, line_end as int) + 1);
            }
            let ghost rem = (n_lines - k) as nat;
            let ghost cur0 = current_byte as int;
            let ghost line0 = current_line as int;
            let ghost mid = markers@;
            let ghost nid = markers.spec_next_id() as int;
            current_byte = line_end + 1;
            current_line = current_line + 1;
            if current_line % ANCHOR_SPACING == 0 {
                let next_line_end = self.scan_to_next_newline(buffer, current_byte);
                proof {
                    lemma_next_newline(t, current_byte as int);
                }
                let ghost before = markers@;
                let _ = markers.create_line_anchor(
                    current_byte,
                    next_line_end,
                    current_line,
                    AnchorConfidence::Relative(parent_anchor_id.0),
                );
                proof {
                    if markers@ != before {
                        let a = markers@.last();
                        assert(markers@ == before.push(a));
                        lemma_within_push(before, a, len as int);
                        if exact && was_sound {
                            lemma_sound_push(t, before, a);
                        }
                        if sexact && starts_was {
                            assert forall|j: int| 0 <= j < markers@.len() implies #[trigger] markers@[j].start
                                == line_start(t, markers@[j].line as nat) by {
                                if j < before.len() {
                                    assert(markers@[j] == before[j]);
                                }
                            }
                        }
                    }
                }
            }
            proof {
                let here = if (line0 + 1) % (ANCHOR_SPACING as int) == 0 {
                    seq![
                        LineAnchor {
                            id: MarkerId(nid as u64),
                            start: (line_end + 1) as usize,
                            end: next_newline(t, line_end + 1) as usize,
                            line: (line0 + 1) as usize,
                            confidence: AnchorConfidence::Relative(parent_anchor_id.0),
                        },
                    ]
                } else {
                    Seq::empty()
                };
                assert(line_scan_anchors(t, cur0, line0, rem, parent_anchor_id.0, nid) == here
                    + line_scan_anchors(
                    t,
                    current_byte as int,
                    current_line as int,
                    (rem - 1) as nat,
                    parent_anchor_id.0,
                    nid + here.len(),
                ));
                if ids_ok {
                    assert(markers@ == mid + here);
                    assert(markers.spec_next_id() == nid + here.len());
                    assert(mid + line_scan_anchors(t, cur0, line0, rem, parent_anchor_id.0, nid)
                        == markers@ + line_scan_anchors(
                        t,
                        current_byte as int,
                        current_line as int,
                        (rem - 1) as nat,
                        parent_anchor_id.0,
                        nid + here.len(),
                    ));
                }
            }
            k = k + 1;
        }
        proof {
            if ids_ok {
                assert(markers@ + Seq::<LineAnchor>::empty() == markers@);
            }
        }
        current_byte
    }

    /// Walks forward from `start_byte`, which lies on line `start_line`, counting
    /// the newlines before `target_byte` and recording a relative anchor on every
    /// `ANCHOR_SPACING`-th line. Returns `start_line` plus that count.
    fn scan_forward_to_byte(
        &self,
        buffer: &Buffer,
        markers: &mut MarkerList,
        parent_anchor_id: MarkerId,
        start_byte: usize,
        start_line: usize,
        target_byte: usize,
    ) -> (r: usize)
        requires
            self.wf(),
            old(markers).wf(),
            anchors_within(old(markers)@, buffer@.len() as int),
            start_byte <= target_byte <= buffer@.len(),
            start_line + (target_byte - start_byte) <= usize::MAX,
        ensures
            final(markers).wf(),
            anchors_within(final(markers)@, buffer@.len() as int),
            old(markers)@.is_prefix_of(final(markers)@),
            r == start_line + line_of(buffer@, target_byte as int) - line_of(
                buffer@,
                start_byte as int,
            ),
            old(markers).spec_next_id() + (target_byte - start_byte) < u64::MAX ==> final(markers)@
                == old(markers)@ + line_scan_anchors(
                buffer@,
                start_byte as int,
                start_line as int,
                (line_of(buffer@, target_byte as int) - line_of(buffer@, start_byte as int)) as nat,
                parent_anchor_id.0,
                old(markers).spec_next_id() as int,
            ),
            start_byte == line_start(buffer@, start_line as nat) && line_of(
                buffer@,
                start_byte as int,
            ) == start_line ==> r == line_of(buffer@, target_byte as int) && (anchors_sound(
                buffer@,
                old(markers)@,
            ) ==> anchors_sound(buffer@, final(markers)@)),
    {
        let ghost t = buffer@;
        let ghost exact = start_byte == line_start(t, start_line as nat) && line_of(
            t,
            start_byte as int,
        ) == start_line;
        let ghost was_sound = anchors_sound(t, old(markers)@);
        let ghost id0 = old(markers).spec_next_id() as int;
        let ghost ids_ok = id0 + (target_byte - start_byte) < u64::MAX;
        let ghost full = line_scan_anchors(
            t,
            start_byte as int,
            start_line as int,
            (line_of(t, target_byte as int) - line_of(t, start_byte as int)) as nat,
            parent_anchor_id.0,
            id0,
        );
        proof {
            lemma_line_of_mono(t, start_byte as int, target_byte as int);
        }
        let len = buffer.len();
        let mut current_byte = start_byte;
        let mut current_line = start_line;
        while current_byte < target_byte
            invariant
                self.wf(),
                t == buffer@,
                exact == (start_byte == line_start(t, start_line as nat) && line_of(
                    t,
                    start_byte as int,
                ) == start_line),
                was_sound == anchors_sound(t, old(markers)@),
                id0 == old(markers).spec_next_id() as int,
                ids_ok == (id0 + (target_byte - start_byte) < u64::MAX),
                full == line_scan_anchors(
                    t,
                    start_byte as int,
                    start_line as int,
                    (line_of(t, target_byte as int) - line_of(t, start_byte as int)) as nat,
                    parent_anchor_id.0,
                    id0,
                ),
                current_line == start_line + line_of(t, current_byte as int) - line_of(
                    t,
                    start_byte as int,
                ),
                line_of(t, current_byte as int) <= line_of(t, target_byte as int),
                ids_ok ==> markers.spec_next_id() <= id0 + (current_line - start_line)
                    && markers@ + line_scan_anchors(
                    t,
                    current_byte as int,
                    current_line as int,
                    (line_of(t, target_byte as int) - line_of(t, current_byte as int)) as nat,
                    parent_anchor_id.0,
                    markers.spec_next_id() as int,
                ) == old(markers)@ + full,
                len == t.len(),
                markers.wf(),
                anchors_within(markers@, len as int),
                old(markers)@.is_prefix_of(markers@),
                start_byte <= current_byte <= target_byte <= len,
                start_line <= current_line,
                current_line - start_line <= current_byte - start_byte,
                start_line + (target_byte - start_byte) <= usize::MAX,
                exact ==> current_byte == line_start(t, current_line as nat) && line_of(
                    t,
                    current_byte as int,
                ) == current_line && (was_sound ==> anchors_sound(t, markers@)),
            ensures
                current_line == start_line + line_of(t, target_byte as int) - line_of(
                    t,
                    start_byte as int,
                ),
                ids_ok ==> markers@ == old(markers)@ + full,
                markers.wf(),
                anchors_within(markers@, len as int),
                old(markers)@.is_prefix_of(markers@),
                exact ==> current_line == line_of(t, target_byte as int) && (was_sound
                    ==> anchors_sound(t, markers@)),
            decreases target_byte - current_byte,
        {
            let line_end = self.scan_to_next_newline(buffer, current_byte);
            proof {
                lemma_next_newline(t, current_byte as int);
                lemma_line_of_same(t, current_byte as int, line_end as int);
            }
            if line_end >= target_byte {
                proof {
                    lemma_line_of_same(t, current_byte as int, target_byte as int);
                    if ids_ok {
                        assert(markers@ + Seq::<LineAnchor>::empty() == markers@);
                    }
                }
                break;
            }
            proof {
                assert(line_of(t, line_end + 1) == line_of(t, line_end as int) + 1);
            }
            let ghost rem = (line_of(t, target_byte as int) - line_of(t, current_byte as int)) as nat;
            let ghost cur0 = current_byte as int;
            let ghost line0 = current_line as int;
            let ghost mid = markers@;
            let ghost nid = markers.spec_next_id() as int;
            proof {
                lemma_line_of_mono(t, line_end + 1, target_byte as int);
            }
            current_byte = line_end + 1;
            current_line = current_line + 1;
            if current_line % ANCHOR_SPACING == 0 {
                let next_line_end = self.scan_to_next_newline(buffer, current_byte);
                proof {
                    lemma_next_newline(t, current_byte as int);
                }
                let ghost before = markers@;
                let _ = markers.create_line_anchor(
                    current_byte,
                    next_line_end,
                    current_line,
                    AnchorConfidence::Relative(parent_anchor_id.0),
                );
                proof {
                    if markers@ != before {
                        let a = markers@.last();
                        assert(markers@ == before.push(a));
                        lemma_within_push(before, a, len as int);
                        if exact && was_sound {
                            lemma_sound_push(t, before, a);
                        }
                    }
                }
            }
            proof {
                let here = if (line0 + 1) % (ANCHOR_SPACING as int) == 0 {
                    seq![
                        LineAnchor {
                            id: MarkerId(nid as u64),
                            start: (line_end + 1) as usize,
                            end: next_newline(t, line_end + 1) as usize,
                            line: (line0 + 1) as usize,
                            confidence: AnchorConfidence::Relative(parent_anchor_id.0),
                        },
                    ]
                } else {
                    Seq::empty()
                };
                assert(line_scan_anchors(t, cur0, line0, rem, parent_anchor_id.0, nid) == here
                    + line_scan_anchors(
                    t,
                    current_byte as int,
                    current_line as int,
                    (rem - 1) as nat,
                    parent_anchor_id.0,
                    nid + here.len(),
                ));
                if ids_ok {
                    assert(markers@ == mid + here);
                    assert(markers.spec_next_id() == nid + here.len());
                    assert(mid + line_scan_anchors(t, cur0, line0, rem, parent_anchor_id.0, nid)
                        == markers@ + line_scan_anchors(
                        t,
                        current_byte as int,
                        current_line as int,
                        (rem - 1) as nat,
                        parent_anchor_id.0,
                        nid + here.len(),
                    ));
                }
            }
        }
        current_line
    }

    /// The first anchor recorded for line `line_num`.
    fn find_anchor_at_line(&self, line_num: usize, markers: &MarkerList) -> (r: Option<LineAnchor>)
        ensures
            r == first_at_line(markers@, line_num as int),
            r matches Some(a) ==> markers@.contains(a) && a.line == line_num,
    {
        let n = markers.len();
        let mut i: usize = 0;
        proof {
            assert(markers@.subrange(0, n as int) == markers@);
        }
        while i < n
            invariant
                n == markers@.len(),
                i <= n,
                first_at_line(markers@, line_num as int) == first_at_line(
                    markers@.subrange(i as int, n as int),
                    line_num as int,
                ),
            decreases n - i,
        {
            let a = markers.anchor(i);
            proof {
                let rest = markers@.subrange(i as int, n as int);
                assert(rest[0] == a);
                assert(rest.drop_first() == markers@.subrange(i + 1, n as int));
            }
            if a.line == line_num {
                return Some(a);
            }
            i = i + 1;
        }
        None
    }

    /// The first anchor whose span holds byte `byte_offset`.
    fn find_anchor_containing(&self, byte_offset: usize, markers: &MarkerList) -> (r: Option<LineAnchor>)
        ensures
            r == first_containing(markers@, byte_offset as int),
            r matches Some(a) ==> markers@.contains(a) && crate::marker::overlaps(
                a,
                byte_offset as int,
                byte_offset + 1,
            ),
    {
        let n = markers.len();
        let mut i: usize = 0;
        proof {
            assert(markers@.subrange(0, n as int) == markers@);
        }
        while i < n
            invariant
                n == markers@.len(),
                i <= n,
                first_containing(markers@, byte_offset as int) == first_containing(
                    markers@.subrange(i as int, n as int),
                    byte_offset as int,
                ),
            decreases n - i,
        {
            let a = markers.anchor(i);
            proof {
                let rest = markers@.subrange(i as int, n as int);
                assert(rest[0] == a);
                assert(rest.drop_first() == markers@.subrange(i + 1, n as int));
            }
            let holds = if a.start == a.end {
                a.start == byte_offset
            } else {
                a.start <= byte_offset && byte_offset < a.end
            };
            if holds {
                return Some(a);
            }
            i = i + 1;
        }
        None
    }

    /// Projects the start of `target_line` from the average line length, finds
    /// the real line around that byte and records it as an estimated anchor.
    /// Returns the buffer's length when the projection lies past its end.
    fn create_estimated_anchor_at_line(
        &self,
        target_line: usize,
        buffer: &Buffer,
        markers: &mut MarkerList,
    ) -> (r: usize)
        requires
            self.wf(),
            old(markers).wf(),
            anchors_within(old(markers)@, buffer@.len() as int),
        ensures
            final(markers).wf(),
            anchors_within(final(markers)@, buffer@.len() as int),
            old(markers)@.is_prefix_of(final(markers)@),
            r == estimated_line_start(
                buffer@,
                target_line as int,
                self.spec_avg_line_length() as int,
            ),
            final(markers)@ == old(markers)@ + estimate_anchors(
                buffer@,
                target_line as int,
                self.spec_avg_line_length() as int,
                old(markers).spec_next_id() as int,
            ),
            final(markers).spec_next_id() == old(markers).spec_next_id() + estimate_anchors(
                buffer@,
                target_line as int,
                self.spec_avg_line_length() as int,
                old(markers).spec_next_id() as int,
            ).len(),
    {
        let ghost t = buffer@;
        let len = buffer.len();
        let avg = self.avg_line_length;
        if target_line > len / avg {
            proof {
                assert(target_line * avg >= len) by (nonlinear_arith)
                    requires
                        target_line > len / avg,
                        avg >= 1,
                ;
                assert(markers@ + Seq::<LineAnchor>::empty() == markers@);
            }
            return len;
        }
        proof {
            assert(target_line * avg <= len) by (nonlinear_arith)
                requires
                    target_line <= len / avg,
                    avg >= 1,
            ;
        }
        let estimated_byte = target_line * avg;
        if estimated_byte >= len {
            proof {
                assert(markers@ + Seq::<LineAnchor>::empty() == markers@);
            }
            return len;
        }
        let line_start = self.scan_to_prev_newline(buffer, estimated_byte);
        let line_end = self.scan_to_next_newline(buffer, estimated_byte);
        proof {
            crate::text::lemma_prev_line_start(t, estimated_byte as int);
            lemma_next_newline(t, estimated_byte as int);
        }
        let ghost before = markers@;
        let ghost before_id = markers.spec_next_id();
        let _ = markers.create_line_anchor(
            line_start,
            line_end,
            target_line,
            AnchorConfidence::Estimated,
        );
        proof {
            if markers@ != before {
                lemma_within_push(before, markers@.last(), len as int);
                assert(markers@ == before.push(markers@.last()));
            }
            let added = estimate_anchors(t, target_line as int, avg as int, before_id as int);
            if before_id < u64::MAX {
                assert(markers@ == before + added);
            } else {
                assert(markers@ == before + added);
            }
        }
        line_start
    }

    /// The byte offset at which line `line_num` starts; the buffer's length when
    /// there is no such line.
    ///
    /// An anchor recorded for the line answers directly. In small-file mode the
    /// line is found by scanning from line 0; otherwise by scanning from the
    /// nearest anchor at most `MAX_SCAN_LINES` lines before it, or else it is
    /// projected from the average line length and recorded as an estimated anchor.
    /// While every anchor records a true line, every answer that does not come
    /// from a projection is exact, and the anchors added record true lines too.
    pub fn line_to_byte(&self, line_num: usize, buffer: &Buffer, markers: &mut MarkerList) -> (r:
        usize)
        requires
            self.wf(),
            old(markers).wf(),
            anchors_within(old(markers)@, buffer@.len() as int),
        ensures
            final(markers).wf(),
            anchors_within(final(markers)@, buffer@.len() as int),
            line_to_byte_post(
                buffer@,
                self.is_small_file(),
                self.spec_avg_line_length() as int,
                old(markers)@,
                line_num as int,
                final(markers)@,
                r as int,
                old(markers).spec_next_id() as int,
            ),
    {
        let ghost t = buffer@;
        let ghost m0 = markers@;
        let ghost id0 = markers.spec_next_id() as int;
        let ghost n = line_num as int;
        if let Some(a) = self.find_anchor_at_line(line_num, markers) {
            proof {
                let i = choose|i: int| 0 <= i < markers@.len() && markers@[i] == a;
                if anchors_sound(t, markers@) {
                    assert(anchor_sound(t, markers@[i]));
                }
                if starts_sound(t, markers@) {
                    assert(markers@[i].start == line_start(t, markers@[i].line as nat));
                }
                assert(m0.is_prefix_of(m0));
            }
            return a.start;
        }
        if self.file_size < self.large_file_threshold {
            let nearest = markers.nearest_line_anchor_before_line(line_num);
            if let Some(a) = nearest {
                if a.line == 0 {
                    proof {
                        lemma_member_within(markers, a, t.len() as int);
                        let i = choose|i: int| 0 <= i < markers@.len() && markers@[i] == a;
                        if anchors_sound(t, markers@) {
                            assert(anchor_sound(t, markers@[i]));
                        }
                        if starts_sound(t, markers@) {
                            assert(markers@[i].start == line_start(t, 0));
                        }
                    }
                    let r = self.scan_forward_n_lines(buffer, markers, a.id, a.start, 0, line_num);
                    proof {
                        lemma_advance_line_start(t, 0, n as nat);
                        assert(nearest_by_line(m0, a, n) && a.line == 0 && r == advance_lines(
                            t,
                            a.start as int,
                            n as nat,
                        ));
                    }
                    return r;
                }
            }
            proof {
                assert forall|a2: LineAnchor| nearest_by_line(m0, a2, n) implies a2.line != 0 by {
                    if let Some(a) = nearest {
                        let i = choose|i: int| 0 <= i < m0.len() && m0[i] == a;
                        let j = choose|j: int| 0 <= j < m0.len() && m0[j] == a2;
                        assert(m0[i].line <= a2.line);
                        assert(m0[j].line <= a.line);
                    } else {
                        let j = choose|j: int| 0 <= j < m0.len() && m0[j] == a2;
                        assert(m0[j].line > line_num);
                    }
                }
            }
            let line0_end = self.scan_to_next_newline(buffer, 0);
            proof {
                lemma_next_newline(t, 0);
            }
            let created = markers.create_line_anchor(0, line0_end, 0, AnchorConfidence::Exact);
            proof {
                if markers@ != m0 {
                    let a = markers@.last();
                    assert(markers@ == m0.push(a));
                    assert(a == line_zero_anchor(t, id0));
                    lemma_within_push(m0, a, t.len() as int);
                    if anchors_sound(t, m0) {
                        lemma_sound_push(t, m0, a);
                    }
                    if starts_sound(t, m0) {
                        assert forall|j: int| 0 <= j < markers@.len() implies #[trigger] markers@[j].start
                            == line_start(t, markers@[j].line as nat) by {
                            if j < m0.len() {
                                assert(markers@[j] == m0[j]);
                            }
                        }
                    }
                }
            }
            // Once identities run out no anchor is recorded, so the parent given
            // to the scan is never stored.
            let parent = match created {
                Some(id) => id,
                None => MarkerId(u64::MAX),
            };
            let r = self.scan_forward_n_lines(buffer, markers, parent, 0, 0, line_num);
            proof {
                lemma_advance_line_start(t, 0, n as nat);
            }
            return r;
        }
        let nearest = markers.nearest_line_anchor_before_line(line_num);
        if let Some(a) = nearest {
            let distance_lines = line_num - a.line;
            if distance_lines < MAX_SCAN_LINES {
                proof {
                    lemma_member_within(markers, a, t.len() as int);
                    let i = choose|i: int| 0 <= i < markers@.len() && markers@[i] == a;
                    if anchors_sound(t, markers@) {
                        assert(anchor_sound(t, markers@[i]));
                    }
                    if starts_sound(t, markers@) {
                        assert(markers@[i].start == line_start(t, markers@[i].line as nat));
                    }
                }
                let r = self.scan_forward_n_lines(
                    buffer,
                    markers,
                    a.id,
                    a.start,
                    a.line,
                    distance_lines,
                );
                proof {
                    lemma_advance_line_start(t, a.line as nat, distance_lines as nat);
                    assert(nearest_by_line(m0, a, n) && n - a.line < MAX_SCAN_LINES);
                    assert(line_in_scan_reach(m0, n)) by {
                        let i = choose|i: int| 0 <= i < m0.len() && m0[i] == a;
                        assert(m0[i].line <= n && n - m0[i].line < MAX_SCAN_LINES);
                    }
                }
                return r;
            }
            proof {
                assert forall|i: int|
                    0 <= i < markers@.len() && markers@[i].line <= line_num implies line_num
                    - markers@[i].line >= MAX_SCAN_LINES by {}
            }
        }
        self.create_estimated_anchor_at_line(line_num, buffer, markers)
    }

    /// The line that holds byte `byte_offset`.
    ///
    /// An anchor whose span holds the byte answers directly. Otherwise lines are
    /// counted forward from the nearest anchor that starts fewer than
    /// `MAX_SCAN_BYTES` bytes before it; failing that, the line is projected as
    /// `byte_offset / avg_line_length` and an estimated anchor is recorded for it.
    /// While every anchor records a true line, every answer that does not come
    /// from a projection is exact, and the anchors added record true lines too.
    pub fn byte_to_line(&self, byte_offset: usize, buffer: &Buffer, markers: &mut MarkerList) -> (r:
        usize)
        requires
            self.wf(),
            old(markers).wf(),
            anchors_within(old(markers)@, buffer@.len() as int),
            byte_offset <= buffer@.len(),
        ensures
            final(markers).wf(),
            anchors_within(final(markers)@, buffer@.len() as int),
            byte_to_line_post(
                buffer@,
                self.spec_avg_line_length() as int,
                old(markers)@,
                byte_offset as int,
                final(markers)@,
                r as int,
                old(markers).spec_next_id() as int,
            ),
    {
        let ghost t = buffer@;
        let ghost m0 = markers@;
        let ghost id0 = markers.spec_next_id() as int;
        let ghost b = byte_offset as int;
        let ghost avg = self.spec_avg_line_length() as int;
        if let Some(a) = self.find_anchor_containing(byte_offset, markers) {
            proof {
                if anchors_sound(t, markers@) {
                    let i = choose|i: int| 0 <= i < markers@.len() && markers@[i] == a;
                    assert(anchor_sound(t, markers@[i]));
                    crate::text::lemma_line_start_bounds(t, a.line as nat);
                    lemma_next_newline(t, a.start as int);
                    if a.start != a.end {
                        lemma_line_of_same(t, a.start as int, byte_offset as int);
                    }
                }
                assert(m0.is_prefix_of(m0));
            }
            return a.line;
        }
        let nearest = markers.nearest_line_anchor_before(byte_offset);
        if let Some(a) = nearest {
            let distance_bytes = byte_offset - a.start;
            proof {
                let i = choose|i: int| 0 <= i < markers@.len() && markers@[i] == a;
                if anchors_sound(t, markers@) {
                    assert(anchor_sound(t, markers@[i]));
                    crate::text::lemma_line_start_bounds(t, a.line as nat);
                    crate::text::lemma_line_of_le(t, a.start as int);
                }
                assert(nearest_by_start(m0, a, b));
            }
            if distance_bytes < MAX_SCAN_BYTES {
                proof {
                    let i = choose|i: int| 0 <= i < m0.len() && m0[i] == a;
                    assert(m0[i].start <= b && b - m0[i].start < MAX_SCAN_BYTES);
                    assert(byte_in_scan_reach(m0, b));
                }
                if a.line <= usize::MAX - distance_bytes {
                    let r = self.scan_forward_to_byte(
                        buffer,
                        markers,
                        a.id,
                        a.start,
                        a.line,
                        byte_offset,
                    );
                    proof {
                        assert(nearest_by_start(m0, a, b) && b - a.start < MAX_SCAN_BYTES);
                    }
                    return r;
                }
                let estimated_line = byte_offset / self.avg_line_length;
                let _ = self.create_estimated_anchor_at_line(estimated_line, buffer, markers);
                proof {
                    assert(nearest_by_start(m0, a, b) && b - a.start < MAX_SCAN_BYTES);
                }
                return estimated_line;
            }
            proof {
                assert forall|i: int|
                    0 <= i < markers@.len() && markers@[i].start <= byte_offset implies byte_offset
                    - markers@[i].start >= MAX_SCAN_BYTES by {}
            }
        }
        let estimated_line = byte_offset / self.avg_line_length;
        let _ = self.create_estimated_anchor_at_line(estimated_line, buffer, markers);
        estimated_line
    }
}

} // verus!
