//! The marker index: line anchors, each a byte span with a stable identity, a
//! line number and a confidence level.
use vstd::prelude::*;

verus! {

/// Stable identity of a marker.
#[derive(Clone, Copy, Debug, PartialEq, Eq, Structural)]
pub struct MarkerId(pub u64);

/// How far a line anchor's line number can be trusted.
#[derive(Clone, Copy, Debug, PartialEq, Eq, Structural)]
pub enum AnchorConfidence {
    /// Found by scanning real newlines from the start of the text.
    Exact,
    /// Projected from an average line length, without scanning.
    Estimated,
    /// Found by scanning from the anchor with the given identity.
    Relative(u64),
}

/// A line anchor: the span `[start, end)` of line `line`.
#[derive(Clone, Copy, Debug, PartialEq, Eq, Structural)]
pub struct LineAnchor {
    pub id: MarkerId,
    pub start: usize,
    pub end: usize,
    pub line: usize,
    pub confidence: AnchorConfidence,
}

/// True when the anchor's span meets the half-open range `[qs, qe)`; an empty
/// span meets it when it lies inside it.
pub open spec fn overlaps(a: LineAnchor, qs: int, qe: int) -> bool {
    if a.start == a.end {
        qs <= a.start < qe
    } else {
        a.start < qe && qs < a.end
    }
}

/// What happens to a marker whose whole span is deleted.
#[derive(Clone, Copy, Debug, PartialEq, Eq, Structural)]
pub enum DeletePolicy {
    /// The marker stays, as an empty span at the deletion point.
    Contract,
    /// The marker is removed.
    Remove,
}

/// Where offset `x` moves when `n` bytes are inserted at `pos`: offsets at or
/// after `pos` shift by `n`.
pub open spec fn offset_after_insert(x: int, pos: int, n: int) -> int {
    if x >= pos {
        x + n
    } else {
        x
    }
}

/// Where offset `x` moves when the `n` bytes at `pos` are deleted: offsets
/// inside the deleted range collapse to `pos`, offsets after it shift back by `n`.
pub open spec fn offset_after_delete(x: int, pos: int, n: int) -> int {
    if x <= pos {
        x
    } else if x >= pos + n {
        x - n
    } else {
        pos
    }
}

/// The anchor after `n` bytes are inserted at `pos`.
pub open spec fn anchor_after_insert(a: LineAnchor, pos: int, n: int) -> LineAnchor {
    LineAnchor {
        start: offset_after_insert(a.start as int, pos, n) as usize,
        end: offset_after_insert(a.end as int, pos, n) as usize,
        ..a
    }
}

/// The anchor after the `n` bytes at `pos` are deleted.
pub open spec fn anchor_after_delete(a: LineAnchor, pos: int, n: int) -> LineAnchor {
    LineAnchor {
        start: offset_after_delete(a.start as int, pos, n) as usize,
        end: offset_after_delete(a.end as int, pos, n) as usize,
        ..a
    }
}

/// True when deleting the `n` bytes at `pos` destroys the whole, non-empty span of `a`.
pub open spec fn destroyed_by_delete(a: LineAnchor, pos: int, n: int) -> bool {
    a.start < a.end && pos <= a.start && a.end <= pos + n
}

proof fn lemma_filter_push(s: Seq<LineAnchor>, a: LineAnchor, p: spec_fn(LineAnchor) -> bool)
    ensures
        s.push(a).filter(p) == if p(a) {
            s.filter(p).push(a)
        } else {
            s.filter(p)
        },
{
    reveal(Seq::filter);
    assert(s.push(a).drop_last() == s);
    assert(s.push(a).last() == a);
}

/// The owning collection of the line anchors of one buffer.
pub struct MarkerList {
    anchors: Vec<LineAnchor>,
    next_id: u64,
}

impl MarkerList {
    /// The anchors, in the order in which they were created.
    pub closed spec fn view(&self) -> Seq<LineAnchor> {
        self.anchors@
    }

    /// The identity that the next anchor will get.
    pub closed spec fn spec_next_id(&self) -> u64 {
        self.next_id
    }

    /// Identities are unique and below the next one; every span is ordered.
    pub open spec fn wf(&self) -> bool {
        &&& forall|i: int|
            0 <= i < self@.len() ==> #[trigger] self@[i].id.0 < self.spec_next_id()
                && self@[i].start <= self@[i].end
        &&& forall|i: int, j: int|
            0 <= i < j < self@.len() ==> #[trigger] self@[i].id != #[trigger] self@[j].id
    }

    pub fn new() -> (r: MarkerList)
        ensures
            r.wf(),
            r@ == Seq::<LineAnchor>::empty(),
    {
        MarkerList { anchors: Vec::new(), next_id: 0 }
    }

    /// Number of anchors held.
    pub fn len(&self) -> (r: usize)
        ensures
            r == self@.len(),
    {
        self.anchors.len()
    }

    /// The `i`-th anchor in creation order.
    pub fn anchor(&self, i: usize) -> (r: LineAnchor)
        requires
            i < self@.len(),
        ensures
            r == self@[i as int],
    {
        self.anchors[i]
    }

    /// Adds an anchor over `[start, end)` for line `line_number`. Returns its new
    /// identity, or `None` (and adds nothing) once every identity has been handed out.
    pub fn create_line_anchor(
        &mut self,
        start: usize,
        end: usize,
        line_number: usize,
        confidence: AnchorConfidence,
    ) -> (r: Option<MarkerId>)
        requires
            old(self).wf(),
            start <= end,
        ensures
            final(self).wf(),
            old(self).spec_next_id() < u64::MAX ==> final(self).spec_next_id() == old(
                self,
            ).spec_next_id() + 1,
            old(self).spec_next_id() == u64::MAX ==> final(self).spec_next_id() == old(
                self,
            ).spec_next_id(),
            old(self).spec_next_id() < u64::MAX ==> r == Some(MarkerId(old(self).spec_next_id()))
                && final(self)@ == old(self)@.push(
                (LineAnchor { id: MarkerId(old(self).spec_next_id()), start, end, line: line_number, confidence }),
            ),
            old(self).spec_next_id() == u64::MAX ==> r.is_none() && final(self)@ == old(self)@,
    {
        if self.next_id == u64::MAX {
            return None;
        }
        let id = MarkerId(self.next_id);
        let ghost before = self@;
        self.anchors.push(LineAnchor { id, start, end, line: line_number, confidence });
        self.next_id = self.next_id + 1;
        proof {
            assert forall|i: int| 0 <= i < self@.len() implies #[trigger] self@[i].id.0
                < self.spec_next_id() && self@[i].start <= self@[i].end by {
                if i < before.len() {
                    assert(self@[i] == before[i]);
                }
            }
            assert forall|i: int, j: int| 0 <= i < j < self@.len() implies #[trigger] self@[i].id
                != #[trigger] self@[j].id by {
                assert(self@[i] == old(self)@[i]);
                assert(old(self)@[i].id.0 < old(self).spec_next_id());
                if j < before.len() {
                    assert(self@[j] == old(self)@[j]);
                }
            }
        }
        Some(id)
    }

    /// Removes the anchor with identity `id`; does nothing when there is none.
    pub fn remove_by_id(&mut self, id: MarkerId)
        requires
            old(self).wf(),
        ensures
            final(self).wf(),
            final(self).spec_next_id() == old(self).spec_next_id(),
            forall|i: int| 0 <= i < old(self)@.len() && old(self)@[i].id == id ==> final(self)@
                == old(self)@.remove(i),
            (forall|i: int| 0 <= i < old(self)@.len() ==> old(self)@[i].id != id) ==> final(self)@
                == old(self)@,
    {
        let mut i: usize = 0;
        while i < self.anchors.len()
            invariant
                i <= self.anchors@.len(),
                self.wf(),
                *self == *old(self),
                forall|k: int| 0 <= k < i ==> self.anchors@[k].id != id,
            decreases self.anchors@.len() - i,
        {
            if self.anchors[i].id == id {
                let ghost before = self@;
                self.anchors.remove(i);
                proof {
                    assert forall|k: int| 0 <= k < before.len() && before[k].id == id implies k
                        == i by {
                        if k != i {
                            if k < i {
                                assert(before[k].id != before[i as int].id);
                            } else {
                                assert(before[i as int].id != before[k].id);
                            }
                        }
                    }
                    assert forall|k: int| 0 <= k < self@.len() implies #[trigger] self@[k].id.0
                        < self.spec_next_id() && self@[k].start <= self@[k].end by {
                        if k < i {
                            assert(self@[k] == before[k]);
                        } else {
                            assert(self@[k] == before[k + 1]);
                        }
                    }
                    assert forall|k: int, l: int| 0 <= k < l < self@.len() implies #[trigger] self@[k].id
                        != #[trigger] self@[l].id by {
                        let k2 = if k < i { k } else { k + 1 };
                        let l2 = if l < i { l } else { l + 1 };
                        assert(self@[k] == before[k2] && self@[l] == before[l2]);
                    }
                }
                return;
            }
            i = i + 1;
        }
    }

    /// The anchors whose span meets `[start, end)`, in creation order.
    pub fn query_line_anchors(&self, start: usize, end: usize) -> (r: Vec<LineAnchor>)
        ensures
            r@ == self@.filter(|a: LineAnchor| overlaps(a, start as int, end as int)),
    {
        let mut out: Vec<LineAnchor> = Vec::new();
        let mut i: usize = 0;
        while i < self.anchors.len()
            invariant
                i <= self.anchors@.len(),
                out@ == self.anchors@.subrange(0, i as int).filter(
                    |a: LineAnchor| overlaps(a, start as int, end as int),
                ),
            decreases self.anchors@.len() - i,
        {
            let a = self.anchors[i];
            proof {
                let pre = self.anchors@.subrange(0, i as int);
                assert(self.anchors@.subrange(0, i + 1) == pre.push(a));
                lemma_filter_push(pre, a, |a: LineAnchor| overlaps(a, start as int, end as int));
            }
            let hit = if a.start == a.end {
                start <= a.start && a.start < end
            } else {
                a.start < end && start < a.end
            };
            if hit {
                out.push(a);
            }
            i = i + 1;
        }
        proof {
            assert(self.anchors@.subrange(0, i as int) == self.anchors@);
        }
        out
    }

    /// The anchor with the greatest start at or before `byte_offset` (the earliest
    /// created among equals), if any anchor starts there or before.
    pub fn nearest_line_anchor_before(&self, byte_offset: usize) -> (r: Option<LineAnchor>)
        ensures
            r.is_none() <==> forall|i: int| 0 <= i < self@.len() ==> self@[i].start > byte_offset,
            r matches Some(a) ==> self@.contains(a) && a.start <= byte_offset
                && forall|i: int|
                0 <= i < self@.len() && self@[i].start <= byte_offset ==> self@[i].start <= a.start,
    {
        let mut best: Option<LineAnchor> = None;
        let mut i: usize = 0;
        while i < self.anchors.len()
            invariant
                i <= self.anchors@.len(),
                best.is_none() <==> forall|k: int| 0 <= k < i ==> self@[k].start > byte_offset,
                best matches Some(a) ==> self@.contains(a) && a.start <= byte_offset
                    && forall|k: int|
                    0 <= k < i && self@[k].start <= byte_offset ==> self@[k].start <= a.start,
            decreases self.anchors@.len() - i,
        {
            let a = self.anchors[i];
            if a.start <= byte_offset {
                match best {
                    Some(b) => {
                        if a.start > b.start {
                            best = Some(a);
                        }
                    },
                    None => {
                        best = Some(a);
                    },
                }
            }
            i = i + 1;
        }
        best
    }

    /// The anchor with the greatest line number at or before `line_number` (the
    /// earliest created among equals), if any.
    pub fn nearest_line_anchor_before_line(&self, line_number: usize) -> (r: Option<LineAnchor>)
        ensures
            r.is_none() <==> forall|i: int| 0 <= i < self@.len() ==> self@[i].line > line_number,
            r matches Some(a) ==> self@.contains(a) && a.line <= line_number
                && forall|i: int|
                0 <= i < self@.len() && self@[i].line <= line_number ==> self@[i].line <= a.line,
    {
        let mut best: Option<LineAnchor> = None;
        let mut i: usize = 0;
        while i < self.anchors.len()
            invariant
                i <= self.anchors@.len(),
                best.is_none() <==> forall|k: int| 0 <= k < i ==> self@[k].line > line_number,
                best matches Some(a) ==> self@.contains(a) && a.line <= line_number
                    && forall|k: int|
                    0 <= k < i && self@[k].line <= line_number ==> self@[k].line <= a.line,
            decreases self.anchors@.len() - i,
        {
            let a = self.anchors[i];
            if a.line <= line_number {
                match best {
                    Some(b) => {
                        if a.line > b.line {
                            best = Some(a);
                        }
                    },
                    None => {
                        best = Some(a);
                    },
                }
            }
            i = i + 1;
        }
        best
    }

    /// Shifts every anchor offset at or after `pos` forward by `n` bytes, after
    /// `n` bytes were inserted at `pos`.
    pub fn adjust_for_insert(&mut self, pos: usize, n: usize)
        requires
            old(self).wf(),
            forall|i: int| 0 <= i < old(self)@.len() ==> #[trigger] old(self)@[i].end + n <= usize::MAX,
        ensures
            final(self).wf(),
            final(self).spec_next_id() == old(self).spec_next_id(),
            final(self)@ == old(self)@.map_values(|a: LineAnchor| anchor_after_insert(a, pos as int, n as int)),
    {
        let ghost before = self@;
        let mut out: Vec<LineAnchor> = Vec::new();
        let mut i: usize = 0;
        while i < self.anchors.len()
            invariant
                i <= self.anchors@.len(),
                self@ == before,
                self.wf(),
                forall|k: int| 0 <= k < before.len() ==> #[trigger] before[k].end + n <= usize::MAX,
                out@ == before.subrange(0, i as int).map_values(
                    |a: LineAnchor| anchor_after_insert(a, pos as int, n as int),
                ),
            decreases self.anchors@.len() - i,
        {
            let a = self.anchors[i];
            assert(self@[i as int].id.0 < self.spec_next_id());
            assert(before[i as int].end + n <= usize::MAX);
            let start = if a.start >= pos {
                a.start + n
            } else {
                a.start
            };
            let end = if a.end >= pos {
                a.end + n
            } else {
                a.end
            };
            out.push(LineAnchor { start, end, ..a });
            proof {
                assert(before.subrange(0, i + 1) == before.subrange(0, i as int).push(a));
            }
            i = i + 1;
        }
        proof {
            assert(before.subrange(0, i as int) == before);
            assert forall|k: int| 0 <= k < out@.len() implies #[trigger] out@[k].id.0
                < self.next_id && out@[k].start <= out@[k].end by {
                assert(before[k].id.0 < self.spec_next_id());
            }
            assert forall|k: int, l: int| 0 <= k < l < out@.len() implies #[trigger] out@[k].id
                != #[trigger] out@[l].id by {
                assert(before[k].id != before[l].id);
            }
        }
        self.anchors = out;
    }

    /// Moves anchor offsets after the `n` bytes at `pos` were deleted: offsets
    /// inside the deleted range collapse to `pos`, later ones shift back by `n`.
    /// An anchor whose whole, non-empty span was deleted is removed under
    /// `DeletePolicy::Remove` and kept as an empty span under `DeletePolicy::Contract`.
    pub fn adjust_for_delete(&mut self, pos: usize, n: usize, policy: DeletePolicy)
        requires
            old(self).wf(),
            pos + n <= usize::MAX,
        ensures
            final(self).wf(),
            final(self).spec_next_id() == old(self).spec_next_id(),
            final(self)@ == old(self)@.filter(
                |a: LineAnchor| policy == DeletePolicy::Contract || !destroyed_by_delete(a, pos as int, n as int),
            ).map_values(|a: LineAnchor| anchor_after_delete(a, pos as int, n as int)),
    {
        let ghost before = self@;
        let ghost stays = |a: LineAnchor| policy == DeletePolicy::Contract || !destroyed_by_delete(a, pos as int, n as int);
        let ghost moved = |a: LineAnchor| anchor_after_delete(a, pos as int, n as int);
        let mut out: Vec<LineAnchor> = Vec::new();
        let ghost mut idx: Seq<int> = Seq::empty();
        let mut i: usize = 0;
        while i < self.anchors.len()
            invariant
                i <= self.anchors@.len(),
                self@ == before,
                self.wf(),
                pos + n <= usize::MAX,
                stays == (|a: LineAnchor| policy == DeletePolicy::Contract || !destroyed_by_delete(a, pos as int, n as int)),
                moved == (|a: LineAnchor| anchor_after_delete(a, pos as int, n as int)),
                out@ == before.subrange(0, i as int).filter(stays).map_values(moved),
                idx.len() == out@.len(),
                forall|k: int| 0 <= k < idx.len() ==> 0 <= #[trigger] idx[k] < i,
                forall|k: int, l: int| 0 <= k < l < idx.len() ==> #[trigger] idx[k] < #[trigger] idx[l],
                forall|k: int| 0 <= k < out@.len() ==> #[trigger] out@[k].id == before[idx[k]].id,
                forall|k: int| 0 <= k < out@.len() ==> #[trigger] out@[k].start <= out@[k].end,
            decreases self.anchors@.len() - i,
        {
            let a = self.anchors[i];
            assert(self@[i as int].id.0 < self.spec_next_id());
            let ghost pre = before.subrange(0, i as int);
            proof {
                assert(before.subrange(0, i + 1) == pre.push(a));
                lemma_filter_push(pre, a, stays);
            }
            let destroyed = a.start < a.end && pos <= a.start && a.end <= pos + n;
            let keep = match policy {
                DeletePolicy::Contract => true,
                DeletePolicy::Remove => !destroyed,
            };
            if keep {
                let start = if a.start <= pos {
                    a.start
                } else if a.start >= pos + n {
                    a.start - n
                } else {
                    pos
                };
                let end = if a.end <= pos {
                    a.end
                } else if a.end >= pos + n {
                    a.end - n
                } else {
                    pos
                };
                let b = LineAnchor { start, end, ..a };
                let ghost old_out = out@;
                out.push(b);
                proof {
                    assert(stays(a));
                    assert(pre.filter(stays).push(a).map_values(moved) == old_out.push(b));
                    let ghost old_idx = idx;
                    idx = idx.push(i as int);
                    assert(before[i as int] == a);
                    assert(a.start <= a.end);
                    assert(b.start <= b.end);
                    assert(out@[out@.len() - 1] == b);
                    assert forall|k: int| 0 <= k < out@.len() implies #[trigger] out@[k].start
                        <= out@[k].end by {
                        if k < old_out.len() {
                            assert(out@[k] == old_out[k]);
                        }
                    }
                    assert forall|k: int| 0 <= k < out@.len() implies #[trigger] out@[k].id
                        == before[idx[k]].id by {
                        if k < old_out.len() {
                            assert(out@[k] == old_out[k]);
                            assert(idx[k] == old_idx[k]);
                            assert(old_out[k].id == before[old_idx[k]].id);
                        } else {
                            assert(idx[k] == i);
                        }
                    }
                }
            } else {
                proof {
                    assert(!stays(a));
                }
            }
            i = i + 1;
        }
        proof {
            assert(before.subrange(0, i as int) == before);
            assert forall|k: int| 0 <= k < out@.len() implies #[trigger] out@[k].id.0
                < self.next_id && out@[k].start <= out@[k].end by {
                assert(out@[k].id == before[idx[k]].id);
                assert(0 <= idx[k] < before.len());
                assert(self@[idx[k]].id.0 < self.spec_next_id());
            }
            assert forall|k: int, l: int| 0 <= k < l < out@.len() implies #[trigger] out@[k].id
                != #[trigger] out@[l].id by {
                assert(idx[k] < idx[l]);
                assert(before[idx[k]].id != before[idx[l]].id);
            }
        }
        self.anchors = out;
    }
}

} // verus!
