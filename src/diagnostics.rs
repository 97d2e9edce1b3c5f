//! Diagnostics from a language server shown as overlays: converting one
//! diagnostic to an overlay, and reconciling the overlays with a new set of
//! diagnostics so that unchanged ones are kept, stale ones removed and new ones added.
use vstd::prelude::*;
use vstd::string::StrSliceExecFns;
use std::collections::hash_map::DefaultHasher;
use std::hash::{BuildHasher, BuildHasherDefault};
use crate::buffer::{lsp_position_offset, Buffer};

verus! {

/// Protocol severity code of an error.
pub const SEVERITY_ERROR: i32 = 1;

/// Protocol severity code of a warning.
pub const SEVERITY_WARNING: i32 = 2;

/// Protocol severity code of an information.
pub const SEVERITY_INFORMATION: i32 = 3;

/// Protocol severity code of a hint.
pub const SEVERITY_HINT: i32 = 4;

/// Number of message characters that take part in a diagnostic's identity.
pub const ID_PREFIX_CHARS: usize = 8;

/// A diagnostic as the language server sends it: a range of line / UTF-16
/// column positions, an optional severity code, a message and an optional source.
#[derive(Debug, PartialEq, Eq, Hash)]
pub struct Diagnostic {
    pub start_line: u32,
    pub start_character: u32,
    pub end_line: u32,
    pub end_character: u32,
    pub severity: Option<i32>,
    pub message: String,
    pub source: Option<String>,
}

/// A diagnostic's fields as plain values.
pub type DiagnosticView = (u32, u32, u32, u32, Option<i32>, Seq<char>, Option<Seq<char>>);

impl Diagnostic {
    pub open spec fn view(&self) -> DiagnosticView {
        (
            self.start_line,
            self.start_character,
            self.end_line,
            self.end_character,
            self.severity,
            self.message@,
            match self.source {
                Some(s) => Some(s@),
                None => None,
            },
        )
    }
}

/// The views of a sequence of diagnostics.
pub open spec fn diagnostic_views(ds: Seq<Diagnostic>) -> Seq<DiagnosticView> {
    ds.map_values(|d: Diagnostic| d@)
}

/// How a diagnostic is shown; each level has its own colour and priority.
#[derive(Clone, Copy, Debug, PartialEq, Eq, Structural)]
pub enum DiagnosticLevel {
    Error,
    Warning,
    Information,
    Hint,
}

/// The level shown for a severity code: a missing severity shows as a hint, an
/// unknown code is not shown.
pub open spec fn level_of(severity: Option<i32>) -> Option<DiagnosticLevel> {
    match severity {
        None => Some(DiagnosticLevel::Hint),
        Some(c) => if c == SEVERITY_ERROR {
            Some(DiagnosticLevel::Error)
        } else if c == SEVERITY_WARNING {
            Some(DiagnosticLevel::Warning)
        } else if c == SEVERITY_INFORMATION {
            Some(DiagnosticLevel::Information)
        } else if c == SEVERITY_HINT {
            Some(DiagnosticLevel::Hint)
        } else {
            None
        },
    }
}

/// Overlay priority of a level: errors above warnings above information above hints.
pub open spec fn priority_of(level: DiagnosticLevel) -> i32 {
    match level {
        DiagnosticLevel::Error => 100,
        DiagnosticLevel::Warning => 50,
        DiagnosticLevel::Information => 30,
        DiagnosticLevel::Hint => 10,
    }
}

/// Identity of a diagnostic: its start position and the first characters of its message.
#[derive(Debug)]
pub struct DiagnosticId {
    pub line: u32,
    pub character: u32,
    pub prefix: String,
}

/// A diagnostic identity as plain values.
pub type DiagnosticKey = (u32, u32, Seq<char>);

impl DiagnosticId {
    pub open spec fn view(&self) -> DiagnosticKey {
        (self.line, self.character, self.prefix@)
    }
}

/// The identity of a diagnostic.
pub open spec fn key_of(d: DiagnosticView) -> DiagnosticKey {
    let n = if d.5.len() < ID_PREFIX_CHARS {
        d.5.len() as int
    } else {
        ID_PREFIX_CHARS as int
    };
    (d.0, d.1, d.5.subrange(0, n))
}

/// A diagnostic overlay: the byte span it covers, how it is shown, and its message.
#[derive(Debug)]
pub struct Overlay {
    pub id: DiagnosticId,
    pub start: usize,
    pub end: usize,
    pub level: DiagnosticLevel,
    pub priority: i32,
    pub message: String,
}

/// An overlay as plain values.
pub type OverlayView = (DiagnosticKey, int, int, DiagnosticLevel, i32, Seq<char>);

impl Overlay {
    pub open spec fn view(&self) -> OverlayView {
        (self.id@, self.start as int, self.end as int, self.level, self.priority, self.message@)
    }
}

/// The views of a sequence of overlays.
pub open spec fn overlay_views(s: Seq<Overlay>) -> Seq<OverlayView> {
    s.map_values(|o: Overlay| o@)
}

/// The overlay shown for a diagnostic over text `t`: none when its severity is
/// unknown or its range ends before it starts.
pub open spec fn overlay_of(d: DiagnosticView, t: Seq<u8>) -> Option<OverlayView> {
    match level_of(d.4) {
        Some(level) => if lsp_position_offset(t, d.0 as nat, d.1 as int) > lsp_position_offset(
            t,
            d.2 as nat,
            d.3 as int,
        ) {
            None
        } else {
            Some(
            (
                key_of(d),
                lsp_position_offset(t, d.0 as nat, d.1 as int),
                lsp_position_offset(t, d.2 as nat, d.3 as int),
                level,
                priority_of(level),
                d.5,
            ),
        )
        },
        None => None,
    }
}

/// True when some overlay of `os` has identity `k`.
pub open spec fn has_overlay_key(os: Seq<OverlayView>, k: DiagnosticKey) -> bool {
    exists|i: int| 0 <= i < os.len() && os[i].0 == k
}

/// True when some diagnostic of `ds` has identity `k`.
pub open spec fn has_diagnostic_key(ds: Seq<DiagnosticView>, k: DiagnosticKey) -> bool {
    exists|i: int| 0 <= i < ds.len() && key_of(ds[i]) == k
}

/// The overlays added for `ds` when the overlays `existing` are already shown:
/// one for each diagnostic, in order, whose identity none of them has and whose
/// severity is known.
pub open spec fn added_overlays(existing: Seq<OverlayView>, ds: Seq<DiagnosticView>, t: Seq<u8>) -> Seq<
    OverlayView,
>
    decreases ds.len(),
{
    if ds.len() == 0 {
        Seq::empty()
    } else {
        let rest = added_overlays(existing, ds.drop_last(), t);
        let d = ds.last();
        if has_overlay_key(existing, key_of(d)) {
            rest
        } else {
            match overlay_of(d, t) {
                Some(o) => rest.push(o),
                None => rest,
            }
        }
    }
}

/// The overlays after reconciling `existing` with `ds`: those whose identity
/// some diagnostic still has, in their order, then the added ones.
pub open spec fn reconciled_overlays(
    existing: Seq<OverlayView>,
    ds: Seq<DiagnosticView>,
    t: Seq<u8>,
) -> Seq<OverlayView> {
    existing.filter(|o: OverlayView| has_diagnostic_key(ds, o.0)) + added_overlays(existing, ds, t)
}

/// True when diagnostic `d` is shown once `ds` is applied over the overlays
/// `existing` of text `t`: it already had an overlay, or it gets one now.
pub open spec fn is_shown(existing: Seq<OverlayView>, d: DiagnosticView, t: Seq<u8>) -> bool {
    has_overlay_key(existing, key_of(d)) || overlay_of(d, t) is Some
}

/// The lines that get a margin indicator: the start lines of the shown diagnostics.
pub open spec fn margin_line_set(existing: Seq<OverlayView>, ds: Seq<DiagnosticView>, t: Seq<u8>) -> Set<
    u32,
> {
    Set::new(|l: u32| exists|i: int| 0 <= i < ds.len() && ds[i].0 == l && is_shown(existing, ds[i], t))
}

/// The margin lines in order of first appearance, each once.
pub open spec fn margin_seq(existing: Seq<OverlayView>, ds: Seq<DiagnosticView>, t: Seq<u8>) -> Seq<u32>
    decreases ds.len(),
{
    if ds.len() == 0 {
        Seq::empty()
    } else {
        let rest = margin_seq(existing, ds.drop_last(), t);
        let d = ds.last();
        if is_shown(existing, d, t) && !rest.contains(d.0) {
            rest.push(d.0)
        } else {
            rest
        }
    }
}

proof fn lemma_margin_seq(existing: Seq<OverlayView>, ds: Seq<DiagnosticView>, t: Seq<u8>)
    ensures
        margin_seq(existing, ds, t).no_duplicates(),
        margin_seq(existing, ds, t).to_set() == margin_line_set(existing, ds, t),
    decreases ds.len(),
{
    let m = margin_seq(existing, ds, t);
    if ds.len() > 0 {
        let q = ds.drop_last();
        lemma_margin_seq(existing, q, t);
        let rest = margin_seq(existing, q, t);
        assert forall|l: u32| m.contains(l) <==> margin_line_set(existing, ds, t).contains(l) by {
            assert(rest.to_set().contains(l) <==> rest.contains(l));
            if margin_line_set(existing, q, t).contains(l) {
                let i = choose|i: int| 0 <= i < q.len() && q[i].0 == l && is_shown(existing, q[i], t);
                assert(ds[i] == q[i]);
            }
            if margin_line_set(existing, ds, t).contains(l) {
                let i = choose|i: int| 0 <= i < ds.len() && ds[i].0 == l && is_shown(existing, ds[i], t);
                if i < q.len() {
                    assert(ds[i] == q[i]);
                    assert(margin_line_set(existing, q, t).contains(l));
                }
            }
            if m != rest {
                assert(m == rest.push(ds.last().0));
                if l == ds.last().0 {
                    assert(m[m.len() - 1] == l);
                } else if m.contains(l) {
                    let k = choose|k: int| 0 <= k < m.len() && m[k] == l;
                    assert(rest[k] == l);
                }
                if rest.contains(l) {
                    let k = choose|k: int| 0 <= k < rest.len() && rest[k] == l;
                    assert(m[k] == l);
                }
            }
        }
        assert(m.to_set() =~= margin_line_set(existing, ds, t));
    } else {
        assert(m.to_set() =~= margin_line_set(existing, ds, t));
    }
}

/// The name for the hash of a sequence of diagnostics.
pub uninterp spec fn diagnostics_hash(ds: Seq<DiagnosticView>) -> u64;

/// The editor state that diagnostics are shown in.
pub struct EditorState {
    pub buffer: Buffer,
    /// The diagnostic overlays shown.
    pub overlays: Vec<Overlay>,
    /// Lines that show a diagnostic indicator in the margin.
    pub margin_lines: Vec<u32>,
    /// Hash of the last set of diagnostics applied.
    pub diagnostic_hash: Option<u64>,
}

impl EditorState {
    /// A state for `buffer` without overlays or indicators.
    pub fn new(buffer: Buffer) -> (r: EditorState)
        ensures
            r.buffer == buffer,
            r.overlays@.len() == 0,
            r.margin_lines@.len() == 0,
            r.diagnostic_hash.is_none(),
    {
        EditorState {
            buffer,
            overlays: Vec::new(),
            margin_lines: Vec::new(),
            diagnostic_hash: None,
        }
    }
}

/// Relies on std's `BuildHasher::hash_one` with the fixed-key `DefaultHasher`:
/// the hash depends on the diagnostics' fields alone.
#[verifier::external_body]
fn hash_diagnostics(diagnostics: &Vec<Diagnostic>) -> (r: u64)
    ensures
        r == diagnostics_hash(diagnostic_views(diagnostics@)),
{
    BuildHasherDefault::<DefaultHasher>::default().hash_one(diagnostics)
}

/// The level shown for a severity code (see `level_of`).
pub fn diagnostic_level(severity: Option<i32>) -> (r: Option<DiagnosticLevel>)
    ensures
        r == level_of(severity),
{
    match severity {
        None => Some(DiagnosticLevel::Hint),
        Some(c) => if c == SEVERITY_ERROR {
            Some(DiagnosticLevel::Error)
        } else if c == SEVERITY_WARNING {
            Some(DiagnosticLevel::Warning)
        } else if c == SEVERITY_INFORMATION {
            Some(DiagnosticLevel::Information)
        } else if c == SEVERITY_HINT {
            Some(DiagnosticLevel::Hint)
        } else {
            None
        },
    }
}

/// The overlay priority of a level (see `priority_of`).
pub fn diagnostic_priority(level: DiagnosticLevel) -> (r: i32)
    ensures
        r == priority_of(level),
{
    match level {
        DiagnosticLevel::Error => 100,
        DiagnosticLevel::Warning => 50,
        DiagnosticLevel::Information => 30,
        DiagnosticLevel::Hint => 10,
    }
}

/// Converts a diagnostic to the byte span it covers in `buffer`, its level and
/// its priority; `None` when its severity code is unknown or its range ends
/// before it starts.
pub fn diagnostic_to_overlay(diagnostic: &Diagnostic, buffer: &Buffer) -> (r: Option<
    ((usize, usize), DiagnosticLevel, i32),
>)
    ensures
        r is None <==> overlay_of(diagnostic@, buffer@) is None,
        r matches Some(v) ==> overlay_of(diagnostic@, buffer@) matches Some(o) && v.0.0 == o.1
            && v.0.1 == o.2 && v.1 == o.3 && v.2 == o.4,
        r matches Some(v) ==> v.0.0 <= v.0.1 <= buffer@.len(),
{
    let start_byte = buffer.lsp_position_to_byte(
        diagnostic.start_line as usize,
        diagnostic.start_character as usize,
    );
    let end_byte = buffer.lsp_position_to_byte(
        diagnostic.end_line as usize,
        diagnostic.end_character as usize,
    );
    if start_byte > end_byte {
        return None;
    }
    match diagnostic_level(diagnostic.severity) {
        Some(level) => Some(((start_byte, end_byte), level, diagnostic_priority(level))),
        None => None,
    }
}

/// The identity of a diagnostic: its start position and the first
/// `ID_PREFIX_CHARS` characters of its message.
pub fn diagnostic_id(diagnostic: &Diagnostic) -> (r: DiagnosticId)
    ensures
        r@ == key_of(diagnostic@),
{
    let message = diagnostic.message.as_str();
    let n = message.unicode_len();
    let k = if n < ID_PREFIX_CHARS {
        n
    } else {
        ID_PREFIX_CHARS
    };
    let prefix = message.substring_char(0, k).to_owned();
    DiagnosticId { line: diagnostic.start_line, character: diagnostic.start_character, prefix }
}

/// True when the two identities are equal.
pub fn same_id(a: &DiagnosticId, b: &DiagnosticId) -> (r: bool)
    ensures
        r == (a@ == b@),
{
    a.line == b.line && a.character == b.character && a.prefix == b.prefix
}

fn copy_id(id: &DiagnosticId) -> (r: DiagnosticId)
    ensures
        r@ == id@,
{
    DiagnosticId { line: id.line, character: id.character, prefix: id.prefix.clone() }
}

fn copy_overlay(o: &Overlay) -> (r: Overlay)
    ensures
        r@ == o@,
{
    Overlay {
        id: copy_id(&o.id),
        start: o.start,
        end: o.end,
        level: o.level,
        priority: o.priority,
        message: o.message.clone(),
    }
}

fn ids_contain(ids: &Vec<DiagnosticId>, id: &DiagnosticId) -> (r: bool)
    ensures
        r == exists|i: int| 0 <= i < ids@.len() && ids@[i]@ == id@,
{
    let mut i: usize = 0;
    while i < ids.len()
        invariant
            i <= ids@.len(),
            forall|k: int| 0 <= k < i ==> ids@[k]@ != id@,
        decreases ids@.len() - i,
    {
        if same_id(&ids[i], id) {
            return true;
        }
        i = i + 1;
    }
    false
}

fn overlays_contain(os: &Vec<Overlay>, id: &DiagnosticId) -> (r: bool)
    ensures
        r == has_overlay_key(overlay_views(os@), id@),
{
    let mut i: usize = 0;
    while i < os.len()
        invariant
            i <= os@.len(),
            forall|k: int| 0 <= k < i ==> os@[k].id@ != id@,
        decreases os@.len() - i,
    {
        if same_id(&os[i].id, id) {
            proof {
                assert(overlay_views(os@)[i as int].0 == id@);
            }
            return true;
        }
        i = i + 1;
    }
    proof {
        assert forall|k: int| 0 <= k < os@.len() implies overlay_views(os@)[k].0 != id@ by {
            assert(overlay_views(os@)[k] == os@[k]@);
        }
    }
    false
}

fn lines_contain(lines: &Vec<u32>, line: u32) -> (r: bool)
    ensures
        r == lines@.contains(line),
{
    let mut i: usize = 0;
    while i < lines.len()
        invariant
            i <= lines@.len(),
            forall|k: int| 0 <= k < i ==> lines@[k] != line,
        decreases lines@.len() - i,
    {
        if lines[i] == line {
            return true;
        }
        i = i + 1;
    }
    false
}

/// Reconciles the overlays of `state` with `diagnostics`: an overlay whose
/// identity no diagnostic has any more is removed, an overlay whose identity is
/// still present is kept untouched, and each diagnostic whose identity had no
/// overlay gets one (when its severity is known). The margin then shows an
/// indicator on the start line of every diagnostic that has an overlay.
pub fn apply_diagnostics_to_state(state: &mut EditorState, diagnostics: &Vec<Diagnostic>)
    ensures
        final(state).buffer == old(state).buffer,
        final(state).diagnostic_hash == old(state).diagnostic_hash,
        overlay_views(final(state).overlays@) == reconciled_overlays(
            overlay_views(old(state).overlays@),
            diagnostic_views(diagnostics@),
            old(state).buffer@,
        ),
        final(state).margin_lines@.no_duplicates(),
        final(state).margin_lines@.to_set() == margin_line_set(
            overlay_views(old(state).overlays@),
            diagnostic_views(diagnostics@),
            old(state).buffer@,
        ),
{
    let ghost ds = diagnostic_views(diagnostics@);
    let ghost os = overlay_views(state.overlays@);
    let ghost t = state.buffer@;
    let mut incoming: Vec<DiagnosticId> = Vec::new();
    let mut i: usize = 0;
    while i < diagnostics.len()
        invariant
            i <= diagnostics@.len(),
            ds == diagnostic_views(diagnostics@),
            incoming@.len() == i,
            forall|k: int| 0 <= k < i ==> #[trigger] incoming@[k]@ == key_of(ds[k]),
        decreases diagnostics@.len() - i,
    {
        let id = diagnostic_id(&diagnostics[i]);
        incoming.push(id);
        i = i + 1;
    }
    let ghost keep = |o: OverlayView| has_diagnostic_key(ds, o.0);
    let mut next: Vec<Overlay> = Vec::new();
    let mut j: usize = 0;
    while j < state.overlays.len()
        invariant
            j <= state.overlays@.len(),
            os == overlay_views(state.overlays@),
            ds == diagnostic_views(diagnostics@),
            incoming@.len() == ds.len(),
            forall|k: int| 0 <= k < ds.len() ==> #[trigger] incoming@[k]@ == key_of(ds[k]),
            keep == (|o: OverlayView| has_diagnostic_key(ds, o.0)),
            overlay_views(next@) == os.subrange(0, j as int).filter(keep),
        decreases state.overlays@.len() - j,
    {
        let o = &state.overlays[j];
        let present = ids_contain(&incoming, &o.id);
        proof {
            let pre = os.subrange(0, j as int);
            assert(os.subrange(0, j + 1) == pre.push(o@));
            assert(pre.push(o@).drop_last() == pre);
            assert(pre.push(o@).last() == o@);
            reveal(Seq::filter);
            if present {
                let k = choose|k: int| 0 <= k < incoming@.len() && incoming@[k]@ == o.id@;
                assert(key_of(ds[k]) == o@.0);
                assert(has_diagnostic_key(ds, o@.0));
                assert(keep(o@));
                assert(os.subrange(0, j + 1).filter(keep) == pre.filter(keep).push(o@));
            } else {
                assert forall|k: int| 0 <= k < ds.len() implies key_of(ds[k]) != o@.0 by {
                    assert(incoming@[k]@ == key_of(ds[k]));
                }
                assert(!has_diagnostic_key(ds, o@.0));
                assert(!keep(o@));
                assert(os.subrange(0, j + 1).filter(keep) == pre.filter(keep));
            }
        }
        if present {
            let c = copy_overlay(o);
            let ghost before = overlay_views(next@);
            next.push(c);
            proof {
                assert(overlay_views(next@) == before.push(c@));
            }
        }
        j = j + 1;
    }
    proof {
        assert(os.subrange(0, j as int) == os);
    }
    let ghost kept = overlay_views(next@);
    let mut lines: Vec<u32> = Vec::new();
    let mut i: usize = 0;
    while i < diagnostics.len()
        invariant
            i <= diagnostics@.len(),
            os == overlay_views(state.overlays@),
            ds == diagnostic_views(diagnostics@),
            t == state.buffer@,
            overlay_views(next@) == kept + added_overlays(os, ds.subrange(0, i as int), t),
            lines@ == margin_seq(os, ds.subrange(0, i as int), t),
        decreases diagnostics@.len() - i,
    {
        let d = &diagnostics[i];
        let ghost pre = ds.subrange(0, i as int);
        proof {
            assert(ds.subrange(0, i + 1) == pre.push(d@));
            assert(pre.push(d@).drop_last() == pre);
            assert(ds[i as int] == d@);
        }
        let id = diagnostic_id(d);
        let mut shown = false;
        if overlays_contain(&state.overlays, &id) {
            shown = true;
        } else {
            match diagnostic_to_overlay(d, &state.buffer) {
                Some((range, level, priority)) => {
                    let ov = Overlay {
                        id,
                        start: range.0,
                        end: range.1,
                        level,
                        priority,
                        message: d.message.clone(),
                    };
                    let ghost before = overlay_views(next@);
                    next.push(ov);
                    proof {
                        assert(overlay_views(next@) == before.push(ov@));
                    }
                    shown = true;
                },
                None => {},
            }
        }
        if shown && !lines_contain(&lines, d.start_line) {
            lines.push(d.start_line);
        }
        i = i + 1;
    }
    proof {
        assert(ds.subrange(0, i as int) == ds);
        lemma_margin_seq(os, ds, t);
    }
    state.overlays = next;
    state.margin_lines = lines;
}

/// Applies `diagnostics` as `apply_diagnostics_to_state` does, unless their hash
/// equals the hash of the last set applied: then nothing changes at all.
pub fn apply_diagnostics_to_state_cached(state: &mut EditorState, diagnostics: &Vec<Diagnostic>)
    ensures
        old(state).diagnostic_hash == Some(diagnostics_hash(diagnostic_views(diagnostics@)))
            ==> *final(state) == *old(state),
        old(state).diagnostic_hash != Some(diagnostics_hash(diagnostic_views(diagnostics@)))
            ==> final(state).buffer == old(state).buffer && final(state).diagnostic_hash == Some(
            diagnostics_hash(diagnostic_views(diagnostics@)),
        ) && overlay_views(final(state).overlays@) == reconciled_overlays(
            overlay_views(old(state).overlays@),
            diagnostic_views(diagnostics@),
            old(state).buffer@,
        ) && final(state).margin_lines@.no_duplicates() && final(state).margin_lines@.to_set()
            == margin_line_set(
            overlay_views(old(state).overlays@),
            diagnostic_views(diagnostics@),
            old(state).buffer@,
        ),
{
    let new_hash = hash_diagnostics(diagnostics);
    if let Some(cached_hash) = state.diagnostic_hash {
        if cached_hash == new_hash {
            return;
        }
    }
    apply_diagnostics_to_state(state, diagnostics);
    state.diagnostic_hash = Some(new_hash);
}

proof fn lemma_filter_all(s: Seq<OverlayView>, p: spec_fn(OverlayView) -> bool)
    requires
        forall|i: int| 0 <= i < s.len() ==> p(#[trigger] s[i]),
    ensures
        s.filter(p) == s,
    decreases s.len(),
{
    reveal(Seq::filter);
    if s.len() > 0 {
        let q = s.drop_last();
        assert forall|i: int| 0 <= i < q.len() implies p(#[trigger] q[i]) by {
            assert(q[i] == s[i]);
        }
        lemma_filter_all(q, p);
        assert(p(s[s.len() - 1]));
        assert(q.push(s.last()) == s);
    }
}

proof fn lemma_added_keys_from(existing: Seq<OverlayView>, ds: Seq<DiagnosticView>, t: Seq<u8>)
    ensures
        forall|j: int|
            0 <= j < added_overlays(existing, ds, t).len() ==> has_diagnostic_key(
                ds,
                #[trigger] added_overlays(existing, ds, t)[j].0,
            ),
    decreases ds.len(),
{
    if ds.len() > 0 {
        let q = ds.drop_last();
        lemma_added_keys_from(existing, q, t);
        let rest = added_overlays(existing, q, t);
        let a = added_overlays(existing, ds, t);
        assert forall|j: int| 0 <= j < a.len() implies has_diagnostic_key(ds, #[trigger] a[j].0) by {
            if j < rest.len() {
                assert(a[j] == rest[j]);
                assert(has_diagnostic_key(q, rest[j].0));
                let k = choose|k: int| 0 <= k < q.len() && key_of(q[k]) == rest[j].0;
                assert(ds[k] == q[k]);
            } else {
                assert(key_of(ds[ds.len() - 1]) == a[j].0);
            }
        }
    }
}

proof fn lemma_added_holds_new(existing: Seq<OverlayView>, ds: Seq<DiagnosticView>, t: Seq<u8>, i: int)
    requires
        0 <= i < ds.len(),
        !has_overlay_key(existing, key_of(ds[i])),
        overlay_of(ds[i], t) is Some,
    ensures
        has_overlay_key(added_overlays(existing, ds, t), key_of(ds[i])),
    decreases ds.len(),
{
    let q = ds.drop_last();
    let rest = added_overlays(existing, q, t);
    let a = added_overlays(existing, ds, t);
    if i < ds.len() - 1 {
        assert(q[i] == ds[i]);
        lemma_added_holds_new(existing, q, t, i);
        let k = choose|k: int| 0 <= k < rest.len() && rest[k].0 == key_of(ds[i]);
        assert(a[k] == rest[k]);
    } else {
        assert(a[a.len() - 1].0 == key_of(ds[i]));
    }
}

proof fn lemma_added_none(existing: Seq<OverlayView>, ds: Seq<DiagnosticView>, t: Seq<u8>)
    requires
        forall|i: int|
            0 <= i < ds.len() ==> has_overlay_key(existing, key_of(#[trigger] ds[i])) || overlay_of(
                ds[i],
                t,
            ) is None,
    ensures
        added_overlays(existing, ds, t) == Seq::<OverlayView>::empty(),
    decreases ds.len(),
{
    if ds.len() > 0 {
        let q = ds.drop_last();
        assert forall|i: int| 0 <= i < q.len() implies has_overlay_key(
            existing,
            key_of(#[trigger] q[i]),
        ) || overlay_of(q[i], t) is None by {
            assert(q[i] == ds[i]);
        }
        lemma_added_none(existing, q, t);
        assert(has_overlay_key(existing, key_of(ds[ds.len() - 1])) || overlay_of(
            ds[ds.len() - 1],
            t,
        ) is None);
    }
}

/// Reconciling overlays with the same diagnostics a second time changes nothing:
/// no overlay is removed and none is added.
pub proof fn lemma_reapply_changes_nothing(
    existing: Seq<OverlayView>,
    ds: Seq<DiagnosticView>,
    t: Seq<u8>,
)
    ensures
        reconciled_overlays(reconciled_overlays(existing, ds, t), ds, t) == reconciled_overlays(
            existing,
            ds,
            t,
        ),
{
    let keep = |o: OverlayView| has_diagnostic_key(ds, o.0);
    let kept = existing.filter(keep);
    let added = added_overlays(existing, ds, t);
    let r = reconciled_overlays(existing, ds, t);
    assert(r == kept + added);
    broadcast use vstd::seq_lib::group_filter_ensures;

    lemma_added_keys_from(existing, ds, t);
    assert forall|i: int| 0 <= i < r.len() implies keep(#[trigger] r[i]) by {
        if i < kept.len() {
            assert(r[i] == kept[i]);
        } else {
            assert(r[i] == added[i - kept.len()]);
        }
    }
    lemma_filter_all(r, keep);
    assert forall|i: int| 0 <= i < ds.len() implies has_overlay_key(r, key_of(#[trigger] ds[i]))
        || overlay_of(ds[i], t) is None by {
        if overlay_of(ds[i], t) is Some {
            if has_overlay_key(existing, key_of(ds[i])) {
                let k = choose|k: int| 0 <= k < existing.len() && existing[k].0 == key_of(ds[i]);
                assert(keep(existing[k]));
                existing.lemma_filter_contains_rev(keep, existing[k]);
                let m = choose|m: int| 0 <= m < kept.len() && kept[m] == existing[k];
                assert(r[m] == kept[m]);
            } else {
                lemma_added_holds_new(existing, ds, t, i);
                let m = choose|m: int| 0 <= m < added.len() && added[m].0 == key_of(ds[i]);
                assert(r[kept.len() + m] == added[m]);
            }
        }
    }
    lemma_added_none(r, ds, t);
    assert(reconciled_overlays(r, ds, t) == r.filter(keep) + added_overlays(r, ds, t));
    assert(r + Seq::<OverlayView>::empty() == r);
}

} // verus!
