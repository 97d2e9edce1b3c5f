//! Byte-level facts about lines in a text: where each line starts and ends,
//! and which line a byte belongs to.
use vstd::prelude::*;

verus! {

/// The newline byte.
pub const NEWLINE: u8 = 10;

/// True when `pos` is the first byte of some line of `t` (or the end of `t`
/// right after a newline).
pub open spec fn is_line_start(t: Seq<u8>, pos: int) -> bool {
    pos == 0 || (0 < pos <= t.len() && t[pos - 1] == NEWLINE)
}

/// The position of the first newline at or after `p`, or `t.len()` if there is none.
pub open spec fn next_newline(t: Seq<u8>, p: int) -> int
    decreases t.len() - p,
{
    if p >= t.len() {
        t.len() as int
    } else if p >= 0 && t[p] == NEWLINE {
        p
    } else {
        next_newline(t, p + 1)
    }
}

/// The start of the line that holds position `p`: just after the last newline
/// before `p`, or 0 if there is none.
pub open spec fn prev_line_start(t: Seq<u8>, p: int) -> int
    decreases p,
{
    if p <= 0 {
        0
    } else if t[p - 1] == NEWLINE {
        p
    } else {
        prev_line_start(t, p - 1)
    }
}

/// The byte offset at which line `n` starts; `t.len()` when `t` has no line `n`.
pub open spec fn line_start(t: Seq<u8>, n: nat) -> int
    decreases n,
{
    if n == 0 {
        0
    } else {
        let e = next_newline(t, line_start(t, (n - 1) as nat));
        if e < t.len() {
            e + 1
        } else {
            t.len() as int
        }
    }
}

/// The line that byte `b` lies on: the number of newlines before it.
pub open spec fn line_of(t: Seq<u8>, b: int) -> nat
    decreases b,
{
    if b <= 0 {
        0
    } else if t[b - 1] == NEWLINE {
        line_of(t, b - 1) + 1
    } else {
        line_of(t, b - 1)
    }
}

/// The number of lines of `t`: a final line without a newline counts, an empty
/// text has none.
pub open spec fn line_count(t: Seq<u8>) -> nat {
    if t.len() > 0 && t[t.len() - 1] != NEWLINE {
        line_of(t, t.len() as int) + 1
    } else {
        line_of(t, t.len() as int)
    }
}

/// The first newline at or after `p` lies within the text, and none comes before it.
pub proof fn lemma_next_newline(t: Seq<u8>, p: int)
    requires
        0 <= p <= t.len(),
    ensures
        p <= next_newline(t, p) <= t.len(),
        next_newline(t, p) < t.len() ==> t[next_newline(t, p)] == NEWLINE,
        forall|q: int| p <= q < next_newline(t, p) ==> t[q] != NEWLINE,
    decreases t.len() - p,
{
    if p < t.len() && t[p] != NEWLINE {
        lemma_next_newline(t, p + 1);
    }
}

/// The start of the line holding `p` is a line start at or before `p`, with no
/// newline between it and `p`.
pub proof fn lemma_prev_line_start(t: Seq<u8>, p: int)
    requires
        0 <= p <= t.len(),
    ensures
        0 <= prev_line_start(t, p) <= p,
        is_line_start(t, prev_line_start(t, p)),
        forall|q: int| prev_line_start(t, p) <= q < p ==> t[q] != NEWLINE,
    decreases p,
{
    if p > 0 && t[p - 1] != NEWLINE {
        lemma_prev_line_start(t, p - 1);
    }
}

/// A line's start stays within the text and is a line start.
pub proof fn lemma_line_start_bounds(t: Seq<u8>, n: nat)
    ensures
        0 <= line_start(t, n) <= t.len(),
        is_line_start(t, line_start(t, n)) || line_start(t, n) == t.len(),
    decreases n,
{
    if n > 0 {
        lemma_line_start_bounds(t, (n - 1) as nat);
        lemma_next_newline(t, line_start(t, (n - 1) as nat));
    }
}

/// No line before `b` is counted more than once: a line number never exceeds the offset.
pub proof fn lemma_line_of_le(t: Seq<u8>, b: int)
    requires
        0 <= b <= t.len(),
    ensures
        line_of(t, b) <= b,
    decreases b,
{
    if b > 0 {
        lemma_line_of_le(t, b - 1);
    }
}

/// Positions with no newline between them lie on the same line.
pub proof fn lemma_line_of_same(t: Seq<u8>, p: int, q: int)
    requires
        0 <= p <= q <= t.len(),
        forall|k: int| p <= k < q ==> t[k] != NEWLINE,
    ensures
        line_of(t, q) == line_of(t, p),
    decreases q - p,
{
    if q > p {
        lemma_line_of_same(t, p, q - 1);
    }
}

/// Lines beyond the last one all start at the end of the text.
pub proof fn lemma_line_start_saturates(t: Seq<u8>, i: nat, j: nat)
    requires
        i <= j,
        line_start(t, i) == t.len(),
    ensures
        line_start(t, j) == t.len(),
    decreases j - i,
{
    if j > i {
        lemma_line_start_saturates(t, i, (j - 1) as nat);
    }
}

/// Every byte lies within the span of its own line: from the line's start up to
/// the newline that ends it.
pub proof fn lemma_within_own_line(t: Seq<u8>, p: int)
    requires
        0 <= p <= t.len(),
    ensures
        line_start(t, line_of(t, p)) <= p <= next_newline(t, line_start(t, line_of(t, p))),
    decreases p,
{
    if p > 0 {
        lemma_within_own_line(t, p - 1);
        let n = line_of(t, p - 1);
        let s = line_start(t, n);
        lemma_line_start_bounds(t, n);
        lemma_next_newline(t, s);
        if t[p - 1] == NEWLINE {
            assert(line_start(t, n + 1) == p);
            lemma_next_newline(t, p);
        } else {
            assert(line_of(t, p) == n);
            assert(next_newline(t, s) != p - 1);
        }
    } else {
        lemma_next_newline(t, 0);
    }
}

/// The line number of a line's first byte is that line, for every line that exists.
pub proof fn lemma_line_of_line_start(t: Seq<u8>, n: nat)
    ensures
        line_of(t, line_start(t, n)) == if n <= line_of(t, t.len() as int) {
            n
        } else {
            line_of(t, t.len() as int)
        },
    decreases n,
{
    lemma_line_start_bounds(t, n);
    if n > 0 {
        let m = (n - 1) as nat;
        lemma_line_of_line_start(t, m);
        let s = line_start(t, m);
        lemma_line_start_bounds(t, m);
        lemma_next_newline(t, s);
        let e = next_newline(t, s);
        lemma_line_of_same(t, s, e);
        if e < t.len() {
            assert(line_of(t, e + 1) == line_of(t, e) + 1);
            lemma_line_of_mono(t, e + 1, t.len() as int);
        } else {
            lemma_line_of_mono(t, s, t.len() as int);
        }
    }
}

/// Line numbers do not decrease along the text.
pub proof fn lemma_line_of_mono(t: Seq<u8>, p: int, q: int)
    requires
        0 <= p <= q <= t.len(),
    ensures
        line_of(t, p) <= line_of(t, q),
    decreases q - p,
{
    if q > p {
        lemma_line_of_mono(t, p, q - 1);
    }
}

/// Line starts do not decrease with the line number.
pub proof fn lemma_line_start_mono(t: Seq<u8>, i: nat, j: nat)
    requires
        i <= j,
    ensures
        line_start(t, i) <= line_start(t, j),
    decreases j - i,
{
    if j > i {
        lemma_line_start_mono(t, i, (j - 1) as nat);
        lemma_line_start_bounds(t, (j - 1) as nat);
        lemma_next_newline(t, line_start(t, (j - 1) as nat));
    }
}

} // verus!
