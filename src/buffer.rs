//! A read-only byte view of the text being edited.
use vstd::prelude::*;
use crate::config::LARGE_FILE_THRESHOLD_BYTES;
use vstd::string::StringSliceAdditionalSpecFns;
use crate::text::{lemma_line_start_saturates, lemma_next_newline, line_start, next_newline, NEWLINE};

verus! {

/// Length in bytes of the UTF-8 sequence that starts with `lead`; a stray
/// continuation byte counts as one.
pub open spec fn utf8_width(lead: u8) -> int {
    if lead < 0xC0 {
        1
    } else if lead < 0xE0 {
        2
    } else if lead < 0xF0 {
        3
    } else {
        4
    }
}

/// UTF-16 code units of the character that starts with `lead`.
pub open spec fn utf16_units(lead: u8) -> int {
    if lead >= 0xF0 {
        2
    } else {
        1
    }
}

/// From `pos`, step over whole characters until `units` UTF-16 code units are
/// covered, stopping early at a newline or at the end of `t`.
pub open spec fn advance_utf16(t: Seq<u8>, pos: int, units: int) -> int
    decreases t.len() - pos,
{
    if pos < 0 || pos >= t.len() || units <= 0 || t[pos] == NEWLINE {
        pos
    } else {
        let next = if pos + utf8_width(t[pos]) > t.len() {
            t.len() as int
        } else {
            pos + utf8_width(t[pos])
        };
        advance_utf16(t, next, units - utf16_units(t[pos]))
    }
}

/// The byte offset of a protocol position: `character` UTF-16 code units into
/// line `line`, clamped to the end of that line; the end of `t` when there is no
/// such line.
pub open spec fn lsp_position_offset(t: Seq<u8>, line: nat, character: int) -> int {
    advance_utf16(t, line_start(t, line), character)
}

/// The bytes of a text, with the size from which it counts as a large file.
pub struct Buffer {
    bytes: Vec<u8>,
    large_file_threshold: usize,
}

impl Buffer {
    /// The bytes of the text.
    pub closed spec fn view(&self) -> Seq<u8> {
        self.bytes@
    }

    /// The large-file threshold the buffer was made with.
    pub closed spec fn spec_threshold(&self) -> usize {
        self.large_file_threshold
    }

    /// A buffer holding the UTF-8 bytes of `s`, with the given large-file threshold.
    pub fn from_str(s: &str, large_file_threshold: usize) -> (r: Buffer)
        ensures
            r@ == s.spec_bytes(),
            r.spec_threshold() == large_file_threshold,
    {
        let b = s.as_bytes();
        let mut bytes: Vec<u8> = Vec::new();
        let mut i: usize = 0;
        while i < b.len()
            invariant
                i <= b@.len(),
                bytes@ == b@.subrange(0, i as int),
            decreases b@.len() - i,
        {
            bytes.push(b[i]);
            i = i + 1;
            proof {
                assert(bytes@ == b@.subrange(0, i as int));
            }
        }
        proof {
            assert(bytes@ == b@);
        }
        Buffer { bytes, large_file_threshold }
    }

    /// A buffer holding the UTF-8 bytes of `s`, with the default large-file threshold.
    pub fn from_str_test(s: &str) -> (r: Buffer)
        ensures
            r@ == s.spec_bytes(),
            r.spec_threshold() == LARGE_FILE_THRESHOLD_BYTES as usize,
    {
        Buffer::from_str(s, LARGE_FILE_THRESHOLD_BYTES as usize)
    }

    /// Length in bytes.
    pub fn len(&self) -> (r: usize)
        ensures
            r == self@.len(),
    {
        self.bytes.len()
    }

    /// The large-file threshold the buffer was made with.
    pub fn large_file_threshold(&self) -> (r: usize)
        ensures
            r == self.spec_threshold(),
    {
        self.large_file_threshold
    }

    /// The byte at offset `i`.
    pub fn byte_at(&self, i: usize) -> (r: u8)
        requires
            i < self@.len(),
        ensures
            r == self@[i as int],
    {
        self.bytes[i]
    }

    /// The byte offset of the position `character` UTF-16 code units into line
    /// `line`; a column past the line's end gives the line's end, a line past the
    /// text's end gives the text's length.
    pub fn lsp_position_to_byte(&self, line: usize, character: usize) -> (r: usize)
        ensures
            r == lsp_position_offset(self@, line as nat, character as int),
            r <= self@.len(),
    {
        let ghost t = self@;
        let len = self.bytes.len();
        let mut pos: usize = 0;
        let mut k: usize = 0;
        while k < line
            invariant
                t == self@,
                len == t.len(),
                k <= line,
                pos <= len,
                pos == line_start(t, k as nat),
            decreases line - k,
        {
            let mut e = pos;
            while e < len && self.bytes[e] != NEWLINE
                invariant
                    t == self@,
                    len == t.len(),
                    pos <= e <= len,
                    next_newline(t, pos as int) == next_newline(t, e as int),
                decreases len - e,
            {
                e = e + 1;
            }
            proof {
                lemma_next_newline(t, pos as int);
            }
            if e >= len {
                proof {
                    assert(line_start(t, (k + 1) as nat) == len);
                    lemma_line_start_saturates(t, (k + 1) as nat, line as nat);
                }
                return len;
            }
            pos = e + 1;
            k = k + 1;
        }
        let mut units: usize = character;
        while pos < len && units > 0 && self.bytes[pos] != NEWLINE
            invariant
                t == self@,
                len == t.len(),
                pos <= len,
                advance_utf16(t, line_start(t, line as nat), character as int) == advance_utf16(
                    t,
                    pos as int,
                    units as int,
                ),
            decreases len - pos,
        {
            let lead = self.bytes[pos];
            let width: usize = if lead < 0xC0 {
                1
            } else if lead < 0xE0 {
                2
            } else if lead < 0xF0 {
                3
            } else {
                4
            };
            let used: usize = if lead >= 0xF0 {
                2
            } else {
                1
            };
            let ghost p0 = pos as int;
            let ghost u0 = units as int;
            pos = if len - pos < width {
                len
            } else {
                pos + width
            };
            units = if units > used {
                units - used
            } else {
                0
            };
            proof {
                assert(utf8_width(lead) == width && utf16_units(lead) == used);
                assert(advance_utf16(t, p0, u0) == advance_utf16(t, pos as int, u0 - used));
                if u0 - used <= 0 {
                    assert(advance_utf16(t, pos as int, u0 - used) == pos);
                    assert(advance_utf16(t, pos as int, 0) == pos);
                }
            }
        }
        pos
    }
}

} // verus!
