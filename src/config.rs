//! Configuration constants.
use vstd::prelude::*;

verus! {

/// Files of at least this many bytes are handled in large-file mode.
pub const LARGE_FILE_THRESHOLD_BYTES: u64 = 1024 * 1024;

} // verus!
