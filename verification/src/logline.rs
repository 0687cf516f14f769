//! The limits of the application log: a record longer than the line limit is
//! cut at a character boundary, and the file is rotated before it would grow
//! past the file limit.

use vstd::prelude::*;

use vstd::string::StringSliceAdditionalSpecFns;
use vstd::utf8::{encode_utf8_valid_utf8, is_char_boundary, valid_utf8};

verus! {

/// Most bytes of one log record.
pub const LOG_LINE_MAX: usize = 65536;

/// Most bytes of one log file.
pub const LOG_FILE_MAX: u64 = 2097152;

/// The largest character boundary of `b` at or below `k` (0 at the least).
pub open spec fn boundary_below(b: Seq<u8>, k: int) -> int
    decreases k,
{
    if k <= 0 {
        0
    } else if is_char_boundary(b, k) {
        k
    } else {
        boundary_below(b, k - 1)
    }
}

/// Where a record is cut: `None` when it fits in [`LOG_LINE_MAX`] bytes,
/// else the largest character boundary at or below that limit.
pub fn log_line_cut(line: &str) -> (r: Option<usize>)
    ensures
        match r {
            Some(k) => line.spec_bytes().len() > LOG_LINE_MAX && k == boundary_below(
                line.spec_bytes(),
                LOG_LINE_MAX as int,
            ) && is_char_boundary(line.spec_bytes(), k as int),
            None => line.spec_bytes().len() <= LOG_LINE_MAX,
        },
{
    let n = line.as_bytes().len();
    if n <= LOG_LINE_MAX {
        return None;
    }
    proof {
        encode_utf8_valid_utf8(line@);
    }
    let mut end: usize = LOG_LINE_MAX;
    while !line.is_char_boundary(end)
        invariant
            0 <= end <= LOG_LINE_MAX,
            valid_utf8(line.spec_bytes()),
            boundary_below(line.spec_bytes(), end as int) == boundary_below(line.spec_bytes(), LOG_LINE_MAX as int),
        decreases end,
    {
        end = end - 1;
    }
    Some(end)
}

/// Whether the log file is rotated before a record of `line` bytes is
/// appended to a file of `size` bytes: when it would pass [`LOG_FILE_MAX`].
pub fn log_needs_rotation(size: u64, line: usize) -> (r: bool)
    ensures
        r == (size + line > LOG_FILE_MAX),
{
    if size > LOG_FILE_MAX {
        true
    } else {
        line as u64 > LOG_FILE_MAX - size
    }
}

} // verus!
