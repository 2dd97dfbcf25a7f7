//! Choosing the storage for a text by its size.

use vstd::prelude::*;

verus! {

/// Threshold in bytes above which to use rope storage (1 MiB).
pub const DEFAULT_LARGE_FILE_THRESHOLD: usize = 1048576;

/// Check if a file should be loaded with rope-based buffer.
pub fn should_use_rope(file_size: usize) -> (r: bool)
    ensures
        r == (file_size > DEFAULT_LARGE_FILE_THRESHOLD),
{
    file_size > DEFAULT_LARGE_FILE_THRESHOLD
}

/// Check if a file should be loaded with rope-based buffer with custom threshold.
pub fn should_use_rope_with_threshold(file_size: usize, threshold: usize) -> (r: bool)
    ensures
        r == (file_size > threshold),
{
    file_size > threshold
}

} // verus!
