//! Constants of the file formats.
use vstd::prelude::*;

verus! {

/// Magic bytes for file identification: `CRYODAT1` in ASCII
pub const DATA_MAGIC: [u8; 8] = [67, 82, 89, 79, 68, 65, 84, 49];

/// Maximum file size before rotation (1GB)
pub const MAX_FILE_SIZE: u64 = 1024 * 1024 * 1024;

/// Size of the pending log above which it is flushed by itself (256KB)
pub const PENDING_LIMIT: u64 = 256 * 1024;

/// Sessions per block of a bulk import: a reasonable tradeoff for search vs
/// compression
pub const BULK_CHUNK: usize = 100;

} // verus!
