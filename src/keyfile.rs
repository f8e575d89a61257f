//! The key file: an 8-byte little-endian count `N`, then `N` keys of 8
//! little-endian bytes each. Bytes after the last key are ignored.

use vstd::bytes::{spec_u64_from_le_bytes, u64_from_le_bytes};
use vstd::prelude::*;
use vstd::slice::slice_subrange;

verus! {

/// The count in the file's header.
pub open spec fn key_count(bytes: Seq<u8>) -> int {
    spec_u64_from_le_bytes(bytes.subrange(0, 8)) as int
}

/// The `i`-th key of the file.
pub open spec fn key_in_file(bytes: Seq<u8>, i: int) -> u64 {
    spec_u64_from_le_bytes(bytes.subrange(8 + 8 * i, 16 + 8 * i))
}

/// The bytes hold a header and as many keys as it counts.
pub open spec fn complete_file(bytes: Seq<u8>) -> bool {
    bytes.len() >= 8 && bytes.len() >= 8 + 8 * key_count(bytes)
}

/// Reads the keys of a key file; `None` when the bytes end before the
/// header or before the last key that the header counts.
pub fn decode_keys(bytes: &[u8]) -> (r: Option<Vec<u64>>)
    ensures
        match r {
            Some(keys) => complete_file(bytes@) && keys@.len() == key_count(bytes@) && forall|i: int|
                0 <= i < keys@.len() ==> #[trigger] keys@[i] == key_in_file(bytes@, i),
            None => !complete_file(bytes@),
        },
{
    let len = bytes.len();
    if len < 8 {
        return None;
    }
    let count = u64_from_le_bytes(slice_subrange(bytes, 0, 8));
    if count > ((len - 8) / 8) as u64 {
        return None;
    }
    let count = count as usize;
    let mut keys: Vec<u64> = Vec::new();
    let mut i: usize = 0;
    while i < count
        invariant
            len == bytes@.len(),
            len >= 8,
            count == key_count(bytes@),
            8 + 8 * count <= len,
            i <= count,
            keys@.len() == i,
            forall|q: int| 0 <= q < i ==> #[trigger] keys@[q] == key_in_file(bytes@, q),
        decreases count - i,
    {
        let at = 8 + 8 * i;
        keys.push(u64_from_le_bytes(slice_subrange(bytes, at, at + 8)));
        i = i + 1;
    }
    Some(keys)
}

} // verus!
