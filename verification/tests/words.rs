use mmap_scan::bytes::{binary_search_u32_le, u32_le_at};

#[test]
fn unaligned_u32_offsets_support_sparse_binary_search() {
    let values = [0u32, 4, 11, 19, 31];
    let mut backing = vec![0xff];
    for value in values {
        backing.extend_from_slice(&value.to_le_bytes());
    }
    let offsets = &backing[1..];

    assert_eq!(binary_search_u32_le(offsets, 5, 11), Some(2));
    assert_eq!(binary_search_u32_le(offsets, 5, 12), None);
    assert_eq!(u32_le_at(offsets, 3), Some(19));
    assert_eq!(u32_le_at(offsets, 5), None);
}
