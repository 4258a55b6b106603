use syntree::pointer::Width;
use syntree::Links;

// These might not always hold, due to alignment, but it is nice to ensure
// that a node takes no more room than its data, its span and five pointers.
#[test]
fn test_size() {
    assert!(
        (std::mem::size_of::<Links<[u8; 8], u32, <u16 as Width>::Pointer>>() as isize
            - (std::mem::size_of::<[u8; 8]>() as isize
                + ((u32::BITS * 2) / 8) as isize
                + ((u16::BITS * 5) / 8) as isize))
            .abs()
            <= 4
    );
    assert!(
        (std::mem::size_of::<Links<[u8; 8], u32, <u32 as Width>::Pointer>>() as isize
            - (std::mem::size_of::<[u8; 8]>() as isize
                + ((u32::BITS * 2) / 8) as isize
                + ((u32::BITS * 5) / 8) as isize))
            .abs()
            <= 4
    );
    assert!(
        (std::mem::size_of::<Links<[u8; 8], u32, <u64 as Width>::Pointer>>() as isize
            - (std::mem::size_of::<[u8; 8]>() as isize
                + ((u32::BITS * 2) / 8) as isize
                + ((u64::BITS * 5) / 8) as isize))
            .abs()
            <= 4
    );
    assert!(
        (std::mem::size_of::<Links<[u8; 8], u32, <u128 as Width>::Pointer>>() as isize
            - (std::mem::size_of::<[u8; 8]>() as isize
                + ((u32::BITS * 2) / 8) as isize
                + ((u128::BITS * 5) / 8) as isize))
            .abs()
            <= 4
    );
}
