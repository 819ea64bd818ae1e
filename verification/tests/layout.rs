use drone_core::heap::layout::is_power_of_two;
use drone_core::heap::{Layout, LayoutError};

#[test]
fn layout_keeps_size_and_alignment() {
    let layout = Layout::from_size_align(32, 8).unwrap();
    assert_eq!(layout.size(), 32);
    assert_eq!(layout.align(), 8);
    assert_eq!(layout.dangling(), 8);
    let empty = Layout::from_size_align(0, 1).unwrap();
    assert_eq!(empty.size(), 0);
    assert_eq!(empty.align(), 1);
    assert_eq!(empty.dangling(), 1);
}

#[test]
fn layout_rejects_an_alignment_that_is_no_power_of_two() {
    assert_eq!(Layout::from_size_align(8, 0), Err(LayoutError));
    assert_eq!(Layout::from_size_align(8, 3), Err(LayoutError));
    assert_eq!(Layout::from_size_align(8, 12), Err(LayoutError));
    assert_eq!(Layout::from_size_align(0, usize::MAX), Err(LayoutError));
}

#[test]
fn layout_rejects_a_size_that_overflows_when_rounded_up() {
    let max = isize::MAX as usize;
    assert!(Layout::from_size_align(max, 1).is_ok());
    assert_eq!(Layout::from_size_align(max + 1, 1), Err(LayoutError));
    assert!(Layout::from_size_align(max - 7, 8).is_ok());
    assert_eq!(Layout::from_size_align(max - 6, 8), Err(LayoutError));
    assert!(Layout::from_size_align(0, max + 1).is_ok());
    assert_eq!(Layout::from_size_align(1, max + 1), Err(LayoutError));
}

#[test]
fn layout_agrees_with_the_standard_library() {
    let sizes = [0, 1, 7, 8, 4096, isize::MAX as usize - 8, isize::MAX as usize, usize::MAX];
    let aligns = [0, 1, 2, 3, 4, 6, 8, 4096, 1 << 20, (isize::MAX as usize) + 1, usize::MAX];
    for size in sizes {
        for align in aligns {
            let expected = std::alloc::Layout::from_size_align(size, align).is_ok();
            assert_eq!(Layout::from_size_align(size, align).is_ok(), expected);
        }
    }
}

#[test]
fn powers_of_two_are_told_apart() {
    assert!(!is_power_of_two(0));
    assert!(is_power_of_two(1));
    assert!(is_power_of_two(2));
    assert!(!is_power_of_two(3));
    assert!(is_power_of_two(1024));
    assert!(!is_power_of_two(1025));
    assert!(is_power_of_two(1 << (usize::BITS - 1)));
    assert!(!is_power_of_two(usize::MAX));
    for n in 0..4096usize {
        assert_eq!(is_power_of_two(n), n.is_power_of_two());
    }
}
