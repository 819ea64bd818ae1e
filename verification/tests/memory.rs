use drone_core::heap::{Memory, WORD_SIZE};

#[test]
fn new_memory_is_zeroed() {
    let memory = Memory::new(0x100, 32);
    assert_eq!(memory.origin(), 0x100);
    assert_eq!(memory.size(), 32);
    assert_eq!(memory.as_slice(), &[0u8; 32]);
}

#[test]
fn memory_knows_its_range() {
    let memory = Memory::new(0x100, 32);
    assert!(memory.contains(0x100, 32));
    assert!(memory.contains(0x11F, 1));
    assert!(memory.contains(0x120, 0));
    assert!(!memory.contains(0x120, 1));
    assert!(!memory.contains(0xFF, 1));
    assert!(!memory.contains(0x100, 33));
    assert!(!memory.contains(0x110, usize::MAX));
    assert!(!memory.contains(usize::MAX, 2));
}

#[test]
fn bytes_are_read_back_where_they_were_written() {
    let mut memory = Memory::new(0x100, 4);
    memory.write(0x101, 0xAB);
    memory.write(0x103, 0xCD);
    assert_eq!(memory.read(0x100), 0);
    assert_eq!(memory.read(0x101), 0xAB);
    assert_eq!(memory.read(0x103), 0xCD);
    assert_eq!(memory.as_slice(), &[0, 0xAB, 0, 0xCD]);
}

#[test]
fn words_are_little_endian() {
    assert_eq!(WORD_SIZE, 8);
    let mut memory = Memory::new(0x100, 12);
    memory.write_word(0x102, 0x0102_0304_0506_0708);
    assert_eq!(memory.as_slice(), &[0, 0, 8, 7, 6, 5, 4, 3, 2, 1, 0, 0]);
    assert_eq!(memory.read_word(0x102), 0x0102_0304_0506_0708);
    assert_eq!(memory.read_word(0x100), 0x0304_0506_0708_0000);
    memory.write_word(0x104, u64::MAX);
    assert_eq!(memory.as_slice(), &[0, 0, 8, 7, 255, 255, 255, 255, 255, 255, 255, 255]);
}

#[test]
fn copy_moves_a_range_and_nothing_else() {
    let mut memory = Memory::new(0x100, 10);
    for i in 0..5 {
        memory.write(0x100 + i, 1 + i as u8);
    }
    memory.copy(0x101, 0x106, 3);
    assert_eq!(memory.as_slice(), &[1, 2, 3, 4, 5, 0, 2, 3, 4, 0]);
    memory.copy(0x100, 0x109, 0);
    assert_eq!(memory.as_slice(), &[1, 2, 3, 4, 5, 0, 2, 3, 4, 0]);
    memory.copy(0x106, 0x100, 4);
    assert_eq!(memory.as_slice(), &[2, 3, 4, 0, 5, 0, 2, 3, 4, 0]);
}

#[test]
fn fill_sets_a_range_and_nothing_else() {
    let mut memory = Memory::new(0x100, 6);
    memory.fill(0x101, 0x5A, 4);
    assert_eq!(memory.as_slice(), &[0, 0x5A, 0x5A, 0x5A, 0x5A, 0]);
    memory.fill(0x102, 0, 2);
    assert_eq!(memory.as_slice(), &[0, 0x5A, 0, 0, 0x5A, 0]);
    memory.fill(0x106, 0xFF, 0);
    assert_eq!(memory.as_slice(), &[0, 0x5A, 0, 0, 0x5A, 0]);
}
