use memflow_efi_service::phys_mem::PhysMemory;

#[test]
fn new_window_is_zero_filled() {
    let mem = PhysMemory::new(0x4000, 2);
    assert_eq!(mem.base_addr(), 0x4000);
    assert_eq!(mem.len(), 1024);
    assert_eq!(mem.read(0x4000), 0);
    assert_eq!(mem.read(0x5ff8), 0);
}

#[test]
fn written_word_reads_back() {
    let mut mem = PhysMemory::new(0x4000, 2);
    assert!(mem.write(0x4008, 0xdead_beef));
    assert!(mem.write(0x5ff8, 7));
    assert_eq!(mem.read(0x4008), 0xdead_beef);
    assert_eq!(mem.read(0x5ff8), 7);
    assert_eq!(mem.read(0x4000), 0);
    assert_eq!(mem.read(0x4010), 0);
}

#[test]
fn write_outside_the_window_is_refused() {
    let mut mem = PhysMemory::new(0x4000, 1);
    assert!(!mem.write(0x3ff8, 1));
    assert!(!mem.write(0x5000, 1));
    assert!(!mem.write(0x4004, 1));
    assert_eq!(mem.read(0x3ff8), 0);
    assert_eq!(mem.read(0x5000), 0);
    assert_eq!(mem.read(0x4004), 0);
    assert_eq!(mem.read(0x4000), 0);
}

#[test]
fn holds_tells_the_words_of_the_window() {
    let mem = PhysMemory::new(0x4000, 1);
    assert!(mem.holds(0x4000));
    assert!(mem.holds(0x4ff8));
    assert!(!mem.holds(0x4001));
    assert!(!mem.holds(0x5000));
    assert!(!mem.holds(0));
}

#[test]
fn from_words_places_the_words_at_the_base() {
    let mem = PhysMemory::from_words(0x8000, vec![1, 2, 3]);
    assert_eq!(mem.len(), 3);
    assert_eq!(mem.read(0x8000), 1);
    assert_eq!(mem.read(0x8008), 2);
    assert_eq!(mem.read(0x8010), 3);
    assert_eq!(mem.read(0x8018), 0);
}
