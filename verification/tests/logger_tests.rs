use memflow_efi_service::logger::{LogLevel, MemReg};

fn ring_bytes<const N: usize>(region: &MemReg<N>) -> Vec<u8> {
    (0..N).map(|i| region.byte(i)).collect()
}

#[test]
fn new_region_is_zero_filled() {
    let region: MemReg<8> = MemReg::new();
    assert_eq!(region.pos(), 0);
    assert_eq!(ring_bytes(&region), vec![0u8; 8]);
}

#[test]
fn text_is_followed_by_a_zero_byte() {
    let mut region: MemReg<16> = MemReg::new();
    region.write_str("abc");
    assert_eq!(region.pos(), 3);
    assert_eq!(&ring_bytes(&region)[0..4], b"abc\0");
    region.write_str("de");
    assert_eq!(region.pos(), 5);
    assert_eq!(&ring_bytes(&region)[0..6], b"abcde\0");
}

#[test]
fn text_that_does_not_fit_behind_the_position_starts_over() {
    let mut region: MemReg<8> = MemReg::new();
    region.write_str("abcde");
    assert_eq!(region.pos(), 5);
    region.write_str("xy");
    assert_eq!(region.pos(), 2);
    assert_eq!(ring_bytes(&region), b"xy\0de\0\0\0".to_vec());
}

#[test]
fn text_longer_than_the_ring_wraps_round() {
    let mut region: MemReg<4> = MemReg::new();
    region.write_str("abcdef");
    assert_eq!(region.pos(), 2);
    assert_eq!(ring_bytes(&region), b"ef\0d".to_vec());
}

#[test]
fn empty_text_writes_only_the_zero_byte() {
    let mut region: MemReg<4> = MemReg::new();
    region.write_str("ab");
    region.write_str("");
    assert_eq!(region.pos(), 2);
    assert_eq!(ring_bytes(&region), b"ab\0\0".to_vec());
}

#[test]
fn log_levels_have_their_names_and_ranks() {
    assert_eq!(LogLevel::Error.name(), "ERROR");
    assert_eq!(LogLevel::Warn.name(), "WARN");
    assert_eq!(LogLevel::Info.name(), "INFO");
    assert_eq!(LogLevel::Debug.name(), "DEBUG");
    assert_eq!(LogLevel::Trace.name(), "TRACE");
    assert_eq!(LogLevel::Error.index(), 0);
    assert_eq!(LogLevel::Warn.index(), 1);
    assert_eq!(LogLevel::Info.index(), 2);
    assert_eq!(LogLevel::Debug.index(), 3);
    assert_eq!(LogLevel::Trace.index(), 4);
}
