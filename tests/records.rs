use rpi5_boot::error::DtbError;
use rpi5_boot::header::{Dtb, FdtProperty, FdtReserveEntry};
use rpi5_boot::strings::CharStringIter;
use rpi5_boot::timer::SystemTimer;
use rpi5_boot::uart::{uart_divisors, UartNum};

fn words(values: &[u32]) -> Vec<u8> {
    values.iter().flat_map(|v| v.to_be_bytes()).collect()
}

/// A header followed by one reservation entry, a tiny structure block and a
/// strings block.
fn small_blob() -> Vec<u8> {
    let mut blob = words(&[0xd00d_feed, 88, 56, 72, 40, 17, 16, 3, 16, 16]);
    blob.extend_from_slice(&words(&[0x0, 0x8000_0000, 0x1, 0x0000_1000]));
    blob.extend_from_slice(&words(&[1, 0, 2, 9]));
    blob.extend_from_slice(b"compatible\0\xff\xfe\0ab");
    blob
}

#[test]
fn header_offsets() {
    let blob = small_blob();
    let dtb = Dtb::new(&blob).unwrap();
    assert_eq!(dtb.get_struct_start_address(), 56);
    assert_eq!(dtb.get_struct_end_address(), 72);
    assert_eq!(dtb.get_string_start_address(), 72);
    assert_eq!(dtb.get_string_end_address(), 88);
    assert_eq!(dtb.get_memory_reservation_start_address(), 40);
    assert_eq!(dtb.read_u32_from_ptr(0), Some(0xd00d_feed));
    assert_eq!(dtb.read_u32_from_ptr(28), Some(3));
    assert_eq!(dtb.read_u32_from_ptr(85), None);
}

#[test]
fn header_blocks_must_fit() {
    let mut blob = small_blob();
    blob[39] = 200;
    assert_eq!(Dtb::new(&blob).err(), Some(DtbError::OutOfBounds));
}

#[test]
fn text_is_read_up_to_its_nul() {
    let blob = small_blob();
    let dtb = Dtb::new(&blob).unwrap();
    assert_eq!(dtb.read_char_str(72), Ok("compatible"));
    assert_eq!(dtb.read_char_str(77), Ok("tible"));
    assert_eq!(dtb.read_char_str(83), Err(DtbError::Utf8DecodeError));
    assert_eq!(dtb.read_char_str(86), Err(DtbError::OutOfBounds));
}

#[test]
fn cells_are_big_endian() {
    let blob = small_blob();
    let dtb = Dtb::new(&blob).unwrap();
    assert_eq!(dtb.read_regs(40, 2), Ok((0x8000_0000, 8)));
    assert_eq!(dtb.read_regs(48, 2), Ok((0x1_0000_1000, 8)));
    assert_eq!(dtb.read_regs(48, 1), Ok((0x1, 4)));
    assert_eq!(dtb.read_regs(48, 0), Ok((0, 0)));
    assert_eq!(dtb.read_regs(40, 3), Err(DtbError::CellsOverflow));
}

#[test]
fn property_header_fields() {
    let blob = words(&[3, 0x0000_0010, 0x0000_0024]);
    let prop = FdtProperty::read(&blob, 4).unwrap();
    assert_eq!(prop.get_property_len(), 0x10);
    assert_eq!(prop.get_name_offset(), 0x24);
    assert!(FdtProperty::read(&blob, 5).is_none());
}

#[test]
fn reservation_entry_fields() {
    let blob = words(&[0x1, 0x2000_0000, 0x0, 0x0010_0000]);
    let entry = FdtReserveEntry::read(&blob, 0).unwrap();
    assert_eq!(entry.get_address(), 0x1_2000_0000);
    assert_eq!(entry.get_size(), 0x10_0000);
    assert!(FdtReserveEntry::read(&blob, 1).is_none());
}

#[test]
fn string_list_is_walked_in_order() {
    let blob = b"arm,pl011\0arm,primecell\0".to_vec();
    let mut it = CharStringIter::new(&blob, 0, blob.len());
    assert_eq!(it.next_str(), Some(Ok("arm,pl011")));
    assert_eq!(it.next_str(), Some(Ok("arm,primecell")));
    assert_eq!(it.next_str(), None);

    let mut short = CharStringIter::new(&blob, 0, 5);
    assert_eq!(short.next_str(), Some(Err(DtbError::InvalidPropertySize)));
}

#[test]
fn uart_divisors_for_both_clocks() {
    assert_eq!(uart_divisors(UartNum::Debug, 115200), (23, 56));
    assert_eq!(uart_divisors(UartNum::Rp1 { device_num: 0 }, 115200), (27, 8));
    assert_eq!(uart_divisors(UartNum::Rp1 { device_num: 2 }, 9600), (325, 33));
}

#[test]
fn timer_waits_whole_ticks() {
    let mut timer = SystemTimer::new();
    timer.init(54_000_000);
    assert_eq!(timer.wait_ticks(1_000_000), 54_000_000);
    assert_eq!(timer.wait_ticks(0), 0);
    assert!(!timer.wait(1_000, 100, 100 + 53_999));
    assert!(timer.wait(1_000, 100, 100 + 54_000));
}
