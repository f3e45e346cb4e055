use core::ops::ControlFlow;
use rpi5_boot::error::DtbError;
use rpi5_boot::parser::DtbParser;

const PL011_DEBUG_UART_ADDRESS: usize = 0x10_7D00_1000;
const PL011_DEBUG_UART_SIZE: usize = 0x200;
const MEMORY_ADDRESS: usize = 0x0;
const MEMORY_SIZE: usize = 0x2800_0000;

/// Writes a flattened devicetree token by token.
struct Builder {
    structure: Vec<u8>,
    strings: Vec<u8>,
    last_comp_version: u32,
    magic: u32,
}

fn cells(values: &[u32]) -> Vec<u8> {
    values.iter().flat_map(|v| v.to_be_bytes()).collect()
}

fn string_list(values: &[&str]) -> Vec<u8> {
    let mut out = Vec::new();
    for v in values {
        out.extend_from_slice(v.as_bytes());
        out.push(0);
    }
    out
}

impl Builder {
    fn new() -> Self {
        Builder { structure: Vec::new(), strings: Vec::new(), last_comp_version: 16, magic: 0xd00d_feed }
    }

    fn pad(&mut self) {
        while self.structure.len() % 4 != 0 {
            self.structure.push(0);
        }
    }

    fn token(&mut self, t: u32) -> &mut Self {
        self.structure.extend_from_slice(&t.to_be_bytes());
        self
    }

    fn begin(&mut self, name: &str) -> &mut Self {
        self.token(1);
        self.structure.extend_from_slice(name.as_bytes());
        self.structure.push(0);
        self.pad();
        self
    }

    fn end_node(&mut self) -> &mut Self {
        self.token(2)
    }

    fn nop(&mut self) -> &mut Self {
        self.token(4)
    }

    fn end(&mut self) -> &mut Self {
        self.token(9)
    }

    fn name_offset(&mut self, name: &str) -> u32 {
        let offset = self.strings.len() as u32;
        self.strings.extend_from_slice(name.as_bytes());
        self.strings.push(0);
        offset
    }

    fn prop(&mut self, name: &str, value: &[u8]) -> &mut Self {
        let offset = self.name_offset(name);
        self.token(3);
        self.structure.extend_from_slice(&(value.len() as u32).to_be_bytes());
        self.structure.extend_from_slice(&offset.to_be_bytes());
        self.structure.extend_from_slice(value);
        self.pad();
        self
    }

    fn finish(&self) -> Vec<u8> {
        let off_rsvmap = 40u32;
        let off_struct = off_rsvmap + 16;
        let off_strings = off_struct + self.structure.len() as u32;
        let total = off_strings + self.strings.len() as u32;
        let header = [
            self.magic,
            total,
            off_struct,
            off_strings,
            off_rsvmap,
            17,
            self.last_comp_version,
            0,
            self.strings.len() as u32,
            self.structure.len() as u32,
        ];
        let mut out = cells(&header);
        out.extend_from_slice(&[0u8; 16]);
        out.extend_from_slice(&self.structure);
        out.extend_from_slice(&self.strings);
        out
    }
}

/// A tree shaped like a Raspberry Pi 5's: a memory node at the root and a
/// SoC bus whose window moves its children into high physical memory.
fn board_tree() -> Vec<u8> {
    let mut b = Builder::new();
    b.begin("")
        .prop("#address-cells", &cells(&[2]))
        .prop("#size-cells", &cells(&[2]))
        .prop("compatible", &string_list(&["raspberrypi,5-model-b", "brcm,bcm2712"]))
        .begin("memory@0")
        .prop("device_type", &string_list(&["memory"]))
        .prop("reg", &cells(&[0, 0, 0, 0x2800_0000]))
        .end_node()
        .begin("soc@107c000000")
        .prop("compatible", &string_list(&["simple-bus"]))
        .prop("#address-cells", &cells(&[1]))
        .prop("#size-cells", &cells(&[1]))
        .prop("ranges", &cells(&[0x7c00_0000, 0x10, 0x7c00_0000, 0x0400_0000]))
        .nop()
        .begin("serial@7d001000")
        .prop("compatible", &string_list(&["arm,pl011", "arm,primecell"]))
        .prop("reg", &cells(&[0x7d00_1000, 0x200]))
        .end_node()
        .begin("interrupt-controller@7fff9000")
        .prop("compatible", &string_list(&["arm,gic-400"]))
        .prop(
            "reg",
            &cells(&[
                0x7fff_9000, 0x1000, 0x7fff_a000, 0x2000, 0x7fff_c000, 0x2000, 0x7fff_e000,
                0x2000,
            ]),
        )
        .end_node()
        .end_node()
        .end_node()
        .end();
    b.finish()
}

fn collect(
    parser: &DtbParser,
    device: Option<&str>,
    compatible: Option<&str>,
) -> Result<Vec<(usize, usize)>, DtbError> {
    let mut found = Vec::new();
    parser.find_node(device, compatible, &mut |region| {
        found.push(region);
        ControlFlow::Continue(())
    })?;
    Ok(found)
}

#[test]
fn it_works() {
    let test_data = board_tree();
    let parser = DtbParser::init(&test_data).unwrap();

    let mut counter = 0;
    parser
        .find_node(None, Some("arm,pl011"), &mut |(address, size)| {
            assert_eq!(address, PL011_DEBUG_UART_ADDRESS);
            assert_eq!(size, PL011_DEBUG_UART_SIZE);
            counter += 1;
            ControlFlow::Continue(())
        })
        .unwrap();
    assert_eq!(counter, 1);

    counter = 0;
    parser
        .find_node(Some("memory"), None, &mut |(address, size)| {
            assert_eq!(address, MEMORY_ADDRESS);
            assert_eq!(size, MEMORY_SIZE);
            counter += 1;
            ControlFlow::Continue(())
        })
        .unwrap();
    assert_eq!(counter, 1);
    counter = 0;
    parser
        .find_node(None, Some("arm,gic-400"), &mut |(_address, _size)| {
            counter += 1;
            ControlFlow::Continue(())
        })
        .unwrap();
    assert_eq!(counter, 4);
}

#[test]
fn gic_regions_are_translated_in_order() {
    let data = board_tree();
    let parser = DtbParser::init(&data).unwrap();
    let regions = collect(&parser, None, Some("arm,gic-400")).unwrap();
    assert_eq!(
        regions,
        vec![
            (0x10_7fff_9000, 0x1000),
            (0x10_7fff_a000, 0x2000),
            (0x10_7fff_c000, 0x2000),
            (0x10_7fff_e000, 0x2000),
        ]
    );
}

#[test]
fn absent_key_yields_nothing() {
    let data = board_tree();
    let parser = DtbParser::init(&data).unwrap();
    assert_eq!(collect(&parser, None, Some("does-not-exist")), Ok(vec![]));
    assert_eq!(collect(&parser, Some("cpu"), None), Ok(vec![]));
}

#[test]
fn second_compatible_entry_matches() {
    let data = board_tree();
    let parser = DtbParser::init(&data).unwrap();
    assert_eq!(collect(&parser, None, Some("arm,primecell")), Ok(vec![(0x10_7d00_1000, 0x200)]));
}

#[test]
fn both_or_neither_key_is_refused() {
    let data = board_tree();
    let parser = DtbParser::init(&data).unwrap();
    let mut calls = 0;
    let r = parser.find_node(Some("memory"), Some("arm,pl011"), &mut |_| {
        calls += 1;
        ControlFlow::Continue(())
    });
    assert_eq!(r, Err(DtbError::AmbiguousOrEmptyPredicate));
    let r = parser.find_node(None, None, &mut |_| {
        calls += 1;
        ControlFlow::Continue(())
    });
    assert_eq!(r, Err(DtbError::AmbiguousOrEmptyPredicate));
    assert_eq!(calls, 0);
}

#[test]
fn repeated_queries_agree() {
    let data = board_tree();
    let parser = DtbParser::init(&data).unwrap();
    let first = collect(&parser, None, Some("arm,gic-400"));
    let second = collect(&parser, None, Some("arm,gic-400"));
    assert_eq!(first, second);
    assert_eq!(first.unwrap().len(), 4);
}

#[test]
fn stop_ends_the_walk() {
    let data = board_tree();
    let parser = DtbParser::init(&data).unwrap();
    let mut calls = 0;
    let r = parser.find_node(None, Some("arm,gic-400"), &mut |region| {
        calls += 1;
        assert_eq!(region, (0x10_7fff_9000, 0x1000));
        ControlFlow::Break(())
    });
    assert_eq!(r, Ok(()));
    assert_eq!(calls, 1);
}

#[test]
fn stop_skips_a_later_fault() {
    let mut b = Builder::new();
    b.begin("")
        .prop("#address-cells", &cells(&[1]))
        .prop("#size-cells", &cells(&[1]))
        .begin("uart@1000")
        .prop("compatible", &string_list(&["arm,pl011"]))
        .prop("reg", &cells(&[0x1000, 0x100]))
        .end_node()
        .token(0x77);
    let data = b.finish();
    let parser = DtbParser::init(&data).unwrap();
    let r = parser.find_node(None, Some("arm,pl011"), &mut |_| ControlFlow::Break(()));
    assert_eq!(r, Ok(()));
    let r = parser.find_node(None, Some("arm,pl011"), &mut |_| ControlFlow::Continue(()));
    assert_eq!(r, Err(DtbError::UnexpectedToken));
}

#[test]
fn missing_end_token_is_trailing_garbage() {
    let mut b = Builder::new();
    b.begin("")
        .begin("memory@0")
        .prop("device_type", &string_list(&["memory"]))
        .prop("reg", &cells(&[0, 0x1000, 0x100]))
        .end_node()
        .end_node();
    let data = b.finish();
    let parser = DtbParser::init(&data).unwrap();
    let mut calls = 0;
    let r = parser.find_node(Some("memory"), None, &mut |_| {
        calls += 1;
        ControlFlow::Continue(())
    });
    assert_eq!(r, Err(DtbError::TrailingGarbage));
    assert_eq!(calls, 1);
}

#[test]
fn region_wider_than_window_overflows() {
    let mut b = Builder::new();
    b.begin("")
        .prop("#address-cells", &cells(&[1]))
        .prop("#size-cells", &cells(&[1]))
        .begin("bus@8000")
        .prop("#address-cells", &cells(&[1]))
        .prop("#size-cells", &cells(&[1]))
        .prop("ranges", &cells(&[0x0, 0x8000, 0x100]))
        .begin("dev@80")
        .prop("compatible", &string_list(&["acme,dev"]))
        .prop("reg", &cells(&[0x80, 0x100]))
        .end_node()
        .end_node()
        .end_node()
        .end();
    let data = b.finish();
    let parser = DtbParser::init(&data).unwrap();
    assert_eq!(collect(&parser, None, Some("acme,dev")), Err(DtbError::RangesOverflow));
}

#[test]
fn region_inside_window_is_moved() {
    let mut b = Builder::new();
    b.begin("")
        .prop("#address-cells", &cells(&[1]))
        .prop("#size-cells", &cells(&[1]))
        .begin("bus@8000")
        .prop("#address-cells", &cells(&[1]))
        .prop("#size-cells", &cells(&[1]))
        .prop("ranges", &cells(&[0x0, 0x8000, 0x100]))
        .begin("dev@80")
        .prop("compatible", &string_list(&["acme,dev"]))
        .prop("reg", &cells(&[0x80, 0x80]))
        .end_node()
        .end_node()
        .end_node()
        .end();
    let data = b.finish();
    let parser = DtbParser::init(&data).unwrap();
    assert_eq!(collect(&parser, None, Some("acme,dev")), Ok(vec![(0x8080, 0x80)]));
}

#[test]
fn empty_ranges_is_identity() {
    let mut b = Builder::new();
    b.begin("")
        .prop("#address-cells", &cells(&[1]))
        .prop("#size-cells", &cells(&[1]))
        .begin("bus")
        .prop("#address-cells", &cells(&[1]))
        .prop("#size-cells", &cells(&[1]))
        .prop("ranges", &[])
        .begin("dev@80")
        .prop("compatible", &string_list(&["acme,dev"]))
        .prop("reg", &cells(&[0x80, 0x10]))
        .end_node()
        .end_node()
        .end_node()
        .end();
    let data = b.finish();
    let parser = DtbParser::init(&data).unwrap();
    assert_eq!(collect(&parser, None, Some("acme,dev")), Ok(vec![(0x80, 0x10)]));
}

#[test]
fn cells_come_from_the_parent() {
    // The root declares nothing, so its children read two address cells and
    // one size cell; "inner" declares nothing either and passes on the
    // counts of "bus".
    let mut b = Builder::new();
    b.begin("")
        .begin("memory@100000000")
        .prop("device_type", &string_list(&["memory"]))
        .prop("reg", &cells(&[0x1, 0x0, 0x4000]))
        .end_node()
        .begin("bus")
        .prop("#address-cells", &cells(&[1]))
        .prop("#size-cells", &cells(&[1]))
        .begin("inner")
        .begin("memory@20")
        .prop("device_type", &string_list(&["memory"]))
        .prop("reg", &cells(&[0x20, 0x10]))
        .end_node()
        .end_node()
        .begin("memory@40")
        .prop("device_type", &string_list(&["memory"]))
        .prop("reg", &cells(&[0x40, 0x8]))
        .end_node()
        .end_node()
        .end_node()
        .end();
    let data = b.finish();
    let parser = DtbParser::init(&data).unwrap();
    assert_eq!(
        collect(&parser, Some("memory"), None),
        Ok(vec![(0x1_0000_0000, 0x4000), (0x20, 0x10), (0x40, 0x8)])
    );
}

#[test]
fn partial_reg_entry_is_invalid_size() {
    let mut b = Builder::new();
    b.begin("")
        .prop("#address-cells", &cells(&[1]))
        .prop("#size-cells", &cells(&[1]))
        .begin("memory@0")
        .prop("device_type", &string_list(&["memory"]))
        .prop("reg", &cells(&[0x0, 0x1000, 0x2000]))
        .end_node()
        .end_node()
        .end();
    let data = b.finish();
    let parser = DtbParser::init(&data).unwrap();
    let mut seen = Vec::new();
    let r = parser.find_node(Some("memory"), None, &mut |region| {
        seen.push(region);
        ControlFlow::Continue(())
    });
    assert_eq!(r, Err(DtbError::InvalidPropertySize));
    assert_eq!(seen, vec![(0x0, 0x1000)]);
}

/// Overwrites the header's structure-block size.
fn set_struct_size(blob: &mut [u8], size: u32) {
    blob[36..40].copy_from_slice(&size.to_be_bytes());
}

#[test]
fn nop_only_block_has_no_root() {
    let mut b = Builder::new();
    b.nop().nop().begin("").end_node().end();
    let mut data = b.finish();
    set_struct_size(&mut data, 8);
    let parser = DtbParser::init(&data).unwrap();
    assert_eq!(collect(&parser, Some("memory"), None), Err(DtbError::ExpectedBeginNode));
}

#[test]
fn end_token_past_the_block_is_trailing_garbage() {
    let mut b = Builder::new();
    b.begin("").end_node().end();
    let mut data = b.finish();
    let size = b.structure.len() as u32;
    assert_eq!(collect(&DtbParser::init(&data).unwrap(), Some("memory"), None), Ok(vec![]));
    set_struct_size(&mut data, size - 4);
    let parser = DtbParser::init(&data).unwrap();
    assert_eq!(collect(&parser, Some("memory"), None), Err(DtbError::TrailingGarbage));
}

#[test]
fn reg_at_root_is_refused() {
    let mut b = Builder::new();
    b.begin("").prop("reg", &cells(&[0, 0, 0x10])).end_node().end();
    let data = b.finish();
    let parser = DtbParser::init(&data).unwrap();
    assert_eq!(collect(&parser, Some("memory"), None), Err(DtbError::RegAtRoot));
}

#[test]
fn short_cell_count_is_invalid_size() {
    let mut b = Builder::new();
    b.begin("").prop("#address-cells", &[0, 1]).end_node().end();
    let data = b.finish();
    let parser = DtbParser::init(&data).unwrap();
    assert_eq!(collect(&parser, Some("memory"), None), Err(DtbError::InvalidPropertySize));
}

#[test]
fn short_reg_is_invalid_size() {
    let mut b = Builder::new();
    b.begin("")
        .begin("memory@0")
        .prop("reg", &cells(&[0, 0]))
        .end_node()
        .end_node()
        .end();
    let data = b.finish();
    let parser = DtbParser::init(&data).unwrap();
    assert_eq!(collect(&parser, Some("memory"), None), Err(DtbError::InvalidPropertySize));
}

#[test]
fn wide_cells_overflow() {
    let mut b = Builder::new();
    b.begin("")
        .prop("#address-cells", &cells(&[3]))
        .prop("#size-cells", &cells(&[1]))
        .begin("memory@0")
        .prop("device_type", &string_list(&["memory"]))
        .prop("reg", &cells(&[0, 0, 0, 0x10]))
        .end_node()
        .end_node()
        .end();
    let data = b.finish();
    let parser = DtbParser::init(&data).unwrap();
    assert_eq!(collect(&parser, Some("memory"), None), Err(DtbError::CellsOverflow));
}

#[test]
fn invalid_text_is_a_decode_error() {
    let mut b = Builder::new();
    b.begin("")
        .begin("dev")
        .prop("compatible", &[0x61, 0xff, 0xfe, 0x00])
        .end_node()
        .end_node()
        .end();
    let data = b.finish();
    let parser = DtbParser::init(&data).unwrap();
    assert_eq!(collect(&parser, None, Some("a")), Err(DtbError::Utf8DecodeError));
    // A device_type search does not read the compatible list.
    assert_eq!(collect(&parser, Some("a"), None), Ok(vec![]));
}

#[test]
fn unterminated_string_list_is_invalid_size() {
    let mut b = Builder::new();
    b.begin("")
        .begin("dev")
        .prop("compatible", b"abc")
        .end_node()
        .end_node()
        .end();
    let data = b.finish();
    let parser = DtbParser::init(&data).unwrap();
    assert_eq!(collect(&parser, None, Some("abc")), Err(DtbError::InvalidPropertySize));
}

#[test]
fn stream_must_open_with_a_node() {
    let mut b = Builder::new();
    b.nop().end_node().end();
    let data = b.finish();
    let parser = DtbParser::init(&data).unwrap();
    assert_eq!(collect(&parser, Some("memory"), None), Err(DtbError::ExpectedBeginNode));
}

#[test]
fn leading_nops_are_skipped() {
    let mut b = Builder::new();
    b.nop().nop().begin("").nop().end_node().end();
    let data = b.finish();
    let parser = DtbParser::init(&data).unwrap();
    assert_eq!(collect(&parser, Some("memory"), None), Ok(vec![]));
}

#[test]
fn unknown_token_in_node_is_unexpected() {
    let mut b = Builder::new();
    b.begin("").token(9).end_node().end();
    let data = b.finish();
    let parser = DtbParser::init(&data).unwrap();
    assert_eq!(collect(&parser, Some("memory"), None), Err(DtbError::UnexpectedToken));
}

#[test]
fn header_is_checked() {
    let good = board_tree();
    assert!(DtbParser::init(&good).is_ok());

    let mut b = Builder::new();
    b.begin("").end_node().end();
    b.magic = 0xfeed_d00d;
    assert_eq!(DtbParser::init(&b.finish()).err(), Some(DtbError::InvalidMagic));

    b.magic = 0xd00d_feed;
    b.last_comp_version = 18;
    assert_eq!(DtbParser::init(&b.finish()).err(), Some(DtbError::UnsupportedVersion));

    b.last_comp_version = 17;
    assert!(DtbParser::init(&b.finish()).is_ok());

    // A wrong magic is reported before a version that is too new.
    b.magic = 0;
    b.last_comp_version = 18;
    assert_eq!(DtbParser::init(&b.finish()).err(), Some(DtbError::InvalidMagic));

    assert_eq!(DtbParser::init(&good[..39]).err(), Some(DtbError::OutOfBounds));
    let cut = &good[..good.len() - 1];
    assert_eq!(DtbParser::init(cut).err(), Some(DtbError::OutOfBounds));
}
