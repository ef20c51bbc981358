use hypervisor_bootloader::dtb::{
    DtbAnalyser, DtbHeader, DtbNode, DtbNodeNameSearchHolder, DTB_MAGIC,
};

const BASE: u64 = 0x4000_0000;

struct Blob {
    structure: Vec<u8>,
    strings: Vec<u8>,
}

impl Blob {
    fn new() -> Self {
        Blob { structure: Vec::new(), strings: Vec::new() }
    }

    fn word(&mut self, w: u32) {
        self.structure.extend_from_slice(&w.to_be_bytes());
    }

    fn pad(&mut self) {
        while self.structure.len() % 4 != 0 {
            self.structure.push(0);
        }
    }

    fn begin(&mut self, name: &str) {
        self.word(1);
        self.structure.extend_from_slice(name.as_bytes());
        self.structure.push(0);
        self.pad();
    }

    fn end(&mut self) {
        self.word(2);
    }

    fn nop(&mut self) {
        self.word(4);
    }

    fn name_offset(&mut self, name: &str) -> u32 {
        let bytes = name.as_bytes();
        let mut start = 0;
        while start < self.strings.len() {
            let mut end = start;
            while self.strings[end] != 0 {
                end += 1;
            }
            if &self.strings[start..end] == bytes {
                return start as u32;
            }
            start = end + 1;
        }
        let offset = self.strings.len() as u32;
        self.strings.extend_from_slice(bytes);
        self.strings.push(0);
        offset
    }

    fn prop(&mut self, name: &str, value: &[u8]) {
        let offset = self.name_offset(name);
        self.word(3);
        self.word(value.len() as u32);
        self.word(offset);
        self.structure.extend_from_slice(value);
        self.pad();
    }

    fn prop_words(&mut self, name: &str, words: &[u32]) {
        let mut value = Vec::new();
        for w in words {
            value.extend_from_slice(&w.to_be_bytes());
        }
        self.prop(name, &value);
    }

    fn finish(mut self) -> Vec<u8> {
        self.word(9);
        let off_struct = 40u32;
        let off_strings = off_struct + self.structure.len() as u32;
        let total = off_strings + self.strings.len() as u32;
        let mut bytes = Vec::new();
        for w in [
            DTB_MAGIC,
            total,
            off_struct,
            off_strings,
            40,
            17,
            16,
            0,
            self.strings.len() as u32,
            self.structure.len() as u32,
        ] {
            bytes.extend_from_slice(&w.to_be_bytes());
        }
        bytes.extend_from_slice(&self.structure);
        bytes.extend_from_slice(&self.strings);
        bytes
    }
}

fn serial_blob() -> Vec<u8> {
    let mut b = Blob::new();
    b.begin("");
    b.prop_words("#address-cells", &[2]);
    b.prop_words("#size-cells", &[1]);
    b.begin("serial@10000000");
    b.prop("compatible", b"ns16550a\0");
    b.prop_words("reg", &[0, 0x1000_0000, 0x1000]);
    b.prop("status", b"okay\0");
    b.end();
    b.end();
    b.finish()
}

#[test]
fn header_magic_is_checked() {
    let bytes = serial_blob();
    let header = DtbHeader::read(&bytes).unwrap();
    assert!(header.check_magic());
    assert_eq!(header.off_dt_struct, 40);
    let mut broken = bytes.clone();
    broken[0] = 0;
    assert!(!DtbHeader::read(&broken).unwrap().check_magic());
    assert!(DtbAnalyser::new(BASE, broken).is_err());
    assert!(DtbAnalyser::new(BASE, vec![0xd0, 0x0d, 0xfe, 0xed]).is_err());
}

#[test]
fn serial_is_found_by_compatible() {
    let dtb = DtbAnalyser::new(BASE, serial_blob()).unwrap();
    let root = dtb.get_root_node();
    assert_eq!(root.base_pointer, BASE + 40);
    let mut holder = root.get_search_holder(&dtb).unwrap();
    let candidates: [&[u8]; 1] = [b"ns16550a"];
    let (node, index) = holder.search_next_device_by_compatible(&candidates, &dtb).unwrap().unwrap();
    assert_eq!(index, 0);
    assert_eq!(node.get_offset(), 0x1000_0000);
    assert_eq!(node.is_status_okay(&dtb), Ok(Some(true)));
    assert_eq!(node.get_reg(&dtb), Ok(Some(0x1000_0000)));
    assert_eq!(holder.search_next_device_by_compatible(&candidates, &dtb), Ok(None));
}

#[test]
fn serial_is_found_by_name() {
    let dtb = DtbAnalyser::new(BASE, serial_blob()).unwrap();
    let mut holder = dtb.get_root_node().get_search_holder(&dtb).unwrap();
    let node: DtbNode = holder.search_next_device_by_node_name(b"serial", &dtb).unwrap().unwrap();
    assert_eq!(node.get_offset(), 0x1000_0000);
    assert_eq!(holder.search_next_device_by_node_name(b"serial", &dtb), Ok(None));
}

fn bus_blob() -> Vec<u8> {
    let mut b = Blob::new();
    b.begin("");
    b.prop_words("#address-cells", &[2]);
    b.prop_words("#size-cells", &[1]);
    b.begin("soc@80000000");
    b.prop_words("reg", &[0, 0x8000_0000, 0x1000_0000]);
    b.prop_words("#address-cells", &[1]);
    b.prop_words("#size-cells", &[1]);
    b.begin("uart@200");
    b.prop_words("reg", &[0x200, 0x100]);
    b.prop("status", b"disabled\0");
    b.end();
    b.nop();
    b.begin("timer@400");
    b.prop_words("reg", &[0x400, 0x10]);
    b.end();
    b.end();
    b.begin("memory@0");
    b.prop_words("reg", &[0, 0x4000_0000, 0x800_0000]);
    b.end();
    b.end();
    b.finish()
}

fn root_holder(dtb: &DtbAnalyser) -> DtbNodeNameSearchHolder {
    dtb.get_root_node().get_search_holder(dtb).unwrap()
}

#[test]
fn grandchild_reg_uses_the_cells_of_the_bus() {
    let dtb = DtbAnalyser::new(BASE, bus_blob()).unwrap();
    let mut holder = root_holder(&dtb);
    let uart = holder.search_next_device_by_node_name(b"uart", &dtb).unwrap().unwrap();
    assert_eq!(uart.parent_address_cells, 1);
    assert_eq!(uart.parent_size_cells, 1);
    assert_eq!(uart.get_reg(&dtb), Ok(Some(0x200)));
}

#[test]
fn own_cells_do_not_change_how_own_reg_is_read() {
    let mut b = Blob::new();
    b.begin("");
    b.begin("pcie@40000000");
    b.prop_words("#address-cells", &[3]);
    b.prop_words("#size-cells", &[2]);
    b.prop_words("reg", &[0, 0x4000_0000, 0x1000]);
    b.begin("dev@0");
    b.end();
    b.end();
    b.end();
    let dtb = DtbAnalyser::new(BASE, b.finish()).unwrap();
    let mut holder = root_holder(&dtb);
    let pcie = holder.search_next_device_by_node_name(b"pcie", &dtb).unwrap().unwrap();
    assert_eq!(pcie.get_offset(), 0x4000_0000);
    assert_eq!(pcie.address_cells, 3);
    assert_eq!(pcie.size_cells, 2);
    assert_eq!(pcie.parent_address_cells, 2);
    assert_eq!(pcie.get_reg(&dtb), Ok(Some(0x4000_0000)));
    let mut inner = pcie.get_search_holder(&dtb).unwrap();
    let dev = inner.search_next_device_by_node_name(b"dev", &dtb).unwrap().unwrap();
    assert_eq!(dev.parent_address_cells, 3);
    assert_eq!(dev.parent_size_cells, 2);
}

#[test]
fn nested_reg_addresses_add_up() {
    let dtb = DtbAnalyser::new(BASE, bus_blob()).unwrap();
    let mut holder = root_holder(&dtb);
    let uart = holder.search_next_device_by_node_name(b"uart", &dtb).unwrap().unwrap();
    assert_eq!(uart.get_offset(), 0x8000_0200);
}

#[test]
fn compatible_index_follows_the_candidates() {
    let mut b = Blob::new();
    b.begin("");
    b.begin("thing");
    b.prop("compatible", b"b\0a\0");
    b.end();
    b.end();
    let dtb = DtbAnalyser::new(BASE, b.finish()).unwrap();
    let mut holder = root_holder(&dtb);
    let candidates: [&[u8]; 2] = [b"a", b"b"];
    let (_, index) = holder.search_next_device_by_compatible(&candidates, &dtb).unwrap().unwrap();
    assert_eq!(index, 0);
    let mut holder = root_holder(&dtb);
    let only_b: [&[u8]; 2] = [b"c", b"b"];
    let (_, index) = holder.search_next_device_by_compatible(&only_b, &dtb).unwrap().unwrap();
    assert_eq!(index, 1);
    let mut holder = root_holder(&dtb);
    let none: [&[u8]; 1] = [b"ab"];
    assert_eq!(holder.search_next_device_by_compatible(&none, &dtb), Ok(None));
}

#[test]
fn status_is_reported() {
    let dtb = DtbAnalyser::new(BASE, bus_blob()).unwrap();
    let mut holder = root_holder(&dtb);
    let uart = holder.search_next_device_by_node_name(b"uart", &dtb).unwrap().unwrap();
    assert_eq!(uart.is_status_okay(&dtb), Ok(Some(false)));
    let timer = holder.search_next_device_by_node_name(b"timer", &dtb).unwrap().unwrap();
    assert_eq!(timer.is_status_okay(&dtb), Ok(None));
    let serial_dtb = DtbAnalyser::new(BASE, serial_blob()).unwrap();
    let mut holder = root_holder(&serial_dtb);
    let serial = holder.search_next_device_by_node_name(b"serial", &serial_dtb).unwrap().unwrap();
    assert_eq!(serial.is_status_okay(&serial_dtb), Ok(Some(true)));
}

#[test]
fn every_node_is_visited_once() {
    let mut b = Blob::new();
    b.begin("");
    b.begin("n@1");
    b.end();
    b.begin("bus");
    b.begin("n@2");
    b.end();
    b.begin("n@3");
    b.end();
    b.end();
    b.begin("n@4");
    b.end();
    b.end();
    let dtb = DtbAnalyser::new(BASE, b.finish()).unwrap();
    let mut holder = root_holder(&dtb);
    let mut seen: Vec<u64> = Vec::new();
    loop {
        match holder.search_next_device_by_node_name(b"n", &dtb).unwrap() {
            Some(node) => seen.push(node.base_pointer),
            None => break,
        }
    }
    assert_eq!(seen.len(), 4);
    for i in 1..seen.len() {
        assert!(seen[i - 1] < seen[i]);
    }
    let mut holder = root_holder(&dtb);
    assert_eq!(holder.search_next_device_by_node_name(b"absent", &dtb), Ok(None));
    let end = BASE + 40 + dtb.struct_block_size - 4;
    assert_eq!(holder.pointer, end);
    assert_eq!(dtb.read_u32(end), Some(9));
}

#[test]
fn node_name_matches_up_to_the_unit_address() {
    let dtb = DtbAnalyser::new(BASE, bus_blob()).unwrap();
    let mut holder = root_holder(&dtb);
    assert_eq!(holder.search_next_device_by_node_name(b"uar", &dtb), Ok(None));
    let mut holder = root_holder(&dtb);
    let memory = holder.search_next_device_by_node_name(b"memory", &dtb).unwrap().unwrap();
    assert_eq!(memory.get_offset(), 0x4000_0000);
    let name = memory.base_pointer + 4;
    assert!(DtbNode::match_name(&dtb, name, b"memory"));
    assert!(!DtbNode::match_string(&dtb, name, b"memory"));
    assert!(DtbNode::match_string(&dtb, name, b"memory@0"));
}

#[test]
fn cursor_primitives_move_as_described() {
    let dtb = DtbAnalyser::new(BASE, bus_blob()).unwrap();
    let mut p = 5u64;
    assert_eq!(DtbNode::skip_padding(&mut p), Ok(()));
    assert_eq!(p, 8);
    assert_eq!(DtbNode::skip_padding(&mut p), Ok(()));
    assert_eq!(p, 8);
    let mut high = u64::MAX - 1;
    assert_eq!(DtbNode::skip_padding(&mut high), Err(()));
    let mut holder = root_holder(&dtb);
    let uart = holder.search_next_device_by_node_name(b"uart", &dtb).unwrap().unwrap();
    let mut after = uart.base_pointer;
    assert_eq!(DtbNode::skip_to_end_of_node(&dtb, &mut after), Ok(()));
    assert_eq!(dtb.read_u32(after), Some(4));
    DtbNode::skip_nop(&dtb, &mut after);
    assert_eq!(dtb.read_u32(after), Some(1));
    assert_eq!(holder.pointer + 4, after);
}

#[test]
fn property_lookup_stays_in_the_node() {
    let dtb = DtbAnalyser::new(BASE, bus_blob()).unwrap();
    let mut holder = root_holder(&dtb);
    let soc = holder.search_next_device_by_node_name(b"soc", &dtb).unwrap().unwrap();
    assert_eq!(soc.search_pointer_to_property(b"status", &dtb), Ok(None));
    let reg = soc.search_pointer_to_property(b"reg", &dtb).unwrap().unwrap();
    assert_eq!(dtb.read_u32(reg + 4), Some(0x8000_0000));
    assert_eq!(dtb.read_cells(reg, 2), Some(0x8000_0000));
    assert_eq!(dtb.read_cells(reg, 3), Some(0x8000_0000_1000_0000));
    assert_eq!(dtb.read_cells(reg, 0), Some(0));
}

#[test]
fn broken_blobs_are_errors() {
    let mut b = Blob::new();
    b.begin("");
    b.word(7);
    b.end();
    let dtb = DtbAnalyser::new(BASE, b.finish()).unwrap();
    let mut holder = root_holder(&dtb);
    assert_eq!(holder.search_next_device_by_node_name(b"x", &dtb), Err(()));
    let candidates: [&[u8]; 1] = [b"x"];
    let mut holder = root_holder(&dtb);
    assert_eq!(holder.search_next_device_by_compatible(&candidates, &dtb), Err(()));
    assert_eq!(dtb.get_root_node().is_status_okay(&dtb), Err(()));

    let mut b = Blob::new();
    b.begin("");
    b.word(3);
    b.word(4);
    b.word(0x1000);
    b.word(0);
    b.end();
    let dtb = DtbAnalyser::new(BASE, b.finish()).unwrap();
    let mut holder = root_holder(&dtb);
    assert_eq!(holder.search_next_device_by_node_name(b"x", &dtb), Err(()));
    assert_eq!(dtb.get_name(0x1000), Err(()));

    let mut b = Blob::new();
    b.begin("");
    b.begin("open");
    let dtb = DtbAnalyser::new(BASE, b.finish()).unwrap();
    let mut holder = root_holder(&dtb);
    assert_eq!(holder.search_next_device_by_node_name(b"x", &dtb), Err(()));

    let mut b = Blob::new();
    b.word(2);
    let dtb = DtbAnalyser::new(BASE, b.finish()).unwrap();
    assert!(dtb.get_root_node().get_search_holder(&dtb).is_err());
}

#[test]
fn search_goes_on_behind_the_root() {
    let mut b = Blob::new();
    b.begin("");
    b.end();
    b.begin("late@1");
    b.prop_words("reg", &[0, 0x100, 0x10]);
    b.end();
    let dtb = DtbAnalyser::new(BASE, b.finish()).unwrap();
    let mut holder = root_holder(&dtb);
    let late = holder.search_next_device_by_node_name(b"late", &dtb).unwrap().unwrap();
    assert_eq!(late.get_offset(), 0x100);
    assert_eq!(dtb.read_u32(holder.pointer), Some(9));
    assert_eq!(holder.search_next_device_by_node_name(b"late", &dtb), Err(()));
}

#[test]
fn blob_must_end_below_the_limit() {
    assert!(DtbAnalyser::new(0x8000_0000_0000_0000 - 8, serial_blob()).is_err());
    let dtb = DtbAnalyser::new(0, serial_blob()).unwrap();
    assert_eq!(dtb.get_struct_block_limit(), 40 + dtb.struct_block_size);
    assert_eq!(dtb.read_u8(0), Some(0xd0));
    assert_eq!(dtb.read_u8(dtb.memory.len() as u64), None);
    assert_eq!(dtb.read_u32(dtb.memory.len() as u64 - 3), None);
}

#[test]
fn reg_of_another_length_is_still_read() {
    let mut b = Blob::new();
    b.begin("");
    b.begin("short@1000");
    b.prop_words("reg", &[0, 0x1000]);
    b.end();
    b.end();
    let dtb = DtbAnalyser::new(BASE, b.finish()).unwrap();
    let mut holder = root_holder(&dtb);
    let short = holder.search_next_device_by_node_name(b"short", &dtb).unwrap().unwrap();
    assert_eq!(short.get_offset(), 0x1000);
    let candidates: [&[u8]; 1] = [b"none"];
    let mut holder = root_holder(&dtb);
    assert_eq!(holder.search_next_device_by_compatible(&candidates, &dtb), Ok(None));
}

#[test]
fn offset_beyond_64_bits_is_an_error() {
    let mut b = Blob::new();
    b.begin("");
    b.begin("bus");
    b.prop_words("reg", &[0xffff_ffff, 0xffff_f000, 0]);
    b.begin("dev");
    b.prop_words("reg", &[0, 0x1000, 0]);
    b.end();
    b.end();
    b.end();
    let dtb = DtbAnalyser::new(BASE, b.finish()).unwrap();
    let mut holder = root_holder(&dtb);
    let bus = holder.search_next_device_by_node_name(b"bus", &dtb).unwrap().unwrap();
    assert_eq!(bus.get_offset(), 0xffff_ffff_ffff_f000);
    let mut holder = root_holder(&dtb);
    assert_eq!(holder.search_next_device_by_node_name(b"dev", &dtb), Err(()));
}

#[test]
fn found_node_is_the_first_with_the_name() {
    let mut b = Blob::new();
    b.begin("");
    b.begin("a@1");
    b.begin("b@2");
    b.end();
    b.end();
    b.begin("b@3");
    b.end();
    b.begin("a@4");
    b.end();
    b.end();
    let dtb = DtbAnalyser::new(BASE, b.finish()).unwrap();
    let mut holder = root_holder(&dtb);
    let first = holder.search_next_device_by_node_name(b"b", &dtb).unwrap().unwrap();
    assert!(DtbNode::match_string(&dtb, first.base_pointer + 4, b"b@2"));
    let second = holder.search_next_device_by_node_name(b"b", &dtb).unwrap().unwrap();
    assert!(DtbNode::match_string(&dtb, second.base_pointer + 4, b"b@3"));
    assert_eq!(holder.search_next_device_by_node_name(b"b", &dtb), Ok(None));
    let mut holder = root_holder(&dtb);
    let a = holder.search_next_device_by_node_name(b"a", &dtb).unwrap().unwrap();
    assert!(DtbNode::match_string(&dtb, a.base_pointer + 4, b"a@1"));
    let a = holder.search_next_device_by_node_name(b"a", &dtb).unwrap().unwrap();
    assert!(DtbNode::match_string(&dtb, a.base_pointer + 4, b"a@4"));
}
