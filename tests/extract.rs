use ip_xact_rs::blocks::{assemble_blocks, extract};
use ip_xact_rs::model::{Child, ExtractError, OnMissing, OnUnresolved, Policy, RegisterBlock};
use ip_xact_rs::parse::parse_document;
use ip_xact_rs::segments::collect_segments;
use ip_xact_rs::table::Table;
use ip_xact_rs::xml::XmlDocument;

fn doc(text: &str) -> XmlDocument {
    match parse_document(text) {
        Ok(d) => d,
        Err(e) => panic!("not XML: {}", e.message),
    }
}

fn segment_doc(name: &str, offset: &str, range: &str) -> String {
    format!(
        "<component><addressSpaces><addressSpace><name>space</name><segments>\
         <segment><name>{}</name><addressOffset>{}</addressOffset><range>{}</range></segment>\
         </segments></addressSpace></addressSpaces></component>",
        name, offset, range
    )
}

const STRICT: Policy = Policy { unresolved: OnUnresolved::Fail, missing_text: OnMissing::Fail };
const SKIP_UNRESOLVED: Policy = Policy { unresolved: OnUnresolved::Skip, missing_text: OnMissing::Fail };
const LENIENT: Policy = Policy { unresolved: OnUnresolved::Fail, missing_text: OnMissing::Empty };

const GPIO_MAP: &str = "<component><memoryMaps><memoryMap><name>gpio</name>\
    <addressBlock><name>regs</name>\
    <register><name>CTRL</name><addressOffset>0x0</addressOffset><size>32</size>\
    <field><name>EN</name><bitOffset>0</bitOffset><bitWidth>1</bitWidth></field>\
    </register></addressBlock></memoryMap></memoryMaps></component>";

fn key(s: &str) -> String {
    s.to_string()
}

fn block<'a>(t: &'a Table<RegisterBlock>, k: &str) -> Option<&'a RegisterBlock> {
    t.entries().iter().find(|e| e.0 == k).map(|e| &e.1)
}

#[test]
fn gpio_segment_and_map_in_two_files() {
    let corpus = vec![doc(&segment_doc("GPIO", "0x1000", "0x100")), doc(GPIO_MAP)];
    let model = extract(&corpus, STRICT).unwrap();
    assert_eq!(model.entries().len(), 1);
    let b = block(&model, "gpio").unwrap();
    assert_eq!(b.address, "0x1000");
    assert_eq!(b.range, "0x100");
    assert_eq!(b.segment, "gpio");
    assert_eq!(b.registers.entries().len(), 1);
    let reg = b.registers.get(&key("CTRL")).unwrap();
    assert_eq!(reg.offset, "0x0");
    assert_eq!(reg.width, "32");
    assert_eq!(reg.fields.entries().len(), 1);
    let en = reg.fields.get(&key("EN")).unwrap();
    assert_eq!(en.bit_offset, "0");
    assert_eq!(en.bit_width, "1");
}

#[test]
fn map_without_registers_is_pruned() {
    let ram = "<component><memoryMap><name>RAM</name>\
        <addressBlock><name>mem</name><range>4096</range></addressBlock></memoryMap></component>";
    let corpus = vec![doc(&segment_doc("RAM", "0x0", "0x1000")), doc(ram)];
    let model = extract(&corpus, STRICT).unwrap();
    assert!(block(&model, "ram").is_none());
    assert_eq!(model.entries().len(), 0);
}

#[test]
fn empty_map_removes_earlier_block_of_same_name() {
    let ram = "<component><memoryMap><name>GPIO</name><addressBlock/></memoryMap></component>";
    let corpus = vec![doc(&segment_doc("GPIO", "0x1000", "0x100")), doc(GPIO_MAP), doc(ram)];
    let model = extract(&corpus, STRICT).unwrap();
    assert!(block(&model, "gpio").is_none());
}

#[test]
fn fallback_through_inner_name() {
    let map = "<component><memoryMap><name>core_regs</name>\
        <addressBlock><name>coreregs</name>\
        <register><name>ID</name><addressOffset>0x4</addressOffset><size>32</size></register>\
        </addressBlock></memoryMap></component>";
    let corpus = vec![doc(&segment_doc("CoreRegs", "0x2000", "0x40")), doc(map)];
    let model = extract(&corpus, STRICT).unwrap();
    let b = block(&model, "core_regs").unwrap();
    assert_eq!(b.segment, "coreregs");
    assert_eq!(b.address, "0x2000");
    assert_eq!(b.range, "0x40");
    assert!(b.registers.get(&key("ID")).is_some());
}

#[test]
fn empty_corpus_gives_empty_model() {
    let corpus: Vec<XmlDocument> = Vec::new();
    let model = extract(&corpus, STRICT).unwrap();
    assert_eq!(model.entries().len(), 0);
}

#[test]
fn segment_keys_ignore_case() {
    let map = GPIO_MAP.replace("<name>gpio</name>", "<name>apb</name>");
    let corpus = vec![doc(&segment_doc("Apb", "0x3000", "0x10")), doc(&map)];
    let model = extract(&corpus, STRICT).unwrap();
    let b = block(&model, "apb").unwrap();
    assert_eq!(b.segment, "apb");
    assert_eq!(b.address, "0x3000");
}

#[test]
fn map_key_is_lower_cased() {
    let map = GPIO_MAP.replace("<name>gpio</name>", "<name>GPIO</name>");
    let corpus = vec![doc(&segment_doc("gpio", "0x1000", "0x100")), doc(&map)];
    let model = extract(&corpus, STRICT).unwrap();
    assert!(block(&model, "gpio").is_some());
    assert!(block(&model, "GPIO").is_none());
}

#[test]
fn register_keys_keep_case() {
    let map = "<component><memoryMap><name>gpio</name><addressBlock>\
        <register><name>CTRL</name><addressOffset>0x0</addressOffset><size>32</size></register>\
        <register><name>ctrl</name><addressOffset>0x4</addressOffset><size>16</size></register>\
        </addressBlock></memoryMap></component>";
    let corpus = vec![doc(&segment_doc("GPIO", "0x1000", "0x100")), doc(map)];
    let model = extract(&corpus, STRICT).unwrap();
    let b = block(&model, "gpio").unwrap();
    assert_eq!(b.registers.entries().len(), 2);
    assert_eq!(b.registers.get(&key("CTRL")).unwrap().offset, "0x0");
    assert_eq!(b.registers.get(&key("ctrl")).unwrap().offset, "0x4");
}

#[test]
fn duplicate_register_name_overwrites() {
    let map = "<component><memoryMap><name>gpio</name><addressBlock>\
        <register><name>CTRL</name><addressOffset>0x0</addressOffset><size>32</size></register>\
        </addressBlock><addressBlock>\
        <register><name>CTRL</name><addressOffset>0x8</addressOffset><size>8</size></register>\
        </addressBlock></memoryMap></component>";
    let corpus = vec![doc(&segment_doc("GPIO", "0x1000", "0x100")), doc(map)];
    let model = extract(&corpus, STRICT).unwrap();
    let b = block(&model, "gpio").unwrap();
    assert_eq!(b.registers.entries().len(), 1);
    assert_eq!(b.registers.get(&key("CTRL")).unwrap().offset, "0x8");
    assert_eq!(b.registers.get(&key("CTRL")).unwrap().width, "8");
}

#[test]
fn later_segment_wins() {
    let corpus = vec![
        doc(&segment_doc("GPIO", "0x1000", "0x100")),
        doc(&segment_doc("gpio", "0x5000", "0x200")),
    ];
    let segs = collect_segments(&corpus, STRICT).unwrap();
    assert_eq!(segs.entries().len(), 1);
    let s = segs.get(&key("gpio")).unwrap();
    assert_eq!(s.address_offset, "0x5000");
    assert_eq!(s.range, "0x200");
    assert_eq!(s.name, "gpio");
}

#[test]
fn later_segment_wins_in_model() {
    let corpus = vec![
        doc(&segment_doc("GPIO", "0x1000", "0x100")),
        doc(GPIO_MAP),
        doc(&segment_doc("Gpio", "0x9000", "0x80")),
    ];
    let model = extract(&corpus, STRICT).unwrap();
    let b = block(&model, "gpio").unwrap();
    assert_eq!(b.address, "0x9000");
    assert_eq!(b.range, "0x80");
}

#[test]
fn unnamed_segment_is_skipped() {
    let text = "<c><addressSpace><segments>\
        <segment><addressOffset>0x0</addressOffset><range>0x10</range></segment>\
        <segment><name>B</name><addressOffset>0x10</addressOffset><range>0x10</range></segment>\
        </segments></addressSpace></c>";
    let segs = collect_segments(&vec![doc(text)], STRICT).unwrap();
    assert_eq!(segs.entries().len(), 1);
    assert!(segs.get(&key("b")).is_some());
}

#[test]
fn segments_from_several_segments_elements() {
    let text = "<c><addressSpace>\
        <segments><segment><name>A</name><addressOffset>1</addressOffset><range>2</range></segment></segments>\
        <segments><segment><name>B</name><addressOffset>3</addressOffset><range>4</range></segment></segments>\
        </addressSpace><segment><name>C</name><addressOffset>5</addressOffset><range>6</range></segment></c>";
    let segs = collect_segments(&vec![doc(text)], STRICT).unwrap();
    assert_eq!(segs.entries().len(), 2);
    assert_eq!(segs.entries()[0].0, "a");
    assert_eq!(segs.entries()[1].0, "b");
    assert!(segs.get(&key("c")).is_none());
}

#[test]
fn rerun_gives_same_model() {
    let corpus = vec![doc(&segment_doc("GPIO", "0x1000", "0x100")), doc(GPIO_MAP)];
    let first = extract(&corpus, STRICT).unwrap();
    let second = extract(&corpus, STRICT).unwrap();
    assert_eq!(first.entries().len(), second.entries().len());
    for (k, b) in first.entries() {
        let c = block(&second, k).unwrap();
        assert_eq!(b.address, c.address);
        assert_eq!(b.range, c.range);
        assert_eq!(b.registers.entries().len(), c.registers.entries().len());
    }
}

#[test]
fn segment_without_offset_is_an_error() {
    let text = "<c><addressSpace><segments><segment><name>A</name><range>2</range></segment>\
        </segments></addressSpace></c>";
    let r = collect_segments(&vec![doc(text)], STRICT);
    assert_eq!(
        r.err(),
        Some(ExtractError::MissingChild { document: 0, element: 3, child: Child::AddressOffset })
    );
}

#[test]
fn segment_without_range_is_an_error() {
    let text = "<c><addressSpace><segments><segment><name>A</name><addressOffset>1</addressOffset>\
        </segment></segments></addressSpace></c>";
    let r = extract(&vec![doc(text)], STRICT);
    assert_eq!(
        r.err(),
        Some(ExtractError::MissingChild { document: 0, element: 3, child: Child::Range })
    );
}

#[test]
fn unresolved_map_is_an_error() {
    let corpus = vec![doc(&segment_doc("UART", "0x0", "0x10")), doc(GPIO_MAP)];
    let r = extract(&corpus, STRICT);
    assert_eq!(r.err(), Some(ExtractError::UnresolvedSegment { document: 1, element: 2 }));
}

#[test]
fn unresolved_empty_map_is_an_error() {
    let map = "<c><memoryMap><name>rom</name><addressBlock/></memoryMap></c>";
    let r = extract(&vec![doc(map)], STRICT);
    assert_eq!(r.err(), Some(ExtractError::UnresolvedSegment { document: 0, element: 1 }));
}

#[test]
fn map_without_name_is_an_error() {
    let map = "<c><memoryMap><addressBlock/></memoryMap></c>";
    let r = extract(&vec![doc(map)], STRICT);
    assert_eq!(
        r.err(),
        Some(ExtractError::MissingChild { document: 0, element: 1, child: Child::Name })
    );
}

#[test]
fn register_without_size_is_an_error() {
    let map = "<c><memoryMap><name>gpio</name><addressBlock>\
        <register><name>R</name><addressOffset>0</addressOffset></register>\
        </addressBlock></memoryMap></c>";
    let segs = collect_segments(&vec![doc(&segment_doc("gpio", "0", "1"))], STRICT).unwrap();
    let r = assemble_blocks(&vec![doc(map)], &segs, STRICT);
    assert_eq!(
        r.err(),
        Some(ExtractError::MissingChild { document: 0, element: 4, child: Child::Size })
    );
}

#[test]
fn register_without_name_or_offset_is_an_error() {
    let no_name = "<c><memoryMap><name>gpio</name><addressBlock>\
        <register><addressOffset>0</addressOffset><size>8</size></register>\
        </addressBlock></memoryMap></c>";
    let no_offset = "<c><memoryMap><name>gpio</name><addressBlock>\
        <register><name>R</name><size>8</size></register>\
        </addressBlock></memoryMap></c>";
    let segs = collect_segments(&vec![doc(&segment_doc("gpio", "0", "1"))], STRICT).unwrap();
    assert_eq!(
        assemble_blocks(&vec![doc(no_name)], &segs, STRICT).err(),
        Some(ExtractError::MissingChild { document: 0, element: 4, child: Child::Name })
    );
    assert_eq!(
        assemble_blocks(&vec![doc(no_offset)], &segs, STRICT).err(),
        Some(ExtractError::MissingChild { document: 0, element: 4, child: Child::AddressOffset })
    );
}

#[test]
fn field_missing_children_are_errors() {
    let base = "<c><memoryMap><name>gpio</name><addressBlock>\
        <register><name>R</name><addressOffset>0</addressOffset><size>8</size>\
        <field>FIELD</field></register></addressBlock></memoryMap></c>";
    let segs = collect_segments(&vec![doc(&segment_doc("gpio", "0", "1"))], STRICT).unwrap();
    let cases = [
        ("<bitOffset>0</bitOffset><bitWidth>1</bitWidth>", Child::Name),
        ("<name>F</name><bitWidth>1</bitWidth>", Child::BitOffset),
        ("<name>F</name><bitOffset>0</bitOffset>", Child::BitWidth),
    ];
    for (inner, child) in cases {
        let text = base.replace("FIELD", inner);
        assert_eq!(
            assemble_blocks(&vec![doc(&text)], &segs, STRICT).err(),
            Some(ExtractError::MissingChild { document: 0, element: 8, child })
        );
    }
}

#[test]
fn empty_text_counts_as_missing() {
    let text = "<c><addressSpace><segments><segment><name>A</name><addressOffset/>\
        <range>2</range></segment></segments></addressSpace></c>";
    let r = collect_segments(&vec![doc(text)], STRICT);
    assert_eq!(
        r.err(),
        Some(ExtractError::MissingChild { document: 0, element: 3, child: Child::AddressOffset })
    );
}

#[test]
fn namespaced_tags_match_by_local_name() {
    let seg = "<spirit:component xmlns:spirit=\"http://example.org/spirit\">\
        <spirit:addressSpace><spirit:segments><spirit:segment><spirit:name>GPIO</spirit:name>\
        <spirit:addressOffset>0x1000</spirit:addressOffset><spirit:range>0x100</spirit:range>\
        </spirit:segment></spirit:segments></spirit:addressSpace></spirit:component>";
    let map = GPIO_MAP
        .replace("<", "<spirit:")
        .replace("<spirit:/", "</spirit:")
        .replacen("<spirit:component>", "<spirit:component xmlns:spirit=\"http://example.org/spirit\">", 1);
    let model = extract(&vec![doc(seg), doc(&map)], STRICT).unwrap();
    let b = block(&model, "gpio").unwrap();
    assert_eq!(b.address, "0x1000");
    assert!(b.registers.get(&key("CTRL")).is_some());
}

#[test]
fn unresolved_map_is_skipped_when_asked() {
    let uart = GPIO_MAP.replace("<name>gpio</name>", "<name>uart</name>");
    let corpus = vec![doc(&segment_doc("GPIO", "0x1000", "0x100")), doc(&uart), doc(GPIO_MAP)];
    assert_eq!(
        extract(&corpus, STRICT).err(),
        Some(ExtractError::UnresolvedSegment { document: 1, element: 2 })
    );
    let model = extract(&corpus, SKIP_UNRESOLVED).unwrap();
    assert_eq!(model.entries().len(), 1);
    assert!(block(&model, "uart").is_none());
    assert_eq!(block(&model, "gpio").unwrap().address, "0x1000");
}

#[test]
fn missing_texts_become_empty_when_asked() {
    let seg = "<c><addressSpace><segments><segment><name>GPIO</name><range/></segment>\
        </segments></addressSpace></c>";
    let map = "<c><memoryMap><name>gpio</name><addressBlock>\
        <register><name>R</name><size>8</size>\
        <field><name>F</name><bitWidth>2</bitWidth></field></register>\
        </addressBlock></memoryMap></c>";
    let corpus = vec![doc(seg), doc(map)];
    assert_eq!(
        extract(&corpus, STRICT).err(),
        Some(ExtractError::MissingChild { document: 0, element: 3, child: Child::AddressOffset })
    );
    let model = extract(&corpus, LENIENT).unwrap();
    let b = block(&model, "gpio").unwrap();
    assert_eq!(b.address, "");
    assert_eq!(b.range, "");
    let r = b.registers.get(&key("R")).unwrap();
    assert_eq!(r.offset, "");
    assert_eq!(r.width, "8");
    let f = r.fields.get(&key("F")).unwrap();
    assert_eq!(f.bit_offset, "");
    assert_eq!(f.bit_width, "2");
}

#[test]
fn names_stay_required_when_lenient() {
    let map = "<c><memoryMap><name>gpio</name><addressBlock>\
        <register><addressOffset>0</addressOffset><size>8</size></register>\
        </addressBlock></memoryMap></c>";
    let segs = collect_segments(&vec![doc(&segment_doc("gpio", "0", "1"))], LENIENT).unwrap();
    assert_eq!(
        assemble_blocks(&vec![doc(map)], &segs, LENIENT).err(),
        Some(ExtractError::MissingChild { document: 0, element: 4, child: Child::Name })
    );
}
