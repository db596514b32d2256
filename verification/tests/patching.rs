use static_config::config::Config;
use static_config::module::create_config;
use static_config::patch::{
    bump_stack_global, locate_record, plan_patch, resolve_config_addr, to_address, ExportEntry,
    ExportTarget, GlobalEntry, GlobalValue, PatchError, Placement, SegmentEntry,
};
use walrus::ir::Value;
use walrus::{ConstExpr, DataKind, GlobalKind, Module, ValType};

const RECORD_ADDR: i32 = 1032;
const SEGMENT_ADDR: i32 = 1024;
const STACK_TOP: i32 = 65536;
const DEFAULT_TABLE_ADDR: u32 = 0xdead_beef;

fn pairs(items: &[(&str, &str)]) -> Vec<(String, String)> {
    items.iter().map(|(k, v)| (k.to_string(), v.to_string())).collect()
}

fn constant(v: i32) -> ConstExpr {
    ConstExpr::Value(Value::I32(v))
}

fn record_segment() -> Vec<u8> {
    let mut bytes = vec![0x11u8; 32];
    bytes[16..20].copy_from_slice(&DEFAULT_TABLE_ADDR.to_le_bytes());
    bytes
}

/// A module with one memory, a record at 1032 inside a segment at 1024,
/// and a stack of 64 KiB.
fn target() -> Module {
    let mut module = Module::default();
    let memory = module.memories.add_local(false, false, 2, None, None);
    let stack = module.globals.add_local(ValType::I32, true, false, constant(STACK_TOP));
    module.globals.get_mut(stack).name = Some("__stack_pointer".to_string());
    let record = module.globals.add_local(ValType::I32, false, false, constant(RECORD_ADDR));
    module.exports.add("memory", memory);
    module.exports.add("CONFIG", record);
    module.data.add(DataKind::Active { memory, offset: constant(16) }, vec![0x22; 8]);
    module.data.add(DataKind::Active { memory, offset: constant(SEGMENT_ADDR) }, record_segment());
    module
}

fn segments(module: &Module) -> Vec<(Option<i32>, Vec<u8>)> {
    module
        .data
        .iter()
        .map(|d| {
            let at = match &d.kind {
                DataKind::Active { offset: ConstExpr::Value(Value::I32(at)), .. } => Some(*at),
                _ => None,
            };
            (at, d.value.clone())
        })
        .collect()
}

fn stack_top(module: &Module) -> i32 {
    let global = module.globals.iter().find(|g| g.name.as_deref() == Some("__stack_pointer")).unwrap();
    match &global.kind {
        GlobalKind::Local(ConstExpr::Value(Value::I32(v))) => *v,
        _ => panic!("the stack pointer is no constant"),
    }
}

fn word(bytes: &[u8], at: usize) -> u32 {
    u32::from_le_bytes([bytes[at], bytes[at + 1], bytes[at + 2], bytes[at + 3]])
}

/// Reads the overrides as the patched module would: the count and the
/// table's address from the record, then the table from memory.
fn get_all(module: &Module) -> Vec<(String, String)> {
    let all = segments(module);
    let record = &all.iter().find(|s| s.0 == Some(SEGMENT_ADDR)).unwrap().1;
    let at = (RECORD_ADDR - SEGMENT_ADDR) as usize;
    let count = word(record, at + 4) as usize;
    if count == 0 {
        return Vec::new();
    }
    let addr = word(record, at + 8);
    let table = &all.iter().find(|s| s.0.map(|a| a as u32) == Some(addr)).unwrap().1;
    let mut pos = 0usize;
    let mut texts = Vec::new();
    for _ in 0..count * 2 {
        assert_eq!(pos % 4, 0);
        let len = word(table, pos) as usize;
        texts.push(String::from_utf8(table[pos + 4..pos + 4 + len].to_vec()).unwrap());
        pos += 4 + len;
        pos += (4 - pos % 4) % 4;
    }
    let mut out = Vec::new();
    let mut it = texts.into_iter();
    while let (Some(k), Some(v)) = (it.next(), it.next()) {
        out.push((k, v));
    }
    out
}

/// Looks a key up by binary search, as the patched module would.
fn get(module: &Module, key: &str) -> Option<String> {
    let all = get_all(module);
    all.binary_search_by(|probe| probe.0.as_bytes().cmp(key.as_bytes())).ok().map(|i| all[i].1.clone())
}

fn patched(overrides: Vec<(String, String)>) -> Module {
    let mut module = target();
    create_config(&mut module, &Config { overrides }).expect("create_config should not error");
    module
}

#[test]
fn it_creates_an_empty_component() {
    let expected: Vec<(String, String)> = vec![];
    let component = patched(expected.clone());
    assert_eq!(expected, get_all(&component), "config values do not match");
    assert_eq!(None, get(&component, "greeting"), "config value does not match");
    assert_eq!(None, get(&component, "name"), "config value does not match");
}

#[test]
fn it_creates_a_component_with_a_value() {
    let expected = vec![(String::from("greeting"), String::from("hello"))];
    let component = patched(expected.clone());
    assert_eq!(expected, get_all(&component), "config values do not match");
    assert_eq!(Some(String::from("hello")), get(&component, "greeting"), "config value does not match");
    assert_eq!(None, get(&component, "name"), "config value does not match");
}

#[test]
fn it_creates_a_component_with_multiple_values() {
    let expected = vec![
        (String::from("greeting"), String::from("hello")),
        (String::from("name"), String::from("componentized")),
    ];
    let component = patched(expected.clone());
    assert_eq!(expected, get_all(&component), "config values do not match");
    assert_eq!(Some(String::from("hello")), get(&component, "greeting"), "config value does not match");
    assert_eq!(Some(String::from("componentized")), get(&component, "name"), "config value does not match");
}

#[test]
fn unsorted_overrides_are_found_by_binary_search() {
    let input = pairs(&[("zeta", "26"), ("name", "componentized"), ("alpha", "1"), ("greeting", "hello")]);
    let component = patched(input.clone());
    let mut expected = input.clone();
    expected.sort();
    assert_eq!(get_all(&component), expected);
    for (k, v) in &input {
        assert_eq!(get(&component, k), Some(v.clone()));
    }
    assert_eq!(get(&component, "missing"), None);
}

#[test]
fn no_overrides_leave_the_table_address_alone() {
    let component = patched(Vec::new());
    let all = segments(&component);
    assert_eq!(all.len(), 2);
    let mut expected = record_segment();
    expected[12..16].copy_from_slice(&[0, 0, 0, 0]);
    assert_eq!(all[1].1, expected);
    assert_eq!(word(&all[1].1, 16), DEFAULT_TABLE_ADDR);
    assert_eq!(all[0].1, vec![0x22; 8]);
    assert_eq!(stack_top(&component), STACK_TOP);
}

#[test]
fn the_table_is_added_at_the_new_stack_top() {
    let component = patched(pairs(&[("greeting", "hello")]));
    let all = segments(&component);
    assert_eq!(all.len(), 3);
    assert_eq!(stack_top(&component), STACK_TOP - 24);
    assert_eq!(all[2].0, Some(STACK_TOP - 24));
    let mut table: Vec<u8> = vec![8, 0, 0, 0];
    table.extend_from_slice(b"greeting");
    table.extend_from_slice(&[5, 0, 0, 0]);
    table.extend_from_slice(b"hello");
    table.extend_from_slice(&[0, 0, 0]);
    assert_eq!(all[2].1, table);
    let mut record = record_segment();
    record[12..16].copy_from_slice(&1u32.to_le_bytes());
    record[16..20].copy_from_slice(&((STACK_TOP - 24) as u32).to_le_bytes());
    assert_eq!(all[1].1, record);
    assert_eq!(all[0].1, vec![0x22; 8]);
    assert_eq!(component.get_memory_id().ok(), component.memories.iter().next().map(|m| m.id()));
}

fn assert_unchanged(module: &Module) {
    let fresh = target();
    assert_eq!(segments(module), segments(&fresh));
    assert_eq!(stack_top(module), stack_top(&fresh));
    assert_eq!(module.exports.iter().count(), fresh.exports.iter().count());
    assert_eq!(module.globals.iter().count(), fresh.globals.iter().count());
}

fn some_overrides() -> Config {
    Config { overrides: pairs(&[("greeting", "hello")]) }
}

#[test]
fn a_module_without_the_export_is_refused() {
    let mut module = target();
    let id = module.exports.iter().find(|e| e.name == "CONFIG").unwrap().id();
    module.exports.get_mut(id).name = "config".to_string();
    assert_eq!(create_config(&mut module, &some_overrides()), Err(PatchError::MissingExport));
    module.exports.get_mut(id).name = "CONFIG".to_string();
    assert_unchanged(&module);
}

#[test]
fn an_export_that_is_no_global_is_refused() {
    let mut module = target();
    let id = module.exports.iter().find(|e| e.name == "CONFIG").unwrap().id();
    let memory = module.get_memory_id().unwrap();
    module.exports.get_mut(id).item = walrus::ExportItem::Memory(memory);
    assert_eq!(create_config(&mut module, &some_overrides()), Err(PatchError::NotAGlobal));
    assert_eq!(segments(&module), segments(&target()));
}

#[test]
fn a_global_that_is_no_constant_i32_is_refused() {
    let mut module = target();
    let id = module.globals.iter().find(|g| g.name.is_none()).unwrap().id();
    module.globals.get_mut(id).kind = GlobalKind::Local(ConstExpr::Value(Value::I64(1032)));
    assert_eq!(create_config(&mut module, &some_overrides()), Err(PatchError::UnsupportedGlobalKind));
    assert_eq!(segments(&module), segments(&target()));
}

#[test]
fn a_module_without_memory_is_refused() {
    let mut module = Module::default();
    let record = module.globals.add_local(ValType::I32, false, false, constant(RECORD_ADDR));
    module.exports.add("CONFIG", record);
    assert_eq!(create_config(&mut module, &some_overrides()), Err(PatchError::MemoryNotFound));
    assert_eq!(module.data.iter().count(), 0);
}

#[test]
fn a_record_outside_every_segment_is_refused() {
    let mut module = target();
    let id = module.globals.iter().find(|g| g.name.is_none()).unwrap().id();
    module.globals.get_mut(id).kind = GlobalKind::Local(constant(SEGMENT_ADDR + 32));
    assert_eq!(create_config(&mut module, &some_overrides()), Err(PatchError::NoContainingSegment));
    module.globals.get_mut(id).kind = GlobalKind::Local(constant(RECORD_ADDR));
    assert_unchanged(&module);
}

#[test]
fn a_record_that_leaves_its_segment_is_refused() {
    let mut module = target();
    let id = module.globals.iter().find(|g| g.name.is_none()).unwrap().id();
    module.globals.get_mut(id).kind = GlobalKind::Local(constant(SEGMENT_ADDR + 21));
    assert_eq!(create_config(&mut module, &some_overrides()), Err(PatchError::RecordOutOfBounds));
    module.globals.get_mut(id).kind = GlobalKind::Local(constant(SEGMENT_ADDR + 20));
    assert_eq!(create_config(&mut module, &some_overrides()), Ok(()));
}

#[test]
fn a_module_without_a_stack_pointer_is_refused() {
    let mut module = target();
    let id = module.globals.iter().find(|g| g.name.is_some()).unwrap().id();
    module.globals.get_mut(id).name = None;
    assert_eq!(create_config(&mut module, &some_overrides()), Err(PatchError::StackNotFound));
    assert_eq!(segments(&module), segments(&target()));
    assert_eq!(create_config(&mut module, &Config::default()), Ok(()));
}

#[test]
fn a_stack_smaller_than_the_table_is_refused() {
    let mut module = target();
    let id = module.globals.iter().find(|g| g.name.is_some()).unwrap().id();
    module.globals.get_mut(id).kind = GlobalKind::Local(constant(23));
    assert_eq!(create_config(&mut module, &some_overrides()), Err(PatchError::StackExhausted));
    assert_eq!(segments(&module), segments(&target()));
    module.globals.get_mut(id).kind = GlobalKind::Local(constant(24));
    assert_eq!(create_config(&mut module, &some_overrides()), Ok(()));
    assert_eq!(stack_top(&module), 0);
}

#[test]
fn the_default_config_has_no_overrides() {
    assert!(Config::default().overrides.is_empty());
}

fn export(name: &str, target: ExportTarget) -> ExportEntry {
    ExportEntry { name: name.to_string(), target }
}

fn global(slot: usize, name: Option<&str>, value: GlobalValue) -> GlobalEntry {
    GlobalEntry { slot, name: name.map(|n| n.to_string()), value }
}

fn active(memory: usize, offset: i32, len: usize) -> SegmentEntry {
    SegmentEntry { placement: Placement::Active { memory, offset }, len }
}

#[test]
fn addresses_are_read_unsigned() {
    assert_eq!(to_address(0), 0);
    assert_eq!(to_address(1032), 1032);
    assert_eq!(to_address(i32::MAX), 0x7fff_ffff);
    assert_eq!(to_address(-1), u32::MAX);
    assert_eq!(to_address(i32::MIN), 0x8000_0000);
}

#[test]
fn the_first_export_of_the_name_decides() {
    let globals = vec![
        global(3, None, GlobalValue::ConstI32(40)),
        global(5, None, GlobalValue::ConstI32(-8)),
        global(7, None, GlobalValue::Other),
    ];
    let exports = vec![
        export("other", ExportTarget::Global(3)),
        export("CONFIG", ExportTarget::Global(5)),
        export("CONFIG", ExportTarget::Other),
    ];
    assert_eq!(resolve_config_addr(&exports, &globals), Ok(0xffff_fff8));
    assert_eq!(resolve_config_addr(&exports[..1].to_vec(), &globals), Err(PatchError::MissingExport));
    assert_eq!(resolve_config_addr(&exports[2..].to_vec(), &globals), Err(PatchError::NotAGlobal));
    let imported = vec![export("CONFIG", ExportTarget::Global(7))];
    assert_eq!(resolve_config_addr(&imported, &globals), Err(PatchError::UnsupportedGlobalKind));
    let gone = vec![export("CONFIG", ExportTarget::Global(4))];
    assert_eq!(resolve_config_addr(&gone, &globals), Err(PatchError::UnsupportedGlobalKind));
}

#[test]
fn the_record_is_sought_in_active_segments_of_the_memory() {
    let segments = vec![
        SegmentEntry { placement: Placement::Other, len: 4096 },
        active(1, 1000, 100),
        active(0, 0, 1000),
        active(0, 1000, 100),
        active(0, 1000, 200),
    ];
    assert_eq!(locate_record(&segments, 0, 1000), Ok((3, 0)));
    assert_eq!(locate_record(&segments, 0, 1088), Ok((3, 88)));
    assert_eq!(locate_record(&segments, 0, 1089), Err(PatchError::RecordOutOfBounds));
    assert_eq!(locate_record(&segments, 0, 999), Err(PatchError::RecordOutOfBounds));
    assert_eq!(locate_record(&segments, 0, 500), Ok((2, 500)));
    assert_eq!(locate_record(&segments, 0, 1100), Ok((4, 100)));
    assert_eq!(locate_record(&segments, 0, 1200), Err(PatchError::NoContainingSegment));
    assert_eq!(locate_record(&segments, 1, 1010), Ok((1, 10)));
    assert_eq!(locate_record(&segments, 2, 1010), Err(PatchError::NoContainingSegment));
    assert_eq!(locate_record(&vec![active(0, -16, 16)], 0, 0xffff_fff2), Ok((0, 2)));
}

#[test]
fn the_stack_is_bumped_downwards() {
    let globals = vec![
        global(0, None, GlobalValue::ConstI32(1)),
        global(1, Some("__stack_pointer"), GlobalValue::ConstI32(1024)),
    ];
    assert_eq!(bump_stack_global(&globals, 24), Ok((1, 1000)));
    assert_eq!(bump_stack_global(&globals, 1024), Ok((1, 0)));
    assert_eq!(bump_stack_global(&globals, 1025), Err(PatchError::StackExhausted));
    assert_eq!(bump_stack_global(&globals[..1].to_vec(), 8), Err(PatchError::StackNotFound));
    let imported = vec![global(0, Some("__stack_pointer"), GlobalValue::Other)];
    assert_eq!(bump_stack_global(&imported, 8), Err(PatchError::StackNotFound));
    let negative = vec![global(0, Some("__stack_pointer"), GlobalValue::ConstI32(-8))];
    assert_eq!(bump_stack_global(&negative, 8), Err(PatchError::StackExhausted));
}

#[test]
fn a_plan_names_every_change() {
    let exports = vec![export("CONFIG", ExportTarget::Global(0))];
    let globals = vec![
        global(0, None, GlobalValue::ConstI32(1032)),
        global(1, Some("__stack_pointer"), GlobalValue::ConstI32(65536)),
    ];
    let segments = vec![active(0, 1024, 32)];
    let plan = plan_patch(&exports, &globals, Some(0), &segments, &pairs(&[("a", "")])).unwrap();
    assert_eq!((plan.segment, plan.record_at, plan.count), (0, 8, 1));
    let table = plan.table.unwrap();
    assert_eq!((table.stack_global, table.top), (1, 65536 - 16));
    assert_eq!(table.bytes, vec![1, 0, 0, 0, b'a', 0, 0, 0, 0, 0, 0, 0, 0, 0, 0, 0]);

    let empty = plan_patch(&exports, &globals, Some(0), &segments, &Vec::new()).unwrap();
    assert_eq!((empty.segment, empty.record_at, empty.count), (0, 8, 0));
    assert!(empty.table.is_none());

    let no_memory = plan_patch(&exports, &globals, None, &segments, &Vec::new());
    assert_eq!(no_memory.err(), Some(PatchError::MemoryNotFound));
    let no_export = plan_patch(&Vec::new(), &globals, None, &segments, &Vec::new());
    assert_eq!(no_export.err(), Some(PatchError::MissingExport));
}

#[test]
fn every_reason_has_its_sentence() {
    assert_eq!(PatchError::MissingExport.message(), "Adapter 'CONFIG' is not exported");
    assert_eq!(PatchError::NotAGlobal.message(), "Adapter 'config' not a global");
    assert_eq!(
        PatchError::UnsupportedGlobalKind.message(),
        "Adapter 'config' not a local I32 global value"
    );
    assert_eq!(PatchError::MemoryNotFound.message(), "module does not export a memory");
    assert_eq!(
        PatchError::NoContainingSegment.message(),
        "Unable to find data section for the 'CONFIG' address"
    );
    assert_eq!(PatchError::RecordOutOfBounds.message(), "Data section ends inside the 'CONFIG' record");
    assert_eq!(
        PatchError::StackNotFound.message(),
        "Unable to find a constant I32 __stack_pointer global"
    );
    assert_eq!(PatchError::StackExhausted.message(), "Stack size is smaller than the field data");
}
