//! The patcher on a parsed module: reads what the plan needs from the
//! module, and carries the plan out on it.

use vstd::prelude::*;
use walrus::ir::Value;
use walrus::{ConstExpr, DataKind, ExportItem, GlobalKind, Module};
use crate::config::Config;
use crate::layout::{le32, push_le32, zeros, COUNT_OFFSET, TABLE_ADDR_OFFSET};
use crate::order::{pairs_of, sort_entries, Entry};
use crate::reader::{lemma_table_round_trip, lemma_word_round_trip, lengths_fit, read_entries, word_at};
use crate::table::field_table;
use crate::patch::{
    address_of, bumped_stack, lemma_covering_segment, lemma_global_named, plan_patch, planned,
    resolved_addr, stack_pointer, to_address, ExportEntry, ExportTarget, GlobalEntry, GlobalValue,
    Patch, PatchError, PatchModel, Placement, SegmentEntry,
};

verus! {

#[verifier::external_type_specification]
#[verifier::external_body]
pub struct ExModule(walrus::Module);

/// The exports of a module, in the order in which the module lists them.
pub uninterp spec fn module_exports(m: Module) -> Seq<ExportEntry>;

/// The globals of a module, in the order in which the module lists them.
pub uninterp spec fn module_globals(m: Module) -> Seq<GlobalEntry>;

/// The slot of the module's memory, where it has exactly one.
pub uninterp spec fn module_memory(m: Module) -> Option<usize>;

/// The data segments of a module, in the order in which the module lists
/// them.
pub uninterp spec fn module_segments(m: Module) -> Seq<SegmentEntry>;

/// The bytes of each data segment of a module, in the same order.
pub uninterp spec fn module_data(m: Module) -> Seq<Seq<u8>>;

/// What the patcher reads and changes of a module.
pub struct ModuleModel {
    pub exports: Seq<ExportEntry>,
    pub globals: Seq<GlobalEntry>,
    pub memory: Option<usize>,
    pub segments: Seq<SegmentEntry>,
    pub data: Seq<Seq<u8>>,
}

/// The model of a module.
pub open spec fn model_of(m: Module) -> ModuleModel {
    ModuleModel {
        exports: module_exports(m),
        globals: module_globals(m),
        memory: module_memory(m),
        segments: module_segments(m),
        data: module_data(m),
    }
}

/// `buf` with `word` written over the bytes from `at` on.
pub open spec fn overwrite(buf: Seq<u8>, at: int, word: Seq<u8>) -> Seq<u8> {
    Seq::new(
        buf.len(),
        |i: int|
            if at <= i < at + word.len() {
                word[i - at]
            } else {
                buf[i]
            },
    )
}

/// The global with a new constant value.
pub open spec fn with_value(g: GlobalEntry, v: i32) -> GlobalEntry {
    GlobalEntry { slot: g.slot, name: g.name, value: GlobalValue::ConstI32(v) }
}

/// The module with the table in place: the stack pointer lowered to the
/// table's address and the table added as the last segment, active at that
/// address in the module's memory.
pub open spec fn with_table(pre: ModuleModel, g: int, top: i32, table: Seq<u8>) -> ModuleModel {
    ModuleModel {
        exports: pre.exports,
        globals: pre.globals.update(g, with_value(pre.globals[g], top)),
        memory: pre.memory,
        segments: pre.segments.push(
            SegmentEntry {
                placement: Placement::Active { memory: pre.memory.unwrap(), offset: top },
                len: table.len() as usize,
            },
        ),
        data: pre.data.push(table),
    }
}

/// The module with a word written into one of its segments.
pub open spec fn with_word(pre: ModuleModel, segment: int, at: int, word: Seq<u8>) -> ModuleModel {
    ModuleModel {
        exports: pre.exports,
        globals: pre.globals,
        memory: pre.memory,
        segments: pre.segments,
        data: pre.data.update(segment, overwrite(pre.data[segment], at, word)),
    }
}

/// The module after the patch: with the table, where there is one; the
/// count in the second word of the record; and the table's address in the
/// third, which stays as it was where there is no table.
pub open spec fn patched(pre: ModuleModel, p: PatchModel) -> ModuleModel {
    match p.table {
        Some((g, top, table)) => with_word(
            with_word(with_table(pre, g, top, table), p.segment, p.record_at + 4, le32(p.count as nat)),
            p.segment,
            p.record_at + 8,
            le32(address_of(top) as nat),
        ),
        None => with_word(pre, p.segment, p.record_at + 4, le32(p.count as nat)),
    }
}

/// Every segment of the model has its bytes, as many as its entry says.
pub open spec fn well_formed(m: ModuleModel) -> bool {
    &&& m.data.len() == m.segments.len()
    &&& forall|i: int| 0 <= i < m.segments.len() ==> (#[trigger] m.data[i]).len() == m.segments[i].len
}

/// The changes planned for a module with the overrides `es`.
pub open spec fn plan_for(pre: ModuleModel, es: Seq<Entry>) -> Result<PatchModel, PatchError> {
    planned(pre.exports, pre.globals, pre.memory, pre.segments, es)
}

/// With no overrides the module gets a count of zero and nothing else: no
/// table, the stack as it was, and every byte outside the count as it was,
/// the word of the table's address among them.
pub proof fn lemma_no_overrides(pre: ModuleModel, p: PatchModel)
    requires
        well_formed(pre),
        plan_for(pre, Seq::empty()) == Ok::<PatchModel, PatchError>(p),
    ensures
        p.table is None,
        patched(pre, p).exports == pre.exports,
        patched(pre, p).globals == pre.globals,
        patched(pre, p).memory == pre.memory,
        patched(pre, p).segments == pre.segments,
        patched(pre, p).data.len() == pre.data.len(),
        forall|s: int| 0 <= s < pre.data.len() && s != p.segment ==> patched(pre, p).data[s] == pre.data[s],
        0 <= p.segment < pre.data.len(),
        0 <= p.record_at && p.record_at + 12 <= pre.data[p.segment].len(),
        patched(pre, p).data[p.segment].len() == pre.data[p.segment].len(),
        patched(pre, p).data[p.segment].subrange(p.record_at + 4, p.record_at + 8) == zeros(4),
        forall|i: int|
            0 <= i < pre.data[p.segment].len() && !(p.record_at + 4 <= i < p.record_at + 8)
                ==> patched(pre, p).data[p.segment][i] == pre.data[p.segment][i],
        patched(pre, p).data[p.segment].subrange(p.record_at + 8, p.record_at + 12)
            == pre.data[p.segment].subrange(p.record_at + 8, p.record_at + 12),
{
    lemma_plan_in_bounds(pre, Seq::empty(), p);
    assert(le32(0) == zeros(4));
}

/// A plan names a segment of the module, and the record lies inside it.
pub proof fn lemma_plan_in_bounds(pre: ModuleModel, es: Seq<Entry>, p: PatchModel)
    requires
        well_formed(pre),
        plan_for(pre, es) == Ok::<PatchModel, PatchError>(p),
    ensures
        0 <= p.segment < pre.data.len(),
        0 <= p.record_at && p.record_at + 12 <= pre.data[p.segment].len(),
        p.table is None <==> es.len() == 0,
        p.count == es.len() % 0x1_0000_0000,
        pre.memory is Some,
        p.table is Some ==> 0 <= p.table.unwrap().0 < pre.globals.len(),
{
    let addr = resolved_addr(pre.exports, pre.globals).unwrap();
    lemma_covering_segment(pre.segments, pre.memory.unwrap(), addr, 0);
    lemma_global_named(pre.globals, stack_pointer(), 0);
}

/// With overrides the module gets their table as its last segment, active
/// at the new top of the stack; the record holds their number, reduced
/// modulo 2^32, and that address; and nothing else changes in the segments that were there.
pub proof fn lemma_with_overrides(pre: ModuleModel, es: Seq<Entry>, p: PatchModel)
    requires
        well_formed(pre),
        es.len() > 0,
        plan_for(pre, es) == Ok::<PatchModel, PatchError>(p),
    ensures
        p.table is Some,
        patched(pre, p).exports == pre.exports,
        patched(pre, p).memory == pre.memory,
        patched(pre, p).data.len() == pre.data.len() + 1,
        patched(pre, p).data.last() == field_table(es),
        patched(pre, p).segments.last().placement == (Placement::Active {
            memory: pre.memory.unwrap(),
            offset: p.table.unwrap().1,
        }),
        patched(pre, p).globals[p.table.unwrap().0].value == GlobalValue::ConstI32(p.table.unwrap().1),
        bumped_stack(pre.globals, field_table(es).len() as int) == Ok::<(int, i32), PatchError>(
            (p.table.unwrap().0, p.table.unwrap().1),
        ),
        0 <= p.segment < pre.data.len(),
        0 <= p.record_at && p.record_at + 12 <= pre.data[p.segment].len(),
        forall|s: int| 0 <= s < pre.data.len() && s != p.segment ==> patched(pre, p).data[s] == pre.data[s],
        patched(pre, p).data[p.segment].len() == pre.data[p.segment].len(),
        patched(pre, p).data[p.segment].subrange(p.record_at + 4, p.record_at + 8) == le32(
            es.len() % 0x1_0000_0000,
        ),
        patched(pre, p).data[p.segment].subrange(p.record_at + 8, p.record_at + 12) == le32(
            address_of(p.table.unwrap().1) as nat,
        ),
        forall|i: int|
            0 <= i < pre.data[p.segment].len() && !(p.record_at + 4 <= i < p.record_at + 12)
                ==> patched(pre, p).data[p.segment][i] == pre.data[p.segment][i],
{
    lemma_plan_in_bounds(pre, es, p);
    crate::table::lemma_table_len(es);
    let (g, top, table) = p.table.unwrap();
    let mid = with_table(pre, g, top, table);
    assert(mid.data[p.segment] == pre.data[p.segment]);
}

/// What the patched module holds is what was given: read as numbers, the
/// record's second word is the number of overrides and its third the
/// address at which the last segment is loaded; and that segment, read as
/// a table, gives the overrides in ascending order of their keys, each as
/// often as it was given.
pub proof fn lemma_patched_reads_back(pre: ModuleModel, es: Seq<Entry>, p: PatchModel)
    requires
        well_formed(pre),
        0 < es.len() < 0x1_0000_0000,
        lengths_fit(es),
        plan_for(pre, es) == Ok::<PatchModel, PatchError>(p),
    ensures
        p.table is Some,
        0 <= p.segment < pre.data.len(),
        word_at(patched(pre, p).data[p.segment], p.record_at + 4) == es.len(),
        word_at(patched(pre, p).data[p.segment], p.record_at + 8) == address_of(p.table.unwrap().1),
        patched(pre, p).segments.last().placement == (Placement::Active {
            memory: pre.memory.unwrap(),
            offset: p.table.unwrap().1,
        }),
        read_entries(patched(pre, p).data.last(), es.len()) matches Some((read, _)) && read
            == sort_entries(es) && read.to_multiset() == es.to_multiset(),
{
    lemma_with_overrides(pre, es, p);
    lemma_table_round_trip(es);
    assert(es.len() % 0x1_0000_0000 == es.len());
    lemma_words_read(
        patched(pre, p).data[p.segment],
        p.record_at,
        es.len(),
        address_of(p.table.unwrap().1) as nat,
    );
}

/// A record whose words were written from two numbers below 2^32 gives
/// those numbers when its words are read.
proof fn lemma_words_read(record: Seq<u8>, at: int, count: nat, addr: nat)
    requires
        0 <= at,
        at + 12 <= record.len(),
        count < 0x1_0000_0000,
        addr < 0x1_0000_0000,
        record.subrange(at + 4, at + 8) == le32(count),
        record.subrange(at + 8, at + 12) == le32(addr),
    ensures
        word_at(record, at + 4) == count,
        word_at(record, at + 8) == addr,
{
    lemma_word_round_trip(count);
    lemma_word_round_trip(addr);
    let first = record.subrange(at + 4, at + 8);
    let second = record.subrange(at + 8, at + 12);
    assert(first[0] == record[at + 4] && first[1] == record[at + 5] && first[2] == record[at + 6]
        && first[3] == record[at + 7]);
    assert(second[0] == record[at + 8] && second[1] == record[at + 9] && second[2] == record[at
        + 10] && second[3] == record[at + 11]);
}

/// Lists the exports with `walrus::ModuleExports::iter`: each export's
/// name, and the arena index of the global where it refers to one.
#[verifier::external_body]
fn export_entries(module: &Module) -> (r: Vec<ExportEntry>)
    ensures
        r@ == module_exports(*module),
{
    module.exports.iter().map(|e| ExportEntry {
        name: e.name.clone(),
        target: match e.item {
            ExportItem::Global(g) => ExportTarget::Global(g.index()),
            _ => ExportTarget::Other,
        },
    }).collect()
}

/// Lists the globals with `walrus::ModuleGlobals::iter`: each global's
/// arena index, its name, and its value where that is a constant 32-bit
/// integer of the module.
#[verifier::external_body]
fn global_entries(module: &Module) -> (r: Vec<GlobalEntry>)
    ensures
        r@ == module_globals(*module),
{
    module.globals.iter().map(|g| GlobalEntry {
        slot: g.id().index(),
        name: g.name.clone(),
        value: match &g.kind {
            GlobalKind::Local(ConstExpr::Value(Value::I32(v))) => GlobalValue::ConstI32(*v),
            _ => GlobalValue::Other,
        },
    }).collect()
}

/// Asks `walrus::Module::get_memory_id` for the module's memory and gives
/// its arena index; nothing where the module has no memory or several.
#[verifier::external_body]
fn memory_slot(module: &Module) -> (r: Option<usize>)
    ensures
        r == module_memory(*module),
{
    module.get_memory_id().ok().map(|m| m.index())
}

/// Lists the data segments with `walrus::ModuleData::iter`: for each its
/// length, and the memory's arena index and the address where it is active
/// at a constant 32-bit address.
#[verifier::external_body]
fn segment_entries(module: &Module) -> (r: Vec<SegmentEntry>)
    ensures
        r@ == module_segments(*module),
        module_data(*module).len() == r@.len(),
        forall|i: int| 0 <= i < r@.len() ==> (#[trigger] module_data(*module)[i]).len() == r@[i].len,
{
    module.data.iter().map(|d| SegmentEntry {
        placement: match &d.kind {
            DataKind::Active { memory, offset: ConstExpr::Value(Value::I32(at)) } => {
                Placement::Active { memory: memory.index(), offset: *at }
            },
            _ => Placement::Other,
        },
        len: d.value.len(),
    }).collect()
}

/// Gives the global at position `pos` of `walrus::ModuleGlobals::iter` the
/// constant `v`, through `walrus::ModuleGlobals::get_mut`. Nothing else
/// of the module changes.
#[verifier::external_body]
fn set_global_i32(module: &mut Module, pos: usize, v: i32)
    requires
        pos < module_globals(*old(module)).len(),
        module_globals(*old(module))[pos as int].value is ConstI32,
    ensures
        module_globals(*final(module)) == module_globals(*old(module)).update(
            pos as int,
            with_value(module_globals(*old(module))[pos as int], v),
        ),
        module_exports(*final(module)) == module_exports(*old(module)),
        module_memory(*final(module)) == module_memory(*old(module)),
        module_segments(*final(module)) == module_segments(*old(module)),
        module_data(*final(module)) == module_data(*old(module)),
{
    let id = module.globals.iter().nth(pos).map(|g| g.id());
    if let Some(id) = id {
        module.globals.get_mut(id).kind = GlobalKind::Local(ConstExpr::Value(Value::I32(v)));
    }
}

/// Adds a segment with `walrus::ModuleData::add`, active at the constant
/// address `top` in the memory that `walrus::Module::get_memory_id` gives.
/// The new segment is listed last. Nothing else of the module changes.
#[verifier::external_body]
fn add_active_segment(module: &mut Module, top: i32, bytes: Vec<u8>)
    requires
        module_memory(*old(module)) is Some,
    ensures
        module_segments(*final(module)) == module_segments(*old(module)).push(
            SegmentEntry {
                placement: Placement::Active {
                    memory: module_memory(*old(module)).unwrap(),
                    offset: top,
                },
                len: bytes@.len() as usize,
            },
        ),
        module_data(*final(module)) == module_data(*old(module)).push(bytes@),
        module_exports(*final(module)) == module_exports(*old(module)),
        module_globals(*final(module)) == module_globals(*old(module)),
        module_memory(*final(module)) == module_memory(*old(module)),
{
    if let Ok(memory) = module.get_memory_id() {
        let offset = ConstExpr::Value(Value::I32(top));
        module.data.add(DataKind::Active { memory, offset }, bytes);
    }
}

/// Sets one byte of the segment at position `segment` of
/// `walrus::ModuleData::iter`, through `walrus::ModuleData::get_mut`.
/// Nothing else of the module changes.
#[verifier::external_body]
fn set_segment_byte(module: &mut Module, segment: usize, at: usize, byte: u8)
    requires
        segment < module_data(*old(module)).len(),
        at < module_data(*old(module))[segment as int].len(),
    ensures
        module_data(*final(module)) == module_data(*old(module)).update(
            segment as int,
            module_data(*old(module))[segment as int].update(at as int, byte),
        ),
        module_exports(*final(module)) == module_exports(*old(module)),
        module_globals(*final(module)) == module_globals(*old(module)),
        module_memory(*final(module)) == module_memory(*old(module)),
        module_segments(*final(module)) == module_segments(*old(module)),
{
    let id = module.data.iter().nth(segment).map(|d| d.id());
    if let Some(id) = id {
        module.data.get_mut(id).value[at] = byte;
    }
}

/// Writes `word` into a segment, from `at` on.
fn write_word(module: &mut Module, segment: usize, at: usize, word: &Vec<u8>)
    requires
        segment < module_data(*old(module)).len(),
        at + word@.len() <= module_data(*old(module))[segment as int].len(),
        at + word@.len() <= usize::MAX,
    ensures
        model_of(*final(module)) == with_word(model_of(*old(module)), segment as int, at as int, word@),
{
    let ghost before = module_data(*module)[segment as int];
    let mut i: usize = 0;
    proof {
        assert(overwrite(before, at as int, word@.take(0)) =~= before);
        assert(module_data(*module).update(segment as int, before) =~= module_data(*module));
    }
    while i < word.len()
        invariant
            i <= word@.len(),
            segment < module_data(*old(module)).len(),
            before == module_data(*old(module))[segment as int],
            at + word@.len() <= before.len(),
            at + word@.len() <= usize::MAX,
            module_data(*module) == module_data(*old(module)).update(
                segment as int,
                overwrite(before, at as int, word@.take(i as int)),
            ),
            module_exports(*module) == module_exports(*old(module)),
            module_globals(*module) == module_globals(*old(module)),
            module_memory(*module) == module_memory(*old(module)),
            module_segments(*module) == module_segments(*old(module)),
        decreases word@.len() - i,
    {
        let ghost sofar = overwrite(before, at as int, word@.take(i as int));
        set_segment_byte(module, segment, at + i, word[i]);
        proof {
            assert(sofar.update(at + i, word@[i as int]) =~= overwrite(
                before,
                at as int,
                word@.take(i + 1),
            ));
            assert(module_data(*old(module)).update(segment as int, sofar).update(
                segment as int,
                sofar.update(at + i, word@[i as int]),
            ) =~= module_data(*old(module)).update(
                segment as int,
                overwrite(before, at as int, word@.take(i + 1)),
            ));
        }
        i += 1;
    }
    proof {
        assert(word@.take(i as int) == word@);
    }
}

/// Embeds the overrides of `config` in the module: adds their table as a
/// new data segment on space taken from the stack, and writes their number
/// and the table's address into the record whose address the module
/// exports. A module that cannot take them stays as it was.
pub fn create_config(module: &mut Module, config: &Config) -> (r: Result<(), PatchError>)
    ensures
        match planned(
            module_exports(*old(module)),
            module_globals(*old(module)),
            module_memory(*old(module)),
            module_segments(*old(module)),
            pairs_of(config.overrides@),
        ) {
            Ok(p) => r is Ok && model_of(*final(module)) == patched(model_of(*old(module)), p),
            Err(e) => r == Err::<(), PatchError>(e) && model_of(*final(module)) == model_of(
                *old(module),
            ),
        },
{
    let exports = export_entries(module);
    let globals = global_entries(module);
    let memory = memory_slot(module);
    let segments = segment_entries(module);
    let patch = match plan_patch(&exports, &globals, memory, &segments, &config.overrides) {
        Ok(patch) => patch,
        Err(e) => {
            return Err(e);
        },
    };
    let ghost p = patch@;
    let Patch { segment, record_at, count, table } = patch;
    let mut count_word: Vec<u8> = Vec::new();
    push_le32(&mut count_word, count as usize);
    match table {
        Some(t) => {
            let mut addr_word: Vec<u8> = Vec::new();
            push_le32(&mut addr_word, to_address(t.top) as usize);
            set_global_i32(module, t.stack_global, t.top);
            add_active_segment(module, t.top, t.bytes);
            proof {
                assert(model_of(*module) == with_table(
                    model_of(*old(module)),
                    t.stack_global as int,
                    t.top,
                    t.bytes@,
                ));
            }
            write_word(module, segment, record_at + COUNT_OFFSET, &count_word);
            write_word(module, segment, record_at + TABLE_ADDR_OFFSET, &addr_word);
        },
        None => {
            write_word(module, segment, record_at + COUNT_OFFSET, &count_word);
        },
    }
    Ok(())
}

} // verus!
