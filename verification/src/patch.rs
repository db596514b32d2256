//! What to change in a module, decided from what the module holds: where
//! the configuration record lies, where the table goes, and what is written.

use vstd::prelude::*;
use crate::layout::RECORD_SIZE;
use crate::order::{pairs_of, Entry};
use crate::table::{encode_field_table, field_table};

verus! {

/// Why a module cannot take the configuration.
#[derive(Debug, Clone, Copy, PartialEq, Eq)]
pub enum PatchError {
    /// The module exports nothing under the name of the record.
    MissingExport,
    /// The export of that name is no global.
    NotAGlobal,
    /// The exported global is not a constant 32-bit integer of the module.
    UnsupportedGlobalKind,
    /// The module does not have exactly one memory.
    MemoryNotFound,
    /// No active data segment covers the address of the record.
    NoContainingSegment,
    /// The segment that covers the address ends before the record does.
    RecordOutOfBounds,
    /// No global of the stack pointer's name holds a constant 32-bit integer.
    StackNotFound,
    /// The stack is smaller than the table.
    StackExhausted,
}

impl PatchError {
    /// The sentence that `message` gives for each reason.
    pub open spec fn message_text(self) -> Seq<char> {
        match self {
            PatchError::MissingExport => "Adapter 'CONFIG' is not exported"@,
            PatchError::NotAGlobal => "Adapter 'config' not a global"@,
            PatchError::UnsupportedGlobalKind => "Adapter 'config' not a local I32 global value"@,
            PatchError::MemoryNotFound => "module does not export a memory"@,
            PatchError::NoContainingSegment => "Unable to find data section for the 'CONFIG' address"@,
            PatchError::RecordOutOfBounds => "Data section ends inside the 'CONFIG' record"@,
            PatchError::StackNotFound => "Unable to find a constant I32 __stack_pointer global"@,
            PatchError::StackExhausted => "Stack size is smaller than the field data"@,
        }
    }

    /// The reason in words.
    pub fn message(&self) -> (r: &'static str)
        ensures
            r@ == self.message_text(),
    {
        match self {
            PatchError::MissingExport => "Adapter 'CONFIG' is not exported",
            PatchError::NotAGlobal => "Adapter 'config' not a global",
            PatchError::UnsupportedGlobalKind => "Adapter 'config' not a local I32 global value",
            PatchError::MemoryNotFound => "module does not export a memory",
            PatchError::NoContainingSegment => "Unable to find data section for the 'CONFIG' address",
            PatchError::RecordOutOfBounds => "Data section ends inside the 'CONFIG' record",
            PatchError::StackNotFound => "Unable to find a constant I32 __stack_pointer global",
            PatchError::StackExhausted => "Stack size is smaller than the field data",
        }
    }
}

/// What an export refers to.
#[derive(Debug, Clone, Copy, PartialEq, Eq)]
pub enum ExportTarget {
    /// The global that stands at this slot of the module's globals.
    Global(usize),
    /// Anything else.
    Other,
}

/// One export of a module.
#[derive(Debug, Clone)]
pub struct ExportEntry {
    pub name: String,
    pub target: ExportTarget,
}

/// What a global starts as.
#[derive(Debug, Clone, Copy, PartialEq, Eq)]
pub enum GlobalValue {
    /// A 32-bit integer constant fixed in the module.
    ConstI32(i32),
    /// An import, or any other initial value.
    Other,
}

/// One global of a module.
#[derive(Debug, Clone)]
pub struct GlobalEntry {
    pub slot: usize,
    pub name: Option<String>,
    pub value: GlobalValue,
}

/// Where a data segment is loaded.
#[derive(Debug, Clone, Copy, PartialEq, Eq)]
pub enum Placement {
    /// When the module starts, into the memory at this slot, at a constant
    /// 32-bit address.
    Active { memory: usize, offset: i32 },
    /// On request, or at an address that is no such constant.
    Other,
}

/// One data segment of a module, without its bytes.
#[derive(Debug, Clone, Copy, PartialEq, Eq)]
pub struct SegmentEntry {
    pub placement: Placement,
    pub len: usize,
}

/// The table to add to a module.
#[derive(Debug, Clone)]
pub struct TablePlan {
    /// Position of the stack pointer among the globals.
    pub stack_global: usize,
    /// The stack pointer's new value, which is where the table begins.
    pub top: i32,
    /// The table.
    pub bytes: Vec<u8>,
}

/// The changes that give a module its configuration.
#[derive(Debug, Clone)]
pub struct Patch {
    /// Position of the segment that holds the record.
    pub segment: usize,
    /// Where the record begins in that segment.
    pub record_at: usize,
    /// The number of overrides.
    pub count: u32,
    /// The table, where there is one.
    pub table: Option<TablePlan>,
}

/// A `Patch` as plain values.
pub struct PatchModel {
    pub segment: int,
    pub record_at: int,
    pub count: int,
    pub table: Option<(int, i32, Seq<u8>)>,
}

impl View for Patch {
    type V = PatchModel;

    open spec fn view(&self) -> PatchModel {
        PatchModel {
            segment: self.segment as int,
            record_at: self.record_at as int,
            count: self.count as int,
            table: match self.table {
                Some(t) => Some((t.stack_global as int, t.top, t.bytes@)),
                None => None,
            },
        }
    }
}

/// The name under which a module exports the address of its record.
pub open spec fn record_export() -> Seq<char> {
    "CONFIG"@
}

/// The name of the global that holds the top of the stack.
pub open spec fn stack_pointer() -> Seq<char> {
    "__stack_pointer"@
}

/// A 32-bit integer read as an address.
pub open spec fn address_of(v: i32) -> int {
    if v >= 0 {
        v as int
    } else {
        v + 0x1_0000_0000
    }
}

/// The first export from `from` on that has the name.
pub open spec fn export_named(exports: Seq<ExportEntry>, name: Seq<char>, from: int) -> Option<int>
    decreases exports.len() - from,
{
    if from < 0 || from >= exports.len() {
        None
    } else if exports[from].name@ == name {
        Some(from)
    } else {
        export_named(exports, name, from + 1)
    }
}

/// The first global from `from` on that stands at the slot.
pub open spec fn global_at_slot(globals: Seq<GlobalEntry>, slot: usize, from: int) -> Option<int>
    decreases globals.len() - from,
{
    if from < 0 || from >= globals.len() {
        None
    } else if globals[from].slot == slot {
        Some(from)
    } else {
        global_at_slot(globals, slot, from + 1)
    }
}

/// Whether the global has the name.
pub open spec fn is_named(global: GlobalEntry, name: Seq<char>) -> bool {
    match global.name {
        Some(n) => n@ == name,
        None => false,
    }
}

/// The first global from `from` on that has the name.
pub open spec fn global_named(globals: Seq<GlobalEntry>, name: Seq<char>, from: int) -> Option<int>
    decreases globals.len() - from,
{
    if from < 0 || from >= globals.len() {
        None
    } else if is_named(globals[from], name) {
        Some(from)
    } else {
        global_named(globals, name, from + 1)
    }
}

/// Whether the segment is loaded into the memory and covers the address.
pub open spec fn covers(segment: SegmentEntry, memory: usize, addr: int) -> bool {
    match segment.placement {
        Placement::Active { memory: m, offset } => m == memory && address_of(offset) <= addr
            < address_of(offset) + segment.len,
        Placement::Other => false,
    }
}

/// The first segment from `from` on that covers the address.
pub open spec fn covering_segment(
    segments: Seq<SegmentEntry>,
    memory: usize,
    addr: int,
    from: int,
) -> Option<int>
    decreases segments.len() - from,
{
    if from < 0 || from >= segments.len() {
        None
    } else if covers(segments[from], memory, addr) {
        Some(from)
    } else {
        covering_segment(segments, memory, addr, from + 1)
    }
}

/// A segment that is found lies in the list, covers the address, and none
/// before it does.
pub proof fn lemma_covering_segment(segments: Seq<SegmentEntry>, memory: usize, addr: int, from: int)
    requires
        0 <= from,
    ensures
        match covering_segment(segments, memory, addr, from) {
            Some(s) => from <= s < segments.len() && covers(segments[s], memory, addr) && forall|
                j: int,
            |
                from <= j < s ==> !covers(#[trigger] segments[j], memory, addr),
            None => forall|j: int|
                from <= j < segments.len() ==> !covers(#[trigger] segments[j], memory, addr),
        },
    decreases segments.len() - from,
{
    if from < segments.len() && !covers(segments[from], memory, addr) {
        lemma_covering_segment(segments, memory, addr, from + 1);
    }
}

/// A global that is found lies in the list and has the name.
pub proof fn lemma_global_named(globals: Seq<GlobalEntry>, name: Seq<char>, from: int)
    requires
        0 <= from,
    ensures
        match global_named(globals, name, from) {
            Some(g) => from <= g < globals.len() && is_named(globals[g], name),
            None => true,
        },
    decreases globals.len() - from,
{
    if from < globals.len() && !is_named(globals[from], name) {
        lemma_global_named(globals, name, from + 1);
    }
}

/// The address that the module exports for its record.
pub open spec fn resolved_addr(exports: Seq<ExportEntry>, globals: Seq<GlobalEntry>) -> Result<
    int,
    PatchError,
> {
    match export_named(exports, record_export(), 0) {
        None => Err(PatchError::MissingExport),
        Some(e) => match exports[e].target {
            ExportTarget::Other => Err(PatchError::NotAGlobal),
            ExportTarget::Global(slot) => match global_at_slot(globals, slot, 0) {
                None => Err(PatchError::UnsupportedGlobalKind),
                Some(g) => match globals[g].value {
                    GlobalValue::ConstI32(v) => Ok(address_of(v)),
                    GlobalValue::Other => Err(PatchError::UnsupportedGlobalKind),
                },
            },
        },
    }
}

/// The segment that holds the record at `addr`, and where the record
/// begins in it.
pub open spec fn located_record(segments: Seq<SegmentEntry>, memory: usize, addr: int) -> Result<
    (int, int),
    PatchError,
> {
    match covering_segment(segments, memory, addr, 0) {
        None => Err(PatchError::NoContainingSegment),
        Some(s) => match segments[s].placement {
            Placement::Active { memory: m, offset } => if addr - address_of(offset) + 12
                <= segments[s].len {
                Ok((s, addr - address_of(offset)))
            } else {
                Err(PatchError::RecordOutOfBounds)
            },
            Placement::Other => Err(PatchError::NoContainingSegment),
        },
    }
}

/// The stack pointer's position, and its value once `len` bytes are taken
/// from the top of the stack.
pub open spec fn bumped_stack(globals: Seq<GlobalEntry>, len: int) -> Result<(int, i32), PatchError> {
    match global_named(globals, stack_pointer(), 0) {
        None => Err(PatchError::StackNotFound),
        Some(g) => match globals[g].value {
            GlobalValue::Other => Err(PatchError::StackNotFound),
            GlobalValue::ConstI32(v) => if len <= v {
                Ok((g, (v - len) as i32))
            } else {
                Err(PatchError::StackExhausted)
            },
        },
    }
}

/// The changes that give the module the overrides `es`, or the first reason
/// why it cannot take them: the record is sought first, then the memory,
/// then the segment of the record, then room on the stack.
pub open spec fn planned(
    exports: Seq<ExportEntry>,
    globals: Seq<GlobalEntry>,
    memory: Option<usize>,
    segments: Seq<SegmentEntry>,
    es: Seq<Entry>,
) -> Result<PatchModel, PatchError> {
    match resolved_addr(exports, globals) {
        Err(e) => Err(e),
        Ok(addr) => match memory {
            None => Err(PatchError::MemoryNotFound),
            Some(m) => match located_record(segments, m, addr) {
                Err(e) => Err(e),
                Ok((segment, record_at)) => if es.len() == 0 {
                    Ok(PatchModel { segment, record_at, count: 0, table: None })
                } else {
                    match bumped_stack(globals, field_table(es).len() as int) {
                        Err(e) => Err(e),
                        Ok((g, top)) => Ok(
                            PatchModel {
                                segment,
                                record_at,
                                count: (es.len() % 0x1_0000_0000) as int,
                                table: Some((g, top, field_table(es))),
                            },
                        ),
                    }
                },
            },
        },
    }
}

/// Reads a 32-bit integer as an address.
pub fn to_address(v: i32) -> (r: u32)
    ensures
        r == address_of(v),
{
    if v >= 0 {
        v as u32
    } else {
        (v as i64 + 0x1_0000_0000i64) as u32
    }
}

/// Resolves the address of the record: the value of the constant global
/// that the module exports under the record's name.
pub fn resolve_config_addr(exports: &Vec<ExportEntry>, globals: &Vec<GlobalEntry>) -> (r: Result<
    u32,
    PatchError,
>)
    ensures
        match r {
            Ok(addr) => resolved_addr(exports@, globals@) == Ok::<int, PatchError>(addr as int),
            Err(e) => resolved_addr(exports@, globals@) == Err::<int, PatchError>(e),
        },
{
    let wanted = "CONFIG".to_owned();
    let mut i: usize = 0;
    while i < exports.len() && !(exports[i].name == wanted)
        invariant
            i <= exports.len(),
            wanted@ == record_export(),
            export_named(exports@, record_export(), 0) == export_named(
                exports@,
                record_export(),
                i as int,
            ),
        decreases exports.len() - i,
    {
        i += 1;
    }
    if i >= exports.len() {
        return Err(PatchError::MissingExport);
    }
    let slot = match exports[i].target {
        ExportTarget::Global(slot) => slot,
        ExportTarget::Other => {
            return Err(PatchError::NotAGlobal);
        },
    };
    let mut g: usize = 0;
    while g < globals.len() && globals[g].slot != slot
        invariant
            g <= globals.len(),
            global_at_slot(globals@, slot, 0) == global_at_slot(globals@, slot, g as int),
        decreases globals.len() - g,
    {
        g += 1;
    }
    if g >= globals.len() {
        return Err(PatchError::UnsupportedGlobalKind);
    }
    match globals[g].value {
        GlobalValue::ConstI32(v) => Ok(to_address(v)),
        GlobalValue::Other => Err(PatchError::UnsupportedGlobalKind),
    }
}

/// Finds the segment that holds the record at `addr`: the first active
/// segment of the memory whose range covers the address. The whole record
/// must lie in it.
pub fn locate_record(segments: &Vec<SegmentEntry>, memory: usize, addr: u32) -> (r: Result<
    (usize, usize),
    PatchError,
>)
    ensures
        match r {
            Ok((s, at)) => located_record(segments@, memory, addr as int) == Ok::<
                (int, int),
                PatchError,
            >((s as int, at as int)) && s < segments@.len() && at + 12 <= segments@[s as int].len,
            Err(e) => located_record(segments@, memory, addr as int) == Err::<
                (int, int),
                PatchError,
            >(e),
        },
{
    let mut i: usize = 0;
    while i < segments.len()
        invariant
            i <= segments.len(),
            covering_segment(segments@, memory, addr as int, 0) == covering_segment(
                segments@,
                memory,
                addr as int,
                i as int,
            ),
        decreases segments.len() - i,
    {
        match segments[i].placement {
            Placement::Active { memory: m, offset } => {
                let start = to_address(offset);
                if m == memory && start <= addr && ((addr - start) as u64) < segments[i].len as u64 {
                    let at = (addr - start) as usize;
                    assert(covers(segments@[i as int], memory, addr as int));
                    if segments[i].len - at >= RECORD_SIZE {
                        return Ok((i, at));
                    } else {
                        return Err(PatchError::RecordOutOfBounds);
                    }
                }
            },
            Placement::Other => {},
        }
        i += 1;
    }
    Err(PatchError::NoContainingSegment)
}

/// Takes `len` bytes from the top of the stack: finds the stack pointer
/// among the globals and gives its position and its new value.
pub fn bump_stack_global(globals: &Vec<GlobalEntry>, len: usize) -> (r: Result<
    (usize, i32),
    PatchError,
>)
    ensures
        match r {
            Ok((g, top)) => bumped_stack(globals@, len as int) == Ok::<(int, i32), PatchError>(
                (g as int, top),
            ) && g < globals@.len() && globals@[g as int].value is ConstI32,
            Err(e) => bumped_stack(globals@, len as int) == Err::<(int, i32), PatchError>(e),
        },
{
    let wanted = "__stack_pointer".to_owned();
    let mut g: usize = 0;
    while g < globals.len() && !name_is(&globals[g].name, &wanted)
        invariant
            g <= globals.len(),
            wanted@ == stack_pointer(),
            global_named(globals@, stack_pointer(), 0) == global_named(
                globals@,
                stack_pointer(),
                g as int,
            ),
        decreases globals.len() - g,
    {
        g += 1;
    }
    if g >= globals.len() {
        return Err(PatchError::StackNotFound);
    }
    match globals[g].value {
        GlobalValue::Other => Err(PatchError::StackNotFound),
        GlobalValue::ConstI32(v) => {
            if v >= 0 && len as u64 <= v as u64 {
                Ok((g, v - len as i32))
            } else {
                Err(PatchError::StackExhausted)
            }
        },
    }
}

/// Whether a name is there and is the wanted one.
fn name_is(name: &Option<String>, wanted: &String) -> (r: bool)
    ensures
        r == match *name {
            Some(n) => n@ == wanted@,
            None => false,
        },
{
    match name {
        Some(n) => *n == *wanted,
        None => false,
    }
}

/// Decides the changes that give a module the overrides, from what the
/// module holds; nothing is decided where the module cannot take them.
pub fn plan_patch(
    exports: &Vec<ExportEntry>,
    globals: &Vec<GlobalEntry>,
    memory: Option<usize>,
    segments: &Vec<SegmentEntry>,
    overrides: &Vec<(String, String)>,
) -> (r: Result<Patch, PatchError>)
    ensures
        match r {
            Ok(p) => planned(exports@, globals@, memory, segments@, pairs_of(overrides@)) == Ok::<
                PatchModel,
                PatchError,
            >(p@) && plan_fits(p, globals@, segments@),
            Err(e) => planned(exports@, globals@, memory, segments@, pairs_of(overrides@)) == Err::<
                PatchModel,
                PatchError,
            >(e),
        },
{
    let addr = match resolve_config_addr(exports, globals) {
        Ok(addr) => addr,
        Err(e) => {
            return Err(e);
        },
    };
    let memory = match memory {
        Some(m) => m,
        None => {
            return Err(PatchError::MemoryNotFound);
        },
    };
    let (segment, record_at) = match locate_record(segments, memory, addr) {
        Ok(found) => found,
        Err(e) => {
            return Err(e);
        },
    };
    let (bytes, count) = encode_field_table(&overrides);
    if bytes.len() == 0 {
        return Ok(Patch { segment, record_at, count, table: None });
    }
    match bump_stack_global(globals, bytes.len()) {
        Ok((stack_global, top)) => Ok(
            Patch { segment, record_at, count, table: Some(TablePlan { stack_global, top, bytes }) },
        ),
        Err(e) => Err(e),
    }
}

/// The positions that a patch names exist, and the record lies in its
/// segment.
pub open spec fn plan_fits(p: Patch, globals: Seq<GlobalEntry>, segments: Seq<SegmentEntry>) -> bool {
    &&& p.segment < segments.len()
    &&& p.record_at + 12 <= segments[p.segment as int].len
    &&& match p.table {
        Some(t) => t.stack_global < globals.len() && globals[t.stack_global as int].value is ConstI32
            && t.bytes@.len() > 0,
        None => true,
    }
}

} // verus!
