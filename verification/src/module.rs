//! In-memory model of a WebAssembly (MVP) module.
//!
//! Entities live in five index spaces: types, functions, tables, memories
//! and globals.  The function, table, memory and global spaces are
//! import-prefixed: imported entries of a kind occupy the low indices,
//! the module's own entries follow.  An absent section is `None`; a
//! section that is present but empty is `Some` of an empty vector, and
//! the two differ (for memories, presence decides how a memory index is
//! validated).

use vstd::prelude::*;
use crate::util::cnt;

verus! {

#[derive(Clone, Copy, PartialEq, Eq, Debug)]
pub enum ValType {
    I32,
    I64,
    F32,
    F64,
}

#[derive(Clone, Copy, PartialEq, Eq, Debug)]
pub enum BlockType {
    NoResult,
    Value(ValType),
}

/// One instruction, reduced to what reachability and renumbering read.
/// Instructions that carry no cross-section index are `Other`.
#[derive(Clone, Copy, PartialEq, Eq, Debug)]
pub enum Instr {
    Block(BlockType),
    Loop(BlockType),
    If(BlockType),
    Call(u32),
    CallIndirect(u32),
    GetGlobal(u32),
    SetGlobal(u32),
    Other,
}

#[derive(Clone, PartialEq, Eq, Debug)]
pub struct FuncType {
    pub params: Vec<ValType>,
    pub ret: Option<ValType>,
}

/// Which of the four kinds an import brings in.
#[derive(Clone, Copy, PartialEq, Eq, Debug)]
pub enum ImpKind {
    Func,
    Table,
    Mem,
    Global,
}

/// The external payload of an import entry: an imported function carries
/// its signature's type index, the other kinds carry nothing the pass
/// reads.
#[derive(Clone, Copy, PartialEq, Eq, Debug)]
pub enum ImportRef {
    Function(u32),
    Table,
    Memory,
    Global,
}

#[derive(Clone, PartialEq, Eq, Debug)]
pub struct ImportEntry {
    pub module: String,
    pub field: String,
    pub external: ImportRef,
}

/// The target of an export entry, by flat (import-prefixed) index.
#[derive(Clone, Copy, PartialEq, Eq, Debug)]
pub enum ExportRef {
    Function(u32),
    Table(u32),
    Memory(u32),
    Global(u32),
}

#[derive(Clone, PartialEq, Eq, Debug)]
pub struct ExportEntry {
    pub field: String,
    pub internal: ExportRef,
}

#[derive(Clone, Copy, PartialEq, Eq, Debug)]
pub struct TableEntry {
    pub min: u32,
    pub max: Option<u32>,
}

#[derive(Clone, Copy, PartialEq, Eq, Debug)]
pub struct MemoryEntry {
    pub min: u32,
    pub max: Option<u32>,
}

#[derive(Clone, PartialEq, Eq, Debug)]
pub struct GlobalEntry {
    pub content: ValType,
    pub mutable: bool,
    pub init: Vec<Instr>,
}

#[derive(Clone, Copy, PartialEq, Eq, Debug)]
pub struct Local {
    pub count: u32,
    pub ty: ValType,
}

#[derive(Clone, PartialEq, Eq, Debug)]
pub struct FuncBody {
    pub locals: Vec<Local>,
    pub code: Vec<Instr>,
}

#[derive(Clone, PartialEq, Eq, Debug)]
pub struct ElementSegment {
    pub table_index: u32,
    pub offset: Vec<Instr>,
    pub members: Vec<u32>,
}

#[derive(Clone, PartialEq, Eq, Debug)]
pub struct DataSegment {
    pub memory_index: u32,
    pub offset: Vec<Instr>,
    pub data: Vec<u8>,
}

#[derive(Clone, PartialEq, Eq, Debug)]
pub struct Module {
    pub types: Option<Vec<FuncType>>,
    pub imports: Option<Vec<ImportEntry>>,
    /// Function section: the type index of each module-defined function.
    pub funcs: Option<Vec<u32>>,
    pub tables: Option<Vec<TableEntry>>,
    pub memories: Option<Vec<MemoryEntry>>,
    pub globals: Option<Vec<GlobalEntry>>,
    pub exports: Option<Vec<ExportEntry>>,
    pub start: Option<u32>,
    pub elements: Option<Vec<ElementSegment>>,
    pub data: Option<Vec<DataSegment>>,
    pub code: Option<Vec<FuncBody>>,
    /// Raw payload of the `name` custom section, if present.
    pub name_payload: Option<Vec<u8>>,
}

// ---------------------------------------------------------------------
// Section views: an absent section reads as the empty sequence, except
// where presence itself matters (memories).
// ---------------------------------------------------------------------

pub open spec fn types_of(m: Module) -> Seq<FuncType> {
    match m.types {
        Some(v) => v@,
        None => Seq::empty(),
    }
}

pub open spec fn imps_of(m: Module) -> Seq<ImportEntry> {
    match m.imports {
        Some(v) => v@,
        None => Seq::empty(),
    }
}

pub open spec fn funcs_of(m: Module) -> Seq<u32> {
    match m.funcs {
        Some(v) => v@,
        None => Seq::empty(),
    }
}

pub open spec fn tables_of(m: Module) -> Seq<TableEntry> {
    match m.tables {
        Some(v) => v@,
        None => Seq::empty(),
    }
}

pub open spec fn mems_of(m: Module) -> Seq<MemoryEntry> {
    match m.memories {
        Some(v) => v@,
        None => Seq::empty(),
    }
}

pub open spec fn globals_of(m: Module) -> Seq<GlobalEntry> {
    match m.globals {
        Some(v) => v@,
        None => Seq::empty(),
    }
}

pub open spec fn exports_of(m: Module) -> Seq<ExportEntry> {
    match m.exports {
        Some(v) => v@,
        None => Seq::empty(),
    }
}

pub open spec fn elements_of(m: Module) -> Seq<ElementSegment> {
    match m.elements {
        Some(v) => v@,
        None => Seq::empty(),
    }
}

pub open spec fn data_of(m: Module) -> Seq<DataSegment> {
    match m.data {
        Some(v) => v@,
        None => Seq::empty(),
    }
}

pub open spec fn code_of(m: Module) -> Seq<FuncBody> {
    match m.code {
        Some(v) => v@,
        None => Seq::empty(),
    }
}

// ---------------------------------------------------------------------
// Import-kind counting and flat-index resolution.
// ---------------------------------------------------------------------

pub open spec fn kind_of(e: ImportEntry) -> ImpKind {
    match e.external {
        ImportRef::Function(_) => ImpKind::Func,
        ImportRef::Table => ImpKind::Table,
        ImportRef::Memory => ImpKind::Mem,
        ImportRef::Global => ImpKind::Global,
    }
}

/// Predicate on flat import indices: the entry at `i` has kind `k`.
pub open spec fn kind_at(s: Seq<ImportEntry>, k: ImpKind) -> spec_fn(int) -> bool {
    |i: int| 0 <= i < s.len() && kind_of(s[i]) == k
}

/// How many imports of kind `k` occur before flat import index `n`.
pub open spec fn icnt(s: Seq<ImportEntry>, k: ImpKind, n: int) -> nat {
    cnt(kind_at(s, k), n)
}

/// Number of imported entries of kind `k`.
pub open spec fn n_imp(m: Module, k: ImpKind) -> nat {
    icnt(imps_of(m), k, imps_of(m).len() as int)
}

/// Flat import index of the `j`-th import of kind `k`.
pub open spec fn flat_of(s: Seq<ImportEntry>, k: ImpKind, j: int) -> int {
    choose|i: int| 0 <= i < s.len() && kind_of(s[i]) == k && icnt(s, k, i) == j
}

/// Size of the flat function space: imported functions first, then the
/// function section.
pub open spec fn n_flat_funcs(m: Module) -> int {
    n_imp(m, ImpKind::Func) + funcs_of(m).len() as int
}

pub open spec fn n_flat_tables(m: Module) -> int {
    n_imp(m, ImpKind::Table) + tables_of(m).len() as int
}

pub open spec fn n_flat_globals(m: Module) -> int {
    n_imp(m, ImpKind::Global) + globals_of(m).len() as int
}

/// Whether memory index `i` can be dereferenced: against the memory
/// section when one is present, else against a lone imported memory.
pub open spec fn mem_exists(m: Module, i: int) -> bool {
    match m.memories {
        Some(v) => 0 <= i < v@.len(),
        None => has_mem_import(m) && i == 0,
    }
}

pub open spec fn has_mem_import(m: Module) -> bool {
    exists|i: int|
        0 <= i < imps_of(m).len() && kind_of(#[trigger] imps_of(m)[i]) == ImpKind::Mem
}

/// Size of the bitset used to mark memories.
pub open spec fn mem_space(m: Module) -> int {
    match m.memories {
        Some(v) => v@.len() as int,
        None => if has_mem_import(m) {
            1
        } else {
            0
        },
    }
}

// ---------------------------------------------------------------------
// Well-formedness of index references.
// ---------------------------------------------------------------------

/// The indices an instruction carries are within their spaces.
pub open spec fn instr_wf(m: Module, i: Instr) -> bool {
    match i {
        Instr::Call(f) => f < n_flat_funcs(m),
        Instr::CallIndirect(t) => t < types_of(m).len(),
        Instr::GetGlobal(g) => g < n_flat_globals(m),
        Instr::SetGlobal(g) => g < n_flat_globals(m),
        _ => true,
    }
}

pub open spec fn instrs_wf(m: Module, s: Seq<Instr>) -> bool {
    forall|j: int| 0 <= j < s.len() ==> instr_wf(m, #[trigger] s[j])
}

pub open spec fn export_wf(m: Module, e: ExportEntry) -> bool {
    match e.internal {
        ExportRef::Function(f) => f < n_flat_funcs(m),
        ExportRef::Table(t) => t < n_flat_tables(m),
        ExportRef::Memory(i) => mem_exists(m, i as int),
        ExportRef::Global(g) => g < n_flat_globals(m),
    }
}

pub open spec fn element_wf(m: Module, s: ElementSegment) -> bool {
    &&& s.table_index < n_flat_tables(m)
    &&& forall|j: int| 0 <= j < s.members@.len() ==> #[trigger] s.members@[j] < n_flat_funcs(m)
    &&& instrs_wf(m, s.offset@)
}

pub open spec fn data_wf(m: Module, s: DataSegment) -> bool {
    &&& mem_exists(m, s.memory_index as int)
    &&& instrs_wf(m, s.offset@)
}

/// Index spaces are small enough that every flat index and every count
/// fits a `u32` strictly below the dead sentinel `u32::MAX`.
pub open spec fn sizes_wf(m: Module) -> bool {
    &&& types_of(m).len() < 0xffff_ffff
    &&& imps_of(m).len() < 0xffff_ffff
    &&& exports_of(m).len() < 0xffff_ffff
    &&& n_flat_funcs(m) < 0xffff_ffff
    &&& n_flat_tables(m) < 0xffff_ffff
    &&& n_flat_globals(m) < 0xffff_ffff
    &&& n_imp(m, ImpKind::Mem) + mems_of(m).len() < 0xffff_ffff
}

/// Structural well-formedness of the module's index references: every
/// index that the pass may dereference is within its space, and the
/// function and code sections pair up.
pub open spec fn wf_core(m: Module) -> bool {
    &&& sizes_wf(m)
    &&& funcs_of(m).len() == code_of(m).len()
    &&& forall|f: int|
        0 <= f < funcs_of(m).len() ==> #[trigger] funcs_of(m)[f] < types_of(m).len()
    &&& forall|i: int|
        0 <= i < imps_of(m).len() ==> match (#[trigger] imps_of(m)[i]).external {
            ImportRef::Function(sig) => sig < types_of(m).len(),
            _ => true,
        }
    &&& forall|e: int|
        0 <= e < exports_of(m).len() ==> export_wf(m, #[trigger] exports_of(m)[e])
    &&& forall|c: int|
        0 <= c < code_of(m).len() ==> instrs_wf(m, (#[trigger] code_of(m)[c]).code@)
    &&& forall|g: int|
        0 <= g < globals_of(m).len() ==> instrs_wf(m, (#[trigger] globals_of(m)[g]).init@)
    &&& forall|s: int|
        0 <= s < elements_of(m).len() ==> element_wf(m, #[trigger] elements_of(m)[s])
    &&& forall|s: int|
        0 <= s < data_of(m).len() ==> data_wf(m, #[trigger] data_of(m)[s])
    &&& match m.start {
        Some(f) => f < n_flat_funcs(m),
        None => true,
    }
    &&& (has_mem_import(m) ==> mem_exists(m, 0))
    &&& !(has_mem_import(m) && mems_of(m).len() > 0)
}

// ---------------------------------------------------------------------
// Resolution lemmas and executable helpers.
// ---------------------------------------------------------------------

pub proof fn lemma_flat_exists(s: Seq<ImportEntry>, k: ImpKind, j: int, n: int)
    requires
        0 <= j < icnt(s, k, n),
        n <= s.len(),
    ensures
        exists|i: int| 0 <= i < n && kind_of(#[trigger] s[i]) == k && icnt(s, k, i) == j,
    decreases n,
{
    if n > 0 {
        if kind_of(s[n - 1]) == k && icnt(s, k, n - 1) == j {
            assert(kind_at(s, k)(n - 1));
        } else {
            lemma_flat_exists(s, k, j, n - 1);
        }
    }
}

/// The flat index of the `j`-th import of kind `k` is well defined: it
/// exists, is unique, and `flat_of` picks it.
pub proof fn lemma_flat_of(s: Seq<ImportEntry>, k: ImpKind, j: int)
    requires
        0 <= j < icnt(s, k, s.len() as int),
    ensures
        0 <= flat_of(s, k, j) < s.len(),
        kind_of(s[flat_of(s, k, j)]) == k,
        icnt(s, k, flat_of(s, k, j)) == j,
{
    lemma_flat_exists(s, k, j, s.len() as int);
    let i = choose|i: int| 0 <= i < s.len() && kind_of(#[trigger] s[i]) == k && icnt(s, k, i) == j;
    assert(0 <= flat_of(s, k, j) < s.len() && kind_of(s[flat_of(s, k, j)]) == k && icnt(
        s,
        k,
        flat_of(s, k, j),
    ) == j) by {
        assert(kind_of(s[i]) == k && icnt(s, k, i) == j);
    }
}

/// Distinct positions of the same kind have distinct kind-counts, so the
/// index chosen by `flat_of` is the only one.
pub proof fn lemma_flat_unique(s: Seq<ImportEntry>, k: ImpKind, i: int)
    requires
        0 <= i < s.len(),
        kind_of(s[i]) == k,
        icnt(s, k, i) < icnt(s, k, s.len() as int),
    ensures
        flat_of(s, k, icnt(s, k, i) as int) == i,
{
    let j = icnt(s, k, i) as int;
    lemma_flat_of(s, k, j);
    let i2 = flat_of(s, k, j);
    if i2 != i {
        if i2 < i {
            assert(kind_at(s, k)(i2));
            crate::util::lemma_cnt_lt(kind_at(s, k), i2, i);
        } else {
            assert(kind_at(s, k)(i));
            crate::util::lemma_cnt_lt(kind_at(s, k), i, i2);
        }
    }
}

/// The count of kind-`k` imports below `i`, strictly monotone at matches.
pub proof fn lemma_icnt_le(s: Seq<ImportEntry>, k: ImpKind, i: int, j: int)
    requires
        i <= j,
    ensures
        icnt(s, k, i) <= icnt(s, k, j),
{
    crate::util::lemma_cnt_le(kind_at(s, k), i, j);
}

/// A memory import exists exactly when the memory-kind import count is
/// positive.
pub proof fn lemma_mem_import_iff(m: Module)
    ensures
        has_mem_import(m) <==> n_imp(m, ImpKind::Mem) > 0,
{
    if has_mem_import(m) {
        let i = choose|i: int|
            0 <= i < imps_of(m).len() && kind_of(#[trigger] imps_of(m)[i]) == ImpKind::Mem;
        crate::util::lemma_cnt_lt(kind_at(imps_of(m), ImpKind::Mem), i, imps_of(m).len() as int);
    }
    if n_imp(m, ImpKind::Mem) > 0 {
        crate::util::lemma_cnt_pos(kind_at(imps_of(m), ImpKind::Mem), imps_of(m).len() as int);
    }
}

pub fn kind_matches(e: &ImportEntry, k: ImpKind) -> (r: bool)
    ensures
        r == (kind_of(*e) == k),
{
    match (&e.external, k) {
        (ImportRef::Function(_), ImpKind::Func) => true,
        (ImportRef::Table, ImpKind::Table) => true,
        (ImportRef::Memory, ImpKind::Mem) => true,
        (ImportRef::Global, ImpKind::Global) => true,
        _ => false,
    }
}

/// Count the imports of kind `k`.
pub fn count_imports(m: &Module, k: ImpKind) -> (r: u32)
    requires
        imps_of(*m).len() < 0xffff_ffff,
    ensures
        r == n_imp(*m, k),
{
    let mut c: u32 = 0;
    match &m.imports {
        None => c,
        Some(v) => {
            let mut i: usize = 0;
            while i < v.len()
                invariant
                    imps_of(*m) == v@,
                    v@.len() < 0xffff_ffff,
                    0 <= i <= v.len(),
                    c == icnt(v@, k, i as int),
                decreases v.len() - i,
            {
                if kind_matches(&v[i], k) {
                    proof {
                        crate::util::lemma_cnt_bound(kind_at(v@, k), i as int);
                    }
                    c = c + 1;
                }
                i = i + 1;
            }
            c
        },
    }
}

/// Find the flat import index of the `j`-th import of kind `k`.
pub fn nth_import(m: &Module, k: ImpKind, j: u32) -> (r: usize)
    requires
        j < n_imp(*m, k),
    ensures
        r == flat_of(imps_of(*m), k, j as int),
        0 <= (r as int) < imps_of(*m).len(),
        kind_of(imps_of(*m)[r as int]) == k,
        icnt(imps_of(*m), k, r as int) == j,
{
    proof {
        lemma_flat_of(imps_of(*m), k, j as int);
    }
    match &m.imports {
        None => {
            proof {
                assert(imps_of(*m).len() == 0);
            }
            // unreachable: n_imp is 0 without an import section
            0
        },
        Some(v) => {
            let ghost s = v@;
            let mut i: usize = 0;
            let mut c: u32 = 0;
            loop
                invariant
                    imps_of(*m) == s,
                    v@ == s,
                    j < n_imp(*m, k),
                    0 <= i <= v.len(),
                    c == icnt(s, k, i as int),
                    c <= j,
                decreases v.len() - i,
            {
                proof {
                    if i >= v.len() {
                        lemma_icnt_le(s, k, i as int, s.len() as int);
                        assert(false);
                    }
                }
                if kind_matches(&v[i], k) {
                    if c == j {
                        proof {
                            lemma_flat_unique(s, k, i as int);
                        }
                        return i;
                    }
                    c = c + 1;
                }
                i = i + 1;
            }
        },
    }
}

} // verus!
