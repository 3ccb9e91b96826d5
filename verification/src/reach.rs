//! Reachability over the module's entities.
//!
//! An entity is one slot of one index space: a type, a module-defined
//! function (`Code`), a module-defined table, a memory, a module-defined
//! global, a flat import entry, or an export entry.  `root_of` lists the
//! a-priori live entities, `succ_of` the edges an entity contributes, and
//! an entity is reachable when it belongs to every root-containing,
//! successor-closed set.  The analyzer computes exactly that least set.

use vstd::prelude::*;
use crate::blacklist::{blacklisted, is_blacklisted};
use crate::module::{
    code_of, data_of, elements_of, exports_of, flat_of, funcs_of, globals_of, imps_of, kind_of,
    mem_space, mems_of, n_flat_funcs, n_flat_globals, n_flat_tables, n_imp, tables_of, types_of,
    wf_core, DataSegment, ElementSegment, ExportEntry, ExportRef, FuncBody, GlobalEntry, ImpKind,
    ImportEntry, ImportRef, Instr, Module,
};

verus! {

/// One entity.  `Code`, `TblL` and `GlbL` index the module's own
/// sections; `Mem` follows the memory-index convention of the pass
/// (an imported memory pins index 0); `Imp` is a flat import index and
/// `Exp` a position in the export section.
#[derive(Clone, Copy, PartialEq, Eq, Structural, Debug)]
pub enum Ent {
    Ty(u32),
    Code(u32),
    TblL(u32),
    Mem(u32),
    GlbL(u32),
    Imp(u32),
    Exp(u32),
}

/// Resolve a flat function index: the import-prefixed low indices name
/// import entries, the rest the function section.
pub open spec fn resolve_func(m: Module, f: int) -> Ent {
    if f < n_imp(m, ImpKind::Func) {
        Ent::Imp(flat_of(imps_of(m), ImpKind::Func, f) as u32)
    } else {
        Ent::Code((f - n_imp(m, ImpKind::Func)) as u32)
    }
}

pub open spec fn resolve_table(m: Module, t: int) -> Ent {
    if t < n_imp(m, ImpKind::Table) {
        Ent::Imp(flat_of(imps_of(m), ImpKind::Table, t) as u32)
    } else {
        Ent::TblL((t - n_imp(m, ImpKind::Table)) as u32)
    }
}

pub open spec fn resolve_global(m: Module, g: int) -> Ent {
    if g < n_imp(m, ImpKind::Global) {
        Ent::Imp(flat_of(imps_of(m), ImpKind::Global, g) as u32)
    } else {
        Ent::GlbL((g - n_imp(m, ImpKind::Global)) as u32)
    }
}

/// The entity an instruction references, if any: `Call` a function,
/// `CallIndirect` a type, `GetGlobal`/`SetGlobal` a global.  All other
/// instructions are inert for reachability.
pub open spec fn instr_ent(m: Module, i: Instr) -> Option<Ent> {
    match i {
        Instr::Call(f) => Some(resolve_func(m, f as int)),
        Instr::CallIndirect(t) => Some(Ent::Ty(t)),
        Instr::GetGlobal(g) => Some(resolve_global(m, g as int)),
        Instr::SetGlobal(g) => Some(resolve_global(m, g as int)),
        _ => None,
    }
}

/// The entity an export entry points at.
pub open spec fn target_ent(m: Module, r: ExportRef) -> Ent {
    match r {
        ExportRef::Function(f) => resolve_func(m, f as int),
        ExportRef::Table(t) => resolve_table(m, t as int),
        ExportRef::Memory(i) => Ent::Mem(i),
        ExportRef::Global(g) => resolve_global(m, g as int),
    }
}

/// Whether some instruction of `s` references `x`.
pub open spec fn instrs_ref(m: Module, s: Seq<Instr>, x: Ent) -> bool {
    exists|j: int| 0 <= j < s.len() && #[trigger] instr_ent(m, s[j]) == Some(x)
}

/// The edge relation: `x` is a direct successor of `e`.
///
/// A module function contributes its declared type and its body's
/// references; a module global its initializer's references; an imported
/// function its signature type; an imported memory pins memory 0; an
/// export its target.  Types, tables and memories contribute nothing.
pub open spec fn succ_of(m: Module, e: Ent, x: Ent) -> bool {
    match e {
        Ent::Code(c) => 0 <= c < funcs_of(m).len() && (x == Ent::Ty(funcs_of(m)[c as int])
            || (c < code_of(m).len() && instrs_ref(m, code_of(m)[c as int].code@, x))),
        Ent::GlbL(g) => 0 <= g < globals_of(m).len() && instrs_ref(
            m,
            globals_of(m)[g as int].init@,
            x,
        ),
        Ent::Imp(i) => 0 <= i < imps_of(m).len() && match imps_of(m)[i as int].external {
            ImportRef::Function(sig) => x == Ent::Ty(sig),
            ImportRef::Memory => x == Ent::Mem(0u32),
            _ => false,
        },
        Ent::Exp(e2) => 0 <= e2 < exports_of(m).len() && x == target_ent(
            m,
            exports_of(m)[e2 as int].internal,
        ),
        _ => false,
    }
}

/// A module-defined table slot, as an entity.
pub open spec fn tbl_ent(t: int) -> Ent {
    Ent::TblL(t as u32)
}

/// The root set: every non-blacklisted export; every imported memory;
/// every data segment's memory and offset references; every
/// module-defined table; every element segment's members, table and
/// offset references; the start function.
pub open spec fn root_of(m: Module, x: Ent) -> bool {
    ||| exists|e: int|
        0 <= e < exports_of(m).len() && !blacklisted((#[trigger] exports_of(m)[e]).field@) && x
            == Ent::Exp(e as u32)
    ||| exists|i: int|
        0 <= i < imps_of(m).len() && kind_of(#[trigger] imps_of(m)[i]) == ImpKind::Mem && x
            == Ent::Imp(i as u32)
    ||| exists|d: int|
        0 <= d < data_of(m).len() && (x == Ent::Mem((#[trigger] data_of(m)[d]).memory_index)
            || instrs_ref(m, data_of(m)[d].offset@, x))
    ||| exists|t: int| 0 <= t < tables_of(m).len() && x == #[trigger] tbl_ent(t)
    ||| exists|s: int|
        0 <= s < elements_of(m).len() && {
            let seg = #[trigger] elements_of(m)[s];
            ||| exists|j: int|
                0 <= j < seg.members@.len() && x == resolve_func(m, #[trigger] seg.members@[j] as int)
            ||| x == resolve_table(m, seg.table_index as int)
            ||| instrs_ref(m, seg.offset@, x)
        }
    ||| match m.start {
        Some(f) => x == resolve_func(m, f as int),
        None => false,
    }
}

/// A set of entities closed under the edge relation.
pub open spec fn closed(m: Module, s: Set<Ent>) -> bool {
    forall|e: Ent, x: Ent| #[trigger] s.contains(e) && #[trigger] succ_of(m, e, x) ==> s.contains(x)
}

/// A set of entities containing every root.
pub open spec fn roots_in(m: Module, s: Set<Ent>) -> bool {
    forall|x: Ent| #[trigger] root_of(m, x) ==> s.contains(x)
}

/// Reachability: membership in every closed superset of the roots.
/// Equivalently, the existence of an edge path from some root.
pub open spec fn reachable(m: Module, x: Ent) -> bool {
    forall|s: Set<Ent>| #[trigger] closed(m, s) && roots_in(m, s) ==> s.contains(x)
}

/// The live set: all reachable entities.
pub open spec fn live_set(m: Module) -> Set<Ent> {
    Set::new(|x: Ent| reachable(m, x))
}

/// Each entity kind stays within its space.
pub open spec fn ent_in_range(m: Module, e: Ent) -> bool {
    match e {
        Ent::Ty(t) => t < types_of(m).len(),
        Ent::Code(c) => c < funcs_of(m).len(),
        Ent::TblL(t) => t < tables_of(m).len(),
        Ent::Mem(i) => (i as int) < mem_space(m),
        Ent::GlbL(g) => g < globals_of(m).len(),
        Ent::Imp(i) => i < imps_of(m).len(),
        Ent::Exp(e2) => e2 < exports_of(m).len(),
    }
}

// ---------------------------------------------------------------------
// The analyzer's marking state: one bitset per entity kind.
// ---------------------------------------------------------------------

/// The result of the liveness analysis: a bitset per entity kind, over
/// the old indices.
pub struct Analysis {
    pub types: Vec<bool>,
    pub codes: Vec<bool>,
    pub tables: Vec<bool>,
    pub mems: Vec<bool>,
    pub globals: Vec<bool>,
    pub imports: Vec<bool>,
    pub exports: Vec<bool>,
}

/// The bitsets cover exactly the module's spaces.
pub open spec fn a_wf(m: Module, a: Analysis) -> bool {
    &&& a.types@.len() == types_of(m).len()
    &&& a.codes@.len() == funcs_of(m).len()
    &&& a.tables@.len() == tables_of(m).len()
    &&& a.mems@.len() == mem_space(m)
    &&& a.globals@.len() == globals_of(m).len()
    &&& a.imports@.len() == imps_of(m).len()
    &&& a.exports@.len() == exports_of(m).len()
}

/// Whether the analysis marks entity `e`.
pub open spec fn in_a(a: Analysis, e: Ent) -> bool {
    match e {
        Ent::Ty(t) => t < a.types@.len() && a.types@[t as int],
        Ent::Code(c) => c < a.codes@.len() && a.codes@[c as int],
        Ent::TblL(t) => t < a.tables@.len() && a.tables@[t as int],
        Ent::Mem(i) => i < a.mems@.len() && a.mems@[i as int],
        Ent::GlbL(g) => g < a.globals@.len() && a.globals@[g as int],
        Ent::Imp(i) => i < a.imports@.len() && a.imports@[i as int],
        Ent::Exp(e2) => e2 < a.exports@.len() && a.exports@[e2 as int],
    }
}

/// The marked entities as a set.
pub open spec fn aset(a: Analysis) -> Set<Ent> {
    Set::new(|e: Ent| in_a(a, e))
}

/// Pointwise inclusion of entity sets.
pub open spec fn incl(s1: Set<Ent>, s2: Set<Ent>) -> bool {
    forall|x: Ent| #[trigger] s1.contains(x) ==> s2.contains(x)
}

/// All successors of `e` lie in `s`.
pub open spec fn succs_in(m: Module, s: Set<Ent>, e: Ent) -> bool {
    forall|x: Ent| #[trigger] succ_of(m, e, x) ==> s.contains(x)
}

/// How many entities of the module are not yet marked; the analyzer's
/// termination measure.
pub open spec fn cnt_true(s: Seq<bool>) -> nat {
    crate::util::cnt(|i: int| 0 <= i < s.len() && s[i], s.len() as int)
}

pub open spec fn n_unmarked(a: Analysis) -> int {
    (a.types@.len() - cnt_true(a.types@)) + (a.codes@.len() - cnt_true(a.codes@)) + (
    a.tables@.len() - cnt_true(a.tables@)) + (a.mems@.len() - cnt_true(a.mems@)) + (
    a.globals@.len() - cnt_true(a.globals@)) + (a.imports@.len() - cnt_true(a.imports@)) + (
    a.exports@.len() - cnt_true(a.exports@))
}

proof fn lemma_cnt_true_bound(s: Seq<bool>)
    ensures
        cnt_true(s) <= s.len(),
{
    crate::util::lemma_cnt_bound(|i: int| 0 <= i < s.len() && s[i], s.len() as int);
}

/// Marking one unmarked slot raises its bitset's count by one.
proof fn lemma_cnt_true_update(s: Seq<bool>, i: int)
    requires
        0 <= i < s.len(),
        !s[i],
    ensures
        cnt_true(s.update(i, true)) == cnt_true(s) + 1,
{
    let s2 = s.update(i, true);
    crate::util::lemma_cnt_update(
        |j: int| 0 <= j < s.len() && s[j],
        |j: int| 0 <= j < s2.len() && s2[j],
        i,
        s.len() as int,
    );
}

// ---------------------------------------------------------------------
// The marking machine: bitsets plus a worklist of entities whose
// successors are still to be visited.
// ---------------------------------------------------------------------

pub struct Marker {
    /// Number of imported functions.
    pub nf: u32,
    /// Number of imported tables.
    pub nt: u32,
    /// Number of imported globals.
    pub ng: u32,
    pub a: Analysis,
    pub wl: Vec<Ent>,
}

pub open spec fn mk_wf(m: Module, mk: Marker) -> bool {
    &&& a_wf(m, mk.a)
    &&& mk.nf == n_imp(m, ImpKind::Func)
    &&& mk.nt == n_imp(m, ImpKind::Table)
    &&& mk.ng == n_imp(m, ImpKind::Global)
    &&& forall|i: int| 0 <= i < mk.wl@.len() ==> ent_in_range(m, #[trigger] mk.wl@[i])
    &&& forall|x: Ent| #[trigger] in_a(mk.a, x) ==> ent_in_range(m, x)
}

/// Everything marked or pending.
pub open spec fn mset(mk: Marker) -> Set<Ent> {
    Set::new(|e: Ent| in_a(mk.a, e) || mk.wl@.contains(e))
}

impl Marker {
    /// Append one entity to the worklist.
    fn push_ent(&mut self, Ghost(m): Ghost<Module>, e: Ent)
        requires
            mk_wf(m, *old(self)),
            ent_in_range(m, e),
        ensures
            mk_wf(m, *final(self)),
            final(self).a == old(self).a,
            final(self).nf == old(self).nf,
            final(self).nt == old(self).nt,
            final(self).ng == old(self).ng,
            forall|x: Ent|
                #[trigger] mset(*final(self)).contains(x) == (mset(*old(self)).contains(x) || x == e),
    {
        self.wl.push(e);
        proof {
            assert forall|x: Ent|
                #[trigger] mset(*self).contains(x) == (mset(*old(self)).contains(x) || x == e) by {
                crate::util::lemma_push_contains(old(self).wl@, e, x);
            }
        }
    }

    /// Queue a flat function index: an import-half index queues the
    /// import entry, a module-half index the function slot.
    fn push_func(&mut self, m: &Module, f: u32)
        requires
            mk_wf(*m, *old(self)),
            wf_core(*m),
            f < n_flat_funcs(*m),
        ensures
            mk_wf(*m, *final(self)),
            final(self).a == old(self).a,
            final(self).nf == old(self).nf,
            final(self).nt == old(self).nt,
            final(self).ng == old(self).ng,
            forall|x: Ent|
                #[trigger] mset(*final(self)).contains(x) == (mset(*old(self)).contains(x) || x
                    == resolve_func(*m, f as int)),
    {
        if f < self.nf {
            let i = crate::module::nth_import(m, ImpKind::Func, f);
            self.push_ent(Ghost(*m), Ent::Imp(i as u32));
        } else {
            self.push_ent(Ghost(*m), Ent::Code(f - self.nf));
        }
    }

    fn push_table(&mut self, m: &Module, t: u32)
        requires
            mk_wf(*m, *old(self)),
            wf_core(*m),
            t < n_flat_tables(*m),
        ensures
            mk_wf(*m, *final(self)),
            final(self).a == old(self).a,
            final(self).nf == old(self).nf,
            final(self).nt == old(self).nt,
            final(self).ng == old(self).ng,
            forall|x: Ent|
                #[trigger] mset(*final(self)).contains(x) == (mset(*old(self)).contains(x) || x
                    == resolve_table(*m, t as int)),
    {
        if t < self.nt {
            let i = crate::module::nth_import(m, ImpKind::Table, t);
            self.push_ent(Ghost(*m), Ent::Imp(i as u32));
        } else {
            self.push_ent(Ghost(*m), Ent::TblL(t - self.nt));
        }
    }

    fn push_global(&mut self, m: &Module, g: u32)
        requires
            mk_wf(*m, *old(self)),
            wf_core(*m),
            g < n_flat_globals(*m),
        ensures
            mk_wf(*m, *final(self)),
            final(self).a == old(self).a,
            final(self).nf == old(self).nf,
            final(self).nt == old(self).nt,
            final(self).ng == old(self).ng,
            forall|x: Ent|
                #[trigger] mset(*final(self)).contains(x) == (mset(*old(self)).contains(x) || x
                    == resolve_global(*m, g as int)),
    {
        if g < self.ng {
            let i = crate::module::nth_import(m, ImpKind::Global, g);
            self.push_ent(Ghost(*m), Ent::Imp(i as u32));
        } else {
            self.push_ent(Ghost(*m), Ent::GlbL(g - self.ng));
        }
    }

    /// Queue whatever one instruction references.
    fn push_instr(&mut self, m: &Module, ins: &Instr)
        requires
            mk_wf(*m, *old(self)),
            wf_core(*m),
            crate::module::instr_wf(*m, *ins),
        ensures
            mk_wf(*m, *final(self)),
            final(self).a == old(self).a,
            final(self).nf == old(self).nf,
            final(self).nt == old(self).nt,
            final(self).ng == old(self).ng,
            forall|x: Ent|
                #[trigger] mset(*final(self)).contains(x) == (mset(*old(self)).contains(x) || instr_ent(
                    *m,
                    *ins,
                ) == Some(x)),
    {
        match ins {
            Instr::Call(f) => self.push_func(m, *f),
            Instr::CallIndirect(t) => self.push_ent(Ghost(*m), Ent::Ty(*t)),
            Instr::GetGlobal(g) => self.push_global(m, *g),
            Instr::SetGlobal(g) => self.push_global(m, *g),
            _ => {},
        }
    }

    /// Queue the references of a whole instruction list.
    fn push_instrs(&mut self, m: &Module, v: &Vec<Instr>)
        requires
            mk_wf(*m, *old(self)),
            wf_core(*m),
            crate::module::instrs_wf(*m, v@),
        ensures
            mk_wf(*m, *final(self)),
            final(self).a == old(self).a,
            final(self).nf == old(self).nf,
            final(self).nt == old(self).nt,
            final(self).ng == old(self).ng,
            forall|x: Ent|
                #[trigger] mset(*final(self)).contains(x) == (mset(*old(self)).contains(x) || instrs_ref(
                    *m,
                    v@,
                    x,
                )),
    {
        let mut j: usize = 0;
        while j < v.len()
            invariant
                mk_wf(*m, *self),
                wf_core(*m),
                crate::module::instrs_wf(*m, v@),
                0 <= j <= v.len(),
                self.a == old(self).a,
                self.nf == old(self).nf,
                self.nt == old(self).nt,
                self.ng == old(self).ng,
                forall|x: Ent|
                    #[trigger] mset(*self).contains(x) == (mset(*old(self)).contains(x) || exists|
                        j2: int,
                    |
                        0 <= j2 < j && #[trigger] instr_ent(*m, v@[j2]) == Some(x)),
            decreases v.len() - j,
        {
            let ghost pre = *self;
            self.push_instr(m, &v[j]);
            proof {
                assert forall|x: Ent|
                    #[trigger] mset(*self).contains(x) == (mset(*old(self)).contains(x) || exists|
                        j2: int,
                    |
                        0 <= j2 < j + 1 && #[trigger] instr_ent(*m, v@[j2]) == Some(x)) by {
                    if mset(*self).contains(x) {
                        if !mset(pre).contains(x) {
                            assert(instr_ent(*m, v@[j as int]) == Some(x));
                        }
                    }
                    if exists|j2: int| 0 <= j2 < j + 1 && #[trigger] instr_ent(*m, v@[j2]) == Some(
                        x,
                    ) {
                        let j2 = choose|j2: int|
                            0 <= j2 < j + 1 && #[trigger] instr_ent(*m, v@[j2]) == Some(x);
                        if j2 < j {
                            assert(mset(pre).contains(x));
                        }
                    }
                }
            }
            j = j + 1;
        }
    }

    /// Mark one entity in its bitset.
    fn mark(&mut self, Ghost(m): Ghost<Module>, e: Ent)
        requires
            mk_wf(m, *old(self)),
            ent_in_range(m, e),
            !in_a(old(self).a, e),
        ensures
            mk_wf(m, *final(self)),
            final(self).wl == old(self).wl,
            final(self).nf == old(self).nf,
            final(self).nt == old(self).nt,
            final(self).ng == old(self).ng,
            forall|x: Ent| #[trigger] in_a(final(self).a, x) == (in_a(old(self).a, x) || x == e),
            forall|x: Ent|
                #[trigger] mset(*final(self)).contains(x) == (mset(*old(self)).contains(x) || x == e),
            n_unmarked(final(self).a) == n_unmarked(old(self).a) - 1,
    {
        match e {
            Ent::Ty(t) => {
                self.a.types.set(t as usize, true);
                proof {
                    lemma_cnt_true_update(old(self).a.types@, t as int);
                }
            },
            Ent::Code(c) => {
                self.a.codes.set(c as usize, true);
                proof {
                    lemma_cnt_true_update(old(self).a.codes@, c as int);
                }
            },
            Ent::TblL(t) => {
                self.a.tables.set(t as usize, true);
                proof {
                    lemma_cnt_true_update(old(self).a.tables@, t as int);
                }
            },
            Ent::Mem(i) => {
                self.a.mems.set(i as usize, true);
                proof {
                    lemma_cnt_true_update(old(self).a.mems@, i as int);
                }
            },
            Ent::GlbL(g) => {
                self.a.globals.set(g as usize, true);
                proof {
                    lemma_cnt_true_update(old(self).a.globals@, g as int);
                }
            },
            Ent::Imp(i) => {
                self.a.imports.set(i as usize, true);
                proof {
                    lemma_cnt_true_update(old(self).a.imports@, i as int);
                }
            },
            Ent::Exp(e2) => {
                self.a.exports.set(e2 as usize, true);
                proof {
                    lemma_cnt_true_update(old(self).a.exports@, e2 as int);
                }
            },
        }
    }

    /// Queue every successor of a just-marked entity.
    fn expand(&mut self, m: &Module, e: Ent)
        requires
            mk_wf(*m, *old(self)),
            wf_core(*m),
            ent_in_range(*m, e),
        ensures
            mk_wf(*m, *final(self)),
            final(self).a == old(self).a,
            final(self).nf == old(self).nf,
            final(self).nt == old(self).nt,
            final(self).ng == old(self).ng,
            forall|x: Ent|
                #[trigger] mset(*final(self)).contains(x) == (mset(*old(self)).contains(x) || succ_of(
                    *m,
                    e,
                    x,
                )),
    {
        match e {
            Ent::Code(c) => {
                let tyidx: u32 = match &m.funcs {
                    Some(v) => v[c as usize],
                    None => 0,  // unreachable: `c` is in range of a present section
                };
                self.push_ent(Ghost(*m), Ent::Ty(tyidx));
                match &m.code {
                    Some(v) => {
                        let body = &v[c as usize];
                        self.push_instrs(m, &body.code);
                    },
                    None => {},
                }
            },
            Ent::GlbL(g) => {
                match &m.globals {
                    Some(v) => {
                        let init = &v[g as usize].init;
                        self.push_instrs(m, init);
                    },
                    None => {},
                }
            },
            Ent::Imp(i) => {
                let ext = match &m.imports {
                    Some(v) => v[i as usize].external,
                    None => ImportRef::Table,  // unreachable: `i` is in range
                };
                match ext {
                    ImportRef::Function(sig) => self.push_ent(Ghost(*m), Ent::Ty(sig)),
                    ImportRef::Memory => {
                        proof {
                            assert(crate::module::has_mem_import(*m)) by {
                                assert(kind_of(imps_of(*m)[i as int]) == ImpKind::Mem);
                            }
                            assert(crate::module::mem_exists(*m, 0));
                            assert(ent_in_range(*m, Ent::Mem(0)));
                        }
                        self.push_ent(Ghost(*m), Ent::Mem(0));
                    },
                    _ => {},
                }
            },
            Ent::Exp(e2) => {
                let tgt = match &m.exports {
                    Some(v) => v[e2 as usize].internal,
                    None => ExportRef::Function(0),  // unreachable: `e2` is in range
                };
                match tgt {
                    ExportRef::Function(f) => self.push_func(m, f),
                    ExportRef::Table(t) => self.push_table(m, t),
                    ExportRef::Memory(i) => self.push_ent(Ghost(*m), Ent::Mem(i)),
                    ExportRef::Global(g) => self.push_global(m, g),
                }
            },
            _ => {},
        }
    }
}

// ---------------------------------------------------------------------
// Lemmas carrying the two loop invariants of the analyzer: the marked
// set stays below every closed root-superset, and every marked entity's
// successors are marked or pending.
// ---------------------------------------------------------------------

/// `s2` lies below every closed superset of the roots.
pub open spec fn le_all(m: Module, s2: Set<Ent>) -> bool {
    forall|s: Set<Ent>| #[trigger] closed(m, s) && roots_in(m, s) ==> incl(s2, s)
}

proof fn lemma_le_all_roots(m: Module, s2: Set<Ent>, s3: Set<Ent>)
    requires
        le_all(m, s2),
        forall|x: Ent| #[trigger] s3.contains(x) ==> s2.contains(x) || root_of(m, x),
    ensures
        le_all(m, s3),
{
    assert forall|s: Set<Ent>| #[trigger] closed(m, s) && roots_in(m, s) implies incl(s3, s) by {
        assert forall|x: Ent| #[trigger] s3.contains(x) implies s.contains(x) by {
            if s2.contains(x) {
                assert(incl(s2, s));
            } else {
                assert(root_of(m, x));
            }
        }
    }
}

proof fn lemma_le_all_succ(m: Module, s2: Set<Ent>, s3: Set<Ent>, e0: Ent)
    requires
        le_all(m, s2),
        s2.contains(e0),
        forall|x: Ent| #[trigger] s3.contains(x) ==> s2.contains(x) || succ_of(m, e0, x),
    ensures
        le_all(m, s3),
{
    assert forall|s: Set<Ent>| #[trigger] closed(m, s) && roots_in(m, s) implies incl(s3, s) by {
        assert(incl(s2, s));
        assert forall|x: Ent| #[trigger] s3.contains(x) implies s.contains(x) by {
            if s2.contains(x) {
            } else {
                assert(succ_of(m, e0, x));
                assert(s.contains(e0));
            }
        }
    }
}

proof fn lemma_le_all_mono(m: Module, s2: Set<Ent>, s3: Set<Ent>)
    requires
        le_all(m, s2),
        forall|x: Ent| #[trigger] s3.contains(x) ==> s2.contains(x),
    ensures
        le_all(m, s3),
{
    assert forall|s: Set<Ent>| #[trigger] closed(m, s) && roots_in(m, s) implies incl(s3, s) by {
        assert(incl(s2, s));
        assert forall|x: Ent| #[trigger] s3.contains(x) implies s.contains(x) by {
            assert(s2.contains(x));
        }
    }
}

/// Every marked entity's successors are in `s`.
pub open spec fn pending_ok(m: Module, a: Analysis, s: Set<Ent>) -> bool {
    forall|e: Ent| #[trigger] in_a(a, e) ==> succs_in(m, s, e)
}

proof fn lemma_pending_step(
    m: Module,
    a1: Analysis,
    s1: Set<Ent>,
    a2: Analysis,
    s2: Set<Ent>,
    e: Ent,
)
    requires
        pending_ok(m, a1, s1),
        forall|x: Ent| #[trigger] s1.contains(x) ==> s2.contains(x),
        forall|x: Ent| #[trigger] in_a(a2, x) ==> in_a(a1, x) || x == e,
        succs_in(m, s2, e),
    ensures
        pending_ok(m, a2, s2),
{
    assert forall|e2: Ent| #[trigger] in_a(a2, e2) implies succs_in(m, s2, e2) by {
        if e2 != e {
            assert(in_a(a1, e2));
            assert(succs_in(m, s1, e2));
            assert forall|x: Ent| #[trigger] succ_of(m, e2, x) implies s2.contains(x) by {
                assert(s1.contains(x));
            }
        }
    }
}

// ---------------------------------------------------------------------
// Root coverage, per root family, with a progress bound.
// ---------------------------------------------------------------------

pub open spec fn exp_cov(m: Module, s: Set<Ent>, n: int) -> bool {
    forall|e: int|
        0 <= e < n && !blacklisted((#[trigger] exports_of(m)[e]).field@) ==> s.contains(
            Ent::Exp(e as u32),
        )
}

pub open spec fn imp_cov(m: Module, s: Set<Ent>, n: int) -> bool {
    forall|i: int|
        0 <= i < n && kind_of(#[trigger] imps_of(m)[i]) == ImpKind::Mem ==> s.contains(
            Ent::Imp(i as u32),
        )
}

pub open spec fn data_cov(m: Module, s: Set<Ent>, n: int) -> bool {
    forall|d: int|
        0 <= d < n ==> s.contains(Ent::Mem((#[trigger] data_of(m)[d]).memory_index)) && (forall|
            x: Ent,
        |
            #[trigger] instrs_ref(m, data_of(m)[d].offset@, x) ==> s.contains(x))
}

pub open spec fn tbl_cov(m: Module, s: Set<Ent>, n: int) -> bool {
    forall|t: int| 0 <= t < n ==> s.contains(#[trigger] tbl_ent(t))
}

pub open spec fn seg_cov(m: Module, s: Set<Ent>, seg: ElementSegment, nj: int) -> bool {
    forall|j: int|
        0 <= j < nj ==> s.contains(resolve_func(m, (#[trigger] seg.members@[j]) as int))
}

pub open spec fn elem_cov(m: Module, s: Set<Ent>, n: int) -> bool {
    forall|sg: int|
        0 <= sg < n ==> {
            let seg = #[trigger] elements_of(m)[sg];
            &&& seg_cov(m, s, seg, seg.members@.len() as int)
            &&& s.contains(resolve_table(m, seg.table_index as int))
            &&& (forall|x: Ent|
                #[trigger] instrs_ref(m, seg.offset@, x) ==> s.contains(x))
        }
}

pub open spec fn start_cov(m: Module, s: Set<Ent>) -> bool {
    match m.start {
        Some(f) => s.contains(resolve_func(m, f as int)),
        None => true,
    }
}

proof fn lemma_roots_assemble(m: Module, s: Set<Ent>)
    requires
        exp_cov(m, s, exports_of(m).len() as int),
        imp_cov(m, s, imps_of(m).len() as int),
        data_cov(m, s, data_of(m).len() as int),
        tbl_cov(m, s, tables_of(m).len() as int),
        elem_cov(m, s, elements_of(m).len() as int),
        start_cov(m, s),
    ensures
        roots_in(m, s),
{
    assert forall|x: Ent| #[trigger] root_of(m, x) implies s.contains(x) by {
        if exists|e: int|
            0 <= e < exports_of(m).len() && !blacklisted(
                (#[trigger] exports_of(m)[e]).field@,
            ) && x == Ent::Exp(e as u32) {
            let e = choose|e: int|
                0 <= e < exports_of(m).len() && !blacklisted(
                    (#[trigger] exports_of(m)[e]).field@,
                ) && x == Ent::Exp(e as u32);
            assert(s.contains(Ent::Exp(e as u32)));
        } else if exists|i: int|
            0 <= i < imps_of(m).len() && kind_of(#[trigger] imps_of(m)[i]) == ImpKind::Mem && x
                == Ent::Imp(i as u32) {
            let i = choose|i: int|
                0 <= i < imps_of(m).len() && kind_of(#[trigger] imps_of(m)[i]) == ImpKind::Mem && x
                    == Ent::Imp(i as u32);
            assert(s.contains(Ent::Imp(i as u32)));
        } else if exists|d: int|
            0 <= d < data_of(m).len() && (x == Ent::Mem((#[trigger] data_of(m)[d]).memory_index)
                || instrs_ref(m, data_of(m)[d].offset@, x)) {
            let d = choose|d: int|
                0 <= d < data_of(m).len() && (x == Ent::Mem(
                    (#[trigger] data_of(m)[d]).memory_index,
                ) || instrs_ref(m, data_of(m)[d].offset@, x));
            assert(s.contains(x));
        } else if exists|t: int| 0 <= t < tables_of(m).len() && x == #[trigger] tbl_ent(t) {
            let t = choose|t: int| 0 <= t < tables_of(m).len() && x == #[trigger] tbl_ent(t);
            assert(s.contains(tbl_ent(t)));
        } else if exists|sg: int|
            0 <= sg < elements_of(m).len() && {
                let seg = #[trigger] elements_of(m)[sg];
                ||| exists|j: int|
                    0 <= j < seg.members@.len() && x == resolve_func(
                        m,
                        #[trigger] seg.members@[j] as int,
                    )
                ||| x == resolve_table(m, seg.table_index as int)
                ||| instrs_ref(m, seg.offset@, x)
            } {
            let sg = choose|sg: int|
                0 <= sg < elements_of(m).len() && {
                    let seg = #[trigger] elements_of(m)[sg];
                    ||| exists|j: int|
                        0 <= j < seg.members@.len() && x == resolve_func(
                            m,
                            #[trigger] seg.members@[j] as int,
                        )
                    ||| x == resolve_table(m, seg.table_index as int)
                    ||| instrs_ref(m, seg.offset@, x)
                };
            let seg = elements_of(m)[sg];
            if exists|j: int|
                0 <= j < seg.members@.len() && x == resolve_func(
                    m,
                    #[trigger] seg.members@[j] as int,
                ) {
                let j = choose|j: int|
                    0 <= j < seg.members@.len() && x == resolve_func(
                        m,
                        #[trigger] seg.members@[j] as int,
                    );
                assert(seg_cov(m, s, seg, seg.members@.len() as int));
                assert(s.contains(resolve_func(m, seg.members@[j] as int)));
            } else {
                assert(s.contains(x));
            }
        } else {
            assert(match m.start {
                Some(f) => x == resolve_func(m, f as int),
                None => false,
            });
        }
    }
}

// ---------------------------------------------------------------------
// The analyzer.
// ---------------------------------------------------------------------

fn falses(n: usize) -> (r: Vec<bool>)
    ensures
        r@.len() == n,
        forall|i: int| 0 <= i < n ==> !(#[trigger] r@[i]),
{
    let mut r: Vec<bool> = Vec::new();
    let mut i: usize = 0;
    while i < n
        invariant
            0 <= i <= n,
            r@.len() == i,
            forall|j: int| 0 <= j < i ==> !(#[trigger] r@[j]),
        decreases n - i,
    {
        r.push(false);
        i = i + 1;
    }
    r
}

fn mem_space_len(m: &Module) -> (r: usize)
    requires
        crate::module::sizes_wf(*m),
    ensures
        r as int == mem_space(*m),
{
    match &m.memories {
        Some(v) => v.len(),
        None => {
            let c = crate::module::count_imports(m, ImpKind::Mem);
            proof {
                if c > 0 {
                    crate::util::lemma_cnt_pos(
                        crate::module::kind_at(imps_of(*m), ImpKind::Mem),
                        imps_of(*m).len() as int,
                    );
                } else {
                    if crate::module::has_mem_import(*m) {
                        let i = choose|i: int|
                            0 <= i < imps_of(*m).len() && kind_of(#[trigger] imps_of(*m)[i])
                                == ImpKind::Mem;
                        crate::util::lemma_cnt_lt(
                            crate::module::kind_at(imps_of(*m), ImpKind::Mem),
                            i,
                            imps_of(*m).len() as int,
                        );
                    }
                }
            }
            if c > 0 {
                1
            } else {
                0
            }
        },
    }
}

fn is_marked(a: &Analysis, Ghost(m): Ghost<Module>, e: Ent) -> (r: bool)
    requires
        a_wf(m, *a),
        ent_in_range(m, e),
    ensures
        r == in_a(*a, e),
{
    match e {
        Ent::Ty(t) => a.types[t as usize],
        Ent::Code(c) => a.codes[c as usize],
        Ent::TblL(t) => a.tables[t as usize],
        Ent::Mem(i) => a.mems[i as usize],
        Ent::GlbL(g) => a.globals[g as usize],
        Ent::Imp(i) => a.imports[i as usize],
        Ent::Exp(e2) => a.exports[e2 as usize],
    }
}

/// Compute the live set: mark everything reachable from the roots.
///
/// The result is exact: an entity is marked if and only if it is
/// reachable, the marked set is closed under the edge relation and
/// contains every root, and every marked index is within its space.
pub fn analyze(m: &Module) -> (a: Analysis)
    requires
        wf_core(*m),
    ensures
        a_wf(*m, a),
        forall|x: Ent| #[trigger] in_a(a, x) <==> reachable(*m, x),
        closed(*m, aset(a)),
        roots_in(*m, aset(a)),
        forall|x: Ent| #[trigger] in_a(a, x) ==> ent_in_range(*m, x),
{
    let nf = crate::module::count_imports(m, ImpKind::Func);
    let nt = crate::module::count_imports(m, ImpKind::Table);
    let ng = crate::module::count_imports(m, ImpKind::Global);
    let n_types: usize = match &m.types {
        Some(v) => v.len(),
        None => 0,
    };
    let n_codes: usize = match &m.funcs {
        Some(v) => v.len(),
        None => 0,
    };
    let n_tables: usize = match &m.tables {
        Some(v) => v.len(),
        None => 0,
    };
    let n_mems: usize = mem_space_len(m);
    let n_globals: usize = match &m.globals {
        Some(v) => v.len(),
        None => 0,
    };
    let n_imports: usize = match &m.imports {
        Some(v) => v.len(),
        None => 0,
    };
    let n_exports: usize = match &m.exports {
        Some(v) => v.len(),
        None => 0,
    };
    let a = Analysis {
        types: falses(n_types),
        codes: falses(n_codes),
        tables: falses(n_tables),
        mems: falses(n_mems),
        globals: falses(n_globals),
        imports: falses(n_imports),
        exports: falses(n_exports),
    };
    let mut mk = Marker { nf, nt, ng, a, wl: Vec::new() };
    proof {
        assert(forall|x: Ent| !(#[trigger] in_a(mk.a, x)));
        assert forall|x: Ent| !(#[trigger] mset(mk).contains(x)) by {
            if mk.wl@.contains(x) {
                let i = choose|i: int| 0 <= i < mk.wl@.len() && mk.wl@[i] == x;
            }
        }
        assert forall|s: Set<Ent>| #[trigger] closed(*m, s) && roots_in(*m, s) implies incl(
            mset(mk),
            s,
        ) by {
            assert forall|x: Ent| #[trigger] mset(mk).contains(x) implies s.contains(x) by {}
        }
    }

    // Root phase: queue every root.
    if let Some(v) = &m.exports {
        let mut e: usize = 0;
        while e < v.len()
            invariant
                mk_wf(*m, mk),
                wf_core(*m),
                exports_of(*m) == v@,
                0 <= e <= v.len(),
                le_all(*m, mset(mk)),
                forall|x: Ent| !(#[trigger] in_a(mk.a, x)),
                exp_cov(*m, mset(mk), e as int),
            decreases v.len() - e,
        {
            let ghost pre = mk;
            if !is_blacklisted(&v[e].field) {
                mk.push_ent(Ghost(*m), Ent::Exp(e as u32));
                proof {
                    assert(root_of(*m, Ent::Exp(e as u32))) by {
                        assert(0 <= (e as int) < exports_of(*m).len() && !blacklisted(
                            exports_of(*m)[e as int].field@,
                        ));
                    }
                    lemma_le_all_roots(*m, mset(pre), mset(mk));
                }
            }
            e = e + 1;
        }
    }
    let ghost ms_exp = mset(mk);
    if let Some(v) = &m.imports {
        let mut i: usize = 0;
        while i < v.len()
            invariant
                mk_wf(*m, mk),
                wf_core(*m),
                imps_of(*m) == v@,
                0 <= i <= v.len(),
                le_all(*m, mset(mk)),
                forall|x: Ent| !(#[trigger] in_a(mk.a, x)),
                exp_cov(*m, mset(mk), exports_of(*m).len() as int),
                imp_cov(*m, mset(mk), i as int),
            decreases v.len() - i,
        {
            let ghost pre = mk;
            if crate::module::kind_matches(&v[i], ImpKind::Mem) {
                mk.push_ent(Ghost(*m), Ent::Imp(i as u32));
                proof {
                    assert(root_of(*m, Ent::Imp(i as u32))) by {
                        assert(kind_of(imps_of(*m)[i as int]) == ImpKind::Mem);
                    }
                    lemma_le_all_roots(*m, mset(pre), mset(mk));
                }
            }
            i = i + 1;
        }
    }
    if let Some(v) = &m.data {
        let mut d: usize = 0;
        while d < v.len()
            invariant
                mk_wf(*m, mk),
                wf_core(*m),
                data_of(*m) == v@,
                0 <= d <= v.len(),
                le_all(*m, mset(mk)),
                forall|x: Ent| !(#[trigger] in_a(mk.a, x)),
                exp_cov(*m, mset(mk), exports_of(*m).len() as int),
                imp_cov(*m, mset(mk), imps_of(*m).len() as int),
                data_cov(*m, mset(mk), d as int),
            decreases v.len() - d,
        {
            let ghost pre = mk;
            let seg = &v[d];
            proof {
                assert(crate::module::data_wf(*m, data_of(*m)[d as int]));
                assert((seg.memory_index as int) < mem_space(*m));
            }
            mk.push_ent(Ghost(*m), Ent::Mem(seg.memory_index));
            proof {
                assert(root_of(*m, Ent::Mem(seg.memory_index))) by {
                    assert(0 <= (d as int) < data_of(*m).len());
                    assert(data_of(*m)[d as int].memory_index == seg.memory_index);
                }
                lemma_le_all_roots(*m, mset(pre), mset(mk));
            }
            let ghost pre2 = mk;
            mk.push_instrs(m, &seg.offset);
            proof {
                assert forall|x: Ent| #[trigger] mset(mk).contains(x) implies mset(pre2).contains(
                    x,
                ) || root_of(*m, x) by {
                    if !mset(pre2).contains(x) {
                        assert(instrs_ref(*m, data_of(*m)[d as int].offset@, x));
                    }
                }
                lemma_le_all_roots(*m, mset(pre2), mset(mk));
            }
            d = d + 1;
        }
    }
    if let Some(v) = &m.tables {
        let mut t: usize = 0;
        while t < v.len()
            invariant
                mk_wf(*m, mk),
                wf_core(*m),
                tables_of(*m) == v@,
                0 <= t <= v.len(),
                le_all(*m, mset(mk)),
                forall|x: Ent| !(#[trigger] in_a(mk.a, x)),
                exp_cov(*m, mset(mk), exports_of(*m).len() as int),
                imp_cov(*m, mset(mk), imps_of(*m).len() as int),
                data_cov(*m, mset(mk), data_of(*m).len() as int),
                tbl_cov(*m, mset(mk), t as int),
            decreases v.len() - t,
        {
            let ghost pre = mk;
            mk.push_ent(Ghost(*m), Ent::TblL(t as u32));
            proof {
                assert(tbl_ent(t as int) == Ent::TblL(t as u32));
                assert(root_of(*m, Ent::TblL(t as u32)));
                lemma_le_all_roots(*m, mset(pre), mset(mk));
            }
            t = t + 1;
        }
    }
    if let Some(v) = &m.elements {
        let mut sg: usize = 0;
        while sg < v.len()
            invariant
                mk_wf(*m, mk),
                wf_core(*m),
                elements_of(*m) == v@,
                0 <= sg <= v.len(),
                le_all(*m, mset(mk)),
                forall|x: Ent| !(#[trigger] in_a(mk.a, x)),
                exp_cov(*m, mset(mk), exports_of(*m).len() as int),
                imp_cov(*m, mset(mk), imps_of(*m).len() as int),
                data_cov(*m, mset(mk), data_of(*m).len() as int),
                tbl_cov(*m, mset(mk), tables_of(*m).len() as int),
                elem_cov(*m, mset(mk), sg as int),
            decreases v.len() - sg,
        {
            let seg = &v[sg];
            proof {
                assert(crate::module::element_wf(*m, elements_of(*m)[sg as int]));
            }
            let mut j: usize = 0;
            while j < seg.members.len()
                invariant
                    mk_wf(*m, mk),
                    wf_core(*m),
                    elements_of(*m) == v@,
                    0 <= (sg as int) < v@.len(),
                    seg == v@[sg as int],
                    crate::module::element_wf(*m, elements_of(*m)[sg as int]),
                    0 <= j <= seg.members@.len(),
                    le_all(*m, mset(mk)),
                    forall|x: Ent| !(#[trigger] in_a(mk.a, x)),
                    exp_cov(*m, mset(mk), exports_of(*m).len() as int),
                    imp_cov(*m, mset(mk), imps_of(*m).len() as int),
                    data_cov(*m, mset(mk), data_of(*m).len() as int),
                    tbl_cov(*m, mset(mk), tables_of(*m).len() as int),
                    elem_cov(*m, mset(mk), sg as int),
                    seg_cov(*m, mset(mk), *seg, j as int),
                decreases seg.members@.len() - j,
            {
                let ghost pre = mk;
                mk.push_func(m, seg.members[j]);
                proof {
                    assert(root_of(*m, resolve_func(*m, seg.members@[j as int] as int))) by {
                        assert(elements_of(*m)[sg as int] == *seg);
                        assert(0 <= (j as int) < seg.members@.len());
                    }
                    lemma_le_all_roots(*m, mset(pre), mset(mk));
                }
                j = j + 1;
            }
            let ghost pre2 = mk;
            mk.push_table(m, seg.table_index);
            proof {
                assert(root_of(*m, resolve_table(*m, seg.table_index as int))) by {
                    assert(elements_of(*m)[sg as int] == *seg);
                }
                lemma_le_all_roots(*m, mset(pre2), mset(mk));
            }
            let ghost pre3 = mk;
            mk.push_instrs(m, &seg.offset);
            proof {
                assert forall|x: Ent| #[trigger] mset(mk).contains(x) implies mset(pre3).contains(
                    x,
                ) || root_of(*m, x) by {
                    if !mset(pre3).contains(x) {
                        assert(instrs_ref(*m, elements_of(*m)[sg as int].offset@, x));
                    }
                }
                lemma_le_all_roots(*m, mset(pre3), mset(mk));
            }
            sg = sg + 1;
        }
    }
    match m.start {
        Some(f) => {
            let ghost pre = mk;
            mk.push_func(m, f);
            proof {
                assert(root_of(*m, resolve_func(*m, f as int)));
                lemma_le_all_roots(*m, mset(pre), mset(mk));
            }
        },
        None => {},
    }

    proof {
        lemma_roots_assemble(*m, mset(mk));
    }

    // Drain phase: process pending entities to a fixed point.
    while mk.wl.len() > 0
        invariant
            mk_wf(*m, mk),
            wf_core(*m),
            le_all(*m, mset(mk)),
            pending_ok(*m, mk.a, mset(mk)),
            roots_in(*m, mset(mk)),
        decreases n_unmarked(mk.a), mk.wl@.len(),
    {
        let ghost mk0 = mk;
        let e = mk.wl[mk.wl.len() - 1];
        let _popped = mk.wl.pop();
        let ghost mk1 = mk;
        proof {
            assert(mk1.wl@ == mk0.wl@.drop_last());
            assert(mk0.wl@.contains(e)) by {
                assert(mk0.wl@[mk0.wl@.len() - 1] == e);
            }
            assert forall|x: Ent| #[trigger] mset(mk0).contains(x) implies mset(mk1).contains(x)
                || x == e by {
                if mk0.wl@.contains(x) {
                    crate::util::lemma_drop_last_contains(mk0.wl@, x);
                }
            }
            assert forall|x: Ent| #[trigger] mset(mk1).contains(x) implies mset(mk0).contains(
                x,
            ) by {
                if mk1.wl@.contains(x) {
                    crate::util::lemma_drop_last_contains(mk0.wl@, x);
                }
            }
        }
        if !is_marked(&mk.a, Ghost(*m), e) {
            mk.mark(Ghost(*m), e);
            let ghost mk2 = mk;
            mk.expand(m, e);
            proof {
                let ghost mk3 = mk;
                // growth: mset(mk0) <= mset(mk3)
                assert forall|x: Ent| #[trigger] mset(mk0).contains(x) implies mset(mk3).contains(
                    x,
                ) by {
                    if x == e {
                        assert(in_a(mk2.a, e));
                        assert(mset(mk2).contains(e));
                    } else {
                        assert(mset(mk1).contains(x));
                        assert(mset(mk2).contains(x));
                    }
                }
                // minimality
                assert forall|x: Ent| #[trigger] mset(mk2).contains(x) implies mset(mk0).contains(
                    x,
                ) by {
                    if x != e {
                        assert(mset(mk1).contains(x));
                    }
                }
                lemma_le_all_mono(*m, mset(mk0), mset(mk2));
                lemma_le_all_succ(*m, mset(mk2), mset(mk3), e);
                // pending
                assert(succs_in(*m, mset(mk3), e)) by {
                    assert forall|x: Ent| #[trigger] succ_of(*m, e, x) implies mset(mk3).contains(
                        x,
                    ) by {}
                }
                assert forall|x: Ent| #[trigger] in_a(mk3.a, x) implies in_a(mk0.a, x) || x
                    == e by {}
                lemma_pending_step(*m, mk0.a, mset(mk0), mk3.a, mset(mk3), e);
                // roots
                assert forall|x: Ent| #[trigger] root_of(*m, x) implies mset(mk3).contains(x) by {
                    assert(mset(mk0).contains(x));
                }
                // measure
                lemma_cnt_true_bound(mk3.a.types@);
                lemma_cnt_true_bound(mk3.a.codes@);
                lemma_cnt_true_bound(mk3.a.tables@);
                lemma_cnt_true_bound(mk3.a.mems@);
                lemma_cnt_true_bound(mk3.a.globals@);
                lemma_cnt_true_bound(mk3.a.imports@);
                lemma_cnt_true_bound(mk3.a.exports@);
            }
        } else {
            proof {
                assert forall|x: Ent| #[trigger] mset(mk1).contains(x) == mset(mk0).contains(
                    x,
                ) by {
                    if x == e {
                        assert(in_a(mk1.a, e));
                    }
                }
                lemma_le_all_mono(*m, mset(mk0), mset(mk1));
                assert forall|e2: Ent| #[trigger] in_a(mk1.a, e2) implies succs_in(
                    *m,
                    mset(mk1),
                    e2,
                ) by {
                    assert(succs_in(*m, mset(mk0), e2));
                    assert forall|x: Ent| #[trigger] succ_of(*m, e2, x) implies mset(
                        mk1,
                    ).contains(x) by {
                        assert(mset(mk0).contains(x));
                    }
                }
                assert forall|x: Ent| #[trigger] root_of(*m, x) implies mset(mk1).contains(x) by {
                    assert(mset(mk0).contains(x));
                }
            }
        }
    }

    proof {
        // with the worklist empty, the pending set is the marked set
        assert forall|x: Ent| #[trigger] mset(mk).contains(x) == in_a(mk.a, x) by {
            if mk.wl@.contains(x) {
                let i = choose|i: int| 0 <= i < mk.wl@.len() && mk.wl@[i] == x;
            }
        }
        assert(closed(*m, aset(mk.a))) by {
            assert forall|e: Ent, x: Ent|
                #[trigger] aset(mk.a).contains(e) && #[trigger] succ_of(*m, e, x) implies aset(
                mk.a,
            ).contains(x) by {
                assert(in_a(mk.a, e));
                assert(succs_in(*m, mset(mk), e));
                assert(mset(mk).contains(x));
            }
        }
        assert(roots_in(*m, aset(mk.a))) by {
            assert forall|x: Ent| #[trigger] root_of(*m, x) implies aset(mk.a).contains(x) by {
                assert(mset(mk).contains(x));
            }
        }
        assert forall|x: Ent| #[trigger] in_a(mk.a, x) implies reachable(*m, x) by {
            assert forall|s: Set<Ent>| #[trigger] closed(*m, s) && roots_in(*m, s) implies
                s.contains(x) by {
                assert(incl(mset(mk), s));
                assert(mset(mk).contains(x));
            }
        }
        assert forall|x: Ent| reachable(*m, x) implies #[trigger] in_a(mk.a, x) by {
            assert(closed(*m, aset(mk.a)) && roots_in(*m, aset(mk.a)));
            assert(aset(mk.a).contains(x));
        }
    }
    mk.a
}

} // verus!
