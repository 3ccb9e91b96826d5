//! Renumbering of surviving entities.
//!
//! For every index space the rule is the same: a surviving entry's new
//! index is the number of surviving entries before it, and a dead entry
//! gets the sentinel `u32::MAX`, which must never escape into the
//! output.  The remap tables cover the flat spaces, imports first; the
//! section rewriters drop dead entries and rewrite every index through
//! the tables.  All contracts are exact: each output section is pinned,
//! entry by entry, to the filtered and renumbered input, and liveness of
//! the analysis (closedness plus roots) proves that no rewritten index
//! is ever the sentinel.

use vstd::prelude::*;
use crate::module::{
    code_of, data_of, elements_of, exports_of, flat_of, funcs_of, globals_of, icnt, imps_of,
    kind_at, kind_of, mem_space, mems_of, n_imp, tables_of, types_of, wf_core, DataSegment,
    ElementSegment, ExportEntry, ExportRef, FuncBody, FuncType, GlobalEntry, ImpKind, ImportEntry,
    ImportRef, Instr, Local, MemoryEntry, Module, TableEntry,
};
use crate::reach::{
    aset, a_wf, closed, in_a, instr_ent, resolve_func, resolve_global, resolve_table, root_of,
    roots_in, succ_of, target_ent, Analysis, Ent,
};
use crate::util::{cnt, kept, lemma_cnt_bound, lemma_cnt_lt};

verus! {

/// Liveness of a type slot.
pub open spec fn tpred(a: Analysis) -> spec_fn(int) -> bool {
    |i: int| in_a(a, Ent::Ty(i as u32))
}

/// The entity at flat index `x` of kind `k`'s space: the import halves
/// come first, then the module-defined entries.
pub open spec fn resolve_kind(m: Module, k: ImpKind, x: int) -> Ent {
    if x < n_imp(m, k) {
        Ent::Imp(flat_of(imps_of(m), k, x) as u32)
    } else {
        match k {
            ImpKind::Func => Ent::Code((x - n_imp(m, k)) as u32),
            ImpKind::Table => Ent::TblL((x - n_imp(m, k)) as u32),
            ImpKind::Mem => Ent::Mem((x - n_imp(m, k)) as u32),
            ImpKind::Global => Ent::GlbL((x - n_imp(m, k)) as u32),
        }
    }
}

/// Liveness over a flat space.
pub open spec fn kpred(m: Module, a: Analysis, k: ImpKind) -> spec_fn(int) -> bool {
    |x: int| in_a(a, resolve_kind(m, k, x))
}

/// Size of a flat space.
pub open spec fn n_flat(m: Module, k: ImpKind) -> int {
    n_imp(m, k) + (match k {
        ImpKind::Func => funcs_of(m).len() as int,
        ImpKind::Table => tables_of(m).len() as int,
        ImpKind::Mem => mems_of(m).len() as int,
        ImpKind::Global => globals_of(m).len() as int,
    })
}

/// The one renumbering rule: live entries get the running count of live
/// entries before them, dead entries the sentinel.
pub open spec fn table_wf(t: Seq<u32>, p: spec_fn(int) -> bool, n: int) -> bool {
    &&& t.len() == n
    &&& forall|x: int|
        0 <= x < n ==> #[trigger] t[x] == (if p(x) {
            cnt(p, x) as u32
        } else {
            0xffff_ffffu32
        })
}

/// New index of a live type.
pub open spec fn tnew(a: Analysis, t: int) -> u32 {
    cnt(tpred(a), t) as u32
}

/// New index of a live flat-space entry.
pub open spec fn knew(m: Module, a: Analysis, k: ImpKind, x: int) -> u32 {
    cnt(kpred(m, a, k), x) as u32
}

/// The five old-to-new index tables.
pub struct RemapTables {
    pub types: Vec<u32>,
    pub functions: Vec<u32>,
    pub tables: Vec<u32>,
    pub memories: Vec<u32>,
    pub globals: Vec<u32>,
}

pub open spec fn rt_wf(m: Module, a: Analysis, rt: RemapTables) -> bool {
    &&& table_wf(rt.types@, tpred(a), types_of(m).len() as int)
    &&& table_wf(rt.functions@, kpred(m, a, ImpKind::Func), n_flat(m, ImpKind::Func))
    &&& table_wf(rt.tables@, kpred(m, a, ImpKind::Table), n_flat(m, ImpKind::Table))
    &&& table_wf(rt.memories@, kpred(m, a, ImpKind::Mem), n_flat(m, ImpKind::Mem))
    &&& table_wf(rt.globals@, kpred(m, a, ImpKind::Global), n_flat(m, ImpKind::Global))
}

fn is_live_imp(a: &Analysis, i: usize) -> (r: bool)
    requires
        i < a.imports@.len(),
    ensures
        r == a.imports@[i as int],
{
    a.imports[i]
}

/// Build the import-prefixed half of one kind's table.
fn import_half(m: &Module, a: &Analysis, k: ImpKind) -> (r: (Vec<u32>, u32))
    requires
        wf_core(*m),
        a_wf(*m, *a),
    ensures
        r.0@.len() == n_imp(*m, k),
        r.1 == cnt(kpred(*m, *a, k), n_imp(*m, k) as int),
        r.1 <= r.0@.len(),
        forall|x: int|
            0 <= x < r.0@.len() ==> #[trigger] r.0@[x] == (if kpred(*m, *a, k)(x) {
                cnt(kpred(*m, *a, k), x) as u32
            } else {
                0xffff_ffffu32
            }),
{
    let mut t: Vec<u32> = Vec::new();
    let mut c: u32 = 0;
    let ghost p = kpred(*m, *a, k);
    match &m.imports {
        None => (t, c),
        Some(iv) => {
            let mut i: usize = 0;
            while i < iv.len()
                invariant
                    wf_core(*m),
                    a_wf(*m, *a),
                    imps_of(*m) == iv@,
                    p == kpred(*m, *a, k),
                    0 <= i <= iv.len(),
                    t@.len() == icnt(iv@, k, i as int),
                    t@.len() <= i,
                    c == cnt(p, t@.len() as int),
                    c <= t@.len(),
                    forall|x: int|
                        0 <= x < t@.len() ==> #[trigger] t@[x] == (if p(x) {
                            cnt(p, x) as u32
                        } else {
                            0xffff_ffffu32
                        }),
                decreases iv.len() - i,
            {
                let ghost j = t@.len() as int;
                if crate::module::kind_matches(&iv[i], k) {
                    proof {
                        lemma_cnt_lt(kind_at(iv@, k), i as int, iv@.len() as int);
                        crate::module::lemma_flat_unique(iv@, k, i as int);
                        assert(j == icnt(iv@, k, i as int));
                        assert(flat_of(iv@, k, j) == i as int);
                        assert(j < n_imp(*m, k));
                        assert(resolve_kind(*m, k, j) == Ent::Imp(i as u32));
                        assert(p(j) == in_a(*a, Ent::Imp(i as u32)));
                    }
                    if is_live_imp(a, i) {
                        t.push(c);
                        c = c + 1;
                    } else {
                        t.push(0xffff_ffff);
                    }
                    proof {
                        assert(cnt(p, j + 1) == cnt(p, j) + (if p(j) {
                            1nat
                        } else {
                            0nat
                        }));
                    }
                }
                i = i + 1;
            }
            proof {
                assert(t@.len() == n_imp(*m, k));
            }
            (t, c)
        },
    }
}

/// Extend one kind's table with the module-defined half, driven by the
/// given section bitset.
fn section_half(
    m: &Module,
    a: &Analysis,
    k: ImpKind,
    half: (Vec<u32>, u32),
    bits: &Vec<bool>,
    Ghost(gbits): Ghost<Seq<bool>>,
) -> (t: Vec<u32>)
    requires
        wf_core(*m),
        a_wf(*m, *a),
        half.0@.len() == n_imp(*m, k),
        half.1 == cnt(kpred(*m, *a, k), n_imp(*m, k) as int),
        half.1 <= half.0@.len(),
        forall|x: int|
            0 <= x < half.0@.len() ==> #[trigger] half.0@[x] == (if kpred(*m, *a, k)(x) {
                cnt(kpred(*m, *a, k), x) as u32
            } else {
                0xffff_ffffu32
            }),
        bits@ == gbits,
        n_imp(*m, k) + bits@.len() == n_flat(*m, k),
        forall|x: int|
            0 <= x < bits@.len() ==> kpred(*m, *a, k)(n_imp(*m, k) + x) == #[trigger] gbits[x],
    ensures
        table_wf(t@, kpred(*m, *a, k), n_flat(*m, k)),
{
    let mut t = half.0;
    let mut c = half.1;
    let ghost p = kpred(*m, *a, k);
    let ghost nim = n_imp(*m, k) as int;
    let mut i: usize = 0;
    while i < bits.len()
        invariant
            wf_core(*m),
            a_wf(*m, *a),
            p == kpred(*m, *a, k),
            nim == n_imp(*m, k) as int,
            bits@ == gbits,
            nim + bits@.len() == n_flat(*m, k),
            forall|x: int| 0 <= x < bits@.len() ==> p(nim + x) == #[trigger] gbits[x],
            0 <= i <= bits.len(),
            t@.len() == nim + i,
            c == cnt(p, t@.len() as int),
            c <= t@.len(),
            forall|x: int|
                0 <= x < t@.len() ==> #[trigger] t@[x] == (if p(x) {
                    cnt(p, x) as u32
                } else {
                    0xffff_ffffu32
                }),
        decreases bits.len() - i,
    {
        let ghost j = t@.len() as int;
        proof {
            assert(p(j) == gbits[i as int]);
        }
        if bits[i] {
            t.push(c);
            c = c + 1;
        } else {
            t.push(0xffff_ffff);
        }
        proof {
            assert(cnt(p, j + 1) == cnt(p, j) + (if p(j) {
                1nat
            } else {
                0nat
            }));
        }
        i = i + 1;
    }
    t
}

/// Build all five remap tables from the analysis.
pub fn build_tables(m: &Module, a: &Analysis) -> (rt: RemapTables)
    requires
        wf_core(*m),
        a_wf(*m, *a),
    ensures
        rt_wf(*m, *a, rt),
{
    // types: no import prefix
    let ghost tp = tpred(*a);
    let mut tt: Vec<u32> = Vec::new();
    let mut c: u32 = 0;
    let n_types: usize = match &m.types {
        Some(v) => v.len(),
        None => 0,
    };
    let mut i: usize = 0;
    while i < n_types
        invariant
            wf_core(*m),
            a_wf(*m, *a),
            tp == tpred(*a),
            n_types == types_of(*m).len(),
            0 <= i <= n_types,
            tt@.len() == i,
            c == cnt(tp, i as int),
            c <= i,
            forall|x: int|
                0 <= x < i ==> #[trigger] tt@[x] == (if tp(x) {
                    cnt(tp, x) as u32
                } else {
                    0xffff_ffffu32
                }),
        decreases n_types - i,
    {
        proof {
            assert(tp(i as int) == a.types@[i as int]);
        }
        if a.types[i] {
            tt.push(c);
            c = c + 1;
        } else {
            tt.push(0xffff_ffff);
        }
        i = i + 1;
    }

    let hf = import_half(m, a, ImpKind::Func);
    proof {
        assert forall|x: int| 0 <= x < a.codes@.len() implies kpred(*m, *a, ImpKind::Func)(
            n_imp(*m, ImpKind::Func) + x,
        ) == #[trigger] a.codes@[x] by {
            assert(resolve_kind(*m, ImpKind::Func, n_imp(*m, ImpKind::Func) + x) == Ent::Code(
                x as u32,
            ));
        }
    }
    let functions = section_half(m, a, ImpKind::Func, hf, &a.codes, Ghost(a.codes@));

    let ht = import_half(m, a, ImpKind::Table);
    proof {
        assert forall|x: int| 0 <= x < a.tables@.len() implies kpred(*m, *a, ImpKind::Table)(
            n_imp(*m, ImpKind::Table) + x,
        ) == #[trigger] a.tables@[x] by {
            assert(resolve_kind(*m, ImpKind::Table, n_imp(*m, ImpKind::Table) + x) == Ent::TblL(
                x as u32,
            ));
        }
    }
    let tables = section_half(m, a, ImpKind::Table, ht, &a.tables, Ghost(a.tables@));

    let hm = import_half(m, a, ImpKind::Mem);
    let empty_mems: Vec<bool> = Vec::new();
    let memories = match &m.memories {
        Some(_) => {
            proof {
                assert forall|x: int| 0 <= x < a.mems@.len() implies kpred(*m, *a, ImpKind::Mem)(
                    n_imp(*m, ImpKind::Mem) + x,
                ) == #[trigger] a.mems@[x] by {
                    assert(resolve_kind(*m, ImpKind::Mem, n_imp(*m, ImpKind::Mem) + x) == Ent::Mem(
                        x as u32,
                    ));
                }
                assert(a.mems@.len() == mem_space(*m));
                assert(mem_space(*m) == mems_of(*m).len());
            }
            section_half(m, a, ImpKind::Mem, hm, &a.mems, Ghost(a.mems@))
        },
        None => {
            proof {
                assert(mems_of(*m).len() == 0);
                assert(n_imp(*m, ImpKind::Mem) + empty_mems@.len() == n_flat(*m, ImpKind::Mem));
            }
            section_half(m, a, ImpKind::Mem, hm, &empty_mems, Ghost(empty_mems@))
        },
    };

    let hg = import_half(m, a, ImpKind::Global);
    proof {
        assert forall|x: int| 0 <= x < a.globals@.len() implies kpred(*m, *a, ImpKind::Global)(
            n_imp(*m, ImpKind::Global) + x,
        ) == #[trigger] a.globals@[x] by {
            assert(resolve_kind(*m, ImpKind::Global, n_imp(*m, ImpKind::Global) + x) == Ent::GlbL(
                x as u32,
            ));
        }
    }
    let globals = section_half(m, a, ImpKind::Global, hg, &a.globals, Ghost(a.globals@));

    RemapTables { types: tt, functions, tables, memories, globals }
}

// ---------------------------------------------------------------------
// Index lookups.  Liveness of the index (membership in the analysis)
// is a precondition, so the sentinel provably never escapes.
// ---------------------------------------------------------------------

/// A live memory index resolves to a live slot of the memory table:
/// either the module has no imported memory and the slot was marked
/// directly, or the single imported memory is a root.
pub proof fn lemma_mem_live(m: Module, a: Analysis, x: int)
    requires
        wf_core(m),
        roots_in(m, aset(a)),
        crate::module::mem_exists(m, x),
        in_a(a, Ent::Mem(x as u32)),
        0 <= x,
    ensures
        kpred(m, a, ImpKind::Mem)(x),
        0 <= x < n_flat(m, ImpKind::Mem),
{
    if crate::module::has_mem_import(m) {
        let i = choose|i: int|
            0 <= i < imps_of(m).len() && kind_of(#[trigger] imps_of(m)[i]) == ImpKind::Mem;
        lemma_cnt_lt(kind_at(imps_of(m), ImpKind::Mem), i, imps_of(m).len() as int);
        assert(n_imp(m, ImpKind::Mem) > 0);
        assert(mems_of(m).len() == 0);
        assert(x == 0);
        crate::module::lemma_flat_of(imps_of(m), ImpKind::Mem, 0);
        let p = flat_of(imps_of(m), ImpKind::Mem, 0);
        assert(root_of(m, Ent::Imp(p as u32))) by {
            assert(kind_of(imps_of(m)[p]) == ImpKind::Mem);
        }
        assert(aset(a).contains(Ent::Imp(p as u32)));
    } else {
        assert(n_imp(m, ImpKind::Mem) == 0) by {
            if icnt(imps_of(m), ImpKind::Mem, imps_of(m).len() as int) > 0 {
                crate::util::lemma_cnt_pos(
                    kind_at(imps_of(m), ImpKind::Mem),
                    imps_of(m).len() as int,
                );
            }
        }
        assert(resolve_kind(m, ImpKind::Mem, x) == Ent::Mem(x as u32));
    }
}

fn lookup_type(rt: &RemapTables, Ghost(m): Ghost<Module>, Ghost(a): Ghost<Analysis>, t: u32) -> (r:
    u32)
    requires
        rt_wf(m, a, *rt),
        (t as int) < types_of(m).len(),
        in_a(a, Ent::Ty(t)),
    ensures
        r == tnew(a, t as int),
{
    proof {
        assert(tpred(a)(t as int));
    }
    rt.types[t as usize]
}

fn lookup_flat(
    rt: &RemapTables,
    Ghost(m): Ghost<Module>,
    Ghost(a): Ghost<Analysis>,
    k: ImpKind,
    x: u32,
) -> (r: u32)
    requires
        rt_wf(m, a, *rt),
        (x as int) < n_flat(m, k),
        kpred(m, a, k)(x as int),
    ensures
        r == knew(m, a, k, x as int),
{
    match k {
        ImpKind::Func => rt.functions[x as usize],
        ImpKind::Table => rt.tables[x as usize],
        ImpKind::Mem => rt.memories[x as usize],
        ImpKind::Global => rt.globals[x as usize],
    }
}

/// How one instruction is rewritten: each carried index through its
/// space's table, everything else untouched.
pub open spec fn instr_rw(m: Module, a: Analysis, i: Instr) -> Instr {
    match i {
        Instr::Call(f) => Instr::Call(knew(m, a, ImpKind::Func, f as int)),
        Instr::CallIndirect(t) => Instr::CallIndirect(tnew(a, t as int)),
        Instr::GetGlobal(g) => Instr::GetGlobal(knew(m, a, ImpKind::Global, g as int)),
        Instr::SetGlobal(g) => Instr::SetGlobal(knew(m, a, ImpKind::Global, g as int)),
        _ => i,
    }
}

/// Whatever an instruction references is marked.
pub open spec fn instr_live(m: Module, a: Analysis, i: Instr) -> bool {
    match instr_ent(m, i) {
        Some(en) => in_a(a, en),
        None => true,
    }
}

pub open spec fn instrs_live(m: Module, a: Analysis, s: Seq<Instr>) -> bool {
    forall|j: int| 0 <= j < s.len() ==> instr_live(m, a, #[trigger] s[j])
}

fn remap_instr(
    rt: &RemapTables,
    Ghost(m): Ghost<Module>,
    Ghost(a): Ghost<Analysis>,
    ins: &Instr,
) -> (r: Instr)
    requires
        rt_wf(m, a, *rt),
        crate::module::instr_wf(m, *ins),
        instr_live(m, a, *ins),
    ensures
        r == instr_rw(m, a, *ins),
{
    match ins {
        Instr::Call(f) => {
            proof {
                assert(resolve_kind(m, ImpKind::Func, *f as int) == resolve_func(m, *f as int));
            }
            Instr::Call(lookup_flat(rt, Ghost(m), Ghost(a), ImpKind::Func, *f))
        },
        Instr::CallIndirect(t) => Instr::CallIndirect(lookup_type(rt, Ghost(m), Ghost(a), *t)),
        Instr::GetGlobal(g) => {
            proof {
                assert(resolve_kind(m, ImpKind::Global, *g as int) == resolve_global(
                    m,
                    *g as int,
                ));
            }
            Instr::GetGlobal(lookup_flat(rt, Ghost(m), Ghost(a), ImpKind::Global, *g))
        },
        Instr::SetGlobal(g) => {
            proof {
                assert(resolve_kind(m, ImpKind::Global, *g as int) == resolve_global(
                    m,
                    *g as int,
                ));
            }
            Instr::SetGlobal(lookup_flat(rt, Ghost(m), Ghost(a), ImpKind::Global, *g))
        },
        Instr::Block(b) => Instr::Block(*b),
        Instr::Loop(b) => Instr::Loop(*b),
        Instr::If(b) => Instr::If(*b),
        Instr::Other => Instr::Other,
    }
}

pub open spec fn instrs_rw_rel(m: Module, a: Analysis, xs: Seq<Instr>, ys: Seq<Instr>) -> bool {
    &&& ys.len() == xs.len()
    &&& forall|j: int| 0 <= j < xs.len() ==> ys[j] == instr_rw(m, a, #[trigger] xs[j])
}

fn rewrite_instrs(
    rt: &RemapTables,
    Ghost(m): Ghost<Module>,
    Ghost(a): Ghost<Analysis>,
    v: &Vec<Instr>,
) -> (r: Vec<Instr>)
    requires
        rt_wf(m, a, *rt),
        crate::module::instrs_wf(m, v@),
        instrs_live(m, a, v@),
    ensures
        instrs_rw_rel(m, a, v@, r@),
{
    let mut r: Vec<Instr> = Vec::new();
    let mut j: usize = 0;
    while j < v.len()
        invariant
            rt_wf(m, a, *rt),
            crate::module::instrs_wf(m, v@),
            instrs_live(m, a, v@),
            0 <= j <= v.len(),
            r@.len() == j,
            forall|j2: int| 0 <= j2 < j ==> r@[j2] == instr_rw(m, a, #[trigger] v@[j2]),
        decreases v.len() - j,
    {
        let ri = remap_instr(rt, Ghost(m), Ghost(a), &v[j]);
        r.push(ri);
        j = j + 1;
    }
    r
}

// ---------------------------------------------------------------------
// Per-section output relations and rewriters.
// ---------------------------------------------------------------------

pub open spec fn functype_like(x: FuncType, y: FuncType) -> bool {
    y.params@ == x.params@ && y.ret == x.ret
}

pub open spec fn types_out(m: Module, a: Analysis, s: Seq<FuncType>) -> bool {
    &&& s.len() == cnt(tpred(a), types_of(m).len() as int)
    &&& forall|k: int|
        0 <= k < s.len() ==> functype_like(
            types_of(m)[kept(tpred(a), types_of(m).len() as int)[k]],
            #[trigger] s[k],
        )
}

pub open spec fn ipred(a: Analysis) -> spec_fn(int) -> bool {
    |i: int| in_a(a, Ent::Imp(i as u32))
}

pub open spec fn import_like(m: Module, a: Analysis, x: ImportEntry, y: ImportEntry) -> bool {
    &&& y.module@ == x.module@
    &&& y.field@ == x.field@
    &&& (match x.external {
        ImportRef::Function(sig) => y.external == ImportRef::Function(tnew(a, sig as int)),
        _ => y.external == x.external,
    })
}

pub open spec fn imports_out(m: Module, a: Analysis, s: Seq<ImportEntry>) -> bool {
    &&& s.len() == cnt(ipred(a), imps_of(m).len() as int)
    &&& forall|k: int|
        0 <= k < s.len() ==> import_like(
            m,
            a,
            imps_of(m)[kept(ipred(a), imps_of(m).len() as int)[k]],
            #[trigger] s[k],
        )
}

pub open spec fn cpred(a: Analysis) -> spec_fn(int) -> bool {
    |c: int| in_a(a, Ent::Code(c as u32))
}

pub open spec fn funcs_out(m: Module, a: Analysis, s: Seq<u32>) -> bool {
    &&& s.len() == cnt(cpred(a), funcs_of(m).len() as int)
    &&& forall|k: int|
        0 <= k < s.len() ==> #[trigger] s[k] == tnew(
            a,
            funcs_of(m)[kept(cpred(a), funcs_of(m).len() as int)[k]] as int,
        )
}

pub open spec fn tlpred(a: Analysis) -> spec_fn(int) -> bool {
    |t: int| in_a(a, Ent::TblL(t as u32))
}

pub open spec fn tables_out(m: Module, a: Analysis, s: Seq<TableEntry>) -> bool {
    &&& s.len() == cnt(tlpred(a), tables_of(m).len() as int)
    &&& forall|k: int|
        0 <= k < s.len() ==> #[trigger] s[k] == tables_of(m)[kept(
            tlpred(a),
            tables_of(m).len() as int,
        )[k]]
}

pub open spec fn mpred(a: Analysis) -> spec_fn(int) -> bool {
    |i: int| in_a(a, Ent::Mem(i as u32))
}

pub open spec fn mems_out(m: Module, a: Analysis, s: Seq<MemoryEntry>) -> bool {
    &&& s.len() == cnt(mpred(a), mems_of(m).len() as int)
    &&& forall|k: int|
        0 <= k < s.len() ==> #[trigger] s[k] == mems_of(m)[kept(
            mpred(a),
            mems_of(m).len() as int,
        )[k]]
}

pub open spec fn gpred(a: Analysis) -> spec_fn(int) -> bool {
    |g: int| in_a(a, Ent::GlbL(g as u32))
}

pub open spec fn global_like(m: Module, a: Analysis, x: GlobalEntry, y: GlobalEntry) -> bool {
    &&& y.content == x.content
    &&& y.mutable == x.mutable
    &&& instrs_rw_rel(m, a, x.init@, y.init@)
}

pub open spec fn globals_out(m: Module, a: Analysis, s: Seq<GlobalEntry>) -> bool {
    &&& s.len() == cnt(gpred(a), globals_of(m).len() as int)
    &&& forall|k: int|
        0 <= k < s.len() ==> global_like(
            m,
            a,
            globals_of(m)[kept(gpred(a), globals_of(m).len() as int)[k]],
            #[trigger] s[k],
        )
}

pub open spec fn epred(a: Analysis) -> spec_fn(int) -> bool {
    |e: int| in_a(a, Ent::Exp(e as u32))
}

pub open spec fn rw_export_ref(m: Module, a: Analysis, r: ExportRef) -> ExportRef {
    match r {
        ExportRef::Function(f) => ExportRef::Function(knew(m, a, ImpKind::Func, f as int)),
        ExportRef::Table(t) => ExportRef::Table(knew(m, a, ImpKind::Table, t as int)),
        ExportRef::Memory(i) => ExportRef::Memory(knew(m, a, ImpKind::Mem, i as int)),
        ExportRef::Global(g) => ExportRef::Global(knew(m, a, ImpKind::Global, g as int)),
    }
}

pub open spec fn export_like(m: Module, a: Analysis, x: ExportEntry, y: ExportEntry) -> bool {
    &&& y.field@ == x.field@
    &&& y.internal == rw_export_ref(m, a, x.internal)
}

pub open spec fn exports_out(m: Module, a: Analysis, s: Seq<ExportEntry>) -> bool {
    &&& s.len() == cnt(epred(a), exports_of(m).len() as int)
    &&& forall|k: int|
        0 <= k < s.len() ==> export_like(
            m,
            a,
            exports_of(m)[kept(epred(a), exports_of(m).len() as int)[k]],
            #[trigger] s[k],
        )
}

/// The member-filter predicate of one element segment: positions whose
/// function is live.
pub open spec fn member_pred(m: Module, a: Analysis, xs: Seq<u32>) -> spec_fn(int) -> bool {
    |j: int| 0 <= j < xs.len() && kpred(m, a, ImpKind::Func)(xs[j] as int)
}

pub open spec fn members_out(m: Module, a: Analysis, xs: Seq<u32>, ys: Seq<u32>) -> bool {
    &&& ys.len() == cnt(member_pred(m, a, xs), xs.len() as int)
    &&& forall|k: int|
        0 <= k < ys.len() ==> #[trigger] ys[k] == knew(
            m,
            a,
            ImpKind::Func,
            xs[kept(member_pred(m, a, xs), xs.len() as int)[k]] as int,
        )
}

pub open spec fn elem_like(m: Module, a: Analysis, x: ElementSegment, y: ElementSegment) -> bool {
    &&& y.table_index == knew(m, a, ImpKind::Table, x.table_index as int)
    &&& instrs_rw_rel(m, a, x.offset@, y.offset@)
    &&& members_out(m, a, x.members@, y.members@)
}

pub open spec fn body_like(m: Module, a: Analysis, x: FuncBody, y: FuncBody) -> bool {
    &&& y.locals@ == x.locals@
    &&& instrs_rw_rel(m, a, x.code@, y.code@)
}

pub open spec fn code_out(m: Module, a: Analysis, s: Seq<FuncBody>) -> bool {
    &&& s.len() == cnt(cpred(a), code_of(m).len() as int)
    &&& forall|k: int|
        0 <= k < s.len() ==> body_like(
            m,
            a,
            code_of(m)[kept(cpred(a), code_of(m).len() as int)[k]],
            #[trigger] s[k],
        )
}

pub open spec fn data_like(m: Module, a: Analysis, x: DataSegment, y: DataSegment) -> bool {
    &&& y.memory_index == knew(m, a, ImpKind::Mem, x.memory_index as int)
    &&& instrs_rw_rel(m, a, x.offset@, y.offset@)
    &&& y.data@ == x.data@
}

/// The analysis is trustworthy for rewriting: closed under edges, above
/// the roots, and within bounds.
pub open spec fn a_ok(m: Module, a: Analysis) -> bool {
    &&& a_wf(m, a)
    &&& closed(m, aset(a))
    &&& roots_in(m, aset(a))
    &&& forall|x: Ent| #[trigger] in_a(a, x) ==> crate::reach::ent_in_range(m, x)
}

// ---------------------------------------------------------------------
// Executable rewriters, one per section.
// ---------------------------------------------------------------------

fn copy_valtypes(v: &Vec<crate::module::ValType>) -> (r: Vec<crate::module::ValType>)
    ensures
        r@ == v@,
{
    let mut r: Vec<crate::module::ValType> = Vec::new();
    let mut i: usize = 0;
    while i < v.len()
        invariant
            0 <= i <= v.len(),
            r@ == v@.subrange(0, i as int),
        decreases v.len() - i,
    {
        r.push(v[i]);
        proof {
            assert(r@ =~= v@.subrange(0, i + 1 as int));
        }
        i = i + 1;
    }
    proof {
        assert(r@ =~= v@);
    }
    r
}

fn copy_locals(v: &Vec<Local>) -> (r: Vec<Local>)
    ensures
        r@ == v@,
{
    let mut r: Vec<Local> = Vec::new();
    let mut i: usize = 0;
    while i < v.len()
        invariant
            0 <= i <= v.len(),
            r@ == v@.subrange(0, i as int),
        decreases v.len() - i,
    {
        r.push(v[i]);
        proof {
            assert(r@ =~= v@.subrange(0, i + 1 as int));
        }
        i = i + 1;
    }
    proof {
        assert(r@ =~= v@);
    }
    r
}

pub fn copy_bytes(v: &Vec<u8>) -> (r: Vec<u8>)
    ensures
        r@ == v@,
{
    let mut r: Vec<u8> = Vec::new();
    let mut i: usize = 0;
    while i < v.len()
        invariant
            0 <= i <= v.len(),
            r@ == v@.subrange(0, i as int),
        decreases v.len() - i,
    {
        r.push(v[i]);
        proof {
            assert(r@ =~= v@.subrange(0, i + 1 as int));
        }
        i = i + 1;
    }
    proof {
        assert(r@ =~= v@);
    }
    r
}

fn rewrite_types(m: &Module, a: &Analysis) -> (out: Option<Vec<FuncType>>)
    requires
        wf_core(*m),
        a_ok(*m, *a),
    ensures
        match out {
            Some(v) => types_out(*m, *a, v@) && v@.len() > 0,
            None => cnt(tpred(*a), types_of(*m).len() as int) == 0,
        },
{
    let ghost p = tpred(*a);
    match &m.types {
        None => None,
        Some(v) => {
            let mut r: Vec<FuncType> = Vec::new();
            let mut i: usize = 0;
            while i < v.len()
                invariant
                    wf_core(*m),
                    a_ok(*m, *a),
                    types_of(*m) == v@,
                    p == tpred(*a),
                    0 <= i <= v.len(),
                    r@.len() == cnt(p, i as int),
                    forall|k: int|
                        0 <= k < r@.len() ==> functype_like(
                            types_of(*m)[kept(p, i as int)[k]],
                            #[trigger] r@[k],
                        ),
                decreases v.len() - i,
            {
                proof {
                    crate::util::lemma_kept_step(p, i as int);
                    assert(p(i as int) == a.types@[i as int]);
                }
                if a.types[i] {
                    let ft = FuncType { params: copy_valtypes(&v[i].params), ret: v[i].ret };
                    r.push(ft);
                    proof {
                        crate::util::lemma_kept_len(p, i as int);
                    }
                }
                i = i + 1;
            }
            if r.len() > 0 {
                Some(r)
            } else {
                None
            }
        },
    }
}

fn rewrite_imports(m: &Module, a: &Analysis, rt: &RemapTables) -> (out: Option<Vec<ImportEntry>>)
    requires
        wf_core(*m),
        a_ok(*m, *a),
        rt_wf(*m, *a, *rt),
    ensures
        match out {
            Some(v) => imports_out(*m, *a, v@) && v@.len() > 0,
            None => cnt(ipred(*a), imps_of(*m).len() as int) == 0,
        },
{
    let ghost p = ipred(*a);
    match &m.imports {
        None => None,
        Some(v) => {
            let mut r: Vec<ImportEntry> = Vec::new();
            let mut i: usize = 0;
            while i < v.len()
                invariant
                    wf_core(*m),
                    a_ok(*m, *a),
                    rt_wf(*m, *a, *rt),
                    imps_of(*m) == v@,
                    p == ipred(*a),
                    0 <= i <= v.len(),
                    r@.len() == cnt(p, i as int),
                    forall|k: int|
                        0 <= k < r@.len() ==> import_like(
                            *m,
                            *a,
                            imps_of(*m)[kept(p, i as int)[k]],
                            #[trigger] r@[k],
                        ),
                decreases v.len() - i,
            {
                proof {
                    crate::util::lemma_kept_step(p, i as int);
                    assert(p(i as int) == a.imports@[i as int]);
                }
                if a.imports[i] {
                    let ext = match &v[i].external {
                        ImportRef::Function(sig) => {
                            proof {
                                assert(aset(*a).contains(Ent::Imp(i as u32)));
                                assert(succ_of(*m, Ent::Imp(i as u32), Ent::Ty(*sig)));
                                assert(aset(*a).contains(Ent::Ty(*sig)));
                            }
                            ImportRef::Function(lookup_type(rt, Ghost(*m), Ghost(*a), *sig))
                        },
                        ImportRef::Table => ImportRef::Table,
                        ImportRef::Memory => ImportRef::Memory,
                        ImportRef::Global => ImportRef::Global,
                    };
                    let e = ImportEntry {
                        module: v[i].module.clone(),
                        field: v[i].field.clone(),
                        external: ext,
                    };
                    r.push(e);
                    proof {
                        crate::util::lemma_kept_len(p, i as int);
                    }
                }
                i = i + 1;
            }
            if r.len() > 0 {
                Some(r)
            } else {
                None
            }
        },
    }
}

fn rewrite_funcs(m: &Module, a: &Analysis, rt: &RemapTables) -> (out: Option<Vec<u32>>)
    requires
        wf_core(*m),
        a_ok(*m, *a),
        rt_wf(*m, *a, *rt),
    ensures
        match out {
            Some(v) => funcs_out(*m, *a, v@) && v@.len() > 0,
            None => cnt(cpred(*a), funcs_of(*m).len() as int) == 0,
        },
{
    let ghost p = cpred(*a);
    match &m.funcs {
        None => None,
        Some(v) => {
            let mut r: Vec<u32> = Vec::new();
            let mut i: usize = 0;
            while i < v.len()
                invariant
                    wf_core(*m),
                    a_ok(*m, *a),
                    rt_wf(*m, *a, *rt),
                    funcs_of(*m) == v@,
                    p == cpred(*a),
                    0 <= i <= v.len(),
                    r@.len() == cnt(p, i as int),
                    forall|k: int|
                        0 <= k < r@.len() ==> #[trigger] r@[k] == tnew(
                            *a,
                            funcs_of(*m)[kept(p, i as int)[k]] as int,
                        ),
                decreases v.len() - i,
            {
                proof {
                    crate::util::lemma_kept_step(p, i as int);
                    assert(p(i as int) == a.codes@[i as int]);
                }
                if a.codes[i] {
                    proof {
                        assert(aset(*a).contains(Ent::Code(i as u32)));
                        assert(succ_of(*m, Ent::Code(i as u32), Ent::Ty(funcs_of(*m)[i as int])));
                        assert(aset(*a).contains(Ent::Ty(funcs_of(*m)[i as int])));
                    }
                    let ni = lookup_type(rt, Ghost(*m), Ghost(*a), v[i]);
                    r.push(ni);
                    proof {
                        crate::util::lemma_kept_len(p, i as int);
                    }
                }
                i = i + 1;
            }
            if r.len() > 0 {
                Some(r)
            } else {
                None
            }
        },
    }
}

fn rewrite_tables(m: &Module, a: &Analysis) -> (out: Option<Vec<TableEntry>>)
    requires
        wf_core(*m),
        a_ok(*m, *a),
    ensures
        match out {
            Some(v) => tables_out(*m, *a, v@) && v@.len() > 0,
            None => cnt(tlpred(*a), tables_of(*m).len() as int) == 0,
        },
{
    let ghost p = tlpred(*a);
    match &m.tables {
        None => None,
        Some(v) => {
            let mut r: Vec<TableEntry> = Vec::new();
            let mut i: usize = 0;
            while i < v.len()
                invariant
                    wf_core(*m),
                    a_ok(*m, *a),
                    tables_of(*m) == v@,
                    p == tlpred(*a),
                    0 <= i <= v.len(),
                    r@.len() == cnt(p, i as int),
                    forall|k: int|
                        0 <= k < r@.len() ==> #[trigger] r@[k] == tables_of(*m)[kept(
                            p,
                            i as int,
                        )[k]],
                decreases v.len() - i,
            {
                proof {
                    crate::util::lemma_kept_step(p, i as int);
                    assert(p(i as int) == a.tables@[i as int]);
                }
                if a.tables[i] {
                    r.push(v[i]);
                    proof {
                        crate::util::lemma_kept_len(p, i as int);
                    }
                }
                i = i + 1;
            }
            if r.len() > 0 {
                Some(r)
            } else {
                None
            }
        },
    }
}

fn rewrite_memories(m: &Module, a: &Analysis) -> (out: Option<Vec<MemoryEntry>>)
    requires
        wf_core(*m),
        a_ok(*m, *a),
    ensures
        match out {
            Some(v) => mems_out(*m, *a, v@) && v@.len() > 0,
            None => cnt(mpred(*a), mems_of(*m).len() as int) == 0,
        },
{
    let ghost p = mpred(*a);
    match &m.memories {
        None => None,
        Some(v) => {
            let mut r: Vec<MemoryEntry> = Vec::new();
            let mut i: usize = 0;
            while i < v.len()
                invariant
                    wf_core(*m),
                    a_ok(*m, *a),
                    mems_of(*m) == v@,
                    mem_space(*m) == v@.len(),
                    p == mpred(*a),
                    0 <= i <= v.len(),
                    r@.len() == cnt(p, i as int),
                    forall|k: int|
                        0 <= k < r@.len() ==> #[trigger] r@[k] == mems_of(*m)[kept(p, i as int)[k]],
                decreases v.len() - i,
            {
                proof {
                    crate::util::lemma_kept_step(p, i as int);
                    assert(p(i as int) == a.mems@[i as int]);
                }
                if a.mems[i] {
                    r.push(v[i]);
                    proof {
                        crate::util::lemma_kept_len(p, i as int);
                    }
                }
                i = i + 1;
            }
            if r.len() > 0 {
                Some(r)
            } else {
                None
            }
        },
    }
}

fn rewrite_globals(m: &Module, a: &Analysis, rt: &RemapTables) -> (out: Option<Vec<GlobalEntry>>)
    requires
        wf_core(*m),
        a_ok(*m, *a),
        rt_wf(*m, *a, *rt),
    ensures
        match out {
            Some(v) => globals_out(*m, *a, v@) && v@.len() > 0,
            None => cnt(gpred(*a), globals_of(*m).len() as int) == 0,
        },
{
    let ghost p = gpred(*a);
    match &m.globals {
        None => None,
        Some(v) => {
            let mut r: Vec<GlobalEntry> = Vec::new();
            let mut i: usize = 0;
            while i < v.len()
                invariant
                    wf_core(*m),
                    a_ok(*m, *a),
                    rt_wf(*m, *a, *rt),
                    globals_of(*m) == v@,
                    p == gpred(*a),
                    0 <= i <= v.len(),
                    r@.len() == cnt(p, i as int),
                    forall|k: int|
                        0 <= k < r@.len() ==> global_like(
                            *m,
                            *a,
                            globals_of(*m)[kept(p, i as int)[k]],
                            #[trigger] r@[k],
                        ),
                decreases v.len() - i,
            {
                proof {
                    crate::util::lemma_kept_step(p, i as int);
                    assert(p(i as int) == a.globals@[i as int]);
                }
                if a.globals[i] {
                    proof {
                        assert(aset(*a).contains(Ent::GlbL(i as u32)));
                        assert forall|j: int| 0 <= j < globals_of(*m)[i as int].init@.len() implies
                            instr_live(*m, *a, #[trigger] globals_of(*m)[i as int].init@[j]) by {
                            match instr_ent(*m, globals_of(*m)[i as int].init@[j]) {
                                Some(en) => {
                                    assert(crate::reach::instrs_ref(
                                        *m,
                                        globals_of(*m)[i as int].init@,
                                        en,
                                    ));
                                    assert(succ_of(*m, Ent::GlbL(i as u32), en));
                                    assert(aset(*a).contains(en));
                                },
                                None => {},
                            }
                        }
                        assert(crate::module::instrs_wf(*m, globals_of(*m)[i as int].init@));
                    }
                    let init = rewrite_instrs(rt, Ghost(*m), Ghost(*a), &v[i].init);
                    let g = GlobalEntry { content: v[i].content, mutable: v[i].mutable, init };
                    r.push(g);
                    proof {
                        crate::util::lemma_kept_len(p, i as int);
                    }
                }
                i = i + 1;
            }
            if r.len() > 0 {
                Some(r)
            } else {
                None
            }
        },
    }
}

fn rewrite_exports(m: &Module, a: &Analysis, rt: &RemapTables) -> (out: Option<Vec<ExportEntry>>)
    requires
        wf_core(*m),
        a_ok(*m, *a),
        rt_wf(*m, *a, *rt),
    ensures
        match out {
            Some(v) => exports_out(*m, *a, v@) && v@.len() > 0,
            None => cnt(epred(*a), exports_of(*m).len() as int) == 0,
        },
{
    let ghost p = epred(*a);
    match &m.exports {
        None => None,
        Some(v) => {
            let mut r: Vec<ExportEntry> = Vec::new();
            let mut i: usize = 0;
            while i < v.len()
                invariant
                    wf_core(*m),
                    a_ok(*m, *a),
                    rt_wf(*m, *a, *rt),
                    exports_of(*m) == v@,
                    p == epred(*a),
                    0 <= i <= v.len(),
                    r@.len() == cnt(p, i as int),
                    forall|k: int|
                        0 <= k < r@.len() ==> export_like(
                            *m,
                            *a,
                            exports_of(*m)[kept(p, i as int)[k]],
                            #[trigger] r@[k],
                        ),
                decreases v.len() - i,
            {
                proof {
                    crate::util::lemma_kept_step(p, i as int);
                    assert(p(i as int) == a.exports@[i as int]);
                }
                if a.exports[i] {
                    proof {
                        assert(aset(*a).contains(Ent::Exp(i as u32)));
                        assert(succ_of(*m, Ent::Exp(i as u32), target_ent(
                            *m,
                            exports_of(*m)[i as int].internal,
                        )));
                        assert(aset(*a).contains(target_ent(*m, exports_of(*m)[i as int].internal)));
                        assert(crate::module::export_wf(*m, exports_of(*m)[i as int]));
                    }
                    let internal = match &v[i].internal {
                        ExportRef::Function(f) => {
                            proof {
                                assert(resolve_kind(*m, ImpKind::Func, *f as int) == resolve_func(
                                    *m,
                                    *f as int,
                                ));
                            }
                            ExportRef::Function(
                                lookup_flat(rt, Ghost(*m), Ghost(*a), ImpKind::Func, *f),
                            )
                        },
                        ExportRef::Table(t) => {
                            proof {
                                assert(resolve_kind(*m, ImpKind::Table, *t as int) == resolve_table(
                                    *m,
                                    *t as int,
                                ));
                            }
                            ExportRef::Table(
                                lookup_flat(rt, Ghost(*m), Ghost(*a), ImpKind::Table, *t),
                            )
                        },
                        ExportRef::Memory(mi) => {
                            proof {
                                lemma_mem_live(*m, *a, *mi as int);
                            }
                            ExportRef::Memory(
                                lookup_flat(rt, Ghost(*m), Ghost(*a), ImpKind::Mem, *mi),
                            )
                        },
                        ExportRef::Global(g) => {
                            proof {
                                assert(resolve_kind(*m, ImpKind::Global, *g as int)
                                    == resolve_global(*m, *g as int));
                            }
                            ExportRef::Global(
                                lookup_flat(rt, Ghost(*m), Ghost(*a), ImpKind::Global, *g),
                            )
                        },
                    };
                    let e = ExportEntry { field: v[i].field.clone(), internal };
                    r.push(e);
                    proof {
                        crate::util::lemma_kept_len(p, i as int);
                    }
                }
                i = i + 1;
            }
            if r.len() > 0 {
                Some(r)
            } else {
                None
            }
        },
    }
}

fn rewrite_members(m: &Module, a: &Analysis, rt: &RemapTables, xs: &Vec<u32>) -> (ys: Vec<u32>)
    requires
        wf_core(*m),
        a_ok(*m, *a),
        rt_wf(*m, *a, *rt),
        forall|j: int| 0 <= j < xs@.len() ==> (#[trigger] xs@[j] as int) < n_flat(*m, ImpKind::Func),
    ensures
        members_out(*m, *a, xs@, ys@),
{
    let ghost p = member_pred(*m, *a, xs@);
    let mut r: Vec<u32> = Vec::new();
    let mut j: usize = 0;
    while j < xs.len()
        invariant
            wf_core(*m),
            a_ok(*m, *a),
            rt_wf(*m, *a, *rt),
            forall|j2: int|
                0 <= j2 < xs@.len() ==> (#[trigger] xs@[j2] as int) < n_flat(*m, ImpKind::Func),
            p == member_pred(*m, *a, xs@),
            0 <= j <= xs.len(),
            r@.len() == cnt(p, j as int),
            forall|k: int|
                0 <= k < r@.len() ==> #[trigger] r@[k] == knew(
                    *m,
                    *a,
                    ImpKind::Func,
                    xs@[kept(p, j as int)[k]] as int,
                ),
        decreases xs.len() - j,
    {
        proof {
            crate::util::lemma_kept_step(p, j as int);
            lemma_cnt_bound(kpred(*m, *a, ImpKind::Func), xs@[j as int] as int);
        }
        let val = rt.functions[xs[j] as usize];
        if val != 0xffff_ffff {
            r.push(val);
            proof {
                crate::util::lemma_kept_len(p, j as int);
            }
        } else {
            proof {
                assert(!p(j as int));
            }
        }
        j = j + 1;
    }
    r
}

fn rewrite_elements(m: &Module, a: &Analysis, rt: &RemapTables) -> (out: Option<
    Vec<ElementSegment>,
>)
    requires
        wf_core(*m),
        a_ok(*m, *a),
        rt_wf(*m, *a, *rt),
    ensures
        match (m.elements, out) {
            (Some(x), Some(y)) => y@.len() == x@.len() && forall|s2: int|
                0 <= s2 < x@.len() ==> elem_like(*m, *a, x@[s2], #[trigger] y@[s2]),
            (None, None) => true,
            _ => false,
        },
{
    match &m.elements {
        None => None,
        Some(v) => {
            let mut r: Vec<ElementSegment> = Vec::new();
            let mut i: usize = 0;
            while i < v.len()
                invariant
                    wf_core(*m),
                    a_ok(*m, *a),
                    rt_wf(*m, *a, *rt),
                    elements_of(*m) == v@,
                    m.elements == Some(*v),
                    0 <= i <= v.len(),
                    r@.len() == i,
                    forall|s2: int|
                        0 <= s2 < i ==> elem_like(*m, *a, v@[s2], #[trigger] r@[s2]),
                decreases v.len() - i,
            {
                let seg = &v[i];
                proof {
                    assert(crate::module::element_wf(*m, elements_of(*m)[i as int]));
                    // the segment's table and offset references are roots
                    assert(root_of(*m, resolve_table(*m, seg.table_index as int))) by {
                        assert(elements_of(*m)[i as int] == *seg);
                    }
                    assert(aset(*a).contains(resolve_table(*m, seg.table_index as int)));
                    assert(resolve_kind(*m, ImpKind::Table, seg.table_index as int)
                        == resolve_table(*m, seg.table_index as int));
                    assert forall|j: int| 0 <= j < seg.offset@.len() implies instr_live(
                        *m,
                        *a,
                        #[trigger] seg.offset@[j],
                    ) by {
                        match instr_ent(*m, seg.offset@[j]) {
                            Some(en) => {
                                assert(crate::reach::instrs_ref(*m, seg.offset@, en));
                                assert(root_of(*m, en)) by {
                                    assert(elements_of(*m)[i as int] == *seg);
                                }
                                assert(aset(*a).contains(en));
                            },
                            None => {},
                        }
                    }
                }
                let ti = lookup_flat(rt, Ghost(*m), Ghost(*a), ImpKind::Table, seg.table_index);
                let offset = rewrite_instrs(rt, Ghost(*m), Ghost(*a), &seg.offset);
                let members = rewrite_members(m, a, rt, &seg.members);
                let ns = ElementSegment { table_index: ti, offset, members };
                r.push(ns);
                i = i + 1;
            }
            Some(r)
        },
    }
}

fn rewrite_code(m: &Module, a: &Analysis, rt: &RemapTables) -> (out: Option<Vec<FuncBody>>)
    requires
        wf_core(*m),
        a_ok(*m, *a),
        rt_wf(*m, *a, *rt),
    ensures
        match out {
            Some(v) => code_out(*m, *a, v@) && v@.len() > 0,
            None => cnt(cpred(*a), code_of(*m).len() as int) == 0,
        },
{
    let ghost p = cpred(*a);
    match &m.code {
        None => None,
        Some(v) => {
            let mut r: Vec<FuncBody> = Vec::new();
            let mut i: usize = 0;
            while i < v.len()
                invariant
                    wf_core(*m),
                    a_ok(*m, *a),
                    rt_wf(*m, *a, *rt),
                    code_of(*m) == v@,
                    p == cpred(*a),
                    0 <= i <= v.len(),
                    r@.len() == cnt(p, i as int),
                    forall|k: int|
                        0 <= k < r@.len() ==> body_like(
                            *m,
                            *a,
                            code_of(*m)[kept(p, i as int)[k]],
                            #[trigger] r@[k],
                        ),
                decreases v.len() - i,
            {
                proof {
                    crate::util::lemma_kept_step(p, i as int);
                    assert(p(i as int) == a.codes@[i as int]);
                }
                if a.codes[i] {
                    proof {
                        assert(aset(*a).contains(Ent::Code(i as u32)));
                        assert forall|j: int| 0 <= j < code_of(*m)[i as int].code@.len() implies
                            instr_live(*m, *a, #[trigger] code_of(*m)[i as int].code@[j]) by {
                            match instr_ent(*m, code_of(*m)[i as int].code@[j]) {
                                Some(en) => {
                                    assert(crate::reach::instrs_ref(
                                        *m,
                                        code_of(*m)[i as int].code@,
                                        en,
                                    ));
                                    assert(succ_of(*m, Ent::Code(i as u32), en));
                                    assert(aset(*a).contains(en));
                                },
                                None => {},
                            }
                        }
                        assert(crate::module::instrs_wf(*m, code_of(*m)[i as int].code@));
                    }
                    let code = rewrite_instrs(rt, Ghost(*m), Ghost(*a), &v[i].code);
                    let body = FuncBody { locals: copy_locals(&v[i].locals), code };
                    r.push(body);
                    proof {
                        crate::util::lemma_kept_len(p, i as int);
                    }
                }
                i = i + 1;
            }
            if r.len() > 0 {
                Some(r)
            } else {
                None
            }
        },
    }
}

fn rewrite_data(m: &Module, a: &Analysis, rt: &RemapTables) -> (out: Option<Vec<DataSegment>>)
    requires
        wf_core(*m),
        a_ok(*m, *a),
        rt_wf(*m, *a, *rt),
    ensures
        match (m.data, out) {
            (Some(x), Some(y)) => y@.len() == x@.len() && forall|s2: int|
                0 <= s2 < x@.len() ==> data_like(*m, *a, x@[s2], #[trigger] y@[s2]),
            (None, None) => true,
            _ => false,
        },
{
    match &m.data {
        None => None,
        Some(v) => {
            let mut r: Vec<DataSegment> = Vec::new();
            let mut i: usize = 0;
            while i < v.len()
                invariant
                    wf_core(*m),
                    a_ok(*m, *a),
                    rt_wf(*m, *a, *rt),
                    data_of(*m) == v@,
                    m.data == Some(*v),
                    0 <= i <= v.len(),
                    r@.len() == i,
                    forall|s2: int|
                        0 <= s2 < i ==> data_like(*m, *a, v@[s2], #[trigger] r@[s2]),
                decreases v.len() - i,
            {
                let seg = &v[i];
                proof {
                    assert(crate::module::data_wf(*m, data_of(*m)[i as int]));
                    assert(root_of(*m, Ent::Mem(seg.memory_index))) by {
                        assert(data_of(*m)[i as int] == *seg);
                    }
                    assert(aset(*a).contains(Ent::Mem(seg.memory_index)));
                    lemma_mem_live(*m, *a, seg.memory_index as int);
                    assert forall|j: int| 0 <= j < seg.offset@.len() implies instr_live(
                        *m,
                        *a,
                        #[trigger] seg.offset@[j],
                    ) by {
                        match instr_ent(*m, seg.offset@[j]) {
                            Some(en) => {
                                assert(crate::reach::instrs_ref(*m, seg.offset@, en));
                                assert(root_of(*m, en)) by {
                                    assert(data_of(*m)[i as int] == *seg);
                                }
                                assert(aset(*a).contains(en));
                            },
                            None => {},
                        }
                    }
                }
                let mi = lookup_flat(rt, Ghost(*m), Ghost(*a), ImpKind::Mem, seg.memory_index);
                let offset = rewrite_instrs(rt, Ghost(*m), Ghost(*a), &seg.offset);
                let ns = DataSegment { memory_index: mi, offset, data: copy_bytes(&seg.data) };
                r.push(ns);
                i = i + 1;
            }
            Some(r)
        },
    }
}

/// The whole output relation, name section aside: every section of the
/// output is the filtered, renumbered image of the input, and a section
/// that would become empty is removed (element and data sections are
/// retained even when empty).
pub open spec fn gc_rel(m: Module, a: Analysis, out: Module) -> bool {
    &&& (match out.types {
        Some(v) => types_out(m, a, v@) && v@.len() > 0,
        None => cnt(tpred(a), types_of(m).len() as int) == 0,
    })
    &&& (match out.imports {
        Some(v) => imports_out(m, a, v@) && v@.len() > 0,
        None => cnt(ipred(a), imps_of(m).len() as int) == 0,
    })
    &&& (match out.funcs {
        Some(v) => funcs_out(m, a, v@) && v@.len() > 0,
        None => cnt(cpred(a), funcs_of(m).len() as int) == 0,
    })
    &&& (match out.tables {
        Some(v) => tables_out(m, a, v@) && v@.len() > 0,
        None => cnt(tlpred(a), tables_of(m).len() as int) == 0,
    })
    &&& (match out.memories {
        Some(v) => mems_out(m, a, v@) && v@.len() > 0,
        None => cnt(mpred(a), mems_of(m).len() as int) == 0,
    })
    &&& (match out.globals {
        Some(v) => globals_out(m, a, v@) && v@.len() > 0,
        None => cnt(gpred(a), globals_of(m).len() as int) == 0,
    })
    &&& (match out.exports {
        Some(v) => exports_out(m, a, v@) && v@.len() > 0,
        None => cnt(epred(a), exports_of(m).len() as int) == 0,
    })
    &&& out.start == (match m.start {
        Some(f) => Some(knew(m, a, ImpKind::Func, f as int)),
        None => None::<u32>,
    })
    &&& (match (m.elements, out.elements) {
        (Some(x), Some(y)) => y@.len() == x@.len() && forall|s2: int|
            0 <= s2 < x@.len() ==> elem_like(m, a, x@[s2], #[trigger] y@[s2]),
        (None, None) => true,
        _ => false,
    })
    &&& (match out.code {
        Some(v) => code_out(m, a, v@) && v@.len() > 0,
        None => cnt(cpred(a), code_of(m).len() as int) == 0,
    })
    &&& (match (m.data, out.data) {
        (Some(x), Some(y)) => y@.len() == x@.len() && forall|s2: int|
            0 <= s2 < x@.len() ==> data_like(m, a, x@[s2], #[trigger] y@[s2]),
        (None, None) => true,
        _ => false,
    })
}

/// Rewrite every section but the name payload, in place.
pub fn remap_module(m: &mut Module, a: &Analysis, rt: &RemapTables)
    requires
        wf_core(*old(m)),
        a_ok(*old(m), *a),
        rt_wf(*old(m), *a, *rt),
    ensures
        gc_rel(*old(m), *a, *final(m)),
        final(m).name_payload == old(m).name_payload,
{
    let new_types = rewrite_types(m, a);
    let new_imports = rewrite_imports(m, a, rt);
    let new_funcs = rewrite_funcs(m, a, rt);
    let new_tables = rewrite_tables(m, a);
    let new_memories = rewrite_memories(m, a);
    let new_globals = rewrite_globals(m, a, rt);
    let new_exports = rewrite_exports(m, a, rt);
    let new_start = match m.start {
        Some(f) => {
            proof {
                assert(root_of(*old(m), resolve_func(*old(m), f as int)));
                assert(aset(*a).contains(resolve_func(*old(m), f as int)));
                assert(resolve_kind(*old(m), ImpKind::Func, f as int) == resolve_func(
                    *old(m),
                    f as int,
                ));
            }
            Some(lookup_flat(rt, Ghost(*old(m)), Ghost(*a), ImpKind::Func, f))
        },
        None => None,
    };
    let new_elements = rewrite_elements(m, a, rt);
    let new_code = rewrite_code(m, a, rt);
    let new_data = rewrite_data(m, a, rt);
    m.types = new_types;
    m.imports = new_imports;
    m.funcs = new_funcs;
    m.tables = new_tables;
    m.memories = new_memories;
    m.globals = new_globals;
    m.exports = new_exports;
    m.start = new_start;
    m.elements = new_elements;
    m.code = new_code;
    m.data = new_data;
}

} // verus!
