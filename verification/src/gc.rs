//! The pass itself: analyze, renumber, rewrite.

use vstd::prelude::*;
use crate::module::{wf_core, Module};
use crate::names::{
    names_ok, parse_subs, rebuild_name_payload, rebuilt_payload, subs_fit, subs_utf8,
};
use crate::reach::{
    analyze, aset, a_wf, closed, ent_in_range, in_a, reachable, roots_in, Analysis, Ent,
};
use crate::remap::{a_ok, build_tables, gc_rel, remap_module, rt_wf};
use crate::Config;

verus! {

/// The one failure of the pass: the `name` section cannot be rebuilt,
/// because a name is not valid UTF-8 or a rebuilt subsection would
/// overflow its 32-bit length field.
#[derive(Clone, Copy, PartialEq, Eq, Debug)]
pub enum GcError {
    BadNameSection,
}

/// The analysis is exact: marked is reachable, and the marked set is a
/// closed superset of the roots, within bounds.
pub open spec fn exact_analysis(m: Module, a: Analysis) -> bool {
    &&& a_wf(m, a)
    &&& (forall|x: Ent| #[trigger] in_a(a, x) <==> reachable(m, x))
    &&& closed(m, aset(a))
    &&& roots_in(m, aset(a))
    &&& (forall|x: Ent| #[trigger] in_a(a, x) ==> ent_in_range(m, x))
}

/// The output name payload is the rebuilt input payload.
pub open spec fn name_rel(m: Module, a: Analysis, dem: bool, out: Option<Vec<u8>>) -> bool {
    match (m.name_payload, out) {
        (None, None) => true,
        (Some(p), Some(q)) => q@ == rebuilt_payload(m, a, dem, p@, 0),
        _ => false,
    }
}

/// No name is ill-formed UTF-8 and every rebuilt subsection fits its
/// length field; trivially true without a name section.
pub open spec fn names_clean(m: Module, a: Analysis, dem: bool) -> bool {
    match m.name_payload {
        None => true,
        Some(p) => subs_utf8(parse_subs(p@, 0)->Some_0) && subs_fit(
            m,
            a,
            dem,
            parse_subs(p@, 0)->Some_0,
        ),
    }
}

fn check_instrs(Ghost(m): Ghost<Module>, v: &Vec<crate::module::Instr>, nf: u32, nt: u32, ng: u32) -> (r:
    bool)
    requires
        nf as int == crate::module::n_flat_funcs(m),
        nt as int == crate::module::types_of(m).len(),
        ng as int == crate::module::n_flat_globals(m),
    ensures
        r == crate::module::instrs_wf(m, v@),
{
    let mut j: usize = 0;
    while j < v.len()
        invariant
            nf as int == crate::module::n_flat_funcs(m),
            nt as int == crate::module::types_of(m).len(),
            ng as int == crate::module::n_flat_globals(m),
            0 <= j <= v@.len(),
            forall|j2: int| 0 <= j2 < j ==> crate::module::instr_wf(m, #[trigger] v@[j2]),
        decreases v@.len() - j,
    {
        let ok = match &v[j] {
            crate::module::Instr::Call(f) => *f < nf,
            crate::module::Instr::CallIndirect(t) => *t < nt,
            crate::module::Instr::GetGlobal(g) => *g < ng,
            crate::module::Instr::SetGlobal(g) => *g < ng,
            _ => true,
        };
        if !ok {
            proof {
                assert(!crate::module::instr_wf(m, v@[j as int]));
            }
            return false;
        }
        j = j + 1;
    }
    true
}

/// Decide the pass's precondition: the module is structurally sound
/// (`wf_core`) and its `name` payload, if any, parses with known tags
/// and in-range function indices (`names_ok`).
pub fn check_module(m: &Module) -> (r: bool)
    ensures
        r == (wf_core(*m) && names_ok(*m)),
{
    let ghost gm = *m;
    // space sizes must fit well below the sentinel
    let nty: usize = match &m.types {
        Some(v) => v.len(),
        None => 0,
    };
    let nimps: usize = match &m.imports {
        Some(v) => v.len(),
        None => 0,
    };
    let nexp: usize = match &m.exports {
        Some(v) => v.len(),
        None => 0,
    };
    let nfuncs: usize = match &m.funcs {
        Some(v) => v.len(),
        None => 0,
    };
    let ntbl: usize = match &m.tables {
        Some(v) => v.len(),
        None => 0,
    };
    let nmem: usize = match &m.memories {
        Some(v) => v.len(),
        None => 0,
    };
    let nglb: usize = match &m.globals {
        Some(v) => v.len(),
        None => 0,
    };
    let ncode: usize = match &m.code {
        Some(v) => v.len(),
        None => 0,
    };
    if (nimps as u64) >= 0xffff_ffff {
        return false;
    }
    let nif = crate::module::count_imports(m, crate::module::ImpKind::Func);
    let nit = crate::module::count_imports(m, crate::module::ImpKind::Table);
    let nim = crate::module::count_imports(m, crate::module::ImpKind::Mem);
    let nig = crate::module::count_imports(m, crate::module::ImpKind::Global);
    if (nty as u64) >= 0xffff_ffff || (nexp as u64) >= 0xffff_ffff || (nfuncs as u64)
        >= 0xffff_ffff || (ntbl as u64) >= 0xffff_ffff || (nglb as u64) >= 0xffff_ffff || (
    nmem as u64) >= 0xffff_ffff {
        return false;
    }
    if (nif as u64) + (nfuncs as u64) >= 0xffff_ffff || (nit as u64) + (ntbl as u64)
        >= 0xffff_ffff || (nig as u64) + (nglb as u64) >= 0xffff_ffff || (nim as u64) + (
    nmem as u64) >= 0xffff_ffff {
        return false;
    }
    proof {
        assert(crate::module::sizes_wf(gm));
    }
    if nfuncs != ncode {
        return false;
    }
    // an imported memory excludes a memory section and pins index 0
    proof {
        crate::module::lemma_mem_import_iff(gm);
    }
    if nim > 0 && nmem > 0 {
        return false;
    }
    if nim > 0 && m.memories.is_some() {
        // a present but empty memory section cannot hold index 0
        return false;
    }
    let nf = nif + (nfuncs as u32);
    let nt = nty as u32;
    let ntb = nit + (ntbl as u32);
    let ng = nig + (nglb as u32);
    let mem_space_sz: u32 = if nmem > 0 {
        nmem as u32
    } else if nim > 0 {
        1
    } else {
        0
    };
    // function declarations point at types
    if let Some(v) = &m.funcs {
        let mut i: usize = 0;
        while i < v.len()
            invariant
                gm == *m,
                crate::module::funcs_of(gm) == v@,
                nt as int == crate::module::types_of(gm).len(),
                0 <= i <= v@.len(),
                forall|f: int| 0 <= f < i ==> #[trigger] crate::module::funcs_of(gm)[f] < nt,
            decreases v@.len() - i,
        {
            if v[i] >= nt {
                proof {
                    assert(crate::module::funcs_of(gm)[i as int] >= nt);
                    assert(!wf_core(gm));
                }
                return false;
            }
            i = i + 1;
        }
    }
    // imported functions point at types
    if let Some(v) = &m.imports {
        let mut i: usize = 0;
        while i < v.len()
            invariant
                gm == *m,
                crate::module::imps_of(gm) == v@,
                nt as int == crate::module::types_of(gm).len(),
                0 <= i <= v@.len(),
                forall|i2: int| 0 <= i2 < i ==> match (#[trigger] crate::module::imps_of(
                    gm,
                )[i2]).external {
                    crate::module::ImportRef::Function(sig) => sig < nt,
                    _ => true,
                },
            decreases v@.len() - i,
        {
            match &v[i].external {
                crate::module::ImportRef::Function(sig) => {
                    if *sig >= nt {
                        proof {
                            assert(crate::module::imps_of(gm)[i as int] == v@[i as int]);
                            assert(!wf_core(gm));
                        }
                        return false;
                    }
                },
                _ => {},
            }
            i = i + 1;
        }
    }
    // exports point into their spaces
    if let Some(v) = &m.exports {
        let mut i: usize = 0;
        while i < v.len()
            invariant
                gm == *m,
                crate::module::exports_of(gm) == v@,
                nf as int == crate::module::n_flat_funcs(gm),
                ntb as int == crate::module::n_flat_tables(gm),
                ng as int == crate::module::n_flat_globals(gm),
                mem_space_sz as int == crate::module::mem_space(gm),
                crate::module::has_mem_import(gm) <==> crate::module::n_imp(
                    gm,
                    crate::module::ImpKind::Mem,
                ) > 0,
                nim as int == crate::module::n_imp(gm, crate::module::ImpKind::Mem),
                (nim > 0 ==> gm.memories is None),
                0 <= i <= v@.len(),
                forall|e: int| 0 <= e < i ==> crate::module::export_wf(
                    gm,
                    #[trigger] crate::module::exports_of(gm)[e],
                ),
            decreases v@.len() - i,
        {
            let ok = match &v[i].internal {
                crate::module::ExportRef::Function(f) => *f < nf,
                crate::module::ExportRef::Table(t) => *t < ntb,
                crate::module::ExportRef::Memory(mi) => *mi < mem_space_sz,
                crate::module::ExportRef::Global(g) => *g < ng,
            };
            if !ok {
                proof {
                    assert(crate::module::exports_of(gm)[i as int] == v@[i as int]);
                    assert(!crate::module::export_wf(gm, crate::module::exports_of(gm)[i as int]));
                    assert(!wf_core(gm));
                }
                return false;
            }
            i = i + 1;
        }
    }
    // code bodies
    if let Some(v) = &m.code {
        let mut i: usize = 0;
        while i < v.len()
            invariant
                gm == *m,
                crate::module::code_of(gm) == v@,
                nf as int == crate::module::n_flat_funcs(gm),
                nt as int == crate::module::types_of(gm).len(),
                ng as int == crate::module::n_flat_globals(gm),
                0 <= i <= v@.len(),
                forall|c: int| 0 <= c < i ==> crate::module::instrs_wf(
                    gm,
                    (#[trigger] crate::module::code_of(gm)[c]).code@,
                ),
            decreases v@.len() - i,
        {
            if !check_instrs(Ghost(gm), &v[i].code, nf, nt, ng) {
                proof {
                    assert(crate::module::code_of(gm)[i as int] == v@[i as int]);
                    assert(!crate::module::instrs_wf(
                        gm,
                        crate::module::code_of(gm)[i as int].code@,
                    ));
                    assert(!wf_core(gm));
                }
                return false;
            }
            i = i + 1;
        }
    }
    // global initializers
    if let Some(v) = &m.globals {
        let mut i: usize = 0;
        while i < v.len()
            invariant
                gm == *m,
                crate::module::globals_of(gm) == v@,
                nf as int == crate::module::n_flat_funcs(gm),
                nt as int == crate::module::types_of(gm).len(),
                ng as int == crate::module::n_flat_globals(gm),
                0 <= i <= v@.len(),
                forall|g: int| 0 <= g < i ==> crate::module::instrs_wf(
                    gm,
                    (#[trigger] crate::module::globals_of(gm)[g]).init@,
                ),
            decreases v@.len() - i,
        {
            if !check_instrs(Ghost(gm), &v[i].init, nf, nt, ng) {
                proof {
                    assert(crate::module::globals_of(gm)[i as int] == v@[i as int]);
                    assert(!crate::module::instrs_wf(
                        gm,
                        crate::module::globals_of(gm)[i as int].init@,
                    ));
                    assert(!wf_core(gm));
                }
                return false;
            }
            i = i + 1;
        }
    }
    // element segments
    if let Some(v) = &m.elements {
        let mut i: usize = 0;
        while i < v.len()
            invariant
                gm == *m,
                crate::module::elements_of(gm) == v@,
                nf as int == crate::module::n_flat_funcs(gm),
                nt as int == crate::module::types_of(gm).len(),
                ntb as int == crate::module::n_flat_tables(gm),
                ng as int == crate::module::n_flat_globals(gm),
                0 <= i <= v@.len(),
                forall|s: int| 0 <= s < i ==> crate::module::element_wf(
                    gm,
                    #[trigger] crate::module::elements_of(gm)[s],
                ),
            decreases v@.len() - i,
        {
            let seg = &v[i];
            proof {
                assert(crate::module::elements_of(gm)[i as int] == v@[i as int]);
            }
            if seg.table_index >= ntb {
                proof {
                    assert(!crate::module::element_wf(
                        gm,
                        crate::module::elements_of(gm)[i as int],
                    ));
                    assert(!wf_core(gm));
                }
                return false;
            }
            let mut j: usize = 0;
            while j < seg.members.len()
                invariant
                    gm == *m,
                    crate::module::elements_of(gm) == v@,
                    0 <= (i as int) < v@.len(),
                    seg == v@[i as int],
                    nf as int == crate::module::n_flat_funcs(gm),
                    0 <= j <= seg.members@.len(),
                    forall|j2: int| 0 <= j2 < j ==> #[trigger] seg.members@[j2] < nf,
                decreases seg.members@.len() - j,
            {
                if seg.members[j] >= nf {
                    proof {
                        assert(crate::module::elements_of(gm)[i as int] == v@[i as int]);
                        assert(!crate::module::element_wf(
                            gm,
                            crate::module::elements_of(gm)[i as int],
                        ));
                        assert(!wf_core(gm));
                    }
                    return false;
                }
                j = j + 1;
            }
            if !check_instrs(Ghost(gm), &seg.offset, nf, nt, ng) {
                proof {
                    assert(crate::module::elements_of(gm)[i as int] == v@[i as int]);
                    assert(!crate::module::element_wf(
                        gm,
                        crate::module::elements_of(gm)[i as int],
                    ));
                    assert(!wf_core(gm));
                }
                return false;
            }
            i = i + 1;
        }
    }
    // data segments
    if let Some(v) = &m.data {
        let mut i: usize = 0;
        while i < v.len()
            invariant
                gm == *m,
                crate::module::data_of(gm) == v@,
                nf as int == crate::module::n_flat_funcs(gm),
                nt as int == crate::module::types_of(gm).len(),
                ng as int == crate::module::n_flat_globals(gm),
                mem_space_sz as int == crate::module::mem_space(gm),
                crate::module::has_mem_import(gm) <==> crate::module::n_imp(
                    gm,
                    crate::module::ImpKind::Mem,
                ) > 0,
                nim as int == crate::module::n_imp(gm, crate::module::ImpKind::Mem),
                (nim > 0 ==> gm.memories is None),
                0 <= i <= v@.len(),
                forall|s: int| 0 <= s < i ==> crate::module::data_wf(
                    gm,
                    #[trigger] crate::module::data_of(gm)[s],
                ),
            decreases v@.len() - i,
        {
            let seg = &v[i];
            if seg.memory_index >= mem_space_sz {
                proof {
                    assert(crate::module::data_of(gm)[i as int] == v@[i as int]);
                    assert(!crate::module::mem_exists(gm, seg.memory_index as int));
                    assert(!crate::module::data_wf(gm, crate::module::data_of(gm)[i as int]));
                    assert(!wf_core(gm));
                }
                return false;
            }
            if !check_instrs(Ghost(gm), &seg.offset, nf, nt, ng) {
                proof {
                    assert(crate::module::data_of(gm)[i as int] == v@[i as int]);
                    assert(!crate::module::data_wf(gm, crate::module::data_of(gm)[i as int]));
                    assert(!wf_core(gm));
                }
                return false;
            }
            i = i + 1;
        }
    }
    // the start function
    match m.start {
        Some(f) => {
            if f >= nf {
                return false;
            }
        },
        None => {},
    }
    proof {
        assert(wf_core(gm));
    }
    // the name payload
    match &m.name_payload {
        None => true,
        Some(p) => crate::names::check_name_payload(p, nf),
    }
}

/// Run the pass: drop everything unreachable from the roots and
/// renumber every surviving index.  The module is rewritten in place;
/// on failure it is left untouched.
pub fn run(config: &Config, module: &mut Module) -> (r: Result<(), GcError>)
    requires
        wf_core(*old(module)),
        names_ok(*old(module)),
    ensures
        exists|a: Analysis|
            #[trigger] exact_analysis(*old(module), a) && (match r {
                Ok(()) => gc_rel(*old(module), a, *final(module)) && name_rel(
                    *old(module),
                    a,
                    config.demangle,
                    final(module).name_payload,
                ) && names_clean(*old(module), a, config.demangle),
                Err(_) => *final(module) == *old(module) && !names_clean(
                    *old(module),
                    a,
                    config.demangle,
                ),
            }),
{
    let a = analyze(module);
    proof {
        assert(a_ok(*module, a));
        assert(exact_analysis(*old(module), a));
    }
    let rt = build_tables(module, &a);
    let new_name = match &module.name_payload {
        None => None,
        Some(p) => {
            match rebuild_name_payload(p, &rt, Ghost(*module), Ghost(a), config.demangle) {
                None => {
                    return Err(GcError::BadNameSection);
                },
                Some(v) => Some(v),
            }
        },
    };
    remap_module(module, &a, &rt);
    module.name_payload = new_name;
    Ok(())
}

} // verus!
