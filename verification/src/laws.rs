//! The pass's guarantees, stated on their own.
//!
//! Soundness and completeness of removal, index consistency, the
//! import-prefix order, the blacklist's meaning, and the name map's
//! round trip are proved here from the contracts of the analyzer, the
//! remap tables and the name rebuilder.

use vstd::prelude::*;
use crate::blacklist::blacklisted;
use crate::gc::exact_analysis;
use crate::module::{exports_of, n_imp, wf_core, ImpKind, Module};
use crate::names::{live_entry_pred, rebuilt_entries, utf8_decode};
use crate::reach::{
    aset, closed, in_a, instr_ent, reachable, root_of, roots_in, succ_of, Analysis, Ent,
};
use crate::remap::{knew, kpred, n_flat};
use crate::util::{cnt, kept, lemma_cnt_bound, lemma_cnt_lt, lemma_kept_at, lemma_kept_index,
    lemma_kept_len};

verus! {

/// Soundness of removal: everything the analysis keeps is reachable
/// from a root, so every entity of the output has a path to it.
pub proof fn lemma_soundness(m: Module, a: Analysis, x: Ent)
    requires
        exact_analysis(m, a),
        in_a(a, x),
    ensures
        reachable(m, x),
{
}

/// Completeness of removal: everything dropped is unreachable — no
/// closed superset of the roots contains it.
pub proof fn lemma_completeness(m: Module, a: Analysis, x: Ent)
    requires
        exact_analysis(m, a),
        !in_a(a, x),
    ensures
        !reachable(m, x),
{
    if reachable(m, x) {
        assert(aset(a).contains(x));
    }
}

/// Index consistency: a live entry's new index lies strictly below the
/// number of surviving entries of its space, and is never the dead
/// sentinel.
pub proof fn lemma_index_consistent(m: Module, a: Analysis, k: ImpKind, x: int)
    requires
        wf_core(m),
        0 <= x < n_flat(m, k),
        kpred(m, a, k)(x),
    ensures
        knew(m, a, k, x) < cnt(kpred(m, a, k), n_flat(m, k)),
        knew(m, a, k, x) != 0xffff_ffffu32,
{
    lemma_cnt_lt(kpred(m, a, k), x, n_flat(m, k));
    lemma_cnt_bound(kpred(m, a, k), x);
}

/// Index consistency for the type space, which has no import prefix.
pub proof fn lemma_type_index_consistent(m: Module, a: Analysis, t: int)
    requires
        wf_core(m),
        0 <= t < crate::module::types_of(m).len(),
        crate::remap::tpred(a)(t),
    ensures
        crate::remap::tnew(a, t) < cnt(crate::remap::tpred(a), crate::module::types_of(m).len() as int),
        crate::remap::tnew(a, t) != 0xffff_ffffu32,
{
    lemma_cnt_lt(crate::remap::tpred(a), t, crate::module::types_of(m).len() as int);
    lemma_cnt_bound(crate::remap::tpred(a), t);
}

/// Import prefix preserved: for each kind, a surviving import receives
/// a lower new index than any surviving module-defined entry, and the
/// surviving imports fill the indices below their surviving count
/// contiguously.
pub proof fn lemma_import_prefix(m: Module, a: Analysis, k: ImpKind, x1: int, x2: int)
    requires
        wf_core(m),
        0 <= x1 < n_imp(m, k),
        n_imp(m, k) <= x2 < n_flat(m, k),
        kpred(m, a, k)(x1),
        kpred(m, a, k)(x2),
    ensures
        knew(m, a, k, x1) < knew(m, a, k, x2),
        knew(m, a, k, x1) < cnt(kpred(m, a, k), n_imp(m, k) as int),
{
    lemma_cnt_lt(kpred(m, a, k), x1, x2);
    lemma_cnt_lt(kpred(m, a, k), x1, n_imp(m, k) as int);
    lemma_cnt_bound(kpred(m, a, k), x1);
    lemma_cnt_bound(kpred(m, a, k), x2);
}

/// No edge ever leads to an export entry: exports are roots only.
proof fn lemma_no_exp_succ(m: Module, e0: Ent, u: u32)
    ensures
        !succ_of(m, e0, Ent::Exp(u)),
{
    if !succ_of(m, e0, Ent::Exp(u)) {
        return;
    }
    match e0 {
        Ent::Code(c) => {
            if c < crate::module::code_of(m).len() && crate::reach::instrs_ref(
                m,
                crate::module::code_of(m)[c as int].code@,
                Ent::Exp(u),
            ) {
                let j = choose|j: int|
                    0 <= j < crate::module::code_of(m)[c as int].code@.len() && #[trigger] instr_ent(
                        m,
                        crate::module::code_of(m)[c as int].code@[j],
                    ) == Some(Ent::Exp(u));
            }
        },
        Ent::GlbL(g) => {
            let j = choose|j: int|
                0 <= j < crate::module::globals_of(m)[g as int].init@.len() && #[trigger] instr_ent(
                    m,
                    crate::module::globals_of(m)[g as int].init@[j],
                ) == Some(Ent::Exp(u));
        },
        _ => {},
    }
}

/// An export entity can only be a root through the export rule: the
/// other root families yield imports, memories, tables, functions and
/// globals.
proof fn lemma_root_exp_is_export(m: Module, u: u32)
    requires
        root_of(m, Ent::Exp(u)),
    ensures
        exists|e2: int|
            0 <= e2 < exports_of(m).len() && !blacklisted(
                (#[trigger] exports_of(m)[e2]).field@,
            ) && Ent::Exp(u) == Ent::Exp(e2 as u32),
{
    let x = Ent::Exp(u);
    if exists|e2: int|
        0 <= e2 < exports_of(m).len() && !blacklisted(
            (#[trigger] exports_of(m)[e2]).field@,
        ) && Ent::Exp(u) == Ent::Exp(e2 as u32) {
        return;
    }
    if exists|d: int|
        0 <= d < crate::module::data_of(m).len() && (x == Ent::Mem(
            (#[trigger] crate::module::data_of(m)[d]).memory_index,
        ) || crate::reach::instrs_ref(m, crate::module::data_of(m)[d].offset@, x)) {
        let d = choose|d: int|
            0 <= d < crate::module::data_of(m).len() && (x == Ent::Mem(
                (#[trigger] crate::module::data_of(m)[d]).memory_index,
            ) || crate::reach::instrs_ref(m, crate::module::data_of(m)[d].offset@, x));
        if crate::reach::instrs_ref(m, crate::module::data_of(m)[d].offset@, x) {
            let j = choose|j: int|
                0 <= j < crate::module::data_of(m)[d].offset@.len() && #[trigger] instr_ent(
                    m,
                    crate::module::data_of(m)[d].offset@[j],
                ) == Some(x);
        }
    } else if exists|s2: int|
        0 <= s2 < crate::module::elements_of(m).len() && {
            let seg = #[trigger] crate::module::elements_of(m)[s2];
            ||| exists|j: int|
                0 <= j < seg.members@.len() && x == crate::reach::resolve_func(
                    m,
                    #[trigger] seg.members@[j] as int,
                )
            ||| x == crate::reach::resolve_table(m, seg.table_index as int)
            ||| crate::reach::instrs_ref(m, seg.offset@, x)
        } {
        let s2 = choose|s2: int|
            0 <= s2 < crate::module::elements_of(m).len() && {
                let seg = #[trigger] crate::module::elements_of(m)[s2];
                ||| exists|j: int|
                    0 <= j < seg.members@.len() && x == crate::reach::resolve_func(
                        m,
                        #[trigger] seg.members@[j] as int,
                    )
                ||| x == crate::reach::resolve_table(m, seg.table_index as int)
                ||| crate::reach::instrs_ref(m, seg.offset@, x)
            };
        let seg = crate::module::elements_of(m)[s2];
        if exists|j: int|
            0 <= j < seg.members@.len() && x == crate::reach::resolve_func(
                m,
                #[trigger] seg.members@[j] as int,
            ) {
            let j = choose|j: int|
                0 <= j < seg.members@.len() && x == crate::reach::resolve_func(
                    m,
                    #[trigger] seg.members@[j] as int,
                );
        } else if crate::reach::instrs_ref(m, seg.offset@, x) {
            let j = choose|j: int|
                0 <= j < seg.offset@.len() && #[trigger] instr_ent(m, seg.offset@[j]) == Some(x);
        }
    }
}

/// Blacklist semantics: an export whose field name is blacklisted never
/// becomes live, whatever else the module contains — its entry is
/// always dropped.  (Its target may still be kept through another
/// path: that is `lemma_completeness` applied to the target.)
pub proof fn lemma_blacklist(m: Module, a: Analysis, e: int)
    requires
        exact_analysis(m, a),
        0 <= e < exports_of(m).len() < 0xffff_ffff,
        blacklisted(exports_of(m)[e].field@),
    ensures
        !in_a(a, Ent::Exp(e as u32)),
{
    let s = Set::new(|x: Ent| in_a(a, x) && x != Ent::Exp(e as u32));
    assert(closed(m, s)) by {
        assert forall|e0: Ent, x: Ent| #[trigger] s.contains(e0) && #[trigger] succ_of(
            m,
            e0,
            x,
        ) implies s.contains(x) by {
            assert(crate::reach::aset(a).contains(e0));
            assert(crate::reach::aset(a).contains(x));
            if x == Ent::Exp(e as u32) {
                lemma_no_exp_succ(m, e0, e as u32);
            }
        }
    }
    assert(roots_in(m, s)) by {
        assert forall|x: Ent| #[trigger] root_of(m, x) implies s.contains(x) by {
            assert(crate::reach::aset(a).contains(x));
            if x == Ent::Exp(e as u32) {
                if exists|e2: int|
                    0 <= e2 < exports_of(m).len() && !blacklisted(
                        (#[trigger] exports_of(m)[e2]).field@,
                    ) && x == Ent::Exp(e2 as u32) {
                    let e2 = choose|e2: int|
                        0 <= e2 < exports_of(m).len() && !blacklisted(
                            (#[trigger] exports_of(m)[e2]).field@,
                        ) && x == Ent::Exp(e2 as u32);
                    assert(e2 == e);
                } else {
                    lemma_root_exp_is_export(m, e as u32);
                }
            }
        }
    }
    if in_a(a, Ent::Exp(e as u32)) {
        assert(reachable(m, Ent::Exp(e as u32)));
        assert(s.contains(Ent::Exp(e as u32)));
    }
}

/// Name-section round trip: without demangling, the rebuilt function
/// name map lists exactly the surviving entries, in order, each with
/// its function renumbered and its name bytes untouched; with
/// demangling, the same entries carry the demangled names.
pub proof fn lemma_name_map_rebuild(
    m: Module,
    a: Analysis,
    es: Seq<(nat, Seq<u8>)>,
    dem: bool,
    k: int,
)
    requires
        0 <= k < rebuilt_entries(m, a, es, dem).len(),
    ensures
        rebuilt_entries(m, a, es, dem).len() == cnt(live_entry_pred(m, a, es), es.len() as int),
        ({
            let j = kept(live_entry_pred(m, a, es), es.len() as int)[k];
            &&& 0 <= j < es.len()
            &&& kpred(m, a, ImpKind::Func)(es[j].0 as int)
            &&& rebuilt_entries(m, a, es, dem)[k].0 == knew(m, a, ImpKind::Func, es[j].0 as int)
            &&& (!dem ==> rebuilt_entries(m, a, es, dem)[k].1 == es[j].1)
            &&& (dem ==> rebuilt_entries(m, a, es, dem)[k].1 == crate::names::demangle_of(
                utf8_decode(es[j].1)->Some_0,
            ))
        }),
{
    let p = live_entry_pred(m, a, es);
    lemma_kept_len(p, es.len() as int);
    lemma_kept_index(p, es.len() as int, k);
}

/// And conversely: every surviving entry appears in the rebuilt map, at
/// the position given by the count of surviving entries before it.
pub proof fn lemma_name_map_complete(
    m: Module,
    a: Analysis,
    es: Seq<(nat, Seq<u8>)>,
    dem: bool,
    j: int,
)
    requires
        0 <= j < es.len(),
        kpred(m, a, ImpKind::Func)(es[j].0 as int),
    ensures
        cnt(live_entry_pred(m, a, es), j) < rebuilt_entries(m, a, es, dem).len(),
        rebuilt_entries(m, a, es, dem)[cnt(live_entry_pred(m, a, es), j) as int].0 == knew(
            m,
            a,
            ImpKind::Func,
            es[j].0 as int,
        ),
{
    let p = live_entry_pred(m, a, es);
    lemma_kept_len(p, es.len() as int);
    lemma_kept_at(p, es.len() as int, j);
}

} // verus!
