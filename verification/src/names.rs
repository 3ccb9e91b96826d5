//! The `name` custom section.
//!
//! The payload is a sequence of subsections `tag | length | bytes`.
//! Tag 0 (module name) is copied through; tag 1 (function names) and
//! tag 2 (local names) map function indices to strings: entries of dead
//! functions are dropped, surviving indices renumbered, and, when
//! demangling is on, each function name replaced by its demangled form
//! (local names are passed through untouched).  Integers are LEB128;
//! the emitted encodings are canonical, lengths recomputed.

use vstd::prelude::*;
use crate::module::{wf_core, ImpKind, Module};
use crate::reach::Analysis;
use crate::remap::{knew, kpred, n_flat, rt_wf, RemapTables};
use crate::util::{cnt, kept};

verus! {

/// What `core::str::from_utf8` decodes a byte string to, when it is
/// valid UTF-8.
pub uninterp spec fn utf8_decode(b: Seq<u8>) -> Option<Seq<char>>;

/// What `rustc_demangle::demangle` renders a symbol to, as bytes.
pub uninterp spec fn demangle_of(s: Seq<char>) -> Seq<u8>;

/// Relies on core::str::from_utf8: it succeeds exactly on valid UTF-8
/// and yields its decoding.
#[verifier::external_body]
fn bytes_to_str(b: &Vec<u8>) -> (r: Option<&str>)
    ensures
        (r is Some) == (utf8_decode(b@) is Some),
        r matches Some(s) ==> utf8_decode(b@) == Some(s@),
{
    core::str::from_utf8(b.as_slice()).ok()
}

/// Relies on rustc_demangle::demangle: it never fails, and its result
/// depends on the symbol text alone.
#[verifier::external_body]
fn demangle_bytes(s: &str) -> (r: Vec<u8>)
    ensures
        r@ == demangle_of(s@),
{
    rustc_demangle::demangle(s).to_string().into_bytes()
}

// ---------------------------------------------------------------------
// LEB128 (unsigned, 32 bit).
// ---------------------------------------------------------------------

/// Decode at `pos` with at most `rem` bytes left for this integer
/// (5 at the top level): value and bytes consumed.  The final byte of a
/// 5-byte encoding must fit the 32-bit range.
pub open spec fn leb_dec(b: Seq<u8>, pos: int, rem: int) -> Option<(nat, int)>
    decreases rem,
{
    if rem <= 0 || pos < 0 || pos >= b.len() {
        None
    } else {
        let x = b[pos];
        if x < 128 {
            if rem == 1 && x >= 16 {
                None
            } else {
                Some((x as nat, 1))
            }
        } else {
            match leb_dec(b, pos + 1, rem - 1) {
                None => None,
                Some((v, l)) => Some((((x - 128) + 128 * v) as nat, l + 1)),
            }
        }
    }
}

/// Upper bound of a value decoded with `rem` bytes.
pub open spec fn leb_cap(rem: int) -> nat
    decreases rem,
{
    if rem <= 1 {
        16
    } else {
        128 * leb_cap(rem - 1)
    }
}

pub proof fn lemma_leb_bounds(b: Seq<u8>, pos: int, rem: int)
    requires
        1 <= rem <= 5,
        leb_dec(b, pos, rem) is Some,
    ensures
        leb_dec(b, pos, rem)->Some_0.0 < leb_cap(rem),
        rem == 5 ==> leb_dec(b, pos, rem)->Some_0.0 < 0x1_0000_0000,
        1 <= leb_dec(b, pos, rem)->Some_0.1 <= rem,
        pos + leb_dec(b, pos, rem)->Some_0.1 <= b.len(),
    decreases rem,
{
    let x = b[pos];
    if x < 128 {
        if rem == 1 {
            assert(x < 16);
        }
    } else {
        lemma_leb_bounds(b, pos + 1, rem - 1);
        let v = leb_dec(b, pos + 1, rem - 1)->Some_0.0;
        assert(leb_cap(rem) == 128 * leb_cap(rem - 1));
        assert((x - 128) + 128 * v < 128 * leb_cap(rem - 1)) by {
            assert(v <= leb_cap(rem - 1) - 1);
            assert(128 * v <= 128 * (leb_cap(rem - 1) - 1)) by (nonlinear_arith)
                requires
                    v <= leb_cap(rem - 1) - 1,
            ;
        }
    }
    lemma_leb_cap_values();
}

/// The concrete caps: a 5-byte encoding is exactly the 32-bit range.
pub proof fn lemma_leb_cap_values()
    ensures
        leb_cap(1) == 16,
        leb_cap(2) == 0x800,
        leb_cap(3) == 0x4_0000,
        leb_cap(4) == 0x200_0000,
        leb_cap(5) == 0x1_0000_0000,
{
    assert(leb_cap(1) == 16);
    assert(leb_cap(2) == 128 * leb_cap(1));
    assert(leb_cap(3) == 128 * leb_cap(2));
    assert(leb_cap(4) == 128 * leb_cap(3));
    assert(leb_cap(5) == 128 * leb_cap(4));
}

/// Canonical LEB128 encoding.
pub open spec fn leb(v: nat) -> Seq<u8>
    decreases v,
{
    if v < 128 {
        seq![v as u8]
    } else {
        seq![((v % 128) + 128) as u8] + leb(v / 128)
    }
}

/// Recursive decoder, one byte per level, faithful to `leb_dec`.
fn leb_read(b: &Vec<u8>, pos: usize, rem: u8) -> (r: Option<(u32, usize)>)
    requires
        1 <= rem <= 5,
        pos <= b@.len(),
    ensures
        (r is Some) == (leb_dec(b@, pos as int, rem as int) is Some),
        r matches Some(p) ==> leb_dec(b@, pos as int, rem as int) == Some((
            p.0 as nat,
            p.1 as int,
        )) && 1 <= p.1 <= rem && pos + p.1 <= b@.len() && (rem == 5 ==> p.0 < 0x1_0000_0000u64),
    decreases rem,
{
    if pos >= b.len() {
        return None;
    }
    let x = b[pos];
    if x < 128 {
        if rem == 1 && x >= 16 {
            None
        } else {
            Some((x as u32, 1))
        }
    } else {
        if rem == 1 {
            return None;
        }
        match leb_read(b, pos + 1, rem - 1) {
            None => None,
            Some((v, l)) => {
                proof {
                    lemma_leb_bounds(b@, pos + 1 as int, rem - 1 as int);
                    lemma_leb_cap_values();
                    assert(v < 0x200_0000);
                }
                Some(((x - 128) as u32 + 128 * v, l + 1))
            },
        }
    }
}

/// Append the canonical encoding of `v`.
fn leb_write(out: &mut Vec<u8>, v: u32)
    ensures
        final(out)@ == old(out)@ + leb(v as nat),
    decreases v,
{
    if v < 128 {
        out.push(v as u8);
        proof {
            assert(final(out)@ =~= old(out)@ + leb(v as nat));
        }
    } else {
        out.push((v % 128 + 128) as u8);
        leb_write(out, v / 128);
        proof {
            assert((v % 128 + 128) as u8 == ((v as nat % 128) + 128) as u8);
            assert((v / 128) as nat == (v as nat) / 128);
            assert(final(out)@ =~= old(out)@ + leb(v as nat));
        }
    }
}

fn push_bytes(out: &mut Vec<u8>, v: &Vec<u8>)
    ensures
        final(out)@ == old(out)@ + v@,
{
    let mut i: usize = 0;
    while i < v.len()
        invariant
            0 <= i <= v.len(),
            out@ == old(out)@ + v@.subrange(0, i as int),
        decreases v.len() - i,
    {
        out.push(v[i]);
        proof {
            assert(out@ =~= old(out)@ + v@.subrange(0, i + 1 as int));
        }
        i = i + 1;
    }
    proof {
        assert(out@ =~= old(out)@ + v@);
    }
}

fn subvec(v: &Vec<u8>, a: usize, b: usize) -> (r: Vec<u8>)
    requires
        a <= b <= v@.len(),
    ensures
        r@ == v@.subrange(a as int, b as int),
{
    let mut r: Vec<u8> = Vec::new();
    let mut i: usize = a;
    while i < b
        invariant
            a <= i <= b <= v@.len(),
            r@ == v@.subrange(a as int, i as int),
        decreases b - i,
    {
        r.push(v[i]);
        proof {
            assert(r@ =~= v@.subrange(a as int, i + 1 as int));
        }
        i = i + 1;
    }
    r
}

// ---------------------------------------------------------------------
// Name maps: `count | (index, length, bytes)*`.
// ---------------------------------------------------------------------

pub struct NameEntry {
    pub idx: u32,
    pub name: Vec<u8>,
}

pub open spec fn ne_view(e: NameEntry) -> (nat, Seq<u8>) {
    (e.idx as nat, e.name@)
}

pub open spec fn entries_view(v: Seq<NameEntry>) -> Seq<(nat, Seq<u8>)> {
    v.map(|i: int, e: NameEntry| ne_view(e))
}

/// Parse `n` entries from `pos`; result and end position.
pub open spec fn parse_entries(b: Seq<u8>, pos: int, n: nat) -> Option<(Seq<(nat, Seq<u8>)>, int)>
    decreases n,
{
    if n == 0 {
        Some((Seq::empty(), pos))
    } else {
        match leb_dec(b, pos, 5) {
            None => None,
            Some((idx, l1)) => match leb_dec(b, pos + l1, 5) {
                None => None,
                Some((nl, l2)) => {
                    let nstart = pos + l1 + l2;
                    if nstart + nl > b.len() {
                        None
                    } else {
                        match parse_entries(b, nstart + nl, (n - 1) as nat) {
                            None => None,
                            Some((rest, end)) => Some((
                                seq![(idx, b.subrange(nstart, nstart + nl))] + rest,
                                end,
                            )),
                        }
                    }
                },
            },
        }
    }
}

/// Parse one whole name map.
pub open spec fn parse_map(b: Seq<u8>, pos: int) -> Option<(Seq<(nat, Seq<u8>)>, int)> {
    match leb_dec(b, pos, 5) {
        None => None,
        Some((n, l)) => parse_entries(b, pos + l, n),
    }
}

pub open spec fn glue(pre: Seq<(nat, Seq<u8>)>, r: Option<(Seq<(nat, Seq<u8>)>, int)>) -> Option<
    (Seq<(nat, Seq<u8>)>, int),
> {
    match r {
        None => None,
        Some((rest, end)) => Some((pre + rest, end)),
    }
}

/// Decode a whole name map; `None` exactly when the spec parse fails.
fn read_map(b: &Vec<u8>, pos: usize) -> (r: Option<(Vec<NameEntry>, usize)>)
    requires
        pos <= b@.len(),
    ensures
        (r is Some) == (parse_map(b@, pos as int) is Some),
        r matches Some(p) ==> parse_map(b@, pos as int) == Some((
            entries_view(p.0@),
            p.1 as int,
        )) && p.1 <= b@.len(),
{
    match leb_read(b, pos, 5) {
        None => None,
        Some((n, l)) => {
            proof {
                vstd::std_specs::vec::axiom_spec_len(b);
            }
            let mut es: Vec<NameEntry> = Vec::new();
            let mut cur: usize = pos + l;
            let mut i: u32 = 0;
            loop
                invariant
                    i <= n,
                    pos <= b@.len(),
                    cur <= b@.len(),
                    parse_map(b@, pos as int) == parse_entries(b@, (pos + l) as int, n as nat),
                    glue(entries_view(es@), parse_entries(b@, cur as int, (n - i) as nat))
                        == parse_entries(b@, (pos + l) as int, n as nat),
                decreases n - i,
            {
                if i == n {
                    proof {
                        assert(parse_entries(b@, cur as int, 0) == Some((
                            Seq::<(nat, Seq<u8>)>::empty(),
                            cur as int,
                        )));
                        assert(entries_view(es@) + Seq::<(nat, Seq<u8>)>::empty() =~= entries_view(
                            es@,
                        ));
                    }
                    return Some((es, cur));
                }
                let ghost n_rem = (n - i) as nat;
                proof {
                    vstd::std_specs::vec::axiom_spec_len(b);
                    assert((n - i) as nat > 0);
                }
                let (idx, l1) = match leb_read(b, cur, 5) {
                    None => {
                        return None;
                    },
                    Some(p) => p,
                };
                let (nl, l2) = match leb_read(b, cur + l1, 5) {
                    None => {
                        return None;
                    },
                    Some(p) => p,
                };
                let nstart = cur + l1 + l2;
                if (nl as usize) > b.len() - nstart {
                    proof {
                        assert(parse_entries(b@, cur as int, n_rem) is None);
                    }
                    return None;
                }
                let name = subvec(b, nstart, nstart + nl as usize);
                let ghost old_es = es@;
                let ghost old_cur = cur as int;
                es.push(NameEntry { idx, name });
                cur = nstart + nl as usize;
                i = i + 1;
                proof {
                    assert(entries_view(es@) =~= entries_view(old_es).push(
                        (idx as nat, b@.subrange(nstart as int, nstart + nl as int)),
                    ));
                    assert(parse_entries(b@, old_cur, n_rem) == glue(
                        seq![(idx as nat, b@.subrange(nstart as int, nstart + nl as int))],
                        parse_entries(b@, cur as int, (n_rem - 1) as nat),
                    ));
                    assert forall|r2: Option<(Seq<(nat, Seq<u8>)>, int)>| true implies glue(
                        entries_view(old_es),
                        glue(
                            seq![(idx as nat, b@.subrange(nstart as int, nstart + nl as int))],
                            r2,
                        ),
                    ) == glue(entries_view(es@), r2) by {
                        match r2 {
                            None => {},
                            Some((rest, end)) => {
                                assert(entries_view(old_es) + (seq![
                                    (idx as nat, b@.subrange(nstart as int, nstart + nl as int)),
                                ] + rest) =~= entries_view(es@) + rest);
                            },
                        }
                    }
                }
            }
        },
    }
}

/// Canonical serialization of one entry and of a map.
pub open spec fn ser_entry(e: (nat, Seq<u8>)) -> Seq<u8> {
    leb(e.0) + leb(e.1.len() as nat) + e.1
}

pub open spec fn ser_entries_pfx(es: Seq<(nat, Seq<u8>)>, i: int) -> Seq<u8>
    decreases i,
{
    if i <= 0 {
        Seq::empty()
    } else {
        ser_entries_pfx(es, i - 1) + ser_entry(es[i - 1])
    }
}

pub open spec fn ser_map(es: Seq<(nat, Seq<u8>)>) -> Seq<u8> {
    leb(es.len() as nat) + ser_entries_pfx(es, es.len() as int)
}

/// Emit a name map.
fn write_map(out: &mut Vec<u8>, es: &Vec<NameEntry>)
    requires
        es@.len() < 0x1_0000_0000,
        forall|j: int| 0 <= j < es@.len() ==> (#[trigger] es@[j]).name@.len() < 0x1_0000_0000,
    ensures
        final(out)@ == old(out)@ + ser_map(entries_view(es@)),
{
    leb_write(out, es.len() as u32);
    let mut j: usize = 0;
    while j < es.len()
        invariant
            0 <= j <= es@.len(),
            es@.len() < 0x1_0000_0000,
            forall|j2: int| 0 <= j2 < es@.len() ==> (#[trigger] es@[j2]).name@.len()
                < 0x1_0000_0000,
            out@ == old(out)@ + leb(es@.len() as nat) + ser_entries_pfx(
                entries_view(es@),
                j as int,
            ),
        decreases es@.len() - j,
    {
        leb_write(out, es[j].idx);
        leb_write(out, es[j].name.len() as u32);
        push_bytes(out, &es[j].name);
        proof {
            assert(entries_view(es@)[j as int] == ne_view(es@[j as int]));
            assert(out@ =~= old(out)@ + leb(es@.len() as nat) + ser_entries_pfx(
                entries_view(es@),
                j + 1 as int,
            ));
        }
        j = j + 1;
    }
    proof {
        assert(entries_view(es@).len() == es@.len());
        assert(out@ =~= old(out)@ + ser_map(entries_view(es@)));
    }
}

/// Parsed name maps have exactly `n` entries, each with a 32-bit index
/// and a name shorter than the 32-bit range.
pub proof fn lemma_parse_entries_facts(b: Seq<u8>, pos: int, n: nat)
    requires
        parse_entries(b, pos, n) is Some,
    ensures
        parse_entries(b, pos, n)->Some_0.0.len() == n,
        forall|j: int|
            0 <= j < n ==> (#[trigger] parse_entries(b, pos, n)->Some_0.0[j]).0 < 0x1_0000_0000
                && parse_entries(b, pos, n)->Some_0.0[j].1.len() < 0x1_0000_0000,
    decreases n,
{
    if n > 0 {
        let (idx, l1) = leb_dec(b, pos, 5)->Some_0;
        lemma_leb_bounds(b, pos, 5);
        let (nl, l2) = leb_dec(b, pos + l1, 5)->Some_0;
        lemma_leb_bounds(b, pos + l1, 5);
        let nstart = pos + l1 + l2;
        lemma_parse_entries_facts(b, nstart + nl, (n - 1) as nat);
    }
}

// ---------------------------------------------------------------------
// Local-name maps (tag 2): `count | (index, name-map)*`.
// ---------------------------------------------------------------------

pub open spec fn parse_locals(b: Seq<u8>, pos: int, n: nat) -> Option<
    (Seq<(nat, Seq<(nat, Seq<u8>)>)>, int),
>
    decreases n,
{
    if n == 0 {
        Some((Seq::empty(), pos))
    } else {
        match leb_dec(b, pos, 5) {
            None => None,
            Some((idx, l1)) => match parse_map(b, pos + l1) {
                None => None,
                Some((es, end)) => match parse_locals(b, end, (n - 1) as nat) {
                    None => None,
                    Some((rest, end2)) => Some((seq![(idx, es)] + rest, end2)),
                },
            },
        }
    }
}

pub proof fn lemma_parse_locals_facts(b: Seq<u8>, pos: int, n: nat)
    requires
        parse_locals(b, pos, n) is Some,
    ensures
        parse_locals(b, pos, n)->Some_0.0.len() == n,
        forall|j: int|
            0 <= j < n ==> (#[trigger] parse_locals(b, pos, n)->Some_0.0[j]).0 < 0x1_0000_0000,
    decreases n,
{
    if n > 0 {
        lemma_leb_bounds(b, pos, 5);
        let l1 = leb_dec(b, pos, 5)->Some_0.1;
        let end = parse_map(b, pos + l1)->Some_0.1;
        lemma_parse_locals_facts(b, end, (n - 1) as nat);
    }
}

// ---------------------------------------------------------------------
// Subsections: `tag | payload-length | payload`.
// ---------------------------------------------------------------------

pub open spec fn parse_subs(b: Seq<u8>, pos: int) -> Option<Seq<(u8, Seq<u8>)>>
    decreases b.len() - pos,
{
    if pos < 0 || pos > b.len() {
        None
    } else if pos == b.len() {
        Some(Seq::empty())
    } else {
        let tag = b[pos];
        match leb_dec(b, pos + 1, 5) {
            None => None,
            Some((plen, l)) => {
                let bstart = pos + 1 + l;
                if l < 1 || bstart + plen > b.len() {
                    None
                } else {
                    match parse_subs(b, bstart + plen) {
                        None => None,
                        Some(rest) => Some(
                            seq![(tag, b.subrange(bstart, bstart + plen))] + rest,
                        ),
                    }
                }
            },
        }
    }
}

/// Structural soundness of one subsection against a flat function
/// space of size `nf`: a known tag, and parseable maps whose function
/// indices are within that space.
pub open spec fn sub_ok_n(nf: int, tag: u8, payload: Seq<u8>) -> bool {
    if tag == 0 {
        true
    } else if tag == 1 {
        match parse_map(payload, 0) {
            Some(p) => forall|j: int| 0 <= j < p.0.len() ==> (#[trigger] p.0[j]).0 < nf,
            None => false,
        }
    } else if tag == 2 {
        match leb_dec(payload, 0, 5) {
            None => false,
            Some((n, l)) => match parse_locals(payload, l, n) {
                None => false,
                Some((ls, _)) => forall|j: int| 0 <= j < ls.len() ==> (#[trigger] ls[j]).0 < nf,
            },
        }
    } else {
        false
    }
}

pub open spec fn sub_ok(m: Module, tag: u8, payload: Seq<u8>) -> bool {
    sub_ok_n(n_flat(m, ImpKind::Func), tag, payload)
}

/// The whole payload parses and every subsection is sound.
pub open spec fn payload_ok_n(nf: int, b: Seq<u8>) -> bool {
    match parse_subs(b, 0) {
        Some(subs) => forall|i: int|
            0 <= i < subs.len() ==> sub_ok_n(nf, (#[trigger] subs[i]).0, subs[i].1),
        None => false,
    }
}

pub open spec fn payload_ok(m: Module, b: Seq<u8>) -> bool {
    payload_ok_n(n_flat(m, ImpKind::Func), b)
}

/// Structural soundness of the module's name payload, if present.
pub open spec fn names_ok(m: Module) -> bool {
    match m.name_payload {
        None => true,
        Some(p) => payload_ok(m, p@),
    }
}

// ---------------------------------------------------------------------
// UTF-8 soundness and size limits of the rebuilt payload.
// ---------------------------------------------------------------------

pub open spec fn entries_utf8(es: Seq<(nat, Seq<u8>)>) -> bool {
    forall|j: int| 0 <= j < es.len() ==> utf8_decode((#[trigger] es[j]).1) is Some
}

pub open spec fn sub_utf8(tag: u8, payload: Seq<u8>) -> bool {
    if tag == 1 {
        entries_utf8(parse_map(payload, 0)->Some_0.0)
    } else if tag == 2 {
        match leb_dec(payload, 0, 5) {
            None => true,
            Some((n, l)) => {
                let ls = parse_locals(payload, l, n)->Some_0.0;
                forall|j: int| 0 <= j < ls.len() ==> entries_utf8((#[trigger] ls[j]).1)
            },
        }
    } else {
        true
    }
}

pub open spec fn subs_utf8(subs: Seq<(u8, Seq<u8>)>) -> bool {
    forall|i: int| 0 <= i < subs.len() ==> sub_utf8((#[trigger] subs[i]).0, subs[i].1)
}

/// Which tag-1 entries survive: those whose function is live.
pub open spec fn live_entry_pred(m: Module, a: Analysis, es: Seq<(nat, Seq<u8>)>) -> spec_fn(
    int,
) -> bool {
    |j: int| 0 <= j < es.len() && kpred(m, a, ImpKind::Func)(es[j].0 as int)
}

pub open spec fn rebuilt_entries(m: Module, a: Analysis, es: Seq<(nat, Seq<u8>)>, dem: bool) -> Seq<
    (nat, Seq<u8>),
> {
    kept(live_entry_pred(m, a, es), es.len() as int).map(
        |k: int, j: int|
            (
                knew(m, a, ImpKind::Func, es[j].0 as int) as nat,
                if dem {
                    demangle_of(utf8_decode(es[j].1)->Some_0)
                } else {
                    es[j].1
                },
            ),
    )
}

pub open spec fn live_local_pred(
    m: Module,
    a: Analysis,
    ls: Seq<(nat, Seq<(nat, Seq<u8>)>)>,
) -> spec_fn(int) -> bool {
    |j: int| 0 <= j < ls.len() && kpred(m, a, ImpKind::Func)(ls[j].0 as int)
}

/// Surviving local-name entries: outer index renumbered, inner map
/// passed through unchanged.
pub open spec fn rebuilt_locals(m: Module, a: Analysis, ls: Seq<(nat, Seq<(nat, Seq<u8>)>)>) -> Seq<
    (nat, Seq<(nat, Seq<u8>)>),
> {
    kept(live_local_pred(m, a, ls), ls.len() as int).map(
        |k: int, j: int| (knew(m, a, ImpKind::Func, ls[j].0 as int) as nat, ls[j].1),
    )
}

pub open spec fn ser_locals_pfx(ls: Seq<(nat, Seq<(nat, Seq<u8>)>)>, i: int) -> Seq<u8>
    decreases i,
{
    if i <= 0 {
        Seq::empty()
    } else {
        ser_locals_pfx(ls, i - 1) + leb(ls[i - 1].0) + ser_map(ls[i - 1].1)
    }
}

pub open spec fn ser_locals(ls: Seq<(nat, Seq<(nat, Seq<u8>)>)>) -> Seq<u8> {
    leb(ls.len() as nat) + ser_locals_pfx(ls, ls.len() as int)
}

/// The emitted lengths fit 32 bits, as the encoding demands.
pub open spec fn sub_fits(m: Module, a: Analysis, dem: bool, tag: u8, payload: Seq<u8>) -> bool {
    if tag == 1 {
        let re = rebuilt_entries(m, a, parse_map(payload, 0)->Some_0.0, dem);
        &&& forall|k: int| 0 <= k < re.len() ==> (#[trigger] re[k]).1.len() < 0x1_0000_0000
        &&& ser_map(re).len() < 0x1_0000_0000
    } else if tag == 2 {
        match leb_dec(payload, 0, 5) {
            None => true,
            Some((n, l)) => {
                let rl = rebuilt_locals(m, a, parse_locals(payload, l, n)->Some_0.0);
                ser_locals(rl).len() < 0x1_0000_0000
            },
        }
    } else {
        true
    }
}

pub open spec fn subs_fit(m: Module, a: Analysis, dem: bool, subs: Seq<(u8, Seq<u8>)>) -> bool {
    forall|i: int| 0 <= i < subs.len() ==> sub_fits(m, a, dem, (#[trigger] subs[i]).0, subs[i].1)
}

/// The rebuilt form of one subsection.
pub open spec fn rebuilt_sub(m: Module, a: Analysis, dem: bool, tag: u8, payload: Seq<u8>) -> Seq<
    u8,
> {
    if tag == 0 {
        seq![tag] + leb(payload.len() as nat) + payload
    } else if tag == 1 {
        let body = ser_map(rebuilt_entries(m, a, parse_map(payload, 0)->Some_0.0, dem));
        seq![tag] + leb(body.len() as nat) + body
    } else {
        let n = leb_dec(payload, 0, 5)->Some_0.0;
        let l = leb_dec(payload, 0, 5)->Some_0.1;
        let body = ser_locals(rebuilt_locals(m, a, parse_locals(payload, l, n)->Some_0.0));
        seq![tag] + leb(body.len() as nat) + body
    }
}

/// The rebuilt form of the whole payload from `pos` on.
pub open spec fn rebuilt_payload(m: Module, a: Analysis, dem: bool, b: Seq<u8>, pos: int) -> Seq<
    u8,
>
    decreases b.len() - pos,
{
    if pos < 0 || pos >= b.len() {
        Seq::empty()
    } else {
        let tag = b[pos];
        match leb_dec(b, pos + 1, 5) {
            None => Seq::empty(),
            Some((plen, l)) => {
                let bstart = pos + 1 + l;
                if l < 1 || bstart + plen > b.len() {
                    Seq::empty()
                } else {
                    rebuilt_sub(m, a, dem, tag, b.subrange(bstart, bstart + plen))
                        + rebuilt_payload(m, a, dem, b, bstart + plen)
                }
            },
        }
    }
}

// ---------------------------------------------------------------------
// Structural validation of a payload.
// ---------------------------------------------------------------------

/// Check one name map: parseable and, when `enforce` is set, every
/// function index below `nf`.
fn check_map(b: &Vec<u8>, pos: usize, nf: u32, enforce: bool) -> (r: Option<usize>)
    requires
        pos <= b@.len(),
    ensures
        (r is Some) == (parse_map(b@, pos as int) is Some && (enforce ==> forall|j: int|
            0 <= j < parse_map(b@, pos as int)->Some_0.0.len() ==> (#[trigger] parse_map(
                b@,
                pos as int,
            )->Some_0.0[j]).0 < nf)),
        r matches Some(end) ==> parse_map(b@, pos as int)->Some_0.1 == end as int && end
            <= b@.len(),
{
    match read_map(b, pos) {
        None => None,
        Some((es, end)) => {
            let ghost esv = parse_map(b@, pos as int)->Some_0.0;
            let mut j: usize = 0;
            while j < es.len()
                invariant
                    esv == parse_map(b@, pos as int)->Some_0.0,
                    parse_map(b@, pos as int) is Some,
                    entries_view(es@) == esv,
                    0 <= j <= es@.len(),
                    enforce ==> forall|j2: int| 0 <= j2 < j ==> (#[trigger] esv[j2]).0 < nf,
                decreases es@.len() - j,
            {
                proof {
                    assert(esv[j as int] == ne_view(es@[j as int]));
                }
                if enforce && es[j].idx >= nf {
                    proof {
                        assert(esv[j as int].0 >= nf);
                    }
                    return None;
                }
                j = j + 1;
            }
            proof {
                assert(entries_view(es@).len() == es@.len());
            }
            Some(end)
        },
    }
}

/// Check the whole `name` payload against a flat function space of
/// size `nf`: subsections parse, tags are known, maps parse, and every
/// function index is in range.
pub fn check_name_payload(b: &Vec<u8>, nf: u32) -> (r: bool)
    ensures
        r == payload_ok_n(nf as int, b@),
{
    let ghost full = parse_subs(b@, 0)->Some_0;
    let mut pos: usize = 0;
    let mut gdone: Ghost<Seq<(u8, Seq<u8>)>> = Ghost(Seq::empty());
    proof {
        assert(parse_subs(b@, 0) matches Some(rest) ==> full =~= Seq::<(u8, Seq<u8>)>::empty()
            + rest);
    }
    while pos < b.len()
        invariant
            0 <= pos <= b@.len(),
            full == parse_subs(b@, 0)->Some_0,
            (parse_subs(b@, 0) is Some) == (parse_subs(b@, pos as int) is Some),
            parse_subs(b@, pos as int) matches Some(rest) ==> full == gdone@ + rest,
            forall|i: int| 0 <= i < gdone@.len() ==> sub_ok_n(
                nf as int,
                (#[trigger] gdone@[i]).0,
                gdone@[i].1,
            ),
        decreases b@.len() - pos,
    {
        let tag = b[pos];
        proof {
            vstd::std_specs::vec::axiom_spec_len(b);
        }
        let (plen, l) = match leb_read(b, pos + 1, 5) {
            None => {
                proof {
                    assert(parse_subs(b@, pos as int) is None);
                }
                return false;
            },
            Some(pr) => pr,
        };
        let bstart = pos + 1 + l;
        if (plen as usize) > b.len() - bstart {
            proof {
                assert(parse_subs(b@, pos as int) is None);
            }
            return false;
        }
        let next = bstart + (plen as usize);
        let ghost cur_sub = (tag, b@.subrange(bstart as int, bstart + plen as int));
        let ok = if tag == 0 {
            true
        } else if tag == 1 {
            let payload = subvec(b, bstart, next);
            check_map(&payload, 0, nf, true).is_some()
        } else if tag == 2 {
            let payload = subvec(b, bstart, next);
            check_locals(&payload, nf)
        } else {
            false
        };
        proof {
            assert(parse_subs(b@, pos as int) matches Some(rest) ==> rest == seq![cur_sub]
                + parse_subs(b@, next as int)->Some_0);
        }
        if !ok {
            proof {
                assert(!sub_ok_n(nf as int, cur_sub.0, cur_sub.1));
                if parse_subs(b@, 0) is Some {
                    let rest = parse_subs(b@, pos as int)->Some_0;
                    assert(full[gdone@.len() as int] == cur_sub) by {
                        assert((gdone@ + rest)[gdone@.len() as int] == rest[0]);
                    }
                }
            }
            return false;
        }
        proof {
            gdone@ = gdone@.push(cur_sub);
            if parse_subs(b@, next as int) is Some {
                assert(gdone@ + parse_subs(b@, next as int)->Some_0 =~= full);
            }
            assert forall|i: int| 0 <= i < gdone@.len() implies sub_ok_n(
                nf as int,
                (#[trigger] gdone@[i]).0,
                gdone@[i].1,
            ) by {
                if i == gdone@.len() - 1 {
                    assert(gdone@[i] == cur_sub);
                }
            }
        }
        pos = next;
    }
    proof {
        assert(parse_subs(b@, pos as int) == Some(Seq::<(u8, Seq<u8>)>::empty()));
        assert(gdone@ =~= full);
    }
    true
}

/// Check a tag-2 payload: count, then per entry an in-range function
/// index and a parseable inner map.
fn check_locals(payload: &Vec<u8>, nf: u32) -> (r: bool)
    ensures
        r == sub_ok_n(nf as int, 2, payload@),
{
    let (n2, l0) = match leb_read(payload, 0, 5) {
        None => {
            return false;
        },
        Some(pr) => pr,
    };
    let mut cur: usize = l0;
    let mut i: u32 = 0;
    let ghost done: Seq<(nat, Seq<(nat, Seq<u8>)>)> = Seq::empty();
    let mut gdone: Ghost<Seq<(nat, Seq<(nat, Seq<u8>)>)>> = Ghost(done);
    loop
        invariant
            leb_dec(payload@, 0, 5) == Some((n2 as nat, l0 as int)),
            i <= n2,
            cur <= payload@.len(),
            glue_l(gdone@, parse_locals(payload@, cur as int, (n2 - i) as nat)) == parse_locals(
                payload@,
                l0 as int,
                n2 as nat,
            ),
            forall|j: int| 0 <= j < gdone@.len() ==> (#[trigger] gdone@[j]).0 < nf,
        decreases n2 - i,
    {
        if i == n2 {
            proof {
                assert(parse_locals(payload@, cur as int, 0) == Some((
                    Seq::<(nat, Seq<(nat, Seq<u8>)>)>::empty(),
                    cur as int,
                )));
                assert(gdone@ + Seq::<(nat, Seq<(nat, Seq<u8>)>)>::empty() =~= gdone@);
                lemma_parse_locals_facts(payload@, l0 as int, n2 as nat);
            }
            return true;
        }
        let ghost n_rem = (n2 - i) as nat;
        proof {
            assert(n_rem > 0);
            vstd::std_specs::vec::axiom_spec_len(payload);
        }
        let (idx, l1) = match leb_read(payload, cur, 5) {
            None => {
                proof {
                    assert(parse_locals(payload@, cur as int, n_rem) is None);
                }
                return false;
            },
            Some(pr) => pr,
        };
        if idx >= nf {
            proof {
                if parse_locals(payload@, l0 as int, n2 as nat) is Some {
                    let rest = parse_locals(payload@, cur as int, n_rem)->Some_0.0;
                    assert(rest[0].0 == idx as nat);
                    let ls = parse_locals(payload@, l0 as int, n2 as nat)->Some_0.0;
                    assert(ls[gdone@.len() as int] == rest[0]) by {
                        assert((gdone@ + rest)[gdone@.len() as int] == rest[0]);
                    }
                }
            }
            return false;
        }
        let end = match check_map(payload, cur + l1, 0, false) {
            None => {
                proof {
                    assert(parse_locals(payload@, cur as int, n_rem) is None);
                }
                return false;
            },
            Some(e) => e,
        };
        let ghost old_cur = cur as int;
        cur = end;
        i = i + 1;
        proof {
            let entry = (
                idx as nat,
                parse_map(payload@, (old_cur + l1) as int)->Some_0.0,
            );
            assert(parse_locals(payload@, old_cur, n_rem) == glue_l(
                seq![entry],
                parse_locals(payload@, cur as int, (n_rem - 1) as nat),
            ));
            let ghost gd0 = gdone@;
            gdone@ = gdone@.push(entry);
            assert forall|r2: Option<(Seq<(nat, Seq<(nat, Seq<u8>)>)>, int)>| true implies glue_l(
                gd0,
                glue_l(seq![entry], r2),
            ) == glue_l(gdone@, r2) by {
                match r2 {
                    None => {},
                    Some((rest, end2)) => {
                        assert(gd0 + (seq![entry] + rest) =~= gdone@ + rest);
                    },
                }
            }
        }
    }
}

// ---------------------------------------------------------------------
// Executable rebuilders.
// ---------------------------------------------------------------------

/// Rebuild a function-name map: drop dead entries, renumber, optionally
/// demangle.  Returns the serialized map body, or `None` on an
/// ill-formed UTF-8 name or an over-long result.
fn rebuild_tag1(
    payload: &Vec<u8>,
    rt: &RemapTables,
    Ghost(m): Ghost<Module>,
    Ghost(a): Ghost<Analysis>,
    dem: bool,
) -> (r: Option<Vec<u8>>)
    requires
        wf_core(m),
        crate::remap::a_ok(m, a),
        rt_wf(m, a, *rt),
        sub_ok(m, 1, payload@),
    ensures
        (r is Some) == (sub_utf8(1, payload@) && sub_fits(m, a, dem, 1, payload@)),
        r matches Some(v) ==> v@ == ser_map(
            rebuilt_entries(m, a, parse_map(payload@, 0)->Some_0.0, dem),
        ),
{
    let ghost esv = parse_map(payload@, 0)->Some_0.0;
    let ghost p = live_entry_pred(m, a, esv);
    let ghost f = |k: int, j: int|
        (
            knew(m, a, ImpKind::Func, esv[j].0 as int) as nat,
            if dem {
                demangle_of(utf8_decode(esv[j].1)->Some_0)
            } else {
                esv[j].1
            },
        );
    let es = match read_map(payload, 0) {
        None => {
            proof {
                assert(false);
            }
            return None;
        },
        Some(pr) => pr.0,
    };
    proof {
        assert(entries_view(es@) == esv);
        assert forall|j: int| 0 <= j < es@.len() implies esv[j] == ne_view(es@[j]) by {}
        let n0 = leb_dec(payload@, 0, 5)->Some_0.0;
        lemma_leb_bounds(payload@, 0, 5);
        lemma_parse_entries_facts(payload@, leb_dec(payload@, 0, 5)->Some_0.1, n0);
        assert(esv.len() < 0x1_0000_0000);
        assert forall|j2: int| 0 <= j2 < esv.len() implies (#[trigger] esv[j2]).1.len()
            < 0x1_0000_0000 by {}
    }
    let mut new_es: Vec<NameEntry> = Vec::new();
    let mut j: usize = 0;
    while j < es.len()
        invariant
            wf_core(m),
            crate::remap::a_ok(m, a),
            rt_wf(m, a, *rt),
            sub_ok(m, 1, payload@),
            esv == parse_map(payload@, 0)->Some_0.0,
            entries_view(es@) == esv,
            esv.len() < 0x1_0000_0000,
            forall|j2: int| 0 <= j2 < esv.len() ==> (#[trigger] esv[j2]).1.len() < 0x1_0000_0000,
            p == live_entry_pred(m, a, esv),
            f == (|k: int, j2: int|
                (
                    knew(m, a, ImpKind::Func, esv[j2].0 as int) as nat,
                    if dem {
                        demangle_of(utf8_decode(esv[j2].1)->Some_0)
                    } else {
                        esv[j2].1
                    },
                )),
            forall|j2: int| 0 <= j2 < esv.len() ==> esv[j2] == ne_view(es@[j2]),
            0 <= j <= es@.len(),
            forall|j2: int| 0 <= j2 < j ==> utf8_decode((#[trigger] esv[j2]).1) is Some,
            entries_view(new_es@) == kept(p, j as int).map(f),
            forall|k: int| 0 <= k < new_es@.len() ==> (#[trigger] new_es@[k]).name@.len()
                < 0x1_0000_0000,
        decreases es@.len() - j,
    {
        proof {
            crate::util::lemma_kept_step(p, j as int);
            crate::util::lemma_kept_len(p, j as int);
        }
        let s = match bytes_to_str(&es[j].name) {
            None => {
                proof {
                    assert(!sub_utf8(1, payload@)) by {
                        assert(utf8_decode(esv[j as int].1) is None);
                    }
                }
                return None;
            },
            Some(s) => s,
        };
        proof {
            assert(esv[j as int].0 < n_flat(m, ImpKind::Func));
            lemma_cnt_bound_for(m, a, esv[j as int].0 as int);
        }
        let val = rt.functions[es[j].idx as usize];
        if val != 0xffff_ffff {
            let name_new = if dem {
                let dn = demangle_bytes(s);
                if (dn.len() as u64) >= 0x1_0000_0000u64 {
                    proof {
                        crate::util::lemma_kept_at(p, esv.len() as int, j as int);
                        crate::util::lemma_kept_len(p, esv.len() as int);
                        let k0 = cnt(p, j as int) as int;
                        assert(rebuilt_entries(m, a, esv, dem)[k0] == f(k0, j as int));
                        assert(!sub_fits(m, a, dem, 1, payload@));
                    }
                    return None;
                }
                dn
            } else {
                crate::remap::copy_bytes(&es[j].name)
            };
            new_es.push(NameEntry { idx: val, name: name_new });
            proof {
                assert(entries_view(new_es@) =~= kept(p, j as int).map(f).push(
                    f(kept(p, j as int).len() as int, j as int),
                ));
                assert(kept(p, j + 1 as int).map(f) =~= kept(p, j as int).map(f).push(
                    f(kept(p, j as int).len() as int, j as int),
                ));
            }
        } else {
            proof {
                assert(!p(j as int));
            }
        }
        j = j + 1;
    }
    proof {
        assert(kept(p, esv.len() as int).map(f) == rebuilt_entries(m, a, esv, dem));
        crate::util::lemma_kept_len(p, esv.len() as int);
        crate::util::lemma_cnt_bound(p, esv.len() as int);
        assert(entries_view(new_es@).len() == new_es@.len());
    }
    let mut body: Vec<u8> = Vec::new();
    write_map(&mut body, &new_es);
    if (body.len() as u64) >= 0x1_0000_0000u64 {
        proof {
            assert(!sub_fits(m, a, dem, 1, payload@));
        }
        return None;
    }
    proof {
        assert(sub_utf8(1, payload@));
        assert(sub_fits(m, a, dem, 1, payload@)) by {
            assert forall|k: int| 0 <= k < rebuilt_entries(m, a, esv, dem).len() implies (
            #[trigger] rebuilt_entries(m, a, esv, dem)[k]).1.len() < 0x1_0000_0000 by {
                assert(rebuilt_entries(m, a, esv, dem)[k] == entries_view(new_es@)[k]);
                assert(entries_view(new_es@)[k].1 == new_es@[k].name@);
            }
        }
    }
    Some(body)
}

/// The count of live functions below any flat index stays below the
/// sentinel.
proof fn lemma_cnt_bound_for(m: Module, a: Analysis, x: int)
    requires
        wf_core(m),
        0 <= x < n_flat(m, ImpKind::Func),
    ensures
        cnt(kpred(m, a, ImpKind::Func), x) < 0xffff_ffff,
{
    crate::util::lemma_cnt_bound(kpred(m, a, ImpKind::Func), x);
}

struct LocalEntry {
    idx: u32,
    entries: Vec<NameEntry>,
}

spec fn le_view(e: LocalEntry) -> (nat, Seq<(nat, Seq<u8>)>) {
    (e.idx as nat, entries_view(e.entries@))
}

spec fn locals_view(v: Seq<LocalEntry>) -> Seq<(nat, Seq<(nat, Seq<u8>)>)> {
    v.map(|i: int, e: LocalEntry| le_view(e))
}

spec fn glue_l(
    pre: Seq<(nat, Seq<(nat, Seq<u8>)>)>,
    r: Option<(Seq<(nat, Seq<(nat, Seq<u8>)>)>, int)>,
) -> Option<(Seq<(nat, Seq<(nat, Seq<u8>)>)>, int)> {
    match r {
        None => None,
        Some((rest, end)) => Some((pre + rest, end)),
    }
}

fn copy_entries(v: &Vec<NameEntry>) -> (r: Vec<NameEntry>)
    ensures
        entries_view(r@) == entries_view(v@),
        r@.len() == v@.len(),
        forall|j: int| 0 <= j < v@.len() ==> (#[trigger] r@[j]).name@.len() == v@[j].name@.len()
            && r@[j].idx == v@[j].idx,
{
    let mut r: Vec<NameEntry> = Vec::new();
    let mut i: usize = 0;
    while i < v.len()
        invariant
            0 <= i <= v@.len(),
            r@.len() == i,
            forall|j: int| 0 <= j < i ==> ne_view(#[trigger] r@[j]) == ne_view(v@[j])
                && r@[j].name@.len() == v@[j].name@.len() && r@[j].idx == v@[j].idx,
        decreases v.len() - i,
    {
        let e = NameEntry { idx: v[i].idx, name: crate::remap::copy_bytes(&v[i].name) };
        r.push(e);
        i = i + 1;
    }
    proof {
        assert(entries_view(r@) =~= entries_view(v@));
    }
    r
}

/// Rebuild a local-name map: drop entries of dead functions, renumber
/// the outer indices, keep the inner maps as they are.
fn rebuild_tag2(
    payload: &Vec<u8>,
    rt: &RemapTables,
    Ghost(m): Ghost<Module>,
    Ghost(a): Ghost<Analysis>,
    Ghost(dem): Ghost<bool>,
) -> (r: Option<Vec<u8>>)
    requires
        wf_core(m),
        crate::remap::a_ok(m, a),
        rt_wf(m, a, *rt),
        sub_ok(m, 2, payload@),
    ensures
        (r is Some) == (sub_utf8(2, payload@) && sub_fits(m, a, dem, 2, payload@)),
        r matches Some(v) ==> v@ == ser_locals(
            rebuilt_locals(
                m,
                a,
                parse_locals(
                    payload@,
                    leb_dec(payload@, 0, 5)->Some_0.1,
                    leb_dec(payload@, 0, 5)->Some_0.0,
                )->Some_0.0,
            ),
        ),
{
    let (n2, l0) = match leb_read(payload, 0, 5) {
        None => {
            proof {
                assert(false);
            }
            return None;
        },
        Some(pr) => pr,
    };
    let ghost lsv = parse_locals(payload@, l0 as int, n2 as nat)->Some_0.0;
    proof {
        lemma_parse_locals_facts(payload@, l0 as int, n2 as nat);
    }
    // phase A: parse every outer entry
    let mut lv: Vec<LocalEntry> = Vec::new();
    let mut cur: usize = l0;
    let mut i: u32 = 0;
    loop
        invariant
            wf_core(m),
            sub_ok(m, 2, payload@),
            leb_dec(payload@, 0, 5) == Some((n2 as nat, l0 as int)),
            lsv == parse_locals(payload@, l0 as int, n2 as nat)->Some_0.0,
            parse_locals(payload@, l0 as int, n2 as nat) is Some,
            i <= n2,
            cur <= payload@.len(),
            glue_l(locals_view(lv@), parse_locals(payload@, cur as int, (n2 - i) as nat))
                == parse_locals(payload@, l0 as int, n2 as nat),
            forall|j: int| 0 <= j < lv@.len() ==> (#[trigger] lv@[j]).entries@.len()
                < 0x1_0000_0000 && (forall|j2: int|
                0 <= j2 < lv@[j].entries@.len() ==> (#[trigger] lv@[j].entries@[j2]).name@.len()
                    < 0x1_0000_0000),
        ensures
            locals_view(lv@) == lsv,
            forall|j: int| 0 <= j < lv@.len() ==> (#[trigger] lv@[j]).entries@.len()
                < 0x1_0000_0000 && (forall|j2: int|
                0 <= j2 < lv@[j].entries@.len() ==> (#[trigger] lv@[j].entries@[j2]).name@.len()
                    < 0x1_0000_0000),
        decreases n2 - i,
    {
        if i == n2 {
            proof {
                assert(locals_view(lv@) + Seq::<(nat, Seq<(nat, Seq<u8>)>)>::empty() =~= locals_view(
                    lv@,
                ));
                assert(locals_view(lv@) == lsv);
            }
            break;
        }
        let ghost n_rem = (n2 - i) as nat;
        proof {
            assert(n_rem > 0);
            assert(parse_locals(payload@, cur as int, n_rem) is Some);
            vstd::std_specs::vec::axiom_spec_len(payload);
        }
        let (idx, l1) = match leb_read(payload, cur, 5) {
            None => {
                proof {
                    assert(false);
                }
                return None;
            },
            Some(pr) => pr,
        };
        let (es, end) = match read_map(payload, cur + l1) {
            None => {
                proof {
                    assert(false);
                }
                return None;
            },
            Some(pr) => pr,
        };
        let ghost old_lv = lv@;
        let ghost old_cur = cur as int;
        proof {
            let n0 = leb_dec(payload@, (cur + l1) as int, 5)->Some_0.0;
            let lm = leb_dec(payload@, (cur + l1) as int, 5)->Some_0.1;
            lemma_leb_bounds(payload@, (cur + l1) as int, 5);
            lemma_parse_entries_facts(payload@, cur + l1 + lm, n0);
        }
        proof {
            assert forall|j2: int| 0 <= j2 < es@.len() implies (#[trigger] es@[j2]).name@.len()
                < 0x1_0000_0000 by {
                assert(entries_view(es@)[j2] == ne_view(es@[j2]));
            }
            assert(es@.len() < 0x1_0000_0000) by {
                assert(entries_view(es@).len() == es@.len());
            }
        }
        lv.push(LocalEntry { idx, entries: es });
        cur = end;
        i = i + 1;
        proof {
            assert(locals_view(lv@) =~= locals_view(old_lv).push(le_view(lv@[lv@.len() - 1])));
            assert(parse_locals(payload@, old_cur, n_rem) == glue_l(
                seq![le_view(lv@[lv@.len() - 1])],
                parse_locals(payload@, cur as int, (n_rem - 1) as nat),
            ));
            assert forall|r2: Option<(Seq<(nat, Seq<(nat, Seq<u8>)>)>, int)>| true implies glue_l(
                locals_view(old_lv),
                glue_l(seq![le_view(lv@[lv@.len() - 1])], r2),
            ) == glue_l(locals_view(lv@), r2) by {
                match r2 {
                    None => {},
                    Some((rest, end2)) => {
                        assert(locals_view(old_lv) + (seq![le_view(lv@[lv@.len() - 1])] + rest)
                            =~= locals_view(lv@) + rest);
                    },
                }
            }
        }
    }
    proof {
        assert(lsv.len() == lv@.len()) by {
            assert(locals_view(lv@).len() == lv@.len());
        }
    }
    // phase B: filter, renumber, re-serialize
    let ghost p = live_local_pred(m, a, lsv);
    let ghost f = |k: int, j: int| (knew(m, a, ImpKind::Func, lsv[j].0 as int) as nat, lsv[j].1);
    let mut keep: Vec<LocalEntry> = Vec::new();
    let mut j: usize = 0;
    while j < lv.len()
        invariant
            wf_core(m),
            crate::remap::a_ok(m, a),
            rt_wf(m, a, *rt),
            sub_ok(m, 2, payload@),
            leb_dec(payload@, 0, 5) == Some((n2 as nat, l0 as int)),
            lsv == parse_locals(payload@, l0 as int, n2 as nat)->Some_0.0,
            parse_locals(payload@, l0 as int, n2 as nat) is Some,
            locals_view(lv@) == lsv,
            lsv.len() == lv@.len(),
            forall|j2: int| 0 <= j2 < lv@.len() ==> (#[trigger] lv@[j2]).entries@.len()
                < 0x1_0000_0000 && (forall|j3: int|
                0 <= j3 < lv@[j2].entries@.len() ==> (#[trigger] lv@[j2].entries@[j3]).name@.len()
                    < 0x1_0000_0000),
            p == live_local_pred(m, a, lsv),
            f == (|k: int, j2: int|
                (knew(m, a, ImpKind::Func, lsv[j2].0 as int) as nat, lsv[j2].1)),
            0 <= j <= lv@.len(),
            forall|j2: int| 0 <= j2 < j ==> entries_utf8((#[trigger] lsv[j2]).1),
            locals_view(keep@) == kept(p, j as int).map(f),
            forall|k: int| 0 <= k < keep@.len() ==> (#[trigger] keep@[k]).entries@.len()
                < 0x1_0000_0000 && (forall|j3: int|
                0 <= j3 < keep@[k].entries@.len() ==> (#[trigger] keep@[k].entries@[j3]).name@.len()
                    < 0x1_0000_0000),
        decreases lv@.len() - j,
    {
        proof {
            crate::util::lemma_kept_step(p, j as int);
            crate::util::lemma_kept_len(p, j as int);
            assert(le_view(lv@[j as int]) == lsv[j as int]);
        }
        // UTF-8 check of every inner name, dead or alive
        let inner = &lv[j].entries;
        let mut j2: usize = 0;
        while j2 < inner.len()
            invariant
                entries_view(inner@) == lsv[j as int].1,
                0 <= j < lv@.len(),
                lsv.len() == lv@.len(),
                0 <= j2 <= inner@.len(),
                sub_ok(m, 2, payload@),
                leb_dec(payload@, 0, 5) == Some((n2 as nat, l0 as int)),
                lsv == parse_locals(payload@, l0 as int, n2 as nat)->Some_0.0,
                forall|j3: int| 0 <= j3 < j2 ==> utf8_decode(
                    (#[trigger] lsv[j as int].1[j3]).1,
                ) is Some,
            decreases inner@.len() - j2,
        {
            match bytes_to_str(&inner[j2].name) {
                None => {
                    proof {
                        assert(!sub_utf8(2, payload@)) by {
                            assert(utf8_decode(lsv[j as int].1[j2 as int].1) is None);
                            assert(!entries_utf8(lsv[j as int].1));
                        }
                    }
                    return None;
                },
                Some(_) => {},
            }
            j2 = j2 + 1;
        }
        proof {
            assert(entries_utf8(lsv[j as int].1));
            assert(lsv[j as int].0 < n_flat(m, ImpKind::Func));
            lemma_cnt_bound_for(m, a, lsv[j as int].0 as int);
        }
        let val = rt.functions[lv[j].idx as usize];
        if val != 0xffff_ffff {
            let le = LocalEntry { idx: val, entries: copy_entries(&lv[j].entries) };
            keep.push(le);
            proof {
                assert(locals_view(keep@) =~= kept(p, j as int).map(f).push(
                    f(kept(p, j as int).len() as int, j as int),
                ));
                assert(kept(p, j + 1 as int).map(f) =~= kept(p, j as int).map(f).push(
                    f(kept(p, j as int).len() as int, j as int),
                ));
            }
        } else {
            proof {
                assert(!p(j as int));
            }
        }
        j = j + 1;
    }
    let ghost rl = rebuilt_locals(m, a, lsv);
    proof {
        assert(kept(p, lsv.len() as int).map(f) == rl);
        assert(locals_view(keep@) == rl);
        crate::util::lemma_kept_len(p, lsv.len() as int);
        crate::util::lemma_cnt_bound(p, lsv.len() as int);
        lemma_leb_bounds(payload@, 0, 5);
    }
    // serialize
    proof {
        assert(keep@.len() < 0x1_0000_0000) by {
            assert(locals_view(keep@).len() == keep@.len());
        }
    }
    let mut body: Vec<u8> = Vec::new();
    leb_write(&mut body, keep.len() as u32);
    let mut k: usize = 0;
    while k < keep.len()
        invariant
            locals_view(keep@) == rl,
            rl.len() == keep@.len(),
            forall|k2: int| 0 <= k2 < keep@.len() ==> (#[trigger] keep@[k2]).entries@.len()
                < 0x1_0000_0000 && (forall|j3: int|
                0 <= j3 < keep@[k2].entries@.len() ==> (
                #[trigger] keep@[k2].entries@[j3]).name@.len() < 0x1_0000_0000),
            0 <= k <= keep@.len(),
            body@ == leb(rl.len() as nat) + ser_locals_pfx(rl, k as int),
        decreases keep@.len() - k,
    {
        leb_write(&mut body, keep[k].idx);
        write_map(&mut body, &keep[k].entries);
        proof {
            assert(rl[k as int] == le_view(keep@[k as int]));
            assert(body@ =~= leb(rl.len() as nat) + ser_locals_pfx(rl, k + 1 as int));
        }
        k = k + 1;
    }
    if (body.len() as u64) >= 0x1_0000_0000u64 {
        proof {
            assert(body@ == ser_locals(rl));
            assert(!sub_fits(m, a, dem, 2, payload@));
        }
        return None;
    }
    proof {
        assert(body@ == ser_locals(rl));
        assert(sub_utf8(2, payload@));
        assert(sub_fits(m, a, dem, 2, payload@));
    }
    Some(body)
}

/// Rebuild the whole `name` payload.  `None` exactly when some name is
/// not valid UTF-8 or a rebuilt subsection would overflow the 32-bit
/// length fields.
#[verifier::rlimit(100)]
pub fn rebuild_name_payload(
    b: &Vec<u8>,
    rt: &RemapTables,
    Ghost(m): Ghost<Module>,
    Ghost(a): Ghost<Analysis>,
    dem: bool,
) -> (r: Option<Vec<u8>>)
    requires
        wf_core(m),
        crate::remap::a_ok(m, a),
        rt_wf(m, a, *rt),
        payload_ok(m, b@),
    ensures
        (r is Some) == (subs_utf8(parse_subs(b@, 0)->Some_0) && subs_fit(
            m,
            a,
            dem,
            parse_subs(b@, 0)->Some_0,
        )),
        r matches Some(v) ==> v@ == rebuilt_payload(m, a, dem, b@, 0),
{
    let ghost full = parse_subs(b@, 0)->Some_0;
    let mut res: Vec<u8> = Vec::new();
    let mut pos: usize = 0;
    let ghost done: Seq<(u8, Seq<u8>)> = Seq::empty();
    let mut gdone = Ghost(done);
    proof {
        assert(Seq::<(u8, Seq<u8>)>::empty() + full =~= full);
        assert(rebuilt_payload(m, a, dem, b@, 0) =~= Seq::<u8>::empty() + rebuilt_payload(
            m,
            a,
            dem,
            b@,
            0,
        ));
    }
    while pos < b.len()
        invariant
            wf_core(m),
            crate::remap::a_ok(m, a),
            rt_wf(m, a, *rt),
            payload_ok(m, b@),
            full == parse_subs(b@, 0)->Some_0,
            0 <= pos <= b@.len(),
            parse_subs(b@, pos as int) is Some,
            full == gdone@ + parse_subs(b@, pos as int)->Some_0,
            gdone@.len() + parse_subs(b@, pos as int)->Some_0.len() == full.len(),
            forall|i: int| 0 <= i < gdone@.len() ==> sub_utf8(
                (#[trigger] full[i]).0,
                full[i].1,
            ) && sub_fits(m, a, dem, full[i].0, full[i].1),
            rebuilt_payload(m, a, dem, b@, 0) == res@ + rebuilt_payload(m, a, dem, b@, pos as int),
        decreases b@.len() - pos,
    {
        let tag = b[pos];
        proof {
            vstd::std_specs::vec::axiom_spec_len(b);
        }
        let (plen, l) = match leb_read(b, pos + 1, 5) {
            None => {
                proof {
                    assert(false);
                }
                return None;
            },
            Some(pr) => pr,
        };
        let bstart = pos + 1 + l;
        proof {
            assert(bstart + plen <= b@.len());
        }
        let next = bstart + (plen as usize);
        let payload = subvec(b, bstart, next);
        let ghost cur_sub = (tag, b@.subrange(bstart as int, bstart + plen as int));
        proof {
            assert(parse_subs(b@, pos as int)->Some_0 == seq![cur_sub] + parse_subs(
                b@,
                next as int,
            )->Some_0);
            assert(full[gdone@.len() as int] == cur_sub) by {
                assert((gdone@ + (seq![cur_sub] + parse_subs(b@, next as int)->Some_0))[gdone@.len() as int]
                    == cur_sub);
            }
            assert(sub_ok(m, tag, payload@));
            assert(rebuilt_payload(m, a, dem, b@, pos as int) == rebuilt_sub(m, a, dem, tag, payload@)
                + rebuilt_payload(m, a, dem, b@, next as int));
        }
        let body = if tag == 0 {
            crate::remap::copy_bytes(&payload)
        } else if tag == 1 {
            match rebuild_tag1(&payload, rt, Ghost(m), Ghost(a), dem) {
                None => {
                    proof {
                        assert(!(subs_utf8(full) && subs_fit(m, a, dem, full))) by {
                            assert(full[gdone@.len() as int] == cur_sub);
                        }
                    }
                    return None;
                },
                Some(v) => v,
            }
        } else if tag == 2 {
            match rebuild_tag2(&payload, rt, Ghost(m), Ghost(a), Ghost(dem)) {
                None => {
                    proof {
                        assert(!(subs_utf8(full) && subs_fit(m, a, dem, full))) by {
                            assert(full[gdone@.len() as int] == cur_sub);
                        }
                    }
                    return None;
                },
                Some(v) => v,
            }
        } else {
            proof {
                assert(false);
            }
            return None;
        };
        if (body.len() as u64) >= 0x1_0000_0000u64 {
            proof {
                // tag 0 bodies are bounded by the parsed length; rebuilt
                // bodies over the limit were rejected above
                if tag == 0 {
                    assert(body@.len() == plen);
                    assert(false);
                } else if tag == 1 {
                    assert(!sub_fits(m, a, dem, tag, payload@));
                    assert(full[gdone@.len() as int] == cur_sub);
                } else {
                    assert(!sub_fits(m, a, dem, tag, payload@));
                    assert(full[gdone@.len() as int] == cur_sub);
                }
            }
            return None;
        }
        let ghost res0 = res@;
        res.push(tag);
        leb_write(&mut res, body.len() as u32);
        push_bytes(&mut res, &body);
        proof {
            assert(res@ =~= res0 + (seq![tag] + leb(body@.len() as nat) + body@));
            assert(seq![tag] + leb(body@.len() as nat) + body@ =~= rebuilt_sub(
                m,
                a,
                dem,
                tag,
                payload@,
            ));
            assert(res@ =~= res0 + rebuilt_sub(m, a, dem, tag, payload@));
            gdone@ = gdone@.push(cur_sub);
            assert(gdone@ + parse_subs(b@, next as int)->Some_0 =~= full);
            assert forall|i: int| 0 <= i < gdone@.len() implies sub_utf8(
                (#[trigger] full[i]).0,
                full[i].1,
            ) && sub_fits(m, a, dem, full[i].0, full[i].1) by {
                if i == gdone@.len() - 1 {
                    assert(full[i] == cur_sub);
                }
            }
        }
        pos = next;
    }
    proof {
        assert(parse_subs(b@, pos as int)->Some_0 =~= Seq::<(u8, Seq<u8>)>::empty());
        assert(gdone@ =~= full);
        assert(rebuilt_payload(m, a, dem, b@, pos as int) =~= Seq::<u8>::empty());
        assert(res@ =~= rebuilt_payload(m, a, dem, b@, 0));
        assert(subs_utf8(full));
        assert(subs_fit(m, a, dem, full));
    }
    Some(res)
}

} // verus!
