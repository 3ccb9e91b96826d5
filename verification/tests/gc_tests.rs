use wasm_gc::gc::{run, GcError};
use wasm_gc::module::{
    DataSegment, ElementSegment, ExportEntry, ExportRef, FuncBody, FuncType, GlobalEntry, ImportEntry,
    ImportRef, Instr, MemoryEntry, Module, TableEntry, ValType,
};
use wasm_gc::Config;

fn empty_module() -> Module {
    Module {
        types: None,
        imports: None,
        funcs: None,
        tables: None,
        memories: None,
        globals: None,
        exports: None,
        start: None,
        elements: None,
        data: None,
        code: None,
        name_payload: None,
    }
}

fn unit_type() -> FuncType {
    FuncType { params: vec![], ret: None }
}

fn body(code: Vec<Instr>) -> FuncBody {
    FuncBody { locals: vec![], code }
}

fn export(name: &str, internal: ExportRef) -> ExportEntry {
    ExportEntry { field: name.to_string(), internal }
}

fn import(module: &str, field: &str, external: ImportRef) -> ImportEntry {
    ImportEntry { module: module.to_string(), field: field.to_string(), external }
}

fn cfg(demangle: bool) -> Config {
    Config { demangle }
}

#[test]
fn s1_dead_function() {
    // f0 is dead (its call of f1 contributes nothing once f0 is dropped);
    // f1 is exported and survives, renumbered to 0.
    let mut m = empty_module();
    m.types = Some(vec![unit_type()]);
    m.funcs = Some(vec![0, 0]);
    m.code = Some(vec![body(vec![Instr::Call(1)]), body(vec![])]);
    m.exports = Some(vec![export("live", ExportRef::Function(1))]);
    assert_eq!(run(&cfg(false), &mut m), Ok(()));
    assert_eq!(m.funcs, Some(vec![0]));
    assert_eq!(m.code, Some(vec![body(vec![])]));
    assert_eq!(m.exports, Some(vec![export("live", ExportRef::Function(0))]));
    // type section unchanged
    assert_eq!(m.types, Some(vec![unit_type()]));
}

#[test]
fn s2_blacklisted_export() {
    let mut m = empty_module();
    m.types = Some(vec![unit_type()]);
    m.funcs = Some(vec![0]);
    m.code = Some(vec![body(vec![Instr::Other])]);
    m.exports = Some(vec![export("__udivsi3", ExportRef::Function(0))]);
    assert_eq!(run(&cfg(false), &mut m), Ok(()));
    assert_eq!(m.types, None);
    assert_eq!(m.funcs, None);
    assert_eq!(m.code, None);
    assert_eq!(m.exports, None);
}

#[test]
fn s3_import_prefix() {
    let mut m = empty_module();
    m.types = Some(vec![unit_type()]);
    m.imports = Some(vec![
        import("env", "a", ImportRef::Function(0)),
        import("env", "b", ImportRef::Function(0)),
        import("env", "g", ImportRef::Global),
    ]);
    m.funcs = Some(vec![0]);
    // m0 is flat function 2 and calls import "env.b" (flat function 1)
    m.code = Some(vec![body(vec![Instr::Call(1)])]);
    m.exports = Some(vec![export("x", ExportRef::Function(2))]);
    assert_eq!(run(&cfg(false), &mut m), Ok(()));
    let imports = m.imports.unwrap();
    assert_eq!(imports.len(), 1);
    assert_eq!(imports[0].field, "b");
    assert_eq!(imports[0].external, ImportRef::Function(0));
    // "env.b" is function 0; m0 is function 1; the call targets 0
    assert_eq!(m.funcs, Some(vec![0]));
    assert_eq!(m.code, Some(vec![body(vec![Instr::Call(0)])]));
    assert_eq!(m.exports, Some(vec![export("x", ExportRef::Function(1))]));
}

#[test]
fn s4_element_segment() {
    // The conservative root rules make every element-segment member live,
    // so all three functions survive; the segment is renumbered and the
    // table retained.
    let mut m = empty_module();
    m.types = Some(vec![unit_type()]);
    m.funcs = Some(vec![0, 0, 0]);
    m.code = Some(vec![body(vec![]), body(vec![]), body(vec![])]);
    m.tables = Some(vec![TableEntry { min: 3, max: None }]);
    m.elements = Some(vec![ElementSegment {
        table_index: 0,
        offset: vec![Instr::Other],
        members: vec![0, 1, 2],
    }]);
    m.exports = Some(vec![export("f", ExportRef::Function(1))]);
    assert_eq!(run(&cfg(false), &mut m), Ok(()));
    assert_eq!(m.tables, Some(vec![TableEntry { min: 3, max: None }]));
    let elems = m.elements.unwrap();
    assert_eq!(elems[0].members, vec![0, 1, 2]);
    assert_eq!(m.funcs, Some(vec![0, 0, 0]));
}

#[test]
fn s5_data_segment_keeps_memory() {
    let mut m = empty_module();
    m.memories = Some(vec![MemoryEntry { min: 1, max: None }]);
    m.data = Some(vec![DataSegment {
        memory_index: 0,
        offset: vec![Instr::Other],
        data: vec![1, 2, 3],
    }]);
    assert_eq!(run(&cfg(false), &mut m), Ok(()));
    assert_eq!(m.memories, Some(vec![MemoryEntry { min: 1, max: None }]));
    let data = m.data.unwrap();
    assert_eq!(data[0].memory_index, 0);
    assert_eq!(data[0].data, vec![1, 2, 3]);
}

/// tag 1 payload with one entry: index, name.
fn tag1_payload(idx: u8, name: &[u8]) -> Vec<u8> {
    let mut body = vec![1u8, idx, name.len() as u8];
    body.extend_from_slice(name);
    let mut p = vec![1u8, body.len() as u8];
    p.extend_from_slice(&body);
    p
}

#[test]
fn s6_name_demangling() {
    let mangled = b"_ZN4main4main17h0123456789abcdefE";
    // demangle = false: bytes preserved, index renumbered
    let mut m = empty_module();
    m.types = Some(vec![unit_type()]);
    m.funcs = Some(vec![0, 0]);
    m.code = Some(vec![body(vec![]), body(vec![])]);
    m.exports = Some(vec![export("live", ExportRef::Function(1))]);
    m.name_payload = Some(tag1_payload(1, mangled));
    assert_eq!(run(&cfg(false), &mut m), Ok(()));
    assert_eq!(m.name_payload, Some(tag1_payload(0, mangled)));

    // demangle = true: the demangler's output replaces the name
    let mut m2 = empty_module();
    m2.types = Some(vec![unit_type()]);
    m2.funcs = Some(vec![0, 0]);
    m2.code = Some(vec![body(vec![]), body(vec![])]);
    m2.exports = Some(vec![export("live", ExportRef::Function(1))]);
    m2.name_payload = Some(tag1_payload(1, mangled));
    assert_eq!(run(&cfg(true), &mut m2), Ok(()));
    let expected = format!(
        "{}",
        rustc_demangle::demangle(std::str::from_utf8(mangled).unwrap())
    );
    assert_eq!(m2.name_payload, Some(tag1_payload(0, expected.as_bytes())));
    // the demangled form differs from the raw bytes
    assert_ne!(expected.as_bytes(), &mangled[..]);
}

#[test]
fn blacklisted_memcpy_dropped_when_unreferenced() {
    let mut m = empty_module();
    m.types = Some(vec![unit_type()]);
    m.funcs = Some(vec![0]);
    m.code = Some(vec![body(vec![])]);
    m.exports = Some(vec![export("memcpy", ExportRef::Function(0))]);
    assert_eq!(run(&cfg(false), &mut m), Ok(()));
    assert_eq!(m.funcs, None);
    assert_eq!(m.exports, None);
}

#[test]
fn blacklisted_memcpy_kept_when_called() {
    let mut m = empty_module();
    m.types = Some(vec![unit_type()]);
    m.funcs = Some(vec![0, 0]);
    // f1 is exported under a normal name and calls f0 (also exported as memcpy)
    m.code = Some(vec![body(vec![]), body(vec![Instr::Call(0)])]);
    m.exports = Some(vec![
        export("memcpy", ExportRef::Function(0)),
        export("user", ExportRef::Function(1)),
    ]);
    assert_eq!(run(&cfg(false), &mut m), Ok(()));
    // the function body of memcpy survives; the export entry does not
    assert_eq!(m.funcs, Some(vec![0, 0]));
    assert_eq!(m.exports, Some(vec![export("user", ExportRef::Function(1))]));
}

#[test]
fn idempotence() {
    let build = || {
        let mut m = empty_module();
        m.types = Some(vec![unit_type()]);
        m.imports = Some(vec![
            import("env", "a", ImportRef::Function(0)),
            import("env", "b", ImportRef::Function(0)),
        ]);
        m.funcs = Some(vec![0, 0]);
        m.code = Some(vec![body(vec![Instr::Call(1)]), body(vec![])]);
        m.exports = Some(vec![export("x", ExportRef::Function(2))]);
        m
    };
    let mut once = build();
    assert_eq!(run(&cfg(false), &mut once), Ok(()));
    let mut twice = build();
    assert_eq!(run(&cfg(false), &mut twice), Ok(()));
    assert_eq!(run(&cfg(false), &mut twice), Ok(()));
    assert_eq!(once, twice);
}

#[test]
fn module_name_subsection_is_copied() {
    let mut payload = vec![0u8, 3u8];
    payload.extend_from_slice(b"mod");
    let mut m = empty_module();
    m.types = Some(vec![unit_type()]);
    m.funcs = Some(vec![0]);
    m.code = Some(vec![body(vec![])]);
    m.exports = Some(vec![export("f", ExportRef::Function(0))]);
    m.name_payload = Some(payload.clone());
    assert_eq!(run(&cfg(false), &mut m), Ok(()));
    assert_eq!(m.name_payload, Some(payload));
}

#[test]
fn local_names_follow_their_function() {
    // tag 2: two entries; the one for the dead function disappears, the
    // survivor's outer index is renumbered and its inner map kept.
    let mut bodyv = vec![2u8];
    // entry for dead f0: index 0, inner map of one local name "x"
    bodyv.extend_from_slice(&[0u8, 1u8, 0u8, 1u8, b'x']);
    // entry for live f1: index 1, inner map of one local name "y"
    bodyv.extend_from_slice(&[1u8, 1u8, 0u8, 1u8, b'y']);
    let mut payload = vec![2u8, bodyv.len() as u8];
    payload.extend_from_slice(&bodyv);

    let mut m = empty_module();
    m.types = Some(vec![unit_type()]);
    m.funcs = Some(vec![0, 0]);
    m.code = Some(vec![body(vec![]), body(vec![])]);
    m.exports = Some(vec![export("live", ExportRef::Function(1))]);
    m.name_payload = Some(payload);
    assert_eq!(run(&cfg(false), &mut m), Ok(()));

    let mut expect_body = vec![1u8];
    expect_body.extend_from_slice(&[0u8, 1u8, 0u8, 1u8, b'y']);
    let mut expect = vec![2u8, expect_body.len() as u8];
    expect.extend_from_slice(&expect_body);
    assert_eq!(m.name_payload, Some(expect));
}

#[test]
fn ill_formed_utf8_name_is_fatal() {
    let mut m = empty_module();
    m.types = Some(vec![unit_type()]);
    m.funcs = Some(vec![0]);
    m.code = Some(vec![body(vec![])]);
    m.exports = Some(vec![export("f", ExportRef::Function(0))]);
    m.name_payload = Some(tag1_payload(0, &[0xff, 0xfe]));
    let before = m.clone();
    assert_eq!(run(&cfg(false), &mut m), Err(GcError::BadNameSection));
    // the module is left untouched
    assert_eq!(m, before);
}

#[test]
fn start_function_is_a_root() {
    let mut m = empty_module();
    m.types = Some(vec![unit_type()]);
    m.funcs = Some(vec![0, 0]);
    m.code = Some(vec![body(vec![]), body(vec![])]);
    m.start = Some(1);
    assert_eq!(run(&cfg(false), &mut m), Ok(()));
    // only the start function survives, renumbered to 0
    assert_eq!(m.funcs, Some(vec![0]));
    assert_eq!(m.start, Some(0));
}

#[test]
fn globals_follow_initializers_and_imports() {
    let mut m = empty_module();
    m.types = Some(vec![unit_type()]);
    m.imports = Some(vec![import("env", "g0", ImportRef::Global)]);
    m.globals = Some(vec![
        GlobalEntry { content: ValType::I32, mutable: false, init: vec![Instr::Other] },
        // flat global 2 reads imported global 0
        GlobalEntry { content: ValType::I64, mutable: true, init: vec![Instr::GetGlobal(0)] },
    ]);
    m.funcs = Some(vec![0]);
    m.code = Some(vec![body(vec![Instr::GetGlobal(2)])]);
    m.exports = Some(vec![export("f", ExportRef::Function(0))]);
    assert_eq!(run(&cfg(false), &mut m), Ok(()));
    // the unused module global 1 (flat 1) is dropped; the import survives
    let imports = m.imports.unwrap();
    assert_eq!(imports.len(), 1);
    assert_eq!(imports[0].field, "g0");
    let globals = m.globals.unwrap();
    assert_eq!(globals.len(), 1);
    assert_eq!(globals[0].content, ValType::I64);
    assert_eq!(globals[0].init, vec![Instr::GetGlobal(0)]);
    assert_eq!(m.code, Some(vec![body(vec![Instr::GetGlobal(1)])]));
}

#[test]
fn call_indirect_keeps_its_type() {
    let mut m = empty_module();
    m.types = Some(vec![
        unit_type(),
        FuncType { params: vec![ValType::I32], ret: Some(ValType::I32) },
    ]);
    m.funcs = Some(vec![0]);
    m.code = Some(vec![body(vec![Instr::CallIndirect(1)])]);
    m.exports = Some(vec![export("f", ExportRef::Function(0))]);
    assert_eq!(run(&cfg(false), &mut m), Ok(()));
    // both the function's own type and the indirect-call type survive
    let types = m.types.unwrap();
    assert_eq!(types.len(), 2);
    assert_eq!(m.code, Some(vec![body(vec![Instr::CallIndirect(1)])]));
}

#[test]
fn empty_module_stays_empty() {
    let mut m = empty_module();
    assert_eq!(run(&cfg(false), &mut m), Ok(()));
    assert_eq!(m, empty_module());
}

#[test]
fn imported_memory_is_pinned() {
    let mut m = empty_module();
    m.types = Some(vec![unit_type()]);
    m.imports = Some(vec![import("env", "memory", ImportRef::Memory)]);
    m.funcs = Some(vec![0]);
    m.code = Some(vec![body(vec![])]);
    m.exports = Some(vec![export("f", ExportRef::Function(0))]);
    assert_eq!(run(&cfg(false), &mut m), Ok(()));
    // the imported memory is a root even though nothing references it
    let imports = m.imports.unwrap();
    assert_eq!(imports.len(), 1);
    assert_eq!(imports[0].field, "memory");
    assert_eq!(m.funcs, Some(vec![0]));
}

#[test]
fn dead_function_name_entries_are_dropped() {
    // tag 1 with two entries; the dead function's entry disappears and
    // the survivor is renumbered.
    let mut body_bytes = vec![2u8];
    body_bytes.extend_from_slice(&[0u8, 4u8]);
    body_bytes.extend_from_slice(b"dead");
    body_bytes.extend_from_slice(&[1u8, 4u8]);
    body_bytes.extend_from_slice(b"live");
    let mut payload = vec![1u8, body_bytes.len() as u8];
    payload.extend_from_slice(&body_bytes);

    let mut m = empty_module();
    m.types = Some(vec![unit_type()]);
    m.funcs = Some(vec![0, 0]);
    m.code = Some(vec![body(vec![]), body(vec![])]);
    m.exports = Some(vec![export("keep", ExportRef::Function(1))]);
    m.name_payload = Some(payload);
    assert_eq!(run(&cfg(false), &mut m), Ok(()));
    assert_eq!(m.name_payload, Some(tag1_payload(0, b"live")));
}
