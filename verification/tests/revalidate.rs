//! A wasm binary round trip: a module is serialized, decoded, run
//! through the pass on the library's model, re-assembled and serialized
//! again, and the result decodes without error with the expected shape.

use parity_wasm::elements::{
    self, CodeSection, ExportSection, FunctionSection, Instruction, Instructions, Internal,
    Module as PwModule, Section, Type, TypeSection,
};
use wasm_gc::gc::run;
use wasm_gc::module::{ExportEntry, ExportRef, FuncBody, FuncType, Instr, Module};
use wasm_gc::Config;

#[test]
fn pass_output_revalidates() {
    // two functions of the unit type; f0 is dead, f1 is exported
    let sections = vec![
        Section::Type(TypeSection::with_types(vec![
            Type::Function(elements::FunctionType::new(vec![], None)),
        ])),
        Section::Function(FunctionSection::with_entries(vec![
            elements::Func::new(0),
            elements::Func::new(0),
        ])),
        Section::Export(ExportSection::with_entries(vec![
            elements::ExportEntry::new("live".to_string(), Internal::Function(1)),
        ])),
        Section::Code(CodeSection::with_bodies(vec![
            elements::FuncBody::new(
                vec![],
                Instructions::new(vec![Instruction::Call(1), Instruction::End]),
            ),
            elements::FuncBody::new(vec![], Instructions::new(vec![Instruction::End])),
        ])),
    ];
    let input = PwModule::new(sections);
    let bytes = elements::serialize(input).expect("serialize input");
    let decoded: PwModule = elements::deserialize_buffer(&bytes).expect("decode input");

    // read the decoded module into the library's model and run the pass
    let type_count = decoded.type_section().unwrap().types().len();
    assert_eq!(type_count, 1);
    let mut model = Module {
        types: Some(vec![FuncType { params: vec![], ret: None }]),
        imports: None,
        funcs: Some(
            decoded
                .function_section()
                .unwrap()
                .entries()
                .iter()
                .map(|f| f.type_ref())
                .collect(),
        ),
        tables: None,
        memories: None,
        globals: None,
        exports: Some(
            decoded
                .export_section()
                .unwrap()
                .entries()
                .iter()
                .map(|e| ExportEntry {
                    field: e.field().to_string(),
                    internal: match e.internal() {
                        Internal::Function(i) => ExportRef::Function(*i),
                        _ => panic!("unexpected export kind"),
                    },
                })
                .collect(),
        ),
        start: None,
        elements: None,
        data: None,
        code: Some(
            decoded
                .code_section()
                .unwrap()
                .bodies()
                .iter()
                .map(|b| FuncBody {
                    locals: vec![],
                    code: b
                        .code()
                        .elements()
                        .iter()
                        .map(|op| match op {
                            Instruction::Call(f) => Instr::Call(*f),
                            _ => Instr::Other,
                        })
                        .collect(),
                })
                .collect(),
        ),
        name_payload: None,
    };
    assert_eq!(run(&Config { demangle: false }, &mut model), Ok(()));

    // only the exported function survives: both functions are kept only
    // when the dead one is referenced, which it is not
    assert_eq!(model.funcs, Some(vec![0]));
    let out_code = model.code.clone().unwrap();
    assert_eq!(out_code.len(), 1);

    // rebuild a binary module from the model output; in this module the
    // only opaque instruction is the terminating `end`
    let out_sections = vec![
        Section::Type(TypeSection::with_types(vec![
            Type::Function(elements::FunctionType::new(vec![], None)),
        ])),
        Section::Function(FunctionSection::with_entries(
            model.funcs.unwrap().iter().map(|t| elements::Func::new(*t)).collect(),
        )),
        Section::Export(ExportSection::with_entries(
            model
                .exports
                .unwrap()
                .iter()
                .map(|e| {
                    let idx = match e.internal {
                        ExportRef::Function(i) => i,
                        _ => panic!("unexpected export kind"),
                    };
                    elements::ExportEntry::new(e.field.clone(), Internal::Function(idx))
                })
                .collect(),
        )),
        Section::Code(CodeSection::with_bodies(
            out_code
                .iter()
                .map(|b| {
                    let ops = b
                        .code
                        .iter()
                        .map(|i| match i {
                            Instr::Call(f) => Instruction::Call(*f),
                            _ => Instruction::End,
                        })
                        .collect();
                    elements::FuncBody::new(vec![], Instructions::new(ops))
                })
                .collect(),
        )),
    ];
    let out_bytes = elements::serialize(PwModule::new(out_sections)).expect("serialize output");
    let revalidated: PwModule = elements::deserialize_buffer(&out_bytes).expect("decode output");
    assert_eq!(revalidated.function_section().unwrap().entries().len(), 1);
    assert_eq!(
        revalidated.export_section().unwrap().entries()[0].internal(),
        &Internal::Function(0)
    );
}
