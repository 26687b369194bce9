//! From source text to the bytes of the output file.

use fox32asm::assembler::{assemble, AssembleError, Assembler};
use fox32asm::ast::AstNode;
use fox32asm::program::parse;

fn raw(source: &str) -> Vec<u8> {
    assemble(parse(source).unwrap(), false).unwrap()
}

fn fxf(source: &str) -> Vec<u8> {
    assemble(parse(source).unwrap(), true).unwrap()
}

fn failure(source: &str) -> AssembleError {
    assemble(parse(source).unwrap(), false).unwrap_err()
}

#[test]
fn empty_program_has_no_bytes() {
    assert_eq!(raw(""), Vec::<u8>::new());
    assert_eq!(raw(" \t\r\n ; only a comment"), Vec::<u8>::new());
}

#[test]
fn instructions_without_operands() {
    assert_eq!(raw("nop"), vec![0x00, 0x80]);
    assert_eq!(raw("nop.8 halt.16 brk.32"), vec![0x00, 0x00, 0x00, 0x50, 0x00, 0xA0]);
    assert_eq!(raw("ret reti ise icl mse mcl"), vec![
        0x00, 0xAA, 0x00, 0xBA, 0x00, 0x8C, 0x00, 0x9C, 0x00, 0x8D, 0x00, 0x9D
    ]);
}

#[test]
fn conditions_stand_in_the_control_byte() {
    assert_eq!(raw("ifz nop"), vec![0x10, 0x80]);
    assert_eq!(raw("ifnz nop"), vec![0x20, 0x80]);
    assert_eq!(raw("ifc nop"), vec![0x30, 0x80]);
    assert_eq!(raw("iflt nop"), vec![0x30, 0x80]);
    assert_eq!(raw("ifnc nop"), vec![0x40, 0x80]);
    assert_eq!(raw("ifgteq nop"), vec![0x40, 0x80]);
    assert_eq!(raw("ifgt nop"), vec![0x50, 0x80]);
    assert_eq!(raw("iflteq nop"), vec![0x60, 0x80]);
}

#[test]
fn instructions_with_one_operand() {
    assert_eq!(raw("not r5"), vec![0x00, 0xB3, 5]);
    assert_eq!(raw("push.8 7"), vec![0x02, 0x0A, 7]);
    assert_eq!(raw("pop.16 [r3]"), vec![0x01, 0x5A, 3]);
    assert_eq!(raw("push 0x01020304"), vec![0x02, 0x8A, 4, 3, 2, 1]);
    assert_eq!(raw("call [0x01020304]"), vec![0x03, 0x98, 4, 3, 2, 1]);
    assert_eq!(raw("int 1 tlb r0 flp r0"), vec![
        0x02, 0xAC, 1, 0, 0, 0, 0x00, 0xAD, 0, 0x00, 0xBD, 0
    ]);
}

#[test]
fn stack_and_frame_pointers_are_the_last_registers() {
    assert_eq!(raw("push rsp push resp push rfp"), vec![
        0x00, 0x8A, 32, 0x00, 0x8A, 33, 0x00, 0x8A, 34
    ]);
    assert_eq!(raw("push r34"), vec![0x00, 0x8A, 34]);
}

#[test]
fn source_comes_before_destination() {
    assert_eq!(raw("mov r1, r2"), vec![0x00, 0x97, 2, 1]);
    assert_eq!(raw("mov r0, 0x12345678"), vec![0x02, 0x97, 0x78, 0x56, 0x34, 0x12, 0]);
    assert_eq!(raw("mov [0x10], 'A'"), vec![0x0E, 0x97, 0x41, 0, 0, 0, 0x10, 0, 0, 0]);
    assert_eq!(raw("add.16 [r1], 0x102"), vec![0x06, 0x41, 2, 1, 1]);
}

#[test]
fn pointers_with_offsets() {
    assert_eq!(raw("mov.8 [r1+5], r2"), vec![0x84, 0x17, 2, 1, 5]);
    assert_eq!(raw("mov.8 r2, [r1 + 5]"), vec![0x81, 0x17, 1, 5, 2]);
    // with one offset the other pointer gets an offset of 0
    assert_eq!(raw("mov.8 [r1+5], [r2]"), vec![0x85, 0x17, 2, 0, 1, 5]);
    assert_eq!(raw("mov.8 [r1+0], [r2]"), vec![0x05, 0x17, 2, 1]);
    // an offset is a single byte
    assert_eq!(raw("push [r1+0x1FF]"), vec![0x81, 0x8A, 1, 0xFF]);
    assert_eq!(raw("push [r1+256]"), vec![0x81, 0x8A, 1, 0]);
}

#[test]
fn steps_of_increments() {
    assert_eq!(raw("inc r0"), vec![0x00, 0x91, 0]);
    assert_eq!(raw("inc r0, 1"), vec![0x00, 0x91, 0]);
    assert_eq!(raw("inc r0, 2"), vec![0x04, 0x91, 0]);
    assert_eq!(raw("dec.8 r1, 4"), vec![0x08, 0x31, 1]);
    assert_eq!(raw("dec [r1+3], 8"), vec![0x8D, 0xB1, 1, 3]);
}

#[test]
fn numbers_of_bits_are_single_bytes() {
    assert_eq!(raw("sla r0, 3"), vec![0x02, 0x84, 3, 0]);
    assert_eq!(raw("bts.16 r0, 0x105"), vec![0x02, 0x66, 5, 0]);
    assert_eq!(raw("ror r0, r1"), vec![0x00, 0xA5, 1, 0]);
    assert_eq!(raw("and r0, 3"), vec![0x02, 0x83, 3, 0, 0, 0, 0]);
}

#[test]
fn every_instruction_with_two_operands() {
    let names = [
        ("add", 0x01), ("sub", 0x21), ("mul", 0x02), ("imul", 0x14), ("div", 0x22),
        ("idiv", 0x34), ("rem", 0x32), ("irem", 0x35), ("and", 0x03), ("or", 0x13),
        ("xor", 0x23), ("sla", 0x04), ("sra", 0x05), ("srl", 0x15), ("rol", 0x24),
        ("ror", 0x25), ("bse", 0x06), ("bcl", 0x16), ("bts", 0x26), ("cmp", 0x07),
        ("mov", 0x17), ("movz", 0x27), ("rta", 0x39), ("in", 0x0B), ("out", 0x1B),
    ];
    for (name, code) in names {
        let source = format!("{} r1, r2", name);
        assert_eq!(raw(&source), vec![0x00, 0x80 | code, 2, 1]);
    }
}

#[test]
fn every_instruction_with_one_operand() {
    let names = [
        ("not", 0x33), ("jmp", 0x08), ("call", 0x18), ("loop", 0x28), ("rjmp", 0x09),
        ("rcall", 0x19), ("rloop", 0x29), ("push", 0x0A), ("pop", 0x1A), ("int", 0x2C),
        ("tlb", 0x2D), ("flp", 0x3D),
    ];
    for (name, code) in names {
        let source = format!("{}.16 r9", name);
        assert_eq!(raw(&source), vec![0x00, 0x40 | code, 9]);
    }
}

#[test]
fn labels_are_filled_in() {
    let source = "
        nop
    start:
        jmp start
        rjmp start
        rjmp after
        data.32 start
    after:
        mov r0, after
        mov r0, [after]
    ";
    assert_eq!(raw(source), vec![
        0x00, 0x80,
        0x02, 0x88, 2, 0, 0, 0,
        0x02, 0x89, 0xFA, 0xFF, 0xFF, 0xFF,
        0x02, 0x89, 10, 0, 0, 0,
        2, 0, 0, 0,
        0x02, 0x97, 24, 0, 0, 0, 0,
        0x03, 0x97, 24, 0, 0, 0, 0,
    ]);
}

#[test]
fn labels_of_smaller_sizes_keep_their_low_bytes() {
    let source = "org.pad 0x1234 here: data.8 here data.16 here mov.8 r0, here";
    let binary = raw(source);
    assert_eq!(binary.len(), 0x1234 + 1 + 2 + 4);
    assert_eq!(&binary[0x1234..], &[0x34, 0x34, 0x12, 0x02, 0x17, 0x34, 0][..]);
}

#[test]
fn both_operands_of_rta_are_relative() {
    assert_eq!(raw("nop rta there, there there:"), vec![
        0x00, 0x80, 0x0A, 0xB9, 10, 0, 0, 0, 10, 0, 0, 0
    ]);
}

#[test]
fn constants_are_known_by_name() {
    assert_eq!(raw("const WIDTH: 640 mov r0, WIDTH"), vec![0x02, 0x97, 0x80, 2, 0, 0, 0]);
    // the last value of a constant counts, also for uses before it
    assert_eq!(raw("const A: 1 push A const A: 2"), vec![0x02, 0x8A, 2, 0, 0, 0]);
    // a constant takes the place of a label
    assert_eq!(raw("nop a: push a const a: 7"), vec![0x00, 0x80, 0x02, 0x8A, 7, 0, 0, 0]);
}

#[test]
fn data_of_all_kinds() {
    assert_eq!(raw("data.8 0x1FF data.16 0x10002 data.32 0b1_0000"), vec![
        0xFF, 2, 0, 16, 0, 0, 0
    ]);
    assert_eq!(raw("data.str \"a;b\" data.strz \"\u{e9}\""), vec![
        b'a', b';', b'b', 0xC3, 0xA9, 0
    ]);
    assert_eq!(raw("data.fill 0x107, 3"), vec![7, 7, 7]);
    assert_eq!(raw("data.fill 1, 0"), Vec::<u8>::new());
    assert_eq!(raw("data.8 'A' data.8 '''"), vec![0x41, 0x27]);
}

#[test]
fn origins_move_the_address() {
    // without padding no bytes are written
    assert_eq!(raw("org 0x100 here: data.32 here"), vec![0, 1, 0, 0]);
    assert_eq!(raw("data.8 1 org.pad 4 here: data.8 here"), vec![1, 0, 0, 0, 4]);
}

#[test]
fn an_origin_must_lie_behind() {
    assert_eq!(failure("org 0"), AssembleError::OriginBehind);
    assert_eq!(failure("data.32 0 org 4"), AssembleError::OriginBehind);
    assert_eq!(failure("data.32 0 org.pad 3"), AssembleError::OriginBehind);
}

#[test]
fn labels_are_defined_once() {
    assert_eq!(failure("a: nop a:"), AssembleError::DuplicateLabel("a".to_string()));
    assert_eq!(
        failure("const a: 1 a:"),
        AssembleError::DuplicateLabel("a".to_string())
    );
}

#[test]
fn labels_that_are_used_must_be_defined() {
    // of several the first by name is reported
    assert_eq!(
        failure("jmp zed jmp able"),
        AssembleError::LabelNotFound("able".to_string())
    );
}

#[test]
fn the_program_ends_within_the_address_space() {
    assert_eq!(
        failure("org 0xFFFFFFFF nop"),
        AssembleError::AddressOverflow
    );
    assert_eq!(raw("org 0xFFFFFFFD nop"), vec![0x00, 0x80]);
}

#[test]
fn operands_are_no_statements() {
    let nodes = vec![AstNode::Register(0)];
    assert_eq!(assemble(nodes, false).unwrap_err(), AssembleError::NotAssemblable);
    let nodes = vec![AstNode::IncludeBinary { path: "x".to_string(), optional: true }];
    assert_eq!(assemble(nodes, false).unwrap_err(), AssembleError::NotAssemblable);
}

#[test]
fn binary_data_is_taken_over() {
    let nodes = vec![
        AstNode::IncludedBinary(vec![1, 2, 3]),
        AstNode::LabelDefine {
            name: "end".to_string(),
            kind: fox32asm::ast::LabelKind::Internal,
        },
        AstNode::LabelOperand {
            name: "end".to_string(),
            size: fox32asm::ast::Size::Byte,
            is_relative: false,
        },
    ];
    assert_eq!(assemble(nodes, false).unwrap(), vec![1, 2, 3, 3]);
}

#[test]
fn fxf_header_and_relocations() {
    let source = "const C: 5 start: jmp start rjmp start push C data.32 start";
    let mut expected = vec![b'F', b'X', b'F', 0];
    expected.extend_from_slice(&22u32.to_le_bytes());
    expected.extend_from_slice(&0x14u32.to_le_bytes());
    expected.extend_from_slice(&8u32.to_le_bytes());
    expected.extend_from_slice(&(0x14u32 + 22).to_le_bytes());
    expected.extend_from_slice(&[0x02, 0x88, 0, 0, 0, 0]);
    expected.extend_from_slice(&[0x02, 0x89, 0xFA, 0xFF, 0xFF, 0xFF]);
    expected.extend_from_slice(&[0x02, 0x8A, 5, 0, 0, 0]);
    expected.extend_from_slice(&[0, 0, 0, 0]);
    // neither the relative use nor that of the constant is listed
    expected.extend_from_slice(&2u32.to_le_bytes());
    expected.extend_from_slice(&18u32.to_le_bytes());
    assert_eq!(fxf(source), expected);
}

#[test]
fn relocations_are_listed_by_name() {
    let binary = fxf("push zed push able zed: able:");
    let table = &binary[0x14 + 12..];
    assert_eq!(table, &[8, 0, 0, 0, 2, 0, 0, 0][..]);
}

#[test]
fn address_table_lists_labels_by_address() {
    let nodes = parse("nop second: nop const C: 0xABCDEF01 third: first: org 0x10 last:").unwrap();
    let assembler = Assembler::lay_out(nodes).unwrap();
    let table = assembler.address_table();
    assert_eq!(
        table,
        "0x00000002 :: second\n0x00000004 :: third\n0x00000004 :: first\n\
         0x00000010 :: last\n0xABCDEF01 :: C"
    );
}

#[test]
fn statements_can_be_added_one_by_one() {
    let mut assembler = Assembler::new();
    for node in parse("here: push here").unwrap() {
        assembler.add(node).unwrap();
    }
    let relocs = assembler.resolve().unwrap();
    assert_eq!(relocs, vec![2]);
    assert_eq!(assembler.finish(false).unwrap(), vec![0x02, 0x8A, 0, 0, 0, 0]);
}
