use ropc::ast::{AST, Const, Exp, Type, Pos};
use ropc::codegen::{
    align_byteorder, bytewise_search, codegen, codegen_binary, eval_gadget, gadget_sets, hexafy,
    mnemonicwise_search, pack, subst_gadget, AsmOutcome, AsmSyntax, BitWidth, CgErr, Cpu, InsnRec,
};
use ropc::parser::parser;

fn chars(s: &str) -> Vec<char> {
    s.chars().collect()
}

fn string_of(v: &[char]) -> String {
    v.iter().collect()
}

fn asm_const(s: &str) -> Const {
    Const::Asm(chars(s), Pos::Pos(1, 1), Type::AsmType)
}

#[test]
fn hexafy_renders_lowercase() {
    assert_eq!(string_of(&hexafy(0)), "0");
    assert_eq!(string_of(&hexafy(0x4011a0)), "4011a0");
    assert_eq!(string_of(&hexafy(0xdeadbeef)), "deadbeef");
    assert_eq!(string_of(&hexafy(u64::MAX)), "ffffffffffffffff");
}

#[test]
fn byteorder_toggle_reverses_pairs() {
    let r = align_byteorder(chars("4011a0"), true);
    assert_eq!(string_of(&r), "a01140");
    let untouched = align_byteorder(chars("4011a0"), false);
    assert_eq!(string_of(&untouched), "4011a0");
}

#[test]
fn byteorder_toggle_involution() {
    let once = align_byteorder(chars("a01140"), true);
    let twice = align_byteorder(once, true);
    assert_eq!(string_of(&twice), "a01140");
}

#[test]
fn byteorder_pads_odd_strings_left() {
    let r = align_byteorder(chars("abc"), true);
    assert_eq!(string_of(&r), "bc0a");
}

#[test]
fn pack_appends_trailing_zeros() {
    assert_eq!(string_of(&pack(chars("4a"), BitWidth::BitComputing16)), "4a00");
    assert_eq!(string_of(&pack(chars("4a"), BitWidth::BitComputingNone)), "4a");
    assert_eq!(
        string_of(&pack(chars("123456789"), BitWidth::BitComputing64)),
        "1234567890000000"
    );
    assert_eq!(string_of(&pack(chars("123456789"), BitWidth::BitComputing16)), "123456789");
}

#[test]
fn byteorder_scenario_full_width() {
    // Address 0x4011a0, 64-bit width, byte order on.
    let r = subst_gadget(0x4011a0, &chars("ret"), BitWidth::BitComputing64, true, false);
    assert_eq!(string_of(&r), "a011400000000000");
}

#[test]
fn individual_output_echoes_candidate() {
    let r = subst_gadget(0x10, &chars("ret"), BitWidth::BitComputing16, false, true);
    assert_eq!(string_of(&r), "ret\n1000\n");
}

#[test]
fn bytewise_finds_first_occurrence() {
    let g = vec![asm_const("ret")];
    let outs = vec![AsmOutcome::Bytes(vec![0xc3])];
    let mut ops = vec![0u8; 0x101];
    ops[0x100] = 0xc3;
    let r = bytewise_search(&g, &outs, &ops, 0x400000).expect("a match");
    assert_eq!(r.0, 0x400100);
    assert_eq!(r.1, 0);
}

#[test]
fn bytewise_candidate_fallback() {
    // The first candidate is absent; the second wins.
    let g = vec![asm_const("pop rdi; ret"), asm_const("pop rsi; ret")];
    let outs = vec![
        AsmOutcome::Bytes(vec![0x5f, 0xc3]),
        AsmOutcome::Bytes(vec![0x5e, 0xc3]),
    ];
    let mut ops = vec![0u8; 0x40];
    ops[0x20] = 0x5e;
    ops[0x21] = 0xc3;
    let r = bytewise_search(&g, &outs, &ops, 0x400000).expect("the fallback matches");
    assert_eq!(r.0, 0x400020);
    assert_eq!(r.1, 1);
}

#[test]
fn bytewise_reports_all_candidates() {
    let g = vec![asm_const("pop rdi; ret"), asm_const("pop rsi; ret")];
    let outs = vec![
        AsmOutcome::Bytes(vec![0x5f, 0xc3]),
        AsmOutcome::Bytes(vec![0x5e, 0xc3]),
    ];
    let ops = vec![0u8; 0x40];
    match bytewise_search(&g, &outs, &ops, 0) {
        Err(CgErr::NoGadget(all)) => {
            let all: Vec<String> = all.iter().map(|c| string_of(c)).collect();
            assert_eq!(all, vec!["pop rdi; ret".to_string(), "pop rsi; ret".to_string()]);
        },
        other => panic!("expected a no-gadget report, got {:?}", other),
    }
}

#[test]
fn assembler_failure_is_reported() {
    let g = vec![asm_const("bogus")];
    let outs = vec![AsmOutcome::Failed(chars("unknown mnemonic"))];
    let ops = vec![0u8; 8];
    match bytewise_search(&g, &outs, &ops, 0) {
        Err(CgErr::AsmFailed(_, text, diag)) => {
            assert_eq!(string_of(&text), "bogus");
            assert_eq!(string_of(&diag), "unknown mnemonic");
        },
        other => panic!("expected an assembler failure, got {:?}", other),
    }
}

#[test]
fn mnemonic_search_matches_instruction_bytes() {
    let g = vec![asm_const("ret")];
    let outs = vec![AsmOutcome::Bytes(vec![0xc3])];
    let insns = vec![
        InsnRec { addr: 0x400000, bytes: vec![0x5f] },
        InsnRec { addr: 0x400001, bytes: vec![0xc3] },
    ];
    let r = mnemonicwise_search(&g, &outs, &insns).expect("a match");
    assert_eq!(r.0, 0x400001);
}

#[test]
fn payload_concatenates_gadgets_in_order() {
    let src = chars("{ \"pop rdi\" }\n{ \"ret\" }");
    let ast = parser(&src).expect("two gadget statements parse");
    let outs = vec![
        vec![AsmOutcome::Bytes(vec![0x5f])],
        vec![AsmOutcome::Bytes(vec![0xc3])],
    ];
    let mut ops = vec![0u8; 0x10];
    ops[2] = 0x5f;
    ops[5] = 0xc3;
    let insns: Vec<InsnRec> = Vec::new();
    let p = codegen(
        &ast,
        &outs,
        &ops,
        &insns,
        0x1000,
        BitWidth::BitComputing32,
        true,
        false,
        false,
    )
    .expect("both gadgets match");
    assert_eq!(string_of(&p), "1002000010050000");
}

#[test]
fn payload_length_is_width_per_gadget() {
    let src = chars("{ \"pop rdi\" }\n{ \"ret\" }\n{ \"pop rsi\" }");
    let ast = parser(&src).expect("three gadget statements parse");
    let outs = vec![
        vec![AsmOutcome::Bytes(vec![0x5f])],
        vec![AsmOutcome::Bytes(vec![0xc3])],
        vec![AsmOutcome::Bytes(vec![0x5e])],
    ];
    let ops = vec![0x5f, 0xc3, 0x5e];
    let insns: Vec<InsnRec> = Vec::new();
    let p = codegen(&ast, &outs, &ops, &insns, 0, BitWidth::BitComputing64, true, false, false)
        .expect("all gadgets match");
    assert_eq!(p.len(), 3 * 16);
}

#[test]
fn eval_gadget_formats_the_match() {
    let g = vec![asm_const("ret")];
    let outs = vec![AsmOutcome::Bytes(vec![0xc3])];
    let ops = vec![0xc3];
    let insns: Vec<InsnRec> = Vec::new();
    let p = eval_gadget(&g, &outs, &ops, &insns, 0x80, BitWidth::BitComputing16, true, false, false)
        .expect("a match");
    assert_eq!(string_of(&p), "8000");
}

#[test]
fn gadget_sets_lists_gadget_statements() {
    // One bare gadget statement, and one call that emits the bound
    // gadget's candidates.
    let src = chars("g = { \"ret\" };\n{ \"pop rdi\", \"pop rsi\" }\ng;");
    let ast = parser(&src).expect("source parses");
    let gs = gadget_sets(&ast);
    assert_eq!(gs.len(), 2);
    assert_eq!(gs[0].len(), 2);
    assert_eq!(gs[1].len(), 1);
    match &gs[1][0] {
        Const::Asm(text, _, _) => assert_eq!(string_of(text), "ret"),
    }
}

#[test]
fn call_statement_emits_bound_gadget() {
    // A top-level call contributes the called gadget's address.
    let src = chars("g = { \"ret\" };\ng;");
    let ast = parser(&src).expect("let and call parse");
    let outs = vec![vec![AsmOutcome::Bytes(vec![0xc3])]];
    let ops = vec![0x90u8, 0xc3];
    let insns: Vec<InsnRec> = Vec::new();
    let p = codegen(&ast, &outs, &ops, &insns, 0x10, BitWidth::BitComputing16, true, false, false)
        .expect("the called gadget matches");
    assert_eq!(string_of(&p), "1100");
}

/// A minimal 64-bit little-endian ELF with one `.text` section holding
/// `text` at virtual address `addr`.
fn tiny_elf(text: &[u8], addr: u64) -> Vec<u8> {
    let mut out = vec![0u8; 64];
    out[0] = 0x7f;
    out[1] = b'E';
    out[2] = b'L';
    out[3] = b'F';
    out[4] = 2; // 64-bit
    out[5] = 1; // little-endian
    out[6] = 1; // version
    out[16] = 2; // ET_EXEC
    out[18] = 0x3e; // x86-64
    out[20] = 1; // EV_CURRENT
    out[52] = 64; // e_ehsize
    out[58] = 64; // e_shentsize
    out[60] = 3; // e_shnum
    out[62] = 2; // e_shstrndx
    let text_off = out.len();
    out.extend_from_slice(text);
    let strtab = b"\0.text\0.shstrtab\0";
    let strtab_off = out.len();
    out.extend_from_slice(strtab);
    while out.len() % 8 != 0 {
        out.push(0);
    }
    let shoff = out.len() as u64;
    out[40..48].copy_from_slice(&shoff.to_le_bytes());
    // The null section header.
    out.extend_from_slice(&[0u8; 64]);
    // The .text section header.
    let mut sh = [0u8; 64];
    sh[0..4].copy_from_slice(&1u32.to_le_bytes()); // name: ".text"
    sh[4..8].copy_from_slice(&1u32.to_le_bytes()); // SHT_PROGBITS
    sh[8..16].copy_from_slice(&6u64.to_le_bytes()); // ALLOC | EXECINSTR
    sh[16..24].copy_from_slice(&addr.to_le_bytes());
    sh[24..32].copy_from_slice(&(text_off as u64).to_le_bytes());
    sh[32..40].copy_from_slice(&(text.len() as u64).to_le_bytes());
    sh[48..56].copy_from_slice(&1u64.to_le_bytes()); // alignment
    out.extend_from_slice(&sh);
    // The .shstrtab section header.
    let mut sh2 = [0u8; 64];
    sh2[0..4].copy_from_slice(&7u32.to_le_bytes()); // name: ".shstrtab"
    sh2[4..8].copy_from_slice(&3u32.to_le_bytes()); // SHT_STRTAB
    sh2[24..32].copy_from_slice(&(strtab_off as u64).to_le_bytes());
    sh2[32..40].copy_from_slice(&(strtab.len() as u64).to_le_bytes());
    sh2[48..56].copy_from_slice(&1u64.to_le_bytes());
    out.extend_from_slice(&sh2);
    out
}

#[test]
fn minimal_literal_gadget_from_binary() {
    // A `c3` byte at section offset 0x100, `.text` at 0x400000: the
    // payload is the matched address, width-padded with trailing zeros.
    let mut text = vec![0u8; 0x101];
    text[0x100] = 0xc3;
    let data = tiny_elf(&text, 0x400000);
    let src = chars("{ \"ret\" }");
    let ast = parser(&src).expect("gadget parses");
    let outs = vec![vec![AsmOutcome::Bytes(vec![0xc3])]];
    let p = codegen_binary(
        &ast,
        &outs,
        &data,
        Cpu::X8664,
        AsmSyntax::Intel,
        BitWidth::BitComputing64,
        true,
        false,
        false,
    )
    .expect("the gadget is found in the binary");
    assert_eq!(string_of(&p), "4001000000000000");
}

#[test]
fn mnemonic_search_from_binary() {
    // Disassembles the section and matches the candidate's bytes.
    let text = vec![0x5f, 0xc3];
    let data = tiny_elf(&text, 0x401000);
    let src = chars("{ \"ret\" }");
    let ast = parser(&src).expect("gadget parses");
    let outs = vec![vec![AsmOutcome::Bytes(vec![0xc3])]];
    let p = codegen_binary(
        &ast,
        &outs,
        &data,
        Cpu::X8664,
        AsmSyntax::Intel,
        BitWidth::BitComputing64,
        false,
        false,
        false,
    )
    .expect("the instruction is found");
    assert_eq!(string_of(&p), "4010010000000000");
}

#[test]
fn unsupported_cpu_modes_are_refused() {
    let data = tiny_elf(&[0xc3], 0x1000);
    let src = chars("{ \"ret\" }");
    let ast = parser(&src).expect("gadget parses");
    let outs = vec![vec![AsmOutcome::Bytes(vec![0xc3])]];
    let r = codegen_binary(
        &ast,
        &outs,
        &data,
        Cpu::Armv8,
        AsmSyntax::Intel,
        BitWidth::BitComputingNone,
        true,
        false,
        false,
    );
    assert!(matches!(r, Err(CgErr::NotSupported)));
}

#[test]
fn unparsable_binary_is_refused() {
    let src = chars("{ \"ret\" }");
    let ast = parser(&src).expect("gadget parses");
    let outs = vec![vec![AsmOutcome::Bytes(vec![0xc3])]];
    let r = codegen_binary(
        &ast,
        &outs,
        &[0u8; 16],
        Cpu::X8664,
        AsmSyntax::Intel,
        BitWidth::BitComputingNone,
        true,
        false,
        false,
    );
    assert!(matches!(r, Err(CgErr::ObjParse) | Err(CgErr::NoSection)));
}
