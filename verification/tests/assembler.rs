use pasm::assembler::{Argument, AsmError, Prog, Statement};

fn ident(s: &str) -> Argument {
    Argument::Ident(s.to_string())
}

fn number(s: &str) -> Argument {
    Argument::Number(s.to_string())
}

fn instr(name: &str, args: Vec<Argument>) -> Option<Statement> {
    Some(Statement::Instruction(name.to_string(), args))
}

fn label(name: &str) -> Option<Statement> {
    Some(Statement::Label(name.to_string()))
}

fn data(lit: &str) -> Option<Statement> {
    Some(Statement::Data(lit.to_string()))
}

#[test]
fn round_trip_nop_then_jmp() {
    let mut prog = Prog::new(vec![instr("nop", vec![]), instr("jmp", vec![number("0x0000")])]);
    assert!(prog.first_pass().is_ok());
    assert!(prog.second_pass().is_ok());
    assert_eq!(prog.program().as_slice(), &[0x00u8, 0x03, 0x00, 0x00, 0x00, 0x00]);
}

#[test]
fn nop_with_operands_is_arity_error() {
    let mut prog = Prog::new(vec![instr("nop", vec![number("1")])]);
    let r = prog.first_pass();
    assert!(matches!(r, Err(AsmError::ArityError(0, 0))));
}

#[test]
fn jmp_to_undefined_label_fails_in_second_pass() {
    let mut prog = Prog::new(vec![instr("jmp", vec![ident("nowhere")])]);
    assert!(prog.first_pass().is_ok());
    assert_eq!(prog.reloc_count(), 1);
    let r = prog.second_pass();
    match r {
        Err(AsmError::UndefinedLabel(l)) => assert_eq!(l, "nowhere"),
        _ => panic!("expected an undefined-label error"),
    }
}

#[test]
fn backward_reference_needs_no_relocation() {
    let mut prog = Prog::new(vec![
        label("start"),
        instr("nop", vec![]),
        instr("jmp", vec![ident("start")]),
    ]);
    assert!(prog.first_pass().is_ok());
    assert_eq!(prog.reloc_count(), 0);
    let image_after_pass1 = prog.program().clone();
    assert!(prog.second_pass().is_ok());
    assert_eq!(prog.program(), &image_after_pass1);
    assert_eq!(prog.program().as_slice(), &[0x00u8, 0x03, 0x00, 0x00, 0x00, 0x00]);
}

#[test]
fn forward_reference_is_backpatched() {
    let mut prog = Prog::new(vec![
        instr("jmp", vec![ident("end")]),
        instr("nop", vec![]),
        label("end"),
    ]);
    assert!(prog.first_pass().is_ok());
    assert_eq!(prog.reloc_count(), 1);
    // the placeholder is zero-filled until the second pass
    assert_eq!(prog.program().as_slice(), &[0x03u8, 0x00, 0x00, 0x00, 0x00, 0x00]);
    assert!(prog.second_pass().is_ok());
    assert_eq!(prog.reloc_count(), 0);
    assert_eq!(prog.program().as_slice(), &[0x03u8, 0x00, 0x00, 0x00, 0x06, 0x00]);
    assert_eq!(prog.label_offset(&"end".to_string()), Some(6));
}

#[test]
fn duplicate_label_is_rejected() {
    let mut prog = Prog::new(vec![label("a"), instr("nop", vec![]), label("a")]);
    let r = prog.first_pass();
    match r {
        Err(AsmError::DuplicateLabel(l)) => assert_eq!(l, "a"),
        _ => panic!("expected a duplicate-label error"),
    }
}

#[test]
fn unknown_mnemonic_is_rejected() {
    let mut prog = Prog::new(vec![instr("frob", vec![])]);
    let r = prog.first_pass();
    match r {
        Err(AsmError::UnknownInstruction(m)) => assert_eq!(m, "frob"),
        _ => panic!("expected an unknown-instruction error"),
    }
}

#[test]
fn store_with_explicit_wordsize_encodes_size_and_register() {
    let mut prog = Prog::new(vec![instr("store", vec![number("2"), ident("r5"), number("0x10")])]);
    assert!(prog.first_pass().is_ok());
    assert_eq!(prog.program().as_slice(), &[0x0Au8, 0x40 | 5, 0x00, 0x00, 0x00, 0x10]);
}

#[test]
fn store_without_wordsize_defaults_to_four_bytes() {
    let mut prog = Prog::new(vec![instr("store", vec![ident("r0"), number("0x100")])]);
    assert!(prog.first_pass().is_ok());
    assert_eq!(prog.program().as_slice(), &[0x0Au8, 0x80, 0x00, 0x00, 0x01, 0x00]);
}

#[test]
fn load_accepts_the_program_counter_register() {
    let mut prog = Prog::new(vec![instr("load", vec![number("4"), ident("pc"), number("0")])]);
    assert!(prog.first_pass().is_ok());
    assert_eq!(prog.program().as_slice(), &[0x0Bu8, 0x80 | 0x20, 0x00, 0x00, 0x00, 0x00]);
}

#[test]
fn store_register_out_of_range_is_invalid() {
    let mut prog = Prog::new(vec![instr("store", vec![ident("r32"), number("0")])]);
    assert!(matches!(prog.first_pass(), Err(AsmError::InvalidOperand)));
}

#[test]
fn store_wordsize_three_is_invalid() {
    let mut prog = Prog::new(vec![instr("store", vec![number("3"), ident("r0"), number("0")])]);
    assert!(matches!(prog.first_pass(), Err(AsmError::InvalidOperand)));
}

#[test]
fn store_wordsize_must_be_numeric() {
    let mut prog = Prog::new(vec![instr("store", vec![ident("w"), ident("r0"), number("0")])]);
    assert!(matches!(prog.first_pass(), Err(AsmError::InvalidOperand)));
}

#[test]
fn store_with_one_operand_is_arity_error() {
    let mut prog = Prog::new(vec![instr("store", vec![ident("r0")])]);
    assert!(matches!(prog.first_pass(), Err(AsmError::ArityError(2, 3))));
}

#[test]
fn jmp_needs_exactly_one_operand() {
    let mut prog = Prog::new(vec![instr("jmp", vec![])]);
    assert!(matches!(prog.first_pass(), Err(AsmError::ArityError(1, 1))));
}

#[test]
fn mv_encodes_size_and_both_addresses() {
    let mut prog = Prog::new(vec![instr(
        "mv",
        vec![number("2"), number("0x10"), number("0x20")],
    )]);
    assert!(prog.first_pass().is_ok());
    assert_eq!(
        prog.program().as_slice(),
        &[0x0Cu8, 0x02, 0x00, 0x00, 0x00, 0x10, 0x00, 0x00, 0x00, 0x20],
    );
}

#[test]
fn mv_needs_three_operands() {
    let mut prog = Prog::new(vec![instr("mv", vec![number("2"), number("0")])]);
    assert!(matches!(prog.first_pass(), Err(AsmError::ArityError(3, 3))));
}

#[test]
fn data_appends_single_bytes() {
    let mut prog = Prog::new(vec![data("0xAB"), data("7"), data("256")]);
    assert!(prog.first_pass().is_ok());
    // 256 is truncated to one byte, as a raw data byte
    assert_eq!(prog.program().as_slice(), &[0xABu8, 7, 0]);
}

#[test]
fn malformed_data_literal_is_rejected() {
    let mut prog = Prog::new(vec![data("zap")]);
    assert!(matches!(prog.first_pass(), Err(AsmError::MalformedNumber)));
}

#[test]
fn empty_statement_slots_are_dropped() {
    let mut prog = Prog::new(vec![None, instr("nop", vec![]), None]);
    assert!(prog.first_pass().is_ok());
    assert_eq!(prog.program().as_slice(), &[0x00u8]);
}

#[test]
fn store_wordsize_overflowing_64_bits_is_malformed() {
    let mut prog = Prog::new(vec![instr(
        "store",
        vec![number("99999999999999999999999"), ident("r0"), number("0")],
    )]);
    assert!(matches!(prog.first_pass(), Err(AsmError::MalformedNumber)));
}

#[test]
fn load_one_and_two_byte_wordsizes_encode_their_size_bits() {
    let mut prog = Prog::new(vec![
        instr("load", vec![number("1"), ident("r2"), number("0")]),
        instr("load", vec![number("2"), ident("r2"), number("0")]),
    ]);
    assert!(prog.first_pass().is_ok());
    assert_eq!(prog.program()[1], 0x00 | 2);
    assert_eq!(prog.program()[7], 0x40 | 2);
}

#[test]
fn parse_number_reads_decimal_and_hexadecimal() {
    assert_eq!(Prog::parse_number("42"), Ok(42));
    assert_eq!(Prog::parse_number("0"), Ok(0));
    assert_eq!(Prog::parse_number("0x1F"), Ok(31));
    assert_eq!(Prog::parse_number("0xff"), Ok(255));
    assert_eq!(Prog::parse_number("18446744073709551615"), Ok(u64::MAX));
    assert_eq!(Prog::parse_number("0xFFFFFFFFFFFFFFFF"), Ok(u64::MAX));
}

#[test]
fn parse_number_rejects_malformed_and_overflowing_numerals() {
    assert!(matches!(Prog::parse_number(""), Err(AsmError::MalformedNumber)));
    assert!(matches!(Prog::parse_number("0x"), Err(AsmError::MalformedNumber)));
    assert!(matches!(Prog::parse_number("12a"), Err(AsmError::MalformedNumber)));
    assert!(matches!(Prog::parse_number("0xG1"), Err(AsmError::MalformedNumber)));
    assert!(matches!(Prog::parse_number("-3"), Err(AsmError::MalformedNumber)));
    assert!(matches!(
        Prog::parse_number("18446744073709551616"),
        Err(AsmError::MalformedNumber)
    ));
    assert!(matches!(
        Prog::parse_number("0x10000000000000000"),
        Err(AsmError::MalformedNumber)
    ));
}

#[test]
fn label_operands_resolve_to_their_offsets() {
    let mut prog = Prog::new(vec![
        instr("nop", vec![]),
        label("here"),
        instr("store", vec![ident("r1"), ident("there")]),
        instr("jmp", vec![ident("here")]),
        label("there"),
        data("1"),
    ]);
    assert!(prog.first_pass().is_ok());
    assert!(prog.second_pass().is_ok());
    assert_eq!(prog.label_offset(&"here".to_string()), Some(1));
    assert_eq!(prog.label_offset(&"there".to_string()), Some(12));
    assert_eq!(prog.label_offset(&"absent".to_string()), None);
    let image = prog.program();
    // store r1 -> "there" (forward, backpatched to 12)
    assert_eq!(&image[1..7], &[0x0Au8, 0x80 | 1, 0, 0, 0, 12]);
    // jmp -> "here" (backward, resolved at once to 1)
    assert_eq!(&image[7..12], &[0x03u8, 0, 0, 0, 1]);
    assert_eq!(image[12], 1);
}
