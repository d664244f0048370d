use pasm::assembler::{Argument, Prog, Statement};
use pasm::cpu::{Cpu, CpuError, Instruction};

fn ident(s: &str) -> Argument {
    Argument::Ident(s.to_string())
}

fn number(s: &str) -> Argument {
    Argument::Number(s.to_string())
}

fn instr(name: &str, args: Vec<Argument>) -> Option<Statement> {
    Some(Statement::Instruction(name.to_string(), args))
}

fn label(name: &str) -> Option<Statement> {
    Some(Statement::Label(name.to_string()))
}

fn data(lit: &str) -> Option<Statement> {
    Some(Statement::Data(lit.to_string()))
}

#[test]
fn store_then_load_round_trips_through_memory() {
    // Assemble: load the constant into r0, store it at 0x100, load it back
    // into r1. The constant sits behind a forward label reference.
    let mut prog = Prog::new(vec![
        instr("load", vec![number("4"), ident("r0"), ident("cval")]),
        instr("store", vec![number("4"), ident("r0"), number("0x100")]),
        instr("load", vec![number("4"), ident("r1"), number("0x100")]),
        label("cval"),
        data("0x12"),
        data("0x34"),
        data("0x56"),
        data("0x78"),
    ]);
    assert!(prog.first_pass().is_ok());
    assert!(prog.second_pass().is_ok());
    let mut cpu = Cpu::new(1, prog.program());
    assert!(cpu.step().is_ok());
    assert_eq!(cpu.fetch_reg(0), Ok(0x12345678));
    assert!(cpu.step().is_ok());
    assert!(cpu.step().is_ok());
    assert_eq!(cpu.fetch_reg(1), Ok(0x12345678));
    assert_eq!(cpu.fetch_reg(0), cpu.fetch_reg(1));
    // the stored word sits in memory most-significant byte first
    assert_eq!(cpu.fetchu32(0x100), Ok(0x12345678));
    assert_eq!(cpu.fetchu8(0x100), Ok(0x12));
    assert_eq!(cpu.fetchu8(0x103), Ok(0x78));
}

#[test]
fn division_by_zero_faults_and_leaves_target_unchanged() {
    // load r1 from address 9 (0xDEADBEEF), then div r1 := r0 / r2 with
    // r2 = 0.
    let program = vec![
        0x0Bu8,
        0x80 | 1,
        0x00,
        0x00,
        0x00,
        0x09, // load 4, r1, 0x09
        0x13,
        0x04,
        0x02, // div: target r1, sources r0 and r2
        0xDE,
        0xAD,
        0xBE,
        0xEF,
    ];
    let mut cpu = Cpu::new(1, &program);
    assert!(cpu.step().is_ok());
    assert_eq!(cpu.fetch_reg(1), Ok(0xDEADBEEF));
    let r = cpu.step();
    assert_eq!(r, Err(CpuError::DivisionByZero));
    assert_eq!(cpu.fetch_reg(1), Ok(0xDEADBEEF));
    assert_eq!(cpu.pc_value(), 9);
}

#[test]
fn remainder_by_zero_faults_too() {
    let program = vec![0x14u8, 0x04, 0x02];
    let mut cpu = Cpu::new(1, &program);
    assert_eq!(cpu.step(), Err(CpuError::DivisionByZero));
}

#[test]
fn fetch_from_unconfigured_page_is_an_access_fault() {
    // jmp 0x10000 with a single configured page, then fetch there.
    let program = vec![0x03u8, 0x00, 0x01, 0x00, 0x00];
    let mut cpu = Cpu::new(1, &program);
    assert!(cpu.step().is_ok());
    assert_eq!(cpu.pc_value(), 0x10000);
    assert_eq!(cpu.step(), Err(CpuError::AccessFault(0x10000)));
}

#[test]
fn move_copies_bytes_and_touches_nothing_else() {
    // mv 4 bytes from 16 to 0x20; the source bytes sit at 16.
    let mut program = vec![0x0Cu8, 4, 0, 0, 0, 16, 0, 0, 0, 0x20];
    while program.len() < 16 {
        program.push(0);
    }
    program.extend_from_slice(&[1, 2, 3, 4]);
    let mut cpu = Cpu::new(1, &program);
    assert!(cpu.step().is_ok());
    // destination equals source, byte for byte
    for i in 0..4u32 {
        assert_eq!(cpu.fetchu8(0x20 + i), cpu.fetchu8(16 + i));
        assert_eq!(cpu.fetchu8(0x20 + i), Ok((i + 1) as u8));
    }
    // other memory is untouched
    assert_eq!(cpu.fetchu8(16), Ok(1));
    assert_eq!(cpu.fetchu8(0x1F), Ok(0));
    assert_eq!(cpu.fetchu8(0x24), Ok(0));
}

#[test]
fn move_to_an_unconfigured_page_faults_at_the_bad_byte() {
    let program = vec![0x0Cu8, 2, 0, 0, 0, 0, 0, 0, 0xFF, 0xFF];
    let mut cpu = Cpu::new(1, &program);
    // the second destination byte, 0xFFFF + 1, lies past the single page
    assert_eq!(cpu.step(), Err(CpuError::AccessFault(0x10000)));
}

#[test]
fn unknown_opcode_is_not_an_instruction() {
    let program = vec![0xFFu8];
    let mut cpu = Cpu::new(1, &program);
    assert_eq!(cpu.step(), Err(CpuError::NotAnInstruction));
}

#[test]
fn copy_with_an_unknown_register_code_faults() {
    let program = vec![0x0Du8, 0x21, 0x00];
    let mut cpu = Cpu::new(1, &program);
    assert_eq!(cpu.step(), Err(CpuError::IllegalRegister(0x21)));
}

#[test]
fn copy_duplicates_a_register() {
    // load r3 from address 6 (value 0x0000000A... uses the data bytes), then
    // copy r3 into r7.
    let program = vec![
        0x0Bu8, 0x03, 0x00, 0x00, 0x00, 0x0A, // load 1 byte into r3 from 0x0A
        0x0D, 0x03, 0x07, // copy r3 -> r7
        0x00, 0x2A, // nop, data 42
    ];
    let mut cpu = Cpu::new(1, &program);
    assert!(cpu.step().is_ok());
    assert_eq!(cpu.fetch_reg(3), Ok(42));
    assert!(cpu.step().is_ok());
    assert_eq!(cpu.fetch_reg(7), Ok(42));
}

#[test]
fn sixteen_bit_short_jump_is_sign_extended() {
    // opcode 0x02 with operand 0xFFFE: delta -2 from the advanced pc 3.
    let program = vec![0x02u8, 0xFF, 0xFE];
    let mut cpu = Cpu::new(1, &program);
    assert!(cpu.step().is_ok());
    assert_eq!(cpu.pc_value(), 1);
}

#[test]
fn thirty_two_bit_short_jump_moves_relative() {
    // opcode 0x01 with operand 5: delta +5 from the advanced pc 5.
    let program = vec![0x01u8, 0x00, 0x00, 0x00, 0x05];
    let mut cpu = Cpu::new(1, &program);
    assert!(cpu.step().is_ok());
    assert_eq!(cpu.pc_value(), 10);
}

#[test]
fn addition_wraps_around() {
    // load r0 := 0xFFFFFFFF, load r1 := 2, add r2 := r0 + r1
    let program = vec![
        0x0Bu8, 0x80, 0x00, 0x00, 0x00, 0x0F, // load 4, r0, 15
        0x0B, 0x81, 0x00, 0x00, 0x00, 0x13, // load 4, r1, 19
        0x10, 0x08, 0x01, // add: target r2, sources r0, r1
        0xFF, 0xFF, 0xFF, 0xFF, 0x00, 0x00, 0x00, 0x02,
    ];
    let mut cpu = Cpu::new(1, &program);
    assert!(cpu.step().is_ok());
    assert!(cpu.step().is_ok());
    assert!(cpu.step().is_ok());
    assert_eq!(cpu.fetch_reg(0), Ok(0xFFFFFFFF));
    assert_eq!(cpu.fetch_reg(1), Ok(2));
    assert_eq!(cpu.fetch_reg(2), Ok(1));
}

#[test]
fn arithmetic_operations_compute_exact_results() {
    // r0 := 12, r1 := 10, then one instruction per operation, each into its
    // own target register.
    let program = vec![
        0x0Bu8, 0x80, 0, 0, 0, 27, // load 4, r0, 27
        0x0B, 0x81, 0, 0, 0, 31, // load 4, r1, 31
        0x11, 0x08, 0x01, // sub r2 := r0 - r1
        0x12, 0x0C, 0x01, // mul r3 := r0 * r1
        0x15, 0x10, 0x01, // or  r4 := r0 | r1
        0x16, 0x14, 0x01, // and r5 := r0 & r1
        0x17, 0x18, 0x01, // xor r6 := r0 ^ r1
        0, 0, 0, 12, 0, 0, 0, 10,
    ];
    let mut cpu = Cpu::new(1, &program);
    for _ in 0..7 {
        assert!(cpu.step().is_ok());
    }
    assert_eq!(cpu.fetch_reg(2), Ok(2));
    assert_eq!(cpu.fetch_reg(3), Ok(120));
    assert_eq!(cpu.fetch_reg(4), Ok(14));
    assert_eq!(cpu.fetch_reg(5), Ok(8));
    assert_eq!(cpu.fetch_reg(6), Ok(6));
}

#[test]
fn division_and_remainder_by_nonzero_values() {
    let program = vec![
        0x0Bu8, 0x80, 0, 0, 0, 18, // load 4, r0, 18
        0x0B, 0x81, 0, 0, 0, 22, // load 4, r1, 22
        0x13, 0x08, 0x01, // div r2 := r0 / r1
        0x14, 0x0C, 0x01, // mod r3 := r0 % r1
        0, 0, 0, 12, 0, 0, 0, 10,
    ];
    let mut cpu = Cpu::new(1, &program);
    for _ in 0..4 {
        assert!(cpu.step().is_ok());
    }
    assert_eq!(cpu.fetch_reg(2), Ok(1));
    assert_eq!(cpu.fetch_reg(3), Ok(2));
}

#[test]
fn mv_assembled_with_labels_copies_the_data() {
    let mut prog = Prog::new(vec![
        instr(
            "mv",
            vec![number("2"), ident("src"), ident("dst")],
        ),
        label("src"),
        data("0xAA"),
        data("0xBB"),
        label("dst"),
        data("0"),
        data("0"),
    ]);
    assert!(prog.first_pass().is_ok());
    assert!(prog.second_pass().is_ok());
    let mut cpu = Cpu::new(1, prog.program());
    assert!(cpu.step().is_ok());
    // src at 10, dst at 12
    assert_eq!(cpu.fetchu8(12), Ok(0xAA));
    assert_eq!(cpu.fetchu8(13), Ok(0xBB));
    assert_eq!(cpu.fetchu8(10), Ok(0xAA));
    assert_eq!(cpu.fetchu8(11), Ok(0xBB));
}

#[test]
fn decode_reports_instruction_and_length() {
    let program = vec![0x0Au8, 0x80, 0x00, 0x00, 0x01, 0x00];
    let cpu = Cpu::new(1, &program);
    assert_eq!(cpu.decode(), Ok((6, Instruction::Store(4, 0, 0x100))));
}

#[test]
fn nop_only_advances_the_program_counter() {
    let program = vec![0x00u8, 0x00];
    let mut cpu = Cpu::new(1, &program);
    assert!(cpu.step().is_ok());
    assert_eq!(cpu.pc_value(), 1);
    assert_eq!(cpu.fetch_reg(0), Ok(0));
}

#[test]
fn registers_and_memory_start_zeroed() {
    let cpu = Cpu::new(2, &vec![]);
    assert_eq!(cpu.page_count(), 2);
    assert_eq!(cpu.pc_value(), 0);
    for r in 0..32u8 {
        assert_eq!(cpu.fetch_reg(r), Ok(0));
    }
    assert_eq!(cpu.fetchu8(0), Ok(0));
    assert_eq!(cpu.fetchu8(0x1FFFF), Ok(0));
    assert_eq!(cpu.fetchu8(0x20000), Err(CpuError::AccessFault(0x20000)));
}
