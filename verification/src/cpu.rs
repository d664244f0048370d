//! The CPU execution engine: instruction decode, paged memory access, the
//! register file, and the arithmetic and control-flow semantics of one
//! fetch-decode-execute step.
use vstd::prelude::*;

use crate::encoding::{
    be16_val, be32_val, OP_ARITH_BASE, OP_ARITH_LAST, OP_COPY, OP_LOAD, OP_LONG_JUMP, OP_MOVE,
    OP_NOP, OP_SHORT_JUMP16, OP_SHORT_JUMP32, OP_STORE, REG_PC_CODE,
};

verus! {

/// The operation of an arithmetic instruction.
#[derive(Clone, Copy, Debug, PartialEq, Eq, Structural)]
pub enum ArithmeticMode {
    Add,
    Sub,
    Mul,
    Div,
    Mod,
    Or,
    And,
    Xor,
}

/// One decoded instruction: opcode-specific operands, alive for a single
/// decode/execute cycle.
#[derive(Clone, Copy, Debug, PartialEq, Eq, Structural)]
pub enum Instruction {
    Nop,
    ShortJump(i32),
    LongJump(u32),
    /// (wordsize, register, address)
    Store(u8, u8, u32),
    /// (wordsize, register, address)
    Load(u8, u8, u32),
    /// (wordsize, source address, destination address)
    Move(u8, u32, u32),
    /// (source register, destination register)
    Copy(u8, u8),
    /// (mode, target register, source register a, source register b)
    Arithmetic(ArithmeticMode, u8, u8, u8),
}

/// Everything that can go wrong while executing. All faults are fatal to
/// the current run; there is no instruction-level recovery.
#[derive(Clone, Copy, Debug, PartialEq, Eq, Structural)]
pub enum CpuError {
    NotAnInstruction,
    IllegalRegister(u8),
    AccessFault(u32),
    DivisionByZero,
}

/// One 65536-byte page of memory. `base` and `flags` are reserved: current
/// semantics never read them.
struct RamPage {
    data: Vec<u8>,
    base: u32,
    flags: u32,
}

/// The virtual CPU: program counter, 32 general-purpose 32-bit registers,
/// a reserved mode word, and paged memory, all owned exclusively.
pub struct Cpu {
    pc: u32,
    gp_regs: Vec<u32>,
    mode: u32,
    ram: Vec<RamPage>,
}

/// The abstract state of the CPU: the program counter, the register file,
/// and the pages' bytes.
#[verifier::ext_equal]
pub struct CpuView {
    pub pc: u32,
    pub regs: Seq<u32>,
    pub pages: Seq<Seq<u8>>,
}

impl View for Cpu {
    type V = CpuView;

    closed spec fn view(&self) -> CpuView {
        CpuView {
            pc: self.pc,
            regs: self.gp_regs@,
            pages: self.ram@.map(|i: int, p: RamPage| p.data@),
        }
    }
}

impl CpuView {
    /// Well-formed: 32 registers, every page exactly 65536 bytes.
    pub open spec fn wf(self) -> bool {
        &&& self.regs.len() == 32
        &&& forall|p: int| 0 <= p < self.pages.len() ==> (#[trigger] self.pages[p]).len() == 65536
    }

    /// The number of addressable bytes.
    pub open spec fn mem_len(self) -> int {
        self.pages.len() * 65536int
    }

    /// The address lies in a configured page: the top 16 bits select the
    /// page, so the page index is the address divided by 65536.
    pub open spec fn in_mem(self, a: u32) -> bool {
        (a as int) / 65536 < self.pages.len()
    }

    /// The byte at address `a`: page `a / 65536`, offset `a % 65536`.
    pub open spec fn mem_at(self, a: u32) -> u8 {
        self.pages[(a as int) / 65536][(a as int) % 65536]
    }
}

/// `a + k`, wrapped to 32 bits.
pub open spec fn w_add(a: u32, k: int) -> u32 {
    (((a as int) + k) % 0x100000000) as u32
}

/// The view with the byte at `a` replaced.
pub open spec fn spec_store8(v: CpuView, a: u32, val: u8) -> CpuView {
    CpuView {
        pages: v.pages.update(
            (a as int) / 65536,
            v.pages[(a as int) / 65536].update((a as int) % 65536, val),
        ),
        ..v
    }
}

/// One byte read at `a`: the byte, or an access fault at that address.
pub open spec fn spec_fetch8(v: CpuView, a: u32) -> Result<u8, CpuError> {
    if v.in_mem(a) {
        Ok(v.mem_at(a))
    } else {
        Err(CpuError::AccessFault(a))
    }
}

/// Two bytes read big-endian at `a` and `a + 1` (wrapped).
#[verifier::opaque]
pub open spec fn spec_fetch16(v: CpuView, a: u32) -> Result<u16, CpuError> {
    match spec_fetch8(v, a) {
        Err(e) => Err(e),
        Ok(h) => match spec_fetch8(v, w_add(a, 1)) {
            Err(e) => Err(e),
            Ok(l) => Ok(be16_val(h, l)),
        },
    }
}

/// Four bytes read big-endian at `a` through `a + 3` (wrapped).
#[verifier::opaque]
pub open spec fn spec_fetch32(v: CpuView, a: u32) -> Result<u32, CpuError> {
    match spec_fetch16(v, a) {
        Err(e) => Err(e),
        Ok(h) => match spec_fetch16(v, w_add(a, 2)) {
            Err(e) => Err(e),
            Ok(l) => Ok(((h as u32) << 16) | (l as u32)),
        },
    }
}

/// The paged-memory address decomposition: shifting selects the page and
/// masking the offset, exactly as division and remainder by the page size.
proof fn lemma_addr_decompose(a: u32)
    ensures
        (a >> 16) as int == (a as int) / 65536,
        (a & 0xffff) as int == (a as int) % 65536,
{
    assert((a >> 16) == a / 65536 && (a & 0xffff) == a % 65536) by (bit_vector);
}

/// Reading a register: codes 0 to 31 name the general-purpose registers,
/// the special code names the program counter, anything else faults.
pub open spec fn spec_fetch_reg(v: CpuView, reg: u8) -> Result<u32, CpuError> {
    if reg <= 31 {
        Ok(v.regs[reg as int])
    } else if reg == REG_PC_CODE {
        Ok(v.pc)
    } else {
        Err(CpuError::IllegalRegister(reg))
    }
}

/// Writing a register, under the same addressing as `spec_fetch_reg`.
pub open spec fn spec_save_reg(v: CpuView, reg: u8, value: u32) -> Result<CpuView, CpuError> {
    if reg <= 31 {
        Ok(CpuView { regs: v.regs.update(reg as int, value), ..v })
    } else if reg == REG_PC_CODE {
        Ok(CpuView { pc: value, ..v })
    } else {
        Err(CpuError::IllegalRegister(reg))
    }
}

/// One decode at the program counter: the opcode byte selects how many
/// trailing operand bytes to read and how to interpret them; the result is
/// the instruction and its total encoded length. Reading past the
/// configured pages faults at the address read; an unknown opcode is not
/// an instruction.
pub open spec fn spec_decode(v: CpuView) -> Result<(u8, Instruction), CpuError> {
    match spec_fetch8(v, v.pc) {
        Err(e) => Err(e),
        Ok(op) => if op == OP_NOP {
            Ok((1u8, Instruction::Nop))
        } else if op == OP_SHORT_JUMP32 {
            match spec_fetch32(v, w_add(v.pc, 1)) {
                Err(e) => Err(e),
                Ok(val) => Ok((5u8, Instruction::ShortJump(val as i32))),
            }
        } else if op == OP_SHORT_JUMP16 {
            match spec_fetch16(v, w_add(v.pc, 1)) {
                Err(e) => Err(e),
                Ok(val) => Ok((3u8, Instruction::ShortJump(val as i16 as i32))),
            }
        } else if op == OP_LONG_JUMP {
            match spec_fetch32(v, w_add(v.pc, 1)) {
                Err(e) => Err(e),
                Ok(val) => Ok((5u8, Instruction::LongJump(val))),
            }
        } else if op == OP_STORE || op == OP_LOAD {
            match spec_fetch8(v, w_add(v.pc, 1)) {
                Err(e) => Err(e),
                Ok(value) => match spec_fetch32(v, w_add(v.pc, 2)) {
                    Err(e) => Err(e),
                    Ok(address) => {
                        let reg = value & 0x1f;
                        let wordsize = 1u8 << ((value & 0xC0) >> 6);
                        if op == OP_STORE {
                            Ok((6u8, Instruction::Store(wordsize, reg, address)))
                        } else {
                            Ok((6u8, Instruction::Load(wordsize, reg, address)))
                        }
                    },
                },
            }
        } else if op == OP_MOVE {
            match spec_fetch8(v, w_add(v.pc, 1)) {
                Err(e) => Err(e),
                Ok(length) => match spec_fetch32(v, w_add(v.pc, 2)) {
                    Err(e) => Err(e),
                    Ok(src_address) => match spec_fetch32(v, w_add(v.pc, 6)) {
                        Err(e) => Err(e),
                        Ok(dest_address) => Ok(
                            (10u8, Instruction::Move(length, src_address, dest_address)),
                        ),
                    },
                },
            }
        } else if op == OP_COPY {
            match spec_fetch8(v, w_add(v.pc, 1)) {
                Err(e) => Err(e),
                Ok(source_reg) => match spec_fetch8(v, w_add(v.pc, 2)) {
                    Err(e) => Err(e),
                    Ok(dest_reg) => Ok((3u8, Instruction::Copy(source_reg, dest_reg))),
                },
            }
        } else if OP_ARITH_BASE <= op && op <= OP_ARITH_LAST {
            match spec_fetch16(v, w_add(v.pc, 1)) {
                Err(e) => Err(e),
                Ok(value) => {
                    let mode = if op == 0x10 {
                        ArithmeticMode::Add
                    } else if op == 0x11 {
                        ArithmeticMode::Sub
                    } else if op == 0x12 {
                        ArithmeticMode::Mul
                    } else if op == 0x13 {
                        ArithmeticMode::Div
                    } else if op == 0x14 {
                        ArithmeticMode::Mod
                    } else if op == 0x15 {
                        ArithmeticMode::Or
                    } else if op == 0x16 {
                        ArithmeticMode::And
                    } else {
                        ArithmeticMode::Xor
                    };
                    let target = ((value & 0x7C00) >> 10) as u8;
                    let src_a = ((value & 0x03E0) >> 5) as u8;
                    let src_b = (value & 0x001F) as u8;
                    Ok((3u8, Instruction::Arithmetic(mode, target, src_a, src_b)))
                },
            }
        } else {
            Err(CpuError::NotAnInstruction)
        },
    }
}

/// What one byte store changes and what it leaves alone: the byte at the
/// stored address, and nothing else — two distinct 32-bit addresses never
/// share both page index and offset.
proof fn lemma_store8_frame(v: CpuView, a: u32, val: u8)
    requires
        v.wf(),
        v.in_mem(a),
    ensures
        spec_store8(v, a, val).wf(),
        spec_store8(v, a, val).pages.len() == v.pages.len(),
        spec_store8(v, a, val).regs == v.regs,
        spec_store8(v, a, val).pc == v.pc,
        spec_store8(v, a, val).mem_at(a) == val,
        forall|b: u32|
            v.in_mem(b) && b != a ==> spec_store8(v, a, val).mem_at(b) == v.mem_at(b),
{
    let w = spec_store8(v, a, val);
    assert forall|b: u32| v.in_mem(b) && b != a implies w.mem_at(b) == v.mem_at(b) by {
        if (b as int) / 65536 == (a as int) / 65536 && (b as int) % 65536 == (a as int) % 65536 {
            vstd::arithmetic::div_mod::lemma_fundamental_div_mod(a as int, 65536);
            vstd::arithmetic::div_mod::lemma_fundamental_div_mod(b as int, 65536);
            assert(false);
        }
    }
}

/// Byte `n` of a store: the register's bytes most significant first, zero
/// for positions beyond the register's four bytes.
pub open spec fn store_byte_val(reg: u32, ws: int, n: int) -> u8 {
    let sh = 8 * (ws - 1 - n);
    if 0 <= sh < 32 {
        (reg >> (sh as u32)) as u8
    } else {
        0u8
    }
}

/// The least `i` in `[i0, n)` whose address `a + i` lies outside the
/// configured pages, or `n` when every one lies inside.
pub open spec fn first_bad_from(v: CpuView, a: u32, n: int, i: int) -> int
    decreases n - i,
{
    if i < 0 || i >= n {
        n
    } else if !v.in_mem(w_add(a, i)) {
        i
    } else {
        first_bad_from(v, a, n, i + 1)
    }
}

/// The memory after the bytes `i` to `ws - 1` of a store of `reg` at `a`.
pub open spec fn spec_store_bytes(v: CpuView, a: u32, reg: u32, ws: int, i: int) -> CpuView
    decreases ws - i,
{
    if i < 0 || i >= ws {
        v
    } else {
        spec_store_bytes(spec_store8(v, w_add(a, i), store_byte_val(reg, ws, i)), a, reg, ws, i + 1)
    }
}

/// The value a load accumulates: each byte, most significant first, ORed in
/// below the previous ones; contributions past the register's four bytes
/// are dropped.
pub open spec fn load_acc(v: CpuView, a: u32, ws: int, i: int, acc: u32) -> u32
    decreases ws - i,
{
    if i < 0 || i >= ws {
        acc
    } else {
        let sh = 8 * (ws - i - 1);
        let part = if 0 <= sh < 32 {
            (v.mem_at(w_add(a, i)) as u32) << (sh as u32)
        } else {
            0u32
        };
        load_acc(v, a, ws, i + 1, acc | part)
    }
}

/// The first address a move faults at, checking for each byte the source
/// then the destination, or nothing when every access is in bounds.
pub open spec fn move_fault_from(v: CpuView, src: u32, dst: u32, ws: int, i: int) -> Option<u32>
    decreases ws - i,
{
    if i < 0 || i >= ws {
        None
    } else if !v.in_mem(w_add(src, i)) {
        Some(w_add(src, i))
    } else if !v.in_mem(w_add(dst, i)) {
        Some(w_add(dst, i))
    } else {
        move_fault_from(v, src, dst, ws, i + 1)
    }
}

/// The memory after bytes `i` to `ws - 1` of a move: one byte at a time,
/// lowest offset first, each read after the writes before it.
pub open spec fn spec_move_bytes(v: CpuView, src: u32, dst: u32, ws: int, i: int) -> CpuView
    decreases ws - i,
{
    if i < 0 || i >= ws {
        v
    } else {
        spec_move_bytes(
            spec_store8(v, w_add(dst, i), v.mem_at(w_add(src, i))),
            src,
            dst,
            ws,
            i + 1,
        )
    }
}

/// One arithmetic operation on unsigned 32-bit values: add, subtract and
/// multiply wrap around; divide and take the remainder by zero fault.
pub open spec fn spec_arith(mode: ArithmeticMode, a: u32, b: u32) -> Result<u32, CpuError> {
    match mode {
        ArithmeticMode::Add => Ok(a.wrapping_add(b)),
        ArithmeticMode::Sub => Ok(a.wrapping_sub(b)),
        ArithmeticMode::Mul => Ok(a.wrapping_mul(b)),
        ArithmeticMode::Div => if b == 0 {
            Err(CpuError::DivisionByZero)
        } else {
            Ok(a / b)
        },
        ArithmeticMode::Mod => if b == 0 {
            Err(CpuError::DivisionByZero)
        } else {
            Ok(a % b)
        },
        ArithmeticMode::Or => Ok(a | b),
        ArithmeticMode::And => Ok(a & b),
        ArithmeticMode::Xor => Ok(a ^ b),
    }
}

/// The effect of one decoded instruction on the advanced state `v` (the
/// program counter has already moved past the instruction): the state
/// after, and the fault if one occurred — a faulting instruction changes
/// neither registers nor memory.
pub open spec fn spec_exec(v: CpuView, inst: Instruction) -> (CpuView, Option<CpuError>) {
    match inst {
        Instruction::Nop => (v, None),
        Instruction::ShortJump(index) => (
            CpuView { pc: v.pc.wrapping_add_signed(index), ..v },
            None,
        ),
        Instruction::LongJump(address) => (CpuView { pc: address, ..v }, None),
        Instruction::Store(wordsize, register, address) => {
            let f = first_bad_from(v, address, wordsize as int, 0);
            if f < wordsize as int {
                (v, Some(CpuError::AccessFault(w_add(address, f))))
            } else {
                (spec_store_bytes(v, address, v.regs[register as int], wordsize as int, 0), None)
            }
        },
        Instruction::Load(wordsize, register, address) => {
            let f = first_bad_from(v, address, wordsize as int, 0);
            if f < wordsize as int {
                (v, Some(CpuError::AccessFault(w_add(address, f))))
            } else {
                (
                    CpuView {
                        regs: v.regs.update(
                            register as int,
                            load_acc(v, address, wordsize as int, 0, 0),
                        ),
                        ..v
                    },
                    None,
                )
            }
        },
        Instruction::Move(wordsize, src_address, dest_address) => {
            match move_fault_from(v, src_address, dest_address, wordsize as int, 0) {
                Some(a) => (v, Some(CpuError::AccessFault(a))),
                None => (spec_move_bytes(v, src_address, dest_address, wordsize as int, 0), None),
            }
        },
        Instruction::Copy(source_reg, dest_reg) => match spec_fetch_reg(v, source_reg) {
            Err(e) => (v, Some(e)),
            Ok(val) => match spec_save_reg(v, dest_reg, val) {
                Err(e) => (v, Some(e)),
                Ok(v2) => (v2, None),
            },
        },
        Instruction::Arithmetic(mode, target, src_a, src_b) => match spec_fetch_reg(v, src_a) {
            Err(e) => (v, Some(e)),
            Ok(value_a) => match spec_fetch_reg(v, src_b) {
                Err(e) => (v, Some(e)),
                Ok(value_b) => match spec_arith(mode, value_a, value_b) {
                    Err(e) => (v, Some(e)),
                    Ok(res) => match spec_save_reg(v, target, res) {
                        Err(e) => (v, Some(e)),
                        Ok(v2) => (v2, None),
                    },
                },
            },
        },
    }
}

/// One full step: decode at the program counter (a decode fault changes
/// nothing), advance the program counter by the encoded length, then apply
/// the instruction's effect.
pub open spec fn spec_step(v: CpuView) -> (CpuView, Option<CpuError>) {
    match spec_decode(v) {
        Err(e) => (v, Some(e)),
        Ok((read, inst)) => spec_exec(
            CpuView { pc: v.pc.wrapping_add(read as u32), ..v },
            inst,
        ),
    }
}

/// What decoding can produce: register fields of store, load and
/// arithmetic instructions are 5-bit, and a word size is a power of two
/// from 1 to 8.
pub open spec fn instruction_wf(inst: Instruction) -> bool {
    match inst {
        Instruction::Store(ws, reg, _) => reg <= 31 && (ws == 1 || ws == 2 || ws == 4 || ws == 8),
        Instruction::Load(ws, reg, _) => reg <= 31 && (ws == 1 || ws == 2 || ws == 4 || ws == 8),
        Instruction::Arithmetic(_, t, a, b) => t <= 31 && a <= 31 && b <= 31,
        _ => true,
    }
}

/// Every instruction the decoder produces is well formed.
pub proof fn lemma_decode_wf(v: CpuView)
    ensures
        spec_decode(v) matches Ok(li) ==> instruction_wf(li.1),
{
    assert(forall|value: u8| #![trigger (value & 0x1f)] (value & 0x1f) <= 31) by (bit_vector);
    assert(forall|value: u8|
        #![trigger (1u8 << ((value & 0xC0) >> 6u8))]
        (1u8 << ((value & 0xC0) >> 6u8)) == 1 || (1u8 << ((value & 0xC0) >> 6u8)) == 2 || (1u8 << ((
        value & 0xC0) >> 6u8)) == 4 || (1u8 << ((value & 0xC0) >> 6u8)) == 8) by (bit_vector);
    assert(forall|value: u16|
        #![trigger (value & 0x001F)]
        ((value & 0x7C00) >> 10) <= 31 && ((value & 0x03E0) >> 5) <= 31 && (value & 0x001F)
            <= 31) by (bit_vector);
}

/// Wrapping 32-bit addition agrees with addition modulo 2^32.
proof fn lemma_wrap_add(a: u32, k: u32)
    ensures
        a.wrapping_add(k) == w_add(a, k as int),
{
    let m = 0x100000000int;
    if a + k < m {
        vstd::arithmetic::div_mod::lemma_small_mod((a + k) as nat, m as nat);
    } else {
        vstd::arithmetic::div_mod::lemma_mod_sub_multiples_vanish(a + k, m);
        vstd::arithmetic::div_mod::lemma_small_mod((a + k - m) as nat, m as nat);
    }
}

/// An address below `n` pages' worth of bytes lies in one of those pages.
proof fn lemma_page_bound(a: int, n: int)
    requires
        0 <= a,
        0 <= n,
        a < n * 65536,
    ensures
        a / 65536 < n,
{
    vstd::arithmetic::div_mod::lemma_fundamental_div_mod(a, 65536);
    if a / 65536 >= n {
        vstd::arithmetic::mul::lemma_mul_inequality(n, a / 65536, 65536);
        assert(false);
    }
}

/// Division or remainder by a zero-valued register faults with a
/// division-by-zero error and leaves every register — the target included —
/// and all memory unchanged; only the program counter has moved past the
/// instruction.
pub proof fn lemma_div_by_zero(
    v: CpuView,
    read: u8,
    mode: ArithmeticMode,
    target: u8,
    src_a: u8,
    src_b: u8,
)
    requires
        v.wf(),
        spec_decode(v) == Ok::<(u8, Instruction), CpuError>(
            (read, Instruction::Arithmetic(mode, target, src_a, src_b)),
        ),
        mode == ArithmeticMode::Div || mode == ArithmeticMode::Mod,
        v.regs[src_b as int] == 0,
    ensures
        spec_step(v).1 == Some(CpuError::DivisionByZero),
        spec_step(v).0.regs == v.regs,
        spec_step(v).0.pages == v.pages,
        spec_step(v).0.pc == v.pc.wrapping_add(read as u32),
{
    lemma_decode_wf(v);
}

/// Fetching an instruction from an address whose page is not configured
/// faults with an access fault at exactly that address and changes
/// nothing.
pub proof fn lemma_fetch_unconfigured_page(v: CpuView)
    requires
        !v.in_mem(v.pc),
    ensures
        spec_step(v) == (v, Some(CpuError::AccessFault(v.pc))),
{
}

/// Address `a + j` for a range known not to wrap.
pub open spec fn at_off(a: u32, j: int) -> u32 {
    (a + j) as u32
}

/// Wrapped addition that stays below 2^32 is plain addition.
proof fn lemma_w_add_nowrap(a: u32, k: int)
    requires
        0 <= k,
        a + k < 0x100000000,
    ensures
        w_add(a, k) == a + k,
{
    vstd::arithmetic::div_mod::lemma_small_mod((a + k) as nat, 0x100000000nat);
}

/// A move with no fault has every accessed byte in a configured page.
proof fn lemma_move_fault_none(v: CpuView, src: u32, dst: u32, ws: int, i: int)
    requires
        0 <= i,
        move_fault_from(v, src, dst, ws, i) is None,
    ensures
        forall|j: int| i <= j < ws ==> v.in_mem(w_add(src, j)) && v.in_mem(w_add(dst, j)),
    decreases ws - i,
{
    if i < ws {
        lemma_move_fault_none(v, src, dst, ws, i + 1);
    }
}

/// The byte-at-a-time move, lowest offset first, ends with every
/// destination byte equal to the source byte at the same offset as both
/// then stand, and touches nothing outside the destination range — for
/// ranges that do not wrap and whose source does not begin strictly inside
/// the destination range.
proof fn lemma_move_bytes_ind(v1: CpuView, src: u32, dst: u32, ws: int, i: int)
    requires
        v1.wf(),
        0 <= i <= ws,
        ws <= 255,
        src + ws <= 0x100000000,
        dst + ws <= 0x100000000,
        src <= dst || src >= dst + ws,
        forall|j: int| i <= j < ws ==> v1.in_mem(w_add(src, j)) && v1.in_mem(w_add(dst, j)),
        forall|j: int|
            0 <= j < i ==> v1.mem_at(at_off(dst, j)) == v1.mem_at(at_off(src, j)),
    ensures
        ({
            let w = spec_move_bytes(v1, src, dst, ws, i);
            &&& w.wf()
            &&& w.pages.len() == v1.pages.len()
            &&& w.regs == v1.regs
            &&& w.pc == v1.pc
            &&& forall|j: int|
                0 <= j < ws ==> w.mem_at(at_off(dst, j)) == w.mem_at(at_off(src, j))
            &&& forall|b: u32|
                v1.in_mem(b) && !(dst <= b < dst + ws) ==> w.mem_at(b) == v1.mem_at(b)
        }),
    decreases ws - i,
{
    if i >= ws {
    } else {
        lemma_w_add_nowrap(src, i);
        lemma_w_add_nowrap(dst, i);
        let sa = (src + i) as u32;
        let da = (dst + i) as u32;
        let v2 = spec_store8(v1, da, v1.mem_at(sa));
        lemma_store8_frame(v1, da, v1.mem_at(sa));
        assert forall|j: int|
            0 <= j < i + 1 implies v2.mem_at(at_off(dst, j)) == v2.mem_at(at_off(src, j)) by {
            lemma_w_add_nowrap(src, j);
            lemma_w_add_nowrap(dst, j);
            let saj = at_off(src, j);
            let daj = at_off(dst, j);
            if j == i {
                if saj == da {
                    assert(v2.mem_at(daj) == v2.mem_at(saj));
                } else {
                    assert(v2.mem_at(saj) == v1.mem_at(saj));
                }
            } else {
                assert(daj != da);
                assert(saj != da);
                assert(v2.mem_at(daj) == v1.mem_at(daj));
                assert(v2.mem_at(saj) == v1.mem_at(saj));
            }
        }
        assert forall|j: int|
            i + 1 <= j < ws implies v2.in_mem(w_add(src, j)) && v2.in_mem(w_add(dst, j)) by {
            assert(v1.in_mem(w_add(src, j)) && v1.in_mem(w_add(dst, j)));
        }
        lemma_move_bytes_ind(v2, src, dst, ws, i + 1);
        let w = spec_move_bytes(v1, src, dst, ws, i);
        assert(w == spec_move_bytes(v2, src, dst, ws, i + 1));
        assert forall|b: u32|
            v1.in_mem(b) && !(dst <= b < dst + ws) implies w.mem_at(b) == v1.mem_at(b) by {
            assert(b != da);
            assert(v2.mem_at(b) == v1.mem_at(b));
        }
    }
}

/// After a successful `mv`, byte-for-byte equality holds between the
/// `wordsize` bytes at the source and at the destination, and all other
/// memory and every register is unchanged; only the program counter has
/// moved past the instruction. Stated for moves whose two byte ranges do
/// not wrap around the address space and whose source does not begin
/// strictly inside the destination range.
pub proof fn lemma_move_copies(v: CpuView, read: u8, wordsize: u8, src: u32, dst: u32)
    requires
        v.wf(),
        spec_decode(v) == Ok::<(u8, Instruction), CpuError>(
            (read, Instruction::Move(wordsize, src, dst)),
        ),
        src + wordsize <= 0x100000000,
        dst + wordsize <= 0x100000000,
        src <= dst || src >= dst + wordsize,
        spec_step(v).1 is None,
    ensures
        ({
            let v2 = spec_step(v).0;
            &&& v2.wf()
            &&& v2.regs == v.regs
            &&& v2.pc == v.pc.wrapping_add(read as u32)
            &&& v2.pages.len() == v.pages.len()
            &&& forall|j: int|
                0 <= j < wordsize ==> v2.mem_at(at_off(dst, j)) == v2.mem_at(at_off(src, j))
            &&& forall|b: u32|
                v.in_mem(b) && !(dst <= b < dst + wordsize) ==> v2.mem_at(b) == v.mem_at(b)
        }),
{
    let v1 = CpuView { pc: v.pc.wrapping_add(read as u32), ..v };
    lemma_move_fault_none(v1, src, dst, wordsize as int, 0);
    lemma_move_bytes_ind(v1, src, dst, wordsize as int, 0);
}

impl Cpu {
    /// A CPU with `pages` zeroed pages, all registers and the program
    /// counter zero, and `program` loaded byte for byte from address 0.
    pub fn new(pages: usize, program: &Vec<u8>) -> (c: Cpu)
        requires
            program@.len() <= pages * 65536,
            program@.len() <= 0x100000000,
        ensures
            c@.wf(),
            c@.pc == 0,
            c@.pages.len() == pages,
            forall|i: int| 0 <= i < 32 ==> c@.regs[i] == 0,
            forall|a: u32| a < program@.len() ==> c@.in_mem(a) && c@.mem_at(a) == program@[a as int],
            forall|a: u32| c@.in_mem(a) && a >= program@.len() ==> c@.mem_at(a) == 0,
    {
        let ghost zero_page = Seq::new(65536, |i: int| 0u8);
        let mut obj = Cpu { pc: 0, gp_regs: Vec::new(), mode: 0u32, ram: Vec::new() };
        let mut r: usize = 0;
        while r < 32
            invariant
                r <= 32,
                obj.gp_regs@.len() == r,
                obj.pc == 0,
                obj.ram@.len() == 0,
                forall|i: int| 0 <= i < r ==> obj.gp_regs@[i] == 0,
            decreases 32 - r,
        {
            obj.gp_regs.push(0);
            r += 1;
        }
        let mut n: usize = 0;
        while n < pages
            invariant
                zero_page == Seq::new(65536, |i: int| 0u8),
                n <= pages,
                obj@.regs.len() == 32,
                forall|i: int| 0 <= i < 32 ==> obj@.regs[i] == 0,
                obj.pc == 0,
                obj.ram@.len() == n,
                forall|p: int| 0 <= p < n ==> #[trigger] obj@.pages[p] == zero_page,
            decreases pages - n,
        {
            let mut data: Vec<u8> = Vec::new();
            let mut b: usize = 0;
            while b < 65536
                invariant
                    b <= 65536,
                    data@.len() == b,
                    forall|i: int| 0 <= i < b ==> data@[i] == 0u8,
                decreases 65536 - b,
            {
                data.push(0);
                b += 1;
            }
            proof {
                assert(data@ =~= zero_page);
            }
            let ghost old_pages = obj@.pages;
            obj.ram.push(
                RamPage { data, flags: 0u32, base: (#[verifier::truncate] (n as u32)) << 16 },
            );
            proof {
                assert(obj@.pages =~= old_pages.push(zero_page));
            }
            n += 1;
        }
        proof {
            assert(obj@.wf());
        }
        let mut k: usize = 0;
        while k < program.len()
            invariant
                program@.len() <= pages * 65536,
                program@.len() <= 0x100000000,
                k <= program@.len(),
                obj@.wf(),
                obj@.pc == 0,
                obj@.pages.len() == pages,
                forall|i: int| 0 <= i < 32 ==> obj@.regs[i] == 0,
                forall|a: u32| a < k ==> obj@.in_mem(a) && obj@.mem_at(a) == program@[a as int],
                forall|a: u32| obj@.in_mem(a) && a >= k ==> obj@.mem_at(a) == 0,
            decreases program@.len() - k,
        {
            let ghost cur = obj@;
            proof {
                lemma_page_bound(k as int, pages as int);
                lemma_store8_frame(cur, k as u32, program@[k as int]);
            }
            let res = obj.storeu8(program[k], k as u32);
            proof {
                assert(res is Ok);
                assert(obj@ == spec_store8(cur, k as u32, program@[k as int]));
                assert forall|a: u32| a < k + 1 implies obj@.in_mem(a) && obj@.mem_at(a)
                    == program@[a as int] by {
                    if a < k {
                        assert(cur.mem_at(a) == program@[a as int]);
                    }
                }
                assert forall|a: u32| obj@.in_mem(a) && a >= k + 1 implies obj@.mem_at(a)
                    == 0 by {
                    assert(cur.mem_at(a) == 0);
                }
            }
            k += 1;
        }
        obj
    }

    /// Reads a register by code; an unknown code is an illegal-register
    /// fault.
    pub fn fetch_reg(&self, reg: u8) -> (r: Result<u32, CpuError>)
        requires
            self@.wf(),
        ensures
            r == spec_fetch_reg(self@, reg),
    {
        if reg <= 31 {
            Ok(self.gp_regs[reg as usize])
        } else if reg == REG_PC_CODE {
            Ok(self.pc)
        } else {
            Err(CpuError::IllegalRegister(reg))
        }
    }

    /// Writes a register by code; an unknown code is an illegal-register
    /// fault and changes nothing.
    pub fn save_reg(&mut self, reg: u8, value: u32) -> (r: Result<(), CpuError>)
        requires
            old(self)@.wf(),
        ensures
            final(self)@.wf(),
            match spec_save_reg(old(self)@, reg, value) {
                Ok(v) => r is Ok && final(self)@ == v,
                Err(e) => r == Err::<(), CpuError>(e) && final(self)@ == old(self)@,
            },
    {
        if reg <= 31 {
            self.gp_regs[reg as usize] = value;
            Ok(())
        } else if reg == REG_PC_CODE {
            self.pc = value;
            proof {
                assert(self@ =~= (CpuView { pc: value, ..old(self)@ }));
            }
            Ok(())
        } else {
            Err(CpuError::IllegalRegister(reg))
        }
    }

    /// Decodes one instruction at the program counter, as `spec_decode`
    /// states.
    #[verifier::rlimit(100)]
    #[verifier::spinoff_prover]
    pub fn decode(&self) -> (r: Result<(u8, Instruction), CpuError>)
        requires
            self@.wf(),
        ensures
            r == spec_decode(self@),
    {
        let first_byte = match self.fetchu8(self.pc) {
            Ok(b) => b,
            Err(e) => {
                return Err(e);
            },
        };
        if first_byte == OP_NOP {
            Ok((1, Instruction::Nop))
        } else if first_byte == OP_SHORT_JUMP32 {
            let value = match self.fetchu32(self.pc.wrapping_add(1)) {
                Ok(v) => v,
                Err(e) => {
                    return Err(e);
                },
            };
            Ok((5, Instruction::ShortJump(#[verifier::truncate] (value as i32))))
        } else if first_byte == OP_SHORT_JUMP16 {
            let value = match self.fetchu16(self.pc.wrapping_add(1)) {
                Ok(v) => v,
                Err(e) => {
                    return Err(e);
                },
            };
            Ok((3, Instruction::ShortJump((#[verifier::truncate] (value as i16)) as i32)))
        } else if first_byte == OP_LONG_JUMP {
            let value = match self.fetchu32(self.pc.wrapping_add(1)) {
                Ok(v) => v,
                Err(e) => {
                    return Err(e);
                },
            };
            Ok((5, Instruction::LongJump(value)))
        } else if first_byte == OP_STORE || first_byte == OP_LOAD {
            let value = match self.fetchu8(self.pc.wrapping_add(1)) {
                Ok(v) => v,
                Err(e) => {
                    return Err(e);
                },
            };
            let address = match self.fetchu32(self.pc.wrapping_add(2)) {
                Ok(v) => v,
                Err(e) => {
                    return Err(e);
                },
            };
            let reg = value & 0x1f;
            proof {
                assert(((value & 0xC0) >> 6) < 8) by (bit_vector);
            }
            let wordsize = 1u8 << ((value & 0xC0) >> 6);
            if first_byte == OP_STORE {
                Ok((6, Instruction::Store(wordsize, reg, address)))
            } else {
                Ok((6, Instruction::Load(wordsize, reg, address)))
            }
        } else if first_byte == OP_MOVE {
            let length = match self.fetchu8(self.pc.wrapping_add(1)) {
                Ok(v) => v,
                Err(e) => {
                    return Err(e);
                },
            };
            let src_address = match self.fetchu32(self.pc.wrapping_add(2)) {
                Ok(v) => v,
                Err(e) => {
                    return Err(e);
                },
            };
            let dest_address = match self.fetchu32(self.pc.wrapping_add(6)) {
                Ok(v) => v,
                Err(e) => {
                    return Err(e);
                },
            };
            Ok((10, Instruction::Move(length, src_address, dest_address)))
        } else if first_byte == OP_COPY {
            let source_reg = match self.fetchu8(self.pc.wrapping_add(1)) {
                Ok(v) => v,
                Err(e) => {
                    return Err(e);
                },
            };
            let dest_reg = match self.fetchu8(self.pc.wrapping_add(2)) {
                Ok(v) => v,
                Err(e) => {
                    return Err(e);
                },
            };
            Ok((3, Instruction::Copy(source_reg, dest_reg)))
        } else if OP_ARITH_BASE <= first_byte && first_byte <= OP_ARITH_LAST {
            let value = match self.fetchu16(self.pc.wrapping_add(1)) {
                Ok(v) => v,
                Err(e) => {
                    return Err(e);
                },
            };
            let mode = if first_byte == 0x10 {
                ArithmeticMode::Add
            } else if first_byte == 0x11 {
                ArithmeticMode::Sub
            } else if first_byte == 0x12 {
                ArithmeticMode::Mul
            } else if first_byte == 0x13 {
                ArithmeticMode::Div
            } else if first_byte == 0x14 {
                ArithmeticMode::Mod
            } else if first_byte == 0x15 {
                ArithmeticMode::Or
            } else if first_byte == 0x16 {
                ArithmeticMode::And
            } else {
                ArithmeticMode::Xor
            };
            proof {
                assert(((value & 0x7C00) >> 10) < 256 && ((value & 0x03E0) >> 5) < 256 && (value
                    & 0x001F) < 256) by (bit_vector);
            }
            let target = ((value & 0x7C00) >> 10) as u8;
            let src_a = ((value & 0x03E0) >> 5) as u8;
            let src_b = (value & 0x001F) as u8;
            Ok((3, Instruction::Arithmetic(mode, target, src_a, src_b)))
        } else {
            Err(CpuError::NotAnInstruction)
        }
    }

    /// The current program counter.
    pub fn pc_value(&self) -> (r: u32)
        ensures
            r == self@.pc,
    {
        self.pc
    }

    /// How many pages of memory are configured.
    pub fn page_count(&self) -> (r: usize)
        ensures
            r == self@.pages.len(),
    {
        self.ram.len()
    }

    /// Whether `address` lies in a configured page.
    fn page_ok(&self, address: u32) -> (b: bool)
        ensures
            b == self@.in_mem(address),
    {
        proof {
            lemma_addr_decompose(address);
        }
        let base = (address >> 16) as usize;
        base < self.ram.len()
    }

    /// Fetches, decodes and executes one instruction, as `spec_step`
    /// states: the program counter moves past the instruction before its
    /// effect applies, and a faulting instruction reports its fault with
    /// registers and memory untouched.
    pub fn step(&mut self) -> (r: Result<(), CpuError>)
        requires
            old(self)@.wf(),
        ensures
            final(self)@.wf(),
            final(self)@ == spec_step(old(self)@).0,
            match spec_step(old(self)@).1 {
                None => r is Ok,
                Some(e) => r == Err::<(), CpuError>(e),
            },
    {
        self.step_impl()
    }

    /// The worker behind `step`.
    #[verifier::rlimit(100)]
    fn step_impl(&mut self) -> (r: Result<(), CpuError>)
        requires
            old(self)@.wf(),
        ensures
            final(self)@.wf(),
            final(self)@ == spec_step(old(self)@).0,
            match spec_step(old(self)@).1 {
                None => r is Ok,
                Some(e) => r == Err::<(), CpuError>(e),
            },
    {
        let ghost v0 = self@;
        let (read, inst) = match self.decode() {
            Err(e) => {
                return Err(e);
            },
            Ok(ri) => ri,
        };
        proof {
            lemma_decode_wf(v0);
        }
        self.pc = self.pc.wrapping_add(read as u32);
        let ghost v1 = self@;
        proof {
            assert(v1 =~= (CpuView { pc: v0.pc.wrapping_add(read as u32), ..v0 }));
            assert(spec_step(v0) == spec_exec(v1, inst));
        }
        match inst {
            Instruction::Nop => Ok(()),
            Instruction::ShortJump(index) => {
                self.pc = self.pc.wrapping_add_signed(index);
                proof {
                    assert(self@ =~= spec_exec(v1, inst).0);
                }
                Ok(())
            },
            Instruction::LongJump(address) => {
                self.pc = address;
                proof {
                    assert(self@ =~= spec_exec(v1, inst).0);
                }
                Ok(())
            },
            Instruction::Store(wordsize, register, address) => {
                let mut n: u8 = 0;
                while n < wordsize
                    invariant
                        n <= wordsize,
                        self@ == v1,
                        v1.wf(),
                        inst == Instruction::Store(wordsize, register, address),
                        register <= 31,
                        spec_step(old(self)@) == spec_exec(v1, inst),
                        first_bad_from(v1, address, wordsize as int, 0) == first_bad_from(
                            v1,
                            address,
                            wordsize as int,
                            n as int,
                        ),
                        forall|j: int| 0 <= j < n ==> v1.in_mem(w_add(address, j)),
                    decreases wordsize - n,
                {
                    let a = address.wrapping_add(n as u32);
                    proof {
                        lemma_wrap_add(address, n as u32);
                    }
                    if !self.page_ok(a) {
                        return Err(CpuError::AccessFault(a));
                    }
                    n += 1;
                }
                let reg_val = self.gp_regs[register as usize];
                let mut n: u8 = 0;
                while n < wordsize
                    invariant
                        n <= wordsize,
                        register <= 31,
                        wordsize >= 1,
                        v1.wf(),
                        self@.wf(),
                        inst == Instruction::Store(wordsize, register, address),
                        spec_step(old(self)@) == spec_exec(v1, inst),
                        first_bad_from(v1, address, wordsize as int, 0) == wordsize as int,
                        self@.pages.len() == v1.pages.len(),
                        self@.regs == v1.regs,
                        self@.pc == v1.pc,
                        reg_val == v1.regs[register as int],
                        forall|j: int| 0 <= j < wordsize ==> v1.in_mem(w_add(address, j)),
                        spec_store_bytes(v1, address, reg_val, wordsize as int, 0)
                            == spec_store_bytes(self@, address, reg_val, wordsize as int, n as int),
                    decreases wordsize - n,
                {
                    let ghost cur = self@;
                    let sh_amt: u32 = 8 * ((wordsize - 1 - n) as u32);
                    let value: u8 = if sh_amt < 32 {
                        #[verifier::truncate] ((reg_val >> sh_amt) as u8)
                    } else {
                        0
                    };
                    let a = address.wrapping_add(n as u32);
                    proof {
                        lemma_wrap_add(address, n as u32);
                        assert(value == store_byte_val(reg_val, wordsize as int, n as int));
                        assert(cur.in_mem(a));
                        lemma_store8_frame(cur, a, value);
                    }
                    let res = self.storeu8(value, a);
                    proof {
                        assert(res is Ok);
                        assert(spec_store_bytes(cur, address, reg_val, wordsize as int, n as int)
                            == spec_store_bytes(self@, address, reg_val, wordsize as int, n + 1));
                    }
                    n += 1;
                }
                proof {
                    assert(self@ == spec_store_bytes(v1, address, reg_val, wordsize as int, 0));
                    assert(spec_exec(v1, inst) == (self@, None::<CpuError>));
                }
                Ok(())
            },
            Instruction::Load(wordsize, register, address) => {
                let mut n: u8 = 0;
                while n < wordsize
                    invariant
                        n <= wordsize,
                        self@ == v1,
                        v1.wf(),
                        inst == Instruction::Load(wordsize, register, address),
                        register <= 31,
                        spec_step(old(self)@) == spec_exec(v1, inst),
                        first_bad_from(v1, address, wordsize as int, 0) == first_bad_from(
                            v1,
                            address,
                            wordsize as int,
                            n as int,
                        ),
                        forall|j: int| 0 <= j < n ==> v1.in_mem(w_add(address, j)),
                    decreases wordsize - n,
                {
                    let a = address.wrapping_add(n as u32);
                    proof {
                        lemma_wrap_add(address, n as u32);
                    }
                    if !self.page_ok(a) {
                        return Err(CpuError::AccessFault(a));
                    }
                    n += 1;
                }
                let mut reg: u32 = 0;
                let mut n: u8 = 0;
                while n < wordsize
                    invariant
                        n <= wordsize,
                        register <= 31,
                        wordsize >= 1,
                        self@ == v1,
                        v1.wf(),
                        inst == Instruction::Load(wordsize, register, address),
                        spec_step(old(self)@) == spec_exec(v1, inst),
                        first_bad_from(v1, address, wordsize as int, 0) == wordsize as int,
                        forall|j: int| 0 <= j < wordsize ==> v1.in_mem(w_add(address, j)),
                        load_acc(v1, address, wordsize as int, 0, 0) == load_acc(
                            v1,
                            address,
                            wordsize as int,
                            n as int,
                            reg,
                        ),
                    decreases wordsize - n,
                {
                    let a = address.wrapping_add(n as u32);
                    proof {
                        lemma_wrap_add(address, n as u32);
                    }
                    let value = match self.fetchu8(a) {
                        Ok(b) => b,
                        Err(e) => {
                            return Err(e);
                        },
                    };
                    let sh_amt: u32 = 8 * ((wordsize - 1 - n) as u32);
                    let part: u32 = if sh_amt < 32 {
                        (value as u32) << sh_amt
                    } else {
                        0
                    };
                    proof {
                        let rv = reg;
                        let pv = part;
                        assert(pv | rv == rv | pv) by (bit_vector);
                        assert(load_acc(v1, address, wordsize as int, n as int, reg) == load_acc(
                            v1,
                            address,
                            wordsize as int,
                            n + 1,
                            reg | part,
                        ));
                    }
                    reg = part | reg;
                    n += 1;
                }
                self.gp_regs[register as usize] = reg;
                proof {
                    assert(self@ =~= spec_exec(v1, inst).0);
                }
                Ok(())
            },
            Instruction::Move(wordsize, src_address, dest_address) => {
                let mut n: u8 = 0;
                while n < wordsize
                    invariant
                        n <= wordsize,
                        self@ == v1,
                        v1.wf(),
                        inst == Instruction::Move(wordsize, src_address, dest_address),
                        spec_step(old(self)@) == spec_exec(v1, inst),
                        move_fault_from(v1, src_address, dest_address, wordsize as int, 0)
                            == move_fault_from(
                            v1,
                            src_address,
                            dest_address,
                            wordsize as int,
                            n as int,
                        ),
                        forall|j: int|
                            0 <= j < n ==> v1.in_mem(w_add(src_address, j)) && v1.in_mem(
                                w_add(dest_address, j),
                            ),
                    decreases wordsize - n,
                {
                    let sa = src_address.wrapping_add(n as u32);
                    proof {
                        lemma_wrap_add(src_address, n as u32);
                    }
                    if !self.page_ok(sa) {
                        return Err(CpuError::AccessFault(sa));
                    }
                    let da = dest_address.wrapping_add(n as u32);
                    proof {
                        lemma_wrap_add(dest_address, n as u32);
                    }
                    if !self.page_ok(da) {
                        return Err(CpuError::AccessFault(da));
                    }
                    n += 1;
                }
                let mut n: u8 = 0;
                while n < wordsize
                    invariant
                        n <= wordsize,
                        v1.wf(),
                        self@.wf(),
                        inst == Instruction::Move(wordsize, src_address, dest_address),
                        spec_step(old(self)@) == spec_exec(v1, inst),
                        move_fault_from(v1, src_address, dest_address, wordsize as int, 0)
                            is None,
                        self@.pages.len() == v1.pages.len(),
                        self@.regs == v1.regs,
                        self@.pc == v1.pc,
                        forall|j: int|
                            0 <= j < wordsize ==> v1.in_mem(w_add(src_address, j)) && v1.in_mem(
                                w_add(dest_address, j),
                            ),
                        spec_move_bytes(v1, src_address, dest_address, wordsize as int, 0)
                            == spec_move_bytes(
                            self@,
                            src_address,
                            dest_address,
                            wordsize as int,
                            n as int,
                        ),
                    decreases wordsize - n,
                {
                    let ghost cur = self@;
                    let sa = src_address.wrapping_add(n as u32);
                    proof {
                        lemma_wrap_add(src_address, n as u32);
                    }
                    let value = match self.fetchu8(sa) {
                        Ok(b) => b,
                        Err(e) => {
                            return Err(e);
                        },
                    };
                    let da = dest_address.wrapping_add(n as u32);
                    proof {
                        lemma_wrap_add(dest_address, n as u32);
                        assert(cur.in_mem(da));
                        lemma_store8_frame(cur, da, value);
                    }
                    let res = self.storeu8(value, da);
                    proof {
                        assert(res is Ok);
                        assert(spec_move_bytes(
                            cur,
                            src_address,
                            dest_address,
                            wordsize as int,
                            n as int,
                        ) == spec_move_bytes(
                            self@,
                            src_address,
                            dest_address,
                            wordsize as int,
                            n + 1,
                        ));
                    }
                    n += 1;
                }
                proof {
                    assert(spec_exec(v1, inst) == (self@, None::<CpuError>));
                }
                Ok(())
            },
            Instruction::Copy(source_reg, dest_reg) => {
                let value = match self.fetch_reg(source_reg) {
                    Ok(v) => v,
                    Err(e) => {
                        return Err(e);
                    },
                };
                match self.save_reg(dest_reg, value) {
                    Ok(()) => Ok(()),
                    Err(e) => Err(e),
                }
            },
            Instruction::Arithmetic(mode, target, src_a, src_b) => {
                let value_a = match self.fetch_reg(src_a) {
                    Ok(v) => v,
                    Err(e) => {
                        return Err(e);
                    },
                };
                let value_b = match self.fetch_reg(src_b) {
                    Ok(v) => v,
                    Err(e) => {
                        return Err(e);
                    },
                };
                let result = match mode {
                    ArithmeticMode::Add => value_a.wrapping_add(value_b),
                    ArithmeticMode::Sub => value_a.wrapping_sub(value_b),
                    ArithmeticMode::Mul => value_a.wrapping_mul(value_b),
                    ArithmeticMode::Div => {
                        if value_b == 0 {
                            return Err(CpuError::DivisionByZero);
                        }
                        value_a / value_b
                    },
                    ArithmeticMode::Mod => {
                        if value_b == 0 {
                            return Err(CpuError::DivisionByZero);
                        }
                        value_a % value_b
                    },
                    ArithmeticMode::Or => value_a | value_b,
                    ArithmeticMode::And => value_a & value_b,
                    ArithmeticMode::Xor => value_a ^ value_b,
                };
                match self.save_reg(target, result) {
                    Ok(()) => Ok(()),
                    Err(e) => Err(e),
                }
            },
        }
    }

    /// Stores one byte, or faults at `address` when its page index is past
    /// the configured page count.
    pub fn storeu8(&mut self, value: u8, address: u32) -> (r: Result<(), CpuError>)
        requires
            old(self)@.wf(),
        ensures
            final(self)@.wf(),
            r is Ok <==> old(self)@.in_mem(address),
            r is Ok ==> final(self)@ == spec_store8(old(self)@, address, value),
            r is Err ==> final(self)@ == old(self)@ && r == Err::<(), CpuError>(
                CpuError::AccessFault(address),
            ),
    {
        proof {
            lemma_addr_decompose(address);
        }
        let base = (address >> 16) as usize;
        let offset = (address & 0xffff) as usize;
        if self.ram.len() <= base {
            return Err(CpuError::AccessFault(address));
        }
        proof {
            assert(self@.pages[base as int] == self.ram@[base as int].data@);
        }
        self.ram[base].data[offset] = value;
        proof {
            assert(self@.pages =~= spec_store8(old(self)@, address, value).pages);
            assert(self@ =~= spec_store8(old(self)@, address, value));
        }
        Ok(())
    }

    /// Fetches one byte, or faults at `address`.
    pub fn fetchu8(&self, address: u32) -> (r: Result<u8, CpuError>)
        requires
            self@.wf(),
        ensures
            r == spec_fetch8(self@, address),
    {
        proof {
            lemma_addr_decompose(address);
        }
        let base = (address >> 16) as usize;
        let offset = (address & 0xffff) as usize;
        if self.ram.len() <= base {
            return Err(CpuError::AccessFault(address));
        }
        Ok(self.ram[base].data[offset])
    }

    /// Fetches two bytes big-endian, the most significant first.
    pub fn fetchu16(&self, address: u32) -> (r: Result<u16, CpuError>)
        requires
            self@.wf(),
        ensures
            r == spec_fetch16(self@, address),
    {
        proof {
            reveal(spec_fetch16);
        }
        let hiby = match self.fetchu8(address) {
            Ok(b) => b,
            Err(e) => {
                return Err(e);
            },
        };
        let lowby = match self.fetchu8(address.wrapping_add(1)) {
            Ok(b) => b,
            Err(e) => {
                return Err(e);
            },
        };
        Ok(((hiby as u16) << 8) | (lowby as u16))
    }

    /// Fetches four bytes big-endian, the most significant first.
    pub fn fetchu32(&self, address: u32) -> (r: Result<u32, CpuError>)
        requires
            self@.wf(),
        ensures
            r == spec_fetch32(self@, address),
    {
        proof {
            reveal(spec_fetch32);
        }
        let hiby = match self.fetchu16(address) {
            Ok(b) => b,
            Err(e) => {
                return Err(e);
            },
        };
        let lowby = match self.fetchu16(address.wrapping_add(2)) {
            Ok(b) => b,
            Err(e) => {
                return Err(e);
            },
        };
        Ok(((hiby as u32) << 16) | (lowby as u32))
    }
}

} // verus!
