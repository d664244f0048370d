//! The shared opcode table and the big-endian byte layout that both the
//! assembler's encoder and the CPU's decoder agree on.
use vstd::prelude::*;

verus! {

/// Opcode of `nop`.
pub const OP_NOP: u8 = 0x00;
/// Opcode of the 32-bit relative short jump.
pub const OP_SHORT_JUMP32: u8 = 0x01;
/// Opcode of the 16-bit relative short jump.
pub const OP_SHORT_JUMP16: u8 = 0x02;
/// Opcode of the absolute long jump.
pub const OP_LONG_JUMP: u8 = 0x03;
/// Opcode of `store`.
pub const OP_STORE: u8 = 0x0A;
/// Opcode of `load`.
pub const OP_LOAD: u8 = 0x0B;
/// Opcode of `mv` (memory-to-memory move).
pub const OP_MOVE: u8 = 0x0C;
/// Opcode of register-to-register copy.
pub const OP_COPY: u8 = 0x0D;
/// First opcode of the arithmetic block (`add`).
pub const OP_ARITH_BASE: u8 = 0x10;
/// Last opcode of the arithmetic block (`xor`).
pub const OP_ARITH_LAST: u8 = 0x17;

/// Register code of the program counter in positions that allow it.
pub const REG_PC_CODE: u8 = 0x20;

/// The four big-endian bytes of a 32-bit value, most significant first.
pub open spec fn be32_bytes(v: u32) -> Seq<u8> {
    seq![(v >> 24) as u8, (v >> 16) as u8, (v >> 8) as u8, v as u8]
}

/// The 16-bit value read from two big-endian bytes.
pub open spec fn be16_val(b0: u8, b1: u8) -> u16 {
    ((b0 as u16) << 8) | (b1 as u16)
}

/// The 32-bit value read from four big-endian bytes.
pub open spec fn be32_val(b0: u8, b1: u8, b2: u8, b3: u8) -> u32 {
    ((b0 as u32) << 24) | ((b1 as u32) << 16) | ((b2 as u32) << 8) | (b3 as u32)
}

/// One byte written at `target`: the image is first zero-extended to length
/// `target + 1` if it is shorter, then the byte at `target` is overwritten.
pub open spec fn spec_write8(image: Seq<u8>, target: int, value: u8) -> Seq<u8> {
    let ext = if image.len() <= target {
        image + Seq::new((target + 1 - image.len()) as nat, |i: int| 0u8)
    } else {
        image
    };
    ext.update(target, value)
}

/// A 16-bit value written big-endian at `target`.
pub open spec fn spec_write16(image: Seq<u8>, target: int, value: u16) -> Seq<u8> {
    spec_write8(spec_write8(image, target, (value >> 8) as u8), target + 1, value as u8)
}

/// A 32-bit value written big-endian at `target`.
pub open spec fn spec_write32(image: Seq<u8>, target: int, value: u32) -> Seq<u8> {
    spec_write16(spec_write16(image, target, (value >> 16) as u16), target + 2, value as u16)
}

/// Where each byte of a one-byte write lands: the byte at `target`, zero
/// fill between the old end and `target`, everything else untouched.
pub proof fn lemma_write8_at(image: Seq<u8>, target: int, value: u8)
    requires
        0 <= target,
    ensures
        spec_write8(image, target, value).len() == if image.len() <= target {
            target + 1
        } else {
            image.len() as int
        },
        spec_write8(image, target, value)[target] == value,
        forall|i: int|
            0 <= i < spec_write8(image, target, value).len() && i != target
                ==> spec_write8(image, target, value)[i] == (if i < image.len() {
                image[i]
            } else {
                0u8
            }),
{
}

/// Where each byte of a big-endian 16-bit write lands.
pub proof fn lemma_write16_at(image: Seq<u8>, target: int, value: u16)
    requires
        0 <= target,
    ensures
        spec_write16(image, target, value).len() == if image.len() <= target + 1 {
            target + 2
        } else {
            image.len() as int
        },
        spec_write16(image, target, value)[target] == (value >> 8) as u8,
        spec_write16(image, target, value)[target + 1] == value as u8,
        forall|i: int|
            0 <= i < spec_write16(image, target, value).len() && !(target <= i < target + 2)
                ==> spec_write16(image, target, value)[i] == (if i < image.len() {
                image[i]
            } else {
                0u8
            }),
{
    lemma_write8_at(image, target, (value >> 8) as u8);
    lemma_write8_at(spec_write8(image, target, (value >> 8) as u8), target + 1, value as u8);
}

/// Where each byte of a big-endian 32-bit write lands: the four bytes of
/// `be32_bytes(value)` from `target` on, zero fill between the old end and
/// `target`, everything else untouched.
pub proof fn lemma_write32_at(image: Seq<u8>, target: int, value: u32)
    requires
        0 <= target,
    ensures
        spec_write32(image, target, value).len() == if image.len() <= target + 3 {
            target + 4
        } else {
            image.len() as int
        },
        spec_write32(image, target, value).subrange(target, target + 4) =~= be32_bytes(value),
        forall|i: int|
            0 <= i < spec_write32(image, target, value).len() && !(target <= i < target + 4)
                ==> spec_write32(image, target, value)[i] == (if i < image.len() {
                image[i]
            } else {
                0u8
            }),
{
    let hi = (value >> 16) as u16;
    let lo = value as u16;
    lemma_write16_at(image, target, hi);
    lemma_write16_at(spec_write16(image, target, hi), target + 2, lo);
    assert((((value >> 16) as u16) >> 8) as u8 == (value >> 24) as u8) by (bit_vector);
    assert(((value >> 16) as u16) as u8 == (value >> 16) as u8) by (bit_vector);
    assert(((value as u16) >> 8) as u8 == (value >> 8) as u8) by (bit_vector);
    assert((value as u16) as u8 == value as u8) by (bit_vector);
}

} // verus!
