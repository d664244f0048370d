//! The two-pass assembler: symbol table construction, instruction and
//! operand encoding, and forward-reference backpatching over an append-only,
//! patch-in-place binary image.
use vstd::prelude::*;

use crate::encoding::{
    be32_bytes, spec_write16, spec_write32, spec_write8, OP_LOAD, OP_LONG_JUMP, OP_MOVE, OP_NOP,
    OP_STORE, REG_PC_CODE,
};
use crate::numbers::{
    all_dec_digits, dec_seq_val, is_dec_digit, parse_dec_from, parse_hex_from, spec_parse_number,
};

verus! {

/// One statement of the source program, in textual order.
#[derive(Clone)]
pub enum Statement {
    Label(String),
    Instruction(String, Vec<Argument>),
    Data(String),
}

/// One operand of an instruction: an identifier (label or register name,
/// resolved contextually) or a numeric literal resolved at encode time.
#[derive(Clone)]
pub enum Argument {
    Ident(String),
    Number(String),
}

/// A relocation record: a reference to a label that was not yet bound when
/// first encoded, and the image offset where its address must be written.
/// Only `Absolute` relocations are resolved; the other kinds are recognized
/// but their resolution is deliberately rejected rather than guessed.
#[derive(Clone)]
pub enum BackRev {
    Absolute(String, usize),
    Relative(String, usize),
    Relative16(String, usize),
}

/// Everything that can go wrong while assembling. All errors are fatal to
/// the current assembly; none is retried internally.
#[derive(Clone, Debug, PartialEq)]
pub enum AsmError {
    DuplicateLabel(String),
    UndefinedLabel(String),
    UnsupportedRelocationKind,
    UnknownInstruction(String),
    /// The operand count did not match; the payload is the least and
    /// greatest count the mnemonic accepts.
    ArityError(u32, u32),
    InvalidOperand,
    MalformedNumber,
}

/// The abstract state of an assembly session: the symbol table in insertion
/// order, the output image, the relocation queue, and whether the session
/// is in its second pass.
#[verifier::ext_equal]
pub struct AsmState {
    pub labels: Seq<(String, usize)>,
    pub image: Seq<u8>,
    pub relocs: Seq<BackRev>,
    pub second: bool,
}

/// Offset bound to `name`, scanning the symbol table front to back.
pub open spec fn spec_lookup(labels: Seq<(String, usize)>, name: Seq<char>) -> Option<usize>
    decreases labels.len(),
{
    if labels.len() == 0 {
        None
    } else if labels[0].0@ == name {
        Some(labels[0].1)
    } else {
        spec_lookup(labels.drop_first(), name)
    }
}

/// There is a register-name match at `i`: the letter `r` (code 114)
/// followed by at least one decimal digit.
pub open spec fn reg_match_at(s: Seq<char>, i: int) -> bool {
    0 <= i && i + 1 < s.len() && (s[i] as u32) == 114 && is_dec_digit(s[i + 1])
}

/// Position of the leftmost register-name match at or after `i`, or -1.
pub open spec fn first_match_from(s: Seq<char>, i: int) -> int
    decreases s.len() - i,
{
    if i < 0 || i + 1 >= s.len() {
        -1
    } else if reg_match_at(s, i) {
        i
    } else {
        first_match_from(s, i + 1)
    }
}

/// The maximal run of decimal digits starting at `i`.
pub open spec fn digit_run(s: Seq<char>, i: int) -> Seq<char>
    decreases s.len() - i,
{
    if 0 <= i < s.len() && is_dec_digit(s[i]) {
        seq![s[i]] + digit_run(s, i + 1)
    } else {
        Seq::empty()
    }
}

/// What matching a register name against `s` captures: the digit run after
/// the leftmost `r`-then-digit occurrence, if there is one.
pub open spec fn reg_capture(s: Seq<char>) -> Option<Seq<char>> {
    if first_match_from(s, 0) >= 0 {
        Some(digit_run(s, first_match_from(s, 0) + 1))
    } else {
        None
    }
}

/// `s` is exactly the name `pc` (codes 112, 99).
pub open spec fn is_pc_name(s: Seq<char>) -> bool {
    s.len() == 2 && (s[0] as u32) == 112 && (s[1] as u32) == 99
}

/// A digit run consists of decimal digits, and is non-empty when it starts
/// on one.
proof fn lemma_digit_run_digits(s: Seq<char>, i: int)
    ensures
        all_dec_digits(digit_run(s, i)),
        0 <= i < s.len() && is_dec_digit(s[i]) ==> digit_run(s, i).len() >= 1,
    decreases s.len() - i,
{
    if 0 <= i < s.len() && is_dec_digit(s[i]) {
        lemma_digit_run_digits(s, i + 1);
        let run = digit_run(s, i);
        assert forall|k: int| 0 <= k < run.len() implies is_dec_digit(#[trigger] run[k]) by {
            if k > 0 {
                assert(run[k] == digit_run(s, i + 1)[k - 1]);
            }
        }
    }
}

/// A leftmost match position really is a match.
proof fn lemma_first_match_valid(s: Seq<char>, i: int)
    ensures
        first_match_from(s, i) >= 0 ==> reg_match_at(s, first_match_from(s, i)),
    decreases s.len() - i,
{
    if !(i < 0 || i + 1 >= s.len()) && !reg_match_at(s, i) {
        lemma_first_match_valid(s, i + 1);
    }
}

/// Relies on `regex::Regex::captures` (with `Regex::new`, `Captures::get`,
/// `Match::as_str`) for the fixed pattern `r([0-9]+)`: the regex crate
/// returns the leftmost match, and the greedy `+` captures the maximal
/// digit run after the matched `r`.
#[verifier::external_body]
fn capture_register_digits(s: &String) -> (r: Option<String>)
    ensures
        r is Some <==> reg_capture(s@) is Some,
        match r {
            Some(d) => reg_capture(s@) matches Some(run) && d@ == run,
            None => true,
        },
{
    let re = regex::Regex::new(r"r([0-9]+)").unwrap();
    re.captures(s.as_str()).map(|caps| caps.get(1).unwrap().as_str().to_string())
}

/// True exactly when the string equals the literal.
fn string_eq_lit(s: &String, lit: &str) -> (r: bool)
    ensures
        r == (s@ == lit@),
{
    let owned = lit.to_owned();
    *s == owned
}

/// The register code an operand denotes: the decimal value of the digits of
/// the leftmost `r<digits>` occurrence, if it names a general-purpose
/// register (0 to 31); the program-counter code for the name `pc` where the
/// instruction form allows it. Anything else is a fatal operand error.
pub open spec fn spec_register_code(arg: Argument, allow_special: bool) -> Result<u8, AsmError> {
    match arg {
        Argument::Number(_) => Err(AsmError::InvalidOperand),
        Argument::Ident(x) => match reg_capture(x@) {
            Some(digits) => if dec_seq_val(digits) > u64::MAX {
                Err(AsmError::MalformedNumber)
            } else if dec_seq_val(digits) <= 31 {
                Ok(dec_seq_val(digits) as u8)
            } else {
                Err(AsmError::InvalidOperand)
            },
            None => if allow_special && is_pc_name(x@) {
                Ok(REG_PC_CODE)
            } else {
                Err(AsmError::InvalidOperand)
            },
        },
    }
}

/// An address operand encoded at image offset `target`. A bound label
/// encodes its offset; an unbound one, in the first pass, encodes a
/// zero-filled placeholder and queues a relocation record taken at the
/// image length before the write; in the second pass it is a fatal error.
/// A numeric operand encodes its value, truncated to 32 bits.
pub open spec fn spec_push_address(st: AsmState, arg: Argument, target: usize) -> Result<
    AsmState,
    AsmError,
> {
    match arg {
        Argument::Ident(x) => match spec_lookup(st.labels, x@) {
            Some(address) => Ok(
                AsmState {
                    image: spec_write32(st.image, target as int, address as u32),
                    ..st
                },
            ),
            None => if !st.second {
                Ok(
                    AsmState {
                        image: spec_write32(st.image, target as int, 0u32),
                        relocs: st.relocs.push(BackRev::Absolute(x, st.image.len() as usize)),
                        ..st
                    },
                )
            } else {
                Err(AsmError::UndefinedLabel(x))
            },
        },
        Argument::Number(x) => match spec_parse_number(x@) {
            Some(v) => Ok(
                AsmState { image: spec_write32(st.image, target as int, v as u32), ..st },
            ),
            None => Err(AsmError::MalformedNumber),
        },
    }
}

/// One instruction encoded at the end of the image: the opcode byte, then
/// the fixed operand layout of its mnemonic.
#[verifier::opaque]
pub open spec fn spec_push_instruction(st: AsmState, ins: String, args: Seq<Argument>) -> Result<
    AsmState,
    AsmError,
> {
    if ins@ == "nop"@ {
        if args.len() != 0 {
            Err(AsmError::ArityError(0, 0))
        } else {
            Ok(AsmState { image: st.image.push(OP_NOP), ..st })
        }
    } else if ins@ == "jmp"@ {
        if args.len() != 1 {
            Err(AsmError::ArityError(1, 1))
        } else {
            let st1 = AsmState { image: st.image.push(OP_LONG_JUMP), ..st };
            spec_push_address(st1, args[0], st1.image.len() as usize)
        }
    } else if ins@ == "store"@ || ins@ == "load"@ {
        if args.len() < 2 || args.len() > 3 {
            Err(AsmError::ArityError(2, 3))
        } else {
            let ws = if args.len() == 2 {
                Ok(4u64)
            } else {
                match args[0] {
                    Argument::Ident(_) => Err(AsmError::InvalidOperand),
                    Argument::Number(num) => match spec_parse_number(num@) {
                        Some(v) => Ok(v),
                        None => Err(AsmError::MalformedNumber),
                    },
                }
            };
            match ws {
                Err(e) => Err(e),
                Ok(w) => match spec_register_code(args[args.len() - 2], true) {
                    Err(e) => Err(e),
                    Ok(code) => {
                        let bits = if w == 1 {
                            Ok(0u8)
                        } else if w == 2 {
                            Ok(0x40u8)
                        } else if w == 4 {
                            Ok(0x80u8)
                        } else {
                            Err(AsmError::InvalidOperand)
                        };
                        match bits {
                            Err(e) => Err(e),
                            Ok(b) => {
                                let opcode = if ins@ == "store"@ {
                                    OP_STORE
                                } else {
                                    OP_LOAD
                                };
                                let st1 = AsmState {
                                    image: st.image.push(opcode).push(b | code),
                                    ..st
                                };
                                spec_push_address(st1, args[args.len() - 1], st1.image.len() as usize)
                            },
                        }
                    },
                },
            }
        }
    } else if ins@ == "mv"@ {
        if args.len() != 3 {
            Err(AsmError::ArityError(3, 3))
        } else {
            match args[0] {
                Argument::Ident(_) => Err(AsmError::InvalidOperand),
                Argument::Number(num) => match spec_parse_number(num@) {
                    None => Err(AsmError::MalformedNumber),
                    Some(v) => {
                        let st1 = AsmState { image: st.image.push(OP_MOVE).push(v as u8), ..st };
                        match spec_push_address(st1, args[1], st1.image.len() as usize) {
                            Err(e) => Err(e),
                            Ok(st2) => spec_push_address(st2, args[2], st2.image.len() as usize),
                        }
                    },
                },
            }
        }
    } else {
        Err(AsmError::UnknownInstruction(ins))
    }
}

/// One statement of the first pass: a label binds the current image length
/// (duplicates are fatal), a data statement appends its value truncated to
/// one byte, an instruction is encoded.
pub open spec fn spec_stmt(st: AsmState, stmt: Statement) -> Result<AsmState, AsmError> {
    match stmt {
        Statement::Label(l) => if spec_lookup(st.labels, l@) is Some {
            Err(AsmError::DuplicateLabel(l))
        } else {
            Ok(AsmState { labels: st.labels.push((l, st.image.len() as usize)), ..st })
        },
        Statement::Data(d) => match spec_parse_number(d@) {
            Some(v) => Ok(
                AsmState { image: spec_write8(st.image, st.image.len() as int, v as u8), ..st },
            ),
            None => Err(AsmError::MalformedNumber),
        },
        Statement::Instruction(ins, args) => spec_push_instruction(st, ins, args@),
    }
}

/// The first pass from statement `i` on: the state after all statements, or
/// the first fatal error.
pub open spec fn spec_pass1_from(st: AsmState, stmts: Seq<Statement>, i: int) -> Result<
    AsmState,
    AsmError,
>
    decreases stmts.len() - i,
{
    if i < 0 || i >= stmts.len() {
        Ok(st)
    } else {
        match spec_stmt(st, stmts[i]) {
            Ok(st2) => spec_pass1_from(st2, stmts, i + 1),
            Err(e) => Err(e),
        }
    }
}

/// The state the first pass leaves behind: on an error, the state after the
/// successful prefix, the failing statement applied not at all.
pub open spec fn spec_pass1_partial_from(st: AsmState, stmts: Seq<Statement>, i: int) -> AsmState
    decreases stmts.len() - i,
{
    if i < 0 || i >= stmts.len() {
        st
    } else {
        match spec_stmt(st, stmts[i]) {
            Ok(st2) => spec_pass1_partial_from(st2, stmts, i + 1),
            Err(_) => st,
        }
    }
}

/// The second pass from relocation record `i` on: each record in recorded
/// order overwrites its 4-byte slot with the now-resolved address. A still
/// unbound label, or a relocation kind whose resolution is not implemented,
/// is a fatal error.
pub open spec fn spec_pass2_from(st: AsmState, relocs: Seq<BackRev>, i: int) -> Result<
    AsmState,
    AsmError,
>
    decreases relocs.len() - i,
{
    if i < 0 || i >= relocs.len() {
        Ok(st)
    } else {
        match relocs[i] {
            BackRev::Absolute(label, target) => match spec_lookup(st.labels, label@) {
                Some(address) => spec_pass2_from(
                    AsmState {
                        image: spec_write32(st.image, target as int, address as u32),
                        ..st
                    },
                    relocs,
                    i + 1,
                ),
                None => Err(AsmError::UndefinedLabel(label)),
            },
            BackRev::Relative(_, _) => Err(AsmError::UnsupportedRelocationKind),
            BackRev::Relative16(_, _) => Err(AsmError::UnsupportedRelocationKind),
        }
    }
}

/// The image the second pass leaves behind on an error: the successful
/// prefix of the queue applied, nothing else.
pub open spec fn spec_pass2_partial_from(st: AsmState, relocs: Seq<BackRev>, i: int) -> AsmState
    decreases relocs.len() - i,
{
    if i < 0 || i >= relocs.len() {
        st
    } else {
        match relocs[i] {
            BackRev::Absolute(label, target) => match spec_lookup(st.labels, label@) {
                Some(address) => spec_pass2_partial_from(
                    AsmState {
                        image: spec_write32(st.image, target as int, address as u32),
                        ..st
                    },
                    relocs,
                    i + 1,
                ),
                None => st,
            },
            BackRev::Relative(_, _) => st,
            BackRev::Relative16(_, _) => st,
        }
    }
}

/// Encoding an address operand grows the image by at most four bytes and
/// touches neither the symbol table nor the pass flag.
proof fn lemma_push_address_growth(st: AsmState, arg: Argument, target: usize)
    ensures
        match spec_push_address(st, arg, target) {
            Ok(st2) => {
                &&& st.image.len() <= st2.image.len()
                &&& (target <= st.image.len() ==> st2.image.len() <= st.image.len() + 4)
                &&& st2.labels == st.labels
                &&& st2.second == st.second
            },
            Err(_) => true,
        },
{
    match arg {
        Argument::Ident(x) => match spec_lookup(st.labels, x@) {
            Some(address) => {
                crate::encoding::lemma_write32_at(st.image, target as int, address as u32);
            },
            None => {
                if !st.second {
                    crate::encoding::lemma_write32_at(st.image, target as int, 0u32);
                }
            },
        },
        Argument::Number(x) => match spec_parse_number(x@) {
            Some(v) => {
                crate::encoding::lemma_write32_at(st.image, target as int, v as u32);
            },
            None => {},
        },
    }
}

/// One statement grows the image by at most ten bytes, never shrinks it,
/// and keeps the pass flag.
proof fn lemma_stmt_growth(st: AsmState, stmt: Statement)
    ensures
        match spec_stmt(st, stmt) {
            Ok(st2) => {
                &&& st.image.len() <= st2.image.len() <= st.image.len() + 10
                &&& st2.second == st.second
            },
            Err(_) => true,
        },
{
    match stmt {
        Statement::Label(_) => {},
        Statement::Data(d) => {
            if spec_parse_number(d@) is Some {
                let v = spec_parse_number(d@)->0;
                crate::encoding::lemma_write8_at(st.image, st.image.len() as int, v as u8);
            }
        },
        Statement::Instruction(ins, args) => {
            lemma_instruction_growth(st, ins, args@);
        },
    }
}

/// One encoded instruction grows the image by at most ten bytes.
proof fn lemma_instruction_growth(st: AsmState, ins: String, args: Seq<Argument>)
    ensures
        match spec_push_instruction(st, ins, args) {
            Ok(st2) => {
                &&& st.image.len() <= st2.image.len() <= st.image.len() + 10
                &&& st2.second == st.second
            },
            Err(_) => true,
        },
{
    reveal(spec_push_instruction);
    if ins@ == "nop"@ {
    } else if ins@ == "jmp"@ {
        if args.len() == 1 {
            let st1 = AsmState { image: st.image.push(OP_LONG_JUMP), ..st };
            lemma_push_address_growth(st1, args[0], st1.image.len() as usize);
        }
    } else if ins@ == "store"@ || ins@ == "load"@ {
        if 2 <= args.len() <= 3 {
            let opcode = if ins@ == "store"@ {
                OP_STORE
            } else {
                OP_LOAD
            };
            if spec_register_code(args[args.len() - 2], true) is Ok {
                let code = spec_register_code(args[args.len() - 2], true)->Ok_0;
                let b0 = 0u8;
                let b1 = 0x40u8;
                let b2 = 0x80u8;
                let st1a = AsmState { image: st.image.push(opcode).push(b0 | code), ..st };
                let st1b = AsmState { image: st.image.push(opcode).push(b1 | code), ..st };
                let st1c = AsmState { image: st.image.push(opcode).push(b2 | code), ..st };
                lemma_push_address_growth(st1a, args[args.len() - 1], st1a.image.len() as usize);
                lemma_push_address_growth(st1b, args[args.len() - 1], st1b.image.len() as usize);
                lemma_push_address_growth(st1c, args[args.len() - 1], st1c.image.len() as usize);
            }
        }
    } else if ins@ == "mv"@ {
        if args.len() == 3 {
            match args[0] {
                Argument::Ident(_) => {},
                Argument::Number(num) => {
                    if spec_parse_number(num@) is Some {
                        let v = spec_parse_number(num@)->0;
                        let st1 = AsmState { image: st.image.push(OP_MOVE).push(v as u8), ..st };
                        lemma_push_address_growth(st1, args[1], st1.image.len() as usize);
                        if spec_push_address(st1, args[1], st1.image.len() as usize) is Ok {
                            let st2 = spec_push_address(
                                st1,
                                args[1],
                                st1.image.len() as usize,
                            )->Ok_0;
                            lemma_push_address_growth(st2, args[2], st2.image.len() as usize);
                        }
                    }
                },
            }
        }
    } else {
    }
}

/// Unfolding the first pass one statement at a time.
proof fn lemma_pass1_step(st: AsmState, stmts: Seq<Statement>, i: int)
    requires
        0 <= i < stmts.len(),
    ensures
        match spec_stmt(st, stmts[i]) {
            Ok(st2) => spec_pass1_from(st, stmts, i) == spec_pass1_from(st2, stmts, i + 1)
                && spec_pass1_partial_from(st, stmts, i) == spec_pass1_partial_from(
                st2,
                stmts,
                i + 1,
            ),
            Err(e) => spec_pass1_from(st, stmts, i) == Err::<AsmState, AsmError>(e)
                && spec_pass1_partial_from(st, stmts, i) == st,
        },
{
}

/// Encoding `nop` with any non-empty operand list fails with an arity
/// error, whatever the state and the operands.
pub proof fn lemma_nop_arity(st: AsmState, ins: String, args: Seq<Argument>)
    requires
        ins@ == "nop"@,
        args.len() > 0,
    ensures
        spec_push_instruction(st, ins, args) == Err::<AsmState, AsmError>(
            AsmError::ArityError(0, 0),
        ),
{
    reveal(spec_push_instruction);
}

/// Image offset of a relocation record.
pub open spec fn reloc_offset(r: BackRev) -> int {
    match r {
        BackRev::Absolute(_, t) => t as int,
        BackRev::Relative(_, t) => t as int,
        BackRev::Relative16(_, t) => t as int,
    }
}

/// Label name of a relocation record.
pub open spec fn reloc_label(r: BackRev) -> Seq<char> {
    match r {
        BackRev::Absolute(l, _) => l@,
        BackRev::Relative(l, _) => l@,
        BackRev::Relative16(l, _) => l@,
    }
}

/// The shape the first pass gives the relocation queue: only `Absolute`
/// records, at strictly increasing offsets at least four bytes apart, each
/// 4-byte slot already allocated within the image.
pub open spec fn relocs_wf(relocs: Seq<BackRev>, image_len: int) -> bool {
    &&& forall|k: int| 0 <= k < relocs.len() ==> (#[trigger] relocs[k]) is Absolute
    &&& forall|k: int, j: int|
        0 <= k < j < relocs.len() ==> reloc_offset(relocs[k]) + 4 <= reloc_offset(relocs[j])
    &&& forall|k: int|
        0 <= k < relocs.len() ==> 0 <= reloc_offset(#[trigger] relocs[k]) && reloc_offset(
            relocs[k],
        ) + 4 <= image_len
}

/// Byte `a` of the image lies inside the slot of one of the records from
/// `i` on.
pub open spec fn in_reloc_slot(relocs: Seq<BackRev>, i: int, a: int) -> bool {
    exists|k: int|
        i <= k < relocs.len() && reloc_offset(#[trigger] relocs[k]) <= a < reloc_offset(relocs[k])
            + 4
}

/// A queued reference to a label that the symbol table does not bind makes
/// the second pass fail, and the error names an unbound label.
pub proof fn lemma_pass2_undefined(st: AsmState, relocs: Seq<BackRev>, i: int)
    requires
        0 <= i <= relocs.len(),
        forall|k: int| 0 <= k < relocs.len() ==> (#[trigger] relocs[k]) is Absolute,
        exists|k: int|
            i <= k < relocs.len() && spec_lookup(st.labels, reloc_label(#[trigger] relocs[k]))
                is None,
    ensures
        spec_pass2_from(st, relocs, i) matches Err(e) && e matches AsmError::UndefinedLabel(l)
            && spec_lookup(st.labels, l@) is None,
    decreases relocs.len() - i,
{
    let wit = choose|k: int|
        i <= k < relocs.len() && spec_lookup(st.labels, reloc_label(#[trigger] relocs[k])) is None;
    match relocs[i] {
        BackRev::Absolute(label, target) => {
            if spec_lookup(st.labels, label@) is Some {
                let st2 = AsmState {
                    image: spec_write32(
                        st.image,
                        target as int,
                        spec_lookup(st.labels, label@)->0 as u32,
                    ),
                    ..st
                };
                assert(wit != i);
                assert(i + 1 <= wit < relocs.len() && spec_lookup(
                    st2.labels,
                    reloc_label(relocs[wit]),
                ) is None);
                lemma_pass2_undefined(st2, relocs, i + 1);
            }
        },
        BackRev::Relative(_, _) => {
            assert(false);
        },
        BackRev::Relative16(_, _) => {
            assert(false);
        },
    }
}

/// The second pass succeeds exactly when every queued record is an
/// `Absolute` one whose label the symbol table binds.
pub proof fn lemma_pass2_success_iff(st: AsmState, relocs: Seq<BackRev>, i: int)
    requires
        0 <= i <= relocs.len(),
    ensures
        spec_pass2_from(st, relocs, i) is Ok <==> (forall|k: int|
            i <= k < relocs.len() ==> (#[trigger] relocs[k]) is Absolute && spec_lookup(
                st.labels,
                reloc_label(relocs[k]),
            ) is Some),
    decreases relocs.len() - i,
{
    if i < relocs.len() {
        match relocs[i] {
            BackRev::Absolute(label, target) => match spec_lookup(st.labels, label@) {
                Some(address) => {
                    let st2 = AsmState {
                        image: spec_write32(st.image, target as int, address as u32),
                        ..st
                    };
                    lemma_pass2_success_iff(st2, relocs, i + 1);
                },
                None => {},
            },
            BackRev::Relative(_, _) => {},
            BackRev::Relative16(_, _) => {},
        }
    }
}

/// After a successful second pass, every queued slot holds the 4-byte
/// big-endian offset its label is bound to, every byte outside those slots
/// is untouched, and the image has not grown.
pub proof fn lemma_pass2_resolves(st: AsmState, relocs: Seq<BackRev>, i: int)
    requires
        0 <= i <= relocs.len(),
        relocs_wf(relocs, st.image.len() as int),
        spec_pass2_from(st, relocs, i) is Ok,
    ensures
        ({
            let st2 = spec_pass2_from(st, relocs, i)->Ok_0;
            &&& st2.image.len() == st.image.len()
            &&& st2.labels == st.labels
            &&& st2.relocs == st.relocs
            &&& st2.second == st.second
            &&& forall|k: int|
                i <= k < relocs.len() ==> spec_lookup(st.labels, reloc_label(#[trigger] relocs[k]))
                    is Some && st2.image.subrange(
                    reloc_offset(relocs[k]),
                    reloc_offset(relocs[k]) + 4,
                ) =~= be32_bytes(
                    spec_lookup(st.labels, reloc_label(relocs[k]))->0 as u32,
                )
            &&& forall|a: int|
                0 <= a < st.image.len() && !in_reloc_slot(relocs, i, a) ==> st2.image[a]
                    == st.image[a]
        }),
    decreases relocs.len() - i,
{
    if i < relocs.len() {
        match relocs[i] {
            BackRev::Absolute(label, target) => {
                let address = spec_lookup(st.labels, label@)->0;
                let stm = AsmState {
                    image: spec_write32(st.image, target as int, address as u32),
                    ..st
                };
                crate::encoding::lemma_write32_at(st.image, target as int, address as u32);
                assert(stm.image.len() == st.image.len());
                lemma_pass2_resolves(stm, relocs, i + 1);
                let st2 = spec_pass2_from(stm, relocs, i + 1)->Ok_0;
                // the slot of record i survives the later writes
                assert forall|a: int|
                    target <= a < target + 4 implies st2.image[a] == stm.image[a] by {
                    assert(!in_reloc_slot(relocs, i + 1, a));
                }
                assert(st2.image.subrange(target as int, target as int + 4) =~= be32_bytes(
                    address as u32,
                ));
                // bytes outside all slots from i on are untouched
                assert forall|a: int|
                    0 <= a < st.image.len() && !in_reloc_slot(relocs, i, a) implies st2.image[a]
                    == st.image[a] by {
                    assert(!in_reloc_slot(relocs, i + 1, a));
                    assert(stm.image[a] == st.image[a]);
                }
                // the postcondition's slot clause for records after i
                assert forall|k: int|
                    i <= k < relocs.len() implies spec_lookup(
                    st.labels,
                    reloc_label(#[trigger] relocs[k]),
                ) is Some && st2.image.subrange(
                    reloc_offset(relocs[k]),
                    reloc_offset(relocs[k]) + 4,
                ) =~= be32_bytes(spec_lookup(st.labels, reloc_label(relocs[k]))->0 as u32) by {
                    if k > i {
                        assert(spec_lookup(stm.labels, reloc_label(relocs[k])) is Some);
                    }
                }
            },
            BackRev::Relative(_, _) => {},
            BackRev::Relative16(_, _) => {},
        }
    }
}

/// What looking a name up after one more binding yields: an existing
/// binding wins (the first pass rejects duplicates before this matters),
/// else the new one.
proof fn lemma_lookup_push(labels: Seq<(String, usize)>, p: (String, usize), name: Seq<char>)
    ensures
        spec_lookup(labels.push(p), name) == (if spec_lookup(labels, name) is Some {
            spec_lookup(labels, name)
        } else if p.0@ == name {
            Some(p.1)
        } else {
            None::<usize>
        }),
    decreases labels.len(),
{
    if labels.len() == 0 {
        assert(labels.push(p)[0] == p);
        if p.0@ != name {
            assert(labels.push(p).drop_first() =~= labels);
        }
    } else {
        assert(labels.push(p)[0] == labels[0]);
        assert(labels.push(p).drop_first() =~= labels.drop_first().push(p));
        lemma_lookup_push(labels.drop_first(), p, name);
    }
}

/// Encoding an address operand at the end of the image keeps the queue
/// well formed: a new record sits at the old image length, at least four
/// bytes past every earlier record's slot.
proof fn lemma_push_address_wf(st: AsmState, arg: Argument, target: usize)
    requires
        relocs_wf(st.relocs, st.image.len() as int),
        target == st.image.len(),
    ensures
        match spec_push_address(st, arg, target) {
            Ok(st2) => relocs_wf(st2.relocs, st2.image.len() as int) && st2.image.len()
                == st.image.len() + 4,
            Err(_) => true,
        },
{
    match arg {
        Argument::Ident(x) => match spec_lookup(st.labels, x@) {
            Some(address) => {
                crate::encoding::lemma_write32_at(st.image, target as int, address as u32);
            },
            None => {
                if !st.second {
                    crate::encoding::lemma_write32_at(st.image, target as int, 0u32);
                    let st2 = spec_push_address(st, arg, target)->Ok_0;
                    assert forall|k: int, j: int|
                        0 <= k < j < st2.relocs.len() implies reloc_offset(st2.relocs[k]) + 4
                        <= reloc_offset(st2.relocs[j]) by {
                        if j < st.relocs.len() {
                        } else {
                            assert(st2.relocs[j] == BackRev::Absolute(x, st.image.len() as usize));
                            assert(st2.relocs[k] == st.relocs[k]);
                        }
                    }
                }
            },
        },
        Argument::Number(x) => {
            if spec_parse_number(x@) is Some {
                let v = spec_parse_number(x@)->0;
                crate::encoding::lemma_write32_at(st.image, target as int, v as u32);
            }
        },
    }
}

/// One statement of the first pass keeps the relocation queue well formed.
proof fn lemma_stmt_wf(st: AsmState, stmt: Statement)
    requires
        st.image.len() + 10 <= usize::MAX,
        relocs_wf(st.relocs, st.image.len() as int),
    ensures
        match spec_stmt(st, stmt) {
            Ok(st2) => relocs_wf(st2.relocs, st2.image.len() as int),
            Err(_) => true,
        },
{
    reveal(spec_push_instruction);
    match stmt {
        Statement::Label(_) => {},
        Statement::Data(d) => {
            if spec_parse_number(d@) is Some {
                let v = spec_parse_number(d@)->0;
                crate::encoding::lemma_write8_at(st.image, st.image.len() as int, v as u8);
            }
        },
        Statement::Instruction(ins, args) => {
            lemma_instruction_wf(st, ins, args@);
        },
    }
}

/// One encoded instruction keeps the relocation queue well formed.
proof fn lemma_instruction_wf(st: AsmState, ins: String, args: Seq<Argument>)
    requires
        st.image.len() + 10 <= usize::MAX,
        relocs_wf(st.relocs, st.image.len() as int),
    ensures
        match spec_push_instruction(st, ins, args) {
            Ok(st2) => relocs_wf(st2.relocs, st2.image.len() as int),
            Err(_) => true,
        },
{
    reveal(spec_push_instruction);
    if ins@ == "nop"@ {
    } else if ins@ == "jmp"@ {
        if args.len() == 1 {
            let st1 = AsmState { image: st.image.push(OP_LONG_JUMP), ..st };
            lemma_push_address_wf(st1, args[0], st1.image.len() as usize);
        }
    } else if ins@ == "store"@ || ins@ == "load"@ {
        if 2 <= args.len() <= 3 {
            let opcode = if ins@ == "store"@ {
                OP_STORE
            } else {
                OP_LOAD
            };
            if spec_register_code(args[args.len() - 2], true) is Ok {
                let code = spec_register_code(args[args.len() - 2], true)->Ok_0;
                let st1a = AsmState { image: st.image.push(opcode).push(0u8 | code), ..st };
                let st1b = AsmState { image: st.image.push(opcode).push(0x40u8 | code), ..st };
                let st1c = AsmState { image: st.image.push(opcode).push(0x80u8 | code), ..st };
                lemma_push_address_wf(st1a, args[args.len() - 1], st1a.image.len() as usize);
                lemma_push_address_wf(st1b, args[args.len() - 1], st1b.image.len() as usize);
                lemma_push_address_wf(st1c, args[args.len() - 1], st1c.image.len() as usize);
            }
        }
    } else if ins@ == "mv"@ {
        if args.len() == 3 {
            match args[0] {
                Argument::Ident(_) => {},
                Argument::Number(num) => {
                    if spec_parse_number(num@) is Some {
                        let v = spec_parse_number(num@)->0;
                        let st1 = AsmState { image: st.image.push(OP_MOVE).push(v as u8), ..st };
                        lemma_push_address_wf(st1, args[1], st1.image.len() as usize);
                        if spec_push_address(st1, args[1], st1.image.len() as usize) is Ok {
                            let st2 = spec_push_address(
                                st1,
                                args[1],
                                st1.image.len() as usize,
                            )->Ok_0;
                            lemma_push_address_wf(st2, args[2], st2.image.len() as usize);
                        }
                    }
                },
            }
        }
    } else {
    }
}

/// A successful first pass leaves the relocation queue well formed: only
/// `Absolute` records, slots disjoint, in image bounds, in image order.
pub proof fn lemma_pass1_relocs_wf(st: AsmState, stmts: Seq<Statement>, i: int)
    requires
        0 <= i <= stmts.len(),
        st.image.len() + 10 * (stmts.len() - i) <= usize::MAX,
        relocs_wf(st.relocs, st.image.len() as int),
        spec_pass1_from(st, stmts, i) is Ok,
    ensures
        ({
            let st1 = spec_pass1_from(st, stmts, i)->Ok_0;
            relocs_wf(st1.relocs, st1.image.len() as int)
        }),
    decreases stmts.len() - i,
{
    if i < stmts.len() {
        lemma_stmt_wf(st, stmts[i]);
        lemma_stmt_growth(st, stmts[i]);
        match spec_stmt(st, stmts[i]) {
            Ok(st2) => {
                lemma_pass1_relocs_wf(st2, stmts, i + 1);
            },
            Err(_) => {},
        }
    }
}

/// An address operand encoded at the end of the image never changes a byte
/// already emitted.
proof fn lemma_push_address_appends(st: AsmState, arg: Argument, target: usize)
    requires
        target == st.image.len(),
        st.image.len() + 4 <= usize::MAX,
    ensures
        match spec_push_address(st, arg, target) {
            Ok(st2) => st.image.len() <= st2.image.len() && forall|a: int|
                0 <= a < st.image.len() ==> st2.image[a] == st.image[a],
            Err(_) => true,
        },
{
    match arg {
        Argument::Ident(x) => match spec_lookup(st.labels, x@) {
            Some(address) => {
                crate::encoding::lemma_write32_at(st.image, target as int, address as u32);
            },
            None => {
                if !st.second {
                    crate::encoding::lemma_write32_at(st.image, target as int, 0u32);
                }
            },
        },
        Argument::Number(x) => match spec_parse_number(x@) {
            Some(v) => {
                crate::encoding::lemma_write32_at(st.image, target as int, v as u32);
            },
            None => {},
        },
    }
}

/// One statement of the first pass never changes a byte already emitted.
proof fn lemma_stmt_appends(st: AsmState, stmt: Statement)
    requires
        st.image.len() + 10 <= usize::MAX,
    ensures
        match spec_stmt(st, stmt) {
            Ok(st2) => st.image.len() <= st2.image.len() && forall|a: int|
                0 <= a < st.image.len() ==> st2.image[a] == st.image[a],
            Err(_) => true,
        },
{
    reveal(spec_push_instruction);
    match stmt {
        Statement::Label(_) => {},
        Statement::Data(d) => {
            if spec_parse_number(d@) is Some {
                let v = spec_parse_number(d@)->0;
                crate::encoding::lemma_write8_at(st.image, st.image.len() as int, v as u8);
            }
        },
        Statement::Instruction(ins, args) => {
            let args = args@;
            if ins@ == "nop"@ {
            } else if ins@ == "jmp"@ {
                if args.len() == 1 {
                    let st1 = AsmState { image: st.image.push(OP_LONG_JUMP), ..st };
                    lemma_push_address_appends(st1, args[0], st1.image.len() as usize);
                }
            } else if ins@ == "store"@ || ins@ == "load"@ {
                if 2 <= args.len() <= 3 {
                    let opcode = if ins@ == "store"@ {
                        OP_STORE
                    } else {
                        OP_LOAD
                    };
                    if spec_register_code(args[args.len() - 2], true) is Ok {
                        let code = spec_register_code(args[args.len() - 2], true)->Ok_0;
                        let st1a = AsmState { image: st.image.push(opcode).push(0u8 | code), ..st };
                        let st1b = AsmState {
                            image: st.image.push(opcode).push(0x40u8 | code),
                            ..st
                        };
                        let st1c = AsmState {
                            image: st.image.push(opcode).push(0x80u8 | code),
                            ..st
                        };
                        lemma_push_address_appends(st1a, args[args.len() - 1], st1a.image.len() as usize);
                        lemma_push_address_appends(st1b, args[args.len() - 1], st1b.image.len() as usize);
                        lemma_push_address_appends(st1c, args[args.len() - 1], st1c.image.len() as usize);
                    }
                }
            } else if ins@ == "mv"@ {
                if args.len() == 3 {
                    match args[0] {
                        Argument::Ident(_) => {},
                        Argument::Number(num) => {
                            if spec_parse_number(num@) is Some {
                                let v = spec_parse_number(num@)->0;
                                let st1 = AsmState {
                                    image: st.image.push(OP_MOVE).push(v as u8),
                                    ..st
                                };
                                lemma_push_address_appends(st1, args[1], st1.image.len() as usize);
                                lemma_push_address_growth(st1, args[1], st1.image.len() as usize);
                                if spec_push_address(st1, args[1], st1.image.len() as usize)
                                    is Ok {
                                    let st2 = spec_push_address(
                                        st1,
                                        args[1],
                                        st1.image.len() as usize,
                                    )->Ok_0;
                                    lemma_push_address_appends(
                                        st2,
                                        args[2],
                                        st2.image.len() as usize,
                                    );
                                }
                            }
                        },
                    }
                }
            } else {
            }
        },
    }
}

/// The first pass only appends to the image: once a byte is emitted —
/// among them every address operand resolved at encode time, whatever the
/// declaration order — its value stands for the rest of the pass.
pub proof fn lemma_pass1_appends(st: AsmState, stmts: Seq<Statement>, i: int)
    requires
        0 <= i <= stmts.len(),
        st.image.len() + 10 * (stmts.len() - i) <= usize::MAX,
        spec_pass1_from(st, stmts, i) is Ok,
    ensures
        ({
            let st1 = spec_pass1_from(st, stmts, i)->Ok_0;
            st.image.len() <= st1.image.len() && forall|a: int|
                0 <= a < st.image.len() ==> st1.image[a] == st.image[a]
        }),
    decreases stmts.len() - i,
{
    if i < stmts.len() {
        lemma_stmt_appends(st, stmts[i]);
        lemma_stmt_growth(st, stmts[i]);
        match spec_stmt(st, stmts[i]) {
            Ok(st2) => {
                lemma_pass1_appends(st2, stmts, i + 1);
            },
            Err(_) => {},
        }
    }
}

/// The address operands of one instruction, in encoding order: the target
/// of `jmp`, the last operand of `store` and `load`, the source and
/// destination of `mv`.
pub open spec fn instr_addr_args(ins: String, args: Seq<Argument>) -> Seq<Argument> {
    if ins@ == "jmp"@ && args.len() == 1 {
        seq![args[0]]
    } else if (ins@ == "store"@ || ins@ == "load"@) && 2 <= args.len() <= 3 {
        seq![args[args.len() - 1]]
    } else if ins@ == "mv"@ && args.len() == 3 {
        seq![args[1], args[2]]
    } else {
        Seq::empty()
    }
}

/// Every identifier among `args` is a defined label name.
pub open spec fn args_defined(defined: Set<Seq<char>>, args: Seq<Argument>) -> bool {
    forall|j: int|
        0 <= j < args.len() ==> (match #[trigger] args[j] {
            Argument::Ident(x) => defined.contains(x@),
            Argument::Number(_) => true,
        })
}

/// The program from statement `i` on makes no forward label reference:
/// every label an address operand names is defined by an earlier statement.
pub open spec fn no_forward_refs(defined: Set<Seq<char>>, stmts: Seq<Statement>, i: int) -> bool
    decreases stmts.len() - i,
{
    if i < 0 || i >= stmts.len() {
        true
    } else {
        (match stmts[i] {
            Statement::Instruction(ins, args) => args_defined(defined, instr_addr_args(ins, args@)),
            _ => true,
        }) && no_forward_refs(
            match stmts[i] {
                Statement::Label(l) => defined.insert(l@),
                _ => defined,
            },
            stmts,
            i + 1,
        )
    }
}

/// The set of label names the symbol table binds.
pub open spec fn bound_names(labels: Seq<(String, usize)>) -> Set<Seq<char>> {
    Set::new(|n: Seq<char>| spec_lookup(labels, n) is Some)
}

/// An address operand whose label is already bound queues nothing.
proof fn lemma_push_address_no_reloc(st: AsmState, arg: Argument, target: usize)
    requires
        match arg {
            Argument::Ident(x) => spec_lookup(st.labels, x@) is Some,
            Argument::Number(_) => true,
        },
    ensures
        match spec_push_address(st, arg, target) {
            Ok(st2) => st2.relocs == st.relocs && st2.labels == st.labels,
            Err(_) => true,
        },
{
}

/// An instruction whose address operands are all bound queues nothing.
proof fn lemma_instruction_no_reloc(st: AsmState, ins: String, args: Seq<Argument>)
    requires
        args_defined(bound_names(st.labels), instr_addr_args(ins, args)),
    ensures
        match spec_push_instruction(st, ins, args) {
            Ok(st2) => st2.relocs == st.relocs && st2.labels == st.labels,
            Err(_) => true,
        },
{
    reveal(spec_push_instruction);
    if ins@ == "nop"@ {
    } else if ins@ == "jmp"@ {
        if args.len() == 1 {
            let st1 = AsmState { image: st.image.push(OP_LONG_JUMP), ..st };
            assert(instr_addr_args(ins, args)[0] == args[0]);
            lemma_push_address_no_reloc(st1, args[0], st1.image.len() as usize);
        }
    } else if ins@ == "store"@ || ins@ == "load"@ {
        if 2 <= args.len() <= 3 {
            let opcode = if ins@ == "store"@ {
                OP_STORE
            } else {
                OP_LOAD
            };
            if spec_register_code(args[args.len() - 2], true) is Ok {
                let code = spec_register_code(args[args.len() - 2], true)->Ok_0;
                let st1a = AsmState { image: st.image.push(opcode).push(0u8 | code), ..st };
                let st1b = AsmState { image: st.image.push(opcode).push(0x40u8 | code), ..st };
                let st1c = AsmState { image: st.image.push(opcode).push(0x80u8 | code), ..st };
                assert(instr_addr_args(ins, args)[0] == args[args.len() - 1]);
                lemma_push_address_no_reloc(st1a, args[args.len() - 1], st1a.image.len() as usize);
                lemma_push_address_no_reloc(st1b, args[args.len() - 1], st1b.image.len() as usize);
                lemma_push_address_no_reloc(st1c, args[args.len() - 1], st1c.image.len() as usize);
            }
        }
    } else if ins@ == "mv"@ {
        if args.len() == 3 {
            match args[0] {
                Argument::Ident(_) => {},
                Argument::Number(num) => {
                    if spec_parse_number(num@) is Some {
                        let v = spec_parse_number(num@)->0;
                        let st1 = AsmState { image: st.image.push(OP_MOVE).push(v as u8), ..st };
                        assert(instr_addr_args(ins, args)[0] == args[1]);
                        assert(instr_addr_args(ins, args)[1] == args[2]);
                        lemma_push_address_no_reloc(st1, args[1], st1.image.len() as usize);
                        if spec_push_address(st1, args[1], st1.image.len() as usize) is Ok {
                            let st2 = spec_push_address(
                                st1,
                                args[1],
                                st1.image.len() as usize,
                            )->Ok_0;
                            lemma_push_address_no_reloc(st2, args[2], st2.image.len() as usize);
                        }
                    }
                },
            }
        }
    } else {
    }
}

/// A first pass over a program with no forward references queues nothing.
pub proof fn lemma_pass1_no_forward_refs(st: AsmState, stmts: Seq<Statement>, i: int)
    requires
        0 <= i <= stmts.len(),
        no_forward_refs(bound_names(st.labels), stmts, i),
        spec_pass1_from(st, stmts, i) is Ok,
    ensures
        spec_pass1_from(st, stmts, i)->Ok_0.relocs == st.relocs,
    decreases stmts.len() - i,
{
    if i < stmts.len() {
        match spec_stmt(st, stmts[i]) {
            Ok(st2) => {
                match stmts[i] {
                    Statement::Label(l) => {
                        let p = (l, st.image.len() as usize);
                        assert(bound_names(st2.labels) =~= bound_names(st.labels).insert(l@)) by {
                            assert forall|n: Seq<char>|
                                bound_names(st2.labels).contains(n) == bound_names(
                                    st.labels,
                                ).insert(l@).contains(n) by {
                                lemma_lookup_push(st.labels, p, n);
                            }
                        }
                    },
                    Statement::Data(_) => {},
                    Statement::Instruction(ins, args) => {
                        lemma_instruction_no_reloc(st, ins, args@);
                    },
                }
                lemma_pass1_no_forward_refs(st2, stmts, i + 1);
            },
            Err(_) => {},
        }
    }
}

/// For a program with no forward label references, the first pass alone
/// produces the final image: it queues no relocation, and the second pass
/// is a no-op that leaves the state exactly as it was.
pub proof fn lemma_pass1_alone_suffices(st: AsmState, stmts: Seq<Statement>)
    requires
        st.relocs.len() == 0,
        no_forward_refs(bound_names(st.labels), stmts, 0),
        spec_pass1_from(st, stmts, 0) is Ok,
    ensures
        spec_pass1_from(st, stmts, 0)->Ok_0.relocs.len() == 0,
        ({
            let st1 = spec_pass1_from(st, stmts, 0)->Ok_0;
            let st1b = AsmState { second: true, ..st1 };
            spec_pass2_from(st1b, st1b.relocs, 0) == Ok::<AsmState, AsmError>(st1b)
        }),
{
    lemma_pass1_no_forward_refs(st, stmts, 0);
}

/// After both passes, every address operand that referenced a label still
/// unbound when first encoded holds that label's byte offset, big-endian
/// in its 4-byte slot — regardless of declaration order — and the second
/// pass has changed no other byte and not grown the image.
pub proof fn lemma_two_pass_resolution(st: AsmState, stmts: Seq<Statement>)
    requires
        st.image.len() + 10 * stmts.len() <= usize::MAX,
        relocs_wf(st.relocs, st.image.len() as int),
        spec_pass1_from(st, stmts, 0) is Ok,
        ({
            let st1 = spec_pass1_from(st, stmts, 0)->Ok_0;
            spec_pass2_from(AsmState { second: true, ..st1 }, st1.relocs, 0) is Ok
        }),
    ensures
        ({
            let st1 = spec_pass1_from(st, stmts, 0)->Ok_0;
            let st1b = AsmState { second: true, ..st1 };
            let st2 = spec_pass2_from(st1b, st1.relocs, 0)->Ok_0;
            &&& st2.image.len() == st1.image.len()
            &&& forall|k: int|
                0 <= k < st1.relocs.len() ==> spec_lookup(
                    st1.labels,
                    reloc_label(#[trigger] st1.relocs[k]),
                ) is Some && st2.image.subrange(
                    reloc_offset(st1.relocs[k]),
                    reloc_offset(st1.relocs[k]) + 4,
                ) =~= be32_bytes(
                    spec_lookup(st1.labels, reloc_label(st1.relocs[k]))->0 as u32,
                )
            &&& forall|a: int|
                0 <= a < st1.image.len() && !in_reloc_slot(st1.relocs, 0, a) ==> st2.image[a]
                    == st1.image[a]
        }),
{
    lemma_pass1_relocs_wf(st, stmts, 0);
    let st1 = spec_pass1_from(st, stmts, 0)->Ok_0;
    let st1b = AsmState { second: true, ..st1 };
    lemma_pass2_resolves(st1b, st1.relocs, 0);
}

/// The statement stream with the empty slots dropped, order kept.
pub open spec fn flatten_opts(s: Seq<Option<Statement>>) -> Seq<Statement>
    decreases s.len(),
{
    if s.len() == 0 {
        Seq::empty()
    } else {
        match s[0] {
            Some(v) => seq![v] + flatten_opts(s.drop_first()),
            None => flatten_opts(s.drop_first()),
        }
    }
}

/// An assembly session. Owns the statement stream, the symbol table, the
/// output image and the relocation queue exclusively; the two passes thread
/// it by exclusive ownership.
pub struct Prog {
    statments: Vec<Statement>,
    labels: Vec<(String, usize)>,
    program: Vec<u8>,
    back_rev: Vec<BackRev>,
    is_second_pass: bool,
}

impl View for Prog {
    type V = AsmState;

    closed spec fn view(&self) -> AsmState {
        AsmState {
            labels: self.labels@,
            image: self.program@,
            relocs: self.back_rev@,
            second: self.is_second_pass,
        }
    }
}

impl Prog {
    /// The statement stream this session was built over.
    pub closed spec fn statements(&self) -> Seq<Statement> {
        self.statments@
    }

    /// A fresh session over the given statements, empty slots dropped:
    /// empty symbol table, empty image, empty relocation queue, first pass
    /// ahead.
    pub fn new(statments: Vec<Option<Statement>>) -> (p: Prog)
        ensures
            p@ == (AsmState {
                labels: Seq::<(String, usize)>::empty(),
                image: Seq::<u8>::empty(),
                relocs: Seq::<BackRev>::empty(),
                second: false,
            }),
            p.statements() == flatten_opts(statments@),
    {
        let mut statments = statments;
        let ghost orig = statments@;
        let mut tmp: Vec<Statement> = Vec::new();
        proof {
            assert(flatten_opts(orig) =~= tmp@ + flatten_opts(statments@));
        }
        while statments.len() > 0
            invariant
                flatten_opts(orig) == tmp@ + flatten_opts(statments@),
            decreases statments.len(),
        {
            let ghost s = statments@;
            let o = statments.remove(0);
            proof {
                assert(statments@ =~= s.drop_first());
            }
            match o {
                Some(v) => {
                    proof {
                        assert((tmp@ + seq![v]) + flatten_opts(s.drop_first()) =~= tmp@ + (seq![v]
                            + flatten_opts(s.drop_first())));
                    }
                    tmp.push(v);
                },
                None => {},
            }
        }
        proof {
            assert(flatten_opts(orig) =~= tmp@);
        }
        Prog {
            statments: tmp,
            labels: Vec::new(),
            program: Vec::new(),
            back_rev: Vec::new(),
            is_second_pass: false,
        }
    }

    /// Parses a textual numeral: hexadecimal after a leading `0x`, decimal
    /// otherwise. Malformed digits or overflow past 64 bits are a fatal
    /// `MalformedNumber` error, never silently truncated.
    pub fn parse_number(str_number: &str) -> (r: Result<u64, AsmError>)
        ensures
            match spec_parse_number(str_number@) {
                Some(v) => r == Ok::<u64, AsmError>(v),
                None => r == Err::<u64, AsmError>(AsmError::MalformedNumber),
            },
    {
        let n = str_number.unicode_len();
        if n >= 2 {
            let c0 = str_number.get_char(0);
            let c1 = str_number.get_char(1);
            if c0 as u32 == 48 && c1 as u32 == 120 {
                return match parse_hex_from(str_number, 2) {
                    Some(v) => Ok(v),
                    None => Err(AsmError::MalformedNumber),
                };
            }
        }
        proof {
            assert(str_number@.subrange(0, str_number@.len() as int) =~= str_number@);
        }
        match parse_dec_from(str_number, 0) {
            Some(v) => Ok(v),
            None => Err(AsmError::MalformedNumber),
        }
    }

    /// Writes one byte at `target_address`, first zero-extending the image
    /// to length `target_address + 1` if it is shorter.
    fn push_value8(&mut self, value: u8, target_address: usize)
        ensures
            final(self).statements() == old(self).statements(),
            final(self)@ == (AsmState {
                image: spec_write8(old(self)@.image, target_address as int, value),
                ..old(self)@
            }),
    {
        let ghost old_image = self.program@;
        while self.program.len() <= target_address
            invariant
                self.statements() == old(self).statements(),
                old_image.len() <= self.program@.len(),
                self.program@.len() == old_image.len() || self.program@.len() <= target_address
                    + 1,
                forall|i: int| 0 <= i < old_image.len() ==> self.program@[i] == old_image[i],
                forall|i: int|
                    old_image.len() <= i < self.program@.len() ==> self.program@[i] == 0u8,
                self@ == (AsmState { image: self.program@, ..old(self)@ }),
            decreases target_address + 1 - self.program.len(),
        {
            self.program.push(0);
        }
        let ghost ext = self.program@;
        self.program[target_address] = value;
        proof {
            let w = spec_write8(old_image, target_address as int, value);
            assert(ext.update(target_address as int, value).len() == w.len());
            assert forall|i: int| 0 <= i < w.len() implies ext.update(
                target_address as int,
                value,
            )[i] == w[i] by {}
            assert(self@.image =~= w);
        }
    }

    /// Writes a 16-bit value big-endian at `offset`.
    fn push_value16(&mut self, value: u16, offset: usize)
        requires
            offset + 1 <= usize::MAX,
        ensures
            final(self).statements() == old(self).statements(),
            final(self)@ == (AsmState {
                image: spec_write16(old(self)@.image, offset as int, value),
                ..old(self)@
            }),
    {
        self.push_value8((value >> 8) as u8, offset);
        self.push_value8(value as u8, offset + 1);
    }

    /// Writes a 32-bit value big-endian at `offset`.
    fn push_value32(&mut self, value: u32, offset: usize)
        requires
            offset + 3 <= usize::MAX,
        ensures
            final(self).statements() == old(self).statements(),
            final(self)@ == (AsmState {
                image: spec_write32(old(self)@.image, offset as int, value),
                ..old(self)@
            }),
    {
        self.push_value16((value >> 16) as u16, offset);
        self.push_value16(value as u16, offset + 2);
    }

    /// Whether encoding this address operand can fail: a numeric operand
    /// must parse, and an identifier must be a bound label once the second
    /// pass has begun.
    fn check_address_arg(&self, arg: &Argument) -> (r: Result<(), AsmError>)
        ensures
            match *arg {
                Argument::Ident(x) => r == (if self@.second && spec_lookup(self@.labels, x@)
                    is None {
                    Err::<(), AsmError>(AsmError::UndefinedLabel(x))
                } else {
                    Ok::<(), AsmError>(())
                }),
                Argument::Number(x) => r == (match spec_parse_number(x@) {
                    Some(_) => Ok::<(), AsmError>(()),
                    None => Err::<(), AsmError>(AsmError::MalformedNumber),
                }),
            },
    {
        match arg {
            Argument::Ident(x) => {
                if self.is_second_pass {
                    if self.label_offset(x).is_none() {
                        return Err(AsmError::UndefinedLabel(x.clone()));
                    }
                }
                Ok(())
            },
            Argument::Number(x) => match Prog::parse_number(x.as_str()) {
                Ok(_) => Ok(()),
                Err(e) => Err(e),
            },
        }
    }

    /// Encodes an address operand at `target_address` as
    /// `spec_push_address` states, queuing a relocation record for a label
    /// not yet bound during the first pass.
    fn push_address(&mut self, arg: &Argument, target_address: usize) -> (r: Result<(), AsmError>)
        requires
            target_address + 3 <= usize::MAX,
        ensures
            final(self).statements() == old(self).statements(),
            match spec_push_address(old(self)@, *arg, target_address) {
                Ok(st) => r is Ok && final(self)@ == st,
                Err(e) => r == Err::<(), AsmError>(e) && final(self)@ == old(self)@,
            },
    {
        match arg {
            Argument::Ident(x) => match self.label_offset(x) {
                Some(address) => {
                    self.push_value32(#[verifier::truncate] (address as u32), target_address);
                    Ok(())
                },
                None => {
                    if !self.is_second_pass {
                        let pos = self.program.len();
                        self.push_value32(0, target_address);
                        self.back_rev.push(BackRev::Absolute(x.clone(), pos));
                        proof {
                            let st = spec_push_address(old(self)@, *arg, target_address)->Ok_0;
                            assert(self@ =~= st);
                        }
                        Ok(())
                    } else {
                        Err(AsmError::UndefinedLabel(x.clone()))
                    }
                },
            },
            Argument::Number(x) => {
                let v = match Prog::parse_number(x.as_str()) {
                    Ok(v) => v,
                    Err(e) => {
                        return Err(e);
                    },
                };
                self.push_value32(#[verifier::truncate] (v as u32), target_address);
                Ok(())
            },
        }
    }

    /// The first pass over the statement stream: binds every label to its
    /// image offset, appends data bytes, encodes every instruction, and
    /// queues a relocation record for every forward label reference. On an
    /// error, the statements before the failing one remain applied; the
    /// failing one changes nothing.
    #[verifier::rlimit(60)]
    pub fn first_pass(&mut self) -> (r: Result<(), AsmError>)
        requires
            old(self)@.image.len() + 10 * old(self).statements().len() + 10 <= usize::MAX,
        ensures
            final(self).statements() == old(self).statements(),
            match spec_pass1_from(old(self)@, old(self).statements(), 0) {
                Ok(st) => r is Ok && final(self)@ == st,
                Err(e) => r == Err::<(), AsmError>(e) && final(self)@ == spec_pass1_partial_from(
                    old(self)@,
                    old(self).statements(),
                    0,
                ),
            },
    {
        let ghost st0 = self@;
        let ghost stmts_g = self.statements();
        let mut stmts: Vec<Statement> = Vec::new();
        core::mem::swap(&mut stmts, &mut self.statments);
        let mut i: usize = 0;
        while i < stmts.len()
            invariant
                st0 == old(self)@,
                stmts_g == old(self).statements(),
                0 <= i <= stmts@.len(),
                stmts@ == stmts_g,
                self.statments@ == Seq::<Statement>::empty(),
                self@.image.len() <= st0.image.len() + 10 * i,
                st0.image.len() + 10 * stmts_g.len() + 10 <= usize::MAX,
                spec_pass1_from(st0, stmts_g, 0) == spec_pass1_from(self@, stmts_g, i as int),
                spec_pass1_partial_from(st0, stmts_g, 0) == spec_pass1_partial_from(
                    self@,
                    stmts_g,
                    i as int,
                ),
            decreases stmts@.len() - i,
        {
            let ghost cur = self@;
            proof {
                lemma_stmt_growth(cur, stmts_g[i as int]);
                lemma_pass1_step(cur, stmts_g, i as int);
            }
            match &stmts[i] {
                Statement::Label(l) => {
                    if self.label_offset(l).is_some() {
                        let e = AsmError::DuplicateLabel(l.clone());
                        proof {
                            assert(spec_stmt(cur, stmts_g[i as int]) == Err::<
                                AsmState,
                                AsmError,
                            >(e));
                        }
                        core::mem::swap(&mut stmts, &mut self.statments);
                        return Err(e);
                    }
                    let pos = self.program.len();
                    self.labels.push((l.clone(), pos));
                    proof {
                        assert(self@ =~= spec_stmt(cur, stmts_g[i as int])->Ok_0);
                    }
                },
                Statement::Data(d) => {
                    let value = match Prog::parse_number(d.as_str()) {
                        Ok(v) => v,
                        Err(e) => {
                            proof {
                                assert(spec_stmt(cur, stmts_g[i as int]) == Err::<
                                    AsmState,
                                    AsmError,
                                >(e));
                            }
                            core::mem::swap(&mut stmts, &mut self.statments);
                            return Err(e);
                        },
                    };
                    let target = self.program.len();
                    self.push_value8(#[verifier::truncate] (value as u8), target);
                    proof {
                        assert(self@ =~= spec_stmt(cur, stmts_g[i as int])->Ok_0);
                    }
                },
                Statement::Instruction(ins, args) => {
                    match self.push_instruction(ins, args) {
                        Ok(()) => {
                            proof {
                                assert(self@ == spec_stmt(cur, stmts_g[i as int])->Ok_0);
                            }
                        },
                        Err(e) => {
                            proof {
                                assert(spec_stmt(cur, stmts_g[i as int]) == Err::<
                                    AsmState,
                                    AsmError,
                                >(e));
                            }
                            core::mem::swap(&mut stmts, &mut self.statments);
                            return Err(e);
                        },
                    }
                },
            }
            i += 1;
        }
        core::mem::swap(&mut stmts, &mut self.statments);
        Ok(())
    }

    /// The second pass: resolves every queued forward reference, in the
    /// order recorded, against the now-complete symbol table, overwriting
    /// each record's 4-byte slot. On success the queue is consumed and
    /// cleared; the image never grows here. A record whose label is still
    /// unbound, or whose kind has no implemented resolution, is a fatal
    /// error that leaves the queue as it was, with the records before it
    /// already applied to the image.
    #[verifier::rlimit(30)]
    pub fn second_pass(&mut self) -> (r: Result<(), AsmError>)
        requires
            forall|k: int|
                0 <= k < old(self)@.relocs.len() ==> (match #[trigger] old(self)@.relocs[k] {
                    BackRev::Absolute(_, target) => target + 3 <= usize::MAX,
                    _ => true,
                }),
        ensures
            final(self).statements() == old(self).statements(),
            final(self)@.second == true,
            final(self)@.labels == old(self)@.labels,
            ({
                let st0 = AsmState { second: true, ..old(self)@ };
                match spec_pass2_from(st0, st0.relocs, 0) {
                    Ok(st2) => r is Ok && final(self)@ == (AsmState {
                        relocs: Seq::<BackRev>::empty(),
                        ..st2
                    }),
                    Err(e) => r == Err::<(), AsmError>(e) && final(self)@ == spec_pass2_partial_from(
                        st0,
                        st0.relocs,
                        0,
                    ),
                }
            }),
    {
        self.is_second_pass = true;
        let ghost st0 = self@;
        let ghost relocs_g = self@.relocs;
        let mut revs: Vec<BackRev> = Vec::new();
        core::mem::swap(&mut revs, &mut self.back_rev);
        let mut k: usize = 0;
        while k < revs.len()
            invariant
                st0 == (AsmState { second: true, ..old(self)@ }),
                relocs_g == st0.relocs,
                forall|j: int|
                    0 <= j < relocs_g.len() ==> (match #[trigger] relocs_g[j] {
                        BackRev::Absolute(_, target) => target + 3 <= usize::MAX,
                        _ => true,
                    }),
                0 <= k <= revs@.len(),
                revs@ == relocs_g,
                self.statements() == old(self).statements(),
                self.back_rev@ == Seq::<BackRev>::empty(),
                self@.second == true,
                self@.labels == st0.labels,
                spec_pass2_from(st0, relocs_g, 0) == spec_pass2_from(
                    AsmState { relocs: relocs_g, ..self@ },
                    relocs_g,
                    k as int,
                ),
                spec_pass2_partial_from(st0, relocs_g, 0) == spec_pass2_partial_from(
                    AsmState { relocs: relocs_g, ..self@ },
                    relocs_g,
                    k as int,
                ),
            decreases revs@.len() - k,
        {
            let ghost cur = AsmState { relocs: relocs_g, ..self@ };
            match &revs[k] {
                BackRev::Absolute(label, target) => {
                    match self.label_offset(label) {
                        Some(address) => {
                            self.push_value32(#[verifier::truncate] (address as u32), *target);
                            proof {
                                assert(AsmState { relocs: relocs_g, ..self@ } =~= (AsmState {
                                    image: spec_write32(
                                        cur.image,
                                        *target as int,
                                        address as u32,
                                    ),
                                    ..cur
                                }));
                            }
                        },
                        None => {
                            let e = AsmError::UndefinedLabel(label.clone());
                            proof {
                                assert(spec_pass2_from(cur, relocs_g, k as int) == Err::<
                                    AsmState,
                                    AsmError,
                                >(e));
                                assert(spec_pass2_partial_from(cur, relocs_g, k as int) == cur);
                            }
                            core::mem::swap(&mut revs, &mut self.back_rev);
                            proof {
                                assert(self@ =~= cur);
                            }
                            return Err(e);
                        },
                    }
                },
                BackRev::Relative(_, _) => {
                    core::mem::swap(&mut revs, &mut self.back_rev);
                    proof {
                        assert(self@ =~= cur);
                    }
                    return Err(AsmError::UnsupportedRelocationKind);
                },
                BackRev::Relative16(_, _) => {
                    core::mem::swap(&mut revs, &mut self.back_rev);
                    proof {
                        assert(self@ =~= cur);
                    }
                    return Err(AsmError::UnsupportedRelocationKind);
                },
            }
            k += 1;
        }
        proof {
            assert(spec_pass2_from(
                AsmState { relocs: relocs_g, ..self@ },
                relocs_g,
                k as int,
            ) == Ok::<AsmState, AsmError>(AsmState { relocs: relocs_g, ..self@ }));
        }
        Ok(())
    }

    /// Encodes one instruction at the end of the image, as
    /// `spec_push_instruction` states. On an error nothing is changed.
    fn push_instruction(&mut self, ins: &String, args: &Vec<Argument>) -> (r: Result<
        (),
        AsmError,
    >)
        requires
            old(self)@.image.len() + 10 <= usize::MAX,
        ensures
            final(self).statements() == old(self).statements(),
            match spec_push_instruction(old(self)@, *ins, args@) {
                Ok(st) => r is Ok && final(self)@ == st,
                Err(e) => r == Err::<(), AsmError>(e) && final(self)@ == old(self)@,
            },
    {
        proof {
            reveal(spec_push_instruction);
        }
        let is_nop = string_eq_lit(ins, "nop");
        if is_nop {
            if args.len() != 0 {
                return Err(AsmError::ArityError(0, 0));
            }
            self.program.push(OP_NOP);
            return Ok(());
        }
        let is_jmp = string_eq_lit(ins, "jmp");
        if is_jmp {
            if args.len() != 1 {
                return Err(AsmError::ArityError(1, 1));
            }
            if let Err(e) = self.check_address_arg(&args[0]) {
                return Err(e);
            }
            self.program.push(OP_LONG_JUMP);
            let target = self.program.len();
            return match self.push_address(&args[0], target) {
                Ok(()) => Ok(()),
                Err(e) => Err(e),
            };
        }
        let is_store = string_eq_lit(ins, "store");
        let is_load = string_eq_lit(ins, "load");
        if is_store || is_load {
            if args.len() < 2 || args.len() > 3 {
                return Err(AsmError::ArityError(2, 3));
            }
            let word_size: u64 = if args.len() == 2 {
                4
            } else {
                match &args[0] {
                    Argument::Ident(_) => {
                        return Err(AsmError::InvalidOperand);
                    },
                    Argument::Number(num) => match Prog::parse_number(num.as_str()) {
                        Ok(v) => v,
                        Err(e) => {
                            return Err(e);
                        },
                    },
                }
            };
            let reg = match Self::get_register_code(&args[args.len() - 2], true) {
                Ok(c) => c,
                Err(e) => {
                    return Err(e);
                },
            };
            let bits: u8 = if word_size == 1 {
                0
            } else if word_size == 2 {
                0x40
            } else if word_size == 4 {
                0x80
            } else {
                return Err(AsmError::InvalidOperand);
            };
            if let Err(e) = self.check_address_arg(&args[args.len() - 1]) {
                return Err(e);
            }
            self.program.push(if is_store {
                OP_STORE
            } else {
                OP_LOAD
            });
            self.program.push(bits | reg);
            let target = self.program.len();
            return match self.push_address(&args[args.len() - 1], target) {
                Ok(()) => Ok(()),
                Err(e) => Err(e),
            };
        }
        let is_mv = string_eq_lit(ins, "mv");
        if is_mv {
            if args.len() != 3 {
                return Err(AsmError::ArityError(3, 3));
            }
            let size: u64 = match &args[0] {
                Argument::Ident(_) => {
                    return Err(AsmError::InvalidOperand);
                },
                Argument::Number(num) => match Prog::parse_number(num.as_str()) {
                    Ok(v) => v,
                    Err(e) => {
                        return Err(e);
                    },
                },
            };
            if let Err(e) = self.check_address_arg(&args[1]) {
                return Err(e);
            }
            if let Err(e) = self.check_address_arg(&args[2]) {
                return Err(e);
            }
            self.program.push(OP_MOVE);
            self.program.push(#[verifier::truncate] (size as u8));
            let target = self.program.len();
            match self.push_address(&args[1], target) {
                Err(e) => {
                    return Err(e);
                },
                Ok(()) => {},
            }
            let target2 = self.program.len();
            return match self.push_address(&args[2], target2) {
                Ok(()) => Ok(()),
                Err(e) => Err(e),
            };
        }
        Err(AsmError::UnknownInstruction(ins.clone()))
    }

    /// The output image assembled so far.
    pub fn program(&self) -> (r: &Vec<u8>)
        ensures
            r@ == self@.image,
    {
        &self.program
    }

    /// How many relocation records are still queued.
    pub fn reloc_count(&self) -> (r: usize)
        ensures
            r == self@.relocs.len(),
    {
        self.back_rev.len()
    }

    /// Offset bound to `name` in the symbol table, if any.
    pub fn label_offset(&self, name: &String) -> (r: Option<usize>)
        ensures
            r == spec_lookup(self@.labels, name@),
    {
        let mut i: usize = 0;
        proof {
            assert(self@.labels.skip(0) =~= self@.labels);
        }
        while i < self.labels.len()
            invariant
                0 <= i <= self.labels.len(),
                spec_lookup(self@.labels, name@) == spec_lookup(
                    self@.labels.skip(i as int),
                    name@,
                ),
            decreases self.labels.len() - i,
        {
            proof {
                assert(self@.labels.skip(i as int).drop_first() =~= self@.labels.skip(i + 1));
                assert(self@.labels.skip(i as int)[0] == self@.labels[i as int]);
            }
            if self.labels[i].0 == *name {
                return Some(self.labels[i].1);
            }
            i += 1;
        }
        None
    }

    /// Parses a register operand: `r<digits>` names the general-purpose
    /// register with that number, and `pc` names the program counter where
    /// `allow_special` holds.
    fn get_register_code(reg: &Argument, allow_special: bool) -> (r: Result<u8, AsmError>)
        ensures
            r == spec_register_code(*reg, allow_special),
    {
        let str_reg = match reg {
            Argument::Ident(x) => x,
            Argument::Number(_) => {
                return Err(AsmError::InvalidOperand);
            },
        };
        proof {
            lemma_first_match_valid(str_reg@, 0);
        }
        match capture_register_digits(str_reg) {
            Some(digits) => {
                proof {
                    lemma_digit_run_digits(str_reg@, first_match_from(str_reg@, 0) + 1);
                    assert(digits@.subrange(0, digits@.len() as int) =~= digits@);
                }
                match parse_dec_from(digits.as_str(), 0) {
                    Some(v) => if v <= 31 {
                        Ok(v as u8)
                    } else {
                        Err(AsmError::InvalidOperand)
                    },
                    None => Err(AsmError::MalformedNumber),
                }
            },
            None => {
                if allow_special {
                    let sl = str_reg.as_str();
                    if sl.unicode_len() == 2 {
                        let c0 = sl.get_char(0);
                        let c1 = sl.get_char(1);
                        if c0 as u32 == 112 && c1 as u32 == 99 {
                            return Ok(REG_PC_CODE);
                        }
                    }
                    Err(AsmError::InvalidOperand)
                } else {
                    Err(AsmError::InvalidOperand)
                }
            },
        }
    }
}

} // verus!
