//! Instructions, their byte layout, and the encoding of an instruction stream.
//!
//! A branch names its target by the `offset` that the target instruction carries. The
//! decoder sets every `offset` to the instruction's position in the stream; after an
//! edit the offsets are only labels, and the encoder recomputes the positions.

use vstd::prelude::*;
use crate::bytes::{le16, le32, le64, push_u16, push_u32, push_u64};
use crate::error::EncodeError;
use crate::opcodes::{one_byte_shape, two_byte_shape, OperandShape, PREFIX_BYTE};

verus! {

/// An opcode: one byte, or `PREFIX_BYTE` followed by `code`.
#[derive(Clone, Copy, PartialEq, Eq, Debug, Structural)]
pub struct Opcode {
    pub prefixed: bool,
    pub code: u8,
}

/// The operand of an instruction. Branch operands hold the label of their target.
#[derive(Clone, Debug)]
pub enum Operand {
    NoOperand,
    Int8(u8),
    Int16(u16),
    Int32(u32),
    Int64(u64),
    Token(u32),
    Branch8(u32),
    Branch32(u32),
    Switch(Vec<u32>),
}

#[derive(Clone, Debug)]
pub struct Instruction {
    /// Position of the instruction in the stream it was decoded from; the label that
    /// branches use to name it.
    pub offset: u32,
    pub opcode: Opcode,
    pub operand: Operand,
}

pub open spec fn opcode_bytes(o: Opcode) -> Seq<u8> {
    if o.prefixed {
        seq![PREFIX_BYTE, o.code]
    } else {
        seq![o.code]
    }
}

pub open spec fn operand_len(op: Operand) -> nat {
    match op {
        Operand::NoOperand => 0,
        Operand::Int8(_) => 1,
        Operand::Branch8(_) => 1,
        Operand::Int16(_) => 2,
        Operand::Int32(_) => 4,
        Operand::Token(_) => 4,
        Operand::Branch32(_) => 4,
        Operand::Int64(_) => 8,
        Operand::Switch(ls) => 4 + 4 * ls@.len(),
    }
}

/// Number of bytes the instruction occupies.
pub open spec fn instr_len(i: Instruction) -> nat {
    opcode_bytes(i.opcode).len() + operand_len(i.operand)
}

/// Sum of the lengths of the instructions.
pub open spec fn code_len(s: Seq<Instruction>) -> nat
    decreases s.len(),
{
    if s.len() == 0 {
        0
    } else {
        code_len(s.drop_last()) + instr_len(s.last())
    }
}

/// Position of instruction `k` when the sequence is laid out from position 0.
pub open spec fn offset_of(s: Seq<Instruction>, k: int) -> nat {
    code_len(s.subrange(0, k))
}

/// Index of the first instruction at or after `from` that carries label `l`.
pub open spec fn label_index(s: Seq<Instruction>, l: u32, from: int) -> Option<int>
    decreases s.len() - from,
{
    if from < 0 || from >= s.len() {
        None
    } else if s[from].offset == l {
        Some(from)
    } else {
        label_index(s, l, from + 1)
    }
}

/// Position, in the laid-out sequence, of the instruction that label `l` names.
pub open spec fn label_pos(s: Seq<Instruction>, l: u32) -> int {
    match label_index(s, l, 0) {
        Some(t) => offset_of(s, t) as int,
        None => -1,
    }
}

pub open spec fn resolver(s: Seq<Instruction>) -> spec_fn(u32) -> int {
    |l: u32| label_pos(s, l)
}

/// The resolver of a freshly decoded stream, where every label is a position.
pub open spec fn identity_resolver() -> spec_fn(u32) -> int {
    |l: u32| l as int
}

pub open spec fn fits_i8(rel: int) -> bool {
    -128 <= rel <= 127
}

pub open spec fn fits_i32(rel: int) -> bool {
    -0x8000_0000 <= rel <= 0x7fff_ffff
}

/// Two's-complement byte of a displacement.
pub open spec fn byte_of_rel(rel: int) -> u8 {
    if rel < 0 {
        (rel + 0x100) as u8
    } else {
        rel as u8
    }
}

/// Two's-complement word of a displacement.
pub open spec fn word_of_rel(rel: int) -> u32 {
    if rel < 0 {
        (rel + 0x1_0000_0000) as u32
    } else {
        rel as u32
    }
}

/// Displacements of a switch table, each relative to `next`.
pub open spec fn switch_layout(ls: Seq<u32>, next: int, pos: spec_fn(u32) -> int) -> Seq<u8>
    decreases ls.len(),
{
    if ls.len() == 0 {
        seq![]
    } else {
        switch_layout(ls.drop_last(), next, pos) + le32(word_of_rel(pos(ls.last()) - next))
    }
}

/// Bytes of an operand whose instruction ends at `next`, labels placed by `pos`.
pub open spec fn operand_layout(op: Operand, next: int, pos: spec_fn(u32) -> int) -> Seq<u8> {
    match op {
        Operand::NoOperand => seq![],
        Operand::Int8(v) => seq![v],
        Operand::Int16(v) => le16(v),
        Operand::Int32(v) => le32(v),
        Operand::Token(v) => le32(v),
        Operand::Int64(v) => le64(v),
        Operand::Branch8(l) => seq![byte_of_rel(pos(l) - next)],
        Operand::Branch32(l) => le32(word_of_rel(pos(l) - next)),
        Operand::Switch(ls) => le32(ls@.len() as u32) + switch_layout(ls@, next, pos),
    }
}

/// Why a branch to label `l` from an instruction ending at `next` cannot be written.
pub open spec fn target_error(s: Seq<Instruction>, l: u32, next: int, wide: bool) -> Option<
    EncodeError,
> {
    if label_index(s, l, 0) is None {
        Some(EncodeError::DanglingBranchTarget)
    } else if (wide && fits_i32(label_pos(s, l) - next)) || (!wide && fits_i8(
        label_pos(s, l) - next,
    )) {
        None
    } else {
        Some(EncodeError::BranchOutOfRange)
    }
}

/// The first target of a switch table that cannot be written.
pub open spec fn switch_error(s: Seq<Instruction>, ls: Seq<u32>, next: int) -> Option<
    EncodeError,
>
    decreases ls.len(),
{
    if ls.len() == 0 {
        None
    } else {
        match switch_error(s, ls.drop_last(), next) {
            Some(e) => Some(e),
            None => target_error(s, ls.last(), next, true),
        }
    }
}

pub open spec fn operand_error(s: Seq<Instruction>, op: Operand, next: int) -> Option<
    EncodeError,
> {
    match op {
        Operand::Branch8(l) => target_error(s, l, next, false),
        Operand::Branch32(l) => target_error(s, l, next, true),
        Operand::Switch(ls) => switch_error(s, ls@, next),
        _ => None,
    }
}

/// Position just past instruction `k` of `s`.
pub open spec fn next_of(s: Seq<Instruction>, k: int) -> int {
    (offset_of(s, k) + instr_len(s[k])) as int
}

/// The bytes of instruction `k` of `s`, its branches resolved within `s`.
pub open spec fn instr_encoding(s: Seq<Instruction>, k: int) -> Result<Seq<u8>, EncodeError> {
    let next = next_of(s, k);
    match operand_error(s, s[k].operand, next) {
        Some(e) => Err(e),
        None => Ok(opcode_bytes(s[k].opcode) + operand_layout(s[k].operand, next, resolver(s))),
    }
}

/// The bytes of the first `n` instructions of `s`, or the first failure among them.
pub open spec fn stream_prefix(s: Seq<Instruction>, n: int) -> Result<Seq<u8>, EncodeError>
    decreases n,
{
    if n <= 0 {
        Ok(seq![])
    } else {
        match stream_prefix(s, n - 1) {
            Err(e) => Err(e),
            Ok(b) => match instr_encoding(s, n - 1) {
                Err(e) => Err(e),
                Ok(x) => Ok(b + x),
            },
        }
    }
}

/// The byte encoding of an instruction stream.
pub open spec fn stream_encoding(s: Seq<Instruction>) -> Result<Seq<u8>, EncodeError> {
    if code_len(s) > u32::MAX {
        Err(EncodeError::UnsupportedHeaderVariant)
    } else {
        stream_prefix(s, s.len() as int)
    }
}

pub proof fn lemma_offset_step(s: Seq<Instruction>, k: int)
    requires
        0 <= k < s.len(),
    ensures
        offset_of(s, k + 1) == offset_of(s, k) + instr_len(s[k]),
{
    assert(s.subrange(0, k + 1).drop_last() =~= s.subrange(0, k));
}

pub proof fn lemma_offset_mono(s: Seq<Instruction>, a: int, b: int)
    requires
        0 <= a <= b <= s.len(),
    ensures
        offset_of(s, a) <= offset_of(s, b),
    decreases b - a,
{
    if a < b {
        lemma_offset_mono(s, a, b - 1);
        lemma_offset_step(s, b - 1);
    }
}

pub proof fn lemma_code_len_is_end(s: Seq<Instruction>)
    ensures
        code_len(s) == offset_of(s, s.len() as int),
{
    assert(s.subrange(0, s.len() as int) =~= s);
}

pub proof fn lemma_label_index_found(s: Seq<Instruction>, l: u32, from: int)
    ensures
        label_index(s, l, from) matches Some(t) ==> from <= t < s.len() && s[t].offset == l
            && forall|j: int| from <= j < t ==> s[j].offset != l,
        label_index(s, l, from) is None ==> forall|j: int|
            from <= j < s.len() && 0 <= from ==> s[j].offset != l,
    decreases s.len() - from,
{
    if 0 <= from < s.len() && s[from].offset != l {
        lemma_label_index_found(s, l, from + 1);
    }
}

pub proof fn lemma_prefix_err_persists(s: Seq<Instruction>, a: int, b: int, e: EncodeError)
    requires
        0 <= a <= b,
        stream_prefix(s, a) == Err::<Seq<u8>, EncodeError>(e),
    ensures
        stream_prefix(s, b) == Err::<Seq<u8>, EncodeError>(e),
    decreases b - a,
{
    if a < b {
        lemma_prefix_err_persists(s, a, b - 1, e);
    }
}

pub proof fn lemma_switch_err_persists(
    s: Seq<Instruction>,
    ls: Seq<u32>,
    next: int,
    a: int,
    b: int,
    e: EncodeError,
)
    requires
        0 <= a <= b <= ls.len(),
        switch_error(s, ls.subrange(0, a), next) == Some(e),
    ensures
        switch_error(s, ls.subrange(0, b), next) == Some(e),
    decreases b - a,
{
    if a < b {
        lemma_switch_err_persists(s, ls, next, a, b - 1, e);
        assert(ls.subrange(0, b).drop_last() =~= ls.subrange(0, b - 1));
    }
}

/// Length of an instruction, or `None` where it exceeds the largest code size.
pub fn instruction_length(i: &Instruction) -> (r: Option<u32>)
    ensures
        r matches Some(n) ==> n == instr_len(*i),
        r is None ==> instr_len(*i) > u32::MAX,
{
    let op: u32 = if i.opcode.prefixed {
        2
    } else {
        1
    };
    match &i.operand {
        Operand::NoOperand => Some(op),
        Operand::Int8(_) => Some(op + 1),
        Operand::Branch8(_) => Some(op + 1),
        Operand::Int16(_) => Some(op + 2),
        Operand::Int32(_) => Some(op + 4),
        Operand::Token(_) => Some(op + 4),
        Operand::Branch32(_) => Some(op + 4),
        Operand::Int64(_) => Some(op + 8),
        Operand::Switch(ls) => {
            let n = ls.len();
            if n > 0x3FFF_FFFE {
                None
            } else {
                Some(op + 4 + 4 * (n as u32))
            }
        },
    }
}

/// Index of the first instruction that carries label `l`.
pub fn locate_label(s: &Vec<Instruction>, l: u32) -> (r: Option<usize>)
    ensures
        r matches Some(t) ==> label_index(s@, l, 0) == Some(t as int),
        r is None ==> label_index(s@, l, 0) is None,
{
    let mut i: usize = 0;
    while i < s.len()
        invariant
            i <= s@.len(),
            label_index(s@, l, 0) == label_index(s@, l, i as int),
        decreases s@.len() - i,
    {
        if s[i].offset == l {
            return Some(i);
        }
        i = i + 1;
    }
    None
}

/// `offs` holds the position of every instruction of `s`, and the end of the stream.
pub open spec fn positions_of(s: Seq<Instruction>, offs: Seq<u32>) -> bool {
    &&& offs.len() == s.len() + 1
    &&& forall|j: int| 0 <= j <= s.len() ==> offs[j] == offset_of(s, j)
}

/// Displacement from `next` to the instruction that label `l` names.
fn branch_disp(s: &Vec<Instruction>, offs: &Vec<u32>, l: u32, next: u32, wide: bool) -> (r: Result<
    i64,
    EncodeError,
>)
    requires
        positions_of(s@, offs@),
    ensures
        match r {
            Ok(rel) => target_error(s@, l, next as int, wide) is None && rel == label_pos(s@, l)
                - next,
            Err(e) => target_error(s@, l, next as int, wide) == Some(e),
        },
{
    match locate_label(s, l) {
        None => Err(EncodeError::DanglingBranchTarget),
        Some(t) => {
            proof {
                lemma_label_index_found(s@, l, 0);
            }
            let rel: i64 = offs[t] as i64 - next as i64;
            if (wide && -0x8000_0000 <= rel && rel <= 0x7fff_ffff) || (!wide && -128 <= rel && rel
                <= 127) {
                Ok(rel)
            } else {
                Err(EncodeError::BranchOutOfRange)
            }
        },
    }
}

/// Appends the bytes of instruction `k` of `s`.
fn encode_one(s: &Vec<Instruction>, offs: &Vec<u32>, k: usize, out: &mut Vec<u8>) -> (r: Result<
    (),
    EncodeError,
>)
    requires
        positions_of(s@, offs@),
        offs.len() == s.len() + 1,
        k < s@.len(),
        code_len(s@) <= u32::MAX,
    ensures
        match r {
            Ok(_) => instr_encoding(s@, k as int) is Ok && final(out)@ == old(out)@ + instr_encoding(
                s@,
                k as int,
            )->Ok_0,
            Err(e) => instr_encoding(s@, k as int) == Err::<Seq<u8>, EncodeError>(e),
        },
{
    let ghost start = out@;
    let ins = &s[k];
    proof {
        lemma_offset_step(s@, k as int);
        lemma_offset_mono(s@, k as int + 1, s@.len() as int);
        lemma_code_len_is_end(s@);
    }
    let next: u32 = offs[k + 1];
    if ins.opcode.prefixed {
        out.push(PREFIX_BYTE);
    }
    out.push(ins.opcode.code);
    let ghost mid = out@;
    assert(mid =~= start + opcode_bytes(ins.opcode));
    let ghost pos = resolver(s@);
    match &ins.operand {
        Operand::NoOperand => {},
        Operand::Int8(v) => {
            out.push(*v);
        },
        Operand::Int16(v) => {
            push_u16(out, *v);
        },
        Operand::Int32(v) => {
            push_u32(out, *v);
        },
        Operand::Token(v) => {
            push_u32(out, *v);
        },
        Operand::Int64(v) => {
            push_u64(out, *v);
        },
        Operand::Branch8(l) => {
            match branch_disp(s, offs, *l, next, false) {
                Err(e) => {
                    return Err(e);
                },
                Ok(rel) => {
                    let b: u8 = if rel < 0 {
                        (rel + 0x100) as u8
                    } else {
                        rel as u8
                    };
                    out.push(b);
                },
            }
        },
        Operand::Branch32(l) => {
            match branch_disp(s, offs, *l, next, true) {
                Err(e) => {
                    return Err(e);
                },
                Ok(rel) => {
                    let w: u32 = if rel < 0 {
                        (rel + 0x1_0000_0000) as u32
                    } else {
                        rel as u32
                    };
                    push_u32(out, w);
                },
            }
        },
        Operand::Switch(ls) => {
            assert(ls@.len() <= u32::MAX);
            push_u32(out, ls.len() as u32);
            let mut j: usize = 0;
            while j < ls.len()
                invariant
                    positions_of(s@, offs@),
                    j <= ls@.len(),
                    out@ == mid + le32(ls@.len() as u32) + switch_layout(
                        ls@.subrange(0, j as int),
                        next as int,
                        pos,
                    ),
                    switch_error(s@, ls@.subrange(0, j as int), next as int) is None,
                    pos == resolver(s@),
                    ls@.len() <= u32::MAX,
                    k < s@.len(),
                    s@[k as int].operand == Operand::Switch(*ls),
                    next as int == next_of(s@, k as int),
                decreases ls@.len() - j,
            {
                let ghost before = out@;
                proof {
                    assert(ls@.subrange(0, j + 1).drop_last() =~= ls@.subrange(0, j as int));
                }
                match branch_disp(s, offs, ls[j], next, true) {
                    Err(e) => {
                        proof {
                            assert(switch_error(s@, ls@.subrange(0, j + 1), next as int) == Some(e));
                            lemma_switch_err_persists(
                                s@,
                                ls@,
                                next as int,
                                j + 1,
                                ls@.len() as int,
                                e,
                            );
                            assert(ls@.subrange(0, ls@.len() as int) =~= ls@);
                        }
                        return Err(e);
                    },
                    Ok(rel) => {
                        let w: u32 = if rel < 0 {
                            (rel + 0x1_0000_0000) as u32
                        } else {
                            rel as u32
                        };
                        push_u32(out, w);
                        assert(out@ =~= mid + le32(ls@.len() as u32) + switch_layout(
                            ls@.subrange(0, j + 1),
                            next as int,
                            pos,
                        ));
                    },
                }
                j = j + 1;
            }
            assert(ls@.subrange(0, ls@.len() as int) =~= ls@);
        },
    }
    assert(out@ =~= start + (opcode_bytes(ins.opcode) + operand_layout(ins.operand, next as int, pos)));
    Ok(())
}

/// Lays the instructions out from position 0, resolving every branch within `s`.
pub fn encode_instructions(s: &Vec<Instruction>) -> (r: Result<Vec<u8>, EncodeError>)
    ensures
        match r {
            Ok(b) => stream_encoding(s@) == Ok::<Seq<u8>, EncodeError>(b@),
            Err(e) => stream_encoding(s@) == Err::<Seq<u8>, EncodeError>(e),
        },
{
    let n = s.len();
    let mut offs: Vec<u32> = Vec::new();
    offs.push(0);
    let mut total: u32 = 0;
    let mut i: usize = 0;
    assert(s@.subrange(0, 0).len() == 0);
    while i < n
        invariant
            n == s@.len(),
            i <= n,
            offs@.len() == i + 1,
            total == offset_of(s@, i as int),
            forall|k: int| 0 <= k <= i ==> offs@[k] == offset_of(s@, k),
        decreases n - i,
    {
        proof {
            lemma_offset_step(s@, i as int);
            lemma_offset_mono(s@, i as int + 1, n as int);
            lemma_code_len_is_end(s@);
        }
        match instruction_length(&s[i]) {
            None => {
                return Err(EncodeError::UnsupportedHeaderVariant);
            },
            Some(len) => {
                if len > u32::MAX - total {
                    return Err(EncodeError::UnsupportedHeaderVariant);
                }
                total = total + len;
                offs.push(total);
            },
        }
        i = i + 1;
    }
    proof {
        lemma_code_len_is_end(s@);
    }
    let mut out: Vec<u8> = Vec::new();
    let mut k: usize = 0;
    while k < n
        invariant
            n == s@.len(),
            k <= n,
            positions_of(s@, offs@),
            offs.len() == s.len() + 1,
            code_len(s@) <= u32::MAX,
            stream_prefix(s@, k as int) == Ok::<Seq<u8>, EncodeError>(out@),
        decreases n - k,
    {
        match encode_one(s, &offs, k, &mut out) {
            Err(e) => {
                proof {
                    lemma_prefix_err_persists(s@, k + 1, n as int, e);
                }
                return Err(e);
            },
            Ok(_) => {},
        }
        k = k + 1;
    }
    Ok(out)
}

/// Shape of the operand that `o` takes; `None` where `o` is not an opcode.
pub open spec fn shape_of(o: Opcode) -> Option<OperandShape> {
    if o.prefixed {
        two_byte_shape(o.code)
    } else {
        one_byte_shape(o.code)
    }
}

/// The operand has the form that the opcode's shape asks for.
pub open spec fn operand_matches(shape: OperandShape, op: Operand) -> bool {
    match shape {
        OperandShape::NoOperand => op is NoOperand,
        OperandShape::Int8 => op is Int8,
        OperandShape::Int16 => op is Int16,
        OperandShape::Int32 => op is Int32,
        OperandShape::Int64 => op is Int64,
        OperandShape::Token => op is Token,
        OperandShape::Branch8 => op is Branch8,
        OperandShape::Branch32 => op is Branch32,
        OperandShape::Switch => op is Switch,
    }
}

/// The instruction is a known opcode with an operand of its shape, and a one-byte
/// opcode is never the prefix byte.
pub open spec fn instruction_well_formed(i: Instruction) -> bool {
    match shape_of(i.opcode) {
        Some(shape) => operand_matches(shape, i.operand),
        None => false,
    }
}

/// Bytes of the first `n` instructions of `s`, labels placed by `pos`.
pub open spec fn layout_prefix(s: Seq<Instruction>, n: int, pos: spec_fn(u32) -> int) -> Seq<u8>
    decreases n,
{
    if n <= 0 {
        seq![]
    } else {
        layout_prefix(s, n - 1, pos) + opcode_bytes(s[n - 1].opcode) + operand_layout(
            s[n - 1].operand,
            next_of(s, n - 1),
            pos,
        )
    }
}

/// Every instruction sits at the position its label gives, and every branch of it
/// names an instruction of `s` within reach of its operand.
pub open spec fn labels_are_positions(s: Seq<Instruction>) -> bool {
    &&& forall|k: int| 0 <= k < s.len() ==> (#[trigger] s[k]).offset == offset_of(s, k)
    &&& forall|k: int|
        0 <= k < s.len() ==> operand_error(s, (#[trigger] s[k]).operand, next_of(s, k))
            is None
}

pub proof fn lemma_layout_prefix_push(
    s: Seq<Instruction>,
    x: Instruction,
    n: int,
    pos: spec_fn(u32) -> int,
)
    requires
        0 <= n <= s.len(),
    ensures
        layout_prefix(s.push(x), n, pos) == layout_prefix(s, n, pos),
    decreases n,
{
    if n > 0 {
        lemma_layout_prefix_push(s, x, n - 1, pos);
        assert(s.push(x).subrange(0, n - 1) =~= s.subrange(0, n - 1));
    }
}

/// In a stream whose labels are positions, each label resolves to itself.
pub proof fn lemma_label_resolves_to_itself(s: Seq<Instruction>, l: u32)
    requires
        labels_are_positions(s),
        label_index(s, l, 0) is Some,
    ensures
        label_pos(s, l) == l as int,
{
    lemma_label_index_found(s, l, 0);
    let t = label_index(s, l, 0)->Some_0;
    assert(s[t].offset == offset_of(s, t));
}

proof fn lemma_switch_layout_resolved(s: Seq<Instruction>, ls: Seq<u32>, next: int)
    requires
        labels_are_positions(s),
        switch_error(s, ls, next) is None,
    ensures
        switch_layout(ls, next, resolver(s)) == switch_layout(ls, next, identity_resolver()),
    decreases ls.len(),
{
    if ls.len() > 0 {
        lemma_switch_layout_resolved(s, ls.drop_last(), next);
        lemma_label_resolves_to_itself(s, ls.last());
    }
}

/// A stream whose labels are positions encodes to its own layout.
pub proof fn lemma_encoding_of_positioned(s: Seq<Instruction>, n: int)
    requires
        labels_are_positions(s),
        0 <= n <= s.len(),
    ensures
        stream_prefix(s, n) == Ok::<Seq<u8>, EncodeError>(layout_prefix(s, n, identity_resolver())),
    decreases n,
{
    if n > 0 {
        lemma_encoding_of_positioned(s, n - 1);
        let k = n - 1;
        let next = next_of(s, k);
        assert(operand_error(s, s[k].operand, next) is None);
        match s[k].operand {
            Operand::Branch8(l) => {
                lemma_label_resolves_to_itself(s, l);
            },
            Operand::Branch32(l) => {
                lemma_label_resolves_to_itself(s, l);
            },
            Operand::Switch(ls) => {
                lemma_switch_layout_resolved(s, ls@, next);
            },
            _ => {},
        }
        assert(operand_layout(s[k].operand, next, resolver(s)) == operand_layout(
            s[k].operand,
            next,
            identity_resolver(),
        ));
        assert(layout_prefix(s, n, identity_resolver()) =~= layout_prefix(
            s,
            k,
            identity_resolver(),
        ) + (opcode_bytes(s[k].opcode) + operand_layout(s[k].operand, next, identity_resolver())));
    }
}

pub proof fn lemma_push_offsets(s: Seq<Instruction>, x: Instruction)
    ensures
        forall|k: int| 0 <= k <= s.len() ==> offset_of(s.push(x), k) == offset_of(s, k),
        code_len(s.push(x)) == code_len(s) + instr_len(x),
        offset_of(s, s.len() as int) == code_len(s),
{
    assert forall|k: int| 0 <= k <= s.len() implies offset_of(s.push(x), k) == offset_of(s, k) by {
        assert(s.push(x).subrange(0, k) =~= s.subrange(0, k));
    }
    assert(s.push(x).drop_last() =~= s);
    lemma_code_len_is_end(s);
}

/// Where every label of a switch table names an instruction and fits a word, the
/// table can be written.
pub proof fn lemma_switch_ok(s: Seq<Instruction>, ls: Seq<u32>, next: int)
    requires
        forall|i: int|
            0 <= i < ls.len() ==> label_index(s, #[trigger] ls[i], 0) is Some && fits_i32(
                label_pos(s, ls[i]) - next,
            ),
    ensures
        switch_error(s, ls, next) is None,
    decreases ls.len(),
{
    if ls.len() > 0 {
        let d = ls.drop_last();
        assert forall|i: int| 0 <= i < d.len() implies label_index(s, #[trigger] d[i], 0) is Some
            && fits_i32(label_pos(s, d[i]) - next) by {
            assert(d[i] == ls[i]);
        }
        lemma_switch_ok(s, d, next);
        assert(ls.last() == ls[ls.len() - 1]);
    }
}

/// The encoding of a stream is the encodings of its instructions, each at its position.
pub proof fn lemma_prefix_parts(s: Seq<Instruction>, n: int, k: int)
    requires
        0 <= k < n <= s.len(),
        stream_prefix(s, n) is Ok,
    ensures
        instr_encoding(s, k) is Ok,
        stream_prefix(s, n)->Ok_0.len() == offset_of(s, n),
        stream_prefix(s, n)->Ok_0.subrange(offset_of(s, k) as int, offset_of(s, k + 1) as int)
            == instr_encoding(s, k)->Ok_0,
    decreases n,
{
    assert(stream_prefix(s, n - 1) is Ok);
    assert(instr_encoding(s, n - 1) is Ok);
    lemma_prefix_len_is_offset(s, n);
    lemma_prefix_len_is_offset(s, n - 1);
    lemma_offset_step(s, n - 1);
    let c = stream_prefix(s, n)->Ok_0;
    let c1 = stream_prefix(s, n - 1)->Ok_0;
    assert(c == c1 + instr_encoding(s, n - 1)->Ok_0);
    if k < n - 1 {
        lemma_prefix_parts(s, n - 1, k);
        lemma_offset_mono(s, k + 1, n - 1);
        lemma_offset_step(s, k);
        assert(c1.len() == offset_of(s, n - 1));
        assert(c.subrange(offset_of(s, k) as int, offset_of(s, k + 1) as int) =~= c1.subrange(
            offset_of(s, k) as int,
            offset_of(s, k + 1) as int,
        ));
    } else {
        assert(c.subrange(offset_of(s, k) as int, offset_of(s, k + 1) as int) =~= instr_encoding(
            s,
            k,
        )->Ok_0);
    }
}

pub proof fn lemma_prefix_len_is_offset(s: Seq<Instruction>, n: int)
    requires
        0 <= n <= s.len(),
    ensures
        stream_prefix(s, n) matches Ok(c) ==> c.len() == offset_of(s, n),
    decreases n,
{
    if n == 0 {
        assert(s.subrange(0, 0).len() == 0);
    } else {
        lemma_prefix_len_is_offset(s, n - 1);
        lemma_offset_step(s, n - 1);
        let op = s[n - 1].operand;
        lemma_operand_layout_len(op, next_of(s, n - 1), resolver(s));
    }
}

pub proof fn lemma_operand_layout_len(op: Operand, next: int, pos: spec_fn(u32) -> int)
    ensures
        operand_layout(op, next, pos).len() == operand_len(op),
{
    if let Operand::Switch(ls) = op {
        lemma_switch_layout_parts(ls@, next, pos, 0);
    }
}

/// Entry `j` of a switch table sits at `4 * j`.
pub proof fn lemma_switch_layout_parts(ls: Seq<u32>, next: int, pos: spec_fn(u32) -> int, j: int)
    ensures
        switch_layout(ls, next, pos).len() == 4 * ls.len(),
        0 <= j < ls.len() ==> switch_layout(ls, next, pos).subrange(4 * j, 4 * j + 4) == le32(
            word_of_rel(pos(ls[j]) - next),
        ),
    decreases ls.len(),
{
    if ls.len() > 0 {
        lemma_switch_layout_parts(ls.drop_last(), next, pos, j);
        let c = switch_layout(ls, next, pos);
        if 0 <= j < ls.len() - 1 {
            assert(c.subrange(4 * j, 4 * j + 4) =~= switch_layout(ls.drop_last(), next, pos).subrange(
                4 * j,
                4 * j + 4,
            ));
            assert(ls.drop_last()[j] == ls[j]);
        } else if j == ls.len() - 1 {
            assert(c.subrange(4 * j, 4 * j + 4) =~= le32(word_of_rel(pos(ls[j]) - next)));
        }
    }
}

/// A switch table that can be written has every target named and within reach.
pub proof fn lemma_switch_error_none(s: Seq<Instruction>, ls: Seq<u32>, next: int, j: int)
    requires
        switch_error(s, ls, next) is None,
        0 <= j < ls.len(),
    ensures
        target_error(s, ls[j], next, true) is None,
    decreases ls.len(),
{
    if j < ls.len() - 1 {
        lemma_switch_error_none(s, ls.drop_last(), next, j);
        assert(ls.drop_last()[j] == ls[j]);
    }
}

/// Streams whose instructions have the same lengths lay them out at the same positions.
pub proof fn lemma_same_offsets(s: Seq<Instruction>, t: Seq<Instruction>, n: int)
    requires
        0 <= n <= s.len(),
        n <= t.len(),
        forall|j: int| 0 <= j < n ==> instr_len(#[trigger] s[j]) == instr_len(t[j]),
    ensures
        forall|j: int| 0 <= j <= n ==> offset_of(s, j) == offset_of(t, j),
    decreases n,
{
    if n > 0 {
        lemma_same_offsets(s, t, n - 1);
        lemma_offset_step(s, n - 1);
        lemma_offset_step(t, n - 1);
    }
}

/// A label that names an instruction is placed within the code.
pub proof fn lemma_label_pos_range(s: Seq<Instruction>, l: u32)
    requires
        label_index(s, l, 0) is Some,
    ensures
        0 <= label_pos(s, l) < code_len(s),
        label_pos(s, l) == offset_of(s, label_index(s, l, 0)->Some_0),
{
    lemma_label_index_found(s, l, 0);
    let t = label_index(s, l, 0)->Some_0;
    lemma_offset_step(s, t);
    lemma_offset_mono(s, t + 1, s.len() as int);
    lemma_code_len_is_end(s);
}

} // verus!
