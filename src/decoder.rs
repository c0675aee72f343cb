//! Decoding of instruction streams and method bodies.

use vstd::prelude::*;
use crate::bytes::{
    le16, le32, le64, lemma_le16_injective, lemma_le32_injective, lemma_three_bytes_value,
    read_u16, read_u32, read_u64,
};
use crate::error::DecodeError;
use crate::instruction::{
    byte_of_rel, code_len, fits_i32, fits_i8, identity_resolver, instr_len,
    instruction_well_formed, label_index, label_pos, lemma_label_pos_range, operand_len, lemma_operand_layout_len,
    lemma_switch_error_none, lemma_switch_layout_parts, resolver, switch_error, labels_are_positions, layout_prefix,
    lemma_encoding_of_positioned, lemma_label_index_found, lemma_layout_prefix_push,
    lemma_code_len_is_end, lemma_offset_mono, lemma_offset_step, lemma_prefix_parts,
    lemma_same_offsets, stream_prefix,
    lemma_push_offsets, lemma_switch_ok, locate_label, next_of, offset_of, opcode_bytes,
    operand_error, operand_layout, stream_encoding, switch_layout, word_of_rel, Instruction,
    Opcode, Operand,
};
use crate::body::{
    body_encoding, body_well_formed, compact_eligible, compact_header_byte, header_code_size,
    header_init_locals, header_locals, header_max_stack, lemma_extended_flags_bits, MethodBody,
    MethodHeader, EXTENDED_HEADER_SIZE,
};
use crate::region::{
    all_fit_small, check_nesting, clause_len, clause_of, clauses, fat_clause, fits_small,
    kind_flags, kind_of_flags, lemma_clauses_parts, needs_fat, section_bytes, MAX_FAT_CLAUSES,
    regions_well_nested, small_clause, ExceptionRegion,
};
use vstd::slice::slice_subrange;
use vstd::pervasive::arbitrary;
use crate::opcodes::{one_byte_operand_shape, two_byte_operand_shape, OperandShape, PREFIX_BYTE};

verus! {

/// The displacement that a branch byte holds.
pub open spec fn rel_of_byte(x: u8) -> int {
    if x < 128 {
        x as int
    } else {
        x - 0x100
    }
}

/// The displacement that a branch word holds.
pub open spec fn rel_of_word(w: u32) -> int {
    if w < 0x8000_0000 {
        w as int
    } else {
        w - 0x1_0000_0000
    }
}

/// Each label of the operand lies within reach of an instruction that ends at `next`.
pub open spec fn displacements_fit(op: Operand, next: int) -> bool {
    match op {
        Operand::Branch8(l) => fits_i8(l - next),
        Operand::Branch32(l) => fits_i32(l - next),
        Operand::Switch(ls) => forall|i: int| 0 <= i < ls@.len() ==> fits_i32(ls@[i] - next),
        _ => true,
    }
}

proof fn lemma_byte_rel(x: u8)
    ensures
        byte_of_rel(rel_of_byte(x)) == x,
        fits_i8(rel_of_byte(x)),
{
}

proof fn lemma_word_rel(w: u32)
    ensures
        word_of_rel(rel_of_word(w)) == w,
        fits_i32(rel_of_word(w)),
{
}

/// The label `next + rel`, where it is a position at all.
fn label_from(next: u32, rel: i64) -> (r: Result<u32, DecodeError>)
    requires
        -0x8000_0000 <= rel <= 0x7fff_ffff,
    ensures
        r matches Ok(l) ==> l as int == next + rel,
        0 <= next + rel <= u32::MAX ==> r is Ok,
{
    let t: i64 = next as i64 + rel;
    if t < 0 || t > u32::MAX as i64 {
        Err(DecodeError::InvalidBranchTarget)
    } else {
        Ok(t as u32)
    }
}

/// At `pos`, `b` holds instruction `x` of stream `s0` as the encoder writes it, with
/// offsets counted from `base`.
pub open spec fn encodes_at(b: Seq<u8>, base: int, pos: int, x: Instruction, s0: Seq<Instruction>) -> bool {
    let next = pos - base + instr_len(x);
    &&& instruction_well_formed(x)
    &&& pos + instr_len(x) <= b.len()
    &&& next <= code_len(s0) <= u32::MAX
    &&& operand_error(s0, x.operand, next) is None
    &&& b.subrange(pos, pos + instr_len(x)) == opcode_bytes(x.opcode) + operand_layout(
        x.operand,
        next,
        resolver(s0),
    )
}

/// `i` is `x` as decoded: the same length, and each label the position of the target.
pub open spec fn mirrors(i: Instruction, x: Instruction, s0: Seq<Instruction>) -> bool {
    &&& instr_len(i) == instr_len(x)
    &&& match x.operand {
        Operand::Branch8(l) => i.operand matches Operand::Branch8(a) && a == label_pos(s0, l),
        Operand::Branch32(l) => i.operand matches Operand::Branch32(a) && a == label_pos(s0, l),
        Operand::Switch(ls) => i.operand matches Operand::Switch(la) && la@.len() == ls@.len()
            && forall|q: int| 0 <= q < ls@.len() ==> la@[q] == label_pos(s0, #[trigger] ls@[q]),
        _ => !(i.operand is Branch8) && !(i.operand is Branch32) && !(i.operand is Switch),
    }
}

proof fn lemma_byte_rel_inverse(r: int)
    requires
        fits_i8(r),
    ensures
        rel_of_byte(byte_of_rel(r)) == r,
{
}

proof fn lemma_word_rel_inverse(r: int)
    requires
        fits_i32(r),
    ensures
        rel_of_word(word_of_rel(r)) == r,
{
}

/// Decodes the instruction at `pos`; labels and offsets count from `base`.
#[verifier::rlimit(100)]
fn decode_one(
    b: &[u8],
    base: usize,
    pos: usize,
    Ghost(w): Ghost<Option<(Instruction, Seq<Instruction>)>>,
) -> (r: Result<(Instruction, usize), DecodeError>)
    requires
        base <= pos < b.len(),
        pos - base <= u32::MAX,
    ensures
        w matches Some((x, s0)) ==> (encodes_at(b@, base as int, pos as int, x, s0) ==> (r matches Ok(
            (i, np),
        ) && mirrors(i, x, s0) && np == pos + instr_len(x))),
        r matches Ok((i, np)) ==> {
            &&& np == pos + instr_len(i)
            &&& np <= b@.len()
            &&& np - base <= u32::MAX
            &&& i.offset == pos - base
            &&& b@.subrange(pos as int, np as int) == opcode_bytes(i.opcode) + operand_layout(
                i.operand,
                np - base,
                identity_resolver(),
            )
            &&& displacements_fit(i.operand, np - base)
            &&& instruction_well_formed(i)
        },
{
    let ghost witnessed = w matches Some((x, s0)) && encodes_at(b@, base as int, pos as int, x, s0);
    let ghost gx: Instruction = if w is Some {
        w->Some_0.0
    } else {
        arbitrary()
    };
    let ghost gs0: Seq<Instruction> = if w is Some {
        w->Some_0.1
    } else {
        arbitrary()
    };
    let ghost gnext: int = pos - base + instr_len(gx);
    let ghost glay: Seq<u8> = operand_layout(gx.operand, gnext, resolver(gs0));
    let ghost gstart: int = pos + opcode_bytes(gx.opcode).len();
    proof {
        if witnessed {
            let whole = b@.subrange(pos as int, pos + instr_len(gx));
            assert(whole == opcode_bytes(gx.opcode) + glay);
            assert(b@[pos as int] == whole[0]);
            if gx.opcode.prefixed {
                assert(b@[pos + 1] == whole[1]);
            }
            lemma_operand_layout_len(gx.operand, gnext, resolver(gs0));
            assert(whole.subrange(opcode_bytes(gx.opcode).len() as int, instr_len(gx) as int)
                =~= glay);
            assert(b@.subrange(gstart, pos + instr_len(gx)) =~= whole.subrange(
                opcode_bytes(gx.opcode).len() as int,
                instr_len(gx) as int,
            ));
        }
    }
    let first = b[pos];
    let opcode: Opcode;
    let shape_found: Option<OperandShape>;
    let p: usize;
    if first == PREFIX_BYTE {
        if pos + 1 >= b.len() {
            return Err(DecodeError::TruncatedStream);
        }
        let c = b[pos + 1];
        opcode = Opcode { prefixed: true, code: c };
        shape_found = two_byte_operand_shape(c);
        p = pos + 2;
    } else {
        opcode = Opcode { prefixed: false, code: first };
        shape_found = one_byte_operand_shape(first);
        p = pos + 1;
    }
    assert(b@.subrange(pos as int, p as int) =~= opcode_bytes(opcode));
    assert(witnessed ==> opcode == gx.opcode && p == gstart);
    let shape = match shape_found {
        None => {
            return Err(DecodeError::UnknownOpcode);
        },
        Some(sh) => sh,
    };
    let avail = b.len() - p;
    let mut count: u32 = 0;
    let oplen: usize = match shape {
        OperandShape::NoOperand => 0,
        OperandShape::Int8 => 1,
        OperandShape::Branch8 => 1,
        OperandShape::Int16 => 2,
        OperandShape::Int32 => 4,
        OperandShape::Token => 4,
        OperandShape::Branch32 => 4,
        OperandShape::Int64 => 8,
        OperandShape::Switch => {
            if avail < 4 {
                return Err(DecodeError::TruncatedStream);
            }
            count = read_u32(b, p);
            proof {
                if witnessed {
                    if let Operand::Switch(ls) = gx.operand {
                        assert(b@.subrange(p as int, p + 4) =~= glay.subrange(0, 4));
                        assert(glay.subrange(0, 4) =~= le32(ls@.len() as u32));
                        lemma_le32_injective(count, ls@.len() as u32);
                    }
                }
            }
            if count as u64 > ((avail - 4) / 4) as u64 {
                return Err(DecodeError::TruncatedStream);
            }
            4 + 4 * (count as usize)
        },
    };
    assert(witnessed ==> oplen == operand_len(gx.operand));
    if oplen > avail {
        return Err(DecodeError::TruncatedStream);
    }
    let np = p + oplen;
    if np - base > u32::MAX as usize {
        return Err(DecodeError::SizeMismatch);
    }
    let next: u32 = (np - base) as u32;
    assert(witnessed ==> next == gnext);
    let operand = match shape {
        OperandShape::NoOperand => Operand::NoOperand,
        OperandShape::Int8 => {
            assert(b@.subrange(p as int, p + 1) =~= seq![b@[p as int]]);
            Operand::Int8(b[p])
        },
        OperandShape::Int16 => Operand::Int16(read_u16(b, p)),
        OperandShape::Int32 => Operand::Int32(read_u32(b, p)),
        OperandShape::Token => Operand::Token(read_u32(b, p)),
        OperandShape::Int64 => Operand::Int64(read_u64(b, p)),
        OperandShape::Branch8 => {
            let x = b[p];
            assert(b@.subrange(p as int, p + 1) =~= seq![b@[p as int]]);
            proof {
                lemma_byte_rel(x);
                if witnessed {
                    if let Operand::Branch8(l) = gx.operand {
                        assert(x == glay[0]);
                        lemma_byte_rel_inverse(label_pos(gs0, l) - gnext);
                        lemma_label_pos_range(gs0, l);
                    }
                }
            }
            let rel: i64 = if x < 128 {
                x as i64
            } else {
                x as i64 - 0x100
            };
            let l = match label_from(next, rel) {
                Err(e) => {
                    return Err(e);
                },
                Ok(l) => l,
            };
            Operand::Branch8(l)
        },
        OperandShape::Branch32 => {
            let w = read_u32(b, p);
            proof {
                lemma_word_rel(w);
                if witnessed {
                    if let Operand::Branch32(l) = gx.operand {
                        assert(b@.subrange(p as int, p + 4) =~= glay);
                        lemma_le32_injective(w, word_of_rel(label_pos(gs0, l) - gnext));
                        lemma_word_rel_inverse(label_pos(gs0, l) - gnext);
                        lemma_label_pos_range(gs0, l);
                    }
                }
            }
            let rel: i64 = if w < 0x8000_0000 {
                w as i64
            } else {
                w as i64 - 0x1_0000_0000
            };
            let l = match label_from(next, rel) {
                Err(e) => {
                    return Err(e);
                },
                Ok(l) => l,
            };
            Operand::Branch32(l)
        },
        OperandShape::Switch => {
            let q = p + 4;
            let ghost gls: Seq<u32> = if let Operand::Switch(ls) = gx.operand {
                ls@
            } else {
                Seq::empty()
            };
            proof {
                if witnessed {
                    assert(b@.subrange(q as int, np as int) =~= glay.subrange(4, glay.len() as int));
                    assert(glay.subrange(4, glay.len() as int) =~= switch_layout(
                        gls,
                        gnext,
                        resolver(gs0),
                    ));
                }
            }
            let mut ls: Vec<u32> = Vec::new();
            let mut j: u32 = 0;
            while j < count
                invariant
                    j <= count,
                    q == p + 4,
                    np == q + 4 * count,
                    np <= b@.len(),
                    next == np - base,
                    ls@.len() == j,
                    b@.subrange(q as int, q + 4 * j) == switch_layout(
                        ls@,
                        next as int,
                        identity_resolver(),
                    ),
                    forall|i: int| 0 <= i < ls@.len() ==> fits_i32(ls@[i] - next),
                    witnessed == (w matches Some((x, s0)) && encodes_at(
                        b@,
                        base as int,
                        pos as int,
                        x,
                        s0,
                    )),
                    witnessed ==> {
                        &&& gls.len() == count
                        &&& b@.subrange(q as int, np as int) == switch_layout(
                            gls,
                            next as int,
                            resolver(gs0),
                        )
                        &&& switch_error(gs0, gls, next as int) is None
                        &&& code_len(gs0) <= u32::MAX
                        &&& forall|i: int| 0 <= i < j ==> ls@[i] == label_pos(gs0, #[trigger] gls[i])
                    },
                decreases count - j,
            {
                let at = q + 4 * (j as usize);
                let w = read_u32(b, at);
                proof {
                    lemma_word_rel(w);
                    if witnessed {
                        lemma_switch_layout_parts(gls, next as int, resolver(gs0), j as int);
                        let whole = b@.subrange(q as int, np as int);
                        assert(b@.subrange(at as int, at + 4) =~= whole.subrange(
                            4 * j,
                            4 * j + 4,
                        ));
                        let r = label_pos(gs0, gls[j as int]) - next;
                        lemma_le32_injective(w, word_of_rel(r));
                        lemma_switch_error_none(gs0, gls, next as int, j as int);
                        lemma_word_rel_inverse(r);
                        lemma_label_pos_range(gs0, gls[j as int]);
                    }
                }
                let rel: i64 = if w < 0x8000_0000 {
                    w as i64
                } else {
                    w as i64 - 0x1_0000_0000
                };
                let l = match label_from(next, rel) {
                    Err(e) => {
                        return Err(e);
                    },
                    Ok(l) => l,
                };
                let ghost before = ls@;
                ls.push(l);
                proof {
                    assert(ls@.drop_last() =~= before);
                    assert(b@.subrange(q as int, q + 4 * (j + 1)) =~= b@.subrange(
                        q as int,
                        q + 4 * j,
                    ) + b@.subrange(at as int, at + 4));
                }
                j = j + 1;
            }
            Operand::Switch(ls)
        },
    };
    let ins = Instruction { offset: (pos - base) as u32, opcode, operand };
    assert(b@.subrange(pos as int, np as int) =~= b@.subrange(pos as int, p as int) + b@.subrange(
        p as int,
        np as int,
    ));
    Ok((ins, np))
}

/// Some instruction of `s` carries label `a`.
pub open spec fn names_instruction(s: Seq<Instruction>, a: u32) -> bool {
    exists|t: int| 0 <= t < s.len() && s[t].offset == a
}

/// Every label of the operand is carried by an instruction of `s`.
pub open spec fn labels_named(s: Seq<Instruction>, op: Operand) -> bool {
    match op {
        Operand::Branch8(a) => names_instruction(s, a),
        Operand::Branch32(a) => names_instruction(s, a),
        Operand::Switch(la) => forall|q: int| 0 <= q < la@.len() ==> names_instruction(s, #[trigger] la@[q]),
        _ => true,
    }
}

/// `b` holds, at `base`, the `code_size` bytes that the encoder writes for the
/// well-formed stream `s0`.
pub open spec fn stream_written_at(b: Seq<u8>, base: int, code_size: int, s0: Seq<Instruction>) -> bool {
    &&& forall|k: int| 0 <= k < s0.len() ==> instruction_well_formed(#[trigger] s0[k])
    &&& base + code_size <= b.len()
    &&& stream_encoding(s0) == Ok::<Seq<u8>, crate::error::EncodeError>(
        b.subrange(base, base + code_size),
    )
}

proof fn lemma_offset_strict(s: Seq<Instruction>, a: int, c: int)
    requires
        0 <= a < c <= s.len(),
    ensures
        offset_of(s, a) < offset_of(s, c),
{
    lemma_offset_step(s, a);
    lemma_offset_mono(s, a + 1, c);
}

/// A stream decoded from what the encoder wrote names every target it branches to.
proof fn lemma_mirrored_labels_named(s: Seq<Instruction>, s0: Seq<Instruction>, k: int)
    requires
        s.len() == s0.len(),
        0 <= k < s.len(),
        forall|j: int| 0 <= j < s.len() ==> mirrors(#[trigger] s[j], s0[j], s0),
        forall|j: int| 0 <= j < s.len() ==> (#[trigger] s[j]).offset == offset_of(s, j),
        stream_encoding(s0) is Ok,
    ensures
        labels_named(s, s[k].operand),
{
    assert forall|j: int| 0 <= j < s.len() implies instr_len(#[trigger] s[j]) == instr_len(s0[j]) by {
        assert(mirrors(s[j], s0[j], s0));
    }
    lemma_same_offsets(s, s0, s.len() as int);
    lemma_prefix_parts(s0, s0.len() as int, k);
    assert(mirrors(s[k], s0[k], s0));
    let next = next_of(s0, k);
    match s0[k].operand {
        Operand::Branch8(l) => {
            assert(operand_error(s0, s0[k].operand, next) is None);
            lemma_label_pos_range(s0, l);
            let t = label_index(s0, l, 0)->Some_0;
            lemma_label_index_found(s0, l, 0);
            assert(s[t].offset == offset_of(s, t));
            if let Operand::Branch8(a) = s[k].operand {
                assert(s[t].offset == a);
                assert(names_instruction(s, a));
            }
        },
        Operand::Branch32(l) => {
            assert(operand_error(s0, s0[k].operand, next) is None);
            lemma_label_pos_range(s0, l);
            let t = label_index(s0, l, 0)->Some_0;
            lemma_label_index_found(s0, l, 0);
            assert(s[t].offset == offset_of(s, t));
            if let Operand::Branch32(a) = s[k].operand {
                assert(s[t].offset == a);
                assert(names_instruction(s, a));
            }
        },
        Operand::Switch(ls) => {
            if let Operand::Switch(la) = s[k].operand {
                assert forall|q: int| 0 <= q < la@.len() implies names_instruction(
                    s,
                    #[trigger] la@[q],
                ) by {
                    assert(operand_error(s0, s0[k].operand, next) is None);
                    lemma_switch_error_none(s0, ls@, next, q);
                    let l = ls@[q];
                    lemma_label_pos_range(s0, l);
                    let t = label_index(s0, l, 0)->Some_0;
                    lemma_label_index_found(s0, l, 0);
                    assert(s[t].offset == offset_of(s, t));
                    assert(s[t].offset == la@[q]);
                }
            }
        },
        _ => {},
    }
}

/// Decodes the `code_size` bytes of instructions at `base`. Every label of the result is
/// the position of the instruction it names, and the result encodes back to exactly
/// those bytes. Bytes that the encoder wrote for a well-formed stream always decode.
pub fn decode_instructions(b: &[u8], base: usize, code_size: u32) -> (r: Result<
    Vec<Instruction>,
    DecodeError,
>)
    requires
        base <= b.len(),
    ensures
        r matches Ok(s) ==> {
            &&& base + code_size <= b@.len()
            &&& code_len(s@) == code_size
            &&& labels_are_positions(s@)
            &&& forall|k: int| 0 <= k < s@.len() ==> instruction_well_formed(#[trigger] s@[k])
            &&& stream_encoding(s@) == Ok::<Seq<u8>, crate::error::EncodeError>(
                b@.subrange(base as int, base + code_size),
            )
        },
        forall|s0: Seq<Instruction>|
            #[trigger] stream_written_at(b@, base as int, code_size as int, s0) ==> r is Ok,
{
    let ghost w: Option<Seq<Instruction>> = if exists|s0: Seq<Instruction>|
        #[trigger] stream_written_at(b@, base as int, code_size as int, s0) {
        Some(
            choose|s0: Seq<Instruction>|
                #[trigger] stream_written_at(b@, base as int, code_size as int, s0),
        )
    } else {
        None
    };
    decode_stream(b, base, code_size, Ghost(w))
}

#[verifier::rlimit(100)]
fn decode_stream(
    b: &[u8],
    base: usize,
    code_size: u32,
    Ghost(w): Ghost<Option<Seq<Instruction>>>,
) -> (r: Result<Vec<Instruction>, DecodeError>)
    requires
        base <= b.len(),
    ensures
        w matches Some(s0) ==> (stream_written_at(b@, base as int, code_size as int, s0) ==> r is Ok),
        r matches Ok(s) ==> {
            &&& base + code_size <= b@.len()
            &&& code_len(s@) == code_size
            &&& labels_are_positions(s@)
            &&& forall|k: int| 0 <= k < s@.len() ==> instruction_well_formed(#[trigger] s@[k])
            &&& stream_encoding(s@) == Ok::<Seq<u8>, crate::error::EncodeError>(
                b@.subrange(base as int, base + code_size),
            )
        },
{
    let ghost witnessed = w matches Some(s0) && stream_written_at(
        b@,
        base as int,
        code_size as int,
        s0,
    );
    let ghost gs0: Seq<Instruction> = if w is Some {
        w->Some_0
    } else {
        Seq::empty()
    };
    let mut s: Vec<Instruction> = Vec::new();
    let mut pos: usize = base;
    assert(b@.subrange(base as int, base as int) =~= layout_prefix(s@, 0, identity_resolver()));
    proof {
        if witnessed {
            assert(gs0.subrange(0, 0).len() == 0);
            lemma_code_len_is_end(gs0);
            crate::body::lemma_stream_len(gs0);
        }
    }
    while pos - base < code_size as usize
        invariant
            base <= pos <= b@.len(),
            pos - base == code_len(s@),
            pos - base <= u32::MAX,
            forall|k: int| 0 <= k < s@.len() ==> (#[trigger] s@[k]).offset == offset_of(s@, k),
            forall|k: int| 0 <= k < s@.len() ==> instruction_well_formed(#[trigger] s@[k]),
            forall|k: int|
                0 <= k < s@.len() ==> displacements_fit((#[trigger] s@[k]).operand, next_of(s@, k)),
            b@.subrange(base as int, pos as int) == layout_prefix(
                s@,
                s@.len() as int,
                identity_resolver(),
            ),
            witnessed == (w matches Some(s0) && stream_written_at(
                b@,
                base as int,
                code_size as int,
                s0,
            )),
            witnessed ==> {
                &&& gs0 == w->Some_0
                &&& s@.len() <= gs0.len()
                &&& pos - base == offset_of(gs0, s@.len() as int)
                &&& code_len(gs0) == code_size
                &&& forall|j: int| 0 <= j < s@.len() ==> mirrors(#[trigger] s@[j], gs0[j], gs0)
            },
        decreases u32::MAX - (pos - base),
    {
        let ghost k = s@.len() as int;
        proof {
            if witnessed {
                lemma_code_len_is_end(gs0);
                if k >= gs0.len() {
                    assert(k == gs0.len());
                }
                lemma_offset_step(gs0, k);
                lemma_offset_mono(gs0, k + 1, gs0.len() as int);
                lemma_prefix_parts(gs0, gs0.len() as int, k);
                let code = b@.subrange(base as int, base + code_size);
                assert(stream_prefix(gs0, gs0.len() as int) == Ok::<
                    Seq<u8>,
                    crate::error::EncodeError,
                >(code));
                assert(b@.subrange(pos as int, pos + instr_len(gs0[k])) =~= code.subrange(
                    offset_of(gs0, k) as int,
                    offset_of(gs0, k + 1) as int,
                ));
                assert(encodes_at(b@, base as int, pos as int, gs0[k], gs0));
            }
        }
        if pos >= b.len() {
            return Err(DecodeError::TruncatedStream);
        }
        let ghost wx: Option<(Instruction, Seq<Instruction>)> = if witnessed {
            Some((gs0[k], gs0))
        } else {
            None
        };
        let (ins, np) = match decode_one(b, base, pos, Ghost(wx)) {
            Err(e) => {
                return Err(e);
            },
            Ok(x) => x,
        };
        let ghost old_s = s@;
        s.push(ins);
        proof {
            lemma_push_offsets(old_s, ins);
            lemma_layout_prefix_push(old_s, ins, old_s.len() as int, identity_resolver());
            assert(s@ =~= old_s.push(ins));
            assert forall|k: int| 0 <= k < s@.len() implies (#[trigger] s@[k]).offset == offset_of(
                s@,
                k,
            ) && displacements_fit(s@[k].operand, next_of(s@, k)) by {
                if k < old_s.len() {
                    lemma_push_offsets(old_s, ins);
                    assert(offset_of(s@, k + 1) == offset_of(old_s, k + 1));
                    crate::instruction::lemma_offset_step(old_s, k);
                    crate::instruction::lemma_offset_step(s@, k);
                }
            }
            assert(b@.subrange(base as int, np as int) =~= b@.subrange(base as int, pos as int)
                + b@.subrange(pos as int, np as int));
            if witnessed {
                lemma_offset_step(gs0, k);
                assert forall|j: int| 0 <= j < s@.len() implies mirrors(
                    #[trigger] s@[j],
                    gs0[j],
                    gs0,
                ) by {
                    if j < k {
                        assert(s@[j] == old_s[j]);
                    }
                }
            }
        }
        pos = np;
    }
    proof {
        if witnessed {
            lemma_code_len_is_end(gs0);
            lemma_offset_mono(gs0, s@.len() as int, gs0.len() as int);
            if s@.len() < gs0.len() {
                lemma_offset_strict(gs0, s@.len() as int, gs0.len() as int);
            }
        }
    }
    if pos - base != code_size as usize {
        return Err(DecodeError::SizeMismatch);
    }
    let n = s.len();
    if !validate_targets(&s, Ghost(if witnessed {
        Some(gs0)
    } else {
        None
    })) {
        return Err(DecodeError::InvalidBranchTarget);
    }
    proof {
        lemma_encoding_of_positioned(s@, n as int);
    }
    Ok(s)
}

/// Whether every label in `s` names an instruction of `s`.
#[verifier::rlimit(100)]
fn validate_targets(s: &Vec<Instruction>, Ghost(w): Ghost<Option<Seq<Instruction>>>) -> (ok: bool)
    requires
        forall|j: int| 0 <= j < s@.len() ==> (#[trigger] s@[j]).offset == offset_of(s@, j),
        forall|j: int|
            0 <= j < s@.len() ==> displacements_fit((#[trigger] s@[j]).operand, next_of(s@, j)),
    ensures
        ok ==> forall|j: int|
            0 <= j < s@.len() ==> operand_error(s@, (#[trigger] s@[j]).operand, next_of(s@, j))
                is None,
        w matches Some(s0) ==> (s@.len() == s0.len() && stream_encoding(s0) is Ok && (forall|
            j: int,
        |
            0 <= j < s@.len() ==> mirrors(#[trigger] s@[j], s0[j], s0)) ==> ok),
{
    let n = s.len();
    let mut k: usize = 0;
    while k < n
        invariant
            n == s@.len(),
            k <= n,
            forall|j: int| 0 <= j < s@.len() ==> (#[trigger] s@[j]).offset == offset_of(s@, j),
            forall|j: int|
                0 <= j < s@.len() ==> displacements_fit((#[trigger] s@[j]).operand, next_of(s@, j)),
            forall|j: int|
                0 <= j < k ==> operand_error(s@, (#[trigger] s@[j]).operand, next_of(s@, j)) is None,
        decreases n - k,
    {
        proof {
            if let Some(s0) = w {
                if s@.len() == s0.len() && stream_encoding(s0) is Ok && (forall|j: int|
                    0 <= j < s@.len() ==> mirrors(#[trigger] s@[j], s0[j], s0)) {
                    lemma_mirrored_labels_named(s@, s0, k as int);
                }
            }
        }
        if !targets_resolve(s, k) {
            return false;
        }
        k = k + 1;
    }
    true
}

/// Whether every label of instruction `k` names an instruction of `s`.
fn targets_resolve(s: &Vec<Instruction>, k: usize) -> (ok: bool)
    requires
        k < s@.len(),
        forall|j: int| 0 <= j < s@.len() ==> (#[trigger] s@[j]).offset == offset_of(s@, j),
        displacements_fit(s@[k as int].operand, next_of(s@, k as int)),
    ensures
        ok ==> operand_error(s@, s@[k as int].operand, next_of(s@, k as int)) is None,
        labels_named(s@, s@[k as int].operand) ==> ok,
{
        match &s[k].operand {
            Operand::Branch8(l) => {
                if locate_label(&s, *l).is_none() {
                    proof {
                        lemma_label_index_found(s@, *l, 0);
                    }
                    return false;
                }
                proof {
                    resolved_is_label(s@, *l);
                }
            },
            Operand::Branch32(l) => {
                if locate_label(&s, *l).is_none() {
                    proof {
                        lemma_label_index_found(s@, *l, 0);
                    }
                    return false;
                }
                proof {
                    resolved_is_label(s@, *l);
                }
            },
            Operand::Switch(ls) => {
                let mut j: usize = 0;
                while j < ls.len()
                    invariant
                        j <= ls@.len(),
                        forall|j2: int|
                            0 <= j2 < s@.len() ==> (#[trigger] s@[j2]).offset == offset_of(s@, j2),
                        forall|i: int| 0 <= i < j ==> label_index(s@, #[trigger] ls@[i], 0) is Some,
                        k < s@.len(),
                        s@[k as int].operand == Operand::Switch(*ls),
                    decreases ls@.len() - j,
                {
                    if locate_label(&s, ls[j]).is_none() {
                        proof {
                            lemma_label_index_found(s@, ls@[j as int], 0);
                            assert(!names_instruction(s@, ls@[j as int]));
                        }
                        return false;
                    }
                    j = j + 1;
                }
                proof {
                    let next = next_of(s@, k as int);
                    assert forall|i: int| 0 <= i < ls@.len() implies label_index(
                        s@,
                        #[trigger] ls@[i],
                        0,
                    ) is Some && fits_i32(label_pos(s@, ls@[i]) - next) by {
                        resolved_is_label(s@, ls@[i]);
                    }
                    lemma_switch_ok(s@, ls@, next);
                }
            },
            _ => {},
        }
    true
}

/// A label that names an instruction of a stream whose offsets are positions is that
/// instruction's position.
proof fn resolved_is_label(s: Seq<Instruction>, l: u32)
    requires
        forall|j: int| 0 <= j < s.len() ==> (#[trigger] s[j]).offset == offset_of(s, j),
        label_index(s, l, 0) is Some,
    ensures
        label_pos(s, l) == l as int,
{
    lemma_label_index_found(s, l, 0);
}

/// Number of bytes the header occupies.
pub open spec fn header_size(h: MethodHeader) -> nat {
    match h {
        MethodHeader::Compact { .. } => 1,
        MethodHeader::Extended { .. } => 12,
    }
}

/// `h` is what the first bytes of `b` say.
pub open spec fn header_read_from(b: Seq<u8>, h: MethodHeader) -> bool {
    match h {
        MethodHeader::Compact { code_size } => {
            &&& b.len() >= 1
            &&& code_size <= 63
            &&& b[0] == compact_header_byte(code_size as nat)
        },
        MethodHeader::Extended {
            max_stack,
            code_size,
            local_var_sig_tok,
            init_locals,
            more_sections,
        } => {
            &&& b.len() >= 12
            &&& b[0] % 4 == 3
            &&& b[1] / 16 == 3
            &&& more_sections == ((b[0] / 8) % 2 == 1)
            &&& init_locals == ((b[0] / 16) % 2 == 1)
            &&& le16(max_stack) == b.subrange(2, 4)
            &&& le32(code_size) == b.subrange(4, 8)
            &&& le32(local_var_sig_tok) == b.subrange(8, 12)
        },
    }
}

pub open spec fn header_more_sections(h: MethodHeader) -> bool {
    match h {
        MethodHeader::Compact { .. } => false,
        MethodHeader::Extended { more_sections, .. } => more_sections,
    }
}

/// `m` is what `b` holds: its header, an instruction stream that encodes back to the code
/// bytes with every label a position, and properly nested regions; a body without
/// sections ends with its code, and the sections of one with sections start at the next
/// four-byte boundary and hold exactly its regions.
pub open spec fn decoded_from(b: Seq<u8>, m: MethodBody) -> bool {
    let hs = header_size(m.header);
    let cs = header_code_size(m.header);
    &&& header_read_from(b, m.header)
    &&& code_len(m.instructions@) == cs
    &&& hs + cs <= b.len()
    &&& labels_are_positions(m.instructions@)
    &&& forall|k: int|
        0 <= k < m.instructions@.len() ==> instruction_well_formed(#[trigger] m.instructions@[k])
    &&& stream_encoding(m.instructions@) == Ok::<Seq<u8>, crate::error::EncodeError>(
        b.subrange(hs as int, (hs + cs) as int),
    )
    &&& regions_well_nested(m.regions@)
    &&& !header_more_sections(m.header) ==> m.regions@.len() == 0 && b.len() == hs + cs
    &&& header_more_sections(m.header) ==> table_chain(b, align4((hs + cs) as int), m.regions@)
}

/// Reads one clause of a table.
#[verifier::rlimit(60)]
fn decode_clause(
    b: &[u8],
    at: usize,
    fat: bool,
    Ghost(wx): Ghost<Option<ExceptionRegion>>,
) -> (r: Result<ExceptionRegion, DecodeError>)
    requires
        at + clause_len(fat) <= b.len(),
    ensures
        r matches Ok(region) ==> b@.subrange(at as int, at + clause_len(fat)) == clause_of(
            region,
            fat,
        ),
        r matches Ok(region) ==> (fat || fits_small(region)),
        wx matches Some(x) ==> (b@.subrange(at as int, at + clause_len(fat)) == clause_of(x, fat)
            && (fat || fits_small(x)) ==> r == Ok::<ExceptionRegion, DecodeError>(x)),
{
    let ghost witnessed = wx matches Some(x) && b@.subrange(at as int, at + clause_len(fat))
        == clause_of(x, fat) && (fat || fits_small(x));
    let ghost gx: ExceptionRegion = if wx is Some {
        wx->Some_0
    } else {
        arbitrary()
    };
    let ghost cl = b@.subrange(at as int, at + clause_len(fat));
    if fat {
        let flags = read_u32(b, at);
        let try_offset = read_u32(b, at + 4);
        let try_length = read_u32(b, at + 8);
        let handler_offset = read_u32(b, at + 12);
        let handler_length = read_u32(b, at + 16);
        let token = read_u32(b, at + 20);
        proof {
            if witnessed {
                assert(b@.subrange(at as int, at + 4) =~= cl.subrange(0, 4));
                assert(b@.subrange(at + 4, at + 8) =~= cl.subrange(4, 8));
                assert(b@.subrange(at + 8, at + 12) =~= cl.subrange(8, 12));
                assert(b@.subrange(at + 12, at + 16) =~= cl.subrange(12, 16));
                assert(b@.subrange(at + 16, at + 20) =~= cl.subrange(16, 20));
                assert(b@.subrange(at + 20, at + 24) =~= cl.subrange(20, 24));
                let f = fat_clause(gx);
                assert(f.subrange(0, 4) =~= le32(kind_flags(gx.kind)));
                assert(f.subrange(4, 8) =~= le32(gx.try_offset));
                assert(f.subrange(8, 12) =~= le32(gx.try_length));
                assert(f.subrange(12, 16) =~= le32(gx.handler_offset));
                assert(f.subrange(16, 20) =~= le32(gx.handler_length));
                assert(f.subrange(20, 24) =~= le32(gx.class_token_or_filter_offset));
                lemma_le32_injective(flags, kind_flags(gx.kind));
                lemma_le32_injective(try_offset, gx.try_offset);
                lemma_le32_injective(try_length, gx.try_length);
                lemma_le32_injective(handler_offset, gx.handler_offset);
                lemma_le32_injective(handler_length, gx.handler_length);
                lemma_le32_injective(token, gx.class_token_or_filter_offset);
            }
        }
        let kind = match kind_of_flags(flags) {
            None => {
                return Err(DecodeError::MalformedSection);
            },
            Some(k) => k,
        };
        let region = ExceptionRegion {
            kind,
            try_offset,
            try_length,
            handler_offset,
            handler_length,
            class_token_or_filter_offset: token,
        };
        assert(b@.subrange(at as int, at + 24) =~= fat_clause(region));
        Ok(region)
    } else {
        let flags = read_u16(b, at);
        let try_offset = read_u16(b, at + 2);
        let try_length = b[at + 4];
        let handler_offset = read_u16(b, at + 5);
        let handler_length = b[at + 7];
        let token = read_u32(b, at + 8);
        proof {
            if witnessed {
                assert(b@.subrange(at as int, at + 2) =~= cl.subrange(0, 2));
                assert(b@.subrange(at + 2, at + 4) =~= cl.subrange(2, 4));
                assert(b@.subrange(at + 5, at + 7) =~= cl.subrange(5, 7));
                assert(b@.subrange(at + 8, at + 12) =~= cl.subrange(8, 12));
                let f = small_clause(gx);
                assert(f.subrange(0, 2) =~= le16(kind_flags(gx.kind) as u16));
                assert(f.subrange(2, 4) =~= le16(gx.try_offset as u16));
                assert(f.subrange(5, 7) =~= le16(gx.handler_offset as u16));
                assert(f.subrange(8, 12) =~= le32(gx.class_token_or_filter_offset));
                assert(try_length == f[4] && handler_length == f[7]);
                lemma_le16_injective(flags, kind_flags(gx.kind) as u16);
                lemma_le16_injective(try_offset, gx.try_offset as u16);
                lemma_le16_injective(handler_offset, gx.handler_offset as u16);
                lemma_le32_injective(token, gx.class_token_or_filter_offset);
            }
        }
        let kind = match kind_of_flags(flags as u32) {
            None => {
                return Err(DecodeError::MalformedSection);
            },
            Some(k) => k,
        };
        let region = ExceptionRegion {
            kind,
            try_offset: try_offset as u32,
            try_length: try_length as u32,
            handler_offset: handler_offset as u32,
            handler_length: handler_length as u32,
            class_token_or_filter_offset: token,
        };
        assert(b@.subrange(at as int, at + 12) =~= small_clause(region));
        Ok(region)
    }
}

/// `x` rounded up to a multiple of four.
pub open spec fn align4(x: int) -> int {
    (x + 3) / 4 * 4
}

/// Whether the table that starts at `pos` uses fat clauses.
pub open spec fn table_is_fat(b: Seq<u8>, pos: int) -> bool {
    (b[pos] / 64) % 2 == 1
}

/// The size field of the table that starts at `pos`.
pub open spec fn table_size(b: Seq<u8>, pos: int) -> int {
    if table_is_fat(b, pos) {
        b[pos + 1] + 256 * b[pos + 2] + 65536 * b[pos + 3]
    } else {
        b[pos + 1] as int
    }
}

pub open spec fn clause_size(fat: bool) -> int {
    if fat {
        24
    } else {
        12
    }
}

/// From `pos` to the end, `b` holds a chain of exception-handling tables whose clauses,
/// in order, are `rs`.
pub open spec fn table_chain(b: Seq<u8>, pos: int, rs: Seq<ExceptionRegion>) -> bool
    decreases b.len() - pos,
{
    if pos < 0 || pos + 4 > b.len() {
        false
    } else {
        let fat = table_is_fat(b, pos);
        let size = table_size(b, pos);
        let n = (size - 4) / clause_size(fat);
        let end = pos + size;
        if !(b[pos] % 64 == 1 && size >= 4 && (size - 4) % clause_size(fat) == 0 && end <= b.len()
            && n <= rs.len() && b.subrange(pos + 4, end) == clauses(rs.subrange(0, n), fat) && (fat
            || all_fit_small(rs.subrange(0, n)))) {
            false
        } else if b[pos] / 128 == 1 {
            if align4(end) <= pos || align4(end) > b.len() {
                false
            } else {
                table_chain(b, align4(end), rs.subrange(n, rs.len() as int))
            }
        } else {
            end == b.len() && n == rs.len()
        }
    }
}

/// From `start` to its end, `b` holds the one table that the encoder writes for `rs0`.
pub open spec fn table_written_at(b: Seq<u8>, start: int, rs0: Seq<ExceptionRegion>) -> bool {
    &&& 0 <= start <= b.len()
    &&& 0 < rs0.len() <= MAX_FAT_CLAUSES
    &&& b.subrange(start, b.len() as int) == section_bytes(rs0)
}

/// Reads the chain of exception-handling tables that starts at `start` and must end
/// exactly at the end of `b`.
/// Clause `i` of a table whose clauses start at `pos + 4`.
proof fn lemma_clause_bytes(
    b: Seq<u8>,
    pos: int,
    size: int,
    t: Seq<ExceptionRegion>,
    fat: bool,
    i: int,
)
    requires
        0 <= pos,
        pos + size <= b.len(),
        0 <= i < t.len(),
        size == 4 + clause_len(fat) * t.len(),
        b.subrange(pos + 4, pos + size) == clauses(t, fat),
    ensures
        b.subrange(pos + 4 + clause_len(fat) * i, pos + 4 + clause_len(fat) * i + clause_len(fat))
            == clause_of(t[i], fat),
{
    lemma_clauses_parts(t, fat, i);
    let c = clause_len(fat);
    assert(c * i + c <= c * t.len()) by (nonlinear_arith)
        requires
            i < t.len(),
            c > 0,
    ;
    let cl = clauses(t, fat);
    assert(b.subrange(pos + 4 + c * i, pos + 4 + c * i + c) =~= cl.subrange(c * i, c * i + c));
}

/// One step along a chain of tables.
proof fn lemma_chain_step(b: Seq<u8>, pos: int, rest: Seq<ExceptionRegion>)
    requires
        table_chain(b, pos, rest),
    ensures
        ({
            let fat = table_is_fat(b, pos);
            let size = table_size(b, pos);
            let n = (size - 4) / clause_size(fat);
            let end = pos + size;
            &&& 0 <= pos && pos + 4 <= b.len()
            &&& b[pos] % 64 == 1
            &&& size >= 4 && (size - 4) % clause_size(fat) == 0 && end <= b.len()
            &&& n <= rest.len()
            &&& b.subrange(pos + 4, end) == clauses(rest.subrange(0, n), fat)
            &&& (fat || all_fit_small(rest.subrange(0, n)))
            &&& b[pos] / 128 == 1 ==> align4(end) > pos && align4(end) + 4 <= b.len() && table_chain(
                b,
                align4(end),
                rest.subrange(n, rest.len() as int),
            )
            &&& b[pos] / 128 != 1 ==> end == b.len() && n == rest.len()
        }),
{
    let size = table_size(b, pos);
    let end = pos + size;
    if b[pos] / 128 == 1 {
        let n = (size - 4) / clause_size(table_is_fat(b, pos));
        let tail = rest.subrange(n, rest.len() as int);
        assert(table_chain(b, align4(end), tail));
    }
}

/// The one table that the encoder writes is a chain of tables holding the same regions.
proof fn lemma_written_table_chains(b: Seq<u8>, start: int, rs0: Seq<ExceptionRegion>)
    requires
        table_written_at(b, start, rs0),
    ensures
        table_chain(b, start, rs0),
{
    let sec = section_bytes(rs0);
    let fat = needs_fat(rs0);
    let n0 = rs0.len() as int;
    lemma_clauses_parts(rs0, fat, 0);
    assert forall|i: int| 0 <= i < sec.len() implies b[start + i] == sec[i] by {
        assert(b.subrange(start, b.len() as int)[i] == sec[i]);
    }
    assert(b.len() == start + sec.len());
    assert(b[start] == sec[0] && b[start + 1] == sec[1] && b[start + 2] == sec[2] && b[start
        + 3] == sec[3]);
    let size = 4 + clause_len(fat) * n0;
    if fat {
        assert(size <= 0xFF_FFFF);
        lemma_three_bytes_value(size as u32);
    }
    assert(table_is_fat(b, start) == fat);
    assert(table_size(b, start) == size);
    assert((size - 4) / clause_size(fat) == n0) by (nonlinear_arith)
        requires
            size == 4 + clause_size(fat) * n0,
            clause_size(fat) > 0,
    ;
    assert((size - 4) % clause_size(fat) == 0) by (nonlinear_arith)
        requires
            size == 4 + clause_size(fat) * n0,
            clause_size(fat) > 0,
    ;
    assert(rs0.subrange(0, n0) =~= rs0);
    assert(b.subrange(start + 4, start + size) =~= sec.subrange(4, sec.len() as int));
    assert(sec.subrange(4, sec.len() as int) =~= clauses(rs0, fat));
}

/// Reads the chain of exception-handling tables that starts at `start` and must end
/// exactly at the end of `b`. Where `b` holds such a chain, it is read back exactly.
#[verifier::rlimit(100)]
fn decode_sections(
    b: &[u8],
    start: usize,
    Ghost(w): Ghost<Option<Seq<ExceptionRegion>>>,
) -> (r: Result<Vec<ExceptionRegion>, DecodeError>)
    ensures
        r matches Ok(rs) ==> table_chain(b@, start as int, rs@),
        w matches Some(rs0) ==> (table_chain(b@, start as int, rs0) ==> (r matches Ok(rs) && rs@
            == rs0)),
{
    let ghost witnessed = w matches Some(rs0) && table_chain(b@, start as int, rs0);
    let ghost grs: Seq<ExceptionRegion> = if w is Some {
        w->Some_0
    } else {
        Seq::empty()
    };
    let ghost mut rest: Seq<ExceptionRegion> = grs;
    let mut rs: Vec<ExceptionRegion> = Vec::new();
    let mut pos: usize = start;
    assert forall|tail: Seq<ExceptionRegion>| #[trigger]
        table_chain(b@, pos as int, tail) implies table_chain(b@, start as int, rs@ + tail) by {
        assert(rs@ + tail =~= tail);
    }
    assert(rs@ + rest =~= grs);
    loop
        invariant
            start <= pos,
            forall|tail: Seq<ExceptionRegion>| #[trigger]
                table_chain(b@, pos as int, tail) ==> table_chain(b@, start as int, rs@ + tail),
            witnessed == (w matches Some(rs0) && table_chain(b@, start as int, rs0)),
            witnessed ==> table_chain(b@, pos as int, rest) && rs@ + rest == grs && grs
                == w->Some_0,
        decreases b@.len() - pos,
    {
        if pos > b.len() || b.len() - pos < 4 {
            return Err(DecodeError::TruncatedStream);
        }
        let kind = b[pos];
        if kind % 64 != 1 {
            return Err(DecodeError::MalformedSection);
        }
        let fat = (kind / 64) % 2 == 1;
        let more = kind / 128 == 1;
        let size: usize = if fat {
            b[pos + 1] as usize + (b[pos + 2] as usize) * 256 + (b[pos + 3] as usize) * 65536
        } else {
            b[pos + 1] as usize
        };
        assert(size == table_size(b@, pos as int));
        let clause: usize = if fat {
            24
        } else {
            12
        };
        if size < 4 || (size - 4) % clause != 0 {
            return Err(DecodeError::MalformedSection);
        }
        if size > b.len() - pos {
            return Err(DecodeError::TruncatedStream);
        }
        let count = (size - 4) / clause;
        let ghost table_w = rest.subrange(0, count as int);
        let ghost before = rs@;
        proof {
            if witnessed {
                lemma_chain_step(b@, pos as int, rest);
                lemma_clauses_parts(table_w, fat, 0);
            }
        }
        let mut i: usize = 0;
        while i < count
            invariant
                i <= count,
                count == (size - 4) / (clause as int),
                (size - 4) % (clause as int) == 0,
                clause == clause_size(fat),
                pos + size <= b.len(),
                size >= 4,
                rs@.len() == before.len() + i,
                rs@.subrange(0, before.len() as int) == before,
                b@.subrange(pos + 4, pos + 4 + i * clause) == clauses(
                    rs@.subrange(before.len() as int, before.len() + i),
                    fat,
                ),
                fat || all_fit_small(rs@.subrange(before.len() as int, before.len() + i)),
                witnessed == (w matches Some(rs0) && table_chain(b@, start as int, rs0)),
                witnessed ==> {
                    &&& table_w.len() == count
                    &&& b@.subrange(pos + 4, pos + size) == clauses(table_w, fat)
                    &&& clauses(table_w, fat).len() == clause_len(fat) * count
                    &&& (fat || all_fit_small(table_w))
                    &&& rs@ == before + table_w.subrange(0, i as int)
                },
            decreases count - i,
        {
            assert(i * clause + clause <= count * clause) by (nonlinear_arith)
                requires
                    i < count,
            ;
            assert(count * clause <= size - 4) by (nonlinear_arith)
                requires
                    count == (size - 4) / (clause as int),
                    clause > 0,
                    size >= 4,
            ;
            let at = pos + 4 + i * clause;
            proof {
                if witnessed {
                    assert(size == 4 + clause_len(fat) * table_w.len()) by (nonlinear_arith)
                        requires
                            count == (size - 4) / (clause as int),
                            (size - 4) % (clause as int) == 0,
                            clause == clause_len(fat),
                            table_w.len() == count,
                            clause > 0,
                    ;
                    assert(at == pos + 4 + clause_len(fat) * i) by (nonlinear_arith)
                        requires
                            at == pos + 4 + i * clause,
                            clause == clause_len(fat),
                    ;
                    lemma_clause_bytes(b@, pos as int, size as int, table_w, fat, i as int);
                    if !fat {
                        assert(fits_small(table_w[i as int]));
                    }
                }
            }
            let ghost wx: Option<ExceptionRegion> = if witnessed {
                Some(table_w[i as int])
            } else {
                None
            };
            let region = match decode_clause(b, at, fat, Ghost(wx)) {
                Err(e) => {
                    return Err(e);
                },
                Ok(r) => r,
            };
            let ghost prev = rs@;
            rs.push(region);
            proof {
                assert(i * clause + clause == (i + 1) * clause) by (nonlinear_arith);
                assert(rs@.subrange(0, before.len() as int) =~= prev.subrange(
                    0,
                    before.len() as int,
                ));
                let t = rs@.subrange(before.len() as int, before.len() + i + 1);
                assert(t.drop_last() =~= prev.subrange(before.len() as int, before.len() + i));
                if !fat {
                    assert forall|k: int| 0 <= k < t.len() implies fits_small(#[trigger] t[k]) by {
                        if k < t.len() - 1 {
                            let d = prev.subrange(before.len() as int, before.len() + i);
                            assert(t[k] == d[k]);
                            assert(fits_small(d[k]));
                        } else {
                            assert(t[k] == region);
                            assert(fits_small(region));
                        }
                    }
                }
                if witnessed {
                    assert(rs@ =~= before + table_w.subrange(0, i + 1));
                }
                assert(b@.subrange(pos + 4, pos + 4 + (i + 1) * clause) =~= b@.subrange(
                    pos + 4,
                    pos + 4 + i * clause,
                ) + b@.subrange(at as int, at + clause));
            }
            i = i + 1;
        }
        let ghost table = rs@.subrange(before.len() as int, rs@.len() as int);
        assert(count * clause == size - 4) by (nonlinear_arith)
            requires
                count == (size - 4) / (clause as int),
                (size - 4) % (clause as int) == 0,
                clause > 0,
        ;
        assert(rs@ =~= before + table);
        proof {
            if witnessed {
                assert(table_w.subrange(0, count as int) =~= table_w);
                assert(table =~= table_w);
            }
        }
        let end = pos + size;
        if !more {
            if end != b.len() {
                return Err(DecodeError::SizeMismatch);
            }
            proof {
                assert(table.subrange(0, count as int) =~= table);
                assert(table_chain(b@, pos as int, table));
                if witnessed {
                    lemma_chain_step(b@, pos as int, rest);
                    assert(rest =~= table_w);
                    assert(rs@ =~= grs);
                }
            }
            return Ok(rs);
        }
        proof {
            if witnessed {
                lemma_chain_step(b@, pos as int, rest);
                assert(align4(end as int) >= end) by (nonlinear_arith)
                    requires
                        align4(end as int) == (end + 3) / 4 * 4,
                ;
            }
        }
        if end > b.len() - 3 {
            return Err(DecodeError::TruncatedStream);
        }
        let next = (end + 3) / 4 * 4;
        assert(next >= end) by (nonlinear_arith)
            requires
                next == (end + 3) / 4 * 4,
        ;
        proof {
            assert forall|tail: Seq<ExceptionRegion>| #[trigger]
                table_chain(b@, next as int, tail) implies table_chain(
                b@,
                start as int,
                rs@ + tail,
            ) by {
                let whole = table + tail;
                assert(whole.subrange(0, count as int) =~= table);
                assert(whole.subrange(count as int, whole.len() as int) =~= tail);
                assert(table_chain(b@, pos as int, whole));
                assert(before + whole =~= rs@ + tail);
            }
            if witnessed {
                let new_rest = rest.subrange(count as int, rest.len() as int);
                assert(rs@ + new_rest =~= grs);
                rest = new_rest;
            }
        }
        pos = next;
    }
}

/// What the encoder wrote with the compact header, read back.
proof fn lemma_witness_compact(m0: MethodBody, b: Seq<u8>)
    requires
        body_well_formed(m0),
        body_encoding(m0) == Ok::<Seq<u8>, crate::error::EncodeError>(b),
        compact_eligible(
            m0.header,
            stream_encoding(m0.instructions@)->Ok_0.len(),
            m0.regions@.len(),
        ),
    ensures
        b.len() >= 1,
        b[0] % 4 == 2,
        b.len() == 1 + b[0] / 4,
        stream_written_at(b, 1, (b[0] / 4) as int, m0.instructions@),
{
    crate::body::lemma_stream_len(m0.instructions@);
    let code0 = stream_encoding(m0.instructions@)->Ok_0;
    assert(b == seq![compact_header_byte(code0.len())] + code0);
    assert(b.subrange(1, 1 + code0.len() as int) =~= code0);
}

/// What the encoder wrote with the extended header, read back.
proof fn lemma_witness_extended(m0: MethodBody, b: Seq<u8>)
    requires
        body_well_formed(m0),
        body_encoding(m0) == Ok::<Seq<u8>, crate::error::EncodeError>(b),
        !compact_eligible(
            m0.header,
            stream_encoding(m0.instructions@)->Ok_0.len(),
            m0.regions@.len(),
        ),
    ensures
        ({
            let cs0 = stream_encoding(m0.instructions@)->Ok_0.len();
            let more = m0.regions@.len() > 0;
            &&& b.len() >= 12
            &&& b[0] % 4 == 3
            &&& b[1] / 16 == 3
            &&& cs0 <= u32::MAX
            &&& le32(cs0 as u32) == b.subrange(4, 8)
            &&& stream_written_at(b, 12, cs0 as int, m0.instructions@)
            &&& ((b[0] / 8) % 2 == 1) == more
            &&& !more ==> b.len() == 12 + cs0
            &&& more ==> 12 + cs0 + 3 <= b.len() && table_written_at(
                b,
                align4(12 + cs0 as int),
                m0.regions@,
            )
        }),
{
    crate::body::lemma_stream_len(m0.instructions@);
    let code0 = stream_encoding(m0.instructions@)->Ok_0;
    let cs0 = code0.len();
    let n0 = m0.regions@.len();
    lemma_extended_flags_bits(header_init_locals(m0.header), n0 > 0);
    crate::theorems::lemma_encoder_wrote_extended(m0, b, code0);
    let head = b.subrange(0, 12);
    assert(b[0] == head[0] && b[1] == head[1]);
    assert(b.subrange(4, 8) =~= head.subrange(4, 8));
    let full = crate::body::extended_header_bytes(
        header_max_stack(m0.header),
        cs0 as u32,
        header_locals(m0.header),
        header_init_locals(m0.header),
        n0 > 0,
    );
    if n0 > 0 {
        let pad = crate::body::padding(cs0);
        let sec = section_bytes(m0.regions@);
        assert(b == full + code0 + pad + sec);
        assert(b.subrange(12, 12 + cs0 as int) =~= code0);
        crate::region::lemma_clauses_parts(m0.regions@, needs_fat(m0.regions@), 0);
        let tail = b.subrange(12 + cs0 as int, b.len() as int);
        assert(align4(12 + cs0 as int) == 12 + cs0 + pad.len());
        assert(b.subrange(align4(12 + cs0 as int), b.len() as int) =~= tail.subrange(
            pad.len() as int,
            tail.len() as int,
        ));
        assert(tail.subrange(pad.len() as int, tail.len() as int) =~= sec);
    } else {
        assert(b == full + code0);
        assert(b.subrange(12, 12 + cs0 as int) =~= code0);
    }
}

/// Decodes the method body held by the first `declared_size` bytes of `buffer`. Bytes
/// that the encoder wrote for a well-formed body, and any bytes that hold a method body
/// in a layout the decoder reads, always decode.
pub fn decode(buffer: &[u8], declared_size: usize) -> (r: Result<MethodBody, DecodeError>)
    ensures
        r matches Ok(m) ==> declared_size <= buffer@.len() && decoded_from(
            buffer@.subrange(0, declared_size as int),
            m,
        ),
        declared_size > buffer@.len() ==> r == Err::<MethodBody, DecodeError>(
            DecodeError::TruncatedStream,
        ),
        declared_size == 0 ==> r == Err::<MethodBody, DecodeError>(DecodeError::TruncatedStream),
        0 < declared_size <= buffer@.len() && buffer@[0] % 4 < 2 ==> r == Err::<
            MethodBody,
            DecodeError,
        >(DecodeError::UnsupportedHeaderVariant),
        0 < declared_size < 12 && declared_size <= buffer@.len() && buffer@[0] % 4 == 3 ==> r
            == Err::<MethodBody, DecodeError>(DecodeError::TruncatedStream),
        12 <= declared_size <= buffer@.len() && buffer@[0] % 4 == 3 && buffer@[1] / 16 != 3 ==> r
            == Err::<MethodBody, DecodeError>(DecodeError::UnsupportedHeaderVariant),
        forall|m0: MethodBody|
            declared_size <= buffer@.len() && body_well_formed(m0) && #[trigger] body_encoding(m0)
                == Ok::<Seq<u8>, crate::error::EncodeError>(
                buffer@.subrange(0, declared_size as int),
            ) ==> r is Ok,
        declared_size <= buffer@.len() && (exists|m: MethodBody|
            decoded_from(buffer@.subrange(0, declared_size as int), m)) ==> r is Ok,
{
    if declared_size > buffer.len() {
        return Err(DecodeError::TruncatedStream);
    }
    let b = slice_subrange(buffer, 0, declared_size);
    let ghost witnessed = exists|m0: MethodBody|
        body_well_formed(m0) && #[trigger] body_encoding(m0) == Ok::<
            Seq<u8>,
            crate::error::EncodeError,
        >(b@);
    let ghost gm: Option<MethodBody> = if witnessed {
        Some(
            choose|m0: MethodBody|
                body_well_formed(m0) && #[trigger] body_encoding(m0) == Ok::<
                    Seq<u8>,
                    crate::error::EncodeError,
                >(b@),
        )
    } else {
        None
    };
    let ghost gd: Option<MethodBody> = if exists|m: MethodBody| decoded_from(b@, m) {
        Some(choose|m: MethodBody| decoded_from(b@, m))
    } else {
        None
    };
    decode_body(b, Ghost(gm), Ghost(gd))
}

/// Decodes the body that fills `b`.
fn decode_body(
    b: &[u8],
    Ghost(w): Ghost<Option<MethodBody>>,
    Ghost(d): Ghost<Option<MethodBody>>,
) -> (r: Result<
    MethodBody,
    DecodeError,
>)
    ensures
        r matches Ok(m) ==> decoded_from(b@, m),
        b@.len() == 0 ==> r == Err::<MethodBody, DecodeError>(DecodeError::TruncatedStream),
        0 < b@.len() && b@[0] % 4 < 2 ==> r == Err::<MethodBody, DecodeError>(
            DecodeError::UnsupportedHeaderVariant,
        ),
        0 < b@.len() < 12 && b@[0] % 4 == 3 ==> r == Err::<MethodBody, DecodeError>(
            DecodeError::TruncatedStream,
        ),
        12 <= b@.len() && b@[0] % 4 == 3 && b@[1] / 16 != 3 ==> r == Err::<MethodBody, DecodeError>(
            DecodeError::UnsupportedHeaderVariant,
        ),
        w matches Some(m0) ==> (body_well_formed(m0) && body_encoding(m0) == Ok::<
            Seq<u8>,
            crate::error::EncodeError,
        >(b@) ==> r is Ok),
        d matches Some(m) ==> (decoded_from(b@, m) ==> r is Ok),
{
    let ghost dwit = d matches Some(m) && decoded_from(b@, m);
    let ghost gd: MethodBody = if d is Some {
        d->Some_0
    } else {
        arbitrary()
    };
    let ghost witnessed = w matches Some(m0) && body_well_formed(m0) && body_encoding(m0) == Ok::<
        Seq<u8>,
        crate::error::EncodeError,
    >(b@);
    let ghost gm: MethodBody = if w is Some {
        w->Some_0
    } else {
        arbitrary()
    };
    let ghost compact0 = compact_eligible(
        gm.header,
        stream_encoding(gm.instructions@)->Ok_0.len(),
        gm.regions@.len(),
    );
    proof {
        if witnessed {
            if compact0 {
                lemma_witness_compact(gm, b@);
            } else {
                lemma_witness_extended(gm, b@);
            }
        }
    }
    if b.len() == 0 {
        return Err(DecodeError::TruncatedStream);
    }
    let b0 = b[0];
    if b0 % 4 == 2 {
        let code_size = b0 / 4;
        proof {
            if dwit {
                assert(gd.header is Compact);
            }
        }
        let instructions = match decode_stream(b, 1, code_size as u32, Ghost(if witnessed {
            Some(gm.instructions@)
        } else if dwit {
            Some(gd.instructions@)
        } else {
            None
        })) {
            Err(e) => {
                return Err(e);
            },
            Ok(s) => s,
        };
        if 1 + code_size as usize != b.len() {
            return Err(DecodeError::SizeMismatch);
        }
        let regions: Vec<ExceptionRegion> = Vec::new();
        return Ok(
            MethodBody { header: MethodHeader::Compact { code_size }, instructions, regions },
        );
    }
    if b0 % 4 != 3 {
        return Err(DecodeError::UnsupportedHeaderVariant);
    }
    decode_extended(b, Ghost(if witnessed {
        Some(gm)
    } else {
        None
    }), Ghost(if dwit {
        Some(gd)
    } else {
        None
    }))
}

/// Decodes the body that fills `b` and starts with an extended header tag.
#[verifier::rlimit(60)]
fn decode_extended(
    b: &[u8],
    Ghost(w): Ghost<Option<MethodBody>>,
    Ghost(d): Ghost<Option<MethodBody>>,
) -> (r: Result<
    MethodBody,
    DecodeError,
>)
    requires
        b@.len() > 0,
        b@[0] % 4 == 3,
    ensures
        r matches Ok(m) ==> decoded_from(b@, m),
        b@.len() < 12 ==> r == Err::<MethodBody, DecodeError>(DecodeError::TruncatedStream),
        12 <= b@.len() && b@[1] / 16 != 3 ==> r == Err::<MethodBody, DecodeError>(
            DecodeError::UnsupportedHeaderVariant,
        ),
        w matches Some(m0) ==> (body_well_formed(m0) && body_encoding(m0) == Ok::<
            Seq<u8>,
            crate::error::EncodeError,
        >(b@) ==> r is Ok),
        d matches Some(m) ==> (decoded_from(b@, m) ==> r is Ok),
{
    let ghost dwit = d matches Some(m) && decoded_from(b@, m);
    let ghost gd: MethodBody = if d is Some {
        d->Some_0
    } else {
        arbitrary()
    };
    let ghost witnessed = w matches Some(m0) && body_well_formed(m0) && body_encoding(m0) == Ok::<
        Seq<u8>,
        crate::error::EncodeError,
    >(b@);
    let ghost gm: MethodBody = if w is Some {
        w->Some_0
    } else {
        arbitrary()
    };
    let ghost cs0 = stream_encoding(gm.instructions@)->Ok_0.len();
    proof {
        if witnessed {
            if compact_eligible(gm.header, cs0, gm.regions@.len()) {
                lemma_witness_compact(gm, b@);
            } else {
                lemma_witness_extended(gm, b@);
            }
        }
    }
    let b0 = b[0];
    if b.len() < EXTENDED_HEADER_SIZE {
        return Err(DecodeError::TruncatedStream);
    }
    if b[1] / 16 != 3 {
        return Err(DecodeError::UnsupportedHeaderVariant);
    }
    let more_sections = (b0 / 8) % 2 == 1;
    let init_locals = (b0 / 16) % 2 == 1;
    let max_stack = read_u16(b, 2);
    let code_size = read_u32(b, 4);
    let local_var_sig_tok = read_u32(b, 8);
    proof {
        if witnessed {
            lemma_le32_injective(code_size, cs0 as u32);
        }
        if dwit {
            assert(gd.header is Extended);
            if let MethodHeader::Extended { code_size: c, .. } = gd.header {
                lemma_le32_injective(code_size, c);
            }
            if header_more_sections(gd.header) {
                lemma_chain_step(b@, align4(12 + code_size as int), gd.regions@);
                assert(align4(12 + code_size as int) >= 12 + code_size) by (nonlinear_arith)
                    requires
                        align4(12 + code_size as int) == (12 + code_size + 3) / 4 * 4,
                ;
            }
        }
    }
    let instructions = match decode_stream(b, EXTENDED_HEADER_SIZE, code_size, Ghost(if witnessed {
        Some(gm.instructions@)
    } else if dwit {
        Some(gd.instructions@)
    } else {
        None
    })) {
        Err(e) => {
            return Err(e);
        },
        Ok(s) => s,
    };
    let code_end = EXTENDED_HEADER_SIZE + code_size as usize;
    let header = MethodHeader::Extended {
        max_stack,
        code_size,
        local_var_sig_tok,
        init_locals,
        more_sections,
    };
    if !more_sections {
        if code_end != b.len() {
            return Err(DecodeError::SizeMismatch);
        }
        let regions: Vec<ExceptionRegion> = Vec::new();
        return Ok(MethodBody { header, instructions, regions });
    }
    if code_end > b.len() - 3 {
        return Err(DecodeError::TruncatedStream);
    }
    let aligned = (code_end + 3) / 4 * 4;
    proof {
        if witnessed && !compact_eligible(gm.header, cs0, gm.regions@.len()) && gm.regions@.len()
            > 0 {
            lemma_written_table_chains(b@, aligned as int, gm.regions@);
        }
    }
    let regions = match decode_sections(b, aligned, Ghost(if witnessed {
        Some(gm.regions@)
    } else if dwit {
        Some(gd.regions@)
    } else {
        None
    })) {
        Err(e) => {
            return Err(e);
        },
        Ok(rs) => rs,
    };
    if !check_nesting(&regions) {
        return Err(DecodeError::InvalidRegionNesting);
    }
    Ok(MethodBody { header, instructions, regions })
}

} // verus!
