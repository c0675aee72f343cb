//! What holds of the codec as a whole.

use vstd::prelude::*;
use crate::body::{
    body_encoding, compact_eligible, compact_header_byte, extended_flags, header_code_size,
    header_init_locals, header_locals, header_max_stack, lemma_stream_len, MethodBody,
    MethodHeader, DEFAULT_MAX_STACK,
};
use crate::bytes::{le16, le32, lemma_le16_injective, lemma_le32_injective, lemma_three_bytes_value};
use crate::body::{lemma_extended_flags_bits, padding};
use crate::decoder::{
    align4, clause_size, decoded_from, header_more_sections, header_read_from, table_chain,
    table_is_fat, table_size,
};
use crate::region::{
    clauses, fat_clause, kind_flags, needs_fat, section_bytes, ExceptionRegion, MAX_FAT_CLAUSES,
};
use crate::error::EncodeError;
use crate::instruction::{
    instruction_well_formed, offset_of, Opcode,
    code_len, instr_encoding, label_index, lemma_label_index_found, lemma_prefix_err_persists,
    stream_encoding, stream_prefix, Instruction, Operand,
};

verus! {

/// The header of `b` is laid out as the encoder lays out header `h`: compact, or
/// extended only where compact is not allowed, with no flag bits but the ones the
/// encoder sets.
pub open spec fn header_laid_out_canonically(b: Seq<u8>, h: MethodHeader, n_regions: nat) -> bool {
    match h {
        MethodHeader::Compact { .. } => true,
        MethodHeader::Extended { init_locals, more_sections, .. } => {
            &&& !compact_eligible(h, header_code_size(h), n_regions)
            &&& b[0] == extended_flags(init_locals, more_sections)
            &&& b[1] == 0x30
        },
    }
}

/// The sections of `b`, which start at `p`, are laid out as the encoder lays out the
/// regions `rs`: zero padding, then one table, fat only where small will not do, with
/// zero reserved bytes.
pub open spec fn sections_laid_out_canonically(b: Seq<u8>, code_end: int, rs: Seq<ExceptionRegion>) -> bool {
    let p = align4(code_end);
    &&& rs.len() > 0
    &&& forall|i: int| code_end <= i < p ==> b[i] == 0
    &&& b[p] == if needs_fat(rs) {
        0x41u8
    } else {
        0x01u8
    }
    &&& !needs_fat(rs) ==> b[p + 2] == 0 && b[p + 3] == 0
}

/// `b` is laid out as the encoder lays out the body decoded from it.
pub open spec fn laid_out_canonically(b: Seq<u8>, m: MethodBody) -> bool {
    &&& header_laid_out_canonically(b, m.header, m.regions@.len())
    &&& header_more_sections(m.header) ==> sections_laid_out_canonically(
        b,
        (12 + header_code_size(m.header)) as int,
        m.regions@,
    )
}

proof fn lemma_three_bytes(v: u32, b1: u8, b2: u8, b3: u8)
    requires
        v == b1 as u32 + 256 * (b2 as u32) + 65536 * (b3 as u32),
    ensures
        le32(v).subrange(0, 3) == seq![b1, b2, b3],
{
    assert((v & 0xff) as u8 == b1 && ((v >> 8) & 0xff) as u8 == b2 && ((v >> 16) & 0xff) as u8
        == b3) by (bit_vector)
        requires
            v == b1 as u32 + 256 * (b2 as u32) + 65536 * (b3 as u32),
    ;
    assert(le32(v).subrange(0, 3) =~= seq![b1, b2, b3]);
}

/// The sections of a canonically laid-out body are the encoder's padding and table.
proof fn lemma_sections_round_trip(b: Seq<u8>, code_end: int, rs: Seq<ExceptionRegion>)
    requires
        code_end >= 12,
        code_end <= b.len(),
        table_chain(b, align4(code_end), rs),
        sections_laid_out_canonically(b, code_end, rs),
    ensures
        rs.len() <= MAX_FAT_CLAUSES,
        b.subrange(code_end, b.len() as int) == padding((code_end - 12) as nat) + section_bytes(
            rs,
        ),
{
    let p = align4(code_end);
    let fat = table_is_fat(b, p);
    let size = table_size(b, p);
    let n = (size - 4) / clause_size(fat);
    assert(fat == needs_fat(rs));
    assert(p + size == b.len() && n == rs.len());
    assert(rs.subrange(0, n) =~= rs);
    assert(size == 4 + clause_size(fat) * n);
    assert(p - code_end == (4 - (code_end - 12) % 4) % 4);
    assert(b.subrange(code_end, p) =~= padding((code_end - 12) as nat));
    if fat {
        assert(size <= 0xFF_FFFF);
        lemma_three_bytes(size as u32, b[p + 1], b[p + 2], b[p + 3]);
        assert(b.subrange(p, p + 4) =~= seq![0x41u8] + le32((4 + 24 * rs.len()) as u32).subrange(
            0,
            3,
        ));
    } else {
        assert(b.subrange(p, p + 4) =~= seq![0x01u8, (4 + 12 * rs.len()) as u8, 0u8, 0u8]);
    }
    assert(b.subrange(code_end, b.len() as int) =~= b.subrange(code_end, p) + (b.subrange(
        p,
        p + 4,
    ) + b.subrange(p + 4, b.len() as int)));
}

/// The extended layout with sections, taken apart from the rest of the round trip.
proof fn lemma_round_trip_with_sections(
    b: Seq<u8>,
    m: MethodBody,
    code: Seq<u8>,
    head: Seq<u8>,
)
    requires
        m.header is Extended,
        header_more_sections(m.header),
        code.len() == header_code_size(m.header),
        stream_encoding(m.instructions@) == Ok::<Seq<u8>, EncodeError>(code),
        b.subrange(12, (12 + code.len()) as int) == code,
        b.subrange(0, 12) == head,
        head == crate::body::extended_header_bytes(
            header_max_stack(m.header),
            code.len() as u32,
            header_locals(m.header),
            header_init_locals(m.header),
            true,
        ),
        12 + code.len() <= b.len(),
        table_chain(b, align4(12 + code.len() as int), m.regions@),
        sections_laid_out_canonically(b, 12 + code.len() as int, m.regions@),
    ensures
        body_encoding(m) == Ok::<Seq<u8>, EncodeError>(b),
{
    let cs = code.len() as int;
    lemma_sections_round_trip(b, 12 + cs, m.regions@);
    assert(b =~= head + code + b.subrange(12 + cs, b.len() as int));
    assert(b =~= head + code + padding(code.len()) + section_bytes(m.regions@));
}

/// Round trip: a body decoded from bytes that are laid out as the encoder lays bodies out
/// encodes back to exactly those bytes.
pub proof fn theorem_round_trip(b: Seq<u8>, m: MethodBody)
    requires
        decoded_from(b, m),
        laid_out_canonically(b, m),
    ensures
        body_encoding(m) == Ok::<Seq<u8>, EncodeError>(b),
{
    let cs = header_code_size(m.header);
    lemma_stream_len(m.instructions@);
    match m.header {
        MethodHeader::Compact { code_size } => {
            assert(!header_more_sections(m.header));
            let code = b.subrange(1, (1 + cs) as int);
            assert(b =~= seq![compact_header_byte(cs)] + code);
        },
        MethodHeader::Extended {
            max_stack,
            code_size,
            local_var_sig_tok,
            init_locals,
            more_sections,
        } => {
            let head = crate::body::extended_header_bytes(
                max_stack,
                code_size,
                local_var_sig_tok,
                init_locals,
                more_sections,
            );
            assert(b.subrange(0, 12) =~= head);
            let code = b.subrange(12, (12 + cs) as int);
            if more_sections {
                lemma_round_trip_with_sections(b, m, code, head);
            } else {
                assert(b =~= head + code);
            }
        },
    }
}

/// Header minimality: a body whose code fits the compact header, with no regions, the
/// default stack depth and no locals, is written with the compact header.
pub proof fn theorem_compact_when_eligible(m: MethodBody)
    requires
        stream_encoding(m.instructions@) is Ok,
        code_len(m.instructions@) <= 63,
        m.regions@.len() == 0,
        header_max_stack(m.header) <= DEFAULT_MAX_STACK,
        header_locals(m.header) == 0,
    ensures
        body_encoding(m) matches Ok(b) && b.len() == code_len(m.instructions@) + 1 && b[0]
            == compact_header_byte(code_len(m.instructions@)) && b[0] % 4 == 2,
{
    lemma_stream_len(m.instructions@);
}

/// A body that may not use the compact header is written with the extended one.
pub proof fn theorem_extended_when_not_eligible(m: MethodBody)
    requires
        body_encoding(m) is Ok,
        !compact_eligible(m.header, code_len(m.instructions@), m.regions@.len()),
    ensures
        body_encoding(m)->Ok_0.len() >= 12,
        body_encoding(m)->Ok_0[0] % 4 == 3,
{
    lemma_stream_len(m.instructions@);
}

/// Offset integrity: after encoding, the header's code-size field holds the sum of the
/// lengths of the instructions.
pub proof fn theorem_code_size_field(m: MethodBody)
    requires
        body_encoding(m) is Ok,
    ensures
        ({
            let b = body_encoding(m)->Ok_0;
            let n = code_len(m.instructions@);
            (b[0] % 4 == 2 && b[0] / 4 == n) || (b[0] % 4 == 3 && b.subrange(4, 8) == le32(
                n as u32,
            ))
        }),
{
    lemma_stream_len(m.instructions@);
    let b = body_encoding(m)->Ok_0;
    if b[0] % 4 != 2 {
        assert(b.subrange(4, 8) =~= le32(code_len(m.instructions@) as u32));
    }
}

/// The operand branches to label `l`, directly or as one entry of a switch table.
pub open spec fn targets_label(op: Operand, l: u32) -> bool {
    match op {
        Operand::Branch8(a) => a == l,
        Operand::Branch32(a) => a == l,
        Operand::Switch(ls) => exists|q: int| 0 <= q < ls@.len() && ls@[q] == l,
        _ => false,
    }
}

proof fn lemma_prefix_ok(t: Seq<Instruction>, j: int)
    requires
        0 <= j <= t.len(),
        forall|i: int| 0 <= i < j ==> (#[trigger] instr_encoding(t, i)) is Ok,
    ensures
        stream_prefix(t, j) is Ok,
    decreases j,
{
    if j > 0 {
        lemma_prefix_ok(t, j - 1);
        assert(instr_encoding(t, j - 1) is Ok);
    }
}

/// Branch resolution: where labels are unique, removing an instruction that a remaining
/// branch or switch entry names makes that instruction fail to encode (with
/// `DanglingBranchTarget` for a branch), so the stream no longer encodes; where every
/// instruction before it encodes, the stream fails with exactly that error.
pub proof fn theorem_removed_target_dangles(s: Seq<Instruction>, k: int, j: int)
    requires
        0 <= k < s.len(),
        forall|a: int, c: int|
            0 <= a < s.len() && 0 <= c < s.len() && a != c ==> (#[trigger] s[a]).offset != (
            #[trigger] s[c]).offset,
        0 <= j < s.len() - 1,
        targets_label(s.remove(k)[j].operand, s[k].offset),
    ensures
        instr_encoding(s.remove(k), j) is Err,
        !(s.remove(k)[j].operand is Switch) ==> instr_encoding(s.remove(k), j) == Err::<
            Seq<u8>,
            EncodeError,
        >(EncodeError::DanglingBranchTarget),
        stream_encoding(s.remove(k)) is Err,
        (forall|i: int| 0 <= i < j ==> (#[trigger] instr_encoding(s.remove(k), i)) is Ok)
            && code_len(s.remove(k)) <= u32::MAX ==> stream_encoding(s.remove(k))
            == instr_encoding(s.remove(k), j),
{
    let t = s.remove(k);
    let l = s[k].offset;
    lemma_label_index_found(t, l, 0);
    if label_index(t, l, 0) is Some {
        let i = label_index(t, l, 0)->Some_0;
        if i < k {
            assert(t[i] == s[i]);
        } else {
            assert(t[i] == s[i + 1]);
        }
    }
    assert(label_index(t, l, 0) is None);
    let next = crate::instruction::next_of(t, j);
    if let Operand::Switch(ls) = t[j].operand {
        let q = choose|q: int| 0 <= q < ls@.len() && ls@[q] == l;
        if crate::instruction::switch_error(t, ls@, next) is None {
            crate::instruction::lemma_switch_error_none(t, ls@, next, q);
        }
    }
    let e = instr_encoding(t, j)->Err_0;
    if code_len(t) <= u32::MAX {
        match stream_prefix(t, j) {
            Err(e0) => {
                lemma_prefix_err_persists(t, j, t.len() as int, e0);
            },
            Ok(_) => {
                lemma_prefix_err_persists(t, j + 1, t.len() as int, e);
            },
        }
        if forall|i: int| 0 <= i < j ==> (#[trigger] instr_encoding(t, i)) is Ok {
            lemma_prefix_ok(t, j);
        }
    }
}

proof fn lemma_clauses_len(rs: Seq<ExceptionRegion>, fat: bool)
    ensures
        clauses(rs, fat).len() == clause_size(fat) * rs.len(),
    decreases rs.len(),
{
    if rs.len() > 0 {
        lemma_clauses_len(rs.drop_last(), fat);
        let (c, n) = (clause_size(fat), rs.len() as int);
        assert(c * (n - 1) + c == c * n) by (nonlinear_arith);
    }
}

/// Fat clauses determine the regions they were written from.
proof fn lemma_fat_clauses_injective(r1: Seq<ExceptionRegion>, r2: Seq<ExceptionRegion>)
    requires
        r1.len() == r2.len(),
        clauses(r1, true) == clauses(r2, true),
    ensures
        r1 == r2,
    decreases r1.len(),
{
    if r1.len() > 0 {
        let n = r1.len() as int;
        lemma_clauses_len(r1.drop_last(), true);
        lemma_clauses_len(r2.drop_last(), true);
        let k = 24 * (n - 1);
        let c = clauses(r1, true);
        assert(c.subrange(0, k) =~= clauses(r1.drop_last(), true));
        assert(clauses(r2, true).subrange(0, k) =~= clauses(r2.drop_last(), true));
        lemma_fat_clauses_injective(r1.drop_last(), r2.drop_last());
        let (a, b) = (r1.last(), r2.last());
        assert(c.subrange(k, k + 24) =~= fat_clause(a));
        assert(clauses(r2, true).subrange(k, k + 24) =~= fat_clause(b));
        let (fa, fb) = (fat_clause(a), fat_clause(b));
        assert(fa.subrange(0, 4) =~= le32(kind_flags(a.kind)));
        assert(fb.subrange(0, 4) =~= le32(kind_flags(b.kind)));
        lemma_le32_injective(kind_flags(a.kind), kind_flags(b.kind));
        assert(fa.subrange(4, 8) =~= le32(a.try_offset));
        assert(fb.subrange(4, 8) =~= le32(b.try_offset));
        lemma_le32_injective(a.try_offset, b.try_offset);
        assert(fa.subrange(8, 12) =~= le32(a.try_length));
        assert(fb.subrange(8, 12) =~= le32(b.try_length));
        lemma_le32_injective(a.try_length, b.try_length);
        assert(fa.subrange(12, 16) =~= le32(a.handler_offset));
        assert(fb.subrange(12, 16) =~= le32(b.handler_offset));
        lemma_le32_injective(a.handler_offset, b.handler_offset);
        assert(fa.subrange(16, 20) =~= le32(a.handler_length));
        assert(fb.subrange(16, 20) =~= le32(b.handler_length));
        lemma_le32_injective(a.handler_length, b.handler_length);
        assert(fa.subrange(20, 24) =~= le32(a.class_token_or_filter_offset));
        assert(fb.subrange(20, 24) =~= le32(b.class_token_or_filter_offset));
        lemma_le32_injective(a.class_token_or_filter_offset, b.class_token_or_filter_offset);
        assert(r1 =~= r2.drop_last().push(b));
        assert(r2 =~= r2.drop_last().push(b));
    }
}

/// The sections that the encoder writes for `rs0` are read back as regions of the same
/// number, laid out canonically.
proof fn lemma_encoded_sections(
    b: Seq<u8>,
    code_end: int,
    rs0: Seq<ExceptionRegion>,
    rs: Seq<ExceptionRegion>,
)
    requires
        code_end >= 12,
        code_end <= b.len(),
        rs0.len() > 0,
        rs0.len() <= MAX_FAT_CLAUSES,
        b.subrange(code_end, b.len() as int) == padding((code_end - 12) as nat) + section_bytes(
            rs0,
        ),
        table_chain(b, align4(code_end), rs),
    ensures
        rs.len() == rs0.len(),
        sections_laid_out_canonically(b, code_end, rs),
{
    let pad = padding((code_end - 12) as nat);
    let sec = section_bytes(rs0);
    let p = align4(code_end);
    let n0 = rs0.len() as int;
    assert(p == code_end + pad.len());
    assert(b.subrange(code_end, b.len() as int).len() == pad.len() + sec.len());
    assert(b.len() == p + sec.len());
    assert forall|i: int| 0 <= i < sec.len() implies b[p + i] == sec[i] by {
        assert(b.subrange(code_end, b.len() as int)[pad.len() + i] == sec[i]);
    }
    assert forall|i: int| code_end <= i < p implies b[i] == 0 by {
        assert(b.subrange(code_end, b.len() as int)[i - code_end] == pad[i - code_end]);
    }
    let fat = needs_fat(rs0);
    lemma_clauses_len(rs0, fat);
    assert(b[p] == sec[0]);
    assert(table_is_fat(b, p) == fat);
    let size = 4 + clause_size(fat) * n0;
    if fat {
        assert(size <= 0xFF_FFFF);
        lemma_three_bytes_value(size as u32);
        assert(b[p + 1] == sec[1] && b[p + 2] == sec[2] && b[p + 3] == sec[3]);
    } else {
        assert(b[p + 1] == sec[1]);
    }
    assert(table_size(b, p) == size);
    assert((size - 4) / clause_size(fat) == n0) by (nonlinear_arith)
        requires
            size == 4 + clause_size(fat) * n0,
            clause_size(fat) > 0,
    ;
    assert((size - 4) % clause_size(fat) == 0) by (nonlinear_arith)
        requires
            size == 4 + clause_size(fat) * n0,
            clause_size(fat) > 0,
    ;
    assert(b[p] / 128 == 0);
    assert(rs.len() == n0);
    assert(rs.subrange(0, n0) =~= rs);
    assert(b.subrange(p + 4, p + size) =~= sec.subrange(4, sec.len() as int));
    assert(sec.subrange(4, sec.len() as int) =~= clauses(rs0, fat));
    if fat {
        lemma_fat_clauses_injective(rs, rs0);
    }
    if !fat {
        assert(b[p + 2] == sec[2] && b[p + 3] == sec[3]);
    }
}

/// Where the encoder wrote an extended header for `m0`, the bytes hold it, followed by
/// the code and, for regions, padding and one table.
pub proof fn lemma_encoder_wrote_extended(m0: MethodBody, b: Seq<u8>, code0: Seq<u8>)
    requires
        stream_encoding(m0.instructions@) == Ok::<Seq<u8>, EncodeError>(code0),
        code0.len() <= u32::MAX,
        body_encoding(m0) == Ok::<Seq<u8>, EncodeError>(b),
        b[0] % 4 == 3,
    ensures
        !compact_eligible(m0.header, code0.len(), m0.regions@.len()),
        b.subrange(0, 12) == crate::body::extended_header_bytes(
            header_max_stack(m0.header),
            code0.len() as u32,
            header_locals(m0.header),
            header_init_locals(m0.header),
            m0.regions@.len() > 0,
        ),
        m0.regions@.len() > 0 ==> b.subrange(12 + code0.len() as int, b.len() as int) == padding(
            code0.len(),
        ) + section_bytes(m0.regions@),
{
    let cs0 = code0.len();
    let n0 = m0.regions@.len();
    if compact_eligible(m0.header, cs0, n0) {
        assert(b[0] == compact_header_byte(cs0));
    }
    let head0 = crate::body::extended_header_bytes(
        header_max_stack(m0.header),
        cs0 as u32,
        header_locals(m0.header),
        header_init_locals(m0.header),
        n0 > 0,
    );
    if n0 > 0 {
        assert(b == head0 + code0 + padding(cs0) + section_bytes(m0.regions@));
        assert(b.subrange(12 + cs0 as int, b.len() as int) =~= padding(cs0) + section_bytes(
            m0.regions@,
        ));
    }
    assert(b.subrange(0, 12) =~= head0);
}

/// An extended header read from bytes that hold a given layout has that layout's fields.
proof fn lemma_header_fields(
    b: Seq<u8>,
    h: MethodHeader,
    max_stack: u16,
    code_size: u32,
    locals: u32,
    init_locals: bool,
    more_sections: bool,
)
    requires
        h is Extended,
        header_read_from(b, h),
        b.subrange(0, 12) == crate::body::extended_header_bytes(
            max_stack,
            code_size,
            locals,
            init_locals,
            more_sections,
        ),
    ensures
        header_max_stack(h) == max_stack,
        header_locals(h) == locals,
        header_init_locals(h) == init_locals,
        header_more_sections(h) == more_sections,
        header_code_size(h) == code_size,
        b[0] == extended_flags(init_locals, more_sections),
        b[1] == 0x30,
{
    let head = b.subrange(0, 12);
    assert(b.subrange(2, 4) =~= head.subrange(2, 4));
    assert(b.subrange(4, 8) =~= head.subrange(4, 8));
    assert(b.subrange(8, 12) =~= head.subrange(8, 12));
    assert(head.subrange(2, 4) =~= le16(max_stack));
    assert(head.subrange(4, 8) =~= le32(code_size));
    assert(head.subrange(8, 12) =~= le32(locals));
    assert(b[0] == head[0] && b[1] == head[1]);
    lemma_extended_flags_bits(init_locals, more_sections);
    if let MethodHeader::Extended { max_stack: s, code_size: c, local_var_sig_tok: t, .. } = h {
        lemma_le16_injective(s, max_stack);
        lemma_le32_injective(c, code_size);
        lemma_le32_injective(t, locals);
    }
}

/// Round trip for the encoder's output: a body decoded from the bytes that the encoder
/// wrote for `m0` is laid out canonically in them, and so encodes back to the same bytes.
/// (`decode` succeeds on those bytes whenever `m0` is well formed.)
pub proof fn theorem_encoded_round_trip(m0: MethodBody, b: Seq<u8>, m: MethodBody)
    requires
        body_encoding(m0) == Ok::<Seq<u8>, EncodeError>(b),
        decoded_from(b, m),
    ensures
        laid_out_canonically(b, m),
        body_encoding(m) == Ok::<Seq<u8>, EncodeError>(b),
{
    lemma_stream_len(m0.instructions@);
    let code0 = stream_encoding(m0.instructions@)->Ok_0;
    if m.header is Extended {
        assert(header_read_from(b, m.header));
        lemma_encoder_wrote_extended(m0, b, code0);
        lemma_header_fields(
            b,
            m.header,
            header_max_stack(m0.header),
            code0.len() as u32,
            header_locals(m0.header),
            header_init_locals(m0.header),
            m0.regions@.len() > 0,
        );
        if header_more_sections(m.header) {
            lemma_encoded_sections(b, 12 + code0.len() as int, m0.regions@, m.regions@);
        } else {
            assert(m.regions@.len() == 0);
        }
    }
    theorem_round_trip(b, m);
}

/// In a stream decoded from `code`, an instruction whose first byte is `op`, a one-byte
/// opcode without operand, is exactly that opcode and one byte long.
proof fn lemma_plain_instruction_at(s: Seq<Instruction>, code: Seq<u8>, k: int, op: u8)
    requires
        stream_encoding(s) == Ok::<Seq<u8>, EncodeError>(code),
        0 <= k < s.len(),
        instruction_well_formed(s[k]),
        offset_of(s, k) < code.len(),
        code[offset_of(s, k) as int] == op,
        op != crate::opcodes::PREFIX_BYTE,
        crate::opcodes::one_byte_shape(op) == Some(crate::opcodes::OperandShape::NoOperand),
    ensures
        s[k].opcode == (Opcode { prefixed: false, code: op }),
        s[k].operand is NoOperand,
        offset_of(s, k + 1) == offset_of(s, k) + 1,
{
    crate::instruction::lemma_prefix_parts(s, s.len() as int, k);
    crate::instruction::lemma_offset_step(s, k);
    crate::instruction::lemma_offset_mono(s, k + 1, s.len() as int);
    crate::instruction::lemma_code_len_is_end(s);
    assert(stream_prefix(s, s.len() as int) == Ok::<Seq<u8>, EncodeError>(code));
    let x = instr_encoding(s, k)->Ok_0;
    assert(code.subrange(offset_of(s, k) as int, offset_of(s, k + 1) as int) == x);
    assert(x[0] == code[offset_of(s, k) as int]);
}

/// A well-formed stream whose labels are positions and which encodes to `ldc.i4.1; ret`
/// is exactly those two instructions.
proof fn lemma_push_true_return_stream(s: Seq<Instruction>)
    requires
        stream_encoding(s) == Ok::<Seq<u8>, EncodeError>(seq![0x17u8, 0x2Au8]),
        forall|k: int| 0 <= k < s.len() ==> instruction_well_formed(#[trigger] s[k]),
        forall|k: int| 0 <= k < s.len() ==> (#[trigger] s[k]).offset == offset_of(s, k),
        code_len(s) == 2,
    ensures
        s.len() == 2,
        s[0].offset == 0,
        s[0].opcode == (Opcode { prefixed: false, code: 0x17 }),
        s[0].operand is NoOperand,
        s[1].offset == 1,
        s[1].opcode == (Opcode { prefixed: false, code: 0x2A }),
        s[1].operand is NoOperand,
{
    let code = seq![0x17u8, 0x2Au8];
    crate::instruction::lemma_code_len_is_end(s);
    assert(s.subrange(0, 0).len() == 0);
    assert(offset_of(s, 0) == 0);
    if s.len() == 0 {
        assert(code_len(s) == 0);
    }
    lemma_plain_instruction_at(s, code, 0, 0x17);
    if s.len() == 1 {
        assert(code_len(s) == 1);
    }
    lemma_plain_instruction_at(s, code, 1, 0x2A);
    if s.len() > 2 {
        crate::instruction::lemma_offset_step(s, 2);
        crate::instruction::lemma_offset_mono(s, 3, s.len() as int);
    }
}

/// The two-byte compact body `ldc.i4.1; ret` decodes to exactly those two instructions,
/// at positions 0 and 1, with no operands and no regions, and encodes back to itself.
pub proof fn theorem_push_true_return_decodes(m: MethodBody)
    requires
        decoded_from(seq![0x0Au8, 0x17u8, 0x2Au8], m),
    ensures
        m.header == (MethodHeader::Compact { code_size: 2 }),
        m.instructions@.len() == 2,
        m.instructions@[0].offset == 0,
        m.instructions@[0].opcode == (Opcode { prefixed: false, code: 0x17 }),
        m.instructions@[0].operand is NoOperand,
        m.instructions@[1].offset == 1,
        m.instructions@[1].opcode == (Opcode { prefixed: false, code: 0x2A }),
        m.instructions@[1].operand is NoOperand,
        m.regions@.len() == 0,
        body_encoding(m) == Ok::<Seq<u8>, EncodeError>(seq![0x0Au8, 0x17u8, 0x2Au8]),
{
    let b = seq![0x0Au8, 0x17u8, 0x2Au8];
    assert(header_read_from(b, m.header));
    assert(m.header is Compact);
    assert(header_code_size(m.header) == 2);
    assert(b.subrange(1, 3) =~= seq![0x17u8, 0x2Au8]);
    lemma_push_true_return_stream(m.instructions@);
    theorem_round_trip(b, m);
}

} // verus!
