//! Method bodies: the header, the instruction stream and the exception regions, and the
//! encoding of a whole body.

use vstd::prelude::*;
use crate::bytes::{le16, le32, push_u16, push_u32};
use crate::error::EncodeError;
use crate::instruction::{encode_instructions, instruction_well_formed, stream_encoding, Instruction};
use crate::region::{
    push_section, regions_well_nested, section_bytes, ExceptionRegion, MAX_FAT_CLAUSES,
};

verus! {

/// Largest code size that the compact header can record.
pub const COMPACT_MAX_CODE_SIZE: u32 = 63;

/// Evaluation-stack depth that a compact header implies.
pub const DEFAULT_MAX_STACK: u16 = 8;

/// Size of the extended header.
pub const EXTENDED_HEADER_SIZE: usize = 12;

/// The two header layouts.
#[derive(Clone, Copy, PartialEq, Eq, Debug, Structural)]
pub enum MethodHeader {
    /// One byte: the format tag and the code size.
    Compact { code_size: u8 },
    /// Twelve bytes.
    Extended {
        max_stack: u16,
        code_size: u32,
        local_var_sig_tok: u32,
        init_locals: bool,
        more_sections: bool,
    },
}

/// A decoded method body. The encoder recomputes the code size, the header layout and
/// whether sections follow; it keeps the stack depth, the locals signature and the
/// zero-initialisation flag.
#[derive(Clone, Debug)]
pub struct MethodBody {
    pub header: MethodHeader,
    pub instructions: Vec<Instruction>,
    pub regions: Vec<ExceptionRegion>,
}

pub open spec fn header_max_stack(h: MethodHeader) -> u16 {
    match h {
        MethodHeader::Compact { .. } => DEFAULT_MAX_STACK,
        MethodHeader::Extended { max_stack, .. } => max_stack,
    }
}

pub open spec fn header_locals(h: MethodHeader) -> u32 {
    match h {
        MethodHeader::Compact { .. } => 0,
        MethodHeader::Extended { local_var_sig_tok, .. } => local_var_sig_tok,
    }
}

pub open spec fn header_init_locals(h: MethodHeader) -> bool {
    match h {
        MethodHeader::Compact { .. } => false,
        MethodHeader::Extended { init_locals, .. } => init_locals,
    }
}

/// The code size that the header records.
pub open spec fn header_code_size(h: MethodHeader) -> nat {
    match h {
        MethodHeader::Compact { code_size } => code_size as nat,
        MethodHeader::Extended { code_size, .. } => code_size as nat,
    }
}

/// A body with these properties can, and then must, be written with the compact header.
pub open spec fn compact_eligible(h: MethodHeader, code_size: nat, n_regions: nat) -> bool {
    &&& code_size <= COMPACT_MAX_CODE_SIZE
    &&& n_regions == 0
    &&& header_max_stack(h) <= DEFAULT_MAX_STACK
    &&& header_locals(h) == 0
}

pub open spec fn compact_header_byte(code_size: nat) -> u8 {
    (code_size * 4 + 2) as u8
}

pub open spec fn extended_flags(init_locals: bool, more_sections: bool) -> u8 {
    (3 + (if more_sections {
        8int
    } else {
        0
    }) + (if init_locals {
        0x10int
    } else {
        0
    })) as u8
}

pub open spec fn extended_header_bytes(
    max_stack: u16,
    code_size: u32,
    local_var_sig_tok: u32,
    init_locals: bool,
    more_sections: bool,
) -> Seq<u8> {
    seq![extended_flags(init_locals, more_sections), 0x30u8] + le16(max_stack) + le32(code_size)
        + le32(local_var_sig_tok)
}

/// Zero bytes that bring a code stream of `code_size` bytes after the extended header to a
/// four-byte boundary.
pub open spec fn padding(code_size: nat) -> Seq<u8> {
    Seq::new(((4 - code_size % 4) % 4) as nat, |i: int| 0u8)
}

/// The bytes of a body: the smallest header that can hold it, the code, and where there
/// are regions, one exception-handling table after padding.
pub open spec fn body_encoding(m: MethodBody) -> Result<Seq<u8>, EncodeError> {
    match stream_encoding(m.instructions@) {
        Err(e) => Err(e),
        Ok(code) => if m.regions@.len() > MAX_FAT_CLAUSES {
            Err(EncodeError::UnsupportedHeaderVariant)
        } else if compact_eligible(m.header, code.len(), m.regions@.len()) {
            Ok(seq![compact_header_byte(code.len())] + code)
        } else {
            let more = m.regions@.len() > 0;
            let head = extended_header_bytes(
                header_max_stack(m.header),
                code.len() as u32,
                header_locals(m.header),
                header_init_locals(m.header),
                more,
            );
            if more {
                Ok(head + code + padding(code.len()) + section_bytes(m.regions@))
            } else {
                Ok(head + code)
            }
        },
    }
}

/// Every instruction is a known opcode with an operand of its shape, and the regions nest
/// properly.
pub open spec fn body_well_formed(m: MethodBody) -> bool {
    &&& forall|k: int|
        0 <= k < m.instructions@.len() ==> instruction_well_formed(#[trigger] m.instructions@[k])
    &&& regions_well_nested(m.regions@)
}

/// Writes the body out.
pub fn encode(body: &MethodBody) -> (r: Result<Vec<u8>, EncodeError>)
    ensures
        match r {
            Ok(b) => body_encoding(*body) == Ok::<Seq<u8>, EncodeError>(b@),
            Err(e) => body_encoding(*body) == Err::<Seq<u8>, EncodeError>(e),
        },
{
    let mut code = match encode_instructions(&body.instructions) {
        Err(e) => {
            return Err(e);
        },
        Ok(c) => c,
    };
    let ghost code_seq = code@;
    assert(code@.len() <= u32::MAX) by {
        crate::instruction::lemma_code_len_is_end(body.instructions@);
        lemma_stream_len(body.instructions@);
    }
    let n_regions = body.regions.len();
    if n_regions > MAX_FAT_CLAUSES {
        return Err(EncodeError::UnsupportedHeaderVariant);
    }
    let code_size = code.len();
    let (max_stack, locals, init_locals) = match body.header {
        MethodHeader::Compact { .. } => (DEFAULT_MAX_STACK, 0u32, false),
        MethodHeader::Extended { max_stack, local_var_sig_tok, init_locals, .. } => (
            max_stack,
            local_var_sig_tok,
            init_locals,
        ),
    };
    let mut out: Vec<u8> = Vec::new();
    if code_size <= COMPACT_MAX_CODE_SIZE as usize && n_regions == 0 && max_stack
        <= DEFAULT_MAX_STACK && locals == 0 {
        out.push((code_size * 4 + 2) as u8);
        out.append(&mut code);
        assert(out@ =~= seq![compact_header_byte(code_seq.len())] + code_seq);
        return Ok(out);
    }
    let more = n_regions > 0;
    let mut flags: u8 = 3;
    if more {
        flags = flags + 8;
    }
    if init_locals {
        flags = flags + 0x10;
    }
    out.push(flags);
    out.push(0x30);
    push_u16(&mut out, max_stack);
    push_u32(&mut out, code_size as u32);
    push_u32(&mut out, locals);
    assert(out@ =~= extended_header_bytes(max_stack, code_size as u32, locals, init_locals, more));
    out.append(&mut code);
    if more {
        let pad = (4 - code_size % 4) % 4;
        let ghost before = out@;
        let mut i: usize = 0;
        while i < pad
            invariant
                i <= pad,
                out@ == before + Seq::new(i as nat, |k: int| 0u8),
            decreases pad - i,
        {
            out.push(0);
            i = i + 1;
            assert(out@ =~= before + Seq::new(i as nat, |k: int| 0u8));
        }
        assert(Seq::new(pad as nat, |k: int| 0u8) =~= padding(code_seq.len()));
        push_section(&mut out, &body.regions);
    }
    Ok(out)
}

/// The encoding of a stream is as long as its code.
pub proof fn lemma_stream_len(s: Seq<Instruction>)
    ensures
        stream_encoding(s) matches Ok(c) ==> c.len() == crate::instruction::code_len(s),
{
    if crate::instruction::code_len(s) <= u32::MAX {
        crate::instruction::lemma_prefix_len_is_offset(s, s.len() as int);
        crate::instruction::lemma_code_len_is_end(s);
    }
}

pub proof fn lemma_extended_flags_bits(init_locals: bool, more_sections: bool)
    ensures
        extended_flags(init_locals, more_sections) % 4 == 3,
        (extended_flags(init_locals, more_sections) / 8) % 2 == 1 <==> more_sections,
        (extended_flags(init_locals, more_sections) / 16) % 2 == 1 <==> init_locals,
{
}

} // verus!
