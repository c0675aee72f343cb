use clr_profiler::body::{encode, MethodBody, MethodHeader};
use clr_profiler::decoder::decode;
use clr_profiler::error::{DecodeError, EncodeError};
use clr_profiler::instruction::{encode_instructions, Instruction, Opcode, Operand};
use clr_profiler::region::{check_nesting, ExceptionRegion, RegionKind};

fn op(code: u8) -> Opcode {
    Opcode { prefixed: false, code }
}

fn plain(offset: u32, code: u8) -> Instruction {
    Instruction { offset, opcode: op(code), operand: Operand::NoOperand }
}

fn round_trip(bytes: &[u8]) -> MethodBody {
    let m = decode(bytes, bytes.len()).expect("decodes");
    let again = encode(&m).expect("encodes");
    assert_eq!(again, bytes.to_vec());
    m
}

/// A body with an extended header (init-locals, two stack slots), four bytes of code and
/// one small exception-handling table.
fn body_with_region() -> Vec<u8> {
    vec![
        0x1B, 0x30, 0x02, 0x00, 0x04, 0x00, 0x00, 0x00, 0x00, 0x00, 0x00, 0x00, // header
        0x00, 0x00, 0x00, 0x2A, // nop nop nop ret
        0x01, 0x10, 0x00, 0x00, // small table, one clause
        0x00, 0x00, 0x00, 0x00, 0x02, 0x02, 0x00, 0x02, 0x01, 0x00, 0x00, 0x02,
    ]
}

#[test]
fn compact_push_true_return_round_trips() {
    let bytes = [0x0A, 0x17, 0x2A];
    let m = round_trip(&bytes);
    assert_eq!(m.header, MethodHeader::Compact { code_size: 2 });
    assert_eq!(m.instructions.len(), 2);
    assert_eq!(m.instructions[0].opcode, op(0x17));
    assert!(matches!(m.instructions[0].operand, Operand::NoOperand));
    assert_eq!(m.instructions[1].opcode, op(0x2A));
    assert_eq!(m.instructions[1].offset, 1);
    assert!(matches!(m.instructions[1].operand, Operand::NoOperand));
    assert!(m.regions.is_empty());
}

#[test]
fn branch_targets_become_labels_and_round_trip() {
    // nop; br.s +1; nop; ret
    let bytes = [0x16, 0x00, 0x2B, 0x01, 0x00, 0x2A];
    let m = round_trip(&bytes);
    assert!(matches!(m.instructions[1].operand, Operand::Branch8(4)));
    assert_eq!(m.instructions[3].offset, 4);
}

#[test]
fn backward_branch_round_trips() {
    // nop; br -6 (to the nop)
    let bytes = [0x1A, 0x00, 0x38, 0xFA, 0xFF, 0xFF, 0xFF];
    let m = round_trip(&bytes);
    assert!(matches!(m.instructions[1].operand, Operand::Branch32(0)));
}

#[test]
fn switch_round_trips() {
    let bytes = [
        0x3E, 0x45, 0x02, 0x00, 0x00, 0x00, 0x00, 0x00, 0x00, 0x00, 0x01, 0x00, 0x00, 0x00, 0x00,
        0x2A,
    ];
    let m = round_trip(&bytes);
    match &m.instructions[0].operand {
        Operand::Switch(ls) => assert_eq!(ls, &vec![13, 14]),
        other => panic!("unexpected operand {:?}", other),
    }
}

#[test]
fn operands_of_every_width_round_trip() {
    // ldc.i4.s 5; ldc.i4 0x01020304; ldc.i8; ldarg 0x0102; call token; pop x4; ret
    let mut code = vec![0x1F, 0x05, 0x20, 0x04, 0x03, 0x02, 0x01, 0x21];
    code.extend_from_slice(&[1, 2, 3, 4, 5, 6, 7, 8]);
    code.extend_from_slice(&[0xFE, 0x09, 0x02, 0x01]);
    code.extend_from_slice(&[0x28, 0x01, 0x00, 0x00, 0x0A]);
    code.extend_from_slice(&[0x26, 0x26, 0x26, 0x26, 0x2A]);
    let mut bytes = vec![(code.len() * 4 + 2) as u8];
    bytes.extend_from_slice(&code);
    let m = round_trip(&bytes);
    assert!(matches!(m.instructions[0].operand, Operand::Int8(5)));
    assert!(matches!(m.instructions[1].operand, Operand::Int32(0x01020304)));
    assert!(matches!(m.instructions[2].operand, Operand::Int64(0x0807060504030201)));
    assert_eq!(m.instructions[3].opcode, Opcode { prefixed: true, code: 0x09 });
    assert!(matches!(m.instructions[3].operand, Operand::Int16(0x0102)));
    assert!(matches!(m.instructions[4].operand, Operand::Token(0x0A000001)));
}

#[test]
fn extended_body_with_region_round_trips() {
    let bytes = body_with_region();
    let m = round_trip(&bytes);
    assert_eq!(
        m.header,
        MethodHeader::Extended {
            max_stack: 2,
            code_size: 4,
            local_var_sig_tok: 0,
            init_locals: true,
            more_sections: true
        }
    );
    assert_eq!(
        m.regions,
        vec![ExceptionRegion {
            kind: RegionKind::Catch,
            try_offset: 0,
            try_length: 2,
            handler_offset: 2,
            handler_length: 2,
            class_token_or_filter_offset: 0x0200_0001,
        }]
    );
}

#[test]
fn region_with_large_offsets_uses_fat_table() {
    let mut m = decode(&body_with_region(), 32).unwrap();
    m.regions[0].handler_length = 0x100;
    let bytes = encode(&m).unwrap();
    assert_eq!(bytes.len(), 16 + 4 + 24);
    assert_eq!(bytes[16], 0x41);
    assert_eq!(&bytes[17..20], &[28, 0, 0]);
    let back = decode(&bytes, bytes.len()).unwrap();
    assert_eq!(back.regions, m.regions);
}

#[test]
fn padding_aligns_the_table() {
    // ret only: one byte of code, three of padding.
    let mut m = decode(&body_with_region(), 32).unwrap();
    m.instructions = vec![plain(0, 0x2A)];
    m.regions[0].try_length = 1;
    m.regions[0].handler_offset = 1;
    m.regions[0].handler_length = 0;
    let bytes = encode(&m).unwrap();
    assert_eq!(bytes.len(), 12 + 1 + 3 + 16);
    assert_eq!(&bytes[13..16], &[0, 0, 0]);
    assert_eq!(bytes[16], 0x01);
    round_trip(&bytes);
}

#[test]
fn eligible_extended_header_is_written_compact() {
    let m = MethodBody {
        header: MethodHeader::Extended {
            max_stack: 8,
            code_size: 99,
            local_var_sig_tok: 0,
            init_locals: false,
            more_sections: false,
        },
        instructions: vec![plain(0, 0x17), plain(1, 0x2A)],
        regions: vec![],
    };
    assert_eq!(encode(&m).unwrap(), vec![0x0A, 0x17, 0x2A]);
}

#[test]
fn deep_stack_or_locals_need_extended_header() {
    let mut m = MethodBody {
        header: MethodHeader::Extended {
            max_stack: 9,
            code_size: 2,
            local_var_sig_tok: 0,
            init_locals: false,
            more_sections: false,
        },
        instructions: vec![plain(0, 0x17), plain(1, 0x2A)],
        regions: vec![],
    };
    assert_eq!(
        encode(&m).unwrap(),
        vec![0x03, 0x30, 0x09, 0x00, 0x02, 0x00, 0x00, 0x00, 0x00, 0x00, 0x00, 0x00, 0x17, 0x2A]
    );
    m.header = MethodHeader::Extended {
        max_stack: 8,
        code_size: 2,
        local_var_sig_tok: 0x1100_0001,
        init_locals: true,
        more_sections: false,
    };
    let bytes = encode(&m).unwrap();
    assert_eq!(bytes[0], 0x13);
    assert_eq!(&bytes[8..12], &[0x01, 0x00, 0x00, 0x11]);
}

#[test]
fn code_of_sixty_four_bytes_needs_extended_header() {
    let mut instructions: Vec<Instruction> = (0..63).map(|i| plain(i, 0x00)).collect();
    instructions.push(plain(63, 0x2A));
    let m = MethodBody { header: MethodHeader::Compact { code_size: 0 }, instructions, regions: vec![] };
    let bytes = encode(&m).unwrap();
    assert_eq!(bytes.len(), 12 + 64);
    assert_eq!(&bytes[4..8], &[64, 0, 0, 0]);
    let mut small = m.clone();
    small.instructions.remove(0);
    let bytes = encode(&small).unwrap();
    assert_eq!(bytes[0], 63 * 4 + 2);
}

#[test]
fn code_size_field_is_sum_of_lengths() {
    let m = MethodBody {
        header: MethodHeader::Compact { code_size: 0 },
        instructions: vec![
            Instruction { offset: 0, opcode: op(0x20), operand: Operand::Int32(7) },
            Instruction { offset: 5, opcode: Opcode { prefixed: true, code: 0x01 }, operand: Operand::NoOperand },
            plain(7, 0x2A),
        ],
        regions: vec![],
    };
    let bytes = encode(&m).unwrap();
    assert_eq!(bytes[0] / 4, 8);
    assert_eq!(encode_instructions(&m.instructions).unwrap().len(), 8);
}

#[test]
fn removing_a_branch_target_dangles() {
    let bytes = [0x16, 0x00, 0x2B, 0x01, 0x00, 0x2A];
    let mut m = decode(&bytes, bytes.len()).unwrap();
    m.instructions.remove(3);
    assert_eq!(encode(&m), Err(EncodeError::DanglingBranchTarget));
}

#[test]
fn edit_keeps_branches_pointing_at_their_targets() {
    // nop; br.s +1; nop; ret  — drop the middle nop: the branch still reaches ret.
    let bytes = [0x16, 0x00, 0x2B, 0x01, 0x00, 0x2A];
    let mut m = decode(&bytes, bytes.len()).unwrap();
    m.instructions.remove(2);
    assert_eq!(encode(&m).unwrap(), vec![0x12, 0x00, 0x2B, 0x00, 0x2A]);
}

#[test]
fn short_branch_out_of_range_is_refused() {
    let mut instructions = vec![Instruction { offset: 0, opcode: op(0x2B), operand: Operand::Branch8(999) }];
    for i in 1..200 {
        instructions.push(plain(i, 0x00));
    }
    instructions.push(plain(999, 0x2A));
    let m = MethodBody { header: MethodHeader::Compact { code_size: 0 }, instructions, regions: vec![] };
    assert_eq!(encode(&m), Err(EncodeError::BranchOutOfRange));
}

#[test]
fn too_many_regions_is_refused() {
    let region = ExceptionRegion {
        kind: RegionKind::Finally,
        try_offset: 0,
        try_length: 1,
        handler_offset: 1,
        handler_length: 1,
        class_token_or_filter_offset: 0,
    };
    let m = MethodBody {
        header: MethodHeader::Compact { code_size: 0 },
        instructions: vec![plain(0, 0x00), plain(1, 0x2A)],
        regions: vec![region; 699051],
    };
    assert_eq!(encode(&m), Err(EncodeError::UnsupportedHeaderVariant));
}

#[test]
fn truncated_inputs_are_refused() {
    assert_eq!(decode(&[], 0).unwrap_err(), DecodeError::TruncatedStream);
    assert_eq!(decode(&[0x0A, 0x17], 3).unwrap_err(), DecodeError::TruncatedStream);
    assert_eq!(decode(&[0x0E, 0x20, 0x01], 3).unwrap_err(), DecodeError::TruncatedStream);
    assert_eq!(decode(&[0x03, 0x30, 0x08], 3).unwrap_err(), DecodeError::TruncatedStream);
}

#[test]
fn unknown_opcodes_are_refused() {
    assert_eq!(decode(&[0x06, 0x24], 2).unwrap_err(), DecodeError::UnknownOpcode);
    assert_eq!(decode(&[0x0A, 0xFE, 0x08], 3).unwrap_err(), DecodeError::UnknownOpcode);
}

#[test]
fn size_mismatches_are_refused() {
    assert_eq!(decode(&[0x06, 0x20, 1, 2, 3, 4], 6).unwrap_err(), DecodeError::SizeMismatch);
    assert_eq!(decode(&[0x06, 0x00, 0x00], 3).unwrap_err(), DecodeError::SizeMismatch);
}

#[test]
fn unknown_header_formats_are_refused() {
    assert_eq!(decode(&[0x00], 1).unwrap_err(), DecodeError::UnsupportedHeaderVariant);
    assert_eq!(decode(&[0x01], 1).unwrap_err(), DecodeError::UnsupportedHeaderVariant);
    let mut bytes = body_with_region();
    bytes[1] = 0x20;
    assert_eq!(decode(&bytes, 32).unwrap_err(), DecodeError::UnsupportedHeaderVariant);
}

#[test]
fn branches_between_instructions_are_refused() {
    assert_eq!(decode(&[0x0A, 0x2B, 0x05], 3).unwrap_err(), DecodeError::InvalidBranchTarget);
    assert_eq!(decode(&[0x0A, 0x2B, 0xF0], 3).unwrap_err(), DecodeError::InvalidBranchTarget);
    // br 0 lands on the second byte of a two-byte instruction.
    assert_eq!(
        decode(&[0x1E, 0x1F, 0x01, 0x38, 0xFA, 0xFF, 0xFF, 0xFF], 8).unwrap_err(),
        DecodeError::InvalidBranchTarget
    );
}

#[test]
fn unknown_sections_are_refused() {
    let mut bytes = body_with_region();
    bytes[16] = 0x02;
    assert_eq!(decode(&bytes, 32).unwrap_err(), DecodeError::MalformedSection);
    let mut bytes = body_with_region();
    bytes[17] = 0x11;
    assert_eq!(decode(&bytes, 32).unwrap_err(), DecodeError::MalformedSection);
}

#[test]
fn partially_overlapping_try_ranges_are_refused() {
    let bytes = vec![
        0x0B, 0x30, 0x02, 0x00, 0x04, 0x00, 0x00, 0x00, 0x00, 0x00, 0x00, 0x00, //
        0x00, 0x00, 0x00, 0x2A, //
        0x01, 0x1C, 0x00, 0x00, //
        0x00, 0x00, 0x00, 0x00, 0x03, 0x03, 0x00, 0x01, 0x01, 0x00, 0x00, 0x02, //
        0x02, 0x00, 0x02, 0x00, 0x02, 0x00, 0x00, 0x01, 0x00, 0x00, 0x00, 0x00,
    ];
    assert_eq!(decode(&bytes, bytes.len()).unwrap_err(), DecodeError::InvalidRegionNesting);
}

#[test]
fn nesting_check_accepts_nested_and_rejects_crossing() {
    let r = |try_offset, try_length, handler_offset, handler_length| ExceptionRegion {
        kind: RegionKind::Catch,
        try_offset,
        try_length,
        handler_offset,
        handler_length,
        class_token_or_filter_offset: 0,
    };
    assert!(check_nesting(&vec![r(0, 10, 20, 5), r(2, 4, 8, 2)]));
    assert!(check_nesting(&vec![r(0, 4, 4, 2), r(10, 2, 12, 2)]));
    assert!(!check_nesting(&vec![r(0, 10, 20, 5), r(5, 10, 30, 2)]));
    assert!(!check_nesting(&vec![r(0, 10, 5, 2)]));
}
