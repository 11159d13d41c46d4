use rustrospective::cfg::{branch_targets, build_cfg, is_exit_opcode, is_unconditional_branch,
    lookupswitch_targets, next_block_start, tableswitch_targets};
use rustrospective::decode::decode_instructions;
use rustrospective::ir::{DecodeError, EdgeKind, FlowEdge};
use rustrospective::opcode::{opcode_length, padding, read_i16, read_i32, read_u16, read_u32};
use rustrospective::pool::PoolEntry;

fn decode(code: &[u8]) -> Vec<rustrospective::ir::Instruction> {
    let pool: Vec<PoolEntry> = Vec::new();
    decode_instructions(code, &pool).expect("decode")
}

#[test]
fn read_u16_is_big_endian() {
    assert_eq!(read_u16(&[0x12, 0x34], 0), Ok(0x1234));
    assert_eq!(read_u32(&[0x12, 0x34, 0x56, 0x78], 0), Ok(0x12345678));
}

#[test]
fn read_i16_sign_extends() {
    assert_eq!(read_i16(&[0xff, 0xfe], 0), Ok(-2));
    assert_eq!(read_i16(&[0x7f, 0xff], 0), Ok(32767));
    assert_eq!(read_i32(&[0x80, 0x00, 0x00, 0x00], 0), Ok(-2147483648));
}

#[test]
fn reads_fail_past_the_end() {
    assert_eq!(read_u16(&[0x01], 0), Err(DecodeError::TruncatedRead));
    assert_eq!(read_i32(&[0x01, 0x02, 0x03], 0), Err(DecodeError::TruncatedRead));
}

#[test]
fn padding_aligns_to_four() {
    assert_eq!(padding(0), 3);
    assert_eq!(padding(1), 2);
    assert_eq!(padding(2), 1);
    assert_eq!(padding(3), 0);
    assert_eq!(padding(4), 3);
}

#[test]
fn opcode_length_fixed_forms() {
    let code = [0x00u8, 0x10, 0x07, 0xb6, 0x00, 0x01];
    assert_eq!(opcode_length(&code, 0), Ok(1)); // nop
    assert_eq!(opcode_length(&code, 1), Ok(2)); // bipush
    assert_eq!(opcode_length(&code, 3), Ok(3)); // invokevirtual
    let wide = [0xc4u8, 0x84, 0x00, 0x01, 0x00, 0x02];
    assert_eq!(opcode_length(&wide, 0), Ok(6)); // wide iinc
    let wide_load = [0xc4u8, 0x15, 0x00, 0x01];
    assert_eq!(opcode_length(&wide_load, 0), Ok(4)); // wide iload
}

#[test]
fn exit_and_unconditional_classification() {
    for op in [0xacu8, 0xad, 0xae, 0xaf, 0xb0, 0xb1, 0xbf] {
        assert!(is_exit_opcode(op));
    }
    assert!(!is_exit_opcode(0xa7));
    for op in [0xa7u8, 0xa8, 0xc8, 0xc9] {
        assert!(is_unconditional_branch(op));
    }
    assert!(!is_unconditional_branch(0x99));
}

#[test]
fn branch_target_simple_forward() {
    // ifeq +4 at offset 0
    let code = [0x99u8, 0x00, 0x04, 0x00, 0x00, 0xb1];
    let ts = branch_targets(&code, 0).expect("resolve").expect("targets");
    assert_eq!(ts, vec![4u16]);
}

#[test]
fn branch_target_backward() {
    let code = [0x00u8, 0x00, 0x00, 0xa7, 0xff, 0xfd, 0xb1];
    let ts = branch_targets(&code, 3).expect("resolve").expect("targets");
    assert_eq!(ts, vec![0u16]);
}

#[test]
fn branch_target_wraps_to_offset_width() {
    // goto -2 from offset 0 wraps in the 16-bit offset space
    let code = [0xa7u8, 0xff, 0xfe, 0xb1];
    let ts = branch_targets(&code, 0).expect("resolve").expect("targets");
    assert_eq!(ts, vec![0xfffeu16]);
}

#[test]
fn branch_target_none_for_plain_opcodes() {
    let code = [0x00u8, 0xb1];
    assert_eq!(branch_targets(&code, 0), Ok(None));
}

#[test]
fn branch_target_truncated_operand() {
    let code = [0xa7u8, 0x00];
    assert_eq!(branch_targets(&code, 0), Err(DecodeError::TruncatedRead));
}

fn tableswitch_code() -> Vec<u8> {
    // tableswitch at offset 0: 3 bytes padding, default 20, low 0, high 1,
    // case offsets 21 and 22, then a byte of code at offset 24.
    let mut code = vec![0xaau8, 0, 0, 0];
    code.extend_from_slice(&[0, 0, 0, 20]); // default
    code.extend_from_slice(&[0, 0, 0, 0]); // low
    code.extend_from_slice(&[0, 0, 0, 1]); // high
    code.extend_from_slice(&[0, 0, 0, 21]); // case 0
    code.extend_from_slice(&[0, 0, 0, 22]); // case 1
    code.push(0xb1);
    code
}

#[test]
fn tableswitch_three_targets_default_first() {
    let code = tableswitch_code();
    assert_eq!(padding(0), 3);
    let ts = tableswitch_targets(&code, 0).expect("targets");
    assert_eq!(ts, vec![20u16, 21, 22]);
    assert_eq!(opcode_length(&code, 0), Ok(24));
}

#[test]
fn tableswitch_rejects_inverted_range() {
    let mut code = vec![0xaau8, 0, 0, 0];
    code.extend_from_slice(&[0, 0, 0, 8]); // default
    code.extend_from_slice(&[0, 0, 0, 5]); // low
    code.extend_from_slice(&[0, 0, 0, 2]); // high < low
    assert_eq!(tableswitch_targets(&code, 0), Err(DecodeError::InvalidSwitchTable));
    assert_eq!(opcode_length(&code, 0), Err(DecodeError::InvalidSwitchTable));
}

#[test]
fn lookupswitch_targets_in_pair_order() {
    // lookupswitch at offset 0: default 30, two pairs (9 -> 31, 2 -> 32);
    // pair targets come in declaration order, not sorted by match value.
    let mut code = vec![0xabu8, 0, 0, 0];
    code.extend_from_slice(&[0, 0, 0, 30]); // default
    code.extend_from_slice(&[0, 0, 0, 2]); // npairs
    code.extend_from_slice(&[0, 0, 0, 9, 0, 0, 0, 31]);
    code.extend_from_slice(&[0, 0, 0, 2, 0, 0, 0, 32]);
    code.push(0xb1);
    let ts = lookupswitch_targets(&code, 0).expect("targets");
    assert_eq!(ts, vec![30u16, 31, 32]);
    assert_eq!(opcode_length(&code, 0), Ok(28));
}

#[test]
fn simple_goto_blocks_and_single_branch_edge() {
    // goto +3 at offset 0, return at offset 3
    let code = [0xa7u8, 0x00, 0x03, 0xb1];
    let insts = decode(&code);
    let cfg = build_cfg(&code, &insts, &[]).expect("cfg");
    assert_eq!(cfg.blocks.len(), 2);
    assert_eq!(cfg.blocks[0].start_offset, 0);
    assert_eq!(cfg.blocks[0].end_offset, 3);
    assert_eq!(cfg.blocks[1].start_offset, 3);
    assert_eq!(cfg.blocks[1].end_offset, 4);
    assert_eq!(cfg.edges, vec![FlowEdge { from: 0, to: 3, kind: EdgeKind::Branch }]);
}

#[test]
fn conditional_branch_has_branch_and_fallthrough() {
    // ifeq +4 at offset 0, filler, return at offset 5
    let code = [0x99u8, 0x00, 0x04, 0x00, 0x00, 0xb1];
    let insts = decode(&code);
    let cfg = build_cfg(&code, &insts, &[]).expect("cfg");
    let starts: Vec<u32> = cfg.blocks.iter().map(|b| b.start_offset).collect();
    assert_eq!(starts, vec![0, 3, 4]);
    let from_first: Vec<&FlowEdge> = cfg.edges.iter().filter(|e| e.from == 0).collect();
    assert_eq!(from_first.len(), 2);
    assert!(from_first.iter().any(|e| e.kind == EdgeKind::Branch && e.to == 4));
    assert!(from_first.iter().any(|e| e.kind == EdgeKind::FallThrough && e.to == 3));
}

#[test]
fn blocks_partition_the_code() {
    let code = tableswitch_code();
    let insts = decode(&code);
    let cfg = build_cfg(&code, &insts, &[]).expect("cfg");
    assert!(!cfg.blocks.is_empty());
    assert_eq!(cfg.blocks[0].start_offset, 0);
    for w in cfg.blocks.windows(2) {
        assert_eq!(w[0].end_offset, w[1].start_offset);
        assert!(w[0].start_offset < w[1].start_offset);
    }
    assert_eq!(cfg.blocks.last().unwrap().end_offset as usize, code.len());
}

#[test]
fn edge_endpoints_are_block_starts() {
    let code = tableswitch_code();
    let insts = decode(&code);
    let cfg = build_cfg(&code, &insts, &[]).expect("cfg");
    for e in &cfg.edges {
        assert!(cfg.blocks.iter().any(|b| b.start_offset == e.from));
        assert!(cfg.blocks.iter().any(|b| b.start_offset == e.to));
    }
}

#[test]
fn out_of_range_target_is_dropped_not_fatal() {
    // goto wrapping far past the end of a 4-byte method: the target lands
    // on no block, so the branch edge is dropped and goto has no
    // fallthrough either.
    let code = [0xa7u8, 0xff, 0xfe, 0xb1];
    let insts = decode(&code);
    let cfg = build_cfg(&code, &insts, &[]).expect("cfg");
    assert_eq!(cfg.blocks.len(), 2);
    assert!(cfg.edges.is_empty());
}

#[test]
fn unconditional_branch_has_no_fallthrough_edge() {
    // goto +3: only a Branch edge may leave the first block
    let code = [0xa7u8, 0x00, 0x03, 0xb1];
    let insts = decode(&code);
    let cfg = build_cfg(&code, &insts, &[]).expect("cfg");
    for e in cfg.edges.iter().filter(|e| e.from == 0) {
        assert_eq!(e.kind, EdgeKind::Branch);
    }
}

#[test]
fn handler_entry_becomes_a_leader() {
    // plain code, a handler entry at offset 2 splits the block
    let code = [0x00u8, 0x00, 0x00, 0xb1];
    let insts = decode(&code);
    let cfg = build_cfg(&code, &insts, &[2]).expect("cfg");
    let starts: Vec<u32> = cfg.blocks.iter().map(|b| b.start_offset).collect();
    assert_eq!(starts, vec![0, 2]);
}

#[test]
fn decoding_twice_yields_identical_graphs() {
    let code = tableswitch_code();
    let insts1 = decode(&code);
    let insts2 = decode(&code);
    let cfg1 = build_cfg(&code, &insts1, &[]).expect("cfg");
    let cfg2 = build_cfg(&code, &insts2, &[]).expect("cfg");
    assert_eq!(cfg1.blocks.len(), cfg2.blocks.len());
    for (b1, b2) in cfg1.blocks.iter().zip(cfg2.blocks.iter()) {
        assert_eq!(b1.start_offset, b2.start_offset);
        assert_eq!(b1.end_offset, b2.end_offset);
        assert_eq!(b1.instructions.len(), b2.instructions.len());
        for (i1, i2) in b1.instructions.iter().zip(b2.instructions.iter()) {
            assert_eq!(i1.offset, i2.offset);
            assert_eq!(i1.opcode, i2.opcode);
        }
    }
    assert_eq!(cfg1.edges, cfg2.edges);
}

#[test]
fn next_block_start_finds_only_boundaries() {
    let code = [0xa7u8, 0x00, 0x03, 0xb1];
    let insts = decode(&code);
    let cfg = build_cfg(&code, &insts, &[]).expect("cfg");
    assert_eq!(next_block_start(&cfg.blocks, 3), Some(3));
    assert_eq!(next_block_start(&cfg.blocks, 2), None);
}

#[test]
fn decode_errors_carry_a_description() {
    assert_eq!(DecodeError::TruncatedRead.message(), "read past the end of the code buffer");
    assert_eq!(DecodeError::InvalidSwitchTable.message(), "invalid switch table");
    assert_eq!(
        DecodeError::InvalidConstantPool.message(),
        "unresolvable constant-pool reference",
    );
}

#[test]
fn duplicate_branch_targets_make_one_leader() {
    // two conditional branches aim at the same offset; the leader list
    // holds it once
    let code = [0x99u8, 0x00, 0x04, 0x99, 0x00, 0x01, 0xb1];
    let insts = decode(&code);
    let cfg = build_cfg(&code, &insts, &[]).expect("cfg");
    let starts: Vec<u32> = cfg.blocks.iter().map(|b| b.start_offset).collect();
    assert_eq!(starts, vec![0, 3, 4, 6]);
}

#[test]
fn code_at_the_size_ceiling_still_decodes() {
    // the largest method body the offset width admits: 64 KiB minus one
    let mut code = vec![0x00u8; 0xfffe];
    code.push(0xb1);
    let insts = decode(&code);
    assert_eq!(insts.len(), 0xffff);
    let cfg = build_cfg(&code, &insts, &[]).expect("cfg");
    assert_eq!(cfg.blocks.len(), 1);
    assert_eq!(cfg.blocks[0].end_offset as usize, code.len());
    assert!(cfg.edges.is_empty());
}

#[test]
fn empty_code_gives_empty_graph() {
    let code: [u8; 0] = [];
    let insts = decode(&code);
    let cfg = build_cfg(&code, &insts, &[]).expect("cfg");
    assert!(cfg.blocks.is_empty());
    assert!(cfg.edges.is_empty());
}
