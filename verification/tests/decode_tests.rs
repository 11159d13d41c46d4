use rustrospective::decode::{decode_instructions, decode_method};
use rustrospective::ir::{CallKind, DecodeError, EdgeKind, ExceptionHandler, InstructionKind, MethodAccess};
use rustrospective::pool::PoolEntry;

fn call_pool() -> Vec<PoolEntry> {
    vec![
        PoolEntry::Other,
        PoolEntry::MethodRef(2, 3),
        PoolEntry::ClassRef(4),
        PoolEntry::NameAndType(5, 6),
        PoolEntry::Utf8(String::from("java/lang/Runtime")),
        PoolEntry::Utf8(String::from("exec")),
        PoolEntry::Utf8(String::from("(Ljava/lang/String;)V")),
        PoolEntry::StringRef(8),
        PoolEntry::Utf8(String::from("hello")),
    ]
}

fn access() -> MethodAccess {
    MethodAccess { is_public: true, is_static: false, is_abstract: false }
}

#[test]
fn decoder_emits_one_instruction_per_offset() {
    let code = vec![0x00u8, 0x10, 0x2a, 0xb1];
    let pool: Vec<PoolEntry> = Vec::new();
    let insts = decode_instructions(&code, &pool).expect("decode");
    let offsets: Vec<u32> = insts.iter().map(|i| i.offset).collect();
    assert_eq!(offsets, vec![0, 1, 3]);
    assert_eq!(insts[1].opcode, 0x10);
}

#[test]
fn decoder_classifies_invokes() {
    let code = vec![0xb6u8, 0x00, 0x01, 0xb1];
    let insts = decode_instructions(&code, &call_pool()).expect("decode");
    match &insts[0].kind {
        InstructionKind::Invoke(c) => {
            assert_eq!(c.owner, "java/lang/Runtime");
            assert_eq!(c.name, "exec");
            assert_eq!(c.descriptor, "(Ljava/lang/String;)V");
            assert_eq!(c.kind, CallKind::Virtual);
            assert_eq!(c.offset, 0);
        },
        other => panic!("expected an invoke, got {:?}", other),
    }
}

#[test]
fn decoder_classifies_interface_calls() {
    let code = vec![0xb9u8, 0x00, 0x01, 0x01, 0x00, 0xb1];
    let insts = decode_instructions(&code, &call_pool()).expect("decode");
    match &insts[0].kind {
        InstructionKind::Invoke(c) => assert_eq!(c.kind, CallKind::Interface),
        other => panic!("expected an invoke, got {:?}", other),
    }
}

#[test]
fn decoder_extracts_string_literals() {
    let code = vec![0x12u8, 0x07, 0xb1];
    let insts = decode_instructions(&code, &call_pool()).expect("decode");
    match &insts[0].kind {
        InstructionKind::ConstString(s) => assert_eq!(s, "hello"),
        other => panic!("expected a string load, got {:?}", other),
    }
}

#[test]
fn ldc_of_non_string_constant_stays_generic() {
    let code = vec![0x12u8, 0x01, 0xb1];
    let insts = decode_instructions(&code, &call_pool()).expect("decode");
    match &insts[0].kind {
        InstructionKind::Other(op) => assert_eq!(*op, 0x12),
        other => panic!("expected a generic instruction, got {:?}", other),
    }
}

#[test]
fn truncated_instruction_fails_decoding() {
    let code = vec![0x10u8];
    let pool: Vec<PoolEntry> = Vec::new();
    assert!(matches!(decode_instructions(&code, &pool), Err(DecodeError::TruncatedRead)));
}

#[test]
fn invoke_with_bad_pool_index_fails_decoding() {
    let code = vec![0xb6u8, 0x00, 0x63, 0xb1];
    assert!(matches!(decode_instructions(&code, &call_pool()), Err(DecodeError::InvalidConstantPool)));
}

#[test]
fn ldc_with_out_of_range_index_fails_decoding() {
    let code = vec![0x12u8, 0x63, 0xb1];
    assert!(matches!(decode_instructions(&code, &call_pool()), Err(DecodeError::InvalidConstantPool)));
}

#[test]
fn call_extraction_is_independent_of_reachability() {
    // an invokevirtual sits in a block only reachable by falling past an
    // unconditional goto that jumps over it; the call is still recorded
    let code = vec![0xa7u8, 0x00, 0x06, 0xb6, 0x00, 0x01, 0xb1];
    let m = decode_method(
        String::from("run"),
        String::from("()V"),
        access(),
        code,
        &call_pool(),
        Vec::new(),
    )
        .expect("decode method");
    // no edge reaches the block holding the call
    let call_block = m.cfg.blocks.iter().find(|b| b.start_offset == 3).expect("call block");
    assert!(!m.cfg.edges.iter().any(|e| e.to == call_block.start_offset));
    assert_eq!(m.calls.len(), 1);
    assert_eq!(m.calls[0].owner, "java/lang/Runtime");
    assert_eq!(m.calls[0].name, "exec");
    assert_eq!(m.calls[0].offset, 3);
}

#[test]
fn decode_method_collects_everything_in_one_pass() {
    let code = vec![0x12u8, 0x07, 0xb6, 0x00, 0x01, 0xb1];
    let m = decode_method(
        String::from("run"),
        String::from("()V"),
        access(),
        code.clone(),
        &call_pool(),
        Vec::new(),
    )
        .expect("decode method");
    assert_eq!(m.bytecode, code);
    assert_eq!(m.calls.len(), 1);
    assert_eq!(m.string_literals, vec![String::from("hello")]);
    assert_eq!(m.name, "run");
    assert_eq!(m.descriptor, "()V");
    assert!(!m.cfg.blocks.is_empty());
}

#[test]
fn protected_blocks_gain_exception_edges() {
    // two plain instructions protected by a handler whose entry point is
    // offset 2; the protected block connects to the handler block
    let code = vec![0x00u8, 0x00, 0x00, 0xb1];
    let pool: Vec<PoolEntry> = Vec::new();
    let handlers = vec![ExceptionHandler {
        start_pc: 0,
        end_pc: 2,
        handler_pc: 2,
        catch_type: None,
    }];
    let m = decode_method(String::from("run"), String::from("()V"), access(), code, &pool, handlers)
        .expect("decode method");
    let starts: Vec<u32> = m.cfg.blocks.iter().map(|b| b.start_offset).collect();
    assert_eq!(starts, vec![0, 2]);
    assert!(m
        .cfg
        .edges
        .iter()
        .any(|e| e.from == 0 && e.to == 2 && e.kind == EdgeKind::Exception));
    assert!(m
        .cfg
        .edges
        .iter()
        .any(|e| e.from == 0 && e.to == 2 && e.kind == EdgeKind::FallThrough));
    // the handler block itself lies outside the protected range
    assert!(!m.cfg.edges.iter().any(|e| e.from == 2 && e.kind == EdgeKind::Exception));
}

#[test]
fn handler_entry_outside_the_code_contributes_nothing() {
    let code = vec![0x00u8, 0x00, 0x00, 0xb1];
    let pool: Vec<PoolEntry> = Vec::new();
    let handlers = vec![ExceptionHandler {
        start_pc: 0,
        end_pc: 2,
        handler_pc: 9,
        catch_type: None,
    }];
    let m = decode_method(String::from("run"), String::from("()V"), access(), code, &pool, handlers)
        .expect("decode method");
    assert_eq!(m.cfg.blocks.len(), 1);
    assert!(!m.cfg.edges.iter().any(|e| e.kind == EdgeKind::Exception));
}

#[test]
fn decode_method_fails_loudly_and_returns_no_graph() {
    let code = vec![0xb6u8, 0x00, 0x63];
    let r = decode_method(
        String::from("run"),
        String::from("()V"),
        access(),
        code,
        &call_pool(),
        Vec::new(),
    );
    assert!(matches!(r, Err(DecodeError::InvalidConstantPool)));
}
