//! The instruction decoder: one linear walk over a method's bytecode that
//! emits a typed instruction at every offset, classifies invoke and
//! string-load instructions through the constant pool, and assembles the
//! method's control flow graph, call sites and string literals.
use vstd::prelude::*;

use crate::cfg;
use crate::cfg::{cfg_blocks_match, lemma_filter_map_take_step, spec_cfg_edges, spec_covers,
    spec_edges_valid, spec_exception_edges, spec_scan_error};
use crate::ir::{CallKind, CallSite, CallSiteV, DecodeError, ExceptionHandler, ExceptionHandlerV,
    FlowEdge, Instruction, InstructionKind, InstructionKindV, InstructionV, Method};
use crate::opcode;
use crate::opcode::{spec_opcode_length, spec_read_u16};
use crate::pool::{resolve_call, resolve_string, spec_resolve_call, spec_resolve_string, PoolEntry,
    PoolEntryV};

verus! {

/// The call kind that an invoke-family opcode dispatches with.
pub open spec fn spec_call_kind(op: u8) -> CallKind {
    if op == opcode::INVOKEINTERFACE {
        CallKind::Interface
    } else if op == opcode::INVOKESPECIAL {
        CallKind::Special
    } else if op == opcode::INVOKESTATIC {
        CallKind::Static
    } else {
        CallKind::Virtual
    }
}

/// Whether `op` is one of the four invoke opcodes the call extractor
/// classifies (`invokedynamic` carries no owner and stays generic).
pub open spec fn spec_is_invoke(op: u8) -> bool {
    op == opcode::INVOKEVIRTUAL || op == opcode::INVOKESPECIAL || op == opcode::INVOKESTATIC
        || op == opcode::INVOKEINTERFACE
}

/// The kind payload of a string-load instruction whose pool index is `idx`:
/// the literal text when the slot is a string constant, a generic
/// instruction when it is a constant of another kind, and a decode error
/// when the index is out of range or the text does not resolve.
pub open spec fn spec_ldc_kind(pool: Seq<PoolEntryV>, idx: int, op: u8) -> Result<
    InstructionKindV,
    DecodeError,
> {
    if !(0 <= idx < pool.len()) {
        Err(DecodeError::InvalidConstantPool)
    } else {
        match pool[idx] {
            PoolEntryV::StringRef(si) => match spec_resolve_string(pool, idx) {
                Some(text) => Ok(InstructionKindV::ConstString(text)),
                None => Err(DecodeError::InvalidConstantPool),
            },
            _ => Ok(InstructionKindV::Other(op)),
        }
    }
}

/// The typed payload of the instruction at `off`, classified through the
/// constant pool; meaningful when the instruction fits the buffer.
pub open spec fn spec_decode_kind(code: Seq<u8>, pool: Seq<PoolEntryV>, off: int) -> Result<
    InstructionKindV,
    DecodeError,
> {
    let op = code[off];
    if spec_is_invoke(op) {
        let idx = spec_read_u16(code, off + 1);
        match spec_resolve_call(pool, idx) {
            Some(t) => Ok(
                InstructionKindV::Invoke(
                    CallSiteV {
                        owner: t.0,
                        name: t.1,
                        descriptor: t.2,
                        kind: spec_call_kind(op),
                        offset: off as u32,
                    },
                ),
            ),
            None => Err(DecodeError::InvalidConstantPool),
        }
    } else if op == opcode::LDC {
        spec_ldc_kind(pool, code[off + 1] as int, op)
    } else if op == opcode::LDC_W {
        spec_ldc_kind(pool, spec_read_u16(code, off + 1), op)
    } else {
        Ok(InstructionKindV::Other(op))
    }
}

/// Decode the instruction stream from `off` to the end of the buffer: a
/// typed instruction at every offset, or the first decode error met.
pub open spec fn spec_decode(code: Seq<u8>, pool: Seq<PoolEntryV>, off: int) -> Result<
    Seq<InstructionV>,
    DecodeError,
>
    decreases code.len() - off,
{
    if off < 0 || off >= code.len() {
        Ok(Seq::empty())
    } else {
        match spec_opcode_length(code, off) {
            Err(e) => Err(e),
            Ok(n) => if n < 1 || off + n > code.len() {
                Err(DecodeError::TruncatedRead)
            } else {
                match spec_decode_kind(code, pool, off) {
                    Err(e) => Err(e),
                    Ok(kind) => match spec_decode(code, pool, off + n) {
                        Err(e) => Err(e),
                        Ok(rest) => Ok(
                            seq![
                                InstructionV { offset: off as u32, opcode: code[off], kind: kind },
                            ] + rest,
                        ),
                    },
                }
            },
        }
    }
}

/// Append a decoded prefix in front of the outcome of decoding the rest.
pub open spec fn spec_decode_join(
    prefix: Seq<InstructionV>,
    r: Result<Seq<InstructionV>, DecodeError>,
) -> Result<Seq<InstructionV>, DecodeError> {
    match r {
        Ok(rest) => Ok(prefix + rest),
        Err(e) => Err(e),
    }
}

/// A decoded stream is well-formed: offsets lie in the buffer, ascend
/// strictly, and each instruction's opcode is the byte at its offset.
pub proof fn lemma_decode_wf(code: Seq<u8>, pool: Seq<PoolEntryV>, off: int)
    requires
        0 <= off,
        code.len() <= opcode::MAX_CODE_LEN,
        spec_decode(code, pool, off) is Ok,
    ensures
        ({
            let r = spec_decode(code, pool, off)->Ok_0;
            &&& forall|k: int|
                0 <= k < r.len() ==> off <= (#[trigger] r[k]).offset && (r[k].offset as int)
                    < code.len()
            &&& forall|i: int, j: int| 0 <= i < j < r.len() ==> r[i].offset < r[j].offset
            &&& forall|k: int|
                0 <= k < r.len() ==> (#[trigger] r[k]).opcode == code[r[k].offset as int]
        }),
    decreases code.len() - off,
{
    if off < code.len() {
        match spec_opcode_length(code, off) {
            Err(e) => {},
            Ok(n) => {
                if 1 <= n && off + n <= code.len() {
                    match spec_decode_kind(code, pool, off) {
                        Err(e) => {},
                        Ok(kind) => {
                            lemma_decode_wf(code, pool, off + n);
                            let rest = spec_decode(code, pool, off + n)->Ok_0;
                            let r = spec_decode(code, pool, off)->Ok_0;
                            assert(r[0].offset == off as u32);
                            assert forall|k: int| 1 <= k < r.len() implies #[trigger] r[k] == rest[
                                k - 1
                            ] by {}
                        },
                    }
                }
            },
        }
    }
}

/// Keeps the invoke instructions.
pub open spec fn is_invoke_pred() -> spec_fn(InstructionV) -> bool {
    |iv: InstructionV| iv.kind is Invoke
}

/// The call site an invoke instruction carries.
pub open spec fn get_call() -> spec_fn(InstructionV) -> CallSiteV {
    |iv: InstructionV| iv.kind->Invoke_0
}

/// Keeps the string-load instructions.
pub open spec fn is_string_pred() -> spec_fn(InstructionV) -> bool {
    |iv: InstructionV| iv.kind is ConstString
}

/// The literal text a string-load instruction carries.
pub open spec fn get_literal() -> spec_fn(InstructionV) -> Seq<char> {
    |iv: InstructionV| iv.kind->ConstString_0
}

/// The call sites of an instruction stream, in offset order — a flat
/// by-product of the decode pass, independent of block membership and of
/// reachability.
pub open spec fn spec_calls(insts: Seq<InstructionV>) -> Seq<CallSiteV> {
    insts.filter(is_invoke_pred()).map_values(get_call())
}

/// The string literals of an instruction stream, in offset order —
/// likewise independent of block membership and of reachability.
pub open spec fn spec_literals(insts: Seq<InstructionV>) -> Seq<Seq<char>> {
    insts.filter(is_string_pred()).map_values(get_literal())
}

/// The handler entry points of an exception-handler table.
pub open spec fn spec_handler_pcs(hs: Seq<ExceptionHandlerV>) -> Seq<u32> {
    hs.map_values(|h: ExceptionHandlerV| h.handler_pc)
}

/// Decode a method's bytecode into its typed instruction list: one
/// instruction for every valid offset, classified through the constant
/// pool, or the first decode error met walking the stream.
pub fn decode_instructions(code: &[u8], pool: &Vec<PoolEntry>) -> (r: Result<
    Vec<Instruction>,
    DecodeError,
>)
    requires
        code@.len() <= opcode::MAX_CODE_LEN,
    ensures
        r matches Ok(v) ==> spec_decode(code@, pool.deep_view(), 0) == Ok::<_, DecodeError>(
            v.deep_view(),
        ),
        r matches Err(e) ==> spec_decode(code@, pool.deep_view(), 0) == Err::<
            Seq<InstructionV>,
            DecodeError,
        >(e),
{
    let ghost pv = pool.deep_view();
    let mut out: Vec<Instruction> = Vec::new();
    let mut off: usize = 0;
    while off < code.len()
        invariant
            off <= code@.len(),
            spec_decode(code@, pv, 0) == spec_decode_join(
                out.deep_view(),
                spec_decode(code@, pv, off as int),
            ),
        decreases code@.len() - off,
    {
        let ghost pre = out.deep_view();
        let op = code[off];
        let n = match opcode::opcode_length(code, off) {
            Err(e) => {
                return Err(e);
            },
            Ok(n) => n,
        };
        if off + n > code.len() {
            return Err(DecodeError::TruncatedRead);
        }
        let kind: InstructionKind = if op == opcode::INVOKEVIRTUAL || op == opcode::INVOKESPECIAL
            || op == opcode::INVOKESTATIC || op == opcode::INVOKEINTERFACE {
            let idx = match opcode::read_u16(code, off + 1) {
                Err(e) => {
                    proof {
                        assert(spec_opcode_length(code@, off as int) == Ok::<int, DecodeError>(
                            opcode::spec_fixed_length(op),
                        ));
                        assert(false);
                    }
                    return Err(e);
                },
                Ok(x) => x,
            };
            match resolve_call(pool, idx) {
                Some(t) => {
                    let (owner, name, descriptor) = t;
                    InstructionKind::Invoke(
                        CallSite {
                            owner: owner,
                            name: name,
                            descriptor: descriptor,
                            kind: if op == opcode::INVOKEINTERFACE {
                                CallKind::Interface
                            } else if op == opcode::INVOKESPECIAL {
                                CallKind::Special
                            } else if op == opcode::INVOKESTATIC {
                                CallKind::Static
                            } else {
                                CallKind::Virtual
                            },
                            offset: off as u32,
                        },
                    )
                },
                None => {
                    return Err(DecodeError::InvalidConstantPool);
                },
            }
        } else if op == opcode::LDC || op == opcode::LDC_W {
            let idx: u16 = if op == opcode::LDC {
                proof {
                    assert(spec_opcode_length(code@, off as int) == Ok::<int, DecodeError>(2));
                }
                code[off + 1] as u16
            } else {
                match opcode::read_u16(code, off + 1) {
                    Err(e) => {
                        proof {
                            assert(spec_opcode_length(code@, off as int) == Ok::<int, DecodeError>(
                                3,
                            ));
                            assert(false);
                        }
                        return Err(e);
                    },
                    Ok(x) => x,
                }
            };
            if (idx as usize) >= pool.len() {
                return Err(DecodeError::InvalidConstantPool);
            }
            let is_string = match &pool[idx as usize] {
                PoolEntry::StringRef(si) => true,
                _ => false,
            };
            if is_string {
                match resolve_string(pool, idx) {
                    Some(s) => InstructionKind::ConstString(s),
                    None => {
                        return Err(DecodeError::InvalidConstantPool);
                    },
                }
            } else {
                InstructionKind::Other(op)
            }
        } else {
            InstructionKind::Other(op)
        };
        proof {
            assert(spec_decode_kind(code@, pv, off as int) == Ok::<InstructionKindV, DecodeError>(
                kind.deep_view(),
            ));
        }
        out.push(Instruction { offset: off as u32, opcode: op, kind: kind });
        proof {
            let iv = InstructionV {
                offset: off as u32,
                opcode: code@[off as int],
                kind: spec_decode_kind(code@, pv, off as int)->Ok_0,
            };
            assert(out.deep_view() =~= pre.push(iv));
            let rest = spec_decode(code@, pv, off + n);
            assert(spec_decode(code@, pv, off as int) == spec_decode_join(seq![iv], rest));
            match rest {
                Ok(rs) => {
                    assert(pre.push(iv) + rs =~= pre + (seq![iv] + rs));
                },
                Err(e) => {},
            }
        }
        off = off + n;
    }
    Ok(out)
}

/// Determinism of the whole decoding pass: the instruction stream is a
/// function of the bytecode and the pool, and any two methods whose graph,
/// calls and literals were derived from it — as `decode_method` promises —
/// agree on all three, ordering and all.
pub proof fn lemma_decode_method_deterministic(
    code: Seq<u8>,
    pool: Seq<PoolEntryV>,
    handlers: Seq<ExceptionHandlerV>,
    m1: crate::ir::MethodV,
    m2: crate::ir::MethodV,
)
    requires
        spec_decode(code, pool, 0) is Ok,
        cfg_blocks_match(
            code,
            spec_decode(code, pool, 0)->Ok_0,
            spec_handler_pcs(handlers),
            m1.cfg.blocks,
        ),
        cfg_blocks_match(
            code,
            spec_decode(code, pool, 0)->Ok_0,
            spec_handler_pcs(handlers),
            m2.cfg.blocks,
        ),
        m1.cfg.edges == spec_cfg_edges(code, m1.cfg.blocks) + spec_exception_edges(
            m1.cfg.blocks,
            handlers,
        ),
        m2.cfg.edges == spec_cfg_edges(code, m2.cfg.blocks) + spec_exception_edges(
            m2.cfg.blocks,
            handlers,
        ),
        m1.calls == spec_calls(spec_decode(code, pool, 0)->Ok_0),
        m2.calls == spec_calls(spec_decode(code, pool, 0)->Ok_0),
        m1.string_literals == spec_literals(spec_decode(code, pool, 0)->Ok_0),
        m2.string_literals == spec_literals(spec_decode(code, pool, 0)->Ok_0),
    ensures
        m1.cfg == m2.cfg,
        m1.calls == m2.calls,
        m1.string_literals == m2.string_literals,
{
    crate::cfg::lemma_blocks_deterministic(
        code,
        spec_decode(code, pool, 0)->Ok_0,
        spec_handler_pcs(handlers),
        m1.cfg.blocks,
        m2.cfg.blocks,
    );
    assert(m1.cfg.edges == m2.cfg.edges);
    assert(m1.cfg =~~= m2.cfg);
}

/// Decode one method bottom-up in a single pass: its typed instructions,
/// its control flow graph, and its flat call-site and string-literal lists,
/// all derived from the same bytecode buffer. Fails loudly on the first
/// decode error and never returns a partially built method.
///
/// The call and literal lists are functions of the instruction stream
/// alone: an invoke inside an unreachable block is still recorded. The
/// `Exception` edges from each protected block to its handler's block
/// stand appended behind the branch and fall-through edges.
pub fn decode_method(
    name: String,
    descriptor: String,
    access: crate::ir::MethodAccess,
    bytecode: Vec<u8>,
    pool: &Vec<PoolEntry>,
    exception_handlers: Vec<ExceptionHandler>,
) -> (r: Result<Method, DecodeError>)
    requires
        bytecode@.len() <= opcode::MAX_CODE_LEN,
    ensures
        r matches Ok(m) ==> ({
            let insts = spec_decode(bytecode@, pool.deep_view(), 0)->Ok_0;
            &&& spec_decode(bytecode@, pool.deep_view(), 0) is Ok
            &&& spec_scan_error(bytecode@, insts, 0) is None
            &&& m.deep_view().name == name@
            &&& m.deep_view().descriptor == descriptor@
            &&& m.deep_view().access == access
            &&& m.deep_view().bytecode == bytecode@
            &&& cfg_blocks_match(
                bytecode@,
                insts,
                spec_handler_pcs(exception_handlers.deep_view()),
                m.deep_view().cfg.blocks,
            )
            &&& m.deep_view().cfg.edges == spec_cfg_edges(bytecode@, m.deep_view().cfg.blocks)
                + spec_exception_edges(m.deep_view().cfg.blocks, exception_handlers.deep_view())
            &&& spec_covers(m.deep_view().cfg.blocks, bytecode@.len() as int)
            &&& spec_edges_valid(m.deep_view().cfg)
            &&& m.deep_view().calls == spec_calls(insts)
            &&& m.deep_view().string_literals == spec_literals(insts)
            &&& m.deep_view().exception_handlers == exception_handlers.deep_view()
        }),
        r matches Err(e) ==> (match spec_decode(bytecode@, pool.deep_view(), 0) {
            Err(e0) => e == e0,
            Ok(insts) => spec_scan_error(bytecode@, insts, 0) == Some(e),
        }),
{
    let ghost pv = pool.deep_view();
    let insts = match decode_instructions(bytecode.as_slice(), pool) {
        Err(e) => {
            return Err(e);
        },
        Ok(v) => v,
    };
    let ghost ivd = insts.deep_view();
    proof {
        lemma_decode_wf(bytecode@, pv, 0);
        assert forall|k: int| 0 <= k < insts@.len() implies (#[trigger] insts@[k]).offset
            == ivd[k].offset by {}
    }
    let mut hp: Vec<u32> = Vec::new();
    let mut h: usize = 0;
    while h < exception_handlers.len()
        invariant
            h <= exception_handlers@.len(),
            hp@.len() == h,
            forall|k: int|
                0 <= k < h ==> (#[trigger] hp@[k]) == exception_handlers@[k].handler_pc,
        decreases exception_handlers@.len() - h,
    {
        hp.push(exception_handlers[h].handler_pc);
        h = h + 1;
    }
    proof {
        assert(hp@ =~= spec_handler_pcs(exception_handlers.deep_view()));
    }
    let mut graph = match cfg::build_cfg(bytecode.as_slice(), insts.as_slice(), hp.as_slice()) {
        Err(e) => {
            return Err(e);
        },
        Ok(g) => g,
    };
    let ghost bdv0 = graph.blocks.deep_view();
    let ghost base_edges = graph.edges@;
    let exc = cfg::exception_edges(&graph.blocks, &exception_handlers);
    proof {
        assert(exc@.take(0) =~= Seq::<FlowEdge>::empty());
        assert(base_edges + Seq::<FlowEdge>::empty() =~= base_edges);
    }
    let mut xi: usize = 0;
    while xi < exc.len()
        invariant
            xi <= exc@.len(),
            graph.blocks.deep_view() == bdv0,
            graph.edges@ == base_edges + exc@.take(xi as int),
        decreases exc@.len() - xi,
    {
        let ghost epre = graph.edges@;
        graph.edges.push(exc[xi]);
        proof {
            assert(epre.push(exc@[xi as int]) =~= base_edges + exc@.take(xi + 1));
        }
        xi = xi + 1;
    }
    proof {
        assert(exc@.take(exc@.len() as int) =~= exc@);
        assert(graph.edges@ == base_edges + exc@);
        // every appended edge also starts and ends on a block boundary
        cfg::lemma_exception_edges_props(
            bdv0,
            exception_handlers.deep_view(),
            bdv0.len() as int,
        );
        assert forall|i: int|
            0 <= i < graph.edges@.len() implies cfg::spec_has_start(
            bdv0,
            (#[trigger] graph.edges@[i]).from as int,
        ) && cfg::spec_has_start(bdv0, graph.edges@[i].to as int) by {
            if i < base_edges.len() {
                assert(graph.edges@[i] == base_edges[i]);
            } else {
                assert(graph.edges@[i] == exc@[i - base_edges.len()]);
            }
        }
    }
    let mut calls: Vec<CallSite> = Vec::new();
    let mut literals: Vec<String> = Vec::new();
    let mut j: usize = 0;
    while j < insts.len()
        invariant
            j <= insts@.len(),
            calls.deep_view() == spec_calls(ivd.take(j as int)),
            literals.deep_view() == spec_literals(ivd.take(j as int)),
        decreases insts@.len() - j,
    {
        let ghost cpre = calls.deep_view();
        let ghost lpre = literals.deep_view();
        match &insts[j].kind {
            InstructionKind::Invoke(c) => {
                calls.push(c.clone());
                proof {
                    assert(calls.deep_view() =~= cpre.push(ivd[j as int].kind->Invoke_0));
                }
            },
            InstructionKind::ConstString(s) => {
                literals.push(s.clone());
                proof {
                    assert(literals.deep_view() =~= lpre.push(ivd[j as int].kind->ConstString_0));
                }
            },
            InstructionKind::Other(x) => {},
        }
        proof {
            lemma_filter_map_take_step(ivd, is_invoke_pred(), get_call(), j as int);
            lemma_filter_map_take_step(ivd, is_string_pred(), get_literal(), j as int);
            assert(is_invoke_pred()(ivd[j as int]) == (insts@[j as int].kind is Invoke));
            assert(is_string_pred()(ivd[j as int]) == (insts@[j as int].kind is ConstString));
        }
        j = j + 1;
    }
    proof {
        assert(ivd.take(ivd.len() as int) =~= ivd);
    }
    let m = Method {
        name: name,
        descriptor: descriptor,
        access: access,
        bytecode: bytecode,
        cfg: graph,
        calls: calls,
        string_literals: literals,
        exception_handlers: exception_handlers,
    };
    Ok(m)
}

} // verus!
