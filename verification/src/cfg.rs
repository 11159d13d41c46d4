//! Branch-target resolution and control-flow-graph construction: the pass
//! that partitions a method's bytecode into basic blocks and connects them
//! with typed edges.
use vstd::prelude::*;
use vstd::arithmetic::div_mod::lemma_mod_multiples_vanish;

use crate::ir::{BasicBlock, BasicBlockV, ControlFlowGraph, ControlFlowGraphV, DecodeError,
    EdgeKind, ExceptionHandler, ExceptionHandlerV, FlowEdge, Instruction, InstructionV};
use crate::opcode;
use crate::opcode::{read_i16, read_i32, spec_opcode_length, spec_padding, spec_read_i16,
    spec_read_i32};

verus! {

/// Reduce an absolute target computed in wide signed arithmetic to the
/// method's native 16-bit offset width (two's-complement truncation).
pub open spec fn trunc16(x: int) -> u16 {
    (x % 0x10000) as u16
}

/// Targets of a `tableswitch` at `offset`: the default target first, then
/// one per case in ascending index order.
pub open spec fn spec_tableswitch_targets(code: Seq<u8>, offset: int) -> Result<
    Seq<u16>,
    DecodeError,
> {
    let base = offset + 1 + spec_padding(offset);
    if base + 12 > code.len() {
        Err(DecodeError::TruncatedRead)
    } else {
        let low = spec_read_i32(code, base + 4);
        let high = spec_read_i32(code, base + 8);
        if high < low {
            Err(DecodeError::InvalidSwitchTable)
        } else if high - low + 1 > 0x7fffffff {
            Err(DecodeError::InvalidSwitchTable)
        } else if base + 12 + 4 * (high - low + 1) > code.len() {
            Err(DecodeError::TruncatedRead)
        } else {
            Ok(
                Seq::new(
                    (high - low + 2) as nat,
                    |i: int|
                        if i == 0 {
                            trunc16(offset + spec_read_i32(code, base))
                        } else {
                            trunc16(offset + spec_read_i32(code, base + 12 + 4 * (i - 1)))
                        },
                ),
            )
        }
    }
}

/// Targets of a `lookupswitch` at `offset`: the default target first, then
/// one per match/offset pair in declaration order.
pub open spec fn spec_lookupswitch_targets(code: Seq<u8>, offset: int) -> Result<
    Seq<u16>,
    DecodeError,
> {
    let base = offset + 1 + spec_padding(offset);
    if base + 8 > code.len() {
        Err(DecodeError::TruncatedRead)
    } else {
        let npairs = spec_read_i32(code, base + 4);
        if npairs < 0 {
            Err(DecodeError::InvalidSwitchTable)
        } else if base + 8 + 8 * npairs > code.len() {
            Err(DecodeError::TruncatedRead)
        } else {
            Ok(
                Seq::new(
                    (npairs + 1) as nat,
                    |i: int|
                        if i == 0 {
                            trunc16(offset + spec_read_i32(code, base))
                        } else {
                            trunc16(offset + spec_read_i32(code, base + 8 + 8 * (i - 1) + 4))
                        },
                ),
            )
        }
    }
}

/// Absolute targets of the branch-capable instruction at `offset`:
/// `Ok(None)` when the opcode has no explicit targets, otherwise the ordered
/// non-empty target list, or the decode error that resolving them signals.
pub open spec fn spec_branch_targets(code: Seq<u8>, offset: int) -> Result<
    Option<Seq<u16>>,
    DecodeError,
> {
    let op = code[offset];
    if (opcode::IFEQ <= op && op <= opcode::JSR) || op == opcode::IFNULL || op
        == opcode::IFNONNULL {
        if offset + 3 > code.len() {
            Err(DecodeError::TruncatedRead)
        } else {
            Ok(Some(seq![trunc16(offset + spec_read_i16(code, offset + 1))]))
        }
    } else if op == opcode::GOTO_W || op == opcode::JSR_W {
        if offset + 5 > code.len() {
            Err(DecodeError::TruncatedRead)
        } else {
            Ok(Some(seq![trunc16(offset + spec_read_i32(code, offset + 1))]))
        }
    } else if op == opcode::TABLESWITCH {
        match spec_tableswitch_targets(code, offset) {
            Ok(ts) => Ok(Some(ts)),
            Err(e) => Err(e),
        }
    } else if op == opcode::LOOKUPSWITCH {
        match spec_lookupswitch_targets(code, offset) {
            Ok(ts) => Ok(Some(ts)),
            Err(e) => Err(e),
        }
    } else {
        Ok(None)
    }
}

/// Add a signed branch operand to the instruction's own offset and truncate
/// the sum to the native 16-bit offset width.
fn rel_target(offset: usize, delta: i32) -> (t: u16)
    requires
        offset <= opcode::MAX_CODE_LEN,
    ensures
        t == trunc16(offset + delta),
{
    if delta >= 0 {
        let sum: u64 = offset as u64 + delta as u64;
        let m: u64 = sum % 0x10000;
        m as u16
    } else {
        let neg: u64 = (-(delta as i64)) as u64;
        let sum: u64 = offset as u64 + 0x100000000u64 - neg;
        let m: u64 = sum % 0x10000;
        proof {
            lemma_mod_multiples_vanish(0x10000, offset + delta, 0x10000);
        }
        m as u16
    }
}

/// Exit opcodes: the `return` family and `athrow`.
pub open spec fn spec_is_exit(op: u8) -> bool {
    op == opcode::IRETURN || op == opcode::LRETURN || op == opcode::FRETURN || op
        == opcode::DRETURN || op == opcode::ARETURN || op == opcode::RETURN || op == opcode::ATHROW
}

/// Whether `opcode` always leaves the method or throws: one of the `return`
/// family or `athrow`.
pub fn is_exit_opcode(op: u8) -> (r: bool)
    ensures
        r == spec_is_exit(op),
{
    op == opcode::IRETURN || op == opcode::LRETURN || op == opcode::FRETURN || op
        == opcode::DRETURN || op == opcode::ARETURN || op == opcode::RETURN || op == opcode::ATHROW
}

/// Unconditional-transfer opcodes: `goto`, `jsr`, `goto_w`, `jsr_w`.
pub open spec fn spec_is_unconditional_branch(op: u8) -> bool {
    op == opcode::GOTO || op == opcode::JSR || op == opcode::GOTO_W || op == opcode::JSR_W
}

/// Whether `opcode` transfers control unconditionally, so that no
/// fall-through edge leaves a block it terminates.
pub fn is_unconditional_branch(op: u8) -> (r: bool)
    ensures
        r == spec_is_unconditional_branch(op),
{
    op == opcode::GOTO || op == opcode::JSR || op == opcode::GOTO_W || op == opcode::JSR_W
}

/// Resolve the targets of a `tableswitch` at `offset`.
pub fn tableswitch_targets(code: &[u8], offset: usize) -> (r: Result<Vec<u16>, DecodeError>)
    requires
        offset < code@.len(),
        code@.len() <= opcode::MAX_CODE_LEN,
    ensures
        match r {
            Ok(v) => spec_tableswitch_targets(code@, offset as int) == Ok::<_, DecodeError>(v@),
            Err(e) => spec_tableswitch_targets(code@, offset as int) == Err::<Seq<u16>, _>(e),
        },
{
    let pad = opcode::padding(offset);
    let base = offset + 1 + pad;
    if code.len() < 12 || base > code.len() - 12 {
        return Err(DecodeError::TruncatedRead);
    }
    let default = read_i32(code, base)?;
    let low = read_i32(code, base + 4)?;
    let high = read_i32(code, base + 8)?;
    if high < low {
        return Err(DecodeError::InvalidSwitchTable);
    }
    let count: i64 = high as i64 - low as i64 + 1;
    if count > 0x7fffffff {
        return Err(DecodeError::InvalidSwitchTable);
    }
    let rem: usize = code.len() - (base + 12);
    if 4 * count > rem as i64 {
        return Err(DecodeError::TruncatedRead);
    }
    let count_us: usize = count as usize;
    let ghost expected = spec_tableswitch_targets(code@, offset as int)->Ok_0;
    let mut targets: Vec<u16> = Vec::new();
    targets.push(rel_target(offset, default));
    let mut idx: usize = 0;
    while idx < count_us
        invariant
            targets@.len() == idx + 1,
            forall|k: int| 0 <= k <= idx ==> targets@[k] == expected[k],
            idx <= count_us,
        decreases count_us - idx,
    {
        let entry = read_i32(code, base + 12 + 4 * idx)?;
        targets.push(rel_target(offset, entry));
        idx = idx + 1;
    }
    proof {
        assert(targets@ =~= expected);
    }
    Ok(targets)
}

/// Resolve the targets of a `lookupswitch` at `offset`.
pub fn lookupswitch_targets(code: &[u8], offset: usize) -> (r: Result<Vec<u16>, DecodeError>)
    requires
        offset < code@.len(),
        code@.len() <= opcode::MAX_CODE_LEN,
    ensures
        match r {
            Ok(v) => spec_lookupswitch_targets(code@, offset as int) == Ok::<_, DecodeError>(v@),
            Err(e) => spec_lookupswitch_targets(code@, offset as int) == Err::<Seq<u16>, _>(e),
        },
{
    let pad = opcode::padding(offset);
    let base = offset + 1 + pad;
    if code.len() < 8 || base > code.len() - 8 {
        return Err(DecodeError::TruncatedRead);
    }
    let default = read_i32(code, base)?;
    let npairs = read_i32(code, base + 4)?;
    if npairs < 0 {
        return Err(DecodeError::InvalidSwitchTable);
    }
    let rem: usize = code.len() - (base + 8);
    if 8 * (npairs as i64) > rem as i64 {
        return Err(DecodeError::TruncatedRead);
    }
    let count_us: usize = npairs as usize;
    let ghost expected = spec_lookupswitch_targets(code@, offset as int)->Ok_0;
    let mut targets: Vec<u16> = Vec::new();
    targets.push(rel_target(offset, default));
    let mut idx: usize = 0;
    while idx < count_us
        invariant
            targets@.len() == idx + 1,
            forall|k: int| 0 <= k <= idx ==> targets@[k] == expected[k],
            idx <= count_us,
        decreases count_us - idx,
    {
        let entry = read_i32(code, base + 8 + 8 * idx + 4)?;
        targets.push(rel_target(offset, entry));
        idx = idx + 1;
    }
    proof {
        assert(targets@ =~= expected);
    }
    Ok(targets)
}

/// Absolute targets of the instruction at `offset`: `Ok(None)` when its
/// opcode has no explicit targets, else the ordered non-empty target list.
pub fn branch_targets(code: &[u8], offset: usize) -> (r: Result<Option<Vec<u16>>, DecodeError>)
    requires
        offset < code@.len(),
        code@.len() <= opcode::MAX_CODE_LEN,
    ensures
        match r {
            Ok(Some(v)) => spec_branch_targets(code@, offset as int) == Ok::<_, DecodeError>(
                Some(v@),
            ),
            Ok(None) => spec_branch_targets(code@, offset as int) == Ok::<_, DecodeError>(
                None::<Seq<u16>>,
            ),
            Err(e) => spec_branch_targets(code@, offset as int) == Err::<Option<Seq<u16>>, _>(e),
        },
{
    let op = code[offset];
    if (opcode::IFEQ <= op && op <= opcode::JSR) || op == opcode::IFNULL || op
        == opcode::IFNONNULL {
        let d = read_i16(code, offset + 1)?;
        let v = vec![rel_target(offset, d as i32)];
        proof {
            assert(v@ =~= seq![trunc16(offset + spec_read_i16(code@, offset + 1))]);
        }
        Ok(Some(v))
    } else if op == opcode::GOTO_W || op == opcode::JSR_W {
        let d = read_i32(code, offset + 1)?;
        let v = vec![rel_target(offset, d)];
        proof {
            assert(v@ =~= seq![trunc16(offset + spec_read_i32(code@, offset + 1))]);
        }
        Ok(Some(v))
    } else if op == opcode::TABLESWITCH {
        Ok(Some(tableswitch_targets(code, offset)?))
    } else if op == opcode::LOOKUPSWITCH {
        Ok(Some(lookupswitch_targets(code, offset)?))
    } else {
        Ok(None)
    }
}

// ---------------------------------------------------------------------------
// Leader-set construction and block/edge models
// ---------------------------------------------------------------------------

/// The length value of an `Ok` opcode-length result (meaningful only then).
pub open spec fn spec_ok_len(code: Seq<u8>, off: int) -> int {
    spec_opcode_length(code, off)->Ok_0
}

/// The decode error, if any, that scanning instruction `iv` for leaders
/// signals: resolving its targets, then (for branch and exit instructions)
/// computing its length.
pub open spec fn spec_inst_check(code: Seq<u8>, iv: InstructionV) -> Option<DecodeError> {
    match spec_branch_targets(code, iv.offset as int) {
        Err(e) => Some(e),
        Ok(Some(ts)) => match spec_opcode_length(code, iv.offset as int) {
            Err(e) => Some(e),
            Ok(n) => None,
        },
        Ok(None) => if spec_is_exit(iv.opcode) {
            match spec_opcode_length(code, iv.offset as int) {
                Err(e) => Some(e),
                Ok(n) => None,
            }
        } else {
            None
        },
    }
}

/// First decode error that the leader scan meets from instruction `i` on.
pub open spec fn spec_scan_error(code: Seq<u8>, insts: Seq<InstructionV>, i: int) -> Option<
    DecodeError,
>
    decreases insts.len() - i,
{
    if i < 0 || i >= insts.len() {
        None
    } else {
        match spec_inst_check(code, insts[i]) {
            Some(e) => Some(e),
            None => spec_scan_error(code, insts, i + 1),
        }
    }
}

/// Leader offsets contributed by one instruction: its branch targets and,
/// for branch and exit instructions, the offset just past it.
pub open spec fn spec_inst_leaders(code: Seq<u8>, iv: InstructionV) -> Set<int> {
    match spec_branch_targets(code, iv.offset as int) {
        Ok(Some(ts)) => Set::new(
            |x: int|
                (exists|j: int| 0 <= j < ts.len() && ts[j] as int == x) || x == iv.offset
                    + spec_ok_len(code, iv.offset as int),
        ),
        Ok(None) => if spec_is_exit(iv.opcode) {
            Set::new(|x: int| x == iv.offset + spec_ok_len(code, iv.offset as int))
        } else {
            Set::empty()
        },
        Err(e) => Set::empty(),
    }
}

/// Leaders gathered from the method entry, the handler table, and the first
/// `n` instructions.
pub open spec fn spec_leader_set_upto(
    code: Seq<u8>,
    insts: Seq<InstructionV>,
    handlers: Seq<u32>,
    n: int,
) -> Set<int> {
    Set::new(
        |x: int|
            x == 0 || (exists|i: int| 0 <= i < handlers.len() && handlers[i] as int == x) || (
            exists|i: int| 0 <= i < n && (#[trigger] spec_inst_leaders(code, insts[i])).contains(x)),
    )
}

/// The full leader set of the method (before discarding offsets past the
/// end of the code).
pub open spec fn spec_leader_set(
    code: Seq<u8>,
    insts: Seq<InstructionV>,
    handlers: Seq<u32>,
) -> Set<int> {
    spec_leader_set_upto(code, insts, handlers, insts.len() as int)
}

/// The members of `s` that lie in `[0, len)`.
pub open spec fn clamp_set(s: Set<int>, len: int) -> Set<int> {
    Set::new(|x: int| s.contains(x) && 0 <= x < len)
}

/// Leaders that survive the defensive clamp: only offsets inside the code
/// buffer begin blocks.
pub open spec fn spec_start_set(
    code: Seq<u8>,
    insts: Seq<InstructionV>,
    handlers: Seq<u32>,
) -> Set<int> {
    clamp_set(spec_leader_set(code, insts, handlers), code.len() as int)
}

/// The offsets that a leader list holds, as a set of integers.
pub open spec fn u32_set(s: Seq<u32>) -> Set<int> {
    Set::new(|x: int| exists|i: int| 0 <= i < s.len() && (#[trigger] s[i]) as int == x)
}

/// Leaders known before any instruction is scanned: the method entry and the
/// first `n` exception-handler entry points.
pub open spec fn handler_set_upto(handlers: Seq<u32>, n: int) -> Set<int> {
    Set::new(
        |x: int|
            x == 0 || (exists|i: int| 0 <= i < n && (#[trigger] handlers[i]) as int == x),
    )
}

/// Some block in `blocks` starts at offset `off`.
pub open spec fn spec_has_start(blocks: Seq<BasicBlockV>, off: int) -> bool {
    exists|k: int| 0 <= k < blocks.len() && (#[trigger] blocks[k]).start_offset as int == off
}

/// Keeps the instructions whose offset lies in `[lo, hi)`.
pub open spec fn in_range_pred(lo: int, hi: int) -> spec_fn(InstructionV) -> bool {
    |iv: InstructionV| lo <= iv.offset as int && (iv.offset as int) < hi
}

/// The instructions of `s` whose offset lies in `[lo, hi)`, in order.
pub open spec fn inst_filter(s: Seq<InstructionV>, lo: int, hi: int) -> Seq<InstructionV> {
    s.filter(in_range_pred(lo, hi))
}

/// Keeps the targets that land on a block boundary.
pub open spec fn is_start_pred(blocks: Seq<BasicBlockV>) -> spec_fn(u16) -> bool {
    |t: u16| spec_has_start(blocks, t as int)
}

/// Turns a target into a `Branch` edge out of the block starting at `from`.
pub open spec fn to_branch_edge(from: u32) -> spec_fn(u16) -> FlowEdge {
    |t: u16| FlowEdge { from: from, to: t as u32, kind: EdgeKind::Branch }
}

/// `Branch` edges from the block starting at `from` to every target that
/// lands on a block boundary, in target order.
pub open spec fn spec_branch_edges(blocks: Seq<BasicBlockV>, from: u32, ts: Seq<u16>) -> Seq<
    FlowEdge,
> {
    ts.filter(is_start_pred(blocks)).map_values(to_branch_edge(from))
}

/// Outgoing edges of block `b`, read off its terminal instruction: `Branch`
/// edges for explicit targets, plus a `FallThrough` edge to the next block
/// unless the terminal instruction transfers control unconditionally or
/// exits the method.
pub open spec fn spec_block_edges(
    code: Seq<u8>,
    blocks: Seq<BasicBlockV>,
    b: BasicBlockV,
) -> Seq<FlowEdge> {
    if b.instructions.len() == 0 {
        Seq::empty()
    } else {
        let last = b.instructions.last();
        let ft = seq![
            FlowEdge { from: b.start_offset, to: b.end_offset, kind: EdgeKind::FallThrough },
        ];
        match spec_branch_targets(code, last.offset as int) {
            Ok(Some(ts)) => spec_branch_edges(blocks, b.start_offset, ts) + (
            if !spec_is_unconditional_branch(last.opcode) && spec_has_start(
                blocks,
                b.end_offset as int,
            ) {
                ft
            } else {
                Seq::empty()
            }),
            Ok(None) => if !spec_is_exit(last.opcode) && spec_has_start(
                blocks,
                b.end_offset as int,
            ) {
                ft
            } else {
                Seq::empty()
            },
            Err(e) => Seq::empty(),
        }
    }
}

/// Edges of the first `n` blocks, in block order then target order.
pub open spec fn spec_cfg_edges_upto(code: Seq<u8>, blocks: Seq<BasicBlockV>, n: int) -> Seq<
    FlowEdge,
>
    decreases n,
{
    if n <= 0 {
        Seq::empty()
    } else {
        spec_cfg_edges_upto(code, blocks, n - 1) + spec_block_edges(code, blocks, blocks[n - 1])
    }
}

/// All edges of the graph whose blocks are `blocks`.
pub open spec fn spec_cfg_edges(code: Seq<u8>, blocks: Seq<BasicBlockV>) -> Seq<FlowEdge> {
    spec_cfg_edges_upto(code, blocks, blocks.len() as int)
}

/// The graph `g` is the control flow graph of `code` under instruction list
/// `insts` and handler offsets `handlers`: its block starts are exactly the
/// in-range leaders in ascending order, each block ends where the next one
/// starts (the last at the end of the code), each block holds exactly the
/// instructions in its range, and the edges are read off the blocks'
/// terminal instructions.
pub open spec fn cfg_matches(
    code: Seq<u8>,
    insts: Seq<InstructionV>,
    handlers: Seq<u32>,
    g: ControlFlowGraphV,
) -> bool {
    &&& cfg_blocks_match(code, insts, handlers, g.blocks)
    &&& g.edges == spec_cfg_edges(code, g.blocks)
}

/// The block-partition half of `cfg_matches`: the blocks of `code` under
/// instruction list `insts` and handler offsets `handlers` are exactly the
/// in-range leaders in ascending order, chained end to start, each holding
/// exactly the instructions in its range.
pub open spec fn cfg_blocks_match(
    code: Seq<u8>,
    insts: Seq<InstructionV>,
    handlers: Seq<u32>,
    blocks: Seq<BasicBlockV>,
) -> bool {
    &&& forall|i: int, j: int|
        0 <= i < j < blocks.len() ==> (#[trigger] blocks[i]).start_offset < (
        #[trigger] blocks[j]).start_offset
    &&& forall|k: int|
        0 <= k < blocks.len() ==> spec_start_set(code, insts, handlers).contains(
            (#[trigger] blocks[k]).start_offset as int,
        )
    &&& forall|x: int|
        spec_start_set(code, insts, handlers).contains(x) ==> spec_has_start(blocks, x)
    &&& forall|k: int|
        0 <= k < blocks.len() ==> (#[trigger] blocks[k]).end_offset as int == (
        if k + 1 < blocks.len() {
            blocks[k + 1].start_offset as int
        } else {
            code.len() as int
        })
    &&& forall|k: int|
        0 <= k < blocks.len() ==> (#[trigger] blocks[k]).instructions == inst_filter(
            insts,
            blocks[k].start_offset as int,
            blocks[k].end_offset as int,
        )
}

/// Blocks partition `[0, code_len)`: sorted ascending, no gaps, no overlaps,
/// starting at offset zero and ending at the code length.
pub open spec fn spec_covers(blocks: Seq<BasicBlockV>, code_len: int) -> bool {
    &&& forall|k: int|
        0 <= k < blocks.len() ==> ((#[trigger] blocks[k]).start_offset as int) < blocks[
            k
        ].end_offset as int
    &&& forall|k: int|
        0 <= k < blocks.len() - 1 ==> (#[trigger] blocks[k]).end_offset == blocks[
            k + 1
        ].start_offset
    &&& (blocks.len() == 0 ==> code_len == 0)
    &&& (blocks.len() > 0 ==> blocks[0].start_offset == 0 && blocks.last().end_offset as int
        == code_len)
}

/// Every edge endpoint is the start offset of some block.
pub open spec fn spec_edges_valid(g: ControlFlowGraphV) -> bool {
    forall|i: int|
        0 <= i < g.edges.len() ==> spec_has_start(g.blocks, (#[trigger] g.edges[i]).from as int)
            && spec_has_start(g.blocks, g.edges[i].to as int)
}

/// A strictly ascending offset list (sorted, duplicate-free).
pub open spec fn strictly_increasing(s: Seq<u32>) -> bool {
    forall|i: int, j: int| 0 <= i < j < s.len() ==> s[i] < s[j]
}

// ---------------------------------------------------------------------------
// Small sequence lemmas used by the builder
// ---------------------------------------------------------------------------

/// Filtering a sequence extended by one element keeps the filtered prefix
/// and appends the element exactly when it satisfies the predicate.
pub proof fn lemma_filter_push<A>(s: Seq<A>, p: spec_fn(A) -> bool, x: A)
    ensures
        s.push(x).filter(p) == (if p(x) {
            s.filter(p).push(x)
        } else {
            s.filter(p)
        }),
{
    assert(s.push(x).drop_last() =~= s);
    assert(s.push(x).last() == x);
    reveal_with_fuel(Seq::filter, 2);
}

/// Mapping a sequence extended by one element appends the mapped element.
pub proof fn lemma_map_push<A, B>(s: Seq<A>, f: spec_fn(A) -> B, x: A)
    ensures
        s.push(x).map_values(f) == s.map_values(f).push(f(x)),
{
    assert(s.push(x).map_values(f) =~= s.map_values(f).push(f(x)));
}

/// The leader scan fails from the start exactly as it fails from `i` when
/// the first `i` instructions scan cleanly.
pub proof fn lemma_scan_error_prefix(code: Seq<u8>, insts: Seq<InstructionV>, j: int, i: int)
    requires
        0 <= j <= i <= insts.len(),
        forall|k: int| j <= k < i ==> spec_inst_check(code, #[trigger] insts[k]) is None,
    ensures
        spec_scan_error(code, insts, j) == spec_scan_error(code, insts, i),
    decreases i - j,
{
    if j < i {
        lemma_scan_error_prefix(code, insts, j + 1, i);
    }
}

/// Every element of a filtered sequence is an element of the source.
pub proof fn lemma_filter_sub<A>(s: Seq<A>, p: spec_fn(A) -> bool, i: int)
    requires
        0 <= i < s.filter(p).len(),
    ensures
        s.contains(s.filter(p)[i]),
    decreases s.len(),
{
    reveal(Seq::filter);
    if s.len() > 0 {
        let rest = s.drop_last();
        if p(s.last()) && i == s.filter(p).len() - 1 {
            assert(s.filter(p)[i] == s.last());
            assert(s[s.len() - 1] == s.last());
        } else {
            lemma_filter_sub(rest, p, i);
            let j = choose|j: int| 0 <= j < rest.len() && rest[j] == rest.filter(p)[i];
            assert(s[j] == rest[j]);
        }
    }
}

/// Filter-then-map over a one-element extension of a prefix.
pub proof fn lemma_filter_map_take_step<A, B>(
    s: Seq<A>,
    p: spec_fn(A) -> bool,
    f: spec_fn(A) -> B,
    j: int,
)
    requires
        0 <= j < s.len(),
    ensures
        s.take(j + 1).filter(p).map_values(f) == (if p(s[j]) {
            s.take(j).filter(p).map_values(f).push(f(s[j]))
        } else {
            s.take(j).filter(p).map_values(f)
        }),
{
    assert(s.take(j + 1) =~= s.take(j).push(s[j]));
    lemma_filter_push(s.take(j), p, s[j]);
    if p(s[j]) {
        lemma_map_push(s.take(j).filter(p), f, s[j]);
    }
}

/// Two strictly ascending offset lists with the same members are equal.
pub proof fn lemma_sorted_unique_equal(a: Seq<u32>, b: Seq<u32>)
    requires
        strictly_increasing(a),
        strictly_increasing(b),
        forall|x: u32| a.contains(x) <==> b.contains(x),
    ensures
        a == b,
    decreases a.len(),
{
    if a.len() == 0 {
        if b.len() > 0 {
            assert(b.contains(b[0]));
            assert(a.contains(b[0]));
        }
        assert(a =~= b);
    } else {
        assert(a.contains(a[0]));
        assert(b.contains(a[0]));
        let ib = choose|ib: int| 0 <= ib < b.len() && b[ib] == a[0];
        if ib > 0 {
            assert(b.contains(b[0]));
            assert(a.contains(b[0]));
            let ia = choose|ia: int| 0 <= ia < a.len() && a[ia] == b[0];
            assert(b[0] < b[ib]);
            if ia > 0 {
                assert(a[0] < a[ia]);
            }
            assert(false);
        }
        let a1 = a.subrange(1, a.len() as int);
        let b1 = b.subrange(1, b.len() as int);
        assert forall|x: u32| a1.contains(x) implies b1.contains(x) by {
            let i = choose|i: int| 0 <= i < a1.len() && a1[i] == x;
            assert(a[i + 1] == x);
            assert(a[0] < x);
            assert(a.contains(x));
            assert(b.contains(x));
            let j = choose|j: int| 0 <= j < b.len() && b[j] == x;
            assert(j > 0);
            assert(b1[j - 1] == x);
        }
        assert forall|x: u32| b1.contains(x) implies a1.contains(x) by {
            let i = choose|i: int| 0 <= i < b1.len() && b1[i] == x;
            assert(b[i + 1] == x);
            assert(b[0] < x);
            assert(b.contains(x));
            assert(a.contains(x));
            let j = choose|j: int| 0 <= j < a.len() && a[j] == x;
            assert(j > 0);
            assert(a1[j - 1] == x);
        }
        lemma_sorted_unique_equal(a1, b1);
        assert(a[0] == b[0]);
        assert(a.len() == b.len());
        assert forall|i: int| 0 <= i < a.len() implies a[i] == b[i] by {
            if i > 0 {
                assert(a1[i - 1] == b1[i - 1]);
                assert(a[i] == a1[i - 1]);
                assert(b[i] == b1[i - 1]);
            }
        }
        assert(a =~= b);
    }
}

// ---------------------------------------------------------------------------
// The builder
// ---------------------------------------------------------------------------

/// Insert `x` into the sorted duplicate-free leader list, keeping it sorted.
fn insert_leader(v: &mut Vec<u32>, x: u32)
    requires
        strictly_increasing(old(v)@),
    ensures
        strictly_increasing(final(v)@),
        u32_set(final(v)@) == u32_set(old(v)@).insert(x as int),
{
    let mut i: usize = 0;
    while i < v.len() && v[i] < x
        invariant
            i <= v@.len(),
            forall|k: int| 0 <= k < i ==> (#[trigger] v@[k]) < x,
        decreases v@.len() - i,
    {
        i = i + 1;
    }
    if i < v.len() && v[i] == x {
        proof {
            assert(v@[i as int] == x);
            assert forall|e: int| u32_set(v@).insert(x as int).contains(e) implies u32_set(
                v@,
            ).contains(e) by {
                if e == x as int {
                    assert(v@[i as int] as int == e);
                }
            }
            assert(u32_set(v@) =~= u32_set(v@).insert(x as int));
        }
        return ;
    }
    let ghost pre = v@;
    v.insert(i, x);
    proof {
        pre.insert_ensures(i as int, x);
        assert forall|p: int, q: int| 0 <= p < q < v@.len() implies v@[p] < v@[q] by {
            if q < i {
                assert(v@[p] == pre[p] && v@[q] == pre[q]);
            } else if p < i && q == i {
                assert(v@[p] == pre[p] && v@[q] == x);
            } else if p < i && q > i {
                assert(v@[p] == pre[p] && v@[q] == pre[q - 1]);
                if q - 1 >= i {
                    if i < pre.len() {
                        assert(pre[i as int] > x);
                    }
                }
            } else if p == i {
                assert(v@[p] == x && v@[q] == pre[q - 1]);
                assert(q - 1 >= i);
                assert(i < pre.len());
                assert(pre[i as int] > x);
            } else {
                assert(v@[p] == pre[p - 1] && v@[q] == pre[q - 1]);
            }
        }
        assert forall|e: int| u32_set(v@).contains(e) implies u32_set(pre).insert(
            x as int,
        ).contains(e) by {
            let k = choose|k: int| 0 <= k < v@.len() && v@[k] as int == e;
            if k < i {
                assert(pre[k] as int == e);
            } else if k == i {
            } else {
                assert(pre[k - 1] as int == e);
            }
        }
        assert forall|e: int| u32_set(pre).insert(x as int).contains(e) implies u32_set(
            v@,
        ).contains(e) by {
            if e == x as int {
                assert(v@[i as int] as int == e);
            } else {
                let k = choose|k: int| 0 <= k < pre.len() && pre[k] as int == e;
                if k < i {
                    assert(v@[k] as int == e);
                } else {
                    assert(v@[k + 1] as int == e);
                }
            }
        }
        assert(u32_set(v@) =~= u32_set(pre).insert(x as int));
    }
}

/// The block, if any, that starts exactly at `offset`; used both to wire
/// fall-through edges and to drop branch targets that land on no block
/// boundary.
pub fn next_block_start(blocks: &Vec<BasicBlock>, offset: u32) -> (r: Option<u32>)
    ensures
        r == (if spec_has_start(blocks.deep_view(), offset as int) {
            Some(offset)
        } else {
            None::<u32>
        }),
{
    let mut i: usize = 0;
    while i < blocks.len()
        invariant
            i <= blocks@.len(),
            forall|k: int| 0 <= k < i ==> (#[trigger] blocks@[k]).start_offset != offset,
        decreases blocks@.len() - i,
    {
        if blocks[i].start_offset == offset {
            proof {
                assert(blocks.deep_view()[i as int].start_offset as int == offset as int);
            }
            return Some(offset);
        }
        i = i + 1;
    }
    proof {
        assert forall|k: int| 0 <= k < blocks.deep_view().len() implies (#[trigger] blocks.deep_view()[k]).start_offset as int
            != offset as int by {
            assert(blocks.deep_view()[k].start_offset == blocks@[k].start_offset);
        }
    }
    None
}

/// Gather the sorted leader list of the method: offset zero, the in-range
/// handler entry points, every in-range branch target, and the offset after
/// every branch or exit instruction; or the first decode error the scan
/// meets, in instruction order.
#[verifier::rlimit(100)]
fn collect_leaders(code: &[u8], instructions: &[Instruction], handlers: &[u32]) -> (r: Result<
    Vec<u32>,
    DecodeError,
>)
    requires
        code@.len() <= opcode::MAX_CODE_LEN,
        forall|i: int|
            0 <= i < instructions@.len() ==> (#[trigger] instructions@[i]).offset < code@.len(),
    ensures
        r matches Ok(v) ==> spec_scan_error(code@, instructions.deep_view(), 0) is None
            && strictly_increasing(v@) && u32_set(v@) == spec_start_set(
            code@,
            instructions.deep_view(),
            handlers@,
        ),
        r matches Err(e) ==> spec_scan_error(code@, instructions.deep_view(), 0) == Some(e),
{
    let ghost iv = instructions.deep_view();
    let ghost clen = code@.len() as int;
    let mut leaders: Vec<u32> = Vec::new();
    proof {
        assert(u32_set(leaders@) =~= Set::<int>::empty());
    }
    if code.len() > 0 {
        insert_leader(&mut leaders, 0);
    }
    proof {
        assert(u32_set(leaders@) =~= clamp_set(handler_set_upto(handlers@, 0), clen));
    }
    let mut hi: usize = 0;
    while hi < handlers.len()
        invariant
            hi <= handlers@.len(),
            strictly_increasing(leaders@),
            u32_set(leaders@) == clamp_set(handler_set_upto(handlers@, hi as int), clen),
        decreases handlers@.len() - hi,
    {
        let ghost pre = leaders@;
        let h = handlers[hi];
        if (h as usize) < code.len() {
            insert_leader(&mut leaders, h);
        }
        proof {
            assert forall|e: int| clamp_set(handler_set_upto(handlers@, hi + 1), clen).contains(
                e,
            ) implies u32_set(leaders@).contains(e) by {
                if e == h as int && e < clen {
                    assert(u32_set(pre).insert(h as int).contains(e));
                } else {
                    assert(handler_set_upto(handlers@, hi as int).contains(e));
                    assert(u32_set(pre).contains(e));
                    if (h as usize) < code.len() {
                        assert(u32_set(pre).insert(h as int).contains(e));
                    }
                }
            }
            assert forall|e: int| u32_set(leaders@).contains(e) implies clamp_set(
                handler_set_upto(handlers@, hi + 1),
                clen,
            ).contains(e) by {
                if (h as usize) < code.len() {
                    assert(u32_set(pre).insert(h as int).contains(e));
                    if e == h as int {
                        assert(handlers@[hi as int] as int == e);
                    } else {
                        assert(u32_set(pre).contains(e));
                    }
                } else {
                    assert(u32_set(pre).contains(e));
                }
            }
            assert(u32_set(leaders@) =~= clamp_set(handler_set_upto(handlers@, hi + 1), clen));
        }
        hi = hi + 1;
    }
    proof {
        assert forall|e: int| clamp_set(handler_set_upto(handlers@, handlers@.len() as int), clen)
            .contains(e) implies clamp_set(
            spec_leader_set_upto(code@, iv, handlers@, 0),
            clen,
        ).contains(e) by {}
        assert forall|e: int| clamp_set(spec_leader_set_upto(code@, iv, handlers@, 0), clen)
            .contains(e) implies clamp_set(
            handler_set_upto(handlers@, handlers@.len() as int),
            clen,
        ).contains(e) by {}
        assert(clamp_set(handler_set_upto(handlers@, handlers@.len() as int), clen) =~= clamp_set(
            spec_leader_set_upto(code@, iv, handlers@, 0),
            clen,
        ));
    }
    let mut ii: usize = 0;
    while ii < instructions.len()
        invariant
            ii <= instructions@.len(),
            strictly_increasing(leaders@),
            forall|k: int| 0 <= k < ii ==> spec_inst_check(code@, #[trigger] iv[k]) is None,
            u32_set(leaders@) == clamp_set(spec_leader_set_upto(code@, iv, handlers@, ii as int), clen),
        decreases instructions@.len() - ii,
    {
        let inst = &instructions[ii];
        let off = inst.offset as usize;
        let ghost pre_set = spec_leader_set_upto(code@, iv, handlers@, ii as int);
        proof {
            assert(iv[ii as int] == instructions@[ii as int].deep_view());
            assert(iv[ii as int].offset == inst.offset);
            assert(iv[ii as int].opcode == inst.opcode);
        }
        match branch_targets(code, off) {
            Err(e) => {
                proof {
                    assert(spec_inst_check(code@, iv[ii as int]) == Some(e));
                    lemma_scan_error_prefix(code@, iv, 0, ii as int);
                }
                return Err(e);
            },
            Ok(Some(ts)) => {
                let n = match opcode::opcode_length(code, off) {
                    Err(e) => {
                        proof {
                            assert(spec_inst_check(code@, iv[ii as int]) == Some(e));
                            lemma_scan_error_prefix(code@, iv, 0, ii as int);
                        }
                        return Err(e);
                    },
                    Ok(n) => n,
                };
                let ghost tsv = ts@;
                let mut ti: usize = 0;
                while ti < ts.len()
                    invariant
                        ti <= tsv.len(),
                        tsv == ts@,
                        strictly_increasing(leaders@),
                        u32_set(leaders@) == clamp_set(
                            pre_set.union(
                                Set::new(
                                    |x: int|
                                        exists|j: int|
                                            0 <= j < ti && (#[trigger] tsv[j]) as int == x,
                                ),
                            ),
                            clen,
                        ),
                    decreases tsv.len() - ti,
                {
                    let ghost pre = leaders@;
                    let t = ts[ti];
                    if (t as usize) < code.len() {
                        insert_leader(&mut leaders, t as u32);
                    }
                    proof {
                        let s_old = clamp_set(
                            pre_set.union(
                                Set::new(
                                    |x: int|
                                        exists|j: int|
                                            0 <= j < ti && (#[trigger] tsv[j]) as int == x,
                                ),
                            ),
                            clen,
                        );
                        let s_new = clamp_set(
                            pre_set.union(
                                Set::new(
                                    |x: int|
                                        exists|j: int|
                                            0 <= j < ti + 1 && (#[trigger] tsv[j]) as int == x,
                                ),
                            ),
                            clen,
                        );
                        assert forall|e: int| s_new.contains(e) implies u32_set(
                            leaders@,
                        ).contains(e) by {
                            if pre_set.contains(e) || (exists|j: int|
                                0 <= j < ti && (#[trigger] tsv[j]) as int == e) {
                                assert(s_old.contains(e));
                                assert(u32_set(pre).contains(e));
                                if (t as usize) < code.len() {
                                    assert(u32_set(pre).insert(t as int).contains(e));
                                }
                            } else {
                                assert(tsv[ti as int] as int == e);
                                assert(e < clen);
                                assert(u32_set(pre).insert(t as int).contains(e));
                            }
                        }
                        assert forall|e: int| u32_set(leaders@).contains(e) implies s_new.contains(
                            e,
                        ) by {
                            if (t as usize) < code.len() {
                                assert(u32_set(pre).insert(t as int).contains(e));
                                if e == t as int {
                                    assert(tsv[ti as int] as int == e);
                                } else {
                                    assert(u32_set(pre).contains(e));
                                    assert(s_old.contains(e));
                                }
                            } else {
                                assert(u32_set(pre).contains(e));
                                assert(s_old.contains(e));
                            }
                        }
                        assert(u32_set(leaders@) =~= s_new);
                    }
                    ti = ti + 1;
                }
                let next: u32 = inst.offset + (n as u32);
                let ghost pre = leaders@;
                if (next as usize) < code.len() {
                    insert_leader(&mut leaders, next);
                }
                proof {
                    let s_old = clamp_set(
                        pre_set.union(
                            Set::new(
                                |x: int|
                                    exists|j: int|
                                        0 <= j < tsv.len() && (#[trigger] tsv[j]) as int == x,
                            ),
                        ),
                        clen,
                    );
                    let s_new = clamp_set(
                        spec_leader_set_upto(code@, iv, handlers@, ii + 1),
                        clen,
                    );
                    assert(spec_branch_targets(code@, iv[ii as int].offset as int)
                        == Ok::<Option<Seq<u16>>, DecodeError>(Some(tsv)));
                    assert(spec_ok_len(code@, iv[ii as int].offset as int) == n as int);
                    assert(spec_inst_check(code@, iv[ii as int]) is None);
                    assert forall|e: int| s_new.contains(e) implies u32_set(
                        leaders@,
                    ).contains(e) by {
                        if spec_leader_set_upto(code@, iv, handlers@, ii as int).contains(e) {
                            assert(s_old.contains(e));
                            assert(u32_set(pre).contains(e));
                            if (next as usize) < code.len() {
                                assert(u32_set(pre).insert(next as int).contains(e));
                            }
                        } else {
                            let i0 = choose|i0: int|
                                0 <= i0 < ii + 1 && (#[trigger] spec_inst_leaders(
                                    code@,
                                    iv[i0],
                                )).contains(e);
                            assert(i0 == ii as int);
                            if e == iv[ii as int].offset + n as int {
                                assert(e == next as int);
                                assert(u32_set(pre).insert(next as int).contains(e));
                            } else {
                                let j = choose|j: int| 0 <= j < tsv.len() && tsv[j] as int == e;
                                assert(s_old.contains(e));
                                assert(u32_set(pre).contains(e));
                                if (next as usize) < code.len() {
                                    assert(u32_set(pre).insert(next as int).contains(e));
                                }
                            }
                        }
                    }
                    assert forall|e: int| u32_set(leaders@).contains(e) implies s_new.contains(
                        e,
                    ) by {
                        assert(spec_inst_leaders(code@, iv[ii as int]) == Set::new(
                            |x: int|
                                (exists|j: int| 0 <= j < tsv.len() && tsv[j] as int == x) || x
                                    == iv[ii as int].offset + spec_ok_len(
                                    code@,
                                    iv[ii as int].offset as int,
                                ),
                        ));
                        if (next as usize) < code.len() {
                            assert(u32_set(pre).insert(next as int).contains(e));
                            if e == next as int {
                                assert(spec_inst_leaders(code@, iv[ii as int]).contains(e));
                                assert(spec_leader_set_upto(code@, iv, handlers@, ii + 1).contains(
                                    e,
                                ));
                            } else {
                                assert(u32_set(pre).contains(e));
                                assert(s_old.contains(e));
                                assert(spec_leader_set_upto(code@, iv, handlers@, ii + 1).contains(
                                    e,
                                ));
                            }
                        } else {
                            assert(u32_set(pre).contains(e));
                            assert(s_old.contains(e));
                            assert(spec_leader_set_upto(code@, iv, handlers@, ii + 1).contains(e));
                        }
                    }
                    assert(u32_set(leaders@) =~= s_new);
                }
            },
            Ok(None) => {
                let ghost s_new = clamp_set(
                    spec_leader_set_upto(code@, iv, handlers@, ii + 1),
                    clen,
                );
                if is_exit_opcode(inst.opcode) {
                    let n = match opcode::opcode_length(code, off) {
                        Err(e) => {
                            proof {
                                assert(spec_inst_check(code@, iv[ii as int]) == Some(e));
                                lemma_scan_error_prefix(code@, iv, 0, ii as int);
                            }
                            return Err(e);
                        },
                        Ok(n) => n,
                    };
                    let next: u32 = inst.offset + (n as u32);
                    let ghost pre = leaders@;
                    if (next as usize) < code.len() {
                        insert_leader(&mut leaders, next);
                    }
                    proof {
                        assert(spec_inst_leaders(code@, iv[ii as int]) == Set::new(
                            |x: int|
                                x == iv[ii as int].offset + spec_ok_len(
                                    code@,
                                    iv[ii as int].offset as int,
                                ),
                        ));
                        assert forall|e: int| s_new.contains(e) implies u32_set(
                            leaders@,
                        ).contains(e) by {
                            if spec_leader_set_upto(code@, iv, handlers@, ii as int).contains(e) {
                                assert(u32_set(pre).contains(e));
                                if (next as usize) < code.len() {
                                    assert(u32_set(pre).insert(next as int).contains(e));
                                }
                            } else {
                                let i0 = choose|i0: int|
                                    0 <= i0 < ii + 1 && (#[trigger] spec_inst_leaders(
                                        code@,
                                        iv[i0],
                                    )).contains(e);
                                assert(i0 == ii as int);
                                assert(e == next as int);
                                assert(u32_set(pre).insert(next as int).contains(e));
                            }
                        }
                        assert forall|e: int| u32_set(leaders@).contains(e) implies s_new.contains(
                            e,
                        ) by {
                            if (next as usize) < code.len() {
                                assert(u32_set(pre).insert(next as int).contains(e));
                                if e == next as int {
                                    assert(spec_inst_leaders(code@, iv[ii as int]).contains(e));
                                } else {
                                    assert(u32_set(pre).contains(e));
                                }
                            } else {
                                assert(u32_set(pre).contains(e));
                            }
                        }
                        assert(u32_set(leaders@) =~= s_new);
                    }
                } else {
                    proof {
                        assert(spec_inst_leaders(code@, iv[ii as int]) == Set::<int>::empty());
                        assert forall|e: int| s_new.contains(e) implies u32_set(
                            leaders@,
                        ).contains(e) by {
                            if spec_leader_set_upto(code@, iv, handlers@, ii as int).contains(e) {
                            } else {
                                let i0 = choose|i0: int|
                                    0 <= i0 < ii + 1 && (#[trigger] spec_inst_leaders(
                                        code@,
                                        iv[i0],
                                    )).contains(e);
                                assert(i0 == ii as int);
                                assert(false);
                            }
                        }
                        assert forall|e: int| u32_set(leaders@).contains(e) implies s_new.contains(
                            e,
                        ) by {}
                        assert(u32_set(leaders@) =~= s_new);
                    }
                }
            },
        }
        ii = ii + 1;
    }
    proof {
        lemma_scan_error_prefix(code@, iv, 0, iv.len() as int);
    }
    Ok(leaders)
}

/// A clean scan means every single instruction scans cleanly.
pub proof fn lemma_scan_all_none(code: Seq<u8>, insts: Seq<InstructionV>, j: int)
    requires
        0 <= j <= insts.len(),
        spec_scan_error(code, insts, j) is None,
    ensures
        forall|k: int| j <= k < insts.len() ==> spec_inst_check(code, #[trigger] insts[k]) is None,
    decreases insts.len() - j,
{
    if j < insts.len() {
        lemma_scan_all_none(code, insts, j + 1);
    }
}

/// Extending the target prefix extends its branch edges by one edge exactly
/// when the new target lands on a block boundary.
proof fn lemma_branch_edges_take_step(blocks: Seq<BasicBlockV>, from: u32, ts: Seq<u16>, j: int)
    requires
        0 <= j < ts.len(),
    ensures
        spec_branch_edges(blocks, from, ts.take(j + 1)) == (if spec_has_start(
            blocks,
            ts[j] as int,
        ) {
            spec_branch_edges(blocks, from, ts.take(j)).push(
                FlowEdge { from: from, to: ts[j] as u32, kind: EdgeKind::Branch },
            )
        } else {
            spec_branch_edges(blocks, from, ts.take(j))
        }),
{
    assert(ts.take(j + 1) =~= ts.take(j).push(ts[j]));
    lemma_filter_push(ts.take(j), is_start_pred(blocks), ts[j]);
    if is_start_pred(blocks)(ts[j]) {
        lemma_map_push(ts.take(j).filter(is_start_pred(blocks)), to_branch_edge(from), ts[j]);
        assert(to_branch_edge(from)(ts[j]) == FlowEdge {
            from: from,
            to: ts[j] as u32,
            kind: EdgeKind::Branch,
        });
    }
}

/// Every edge that the edge pass produces starts and ends on a block
/// boundary.
proof fn lemma_edges_upto_valid(code: Seq<u8>, blocks: Seq<BasicBlockV>, n: int)
    requires
        0 <= n <= blocks.len(),
    ensures
        forall|i: int|
            0 <= i < spec_cfg_edges_upto(code, blocks, n).len() ==> spec_has_start(
                blocks,
                (#[trigger] spec_cfg_edges_upto(code, blocks, n)[i]).from as int,
            ) && spec_has_start(blocks, spec_cfg_edges_upto(code, blocks, n)[i].to as int),
    decreases n,
{
    if n > 0 {
        lemma_edges_upto_valid(code, blocks, n - 1);
        let prior = spec_cfg_edges_upto(code, blocks, n - 1);
        let b = blocks[n - 1];
        let seg = spec_block_edges(code, blocks, b);
        assert(b.start_offset as int == blocks[n - 1].start_offset as int);
        assert(spec_has_start(blocks, b.start_offset as int));
        assert forall|j: int| 0 <= j < seg.len() implies spec_has_start(
            blocks,
            (#[trigger] seg[j]).from as int,
        ) && spec_has_start(blocks, seg[j].to as int) by {
            if b.instructions.len() > 0 {
                let last = b.instructions.last();
                match spec_branch_targets(code, last.offset as int) {
                    Ok(Some(ts)) => {
                        let filtered = ts.filter(is_start_pred(blocks));
                        let be = spec_branch_edges(blocks, b.start_offset, ts);
                        if j < be.len() {
                            Seq::lemma_filter_pred(ts, is_start_pred(blocks), j);
                            assert(be[j] == to_branch_edge(b.start_offset)(filtered[j]));
                            assert(is_start_pred(blocks)(filtered[j]));
                        } else {
                            assert(seg[j].from == b.start_offset && seg[j].to == b.end_offset);
                            assert(spec_has_start(blocks, b.end_offset as int));
                        }
                    },
                    Ok(None) => {
                        assert(seg[j].from == b.start_offset && seg[j].to == b.end_offset);
                        assert(spec_has_start(blocks, b.end_offset as int));
                    },
                    Err(e) => {},
                }
            }
        }
        assert forall|i: int|
            0 <= i < spec_cfg_edges_upto(code, blocks, n).len() implies spec_has_start(
            blocks,
            (#[trigger] spec_cfg_edges_upto(code, blocks, n)[i]).from as int,
        ) && spec_has_start(blocks, spec_cfg_edges_upto(code, blocks, n)[i].to as int) by {
            if i < prior.len() {
                assert(spec_cfg_edges_upto(code, blocks, n)[i] == prior[i]);
            } else {
                assert(spec_cfg_edges_upto(code, blocks, n)[i] == seg[i - prior.len()]);
            }
        }
    }
}

/// Every edge of a block's segment leaves that block.
proof fn lemma_block_edges_from(code: Seq<u8>, blocks: Seq<BasicBlockV>, b: BasicBlockV)
    ensures
        forall|j: int|
            0 <= j < spec_block_edges(code, blocks, b).len() ==> (#[trigger] spec_block_edges(
                code,
                blocks,
                b,
            )[j]).from == b.start_offset,
{
    let seg = spec_block_edges(code, blocks, b);
    assert forall|j: int| 0 <= j < seg.len() implies (#[trigger] seg[j]).from
        == b.start_offset by {
        if b.instructions.len() > 0 {
            let last = b.instructions.last();
            match spec_branch_targets(code, last.offset as int) {
                Ok(Some(ts)) => {
                    let filtered = ts.filter(is_start_pred(blocks));
                    let be = spec_branch_edges(blocks, b.start_offset, ts);
                    if j < be.len() {
                        assert(be[j] == to_branch_edge(b.start_offset)(filtered[j]));
                    }
                },
                Ok(None) => {},
                Err(e) => {},
            }
        }
    }
}

/// Every edge of the graph comes from the segment of some block before `n`.
proof fn lemma_edge_source(code: Seq<u8>, blocks: Seq<BasicBlockV>, n: int, i: int)
    requires
        0 <= n <= blocks.len(),
        0 <= i < spec_cfg_edges_upto(code, blocks, n).len(),
    ensures
        exists|q: int|
            0 <= q < n && (#[trigger] spec_block_edges(code, blocks, blocks[q])).contains(
                spec_cfg_edges_upto(code, blocks, n)[i],
            ),
    decreases n,
{
    if n > 0 {
        let prior = spec_cfg_edges_upto(code, blocks, n - 1);
        let seg = spec_block_edges(code, blocks, blocks[n - 1]);
        if i < prior.len() {
            lemma_edge_source(code, blocks, n - 1, i);
            let q = choose|q: int|
                0 <= q < n - 1 && (#[trigger] spec_block_edges(code, blocks, blocks[q])).contains(
                    prior[i],
                );
            assert(spec_cfg_edges_upto(code, blocks, n)[i] == prior[i]);
            assert(spec_block_edges(code, blocks, blocks[q]).contains(
                spec_cfg_edges_upto(code, blocks, n)[i],
            ));
        } else {
            assert(spec_cfg_edges_upto(code, blocks, n)[i] == seg[i - prior.len()]);
            assert(seg.contains(seg[i - prior.len()]));
            assert(spec_block_edges(code, blocks, blocks[n - 1]).contains(
                spec_cfg_edges_upto(code, blocks, n)[i],
            ));
        }
    }
}

/// Determinism of the partition: any two block lists built from the same
/// input are identical — same blocks, same order.
pub proof fn lemma_blocks_deterministic(
    code: Seq<u8>,
    insts: Seq<InstructionV>,
    handlers: Seq<u32>,
    b1: Seq<BasicBlockV>,
    b2: Seq<BasicBlockV>,
)
    requires
        cfg_blocks_match(code, insts, handlers, b1),
        cfg_blocks_match(code, insts, handlers, b2),
    ensures
        b1 == b2,
{
    let s1 = b1.map_values(|b: BasicBlockV| b.start_offset);
    let s2 = b2.map_values(|b: BasicBlockV| b.start_offset);
    let sset = spec_start_set(code, insts, handlers);
    assert forall|y: u32| s1.contains(y) implies s2.contains(y) by {
        let i = choose|i: int| 0 <= i < s1.len() && s1[i] == y;
        assert(b1[i].start_offset == y);
        assert(sset.contains(y as int));
        assert(spec_has_start(b2, y as int));
        let k = choose|k: int|
            0 <= k < b2.len() && (#[trigger] b2[k]).start_offset as int == y as int;
        assert(s2[k] == y);
    }
    assert forall|y: u32| s2.contains(y) implies s1.contains(y) by {
        let i = choose|i: int| 0 <= i < s2.len() && s2[i] == y;
        assert(b2[i].start_offset == y);
        assert(sset.contains(y as int));
        assert(spec_has_start(b1, y as int));
        let k = choose|k: int|
            0 <= k < b1.len() && (#[trigger] b1[k]).start_offset as int == y as int;
        assert(s1[k] == y);
    }
    assert(strictly_increasing(s1));
    assert(strictly_increasing(s2));
    lemma_sorted_unique_equal(s1, s2);
    assert(b1.len() == b2.len());
    assert forall|k: int| 0 <= k < b1.len() implies #[trigger] b1[k] == b2[k] by {
        assert(s1[k] == s2[k]);
        assert(b1[k].start_offset == b2[k].start_offset);
        if k + 1 < b1.len() {
            assert(s1[k + 1] == s2[k + 1]);
            assert(b1[k].end_offset == b2[k].end_offset);
        } else {
            assert(b1[k].end_offset == b2[k].end_offset);
        }
        assert(b1[k].instructions == b2[k].instructions);
        assert(b1[k] =~~= b2[k]);
    }
    assert(b1 =~= b2);
}

/// Determinism: the control flow graph is a function of the bytecode, the
/// instruction list and the handler table. Any two graphs built from the
/// same input are identical — same blocks, same edges, same order.
pub proof fn lemma_cfg_deterministic(
    code: Seq<u8>,
    insts: Seq<InstructionV>,
    handlers: Seq<u32>,
    g1: ControlFlowGraphV,
    g2: ControlFlowGraphV,
)
    requires
        cfg_matches(code, insts, handlers, g1),
        cfg_matches(code, insts, handlers, g2),
    ensures
        g1 == g2,
{
    lemma_blocks_deterministic(code, insts, handlers, g1.blocks, g2.blocks);
    assert(g1.edges == g2.edges);
    assert(g1 =~~= g2);
}

// ---------------------------------------------------------------------------
// Exception edges: handler entry from a protected range
// ---------------------------------------------------------------------------

/// Keeps the handlers whose protected range `[start_pc, end_pc)` overlaps
/// block `b` and whose entry point lands on a block boundary.
pub open spec fn handler_pred(blocks: Seq<BasicBlockV>, b: BasicBlockV) -> spec_fn(
    ExceptionHandlerV,
) -> bool {
    |h: ExceptionHandlerV|
        (b.start_offset as int) < h.end_pc as int && (h.start_pc as int) < b.end_offset as int
            && spec_has_start(blocks, h.handler_pc as int)
}

/// Turns a handler into an `Exception` edge out of block `b`.
pub open spec fn to_exception_edge(b: BasicBlockV) -> spec_fn(ExceptionHandlerV) -> FlowEdge {
    |h: ExceptionHandlerV|
        FlowEdge { from: b.start_offset, to: h.handler_pc, kind: EdgeKind::Exception }
}

/// `Exception` edges out of one block: one per handler whose protected
/// range overlaps it, in handler-table order.
pub open spec fn spec_block_exception_edges(
    blocks: Seq<BasicBlockV>,
    b: BasicBlockV,
    handlers: Seq<ExceptionHandlerV>,
) -> Seq<FlowEdge> {
    handlers.filter(handler_pred(blocks, b)).map_values(to_exception_edge(b))
}

/// `Exception` edges of the first `n` blocks, in block order then
/// handler-table order.
pub open spec fn spec_exception_edges_upto(
    blocks: Seq<BasicBlockV>,
    handlers: Seq<ExceptionHandlerV>,
    n: int,
) -> Seq<FlowEdge>
    decreases n,
{
    if n <= 0 {
        Seq::empty()
    } else {
        spec_exception_edges_upto(blocks, handlers, n - 1) + spec_block_exception_edges(
            blocks,
            blocks[n - 1],
            handlers,
        )
    }
}

/// All `Exception` edges of the graph whose blocks are `blocks`.
pub open spec fn spec_exception_edges(
    blocks: Seq<BasicBlockV>,
    handlers: Seq<ExceptionHandlerV>,
) -> Seq<FlowEdge> {
    spec_exception_edges_upto(blocks, handlers, blocks.len() as int)
}

/// Every exception edge is of `Exception` kind and starts and ends on a
/// block boundary.
pub proof fn lemma_exception_edges_props(
    blocks: Seq<BasicBlockV>,
    handlers: Seq<ExceptionHandlerV>,
    n: int,
)
    requires
        0 <= n <= blocks.len(),
    ensures
        forall|i: int|
            0 <= i < spec_exception_edges_upto(blocks, handlers, n).len() ==> (
            #[trigger] spec_exception_edges_upto(blocks, handlers, n)[i]).kind
                == EdgeKind::Exception && spec_has_start(
                blocks,
                spec_exception_edges_upto(blocks, handlers, n)[i].from as int,
            ) && spec_has_start(
                blocks,
                spec_exception_edges_upto(blocks, handlers, n)[i].to as int,
            ),
    decreases n,
{
    if n > 0 {
        lemma_exception_edges_props(blocks, handlers, n - 1);
        let prior = spec_exception_edges_upto(blocks, handlers, n - 1);
        let b = blocks[n - 1];
        let seg = spec_block_exception_edges(blocks, b, handlers);
        let filtered = handlers.filter(handler_pred(blocks, b));
        assert(spec_has_start(blocks, b.start_offset as int));
        assert forall|j: int| 0 <= j < seg.len() implies (#[trigger] seg[j]).kind
            == EdgeKind::Exception && spec_has_start(blocks, seg[j].from as int) && spec_has_start(
            blocks,
            seg[j].to as int,
        ) by {
            Seq::lemma_filter_pred(handlers, handler_pred(blocks, b), j);
            assert(seg[j] == to_exception_edge(b)(filtered[j]));
            assert(handler_pred(blocks, b)(filtered[j]));
        }
        assert forall|i: int|
            0 <= i < spec_exception_edges_upto(blocks, handlers, n).len() implies (
        #[trigger] spec_exception_edges_upto(blocks, handlers, n)[i]).kind == EdgeKind::Exception
            && spec_has_start(blocks, spec_exception_edges_upto(blocks, handlers, n)[i].from as int)
            && spec_has_start(
            blocks,
            spec_exception_edges_upto(blocks, handlers, n)[i].to as int,
        ) by {
            if i < prior.len() {
                assert(spec_exception_edges_upto(blocks, handlers, n)[i] == prior[i]);
            } else {
                assert(spec_exception_edges_upto(blocks, handlers, n)[i] == seg[i - prior.len()]);
            }
        }
    }
}

/// Connect every block wholly or partially inside a handler's protected
/// range `[start_pc, end_pc)` to the block its entry point starts, with an
/// `Exception` edge. An entry point that lands on no block boundary
/// contributes nothing, and the edges come in block order, then
/// handler-table order.
pub fn exception_edges(blocks: &Vec<BasicBlock>, handlers: &Vec<ExceptionHandler>) -> (r: Vec<
    FlowEdge,
>)
    ensures
        r@ == spec_exception_edges(blocks.deep_view(), handlers.deep_view()),
{
    let ghost bdv = blocks.deep_view();
    let ghost hdv = handlers.deep_view();
    let mut edges: Vec<FlowEdge> = Vec::new();
    let mut k: usize = 0;
    while k < blocks.len()
        invariant
            k <= bdv.len(),
            bdv == blocks.deep_view(),
            hdv == handlers.deep_view(),
            edges@ == spec_exception_edges_upto(bdv, hdv, k as int),
        decreases bdv.len() - k,
    {
        let ghost base = edges@;
        let ghost bv = bdv[k as int];
        proof {
            assert(bv == blocks@[k as int].deep_view());
            assert(hdv.take(0) =~= Seq::<ExceptionHandlerV>::empty());
            assert(hdv.take(0).filter(handler_pred(bdv, bv)).map_values(to_exception_edge(bv))
                =~= Seq::<FlowEdge>::empty());
        }
        let mut hi: usize = 0;
        while hi < handlers.len()
            invariant
                hi <= hdv.len(),
                k < bdv.len(),
                bv == bdv[k as int],
                bv == blocks@[k as int].deep_view(),
                bdv == blocks.deep_view(),
                hdv == handlers.deep_view(),
                edges@ == base + hdv.take(hi as int).filter(handler_pred(bdv, bv)).map_values(
                    to_exception_edge(bv),
                ),
            decreases hdv.len() - hi,
        {
            let ghost epre = edges@;
            proof {
                assert(hdv[hi as int] == handlers@[hi as int].deep_view());
            }
            let overlaps = blocks[k].start_offset < handlers[hi].end_pc && handlers[hi].start_pc
                < blocks[k].end_offset;
            if overlaps {
                match next_block_start(blocks, handlers[hi].handler_pc) {
                    Some(to) => {
                        edges.push(
                            FlowEdge {
                                from: blocks[k].start_offset,
                                to: to,
                                kind: EdgeKind::Exception,
                            },
                        );
                    },
                    None => {},
                }
            }
            proof {
                lemma_filter_map_take_step(
                    hdv,
                    handler_pred(bdv, bv),
                    to_exception_edge(bv),
                    hi as int,
                );
                if handler_pred(bdv, bv)(hdv[hi as int]) {
                    assert(edges@ =~= base + hdv.take(hi + 1).filter(
                        handler_pred(bdv, bv),
                    ).map_values(to_exception_edge(bv)));
                } else {
                    assert(edges@ =~= base + hdv.take(hi + 1).filter(
                        handler_pred(bdv, bv),
                    ).map_values(to_exception_edge(bv)));
                }
            }
            hi = hi + 1;
        }
        proof {
            assert(hdv.take(hdv.len() as int) =~= hdv);
            assert(edges@ =~= spec_exception_edges_upto(bdv, hdv, k + 1));
        }
        k = k + 1;
    }
    edges
}

/// A block whose terminal instruction transfers control unconditionally
/// never has a `FallThrough` edge out of it, also once the `Exception`
/// edges stand appended behind the branch and fall-through edges, as the
/// decoder leaves them.
pub proof fn lemma_unconditional_no_fallthrough_full(
    code: Seq<u8>,
    insts: Seq<InstructionV>,
    hpcs: Seq<u32>,
    hs: Seq<ExceptionHandlerV>,
    blocks: Seq<BasicBlockV>,
    edges: Seq<FlowEdge>,
    k: int,
    i: int,
)
    requires
        cfg_blocks_match(code, insts, hpcs, blocks),
        forall|j: int|
            0 <= j < insts.len() ==> (#[trigger] insts[j]).opcode == code[insts[j].offset as int],
        edges == spec_cfg_edges(code, blocks) + spec_exception_edges(blocks, hs),
        0 <= k < blocks.len(),
        blocks[k].instructions.len() > 0,
        spec_is_unconditional_branch(blocks[k].instructions.last().opcode),
        0 <= i < edges.len(),
        edges[i].from == blocks[k].start_offset,
    ensures
        edges[i].kind != EdgeKind::FallThrough,
{
    let base = spec_cfg_edges(code, blocks);
    if i < base.len() {
        let g = ControlFlowGraphV { blocks: blocks, edges: base };
        assert(cfg_matches(code, insts, hpcs, g));
        lemma_unconditional_no_fallthrough(code, insts, hpcs, g, k, i);
        assert(edges[i] == base[i]);
    } else {
        lemma_exception_edges_props(blocks, hs, blocks.len() as int);
        assert(edges[i] == spec_exception_edges(blocks, hs)[i - base.len()]);
    }
}

/// A block whose terminal instruction transfers control unconditionally
/// (`goto`, `goto_w`, `jsr`, `jsr_w`) has only `Branch` edges out of it —
/// never a `FallThrough`. Requires the instruction list to be consistent
/// with the bytecode, as the decoder produces it: each instruction's opcode
/// is the byte at its offset.
pub proof fn lemma_unconditional_no_fallthrough(
    code: Seq<u8>,
    insts: Seq<InstructionV>,
    handlers: Seq<u32>,
    g: ControlFlowGraphV,
    k: int,
    i: int,
)
    requires
        cfg_matches(code, insts, handlers, g),
        forall|j: int|
            0 <= j < insts.len() ==> (#[trigger] insts[j]).opcode == code[insts[j].offset as int],
        0 <= k < g.blocks.len(),
        g.blocks[k].instructions.len() > 0,
        spec_is_unconditional_branch(g.blocks[k].instructions.last().opcode),
        0 <= i < g.edges.len(),
        g.edges[i].from == g.blocks[k].start_offset,
    ensures
        g.edges[i].kind == EdgeKind::Branch,
{
    let e = g.edges[i];
    lemma_edge_source(code, g.blocks, g.blocks.len() as int, i);
    let q = choose|q: int|
        0 <= q < g.blocks.len() && (#[trigger] spec_block_edges(code, g.blocks, g.blocks[q]))
            .contains(e);
    lemma_block_edges_from(code, g.blocks, g.blocks[q]);
    let seg = spec_block_edges(code, g.blocks, g.blocks[q]);
    let j = choose|j: int| 0 <= j < seg.len() && seg[j] == e;
    assert(e.from == g.blocks[q].start_offset);
    if q != k {
        assert(g.blocks[q].start_offset != g.blocks[k].start_offset);
        assert(false);
    }
    let b = g.blocks[k];
    let last = b.instructions.last();
    assert(b.instructions == inst_filter(insts, b.start_offset as int, b.end_offset as int));
    lemma_filter_sub(
        insts,
        in_range_pred(b.start_offset as int, b.end_offset as int),
        b.instructions.len() - 1,
    );
    let idx = choose|idx: int| 0 <= idx < insts.len() && insts[idx] == last;
    assert(last.opcode == code[last.offset as int]);
    match spec_branch_targets(code, last.offset as int) {
        Ok(Some(ts)) => {
            let filtered = ts.filter(is_start_pred(g.blocks));
            let be = spec_branch_edges(g.blocks, b.start_offset, ts);
            assert(seg == be);
            assert(seg[j] == to_branch_edge(b.start_offset)(filtered[j]));
        },
        Ok(None) => {
            assert(false);
        },
        Err(err) => {
            assert(seg.len() == 0);
            assert(false);
        },
    }
}

/// Build the control flow graph of one method: partition its bytecode into
/// basic blocks at the leader offsets and connect the blocks with `Branch`
/// and `FallThrough` edges read off each block's terminal instruction.
///
/// On success the graph is pinned down exactly by `cfg_matches`; the blocks
/// partition `[0, code.len())` and every edge endpoint is a block start. On
/// failure the error is the first the leader scan meets.
#[verifier::rlimit(100)]
pub fn build_cfg(code: &[u8], instructions: &[Instruction], handlers: &[u32]) -> (r: Result<
    ControlFlowGraph,
    DecodeError,
>)
    requires
        code@.len() <= opcode::MAX_CODE_LEN,
        forall|i: int|
            0 <= i < instructions@.len() ==> (#[trigger] instructions@[i]).offset < code@.len(),
        forall|i: int, j: int|
            0 <= i < j < instructions@.len() ==> instructions@[i].offset
                < instructions@[j].offset,
    ensures
        r matches Ok(g) ==> spec_scan_error(code@, instructions.deep_view(), 0) is None
            && cfg_matches(code@, instructions.deep_view(), handlers@, g.deep_view())
            && spec_covers(g.deep_view().blocks, code@.len() as int) && spec_edges_valid(
            g.deep_view(),
        ),
        r matches Err(e) ==> spec_scan_error(code@, instructions.deep_view(), 0) == Some(e),
{
    let ghost iv = instructions.deep_view();
    let starts = match collect_leaders(code, instructions, handlers) {
        Err(e) => {
            return Err(e);
        },
        Ok(v) => v,
    };
    proof {
        lemma_scan_all_none(code@, iv, 0);
    }
    let n = starts.len();
    let mut blocks: Vec<BasicBlock> = Vec::new();
    let mut k: usize = 0;
    while k < n
        invariant
            k <= n,
            n == starts@.len(),
            blocks@.len() == k,
            forall|q: int| 0 <= q < k ==> (#[trigger] blocks@[q]).start_offset == starts@[q],
            forall|q: int|
                0 <= q < k ==> (#[trigger] blocks@[q]).end_offset as int == (if q + 1 < n as int {
                    starts@[q + 1] as int
                } else {
                    code@.len() as int
                }),
            forall|q: int|
                0 <= q < k ==> (#[trigger] blocks@[q]).instructions.deep_view() == inst_filter(
                    iv,
                    starts@[q] as int,
                    (if q + 1 < n as int {
                        starts@[q + 1] as int
                    } else {
                        code@.len() as int
                    }),
                ),
        decreases n - k,
    {
        let start = starts[k];
        let end: u32 = if k + 1 < n {
            starts[k + 1]
        } else {
            code.len() as u32
        };
        let mut bi: Vec<Instruction> = Vec::new();
        let mut j: usize = 0;
        while j < instructions.len()
            invariant
                j <= instructions@.len(),
                bi.deep_view() == inst_filter(iv.take(j as int), start as int, end as int),
            decreases instructions@.len() - j,
        {
            let ghost bd = bi.deep_view();
            let ins = &instructions[j];
            if start <= ins.offset && ins.offset < end {
                bi.push(ins.clone());
                proof {
                    assert(bi.deep_view() =~= bd.push(iv[j as int]));
                }
            }
            proof {
                assert(iv.take(j + 1) =~= iv.take(j as int).push(iv[j as int]));
                lemma_filter_push(
                    iv.take(j as int),
                    in_range_pred(start as int, end as int),
                    iv[j as int],
                );
                assert(iv[j as int].offset == instructions@[j as int].offset);
            }
            j = j + 1;
        }
        proof {
            assert(iv.take(iv.len() as int) =~= iv);
        }
        blocks.push(BasicBlock { start_offset: start, end_offset: end, instructions: bi });
        k = k + 1;
    }
    let ghost bdv = blocks.deep_view();
    proof {
        assert forall|q: int| 0 <= q < bdv.len() implies (#[trigger] bdv[q]) == blocks@[
            q
        ].deep_view() by {}
    }
    let mut edges: Vec<FlowEdge> = Vec::new();
    let mut k2: usize = 0;
    while k2 < blocks.len()
        invariant
            k2 <= blocks@.len(),
            edges@ == spec_cfg_edges_upto(code@, bdv, k2 as int),
            bdv == blocks.deep_view(),
        decreases blocks@.len() - k2,
    {
        let ghost base = edges@;
        let ghost bv = bdv[k2 as int];
        let m = blocks[k2].instructions.len();
        proof {
            assert(bv == blocks@[k2 as int].deep_view());
            assert(bv.instructions.len() == m);
            assert(bv.instructions == inst_filter(
                iv,
                bv.start_offset as int,
                bv.end_offset as int,
            ));
        }
        if m == 0 {
            proof {
                assert(spec_block_edges(code@, bdv, bv) =~= Seq::<FlowEdge>::empty());
                assert(edges@ =~= spec_cfg_edges_upto(code@, bdv, k2 + 1));
            }
        } else {
            let last_offset: u32 = blocks[k2].instructions[m - 1].offset;
            let last_opcode: u8 = blocks[k2].instructions[m - 1].opcode;
            let ghost lv = bv.instructions.last();
            proof {
                assert(lv == blocks@[k2 as int].instructions@[m - 1].deep_view());
                assert(lv.offset == last_offset && lv.opcode == last_opcode);
                lemma_filter_sub(iv, in_range_pred(bv.start_offset as int, bv.end_offset as int), m - 1);
                let idx = choose|idx: int| 0 <= idx < iv.len() && iv[idx] == lv;
                assert(iv[idx].offset == instructions@[idx].offset);
                assert(lv.offset < code@.len());
                assert(spec_inst_check(code@, iv[idx]) is None);
                assert(spec_inst_check(code@, lv) is None);
            }
            match branch_targets(code, last_offset as usize) {
                Err(e) => {
                    proof {
                        assert(false);
                    }
                    return Err(e);
                },
                Ok(Some(ts)) => {
                    let ghost tsv = ts@;
                    proof {
                        assert(spec_branch_targets(code@, lv.offset as int)
                            == Ok::<Option<Seq<u16>>, DecodeError>(Some(tsv)));
                        assert(tsv.take(0) =~= Seq::<u16>::empty());
                        assert(spec_branch_edges(bdv, bv.start_offset, tsv.take(0)) =~= Seq::<
                            FlowEdge,
                        >::empty());
                    }
                    let from_off: u32 = blocks[k2].start_offset;
                    let mut ti: usize = 0;
                    while ti < ts.len()
                        invariant
                            ti <= tsv.len(),
                            tsv == ts@,
                            edges@ == base + spec_branch_edges(
                                bdv,
                                bv.start_offset,
                                tsv.take(ti as int),
                            ),
                        decreases tsv.len() - ti,
                    {
                        let ghost epre = edges@;
                        match next_block_start(&blocks, ts[ti] as u32) {
                            Some(to) => {
                                edges.push(
                                    FlowEdge { from: from_off, to: to, kind: EdgeKind::Branch },
                                );
                            },
                            None => {},
                        }
                        proof {
                            lemma_branch_edges_take_step(bdv, bv.start_offset, tsv, ti as int);
                            assert(from_off == bv.start_offset);
                            if spec_has_start(bdv, tsv[ti as int] as int) {
                                assert(edges@ =~= base + spec_branch_edges(
                                    bdv,
                                    bv.start_offset,
                                    tsv.take(ti + 1),
                                ));
                            } else {
                                assert(edges@ =~= base + spec_branch_edges(
                                    bdv,
                                    bv.start_offset,
                                    tsv.take(ti + 1),
                                ));
                            }
                        }
                        ti = ti + 1;
                    }
                    proof {
                        assert(tsv.take(tsv.len() as int) =~= tsv);
                    }
                    if !is_unconditional_branch(last_opcode) {
                        match next_block_start(&blocks, blocks[k2].end_offset) {
                            Some(to) => {
                                edges.push(
                                    FlowEdge {
                                        from: from_off,
                                        to: to,
                                        kind: EdgeKind::FallThrough,
                                    },
                                );
                            },
                            None => {},
                        }
                    }
                    proof {
                        assert(edges@ =~= base + spec_block_edges(code@, bdv, bv));
                        assert(edges@ =~= spec_cfg_edges_upto(code@, bdv, k2 + 1));
                    }
                },
                Ok(None) => {
                    if !is_exit_opcode(last_opcode) {
                        match next_block_start(&blocks, blocks[k2].end_offset) {
                            Some(to) => {
                                edges.push(
                                    FlowEdge {
                                        from: blocks[k2].start_offset,
                                        to: to,
                                        kind: EdgeKind::FallThrough,
                                    },
                                );
                            },
                            None => {},
                        }
                    }
                    proof {
                        assert(edges@ =~= base + spec_block_edges(code@, bdv, bv));
                        assert(edges@ =~= spec_cfg_edges_upto(code@, bdv, k2 + 1));
                    }
                },
            }
        }
        k2 = k2 + 1;
    }
    let g = ControlFlowGraph { blocks: blocks, edges: edges };
    proof {
        let gv = g.deep_view();
        assert(gv.blocks == bdv);
        assert(gv.edges == spec_cfg_edges_upto(code@, bdv, bdv.len() as int));
        let sset = spec_start_set(code@, iv, handlers@);
        // block starts are sorted and are exactly the in-range leaders
        assert forall|i: int, j: int| 0 <= i < j < gv.blocks.len() implies (
        #[trigger] gv.blocks[i]).start_offset < (#[trigger] gv.blocks[j]).start_offset by {
            assert(gv.blocks[i].start_offset == starts@[i]);
            assert(gv.blocks[j].start_offset == starts@[j]);
        }
        assert forall|q: int| 0 <= q < gv.blocks.len() implies sset.contains(
            (#[trigger] gv.blocks[q]).start_offset as int,
        ) by {
            assert(gv.blocks[q].start_offset == starts@[q]);
            assert(u32_set(starts@).contains(starts@[q] as int));
        }
        assert forall|x: int| sset.contains(x) implies spec_has_start(gv.blocks, x) by {
            assert(u32_set(starts@).contains(x));
            let i = choose|i: int| 0 <= i < starts@.len() && (#[trigger] starts@[i]) as int == x;
            assert(gv.blocks[i].start_offset == starts@[i]);
        }
        // coverage
        assert forall|q: int| 0 <= q < gv.blocks.len() implies ((
        #[trigger] gv.blocks[q]).start_offset as int) < gv.blocks[q].end_offset as int by {
            assert(gv.blocks[q].start_offset == starts@[q]);
            if q + 1 < n as int {
                assert(starts@[q] < starts@[q + 1]);
            } else {
                assert(u32_set(starts@).contains(starts@[q] as int));
                assert(sset.contains(starts@[q] as int));
            }
        }
        if gv.blocks.len() == 0 {
            if code@.len() > 0 {
                assert(spec_leader_set(code@, iv, handlers@).contains(0));
                assert(sset.contains(0));
                assert(u32_set(starts@).contains(0));
                assert(false);
            }
        } else {
            assert(spec_leader_set(code@, iv, handlers@).contains(0));
            assert(code@.len() > 0) by {
                assert(u32_set(starts@).contains(starts@[0] as int));
                assert(sset.contains(starts@[0] as int));
            }
            assert(sset.contains(0));
            assert(u32_set(starts@).contains(0));
            let i0 = choose|i0: int|
                0 <= i0 < starts@.len() && (#[trigger] starts@[i0]) as int == 0;
            if i0 > 0 {
                assert(starts@[0] < starts@[i0]);
                assert(false);
            }
            assert(gv.blocks[0].start_offset == starts@[0]);
        }
        lemma_edges_upto_valid(code@, bdv, bdv.len() as int);
    }
    Ok(g)
}

} // verus!
