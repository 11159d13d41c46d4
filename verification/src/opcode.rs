//! Static knowledge of the JVM instruction encoding: operand readers, the
//! switch-table alignment rule, and each opcode's total encoded length.
use vstd::prelude::*;

use crate::ir::DecodeError;

verus! {

pub const BIPUSH: u8 = 0x10;
pub const SIPUSH: u8 = 0x11;
pub const LDC: u8 = 0x12;
pub const LDC_W: u8 = 0x13;
pub const LDC2_W: u8 = 0x14;
pub const IINC: u8 = 0x84;
pub const IFEQ: u8 = 0x99;
pub const GOTO: u8 = 0xa7;
pub const JSR: u8 = 0xa8;
pub const RET: u8 = 0xa9;
pub const TABLESWITCH: u8 = 0xaa;
pub const LOOKUPSWITCH: u8 = 0xab;
pub const IRETURN: u8 = 0xac;
pub const LRETURN: u8 = 0xad;
pub const FRETURN: u8 = 0xae;
pub const DRETURN: u8 = 0xaf;
pub const ARETURN: u8 = 0xb0;
pub const RETURN: u8 = 0xb1;
pub const INVOKEVIRTUAL: u8 = 0xb6;
pub const INVOKESPECIAL: u8 = 0xb7;
pub const INVOKESTATIC: u8 = 0xb8;
pub const INVOKEINTERFACE: u8 = 0xb9;
pub const INVOKEDYNAMIC: u8 = 0xba;
pub const ATHROW: u8 = 0xbf;
pub const WIDE: u8 = 0xc4;
pub const IFNULL: u8 = 0xc6;
pub const IFNONNULL: u8 = 0xc7;
pub const GOTO_W: u8 = 0xc8;
pub const JSR_W: u8 = 0xc9;

/// The largest code buffer the decoder accepts: the class-file format caps a
/// method's code at 64 KiB, and branch targets are 16-bit offsets.
pub const MAX_CODE_LEN: usize = 0xffff;

/// Big-endian unsigned 16-bit value at `i`; meaningful when `i + 2 <= code.len()`.
pub open spec fn spec_read_u16(code: Seq<u8>, i: int) -> int {
    code[i] * 0x100 + code[i + 1]
}

/// Big-endian unsigned 32-bit value at `i`; meaningful when `i + 4 <= code.len()`.
pub open spec fn spec_read_u32(code: Seq<u8>, i: int) -> int {
    code[i] * 0x1000000 + code[i + 1] * 0x10000 + code[i + 2] * 0x100 + code[i + 3]
}

/// Big-endian signed 16-bit value at `i` (two's complement).
pub open spec fn spec_read_i16(code: Seq<u8>, i: int) -> int {
    let u = spec_read_u16(code, i);
    if u < 0x8000 {
        u
    } else {
        u - 0x10000
    }
}

/// Big-endian signed 32-bit value at `i` (two's complement).
pub open spec fn spec_read_i32(code: Seq<u8>, i: int) -> int {
    let u = spec_read_u32(code, i);
    if u < 0x80000000 {
        u
    } else {
        u - 0x100000000
    }
}

/// Zero-padding bytes after a switch opcode at `offset`, aligning the
/// following 4-byte fields to a 4-byte boundary relative to the method start.
pub open spec fn spec_padding(offset: int) -> int {
    (4 - ((offset + 1) % 4)) % 4
}

/// Encoded length of the fixed-length opcodes; 1 for any opcode the table
/// does not know. `tableswitch`, `lookupswitch` and `wide` are not fixed.
pub open spec fn spec_fixed_length(op: u8) -> int {
    if op == BIPUSH || op == LDC || (0x15 <= op && op <= 0x19) || (0x36 <= op && op <= 0x3a)
        || op == RET || op == 0xbc {
        2
    } else if op == SIPUSH || op == LDC_W || op == LDC2_W || op == IINC
        || (0x99 <= op && op <= 0xa8) || (0xb2 <= op && op <= 0xb8) || op == 0xbb || op == 0xbd
        || op == 0xc0 || op == 0xc1 || op == IFNULL || op == IFNONNULL {
        3
    } else if op == 0xc5 {
        4
    } else if op == INVOKEINTERFACE || op == INVOKEDYNAMIC || op == GOTO_W || op == JSR_W {
        5
    } else {
        1
    }
}

/// Total encoded length of a `tableswitch` at `offset`, or the decode error
/// that computing it signals.
pub open spec fn spec_tableswitch_length(code: Seq<u8>, offset: int) -> Result<int, DecodeError> {
    let base = offset + 1 + spec_padding(offset);
    if base + 12 > code.len() {
        Err(DecodeError::TruncatedRead)
    } else {
        let low = spec_read_i32(code, base + 4);
        let high = spec_read_i32(code, base + 8);
        if high < low {
            Err(DecodeError::InvalidSwitchTable)
        } else if high - low + 1 > 0x7fffffff {
            Err(DecodeError::InvalidSwitchTable)
        } else if base + 12 + 4 * (high - low + 1) > code.len() {
            Err(DecodeError::TruncatedRead)
        } else {
            Ok(base + 12 + 4 * (high - low + 1) - offset)
        }
    }
}

/// Total encoded length of a `lookupswitch` at `offset`, or the decode error
/// that computing it signals.
pub open spec fn spec_lookupswitch_length(code: Seq<u8>, offset: int) -> Result<int, DecodeError> {
    let base = offset + 1 + spec_padding(offset);
    if base + 8 > code.len() {
        Err(DecodeError::TruncatedRead)
    } else {
        let npairs = spec_read_i32(code, base + 4);
        if npairs < 0 {
            Err(DecodeError::InvalidSwitchTable)
        } else if base + 8 + 8 * npairs > code.len() {
            Err(DecodeError::TruncatedRead)
        } else {
            Ok(base + 8 + 8 * npairs - offset)
        }
    }
}

/// Total encoded length of the instruction whose opcode byte sits at
/// `offset`, or the decode error that computing it signals.
pub open spec fn spec_opcode_length(code: Seq<u8>, offset: int) -> Result<int, DecodeError> {
    let op = code[offset];
    if op == TABLESWITCH {
        spec_tableswitch_length(code, offset)
    } else if op == LOOKUPSWITCH {
        spec_lookupswitch_length(code, offset)
    } else if op == WIDE {
        if offset + 2 > code.len() {
            Err(DecodeError::TruncatedRead)
        } else if code[offset + 1] == IINC {
            Ok(6)
        } else {
            Ok(4)
        }
    } else {
        Ok(spec_fixed_length(op))
    }
}

/// Read a big-endian unsigned 16-bit operand, or signal a truncated read.
pub fn read_u16(code: &[u8], offset: usize) -> (r: Result<u16, DecodeError>)
    ensures
        match r {
            Ok(v) => offset + 2 <= code@.len() && v as int == spec_read_u16(code@, offset as int),
            Err(e) => offset + 2 > code@.len() && e == DecodeError::TruncatedRead,
        },
{
    if offset >= code.len() || code.len() - offset < 2 {
        return Err(DecodeError::TruncatedRead);
    }
    let hi = code[offset];
    let lo = code[offset + 1];
    Ok((hi as u16) * 0x100 + (lo as u16))
}

/// Read a big-endian unsigned 32-bit operand, or signal a truncated read.
pub fn read_u32(code: &[u8], offset: usize) -> (r: Result<u32, DecodeError>)
    ensures
        match r {
            Ok(v) => offset + 4 <= code@.len() && v as int == spec_read_u32(code@, offset as int),
            Err(e) => offset + 4 > code@.len() && e == DecodeError::TruncatedRead,
        },
{
    if offset >= code.len() || code.len() - offset < 4 {
        return Err(DecodeError::TruncatedRead);
    }
    let b0 = code[offset];
    let b1 = code[offset + 1];
    let b2 = code[offset + 2];
    let b3 = code[offset + 3];
    Ok((b0 as u32) * 0x1000000 + (b1 as u32) * 0x10000 + (b2 as u32) * 0x100 + (b3 as u32))
}

/// Read a big-endian signed 16-bit operand, or signal a truncated read.
pub fn read_i16(code: &[u8], offset: usize) -> (r: Result<i16, DecodeError>)
    ensures
        match r {
            Ok(v) => offset + 2 <= code@.len() && v as int == spec_read_i16(code@, offset as int),
            Err(e) => offset + 2 > code@.len() && e == DecodeError::TruncatedRead,
        },
{
    let u = read_u16(code, offset)?;
    if u < 0x8000 {
        Ok(u as i16)
    } else {
        Ok(((u as i32) - 0x10000) as i16)
    }
}

/// Read a big-endian signed 32-bit operand, or signal a truncated read.
pub fn read_i32(code: &[u8], offset: usize) -> (r: Result<i32, DecodeError>)
    ensures
        match r {
            Ok(v) => offset + 4 <= code@.len() && v as int == spec_read_i32(code@, offset as int),
            Err(e) => offset + 4 > code@.len() && e == DecodeError::TruncatedRead,
        },
{
    let u = read_u32(code, offset)?;
    if u < 0x80000000 {
        Ok(u as i32)
    } else {
        Ok(((u as i64) - 0x100000000i64) as i32)
    }
}

/// Zero-padding bytes that a switch opcode at `offset` is followed by.
pub fn padding(offset: usize) -> (p: usize)
    requires
        offset <= MAX_CODE_LEN,
    ensures
        p as int == spec_padding(offset as int),
        p <= 3,
{
    (4 - ((offset + 1) % 4)) % 4
}

/// Encoded length of a fixed-length opcode (1 for an opcode outside the
/// table); never called for the three variable-length forms.
pub fn fixed_length(op: u8) -> (n: u8)
    ensures
        n as int == spec_fixed_length(op),
        1 <= n <= 5,
{
    if op == BIPUSH || op == LDC || (0x15 <= op && op <= 0x19) || (0x36 <= op && op <= 0x3a)
        || op == RET || op == 0xbc {
        2
    } else if op == SIPUSH || op == LDC_W || op == LDC2_W || op == IINC
        || (0x99 <= op && op <= 0xa8) || (0xb2 <= op && op <= 0xb8) || op == 0xbb || op == 0xbd
        || op == 0xc0 || op == 0xc1 || op == IFNULL || op == IFNONNULL {
        3
    } else if op == 0xc5 {
        4
    } else if op == INVOKEINTERFACE || op == INVOKEDYNAMIC || op == GOTO_W || op == JSR_W {
        5
    } else {
        1
    }
}

/// Total encoded length in bytes of the instruction at `offset`, including
/// the opcode byte, operands, and any switch-table padding and entries.
pub fn opcode_length(code: &[u8], offset: usize) -> (r: Result<usize, DecodeError>)
    requires
        offset < code@.len(),
        code@.len() <= MAX_CODE_LEN,
    ensures
        match r {
            Ok(n) => spec_opcode_length(code@, offset as int) == Ok::<int, DecodeError>(n as int)
                && 1 <= n <= MAX_CODE_LEN,
            Err(e) => spec_opcode_length(code@, offset as int) == Err::<int, DecodeError>(e),
        },
{
    let op = code[offset];
    if op == TABLESWITCH {
        let pad = padding(offset);
        let base = offset + 1 + pad;
        if code.len() < 12 || base > code.len() - 12 {
            return Err(DecodeError::TruncatedRead);
        }
        let low = read_i32(code, base + 4)?;
        let high = read_i32(code, base + 8)?;
        if high < low {
            return Err(DecodeError::InvalidSwitchTable);
        }
        let count: i64 = high as i64 - low as i64 + 1;
        if count > 0x7fffffff {
            return Err(DecodeError::InvalidSwitchTable);
        }
        let rem: usize = code.len() - (base + 12);
        if 4 * count > rem as i64 {
            return Err(DecodeError::TruncatedRead);
        }
        Ok(base + 12 + 4 * (count as usize) - offset)
    } else if op == LOOKUPSWITCH {
        let pad = padding(offset);
        let base = offset + 1 + pad;
        if code.len() < 8 || base > code.len() - 8 {
            return Err(DecodeError::TruncatedRead);
        }
        let npairs = read_i32(code, base + 4)?;
        if npairs < 0 {
            return Err(DecodeError::InvalidSwitchTable);
        }
        let rem: usize = code.len() - (base + 8);
        if 8 * (npairs as i64) > rem as i64 {
            return Err(DecodeError::TruncatedRead);
        }
        Ok(base + 8 + 8 * (npairs as usize) - offset)
    } else if op == WIDE {
        if code.len() - offset < 2 {
            return Err(DecodeError::TruncatedRead);
        }
        if code[offset + 1] == IINC {
            Ok(6)
        } else {
            Ok(4)
        }
    } else {
        Ok(fixed_length(op) as usize)
    }
}

} // verus!
