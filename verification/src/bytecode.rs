//! Instruction lengths of JVM bytecode.
use vstd::prelude::*;
use crate::descriptor::jdescriptor_parse;
use crate::ir::Method;
use crate::error::AnalysisError;

verus! {

/// Length of an instruction whose length does not depend on its operands; 0
/// for `tableswitch`, `lookupswitch`, `wide` and undefined opcodes.
pub open spec fn fixed_length(op: u8) -> nat {
    if op <= 0x0f || (0x1a <= op <= 0x35) || (0x3b <= op <= 0x83) || (0x85 <= op <= 0x98) || (0xac
        <= op <= 0xb1) || op == 0xbe || op == 0xbf || op == 0xc2 || op == 0xc3 {
        1
    } else if op == 0x10 || op == 0x12 || (0x15 <= op <= 0x19) || (0x36 <= op <= 0x3a) || op == 0xa9
        || op == 0xbc {
        2
    } else if op == 0x11 || op == 0x13 || op == 0x14 || op == 0x84 || (0x99 <= op <= 0xa8) || (0xb2
        <= op <= 0xb8) || op == 0xbb || op == 0xbd || op == 0xc0 || op == 0xc1 || op == 0xc6 || op
        == 0xc7 {
        3
    } else if op == 0xc5 {
        4
    } else if op == 0xb9 || op == 0xba || op == 0xc8 || op == 0xc9 {
        5
    } else {
        0
    }
}

/// The big-endian signed 32-bit value of the four bytes at `i`.
pub open spec fn be_i32(code: Seq<u8>, i: int) -> int {
    let u = code[i] * 16777216 + code[i + 1] * 65536 + code[i + 2] * 256 + code[i + 3];
    if u >= 2147483648 {
        u - 4294967296
    } else {
        u
    }
}

/// Padding after a switch opcode at `offset` up to the next multiple of four.
pub open spec fn switch_padding(offset: int) -> int {
    (4 - (offset + 1) % 4) % 4
}

/// The length of the instruction at `offset`, when the bytes there form a
/// whole instruction.
pub open spec fn instruction_length(code: Seq<u8>, offset: int) -> Option<nat> {
    if !(0 <= offset < code.len()) {
        None
    } else {
        let op = code[offset];
        let len: int = if op == 0xaa {
            let p = offset + 1 + switch_padding(offset);
            if p + 12 > code.len() {
                -1
            } else {
                let low = be_i32(code, p + 4);
                let high = be_i32(code, p + 8);
                if high < low {
                    -1
                } else {
                    1 + switch_padding(offset) + 12 + 4 * (high - low + 1)
                }
            }
        } else if op == 0xab {
            let p = offset + 1 + switch_padding(offset);
            if p + 8 > code.len() {
                -1
            } else {
                let pairs = be_i32(code, p + 4);
                if pairs < 0 {
                    -1
                } else {
                    1 + switch_padding(offset) + 8 + 8 * pairs
                }
            }
        } else if op == 0xc4 {
            if offset + 1 >= code.len() {
                -1
            } else if code[offset + 1] == 0x84 {
                6
            } else {
                4
            }
        } else if fixed_length(op) == 0 {
            -1
        } else {
            fixed_length(op) as int
        };
        if len <= 0 || offset + len > code.len() {
            None
        } else {
            Some(len as nat)
        }
    }
}

/// Walking the code from `offset` one whole instruction at a time reaches
/// its end.
pub open spec fn decodes_from(code: Seq<u8>, offset: int) -> bool
    decreases code.len() - offset,
{
    if offset < 0 || offset >= code.len() {
        true
    } else {
        match instruction_length(code, offset) {
            Some(l) => decodes_from(code, offset + l),
            None => false,
        }
    }
}

/// The method's descriptor and those of its calls parse, and its code
/// decodes from the start.
pub open spec fn method_decodes(m: Method) -> bool {
    &&& jdescriptor_parse(m.descriptor@) is Some
    &&& forall|i: int| 0 <= i < m.calls@.len() ==> jdescriptor_parse(#[trigger] m.calls@[i].descriptor@) is Some
    &&& decodes_from(m.bytecode@, 0)
}

/// A call of a method that decodes has a descriptor that parses.
pub proof fn lemma_call_parses(m: Method, c: crate::ir::CallSite)
    requires
        method_decodes(m),
        exists|i: int| 0 <= i < m.calls@.len() && c == m.calls@[i],
    ensures
        jdescriptor_parse(c.descriptor@) is Some,
{
    let i = choose|i: int| 0 <= i < m.calls@.len() && c == m.calls@[i];
    assert(jdescriptor_parse(m.calls@[i].descriptor@) is Some);
}

fn fixed_length_of(op: u8) -> (res: usize)
    ensures
        res == fixed_length(op),
{
    if op <= 0x0f || (0x1a <= op && op <= 0x35) || (0x3b <= op && op <= 0x83) || (0x85 <= op && op
        <= 0x98) || (0xac <= op && op <= 0xb1) || op == 0xbe || op == 0xbf || op == 0xc2 || op == 0xc3 {
        1
    } else if op == 0x10 || op == 0x12 || (0x15 <= op && op <= 0x19) || (0x36 <= op && op <= 0x3a)
        || op == 0xa9 || op == 0xbc {
        2
    } else if op == 0x11 || op == 0x13 || op == 0x14 || op == 0x84 || (0x99 <= op && op <= 0xa8) || (
    0xb2 <= op && op <= 0xb8) || op == 0xbb || op == 0xbd || op == 0xc0 || op == 0xc1 || op == 0xc6
        || op == 0xc7 {
        3
    } else if op == 0xc5 {
        4
    } else if op == 0xb9 || op == 0xba || op == 0xc8 || op == 0xc9 {
        5
    } else {
        0
    }
}

fn read_i32(code: &Vec<u8>, i: usize) -> (res: i64)
    requires
        i + 4 <= code@.len(),
    ensures
        res == be_i32(code@, i as int),
{
    let n = code.len();
    assert(i + 4 <= n);
    let b0: i64 = code[i] as i64;
    let b1: i64 = code[i + 1] as i64;
    let b2: i64 = code[i + 2] as i64;
    let b3: i64 = code[i + 3] as i64;
    let u: i64 = b0 * 16777216 + b1 * 65536 + b2 * 256 + b3;
    if u >= 2147483648 {
        u - 4294967296
    } else {
        u
    }
}

/// The length of the instruction at `offset`; an error when the bytes there
/// do not form a whole instruction.
pub fn opcode_length(code: &Vec<u8>, offset: usize) -> (res: Result<usize, AnalysisError>)
    ensures
        match instruction_length(code@, offset as int) {
            Some(len) => res == Ok::<usize, AnalysisError>(len as usize),
            None => res == Err::<usize, AnalysisError>(AnalysisError::InvalidBytecode(offset)),
        },
{
    if offset >= code.len() {
        return Err(AnalysisError::InvalidBytecode(offset));
    }
    let op = code[offset];
    let n = code.len();
    let pad: usize = (4 - (offset % 4 + 1) % 4) % 4;
    assert(pad == switch_padding(offset as int));
    let len: i64 = if op == 0xaa {
        if n - offset < 1 + pad + 12 {
            -1
        } else {
            let p = offset + 1 + pad;
            let low = read_i32(code, p + 4);
            let high = read_i32(code, p + 8);
            if high < low {
                -1
            } else {
                1 + pad as i64 + 12 + 4 * (high - low + 1)
            }
        }
    } else if op == 0xab {
        if n - offset < 1 + pad + 8 {
            -1
        } else {
            let p = offset + 1 + pad;
            let pairs = read_i32(code, p + 4);
            if pairs < 0 {
                -1
            } else {
                1 + pad as i64 + 8 + 8 * pairs
            }
        }
    } else if op == 0xc4 {
        if offset + 1 >= n {
            -1
        } else if code[offset + 1] == 0x84 {
            6
        } else {
            4
        }
    } else {
        let f = fixed_length_of(op);
        if f == 0 {
            -1
        } else {
            f as i64
        }
    };
    if len <= 0 || len as u64 > (n - offset) as u64 {
        Err(AnalysisError::InvalidBytecode(offset))
    } else {
        Ok(len as usize)
    }
}

} // verus!
