use vstd::prelude::*;

use crate::ir::{target, well_formed, BfIR};

verus! {

/// Absolute addresses of the host routines that the generated code calls.
#[derive(Debug, Clone, Copy, PartialEq, Eq, Structural)]
pub struct Hooks {
    /// `getbyte(this, cell) -> error`
    pub getbyte: u64,
    /// `putbyte(this, cell) -> error`
    pub putbyte: u64,
    /// `overflow_error() -> error`
    pub overflow: u64,
}

/// Largest program the generator accepts: every rel32 displacement then
/// stays far inside its signed range.
pub const MAX_PROGRAM: usize = 0x100_0000;

/// Little-endian bytes of a 32-bit value.
pub open spec fn le32(v: u32) -> Seq<u8> {
    seq![
        (v % 0x100) as u8,
        ((v / 0x100) % 0x100) as u8,
        ((v / 0x1_0000) % 0x100) as u8,
        ((v / 0x100_0000) % 0x100) as u8,
    ]
}

/// Little-endian bytes of a 64-bit value.
pub open spec fn le64(v: u64) -> Seq<u8> {
    le32((v % 0x1_0000_0000) as u32) + le32((v / 0x1_0000_0000) as u32)
}

/// The rel32 field of a jump that ends at `from` and lands on `to`.
pub open spec fn rel32(from: int, to: int) -> Seq<u8> {
    le32(((to - from) % 0x1_0000_0000) as u32)
}

/// `push rax`, then `push r12` .. `push r15` to keep the callee-saved
/// registers of the SysV convention (five pushes leave the stack 16-byte
/// aligned for calls), then `mov r12, rdi`, `mov r13, rsi`, `mov r14, rdx`,
/// `mov rcx, rsi`.
pub open spec fn prologue() -> Seq<u8> {
    seq![0x50u8, 0x41, 0x54, 0x41, 0x55, 0x41, 0x56, 0x41, 0x57, 0x49, 0x89, 0xFC, 0x49, 0x89, 0xF5, 0x49, 0x89,
        0xD6, 0x48, 0x89, 0xF1]
}

/// Bytes of the lowering of each opcode.
pub open spec fn size_of(b: BfIR) -> nat {
    match b {
        BfIR::AddVal(_) | BfIR::SubVal(_) => 3,
        BfIR::AddPtr(_) | BfIR::SubPtr(_) => 22,
        BfIR::GetByte | BfIR::PutByte => 33,
        BfIR::Jz(_) | BfIR::Jnz(_) => 9,
    }
}

/// Where the lowering of instruction `i` starts.
pub open spec fn offset(code: Seq<BfIR>, i: int) -> int
    decreases i,
{
    if i <= 0 {
        prologue().len() as int
    } else {
        offset(code, i - 1) + size_of(code[i - 1])
    }
}

/// The landing pad for pointer faults, right after the success path.
pub open spec fn overflow_label(code: Seq<BfIR>) -> int {
    offset(code, code.len() as int) + 8
}

/// The common exit: restores the stack and returns `rax`.
pub open spec fn exit_label(code: Seq<BfIR>) -> int {
    offset(code, code.len() as int) + 25
}

/// A host call: `mov r15, rcx`, `mov rdi, r12`, `mov rsi, rcx`,
/// `mov rax, addr`, `call rax`, `test rax, rax`, `jnz exit`, `mov rcx, r15`.
pub open spec fn call_hook(at: int, addr: u64, exit: int) -> Seq<u8> {
    seq![0x49u8, 0x89, 0xCF, 0x4C, 0x89, 0xE7, 0x48, 0x89, 0xCE, 0x48, 0xB8] + le64(addr)
        + seq![0xFFu8, 0xD0, 0x48, 0x85, 0xC0, 0x0F, 0x85] + rel32(at + 30, exit)
        + seq![0x4Cu8, 0x89, 0xF9]
}

/// The lowering of instruction `i` of `code`.
pub open spec fn encode(code: Seq<BfIR>, i: int, hooks: Hooks) -> Seq<u8> {
    let at = offset(code, i);
    let ovf = overflow_label(code);
    match code[i] {
        // add byte [rcx], x
        BfIR::AddVal(x) => seq![0x80u8, 0x01, x],
        // sub byte [rcx], x
        BfIR::SubVal(x) => seq![0x80u8, 0x29, x],
        // add rcx, x; jc overflow; cmp rcx, r14; jnb overflow
        BfIR::AddPtr(x) => seq![0x48u8, 0x81, 0xC1] + le32(x) + seq![0x0Fu8, 0x82]
            + rel32(at + 13, ovf) + seq![0x4Cu8, 0x39, 0xF1, 0x0F, 0x83] + rel32(at + 22, ovf),
        // sub rcx, x; jc overflow; cmp rcx, r13; jb overflow
        BfIR::SubPtr(x) => seq![0x48u8, 0x81, 0xE9] + le32(x) + seq![0x0Fu8, 0x82]
            + rel32(at + 13, ovf) + seq![0x4Cu8, 0x39, 0xE9, 0x0F, 0x82] + rel32(at + 22, ovf),
        BfIR::GetByte => call_hook(at, hooks.getbyte, exit_label(code)),
        BfIR::PutByte => call_hook(at, hooks.putbyte, exit_label(code)),
        // cmp byte [rcx], 0; jz past the paired Jnz
        BfIR::Jz(t) => seq![0x80u8, 0x39, 0x00, 0x0F, 0x84] + rel32(at + 9, offset(code, t + 1)),
        // cmp byte [rcx], 0; jnz past the paired Jz
        BfIR::Jnz(t) => seq![0x80u8, 0x39, 0x00, 0x0F, 0x85] + rel32(at + 9, offset(code, t + 1)),
    }
}

/// The prologue and the lowering of the first `n` instructions.
pub open spec fn body(code: Seq<BfIR>, n: int, hooks: Hooks) -> Seq<u8>
    decreases n,
{
    if n <= 0 {
        prologue()
    } else {
        body(code, n - 1, hooks) + encode(code, n - 1, hooks)
    }
}

/// `xor rax, rax; jmp exit`, the overflow pad `mov rax, overflow_error;
/// call rax; jmp exit`, and the exit, which restores what the prologue
/// saved: `pop r15` .. `pop r12`, `pop rdx`, `ret`.
pub open spec fn epilogue(hooks: Hooks) -> Seq<u8> {
    seq![0x48u8, 0x31, 0xC0, 0xE9, 0x11, 0x00, 0x00, 0x00, 0x48, 0xB8] + le64(hooks.overflow)
        + seq![0xFFu8, 0xD0, 0xE9, 0x00, 0x00, 0x00, 0x00, 0x41, 0x5F, 0x41, 0x5E, 0x41, 0x5D, 0x41, 0x5C,
        0x5A, 0xC3]
}

/// The whole routine generated for `code`; its entry is at offset 0.
pub open spec fn image(code: Seq<BfIR>, hooks: Hooks) -> Seq<u8> {
    body(code, code.len() as int, hooks) + epilogue(hooks)
}

proof fn lemma_offset_bound(code: Seq<BfIR>, i: int)
    requires
        0 <= i <= code.len(),
    ensures
        21 <= offset(code, i) <= 21 + 33 * i,
        forall|j: int| 0 <= j <= i ==> offset(code, j) <= offset(code, i),
    decreases i,
{
    if i > 0 {
        lemma_offset_bound(code, i - 1);
    }
}

fn push_le32(out: &mut Vec<u8>, v: u32)
    ensures
        final(out)@ == old(out)@ + le32(v),
{
    out.push((v % 0x100) as u8);
    out.push(((v / 0x100) % 0x100) as u8);
    out.push(((v / 0x1_0000) % 0x100) as u8);
    out.push(((v / 0x100_0000) % 0x100) as u8);
    assert(final(out)@ == old(out)@ + le32(v));
}

fn push_le64(out: &mut Vec<u8>, v: u64)
    ensures
        final(out)@ == old(out)@ + le64(v),
{
    push_le32(out, (v % 0x1_0000_0000) as u32);
    push_le32(out, (v / 0x1_0000_0000) as u32);
    assert(final(out)@ == old(out)@ + le64(v));
}

fn push_rel32(out: &mut Vec<u8>, from: u32, to: u32)
    ensures
        final(out)@ == old(out)@ + rel32(from as int, to as int),
{
    let d = to.wrapping_sub(from);
    assert(d == ((to - from) % 0x1_0000_0000) as u32);
    push_le32(out, d);
}

fn push_all(out: &mut Vec<u8>, bytes: &[u8])
    ensures
        final(out)@ == old(out)@ + bytes@,
{
    let mut k: usize = 0;
    while k < bytes.len()
        invariant
            0 <= k <= bytes@.len(),
            out@ == old(out)@ + bytes@.take(k as int),
        decreases bytes@.len() - k,
    {
        out.push(bytes[k]);
        k = k + 1;
        assert(out@ == old(out)@ + bytes@.take(k as int));
    }
    assert(bytes@.take(k as int) == bytes@);
}

fn push_call(out: &mut Vec<u8>, at: u32, addr: u64, exit: u32)
    requires
        at as int + 30 <= u32::MAX,
    ensures
        final(out)@ == old(out)@ + call_hook(at as int, addr, exit as int),
{
    push_all(out, &[0x49u8, 0x89, 0xCF, 0x4C, 0x89, 0xE7, 0x48, 0x89, 0xCE, 0x48, 0xB8]);
    push_le64(out, addr);
    push_all(out, &[0xFFu8, 0xD0, 0x48, 0x85, 0xC0, 0x0F, 0x85]);
    push_rel32(out, at + 30, exit);
    push_all(out, &[0x4Cu8, 0x89, 0xF9]);
    assert(final(out)@ == old(out)@ + call_hook(at as int, addr, exit as int));
}

/// Generates the native routine for a well-formed program.
///
/// The routine follows the SysV x86-64 convention:
/// `fn(this, mem_start, mem_end) -> error`, null on success. Loop labels sit
/// right after each `Jz` and each `Jnz`; the pairing is read off the jump
/// operands. `hooks` gives the addresses of the host routines to call.
pub fn emit(code: &Vec<BfIR>, hooks: Hooks) -> (r: Vec<u8>)
    requires
        well_formed(code@),
        code@.len() <= MAX_PROGRAM,
    ensures
        r@ == image(code@, hooks),
{
    let n = code.len();
    // Start of each lowering, and the end of the last one.
    let mut offs: Vec<u32> = Vec::new();
    offs.push(21);
    let mut i: usize = 0;
    while i < n
        invariant
            n == code@.len() <= MAX_PROGRAM,
            0 <= i <= n,
            offs@.len() == i + 1,
            forall|k: int| 0 <= k <= i ==> offs@[k] == offset(code@, k),
        decreases n - i,
    {
        proof {
            lemma_offset_bound(code@, i + 1);
        }
        let size: u32 = match code[i] {
            BfIR::AddVal(_) | BfIR::SubVal(_) => 3,
            BfIR::AddPtr(_) | BfIR::SubPtr(_) => 22,
            BfIR::GetByte | BfIR::PutByte => 33,
            BfIR::Jz(_) | BfIR::Jnz(_) => 9,
        };
        let last = offs[i];
        offs.push(last + size);
        i = i + 1;
    }
    proof {
        lemma_offset_bound(code@, n as int);
    }
    let end = offs[n];
    let ovf = end + 8;
    let exit = end + 25;
    let mut out: Vec<u8> = Vec::new();
    push_all(&mut out, &[
        0x50u8, 0x41, 0x54, 0x41, 0x55, 0x41, 0x56, 0x41, 0x57, 0x49, 0x89, 0xFC, 0x49, 0x89, 0xF5, 0x49, 0x89,
        0xD6, 0x48, 0x89, 0xF1,
    ]);
    proof {
        assert(out@ == prologue());
    }
    let mut i: usize = 0;
    while i < n
        invariant
            n == code@.len() <= MAX_PROGRAM,
            well_formed(code@),
            0 <= i <= n,
            offs@.len() == n + 1,
            forall|k: int| 0 <= k <= n ==> offs@[k] == offset(code@, k),
            offset(code@, n as int) <= 21 + 33 * n,
            ovf == overflow_label(code@),
            exit == exit_label(code@),
            out@ == body(code@, i as int, hooks),
        decreases n - i,
    {
        proof {
            lemma_offset_bound(code@, n as int);
        }
        let at = offs[i];
        let ghost prev = out@;
        match code[i] {
            BfIR::AddVal(x) => push_all(&mut out, &[0x80u8, 0x01, x]),
            BfIR::SubVal(x) => push_all(&mut out, &[0x80u8, 0x29, x]),
            BfIR::AddPtr(x) => {
                push_all(&mut out, &[0x48u8, 0x81, 0xC1]);
                push_le32(&mut out, x);
                push_all(&mut out, &[0x0Fu8, 0x82]);
                push_rel32(&mut out, at + 13, ovf);
                push_all(&mut out, &[0x4Cu8, 0x39, 0xF1, 0x0F, 0x83]);
                push_rel32(&mut out, at + 22, ovf);
            },
            BfIR::SubPtr(x) => {
                push_all(&mut out, &[0x48u8, 0x81, 0xE9]);
                push_le32(&mut out, x);
                push_all(&mut out, &[0x0Fu8, 0x82]);
                push_rel32(&mut out, at + 13, ovf);
                push_all(&mut out, &[0x4Cu8, 0x39, 0xE9, 0x0F, 0x82]);
                push_rel32(&mut out, at + 22, ovf);
            },
            BfIR::GetByte => push_call(&mut out, at, hooks.getbyte, exit),
            BfIR::PutByte => push_call(&mut out, at, hooks.putbyte, exit),
            BfIR::Jz(t) => {
                proof {
                    assert(code@[i as int] is Jz);
                }
                let to = offs[t as usize + 1];
                push_all(&mut out, &[0x80u8, 0x39, 0x00, 0x0F, 0x84]);
                push_rel32(&mut out, at + 9, to);
            },
            BfIR::Jnz(t) => {
                proof {
                    assert(code@[i as int] is Jnz);
                }
                let to = offs[t as usize + 1];
                push_all(&mut out, &[0x80u8, 0x39, 0x00, 0x0F, 0x85]);
                push_rel32(&mut out, at + 9, to);
            },
        }
        proof {
            assert(out@ == prev + encode(code@, i as int, hooks));
        }
        i = i + 1;
    }
    push_all(&mut out, &[0x48u8, 0x31, 0xC0, 0xE9, 0x11, 0x00, 0x00, 0x00, 0x48, 0xB8]);
    push_le64(&mut out, hooks.overflow);
    push_all(&mut out, &[
        0xFFu8, 0xD0, 0xE9, 0x00, 0x00, 0x00, 0x00, 0x41, 0x5F, 0x41, 0x5E, 0x41, 0x5D, 0x41, 0x5C,
        0x5A, 0xC3,
    ]);
    proof {
        assert(out@ == image(code@, hooks));
    }
    out
}

} // verus!
