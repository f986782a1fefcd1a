use bfjit::error::{vm_error, RuntimeError, VMError};
use bfjit::ir::{compile, optimize_ir};
use bfjit::jit::{emit, Hooks};

const HOOKS: Hooks = Hooks {
    getbyte: 0x1122_3344_5566_7788,
    putbyte: 0x0102_0304_0506_0708,
    overflow: 0xA0B0_C0D0_E0F0_0001,
};

const PROLOGUE: [u8; 21] = [
    0x50, 0x41, 0x54, 0x41, 0x55, 0x41, 0x56, 0x41, 0x57, 0x49, 0x89, 0xFC, 0x49, 0x89, 0xF5, 0x49, 0x89, 0xD6, 0x48, 0x89, 0xF1,
];

fn epilogue() -> Vec<u8> {
    let mut v = vec![0x48, 0x31, 0xC0, 0xE9, 0x11, 0, 0, 0, 0x48, 0xB8];
    v.extend_from_slice(&HOOKS.overflow.to_le_bytes());
    v.extend_from_slice(&[0xFF, 0xD0, 0xE9, 0, 0, 0, 0]);
    // pop r15, r14, r13, r12, rdx; ret
    v.extend_from_slice(&[0x41, 0x5F, 0x41, 0x5E, 0x41, 0x5D, 0x41, 0x5C, 0x5A, 0xC3]);
    v
}

#[test]
fn empty_program() {
    let mut want = PROLOGUE.to_vec();
    want.extend(epilogue());
    assert_eq!(emit(&vec![], HOOKS), want);
}

#[test]
fn cell_arithmetic() {
    let mut code = compile("+++-").unwrap();
    optimize_ir(&mut code);
    let mut want = PROLOGUE.to_vec();
    want.extend_from_slice(&[0x80, 0x01, 3, 0x80, 0x29, 1]);
    want.extend(epilogue());
    assert_eq!(emit(&code, HOOKS), want);
}

#[test]
fn pointer_moves_jump_to_overflow_pad() {
    let code = compile(">").unwrap();
    let out = emit(&code, HOOKS);
    // Body: 21..43; success path ends at 43 + 8 = 51, the overflow pad.
    let mut want = PROLOGUE.to_vec();
    want.extend_from_slice(&[0x48, 0x81, 0xC1, 1, 0, 0, 0]);
    want.extend_from_slice(&[0x0F, 0x82]);
    want.extend_from_slice(&(51i32 - 34).to_le_bytes());
    want.extend_from_slice(&[0x4C, 0x39, 0xF1, 0x0F, 0x83]);
    want.extend_from_slice(&(51i32 - 43).to_le_bytes());
    want.extend(epilogue());
    assert_eq!(out, want);
}

#[test]
fn loop_displacements() {
    let code = compile("[.]").unwrap();
    let out = emit(&code, HOOKS);
    // Jz at 21..30, PutByte at 30..63, Jnz at 63..72.
    assert_eq!(&out[21..26], &[0x80, 0x39, 0x00, 0x0F, 0x84]);
    assert_eq!(&out[26..30], &(72i32 - 30).to_le_bytes());
    assert_eq!(&out[63..68], &[0x80, 0x39, 0x00, 0x0F, 0x85]);
    assert_eq!(&out[68..72], &(30i32 - 72).to_le_bytes());
    // The host call loads putbyte's address and leaves through the exit on error.
    assert_eq!(&out[41..49], &HOOKS.putbyte.to_le_bytes());
    let exit = 72 + 25;
    assert_eq!(&out[56..60], &(exit as i32 - 60).to_le_bytes());
    assert_eq!(out.len(), 72 + 35);
}

#[test]
fn runtime_error_is_boxed() {
    let e = vm_error(RuntimeError::PointerOverflow);
    assert!(matches!(*e, VMError::Runtime(RuntimeError::PointerOverflow)));
}
