use bfjit::error::{RuntimeError, VMError};
use bfjit::inter::{Interpreter, Status, MEM_SIZE};
use bfjit::ir::{compile, BfIR};

/// Runs a program to the end; returns what it wrote, or the error.
fn run_source(src: &str, input: &[u8], optimize: bool) -> (Vec<u8>, Option<VMError>) {
    let mut it = Interpreter::new(src, optimize).unwrap();
    let mut out = vec![];
    let mut pos = 0;
    loop {
        match it.run(1_000_000) {
            Ok(Status::Halted) => return (out, None),
            Ok(Status::Running) => {}
            Ok(Status::Output(b)) => out.push(b),
            Ok(Status::NeedInput) => {
                let b = input.get(pos).copied();
                pos += 1;
                it.input(b);
            }
            Err(e) => return (out, Some(e)),
        }
    }
}

fn hello_source() -> String {
    let mut src = String::new();
    for &b in b"Hello, World!\n" {
        src.push_str("[-]");
        src.push_str(&"+".repeat(b as usize));
        src.push('.');
    }
    src
}

#[test]
fn increments_input_byte() {
    let (out, err) = run_source(",+.", b"A", false);
    assert!(err.is_none());
    assert_eq!(out, b"B".to_vec());
}

#[test]
fn end_of_input_leaves_cell() {
    let (out, err) = run_source(",+.", b"", false);
    assert!(err.is_none());
    assert_eq!(out, vec![1]);
}

#[test]
fn hello_world_plain_and_optimized() {
    let src = hello_source();
    for optimize in [false, true] {
        let (out, err) = run_source(&src, b"", optimize);
        assert!(err.is_none());
        assert_eq!(out, b"Hello, World!\n".to_vec());
    }
}

#[test]
fn classic_hello_world() {
    let src = "++++++++[>++++[>++>+++>+++>+<<<<-]>+>+>->>+[<]<-]>>.>---.+++++++..+++.>>.<-.<.+++.------.--------.>>+.>++.";
    for optimize in [false, true] {
        let (out, err) = run_source(src, b"", optimize);
        assert!(err.is_none());
        assert_eq!(out, b"Hello World!\n".to_vec());
    }
}

#[test]
fn left_of_tape_faults() {
    let (out, err) = run_source("<.", b"", false);
    assert!(out.is_empty());
    assert!(matches!(err, Some(VMError::Runtime(RuntimeError::PointerOverflow))));
}

#[test]
fn right_of_tape_faults() {
    let code = vec![BfIR::AddPtr((MEM_SIZE - 1) as u32), BfIR::PutByte, BfIR::AddPtr(1)];
    let mut it = Interpreter::with_code(code);
    assert!(matches!(it.run(10), Ok(Status::Output(0))));
    assert!(matches!(
        it.run(10),
        Err(VMError::Runtime(RuntimeError::PointerOverflow))
    ));
}

#[test]
fn fault_keeps_state_before_the_move() {
    let code = vec![BfIR::AddVal(5), BfIR::SubPtr(1)];
    let mut it = Interpreter::with_code(code);
    assert!(it.run(10).is_err());
    assert_eq!(it.pointer(), 0);
    assert_eq!(it.pc(), 1);
    assert_eq!(it.cell(), 5);
}

#[test]
fn folded_move_faults_from_its_start() {
    let mut plain = Interpreter::new(">>+<<<", false).unwrap();
    assert!(plain.run(100).is_err());
    assert_eq!(plain.pointer(), 0);
    assert_eq!(plain.pc(), 5);
    let mut folded = Interpreter::new(">>+<<<", true).unwrap();
    assert!(folded.run(100).is_err());
    assert_eq!(folded.pointer(), 2);
    assert_eq!(folded.pc(), 2);
    assert_eq!(folded.cell(), 1);
}

#[test]
fn cells_wrap() {
    let (out, err) = run_source("-.+.", b"", false);
    assert!(err.is_none());
    assert_eq!(out, vec![255, 0]);
}

#[test]
fn budget_pauses_the_run() {
    let mut it = Interpreter::new("+[]", false).unwrap();
    assert!(matches!(it.run(50), Ok(Status::Running)));
}

#[test]
fn compile_error_is_reported() {
    assert!(matches!(
        Interpreter::new("[", false),
        Err(VMError::Compile(_))
    ));
}

#[test]
fn loop_at_program_start() {
    let (out, err) = run_source("[-]+[-.]", b"", false);
    assert!(err.is_none());
    assert_eq!(out, vec![0]);
    assert_eq!(compile("[-]").unwrap()[2], BfIR::Jnz(0));
}

#[test]
fn increment_runs_wrap_alike() {
    for optimize in [false, true] {
        let src = format!("{}.{}.", "+".repeat(256), "+".repeat(300));
        let (out, err) = run_source(&src, b"", optimize);
        assert!(err.is_none());
        assert_eq!(out, vec![0, 44]);
    }
}
