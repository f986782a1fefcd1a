use bfjit::ir::{compile, optimize_ir, BfIR, CompileErrorKind};

#[test]
fn test_compile() {
    assert_eq!(
        compile("+[,.]").unwrap(),
        vec![
            BfIR::AddVal(1),
            BfIR::Jz(4),
            BfIR::GetByte,
            BfIR::PutByte,
            BfIR::Jnz(1),
        ]
    );

    assert_eq!(
        compile("[").unwrap_err().kind,
        CompileErrorKind::UncloseLeftBracket,
    );

    assert_eq!(
        compile("]").unwrap_err().kind,
        CompileErrorKind::UnexpectedRightBracket,
    );
}

#[test]
fn test_optimize() {
    let mut code = compile("[+++++++]").unwrap();
    optimize_ir(&mut code);
    assert_eq!(code, vec![BfIR::Jz(2), BfIR::AddVal(7), BfIR::Jnz(0)]);
}

#[test]
fn unclosed_bracket_position() {
    let e = compile("[").unwrap_err();
    assert_eq!((e.line, e.col), (0, 1));
    // The outermost open bracket is reported.
    let e = compile("+[\n [").unwrap_err();
    assert_eq!(e.kind, CompileErrorKind::UncloseLeftBracket);
    assert_eq!((e.line, e.col), (0, 2));
}

#[test]
fn unexpected_bracket_position() {
    let e = compile("]").unwrap_err();
    assert_eq!((e.line, e.col), (0, 1));
    let e = compile("[]\n+ ]").unwrap_err();
    assert_eq!(e.kind, CompileErrorKind::UnexpectedRightBracket);
    assert_eq!((e.line, e.col), (1, 3));
}

#[test]
fn columns_count_characters_not_bytes() {
    let e = compile("é]").unwrap_err();
    assert_eq!((e.line, e.col), (0, 2));
}

#[test]
fn comments_are_ignored() {
    assert_eq!(
        compile("a+ b-\n>x<").unwrap(),
        vec![BfIR::AddVal(1), BfIR::SubVal(1), BfIR::AddPtr(1), BfIR::SubPtr(1)]
    );
    assert_eq!(compile("").unwrap(), vec![]);
}

#[test]
fn nested_loops_pair_up() {
    assert_eq!(
        compile("[[]]").unwrap(),
        vec![BfIR::Jz(3), BfIR::Jz(2), BfIR::Jnz(1), BfIR::Jnz(0)]
    );
}

#[test]
fn optimize_folds_each_kind() {
    let mut code = compile(">>>-- <<.+").unwrap();
    optimize_ir(&mut code);
    assert_eq!(
        code,
        vec![
            BfIR::AddPtr(3),
            BfIR::SubVal(2),
            BfIR::SubPtr(2),
            BfIR::PutByte,
            BfIR::AddVal(1),
        ]
    );
}

#[test]
fn optimize_wraps_cells_to_zero() {
    let src = "+".repeat(256);
    let mut code = compile(&src).unwrap();
    optimize_ir(&mut code);
    assert_eq!(code, vec![BfIR::AddVal(0)]);
    let src = "+".repeat(300);
    let mut code = compile(&src).unwrap();
    optimize_ir(&mut code);
    assert_eq!(code, vec![BfIR::AddVal(44)]);
}

#[test]
fn optimize_retargets_jumps() {
    let mut code = compile("++[->>+<<]").unwrap();
    optimize_ir(&mut code);
    assert_eq!(
        code,
        vec![
            BfIR::AddVal(2),
            BfIR::Jz(6),
            BfIR::SubVal(1),
            BfIR::AddPtr(2),
            BfIR::AddVal(1),
            BfIR::SubPtr(2),
            BfIR::Jnz(1),
        ]
    );
}

#[test]
fn optimize_twice_changes_nothing() {
    let mut once = compile("++[->>+<<]>>--.[[-]+]").unwrap();
    optimize_ir(&mut once);
    let mut twice = once.clone();
    optimize_ir(&mut twice);
    assert_eq!(once, twice);
}

#[test]
fn errors_follow_bracket_balance() {
    assert!(compile("[][]").is_ok());
    assert_eq!(compile("][").unwrap_err().kind, CompileErrorKind::UnexpectedRightBracket);
    assert_eq!(compile("[[]").unwrap_err().kind, CompileErrorKind::UncloseLeftBracket);
    assert_eq!(compile("[]]").unwrap_err().kind, CompileErrorKind::UnexpectedRightBracket);
}
