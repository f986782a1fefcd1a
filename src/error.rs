use vstd::prelude::*;

use crate::ir::CompileError;

verus! {

/// std's `io::Error`, carried unchanged from a failed read or write.
#[verifier::external_type_specification]
#[verifier::external_body]
pub struct ExIoError(std::io::Error);

/// An error raised while a program runs.
#[derive(Debug)]
pub enum RuntimeError {
    IO(std::io::Error),
    PointerOverflow,
}

/// Any error of loading or running a program.
#[derive(Debug)]
pub enum VMError {
    IO(std::io::Error),
    Compile(CompileError),
    Runtime(RuntimeError),
}

/// Boxes a runtime error as the error object that generated code hands back
/// to its caller.
pub fn vm_error(re: RuntimeError) -> (e: Box<VMError>)
    ensures
        *e == VMError::Runtime(re),
{
    Box::new(VMError::Runtime(re))
}

} // verus!
