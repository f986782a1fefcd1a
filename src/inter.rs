use vstd::prelude::*;

use crate::error::{RuntimeError, VMError};
use crate::ir::{combine, compile, compile_spec, fold, mergeable, optimize_ir, shape, well_formed, BfIR};

verus! {

/// Number of cells on the tape.
pub const MEM_SIZE: usize = 4 * 1024 * 1024;

/// Where a run of the interpreter stopped.
#[derive(Debug, Clone, Copy, PartialEq, Eq, Structural)]
pub enum Status {
    /// The program counter has left the program.
    Halted,
    /// The next instruction is `GetByte`: hand the byte read to `input`.
    NeedInput,
    /// A `PutByte` produced this byte.
    Output(u8),
    /// The step budget ran out.
    Running,
}

/// The abstract machine: program counter, cell pointer and tape.
pub struct Machine {
    pub pc: int,
    pub ptr: int,
    pub tape: Seq<u8>,
}

/// What one step did.
pub enum Event {
    Continue,
    Halt,
    Input,
    Output(u8),
    Overflow,
}

pub open spec fn tape_ok(m: Machine) -> bool {
    m.tape.len() == MEM_SIZE && 0 <= m.ptr < MEM_SIZE && m.pc >= 0
}

/// One instruction of `code` on `m`. `GetByte` waits for input and leaves
/// the machine as it is; a pointer move that would leave the tape faults
/// before anything changes.
pub open spec fn step(code: Seq<BfIR>, m: Machine) -> (Machine, Event) {
    if m.pc >= code.len() {
        (m, Event::Halt)
    } else {
        let next = Machine { pc: m.pc + 1, ..m };
        let cell = m.tape[m.ptr];
        match code[m.pc] {
            BfIR::AddVal(x) => (Machine { tape: m.tape.update(m.ptr, ((cell + x) % 256) as u8), ..next }, Event::Continue),
            BfIR::SubVal(x) => (Machine { tape: m.tape.update(m.ptr, ((cell - x + 256) % 256) as u8), ..next }, Event::Continue),
            BfIR::AddPtr(x) => if m.ptr + x >= MEM_SIZE {
                (m, Event::Overflow)
            } else {
                (Machine { ptr: m.ptr + x, ..next }, Event::Continue)
            },
            BfIR::SubPtr(x) => if m.ptr < x {
                (m, Event::Overflow)
            } else {
                (Machine { ptr: m.ptr - x, ..next }, Event::Continue)
            },
            BfIR::GetByte => (m, Event::Input),
            BfIR::PutByte => (next, Event::Output(cell)),
            BfIR::Jz(t) => if cell == 0 {
                (Machine { pc: t + 1, ..m }, Event::Continue)
            } else {
                (next, Event::Continue)
            },
            BfIR::Jnz(t) => (Machine { pc: t as int, ..m }, Event::Continue),
        }
    }
}

/// Up to `fuel` steps, stopping at the first event other than `Continue`.
pub open spec fn run_spec(code: Seq<BfIR>, m: Machine, fuel: nat) -> (Machine, Event)
    decreases fuel,
{
    if fuel == 0 {
        (m, Event::Continue)
    } else {
        let (m2, e) = step(code, m);
        if e is Continue {
            run_spec(code, m2, (fuel - 1) as nat)
        } else {
            (m2, e)
        }
    }
}

/// The machine after a `GetByte` received `b`; end of input leaves the cell as it is.
pub open spec fn feed(m: Machine, b: Option<u8>) -> Machine {
    match b {
        Some(v) => Machine { pc: m.pc + 1, tape: m.tape.update(m.ptr, v), ..m },
        None => Machine { pc: m.pc + 1, ..m },
    }
}

/// A pointer fault leaves the machine exactly as it was before the
/// faulting instruction.
pub proof fn lemma_fault_before_mutation(code: Seq<BfIR>, m: Machine)
    ensures
        step(code, m).1 is Overflow ==> step(code, m).0 == m,
{
}

/// What a two-instruction program does in two steps, and a one-instruction
/// program in one.
pub open spec fn pair_agrees(a: BfIR, b: BfIR, m: Machine) -> bool {
    let (m1, e1) = run_spec(seq![a, b], m, 2);
    let (m2, e2) = run_spec(seq![combine(a, b)], m, 1);
    &&& (e1 is Continue <==> e2 is Continue)
    &&& (e1 is Overflow <==> e2 is Overflow)
    &&& e1 is Continue ==> m1.ptr == m2.ptr && m1.tape == m2.tape
}

proof fn lemma_unfold_runs(a: BfIR, b: BfIR, m: Machine)
    requires
        m.pc == 0,
    ensures
        ({
            let p = seq![a, b];
            let (s1, f1) = step(p, m);
            let (s2, f2) = step(p, s1);
            run_spec(p, m, 2) == if f1 is Continue { (s2, f2) } else { (s1, f1) }
        }),
        run_spec(seq![combine(a, b)], m, 1) == step(seq![combine(a, b)], m),
{
    let p = seq![a, b];
    let q = seq![combine(a, b)];
    let (s1, f1) = step(p, m);
    let (s2, f2) = step(p, s1);
    let (t1, g1) = step(q, m);
    assert(run_spec(q, t1, 0) == (t1, Event::Continue));
    assert(run_spec(p, s2, 0) == (s2, Event::Continue));
    assert(run_spec(p, s1, 1) == (s2, f2));
    if f1 is Continue {
        assert(run_spec(p, m, 2) == run_spec(p, s1, 1));
    }
}

proof fn lemma_add_wrap(c: u8, x: u8, y: u8)
    ensures
        ((((c + x) % 256) as u8) + y) % 256 == (c + ((x + y) % 256) as u8) % 256,
{
    assert(((((c + x) % 256) as u8) + y) % 256 == (c + ((x + y) % 256) as u8) % 256) by (nonlinear_arith);
}

proof fn lemma_sub_wrap(c: u8, x: u8, y: u8)
    ensures
        ((((c - x + 256) % 256) as u8) - y + 256) % 256 == (c - ((x + y) % 256) as u8 + 256) % 256,
{
    assert(((((c - x + 256) % 256) as u8) - y + 256) % 256 == (c - ((x + y) % 256) as u8 + 256) % 256)
        by (nonlinear_arith);
}

proof fn lemma_pair_cells(a: BfIR, b: BfIR, m: Machine)
    requires
        (a is AddVal && b is AddVal) || (a is SubVal && b is SubVal),
        tape_ok(m),
        m.pc == 0,
    ensures
        pair_agrees(a, b, m),
{
    lemma_unfold_runs(a, b, m);
    let p = seq![a, b];
    let q = seq![combine(a, b)];
    assert(p[0] == a && p[1] == b && q[0] == combine(a, b));
    let c = m.tape[m.ptr];
    let (s1, f1) = step(p, m);
    if a is AddVal {
        let (x, y) = (a->AddVal_0, b->AddVal_0);
        lemma_add_wrap(c, x, y);
        assert(s1 == Machine { pc: 1, tape: m.tape.update(m.ptr, ((c + x) % 256) as u8), ..m });
        assert(s1.tape[m.ptr] == ((c + x) % 256) as u8);
        let w = ((c + ((x + y) % 256) as u8) % 256) as u8;
        assert(step(p, s1).0.tape == s1.tape.update(m.ptr, w));
        assert(s1.tape.update(m.ptr, w) =~= m.tape.update(m.ptr, w));
        assert(step(q, m).0.tape == m.tape.update(m.ptr, w));
    } else {
        let (x, y) = (a->SubVal_0, b->SubVal_0);
        lemma_sub_wrap(c, x, y);
        assert(s1 == Machine { pc: 1, tape: m.tape.update(m.ptr, ((c - x + 256) % 256) as u8), ..m });
        assert(s1.tape[m.ptr] == ((c - x + 256) % 256) as u8);
        let w = ((c - ((x + y) % 256) as u8 + 256) % 256) as u8;
        assert(step(p, s1).0.tape == s1.tape.update(m.ptr, w));
        assert(s1.tape.update(m.ptr, w) =~= m.tape.update(m.ptr, w));
        assert(step(q, m).0.tape == m.tape.update(m.ptr, w));
    }
}

proof fn lemma_pair_pointer(a: BfIR, b: BfIR, m: Machine)
    requires
        (a is AddPtr && b is AddPtr && a->AddPtr_0 + b->AddPtr_0 < 0x1_0000_0000)
            || (a is SubPtr && b is SubPtr && a->SubPtr_0 + b->SubPtr_0 < 0x1_0000_0000),
        tape_ok(m),
        m.pc == 0,
    ensures
        pair_agrees(a, b, m),
{
    lemma_unfold_runs(a, b, m);
    let p = seq![a, b];
    let q = seq![combine(a, b)];
    assert(p[0] == a && p[1] == b && q[0] == combine(a, b));
}

/// Two mergeable instructions run one after the other end where their fold
/// ends, and fault exactly when it faults, provided a pointer fold does not
/// wrap around 32 bits.
pub proof fn lemma_fold_pair_equivalent(a: BfIR, b: BfIR, m: Machine)
    requires
        mergeable(a, b),
        tape_ok(m),
        m.pc == 0,
        a is AddPtr ==> a->AddPtr_0 + b->AddPtr_0 < 0x1_0000_0000,
        a is SubPtr ==> a->SubPtr_0 + b->SubPtr_0 < 0x1_0000_0000,
    ensures
        pair_agrees(a, b, m),
{
    if a is AddVal || a is SubVal {
        lemma_pair_cells(a, b, m);
    } else {
        lemma_pair_pointer(a, b, m);
    }
}

/// A program whose first instruction moves the pointer left faults on its
/// first step from a fresh machine, before any output, leaving the machine
/// untouched.
pub proof fn lemma_left_move_first_faults(code: Seq<BfIR>, m: Machine, fuel: nat)
    requires
        code.len() > 0,
        code[0] is SubPtr,
        code[0]->SubPtr_0 >= 1,
        m.pc == 0,
        m.ptr == 0,
        fuel >= 1,
    ensures
        run_spec(code, m, fuel) == (m, Event::Overflow),
{
    assert(step(code, m) == (m, Event::Overflow));
}

pub open spec fn increments(n: nat) -> Seq<BfIR> {
    Seq::new(n, |k: int| BfIR::AddVal(1))
}

proof fn lemma_mod_step(c: int, d: int)
    requires
        0 <= c,
        0 <= d,
    ensures
        ((c + 1) % 256 + d) % 256 == (c + 1 + d) % 256,
{
    assert(((c + 1) % 256 + d) % 256 == (c + 1 + d) % 256) by (nonlinear_arith);
}

proof fn lemma_increments_from(n: nat, m: Machine)
    requires
        tape_ok(m),
        m.pc <= n,
    ensures
        run_spec(increments(n), m, (n - m.pc) as nat) == (
            Machine { pc: n as int, tape: m.tape.update(m.ptr, ((m.tape[m.ptr] + n - m.pc) % 256) as u8), ..m },
            Event::Continue,
        ),
    decreases n - m.pc,
{
    let p = increments(n);
    let c = m.tape[m.ptr];
    if m.pc == n {
        assert(m.tape.update(m.ptr, ((c + 0) % 256) as u8) =~= m.tape);
    } else {
        assert(p[m.pc] == BfIR::AddVal(1));
        let m1 = Machine { pc: m.pc + 1, tape: m.tape.update(m.ptr, ((c + 1) % 256) as u8), ..m };
        assert(step(p, m) == (m1, Event::Continue));
        lemma_increments_from(n, m1);
        lemma_mod_step(c as int, n - m.pc - 1);
        assert(m1.tape.update(m.ptr, ((m1.tape[m.ptr] + n - m1.pc) % 256) as u8)
            =~= m.tape.update(m.ptr, ((c + n - m.pc) % 256) as u8));
    }
}

/// Running `n` increments leaves the same tape and pointer as running one
/// `AddVal(n mod 256)`; a multiple of 256 leaves the tape as it was.
pub proof fn lemma_increments_equivalent(n: nat, m: Machine)
    requires
        tape_ok(m),
        m.pc == 0,
        n >= 1,
    ensures
        ({
            let (m1, e1) = run_spec(increments(n), m, n);
            let (m2, e2) = run_spec(seq![BfIR::AddVal((n % 256) as u8)], m, 1);
            &&& e1 is Continue && e2 is Continue
            &&& m1.ptr == m2.ptr && m1.tape == m2.tape
            &&& n % 256 == 0 ==> m1.tape == m.tape
        }),
{
    lemma_increments_from(n, m);
    let q = seq![BfIR::AddVal((n % 256) as u8)];
    let c = m.tape[m.ptr];
    let t1 = Machine { pc: 1, tape: m.tape.update(m.ptr, ((c + (n % 256) as u8) % 256) as u8), ..m };
    assert(q[0] == BfIR::AddVal((n % 256) as u8));
    assert(step(q, m) == (t1, Event::Continue));
    assert(run_spec(q, t1, 0) == (t1, Event::Continue));
    assert((c + (n % 256) as u8) % 256 == (c + n) % 256) by (nonlinear_arith)
        requires
            0 <= c < 256,
            n >= 0,
    ;
    if n % 256 == 0 {
        assert((c + n) % 256 == c) by (nonlinear_arith)
            requires
                0 <= c < 256,
                n % 256 == 0,
        ;
        assert(m.tape.update(m.ptr, c) =~= m.tape);
    }
}

pub struct Interpreter {
    pc: u64,
    ptr: u32,
    code: Vec<BfIR>,
    memory: Vec<u8>,
}

impl Interpreter {
    pub closed spec fn machine(&self) -> Machine {
        Machine { pc: self.pc as int, ptr: self.ptr as int, tape: self.memory@ }
    }

    pub closed spec fn program(&self) -> Seq<BfIR> {
        self.code@
    }

    pub closed spec fn inv(&self) -> bool {
        &&& self.memory@.len() == MEM_SIZE
        &&& self.ptr < MEM_SIZE
        &&& self.code@.len() < u32::MAX
        &&& self.pc <= 0x1_0000_0000
    }

    /// A fresh machine for `code`: pc and pointer at 0, tape all zero.
    pub fn with_code(code: Vec<BfIR>) -> (r: Interpreter)
        requires
            code@.len() < u32::MAX,
        ensures
            r.inv(),
            tape_ok(r.machine()),
            r.program() == code@,
            r.machine() == (Machine { pc: 0, ptr: 0, tape: Seq::new(MEM_SIZE as nat, |k: int| 0u8) }),
    {
        let memory: Vec<u8> = vec![0u8; MEM_SIZE];
        let r = Interpreter { pc: 0, ptr: 0, code, memory };
        assert(r.memory@ == Seq::new(MEM_SIZE as nat, |k: int| 0u8));
        r
    }

    /// Compiles `src`, optimizes it when asked, and loads it.
    pub fn new(src: &str, optimize: bool) -> (r: Result<Interpreter, VMError>)
        requires
            src@.len() < u32::MAX,
        ensures
            match r {
                Ok(it) => compile_spec(src@) is Ok && it.inv() && it.machine().pc == 0
                    && it.machine().ptr == 0
                    && it.machine().tape == Seq::new(MEM_SIZE as nat, |k: int| 0u8)
                    && (!optimize ==> compile_spec(src@) == Ok::<Seq<BfIR>, crate::ir::CompileError>(it.program()))
                    && (optimize ==> well_formed(it.program())
                        && shape(it.program()) == fold(shape(compile_spec(src@)->Ok_0))),
                Err(VMError::Compile(e)) => compile_spec(src@) == Err::<Seq<BfIR>, crate::ir::CompileError>(e),
                Err(_) => false,
            },
    {
        match compile(src) {
            Err(e) => Err(VMError::Compile(e)),
            Ok(code) => {
                let mut code = code;
                if optimize {
                    optimize_ir(&mut code);
                }
                Ok(Interpreter::with_code(code))
            },
        }
    }

    /// Runs up to `fuel` instructions and stops at the first halt, input
    /// request, output byte or fault.
    pub fn run(&mut self, fuel: u64) -> (r: Result<Status, VMError>)
        requires
            old(self).inv(),
        ensures
            final(self).inv(),
            tape_ok(final(self).machine()),
            final(self).program() == old(self).program(),
            ({
                let (m, e) = run_spec(old(self).program(), old(self).machine(), fuel as nat);
                &&& final(self).machine() == m
                &&& match e {
                    Event::Continue => r == Ok::<Status, VMError>(Status::Running),
                    Event::Halt => r == Ok::<Status, VMError>(Status::Halted),
                    Event::Input => r == Ok::<Status, VMError>(Status::NeedInput),
                    Event::Output(b) => r == Ok::<Status, VMError>(Status::Output(b)),
                    Event::Overflow => r == Err::<Status, VMError>(VMError::Runtime(RuntimeError::PointerOverflow)),
                }
            }),
    {
        let mut left: u64 = fuel;
        let len = self.code.len() as u64;
        while left > 0
            invariant
                self.inv(),
                self.program() == old(self).program(),
                len == self.code@.len(),
                run_spec(old(self).program(), old(self).machine(), fuel as nat)
                    == run_spec(self.program(), self.machine(), left as nat),
            decreases left,
        {
            if self.pc >= len {
                return Ok(Status::Halted);
            }
            let p = self.ptr as usize;
            let cell = self.memory[p];
            match self.code[self.pc as usize] {
                BfIR::AddVal(x) => {
                    self.memory.set(p, cell.wrapping_add(x));
                    self.pc = self.pc + 1;
                },
                BfIR::SubVal(x) => {
                    self.memory.set(p, cell.wrapping_sub(x));
                    self.pc = self.pc + 1;
                },
                BfIR::AddPtr(x) => {
                    if MEM_SIZE as u32 - self.ptr <= x {
                        assert(step(self.program(), self.machine()).1 is Overflow);
                        return Err(VMError::Runtime(RuntimeError::PointerOverflow));
                    }
                    self.ptr = self.ptr + x;
                    self.pc = self.pc + 1;
                },
                BfIR::SubPtr(x) => {
                    if self.ptr < x {
                        return Err(VMError::Runtime(RuntimeError::PointerOverflow));
                    }
                    self.ptr = self.ptr - x;
                    self.pc = self.pc + 1;
                },
                BfIR::GetByte => {
                    return Ok(Status::NeedInput);
                },
                BfIR::PutByte => {
                    let ghost before = self.machine();
                    self.pc = self.pc + 1;
                    assert(step(self.program(), before).0 == self.machine());
                    return Ok(Status::Output(cell));
                },
                BfIR::Jz(t) => {
                    if cell == 0 {
                        self.pc = t as u64 + 1;
                    } else {
                        self.pc = self.pc + 1;
                    }
                },
                BfIR::Jnz(t) => {
                    self.pc = t as u64;
                },
            }
            left = left - 1;
        }
        Ok(Status::Running)
    }

    /// The cell pointer.
    pub fn pointer(&self) -> (r: u32)
        requires
            self.inv(),
        ensures
            r == self.machine().ptr,
            r < MEM_SIZE,
    {
        self.ptr
    }

    /// The program counter.
    pub fn pc(&self) -> (r: u64)
        ensures
            r == self.machine().pc,
    {
        self.pc
    }

    /// The cell under the pointer.
    pub fn cell(&self) -> (r: u8)
        requires
            self.inv(),
        ensures
            r == self.machine().tape[self.machine().ptr],
    {
        self.memory[self.ptr as usize]
    }

    /// Completes the pending `GetByte` with the byte read, or with `None` at
    /// the end of input.
    pub fn input(&mut self, b: Option<u8>)
        requires
            old(self).inv(),
            step(old(self).program(), old(self).machine()).1 is Input,
        ensures
            final(self).inv(),
            tape_ok(final(self).machine()),
            final(self).program() == old(self).program(),
            final(self).machine() == feed(old(self).machine(), b),
    {
        if let Some(v) = b {
            let p = self.ptr as usize;
            self.memory.set(p, v);
        }
        self.pc = self.pc + 1;
    }
}

} // verus!
