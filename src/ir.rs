use vstd::prelude::*;

verus! {

/// One instruction of the intermediate representation.
///
/// `Jz(t)` and `Jnz(t)` carry the index of the paired bracket.
#[derive(Debug, Clone, Copy, PartialEq, Eq, Structural)]
pub enum BfIR {
    AddVal(u8),
    SubVal(u8),
    AddPtr(u32),
    SubPtr(u32),
    GetByte,
    PutByte,
    Jz(u32),
    Jnz(u32),
}

#[derive(Debug, Clone, Copy, PartialEq, Eq, Structural)]
pub enum CompileErrorKind {
    UncloseLeftBracket,
    UnexpectedRightBracket,
}

/// A structural error in the source, with 0-origin line and 1-origin column.
#[derive(Debug, Clone, Copy, PartialEq, Eq, Structural)]
pub struct CompileError {
    pub line: u32,
    pub col: u32,
    pub kind: CompileErrorKind,
}

/// State of the single-pass scanner after a prefix of the source.
pub struct Scan {
    pub code: Seq<BfIR>,
    /// Open `[`: (index in `code`, line, column).
    pub stack: Seq<(u32, u32, u32)>,
    pub line: u32,
    pub col: u32,
}

pub open spec fn scan_step(st: Scan, c: char) -> Result<Scan, CompileError> {
    let col = (st.col + 1) as u32;
    if c == '\n' {
        Ok(Scan { line: (st.line + 1) as u32, col: 0, ..st })
    } else if c == '+' {
        Ok(Scan { code: st.code.push(BfIR::AddVal(1)), col, ..st })
    } else if c == '-' {
        Ok(Scan { code: st.code.push(BfIR::SubVal(1)), col, ..st })
    } else if c == '>' {
        Ok(Scan { code: st.code.push(BfIR::AddPtr(1)), col, ..st })
    } else if c == '<' {
        Ok(Scan { code: st.code.push(BfIR::SubPtr(1)), col, ..st })
    } else if c == ',' {
        Ok(Scan { code: st.code.push(BfIR::GetByte), col, ..st })
    } else if c == '.' {
        Ok(Scan { code: st.code.push(BfIR::PutByte), col, ..st })
    } else if c == '[' {
        Ok(Scan {
            code: st.code.push(BfIR::Jz(0)),
            stack: st.stack.push((st.code.len() as u32, st.line, col)),
            col,
            ..st
        })
    } else if c == ']' {
        if st.stack.len() == 0 {
            Err(CompileError { line: st.line, col, kind: CompileErrorKind::UnexpectedRightBracket })
        } else {
            let pos = st.stack.last().0;
            Ok(Scan {
                code: st.code.update(pos as int, BfIR::Jz(st.code.len() as u32)).push(BfIR::Jnz(pos)),
                stack: st.stack.drop_last(),
                col,
                ..st
            })
        }
    } else {
        Ok(Scan { col, ..st })
    }
}

/// The scanner run over `s`, stopping at the first error.
pub open spec fn scan(s: Seq<char>) -> Result<Scan, CompileError>
    decreases s.len(),
{
    if s.len() == 0 {
        Ok(Scan { code: Seq::empty(), stack: Seq::empty(), line: 0, col: 0 })
    } else {
        match scan(s.drop_last()) {
            Err(e) => Err(e),
            Ok(st) => scan_step(st, s.last()),
        }
    }
}

/// What `compile` returns: the scanned code, or the first `]` without a
/// partner, or else the outermost `[` left open at the end.
pub open spec fn compile_spec(s: Seq<char>) -> Result<Seq<BfIR>, CompileError> {
    match scan(s) {
        Err(e) => Err(e),
        Ok(st) => if st.stack.len() > 0 {
            Err(CompileError {
                line: st.stack[0].1,
                col: st.stack[0].2,
                kind: CompileErrorKind::UncloseLeftBracket,
            })
        } else {
            Ok(st.code)
        },
    }
}

pub open spec fn is_jump(b: BfIR) -> bool {
    b is Jz || b is Jnz
}

pub open spec fn target(b: BfIR) -> int {
    match b {
        BfIR::Jz(t) => t as int,
        BfIR::Jnz(t) => t as int,
        _ => 0,
    }
}

/// Every `Jz` and `Jnz` names its partner, and pairs nest: a jump strictly
/// inside a pair has its partner inside the same pair.
pub open spec fn well_formed(code: Seq<BfIR>) -> bool {
    &&& forall|i: int| 0 <= i < code.len() && (#[trigger] code[i]) is Jz ==> {
        let t = target(code[i]);
        i < t < code.len() && code[t] == BfIR::Jnz(i as u32)
    }
    &&& forall|i: int| 0 <= i < code.len() && (#[trigger] code[i]) is Jnz ==> {
        let t = target(code[i]);
        0 <= t < i && code[t] == BfIR::Jz(i as u32)
    }
    &&& forall|i: int, j: int|
        0 <= i < j < code.len() && (#[trigger] code[i]) is Jz && j < target(code[i])
            && is_jump(#[trigger] code[j]) ==> i < target(code[j]) < target(code[i])
}

/// Jump pairing of a prefix under construction: `open` lists, in increasing
/// order, the positions of the `Jz(0)` placeholders still waiting for their
/// `Jnz`; every other jump already names its partner, and pairs nest.
pub open spec fn linking(code: Seq<BfIR>, open: Seq<int>) -> bool {
    &&& forall|k: int| 0 <= k < open.len() ==> 0 <= #[trigger] open[k] < code.len()
        && code[open[k]] == BfIR::Jz(0)
    &&& forall|k: int, m: int| 0 <= k < m < open.len() ==> #[trigger] open[k] < #[trigger] open[m]
    &&& forall|i: int| 0 <= i < code.len() && (#[trigger] code[i]) == BfIR::Jz(0) ==> is_open(open, i)
    &&& forall|i: int| 0 <= i < code.len() && (#[trigger] code[i]) is Jz && code[i] != BfIR::Jz(0) ==> {
        let t = target(code[i]);
        i < t < code.len() && code[t] == BfIR::Jnz(i as u32)
    }
    &&& forall|i: int| 0 <= i < code.len() && (#[trigger] code[i]) is Jnz ==> {
        let t = target(code[i]);
        0 <= t < i && code[t] == BfIR::Jz(i as u32)
    }
    &&& forall|i: int, j: int|
        0 <= i < j < code.len() && (#[trigger] code[i]) is Jz && j < target(code[i])
            && is_jump(#[trigger] code[j]) ==> i < target(code[j]) < target(code[i])
}

pub open spec fn is_open(open: Seq<int>, i: int) -> bool {
    exists|k: int| 0 <= k < open.len() && #[trigger] open[k] == i
}

proof fn lemma_link_plain(code: Seq<BfIR>, open: Seq<int>, x: BfIR)
    requires
        linking(code, open),
        !is_jump(x),
    ensures
        linking(code.push(x), open),
{
    let c2 = code.push(x);
    assert forall|i: int| 0 <= i < c2.len() && (#[trigger] c2[i]) == BfIR::Jz(0) implies
        is_open(open, i) by {
        assert(c2[i] == code[i]);
    }
}

proof fn lemma_link_open(code: Seq<BfIR>, open: Seq<int>)
    requires
        linking(code, open),
    ensures
        linking(code.push(BfIR::Jz(0)), open.push(code.len() as int)),
{
    let c2 = code.push(BfIR::Jz(0));
    let o2 = open.push(code.len() as int);
    assert forall|i: int| 0 <= i < c2.len() && (#[trigger] c2[i]) == BfIR::Jz(0) implies
        is_open(o2, i) by {
        if i < code.len() {
            assert(c2[i] == code[i]);
            let k = choose|k: int| 0 <= k < open.len() && #[trigger] open[k] == i;
            assert(o2[k] == i);
        } else {
            assert(o2[open.len() as int] == i);
        }
    }
    assert forall|i: int, j: int|
        0 <= i < j < c2.len() && (#[trigger] c2[i]) is Jz && j < target(c2[i])
            && is_jump(#[trigger] c2[j]) implies i < target(c2[j]) < target(c2[i]) by {
        if j == code.len() {
            assert(c2[i] == code[i]);
        }
    }
}

proof fn lemma_link_close(code: Seq<BfIR>, open: Seq<int>)
    requires
        linking(code, open),
        open.len() > 0,
        code.len() < u32::MAX,
    ensures
        linking(
            code.update(open.last(), BfIR::Jz(code.len() as u32)).push(BfIR::Jnz(open.last() as u32)),
            open.drop_last(),
        ),
{
    let p = open.last();
    let n = code.len() as int;
    let c2 = code.update(p, BfIR::Jz(n as u32)).push(BfIR::Jnz(p as u32));
    let o2 = open.drop_last();
    assert(code[p] == BfIR::Jz(0));
    // No closed pair surrounds the placeholder at `p`.
    assert forall|i: int| 0 <= i < p && (#[trigger] code[i]) is Jz && code[i] != BfIR::Jz(0)
        implies target(code[i]) < p by {
        if p < target(code[i]) {
            assert(is_jump(code[p]));
        }
    }
    // Every jump after `p` is closed and stays after `p`.
    assert forall|j: int| p < j < n && is_jump(#[trigger] code[j]) implies
        p < target(code[j]) < n && code[j] != BfIR::Jz(0) by {
        if code[j] == BfIR::Jz(0) {
            let k = choose|k: int| 0 <= k < open.len() && #[trigger] open[k] == j;
            if k < open.len() - 1 {
                assert(open[k] < open[open.len() - 1]);
            }
        } else if code[j] is Jnz {
            let t = target(code[j]);
            assert(code[t] == BfIR::Jz(j as u32));
            if t < p {
                assert(is_jump(code[p]));
            }
        }
    }
    assert forall|k: int| 0 <= k < o2.len() implies 0 <= #[trigger] o2[k] < c2.len()
        && c2[o2[k]] == BfIR::Jz(0) by {
        assert(open[k] < open[open.len() - 1]);
    }
    assert forall|i: int| 0 <= i < c2.len() && (#[trigger] c2[i]) == BfIR::Jz(0) implies
        is_open(o2, i) by {
        assert(i != p && i < n);
        assert(c2[i] == code[i]);
        let k = choose|k: int| 0 <= k < open.len() && #[trigger] open[k] == i;
        assert(o2[k] == i);
    }
    assert forall|i: int| 0 <= i < c2.len() && (#[trigger] c2[i]) is Jz && c2[i] != BfIR::Jz(0) implies {
        let t = target(c2[i]);
        i < t < c2.len() && c2[t] == BfIR::Jnz(i as u32)
    } by {
        if i != p {
            assert(c2[i] == code[i]);
            assert(code[target(code[i])] != BfIR::Jz(0));
        }
    }
    assert forall|i: int| 0 <= i < c2.len() && (#[trigger] c2[i]) is Jnz implies {
        let t = target(c2[i]);
        0 <= t < i && c2[t] == BfIR::Jz(i as u32)
    } by {
        if i < n {
            assert(c2[i] == code[i]);
            assert(code[target(code[i])] != BfIR::Jz(0));
        }
    }
    assert forall|i: int, j: int|
        0 <= i < j < c2.len() && (#[trigger] c2[i]) is Jz && j < target(c2[i])
            && is_jump(#[trigger] c2[j]) implies i < target(c2[j]) < target(c2[i]) by {
        if i == p {
            assert(c2[j] == code[j]);
        } else {
            assert(c2[i] == code[i]);
            if j == p {
                assert(is_jump(code[p]));
            } else if j < n {
                assert(c2[j] == code[j]);
            }
        }
    }
}

proof fn lemma_link_done(code: Seq<BfIR>)
    requires
        linking(code, Seq::<int>::empty()),
    ensures
        well_formed(code),
{
    assert forall|i: int| 0 <= i < code.len() && (#[trigger] code[i]) is Jz implies {
        let t = target(code[i]);
        i < t < code.len() && code[t] == BfIR::Jnz(i as u32)
    } by {
        if code[i] == BfIR::Jz(0) {
            assert(is_open(Seq::<int>::empty(), i));
        }
    }
}

/// Once the scanner fails on a prefix, it fails the same way on the whole.
proof fn lemma_scan_err(s: Seq<char>, k: int)
    requires
        0 <= k <= s.len(),
        scan(s.take(k)) is Err,
    ensures
        scan(s) == scan(s.take(k)),
    decreases s.len() - k,
{
    if k == s.len() {
        assert(s.take(k) == s);
    } else {
        assert(s.take(k + 1).drop_last() == s.take(k));
        lemma_scan_err(s, k + 1);
    }
}

/// The characters of `s`, in order.
fn chars_of(s: &str) -> (r: Vec<char>)
    ensures
        r@ == s@,
{
    broadcast use vstd::string::axiom_spec_iter;
    let mut r: Vec<char> = Vec::new();
    for c in it: s.chars()
        invariant
            r@ == it.history(),
    {
        r.push(c);
    }
    assert(r@ == s@);
    r
}

pub open spec fn open_of(stk: Seq<(u32, u32, u32)>) -> Seq<int> {
    stk.map_values(|e: (u32, u32, u32)| e.0 as int)
}

/// +1 for `[`, -1 for `]`, 0 for any other character.
pub open spec fn bracket_delta(c: char) -> int {
    if c == '[' {
        1
    } else if c == ']' {
        -1
    } else {
        0
    }
}

/// Number of `[` minus number of `]` in `s`.
pub open spec fn src_depth(s: Seq<char>) -> int
    decreases s.len(),
{
    if s.len() == 0 {
        0
    } else {
        src_depth(s.drop_last()) + bracket_delta(s.last())
    }
}

/// No prefix of `s` closes more brackets than it opens.
pub open spec fn src_never_negative(s: Seq<char>) -> bool {
    forall|k: int| 0 <= k <= s.len() ==> src_depth(#[trigger] s.take(k)) >= 0
}

/// The brackets of `s` balance: no prefix goes below zero and the whole is zero.
pub open spec fn src_balanced(s: Seq<char>) -> bool {
    src_never_negative(s) && src_depth(s) == 0
}

/// Number of newlines in `s`: the 0-origin line where `s` ends.
pub open spec fn newlines(s: Seq<char>) -> int
    decreases s.len(),
{
    if s.len() == 0 {
        0
    } else {
        newlines(s.drop_last()) + if s.last() == '\n' { 1int } else { 0int }
    }
}

/// Characters since the last newline of `s`: the 1-origin column of the last
/// character of `s`, or 0 right after a newline.
pub open spec fn column(s: Seq<char>) -> int
    decreases s.len(),
{
    if s.len() == 0 {
        0
    } else if s.last() == '\n' {
        0
    } else {
        column(s.drop_last()) + 1
    }
}

/// The `]` at index `m` is the first to close more brackets than were opened.
pub open spec fn first_unmatched_close(s: Seq<char>, m: int) -> bool {
    &&& 0 <= m < s.len()
    &&& s[m] == ']'
    &&& src_never_negative(s.take(m))
    &&& src_depth(s.take(m + 1)) < 0
}

/// The `[` at index `q` is the outermost one left open: every bracket before
/// it is closed, and it is never closed.
pub open spec fn outermost_unclosed_open(s: Seq<char>, q: int) -> bool {
    &&& 0 <= q < s.len()
    &&& s[q] == '['
    &&& src_depth(s.take(q)) == 0
    &&& forall|k: int| q < k <= s.len() ==> src_depth(#[trigger] s.take(k)) > 0
}

/// +1 for `Jz`, -1 for `Jnz`, 0 for any other instruction.
pub open spec fn jump_delta(b: BfIR) -> int {
    if b is Jz {
        1
    } else if b is Jnz {
        -1
    } else {
        0
    }
}

/// Number of `Jz` minus number of `Jnz` in `s`.
pub open spec fn code_depth(s: Seq<BfIR>) -> int
    decreases s.len(),
{
    if s.len() == 0 {
        0
    } else {
        code_depth(s.drop_last()) + jump_delta(s.last())
    }
}

/// Every prefix has at least as many `Jz` as `Jnz`, and the whole as many of each.
pub open spec fn code_balanced(s: Seq<BfIR>) -> bool {
    &&& forall|k: int| 0 <= k <= s.len() ==> code_depth(#[trigger] s.take(k)) >= 0
    &&& code_depth(s) == 0
}

proof fn lemma_code_depth_update(s: Seq<BfIR>, pos: int, x: BfIR, k: int)
    requires
        0 <= pos < s.len(),
        0 <= k <= s.len(),
        jump_delta(x) == jump_delta(s[pos]),
    ensures
        code_depth(s.update(pos, x).take(k)) == code_depth(s.take(k)),
    decreases k,
{
    if k > 0 {
        lemma_code_depth_update(s, pos, x, k - 1);
        assert(s.update(pos, x).take(k).drop_last() == s.update(pos, x).take(k - 1));
        assert(s.take(k).drop_last() == s.take(k - 1));
    }
}

proof fn lemma_code_depth_push(s: Seq<BfIR>, x: BfIR)
    ensures
        code_depth(s.push(x)) == code_depth(s) + jump_delta(x),
        forall|k: int| 0 <= k <= s.len() ==> #[trigger] s.push(x).take(k) == s.take(k),
        s.push(x).take(s.len() as int + 1) == s.push(x),
{
    assert(s.push(x).drop_last() == s);
    assert forall|k: int| 0 <= k <= s.len() implies #[trigger] s.push(x).take(k) == s.take(k) by {
        assert(s.push(x).take(k) =~= s.take(k));
    }
    assert(s.push(x).take(s.len() as int + 1) =~= s.push(x));
}

proof fn lemma_code_balance_push(s: Seq<BfIR>, x: BfIR)
    requires
        forall|k: int| 0 <= k <= s.len() ==> code_depth(#[trigger] s.take(k)) >= 0,
        code_depth(s) + jump_delta(x) >= 0,
    ensures
        forall|k: int| 0 <= k <= s.len() + 1 ==> code_depth(#[trigger] s.push(x).take(k)) >= 0,
        code_depth(s.push(x)) == code_depth(s) + jump_delta(x),
{
    lemma_code_depth_push(s, x);
    assert forall|k: int| 0 <= k <= s.len() + 1 implies code_depth(#[trigger] s.push(x).take(k)) >= 0 by {
        if k <= s.len() {
            assert(s.push(x).take(k) == s.take(k));
        }
    }
}

proof fn lemma_code_balance_update(s: Seq<BfIR>, pos: int, x: BfIR)
    requires
        forall|k: int| 0 <= k <= s.len() ==> code_depth(#[trigger] s.take(k)) >= 0,
        0 <= pos < s.len(),
        jump_delta(x) == jump_delta(s[pos]),
    ensures
        forall|k: int| 0 <= k <= s.len() ==> code_depth(#[trigger] s.update(pos, x).take(k)) >= 0,
        code_depth(s.update(pos, x)) == code_depth(s),
{
    assert forall|k: int| 0 <= k <= s.len() implies code_depth(#[trigger] s.update(pos, x).take(k)) >= 0 by {
        lemma_code_depth_update(s, pos, x, k);
    }
    lemma_code_depth_update(s, pos, x, s.len() as int);
    assert(s.update(pos, x).take(s.len() as int) == s.update(pos, x));
    assert(s.take(s.len() as int) == s);
}

/// Compiles source text into IR, pairing brackets.
pub fn compile(src: &str) -> (r: Result<Vec<BfIR>, CompileError>)
    requires
        src@.len() < u32::MAX,
    ensures
        match r {
            Ok(code) => compile_spec(src@) == Ok::<Seq<BfIR>, CompileError>(code@)
                && well_formed(code@) && code_balanced(code@) && code@.len() <= src@.len(),
            Err(e) => compile_spec(src@) == Err::<Seq<BfIR>, CompileError>(e)
                && (e.kind == CompileErrorKind::UnexpectedRightBracket <==> !src_never_negative(src@))
                && (e.kind == CompileErrorKind::UnexpectedRightBracket ==> exists|m: int|
                    first_unmatched_close(src@, m) && e.line == newlines(src@.take(m + 1))
                        && e.col == column(src@.take(m + 1)))
                && (e.kind == CompileErrorKind::UncloseLeftBracket ==> exists|q: int|
                    outermost_unclosed_open(src@, q) && e.line == newlines(src@.take(q + 1))
                        && e.col == column(src@.take(q + 1))),
        },
        r is Ok <==> src_balanced(src@),
{
    let chars = chars_of(src);
    let mut code: Vec<BfIR> = Vec::new();
    let mut stk: Vec<(u32, u32, u32)> = Vec::new();
    let mut line: u32 = 0;
    let mut col: u32 = 0;
    let mut i: usize = 0;
    let ghost mut q0: int = 0;
    proof {
        assert(open_of(stk@) == Seq::<int>::empty());
    }
    while i < chars.len()
        invariant
            chars@ == src@,
            src@.len() < u32::MAX,
            0 <= i <= chars@.len(),
            scan(chars@.take(i as int)) == Ok::<Scan, CompileError>(
                Scan { code: code@, stack: stk@, line, col },
            ),
            line + col <= i,
            code@.len() <= i,
            forall|k: int| 0 <= k < stk@.len() ==> (#[trigger] stk@[k]).0 < code@.len(),
            linking(code@, open_of(stk@)),
            src_depth(chars@.take(i as int)) == stk@.len(),
            forall|k: int| 0 <= k <= i ==> src_depth(#[trigger] chars@.take(k)) >= 0,
            code_depth(code@) == stk@.len(),
            forall|k: int| 0 <= k <= code@.len() ==> code_depth(#[trigger] code@.take(k)) >= 0,
            line == newlines(chars@.take(i as int)),
            col == column(chars@.take(i as int)),
            stk@.len() > 0 ==> {
                &&& 0 <= q0 < i
                &&& chars@[q0] == '['
                &&& src_depth(chars@.take(q0)) == 0
                &&& forall|k: int| q0 < k <= i ==> src_depth(#[trigger] chars@.take(k)) > 0
                &&& stk@[0].1 == newlines(chars@.take(q0 + 1))
                &&& stk@[0].2 == column(chars@.take(q0 + 1))
            },
        decreases chars.len() - i,
    {
        let ch = chars[i];
        let ghost old_stk = stk@;
        proof {
            assert(chars@.take(i + 1).drop_last() == chars@.take(i as int));
        }
        col = col + 1;
        if ch == '\n' {
            line = line + 1;
            col = 0;
        } else if ch == '+' {
            proof {
                lemma_link_plain(code@, open_of(stk@), BfIR::AddVal(1));
                lemma_code_balance_push(code@, BfIR::AddVal(1));
            }
            code.push(BfIR::AddVal(1));
        } else if ch == '-' {
            proof {
                lemma_link_plain(code@, open_of(stk@), BfIR::SubVal(1));
                lemma_code_balance_push(code@, BfIR::SubVal(1));
            }
            code.push(BfIR::SubVal(1));
        } else if ch == '>' {
            proof {
                lemma_link_plain(code@, open_of(stk@), BfIR::AddPtr(1));
                lemma_code_balance_push(code@, BfIR::AddPtr(1));
            }
            code.push(BfIR::AddPtr(1));
        } else if ch == '<' {
            proof {
                lemma_link_plain(code@, open_of(stk@), BfIR::SubPtr(1));
                lemma_code_balance_push(code@, BfIR::SubPtr(1));
            }
            code.push(BfIR::SubPtr(1));
        } else if ch == ',' {
            proof {
                lemma_link_plain(code@, open_of(stk@), BfIR::GetByte);
                lemma_code_balance_push(code@, BfIR::GetByte);
            }
            code.push(BfIR::GetByte);
        } else if ch == '.' {
            proof {
                lemma_link_plain(code@, open_of(stk@), BfIR::PutByte);
                lemma_code_balance_push(code@, BfIR::PutByte);
            }
            code.push(BfIR::PutByte);
        } else if ch == '[' {
            let pos = code.len() as u32;
            proof {
                lemma_link_open(code@, open_of(stk@));
                lemma_code_balance_push(code@, BfIR::Jz(0));
            }
            proof {
                if stk@.len() == 0 {
                    q0 = i as int;
                    assert(chars@.take(i + 1).last() == ch);
                }
            }
            stk.push((pos, line, col));
            code.push(BfIR::Jz(0));
            proof {
                assert(open_of(stk@) == open_of(old_stk).push(pos as int));
            }
        } else if ch == ']' {
            match stk.pop() {
                None => {
                    proof {
                        lemma_scan_err(src@, i + 1);
                        assert(src_depth(src@.take(i + 1)) < 0);
                        assert(chars@.take(i + 1).last() == ch);
                        assert forall|k: int| 0 <= k <= i implies src_depth(#[trigger] src@.take(i as int).take(k)) >= 0 by {
                            assert(src@.take(i as int).take(k) == src@.take(k));
                        }
                        assert(first_unmatched_close(src@, i as int));
                    }
                    return Err(CompileError { line, col, kind: CompileErrorKind::UnexpectedRightBracket });
                },
                Some(top) => {
                    proof {
                        assert(open_of(old_stk) == open_of(stk@).push(top.0 as int));
                        assert(open_of(stk@) == open_of(old_stk).drop_last());
                        lemma_link_close(code@, open_of(old_stk));
                    }
                    let (pos, _, _) = top;
                    let len = code.len() as u32;
                    proof {
                        assert(code@[pos as int] is Jz);
                        lemma_code_balance_update(code@, pos as int, BfIR::Jz(len));
                    }
                    code.set(pos as usize, BfIR::Jz(len));
                    proof {
                        lemma_code_balance_push(code@, BfIR::Jnz(pos));
                    }
                    code.push(BfIR::Jnz(pos));
                },
            }
        }
        proof {
            assert(chars@.take(i + 1).last() == ch);
            assert(src_depth(chars@.take(i + 1)) == src_depth(chars@.take(i as int)) + bracket_delta(ch));
        }
        i = i + 1;
    }
    proof {
        assert(chars@.take(i as int) == src@);
    }
    if stk.len() > 0 {
        proof {
            assert(outermost_unclosed_open(src@, q0));
        }
        let (_, l, c) = stk[0];
        return Err(CompileError { line: l, col: c, kind: CompileErrorKind::UncloseLeftBracket });
    }
    proof {
        assert(open_of(stk@) == Seq::<int>::empty());
        assert(code@.take(code@.len() as int) == code@);
        lemma_link_done(code@);
    }
    Ok(code)
}

} // verus!

verus! {

/// Two instructions that the optimizer folds into one: the same arithmetic opcode.
pub open spec fn mergeable(a: BfIR, b: BfIR) -> bool {
    ||| (a is AddVal && b is AddVal)
    ||| (a is SubVal && b is SubVal)
    ||| (a is AddPtr && b is AddPtr)
    ||| (a is SubPtr && b is SubPtr)
}

/// The fold of two mergeable instructions: their operands summed with
/// 8-bit wrapping for cells and 32-bit wrapping for the pointer.
pub open spec fn combine(a: BfIR, b: BfIR) -> BfIR {
    match (a, b) {
        (BfIR::AddVal(x), BfIR::AddVal(y)) => BfIR::AddVal(((x + y) % 0x100) as u8),
        (BfIR::SubVal(x), BfIR::SubVal(y)) => BfIR::SubVal(((x + y) % 0x100) as u8),
        (BfIR::AddPtr(x), BfIR::AddPtr(y)) => BfIR::AddPtr(((x + y) % 0x1_0000_0000) as u32),
        (BfIR::SubPtr(x), BfIR::SubPtr(y)) => BfIR::SubPtr(((x + y) % 0x1_0000_0000) as u32),
        _ => a,
    }
}

/// Peephole folding of a sequence, left to right: each instruction joins the
/// last one emitted when the two are mergeable. A run that wraps to zero is
/// kept as an instruction with operand 0.
pub open spec fn fold(s: Seq<BfIR>) -> Seq<BfIR>
    decreases s.len(),
{
    if s.len() == 0 {
        s
    } else {
        let r = fold(s.drop_last());
        if r.len() > 0 && mergeable(r.last(), s.last()) {
            r.drop_last().push(combine(r.last(), s.last()))
        } else {
            r.push(s.last())
        }
    }
}

/// An instruction with its jump target cleared.
pub open spec fn erase(b: BfIR) -> BfIR {
    match b {
        BfIR::Jz(_) => BfIR::Jz(0),
        BfIR::Jnz(_) => BfIR::Jnz(0),
        _ => b,
    }
}

/// A program with every jump target cleared: what remains once the pairing
/// is left aside.
pub open spec fn shape(s: Seq<BfIR>) -> Seq<BfIR> {
    s.map_values(|b: BfIR| erase(b))
}

proof fn lemma_fold_last(s: Seq<BfIR>)
    requires
        s.len() > 0,
    ensures
        fold(s).len() > 0,
        forall|x: BfIR| mergeable(fold(s).last(), x) == mergeable(s.last(), x),
        !is_jump(s.last()) ==> !is_jump(fold(s).last()),
{
}

proof fn lemma_fold_len(s: Seq<BfIR>)
    ensures
        fold(s).len() <= s.len(),
    decreases s.len(),
{
    if s.len() > 0 {
        lemma_fold_len(s.drop_last());
    }
}

/// Merges two mergeable instructions.
fn merge(a: BfIR, b: BfIR) -> (r: BfIR)
    requires
        mergeable(a, b),
    ensures
        r == combine(a, b),
{
    match (a, b) {
        (BfIR::AddVal(x), BfIR::AddVal(y)) => BfIR::AddVal(x.wrapping_add(y)),
        (BfIR::SubVal(x), BfIR::SubVal(y)) => BfIR::SubVal(x.wrapping_add(y)),
        (BfIR::AddPtr(x), BfIR::AddPtr(y)) => BfIR::AddPtr(x.wrapping_add(y)),
        (BfIR::SubPtr(x), BfIR::SubPtr(y)) => BfIR::SubPtr(x.wrapping_add(y)),
        _ => a,
    }
}

fn is_arith(b: BfIR) -> (r: bool)
    ensures
        r == mergeable(b, b),
{
    match b {
        BfIR::AddVal(_) | BfIR::SubVal(_) | BfIR::AddPtr(_) | BfIR::SubPtr(_) => true,
        _ => false,
    }
}

fn same_arith(a: BfIR, b: BfIR) -> (r: bool)
    ensures
        r == mergeable(a, b),
{
    match (a, b) {
        (BfIR::AddVal(_), BfIR::AddVal(_)) => true,
        (BfIR::SubVal(_), BfIR::SubVal(_)) => true,
        (BfIR::AddPtr(_), BfIR::AddPtr(_)) => true,
        (BfIR::SubPtr(_), BfIR::SubPtr(_)) => true,
        _ => false,
    }
}

/// Folds runs of identical arithmetic instructions in place and re-pairs the
/// jumps. The result has the shape `fold(shape(old))` and is well formed.
#[verifier::rlimit(60)]
pub fn optimize_ir(code: &mut Vec<BfIR>)
    requires
        well_formed(old(code)@),
        old(code)@.len() < u32::MAX,
    ensures
        shape(final(code)@) == fold(shape(old(code)@)),
        well_formed(final(code)@),
        final(code)@.len() <= old(code)@.len(),
{
    let ghost orig = code@;
    let len = code.len();
    let mut i: usize = 0;
    let mut pc: usize = 0;
    let mut stk: Vec<usize> = Vec::new();
    let ghost mut srcs: Seq<int> = Seq::empty();
    proof {
        assert(shape(orig.take(0)) == Seq::<BfIR>::empty());
        assert(code@.take(0) == Seq::<BfIR>::empty());
        assert(stk@.map_values(|p: usize| p as int) == Seq::<int>::empty());
    }
    while i < len
        invariant
            len == orig.len() == code@.len(),
            len < u32::MAX,
            pc <= i <= len,
            forall|k: int| i <= k < len ==> code@[k] == orig[k],
            shape(code@.take(pc as int)) == fold(shape(orig.take(i as int))),
            linking(code@.take(pc as int), stk@.map_values(|p: usize| p as int)),
            0 < i < len ==> !mergeable(orig[i - 1], orig[i as int]),
            well_formed(orig),
            srcs.len() == stk@.len(),
            forall|m: int| 0 <= m < srcs.len() ==> 0 <= #[trigger] srcs[m] < i
                && orig[srcs[m]] is Jz && target(orig[srcs[m]]) >= i,
            forall|m: int, n: int| 0 <= m < n < srcs.len() ==> #[trigger] srcs[m] < #[trigger] srcs[n],
            forall|k: int| 0 <= k < i && (#[trigger] orig[k]) is Jz && target(orig[k]) >= i
                ==> is_open(srcs, k),
        decreases len - i,
    {
        let ghost before = code@.take(pc as int);
        let ghost opened = stk@.map_values(|p: usize| p as int);
        proof {
            assert(shape(orig.take(i + 1)).drop_last() == shape(orig.take(i as int)));
            assert(shape(orig.take(i + 1)).last() == erase(orig[i as int]));
        }
        let cur = code[i];
        if is_arith(cur) {
            let mut x = cur;
            let mut j: usize = i + 1;
            proof {
                if i > 0 {
                    assert(shape(orig.take(i as int)).last() == erase(orig[i - 1]));
                    lemma_fold_last(shape(orig.take(i as int)));
                }
            }
            while j < len && same_arith(x, code[j])
                invariant
                    len == orig.len() == code@.len(),
                    i < j <= len,
                    forall|k: int| i <= k < j ==> mergeable(x, #[trigger] orig[k]),
                    forall|k: int| i <= k < len ==> code@[k] == orig[k],
                    mergeable(x, orig[j - 1]),
                    !is_jump(x),
                    fold(shape(orig.take(j as int))) == fold(shape(orig.take(i as int))).push(x),
                decreases len - j,
            {
                let next = code[j];
                proof {
                    assert(shape(orig.take(j + 1)).drop_last() == shape(orig.take(j as int)));
                    assert(shape(orig.take(j + 1)).last() == erase(orig[j as int]));
                    assert(fold(shape(orig.take(j as int))).drop_last() == fold(shape(orig.take(i as int))));
                }
                x = merge(x, next);
                j = j + 1;
            }
            proof {
                assert forall|k: int| 0 <= k < j && (#[trigger] orig[k]) is Jz && target(orig[k]) >= j
                    implies is_open(srcs, k) by {
                    if k >= i {
                        assert(mergeable(orig[k], orig[k]));
                    }
                }
                assert forall|m: int| 0 <= m < srcs.len() implies target(orig[#[trigger] srcs[m]]) >= j by {
                    let q = srcs[m];
                    let t = target(orig[q]);
                    if t < j {
                        assert(orig[t] is Jnz);
                        assert(mergeable(orig[t], orig[t]));
                    }
                }
                lemma_link_plain(before, opened, x);
                lemma_fold_len(shape(orig.take(i as int)));
                assert(code@.take(pc as int).push(x) == code@.update(pc as int, x).take(pc + 1));
                assert(shape(code@.update(pc as int, x).take(pc + 1)) == shape(code@.take(pc as int)).push(x));
            }
            code.set(pc, x);
            i = j;
            pc = pc + 1;
        } else {
            match cur {
                BfIR::Jz(_) => {
                    proof {
                        lemma_link_open(before, opened);
                        assert(code@.update(pc as int, BfIR::Jz(0)).take(pc + 1) == before.push(BfIR::Jz(0)));
                        assert(shape(before.push(BfIR::Jz(0))) == shape(before).push(BfIR::Jz(0)));
                    }
                    code.set(pc, BfIR::Jz(0));
                    stk.push(pc);
                    proof {
                        let old_srcs = srcs;
                        srcs = srcs.push(i as int);
                        assert forall|k: int| 0 <= k < i + 1 && (#[trigger] orig[k]) is Jz
                            && target(orig[k]) >= i + 1 implies is_open(srcs, k) by {
                            if k < i {
                                let m = choose|m: int| 0 <= m < old_srcs.len() && #[trigger] old_srcs[m] == k;
                                assert(srcs[m] == k);
                            } else {
                                assert(srcs[srcs.len() - 1] == k);
                            }
                        }
                        assert forall|m: int| 0 <= m < srcs.len() implies target(orig[#[trigger] srcs[m]]) >= i + 1 by {
                            if m < srcs.len() - 1 && target(orig[srcs[m]]) == i {
                                assert(orig[i as int] is Jnz);
                            }
                        }
                        assert(stk@.map_values(|p: usize| p as int) == opened.push(pc as int));
                    }
                },
                BfIR::Jnz(_) => {
                    let ghost t = target(orig[i as int]);
                    proof {
                        assert(orig[t] is Jz);
                        assert(is_open(srcs, t));
                        let m = choose|m: int| 0 <= m < srcs.len() && #[trigger] srcs[m] == t;
                        let top = srcs.last();
                        if top != t {
                            assert(srcs[m] < srcs[srcs.len() - 1]);
                            assert(is_jump(orig[top]));
                        }
                    }
                    let jz_pos = stk.pop().unwrap();
                    proof {
                        assert(opened == stk@.map_values(|p: usize| p as int).push(jz_pos as int));
                        assert(stk@.map_values(|p: usize| p as int) == opened.drop_last());
                        lemma_link_close(before, opened);
                        let c2 = before.update(jz_pos as int, BfIR::Jz(pc as u32)).push(BfIR::Jnz(jz_pos as u32));
                        assert(code@.update(pc as int, BfIR::Jnz(jz_pos as u32)).update(jz_pos as int, BfIR::Jz(pc as u32)).take(pc + 1) == c2);
                        assert(shape(c2) == shape(before).push(BfIR::Jnz(0)));
                        let old_srcs = srcs;
                        srcs = srcs.drop_last();
                        assert forall|k: int| 0 <= k < i + 1 && (#[trigger] orig[k]) is Jz
                            && target(orig[k]) >= i + 1 implies is_open(srcs, k) by {
                            let m = choose|m: int| 0 <= m < old_srcs.len() && #[trigger] old_srcs[m] == k;
                            assert(srcs[m] == k);
                        }
                        assert forall|m: int| 0 <= m < srcs.len() implies target(orig[#[trigger] srcs[m]]) >= i + 1 by {
                            assert(srcs[m] == old_srcs[m]);
                            assert(old_srcs[m] < old_srcs[old_srcs.len() - 1]);
                        }
                    }
                    code.set(pc, BfIR::Jnz(jz_pos as u32));
                    code.set(jz_pos, BfIR::Jz(pc as u32));
                },
                _ => {
                    proof {
                        assert forall|m: int| 0 <= m < srcs.len() implies target(orig[#[trigger] srcs[m]]) >= i + 1 by {
                            if target(orig[srcs[m]]) == i {
                                assert(orig[i as int] is Jnz);
                            }
                        }
                        lemma_link_plain(before, opened, cur);
                        assert(code@.update(pc as int, cur).take(pc + 1) == before.push(cur));
                        assert(shape(before.push(cur)) == shape(before).push(cur));
                    }
                    code.set(pc, cur);
                },
            }
            i = i + 1;
            pc = pc + 1;
        }
    }
    code.truncate(pc);
    proof {
        assert(orig.take(len as int) == orig);
        if srcs.len() > 0 {
            assert(target(orig[srcs[0]]) >= len);
        }
        assert(stk@.map_values(|p: usize| p as int) == Seq::<int>::empty());
        lemma_link_done(code@);
    }
}

} // verus!

verus! {

/// No two neighbours in `s` could be folded together.
pub open spec fn no_mergeable_neighbours(s: Seq<BfIR>) -> bool {
    forall|k: int| 0 <= k < s.len() - 1 ==> !mergeable(#[trigger] s[k], s[k + 1])
}

proof fn lemma_fold_no_neighbours(s: Seq<BfIR>)
    ensures
        no_mergeable_neighbours(fold(s)),
    decreases s.len(),
{
    if s.len() > 0 {
        let r = fold(s.drop_last());
        lemma_fold_no_neighbours(s.drop_last());
        let f = fold(s);
        assert forall|k: int| 0 <= k < f.len() - 1 implies !mergeable(#[trigger] f[k], f[k + 1]) by {
            assert(f[k] == r[k]);
        }
    }
}

proof fn lemma_fold_fixed(s: Seq<BfIR>)
    requires
        no_mergeable_neighbours(s),
    ensures
        fold(s) == s,
    decreases s.len(),
{
    if s.len() > 0 {
        let p = s.drop_last();
        assert forall|k: int| 0 <= k < p.len() - 1 implies !mergeable(#[trigger] p[k], p[k + 1]) by {
            assert(p[k] == s[k] && p[k + 1] == s[k + 1]);
        }
        lemma_fold_fixed(p);
        if p.len() > 0 {
            assert(!mergeable(s[s.len() - 2], s[s.len() - 1]));
        }
        assert(p.push(s.last()) == s);
    }
}

/// Folding reaches its fixed point in one application.
pub proof fn lemma_fold_idempotent(s: Seq<BfIR>)
    ensures
        fold(fold(s)) == fold(s),
{
    lemma_fold_no_neighbours(s);
    lemma_fold_fixed(fold(s));
}

/// A run of `n` increments folds to one `AddVal(n mod 256)`; a run whose
/// length is a multiple of 256 becomes `AddVal(0)`.
pub proof fn lemma_fold_increments(n: nat)
    requires
        n >= 1,
    ensures
        fold(Seq::new(n, |k: int| BfIR::AddVal(1))) == seq![BfIR::AddVal((n % 256) as u8)],
    decreases n,
{
    let s = Seq::new(n, |k: int| BfIR::AddVal(1));
    if n == 1 {
        assert(s.drop_last() == Seq::<BfIR>::empty());
        assert(s.last() == BfIR::AddVal(1));
        assert(fold(s.drop_last()).len() == 0);
        assert(fold(s) == Seq::<BfIR>::empty().push(BfIR::AddVal(1)));
        assert(Seq::<BfIR>::empty().push(BfIR::AddVal(1)) == seq![BfIR::AddVal((n % 256) as u8)]);
    } else {
        lemma_fold_increments((n - 1) as nat);
        assert(s.drop_last() == Seq::new((n - 1) as nat, |k: int| BfIR::AddVal(1)));
        let r = fold(s.drop_last());
        assert(s.last() == BfIR::AddVal(1));
        assert(r.last() == BfIR::AddVal(((n - 1) % 256) as u8));
        assert(((((n - 1) % 256) as u8) + 1) % 256 == n % 256);
        assert(fold(s) == r.drop_last().push(combine(r.last(), s.last())));
        assert(r.drop_last().push(combine(r.last(), s.last())) == seq![BfIR::AddVal((n % 256) as u8)]);
    }
}

/// Two well-formed programs with the same shape pair their jumps the same
/// way, starting from a `Jz` at `i` in both.
proof fn lemma_pairing_unique_at(a: Seq<BfIR>, b: Seq<BfIR>, i: int)
    requires
        well_formed(a),
        well_formed(b),
        shape(a) == shape(b),
        a.len() == b.len(),
        0 <= i < a.len(),
        a[i] is Jz,
    ensures
        a[i] == b[i],
    decreases target(a[i]) - i + target(b[i]) - i,
{
    assert(shape(a)[i] == erase(a[i]) && shape(b)[i] == erase(b[i]));
    let t = target(a[i]);
    let u = target(b[i]);
    if t < u {
        assert(shape(a)[t] == erase(a[t]) && shape(b)[t] == erase(b[t]));
        assert(is_jump(b[t]));
        let p = target(b[t]);
        assert(i < p < u);
        assert(shape(a)[p] == erase(a[p]) && shape(b)[p] == erase(b[p]));
        assert(is_jump(a[p]));
        lemma_pairing_unique_at(a, b, p);
    } else if u < t {
        assert(shape(a)[u] == erase(a[u]) && shape(b)[u] == erase(b[u]));
        assert(is_jump(a[u]));
        let p = target(a[u]);
        assert(i < p < t);
        assert(shape(a)[p] == erase(a[p]) && shape(b)[p] == erase(b[p]));
        assert(is_jump(b[p]));
        lemma_pairing_unique_at(a, b, p);
    }
}

/// A well-formed program is fixed by its shape: the jump targets follow from
/// the nesting of the brackets.
pub proof fn lemma_pairing_unique(a: Seq<BfIR>, b: Seq<BfIR>)
    requires
        well_formed(a),
        well_formed(b),
        shape(a) == shape(b),
    ensures
        a == b,
{
    assert(a.len() == shape(a).len() && b.len() == shape(b).len());
    assert forall|i: int| 0 <= i < a.len() implies a[i] == b[i] by {
        assert(shape(a)[i] == erase(a[i]) && shape(b)[i] == erase(b[i]));
        if a[i] is Jz {
            lemma_pairing_unique_at(a, b, i);
        } else if a[i] is Jnz {
            let t = target(a[i]);
            assert(shape(a)[t] == erase(a[t]) && shape(b)[t] == erase(b[t]));
            lemma_pairing_unique_at(a, b, t);
        }
    }
    assert(a == b);
}

/// Optimizing an optimized program changes nothing: `q` is what
/// `optimize_ir` makes of `p`, and `r` what it makes of `q`.
pub proof fn lemma_optimize_idempotent(p: Seq<BfIR>, q: Seq<BfIR>, r: Seq<BfIR>)
    requires
        well_formed(p),
        shape(q) == fold(shape(p)),
        well_formed(q),
        shape(r) == fold(shape(q)),
        well_formed(r),
    ensures
        r == q,
{
    lemma_fold_idempotent(shape(p));
    lemma_pairing_unique(r, q);
}

} // verus!
