//! Loop resolution: from opcodes to a program with a jump table.
use vstd::prelude::*;
use crate::opcode::{bracket_weight, Opcode};
use crate::tokenizer::{tokenize, tokens_of};

verus! {

/// The nesting depth after the first `k` opcodes: loop starts met so far
/// minus loop ends met so far.
pub open spec fn depth(ops: Seq<Opcode>, k: int) -> int
    decreases k,
{
    if k <= 0 {
        0
    } else {
        depth(ops, k - 1) + bracket_weight(ops[k - 1])
    }
}

/// The depth never falls below zero up to and including position `k`: no
/// loop end among the first `k` opcodes lacks a start.
pub open spec fn never_negative(ops: Seq<Opcode>, k: int) -> bool {
    forall|m: int| 0 <= m <= k ==> depth(ops, m) >= 0
}

/// Brackets are properly nested and balanced: the depth never falls below
/// zero and is back at zero at the end.
pub open spec fn balanced(ops: Seq<Opcode>) -> bool {
    never_negative(ops, ops.len() as int) && depth(ops, ops.len() as int) == 0
}

/// The loop start at `open` and the loop end at `close` belong together:
/// `close` is the first position past `open` at which the depth is back at
/// what it was ahead of `open`.
pub open spec fn is_pair(ops: Seq<Opcode>, open: int, close: int) -> bool {
    &&& 0 <= open < close < ops.len()
    &&& ops[open] is LoopOpen
    &&& ops[close] is LoopClose
    &&& depth(ops, close + 1) == depth(ops, open)
    &&& forall|m: int| open < m <= close ==> depth(ops, m) > depth(ops, open)
}

/// `jumps` is the jump table of `ops`: one entry per opcode, which for a loop
/// bracket is the position of its partner and for any other opcode is the
/// opcode's own position.
pub open spec fn is_jump_table(ops: Seq<Opcode>, jumps: Seq<usize>) -> bool {
    &&& jumps.len() == ops.len()
    &&& forall|i: int|
        0 <= i < ops.len() ==> match ops[i] {
            Opcode::LoopOpen => is_pair(ops, i, #[trigger] jumps[i] as int),
            Opcode::LoopClose => is_pair(ops, jumps[i] as int, i),
            _ => jumps[i] == i,
        }
}

/// The loop start at `i` is never closed.
pub open spec fn is_unmatched_open(ops: Seq<Opcode>, i: int) -> bool {
    &&& 0 <= i < ops.len()
    &&& ops[i] is LoopOpen
    &&& forall|m: int| i < m <= ops.len() ==> depth(ops, m) > depth(ops, i)
}

/// `indices` lists the loop starts that are never closed: all of them, each
/// once, in rising order.
pub open spec fn lists_unmatched_opens(ops: Seq<Opcode>, indices: Seq<usize>) -> bool {
    &&& forall|a: int, b: int| 0 <= a < b < indices.len() ==> indices[a] < indices[b]
    &&& forall|a: int|
        0 <= a < indices.len() ==> is_unmatched_open(ops, #[trigger] indices[a] as int)
    &&& forall|i: int|
        is_unmatched_open(ops, i) ==> exists|a: int|
            0 <= a < indices.len() && #[trigger] indices[a] == i
}

/// The loop end at `index` is the first one that has no start.
pub open spec fn is_first_stray_close(ops: Seq<Opcode>, index: int) -> bool {
    &&& 0 <= index < ops.len()
    &&& ops[index] is LoopClose
    &&& never_negative(ops, index)
    &&& depth(ops, index + 1) < 0
}

/// Why a sequence of opcodes is no program.
#[derive(Debug, PartialEq, Eq)]
pub enum CompileError {
    /// At least one loop start is never closed; `indices` lists every one of
    /// them, in rising order.
    UnmatchedLoopOpen { indices: Vec<usize> },
    /// The loop end at `index` has no start. It is the first such one.
    UnmatchedLoopClose { index: usize },
}

impl CompileError {
    /// This error is the one that `ops` calls for: the first loop end
    /// without a start, or, where every loop end has one, the loop starts
    /// that are never closed.
    pub open spec fn describes(self, ops: Seq<Opcode>) -> bool {
        match self {
            CompileError::UnmatchedLoopClose { index } => is_first_stray_close(ops, index as int),
            CompileError::UnmatchedLoopOpen { indices } => {
                &&& never_negative(ops, ops.len() as int)
                &&& depth(ops, ops.len() as int) > 0
                &&& lists_unmatched_opens(ops, indices@)
            },
        }
    }
}

/// What holds of entry `i` of the jump table while the scan stands at `k`:
/// a loop start is either still pending, at the stack slot of its depth, or
/// paired with an end ahead of `k`.
spec fn entry_settled(
    ops: Seq<Opcode>,
    jumps: Seq<usize>,
    pending: Seq<usize>,
    k: int,
    i: int,
) -> bool {
    match ops[i] {
        Opcode::LoopOpen => {
            ||| (0 <= depth(ops, i) < pending.len() && pending[depth(ops, i)] == i)
            ||| (is_pair(ops, i, jumps[i] as int) && jumps[i] < k)
        },
        Opcode::LoopClose => is_pair(ops, jumps[i] as int, i),
        _ => jumps[i] == i,
    }
}

/// A stack slot, as itself; it gives the last quantifier of `stack_settled`
/// a term to match on.
spec fn slot(a: int) -> int {
    a
}

/// What holds of the stack of pending loop starts while the scan stands at
/// `k`: slot `a` holds a loop start at depth `a`, ahead of `k`, and the depth
/// has stayed above `a` ever since.
spec fn stack_settled(ops: Seq<Opcode>, pending: Seq<usize>, k: int) -> bool {
    &&& forall|a: int|
        0 <= a < pending.len() ==> {
            &&& (#[trigger] pending[a]) < k
            &&& ops[pending[a] as int] is LoopOpen
            &&& depth(ops, pending[a] as int) == a
        }
    &&& forall|a: int, b: int| 0 <= a < b < pending.len() ==> pending[a] < pending[b]
    &&& forall|a: int, m: int|
        0 <= a < pending.len() && pending[a] < m <= k
            ==> #[trigger] depth(ops, m) > #[trigger] slot(a)
}

/// Computes the jump table of `ops` in one pass from left to right over a
/// stack of pending loop starts, or says why there is none.
///
/// Succeeds exactly when the brackets of `ops` are balanced. Otherwise the
/// first loop end without a start is named, and where there is no such end
/// the loop starts that are never closed.
pub fn jump_table(ops: &Vec<Opcode>) -> (r: Result<Vec<usize>, CompileError>)
    ensures
        r is Ok <==> balanced(ops@),
        match r {
            Ok(jumps) => is_jump_table(ops@, jumps@),
            Err(e) => e.describes(ops@),
        },
{
    let n = ops.len();
    let mut jumps: Vec<usize> = Vec::new();
    let mut pending: Vec<usize> = Vec::new();
    let mut k: usize = 0;
    while k < n
        invariant
            n == ops.len(),
            k <= n,
            jumps.len() == k,
            depth(ops@, k as int) == pending.len(),
            never_negative(ops@, k as int),
            stack_settled(ops@, pending@, k as int),
            forall|i: int| 0 <= i < k ==> entry_settled(ops@, jumps@, pending@, k as int, i),
        decreases n - k,
    {
        let ghost before = jumps@;
        let ghost stack = pending@;
        let ghost next = k + 1;
        match ops[k] {
            Opcode::LoopOpen => {
                pending.push(k);
                jumps.push(k);
            },
            Opcode::LoopClose => {
                match pending.pop() {
                    None => {
                        proof {
                            assert(depth(ops@, k + 1) < 0);
                        }
                        return Err(CompileError::UnmatchedLoopClose { index: k });
                    },
                    Some(open) => {
                        jumps.set(open, k);
                        jumps.push(open);
                        proof {
                            // The depth has stayed above that of `open` since, and is back
                            // at it now.
                            let top = stack.len() - 1;
                            assert forall|m: int| open < m <= k implies #[trigger] depth(ops@, m)
                                > depth(ops@, open as int) by {
                                assert(depth(ops@, m) > slot(top));
                            }
                            assert(is_pair(ops@, open as int, k as int));
                        }
                    },
                }
            },
            _ => {
                jumps.push(k);
            },
        }
        proof {
            assert forall|i: int| 0 <= i < next implies entry_settled(
                ops@,
                jumps@,
                pending@,
                next,
                i,
            ) by {
                if i < k {
                    assert(entry_settled(ops@, before, stack, k as int, i));
                    // A loop start that stays on the stack stays in its slot.
                    let d = depth(ops@, i);
                    if 0 <= d < stack.len() && d < pending@.len() {
                        assert(pending@[d] == stack[d]);
                    }
                }
            }
        }
        k = k + 1;
    }
    if pending.len() == 0 {
        proof {
            assert forall|i: int| 0 <= i < ops@.len() implies match ops@[i] {
                Opcode::LoopOpen => is_pair(ops@, i, #[trigger] jumps@[i] as int),
                Opcode::LoopClose => is_pair(ops@, jumps@[i] as int, i),
                _ => jumps@[i] == i,
            } by {
                assert(entry_settled(ops@, jumps@, pending@, k as int, i));
            }
        }
        Ok(jumps)
    } else {
        proof {
            assert forall|a: int| 0 <= a < pending@.len() implies is_unmatched_open(
                ops@,
                #[trigger] pending@[a] as int,
            ) by {
                assert forall|m: int| pending@[a] < m <= ops@.len() implies #[trigger] depth(
                    ops@,
                    m,
                ) > depth(ops@, pending@[a] as int) by {
                    assert(depth(ops@, m) > slot(a));
                }
            }
            // A loop start that is not on the stack has found its end.
            assert forall|i: int| is_unmatched_open(ops@, i) implies exists|a: int|
                0 <= a < pending@.len() && #[trigger] pending@[a] == i by {
                assert(entry_settled(ops@, jumps@, pending@, k as int, i));
            }
        }
        Err(CompileError::UnmatchedLoopOpen { indices: pending })
    }
}

/// What a program is, as plain values: its opcodes and its jump table.
pub struct ProgramView {
    pub ops: Seq<Opcode>,
    pub jumps: Seq<usize>,
}

impl ProgramView {
    /// The brackets are balanced and `jumps` is the jump table of `ops`.
    pub open spec fn wf(self) -> bool {
        balanced(self.ops) && is_jump_table(self.ops, self.jumps)
    }
}

/// A resolved program: opcodes together with their jump table. It is made by
/// `resolve` or `compile` and never changes afterwards, so every program there
/// is has balanced brackets and a complete jump table.
#[derive(Debug)]
pub struct Program {
    ops: Vec<Opcode>,
    jumps: Vec<usize>,
}

impl View for Program {
    type V = ProgramView;

    closed spec fn view(&self) -> ProgramView {
        ProgramView { ops: self.ops@, jumps: self.jumps@ }
    }
}

impl Program {
    #[verifier::type_invariant]
    spec fn resolved(self) -> bool {
        self@.wf()
    }

    /// The opcodes, in order.
    pub fn ops(&self) -> (ops: &Vec<Opcode>)
        ensures
            ops@ == self@.ops,
            self@.wf(),
    {
        proof {
            use_type_invariant(self);
        }
        &self.ops
    }

    /// The jump table, one entry per opcode.
    pub fn jumps(&self) -> (jumps: &Vec<usize>)
        ensures
            jumps@ == self@.jumps,
            self@.wf(),
    {
        proof {
            use_type_invariant(self);
        }
        &self.jumps
    }
}

/// Resolves the loops of `ops`: the second half of compilation.
///
/// Succeeds exactly when the brackets of `ops` are balanced; the program then
/// holds `ops` unchanged and their jump table. Otherwise says which bracket
/// is at fault, as `jump_table` does.
pub fn resolve(ops: Vec<Opcode>) -> (r: Result<Program, CompileError>)
    ensures
        r is Ok <==> balanced(ops@),
        match r {
            Ok(program) => program@.ops == ops@ && program@.wf(),
            Err(e) => e.describes(ops@),
        },
{
    match jump_table(&ops) {
        Ok(jumps) => Ok(Program { ops, jumps }),
        Err(e) => Err(e),
    }
}

/// Compiles a source text: tokenizes it and resolves its loops, before
/// anything runs.
pub fn compile(source: &str) -> (r: Result<Program, CompileError>)
    ensures
        r is Ok <==> balanced(tokens_of(source@)),
        match r {
            Ok(program) => program@.ops == tokens_of(source@) && program@.wf(),
            Err(e) => e.describes(tokens_of(source@)),
        },
{
    resolve(tokenize(source))
}

/// A loop start has at most one matching end.
pub proof fn lemma_pair_close_unique(ops: Seq<Opcode>, open: int, c1: int, c2: int)
    requires
        is_pair(ops, open, c1),
        is_pair(ops, open, c2),
    ensures
        c1 == c2,
{
    // The earlier of two ends would bring the depth back while the later
    // one still asks it to stay above.
}

/// A loop end has at most one matching start.
pub proof fn lemma_pair_open_unique(ops: Seq<Opcode>, o1: int, o2: int, close: int)
    requires
        is_pair(ops, o1, close),
        is_pair(ops, o2, close),
    ensures
        o1 == o2,
{
    // The later of two starts lies inside the loop of the earlier one, so
    // the two stand at different depths, yet both at the depth past `close`.
}

/// Loops nest: a loop that starts inside another one also ends inside it.
pub proof fn lemma_pairs_nest(ops: Seq<Opcode>, o1: int, c1: int, o2: int, c2: int)
    requires
        is_pair(ops, o1, c1),
        is_pair(ops, o2, c2),
        o1 < o2 < c1,
    ensures
        c2 < c1,
{
    if c2 == c1 {
        lemma_pair_open_unique(ops, o1, o2, c1);
    }
}

/// Following the jump table twice leads back: the partner of a bracket's
/// partner is the bracket itself, and every other opcode is its own entry.
pub proof fn lemma_jump_table_involution(ops: Seq<Opcode>, jumps: Seq<usize>, i: int)
    requires
        is_jump_table(ops, jumps),
        0 <= i < ops.len(),
    ensures
        0 <= jumps[i] < ops.len(),
        jumps[jumps[i] as int] == i,
        ops[i] is LoopOpen ==> ops[jumps[i] as int] is LoopClose && i < jumps[i],
        ops[i] is LoopClose ==> ops[jumps[i] as int] is LoopOpen && jumps[i] < i,
{
    let j = jumps[i] as int;
    match ops[i] {
        Opcode::LoopOpen => {
            lemma_pair_open_unique(ops, i, jumps[j] as int, j);
        },
        Opcode::LoopClose => {
            lemma_pair_close_unique(ops, j, i, jumps[j] as int);
        },
        _ => {},
    }
}

/// A sequence of opcodes has at most one jump table.
pub proof fn lemma_jump_table_unique(ops: Seq<Opcode>, a: Seq<usize>, b: Seq<usize>)
    requires
        is_jump_table(ops, a),
        is_jump_table(ops, b),
    ensures
        a == b,
{
    assert forall|i: int| 0 <= i < a.len() implies a[i] == b[i] by {
        match ops[i] {
            Opcode::LoopOpen => {
                lemma_pair_close_unique(ops, i, a[i] as int, b[i] as int);
            },
            Opcode::LoopClose => {
                lemma_pair_open_unique(ops, a[i] as int, b[i] as int, i);
            },
            _ => {},
        }
    }
    assert(a =~= b);
}

/// Under a jump table the depth is never negative up to position `m`.
proof fn lemma_jump_table_never_negative(ops: Seq<Opcode>, jumps: Seq<usize>, m: int)
    requires
        is_jump_table(ops, jumps),
        0 <= m <= ops.len(),
    ensures
        never_negative(ops, m),
    decreases m,
{
    if m > 0 {
        lemma_jump_table_never_negative(ops, jumps, m - 1);
        assert(depth(ops, m - 1) >= 0);
        if ops[m - 1] is LoopClose {
            // The end at `m - 1` brings the depth back to what it was ahead
            // of its start.
            let open = jumps[m - 1] as int;
            assert(is_pair(ops, open, m - 1));
            assert(depth(ops, open) >= 0);
        }
        assert(depth(ops, m) >= 0);
    }
}

/// Under a jump table the depth at the end is no larger than the depth at
/// any position from `m` on.
proof fn lemma_jump_table_ends_lowest(ops: Seq<Opcode>, jumps: Seq<usize>, m: int)
    requires
        is_jump_table(ops, jumps),
        0 <= m <= ops.len(),
    ensures
        forall|t: int|
            m <= t <= ops.len() ==> depth(ops, ops.len() as int) <= #[trigger] depth(ops, t),
    decreases ops.len() - m,
{
    if m < ops.len() {
        lemma_jump_table_ends_lowest(ops, jumps, m + 1);
        if ops[m] is LoopOpen {
            // The depth ahead of a loop start is the depth past its end.
            assert(is_pair(ops, m, jumps[m] as int));
        }
    }
}

/// Only balanced opcodes have a jump table.
pub proof fn lemma_jump_table_balanced(ops: Seq<Opcode>, jumps: Seq<usize>)
    requires
        is_jump_table(ops, jumps),
    ensures
        balanced(ops),
{
    lemma_jump_table_never_negative(ops, jumps, ops.len() as int);
    lemma_jump_table_ends_lowest(ops, jumps, 0);
    assert(depth(ops, 0) == 0);
}

/// Two listings of the loop starts that are never closed agree on their
/// first `n` entries, and neither ends before the other has had `n`.
proof fn lemma_unmatched_listings_agree(ops: Seq<Opcode>, a: Seq<usize>, b: Seq<usize>, n: int)
    requires
        lists_unmatched_opens(ops, a),
        lists_unmatched_opens(ops, b),
        0 <= n <= a.len(),
    ensures
        n <= b.len(),
        forall|j: int| 0 <= j < n ==> a[j] == b[j],
    decreases n,
{
    if n > 0 {
        lemma_unmatched_listings_agree(ops, a, b, n - 1);
        // The entry of `a` at `n - 1` occurs in `b`, and not ahead of
        // `n - 1`, where `b` holds the smaller entries of `a`.
        let t = choose|t: int| 0 <= t < b.len() && #[trigger] b[t] == a[n - 1];
        assert(t >= n - 1);
        // The same holds the other way round, so neither entry at `n - 1`
        // is the smaller one.
        let s = choose|s: int| 0 <= s < a.len() && #[trigger] a[s] == b[n - 1];
        assert(s >= n - 1);
    }
}

/// There is one listing of the loop starts that are never closed.
pub proof fn lemma_unmatched_listing_unique(ops: Seq<Opcode>, a: Seq<usize>, b: Seq<usize>)
    requires
        lists_unmatched_opens(ops, a),
        lists_unmatched_opens(ops, b),
    ensures
        a == b,
{
    lemma_unmatched_listings_agree(ops, a, b, a.len() as int);
    lemma_unmatched_listings_agree(ops, b, a, b.len() as int);
    assert(a =~= b);
}

} // verus!
