//! Coalescing keeps what a program does.
//!
//! The two results are `lemma_coalesced_balanced`, by which the coalesced
//! opcodes resolve exactly when the opcodes themselves do, and
//! `lemma_coalesced_runs_alike`, by which a program and its coalesced form,
//! started on the same tape with the same input, end alike.
//!
//! Both are shown for a single merge of two neighbouring opcodes first: the
//! shorter program is run in step with the longer one, each of its steps
//! against one or two of theirs. Coalescing is then a chain of such merges,
//! one for each opcode that is merged into the one before it.
use vstd::prelude::*;
use crate::opcode::{bracket_weight, Opcode};
use crate::resolver::{balanced, depth, is_jump_table, is_pair, lemma_jump_table_unique,
    never_negative};
use crate::semantics::{lemma_advance_by_sum, lemma_finished_run_stays, lemma_merged_step,
    lemma_run_keeps_wf, lemma_step_keeps_wf, Machine, Run, Step};
use crate::tokenizer::{coalesced, merged};

verus! {

/// The opcodes at `a` and `a + 1` can be merged.
spec fn mergeable_at(ops: Seq<Opcode>, a: int) -> bool {
    0 <= a && a + 1 < ops.len() && merged(ops[a], ops[a + 1]) is Some
}

/// `ops` with the opcodes at `a` and `a + 1` replaced by their merged opcode.
spec fn merge_at(ops: Seq<Opcode>, a: int) -> Seq<Opcode> {
    ops.take(a).push(merged(ops[a], ops[a + 1])->0) + ops.skip(a + 2)
}

/// Where a position of the longer sequence lies in the shorter one.
spec fn shrink(a: int, k: int) -> int {
    if k <= a {
        k
    } else {
        k - 1
    }
}

/// Where a position of the shorter sequence lies in the longer one.
spec fn stretch(a: int, j: int) -> int {
    if j <= a {
        j
    } else {
        j + 1
    }
}

/// The jump table of `merge_at(ops, a)`, made from the jump table of `ops`.
spec fn merge_jumps_at(jumps: Seq<usize>, a: int) -> Seq<usize> {
    Seq::new(
        (jumps.len() - 1) as nat,
        |j: int| shrink(a, jumps[stretch(a, j)] as int) as usize,
    )
}

/// What `merge_at` holds at each position.
proof fn lemma_merge_at_entries(ops: Seq<Opcode>, a: int)
    requires
        mergeable_at(ops, a),
    ensures
        merge_at(ops, a).len() == ops.len() - 1,
        merge_at(ops, a)[a] == merged(ops[a], ops[a + 1])->0,
        bracket_weight(ops[a]) == 0,
        bracket_weight(ops[a + 1]) == 0,
        bracket_weight(merge_at(ops, a)[a]) == 0,
        forall|j: int|
            0 <= j < ops.len() - 1 && j != a
                ==> #[trigger] merge_at(ops, a)[j] == ops[stretch(a, j)],
{
}

/// Merging two opcodes leaves every nesting depth as it was.
proof fn lemma_merge_at_depth(ops: Seq<Opcode>, a: int, m: int)
    requires
        mergeable_at(ops, a),
        0 <= m <= ops.len() - 1,
    ensures
        depth(merge_at(ops, a), m) == depth(ops, stretch(a, m)),
        depth(ops, a + 1) == depth(ops, a),
    decreases m,
{
    lemma_merge_at_entries(ops, a);
    if m > 0 {
        lemma_merge_at_depth(ops, a, m - 1);
        if m - 1 == a {
            assert(depth(ops, a + 2) == depth(ops, a + 1) + bracket_weight(ops[a + 1]));
        } else {
            assert(merge_at(ops, a)[m - 1] == ops[stretch(a, m - 1)]);
        }
    }
}

/// A pair of the longer sequence is a pair of the shorter one.
proof fn lemma_merge_at_pair(ops: Seq<Opcode>, a: int, open: int, close: int)
    requires
        mergeable_at(ops, a),
        is_pair(ops, open, close),
    ensures
        is_pair(merge_at(ops, a), shrink(a, open), shrink(a, close)),
        open != a && open != a + 1 && close != a && close != a + 1,
{
    let short = merge_at(ops, a);
    lemma_merge_at_entries(ops, a);
    assert(short[shrink(a, open)] == ops[open]);
    assert(short[shrink(a, close)] == ops[close]);
    lemma_merge_at_depth(ops, a, shrink(a, close) + 1);
    lemma_merge_at_depth(ops, a, shrink(a, open));
    assert forall|m: int| shrink(a, open) < m <= shrink(a, close) implies #[trigger] depth(short, m)
        > depth(short, shrink(a, open)) by {
        lemma_merge_at_depth(ops, a, m);
        assert(depth(ops, stretch(a, m)) > depth(ops, open));
    }
}

/// The table that `merge_jumps_at` makes is the jump table of the shorter
/// sequence.
proof fn lemma_merge_at_jump_table(ops: Seq<Opcode>, jumps: Seq<usize>, a: int)
    requires
        mergeable_at(ops, a),
        is_jump_table(ops, jumps),
    ensures
        is_jump_table(merge_at(ops, a), merge_jumps_at(jumps, a)),
{
    let short = merge_at(ops, a);
    let table = merge_jumps_at(jumps, a);
    lemma_merge_at_entries(ops, a);
    assert forall|j: int| 0 <= j < short.len() implies match short[j] {
        Opcode::LoopOpen => is_pair(short, j, #[trigger] table[j] as int),
        Opcode::LoopClose => is_pair(short, table[j] as int, j),
        _ => table[j] == j,
    } by {
        let k = stretch(a, j);
        if j == a {
            assert(jumps[a] == a);
        } else {
            assert(short[j] == ops[k]);
            match ops[k] {
                Opcode::LoopOpen => {
                    assert(is_pair(ops, k, jumps[k] as int));
                    lemma_merge_at_pair(ops, a, k, jumps[k] as int);
                },
                Opcode::LoopClose => {
                    assert(is_pair(ops, jumps[k] as int, k));
                    lemma_merge_at_pair(ops, a, jumps[k] as int, k);
                },
                _ => {
                    assert(jumps[k] == k);
                },
            }
        }
    }
}

/// Two runs are over and ended alike: with the same tape, the same output,
/// the same count of input bytes taken, and either the same error or no
/// error and the same data pointer.
pub open spec fn same_outcome(a: Run, b: Run) -> bool {
    &&& a.finished()
    &&& b.finished()
    &&& a.failure == b.failure
    &&& a.machine.memory == b.machine.memory
    &&& a.output == b.output
    &&& a.consumed == b.consumed
    &&& a.failure is None ==> a.machine.dp == b.machine.dp
}

/// A run of the longer program and a run of the shorter one stand at
/// matching places: the streams and the tape agree, and unless both were
/// aborted by the same error, the data pointers agree and the instruction
/// pointers match, the longer program not standing between the two opcodes
/// that were merged.
spec fn in_step(a: int, long: Run, short: Run) -> bool {
    &&& long.consumed == short.consumed
    &&& long.output == short.output
    &&& long.failure == short.failure
    &&& long.machine.memory == short.machine.memory
    &&& long.failure is None ==> {
        &&& long.machine.dp == short.machine.dp
        &&& long.machine.ip != a + 1
        &&& short.machine.ip == shrink(a, long.machine.ip)
    }
}

/// The two runs are runs of a program and of that program with the opcodes
/// at `a` and `a + 1` merged.
spec fn merged_programs(a: int, long: Run, short: Run) -> bool {
    &&& long.machine.wf()
    &&& long.machine.resolved()
    &&& short.machine.wf()
    &&& short.machine.resolved()
    &&& mergeable_at(long.machine.tokens, a)
    &&& short.machine.tokens == merge_at(long.machine.tokens, a)
}

/// One step of the shorter program is matched by one or two steps of the
/// longer one.
proof fn lemma_merge_at_step(a: int, long: Run, short: Run, input: Seq<u8>) -> (k: nat)
    requires
        merged_programs(a, long, short),
        in_step(a, long, short),
    ensures
        k == 1 || k == 2,
        in_step(a, long.advance_by(input, k), short.advance(input)),
{
    let ops = long.machine.tokens;
    let p = long.machine;
    let q = short.machine;
    lemma_merge_at_entries(ops, a);
    lemma_merge_at_jump_table(ops, p.labels, a);
    lemma_jump_table_unique(q.tokens, q.labels, merge_jumps_at(p.labels, a));
    reveal_with_fuel(Run::advance_by, 3);
    assert(long.advance_by(input, 0) == long);
    assert(long.advance_by(input, 1) == long.advance(input));
    assert(long.advance_by(input, 2) == long.advance(input).advance(input));
    let offered = long.next_input(input);
    assert(offered == short.next_input(input));
    if long.failure is Some {
        1
    } else if p.halted() {
        1
    } else if p.ip == a {
        lemma_merged_step(p, q, offered);
        lemma_step_keeps_wf(p, offered);
        match p.step(offered) {
            Err(e) => {},
            Ok((half, what)) => {
                assert(what == Step::Advanced);
                let mid = long.advance(input);
                assert(mid.machine == half);
                assert(mid.next_input(input) == offered);
                assert(half.memory.len() == p.memory.len());
                match half.step(offered) {
                    Err(e) => {
                        assert(ops[a] is MovePointer);
                        assert(half.memory == p.memory);
                    },
                    Ok((done, what2)) => {
                        assert(what2 == Step::Advanced);
                    },
                }
            },
        }
        2
    } else {
        let ip = p.ip;
        let j = shrink(a, ip);
        assert(q.ip == j);
        assert(q.tokens[j] == ops[stretch(a, j)]);
        assert(stretch(a, j) == ip);
        match ops[ip] {
            Opcode::LoopOpen => {
                assert(is_pair(ops, ip, p.labels[ip] as int));
                lemma_merge_at_pair(ops, a, ip, p.labels[ip] as int);
            },
            Opcode::LoopClose => {
                assert(is_pair(ops, p.labels[ip] as int, ip));
                lemma_merge_at_pair(ops, a, p.labels[ip] as int, ip);
            },
            _ => {},
        }
        1
    }
}

/// Any number of steps of the shorter program is matched by at least as many
/// steps of the longer one.
proof fn lemma_merge_at_steps(
    a: int,
    long: Run,
    short: Run,
    input: Seq<u8>,
    steps: nat,
) -> (more: nat)
    requires
        merged_programs(a, long, short),
        in_step(a, long, short),
        long.consumed <= input.len(),
    ensures
        steps <= more,
        in_step(a, long.advance_by(input, more), short.advance_by(input, steps)),
    decreases steps,
{
    if steps == 0 {
        0
    } else {
        let before = lemma_merge_at_steps(a, long, short, input, (steps - 1) as nat);
        let p = long.advance_by(input, before);
        let q = short.advance_by(input, (steps - 1) as nat);
        lemma_run_keeps_wf(long, input, before);
        lemma_run_keeps_wf(short, input, (steps - 1) as nat);
        let k = lemma_merge_at_step(a, p, q, input);
        lemma_advance_by_sum(long, input, before, k);
        before + k
    }
}

/// In step, one run is over exactly when the other one is, and they ended
/// alike.
proof fn lemma_in_step_outcome(a: int, long: Run, short: Run)
    requires
        merged_programs(a, long, short),
        in_step(a, long, short),
    ensures
        long.finished() == short.finished(),
        long.finished() ==> same_outcome(long, short),
{
    lemma_merge_at_entries(long.machine.tokens, a);
}

/// Merging two opcodes keeps the brackets balanced, or unbalanced.
proof fn lemma_merge_at_balanced(ops: Seq<Opcode>, a: int)
    requires
        mergeable_at(ops, a),
    ensures
        balanced(merge_at(ops, a)) == balanced(ops),
{
    let short = merge_at(ops, a);
    lemma_merge_at_entries(ops, a);
    lemma_merge_at_depth(ops, a, short.len() as int);
    if never_negative(ops, ops.len() as int) {
        assert forall|m: int| 0 <= m <= short.len() implies depth(short, m) >= 0 by {
            lemma_merge_at_depth(ops, a, m);
        }
    }
    if never_negative(short, short.len() as int) {
        assert forall|m: int| 0 <= m <= ops.len() implies depth(ops, m) >= 0 by {
            lemma_merge_at_depth(ops, a, shrink(a, m));
            if m != a + 1 {
                assert(stretch(a, shrink(a, m)) == m);
            }
            assert(depth(short, shrink(a, m)) >= 0);
        }
    }
}

/// The sequence in which the first `k` opcodes of `ops` are coalesced and
/// the others are as they were.
spec fn partly(ops: Seq<Opcode>, k: int) -> Seq<Opcode> {
    coalesced(ops.take(k)) + ops.skip(k)
}

/// Whether coalescing merges the opcode at `k - 1` into what came before.
spec fn merges_at(ops: Seq<Opcode>, k: int) -> bool {
    let front = coalesced(ops.take(k - 1));
    front.len() > 0 && merged(front.last(), ops[k - 1]) is Some
}

/// The jump table of `partly(ops, k)`, made from the jump table of `ops`.
spec fn partly_jumps(ops: Seq<Opcode>, jumps: Seq<usize>, k: int) -> Seq<usize>
    decreases k,
{
    if k <= 0 {
        jumps
    } else if merges_at(ops, k) {
        merge_jumps_at(partly_jumps(ops, jumps, k - 1), coalesced(ops.take(k - 1)).len() - 1)
    } else {
        partly_jumps(ops, jumps, k - 1)
    }
}

/// Coalescing one opcode more is either one merge or no change at all.
proof fn lemma_partly_next(ops: Seq<Opcode>, k: int)
    requires
        0 < k <= ops.len(),
    ensures
        merges_at(ops, k) ==> {
            let a = coalesced(ops.take(k - 1)).len() - 1;
            &&& mergeable_at(partly(ops, k - 1), a)
            &&& partly(ops, k) == merge_at(partly(ops, k - 1), a)
        },
        !merges_at(ops, k) ==> partly(ops, k) == partly(ops, k - 1),
{
    let front = coalesced(ops.take(k - 1));
    let before = partly(ops, k - 1);
    assert(ops.take(k).drop_last() =~= ops.take(k - 1));
    assert(ops.take(k).last() == ops[k - 1]);
    assert(ops.skip(k - 1)[0] == ops[k - 1]);
    if merges_at(ops, k) {
        let a = front.len() - 1;
        assert(before[a] == front.last());
        assert(before[a + 1] == ops[k - 1]);
        assert(partly(ops, k) =~= merge_at(before, a));
    } else {
        assert(partly(ops, k) =~= before);
    }
}

/// Coalescing the first `k` opcodes keeps the brackets balanced, or
/// unbalanced.
proof fn lemma_partly_balanced(ops: Seq<Opcode>, k: int)
    requires
        0 <= k <= ops.len(),
    ensures
        balanced(partly(ops, k)) == balanced(ops),
    decreases k,
{
    if k == 0 {
        assert(ops.take(0) =~= Seq::<Opcode>::empty());
        assert(partly(ops, 0) =~= ops);
    } else {
        lemma_partly_balanced(ops, k - 1);
        lemma_partly_next(ops, k);
        if merges_at(ops, k) {
            lemma_merge_at_balanced(partly(ops, k - 1), coalesced(ops.take(k - 1)).len() - 1);
        }
    }
}

/// The table that `partly_jumps` makes is the jump table of `partly`.
proof fn lemma_partly_jump_table(ops: Seq<Opcode>, jumps: Seq<usize>, k: int)
    requires
        is_jump_table(ops, jumps),
        0 <= k <= ops.len(),
    ensures
        is_jump_table(partly(ops, k), partly_jumps(ops, jumps, k)),
    decreases k,
{
    if k == 0 {
        assert(ops.take(0) =~= Seq::<Opcode>::empty());
        assert(partly(ops, 0) =~= ops);
    } else {
        lemma_partly_jump_table(ops, jumps, k - 1);
        lemma_partly_next(ops, k);
        if merges_at(ops, k) {
            let a = coalesced(ops.take(k - 1)).len() - 1;
            lemma_merge_at_jump_table(partly(ops, k - 1), partly_jumps(ops, jumps, k - 1), a);
        }
    }
}

/// The start of a run of the given program on the given tape.
spec fn begin(
    tokens: Seq<Opcode>,
    labels: Seq<usize>,
    memory: Seq<u8>,
    dp: int,
    output: Seq<u8>,
) -> Run {
    Run::start(Machine { tokens, labels, memory, ip: 0, dp }, output)
}

/// A run of a program and a run of that program with two opcodes merged,
/// from the same tape: the shorter program is done when the longer one is,
/// and whenever the shorter one is done the longer one gets done too, alike
/// in both cases.
proof fn lemma_merge_at_runs(
    a: int,
    long: Run,
    short: Run,
    input: Seq<u8>,
    steps: nat,
) -> (more: nat)
    requires
        merged_programs(a, long, short),
        in_step(a, long, short),
        long.consumed <= input.len(),
    ensures
        steps <= more,
        long.advance_by(input, steps).finished() ==> same_outcome(
            long.advance_by(input, steps),
            short.advance_by(input, steps),
        ),
        short.advance_by(input, steps).finished() ==> same_outcome(
            long.advance_by(input, more),
            short.advance_by(input, steps),
        ),
{
    let more = lemma_merge_at_steps(a, long, short, input, steps);
    lemma_run_keeps_wf(long, input, more);
    lemma_run_keeps_wf(short, input, steps);
    lemma_in_step_outcome(a, long.advance_by(input, more), short.advance_by(input, steps));
    if long.advance_by(input, steps).finished() {
        lemma_finished_run_stays(long.advance_by(input, steps), input, (more - steps) as nat);
        lemma_advance_by_sum(long, input, steps, (more - steps) as nat);
    }
    more
}

/// A program finished in `steps` steps is finished in as many steps, and
/// alike, once its first `k` opcodes are coalesced.
proof fn lemma_partly_keeps_up(
    ops: Seq<Opcode>,
    jumps: Seq<usize>,
    k: int,
    memory: Seq<u8>,
    dp: int,
    input: Seq<u8>,
    output: Seq<u8>,
    steps: nat,
)
    requires
        is_jump_table(ops, jumps),
        0 <= k <= ops.len(),
        0 <= dp < memory.len(),
        begin(ops, jumps, memory, dp, output).advance_by(input, steps).finished(),
    ensures
        same_outcome(
            begin(ops, jumps, memory, dp, output).advance_by(input, steps),
            begin(partly(ops, k), partly_jumps(ops, jumps, k), memory, dp, output).advance_by(
                input,
                steps,
            ),
        ),
    decreases k,
{
    if k == 0 {
        assert(ops.take(0) =~= Seq::<Opcode>::empty());
        assert(partly(ops, 0) =~= ops);
    } else {
        lemma_partly_keeps_up(ops, jumps, k - 1, memory, dp, input, output, steps);
        lemma_partly_next(ops, k);
        lemma_partly_jump_table(ops, jumps, k - 1);
        lemma_partly_jump_table(ops, jumps, k);
        if merges_at(ops, k) {
            let a = coalesced(ops.take(k - 1)).len() - 1;
            let long = begin(
                partly(ops, k - 1),
                partly_jumps(ops, jumps, k - 1),
                memory,
                dp,
                output,
            );
            let short = begin(partly(ops, k), partly_jumps(ops, jumps, k), memory, dp, output);
            lemma_merge_at_runs(a, long, short, input, steps);
        }
    }
}

/// A program with its first `k` opcodes coalesced that is finished in
/// `steps` steps is finished, and alike, in the number of steps returned
/// when nothing is coalesced.
proof fn lemma_partly_is_followed(
    ops: Seq<Opcode>,
    jumps: Seq<usize>,
    k: int,
    memory: Seq<u8>,
    dp: int,
    input: Seq<u8>,
    output: Seq<u8>,
    steps: nat,
) -> (more: nat)
    requires
        is_jump_table(ops, jumps),
        0 <= k <= ops.len(),
        0 <= dp < memory.len(),
        begin(partly(ops, k), partly_jumps(ops, jumps, k), memory, dp, output).advance_by(
            input,
            steps,
        ).finished(),
    ensures
        steps <= more,
        same_outcome(
            begin(ops, jumps, memory, dp, output).advance_by(input, more),
            begin(partly(ops, k), partly_jumps(ops, jumps, k), memory, dp, output).advance_by(
                input,
                steps,
            ),
        ),
    decreases k,
{
    if k == 0 {
        assert(ops.take(0) =~= Seq::<Opcode>::empty());
        assert(partly(ops, 0) =~= ops);
        steps
    } else {
        lemma_partly_next(ops, k);
        lemma_partly_jump_table(ops, jumps, k - 1);
        lemma_partly_jump_table(ops, jumps, k);
        if merges_at(ops, k) {
            let a = coalesced(ops.take(k - 1)).len() - 1;
            let long = begin(
                partly(ops, k - 1),
                partly_jumps(ops, jumps, k - 1),
                memory,
                dp,
                output,
            );
            let short = begin(partly(ops, k), partly_jumps(ops, jumps, k), memory, dp, output);
            let between = lemma_merge_at_runs(a, long, short, input, steps);
            lemma_partly_is_followed(ops, jumps, k - 1, memory, dp, input, output, between)
        } else {
            lemma_partly_is_followed(ops, jumps, k - 1, memory, dp, input, output, steps)
        }
    }
}

/// Coalescing keeps the brackets balanced, or unbalanced: the coalesced
/// opcodes resolve exactly when the opcodes themselves do.
pub proof fn lemma_coalesced_balanced(ops: Seq<Opcode>)
    ensures
        balanced(coalesced(ops)) == balanced(ops),
{
    lemma_partly_balanced(ops, ops.len() as int);
    assert(ops.take(ops.len() as int) =~= ops);
    assert(partly(ops, ops.len() as int) =~= coalesced(ops));
}

/// Coalescing keeps what a program does. Started on the same tape with the
/// same input, a program and its coalesced form end alike (`same_outcome`):
/// when the program is done within `steps` steps, so is the coalesced one,
/// and when the coalesced one is done within `steps` steps, the program is
/// done within some number of steps that is no smaller.
pub proof fn lemma_coalesced_runs_alike(
    ops: Seq<Opcode>,
    jumps: Seq<usize>,
    quick_jumps: Seq<usize>,
    memory: Seq<u8>,
    dp: int,
    input: Seq<u8>,
    output: Seq<u8>,
    steps: nat,
)
    requires
        is_jump_table(ops, jumps),
        is_jump_table(coalesced(ops), quick_jumps),
        0 <= dp < memory.len(),
    ensures
        ({
            let plain = Run::start(Machine { tokens: ops, labels: jumps, memory, ip: 0, dp }, output);
            let quick = Run::start(
                Machine { tokens: coalesced(ops), labels: quick_jumps, memory, ip: 0, dp },
                output,
            );
            &&& plain.advance_by(input, steps).finished() ==> same_outcome(
                plain.advance_by(input, steps),
                quick.advance_by(input, steps),
            )
            &&& quick.advance_by(input, steps).finished() ==> exists|more: nat|
                steps <= more && same_outcome(
                    #[trigger] plain.advance_by(input, more),
                    quick.advance_by(input, steps),
                )
        }),
{
    let n = ops.len() as int;
    lemma_partly_jump_table(ops, jumps, n);
    assert(ops.take(n) =~= ops);
    assert(partly(ops, n) =~= coalesced(ops));
    lemma_jump_table_unique(coalesced(ops), quick_jumps, partly_jumps(ops, jumps, n));
    let plain = begin(ops, jumps, memory, dp, output);
    let quick = begin(coalesced(ops), quick_jumps, memory, dp, output);
    if plain.advance_by(input, steps).finished() {
        lemma_partly_keeps_up(ops, jumps, n, memory, dp, input, output, steps);
    }
    if quick.advance_by(input, steps).finished() {
        let more = lemma_partly_is_followed(ops, jumps, n, memory, dp, input, output, steps);
        assert(steps <= more && same_outcome(
            plain.advance_by(input, more),
            quick.advance_by(input, steps),
        ));
    }
}

} // verus!
