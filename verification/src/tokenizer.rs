//! From source text to opcodes.
use vstd::prelude::*;
use crate::opcode::{is_instruction, opcode_of, Opcode};

verus! {

/// The opcodes of a source text: its instruction symbols in order, one unit
/// opcode each, with every other character left out.
pub open spec fn tokens_of(source: Seq<char>) -> Seq<Opcode> {
    source.filter(|c: char| is_instruction(c)).map_values(|c: char| opcode_of(c)->0)
}

/// Adding one character to a source text adds its opcode, if it has one, and
/// nothing otherwise.
pub proof fn lemma_tokens_of_push(source: Seq<char>, c: char)
    ensures
        tokens_of(source.push(c)) == match opcode_of(c) {
            Some(op) => tokens_of(source).push(op),
            None => tokens_of(source),
        },
{
    let keep = |c: char| is_instruction(c);
    let read = |c: char| opcode_of(c)->0;
    assert(source.push(c).drop_last() =~= source);
    reveal(Seq::filter);
    if is_instruction(c) {
        assert(source.push(c).filter(keep) == source.filter(keep).push(c));
        assert(source.filter(keep).push(c).map_values(read)
            =~= source.filter(keep).map_values(read).push(read(c)));
    } else {
        assert(source.push(c).filter(keep) == source.filter(keep));
    }
}

/// The empty text has no opcodes.
pub proof fn lemma_tokens_of_empty()
    ensures
        tokens_of(Seq::<char>::empty()) == Seq::<Opcode>::empty(),
{
    reveal(Seq::filter);
    assert(tokens_of(Seq::<char>::empty()) =~= Seq::<Opcode>::empty());
}

/// Tokenizing never yields more opcodes than the text has characters, and
/// yields exactly as many when, and only when, every character is an
/// instruction symbol.
pub proof fn lemma_token_count(source: Seq<char>)
    ensures
        tokens_of(source).len() <= source.len(),
        tokens_of(source).len() == source.len() <==> forall|i: int|
            0 <= i < source.len() ==> is_instruction(#[trigger] source[i]),
    decreases source.len(),
{
    if source.len() == 0 {
        lemma_tokens_of_empty();
        assert(source =~= Seq::<char>::empty());
    } else {
        let front = source.drop_last();
        lemma_token_count(front);
        lemma_tokens_of_push(front, source.last());
        assert(front.push(source.last()) =~= source);
        // The characters of `source` are those of `front` and the last one.
        assert(forall|i: int| 0 <= i < front.len() ==> front[i] == source[i]);
        assert(source[source.len() - 1] == source.last());
    }
}

/// Tokenizes a source text. Never fails: what is no instruction is skipped.
pub fn tokenize(source: &str) -> (ops: Vec<Opcode>)
    ensures
        ops@ == tokens_of(source@),
        ops.len() <= source@.len(),
        ops.len() == source@.len() <==> forall|i: int|
            0 <= i < source@.len() ==> is_instruction(#[trigger] source@[i]),
{
    let mut ops: Vec<Opcode> = Vec::new();
    proof {
        lemma_tokens_of_empty();
        assert(source@.take(0) =~= Seq::<char>::empty());
    }
    for c in it: source.chars()
        invariant
            it.seq() == source@,
            ops@ == tokens_of(source@.take(it.index())),
    {
        proof {
            lemma_tokens_of_push(source@.take(it.index()), c);
            assert(source@.take(it.index()).push(c) =~= source@.take(it.index() + 1));
        }
        match Opcode::from_char(c) {
            Some(op) => ops.push(op),
            None => {},
        }
    }
    proof {
        assert(source@.take(source@.len() as int) =~= source@);
        lemma_token_count(source@);
    }
    ops
}

/// Whether two amounts point the same way.
pub open spec fn same_direction(a: i64, b: i64) -> bool {
    (a > 0 && b > 0) || (a < 0 && b < 0)
}

/// The one opcode that stands for `first` followed by `second`, where there
/// is one: two pointer moves, or two cell changes, that point the same way
/// and whose sum fits the amount's type. Loop brackets and I/O never merge.
pub open spec fn merged(first: Opcode, second: Opcode) -> Option<Opcode> {
    match (first, second) {
        (Opcode::MovePointer(a), Opcode::MovePointer(b)) => {
            if same_direction(a, b) && i64::MIN <= a + b <= i64::MAX {
                Some(Opcode::MovePointer((a + b) as i64))
            } else {
                None
            }
        },
        (Opcode::MutateCell(a), Opcode::MutateCell(b)) => {
            if same_direction(a, b) && i64::MIN <= a + b <= i64::MAX {
                Some(Opcode::MutateCell((a + b) as i64))
            } else {
                None
            }
        },
        _ => None,
    }
}

/// The coalesced form of an opcode sequence: reading from the left, each
/// opcode is merged into the one before it where `merged` allows, and
/// appended otherwise.
pub open spec fn coalesced(ops: Seq<Opcode>) -> Seq<Opcode>
    decreases ops.len(),
{
    if ops.len() == 0 {
        Seq::empty()
    } else {
        let front = coalesced(ops.drop_last());
        if front.len() > 0 && merged(front.last(), ops.last()) is Some {
            front.update(front.len() - 1, merged(front.last(), ops.last())->0)
        } else {
            front.push(ops.last())
        }
    }
}

/// Merges two opcodes into one where that keeps their joint effect.
pub fn merge(first: Opcode, second: Opcode) -> (joint: Option<Opcode>)
    ensures
        joint == merged(first, second),
{
    match (first, second) {
        (Opcode::MovePointer(a), Opcode::MovePointer(b)) => {
            if (a > 0 && b > 0) || (a < 0 && b < 0) {
                match a.checked_add(b) {
                    Some(sum) => Some(Opcode::MovePointer(sum)),
                    None => None,
                }
            } else {
                None
            }
        },
        (Opcode::MutateCell(a), Opcode::MutateCell(b)) => {
            if (a > 0 && b > 0) || (a < 0 && b < 0) {
                match a.checked_add(b) {
                    Some(sum) => Some(Opcode::MutateCell(sum)),
                    None => None,
                }
            } else {
                None
            }
        },
        _ => None,
    }
}

/// The optional optimization pass: merges each run of pointer moves, or of
/// cell changes, in one direction into a single opcode with the summed
/// amount. Nothing is merged across a loop bracket or an I/O opcode, and the
/// result is never longer than `ops`.
pub fn coalesce(ops: &Vec<Opcode>) -> (out: Vec<Opcode>)
    ensures
        out@ == coalesced(ops@),
        out.len() <= ops.len(),
{
    let mut out: Vec<Opcode> = Vec::new();
    let mut i: usize = 0;
    proof {
        assert(ops@.take(0) =~= Seq::<Opcode>::empty());
    }
    while i < ops.len()
        invariant
            i <= ops.len(),
            out@ == coalesced(ops@.take(i as int)),
            out.len() <= i,
        decreases ops.len() - i,
    {
        let op = ops[i];
        let n = out.len();
        proof {
            assert(ops@.take(i + 1).drop_last() =~= ops@.take(i as int));
            assert(ops@.take(i + 1).last() == op);
        }
        let joint = if n > 0 {
            merge(out[n - 1], op)
        } else {
            None
        };
        match joint {
            Some(m) => {
                out.set(n - 1, m);
            },
            None => {
                out.push(op);
            },
        }
        i = i + 1;
    }
    proof {
        assert(ops@.take(ops@.len() as int) =~= ops@);
    }
    out
}

} // verus!
