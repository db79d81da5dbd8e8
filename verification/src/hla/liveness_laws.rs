//! What holds of every liveness analysis: each register that a program
//! mentions and that is not an output is dropped once, after its last use.
use vstd::prelude::*;
use crate::hla::liveness::{drops, liveness, registers_of};
use crate::hla::{Command, FreshRegister, InstructionText, TypedRegister};

verus! {

/// Whether an instruction mentions a register.
pub open spec fn mentions(i: InstructionText<u64>, r: TypedRegister<FreshRegister>) -> bool {
    registers_of(i).contains(r)
}

/// Whether some instruction of a program mentions a register.
pub open spec fn mentioned(
    program: Seq<InstructionText<u64>>,
    r: TypedRegister<FreshRegister>,
) -> bool {
    exists|k: int| 0 <= k < program.len() && mentions(#[trigger] program[k], r)
}

/// How often a register is dropped in a sequence of commands.
pub open spec fn count_drops(cs: Seq<Command>, r: TypedRegister<FreshRegister>) -> nat
    decreases cs.len(),
{
    if cs.len() == 0 {
        0
    } else {
        count_drops(cs.drop_last(), r) + (if cs.last() == Command::Drop(r) {
            1nat
        } else {
            0nat
        })
    }
}

/// The instructions of a sequence of commands, in their order.
pub open spec fn instructions_of(cs: Seq<Command>) -> Seq<InstructionText<u64>>
    decreases cs.len(),
{
    if cs.len() == 0 {
        Seq::empty()
    } else {
        match cs.last() {
            Command::Instr(i) => instructions_of(cs.drop_last()).push(i),
            Command::Drop(_) => instructions_of(cs.drop_last()),
        }
    }
}

/// One command holds one drop or none.
pub proof fn lemma_single_count(c: Command, r: TypedRegister<FreshRegister>)
    ensures
        count_drops(seq![c], r) == (if c == Command::Drop(r) {
            1nat
        } else {
            0nat
        }),
{
    let one = seq![c];
    assert(one.drop_last() =~= Seq::<Command>::empty());
    assert(one.last() == c);
    assert(count_drops(one.drop_last(), r) == 0);
}

/// One command holds one instruction or none.
pub proof fn lemma_single_instruction(c: Command)
    ensures
        instructions_of(seq![c]) == (match c {
            Command::Instr(i) => seq![i],
            Command::Drop(_) => Seq::empty(),
        }),
{
    let one = seq![c];
    assert(one.drop_last() =~= Seq::<Command>::empty());
    assert(one.last() == c);
    assert(instructions_of(one.drop_last()) =~= Seq::<InstructionText<u64>>::empty());
    match c {
        Command::Instr(i) => {
            assert(Seq::<InstructionText<u64>>::empty().push(i) =~= seq![i]);
        },
        Command::Drop(_) => {},
    }
}

/// Drops are counted piece by piece.
pub proof fn lemma_count_concat(a: Seq<Command>, b: Seq<Command>, r: TypedRegister<FreshRegister>)
    ensures
        count_drops(a + b, r) == count_drops(a, r) + count_drops(b, r),
    decreases b.len(),
{
    if b.len() == 0 {
        assert(a + b =~= a);
    } else {
        assert((a + b).drop_last() =~= a + b.drop_last());
        assert((a + b).last() == b.last());
        lemma_count_concat(a, b.drop_last(), r);
    }
}

/// Instructions are collected piece by piece.
pub proof fn lemma_instructions_concat(a: Seq<Command>, b: Seq<Command>)
    ensures
        instructions_of(a + b) == instructions_of(a) + instructions_of(b),
    decreases b.len(),
{
    if b.len() == 0 {
        assert(a + b =~= a);
        assert(instructions_of(a) + instructions_of(b) =~= instructions_of(a));
    } else {
        assert((a + b).drop_last() =~= a + b.drop_last());
        assert((a + b).last() == b.last());
        lemma_instructions_concat(a, b.drop_last());
        match b.last() {
            Command::Instr(i) => {
                assert((instructions_of(a) + instructions_of(b.drop_last())).push(i)
                    =~= instructions_of(a) + instructions_of(b.drop_last()).push(i));
            },
            Command::Drop(_) => {},
        }
    }
}

/// The drops that follow an instruction: nothing but drops, of registers of
/// the instruction that are not seen later, each of them once.
pub proof fn lemma_drops(
    seen: Set<TypedRegister<FreshRegister>>,
    regs: Seq<TypedRegister<FreshRegister>>,
)
    ensures
        forall|i: int|
            0 <= i < drops(seen, regs).len() ==> (#[trigger] drops(seen, regs)[i]) is Drop
                && regs.contains(drops(seen, regs)[i]->Drop_0) && !seen.contains(
                drops(seen, regs)[i]->Drop_0,
            ),
        forall|r: TypedRegister<FreshRegister>| #[trigger]
            count_drops(drops(seen, regs), r) == (if regs.contains(r) && !seen.contains(r) {
                1nat
            } else {
                0nat
            }),
        instructions_of(drops(seen, regs)) == Seq::<InstructionText<u64>>::empty(),
    decreases regs.len(),
{
    if regs.len() == 0 {
        assert forall|r: TypedRegister<FreshRegister>| !regs.contains(r) by {}
    } else {
        let before = regs.drop_last();
        let last = regs.last();
        let rest = drops(seen, before);
        lemma_drops(seen, before);
        assert forall|r: TypedRegister<FreshRegister>|
            regs.contains(r) == (before.contains(r) || r == last) by {
            if before.contains(r) {
                let k = choose|k: int| 0 <= k < before.len() && before[k] == r;
                assert(regs[k] == r);
            }
            if regs.contains(r) {
                let k = choose|k: int| 0 <= k < regs.len() && regs[k] == r;
                if k < before.len() {
                    assert(before[k] == r);
                }
            }
            assert(regs[regs.len() - 1] == last);
        }
        if seen.contains(last) || before.contains(last) {
        } else {
            let head = seq![Command::Drop(last)];
            assert(drops(seen, regs) == head + rest);
            assert forall|r: TypedRegister<FreshRegister>| #[trigger]
                count_drops(drops(seen, regs), r) == (if regs.contains(r) && !seen.contains(r) {
                    1nat
                } else {
                    0nat
                }) by {
                lemma_count_concat(head, rest, r);
                lemma_single_count(Command::Drop(last), r);
            }
            lemma_instructions_concat(head, rest);
            lemma_single_instruction(Command::Drop(last));
            assert(instructions_of(head) + instructions_of(rest) =~= instructions_of(rest));
        }
    }
}

/// A program without its last instruction mentions what the program
/// mentions, but for what only the last instruction mentions.
pub proof fn lemma_mentioned_step(
    program: Seq<InstructionText<u64>>,
    r: TypedRegister<FreshRegister>,
)
    requires
        program.len() > 0,
    ensures
        mentioned(program, r) == (mentioned(program.drop_last(), r) || mentions(
            program.last(),
            r,
        )),
{
    let before = program.drop_last();
    if mentioned(before, r) {
        let k = choose|k: int| 0 <= k < before.len() && mentions(#[trigger] before[k], r);
        assert(program[k] == before[k]);
    }
    if mentions(program.last(), r) {
        assert(program[program.len() - 1] == program.last());
    }
    if mentioned(program, r) {
        let k = choose|k: int| 0 <= k < program.len() && mentions(#[trigger] program[k], r);
        if k < before.len() {
            assert(before[k] == program[k]);
        }
    }
}

/// Every register that the program mentions and that is not an output is
/// dropped exactly once; outputs and registers that the program does not
/// mention are never dropped.
pub proof fn lemma_dropped_once(
    seen: Set<TypedRegister<FreshRegister>>,
    program: Seq<InstructionText<u64>>,
    r: TypedRegister<FreshRegister>,
)
    ensures
        count_drops(liveness(seen, program), r) == (if mentioned(program, r) && !seen.contains(
            r,
        ) {
            1nat
        } else {
            0nat
        }),
    decreases program.len(),
{
    if program.len() == 0 {
    } else {
        let last = program.last();
        let regs = registers_of(last);
        let later = seen.union(regs.to_set());
        let front = liveness(later, program.drop_last());
        let middle = seq![Command::Instr(last)];
        let tail = drops(seen, regs);
        lemma_dropped_once(later, program.drop_last(), r);
        lemma_drops(seen, regs);
        lemma_count_concat(front + middle, tail, r);
        lemma_count_concat(front, middle, r);
        lemma_single_count(Command::Instr(last), r);
        lemma_mentioned_step(program, r);
        assert(later.contains(r) == (seen.contains(r) || regs.contains(r)));
    }
}

/// The analysis keeps the program: the instructions of its result are the
/// instructions of the program, in their order.
pub proof fn lemma_program_kept(
    seen: Set<TypedRegister<FreshRegister>>,
    program: Seq<InstructionText<u64>>,
)
    ensures
        instructions_of(liveness(seen, program)) == program,
    decreases program.len(),
{
    if program.len() == 0 {
        assert(program =~= Seq::empty());
    } else {
        let last = program.last();
        let regs = registers_of(last);
        let later = seen.union(regs.to_set());
        let front = liveness(later, program.drop_last());
        let middle = seq![Command::Instr(last)];
        let tail = drops(seen, regs);
        lemma_program_kept(later, program.drop_last());
        lemma_drops(seen, regs);
        lemma_instructions_concat(front + middle, tail);
        lemma_instructions_concat(front, middle);
        lemma_single_instruction(Command::Instr(last));
        assert(program.drop_last() + seq![last] + Seq::empty() =~= program);
    }
}

/// Only registers that the program mentions and that are not outputs are
/// dropped.
pub proof fn lemma_drop_is_due(
    seen: Set<TypedRegister<FreshRegister>>,
    program: Seq<InstructionText<u64>>,
    i: int,
)
    requires
        0 <= i < liveness(seen, program).len(),
        liveness(seen, program)[i] is Drop,
    ensures
        mentioned(program, liveness(seen, program)[i]->Drop_0),
        !seen.contains(liveness(seen, program)[i]->Drop_0),
    decreases program.len(),
{
    let r = liveness(seen, program)[i]->Drop_0;
    if program.len() == 0 {
    } else {
        let last = program.last();
        let regs = registers_of(last);
        let later = seen.union(regs.to_set());
        let front = liveness(later, program.drop_last());
        let tail = drops(seen, regs);
        lemma_mentioned_step(program, r);
        if i < front.len() {
            lemma_drop_is_due(later, program.drop_last(), i);
        } else {
            lemma_drops(seen, regs);
            assert(liveness(seen, program)[i] == tail[i - front.len() - 1]);
        }
    }
}

/// A drop comes after the last use: no command after the drop of a register
/// is an instruction that mentions the register, or another drop of it.
pub proof fn lemma_drop_after_last_use(
    seen: Set<TypedRegister<FreshRegister>>,
    program: Seq<InstructionText<u64>>,
    i: int,
    j: int,
)
    requires
        0 <= i < j < liveness(seen, program).len(),
        liveness(seen, program)[i] is Drop,
    ensures
        match liveness(seen, program)[j] {
            Command::Instr(x) => !mentions(x, liveness(seen, program)[i]->Drop_0),
            Command::Drop(q) => q != liveness(seen, program)[i]->Drop_0,
        },
    decreases program.len(),
{
    let out = liveness(seen, program);
    let r = out[i]->Drop_0;
    if program.len() == 0 {
    } else {
        let last = program.last();
        let regs = registers_of(last);
        let later = seen.union(regs.to_set());
        let front = liveness(later, program.drop_last());
        let tail = drops(seen, regs);
        lemma_drops(seen, regs);
        if i < front.len() {
            lemma_drop_is_due(later, program.drop_last(), i);
            assert(!regs.contains(r));
            if j < front.len() {
                lemma_drop_after_last_use(later, program.drop_last(), i, j);
            } else if j == front.len() {
            } else {
                assert(out[j] == tail[j - front.len() - 1]);
            }
        } else {
            // both in the drops that follow the last instruction, where every
            // register is dropped once
            let a = i - front.len() - 1;
            let b = j - front.len() - 1;
            assert(out[i] == tail[a]);
            assert(out[j] == tail[b]);
            if tail[b] == Command::Drop(r) {
                lemma_twice_counts_two(tail, a, b, r);
            }
        }
    }
}

/// A register that is dropped at two places is counted at least twice.
proof fn lemma_twice_counts_two(cs: Seq<Command>, a: int, b: int, r: TypedRegister<FreshRegister>)
    requires
        0 <= a < b < cs.len(),
        cs[a] == Command::Drop(r),
        cs[b] == Command::Drop(r),
    ensures
        count_drops(cs, r) >= 2,
    decreases cs.len(),
{
    if b == cs.len() - 1 {
        lemma_once_counts_one(cs.drop_last(), a, r);
    } else {
        lemma_twice_counts_two(cs.drop_last(), a, b, r);
    }
}

/// A register that is dropped at some place is counted at least once.
proof fn lemma_once_counts_one(cs: Seq<Command>, a: int, r: TypedRegister<FreshRegister>)
    requires
        0 <= a < cs.len(),
        cs[a] == Command::Drop(r),
    ensures
        count_drops(cs, r) >= 1,
    decreases cs.len(),
{
    if a < cs.len() - 1 {
        lemma_once_counts_one(cs.drop_last(), a, r);
    }
}

/// A drop follows a use: before the drop of a register stands an instruction
/// that mentions it.
pub proof fn lemma_drop_follows_use(
    seen: Set<TypedRegister<FreshRegister>>,
    program: Seq<InstructionText<u64>>,
    i: int,
) -> (k: int)
    requires
        0 <= i < liveness(seen, program).len(),
        liveness(seen, program)[i] is Drop,
    ensures
        0 <= k < i,
        liveness(seen, program)[k] is Instr,
        mentions(liveness(seen, program)[k]->Instr_0, liveness(seen, program)[i]->Drop_0),
    decreases program.len(),
{
    let out = liveness(seen, program);
    if program.len() == 0 {
        0
    } else {
        let last = program.last();
        let regs = registers_of(last);
        let later = seen.union(regs.to_set());
        let front = liveness(later, program.drop_last());
        let tail = drops(seen, regs);
        if i < front.len() {
            lemma_drop_follows_use(later, program.drop_last(), i)
        } else {
            lemma_drops(seen, regs);
            assert(out[i] == tail[i - front.len() - 1]);
            assert(out[front.len() as int] == Command::Instr(last));
            front.len() as int
        }
    }
}

} // verus!
