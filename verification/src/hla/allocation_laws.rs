//! What holds of every allocation: a physical register is free or held by one
//! fresh register, never both and never by two, and a program whose
//! registers are defined before they are used can always be allocated.
use vstd::prelude::*;
use vstd::set_lib::{lemma_int_range, lemma_len_subset, set_int_range};
use crate::hla::allocation::{
    all_registers, allocated, can_pin, can_place, can_read, can_release, can_run, can_step,
    has_free, least, pinned, place, pool_of, release, run, step, Allocation,
};
use crate::hla::liveness::{drops, liveness, registers_of};
use crate::hla::liveness_laws::{lemma_mentioned_step, mentioned, mentions};
use crate::hla::{
    register_of, sizeless, Command, FreshRegister, HardwareRegister, InstructionText, TypedRegister,
    TypedSizedRegister,
};

verus! {

/// The physical register that fresh register `i` holds.
pub open spec fn held(s: Allocation, i: int) -> TypedSizedRegister<HardwareRegister> {
    s.mapping[i]->Assigned_0
}

/// Exclusive ownership: no physical register that a fresh register holds is
/// free, and no two fresh registers hold the same physical register.
pub open spec fn owned(s: Allocation) -> bool {
    &&& forall|i: int|
        0 <= i < s.mapping.len() && (#[trigger] s.mapping[i]) is Assigned ==> !pool_of(
            held(s, i),
            s.scalars,
            s.vectors,
        ).contains(register_of(held(s, i)))
    &&& forall|i: int, j: int|
        0 <= i < s.mapping.len() && 0 <= j < s.mapping.len() && i != j && (
        #[trigger] s.mapping[i]) is Assigned && (#[trigger] s.mapping[j]) is Assigned && (held(
            s,
            i,
        ) is Vector) == (held(s, j) is Vector) ==> register_of(held(s, i)) != register_of(
            held(s, j),
        )
}

/// The fresh registers that hold a physical register of one class.
pub open spec fn holders(s: Allocation, vector: bool) -> Set<int> {
    Set::new(
        |i: int|
            0 <= i < s.mapping.len() && s.mapping[i] is Assigned && (held(s, i) is Vector)
                == vector,
    )
}

/// Room for every fresh register: in each class the free registers and the
/// registers held are 31 or more together, and the mapping knows 31 fresh
/// registers at most.
pub open spec fn roomy(s: Allocation) -> bool {
    &&& s.mapping.len() <= 31
    &&& s.scalars.finite()
    &&& s.vectors.finite()
    &&& s.scalars.len() + holders(s, false).len() >= 31
    &&& s.vectors.len() + holders(s, true).len() >= 31
}

/// The holders of a class are finitely many, fewer than the mapping is long
/// where some fresh register is not among them.
pub proof fn lemma_holders(s: Allocation, vector: bool)
    ensures
        holders(s, vector).finite(),
        holders(s, vector).len() <= s.mapping.len(),
        forall|d: int|
            0 <= d < s.mapping.len() && !holders(s, vector).contains(d) ==> holders(
                s,
                vector,
            ).len() < s.mapping.len(),
{
    let n = s.mapping.len() as int;
    let all = set_int_range(0, n);
    lemma_int_range(0, n);
    assert(holders(s, vector).subset_of(all));
    lemma_len_subset(holders(s, vector), all);
    assert forall|d: int| 0 <= d < n && !holders(s, vector).contains(d) implies holders(
        s,
        vector,
    ).len() < n by {
        let fewer = all.remove(d);
        assert(holders(s, vector).subset_of(fewer));
        lemma_len_subset(holders(s, vector), fewer);
    }
}

/// A set of registers that is not empty has a least member.
pub proof fn lemma_least_exists(pool: Set<HardwareRegister>, k: HardwareRegister)
    requires
        pool.contains(k),
    ensures
        pool.contains(least(pool)),
        forall|j: HardwareRegister| pool.contains(j) ==> least(pool) <= j,
    decreases k,
{
    if exists|j: HardwareRegister| pool.contains(j) && j < k {
        let j = choose|j: HardwareRegister| pool.contains(j) && j < k;
        lemma_least_exists(pool, j);
    } else {
        assert(pool.contains(k) && forall|j: HardwareRegister| pool.contains(j) ==> k <= j);
    }
}

/// There are 31 registers in a full pool.
pub proof fn lemma_all_registers()
    ensures
        all_registers().finite(),
        all_registers().len() == 31,
{
    lemma_registers_below(31);
    assert(all_registers() =~= Set::new(|k: HardwareRegister| k < 31));
}

/// There are `n` registers below `n`.
proof fn lemma_registers_below(n: HardwareRegister)
    ensures
        Set::new(|k: HardwareRegister| k < n).finite(),
        Set::new(|k: HardwareRegister| k < n).len() == n,
    decreases n,
{
    if n == 0 {
        assert(Set::new(|k: HardwareRegister| k < n) =~= Set::<HardwareRegister>::empty());
    } else {
        let m = (n - 1) as HardwareRegister;
        lemma_registers_below(m);
        assert(Set::new(|k: HardwareRegister| k < n) =~= Set::new(
            |k: HardwareRegister| k < m,
        ).insert(m));
    }
}

/// A state in which nothing is held and both pools are full has exclusive
/// ownership and room.
pub proof fn lemma_start(s: Allocation)
    requires
        s.mapping.len() <= 31,
        forall|i: int| 0 <= i < s.mapping.len() ==> s.mapping[i] is Unassigned,
        s.scalars == all_registers(),
        s.vectors == all_registers(),
    ensures
        owned(s),
        roomy(s),
{
    lemma_all_registers();
    lemma_holders(s, false);
    lemma_holders(s, true);
}

/// Where there is room, a fresh register that holds nothing finds a free
/// register in either class.
pub proof fn lemma_room(s: Allocation, d: int, vector: bool)
    requires
        roomy(s),
        0 <= d < s.mapping.len(),
        !(s.mapping[d] is Assigned),
    ensures
        has_free(
            if vector {
                s.vectors
            } else {
                s.scalars
            },
        ),
{
    lemma_holders(s, vector);
    let pool = if vector {
        s.vectors
    } else {
        s.scalars
    };
    assert(!holders(s, vector).contains(d));
    assert(pool.len() >= 1);
    assert(pool.contains(pool.choose()));
}

/// Giving a destination its physical register keeps exclusive ownership and
/// room. Where the destination held nothing, it now holds what was the least
/// free register of its class.
pub proof fn lemma_place_keeps(s: Allocation, dest: TypedSizedRegister<FreshRegister>)
    requires
        owned(s),
        roomy(s),
        can_place(s, dest),
    ensures
        owned(place(s, dest)),
        roomy(place(s, dest)),
        place(s, dest).mapping.len() == s.mapping.len(),
        place(s, dest).mapping[register_of(dest) as int] is Assigned,
        forall|i: int|
            0 <= i < s.mapping.len() && i != register_of(dest) ==> place(s, dest).mapping[i]
                == s.mapping[i],
        s.mapping[register_of(dest) as int] is Assigned ==> place(s, dest) == s,
        !(s.mapping[register_of(dest) as int] is Assigned) ==> (held(
            place(s, dest),
            register_of(dest) as int,
        ) is Vector) == (dest is Vector),
{
    let d = register_of(dest) as int;
    let t = place(s, dest);
    if !(s.mapping[d] is Assigned) {
        let vector = dest is Vector;
        let pool = pool_of(dest, s.scalars, s.vectors);
        let k = choose|k: HardwareRegister| pool.contains(k);
        lemma_least_exists(pool, k);
        let hw = allocated(dest, s.scalars, s.vectors);
        assert(register_of(hw) == least(pool));
        assert((hw is Vector) == vector);
        assert forall|i: int| 0 <= i < t.mapping.len() && (#[trigger] t.mapping[i]) is Assigned
            implies !pool_of(held(t, i), t.scalars, t.vectors).contains(
            register_of(held(t, i)),
        ) by {
            if i != d {
                assert(s.mapping[i] is Assigned);
            }
        }
        assert forall|i: int, j: int|
            0 <= i < t.mapping.len() && 0 <= j < t.mapping.len() && i != j && (
            #[trigger] t.mapping[i]) is Assigned && (#[trigger] t.mapping[j]) is Assigned && (held(
                t,
                i,
            ) is Vector) == (held(t, j) is Vector) implies register_of(held(t, i)) != register_of(
            held(t, j),
        ) by {
            if i != d && j != d {
                assert(s.mapping[i] is Assigned && s.mapping[j] is Assigned);
            } else if i == d {
                assert(s.mapping[j] is Assigned);
            } else {
                assert(s.mapping[i] is Assigned);
            }
        }
        lemma_holders(s, vector);
        lemma_holders(s, !vector);
        assert(holders(t, vector) =~= holders(s, vector).insert(d));
        assert(holders(t, !vector) =~= holders(s, !vector));
    }
}

/// Pinning a fresh register that holds nothing to a free physical register
/// keeps exclusive ownership and room.
pub proof fn lemma_pin_keeps(
    s: Allocation,
    fresh: FreshRegister,
    hw: TypedSizedRegister<HardwareRegister>,
)
    requires
        owned(s),
        roomy(s),
        can_pin(s, fresh, hw),
        !(s.mapping[fresh as int] is Assigned),
    ensures
        owned(pinned(s, fresh, hw)),
        roomy(pinned(s, fresh, hw)),
{
    let t = pinned(s, fresh, hw);
    let d = fresh as int;
    let vector = hw is Vector;
    assert forall|i: int| 0 <= i < t.mapping.len() && (#[trigger] t.mapping[i]) is Assigned
        implies !pool_of(held(t, i), t.scalars, t.vectors).contains(register_of(held(t, i))) by {
        if i != d {
            assert(s.mapping[i] is Assigned);
        }
    }
    assert forall|i: int, j: int|
        0 <= i < t.mapping.len() && 0 <= j < t.mapping.len() && i != j && (
        #[trigger] t.mapping[i]) is Assigned && (#[trigger] t.mapping[j]) is Assigned && (held(
            t,
            i,
        ) is Vector) == (held(t, j) is Vector) implies register_of(held(t, i)) != register_of(
        held(t, j),
    ) by {
        if i != d && j != d {
            assert(s.mapping[i] is Assigned && s.mapping[j] is Assigned);
        } else if i == d {
            assert(s.mapping[j] is Assigned);
        } else {
            assert(s.mapping[i] is Assigned);
        }
    }
    lemma_holders(s, vector);
    lemma_holders(s, !vector);
    assert(holders(t, vector) =~= holders(s, vector).insert(d));
    assert(holders(t, !vector) =~= holders(s, !vector));
}

/// Dropping a fresh register keeps exclusive ownership and room.
pub proof fn lemma_release_keeps(s: Allocation, fresh: TypedRegister<FreshRegister>)
    requires
        owned(s),
        roomy(s),
        can_release(s, fresh),
    ensures
        owned(release(s, fresh)),
        roomy(release(s, fresh)),
        release(s, fresh).mapping.len() == s.mapping.len(),
        release(s, fresh).mapping[register_of(fresh) as int] is Dropped,
        forall|i: int|
            0 <= i < s.mapping.len() && i != register_of(fresh) ==> release(s, fresh).mapping[i]
                == s.mapping[i],
{
    let d = register_of(fresh) as int;
    let t = release(s, fresh);
    let hw = held(s, d);
    let vector = hw is Vector;
    assert forall|i: int| 0 <= i < t.mapping.len() && (#[trigger] t.mapping[i]) is Assigned
        implies !pool_of(held(t, i), t.scalars, t.vectors).contains(register_of(held(t, i))) by {
        assert(i != d);
        assert(s.mapping[i] is Assigned && s.mapping[d] is Assigned);
    }
    assert forall|i: int, j: int|
        0 <= i < t.mapping.len() && 0 <= j < t.mapping.len() && i != j && (
        #[trigger] t.mapping[i]) is Assigned && (#[trigger] t.mapping[j]) is Assigned && (held(
            t,
            i,
        ) is Vector) == (held(t, j) is Vector) implies register_of(held(t, i)) != register_of(
        held(t, j),
    ) by {
        assert(s.mapping[i] is Assigned && s.mapping[j] is Assigned);
    }
    lemma_holders(s, vector);
    lemma_holders(s, !vector);
    assert(holders(t, vector) =~= holders(s, vector).remove(d));
    assert(holders(t, !vector) =~= holders(s, !vector));
}

/// Running commands one after another is running them piece by piece.
pub proof fn lemma_run_concat(s: Allocation, a: Seq<Command>, b: Seq<Command>)
    ensures
        can_run(s, a + b) == (can_run(s, a) && can_run(run(s, a), b)),
        can_run(s, a) ==> run(s, a + b) == run(run(s, a), b),
    decreases a.len(),
{
    if a.len() == 0 {
        assert(a + b =~= b);
    } else {
        assert((a + b)[0] == a[0]);
        assert((a + b).skip(1) =~= a.skip(1) + b);
        lemma_run_concat(step(s, a[0]), a.skip(1), b);
    }
}

/// Whether some register of a list has the number `i`.
pub open spec fn numbered(regs: Seq<TypedRegister<FreshRegister>>, i: int) -> bool {
    exists|j: int| 0 <= j < regs.len() && register_of(#[trigger] regs[j]) == i
}

/// Whether the registers of a list with the same number are the same
/// register: no number stands for a scalar and a vector register at once.
pub open spec fn one_class(regs: Seq<TypedRegister<FreshRegister>>) -> bool {
    forall|a: int, b: int|
        0 <= a < regs.len() && 0 <= b < regs.len() && register_of(#[trigger] regs[a])
            == register_of(#[trigger] regs[b]) ==> regs[a] == regs[b]
}

/// The drops that follow an instruction can be carried out where all of its
/// registers hold a physical register: the registers that are not seen
/// later are dropped, and nothing else changes.
pub proof fn lemma_run_drops(
    s: Allocation,
    seen: Set<TypedRegister<FreshRegister>>,
    regs: Seq<TypedRegister<FreshRegister>>,
)
    requires
        owned(s),
        roomy(s),
        one_class(regs),
        forall|j: int|
            0 <= j < regs.len() ==> register_of(#[trigger] regs[j]) < s.mapping.len()
                && s.mapping[register_of(regs[j]) as int] is Assigned,
    ensures
        can_run(s, drops(seen, regs)),
        owned(run(s, drops(seen, regs))),
        roomy(run(s, drops(seen, regs))),
        run(s, drops(seen, regs)).mapping.len() == s.mapping.len(),
        forall|i: int|
            0 <= i < s.mapping.len() && !numbered(regs, i) ==> run(s, drops(seen, regs)).mapping[i]
                == s.mapping[i],
        forall|j: int|
            0 <= j < regs.len() ==> (if seen.contains(#[trigger] regs[j]) {
                run(s, drops(seen, regs)).mapping[register_of(regs[j]) as int]
                    == s.mapping[register_of(regs[j]) as int]
            } else {
                run(s, drops(seen, regs)).mapping[register_of(regs[j]) as int] is Dropped
            }),
    decreases regs.len(),
{
    if regs.len() == 0 {
    } else {
        let before = regs.drop_last();
        let last = regs.last();
        let n = before.len() as int;
        assert(regs[n] == last);
        assert forall|j: int| 0 <= j < n implies before[j] == regs[j] by {}
        assert(one_class(before)) by {
            assert forall|a: int, b: int|
                0 <= a < before.len() && 0 <= b < before.len() && register_of(
                    #[trigger] before[a],
                ) == register_of(#[trigger] before[b]) implies before[a] == before[b] by {
                assert(regs[a] == before[a] && regs[b] == before[b]);
            }
        }
        // a register of the list that is not the last has another number, or
        // is the last register once more
        assert forall|j: int| 0 <= j < n && register_of(#[trigger] before[j]) == register_of(
            last,
        ) implies before[j] == last by {
            assert(regs[j] == before[j]);
        }
        let d = register_of(last) as int;
        if seen.contains(last) || before.contains(last) {
            assert forall|j: int| 0 <= j < before.len() implies register_of(#[trigger] before[j])
                < s.mapping.len() && s.mapping[register_of(before[j]) as int] is Assigned by {
                assert(regs[j] == before[j]);
            }
            lemma_run_drops(s, seen, before);
            let t = run(s, drops(seen, before));
            assert forall|i: int| 0 <= i < s.mapping.len() && !numbered(regs, i) implies t.mapping[i]
                == s.mapping[i] by {
                if numbered(before, i) {
                    let j = choose|j: int|
                        0 <= j < before.len() && register_of(#[trigger] before[j]) == i;
                    assert(regs[j] == before[j]);
                }
            }
            assert forall|j: int| 0 <= j < regs.len() implies (if seen.contains(#[trigger] regs[j]) {
                t.mapping[register_of(regs[j]) as int] == s.mapping[register_of(regs[j]) as int]
            } else {
                t.mapping[register_of(regs[j]) as int] is Dropped
            }) by {
                if j < n {
                    assert(before[j] == regs[j]);
                } else if before.contains(last) {
                    let q = choose|q: int| 0 <= q < before.len() && before[q] == last;
                    assert(before[q] == regs[q]);
                } else {
                    if numbered(before, d) {
                        let q = choose|q: int|
                            0 <= q < before.len() && register_of(#[trigger] before[q]) == d;
                        assert(before[q] == last);
                    }
                }
            }
        } else {
            let head = seq![Command::Drop(last)];
            let rest = drops(seen, before);
            assert(drops(seen, regs) == head + rest);
            assert(can_release(s, last));
            lemma_release_keeps(s, last);
            let u = release(s, last);
            assert(head.skip(1) =~= Seq::<Command>::empty());
            assert(can_run(s, head) && run(s, head) == u) by {
                assert(head[0] == Command::Drop(last));
                assert(can_run(u, head.skip(1)));
                assert(run(u, head.skip(1)) == u);
            }
            lemma_run_concat(s, head, rest);
            assert forall|j: int| 0 <= j < before.len() implies register_of(#[trigger] before[j])
                < u.mapping.len() && u.mapping[register_of(before[j]) as int] is Assigned by {
                assert(regs[j] == before[j]);
                if register_of(before[j]) == d {
                    assert(before[j] == last);
                }
            }
            lemma_run_drops(u, seen, before);
            let t = run(u, rest);
            assert forall|i: int| 0 <= i < s.mapping.len() && !numbered(regs, i) implies t.mapping[i]
                == s.mapping[i] by {
                if numbered(before, i) {
                    let j = choose|j: int|
                        0 <= j < before.len() && register_of(#[trigger] before[j]) == i;
                    assert(regs[j] == before[j]);
                }
                assert(i != d);
            }
            assert forall|j: int| 0 <= j < regs.len() implies (if seen.contains(#[trigger] regs[j]) {
                t.mapping[register_of(regs[j]) as int] == s.mapping[register_of(regs[j]) as int]
            } else {
                t.mapping[register_of(regs[j]) as int] is Dropped
            }) by {
                if j < n {
                    assert(before[j] == regs[j]);
                    if register_of(before[j]) == d {
                        assert(before[j] == last);
                    }
                } else {
                    if numbered(before, d) {
                        let q = choose|q: int|
                            0 <= q < before.len() && register_of(#[trigger] before[q]) == d;
                        assert(before[q] == last);
                    }
                }
            }
        }
    }
}

/// Whether the program mentions a register with the number `i`.
pub open spec fn uses(program: Seq<InstructionText<u64>>, i: int) -> bool {
    exists|r: TypedRegister<FreshRegister>| #[trigger]
        mentioned(program, r) && register_of(r) == i
}

/// Whether the number `i` has a definition by instruction `k`: the state
/// that allocation starts from holds a physical register for it, or an
/// instruction up to `k` has it as its destination.
pub open spec fn defined(
    s: Allocation,
    program: Seq<InstructionText<u64>>,
    k: int,
    i: int,
) -> bool {
    ||| (0 <= i < s.mapping.len() && s.mapping[i] is Assigned)
    ||| exists|q: int| 0 <= q <= k && register_of((#[trigger] program[q]).dest) == i
}

/// A program is well formed for the state that allocation starts from: the
/// state has exclusive ownership and room, the mapping knows every register
/// of the program and none of them is dropped, no number stands for a
/// scalar and a vector register at once, and every source is defined before
/// it is used.
pub open spec fn well_formed(s: Allocation, program: Seq<InstructionText<u64>>) -> bool {
    &&& owned(s)
    &&& roomy(s)
    &&& forall|r: TypedRegister<FreshRegister>| #[trigger]
        mentioned(program, r) ==> register_of(r) < s.mapping.len() && !(s.mapping[register_of(
            r,
        ) as int] is Dropped)
    &&& forall|r1: TypedRegister<FreshRegister>, r2: TypedRegister<FreshRegister>|
        #![trigger mentioned(program, r1), mentioned(program, r2)]
        mentioned(program, r1) && mentioned(program, r2) && register_of(r1) == register_of(r2)
            ==> r1 == r2
    &&& forall|k: int, j: int|
        0 <= k < program.len() && 0 <= j < program[k].src.len() ==> defined(
            s,
            program,
            k,
            register_of(#[trigger] program[k].src[j]) as int,
        )
}

/// What the state is after the analysed program has been carried out:
/// ownership is exclusive and there is room, a register that the program
/// does not mention stands as before, an output or a register that is seen
/// later holds a physical register, the one it held before where it held
/// one, and every other register of the program is dropped.
pub open spec fn settled(
    s: Allocation,
    t: Allocation,
    seen: Set<TypedRegister<FreshRegister>>,
    program: Seq<InstructionText<u64>>,
) -> bool {
    &&& t.mapping.len() == s.mapping.len()
    &&& owned(t)
    &&& roomy(t)
    &&& forall|i: int|
        0 <= i < s.mapping.len() && !uses(program, i) ==> #[trigger] t.mapping[i] == s.mapping[i]
    &&& forall|r: TypedRegister<FreshRegister>| #[trigger]
        mentioned(program, r) ==> (if seen.contains(r) {
            t.mapping[register_of(r) as int] is Assigned && (s.mapping[register_of(
                r,
            ) as int] is Assigned ==> t.mapping[register_of(r) as int] == s.mapping[register_of(
                r,
            ) as int])
        } else {
            t.mapping[register_of(r) as int] is Dropped
        })
}

/// The registers of an instruction are its sources and its destination,
/// without their sizes.
proof fn lemma_registers_of(i: InstructionText<u64>)
    ensures
        registers_of(i).len() == i.src.len() + 1,
        forall|j: int| 0 <= j < i.src.len() ==> #[trigger] registers_of(i)[j] == sizeless(i.src[j]),
        registers_of(i)[i.src.len() as int] == sizeless(i.dest),
        mentions(i, sizeless(i.dest)),
        forall|j: int| 0 <= j < i.src.len() ==> mentions(i, sizeless(#[trigger] i.src[j])),
        forall|r: TypedRegister<FreshRegister>|
            mentions(i, r) <==> (r == sizeless(i.dest) || exists|j: int|
                0 <= j < i.src.len() && sizeless(#[trigger] i.src[j]) == r),
        forall|t: TypedSizedRegister<FreshRegister>| #[trigger]
            register_of(sizeless(t)) == register_of(t),
{
    let regs = registers_of(i);
    let n = i.src.len() as int;
    assert(regs[n] == sizeless(i.dest));
    assert forall|j: int| 0 <= j < n implies mentions(i, sizeless(#[trigger] i.src[j])) by {
        assert(regs[j] == sizeless(i.src[j]));
    }
    assert forall|r: TypedRegister<FreshRegister>|
        mentions(i, r) <==> (r == sizeless(i.dest) || exists|j: int|
            0 <= j < i.src.len() && sizeless(#[trigger] i.src[j]) == r) by {
        if mentions(i, r) {
            let q = choose|q: int| 0 <= q < regs.len() && regs[q] == r;
            if q < n {
                assert(sizeless(i.src[q]) == r);
            }
        }
        if exists|j: int| 0 <= j < i.src.len() && sizeless(#[trigger] i.src[j]) == r {
            let j = choose|j: int| 0 <= j < i.src.len() && sizeless(#[trigger] i.src[j]) == r;
            assert(regs[j] == r);
        }
    }
    assert forall|t: TypedSizedRegister<FreshRegister>| #[trigger]
        register_of(sizeless(t)) == register_of(t) by {
        match t {
            crate::hla::TypedRegisterF::Scalar(_) => {},
            crate::hla::TypedRegisterF::Vector(_, _) => {},
        }
    }
}

/// A well-formed program without its last instruction is well formed.
proof fn lemma_well_formed_prefix(s: Allocation, program: Seq<InstructionText<u64>>)
    requires
        well_formed(s, program),
        program.len() > 0,
    ensures
        well_formed(s, program.drop_last()),
{
    let before = program.drop_last();
    assert forall|r: TypedRegister<FreshRegister>| #[trigger]
        mentioned(before, r) implies mentioned(program, r) by {
        lemma_mentioned_step(program, r);
    }
    assert forall|k: int, j: int|
        0 <= k < before.len() && 0 <= j < before[k].src.len() implies defined(
        s,
        before,
        k,
        register_of(#[trigger] before[k].src[j]) as int,
    ) by {
        let i = register_of(before[k].src[j]) as int;
        assert(before[k] == program[k]);
        assert(defined(s, program, k, register_of(program[k].src[j]) as int));
        if !(0 <= i < s.mapping.len() && s.mapping[i] is Assigned) {
            let q = choose|q: int| 0 <= q <= k && register_of((#[trigger] program[q]).dest) == i;
            assert(before[q] == program[q]);
        }
    }
}

/// The registers seen after the last instruction of a program has been
/// analysed.
pub open spec fn seen_later(
    seen: Set<TypedRegister<FreshRegister>>,
    program: Seq<InstructionText<u64>>,
) -> Set<TypedRegister<FreshRegister>> {
    seen.union(registers_of(program.last()).to_set())
}

/// Before the last instruction is carried out, each of its registers stands
/// as at the start or holds a physical register, and none is dropped.
proof fn lemma_last_registers(
    s: Allocation,
    s1: Allocation,
    seen: Set<TypedRegister<FreshRegister>>,
    program: Seq<InstructionText<u64>>,
    r: TypedRegister<FreshRegister>,
)
    requires
        well_formed(s, program),
        program.len() > 0,
        settled(s, s1, seen_later(seen, program), program.drop_last()),
        mentions(program.last(), r),
    ensures
        mentioned(program, r),
        register_of(r) < s1.mapping.len(),
        !(s1.mapping[register_of(r) as int] is Dropped),
        s.mapping[register_of(r) as int] is Assigned ==> s1.mapping[register_of(r) as int]
            == s.mapping[register_of(r) as int],
        uses(program.drop_last(), register_of(r) as int) ==> s1.mapping[register_of(
            r,
        ) as int] is Assigned,
{
    let before = program.drop_last();
    let last = program.last();
    let regs = registers_of(last);
    let later = seen_later(seen, program);
    let i = register_of(r) as int;
    lemma_mentioned_step(program, r);
    assert(mentioned(program, r));
    assert(regs.contains(r));
    assert(regs.to_set().contains(r));
    assert(later.contains(r));
    if uses(before, i) {
        let q = choose|q: TypedRegister<FreshRegister>| #[trigger]
            mentioned(before, q) && register_of(q) == i;
        lemma_mentioned_step(program, q);
        assert(mentioned(program, q) && mentioned(program, r));
        assert(q == r);
        assert(mentioned(before, r));
    } else {
        assert(s1.mapping[i] == s.mapping[i]);
    }
}

/// The last instruction can be carried out, and afterwards all of its
/// registers hold a physical register.
proof fn lemma_last_instruction(
    s: Allocation,
    s1: Allocation,
    seen: Set<TypedRegister<FreshRegister>>,
    program: Seq<InstructionText<u64>>,
)
    requires
        well_formed(s, program),
        program.len() > 0,
        settled(s, s1, seen_later(seen, program), program.drop_last()),
    ensures
        can_step(s1, Command::Instr(program.last())),
        owned(place(s1, program.last().dest)),
        roomy(place(s1, program.last().dest)),
        place(s1, program.last().dest).mapping.len() == s.mapping.len(),
        forall|i: int|
            0 <= i < s.mapping.len() && i != register_of(program.last().dest) ==> place(
                s1,
                program.last().dest,
            ).mapping[i] == s1.mapping[i],
        s1.mapping[register_of(program.last().dest) as int] is Assigned ==> place(
            s1,
            program.last().dest,
        ) == s1,
        forall|j: int|
            0 <= j < registers_of(program.last()).len() ==> register_of(
                #[trigger] registers_of(program.last())[j],
            ) < s.mapping.len() && place(s1, program.last().dest).mapping[register_of(
                registers_of(program.last())[j],
            ) as int] is Assigned,
        one_class(registers_of(program.last())),
{
    let n = program.len() - 1;
    let before = program.drop_last();
    let last = program.last();
    let regs = registers_of(last);
    let d = register_of(last.dest) as int;
    let rd = sizeless(last.dest);
    lemma_registers_of(last);
    assert(program[n] == last);
    lemma_last_registers(s, s1, seen, program, rd);
    assert(can_place(s1, last.dest)) by {
        if !(s1.mapping[d] is Assigned) {
            lemma_room(s1, d, last.dest is Vector);
        }
    }
    lemma_place_keeps(s1, last.dest);
    let s2 = place(s1, last.dest);
    assert forall|j: int| 0 <= j < last.src.len() implies register_of(#[trigger] last.src[j])
        < s2.mapping.len() && s2.mapping[register_of(last.src[j]) as int] is Assigned by {
        let i = register_of(last.src[j]) as int;
        let r = sizeless(last.src[j]);
        assert(mentions(last, r));
        lemma_last_registers(s, s1, seen, program, r);
        assert(defined(s, program, n, register_of(program[n].src[j]) as int));
        if i != d {
            if !(0 <= i < s.mapping.len() && s.mapping[i] is Assigned) {
                let q = choose|q: int|
                    0 <= q <= n && register_of((#[trigger] program[q]).dest) == i;
                assert(q < n);
                assert(before[q] == program[q]);
                lemma_registers_of(before[q]);
                assert(mentions(before[q], sizeless(before[q].dest)));
                assert(mentioned(before, sizeless(before[q].dest)));
                assert(uses(before, i));
            }
        }
    }
    assert(can_read(s2, last.src));
    assert forall|j: int| 0 <= j < regs.len() implies register_of(#[trigger] regs[j])
        < s.mapping.len() && s2.mapping[register_of(regs[j]) as int] is Assigned by {
        if j < last.src.len() {
            assert(regs[j] == sizeless(last.src[j]));
            assert(register_of(last.src[j]) < s2.mapping.len());
        }
    }
    assert forall|a: int, b: int|
        0 <= a < regs.len() && 0 <= b < regs.len() && register_of(#[trigger] regs[a])
            == register_of(#[trigger] regs[b]) implies regs[a] == regs[b] by {
        assert(mentions(last, regs[a]) && mentions(last, regs[b]));
        lemma_last_registers(s, s1, seen, program, regs[a]);
        lemma_last_registers(s, s1, seen, program, regs[b]);
        assert(mentioned(program, regs[a]) && mentioned(program, regs[b]));
    }
}

/// How one register of the program stands once the last instruction and the
/// drops that follow it have been carried out.
proof fn lemma_settled_register(
    s: Allocation,
    s1: Allocation,
    s3: Allocation,
    seen: Set<TypedRegister<FreshRegister>>,
    program: Seq<InstructionText<u64>>,
    r: TypedRegister<FreshRegister>,
)
    requires
        well_formed(s, program),
        program.len() > 0,
        settled(s, s1, seen_later(seen, program), program.drop_last()),
        s3 == run(place(s1, program.last().dest), drops(seen, registers_of(program.last()))),
        mentioned(program, r),
    ensures
        if seen.contains(r) {
            s3.mapping[register_of(r) as int] is Assigned && (s.mapping[register_of(
                r,
            ) as int] is Assigned ==> s3.mapping[register_of(r) as int] == s.mapping[register_of(
                r,
            ) as int])
        } else {
            s3.mapping[register_of(r) as int] is Dropped
        },
{
    let before = program.drop_last();
    let last = program.last();
    let regs = registers_of(last);
    let later = seen_later(seen, program);
    let d = register_of(last.dest) as int;
    let rd = sizeless(last.dest);
    let s2 = place(s1, last.dest);
    let i = register_of(r) as int;
    lemma_registers_of(last);
    lemma_last_instruction(s, s1, seen, program);
    lemma_run_drops(s2, seen, regs);
    lemma_mentioned_step(program, r);
    if mentions(last, r) {
        let j = choose|j: int| 0 <= j < regs.len() && regs[j] == r;
        lemma_last_registers(s, s1, seen, program, r);
        assert(s2.mapping[register_of(regs[j]) as int] is Assigned);
        assert(seen.contains(regs[j]) ==> s3.mapping[register_of(regs[j]) as int]
            == s2.mapping[register_of(regs[j]) as int]);
        if s.mapping[i] is Assigned {
            assert(s1.mapping[i] == s.mapping[i]);
            assert(s2.mapping[i] == s1.mapping[i]);
        }
    } else {
        assert(mentioned(before, r));
        assert(later.contains(r) == seen.contains(r)) by {
            assert(!regs.contains(r));
            assert(!regs.to_set().contains(r));
        }
        if numbered(regs, i) {
            let j = choose|j: int| 0 <= j < regs.len() && register_of(#[trigger] regs[j]) == i;
            assert(mentions(last, regs[j]));
            lemma_last_registers(s, s1, seen, program, regs[j]);
            assert(mentioned(program, regs[j]) && mentioned(program, r));
            assert(regs[j] == r);
        }
        assert(i != d) by {
            if i == d {
                lemma_last_registers(s, s1, seen, program, rd);
                assert(mentioned(program, rd) && mentioned(program, r));
                assert(rd == r);
            }
        }
        assert(s3.mapping[i] == s2.mapping[i]);
        assert(s2.mapping[i] == s1.mapping[i]);
    }
}

/// A number that the program does not use stands as at the start once the
/// last instruction and the drops that follow it have been carried out.
proof fn lemma_settled_other(
    s: Allocation,
    s1: Allocation,
    s3: Allocation,
    seen: Set<TypedRegister<FreshRegister>>,
    program: Seq<InstructionText<u64>>,
    i: int,
)
    requires
        well_formed(s, program),
        program.len() > 0,
        settled(s, s1, seen_later(seen, program), program.drop_last()),
        s3 == run(place(s1, program.last().dest), drops(seen, registers_of(program.last()))),
        0 <= i < s.mapping.len(),
        !uses(program, i),
    ensures
        s3.mapping[i] == s.mapping[i],
{
    let before = program.drop_last();
    let last = program.last();
    let regs = registers_of(last);
    let d = register_of(last.dest) as int;
    let rd = sizeless(last.dest);
    let s2 = place(s1, last.dest);
    lemma_registers_of(last);
    lemma_last_instruction(s, s1, seen, program);
    lemma_run_drops(s2, seen, regs);
    if uses(before, i) {
        let q = choose|q: TypedRegister<FreshRegister>| #[trigger]
            mentioned(before, q) && register_of(q) == i;
        lemma_mentioned_step(program, q);
        assert(mentioned(program, q));
    }
    if numbered(regs, i) {
        let j = choose|j: int| 0 <= j < regs.len() && register_of(#[trigger] regs[j]) == i;
        assert(mentions(last, regs[j]));
        lemma_last_registers(s, s1, seen, program, regs[j]);
        assert(mentioned(program, regs[j]));
    }
    assert(i != d) by {
        if i == d {
            lemma_last_registers(s, s1, seen, program, rd);
            assert(mentioned(program, rd));
        }
    }
    assert(s3.mapping[i] == s2.mapping[i]);
    assert(s2.mapping[i] == s1.mapping[i]);
    assert(s1.mapping[i] == s.mapping[i]);
}

/// A well-formed program can always be allocated: the commands that liveness
/// analysis makes of it can be carried out, whatever the outputs are, and
/// they leave every output with a physical register and every other register
/// of the program dropped.
pub proof fn lemma_allocation_succeeds(
    s: Allocation,
    seen: Set<TypedRegister<FreshRegister>>,
    program: Seq<InstructionText<u64>>,
)
    requires
        well_formed(s, program),
    ensures
        can_run(s, liveness(seen, program)),
        settled(s, run(s, liveness(seen, program)), seen, program),
    decreases program.len(),
{
    if program.len() == 0 {
        assert forall|r: TypedRegister<FreshRegister>| !mentioned(program, r) by {}
    } else {
        let before = program.drop_last();
        let last = program.last();
        let regs = registers_of(last);
        let later = seen_later(seen, program);
        let front = liveness(later, before);
        let middle = seq![Command::Instr(last)];
        let tail = drops(seen, regs);
        lemma_well_formed_prefix(s, program);
        lemma_allocation_succeeds(s, later, before);
        let s1 = run(s, front);
        lemma_last_instruction(s, s1, seen, program);
        let s2 = place(s1, last.dest);
        assert(step(s1, Command::Instr(last)) == s2);
        assert(middle.skip(1) =~= Seq::<Command>::empty());
        assert(can_run(s1, middle) && run(s1, middle) == s2) by {
            assert(middle[0] == Command::Instr(last));
            assert(can_run(s2, middle.skip(1)));
            assert(run(s2, middle.skip(1)) == s2);
        }
        lemma_run_drops(s2, seen, regs);
        let s3 = run(s2, tail);
        lemma_run_concat(s, front, middle);
        lemma_run_concat(s, front + middle, tail);
        assert(liveness(seen, program) == front + middle + tail);
        assert(run(s, liveness(seen, program)) == s3);
        assert forall|i: int| 0 <= i < s.mapping.len() && !uses(program, i) implies #[trigger]
            s3.mapping[i] == s.mapping[i] by {
            lemma_settled_other(s, s1, s3, seen, program, i);
        }
        assert forall|r: TypedRegister<FreshRegister>| #[trigger]
            mentioned(program, r) implies (if seen.contains(r) {
            s3.mapping[register_of(r) as int] is Assigned && (s.mapping[register_of(
                r,
            ) as int] is Assigned ==> s3.mapping[register_of(r) as int] == s.mapping[register_of(
                r,
            ) as int])
        } else {
            s3.mapping[register_of(r) as int] is Dropped
        }) by {
            lemma_settled_register(s, s1, s3, seen, program, r);
        }
    }
}

} // verus!
