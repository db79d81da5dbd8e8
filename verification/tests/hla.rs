use montgomery_reduction::hla;
use montgomery_reduction::hla::{
    adcs, adds, cinc, decimal_string, drop_size, dup2d, fmla2d, generate,
    hardware_register_allocation, input, interleave, liveness_analysis, mov, mov16b, ucvtf,
    ucvtf2d, umulh, Allocator, AtomicInstruction, DReg, Instruction, LivenessCommand, Reg,
    RegisterBank, RegisterMapping, RegisterState, Seen, TypedRegisterF, VReg, VectorSizes, XReg,
};
use montgomery_reduction::programs::{carry_add, smult, smult_noinit_simd};
use std::collections::VecDeque;

fn flatten(program: Vec<AtomicInstruction>) -> Vec<Instruction> {
    program.into_iter().flatten().collect()
}

fn show(commands: &VecDeque<LivenessCommand>) -> Vec<String> {
    let mut out = Vec::new();
    for command in commands {
        match command {
            LivenessCommand::Instr(i) => out.push(i.format_instruction()),
            LivenessCommand::Drop(TypedRegisterF::Scalar(r)) => out.push(format!("drop x{}", r)),
            LivenessCommand::Drop(TypedRegisterF::Vector(r, ())) => {
                out.push(format!("drop v{}", r))
            }
        }
    }
    out
}

fn is_register(text: &str, letters: &str) -> bool {
    let mut chars = text.chars();
    match chars.next() {
        Some(c) if letters.contains(c) => {}
        _ => return false,
    }
    let digits: Vec<char> = chars.collect();
    !digits.is_empty() && digits.iter().all(|c| c.is_ascii_digit())
}

#[test]
fn decimal_string_writes_numbers() {
    assert_eq!(decimal_string(0), "0");
    assert_eq!(decimal_string(7), "7");
    assert_eq!(decimal_string(10), "10");
    assert_eq!(decimal_string(30), "30");
    assert_eq!(decimal_string(1234567890), "1234567890");
    assert_eq!(decimal_string(u64::MAX), "18446744073709551615");
}

#[test]
fn registers_are_written_with_their_class() {
    let x: TypedRegisterF<u64, VectorSizes> = TypedRegisterF::Scalar(17);
    let v: TypedRegisterF<u64, VectorSizes> = TypedRegisterF::Vector(3, VectorSizes::V);
    let d: TypedRegisterF<u64, VectorSizes> = TypedRegisterF::Vector(30, VectorSizes::D);
    assert_eq!(x.to_string(), "x17");
    assert_eq!(v.to_string(), "v3");
    assert_eq!(d.to_string(), "d30");
    assert_eq!(VectorSizes::V.to_string(), "v");
    assert_eq!(VectorSizes::D.to_string(), "d");
    for n in [0u64, 9, 10, 30, 12345] {
        let s: TypedRegisterF<u64, VectorSizes> = TypedRegisterF::Scalar(n);
        assert!(is_register(&s.to_string(), "x"));
        let w: TypedRegisterF<u64, VectorSizes> = TypedRegisterF::Vector(n, VectorSizes::V);
        assert!(is_register(&w.to_string(), "v"));
        let h: TypedRegisterF<u64, VectorSizes> = TypedRegisterF::Vector(n, VectorSizes::D);
        assert!(is_register(&h.to_string(), "d"));
    }
    assert_eq!(*x.as_fresh(), 17);
    assert_eq!(*d.as_fresh(), 30);
    assert_eq!(drop_size(x), TypedRegisterF::Scalar(17));
    assert_eq!(drop_size(d), TypedRegisterF::Vector(30, ()));
}

#[test]
fn allocator_mints_each_register_once() {
    let mut allocator = Allocator::new();
    let a: XReg = allocator.fresh();
    let b: VReg = allocator.fresh();
    let c: DReg = allocator.fresh();
    assert_eq!(a.to_typed_register(), TypedRegisterF::Scalar(0));
    assert_eq!(b.to_typed_register(), TypedRegisterF::Vector(1, VectorSizes::V));
    assert_eq!(c.to_typed_register(), TypedRegisterF::Vector(2, VectorSizes::D));
    assert_eq!(b.as_f64().to_typed_register(), TypedRegisterF::Vector(1, VectorSizes::D));
    let mut later = Allocator::start_from(7);
    let d: XReg = later.fresh();
    assert_eq!(d.to_typed_register(), TypedRegisterF::Scalar(7));
    let e: XReg = Reg::new(5);
    assert_eq!(e.to_typed_register(), TypedRegisterF::Scalar(5));
}

#[test]
fn instructions_are_formatted() {
    let mut allocator = Allocator::new();
    let x0: XReg = allocator.fresh();
    let x1: XReg = allocator.fresh();
    let x2: XReg = allocator.fresh();
    let v3: VReg = allocator.fresh();
    let v4: VReg = allocator.fresh();
    let v5: VReg = allocator.fresh();
    let d6: DReg = allocator.fresh();
    let line = |atom: AtomicInstruction| -> String {
        assert_eq!(atom.len(), 1);
        atom[0].format_instruction()
    };
    assert_eq!(line(mov(&x0, 42)), "mov x0, #42");
    assert_eq!(line(hla::mul(&x0, &x1, &x2)), "mul x0, x1, x2");
    assert_eq!(line(umulh(&x2, &x1, &x0)), "umulh x2, x1, x0");
    assert_eq!(line(adds(&x0, &x0, &x1)), "adds x0, x0, x1");
    assert_eq!(line(adcs(&x0, &x1, &x1)), "adcs x0, x1, x1");
    assert_eq!(line(cinc(&x1, &x1, "hs")), "cinc x1, x1, hs");
    assert_eq!(line(mov16b(&v3, &v4)), "mov.16b v3, v4");
    assert_eq!(line(ucvtf2d(&v3, &v3)), "ucvtf.2d v3, v3");
    assert_eq!(line(dup2d(&v4, &x0)), "dup.2d v4, x0");
    assert_eq!(line(ucvtf(&d6, &x2)), "ucvtf d6, x2");
    assert_eq!(line(ucvtf(&v5.as_f64(), &d6)), "ucvtf d5, d6");
    assert_eq!(line(fmla2d(&v3, &v4, &v5, 1)), "fmla.2d v3, v4, v5[1]");
    let registers = hla::mul(&x0, &x1, &x2)[0].extract_registers();
    assert_eq!(
        registers,
        vec![TypedRegisterF::Scalar(1), TypedRegisterF::Scalar(2), TypedRegisterF::Scalar(0)]
    );
    assert_eq!(mov(&x0, 1)[0].extract_registers(), vec![TypedRegisterF::Scalar(0)]);
}

#[test]
fn carry_add_is_one_atomic_instruction() {
    let low: XReg = Reg::new(1);
    let high: XReg = Reg::new(2);
    let add: XReg = Reg::new(3);
    let atom = carry_add([&low, &high], &add);
    let lines: Vec<String> = atom.iter().map(|i| i.format_instruction()).collect();
    assert_eq!(lines, vec!["adds x1, x1, x3", "cinc x2, x2, hs"]);
}

#[test]
fn bank_starts_full_and_hands_out_the_least() {
    let mut bank = RegisterBank::new();
    let mut mapping = RegisterMapping::new();
    let first = mapping.get_or_allocate_register(&mut bank, TypedRegisterF::Scalar(0));
    let second = mapping.get_or_allocate_register(&mut bank, TypedRegisterF::Scalar(1));
    let vector =
        mapping.get_or_allocate_register(&mut bank, TypedRegisterF::Vector(2, VectorSizes::D));
    assert_eq!(first, TypedRegisterF::Scalar(0));
    assert_eq!(second, TypedRegisterF::Scalar(1));
    assert_eq!(vector, TypedRegisterF::Vector(0, VectorSizes::D));
    // a second request for the same register gives the same answer
    assert_eq!(
        mapping.get_or_allocate_register(&mut bank, TypedRegisterF::Scalar(0)),
        TypedRegisterF::Scalar(0)
    );
    assert_eq!(mapping.get_register(TypedRegisterF::Scalar(1)), TypedRegisterF::Scalar(1));
    assert_eq!(*mapping.index(1), RegisterState::Assigned(TypedRegisterF::Scalar(1)));
    assert_eq!(*mapping.index(3), RegisterState::Unassigned);
    // a freed register is the least again
    assert!(mapping.free_register(&mut bank, TypedRegisterF::Scalar(0)));
    assert_eq!(*mapping.index(0), RegisterState::Dropped);
    assert_eq!(
        mapping.get_or_allocate_register(&mut bank, TypedRegisterF::Scalar(3)),
        TypedRegisterF::Scalar(0)
    );
    assert_eq!(
        mapping.get_or_allocate_register(&mut bank, TypedRegisterF::Scalar(4)),
        TypedRegisterF::Scalar(2)
    );
    // returning a register that is free already reports it
    assert!(!bank.insert(TypedRegisterF::<u64, ()>::Scalar(30)));
    assert!(!bank.insert(TypedRegisterF::<u64, ()>::Vector(30, ())));
    *mapping.index_mut(5) = RegisterState::Assigned(TypedRegisterF::Scalar(9));
    assert_eq!(mapping.get_register(TypedRegisterF::Scalar(5)), TypedRegisterF::Scalar(9));
}

#[test]
fn all_thirty_one_registers_of_a_class_can_be_live() {
    let mut bank = RegisterBank::new();
    let mut mapping = RegisterMapping::new();
    for id in 0..30u64 {
        assert_eq!(
            mapping.get_or_allocate_register(&mut bank, TypedRegisterF::Scalar(id)),
            TypedRegisterF::Scalar(id)
        );
    }
    // the last scalar register is still free
    assert!(!bank.insert(TypedRegisterF::<u64, ()>::Scalar(30)));
    assert!(bank.insert(TypedRegisterF::<u64, ()>::Scalar(29)));
}

#[test]
fn input_pins_a_physical_register() {
    let mut allocator = Allocator::new();
    let mut mapping = RegisterMapping::new();
    let mut bank = RegisterBank::new();
    let x: XReg = input(&mut allocator, &mut mapping, &mut bank, 4);
    let v: VReg = input(&mut allocator, &mut mapping, &mut bank, 4);
    let d: DReg = input(&mut allocator, &mut mapping, &mut bank, 0);
    assert_eq!(mapping.output_register(&x), "x4");
    assert_eq!(mapping.output_register(&v), "v4");
    assert_eq!(mapping.output_register(&d), "d0");
    // pinned registers are not handed out again
    let next =
        mapping.get_or_allocate_register(&mut bank, TypedRegisterF::Vector(3, VectorSizes::V));
    assert_eq!(next, TypedRegisterF::Vector(1, VectorSizes::V));
    assert!(mapping.free_register(&mut bank, TypedRegisterF::Scalar(0)));
    assert_eq!(mapping.output_register(&x), "Dropped");
}

#[test]
fn seen_remembers_outputs() {
    let mut seen = Seen::new();
    let x: XReg = Reg::new(3);
    let v: VReg = Reg::new(3);
    let d: DReg = Reg::new(3);
    assert!(seen.output_interface(&x));
    assert!(!seen.output_interface(&x));
    // a vector register with the same number is another register
    assert!(seen.output_interface(&v));
    // but its low half is the same register
    assert!(!seen.output_interface(&d));
    assert!(seen.insert(TypedRegisterF::Scalar(4)));
    assert!(!seen.insert(TypedRegisterF::Scalar(4)));
}

#[test]
fn liveness_drops_at_last_use() {
    let s0: XReg = Reg::new(0);
    let s1: XReg = Reg::new(1);
    let a0: XReg = Reg::new(2);
    let a1: XReg = Reg::new(3);
    let b: XReg = Reg::new(4);
    let tmp: XReg = Reg::new(5);
    let program = flatten(vec![
        hla::mul(&s0, &a0, &b),
        umulh(&s1, &a0, &b),
        hla::mul(&tmp, &a1, &b),
        adds(&s1, &s1, &tmp),
    ]);
    let mut seen = Seen::new();
    seen.output_interface(&s0);
    seen.output_interface(&s1);
    let commands = liveness_analysis(&mut seen, program);
    assert_eq!(
        show(&commands),
        vec![
            "mul x0, x2, x4",
            "umulh x1, x2, x4",
            "drop x2",
            "mul x5, x3, x4",
            "drop x4",
            "drop x3",
            "adds x1, x1, x5",
            "drop x5",
        ]
    );
    // every register of the program is seen now
    for id in 0..6 {
        assert!(!seen.insert(TypedRegisterF::Scalar(id)));
    }
    assert!(seen.insert(TypedRegisterF::Scalar(6)));
}

#[test]
fn liveness_without_outputs_drops_everything_once() {
    let x: XReg = Reg::new(0);
    let y: XReg = Reg::new(1);
    let program = flatten(vec![mov(&x, 1), adds(&y, &x, &x), adds(&y, &y, &x)]);
    let mut seen = Seen::new();
    let commands = liveness_analysis(&mut seen, program);
    assert_eq!(
        show(&commands),
        vec!["mov x0, #1", "adds x1, x0, x0", "adds x1, x1, x0", "drop x0", "drop x1"]
    );
    let mut empty = Seen::new();
    assert!(liveness_analysis(&mut empty, Vec::new()).is_empty());
}

#[test]
fn interleave_takes_turns() {
    let a: XReg = Reg::new(0);
    let b: XReg = Reg::new(1);
    let c: XReg = Reg::new(2);
    let lhs = vec![mov(&a, 1), carry_add([&a, &b], &c), mov(&a, 3)];
    let rhs = vec![mov(&b, 10), mov(&b, 20)];
    let mixed: Vec<String> =
        interleave(lhs, rhs).iter().map(|i| i.format_instruction()).collect();
    assert_eq!(
        mixed,
        vec!["mov x0, #1", "mov x1, #10", "adds x0, x0, x2", "cinc x1, x1, hs", "mov x1, #20"]
    );
    assert!(interleave(Vec::new(), vec![mov(&a, 1)]).is_empty());
    assert!(interleave(vec![mov(&a, 1)], Vec::new()).is_empty());
}

#[test]
fn multiplication_kernel_is_allocated() {
    let mut allocator = Allocator::new();
    let mut mapping = RegisterMapping::new();
    let mut bank = RegisterBank::new();
    let b: XReg = input(&mut allocator, &mut mapping, &mut bank, 0);
    let a: [XReg; 4] = [
        input(&mut allocator, &mut mapping, &mut bank, 1),
        input(&mut allocator, &mut mapping, &mut bank, 2),
        input(&mut allocator, &mut mapping, &mut bank, 3),
        input(&mut allocator, &mut mapping, &mut bank, 4),
    ];
    let s: [XReg; 5] = [
        allocator.fresh(),
        allocator.fresh(),
        allocator.fresh(),
        allocator.fresh(),
        allocator.fresh(),
    ];
    let program = smult(&mut allocator, &s, a, b);
    assert_eq!(program.len(), 11);
    let mut seen = Seen::new();
    for register in &s {
        seen.output_interface(register);
    }
    let commands = liveness_analysis(&mut seen, flatten(program));
    let drops = commands.iter().filter(|c| matches!(c, LivenessCommand::Drop(_))).count();
    assert_eq!(drops, 6);
    let lines = generate(&mut mapping, &mut bank, commands);
    assert_eq!(
        lines,
        vec![
            "mul x5, x1, x0",
            "umulh x6, x1, x0",
            "mul x1, x2, x0",
            "umulh x7, x2, x0",
            "adds x6, x6, x1",
            "cinc x7, x7, hs",
            "mul x1, x3, x0",
            "umulh x2, x3, x0",
            "adds x7, x7, x1",
            "cinc x2, x2, hs",
            "mul x1, x4, x0",
            "umulh x3, x4, x0",
            "adds x2, x2, x1",
            "cinc x3, x3, hs",
        ]
    );
    // every operand is a physical scalar register of the pool
    for line in &lines {
        let operands = line.split_once(' ').unwrap().1;
        for operand in operands.split(", ") {
            if operand == "hs" {
                continue;
            }
            assert!(is_register(operand, "x"));
            assert!(operand[1..].parse::<u64>().unwrap() <= 30);
        }
    }
    let outputs: Vec<String> = s.iter().map(|r| mapping.output_register(r)).collect();
    assert_eq!(outputs, vec!["x5", "x6", "x7", "x2", "x3"]);
}

#[test]
fn two_kernels_interleaved_are_allocated() {
    let mut allocator = Allocator::new();
    let mut mapping = RegisterMapping::new();
    let mut bank = RegisterBank::new();
    let mut seen = Seen::new();
    let mut streams = Vec::new();
    for first in [0u64, 5] {
        let b: XReg = input(&mut allocator, &mut mapping, &mut bank, first);
        let a: [XReg; 4] = [
            input(&mut allocator, &mut mapping, &mut bank, first + 1),
            input(&mut allocator, &mut mapping, &mut bank, first + 2),
            input(&mut allocator, &mut mapping, &mut bank, first + 3),
            input(&mut allocator, &mut mapping, &mut bank, first + 4),
        ];
        let s: [XReg; 5] = [
            allocator.fresh(),
            allocator.fresh(),
            allocator.fresh(),
            allocator.fresh(),
            allocator.fresh(),
        ];
        for register in &s {
            seen.output_interface(register);
        }
        streams.push(smult(&mut allocator, &s, a, b));
    }
    let new = streams.pop().unwrap();
    let old = streams.pop().unwrap();
    let mixed = interleave(old, new);
    assert_eq!(mixed.len(), 28);
    let commands = liveness_analysis(&mut seen, mixed);
    let physical = hardware_register_allocation(&mut mapping, &mut bank, commands);
    let lines: Vec<String> = physical.iter().map(|i| i.format_instruction()).collect();
    assert_eq!(lines.len(), 28);
    assert_eq!(lines[0], "mul x10, x1, x0");
    assert_eq!(lines[1], "mul x11, x6, x5");
    assert_eq!(lines[2], "umulh x12, x1, x0");
    // the first input of the first stream has had its last use by now
    assert_eq!(lines[3], "umulh x1, x6, x5");
    for line in &lines {
        let operands = line.split_once(' ').unwrap().1;
        for operand in operands.split(", ") {
            assert!(operand == "hs" || is_register(operand, "x"));
        }
    }
}

#[test]
fn paired_kernel_is_allocated() {
    let mut allocator = Allocator::new();
    let mut mapping = RegisterMapping::new();
    let mut bank = RegisterBank::new();
    let t: [VReg; 6] = [
        input(&mut allocator, &mut mapping, &mut bank, 0),
        input(&mut allocator, &mut mapping, &mut bank, 1),
        input(&mut allocator, &mut mapping, &mut bank, 2),
        input(&mut allocator, &mut mapping, &mut bank, 3),
        input(&mut allocator, &mut mapping, &mut bank, 4),
        input(&mut allocator, &mut mapping, &mut bank, 5),
    ];
    let v: [XReg; 5] = [
        input(&mut allocator, &mut mapping, &mut bank, 0),
        input(&mut allocator, &mut mapping, &mut bank, 1),
        input(&mut allocator, &mut mapping, &mut bank, 2),
        input(&mut allocator, &mut mapping, &mut bank, 3),
        input(&mut allocator, &mut mapping, &mut bank, 4),
    ];
    let s: VReg = input(&mut allocator, &mut mapping, &mut bank, 6);
    let program = smult_noinit_simd(&mut allocator, &t, s, v);
    let mut seen = Seen::new();
    for register in &t {
        seen.output_interface(register);
    }
    let commands = liveness_analysis(&mut seen, flatten(program));
    assert_eq!(
        show(&commands),
        vec![
            "ucvtf.2d v11, v11",
            "mov x12, #5075556780046548992",
            "ucvtf d15, x6",
            "drop x6",
            "dup.2d v13, x12",
            "drop x12",
            "mov.16b v14, v13",
            "drop v13",
            "fmla.2d v14, v11, v15[0]",
            "drop v14",
            "drop v15",
            "drop v11",
        ]
    );
    let lines = generate(&mut mapping, &mut bank, commands);
    assert_eq!(
        lines,
        vec![
            "ucvtf.2d v6, v6",
            "mov x5, #5075556780046548992",
            "ucvtf d7, x0",
            "dup.2d v8, x5",
            "mov.16b v9, v8",
            "fmla.2d v9, v6, d7[0]",
        ]
    );
    assert_eq!(mapping.output_register(&t[5]), "v5");
}

#[test]
fn checked_input_refuses_a_taken_register() {
    let mut allocator = Allocator::new();
    let mut mapping = RegisterMapping::new();
    let mut bank = RegisterBank::new();
    let first: Option<XReg> = hla::try_input(&mut allocator, &mut mapping, &mut bank, 3);
    assert!(first.is_some());
    assert_eq!(allocator.peek(), 1);
    let second: Option<XReg> = hla::try_input(&mut allocator, &mut mapping, &mut bank, 3);
    assert!(second.is_none());
    assert_eq!(allocator.peek(), 1);
    // the vector register with the same number is another register
    let third: Option<VReg> = hla::try_input(&mut allocator, &mut mapping, &mut bank, 3);
    assert!(third.is_some());
    let beyond: Option<XReg> = hla::try_input(&mut allocator, &mut mapping, &mut bank, 31);
    assert!(beyond.is_none());
    assert!(!bank.is_free(TypedRegisterF::<u64, ()>::Scalar(3)));
    assert!(bank.is_free(TypedRegisterF::<u64, ()>::Scalar(4)));
    assert!(bank.has_free(TypedRegisterF::<u64, ()>::Scalar(0)));
    assert_eq!(mapping.len(), 30);
    // a mapping that is full takes no more inputs
    let mut late = Allocator::start_from(30);
    let none: Option<XReg> = hla::try_input(&mut late, &mut mapping, &mut bank, 9);
    assert!(none.is_none());
}

fn run_checked(
    program: Vec<AtomicInstruction>,
    extra: Vec<LivenessCommand>,
) -> Result<Vec<String>, hla::AllocationError> {
    let mut mapping = RegisterMapping::new();
    let mut bank = RegisterBank::new();
    let mut commands: VecDeque<LivenessCommand> = VecDeque::new();
    for instruction in flatten(program) {
        commands.push_back(LivenessCommand::Instr(instruction));
    }
    for command in extra {
        commands.push_back(command);
    }
    hla::try_hardware_register_allocation(&mut mapping, &mut bank, commands)
        .map(|instructions| instructions.iter().map(|i| i.format_instruction()).collect())
}

#[test]
fn checked_allocation_names_what_is_wrong() {
    let x: XReg = Reg::new(0);
    let y: XReg = Reg::new(1);
    let far: XReg = Reg::new(30);
    let drop = |id: u64| LivenessCommand::Drop(TypedRegisterF::Scalar(id));
    assert_eq!(
        run_checked(vec![mov(&x, 1), adds(&y, &x, &x)], vec![drop(0), drop(1)]),
        Ok(vec!["mov x0, #1".to_string(), "adds x1, x0, x0".to_string()])
    );
    assert_eq!(
        run_checked(vec![adds(&y, &x, &x)], vec![]),
        Err(hla::AllocationError::NotAssigned)
    );
    assert_eq!(
        run_checked(vec![mov(&far, 1)], vec![]),
        Err(hla::AllocationError::UnknownRegister)
    );
    assert_eq!(
        run_checked(vec![mov(&x, 1)], vec![drop(30)]),
        Err(hla::AllocationError::UnknownRegister)
    );
    assert_eq!(
        run_checked(vec![mov(&x, 1)], vec![drop(1)]),
        Err(hla::AllocationError::DropOfUnassigned)
    );
    assert_eq!(
        run_checked(vec![mov(&x, 1)], vec![drop(0), drop(0)]),
        Err(hla::AllocationError::DoubleDrop)
    );
    let mut commands: VecDeque<LivenessCommand> = VecDeque::new();
    for instruction in flatten(vec![mov(&x, 1)]) {
        commands.push_back(LivenessCommand::Instr(instruction));
    }
    commands.push_back(drop(0));
    for instruction in flatten(vec![mov(&x, 2)]) {
        commands.push_back(LivenessCommand::Instr(instruction));
    }
    let mut mapping = RegisterMapping::new();
    let mut bank = RegisterBank::new();
    assert_eq!(
        hla::try_hardware_register_allocation(&mut mapping, &mut bank, commands).err(),
        Some(hla::AllocationError::AlreadyDropped)
    );
}

#[test]
fn checked_allocation_runs_out_of_registers() {
    // every scalar register is pinned, so a new destination finds none
    let mut mapping = RegisterMapping::new();
    let mut bank = RegisterBank::new();
    for id in 0..29u64 {
        mapping.get_or_allocate_register(&mut bank, TypedRegisterF::Scalar(id));
    }
    // two registers are left; take them out of the bank without a holder
    let mut allocator = Allocator::start_from(29);
    let _last: XReg = input(&mut allocator, &mut mapping, &mut bank, 29);
    // fresh register 29 holds x29 now; free x30 is the only one left
    *mapping.index_mut(28) = RegisterState::Unassigned;
    let x28: XReg = Reg::new(28);
    let mut commands: VecDeque<LivenessCommand> = VecDeque::new();
    for instruction in flatten(vec![mov(&x28, 1)]) {
        commands.push_back(LivenessCommand::Instr(instruction));
    }
    let lines = hla::try_hardware_register_allocation(&mut mapping, &mut bank, commands);
    assert_eq!(lines.unwrap()[0].format_instruction(), "mov x30, #1");
    // now the pool is empty: x28 is held by nobody, but not free either
    *mapping.index_mut(27) = RegisterState::Unassigned;
    let x27: XReg = Reg::new(27);
    let mut commands: VecDeque<LivenessCommand> = VecDeque::new();
    for instruction in flatten(vec![mov(&x27, 1)]) {
        commands.push_back(LivenessCommand::Instr(instruction));
    }
    assert_eq!(
        hla::try_hardware_register_allocation(&mut mapping, &mut bank, commands).err(),
        Some(hla::AllocationError::RanOutOfRegisters)
    );
    // a register that is free and held at once is found out at its drop
    assert!(bank.insert(TypedRegisterF::<u64, ()>::Scalar(5)));
    let mut commands: VecDeque<LivenessCommand> = VecDeque::new();
    commands.push_back(LivenessCommand::Drop(TypedRegisterF::Scalar(5)));
    assert_eq!(
        hla::try_hardware_register_allocation(&mut mapping, &mut bank, commands).err(),
        Some(hla::AllocationError::SharedRegister)
    );
}

#[test]
fn mapping_is_written_out() {
    let mut mapping = RegisterMapping::new();
    let mut bank = RegisterBank::new();
    mapping.get_or_allocate_register(&mut bank, TypedRegisterF::Scalar(0));
    mapping.get_or_allocate_register(&mut bank, TypedRegisterF::Vector(1, VectorSizes::D));
    mapping.get_or_allocate_register(&mut bank, TypedRegisterF::Scalar(2));
    mapping.free_register(&mut bank, TypedRegisterF::Scalar(0));
    let text = mapping.to_string();
    assert!(text.starts_with("Register Mapping: [  0: D,   1: Md0,   2: Mx1,   3: U, "));
    assert!(text.ends_with("  29: U, ]"));
    assert_eq!(text.matches(": U").count(), 27);
    let x: XReg = Reg::new(12);
    assert_eq!(x.to_string(), "x12");
}

#[test]
fn an_instruction_becomes_a_command() {
    let x: XReg = Reg::new(1);
    let mut program = mov(&x, 7);
    let command = LivenessCommand::from(program.pop().unwrap());
    match command {
        LivenessCommand::Instr(i) => assert_eq!(i.format_instruction(), "mov x1, #7"),
        LivenessCommand::Drop(_) => panic!("an instruction was made a drop"),
    }
}
