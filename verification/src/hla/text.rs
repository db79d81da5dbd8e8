//! Instructions as lines of assembly.
use vstd::prelude::*;
use crate::hla::{
    register_of, HardwareRegister, InstructionF, InstructionText, Mod, Modifier, RegisterMapping,
    RegisterState, TypedRegisterF, TypedSizedRegister, VectorSizes, XReg,
};

verus! {

/// The character of a decimal digit.
pub open spec fn digit_char(d: nat) -> char {
    if d == 0 {
        '0'
    } else if d == 1 {
        '1'
    } else if d == 2 {
        '2'
    } else if d == 3 {
        '3'
    } else if d == 4 {
        '4'
    } else if d == 5 {
        '5'
    } else if d == 6 {
        '6'
    } else if d == 7 {
        '7'
    } else if d == 8 {
        '8'
    } else {
        '9'
    }
}

/// The decimal digits of `n`, most significant first, without leading zeros.
pub open spec fn decimal(n: nat) -> Seq<char>
    decreases n,
{
    if n < 10 {
        seq![digit_char(n)]
    } else {
        decimal(n / 10).push(digit_char(n % 10))
    }
}

/// How a physical register is written: `x`, `v` or `d` and its number.
pub open spec fn register_text(t: TypedSizedRegister<u64>) -> Seq<char> {
    match t {
        TypedRegisterF::Scalar(r) => seq!['x'] + decimal(r as nat),
        TypedRegisterF::Vector(r, VectorSizes::V) => seq!['v'] + decimal(r as nat),
        TypedRegisterF::Vector(r, VectorSizes::D) => seq!['d'] + decimal(r as nat),
    }
}

/// The registers `regs[from..]`, each preceded by a comma and a space.
pub open spec fn more_registers(regs: Seq<TypedSizedRegister<u64>>, from: int) -> Seq<char>
    decreases regs.len() - from,
{
    if from >= regs.len() || from < 0 {
        Seq::empty()
    } else {
        seq![',', ' '] + register_text(regs[from]) + more_registers(regs, from + 1)
    }
}

/// What follows the registers of an instruction, as text.
pub open spec fn modifier_text(m: Modifier) -> Seq<char> {
    match m {
        Modifier::Nothing => Seq::empty(),
        Modifier::Imm(n) => seq![',', ' ', '#'] + decimal(n as nat),
        Modifier::Cond(c) => seq![',', ' '] + c,
        Modifier::Idx(n) => seq!['['] + decimal(n as nat) + seq![']'],
    }
}

/// An instruction as a line of assembly: the opcode, a space, the destination
/// and the sources separated by a comma and a space, and the modifier.
pub open spec fn instruction_text(i: InstructionText<u64>) -> Seq<char> {
    i.opcode + seq![' '] + register_text(i.dest) + more_registers(i.src, 0) + modifier_text(
        i.modifier,
    )
}

/// The lines of assembly of a program.
pub open spec fn program_text(program: Seq<InstructionText<u64>>) -> Seq<Seq<char>> {
    program.map_values(|i: InstructionText<u64>| instruction_text(i))
}

/// What the strings of a list hold, in their order.
pub open spec fn lines(strings: Seq<String>) -> Seq<Seq<char>> {
    strings.map_values(|s: String| s@)
}

/// One decimal digit as text.
fn digit_str(d: u64) -> (s: &'static str)
    requires
        d < 10,
    ensures
        s@ == seq![digit_char(d as nat)],
{
    proof {
        reveal_strlit("0");
        reveal_strlit("1");
        reveal_strlit("2");
        reveal_strlit("3");
        reveal_strlit("4");
        reveal_strlit("5");
        reveal_strlit("6");
        reveal_strlit("7");
        reveal_strlit("8");
        reveal_strlit("9");
    }
    let s = if d == 0 {
        "0"
    } else if d == 1 {
        "1"
    } else if d == 2 {
        "2"
    } else if d == 3 {
        "3"
    } else if d == 4 {
        "4"
    } else if d == 5 {
        "5"
    } else if d == 6 {
        "6"
    } else if d == 7 {
        "7"
    } else if d == 8 {
        "8"
    } else {
        "9"
    };
    assert(s@ =~= seq![digit_char(d as nat)]);
    s
}

/// A number in decimal.
pub fn decimal_string(n: u64) -> (s: String)
    ensures
        s@ == decimal(n as nat),
    decreases n,
{
    if n < 10 {
        String::from_str(digit_str(n))
    } else {
        let mut s = decimal_string(n / 10);
        s.append(digit_str(n % 10));
        assert(s@ =~= decimal((n / 10) as nat).push(digit_char((n % 10) as nat)));
        s
    }
}

impl VectorSizes {
    /// The letter that stands for the size: `v` or `d`.
    pub fn to_string(&self) -> (s: String)
        ensures
            s@ == (match *self {
                VectorSizes::V => seq!['v'],
                VectorSizes::D => seq!['d'],
            }),
    {
        proof {
            reveal_strlit("v");
            reveal_strlit("d");
        }
        let s = match self {
            VectorSizes::V => String::from_str("v"),
            VectorSizes::D => String::from_str("d"),
        };
        assert(s@ =~= (match *self {
            VectorSizes::V => seq!['v'],
            VectorSizes::D => seq!['d'],
        }));
        s
    }
}

impl TypedRegisterF<u64, VectorSizes> {
    /// The register as it is written in assembly.
    pub fn to_string(&self) -> (s: String)
        ensures
            s@ == register_text(*self),
    {
        proof {
            reveal_strlit("x");
        }
        match self {
            TypedRegisterF::Scalar(reg) => {
                let mut s = String::from_str("x");
                let digits = decimal_string(*reg);
                s.append(digits.as_str());
                assert(s@ =~= register_text(*self));
                s
            },
            TypedRegisterF::Vector(reg, size) => {
                let mut s = size.to_string();
                let digits = decimal_string(*reg);
                s.append(digits.as_str());
                assert(s@ =~= register_text(*self));
                s
            },
        }
    }
}

impl InstructionF<u64> {
    /// The instruction as a line of assembly.
    pub fn format_instruction(&self) -> (s: String)
        ensures
            s@ == instruction_text(self@),
    {
        proof {
            reveal_strlit(" ");
            reveal_strlit(", ");
            reveal_strlit(", #");
            reveal_strlit("[");
            reveal_strlit("]");
        }
        let mut s = self.opcode.clone();
        s.append(" ");
        let dest = self.dest.to_string();
        s.append(dest.as_str());
        let ghost head = self.opcode@ + seq![' '] + register_text(self.dest);
        assert(s@ =~= head);
        let n = self.src.len();
        let mut i: usize = 0;
        while i < n
            invariant
                i <= n,
                n == self.src@.len(),
                s@ + more_registers(self.src@, i as int) == head + more_registers(self.src@, 0),
            decreases n - i,
        {
            let ghost before = s@;
            proof {
                reveal_strlit(", ");
            }
            s.append(", ");
            let reg = self.src[i].to_string();
            s.append(reg.as_str());
            assert(s@ + more_registers(self.src@, i + 1) =~= before + more_registers(
                self.src@,
                i as int,
            ));
            i += 1;
        }
        assert(s@ =~= head + more_registers(self.src@, 0));
        match &self.modifiers {
            Mod::Nothing => {},
            Mod::Imm(imm) => {
                s.append(", #");
                let digits = decimal_string(*imm);
                s.append(digits.as_str());
            },
            Mod::Cond(cond) => {
                s.append(", ");
                s.append(cond.as_str());
            },
            Mod::Idx(idx) => {
                s.append("[");
                let digits = decimal_string(*idx);
                s.append(digits.as_str());
                s.append("]");
            },
        }
        assert(s@ =~= instruction_text(self@));
        s
    }

    /// All the registers that the instruction mentions: the sources in their
    /// order, then the destination.
    pub fn extract_registers(&self) -> (r: Vec<TypedSizedRegister<u64>>)
        ensures
            r@ == self@.src.push(self@.dest),
    {
        let mut out: Vec<TypedSizedRegister<u64>> = Vec::new();
        let n = self.src.len();
        let mut i: usize = 0;
        while i < n
            invariant
                i <= n,
                n == self.src@.len(),
                out@ == self.src@.take(i as int),
            decreases n - i,
        {
            out.push(self.src[i]);
            assert(out@ =~= self.src@.take(i + 1));
            i += 1;
        }
        assert(self.src@.take(n as int) =~= self.src@);
        out.push(self.dest);
        out
    }
}

/// The decimal digits of a number are digits, and there is at least one.
pub proof fn lemma_decimal_digits(n: nat)
    ensures
        decimal(n).len() >= 1,
        forall|i: int| 0 <= i < decimal(n).len() ==> '0' <= #[trigger] decimal(n)[i] <= '9',
    decreases n,
{
    if n >= 10 {
        lemma_decimal_digits(n / 10);
    }
}

/// A physical register is written as one letter, `x` for a scalar register and
/// `v` or `d` for a vector register, followed by one or more decimal digits.
pub proof fn lemma_register_text(t: TypedSizedRegister<HardwareRegister>)
    ensures
        register_text(t).len() >= 2,
        register_text(t)[0] == (match t {
            TypedRegisterF::Scalar(_) => 'x',
            TypedRegisterF::Vector(_, VectorSizes::V) => 'v',
            TypedRegisterF::Vector(_, VectorSizes::D) => 'd',
        }),
        forall|i: int|
            1 <= i < register_text(t).len() ==> '0' <= #[trigger] register_text(t)[i] <= '9',
{
    lemma_decimal_digits(register_of(t) as nat);
}

/// How the state of a fresh register is written: `U` where it holds
/// nothing, `M` and its physical register where it holds one, `D` where it
/// is dropped.
pub open spec fn state_text(state: RegisterState) -> Seq<char> {
    match state {
        RegisterState::Unassigned => seq!['U'],
        RegisterState::Assigned(reg) => seq!['M'] + register_text(reg),
        RegisterState::Dropped => seq!['D'],
    }
}

/// The states `mapping[from..]`, each written as two spaces, the number of
/// the fresh register, a colon, a space, the state, a comma and a space.
pub open spec fn states_text(mapping: Seq<RegisterState>, from: int) -> Seq<char>
    decreases mapping.len() - from,
{
    if from >= mapping.len() || from < 0 {
        Seq::empty()
    } else {
        seq![' ', ' '] + decimal(from as nat) + seq![':', ' '] + state_text(mapping[from]) + seq![
            ',',
            ' ',
        ] + states_text(mapping, from + 1)
    }
}

/// A mapping as text: a heading and the states of all fresh registers in
/// square brackets.
pub open spec fn mapping_text(mapping: Seq<RegisterState>) -> Seq<char> {
    "Register Mapping: ["@ + states_text(mapping, 0) + seq![']']
}

impl XReg {
    /// The fresh register as it is written before allocation: `x` and its
    /// number.
    pub fn to_string(&self) -> (s: String)
        ensures
            s@ == seq!['x'] + decimal(self.id() as nat),
    {
        self.to_typed_register().to_string()
    }
}

impl RegisterMapping {
    /// The mapping as text.
    pub fn to_string(&self) -> (s: String)
        ensures
            s@ == mapping_text(self@),
    {
        let mut s = String::from_str("Register Mapping: [");
        let ghost head = s@;
        let n = self.len();
        let mut i: usize = 0;
        while i < n
            invariant
                i <= n,
                n == self@.len(),
                s@ + states_text(self@, i as int) == head + states_text(self@, 0),
            decreases n - i,
        {
            let ghost before = s@;
            proof {
                reveal_strlit("  ");
                reveal_strlit(": ");
                reveal_strlit(", ");
                reveal_strlit("U");
                reveal_strlit("M");
                reveal_strlit("D");
            }
            s.append("  ");
            let number = decimal_string(i as u64);
            s.append(number.as_str());
            s.append(": ");
            match self.index(i as u64) {
                RegisterState::Unassigned => {
                    s.append("U");
                },
                RegisterState::Assigned(reg) => {
                    s.append("M");
                    let text = reg.to_string();
                    s.append(text.as_str());
                },
                RegisterState::Dropped => {
                    s.append("D");
                },
            }
            s.append(", ");
            assert(s@ + states_text(self@, i + 1) =~= before + states_text(self@, i as int));
            i += 1;
        }
        proof {
            reveal_strlit("]");
        }
        s.append("]");
        assert(s@ =~= mapping_text(self@));
        s
    }
}

} // verus!
