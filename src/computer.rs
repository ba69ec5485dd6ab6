use vstd::prelude::*;
use vstd::arithmetic::power2::pow2;
use vstd::bits::lemma_u64_shr_is_div;

verus! {

/// An operand of the three-bit computer.
#[derive(Clone, Copy, Debug, PartialEq, Eq, Structural)]
pub enum Operand {
    Literal(u8),
    RegA,
    RegB,
    RegC,
    Invalid,
}

/// The operand that the three-bit value `op` denotes.
pub open spec fn operand_of(op: u8) -> Operand {
    if op <= 3 {
        Operand::Literal(op)
    } else if op == 4 {
        Operand::RegA
    } else if op == 5 {
        Operand::RegB
    } else if op == 6 {
        Operand::RegC
    } else {
        Operand::Invalid
    }
}

impl Operand {
    /// The three-bit value that the operand was read from.
    pub open spec fn literal(self) -> u8 {
        match self {
            Operand::Literal(u) => u,
            Operand::RegA => 4,
            Operand::RegB => 5,
            Operand::RegC => 6,
            Operand::Invalid => 7,
        }
    }

    pub fn new(op: u8) -> (r: Operand)
        requires
            op <= 7,
        ensures
            r == operand_of(op),
    {
        if op <= 3 {
            Operand::Literal(op)
        } else if op == 4 {
            Operand::RegA
        } else if op == 5 {
            Operand::RegB
        } else if op == 6 {
            Operand::RegC
        } else {
            Operand::Invalid
        }
    }

    pub fn literal_value(self) -> (r: u8)
        ensures
            r == self.literal(),
    {
        match self {
            Operand::Literal(u) => u,
            Operand::RegA => 4,
            Operand::RegB => 5,
            Operand::RegC => 6,
            Operand::Invalid => 7,
        }
    }
}

/// An instruction of the three-bit computer.
#[derive(Clone, Copy, Debug, PartialEq, Eq, Structural)]
pub enum Opcode {
    Adv,
    Bxl,
    Bst,
    Jnz,
    Bxc,
    Out,
    Bdv,
    Cdv,
}

/// The instruction that the three-bit value `op` denotes.
pub open spec fn opcode_of(op: u8) -> Opcode {
    if op == 0 {
        Opcode::Adv
    } else if op == 1 {
        Opcode::Bxl
    } else if op == 2 {
        Opcode::Bst
    } else if op == 3 {
        Opcode::Jnz
    } else if op == 4 {
        Opcode::Bxc
    } else if op == 5 {
        Opcode::Out
    } else if op == 6 {
        Opcode::Bdv
    } else {
        Opcode::Cdv
    }
}

impl Opcode {
    pub fn new(op: u8) -> (r: Opcode)
        requires
            op <= 7,
        ensures
            r == opcode_of(op),
    {
        match op {
            0 => Opcode::Adv,
            1 => Opcode::Bxl,
            2 => Opcode::Bst,
            3 => Opcode::Jnz,
            4 => Opcode::Bxc,
            5 => Opcode::Out,
            6 => Opcode::Bdv,
            _ => Opcode::Cdv,
        }
    }
}

/// The three-bit computer: three registers, an instruction pointer counting
/// instructions (pairs of program values), its program and what it has output.
pub struct Cpu {
    pub reg_a: u64,
    pub reg_b: u64,
    pub reg_c: u64,
    pub ip: usize,
    pub prog: Vec<(Opcode, Operand)>,
    pub output: Vec<u8>,
}

/// The register state of the computer.
pub struct Regs {
    pub a: u64,
    pub b: u64,
    pub c: u64,
    pub ip: int,
}

/// `a` divided by two to the power `c` (0 once `c` reaches 64).
pub open spec fn div_pow2(a: u64, c: u64) -> u64 {
    if c >= 64 {
        0
    } else {
        (a as nat / pow2(c as nat)) as u64
    }
}

/// The value of a combo operand: a literal, a register, or the largest `u64`
/// for the reserved operand.
pub open spec fn combo(r: Regs, o: Operand) -> u64 {
    match o {
        Operand::Literal(u) => u as u64,
        Operand::RegA => r.a,
        Operand::RegB => r.b,
        Operand::RegC => r.c,
        Operand::Invalid => u64::MAX,
    }
}

/// The registers after one instruction, and what it outputs.
pub open spec fn step(r: Regs, ins: (Opcode, Operand)) -> (Regs, Option<u8>) {
    let v = combo(r, ins.1);
    let lit = ins.1.literal();
    let next = r.ip + 1;
    match ins.0 {
        Opcode::Adv => (Regs { a: div_pow2(r.a, v), ip: next, ..r }, None),
        Opcode::Bxl => (Regs { b: r.b ^ (lit as u64), ip: next, ..r }, None),
        Opcode::Bst => (Regs { b: v % 8, ip: next, ..r }, None),
        Opcode::Jnz => (Regs { ip: if r.a == 0 { next } else { lit as int / 2 }, ..r }, None),
        Opcode::Bxc => (Regs { b: r.b ^ r.c, ip: next, ..r }, None),
        Opcode::Out => (Regs { ip: next, ..r }, Some((v % 8) as u8)),
        Opcode::Bdv => (Regs { b: div_pow2(r.a, v), ip: next, ..r }, None),
        Opcode::Cdv => (Regs { c: div_pow2(r.a, v), ip: next, ..r }, None),
    }
}

/// The registers of `cpu`.
pub open spec fn regs(cpu: &Cpu) -> Regs {
    Regs { a: cpu.reg_a, b: cpu.reg_b, c: cpu.reg_c, ip: cpu.ip as int }
}

/// The program read from three-bit values, two to an instruction.
pub open spec fn decoded(prog: Seq<u8>) -> Seq<(Opcode, Operand)> {
    Seq::new(prog.len() / 2, |i: int| (opcode_of(prog[2 * i]), operand_of(prog[2 * i + 1])))
}

/// What the program outputs from register state `r` until the instruction
/// pointer leaves it, if that happens within `fuel` instructions.
pub open spec fn outputs(r: Regs, prog: Seq<(Opcode, Operand)>, fuel: nat) -> Option<Seq<u8>>
    decreases fuel,
{
    if r.ip < 0 || r.ip >= prog.len() {
        Some(Seq::empty())
    } else if fuel == 0 {
        None
    } else {
        let (r2, o) = step(r, prog[r.ip]);
        match outputs(r2, prog, (fuel - 1) as nat) {
            None => None,
            Some(rest) => Some(
                match o {
                    Some(v) => seq![v] + rest,
                    None => rest,
                },
            ),
        }
    }
}

fn shift_div(a: u64, c: u64) -> (r: u64)
    ensures
        r == div_pow2(a, c),
{
    if c >= 64 {
        0
    } else {
        proof {
            lemma_u64_shr_is_div(a, c);
        }
        a >> c
    }
}

impl Cpu {
    pub fn new(a: u64, b: u64, c: u64, prog: Vec<u8>) -> (r: Cpu)
        requires
            prog.len() % 2 == 0,
            forall|i: int| 0 <= i < prog.len() ==> #[trigger] prog@[i] <= 7,
        ensures
            r.reg_a == a,
            r.reg_b == b,
            r.reg_c == c,
            r.ip == 0,
            r.prog@ == decoded(prog@),
            r.output@ == Seq::<u8>::empty(),
    {
        let mut p: Vec<(Opcode, Operand)> = Vec::new();
        let mut i: usize = 0;
        while i < prog.len()
            invariant
                prog.len() % 2 == 0,
                forall|k: int| 0 <= k < prog.len() ==> #[trigger] prog@[k] <= 7,
                i % 2 == 0,
                i <= prog.len(),
                p@ =~= decoded(prog@.subrange(0, i as int)),
                p@.len() == i / 2,
            decreases prog.len() - i,
        {
            p.push((Opcode::new(prog[i]), Operand::new(prog[i + 1])));
            i = i + 2;
            assert(p@ =~= decoded(prog@.subrange(0, i as int)));
        }
        assert(prog@.subrange(0, i as int) =~= prog@);
        Cpu { reg_a: a, reg_b: b, reg_c: c, ip: 0, prog: p, output: Vec::new() }
    }

    /// Runs the program until the instruction pointer leaves it, for at most
    /// `max_steps` instructions, and returns everything output (its values
    /// joined by commas are the program's answer); `None` if it is still
    /// running after that many.
    pub fn run(&mut self, max_steps: u64) -> (r: Option<Vec<u8>>)
        requires
            old(self).ip < old(self).prog@.len(),
            old(self).output@.len() == 0,
        ensures
            r matches Some(v) ==> outputs(regs(old(self)), old(self).prog@, max_steps as nat) == Some(v@),
            r is None ==> outputs(regs(old(self)), old(self).prog@, max_steps as nat) is None,
    {
        let mut fuel = max_steps;
        proof {
            match outputs(regs(self), self.prog@, fuel as nat) {
                None => {},
                Some(rest) => {
                    assert(self.output@ + rest =~= rest);
                },
            }
        }
        loop
            invariant
                self.prog == old(self).prog,
                self.ip < self.prog@.len(),
                outputs(regs(old(self)), old(self).prog@, max_steps as nat) == match outputs(regs(self), self.prog@, fuel as nat) {
                    None => None,
                    Some(rest) => Some(self.output@ + rest),
                },
            decreases fuel,
        {
            if fuel == 0 {
                return None;
            }
            let ghost before = regs(self);
            let ghost out_before = self.output@;
            let (output, halt) = self.execute_instr();
            fuel = fuel - 1;
            if let Some(out) = output {
                self.output.push(out);
                proof {
                    match outputs(regs(self), self.prog@, fuel as nat) {
                        None => {},
                        Some(rest) => {
                            assert(out_before + (seq![out] + rest) =~= self.output@ + rest);
                        },
                    }
                }
            }
            if halt {
                assert(outputs(regs(self), self.prog@, fuel as nat) == Some(Seq::<u8>::empty()));
                assert(self.output@ + Seq::<u8>::empty() =~= self.output@);
                let out = self.output.clone();
                assert(out@ =~= self.output@);
                return Some(out);
            }
        }
    }

    /// Runs the instruction at the instruction pointer; returns what it
    /// outputs and whether the pointer has left the program.
    pub fn execute_instr(&mut self) -> (r: (Option<u8>, bool))
        requires
            old(self).ip < old(self).prog@.len(),
        ensures
            regs(final(self)) == step(regs(old(self)), old(self).prog@[old(self).ip as int]).0,
            r.0 == step(regs(old(self)), old(self).prog@[old(self).ip as int]).1,
            r.1 == (final(self).ip >= final(self).prog@.len()),
            final(self).prog == old(self).prog,
            final(self).output == old(self).output,
    {
        let n = self.prog.len();
        let op = self.prog[self.ip];
        assert(self.ip < n);
        let next = self.ip + 1;
        let combo_operand_value = match op.1 {
            Operand::Literal(u) => u as u64,
            Operand::RegA => self.reg_a,
            Operand::RegB => self.reg_b,
            Operand::RegC => self.reg_c,
            Operand::Invalid => u64::MAX,
        };
        let literal_operand_value = op.1.literal_value();
        let mut output = None;
        match op.0 {
            Opcode::Adv => {
                self.reg_a = shift_div(self.reg_a, combo_operand_value);
                self.ip = next;
            },
            Opcode::Bxl => {
                self.reg_b = self.reg_b ^ (literal_operand_value as u64);
                self.ip = next;
            },
            Opcode::Bst => {
                self.reg_b = combo_operand_value % 8;
                self.ip = next;
            },
            Opcode::Jnz => {
                if self.reg_a == 0 {
                    self.ip = next;
                } else {
                    self.ip = (literal_operand_value / 2) as usize;
                }
            },
            Opcode::Bxc => {
                self.reg_b = self.reg_b ^ self.reg_c;
                self.ip = next;
            },
            Opcode::Out => {
                output = Some((combo_operand_value % 8) as u8);
                self.ip = next;
            },
            Opcode::Bdv => {
                self.reg_b = shift_div(self.reg_a, combo_operand_value);
                self.ip = next;
            },
            Opcode::Cdv => {
                self.reg_c = shift_div(self.reg_a, combo_operand_value);
                self.ip = next;
            },
        }
        (output, self.ip >= self.prog.len())
    }
}

} // verus!
