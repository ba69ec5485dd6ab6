use aoc2024::computer::{Cpu, Opcode, Operand};

fn run(a: u64, b: u64, c: u64, prog: Vec<u8>) -> (Cpu, Vec<u8>) {
    let mut cpu = Cpu::new(a, b, c, prog);
    let out = cpu.run(1_000_000).unwrap();
    (cpu, out)
}

#[test]
fn example_program_output() {
    let (_, out) = run(729, 0, 0, vec![0, 1, 5, 4, 3, 0]);
    assert_eq!(out, vec![4, 6, 3, 5, 6, 3, 5, 2, 1, 0]);
}

#[test]
fn small_programs() {
    let (cpu, _) = run(0, 0, 9, vec![2, 6]);
    assert_eq!(cpu.reg_b, 1);
    let (_, out) = run(10, 0, 0, vec![5, 0, 5, 1, 5, 4]);
    assert_eq!(out, vec![0, 1, 2]);
    let (cpu, out) = run(2024, 0, 0, vec![0, 1, 5, 4, 3, 0]);
    assert_eq!(out, vec![4, 2, 5, 6, 7, 7, 7, 7, 3, 1, 0]);
    assert_eq!(cpu.reg_a, 0);
    let (cpu, _) = run(0, 29, 0, vec![1, 7]);
    assert_eq!(cpu.reg_b, 26);
    let (cpu, _) = run(0, 2024, 43690, vec![4, 0]);
    assert_eq!(cpu.reg_b, 44354);
}

#[test]
fn endless_program_runs_out_of_steps() {
    let mut cpu = Cpu::new(1, 0, 0, vec![3, 0]);
    assert_eq!(cpu.run(100), None);
}

#[test]
fn operands_and_opcodes_decode() {
    assert_eq!(Operand::new(2), Operand::Literal(2));
    assert_eq!(Operand::new(5), Operand::RegB);
    assert_eq!(Operand::new(7), Operand::Invalid);
    assert_eq!(Operand::RegC.literal_value(), 6);
    assert_eq!(Operand::Literal(3).literal_value(), 3);
    assert_eq!(Opcode::new(3), Opcode::Jnz);
    assert_eq!(Opcode::new(7), Opcode::Cdv);
}

#[test]
fn single_instruction_steps() {
    let mut cpu = Cpu::new(64, 0, 0, vec![0, 2, 5, 4]);
    assert_eq!(cpu.execute_instr(), (None, false));
    assert_eq!(cpu.reg_a, 16);
    assert_eq!(cpu.execute_instr(), (Some(0), true));
    let mut cpu = Cpu::new(u64::MAX, 0, 0, vec![6, 7]);
    assert_eq!(cpu.execute_instr(), (None, true));
    assert_eq!(cpu.reg_b, 0);
}
