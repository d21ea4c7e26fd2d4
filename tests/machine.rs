use mini_asm::instruction::Instruction;
use mini_asm::machine::{checked_power, Comparison, ExecError, Machine};
use mini_asm::program::parse_file;

fn with(regs: &[(usize, u16)]) -> Machine {
    let mut m = Machine::new();
    for &(r, v) in regs {
        m.regs[r] = v;
    }
    m
}

#[test]
fn sub_below_zero_fails_and_keeps_registers() {
    let mut m = with(&[(1, 3), (2, 5)]);
    assert_eq!(m.execute(Instruction::SUB(1, 2)), Err(ExecError::NegativeResult));
    assert_eq!(m.register(1), 3);
    assert_eq!(m.register(2), 5);
    assert_eq!(m.pc, 0);
}

#[test]
fn sub_within_range() {
    let mut m = with(&[(1, 5), (2, 3)]);
    assert_eq!(m.execute(Instruction::SUB(1, 2)), Ok(None));
    assert_eq!(m.register(1), 2);
    assert_eq!(m.pc, 1);
}

#[test]
fn arithmetic_results() {
    let mut m = with(&[(0, 7), (1, 3)]);
    m.execute(Instruction::ADD(0, 1)).unwrap();
    assert_eq!(m.register(0), 10);
    m.execute(Instruction::MUL(0, 1)).unwrap();
    assert_eq!(m.register(0), 30);
    m.execute(Instruction::DIV(0, 1)).unwrap();
    assert_eq!(m.register(0), 10);
    m.execute(Instruction::INC(0)).unwrap();
    m.execute(Instruction::DEC(1)).unwrap();
    assert_eq!((m.register(0), m.register(1)), (11, 2));
    m.execute(Instruction::POW(0, 2)).unwrap();
    assert_eq!(m.register(0), 121);
    m.execute(Instruction::SWAP(0, 1)).unwrap();
    assert_eq!((m.register(0), m.register(1)), (2, 121));
    m.execute(Instruction::MOVR(2, 1)).unwrap();
    assert_eq!(m.register(2), 121);
    m.execute(Instruction::CLR(2)).unwrap();
    assert_eq!(m.register(2), 0);
    assert_eq!(m.pc, 9);
}

#[test]
fn faults_of_each_kind() {
    let mut m = with(&[(0, 0xffff), (1, 2)]);
    assert_eq!(m.execute(Instruction::ADD(0, 1)), Err(ExecError::Overflow));
    assert_eq!(m.execute(Instruction::MUL(0, 1)), Err(ExecError::Overflow));
    assert_eq!(m.execute(Instruction::INC(0)), Err(ExecError::Overflow));
    assert_eq!(m.execute(Instruction::POW(1, 16)), Err(ExecError::Overflow));
    assert_eq!(m.execute(Instruction::DIV(0, 2)), Err(ExecError::DivideByZero));
    assert_eq!(m.execute(Instruction::DEC(2)), Err(ExecError::NegativeResult));
    assert_eq!(m.execute(Instruction::CLR(26)), Err(ExecError::BadRegister));
    assert_eq!(m.execute(Instruction::MOV(40, 1)), Err(ExecError::BadRegister));
    assert_eq!(m.register(0), 0xffff);
    assert_eq!(m.pc, 0);
}

#[test]
fn power_edges() {
    assert_eq!(checked_power(2, 10), Some(1024));
    assert_eq!(checked_power(2, 15), Some(32768));
    assert_eq!(checked_power(2, 16), None);
    assert_eq!(checked_power(0, 0), Some(1));
    assert_eq!(checked_power(0, 5), Some(0));
    assert_eq!(checked_power(1, 4_000_000_000), Some(1));
    assert_eq!(checked_power(255, 2), Some(65025));
    assert_eq!(checked_power(256, 2), None);
}

#[test]
fn compare_records_outcome() {
    let mut m = with(&[(0, 1), (1, 2)]);
    m.execute(Instruction::CMP(0, 1)).unwrap();
    assert_eq!(m.last_cmp, Some(Comparison::Less));
    m.execute(Instruction::CMP(1, 0)).unwrap();
    assert_eq!(m.last_cmp, Some(Comparison::Greater));
    m.execute(Instruction::CMP(1, 1)).unwrap();
    assert_eq!(m.last_cmp, Some(Comparison::Equal));
}

#[test]
fn run_prints_and_halts() {
    let p = parse_file("MOV a 6\nMOV b 7\nMUL a b\nPRINT a\nPRINT b".to_string()).unwrap();
    let mut m = Machine::new();
    let mut out = Vec::new();
    assert_eq!(m.run(&p.instructions, 100, &mut out), Ok(()));
    assert_eq!(out, vec![42, 7]);
    assert!(m.halted);
    assert_eq!(m.pc, 5);
}

#[test]
fn run_default_program() {
    let p = parse_file("MOV 1, 5\nMOV 2, 3\nADD 0, 1\nSUB 1, 2\nMUL 1, 2".to_string()).unwrap();
    let mut m = Machine::new();
    let mut out = Vec::new();
    assert_eq!(m.run(&p.instructions, 100, &mut out), Ok(()));
    assert_eq!(m.register(0), 0);
}

#[test]
fn run_stops_on_fault_with_earlier_output() {
    let p = parse_file("MOV b 2\nPRINT b\nSUB a b\nPRINT b".to_string()).unwrap();
    let mut m = Machine::new();
    let mut out = Vec::new();
    assert_eq!(m.run(&p.instructions, 100, &mut out), Err(ExecError::NegativeResult));
    assert_eq!(out, vec![2]);
    assert_eq!(m.pc, 2);
    assert_eq!(m.register(0), 0);
}

#[test]
fn run_loop_hits_step_limit() {
    let p = parse_file("INC a\nJMP 0".to_string()).unwrap();
    let mut m = Machine::new();
    let mut out = Vec::new();
    assert_eq!(m.run(&p.instructions, 10, &mut out), Err(ExecError::StepLimit));
    assert_eq!(m.register(0), 5);
}

#[test]
fn run_jump_out_of_range() {
    let p = parse_file("JMP 9".to_string()).unwrap();
    let mut m = Machine::new();
    let mut out = Vec::new();
    assert_eq!(m.run(&p.instructions, 10, &mut out), Err(ExecError::PcOutOfRange));
}
