use vstd::prelude::*;

use crate::instruction::Instruction;

verus! {

/// Number of registers, `a` through `z`.
pub const REGISTER_COUNT: usize = 26;

/// Outcome of the last `CMP`: how its first register compared to its second.
#[derive(Clone, Copy, Debug, PartialEq, Eq, Structural)]
pub enum Comparison {
    Less,
    Equal,
    Greater,
}

/// Why execution stopped with a fault.
#[derive(Clone, Copy, Debug, PartialEq, Eq, Structural)]
pub enum ExecError {
    /// The result would be below zero (`SUB`, `DEC`).
    NegativeResult,
    /// The result would exceed 65535 (`ADD`, `MUL`, `INC`, `POW`).
    Overflow,
    /// `DIV` by a register holding zero.
    DivideByZero,
    /// A register operand of 26 or more.
    BadRegister,
    /// The instruction pointer left the instruction list.
    PcOutOfRange,
    /// The step budget ran out before `HALT`.
    StepLimit,
}

/// The register machine: 26 registers, the instruction pointer, whether it
/// has halted, and the outcome of the last comparison.
#[derive(Debug)]
pub struct Machine {
    pub regs: Vec<u16>,
    pub pc: usize,
    pub halted: bool,
    pub last_cmp: Option<Comparison>,
}

/// Mathematical form of a `Machine`.
pub struct MachineState {
    pub regs: Seq<u16>,
    pub pc: nat,
    pub halted: bool,
    pub last_cmp: Option<Comparison>,
}

impl View for Machine {
    type V = MachineState;

    open spec fn view(&self) -> MachineState {
        MachineState { regs: self.regs@, pc: self.pc as nat, halted: self.halted, last_cmp: self.last_cmp }
    }
}

/// `b` to the power `e`.
pub open spec fn power(b: int, e: nat) -> int
    decreases e,
{
    if e == 0 {
        1
    } else {
        power(b, (e - 1) as nat) * b
    }
}

pub open spec fn is_reg(r: u16) -> bool {
    (r as int) < REGISTER_COUNT as int
}

pub open spec fn compare(a: u16, b: u16) -> Comparison {
    if a < b {
        Comparison::Less
    } else if a == b {
        Comparison::Equal
    } else {
        Comparison::Greater
    }
}

/// State with register `r` set to `v` and the pointer moved to the next instruction.
pub open spec fn put(m: MachineState, r: u16, v: int) -> MachineState {
    MachineState { regs: m.regs.update(r as int, v as u16), pc: m.pc + 1, halted: m.halted, last_cmp: m.last_cmp }
}

pub open spec fn next(m: MachineState) -> MachineState {
    MachineState { pc: m.pc + 1, ..m }
}

/// Effect of one instruction: the new state and the value it prints, or a fault.
/// A result outside 0..=65535 is a fault, never wrapped.
pub open spec fn exec_spec(m: MachineState, ins: Instruction) -> Result<(MachineState, Option<u16>), ExecError> {
    let r = m.regs;
    match ins {
        Instruction::ADD(d, s) => if !is_reg(d) || !is_reg(s) {
            Err(ExecError::BadRegister)
        } else if r[d as int] + r[s as int] > 0xffff {
            Err(ExecError::Overflow)
        } else {
            Ok((put(m, d, r[d as int] + r[s as int]), None))
        },
        Instruction::SUB(d, s) => if !is_reg(d) || !is_reg(s) {
            Err(ExecError::BadRegister)
        } else if r[s as int] > r[d as int] {
            Err(ExecError::NegativeResult)
        } else {
            Ok((put(m, d, r[d as int] - r[s as int]), None))
        },
        Instruction::MUL(d, s) => if !is_reg(d) || !is_reg(s) {
            Err(ExecError::BadRegister)
        } else if r[d as int] * r[s as int] > 0xffff {
            Err(ExecError::Overflow)
        } else {
            Ok((put(m, d, r[d as int] * r[s as int]), None))
        },
        Instruction::DIV(d, s) => if !is_reg(d) || !is_reg(s) {
            Err(ExecError::BadRegister)
        } else if r[s as int] == 0 {
            Err(ExecError::DivideByZero)
        } else {
            Ok((put(m, d, (r[d as int] as int) / (r[s as int] as int)), None))
        },
        Instruction::MOV(d, v) => if !is_reg(d) {
            Err(ExecError::BadRegister)
        } else {
            Ok((put(m, d, v as int), None))
        },
        Instruction::MOVR(d, s) => if !is_reg(d) || !is_reg(s) {
            Err(ExecError::BadRegister)
        } else {
            Ok((put(m, d, r[s as int] as int), None))
        },
        Instruction::SWAP(a, b) => if !is_reg(a) || !is_reg(b) {
            Err(ExecError::BadRegister)
        } else {
            Ok((MachineState { regs: r.update(a as int, r[b as int]).update(b as int, r[a as int]), ..next(m) }, None))
        },
        Instruction::CLR(d) => if !is_reg(d) {
            Err(ExecError::BadRegister)
        } else {
            Ok((put(m, d, 0), None))
        },
        Instruction::DEC(d) => if !is_reg(d) {
            Err(ExecError::BadRegister)
        } else if r[d as int] == 0 {
            Err(ExecError::NegativeResult)
        } else {
            Ok((put(m, d, r[d as int] - 1), None))
        },
        Instruction::INC(d) => if !is_reg(d) {
            Err(ExecError::BadRegister)
        } else if r[d as int] == 0xffff {
            Err(ExecError::Overflow)
        } else {
            Ok((put(m, d, r[d as int] + 1), None))
        },
        Instruction::CMP(a, b) => if !is_reg(a) || !is_reg(b) {
            Err(ExecError::BadRegister)
        } else {
            Ok((MachineState { last_cmp: Some(compare(r[a as int], r[b as int])), ..next(m) }, None))
        },
        Instruction::POW(d, e) => if !is_reg(d) {
            Err(ExecError::BadRegister)
        } else if power(r[d as int] as int, e as nat) > 0xffff {
            Err(ExecError::Overflow)
        } else {
            Ok((put(m, d, power(r[d as int] as int, e as nat)), None))
        },
        Instruction::PRINT(d) => if !is_reg(d) {
            Err(ExecError::BadRegister)
        } else {
            Ok((next(m), Some(r[d as int])))
        },
        Instruction::JMP(t) => Ok((MachineState { pc: t as nat, ..m }, None)),
        Instruction::HALT => Ok((MachineState { halted: true, ..m }, None)),
    }
}

/// One fetch and execute: a fault when the pointer is past the list.
pub open spec fn fetch_step(m: MachineState, prog: Seq<Instruction>) -> Result<(MachineState, Option<u16>), ExecError> {
    if m.pc >= prog.len() {
        Err(ExecError::PcOutOfRange)
    } else {
        exec_spec(m, prog[m.pc as int])
    }
}

pub open spec fn out_seq(o: Option<u16>) -> Seq<u16> {
    match o {
        Some(v) => seq![v],
        None => seq![],
    }
}

/// Running for at most `fuel` steps: the final state, the printed values
/// in order, and the fault that stopped the run, if any. A halted machine
/// stays as it is; running out of steps before `HALT` is a fault.
pub open spec fn run_spec(m: MachineState, prog: Seq<Instruction>, fuel: nat) -> (MachineState, Seq<u16>, Option<ExecError>)
    decreases fuel,
{
    if m.halted {
        (m, seq![], None)
    } else if fuel == 0 {
        (m, seq![], Some(ExecError::StepLimit))
    } else {
        match fetch_step(m, prog) {
            Err(e) => (m, seq![], Some(e)),
            Ok((m2, o)) => {
                let t = run_spec(m2, prog, (fuel - 1) as nat);
                (t.0, out_seq(o) + t.1, t.2)
            },
        }
    }
}

/// `SUB d, s` with register `s` above register `d` is a negative-number
/// fault, whatever the rest of the state; `execute` then leaves the
/// machine unchanged.
pub proof fn lemma_sub_below_zero_fails(m: MachineState, d: u16, s: u16)
    requires
        m.regs.len() == REGISTER_COUNT,
        is_reg(d),
        is_reg(s),
        m.regs[s as int] > m.regs[d as int],
    ensures
        exec_spec(m, Instruction::SUB(d, s)) == Err::<(MachineState, Option<u16>), ExecError>(ExecError::NegativeResult),
{
}

proof fn lemma_power_pos(b: int, e: nat)
    requires
        b >= 1,
    ensures
        power(b, e) >= 1,
    decreases e,
{
    if e > 0 {
        lemma_power_pos(b, (e - 1) as nat);
        let p = power(b, (e - 1) as nat);
        assert(p * b >= 1) by (nonlinear_arith)
            requires p >= 1, b >= 1;
    }
}

proof fn lemma_power_grows(b: int, k: nat, e: nat)
    requires
        b >= 1,
        k <= e,
    ensures
        power(b, e) >= power(b, k),
    decreases e,
{
    if e > k {
        lemma_power_grows(b, k, (e - 1) as nat);
        lemma_power_pos(b, (e - 1) as nat);
        let p = power(b, (e - 1) as nat);
        assert(p * b >= p) by (nonlinear_arith)
            requires p >= 1, b >= 1;
    }
}

proof fn lemma_power_small(b: int, e: nat)
    requires
        b == 0 || b == 1,
    ensures
        power(b, e) == if b == 0 && e > 0 { 0int } else { 1int },
    decreases e,
{
    if e > 0 {
        lemma_power_small(b, (e - 1) as nat);
    }
}

/// `b` to the power `e` when that fits in 16 bits.
pub fn checked_power(b: u16, e: u32) -> (r: Option<u16>)
    ensures
        r == if power(b as int, e as nat) <= 0xffff {
            Some(power(b as int, e as nat) as u16)
        } else {
            None::<u16>
        },
{
    if b <= 1 {
        proof {
            lemma_power_small(b as int, e as nat);
        }
        if b == 0 && e > 0 {
            return Some(0);
        } else {
            return Some(1);
        }
    }
    let mut acc: u32 = 1;
    let mut k: u32 = 0;
    while k < e
        invariant
            2 <= b,
            k <= e,
            acc as int == power(b as int, k as nat),
            acc <= 0xffff,
        decreases e - k,
    {
        assert(acc * (b as u32) <= 0xffff * 0xffff) by (nonlinear_arith)
            requires acc <= 0xffff, b <= 0xffff;
        let nxt: u32 = acc * (b as u32);
        if nxt > 0xffff {
            proof {
                lemma_power_grows(b as int, (k + 1) as nat, e as nat);
            }
            return None;
        }
        acc = nxt;
        k += 1;
    }
    Some(acc as u16)
}

impl Machine {
    /// The machine has exactly 26 registers.
    pub open spec fn wf(&self) -> bool {
        self.regs@.len() == REGISTER_COUNT
    }

    /// A machine with all registers zero, at the first instruction.
    pub fn new() -> (m: Machine)
        ensures
            m.wf(),
            m@.regs == Seq::new(REGISTER_COUNT as nat, |i: int| 0u16),
            m@.pc == 0,
            !m@.halted,
            m@.last_cmp is None,
    {
        let mut regs: Vec<u16> = Vec::new();
        let mut i: usize = 0;
        while i < REGISTER_COUNT
            invariant
                i <= REGISTER_COUNT,
                regs@ == Seq::new(i as nat, |j: int| 0u16),
            decreases REGISTER_COUNT - i,
        {
            regs.push(0);
            i += 1;
            assert(regs@ =~= Seq::new(i as nat, |j: int| 0u16));
        }
        Machine { regs, pc: 0, halted: false, last_cmp: None }
    }

    /// Value of register `r`.
    pub fn register(&self, r: usize) -> (v: u16)
        requires
            self.wf(),
            r < REGISTER_COUNT,
        ensures
            v == self@.regs[r as int],
    {
        self.regs[r]
    }

    fn set_and_advance(&mut self, d: u16, v: u16)
        requires
            old(self).wf(),
            is_reg(d),
            old(self).pc < usize::MAX,
        ensures
            final(self).wf(),
            final(self)@ == put(old(self)@, d, v as int),
    {
        self.regs.set(d as usize, v);
        self.pc = self.pc + 1;
    }

    /// Executes one instruction. On success returns the value that it
    /// prints, if any; on a fault the machine is left as it was.
    pub fn execute(&mut self, ins: Instruction) -> (r: Result<Option<u16>, ExecError>)
        requires
            old(self).wf(),
            old(self).pc < usize::MAX,
        ensures
            final(self).wf(),
            match r {
                Ok(out) => exec_spec(old(self)@, ins) == Ok::<(MachineState, Option<u16>), ExecError>((final(self)@, out)),
                Err(e) => exec_spec(old(self)@, ins) == Err::<(MachineState, Option<u16>), ExecError>(e) && *final(self) == *old(self),
            },
    {
        let n: u16 = REGISTER_COUNT as u16;
        match ins {
            Instruction::ADD(d, s) => {
                if d >= n || s >= n {
                    return Err(ExecError::BadRegister);
                }
                let a = self.regs[d as usize];
                let b = self.regs[s as usize];
                if a as u32 + b as u32 > 0xffff {
                    return Err(ExecError::Overflow);
                }
                self.set_and_advance(d, a + b);
                Ok(None)
            },
            Instruction::SUB(d, s) => {
                if d >= n || s >= n {
                    return Err(ExecError::BadRegister);
                }
                let a = self.regs[d as usize];
                let b = self.regs[s as usize];
                if b > a {
                    return Err(ExecError::NegativeResult);
                }
                self.set_and_advance(d, a - b);
                Ok(None)
            },
            Instruction::MUL(d, s) => {
                if d >= n || s >= n {
                    return Err(ExecError::BadRegister);
                }
                let a = self.regs[d as usize];
                let b = self.regs[s as usize];
                assert(a as u32 * b as u32 <= 0xffff * 0xffff) by (nonlinear_arith)
                    requires a <= 0xffff, b <= 0xffff;
                if a as u32 * b as u32 > 0xffff {
                    return Err(ExecError::Overflow);
                }
                self.set_and_advance(d, a * b);
                Ok(None)
            },
            Instruction::DIV(d, s) => {
                if d >= n || s >= n {
                    return Err(ExecError::BadRegister);
                }
                let a = self.regs[d as usize];
                let b = self.regs[s as usize];
                if b == 0 {
                    return Err(ExecError::DivideByZero);
                }
                self.set_and_advance(d, a / b);
                Ok(None)
            },
            Instruction::MOV(d, v) => {
                if d >= n {
                    return Err(ExecError::BadRegister);
                }
                self.set_and_advance(d, v);
                Ok(None)
            },
            Instruction::MOVR(d, s) => {
                if d >= n || s >= n {
                    return Err(ExecError::BadRegister);
                }
                let b = self.regs[s as usize];
                self.set_and_advance(d, b);
                Ok(None)
            },
            Instruction::SWAP(a, b) => {
                if a >= n || b >= n {
                    return Err(ExecError::BadRegister);
                }
                let x = self.regs[a as usize];
                let y = self.regs[b as usize];
                self.regs.set(a as usize, y);
                self.regs.set(b as usize, x);
                self.pc = self.pc + 1;
                Ok(None)
            },
            Instruction::CLR(d) => {
                if d >= n {
                    return Err(ExecError::BadRegister);
                }
                self.set_and_advance(d, 0);
                Ok(None)
            },
            Instruction::DEC(d) => {
                if d >= n {
                    return Err(ExecError::BadRegister);
                }
                let a = self.regs[d as usize];
                if a == 0 {
                    return Err(ExecError::NegativeResult);
                }
                self.set_and_advance(d, a - 1);
                Ok(None)
            },
            Instruction::INC(d) => {
                if d >= n {
                    return Err(ExecError::BadRegister);
                }
                let a = self.regs[d as usize];
                if a == 0xffff {
                    return Err(ExecError::Overflow);
                }
                self.set_and_advance(d, a + 1);
                Ok(None)
            },
            Instruction::CMP(a, b) => {
                if a >= n || b >= n {
                    return Err(ExecError::BadRegister);
                }
                let x = self.regs[a as usize];
                let y = self.regs[b as usize];
                let c = if x < y {
                    Comparison::Less
                } else if x == y {
                    Comparison::Equal
                } else {
                    Comparison::Greater
                };
                self.last_cmp = Some(c);
                self.pc = self.pc + 1;
                Ok(None)
            },
            Instruction::POW(d, e) => {
                if d >= n {
                    return Err(ExecError::BadRegister);
                }
                let a = self.regs[d as usize];
                match checked_power(a, e) {
                    Some(v) => {
                        self.set_and_advance(d, v);
                        Ok(None)
                    },
                    None => Err(ExecError::Overflow),
                }
            },
            Instruction::PRINT(d) => {
                if d >= n {
                    return Err(ExecError::BadRegister);
                }
                let v = self.regs[d as usize];
                self.pc = self.pc + 1;
                Ok(Some(v))
            },
            Instruction::JMP(t) => {
                self.pc = t as usize;
                Ok(None)
            },
            Instruction::HALT => {
                self.halted = true;
                Ok(None)
            },
        }
    }

    /// Runs `program` from the current state until `HALT`, a fault, or
    /// `fuel` steps, appending each printed value to `out`.
    pub fn run(&mut self, program: &Vec<Instruction>, fuel: usize, out: &mut Vec<u16>) -> (r: Result<(), ExecError>)
        requires
            old(self).wf(),
        ensures
            final(self).wf(),
            ({
                let t = run_spec(old(self)@, program@, fuel as nat);
                &&& final(self)@ == t.0
                &&& final(out)@ == old(out)@ + t.1
                &&& match r {
                    Ok(()) => t.2 is None,
                    Err(e) => t.2 == Some(e),
                }
            }),
    {
        let ghost m0 = self@;
        let ghost out0 = out@;
        let ghost mut printed: Seq<u16> = seq![];
        let mut left: usize = fuel;
        while !self.halted
            invariant
                self.wf(),
                m0 == old(self)@,
                out0 == old(out)@,
                left <= fuel,
                out@ == out0 + printed,
                ({
                    let t = run_spec(self@, program@, left as nat);
                    run_spec(m0, program@, fuel as nat) == (t.0, printed + t.1, t.2)
                }),
            decreases left,
        {
            if left == 0 {
                assert(printed + seq![] =~= printed);
                return Err(ExecError::StepLimit);
            }
            if self.pc >= program.len() {
                assert(printed + seq![] =~= printed);
                return Err(ExecError::PcOutOfRange);
            }
            let ins = program[self.pc];
            let ghost before = self@;
            match self.execute(ins) {
                Err(e) => {
                    assert(printed + seq![] =~= printed);
                    return Err(e);
                },
                Ok(o) => {
                    let ghost t = run_spec(self@, program@, (left - 1) as nat);
                    assert(run_spec(before, program@, left as nat) == (t.0, out_seq(o) + t.1, t.2));
                    assert(printed + (out_seq(o) + t.1) =~= (printed + out_seq(o)) + t.1);
                    match o {
                        Some(v) => {
                            out.push(v);
                            proof {
                                printed = printed + seq![v];
                            }
                        },
                        None => {
                            proof {
                                printed = printed + seq![];
                            }
                        },
                    }
                    assert(out@ =~= out0 + printed);
                },
            }
            left = left - 1;
        }
        assert(printed + seq![] =~= printed);
        Ok(())
    }
}

} // verus!
