use vstd::prelude::*;

verus! {

/// One decoded instruction of the register machine.
///
/// Two-operand forms carry `(dest, src)`; `MOV` carries an immediate value,
/// `MOVR` a source register, `JMP` a target index in the instruction list.
#[allow(non_camel_case_types)]
#[derive(Clone, Copy, Debug, PartialEq, Eq, Structural)]
pub enum Instruction {
    ADD(u16, u16),
    SUB(u16, u16),
    MUL(u16, u16),
    DIV(u16, u16),
    MOV(u16, u16),
    MOVR(u16, u16),
    SWAP(u16, u16),
    CLR(u16),
    DEC(u16),
    INC(u16),
    CMP(u16, u16),
    POW(u16, u32),
    PRINT(u16),
    JMP(u16),
    HALT,
}

} // verus!
