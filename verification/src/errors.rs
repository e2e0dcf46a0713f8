use vstd::prelude::*;

verus! {

/// Reasons a textual assembly program is rejected by the assembler.
#[derive(Debug, Clone, Copy, PartialEq, Eq, Structural)]
pub enum AsmError {
    /// A register operand does not start with `r`/`R`, or its number is not 0..=7.
    BadRegister,
    /// An immediate operand is not a decimal or hexadecimal number in range,
    /// and is not a known label, or a label address does not fit in 8 bits.
    BadImmediate,
    /// The address of a `.data` directive is not a valid hexadecimal number.
    BadDataAddress,
    /// A value inside a data section is not a valid 16-bit hexadecimal number.
    BadDataValue,
    /// The mnemonic is not one of the recognised instructions.
    UnknownInstruction,
    /// An instruction has the wrong number of operands.
    WrongArity,
    /// A `.data` directive does not have exactly one address argument.
    BadDirective,
    /// A data word is placed at an odd byte address.
    MisalignedData { addr: usize },
    /// A data word overlaps the encoded instruction stream.
    DataOverlap { addr: usize },
    /// The assembled image does not fit into the 64 KiB memory.
    ImageTooLarge,
}

/// The way an execution trace diverged from the expected checkpoints.
#[derive(Debug, Clone, Copy, PartialEq, Eq, Structural)]
pub enum CheckpointFault {
    /// At checkpoint `index` the program counter differed.
    Pc { index: usize, expected: u64, actual: u64 },
    /// At checkpoint `index`, taken at program counter `pc`, register
    /// `register` differed.
    Register { index: usize, register: usize, pc: u64, expected: u64, actual: u64 },
    /// The run consumed fewer checkpoints than the expected trace holds.
    Count { consumed: usize, expected: usize },
}

/// Failures of netlist loading, simulation and result verification.
#[derive(Debug, Clone, Copy, PartialEq, Eq, Structural)]
pub enum SimError {
    /// The circuit description is missing a module, cell or signal, or one of
    /// them is malformed; also used when a signal that the harness must drive
    /// is a constant tie-off.
    NetlistFormat,
    /// A required signal's bit vector does not have the width the caller needs.
    SignalWidth { expected: usize, actual: usize },
    /// A node id exceeds the largest state array this simulator allocates.
    IndexOutOfRange { node: usize },
    /// A node byte is neither 0x00 nor 0xFF: an internal invariant violation.
    NonBooleanState { node: usize },
    /// The network did not reach a fixed point within the sweep bound.
    SettlementDivergence,
    /// The execution did not match the expected checkpoint trace.
    CheckpointMismatch { fault: CheckpointFault },
    /// A final memory byte does not match the expected snapshot.
    MemoryMismatch { addr: usize, expected: u8, actual: u8 },
    /// The program text could not be assembled.
    Assembly { error: AsmError },
}

} // verus!
