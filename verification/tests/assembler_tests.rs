use nandsim::assembler::assemble;
use nandsim::errors::AsmError;

#[test]
fn encodes_arithmetic_program() {
    // LOADI imm<<8 | dest<<4 | 8; ADD src<<8 | dest<<4 | 1; STORE src<<8 | addr<<4 | 9.
    let program = "\
        LOADI r0 10
        LOADI r1 5
        ADD r0 r1
        LOADI r2 0
        STORE r2 r0
    ";
    let words = assemble(program).unwrap();
    assert_eq!(words, vec![0x0A08, 0x0518, 0x0101, 0x0028, 0x0029]);
}

#[test]
fn encodes_every_opcode() {
    let words = assemble(
        "NOP\nADD r1 r2\nADDI r1 7\nNAND r1 r2\nLOADI r3 1\nSTORE r4 r5\nLOAD r6 r7\nJZ r1 4\nGT r1 r2 r3\nFLAG\nHLT",
    )
    .unwrap();
    assert_eq!(
        words,
        vec![
            0x0000, 0x0211, 0x0714, 0x0216, 0x0138, 0x0549, 0x076B, 0x041C, 0x3217, 0x000E,
            0x000F,
        ]
    );
}

#[test]
fn loadw_takes_two_words() {
    let words = assemble("LOADW r0 0x1234\nLOADW r1 1000").unwrap();
    assert_eq!(words, vec![0x000D, 0x1234, 0x001D, 1000]);
}

#[test]
fn comments_whitespace_and_case() {
    let words = assemble("  loadi R0 42 ; set it\n\n   \n\tnop ; nothing\n").unwrap();
    assert_eq!(words, vec![0x2A08, 0x0000]);
}

#[test]
fn hex_and_decimal_immediates() {
    let words = assemble("LOADI r0 0x10\nLOADI r1 16").unwrap();
    assert_eq!(words, vec![0x1008, 0x1018]);
}

#[test]
fn labels_resolve_forward_and_backward() {
    let program = "\
        LOADI r0 0
        JZ r0 skip
        LOADI r1 42
skip:
        LOADI r1 123
        LOADI r0 1
        JZ r0 skip
        LOADI r2 skip
    ";
    let words = assemble(program).unwrap();
    // skip names byte address 6; JZ encodes addr<<8 | reg<<4 | 12.
    assert_eq!(
        words,
        vec![0x0008, 0x060C, 0x2A18, 0x7B18, 0x0108, 0x060C, 0x0628]
    );
}

#[test]
fn data_section_places_words() {
    let program = "\
        LOADI r1 0x10
        LOAD r0 r1

        .data 0x10
        0xAB

        .text
        LOADI r2 0
        STORE r2 r0
    ";
    let words = assemble(program).unwrap();
    assert_eq!(
        words,
        vec![0x1018, 0x010B, 0x0028, 0x0029, 0, 0, 0, 0, 0x00AB]
    );
}

#[test]
fn bad_register_is_rejected() {
    assert_eq!(assemble("ADD r9 r1"), Err(AsmError::BadRegister));
    assert_eq!(assemble("ADD x1 r1"), Err(AsmError::BadRegister));
    assert_eq!(assemble("ADD r r1"), Err(AsmError::BadRegister));
}

#[test]
fn bad_immediate_is_rejected() {
    assert_eq!(assemble("LOADI r0 300"), Err(AsmError::BadImmediate));
    assert_eq!(assemble("LOADI r0 nolabel"), Err(AsmError::BadImmediate));
    assert_eq!(assemble("LOADI r0 0xZZ"), Err(AsmError::BadImmediate));
    assert_eq!(assemble("LOADW r0 70000"), Err(AsmError::BadImmediate));
}

#[test]
fn bad_data_directive_and_values() {
    assert_eq!(assemble(".data"), Err(AsmError::BadDirective));
    assert_eq!(assemble(".data zz"), Err(AsmError::BadDataAddress));
    assert_eq!(assemble(".data 0x10\nzz"), Err(AsmError::BadDataValue));
}

#[test]
fn unknown_and_misshapen_instructions() {
    assert_eq!(assemble("FROB r1"), Err(AsmError::UnknownInstruction));
    assert_eq!(assemble("ADD r1"), Err(AsmError::WrongArity));
    assert_eq!(assemble("NOP r1"), Err(AsmError::WrongArity));
    assert_eq!(assemble("GT r1 r2"), Err(AsmError::WrongArity));
}

#[test]
fn misaligned_data_is_rejected() {
    assert_eq!(
        assemble(".data 0x11\n5"),
        Err(AsmError::MisalignedData { addr: 0x11 })
    );
}

#[test]
fn overlapping_data_is_rejected() {
    assert_eq!(
        assemble("NOP\n.data 0x0\n5"),
        Err(AsmError::DataOverlap { addr: 0 })
    );
}

#[test]
fn oversized_data_is_rejected() {
    assert_eq!(
        assemble(".data 0xFFFE\n1\n1"),
        Err(AsmError::ImageTooLarge)
    );
}

#[test]
fn label_address_must_fit_an_immediate() {
    // Push a label past byte address 255, then use it as an 8-bit operand.
    let mut program = String::new();
    for _ in 0..130 {
        program.push_str("NOP\n");
    }
    program.push_str("far:\nJZ r0 far\n");
    assert_eq!(assemble(&program), Err(AsmError::BadImmediate));
}

#[test]
fn empty_program_is_empty_image() {
    assert_eq!(assemble(""), Ok(vec![]));
    assert_eq!(assemble("  \n ; only a comment\n"), Ok(vec![]));
}

#[test]
fn assembles_fibonacci_program() {
    let program = "\
        ; Initialize registers
        LOADI r0 0      ; First number (0)
        LOADI r1 1      ; Second number (1)
        LOADI r2 0x80   ; Base address

        STORE r2 r0

        LOADI r3 2
        ADD r2 r3

        STORE r2 r1

start:
        ADD r1 r0
        LOAD r0 r2

        LOADI r3 2
        ADD r2 r3

        STORE r2 r1

        LOADI r3 0xc0
        GT r3 r3 r2

        JZ r3 end

        LOADI r3 0
        JZ r3 start
end:
    ";
    let words = assemble(program).unwrap();
    assert_eq!(words.len(), 17);
    assert_eq!(words[0], 0x0008); // LOADI r0 0
    assert_eq!(words[2], 0x8028); // LOADI r2 0x80
    assert_eq!(words[7], 0x0011); // ADD r1 r0 at the start label (byte 14)
    assert_eq!(words[14], 0x223C); // JZ r3 end -> byte address 34
    assert_eq!(words[16], 0x0E3C); // JZ r3 start -> byte address 14
}
