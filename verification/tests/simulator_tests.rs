use nandsim::errors::{CheckpointFault, SimError};
use nandsim::netlist::{Gate, Netlist, Signal, SignalBit};
use nandsim::simulator::{
    new_memory, run_test_program, run_test_program_with_expectations,
    run_test_program_with_memory, Checkpoint, NODE_LIMIT,
};

fn tie_bits(v: u64, n: usize) -> Vec<SignalBit> {
    let mut bits = Vec::new();
    for i in 0..n {
        bits.push(SignalBit::Tie((v >> i) & 1 == 1));
    }
    bits
}

fn net_bits(from: usize, n: usize) -> Vec<SignalBit> {
    let mut bits = Vec::new();
    for i in 0..n {
        bits.push(SignalBit::Net(from + i));
    }
    bits
}

fn sig(name: &str, bits: Vec<SignalBit>) -> Signal {
    Signal { name: name.to_string(), bits }
}

/// A gateless circuit with every signal the harness needs: the clock on
/// node 2, reset on node 3, the input-value bus on nodes 4..20, and all
/// other signals tied off.
fn base_signals() -> Vec<Signal> {
    vec![
        sig("clock", vec![SignalBit::Net(2)]),
        sig("reset", vec![SignalBit::Net(3)]),
        sig("state", tie_bits(1, 1)),
        sig("program_counter", tie_bits(0, 16)),
        sig("addr", tie_bits(0, 16)),
        sig("inp_val", net_bits(4, 16)),
        sig("out_val", tie_bits(0, 16)),
        sig("write_enable", tie_bits(0, 1)),
        sig("halted", tie_bits(0, 1)),
        sig("flag", tie_bits(0, 1)),
        sig("registers[0]", tie_bits(0, 8)),
        sig("registers[1]", tie_bits(0, 8)),
        sig("registers[2]", tie_bits(0, 8)),
        sig("registers[3]", tie_bits(0, 8)),
    ]
}

fn replace(sigs: &mut Vec<Signal>, name: &str, bits: Vec<SignalBit>) {
    for s in sigs.iter_mut() {
        if s.name == name {
            s.bits = bits;
            return;
        }
    }
    panic!("no such signal");
}

#[test]
fn halt_leaves_single_store() {
    // Write-enable and halted both assert: the first cycle stores one word
    // and the run stops at once; memory holds exactly that store.
    let mut sigs = base_signals();
    replace(&mut sigs, "write_enable", tie_bits(1, 1));
    replace(&mut sigs, "halted", tie_bits(1, 1));
    replace(&mut sigs, "addr", tie_bits(0x80, 16));
    replace(&mut sigs, "out_val", tie_bits(0xABCD, 16));
    let nl = Netlist { gates: vec![], signals: sigs };
    let expected = vec![
        (0x80usize, 0xCDu8),
        (0x81, 0xAB),
        (0x7F, 0),
        (0x82, 0),
    ];
    let r = run_test_program_with_memory("", 100, &expected, &nl);
    assert_eq!(r, Ok(()));
}

#[test]
fn memory_feed_reaches_sampled_signals() {
    // The program counter bus aliases the input-value bus, which the
    // harness feeds from memory each cycle; the first real checkpoint then
    // reads the first program word.
    let mut sigs = base_signals();
    replace(&mut sigs, "program_counter", net_bits(4, 16));
    let nl = Netlist { gates: vec![], signals: sigs };
    let trace = vec![Checkpoint { pc: 0x2A08, r0: 0, r1: 0, r2: 0, r3: 0 }];
    let r = run_test_program("LOADI r0 42", 6, &trace, &nl);
    assert_eq!(r, Ok(()));
}

#[test]
fn checkpoint_register_mismatch_is_reported() {
    let mut sigs = base_signals();
    replace(&mut sigs, "registers[1]", tie_bits(7, 8));
    let nl = Netlist { gates: vec![], signals: sigs };
    let trace = vec![Checkpoint { pc: 0, r0: 0, r1: 6, r2: 0, r3: 0 }];
    let r = run_test_program("", 6, &trace, &nl);
    assert_eq!(
        r,
        Err(SimError::CheckpointMismatch {
            fault: CheckpointFault::Register {
                index: 0,
                register: 1,
                pc: 0,
                expected: 6,
                actual: 7,
            },
        })
    );
}

#[test]
fn checkpoint_pc_mismatch_is_reported() {
    let nl = Netlist { gates: vec![], signals: base_signals() };
    let trace = vec![Checkpoint { pc: 4, r0: 0, r1: 0, r2: 0, r3: 0 }];
    let r = run_test_program("", 6, &trace, &nl);
    assert_eq!(
        r,
        Err(SimError::CheckpointMismatch {
            fault: CheckpointFault::Pc { index: 0, expected: 4, actual: 0 },
        })
    );
}

#[test]
fn short_trace_consumption_is_reported() {
    let nl = Netlist { gates: vec![], signals: base_signals() };
    let trace = vec![
        Checkpoint { pc: 0, r0: 0, r1: 0, r2: 0, r3: 0 },
        Checkpoint { pc: 0, r0: 0, r1: 0, r2: 0, r3: 0 },
    ];
    // Four cycles reach only one comparable checkpoint after the discarded
    // warm-up boundary.
    let r = run_test_program("", 4, &trace, &nl);
    assert_eq!(
        r,
        Err(SimError::CheckpointMismatch {
            fault: CheckpointFault::Count { consumed: 1, expected: 2 },
        })
    );
}

#[test]
fn final_memory_mismatch_is_reported() {
    let nl = Netlist { gates: vec![], signals: base_signals() };
    let expected = vec![(0usize, 9u8)];
    let r = run_test_program_with_memory("", 2, &expected, &nl);
    assert_eq!(
        r,
        Err(SimError::MemoryMismatch { addr: 0, expected: 9, actual: 0 })
    );
}

#[test]
fn missing_signal_fails_before_any_cycle() {
    let mut sigs = base_signals();
    sigs.retain(|s| s.name != "flag");
    let nl = Netlist { gates: vec![], signals: sigs };
    let mut mem = new_memory();
    let r = run_test_program_with_expectations("LOADI r0 42", 100, None, None, &mut mem, &nl);
    assert_eq!(r, Err(SimError::NetlistFormat));
    // The image was seeded, and nothing else ran: no cycle touched memory.
    assert_eq!(mem[0], 0x08);
    assert_eq!(mem[1], 0x2A);
    assert!(mem[2..].iter().all(|&b| b == 0));
}

#[test]
fn wrong_bus_width_is_reported() {
    let mut sigs = base_signals();
    replace(&mut sigs, "inp_val", net_bits(4, 8));
    let nl = Netlist { gates: vec![], signals: sigs };
    let mut mem = new_memory();
    let r = run_test_program_with_expectations("", 10, None, None, &mut mem, &nl);
    assert_eq!(r, Err(SimError::SignalWidth { expected: 16, actual: 8 }));
}

#[test]
fn constant_clock_is_rejected() {
    let mut sigs = base_signals();
    replace(&mut sigs, "clock", tie_bits(0, 1));
    let nl = Netlist { gates: vec![], signals: sigs };
    let mut mem = new_memory();
    let r = run_test_program_with_expectations("", 10, None, None, &mut mem, &nl);
    assert_eq!(r, Err(SimError::NetlistFormat));
}

#[test]
fn out_of_range_node_is_rejected() {
    let mut sigs = base_signals();
    replace(&mut sigs, "state", vec![SignalBit::Net(NODE_LIMIT)]);
    let nl = Netlist { gates: vec![], signals: sigs };
    let mut mem = new_memory();
    let r = run_test_program_with_expectations("", 10, None, None, &mut mem, &nl);
    assert_eq!(r, Err(SimError::IndexOutOfRange { node: NODE_LIMIT }));
}

#[test]
fn oscillating_netlist_diverges() {
    let mut sigs = base_signals();
    replace(&mut sigs, "state", vec![SignalBit::Net(20)]);
    let nl = Netlist {
        gates: vec![Gate { a: 20, b: 20, y: 20 }],
        signals: sigs,
    };
    let mut mem = new_memory();
    let r = run_test_program_with_expectations("", 10, None, None, &mut mem, &nl);
    assert_eq!(r, Err(SimError::SettlementDivergence));
}

#[test]
fn assembly_fault_surfaces_through_run() {
    let nl = Netlist { gates: vec![], signals: base_signals() };
    let mut mem = new_memory();
    let r = run_test_program_with_expectations("ADD r9 r1", 10, None, None, &mut mem, &nl);
    assert_eq!(
        r,
        Err(SimError::Assembly { error: nandsim::errors::AsmError::BadRegister })
    );
}

#[test]
fn cycle_budget_runs_out_quietly() {
    // A program that never halts simply exhausts its cycle budget.
    let nl = Netlist { gates: vec![], signals: base_signals() };
    let mut mem = new_memory();
    let r = run_test_program_with_expectations("NOP", 50, None, None, &mut mem, &nl);
    assert_eq!(r, Ok(()));
}

#[test]
fn runs_netlist_loaded_from_json() {
    // The whole pipeline: JSON text to a loaded netlist to a checked run.
    let mut nets = String::new();
    nets.push_str("\"clock\":{\"bits\":[2]},\"reset\":{\"bits\":[3]},");
    nets.push_str("\"state\":{\"bits\":[\"1\"]},");
    nets.push_str("\"program_counter\":{\"bits\":[\"0\"]},");
    let mut inp = String::new();
    for i in 4..20 {
        if i > 4 {
            inp.push(',');
        }
        inp.push_str(&i.to_string());
    }
    nets.push_str(&format!("\"inp_val\":{{\"bits\":[{}]}},", inp));
    let zero16 = vec!["\"0\""; 16].join(",");
    nets.push_str(&format!("\"addr\":{{\"bits\":[{}]}},", zero16));
    nets.push_str(&format!("\"out_val\":{{\"bits\":[{}]}},", zero16));
    nets.push_str("\"write_enable\":{\"bits\":[\"0\"]},");
    nets.push_str("\"halted\":{\"bits\":[\"0\"]},\"flag\":{\"bits\":[\"0\"]},");
    nets.push_str("\"registers[0]\":{\"bits\":[\"0\"]},\"registers[1]\":{\"bits\":[\"0\"]},");
    nets.push_str("\"registers[2]\":{\"bits\":[\"0\"]},\"registers[3]\":{\"bits\":[\"0\"]}");
    let text = format!(
        "{{\"modules\":{{\"cpu\":{{\"cells\":{{}},\"netnames\":{{{}}}}}}}}}",
        nets
    );
    let nl = Netlist::load(&text, "cpu").unwrap();
    let trace = vec![Checkpoint { pc: 0, r0: 0, r1: 0, r2: 0, r3: 0 }];
    assert_eq!(run_test_program("NOP", 6, &trace, &nl), Ok(()));
}
