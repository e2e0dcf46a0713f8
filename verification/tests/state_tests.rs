use nandsim::netlist::{Gate, SignalBit};
use nandsim::state::State;

fn bus(nodes: &[usize]) -> Vec<SignalBit> {
    let mut v = Vec::new();
    for &n in nodes {
        v.push(SignalBit::Net(n));
    }
    v
}

#[test]
fn it_works() {
    let mut st = State::new(8);
    let bits = bus(&[0, 1, 2, 3, 4, 5, 6, 7]);
    st.set(&bits, 2 + 2);
    let result = st.get(&bits).unwrap();
    assert_eq!(result, 4);
}

#[test]
fn nand_truth_table() {
    // Exact logical NAND over the sentinel encoding, all four input pairs.
    for &(a, b, y) in &[
        (false, false, true),
        (false, true, true),
        (true, false, true),
        (true, true, false),
    ] {
        let mut st = State::new(3);
        st.set_bit(0, a);
        st.set_bit(1, b);
        st.nand(0, 1, 2);
        let out = st.get(&bus(&[2])).unwrap();
        assert_eq!(out == 1, y);
    }
}

#[test]
fn nand_counts_updates() {
    let mut st = State::new(3);
    // All false: output becomes true, one write.
    st.nand(0, 1, 2);
    assert_eq!(st.updates(), 1);
    assert_eq!(st.total_updates(), 1);
    // Same evaluation again: no change, no write.
    st.nand(0, 1, 2);
    assert_eq!(st.updates(), 1);
    assert_eq!(st.total_updates(), 1);
}

#[test]
fn set_get_roundtrip() {
    // Round trip for every representable 8-bit value.
    let bits = bus(&[3, 1, 4, 0, 5, 2, 7, 6]);
    for v in 0..=255u8 {
        let mut st = State::new(8);
        st.set(&bits, v);
        assert_eq!(st.get(&bits).unwrap(), v as u64);
    }
}

#[test]
fn get_reads_ties_and_bit_order() {
    let mut st = State::new(4);
    st.set_bit(0, true);
    // Bit 0 carries weight 1; a tie-off reads as a constant.
    let bits = vec![
        SignalBit::Net(0),
        SignalBit::Tie(true),
        SignalBit::Tie(false),
        SignalBit::Net(1),
    ];
    assert_eq!(st.get(&bits).unwrap(), 0b0011);
}

#[test]
fn get_reports_out_of_range_node() {
    let st = State::new(2);
    let r = st.get(&bus(&[5]));
    assert_eq!(
        r,
        Err(nandsim::errors::SimError::IndexOutOfRange { node: 5 })
    );
}

#[test]
fn flip_toggles() {
    let mut st = State::new(1);
    st.flip(0);
    assert_eq!(st.get(&bus(&[0])).unwrap(), 1);
    st.flip(0);
    assert_eq!(st.get(&bus(&[0])).unwrap(), 0);
}

#[test]
fn tick_settles_inverter_chain() {
    // 0 -> 1 -> 2 -> 3: three inverters from node 0.
    let gates = vec![
        Gate { a: 0, b: 0, y: 1 },
        Gate { a: 1, b: 1, y: 2 },
        Gate { a: 2, b: 2, y: 3 },
    ];
    let mut st = State::new(4);
    st.tick(&gates).unwrap();
    assert_eq!(st.get(&bus(&[1])).unwrap(), 1);
    assert_eq!(st.get(&bus(&[2])).unwrap(), 0);
    assert_eq!(st.get(&bus(&[3])).unwrap(), 1);
}

#[test]
fn tick_twice_makes_no_updates() {
    // Idempotence: a second settlement without an intervening write makes
    // zero node writes.
    let gates = vec![
        Gate { a: 0, b: 0, y: 1 },
        Gate { a: 1, b: 1, y: 2 },
    ];
    let mut st = State::new(3);
    st.tick(&gates).unwrap();
    let total_after_first = st.total_updates();
    st.tick(&gates).unwrap();
    assert_eq!(st.updates(), 0);
    assert_eq!(st.total_updates(), total_after_first);
}

#[test]
fn tick_reports_oscillation() {
    // A gate feeding back on itself never settles.
    let gates = vec![Gate { a: 0, b: 0, y: 0 }];
    let mut st = State::new(1);
    let r = st.tick(&gates);
    assert_eq!(r, Err(nandsim::errors::SimError::SettlementDivergence));
}

#[test]
fn reset_determinism_on_latch() {
    // A NAND latch whose set input is forced during the reset pulse reads
    // the same value after the reset sequence from an all-false array and
    // from an arbitrary array.
    // Nodes: 2 reset, 4 q, 5 qb, 6 = NOT reset, 7 undriven (false), 8 high.
    let gates = vec![
        Gate { a: 2, b: 2, y: 6 },
        Gate { a: 7, b: 7, y: 8 },
        Gate { a: 6, b: 5, y: 4 },
        Gate { a: 8, b: 4, y: 5 },
    ];
    let rst = 2usize;
    let mut outcomes = Vec::new();
    for garbage in [false, true] {
        let mut init = vec![false; 9];
        if garbage {
            // Arbitrary contents on every node, the reset line included low.
            init = vec![true, false, false, true, true, true, false, false, true];
            init[rst] = false;
        }
        let mut st = State::from_bools(&init);
        st.tick(&gates).unwrap();
        st.flip(rst);
        st.tick(&gates).unwrap();
        st.flip(rst);
        st.tick(&gates).unwrap();
        outcomes.push(st.get(&bus(&[4, 5])).unwrap());
    }
    assert_eq!(outcomes[0], outcomes[1]);
    assert_eq!(outcomes[0], 0b01);
}
