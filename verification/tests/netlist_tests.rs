use nandsim::errors::SimError;
use nandsim::netlist::{BitDesc, CellDesc, CircuitDesc, NetDesc, Netlist, Signal, SignalBit};

fn nand_cell(a: i64, b: i64, y: i64) -> CellDesc {
    CellDesc {
        kind: "NAND".to_string(),
        a: vec![BitDesc::Num(a)],
        b: vec![BitDesc::Num(b)],
        y: vec![BitDesc::Num(y)],
    }
}

#[test]
fn resolves_cells_and_nets() {
    let desc = CircuitDesc {
        cells: vec![nand_cell(2, 3, 4), CellDesc {
            kind: "NAND".to_string(),
            a: vec![BitDesc::Text("0".to_string())],
            b: vec![BitDesc::Text("1".to_string())],
            y: vec![BitDesc::Num(5)],
        }],
        nets: vec![
            NetDesc {
                name: "clock".to_string(),
                bits: vec![BitDesc::Num(2)],
            },
            NetDesc {
                name: "bus".to_string(),
                bits: vec![
                    BitDesc::Num(3),
                    BitDesc::Text("0".to_string()),
                    BitDesc::Text("1".to_string()),
                ],
            },
        ],
    };
    let nl = Netlist::from_desc(&desc).unwrap();
    assert_eq!(nl.gates.len(), 2);
    assert_eq!((nl.gates[0].a, nl.gates[0].b, nl.gates[0].y), (2, 3, 4));
    // Constant tie-offs in connections resolve to the reserved rails 0 and 1.
    assert_eq!((nl.gates[1].a, nl.gates[1].b, nl.gates[1].y), (0, 1, 5));
    let bus = nl.signal("bus").unwrap();
    assert_eq!(
        bus,
        &vec![SignalBit::Net(3), SignalBit::Tie(false), SignalBit::Tie(true)]
    );
}

#[test]
fn rejects_non_nand_cells() {
    let desc = CircuitDesc {
        cells: vec![CellDesc {
            kind: "AND".to_string(),
            a: vec![BitDesc::Num(2)],
            b: vec![BitDesc::Num(3)],
            y: vec![BitDesc::Num(4)],
        }],
        nets: vec![],
    };
    assert_eq!(Netlist::from_desc(&desc), Err(SimError::NetlistFormat));
}

#[test]
fn rejects_reserved_and_bad_node_ids() {
    let mut desc = CircuitDesc {
        cells: vec![nand_cell(1, 3, 4)],
        nets: vec![],
    };
    assert_eq!(Netlist::from_desc(&desc), Err(SimError::NetlistFormat));
    desc.cells = vec![nand_cell(-7, 3, 4)];
    assert_eq!(Netlist::from_desc(&desc), Err(SimError::NetlistFormat));
}

#[test]
fn rejects_empty_connections_and_nets() {
    let desc = CircuitDesc {
        cells: vec![CellDesc {
            kind: "NAND".to_string(),
            a: vec![],
            b: vec![BitDesc::Num(3)],
            y: vec![BitDesc::Num(4)],
        }],
        nets: vec![],
    };
    assert_eq!(Netlist::from_desc(&desc), Err(SimError::NetlistFormat));
    let desc2 = CircuitDesc {
        cells: vec![],
        nets: vec![NetDesc {
            name: "empty".to_string(),
            bits: vec![],
        }],
    };
    assert_eq!(Netlist::from_desc(&desc2), Err(SimError::NetlistFormat));
}

#[test]
fn signal_lookup_and_width() {
    let nl = Netlist {
        gates: vec![],
        signals: vec![Signal {
            name: "state".to_string(),
            bits: vec![SignalBit::Net(2), SignalBit::Net(3)],
        }],
    };
    assert!(nl.signal("state").is_ok());
    assert_eq!(nl.signal("missing"), Err(SimError::NetlistFormat));
    assert_eq!(
        nl.signal_with_width("state", 1),
        Err(SimError::SignalWidth { expected: 1, actual: 2 })
    );
    assert!(nl.signal_with_width("state", 2).is_ok());
}

#[test]
fn max_node_spans_gates_and_signals() {
    let nl = Netlist {
        gates: vec![nandsim::netlist::Gate { a: 2, b: 9, y: 4 }],
        signals: vec![Signal {
            name: "s".to_string(),
            bits: vec![SignalBit::Net(17), SignalBit::Tie(true)],
        }],
    };
    assert_eq!(nl.max_node(), Some(17));
    let empty = Netlist { gates: vec![], signals: vec![] };
    assert_eq!(empty.max_node(), None);
}

#[test]
fn loads_module_from_json_text() {
    let text = "{\"modules\":{\"cpu\":{\"cells\":{\"g0\":{\"type\":\"NAND\",\"connections\":{\"A\":[2],\"B\":[3],\"Y\":[4]}}},\"netnames\":{\"clock\":{\"bits\":[2]},\"tied\":{\"bits\":[\"0\",4]}}}}}";
    let nl = Netlist::load(text, "cpu").unwrap();
    assert_eq!(nl.gates.len(), 1);
    assert_eq!((nl.gates[0].a, nl.gates[0].b, nl.gates[0].y), (2, 3, 4));
    let tied = nl.signal("tied").unwrap();
    assert_eq!(tied, &vec![SignalBit::Tie(false), SignalBit::Net(4)]);
}

#[test]
fn load_rejects_malformed_descriptions() {
    // Not JSON at all.
    assert_eq!(
        Netlist::load("not json", "cpu"),
        Err(SimError::NetlistFormat)
    );
    // The named module is missing.
    assert_eq!(
        Netlist::load("{\"modules\":{}}", "cpu"),
        Err(SimError::NetlistFormat)
    );
    // A cell without a type marker.
    let no_type = "{\"modules\":{\"cpu\":{\"cells\":{\"g0\":{\"connections\":{\"A\":[2],\"B\":[3],\"Y\":[4]}}},\"netnames\":{}}}}";
    assert_eq!(Netlist::load(no_type, "cpu"), Err(SimError::NetlistFormat));
    // A cell of the wrong type.
    let bad_type = "{\"modules\":{\"cpu\":{\"cells\":{\"g0\":{\"type\":\"NOR\",\"connections\":{\"A\":[2],\"B\":[3],\"Y\":[4]}}},\"netnames\":{}}}}";
    assert_eq!(Netlist::load(bad_type, "cpu"), Err(SimError::NetlistFormat));
}
