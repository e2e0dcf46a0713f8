use vstd::prelude::*;
use crate::errors::SimError;
use crate::state::gates_in_bounds;

verus! {

/// One two-input NAND gate: `y = NOT (a AND b)`, each field a node index.
#[derive(Debug, Clone, Copy, PartialEq, Eq, Structural)]
pub struct Gate {
    pub a: usize,
    pub b: usize,
    pub y: usize,
}

/// One entry of a signal's bit vector: either a reference to a node of the
/// network, or a constant tie-off that always reads 0 or 1.
#[derive(Debug, Clone, Copy, PartialEq, Eq, Structural)]
pub enum SignalBit {
    Net(usize),
    Tie(bool),
}

/// A named signal: an ordered bit vector, first entry is bit 0.
#[derive(Debug, Clone, PartialEq, Eq)]
pub struct Signal {
    pub name: String,
    pub bits: Vec<SignalBit>,
}

/// A NAND-only gate network with its named signals.
#[derive(Debug, Clone, PartialEq, Eq)]
pub struct Netlist {
    pub gates: Vec<Gate>,
    pub signals: Vec<Signal>,
}

/// One raw entry of a connection or bit array in a circuit description:
/// either a number (a node id) or a piece of text (a constant tie-off).
#[derive(Debug, Clone, PartialEq, Eq)]
pub enum BitDesc {
    Num(i64),
    Text(String),
}

/// One raw cell of a circuit description: its type marker and the three
/// connection arrays `A`, `B` and `Y`.
#[derive(Debug, Clone)]
pub struct CellDesc {
    pub kind: String,
    pub a: Vec<BitDesc>,
    pub b: Vec<BitDesc>,
    pub y: Vec<BitDesc>,
}

/// One raw named net of a circuit description, bit 0 first.
#[derive(Debug, Clone)]
pub struct NetDesc {
    pub name: String,
    pub bits: Vec<BitDesc>,
}

/// A structurally complete circuit description, still unvalidated: the plain
/// contents of one module of a synthesis tool's output.
#[derive(Debug, Clone)]
pub struct CircuitDesc {
    pub cells: Vec<CellDesc>,
    pub nets: Vec<NetDesc>,
}

/// A raw connection or bit entry is acceptable: either a node id of at least
/// 2 that fits an index, or the text `"0"` or `"1"` marking a constant.
/// Ids 0 and 1 never name real nodes in a synthesized description; they are
/// reserved for the two constants.
pub open spec fn bit_desc_ok(b: BitDesc) -> bool {
    match b {
        BitDesc::Num(n) => 2 <= n && n as int <= usize::MAX as int,
        BitDesc::Text(t) => t@ == "0"@ || t@ == "1"@,
    }
}

/// The node index a raw connection entry resolves to: a numeric id stands
/// for itself, the constants are tied to the reserved indices 0 and 1.
pub open spec fn conn_node(b: BitDesc) -> usize {
    match b {
        BitDesc::Num(n) => n as usize,
        BitDesc::Text(t) => if t@ == "1"@ {
            1usize
        } else {
            0usize
        },
    }
}

/// The signal bit a raw netname entry resolves to: a node reference, or a
/// constant tie-off read as 0 or 1.
pub open spec fn sig_bit_of(b: BitDesc) -> SignalBit {
    match b {
        BitDesc::Num(n) => SignalBit::Net(n as usize),
        BitDesc::Text(t) => SignalBit::Tie(t@ == "1"@),
    }
}

/// A raw cell is acceptable: its type is the two-input NAND marker and each
/// of its three connection arrays holds an acceptable first entry.
pub open spec fn cell_ok(c: CellDesc) -> bool {
    &&& c.kind@ == "NAND"@
    &&& c.a@.len() >= 1 && bit_desc_ok(c.a@[0])
    &&& c.b@.len() >= 1 && bit_desc_ok(c.b@[0])
    &&& c.y@.len() >= 1 && bit_desc_ok(c.y@[0])
}

/// The resolved gate of a raw cell.
pub open spec fn gate_of_cell(c: CellDesc) -> Gate {
    Gate { a: conn_node(c.a@[0]), b: conn_node(c.b@[0]), y: conn_node(c.y@[0]) }
}

/// A raw net is acceptable: a non-empty bit vector of acceptable entries.
pub open spec fn net_ok(n: NetDesc) -> bool {
    &&& n.bits@.len() >= 1
    &&& forall|j: int| 0 <= j < n.bits@.len() ==> bit_desc_ok(#[trigger] n.bits@[j])
}

/// A whole description is acceptable.
pub open spec fn desc_ok(d: &CircuitDesc) -> bool {
    &&& forall|i: int| 0 <= i < d.cells@.len() ==> cell_ok(#[trigger] d.cells@[i])
    &&& forall|i: int| 0 <= i < d.nets@.len() ==> net_ok(#[trigger] d.nets@[i])
}

/// The netlist a description resolves to, gate by gate and net by net.
pub open spec fn netlist_of_desc(d: &CircuitDesc, n: &Netlist) -> bool {
    &&& n.gates@.len() == d.cells@.len()
    &&& forall|i: int|
        0 <= i < d.cells@.len() ==> #[trigger] n.gates@[i] == gate_of_cell(d.cells@[i])
    &&& n.signals@.len() == d.nets@.len()
    &&& forall|i: int|
        0 <= i < d.nets@.len() ==> (#[trigger] n.signals@[i]).name@ == d.nets@[i].name@
            && n.signals@[i].bits@.len() == d.nets@[i].bits@.len() && (forall|j: int|
            0 <= j < d.nets@[i].bits@.len() ==> #[trigger] n.signals@[i].bits@[j] == sig_bit_of(
                d.nets@[i].bits@[j],
            ))
}

/// Resolve one raw entry, or report why it is unacceptable.
fn resolve_bit_desc(b: &BitDesc) -> (r: Result<SignalBit, SimError>)
    ensures
        match r {
            Ok(s) => bit_desc_ok(*b) && s == sig_bit_of(*b),
            Err(e) => !bit_desc_ok(*b) && e == SimError::NetlistFormat,
        },
{
    proof {
        reveal_strlit("0");
        reveal_strlit("1");
        assert("0"@[0] == '0' && "1"@[0] == '1');
        assert("0"@ != "1"@);
    }
    match b {
        BitDesc::Num(n) => {
            if *n < 2 {
                Err(SimError::NetlistFormat)
            } else {
                let wide = *n as u64;
                if wide > usize::MAX as u64 {
                    Err(SimError::NetlistFormat)
                } else {
                    let u = wide as usize;
                    proof {
                        assert(wide as int == *n as int);
                        assert(u as int == wide as int);
                    }
                    Ok(SignalBit::Net(u))
                }
            }
        },
        BitDesc::Text(t) => {
            if *t == "0".to_owned() {
                Ok(SignalBit::Tie(false))
            } else if *t == "1".to_owned() {
                Ok(SignalBit::Tie(true))
            } else {
                Err(SimError::NetlistFormat)
            }
        },
    }
}

impl Netlist {
    /// Validate a raw description and resolve it into a gate list and signal
    /// map. Succeeds exactly when every cell is a two-input NAND with
    /// complete connections and every net is a non-empty vector of node ids
    /// or constant tie-offs.
    pub fn from_desc(d: &CircuitDesc) -> (r: Result<Netlist, SimError>)
        ensures
            r is Ok <==> desc_ok(d),
            match r {
                Ok(n) => netlist_of_desc(d, &n),
                Err(e) => e == SimError::NetlistFormat,
            },
    {
        proof {
            reveal_strlit("0");
            reveal_strlit("1");
        }
        let nand_marker: String = "NAND".to_owned();
        let mut gates: Vec<Gate> = Vec::new();
        let mut i: usize = 0;
        while i < d.cells.len()
            invariant
                i <= d.cells@.len(),
                gates@.len() == i,
                forall|k: int| 0 <= k < i ==> cell_ok(#[trigger] d.cells@[k]),
                forall|k: int| 0 <= k < i ==> #[trigger] gates@[k] == gate_of_cell(d.cells@[k]),
                nand_marker@ == "NAND"@,
            decreases d.cells@.len() - i,
        {
            let c = &d.cells[i];
            if !(c.kind == nand_marker) {
                return Err(SimError::NetlistFormat);
            }
            if c.a.len() < 1 || c.b.len() < 1 || c.y.len() < 1 {
                return Err(SimError::NetlistFormat);
            }
            let a = match resolve_bit_desc(&c.a[0]) {
                Ok(s) => s,
                Err(e) => { return Err(e) },
            };
            let b = match resolve_bit_desc(&c.b[0]) {
                Ok(s) => s,
                Err(e) => { return Err(e) },
            };
            let y = match resolve_bit_desc(&c.y[0]) {
                Ok(s) => s,
                Err(e) => { return Err(e) },
            };
            let an = match a {
                SignalBit::Net(k) => k,
                SignalBit::Tie(v) => if v {
                    1
                } else {
                    0
                },
            };
            let bn = match b {
                SignalBit::Net(k) => k,
                SignalBit::Tie(v) => if v {
                    1
                } else {
                    0
                },
            };
            let yn = match y {
                SignalBit::Net(k) => k,
                SignalBit::Tie(v) => if v {
                    1
                } else {
                    0
                },
            };
            gates.push(Gate { a: an, b: bn, y: yn });
            i = i + 1;
        }
        let mut signals: Vec<Signal> = Vec::new();
        let mut i2: usize = 0;
        while i2 < d.nets.len()
            invariant
                i2 <= d.nets@.len(),
                signals@.len() == i2,
                forall|k: int| 0 <= k < i2 ==> net_ok(#[trigger] d.nets@[k]),
                forall|k: int|
                    0 <= k < i2 ==> (#[trigger] signals@[k]).name@ == d.nets@[k].name@
                        && signals@[k].bits@.len() == d.nets@[k].bits@.len() && (forall|j: int|
                        0 <= j < d.nets@[k].bits@.len() ==> #[trigger] signals@[k].bits@[j]
                            == sig_bit_of(d.nets@[k].bits@[j])),
            decreases d.nets@.len() - i2,
        {
            let nd = &d.nets[i2];
            if nd.bits.len() < 1 {
                return Err(SimError::NetlistFormat);
            }
            let mut bits: Vec<SignalBit> = Vec::new();
            let mut j: usize = 0;
            while j < nd.bits.len()
                invariant
                    j <= nd.bits@.len(),
                    bits@.len() == j,
                    nd == d.nets@[i2 as int],
                    i2 < d.nets@.len(),
                    forall|k: int| 0 <= k < j ==> bit_desc_ok(#[trigger] nd.bits@[k]),
                    forall|k: int|
                        0 <= k < j ==> #[trigger] bits@[k] == sig_bit_of(nd.bits@[k]),
                decreases nd.bits@.len() - j,
            {
                let s = match resolve_bit_desc(&nd.bits[j]) {
                    Ok(s) => s,
                    Err(e) => { return Err(e) },
                };
                bits.push(s);
                j = j + 1;
            }
            signals.push(Signal { name: clone_string(&nd.name), bits });
            i2 = i2 + 1;
        }
        Ok(Netlist { gates, signals })
    }

    /// The index of the first signal called `name`, scanning in declaration
    /// order.
    fn find_signal(&self, name: &str) -> (r: Result<usize, SimError>)
        ensures
            match r {
                Ok(i) => i < self.signals@.len() && find_idx(self.signals@, name@) == i,
                Err(e) => find_idx(self.signals@, name@) == -1 && e == SimError::NetlistFormat,
            },
    {
        let wanted: String = name.to_owned();
        proof {
            assert(self.signals@.skip(0) =~= self.signals@);
        }
        let mut i: usize = 0;
        while i < self.signals.len()
            invariant
                i <= self.signals@.len(),
                wanted@ == name@,
                find_idx(self.signals@, name@) == ({
                    let rest = find_idx(self.signals@.skip(i as int), name@);
                    if rest < 0 {
                        -1int
                    } else {
                        i + rest
                    }
                }),
            decreases self.signals@.len() - i,
        {
            proof {
                assert(self.signals@.skip(i as int).drop_first() =~= self.signals@.skip(
                    i as int + 1,
                ));
                assert(self.signals@.skip(i as int)[0] == self.signals@[i as int]);
            }
            if self.signals[i].name == wanted {
                return Ok(i);
            }
            i = i + 1;
        }
        proof {
            assert(self.signals@.skip(self.signals@.len() as int) =~= Seq::<Signal>::empty());
        }
        Err(SimError::NetlistFormat)
    }

    /// Look a signal up by name; absence is a format failure, since the
    /// harness demands every signal it drives or samples.
    pub fn signal(&self, name: &str) -> (r: Result<&Vec<SignalBit>, SimError>)
        ensures
            match r {
                Ok(bits) => spec_signal(self, name@) == Ok::<Seq<SignalBit>, SimError>(bits@),
                Err(e) => spec_signal(self, name@) == Err::<Seq<SignalBit>, SimError>(e),
            },
    {
        match self.find_signal(name) {
            Ok(i) => Ok(&self.signals[i].bits),
            Err(e) => Err(e),
        }
    }

    /// Look a signal up and demand an exact bit width, as the harness does
    /// for the memory buses and the single-bit control signals.
    pub fn signal_with_width(&self, name: &str, width: usize) -> (r: Result<
        &Vec<SignalBit>,
        SimError,
    >)
        ensures
            match r {
                Ok(bits) => spec_signal_w(self, name@, width as nat) == Ok::<
                    Seq<SignalBit>,
                    SimError,
                >(bits@),
                Err(e) => spec_signal_w(self, name@, width as nat) == Err::<
                    Seq<SignalBit>,
                    SimError,
                >(e),
            },
    {
        match self.find_signal(name) {
            Ok(i) => {
                let bits = &self.signals[i].bits;
                if bits.len() != width {
                    return Err(SimError::SignalWidth { expected: width, actual: bits.len() });
                }
                Ok(bits)
            },
            Err(e) => Err(e),
        }
    }
}

/// The index of the first signal of the list called `name`, or -1 when no
/// signal bears that name.
pub open spec fn find_idx(sigs: Seq<Signal>, name: Seq<char>) -> int
    decreases sigs.len(),
{
    if sigs.len() == 0 {
        -1
    } else if sigs[0].name@ == name {
        0
    } else {
        let r = find_idx(sigs.drop_first(), name);
        if r < 0 {
            -1
        } else {
            r + 1
        }
    }
}

/// What looking the signal `name` up in `nl` returns.
pub open spec fn spec_signal(nl: &Netlist, name: Seq<char>) -> Result<Seq<SignalBit>, SimError> {
    let i = find_idx(nl.signals@, name);
    if i < 0 {
        Err(SimError::NetlistFormat)
    } else {
        Ok(nl.signals@[i].bits@)
    }
}

/// What looking the signal `name` up with a demanded width returns.
pub open spec fn spec_signal_w(nl: &Netlist, name: Seq<char>, width: nat) -> Result<
    Seq<SignalBit>,
    SimError,
> {
    match spec_signal(nl, name) {
        Err(e) => Err(e),
        Ok(bits) => if bits.len() == width {
            Ok(bits)
        } else {
            Err(SimError::SignalWidth { expected: width as usize, actual: bits.len() as usize })
        },
    }
}

/// Every node reference of a signal bit vector lies below `len`.
pub open spec fn bits_in_bounds(bits: Seq<SignalBit>, len: nat) -> bool {
    forall|j: int|
        0 <= j < bits.len() ==> ((#[trigger] bits[j]) matches SignalBit::Net(i) ==> i < len)
}

/// Every node reference of every signal lies below `len`.
pub open spec fn signals_in_bounds(sigs: Seq<Signal>, len: nat) -> bool {
    forall|i: int| 0 <= i < sigs.len() ==> bits_in_bounds((#[trigger] sigs[i]).bits@, len)
}

/// Every node the netlist references, through a gate or a signal, lies
/// below `len`.
pub open spec fn nl_in_bounds(nl: &Netlist, len: nat) -> bool {
    gates_in_bounds(nl.gates@, len) && signals_in_bounds(nl.signals@, len)
}

/// The largest node index a signal bit vector references, or -1 for none.
pub open spec fn bits_max(bits: Seq<SignalBit>) -> int
    decreases bits.len(),
{
    if bits.len() == 0 {
        -1
    } else {
        let rest = bits_max(bits.drop_last());
        let cur = match bits.last() {
            SignalBit::Net(i) => i as int,
            SignalBit::Tie(_) => -1,
        };
        if cur > rest {
            cur
        } else {
            rest
        }
    }
}

/// The largest node index a gate list references, or -1 for none.
pub open spec fn gates_max(gates: Seq<Gate>) -> int
    decreases gates.len(),
{
    if gates.len() == 0 {
        -1
    } else {
        let rest = gates_max(gates.drop_last());
        let g = gates.last();
        let m1 = if g.a as int > g.b as int {
            g.a as int
        } else {
            g.b as int
        };
        let m2 = if g.y as int > m1 {
            g.y as int
        } else {
            m1
        };
        if m2 > rest {
            m2
        } else {
            rest
        }
    }
}

/// The largest node index the signal list references, or -1 for none.
pub open spec fn signals_max(sigs: Seq<Signal>) -> int
    decreases sigs.len(),
{
    if sigs.len() == 0 {
        -1
    } else {
        let rest = signals_max(sigs.drop_last());
        let cur = bits_max(sigs.last().bits@);
        if cur > rest {
            cur
        } else {
            rest
        }
    }
}

/// The largest node index the whole netlist references, or -1 for none.
pub open spec fn nl_max(nl: &Netlist) -> int {
    if gates_max(nl.gates@) > signals_max(nl.signals@) {
        gates_max(nl.gates@)
    } else {
        signals_max(nl.signals@)
    }
}

impl Netlist {
    /// The largest node index this netlist references, or `None` when it
    /// references no node at all. One more than the result is the node count
    /// the simulator must allocate.
    pub fn max_node(&self) -> (r: Option<usize>)
        ensures
            match r {
                Some(m) => m as int == nl_max(self) && nl_in_bounds(self, m as nat + 1),
                None => nl_max(self) == -1 && nl_in_bounds(self, 0),
            },
    {
        let mut seen: bool = false;
        let mut top: usize = 0;
        let mut i: usize = 0;
        while i < self.gates.len()
            invariant
                i <= self.gates@.len(),
                if seen {
                    top as int == gates_max(self.gates@.take(i as int))
                } else {
                    top == 0 && gates_max(self.gates@.take(i as int)) == -1
                },
                gates_in_bounds(self.gates@.take(i as int), top as nat + 1),
                i > 0 ==> seen,
            decreases self.gates@.len() - i,
        {
            let g = self.gates[i];
            proof {
                assert(self.gates@.take(i as int + 1).drop_last() =~= self.gates@.take(i as int));
                assert(self.gates@.take(i as int + 1).last() == self.gates@[i as int]);
            }
            let m1 = if g.a > g.b {
                g.a
            } else {
                g.b
            };
            let m2 = if g.y > m1 {
                g.y
            } else {
                m1
            };
            let ghost oldtop = top;
            if !seen || m2 > top {
                top = m2;
                seen = true;
            }
            proof {
                assert forall|k: int| 0 <= k < i + 1 implies (#[trigger] self.gates@.take(
                    i as int + 1,
                )[k]).a < top as nat + 1 && self.gates@.take(i as int + 1)[k].b < top as nat + 1
                    && self.gates@.take(i as int + 1)[k].y < top as nat + 1 by {
                    if k < i {
                        assert(self.gates@.take(i as int + 1)[k] == self.gates@.take(i as int)[k]);
                    } else {
                        assert(self.gates@.take(i as int + 1)[k] == self.gates@[i as int]);
                    }
                }
            }
            i = i + 1;
        }
        proof {
            assert(self.gates@.take(self.gates@.len() as int) =~= self.gates@);
            if !seen {
                assert(self.gates@.len() == 0);
            }
        }
        let mut s: usize = 0;
        while s < self.signals.len()
            invariant
                s <= self.signals@.len(),
                if seen {
                    top as int == (if gates_max(self.gates@) > signals_max(
                        self.signals@.take(s as int),
                    ) {
                        gates_max(self.gates@)
                    } else {
                        signals_max(self.signals@.take(s as int))
                    })
                } else {
                    top == 0 && gates_max(self.gates@) == -1 && signals_max(
                        self.signals@.take(s as int),
                    ) == -1
                },
                gates_in_bounds(self.gates@, top as nat + 1),
                signals_in_bounds(self.signals@.take(s as int), top as nat + 1),
                !seen ==> gates_in_bounds(self.gates@, 0) && signals_in_bounds(
                    self.signals@.take(s as int),
                    0,
                ),
            decreases self.signals@.len() - s,
        {
            let bits = &self.signals[s].bits;
            let mut j: usize = 0;
            while j < bits.len()
                invariant
                    j <= bits@.len(),
                    bits@ == self.signals@[s as int].bits@,
                    s < self.signals@.len(),
                    ({
                        let g = gates_max(self.gates@);
                        let sm = signals_max(self.signals@.take(s as int));
                        let bm = bits_max(bits@.take(j as int));
                        let m1 = if g > sm {
                            g
                        } else {
                            sm
                        };
                        let m2 = if bm > m1 {
                            bm
                        } else {
                            m1
                        };
                        if seen {
                            top as int == m2
                        } else {
                            top == 0 && m2 == -1
                        }
                    }),
                    gates_in_bounds(self.gates@, top as nat + 1),
                    signals_in_bounds(self.signals@.take(s as int), top as nat + 1),
                    bits_in_bounds(bits@.take(j as int), top as nat + 1),
                    !seen ==> gates_in_bounds(self.gates@, 0) && signals_in_bounds(
                        self.signals@.take(s as int),
                        0,
                    ) && bits_in_bounds(bits@.take(j as int), 0),
                decreases bits@.len() - j,
            {
                proof {
                    assert(bits@.take(j as int + 1).drop_last() =~= bits@.take(j as int));
                    assert(bits@.take(j as int + 1).last() == bits@[j as int]);
                }
                match bits[j] {
                    SignalBit::Net(k) => {
                        if !seen || k > top {
                            top = k;
                            seen = true;
                        }
                    },
                    SignalBit::Tie(_) => {},
                }
                j = j + 1;
            }
            proof {
                assert(bits@.take(bits@.len() as int) =~= bits@);
                assert(self.signals@.take(s as int + 1).drop_last() =~= self.signals@.take(
                    s as int,
                ));
                assert(self.signals@.take(s as int + 1).last() == self.signals@[s as int]);
            }
            s = s + 1;
        }
        proof {
            assert(self.signals@.take(self.signals@.len() as int) =~= self.signals@);
        }
        if seen {
            Some(top)
        } else {
            None
        }
    }
}

/// A by-hand string clone, so that its relation to the source is stated.
pub(crate) fn clone_string(s: &String) -> (r: String)
    ensures
        r@ == s@,
{
    s.as_str().to_owned()
}

} // verus!
