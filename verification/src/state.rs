use vstd::prelude::*;
use vstd::arithmetic::power2::{pow2, lemma_pow2_strictly_increases, lemma2_to64};
use crate::errors::SimError;
use crate::netlist::{Gate, SignalBit};

verus! {

/// How many full sweeps of the netlist one settlement attempt may take
/// before the network is declared divergent.
pub const SWEEP_LIMIT: u64 = 65536;

/// A node byte is valid when it is one of the two sentinel values:
/// 0x00 encodes false, 0xFF encodes true.
pub open spec fn is_bool_byte(b: u8) -> bool {
    b == 0u8 || b == 255u8
}

/// The sentinel byte encoding a boolean.
pub open spec fn byte_of_bool(on: bool) -> u8 {
    if on {
        255u8
    } else {
        0u8
    }
}

/// The sentinel-encoded NAND of two sentinel bytes.
pub open spec fn nand_byte(x: u8, y: u8) -> u8 {
    if x == 255u8 && y == 255u8 {
        0u8
    } else {
        255u8
    }
}

/// Whether a signal bit reads true over the node bytes `s`.
pub open spec fn bit_on(s: Seq<u8>, b: SignalBit) -> bool {
    match b {
        SignalBit::Net(i) => s[i as int] == 255u8,
        SignalBit::Tie(v) => v,
    }
}

/// The first problem that reading `bits` over the node bytes `s` runs into,
/// scanning from bit 0: a node index out of range, or a non-sentinel byte.
pub open spec fn read_fault(s: Seq<u8>, bits: Seq<SignalBit>) -> Option<SimError>
    decreases bits.len(),
{
    if bits.len() == 0 {
        None
    } else {
        match bits[0] {
            SignalBit::Net(i) => if i >= s.len() {
                Some(SimError::IndexOutOfRange { node: i })
            } else if !is_bool_byte(s[i as int]) {
                Some(SimError::NonBooleanState { node: i })
            } else {
                read_fault(s, bits.drop_first())
            },
            SignalBit::Tie(_) => read_fault(s, bits.drop_first()),
        }
    }
}

/// The unsigned value of a signal over the node bytes `s`: the entry at
/// position 0 contributes bit 0, the next entry bit 1, and so on.
pub open spec fn sig_val(s: Seq<u8>, bits: Seq<SignalBit>) -> nat
    decreases bits.len(),
{
    if bits.len() == 0 {
        0
    } else {
        (if bit_on(s, bits[0]) {
            1nat
        } else {
            0nat
        }) + 2 * sig_val(s, bits.drop_first())
    }
}

/// The node bytes after writing the low bits of `v` to the nodes named by
/// `bits` in order, one sentinel byte per entry; a later entry wins over an
/// earlier entry naming the same node. A tie-off entry takes no write.
pub open spec fn write_bits(s: Seq<u8>, bits: Seq<SignalBit>, v: nat) -> Seq<u8>
    decreases bits.len(),
{
    if bits.len() == 0 {
        s
    } else {
        let s1 = match bits[0] {
            SignalBit::Net(i) => s.update(i as int, byte_of_bool(v % 2 == 1)),
            SignalBit::Tie(_) => s,
        };
        write_bits(s1, bits.drop_first(), v / 2)
    }
}

/// Every gate of the list references only nodes below `len`.
pub open spec fn gates_in_bounds(gates: Seq<Gate>, len: nat) -> bool {
    forall|i: int|
        0 <= i < gates.len() ==> (#[trigger] gates[i]).a < len && gates[i].b < len
            && gates[i].y < len
}

/// The node bytes after evaluating one gate: its output node is overwritten
/// with the NAND of its two input bytes.
pub open spec fn apply_gate(s: Seq<u8>, g: Gate) -> Seq<u8> {
    s.update(g.y as int, nand_byte(s[g.a as int], s[g.b as int]))
}

/// The node bytes after evaluating the first `n` gates in order, each seeing
/// the writes of the gates before it.
pub open spec fn sweep_prefix(s: Seq<u8>, gates: Seq<Gate>, n: int) -> Seq<u8>
    decreases n,
{
    if n <= 0 {
        s
    } else {
        apply_gate(sweep_prefix(s, gates, n - 1), gates[n - 1])
    }
}

/// The node bytes after one full in-order sweep of every gate.
pub open spec fn sweep(s: Seq<u8>, gates: Seq<Gate>) -> Seq<u8> {
    sweep_prefix(s, gates, gates.len() as int)
}

/// The first `n` gates are satisfied on `s`: each output byte already equals
/// the NAND of its input bytes.
pub open spec fn settled_to(s: Seq<u8>, gates: Seq<Gate>, n: int) -> bool {
    forall|i: int|
        0 <= i < n ==> s[(#[trigger] gates[i]).y as int] == nand_byte(
            s[gates[i].a as int],
            s[gates[i].b as int],
        )
}

/// The network is at a fixed point: no gate's output would change if it were
/// evaluated again.
pub open spec fn settled(s: Seq<u8>, gates: Seq<Gate>) -> bool {
    settled_to(s, gates, gates.len() as int)
}

/// The node bytes after `n` full sweeps.
pub open spec fn sweeps(s: Seq<u8>, gates: Seq<Gate>, n: nat) -> Seq<u8>
    decreases n,
{
    if n == 0 {
        s
    } else {
        sweep(sweeps(s, gates, (n - 1) as nat), gates)
    }
}

/// When reading `bits` over `s` runs into no fault, every node entry is in
/// range and holds a sentinel byte.
pub proof fn lemma_read_fault_none(s: Seq<u8>, bits: Seq<SignalBit>)
    requires
        read_fault(s, bits) is None,
    ensures
        forall|j: int|
            0 <= j < bits.len() ==> ((#[trigger] bits[j]) matches SignalBit::Net(i) ==> i < s.len()
                && is_bool_byte(s[i as int])),
    decreases bits.len(),
{
    if bits.len() > 0 {
        lemma_read_fault_none(s, bits.drop_first());
        assert forall|j: int|
            0 <= j < bits.len() implies ((#[trigger] bits[j]) matches SignalBit::Net(i) ==> i
            < s.len() && is_bool_byte(s[i as int])) by {
            if j > 0 {
                assert(bits[j] == bits.drop_first()[j - 1]);
            }
        }
    }
}

/// A signal of `n` bits reads a value below 2^n.
pub proof fn lemma_sig_val_bound(s: Seq<u8>, bits: Seq<SignalBit>)
    ensures
        sig_val(s, bits) < pow2(bits.len()),
    decreases bits.len(),
{
    if bits.len() == 0 {
        assert(pow2(0) == 1) by {
            lemma2_to64();
        }
    } else {
        lemma_sig_val_bound(s, bits.drop_first());
        assert(pow2(bits.len()) == 2 * pow2((bits.len() - 1) as nat)) by {
            vstd::arithmetic::power2::lemma_pow2_unfold(bits.len());
        }
    }
}

/// Gate evaluation is the exact logical NAND over the sentinel byte
/// encoding: it writes true unless both inputs read true, and it always
/// writes a sentinel byte.
pub proof fn lemma_nand_truth_table(x: u8, y: u8)
    requires
        is_bool_byte(x),
        is_bool_byte(y),
    ensures
        nand_byte(x, y) == byte_of_bool(!(x == 255 && y == 255)),
        is_bool_byte(nand_byte(x, y)),
        nand_byte(0u8, 0u8) == 255u8,
        nand_byte(0u8, 255u8) == 255u8,
        nand_byte(255u8, 0u8) == 255u8,
        nand_byte(255u8, 255u8) == 0u8,
{
}

/// A write through a bus never touches a node outside it, and keeps the
/// node count.
pub proof fn lemma_write_bits_frame(s: Seq<u8>, bits: Seq<SignalBit>, v: nat, i: int)
    requires
        forall|j: int|
            0 <= j < bits.len() ==> ((#[trigger] bits[j]) matches SignalBit::Net(n) && n
                < s.len()),
        0 <= i < s.len(),
        forall|j: int| 0 <= j < bits.len() ==> (#[trigger] bits[j])->Net_0 != i,
    ensures
        write_bits(s, bits, v).len() == s.len(),
        write_bits(s, bits, v)[i] == s[i],
    decreases bits.len(),
{
    if bits.len() > 0 {
        let n0 = bits[0]->Net_0;
        let s1 = s.update(n0 as int, byte_of_bool(v % 2 == 1));
        assert forall|j: int| 0 <= j < bits.drop_first().len() implies ((
        #[trigger] bits.drop_first()[j]) matches SignalBit::Net(n) && n < s1.len()) by {
            assert(bits.drop_first()[j] == bits[j + 1]);
        }
        assert forall|j: int| 0 <= j < bits.drop_first().len() implies (
        #[trigger] bits.drop_first()[j])->Net_0 != i by {
            assert(bits.drop_first()[j] == bits[j + 1]);
        }
        lemma_write_bits_frame(s1, bits.drop_first(), v / 2, i);
    }
}

/// Round trip: writing any representable value of the declared width to a
/// bus of distinct nodes and reading the bus back yields that value.
pub proof fn lemma_set_then_get(s: Seq<u8>, bits: Seq<SignalBit>, v: nat)
    requires
        v < pow2(bits.len()),
        forall|j: int|
            0 <= j < bits.len() ==> ((#[trigger] bits[j]) matches SignalBit::Net(n) && n
                < s.len()),
        forall|j: int, k: int|
            0 <= j < k < bits.len() ==> (#[trigger] bits[j])->Net_0 != (
            #[trigger] bits[k])->Net_0,
    ensures
        sig_val(write_bits(s, bits, v), bits) == v,
    decreases bits.len(),
{
    if bits.len() == 0 {
        assert(pow2(0) == 1) by {
            lemma2_to64();
        }
    } else {
        let n0 = bits[0]->Net_0;
        let s1 = s.update(n0 as int, byte_of_bool(v % 2 == 1));
        let rest = bits.drop_first();
        assert forall|j: int| 0 <= j < rest.len() implies ((#[trigger] rest[j])
            matches SignalBit::Net(n) && n < s1.len()) by {
            assert(rest[j] == bits[j + 1]);
        }
        assert forall|j: int| 0 <= j < rest.len() implies (#[trigger] rest[j])->Net_0 != n0 by {
            assert(rest[j] == bits[j + 1]);
        }
        assert forall|j: int, k: int| 0 <= j < k < rest.len() implies (#[trigger] rest[j])->Net_0
            != (#[trigger] rest[k])->Net_0 by {
            assert(rest[j] == bits[j + 1]);
            assert(rest[k] == bits[k + 1]);
        }
        assert(pow2(bits.len()) == 2 * pow2(rest.len())) by {
            vstd::arithmetic::power2::lemma_pow2_unfold(bits.len());
        }
        lemma_write_bits_frame(s1, rest, v / 2, n0 as int);
        lemma_set_then_get(s1, rest, v / 2);
        assert(write_bits(s, bits, v) == write_bits(s1, rest, v / 2));
        assert(write_bits(s1, rest, v / 2)[n0 as int] == byte_of_bool(v % 2 == 1));
        assert(bit_on(write_bits(s, bits, v), bits[0]) == (v % 2 == 1));
    }
}

/// Evaluating a prefix of an in-bounds gate list keeps the node count.
pub proof fn lemma_sweep_prefix_len(s: Seq<u8>, gates: Seq<Gate>, n: int)
    requires
        gates_in_bounds(gates, s.len()),
        0 <= n <= gates.len(),
    ensures
        sweep_prefix(s, gates, n).len() == s.len(),
    decreases n,
{
    if n > 0 {
        lemma_sweep_prefix_len(s, gates, n - 1);
    }
}

/// Any number of full sweeps of an in-bounds gate list keeps the node count.
pub proof fn lemma_sweeps_len(s: Seq<u8>, gates: Seq<Gate>, n: nat)
    requires
        gates_in_bounds(gates, s.len()),
    ensures
        sweeps(s, gates, n).len() == s.len(),
    decreases n,
{
    if n > 0 {
        lemma_sweeps_len(s, gates, (n - 1) as nat);
        lemma_sweep_prefix_len(sweeps(s, gates, (n - 1) as nat), gates, gates.len() as int);
    }
}

/// On a settled network, evaluating any prefix of the gates changes
/// nothing.
pub proof fn lemma_settled_sweep_prefix_id(s: Seq<u8>, gates: Seq<Gate>, n: int)
    requires
        settled(s, gates),
        gates_in_bounds(gates, s.len()),
        0 <= n <= gates.len(),
    ensures
        sweep_prefix(s, gates, n) == s,
    decreases n,
{
    if n > 0 {
        lemma_settled_sweep_prefix_id(s, gates, n - 1);
        assert(apply_gate(s, gates[n - 1]) =~= s);
    }
}

/// On a settled network, any number of full sweeps changes nothing.
pub proof fn lemma_settled_sweeps_id(s: Seq<u8>, gates: Seq<Gate>, n: nat)
    requires
        settled(s, gates),
        gates_in_bounds(gates, s.len()),
    ensures
        sweeps(s, gates, n) == s,
    decreases n,
{
    if n > 0 {
        lemma_settled_sweeps_id(s, gates, (n - 1) as nat);
        lemma_settled_sweep_prefix_id(s, gates, gates.len() as int);
    }
}

/// Once the sweep sequence reaches a fixed point it stays there.
pub proof fn lemma_sweeps_mono(s: Seq<u8>, gates: Seq<Gate>, n: nat, m: nat)
    requires
        settled(sweeps(s, gates, n), gates),
        gates_in_bounds(gates, s.len()),
        n <= m,
    ensures
        sweeps(s, gates, m) == sweeps(s, gates, n),
    decreases m,
{
    if m > n {
        lemma_sweeps_mono(s, gates, n, (m - 1) as nat);
        lemma_sweeps_len(s, gates, n);
        lemma_settled_sweep_prefix_id(sweeps(s, gates, n), gates, gates.len() as int);
    }
}

/// The mutable store of the circuit: one sentinel byte per node, plus the
/// write counters that signal convergence.
pub struct State {
    data: Vec<u8>,
    updates: u64,
    total_updates: u64,
}

impl View for State {
    type V = Seq<u8>;

    closed spec fn view(&self) -> Seq<u8> {
        self.data@
    }
}

impl State {
    /// Node writes since the counter was last reset by a settlement attempt.
    pub closed spec fn spec_updates(&self) -> u64 {
        self.updates
    }

    /// Lifetime node writes, for diagnostics; saturates at the top of u64.
    pub closed spec fn spec_total_updates(&self) -> u64 {
        self.total_updates
    }

    /// Every node byte is one of the two sentinel values.
    pub open spec fn wf(&self) -> bool {
        forall|i: int| 0 <= i < self@.len() ==> is_bool_byte(#[trigger] self@[i])
    }

    /// Whether node `i` reads true.
    pub open spec fn node_on(&self, i: int) -> bool {
        self@[i] == 255u8
    }

    /// A fresh store of `len` nodes, all false, with zeroed counters.
    pub fn new(len: usize) -> (s: State)
        ensures
            s@.len() == len,
            forall|i: int| 0 <= i < len ==> s@[i] == 0u8,
            s.wf(),
            s.spec_updates() == 0,
            s.spec_total_updates() == 0,
    {
        let mut data: Vec<u8> = Vec::new();
        let mut j: usize = 0;
        while j < len
            invariant
                j <= len,
                data@.len() == j,
                forall|i: int| 0 <= i < j ==> data@[i] == 0u8,
            decreases len - j,
        {
            data.push(0u8);
            j = j + 1;
        }
        State { data, updates: 0, total_updates: 0 }
    }

    /// A store whose node values are given as booleans, with zeroed counters.
    pub fn from_bools(bits: &Vec<bool>) -> (s: State)
        ensures
            s@.len() == bits@.len(),
            forall|i: int| 0 <= i < bits@.len() ==> s@[i] == byte_of_bool(bits@[i]),
            s.wf(),
            s.spec_updates() == 0,
            s.spec_total_updates() == 0,
    {
        let mut data: Vec<u8> = Vec::new();
        let mut j: usize = 0;
        while j < bits.len()
            invariant
                j <= bits@.len(),
                data@.len() == j,
                forall|i: int| 0 <= i < j ==> data@[i] == byte_of_bool(bits@[i]),
            decreases bits@.len() - j,
        {
            let b: u8 = if bits[j] {
                255
            } else {
                0
            };
            data.push(b);
            j = j + 1;
        }
        State { data, updates: 0, total_updates: 0 }
    }

    /// The number of nodes.
    pub fn len(&self) -> (r: usize)
        ensures
            r == self@.len(),
    {
        self.data.len()
    }

    /// The counter of node writes since the last settlement reset.
    pub fn updates(&self) -> (r: u64)
        ensures
            r == self.spec_updates(),
    {
        self.updates
    }

    /// The lifetime node-write counter.
    pub fn total_updates(&self) -> (r: u64)
        ensures
            r == self.spec_total_updates(),
    {
        self.total_updates
    }

    /// Read one signal bit: the node's top bit, or the tie-off constant.
    pub fn read_bit(&self, b: SignalBit) -> (r: bool)
        requires
            b matches SignalBit::Net(i) ==> i < self@.len(),
        ensures
            r == bit_on(self@, b),
    {
        match b {
            SignalBit::Net(i) => self.data[i] == 255,
            SignalBit::Tie(v) => v,
        }
    }

    /// Read a signal as an unsigned integer, the first entry contributing the
    /// low-order bit. Fails on the first out-of-range node index, and on the
    /// first node byte that is not a sentinel value (a defensive check that a
    /// correctly settled network never triggers).
    pub fn get(&self, bits: &Vec<SignalBit>) -> (r: Result<u64, SimError>)
        requires
            bits@.len() <= 64,
        ensures
            match r {
                Ok(v) => read_fault(self@, bits@) is None && v == sig_val(self@, bits@),
                Err(e) => read_fault(self@, bits@) == Some(e),
            },
    {
        let n = bits.len();
        proof {
            assert(bits@.skip(0) =~= bits@);
        }
        let mut j: usize = 0;
        while j < n
            invariant
                j <= n,
                n == bits@.len(),
                read_fault(self@, bits@) == read_fault(self@, bits@.skip(j as int)),
            decreases n - j,
        {
            proof {
                assert(bits@.skip(j as int).drop_first() =~= bits@.skip(j as int + 1));
                assert(bits@.skip(j as int)[0] == bits@[j as int]);
            }
            match bits[j] {
                SignalBit::Net(i) => {
                    if i >= self.data.len() {
                        return Err(SimError::IndexOutOfRange { node: i });
                    }
                    let b = self.data[i];
                    if !(b == 0 || b == 255) {
                        return Err(SimError::NonBooleanState { node: i });
                    }
                },
                SignalBit::Tie(_) => {},
            }
            j = j + 1;
        }
        proof {
            assert(bits@.skip(n as int) =~= Seq::<SignalBit>::empty());
            lemma_read_fault_none(self@, bits@);
        }
        let mut v: u64 = 0;
        let mut k: usize = n;
        while k > 0
            invariant
                k <= n,
                n == bits@.len() <= 64,
                read_fault(self@, bits@) is None,
                forall|j2: int|
                    0 <= j2 < bits@.len() ==> ((#[trigger] bits@[j2]) matches SignalBit::Net(i)
                        ==> i < self@.len() && is_bool_byte(self@[i as int])),
                v == sig_val(self@, bits@.skip(k as int)),
            decreases k,
        {
            k = k - 1;
            let on = self.read_bit(bits[k]);
            proof {
                assert(bits@.skip(k as int).drop_first() =~= bits@.skip(k as int + 1));
                assert(bits@.skip(k as int)[0] == bits@[k as int]);
                lemma_sig_val_bound(self@, bits@.skip(k as int));
                if bits@.skip(k as int).len() < 64 {
                    lemma_pow2_strictly_increases(bits@.skip(k as int).len(), 64);
                }
                lemma2_to64();
            }
            v = 2 * v + (if on {
                1
            } else {
                0
            });
        }
        proof {
            assert(bits@.skip(0) =~= bits@);
        }
        Ok(v)
    }

    /// Write `val` to an 8-bit bus of plain node references, bit 0 first,
    /// each bit becoming a full sentinel byte. The bus width is fixed by the
    /// memory interface; a mismatched list is a caller error, not a
    /// recoverable condition.
    pub fn set(&mut self, bits: &Vec<SignalBit>, val: u8)
        requires
            bits@.len() == 8,
            forall|j: int|
                0 <= j < bits@.len() ==> ((#[trigger] bits@[j]) matches SignalBit::Net(i) && i
                    < old(self)@.len()),
        ensures
            final(self)@ == write_bits(old(self)@, bits@, val as nat),
            final(self)@.len() == old(self)@.len(),
            old(self).wf() ==> final(self).wf(),
            final(self).spec_updates() == old(self).spec_updates(),
            final(self).spec_total_updates() == old(self).spec_total_updates(),
    {
        let ghost total = write_bits(old(self)@, bits@, val as nat);
        proof {
            assert(bits@.skip(0) =~= bits@);
        }
        let mut v: u8 = val;
        let mut j: usize = 0;
        while j < 8
            invariant
                j <= 8,
                bits@.len() == 8,
                forall|j2: int|
                    0 <= j2 < bits@.len() ==> ((#[trigger] bits@[j2]) matches SignalBit::Net(i)
                        && i < self@.len()),
                self@.len() == old(self)@.len(),
                write_bits(self@, bits@.skip(j as int), v as nat) == total,
                old(self).wf() ==> self.wf(),
                self.spec_updates() == old(self).spec_updates(),
                self.spec_total_updates() == old(self).spec_total_updates(),
            decreases 8 - j,
        {
            proof {
                assert(bits@.skip(j as int).drop_first() =~= bits@.skip(j as int + 1));
                assert(bits@.skip(j as int)[0] == bits@[j as int]);
                assert((v & 1) == (v % 2)) by (bit_vector);
                assert((v >> 1) == (v / 2)) by (bit_vector);
            }
            let on = (v & 1) == 1;
            match bits[j] {
                SignalBit::Net(i) => {
                    self.data[i] = if on {
                        255
                    } else {
                        0
                    };
                },
                SignalBit::Tie(_) => {
                    // The precondition admits node references only.
                    proof {
                        assert(false);
                    }
                },
            }
            v = v >> 1;
            j = j + 1;
        }
        proof {
            assert(bits@.skip(8) =~= Seq::<SignalBit>::empty());
        }
    }

    /// Write one node directly: a full sentinel byte for the boolean.
    pub fn set_bit(&mut self, node: usize, on: bool)
        requires
            node < old(self)@.len(),
        ensures
            final(self)@ == old(self)@.update(node as int, byte_of_bool(on)),
            old(self).wf() ==> final(self).wf(),
            final(self).spec_updates() == old(self).spec_updates(),
            final(self).spec_total_updates() == old(self).spec_total_updates(),
    {
        self.data[node] = if on {
            255
        } else {
            0
        };
    }

    /// Invert one node's sentinel byte; used for clock and reset toggling.
    pub fn flip(&mut self, node: usize)
        requires
            node < old(self)@.len(),
            is_bool_byte(old(self)@[node as int]),
        ensures
            final(self)@ == old(self)@.update(
                node as int,
                byte_of_bool(old(self)@[node as int] != 255u8),
            ),
            old(self).wf() ==> final(self).wf(),
            final(self).spec_updates() == old(self).spec_updates(),
            final(self).spec_total_updates() == old(self).spec_total_updates(),
    {
        let cur = self.data[node];
        proof {
            assert((cur == 0 || cur == 255) ==> !cur == (if cur != 255 {
                255u8
            } else {
                0u8
            })) by (bit_vector);
        }
        self.data[node] = !cur;
    }

    /// Evaluate one gate: write the sentinel NAND of nodes `a` and `b` to
    /// node `y`. When the written value differs from the present one, both
    /// write counters advance; that increment is the convergence signal the
    /// settlement sweep watches.
    pub fn nand(&mut self, a: usize, b: usize, y: usize)
        requires
            a < old(self)@.len(),
            b < old(self)@.len(),
            y < old(self)@.len(),
            is_bool_byte(old(self)@[a as int]),
            is_bool_byte(old(self)@[b as int]),
            old(self).spec_updates() < u64::MAX,
        ensures
            final(self)@ == old(self)@.update(
                y as int,
                nand_byte(old(self)@[a as int], old(self)@[b as int]),
            ),
            final(self)@.len() == old(self)@.len(),
            old(self).wf() ==> final(self).wf(),
            final(self).spec_updates() == old(self).spec_updates() + (if old(self)@[y as int]
                != nand_byte(old(self)@[a as int], old(self)@[b as int]) {
                1int
            } else {
                0int
            }),
            final(self).spec_total_updates() == (if old(self)@[y as int] != nand_byte(
                old(self)@[a as int],
                old(self)@[b as int],
            ) && old(self).spec_total_updates() < u64::MAX {
                old(self).spec_total_updates() + 1
            } else {
                old(self).spec_total_updates() as int
            }),
    {
        let da = self.data[a];
        let db = self.data[b];
        let nxt = !(da & db);
        proof {
            assert(((da == 0 || da == 255) && (db == 0 || db == 255)) ==> !(da & db) == (if da
                == 255 && db == 255 {
                0u8
            } else {
                255u8
            })) by (bit_vector);
        }
        if self.data[y] != nxt {
            self.data[y] = nxt;
            self.updates = self.updates + 1;
            if self.total_updates < u64::MAX {
                self.total_updates = self.total_updates + 1;
            }
        } else {
            proof {
                assert(self@ =~= old(self)@.update(
                    y as int,
                    nand_byte(old(self)@[a as int], old(self)@[b as int]),
                ));
            }
        }
    }

    /// Evaluate every gate once, in declaration order. The write counter ends
    /// at zero exactly when the network was already settled, in which case the
    /// node bytes are unchanged.
    fn sweep_gates(&mut self, gates: &Vec<Gate>)
        requires
            old(self).wf(),
            gates_in_bounds(gates@, old(self)@.len()),
            old(self).spec_updates() == 0,
        ensures
            final(self)@ == sweep(old(self)@, gates@),
            final(self)@.len() == old(self)@.len(),
            final(self).wf(),
            (final(self).spec_updates() == 0) <==> settled(old(self)@, gates@),
            final(self).spec_updates() == 0 ==> final(self)@ == old(self)@,
            final(self).spec_total_updates() >= old(self).spec_total_updates(),
    {
        let n = gates.len();
        let mut j: usize = 0;
        while j < n
            invariant
                j <= n,
                n == gates@.len(),
                gates_in_bounds(gates@, old(self)@.len()),
                self@.len() == old(self)@.len(),
                self.wf(),
                self@ == sweep_prefix(old(self)@, gates@, j as int),
                self.spec_updates() <= j,
                (self.spec_updates() == 0) <==> settled_to(old(self)@, gates@, j as int),
                self.spec_updates() == 0 ==> self@ == old(self)@,
                self.spec_total_updates() >= old(self).spec_total_updates(),
            decreases n - j,
        {
            let g = gates[j];
            let ghost pre = self@;
            let ghost was = self.spec_updates();
            self.nand(g.a, g.b, g.y);
            proof {
                assert(self@ == sweep_prefix(old(self)@, gates@, j as int + 1));
                if was == 0 {
                    if pre[g.y as int] == nand_byte(pre[g.a as int], pre[g.b as int]) {
                        assert(apply_gate(pre, g) =~= pre);
                        assert(settled_to(old(self)@, gates@, j as int + 1));
                    } else {
                        assert(old(self)@[gates@[j as int].y as int] != nand_byte(
                            old(self)@[gates@[j as int].a as int],
                            old(self)@[gates@[j as int].b as int],
                        ));
                        assert(!settled_to(old(self)@, gates@, j as int + 1));
                    }
                } else {
                    assert(!settled_to(old(self)@, gates@, j as int));
                    assert(!settled_to(old(self)@, gates@, j as int + 1));
                }
            }
            j = j + 1;
        }
    }

    /// Drive the circuit to a fixed point after an external perturbation:
    /// sweep the whole gate list until one full sweep makes no write, or
    /// until the sweep bound is exhausted, which reports a genuinely
    /// oscillating network as a settlement divergence.
    ///
    /// On success the network is settled and the write counter reads zero;
    /// in particular a second call on an already settled network returns at
    /// once with zero updates and the node bytes unchanged.
    pub fn tick(&mut self, gates: &Vec<Gate>) -> (r: Result<(), SimError>)
        requires
            old(self).wf(),
            gates_in_bounds(gates@, old(self)@.len()),
        ensures
            final(self)@.len() == old(self)@.len(),
            final(self).wf(),
            final(self).spec_total_updates() >= old(self).spec_total_updates(),
            r is Ok <==> settled(sweeps(old(self)@, gates@, (SWEEP_LIMIT - 1) as nat), gates@),
            match r {
                Ok(_) => final(self)@ == sweeps(old(self)@, gates@, (SWEEP_LIMIT - 1) as nat)
                    && settled(final(self)@, gates@) && final(self).spec_updates() == 0,
                Err(e) => e == SimError::SettlementDivergence && final(self)@ == sweeps(
                    old(self)@,
                    gates@,
                    SWEEP_LIMIT as nat,
                ),
            },
            settled(old(self)@, gates@) ==> (r is Ok && final(self)@ == old(self)@
                && final(self).spec_updates() == 0),
    {
        self.updates = 0;
        let mut done: u64 = 0;
        while done < SWEEP_LIMIT
            invariant
                done <= SWEEP_LIMIT,
                self.wf(),
                self@.len() == old(self)@.len(),
                gates_in_bounds(gates@, old(self)@.len()),
                self.spec_updates() == 0,
                self@ == sweeps(old(self)@, gates@, done as nat),
                forall|m: nat|
                    m < done ==> !settled(#[trigger] sweeps(old(self)@, gates@, m), gates@),
                self.spec_total_updates() >= old(self).spec_total_updates(),
            decreases SWEEP_LIMIT - done,
        {
            let ghost pre = self@;
            self.sweep_gates(gates);
            done = done + 1;
            if self.updates == 0 {
                proof {
                    lemma_sweeps_mono(
                        old(self)@,
                        gates@,
                        (done - 1) as nat,
                        (SWEEP_LIMIT - 1) as nat,
                    );
                    if settled(old(self)@, gates@) {
                        lemma_settled_sweeps_id(old(self)@, gates@, (done - 1) as nat);
                    }
                }
                return Ok(());
            }
            self.updates = 0;
        }
        proof {
            assert(!settled(sweeps(old(self)@, gates@, (SWEEP_LIMIT - 1) as nat), gates@));
            if settled(old(self)@, gates@) {
                assert(!settled(sweeps(old(self)@, gates@, 0nat), gates@));
            }
        }
        Err(SimError::SettlementDivergence)
    }
}

} // verus!
