use vstd::prelude::*;
use vstd::arithmetic::power2::{pow2, lemma_pow2_strictly_increases, lemma2_to64};
use vstd::string::StringSliceAdditionalSpecFns;
use crate::assembler::{assemble, spec_assemble};
use crate::errors::{CheckpointFault, SimError};
use crate::netlist::{
    Gate, Netlist, SignalBit, bits_in_bounds, nl_in_bounds, nl_max, find_idx, spec_signal,
    spec_signal_w,
};
use crate::state::{
    State, byte_of_bool, bit_on, is_bool_byte, sig_val, write_bits, settled, sweeps, read_fault,
    gates_in_bounds, lemma_sig_val_bound, SWEEP_LIMIT,
};

verus! {

/// The size of the byte-addressed memory the harness emulates.
pub const MEM_SIZE: usize = 65536;

/// The largest node count the simulator will allocate for a netlist; a
/// netlist referencing a node at or past this limit is rejected before any
/// cycle runs.
pub const NODE_LIMIT: usize = 4194304;

/// One point of an expected execution trace: the program counter and the
/// four architectural register values asserted at an instruction boundary.
#[derive(Debug, Clone, Copy, PartialEq, Eq, Structural)]
pub struct Checkpoint {
    pub pc: u64,
    pub r0: u64,
    pub r1: u64,
    pub r2: u64,
    pub r3: u64,
}

/// The signals the harness drives and samples, resolved to bit vectors.
pub struct SigSet {
    pub clk: usize,
    pub rst: usize,
    pub state_bits: Vec<SignalBit>,
    pub addr_bits: Vec<SignalBit>,
    pub inp_lo: Vec<SignalBit>,
    pub inp_hi: Vec<SignalBit>,
    pub out_bits: Vec<SignalBit>,
    pub pc_bits: Vec<SignalBit>,
    pub we: SignalBit,
    pub halted: SignalBit,
    pub flag: SignalBit,
    pub reg0: Vec<SignalBit>,
    pub reg1: Vec<SignalBit>,
    pub reg2: Vec<SignalBit>,
    pub reg3: Vec<SignalBit>,
}

/// The mathematical image of a resolved signal set.
pub struct SigSpec {
    pub clk: usize,
    pub rst: usize,
    pub state_bits: Seq<SignalBit>,
    pub addr_bits: Seq<SignalBit>,
    pub inp_lo: Seq<SignalBit>,
    pub inp_hi: Seq<SignalBit>,
    pub out_bits: Seq<SignalBit>,
    pub pc_bits: Seq<SignalBit>,
    pub we: SignalBit,
    pub halted: SignalBit,
    pub flag: SignalBit,
    pub regs: Seq<Seq<SignalBit>>,
}

impl View for SigSet {
    type V = SigSpec;

    open spec fn view(&self) -> SigSpec {
        SigSpec {
            clk: self.clk,
            rst: self.rst,
            state_bits: self.state_bits@,
            addr_bits: self.addr_bits@,
            inp_lo: self.inp_lo@,
            inp_hi: self.inp_hi@,
            out_bits: self.out_bits@,
            pc_bits: self.pc_bits@,
            we: self.we,
            halted: self.halted,
            flag: self.flag,
            regs: seq![self.reg0@, self.reg1@, self.reg2@, self.reg3@],
        }
    }
}

/// Every entry of the bit vector is a node reference, none a tie-off.
pub open spec fn nodes_only(bits: Seq<SignalBit>) -> bool {
    forall|j: int| 0 <= j < bits.len() ==> (#[trigger] bits[j]) is Net
}

/// What resolving a single-bit signal that the harness must toggle returns:
/// the signal must exist, be one bit wide, and be a real node, not a
/// constant tie-off.
pub open spec fn spec_node_sig(nl: &Netlist, name: Seq<char>) -> Result<usize, SimError> {
    match spec_signal_w(nl, name, 1) {
        Err(e) => Err(e),
        Ok(bits) => match bits[0] {
            SignalBit::Net(i) => Ok(i),
            SignalBit::Tie(_) => Err(SimError::NetlistFormat),
        },
    }
}

/// What resolving a single-bit signal that the harness only reads returns.
pub open spec fn spec_bit_sig(nl: &Netlist, name: Seq<char>) -> Result<SignalBit, SimError> {
    match spec_signal_w(nl, name, 1) {
        Err(e) => Err(e),
        Ok(bits) => Ok(bits[0]),
    }
}

/// What resolving a sampled multi-bit signal returns: present, and no wider
/// than `cap`, so that its value fits the machine word the harness reads.
pub open spec fn spec_capped_sig(nl: &Netlist, name: Seq<char>, cap: nat) -> Result<
    Seq<SignalBit>,
    SimError,
> {
    match spec_signal(nl, name) {
        Err(e) => Err(e),
        Ok(bits) => if bits.len() <= cap {
            Ok(bits)
        } else {
            Err(SimError::SignalWidth { expected: cap as usize, actual: bits.len() as usize })
        },
    }
}

/// What resolving the whole signal set returns, in the order the harness
/// asks for the signals.
pub open spec fn spec_resolve(nl: &Netlist) -> Result<SigSpec, SimError> {
    match spec_node_sig(nl, "clock"@) {
        Err(e) => Err(e),
        Ok(clk) => match spec_capped_sig(nl, "state"@, 64) {
            Err(e) => Err(e),
            Ok(state_bits) => match spec_capped_sig(nl, "addr"@, 16) {
                Err(e) => Err(e),
                Ok(addr_bits) => match spec_signal_w(nl, "inp_val"@, 16) {
                    Err(e) => Err(e),
                    Ok(inp) => if !nodes_only(inp) {
                        Err(SimError::NetlistFormat)
                    } else {
                        match spec_signal_w(nl, "out_val"@, 16) {
                            Err(e) => Err(e),
                            Ok(out_bits) => match spec_capped_sig(nl, "program_counter"@, 64) {
                                Err(e) => Err(e),
                                Ok(pc_bits) => match spec_node_sig(nl, "reset"@) {
                                    Err(e) => Err(e),
                                    Ok(rst) => match spec_bit_sig(nl, "write_enable"@) {
                                        Err(e) => Err(e),
                                        Ok(we) => match spec_bit_sig(nl, "halted"@) {
                                            Err(e) => Err(e),
                                            Ok(halted) => match spec_bit_sig(nl, "flag"@) {
                                                Err(e) => Err(e),
                                                Ok(flag) => match spec_capped_sig(
                                                    nl,
                                                    "registers[0]"@,
                                                    64,
                                                ) {
                                                    Err(e) => Err(e),
                                                    Ok(r0) => match spec_capped_sig(
                                                        nl,
                                                        "registers[1]"@,
                                                        64,
                                                    ) {
                                                        Err(e) => Err(e),
                                                        Ok(r1) => match spec_capped_sig(
                                                            nl,
                                                            "registers[2]"@,
                                                            64,
                                                        ) {
                                                            Err(e) => Err(e),
                                                            Ok(r2) => match spec_capped_sig(
                                                                nl,
                                                                "registers[3]"@,
                                                                64,
                                                            ) {
                                                                Err(e) => Err(e),
                                                                Ok(r3) => Ok(
                                                                    SigSpec {
                                                                        clk,
                                                                        rst,
                                                                        state_bits,
                                                                        addr_bits,
                                                                        inp_lo: inp.subrange(
                                                                            0,
                                                                            8,
                                                                        ),
                                                                        inp_hi: inp.subrange(
                                                                            8,
                                                                            16,
                                                                        ),
                                                                        out_bits,
                                                                        pc_bits,
                                                                        we,
                                                                        halted,
                                                                        flag,
                                                                        regs: seq![
                                                                            r0,
                                                                            r1,
                                                                            r2,
                                                                            r3,
                                                                        ],
                                                                    },
                                                                ),
                                                            },
                                                        },
                                                    },
                                                },
                                            },
                                        },
                                    },
                                },
                            },
                        }
                    },
                },
            },
        },
    }
}

/// Resolve one single-bit signal to the node the harness will toggle.
fn node_sig(nl: &Netlist, name: &str) -> (r: Result<usize, SimError>)
    ensures
        r == spec_node_sig(nl, name@),
{
    match nl.signal_with_width(name, 1) {
        Err(e) => Err(e),
        Ok(bits) => match bits[0] {
            SignalBit::Net(i) => Ok(i),
            SignalBit::Tie(_) => Err(SimError::NetlistFormat),
        },
    }
}

/// Resolve one single-bit signal the harness only reads.
fn bit_sig(nl: &Netlist, name: &str) -> (r: Result<SignalBit, SimError>)
    ensures
        r == spec_bit_sig(nl, name@),
{
    match nl.signal_with_width(name, 1) {
        Err(e) => Err(e),
        Ok(bits) => Ok(bits[0]),
    }
}

/// Resolve one sampled multi-bit signal, capped at `cap` bits.
fn capped_sig(nl: &Netlist, name: &str, cap: usize) -> (r: Result<Vec<SignalBit>, SimError>)
    ensures
        match r {
            Ok(bits) => spec_capped_sig(nl, name@, cap as nat) == Ok::<Seq<SignalBit>, SimError>(
                bits@,
            ),
            Err(e) => spec_capped_sig(nl, name@, cap as nat) == Err::<Seq<SignalBit>, SimError>(
                e,
            ),
        },
{
    match nl.signal(name) {
        Err(e) => Err(e),
        Ok(bits) => if bits.len() <= cap {
            Ok(copy_bits(bits))
        } else {
            Err(SimError::SignalWidth { expected: cap, actual: bits.len() })
        },
    }
}

/// Whether every entry of the bit vector is a real node.
fn all_nodes(bits: &Vec<SignalBit>) -> (r: bool)
    ensures
        r == nodes_only(bits@),
{
    let mut j: usize = 0;
    while j < bits.len()
        invariant
            j <= bits@.len(),
            forall|k: int| 0 <= k < j ==> (#[trigger] bits@[k]) is Net,
        decreases bits@.len() - j,
    {
        match bits[j] {
            SignalBit::Net(_) => {},
            SignalBit::Tie(_) => { return false },
        }
        j = j + 1;
    }
    true
}

/// Copy a bit vector out of the netlist, entry for entry.
fn copy_bits(bits: &Vec<SignalBit>) -> (r: Vec<SignalBit>)
    ensures
        r@ == bits@,
{
    let mut r: Vec<SignalBit> = Vec::new();
    let mut j: usize = 0;
    while j < bits.len()
        invariant
            j <= bits@.len(),
            r@ == bits@.take(j as int),
        decreases bits@.len() - j,
    {
        proof {
            assert(bits@.take(j as int + 1).drop_last() =~= bits@.take(j as int));
            assert(bits@.take(j as int + 1).last() == bits@[j as int]);
        }
        r.push(bits[j]);
        j = j + 1;
    }
    proof {
        assert(bits@.take(bits@.len() as int) =~= bits@);
    }
    r
}

/// Copy a slice of a bit vector, from `from` up to `to`.
fn copy_bits_range(bits: &Vec<SignalBit>, from: usize, to: usize) -> (r: Vec<SignalBit>)
    requires
        from <= to <= bits@.len(),
    ensures
        r@ == bits@.subrange(from as int, to as int),
{
    let mut r: Vec<SignalBit> = Vec::new();
    let mut j: usize = from;
    while j < to
        invariant
            from <= j <= to <= bits@.len(),
            r@ == bits@.subrange(from as int, j as int),
        decreases to - j,
    {
        proof {
            assert(bits@.subrange(from as int, j as int + 1).drop_last() =~= bits@.subrange(
                from as int,
                j as int,
            ));
            assert(bits@.subrange(from as int, j as int + 1).last() == bits@[j as int]);
        }
        r.push(bits[j]);
        j = j + 1;
    }
    r
}

/// Resolve every signal the harness needs, in the order it asks for them;
/// the first missing signal, wrong width or constant-tied control line
/// decides the failure.
fn resolve_signals(nl: &Netlist) -> (r: Result<SigSet, SimError>)
    ensures
        match r {
            Ok(s) => spec_resolve(nl) == Ok::<SigSpec, SimError>(s@),
            Err(e) => spec_resolve(nl) == Err::<SigSpec, SimError>(e),
        },
{
    let clk = match node_sig(nl, "clock") {
        Ok(v) => v,
        Err(e) => { return Err(e) },
    };
    let state_bits = match capped_sig(nl, "state", 64) {
        Ok(v) => v,
        Err(e) => { return Err(e) },
    };
    let addr_bits = match capped_sig(nl, "addr", 16) {
        Ok(v) => v,
        Err(e) => { return Err(e) },
    };
    let inp = match nl.signal_with_width("inp_val", 16) {
        Ok(v) => v,
        Err(e) => { return Err(e) },
    };
    if !all_nodes(inp) {
        return Err(SimError::NetlistFormat);
    }
    let inp_lo = copy_bits_range(inp, 0, 8);
    let inp_hi = copy_bits_range(inp, 8, 16);
    let out_bits = match nl.signal_with_width("out_val", 16) {
        Ok(v) => copy_bits(v),
        Err(e) => { return Err(e) },
    };
    let pc_bits = match capped_sig(nl, "program_counter", 64) {
        Ok(v) => v,
        Err(e) => { return Err(e) },
    };
    let rst = match node_sig(nl, "reset") {
        Ok(v) => v,
        Err(e) => { return Err(e) },
    };
    let we = match bit_sig(nl, "write_enable") {
        Ok(v) => v,
        Err(e) => { return Err(e) },
    };
    let halted = match bit_sig(nl, "halted") {
        Ok(v) => v,
        Err(e) => { return Err(e) },
    };
    let flag = match bit_sig(nl, "flag") {
        Ok(v) => v,
        Err(e) => { return Err(e) },
    };
    let reg0 = match capped_sig(nl, "registers[0]", 64) {
        Ok(v) => v,
        Err(e) => { return Err(e) },
    };
    let reg1 = match capped_sig(nl, "registers[1]", 64) {
        Ok(v) => v,
        Err(e) => { return Err(e) },
    };
    let reg2 = match capped_sig(nl, "registers[2]", 64) {
        Ok(v) => v,
        Err(e) => { return Err(e) },
    };
    let reg3 = match capped_sig(nl, "registers[3]", 64) {
        Ok(v) => v,
        Err(e) => { return Err(e) },
    };
    let s = SigSet {
        clk,
        rst,
        state_bits,
        addr_bits,
        inp_lo,
        inp_hi,
        out_bits,
        pc_bits,
        we,
        halted,
        flag,
        reg0,
        reg1,
        reg2,
        reg3,
    };
    Ok(s)
}

/// Every node a resolved signal set references lies below `len`, and every
/// bus has the width the harness leans on.
pub open spec fn sig_in_bounds(s: SigSpec, len: nat) -> bool {
    &&& s.clk < len
    &&& s.rst < len
    &&& bits_in_bounds(s.state_bits, len) && s.state_bits.len() <= 64
    &&& bits_in_bounds(s.addr_bits, len) && s.addr_bits.len() <= 16
    &&& bits_in_bounds(s.inp_lo, len) && s.inp_lo.len() == 8 && nodes_only(s.inp_lo)
    &&& bits_in_bounds(s.inp_hi, len) && s.inp_hi.len() == 8 && nodes_only(s.inp_hi)
    &&& bits_in_bounds(s.out_bits, len) && s.out_bits.len() == 16
    &&& bits_in_bounds(s.pc_bits, len) && s.pc_bits.len() <= 64
    &&& (s.we matches SignalBit::Net(i) ==> i < len)
    &&& (s.halted matches SignalBit::Net(i) ==> i < len)
    &&& (s.flag matches SignalBit::Net(i) ==> i < len)
    &&& s.regs.len() == 4
    &&& forall|k: int|
        0 <= k < 4 ==> bits_in_bounds(#[trigger] s.regs[k], len) && s.regs[k].len() <= 64
}

/// A signal index that is found lies inside the signal list.
proof fn lemma_find_idx_range(sigs: Seq<crate::netlist::Signal>, name: Seq<char>)
    ensures
        find_idx(sigs, name) == -1 || (0 <= find_idx(sigs, name) < sigs.len()),
    decreases sigs.len(),
{
    if sigs.len() > 0 && sigs[0].name@ != name {
        lemma_find_idx_range(sigs.drop_first(), name);
    }
}

/// The bits a successful lookup returns are node references of the netlist,
/// so a bound on the whole netlist bounds them too.
proof fn lemma_sig_lookup_bounds(nl: &Netlist, name: Seq<char>, len: nat)
    requires
        spec_signal(nl, name) is Ok,
        nl_in_bounds(nl, len),
    ensures
        bits_in_bounds(spec_signal(nl, name)->Ok_0, len),
{
    lemma_find_idx_range(nl.signals@, name);
}

/// Sub-vectors keep the bounds and the node-only property.
proof fn lemma_bits_subrange(bits: Seq<SignalBit>, len: nat, from: int, to: int)
    requires
        bits_in_bounds(bits, len),
        0 <= from <= to <= bits.len(),
    ensures
        bits_in_bounds(bits.subrange(from, to), len),
        nodes_only(bits) ==> nodes_only(bits.subrange(from, to)),
{
    assert forall|j: int| 0 <= j < to - from implies ((#[trigger] bits.subrange(from, to)[j])
        matches SignalBit::Net(i) ==> i < len) by {
        assert(bits.subrange(from, to)[j] == bits[from + j]);
    }
    if nodes_only(bits) {
        assert forall|j: int| 0 <= j < to - from implies (#[trigger] bits.subrange(from, to)[j])
            is Net by {
            assert(bits.subrange(from, to)[j] == bits[from + j]);
        }
    }
}

/// A resolved signal set of an in-bounds netlist is in bounds itself.
proof fn lemma_resolved_in_bounds(nl: &Netlist, sig: SigSpec, len: nat)
    requires
        spec_resolve(nl) == Ok::<SigSpec, SimError>(sig),
        nl_in_bounds(nl, len),
    ensures
        sig_in_bounds(sig, len),
{
    lemma_sig_lookup_bounds(nl, "clock"@, len);
    lemma_sig_lookup_bounds(nl, "state"@, len);
    lemma_sig_lookup_bounds(nl, "addr"@, len);
    lemma_sig_lookup_bounds(nl, "inp_val"@, len);
    lemma_sig_lookup_bounds(nl, "out_val"@, len);
    lemma_sig_lookup_bounds(nl, "program_counter"@, len);
    lemma_sig_lookup_bounds(nl, "reset"@, len);
    lemma_sig_lookup_bounds(nl, "write_enable"@, len);
    lemma_sig_lookup_bounds(nl, "halted"@, len);
    lemma_sig_lookup_bounds(nl, "flag"@, len);
    lemma_sig_lookup_bounds(nl, "registers[0]"@, len);
    lemma_sig_lookup_bounds(nl, "registers[1]"@, len);
    lemma_sig_lookup_bounds(nl, "registers[2]"@, len);
    lemma_sig_lookup_bounds(nl, "registers[3]"@, len);
    let inp = spec_signal(nl, "inp_val"@)->Ok_0;
    lemma_bits_subrange(inp, len, 0, 8);
    lemma_bits_subrange(inp, len, 8, 16);
    assert(nodes_only(inp.subrange(0, 8)));
    assert(nodes_only(inp.subrange(8, 16)));
}

/// Reading over sentinel bytes through in-bounds bits never faults.
proof fn lemma_no_read_fault(s: Seq<u8>, bits: Seq<SignalBit>)
    requires
        forall|i: int| 0 <= i < s.len() ==> is_bool_byte(#[trigger] s[i]),
        bits_in_bounds(bits, s.len()),
    ensures
        read_fault(s, bits) is None,
    decreases bits.len(),
{
    if bits.len() > 0 {
        assert forall|k: int| 0 <= k < bits.drop_first().len() implies ((
        #[trigger] bits.drop_first()[k]) matches SignalBit::Net(i) ==> i < s.len()) by {
            assert(bits.drop_first()[k] == bits[k + 1]);
        }
        lemma_no_read_fault(s, bits.drop_first());
    }
}

/// The node bytes after toggling one node.
pub open spec fn flip_at(s: Seq<u8>, i: int) -> Seq<u8> {
    s.update(i, byte_of_bool(s[i] != 255u8))
}

/// What one settlement attempt returns: the fixed point the bounded sweep
/// sequence reaches, or a divergence failure.
pub open spec fn tick_model(s: Seq<u8>, gates: Seq<Gate>) -> Result<Seq<u8>, SimError> {
    if settled(sweeps(s, gates, (SWEEP_LIMIT - 1) as nat), gates) {
        Ok(sweeps(s, gates, (SWEEP_LIMIT - 1) as nat))
    } else {
        Err(SimError::SettlementDivergence)
    }
}

/// Settlement is idempotent: a second settlement attempt on a settled
/// network succeeds and changes nothing, so a tick after a tick without an
/// intervening write makes zero node writes.
pub proof fn lemma_tick_model_idempotent(s: Seq<u8>, gates: Seq<Gate>, t: Seq<u8>)
    requires
        gates_in_bounds(gates, s.len()),
        tick_model(s, gates) == Ok::<Seq<u8>, SimError>(t),
    ensures
        tick_model(t, gates) == Ok::<Seq<u8>, SimError>(t),
{
    crate::state::lemma_sweeps_len(s, gates, (SWEEP_LIMIT - 1) as nat);
    crate::state::lemma_settled_sweeps_id(t, gates, (SWEEP_LIMIT - 1) as nat);
}

/// What the reset sequence leaves on the nodes: settle, pulse the reset
/// line high for one settlement, release it, settle again.
pub open spec fn reset_model(s0: Seq<u8>, gates: Seq<Gate>, rst: int) -> Result<Seq<u8>, SimError> {
    match tick_model(s0, gates) {
        Err(e) => Err(e),
        Ok(s1) => match tick_model(flip_at(s1, rst), gates) {
            Err(e) => Err(e),
            Ok(s2) => tick_model(flip_at(s2, rst), gates),
        },
    }
}

/// Memory after seeding a word image at address 0, little-endian.
pub open spec fn load_words(mem: Seq<u8>, ws: Seq<u16>) -> Seq<u8>
    decreases ws.len(),
{
    if ws.len() == 0 {
        mem
    } else {
        let k = ws.len() - 1;
        let w = ws[k];
        load_words(mem, ws.drop_last()).update(2 * k, (w as nat % 256) as u8).update(
            2 * k + 1,
            (w as nat / 256) as u8,
        )
    }
}

/// The register a checkpoint expects at position `i`.
pub open spec fn cp_reg(c: Checkpoint, i: int) -> u64 {
    if i == 0 {
        c.r0
    } else if i == 1 {
        c.r1
    } else if i == 2 {
        c.r2
    } else {
        c.r3
    }
}

/// The first register whose sampled value differs from the checkpoint, or
/// -1 when all four agree.
pub open spec fn first_reg_mismatch(st: Seq<u8>, sig: SigSpec, c: Checkpoint) -> int {
    if sig_val(st, sig.regs[0]) != c.r0 {
        0
    } else if sig_val(st, sig.regs[1]) != c.r1 {
        1
    } else if sig_val(st, sig.regs[2]) != c.r2 {
        2
    } else if sig_val(st, sig.regs[3]) != c.r3 {
        3
    } else {
        -1
    }
}

/// What the checkpoint logic of one cycle decides: at an instruction
/// boundary with the clock low, the first boundary after reset is discarded
/// and every later one is held against the next expected checkpoint.
pub open spec fn checkpoint_step(
    st: Seq<u8>,
    sig: SigSpec,
    trace: Option<Seq<Checkpoint>>,
    idx: nat,
    first: bool,
) -> Result<(nat, bool), SimError> {
    match trace {
        Option::None => Ok((idx, first)),
        Option::Some(t) => if idx < t.len() && sig_val(st, sig.state_bits) == 1 && st[
            sig.clk as int
        ] != 255u8 {
            if first {
                Ok((idx, false))
            } else {
                let c = t[idx as int];
                let pcv = sig_val(st, sig.pc_bits);
                if pcv != c.pc {
                    Err(
                        SimError::CheckpointMismatch {
                            fault: CheckpointFault::Pc {
                                index: idx as usize,
                                expected: c.pc,
                                actual: pcv as u64,
                            },
                        },
                    )
                } else {
                    let m = first_reg_mismatch(st, sig, c);
                    if m >= 0 {
                        Err(
                            SimError::CheckpointMismatch {
                                fault: CheckpointFault::Register {
                                    index: idx as usize,
                                    register: m as usize,
                                    pc: c.pc,
                                    expected: cp_reg(c, m),
                                    actual: sig_val(st, sig.regs[m]) as u64,
                                },
                            },
                        )
                    } else {
                        Ok(((idx + 1) as nat, first))
                    }
                }
            }
        } else {
            Ok((idx, first))
        },
    }
}

/// Memory after a 16-bit little-endian write at `addr`; the high byte wraps
/// around the top of the address space.
pub open spec fn mem_write16(mem: Seq<u8>, addr: nat, val: nat) -> Seq<u8> {
    mem.update(addr as int, (val % 256) as u8).update(
        ((addr + 1) % (MEM_SIZE as nat)) as int,
        ((val / 256) % 256) as u8,
    )
}

/// What servicing the memory bus does in one cycle: honour a write-enable
/// store, then feed the two bytes at the address bus into the input-value
/// bus, whose halves always carry the live memory contents.
pub open spec fn mem_step(st: Seq<u8>, sig: SigSpec, mem: Seq<u8>) -> (Seq<u8>, Seq<u8>) {
    let mem1 = if bit_on(st, sig.we) {
        mem_write16(mem, sig_val(st, sig.addr_bits), sig_val(st, sig.out_bits))
    } else {
        mem
    };
    let a = sig_val(st, sig.addr_bits);
    let lo = mem1[a as int];
    let hi = mem1[((a + 1) % (MEM_SIZE as nat)) as int];
    let st1 = write_bits(st, sig.inp_lo, lo as nat);
    let st2 = write_bits(st1, sig.inp_hi, hi as nat);
    (mem1, st2)
}

/// The outcome of one cycle.
pub enum CycleOut {
    Fail { err: SimError },
    Step { st: Seq<u8>, mem: Seq<u8>, idx: nat, first: bool, stop: bool },
}

/// One full cycle: toggle the clock, settle, check the trace, service the
/// memory bus, and sample the halted line.
pub open spec fn cycle_model(
    gates: Seq<Gate>,
    sig: SigSpec,
    trace: Option<Seq<Checkpoint>>,
    st0: Seq<u8>,
    mem: Seq<u8>,
    idx: nat,
    first: bool,
) -> CycleOut {
    match tick_model(flip_at(st0, sig.clk as int), gates) {
        Err(e) => CycleOut::Fail { err: e },
        Ok(st) => match checkpoint_step(st, sig, trace, idx, first) {
            Err(e) => CycleOut::Fail { err: e },
            Ok(step) => {
                let (mem1, st2) = mem_step(st, sig, mem);
                CycleOut::Step {
                    st: st2,
                    mem: mem1,
                    idx: step.0,
                    first: step.1,
                    stop: bit_on(st2, sig.halted),
                }
            },
        },
    }
}

/// The outcome of the cycle loop.
pub enum RunOut {
    Fail { err: SimError, mem: Seq<u8> },
    Done { st: Seq<u8>, mem: Seq<u8>, idx: nat },
}

/// Up to `n` cycles, stopping early when the halted signal asserts.
pub open spec fn run_cycles_model(
    gates: Seq<Gate>,
    sig: SigSpec,
    trace: Option<Seq<Checkpoint>>,
    st: Seq<u8>,
    mem: Seq<u8>,
    idx: nat,
    first: bool,
    n: nat,
) -> RunOut
    decreases n,
{
    if n == 0 {
        RunOut::Done { st, mem, idx }
    } else {
        match cycle_model(gates, sig, trace, st, mem, idx, first) {
            CycleOut::Fail { err } => RunOut::Fail { err, mem },
            CycleOut::Step { st: st2, mem: mem2, idx: idx2, first: first2, stop } => if stop {
                RunOut::Done { st: st2, mem: mem2, idx: idx2 }
            } else {
                run_cycles_model(gates, sig, trace, st2, mem2, idx2, first2, (n - 1) as nat)
            },
        }
    }
}

/// The failure a short trace leaves after the run, if any: every expected
/// checkpoint must have been consumed.
pub open spec fn count_fault(idx: nat, trace: Option<Seq<Checkpoint>>) -> Option<SimError> {
    match trace {
        Option::None => Option::None,
        Option::Some(t) => if idx == t.len() {
            Option::None
        } else {
            Option::Some(
                SimError::CheckpointMismatch {
                    fault: CheckpointFault::Count {
                        consumed: idx as usize,
                        expected: t.len() as usize,
                    },
                },
            )
        },
    }
}

/// The first listed memory expectation the final memory misses, or -1.
pub open spec fn first_mem_mismatch(mem: Seq<u8>, xs: Seq<(usize, u8)>) -> int
    decreases xs.len(),
{
    if xs.len() == 0 {
        -1
    } else if mem[xs[0].0 as int] != xs[0].1 {
        0
    } else {
        let r = first_mem_mismatch(mem, xs.drop_first());
        if r < 0 {
            -1
        } else {
            r + 1
        }
    }
}

/// The failure the expected memory snapshot leaves after the run, if any.
pub open spec fn mem_fault(mem: Seq<u8>, expected: Option<Seq<(usize, u8)>>) -> Option<SimError> {
    match expected {
        Option::None => Option::None,
        Option::Some(xs) => {
            let k = first_mem_mismatch(mem, xs);
            if k < 0 {
                Option::None
            } else {
                Option::Some(
                    SimError::MemoryMismatch {
                        addr: xs[k].0,
                        expected: xs[k].1,
                        actual: mem[xs[k].0 as int],
                    },
                )
            }
        },
    }
}

/// The outcome and the final memory of a whole run.
pub struct RunModel {
    pub result: Result<(), SimError>,
    pub mem: Seq<u8>,
}

/// The view of an optional expected trace.
pub open spec fn trace_view(o: Option<&Vec<Checkpoint>>) -> Option<Seq<Checkpoint>> {
    match o {
        Option::Some(v) => Option::Some(v@),
        Option::None => Option::None,
    }
}

/// The view of an optional expected memory snapshot.
pub open spec fn expmem_view(o: Option<&Vec<(usize, u8)>>) -> Option<Seq<(usize, u8)>> {
    match o {
        Option::Some(v) => Option::Some(v@),
        Option::None => Option::None,
    }
}

/// The whole run: seed the image, resolve the signals, size and reset the
/// circuit, drive the cycle loop, then hold the outcome against the
/// expected trace length and memory snapshot.
pub open spec fn run_model(
    nl: &Netlist,
    ws: Seq<u16>,
    cycles: nat,
    trace: Option<Seq<Checkpoint>>,
    expected: Option<Seq<(usize, u8)>>,
    mem0: Seq<u8>,
) -> RunModel {
    let mem1 = load_words(mem0, ws);
    match spec_resolve(nl) {
        Err(e) => RunModel { result: Err(e), mem: mem1 },
        Ok(sig) => if nl_max(nl) >= NODE_LIMIT as int {
            RunModel {
                result: Err(SimError::IndexOutOfRange { node: nl_max(nl) as usize }),
                mem: mem1,
            }
        } else {
            let st0 = Seq::new((nl_max(nl) + 1) as nat, |i: int| 0u8);
            match reset_model(st0, nl.gates@, sig.rst as int) {
                Err(e) => RunModel { result: Err(e), mem: mem1 },
                Ok(st1) => match run_cycles_model(nl.gates@, sig, trace, st1, mem1, 0, true,
                    cycles,
                ) {
                    RunOut::Fail { err, mem: mem2 } => RunModel { result: Err(err), mem: mem2 },
                    RunOut::Done { st: _, mem: mem2, idx } => match count_fault(idx, trace) {
                        Option::Some(e) => RunModel { result: Err(e), mem: mem2 },
                        Option::None => match mem_fault(mem2, expected) {
                            Option::Some(e) => RunModel { result: Err(e), mem: mem2 },
                            Option::None => RunModel { result: Ok(()), mem: mem2 },
                        },
                    },
                },
            }
        },
    }
}

/// Read one sampled signal; well-formed state and in-bounds bits rule the
/// defensive faults out.
fn sample(st: &State, bits: &Vec<SignalBit>) -> (v: u64)
    requires
        st.wf(),
        bits@.len() <= 64,
        bits_in_bounds(bits@, st@.len()),
    ensures
        v == sig_val(st@, bits@),
{
    proof {
        lemma_no_read_fault(st@, bits@);
    }
    match st.get(bits) {
        Ok(v) => v,
        Err(_) => {
            // Ruled out above: a fault needs an out-of-range node or a
            // non-sentinel byte.
            proof {
                assert(false);
            }
            0
        },
    }
}

/// Sample the phase signal, program counter and register bank, and hold
/// them against the next expected checkpoint when this settled state is an
/// instruction boundary with the clock low.
fn check_trace(
    st: &State,
    s: &SigSet,
    trace: Option<&Vec<Checkpoint>>,
    idx: usize,
    first: bool,
) -> (r: Result<(usize, bool), SimError>)
    requires
        st.wf(),
        sig_in_bounds(s@, st@.len()),
        match trace_view(trace) {
            Option::Some(t) => idx <= t.len(),
            Option::None => true,
        },
    ensures
        match r {
            Ok(p) => checkpoint_step(st@, s@, trace_view(trace), idx as nat, first) == Ok::<
                (nat, bool),
                SimError,
            >((p.0 as nat, p.1)),
            Err(e) => checkpoint_step(st@, s@, trace_view(trace), idx as nat, first) == Err::<
                (nat, bool),
                SimError,
            >(e),
        },
{
    let t = match trace {
        Option::None => { return Ok((idx, first)) },
        Option::Some(t) => t,
    };
    proof {
        assert(s@.regs[0] == s.reg0@ && s@.regs[1] == s.reg1@ && s@.regs[2] == s.reg2@
            && s@.regs[3] == s.reg3@);
    }
    let stv = sample(st, &s.state_bits);
    let clk_low = !st.read_bit(SignalBit::Net(s.clk));
    if !(idx < t.len() && stv == 1 && clk_low) {
        return Ok((idx, first));
    }
    if first {
        return Ok((idx, false));
    }
    let c = t[idx];
    let pcv = sample(st, &s.pc_bits);
    if pcv != c.pc {
        return Err(
            SimError::CheckpointMismatch {
                fault: CheckpointFault::Pc { index: idx, expected: c.pc, actual: pcv },
            },
        );
    }
    let rv0 = sample(st, &s.reg0);
    if rv0 != c.r0 {
        return Err(
            SimError::CheckpointMismatch {
                fault: CheckpointFault::Register {
                    index: idx,
                    register: 0,
                    pc: c.pc,
                    expected: c.r0,
                    actual: rv0,
                },
            },
        );
    }
    let rv1 = sample(st, &s.reg1);
    if rv1 != c.r1 {
        return Err(
            SimError::CheckpointMismatch {
                fault: CheckpointFault::Register {
                    index: idx,
                    register: 1,
                    pc: c.pc,
                    expected: c.r1,
                    actual: rv1,
                },
            },
        );
    }
    let rv2 = sample(st, &s.reg2);
    if rv2 != c.r2 {
        return Err(
            SimError::CheckpointMismatch {
                fault: CheckpointFault::Register {
                    index: idx,
                    register: 2,
                    pc: c.pc,
                    expected: c.r2,
                    actual: rv2,
                },
            },
        );
    }
    let rv3 = sample(st, &s.reg3);
    if rv3 != c.r3 {
        return Err(
            SimError::CheckpointMismatch {
                fault: CheckpointFault::Register {
                    index: idx,
                    register: 3,
                    pc: c.pc,
                    expected: c.r3,
                    actual: rv3,
                },
            },
        );
    }
    Ok((idx + 1, first))
}

/// Seed a word image into memory starting at address 0, each word as two
/// little-endian bytes.
pub fn load_image(mem: &mut Vec<u8>, ws: &Vec<u16>)
    requires
        old(mem)@.len() == MEM_SIZE,
        ws@.len() * 2 <= MEM_SIZE,
    ensures
        final(mem)@ == load_words(old(mem)@, ws@),
        final(mem)@.len() == MEM_SIZE,
{
    let mut i: usize = 0;
    while i < ws.len()
        invariant
            i <= ws@.len(),
            ws@.len() * 2 <= MEM_SIZE,
            mem@.len() == MEM_SIZE,
            mem@ == load_words(old(mem)@, ws@.take(i as int)),
        decreases ws@.len() - i,
    {
        proof {
            assert(ws@.take(i as int + 1).drop_last() =~= ws@.take(i as int));
            assert(ws@.take(i as int + 1).last() == ws@[i as int]);
        }
        let w = ws[i];
        let lo: u8 = (w % 256) as u8;
        let hi: u8 = (w / 256) as u8;
        mem[2 * i] = lo;
        mem[2 * i + 1] = hi;
        i = i + 1;
    }
    proof {
        assert(ws@.take(ws@.len() as int) =~= ws@);
    }
}

/// Run a seeded word image on a loaded netlist for at most `cycles` clock
/// half-periods, optionally holding the execution against an expected
/// checkpoint trace and an expected final memory snapshot.
///
/// The run fails before any cycle executes when a required signal is
/// missing or mis-sized, or when the netlist references a node past the
/// simulator's allocation limit; it fails during the run on settlement
/// divergence or a checkpoint mismatch; and it fails after the run when
/// checkpoints remain unconsumed or a memory byte misses its expectation.
pub fn run_image(
    ws: &Vec<u16>,
    cycles: usize,
    expected_states: Option<&Vec<Checkpoint>>,
    expected_memory: Option<&Vec<(usize, u8)>>,
    mem: &mut Vec<u8>,
    nl: &Netlist,
) -> (r: Result<(), SimError>)
    requires
        old(mem)@.len() == MEM_SIZE,
        ws@.len() * 2 <= MEM_SIZE,
        expected_memory matches Some(v) ==> forall|k: int|
            0 <= k < v@.len() ==> (#[trigger] v@[k]).0 < MEM_SIZE,
    ensures
        ({
            let m = run_model(
                nl,
                ws@,
                cycles as nat,
                trace_view(expected_states),
                expmem_view(expected_memory),
                old(mem)@,
            );
            r == m.result && final(mem)@ == m.mem
        }),
{
    let ghost m = run_model(
        nl,
        ws@,
        cycles as nat,
        trace_view(expected_states),
        expmem_view(expected_memory),
        old(mem)@,
    );
    load_image(mem, ws);
    let s = match resolve_signals(nl) {
        Ok(s) => s,
        Err(e) => {
            proof {
                assert(m.result == Err::<(), SimError>(e) && m.mem == mem@);
            }
            return Err(e);
        },
    };
    let bound: usize = match nl.max_node() {
        Some(mx) => {
            if mx >= NODE_LIMIT {
                proof {
                    assert(m.result == Err::<(), SimError>(
                        SimError::IndexOutOfRange { node: mx },
                    ) && m.mem == mem@);
                }
                return Err(SimError::IndexOutOfRange { node: mx });
            }
            mx + 1
        },
        None => 0,
    };
    let ghost stlen = bound as nat;
    proof {
        lemma_resolved_in_bounds(nl, s@, stlen);
    }
    let mut st = State::new(bound);
    proof {
        assert(st@ =~= Seq::new((nl_max(nl) + 1) as nat, |i: int| 0u8));
    }
    let ghost gseq = nl.gates@;
    let ghost sigv = s@;
    let ghost st0 = st@;
    match st.tick(&nl.gates) {
        Ok(_) => {},
        Err(e) => {
            proof {
                assert(m.result == Err::<(), SimError>(e) && m.mem == mem@);
            }
            return Err(e);
        },
    }
    st.flip(s.rst);
    match st.tick(&nl.gates) {
        Ok(_) => {},
        Err(e) => {
            proof {
                assert(m.result == Err::<(), SimError>(e) && m.mem == mem@);
            }
            return Err(e);
        },
    }
    st.flip(s.rst);
    match st.tick(&nl.gates) {
        Ok(_) => {},
        Err(e) => {
            proof {
                assert(m.result == Err::<(), SimError>(e) && m.mem == mem@);
            }
            return Err(e);
        },
    }
    proof {
        assert(reset_model(st0, gseq, sigv.rst as int) == Ok::<Seq<u8>, SimError>(st@));
    }
    let ghost rst_st = st@;
    let ghost tview = trace_view(expected_states);
    let ghost emview = expmem_view(expected_memory);
    let ghost target = run_cycles_model(gseq, sigv, tview, st@, mem@, 0, true, cycles as nat);
    let mut idx: usize = 0;
    let mut first: bool = true;
    let mut halt: bool = false;
    let mut done: usize = 0;
    while !halt && done < cycles
        invariant
            done <= cycles,
            st.wf(),
            st@.len() == stlen,
            mem@.len() == MEM_SIZE,
            gseq == nl.gates@,
            sigv == s@,
            tview == trace_view(expected_states),
            emview == expmem_view(expected_memory),
            gates_in_bounds(gseq, stlen),
            sig_in_bounds(sigv, stlen),
            spec_resolve(nl) == Ok::<SigSpec, SimError>(sigv),
            nl_max(nl) < NODE_LIMIT as int,
            st0 == Seq::new((nl_max(nl) + 1) as nat, |i: int| 0u8),
            reset_model(st0, gseq, sigv.rst as int) == Ok::<Seq<u8>, SimError>(rst_st),
            target == run_cycles_model(
                gseq,
                sigv,
                tview,
                rst_st,
                load_words(old(mem)@, ws@),
                0,
                true,
                cycles as nat,
            ),
            m == run_model(
                nl,
                ws@,
                cycles as nat,
                tview,
                emview,
                old(mem)@,
            ),
            match tview {
                Option::Some(t) => idx <= t.len(),
                Option::None => idx == 0,
            },
            if halt {
                target == (RunOut::Done { st: st@, mem: mem@, idx: idx as nat })
            } else {
                target == run_cycles_model(
                    gseq,
                    sigv,
                    tview,
                    st@,
                    mem@,
                    idx as nat,
                    first,
                    (cycles - done) as nat,
                )
            },
        decreases cycles - done,
    {
        let ghost cyc_st = st@;
        let ghost cyc_mem = mem@;
        let ghost cyc_idx = idx as nat;
        let ghost cyc_first = first;
        st.flip(s.clk);
        match st.tick(&nl.gates) {
            Ok(_) => {},
            Err(e) => {
                proof {
                    assert(cycle_model(gseq, sigv, tview, cyc_st, cyc_mem, cyc_idx, cyc_first)
                        == (CycleOut::Fail { err: e }));
                    assert(m.result == Err::<(), SimError>(e) && m.mem == mem@);
                }
                return Err(e);
            },
        }
        let ghost settled_st = st@;
        match check_trace(&st, &s, expected_states, idx, first) {
            Ok(p) => {
                idx = p.0;
                first = p.1;
            },
            Err(e) => {
                proof {
                    assert(run_cycles_model(
                        gseq,
                        sigv,
                        tview,
                        cyc_st,
                        cyc_mem,
                        cyc_idx,
                        cyc_first,
                        (cycles - done) as nat,
                    ) == (RunOut::Fail { err: e, mem: cyc_mem }));
                    assert(m.result == Err::<(), SimError>(e) && m.mem == mem@);
                }
                return Err(e);
            },
        }
        proof {
            assert(checkpoint_step(settled_st, sigv, tview, cyc_idx, cyc_first) == Ok::<
                (nat, bool),
                SimError,
            >((idx as nat, first)));
            lemma_sig_val_bound(settled_st, sigv.addr_bits);
            if sigv.addr_bits.len() < 16 {
                lemma_pow2_strictly_increases(sigv.addr_bits.len(), 16);
            }
            lemma_sig_val_bound(settled_st, sigv.out_bits);
            lemma2_to64();
        }
        if st.read_bit(s.we) {
            let outv = sample(&st, &s.out_bits);
            let waddr = sample(&st, &s.addr_bits) as usize;
            mem[waddr] = (outv % 256) as u8;
            mem[(waddr + 1) % MEM_SIZE] = ((outv / 256) % 256) as u8;
        }
        let a = sample(&st, &s.addr_bits) as usize;
        let lo = mem[a];
        let hi = mem[(a + 1) % MEM_SIZE];
        st.set(&s.inp_lo, lo);
        st.set(&s.inp_hi, hi);
        proof {
            assert((mem@, st@) == mem_step(settled_st, sigv, cyc_mem));
        }
        if st.read_bit(s.halted) {
            halt = true;
        }
        done = done + 1;
        proof {
            assert(cycle_model(gseq, sigv, tview, cyc_st, cyc_mem, cyc_idx, cyc_first)
                == (CycleOut::Step {
                st: st@,
                mem: mem@,
                idx: idx as nat,
                first,
                stop: halt,
            }));
        }
    }
    proof {
        assert(target == (RunOut::Done { st: st@, mem: mem@, idx: idx as nat }));
        assert(m.mem == mem@);
    }
    match expected_states {
        Option::None => {},
        Option::Some(t) => {
            if idx != t.len() {
                proof {
                    assert(m.result == Err::<(), SimError>(
                        SimError::CheckpointMismatch {
                            fault: CheckpointFault::Count {
                                consumed: idx,
                                expected: t.len() as usize,
                            },
                        },
                    ));
                }
                return Err(
                    SimError::CheckpointMismatch {
                        fault: CheckpointFault::Count { consumed: idx, expected: t.len() },
                    },
                );
            }
        },
    }
    proof {
        assert(count_fault(idx as nat, tview) is None);
        assert(m.result == (match mem_fault(mem@, emview) {
            Option::Some(e) => Err::<(), SimError>(e),
            Option::None => Ok::<(), SimError>(()),
        }));
    }
    match expected_memory {
        Option::None => {},
        Option::Some(xs) => {
            proof {
                assert(xs@.skip(0) =~= xs@);
            }
            let mut k: usize = 0;
            while k < xs.len()
                invariant
                    k <= xs@.len(),
                    mem@.len() == MEM_SIZE,
                    m.mem == mem@,
                    tview == trace_view(expected_states),
                    emview == expmem_view(expected_memory),
                    m == run_model(nl, ws@, cycles as nat, tview, emview, old(mem)@),
                    emview == Option::Some(xs@),
                    m.result == (match mem_fault(mem@, emview) {
                        Option::Some(e) => Err::<(), SimError>(e),
                        Option::None => Ok::<(), SimError>(()),
                    }),
                    forall|j: int| 0 <= j < xs@.len() ==> (#[trigger] xs@[j]).0 < MEM_SIZE,
                    first_mem_mismatch(mem@, xs@) == ({
                        let r = first_mem_mismatch(mem@, xs@.skip(k as int));
                        if r < 0 {
                            -1int
                        } else {
                            k + r
                        }
                    }),
                decreases xs@.len() - k,
            {
                proof {
                    assert(xs@.skip(k as int).drop_first() =~= xs@.skip(k as int + 1));
                    assert(xs@.skip(k as int)[0] == xs@[k as int]);
                }
                let (addr, want) = xs[k];
                let got = mem[addr];
                if got != want {
                    proof {
                        assert(first_mem_mismatch(mem@, xs@) == k);
                        assert(m.result == Err::<(), SimError>(
                            SimError::MemoryMismatch { addr, expected: want, actual: got },
                        ));
                    }
                    return Err(SimError::MemoryMismatch { addr, expected: want, actual: got });
                }
                k = k + 1;
            }
            proof {
                assert(xs@.skip(xs@.len() as int) =~= Seq::<(usize, u8)>::empty());
            }
        },
    }
    proof {
        assert(m.mem == mem@);
        assert(m.result == Ok::<(), SimError>(()));
    }
    Ok(())
}

/// A fresh all-zero 64 KiB memory.
pub fn new_memory() -> (r: Vec<u8>)
    ensures
        r@ == Seq::new(MEM_SIZE as nat, |_i: int| 0u8),
{
    let mut r: Vec<u8> = Vec::new();
    let mut j: usize = 0;
    while j < MEM_SIZE
        invariant
            j <= MEM_SIZE,
            r@.len() == j,
            forall|i: int| 0 <= i < j ==> r@[i] == 0u8,
        decreases MEM_SIZE - j,
    {
        r.push(0u8);
        j = j + 1;
    }
    proof {
        assert(r@ =~= Seq::new(MEM_SIZE as nat, |_i: int| 0u8));
    }
    r
}

/// The outcome of assembling a program text and running its image.
pub open spec fn spec_run_program(
    nl: &Netlist,
    prog: Seq<u8>,
    cycles: nat,
    trace: Option<Seq<Checkpoint>>,
    expected: Option<Seq<(usize, u8)>>,
    mem0: Seq<u8>,
) -> RunModel {
    match spec_assemble(prog) {
        Err(e) => RunModel { result: Err(SimError::Assembly { error: e }), mem: mem0 },
        Ok(ws) => run_model(nl, ws, cycles, trace, expected, mem0),
    }
}

/// Assemble a program, seed it into the given memory, and run it on the
/// netlist, optionally holding the execution against an expected
/// checkpoint trace and a final memory snapshot.
pub fn run_test_program_with_expectations(
    program: &str,
    cycles: usize,
    expected_states: Option<&Vec<Checkpoint>>,
    expected_memory: Option<&Vec<(usize, u8)>>,
    mem: &mut Vec<u8>,
    nl: &Netlist,
) -> (r: Result<(), SimError>)
    requires
        old(mem)@.len() == MEM_SIZE,
        expected_memory matches Some(v) ==> forall|k: int|
            0 <= k < v@.len() ==> (#[trigger] v@[k]).0 < MEM_SIZE,
    ensures
        ({
            let m = spec_run_program(
                nl,
                program.spec_bytes(),
                cycles as nat,
                trace_view(expected_states),
                expmem_view(expected_memory),
                old(mem)@,
            );
            r == m.result && final(mem)@ == m.mem
        }),
{
    let ws = match assemble(program) {
        Ok(w) => w,
        Err(e) => { return Err(SimError::Assembly { error: e }) },
    };
    run_image(&ws, cycles, expected_states, expected_memory, mem, nl)
}

/// Run an assembly program on a fresh memory and hold its execution against
/// an expected checkpoint trace.
pub fn run_test_program(
    program: &str,
    cycles: usize,
    expected_states: &Vec<Checkpoint>,
    nl: &Netlist,
) -> (r: Result<(), SimError>)
    ensures
        r == spec_run_program(
            nl,
            program.spec_bytes(),
            cycles as nat,
            Some(expected_states@),
            None::<Seq<(usize, u8)>>,
            Seq::new(MEM_SIZE as nat, |_i: int| 0u8),
        ).result,
{
    let mut mem = new_memory();
    run_test_program_with_expectations(program, cycles, Some(expected_states), None, &mut mem, nl)
}

/// Run an assembly program on a fresh memory and hold the final memory
/// against an expected snapshot.
pub fn run_test_program_with_memory(
    program: &str,
    cycles: usize,
    expected_memory: &Vec<(usize, u8)>,
    nl: &Netlist,
) -> (r: Result<(), SimError>)
    requires
        forall|k: int| 0 <= k < expected_memory@.len() ==> (#[trigger] expected_memory@[k]).0
            < MEM_SIZE,
    ensures
        r == spec_run_program(
            nl,
            program.spec_bytes(),
            cycles as nat,
            None::<Seq<Checkpoint>>,
            Some(expected_memory@),
            Seq::new(MEM_SIZE as nat, |_i: int| 0u8),
        ).result,
{
    let mut mem = new_memory();
    run_test_program_with_expectations(
        program,
        cycles,
        None,
        Some(expected_memory),
        &mut mem,
        nl,
    )
}

} // verus!
