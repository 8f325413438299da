//! Emission of a selected cover as ECP5 cells.

use vstd::prelude::*;

use crate::cells::Bit;
use crate::cells::CellModel;
use crate::cells::Ecp5Cell;
use crate::cover::lemma_nets_below;
use crate::cover::plan_is_sound;
use crate::cover::plans_are_sound;
use crate::cuts::cut_truth_table;
use crate::cuts::lut4_init;
use crate::cuts::lut4_table;
use crate::cuts::truth_bit;
use crate::cuts::truth_table;
use crate::cuts::LUT_INPUTS;
use crate::cuts::WIDE_LUT_INPUTS;
use crate::ir::net_wire;
use crate::ir::readable;
use crate::ir::readable_below;
use crate::ir::wire_number;
use crate::ir::NetId;
use crate::ir::Netlist;
use crate::ir::Node;
use crate::ir::NodeKind;
use crate::netlist::cell_models;
use crate::plans::plan_model;
use crate::plans::plan_models;
use crate::plans::LutPlan;
use crate::plans::PlanModel;
use crate::text::decimal;
use crate::text::decimal_text;
use crate::text::join;
use crate::wires::assignments;
use crate::wires::count_assignments;

verus! {

/// The constant bit of a Boolean.
pub open spec fn constant_bit(value: bool) -> Bit {
    if value {
        Bit::One
    } else {
        Bit::Zero
    }
}

impl vstd::std_specs::convert::FromSpecImpl<bool> for Bit {
    open spec fn obeys_from_spec() -> bool {
        true
    }

    open spec fn from_spec(value: bool) -> Self {
        constant_bit(value)
    }
}

impl From<bool> for Bit {
    fn from(value: bool) -> (bit: Self) {
        if value {
            Bit::One
        } else {
            Bit::Zero
        }
    }
}

/// What has been emitted so far.
#[verifier::ext_equal]
pub struct EmitterModel {
    pub bits: Seq<Option<Bit>>,
    pub cells: Seq<CellModel>,
    pub next_wire: u32,
    pub exhausted: bool,
}

/// The state after one wire was taken; the wire is the earlier `next_wire`.
pub open spec fn wire_taken(state: EmitterModel) -> EmitterModel {
    if state.next_wire == u32::MAX {
        EmitterModel { exhausted: true, ..state }
    } else {
        EmitterModel { next_wire: (state.next_wire + 1) as u32, ..state }
    }
}

/// The state with one more cell.
pub open spec fn with_cell(state: EmitterModel, cell: CellModel) -> EmitterModel {
    EmitterModel { cells: state.cells.push(cell), ..state }
}

/// The state in which `net` is mapped to `bit`.
pub open spec fn with_alias(state: EmitterModel, net: NetId, bit: Bit) -> EmitterModel {
    EmitterModel { bits: state.bits.update(net as int, Some(bit)), ..state }
}

/// The bit that `net` is mapped to; zero while it is not mapped.
pub open spec fn bit_of(bits: Seq<Option<Bit>>, net: NetId) -> Bit {
    match bits[net as int] {
        Some(bit) => bit,
        None => Bit::Zero,
    }
}

/// Pin `index` of a lookup table; unused pins are zero.
pub open spec fn pin_of(inputs: Seq<Bit>, index: int) -> Bit {
    if index < inputs.len() {
        inputs[index]
    } else {
        Bit::Zero
    }
}

/// The four pins of a lookup table.
pub open spec fn padded(inputs: Seq<Bit>) -> [Bit; 4] {
    [pin_of(inputs, 0), pin_of(inputs, 1), pin_of(inputs, 2), pin_of(inputs, 3)]
}

/// The half of a truth table in which the last of `inputs` inputs is zero.
pub open spec fn low_half(truth: u128, inputs: nat) -> u128 {
    truth & ((1u128 << (assignments((inputs - 1) as nat) as u128)) - 1) as u128
}

/// The half of a truth table in which the last of `inputs` inputs is one.
pub open spec fn high_half(truth: u128, inputs: nat) -> u128 {
    truth >> (assignments((inputs - 1) as nat) as u128)
}

/// The state after a function of `inputs` was emitted: one lookup table, or a
/// dedicated mux over the two halves of the function.
pub open spec fn with_function(
    state: EmitterModel,
    name: Seq<char>,
    inputs: Seq<Bit>,
    output: u32,
    truth: u128,
) -> EmitterModel
    decreases inputs.len(),
{
    if inputs.len() <= LUT_INPUTS {
        with_cell(
            state,
            CellModel::Lut4 {
                name,
                inputs: padded(inputs),
                output,
                init: lut4_table(truth, inputs.len()) as u16,
            },
        )
    } else {
        let zero = state.next_wire;
        let after_zero = wire_taken(state);
        let one = after_zero.next_wire;
        let start = wire_taken(after_zero);
        let low = with_function(
            start,
            name + "_wide0"@,
            inputs.drop_last(),
            zero,
            low_half(truth, inputs.len()),
        );
        let high = with_function(
            low,
            name + "_wide1"@,
            inputs.drop_last(),
            one,
            high_half(truth, inputs.len()),
        );
        with_cell(
            high,
            if inputs.len() == 5 {
                CellModel::PfuMux {
                    name,
                    lut_true: Bit::Wire(one),
                    lut_false: Bit::Wire(zero),
                    select: inputs.last(),
                    output,
                }
            } else {
                CellModel::L6Mux21 {
                    name,
                    data_zero: Bit::Wire(zero),
                    data_one: Bit::Wire(one),
                    select: inputs.last(),
                    output,
                }
            },
        )
    }
}

/// The bits that nets are mapped to.
pub open spec fn bits_of(bits: Seq<Option<Bit>>, nets: Seq<NetId>) -> Seq<Bit> {
    Seq::new(nets.len(), |i: int| bit_of(bits, nets[i]))
}

/// The state after `net` and what its plan reads were mapped.
pub open spec fn net_mapped(
    nodes: Seq<Node>,
    plans: Seq<Option<PlanModel>>,
    state: EmitterModel,
    net: NetId,
) -> EmitterModel
    decreases 2 * net + 1, 0nat,
{
    if state.bits[net as int] is Some {
        state
    } else {
        match plans[net as int] {
            Some(plan) => {
                let below = leaves_mapped(
                    nodes,
                    plans,
                    state,
                    plan.leaves,
                    plan.leaves.len(),
                    net as nat,
                );
                let emitted = with_function(
                    below,
                    "lut"@ + decimal_text(net as nat),
                    bits_of(below.bits, plan.leaves),
                    net_wire(net),
                    truth_table(nodes, net, plan.leaves) as u128,
                );
                with_alias(emitted, net, Bit::Wire(net_wire(net)))
            },
            None => state,
        }
    }
}

/// The state after the first `count` leaves below `bound` were mapped.
pub open spec fn leaves_mapped(
    nodes: Seq<Node>,
    plans: Seq<Option<PlanModel>>,
    state: EmitterModel,
    leaves: Seq<NetId>,
    count: nat,
    bound: nat,
) -> EmitterModel
    decreases 2 * bound, count,
{
    if count == 0 {
        state
    } else {
        let rest = leaves_mapped(nodes, plans, state, leaves, (count - 1) as nat, bound);
        if leaves[count - 1] < bound {
            net_mapped(nodes, plans, rest, leaves[count - 1])
        } else {
            rest
        }
    }
}

/// Whether every readable net below `limit` is mapped or has a plan.
pub open spec fn supplied(
    nodes: Seq<Node>,
    plans: Seq<Option<PlanModel>>,
    bits: Seq<Option<Bit>>,
    limit: int,
) -> bool {
    bits.len() == nodes.len() && forall|i: int|
        0 <= i < limit && i < nodes.len() && !(nodes[i].kind is Output) ==> (
        #[trigger] bits[i]) is Some || plans[i] is Some
}

/// Whether every net mapped in `before` is mapped the same way in `after`.
pub open spec fn keeps_bits(before: Seq<Option<Bit>>, after: Seq<Option<Bit>>) -> bool {
    before.len() == after.len() && forall|i: int|
        0 <= i < before.len() && before[i] is Some ==> #[trigger] after[i] == before[i]
}

/// The cells emitted so far and the bits that nets are mapped to.
pub struct LutEmitter {
    /// The bit of each mapped net.
    pub bits: Vec<Option<Bit>>,
    /// The emitted cells.
    pub cells: Vec<Ecp5Cell>,
    /// The next unused wire.
    pub next_wire: u32,
    /// Whether wire numbers ran out.
    pub exhausted: bool,
}

impl View for LutEmitter {
    type V = EmitterModel;

    open spec fn view(&self) -> EmitterModel {
        EmitterModel {
            bits: self.bits@,
            cells: cell_models(self.cells@),
            next_wire: self.next_wire,
            exhausted: self.exhausted,
        }
    }
}

/// The bit of a node that needs no cell: sources keep their wire, constants their value.
pub open spec fn source_bit(kind: NodeKind, net: NetId) -> Option<Bit> {
    match kind {
        NodeKind::Input | NodeKind::RegisterOutput | NodeKind::MemoryOutput => Some(
            Bit::Wire(net_wire(net)),
        ),
        NodeKind::Constant(value) => Some(constant_bit(value)),
        _ => None,
    }
}

/// Nothing emitted yet.
pub open spec fn emitter_start(nodes: Seq<Node>) -> EmitterModel {
    EmitterModel {
        bits: Seq::new(nodes.len(), |i: int| source_bit(nodes[i].kind, i as NetId)),
        cells: seq![],
        next_wire: (nodes.len() + 2) as u32,
        exhausted: false,
    }
}

/// The net after one more cell was emitted.
proof fn lemma_pushed(cells: Seq<Ecp5Cell>, cell: Ecp5Cell)
    ensures
        cell_models(cells.push(cell)) == cell_models(cells).push(cell@),
{
    assert(cell_models(cells.push(cell)) =~= cell_models(cells).push(cell@));
}

impl LutEmitter {
    /// Starts with sources and constants mapped.
    pub fn new(netlist: &Netlist) -> (emitter: Self)
        requires
            netlist.is_valid(),
        ensures
            emitter@ == emitter_start(netlist.nodes@),
    {
        let mut bits: Vec<Option<Bit>> = Vec::new();
        for i in 0..netlist.nodes.len()
            invariant
                netlist.is_valid(),
                bits@.len() == i,
                forall|j: int|
                    0 <= j < i ==> bits@[j] == source_bit(netlist.nodes@[j].kind, j as NetId),
        {
            let bit = match netlist.nodes[i].kind {
                NodeKind::Input | NodeKind::RegisterOutput | NodeKind::MemoryOutput => Some(
                    Bit::Wire(wire_number(i as NetId)),
                ),
                NodeKind::Constant(value) => Some(Bit::from(value)),
                _ => None,
            };
            bits.push(bit);
        }
        let emitter = LutEmitter {
            bits,
            cells: Vec::new(),
            next_wire: netlist.nodes.len() as u32 + 2,
            exhausted: false,
        };
        assert(emitter@.bits =~= emitter_start(netlist.nodes@).bits);
        assert(emitter@.cells =~= emitter_start(netlist.nodes@).cells);
        emitter
    }

    /// Takes one wire.
    pub fn fresh_wire(&mut self) -> (wire: u32)
        ensures
            wire == old(self).next_wire,
            final(self)@ == wire_taken(old(self)@),
    {
        let wire = self.next_wire;
        if wire == u32::MAX {
            self.exhausted = true;
        } else {
            self.next_wire = wire + 1;
        }
        wire
    }

    /// Adds one cell.
    pub fn push_cell(&mut self, cell: Ecp5Cell)
        ensures
            final(self)@ == with_cell(old(self)@, cell@),
    {
        proof {
            lemma_pushed(self.cells@, cell);
        }
        self.cells.push(cell);
    }

    /// Maps `net` to `bit`.
    pub fn alias_net(&mut self, net: NetId, bit: Bit)
        requires
            net < old(self).bits@.len(),
        ensures
            final(self)@ == with_alias(old(self)@, net, bit),
    {
        self.bits.set(net as usize, Some(bit));
    }

    /// The bit that `net` is mapped to.
    pub fn mapped_net(&self, net: NetId) -> (bit: Bit)
        requires
            net < self.bits@.len(),
        ensures
            bit == bit_of(self.bits@, net),
    {
        match self.bits[net as usize] {
            Some(bit) => bit,
            None => Bit::Zero,
        }
    }

    fn emit_lut4(&mut self, name: String, inputs: &Vec<Bit>, output: u32, init: u16)
        requires
            inputs@.len() <= LUT_INPUTS,
        ensures
            final(self)@ == with_cell(
                old(self)@,
                (CellModel::Lut4 { name: name@, inputs: padded(inputs@), output, init }),
            ),
    {
        let count = inputs.len();
        let a = if count > 0 {
            inputs[0]
        } else {
            Bit::Zero
        };
        let b = if count > 1 {
            inputs[1]
        } else {
            Bit::Zero
        };
        let c = if count > 2 {
            inputs[2]
        } else {
            Bit::Zero
        };
        let d = if count > 3 {
            inputs[3]
        } else {
            Bit::Zero
        };
        self.push_cell(Ecp5Cell::Lut4 { name, inputs: [a, b, c, d], output, init });
    }

    /// Emits a function of at most seven inputs.
    pub fn emit_wide_lut(&mut self, name: &str, inputs: &Vec<Bit>, output: u32, truth: u128)
        requires
            inputs@.len() <= WIDE_LUT_INPUTS,
        ensures
            final(self)@ == with_function(old(self)@, name@, inputs@, output, truth),
        decreases inputs@.len(),
    {
        if inputs.len() <= LUT_INPUTS {
            let init = lut4_init(truth, inputs.len());
            self.emit_lut4(name.to_owned(), inputs, output, init);
            return;
        }
        let ghost start = self@;
        let count = inputs.len();
        let half = count_assignments(count - 1);
        proof {
            reveal_with_fuel(assignments, 8);
            assert((1u128 << 16u128) > 0 && (1u128 << 32u128) > 0 && (1u128 << 64u128) > 0)
                by (bit_vector);
        }
        let mask = (1u128 << (half as u128)) - 1;
        let data_zero = self.fresh_wire();
        let data_one = self.fresh_wire();
        let mut rest: Vec<Bit> = Vec::new();
        for i in 0..count - 1
            invariant
                count == inputs@.len(),
                count > LUT_INPUTS,
                rest@ == inputs@.take(i as int),
        {
            rest.push(inputs[i]);
            assert(rest@ =~= inputs@.take(i + 1));
        }
        assert(rest@ =~= inputs@.drop_last());
        self.emit_wide_lut(join(name, "_wide0").as_str(), &rest, data_zero, truth & mask);
        self.emit_wide_lut(
            join(name, "_wide1").as_str(),
            &rest,
            data_one,
            truth >> (half as u128),
        );
        let cell = if count == 5 {
            Ecp5Cell::PfuMux {
                name: name.to_owned(),
                lut_true: Bit::Wire(data_one),
                lut_false: Bit::Wire(data_zero),
                select: inputs[4],
                output,
            }
        } else {
            Ecp5Cell::L6Mux21 {
                name: name.to_owned(),
                data_zero: Bit::Wire(data_zero),
                data_one: Bit::Wire(data_one),
                select: inputs[count - 1],
                output,
            }
        };
        self.push_cell(cell);
    }
}

/// A function keeps the mapped bits.
pub proof fn lemma_function_bits(
    state: EmitterModel,
    name: Seq<char>,
    inputs: Seq<Bit>,
    output: u32,
    truth: u128,
)
    ensures
        with_function(state, name, inputs, output, truth).bits == state.bits,
    decreases inputs.len(),
{
    if inputs.len() > LUT_INPUTS {
        let zero = state.next_wire;
        let after_zero = wire_taken(state);
        let one = after_zero.next_wire;
        let start = wire_taken(after_zero);
        let rest = inputs.drop_last();
        let low_truth = low_half(truth, inputs.len());
        lemma_function_bits(start, name + "_wide0"@, rest, zero, low_truth);
        let low = with_function(start, name + "_wide0"@, rest, zero, low_truth);
        lemma_function_bits(low, name + "_wide1"@, rest, one, high_half(truth, inputs.len()));
    }
}

impl LutEmitter {
    /// Maps `net`, and first what its plan reads; returns its bit.
    pub fn map_net(&mut self, netlist: &Netlist, plans: &Vec<Option<LutPlan>>, net: NetId) -> (bit:
        Bit)
        requires
            netlist.is_valid(),
            plans_are_sound(
                netlist.nodes@,
                plan_models(plans@),
                netlist.nodes@.len() as int,
            ),
            readable(netlist.nodes@, net),
            supplied(netlist.nodes@, plan_models(plans@), old(self).bits@, net + 1),
        ensures
            final(self)@ == net_mapped(netlist.nodes@, plan_models(plans@), old(self)@, net),
            keeps_bits(old(self).bits@, final(self).bits@),
            final(self).bits@[net as int] == Some(bit),
        decreases 2 * net + 1, 0nat,
    {
        let ghost nodes = netlist.nodes@;
        let ghost models = plan_models(plans@);
        if let Some(bit) = self.bits[net as usize] {
            return bit;
        }
        let ghost before = self@;
        proof {
            assert(models[net as int] == plan_model(plans@[net as int]));
            assert(plan_is_sound(nodes, net as int, models[net as int]));
            assert(self.bits@[net as int] is Some || models[net as int] is Some);
        }
        let output = wire_number(net);
        let bit = Bit::Wire(output);
        if let Some(plan) = &plans[net as usize] {
            self.map_leaves(netlist, plans, &plan.leaves, net);
            let ghost below = self@;
            let mut inputs: Vec<Bit> = Vec::new();
            proof {
                lemma_nets_below(nodes, plan.leaves@, net as int);
            }
            for i in 0..plan.leaves.len()
                invariant
                    self.bits@ == below.bits,
                    self.bits@.len() == nodes.len(),
                    crate::plans::nets_below(plan.leaves@, nodes.len() as int),
                    inputs@ == bits_of(below.bits, plan.leaves@).take(i as int),
            {
                assert(plan.leaves@[i as int] < nodes.len());
                inputs.push(self.mapped_net(plan.leaves[i]));
                assert(inputs@ =~= bits_of(below.bits, plan.leaves@).take(i + 1));
            }
            assert(inputs@ =~= bits_of(below.bits, plan.leaves@));
            let truth = cut_truth_table(&netlist.nodes, net, &plan.leaves);
            let name = join("lut", decimal(net as u128).as_str());
            self.emit_wide_lut(name.as_str(), &inputs, output, truth);
            proof {
                lemma_function_bits(below, name@, inputs@, output, truth);
            }
            self.alias_net(net, bit);
        }
        bit
    }

    fn map_leaves(
        &mut self,
        netlist: &Netlist,
        plans: &Vec<Option<LutPlan>>,
        leaves: &Vec<NetId>,
        bound: NetId,
    )
        requires
            netlist.is_valid(),
            plans_are_sound(
                netlist.nodes@,
                plan_models(plans@),
                netlist.nodes@.len() as int,
            ),
            readable_below(netlist.nodes@, leaves@, bound as int),
            supplied(netlist.nodes@, plan_models(plans@), old(self).bits@, bound as int),
        ensures
            final(self)@ == leaves_mapped(
                netlist.nodes@,
                plan_models(plans@),
                old(self)@,
                leaves@,
                leaves@.len(),
                bound as nat,
            ),
            keeps_bits(old(self).bits@, final(self).bits@),
        decreases 2 * bound, leaves@.len() + 1,
    {
        let ghost nodes = netlist.nodes@;
        let ghost models = plan_models(plans@);
        let ghost before = self@;
        for i in 0..leaves.len()
            invariant
                netlist.is_valid(),
                nodes == netlist.nodes@,
                models == plan_models(plans@),
                plans_are_sound(nodes, models, nodes.len() as int),
                readable_below(nodes, leaves@, bound as int),
                supplied(nodes, models, self.bits@, bound as int),
                keeps_bits(before.bits, self.bits@),
                self@ == leaves_mapped(nodes, models, before, leaves@, i as nat, bound as nat),
        {
            assert(readable(nodes, leaves@[i as int]));
            self.map_net(netlist, plans, leaves[i]);
        }
    }
}

/// Splitting a function over its last input keeps its values: the low half
/// gives them where that input is zero, the high half where it is one.
pub proof fn law_halves_keep_values(truth: u128, inputs: nat, assignment: nat)
    requires
        LUT_INPUTS < inputs <= WIDE_LUT_INPUTS,
        assignment < assignments(inputs),
    ensures
        assignment < assignments((inputs - 1) as nat) ==> truth_bit(
            low_half(truth, inputs),
            assignment,
        ) == truth_bit(truth, assignment),
        assignment >= assignments((inputs - 1) as nat) ==> truth_bit(
            high_half(truth, inputs),
            (assignment - assignments((inputs - 1) as nat)) as nat,
        ) == truth_bit(truth, assignment),
{
    reveal_with_fuel(assignments, 9);
    let half = assignments((inputs - 1) as nat) as u128;
    let a = assignment as u128;
    assert(half == 16 || half == 32 || half == 64);
    let mask = ((1u128 << half) - 1) as u128;
    if a < half {
        assert(((truth & mask) >> a) & 1u128 == (truth >> a) & 1u128) by (bit_vector)
            requires
                a < half,
                half <= 64u128,
                mask == ((1u128 << half) - 1) as u128,
        ;
    } else {
        let b = (a - half) as u128;
        assert(((truth >> half) >> b) & 1u128 == (truth >> a) & 1u128) by (bit_vector)
            requires
                a == half + b,
                half <= 64u128,
                b < 64u128,
        ;
    }
}

} // verus!
