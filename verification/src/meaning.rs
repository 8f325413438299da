//! What emitted cells compute.
//!
//! A valuation gives every wire a value. Cells agree with a valuation when each
//! of them drives the value that its inputs call for. The laws here say that
//! under every such valuation the emitted cover carries the values of the
//! source gates.

use vstd::prelude::*;

use crate::arithmetic::lemma_table_of_same;
use crate::arithmetic::one_if;
use crate::arithmetic::CCU2C_ARITH_INIT;
use crate::cells::Bit;
use crate::cells::CellModel;
use crate::cover::plan_is_sound;
use crate::cover::plans_are_sound;
use crate::cuts::cone_value;
use crate::cuts::determined;
use crate::cuts::gate_value;
use crate::cuts::leaf_value;
use crate::cuts::lemma_assignments_fit;
use crate::cuts::lemma_assignments_power;
use crate::cuts::lut4_table;
use crate::cuts::nodes_are_valid;
use crate::cuts::truth_bit;
use crate::cuts::truth_table;
use crate::cuts::LUT_INPUTS;
use crate::cuts::WIDE_LUT_INPUTS;
use crate::emit::bits_of;
use crate::emit::emitter_start;
use crate::emit::high_half;
use crate::emit::keeps_bits;
use crate::emit::law_halves_keep_values;
use crate::emit::leaves_mapped;
use crate::emit::lemma_function_bits;
use crate::emit::low_half;
use crate::emit::net_mapped;
use crate::emit::padded;
use crate::emit::source_bit;
use crate::emit::supplied;
use crate::emit::wire_taken;
use crate::emit::with_function;
use crate::emit::EmitterModel;
use crate::ir::is_gate;
use crate::ir::net_wire;
use crate::ir::readable;
use crate::ir::NetId;
use crate::ir::Node;
use crate::plans::PlanModel;
use crate::text::decimal_text;
use crate::wires::assignments;
use crate::wires::carry_slice;
use crate::wires::lemma_table_of_bound;
use crate::wires::lemma_wire_index;
use crate::wires::pin_index;
use crate::wires::table_bit;
use crate::wires::table_of;
use crate::wires::wire_index;

verus! {

/// The value that a bit carries.
pub open spec fn bit_value(values: spec_fn(u32) -> bool, bit: Bit) -> bool {
    match bit {
        Bit::Zero => false,
        Bit::One => true,
        Bit::Wire(wire) => values(wire),
    }
}

/// What one slice of a carry primitive drives where its pins carry `pins`.
pub open spec fn slice_of(
    pins: spec_fn(Bit) -> bool,
    init: u16,
    inputs: [Bit; 4],
    carry: bool,
    carry_output: bool,
) -> bool {
    carry_slice(
        init,
        pins(inputs[0]),
        pins(inputs[1]),
        pins(inputs[2]),
        pins(inputs[3]),
        carry,
        carry_output,
    )
}

/// What a carry primitive drives.
#[verifier::ext_equal]
pub struct CarryOutputs {
    pub sum0: bool,
    pub sum1: bool,
    pub carry: bool,
}

/// What a carry primitive drives where its pins carry `pins`: the second slice
/// continues the carry of the first, and a slice with injection starts from zero.
pub open spec fn carry_outputs(
    pins: spec_fn(Bit) -> bool,
    inputs: [[Bit; 4]; 2],
    carry_in: Bit,
    init: [u16; 2],
    inject: [bool; 2],
) -> CarryOutputs {
    let first = !inject[0] && pins(carry_in);
    let second = !inject[1] && slice_of(pins, init[0], inputs[0], first, true);
    CarryOutputs {
        sum0: slice_of(pins, init[0], inputs[0], first, false),
        sum1: slice_of(pins, init[1], inputs[1], second, false),
        carry: slice_of(pins, init[1], inputs[1], second, true),
    }
}

/// Whether a lookup table, dedicated mux or carry primitive drives what its
/// inputs call for.
pub open spec fn cell_agrees(values: spec_fn(u32) -> bool, cell: CellModel) -> bool {
    match cell {
        CellModel::Lut4 { inputs, output, init, .. } => values(output) == table_bit(
            init,
            pin_index(
                bit_value(values, inputs[0]),
                bit_value(values, inputs[1]),
                bit_value(values, inputs[2]),
                bit_value(values, inputs[3]),
            ),
        ),
        CellModel::PfuMux { lut_true, lut_false, select, output, .. } => values(output) == if bit_value(
            values,
            select,
        ) {
            bit_value(values, lut_true)
        } else {
            bit_value(values, lut_false)
        },
        CellModel::L6Mux21 { data_zero, data_one, select, output, .. } => values(output)
            == if bit_value(values, select) {
            bit_value(values, data_one)
        } else {
            bit_value(values, data_zero)
        },
        CellModel::Ccu2c { inputs, carry_in, sums, carry_out, init, inject, .. } => {
            let driven = carry_outputs(
                |bit: Bit| bit_value(values, bit),
                inputs,
                carry_in,
                init,
                inject,
            );
            values(sums[0]) == driven.sum0 && values(sums[1]) == driven.sum1 && values(carry_out)
                == driven.carry
        },
        _ => true,
    }
}

/// Whether every lookup table, dedicated mux and carry primitive drives what its
/// inputs call for.
pub open spec fn cells_agree(values: spec_fn(u32) -> bool, cells: Seq<CellModel>) -> bool {
    forall|i: int| 0 <= i < cells.len() ==> cell_agrees(values, #[trigger] cells[i])
}

/// The truth-table entry that the values of `inputs` select.
pub open spec fn input_index(values: spec_fn(u32) -> bool, inputs: Seq<Bit>) -> nat {
    table_of(|i: u64| bit_value(values, inputs[i as int]), inputs.len())
}

/// What a gate or constant makes of the values of the nets it reads.
pub open spec fn node_value(nodes: Seq<Node>, nets: spec_fn(NetId) -> bool, net: int) -> bool {
    let inputs = nodes[net].inputs@;
    gate_value(
        nodes[net].kind,
        inputs.len() > 0 && nets(inputs[0]),
        inputs.len() > 1 && nets(inputs[1]),
        inputs.len() > 2 && nets(inputs[2]),
    )
}

/// Whether every gate and constant has the value that it computes.
pub open spec fn nodes_agree(nodes: Seq<Node>, nets: spec_fn(NetId) -> bool) -> bool {
    forall|i: int|
        0 <= i < nodes.len() && (is_gate(nodes[i].kind) || nodes[i].kind is Constant)
            ==> #[trigger] node_value(nodes, nets, i) == nets(i as NetId)
}

/// Whether every mapped net carries its value.
pub open spec fn bits_agree(
    values: spec_fn(u32) -> bool,
    nets: spec_fn(NetId) -> bool,
    bits: Seq<Option<Bit>>,
) -> bool {
    forall|i: int|
        0 <= i < bits.len() && (#[trigger] bits[i]) is Some ==> bit_value(values, bits[i]->0)
            == nets(i as NetId)
}

proof fn lemma_assignments_split(a: nat, b: nat)
    ensures
        assignments(a + b) == assignments(a) * assignments(b),
        assignments(a) >= 1,
    decreases b,
{
    if b > 0 {
        lemma_assignments_split(a, (b - 1) as nat);
        let x = assignments(a) as int;
        let y = assignments((b - 1) as nat) as int;
        assert(2 * (x * y) == x * (2 * y)) by (nonlinear_arith);
    } else {
        lemma_assignments_power(a);
        vstd::arithmetic::power2::lemma_pow2_pos(a);
        assert(assignments(a) * 1 == assignments(a)) by (nonlinear_arith);
    }
}

proof fn lemma_table_entry(value: spec_fn(u64) -> bool, count: nat, index: nat)
    requires
        index < count,
    ensures
        (table_of(value, count) / assignments(index)) % 2 == if value(index as u64) {
            1int
        } else {
            0
        },
    decreases count,
{
    let last = (count - 1) as nat;
    let weight = assignments(index) as int;
    lemma_assignments_split(index, 0);
    if index == last {
        lemma_table_of_bound(value, last);
        let low = table_of(value, last) as int;
        if value(last as u64) {
            assert((low + weight) / weight == 1) by (nonlinear_arith)
                requires
                    0 <= low < weight,
            ;
        } else {
            assert(low / weight == 0) by (nonlinear_arith)
                requires
                    0 <= low < weight,
            ;
        }
    } else {
        lemma_table_entry(value, last, index);
        if value(last as u64) {
            let rest = (last - index - 1) as nat;
            lemma_assignments_split(index + 1, rest);
            let low = table_of(value, last) as int;
            let more = assignments(rest) as int;
            assert(assignments(index + 1) == 2 * weight);
            assert(assignments(last) == 2 * weight * more);
            assert((low + 2 * weight * more) / weight == low / weight + 2 * more)
                by (nonlinear_arith)
                requires
                    weight >= 1,
                    low >= 0,
            ;
            let quotient = low / weight;
            assert((quotient + 2 * more) % 2 == quotient % 2);
        }
    }
}

/// Entry `index` of a truth table is the value it was made from.
proof fn lemma_truth_entry(value: spec_fn(u64) -> bool, count: nat, index: nat)
    requires
        index < count <= 128,
    ensures
        table_of(value, count) <= u128::MAX,
        truth_bit(table_of(value, count) as u128, index) == value(index as u64),
{
    lemma_table_entry(value, count, index);
    lemma_table_of_bound(value, count);
    lemma_assignments_fit(128);
    lemma_assignments_power(count);
    lemma_assignments_power(128);
    lemma_assignments_power(index);
    if count < 128 {
        vstd::arithmetic::power2::lemma_pow2_strictly_increases(count, 128);
    }
    let table = table_of(value, count) as u128;
    vstd::bits::lemma_u128_shr_is_div(table, index as u128);
    let shifted = table >> (index as u128);
    assert(shifted & 1u128 == shifted % 2) by (bit_vector);
}

proof fn lemma_input_index(values: spec_fn(u32) -> bool, inputs: Seq<Bit>)
    requires
        inputs.len() <= WIDE_LUT_INPUTS,
    ensures
        input_index(values, inputs) < assignments(inputs.len()) <= 128,
        inputs.len() > 0 ==> input_index(values, inputs) == input_index(
            values,
            inputs.drop_last(),
        ) + if bit_value(values, inputs.last()) {
            assignments((inputs.len() - 1) as nat)
        } else {
            0
        },
        forall|i: int|
            0 <= i < inputs.len() ==> leaf_value(input_index(values, inputs) as u128, i)
                == bit_value(values, #[trigger] inputs[i]),
{
    let value = |i: u64| bit_value(values, inputs[i as int]);
    let count = inputs.len();
    reveal_with_fuel(assignments, 9);
    lemma_table_of_bound(value, count);
    if count > 0 {
        let rest = inputs.drop_last();
        let inner = |i: u64| bit_value(values, rest[i as int]);
        lemma_table_of_same(value, inner, (count - 1) as nat);
    }
    assert forall|i: int| 0 <= i < count implies leaf_value(
        input_index(values, inputs) as u128,
        i,
    ) == bit_value(values, #[trigger] inputs[i]) by {
        lemma_truth_entry(value, count, i as nat);
        let index = input_index(values, inputs) as u128;
        let at = i as u128;
        assert((index & (1u128 << at) != 0) == ((index >> at) & 1u128 == 1u128)) by (bit_vector)
            requires
                at < 128,
        ;
        assert(value(i as u64) == bit_value(values, inputs[i]));
    }
}

proof fn lemma_table_bit(init: u16, index: u16)
    requires
        index < 16,
    ensures
        table_bit(init, index) == truth_bit(init as u128, index as nat),
{
    assert((init & (1u16 << index) != 0) == (((init as u128) >> (index as u128)) & 1u128 == 1u128))
        by (bit_vector)
        requires
            index < 16,
    ;
}

/// A lookup table made from sixteen values drives the value that its pins select.
pub proof fn lemma_lut_entry(value: spec_fn(u64) -> bool, a: bool, b: bool, c: bool, d: bool)
    ensures
        table_bit(table_of(value, 16) as u16, pin_index(a, b, c, d)) == value(
            pin_index(a, b, c, d) as u64,
        ),
{
    let index = pin_index(a, b, c, d);
    reveal_with_fuel(assignments, 17);
    lemma_table_of_bound(value, 16);
    lemma_truth_entry(value, 16, index as nat);
    lemma_table_bit(table_of(value, 16) as u16, index);
}

proof fn lemma_padded_index(values: spec_fn(u32) -> bool, inputs: Seq<Bit>)
    requires
        inputs.len() <= LUT_INPUTS,
    ensures
        pin_index(
            bit_value(values, padded(inputs)[0]),
            bit_value(values, padded(inputs)[1]),
            bit_value(values, padded(inputs)[2]),
            bit_value(values, padded(inputs)[3]),
        ) == input_index(values, inputs),
{
    let value = |i: u64| bit_value(values, inputs[i as int]);
    reveal_with_fuel(table_of, 5);
    reveal_with_fuel(assignments, 5);
    let count = inputs.len();
    assert(input_index(values, inputs) == table_of(value, count));
    assert(count > 0 ==> value(0) == bit_value(values, inputs[0]));
    assert(count > 1 ==> value(1) == bit_value(values, inputs[1]));
    assert(count > 2 ==> value(2) == bit_value(values, inputs[2]));
    assert(count > 3 ==> value(3) == bit_value(values, inputs[3]));
    assert(count == 0 || count == 1 || count == 2 || count == 3 || count == 4);
}

proof fn lemma_function_extends(
    state: EmitterModel,
    name: Seq<char>,
    inputs: Seq<Bit>,
    output: u32,
    truth: u128,
)
    ensures
        state.cells.len() <= with_function(state, name, inputs, output, truth).cells.len(),
        state.cells == with_function(state, name, inputs, output, truth).cells.take(
            state.cells.len() as int,
        ),
    decreases inputs.len(),
{
    let after = with_function(state, name, inputs, output, truth);
    if inputs.len() > LUT_INPUTS {
        let zero = state.next_wire;
        let after_zero = wire_taken(state);
        let one = after_zero.next_wire;
        let start = wire_taken(after_zero);
        let rest = inputs.drop_last();
        let low_truth = low_half(truth, inputs.len());
        lemma_function_extends(start, name + "_wide0"@, rest, zero, low_truth);
        let low = with_function(start, name + "_wide0"@, rest, zero, low_truth);
        let high_truth = high_half(truth, inputs.len());
        lemma_function_extends(low, name + "_wide1"@, rest, one, high_truth);
        let high = with_function(low, name + "_wide1"@, rest, one, high_truth);
        assert forall|i: int| 0 <= i < state.cells.len() implies #[trigger] after.cells[i]
            == state.cells[i] by {
            assert(state.cells[i] == low.cells.take(state.cells.len() as int)[i]);
            assert(low.cells[i] == high.cells.take(low.cells.len() as int)[i]);
        }
    }
    assert(state.cells =~= after.cells.take(state.cells.len() as int));
}

/// Cells that come first agree where all do.
pub proof fn lemma_agree_prefix(
    values: spec_fn(u32) -> bool,
    cells: Seq<CellModel>,
    more: Seq<CellModel>,
)
    requires
        cells_agree(values, more),
        cells.len() <= more.len(),
        cells == more.take(cells.len() as int),
    ensures
        cells_agree(values, cells),
{
    assert forall|i: int| 0 <= i < cells.len() implies cell_agrees(
        values,
        #[trigger] cells[i],
    ) by {
        assert(cells[i] == more[i]);
    }
}

/// An emitted function computes its truth table: one lookup table does, and so
/// does a tree of dedicated muxes over the halves of the table.
pub proof fn law_function_is_computed(
    values: spec_fn(u32) -> bool,
    state: EmitterModel,
    name: Seq<char>,
    inputs: Seq<Bit>,
    output: u32,
    truth: u128,
)
    requires
        inputs.len() <= WIDE_LUT_INPUTS,
        cells_agree(values, with_function(state, name, inputs, output, truth).cells),
    ensures
        values(output) == truth_bit(truth, input_index(values, inputs)),
    decreases inputs.len(),
{
    let after = with_function(state, name, inputs, output, truth);
    lemma_input_index(values, inputs);
    let index = input_index(values, inputs);
    let cell = after.cells.last();
    assert(cell_agrees(values, after.cells[after.cells.len() - 1]));
    if inputs.len() <= LUT_INPUTS {
        let value = |assignment: u64|
            truth_bit(truth, assignment as nat % assignments(inputs.len()));
        lemma_padded_index(values, inputs);
        reveal_with_fuel(assignments, 17);
        lemma_table_of_bound(value, 16);
        lemma_truth_entry(value, 16, index);
        let init = lut4_table(truth, inputs.len()) as u16;
        lemma_table_bit(init, index as u16);
        vstd::arithmetic::div_mod::lemma_small_mod(index, assignments(inputs.len()));
        assert(value(index as u64) == truth_bit(truth, index));
    } else {
        let zero = state.next_wire;
        let after_zero = wire_taken(state);
        let one = after_zero.next_wire;
        let start = wire_taken(after_zero);
        let rest = inputs.drop_last();
        let low_truth = low_half(truth, inputs.len());
        let low = with_function(start, name + "_wide0"@, rest, zero, low_truth);
        let high_truth = high_half(truth, inputs.len());
        let high = with_function(low, name + "_wide1"@, rest, one, high_truth);
        lemma_function_extends(low, name + "_wide1"@, rest, one, high_truth);
        assert(high.cells =~= after.cells.take(high.cells.len() as int));
        lemma_agree_prefix(values, high.cells, after.cells);
        lemma_agree_prefix(values, low.cells, high.cells);
        law_function_is_computed(values, start, name + "_wide0"@, rest, zero, low_truth);
        law_function_is_computed(values, low, name + "_wide1"@, rest, one, high_truth);
        lemma_input_index(values, rest);
        law_halves_keep_values(truth, inputs.len(), index);
        assert(inputs[inputs.len() - 1] == inputs.last());
    }
}

/// A cut function gives the value of its root: leaves and constants determine it.
pub proof fn law_cut_gives_root(
    nodes: Seq<Node>,
    nets: spec_fn(NetId) -> bool,
    net: NetId,
    leaves: Seq<NetId>,
    assignment: u128,
)
    requires
        nodes_agree(nodes, nets),
        net < nodes.len(),
        determined(nodes, net, leaves),
        forall|i: int|
            0 <= i < leaves.len() ==> leaf_value(assignment, i) == nets(#[trigger] leaves[i]),
    ensures
        cone_value(nodes, net, leaves, assignment) == nets(net),
    decreases net,
{
    if leaves.contains(net) {
        lemma_wire_index(leaves, net, 0);
        assert(leaves[wire_index(leaves, net)] == net);
    } else {
        let inputs = nodes[net as int].inputs@;
        assert(node_value(nodes, nets, net as int) == nets(net));
        if !(nodes[net as int].kind is Constant) {
            if inputs.len() > 0 {
                law_cut_gives_root(nodes, nets, inputs[0], leaves, assignment);
            }
            if inputs.len() > 1 {
                law_cut_gives_root(nodes, nets, inputs[1], leaves, assignment);
            }
            if inputs.len() > 2 {
                law_cut_gives_root(nodes, nets, inputs[2], leaves, assignment);
            }
        }
    }
}

/// Mapping a net maps it, and keeps what is mapped and emitted.
pub proof fn lemma_net_extends(
    nodes: Seq<Node>,
    plans: Seq<Option<PlanModel>>,
    state: EmitterModel,
    net: NetId,
)
    requires
        plans_are_sound(nodes, plans, nodes.len() as int),
        readable(nodes, net),
        supplied(nodes, plans, state.bits, net + 1),
    ensures
        ({
            let after = net_mapped(nodes, plans, state, net);
            &&& keeps_bits(state.bits, after.bits)
            &&& after.bits[net as int] is Some
            &&& state.cells.len() <= after.cells.len()
            &&& state.cells == after.cells.take(state.cells.len() as int)
        }),
    decreases 2 * net + 1, 0nat,
{
    let after = net_mapped(nodes, plans, state, net);
    if state.bits[net as int] is None {
        assert(plan_is_sound(nodes, net as int, plans[net as int]));
        let plan = plans[net as int]->0;
        let count = plan.leaves.len();
        lemma_leaves_extend(nodes, plans, state, plan.leaves, count, net);
        let below = leaves_mapped(nodes, plans, state, plan.leaves, count, net as nat);
        let name = "lut"@ + decimal_text(net as nat);
        let inputs = bits_of(below.bits, plan.leaves);
        let truth = truth_table(nodes, net, plan.leaves) as u128;
        lemma_function_bits(below, name, inputs, net_wire(net), truth);
        lemma_function_extends(below, name, inputs, net_wire(net), truth);
        assert forall|i: int| 0 <= i < state.cells.len() implies #[trigger] after.cells[i]
            == state.cells[i] by {
            assert(state.cells[i] == below.cells.take(state.cells.len() as int)[i]);
            assert(below.cells[i] == after.cells.take(below.cells.len() as int)[i]);
        }
    }
    assert(state.cells =~= after.cells.take(state.cells.len() as int));
}

proof fn lemma_leaves_extend(
    nodes: Seq<Node>,
    plans: Seq<Option<PlanModel>>,
    state: EmitterModel,
    leaves: Seq<NetId>,
    count: nat,
    bound: NetId,
)
    requires
        plans_are_sound(nodes, plans, nodes.len() as int),
        crate::ir::readable_below(nodes, leaves, bound as int),
        supplied(nodes, plans, state.bits, bound as int),
        count <= leaves.len(),
    ensures
        ({
            let after = leaves_mapped(nodes, plans, state, leaves, count, bound as nat);
            &&& keeps_bits(state.bits, after.bits)
            &&& forall|i: int|
                0 <= i < count ==> after.bits[(#[trigger] leaves[i]) as int] is Some
            &&& state.cells.len() <= after.cells.len()
            &&& state.cells == after.cells.take(state.cells.len() as int)
        }),
    decreases 2 * bound, count,
{
    let after = leaves_mapped(nodes, plans, state, leaves, count, bound as nat);
    if count > 0 {
        let last = (count - 1) as nat;
        lemma_leaves_extend(nodes, plans, state, leaves, last, bound);
        let rest = leaves_mapped(nodes, plans, state, leaves, last, bound as nat);
        assert(readable(nodes, leaves[last as int]));
        lemma_net_extends(nodes, plans, rest, leaves[last as int]);
        assert forall|i: int| 0 <= i < count implies after.bits[(
        #[trigger] leaves[i]) as int] is Some by {
            assert(readable(nodes, leaves[i]));
            if i < last {
                assert(rest.bits[leaves[i] as int] is Some);
            }
        }
        assert forall|i: int| 0 <= i < state.bits.len() && state.bits[i] is Some implies
            #[trigger] after.bits[i] == state.bits[i] by {
            assert(rest.bits[i] == state.bits[i]);
        }
        assert forall|i: int| 0 <= i < state.cells.len() implies #[trigger] after.cells[i]
            == state.cells[i] by {
            assert(state.cells[i] == rest.cells.take(state.cells.len() as int)[i]);
            assert(rest.cells[i] == after.cells.take(rest.cells.len() as int)[i]);
        }
    }
    assert(state.cells =~= after.cells.take(state.cells.len() as int));
}

/// A mapped net carries its value: where the bits mapped so far carry the
/// values of their nets, so do the bits after one more net was mapped, under
/// every valuation with which the emitted cells agree.
pub proof fn law_cover_carries_values(
    values: spec_fn(u32) -> bool,
    nets: spec_fn(NetId) -> bool,
    nodes: Seq<Node>,
    plans: Seq<Option<PlanModel>>,
    state: EmitterModel,
    net: NetId,
)
    requires
        nodes_are_valid(nodes),
        plans_are_sound(nodes, plans, nodes.len() as int),
        readable(nodes, net),
        supplied(nodes, plans, state.bits, net + 1),
        nodes_agree(nodes, nets),
        bits_agree(values, nets, state.bits),
        cells_agree(values, net_mapped(nodes, plans, state, net).cells),
    ensures
        bits_agree(values, nets, net_mapped(nodes, plans, state, net).bits),
        net_mapped(nodes, plans, state, net).bits[net as int] is Some,
    decreases 2 * net + 1, 0nat,
{
    let after = net_mapped(nodes, plans, state, net);
    lemma_net_extends(nodes, plans, state, net);
    if state.bits[net as int] is None {
        assert(plan_is_sound(nodes, net as int, plans[net as int]));
        let plan = plans[net as int]->0;
        let leaves = plan.leaves;
        let count = leaves.len();
        let below = leaves_mapped(nodes, plans, state, leaves, count, net as nat);
        let name = "lut"@ + decimal_text(net as nat);
        let inputs = bits_of(below.bits, leaves);
        let truth = truth_table(nodes, net, leaves) as u128;
        lemma_leaves_extend(nodes, plans, state, leaves, count, net);
        lemma_function_extends(below, name, inputs, net_wire(net), truth);
        lemma_agree_prefix(values, below.cells, after.cells);
        lemma_leaves_carry(values, nets, nodes, plans, state, leaves, count, net);
        law_function_is_computed(values, below, name, inputs, net_wire(net), truth);
        lemma_function_bits(below, name, inputs, net_wire(net), truth);
        lemma_input_index(values, inputs);
        let index = input_index(values, inputs);
        assert forall|i: int| 0 <= i < leaves.len() implies leaf_value(index as u128, i) == nets(
            #[trigger] leaves[i],
        ) by {
            assert(readable(nodes, leaves[i]));
            assert(leaf_value(index as u128, i) == bit_value(values, inputs[i]));
            assert(below.bits[leaves[i] as int] is Some);
        }
        law_cut_gives_root(nodes, nets, net, leaves, index as u128);
        let value = |assignment: u64| cone_value(nodes, net, leaves, assignment as u128);
        lemma_truth_entry(value, assignments(count), index);
        assert(value(index as u64) == nets(net));
        assert forall|i: int| 0 <= i < after.bits.len() && (
        #[trigger] after.bits[i]) is Some implies bit_value(values, after.bits[i]->0) == nets(
            i as NetId,
        ) by {
            if i != net {
                assert(after.bits[i] == below.bits[i]);
            }
        }
    }
}

proof fn lemma_leaves_carry(
    values: spec_fn(u32) -> bool,
    nets: spec_fn(NetId) -> bool,
    nodes: Seq<Node>,
    plans: Seq<Option<PlanModel>>,
    state: EmitterModel,
    leaves: Seq<NetId>,
    count: nat,
    bound: NetId,
)
    requires
        nodes_are_valid(nodes),
        plans_are_sound(nodes, plans, nodes.len() as int),
        crate::ir::readable_below(nodes, leaves, bound as int),
        supplied(nodes, plans, state.bits, bound as int),
        count <= leaves.len(),
        nodes_agree(nodes, nets),
        bits_agree(values, nets, state.bits),
        cells_agree(
            values,
            leaves_mapped(nodes, plans, state, leaves, count, bound as nat).cells,
        ),
    ensures
        bits_agree(
            values,
            nets,
            leaves_mapped(nodes, plans, state, leaves, count, bound as nat).bits,
        ),
    decreases 2 * bound, count,
{
    if count > 0 {
        let last = (count - 1) as nat;
        let after = leaves_mapped(nodes, plans, state, leaves, count, bound as nat);
        let rest = leaves_mapped(nodes, plans, state, leaves, last, bound as nat);
        lemma_leaves_extend(nodes, plans, state, leaves, last, bound);
        assert(readable(nodes, leaves[last as int]));
        lemma_net_extends(nodes, plans, rest, leaves[last as int]);
        lemma_agree_prefix(values, rest.cells, after.cells);
        lemma_leaves_carry(values, nets, nodes, plans, state, leaves, last, bound);
        law_cover_carries_values(values, nets, nodes, plans, rest, leaves[last as int]);
    }
}

/// Before anything is emitted every mapped bit carries its value: sources keep
/// their wire and constants their value.
pub proof fn law_sources_carry_values(
    values: spec_fn(u32) -> bool,
    nets: spec_fn(NetId) -> bool,
    nodes: Seq<Node>,
)
    requires
        nodes_are_valid(nodes),
        nodes_agree(nodes, nets),
        forall|net: NetId|
            net < nodes.len() && source_bit(nodes[net as int].kind, net) == Some(
                Bit::Wire(net_wire(net)),
            ) ==> #[trigger] nets(net) == values(net_wire(net)),
    ensures
        bits_agree(values, nets, emitter_start(nodes).bits),
{
    let bits = emitter_start(nodes).bits;
    assert forall|i: int| 0 <= i < bits.len() && (#[trigger] bits[i]) is Some implies bit_value(
        values,
        bits[i]->0,
    ) == nets(i as NetId) by {
        assert(bits[i] == source_bit(nodes[i].kind, i as NetId));
        if nodes[i].kind is Constant {
            assert(node_value(nodes, nets, i) == nets(i as NetId));
        } else {
            assert(nets(i as NetId) == values(net_wire(i as NetId)));
        }
    }
}

/// A slice with the table of an adder and its last pin at one adds: its sum and
/// carry are the digits of the first pin, the second negated where the third is
/// one, and the carry input.
pub proof fn law_arithmetic_slice_adds(a: bool, b: bool, c: bool, carry: bool)
    ensures
        2 * one_if(carry_slice(CCU2C_ARITH_INIT, a, b, c, true, carry, true)) + one_if(
            carry_slice(CCU2C_ARITH_INIT, a, b, c, true, carry, false),
        ) == one_if(a) + one_if(b != c) + one_if(carry),
{
    reveal(carry_slice);
    let init = 0x96aau16;
    assert(init & (1u16 << 0u16) == 0 && init & (1u16 << 1u16) != 0 && init & (1u16 << 2u16) == 0
        && init & (1u16 << 3u16) != 0 && init & (1u16 << 8u16) == 0 && init & (1u16 << 9u16) != 0
        && init & (1u16 << 10u16) != 0 && init & (1u16 << 11u16) == 0 && init & (1u16 << 12u16)
        != 0 && init & (1u16 << 13u16) == 0 && init & (1u16 << 14u16) == 0 && init & (1u16
        << 15u16) != 0) by (bit_vector)
        requires
            init == 0x96aau16,
    ;
}

} // verus!
