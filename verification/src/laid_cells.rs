//! Adders and comparisons laid out on wires.

use vstd::prelude::*;

use crate::arithmetic::adder_chain;
use crate::arithmetic::adder_mapped;
use crate::arithmetic::adder_slice;
use crate::arithmetic::adder_value;
use crate::arithmetic::carry_start;
use crate::arithmetic::comparison_chain;
use crate::arithmetic::comparison_mapped;
use crate::arithmetic::comparison_slice;
use crate::arithmetic::numbered;
use crate::arithmetic::pair_count;
use crate::arithmetic::ripple_mapped;
use crate::arithmetic::ripple_places;
use crate::arithmetic::signed_value;
use crate::arithmetic::ChainModel;
use crate::arithmetic::MapInputs;
use crate::cells::cell_inputs;
use crate::cells::cell_outputs;
use crate::cells::Bit;
use crate::cells::CellModel;
use crate::cover::plans_are_sound;
use crate::emit::bit_of;
use crate::emit::net_mapped;
use crate::emit::source_bit;
use crate::emit::wire_taken;
use crate::emit::with_alias;
use crate::emit::with_cell;
use crate::emit::EmitterModel;
use crate::ir::arithmetic_is_valid;
use crate::ir::arithmetic_reads;
use crate::ir::comparison_is_valid;
use crate::ir::comparison_reads;
use crate::ir::is_gate;
use crate::ir::net_wire;
use crate::ir::ArithmeticCell;
use crate::ir::ComparisonCell;
use crate::ir::NetId;
use crate::ir::Node;
use crate::laid::begins_so;
use crate::laid::bit_known;
use crate::laid::emits;
use crate::laid::ground_of;
use crate::laid::is_allowed;
use crate::laid::is_emitted;
use crate::laid::is_known;
use crate::laid::is_sound_cell;
use crate::laid::is_undriven;
use crate::laid::lemma_bit_known;
use crate::laid::lemma_known_grows;
use crate::laid::lemma_laid_push;
use crate::laid::lemma_more_ground;
use crate::laid::lemma_net_emitted;
use crate::laid::lemma_net_exhausted;
use crate::laid::lemma_not_allowed;
use crate::laid::owners;
use crate::shown::drives;
use crate::shown::reads;
use crate::wires::table_of;

verus! {

/// Whether `after` follows `before`: cells were added, and sources are mapped as they
/// were.
pub open spec fn goes_on(nodes: Seq<Node>, before: EmitterModel, after: EmitterModel) -> bool {
    &&& begins_so(before.cells, after.cells)
    &&& before.next_wire <= after.next_wire
    &&& after.bits.len() == before.bits.len()
    &&& forall|n: int|
        0 <= n < nodes.len() && source_bit(nodes[n].kind, n as NetId) is Some ==> (
        #[trigger] after.bits[n]) == before.bits[n]
}

pub proof fn lemma_goes_on_joined(
    nodes: Seq<Node>,
    a: EmitterModel,
    b: EmitterModel,
    c: EmitterModel,
)
    requires
        goes_on(nodes, a, b),
        goes_on(nodes, b, c),
    ensures
        goes_on(nodes, a, c),
{
    assert forall|i: int| 0 <= i < a.cells.len() implies (#[trigger] c.cells[i]) == a.cells[i] by {
        assert(b.cells[i] == a.cells[i]);
    }
    assert forall|n: int|
        0 <= n < nodes.len() && source_bit(nodes[n].kind, n as NetId) is Some implies (
    #[trigger] c.bits[n]) == a.bits[n] by {
        assert(b.bits[n] == a.bits[n]);
    }
}

/// A bit that is known stays known.
pub proof fn lemma_bit_stays(
    before: Seq<CellModel>,
    after: Seq<CellModel>,
    expected: spec_fn(int) -> bool,
    bit: Bit,
)
    requires
        bit_known(before, expected, bit),
        begins_so(before, after),
    ensures
        bit_known(after, expected, bit),
{
    if let Bit::Wire(wire) = bit {
        lemma_known_grows(before, after, expected, wire);
    }
}

/// A net mapped is laid out, and its bit is known.
pub proof fn lemma_operand(
    inputs: MapInputs,
    state: EmitterModel,
    net: NetId,
    done: spec_fn(int) -> bool,
    expected: spec_fn(int) -> bool,
)
    requires
        is_emitted(inputs.nodes, state, done, expected),
        plans_are_sound(inputs.nodes, inputs.plans, inputs.nodes.len() as int),
        net < inputs.nodes.len(),
        !net_mapped(inputs.nodes, inputs.plans, state, net).exhausted,
    ensures
        ({
            let after = net_mapped(inputs.nodes, inputs.plans, state, net);
            &&& is_emitted(inputs.nodes, after, done, expected)
            &&& emits(inputs.nodes, state, after, inputs.nodes.len() as int)
            &&& goes_on(inputs.nodes, state, after)
            &&& bit_known(after.cells, expected, bit_of(after.bits, net))
        }),
{
    let nodes = inputs.nodes;
    lemma_net_emitted(nodes, inputs.plans, state, net, done, expected);
    let after = net_mapped(nodes, inputs.plans, state, net);
    lemma_bit_known(nodes, after, done, expected, net);
    assert forall|n: int|
        0 <= n < nodes.len() && source_bit(nodes[n].kind, n as NetId) is Some implies (
    #[trigger] after.bits[n]) == state.bits[n] by {
        assert(!is_gate(nodes[n].kind));
    }
}

/// A net that is no gate stands for a bit that is known.
pub proof fn lemma_alias_emitted(
    nodes: Seq<Node>,
    state: EmitterModel,
    net: NetId,
    bit: Bit,
    done: spec_fn(int) -> bool,
    expected: spec_fn(int) -> bool,
)
    requires
        is_emitted(nodes, state, done, expected),
        net < nodes.len(),
        !is_gate(nodes[net as int].kind),
        bit_known(state.cells, expected, bit),
    ensures
        is_emitted(nodes, with_alias(state, net, bit), done, expected),
        source_bit(nodes[net as int].kind, net) is None ==> goes_on(
            nodes,
            state,
            with_alias(state, net, bit),
        ),
{
    let after = with_alias(state, net, bit);
    let base = (nodes.len() + 2) as int;
    lemma_more_ground(
        state.cells,
        ground_of(state, base, owners(nodes, state.bits, done), expected),
        ground_of(after, base, owners(nodes, after.bits, done), expected),
    );
    assert forall|n: int| 0 <= n < nodes.len() implies ((
    #[trigger] after.bits[n]) matches Some(b) ==> bit_known(after.cells, expected, b)) by {
        if n != net {
            assert(after.bits[n] == state.bits[n]);
        }
    }
}

/// A wire is taken.
pub proof fn lemma_taken_emitted(
    nodes: Seq<Node>,
    state: EmitterModel,
    done: spec_fn(int) -> bool,
    expected: spec_fn(int) -> bool,
)
    requires
        is_emitted(nodes, state, done, expected),
        !wire_taken(state).exhausted,
    ensures
        is_emitted(nodes, wire_taken(state), done, expected),
        goes_on(nodes, state, wire_taken(state)),
        is_undriven(state.cells, state.next_wire),
        wire_taken(state).next_wire == state.next_wire + 1,
        nodes.len() + 2 <= state.next_wire,
{
    let base = (nodes.len() + 2) as int;
    let owned = owners(nodes, state.bits, done);
    lemma_not_allowed(state.cells, ground_of(state, base, owned, expected), state.next_wire);
    lemma_more_ground(
        state.cells,
        ground_of(state, base, owned, expected),
        ground_of(wire_taken(state), base, owned, expected),
    );
}

/// The wire of a net that is no gate and not driven yet is not driven.
pub proof fn lemma_free_net(
    nodes: Seq<Node>,
    state: EmitterModel,
    net: NetId,
    done: spec_fn(int) -> bool,
    expected: spec_fn(int) -> bool,
)
    requires
        is_emitted(nodes, state, done, expected),
        net < nodes.len(),
        !is_gate(nodes[net as int].kind),
        !done(net as int),
    ensures
        is_undriven(state.cells, net_wire(net)),
        net_wire(net) == net + 2,
{
    let base = (nodes.len() + 2) as int;
    let owned = owners(nodes, state.bits, done);
    lemma_not_allowed(state.cells, ground_of(state, base, owned, expected), net_wire(net));
}

/// Whether a wire is that of one of the nets `more`, or a new one, and not driven.
pub open spec fn is_free(
    nodes: Seq<Node>,
    state: EmitterModel,
    more: spec_fn(int) -> bool,
    wire: u32,
) -> bool {
    &&& is_undriven(state.cells, wire)
    &&& (2 <= wire < nodes.len() + 2 && more(wire - 2)) || (nodes.len() + 2 <= wire
        < state.next_wire)
}

/// One more cell.
pub proof fn lemma_cell_emitted(
    nodes: Seq<Node>,
    state: EmitterModel,
    cell: CellModel,
    done: spec_fn(int) -> bool,
    more: spec_fn(int) -> bool,
    expected: spec_fn(int) -> bool,
)
    requires
        is_emitted(nodes, state, done, expected),
        is_sound_cell(cell),
        forall|wire: u32| #[trigger] drives(cell, wire) ==> is_free(nodes, state, more, wire),
        forall|wire: u32| #[trigger]
            reads(cell, wire) ==> is_known(state.cells, expected, wire),
        forall|n: int| #[trigger] done(n) ==> more(n),
        forall|n: int| #[trigger]
            more(n) && !done(n) ==> 0 <= n < nodes.len() && !is_gate(nodes[n].kind) && drives(
                cell,
                (n + 2) as u32,
            ),
    ensures
        is_emitted(nodes, with_cell(state, cell), more, expected),
        goes_on(nodes, state, with_cell(state, cell)),
{
    let after = with_cell(state, cell);
    let base = (nodes.len() + 2) as int;
    let owned = owners(nodes, state.bits, more);
    lemma_more_ground(
        state.cells,
        ground_of(state, base, owners(nodes, state.bits, done), expected),
        ground_of(state, base, owned, expected),
    );
    assert forall|wire: u32| #[trigger] drives(cell, wire) implies is_allowed(
        ground_of(state, base, owned, expected),
        wire,
    ) && is_undriven(state.cells, wire) by {
        assert(is_free(nodes, state, more, wire));
    }
    lemma_laid_push(state.cells, ground_of(state, base, owned, expected), cell);
    assert(ground_of(after, base, owners(nodes, after.bits, more), expected) == ground_of(
        state,
        base,
        owned,
        expected,
    ));
    assert forall|n: int| 0 <= n < nodes.len() implies ((
    #[trigger] after.bits[n]) matches Some(bit) ==> bit_known(after.cells, expected, bit)) by {
        if let Some(bit) = state.bits[n] {
            lemma_bit_stays(state.cells, after.cells, expected, bit);
        }
    }
    assert forall|n: int| #[trigger] more(n) implies 0 <= n < nodes.len() && !is_gate(
        nodes[n].kind,
    ) && exists|j: int|
        0 <= j < after.cells.len() && #[trigger] drives(after.cells[j], (n + 2) as u32) by {
        if done(n) {
            let j = choose|j: int|
                0 <= j < state.cells.len() && #[trigger] drives(state.cells[j], (n + 2) as u32);
            assert(after.cells[j] == state.cells[j]);
        } else {
            assert(after.cells[state.cells.len() as int] == cell);
        }
    }
}

/// A lookup table with known pins.
pub proof fn lemma_table_emitted(
    nodes: Seq<Node>,
    state: EmitterModel,
    name: Seq<char>,
    pins: [Bit; 4],
    output: u32,
    init: u16,
    done: spec_fn(int) -> bool,
    more: spec_fn(int) -> bool,
    expected: spec_fn(int) -> bool,
)
    requires
        is_emitted(nodes, state, done, expected),
        is_free(nodes, state, more, output),
        forall|k: int| 0 <= k < 4 ==> bit_known(state.cells, expected, #[trigger] pins[k]),
        forall|n: int| #[trigger] done(n) ==> more(n),
        forall|n: int| #[trigger]
            more(n) && !done(n) ==> 0 <= n < nodes.len() && !is_gate(nodes[n].kind) && output
                == n + 2,
    ensures
        ({
            let cell = CellModel::Lut4 { name, inputs: pins, output, init };
            &&& is_emitted(nodes, with_cell(state, cell), more, expected)
            &&& goes_on(nodes, state, with_cell(state, cell))
            &&& is_known(with_cell(state, cell).cells, expected, output)
        }),
{
    let cell = CellModel::Lut4 { name, inputs: pins, output, init };
    let after = with_cell(state, cell);
    assert(cell_outputs(cell)[0] == Bit::Wire(output));
    assert(drives(cell, output));
    assert forall|wire: u32| #[trigger] reads(cell, wire) implies is_known(
        state.cells,
        expected,
        wire,
    ) by {
        let k = choose|k: int| 0 <= k < pins@.len() && pins@[k] == Bit::Wire(wire);
        assert(bit_known(state.cells, expected, pins[k]));
    }
    lemma_cell_emitted(nodes, state, cell, done, more, expected);
    assert(after.cells[state.cells.len() as int] == cell);
}

/// A carry cell with known pins.
proof fn lemma_carry_emitted(
    nodes: Seq<Node>,
    state: EmitterModel,
    cell: CellModel,
    done: spec_fn(int) -> bool,
    more: spec_fn(int) -> bool,
    expected: spec_fn(int) -> bool,
)
    requires
        is_emitted(nodes, state, done, expected),
        cell matches CellModel::Ccu2c { inputs, carry_in, sums, carry_out, .. } && {
            &&& is_free(nodes, state, more, sums[0])
            &&& is_free(nodes, state, more, sums[1])
            &&& is_free(nodes, state, more, carry_out)
            &&& sums[0] != sums[1] && sums[0] != carry_out && sums[1] != carry_out
            &&& bit_known(state.cells, expected, carry_in)
            &&& forall|p: int|
                0 <= p < 4 ==> bit_known(state.cells, expected, #[trigger] inputs[0][p])
            &&& forall|p: int|
                0 <= p < 4 ==> bit_known(state.cells, expected, #[trigger] inputs[1][p])
            &&& forall|n: int| #[trigger]
                more(n) && !done(n) ==> 0 <= n < nodes.len() && !is_gate(nodes[n].kind) && (
                sums[0] == n + 2 || sums[1] == n + 2 || carry_out == n + 2)
        },
        forall|n: int| #[trigger] done(n) ==> more(n),
    ensures
        is_emitted(nodes, with_cell(state, cell), more, expected),
        goes_on(nodes, state, with_cell(state, cell)),
        is_known(with_cell(state, cell).cells, expected, cell->Ccu2c_carry_out),
{
    let after = with_cell(state, cell);
    if let CellModel::Ccu2c { inputs, carry_in, sums, carry_out, .. } = cell {
        let outputs = cell_outputs(cell);
        assert(outputs[0] == Bit::Wire(sums[0]));
        assert(outputs[1] == Bit::Wire(sums[1]));
        assert(outputs[2] == Bit::Wire(carry_out));
        assert(drives(cell, sums[0]) && drives(cell, sums[1]) && drives(cell, carry_out));
        let bits = cell_inputs(cell);
        assert forall|wire: u32| #[trigger] reads(cell, wire) implies is_known(
            state.cells,
            expected,
            wire,
        ) by {
            let k = choose|k: int| 0 <= k < bits.len() && bits[k] == Bit::Wire(wire);
            if k < 4 {
                assert(bits[k] == inputs[0][k]);
            } else if k < 8 {
                assert(bits[k] == inputs[1][k - 4]);
            } else {
                assert(bits[k] == carry_in);
            }
        }
        lemma_cell_emitted(nodes, state, cell, done, more, expected);
        assert(after.cells[state.cells.len() as int] == cell);
    }
}

/// The results of an arithmetic cell below place `count`, with what was done before.
pub open spec fn with_results(
    done: spec_fn(int) -> bool,
    outputs: Seq<NetId>,
    count: int,
) -> spec_fn(int) -> bool {
    |n: int| done(n) || exists|k: int| 0 <= k < count && k < outputs.len() && #[trigger] outputs[k]
        == n
}

/// Whether the nets of arithmetic cells and comparisons are expected.
pub open spec fn expects_results(nodes: Seq<Node>, expected: spec_fn(int) -> bool) -> bool {
    forall|n: int|
        0 <= n < nodes.len() && (nodes[n].kind is ArithmeticOutput
            || nodes[n].kind is ComparisonOutput) ==> #[trigger] expected(n)
}

/// Whether an arithmetic cell can be mapped: its nets lie in the netlist, its results
/// are apart and nothing has driven them.
pub open spec fn is_open_adder(
    nodes: Seq<Node>,
    cell: ArithmeticCell,
    done: spec_fn(int) -> bool,
) -> bool {
    &&& arithmetic_is_valid(nodes, cell)
    &&& cell.outputs@.no_duplicates()
    &&& forall|k: int|
        0 <= k < cell.outputs@.len() ==> !done(#[trigger] cell.outputs@[k] as int)
}

proof fn lemma_adder_nets(nodes: Seq<Node>, cell: ArithmeticCell)
    requires
        arithmetic_is_valid(nodes, cell),
    ensures
        cell.lhs@.len() == cell.outputs@.len(),
        cell.rhs@.len() == cell.outputs@.len(),
        forall|k: int|
            0 <= k < cell.outputs@.len() ==> (#[trigger] cell.outputs@[k]) < nodes.len()
                && nodes[cell.outputs@[k] as int].kind is ArithmeticOutput,
        forall|k: int| 0 <= k < cell.lhs@.len() ==> (#[trigger] cell.lhs@[k]) < nodes.len(),
        forall|k: int| 0 <= k < cell.rhs@.len() ==> (#[trigger] cell.rhs@[k]) < nodes.len(),
        cell.carry_in matches Some(net) ==> net < nodes.len(),
{
    let reads = arithmetic_reads(cell);
    let width = cell.outputs@.len() as int;
    assert forall|k: int| 0 <= k < cell.lhs@.len() implies (#[trigger] cell.lhs@[k])
        < nodes.len() by {
        assert(reads[k] == cell.lhs@[k]);
    }
    assert forall|k: int| 0 <= k < cell.rhs@.len() implies (#[trigger] cell.rhs@[k])
        < nodes.len() by {
        assert(reads[width + k] == cell.rhs@[k]);
    }
    if let Some(net) = cell.carry_in {
        assert(reads[2 * width] == net);
    }
}

proof fn lemma_slice_exhausted(
    inputs: MapInputs,
    state: EmitterModel,
    cell: ArithmeticCell,
    index: int,
)
    ensures
        state.exhausted ==> adder_slice(inputs, state, cell, index).state.exhausted,
{
    if index < cell.outputs@.len() {
        lemma_net_exhausted(inputs.nodes, inputs.plans, state, cell.lhs@[index]);
        let lhs = net_mapped(inputs.nodes, inputs.plans, state, cell.lhs@[index]);
        lemma_net_exhausted(inputs.nodes, inputs.plans, lhs, cell.rhs@[index]);
    }
}

proof fn lemma_adder_slice_emitted(
    inputs: MapInputs,
    state: EmitterModel,
    cell: ArithmeticCell,
    index: int,
    done: spec_fn(int) -> bool,
    expected: spec_fn(int) -> bool,
)
    requires
        is_emitted(inputs.nodes, state, done, expected),
        plans_are_sound(inputs.nodes, inputs.plans, inputs.nodes.len() as int),
        expects_results(inputs.nodes, expected),
        arithmetic_is_valid(inputs.nodes, cell),
        0 <= index,
        !adder_slice(inputs, state, cell, index).state.exhausted,
    ensures
        ({
            let slice = adder_slice(inputs, state, cell, index);
            &&& is_emitted(inputs.nodes, slice.state, done, expected)
            &&& goes_on(inputs.nodes, state, slice.state)
            &&& forall|p: int|
                0 <= p < 4 ==> bit_known(slice.state.cells, expected, #[trigger] slice.pins[p])
            &&& index >= cell.outputs@.len() ==> slice.sum == state.next_wire
                && slice.state.cells == state.cells && slice.state.next_wire
                == state.next_wire + 1 && is_undriven(state.cells, state.next_wire)
                && inputs.nodes.len() + 2 <= state.next_wire
        }),
{
    let nodes = inputs.nodes;
    let slice = adder_slice(inputs, state, cell, index);
    lemma_adder_nets(nodes, cell);
    if index < cell.outputs@.len() {
        let lhs = net_mapped(nodes, inputs.plans, state, cell.lhs@[index]);
        let rhs = net_mapped(nodes, inputs.plans, lhs, cell.rhs@[index]);
        lemma_net_exhausted(nodes, inputs.plans, lhs, cell.rhs@[index]);
        lemma_operand(inputs, state, cell.lhs@[index], done, expected);
        lemma_operand(inputs, lhs, cell.rhs@[index], done, expected);
        lemma_bit_stays(lhs.cells, rhs.cells, expected, bit_of(lhs.bits, cell.lhs@[index]));
        let output = cell.outputs@[index];
        assert(output < nodes.len());
        assert(expected(output as int));
        assert(is_known(rhs.cells, expected, net_wire(output)));
        lemma_alias_emitted(nodes, rhs, output, Bit::Wire(net_wire(output)), done, expected);
        lemma_goes_on_joined(nodes, state, lhs, rhs);
        lemma_goes_on_joined(nodes, state, rhs, slice.state);
    } else {
        lemma_taken_emitted(nodes, state, done, expected);
    }
    assert forall|p: int| 0 <= p < 4 implies bit_known(
        slice.state.cells,
        expected,
        #[trigger] slice.pins[p],
    ) by {
        assert(p == 0 || p == 1 || p == 2 || p == 3);
    }
}

proof fn lemma_adder_chain_exhausted(
    inputs: MapInputs,
    start: ChainModel,
    cell: ArithmeticCell,
    pairs: nat,
)
    ensures
        start.state.exhausted ==> adder_chain(inputs, start, cell, pairs).state.exhausted,
        pairs > 0 && adder_chain(
            inputs,
            start,
            cell,
            (pairs - 1) as nat,
        ).state.exhausted ==> adder_chain(inputs, start, cell, pairs).state.exhausted,
    decreases pairs,
{
    if pairs > 0 {
        let pair = (pairs - 1) as nat;
        lemma_adder_chain_exhausted(inputs, start, cell, pair);
        let rest = adder_chain(inputs, start, cell, pair);
        let low = adder_slice(inputs, rest.state, cell, 2 * pair as int);
        lemma_slice_exhausted(inputs, rest.state, cell, 2 * pair as int);
        lemma_slice_exhausted(inputs, low.state, cell, 2 * pair as int + 1);
    }
}

#[verifier::rlimit(80)]
proof fn lemma_adder_chain_emitted(
    inputs: MapInputs,
    start: ChainModel,
    cell: ArithmeticCell,
    pairs: nat,
    done: spec_fn(int) -> bool,
    expected: spec_fn(int) -> bool,
)
    requires
        is_emitted(inputs.nodes, start.state, done, expected),
        bit_known(start.state.cells, expected, start.carry),
        plans_are_sound(inputs.nodes, inputs.plans, inputs.nodes.len() as int),
        expects_results(inputs.nodes, expected),
        is_open_adder(inputs.nodes, cell, done),
        pairs <= pair_count(cell.outputs@.len()),
        !adder_chain(inputs, start, cell, pairs).state.exhausted,
    ensures
        ({
            let chain = adder_chain(inputs, start, cell, pairs);
            &&& is_emitted(
                inputs.nodes,
                chain.state,
                with_results(done, cell.outputs@, 2 * pairs as int),
                expected,
            )
            &&& bit_known(chain.state.cells, expected, chain.carry)
            &&& goes_on(inputs.nodes, start.state, chain.state)
        }),
    decreases pairs,
{
    let nodes = inputs.nodes;
    let outputs = cell.outputs@;
    let chain = adder_chain(inputs, start, cell, pairs);
    let now = with_results(done, outputs, 2 * pairs as int);
    if pairs == 0 {
        assert(now =~= done);
    } else {
        let pair = (pairs - 1) as nat;
        let rest = adder_chain(inputs, start, cell, pair);
        let low = adder_slice(inputs, rest.state, cell, 2 * pair as int);
        let high = adder_slice(inputs, low.state, cell, 2 * pair as int + 1);
        let taken = wire_taken(high.state);
        let before = with_results(done, outputs, 2 * pair as int);
        lemma_slice_exhausted(inputs, rest.state, cell, 2 * pair as int);
        lemma_slice_exhausted(inputs, low.state, cell, 2 * pair as int + 1);
        assert(!taken.exhausted && !high.state.exhausted && !low.state.exhausted
            && !rest.state.exhausted);
        lemma_adder_chain_emitted(inputs, start, cell, pair, done, expected);
        lemma_adder_nets(nodes, cell);
        let a = 2 * pair as int;
        let b = a + 1;
        assert(a < outputs.len());
        lemma_adder_slice_emitted(inputs, rest.state, cell, a, before, expected);
        lemma_adder_slice_emitted(inputs, low.state, cell, b, before, expected);
        lemma_taken_emitted(nodes, high.state, before, expected);
        let ccu = chain.state.cells[chain.state.cells.len() - 1];
        assert forall|k: int| a <= k < outputs.len() implies !before(
            #[trigger] outputs[k] as int,
        ) by {
            assert(!done(outputs[k] as int));
        }
        lemma_free_net(nodes, taken, outputs[a], before, expected);
        if b < outputs.len() {
            lemma_free_net(nodes, taken, outputs[b], before, expected);
            assert(outputs[a] != outputs[b]);
        }
        assert(now(outputs[a] as int));
        assert(b < outputs.len() ==> now(outputs[b] as int));
        assert forall|n: int| #[trigger] before(n) implies now(n) by {
            if !done(n) {
                let k = choose|k: int|
                    0 <= k < 2 * pair && k < outputs.len() && #[trigger] outputs[k] == n;
                assert(outputs[k] == n);
            }
        }
        assert forall|n: int| #[trigger] now(n) && !before(n) implies n == outputs[a] || (b
            < outputs.len() && n == outputs[b]) by {
            let k = choose|k: int|
                0 <= k < 2 * pairs && k < outputs.len() && #[trigger] outputs[k] == n;
            assert(k == a || k == b);
        }
        assert(is_free(nodes, taken, now, low.sum));
        assert(is_free(nodes, taken, now, high.sum));
        assert(is_free(nodes, taken, now, high.state.next_wire));
        assert forall|p: int| 0 <= p < 4 implies bit_known(
            taken.cells,
            expected,
            #[trigger] low.pins[p],
        ) by {
            lemma_bit_stays(low.state.cells, taken.cells, expected, low.pins[p]);
        }
        lemma_goes_on_joined(nodes, rest.state, low.state, high.state);
        lemma_goes_on_joined(nodes, rest.state, high.state, taken);
        lemma_bit_stays(rest.state.cells, taken.cells, expected, rest.carry);
        lemma_carry_emitted(nodes, taken, ccu, before, now, expected);
        lemma_goes_on_joined(nodes, rest.state, taken, chain.state);
        lemma_goes_on_joined(nodes, start.state, rest.state, chain.state);
    }
}

proof fn lemma_carry_start_emitted(
    inputs: MapInputs,
    state: EmitterModel,
    cell: ArithmeticCell,
    done: spec_fn(int) -> bool,
    expected: spec_fn(int) -> bool,
)
    requires
        is_emitted(inputs.nodes, state, done, expected),
        plans_are_sound(inputs.nodes, inputs.plans, inputs.nodes.len() as int),
        arithmetic_is_valid(inputs.nodes, cell),
        !carry_start(inputs, state, cell).state.exhausted,
    ensures
        ({
            let start = carry_start(inputs, state, cell);
            &&& is_emitted(inputs.nodes, start.state, done, expected)
            &&& bit_known(start.state.cells, expected, start.carry)
            &&& goes_on(inputs.nodes, state, start.state)
        }),
{
    lemma_adder_nets(inputs.nodes, cell);
    if let Some(net) = cell.carry_in {
        lemma_operand(inputs, state, net, done, expected);
    }
}

/// An adder in the carry chain is laid out.
pub proof fn lemma_adder_emitted(
    inputs: MapInputs,
    state: EmitterModel,
    cell: ArithmeticCell,
    done: spec_fn(int) -> bool,
    expected: spec_fn(int) -> bool,
)
    requires
        is_emitted(inputs.nodes, state, done, expected),
        plans_are_sound(inputs.nodes, inputs.plans, inputs.nodes.len() as int),
        expects_results(inputs.nodes, expected),
        is_open_adder(inputs.nodes, cell, done),
        !adder_mapped(inputs, state, cell).exhausted,
    ensures
        is_emitted(
            inputs.nodes,
            adder_mapped(inputs, state, cell),
            with_results(done, cell.outputs@, cell.outputs@.len() as int),
            expected,
        ),
        goes_on(inputs.nodes, state, adder_mapped(inputs, state, cell)),
{
    let start = carry_start(inputs, state, cell);
    let pairs = pair_count(cell.outputs@.len());
    lemma_adder_chain_exhausted(inputs, start, cell, pairs);
    lemma_carry_start_emitted(inputs, state, cell, done, expected);
    lemma_adder_chain_emitted(inputs, start, cell, pairs, done, expected);
    let a = with_results(done, cell.outputs@, 2 * pairs as int);
    let b = with_results(done, cell.outputs@, cell.outputs@.len() as int);
    assert forall|n: int| #[trigger] a(n) == b(n) by {
        if a(n) && !done(n) {
            let k = choose|k: int|
                0 <= k < 2 * pairs && k < cell.outputs@.len() && #[trigger] cell.outputs@[k] == n;
            assert(cell.outputs@[k] == n);
        }
        if b(n) && !done(n) {
            let k = choose|k: int|
                0 <= k < cell.outputs@.len() && #[trigger] cell.outputs@[k] == n;
            assert(cell.outputs@[k] == n);
        }
    }
    assert(a =~= b);
    lemma_goes_on_joined(
        inputs.nodes,
        state,
        start.state,
        adder_mapped(inputs, state, cell),
    );
}

proof fn lemma_ripple_exhausted(
    inputs: MapInputs,
    start: ChainModel,
    cell: ArithmeticCell,
    count: nat,
)
    ensures
        start.state.exhausted ==> ripple_places(inputs, start, cell, count).state.exhausted,
        count > 0 && ripple_places(
            inputs,
            start,
            cell,
            (count - 1) as nat,
        ).state.exhausted ==> ripple_places(inputs, start, cell, count).state.exhausted,
    decreases count,
{
    if count > 0 {
        let bit = (count - 1) as nat;
        lemma_ripple_exhausted(inputs, start, cell, bit);
        let rest = ripple_places(inputs, start, cell, bit);
        lemma_net_exhausted(inputs.nodes, inputs.plans, rest.state, cell.lhs@[bit as int]);
        let lhs = net_mapped(inputs.nodes, inputs.plans, rest.state, cell.lhs@[bit as int]);
        lemma_net_exhausted(inputs.nodes, inputs.plans, lhs, cell.rhs@[bit as int]);
    }
}

#[verifier::rlimit(80)]
proof fn lemma_ripple_places_emitted(
    inputs: MapInputs,
    start: ChainModel,
    cell: ArithmeticCell,
    count: nat,
    done: spec_fn(int) -> bool,
    expected: spec_fn(int) -> bool,
)
    requires
        is_emitted(inputs.nodes, start.state, done, expected),
        bit_known(start.state.cells, expected, start.carry),
        plans_are_sound(inputs.nodes, inputs.plans, inputs.nodes.len() as int),
        is_open_adder(inputs.nodes, cell, done),
        count <= cell.outputs@.len(),
        !ripple_places(inputs, start, cell, count).state.exhausted,
    ensures
        ({
            let chain = ripple_places(inputs, start, cell, count);
            &&& is_emitted(
                inputs.nodes,
                chain.state,
                with_results(done, cell.outputs@, count as int),
                expected,
            )
            &&& bit_known(chain.state.cells, expected, chain.carry)
            &&& goes_on(inputs.nodes, start.state, chain.state)
        }),
    decreases count,
{
    let nodes = inputs.nodes;
    let outputs = cell.outputs@;
    let chain = ripple_places(inputs, start, cell, count);
    let now = with_results(done, outputs, count as int);
    if count == 0 {
        assert(now =~= done);
    } else {
        let bit = (count - 1) as nat;
        let at = bit as int;
        let rest = ripple_places(inputs, start, cell, bit);
        let lhs = net_mapped(nodes, inputs.plans, rest.state, cell.lhs@[at]);
        let rhs = net_mapped(nodes, inputs.plans, lhs, cell.rhs@[at]);
        let before = with_results(done, outputs, at);
        lemma_net_exhausted(nodes, inputs.plans, rest.state, cell.lhs@[at]);
        lemma_net_exhausted(nodes, inputs.plans, lhs, cell.rhs@[at]);
        assert(!rhs.exhausted && !lhs.exhausted && !rest.state.exhausted);
        lemma_ripple_places_emitted(inputs, start, cell, bit, done, expected);
        lemma_adder_nets(nodes, cell);
        lemma_operand(inputs, rest.state, cell.lhs@[at], before, expected);
        lemma_operand(inputs, lhs, cell.rhs@[at], before, expected);
        let pins = [
            bit_of(lhs.bits, cell.lhs@[at]),
            bit_of(rhs.bits, cell.rhs@[at]),
            rest.carry,
            Bit::Zero,
        ];
        lemma_goes_on_joined(nodes, rest.state, lhs, rhs);
        lemma_bit_stays(lhs.cells, rhs.cells, expected, pins[0]);
        lemma_bit_stays(rest.state.cells, rhs.cells, expected, rest.carry);
        assert forall|k: int| 0 <= k < 4 implies bit_known(
            rhs.cells,
            expected,
            #[trigger] pins[k],
        ) by {
            assert(k == 0 || k == 1 || k == 2 || k == 3);
        }
        let output = net_wire(outputs[at]);
        assert(!before(outputs[at] as int)) by {
            assert(!done(outputs[at] as int));
        }
        lemma_free_net(nodes, rhs, outputs[at], before, expected);
        assert(now(outputs[at] as int));
        assert forall|n: int| #[trigger] before(n) implies now(n) by {
            if !done(n) {
                let k = choose|k: int|
                    0 <= k < at && k < outputs.len() && #[trigger] outputs[k] == n;
                assert(outputs[k] == n);
            }
        }
        assert forall|n: int| #[trigger] now(n) && !before(n) implies n == outputs[at] by {
            let k = choose|k: int|
                0 <= k < count && k < outputs.len() && #[trigger] outputs[k] == n;
            assert(k == at);
        }
        let subtract = cell.operation is Subtract;
        let name = numbered("lut_"@, cell.name@, "_sum_"@, bit);
        let init = table_of(|a: u64| adder_value(subtract, false, a), 16) as u16;
        lemma_table_emitted(nodes, rhs, name, pins, output, init, before, now, expected);
        let with_sum = with_cell(rhs, CellModel::Lut4 { name, inputs: pins, output, init });
        lemma_alias_emitted(nodes, with_sum, outputs[at], Bit::Wire(output), now, expected);
        let summed = with_alias(with_sum, outputs[at], Bit::Wire(output));
        lemma_goes_on_joined(nodes, rhs, with_sum, summed);
        lemma_goes_on_joined(nodes, rest.state, rhs, summed);
        if count < outputs.len() {
            let taken = wire_taken(summed);
            lemma_taken_emitted(nodes, summed, now, expected);
            assert forall|k: int| 0 <= k < 4 implies bit_known(
                taken.cells,
                expected,
                #[trigger] pins[k],
            ) by {
                lemma_bit_stays(rhs.cells, taken.cells, expected, pins[k]);
            }
            lemma_table_emitted(
                nodes,
                taken,
                numbered("lut_"@, cell.name@, "_carry_"@, bit),
                pins,
                summed.next_wire,
                table_of(|a: u64| adder_value(subtract, true, a), 16) as u16,
                now,
                now,
                expected,
            );
            lemma_goes_on_joined(nodes, summed, taken, chain.state);
            lemma_goes_on_joined(nodes, rest.state, summed, chain.state);
        } else {
            lemma_bit_stays(rest.state.cells, summed.cells, expected, rest.carry);
        }
        lemma_goes_on_joined(nodes, start.state, rest.state, chain.state);
    }
}

/// An adder in lookup tables is laid out.
pub proof fn lemma_ripple_emitted(
    inputs: MapInputs,
    state: EmitterModel,
    cell: ArithmeticCell,
    done: spec_fn(int) -> bool,
    expected: spec_fn(int) -> bool,
)
    requires
        is_emitted(inputs.nodes, state, done, expected),
        plans_are_sound(inputs.nodes, inputs.plans, inputs.nodes.len() as int),
        is_open_adder(inputs.nodes, cell, done),
        !ripple_mapped(inputs, state, cell).exhausted,
    ensures
        is_emitted(
            inputs.nodes,
            ripple_mapped(inputs, state, cell),
            with_results(done, cell.outputs@, cell.outputs@.len() as int),
            expected,
        ),
        goes_on(inputs.nodes, state, ripple_mapped(inputs, state, cell)),
{
    let start = carry_start(inputs, state, cell);
    lemma_ripple_exhausted(inputs, start, cell, cell.outputs@.len());
    lemma_carry_start_emitted(inputs, state, cell, done, expected);
    lemma_ripple_places_emitted(inputs, start, cell, cell.outputs@.len(), done, expected);
    lemma_goes_on_joined(
        inputs.nodes,
        state,
        start.state,
        ripple_mapped(inputs, state, cell),
    );
}

/// The result of a comparison, with what was done before.
pub open spec fn with_result(done: spec_fn(int) -> bool, net: NetId) -> spec_fn(int) -> bool {
    |n: int| done(n) || n == net
}

proof fn lemma_comparison_nets(nodes: Seq<Node>, cell: ComparisonCell)
    requires
        comparison_is_valid(nodes, cell),
    ensures
        cell.rhs@.len() == cell.lhs@.len(),
        forall|k: int| 0 <= k < cell.lhs@.len() ==> (#[trigger] cell.lhs@[k]) < nodes.len(),
        forall|k: int| 0 <= k < cell.rhs@.len() ==> (#[trigger] cell.rhs@[k]) < nodes.len(),
{
    let reads = comparison_reads(cell);
    assert forall|k: int| 0 <= k < cell.lhs@.len() implies (#[trigger] cell.lhs@[k])
        < nodes.len() by {
        assert(reads[k] == cell.lhs@[k]);
    }
    assert forall|k: int| 0 <= k < cell.rhs@.len() implies (#[trigger] cell.rhs@[k])
        < nodes.len() by {
        assert(reads[cell.lhs@.len() + k] == cell.rhs@[k]);
    }
}

proof fn lemma_comparison_slice_exhausted(
    inputs: MapInputs,
    state: EmitterModel,
    cell: ComparisonCell,
    index: int,
)
    ensures
        state.exhausted ==> comparison_slice(inputs, state, cell, index).state.exhausted,
{
    if index < cell.lhs@.len() {
        lemma_net_exhausted(inputs.nodes, inputs.plans, state, cell.rhs@[index]);
        let rhs = net_mapped(inputs.nodes, inputs.plans, state, cell.rhs@[index]);
        lemma_net_exhausted(inputs.nodes, inputs.plans, rhs, cell.lhs@[index]);
    }
}

proof fn lemma_comparison_slice_emitted(
    inputs: MapInputs,
    state: EmitterModel,
    cell: ComparisonCell,
    index: int,
    done: spec_fn(int) -> bool,
    expected: spec_fn(int) -> bool,
    kept: u32,
)
    requires
        is_emitted(inputs.nodes, state, done, expected),
        plans_are_sound(inputs.nodes, inputs.plans, inputs.nodes.len() as int),
        comparison_is_valid(inputs.nodes, cell),
        0 <= index,
        !comparison_slice(inputs, state, cell, index).state.exhausted,
    ensures
        ({
            let slice = comparison_slice(inputs, state, cell, index);
            &&& is_emitted(inputs.nodes, slice.state, done, expected)
            &&& goes_on(inputs.nodes, state, slice.state)
            &&& forall|p: int|
                0 <= p < 4 ==> bit_known(slice.state.cells, expected, #[trigger] slice.pins[p])
            &&& inputs.nodes.len() + 2 <= slice.sum < slice.state.next_wire
            &&& state.next_wire <= slice.sum
            &&& is_undriven(slice.state.cells, slice.sum)
            &&& inputs.nodes.len() + 2 <= kept < state.next_wire && is_undriven(
                state.cells,
                kept,
            ) ==> is_undriven(slice.state.cells, kept)
        }),
{
    let nodes = inputs.nodes;
    let slice = comparison_slice(inputs, state, cell, index);
    lemma_comparison_nets(nodes, cell);
    if index < cell.lhs@.len() {
        let rhs = net_mapped(nodes, inputs.plans, state, cell.rhs@[index]);
        let lhs = net_mapped(nodes, inputs.plans, rhs, cell.lhs@[index]);
        lemma_net_exhausted(nodes, inputs.plans, rhs, cell.lhs@[index]);
        lemma_operand(inputs, state, cell.rhs@[index], done, expected);
        lemma_operand(inputs, rhs, cell.lhs@[index], done, expected);
        lemma_bit_stays(rhs.cells, lhs.cells, expected, bit_of(rhs.bits, cell.rhs@[index]));
        lemma_taken_emitted(nodes, lhs, done, expected);
        lemma_goes_on_joined(nodes, state, rhs, lhs);
        lemma_goes_on_joined(nodes, state, lhs, slice.state);
        if nodes.len() + 2 <= kept < state.next_wire && is_undriven(state.cells, kept) {
            assert forall|i: int| 0 <= i < lhs.cells.len() implies !#[trigger] drives(
                lhs.cells[i],
                kept,
            ) by {
                if i < state.cells.len() {
                    assert(lhs.cells[i] == state.cells[i]);
                } else if i < rhs.cells.len() {
                    assert(lhs.cells[i] == rhs.cells[i]);
                    assert(drives(rhs.cells[i], kept) == drives(lhs.cells[i], kept));
                }
            }
        }
    } else {
        lemma_taken_emitted(nodes, state, done, expected);
    }
    assert forall|p: int| 0 <= p < 4 implies bit_known(
        slice.state.cells,
        expected,
        #[trigger] slice.pins[p],
    ) by {
        assert(p == 0 || p == 1 || p == 2 || p == 3);
    }
}

proof fn lemma_comparison_chain_exhausted(
    inputs: MapInputs,
    start: EmitterModel,
    cell: ComparisonCell,
    pairs: nat,
)
    ensures
        start.exhausted ==> comparison_chain(inputs, start, cell, pairs).state.exhausted,
    decreases pairs,
{
    if pairs > 0 {
        let pair = (pairs - 1) as nat;
        lemma_comparison_chain_exhausted(inputs, start, cell, pair);
        let rest = comparison_chain(inputs, start, cell, pair);
        let low = comparison_slice(inputs, rest.state, cell, 2 * pair as int);
        lemma_comparison_slice_exhausted(inputs, rest.state, cell, 2 * pair as int);
        lemma_comparison_slice_exhausted(inputs, low.state, cell, 2 * pair as int + 1);
    }
}

/// What is done along the chain of a comparison.
spec fn chain_done(
    done: spec_fn(int) -> bool,
    cell: ComparisonCell,
    pairs: nat,
) -> spec_fn(int) -> bool {
    if pairs == pair_count(cell.lhs@.len()) && !cell.operation.with_sign() {
        with_result(done, cell.output)
    } else {
        done
    }
}

#[verifier::rlimit(80)]
proof fn lemma_comparison_chain_emitted(
    inputs: MapInputs,
    start: EmitterModel,
    cell: ComparisonCell,
    pairs: nat,
    done: spec_fn(int) -> bool,
    expected: spec_fn(int) -> bool,
)
    requires
        is_emitted(inputs.nodes, start, done, expected),
        plans_are_sound(inputs.nodes, inputs.plans, inputs.nodes.len() as int),
        comparison_is_valid(inputs.nodes, cell),
        !done(cell.output as int),
        pairs <= pair_count(cell.lhs@.len()),
        !comparison_chain(inputs, start, cell, pairs).state.exhausted,
    ensures
        ({
            let chain = comparison_chain(inputs, start, cell, pairs);
            &&& is_emitted(inputs.nodes, chain.state, chain_done(done, cell, pairs), expected)
            &&& bit_known(chain.state.cells, expected, chain.carry)
            &&& goes_on(inputs.nodes, start, chain.state)
        }),
    decreases pairs,
{
    let nodes = inputs.nodes;
    let chain = comparison_chain(inputs, start, cell, pairs);
    assert(pair_count(cell.lhs@.len()) > 0);
    if pairs > 0 {
        let pair = (pairs - 1) as nat;
        let rest = comparison_chain(inputs, start, cell, pair);
        let low = comparison_slice(inputs, rest.state, cell, 2 * pair as int);
        let high = comparison_slice(inputs, low.state, cell, 2 * pair as int + 1);
        lemma_comparison_slice_exhausted(inputs, rest.state, cell, 2 * pair as int);
        lemma_comparison_slice_exhausted(inputs, low.state, cell, 2 * pair as int + 1);
        let direct = pairs == pair_count(cell.lhs@.len()) && !cell.operation.with_sign();
        let state = if direct {
            high.state
        } else {
            wire_taken(high.state)
        };
        assert(!state.exhausted && !high.state.exhausted && !low.state.exhausted
            && !rest.state.exhausted);
        lemma_comparison_chain_emitted(inputs, start, cell, pair, done, expected);
        lemma_comparison_slice_emitted(
            inputs,
            rest.state,
            cell,
            2 * pair as int,
            done,
            expected,
            0,
        );
        lemma_comparison_slice_emitted(
            inputs,
            low.state,
            cell,
            2 * pair as int + 1,
            done,
            expected,
            low.sum,
        );
        let now = chain_done(done, cell, pairs);
        if direct {
            lemma_free_net(nodes, state, cell.output, done, expected);
            assert(now(cell.output as int));
        } else {
            lemma_taken_emitted(nodes, high.state, done, expected);
        }
        let ccu = chain.state.cells[chain.state.cells.len() - 1];
        lemma_goes_on_joined(nodes, rest.state, low.state, high.state);
        assert forall|p: int| 0 <= p < 4 implies bit_known(
            state.cells,
            expected,
            #[trigger] low.pins[p],
        ) by {
            lemma_bit_stays(low.state.cells, state.cells, expected, low.pins[p]);
        }
        lemma_bit_stays(rest.state.cells, state.cells, expected, rest.carry);
        assert(is_free(nodes, state, now, low.sum));
        assert(is_free(nodes, state, now, high.sum));
        lemma_carry_emitted(nodes, state, ccu, done, now, expected);
        lemma_goes_on_joined(nodes, rest.state, high.state, chain.state);
        lemma_goes_on_joined(nodes, start, rest.state, chain.state);
    }
}

/// A comparison is laid out.
#[verifier::rlimit(60)]
pub proof fn lemma_comparison_emitted(
    inputs: MapInputs,
    state: EmitterModel,
    cell: ComparisonCell,
    done: spec_fn(int) -> bool,
    expected: spec_fn(int) -> bool,
)
    requires
        is_emitted(inputs.nodes, state, done, expected),
        plans_are_sound(inputs.nodes, inputs.plans, inputs.nodes.len() as int),
        comparison_is_valid(inputs.nodes, cell),
        !done(cell.output as int),
        !comparison_mapped(inputs, state, cell).exhausted,
    ensures
        is_emitted(
            inputs.nodes,
            comparison_mapped(inputs, state, cell),
            with_result(done, cell.output),
            expected,
        ),
        goes_on(inputs.nodes, state, comparison_mapped(inputs, state, cell)),
{
    let nodes = inputs.nodes;
    let pairs = pair_count(cell.lhs@.len());
    let chain = comparison_chain(inputs, state, cell, pairs);
    let after = comparison_mapped(inputs, state, cell);
    let now = with_result(done, cell.output);
    if cell.operation.with_sign() {
        let top = cell.lhs@.len() - 1;
        let lhs = net_mapped(nodes, inputs.plans, chain.state, cell.lhs@[top]);
        let rhs = net_mapped(nodes, inputs.plans, lhs, cell.rhs@[top]);
        lemma_net_exhausted(nodes, inputs.plans, chain.state, cell.lhs@[top]);
        lemma_net_exhausted(nodes, inputs.plans, lhs, cell.rhs@[top]);
        assert(!rhs.exhausted && !lhs.exhausted && !chain.state.exhausted);
        lemma_comparison_chain_emitted(inputs, state, cell, pairs, done, expected);
        lemma_comparison_nets(nodes, cell);
        lemma_operand(inputs, chain.state, cell.lhs@[top], done, expected);
        lemma_operand(inputs, lhs, cell.rhs@[top], done, expected);
        let pins = [
            bit_of(lhs.bits, cell.lhs@[top]),
            bit_of(rhs.bits, cell.rhs@[top]),
            chain.carry,
            Bit::Zero,
        ];
        lemma_goes_on_joined(nodes, chain.state, lhs, rhs);
        lemma_bit_stays(lhs.cells, rhs.cells, expected, pins[0]);
        lemma_bit_stays(chain.state.cells, rhs.cells, expected, chain.carry);
        assert forall|k: int| 0 <= k < 4 implies bit_known(
            rhs.cells,
            expected,
            #[trigger] pins[k],
        ) by {
            assert(k == 0 || k == 1 || k == 2 || k == 3);
        }
        let output = net_wire(cell.output);
        lemma_free_net(nodes, rhs, cell.output, done, expected);
        let name = "lut_"@ + cell.name@ + "_signed"@;
        let init = table_of(|a: u64| signed_value(a), 16) as u16;
        lemma_table_emitted(nodes, rhs, name, pins, output, init, done, now, expected);
        let pushed = with_cell(rhs, CellModel::Lut4 { name, inputs: pins, output, init });
        lemma_alias_emitted(nodes, pushed, cell.output, Bit::Wire(output), now, expected);
        lemma_goes_on_joined(nodes, rhs, pushed, after);
        lemma_goes_on_joined(nodes, chain.state, rhs, after);
    } else {
        lemma_comparison_chain_emitted(inputs, state, cell, pairs, done, expected);
        lemma_alias_emitted(nodes, chain.state, cell.output, chain.carry, now, expected);
    }
    lemma_goes_on_joined(nodes, state, chain.state, after);
}

/// Adders never recover from running out of wires.
pub proof fn lemma_adder_exhausted(inputs: MapInputs, state: EmitterModel, cell: ArithmeticCell)
    ensures
        state.exhausted ==> adder_mapped(inputs, state, cell).exhausted && ripple_mapped(
            inputs,
            state,
            cell,
        ).exhausted,
{
    if let Some(net) = cell.carry_in {
        lemma_net_exhausted(inputs.nodes, inputs.plans, state, net);
    }
    let start = carry_start(inputs, state, cell);
    lemma_adder_chain_exhausted(inputs, start, cell, pair_count(cell.outputs@.len()));
    lemma_ripple_exhausted(inputs, start, cell, cell.outputs@.len());
}

/// Comparisons never recover from running out of wires.
pub proof fn lemma_comparison_exhausted(
    inputs: MapInputs,
    state: EmitterModel,
    cell: ComparisonCell,
)
    ensures
        state.exhausted ==> comparison_mapped(inputs, state, cell).exhausted,
{
    let pairs = pair_count(cell.lhs@.len());
    lemma_comparison_chain_exhausted(inputs, state, cell, pairs);
    let chain = comparison_chain(inputs, state, cell, pairs);
    let top = cell.lhs@.len() - 1;
    let lhs = net_mapped(inputs.nodes, inputs.plans, chain.state, cell.lhs@[top]);
    lemma_net_exhausted(inputs.nodes, inputs.plans, chain.state, cell.lhs@[top]);
    lemma_net_exhausted(inputs.nodes, inputs.plans, lhs, cell.rhs@[top]);
}

} // verus!
