//! Technology mapping keeps Boolean functions.

use vstd::prelude::*;

use crate::appended::law_memories_only_add_cells;
use crate::appended::no_carry;
use crate::arithmetic::all_retained_mapped;
use crate::arithmetic::carry_start;
use crate::arithmetic::cell_is_mapped;
use crate::arithmetic::cell_is_there;
use crate::arithmetic::lemma_retained_order;
use crate::arithmetic::lemma_stays_mapped;
use crate::arithmetic::lemma_supplied;
use crate::arithmetic::output_index;
use crate::arithmetic::retained_cell;
use crate::arithmetic::retained_count;
use crate::arithmetic::retained_order;
use crate::arithmetic::ripple_places;
use crate::arithmetic::ChainModel;
use crate::arithmetic::MapInputs;
use crate::arithmetic::RetainedCell;
use crate::carried::comparison_agrees;
use crate::carried::law_adder_carries_values;
use crate::carried::law_comparison_carries_values;
use crate::carry::law_split_keeps_other_cells;
use crate::carry::split_all;
use crate::cells::Bit;
use crate::cells::CellModel;
use crate::cells::Control;
use crate::cells::Reset;
use crate::certify::EdgeModel;
use crate::certify::RequestModel;
use crate::constraints::ArithmeticMapping;
use crate::constraints::DelaysModel;
use crate::constraints::MappingOptions;
use crate::cover::plans_are_sound;
use crate::cuts::truth_table;
use crate::cuts::LUT_INPUTS;
use crate::cuts::WIDE_LUT_INPUTS;
use crate::demand::all_arithmetic_reads;
use crate::demand::all_comparison_reads;
use crate::demand::bit_sources;
use crate::demand::constant_output;
use crate::demand::demanded;
use crate::demand::live_register_reads;
use crate::demand::memories_reads;
use crate::demand::output_sources;
use crate::emit::bit_of;
use crate::emit::bits_of;
use crate::emit::emitter_start;
use crate::emit::high_half;
use crate::emit::leaves_mapped;
use crate::emit::low_half;
use crate::emit::net_mapped;
use crate::emit::source_bit;
use crate::emit::supplied;
use crate::emit::wire_taken;
use crate::emit::with_function;
use crate::emit::EmitterModel;
use crate::ir::arithmetic_is_valid;
use crate::ir::arithmetic_reads;
use crate::ir::comparison_is_valid;
use crate::ir::comparison_reads;
use crate::ir::lemma_fault;
use crate::ir::memory_is_valid;
use crate::ir::memory_reads;
use crate::ir::net_wire;
use crate::ir::node_is_connected;
use crate::ir::node_is_valid;
use crate::ir::port_is_valid;
use crate::ir::port_reads;
use crate::ir::readable;
use crate::ir::register_is_valid;
use crate::ir::register_reads;
use crate::ir::ArithmeticCell;
use crate::ir::EnableControl;
use crate::ir::MemoryCell;
use crate::ir::NetId;
use crate::ir::Netlist;
use crate::ir::Node;
use crate::ir::Port;
use crate::ir::RegisterCell;
use crate::ir::ResetControl;
use crate::mapping::bits_aliased;
use crate::mapping::conservative_candidate;
use crate::mapping::constants_folded;
use crate::mapping::first_selection;
use crate::mapping::flip_flop;
use crate::mapping::flip_flops_added;
use crate::mapping::logic_emitted;
use crate::mapping::mapped_for_period;
use crate::mapping::mapped_once;
use crate::mapping::memories_mapped;
use crate::mapping::netlist_cover;
use crate::mapping::outputs_aliased;
use crate::mapping::renewed;
use crate::mapping::roots_mapped;
use crate::mapping::wide_candidate;
use crate::meaning::bit_value;
use crate::meaning::bits_agree;
use crate::meaning::cells_agree;
use crate::meaning::law_cover_carries_values;
use crate::meaning::lemma_agree_prefix;
use crate::meaning::lemma_net_extends;
use crate::meaning::node_value;
use crate::meaning::nodes_agree;
use crate::netlist::ClockModel;
use crate::netlist::NetlistModel;
use crate::plans::PlanModel;
use crate::retained::uses_carry;
use crate::sound_cover::law_cover_is_sound;
use crate::split::law_split_keeps_values;
use crate::sums::extends;
use crate::sums::law_ripple_carries_values;
use crate::sums::lemma_extends;
use crate::sums::sums_agree;
use crate::text::decimal_text;
use crate::wide_mux::with_pfu_muxes;
use crate::widened::law_wide_muxes_keep_other_cells;
use crate::widened::law_wide_muxes_keep_values;
use crate::widened::lemma_pfu_ports;

verus! {

/// Whether net `n` is that of a register that never changes.
pub open spec fn is_folded(netlist: Netlist, n: int) -> bool {
    netlist.nodes@[n].kind is RegisterOutput && constant_output(
        netlist.nodes@,
        netlist.registers@,
        n as NetId,
    ) is Some
}

/// Whether `nets` are values of a netlist whose sources have the values of
/// their wires: gates have the values they compute, registers that never change
/// their constant, arithmetic the digits of its sum, and comparisons the relation
/// of their operands.
pub open spec fn nets_agree(
    netlist: Netlist,
    values: spec_fn(u32) -> bool,
    nets: spec_fn(NetId) -> bool,
) -> bool {
    &&& nodes_agree(netlist.nodes@, nets)
    &&& forall|net: NetId|
        net < netlist.nodes@.len() && source_bit(netlist.nodes@[net as int].kind, net) == Some(
            Bit::Wire(net_wire(net)),
        ) && !is_folded(netlist, net as int) ==> #[trigger] nets(net) == values(net_wire(net))
    &&& forall|i: int|
        0 <= i < netlist.registers@.len() ==> (constant_output(
            netlist.nodes@,
            netlist.registers@,
            (#[trigger] netlist.registers@[i]).output,
        ) matches Some(value) ==> nets(netlist.registers@[i].output) == value)
    &&& forall|i: int|
        0 <= i < netlist.arithmetic@.len() ==> sums_agree(nets, #[trigger] netlist.arithmetic@[i])
    &&& forall|i: int|
        0 <= i < netlist.comparisons@.len() ==> comparison_agrees(
            nets,
            #[trigger] netlist.comparisons@[i],
        )
}

/// Whether the retained cells and their digits can be counted.
pub open spec fn is_countable(netlist: Netlist) -> bool {
    &&& netlist.arithmetic@.len() <= usize::MAX
    &&& netlist.comparisons@.len() <= usize::MAX
    &&& forall|i: int|
        0 <= i < netlist.comparisons@.len() ==> (#[trigger] netlist.comparisons@[i]).lhs@.len()
            <= u64::MAX
}

/// Whether a netlist holds gates, registers, memories and arithmetic that is
/// mapped to lookup tables, and nothing else.
pub open spec fn is_table_logic(netlist: Netlist, mapping: ArithmeticMapping) -> bool {
    &&& netlist.comparisons@.len() == 0
    &&& netlist.arithmetic@.len() <= usize::MAX
    &&& forall|i: int|
        0 <= i < netlist.arithmetic@.len() ==> !uses_carry(
            (#[trigger] netlist.arithmetic@[i]).outputs@.len(),
            mapping,
        )
}

/// Whether every source and constant is mapped.
spec fn has_sources(nodes: Seq<Node>, bits: Seq<Option<Bit>>) -> bool {
    bits.len() == nodes.len() && forall|i: int|
        0 <= i < nodes.len() && source_bit(nodes[i].kind, i as NetId) is Some ==> (
        #[trigger] bits[i]) is Some
}

proof fn lemma_fold(
    netlist: Netlist,
    values: spec_fn(u32) -> bool,
    nets: spec_fn(NetId) -> bool,
    count: nat,
)
    requires
        netlist.is_valid(),
        nets_agree(netlist, values, nets),
        count <= netlist.registers@.len(),
    ensures
        ({
            let state = constants_folded(
                netlist,
                emitter_start(netlist.nodes@),
                netlist.registers@.take(count as int),
            );
            &&& has_sources(netlist.nodes@, state.bits)
            &&& state.cells.len() == 0
            &&& forall|i: int|
                0 <= i < state.bits.len() && (#[trigger] state.bits[i]) is Some ==> bit_value(
                    values,
                    state.bits[i]->0,
                ) == nets(i as NetId) || (netlist.nodes@[i].kind is RegisterOutput && forall|
                    r: int,
                |
                    0 <= r < count ==> (#[trigger] netlist.registers@[r]).output != i)
        }),
    decreases count,
{
    let nodes = netlist.nodes@;
    let start = emitter_start(nodes);
    if count == 0 {
        assert forall|i: int| 0 <= i < start.bits.len() && (
        #[trigger] start.bits[i]) is Some implies bit_value(values, start.bits[i]->0) == nets(
            i as NetId,
        ) || nodes[i].kind is RegisterOutput by {
            assert(start.bits[i] == source_bit(nodes[i].kind, i as NetId));
            if nodes[i].kind is Constant {
                assert(node_value(nodes, nets, i) == nets(i as NetId));
            } else if !(nodes[i].kind is RegisterOutput) {
                assert(nets(i as NetId) == values(net_wire(i as NetId)));
            }
        }
    } else {
        let last = (count - 1) as nat;
        lemma_fold(netlist, values, nets, last);
        let registers = netlist.registers@.take(count as int);
        assert(registers.drop_last() =~= netlist.registers@.take(last as int));
        let before = constants_folded(netlist, start, netlist.registers@.take(last as int));
        let after = constants_folded(netlist, start, registers);
        let register = netlist.registers@[last as int];
        assert(register_is_valid(nodes, register));
        assert forall|i: int| 0 <= i < after.bits.len() && (
        #[trigger] after.bits[i]) is Some implies bit_value(values, after.bits[i]->0) == nets(
            i as NetId,
        ) || (nodes[i].kind is RegisterOutput && forall|r: int|
            0 <= r < count ==> (#[trigger] netlist.registers@[r]).output != i) by {
            if i != register.output {
                assert(after.bits[i] == before.bits[i]);
            } else if constant_output(nodes, netlist.registers@, register.output) is None {
                assert(after.bits[i] == before.bits[i]);
                assert(nets(i as NetId) == values(net_wire(i as NetId)));
                lemma_unfolded(netlist, last, i);
            }
        }
        assert forall|i: int|
            0 <= i < nodes.len() && source_bit(nodes[i].kind, i as NetId) is Some implies (
        #[trigger] after.bits[i]) is Some by {
            if i != register.output {
                assert(after.bits[i] == before.bits[i]);
            }
        }
    }
}

/// The net of a register that can change keeps its wire.
proof fn lemma_unfolded(netlist: Netlist, count: nat, n: int)
    requires
        netlist.is_valid(),
        count <= netlist.registers@.len(),
        0 <= n < netlist.nodes@.len(),
        constant_output(netlist.nodes@, netlist.registers@, n as NetId) is None,
    ensures
        constants_folded(
            netlist,
            emitter_start(netlist.nodes@),
            netlist.registers@.take(count as int),
        ).bits[n] == emitter_start(netlist.nodes@).bits[n],
        constants_folded(
            netlist,
            emitter_start(netlist.nodes@),
            netlist.registers@.take(count as int),
        ).bits.len() == netlist.nodes@.len(),
    decreases count,
{
    if count > 0 {
        let last = (count - 1) as nat;
        lemma_unfolded(netlist, last, n);
        let registers = netlist.registers@.take(count as int);
        assert(registers.drop_last() =~= netlist.registers@.take(last as int));
        assert(registers.last() == netlist.registers@[last as int]);
        assert(register_is_valid(netlist.nodes@, netlist.registers@[last as int]));
    }
}

proof fn lemma_folded(
    netlist: Netlist,
    values: spec_fn(u32) -> bool,
    nets: spec_fn(NetId) -> bool,
)
    requires
        netlist.is_valid(),
        nets_agree(netlist, values, nets),
    ensures
        ({
            let state = constants_folded(
                netlist,
                emitter_start(netlist.nodes@),
                netlist.registers@,
            );
            bits_agree(values, nets, state.bits) && has_sources(netlist.nodes@, state.bits)
                && state.cells.len() == 0
        }),
{
    let registers = netlist.registers@;
    assert(registers.take(registers.len() as int) =~= registers);
    lemma_fold(netlist, values, nets, registers.len());
    let state = constants_folded(netlist, emitter_start(netlist.nodes@), registers);
    assert forall|i: int| 0 <= i < state.bits.len() && (
    #[trigger] state.bits[i]) is Some implies bit_value(values, state.bits[i]->0) == nets(
        i as NetId,
    ) by {
        assert(node_is_connected(netlist, i));
        if netlist.nodes@[i].kind is RegisterOutput {
            let r = choose|r: int|
                0 <= r < registers.len() && (#[trigger] registers[r]).output == i as NetId;
            assert(netlist.registers@[r].output == i);
        }
    }
}

proof fn lemma_retained(
    values: spec_fn(u32) -> bool,
    nets: spec_fn(NetId) -> bool,
    netlist: Netlist,
    plans: Seq<Option<PlanModel>>,
    mapping: ArithmeticMapping,
    start: EmitterModel,
    count: nat,
)
    requires
        netlist.is_valid(),
        is_countable(netlist),
        nets_agree(netlist, values, nets),
        plans_are_sound(netlist.nodes@, plans, netlist.nodes@.len() as int),
        has_sources(netlist.nodes@, start.bits),
        count <= retained_count(netlist),
    ensures
        ({
            let order = retained_order(netlist, retained_count(netlist));
            let after = all_retained_mapped(
                MapInputs { nodes: netlist.nodes@, plans },
                netlist,
                mapping,
                start,
                order,
                count,
            );
            &&& extends(start, after)
            &&& forall|i: int|
                0 <= i < count ==> cell_is_mapped(netlist, after.bits, #[trigger] order[i])
            &&& bits_agree(values, nets, start.bits) && cells_agree(values, after.cells)
                ==> bits_agree(values, nets, after.bits)
        }),
    decreases count,
{
    let nodes = netlist.nodes@;
    let inputs = MapInputs { nodes, plans };
    let total = retained_count(netlist);
    let order = retained_order(netlist, total);
    lemma_retained_order(netlist, total);
    let after = all_retained_mapped(inputs, netlist, mapping, start, order, count);
    if count == 0 {
        assert(start.cells =~= start.cells.take(start.cells.len() as int));
    } else {
        let last = (count - 1) as nat;
        lemma_retained(values, nets, netlist, plans, mapping, start, last);
        let before = all_retained_mapped(inputs, netlist, mapping, start, order, last);
        assert(order.contains(order[last as int]));
        let c = choose|c: int| 0 <= c < total && order[last as int] == retained_cell(netlist, c);
        let cell = order[last as int];
        assert(cell_is_there(netlist, cell));
        assert(output_index(netlist, cell) < nodes.len()) by {
            match cell {
                RetainedCell::Arithmetic(k) => {
                    assert(arithmetic_is_valid(nodes, netlist.arithmetic@[k as int]));
                    assert(netlist.arithmetic@[k as int].outputs@[0] < nodes.len());
                },
                RetainedCell::Comparison(k) => {
                    assert(comparison_is_valid(nodes, netlist.comparisons@[k as int]));
                },
            }
        }
        lemma_supplied(
            netlist,
            plans,
            start.bits,
            before.bits,
            order,
            last as int,
            output_index(netlist, cell) as int,
        );
        match cell {
            RetainedCell::Arithmetic(k) => {
                let arithmetic = netlist.arithmetic@[k as int];
                assert(arithmetic_is_valid(nodes, arithmetic));
                assert(sums_agree(nets, arithmetic));
                if uses_carry(arithmetic.outputs@.len(), mapping) {
                    law_adder_carries_values(values, nets, inputs, before, arithmetic);
                } else {
                    law_ripple_carries_values(values, nets, inputs, before, arithmetic);
                }
            },
            RetainedCell::Comparison(k) => {
                let comparison = netlist.comparisons@[k as int];
                assert(comparison_is_valid(nodes, comparison));
                law_comparison_carries_values(values, nets, inputs, before, comparison);
            },
        }
        lemma_extends(start, before, after);
        assert forall|i: int| 0 <= i < count implies cell_is_mapped(
            netlist,
            after.bits,
            #[trigger] order[i],
        ) by {
            if i < last {
                assert(cell_is_mapped(netlist, before.bits, order[i]));
                assert(order.contains(order[i]));
                let k = choose|k: int| 0 <= k < total && order[i] == retained_cell(netlist, k);
                assert(cell_is_there(netlist, order[i]));
                lemma_stays_mapped(netlist, before.bits, after.bits, order[i]);
            }
        }
        if cells_agree(values, after.cells) {
            lemma_agree_prefix(values, before.cells, after.cells);
        }
    }
}

pub proof fn lemma_memories_readable(netlist: Netlist, count: nat)
    requires
        netlist.is_valid(),
        count <= netlist.memories@.len(),
    ensures
        forall|i: int|
            0 <= i < memories_reads(netlist.memories@.take(count as int)).len() ==> readable(
                netlist.nodes@,
                #[trigger] memories_reads(netlist.memories@.take(count as int))[i],
            ),
    decreases count,
{
    let nodes = netlist.nodes@;
    if count > 0 {
        let last = (count - 1) as nat;
        let memories = netlist.memories@.take(count as int);
        lemma_memories_readable(netlist, last);
        assert(memories.drop_last() =~= netlist.memories@.take(last as int));
        let rest = memories_reads(netlist.memories@.take(last as int));
        let out = memories_reads(memories);
        let memory = netlist.memories@[last as int];
        let first = port_reads(memory.port);
        assert(memory_is_valid(nodes, memory));
        assert forall|i: int| 0 <= i < out.len() implies readable(nodes, #[trigger] out[i]) by {
            if i < rest.len() {
                assert(out[i] == rest[i]);
            } else {
                let k = i - rest.len();
                assert(out[i] == memory_reads(memory)[k]);
                if k < first.len() {
                    assert(out[i] == first[k]);
                } else {
                    assert(out[i] == port_reads(memory.second_port->0)[k - first.len()]);
                }
            }
        }
    }
}

pub proof fn lemma_arithmetic_readable(netlist: Netlist, count: nat)
    requires
        netlist.is_valid(),
        count <= netlist.arithmetic@.len(),
    ensures
        forall|i: int|
            0 <= i < all_arithmetic_reads(netlist.arithmetic@.take(count as int)).len()
                ==> readable(
                netlist.nodes@,
                #[trigger] all_arithmetic_reads(netlist.arithmetic@.take(count as int))[i],
            ),
    decreases count,
{
    let nodes = netlist.nodes@;
    if count > 0 {
        let last = (count - 1) as nat;
        let cells = netlist.arithmetic@.take(count as int);
        lemma_arithmetic_readable(netlist, last);
        assert(cells.drop_last() =~= netlist.arithmetic@.take(last as int));
        let rest = all_arithmetic_reads(netlist.arithmetic@.take(last as int));
        let out = all_arithmetic_reads(cells);
        let cell = netlist.arithmetic@[last as int];
        assert(arithmetic_is_valid(nodes, cell));
        assert forall|i: int| 0 <= i < out.len() implies readable(nodes, #[trigger] out[i]) by {
            if i < rest.len() {
                assert(out[i] == rest[i]);
            } else {
                assert(out[i] == arithmetic_reads(cell)[i - rest.len()]);
            }
        }
    }
}

proof fn lemma_roots(
    values: spec_fn(u32) -> bool,
    nets: spec_fn(NetId) -> bool,
    netlist: Netlist,
    plans: Seq<Option<PlanModel>>,
    state: EmitterModel,
    roots: Seq<NetId>,
    count: nat,
)
    requires
        netlist.is_valid(),
        plans_are_sound(netlist.nodes@, plans, netlist.nodes@.len() as int),
        supplied(netlist.nodes@, plans, state.bits, netlist.nodes@.len() as int),
        nodes_agree(netlist.nodes@, nets),
        bits_agree(values, nets, state.bits),
        count <= roots.len(),
        forall|i: int| 0 <= i < roots.len() ==> readable(netlist.nodes@, #[trigger] roots[i]),
        cells_agree(
            values,
            roots_mapped(netlist.nodes@, plans, state, roots, count).cells,
        ),
    ensures
        ({
            let after = roots_mapped(netlist.nodes@, plans, state, roots, count);
            &&& bits_agree(values, nets, after.bits)
            &&& supplied(netlist.nodes@, plans, after.bits, netlist.nodes@.len() as int)
            &&& forall|i: int|
                0 <= i < count ==> after.bits[(#[trigger] roots[i]) as int] is Some
        }),
    decreases count,
{
    let nodes = netlist.nodes@;
    if count > 0 {
        let last = (count - 1) as nat;
        let before = roots_mapped(nodes, plans, state, roots, last);
        let after = roots_mapped(nodes, plans, state, roots, count);
        let root = roots[last as int];
        lemma_roots_extend(netlist, plans, state, roots, last);
        lemma_net_extends(nodes, plans, before, root);
        lemma_agree_prefix(values, before.cells, after.cells);
        lemma_roots(values, nets, netlist, plans, state, roots, last);
        law_cover_carries_values(values, nets, nodes, plans, before, root);
        assert forall|i: int| 0 <= i < count implies after.bits[(
        #[trigger] roots[i]) as int] is Some by {
            assert(readable(nodes, roots[i]));
            if i < last {
                assert(before.bits[roots[i] as int] is Some);
            }
        }
    }
}

proof fn lemma_roots_extend(
    netlist: Netlist,
    plans: Seq<Option<PlanModel>>,
    state: EmitterModel,
    roots: Seq<NetId>,
    count: nat,
)
    requires
        plans_are_sound(netlist.nodes@, plans, netlist.nodes@.len() as int),
        supplied(netlist.nodes@, plans, state.bits, netlist.nodes@.len() as int),
        count <= roots.len(),
        forall|i: int| 0 <= i < roots.len() ==> readable(netlist.nodes@, #[trigger] roots[i]),
    ensures
        supplied(
            netlist.nodes@,
            plans,
            roots_mapped(netlist.nodes@, plans, state, roots, count).bits,
            netlist.nodes@.len() as int,
        ),
        extends(state, roots_mapped(netlist.nodes@, plans, state, roots, count)),
    decreases count,
{
    let nodes = netlist.nodes@;
    if count > 0 {
        let last = (count - 1) as nat;
        lemma_roots_extend(netlist, plans, state, roots, last);
        let before = roots_mapped(nodes, plans, state, roots, last);
        let after = roots_mapped(nodes, plans, state, roots, count);
        assert(readable(nodes, roots[last as int]));
        lemma_net_extends(nodes, plans, before, roots[last as int]);
        assert(extends(before, after));
        lemma_extends(state, before, after);
    } else {
        assert(state.cells =~= state.cells.take(state.cells.len() as int));
    }
}

/// Whether the bits of output nodes among `nets` stand for the nets behind them
/// and all other bits are as in `before`.
spec fn stands_for(
    nodes: Seq<Node>,
    before: Seq<Option<Bit>>,
    after: Seq<Option<Bit>>,
) -> bool {
    before.len() == after.len() == nodes.len() && forall|i: int|
        0 <= i < nodes.len() ==> (#[trigger] after[i] == before[i] || (nodes[i].kind is Output
            && after[i] == Some(bit_of(before, nodes[i].inputs@[0])))) && (!(
        nodes[i].kind is Output) ==> after[i] == before[i])
}

proof fn lemma_bits_aliased(
    nodes: Seq<Node>,
    base: Seq<Option<Bit>>,
    state: EmitterModel,
    bits: Seq<NetId>,
)
    requires
        forall|i: int| 0 <= i < nodes.len() ==> #[trigger] node_is_valid(nodes, i),
        stands_for(nodes, base, state.bits),
        forall|i: int|
            0 <= i < bits.len() ==> (#[trigger] bits[i]) < nodes.len()
                && nodes[bits[i] as int].kind is Output,
    ensures
        ({
            let after = bits_aliased(nodes, state, bits);
            &&& after.cells == state.cells
            &&& stands_for(nodes, base, after.bits)
            &&& forall|i: int|
                0 <= i < bits.len() ==> after.bits[(#[trigger] bits[i]) as int] == Some(
                    bit_of(base, nodes[bits[i] as int].inputs@[0]),
                )
            &&& forall|i: int|
                0 <= i < nodes.len() && nodes[i].kind is Output && state.bits[i] == Some(
                    bit_of(base, nodes[i].inputs@[0]),
                ) ==> (#[trigger] after.bits[i]) == state.bits[i]
        }),
    decreases bits.len(),
{
    if bits.len() > 0 {
        let rest = bits.drop_last();
        assert forall|i: int| 0 <= i < rest.len() implies (#[trigger] rest[i]) < nodes.len()
            && nodes[rest[i] as int].kind is Output by {
            assert(rest[i] == bits[i]);
        }
        lemma_bits_aliased(nodes, base, state, rest);
        let before = bits_aliased(nodes, state, rest);
        let after = bits_aliased(nodes, state, bits);
        let last = bits[bits.len() - 1];
        assert(node_is_valid(nodes, last as int));
        let source = nodes[last as int].inputs@[0];
        assert(readable(nodes, nodes[last as int].inputs@[0]));
        assert(before.bits[source as int] == base[source as int]);
        assert forall|i: int| 0 <= i < bits.len() implies after.bits[(
        #[trigger] bits[i]) as int] == Some(
            bit_of(base, nodes[bits[i] as int].inputs@[0]),
        ) by {
            if i < bits.len() - 1 {
                assert(before.bits[rest[i] as int] == Some(
                    bit_of(base, nodes[bits[i] as int].inputs@[0]),
                ));
            }
        }
    }
}

proof fn lemma_outputs_aliased(netlist: Netlist, state: EmitterModel, count: nat)
    requires
        netlist.is_valid(),
        state.bits.len() == netlist.nodes@.len(),
        count <= netlist.ports@.len(),
    ensures
        ({
            let after = outputs_aliased(
                netlist.nodes@,
                state,
                netlist.ports@.take(count as int),
            );
            &&& after.cells == state.cells
            &&& stands_for(netlist.nodes@, state.bits, after.bits)
            &&& forall|p: int, b: int|
                0 <= p < count && netlist.ports@[p].direction is Output && 0 <= b
                    < netlist.ports@[p].bits@.len()
                    ==> after.bits[(#[trigger] netlist.ports@[p].bits@[b]) as int] == Some(
                    bit_of(
                        state.bits,
                        netlist.nodes@[netlist.ports@[p].bits@[b] as int].inputs@[0],
                    ),
                )
        }),
    decreases count,
{
    let nodes = netlist.nodes@;
    if count > 0 {
        let last = (count - 1) as nat;
        let ports = netlist.ports@.take(count as int);
        lemma_outputs_aliased(netlist, state, last);
        assert(ports.drop_last() =~= netlist.ports@.take(last as int));
        let before = outputs_aliased(nodes, state, netlist.ports@.take(last as int));
        let after = outputs_aliased(nodes, state, ports);
        let port = netlist.ports@[last as int];
        assert(port_is_valid(nodes, port));
        if port.direction is Output {
            lemma_bits_aliased(nodes, state.bits, before, port.bits@);
            assert forall|p: int, b: int|
                0 <= p < count && netlist.ports@[p].direction is Output && 0 <= b
                    < netlist.ports@[p].bits@.len() implies after.bits[(
            #[trigger] netlist.ports@[p].bits@[b]) as int] == Some(
                bit_of(state.bits, nodes[netlist.ports@[p].bits@[b] as int].inputs@[0]),
            ) by {
                assert(port_is_valid(nodes, netlist.ports@[p]));
                let o = netlist.ports@[p].bits@[b];
                assert(nodes[o as int].kind is Output);
                if p < last {
                    assert(before.bits[o as int] == Some(
                        bit_of(state.bits, nodes[o as int].inputs@[0]),
                    ));
                    assert(after.bits[o as int] == before.bits[o as int]);
                }
            }
        }
    }
}

proof fn lemma_output_sources(nodes: Seq<Node>, ports: Seq<Port>, p: int, b: int)
    requires
        0 <= p < ports.len(),
        ports[p].direction is Output,
        0 <= b < ports[p].bits@.len(),
    ensures
        output_sources(nodes, ports).contains(nodes[ports[p].bits@[b] as int].inputs@[0]),
    decreases ports.len(),
{
    let rest = output_sources(nodes, ports.drop_last());
    let out = output_sources(nodes, ports);
    if p < ports.len() - 1 {
        lemma_output_sources(nodes, ports.drop_last(), p, b);
        let k = choose|k: int|
            0 <= k < rest.len() && rest[k] == nodes[ports[p].bits@[b] as int].inputs@[0];
        assert(out[k] == rest[k]);
    } else {
        assert(out[rest.len() + b] == bit_sources(nodes, ports[p].bits@)[b]);
    }
}

proof fn lemma_register_reads(netlist: Netlist, registers: Seq<RegisterCell>, r: int, j: int)
    requires
        0 <= r < registers.len(),
        0 <= j < register_reads(registers[r]).len(),
        constant_output(netlist.nodes@, netlist.registers@, registers[r].output) is None,
    ensures
        live_register_reads(netlist, registers).contains(register_reads(registers[r])[j]),
    decreases registers.len(),
{
    let rest = live_register_reads(netlist, registers.drop_last());
    let out = live_register_reads(netlist, registers);
    let net = register_reads(registers[r])[j];
    if r < registers.len() - 1 {
        lemma_register_reads(netlist, registers.drop_last(), r, j);
        let k = choose|k: int| 0 <= k < rest.len() && rest[k] == net;
        assert(out[k] == rest[k]);
    } else {
        assert(out[rest.len() + j] == net);
    }
}

/// What a register that can change reads is demanded.
pub proof fn lemma_register_demands(netlist: Netlist, r: int, j: int)
    requires
        0 <= r < netlist.registers@.len(),
        0 <= j < register_reads(netlist.registers@[r]).len(),
        constant_output(
            netlist.nodes@,
            netlist.registers@,
            netlist.registers@[r].output,
        ) is None,
    ensures
        demanded(netlist).contains(register_reads(netlist.registers@[r])[j]),
{
    lemma_register_reads(netlist, netlist.registers@, r, j);
    let reads = live_register_reads(netlist, netlist.registers@);
    let net = register_reads(netlist.registers@[r])[j];
    let k = choose|k: int| 0 <= k < reads.len() && reads[k] == net;
    let sources = output_sources(netlist.nodes@, netlist.ports@);
    assert(demanded(netlist)[sources.len() + k] == net);
}

proof fn lemma_memory_reads(memories: Seq<MemoryCell>, m: int, j: int)
    requires
        0 <= m < memories.len(),
        0 <= j < memory_reads(memories[m]).len(),
    ensures
        memories_reads(memories).contains(memory_reads(memories[m])[j]),
    decreases memories.len(),
{
    let rest = memories_reads(memories.drop_last());
    let out = memories_reads(memories);
    let net = memory_reads(memories[m])[j];
    if m < memories.len() - 1 {
        lemma_memory_reads(memories.drop_last(), m, j);
        let k = choose|k: int| 0 <= k < rest.len() && rest[k] == net;
        assert(out[k] == rest[k]);
    } else {
        assert(out[rest.len() + j] == net);
    }
}

/// What a memory reads is demanded.
pub proof fn lemma_memory_demands(netlist: Netlist, m: int, j: int)
    requires
        0 <= m < netlist.memories@.len(),
        0 <= j < memory_reads(netlist.memories@[m]).len(),
    ensures
        demanded(netlist).contains(memory_reads(netlist.memories@[m])[j]),
{
    lemma_memory_reads(netlist.memories@, m, j);
    let reads = memories_reads(netlist.memories@);
    let net = memory_reads(netlist.memories@[m])[j];
    let k = choose|k: int| 0 <= k < reads.len() && reads[k] == net;
    let sources = output_sources(netlist.nodes@, netlist.ports@);
    let registers = live_register_reads(netlist, netlist.registers@);
    assert(demanded(netlist)[sources.len() + registers.len() + k] == net);
}

pub proof fn lemma_sources_readable(netlist: Netlist, count: nat)
    requires
        netlist.is_valid(),
        count <= netlist.ports@.len(),
    ensures
        forall|i: int|
            0 <= i < output_sources(netlist.nodes@, netlist.ports@.take(count as int)).len()
                ==> readable(
                netlist.nodes@,
                #[trigger] output_sources(netlist.nodes@, netlist.ports@.take(count as int))[i],
            ),
    decreases count,
{
    let nodes = netlist.nodes@;
    if count > 0 {
        let last = (count - 1) as nat;
        let ports = netlist.ports@.take(count as int);
        lemma_sources_readable(netlist, last);
        assert(ports.drop_last() =~= netlist.ports@.take(last as int));
        let rest = output_sources(nodes, netlist.ports@.take(last as int));
        let out = output_sources(nodes, ports);
        let port = netlist.ports@[last as int];
        assert(port_is_valid(nodes, port));
        assert forall|i: int| 0 <= i < out.len() implies readable(nodes, #[trigger] out[i]) by {
            if i < rest.len() {
                assert(out[i] == rest[i]);
            } else {
                let o = port.bits@[i - rest.len()];
                assert(out[i] == bit_sources(nodes, port.bits@)[i - rest.len()]);
                assert(nodes[o as int].kind is Output);
                assert(node_is_valid(nodes, o as int));
                assert(readable(nodes, nodes[o as int].inputs@[0]));
            }
        }
    }
}

pub proof fn lemma_reads_readable(netlist: Netlist, count: nat)
    requires
        netlist.is_valid(),
        count <= netlist.registers@.len(),
    ensures
        forall|i: int|
            0 <= i < live_register_reads(netlist, netlist.registers@.take(count as int)).len()
                ==> readable(
                netlist.nodes@,
                #[trigger] live_register_reads(netlist, netlist.registers@.take(count as int))[i],
            ),
    decreases count,
{
    let nodes = netlist.nodes@;
    if count > 0 {
        let last = (count - 1) as nat;
        let registers = netlist.registers@.take(count as int);
        lemma_reads_readable(netlist, last);
        assert(registers.drop_last() =~= netlist.registers@.take(last as int));
        let rest = live_register_reads(netlist, netlist.registers@.take(last as int));
        let out = live_register_reads(netlist, registers);
        let register = netlist.registers@[last as int];
        assert(register_is_valid(nodes, register));
        assert forall|i: int| 0 <= i < out.len() implies readable(nodes, #[trigger] out[i]) by {
            if i < rest.len() {
                assert(out[i] == rest[i]);
            } else {
                assert(out[i] == register_reads(register)[i - rest.len()]);
            }
        }
    }
}

proof fn lemma_flip_flops(
    netlist: Netlist,
    state: EmitterModel,
    registers: Seq<RegisterCell>,
    r: int,
)
    ensures
        ({
            let after = flip_flops_added(netlist, state, registers);
            &&& after.bits == state.bits
            &&& state.cells.len() <= after.cells.len()
            &&& state.cells == after.cells.take(state.cells.len() as int)
            &&& 0 <= r < registers.len() && constant_output(
                netlist.nodes@,
                netlist.registers@,
                registers[r].output,
            ) is None ==> after.cells.contains(flip_flop(state.bits, registers[r]))
        }),
    decreases registers.len(),
{
    let after = flip_flops_added(netlist, state, registers);
    if registers.len() > 0 {
        let rest = flip_flops_added(netlist, state, registers.drop_last());
        lemma_flip_flops(netlist, state, registers.drop_last(), r);
        if 0 <= r < registers.len() && constant_output(
            netlist.nodes@,
            netlist.registers@,
            registers[r].output,
        ) is None {
            let cell = flip_flop(state.bits, registers[r]);
            if r < registers.len() - 1 {
                assert(registers.drop_last()[r] == registers[r]);
                let k = choose|k: int| 0 <= k < rest.cells.len() && rest.cells[k] == cell;
                assert(after.cells[k] == cell);
            } else {
                assert(after.cells[rest.cells.len() as int] == cell);
            }
        }
        assert forall|i: int| 0 <= i < state.cells.len() implies #[trigger] after.cells[i]
            == state.cells[i] by {
            assert(state.cells[i] == rest.cells.take(state.cells.len() as int)[i]);
            assert(after.cells[i] == rest.cells[i]);
        }
    }
    assert(state.cells =~= after.cells.take(state.cells.len() as int));
}

pub proof fn lemma_comparisons_readable(netlist: Netlist, count: nat)
    requires
        netlist.is_valid(),
        count <= netlist.comparisons@.len(),
    ensures
        forall|i: int|
            0 <= i < all_comparison_reads(netlist.comparisons@.take(count as int)).len()
                ==> readable(
                netlist.nodes@,
                #[trigger] all_comparison_reads(netlist.comparisons@.take(count as int))[i],
            ),
    decreases count,
{
    let nodes = netlist.nodes@;
    if count > 0 {
        let last = (count - 1) as nat;
        let cells = netlist.comparisons@.take(count as int);
        lemma_comparisons_readable(netlist, last);
        assert(cells.drop_last() =~= netlist.comparisons@.take(last as int));
        let rest = all_comparison_reads(netlist.comparisons@.take(last as int));
        let out = all_comparison_reads(cells);
        let cell = netlist.comparisons@[last as int];
        assert(comparison_is_valid(nodes, cell));
        assert forall|i: int| 0 <= i < out.len() implies readable(nodes, #[trigger] out[i]) by {
            if i < rest.len() {
                assert(out[i] == rest[i]);
            } else {
                assert(out[i] == comparison_reads(cell)[i - rest.len()]);
            }
        }
    }
}

/// The logic of a netlist carries the values of the source, on every net that is
/// demanded.
pub proof fn lemma_logic(
    values: spec_fn(u32) -> bool,
    nets: spec_fn(NetId) -> bool,
    netlist: Netlist,
    options: MappingOptions,
    plans: Seq<Option<PlanModel>>,
)
    requires
        netlist.is_valid(),
        is_countable(netlist),
        plans_are_sound(netlist.nodes@, plans, netlist.nodes@.len() as int),
        nets_agree(netlist, values, nets),
        cells_agree(values, logic_emitted(netlist, options, plans).cells),
    ensures
        ({
            let bits = logic_emitted(netlist, options, plans).bits;
            &&& forall|p: int, b: int|
                0 <= p < netlist.ports@.len() && netlist.ports@[p].direction is Output && 0 <= b
                    < netlist.ports@[p].bits@.len() ==> bit_value(
                    values,
                    bit_of(bits, #[trigger] netlist.ports@[p].bits@[b]),
                ) == nets(netlist.nodes@[netlist.ports@[p].bits@[b] as int].inputs@[0])
            &&& forall|r: int|
                0 <= r < netlist.registers@.len() && constant_output(
                    netlist.nodes@,
                    netlist.registers@,
                    (#[trigger] netlist.registers@[r]).output,
                ) is None ==> logic_emitted(netlist, options, plans).cells.contains(
                    flip_flop(bits, netlist.registers@[r]),
                )
            &&& forall|k: int|
                0 <= k < demanded(netlist).len() ==> bit_value(
                    values,
                    bit_of(bits, #[trigger] demanded(netlist)[k]),
                ) == nets(demanded(netlist)[k])
        }),
{
    let nodes = netlist.nodes@;
    let registers = netlist.registers@;
    let roots = demanded(netlist);
    assert(registers.take(registers.len() as int) =~= registers);
    assert(netlist.ports@.take(netlist.ports@.len() as int) =~= netlist.ports@);
    lemma_folded(netlist, values, nets);
    let folded = constants_folded(netlist, emitter_start(nodes), registers);
    let total = retained_count(netlist);
    let order = retained_order(netlist, total);
    let retained = all_retained_mapped(
        MapInputs { nodes, plans },
        netlist,
        options.arithmetic,
        folded,
        order,
        total,
    );
    lemma_retained_order(netlist, total);
    lemma_retained(values, nets, netlist, plans, options.arithmetic, folded, total);
    lemma_supplied(
        netlist,
        plans,
        folded.bits,
        retained.bits,
        order,
        total as int,
        nodes.len() as int,
    );
    lemma_sources_readable(netlist, netlist.ports@.len());
    assert(netlist.arithmetic@.take(netlist.arithmetic@.len() as int) =~= netlist.arithmetic@);
    lemma_arithmetic_readable(netlist, netlist.arithmetic@.len());
    let operands = all_arithmetic_reads(netlist.arithmetic@);
    assert(netlist.comparisons@.take(netlist.comparisons@.len() as int) =~= netlist.comparisons@);
    lemma_comparisons_readable(netlist, netlist.comparisons@.len());
    let compared = all_comparison_reads(netlist.comparisons@);
    assert(netlist.memories@.take(netlist.memories@.len() as int) =~= netlist.memories@);
    lemma_memories_readable(netlist, netlist.memories@.len());
    let stored = memories_reads(netlist.memories@);
    lemma_reads_readable(netlist, registers.len());
    let sources = output_sources(nodes, netlist.ports@);
    let reads = live_register_reads(netlist, registers);
    assert(roots =~= sources + reads + stored + operands + compared);
    assert forall|i: int| 0 <= i < roots.len() implies readable(nodes, #[trigger] roots[i]) by {
        if i < sources.len() {
            assert(roots[i] == sources[i]);
        } else if i < sources.len() + reads.len() {
            assert(roots[i] == reads[i - sources.len()]);
        } else if i < sources.len() + reads.len() + stored.len() {
            assert(roots[i] == stored[i - sources.len() - reads.len()]);
        } else if i < sources.len() + reads.len() + stored.len() + operands.len() {
            assert(roots[i] == operands[i - sources.len() - reads.len() - stored.len()]);
        } else {
            assert(roots[i] == compared[i - sources.len() - reads.len() - stored.len()
                - operands.len()]);
        }
    }
    let mapped = roots_mapped(nodes, plans, retained, roots, roots.len());
    lemma_roots_extend(netlist, plans, retained, roots, roots.len());
    lemma_outputs_aliased(netlist, mapped, netlist.ports@.len());
    let aliased = outputs_aliased(nodes, mapped, netlist.ports@);
    let ready = renewed(aliased);
    let logic = logic_emitted(netlist, options, plans);
    assert(logic == flip_flops_added(netlist, ready, registers));
    lemma_flip_flops(netlist, ready, registers, 0);
    lemma_agree_prefix(values, mapped.cells, logic.cells);
    lemma_agree_prefix(values, retained.cells, mapped.cells);
    lemma_roots(values, nets, netlist, plans, retained, roots, roots.len());
    assert forall|p: int, b: int|
        0 <= p < netlist.ports@.len() && netlist.ports@[p].direction is Output && 0 <= b
            < netlist.ports@[p].bits@.len() implies bit_value(
        values,
        bit_of(logic.bits, #[trigger] netlist.ports@[p].bits@[b]),
    ) == nets(nodes[netlist.ports@[p].bits@[b] as int].inputs@[0]) by {
        let o = netlist.ports@[p].bits@[b];
        let source = nodes[o as int].inputs@[0];
        lemma_output_sources(nodes, netlist.ports@, p, b);
        let k = choose|k: int| 0 <= k < sources.len() && sources[k] == source;
        assert(roots[k] == source);
        assert(readable(nodes, roots[k]));
        assert(mapped.bits[roots[k] as int] is Some);
        assert(logic.bits[o as int] == aliased.bits[o as int]);
    }
    assert forall|r: int|
        0 <= r < registers.len() && constant_output(
            nodes,
            registers,
            (#[trigger] netlist.registers@[r]).output,
        ) is None implies logic.cells.contains(flip_flop(logic.bits, registers[r])) by {
        lemma_flip_flops(netlist, ready, registers, r);
    }
    assert forall|k: int| 0 <= k < roots.len() implies bit_value(
        values,
        bit_of(logic.bits, #[trigger] roots[k]),
    ) == nets(roots[k]) by {
        assert(readable(nodes, roots[k]));
        assert(mapped.bits[roots[k] as int] is Some);
        assert(aliased.bits[roots[k] as int] == mapped.bits[roots[k] as int]);
        assert(logic.bits[roots[k] as int] == aliased.bits[roots[k] as int]);
    }
}

/// Mapping keeps functions. Take any values of the wires with which the mapped
/// lookup tables, muxes and carry primitives agree, and the values that the source
/// gates, arithmetic and comparisons compute from the same sources: every bit of
/// an output port carries the value of the net behind it, and every register that
/// can change has a flip-flop that reads the values of the register's data, clock,
/// enable and reset, at its edge and levels.
pub proof fn law_mapping_keeps_functions(
    values: spec_fn(u32) -> bool,
    nets: spec_fn(NetId) -> bool,
    netlist: Netlist,
    options: MappingOptions,
    period_ps: u32,
    delays: DelaysModel,
    max_inputs: nat,
)
    requires
        is_countable(netlist),
        nets_agree(netlist, values, nets),
        LUT_INPUTS <= max_inputs <= WIDE_LUT_INPUTS,
    ensures
        mapped_once(netlist, options, period_ps, delays, max_inputs) matches Ok(mapped)
            ==> cells_agree(values, mapped.cells) ==> shows(netlist, mapped, values, nets),
{
    lemma_fault(netlist);
    let plans = netlist_cover(netlist, options, period_ps, delays, max_inputs).plans;
    if let Ok(mapped) = mapped_once(netlist, options, period_ps, delays, max_inputs) {
        let logic = logic_emitted(netlist, options, plans);
        law_cover_is_sound(netlist, options, period_ps, delays, max_inputs);
        law_memories_only_add_cells(
            netlist.nodes@,
            logic,
            netlist.memories@,
            netlist.memories@.len(),
        );
        if cells_agree(values, mapped.cells) {
            assert(logic.cells =~= mapped.cells.take(logic.cells.len() as int));
            lemma_agree_prefix(values, logic.cells, mapped.cells);
            lemma_logic(values, nets, netlist, options, plans);
            assert forall|r: int|
                0 <= r < netlist.registers@.len() && constant_output(
                    netlist.nodes@,
                    netlist.registers@,
                    (#[trigger] netlist.registers@[r]).output,
                ) is None implies has_flip_flop(
                values,
                nets,
                mapped.cells,
                netlist.registers@[r],
            ) by {
                lemma_is_flip_flop(netlist, values, nets, logic.bits, r);
                let cell = flip_flop(logic.bits, netlist.registers@[r]);
                let i = choose|i: int|
                    0 <= i < logic.cells.len() && logic.cells[i] == cell;
                assert(mapped.cells[i] == cell);
            }
        }
    }
}

/// Whether a flip-flop has the enable of a register: the value of its signal, at the
/// level that asserts it.
pub open spec fn has_enable(
    values: spec_fn(u32) -> bool,
    nets: spec_fn(NetId) -> bool,
    control: Option<Control>,
    enable: Option<EnableControl>,
) -> bool {
    match enable {
        Some(enable) => control matches Some(control) && bit_value(values, control.signal) == nets(
            enable.signal,
        ) && control.active == enable.active,
        None => control is None,
    }
}

/// Whether a flip-flop has the reset of a register: the value of its signal, the level
/// that asserts it, whether it waits for the clock, and what it loads.
pub open spec fn has_reset(
    values: spec_fn(u32) -> bool,
    nets: spec_fn(NetId) -> bool,
    mapped: Option<Reset>,
    reset: Option<ResetControl>,
) -> bool {
    match reset {
        Some(reset) => mapped matches Some(mapped) && bit_value(values, mapped.signal) == nets(
            reset.signal,
        ) && mapped.active == reset.active && mapped.asynchronous == reset.asynchronous
            && mapped.value == reset.value,
        None => mapped is None,
    }
}

/// Whether a flip-flop is the register: it drives the register's net, reads the values
/// of its data and clock, acts on its edge, and has its enable and reset.
pub open spec fn is_flip_flop(
    values: spec_fn(u32) -> bool,
    nets: spec_fn(NetId) -> bool,
    cell: CellModel,
    register: RegisterCell,
) -> bool {
    cell matches CellModel::FlipFlop { name, data, output, clock, edge, enable, reset } && {
        &&& name == "ff_"@ + register.name@
        &&& output == register.output + 2
        &&& bit_value(values, data) == nets(register.data)
        &&& bit_value(values, clock) == nets(register.clock)
        &&& edge == register.edge
        &&& has_enable(values, nets, enable, register.enable)
        &&& has_reset(values, nets, reset, register.reset)
    }
}

/// Whether a flip-flop stands for the register.
pub open spec fn has_flip_flop(
    values: spec_fn(u32) -> bool,
    nets: spec_fn(NetId) -> bool,
    cells: Seq<CellModel>,
    register: RegisterCell,
) -> bool {
    exists|i: int| 0 <= i < cells.len() && is_flip_flop(values, nets, #[trigger] cells[i], register)
}

/// The flip-flop of a register whose nets carry their values is the register.
proof fn lemma_is_flip_flop(
    netlist: Netlist,
    values: spec_fn(u32) -> bool,
    nets: spec_fn(NetId) -> bool,
    bits: Seq<Option<Bit>>,
    r: int,
)
    requires
        netlist.is_valid(),
        0 <= r < netlist.registers@.len(),
        constant_output(
            netlist.nodes@,
            netlist.registers@,
            netlist.registers@[r].output,
        ) is None,
        forall|k: int|
            0 <= k < demanded(netlist).len() ==> bit_value(
                values,
                bit_of(bits, #[trigger] demanded(netlist)[k]),
            ) == nets(demanded(netlist)[k]),
    ensures
        is_flip_flop(
            values,
            nets,
            flip_flop(bits, netlist.registers@[r]),
            netlist.registers@[r],
        ),
{
    let register = netlist.registers@[r];
    let reads = register_reads(register);
    assert(register_is_valid(netlist.nodes@, register));
    assert forall|j: int| 0 <= j < reads.len() implies bit_value(
        values,
        bit_of(bits, #[trigger] reads[j]),
    ) == nets(reads[j]) by {
        lemma_register_demands(netlist, r, j);
        let roots = demanded(netlist);
        let k = choose|k: int| 0 <= k < roots.len() && roots[k] == reads[j];
        assert(roots[k] == reads[j]);
    }
    assert(reads[0] == register.data);
    assert(reads[1] == register.clock);
    if let Some(enable) = register.enable {
        assert(reads[2] == enable.signal);
    }
    if let Some(reset) = register.reset {
        assert(reads[reads.len() - 1] == reset.signal);
    }
}

proof fn lemma_function_no_carry(
    state: EmitterModel,
    name: Seq<char>,
    inputs: Seq<Bit>,
    output: u32,
    truth: u128,
)
    requires
        no_carry(state.cells),
    ensures
        no_carry(with_function(state, name, inputs, output, truth).cells),
    decreases inputs.len(),
{
    if inputs.len() > LUT_INPUTS {
        let zero = state.next_wire;
        let after_zero = wire_taken(state);
        let one = after_zero.next_wire;
        let start = wire_taken(after_zero);
        let rest = inputs.drop_last();
        let low_truth = low_half(truth, inputs.len());
        lemma_function_no_carry(start, name + "_wide0"@, rest, zero, low_truth);
        let low = with_function(start, name + "_wide0"@, rest, zero, low_truth);
        lemma_function_no_carry(low, name + "_wide1"@, rest, one, high_half(truth, inputs.len()));
    }
}

proof fn lemma_net_no_carry(
    nodes: Seq<Node>,
    plans: Seq<Option<PlanModel>>,
    state: EmitterModel,
    net: NetId,
)
    requires
        no_carry(state.cells),
    ensures
        no_carry(net_mapped(nodes, plans, state, net).cells),
    decreases 2 * net + 1, 0nat,
{
    if state.bits[net as int] is None && plans[net as int] is Some {
        let leaves = plans[net as int]->0.leaves;
        lemma_leaves_no_carry(nodes, plans, state, leaves, leaves.len(), net as nat);
        let below = leaves_mapped(nodes, plans, state, leaves, leaves.len(), net as nat);
        lemma_function_no_carry(
            below,
            "lut"@ + decimal_text(net as nat),
            bits_of(below.bits, leaves),
            net_wire(net),
            truth_table(nodes, net, leaves) as u128,
        );
    }
}

proof fn lemma_leaves_no_carry(
    nodes: Seq<Node>,
    plans: Seq<Option<PlanModel>>,
    state: EmitterModel,
    leaves: Seq<NetId>,
    count: nat,
    bound: nat,
)
    requires
        no_carry(state.cells),
    ensures
        no_carry(leaves_mapped(nodes, plans, state, leaves, count, bound).cells),
    decreases 2 * bound, count,
{
    if count > 0 {
        let last = (count - 1) as nat;
        lemma_leaves_no_carry(nodes, plans, state, leaves, last, bound);
        if leaves[last as int] < bound {
            let rest = leaves_mapped(nodes, plans, state, leaves, last, bound);
            lemma_net_no_carry(nodes, plans, rest, leaves[last as int]);
        }
    }
}

proof fn lemma_ripple_no_carry(
    inputs: MapInputs,
    start: ChainModel,
    cell: ArithmeticCell,
    count: nat,
)
    requires
        no_carry(start.state.cells),
    ensures
        no_carry(ripple_places(inputs, start, cell, count).state.cells),
    decreases count,
{
    if count > 0 {
        let bit = count - 1;
        lemma_ripple_no_carry(inputs, start, cell, bit as nat);
        let rest = ripple_places(inputs, start, cell, bit as nat);
        lemma_net_no_carry(inputs.nodes, inputs.plans, rest.state, cell.lhs@[bit]);
        let lhs = net_mapped(inputs.nodes, inputs.plans, rest.state, cell.lhs@[bit]);
        lemma_net_no_carry(inputs.nodes, inputs.plans, lhs, cell.rhs@[bit]);
    }
}

proof fn lemma_retained_no_carry(
    netlist: Netlist,
    plans: Seq<Option<PlanModel>>,
    mapping: ArithmeticMapping,
    start: EmitterModel,
    count: nat,
)
    requires
        is_table_logic(netlist, mapping),
        no_carry(start.cells),
        count <= retained_count(netlist),
    ensures
        no_carry(
            all_retained_mapped(
                MapInputs { nodes: netlist.nodes@, plans },
                netlist,
                mapping,
                start,
                retained_order(netlist, retained_count(netlist)),
                count,
            ).cells,
        ),
    decreases count,
{
    if count > 0 {
        let inputs = MapInputs { nodes: netlist.nodes@, plans };
        let total = retained_count(netlist);
        let order = retained_order(netlist, total);
        let last = (count - 1) as nat;
        lemma_retained_order(netlist, total);
        lemma_retained_no_carry(netlist, plans, mapping, start, last);
        let before = all_retained_mapped(inputs, netlist, mapping, start, order, last);
        assert(order.contains(order[last as int]));
        let c = choose|c: int| 0 <= c < total && order[last as int] == retained_cell(netlist, c);
        let cell = netlist.arithmetic@[c];
        assert(order[last as int] == RetainedCell::Arithmetic(c as usize));
        if let Some(net) = cell.carry_in {
            lemma_net_no_carry(inputs.nodes, inputs.plans, before, net);
        }
        lemma_ripple_no_carry(
            inputs,
            carry_start(inputs, before, cell),
            cell,
            cell.outputs@.len(),
        );
    }
}

proof fn lemma_roots_no_carry(
    nodes: Seq<Node>,
    plans: Seq<Option<PlanModel>>,
    state: EmitterModel,
    roots: Seq<NetId>,
    count: nat,
)
    requires
        no_carry(state.cells),
    ensures
        no_carry(roots_mapped(nodes, plans, state, roots, count).cells),
    decreases count,
{
    if count > 0 {
        let last = (count - 1) as nat;
        lemma_roots_no_carry(nodes, plans, state, roots, last);
        let rest = roots_mapped(nodes, plans, state, roots, last);
        lemma_net_no_carry(nodes, plans, rest, roots[last as int]);
    }
}

proof fn lemma_folded_cells(netlist: Netlist, state: EmitterModel, registers: Seq<RegisterCell>)
    ensures
        constants_folded(netlist, state, registers).cells == state.cells,
    decreases registers.len(),
{
    if registers.len() > 0 {
        lemma_folded_cells(netlist, state, registers.drop_last());
    }
}

proof fn lemma_bits_cells(nodes: Seq<Node>, state: EmitterModel, bits: Seq<NetId>)
    ensures
        bits_aliased(nodes, state, bits).cells == state.cells,
    decreases bits.len(),
{
    if bits.len() > 0 {
        lemma_bits_cells(nodes, state, bits.drop_last());
    }
}

proof fn lemma_outputs_cells(nodes: Seq<Node>, state: EmitterModel, ports: Seq<Port>)
    ensures
        outputs_aliased(nodes, state, ports).cells == state.cells,
    decreases ports.len(),
{
    if ports.len() > 0 {
        let rest = outputs_aliased(nodes, state, ports.drop_last());
        lemma_outputs_cells(nodes, state, ports.drop_last());
        lemma_bits_cells(nodes, rest, ports.last().bits@);
    }
}

proof fn lemma_flip_flops_no_carry(
    netlist: Netlist,
    state: EmitterModel,
    registers: Seq<RegisterCell>,
)
    requires
        no_carry(state.cells),
    ensures
        no_carry(flip_flops_added(netlist, state, registers).cells),
    decreases registers.len(),
{
    if registers.len() > 0 {
        lemma_flip_flops_no_carry(netlist, state, registers.drop_last());
    }
}

/// Logic that lookup tables hold maps to no carry primitive.
pub proof fn law_table_logic_needs_no_carry(
    netlist: Netlist,
    options: MappingOptions,
    period_ps: u32,
    delays: DelaysModel,
    max_inputs: nat,
)
    requires
        is_table_logic(netlist, options.arithmetic),
    ensures
        mapped_once(netlist, options, period_ps, delays, max_inputs) matches Ok(mapped)
            ==> no_carry(mapped.cells),
{
    let nodes = netlist.nodes@;
    let plans = netlist_cover(netlist, options, period_ps, delays, max_inputs).plans;
    let start = emitter_start(nodes);
    let folded = constants_folded(netlist, start, netlist.registers@);
    lemma_folded_cells(netlist, start, netlist.registers@);
    let total = retained_count(netlist);
    lemma_retained_no_carry(netlist, plans, options.arithmetic, folded, total);
    let retained = all_retained_mapped(
        MapInputs { nodes, plans },
        netlist,
        options.arithmetic,
        folded,
        retained_order(netlist, total),
        total,
    );
    let roots = demanded(netlist);
    lemma_roots_no_carry(nodes, plans, retained, roots, roots.len());
    let mapped = roots_mapped(nodes, plans, retained, roots, roots.len());
    lemma_outputs_cells(nodes, mapped, netlist.ports@);
    let aliased = outputs_aliased(nodes, mapped, netlist.ports@);
    lemma_flip_flops_no_carry(netlist, renewed(aliased), netlist.registers@);
    let logic = logic_emitted(netlist, options, plans);
    let emitted = memories_mapped(nodes, logic, netlist.memories@, netlist.memories@.len());
    law_memories_only_add_cells(nodes, logic, netlist.memories@, netlist.memories@.len());
    assert forall|i: int| 0 <= i < emitted.cells.len() implies !((
    #[trigger] emitted.cells[i]) is Ccu2c) by {
        if i < logic.cells.len() {
            assert(emitted.cells[i] == logic.cells[i]);
        }
    }
}

proof fn lemma_kept_flip_flop(
    values: spec_fn(u32) -> bool,
    nets: spec_fn(NetId) -> bool,
    before: Seq<CellModel>,
    after: Seq<CellModel>,
    register: RegisterCell,
)
    requires
        has_flip_flop(values, nets, before, register),
        forall|i: int|
            0 <= i < before.len() && (#[trigger] before[i]) is FlipFlop ==> i < after.len()
                && after[i] == before[i],
    ensures
        has_flip_flop(values, nets, after, register),
{
    let i = choose|i: int|
        0 <= i < before.len() && is_flip_flop(values, nets, #[trigger] before[i], register);
    assert(before[i] is FlipFlop);
    assert(after[i] == before[i]);
}

proof fn lemma_still_shows(
    netlist: Netlist,
    values: spec_fn(u32) -> bool,
    nets: spec_fn(NetId) -> bool,
    before: NetlistModel,
    after: NetlistModel,
)
    requires
        shows(netlist, before, values, nets),
        after.ports == before.ports,
        forall|i: int|
            0 <= i < before.cells.len() && (#[trigger] before.cells[i]) is FlipFlop ==> i
                < after.cells.len() && after.cells[i] == before.cells[i],
    ensures
        shows(netlist, after, values, nets),
{
    assert forall|r: int|
        0 <= r < netlist.registers@.len() && constant_output(
            netlist.nodes@,
            netlist.registers@,
            (#[trigger] netlist.registers@[r]).output,
        ) is None implies has_flip_flop(
        values,
        nets,
        after.cells,
        netlist.registers@[r],
    ) by {
        lemma_kept_flip_flop(
            values,
            nets,
            before.cells,
            after.cells,
            netlist.registers@[r],
        );
    }
}

/// Whether a mapped netlist shows the values of the source: output ports carry
/// the nets behind them, and registers that can change read their data.
pub open spec fn shows(
    netlist: Netlist,
    mapped: NetlistModel,
    values: spec_fn(u32) -> bool,
    nets: spec_fn(NetId) -> bool,
) -> bool {
    &&& forall|p: int, b: int|
        0 <= p < netlist.ports@.len() && netlist.ports@[p].direction is Output && 0 <= b
            < netlist.ports@[p].bits@.len() ==> bit_value(values, mapped.ports[p].bits[b])
            == nets(netlist.nodes@[(#[trigger] netlist.ports@[p].bits@[b]) as int].inputs@[0])
    &&& forall|r: int|
        0 <= r < netlist.registers@.len() && constant_output(
            netlist.nodes@,
            netlist.registers@,
            (#[trigger] netlist.registers@[r]).output,
        ) is None ==> has_flip_flop(values, nets, mapped.cells, netlist.registers@[r])
}

/// A mapping that was not retimed shows the values of the source, whichever
/// candidate was chosen, whatever muxes were placed and carry branches split.
pub proof fn law_chosen_mapping_keeps_functions(
    values: spec_fn(u32) -> bool,
    nets: spec_fn(NetId) -> bool,
    netlist: Netlist,
    options: MappingOptions,
    delays: DelaysModel,
    period_ps: u32,
    target_ps: u32,
    clocks: Seq<ClockModel>,
    certificates: spec_fn(RequestModel) -> Option<Seq<EdgeModel>>,
)
    requires
        is_countable(netlist),
        nets_agree(netlist, values, nets),
        mapped_once(netlist, options, period_ps, delays, LUT_INPUTS as nat) matches Ok(narrow)
            ==> split_all(narrow).0.cells.len() <= usize::MAX && with_pfu_muxes(
            split_all(narrow).0,
        ).cells.len() <= usize::MAX,
    ensures
        mapped_for_period(
            netlist,
            options,
            delays,
            period_ps,
            target_ps,
            clocks,
            certificates,
        ) matches Ok(mapped) ==> !mapped.retiming.applied && cells_agree(values, mapped.cells)
            ==> shows(netlist, mapped, values, nets),
{
    let wide_inputs = WIDE_LUT_INPUTS as nat;
    let inputs = LUT_INPUTS as nat;
    law_mapping_keeps_functions(values, nets, netlist, options, period_ps, delays, wide_inputs);
    law_mapping_keeps_functions(values, nets, netlist, options, period_ps, delays, inputs);
    if let Ok(mapped) = mapped_for_period(
        netlist,
        options,
        delays,
        period_ps,
        target_ps,
        clocks,
        certificates,
    ) {
        if !mapped.retiming.applied && cells_agree(values, mapped.cells) {
            let wide = mapped_once(netlist, options, period_ps, delays, wide_inputs)->Ok_0;
            let narrow = mapped_once(netlist, options, period_ps, delays, inputs)->Ok_0;
            let conservative = conservative_candidate(narrow);
            let first = first_selection(wide_candidate(wide), conservative, period_ps);
            assert(mapped.cells == first.netlist.cells && mapped.ports == first.netlist.ports);
            if first.netlist == wide_candidate(wide) {
                law_split_keeps_other_cells(wide);
                law_split_keeps_values(values, wide);
                lemma_still_shows(netlist, values, nets, wide, mapped);
            } else {
                let split = split_all(narrow).0;
                law_split_keeps_other_cells(narrow);
                law_wide_muxes_keep_values(values, split);
                law_split_keeps_values(values, narrow);
                lemma_pfu_ports(split);
                lemma_still_shows(netlist, values, nets, narrow, split);
                assert forall|i: int|
                    0 <= i < split.cells.len() && (
                    #[trigger] split.cells[i]) is FlipFlop implies i < mapped.cells.len()
                    && mapped.cells[i] == split.cells[i] by {
                    law_wide_muxes_keep_other_cells(split, i);
                }
                lemma_still_shows(netlist, values, nets, split, mapped);
            }
        }
    }
}

} // verus!
