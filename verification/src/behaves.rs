//! What a netlist does over time, and that its mapping does the same.

use vstd::prelude::*;

use crate::appended::law_memories_only_add_cells;
use crate::carried::comparison_agrees;
use crate::cells::cell_outputs;
use crate::cells::Bit;
use crate::cells::CellModel;
use crate::cells::ClockEdge;
use crate::cells::PortModel;
use crate::certify::EdgeModel;
use crate::certify::RequestModel;
use crate::constraints::DelaysModel;
use crate::constraints::MappingOptions;
use crate::cuts::LUT_INPUTS;
use crate::cuts::WIDE_LUT_INPUTS;
use crate::demand::constant_output;
use crate::demand::register_constant;
use crate::emit::source_bit;
use crate::emit::EmitterModel;
use crate::equivalence::has_flip_flop;
use crate::equivalence::is_countable;
use crate::equivalence::is_flip_flop;
use crate::equivalence::is_folded;
use crate::equivalence::law_mapping_keeps_functions;
use crate::equivalence::nets_agree;
use crate::errors::MappingFault;
use crate::ir::arithmetic_is_valid;
use crate::ir::arithmetic_reads;
use crate::ir::comparison_is_valid;
use crate::ir::comparison_reads;
use crate::ir::is_gate;
use crate::ir::lemma_fault;
use crate::ir::net_wire;
use crate::ir::node_is_valid;
use crate::ir::port_is_valid;
use crate::ir::readable;
use crate::ir::register_is_valid;
use crate::ir::register_reads;
use crate::ir::ArithmeticCell;
use crate::ir::ComparisonCell;
use crate::ir::EnableControl;
use crate::ir::NetId;
use crate::ir::Netlist;
use crate::ir::Node;
use crate::ir::NodeKind;
use crate::ir::PortDirection;
use crate::ir::RegisterCell;
use crate::ir::ResetControl;
use crate::mapping::flip_flops_added;
use crate::mapping::logic_emitted;
use crate::mapping::mapped_once;
use crate::mapping::memories_mapped;
use crate::mapping::netlist_cover;
use crate::mapping::renewed;
use crate::meaning::bit_value;
use crate::meaning::cells_agree;
use crate::meaning::node_value;
use crate::meaning::nodes_agree;
use crate::moves::cell_steps;
use crate::moves::cells_step;
use crate::moves::state_after;
use crate::netlist::NetlistModel;
use crate::path::certificates_hold;
use crate::path::comes_from;
use crate::path::finds_its_cells;
use crate::path::law_retimed_mapping_keeps_functions;
use crate::shown::cell_starts;
use crate::shown::drives;
use crate::shown::is_run;
use crate::shown::lemma_run_before;
use crate::shown::same_bits;
use crate::shown::same_ports;
use crate::sound_cover::law_cover_is_sound;
use crate::sums::digit_total;
use crate::sums::lemma_word_step;
use crate::sums::sums_agree;
use crate::sums::word_value;
use crate::wired::law_mapping_is_well_driven;
use crate::wired_logic::has_one_source;
use crate::wired_logic::lemma_logic_emitted;
use crate::wired_logic::logic_aliased;
use crate::wired_logic::sources_of;

verus! {

/// What net `n` is where the nets below it are `nets`, and inputs, memories and
/// registers that can change have the values of their wires.
pub open spec fn net_value(
    netlist: Netlist,
    values: spec_fn(u32) -> bool,
    nets: spec_fn(NetId) -> bool,
    n: int,
) -> bool {
    let nodes = netlist.nodes@;
    match nodes[n].kind {
        NodeKind::Input | NodeKind::MemoryOutput => values((n + 2) as u32),
        NodeKind::RegisterOutput => match constant_output(
            nodes,
            netlist.registers@,
            n as NetId,
        ) {
            Some(value) => value,
            None => values((n + 2) as u32),
        },
        NodeKind::ArithmeticOutput => {
            let (i, k) = result_place(netlist, n);
            digit_total(nets, netlist.arithmetic@[i], k as nat) % 2 == 1
        },
        NodeKind::ComparisonOutput => {
            let i = comparison_place(netlist, n);
            compared(nets, netlist.comparisons@[i])
        },
        _ => node_value(nodes, nets, n),
    }
}

/// The arithmetic cell and its digit that drive net `n`.
pub open spec fn result_place(netlist: Netlist, n: int) -> (int, int) {
    choose|i: int, k: int|
        0 <= i < netlist.arithmetic@.len() && 0 <= k < netlist.arithmetic@[i].outputs@.len()
            && #[trigger] netlist.arithmetic@[i].outputs@[k] == n
}

/// The comparison that drives net `n`.
pub open spec fn comparison_place(netlist: Netlist, n: int) -> int {
    choose|i: int|
        0 <= i < netlist.comparisons@.len() && (#[trigger] netlist.comparisons@[i]).output == n
}

/// What a comparison finds.
pub open spec fn compared(nets: spec_fn(NetId) -> bool, cell: ComparisonCell) -> bool {
    comparison_agrees(|n: NetId| n == cell.output || nets(n), cell)
}

/// The values of the first `count` nets.
pub open spec fn settled(
    netlist: Netlist,
    values: spec_fn(u32) -> bool,
    count: nat,
) -> spec_fn(NetId) -> bool
    decreases count,
{
    if count == 0 {
        |n: NetId| false
    } else {
        let rest = settled(netlist, values, (count - 1) as nat);
        let value = net_value(netlist, values, rest, count - 1);
        |n: NetId|
            if n == count - 1 {
                value
            } else {
                rest(n)
            }
    }
}

proof fn lemma_settled(netlist: Netlist, values: spec_fn(u32) -> bool, low: nat, high: nat)
    requires
        low <= high <= u32::MAX,
    ensures
        forall|n: NetId|
            n < low ==> #[trigger] settled(netlist, values, low)(n) == settled(
                netlist,
                values,
                high,
            )(n),
        low < high ==> settled(netlist, values, high)(low as NetId) == net_value(
            netlist,
            values,
            settled(netlist, values, low),
            low as int,
        ),
    decreases high,
{
    if low < high {
        lemma_settled(netlist, values, low, (high - 1) as nat);
    }
}

/// Whether two valuations have the same values below `limit`.
spec fn same_below(
    a: spec_fn(NetId) -> bool,
    b: spec_fn(NetId) -> bool,
    limit: int,
) -> bool {
    forall|n: NetId| n < limit ==> #[trigger] a(n) == b(n)
}

proof fn lemma_same_total(
    a: spec_fn(NetId) -> bool,
    b: spec_fn(NetId) -> bool,
    nodes: Seq<Node>,
    cell: ArithmeticCell,
    index: nat,
)
    requires
        arithmetic_is_valid(nodes, cell),
        same_below(a, b, cell.outputs@[0] as int),
        index < cell.outputs@.len(),
    ensures
        digit_total(a, cell, index) == digit_total(b, cell, index),
    decreases index,
{
    let reads = arithmetic_reads(cell);
    let width = cell.outputs@.len() as int;
    assert(reads[index as int] == cell.lhs@[index as int]);
    assert(reads[width + index] == cell.rhs@[index as int]);
    if let Some(net) = cell.carry_in {
        assert(reads[2 * width] == net);
    }
    assert(a(cell.lhs@[index as int]) == b(cell.lhs@[index as int]));
    assert(a(cell.rhs@[index as int]) == b(cell.rhs@[index as int]));
    if index > 0 {
        lemma_same_total(a, b, nodes, cell, (index - 1) as nat);
    }
}

proof fn lemma_same_word(
    a: spec_fn(NetId) -> bool,
    b: spec_fn(NetId) -> bool,
    word: Seq<NetId>,
    count: nat,
)
    requires
        forall|k: int| 0 <= k < count ==> a(#[trigger] word[k]) == b(word[k]),
        count <= word.len(),
        count <= u64::MAX,
    ensures
        word_value(a, word, count) == word_value(b, word, count),
    decreases count,
{
    if count > 0 {
        lemma_same_word(a, b, word, (count - 1) as nat);
        lemma_word_step(a, word, count);
        lemma_word_step(b, word, count);
        assert(a(word[count - 1]) == b(word[count - 1]));
    }
}

proof fn lemma_same_comparison(
    a: spec_fn(NetId) -> bool,
    b: spec_fn(NetId) -> bool,
    nodes: Seq<Node>,
    cell: ComparisonCell,
)
    requires
        comparison_is_valid(nodes, cell),
        cell.lhs@.len() <= u64::MAX,
        same_below(a, b, cell.output as int),
    ensures
        comparison_agrees(a, cell) == (a(cell.output) == (b(cell.output) == comparison_agrees(
            b,
            cell,
        ))),
{
    let reads = comparison_reads(cell);
    assert forall|k: int| 0 <= k < cell.lhs@.len() implies a(#[trigger] cell.lhs@[k]) == b(
        cell.lhs@[k],
    ) by {
        assert(reads[k] == cell.lhs@[k]);
    }
    assert forall|k: int| 0 <= k < cell.rhs@.len() implies a(#[trigger] cell.rhs@[k]) == b(
        cell.rhs@[k],
    ) by {
        assert(reads[cell.lhs@.len() + k] == cell.rhs@[k]);
    }
    lemma_same_word(a, b, cell.lhs@, cell.lhs@.len());
    lemma_same_word(a, b, cell.rhs@, cell.rhs@.len());
}

/// Any values of the wires give values of the nets that go with them.
pub proof fn law_values_settle(netlist: Netlist, values: spec_fn(u32) -> bool)
    requires
        netlist.is_valid(),
        is_countable(netlist),
        has_one_source(netlist),
    ensures
        nets_agree(netlist, values, settled(netlist, values, netlist.nodes@.len())),
{
    let nodes = netlist.nodes@;
    let total = nodes.len();
    let nets = settled(netlist, values, total);
    assert forall|i: int|
        0 <= i < total && (is_gate(nodes[i].kind) || nodes[i].kind is Constant) implies
        #[trigger] node_value(nodes, nets, i) == nets(i as NetId) by {
        lemma_settled(netlist, values, i as nat, total);
        assert(node_is_valid(nodes, i));
        let rest = settled(netlist, values, i as nat);
        let inputs = nodes[i].inputs@;
        assert forall|k: int| 0 <= k < inputs.len() implies rest(#[trigger] inputs[k]) == nets(
            inputs[k],
        ) by {
            assert(inputs[k] < i);
        }
        assert(node_value(nodes, rest, i) == node_value(nodes, nets, i));
    }
    assert forall|net: NetId|
        net < total && source_bit(nodes[net as int].kind, net) == Some(
            Bit::Wire(net_wire(net)),
        ) && !is_folded(netlist, net as int) implies #[trigger] nets(net) == values(
        net_wire(net),
    ) by {
        lemma_settled(netlist, values, net as nat, total);
    }
    assert forall|i: int| 0 <= i < netlist.registers@.len() implies (constant_output(
        nodes,
        netlist.registers@,
        (#[trigger] netlist.registers@[i]).output,
    ) matches Some(value) ==> nets(netlist.registers@[i].output) == value) by {
        assert(register_is_valid(nodes, netlist.registers@[i]));
        lemma_settled(netlist, values, netlist.registers@[i].output as nat, total);
    }
    assert forall|i: int| 0 <= i < netlist.arithmetic@.len() implies sums_agree(
        nets,
        #[trigger] netlist.arithmetic@[i],
    ) by {
        let cell = netlist.arithmetic@[i];
        assert(arithmetic_is_valid(nodes, cell));
        assert forall|k: int| 0 <= k < cell.outputs@.len() implies nets(
            #[trigger] cell.outputs@[k],
        ) == (digit_total(nets, cell, k as nat) % 2 == 1) by {
            let n = cell.outputs@[k] as int;
            assert(netlist.arithmetic@[i].outputs@[k] == n);
            assert(n < total && nodes[n].kind is ArithmeticOutput);
            let (j, m) = result_place(netlist, n);
            assert(netlist.arithmetic@[j].outputs@[m] == n);
            assert(netlist.arithmetic@[i].outputs@.contains(cell.outputs@[k]));
            assert(netlist.arithmetic@[j].outputs@.contains(cell.outputs@[k]));
            assert(i == j) by {
                if i < j || j < i {
                    assert(false);
                }
            }
            assert(cell.outputs@.no_duplicates());
            assert(k == m);
            lemma_settled(netlist, values, n as nat, total);
            let rest = settled(netlist, values, n as nat);
            lemma_same_total(rest, nets, nodes, cell, k as nat);
        }
    }
    assert forall|i: int| 0 <= i < netlist.comparisons@.len() implies comparison_agrees(
        nets,
        #[trigger] netlist.comparisons@[i],
    ) by {
        let cell = netlist.comparisons@[i];
        assert(comparison_is_valid(nodes, cell));
        let n = cell.output as int;
        let j = comparison_place(netlist, n);
        assert(netlist.comparisons@[j].output == n);
        assert(i == j) by {
            if i < j || j < i {
                assert(netlist.comparisons@[i].output != netlist.comparisons@[j].output);
            }
        }
        lemma_settled(netlist, values, n as nat, total);
        let rest = settled(netlist, values, n as nat);
        let taken = |m: NetId| m == cell.output || rest(m);
        assert(same_below(nets, taken, n));
        lemma_same_comparison(nets, taken, nodes, cell);
    }
}

/// Whether an enable lets a register load.
pub open spec fn is_enabled(
    nets: spec_fn(NetId) -> bool,
    enable: Option<EnableControl>,
) -> bool {
    match enable {
        Some(enable) => nets(enable.signal) == (enable.active is High),
        None => true,
    }
}

/// Whether a register is in reset.
pub open spec fn is_reset(nets: spec_fn(NetId) -> bool, reset: Option<ResetControl>) -> bool {
    match reset {
        Some(reset) => nets(reset.signal) == (reset.active is High),
        None => false,
    }
}

/// What a register of the source loads at an edge of its clock: the reset value in
/// reset, its data where it is enabled, else what it holds.
pub open spec fn loaded(nets: spec_fn(NetId) -> bool, register: RegisterCell) -> bool {
    if is_reset(nets, register.reset) {
        register.reset->0.value
    } else if is_enabled(nets, register.enable) {
        nets(register.data)
    } else {
        nets(register.output)
    }
}

/// Whether a clock has its active edge where it goes from `before` to `after`.
pub open spec fn has_edge(before: bool, after: bool, edge: ClockEdge) -> bool {
    match edge {
        ClockEdge::Rising => !before && after,
        ClockEdge::Falling => before && !after,
    }
}

/// What a register of the source holds after the nets went from `now` to `next`: an
/// asynchronous reset acts at once, and all else waits for the clock.
pub open spec fn held(
    now: spec_fn(NetId) -> bool,
    next: spec_fn(NetId) -> bool,
    register: RegisterCell,
) -> bool {
    if is_reset(next, register.reset) && register.reset->0.asynchronous {
        register.reset->0.value
    } else if has_edge(now(register.clock), next(register.clock), register.edge) {
        loaded(now, register)
    } else {
        now(register.output)
    }
}

/// What a register of the source holds at first: its reset value; without a reset zero,
/// or the constant that it only ever loads.
pub open spec fn first_held(nodes: Seq<Node>, register: RegisterCell) -> bool {
    match register.reset {
        Some(reset) => reset.value,
        None => nodes[register.data as int].kind == NodeKind::Constant(true),
    }
}

/// Whether gates, sums and comparisons of the source have the values that they compute.
pub open spec fn source_agrees(netlist: Netlist, nets: spec_fn(NetId) -> bool) -> bool {
    &&& nodes_agree(netlist.nodes@, nets)
    &&& forall|i: int|
        0 <= i < netlist.arithmetic@.len() ==> sums_agree(nets, #[trigger] netlist.arithmetic@[i])
    &&& forall|i: int|
        0 <= i < netlist.comparisons@.len() ==> comparison_agrees(
            nets,
            #[trigger] netlist.comparisons@[i],
        )
}

/// Whether `nets` is a run of the source in which all registers step together.
pub open spec fn is_source_run(
    netlist: Netlist,
    nets: spec_fn(nat) -> spec_fn(NetId) -> bool,
) -> bool {
    &&& forall|t: nat| source_agrees(netlist, #[trigger] nets(t))
    &&& forall|r: int|
        0 <= r < netlist.registers@.len() ==> nets(0)(
            (#[trigger] netlist.registers@[r]).output,
        ) == first_held(netlist.nodes@, netlist.registers@[r])
    &&& forall|t: nat, r: int|
        #![trigger nets(t), netlist.registers@[r]]
        0 <= r < netlist.registers@.len() ==> nets(t + 1)(netlist.registers@[r].output) == loaded(
            nets(t),
            netlist.registers@[r],
        )
}

/// Whether `nets` is a run of the source in which each register waits for its own clock.
pub open spec fn is_clocked_source_run(
    netlist: Netlist,
    nets: spec_fn(nat) -> spec_fn(NetId) -> bool,
) -> bool {
    &&& forall|t: nat| source_agrees(netlist, #[trigger] nets(t))
    &&& forall|r: int|
        0 <= r < netlist.registers@.len() ==> nets(0)(
            (#[trigger] netlist.registers@[r]).output,
        ) == first_held(netlist.nodes@, netlist.registers@[r])
    &&& forall|t: nat, r: int|
        #![trigger nets(t), netlist.registers@[r]]
        0 <= r < netlist.registers@.len() ==> nets(t + 1)(netlist.registers@[r].output) == held(
            nets(t),
            nets(t + 1),
            netlist.registers@[r],
        )
}

/// What a flip-flop holds after the wires went from `before` to `after`: an
/// asynchronous reset acts at once, and all else waits for the clock.
pub open spec fn flip_flop_after(
    before: spec_fn(u32) -> bool,
    after: spec_fn(u32) -> bool,
    cell: CellModel,
) -> bool {
    let held = before(cell->FlipFlop_output);
    let reset = cell->FlipFlop_reset;
    if reset matches Some(reset) && reset.asynchronous && bit_value(after, reset.signal) == (
    reset.active is High) {
        reset->0.value
    } else if has_edge(
        bit_value(before, cell->FlipFlop_clock),
        bit_value(after, cell->FlipFlop_clock),
        cell->FlipFlop_edge,
    ) {
        if reset matches Some(reset) && bit_value(before, reset.signal) == (
        reset.active is High) {
            reset->0.value
        } else if cell->FlipFlop_enable matches Some(enable) && bit_value(before, enable.signal)
            != (enable.active is High) {
            held
        } else {
            bit_value(before, cell->FlipFlop_data)
        }
    } else {
        held
    }
}

/// Whether `run` starts as configured, agrees with the cells in every cycle, and each
/// flip-flop waits for its own clock.
pub open spec fn is_clocked_run(
    run: spec_fn(nat) -> spec_fn(u32) -> bool,
    cells: Seq<CellModel>,
) -> bool {
    &&& forall|i: int| 0 <= i < cells.len() ==> cell_starts(run(0), #[trigger] cells[i])
    &&& forall|t: nat| cells_agree(#[trigger] run(t), cells)
    &&& forall|t: nat, i: int|
        #![trigger run(t), cells[i]]
        0 <= i < cells.len() && cells[i] is FlipFlop ==> run(t + 1)(cells[i]->FlipFlop_output)
            == flip_flop_after(run(t), run(t + 1), cells[i])
}

/// Whether the ports of a mapping carry the values of the source: inputs those of their
/// nets, outputs those of the nets behind them.
pub open spec fn ports_show(
    netlist: Netlist,
    ports: Seq<PortModel>,
    values: spec_fn(u32) -> bool,
    nets: spec_fn(NetId) -> bool,
) -> bool {
    &&& ports.len() == netlist.ports@.len()
    &&& forall|p: int|
        0 <= p < ports.len() ==> (#[trigger] ports[p]).name == netlist.ports@[p].name@
            && ports[p].bits.len() == netlist.ports@[p].bits@.len()
    &&& forall|p: int, b: int|
        0 <= p < ports.len() && 0 <= b < ports[p].bits.len() ==> bit_value(
            values,
            #[trigger] ports[p].bits[b],
        ) == nets(
            match netlist.ports@[p].direction {
                PortDirection::Input => netlist.ports@[p].bits@[b],
                PortDirection::Output => netlist.nodes@[netlist.ports@[p].bits@[b] as int].inputs@[0],
            },
        )
    &&& forall|p: int|
        0 <= p < ports.len() ==> (((#[trigger] ports[p]).direction is Input) <==> (
        netlist.ports@[p].direction is Input)) && !(ports[p].direction is Inout)
}

/// The nets of a source in which every register stands for a flip-flop, or never
/// changes, make the step of that register.
proof fn lemma_constant_register(netlist: Netlist, nets: spec_fn(NetId) -> bool, r: int)
    requires
        netlist.is_valid(),
        has_one_source(netlist),
        nodes_agree(netlist.nodes@, nets),
        0 <= r < netlist.registers@.len(),
        constant_output(
            netlist.nodes@,
            netlist.registers@,
            netlist.registers@[r].output,
        ) is Some,
    ensures
        ({
            let register = netlist.registers@[r];
            let value = constant_output(netlist.nodes@, netlist.registers@, register.output)->0;
            &&& nets(register.data) == value
            &&& register.reset matches Some(reset) ==> reset.value == value
            &&& first_held(netlist.nodes@, register) == value
        }),
{
    let register = netlist.registers@[r];
    let registers = netlist.registers@;
    let j = lemma_constant_from(netlist.nodes@, registers, register.output);
    assert(j == r) by {
        if j < r || r < j {
            assert(registers[j].output != registers[r].output);
        }
    }
    assert(register_is_valid(netlist.nodes@, register));
    assert(register_reads(register)[0] == register.data);
    assert(readable(netlist.nodes@, register.data));
    assert(node_value(netlist.nodes@, nets, register.data as int) == nets(register.data));
}

proof fn lemma_constant_from(nodes: Seq<Node>, registers: Seq<RegisterCell>, net: NetId) -> (j: int)
    requires
        constant_output(nodes, registers, net) is Some,
    ensures
        0 <= j < registers.len(),
        registers[j].output == net,
        register_constant(nodes, registers[j]) == constant_output(nodes, registers, net),
    decreases registers.len(),
{
    if registers.last().output == net && register_constant(nodes, registers.last()) is Some {
        registers.len() - 1
    } else {
        let j = lemma_constant_from(nodes, registers.drop_last(), net);
        assert(registers.drop_last()[j] == registers[j]);
        j
    }
}

/// A mapping that was made from a netlist with one source for each net, and the values
/// of the source in each cycle of a run.
pub open spec fn source_nets(
    netlist: Netlist,
    run: spec_fn(nat) -> spec_fn(u32) -> bool,
) -> spec_fn(nat) -> spec_fn(NetId) -> bool {
    |t: nat| settled(netlist, run(t), netlist.nodes@.len())
}

/// The ports of a mapping have the names and directions of the source, and inputs are on
/// wires of their own.
proof fn lemma_input_ports(
    netlist: Netlist,
    options: MappingOptions,
    period_ps: u32,
    delays: DelaysModel,
    max_inputs: nat,
    values: spec_fn(u32) -> bool,
    nets: spec_fn(NetId) -> bool,
)
    requires
        is_countable(netlist),
        has_one_source(netlist),
        LUT_INPUTS <= max_inputs <= WIDE_LUT_INPUTS,
        nets_agree(netlist, values, nets),
    ensures
        mapped_once(netlist, options, period_ps, delays, max_inputs) matches Ok(mapped)
            ==> cells_agree(values, mapped.cells) ==> ports_show(
            netlist,
            mapped.ports,
            values,
            nets,
        ),
{
    if let Ok(mapped) = mapped_once(netlist, options, period_ps, delays, max_inputs) {
        if cells_agree(values, mapped.cells) {
            law_mapping_keeps_functions(
                values,
                nets,
                netlist,
                options,
                period_ps,
                delays,
                max_inputs,
            );
            let nodes = netlist.nodes@;
            lemma_fault(netlist);
            law_cover_is_sound(netlist, options, period_ps, delays, max_inputs);
            let plans = netlist_cover(netlist, options, period_ps, delays, max_inputs).plans;
            let aliased = logic_aliased(netlist, options, plans);
            let ready = renewed(aliased);
            let logic = logic_emitted(netlist, options, plans);
            let memories = netlist.memories@;
            let emitted = memories_mapped(nodes, logic, memories, memories.len());
            assert(logic == flip_flops_added(netlist, ready, netlist.registers@));
            law_memories_only_add_cells(nodes, logic, memories, memories.len());
            lemma_added_only(netlist, ready, netlist.registers@);
            let done = lemma_logic_emitted(netlist, options, plans);
            assert(emitted.bits == aliased.bits);
            let ports = mapped.ports;
            assert forall|p: int, b: int|
                0 <= p < ports.len() && 0 <= b < ports[p].bits.len() implies bit_value(
                values,
                #[trigger] ports[p].bits[b],
            ) == nets(
                match netlist.ports@[p].direction {
                    PortDirection::Input => netlist.ports@[p].bits@[b],
                    PortDirection::Output => nodes[netlist.ports@[p].bits@[b] as int].inputs@[0],
                },
            ) by {
                let port = netlist.ports@[p];
                assert(port_is_valid(nodes, port));
                let n = port.bits@[b];
                assert(n < nodes.len());
                if port.direction is Input {
                    assert(nodes[n as int].kind is Input);
                    assert(sources_of(netlist)(n as int));
                    assert(aliased.bits[n as int] == Some(Bit::Wire((n + 2) as u32)));
                    assert(nets(n) == values(net_wire(n)));
                } else {
                    assert(netlist.ports@[p].bits@[b] == n);
                }
            }
        }
    }
}

proof fn lemma_added_only(netlist: Netlist, state: EmitterModel, registers: Seq<RegisterCell>)
    ensures
        flip_flops_added(netlist, state, registers).exhausted == state.exhausted,
        flip_flops_added(netlist, state, registers).bits == state.bits,
    decreases registers.len(),
{
    if registers.len() > 0 {
        lemma_added_only(netlist, state, registers.drop_last());
    }
}

/// One step of a register of the source and of the flip-flop that stands for it.
proof fn lemma_register_step(
    now: spec_fn(NetId) -> bool,
    next: spec_fn(NetId) -> bool,
    before: spec_fn(u32) -> bool,
    after: spec_fn(u32) -> bool,
    cell: CellModel,
    register: RegisterCell,
)
    requires
        is_flip_flop(before, now, cell, register),
        is_flip_flop(after, next, cell, register),
        before((register.output + 2) as u32) == now(register.output),
    ensures
        flip_flop_after(before, after, cell) == held(now, next, register),
        cell_steps(before, after, cell) ==> after((register.output + 2) as u32) == loaded(
            now,
            register,
        ),
{
    reveal(state_after);
}

/// What a register does, seen from a flip-flop that stands for it in both valuations.
proof fn lemma_register_kept(
    netlist: Netlist,
    options: MappingOptions,
    period_ps: u32,
    delays: DelaysModel,
    max_inputs: nat,
    before: spec_fn(u32) -> bool,
    after: spec_fn(u32) -> bool,
    r: int,
)
    requires
        is_countable(netlist),
        has_one_source(netlist),
        LUT_INPUTS <= max_inputs <= WIDE_LUT_INPUTS,
        0 <= r < netlist.registers@.len(),
        mapped_once(netlist, options, period_ps, delays, max_inputs) matches Ok(mapped)
            && cells_agree(before, mapped.cells) && cells_agree(after, mapped.cells),
    ensures
        ({
            let mapped = mapped_once(netlist, options, period_ps, delays, max_inputs)->Ok_0;
            let register = netlist.registers@[r];
            let now = settled(netlist, before, netlist.nodes@.len());
            let next = settled(netlist, after, netlist.nodes@.len());
            match constant_output(netlist.nodes@, netlist.registers@, register.output) {
                Some(value) => now(register.output) == value && next(register.output) == value
                    && loaded(now, register) == value && held(now, next, register) == value
                    && first_held(netlist.nodes@, register) == value,
                None => {
                    &&& now(register.output) == before((register.output + 2) as u32)
                    &&& next(register.output) == after((register.output + 2) as u32)
                    &&& exists|i: int|
                        0 <= i < mapped.cells.len() && (#[trigger] mapped.cells[i]) is FlipFlop
                            && mapped.cells[i]->FlipFlop_output == register.output + 2 && (
                        cell_starts(before, mapped.cells[i]) ==> now(register.output)
                            == first_held(netlist.nodes@, register)) && (cell_steps(
                            before,
                            after,
                            mapped.cells[i],
                        ) ==> next(register.output) == loaded(now, register)) && flip_flop_after(
                            before,
                            after,
                            mapped.cells[i],
                        ) == held(now, next, register)
                },
            }
        }),
{
    let mapped = mapped_once(netlist, options, period_ps, delays, max_inputs)->Ok_0;
    let nodes = netlist.nodes@;
    let registers = netlist.registers@;
    let register = registers[r];
    let total = nodes.len();
    let now = settled(netlist, before, total);
    let next = settled(netlist, after, total);
    lemma_fault(netlist);
    law_values_settle(netlist, before);
    law_values_settle(netlist, after);
    assert(register_is_valid(nodes, register));
    if constant_output(nodes, registers, register.output) is Some {
        lemma_constant_register(netlist, now, r);
        lemma_constant_register(netlist, next, r);
    } else {
        law_mapping_keeps_functions(
            before,
            now,
            netlist,
            options,
            period_ps,
            delays,
            max_inputs,
        );
        law_mapping_keeps_functions(
            after,
            next,
            netlist,
            options,
            period_ps,
            delays,
            max_inputs,
        );
        assert(now(register.output) == before(net_wire(register.output)));
        assert(next(register.output) == after(net_wire(register.output)));
        assert(has_flip_flop(before, now, mapped.cells, registers[r]));
        assert(has_flip_flop(after, next, mapped.cells, registers[r]));
        let i = choose|i: int|
            0 <= i < mapped.cells.len() && is_flip_flop(
                before,
                now,
                #[trigger] mapped.cells[i],
                register,
            );
        let j = choose|j: int|
            0 <= j < mapped.cells.len() && is_flip_flop(
                after,
                next,
                #[trigger] mapped.cells[j],
                register,
            );
        law_mapping_is_well_driven(netlist, options, period_ps, delays, max_inputs);
        let wire = (register.output + 2) as u32;
        assert(cell_outputs(mapped.cells[i])[0] == Bit::Wire(wire));
        assert(cell_outputs(mapped.cells[j])[0] == Bit::Wire(wire));
        assert(drives(mapped.cells[i], wire));
        assert(drives(mapped.cells[j], wire));
        assert(i == j);
        lemma_register_step(now, next, before, after, mapped.cells[i], register);
        assert(register_constant(nodes, register) is None) by {
            lemma_no_constant(nodes, registers, r);
        }
    }
}

proof fn lemma_no_constant(nodes: Seq<Node>, registers: Seq<RegisterCell>, r: int)
    requires
        0 <= r < registers.len(),
        constant_output(nodes, registers, registers[r].output) is None,
    ensures
        register_constant(nodes, registers[r]) is None,
    decreases registers.len(),
{
    if r < registers.len() - 1 {
        assert(registers.drop_last()[r] == registers[r]);
        lemma_no_constant(nodes, registers.drop_last(), r);
    }
}

/// A mapping does over time what its source does. Where every flip-flop waits for its
/// own clock, each run of the mapping is a run of the source in which every register
/// waits for the clock, edge, enable and reset that the source gives it, and inputs and
/// outputs are the same in every cycle.
pub proof fn law_mapping_behaves_as_source(
    netlist: Netlist,
    options: MappingOptions,
    period_ps: u32,
    delays: DelaysModel,
    max_inputs: nat,
    mapped: NetlistModel,
    run: spec_fn(nat) -> spec_fn(u32) -> bool,
)
    requires
        is_countable(netlist),
        has_one_source(netlist),
        LUT_INPUTS <= max_inputs <= WIDE_LUT_INPUTS,
        mapped_once(netlist, options, period_ps, delays, max_inputs) == Ok::<
            NetlistModel,
            MappingFault,
        >(mapped),
        is_clocked_run(run, mapped.cells),
    ensures
        exists|nets: spec_fn(nat) -> spec_fn(NetId) -> bool| #[trigger]
            is_clocked_source_run(netlist, nets) && forall|t: nat|
                ports_show(netlist, mapped.ports, run(t), #[trigger] nets(t)),
{
    let nets = source_nets(netlist, run);
    lemma_fault(netlist);
    assert forall|t: nat| source_agrees(netlist, #[trigger] nets(t)) && ports_show(
        netlist,
        mapped.ports,
        run(t),
        nets(t),
    ) by {
        law_values_settle(netlist, run(t));
        lemma_input_ports(
            netlist,
            options,
            period_ps,
            delays,
            max_inputs,
            run(t),
            nets(t),
        );
    }
    assert forall|r: int| 0 <= r < netlist.registers@.len() implies nets(0)(
        (#[trigger] netlist.registers@[r]).output,
    ) == first_held(netlist.nodes@, netlist.registers@[r]) by {
        lemma_register_kept(
            netlist,
            options,
            period_ps,
            delays,
            max_inputs,
            run(0),
            run(1),
            r,
        );
    }
    assert forall|t: nat, r: int|
        #![trigger nets(t), netlist.registers@[r]]
        0 <= r < netlist.registers@.len() implies nets(t + 1)(netlist.registers@[r].output)
        == held(nets(t), nets(t + 1), netlist.registers@[r]) by {
        assert(cells_agree(run(t + 1), mapped.cells));
        lemma_register_kept(
            netlist,
            options,
            period_ps,
            delays,
            max_inputs,
            run(t),
            run(t + 1),
            r,
        );
    }
    assert(is_clocked_source_run(netlist, nets));
}

/// A mapping whose flip-flops all step together does what its source does: each run of
/// the mapping is a run of the source with the same inputs and outputs.
pub proof fn law_mapping_steps_as_source(
    netlist: Netlist,
    options: MappingOptions,
    period_ps: u32,
    delays: DelaysModel,
    max_inputs: nat,
    mapped: NetlistModel,
    run: spec_fn(nat) -> spec_fn(u32) -> bool,
)
    requires
        is_countable(netlist),
        has_one_source(netlist),
        LUT_INPUTS <= max_inputs <= WIDE_LUT_INPUTS,
        mapped_once(netlist, options, period_ps, delays, max_inputs) == Ok::<
            NetlistModel,
            MappingFault,
        >(mapped),
        is_run(run, mapped.cells),
    ensures
        exists|nets: spec_fn(nat) -> spec_fn(NetId) -> bool| #[trigger]
            is_source_run(netlist, nets) && forall|t: nat|
                ports_show(netlist, mapped.ports, run(t), #[trigger] nets(t)),
{
    let nets = source_nets(netlist, run);
    lemma_fault(netlist);
    assert forall|t: nat| source_agrees(netlist, #[trigger] nets(t)) && ports_show(
        netlist,
        mapped.ports,
        run(t),
        nets(t),
    ) by {
        law_values_settle(netlist, run(t));
        lemma_input_ports(
            netlist,
            options,
            period_ps,
            delays,
            max_inputs,
            run(t),
            nets(t),
        );
    }
    assert forall|r: int| 0 <= r < netlist.registers@.len() implies nets(0)(
        (#[trigger] netlist.registers@[r]).output,
    ) == first_held(netlist.nodes@, netlist.registers@[r]) by {
        lemma_register_kept(
            netlist,
            options,
            period_ps,
            delays,
            max_inputs,
            run(0),
            run(1),
            r,
        );
    }
    assert forall|t: nat, r: int|
        #![trigger nets(t), netlist.registers@[r]]
        0 <= r < netlist.registers@.len() implies nets(t + 1)(netlist.registers@[r].output)
        == loaded(nets(t), netlist.registers@[r]) by {
        assert(cells_agree(run(t + 1), mapped.cells));
        assert(cells_step(run(t), run(t + 1), mapped.cells));
        lemma_register_kept(
            netlist,
            options,
            period_ps,
            delays,
            max_inputs,
            run(t),
            run(t + 1),
            r,
        );
    }
    assert(is_source_run(netlist, nets));
}

/// A mapping, retimed or not, does what its source does: each run of the mapping is a
/// run of the source with the same inputs and outputs in every cycle.
#[verifier::rlimit(40)]
pub proof fn law_retimed_mapping_steps_as_source(
    netlist: Netlist,
    options: MappingOptions,
    delays: DelaysModel,
    period_ps: u32,
    max_inputs: nat,
    cover: NetlistModel,
    mapped: NetlistModel,
    path: Seq<NetlistModel>,
    certificates: spec_fn(RequestModel) -> Option<Seq<EdgeModel>>,
    run: spec_fn(nat) -> spec_fn(u32) -> bool,
)
    requires
        is_countable(netlist),
        has_one_source(netlist),
        LUT_INPUTS <= max_inputs <= WIDE_LUT_INPUTS,
        mapped_once(netlist, options, period_ps, delays, max_inputs) == Ok::<
            NetlistModel,
            MappingFault,
        >(cover),
        comes_from(cover, mapped, path, certificates),
        certificates_hold(certificates),
        finds_its_cells(path, certificates),
        is_run(run, mapped.cells),
    ensures
        exists|nets: spec_fn(nat) -> spec_fn(NetId) -> bool| #[trigger]
            is_source_run(netlist, nets) && forall|t: nat|
                ports_show(netlist, mapped.ports, run(t), #[trigger] nets(t)),
{
    law_retimed_mapping_keeps_functions(
        netlist,
        options,
        delays,
        period_ps,
        max_inputs,
        cover,
        mapped,
        path,
        certificates,
        run,
    );
    let left = lemma_run_before(cover, mapped, run);
    law_mapping_steps_as_source(
        netlist,
        options,
        period_ps,
        delays,
        max_inputs,
        cover,
        left,
    );
    let nets = choose|nets: spec_fn(nat) -> spec_fn(NetId) -> bool| #[trigger]
        is_source_run(netlist, nets) && forall|t: nat|
            ports_show(netlist, cover.ports, left(t), #[trigger] nets(t));
    assert forall|t: nat| ports_show(netlist, mapped.ports, run(t), #[trigger] nets(t)) by {
        assert(ports_show(netlist, cover.ports, left(t), nets(t)));
        lemma_ports_alike(netlist, left(t), cover.ports, run(t), mapped.ports, nets(t));
    }
}

proof fn lemma_ports_alike(
    netlist: Netlist,
    left: spec_fn(u32) -> bool,
    before: Seq<PortModel>,
    right: spec_fn(u32) -> bool,
    after: Seq<PortModel>,
    nets: spec_fn(NetId) -> bool,
)
    requires
        ports_show(netlist, before, left, nets),
        same_ports(left, before, right, after),
    ensures
        ports_show(netlist, after, right, nets),
{
    assert forall|p: int| 0 <= p < after.len() implies (#[trigger] after[p]).name
        == netlist.ports@[p].name@ && after[p].bits.len() == netlist.ports@[p].bits@.len() && ((
    after[p].direction is Input) <==> (netlist.ports@[p].direction is Input)) && !(
    after[p].direction is Inout) by {
        assert(before[p].name == after[p].name);
        assert(same_bits(left, before[p].bits, right, after[p].bits));
    }
    assert forall|p: int, b: int|
        0 <= p < after.len() && 0 <= b < after[p].bits.len() implies bit_value(
        right,
        #[trigger] after[p].bits[b],
    ) == nets(
        match netlist.ports@[p].direction {
            PortDirection::Input => netlist.ports@[p].bits@[b],
            PortDirection::Output => netlist.nodes@[netlist.ports@[p].bits@[b] as int].inputs@[0],
        },
    ) by {
        assert(before[p].name == after[p].name);
        assert(same_bits(left, before[p].bits, right, after[p].bits));
        assert(bit_value(left, before[p].bits[b]) == bit_value(right, after[p].bits[b]));
    }
}

} // verus!
