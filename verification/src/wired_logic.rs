//! The logic of a netlist laid out on wires.

use vstd::prelude::*;

use crate::arithmetic::all_retained_mapped;
use crate::arithmetic::lemma_retained_order;
use crate::arithmetic::output_index;
use crate::arithmetic::retained_cell;
use crate::arithmetic::retained_count;
use crate::arithmetic::retained_mapped;
use crate::arithmetic::retained_order;
use crate::arithmetic::with_retained;
use crate::arithmetic::MapInputs;
use crate::arithmetic::RetainedCell;
use crate::cells::Bit;
use crate::constraints::ArithmeticMapping;
use crate::constraints::MappingOptions;
use crate::cover::plans_are_sound;
use crate::demand::all_arithmetic_reads;
use crate::demand::all_comparison_reads;
use crate::demand::constant_output;
use crate::demand::demanded;
use crate::demand::live_register_reads;
use crate::demand::memories_reads;
use crate::demand::output_sources;
use crate::emit::bit_of;
use crate::emit::emitter_start;
use crate::emit::source_bit;
use crate::emit::EmitterModel;
use crate::equivalence::is_countable;
use crate::equivalence::lemma_arithmetic_readable;
use crate::equivalence::lemma_comparisons_readable;
use crate::equivalence::lemma_memories_readable;
use crate::equivalence::lemma_reads_readable;
use crate::equivalence::lemma_sources_readable;
use crate::ir::all_of_kind;
use crate::ir::arithmetic_is_valid;
use crate::ir::comparison_is_valid;
use crate::ir::memory_port_drives;
use crate::ir::node_is_connected;
use crate::ir::node_is_valid;
use crate::ir::port_is_valid;
use crate::ir::readable;
use crate::ir::register_is_valid;
use crate::ir::MemoryCell;
use crate::ir::NetId;
use crate::ir::Netlist;
use crate::ir::Node;
use crate::ir::NodeKind;
use crate::ir::Port;
use crate::laid::bit_known;
use crate::laid::is_emitted;
use crate::laid::lemma_bit_known;
use crate::laid::lemma_net_exhausted;
use crate::laid_cells::expects_results;
use crate::laid_cells::goes_on;
use crate::laid_cells::lemma_adder_emitted;
use crate::laid_cells::lemma_adder_exhausted;
use crate::laid_cells::lemma_alias_emitted;
use crate::laid_cells::lemma_comparison_emitted;
use crate::laid_cells::lemma_comparison_exhausted;
use crate::laid_cells::lemma_goes_on_joined;
use crate::laid_cells::lemma_operand;
use crate::laid_cells::lemma_ripple_emitted;
use crate::laid_cells::with_result;
use crate::laid_cells::with_results;
use crate::mapping::bits_aliased;
use crate::mapping::constants_folded;
use crate::mapping::outputs_aliased;
use crate::mapping::roots_mapped;
use crate::plans::PlanModel;
use crate::retained::uses_carry;

verus! {

/// Whether every net of a netlist has one source: no two cells or bits of a cell drive
/// one net, inputs come from ports, and memories have words.
pub open spec fn has_one_source(netlist: Netlist) -> bool {
    &&& forall|i: int, j: int|
        0 <= i < j < netlist.registers@.len() ==> (#[trigger] netlist.registers@[i]).output != (
        #[trigger] netlist.registers@[j]).output
    &&& forall|i: int|
        0 <= i < netlist.arithmetic@.len() ==> (
        #[trigger] netlist.arithmetic@[i]).outputs@.no_duplicates()
    &&& forall|i: int, j: int, net: NetId|
        0 <= i < j < netlist.arithmetic@.len()
            && #[trigger] netlist.arithmetic@[i].outputs@.contains(net)
            ==> !#[trigger] netlist.arithmetic@[j].outputs@.contains(net)
    &&& forall|i: int, j: int|
        0 <= i < j < netlist.comparisons@.len() ==> (#[trigger] netlist.comparisons@[i]).output
            != (#[trigger] netlist.comparisons@[j]).output
    &&& forall|i: int|
        0 <= i < netlist.memories@.len() ==> reads_apart(#[trigger] netlist.memories@[i])
            && netlist.memories@[i].depth > 0
    &&& forall|i: int, j: int, net: NetId|
        0 <= i < j < netlist.memories@.len() && #[trigger] memory_port_drives(
            netlist.memories@[i],
            net,
        ) ==> !#[trigger] memory_port_drives(netlist.memories@[j], net)
    &&& forall|n: int|
        0 <= n < netlist.nodes@.len() && (#[trigger] netlist.nodes@[n]).kind is Input
            ==> exists|p: int, k: int|
            0 <= p < netlist.ports@.len() && 0 <= k < netlist.ports@[p].bits@.len()
                && netlist.ports@[p].direction is Input && #[trigger] netlist.ports@[p].bits@[k]
                == n
}

/// Whether the read data of a memory lie on nets of their own.
pub open spec fn reads_apart(memory: MemoryCell) -> bool {
    &&& memory.port.read_data@.no_duplicates()
    &&& memory.second_port matches Some(port) ==> port.read_data@.no_duplicates() && forall|
        net: NetId,
    | #[trigger]
        port.read_data@.contains(net) ==> !memory.port.read_data@.contains(net)
}

/// The nets whose sources drive them: inputs, results, and registers and memories that
/// can change.
pub open spec fn sources_of(netlist: Netlist) -> spec_fn(int) -> bool {
    |n: int|
        0 <= n < netlist.nodes@.len() && match netlist.nodes@[n].kind {
            NodeKind::Input
            | NodeKind::MemoryOutput
            | NodeKind::ArithmeticOutput
            | NodeKind::ComparisonOutput => true,
            NodeKind::RegisterOutput => constant_output(
                netlist.nodes@,
                netlist.registers@,
                n as NetId,
            ) is None,
            _ => false,
        }
}

proof fn lemma_folded_sources(netlist: Netlist, count: nat)
    requires
        netlist.is_valid(),
        count <= netlist.registers@.len(),
    ensures
        ({
            let start = emitter_start(netlist.nodes@);
            let state = constants_folded(netlist, start, netlist.registers@.take(count as int));
            &&& state.bits.len() == start.bits.len()
            &&& state.cells == start.cells
            &&& state.next_wire == start.next_wire
            &&& !state.exhausted
            &&& forall|n: int|
                0 <= n < netlist.nodes@.len() ==> (#[trigger] state.bits[n]) == start.bits[n] || (
                netlist.nodes@[n].kind is RegisterOutput && constant_output(
                    netlist.nodes@,
                    netlist.registers@,
                    n as NetId,
                ) is Some && state.bits[n] is Some && !(state.bits[n]->0 is Wire))
            &&& forall|r: int|
                0 <= r < count && constant_output(
                    netlist.nodes@,
                    netlist.registers@,
                    (#[trigger] netlist.registers@[r]).output,
                ) is Some ==> state.bits[netlist.registers@[r].output as int] is Some && !(
                state.bits[netlist.registers@[r].output as int]->0 is Wire)
        }),
    decreases count,
{
    if count > 0 {
        let last = (count - 1) as nat;
        lemma_folded_sources(netlist, last);
        let start = emitter_start(netlist.nodes@);
        let registers = netlist.registers@.take(count as int);
        assert(registers.drop_last() =~= netlist.registers@.take(last as int));
        let before = constants_folded(netlist, start, netlist.registers@.take(last as int));
        let after = constants_folded(netlist, start, registers);
        let register = netlist.registers@[last as int];
        assert(registers.last() == register);
        assert(register_is_valid(netlist.nodes@, register));
        assert forall|n: int| 0 <= n < netlist.nodes@.len() implies (
        #[trigger] after.bits[n]) == start.bits[n] || (netlist.nodes@[n].kind is RegisterOutput
            && constant_output(netlist.nodes@, netlist.registers@, n as NetId) is Some
            && after.bits[n] is Some && !(after.bits[n]->0 is Wire)) by {
            if n != register.output {
                assert(after.bits[n] == before.bits[n]);
            }
        }
        assert forall|r: int|
            0 <= r < count && constant_output(
                netlist.nodes@,
                netlist.registers@,
                (#[trigger] netlist.registers@[r]).output,
            ) is Some implies after.bits[netlist.registers@[r].output as int] is Some && !(
        after.bits[netlist.registers@[r].output as int]->0 is Wire) by {
            let output = netlist.registers@[r].output as int;
            assert(register_is_valid(netlist.nodes@, netlist.registers@[r]));
            if output != register.output {
                assert(r < last);
                assert(after.bits[output] == before.bits[output]);
            }
        }
    }
}

proof fn lemma_start_emitted(netlist: Netlist)
    requires
        netlist.is_valid(),
    ensures
        is_emitted(
            netlist.nodes@,
            constants_folded(netlist, emitter_start(netlist.nodes@), netlist.registers@),
            |n: int| false,
            sources_of(netlist),
        ),
        ({
            let bits = constants_folded(
                netlist,
                emitter_start(netlist.nodes@),
                netlist.registers@,
            ).bits;
            forall|n: int|
                0 <= n < netlist.nodes@.len() && source_bit(
                    netlist.nodes@[n].kind,
                    n as NetId,
                ) is Some && #[trigger] sources_of(netlist)(n) ==> bits[n] == Some(
                    Bit::Wire((n + 2) as u32),
                )
        }),
{
    let nodes = netlist.nodes@;
    let registers = netlist.registers@;
    assert(registers.take(registers.len() as int) =~= registers);
    lemma_folded_sources(netlist, registers.len());
    let state = constants_folded(netlist, emitter_start(nodes), registers);
    let expected = sources_of(netlist);
    assert forall|n: int| 0 <= n < nodes.len() implies ((
    #[trigger] state.bits[n]) matches Some(bit) ==> bit_known(state.cells, expected, bit)) by {
        assert(node_is_connected(netlist, n));
        if nodes[n].kind is RegisterOutput && constant_output(nodes, registers, n as NetId) is Some {
            let r = choose|r: int|
                0 <= r < registers.len() && (#[trigger] registers[r]).output == n as NetId;
            assert(registers[r].output == n);
        } else if state.bits[n] is Some {
            assert(state.bits[n] == source_bit(nodes[n].kind, n as NetId));
            if state.bits[n]->0 is Wire {
                assert(expected(n));
            }
        }
    }
}

/// Whether a retained cell drives `net`.
spec fn cell_has(netlist: Netlist, cell: RetainedCell, net: int) -> bool {
    match cell {
        RetainedCell::Arithmetic(index) => exists|k: int|
            0 <= k < netlist.arithmetic@[index as int].outputs@.len()
                && #[trigger] netlist.arithmetic@[index as int].outputs@[k] == net,
        RetainedCell::Comparison(index) => netlist.comparisons@[index as int].output == net,
    }
}

/// The nets that the first `count` cells of `order` drive.
spec fn results_of(netlist: Netlist, order: Seq<RetainedCell>, count: nat) -> spec_fn(int) -> bool {
    |n: int| exists|i: int| 0 <= i < count && cell_has(netlist, #[trigger] order[i], n)
}

proof fn lemma_with_retained_apart(
    netlist: Netlist,
    order: Seq<RetainedCell>,
    cell: RetainedCell,
)
    requires
        order.no_duplicates(),
        !order.contains(cell),
    ensures
        with_retained(netlist, order, cell).no_duplicates(),
        forall|c: RetainedCell| #[trigger]
            with_retained(netlist, order, cell).contains(c) ==> order.contains(c) || c == cell,
    decreases order.len(),
{
    let after = with_retained(netlist, order, cell);
    if order.len() > 0 {
        let rest = order.drop_last();
        if output_index(netlist, cell) < output_index(netlist, order.last()) {
            assert forall|c: RetainedCell| #[trigger] rest.contains(c) implies order.contains(
                c,
            ) by {
                let k = choose|k: int| 0 <= k < rest.len() && rest[k] == c;
                assert(order[k] == c);
            }
            lemma_with_retained_apart(netlist, rest, cell);
            let inner = with_retained(netlist, rest, cell);
            assert(order[order.len() - 1] == order.last());
            assert(!inner.contains(order.last())) by {
                if rest.contains(order.last()) {
                    let k = choose|k: int| 0 <= k < rest.len() && rest[k] == order.last();
                    assert(order[k] == order[order.len() - 1]);
                }
            }
            assert forall|i: int, j: int|
                0 <= i < after.len() && 0 <= j < after.len() && i != j implies after[i]
                != after[j] by {
                if i < inner.len() {
                    assert(inner.contains(inner[i]));
                }
                if j < inner.len() {
                    assert(inner.contains(inner[j]));
                }
            }
            assert forall|c: RetainedCell| #[trigger] after.contains(c) implies order.contains(c)
                || c == cell by {
                let k = choose|k: int| 0 <= k < after.len() && after[k] == c;
                if k < inner.len() {
                    assert(inner.contains(c));
                }
            }
        } else {
            assert forall|c: RetainedCell| #[trigger] after.contains(c) implies order.contains(c)
                || c == cell by {
                let k = choose|k: int| 0 <= k < after.len() && after[k] == c;
                if k < order.len() {
                    assert(order[k] == c);
                }
            }
            assert forall|i: int, j: int|
                0 <= i < after.len() && 0 <= j < after.len() && i != j implies after[i]
                != after[j] by {
                if i < order.len() {
                    assert(order.contains(order[i]));
                }
                if j < order.len() {
                    assert(order.contains(order[j]));
                }
            }
        }
    }
}

proof fn lemma_order_apart(netlist: Netlist, count: nat)
    requires
        is_countable(netlist),
        count <= retained_count(netlist),
    ensures
        retained_order(netlist, count).no_duplicates(),
    decreases count,
{
    if count > 0 {
        let last = (count - 1) as nat;
        lemma_order_apart(netlist, last);
        lemma_retained_order(netlist, last);
        let order = retained_order(netlist, last);
        let cell = retained_cell(netlist, last as int);
        assert(!order.contains(cell)) by {
            if order.contains(cell) {
                let i = choose|i: int| 0 <= i < last && cell == retained_cell(netlist, i);
                assert(i < last);
            }
        }
        lemma_with_retained_apart(netlist, order, cell);
    }
}

proof fn lemma_mapped_exhausted(
    inputs: MapInputs,
    netlist: Netlist,
    mapping: ArithmeticMapping,
    state: EmitterModel,
    cell: RetainedCell,
)
    ensures
        state.exhausted ==> retained_mapped(inputs, netlist, mapping, state, cell).exhausted,
{
    match cell {
        RetainedCell::Arithmetic(index) => {
            lemma_adder_exhausted(inputs, state, netlist.arithmetic@[index as int]);
        },
        RetainedCell::Comparison(index) => {
            lemma_comparison_exhausted(inputs, state, netlist.comparisons@[index as int]);
        },
    }
}

#[verifier::rlimit(60)]
proof fn lemma_retained_emitted(
    netlist: Netlist,
    plans: Seq<Option<PlanModel>>,
    mapping: ArithmeticMapping,
    start: EmitterModel,
    count: nat,
)
    requires
        netlist.is_valid(),
        is_countable(netlist),
        has_one_source(netlist),
        plans_are_sound(netlist.nodes@, plans, netlist.nodes@.len() as int),
        is_emitted(netlist.nodes@, start, |n: int| false, sources_of(netlist)),
        count <= retained_count(netlist),
        !all_retained_mapped(
            MapInputs { nodes: netlist.nodes@, plans },
            netlist,
            mapping,
            start,
            retained_order(netlist, retained_count(netlist)),
            count,
        ).exhausted,
    ensures
        ({
            let order = retained_order(netlist, retained_count(netlist));
            let after = all_retained_mapped(
                MapInputs { nodes: netlist.nodes@, plans },
                netlist,
                mapping,
                start,
                order,
                count,
            );
            &&& is_emitted(
                netlist.nodes@,
                after,
                results_of(netlist, order, count),
                sources_of(netlist),
            )
            &&& goes_on(netlist.nodes@, start, after)
        }),
    decreases count,
{
    let nodes = netlist.nodes@;
    let total = retained_count(netlist);
    let order = retained_order(netlist, total);
    let inputs = MapInputs { nodes, plans };
    let expected = sources_of(netlist);
    let now = results_of(netlist, order, count);
    if count == 0 {
        assert(now =~= (|n: int| false));
    } else {
        let last = (count - 1) as nat;
        let rest = all_retained_mapped(inputs, netlist, mapping, start, order, last);
        let after = all_retained_mapped(inputs, netlist, mapping, start, order, count);
        let cell = order[last as int];
        lemma_mapped_exhausted(inputs, netlist, mapping, rest, cell);
        lemma_retained_emitted(netlist, plans, mapping, start, last);
        let before = results_of(netlist, order, last);
        lemma_retained_order(netlist, total);
        lemma_order_apart(netlist, total);
        assert forall|i: int| 0 <= i < total implies match #[trigger] order[i] {
            RetainedCell::Arithmetic(index) => index < netlist.arithmetic@.len(),
            RetainedCell::Comparison(index) => index < netlist.comparisons@.len(),
        } by {
            assert(order.contains(order[i]));
            let j = choose|j: int| 0 <= j < total && order[i] == retained_cell(netlist, j);
            assert(order[i] == retained_cell(netlist, j));
        }
        assert(expects_results(nodes, expected));
        assert forall|n: int| #[trigger] now(n) == (before(n) || cell_has(netlist, cell, n)) by {
            if now(n) {
                let i = choose|i: int| 0 <= i < count && cell_has(netlist, #[trigger] order[i], n);
                assert(i < last || order[i] == cell);
            }
            if before(n) {
                let i = choose|i: int| 0 <= i < last && cell_has(netlist, #[trigger] order[i], n);
                assert(cell_has(netlist, order[i], n));
            }
            if cell_has(netlist, cell, n) {
                assert(cell_has(netlist, order[last as int], n));
            }
        }
        match cell {
            RetainedCell::Arithmetic(index) => {
                let arithmetic = netlist.arithmetic@[index as int];
                let outputs = arithmetic.outputs@;
                assert(arithmetic_is_valid(nodes, arithmetic));
                assert forall|k: int| 0 <= k < outputs.len() implies !before(
                    #[trigger] outputs[k] as int,
                ) by {
                    if before(outputs[k] as int) {
                        let i = choose|i: int|
                            0 <= i < last && cell_has(
                                netlist,
                                #[trigger] order[i],
                                outputs[k] as int,
                            );
                        assert(order[i] != cell);
                        match order[i] {
                            RetainedCell::Arithmetic(other) => {
                                let m = choose|m: int|
                                    0 <= m < netlist.arithmetic@[other as int].outputs@.len()
                                        && #[trigger] netlist.arithmetic@[other as int].outputs@[m]
                                        == outputs[k] as int;
                                assert(netlist.arithmetic@[other as int].outputs@[m] == outputs[k]);
                                assert(netlist.arithmetic@[other as int].outputs@.contains(
                                    outputs[k],
                                ));
                                assert(netlist.arithmetic@[index as int].outputs@.contains(
                                    outputs[k],
                                ));
                                assert(other < index || index < other);
                            },
                            RetainedCell::Comparison(other) => {
                                assert(comparison_is_valid(
                                    nodes,
                                    netlist.comparisons@[other as int],
                                ));
                            },
                        }
                    }
                }
                if uses_carry(outputs.len(), mapping) {
                    lemma_adder_emitted(inputs, rest, arithmetic, before, expected);
                } else {
                    lemma_ripple_emitted(inputs, rest, arithmetic, before, expected);
                }
                let so = with_results(before, outputs, outputs.len() as int);
                assert forall|n: int| #[trigger] so(n) == now(n) by {
                    assert(cell_has(netlist, cell, n) == exists|k: int|
                        0 <= k < outputs.len() && #[trigger] outputs[k] == n);
                }
                assert(so =~= now);
            },
            RetainedCell::Comparison(index) => {
                let comparison = netlist.comparisons@[index as int];
                assert(comparison_is_valid(nodes, comparison));
                assert(!before(comparison.output as int)) by {
                    if before(comparison.output as int) {
                        let i = choose|i: int|
                            0 <= i < last && cell_has(
                                netlist,
                                #[trigger] order[i],
                                comparison.output as int,
                            );
                        assert(order[i] != cell);
                        match order[i] {
                            RetainedCell::Arithmetic(other) => {
                                assert(arithmetic_is_valid(
                                    nodes,
                                    netlist.arithmetic@[other as int],
                                ));
                            },
                            RetainedCell::Comparison(other) => {
                                assert(other < index || index < other);
                            },
                        }
                    }
                }
                lemma_comparison_emitted(inputs, rest, comparison, before, expected);
                assert(with_result(before, comparison.output) =~= now);
            },
        }
        lemma_goes_on_joined(nodes, start, rest, after);
    }
}

/// What mapping demands lies in the netlist.
proof fn lemma_demanded_below(netlist: Netlist)
    requires
        netlist.is_valid(),
    ensures
        forall|k: int|
            0 <= k < demanded(netlist).len() ==> (#[trigger] demanded(netlist)[k])
                < netlist.nodes@.len(),
{
    let nodes = netlist.nodes@;
    let roots = demanded(netlist);
    let sources = output_sources(nodes, netlist.ports@);
    let registers = live_register_reads(netlist, netlist.registers@);
    let memories = memories_reads(netlist.memories@);
    let arithmetic = all_arithmetic_reads(netlist.arithmetic@);
    let comparisons = all_comparison_reads(netlist.comparisons@);
    assert(netlist.ports@.take(netlist.ports@.len() as int) =~= netlist.ports@);
    assert(netlist.registers@.take(netlist.registers@.len() as int) =~= netlist.registers@);
    assert(netlist.memories@.take(netlist.memories@.len() as int) =~= netlist.memories@);
    assert(netlist.arithmetic@.take(netlist.arithmetic@.len() as int) =~= netlist.arithmetic@);
    assert(netlist.comparisons@.take(netlist.comparisons@.len() as int) =~= netlist.comparisons@);
    lemma_sources_readable(netlist, netlist.ports@.len());
    lemma_reads_readable(netlist, netlist.registers@.len());
    lemma_memories_readable(netlist, netlist.memories@.len());
    lemma_arithmetic_readable(netlist, netlist.arithmetic@.len());
    lemma_comparisons_readable(netlist, netlist.comparisons@.len());
    assert forall|k: int| 0 <= k < roots.len() implies (#[trigger] roots[k]) < nodes.len() by {
        let a = sources.len() as int;
        let b = a + registers.len();
        let c = b + memories.len();
        let d = c + arithmetic.len();
        if k < a {
            assert(readable(nodes, sources[k]));
        } else if k < b {
            assert(readable(nodes, registers[k - a]));
        } else if k < c {
            assert(readable(nodes, memories[k - b]));
        } else if k < d {
            assert(readable(nodes, arithmetic[k - c]));
        } else {
            assert(readable(nodes, comparisons[k - d]));
        }
    }
}

proof fn lemma_roots_emitted(
    nodes: Seq<Node>,
    plans: Seq<Option<PlanModel>>,
    state: EmitterModel,
    roots: Seq<NetId>,
    count: nat,
    done: spec_fn(int) -> bool,
    expected: spec_fn(int) -> bool,
)
    requires
        is_emitted(nodes, state, done, expected) || state.exhausted,
        plans_are_sound(nodes, plans, nodes.len() as int),
        forall|k: int| 0 <= k < roots.len() ==> (#[trigger] roots[k]) < nodes.len(),
        count <= roots.len(),
        !roots_mapped(nodes, plans, state, roots, count).exhausted,
    ensures
        !state.exhausted,
        is_emitted(nodes, roots_mapped(nodes, plans, state, roots, count), done, expected),
        goes_on(nodes, state, roots_mapped(nodes, plans, state, roots, count)),
    decreases count,
{
    if count > 0 {
        let last = (count - 1) as nat;
        let rest = roots_mapped(nodes, plans, state, roots, last);
        let root = roots[last as int];
        lemma_net_exhausted(nodes, plans, rest, root);
        lemma_roots_emitted(nodes, plans, state, roots, last, done, expected);
        lemma_operand(MapInputs { nodes, plans }, rest, root, done, expected);
        lemma_goes_on_joined(
            nodes,
            state,
            rest,
            roots_mapped(nodes, plans, state, roots, count),
        );
    }
}

proof fn lemma_bits_emitted(
    nodes: Seq<Node>,
    state: EmitterModel,
    bits: Seq<NetId>,
    done: spec_fn(int) -> bool,
    expected: spec_fn(int) -> bool,
)
    requires
        is_emitted(nodes, state, done, expected),
        all_of_kind(nodes, bits, NodeKind::Output),
        forall|i: int| 0 <= i < nodes.len() ==> #[trigger] node_is_valid(nodes, i),
    ensures
        is_emitted(nodes, bits_aliased(nodes, state, bits), done, expected),
        goes_on(nodes, state, bits_aliased(nodes, state, bits)),
    decreases bits.len(),
{
    if bits.len() > 0 {
        let front = bits.drop_last();
        assert forall|i: int| 0 <= i < front.len() implies (#[trigger] front[i]) < nodes.len()
            && nodes[front[i] as int].kind == NodeKind::Output by {
            assert(front[i] == bits[i]);
        }
        lemma_bits_emitted(nodes, state, front, done, expected);
        let rest = bits_aliased(nodes, state, front);
        let net = bits[bits.len() - 1];
        assert(net < nodes.len());
        assert(node_is_valid(nodes, net as int));
        let source = nodes[net as int].inputs@[0];
        assert(readable(nodes, source));
        lemma_bit_known(nodes, rest, done, expected, source);
        lemma_alias_emitted(nodes, rest, net, bit_of(rest.bits, source), done, expected);
        lemma_goes_on_joined(nodes, state, rest, bits_aliased(nodes, state, bits));
    }
}

proof fn lemma_outputs_emitted(
    nodes: Seq<Node>,
    state: EmitterModel,
    ports: Seq<Port>,
    done: spec_fn(int) -> bool,
    expected: spec_fn(int) -> bool,
)
    requires
        is_emitted(nodes, state, done, expected) || state.exhausted,
        forall|i: int| 0 <= i < ports.len() ==> port_is_valid(nodes, #[trigger] ports[i]),
        forall|i: int| 0 <= i < nodes.len() ==> #[trigger] node_is_valid(nodes, i),
    ensures
        outputs_aliased(nodes, state, ports).exhausted == state.exhausted,
        !state.exhausted ==> is_emitted(
            nodes,
            outputs_aliased(nodes, state, ports),
            done,
            expected,
        ) && goes_on(nodes, state, outputs_aliased(nodes, state, ports)),
    decreases ports.len(),
{
    if ports.len() > 0 {
        let front = ports.drop_last();
        assert forall|i: int| 0 <= i < front.len() implies port_is_valid(
            nodes,
            #[trigger] front[i],
        ) by {
            assert(front[i] == ports[i]);
        }
        lemma_outputs_emitted(nodes, state, front, done, expected);
        let rest = outputs_aliased(nodes, state, front);
        let port = ports[ports.len() - 1];
        assert(port_is_valid(nodes, port));
        if port.direction is Output {
            lemma_bits_exhausted(nodes, rest, port.bits@);
            if !state.exhausted {
                lemma_bits_emitted(nodes, rest, port.bits@, done, expected);
            }
        }
        if !state.exhausted {
            lemma_goes_on_joined(nodes, state, rest, outputs_aliased(nodes, state, ports));
        }
    }
}

proof fn lemma_bits_exhausted(nodes: Seq<Node>, state: EmitterModel, bits: Seq<NetId>)
    ensures
        bits_aliased(nodes, state, bits).exhausted == state.exhausted,
    decreases bits.len(),
{
    if bits.len() > 0 {
        lemma_bits_exhausted(nodes, state, bits.drop_last());
    }
}

/// The logic of a netlist, laid out before its flip-flops and memories: results are
/// driven, and sources are on wires of their own.
pub proof fn lemma_logic_emitted(
    netlist: Netlist,
    options: MappingOptions,
    plans: Seq<Option<PlanModel>>,
) -> (done: spec_fn(int) -> bool)
    requires
        netlist.is_valid(),
        is_countable(netlist),
        has_one_source(netlist),
        plans_are_sound(netlist.nodes@, plans, netlist.nodes@.len() as int),
        !logic_aliased(netlist, options, plans).exhausted,
    ensures
        ({
            let nodes = netlist.nodes@;
            let aliased = logic_aliased(netlist, options, plans);
            &&& is_emitted(nodes, aliased, done, sources_of(netlist))
            &&& forall|n: int|
                0 <= n < nodes.len() && (nodes[n].kind is ArithmeticOutput
                    || nodes[n].kind is ComparisonOutput) ==> #[trigger] done(n)
            &&& forall|n: int| #[trigger]
                done(n) ==> nodes[n].kind is ArithmeticOutput
                    || nodes[n].kind is ComparisonOutput
            &&& forall|n: int|
                0 <= n < nodes.len() && source_bit(nodes[n].kind, n as NetId) is Some
                    && #[trigger] sources_of(netlist)(n) ==> aliased.bits[n] == Some(
                    Bit::Wire((n + 2) as u32),
                )
        }),
{
    let nodes = netlist.nodes@;
    let expected = sources_of(netlist);
    let folded = constants_folded(netlist, emitter_start(nodes), netlist.registers@);
    let total = retained_count(netlist);
    let order = retained_order(netlist, total);
    let inputs = MapInputs { nodes, plans };
    let retained = all_retained_mapped(inputs, netlist, options.arithmetic, folded, order, total);
    let roots = demanded(netlist);
    let mapped = roots_mapped(nodes, plans, retained, roots, roots.len());
    let aliased = outputs_aliased(nodes, mapped, netlist.ports@);
    let done = results_of(netlist, order, total);
    lemma_start_emitted(netlist);
    lemma_aliased_exhausted(nodes, mapped, netlist.ports@);
    lemma_roots_exhausted(nodes, plans, retained, roots, roots.len());
    assert(!retained.exhausted);
    lemma_retained_emitted(netlist, plans, options.arithmetic, folded, total);
    lemma_demanded_below(netlist);
    lemma_roots_emitted(nodes, plans, retained, roots, roots.len(), done, expected);
    lemma_outputs_emitted(nodes, mapped, netlist.ports@, done, expected);
    lemma_goes_on_joined(nodes, folded, retained, mapped);
    lemma_goes_on_joined(nodes, folded, mapped, aliased);
    lemma_retained_order(netlist, total);
    assert forall|n: int|
        0 <= n < nodes.len() && (nodes[n].kind is ArithmeticOutput
            || nodes[n].kind is ComparisonOutput) implies #[trigger] done(n) by {
        assert(node_is_connected(netlist, n));
        if nodes[n].kind is ArithmeticOutput {
            let i = choose|i: int|
                0 <= i < netlist.arithmetic@.len() && (
                #[trigger] netlist.arithmetic@[i]).outputs@.contains(n as NetId);
            let cell = retained_cell(netlist, i);
            assert(order.contains(cell));
            let at = choose|at: int| 0 <= at < order.len() && order[at] == cell;
            let outputs = netlist.arithmetic@[i].outputs@;
            let k = choose|k: int| 0 <= k < outputs.len() && outputs[k] == n as NetId;
            assert(netlist.arithmetic@[i].outputs@[k] == n);
            assert(cell_has(netlist, order[at], n));
        } else {
            let i = choose|i: int|
                0 <= i < netlist.comparisons@.len() && (#[trigger] netlist.comparisons@[i]).output
                    == n as NetId;
            let cell = retained_cell(netlist, netlist.arithmetic@.len() + i);
            assert(order.contains(cell));
            let at = choose|at: int| 0 <= at < order.len() && order[at] == cell;
            assert(cell_has(netlist, order[at], n));
        }
    }
    assert forall|n: int| #[trigger] done(n) implies nodes[n].kind is ArithmeticOutput
        || nodes[n].kind is ComparisonOutput by {
        let at = choose|at: int| 0 <= at < total && cell_has(netlist, #[trigger] order[at], n);
        assert(order.contains(order[at]));
        let j = choose|j: int| 0 <= j < total && order[at] == retained_cell(netlist, j);
        assert(order[at] == retained_cell(netlist, j));
        match order[at] {
            RetainedCell::Arithmetic(i) => {
                assert(arithmetic_is_valid(nodes, netlist.arithmetic@[i as int]));
            },
            RetainedCell::Comparison(i) => {
                assert(comparison_is_valid(nodes, netlist.comparisons@[i as int]));
            },
        }
    }
    done
}

/// The state behind the logic, before flip-flops and memories.
pub open spec fn logic_aliased(
    netlist: Netlist,
    options: MappingOptions,
    plans: Seq<Option<PlanModel>>,
) -> EmitterModel {
    let nodes = netlist.nodes@;
    let folded = constants_folded(netlist, emitter_start(nodes), netlist.registers@);
    let retained = all_retained_mapped(
        MapInputs { nodes, plans },
        netlist,
        options.arithmetic,
        folded,
        retained_order(netlist, retained_count(netlist)),
        retained_count(netlist),
    );
    let roots = demanded(netlist);
    outputs_aliased(
        nodes,
        roots_mapped(nodes, plans, retained, roots, roots.len()),
        netlist.ports@,
    )
}

proof fn lemma_aliased_exhausted(nodes: Seq<Node>, state: EmitterModel, ports: Seq<Port>)
    ensures
        outputs_aliased(nodes, state, ports).exhausted == state.exhausted,
    decreases ports.len(),
{
    if ports.len() > 0 {
        lemma_aliased_exhausted(nodes, state, ports.drop_last());
        if ports.last().direction is Output {
            lemma_bits_exhausted(
                nodes,
                outputs_aliased(nodes, state, ports.drop_last()),
                ports.last().bits@,
            );
        }
    }
}

proof fn lemma_roots_exhausted(
    nodes: Seq<Node>,
    plans: Seq<Option<PlanModel>>,
    state: EmitterModel,
    roots: Seq<NetId>,
    count: nat,
)
    ensures
        state.exhausted ==> roots_mapped(nodes, plans, state, roots, count).exhausted,
    decreases count,
{
    if count > 0 {
        lemma_roots_exhausted(nodes, plans, state, roots, (count - 1) as nat);
        lemma_net_exhausted(
            nodes,
            plans,
            roots_mapped(nodes, plans, state, roots, (count - 1) as nat),
            roots[count - 1],
        );
    }
}

} // verus!
