//! Registers that move keep their clocks.

use vstd::prelude::*;

use crate::cells::cell_inputs;
use crate::cells::cell_outputs;
use crate::cells::Bit;
use crate::cells::CellModel;
use crate::certify::reset_between;
use crate::certify::EdgeModel;
use crate::certify::RequestModel;
use crate::merge::can_share;
use crate::merge::duplicates_of;
use crate::merge::generated_register;
use crate::merge::scan_cells;
use crate::merge::sharer;
use crate::merge::SharedRegister;
use crate::moves::lemma_lut_found;
use crate::netlist::fanout_map;
use crate::netlist::first_named;
use crate::netlist::first_named_from;
use crate::netlist::loads;
use crate::netlist::maximum_wire;
use crate::netlist::observable_cells;
use crate::netlist::pruned;
use crate::netlist::pruned_once;
use crate::netlist::NetlistModel;
use crate::registered::has_registered_inputs;
use crate::registered::is_registered_input;
use crate::registered::register_indices;
use crate::registered::source_register;
use crate::registered::without;
use crate::retime_ccu::backward_ccu_cells;
use crate::retime_ccu::backward_ccu_move;
use crate::retime_ccu::backward_ccu_registers;
use crate::retime_ccu::backward_ccu_request;
use crate::retime_ccu::backward_ccu_sources;
use crate::retime_ccu::ccu_from;
use crate::retime_ccu::ccu_of;
use crate::retime_ccu::cone_graph;
use crate::retime_ccu::forward_ccu_cells;
use crate::retime_ccu::forward_ccu_move;
use crate::retime_ccu::forward_ccu_request;
use crate::retime_ccu::forward_ccu_values;
use crate::retime_ccu::moving_pins;
use crate::retime_ccu::wire_resets;
use crate::retime_lut::backward_lut_cells;
use crate::retime_lut::backward_lut_move;
use crate::retime_lut::backward_lut_register;
use crate::retime_lut::backward_lut_request;
use crate::retime_lut::backward_lut_sources;
use crate::retime_lut::forward_lut_cells;
use crate::retime_lut::forward_lut_move;
use crate::retime_lut::forward_lut_request;
use crate::retime_lut::lemma_register_from;
use crate::retime_lut::one_more_move;
use crate::retime_lut::register_from;
use crate::retime_lut::reset_register;
use crate::retime_lut::same_domain;
use crate::shown::drivers_apart;
use crate::shown::drives;
use crate::wires::lemma_sorted_wires;
use crate::wires::sorted_wires;

verus! {

/// Whether two flip-flops share a clock, its edge, an enable, and a reset but for what it
/// loads.
pub open spec fn clocked_alike(a: CellModel, b: CellModel) -> bool {
    match (a, b) {
        (
            CellModel::FlipFlop { clock, edge, enable, reset, .. },
            CellModel::FlipFlop { clock: c, edge: e, enable: n, reset: r, .. },
        ) => {
            &&& clock == c
            &&& edge == e
            &&& enable == n
            &&& match (reset, r) {
                (Some(x), Some(y)) => x.signal == y.signal && x.active == y.active
                    && x.asynchronous == y.asynchronous,
                (None, None) => true,
                _ => false,
            }
        },
        _ => false,
    }
}

proof fn lemma_observable_among(cells: Seq<CellModel>, loads: Seq<Bit>, at: int)
    requires
        0 <= at < observable_cells(cells, loads).len(),
    ensures
        cells.contains(observable_cells(cells, loads)[at]),
    decreases cells.len(),
{
    let rest = observable_cells(cells.drop_last(), loads);
    if at < rest.len() {
        lemma_observable_among(cells.drop_last(), loads, at);
        let front = cells.drop_last();
        let k = choose|k: int| 0 <= k < front.len() && front[k] == rest[at];
        assert(cells[k] == rest[at]);
    } else {
        assert(cells[cells.len() - 1] == observable_cells(cells, loads)[at]);
    }
}

/// Pruning leaves cells as they were.
proof fn lemma_pruned_among(netlist: NetlistModel, at: int)
    requires
        0 <= at < pruned(netlist).cells.len(),
    ensures
        netlist.cells.contains(pruned(netlist).cells[at]),
    decreases netlist.cells.len(),
{
    let once = pruned_once(netlist);
    if once.cells.len() >= netlist.cells.len() {
        assert(netlist.cells[at] == pruned(netlist).cells[at]);
    } else {
        lemma_pruned_among(once, at);
        let k = choose|k: int| 0 <= k < once.cells.len() && once.cells[k] == pruned(
            netlist,
        ).cells[at];
        lemma_observable_among(netlist.cells, loads(netlist), k);
    }
}

/// A register moved back across a lookup table keeps its clock: every flip-flop after the
/// move was there before, or has the clock, edge, enable and reset signal of the register
/// that was moved.
pub proof fn law_backward_lut_keeps_clocks(
    netlist: NetlistModel,
    index: int,
    certificates: spec_fn(RequestModel) -> Option<Seq<EdgeModel>>,
    j: int,
)
    requires
        backward_lut_move(netlist, index, certificates) matches Some(after) && 0 <= j
            < after.cells.len() && after.cells[j] is FlipFlop,
    ensures
        ({
            let after = backward_lut_move(netlist, index, certificates)->0;
            netlist.cells.contains(after.cells[j]) || clocked_alike(
                after.cells[j],
                netlist.cells[index],
            )
        }),
{
    reveal(backward_lut_move);
    let edges = certificates(backward_lut_request(netlist, index)->0)->0;
    let (register, lut) = backward_lut_sources(netlist, index)->0;
    let first = (maximum_wire(netlist)->0 + 1) as u32;
    let cells = backward_lut_cells(netlist, index, register, lut, first, edges);
    let made = NetlistModel { cells, proof: one_more_move(netlist.proof), ..netlist };
    assert(backward_lut_move(netlist, index, certificates) == Some(pruned(made)));
    lemma_pruned_among(made, j);
    let k = choose|k: int| 0 <= k < cells.len() && cells[k] == pruned(made).cells[j];
    lemma_lut_found(netlist.cells, register.data->Wire_0, 0);
    assert(0 <= lut < netlist.cells.len() && lut != index);
    let kept = netlist.cells.remove(index);
    let wires = sorted_wires(netlist.cells[lut]->Lut4_inputs@);
    let name = netlist.cells[index].cell_name();
    let more = Seq::new(
        wires.len(),
        |i: int|
            backward_lut_register(
                name,
                register,
                wires[i],
                (first + i) as u32,
                edges[i].reset_values[0],
            ),
    );
    let base = kept + more;
    assert(k < base.len() && cells[k] == base[k]);
    lemma_kept_among(netlist.cells, index, k);
    if k >= kept.len() {
        assert(base[k] == more[k - kept.len()]);
    }
}

proof fn lemma_kept_among(cells: Seq<CellModel>, index: int, k: int)
    requires
        0 <= index < cells.len(),
    ensures
        0 <= k < cells.remove(index).len() ==> cells.contains(cells.remove(index)[k]),
{
    if 0 <= k < cells.remove(index).len() {
        let at = if k < index {
            k
        } else {
            k + 1
        };
        assert(cells[at] == cells.remove(index)[k]);
    }
}

/// A register moved back across a carry primitive keeps its clock.
#[verifier::rlimit(40)]
pub proof fn law_backward_ccu_keeps_clocks(
    netlist: NetlistModel,
    index: int,
    certificates: spec_fn(RequestModel) -> Option<Seq<EdgeModel>>,
    j: int,
)
    requires
        backward_ccu_move(netlist, index, certificates) matches Some(after) && 0 <= j
            < after.cells.len() && after.cells[j] is FlipFlop,
    ensures
        ({
            let after = backward_ccu_move(netlist, index, certificates)->0;
            netlist.cells.contains(after.cells[j]) || clocked_alike(
                after.cells[j],
                netlist.cells[index],
            )
        }),
{
    reveal(backward_ccu_move);
    let edges = certificates(backward_ccu_request(netlist, index)->0)->0;
    let (register, at, output) = backward_ccu_sources(netlist, index)->0;
    let first = (maximum_wire(netlist)->0 + 1) as u32;
    let cells = backward_ccu_cells(netlist, index, register, at, output, first, edges);
    let made = NetlistModel { cells, proof: one_more_move(netlist.proof), ..netlist };
    assert(backward_ccu_move(netlist, index, certificates) == Some(pruned(made)));
    lemma_pruned_among(made, j);
    let k = choose|k: int| 0 <= k < cells.len() && cells[k] == pruned(made).cells[j];
    lemma_ccu_place(netlist.cells, register.data->Wire_0, 0);
    assert(0 <= at < netlist.cells.len() && at != index);
    let kept = netlist.cells.remove(index);
    let ccu = ccu_of(netlist.cells[at]);
    let more = backward_ccu_registers(
        register,
        netlist.cells[index].cell_name(),
        ccu.name,
        cone_graph(ccu, output).boundaries,
        first,
        edges,
    );
    let base = kept + more;
    assert(k < base.len() && cells[k] == base[k]);
    lemma_kept_among(netlist.cells, index, k);
    if k >= kept.len() {
        assert(base[k] == more[k - kept.len()]);
    }
}

proof fn lemma_ccu_place(cells: Seq<CellModel>, wire: u32, from: int)
    requires
        0 <= from,
    ensures
        ccu_from(cells, wire, from) matches Some(at) ==> from <= at < cells.len()
            && cells[at] is Ccu2c,
    decreases cells.len() - from,
{
    if from < cells.len() {
        lemma_ccu_place(cells, wire, from + 1);
    }
}

proof fn lemma_without_among(cells: Seq<CellModel>, removed: Seq<usize>, at: int)
    requires
        0 <= at < without(cells, removed).len(),
    ensures
        cells.contains(without(cells, removed)[at]),
    decreases cells.len(),
{
    let rest = without(cells.drop_last(), removed);
    if at < rest.len() {
        lemma_without_among(cells.drop_last(), removed, at);
        let front = cells.drop_last();
        let k = choose|k: int| 0 <= k < front.len() && front[k] == rest[at];
        assert(cells[k] == rest[at]);
    } else {
        assert(cells[cells.len() - 1] == without(cells, removed)[at]);
    }
}

/// The registers behind the pins of a primitive are clocked alike.
proof fn lemma_sources_alike(netlist: NetlistModel, bits: Seq<Bit>, i: int, wire: u32)
    requires
        drivers_apart(netlist.cells),
        has_registered_inputs(netlist, bits),
        bits.contains(Bit::Wire(wire)),
        0 <= i < netlist.cells.len(),
        drives(netlist.cells[i], wire),
    ensures
        ({
            let lead = source_register(netlist, sorted_wires(bits)[0]);
            &&& reset_register(netlist.cells[i]) matches Some(register) && same_domain(
                lead,
                register,
            )
        }),
{
    lemma_sorted_wires(bits);
    let wires = sorted_wires(bits);
    assert(wires.contains(wire));
    let k = choose|k: int| 0 <= k < wires.len() && wires[k] == wire;
    assert(is_registered_input(netlist, bits, wires[0], wires[k]));
    let at = register_from(netlist.cells, wire, 0)->0;
    lemma_register_from(netlist.cells, wire, 0);
    assert(cell_outputs(netlist.cells[at])[0] == Bit::Wire(wire));
    assert(drives(netlist.cells[at], wire));
    assert(at == i);
}

/// Registers that move forward across a lookup table are clocked alike, and so is the one
/// they become: a flip-flop after the move was there before, or has the clock, edge, enable
/// and reset signal of every register that fed the table.
pub proof fn law_forward_lut_keeps_clocks(
    netlist: NetlistModel,
    index: int,
    certificates: spec_fn(RequestModel) -> Option<Seq<EdgeModel>>,
    j: int,
    i: int,
    wire: u32,
)
    requires
        drivers_apart(netlist.cells),
        forward_lut_move(netlist, index, certificates) matches Some(after) && 0 <= j
            < after.cells.len() && after.cells[j] is FlipFlop,
        cell_inputs(netlist.cells[index]).contains(Bit::Wire(wire)),
        0 <= i < netlist.cells.len(),
        drives(netlist.cells[i], wire),
    ensures
        ({
            let after = forward_lut_move(netlist, index, certificates)->0;
            netlist.cells.contains(after.cells[j]) || clocked_alike(
                after.cells[j],
                netlist.cells[i],
            )
        }),
{
    reveal(forward_lut_move);
    let edges = certificates(forward_lut_request(netlist, index)->0)->0;
    let inputs = netlist.cells[index]->Lut4_inputs;
    let wires = sorted_wires(inputs@);
    let count = wires.len() as int;
    let value = reset_between(edges, count, count + 1)->0;
    let output = (maximum_wire(netlist)->0 + 1) as u32;
    let cells = forward_lut_cells(netlist, index, output, value)->0;
    let made = NetlistModel { cells, proof: one_more_move(netlist.proof), ..netlist };
    assert(forward_lut_move(netlist, index, certificates) == Some(pruned(made)));
    lemma_pruned_among(made, j);
    let k = choose|k: int| 0 <= k < cells.len() && cells[k] == pruned(made).cells[j];
    let removed = register_indices(netlist, wires);
    let kept = without(netlist.cells, removed);
    let name = netlist.cells[index].cell_name();
    let at = first_named(kept, name)->0;
    lemma_name_place(kept, name, 0);
    lemma_sources_alike(netlist, inputs@, i, wire);
    if k < kept.len() {
        lemma_without_among(netlist.cells, removed, k);
        assert(k == at ==> cells[k] is Lut4);
        assert(k != at ==> cells[k] == kept[k]);
    }
}

/// Registers that move forward across a carry primitive are clocked alike, and so are
/// those they become.
#[verifier::rlimit(40)]
pub proof fn law_forward_ccu_keeps_clocks(
    netlist: NetlistModel,
    index: int,
    certificates: spec_fn(RequestModel) -> Option<Seq<EdgeModel>>,
    j: int,
    i: int,
    wire: u32,
)
    requires
        drivers_apart(netlist.cells),
        forward_ccu_move(netlist, index, certificates) matches Some(after) && 0 <= j
            < after.cells.len() && after.cells[j] is FlipFlop,
        moving_pins(ccu_of(netlist.cells[index])).contains(Bit::Wire(wire)),
        0 <= i < netlist.cells.len(),
        drives(netlist.cells[i], wire),
    ensures
        ({
            let after = forward_ccu_move(netlist, index, certificates)->0;
            netlist.cells.contains(after.cells[j]) || clocked_alike(
                after.cells[j],
                netlist.cells[i],
            )
        }),
{
    reveal(forward_ccu_move);
    let edges = certificates(forward_ccu_request(netlist, index)->0)->0;
    let ccu = ccu_of(netlist.cells[index]);
    let wires = sorted_wires(moving_pins(ccu));
    let values = forward_ccu_values(ccu, wire_resets(netlist, wires), edges)->0;
    let first = (maximum_wire(netlist)->0 + 1) as u32;
    let cells = forward_ccu_cells(netlist, index, first, values)->0;
    assert(forward_ccu_move(netlist, index, certificates)->0.cells == cells);
    let removed = register_indices(netlist, wires);
    let kept = without(netlist.cells, removed);
    lemma_sources_alike(netlist, moving_pins(ccu), i, wire);
    let at = first_named(kept, ccu.name)->0;
    lemma_name_place(kept, ccu.name, 0);
    if j < kept.len() {
        lemma_without_among(netlist.cells, removed, j);
        assert(j == at ==> cells[j] is Ccu2c);
        assert(j != at ==> cells[j] == kept[j]);
    } else {
        let lead = source_register(netlist, wires[0]);
        assert(cells[j] is FlipFlop && cells[j]->FlipFlop_clock == lead.clock
            && cells[j]->FlipFlop_edge == lead.edge && cells[j]->FlipFlop_enable == lead.enable);
    }
}

proof fn lemma_name_place(cells: Seq<CellModel>, name: Seq<char>, from: int)
    requires
        0 <= from,
    ensures
        first_named_from(cells, name, from) matches Some(at) ==> from <= at < cells.len(),
    decreases cells.len() - from,
{
    if from < cells.len() {
        lemma_name_place(cells, name, from + 1);
    }
}

/// Whether a flip-flop has the state of `register`: its data, clock, edge, enable and reset.
pub open spec fn has_state(cell: CellModel, other: CellModel) -> bool {
    match (cell, other) {
        (
            CellModel::FlipFlop { data, clock, edge, enable, reset, .. },
            CellModel::FlipFlop { data: d, clock: c, edge: e, enable: n, reset: r, .. },
        ) => data == d && clock == c && edge == e && enable == n && reset == r,
        _ => false,
    }
}

/// Whether a flip-flop among the first `count` drives `output` and has the state of `cell`.
spec fn has_twin(cells: Seq<CellModel>, count: int, cell: CellModel, output: u32) -> bool {
    exists|i: int|
        0 <= i < count && has_state(#[trigger] cells[i], cell) && cells[i]->FlipFlop_output
            == output
}

proof fn lemma_twin_later(cells: Seq<CellModel>, low: int, high: int, cell: CellModel, output: u32)
    requires
        has_twin(cells, low, cell, output),
        low <= high,
    ensures
        has_twin(cells, high, cell, output),
{
    let i = choose|i: int|
        0 <= i < low && has_state(#[trigger] cells[i], cell) && cells[i]->FlipFlop_output
            == output;
    assert(has_state(cells[i], cell));
}

/// Whether a kept register is a flip-flop among the first `count`.
spec fn stands_in(cells: Seq<CellModel>, count: int, shared: SharedRegister) -> bool {
    exists|i: int|
        0 <= i < count && (#[trigger] cells[i]) is FlipFlop && cells[i]->FlipFlop_output
            == shared.output && cells[i]->FlipFlop_data == shared.data
            && cells[i]->FlipFlop_clock == shared.clock && cells[i]->FlipFlop_edge == shared.edge
            && cells[i]->FlipFlop_enable == shared.enable && cells[i]->FlipFlop_reset
            == shared.reset
}

proof fn lemma_scan(cells: Seq<CellModel>, fanouts: Map<u32, usize>, count: nat)
    requires
        count <= cells.len() <= usize::MAX,
    ensures
        ({
            let scan = scan_cells(cells, fanouts, count);
            &&& forall|k: int|
                0 <= k < scan.shared.len() ==> stands_in(
                    cells,
                    count as int,
                    #[trigger] scan.shared[k],
                )
            &&& forall|d: int|
                0 <= d < scan.duplicates.len() ==> (#[trigger] scan.duplicates[d]).index < count
                    && cells[scan.duplicates[d].index as int] is FlipFlop
                    && cells[scan.duplicates[d].index as int]->FlipFlop_output
                    == scan.duplicates[d].output && has_twin(
                    cells,
                    count as int,
                    cells[scan.duplicates[d].index as int],
                    scan.duplicates[d].canonical,
                )
        }),
    decreases count,
{
    if count > 0 {
        let last = (count - 1) as nat;
        lemma_scan(cells, fanouts, last);
        let before = scan_cells(cells, fanouts, last);
        let after = scan_cells(cells, fanouts, count);
        let cell = cells[last as int];
        assert forall|k: int| 0 <= k < before.shared.len() implies stands_in(
            cells,
            count as int,
            #[trigger] before.shared[k],
        ) by {
            assert(stands_in(cells, last as int, before.shared[k]));
        }
        assert forall|d: int| 0 <= d < before.duplicates.len() implies has_twin(
            cells,
            count as int,
            cells[(#[trigger] before.duplicates[d]).index as int],
            before.duplicates[d].canonical,
        ) by {
            lemma_twin_later(
                cells,
                last as int,
                count as int,
                cells[before.duplicates[d].index as int],
                before.duplicates[d].canonical,
            );
        }
        if let Some(register) = generated_register(cell, fanouts) {
            lemma_sharer_found(before.shared, register, 0);
            if let Some(k) = sharer(before.shared, register, 0) {
                assert(stands_in(cells, last as int, before.shared[k]));
                let i = choose|i: int|
                    0 <= i < last && (#[trigger] cells[i]) is FlipFlop
                        && cells[i]->FlipFlop_output == before.shared[k].output
                        && cells[i]->FlipFlop_data == before.shared[k].data
                        && cells[i]->FlipFlop_clock == before.shared[k].clock
                        && cells[i]->FlipFlop_edge == before.shared[k].edge
                        && cells[i]->FlipFlop_enable == before.shared[k].enable
                        && cells[i]->FlipFlop_reset == before.shared[k].reset;
                assert(has_state(cells[i], cell));
                assert(has_twin(cells, count as int, cell, before.shared[k].output));
                assert forall|m: int| 0 <= m < after.shared.len() implies stands_in(
                    cells,
                    count as int,
                    #[trigger] after.shared[m],
                ) by {
                    assert(stands_in(cells, count as int, before.shared[m]));
                    if m == k {
                        assert(cells[i] is FlipFlop);
                    }
                }
            } else {
                assert(cells[last as int] is FlipFlop);
                assert(stands_in(cells, count as int, register));
            }
        }
    }
}

proof fn lemma_sharer_found(shared: Seq<SharedRegister>, register: SharedRegister, from: int)
    requires
        0 <= from,
    ensures
        sharer(shared, register, from) matches Some(k) ==> from <= k < shared.len() && can_share(
            shared[k],
            register,
        ),
    decreases shared.len() - from,
{
    if from < shared.len() && !can_share(shared[from], register) {
        lemma_sharer_found(shared, register, from + 1);
    }
}

/// A register is shared only with one that holds the same at all times: each register
/// that another takes over is a flip-flop with the data, clock, edge, enable and reset of
/// the one that takes it over.
pub proof fn law_shared_registers_hold_the_same(netlist: NetlistModel, d: int)
    requires
        netlist.cells.len() <= usize::MAX,
        0 <= d < duplicates_of(netlist).len(),
    ensures
        ({
            let duplicate = duplicates_of(netlist)[d];
            &&& duplicate.index < netlist.cells.len()
            &&& netlist.cells[duplicate.index as int] is FlipFlop
            &&& netlist.cells[duplicate.index as int]->FlipFlop_output == duplicate.output
            &&& exists|i: int|
                0 <= i < netlist.cells.len() && has_state(
                    #[trigger] netlist.cells[i],
                    netlist.cells[duplicate.index as int],
                ) && netlist.cells[i]->FlipFlop_output == duplicate.canonical
        }),
{
    lemma_scan(netlist.cells, fanout_map(netlist), netlist.cells.len());
    let duplicate = duplicates_of(netlist)[d];
    assert(has_twin(
        netlist.cells,
        netlist.cells.len() as int,
        netlist.cells[duplicate.index as int],
        duplicate.canonical,
    ));
}

} // verus!
