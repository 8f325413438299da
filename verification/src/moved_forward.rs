//! Registers moved forward across a cell: what the new cells make of any run.

use vstd::prelude::*;

use crate::cells::cell_inputs;
use crate::cells::cell_outputs;
use crate::cells::lemma_wire_count_concat;
use crate::cells::wire_count;
use crate::cells::Bit;
use crate::cells::CellModel;
use crate::cells::Reset;
use crate::grown::lemma_is_run;
use crate::grown::lemma_port_inputs_below;
use crate::meaning::bit_value;
use crate::meaning::cell_agrees;
use crate::meaning::cells_agree;
use crate::moves::cell_steps;
use crate::moves::cells_step;
use crate::moves::state_after;
use crate::netlist::cells_inputs;
use crate::netlist::first_named_from;
use crate::netlist::port_inputs;
use crate::netlist::ports_bits;
use crate::netlist::wire_fanout;
use crate::netlist::NetlistModel;
use crate::registered::has_registered_inputs;
use crate::registered::is_registered_input;
use crate::registered::register_indices;
use crate::registered::source_register;
use crate::registered::without;
use crate::retime_lut::register_from;
use crate::retime_lut::reset_register;
use crate::retime_lut::ResetRegister;
use crate::shown::all_below;
use crate::shown::cell_starts;
use crate::shown::driven_value;
use crate::shown::drives;
use crate::shown::drives_apart;
use crate::shown::is_box;
use crate::shown::is_combinational;
use crate::shown::is_driver;
use crate::shown::is_run;
use crate::shown::is_sourced;
use crate::shown::is_well_driven;
use crate::shown::keeps_shown;
use crate::shown::lemma_agrees_by_wire;
use crate::shown::lemma_cells_counted;
use crate::shown::lemma_driven_same;
use crate::shown::lemma_local;
use crate::shown::lemma_outputs_are_wires;
use crate::shown::lemma_port_bits_at;
use crate::shown::lemma_state_beside;
use crate::shown::port_has;
use crate::shown::reads;
use crate::shown::same_around;
use crate::shown::same_box;
use crate::shown::same_boxes;
use crate::shown::same_ports;
use crate::shown::shows_no_less;
use crate::shown::shows_no_more;
use crate::shown::shows_same;
use crate::shown::state_beside;
use crate::shown::touches;
use crate::shown_back::lemma_count_one;
use crate::wires::lemma_sorted_wires;
use crate::wires::sorted_wires;

verus! {

/// A count over the inputs of all cells counts those of two of them.
proof fn lemma_counts_apart(cells: Seq<CellModel>, wire: u32, i: int, j: int)
    requires
        0 <= i < cells.len(),
        0 <= j < cells.len(),
        i != j,
    ensures
        wire_count(cells_inputs(cells), wire) >= wire_count(cell_inputs(cells[i]), wire)
            + wire_count(cell_inputs(cells[j]), wire),
    decreases cells.len(),
{
    let rest = cells.drop_last();
    let last = cells.len() - 1;
    lemma_wire_count_concat(cells_inputs(rest), cell_inputs(cells.last()), wire);
    if i == last {
        lemma_counts_whole(rest, wire, j);
    } else if j == last {
        lemma_counts_whole(rest, wire, i);
    } else {
        lemma_counts_apart(rest, wire, i, j);
    }
}

proof fn lemma_counts_whole(cells: Seq<CellModel>, wire: u32, i: int)
    requires
        0 <= i < cells.len(),
    ensures
        wire_count(cells_inputs(cells), wire) >= wire_count(cell_inputs(cells[i]), wire),
    decreases cells.len(),
{
    let rest = cells.drop_last();
    lemma_wire_count_concat(cells_inputs(rest), cell_inputs(cells.last()), wire);
    if i < cells.len() - 1 {
        lemma_counts_whole(rest, wire, i);
    }
}

/// A move of the registers behind `pins` across the cell at `index`: the moved cell
/// stands at `place` among the cells that stay and drives wires from `first` on.
pub ghost struct ForwardPlan {
    pub index: int,
    pub pins: Seq<Bit>,
    pub first: u32,
    pub place: int,
    pub values: spec_fn(int) -> bool,
}

/// The register outputs that move.
pub open spec fn moving_wires(plan: ForwardPlan) -> Seq<u32> {
    sorted_wires(plan.pins)
}

/// Whether `wire` is a register output that moves.
pub open spec fn moves(plan: ForwardPlan, wire: u32) -> bool {
    moving_wires(plan).contains(wire)
}

/// The place of the register behind a wire that moves.
pub open spec fn place_of(netlist: NetlistModel, wire: u32) -> int {
    register_from(netlist.cells, wire, 0)->0
}

/// The cells that stay, with the one that moves.
pub open spec fn kept_cells(before: NetlistModel, plan: ForwardPlan) -> Seq<CellModel> {
    without(before.cells, register_indices(before, moving_wires(plan)))
}

/// The register whose controls the new registers take.
pub open spec fn lead_of(before: NetlistModel, plan: ForwardPlan) -> ResetRegister {
    source_register(before, moving_wires(plan)[0])
}

/// Whether a cell is the new register of output `p`.
pub open spec fn is_new_register(
    before: NetlistModel,
    after: NetlistModel,
    plan: ForwardPlan,
    cell: CellModel,
    p: int,
) -> bool {
    let lead = lead_of(before, plan);
    &&& 0 <= p < cell_outputs(before.cells[plan.index]).len()
    &&& cell is FlipFlop
    &&& Bit::Wire(cell->FlipFlop_output) == cell_outputs(before.cells[plan.index])[p]
    &&& cell->FlipFlop_data == cell_outputs(after.cells[plan.place])[p]
    &&& cell->FlipFlop_clock == lead.clock
    &&& cell->FlipFlop_enable == lead.enable
    &&& cell->FlipFlop_reset == Some(Reset { value: (plan.values)(p), ..lead.reset })
}

/// Whether output `p` has a new register at `j`.
pub open spec fn is_registered_at(
    before: NetlistModel,
    after: NetlistModel,
    plan: ForwardPlan,
    p: int,
    j: int,
) -> bool {
    kept_cells(before, plan).len() <= j < after.cells.len() && is_new_register(
        before,
        after,
        plan,
        after.cells[j],
        p,
    )
}

/// Whether what a cell drives depends on `pins` alone.
pub open spec fn pins_decide(cell: CellModel, pins: Seq<Bit>) -> bool {
    forall|u: spec_fn(u32) -> bool, v: spec_fn(u32) -> bool, wire: u32|
        #![trigger driven_value(u, cell, wire), driven_value(v, cell, wire)]
        drives(cell, wire) && (forall|bit: Bit| #[trigger]
            pins.contains(bit) ==> bit_value(u, bit) == bit_value(v, bit)) ==> driven_value(
            u,
            cell,
            wire,
        ) == driven_value(v, cell, wire)
}

/// Whether `after` holds the cells that stay, the moved cell and new registers.
pub open spec fn is_moved_forward(
    before: NetlistModel,
    after: NetlistModel,
    plan: ForwardPlan,
) -> bool {
    let cell = before.cells[plan.index];
    let moved = after.cells[plan.place];
    let kept = kept_cells(before, plan);
    let indices = register_indices(before, moving_wires(plan));
    &&& 0 <= plan.index < before.cells.len() <= usize::MAX
    &&& is_combinational(cell)
    &&& has_registered_inputs(before, plan.pins)
    &&& forall|wire: u32| wire_count(cell_inputs(cell), wire) >= #[trigger] wire_count(
        plan.pins,
        wire,
    )
    &&& pins_decide(cell, plan.pins)
    &&& after.ports == before.ports
    &&& all_below(before, plan.first as int)
    &&& plan.first > 0
    &&& 0 <= plan.place < kept.len() <= after.cells.len()
    &&& origin(before.cells, indices, plan.place) == plan.index
    &&& forall|j: int|
        0 <= j < kept.len() && j != plan.place ==> (#[trigger] after.cells[j]) == kept[j]
    &&& forall|j: int|
        kept.len() <= j < after.cells.len() ==> exists|p: int|
            is_new_register(before, after, plan, #[trigger] after.cells[j], p)
    &&& forall|i: int, j: int|
        kept.len() <= i < j < after.cells.len() ==> (
        #[trigger] after.cells[i])->FlipFlop_output != (
        #[trigger] after.cells[j])->FlipFlop_output
    &&& forall|p: int|
        0 <= p < cell_outputs(cell).len() && wire_fanout(
            before,
            (#[trigger] cell_outputs(cell)[p])->Wire_0,
        ) > 0 ==> exists|j: int| #[trigger] is_registered_at(before, after, plan, p, j)
    &&& is_combinational(moved)
    &&& drives_apart(moved)
    &&& cell_outputs(moved).len() == cell_outputs(cell).len()
    &&& forall|wire: u32| #[trigger] drives(moved, wire) ==> wire >= plan.first
    &&& forall|wire: u32| #[trigger]
        reads(moved, wire) ==> exists|source: u32| #[trigger]
            moves(plan, source) && source_register(before, source).data == Bit::Wire(wire)
}

/// Whether the registers that move take their next states.
pub open spec fn sources_step(
    now: spec_fn(u32) -> bool,
    next: spec_fn(u32) -> bool,
    before: NetlistModel,
    plan: ForwardPlan,
) -> bool {
    forall|wire: u32| #[trigger]
        moves(plan, wire) ==> next(wire) == state_after(
            now,
            source_register(before, wire).enable,
            Some(source_register(before, wire).reset),
            now(wire),
            bit_value(now, source_register(before, wire).data),
        )
}

/// Whether the registers that move hold what configuration loads.
pub open spec fn sources_start(
    values: spec_fn(u32) -> bool,
    before: NetlistModel,
    plan: ForwardPlan,
) -> bool {
    forall|wire: u32| #[trigger]
        moves(plan, wire) ==> values(wire) == source_register(before, wire).reset.value
}

/// Whether what the cell makes of the registers' next states is what its new
/// registers hold next.
#[verifier::opaque]
pub open spec fn carries_outputs(
    before: NetlistModel,
    after: NetlistModel,
    plan: ForwardPlan,
) -> bool {
    let cell = before.cells[plan.index];
    let moved = after.cells[plan.place];
    let lead = lead_of(before, plan);
    forall|p: int, j: int| #[trigger]
        is_registered_at(before, after, plan, p, j) ==> {
            let output = cell_outputs(cell)[p]->Wire_0;
            let data = cell_outputs(moved)[p]->Wire_0;
            &&& forall|values: spec_fn(u32) -> bool| #[trigger]
                sources_start(values, before, plan) ==> driven_value(values, cell, output) == (
                plan.values)(p)
            &&& forall|now: spec_fn(u32) -> bool, next: spec_fn(u32) -> bool| #[trigger]
                sources_step(now, next, before, plan) ==> driven_value(next, cell, output)
                    == state_after(
                    now,
                    lead.enable,
                    Some(Reset { value: (plan.values)(p), ..lead.reset }),
                    driven_value(now, cell, output),
                    driven_value(now, moved, data),
                )
        }
}

proof fn lemma_register_found(cells: Seq<CellModel>, wire: u32, from: int)
    requires
        0 <= from,
    ensures
        register_from(cells, wire, from) matches Some(at) ==> from <= at < cells.len()
            && cells[at] is FlipFlop && cells[at]->FlipFlop_reset is Some
            && cells[at]->FlipFlop_output == wire && drives(cells[at], wire),
    decreases cells.len() - from,
{
    if from < cells.len() {
        if reset_register(cells[from]) is Some && reset_register(cells[from])->0.output == wire {
            assert(cells[from] is FlipFlop);
            assert(cell_outputs(cells[from])[0] == Bit::Wire(cells[from]->FlipFlop_output));
        } else {
            lemma_register_found(cells, wire, from + 1);
        }
    }
}

/// A wire that moves is driven by its register, and read by the cell alone.
proof fn lemma_moving_wire(before: NetlistModel, plan: ForwardPlan, wire: u32)
    requires
        0 <= plan.index < before.cells.len(),
        is_combinational(before.cells[plan.index]),
        has_registered_inputs(before, plan.pins),
        forall|wire: u32|
            wire_count(cell_inputs(before.cells[plan.index]), wire) >= #[trigger] wire_count(
                plan.pins,
                wire,
            ),
        moves(plan, wire),
    ensures
        0 <= place_of(before, wire) < before.cells.len(),
        before.cells[place_of(before, wire)] is FlipFlop,
        before.cells[place_of(before, wire)]->FlipFlop_reset is Some,
        before.cells[place_of(before, wire)]->FlipFlop_output == wire,
        reset_register(before.cells[place_of(before, wire)]) == Some(
            source_register(before, wire),
        ),
        drives(before.cells[place_of(before, wire)], wire),
        place_of(before, wire) != plan.index,
        forall|i: int|
            0 <= i < before.cells.len() && i != plan.index ==> !(#[trigger] cell_inputs(
                before.cells[i],
            )).contains(Bit::Wire(wire)),
        !port_has(before.ports, wire),
{
    let pins = plan.pins;
    let wires = sorted_wires(pins);
    let all = cell_inputs(before.cells[plan.index]);
    let n = choose|n: int| 0 <= n < wires.len() && wires[n] == wire;
    assert(is_registered_input(before, pins, wires[0], wires[n]));
    lemma_register_found(before.cells, wire, 0);
    assert(wire_count(all, wire) >= wire_count(pins, wire));
    let reads = cells_inputs(before.cells);
    let shown = ports_bits(before.ports);
    lemma_wire_count_concat(reads, shown, wire);
    lemma_counts_whole(before.cells, wire, plan.index);
    assert forall|i: int| 0 <= i < before.cells.len() && i != plan.index implies !(
    #[trigger] cell_inputs(before.cells[i])).contains(Bit::Wire(wire)) by {
        let bits = cell_inputs(before.cells[i]);
        if bits.contains(Bit::Wire(wire)) {
            let k = choose|k: int| 0 <= k < bits.len() && bits[k] == Bit::Wire(wire);
            lemma_count_one(bits, wire, k);
            lemma_counts_apart(before.cells, wire, plan.index, i);
        }
    }
    if port_has(before.ports, wire) {
        let (p, k) = choose|p: int, k: int|
            0 <= p < before.ports.len() && 0 <= k < before.ports[p].bits.len()
                && #[trigger] before.ports[p].bits[k] == Bit::Wire(wire);
        let at = lemma_port_bits_at(before.ports, p, k);
        lemma_count_one(shown, wire, at);
    }
}

/// A wire that another cell or a port has is loaded.
proof fn lemma_loaded(before: NetlistModel, i: int, wire: u32)
    requires
        port_has(before.ports, wire) || (0 <= i < before.cells.len() && reads(
            before.cells[i],
            wire,
        )),
    ensures
        wire_fanout(before, wire) > 0,
{
    lemma_wire_count_concat(cells_inputs(before.cells), ports_bits(before.ports), wire);
    if port_has(before.ports, wire) {
        let (p, k) = choose|p: int, k: int|
            0 <= p < before.ports.len() && 0 <= k < before.ports[p].bits.len()
                && #[trigger] before.ports[p].bits[k] == Bit::Wire(wire);
        let at = lemma_port_bits_at(before.ports, p, k);
        lemma_count_one(ports_bits(before.ports), wire, at);
    } else {
        let bits = cell_inputs(before.cells[i]);
        let k = choose|k: int| 0 <= k < bits.len() && bits[k] == Bit::Wire(wire);
        lemma_count_one(bits, wire, k);
        lemma_counts_whole(before.cells, wire, i);
    }
}

pub proof fn lemma_without_at(cells: Seq<CellModel>, removed: Seq<usize>, i: int) -> (at: int)
    requires
        0 <= i < cells.len() <= usize::MAX,
        !removed.contains(i as usize),
    ensures
        0 <= at < without(cells, removed).len(),
        without(cells, removed)[at] == cells[i],
    decreases cells.len(),
{
    if i == cells.len() - 1 {
        without(cells.drop_last(), removed).len() as int
    } else {
        lemma_without_at(cells.drop_last(), removed, i)
    }
}

/// Where a cell that stays comes from.
pub open spec fn origin(cells: Seq<CellModel>, removed: Seq<usize>, at: int) -> int
    decreases cells.len(),
{
    if cells.len() == 0 {
        -1
    } else if at < without(cells.drop_last(), removed).len() {
        origin(cells.drop_last(), removed, at)
    } else {
        cells.len() - 1
    }
}

/// Where it comes from.
pub proof fn lemma_origin(cells: Seq<CellModel>, removed: Seq<usize>, at: int)
    requires
        cells.len() <= usize::MAX,
        0 <= at < without(cells, removed).len(),
    ensures
        0 <= origin(cells, removed, at) < cells.len(),
        !removed.contains(origin(cells, removed, at) as usize),
        without(cells, removed)[at] == cells[origin(cells, removed, at)],
    decreases cells.len(),
{
    if at < without(cells.drop_last(), removed).len() {
        lemma_origin(cells.drop_last(), removed, at);
    }
}

/// Cells that stay keep their order.
pub proof fn lemma_origins_apart(cells: Seq<CellModel>, removed: Seq<usize>, a: int, b: int)
    requires
        cells.len() <= usize::MAX,
        0 <= a < b < without(cells, removed).len(),
    ensures
        origin(cells, removed, a) < origin(cells, removed, b),
    decreases cells.len(),
{
    let rest = without(cells.drop_last(), removed);
    if b < rest.len() {
        lemma_origins_apart(cells.drop_last(), removed, a, b);
    } else {
        lemma_origin(cells.drop_last(), removed, a);
    }
}

/// Whether the cell at `i` stays.
spec fn is_kept(before: NetlistModel, plan: ForwardPlan, i: int) -> bool {
    0 <= i < before.cells.len() && i != plan.index && !register_indices(
        before,
        moving_wires(plan),
    ).contains(i as usize)
}

/// Where a cell that stays stands.
proof fn lemma_kept_to(before: NetlistModel, after: NetlistModel, plan: ForwardPlan, i: int) -> (j:
    int)
    requires
        is_moved_forward(before, after, plan),
        is_kept(before, plan, i),
    ensures
        0 <= j < kept_cells(before, plan).len(),
        j != plan.place,
        after.cells[j] == before.cells[i],
{
    let indices = register_indices(before, moving_wires(plan));
    let j = lemma_without_place(before.cells, indices, i);
    assert(j != plan.place);
    assert(after.cells[j] == kept_cells(before, plan)[j]);
    j
}

/// As `lemma_without_at`, with the origin.
proof fn lemma_without_place(cells: Seq<CellModel>, removed: Seq<usize>, i: int) -> (at: int)
    requires
        0 <= i < cells.len() <= usize::MAX,
        !removed.contains(i as usize),
    ensures
        0 <= at < without(cells, removed).len(),
        without(cells, removed)[at] == cells[i],
        origin(cells, removed, at) == i,
    decreases cells.len(),
{
    if i == cells.len() - 1 {
        without(cells.drop_last(), removed).len() as int
    } else {
        lemma_without_place(cells.drop_last(), removed, i)
    }
}

/// Where a cell that stays comes from.
proof fn lemma_kept_from(
    before: NetlistModel,
    after: NetlistModel,
    plan: ForwardPlan,
    j: int,
) -> (i: int)
    requires
        is_moved_forward(before, after, plan),
        0 <= j < kept_cells(before, plan).len(),
        j != plan.place,
    ensures
        is_kept(before, plan, i),
        after.cells[j] == before.cells[i],
        i == origin(before.cells, register_indices(before, moving_wires(plan)), j),
{
    let indices = register_indices(before, moving_wires(plan));
    lemma_origin(before.cells, indices, j);
    if j < plan.place {
        lemma_origins_apart(before.cells, indices, j, plan.place);
    } else {
        lemma_origins_apart(before.cells, indices, plan.place, j);
    }
    assert(after.cells[j] == kept_cells(before, plan)[j]);
    origin(before.cells, indices, j)
}

/// A register that goes stands behind a wire that moves.
proof fn lemma_gone_from(before: NetlistModel, plan: ForwardPlan, i: int) -> (wire: u32)
    requires
        0 <= i < before.cells.len() <= usize::MAX,
        0 <= plan.index < before.cells.len(),
        is_combinational(before.cells[plan.index]),
        has_registered_inputs(before, plan.pins),
        forall|wire: u32|
            wire_count(cell_inputs(before.cells[plan.index]), wire) >= #[trigger] wire_count(
                plan.pins,
                wire,
            ),
        i != plan.index,
        !is_kept(before, plan, i),
    ensures
        moves(plan, wire),
        place_of(before, wire) == i,
{
    let wires = moving_wires(plan);
    let indices = register_indices(before, wires);
    let n = choose|n: int| 0 <= n < indices.len() && indices[n] == i as usize;
    assert(wires.contains(wires[n]));
    lemma_moving_wire(before, plan, wires[n]);
    wires[n]
}

/// A cell that stays has nothing to do with the wires that move.
proof fn lemma_kept_clear(before: NetlistModel, after: NetlistModel, plan: ForwardPlan, i: int, wire: u32)
    requires
        is_well_driven(before),
        is_moved_forward(before, after, plan),
        is_kept(before, plan, i),
        touches(before.cells[i], wire),
    ensures
        !moves(plan, wire),
        drives(before.cells[i], wire) ==> !drives(before.cells[plan.index], wire),
{
    let wires = moving_wires(plan);
    let indices = register_indices(before, wires);
    if moves(plan, wire) {
        lemma_moving_wire(before, plan, wire);
        assert(drives(before.cells[i], wire));
        assert(i == place_of(before, wire));
        let n = choose|n: int| 0 <= n < wires.len() && wires[n] == wire;
        assert(indices[n] == i as usize);
    }
}

/// What a register that moves reads is old and does not move.
proof fn lemma_source_reads(before: NetlistModel, after: NetlistModel, plan: ForwardPlan, source: u32, wire: u32)
    requires
        is_well_driven(before),
        is_moved_forward(before, after, plan),
        moves(plan, source),
        reads(before.cells[place_of(before, source)], wire),
    ensures
        !moves(plan, wire),
        wire < plan.first,
        is_sourced(before, wire),
        wire_fanout(before, wire) > 0,
{
    lemma_moving_wire(before, plan, source);
    let place = place_of(before, source);
    assert(touches(before.cells[place], wire));
    lemma_loaded(before, place, wire);
    if moves(plan, wire) {
        lemma_moving_wire(before, plan, wire);
    }
}

/// What the moved cell reads is old and does not move.
proof fn lemma_moved_reads(before: NetlistModel, after: NetlistModel, plan: ForwardPlan, wire: u32)
    requires
        is_well_driven(before),
        is_moved_forward(before, after, plan),
        reads(after.cells[plan.place], wire),
    ensures
        !moves(plan, wire),
        wire < plan.first,
        is_sourced(before, wire),
        wire_fanout(before, wire) > 0,
{
    let source = choose|source: u32| #[trigger]
        moves(plan, source) && source_register(before, source).data == Bit::Wire(wire);
    lemma_moving_wire(before, plan, source);
    let cell = before.cells[place_of(before, source)];
    assert(cell_inputs(cell)[0] == Bit::Wire(wire));
    assert(reads(cell, wire));
    lemma_source_reads(before, after, plan, source, wire);
}

/// What a new register reads besides its data is old and does not move.
proof fn lemma_new_reads(
    before: NetlistModel,
    after: NetlistModel,
    plan: ForwardPlan,
    j: int,
    p: int,
    wire: u32,
)
    requires
        is_well_driven(before),
        is_moved_forward(before, after, plan),
        is_registered_at(before, after, plan, p, j),
        reads(after.cells[j], wire),
    ensures
        Bit::Wire(wire) == cell_outputs(after.cells[plan.place])[p] || (!moves(plan, wire) && wire
            < plan.first && is_sourced(before, wire) && wire_fanout(before, wire) > 0),
{
    let wires = moving_wires(plan);
    assert(wires.contains(wires[0]));
    assert(moves(plan, wires[0]));
    lemma_moving_wire(before, plan, wires[0]);
    let source = before.cells[place_of(before, wires[0])];
    let theirs = cell_inputs(source);
    let ours = cell_inputs(after.cells[j]);
    let k = choose|k: int| 0 <= k < ours.len() && ours[k] == Bit::Wire(wire);
    if k > 0 {
        assert(ours[k] == theirs[k]);
        assert(theirs.contains(theirs[k]));
        assert(reads(source, wire));
        lemma_source_reads(before, after, plan, wires[0], wire);
    } else {
        assert(ours[0] == after.cells[j]->FlipFlop_data);
    }
}

/// What was sourced still is, where it is loaded and does not move.
proof fn lemma_still_sourced(
    before: NetlistModel,
    after: NetlistModel,
    plan: ForwardPlan,
    wire: u32,
)
    requires
        is_well_driven(before),
        is_moved_forward(before, after, plan),
        is_sourced(before, wire),
        wire_fanout(before, wire) > 0,
        !moves(plan, wire),
    ensures
        is_sourced(after, wire),
{
    if !port_has(before.ports, wire) {
        let i = choose|i: int|
            0 <= i < before.cells.len() && #[trigger] drives(before.cells[i], wire);
        if i == plan.index {
            let outputs = cell_outputs(before.cells[i]);
            let p = choose|p: int| 0 <= p < outputs.len() && outputs[p] == Bit::Wire(wire);
            assert(wire_fanout(before, cell_outputs(before.cells[plan.index])[p]->Wire_0) > 0);
            let j = choose|j: int| #[trigger] is_registered_at(before, after, plan, p, j);
            assert(cell_outputs(after.cells[j])[0] == Bit::Wire(wire));
            assert(drives(after.cells[j], wire));
        } else if is_kept(before, plan, i) {
            let j = lemma_kept_to(before, after, plan, i);
            assert(drives(after.cells[j], wire));
        } else {
            let source = lemma_gone_from(before, plan, i);
            lemma_moving_wire(before, plan, source);
            assert(cell_outputs(before.cells[i]) =~= seq![Bit::Wire(source)]);
        }
    }
}

/// Which wires a cell after the move drives.
proof fn lemma_forward_drives(
    before: NetlistModel,
    after: NetlistModel,
    plan: ForwardPlan,
    j: int,
    wire: u32,
)
    requires
        is_well_driven(before),
        is_moved_forward(before, after, plan),
        0 <= j < after.cells.len(),
        drives(after.cells[j], wire),
    ensures
        wire >= plan.first ==> j == plan.place,
        wire < plan.first ==> j != plan.place,
        wire < plan.first && drives(before.cells[plan.index], wire) ==> j >= kept_cells(
            before,
            plan,
        ).len() && after.cells[j]->FlipFlop_output == wire,
        wire < plan.first && !drives(before.cells[plan.index], wire) ==> j < kept_cells(
            before,
            plan,
        ).len() && is_kept(
            before,
            plan,
            origin(before.cells, register_indices(before, moving_wires(plan)), j),
        ) && drives(
            before.cells[origin(
                before.cells,
                register_indices(before, moving_wires(plan)),
                j,
            )],
            wire,
        ),
{
    if j != plan.place {
        if j < kept_cells(before, plan).len() {
            let i = lemma_kept_from(before, after, plan, j);
            assert(drives(before.cells[i], wire));
            assert(touches(before.cells[i], wire));
            lemma_kept_clear(before, after, plan, i, wire);
        } else {
            let p = choose|p: int| is_new_register(before, after, plan, after.cells[j], p);
            let outputs = cell_outputs(before.cells[plan.index]);
            assert(cell_outputs(after.cells[j]) =~= seq![
                Bit::Wire(after.cells[j]->FlipFlop_output),
            ]);
            assert(outputs.contains(outputs[p]));
            assert(drives(before.cells[plan.index], wire));
            assert(touches(before.cells[plan.index], wire));
        }
    }
}

/// Moving forward leaves the netlist wired up.
#[verifier::rlimit(40)]
pub proof fn lemma_moved_forward_keeps_wiring(
    before: NetlistModel,
    after: NetlistModel,
    plan: ForwardPlan,
)
    requires
        is_well_driven(before),
        is_moved_forward(before, after, plan),
    ensures
        is_well_driven(after),
{
    let indices = register_indices(before, moving_wires(plan));
    assert forall|i: int, j: int, wire: u32|
        0 <= i < after.cells.len() && 0 <= j < after.cells.len() && #[trigger] drives(
            after.cells[i],
            wire,
        ) && #[trigger] drives(after.cells[j], wire) implies i == j by {
        lemma_forward_drives(before, after, plan, i, wire);
        lemma_forward_drives(before, after, plan, j, wire);
        if i < j && wire < plan.first && !drives(before.cells[plan.index], wire) {
            lemma_origins_apart(before.cells, indices, i, j);
        }
        if j < i && wire < plan.first && !drives(before.cells[plan.index], wire) {
            lemma_origins_apart(before.cells, indices, j, i);
        }
    }
    assert forall|j: int| 0 <= j < after.cells.len() implies drives_apart(
        #[trigger] after.cells[j],
    ) && is_driver(after, after.cells[j]) by {
        lemma_forward_driver(before, after, plan, j);
    }
    assert forall|j: int, wire: u32|
        0 <= j < after.cells.len() && #[trigger] reads(
            after.cells[j],
            wire,
        ) implies is_sourced(after, wire) by {
        lemma_forward_reads(before, after, plan, j, wire);
    }
}

proof fn lemma_forward_driver(
    before: NetlistModel,
    after: NetlistModel,
    plan: ForwardPlan,
    j: int,
)
    requires
        is_well_driven(before),
        is_moved_forward(before, after, plan),
        0 <= j < after.cells.len(),
    ensures
        drives_apart(after.cells[j]),
        is_driver(after, after.cells[j]),
{
    assert(is_driver(before, before.cells[plan.index]));
    if j == plan.place {
        assert forall|wire: u32| #[trigger] drives(after.cells[j], wire) implies wire > 0
            && !port_inputs(after).contains(Bit::Wire(wire)) by {
            lemma_port_inputs_below(before, plan.first as int, wire);
        }
    } else if j < kept_cells(before, plan).len() {
        let i = lemma_kept_from(before, after, plan, j);
        assert(drives_apart(before.cells[i]));
        assert(is_driver(before, before.cells[i]));
    } else {
        let p = choose|p: int| is_new_register(before, after, plan, after.cells[j], p);
        let outputs = cell_outputs(before.cells[plan.index]);
        assert(cell_outputs(after.cells[j]) =~= seq![
            Bit::Wire(after.cells[j]->FlipFlop_output),
        ]);
        assert(outputs.contains(outputs[p]));
        assert(drives(before.cells[plan.index], after.cells[j]->FlipFlop_output));
    }
}

proof fn lemma_forward_reads(
    before: NetlistModel,
    after: NetlistModel,
    plan: ForwardPlan,
    j: int,
    wire: u32,
)
    requires
        is_well_driven(before),
        is_moved_forward(before, after, plan),
        0 <= j < after.cells.len(),
        reads(after.cells[j], wire),
    ensures
        is_sourced(after, wire),
{
    if j == plan.place {
        lemma_moved_reads(before, after, plan, wire);
        lemma_still_sourced(before, after, plan, wire);
    } else if j < kept_cells(before, plan).len() {
        let i = lemma_kept_from(before, after, plan, j);
        assert(reads(before.cells[i], wire));
        assert(touches(before.cells[i], wire));
        lemma_loaded(before, i, wire);
        lemma_kept_clear(before, after, plan, i, wire);
        lemma_still_sourced(before, after, plan, wire);
    } else {
        let p = choose|p: int| is_new_register(before, after, plan, after.cells[j], p);
        assert(is_registered_at(before, after, plan, p, j));
        lemma_new_reads(before, after, plan, j, p, wire);
        let outputs = cell_outputs(after.cells[plan.place]);
        if Bit::Wire(wire) == outputs[p] {
            assert(outputs.contains(outputs[p]));
            assert(drives(after.cells[plan.place], wire));
        } else {
            lemma_still_sourced(before, after, plan, wire);
        }
    }
}

/// A run with the states of the registers that moved beside it.
spec fn with_states(
    before: NetlistModel,
    plan: ForwardPlan,
    run: spec_fn(nat) -> spec_fn(u32) -> bool,
    t: nat,
) -> spec_fn(u32) -> bool {
    |wire: u32|
        if moves(plan, wire) {
            state_beside(run, before.cells[place_of(before, wire)], t)
        } else {
            run(t)(wire)
        }
}

/// A run with the registers and the cell back in place.
spec fn unforwarded_run(
    before: NetlistModel,
    plan: ForwardPlan,
    run: spec_fn(nat) -> spec_fn(u32) -> bool,
) -> spec_fn(nat) -> spec_fn(u32) -> bool {
    |t: nat|
        |wire: u32|
            if drives(before.cells[plan.index], wire) {
                driven_value(with_states(before, plan, run, t), before.cells[plan.index], wire)
            } else {
                with_states(before, plan, run, t)(wire)
            }
}

/// The registers beside a run start and step.
proof fn lemma_beside_steps(
    before: NetlistModel,
    after: NetlistModel,
    plan: ForwardPlan,
    run: spec_fn(nat) -> spec_fn(u32) -> bool,
    t: nat,
)
    requires
        is_well_driven(before),
        is_moved_forward(before, after, plan),
    ensures
        sources_start(with_states(before, plan, run, 0), before, plan),
        sources_step(
            with_states(before, plan, run, t),
            with_states(before, plan, run, t + 1),
            before,
            plan,
        ),
{
    let start = with_states(before, plan, run, 0);
    let now = with_states(before, plan, run, t);
    let next = with_states(before, plan, run, t + 1);
    assert forall|wire: u32| #[trigger] moves(plan, wire) implies start(wire)
        == source_register(before, wire).reset.value && next(wire) == state_after(
        now,
        source_register(before, wire).enable,
        Some(source_register(before, wire).reset),
        now(wire),
        bit_value(now, source_register(before, wire).data),
    ) by {
        lemma_moving_wire(before, plan, wire);
        let cell = before.cells[place_of(before, wire)];
        let pins = cell_inputs(cell);
        assert forall|k: int| 0 <= k < pins.len() implies bit_value(now, #[trigger] pins[k])
            == bit_value(run(t), pins[k]) by {
            if let Bit::Wire(other) = pins[k] {
                assert(pins.contains(pins[k]));
                assert(reads(cell, other));
                lemma_source_reads(before, after, plan, wire, other);
            }
        }
        lemma_state_beside(run, start, now, next, cell, t);
    }
}

/// A new register's output carries what the cell makes of the old states.
#[verifier::rlimit(40)]
proof fn lemma_outputs_kept(
    before: NetlistModel,
    after: NetlistModel,
    plan: ForwardPlan,
    run: spec_fn(nat) -> spec_fn(u32) -> bool,
    p: int,
    j: int,
    t: nat,
)
    requires
        is_well_driven(before),
        is_moved_forward(before, after, plan),
        carries_outputs(before, after, plan),
        is_run(run, after.cells),
        is_registered_at(before, after, plan, p, j),
    ensures
        run(t)(cell_outputs(before.cells[plan.index])[p]->Wire_0) == driven_value(
            with_states(before, plan, run, t),
            before.cells[plan.index],
            cell_outputs(before.cells[plan.index])[p]->Wire_0,
        ),
    decreases t,
{
    let cell = before.cells[plan.index];
    let moved = after.cells[plan.place];
    let output = cell_outputs(cell)[p]->Wire_0;
    let data = cell_outputs(moved)[p]->Wire_0;
    reveal(carries_outputs);
    if t == 0 {
        lemma_beside_steps(before, after, plan, run, 0);
        assert(cell_starts(run(0), after.cells[j]));
        assert(sources_start(with_states(before, plan, run, 0), before, plan));
    } else {
        let last = (t - 1) as nat;
        lemma_outputs_kept(before, after, plan, run, p, j, last);
        lemma_beside_steps(before, after, plan, run, last);
        let now = with_states(before, plan, run, last);
        assert(sources_step(now, with_states(before, plan, run, t), before, plan));
        assert(cells_agree(run(last), after.cells));
        assert(cells_step(run(last), run(last + 1), after.cells));
        assert(cell_agrees(run(last), moved));
        assert(cell_steps(run(last), run(t), after.cells[j]));
        lemma_moved_value(before, after, plan, run(last), now, data);
        lemma_outputs_are_wires(moved, p);
        assert(cell_outputs(moved).contains(cell_outputs(moved)[p]));
        lemma_agrees_by_wire(run(last), moved);
        assert(run(last)(data) == driven_value(run(last), moved, data));
        lemma_new_state(before, after, plan, run(last), now, p, j, data);
    }
}

/// The moved cell does not see the wires that moved.
proof fn lemma_moved_value(
    before: NetlistModel,
    after: NetlistModel,
    plan: ForwardPlan,
    a: spec_fn(u32) -> bool,
    b: spec_fn(u32) -> bool,
    data: u32,
)
    requires
        is_well_driven(before),
        is_moved_forward(before, after, plan),
        forall|wire: u32| !moves(plan, wire) && wire < plan.first ==> a(wire) == #[trigger] b(wire),
    ensures
        driven_value(a, after.cells[plan.place], data) == driven_value(
            b,
            after.cells[plan.place],
            data,
        ),
{
    let moved = after.cells[plan.place];
    let pins = cell_inputs(moved);
    assert forall|k: int| 0 <= k < pins.len() implies bit_value(a, #[trigger] pins[k])
        == bit_value(b, pins[k]) by {
        if let Bit::Wire(wire) = pins[k] {
            assert(pins.contains(pins[k]));
            assert(reads(moved, wire));
            lemma_moved_reads(before, after, plan, wire);
            assert(a(wire) == b(wire));
        }
    }
    lemma_driven_same(a, b, moved, data);
}

/// The controls of a new register carry the same beside the run.
proof fn lemma_new_state(
    before: NetlistModel,
    after: NetlistModel,
    plan: ForwardPlan,
    a: spec_fn(u32) -> bool,
    b: spec_fn(u32) -> bool,
    p: int,
    j: int,
    data: u32,
)
    requires
        is_well_driven(before),
        is_moved_forward(before, after, plan),
        is_registered_at(before, after, plan, p, j),
        Bit::Wire(data) == cell_outputs(after.cells[plan.place])[p],
        forall|wire: u32| !moves(plan, wire) && wire < plan.first ==> a(wire) == #[trigger] b(wire),
    ensures
        forall|state: bool, value: bool| #[trigger]
            state_after(
                a,
                lead_of(before, plan).enable,
                after.cells[j]->FlipFlop_reset,
                state,
                value,
            ) == state_after(
                b,
                lead_of(before, plan).enable,
                after.cells[j]->FlipFlop_reset,
                state,
                value,
            ),
{
    let cell = after.cells[j];
    let pins = cell_inputs(cell);
    assert forall|k: int| 1 <= k < pins.len() implies bit_value(a, #[trigger] pins[k])
        == bit_value(b, pins[k]) by {
        if let Bit::Wire(wire) = pins[k] {
            assert(pins.contains(pins[k]));
            assert(reads(cell, wire));
            let outputs = cell_outputs(after.cells[plan.place]);
            assert(outputs.contains(outputs[p]));
            assert(drives(after.cells[plan.place], data));
            lemma_control_old(before, after, plan, p, j, k, wire);
            assert(a(wire) == b(wire));
        }
    }
    reveal(state_after);
    let reset = cell->FlipFlop_reset->0;
    if let Some(control) = cell->FlipFlop_enable {
        assert(pins[2] == control.signal);
        assert(pins[3] == reset.signal);
        assert(bit_value(a, pins[2]) == bit_value(b, pins[2]));
        assert(bit_value(a, pins[3]) == bit_value(b, pins[3]));
    } else {
        assert(pins[2] == reset.signal);
        assert(bit_value(a, pins[2]) == bit_value(b, pins[2]));
    }
}

proof fn lemma_control_old(
    before: NetlistModel,
    after: NetlistModel,
    plan: ForwardPlan,
    p: int,
    j: int,
    k: int,
    wire: u32,
)
    requires
        is_well_driven(before),
        is_moved_forward(before, after, plan),
        is_registered_at(before, after, plan, p, j),
        1 <= k < cell_inputs(after.cells[j]).len(),
        cell_inputs(after.cells[j])[k] == Bit::Wire(wire),
    ensures
        !moves(plan, wire),
        wire < plan.first,
{
    let wires = moving_wires(plan);
    assert(wires.contains(wires[0]));
    assert(moves(plan, wires[0]));
    lemma_moving_wire(before, plan, wires[0]);
    let source = before.cells[place_of(before, wires[0])];
    let theirs = cell_inputs(source);
    assert(cell_inputs(after.cells[j])[k] == theirs[k]);
    assert(theirs.contains(theirs[k]));
    assert(reads(source, wire));
    lemma_source_reads(before, after, plan, wires[0], wire);
}

/// A loaded wire that does not move carries the same.
proof fn lemma_unforwarded_wire(
    before: NetlistModel,
    after: NetlistModel,
    plan: ForwardPlan,
    run: spec_fn(nat) -> spec_fn(u32) -> bool,
    wire: u32,
    t: nat,
)
    requires
        is_well_driven(before),
        is_moved_forward(before, after, plan),
        carries_outputs(before, after, plan),
        is_run(run, after.cells),
        wire_fanout(before, wire) > 0,
        !moves(plan, wire),
    ensures
        unforwarded_run(before, plan, run)(t)(wire) == run(t)(wire),
{
    let cell = before.cells[plan.index];
    if drives(cell, wire) {
        let outputs = cell_outputs(cell);
        let p = choose|p: int| 0 <= p < outputs.len() && outputs[p] == Bit::Wire(wire);
        assert(wire_fanout(before, cell_outputs(before.cells[plan.index])[p]->Wire_0) > 0);
        let j = choose|j: int| #[trigger] is_registered_at(before, after, plan, p, j);
        lemma_outputs_kept(before, after, plan, run, p, j, t);
    }
}

/// A cell that stays sees the same around it.
proof fn lemma_unforwarded_around(
    before: NetlistModel,
    after: NetlistModel,
    plan: ForwardPlan,
    run: spec_fn(nat) -> spec_fn(u32) -> bool,
    i: int,
    t: nat,
)
    requires
        is_well_driven(before),
        is_moved_forward(before, after, plan),
        carries_outputs(before, after, plan),
        is_run(run, after.cells),
        is_kept(before, plan, i),
    ensures
        same_around(unforwarded_run(before, plan, run)(t), run(t), before.cells[i]),
{
    let cell = before.cells[i];
    let left = unforwarded_run(before, plan, run);
    assert forall|wire: u32| #[trigger] touches(cell, wire) implies left(t)(wire) == run(t)(
        wire,
    ) by {
        lemma_kept_clear(before, after, plan, i, wire);
        if reads(cell, wire) {
            lemma_loaded(before, i, wire);
            lemma_unforwarded_wire(before, after, plan, run, wire, t);
        }
    }
}

/// Every cell holds of the run with registers and cell back in place.
#[verifier::rlimit(60)]
proof fn lemma_unforwarded_cell(
    before: NetlistModel,
    after: NetlistModel,
    plan: ForwardPlan,
    run: spec_fn(nat) -> spec_fn(u32) -> bool,
    i: int,
    t: nat,
)
    requires
        is_well_driven(before),
        is_moved_forward(before, after, plan),
        carries_outputs(before, after, plan),
        is_run(run, after.cells),
        0 <= i < before.cells.len(),
    ensures
        ({
            let left = unforwarded_run(before, plan, run);
            &&& cell_starts(left(0), before.cells[i])
            &&& cell_agrees(left(t), before.cells[i])
            &&& cell_steps(left(t), left(t + 1), before.cells[i])
            &&& is_box(before.cells[i]) ==> exists|j: int|
                0 <= j < after.cells.len() && same_box(
                    left(t),
                    before.cells[i],
                    run(t),
                    #[trigger] after.cells[j],
                )
        }),
{
    let left = unforwarded_run(before, plan, run);
    let cell = before.cells[i];
    if i == plan.index {
        lemma_unforwarded_own(before, after, plan, run, t);
    } else if is_kept(before, plan, i) {
        let j = lemma_kept_to(before, after, plan, i);
        lemma_unforwarded_around(before, after, plan, run, i, 0);
        lemma_unforwarded_around(before, after, plan, run, i, t);
        lemma_unforwarded_around(before, after, plan, run, i, t + 1);
        lemma_local(left(t), run(t), left(t + 1), run(t + 1), cell);
        lemma_local(left(0), run(0), left(t), run(t), cell);
        assert(cells_agree(run(t), after.cells));
        assert(cells_step(run(t), run(t + 1), after.cells));
        assert(cell_agrees(run(t), after.cells[j]));
        assert(cell_steps(run(t), run(t + 1), after.cells[j]));
        assert(cell_starts(run(0), after.cells[j]));
        if is_box(cell) {
            assert(same_box(left(t), cell, run(t), after.cells[j]));
        }
    } else {
        lemma_cells_counted(before);
        let wire = lemma_gone_from(before, plan, i);
        lemma_unforwarded_register(before, after, plan, run, wire, t);
    }
}

proof fn lemma_unforwarded_register(
    before: NetlistModel,
    after: NetlistModel,
    plan: ForwardPlan,
    run: spec_fn(nat) -> spec_fn(u32) -> bool,
    wire: u32,
    t: nat,
)
    requires
        is_well_driven(before),
        is_moved_forward(before, after, plan),
        carries_outputs(before, after, plan),
        is_run(run, after.cells),
        moves(plan, wire),
    ensures
        ({
            let left = unforwarded_run(before, plan, run);
            let cell = before.cells[place_of(before, wire)];
            &&& cell is FlipFlop
            &&& cell_starts(left(0), cell)
            &&& cell_steps(left(t), left(t + 1), cell)
        }),
{
    let left = unforwarded_run(before, plan, run);
    lemma_moving_wire(before, plan, wire);
    let cell = before.cells[place_of(before, wire)];
    let pins = cell_inputs(cell);
    assert(!drives(before.cells[plan.index], wire)) by {
        assert(drives(cell, wire));
    }
    assert(left(t)(wire) == state_beside(run, cell, t));
    assert(left(t + 1)(wire) == state_beside(run, cell, t + 1));
    assert(left(0)(wire) == state_beside(run, cell, 0));
    assert forall|k: int| 0 <= k < pins.len() implies bit_value(left(t), #[trigger] pins[k])
        == bit_value(run(t), pins[k]) by {
        if let Bit::Wire(other) = pins[k] {
            assert(pins.contains(pins[k]));
            assert(reads(cell, other));
            lemma_source_reads(before, after, plan, wire, other);
            lemma_unforwarded_wire(before, after, plan, run, other, t);
        }
    }
    lemma_state_beside(run, left(0), left(t), left(t + 1), cell, t);
}

proof fn lemma_unforwarded_own(
    before: NetlistModel,
    after: NetlistModel,
    plan: ForwardPlan,
    run: spec_fn(nat) -> spec_fn(u32) -> bool,
    t: nat,
)
    requires
        is_well_driven(before),
        is_moved_forward(before, after, plan),
    ensures
        cell_agrees(unforwarded_run(before, plan, run)(t), before.cells[plan.index]),
{
    let left = unforwarded_run(before, plan, run)(t);
    let beside = with_states(before, plan, run, t);
    let cell = before.cells[plan.index];
    lemma_sorted_wires(plan.pins);
    assert forall|bit: Bit| #[trigger] plan.pins.contains(bit) implies bit_value(left, bit)
        == bit_value(beside, bit) by {
        if let Bit::Wire(wire) = bit {
            assert(moves(plan, wire));
            lemma_moving_wire(before, plan, wire);
            assert(drives(before.cells[place_of(before, wire)], wire));
            assert(!drives(cell, wire));
        }
    }
    assert(drives_apart(cell));
    assert forall|wire: u32| drives(cell, wire) implies #[trigger] left(wire) == driven_value(
        left,
        cell,
        wire,
    ) by {
        assert(left(wire) == driven_value(beside, cell, wire));
        assert(driven_value(left, cell, wire) == driven_value(beside, cell, wire));
    }
    lemma_agrees_by_wire(left, cell);
}

/// Moving forward shows no more.
#[verifier::rlimit(40)]
proof fn lemma_moved_forward_shows_no_more(
    before: NetlistModel,
    after: NetlistModel,
    plan: ForwardPlan,
)
    requires
        is_well_driven(before),
        is_moved_forward(before, after, plan),
        carries_outputs(before, after, plan),
    ensures
        shows_no_more(before, after),
{
    reveal(shows_no_more);
    assert forall|run: spec_fn(nat) -> spec_fn(u32) -> bool| #[trigger]
        is_run(run, after.cells) implies exists|left: spec_fn(nat) -> spec_fn(u32) -> bool|
        is_run(left, before.cells) && #[trigger] shows_same(left, before, run, after) by {
        let left = unforwarded_run(before, plan, run);
        assert forall|i: int, t: nat|
            #![trigger before.cells[i], left(t)]
            0 <= i < before.cells.len() implies (t == 0 ==> cell_starts(left(t), before.cells[i]))
            && cell_agrees(left(t), before.cells[i]) && cell_steps(
            left(t),
            left(t + 1),
            before.cells[i],
        ) by {
            lemma_unforwarded_cell(before, after, plan, run, i, t);
        }
        lemma_is_run(left, before.cells);
        assert forall|t: nat|
            same_ports(#[trigger] left(t), before.ports, run(t), after.ports) && same_boxes(
                left(t),
                before.cells,
                run(t),
                after.cells,
            ) by {
            lemma_unforwarded_shows(before, after, plan, run, t);
        }
        assert(shows_same(left, before, run, after));
    }
}

proof fn lemma_unforwarded_shows(
    before: NetlistModel,
    after: NetlistModel,
    plan: ForwardPlan,
    run: spec_fn(nat) -> spec_fn(u32) -> bool,
    t: nat,
)
    requires
        is_well_driven(before),
        is_moved_forward(before, after, plan),
        carries_outputs(before, after, plan),
        is_run(run, after.cells),
    ensures
        same_ports(unforwarded_run(before, plan, run)(t), before.ports, run(t), after.ports),
        same_boxes(unforwarded_run(before, plan, run)(t), before.cells, run(t), after.cells),
{
    let left = unforwarded_run(before, plan, run);
    let ports = before.ports;
    assert forall|p: int, k: int|
        0 <= p < ports.len() && 0 <= k < ports[p].bits.len() implies bit_value(
        left(t),
        #[trigger] ports[p].bits[k],
    ) == bit_value(run(t), ports[p].bits[k]) by {
        if let Bit::Wire(wire) = ports[p].bits[k] {
            assert(port_has(ports, wire));
            lemma_loaded(before, 0, wire);
            if moves(plan, wire) {
                lemma_moving_wire(before, plan, wire);
            }
            lemma_unforwarded_wire(before, after, plan, run, wire, t);
        }
    }
    assert forall|i: int|
        0 <= i < before.cells.len() && is_box(#[trigger] before.cells[i]) implies exists|j: int|
        0 <= j < after.cells.len() && same_box(
            left(t),
            before.cells[i],
            run(t),
            #[trigger] after.cells[j],
        ) by {
        lemma_unforwarded_cell(before, after, plan, run, i, t);
    }
}

/// A run with the moved cell in place.
spec fn forwarded_run(
    after: NetlistModel,
    plan: ForwardPlan,
    left: spec_fn(nat) -> spec_fn(u32) -> bool,
) -> spec_fn(nat) -> spec_fn(u32) -> bool {
    |t: nat|
        |wire: u32|
            if drives(after.cells[plan.place], wire) {
                driven_value(left(t), after.cells[plan.place], wire)
            } else {
                left(t)(wire)
            }
}

/// A run steps the registers that move.
proof fn lemma_run_steps_sources(
    before: NetlistModel,
    after: NetlistModel,
    plan: ForwardPlan,
    left: spec_fn(nat) -> spec_fn(u32) -> bool,
    t: nat,
)
    requires
        is_well_driven(before),
        is_moved_forward(before, after, plan),
        is_run(left, before.cells),
    ensures
        sources_start(left(0), before, plan),
        sources_step(left(t), left(t + 1), before, plan),
{
    assert forall|wire: u32| #[trigger] moves(plan, wire) implies left(0)(wire)
        == source_register(before, wire).reset.value && left(t + 1)(wire) == state_after(
        left(t),
        source_register(before, wire).enable,
        Some(source_register(before, wire).reset),
        left(t)(wire),
        bit_value(left(t), source_register(before, wire).data),
    ) by {
        lemma_moving_wire(before, plan, wire);
        let i = place_of(before, wire);
        assert(cells_step(left(t), left(t + 1), before.cells));
        assert(cell_starts(left(0), before.cells[i]));
        assert(cell_steps(left(t), left(t + 1), before.cells[i]));
    }
}

/// Every cell after the move holds of the run with the moved cell in place.
#[verifier::rlimit(60)]
proof fn lemma_forwarded_holds(
    before: NetlistModel,
    after: NetlistModel,
    plan: ForwardPlan,
    left: spec_fn(nat) -> spec_fn(u32) -> bool,
    j: int,
    t: nat,
)
    requires
        is_well_driven(before),
        is_moved_forward(before, after, plan),
        carries_outputs(before, after, plan),
        is_run(left, before.cells),
        0 <= j < after.cells.len(),
    ensures
        ({
            let right = forwarded_run(after, plan, left);
            &&& t == 0 ==> cell_starts(right(t), after.cells[j])
            &&& cell_agrees(right(t), after.cells[j])
            &&& cell_steps(right(t), right(t + 1), after.cells[j])
        }),
{
    let right = forwarded_run(after, plan, left);
    let moved = after.cells[plan.place];
    assert forall|wire: u32, u: nat| wire < plan.first implies #[trigger] right(u)(wire) == left(
        u,
    )(wire) by {}
    if j == plan.place {
        let pins = cell_inputs(moved);
        assert forall|k: int| 0 <= k < pins.len() implies bit_value(right(t), #[trigger] pins[k])
            == bit_value(left(t), pins[k]) by {
            if let Bit::Wire(wire) = pins[k] {
                assert(pins.contains(pins[k]));
                assert(reads(moved, wire));
                lemma_moved_reads(before, after, plan, wire);
            }
        }
        assert forall|wire: u32| drives(moved, wire) implies #[trigger] right(t)(wire)
            == driven_value(right(t), moved, wire) by {
            lemma_driven_same(right(t), left(t), moved, wire);
        }
        lemma_agrees_by_wire(right(t), moved);
    } else if j < kept_cells(before, plan).len() {
        let i = lemma_kept_from(before, after, plan, j);
        let cell = before.cells[i];
        assert forall|wire: u32, u: nat| touches(cell, wire) implies left(u)(wire)
            == #[trigger] right(u)(wire) by {
            assert(touches(before.cells[i], wire));
        }
        assert(same_around(left(t), right(t), cell));
        assert(same_around(left(t + 1), right(t + 1), cell));
        lemma_local(left(t), right(t), left(t + 1), right(t + 1), cell);
        assert(cells_agree(left(t), before.cells));
        assert(cells_step(left(t), left(t + 1), before.cells));
        assert(cell_agrees(left(t), before.cells[i]));
        assert(cell_steps(left(t), left(t + 1), before.cells[i]));
        assert(cell_starts(left(0), before.cells[i]));
    } else {
        let p = choose|p: int| is_new_register(before, after, plan, after.cells[j], p);
        assert(is_registered_at(before, after, plan, p, j));
        lemma_forwarded_register(before, after, plan, left, p, j, t);
    }
}

#[verifier::rlimit(40)]
proof fn lemma_forwarded_register(
    before: NetlistModel,
    after: NetlistModel,
    plan: ForwardPlan,
    left: spec_fn(nat) -> spec_fn(u32) -> bool,
    p: int,
    j: int,
    t: nat,
)
    requires
        is_well_driven(before),
        is_moved_forward(before, after, plan),
        carries_outputs(before, after, plan),
        is_run(left, before.cells),
        is_registered_at(before, after, plan, p, j),
    ensures
        ({
            let right = forwarded_run(after, plan, left);
            cell_starts(right(0), after.cells[j]) && cell_steps(
                right(t),
                right(t + 1),
                after.cells[j],
            )
        }),
{
    let right = forwarded_run(after, plan, left);
    let cell = before.cells[plan.index];
    let moved = after.cells[plan.place];
    let output = cell_outputs(cell)[p]->Wire_0;
    let data = cell_outputs(moved)[p]->Wire_0;
    assert(cell_outputs(cell).contains(cell_outputs(cell)[p]));
    assert(drives(cell, output));
    assert(touches(cell, output));
    lemma_outputs_are_wires(moved, p);
    assert(cell_outputs(moved).contains(cell_outputs(moved)[p]));
    assert(drives(moved, data));
    lemma_run_steps_sources(before, after, plan, left, t);
    assert(drives_apart(cell));
    assert forall|u: nat| #[trigger] left(u)(output) == driven_value(left(u), cell, output) by {
        assert(cells_agree(left(u), before.cells));
        assert(cell_agrees(left(u), cell));
        lemma_agrees_by_wire(left(u), cell);
    }
    assert(right(0)(output) == left(0)(output));
    assert(right(t)(output) == left(t)(output));
    assert(right(t + 1)(output) == left(t + 1)(output));
    assert(left(0)(output) == driven_value(left(0), cell, output));
    assert(left(t)(output) == driven_value(left(t), cell, output));
    assert(left(t + 1)(output) == driven_value(left(t + 1), cell, output));
    assert forall|wire: u32| !moves(plan, wire) && wire < plan.first implies left(t)(wire)
        == #[trigger] right(t)(wire) by {}
    lemma_new_state(before, after, plan, left(t), right(t), p, j, data);
    reveal(carries_outputs);
    assert(sources_start(left(0), before, plan));
    assert(sources_step(left(t), left(t + 1), before, plan));
    assert(right(t)(data) == driven_value(left(t), moved, data));
}

/// Moving forward shows no less.
#[verifier::rlimit(40)]
proof fn lemma_moved_forward_shows_no_less(
    before: NetlistModel,
    after: NetlistModel,
    plan: ForwardPlan,
)
    requires
        is_well_driven(before),
        is_moved_forward(before, after, plan),
        carries_outputs(before, after, plan),
    ensures
        shows_no_less(before, after),
{
    reveal(shows_no_less);
    assert forall|left: spec_fn(nat) -> spec_fn(u32) -> bool| #[trigger]
        is_run(left, before.cells) implies exists|right: spec_fn(nat) -> spec_fn(u32) -> bool|
        is_run(right, after.cells) && #[trigger] shows_same(left, before, right, after) by {
        let right = forwarded_run(after, plan, left);
        assert forall|j: int, t: nat|
            #![trigger after.cells[j], right(t)]
            0 <= j < after.cells.len() implies (t == 0 ==> cell_starts(right(t), after.cells[j]))
            && cell_agrees(right(t), after.cells[j]) && cell_steps(
            right(t),
            right(t + 1),
            after.cells[j],
        ) by {
            lemma_forwarded_holds(before, after, plan, left, j, t);
        }
        lemma_is_run(right, after.cells);
        assert forall|t: nat|
            same_ports(#[trigger] left(t), before.ports, right(t), after.ports) && same_boxes(
                left(t),
                before.cells,
                right(t),
                after.cells,
            ) by {
            lemma_forwarded_shows(before, after, plan, left, t);
        }
        assert(shows_same(left, before, right, after));
    }
}

proof fn lemma_forwarded_shows(
    before: NetlistModel,
    after: NetlistModel,
    plan: ForwardPlan,
    left: spec_fn(nat) -> spec_fn(u32) -> bool,
    t: nat,
)
    requires
        is_well_driven(before),
        is_moved_forward(before, after, plan),
    ensures
        same_ports(left(t), before.ports, forwarded_run(after, plan, left)(t), after.ports),
        same_boxes(left(t), before.cells, forwarded_run(after, plan, left)(t), after.cells),
{
    let right = forwarded_run(after, plan, left);
    let ports = before.ports;
    assert forall|wire: u32| wire < plan.first implies #[trigger] right(t)(wire) == left(t)(
        wire,
    ) by {}
    assert forall|p: int, k: int|
        0 <= p < ports.len() && 0 <= k < ports[p].bits.len() implies bit_value(
        left(t),
        #[trigger] ports[p].bits[k],
    ) == bit_value(right(t), ports[p].bits[k]) by {
        if let Bit::Wire(wire) = ports[p].bits[k] {
            assert(port_has(ports, wire));
            assert(right(t)(wire) == left(t)(wire));
        }
    }
    assert forall|i: int|
        0 <= i < before.cells.len() && is_box(#[trigger] before.cells[i]) implies exists|j: int|
        0 <= j < after.cells.len() && same_box(
            left(t),
            before.cells[i],
            right(t),
            #[trigger] after.cells[j],
        ) by {
        let cell = before.cells[i];
        if !is_kept(before, plan, i) {
            lemma_cells_counted(before);
            let wire = lemma_gone_from(before, plan, i);
            lemma_moving_wire(before, plan, wire);
        }
        let j = lemma_kept_to(before, after, plan, i);
        assert(same_around(left(t), right(t), cell)) by {
            assert forall|wire: u32| #[trigger] touches(cell, wire) implies left(t)(wire)
                == right(t)(wire) by {
                assert(touches(before.cells[i], wire));
                assert(right(t)(wire) == left(t)(wire));
            }
        }
        lemma_local(left(t), right(t), left(t), right(t), cell);
        assert(same_box(left(t), before.cells[i], right(t), after.cells[j]));
    }
}

/// Moving forward keeps what is shown.
pub proof fn lemma_moved_forward_keeps_shown(
    before: NetlistModel,
    after: NetlistModel,
    plan: ForwardPlan,
)
    requires
        is_well_driven(before),
        is_moved_forward(before, after, plan),
        carries_outputs(before, after, plan),
    ensures
        keeps_shown(before, after),
{
    lemma_moved_forward_shows_no_more(before, after, plan);
    lemma_moved_forward_shows_no_less(before, after, plan);
}

/// Whether no other cell bears the name of that at `index`.
pub open spec fn named_once(cells: Seq<CellModel>, index: int) -> bool {
    forall|i: int|
        0 <= i < cells.len() && i != index ==> (#[trigger] cells[i]).cell_name()
            != cells[index].cell_name()
}

proof fn lemma_first_named(cells: Seq<CellModel>, name: Seq<char>, from: int)
    requires
        0 <= from,
    ensures
        first_named_from(cells, name, from) matches Some(at) ==> from <= at < cells.len()
            && cells[at].cell_name() == name,
    decreases cells.len() - from,
{
    if from < cells.len() && cells[from].cell_name() != name {
        lemma_first_named(cells, name, from + 1);
    }
}

/// The moved cell takes the place of the old one.
pub proof fn lemma_moved_place(netlist: NetlistModel, index: int, indices: Seq<usize>)
    requires
        0 <= index < netlist.cells.len() <= usize::MAX,
        named_once(netlist.cells, index),
    ensures
        first_named_from(
            without(netlist.cells, indices),
            netlist.cells[index].cell_name(),
            0,
        ) matches Some(at) ==> 0 <= at < without(netlist.cells, indices).len() && origin(
            netlist.cells,
            indices,
            at,
        ) == index,
{
    let kept = without(netlist.cells, indices);
    let name = netlist.cells[index].cell_name();
    lemma_first_named(kept, name, 0);
    if let Some(at) = first_named_from(kept, name, 0) {
        lemma_origin(netlist.cells, indices, at);
        let i = origin(netlist.cells, indices, at);
        assert(netlist.cells[i].cell_name() == name);
    }
}

} // verus!
