//! Moves forward across a lookup table or carry primitive keep what is shown.

use vstd::prelude::*;

use crate::carry_moves::carry_drives;
use crate::carry_moves::carry_reads;
use crate::carry_moves::lemma_drives;
use crate::carry_moves::lemma_forward_steps;
use crate::carry_moves::output_reset;
use crate::carry_moves::output_value;
use crate::carry_moves::output_wire;
use crate::cells::cell_inputs;
use crate::cells::cell_outputs;
use crate::cells::lemma_wire_count_concat;
use crate::cells::wire_count;
use crate::cells::Bit;
use crate::cells::CellModel;
use crate::cells::Reset;
use crate::meaning::bit_value;
use crate::moved_forward::carries_outputs;
use crate::moved_forward::is_moved_forward;
use crate::moved_forward::is_new_register;
use crate::moved_forward::is_registered_at;
use crate::moved_forward::kept_cells;
use crate::moved_forward::lead_of;
use crate::moved_forward::lemma_moved_forward_keeps_shown;
use crate::moved_forward::lemma_moved_forward_keeps_wiring;
use crate::moved_forward::lemma_moved_place;
use crate::moved_forward::moves;
use crate::moved_forward::moving_wires;
use crate::moved_forward::named_once;
use crate::moved_forward::pins_decide;
use crate::moved_forward::sources_start;
use crate::moved_forward::sources_step;
use crate::moved_forward::ForwardPlan;
use crate::moves::lemma_moved_table;
use crate::moves::lemma_named_at;
use crate::moves::pin_after;
use crate::moves::pin_reset;
use crate::moves::state_after;
use crate::moves::table_value;
use crate::netlist::first_named;
use crate::netlist::maximum_wire;
use crate::netlist::wire_fanout;
use crate::netlist::NetlistModel;
use crate::registered::register_indices;
use crate::registered::source_register;
use crate::registered::unregistered;
use crate::registered::unregistered_pins;
use crate::registered::without;
use crate::retime_ccu::ccu_can_move_forward;
use crate::retime_ccu::ccu_of;
use crate::retime_ccu::forward_ccu_cells;
use crate::retime_ccu::moving_pins;
use crate::retime_ccu::CcuModel;
use crate::retime_ccu::CcuRetimeOutput;
use crate::retime_lut::can_move_forward;
use crate::retime_lut::forward_lut_cells;
use crate::shown::driven_value;
use crate::shown::drives;
use crate::shown::drives_apart;
use crate::shown::is_well_driven;
use crate::shown::keeps_shown;
use crate::shown::lemma_all_below;
use crate::shown::lemma_cells_counted;
use crate::shown::reads;
use crate::wires::lemma_sorted_wires;
use crate::wires::sorted_wires;

verus! {

/// Whether the certified resets are what the primitive makes of the old ones.
pub open spec fn forward_resets_hold(
    netlist: NetlistModel,
    index: int,
    values: (bool, bool, bool),
) -> bool {
    forall|output: CcuRetimeOutput|
        wire_fanout(netlist, output_wire(ccu_of(netlist.cells[index]), output)) > 0
            ==> #[trigger] output_reset(values, output) == output_value(
            ccu_of(netlist.cells[index]),
            output,
            |bit: Bit| pin_reset(netlist, bit),
        )
}

/// What an output drives depends on the pins that move.
proof fn lemma_output_same(
    ccu: CcuModel,
    output: CcuRetimeOutput,
    a: spec_fn(Bit) -> bool,
    b: spec_fn(Bit) -> bool,
)
    requires
        forall|bit: Bit| moving_pins(ccu).contains(bit) ==> #[trigger] a(bit) == b(bit),
    ensures
        output_value(ccu, output, a) == output_value(ccu, output, b),
{
    let pins = moving_pins(ccu);
    assert(pins[0] == ccu.inputs[0][0] && pins[1] == ccu.inputs[0][1] && pins[2]
        == ccu.inputs[0][2] && pins[3] == ccu.inputs[0][3]);
    assert(pins[4] == ccu.inputs[1][0] && pins[5] == ccu.inputs[1][1] && pins[6]
        == ccu.inputs[1][2] && pins[7] == ccu.inputs[1][3]);
    assert(pins.contains(pins[0]) && pins.contains(pins[1]) && pins.contains(pins[2])
        && pins.contains(pins[3]));
    assert(pins.contains(pins[4]) && pins.contains(pins[5]) && pins.contains(pins[6])
        && pins.contains(pins[7]));
    if !ccu.inject[0] {
        assert(pins[8] == ccu.carry_in);
        assert(pins.contains(pins[8]));
        assert(a(ccu.carry_in) == b(ccu.carry_in));
    }
}

/// An output wire carries what its output drives.
proof fn lemma_driven_output(values: spec_fn(u32) -> bool, cell: CellModel, output: CcuRetimeOutput)
    requires
        cell is Ccu2c,
        drives_apart(cell),
    ensures
        driven_value(values, cell, output_wire(ccu_of(cell), output)) == output_value(
            ccu_of(cell),
            output,
            |bit: Bit| bit_value(values, bit),
        ),
{
    let ccu = ccu_of(cell);
    let outputs = cell_outputs(cell);
    assert(outputs[0] == Bit::Wire(ccu.sums[0]));
    assert(outputs[1] == Bit::Wire(ccu.sums[1]));
    assert(outputs[2] == Bit::Wire(ccu.carry_out));
    assert(outputs[0] != outputs[1] && outputs[0] != outputs[2] && outputs[1] != outputs[2]);
    lemma_drives(
        |bit: Bit| bit_value(values, bit),
        ccu.inputs,
        ccu.carry_in,
        ccu.init,
        ccu.inject,
    );
}

/// The reset of the register at each output.
pub open spec fn value_at(values: (bool, bool, bool)) -> spec_fn(int) -> bool {
    |p: int|
        if p == 0 {
            values.0
        } else if p == 1 {
            values.1
        } else {
            values.2
        }
}

/// The output at a position.
spec fn output_at(p: int) -> CcuRetimeOutput {
    if p == 0 {
        CcuRetimeOutput::Sum0
    } else if p == 1 {
        CcuRetimeOutput::Sum1
    } else {
        CcuRetimeOutput::Carry
    }
}

/// What a move forward across a carry primitive is.
pub open spec fn is_forward(
    netlist: NetlistModel,
    after: NetlistModel,
    index: int,
    first: u32,
    values: (bool, bool, bool),
) -> bool {
    &&& ccu_can_move_forward(netlist, index)
    &&& named_once(netlist.cells, index)
    &&& maximum_wire(netlist) matches Some(wire) && first == wire + 1
    &&& first + 2 <= u32::MAX
    &&& forward_ccu_cells(netlist, index, first, values) == Some(after.cells)
    &&& after.ports == netlist.ports
}

/// The plan of a move forward across a carry primitive.
spec fn ccu_plan(
    netlist: NetlistModel,
    index: int,
    first: u32,
    values: (bool, bool, bool),
) -> ForwardPlan {
    let pins = moving_pins(ccu_of(netlist.cells[index]));
    ForwardPlan {
        index,
        pins,
        first,
        place: first_named(
            without(netlist.cells, register_indices(netlist, sorted_wires(pins))),
            netlist.cells[index].cell_name(),
        )->0,
        values: value_at(values),
    }
}

/// The wires that a carry primitive drives, by position.
proof fn lemma_positions(cell: CellModel)
    requires
        cell is Ccu2c,
    ensures
        cell_outputs(cell).len() == 3,
        forall|p: int|
            0 <= p < 3 ==> (#[trigger] cell_outputs(cell)[p]) == Bit::Wire(
                output_wire(ccu_of(cell), output_at(p)),
            ),
        forall|wire: u32| #[trigger]
            drives(cell, wire) ==> exists|p: int|
                0 <= p < 3 && wire == #[trigger] output_wire(ccu_of(cell), output_at(p)),
{
    let outputs = cell_outputs(cell);
    assert forall|p: int| 0 <= p < 3 implies (#[trigger] outputs[p]) == Bit::Wire(
        output_wire(ccu_of(cell), output_at(p)),
    ) by {
        assert(p == 0 || p == 1 || p == 2);
    }
    assert forall|wire: u32| #[trigger] drives(cell, wire) implies exists|p: int|
        0 <= p < 3 && wire == #[trigger] output_wire(ccu_of(cell), output_at(p)) by {
        let p = choose|p: int| 0 <= p < outputs.len() && outputs[p] == Bit::Wire(wire);
        assert(wire == output_wire(ccu_of(cell), output_at(p)));
    }
}

proof fn lemma_ccu_pins_decide(cell: CellModel)
    requires
        cell is Ccu2c,
        drives_apart(cell),
    ensures
        pins_decide(cell, moving_pins(ccu_of(cell))),
{
    let ccu = ccu_of(cell);
    let pins = moving_pins(ccu);
    lemma_positions(cell);
    assert forall|u: spec_fn(u32) -> bool, v: spec_fn(u32) -> bool, wire: u32|
        #![trigger driven_value(u, cell, wire), driven_value(v, cell, wire)]
        drives(cell, wire) && (forall|bit: Bit| #[trigger]
            pins.contains(bit) ==> bit_value(u, bit) == bit_value(v, bit)) implies driven_value(
        u,
        cell,
        wire,
    ) == driven_value(v, cell, wire) by {
        let p = choose|p: int| 0 <= p < 3 && wire == #[trigger] output_wire(ccu, output_at(p));
        lemma_driven_output(u, cell, output_at(p));
        lemma_driven_output(v, cell, output_at(p));
        let a = |bit: Bit| bit_value(u, bit);
        let b = |bit: Bit| bit_value(v, bit);
        assert forall|bit: Bit| pins.contains(bit) implies #[trigger] a(bit) == b(bit) by {}
        lemma_output_same(ccu, output_at(p), a, b);
    }
}

proof fn lemma_moving_counts(cell: CellModel, wire: u32)
    requires
        cell is Ccu2c,
    ensures
        wire_count(cell_inputs(cell), wire) >= wire_count(moving_pins(ccu_of(cell)), wire),
{
    let ccu = ccu_of(cell);
    lemma_wire_count_concat(ccu.inputs[0]@ + ccu.inputs[1]@, seq![ccu.carry_in], wire);
    lemma_wire_count_concat(ccu.inputs[0]@ + ccu.inputs[1]@, seq![], wire);
}

/// The cells after the move, by place.
#[verifier::rlimit(60)]
proof fn lemma_ccu_kinds(
    netlist: NetlistModel,
    after: NetlistModel,
    index: int,
    first: u32,
    values: (bool, bool, bool),
)
    requires
        is_forward(netlist, after, index, first, values),
    ensures
        ({
            let plan = ccu_plan(netlist, index, first, values);
            let ccu = ccu_of(netlist.cells[index]);
            let kept = kept_cells(netlist, plan);
            &&& 0 <= plan.place < kept.len() <= after.cells.len()
            &&& forall|j: int|
                0 <= j < kept.len() && j != plan.place ==> (#[trigger] after.cells[j]) == kept[j]
            &&& after.cells[plan.place] == CellModel::Ccu2c {
                name: "retime_forward_"@ + ccu.name,
                inputs: [
                    unregistered_pins(netlist, moving_wires(plan), ccu.inputs[0]),
                    unregistered_pins(netlist, moving_wires(plan), ccu.inputs[1]),
                ],
                carry_in: if ccu.inject[0] {
                    Bit::Zero
                } else {
                    unregistered(netlist, moving_wires(plan), ccu.carry_in)
                },
                sums: [first, (first + 1) as u32],
                carry_out: (first + 2) as u32,
                init: ccu.init,
                inject: ccu.inject,
            }
            &&& forall|j: int|
                kept.len() <= j < after.cells.len() ==> exists|p: int|
                    #![trigger output_at(p)]
                    is_new_register(netlist, after, plan, #[trigger] after.cells[j], p)
                        && wire_fanout(netlist, output_wire(ccu, output_at(p))) > 0
            &&& forall|p: int|
                0 <= p < 3 && wire_fanout(netlist, output_wire(ccu, #[trigger] output_at(p))) > 0
                    ==> exists|j: int| #[trigger] is_registered_at(netlist, after, plan, p, j)
            &&& after.cells.len() <= kept.len() + 3
            &&& forall|i: int, j: int|
                kept.len() <= i < j < after.cells.len() ==> position_at(netlist, index, kept.len(), i)
                    < position_at(netlist, index, kept.len(), j)
            &&& forall|j: int|
                kept.len() <= j < after.cells.len() ==> (#[trigger] after.cells[j])->FlipFlop_output
                    == output_wire(ccu, output_at(position_at(netlist, index, kept.len(), j)))
                    && 0 <= position_at(netlist, index, kept.len(), j) < 3
        }),
{
    let plan = ccu_plan(netlist, index, first, values);
    let cell = netlist.cells[index];
    let ccu = ccu_of(cell);
    let kept = kept_cells(netlist, plan);
    lemma_named_at(kept, ccu.name, 0);
    lemma_positions(cell);
    let moved = after.cells[plan.place];
    lemma_positions(moved);
    let zero = loaded_count(netlist, ccu.sums[0]);
    let one = loaded_count(netlist, ccu.sums[1]);
    let two = loaded_count(netlist, ccu.carry_out);
    assert(after.cells.len() == kept.len() + zero + one + two);
    assert(output_wire(ccu, output_at(0)) == ccu.sums[0]);
    assert(output_wire(ccu, output_at(1)) == ccu.sums[1]);
    assert(output_wire(ccu, output_at(2)) == ccu.carry_out);
    assert(cell_outputs(moved)[0] == Bit::Wire(first));
    assert(cell_outputs(moved)[1] == Bit::Wire((first + 1) as u32));
    assert(cell_outputs(moved)[2] == Bit::Wire((first + 2) as u32));
    if zero == 1 {
        assert(is_new_register(netlist, after, plan, after.cells[kept.len() as int], 0));
        assert(is_registered_at(netlist, after, plan, 0, kept.len() as int));
    }
    if one == 1 {
        assert(is_new_register(netlist, after, plan, after.cells[kept.len() + zero], 1));
        assert(is_registered_at(netlist, after, plan, 1, kept.len() + zero));
    }
    if two == 1 {
        assert(is_new_register(netlist, after, plan, after.cells[kept.len() + zero + one], 2));
        assert(is_registered_at(netlist, after, plan, 2, kept.len() + zero + one));
    }
    assert forall|j: int| kept.len() <= j < after.cells.len() implies exists|p: int|
        #![trigger output_at(p)]
        is_new_register(netlist, after, plan, #[trigger] after.cells[j], p) && wire_fanout(
            netlist,
            output_wire(ccu, output_at(p)),
        ) > 0 by {
        let p = position_at(netlist, index, kept.len(), j);
        assert(is_new_register(netlist, after, plan, after.cells[j], p));
        assert(wire_fanout(netlist, output_wire(ccu, output_at(p))) > 0);
    }
}

/// How many new registers an output takes.
spec fn loaded_count(netlist: NetlistModel, wire: u32) -> int {
    if wire_fanout(netlist, wire) == 0 {
        0
    } else {
        1
    }
}

/// The output whose register stands at `j`.
spec fn position_at(netlist: NetlistModel, index: int, kept: nat, j: int) -> int {
    let ccu = ccu_of(netlist.cells[index]);
    let zero = loaded_count(netlist, ccu.sums[0]);
    let one = loaded_count(netlist, ccu.sums[1]);
    if j < kept + zero {
        0
    } else if j < kept + zero + one {
        1
    } else {
        2
    }
}

/// What the moved primitive reads are data of registers that move.
proof fn lemma_unregistered_reads(netlist: NetlistModel, plan: ForwardPlan, bit: Bit, wire: u32)
    requires
        plan.pins.contains(bit),
        unregistered(netlist, moving_wires(plan), bit) == Bit::Wire(wire),
    ensures
        exists|source: u32| #[trigger]
            moves(plan, source) && source_register(netlist, source).data == Bit::Wire(wire),
{
    lemma_sorted_wires(plan.pins);
    if let Bit::Wire(source) = bit {
        assert(moves(plan, source));
    }
}

#[verifier::rlimit(60)]
proof fn lemma_ccu_plan(
    netlist: NetlistModel,
    after: NetlistModel,
    index: int,
    first: u32,
    values: (bool, bool, bool),
)
    requires
        is_well_driven(netlist),
        is_forward(netlist, after, index, first, values),
    ensures
        is_moved_forward(netlist, after, ccu_plan(netlist, index, first, values)),
{
    let plan = ccu_plan(netlist, index, first, values);
    let cell = netlist.cells[index];
    let ccu = ccu_of(cell);
    let pins = plan.pins;
    let indices = register_indices(netlist, moving_wires(plan));
    let kept = kept_cells(netlist, plan);
    lemma_cells_counted(netlist);
    lemma_all_below(netlist);
    lemma_ccu_kinds(netlist, after, index, first, values);
    lemma_moved_place(netlist, index, indices);
    assert(drives_apart(cell));
    lemma_ccu_pins_decide(cell);
    assert forall|wire: u32| wire_count(cell_inputs(cell), wire) >= #[trigger] wire_count(
        pins,
        wire,
    ) by {
        lemma_moving_counts(cell, wire);
    }
    lemma_positions(cell);
    let moved = after.cells[plan.place];
    lemma_positions(moved);
    let ours = cell_outputs(moved);
    assert(ours =~= seq![
        Bit::Wire(first),
        Bit::Wire((first + 1) as u32),
        Bit::Wire((first + 2) as u32),
    ]);
    assert forall|j: int| kept.len() <= j < after.cells.len() implies exists|p: int|
        is_new_register(netlist, after, plan, #[trigger] after.cells[j], p) by {
        let p = choose|p: int|
            #![trigger output_at(p)]
            is_new_register(netlist, after, plan, after.cells[j], p) && wire_fanout(
                netlist,
                output_wire(ccu, output_at(p)),
            ) > 0;
        assert(is_new_register(netlist, after, plan, after.cells[j], p));
    }
    let outputs = cell_outputs(cell);
    assert(outputs[0] != outputs[1] && outputs[0] != outputs[2] && outputs[1] != outputs[2]);
    assert forall|i: int, j: int|
        kept.len() <= i < j < after.cells.len() implies (
    #[trigger] after.cells[i])->FlipFlop_output != (#[trigger] after.cells[j])->FlipFlop_output by {
        let x = position_at(netlist, index, kept.len(), i);
        let y = position_at(netlist, index, kept.len(), j);
        assert(x < y);
        assert(outputs[x] == Bit::Wire(output_wire(ccu, output_at(x))));
        assert(outputs[y] == Bit::Wire(output_wire(ccu, output_at(y))));
    }
    assert forall|p: int|
        0 <= p < outputs.len() && wire_fanout(
            netlist,
            (#[trigger] outputs[p])->Wire_0,
        ) > 0 implies exists|j: int| #[trigger] is_registered_at(netlist, after, plan, p, j) by {
        assert(outputs[p] == Bit::Wire(output_wire(ccu, output_at(p))));
    }
    assert forall|wire: u32| #[trigger] reads(moved, wire) implies exists|source: u32| #[trigger]
        moves(plan, source) && source_register(netlist, source).data == Bit::Wire(wire) by {
        lemma_ccu_reads(netlist, after, index, first, values, wire);
    }
}

#[verifier::rlimit(40)]
proof fn lemma_ccu_reads(
    netlist: NetlistModel,
    after: NetlistModel,
    index: int,
    first: u32,
    values: (bool, bool, bool),
    wire: u32,
)
    requires
        is_forward(netlist, after, index, first, values),
        reads(after.cells[ccu_plan(netlist, index, first, values).place], wire),
    ensures
        ({
            let plan = ccu_plan(netlist, index, first, values);
            exists|source: u32| #[trigger]
                moves(plan, source) && source_register(netlist, source).data == Bit::Wire(wire)
        }),
{
    let plan = ccu_plan(netlist, index, first, values);
    let ccu = ccu_of(netlist.cells[index]);
    let pins = plan.pins;
    let wires = moving_wires(plan);
    lemma_ccu_kinds(netlist, after, index, first, values);
    let moved = after.cells[plan.place];
    let bits = cell_inputs(moved);
    let k = choose|k: int| 0 <= k < bits.len() && bits[k] == Bit::Wire(wire);
    let one = unregistered_pins(netlist, wires, ccu.inputs[0]);
    let two = unregistered_pins(netlist, wires, ccu.inputs[1]);
    if k < 8 {
        assert(pins[k] == if k < 4 {
            ccu.inputs[0][k]
        } else {
            ccu.inputs[1][k - 4]
        });
        assert(pins.contains(pins[k]));
        assert(bits[k] == unregistered(netlist, wires, pins[k])) by {
            assert(k == 0 || k == 1 || k == 2 || k == 3 || k == 4 || k == 5 || k == 6 || k == 7);
        }
        lemma_unregistered_reads(netlist, plan, pins[k], wire);
    } else if !ccu.inject[0] {
        assert(pins[8] == ccu.carry_in);
        assert(pins.contains(pins[8]));
        lemma_unregistered_reads(netlist, plan, ccu.carry_in, wire);
    }
}

/// Where sources start or step, so do the pins that move.
proof fn lemma_moving_bits(
    now: spec_fn(u32) -> bool,
    next: spec_fn(u32) -> bool,
    netlist: NetlistModel,
    plan: ForwardPlan,
    bit: Bit,
)
    requires
        plan.pins.contains(bit),
    ensures
        sources_step(now, next, netlist, plan) ==> bit_value(next, bit) == pin_after(
            now,
            netlist,
            bit,
        ),
        sources_start(now, netlist, plan) ==> bit_value(now, bit) == pin_reset(netlist, bit),
{
    lemma_sorted_wires(plan.pins);
    if let Bit::Wire(wire) = bit {
        assert(moves(plan, wire));
    }
}

/// What the moved primitive drives from the registers' data.
#[verifier::rlimit(40)]
proof fn lemma_moved_data(
    now: spec_fn(u32) -> bool,
    netlist: NetlistModel,
    after: NetlistModel,
    index: int,
    first: u32,
    values: (bool, bool, bool),
    p: int,
)
    requires
        is_forward(netlist, after, index, first, values),
        0 <= p < 3,
    ensures
        ({
            let plan = ccu_plan(netlist, index, first, values);
            let ccu = ccu_of(netlist.cells[index]);
            let wires = moving_wires(plan);
            let moved = after.cells[plan.place];
            driven_value(now, moved, cell_outputs(moved)[p]->Wire_0) == carry_drives(
                carry_reads(
                    |bit: Bit| bit_value(now, bit),
                    [
                        unregistered_pins(netlist, wires, ccu.inputs[0]),
                        unregistered_pins(netlist, wires, ccu.inputs[1]),
                    ],
                ),
                !ccu.inject[0] && bit_value(now, unregistered(netlist, wires, ccu.carry_in)),
                ccu.init,
                ccu.inject,
                output_at(p),
            )
        }),
{
    let plan = ccu_plan(netlist, index, first, values);
    lemma_ccu_kinds(netlist, after, index, first, values);
    let moved = after.cells[plan.place];
    lemma_positions(moved);
    let ours = cell_outputs(moved);
    assert(ours[0] == Bit::Wire(first));
    assert(ours[1] == Bit::Wire((first + 1) as u32));
    assert(ours[2] == Bit::Wire((first + 2) as u32));
    assert(drives_apart(moved));
    assert(ours[p] == Bit::Wire(output_wire(ccu_of(moved), output_at(p))));
    lemma_driven_output(now, moved, output_at(p));
}

#[verifier::rlimit(60)]
proof fn lemma_ccu_carries(
    netlist: NetlistModel,
    after: NetlistModel,
    index: int,
    first: u32,
    values: (bool, bool, bool),
)
    requires
        is_well_driven(netlist),
        is_forward(netlist, after, index, first, values),
        forward_resets_hold(netlist, index, values),
    ensures
        carries_outputs(netlist, after, ccu_plan(netlist, index, first, values)),
{
    let plan = ccu_plan(netlist, index, first, values);
    let cell = netlist.cells[index];
    let ccu = ccu_of(cell);
    let moved = after.cells[plan.place];
    let lead = lead_of(netlist, plan);
    lemma_ccu_kinds(netlist, after, index, first, values);
    lemma_positions(cell);
    assert(drives_apart(cell));
    reveal(carries_outputs);
    assert forall|p: int, j: int| #[trigger]
        is_registered_at(netlist, after, plan, p, j) implies {
        let output = cell_outputs(cell)[p]->Wire_0;
        let data = cell_outputs(moved)[p]->Wire_0;
        &&& forall|now: spec_fn(u32) -> bool| #[trigger]
            sources_start(now, netlist, plan) ==> driven_value(now, cell, output) == (
            plan.values)(p)
        &&& forall|now: spec_fn(u32) -> bool, next: spec_fn(u32) -> bool| #[trigger]
            sources_step(now, next, netlist, plan) ==> driven_value(next, cell, output)
                == state_after(
                now,
                lead.enable,
                Some(Reset { value: (plan.values)(p), ..lead.reset }),
                driven_value(now, cell, output),
                driven_value(now, moved, data),
            )
    } by {
        let output = output_at(p);
        lemma_registered_loaded(netlist, after, index, first, values, p, j);
        assert(cell_outputs(cell)[p] == Bit::Wire(output_wire(ccu, output)));
        assert(output_reset(values, output) == output_value(
            ccu,
            output,
            |bit: Bit| pin_reset(netlist, bit),
        ));
        assert((plan.values)(p) == output_reset(values, output));
        assert forall|now: spec_fn(u32) -> bool| #[trigger]
            sources_start(now, netlist, plan) implies driven_value(
            now,
            cell,
            output_wire(ccu, output),
        ) == (plan.values)(p) by {
            lemma_driven_output(now, cell, output);
            let a = |bit: Bit| bit_value(now, bit);
            let b = |bit: Bit| pin_reset(netlist, bit);
            assert forall|bit: Bit| moving_pins(ccu).contains(bit) implies #[trigger] a(bit) == b(
                bit,
            ) by {
                lemma_moving_bits(now, now, netlist, plan, bit);
            }
            lemma_output_same(ccu, output, a, b);
        }
        assert forall|now: spec_fn(u32) -> bool, next: spec_fn(u32) -> bool| #[trigger]
            sources_step(now, next, netlist, plan) implies driven_value(
            next,
            cell,
            output_wire(ccu, output),
        ) == state_after(
            now,
            lead.enable,
            Some(Reset { value: (plan.values)(p), ..lead.reset }),
            driven_value(now, cell, output_wire(ccu, output)),
            driven_value(now, moved, cell_outputs(moved)[p]->Wire_0),
        ) by {
            lemma_ccu_steps(now, next, netlist, after, index, first, values, p);
        }
    }
}

/// A new register stands at a loaded output.
proof fn lemma_registered_loaded(
    netlist: NetlistModel,
    after: NetlistModel,
    index: int,
    first: u32,
    values: (bool, bool, bool),
    p: int,
    j: int,
)
    requires
        is_well_driven(netlist),
        is_forward(netlist, after, index, first, values),
        is_registered_at(netlist, after, ccu_plan(netlist, index, first, values), p, j),
    ensures
        0 <= p < 3,
        wire_fanout(netlist, output_wire(ccu_of(netlist.cells[index]), output_at(p))) > 0,
{
    let plan = ccu_plan(netlist, index, first, values);
    let cell = netlist.cells[index];
    let ccu = ccu_of(cell);
    lemma_ccu_kinds(netlist, after, index, first, values);
    lemma_positions(cell);
    let q = choose|q: int|
        #![trigger output_at(q)]
        is_new_register(netlist, after, plan, after.cells[j], q) && wire_fanout(
            netlist,
            output_wire(ccu, output_at(q)),
        ) > 0;
    assert(drives_apart(cell));
    let outputs = cell_outputs(cell);
    if p < q {
        assert(outputs[p] != outputs[q]);
    } else if q < p {
        assert(outputs[q] != outputs[p]);
    }
}

#[verifier::rlimit(60)]
proof fn lemma_ccu_steps(
    now: spec_fn(u32) -> bool,
    next: spec_fn(u32) -> bool,
    netlist: NetlistModel,
    after: NetlistModel,
    index: int,
    first: u32,
    values: (bool, bool, bool),
    p: int,
)
    requires
        is_well_driven(netlist),
        is_forward(netlist, after, index, first, values),
        0 <= p < 3,
        output_reset(values, output_at(p)) == output_value(
            ccu_of(netlist.cells[index]),
            output_at(p),
            |bit: Bit| pin_reset(netlist, bit),
        ),
        sources_step(now, next, netlist, ccu_plan(netlist, index, first, values)),
    ensures
        ({
            let plan = ccu_plan(netlist, index, first, values);
            let cell = netlist.cells[index];
            let moved = after.cells[plan.place];
            let lead = lead_of(netlist, plan);
            let wire = output_wire(ccu_of(cell), output_at(p));
            driven_value(next, cell, wire) == state_after(
                now,
                lead.enable,
                Some(Reset { value: (plan.values)(p), ..lead.reset }),
                driven_value(now, cell, wire),
                driven_value(now, moved, cell_outputs(moved)[p]->Wire_0),
            )
        }),
{
    let plan = ccu_plan(netlist, index, first, values);
    let cell = netlist.cells[index];
    let ccu = ccu_of(cell);
    let moved = after.cells[plan.place];
    let output = output_at(p);
    assert(drives_apart(cell));
    lemma_driven_output(now, cell, output);
    lemma_driven_output(next, cell, output);
    lemma_moved_data(now, netlist, after, index, first, values, p);
    let data = driven_value(now, moved, cell_outputs(moved)[p]->Wire_0);
    lemma_forward_steps(now, netlist, ccu, output, data);
    let a = |bit: Bit| bit_value(next, bit);
    let b = |bit: Bit| pin_after(now, netlist, bit);
    assert forall|bit: Bit| moving_pins(ccu).contains(bit) implies #[trigger] a(bit) == b(bit) by {
        lemma_moving_bits(now, next, netlist, plan, bit);
    }
    lemma_output_same(ccu, output, a, b);
    assert((plan.values)(p) == output_reset(values, output));
}

/// Moving registers forward across a carry primitive leaves the netlist wired up.
pub proof fn law_forward_ccu_keeps_wiring(
    netlist: NetlistModel,
    after: NetlistModel,
    index: int,
    first: u32,
    values: (bool, bool, bool),
)
    requires
        is_well_driven(netlist),
        is_forward(netlist, after, index, first, values),
    ensures
        is_well_driven(after),
{
    lemma_ccu_plan(netlist, after, index, first, values);
    lemma_moved_forward_keeps_wiring(netlist, after, ccu_plan(netlist, index, first, values));
}

/// Moving the registers in front of a carry primitive to its outputs keeps what is
/// shown, where the certified resets are what the primitive makes of the old ones.
pub proof fn law_forward_ccu_keeps_shown(
    netlist: NetlistModel,
    after: NetlistModel,
    index: int,
    first: u32,
    values: (bool, bool, bool),
)
    requires
        is_well_driven(netlist),
        is_forward(netlist, after, index, first, values),
        forward_resets_hold(netlist, index, values),
    ensures
        keeps_shown(netlist, after),
{
    lemma_ccu_plan(netlist, after, index, first, values);
    lemma_ccu_carries(netlist, after, index, first, values);
    lemma_moved_forward_keeps_shown(netlist, after, ccu_plan(netlist, index, first, values));
}

/// What a move forward across a lookup table is.
pub open spec fn is_lut_forward(
    netlist: NetlistModel,
    after: NetlistModel,
    index: int,
    first: u32,
    value: bool,
) -> bool {
    &&& can_move_forward(netlist, index)
    &&& named_once(netlist.cells, index)
    &&& maximum_wire(netlist) matches Some(wire) && first == wire + 1
    &&& forward_lut_cells(netlist, index, first, value) == Some(after.cells)
    &&& after.ports == netlist.ports
}

/// Whether a certified reset is what a lookup table makes of the old ones.
pub open spec fn lut_forward_holds(netlist: NetlistModel, index: int, value: bool) -> bool {
    value == table_value(
        netlist.cells[index]->Lut4_init,
        netlist.cells[index]->Lut4_inputs,
        |bit: Bit| pin_reset(netlist, bit),
    )
}

/// The plan of a move forward across a lookup table.
spec fn lut_plan(netlist: NetlistModel, index: int, first: u32, value: bool) -> ForwardPlan {
    let pins = netlist.cells[index]->Lut4_inputs@;
    ForwardPlan {
        index,
        pins,
        first,
        place: first_named(
            without(netlist.cells, register_indices(netlist, sorted_wires(pins))),
            netlist.cells[index].cell_name(),
        )->0,
        values: |p: int| value,
    }
}

proof fn lemma_lut_pins_decide(cell: CellModel)
    requires
        cell is Lut4,
    ensures
        pins_decide(cell, cell->Lut4_inputs@),
{
    let pins = cell->Lut4_inputs@;
    assert forall|u: spec_fn(u32) -> bool, v: spec_fn(u32) -> bool, wire: u32|
        #![trigger driven_value(u, cell, wire), driven_value(v, cell, wire)]
        drives(cell, wire) && (forall|bit: Bit| #[trigger]
            pins.contains(bit) ==> bit_value(u, bit) == bit_value(v, bit)) implies driven_value(
        u,
        cell,
        wire,
    ) == driven_value(v, cell, wire) by {
        assert(pins.contains(pins[0]) && pins.contains(pins[1]) && pins.contains(pins[2])
            && pins.contains(pins[3]));
    }
}

#[verifier::rlimit(60)]
proof fn lemma_lut_plan(
    netlist: NetlistModel,
    after: NetlistModel,
    index: int,
    first: u32,
    value: bool,
)
    requires
        is_well_driven(netlist),
        is_lut_forward(netlist, after, index, first, value),
    ensures
        is_moved_forward(netlist, after, lut_plan(netlist, index, first, value)),
{
    let plan = lut_plan(netlist, index, first, value);
    let cell = netlist.cells[index];
    let inputs = cell->Lut4_inputs;
    let pins = plan.pins;
    let wires = moving_wires(plan);
    let indices = register_indices(netlist, wires);
    let kept = kept_cells(netlist, plan);
    lemma_cells_counted(netlist);
    lemma_all_below(netlist);
    lemma_named_at(kept, cell.cell_name(), 0);
    lemma_moved_place(netlist, index, indices);
    lemma_lut_pins_decide(cell);
    let moved = after.cells[plan.place];
    assert(moved->Lut4_inputs == unregistered_pins(netlist, wires, inputs));
    assert(cell_outputs(moved) =~= seq![Bit::Wire(first)]);
    assert(cell_outputs(cell) =~= seq![Bit::Wire(cell->Lut4_output)]);
    let last = kept.len() as int;
    assert(after.cells.len() == last + 1);
    assert(is_new_register(netlist, after, plan, after.cells[last], 0));
    assert forall|j: int| last <= j < after.cells.len() implies exists|p: int|
        is_new_register(netlist, after, plan, #[trigger] after.cells[j], p) by {
        assert(j == last);
        assert(is_new_register(netlist, after, plan, after.cells[j], 0));
    }
    assert(is_registered_at(netlist, after, plan, 0, last));
    assert forall|wire: u32| #[trigger] reads(moved, wire) implies exists|source: u32| #[trigger]
        moves(plan, source) && source_register(netlist, source).data == Bit::Wire(wire) by {
        let bits = cell_inputs(moved);
        let k = choose|k: int| 0 <= k < bits.len() && bits[k] == Bit::Wire(wire);
        assert(bits[k] == unregistered(netlist, wires, pins[k])) by {
            assert(k == 0 || k == 1 || k == 2 || k == 3);
        }
        assert(pins.contains(pins[k]));
        lemma_unregistered_reads(netlist, plan, pins[k], wire);
    }
}

#[verifier::rlimit(60)]
proof fn lemma_lut_carries(
    netlist: NetlistModel,
    after: NetlistModel,
    index: int,
    first: u32,
    value: bool,
)
    requires
        is_well_driven(netlist),
        is_lut_forward(netlist, after, index, first, value),
        lut_forward_holds(netlist, index, value),
    ensures
        carries_outputs(netlist, after, lut_plan(netlist, index, first, value)),
{
    let plan = lut_plan(netlist, index, first, value);
    let cell = netlist.cells[index];
    let inputs = cell->Lut4_inputs;
    let init = cell->Lut4_init;
    let wires = moving_wires(plan);
    let kept = kept_cells(netlist, plan);
    let lead = lead_of(netlist, plan);
    lemma_named_at(kept, cell.cell_name(), 0);
    let moved = after.cells[plan.place];
    assert(moved->Lut4_inputs == unregistered_pins(netlist, wires, inputs));
    assert(moved->Lut4_init == init);
    let pins = plan.pins;
    assert(pins.contains(pins[0]) && pins.contains(pins[1]) && pins.contains(pins[2])
        && pins.contains(pins[3]));
    reveal(carries_outputs);
    assert forall|p: int, j: int| #[trigger]
        is_registered_at(netlist, after, plan, p, j) implies {
        let output = cell_outputs(cell)[p]->Wire_0;
        let data = cell_outputs(moved)[p]->Wire_0;
        &&& forall|now: spec_fn(u32) -> bool| #[trigger]
            sources_start(now, netlist, plan) ==> driven_value(now, cell, output) == (
            plan.values)(p)
        &&& forall|now: spec_fn(u32) -> bool, next: spec_fn(u32) -> bool| #[trigger]
            sources_step(now, next, netlist, plan) ==> driven_value(next, cell, output)
                == state_after(
                now,
                lead.enable,
                Some(Reset { value: (plan.values)(p), ..lead.reset }),
                driven_value(now, cell, output),
                driven_value(now, moved, data),
            )
    } by {
        let output = cell_outputs(cell)[p]->Wire_0;
        let data = cell_outputs(moved)[p]->Wire_0;
        assert forall|now: spec_fn(u32) -> bool| #[trigger]
            sources_start(now, netlist, plan) implies driven_value(now, cell, output) == (
        plan.values)(p) by {
            lemma_moving_bits(now, now, netlist, plan, pins[0]);
            lemma_moving_bits(now, now, netlist, plan, pins[1]);
            lemma_moving_bits(now, now, netlist, plan, pins[2]);
            lemma_moving_bits(now, now, netlist, plan, pins[3]);
        }
        assert forall|now: spec_fn(u32) -> bool, next: spec_fn(u32) -> bool| #[trigger]
            sources_step(now, next, netlist, plan) implies driven_value(next, cell, output)
            == state_after(
            now,
            lead.enable,
            Some(Reset { value: (plan.values)(p), ..lead.reset }),
            driven_value(now, cell, output),
            driven_value(now, moved, data),
        ) by {
            lemma_moving_bits(now, next, netlist, plan, pins[0]);
            lemma_moving_bits(now, next, netlist, plan, pins[1]);
            lemma_moving_bits(now, next, netlist, plan, pins[2]);
            lemma_moving_bits(now, next, netlist, plan, pins[3]);
            lemma_moved_table(now, netlist, inputs, init);
        }
    }
}

/// Moving registers forward across a lookup table leaves the netlist wired up.
pub proof fn law_forward_lut_keeps_wiring(
    netlist: NetlistModel,
    after: NetlistModel,
    index: int,
    first: u32,
    value: bool,
)
    requires
        is_well_driven(netlist),
        is_lut_forward(netlist, after, index, first, value),
    ensures
        is_well_driven(after),
{
    lemma_lut_plan(netlist, after, index, first, value);
    lemma_moved_forward_keeps_wiring(netlist, after, lut_plan(netlist, index, first, value));
}

/// Moving the registers in front of a lookup table to its output keeps what is
/// shown, where the certified reset is what the table makes of the old ones.
pub proof fn law_forward_lut_keeps_shown(
    netlist: NetlistModel,
    after: NetlistModel,
    index: int,
    first: u32,
    value: bool,
)
    requires
        is_well_driven(netlist),
        is_lut_forward(netlist, after, index, first, value),
        lut_forward_holds(netlist, index, value),
    ensures
        keeps_shown(netlist, after),
{
    lemma_lut_plan(netlist, after, index, first, value);
    lemma_lut_carries(netlist, after, index, first, value);
    lemma_moved_forward_keeps_shown(netlist, after, lut_plan(netlist, index, first, value));
}

} // verus!
