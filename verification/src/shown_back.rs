//! Moves back across a lookup table or carry primitive keep what is shown.

use vstd::prelude::*;

use crate::carry_moves::bit_at;
use crate::carry_moves::certified_output;
use crate::carry_moves::decides;
use crate::carry_moves::is_location;
use crate::carry_moves::lemma_backward_outputs;
use crate::carry_moves::lemma_boundary_at;
use crate::carry_moves::lemma_ccu_found;
use crate::carry_moves::lemma_cone;
use crate::carry_moves::lemma_cone_wires;
use crate::carry_moves::lemma_drives;
use crate::carry_moves::lemma_reset_outputs;
use crate::cells::Bit;
use crate::cells::CellModel;
use crate::cells::Reset;
use crate::cells::cell_inputs;
use crate::cells::cell_outputs;
use crate::cells::wire_count;
use crate::certify::EdgeModel;
use crate::meaning::bit_value;
use crate::meaning::cell_agrees;
use crate::meaning::cells_agree;
use crate::moved_back::BackwardPlan;
use crate::moved_back::carries_state;
use crate::moved_back::copy_place;
use crate::moved_back::is_moved_back;
use crate::moved_back::is_moved_copy;
use crate::moved_back::is_taken;
use crate::moved_back::lemma_moved_back_keeps_wiring;
use crate::moved_back::lemma_moved_back_shows_no_less;
use crate::moved_back::moves_off;
use crate::moved_back::moves_on;
use crate::moves::cell_steps;
use crate::moves::cells_step;
use crate::moves::certified_reset;
use crate::moves::copies_step;
use crate::moves::lemma_copied_table;
use crate::moves::lemma_lut_found;
use crate::moves::lemma_pin_wire;
use crate::moves::state_after;
use crate::moves::table_value;
use crate::netlist::NetlistModel;
use crate::netlist::cells_inputs;
use crate::netlist::maximum_wire;
use crate::netlist::ports_bits;
use crate::netlist::wire_fanout;
use crate::retime_ccu::CcuInputLocation;
use crate::retime_ccu::CcuModel;
use crate::retime_ccu::CcuRetimeOutput;
use crate::retime_ccu::backward_ccu_cells;
use crate::retime_ccu::backward_ccu_register;
use crate::retime_ccu::backward_ccu_sources;
use crate::retime_ccu::backward_ccu_wires;
use crate::retime_ccu::boundaries_covered;
use crate::retime_ccu::ccu_of;
use crate::retime_ccu::cone_graph;
use crate::retime_ccu::feeds_only;
use crate::retime_ccu::moved_bit;
use crate::retime_ccu::moved_ccu;
use crate::certify::reset_from;
use crate::retime_lut::ResetRegister;
use crate::retime_lut::backward_lut_cells;
use crate::retime_lut::backward_lut_register;
use crate::retime_lut::backward_lut_sources;
use crate::retime_lut::covers;
use crate::retime_lut::index_after_removal;
use crate::retime_lut::reset_register;
use crate::retime_lut::shifted_pin;
use crate::retime_lut::shifted_pins;
use crate::shown::cell_starts;
use crate::shown::driven_value;
use crate::shown::drivers_apart;
use crate::shown::drives;
use crate::shown::drives_apart;
use crate::shown::is_box;
use crate::shown::is_combinational;
use crate::shown::is_run;
use crate::shown::is_well_driven;
use crate::shown::keeps_shown;
use crate::shown::lemma_agrees_by_wire;
use crate::shown::lemma_all_below;
use crate::shown::lemma_cells_counted;
use crate::shown::lemma_driven_same;
use crate::shown::lemma_local;
use crate::shown::lemma_port_bits_at;
use crate::shown::reads;
use crate::shown::same_around;
use crate::shown::same_box;
use crate::shown::same_boxes;
use crate::shown::same_ports;
use crate::shown::shows_no_more;
use crate::shown::shows_same;
use crate::shown::touches;
use crate::wires::lemma_sorted_wires;
use crate::wires::sorted_wires;
use crate::wires::wire_index;

verus! {

pub proof fn lemma_count_one(bits: Seq<Bit>, wire: u32, p: int)
    requires
        0 <= p < bits.len(),
        bits[p] == Bit::Wire(wire),
    ensures
        wire_count(bits, wire) >= 1,
    decreases bits.len(),
{
    if p < bits.len() - 1 {
        lemma_count_one(bits.drop_last(), wire, p);
    }
}

proof fn lemma_count_two(bits: Seq<Bit>, wire: u32, p: int, q: int)
    requires
        0 <= p < q < bits.len(),
        bits[p] == Bit::Wire(wire),
        bits[q] == Bit::Wire(wire),
    ensures
        wire_count(bits, wire) >= 2,
    decreases bits.len(),
{
    if q < bits.len() - 1 {
        lemma_count_two(bits.drop_last(), wire, p, q);
    } else {
        lemma_count_one(bits.drop_last(), wire, p);
    }
}

pub proof fn lemma_inputs_at(cells: Seq<CellModel>, i: int, p: int) -> (at: int)
    requires
        0 <= i < cells.len(),
        0 <= p < cell_inputs(cells[i]).len(),
    ensures
        0 <= at < cells_inputs(cells).len(),
        cells_inputs(cells)[at] == cell_inputs(cells[i])[p],
        at == cells_inputs(cells.take(i)).len() + p,
    decreases cells.len(),
{
    if i == cells.len() - 1 {
        assert(cells.take(i) == cells.drop_last());
        cells_inputs(cells.drop_last()).len() + p
    } else {
        assert(cells.drop_last().take(i) == cells.take(i));
        lemma_inputs_at(cells.drop_last(), i, p)
    }
}

proof fn lemma_inputs_grow(cells: Seq<CellModel>, i: int, j: int)
    requires
        0 <= i < j <= cells.len(),
    ensures
        cells_inputs(cells.take(i)).len() + cell_inputs(cells[i]).len() <= cells_inputs(
            cells.take(j),
        ).len(),
    decreases j,
{
    assert(cells.take(j).drop_last() == cells.take(j - 1));
    if i < j - 1 {
        lemma_inputs_grow(cells, i, j - 1);
    }
}

/// Whether a wire is read nowhere but, perhaps, at one pin.
pub open spec fn read_only_at(netlist: NetlistModel, wire: u32, index: int, pin: int) -> bool {
    &&& forall|i: int, m: int|
        #![trigger cell_inputs(netlist.cells[i])[m]]
        0 <= i < netlist.cells.len() && 0 <= m < cell_inputs(netlist.cells[i]).len()
            && cell_inputs(netlist.cells[i])[m] == Bit::Wire(wire) ==> i == index && m == pin
    &&& forall|p: int, k: int|
        #![trigger netlist.ports[p].bits[k]]
        0 <= p < netlist.ports.len() && 0 <= k < netlist.ports[p].bits.len()
            ==> netlist.ports[p].bits[k] != Bit::Wire(wire)
}

/// A wire with one load has no other, and one without loads none.
proof fn lemma_read_only_at(netlist: NetlistModel, wire: u32, index: int, pin: int)
    requires
        0 <= index < netlist.cells.len(),
        0 <= pin < cell_inputs(netlist.cells[index]).len(),
        wire_fanout(netlist, wire) <= if cell_inputs(netlist.cells[index])[pin] == Bit::Wire(
            wire,
        ) {
            1nat
        } else {
            0
        },
    ensures
        read_only_at(netlist, wire, index, pin),
{
    let reads = cells_inputs(netlist.cells);
    let shown = ports_bits(netlist.ports);
    let all = reads + shown;
    let here = lemma_inputs_at(netlist.cells, index, pin);
    assert forall|i: int, m: int|
        #![trigger cell_inputs(netlist.cells[i])[m]]
        0 <= i < netlist.cells.len() && 0 <= m < cell_inputs(netlist.cells[i]).len()
            && cell_inputs(netlist.cells[i])[m] == Bit::Wire(wire) implies i == index && m
        == pin by {
        let there = lemma_inputs_at(netlist.cells, i, m);
        assert(all[there] == Bit::Wire(wire));
        lemma_count_one(all, wire, there);
        assert(all[here] == Bit::Wire(wire));
        if i < index {
            lemma_inputs_grow(netlist.cells, i, index);
        } else if index < i {
            lemma_inputs_grow(netlist.cells, index, i);
        }
        if here < there {
            lemma_count_two(all, wire, here, there);
        } else if there < here {
            lemma_count_two(all, wire, there, here);
        }
    }
    assert forall|p: int, k: int|
        #![trigger netlist.ports[p].bits[k]]
        0 <= p < netlist.ports.len() && 0 <= k
            < netlist.ports[p].bits.len() implies netlist.ports[p].bits[k] != Bit::Wire(wire) by {
        if netlist.ports[p].bits[k] == Bit::Wire(wire) {
            let at = lemma_port_bits_at(netlist.ports, p, k);
            let there = reads.len() + at;
            assert(all[there] == Bit::Wire(wire));
            lemma_count_one(all, wire, there);
            assert(all[here] == Bit::Wire(wire));
            lemma_count_two(all, wire, here, there);
        }
    }
}

/// A move of the register at `index` back across the cell at `at`: the register is
/// gone, and so is the cell where `gone` says so; the other cells stay.
pub ghost struct BackwardMove {
    pub index: int,
    pub at: int,
    pub data: u32,
    pub gone: bool,
}

/// Whether `after` is `before` with the register moved, as far as the cells that
/// stay and the loads of the cell that goes.
pub open spec fn is_backward(
    before: NetlistModel,
    after: NetlistModel,
    moved: BackwardMove,
) -> bool {
    &&& 0 <= moved.index < before.cells.len()
    &&& 0 <= moved.at < before.cells.len()
    &&& before.cells[moved.index] is FlipFlop
    &&& before.cells[moved.index]->FlipFlop_data == Bit::Wire(moved.data)
    &&& before.cells[moved.index]->FlipFlop_reset is Some
    &&& is_combinational(before.cells[moved.at])
    &&& drives(before.cells[moved.at], moved.data)
    &&& before.ports == after.ports
    &&& forall|i: int|
        0 <= i < before.cells.len() && i != moved.index && !(moved.gone && i == moved.at) ==> {
            let j = index_after_removal(i, moved.index);
            0 <= j < after.cells.len() && after.cells[j] == #[trigger] before.cells[i]
        }
    &&& moved.gone ==> forall|wire: u32| #[trigger]
        drives(before.cells[moved.at], wire) ==> read_only_at(before, wire, moved.index, 0)
}

/// Whether the moved register's output starts and steps as the register would.
pub open spec fn keeps_state(
    before: NetlistModel,
    moved: BackwardMove,
    run: spec_fn(nat) -> spec_fn(u32) -> bool,
) -> bool {
    let register = before.cells[moved.index];
    let output = register->FlipFlop_output;
    &&& run(0)(output) == register->FlipFlop_reset->0.value
    &&& forall|t: nat| #[trigger]
        run(t + 1)(output) == state_after(
            run(t),
            register->FlipFlop_enable,
            register->FlipFlop_reset,
            run(t)(output),
            driven_value(run(t), before.cells[moved.at], moved.data),
        )
}

/// A run with the cell that went back in place.
spec fn unmoved_run(
    before: NetlistModel,
    moved: BackwardMove,
    run: spec_fn(nat) -> spec_fn(u32) -> bool,
) -> spec_fn(nat) -> spec_fn(u32) -> bool {
    |t: nat|
        |wire: u32|
            if moved.gone && drives(before.cells[moved.at], wire) {
                driven_value(run(t), before.cells[moved.at], wire)
            } else {
                run(t)(wire)
            }
}

/// Where the register is not concerned, pins carry the same values.
proof fn lemma_unmoved_pin(
    before: NetlistModel,
    after: NetlistModel,
    moved: BackwardMove,
    run: spec_fn(nat) -> spec_fn(u32) -> bool,
    i: int,
    k: int,
    t: nat,
)
    requires
        is_backward(before, after, moved),
        0 <= i < before.cells.len(),
        0 <= k < cell_inputs(before.cells[i]).len(),
        i != moved.index || k != 0,
    ensures
        bit_value(unmoved_run(before, moved, run)(t), cell_inputs(before.cells[i])[k])
            == bit_value(run(t), cell_inputs(before.cells[i])[k]),
{
    if let Bit::Wire(wire) = cell_inputs(before.cells[i])[k] {
        if moved.gone && drives(before.cells[moved.at], wire) {
            assert(read_only_at(before, wire, moved.index, 0));
        }
    }
}

proof fn lemma_unmoved_around(
    before: NetlistModel,
    after: NetlistModel,
    moved: BackwardMove,
    run: spec_fn(nat) -> spec_fn(u32) -> bool,
    i: int,
    t: nat,
)
    requires
        is_backward(before, after, moved),
        drivers_apart(before.cells),
        0 <= i < before.cells.len(),
        i != moved.index,
        !(moved.gone && i == moved.at),
    ensures
        same_around(unmoved_run(before, moved, run)(t), run(t), before.cells[i]),
{
    let cell = before.cells[i];
    assert forall|wire: u32| #[trigger] touches(cell, wire) implies unmoved_run(
        before,
        moved,
        run,
    )(t)(wire) == run(t)(wire) by {
        if cell_inputs(cell).contains(Bit::Wire(wire)) {
            let pins = cell_inputs(cell);
            let k = choose|k: int| 0 <= k < pins.len() && pins[k] == Bit::Wire(wire);
            lemma_unmoved_pin(before, after, moved, run, i, k, t);
        } else {
            assert(drives(cell, wire));
            if moved.gone && drives(before.cells[moved.at], wire) {
                assert(i == moved.at);
            }
        }
    }
}

#[verifier::rlimit(40)]
proof fn lemma_unmoved_register(
    before: NetlistModel,
    after: NetlistModel,
    moved: BackwardMove,
    run: spec_fn(nat) -> spec_fn(u32) -> bool,
    t: nat,
)
    requires
        is_backward(before, after, moved),
        drivers_apart(before.cells),
        keeps_state(before, moved, run),
        is_run(run, after.cells),
    ensures
        cell_starts(unmoved_run(before, moved, run)(0), before.cells[moved.index]),
        cell_steps(
            unmoved_run(before, moved, run)(t),
            unmoved_run(before, moved, run)(t + 1),
            before.cells[moved.index],
        ),
{
    let left = unmoved_run(before, moved, run);
    let cell = before.cells[moved.index];
    let pins = cell_inputs(cell);
    if let CellModel::FlipFlop { data, output, clock, enable, reset, .. } = cell {
        assert(cell_outputs(cell)[0] == Bit::Wire(output));
        assert(drives(cell, output));
        assert(!drives(before.cells[moved.at], output));
        assert(left(t)(output) == run(t)(output));
        assert(left(t + 1)(output) == run(t + 1)(output));
        assert(left(0)(output) == run(0)(output));
        assert(left(t)(moved.data) == driven_value(run(t), before.cells[moved.at], moved.data)) by {
            if !moved.gone {
                let j = index_after_removal(moved.at, moved.index);
                assert(after.cells[j] == before.cells[moved.at]);
                assert(cells_agree(run(t), after.cells));
                assert(cell_agrees(run(t), after.cells[j]));
                lemma_agrees_by_wire(run(t), before.cells[moved.at]);
            }
        }
        reveal(state_after);
        if let Some(control) = enable {
            assert(pins[2] == control.signal);
            lemma_unmoved_pin(before, after, moved, run, moved.index, 2, t);
            assert(pins[3] == reset->0.signal);
            lemma_unmoved_pin(before, after, moved, run, moved.index, 3, t);
        } else {
            assert(pins[2] == reset->0.signal);
            lemma_unmoved_pin(before, after, moved, run, moved.index, 2, t);
        }
    }
}

#[verifier::rlimit(40)]
proof fn lemma_unmoved_cell(
    before: NetlistModel,
    after: NetlistModel,
    moved: BackwardMove,
    run: spec_fn(nat) -> spec_fn(u32) -> bool,
    i: int,
    t: nat,
)
    requires
        is_backward(before, after, moved),
        drivers_apart(before.cells),
        keeps_state(before, moved, run),
        is_run(run, after.cells),
        0 <= i < before.cells.len(),
    ensures
        cell_starts(unmoved_run(before, moved, run)(0), before.cells[i]),
        cell_agrees(unmoved_run(before, moved, run)(t), before.cells[i]),
        cell_steps(
            unmoved_run(before, moved, run)(t),
            unmoved_run(before, moved, run)(t + 1),
            before.cells[i],
        ),
        is_box(before.cells[i]) ==> exists|j: int|
            0 <= j < after.cells.len() && same_box(
                unmoved_run(before, moved, run)(t),
                before.cells[i],
                run(t),
                #[trigger] after.cells[j],
            ),
{
    let left = unmoved_run(before, moved, run);
    let cell = before.cells[i];
    if i == moved.index {
        lemma_unmoved_register(before, after, moved, run, t);
    } else if moved.gone && i == moved.at {
        let pins = cell_inputs(cell);
        assert forall|k: int| 0 <= k < pins.len() implies bit_value(left(t), #[trigger] pins[k])
            == bit_value(run(t), pins[k]) by {
            lemma_unmoved_pin(before, after, moved, run, i, k, t);
        }
        assert forall|wire: u32| drives(cell, wire) implies #[trigger] left(t)(wire)
            == driven_value(left(t), cell, wire) by {
            lemma_driven_same(left(t), run(t), cell, wire);
        }
        lemma_agrees_by_wire(left(t), cell);
    } else {
        let j = index_after_removal(i, moved.index);
        assert(after.cells[j] == cell);
        lemma_unmoved_around(before, after, moved, run, i, t);
        lemma_unmoved_around(before, after, moved, run, i, t + 1);
        lemma_unmoved_around(before, after, moved, run, i, 0);
        lemma_local(left(t), run(t), left(t + 1), run(t + 1), cell);
        lemma_local(left(0), run(0), left(t), run(t), cell);
        assert(cells_agree(run(t), after.cells));
        assert(cells_step(run(t), run(t + 1), after.cells));
        assert(cell_agrees(run(t), after.cells[j]));
        assert(cell_steps(run(t), run(t + 1), after.cells[j]));
        assert(cell_starts(run(0), after.cells[j]));
        if is_box(cell) {
            assert(same_box(left(t), cell, run(t), after.cells[j]));
        }
    }
}

/// A move back keeps what is shown where it keeps the register's state.
#[verifier::rlimit(40)]
proof fn lemma_backward_shows_no_more(
    before: NetlistModel,
    after: NetlistModel,
    moved: BackwardMove,
)
    requires
        is_well_driven(before),
        is_backward(before, after, moved),
        forall|run: spec_fn(nat) -> spec_fn(u32) -> bool| #[trigger]
            is_run(run, after.cells) ==> keeps_state(before, moved, run),
    ensures
        shows_no_more(before, after),
{
    reveal(shows_no_more);
    assert forall|run: spec_fn(nat) -> spec_fn(u32) -> bool| #[trigger]
        is_run(run, after.cells) implies exists|left: spec_fn(nat) -> spec_fn(u32) -> bool|
        is_run(left, before.cells) && #[trigger] shows_same(left, before, run, after) by {
        let left = unmoved_run(before, moved, run);
        assert forall|i: int| 0 <= i < before.cells.len() implies cell_starts(
            left(0),
            #[trigger] before.cells[i],
        ) by {
            lemma_unmoved_cell(before, after, moved, run, i, 0);
        }
        assert forall|t: nat| cells_agree(#[trigger] left(t), before.cells) by {
            assert forall|i: int| 0 <= i < before.cells.len() implies cell_agrees(
                left(t),
                #[trigger] before.cells[i],
            ) by {
                lemma_unmoved_cell(before, after, moved, run, i, t);
            }
        }
        assert forall|t: nat| cells_step(#[trigger] left(t), left(t + 1), before.cells) by {
            assert forall|i: int| 0 <= i < before.cells.len() implies cell_steps(
                left(t),
                left(t + 1),
                #[trigger] before.cells[i],
            ) by {
                lemma_unmoved_cell(before, after, moved, run, i, t);
            }
        }
        assert(is_run(left, before.cells));
        assert forall|t: nat|
            same_ports(#[trigger] left(t), before.ports, run(t), after.ports) && same_boxes(
                left(t),
                before.cells,
                run(t),
                after.cells,
            ) by {
            assert forall|p: int, k: int|
                0 <= p < before.ports.len() && 0 <= k < before.ports[p].bits.len() implies bit_value(
                left(t),
                #[trigger] before.ports[p].bits[k],
            ) == bit_value(run(t), before.ports[p].bits[k]) by {
                if let Bit::Wire(wire) = before.ports[p].bits[k] {
                    if moved.gone && drives(before.cells[moved.at], wire) {
                        assert(read_only_at(before, wire, moved.index, 0));
                    }
                }
            }
            assert forall|i: int|
                0 <= i < before.cells.len() && is_box(
                    #[trigger] before.cells[i],
                ) implies exists|j: int|
                0 <= j < after.cells.len() && same_box(
                    left(t),
                    before.cells[i],
                    run(t),
                    #[trigger] after.cells[j],
                ) by {
                lemma_unmoved_cell(before, after, moved, run, i, t);
            }
        }
        assert(shows_same(left, before, run, after));
    }
}

/// Whether the certified resets of a move back across a lookup table give, through
/// the table, the reset of the register that moves.
pub open spec fn lut_resets_hold(netlist: NetlistModel, index: int, edges: Seq<EdgeModel>) -> bool {
    backward_lut_sources(netlist, index) matches Some((register, lut)) ==> table_value(
        netlist.cells[lut]->Lut4_init,
        netlist.cells[lut]->Lut4_inputs,
        |bit: Bit|
            certified_reset(edges, sorted_wires(netlist.cells[lut]->Lut4_inputs@), bit),
    ) == register.reset.value
}

proof fn lemma_copy_starts(
    values: spec_fn(u32) -> bool,
    netlist: NetlistModel,
    index: int,
    register: ResetRegister,
    lut: int,
    first: u32,
    edges: Seq<EdgeModel>,
    pin: int,
)
    requires
        0 <= index < netlist.cells.len() <= usize::MAX,
        0 <= lut < netlist.cells.len(),
        lut != index,
        0 <= pin < 4,
        forall|i: int|
            0 <= i < sorted_wires(netlist.cells[lut]->Lut4_inputs@).len() ==> cell_starts(
                values,
                #[trigger] backward_lut_cells(
                    netlist,
                    index,
                    register,
                    lut,
                    first,
                    edges,
                )[copy_place(netlist, i)],
            ),
    ensures
        ({
            let inputs = netlist.cells[lut]->Lut4_inputs;
            let wires = sorted_wires(inputs@);
            bit_value(values, shifted_pin(inputs[pin], wires, first)) == certified_reset(
                edges,
                wires,
                inputs[pin],
            )
        }),
{
    let inputs = netlist.cells[lut]->Lut4_inputs;
    let wires = sorted_wires(inputs@);
    let cells = backward_lut_cells(netlist, index, register, lut, first, edges);
    lemma_pin_wire(inputs, pin);
    if let Bit::Wire(wire) = inputs[pin] {
        let k = wire_index(wires, wire);
        let at = copy_place(netlist, k);
        assert(cells[at] == backward_lut_register(
            netlist.cells[index].cell_name(),
            register,
            wires[k],
            (first + k) as u32,
            edges[k].reset_values[0],
        ));
        assert(cell_starts(values, cells[copy_place(netlist, k)]));
    }
}

/// What a move back across a lookup table is.
pub open spec fn is_lut_move(
    netlist: NetlistModel,
    after: NetlistModel,
    index: int,
    register: ResetRegister,
    lut: int,
    first: u32,
    edges: Seq<EdgeModel>,
) -> bool {
    &&& backward_lut_sources(netlist, index) == Some((register, lut))
    &&& covers(edges, sorted_wires(netlist.cells[lut]->Lut4_inputs@).len())
    &&& maximum_wire(netlist) matches Some(wire) && first == wire + 1
    &&& first + sorted_wires(netlist.cells[lut]->Lut4_inputs@).len() <= u32::MAX
    &&& after.cells == backward_lut_cells(netlist, index, register, lut, first, edges)
    &&& after.ports == netlist.ports
}

/// The plan of a move back across a lookup table.
spec fn lut_plan(netlist: NetlistModel, index: int, lut: int, first: u32) -> BackwardPlan {
    let copies = sorted_wires(netlist.cells[lut]->Lut4_inputs@).len();
    let gone = wire_fanout(netlist, netlist.cells[lut]->Lut4_output) == 1;
    BackwardPlan {
        moved: BackwardMove {
            index,
            at: lut,
            data: netlist.cells[index]->FlipFlop_data->Wire_0,
            gone,
        },
        first,
        copies,
        place: if gone {
            index_after_removal(lut, index)
        } else {
            netlist.cells.len() - 1 + copies
        },
    }
}

#[verifier::rlimit(60)]
proof fn lemma_lut_plan(
    netlist: NetlistModel,
    after: NetlistModel,
    index: int,
    register: ResetRegister,
    lut: int,
    first: u32,
    edges: Seq<EdgeModel>,
)
    requires
        is_well_driven(netlist),
        is_lut_move(netlist, after, index, register, lut, first, edges),
    ensures
        is_moved_back(netlist, after, lut_plan(netlist, index, lut, first)),
{
    let plan = lut_plan(netlist, index, lut, first);
    let inputs = netlist.cells[lut]->Lut4_inputs;
    let wires = sorted_wires(inputs@);
    let data = register.data->Wire_0;
    let output = netlist.cells[lut]->Lut4_output;
    let cells = after.cells;
    let kept = netlist.cells.remove(index);
    let gone = plan.moved.gone;
    let cell = netlist.cells[lut];
    lemma_lut_found(netlist.cells, data, 0);
    lemma_cells_counted(netlist);
    lemma_all_below(netlist);
    lemma_sorted_wires(inputs@);
    assert(cell_outputs(cell)[0] == Bit::Wire(output));
    assert(drives(cell, data));
    assert(cell_inputs(netlist.cells[index])[0] == Bit::Wire(data));
    if gone {
        lemma_read_only_at(netlist, data, index, 0);
    }
    assert forall|i: int|
        0 <= i < netlist.cells.len() && i != index && !(gone && i == lut) implies {
        let j = index_after_removal(i, index);
        0 <= j < cells.len() && cells[j] == #[trigger] netlist.cells[i]
    } by {
        let j = index_after_removal(i, index);
        assert(kept[j] == netlist.cells[i]);
    }
    assert(is_backward(netlist, after, plan.moved));
    assert forall|i: int| 0 <= i < plan.copies implies is_moved_copy(
        netlist,
        plan,
        #[trigger] cells[copy_place(netlist, i)],
        i,
    ) by {
        let copy = cells[copy_place(netlist, i)];
        assert(copy == backward_lut_register(
            netlist.cells[index].cell_name(),
            register,
            wires[i],
            (first + i) as u32,
            edges[i].reset_values[0],
        ));
        assert(wires.contains(wires[i]));
        lemma_copy_takes(netlist, plan, register, copy, Bit::Wire(wires[i]));
    }
    let moved = cells[plan.place];
    assert(moved->Lut4_output == register.output);
    assert(cell_outputs(moved) =~= seq![Bit::Wire(register.output)]);
    assert(cell_outputs(moved)[0] == Bit::Wire(register.output));
    assert forall|wire: u32| #[trigger] reads(moved, wire) implies first <= wire < first
        + plan.copies by {
        let pins = cell_inputs(moved);
        let k = choose|k: int| 0 <= k < pins.len() && pins[k] == Bit::Wire(wire);
        assert(pins == shifted_pins(inputs, wires, first)@);
        assert(pins[k] == shifted_pin(inputs[k], wires, first)) by {
            assert(k == 0 || k == 1 || k == 2 || k == 3);
        }
        lemma_pin_wire(inputs, k);
    }
}

/// A copy with the register's controls reads what is taken.
proof fn lemma_copy_takes(
    netlist: NetlistModel,
    plan: BackwardPlan,
    register: ResetRegister,
    copy: CellModel,
    data: Bit,
)
    requires
        0 <= plan.moved.index < netlist.cells.len(),
        reset_register(netlist.cells[plan.moved.index]) == Some(register),
        copy is FlipFlop,
        copy->FlipFlop_data == data,
        copy->FlipFlop_clock == register.clock,
        copy->FlipFlop_enable == register.enable,
        copy->FlipFlop_reset matches Some(reset) && reset.signal == register.reset.signal,
        data matches Bit::Wire(wire) ==> reads(netlist.cells[plan.moved.at], wire),
    ensures
        forall|wire: u32| #[trigger] reads(copy, wire) ==> is_taken(netlist, plan, wire),
{
    let cell = netlist.cells[plan.moved.index];
    let theirs = cell_inputs(cell);
    let ours = cell_inputs(copy);
    assert forall|wire: u32| #[trigger] reads(copy, wire) implies is_taken(
        netlist,
        plan,
        wire,
    ) by {
        let k = choose|k: int| 0 <= k < ours.len() && ours[k] == Bit::Wire(wire);
        if k > 0 {
            assert(ours[k] == theirs[k]);
            assert(cell_inputs(netlist.cells[plan.moved.index])[k] == Bit::Wire(wire));
        }
    }
}

/// The table behind the copies carries the register's state.
#[verifier::rlimit(60)]
proof fn lemma_lut_carries(
    netlist: NetlistModel,
    after: NetlistModel,
    index: int,
    register: ResetRegister,
    lut: int,
    first: u32,
    edges: Seq<EdgeModel>,
)
    requires
        is_well_driven(netlist),
        is_lut_move(netlist, after, index, register, lut, first, edges),
        lut_resets_hold(netlist, index, edges),
    ensures
        carries_state(netlist, after, lut_plan(netlist, index, lut, first)),
{
    let plan = lut_plan(netlist, index, lut, first);
    let inputs = netlist.cells[lut]->Lut4_inputs;
    let init = netlist.cells[lut]->Lut4_init;
    let wires = sorted_wires(inputs@);
    let cells = after.cells;
    lemma_lut_found(netlist.cells, register.data->Wire_0, 0);
    lemma_cells_counted(netlist);
    let moved = cells[plan.place];
    assert(moved->Lut4_output == register.output);
    assert(moved->Lut4_inputs == shifted_pins(inputs, wires, first));
    assert(moved->Lut4_init == init);
    reveal(carries_state);
    assert forall|values: spec_fn(u32) -> bool| #[trigger]
        moves_off(values, netlist, after, plan) implies values(register.output)
        == register.reset.value by {
        lemma_copy_starts(values, netlist, index, register, lut, first, edges, 0);
        lemma_copy_starts(values, netlist, index, register, lut, first, edges, 1);
        lemma_copy_starts(values, netlist, index, register, lut, first, edges, 2);
        lemma_copy_starts(values, netlist, index, register, lut, first, edges, 3);
    }
    assert forall|now: spec_fn(u32) -> bool, next: spec_fn(u32) -> bool| #[trigger]
        moves_on(now, next, netlist, after, plan) implies next(register.output) == state_after(
        now,
        register.enable,
        Some(register.reset),
        now(register.output),
        driven_value(now, netlist.cells[lut], plan.moved.data),
    ) by {
        assert forall|i: int| 0 <= i < wires.len() implies next((first + i) as u32)
            == state_after(
            now,
            register.enable,
            Some(Reset { value: edges[i].reset_values[0], ..register.reset }),
            now((first + i) as u32),
            now(#[trigger] wires[i]),
        ) by {
            let copy = cells[copy_place(netlist, i)];
            assert(copy == backward_lut_register(
                netlist.cells[index].cell_name(),
                register,
                wires[i],
                (first + i) as u32,
                edges[i].reset_values[0],
            ));
            assert(cell_steps(now, next, cells[copy_place(netlist, i)]));
        }
        assert(copies_step(now, next, register, wires, first, edges));
        lemma_copied_table(now, next, register, inputs, init, first, edges);
        assert((Reset { value: register.reset.value, ..register.reset }) == register.reset);
    }
}

/// A run after the move keeps the register's state.
proof fn lemma_carried_runs(
    before: NetlistModel,
    after: NetlistModel,
    plan: BackwardPlan,
    run: spec_fn(nat) -> spec_fn(u32) -> bool,
)
    requires
        is_moved_back(before, after, plan),
        carries_state(before, after, plan),
        is_run(run, after.cells),
    ensures
        keeps_state(before, plan.moved, run),
{
    reveal(carries_state);
    let register = before.cells[plan.moved.index];
    let output = register->FlipFlop_output;
    assert(cells_agree(run(0), after.cells));
    assert(moves_off(run(0), before, after, plan));
    assert forall|t: nat| #[trigger]
        run(t + 1)(output) == state_after(
            run(t),
            register->FlipFlop_enable,
            register->FlipFlop_reset,
            run(t)(output),
            driven_value(run(t), before.cells[plan.moved.at], plan.moved.data),
        ) by {
        assert(cells_agree(run(t), after.cells));
        assert(cells_agree(run(t + 1), after.cells));
        assert(cells_step(run(t), run(t + 1), after.cells));
        assert(moves_on(run(t), run(t + 1), before, after, plan));
    }
}

proof fn lemma_plan_keeps_shown(before: NetlistModel, after: NetlistModel, plan: BackwardPlan)
    requires
        is_well_driven(before),
        is_moved_back(before, after, plan),
        carries_state(before, after, plan),
    ensures
        keeps_shown(before, after),
{
    assert forall|run: spec_fn(nat) -> spec_fn(u32) -> bool| #[trigger]
        is_run(run, after.cells) implies keeps_state(before, plan.moved, run) by {
        lemma_carried_runs(before, after, plan, run);
    }
    lemma_backward_shows_no_more(before, after, plan.moved);
    lemma_moved_back_shows_no_less(before, after, plan);
}

/// Moving a register back across a lookup table leaves the netlist wired up.
pub proof fn law_backward_lut_keeps_wiring(
    netlist: NetlistModel,
    after: NetlistModel,
    index: int,
    register: ResetRegister,
    lut: int,
    first: u32,
    edges: Seq<EdgeModel>,
)
    requires
        is_well_driven(netlist),
        is_lut_move(netlist, after, index, register, lut, first, edges),
    ensures
        is_well_driven(after),
{
    lemma_lut_plan(netlist, after, index, register, lut, first, edges);
    lemma_moved_back_keeps_wiring(netlist, after, lut_plan(netlist, index, lut, first));
}

/// Moving a register back across a lookup table keeps what is shown, where the
/// certified resets give the old one.
pub proof fn law_backward_lut_keeps_shown(
    netlist: NetlistModel,
    after: NetlistModel,
    index: int,
    register: ResetRegister,
    lut: int,
    first: u32,
    edges: Seq<EdgeModel>,
)
    requires
        is_well_driven(netlist),
        is_lut_move(netlist, after, index, register, lut, first, edges),
        lut_resets_hold(netlist, index, edges),
    ensures
        keeps_shown(netlist, after),
{
    lemma_lut_plan(netlist, after, index, register, lut, first, edges);
    lemma_lut_carries(netlist, after, index, register, lut, first, edges);
    lemma_plan_keeps_shown(netlist, after, lut_plan(netlist, index, lut, first));
}

/// Whether the certified resets of a move back across a carry primitive give,
/// through the primitive, the reset of the register that moves.
pub open spec fn ccu_resets_hold(netlist: NetlistModel, index: int, edges: Seq<EdgeModel>) -> bool {
    backward_ccu_sources(netlist, index) matches Some((register, at, output))
        ==> certified_output(ccu_of(netlist.cells[at]), output, edges) == register.reset.value
}

#[verifier::rlimit(40)]
proof fn lemma_ccu_backward(
    netlist: NetlistModel,
    after: NetlistModel,
    index: int,
    register: ResetRegister,
    at: int,
    output: CcuRetimeOutput,
    first: u32,
    edges: Seq<EdgeModel>,
) -> (moved: BackwardMove)
    requires
        netlist.cells.len() <= usize::MAX,
        backward_ccu_sources(netlist, index) == Some((register, at, output)),
        after.cells == backward_ccu_cells(netlist, index, register, at, output, first, edges),
        after.ports == netlist.ports,
    ensures
        is_backward(netlist, after, moved),
        moved.index == index,
        moved.at == at,
        moved.data == register.data->Wire_0,
        moved.gone == feeds_only(netlist, ccu_of(netlist.cells[at]), register.data->Wire_0),
        at != index,
        0 <= index < netlist.cells.len(),
{
    let data = register.data->Wire_0;
    let cell = netlist.cells[at];
    let ccu = ccu_of(cell);
    let cells = after.cells;
    let kept = netlist.cells.remove(index);
    lemma_ccu_found(netlist.cells, data, 0);
    assert(netlist.cells[index] is FlipFlop);
    let gone = feeds_only(netlist, ccu, data);
    let moved = BackwardMove { index, at, data, gone };
    let outputs = cell_outputs(cell);
    assert(outputs[0] == Bit::Wire(ccu.sums[0]));
    assert(outputs[1] == Bit::Wire(ccu.sums[1]));
    assert(outputs[2] == Bit::Wire(ccu.carry_out));
    assert(drives(cell, data));
    assert(cell_inputs(netlist.cells[index])[0] == Bit::Wire(data));
    if gone {
        assert forall|wire: u32| #[trigger] drives(cell, wire) implies read_only_at(
            netlist,
            wire,
            index,
            0,
        ) by {
            lemma_read_only_at(netlist, wire, index, 0);
        }
    }
    assert forall|i: int|
        0 <= i < netlist.cells.len() && i != index && !(gone && i == at) implies {
        let j = index_after_removal(i, index);
        0 <= j < cells.len() && cells[j] == #[trigger] netlist.cells[i]
    } by {
        let j = index_after_removal(i, index);
        assert(kept[j] == netlist.cells[i]);
    }
    moved
}

/// What a move back across a carry primitive is.
pub open spec fn is_ccu_move(
    netlist: NetlistModel,
    after: NetlistModel,
    index: int,
    register: ResetRegister,
    at: int,
    output: CcuRetimeOutput,
    first: u32,
    edges: Seq<EdgeModel>,
) -> bool {
    let ccu = ccu_of(netlist.cells[at]);
    &&& backward_ccu_sources(netlist, index) == Some((register, at, output))
    &&& boundaries_covered(cone_graph(ccu, output).boundaries, edges)
    &&& maximum_wire(netlist) matches Some(wire) && first == wire + 1
    &&& first + backward_ccu_wires(ccu, output) <= u32::MAX
    &&& after.cells == backward_ccu_cells(netlist, index, register, at, output, first, edges)
    &&& after.ports == netlist.ports
}

/// The plan of a move back across a carry primitive.
spec fn ccu_plan(
    netlist: NetlistModel,
    index: int,
    at: int,
    output: CcuRetimeOutput,
    first: u32,
) -> BackwardPlan {
    let ccu = ccu_of(netlist.cells[at]);
    let copies = cone_graph(ccu, output).boundaries.len();
    let data = netlist.cells[index]->FlipFlop_data->Wire_0;
    let gone = feeds_only(netlist, ccu, data);
    BackwardPlan {
        moved: BackwardMove { index, at, data, gone },
        first,
        copies,
        place: if gone {
            index_after_removal(at, index)
        } else {
            netlist.cells.len() - 1 + copies
        },
    }
}

/// A pin of the moved primitive reads a copy or a constant.
proof fn lemma_moved_pin(
    ccu: CcuModel,
    output: CcuRetimeOutput,
    location: CcuInputLocation,
    base: Bit,
    first: u32,
    wire: u32,
)
    requires
        is_location(location),
        base is Wire ==> decides(ccu, output, location) && base == bit_at(ccu, location),
        first + cone_graph(ccu, output).boundaries.len() <= u32::MAX,
        moved_bit(cone_graph(ccu, output).boundaries, location, base, first) == Bit::Wire(wire),
    ensures
        first <= wire < first + cone_graph(ccu, output).boundaries.len(),
{
    let boundaries = cone_graph(ccu, output).boundaries;
    lemma_boundary_at(boundaries, location);
    if base is Wire {
        lemma_cone(ccu, output, location);
    }
}

#[verifier::rlimit(60)]
proof fn lemma_moved_ccu_reads(
    ccu: CcuModel,
    output: CcuRetimeOutput,
    register_output: u32,
    first: u32,
    name: Seq<char>,
    wire: u32,
)
    requires
        first + cone_graph(ccu, output).boundaries.len() <= u32::MAX,
        reads(moved_ccu(ccu, output, register_output, first, name), wire),
    ensures
        first <= wire < first + cone_graph(ccu, output).boundaries.len(),
{
    let cell = moved_ccu(ccu, output, register_output, first, name);
    let pins = cell_inputs(cell);
    let second = output != CcuRetimeOutput::Sum0;
    let uses_first = !second || !ccu.inject[1];
    let k = choose|k: int| 0 <= k < pins.len() && pins[k] == Bit::Wire(wire);
    let inputs = cell->Ccu2c_inputs;
    if k < 4 {
        let location = CcuInputLocation::Pin { slice: 0, pin: k as usize };
        let base = if uses_first {
            ccu.inputs[0][k]
        } else {
            Bit::Zero
        };
        assert(pins[k] == inputs[0][k]);
        assert(inputs[0][k] == moved_bit(
            cone_graph(ccu, output).boundaries,
            location,
            base,
            first,
        )) by {
            assert(k == 0 || k == 1 || k == 2 || k == 3);
        }
        lemma_moved_pin(ccu, output, location, base, first, wire);
    } else if k < 8 {
        let pin = k - 4;
        let location = CcuInputLocation::Pin { slice: 1, pin: pin as usize };
        let base = if second {
            ccu.inputs[1][pin]
        } else {
            Bit::Zero
        };
        assert(pins[k] == inputs[1][pin]);
        assert(inputs[1][pin] == moved_bit(
            cone_graph(ccu, output).boundaries,
            location,
            base,
            first,
        )) by {
            assert(pin == 0 || pin == 1 || pin == 2 || pin == 3);
        }
        lemma_moved_pin(ccu, output, location, base, first, wire);
    } else {
        let base = if uses_first && !ccu.inject[0] {
            ccu.carry_in
        } else {
            Bit::Zero
        };
        assert(pins[8] == cell->Ccu2c_carry_in);
        lemma_moved_pin(ccu, output, CcuInputLocation::CarryIn, base, first, wire);
    }
}

#[verifier::rlimit(60)]
proof fn lemma_moved_ccu_drives(
    ccu: CcuModel,
    output: CcuRetimeOutput,
    register_output: u32,
    first: u32,
    name: Seq<char>,
)
    requires
        first + backward_ccu_wires(ccu, output) <= u32::MAX,
        register_output < first,
    ensures
        ({
            let cell = moved_ccu(ccu, output, register_output, first, name);
            &&& drives_apart(cell)
            &&& drives(cell, register_output)
            &&& forall|wire: u32| #[trigger]
                drives(cell, wire) ==> wire == register_output || wire >= first + cone_graph(
                    ccu,
                    output,
                ).boundaries.len()
        }),
{
    let cell = moved_ccu(ccu, output, register_output, first, name);
    let outputs = cell_outputs(cell);
    let next = (first + cone_graph(ccu, output).boundaries.len()) as u32;
    assert(outputs[0] == Bit::Wire(cell->Ccu2c_sums[0]));
    assert(outputs[1] == Bit::Wire(cell->Ccu2c_sums[1]));
    assert(outputs[2] == Bit::Wire(cell->Ccu2c_carry_out));
    assert(outputs.contains(Bit::Wire(register_output))) by {
        match output {
            CcuRetimeOutput::Sum0 => {
                assert(outputs[0] == Bit::Wire(register_output));
            },
            CcuRetimeOutput::Sum1 => {
                assert(outputs[1] == Bit::Wire(register_output));
            },
            CcuRetimeOutput::Carry => {
                assert(outputs[2] == Bit::Wire(register_output));
            },
        }
    }
}

#[verifier::rlimit(60)]
proof fn lemma_ccu_plan(
    netlist: NetlistModel,
    after: NetlistModel,
    index: int,
    register: ResetRegister,
    at: int,
    output: CcuRetimeOutput,
    first: u32,
    edges: Seq<EdgeModel>,
)
    requires
        is_well_driven(netlist),
        is_ccu_move(netlist, after, index, register, at, output, first, edges),
    ensures
        is_moved_back(netlist, after, ccu_plan(netlist, index, at, output, first)),
{
    let plan = ccu_plan(netlist, index, at, output, first);
    let cell = netlist.cells[at];
    let ccu = ccu_of(cell);
    let boundaries = cone_graph(ccu, output).boundaries;
    let cells = after.cells;
    lemma_cells_counted(netlist);
    lemma_all_below(netlist);
    let moved = lemma_ccu_backward(netlist, after, index, register, at, output, first, edges);
    assert(moved == plan.moved);
    lemma_ccu_found(netlist.cells, register.data->Wire_0, 0);
    lemma_cone_wires(ccu, output);
    assert forall|i: int| 0 <= i < plan.copies implies is_moved_copy(
        netlist,
        plan,
        #[trigger] cells[copy_place(netlist, i)],
        i,
    ) by {
        let copy = cells[copy_place(netlist, i)];
        lemma_ccu_copy(netlist, index, register, at, output, first, edges, i);
        let bit = boundaries[i].bit;
        lemma_location_read(cell, boundaries[i].location);
        lemma_copy_takes(netlist, plan, register, copy, bit);
    }
    lemma_ccu_moved(netlist, index, register, at, output, first, edges);
    let name = cells[plan.place].cell_name();
    assert(touches(netlist.cells[index], register.output)) by {
        assert(cell_outputs(netlist.cells[index])[0] == Bit::Wire(register.output));
    }
    lemma_moved_ccu_drives(ccu, output, register.output, first, name);
    assert forall|wire: u32| #[trigger] reads(cells[plan.place], wire) implies first <= wire
        < first + plan.copies by {
        lemma_moved_ccu_reads(ccu, output, register.output, first, name, wire);
    }
}

/// What stands at a location is read.
proof fn lemma_location_read(cell: CellModel, location: CcuInputLocation)
    requires
        cell is Ccu2c,
        is_location(location),
    ensures
        cell_inputs(cell).contains(bit_at(ccu_of(cell), location)),
{
    let pins = cell_inputs(cell);
    let inputs = cell->Ccu2c_inputs;
    match location {
        CcuInputLocation::Pin { slice, pin } => {
            if slice == 0 {
                assert(pins[pin as int] == inputs[0][pin as int]);
            } else {
                assert(pins[4 + pin] == inputs[1][pin as int]);
            }
        },
        CcuInputLocation::CarryIn => {
            assert(pins[8] == cell->Ccu2c_carry_in);
        },
    }
}

/// Where a copy stands.
#[verifier::rlimit(40)]
proof fn lemma_ccu_copy(
    netlist: NetlistModel,
    index: int,
    register: ResetRegister,
    at: int,
    output: CcuRetimeOutput,
    first: u32,
    edges: Seq<EdgeModel>,
    i: int,
)
    requires
        0 <= index < netlist.cells.len() <= usize::MAX,
        0 <= at < netlist.cells.len(),
        at != index,
        0 <= i < cone_graph(ccu_of(netlist.cells[at]), output).boundaries.len(),
    ensures
        ({
            let ccu = ccu_of(netlist.cells[at]);
            let boundary = cone_graph(ccu, output).boundaries[i];
            backward_ccu_cells(
                netlist,
                index,
                register,
                at,
                output,
                first,
                edges,
            )[copy_place(netlist, i)] == backward_ccu_register(
                register,
                netlist.cells[index].cell_name(),
                ccu.name,
                boundary,
                (first + i) as u32,
                reset_from(edges, boundary.vertex as int)->0,
            )
        }),
{
}

/// Where the moved primitive stands.
#[verifier::rlimit(40)]
proof fn lemma_ccu_moved(
    netlist: NetlistModel,
    index: int,
    register: ResetRegister,
    at: int,
    output: CcuRetimeOutput,
    first: u32,
    edges: Seq<EdgeModel>,
)
    requires
        0 <= index < netlist.cells.len() <= usize::MAX,
        0 <= at < netlist.cells.len(),
        at != index,
        netlist.cells[index]->FlipFlop_data == register.data,
    ensures
        ({
            let ccu = ccu_of(netlist.cells[at]);
            let plan = ccu_plan(netlist, index, at, output, first);
            let cells = backward_ccu_cells(netlist, index, register, at, output, first, edges);
            &&& cells[plan.place] == moved_ccu(
                ccu,
                output,
                register.output,
                first,
                cells[plan.place].cell_name(),
            )
            &&& cells.len() == netlist.cells.len() - 1 + plan.copies + if plan.moved.gone {
                0int
            } else {
                1
            }
        }),
{
}

/// The primitive behind the copies carries the register's state.
#[verifier::rlimit(60)]
proof fn lemma_ccu_carries(
    netlist: NetlistModel,
    after: NetlistModel,
    index: int,
    register: ResetRegister,
    at: int,
    output: CcuRetimeOutput,
    first: u32,
    edges: Seq<EdgeModel>,
)
    requires
        is_well_driven(netlist),
        is_ccu_move(netlist, after, index, register, at, output, first, edges),
        ccu_resets_hold(netlist, index, edges),
    ensures
        carries_state(netlist, after, ccu_plan(netlist, index, at, output, first)),
{
    let plan = ccu_plan(netlist, index, at, output, first);
    let cell = netlist.cells[at];
    let ccu = ccu_of(cell);
    let boundaries = cone_graph(ccu, output).boundaries;
    let cells = after.cells;
    lemma_cells_counted(netlist);
    lemma_ccu_found(netlist.cells, register.data->Wire_0, 0);
    assert(netlist.cells[index] is FlipFlop);
    lemma_ccu_moved(netlist, index, register, at, output, first, edges);
    reveal(carries_state);
    assert forall|values: spec_fn(u32) -> bool| #[trigger]
        moves_off(values, netlist, after, plan) implies values(register.output)
        == register.reset.value by {
        assert forall|i: int| 0 <= i < boundaries.len() implies values((first + i) as u32)
            == reset_from(edges, (#[trigger] boundaries[i]).vertex as int)->0 by {
            lemma_ccu_copy(netlist, index, register, at, output, first, edges, i);
            assert(cell_starts(values, cells[copy_place(netlist, i)]));
        }
        lemma_nameless(values, ccu, output, register.output, first, cells[plan.place]);
        lemma_reset_outputs(values, register, ccu, output, first, edges);
    }
    assert forall|now: spec_fn(u32) -> bool, next: spec_fn(u32) -> bool| #[trigger]
        moves_on(now, next, netlist, after, plan) implies next(register.output) == state_after(
        now,
        register.enable,
        Some(register.reset),
        now(register.output),
        driven_value(now, cell, plan.moved.data),
    ) by {
        assert forall|i: int| 0 <= i < boundaries.len() implies next((first + i) as u32)
            == state_after(
            now,
            register.enable,
            Some(
                Reset {
                    value: reset_from(edges, (#[trigger] boundaries[i]).vertex as int)->0,
                    ..register.reset
                },
            ),
            now((first + i) as u32),
            bit_value(now, boundaries[i].bit),
        ) by {
            lemma_ccu_copy(netlist, index, register, at, output, first, edges, i);
            assert(cell_steps(now, next, cells[copy_place(netlist, i)]));
        }
        lemma_nameless(now, ccu, output, register.output, first, cells[plan.place]);
        lemma_nameless(next, ccu, output, register.output, first, cells[plan.place]);
        lemma_backward_outputs(now, next, register, ccu, output, first, edges);
        lemma_drives(
            |bit: Bit| bit_value(now, bit),
            ccu.inputs,
            ccu.carry_in,
            ccu.init,
            ccu.inject,
        );
        assert((Reset { value: register.reset.value, ..register.reset }) == register.reset);
    }
}

/// Whether a cell agrees does not depend on its name.
proof fn lemma_nameless(
    values: spec_fn(u32) -> bool,
    ccu: CcuModel,
    output: CcuRetimeOutput,
    register_output: u32,
    first: u32,
    cell: CellModel,
)
    requires
        cell == moved_ccu(ccu, output, register_output, first, cell.cell_name()),
        cell_agrees(values, cell),
    ensures
        cell_agrees(values, moved_ccu(ccu, output, register_output, first, seq![])),
{
    let other = moved_ccu(ccu, output, register_output, first, seq![]);
    assert(other->Ccu2c_inputs == cell->Ccu2c_inputs);
    assert(other->Ccu2c_sums == cell->Ccu2c_sums);
}

/// Moving a register back across a carry primitive leaves the netlist wired up.
pub proof fn law_backward_ccu_keeps_wiring(
    netlist: NetlistModel,
    after: NetlistModel,
    index: int,
    register: ResetRegister,
    at: int,
    output: CcuRetimeOutput,
    first: u32,
    edges: Seq<EdgeModel>,
)
    requires
        is_well_driven(netlist),
        is_ccu_move(netlist, after, index, register, at, output, first, edges),
    ensures
        is_well_driven(after),
{
    lemma_ccu_plan(netlist, after, index, register, at, output, first, edges);
    lemma_moved_back_keeps_wiring(netlist, after, ccu_plan(netlist, index, at, output, first));
}

/// Moving a register back across a carry primitive keeps what is shown, where the
/// certified resets give the old one.
pub proof fn law_backward_ccu_keeps_shown(
    netlist: NetlistModel,
    after: NetlistModel,
    index: int,
    register: ResetRegister,
    at: int,
    output: CcuRetimeOutput,
    first: u32,
    edges: Seq<EdgeModel>,
)
    requires
        is_well_driven(netlist),
        is_ccu_move(netlist, after, index, register, at, output, first, edges),
        ccu_resets_hold(netlist, index, edges),
    ensures
        keeps_shown(netlist, after),
{
    lemma_ccu_plan(netlist, after, index, register, at, output, first, edges);
    lemma_ccu_carries(netlist, after, index, register, at, output, first, edges);
    lemma_plan_keeps_shown(netlist, after, ccu_plan(netlist, index, at, output, first));
}

} // verus!
