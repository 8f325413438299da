//! What a design shows over time, and that constructive steps keep it.
//!
//! A run gives every wire a value in every clock cycle. One netlist keeps what
//! another shows where each of its runs has a run of the other with the same
//! values at the ports and at every memory, pad, TAP and PLL.

use vstd::prelude::*;

use crate::cells::cell_inputs;
use crate::cells::cell_outputs;
use crate::cells::Bit;
use crate::cells::CellModel;
use crate::cells::Control;
use crate::cells::PortDirection;
use crate::cells::PortModel;
use crate::cells::Reset;
use crate::meaning::bit_value;
use crate::meaning::carry_outputs;
use crate::meaning::cell_agrees;
use crate::meaning::cells_agree;
use crate::moves::cell_steps;
use crate::moves::cells_step;
use crate::moves::state_after;
use crate::moves::table_value;
use crate::netlist::cells_inputs;
use crate::netlist::cells_outputs;
use crate::netlist::directed_bits;
use crate::netlist::drives_loaded;
use crate::netlist::drives_once;
use crate::netlist::is_observable;
use crate::netlist::lemma_maximum_port;
use crate::netlist::lemma_maximum_wire;
use crate::netlist::loads;
use crate::netlist::maximum_wire;
use crate::netlist::observable_cells;
use crate::netlist::port_inputs;
use crate::netlist::ports_bits;
use crate::netlist::pruned_once;
use crate::netlist::NetlistModel;
use crate::text::begins_with;

verus! {

/// Whether a flip-flop holds the value that configuration loads: its reset value,
/// and zero where it has no reset.
pub open spec fn cell_starts(values: spec_fn(u32) -> bool, cell: CellModel) -> bool {
    cell matches CellModel::FlipFlop { output, reset, .. } ==> values(output) == (
    reset matches Some(reset) && reset.value)
}

/// Whether `run` starts in reset, agrees with the cells in every cycle, and takes
/// a clock step from each cycle to the next.
pub open spec fn is_run(run: spec_fn(nat) -> spec_fn(u32) -> bool, cells: Seq<CellModel>) -> bool {
    &&& forall|i: int| 0 <= i < cells.len() ==> cell_starts(run(0), #[trigger] cells[i])
    &&& forall|t: nat| cells_agree(#[trigger] run(t), cells)
    &&& forall|t: nat| cells_step(#[trigger] run(t), run(t + 1), cells)
}

/// Whether a cell is a memory, pad, TAP or PLL, of which a run fixes nothing.
pub open spec fn is_box(cell: CellModel) -> bool {
    cell is BlockRam || cell is TrellisIo || cell is Jtagg || cell is Pll
}

/// Whether two lists of bits carry the same values.
pub open spec fn same_bits(
    left: spec_fn(u32) -> bool,
    a: Seq<Bit>,
    right: spec_fn(u32) -> bool,
    b: Seq<Bit>,
) -> bool {
    a.len() == b.len() && forall|k: int|
        0 <= k < a.len() ==> bit_value(left, #[trigger] a[k]) == bit_value(right, b[k])
}

/// Whether two memories, pads, TAPs or PLLs differ in their wires alone: memories are of
/// one kind, size and edge, with controls at the same levels, and PLLs have the same
/// outputs and parameters.
pub open spec fn same_settings(a: CellModel, b: CellModel) -> bool {
    match (a, b) {
        (
            CellModel::BlockRam {
                implementation,
                depth,
                word_width,
                physical_width,
                write_enable,
                read_enable,
                clock_enable,
                edge,
                second_port,
                ..
            },
            CellModel::BlockRam {
                implementation: other,
                depth: d,
                word_width: w,
                physical_width: p,
                write_enable: we,
                read_enable: re,
                clock_enable: ce,
                edge: e,
                second_port: s,
                ..
            },
        ) => {
            &&& implementation == other && depth == d && word_width == w && physical_width == p
            &&& edge == e
            &&& write_enable.active == we.active
            &&& same_enable(read_enable, re)
            &&& same_enable(clock_enable, ce)
            &&& match (second_port, s) {
                (Some(x), Some(y)) => x.edge == y.edge && x.write_enable.active
                    == y.write_enable.active && same_enable(x.read_enable, y.read_enable)
                    && same_enable(x.clock_enable, y.clock_enable),
                (None, None) => true,
                _ => false,
            }
        },
        (CellModel::TrellisIo { .. }, CellModel::TrellisIo { .. }) => true,
        (
            CellModel::Jtagg { extension_register_1: x, extension_register_2: y, .. },
            CellModel::Jtagg { extension_register_1: v, extension_register_2: w, .. },
        ) => x == v && y == w,
        (
            CellModel::Pll {
                fabric_output,
                feedback_output,
                additional_output_clocks,
                parameters,
                attributes,
                ..
            },
            CellModel::Pll {
                fabric_output: f,
                feedback_output: k,
                additional_output_clocks: m,
                parameters: p,
                attributes: t,
                ..
            },
        ) => {
            &&& fabric_output == f && feedback_output == k && parameters == p && attributes == t
            &&& additional_output_clocks.len() == m.len()
            &&& forall|i: int|
                0 <= i < m.len() ==> (#[trigger] additional_output_clocks[i]).0 == m[i].0
        },
        _ => false,
    }
}

/// Whether `b` is the box `a`, reads what it reads and drives what it drives.
pub open spec fn same_box(
    left: spec_fn(u32) -> bool,
    a: CellModel,
    right: spec_fn(u32) -> bool,
    b: CellModel,
) -> bool {
    &&& is_box(b)
    &&& a.cell_name() == b.cell_name()
    &&& same_settings(a, b)
    &&& same_bits(left, cell_inputs(a), right, cell_inputs(b))
    &&& same_bits(left, cell_outputs(a), right, cell_outputs(b))
}

/// Whether every box of `before` stands in `after`, with the same values around
/// it.
pub open spec fn same_boxes(
    left: spec_fn(u32) -> bool,
    before: Seq<CellModel>,
    right: spec_fn(u32) -> bool,
    after: Seq<CellModel>,
) -> bool {
    forall|i: int|
        0 <= i < before.len() && is_box(#[trigger] before[i]) ==> exists|j: int|
            0 <= j < after.len() && same_box(left, before[i], right, #[trigger] after[j])
}

/// Whether inputs and outputs carry the same values.
pub open spec fn same_ports(
    left: spec_fn(u32) -> bool,
    before: Seq<PortModel>,
    right: spec_fn(u32) -> bool,
    after: Seq<PortModel>,
) -> bool {
    before.len() == after.len() && forall|p: int|
        0 <= p < before.len() ==> (#[trigger] before[p]).name == after[p].name
            && before[p].direction == after[p].direction && (before[p].direction is Inout
            || same_bits(left, before[p].bits, right, after[p].bits))
}

/// Whether two runs show the same in every cycle.
pub open spec fn shows_same(
    left: spec_fn(nat) -> spec_fn(u32) -> bool,
    before: NetlistModel,
    right: spec_fn(nat) -> spec_fn(u32) -> bool,
    after: NetlistModel,
) -> bool {
    forall|t: nat|
        same_ports(#[trigger] left(t), before.ports, right(t), after.ports) && same_boxes(
            left(t),
            before.cells,
            right(t),
            after.cells,
        )
}

/// Whether `after` shows no more than `before`: every run of `after` is, at the
/// ports and boxes, a run of `before`.
#[verifier::opaque]
pub open spec fn shows_no_more(before: NetlistModel, after: NetlistModel) -> bool {
    forall|right: spec_fn(nat) -> spec_fn(u32) -> bool| #[trigger]
        is_run(right, after.cells) ==> exists|left: spec_fn(nat) -> spec_fn(u32) -> bool|
            is_run(left, before.cells) && #[trigger] shows_same(left, before, right, after)
}

/// Whether `after` shows no less than `before`: every run of `before` is, at the
/// ports and boxes, a run of `after`.
#[verifier::opaque]
pub open spec fn shows_no_less(before: NetlistModel, after: NetlistModel) -> bool {
    forall|left: spec_fn(nat) -> spec_fn(u32) -> bool| #[trigger]
        is_run(left, before.cells) ==> exists|right: spec_fn(nat) -> spec_fn(u32) -> bool|
            is_run(right, after.cells) && #[trigger] shows_same(left, before, right, after)
}

/// Whether `after` keeps what `before` shows.
pub open spec fn keeps_shown(before: NetlistModel, after: NetlistModel) -> bool {
    shows_no_more(before, after) && shows_no_less(before, after)
}

/// Sameness of bits is transitive.
pub proof fn lemma_same_bits_joined(
    x: spec_fn(u32) -> bool,
    a: Seq<Bit>,
    y: spec_fn(u32) -> bool,
    b: Seq<Bit>,
    z: spec_fn(u32) -> bool,
    c: Seq<Bit>,
)
    requires
        same_bits(x, a, y, b),
        same_bits(y, b, z, c),
    ensures
        same_bits(x, a, z, c),
{
    assert forall|k: int| 0 <= k < a.len() implies bit_value(x, #[trigger] a[k]) == bit_value(
        z,
        c[k],
    ) by {
        assert(bit_value(y, b[k]) == bit_value(z, c[k]));
    }
}

proof fn lemma_same_boxes_joined(
    x: spec_fn(u32) -> bool,
    a: Seq<CellModel>,
    y: spec_fn(u32) -> bool,
    b: Seq<CellModel>,
    z: spec_fn(u32) -> bool,
    c: Seq<CellModel>,
)
    requires
        same_boxes(x, a, y, b),
        same_boxes(y, b, z, c),
    ensures
        same_boxes(x, a, z, c),
{
    assert forall|i: int| 0 <= i < a.len() && is_box(#[trigger] a[i]) implies exists|k: int|
        0 <= k < c.len() && same_box(x, a[i], z, #[trigger] c[k]) by {
        let j = choose|j: int| 0 <= j < b.len() && same_box(x, a[i], y, #[trigger] b[j]);
        let k = choose|k: int| 0 <= k < c.len() && same_box(y, b[j], z, #[trigger] c[k]);
        lemma_same_bits_joined(x, cell_inputs(a[i]), y, cell_inputs(b[j]), z, cell_inputs(c[k]));
        lemma_same_bits_joined(
            x,
            cell_outputs(a[i]),
            y,
            cell_outputs(b[j]),
            z,
            cell_outputs(c[k]),
        );
        assert(same_box(x, a[i], z, c[k]));
    }
}

/// Sameness of ports is transitive.
pub proof fn lemma_same_ports_joined(
    x: spec_fn(u32) -> bool,
    a: Seq<PortModel>,
    y: spec_fn(u32) -> bool,
    b: Seq<PortModel>,
    z: spec_fn(u32) -> bool,
    c: Seq<PortModel>,
)
    requires
        same_ports(x, a, y, b),
        same_ports(y, b, z, c),
    ensures
        same_ports(x, a, z, c),
{
    assert forall|p: int| 0 <= p < a.len() implies (#[trigger] a[p]).name == c[p].name
        && a[p].direction == c[p].direction && (a[p].direction is Inout || same_bits(
        x,
        a[p].bits,
        z,
        c[p].bits,
    )) by {
        assert(b[p].name == c[p].name);
        if !(a[p].direction is Inout) {
            lemma_same_bits_joined(x, a[p].bits, y, b[p].bits, z, c[p].bits);
        }
    }
}

/// A run shows what it shows.
pub proof fn law_shown_is_reflexive(
    run: spec_fn(nat) -> spec_fn(u32) -> bool,
    netlist: NetlistModel,
)
    ensures
        shows_same(run, netlist, run, netlist),
{
    assert forall|t: nat|
        same_ports(#[trigger] run(t), netlist.ports, run(t), netlist.ports) && same_boxes(
            run(t),
            netlist.cells,
            run(t),
            netlist.cells,
        ) by {
        assert forall|i: int|
            0 <= i < netlist.cells.len() && is_box(
                #[trigger] netlist.cells[i],
            ) implies exists|j: int|
            0 <= j < netlist.cells.len() && same_box(
                run(t),
                netlist.cells[i],
                run(t),
                #[trigger] netlist.cells[j],
            ) by {
            assert(same_box(run(t), netlist.cells[i], run(t), netlist.cells[i]));
        }
    }
}

/// A run behind a run of a netlist that shows no more.
pub proof fn lemma_run_before(
    before: NetlistModel,
    after: NetlistModel,
    right: spec_fn(nat) -> spec_fn(u32) -> bool,
) -> (left: spec_fn(nat) -> spec_fn(u32) -> bool)
    requires
        shows_no_more(before, after),
        is_run(right, after.cells),
    ensures
        is_run(left, before.cells),
        shows_same(left, before, right, after),
{
    reveal(shows_no_more);
    choose|left: spec_fn(nat) -> spec_fn(u32) -> bool|
        is_run(left, before.cells) && #[trigger] shows_same(left, before, right, after)
}

/// A run that follows a run where no less is shown.
pub proof fn lemma_run_after(
    before: NetlistModel,
    after: NetlistModel,
    left: spec_fn(nat) -> spec_fn(u32) -> bool,
) -> (right: spec_fn(nat) -> spec_fn(u32) -> bool)
    requires
        shows_no_less(before, after),
        is_run(left, before.cells),
    ensures
        is_run(right, after.cells),
        shows_same(left, before, right, after),
{
    reveal(shows_no_less);
    choose|right: spec_fn(nat) -> spec_fn(u32) -> bool|
        is_run(right, after.cells) && #[trigger] shows_same(left, before, right, after)
}

/// A netlist keeps what it shows.
pub proof fn law_shown_is_kept(netlist: NetlistModel)
    ensures
        keeps_shown(netlist, netlist),
{
    assert forall|run: spec_fn(nat) -> spec_fn(u32) -> bool| #[trigger]
        is_run(run, netlist.cells) implies shows_same(run, netlist, run, netlist) by {
        law_shown_is_reflexive(run, netlist);
    }
    assert(shows_no_more(netlist, netlist)) by {
        reveal(shows_no_more);
    }
    assert(shows_no_less(netlist, netlist)) by {
        reveal(shows_no_less);
    }
}

proof fn lemma_shows_same_joined(
    x: spec_fn(nat) -> spec_fn(u32) -> bool,
    a: NetlistModel,
    y: spec_fn(nat) -> spec_fn(u32) -> bool,
    b: NetlistModel,
    z: spec_fn(nat) -> spec_fn(u32) -> bool,
    c: NetlistModel,
)
    requires
        shows_same(x, a, y, b),
        shows_same(y, b, z, c),
    ensures
        shows_same(x, a, z, c),
{
    assert forall|t: nat|
        same_ports(#[trigger] x(t), a.ports, z(t), c.ports) && same_boxes(
            x(t),
            a.cells,
            z(t),
            c.cells,
        ) by {
        assert(same_ports(y(t), b.ports, z(t), c.ports));
        lemma_same_ports_joined(x(t), a.ports, y(t), b.ports, z(t), c.ports);
        lemma_same_boxes_joined(x(t), a.cells, y(t), b.cells, z(t), c.cells);
    }
}

proof fn lemma_no_more_along(a: NetlistModel, b: NetlistModel, c: NetlistModel)
    requires
        shows_no_more(a, b),
        shows_no_more(b, c),
    ensures
        shows_no_more(a, c),
{
    assert forall|z: spec_fn(nat) -> spec_fn(u32) -> bool| #[trigger]
        is_run(z, c.cells) implies exists|x: spec_fn(nat) -> spec_fn(u32) -> bool|
        is_run(x, a.cells) && #[trigger] shows_same(x, a, z, c) by {
        let y = lemma_run_before(b, c, z);
        let x = lemma_run_before(a, b, y);
        lemma_shows_same_joined(x, a, y, b, z, c);
    }
    reveal(shows_no_more);
}

proof fn lemma_no_less_along(a: NetlistModel, b: NetlistModel, c: NetlistModel)
    requires
        shows_no_less(a, b),
        shows_no_less(b, c),
    ensures
        shows_no_less(a, c),
{
    assert forall|x: spec_fn(nat) -> spec_fn(u32) -> bool| #[trigger]
        is_run(x, a.cells) implies exists|z: spec_fn(nat) -> spec_fn(u32) -> bool|
        is_run(z, c.cells) && #[trigger] shows_same(x, a, z, c) by {
        let y = lemma_run_after(a, b, x);
        let z = lemma_run_after(b, c, y);
        lemma_shows_same_joined(x, a, y, b, z, c);
    }
    reveal(shows_no_less);
}

/// What two steps keep one after the other, both keep together.
pub proof fn law_shown_is_kept_along(a: NetlistModel, b: NetlistModel, c: NetlistModel)
    requires
        keeps_shown(a, b),
        keeps_shown(b, c),
    ensures
        keeps_shown(a, c),
{
    lemma_no_more_along(a, b, c);
    lemma_no_less_along(a, b, c);
}

/// Netlists with the same cells and ports show the same.
pub proof fn law_shown_alike(a: NetlistModel, b: NetlistModel)
    requires
        a.cells == b.cells,
        a.ports == b.ports,
    ensures
        keeps_shown(a, b),
{
    assert forall|run: spec_fn(nat) -> spec_fn(u32) -> bool| #[trigger]
        is_run(run, a.cells) implies shows_same(run, a, run, b) by {
        law_shown_is_reflexive(run, a);
        assert forall|t: nat|
            same_ports(#[trigger] run(t), a.ports, run(t), b.ports) && same_boxes(
                run(t),
                a.cells,
                run(t),
                b.cells,
            ) by {}
    }
    assert(shows_no_more(a, b)) by {
        reveal(shows_no_more);
    }
    assert(shows_no_less(a, b)) by {
        reveal(shows_no_less);
    }
}

/// Whether a cell is described by its inputs alone.
pub open spec fn is_combinational(cell: CellModel) -> bool {
    cell is Lut4 || cell is PfuMux || cell is L6Mux21 || cell is Ccu2c
}

/// Whether a cell drives `wire`.
pub open spec fn drives(cell: CellModel, wire: u32) -> bool {
    cell_outputs(cell).contains(Bit::Wire(wire))
}

/// Whether a cell reads or drives `wire`.
pub open spec fn touches(cell: CellModel, wire: u32) -> bool {
    cell_inputs(cell).contains(Bit::Wire(wire)) || drives(cell, wire)
}

/// Whether two valuations give the wires of a cell the same values.
pub open spec fn same_around(
    left: spec_fn(u32) -> bool,
    right: spec_fn(u32) -> bool,
    cell: CellModel,
) -> bool {
    forall|wire: u32| #[trigger] touches(cell, wire) ==> left(wire) == right(wire)
}

proof fn lemma_same_pin(
    left: spec_fn(u32) -> bool,
    right: spec_fn(u32) -> bool,
    cell: CellModel,
    k: int,
)
    requires
        same_around(left, right, cell),
    ensures
        0 <= k < cell_inputs(cell).len() ==> bit_value(left, cell_inputs(cell)[k]) == bit_value(
            right,
            cell_inputs(cell)[k],
        ),
        0 <= k < cell_outputs(cell).len() ==> bit_value(left, cell_outputs(cell)[k]) == bit_value(
            right,
            cell_outputs(cell)[k],
        ),
{
    if 0 <= k < cell_inputs(cell).len() {
        assert(cell_inputs(cell).contains(cell_inputs(cell)[k]));
        if let Bit::Wire(wire) = cell_inputs(cell)[k] {
            assert(touches(cell, wire));
        }
    }
    if 0 <= k < cell_outputs(cell).len() {
        assert(cell_outputs(cell).contains(cell_outputs(cell)[k]));
        if let Bit::Wire(wire) = cell_outputs(cell)[k] {
            assert(touches(cell, wire));
        }
    }
}

proof fn lemma_same_pins(
    left: spec_fn(u32) -> bool,
    right: spec_fn(u32) -> bool,
    cell: CellModel,
)
    requires
        same_around(left, right, cell),
    ensures
        same_bits(left, cell_inputs(cell), right, cell_inputs(cell)),
        same_bits(left, cell_outputs(cell), right, cell_outputs(cell)),
{
    assert forall|k: int| 0 <= k < cell_inputs(cell).len() implies bit_value(
        left,
        #[trigger] cell_inputs(cell)[k],
    ) == bit_value(right, cell_inputs(cell)[k]) by {
        lemma_same_pin(left, right, cell, k);
    }
    assert forall|k: int| 0 <= k < cell_outputs(cell).len() implies bit_value(
        left,
        #[trigger] cell_outputs(cell)[k],
    ) == bit_value(right, cell_outputs(cell)[k]) by {
        lemma_same_pin(left, right, cell, k);
    }
}

/// The value that a combinational cell gives to a wire that it drives.
pub open spec fn driven_value(values: spec_fn(u32) -> bool, cell: CellModel, wire: u32) -> bool {
    match cell {
        CellModel::Lut4 { inputs, init, .. } => table_value(
            init,
            inputs,
            |bit: Bit| bit_value(values, bit),
        ),
        CellModel::PfuMux { lut_true, lut_false, select, .. } => if bit_value(values, select) {
            bit_value(values, lut_true)
        } else {
            bit_value(values, lut_false)
        },
        CellModel::L6Mux21 { data_zero, data_one, select, .. } => if bit_value(values, select) {
            bit_value(values, data_one)
        } else {
            bit_value(values, data_zero)
        },
        CellModel::Ccu2c { inputs, carry_in, sums, carry_out, init, inject, .. } => {
            let driven = carry_outputs(
                |bit: Bit| bit_value(values, bit),
                inputs,
                carry_in,
                init,
                inject,
            );
            if wire == sums[0] {
                driven.sum0
            } else if wire == sums[1] {
                driven.sum1
            } else {
                driven.carry
            }
        },
        _ => values(wire),
    }
}

proof fn lemma_same_carry(
    left: spec_fn(u32) -> bool,
    right: spec_fn(u32) -> bool,
    a: CellModel,
    b: CellModel,
)
    requires
        a is Ccu2c,
        b is Ccu2c,
        a->Ccu2c_init == b->Ccu2c_init,
        a->Ccu2c_inject == b->Ccu2c_inject,
        same_bits(left, cell_inputs(a), right, cell_inputs(b)),
    ensures
        carry_outputs(
            |bit: Bit| bit_value(left, bit),
            a->Ccu2c_inputs,
            a->Ccu2c_carry_in,
            a->Ccu2c_init,
            a->Ccu2c_inject,
        ) == carry_outputs(
            |bit: Bit| bit_value(right, bit),
            b->Ccu2c_inputs,
            b->Ccu2c_carry_in,
            b->Ccu2c_init,
            b->Ccu2c_inject,
        ),
{
    let x = a->Ccu2c_inputs;
    let y = b->Ccu2c_inputs;
    let mine = cell_inputs(a);
    let yours = cell_inputs(b);
    assert(bit_value(left, mine[0]) == bit_value(right, yours[0]));
    assert(bit_value(left, mine[1]) == bit_value(right, yours[1]));
    assert(bit_value(left, mine[2]) == bit_value(right, yours[2]));
    assert(bit_value(left, mine[3]) == bit_value(right, yours[3]));
    assert(bit_value(left, mine[4]) == bit_value(right, yours[4]));
    assert(bit_value(left, mine[5]) == bit_value(right, yours[5]));
    assert(bit_value(left, mine[6]) == bit_value(right, yours[6]));
    assert(bit_value(left, mine[7]) == bit_value(right, yours[7]));
    assert(bit_value(left, mine[8]) == bit_value(right, yours[8]));
    assert(mine[0] == x[0][0] && mine[1] == x[0][1] && mine[2] == x[0][2] && mine[3] == x[0][3]);
    assert(mine[4] == x[1][0] && mine[5] == x[1][1] && mine[6] == x[1][2] && mine[7] == x[1][3]);
    assert(mine[8] == a->Ccu2c_carry_in);
    assert(yours[0] == y[0][0] && yours[1] == y[0][1] && yours[2] == y[0][2] && yours[3]
        == y[0][3]);
    assert(yours[4] == y[1][0] && yours[5] == y[1][1] && yours[6] == y[1][2] && yours[7]
        == y[1][3]);
    assert(yours[8] == b->Ccu2c_carry_in);
}

/// What a cell drives depends on what its inputs carry.
pub proof fn lemma_driven_same(
    left: spec_fn(u32) -> bool,
    right: spec_fn(u32) -> bool,
    cell: CellModel,
    wire: u32,
)
    requires
        is_combinational(cell),
        same_bits(left, cell_inputs(cell), right, cell_inputs(cell)),
    ensures
        driven_value(left, cell, wire) == driven_value(right, cell, wire),
{
    let pins = cell_inputs(cell);
    match cell {
        CellModel::Lut4 { inputs, .. } => {
            assert(bit_value(left, pins[0]) == bit_value(right, pins[0]));
            assert(bit_value(left, pins[1]) == bit_value(right, pins[1]));
            assert(bit_value(left, pins[2]) == bit_value(right, pins[2]));
            assert(bit_value(left, pins[3]) == bit_value(right, pins[3]));
        },
        CellModel::Ccu2c { .. } => {
            lemma_same_carry(left, right, cell, cell);
        },
        _ => {
            assert(bit_value(left, pins[0]) == bit_value(right, pins[0]));
            assert(bit_value(left, pins[1]) == bit_value(right, pins[1]));
            assert(bit_value(left, pins[2]) == bit_value(right, pins[2]));
        },
    }
}

/// Whether the outputs of a cell are distinct.
pub open spec fn drives_apart(cell: CellModel) -> bool {
    forall|p: int, q: int|
        #![trigger cell_outputs(cell)[p], cell_outputs(cell)[q]]
        0 <= p < q < cell_outputs(cell).len() ==> cell_outputs(cell)[p] != cell_outputs(cell)[q]
}

/// A combinational cell agrees exactly where each wire that it drives carries what
/// it gives.
pub proof fn lemma_agrees_by_wire(values: spec_fn(u32) -> bool, cell: CellModel)
    requires
        is_combinational(cell),
    ensures
        cell_agrees(values, cell) && drives_apart(cell) ==> forall|wire: u32|
            drives(cell, wire) ==> #[trigger] values(wire)
                == driven_value(values, cell, wire),
        drives_apart(cell) && (forall|wire: u32|
            drives(cell, wire) ==> #[trigger] values(wire)
                == driven_value(values, cell, wire)) ==> cell_agrees(values, cell),
{
    let outputs = cell_outputs(cell);
    match cell {
        CellModel::Ccu2c { sums, carry_out, .. } => {
            assert(outputs[0] == Bit::Wire(sums[0]));
            assert(outputs[1] == Bit::Wire(sums[1]));
            assert(outputs[2] == Bit::Wire(carry_out));
            if drives_apart(cell) {
                assert(outputs[0] != outputs[1] && outputs[0] != outputs[2] && outputs[1]
                    != outputs[2]);
            }
            assert(outputs.contains(outputs[0]));
            assert(outputs.contains(outputs[1]));
            assert(outputs.contains(outputs[2]));
        },
        CellModel::Lut4 { output, .. } => {
            assert(outputs[0] == Bit::Wire(output));
            assert(outputs.contains(outputs[0]));
        },
        CellModel::PfuMux { output, .. } => {
            assert(outputs[0] == Bit::Wire(output));
            assert(outputs.contains(outputs[0]));
        },
        CellModel::L6Mux21 { output, .. } => {
            assert(outputs[0] == Bit::Wire(output));
            assert(outputs.contains(outputs[0]));
        },
        _ => {},
    }
}

/// Whether two cells are of one make: they compute the same from what they read,
/// whatever wires they read and drive.
pub open spec fn same_make(a: CellModel, b: CellModel) -> bool {
    match (a, b) {
        (CellModel::Lut4 { init: x, .. }, CellModel::Lut4 { init: y, .. }) => x == y,
        (CellModel::PfuMux { .. }, CellModel::PfuMux { .. }) => true,
        (CellModel::L6Mux21 { .. }, CellModel::L6Mux21 { .. }) => true,
        (
            CellModel::Ccu2c { init: x, inject: p, .. },
            CellModel::Ccu2c { init: y, inject: q, .. },
        ) => x == y && p == q,
        (
            CellModel::FlipFlop { edge: d, enable: x, reset: p, .. },
            CellModel::FlipFlop { edge: e, enable: y, reset: q, .. },
        ) => d == e && same_enable(x, y) && same_reset(p, q),
        _ => is_box(a) && is_box(b) && a.cell_name() == b.cell_name() && same_settings(a, b),
    }
}

/// Whether two enables differ in their signals alone.
pub open spec fn same_enable(a: Option<Control>, b: Option<Control>) -> bool {
    match (a, b) {
        (Some(x), Some(y)) => x.active == y.active,
        (None, None) => true,
        _ => false,
    }
}

/// Whether two resets differ in their signals alone.
pub open spec fn same_reset(a: Option<Reset>, b: Option<Reset>) -> bool {
    match (a, b) {
        (Some(x), Some(y)) => x.active == y.active && x.value == y.value && x.asynchronous
            == y.asynchronous,
        (None, None) => true,
        _ => false,
    }
}

/// What holds of a cell depends on its make and the values of its wires.
pub proof fn lemma_make(
    left: spec_fn(u32) -> bool,
    right: spec_fn(u32) -> bool,
    next_left: spec_fn(u32) -> bool,
    next_right: spec_fn(u32) -> bool,
    a: CellModel,
    b: CellModel,
)
    requires
        same_make(a, b),
        same_bits(left, cell_inputs(a), right, cell_inputs(b)),
        same_bits(left, cell_outputs(a), right, cell_outputs(b)),
        same_bits(next_left, cell_outputs(a), next_right, cell_outputs(b)),
    ensures
        cell_starts(left, a) == cell_starts(right, b),
        cell_agrees(left, a) == cell_agrees(right, b),
        cell_steps(left, next_left, a) == cell_steps(right, next_right, b),
        is_box(a) ==> same_box(left, a, right, b),
{
    let mine = cell_inputs(a);
    let yours = cell_inputs(b);
    let out = cell_outputs(a);
    let other = cell_outputs(b);
    if !is_box(a) {
        assert(bit_value(left, out[0]) == bit_value(right, other[0]));
        assert(bit_value(next_left, out[0]) == bit_value(next_right, other[0]));
        assert(bit_value(left, mine[0]) == bit_value(right, yours[0]));
        assert(bit_value(left, mine[1]) == bit_value(right, yours[1]));
    }
    match a {
        CellModel::Lut4 { .. } => {
            assert(bit_value(left, mine[2]) == bit_value(right, yours[2]));
            assert(bit_value(left, mine[3]) == bit_value(right, yours[3]));
        },
        CellModel::PfuMux { .. } => {
            assert(bit_value(left, mine[2]) == bit_value(right, yours[2]));
        },
        CellModel::L6Mux21 { .. } => {
            assert(bit_value(left, mine[2]) == bit_value(right, yours[2]));
        },
        CellModel::Ccu2c { .. } => {
            lemma_same_carry(left, right, a, b);
            assert(bit_value(left, out[1]) == bit_value(right, other[1]));
            assert(bit_value(left, out[2]) == bit_value(right, other[2]));
        },
        CellModel::FlipFlop { .. } => {
            lemma_make_steps(left, right, next_left, next_right, a, b);
        },
        _ => {},
    }
}

proof fn lemma_make_steps(
    left: spec_fn(u32) -> bool,
    right: spec_fn(u32) -> bool,
    next_left: spec_fn(u32) -> bool,
    next_right: spec_fn(u32) -> bool,
    a: CellModel,
    b: CellModel,
)
    requires
        a is FlipFlop,
        b is FlipFlop,
        same_make(a, b),
        same_bits(left, cell_inputs(a), right, cell_inputs(b)),
        same_bits(left, cell_outputs(a), right, cell_outputs(b)),
        same_bits(next_left, cell_outputs(a), next_right, cell_outputs(b)),
    ensures
        cell_steps(left, next_left, a) == cell_steps(right, next_right, b),
{
    let mine = cell_inputs(a);
    let yours = cell_inputs(b);
    reveal(state_after);
    assert(bit_value(left, cell_outputs(a)[0]) == bit_value(right, cell_outputs(b)[0]));
    assert(bit_value(next_left, cell_outputs(a)[0]) == bit_value(
        next_right,
        cell_outputs(b)[0],
    ));
    assert(mine[0] == a->FlipFlop_data && yours[0] == b->FlipFlop_data);
    assert(bit_value(left, mine[0]) == bit_value(right, yours[0]));
    if let Some(x) = a->FlipFlop_enable {
        let y = b->FlipFlop_enable->0;
        assert(mine[2] == x.signal && yours[2] == y.signal);
        assert(bit_value(left, mine[2]) == bit_value(right, yours[2]));
        if let Some(p) = a->FlipFlop_reset {
            let q = b->FlipFlop_reset->0;
            assert(mine[3] == p.signal && yours[3] == q.signal);
            assert(bit_value(left, mine[3]) == bit_value(right, yours[3]));
        }
    } else if let Some(p) = a->FlipFlop_reset {
        let q = b->FlipFlop_reset->0;
        assert(mine[2] == p.signal && yours[2] == q.signal);
        assert(bit_value(left, mine[2]) == bit_value(right, yours[2]));
    }
}

/// What holds of a cell depends on the values of its wires.
pub proof fn lemma_local(
    left: spec_fn(u32) -> bool,
    right: spec_fn(u32) -> bool,
    next_left: spec_fn(u32) -> bool,
    next_right: spec_fn(u32) -> bool,
    cell: CellModel,
)
    requires
        same_around(left, right, cell),
        same_around(next_left, next_right, cell),
    ensures
        cell_starts(right, cell) == cell_starts(left, cell),
        cell_agrees(right, cell) == cell_agrees(left, cell),
        cell_steps(right, next_right, cell) == cell_steps(left, next_left, cell),
        is_box(cell) ==> same_box(left, cell, right, cell),
{
    lemma_same_pins(left, right, cell);
    lemma_same_pins(next_left, next_right, cell);
    lemma_make(left, right, next_left, next_right, cell, cell);
}

/// Whether no wire has two drivers: the outputs of all cells are distinct.
pub open spec fn drivers_apart(cells: Seq<CellModel>) -> bool {
    &&& forall|i: int| 0 <= i < cells.len() ==> drives_apart(#[trigger] cells[i])
    &&& forall|i: int, j: int, wire: u32|
        0 <= i < cells.len() && 0 <= j < cells.len() && #[trigger] drives(cells[i], wire)
            && #[trigger] drives(cells[j], wire) ==> i == j
}

/// Every output of a cell is a wire.
pub proof fn lemma_outputs_are_wires(cell: CellModel, p: int)
    requires
        0 <= p < cell_outputs(cell).len(),
    ensures
        cell_outputs(cell)[p] is Wire,
{
}

proof fn lemma_inputs_contain(cells: Seq<CellModel>, i: int, bit: Bit)
    requires
        0 <= i < cells.len(),
        cell_inputs(cells[i]).contains(bit),
    ensures
        cells_inputs(cells).contains(bit),
    decreases cells.len(),
{
    let last = cell_inputs(cells.last());
    let rest = cells_inputs(cells.drop_last());
    if i == cells.len() - 1 {
        let k = choose|k: int| 0 <= k < last.len() && last[k] == bit;
        assert((rest + last)[rest.len() + k] == bit);
    } else {
        lemma_inputs_contain(cells.drop_last(), i, bit);
        let k = choose|k: int| 0 <= k < rest.len() && rest[k] == bit;
        assert((rest + last)[k] == bit);
    }
}

/// The bits of a port stand among those of its direction.
pub proof fn lemma_ports_contain(ports: Seq<PortModel>, direction: PortDirection, p: int, k: int)
    requires
        0 <= p < ports.len(),
        ports[p].direction == direction,
        0 <= k < ports[p].bits.len(),
    ensures
        directed_bits(ports, direction).contains(ports[p].bits[k]),
    decreases ports.len(),
{
    let rest = directed_bits(ports.drop_last(), direction);
    let whole = directed_bits(ports, direction);
    if p == ports.len() - 1 {
        assert(whole[rest.len() + k] == ports[p].bits[k]);
    } else {
        lemma_ports_contain(ports.drop_last(), direction, p, k);
        let at = choose|at: int| 0 <= at < rest.len() && rest[at] == ports[p].bits[k];
        assert(whole[at] == ports[p].bits[k]);
    }
}

proof fn lemma_observable_at(cells: Seq<CellModel>, bits: Seq<Bit>, i: int) -> (at: int)
    requires
        0 <= i < cells.len(),
        is_observable(cells[i], bits),
    ensures
        0 <= at < observable_cells(cells, bits).len(),
        observable_cells(cells, bits)[at] == cells[i],
    decreases cells.len(),
{
    if i == cells.len() - 1 {
        observable_cells(cells.drop_last(), bits).len() as int
    } else {
        lemma_observable_at(cells.drop_last(), bits, i)
    }
}

/// Whether a pruned cell drives `wire`.
spec fn is_hidden(netlist: NetlistModel, i: int, wire: u32) -> bool {
    0 <= i < netlist.cells.len() && !is_observable(netlist.cells[i], loads(netlist))
        && drives(netlist.cells[i], wire)
}

/// The state of a flip-flop that stands beside a run.
pub open spec fn state_beside(
    run: spec_fn(nat) -> spec_fn(u32) -> bool,
    cell: CellModel,
    t: nat,
) -> bool
    decreases t,
{
    let reset = cell->FlipFlop_reset;
    if t == 0 {
        reset is Some && reset->0.value
    } else {
        state_after(
            run((t - 1) as nat),
            cell->FlipFlop_enable,
            reset,
            state_beside(run, cell, (t - 1) as nat),
            bit_value(run((t - 1) as nat), cell->FlipFlop_data),
        )
    }
}

/// A flip-flop beside a run takes its next states where its inputs carry what they
/// carry in the run.
pub proof fn lemma_state_beside(
    run: spec_fn(nat) -> spec_fn(u32) -> bool,
    start: spec_fn(u32) -> bool,
    now: spec_fn(u32) -> bool,
    next: spec_fn(u32) -> bool,
    cell: CellModel,
    t: nat,
)
    requires
        cell is FlipFlop,
        start(cell->FlipFlop_output) == state_beside(run, cell, 0),
        now(cell->FlipFlop_output) == state_beside(run, cell, t),
        next(cell->FlipFlop_output) == state_beside(run, cell, t + 1),
        same_bits(now, cell_inputs(cell), run(t), cell_inputs(cell)),
    ensures
        cell_starts(start, cell),
        cell_steps(now, next, cell),
{
    if let CellModel::FlipFlop { data, output, clock, enable, reset, .. } = cell {
        let pins = cell_inputs(cell);
        assert(pins[0] == data);
        assert(bit_value(now, pins[0]) == bit_value(run(t), pins[0]));
        reveal(state_after);
        if let Some(control) = enable {
            assert(pins[2] == control.signal);
            assert(bit_value(now, pins[2]) == bit_value(run(t), pins[2]));
            if let Some(reset) = reset {
                assert(pins[3] == reset.signal);
                assert(bit_value(now, pins[3]) == bit_value(run(t), pins[3]));
            }
        } else if let Some(reset) = reset {
            assert(pins[2] == reset.signal);
            assert(bit_value(now, pins[2]) == bit_value(run(t), pins[2]));
        }
    }
}

/// What a cell beside a run drives.
spec fn beside(
    run: spec_fn(nat) -> spec_fn(u32) -> bool,
    cell: CellModel,
    t: nat,
    wire: u32,
) -> bool {
    if cell is FlipFlop {
        state_beside(run, cell, t)
    } else {
        driven_value(run(t), cell, wire)
    }
}

/// A run with the pruned cells back in place.
spec fn unpruned_run(
    netlist: NetlistModel,
    run: spec_fn(nat) -> spec_fn(u32) -> bool,
) -> spec_fn(nat) -> spec_fn(u32) -> bool {
    |t: nat|
        |wire: u32|
            if exists|i: int| is_hidden(netlist, i, wire) {
                beside(run, netlist.cells[choose|i: int| is_hidden(netlist, i, wire)], t, wire)
            } else {
                run(t)(wire)
            }
}

/// A pruned cell drives no load.
proof fn lemma_hidden_unread(netlist: NetlistModel, i: int, wire: u32)
    requires
        is_hidden(netlist, i, wire),
    ensures
        !loads(netlist).contains(Bit::Wire(wire)),
{
    let outputs = cell_outputs(netlist.cells[i]);
    let p = choose|p: int| 0 <= p < outputs.len() && outputs[p] == Bit::Wire(wire);
    assert(!loads(netlist).contains(outputs[p]));
}

/// Loads carry in the unpruned run what they carry in the pruned one.
proof fn lemma_unpruned_load(
    netlist: NetlistModel,
    run: spec_fn(nat) -> spec_fn(u32) -> bool,
    bit: Bit,
    t: nat,
)
    requires
        loads(netlist).contains(bit),
    ensures
        bit_value(unpruned_run(netlist, run)(t), bit) == bit_value(run(t), bit),
{
    if let Bit::Wire(wire) = bit {
        if exists|i: int| is_hidden(netlist, i, wire) {
            let i = choose|i: int| is_hidden(netlist, i, wire);
            lemma_hidden_unread(netlist, i, wire);
        }
    }
}

proof fn lemma_cell_loads(netlist: NetlistModel, i: int, bit: Bit)
    requires
        0 <= i < netlist.cells.len(),
        cell_inputs(netlist.cells[i]).contains(bit),
    ensures
        loads(netlist).contains(bit),
{
    lemma_inputs_contain(netlist.cells, i, bit);
    let reads = cells_inputs(netlist.cells);
    let k = choose|k: int| 0 <= k < reads.len() && reads[k] == bit;
    assert(loads(netlist)[k] == bit);
}

proof fn lemma_unpruned_inputs(
    netlist: NetlistModel,
    run: spec_fn(nat) -> spec_fn(u32) -> bool,
    i: int,
    t: nat,
)
    requires
        0 <= i < netlist.cells.len(),
    ensures
        same_bits(
            unpruned_run(netlist, run)(t),
            cell_inputs(netlist.cells[i]),
            run(t),
            cell_inputs(netlist.cells[i]),
        ),
{
    let pins = cell_inputs(netlist.cells[i]);
    assert forall|k: int| 0 <= k < pins.len() implies bit_value(
        unpruned_run(netlist, run)(t),
        #[trigger] pins[k],
    ) == bit_value(run(t), pins[k]) by {
        assert(pins.contains(pins[k]));
        lemma_cell_loads(netlist, i, pins[k]);
        lemma_unpruned_load(netlist, run, pins[k], t);
    }
}

/// A cell that stays sees the same around it.
proof fn lemma_unpruned_around(
    netlist: NetlistModel,
    run: spec_fn(nat) -> spec_fn(u32) -> bool,
    i: int,
    t: nat,
)
    requires
        0 <= i < netlist.cells.len(),
        drivers_apart(netlist.cells),
        is_observable(netlist.cells[i], loads(netlist)),
    ensures
        same_around(unpruned_run(netlist, run)(t), run(t), netlist.cells[i]),
{
    let cell = netlist.cells[i];
    assert forall|wire: u32| #[trigger] touches(cell, wire) implies unpruned_run(netlist, run)(t)(
        wire,
    ) == run(t)(wire) by {
        if cell_inputs(cell).contains(Bit::Wire(wire)) {
            lemma_cell_loads(netlist, i, Bit::Wire(wire));
            lemma_unpruned_load(netlist, run, Bit::Wire(wire), t);
        } else if exists|j: int| is_hidden(netlist, j, wire) {
            let j = choose|j: int| is_hidden(netlist, j, wire);
            assert(drives(netlist.cells[j], wire));
            assert(drives(cell, wire));
            assert(i == j);
        }
    }
}

/// A pruned cell holds of the unpruned run.
proof fn lemma_unpruned_hidden(
    netlist: NetlistModel,
    run: spec_fn(nat) -> spec_fn(u32) -> bool,
    i: int,
    t: nat,
)
    requires
        0 <= i < netlist.cells.len(),
        drivers_apart(netlist.cells),
        !is_observable(netlist.cells[i], loads(netlist)),
    ensures
        cell_starts(unpruned_run(netlist, run)(0), netlist.cells[i]),
        cell_agrees(unpruned_run(netlist, run)(t), netlist.cells[i]),
        cell_steps(
            unpruned_run(netlist, run)(t),
            unpruned_run(netlist, run)(t + 1),
            netlist.cells[i],
        ),
        is_box(netlist.cells[i]) ==> same_box(
            unpruned_run(netlist, run)(t),
            netlist.cells[i],
            run(t),
            netlist.cells[i],
        ),
{
    let cell = netlist.cells[i];
    let left = unpruned_run(netlist, run);
    let outputs = cell_outputs(cell);
    assert forall|wire: u32, u: nat| drives(cell, wire) implies #[trigger] left(u)(
        wire,
    ) == beside(run, cell, u, wire) by {
        assert(is_hidden(netlist, i, wire));
        let j = choose|j: int| is_hidden(netlist, j, wire);
        assert(drives(netlist.cells[j], wire));
        assert(i == j);
    }
    lemma_unpruned_inputs(netlist, run, i, t);
    if is_combinational(cell) {
        assert forall|wire: u32| drives(cell, wire) implies #[trigger] left(t)(wire)
            == driven_value(left(t), cell, wire) by {
            lemma_driven_same(left(t), run(t), cell, wire);
        }
        lemma_agrees_by_wire(left(t), cell);
    } else if let CellModel::FlipFlop { output, .. } = cell {
        assert(outputs[0] == Bit::Wire(output));
        assert(drives(cell, output));
        assert(left(t)(output) == state_beside(run, cell, t));
        assert(left(t + 1)(output) == state_beside(run, cell, t + 1));
        assert(left(0)(output) == state_beside(run, cell, 0));
        lemma_state_beside(run, left(0), left(t), left(t + 1), cell, t);
    } else {
        assert forall|k: int| 0 <= k < outputs.len() implies bit_value(
            left(t),
            #[trigger] outputs[k],
        ) == bit_value(run(t), outputs[k]) by {
            assert(outputs.contains(outputs[k]));
            assert(drives(cell, outputs[k]->Wire_0));
        }
    }
}

/// Whether a cell reads `wire`.
pub open spec fn reads(cell: CellModel, wire: u32) -> bool {
    cell_inputs(cell).contains(Bit::Wire(wire))
}

/// Whether a port has a bit on `wire`.
pub open spec fn port_has(ports: Seq<PortModel>, wire: u32) -> bool {
    exists|p: int, k: int|
        0 <= p < ports.len() && 0 <= k < ports[p].bits.len() && #[trigger] ports[p].bits[k]
            == Bit::Wire(wire)
}

/// Whether a cell drives `wire` or a port has it.
pub open spec fn is_sourced(netlist: NetlistModel, wire: u32) -> bool {
    (exists|j: int| 0 <= j < netlist.cells.len() && #[trigger] drives(netlist.cells[j], wire))
        || port_has(netlist.ports, wire)
}

/// Whether a cell drives a wire, and wires of its own only.
pub open spec fn is_driver(netlist: NetlistModel, cell: CellModel) -> bool {
    &&& cell_outputs(cell).len() > 0
    &&& forall|wire: u32| #[trigger]
        drives(cell, wire) ==> wire > 0 && !port_inputs(netlist).contains(Bit::Wire(wire))
    &&& is_box(cell) ==> !begins_with(cell.cell_name(), "retime_"@)
}

/// Whether a netlist is wired up: each wire has one driver, every cell drives
/// something, what cells read is driven or comes from a port, and no box bears the
/// name of a moved cell.
pub open spec fn is_well_driven(netlist: NetlistModel) -> bool {
    &&& drivers_apart(netlist.cells)
    &&& forall|i: int|
        0 <= i < netlist.cells.len() ==> is_driver(netlist, #[trigger] netlist.cells[i])
    &&& forall|i: int, wire: u32|
        0 <= i < netlist.cells.len() && #[trigger] reads(netlist.cells[i], wire) ==> is_sourced(
            netlist,
            wire,
        )
}

/// Where an output of the cells comes from.
pub proof fn lemma_from_output(cells: Seq<CellModel>, at: int) -> (place: (int, int))
    requires
        0 <= at < cells_outputs(cells).len(),
    ensures
        0 <= place.0 < cells.len(),
        0 <= place.1 < cell_outputs(cells[place.0]).len(),
        cells_outputs(cells)[at] == cell_outputs(cells[place.0])[place.1],
        at == cells_outputs(cells.take(place.0)).len() + place.1,
    decreases cells.len(),
{
    let rest = cells_outputs(cells.drop_last());
    if at < rest.len() {
        let place = lemma_from_output(cells.drop_last(), at);
        assert(cells.drop_last().take(place.0) == cells.take(place.0));
        place
    } else {
        assert(cells.take(cells.len() - 1) == cells.drop_last());
        (cells.len() - 1, at - rest.len())
    }
}

/// A netlist that is wired up drives each wire once.
pub proof fn law_well_driven_drives_once(netlist: NetlistModel)
    requires
        is_well_driven(netlist),
    ensures
        drives_once(netlist),
{
    let cells = netlist.cells;
    let outputs = cells_outputs(cells);
    assert forall|i: int, j: int|
        0 <= i < j < outputs.len() && outputs[i] is Wire implies outputs[i] != outputs[j] by {
        let a = lemma_from_output(cells, i);
        let b = lemma_from_output(cells, j);
        if outputs[i] == outputs[j] {
            let wire = outputs[i]->Wire_0;
            assert(cell_outputs(cells[a.0]).contains(cell_outputs(cells[a.0])[a.1]));
            assert(cell_outputs(cells[b.0]).contains(cell_outputs(cells[b.0])[b.1]));
            assert(drives(cells[a.0], wire));
            assert(drives(cells[b.0], wire));
            assert(a.0 == b.0);
            assert(drives_apart(cells[a.0]));
            assert(a.1 < b.1);
            assert(cell_outputs(cells[a.0])[a.1] != cell_outputs(cells[a.0])[b.1]);
        }
    }
    assert forall|i: int|
        0 <= i < outputs.len() && (#[trigger] outputs[i]) is Wire implies !port_inputs(
        netlist,
    ).contains(outputs[i]) by {
        let a = lemma_from_output(cells, i);
        assert(cell_outputs(cells[a.0]).contains(cell_outputs(cells[a.0])[a.1]));
        assert(is_driver(netlist, cells[a.0]));
        assert(drives(cells[a.0], outputs[i]->Wire_0));
    }
}

/// The first wire that a cell drives.
spec fn own_wire(cell: CellModel) -> u32 {
    cell_outputs(cell)[0]->Wire_0
}

/// A netlist that is wired up has no more cells than wires.
pub proof fn lemma_cells_counted(netlist: NetlistModel)
    requires
        is_well_driven(netlist),
    ensures
        netlist.cells.len() <= u32::MAX,
        netlist.cells.len() <= usize::MAX,
{
    let cells = netlist.cells;
    let wires = Seq::new(cells.len(), |i: int| own_wire(cells[i]) as int);
    assert forall|i: int| 0 <= i < cells.len() implies drives(
        #[trigger] cells[i],
        own_wire(cells[i]),
    ) && own_wire(cells[i]) > 0 by {
        assert(is_driver(netlist, cells[i]));
        lemma_outputs_are_wires(cells[i], 0);
        assert(cell_outputs(cells[i]).contains(cell_outputs(cells[i])[0]));
        assert(drives(cells[i], own_wire(cells[i])));
    }
    assert(wires.no_duplicates()) by {
        assert forall|i: int, j: int|
            0 <= i < wires.len() && 0 <= j < wires.len() && i != j implies wires[i]
            != wires[j] by {
            assert(drives(cells[i], own_wire(cells[i])));
            assert(drives(cells[j], own_wire(cells[j])));
        }
    }
    wires.unique_seq_to_set();
    let range = vstd::set_lib::set_int_range(1, u32::MAX + 1);
    vstd::set_lib::lemma_int_range(1, u32::MAX + 1);
    assert(wires.to_set().subset_of(range)) by {
        assert forall|w: int| wires.to_set().contains(w) implies range.contains(w) by {
            let i = choose|i: int| 0 <= i < wires.len() && wires[i] == w;
            assert(drives(cells[i], own_wire(cells[i])));
        }
    }
    vstd::set_lib::lemma_len_subset(wires.to_set(), range);
}

/// Whether every wire in use is below `next`.
pub open spec fn all_below(netlist: NetlistModel, next: int) -> bool {
    &&& forall|i: int, wire: u32|
        0 <= i < netlist.cells.len() && #[trigger] touches(netlist.cells[i], wire) ==> wire < next
    &&& forall|wire: u32| #[trigger] port_has(netlist.ports, wire) ==> wire < next
}

/// In a netlist that is wired up no wire lies above the maximum.
pub proof fn lemma_all_below(netlist: NetlistModel)
    requires
        is_well_driven(netlist),
    ensures
        maximum_wire(netlist) matches Some(wire) ==> all_below(netlist, wire + 1),
        maximum_wire(netlist) is None ==> all_below(netlist, 1),
{
    let top = match maximum_wire(netlist) {
        Some(wire) => wire + 1,
        None => 1int,
    };
    assert forall|wire: u32| #[trigger] is_sourced(netlist, wire) implies wire < top by {
        if port_has(netlist.ports, wire) {
            let (p, k) = choose|p: int, k: int|
                0 <= p < netlist.ports.len() && 0 <= k < netlist.ports[p].bits.len()
                    && #[trigger] netlist.ports[p].bits[k] == Bit::Wire(wire);
            let at = lemma_port_bits_at(netlist.ports, p, k);
            lemma_maximum_port(netlist, at, wire);
        } else {
            let j = choose|j: int|
                0 <= j < netlist.cells.len() && #[trigger] drives(netlist.cells[j], wire);
            lemma_maximum_wire(netlist, j, wire);
        }
    }
    assert forall|i: int, wire: u32|
        0 <= i < netlist.cells.len() && #[trigger] touches(netlist.cells[i], wire) implies wire
        < top by {
        if reads(netlist.cells[i], wire) {
            assert(is_sourced(netlist, wire));
        } else {
            assert(drives(netlist.cells[i], wire));
            assert(is_sourced(netlist, wire));
        }
    }
    assert forall|wire: u32| #[trigger] port_has(netlist.ports, wire) implies wire < top by {
        assert(is_sourced(netlist, wire));
    }
}

/// The bits of a port stand among those of all ports.
pub proof fn lemma_port_bits_at(ports: Seq<PortModel>, p: int, k: int) -> (at: int)
    requires
        0 <= p < ports.len(),
        0 <= k < ports[p].bits.len(),
    ensures
        0 <= at < ports_bits(ports).len(),
        ports_bits(ports)[at] == ports[p].bits[k],
    decreases ports.len(),
{
    if p == ports.len() - 1 {
        ports_bits(ports.drop_last()).len() + k
    } else {
        lemma_port_bits_at(ports.drop_last(), p, k)
    }
}

/// Pruning unobservable cells shows no more.
proof fn lemma_pruning_shows_no_more(netlist: NetlistModel)
    requires
        is_well_driven(netlist),
    ensures
        shows_no_more(netlist, pruned_once(netlist)),
{
    reveal(shows_no_more);
    let after = pruned_once(netlist);
    assert forall|run: spec_fn(nat) -> spec_fn(u32) -> bool| #[trigger]
        is_run(run, after.cells) implies exists|left: spec_fn(nat) -> spec_fn(u32) -> bool|
        is_run(left, netlist.cells) && #[trigger] shows_same(left, netlist, run, after) by {
        let left = unpruned_run(netlist, run);
        assert forall|i: int, t: nat|
            #![trigger netlist.cells[i], left(t)]
            0 <= i < netlist.cells.len() implies (t == 0 ==> cell_starts(
            left(t),
            netlist.cells[i],
        )) && cell_agrees(left(t), netlist.cells[i]) && cell_steps(
            left(t),
            left(t + 1),
            netlist.cells[i],
        ) && (is_box(netlist.cells[i]) ==> same_box(
            left(t),
            netlist.cells[i],
            run(t),
            netlist.cells[i],
        )) by {
            if is_observable(netlist.cells[i], loads(netlist)) {
                let at = lemma_observable_at(netlist.cells, loads(netlist), i);
                lemma_unpruned_around(netlist, run, i, t);
                lemma_unpruned_around(netlist, run, i, t + 1);
                lemma_local(left(t), run(t), left(t + 1), run(t + 1), netlist.cells[i]);
                assert(cells_agree(run(t), after.cells));
                assert(cells_step(run(t), run(t + 1), after.cells));
                assert(cell_agrees(run(t), after.cells[at]));
                assert(cell_steps(run(t), run(t + 1), after.cells[at]));
                assert(cell_starts(run(0), after.cells[at]));
            } else {
                lemma_unpruned_hidden(netlist, run, i, t);
            }
        }
        assert(is_run(left, netlist.cells)) by {
            assert forall|i: int| 0 <= i < netlist.cells.len() implies cell_starts(
                left(0),
                #[trigger] netlist.cells[i],
            ) by {}
            assert forall|t: nat| cells_agree(#[trigger] left(t), netlist.cells) by {}
            assert forall|t: nat| cells_step(#[trigger] left(t), left(t + 1), netlist.cells) by {}
        }
        assert forall|t: nat|
            same_ports(#[trigger] left(t), netlist.ports, run(t), after.ports) && same_boxes(
                left(t),
                netlist.cells,
                run(t),
                after.cells,
            ) by {
            lemma_unpruned_ports(netlist, run, t);
            assert forall|i: int|
                0 <= i < netlist.cells.len() && is_box(
                    #[trigger] netlist.cells[i],
                ) implies exists|j: int|
                0 <= j < after.cells.len() && same_box(
                    left(t),
                    netlist.cells[i],
                    run(t),
                    #[trigger] after.cells[j],
                ) by {
                let at = lemma_observable_at(netlist.cells, loads(netlist), i);
                assert(same_box(left(t), netlist.cells[i], run(t), after.cells[at]));
            }
        }
        assert(shows_same(left, netlist, run, after));
    }
}

proof fn lemma_unpruned_ports(
    netlist: NetlistModel,
    run: spec_fn(nat) -> spec_fn(u32) -> bool,
    t: nat,
)
    requires
        is_well_driven(netlist),
    ensures
        same_ports(unpruned_run(netlist, run)(t), netlist.ports, run(t), netlist.ports),
{
    let left = unpruned_run(netlist, run);
    let ports = netlist.ports;
    assert forall|p: int, k: int|
        0 <= p < ports.len() && !(ports[p].direction is Inout) && 0 <= k
            < ports[p].bits.len() implies bit_value(left(t), #[trigger] ports[p].bits[k])
        == bit_value(run(t), ports[p].bits[k]) by {
        let bit = ports[p].bits[k];
        lemma_ports_contain(ports, ports[p].direction, p, k);
        if ports[p].direction is Output {
            let shown = directed_bits(ports, PortDirection::Output);
            let at = choose|at: int| 0 <= at < shown.len() && shown[at] == bit;
            assert(loads(netlist)[cells_inputs(netlist.cells).len() + at] == bit);
            lemma_unpruned_load(netlist, run, bit, t);
        } else if let Bit::Wire(wire) = bit {
            if exists|i: int| is_hidden(netlist, i, wire) {
                let i = choose|i: int| is_hidden(netlist, i, wire);
                assert(is_driver(netlist, netlist.cells[i]));
                assert(drives(netlist.cells[i], wire));
            }
        }
    }
}

proof fn lemma_observable_from(cells: Seq<CellModel>, bits: Seq<Bit>, at: int) -> (i: int)
    requires
        0 <= at < observable_cells(cells, bits).len(),
    ensures
        0 <= i < cells.len(),
        is_observable(cells[i], bits),
        observable_cells(cells, bits)[at] == cells[i],
        at <= i,
    decreases cells.len(),
{
    let rest = observable_cells(cells.drop_last(), bits);
    if at < rest.len() {
        lemma_observable_from(cells.drop_last(), bits, at)
    } else {
        lemma_observable_len(cells.drop_last(), bits);
        cells.len() - 1
    }
}

proof fn lemma_observable_len(cells: Seq<CellModel>, bits: Seq<Bit>)
    ensures
        observable_cells(cells, bits).len() <= cells.len(),
    decreases cells.len(),
{
    if cells.len() > 0 {
        lemma_observable_len(cells.drop_last(), bits);
    }
}

proof fn lemma_observable_apart(cells: Seq<CellModel>, bits: Seq<Bit>)
    requires
        drivers_apart(cells),
    ensures
        drivers_apart(observable_cells(cells, bits)),
    decreases cells.len(),
{
    let after = observable_cells(cells, bits);
    if cells.len() > 0 {
        let rest = cells.drop_last();
        assert(drivers_apart(rest)) by {
            assert forall|i: int| 0 <= i < rest.len() implies drives_apart(
                #[trigger] rest[i],
            ) by {
                assert(drives_apart(cells[i]));
            }
            assert forall|i: int, j: int, wire: u32|
                0 <= i < rest.len() && 0 <= j < rest.len() && #[trigger] drives(rest[i], wire)
                    && #[trigger] drives(rest[j], wire) implies i == j by {
                assert(drives(cells[i], wire) && drives(cells[j], wire));
            }
        }
        lemma_observable_apart(rest, bits);
        let kept = observable_cells(rest, bits);
        if is_observable(cells.last(), bits) {
            assert(cells.last() == cells[cells.len() - 1]);
            assert forall|i: int| 0 <= i < after.len() implies drives_apart(
                #[trigger] after[i],
            ) by {
                if i < kept.len() {
                    assert(after[i] == kept[i]);
                } else {
                    assert(drives_apart(cells[cells.len() - 1]));
                }
            }
            assert forall|i: int, wire: u32|
                0 <= i < kept.len() && #[trigger] drives(kept[i], wire) implies !drives(
                cells.last(),
                wire,
            ) by {
                let from = lemma_observable_from(rest, bits, i);
                assert(drives(cells[from], wire));
            }
            assert forall|i: int, j: int, wire: u32|
                0 <= i < after.len() && 0 <= j < after.len() && #[trigger] drives(after[i], wire)
                    && #[trigger] drives(after[j], wire) implies i == j by {
                if i < kept.len() {
                    assert(drives(kept[i], wire));
                }
                if j < kept.len() {
                    assert(drives(kept[j], wire));
                }
            }
        }
    }
}

/// Pruning unobservable cells leaves the netlist wired up.
pub proof fn law_pruning_keeps_wiring(netlist: NetlistModel)
    requires
        is_well_driven(netlist),
    ensures
        is_well_driven(pruned_once(netlist)),
{
    let after = pruned_once(netlist);
    let bits = loads(netlist);
    lemma_observable_apart(netlist.cells, bits);
    assert forall|i: int| 0 <= i < after.cells.len() implies is_driver(
        after,
        #[trigger] after.cells[i],
    ) by {
        let from = lemma_observable_from(netlist.cells, bits, i);
        assert(is_driver(netlist, netlist.cells[from]));
    }
    assert forall|i: int, wire: u32|
        0 <= i < after.cells.len() && #[trigger] reads(after.cells[i], wire) implies is_sourced(
        after,
        wire,
    ) by {
        let from = lemma_observable_from(netlist.cells, bits, i);
        assert(reads(netlist.cells[from], wire));
        assert(is_sourced(netlist, wire));
        if !port_has(netlist.ports, wire) {
            let j = choose|j: int|
                0 <= j < netlist.cells.len() && #[trigger] drives(netlist.cells[j], wire);
            lemma_cell_loads(netlist, from, Bit::Wire(wire));
            let outputs = cell_outputs(netlist.cells[j]);
            let p = choose|p: int| 0 <= p < outputs.len() && outputs[p] == Bit::Wire(wire);
            assert(bits.contains(outputs[p]));
            assert(drives_loaded(netlist.cells[j], bits));
            let at = lemma_observable_at(netlist.cells, bits, j);
            assert(drives(after.cells[at], wire));
        }
    }
}

/// Pruning unobservable cells keeps what is shown.
pub proof fn law_pruning_keeps_shown(netlist: NetlistModel)
    requires
        is_well_driven(netlist),
    ensures
        keeps_shown(netlist, pruned_once(netlist)),
{
    let after = pruned_once(netlist);
    let bits = loads(netlist);
    lemma_pruning_shows_no_more(netlist);
    reveal(shows_no_less);
    assert forall|run: spec_fn(nat) -> spec_fn(u32) -> bool| #[trigger]
        is_run(run, netlist.cells) implies exists|right: spec_fn(nat) -> spec_fn(u32) -> bool|
        is_run(right, after.cells) && #[trigger] shows_same(run, netlist, right, after) by {
        assert forall|i: int, t: nat|
            #![trigger after.cells[i], run(t)]
            0 <= i < after.cells.len() implies (t == 0 ==> cell_starts(run(t), after.cells[i]))
            && cell_agrees(run(t), after.cells[i]) && cell_steps(
            run(t),
            run(t + 1),
            after.cells[i],
        ) by {
            let from = lemma_observable_from(netlist.cells, bits, i);
            assert(cells_agree(run(t), netlist.cells));
            assert(cells_step(run(t), run(t + 1), netlist.cells));
            assert(cell_agrees(run(t), netlist.cells[from]));
            assert(cell_steps(run(t), run(t + 1), netlist.cells[from]));
            assert(cell_starts(run(0), netlist.cells[from]));
        }
        assert(is_run(run, after.cells)) by {
            assert forall|i: int| 0 <= i < after.cells.len() implies cell_starts(
                run(0),
                #[trigger] after.cells[i],
            ) by {}
            assert forall|t: nat| cells_agree(#[trigger] run(t), after.cells) by {}
            assert forall|t: nat| cells_step(#[trigger] run(t), run(t + 1), after.cells) by {}
        }
        assert forall|t: nat|
            same_ports(#[trigger] run(t), netlist.ports, run(t), after.ports) && same_boxes(
                run(t),
                netlist.cells,
                run(t),
                after.cells,
            ) by {
            assert forall|i: int|
                0 <= i < netlist.cells.len() && is_box(
                    #[trigger] netlist.cells[i],
                ) implies exists|j: int|
                0 <= j < after.cells.len() && same_box(
                    run(t),
                    netlist.cells[i],
                    run(t),
                    #[trigger] after.cells[j],
                ) by {
                assert(is_driver(netlist, netlist.cells[i]));
                let at = lemma_observable_at(netlist.cells, bits, i);
                assert(same_box(run(t), netlist.cells[i], run(t), after.cells[at]));
            }
        }
        assert(shows_same(run, netlist, run, after));
    }
}

} // verus!
