//! Two rewrites that keep what is shown: a cell grown beside others, and cells
//! exchanged for equal ones.

use vstd::prelude::*;

use crate::cells::cell_inputs;
use crate::cells::cell_outputs;
use crate::cells::Bit;
use crate::cells::CellModel;
use crate::fanout::BUFFER_INIT;
use crate::meaning::bit_value;
use crate::meaning::cell_agrees;
use crate::meaning::cells_agree;
use crate::moves::cell_steps;
use crate::moves::cells_step;
use crate::netlist::NetlistModel;
use crate::shown::all_below;
use crate::shown::cell_starts;
use crate::shown::drives;
use crate::shown::drives_apart;
use crate::shown::is_box;
use crate::shown::is_combinational;
use crate::shown::is_driver;
use crate::shown::is_run;
use crate::shown::is_sourced;
use crate::shown::is_well_driven;
use crate::shown::keeps_shown;
use crate::shown::lemma_make;
use crate::shown::port_has;
use crate::shown::reads;
use crate::shown::same_bits;
use crate::shown::same_box;
use crate::shown::same_boxes;
use crate::shown::same_make;
use crate::shown::same_ports;
use crate::shown::shows_no_less;
use crate::shown::shows_no_more;
use crate::shown::shows_same;
use crate::shown::touches;

verus! {

/// A bit on the wire that stands behind its own.
pub open spec fn mirrored(mirror: spec_fn(u32) -> u32, bit: Bit) -> Bit {
    match bit {
        Bit::Wire(wire) => Bit::Wire(mirror(wire)),
        _ => bit,
    }
}

/// Bits on the wires that stand behind their own.
pub open spec fn mirrored_bits(mirror: spec_fn(u32) -> u32, bits: Seq<Bit>) -> Seq<Bit> {
    Seq::new(bits.len(), |k: int| mirrored(mirror, bits[k]))
}

/// Whether `after` is `before` with inputs on wires that mirror the old ones.
pub open spec fn is_rewired(
    mirror: spec_fn(u32) -> u32,
    before: CellModel,
    after: CellModel,
) -> bool {
    &&& same_make(before, after)
    &&& cell_outputs(after) == cell_outputs(before)
    &&& cell_inputs(before) == mirrored_bits(mirror, cell_inputs(after))
    &&& after.cell_name() == before.cell_name()
}

/// A cell grown beside the others: the wires from `next` on are new, and each
/// mirrors a wire that the cell at `source` drives. Without a source the cell is a
/// buffer.
pub ghost struct Growth {
    pub mirror: spec_fn(u32) -> u32,
    pub next: u32,
    pub source: int,
}

/// Whether `after` is `before` with a copy of the cell at the source beside it, and
/// inputs moved to what the copy drives.
pub open spec fn is_grown(before: NetlistModel, after: NetlistModel, growth: Growth) -> bool {
    let count = before.cells.len() as int;
    let copy = after.cells[count];
    &&& after.ports == before.ports
    &&& after.cells.len() == count + 1
    &&& all_below(before, growth.next as int)
    &&& growth.next > 0
    &&& forall|wire: u32| wire < growth.next ==> #[trigger] (growth.mirror)(wire) == wire
    &&& forall|i: int|
        0 <= i < count ==> is_rewired(growth.mirror, #[trigger] before.cells[i], after.cells[i])
    &&& if growth.source >= 0 {
        growth.source < count && is_copy(
            before.cells[growth.source],
            after.cells[growth.source],
            copy,
            growth,
        )
    } else {
        is_buffer(before, copy, growth)
    }
}

/// Whether `buffer` drives, on a new wire, what a sourced wire carries.
pub open spec fn is_buffer(before: NetlistModel, buffer: CellModel, growth: Growth) -> bool {
    let wire = (growth.mirror)(growth.next);
    &&& buffer matches CellModel::Lut4 { inputs, output, init, .. } && inputs == [
        Bit::Wire(wire),
        Bit::Zero,
        Bit::Zero,
        Bit::Zero,
    ] && output == growth.next && init == BUFFER_INIT
    &&& is_sourced(before, wire)
    &&& wire < growth.next
    &&& forall|other: u32| other > growth.next ==> #[trigger] (growth.mirror)(other) == other
}

/// A buffer agrees exactly where both its wires carry the same.
proof fn lemma_buffer(
    values: spec_fn(u32) -> bool,
    before: NetlistModel,
    buffer: CellModel,
    growth: Growth,
)
    requires
        is_buffer(before, buffer, growth),
    ensures
        cell_agrees(values, buffer) == (values(growth.next) == values(
            (growth.mirror)(growth.next),
        )),
        forall|wire: u32| #[trigger] drives(buffer, wire) ==> wire == growth.next,
        drives(buffer, growth.next),
        forall|wire: u32| #[trigger]
            reads(buffer, wire) ==> wire == (growth.mirror)(growth.next),
        drives_apart(buffer),
{
    assert(0xaaaau16 & (1u16 << 0u16) == 0) by (bit_vector);
    assert(0xaaaau16 & (1u16 << 1u16) != 0) by (bit_vector);
    assert(cell_outputs(buffer)[0] == Bit::Wire(growth.next));
}

/// Whether `copy` drives, on new wires, what the cell at the source drives.
pub open spec fn is_copy(
    before: CellModel,
    after: CellModel,
    copy: CellModel,
    growth: Growth,
) -> bool {
    &&& same_make(before, copy)
    &&& !is_box(copy)
    &&& cell_inputs(copy) == cell_inputs(before)
    &&& is_combinational(copy) ==> cell_inputs(after) == cell_inputs(before)
    &&& cell_outputs(before) == mirrored_bits(growth.mirror, cell_outputs(copy))
    &&& drives_apart(copy)
    &&& forall|wire: u32| #[trigger] drives(copy, wire) ==> wire >= growth.next
    &&& forall|wire: u32|
        wire >= growth.next ==> drives(copy, wire) || #[trigger] (growth.mirror)(wire) == wire
}

/// Growing a copy leaves the netlist wired up.
pub proof fn lemma_growth_keeps_wiring(
    before: NetlistModel,
    after: NetlistModel,
    growth: Growth,
)
    requires
        is_well_driven(before),
        is_grown(before, after, growth),
    ensures
        is_well_driven(after),
        forall|next: int|
            next >= growth.next && (forall|wire: u32| #[trigger]
                drives(after.cells[before.cells.len() as int], wire) ==> wire < next)
                ==> #[trigger] all_below(after, next),
{
    let count = before.cells.len() as int;
    let copy = after.cells[count];
    if growth.source < 0 {
        lemma_buffer(|wire: u32| false, before, copy, growth);
    }
    assert forall|i: int| 0 <= i < after.cells.len() implies drives_apart(
        #[trigger] after.cells[i],
    ) && is_driver(after, after.cells[i]) by {
        if i < count {
            assert(is_rewired(growth.mirror, before.cells[i], after.cells[i]));
            assert(drives_apart(before.cells[i]));
            assert(is_driver(before, before.cells[i]));
            assert forall|wire: u32| #[trigger] drives(after.cells[i], wire) implies wire > 0
                && !crate::netlist::port_inputs(after).contains(Bit::Wire(wire)) by {
                assert(drives(before.cells[i], wire));
            }
        } else {
            if growth.source >= 0 {
                assert(is_driver(before, before.cells[growth.source]));
            }
            assert forall|wire: u32| #[trigger] drives(copy, wire) implies wire > 0
                && !crate::netlist::port_inputs(after).contains(Bit::Wire(wire)) by {
                lemma_port_inputs_below(before, growth.next as int, wire);
            }
        }
    }
    assert forall|i: int, j: int, wire: u32|
        0 <= i < after.cells.len() && 0 <= j < after.cells.len() && #[trigger] drives(
            after.cells[i],
            wire,
        ) && #[trigger] drives(after.cells[j], wire) implies i == j by {
        if i < count {
            assert(is_rewired(growth.mirror, before.cells[i], after.cells[i]));
            assert(drives(before.cells[i], wire));
            assert(touches(before.cells[i], wire));
        }
        if j < count {
            assert(is_rewired(growth.mirror, before.cells[j], after.cells[j]));
            assert(drives(before.cells[j], wire));
            assert(touches(before.cells[j], wire));
        }
    }
    assert forall|i: int, wire: u32|
        0 <= i < after.cells.len() && #[trigger] reads(
            after.cells[i],
            wire,
        ) implies is_sourced(after, wire) && (wire < growth.next || drives(copy, wire)) by {
        let bits = cell_inputs(after.cells[i]);
        let k = choose|k: int| 0 <= k < bits.len() && bits[k] == Bit::Wire(wire);
        if i == count {
            if growth.source >= 0 {
                assert(reads(before.cells[growth.source], wire));
                assert(touches(before.cells[growth.source], wire));
            } else {
                assert(reads(copy, wire));
            }
            lemma_still_sourced(before, after, growth, wire);
        } else {
            assert(is_rewired(growth.mirror, before.cells[i], after.cells[i]));
            let theirs = cell_inputs(before.cells[i]);
            assert(theirs[k] == Bit::Wire((growth.mirror)(wire)));
            assert(theirs.contains(theirs[k]));
            assert(reads(before.cells[i], (growth.mirror)(wire)));
            assert(touches(before.cells[i], (growth.mirror)(wire)));
            if wire < growth.next {
                assert((growth.mirror)(wire) == wire);
                lemma_still_sourced(before, after, growth, wire);
            } else {
                assert(drives(copy, wire));
            }
        }
    }
    assert forall|next: int|
        next >= growth.next && (forall|wire: u32| #[trigger]
            drives(after.cells[before.cells.len() as int], wire) ==> wire
                < next) implies #[trigger] all_below(after, next) by {
        assert forall|i: int, wire: u32|
            0 <= i < after.cells.len() && #[trigger] touches(
                after.cells[i],
                wire,
            ) implies wire < next by {
            if reads(after.cells[i], wire) {
            } else if i < count {
                assert(is_rewired(growth.mirror, before.cells[i], after.cells[i]));
                assert(drives(before.cells[i], wire));
                assert(touches(before.cells[i], wire));
            } else {
                assert(drives(copy, wire));
            }
        }
    }
}

/// Wires of input ports are wires of ports.
pub proof fn lemma_port_inputs_below(netlist: NetlistModel, next: int, wire: u32)
    requires
        all_below(netlist, next),
        wire >= next,
    ensures
        !crate::netlist::port_inputs(netlist).contains(Bit::Wire(wire)),
{
    let bits = crate::netlist::port_inputs(netlist);
    if bits.contains(Bit::Wire(wire)) {
        let k = choose|k: int| 0 <= k < bits.len() && bits[k] == Bit::Wire(wire);
        let place = lemma_directed_from(
            netlist.ports,
            crate::cells::PortDirection::Input,
            k,
        );
        assert(netlist.ports[place.0].bits[place.1] == Bit::Wire(wire));
        assert(port_has(netlist.ports, wire));
    }
}

/// The bits of one direction come from ports.
pub proof fn lemma_directed_from(
    ports: Seq<crate::cells::PortModel>,
    direction: crate::cells::PortDirection,
    at: int,
) -> (place: (int, int))
    requires
        0 <= at < crate::netlist::directed_bits(ports, direction).len(),
    ensures
        0 <= place.0 < ports.len(),
        0 <= place.1 < ports[place.0].bits.len(),
        ports[place.0].direction == direction,
        crate::netlist::directed_bits(ports, direction)[at] == ports[place.0].bits[place.1],
    decreases ports.len(),
{
    let rest = crate::netlist::directed_bits(ports.drop_last(), direction);
    if at < rest.len() {
        lemma_directed_from(ports.drop_last(), direction, at)
    } else {
        (ports.len() - 1, at - rest.len())
    }
}

proof fn lemma_still_sourced(
    before: NetlistModel,
    after: NetlistModel,
    growth: Growth,
    wire: u32,
)
    requires
        is_grown(before, after, growth),
        is_sourced(before, wire),
    ensures
        is_sourced(after, wire),
{
    if !port_has(before.ports, wire) {
        let j = choose|j: int|
            0 <= j < before.cells.len() && #[trigger] drives(before.cells[j], wire);
        assert(is_rewired(growth.mirror, before.cells[j], after.cells[j]));
        assert(drives(after.cells[j], wire));
    }
}

/// Values in which a copy carries what its source does.
pub open spec fn reflected(
    values: spec_fn(u32) -> bool,
    mirror: spec_fn(u32) -> u32,
) -> spec_fn(u32) -> bool {
    |wire: u32| values(mirror(wire))
}

/// Bits carry the same on the wires that stand behind their own.
proof fn lemma_reflected_bits(
    left: spec_fn(u32) -> bool,
    right: spec_fn(u32) -> bool,
    mirror: spec_fn(u32) -> u32,
    bits: Seq<Bit>,
)
    requires
        is_reflected(left, right, mirror),
    ensures
        same_bits(left, mirrored_bits(mirror, bits), right, bits),
{
    let behind = mirrored_bits(mirror, bits);
    assert forall|k: int| 0 <= k < behind.len() implies bit_value(left, #[trigger] behind[k])
        == bit_value(right, bits[k]) by {
        if let Bit::Wire(wire) = bits[k] {
            assert(right(wire) == left(mirror(wire)));
        }
    }
}

/// Whether every wire carries what stands behind it.
pub open spec fn is_reflected(
    left: spec_fn(u32) -> bool,
    right: spec_fn(u32) -> bool,
    mirror: spec_fn(u32) -> u32,
) -> bool {
    forall|wire: u32| right(wire) == left(#[trigger] mirror(wire))
}

/// What holds of a cell before it was rewired holds afterwards, and back.
proof fn lemma_rewired_holds(
    left: spec_fn(u32) -> bool,
    right: spec_fn(u32) -> bool,
    next_left: spec_fn(u32) -> bool,
    next_right: spec_fn(u32) -> bool,
    before: NetlistModel,
    after: NetlistModel,
    growth: Growth,
    i: int,
)
    requires
        is_grown(before, after, growth),
        is_reflected(left, right, growth.mirror),
        is_reflected(next_left, next_right, growth.mirror),
        0 <= i < before.cells.len(),
    ensures
        cell_starts(left, before.cells[i]) == cell_starts(right, after.cells[i]),
        cell_agrees(left, before.cells[i]) == cell_agrees(right, after.cells[i]),
        cell_steps(left, next_left, before.cells[i]) == cell_steps(
            right,
            next_right,
            after.cells[i],
        ),
        is_box(before.cells[i]) ==> same_box(left, before.cells[i], right, after.cells[i]),
{
    let a = before.cells[i];
    let b = after.cells[i];
    assert(is_rewired(growth.mirror, a, b));
    lemma_reflected_bits(left, right, growth.mirror, cell_inputs(b));
    lemma_outputs_stay(left, right, before, growth, i);
    lemma_outputs_stay(next_left, next_right, before, growth, i);
    lemma_make(left, right, next_left, next_right, a, b);
}

proof fn lemma_outputs_stay(
    left: spec_fn(u32) -> bool,
    right: spec_fn(u32) -> bool,
    before: NetlistModel,
    growth: Growth,
    i: int,
)
    requires
        all_below(before, growth.next as int),
        forall|wire: u32| wire < growth.next ==> #[trigger] (growth.mirror)(wire) == wire,
        is_reflected(left, right, growth.mirror),
        0 <= i < before.cells.len(),
    ensures
        same_bits(left, cell_outputs(before.cells[i]), right, cell_outputs(before.cells[i])),
{
    let outputs = cell_outputs(before.cells[i]);
    assert forall|k: int| 0 <= k < outputs.len() implies bit_value(left, #[trigger] outputs[k])
        == bit_value(right, outputs[k]) by {
        if let Bit::Wire(wire) = outputs[k] {
            assert(outputs.contains(outputs[k]));
            assert(touches(before.cells[i], wire));
            assert((growth.mirror)(wire) == wire);
            assert(right(wire) == left((growth.mirror)(wire)));
        }
    }
}

/// What holds of the source holds of its copy, and a buffer always holds.
proof fn lemma_copy_holds(
    left: spec_fn(u32) -> bool,
    right: spec_fn(u32) -> bool,
    next_left: spec_fn(u32) -> bool,
    next_right: spec_fn(u32) -> bool,
    before: NetlistModel,
    after: NetlistModel,
    growth: Growth,
)
    requires
        is_grown(before, after, growth),
        is_reflected(left, right, growth.mirror),
        is_reflected(next_left, next_right, growth.mirror),
    ensures
        growth.source < 0 ==> cell_starts(right, after.cells[before.cells.len() as int])
            && cell_agrees(right, after.cells[before.cells.len() as int]) && cell_steps(
            right,
            next_right,
            after.cells[before.cells.len() as int],
        ),
        growth.source >= 0 ==> ({
            let source = before.cells[growth.source];
            let copy = after.cells[before.cells.len() as int];
            &&& cell_starts(left, source) == cell_starts(right, copy)
            &&& cell_agrees(left, source) == cell_agrees(right, copy)
            &&& cell_steps(left, next_left, source) == cell_steps(right, next_right, copy)
        }),
{
    if growth.source < 0 {
        let copy = after.cells[before.cells.len() as int];
        lemma_buffer(right, before, copy, growth);
        let wire = (growth.mirror)(growth.next);
        assert((growth.mirror)(wire) == wire);
    } else {
        lemma_true_copy_holds(left, right, next_left, next_right, before, after, growth);
    }
}

proof fn lemma_true_copy_holds(
    left: spec_fn(u32) -> bool,
    right: spec_fn(u32) -> bool,
    next_left: spec_fn(u32) -> bool,
    next_right: spec_fn(u32) -> bool,
    before: NetlistModel,
    after: NetlistModel,
    growth: Growth,
)
    requires
        is_grown(before, after, growth),
        growth.source >= 0,
        is_reflected(left, right, growth.mirror),
        is_reflected(next_left, next_right, growth.mirror),
    ensures
        ({
            let source = before.cells[growth.source];
            let copy = after.cells[before.cells.len() as int];
            &&& cell_starts(left, source) == cell_starts(right, copy)
            &&& cell_agrees(left, source) == cell_agrees(right, copy)
            &&& cell_steps(left, next_left, source) == cell_steps(right, next_right, copy)
        }),
{
    let source = before.cells[growth.source];
    let copy = after.cells[before.cells.len() as int];
    let bits = cell_inputs(source);
    assert forall|k: int| 0 <= k < bits.len() implies bit_value(left, #[trigger] bits[k])
        == bit_value(right, bits[k]) by {
        if let Bit::Wire(wire) = bits[k] {
            assert(bits.contains(bits[k]));
            assert(touches(source, wire));
            assert((growth.mirror)(wire) == wire);
            assert(right(wire) == left((growth.mirror)(wire)));
        }
    }
    lemma_reflected_bits(left, right, growth.mirror, cell_outputs(copy));
    lemma_reflected_bits(next_left, next_right, growth.mirror, cell_outputs(copy));
    lemma_make(left, right, next_left, next_right, source, copy);
}

/// In a run after growth every wire carries what stands behind it.
proof fn lemma_run_reflects(
    before: NetlistModel,
    after: NetlistModel,
    growth: Growth,
    run: spec_fn(nat) -> spec_fn(u32) -> bool,
    t: nat,
)
    requires
        is_grown(before, after, growth),
        is_run(run, after.cells),
    ensures
        is_reflected(run(t), run(t), growth.mirror),
{
    let copy = after.cells[before.cells.len() as int];
    assert(cells_agree(run(t), after.cells));
    assert(cell_agrees(run(t), copy));
    if growth.source < 0 {
        lemma_buffer(run(t), before, copy, growth);
        assert forall|wire: u32| run(t)(wire) == run(t)(#[trigger] (growth.mirror)(wire)) by {}
    } else {
        lemma_copy_reflects(before, after, growth, run, t);
    }
}

proof fn lemma_copy_reflects(
    before: NetlistModel,
    after: NetlistModel,
    growth: Growth,
    run: spec_fn(nat) -> spec_fn(u32) -> bool,
    t: nat,
)
    requires
        is_grown(before, after, growth),
        growth.source >= 0,
        is_run(run, after.cells),
    ensures
        is_reflected(run(t), run(t), growth.mirror),
    decreases t,
{
    let source = after.cells[growth.source];
    let copy = after.cells[before.cells.len() as int];
    assert(is_rewired(growth.mirror, before.cells[growth.source], source));
    assert(cells_agree(run(t), after.cells));
    assert(cell_agrees(run(t), source));
    assert(cell_agrees(run(t), copy));
    if is_combinational(copy) {
        lemma_twins_agree(run(t), source, copy);
    } else if t == 0 {
        assert(cell_starts(run(0), source));
        assert(cell_starts(run(0), copy));
        lemma_twins_start(run(0), source, copy);
    } else {
        let last = (t - 1) as nat;
        lemma_copy_reflects(before, after, growth, run, last);
        assert(cells_step(run(last), run(last + 1), after.cells));
        assert(cell_steps(run(last), run(t), source));
        assert(cell_steps(run(last), run(t), copy));
        lemma_twins_step(run(last), run(t), before, after, growth);
    }
    lemma_outputs_reflect(before, after, growth, run(t));
}

proof fn lemma_outputs_reflect(
    before: NetlistModel,
    after: NetlistModel,
    growth: Growth,
    values: spec_fn(u32) -> bool,
)
    requires
        is_grown(before, after, growth),
        growth.source >= 0,
        same_bits(
            values,
            cell_outputs(after.cells[growth.source]),
            values,
            cell_outputs(after.cells[before.cells.len() as int]),
        ),
    ensures
        is_reflected(values, values, growth.mirror),
{
    let source = after.cells[growth.source];
    let copy = after.cells[before.cells.len() as int];
    assert(is_rewired(growth.mirror, before.cells[growth.source], source));
    assert forall|wire: u32| values(wire) == values(#[trigger] (growth.mirror)(wire)) by {
        if wire >= growth.next && drives(copy, wire) {
            let outputs = cell_outputs(copy);
            let p = choose|p: int| 0 <= p < outputs.len() && outputs[p] == Bit::Wire(wire);
            assert(cell_outputs(source)[p] == Bit::Wire((growth.mirror)(wire)));
            assert(bit_value(values, cell_outputs(source)[p]) == bit_value(values, outputs[p]));
        } else {
            assert((growth.mirror)(wire) == wire);
        }
    }
}

/// Combinational cells of one make that read the same drive the same.
pub proof fn lemma_twins_agree(values: spec_fn(u32) -> bool, a: CellModel, b: CellModel)
    requires
        is_combinational(b),
        same_make(a, b),
        cell_inputs(a) == cell_inputs(b),
        cell_agrees(values, a),
        cell_agrees(values, b),
    ensures
        same_bits(values, cell_outputs(a), values, cell_outputs(b)),
{
    let mine = cell_inputs(a);
    let yours = cell_inputs(b);
    match a {
        CellModel::Lut4 { inputs, .. } => {
            let other = b->Lut4_inputs;
            assert(inputs@ == other@);
            assert(inputs[0] == other[0] && inputs[1] == other[1] && inputs[2] == other[2]
                && inputs[3] == other[3]);
        },
        CellModel::Ccu2c { inputs, carry_in, .. } => {
            let other = b->Ccu2c_inputs;
            assert(mine[0] == inputs[0][0] && yours[0] == other[0][0]);
            assert(mine[1] == inputs[0][1] && yours[1] == other[0][1]);
            assert(mine[2] == inputs[0][2] && yours[2] == other[0][2]);
            assert(mine[3] == inputs[0][3] && yours[3] == other[0][3]);
            assert(mine[4] == inputs[1][0] && yours[4] == other[1][0]);
            assert(mine[5] == inputs[1][1] && yours[5] == other[1][1]);
            assert(mine[6] == inputs[1][2] && yours[6] == other[1][2]);
            assert(mine[7] == inputs[1][3] && yours[7] == other[1][3]);
            assert(mine[8] == carry_in && yours[8] == b->Ccu2c_carry_in);
        },
        _ => {
            assert(mine[0] == yours[0] && mine[1] == yours[1] && mine[2] == yours[2]);
        },
    }
}

proof fn lemma_twins_start(values: spec_fn(u32) -> bool, a: CellModel, b: CellModel)
    requires
        a is FlipFlop,
        b is FlipFlop,
        same_make(a, b),
        cell_starts(values, a),
        cell_starts(values, b),
    ensures
        same_bits(values, cell_outputs(a), values, cell_outputs(b)),
{
}

proof fn lemma_twins_step(
    now: spec_fn(u32) -> bool,
    next: spec_fn(u32) -> bool,
    before: NetlistModel,
    after: NetlistModel,
    growth: Growth,
)
    requires
        is_grown(before, after, growth),
        growth.source >= 0,
        is_reflected(now, now, growth.mirror),
        after.cells[before.cells.len() as int] is FlipFlop,
        cell_steps(now, next, after.cells[growth.source]),
        cell_steps(now, next, after.cells[before.cells.len() as int]),
    ensures
        same_bits(
            next,
            cell_outputs(after.cells[growth.source]),
            next,
            cell_outputs(after.cells[before.cells.len() as int]),
        ),
{
    let a = after.cells[growth.source];
    let b = after.cells[before.cells.len() as int];
    let source = before.cells[growth.source];
    assert(is_rewired(growth.mirror, source, a));
    lemma_reflected_bits(now, now, growth.mirror, cell_inputs(a));
    lemma_reflected_bits(now, now, growth.mirror, cell_outputs(b));
    assert(cell_outputs(source) == cell_outputs(a));
    assert(bit_value(now, cell_outputs(a)[0]) == bit_value(now, cell_outputs(b)[0]));
    let mine = cell_inputs(a);
    let yours = cell_inputs(b);
    assert(same_bits(now, yours, now, mine));
    lemma_same_next(now, next, a, b);
}

/// Flip-flops of one make that read and hold the same hold the same next.
pub proof fn lemma_same_next(
    now: spec_fn(u32) -> bool,
    next: spec_fn(u32) -> bool,
    a: CellModel,
    b: CellModel,
)
    requires
        a is FlipFlop,
        b is FlipFlop,
        same_make(a, b),
        same_bits(now, cell_inputs(b), now, cell_inputs(a)),
        now(a->FlipFlop_output) == now(b->FlipFlop_output),
        cell_steps(now, next, a),
        cell_steps(now, next, b),
    ensures
        next(a->FlipFlop_output) == next(b->FlipFlop_output),
        same_bits(next, cell_outputs(a), next, cell_outputs(b)),
{
    let mine = cell_inputs(a);
    let yours = cell_inputs(b);
    reveal(crate::moves::state_after);
    assert(mine[0] == a->FlipFlop_data && yours[0] == b->FlipFlop_data);
    assert(bit_value(now, yours[0]) == bit_value(now, mine[0]));
    if let Some(x) = a->FlipFlop_enable {
        let y = b->FlipFlop_enable->0;
        assert(mine[2] == x.signal && yours[2] == y.signal);
        assert(bit_value(now, yours[2]) == bit_value(now, mine[2]));
        if let Some(p) = a->FlipFlop_reset {
            let q = b->FlipFlop_reset->0;
            assert(mine[3] == p.signal && yours[3] == q.signal);
            assert(bit_value(now, yours[3]) == bit_value(now, mine[3]));
        }
    } else if let Some(p) = a->FlipFlop_reset {
        let q = b->FlipFlop_reset->0;
        assert(mine[2] == p.signal && yours[2] == q.signal);
        assert(bit_value(now, yours[2]) == bit_value(now, mine[2]));
    }
}

proof fn lemma_reflected_ports(
    left: spec_fn(u32) -> bool,
    right: spec_fn(u32) -> bool,
    before: NetlistModel,
    growth: Growth,
)
    requires
        all_below(before, growth.next as int),
        forall|wire: u32| wire < growth.next ==> #[trigger] (growth.mirror)(wire) == wire,
        is_reflected(left, right, growth.mirror),
    ensures
        same_ports(left, before.ports, right, before.ports),
{
    let ports = before.ports;
    assert forall|p: int, k: int|
        0 <= p < ports.len() && 0 <= k < ports[p].bits.len() implies bit_value(
        left,
        #[trigger] ports[p].bits[k],
    ) == bit_value(right, ports[p].bits[k]) by {
        if let Bit::Wire(wire) = ports[p].bits[k] {
            assert(port_has(ports, wire));
            assert((growth.mirror)(wire) == wire);
            assert(right(wire) == left((growth.mirror)(wire)));
        }
    }
}

/// Runs that reflect each other show the same.
proof fn lemma_reflected_shows(
    before: NetlistModel,
    after: NetlistModel,
    growth: Growth,
    left: spec_fn(nat) -> spec_fn(u32) -> bool,
    right: spec_fn(nat) -> spec_fn(u32) -> bool,
)
    requires
        is_grown(before, after, growth),
        forall|t: nat| is_reflected(#[trigger] left(t), right(t), growth.mirror),
    ensures
        shows_same(left, before, right, after),
{
    assert forall|t: nat|
        same_ports(#[trigger] left(t), before.ports, right(t), after.ports) && same_boxes(
            left(t),
            before.cells,
            right(t),
            after.cells,
        ) by {
        assert(is_reflected(left(t), right(t), growth.mirror));
        lemma_reflected_ports(left(t), right(t), before, growth);
        assert forall|i: int|
            0 <= i < before.cells.len() && is_box(
                #[trigger] before.cells[i],
            ) implies exists|j: int|
            0 <= j < after.cells.len() && same_box(
                left(t),
                before.cells[i],
                right(t),
                #[trigger] after.cells[j],
            ) by {
            lemma_rewired_holds(
                left(t),
                right(t),
                left(t),
                right(t),
                before,
                after,
                growth,
                i,
            );
            assert(same_box(left(t), before.cells[i], right(t), after.cells[i]));
        }
    }
}

/// Growing a copy and reading from it keeps what is shown.
pub proof fn lemma_growth_keeps_shown(before: NetlistModel, after: NetlistModel, growth: Growth)
    requires
        is_grown(before, after, growth),
    ensures
        keeps_shown(before, after),
{
    lemma_growth_shows_no_more(before, after, growth);
    lemma_growth_shows_no_less(before, after, growth);
}

#[verifier::rlimit(40)]
proof fn lemma_growth_shows_no_more(before: NetlistModel, after: NetlistModel, growth: Growth)
    requires
        is_grown(before, after, growth),
    ensures
        shows_no_more(before, after),
{
    reveal(shows_no_more);
    let count = before.cells.len() as int;
    assert forall|run: spec_fn(nat) -> spec_fn(u32) -> bool| #[trigger]
        is_run(run, after.cells) implies exists|left: spec_fn(nat) -> spec_fn(u32) -> bool|
        is_run(left, before.cells) && #[trigger] shows_same(left, before, run, after) by {
        assert forall|t: nat| is_reflected(#[trigger] run(t), run(t), growth.mirror) by {
            lemma_run_reflects(before, after, growth, run, t);
        }
        assert forall|i: int, t: nat|
            #![trigger before.cells[i], run(t)]
            0 <= i < count implies (t == 0 ==> cell_starts(run(t), before.cells[i]))
            && cell_agrees(run(t), before.cells[i]) && cell_steps(
            run(t),
            run(t + 1),
            before.cells[i],
        ) by {
            assert(is_reflected(run(t), run(t), growth.mirror));
            assert(is_reflected(run(t + 1), run(t + 1), growth.mirror));
            lemma_rewired_holds(
                run(t),
                run(t),
                run(t + 1),
                run(t + 1),
                before,
                after,
                growth,
                i,
            );
            assert(cells_agree(run(t), after.cells));
            assert(cells_step(run(t), run(t + 1), after.cells));
            assert(cell_agrees(run(t), after.cells[i]));
            assert(cell_steps(run(t), run(t + 1), after.cells[i]));
            assert(cell_starts(run(0), after.cells[i]));
        }
        lemma_is_run(run, before.cells);
        lemma_reflected_shows(before, after, growth, run, run);
    }
}

#[verifier::rlimit(40)]
proof fn lemma_growth_shows_no_less(before: NetlistModel, after: NetlistModel, growth: Growth)
    requires
        is_grown(before, after, growth),
    ensures
        shows_no_less(before, after),
{
    reveal(shows_no_less);
    let count = before.cells.len() as int;
    assert forall|left: spec_fn(nat) -> spec_fn(u32) -> bool| #[trigger]
        is_run(left, before.cells) implies exists|right: spec_fn(nat) -> spec_fn(u32) -> bool|
        is_run(right, after.cells) && #[trigger] shows_same(left, before, right, after) by {
        let right = |t: nat| reflected(left(t), growth.mirror);
        assert forall|t: nat| is_reflected(#[trigger] left(t), right(t), growth.mirror) by {}
        assert forall|i: int, t: nat|
            #![trigger after.cells[i], right(t)]
            0 <= i < after.cells.len() implies (t == 0 ==> cell_starts(right(t), after.cells[i]))
            && cell_agrees(right(t), after.cells[i]) && cell_steps(
            right(t),
            right(t + 1),
            after.cells[i],
        ) by {
            let from = if i < count {
                i
            } else if growth.source >= 0 {
                growth.source
            } else {
                0
            };
            assert(is_reflected(left(t), right(t), growth.mirror));
            assert(is_reflected(left(t + 1), right(t + 1), growth.mirror));
            assert(cells_agree(left(t), before.cells));
            assert(cells_step(left(t), left(t + 1), before.cells));
            if from < count {
                assert(cell_agrees(left(t), before.cells[from]));
                assert(cell_steps(left(t), left(t + 1), before.cells[from]));
                assert(cell_starts(left(0), before.cells[from]));
            }
            if i < count {
                lemma_rewired_holds(
                    left(t),
                    right(t),
                    left(t + 1),
                    right(t + 1),
                    before,
                    after,
                    growth,
                    i,
                );
            } else {
                lemma_copy_holds(
                    left(t),
                    right(t),
                    left(t + 1),
                    right(t + 1),
                    before,
                    after,
                    growth,
                );
            }
        }
        lemma_is_run(right, after.cells);
        lemma_reflected_shows(before, after, growth, left, right);
    }
}

/// A run is one cell by cell.
pub proof fn lemma_is_run(run: spec_fn(nat) -> spec_fn(u32) -> bool, cells: Seq<CellModel>)
    requires
        forall|i: int, t: nat|
            #![trigger cells[i], run(t)]
            0 <= i < cells.len() ==> (t == 0 ==> cell_starts(run(t), cells[i])) && cell_agrees(
                run(t),
                cells[i],
            ) && cell_steps(run(t), run(t + 1), cells[i]),
    ensures
        is_run(run, cells),
{
    assert forall|i: int| 0 <= i < cells.len() implies cell_starts(
        run(0),
        #[trigger] cells[i],
    ) by {}
    assert forall|t: nat| cells_agree(#[trigger] run(t), cells) by {}
    assert forall|t: nat| cells_step(#[trigger] run(t), run(t + 1), cells) by {}
}

/// Whether cells were exchanged one for one: each drives what it drove and, in
/// every run of either list, holds exactly where the old one does.
pub open spec fn is_exchanged(before: NetlistModel, after: NetlistModel) -> bool {
    &&& after.ports == before.ports
    &&& after.cells.len() == before.cells.len()
    &&& forall|i: int|
        0 <= i < before.cells.len() ==> cell_outputs(#[trigger] after.cells[i]) == cell_outputs(
            before.cells[i],
        ) && is_box(after.cells[i]) == is_box(before.cells[i])
    &&& forall|i: int|
        0 <= i < before.cells.len() && is_box(#[trigger] before.cells[i]) ==> after.cells[i]
            == before.cells[i]
    &&& forall|run: spec_fn(nat) -> spec_fn(u32) -> bool|
        is_run(run, before.cells) == #[trigger] is_run(run, after.cells)
}

/// Exchanging cells keeps what is shown.
pub proof fn lemma_exchange_keeps_shown(before: NetlistModel, after: NetlistModel)
    requires
        is_exchanged(before, after),
    ensures
        keeps_shown(before, after),
{
    assert forall|run: spec_fn(nat) -> spec_fn(u32) -> bool| #[trigger]
        is_run(run, after.cells) implies shows_same(run, before, run, after) by {
        assert forall|t: nat|
            same_ports(#[trigger] run(t), before.ports, run(t), after.ports) && same_boxes(
                run(t),
                before.cells,
                run(t),
                after.cells,
            ) by {
            assert forall|i: int|
                0 <= i < before.cells.len() && is_box(
                    #[trigger] before.cells[i],
                ) implies exists|j: int|
                0 <= j < after.cells.len() && same_box(
                    run(t),
                    before.cells[i],
                    run(t),
                    #[trigger] after.cells[j],
                ) by {
                assert(same_box(run(t), before.cells[i], run(t), after.cells[i]));
            }
        }
    }
    assert(shows_no_more(before, after)) by {
        reveal(shows_no_more);
    }
    assert(shows_no_less(before, after)) by {
        reveal(shows_no_less);
        assert forall|run: spec_fn(nat) -> spec_fn(u32) -> bool| #[trigger]
            is_run(run, before.cells) implies is_run(run, after.cells) by {}
    }
}

/// Exchanging cells leaves the netlist wired up where what they read is sourced.
pub proof fn lemma_exchange_keeps_wiring(before: NetlistModel, after: NetlistModel)
    requires
        is_well_driven(before),
        is_exchanged(before, after),
        forall|i: int, wire: u32|
            0 <= i < after.cells.len() && #[trigger] reads(after.cells[i], wire) ==> is_sourced(
                before,
                wire,
            ),
    ensures
        is_well_driven(after),
        forall|next: int| #[trigger] all_below(before, next) ==> all_below(after, next),
{
    assert forall|i: int| 0 <= i < after.cells.len() implies drives_apart(
        #[trigger] after.cells[i],
    ) && is_driver(after, after.cells[i]) by {
        assert(cell_outputs(after.cells[i]) == cell_outputs(before.cells[i]));
        assert(drives_apart(before.cells[i]));
        assert(is_driver(before, before.cells[i]));
        assert forall|wire: u32| #[trigger] drives(after.cells[i], wire) implies wire > 0
            && !crate::netlist::port_inputs(after).contains(Bit::Wire(wire)) by {
            assert(drives(before.cells[i], wire));
        }
        if is_box(after.cells[i]) {
            assert(is_box(before.cells[i]));
        }
    }
    assert forall|i: int, wire: u32| 0 <= i < after.cells.len() implies #[trigger] drives(
        after.cells[i],
        wire,
    ) == drives(before.cells[i], wire) by {
        assert(cell_outputs(after.cells[i]) == cell_outputs(before.cells[i]));
    }
    assert forall|wire: u32| is_sourced(before, wire) implies #[trigger] is_sourced(
        after,
        wire,
    ) by {
        if !port_has(before.ports, wire) {
            let j = choose|j: int|
                0 <= j < before.cells.len() && #[trigger] drives(before.cells[j], wire);
            assert(drives(after.cells[j], wire));
        }
    }
    assert forall|next: int| #[trigger] all_below(before, next) implies all_below(after, next) by {
        assert forall|i: int, wire: u32|
            0 <= i < after.cells.len() && #[trigger] touches(
                after.cells[i],
                wire,
            ) implies wire < next by {
            if reads(after.cells[i], wire) {
                assert(is_sourced(before, wire));
                if !port_has(before.ports, wire) {
                    let j = choose|j: int|
                        0 <= j < before.cells.len() && #[trigger] drives(before.cells[j], wire);
                    assert(touches(before.cells[j], wire));
                }
            } else {
                assert(drives(before.cells[i], wire));
                assert(touches(before.cells[i], wire));
            }
        }
    }
}

} // verus!
