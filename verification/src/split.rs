//! What splitting carry branches keeps: every value.

use vstd::prelude::*;

use crate::carry::carry_sinks;
use crate::carry::consumers;
use crate::carry::lemma_once;
use crate::carry::lemma_split_cell;
use crate::carry::once_replicas;
use crate::carry::split_all;
use crate::carry::split_cell;
use crate::carry::split_consumer;
use crate::carry::split_consumers;
use crate::carry::split_from;
use crate::carry::split_once;
use crate::carry::wires_left;
use crate::carry::SplitModel;
use crate::cells::renumbered;
use crate::cells::renumbered_cell;
use crate::cells::renumbered_pins;
use crate::cells::Bit;
use crate::cells::CellModel;
use crate::meaning::bit_value;
use crate::meaning::carry_outputs;
use crate::meaning::cell_agrees;
use crate::meaning::cells_agree;
use crate::meaning::slice_of;
use crate::netlist::next_free_wire;
use crate::netlist::NetlistModel;

verus! {

proof fn lemma_renumbered_value(values: spec_fn(u32) -> bool, from: u32, to: u32)
    requires
        values(from) == values(to),
    ensures
        forall|bit: Bit| #[trigger]
            bit_value(values, renumbered(bit, from, to)) == bit_value(values, bit),
{
}

proof fn lemma_renumbered_pins(
    values: spec_fn(u32) -> bool,
    pins: [Bit; 4],
    from: u32,
    to: u32,
    pin: int,
)
    requires
        values(from) == values(to),
        0 <= pin < 4,
    ensures
        bit_value(values, renumbered_pins(pins, from, to)[pin]) == bit_value(values, pins[pin]),
{
}

proof fn lemma_renumbered_slice(
    values: spec_fn(u32) -> bool,
    pins: [Bit; 4],
    from: u32,
    to: u32,
    init: u16,
    carry: bool,
    carry_output: bool,
)
    requires
        values(from) == values(to),
    ensures
        slice_of(
            |bit: Bit| bit_value(values, bit),
            init,
            renumbered_pins(pins, from, to),
            carry,
            carry_output,
        ) == slice_of(|bit: Bit| bit_value(values, bit), init, pins, carry, carry_output),
{
    lemma_renumbered_pins(values, pins, from, to, 0);
    lemma_renumbered_pins(values, pins, from, to, 1);
    lemma_renumbered_pins(values, pins, from, to, 2);
    lemma_renumbered_pins(values, pins, from, to, 3);
}

/// A carry primitive agrees whichever of two wires with equal values it reads.
proof fn lemma_renumbered_agrees(
    values: spec_fn(u32) -> bool,
    cell: CellModel,
    from: u32,
    to: u32,
)
    requires
        cell is Ccu2c,
        values(from) == values(to),
    ensures
        cell_agrees(values, renumbered_cell(cell, from, to)) == cell_agrees(values, cell),
{
    let inputs = cell->Ccu2c_inputs;
    let init = cell->Ccu2c_init;
    let inject = cell->Ccu2c_inject;
    let carry_in = cell->Ccu2c_carry_in;
    let read = |bit: Bit| bit_value(values, bit);
    let after = renumbered_cell(cell, from, to);
    lemma_renumbered_value(values, from, to);
    let first = !inject[0] && read(carry_in);
    let second = !inject[1] && slice_of(read, init[0], inputs[0], first, true);
    lemma_renumbered_slice(values, inputs[0], from, to, init[0], first, true);
    lemma_renumbered_slice(values, inputs[0], from, to, init[0], first, false);
    lemma_renumbered_slice(values, inputs[1], from, to, init[1], second, true);
    lemma_renumbered_slice(values, inputs[1], from, to, init[1], second, false);
    assert(after->Ccu2c_inputs[0] == renumbered_pins(inputs[0], from, to));
    assert(after->Ccu2c_inputs[1] == renumbered_pins(inputs[1], from, to));
    assert(read(renumbered(carry_in, from, to)) == read(carry_in));
    assert(carry_outputs(
        read,
        after->Ccu2c_inputs,
        after->Ccu2c_carry_in,
        after->Ccu2c_init,
        after->Ccu2c_inject,
    ) == carry_outputs(read, inputs, carry_in, init, inject));
}

proof fn lemma_consumer_agrees(
    values: spec_fn(u32) -> bool,
    split: SplitModel,
    index: int,
    consumer: int,
)
    requires
        0 <= index < split.cells.len(),
        0 <= consumer < split.cells.len(),
        index != consumer,
        split.cells[index] is Ccu2c,
        split.cells[consumer] is Ccu2c,
        cells_agree(values, split_consumer(split, index, consumer).cells),
    ensures
        cells_agree(values, split.cells),
{
    let after = split_consumer(split, index, consumer).cells;
    let wire = split.cells[index]->Ccu2c_carry_out;
    assert(cell_agrees(values, after[index]));
    assert(cell_agrees(values, after[split.cells.len() as int]));
    assert(values(split.next) == values(wire));
    assert(cell_agrees(values, after[consumer]));
    lemma_renumbered_agrees(values, split.cells[consumer], wire, split.next);
    assert forall|i: int| 0 <= i < split.cells.len() implies cell_agrees(
        values,
        #[trigger] split.cells[i],
    ) by {
        if i != consumer {
            assert(after[i] == split.cells[i]);
        }
    }
}

/// Whether the sinks are carry primitives other than that at `index`.
spec fn are_sinks(split: SplitModel, index: int, sinks: Seq<int>) -> bool {
    &&& 0 <= index < split.cells.len()
    &&& split.cells[index] is Ccu2c
    &&& forall|k: int|
        0 <= k < sinks.len() ==> 0 <= (#[trigger] sinks[k]) < split.cells.len() && sinks[k] != index
            && split.cells[sinks[k]] is Ccu2c
}

proof fn lemma_consumers_agree(
    values: spec_fn(u32) -> bool,
    split: SplitModel,
    index: int,
    sinks: Seq<int>,
    from: int,
)
    requires
        are_sinks(split, index, sinks),
        0 <= from,
        cells_agree(values, split_consumers(split, index, sinks, from).cells),
    ensures
        cells_agree(values, split.cells),
    decreases sinks.len() - from,
{
    if from < sinks.len() && split.next + 3 <= u32::MAX {
        let next = split_consumer(split, index, sinks[from]);
        assert(are_sinks(next, index, sinks)) by {
            assert forall|k: int| 0 <= k < sinks.len() implies 0 <= (#[trigger] sinks[k])
                < next.cells.len() && sinks[k] != index && next.cells[sinks[k]] is Ccu2c by {
                assert(split.cells[sinks[k]] is Ccu2c);
            }
        }
        lemma_consumers_agree(values, next, index, sinks, from + 1);
        lemma_consumer_agrees(values, split, index, sinks[from]);
    }
}

proof fn lemma_are_sinks(split: SplitModel, index: int, wire: u32, count: int)
    requires
        0 <= index < split.cells.len(),
        split.cells[index] is Ccu2c,
        count <= split.cells.len(),
    ensures
        are_sinks(split, index, consumers(split.cells, index, wire, count)),
    decreases count,
{
    if count > 0 {
        lemma_are_sinks(split, index, wire, count - 1);
    }
}

proof fn lemma_from_agrees(values: spec_fn(u32) -> bool, split: SplitModel, index: int)
    requires
        0 <= index,
        cells_agree(values, split_from(split, index).cells),
    ensures
        cells_agree(values, split.cells),
    decreases u32::MAX - split.next, split.cells.len() - index,
{
    if index < split.cells.len() {
        let next = split_cell(split, index);
        lemma_split_cell(split, index);
        lemma_from_agrees(values, next, index + 1);
        if split.cells[index] is Ccu2c {
            let wire = split.cells[index]->Ccu2c_carry_out;
            lemma_are_sinks(split, index, wire, split.cells.len() as int);
            lemma_consumers_agree(
                values,
                split,
                index,
                carry_sinks(split.cells, index),
                1,
            );
        }
    }
}

/// Splitting carry branches keeps every value: a valuation with which the cells
/// agree afterwards is one with which they agreed before.
pub proof fn law_split_keeps_values(values: spec_fn(u32) -> bool, netlist: NetlistModel)
    ensures
        cells_agree(values, split_all(netlist).0.cells) ==> cells_agree(values, netlist.cells),
    decreases wires_left(netlist),
{
    if once_replicas(netlist) != 0 {
        lemma_once(netlist);
        let once = split_once(netlist);
        law_split_keeps_values(values, once);
        if cells_agree(values, once.cells) {
            if let Some(next) = next_free_wire(netlist) {
                lemma_from_agrees(
                    values,
                    SplitModel { cells: netlist.cells, next, replicas: 0 },
                    0,
                );
            }
        }
    }
}

} // verus!
