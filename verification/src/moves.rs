//! What moves and replicas keep: the state that the rest of the design sees.
//!
//! One clock step leads from the values before an edge to those after it. The
//! laws here say that a moved register is, after every step, where the register
//! in its old place would have been.

use vstd::prelude::*;

use crate::cells::ActiveLevel;
use crate::cells::Bit;
use crate::cells::CellModel;
use crate::cells::Control;
use crate::cells::Reset;
use crate::certify::EdgeModel;
use crate::critical::driven_wire;
use crate::critical::renamed;
use crate::fanout::driving_lut;
use crate::fanout::enable_branch;
use crate::meaning::bit_value;
use crate::meaning::cell_agrees;
use crate::meaning::cells_agree;
use crate::netlist::first_named;
use crate::netlist::first_named_from;
use crate::netlist::NetlistModel;
use crate::registered::has_registered_inputs;
use crate::registered::is_registered_input;
use crate::registered::register_indices;
use crate::registered::source_register;
use crate::registered::unregistered;
use crate::registered::unregistered_pins;
use crate::registered::without;
use crate::retime_lut::backward_lut_cells;
use crate::retime_lut::backward_lut_register;
use crate::retime_lut::backward_lut_sources;
use crate::retime_lut::can_move_forward;
use crate::retime_lut::covers;
use crate::retime_lut::forward_lut_cells;
use crate::retime_lut::index_after_removal;
use crate::retime_lut::lut_from;
use crate::retime_lut::shifted_pin;
use crate::retime_lut::shifted_pins;
use crate::retime_lut::ResetRegister;
use crate::wires::lemma_sorted_wires;
use crate::wires::lemma_wire_index;
use crate::wires::pin_index;
use crate::wires::sorted_wires;
use crate::wires::table_bit;
use crate::wires::wire_index;

verus! {

/// Whether a signal is asserted.
pub open spec fn asserted(
    values: spec_fn(u32) -> bool,
    signal: Bit,
    active: ActiveLevel,
) -> bool {
    bit_value(values, signal) == (active is High)
}

/// The state that a register takes at a clock edge: its reset value while reset
/// is asserted, its old state while it is not enabled, else its data.
#[verifier::opaque]
pub open spec fn state_after(
    values: spec_fn(u32) -> bool,
    enable: Option<Control>,
    reset: Option<Reset>,
    state: bool,
    data: bool,
) -> bool {
    if reset matches Some(reset) && asserted(values, reset.signal, reset.active) {
        reset->0.value
    } else if enable matches Some(enable) && !asserted(values, enable.signal, enable.active) {
        state
    } else {
        data
    }
}

/// Whether every flip-flop takes its next state between two valuations.
pub open spec fn cells_step(
    before: spec_fn(u32) -> bool,
    after: spec_fn(u32) -> bool,
    cells: Seq<CellModel>,
) -> bool {
    forall|i: int| 0 <= i < cells.len() ==> cell_steps(before, after, #[trigger] cells[i])
}

/// Whether a flip-flop takes its next state between two valuations.
pub open spec fn cell_steps(
    before: spec_fn(u32) -> bool,
    after: spec_fn(u32) -> bool,
    cell: CellModel,
) -> bool {
    cell matches CellModel::FlipFlop { data, output, enable, reset, .. } ==> after(output)
        == state_after(before, enable, reset, before(output), bit_value(before, data))
}

/// What a lookup table drives where its pins carry `pins`.
pub open spec fn table_value(init: u16, inputs: [Bit; 4], pins: spec_fn(Bit) -> bool) -> bool {
    table_bit(init, pin_index(pins(inputs[0]), pins(inputs[1]), pins(inputs[2]), pins(inputs[3])))
}

/// The reset that a certificate gives to the register in front of a pin.
pub open spec fn certified_reset(edges: Seq<EdgeModel>, wires: Seq<u32>, bit: Bit) -> bool {
    match bit {
        Bit::Zero => false,
        Bit::One => true,
        Bit::Wire(wire) => edges[wire_index(wires, wire)].reset_values[0],
    }
}

/// A found lookup table drives the wire.
pub proof fn lemma_lut_found(cells: Seq<CellModel>, wire: u32, from: int)
    requires
        0 <= from,
    ensures
        lut_from(cells, wire, from) matches Some(at) ==> from <= at < cells.len()
            && cells[at] is Lut4 && cells[at]->Lut4_output == wire,
    decreases cells.len() - from,
{
    if from < cells.len() && !(cells[from] is Lut4 && cells[from]->Lut4_output == wire) {
        lemma_lut_found(cells, wire, from + 1);
    }
}

/// A wire at a pin stands among the sorted wires.
pub proof fn lemma_pin_wire(inputs: [Bit; 4], pin: int)
    requires
        0 <= pin < 4,
    ensures
        inputs[pin] matches Bit::Wire(wire) ==> {
            let wires = sorted_wires(inputs@);
            0 <= wire_index(wires, wire) < wires.len() && wires[wire_index(wires, wire)] == wire
        },
{
    if let Bit::Wire(wire) = inputs[pin] {
        let wires = sorted_wires(inputs@);
        lemma_sorted_wires(inputs@);
        assert(inputs@.contains(inputs@[pin]));
        assert(wires.contains(wire));
        lemma_wire_index(wires, wire, 0);
    }
}

/// Four values for the pins of a lookup table.
struct Pins {
    a: bool,
    b: bool,
    c: bool,
    d: bool,
}

spec fn pins_table(init: u16, pins: Pins) -> bool {
    table_bit(init, pin_index(pins.a, pins.b, pins.c, pins.d))
}

/// Registers of one domain step together, so a table over their states steps as
/// one register that holds what the table drives.
proof fn lemma_table_steps(
    values: spec_fn(u32) -> bool,
    enable: Option<Control>,
    reset: Reset,
    init: u16,
    resets: Pins,
    states: Pins,
    data: Pins,
    next: Pins,
)
    requires
        next.a == state_after(
            values,
            enable,
            Some(Reset { value: resets.a, ..reset }),
            states.a,
            data.a,
        ),
        next.b == state_after(
            values,
            enable,
            Some(Reset { value: resets.b, ..reset }),
            states.b,
            data.b,
        ),
        next.c == state_after(
            values,
            enable,
            Some(Reset { value: resets.c, ..reset }),
            states.c,
            data.c,
        ),
        next.d == state_after(
            values,
            enable,
            Some(Reset { value: resets.d, ..reset }),
            states.d,
            data.d,
        ),
    ensures
        pins_table(init, next) == state_after(
            values,
            enable,
            Some(Reset { value: pins_table(init, resets), ..reset }),
            pins_table(init, states),
            pins_table(init, data),
        ),
{
    reveal(state_after);
}

/// Whether the new registers of a backward move take their next states.
pub open spec fn copies_step(
    before: spec_fn(u32) -> bool,
    after: spec_fn(u32) -> bool,
    register: ResetRegister,
    wires: Seq<u32>,
    first: u32,
    edges: Seq<EdgeModel>,
) -> bool {
    forall|i: int|
        0 <= i < wires.len() ==> after((first + i) as u32) == state_after(
            before,
            register.enable,
            Some(Reset { value: edges[i].reset_values[0], ..register.reset }),
            before((first + i) as u32),
            before(#[trigger] wires[i]),
        )
}

proof fn lemma_copied_pin(
    before: spec_fn(u32) -> bool,
    after: spec_fn(u32) -> bool,
    register: ResetRegister,
    inputs: [Bit; 4],
    first: u32,
    edges: Seq<EdgeModel>,
    pin: int,
)
    requires
        0 <= pin < 4,
        copies_step(before, after, register, sorted_wires(inputs@), first, edges),
    ensures
        ({
            let wires = sorted_wires(inputs@);
            let copy = shifted_pin(inputs[pin], wires, first);
            bit_value(after, copy) == state_after(
                before,
                register.enable,
                Some(
                    Reset {
                        value: certified_reset(edges, wires, inputs[pin]),
                        ..register.reset
                    },
                ),
                bit_value(before, copy),
                bit_value(before, inputs[pin]),
            )
        }),
{
    reveal(state_after);
    lemma_pin_wire(inputs, pin);
    if let Bit::Wire(wire) = inputs[pin] {
        let wires = sorted_wires(inputs@);
        assert(wires[wire_index(wires, wire)] == wire);
    }
}

proof fn lemma_copies_step(
    before: spec_fn(u32) -> bool,
    after: spec_fn(u32) -> bool,
    netlist: NetlistModel,
    index: int,
    register: ResetRegister,
    lut: int,
    first: u32,
    edges: Seq<EdgeModel>,
)
    requires
        0 <= index < netlist.cells.len() <= usize::MAX,
        0 <= lut < netlist.cells.len(),
        lut != index,
        ({
            let cells = backward_lut_cells(netlist, index, register, lut, first, edges);
            cells_agree(before, cells) && cells_agree(after, cells) && cells_step(
                before,
                after,
                cells,
            )
        }),
    ensures
        copies_step(
            before,
            after,
            register,
            sorted_wires(netlist.cells[lut]->Lut4_inputs@),
            first,
            edges,
        ),
        cell_agrees(
            before,
            retimed_table(netlist, register, lut, first),
        ),
        cell_agrees(
            after,
            retimed_table(netlist, register, lut, first),
        ),
{
    let wires = sorted_wires(netlist.cells[lut]->Lut4_inputs@);
    let name = netlist.cells[index].cell_name();
    let cells = backward_lut_cells(netlist, index, register, lut, first, edges);
    let kept = netlist.cells.remove(index);
    let replaced = crate::netlist::wire_fanout(netlist, netlist.cells[lut]->Lut4_output) == 1;
    let at = if replaced {
        index_after_removal(lut, index)
    } else {
        kept.len() + wires.len() as int
    };
    assert(cell_agrees(before, cells[at]));
    assert(cell_agrees(after, cells[at]));
    assert forall|i: int| 0 <= i < wires.len() implies after((first + i) as u32) == state_after(
        before,
        register.enable,
        Some(Reset { value: edges[i].reset_values[0], ..register.reset }),
        before((first + i) as u32),
        before(#[trigger] wires[i]),
    ) by {
        let cell = backward_lut_register(
            name,
            register,
            wires[i],
            (first + i) as u32,
            edges[i].reset_values[0],
        );
        assert(cells[kept.len() + i] == cell);
        assert(cell_steps(before, after, cells[kept.len() + i]));
    }
}

/// The lookup table of a backward move, whatever its name.
spec fn retimed_table(
    netlist: NetlistModel,
    register: ResetRegister,
    lut: int,
    first: u32,
) -> CellModel {
    CellModel::Lut4 {
        name: seq![],
        inputs: shifted_pins(
            netlist.cells[lut]->Lut4_inputs,
            sorted_wires(netlist.cells[lut]->Lut4_inputs@),
            first,
        ),
        output: register.output,
        init: netlist.cells[lut]->Lut4_init,
    }
}

/// The values of four pins.
spec fn pins_of(inputs: [Bit; 4], pins: spec_fn(Bit) -> bool) -> Pins {
    Pins { a: pins(inputs[0]), b: pins(inputs[1]), c: pins(inputs[2]), d: pins(inputs[3]) }
}

/// The moved table steps as the register would.
pub proof fn lemma_copied_table(
    before: spec_fn(u32) -> bool,
    after: spec_fn(u32) -> bool,
    register: ResetRegister,
    inputs: [Bit; 4],
    init: u16,
    first: u32,
    edges: Seq<EdgeModel>,
)
    requires
        copies_step(before, after, register, sorted_wires(inputs@), first, edges),
    ensures
        ({
            let wires = sorted_wires(inputs@);
            let copies = shifted_pins(inputs, wires, first);
            table_value(init, copies, |bit: Bit| bit_value(after, bit)) == state_after(
                before,
                register.enable,
                Some(
                    Reset {
                        value: table_value(
                            init,
                            inputs,
                            |bit: Bit| certified_reset(edges, wires, bit),
                        ),
                        ..register.reset
                    },
                ),
                table_value(init, copies, |bit: Bit| bit_value(before, bit)),
                table_value(init, inputs, |bit: Bit| bit_value(before, bit)),
            )
        }),
{
    let wires = sorted_wires(inputs@);
    let copies = shifted_pins(inputs, wires, first);
    lemma_copied_pin(before, after, register, inputs, first, edges, 0);
    lemma_copied_pin(before, after, register, inputs, first, edges, 1);
    lemma_copied_pin(before, after, register, inputs, first, edges, 2);
    lemma_copied_pin(before, after, register, inputs, first, edges, 3);
    let resets = pins_of(inputs, |bit: Bit| certified_reset(edges, wires, bit));
    let states = pins_of(copies, |bit: Bit| bit_value(before, bit));
    let data = pins_of(inputs, |bit: Bit| bit_value(before, bit));
    let next = pins_of(copies, |bit: Bit| bit_value(after, bit));
    lemma_table_steps(
        before,
        register.enable,
        register.reset,
        init,
        resets,
        states,
        data,
        next,
    );
}

/// A register moved back across a lookup table keeps its state. Where the
/// certificate's resets give the old reset through the table, the table behind
/// the new registers drives after every step what the register would have held.
pub proof fn law_backward_move_keeps_state(
    before: spec_fn(u32) -> bool,
    after: spec_fn(u32) -> bool,
    netlist: NetlistModel,
    index: int,
    register: ResetRegister,
    lut: int,
    first: u32,
    edges: Seq<EdgeModel>,
)
    requires
        backward_lut_sources(netlist, index) == Some((register, lut)),
        covers(edges, sorted_wires(netlist.cells[lut]->Lut4_inputs@).len()),
        first + sorted_wires(netlist.cells[lut]->Lut4_inputs@).len() <= u32::MAX,
        netlist.cells.len() <= usize::MAX,
        lut != index,
        table_value(
            netlist.cells[lut]->Lut4_init,
            netlist.cells[lut]->Lut4_inputs,
            |bit: Bit|
                certified_reset(edges, sorted_wires(netlist.cells[lut]->Lut4_inputs@), bit),
        ) == register.reset.value,
        ({
            let cells = backward_lut_cells(netlist, index, register, lut, first, edges);
            cells_agree(before, cells) && cells_agree(after, cells) && cells_step(
                before,
                after,
                cells,
            )
        }),
    ensures
        after(register.output) == state_after(
            before,
            register.enable,
            Some(register.reset),
            before(register.output),
            table_value(
                netlist.cells[lut]->Lut4_init,
                netlist.cells[lut]->Lut4_inputs,
                |bit: Bit| bit_value(before, bit),
            ),
        ),
{
    let inputs = netlist.cells[lut]->Lut4_inputs;
    let init = netlist.cells[lut]->Lut4_init;
    lemma_lut_found(netlist.cells, register.data->0, 0);
    lemma_copies_step(before, after, netlist, index, register, lut, first, edges);
    lemma_copied_table(before, after, register, inputs, init, first, edges);
    assert((Reset { value: register.reset.value, ..register.reset }) == register.reset);
}

/// The state that the register behind a pin takes at a clock edge.
pub open spec fn pin_after(
    values: spec_fn(u32) -> bool,
    netlist: NetlistModel,
    bit: Bit,
) -> bool {
    match bit {
        Bit::Wire(wire) => {
            let register = source_register(netlist, wire);
            state_after(
                values,
                register.enable,
                Some(register.reset),
                values(wire),
                bit_value(values, register.data),
            )
        },
        _ => bit_value(values, bit),
    }
}

/// The reset value of the register behind a pin.
pub open spec fn pin_reset(netlist: NetlistModel, bit: Bit) -> bool {
    match bit {
        Bit::Zero => false,
        Bit::One => true,
        Bit::Wire(wire) => source_register(netlist, wire).reset.value,
    }
}

/// A named cell stands among the cells.
pub proof fn lemma_named_at(cells: Seq<CellModel>, name: Seq<char>, from: int)
    requires
        0 <= from,
    ensures
        first_named_from(cells, name, from) matches Some(at) ==> from <= at < cells.len(),
    decreases cells.len() - from,
{
    if from < cells.len() && cells[from].cell_name() != name {
        lemma_named_at(cells, name, from + 1);
    }
}

proof fn lemma_moved_pin(
    values: spec_fn(u32) -> bool,
    netlist: NetlistModel,
    inputs: [Bit; 4],
    pin: int,
)
    requires
        0 <= pin < 4,
        has_registered_inputs(netlist, inputs@),
    ensures
        ({
            let wires = sorted_wires(inputs@);
            let lead = source_register(netlist, wires[0]);
            pin_after(values, netlist, inputs[pin]) == state_after(
                values,
                lead.enable,
                Some(Reset { value: pin_reset(netlist, inputs[pin]), ..lead.reset }),
                bit_value(values, inputs[pin]),
                bit_value(values, unregistered(netlist, wires, inputs[pin])),
            )
        }),
{
    reveal(state_after);
    lemma_pin_wire(inputs, pin);
    if let Bit::Wire(wire) = inputs[pin] {
        let wires = sorted_wires(inputs@);
        assert(is_registered_input(netlist, inputs@, wires[0], wires[wire_index(wires, wire)]));
    }
}

/// What the table makes of the registers' next states steps as a register.
pub proof fn lemma_moved_table(
    values: spec_fn(u32) -> bool,
    netlist: NetlistModel,
    inputs: [Bit; 4],
    init: u16,
)
    requires
        has_registered_inputs(netlist, inputs@),
    ensures
        ({
            let wires = sorted_wires(inputs@);
            let lead = source_register(netlist, wires[0]);
            let sources = unregistered_pins(netlist, wires, inputs);
            table_value(init, inputs, |bit: Bit| pin_after(values, netlist, bit)) == state_after(
                values,
                lead.enable,
                Some(
                    Reset {
                        value: table_value(init, inputs, |bit: Bit| pin_reset(netlist, bit)),
                        ..lead.reset
                    },
                ),
                table_value(init, inputs, |bit: Bit| bit_value(values, bit)),
                table_value(init, sources, |bit: Bit| bit_value(values, bit)),
            )
        }),
{
    let wires = sorted_wires(inputs@);
    let lead = source_register(netlist, wires[0]);
    let sources = unregistered_pins(netlist, wires, inputs);
    lemma_moved_pin(values, netlist, inputs, 0);
    lemma_moved_pin(values, netlist, inputs, 1);
    lemma_moved_pin(values, netlist, inputs, 2);
    lemma_moved_pin(values, netlist, inputs, 3);
    let resets = pins_of(inputs, |bit: Bit| pin_reset(netlist, bit));
    let states = pins_of(inputs, |bit: Bit| bit_value(values, bit));
    let data = pins_of(sources, |bit: Bit| bit_value(values, bit));
    let next = pins_of(inputs, |bit: Bit| pin_after(values, netlist, bit));
    lemma_table_steps(values, lead.enable, lead.reset, init, resets, states, data, next);
}

proof fn lemma_forward_cells(
    before: spec_fn(u32) -> bool,
    after: spec_fn(u32) -> bool,
    netlist: NetlistModel,
    index: int,
    output: u32,
    value: bool,
)
    requires
        forward_lut_cells(netlist, index, output, value) matches Some(cells) && cells_agree(
            before,
            cells,
        ) && cells_step(before, after, cells),
    ensures
        ({
            let inputs = netlist.cells[index]->Lut4_inputs;
            let wires = sorted_wires(inputs@);
            let lead = source_register(netlist, wires[0]);
            let driven = netlist.cells[index]->Lut4_output;
            &&& before(output) == table_value(
                netlist.cells[index]->Lut4_init,
                unregistered_pins(netlist, wires, inputs),
                |bit: Bit| bit_value(before, bit),
            )
            &&& after(driven) == state_after(
                before,
                lead.enable,
                Some(Reset { value, ..lead.reset }),
                before(driven),
                before(output),
            )
        }),
{
    let wires = sorted_wires(netlist.cells[index]->Lut4_inputs@);
    let kept = without(netlist.cells, register_indices(netlist, wires));
    let name = netlist.cells[index].cell_name();
    lemma_named_at(kept, name, 0);
    let at = first_named(kept, name)->0;
    let cells = forward_lut_cells(netlist, index, output, value)->0;
    assert(cell_agrees(before, cells[at]));
    assert(cell_steps(before, after, cells[kept.len() as int]));
}

/// Registers moved forward across a lookup table keep its output. Where the new
/// register starts as the table drives, and its certified reset is what the
/// table makes of the old resets, it holds after every step what the table
/// would have driven from the registers in their old places.
pub proof fn law_forward_move_keeps_output(
    before: spec_fn(u32) -> bool,
    after: spec_fn(u32) -> bool,
    netlist: NetlistModel,
    index: int,
    output: u32,
    value: bool,
)
    requires
        can_move_forward(netlist, index),
        value == table_value(
            netlist.cells[index]->Lut4_init,
            netlist.cells[index]->Lut4_inputs,
            |bit: Bit| pin_reset(netlist, bit),
        ),
        before(netlist.cells[index]->Lut4_output) == table_value(
            netlist.cells[index]->Lut4_init,
            netlist.cells[index]->Lut4_inputs,
            |bit: Bit| bit_value(before, bit),
        ),
        forward_lut_cells(netlist, index, output, value) matches Some(cells) && cells_agree(
            before,
            cells,
        ) && cells_step(before, after, cells),
    ensures
        after(netlist.cells[index]->Lut4_output) == table_value(
            netlist.cells[index]->Lut4_init,
            netlist.cells[index]->Lut4_inputs,
            |bit: Bit| pin_after(before, netlist, bit),
        ),
{
    let inputs = netlist.cells[index]->Lut4_inputs;
    let init = netlist.cells[index]->Lut4_init;
    lemma_forward_cells(before, after, netlist, index, output, value);
    lemma_moved_table(before, netlist, inputs, init);
}

/// A replica is identical: a lookup table under another name drives the same
/// value, and a flip-flop under another name that starts in the same state takes
/// the same next state.
pub proof fn law_replicas_are_identical(
    before: spec_fn(u32) -> bool,
    after: spec_fn(u32) -> bool,
    cell: CellModel,
    name: Seq<char>,
    output: u32,
)
    requires
        cell is Lut4 || cell is FlipFlop,
        cell_agrees(before, cell),
        cell_agrees(before, renamed(cell, name, output)),
        cell_steps(before, after, cell),
        cell_steps(before, after, renamed(cell, name, output)),
    ensures
        cell is Lut4 ==> before(output) == before(driven_wire(cell)),
        cell is FlipFlop && before(output) == before(driven_wire(cell)) ==> after(output) == after(
            driven_wire(cell),
        ),
{
}

/// Registers that share their state are interchangeable: with equal data,
/// enable and reset they take equal next states from equal states.
pub proof fn law_equal_registers_stay_equal(
    before: spec_fn(u32) -> bool,
    after: spec_fn(u32) -> bool,
    first: CellModel,
    second: CellModel,
)
    requires
        first is FlipFlop,
        second is FlipFlop,
        cell_steps(before, after, first),
        cell_steps(before, after, second),
        first->FlipFlop_data == second->FlipFlop_data,
        first->FlipFlop_enable == second->FlipFlop_enable,
        first->FlipFlop_reset == second->FlipFlop_reset,
        before(first->FlipFlop_output) == before(second->FlipFlop_output),
    ensures
        after(first->FlipFlop_output) == after(second->FlipFlop_output),
{
}

/// A found lookup table drives the wire.
pub proof fn lemma_driving_lut(cells: Seq<CellModel>, wire: u32, from: int)
    requires
        0 <= from,
    ensures
        driving_lut(cells, wire, from) matches Some(at) ==> from <= at < cells.len()
            && cells[at] is Lut4 && cells[at]->Lut4_output == wire,
    decreases cells.len() - from,
{
    if from < cells.len() && !(cells[from] is Lut4 && cells[from]->Lut4_output == wire) {
        lemma_driving_lut(cells, wire, from + 1);
    }
}

/// A branch of a clock enable carries the enable: it copies the lookup table
/// that drives the wire, or buffers the wire where there is none.
pub proof fn law_branches_carry_the_enable(
    values: spec_fn(u32) -> bool,
    original: Seq<CellModel>,
    cells: Seq<CellModel>,
    wire: u32,
    max_fanout: usize,
    output: u32,
)
    requires
        cells_agree(values, original),
        cell_agrees(values, enable_branch(original, cells, wire, max_fanout, output)),
    ensures
        values(output) == values(wire),
{
    lemma_driving_lut(original, wire, 0);
    assert(0xaaaau16 & (1u16 << 0u16) == 0) by (bit_vector);
    assert(0xaaaau16 & (1u16 << 1u16) != 0) by (bit_vector);
    if let Some(at) = driving_lut(original, wire, 0) {
        assert(cell_agrees(values, original[at]));
    }
}

} // verus!
