//! What moves across carry primitives keep.

use vstd::prelude::*;

use crate::cells::ActiveLevel;
use crate::cells::Bit;
use crate::cells::CellModel;
use crate::cells::Control;
use crate::cells::Reset;
use crate::certify::reset_from;
use crate::certify::EdgeModel;
use crate::meaning::bit_value;
use crate::meaning::carry_outputs;
use crate::meaning::cell_agrees;
use crate::meaning::cells_agree;
use crate::moves::cell_steps;
use crate::moves::cells_step;
use crate::moves::lemma_named_at;
use crate::moves::pin_after;
use crate::moves::pin_reset;
use crate::moves::state_after;
use crate::netlist::first_named;
use crate::netlist::wire_fanout;
use crate::netlist::NetlistModel;
use crate::registered::has_registered_inputs;
use crate::registered::is_registered_input;
use crate::registered::register_indices;
use crate::registered::source_register;
use crate::registered::unregistered;
use crate::registered::unregistered_pins;
use crate::registered::without;
use crate::retime_ccu::backward_ccu_cells;
use crate::retime_ccu::backward_ccu_register;
use crate::retime_ccu::backward_ccu_sources;
use crate::retime_ccu::boundaries_covered;
use crate::retime_ccu::boundary_at;
use crate::retime_ccu::ccu_can_move_forward;
use crate::retime_ccu::ccu_from;
use crate::retime_ccu::ccu_of;
use crate::retime_ccu::cone_graph;
use crate::retime_ccu::empty_graph;
use crate::retime_ccu::feeds_only;
use crate::retime_ccu::forward_ccu_cells;
use crate::retime_ccu::last_vertex;
use crate::retime_ccu::moved_bit;
use crate::retime_ccu::moved_ccu;
use crate::retime_ccu::moved_pins;
use crate::retime_ccu::moving_pins;
use crate::retime_ccu::slice_with_pins;
use crate::retime_ccu::with_first_slice;
use crate::retime_ccu::with_second_slice;
use crate::retime_ccu::CcuBoundary;
use crate::retime_ccu::CcuGraphModel;
use crate::retime_ccu::CcuInputLocation;
use crate::retime_ccu::CcuModel;
use crate::retime_ccu::CcuRetimeOutput;
use crate::retime_lut::index_after_removal;
use crate::retime_lut::ResetRegister;
use crate::wires::carry_slice;
use crate::wires::lemma_sorted_wires;
use crate::wires::sorted_wires;

verus! {

/// What the eight pins of a carry primitive carry.
pub open spec fn carry_reads(pins: spec_fn(Bit) -> bool, inputs: [[Bit; 4]; 2]) -> Seq<bool> {
    seq![
        pins(inputs[0][0]),
        pins(inputs[0][1]),
        pins(inputs[0][2]),
        pins(inputs[0][3]),
        pins(inputs[1][0]),
        pins(inputs[1][1]),
        pins(inputs[1][2]),
        pins(inputs[1][3]),
    ]
}

/// What one output of a carry primitive drives for the given pins and carry.
pub open spec fn carry_drives(
    reads: Seq<bool>,
    carry: bool,
    init: [u16; 2],
    inject: [bool; 2],
    output: CcuRetimeOutput,
) -> bool {
    let first = !inject[0] && carry;
    let second = !inject[1] && carry_slice(
        init[0],
        reads[0],
        reads[1],
        reads[2],
        reads[3],
        first,
        true,
    );
    match output {
        CcuRetimeOutput::Sum0 => carry_slice(
            init[0],
            reads[0],
            reads[1],
            reads[2],
            reads[3],
            first,
            false,
        ),
        CcuRetimeOutput::Sum1 => carry_slice(
            init[1],
            reads[4],
            reads[5],
            reads[6],
            reads[7],
            second,
            false,
        ),
        CcuRetimeOutput::Carry => carry_slice(
            init[1],
            reads[4],
            reads[5],
            reads[6],
            reads[7],
            second,
            true,
        ),
    }
}

/// What the outputs drive, output by output.
pub proof fn lemma_drives(
    pins: spec_fn(Bit) -> bool,
    inputs: [[Bit; 4]; 2],
    carry_in: Bit,
    init: [u16; 2],
    inject: [bool; 2],
)
    ensures
        ({
            let driven = carry_outputs(pins, inputs, carry_in, init, inject);
            let reads = carry_reads(pins, inputs);
            let carry = pins(carry_in);
            &&& driven.sum0 == carry_drives(reads, carry, init, inject, CcuRetimeOutput::Sum0)
            &&& driven.sum1 == carry_drives(reads, carry, init, inject, CcuRetimeOutput::Sum1)
            &&& driven.carry == carry_drives(reads, carry, init, inject, CcuRetimeOutput::Carry)
        }),
{
}

/// Whether pin `pin`, counted over both slices, decides `output`.
pub open spec fn pin_decides(inject: [bool; 2], output: CcuRetimeOutput, pin: int) -> bool {
    if pin < 4 {
        output == CcuRetimeOutput::Sum0 || !inject[1]
    } else {
        output != CcuRetimeOutput::Sum0
    }
}

/// Whether the carry input decides `output`.
pub open spec fn carry_decides(inject: [bool; 2], output: CcuRetimeOutput) -> bool {
    !inject[0] && pin_decides(inject, output, 0)
}

/// Whether `next` is what registers of one domain hold after a step: their resets,
/// their states or their data.
spec fn pins_step(
    values: spec_fn(u32) -> bool,
    enable: Option<Control>,
    reset: Reset,
    next: bool,
    cleared: bool,
    state: bool,
    data: bool,
) -> bool {
    next == state_after(values, enable, Some(Reset { value: cleared, ..reset }), state, data)
}

/// What the deciding pins of a carry primitive carry.
#[verifier::ext_equal]
struct Reads {
    pins: Seq<bool>,
    carry: bool,
}

spec fn driven(reads: Reads, ccu: CcuModel, output: CcuRetimeOutput) -> bool {
    carry_drives(reads.pins, reads.carry, ccu.init, ccu.inject, output)
}

spec fn same_reads(a: Reads, b: Reads, ccu: CcuModel, output: CcuRetimeOutput) -> bool {
    &&& forall|i: int|
        0 <= i < 8 && #[trigger] pin_decides(ccu.inject, output, i) ==> a.pins[i] == b.pins[i]
    &&& carry_decides(ccu.inject, output) ==> a.carry == b.carry
}

proof fn lemma_same_reads(a: Reads, b: Reads, ccu: CcuModel, output: CcuRetimeOutput)
    requires
        same_reads(a, b, ccu, output),
    ensures
        driven(a, ccu, output) == driven(b, ccu, output),
{
    assert forall|i: int| 0 <= i < 8 && pin_decides(ccu.inject, output, i) implies a.pins[i]
        == b.pins[i] by {}
    if pin_decides(ccu.inject, output, 0) {
        assert(pin_decides(ccu.inject, output, 1));
        assert(pin_decides(ccu.inject, output, 2));
        assert(pin_decides(ccu.inject, output, 3));
    }
    if pin_decides(ccu.inject, output, 4) {
        assert(pin_decides(ccu.inject, output, 5));
        assert(pin_decides(ccu.inject, output, 6));
        assert(pin_decides(ccu.inject, output, 7));
    }
}

/// Registers of one domain step together, so an output over their states steps
/// as one register that holds what the output drives.
proof fn lemma_output_steps(
    values: spec_fn(u32) -> bool,
    enable: Option<Control>,
    reset: Reset,
    ccu: CcuModel,
    output: CcuRetimeOutput,
    cleared: Reads,
    states: Reads,
    data: Reads,
    next: Reads,
)
    requires
        forall|i: int|
            0 <= i < 8 && #[trigger] pin_decides(ccu.inject, output, i) ==> pins_step(
                values,
                enable,
                reset,
                next.pins[i],
                cleared.pins[i],
                states.pins[i],
                data.pins[i],
            ),
        carry_decides(ccu.inject, output) ==> pins_step(
            values,
            enable,
            reset,
            next.carry,
            cleared.carry,
            states.carry,
            data.carry,
        ),
    ensures
        driven(next, ccu, output) == state_after(
            values,
            enable,
            Some(Reset { value: driven(cleared, ccu, output), ..reset }),
            driven(states, ccu, output),
            driven(data, ccu, output),
        ),
{
    reveal(state_after);
    if crate::moves::asserted(values, reset.signal, reset.active) {
        assert(same_reads(next, cleared, ccu, output));
        lemma_same_reads(next, cleared, ccu, output);
    } else if enable matches Some(enable) && !crate::moves::asserted(
        values,
        enable.signal,
        enable.active,
    ) {
        assert(same_reads(next, states, ccu, output));
        lemma_same_reads(next, states, ccu, output);
    } else {
        assert(same_reads(next, data, ccu, output));
        lemma_same_reads(next, data, ccu, output);
    }
}

/// The input of a carry primitive at a location.
pub open spec fn bit_at(ccu: CcuModel, location: CcuInputLocation) -> Bit {
    match location {
        CcuInputLocation::Pin { slice, pin } => ccu.inputs[slice as int][pin as int],
        CcuInputLocation::CarryIn => ccu.carry_in,
    }
}

/// Whether a location is one of the eight pins or the carry input.
pub open spec fn is_location(location: CcuInputLocation) -> bool {
    location matches CcuInputLocation::Pin { slice, pin } ==> slice < 2 && pin < 4
}

/// Whether every boundary stands for the wire at its location.
pub open spec fn are_wires(ccu: CcuModel, boundaries: Seq<CcuBoundary>) -> bool {
    forall|i: int|
        0 <= i < boundaries.len() ==> (#[trigger] boundaries[i]).bit is Wire && boundaries[i].bit
            == bit_at(ccu, boundaries[i].location) && is_location(boundaries[i].location)
}

/// Whether a boundary stands for `location`.
pub open spec fn has_boundary(boundaries: Seq<CcuBoundary>, location: CcuInputLocation) -> bool {
    exists|i: int| 0 <= i < boundaries.len() && (#[trigger] boundaries[i]).location == location
}

/// A found boundary stands at its location.
pub proof fn lemma_boundary_at(boundaries: Seq<CcuBoundary>, location: CcuInputLocation)
    ensures
        boundary_at(boundaries, location) matches Some(i) ==> 0 <= i < boundaries.len()
            && boundaries[i].location == location,
        has_boundary(boundaries, location) ==> boundary_at(boundaries, location) is Some,
    decreases boundaries.len(),
{
    if boundaries.len() > 0 && boundaries.last().location != location {
        lemma_boundary_at(boundaries.drop_last(), location);
        if has_boundary(boundaries, location) {
            let i = choose|i: int|
                0 <= i < boundaries.len() && (#[trigger] boundaries[i]).location == location;
            assert(boundaries.drop_last()[i].location == location);
        }
    }
}

proof fn lemma_push_boundary(
    boundaries: Seq<CcuBoundary>,
    boundary: CcuBoundary,
    location: CcuInputLocation,
)
    ensures
        has_boundary(boundaries.push(boundary), location) <==> boundary.location == location
            || has_boundary(boundaries, location),
{
    let out = boundaries.push(boundary);
    if has_boundary(boundaries, location) {
        let i = choose|i: int|
            0 <= i < boundaries.len() && (#[trigger] boundaries[i]).location == location;
        assert(out[i].location == location);
    }
    if boundary.location == location {
        assert(out[boundaries.len() as int].location == location);
    }
    if has_boundary(out, location) {
        let i = choose|i: int| 0 <= i < out.len() && (#[trigger] out[i]).location == location;
        if i < boundaries.len() {
            assert(boundaries[i].location == location);
        }
    }
}

proof fn lemma_slice_boundaries(
    ccu: CcuModel,
    graph: CcuGraphModel,
    slice: usize,
    count: nat,
    location: CcuInputLocation,
)
    requires
        slice < 2,
        count <= 4,
        are_wires(ccu, graph.boundaries),
    ensures
        ({
            let after = slice_with_pins(
                graph,
                ccu.inputs[slice as int],
                slice,
                seq![],
                count,
            ).boundaries;
            &&& are_wires(ccu, after)
            &&& has_boundary(graph.boundaries, location) ==> has_boundary(after, location)
            &&& location matches CcuInputLocation::Pin { slice: at, pin } ==> at == slice && pin
                < count && bit_at(ccu, location) is Wire ==> has_boundary(after, location)
        }),
    decreases count,
{
    if count > 0 {
        let pin = (count - 1) as nat;
        lemma_slice_boundaries(ccu, graph, slice, pin, location);
        let pins = ccu.inputs[slice as int];
        let before = slice_with_pins(graph, pins, slice, seq![], pin);
        if pins[pin as int] is Wire {
            let boundary = CcuBoundary {
                vertex: before.vertices.len() as usize,
                bit: pins[pin as int],
                location: CcuInputLocation::Pin { slice, pin: pin as usize },
            };
            lemma_push_boundary(before.boundaries, boundary, location);
        }
    }
}

proof fn lemma_first_boundaries(ccu: CcuModel, carry_output: bool, location: CcuInputLocation)
    ensures
        ({
            let after = with_first_slice(empty_graph(), ccu, carry_output, seq![]).boundaries;
            &&& are_wires(ccu, after)
            &&& location matches CcuInputLocation::Pin { slice, pin } ==> slice == 0 && pin < 4
                && bit_at(ccu, location) is Wire ==> has_boundary(after, location)
            &&& location == CcuInputLocation::CarryIn && !ccu.inject[0] && ccu.carry_in is Wire
                ==> has_boundary(after, location)
        }),
{
    let graph = empty_graph();
    lemma_slice_boundaries(ccu, graph, 0, 4, location);
    let before = slice_with_pins(graph, ccu.inputs[0], 0, seq![], 4);
    if !ccu.inject[0] && ccu.carry_in is Wire {
        let boundary = CcuBoundary {
            vertex: before.vertices.len() as usize,
            bit: ccu.carry_in,
            location: CcuInputLocation::CarryIn,
        };
        lemma_push_boundary(before.boundaries, boundary, location);
    }
}

proof fn lemma_second_boundaries(
    ccu: CcuModel,
    graph: CcuGraphModel,
    carry_vertex: int,
    carry_output: bool,
    location: CcuInputLocation,
)
    requires
        are_wires(ccu, graph.boundaries),
    ensures
        ({
            let after = with_second_slice(
                graph,
                ccu,
                carry_vertex,
                carry_output,
                seq![],
            ).boundaries;
            &&& are_wires(ccu, after)
            &&& has_boundary(graph.boundaries, location) ==> has_boundary(after, location)
            &&& location matches CcuInputLocation::Pin { slice, pin } ==> slice == 1 && pin < 4
                && bit_at(ccu, location) is Wire ==> has_boundary(after, location)
        }),
{
    lemma_slice_boundaries(ccu, graph, 1, 4, location);
}

/// Whether the input at `location` decides `output`.
pub open spec fn decides(ccu: CcuModel, output: CcuRetimeOutput, location: CcuInputLocation) -> bool {
    match location {
        CcuInputLocation::Pin { slice, pin } => slice < 2 && pin < 4 && pin_decides(
            ccu.inject,
            output,
            4 * slice + pin,
        ),
        CcuInputLocation::CarryIn => carry_decides(ccu.inject, output),
    }
}

/// A deciding wire has a boundary, and boundaries stand for wires.
pub proof fn lemma_cone(ccu: CcuModel, output: CcuRetimeOutput, location: CcuInputLocation)
    requires
        decides(ccu, output, location),
    ensures
        are_wires(ccu, cone_graph(ccu, output).boundaries),
        match boundary_at(cone_graph(ccu, output).boundaries, location) {
            Some(i) => 0 <= i < cone_graph(ccu, output).boundaries.len() && cone_graph(
                ccu,
                output,
            ).boundaries[i].bit == bit_at(ccu, location) && bit_at(ccu, location) is Wire,
            None => !(bit_at(ccu, location) is Wire),
        },
{
    let boundaries = cone_graph(ccu, output).boundaries;
    let carry_output = output == CcuRetimeOutput::Carry;
    lemma_boundary_at(boundaries, location);
    if output == CcuRetimeOutput::Sum0 {
        lemma_first_boundaries(ccu, false, location);
    } else if ccu.inject[1] {
        lemma_second_boundaries(ccu, empty_graph(), 0, carry_output, location);
    } else {
        lemma_first_boundaries(ccu, true, location);
        let first = with_first_slice(empty_graph(), ccu, true, seq![]);
        lemma_second_boundaries(ccu, first, last_vertex(first), carry_output, location);
    }
}

/// Boundaries stand for wires.
pub proof fn lemma_cone_wires(ccu: CcuModel, output: CcuRetimeOutput)
    ensures
        are_wires(ccu, cone_graph(ccu, output).boundaries),
{
    if output == CcuRetimeOutput::Sum0 {
        lemma_cone(ccu, output, CcuInputLocation::Pin { slice: 0, pin: 0 });
    } else {
        lemma_cone(ccu, output, CcuInputLocation::Pin { slice: 1, pin: 0 });
    }
}

/// The reset that a certificate gives to the register in front of the input at
/// `location`; constants keep their value.
pub open spec fn boundary_reset(
    ccu: CcuModel,
    output: CcuRetimeOutput,
    edges: Seq<EdgeModel>,
    location: CcuInputLocation,
) -> bool {
    let boundaries = cone_graph(ccu, output).boundaries;
    match boundary_at(boundaries, location) {
        Some(i) => reset_from(edges, boundaries[i].vertex as int)->0,
        None => bit_at(ccu, location) == Bit::One,
    }
}

/// The location of pin `pin`, counted over both slices.
pub open spec fn pin_location(pin: int) -> CcuInputLocation {
    CcuInputLocation::Pin { slice: (pin / 4) as usize, pin: (pin % 4) as usize }
}

/// What `output` would be reset to: what the primitive makes of the certified
/// resets in front of it.
pub open spec fn certified_output(
    ccu: CcuModel,
    output: CcuRetimeOutput,
    edges: Seq<EdgeModel>,
) -> bool {
    carry_drives(
        Seq::new(8, |pin: int| boundary_reset(ccu, output, edges, pin_location(pin))),
        boundary_reset(ccu, output, edges, CcuInputLocation::CarryIn),
        ccu.init,
        ccu.inject,
        output,
    )
}

/// A found carry primitive drives the wire.
pub proof fn lemma_ccu_found(cells: Seq<CellModel>, wire: u32, from: int)
    requires
        0 <= from,
    ensures
        ccu_from(cells, wire, from) matches Some(at) ==> from <= at < cells.len()
            && cells[at] is Ccu2c && crate::retime_ccu::ccu_output(ccu_of(cells[at]), wire) is Some,
    decreases cells.len() - from,
{
    if from < cells.len() && !(cells[from] is Ccu2c && crate::retime_ccu::ccu_output(
        ccu_of(cells[from]),
        wire,
    ) is Some) {
        lemma_ccu_found(cells, wire, from + 1);
    }
}

/// Whether the new registers of a backward move take their next states.
pub open spec fn boundaries_step(
    before: spec_fn(u32) -> bool,
    after: spec_fn(u32) -> bool,
    register: ResetRegister,
    boundaries: Seq<CcuBoundary>,
    first: u32,
    edges: Seq<EdgeModel>,
) -> bool {
    forall|i: int|
        0 <= i < boundaries.len() ==> after((first + i) as u32) == state_after(
            before,
            register.enable,
            Some(
                Reset {
                    value: reset_from(edges, (#[trigger] boundaries[i]).vertex as int)->0,
                    ..register.reset
                },
            ),
            before((first + i) as u32),
            bit_value(before, boundaries[i].bit),
        )
}

proof fn lemma_boundary_steps(
    before: spec_fn(u32) -> bool,
    after: spec_fn(u32) -> bool,
    register: ResetRegister,
    ccu: CcuModel,
    output: CcuRetimeOutput,
    first: u32,
    edges: Seq<EdgeModel>,
    location: CcuInputLocation,
)
    requires
        decides(ccu, output, location),
        boundaries_step(
            before,
            after,
            register,
            cone_graph(ccu, output).boundaries,
            first,
            edges,
        ),
    ensures
        ({
            let boundaries = cone_graph(ccu, output).boundaries;
            let copy = moved_bit(boundaries, location, bit_at(ccu, location), first);
            pins_step(
                before,
                register.enable,
                register.reset,
                bit_value(after, copy),
                boundary_reset(ccu, output, edges, location),
                bit_value(before, copy),
                bit_value(before, bit_at(ccu, location)),
            )
        }),
{
    reveal(state_after);
    lemma_cone(ccu, output, location);
}

proof fn lemma_moved_reads(
    values: spec_fn(u32) -> bool,
    ccu: CcuModel,
    output: CcuRetimeOutput,
    register_output: u32,
    first: u32,
    name: Seq<char>,
    pin: int,
)
    requires
        0 <= pin < 8,
        pin_decides(ccu.inject, output, pin),
    ensures
        ({
            let moved = moved_ccu(ccu, output, register_output, first, name);
            carry_reads(|bit: Bit| bit_value(values, bit), moved->Ccu2c_inputs)[pin] == bit_value(
                values,
                moved_bit(
                    cone_graph(ccu, output).boundaries,
                    pin_location(pin),
                    bit_at(ccu, pin_location(pin)),
                    first,
                ),
            )
        }),
        carry_reads(|bit: Bit| bit_value(values, bit), ccu.inputs)[pin] == bit_value(
            values,
            bit_at(ccu, pin_location(pin)),
        ),
{
    let moved = moved_ccu(ccu, output, register_output, first, name);
    let boundaries = cone_graph(ccu, output).boundaries;
    let second = output != CcuRetimeOutput::Sum0;
    let uses_first = !second || !ccu.inject[1];
    assert(moved->Ccu2c_inputs[0] == moved_pins(boundaries, 0, uses_first, ccu.inputs[0], first));
    assert(moved->Ccu2c_inputs[1] == moved_pins(boundaries, 1, second, ccu.inputs[1], first));
    assert(pin == 0 || pin == 1 || pin == 2 || pin == 3 || pin == 4 || pin == 5 || pin == 6 || pin
        == 7);
}

#[verifier::spinoff_prover]
#[verifier::rlimit(100)]
proof fn lemma_backward_cells(
    before: spec_fn(u32) -> bool,
    after: spec_fn(u32) -> bool,
    netlist: NetlistModel,
    index: int,
    register: ResetRegister,
    at: int,
    output: CcuRetimeOutput,
    first: u32,
    edges: Seq<EdgeModel>,
)
    requires
        0 <= index < netlist.cells.len() <= usize::MAX,
        0 <= at < netlist.cells.len(),
        at != index,
        ({
            let cells = backward_ccu_cells(netlist, index, register, at, output, first, edges);
            cells_agree(before, cells) && cells_agree(after, cells) && cells_step(
                before,
                after,
                cells,
            )
        }),
    ensures
        ({
            let ccu = ccu_of(netlist.cells[at]);
            let moved = moved_ccu(ccu, output, register.output, first, seq![]);
            &&& boundaries_step(
                before,
                after,
                register,
                cone_graph(ccu, output).boundaries,
                first,
                edges,
            )
            &&& cell_agrees(before, moved)
            &&& cell_agrees(after, moved)
        }),
{
    let ccu = ccu_of(netlist.cells[at]);
    let boundaries = cone_graph(ccu, output).boundaries;
    let cells = backward_ccu_cells(netlist, index, register, at, output, first, edges);
    let kept = netlist.cells.remove(index);
    let name = netlist.cells[index].cell_name();
    let place = if feeds_only(netlist, ccu, register.data->Wire_0) {
        index_after_removal(at, index)
    } else {
        kept.len() + boundaries.len() as int
    };
    assert(cell_agrees(before, cells[place]));
    assert(cell_agrees(after, cells[place]));
    assert forall|i: int| 0 <= i < boundaries.len() implies after((first + i) as u32)
        == state_after(
        before,
        register.enable,
        Some(
            Reset {
                value: reset_from(edges, (#[trigger] boundaries[i]).vertex as int)->0,
                ..register.reset
            },
        ),
        before((first + i) as u32),
        bit_value(before, boundaries[i].bit),
    ) by {
        let cell = backward_ccu_register(
            register,
            name,
            ccu.name,
            boundaries[i],
            (first + i) as u32,
            reset_from(edges, boundaries[i].vertex as int)->0,
        );
        assert(cells[kept.len() + i] == cell);
        assert(cell_steps(before, after, cells[kept.len() + i]));
    }
}

proof fn lemma_moved_drives(
    values: spec_fn(u32) -> bool,
    ccu: CcuModel,
    output: CcuRetimeOutput,
    register_output: u32,
    first: u32,
)
    requires
        cell_agrees(values, moved_ccu(ccu, output, register_output, first, seq![])),
    ensures
        ({
            let moved = moved_ccu(ccu, output, register_output, first, seq![]);
            values(register_output) == carry_drives(
                carry_reads(|bit: Bit| bit_value(values, bit), moved->Ccu2c_inputs),
                bit_value(values, moved->Ccu2c_carry_in),
                ccu.init,
                ccu.inject,
                output,
            )
        }),
{
    let moved = moved_ccu(ccu, output, register_output, first, seq![]);
    lemma_drives(
        |bit: Bit| bit_value(values, bit),
        moved->Ccu2c_inputs,
        moved->Ccu2c_carry_in,
        ccu.init,
        ccu.inject,
    );
}

/// A register moved back across a carry primitive keeps its state. Where the
/// certificate's resets give the old reset through the primitive, the primitive
/// behind the new registers drives after every step what the register would have
/// held.
pub proof fn law_backward_ccu_move_keeps_state(
    before: spec_fn(u32) -> bool,
    after: spec_fn(u32) -> bool,
    netlist: NetlistModel,
    index: int,
    register: ResetRegister,
    at: int,
    output: CcuRetimeOutput,
    first: u32,
    edges: Seq<EdgeModel>,
)
    requires
        backward_ccu_sources(netlist, index) == Some((register, at, output)),
        boundaries_covered(cone_graph(ccu_of(netlist.cells[at]), output).boundaries, edges),
        netlist.cells.len() <= usize::MAX,
        certified_output(ccu_of(netlist.cells[at]), output, edges) == register.reset.value,
        ({
            let cells = backward_ccu_cells(netlist, index, register, at, output, first, edges);
            cells_agree(before, cells) && cells_agree(after, cells) && cells_step(
                before,
                after,
                cells,
            )
        }),
    ensures
        ({
            let ccu = ccu_of(netlist.cells[at]);
            after(register.output) == state_after(
                before,
                register.enable,
                Some(register.reset),
                before(register.output),
                carry_drives(
                    carry_reads(|bit: Bit| bit_value(before, bit), ccu.inputs),
                    bit_value(before, ccu.carry_in),
                    ccu.init,
                    ccu.inject,
                    output,
                ),
            )
        }),
{
    let ccu = ccu_of(netlist.cells[at]);
    lemma_ccu_found(netlist.cells, register.data->Wire_0, 0);
    assert(netlist.cells[index] is FlipFlop);
    lemma_backward_cells(
        before,
        after,
        netlist,
        index,
        register,
        at,
        output,
        first,
        edges,
    );
    lemma_backward_outputs(before, after, register, ccu, output, first, edges);
    assert((Reset { value: register.reset.value, ..register.reset }) == register.reset);
}

/// The moved primitive steps as the register would.
pub proof fn lemma_backward_outputs(
    before: spec_fn(u32) -> bool,
    after: spec_fn(u32) -> bool,
    register: ResetRegister,
    ccu: CcuModel,
    output: CcuRetimeOutput,
    first: u32,
    edges: Seq<EdgeModel>,
)
    requires
        boundaries_step(
            before,
            after,
            register,
            cone_graph(ccu, output).boundaries,
            first,
            edges,
        ),
        cell_agrees(before, moved_ccu(ccu, output, register.output, first, seq![])),
        cell_agrees(after, moved_ccu(ccu, output, register.output, first, seq![])),
    ensures
        after(register.output) == state_after(
            before,
            register.enable,
            Some(Reset { value: certified_output(ccu, output, edges), ..register.reset }),
            before(register.output),
            carry_drives(
                carry_reads(|bit: Bit| bit_value(before, bit), ccu.inputs),
                bit_value(before, ccu.carry_in),
                ccu.init,
                ccu.inject,
                output,
            ),
        ),
{
    let moved = moved_ccu(ccu, output, register.output, first, seq![]);
    lemma_moved_drives(before, ccu, output, register.output, first);
    lemma_moved_drives(after, ccu, output, register.output, first);
    let next = Reads {
        pins: carry_reads(|bit: Bit| bit_value(after, bit), moved->Ccu2c_inputs),
        carry: bit_value(after, moved->Ccu2c_carry_in),
    };
    let states = Reads {
        pins: carry_reads(|bit: Bit| bit_value(before, bit), moved->Ccu2c_inputs),
        carry: bit_value(before, moved->Ccu2c_carry_in),
    };
    let data = Reads {
        pins: carry_reads(|bit: Bit| bit_value(before, bit), ccu.inputs),
        carry: bit_value(before, ccu.carry_in),
    };
    let cleared = Reads {
        pins: Seq::new(8, |pin: int| boundary_reset(ccu, output, edges, pin_location(pin))),
        carry: boundary_reset(ccu, output, edges, CcuInputLocation::CarryIn),
    };
    assert forall|i: int| 0 <= i < 8 && #[trigger] pin_decides(
        ccu.inject,
        output,
        i,
    ) implies pins_step(
        before,
        register.enable,
        register.reset,
        next.pins[i],
        cleared.pins[i],
        states.pins[i],
        data.pins[i],
    ) by {
        let location = pin_location(i);
        assert(4 * (i / 4) + i % 4 == i);
        assert(decides(ccu, output, location));
        lemma_boundary_steps(before, after, register, ccu, output, first, edges, location);
        lemma_moved_reads(before, ccu, output, register.output, first, seq![], i);
        lemma_moved_reads(after, ccu, output, register.output, first, seq![], i);
    }
    if carry_decides(ccu.inject, output) {
        lemma_boundary_steps(
            before,
            after,
            register,
            ccu,
            output,
            first,
            edges,
            CcuInputLocation::CarryIn,
        );
    }
    lemma_output_steps(
        before,
        register.enable,
        register.reset,
        ccu,
        output,
        cleared,
        states,
        data,
        next,
    );
}

/// In reset the moved primitive drives what it makes of the certified resets.
pub proof fn lemma_reset_outputs(
    values: spec_fn(u32) -> bool,
    register: ResetRegister,
    ccu: CcuModel,
    output: CcuRetimeOutput,
    first: u32,
    edges: Seq<EdgeModel>,
)
    requires
        forall|i: int|
            0 <= i < cone_graph(ccu, output).boundaries.len() ==> values((first + i) as u32)
                == reset_from(
                edges,
                (#[trigger] cone_graph(ccu, output).boundaries[i]).vertex as int,
            )->0,
        cell_agrees(values, moved_ccu(ccu, output, register.output, first, seq![])),
    ensures
        values(register.output) == certified_output(ccu, output, edges),
{
    let boundaries = cone_graph(ccu, output).boundaries;
    let held = ResetRegister {
        reset: Reset { signal: Bit::One, active: ActiveLevel::High, ..register.reset },
        ..register
    };
    assert(boundaries_step(values, values, held, boundaries, first, edges)) by {
        reveal(state_after);
    }
    lemma_backward_outputs(values, values, held, ccu, output, first, edges);
    assert(values(register.output) == certified_output(ccu, output, edges)) by {
        reveal(state_after);
    }
}

/// The wire of an output.
pub open spec fn output_wire(ccu: CcuModel, output: CcuRetimeOutput) -> u32 {
    match output {
        CcuRetimeOutput::Sum0 => ccu.sums[0],
        CcuRetimeOutput::Sum1 => ccu.sums[1],
        CcuRetimeOutput::Carry => ccu.carry_out,
    }
}

/// The certified reset of an output.
pub open spec fn output_reset(values: (bool, bool, bool), output: CcuRetimeOutput) -> bool {
    match output {
        CcuRetimeOutput::Sum0 => values.0,
        CcuRetimeOutput::Sum1 => values.1,
        CcuRetimeOutput::Carry => values.2,
    }
}

/// What an output of the primitive drives where its pins carry `pins`.
pub open spec fn output_value(
    ccu: CcuModel,
    output: CcuRetimeOutput,
    pins: spec_fn(Bit) -> bool,
) -> bool {
    carry_drives(
        carry_reads(pins, ccu.inputs),
        pins(ccu.carry_in),
        ccu.init,
        ccu.inject,
        output,
    )
}

proof fn lemma_moving_bit(
    values: spec_fn(u32) -> bool,
    netlist: NetlistModel,
    ccu: CcuModel,
    bit: Bit,
)
    requires
        has_registered_inputs(netlist, moving_pins(ccu)),
        moving_pins(ccu).contains(bit),
    ensures
        ({
            let wires = sorted_wires(moving_pins(ccu));
            let lead = source_register(netlist, wires[0]);
            pins_step(
                values,
                lead.enable,
                lead.reset,
                pin_after(values, netlist, bit),
                pin_reset(netlist, bit),
                bit_value(values, bit),
                bit_value(values, unregistered(netlist, wires, bit)),
            )
        }),
{
    reveal(state_after);
    if let Bit::Wire(wire) = bit {
        let bits = moving_pins(ccu);
        let wires = sorted_wires(bits);
        lemma_sorted_wires(bits);
        assert(wires.contains(wire));
        let k = choose|k: int| 0 <= k < wires.len() && wires[k] == wire;
        assert(is_registered_input(netlist, bits, wires[0], wires[k]));
    }
}

proof fn lemma_moving_pin(
    values: spec_fn(u32) -> bool,
    netlist: NetlistModel,
    ccu: CcuModel,
    pin: int,
)
    requires
        has_registered_inputs(netlist, moving_pins(ccu)),
        0 <= pin < 8,
    ensures
        ({
            let wires = sorted_wires(moving_pins(ccu));
            let lead = source_register(netlist, wires[0]);
            let sources = [
                unregistered_pins(netlist, wires, ccu.inputs[0]),
                unregistered_pins(netlist, wires, ccu.inputs[1]),
            ];
            pins_step(
                values,
                lead.enable,
                lead.reset,
                carry_reads(|bit: Bit| pin_after(values, netlist, bit), ccu.inputs)[pin],
                carry_reads(|bit: Bit| pin_reset(netlist, bit), ccu.inputs)[pin],
                carry_reads(|bit: Bit| bit_value(values, bit), ccu.inputs)[pin],
                carry_reads(|bit: Bit| bit_value(values, bit), sources)[pin],
            )
        }),
{
    let bits = moving_pins(ccu);
    let bit = if pin < 4 {
        ccu.inputs[0][pin]
    } else {
        ccu.inputs[1][pin - 4]
    };
    assert(bits[pin] == bit);
    assert(bits.contains(bit));
    lemma_moving_bit(values, netlist, ccu, bit);
    assert(pin == 0 || pin == 1 || pin == 2 || pin == 3 || pin == 4 || pin == 5 || pin == 6 || pin
        == 7);
}

/// What the primitive makes of the registers' next states steps as a register.
pub proof fn lemma_forward_steps(
    values: spec_fn(u32) -> bool,
    netlist: NetlistModel,
    ccu: CcuModel,
    output: CcuRetimeOutput,
    data: bool,
)
    requires
        has_registered_inputs(netlist, moving_pins(ccu)),
        ({
            let wires = sorted_wires(moving_pins(ccu));
            data == carry_drives(
                carry_reads(
                    |bit: Bit| bit_value(values, bit),
                    [
                        unregistered_pins(netlist, wires, ccu.inputs[0]),
                        unregistered_pins(netlist, wires, ccu.inputs[1]),
                    ],
                ),
                !ccu.inject[0] && bit_value(values, unregistered(netlist, wires, ccu.carry_in)),
                ccu.init,
                ccu.inject,
                output,
            )
        }),
    ensures
        ({
            let lead = source_register(netlist, sorted_wires(moving_pins(ccu))[0]);
            output_value(ccu, output, |bit: Bit| pin_after(values, netlist, bit)) == state_after(
                values,
                lead.enable,
                Some(
                    Reset {
                        value: output_value(ccu, output, |bit: Bit| pin_reset(netlist, bit)),
                        ..lead.reset
                    },
                ),
                output_value(ccu, output, |bit: Bit| bit_value(values, bit)),
                data,
            )
        }),
{
    let bits = moving_pins(ccu);
    let wires = sorted_wires(bits);
    let lead = source_register(netlist, wires[0]);
    let sources = [
        unregistered_pins(netlist, wires, ccu.inputs[0]),
        unregistered_pins(netlist, wires, ccu.inputs[1]),
    ];
    let next = Reads {
        pins: carry_reads(|bit: Bit| pin_after(values, netlist, bit), ccu.inputs),
        carry: pin_after(values, netlist, ccu.carry_in),
    };
    let cleared = Reads {
        pins: carry_reads(|bit: Bit| pin_reset(netlist, bit), ccu.inputs),
        carry: pin_reset(netlist, ccu.carry_in),
    };
    let states = Reads {
        pins: carry_reads(|bit: Bit| bit_value(values, bit), ccu.inputs),
        carry: bit_value(values, ccu.carry_in),
    };
    let read = Reads {
        pins: carry_reads(|bit: Bit| bit_value(values, bit), sources),
        carry: !ccu.inject[0] && bit_value(values, unregistered(netlist, wires, ccu.carry_in)),
    };
    assert forall|i: int| 0 <= i < 8 && #[trigger] pin_decides(
        ccu.inject,
        output,
        i,
    ) implies pins_step(
        values,
        lead.enable,
        lead.reset,
        next.pins[i],
        cleared.pins[i],
        states.pins[i],
        read.pins[i],
    ) by {
        lemma_moving_pin(values, netlist, ccu, i);
    }
    if carry_decides(ccu.inject, output) {
        assert(bits[8] == ccu.carry_in);
        assert(bits.contains(ccu.carry_in));
        lemma_moving_bit(values, netlist, ccu, ccu.carry_in);
    }
    lemma_output_steps(
        values,
        lead.enable,
        lead.reset,
        ccu,
        output,
        cleared,
        states,
        read,
        next,
    );
}

/// The new wire of an output after a forward move.
pub open spec fn new_wire(first: u32, output: CcuRetimeOutput) -> u32 {
    match output {
        CcuRetimeOutput::Sum0 => first,
        CcuRetimeOutput::Sum1 => (first + 1) as u32,
        CcuRetimeOutput::Carry => (first + 2) as u32,
    }
}

proof fn lemma_forward_cells(
    before: spec_fn(u32) -> bool,
    after: spec_fn(u32) -> bool,
    netlist: NetlistModel,
    index: int,
    first: u32,
    values: (bool, bool, bool),
    output: CcuRetimeOutput,
)
    requires
        forward_ccu_cells(netlist, index, first, values) matches Some(cells) && cells_agree(
            before,
            cells,
        ) && cells_step(before, after, cells),
        wire_fanout(netlist, output_wire(ccu_of(netlist.cells[index]), output)) > 0,
    ensures
        ({
            let ccu = ccu_of(netlist.cells[index]);
            let wires = sorted_wires(moving_pins(ccu));
            let lead = source_register(netlist, wires[0]);
            let wire = output_wire(ccu, output);
            &&& before(new_wire(first, output)) == carry_drives(
                carry_reads(
                    |bit: Bit| bit_value(before, bit),
                    [
                        unregistered_pins(netlist, wires, ccu.inputs[0]),
                        unregistered_pins(netlist, wires, ccu.inputs[1]),
                    ],
                ),
                !ccu.inject[0] && bit_value(before, unregistered(netlist, wires, ccu.carry_in)),
                ccu.init,
                ccu.inject,
                output,
            )
            &&& after(wire) == state_after(
                before,
                lead.enable,
                Some(Reset { value: output_reset(values, output), ..lead.reset }),
                before(wire),
                before(new_wire(first, output)),
            )
        }),
{
    let ccu = ccu_of(netlist.cells[index]);
    let wires = sorted_wires(moving_pins(ccu));
    let lead = source_register(netlist, wires[0]);
    let kept = without(netlist.cells, register_indices(netlist, wires));
    lemma_named_at(kept, ccu.name, 0);
    let at = first_named(kept, ccu.name)->0;
    let cells = forward_ccu_cells(netlist, index, first, values)->0;
    let name = "retime_forward_"@ + ccu.name;
    assert(cell_agrees(before, cells[at]));
    let moved = cells[at];
    lemma_drives(
        |bit: Bit| bit_value(before, bit),
        moved->Ccu2c_inputs,
        moved->Ccu2c_carry_in,
        ccu.init,
        ccu.inject,
    );
    let zero = if wire_fanout(netlist, ccu.sums[0]) == 0 {
        0int
    } else {
        1
    };
    let one = if wire_fanout(netlist, ccu.sums[1]) == 0 {
        0int
    } else {
        1
    };
    let place = match output {
        CcuRetimeOutput::Sum0 => kept.len() as int,
        CcuRetimeOutput::Sum1 => kept.len() + zero,
        CcuRetimeOutput::Carry => kept.len() + zero + one,
    };
    assert(cell_steps(before, after, cells[place]));
}

/// Registers moved forward across a carry primitive keep its outputs. Where a new
/// register starts as the primitive drives, and its certified reset is what the
/// primitive makes of the old resets, it holds after every step what the primitive
/// would have driven from the registers in their old places.
pub proof fn law_forward_ccu_move_keeps_outputs(
    before: spec_fn(u32) -> bool,
    after: spec_fn(u32) -> bool,
    netlist: NetlistModel,
    index: int,
    first: u32,
    values: (bool, bool, bool),
    output: CcuRetimeOutput,
)
    requires
        ccu_can_move_forward(netlist, index),
        wire_fanout(netlist, output_wire(ccu_of(netlist.cells[index]), output)) > 0,
        output_reset(values, output) == output_value(
            ccu_of(netlist.cells[index]),
            output,
            |bit: Bit| pin_reset(netlist, bit),
        ),
        before(output_wire(ccu_of(netlist.cells[index]), output)) == output_value(
            ccu_of(netlist.cells[index]),
            output,
            |bit: Bit| bit_value(before, bit),
        ),
        forward_ccu_cells(netlist, index, first, values) matches Some(cells) && cells_agree(
            before,
            cells,
        ) && cells_step(before, after, cells),
    ensures
        after(output_wire(ccu_of(netlist.cells[index]), output)) == output_value(
            ccu_of(netlist.cells[index]),
            output,
            |bit: Bit| pin_after(before, netlist, bit),
        ),
{
    let ccu = ccu_of(netlist.cells[index]);
    lemma_forward_cells(before, after, netlist, index, first, values, output);
    lemma_forward_steps(before, netlist, ccu, output, before(new_wire(first, output)));
}

} // verus!
