//! Certified moves of registers across one lookup table.

use vstd::prelude::*;

use crate::cells::{clamped, mapped_cell_name, Bit, CellModel, ClockEdge, Control, Ecp5Cell, Reset};
use crate::certify::{
    ask, domain_model, edge_models, edge_reset_between, is_certifier, make_sink_vertex,
    make_wire_vertex, oracle, reset_between, retiming_domain, sink_vertex, wire_vertex,
    DomainModel, EdgeModel, LogicFunction, RequestModel, RetimingDomain, RetimingEdge,
    RetimingRequest, RetimingVertex, VertexModel,
};
use crate::netlist::{
    cell_models, first_named, mapped_wire_fanout, maximum_mapped_wire, maximum_wire,
    position_of_name, prune_unobservable_retiming_cells, pruned, unique_cell_name, unique_name,
    wire_fanout, Ecp5Netlist, MappedEquivalenceProof, NetlistModel,
};
use crate::registered::{
    find_registered_inputs, has_registered_inputs, register_indices, remove_cells, source_register,
    unregistered_pins, without, RegisteredInputs,
};
use crate::text::{decimal, decimal_text, join};
use crate::wires::{
    assignments, compute_pin_index, count_assignments, distinct_wires, index_of_wire,
    lemma_sorted_wires, pin_index, sorted_wires, table_bit, table_of, test_assigned,
    test_table_bit, wire_index, assigned,
};

verus! {

/// What a move reads from a flip-flop that has a reset.
#[derive(Clone, Copy, Debug, Eq, PartialEq, Structural)]
pub struct ResetRegister {
    /// D input.
    pub data: Bit,
    /// Q output wire.
    pub output: u32,
    /// Clock input.
    pub clock: Bit,
    /// Active clock edge.
    pub edge: ClockEdge,
    /// Optional clock enable.
    pub enable: Option<Control>,
    /// Reset.
    pub reset: Reset,
}

/// The flip-flop with a reset that `cell` is, if it is one.
pub open spec fn reset_register(cell: CellModel) -> Option<ResetRegister> {
    match cell {
        CellModel::FlipFlop { data, output, clock, edge, enable, reset: Some(reset), .. } => Some(
            ResetRegister { data, output, clock, edge, enable, reset },
        ),
        _ => None,
    }
}

/// The flip-flop with a reset that `cell` is, if it is one.
pub fn as_reset_register(cell: &Ecp5Cell) -> (register: Option<ResetRegister>)
    ensures
        register == reset_register(cell@),
{
    match cell {
        Ecp5Cell::FlipFlop { data, output, clock, edge, enable, reset: Some(reset), .. } => Some(
            ResetRegister {
                data: *data,
                output: *output,
                clock: *clock,
                edge: *edge,
                enable: *enable,
                reset: *reset,
            },
        ),
        _ => None,
    }
}

/// Whether two registers share clock, edge, enable and reset, whatever the
/// reset value.
pub open spec fn same_domain(a: ResetRegister, b: ResetRegister) -> bool {
    &&& a.clock == b.clock
    &&& a.edge == b.edge
    &&& a.enable == b.enable
    &&& a.reset.signal == b.reset.signal
    &&& a.reset.active == b.reset.active
    &&& a.reset.asynchronous == b.reset.asynchronous
}

/// Whether two optional controls are equal.
pub fn same_control(a: Option<Control>, b: Option<Control>) -> (same: bool)
    ensures
        same == (a == b),
{
    match (a, b) {
        (Some(a), Some(b)) => a == b,
        (None, None) => true,
        _ => false,
    }
}

/// The first flip-flop with a reset that drives `wire`, at or after `from`.
pub open spec fn register_from(cells: Seq<CellModel>, wire: u32, from: int) -> Option<int>
    decreases cells.len() - from,
{
    if from < 0 || from >= cells.len() {
        None
    } else if reset_register(cells[from]) is Some && reset_register(cells[from])->0.output
        == wire {
        Some(from)
    } else {
        register_from(cells, wire, from + 1)
    }
}

/// The first flip-flop with a reset that drives `wire`.
pub fn find_register(cells: &Vec<Ecp5Cell>, wire: u32) -> (index: Option<usize>)
    ensures
        match index {
            Some(index) => register_from(cell_models(cells@), wire, 0) == Some(index as int)
                && index < cells@.len(),
            None => register_from(cell_models(cells@), wire, 0) is None,
        },
{
    let mut i: usize = 0;
    while i < cells.len()
        invariant
            i <= cells@.len(),
            register_from(cell_models(cells@), wire, 0) == register_from(
                cell_models(cells@),
                wire,
                i as int,
            ),
        decreases cells@.len() - i,
    {
        if let Some(register) = as_reset_register(&cells[i]) {
            if register.output == wire {
                return Some(i);
            }
        }
        i += 1;
    }
    None
}

/// A found register drives its wire and has a reset.
pub proof fn lemma_register_from(cells: Seq<CellModel>, wire: u32, from: int)
    requires
        0 <= from,
    ensures
        register_from(cells, wire, from) matches Some(index) ==> from <= index < cells.len()
            && reset_register(cells[index]) is Some && reset_register(cells[index])->0.output
            == wire,
    decreases cells.len() - from,
{
    if from < cells.len() {
        lemma_register_from(cells, wire, from + 1);
    }
}

/// The first lookup table that drives `wire`, at or after `from`.
pub open spec fn lut_from(cells: Seq<CellModel>, wire: u32, from: int) -> Option<int>
    decreases cells.len() - from,
{
    if from < 0 || from >= cells.len() {
        None
    } else {
        match cells[from] {
            CellModel::Lut4 { output, .. } if output == wire => Some(from),
            _ => lut_from(cells, wire, from + 1),
        }
    }
}

/// The first lookup table that drives `wire`.
pub fn find_lut(cells: &Vec<Ecp5Cell>, wire: u32) -> (index: Option<usize>)
    ensures
        match index {
            Some(index) => lut_from(cell_models(cells@), wire, 0) == Some(index as int) && index
                < cells@.len(),
            None => lut_from(cell_models(cells@), wire, 0) is None,
        },
{
    let mut i: usize = 0;
    while i < cells.len()
        invariant
            i <= cells@.len(),
            lut_from(cell_models(cells@), wire, 0) == lut_from(
                cell_models(cells@),
                wire,
                i as int,
            ),
        decreases cells@.len() - i,
    {
        if let Ecp5Cell::Lut4 { output, .. } = &cells[i] {
            if *output == wire {
                return Some(i);
            }
        }
        i += 1;
    }
    None
}

/// A found lookup table drives its wire.
pub proof fn lemma_lut_from(cells: Seq<CellModel>, wire: u32, from: int)
    requires
        0 <= from,
    ensures
        lut_from(cells, wire, from) matches Some(index) ==> from <= index < cells.len()
            && cells[index] is Lut4 && cells[index]->Lut4_output == wire,
    decreases cells.len() - from,
{
    if from < cells.len() {
        lemma_lut_from(cells, wire, from + 1);
    }
}

/// Whether `cell` is clocked or reset by `wire`.
pub open spec fn clocks_or_resets(cell: CellModel, wire: u32) -> bool {
    match cell {
        CellModel::FlipFlop { clock, reset, .. } => clock == Bit::Wire(wire) || (match reset {
            Some(reset) => reset.signal == Bit::Wire(wire),
            None => false,
        }),
        CellModel::BlockRam { clock, .. } => clock == Bit::Wire(wire),
        _ => false,
    }
}

/// Whether `wire` clocks or resets some cell.
pub open spec fn is_clock_or_reset(cells: Seq<CellModel>, wire: u32) -> bool {
    exists|i: int| 0 <= i < cells.len() && clocks_or_resets(#[trigger] cells[i], wire)
}

/// Whether `wire` clocks or resets some cell.
pub fn mapped_wire_is_clock_or_reset(netlist: &Ecp5Netlist, wire: u32) -> (found: bool)
    ensures
        found == is_clock_or_reset(netlist@.cells, wire),
{
    let ghost models = netlist@.cells;
    for i in 0..netlist.cells.len()
        invariant
            models == cell_models(netlist.cells@),
            forall|j: int| 0 <= j < i ==> !clocks_or_resets(#[trigger] models[j], wire),
    {
        let found: bool = match &netlist.cells[i] {
            Ecp5Cell::FlipFlop { clock, reset, .. } => *clock == Bit::Wire(wire) || (match reset {
                Some(reset) => reset.signal == Bit::Wire(wire),
                None => false,
            }),
            Ecp5Cell::BlockRam { clock, .. } => *clock == Bit::Wire(wire),
            _ => false,
        };
        assert(found == clocks_or_resets(models[i as int], wire));
        if found {
            return true;
        }
    }
    false
}

/// The value of a pin under an assignment of the variables `wires`.
pub open spec fn pin_value(bit: Bit, wires: Seq<u32>, assignment: u64) -> bool {
    match bit {
        Bit::Zero => false,
        Bit::One => true,
        Bit::Wire(wire) => assigned(assignment, wire_index(wires, wire)),
    }
}

/// The value of a lookup table under an assignment of the variables `wires`.
pub open spec fn lut_value(
    inputs: [Bit; 4],
    init: u16,
    wires: Seq<u32>,
    assignment: u64,
) -> bool {
    table_bit(
        init,
        pin_index(
            pin_value(inputs[0], wires, assignment),
            pin_value(inputs[1], wires, assignment),
            pin_value(inputs[2], wires, assignment),
            pin_value(inputs[3], wires, assignment),
        ),
    )
}

/// The function that a lookup table computes of the variables `wires`.
pub open spec fn reduced_function(inputs: [Bit; 4], init: u16, wires: Seq<u32>) -> LogicFunction {
    LogicFunction {
        inputs: wires.len() as u8,
        truth_table: table_of(
            |assignment: u64| lut_value(inputs, init, wires, assignment),
            assignments(wires.len()),
        ) as u64,
    }
}

fn read_pin(bit: Bit, wires: &Vec<u32>, assignment: u64) -> (value: bool)
    requires
        wires@.len() <= 4,
    ensures
        value == pin_value(bit, wires@, assignment),
{
    match bit {
        Bit::Zero => false,
        Bit::One => true,
        Bit::Wire(wire) => test_assigned(assignment, index_of_wire(wires, wire)),
    }
}

/// The function that a lookup table computes of the variables `wires`.
pub fn reduced_lut_function(inputs: [Bit; 4], init: u16, wires: &Vec<u32>) -> (function:
    LogicFunction)
    requires
        wires@.len() <= 4,
    ensures
        function == reduced_function(inputs, init, wires@),
{
    let count: u64 = count_assignments(wires.len());
    let ghost value = |assignment: u64| lut_value(inputs, init, wires@, assignment);
    let mut truth_table: u64 = 0;
    let mut weight: u64 = 1;
    proof {
        reveal_with_fuel(assignments, 17);
        assert(count <= 16) by {
            assert(assignments(wires@.len()) <= 16);
        }
    }
    let mut assignment: u64 = 0;
    while assignment < count
        invariant
            wires@.len() <= 4,
            count <= 16,
            assignment <= count,
            value == (|assignment: u64| lut_value(inputs, init, wires@, assignment)),
            weight == assignments(assignment as nat),
            weight <= 0x1_0000,
            truth_table == table_of(value, assignment as nat),
            truth_table < weight,
        decreases count - assignment,
    {
        let index: u16 = compute_pin_index(
            read_pin(inputs[0], wires, assignment),
            read_pin(inputs[1], wires, assignment),
            read_pin(inputs[2], wires, assignment),
            read_pin(inputs[3], wires, assignment),
        );
        if test_table_bit(init, index) {
            assert(value(assignment));
            truth_table = truth_table + weight;
        } else {
            assert(!value(assignment));
        }
        weight = weight * 2;
        assignment = assignment + 1;
        proof {
            reveal_with_fuel(assignments, 17);
        }
    }
    LogicFunction { inputs: wires.len() as u8, truth_table }
}

/// The request to move registers across a lookup table. `input_resets` holds
/// the reset values on each input edge, `output_resets` those on the output
/// edge, and `lag` is the lag of the table.
pub open spec fn lut_request(
    domain: DomainModel,
    inputs: [Bit; 4],
    init: u16,
    wires: Seq<u32>,
    input_resets: Seq<Seq<bool>>,
    output_resets: Seq<bool>,
    lag: i32,
) -> RequestModel {
    let count = wires.len() as int;
    RequestModel {
        domain,
        vertices: Seq::new(wires.len(), |i: int| wire_vertex(wires[i])).push(
            VertexModel {
                name: "lut"@,
                boundary: false,
                function: reduced_function(inputs, init, wires),
            },
        ).push(sink_vertex("q"@)),
        edges: Seq::new(
            wires.len(),
            |i: int| EdgeModel { source: i, target: count, reset_values: input_resets[i] },
        ).push(EdgeModel { source: count, target: count + 1, reset_values: output_resets }),
        labels: Seq::new(
            wires.len() + 2,
            |i: int|
                if i == count {
                    lag
                } else {
                    0
                },
        ),
    }
}

fn one_reset(value: Option<bool>) -> (values: Vec<bool>)
    ensures
        values@ == (match value {
            Some(value) => seq![value],
            None => seq![],
        }),
{
    let mut values: Vec<bool> = Vec::new();
    if let Some(value) = value {
        values.push(value);
    }
    assert(values@ =~= (match value {
        Some(value) => seq![value],
        None => seq![],
    }));
    values
}

/// The reset values of an edge with at most one register.
pub open spec fn reset_list(value: Option<bool>) -> Seq<bool> {
    match value {
        Some(value) => seq![value],
        None => seq![],
    }
}

/// The reset values of several edges.
pub open spec fn reset_lists(values: Seq<Option<bool>>) -> Seq<Seq<bool>> {
    Seq::new(values.len(), |i: int| reset_list(values[i]))
}

fn make_lut_request(
    domain: RetimingDomain,
    inputs: [Bit; 4],
    init: u16,
    wires: &Vec<u32>,
    input_resets: &Vec<Option<bool>>,
    output_reset: Option<bool>,
    lag: i32,
) -> (request: RetimingRequest)
    requires
        wires@.len() <= 4,
        input_resets@.len() == wires@.len(),
    ensures
        request@ == lut_request(
            domain@,
            inputs,
            init,
            wires@,
            reset_lists(input_resets@),
            reset_list(output_reset),
            lag,
        ),
{
    let count: usize = wires.len();
    let mut vertices: Vec<RetimingVertex> = Vec::new();
    let mut edges: Vec<RetimingEdge> = Vec::new();
    let mut labels: Vec<i32> = Vec::new();
    for i in 0..count
        invariant
            count == wires@.len(),
            count == input_resets@.len(),
            vertices@.len() == i,
            edges@.len() == i,
            labels@.len() == i,
            forall|j: int| 0 <= j < i ==> (#[trigger] vertices@[j])@ == wire_vertex(wires@[j]),
            forall|j: int|
                0 <= j < i ==> (#[trigger] edges@[j])@ == (EdgeModel {
                    source: j,
                    target: count as int,
                    reset_values: reset_list(input_resets@[j]),
                }),
            forall|j: int| 0 <= j < i ==> labels@[j] == 0,
    {
        vertices.push(make_wire_vertex(wires[i]));
        edges.push(
            RetimingEdge { source: i, target: count, reset_values: one_reset(input_resets[i]) },
        );
        labels.push(0);
    }
    vertices.push(
        RetimingVertex {
            name: "lut".to_owned(),
            boundary: false,
            function: reduced_lut_function(inputs, init, wires),
        },
    );
    vertices.push(make_sink_vertex("q"));
    edges.push(
        RetimingEdge { source: count, target: count + 1, reset_values: one_reset(output_reset) },
    );
    labels.push(lag);
    labels.push(0);
    let request = RetimingRequest { domain, vertices, edges, labels };
    proof {
        let expected = lut_request(
            request.domain@,
            inputs,
            init,
            wires@,
            reset_lists(input_resets@),
            reset_list(output_reset),
            lag,
        );
        assert(request@.vertices =~= expected.vertices);
        assert(request@.edges =~= expected.edges);
        assert(request@.labels =~= expected.labels);
    }
    request
}

/// The cells of a backward move: the register, the lookup table behind its
/// data input, and the table's pins and contents.
pub open spec fn backward_lut_sources(netlist: NetlistModel, index: int) -> Option<
    (ResetRegister, int),
> {
    if 0 <= index < netlist.cells.len() {
        match reset_register(netlist.cells[index]) {
            Some(register) => match register.data {
                Bit::Wire(data) => if is_clock_or_reset(netlist.cells, register.output) {
                    None
                } else {
                    match lut_from(netlist.cells, data, 0) {
                        Some(lut) => if sorted_wires(
                            netlist.cells[lut]->Lut4_inputs@,
                        ).len() == 0 {
                            None
                        } else {
                            Some((register, lut))
                        },
                        None => None,
                    }
                },
                _ => None,
            },
            None => None,
        }
    } else {
        None
    }
}

/// The request to move the register at `index` back across the lookup table
/// behind its data input.
pub open spec fn backward_lut_request(netlist: NetlistModel, index: int) -> Option<RequestModel> {
    match backward_lut_sources(netlist, index) {
        Some((register, lut)) => {
            let inputs = netlist.cells[lut]->Lut4_inputs;
            let wires = sorted_wires(inputs@);
            Some(
                lut_request(
                    domain_model(register.clock, register.edge, register.reset),
                    inputs,
                    netlist.cells[lut]->Lut4_init,
                    wires,
                    Seq::new(wires.len(), |i: int| Seq::<bool>::empty()),
                    seq![register.reset.value],
                    1,
                ),
            )
        },
        None => None,
    }
}

/// The ledger after one more certified move.
pub open spec fn one_more_move(proof: MappedEquivalenceProof) -> MappedEquivalenceProof {
    MappedEquivalenceProof {
        certified_primitive_moves: clamped(proof.certified_primitive_moves as nat + 1),
        ..proof
    }
}

/// The register that takes over input `i` of a table that a register is moved
/// back across.
pub open spec fn backward_lut_register(
    name: Seq<char>,
    register: ResetRegister,
    wire: u32,
    output: u32,
    value: bool,
) -> CellModel {
    CellModel::FlipFlop {
        name: "retime_"@ + name + "_"@ + decimal_text(wire as nat),
        data: Bit::Wire(wire),
        output,
        clock: register.clock,
        edge: register.edge,
        enable: register.enable,
        reset: Some(Reset { value, ..register.reset }),
    }
}

/// A pin that reads the registered copy of its wire: copy `i` of `wires` has
/// wire number `first + i`.
pub open spec fn shifted_pin(bit: Bit, wires: Seq<u32>, first: u32) -> Bit {
    match bit {
        Bit::Wire(wire) => Bit::Wire((first + wire_index(wires, wire)) as u32),
        _ => bit,
    }
}

/// Four pins that read the registered copies of their wires.
pub open spec fn shifted_pins(inputs: [Bit; 4], wires: Seq<u32>, first: u32) -> [Bit; 4] {
    [
        shifted_pin(inputs[0], wires, first),
        shifted_pin(inputs[1], wires, first),
        shifted_pin(inputs[2], wires, first),
        shifted_pin(inputs[3], wires, first),
    ]
}

/// The index that cell `other` has once the cell at `removed` is gone.
pub open spec fn index_after_removal(other: int, removed: int) -> int {
    if removed < other {
        other - 1
    } else {
        other
    }
}

/// Whether the certified edges give each of `count` leading edges a reset.
pub open spec fn covers(edges: Seq<EdgeModel>, count: nat) -> bool {
    edges.len() >= count && forall|i: int|
        0 <= i < count ==> (#[trigger] edges[i]).reset_values.len() > 0
}

/// The cells after a backward move, before pruning. New wires start at
/// `first`.
pub open spec fn backward_lut_cells(
    netlist: NetlistModel,
    index: int,
    register: ResetRegister,
    lut: int,
    first: u32,
    edges: Seq<EdgeModel>,
) -> Seq<CellModel> {
    let inputs = netlist.cells[lut]->Lut4_inputs;
    let wires = sorted_wires(inputs@);
    let name = netlist.cells[index].cell_name();
    let cells = netlist.cells.remove(index) + Seq::new(
        wires.len(),
        |i: int|
            backward_lut_register(
                name,
                register,
                wires[i],
                (first + i) as u32,
                edges[i].reset_values[0],
            ),
    );
    let replaced = if wire_fanout(netlist, netlist.cells[lut]->Lut4_output) == 1 {
        Some(index_after_removal(lut, index) as usize)
    } else {
        None
    };
    let retimed = CellModel::Lut4 {
        name: unique_name("retime_"@ + netlist.cells[lut].cell_name(), cells, replaced),
        inputs: shifted_pins(inputs, wires, first),
        output: register.output,
        init: netlist.cells[lut]->Lut4_init,
    };
    match replaced {
        Some(at) => cells.update(at as int, retimed),
        None => cells.push(retimed),
    }
}

/// The netlist after moving the register at `index` back across the lookup
/// table behind its data input, given the certified edges. Nothing where the
/// move does not apply, the certificate does not cover the table's inputs, or
/// wire numbers run out.
pub open spec fn backward_lut_result(
    netlist: NetlistModel,
    index: int,
    edges: Seq<EdgeModel>,
) -> Option<NetlistModel> {
    match backward_lut_sources(netlist, index) {
        Some((register, lut)) => {
            let count = sorted_wires(netlist.cells[lut]->Lut4_inputs@).len();
            match maximum_wire(netlist) {
                Some(wire) => if wire + 1 + count <= u32::MAX && covers(edges, count) {
                    Some(
                        pruned(
                            NetlistModel {
                                cells: backward_lut_cells(
                                    netlist,
                                    index,
                                    register,
                                    lut,
                                    (wire + 1) as u32,
                                    edges,
                                ),
                                proof: one_more_move(netlist.proof),
                                ..netlist
                            },
                        ),
                    )
                } else {
                    None
                },
                None => None,
            }
        },
        None => None,
    }
}

/// The model of an optional netlist.
pub open spec fn netlist_model(netlist: Option<Ecp5Netlist>) -> Option<NetlistModel> {
    match netlist {
        Some(netlist) => Some(netlist@),
        None => None,
    }
}

/// A move backed by a certificate: nothing without a request or an answer.
pub open spec fn certified_move(
    request: Option<RequestModel>,
    certificates: spec_fn(RequestModel) -> Option<Seq<EdgeModel>>,
    result: spec_fn(Seq<EdgeModel>) -> Option<NetlistModel>,
) -> Option<NetlistModel> {
    match request {
        Some(request) => match certificates(request) {
            Some(edges) => result(edges),
            None => None,
        },
        None => None,
    }
}

/// The netlist after moving the register at `index` back across a lookup
/// table.
#[verifier::opaque]
pub open spec fn backward_lut_move(
    netlist: NetlistModel,
    index: int,
    certificates: spec_fn(RequestModel) -> Option<Seq<EdgeModel>>,
) -> Option<NetlistModel> {
    certified_move(
        backward_lut_request(netlist, index),
        certificates,
        |edges: Seq<EdgeModel>| backward_lut_result(netlist, index, edges),
    )
}

fn find_backward_lut(netlist: &Ecp5Netlist, register_index: usize) -> (sources: Option<
    (ResetRegister, usize),
>)
    ensures
        match sources {
            Some((register, lut)) => backward_lut_sources(netlist@, register_index as int) == Some(
                (register, lut as int),
            ) && register_index < netlist.cells@.len() && lut < netlist.cells@.len()
                && netlist@.cells[lut as int] is Lut4,
            None => backward_lut_sources(netlist@, register_index as int) is None,
        },
{
    if register_index >= netlist.cells.len() {
        return None;
    }
    let register: ResetRegister = match as_reset_register(&netlist.cells[register_index]) {
        Some(register) => register,
        None => return None,
    };
    let data: u32 = match register.data {
        Bit::Wire(data) => data,
        _ => return None,
    };
    if mapped_wire_is_clock_or_reset(netlist, register.output) {
        return None;
    }
    match find_lut(&netlist.cells, data) {
        Some(lut) => {
            proof {
                lemma_lut_from(netlist@.cells, data, 0);
                assert(netlist@.cells[lut as int] == netlist.cells@[lut as int]@);
            }
            if let Ecp5Cell::Lut4 { inputs, .. } = &netlist.cells[lut] {
                let wires = distinct_wires(&pins_to_vec(inputs));
                if wires.len() == 0 {
                    return None;
                }
            }
            Some((register, lut))
        },
        None => None,
    }
}

/// Four pins as a vector.
pub fn pins_to_vec(pins: &[Bit; 4]) -> (bits: Vec<Bit>)
    ensures
        bits@ == pins@,
{
    let mut bits: Vec<Bit> = Vec::new();
    bits.push(pins[0]);
    bits.push(pins[1]);
    bits.push(pins[2]);
    bits.push(pins[3]);
    assert(bits@ =~= pins@);
    bits
}

fn request_backward_lut(netlist: &Ecp5Netlist, register_index: usize) -> (request: Option<
    RetimingRequest,
>)
    ensures
        match request {
            Some(request) => backward_lut_request(netlist@, register_index as int) == Some(
                request@,
            ),
            None => backward_lut_request(netlist@, register_index as int) is None,
        },
{
    let (register, lut) = match find_backward_lut(netlist, register_index) {
        Some(sources) => sources,
        None => return None,
    };
    assert(netlist@.cells[lut as int] == netlist.cells@[lut as int]@);
    if let Ecp5Cell::Lut4 { inputs, init, .. } = &netlist.cells[lut] {
        let wires = distinct_wires(&pins_to_vec(inputs));
        proof {
            lemma_sorted_wires(inputs@);
        }
        let mut resets: Vec<Option<bool>> = Vec::new();
        for i in 0..wires.len()
            invariant
                resets@.len() == i,
                forall|j: int| 0 <= j < i ==> resets@[j] is None,
        {
            resets.push(None);
        }
        let request = make_lut_request(
            retiming_domain(register.clock, register.edge, register.reset),
            *inputs,
            *init,
            &wires,
            &resets,
            Some(register.reset.value),
            1,
        );
        assert(reset_lists(resets@) =~= Seq::new(wires@.len(), |i: int| Seq::<bool>::empty()));
        return Some(request);
    }
    None
}

fn shift_pin(bit: Bit, wires: &Vec<u32>, first: u32) -> (shifted: Bit)
    requires
        first + wires@.len() <= u32::MAX,
    ensures
        shifted == shifted_pin(bit, wires@, first),
{
    match bit {
        Bit::Wire(wire) => Bit::Wire(first + index_of_wire(wires, wire) as u32),
        _ => bit,
    }
}

fn covers_inputs(edges: &Vec<RetimingEdge>, count: usize) -> (covered: bool)
    ensures
        covered == covers(edge_models(edges@), count as nat),
{
    if edges.len() < count {
        return false;
    }
    for i in 0..count
        invariant
            count <= edges@.len(),
            forall|j: int|
                0 <= j < i ==> (#[trigger] edge_models(edges@)[j]).reset_values.len() > 0,
    {
        assert(edge_models(edges@)[i as int] == edges@[i as int]@);
        if edges[i].reset_values.len() == 0 {
            return false;
        }
    }
    true
}

/// Moves the register at `register_index` back across the lookup table behind
/// its data input, given the certified edges.
pub fn backward_retime_lut_with(
    netlist: &Ecp5Netlist,
    register_index: usize,
    edges: &Vec<RetimingEdge>,
) -> (moved: Option<Ecp5Netlist>)
    ensures
        netlist_model(moved) == backward_lut_result(
            netlist@,
            register_index as int,
            edge_models(edges@),
        ),
{
    let (register, lut) = match find_backward_lut(netlist, register_index) {
        Some(sources) => sources,
        None => return None,
    };
    let ghost model = netlist@;
    let ghost answer = edge_models(edges@);
    assert(model.cells[lut as int] == netlist.cells@[lut as int]@);
    assert(model.cells[register_index as int] == netlist.cells@[register_index as int]@);
    let (inputs, init, output): ([Bit; 4], u16, u32) = match &netlist.cells[lut] {
        Ecp5Cell::Lut4 { inputs, init, output, .. } => (*inputs, *init, *output),
        _ => return None,
    };
    let wires = distinct_wires(&pins_to_vec(&inputs));
    proof {
        lemma_sorted_wires(inputs@);
    }
    let first: u32 = match maximum_mapped_wire(netlist) {
        Some(wire) => {
            if (u32::MAX - wire) as usize <= wires.len() {
                return None;
            }
            wire + 1
        },
        None => return None,
    };
    if !covers_inputs(edges, wires.len()) {
        return None;
    }
    let mut candidate = netlist.clone();
    candidate.equivalence_proof.certified_primitive_moves =
    candidate.equivalence_proof.certified_primitive_moves.saturating_add(1);
    let removed = candidate.cells.remove(register_index);
    let ghost kept = model.cells.remove(register_index as int);
    assert(cell_models(candidate.cells@) =~= kept);
    let ghost name = model.cells[register_index as int].cell_name();
    let ghost added = Seq::new(
        wires@.len(),
        |i: int|
            backward_lut_register(
                name,
                register,
                wires@[i],
                (first + i) as u32,
                answer[i].reset_values[0],
            ),
    );
    for i in 0..wires.len()
        invariant
            register_index < netlist.cells@.len(),
            name == netlist.cells@[register_index as int]@.cell_name(),
            answer == edge_models(edges@),
            first + wires@.len() <= u32::MAX,
            added.len() == wires@.len(),
            forall|j: int|
                0 <= j < wires@.len() ==> #[trigger] added[j] == backward_lut_register(
                    name,
                    register,
                    wires@[j],
                    (first + j) as u32,
                    answer[j].reset_values[0],
                ),
            covers(answer, wires@.len()),
            candidate@ == (NetlistModel {
                cells: cell_models(candidate.cells@),
                proof: one_more_move(model.proof),
                ..model
            }),
            cell_models(candidate.cells@) == kept + added.take(i as int),
    {
        let ghost prior = cell_models(candidate.cells@);
        assert(answer[i as int] == edges@[i as int]@);
        let mut cell_name = "retime_".to_owned();
        cell_name.append(mapped_cell_name(&netlist.cells[register_index]).as_str());
        cell_name.append("_");
        cell_name.append(decimal(wires[i] as u128).as_str());
        let mut reset: Reset = register.reset;
        reset.value = edges[i].reset_values[0];
        let cell = Ecp5Cell::FlipFlop {
            name: cell_name,
            data: Bit::Wire(wires[i]),
            output: first + i as u32,
            clock: register.clock,
            edge: register.edge,
            enable: register.enable,
            reset: Some(reset),
        };
        assert(cell@ == added[i as int]);
        candidate.cells.push(cell);
        assert(cell_models(candidate.cells@) =~= prior.push(added[i as int]));
        assert(added.take(i + 1) =~= added.take(i as int).push(added[i as int]));
    }
    assert(added.take(added.len() as int) =~= added);
    let ghost cells = kept + added;
    let replaced: Option<usize> = if mapped_wire_fanout(netlist, output) == 1 {
        if register_index < lut {
            Some(lut - 1)
        } else {
            Some(lut)
        }
    } else {
        None
    };
    let base = join("retime_", mapped_cell_name(&netlist.cells[lut]).as_str());
    let retimed = Ecp5Cell::Lut4 {
        name: unique_cell_name(base.as_str(), &candidate.cells, replaced),
        inputs: [
            shift_pin(inputs[0], &wires, first),
            shift_pin(inputs[1], &wires, first),
            shift_pin(inputs[2], &wires, first),
            shift_pin(inputs[3], &wires, first),
        ],
        output: register.output,
        init,
    };
    let ghost lut_model = retimed@;
    assert(register_index != lut);
    proof {
        assert(lut_model->Lut4_inputs =~= shifted_pins(inputs, wires@, first));
    }
    match replaced {
        Some(at) => {
            candidate.cells.set(at, retimed);
            assert(cell_models(candidate.cells@) =~= cells.update(at as int, lut_model));
        },
        None => {
            candidate.cells.push(retimed);
            assert(cell_models(candidate.cells@) =~= cells.push(lut_model));
        },
    }
    assert(candidate@ =~= (NetlistModel {
        cells: backward_lut_cells(
            model,
            register_index as int,
            register,
            lut as int,
            first,
            answer,
        ),
        proof: one_more_move(model.proof),
        ..model
    }));
    prune_unobservable_retiming_cells(&mut candidate);
    Some(candidate)
}

/// Moves the register at `register_index` back across the lookup table behind
/// its data input, where the move can be certified.
pub fn backward_retime_lut<C: Fn(&RetimingRequest) -> Option<Vec<RetimingEdge>>>(
    netlist: &Ecp5Netlist,
    register_index: usize,
    certify: &C,
) -> (moved: Option<Ecp5Netlist>)
    requires
        is_certifier(*certify),
    ensures
        netlist_model(moved) == backward_lut_move(
            netlist@,
            register_index as int,
            oracle(*certify),
        ),
{
    proof {
        reveal(backward_lut_move);
    }
    match request_backward_lut(netlist, register_index) {
        Some(request) => match ask(certify, &request) {
            Some(edges) => backward_retime_lut_with(netlist, register_index, &edges),
            None => None,
        },
        None => None,
    }
}

/// The reset values behind `wires`.
pub open spec fn source_resets(netlist: NetlistModel, wires: Seq<u32>) -> Seq<Seq<bool>> {
    Seq::new(wires.len(), |i: int| seq![source_register(netlist, wires[i]).reset.value])
}

/// Whether the registers in front of the lookup table at `index` can move
/// across it.
pub open spec fn can_move_forward(netlist: NetlistModel, index: int) -> bool {
    0 <= index < netlist.cells.len() && netlist.cells[index] is Lut4 && has_registered_inputs(
        netlist,
        netlist.cells[index]->Lut4_inputs@,
    )
}

/// The request to move the registers in front of the lookup table at `index`
/// across it.
pub open spec fn forward_lut_request(netlist: NetlistModel, index: int) -> Option<RequestModel> {
    if can_move_forward(netlist, index) {
        let inputs = netlist.cells[index]->Lut4_inputs;
        let wires = sorted_wires(inputs@);
        let lead = source_register(netlist, wires[0]);
        Some(
            lut_request(
                domain_model(lead.clock, lead.edge, lead.reset),
                inputs,
                netlist.cells[index]->Lut4_init,
                wires,
                source_resets(netlist, wires),
                seq![],
                (-1) as i32,
            ),
        )
    } else {
        None
    }
}

/// The cells after a forward move across the lookup table at `index`, before
/// pruning. The table drives the new wire `output`; its name is looked up once
/// the moved registers are gone.
pub open spec fn forward_lut_cells(
    netlist: NetlistModel,
    index: int,
    output: u32,
    value: bool,
) -> Option<Seq<CellModel>> {
    let name = netlist.cells[index].cell_name();
    let inputs = netlist.cells[index]->Lut4_inputs;
    let wires = sorted_wires(inputs@);
    let lead = source_register(netlist, wires[0]);
    let cells = without(netlist.cells, register_indices(netlist, wires));
    match first_named(cells, name) {
        Some(at) => Some(
            cells.update(
                at,
                CellModel::Lut4 {
                    name: "forward_"@ + name,
                    inputs: unregistered_pins(netlist, wires, inputs),
                    output,
                    init: netlist.cells[index]->Lut4_init,
                },
            ).push(
                CellModel::FlipFlop {
                    name: "forward_ff_"@ + name,
                    data: Bit::Wire(output),
                    output: netlist.cells[index]->Lut4_output,
                    clock: lead.clock,
                    edge: lead.edge,
                    enable: lead.enable,
                    reset: Some(Reset { value, ..lead.reset }),
                },
            ),
        ),
        None => None,
    }
}

/// The netlist after moving the registers in front of the lookup table at
/// `index` across it, given the certified edges.
pub open spec fn forward_lut_result(
    netlist: NetlistModel,
    index: int,
    edges: Seq<EdgeModel>,
) -> Option<NetlistModel> {
    if can_move_forward(netlist, index) {
        let count = sorted_wires(netlist.cells[index]->Lut4_inputs@).len() as int;
        match (reset_between(edges, count, count + 1), maximum_wire(netlist)) {
            (Some(value), Some(wire)) => if wire < u32::MAX {
                match forward_lut_cells(netlist, index, (wire + 1) as u32, value) {
                    Some(cells) => Some(
                        pruned(
                            NetlistModel { cells, proof: one_more_move(netlist.proof), ..netlist },
                        ),
                    ),
                    None => None,
                }
            } else {
                None
            },
            _ => None,
        }
    } else {
        None
    }
}

/// The netlist after moving the registers in front of the lookup table at
/// `index` across it.
#[verifier::opaque]
pub open spec fn forward_lut_move(
    netlist: NetlistModel,
    index: int,
    certificates: spec_fn(RequestModel) -> Option<Seq<EdgeModel>>,
) -> Option<NetlistModel> {
    certified_move(
        forward_lut_request(netlist, index),
        certificates,
        |edges: Seq<EdgeModel>| forward_lut_result(netlist, index, edges),
    )
}

fn find_forward_lut(netlist: &Ecp5Netlist, lut_index: usize) -> (found: Option<RegisteredInputs>)
    ensures
        match found {
            Some(found) => can_move_forward(netlist@, lut_index as int) && lut_index
                < netlist.cells@.len() && found.describes(
                netlist@,
                netlist@.cells[lut_index as int]->Lut4_inputs@,
            ),
            None => !can_move_forward(netlist@, lut_index as int),
        },
{
    if lut_index >= netlist.cells.len() {
        return None;
    }
    assert(netlist@.cells[lut_index as int] == netlist.cells@[lut_index as int]@);
    match &netlist.cells[lut_index] {
        Ecp5Cell::Lut4 { inputs, .. } => find_registered_inputs(netlist, &pins_to_vec(inputs)),
        _ => None,
    }
}

fn request_forward_lut(netlist: &Ecp5Netlist, lut_index: usize) -> (request: Option<
    RetimingRequest,
>)
    ensures
        match request {
            Some(request) => forward_lut_request(netlist@, lut_index as int) == Some(request@),
            None => forward_lut_request(netlist@, lut_index as int) is None,
        },
{
    let found = match find_forward_lut(netlist, lut_index) {
        Some(found) => found,
        None => return None,
    };
    assert(netlist@.cells[lut_index as int] == netlist.cells@[lut_index as int]@);
    let ghost bits = netlist@.cells[lut_index as int]->Lut4_inputs@;
    proof {
        lemma_sorted_wires(bits);
    }
    if let Ecp5Cell::Lut4 { inputs, init, .. } = &netlist.cells[lut_index] {
        let mut resets: Vec<Option<bool>> = Vec::new();
        for i in 0..found.wires.len()
            invariant
                found.describes(netlist@, bits),
                resets@.len() == i,
                forall|j: int|
                    0 <= j < i ==> resets@[j] == Some(
                        source_register(netlist@, found.wires@[j]).reset.value,
                    ),
        {
            resets.push(Some(found.registers[i].reset.value));
        }
        let lead: ResetRegister = found.registers[0];
        let request = make_lut_request(
            retiming_domain(lead.clock, lead.edge, lead.reset),
            *inputs,
            *init,
            &found.wires,
            &resets,
            None,
            -1,
        );
        assert(reset_lists(resets@) =~= source_resets(netlist@, found.wires@));
        return Some(request);
    }
    None
}

/// Moves the registers in front of the lookup table at `lut_index` across it,
/// given the certified edges.
pub fn forward_retime_lut_with(
    netlist: &Ecp5Netlist,
    lut_index: usize,
    edges: &Vec<RetimingEdge>,
) -> (moved: Option<Ecp5Netlist>)
    ensures
        netlist_model(moved) == forward_lut_result(
            netlist@,
            lut_index as int,
            edge_models(edges@),
        ),
{
    let found = match find_forward_lut(netlist, lut_index) {
        Some(found) => found,
        None => return None,
    };
    let ghost model = netlist@;
    assert(model.cells[lut_index as int] == netlist.cells@[lut_index as int]@);
    let ghost bits = model.cells[lut_index as int]->Lut4_inputs@;
    let (inputs, init, lut_output): ([Bit; 4], u16, u32) = match &netlist.cells[lut_index] {
        Ecp5Cell::Lut4 { inputs, init, output, .. } => (*inputs, *init, *output),
        _ => return None,
    };
    proof {
        lemma_sorted_wires(bits);
    }
    let count: usize = found.wires.len();
    let value: bool = match edge_reset_between(edges, count, count + 1) {
        Some(value) => value,
        None => return None,
    };
    let output: u32 = match maximum_mapped_wire(netlist) {
        Some(wire) => {
            if wire == u32::MAX {
                return None;
            }
            wire + 1
        },
        None => return None,
    };
    let name = mapped_cell_name(&netlist.cells[lut_index]);
    let mut candidate = netlist.clone();
    candidate.equivalence_proof.certified_primitive_moves =
    candidate.equivalence_proof.certified_primitive_moves.saturating_add(1);
    remove_cells(&mut candidate.cells, &found.indices);
    let ghost cells = cell_models(candidate.cells@);
    let at: usize = match position_of_name(&candidate.cells, name) {
        Some(at) => at,
        None => return None,
    };
    let lead: ResetRegister = found.registers[0];
    let table = Ecp5Cell::Lut4 {
        name: join("forward_", name.as_str()),
        inputs: found.unregister_pins(&inputs, Ghost(model), Ghost(bits)),
        output,
        init,
    };
    let ghost table_model = table@;
    candidate.cells.set(at, table);
    assert(cell_models(candidate.cells@) =~= cells.update(at as int, table_model));
    let mut reset: Reset = lead.reset;
    reset.value = value;
    let register = Ecp5Cell::FlipFlop {
        name: join("forward_ff_", name.as_str()),
        data: Bit::Wire(output),
        output: lut_output,
        clock: lead.clock,
        edge: lead.edge,
        enable: lead.enable,
        reset: Some(reset),
    };
    let ghost register_model = register@;
    candidate.cells.push(register);
    assert(cell_models(candidate.cells@) =~= cells.update(at as int, table_model).push(
        register_model,
    ));
    assert(forward_lut_cells(model, lut_index as int, output, value) == Some(
        cell_models(candidate.cells@),
    ));
    assert(candidate@ =~= (NetlistModel {
        cells: cell_models(candidate.cells@),
        proof: one_more_move(model.proof),
        ..model
    }));
    prune_unobservable_retiming_cells(&mut candidate);
    Some(candidate)
}

/// Moves the registers in front of the lookup table at `lut_index` across it,
/// where the move can be certified.
pub fn forward_retime_lut<C: Fn(&RetimingRequest) -> Option<Vec<RetimingEdge>>>(
    netlist: &Ecp5Netlist,
    lut_index: usize,
    certify: &C,
) -> (moved: Option<Ecp5Netlist>)
    requires
        is_certifier(*certify),
    ensures
        netlist_model(moved) == forward_lut_move(netlist@, lut_index as int, oracle(*certify)),
{
    proof {
        reveal(forward_lut_move);
    }
    match request_forward_lut(netlist, lut_index) {
        Some(request) => match ask(certify, &request) {
            Some(edges) => forward_retime_lut_with(netlist, lut_index, &edges),
            None => None,
        },
        None => None,
    }
}

} // verus!
