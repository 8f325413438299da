//! Certified moves of registers across one carry primitive.

use vstd::prelude::*;

use crate::cells::{mapped_cell_name, Bit, CellModel, Ecp5Cell, Reset};
use crate::certify::{
    ask, domain_model, edge_models, edge_reset_between, edge_reset_from, is_certifier,
    make_sink_vertex, make_wire_vertex, oracle, reset_between, reset_from, retiming_domain,
    sink_vertex, vertex_models, wire_vertex, EdgeModel, LogicFunction, RequestModel,
    RetimingEdge, RetimingRequest, RetimingVertex, VertexModel,
};
use crate::netlist::{
    cell_models, first_named, mapped_wire_fanout, maximum_mapped_wire, maximum_wire,
    position_of_name, prune_unobservable_retiming_cells, pruned, unique_cell_name, unique_name,
    wire_fanout, Ecp5Netlist, NetlistModel,
};
use crate::registered::{
    find_registered_inputs, has_registered_inputs, register_indices, remove_cells, source_register,
    unregistered, unregistered_pins, without, RegisteredInputs,
};
use crate::retime_lut::{
    as_reset_register, backward_lut_move, backward_retime_lut, certified_move, index_after_removal, is_clock_or_reset,
    mapped_wire_is_clock_or_reset, netlist_model, one_more_move, reset_list, reset_register,
    ResetRegister,
};
use crate::text::{decimal, decimal_text, join};
use crate::wires::{
    assigned, assignments, carry_slice, compute_pin_index, count_assignments, pin_index, sorted_wires,
    table_bit, table_of, test_assigned, test_table_bit,
};

verus! {

/// The output of a carry primitive that a register reads.
#[derive(Clone, Copy, Debug, Eq, PartialEq, Structural)]
pub enum CcuRetimeOutput {
    /// Sum of the first slice.
    Sum0,
    /// Sum of the second slice.
    Sum1,
    /// Carry output.
    Carry,
}

/// The input of a carry primitive that a boundary vertex stands for.
#[derive(Clone, Copy, Debug, Eq, PartialEq, Structural)]
pub enum CcuInputLocation {
    /// A pin of a slice.
    Pin {
        /// Slice of the pin.
        slice: usize,
        /// Position within the slice.
        pin: usize,
    },
    /// The carry input.
    CarryIn,
}

/// Where a slice gets its carry from.
#[derive(Clone, Copy, Debug, Eq, PartialEq, Structural)]
pub enum CcuCarrySource {
    /// From outside the primitive.
    External(Bit, CcuInputLocation),
    /// From the vertex of the first slice's carry.
    Internal(usize),
}

/// A value that a slice reads.
#[derive(Clone, Copy, Debug, Eq, PartialEq, Structural)]
pub enum CcuLogicValue {
    /// A constant.
    Constant(bool),
    /// An input of the slice's function.
    Input(usize),
}

/// A boundary vertex and the input that it stands for.
#[derive(Clone, Copy, Debug, Eq, PartialEq, Structural)]
pub struct CcuBoundary {
    /// The vertex.
    pub vertex: usize,
    /// The wire that it stands for.
    pub bit: Bit,
    /// The input that it stands for.
    pub location: CcuInputLocation,
}

/// A source of a slice's function and the reset of the register behind it.
#[derive(Clone, Copy, Debug, Eq, PartialEq, Structural)]
pub struct CcuSource {
    /// The producing vertex.
    pub vertex: usize,
    /// Reset value of the register on the edge, if there is one.
    pub reset: Option<bool>,
}

/// The value of a slice input under an assignment.
pub open spec fn logic_value(value: CcuLogicValue, assignment: u64) -> bool {
    match value {
        CcuLogicValue::Constant(value) => value,
        CcuLogicValue::Input(input) => assigned(assignment, input as int),
    }
}

/// The value of a slice input under an assignment.
pub fn ccu_logic_value(value: CcuLogicValue, assignment: u64) -> (out: bool)
    requires
        value matches CcuLogicValue::Input(input) ==> input < 64,
    ensures
        out == logic_value(value, assignment),
{
    match value {
        CcuLogicValue::Constant(value) => value,
        CcuLogicValue::Input(input) => test_assigned(assignment, input),
    }
}

/// The sum or the carry of a slice whose inputs have the given values under an
/// assignment.
pub open spec fn slice_value(
    inputs: [CcuLogicValue; 4],
    carry: CcuLogicValue,
    init: u16,
    carry_output: bool,
    assignment: u64,
) -> bool {
    carry_slice(
        init,
        logic_value(inputs[0], assignment),
        logic_value(inputs[1], assignment),
        logic_value(inputs[2], assignment),
        logic_value(inputs[3], assignment),
        logic_value(carry, assignment),
        carry_output,
    )
}

/// The function of a slice's sum or carry.
pub open spec fn slice_function(
    inputs: [CcuLogicValue; 4],
    carry: CcuLogicValue,
    init: u16,
    carry_output: bool,
    input_count: nat,
) -> LogicFunction {
    LogicFunction {
        inputs: input_count as u8,
        truth_table: table_of(
            |assignment: u64| slice_value(inputs, carry, init, carry_output, assignment),
            assignments(input_count),
        ) as u64,
    }
}

proof fn lemma_small_tables(count: nat)
    ensures
        count <= 5 ==> assignments(count) <= 32,
        count <= 32 ==> assignments(count) <= 0x1_0000_0000,
    decreases count,
{
    reveal_with_fuel(assignments, 6);
    if 5 < count <= 32 {
        lemma_doubling(count);
    }
}

proof fn lemma_doubling(count: nat)
    requires
        count <= 32,
    ensures
        assignments(count) <= 0x1_0000_0000,
{
    reveal_with_fuel(assignments, 33);
}

/// The function of a slice's sum or carry.
pub fn ccu_logic_function(
    inputs: [CcuLogicValue; 4],
    carry: CcuLogicValue,
    init: u16,
    carry_output: bool,
    input_count: usize,
) -> (function: LogicFunction)
    requires
        input_count <= 5,
        forall|i: int| 0 <= i < 4 ==> ((#[trigger] inputs[i]) matches CcuLogicValue::Input(input)
            ==> input < 5),
        carry matches CcuLogicValue::Input(input) ==> input < 5,
    ensures
        function == slice_function(inputs, carry, init, carry_output, input_count as nat),
{
    let count: u64 = count_assignments(input_count);
    let ghost value = |assignment: u64|
        slice_value(inputs, carry, init, carry_output, assignment);
    let mut truth_table: u64 = 0;
    let mut weight: u64 = 1;
    proof {
        lemma_small_tables(input_count as nat);
    }
    let mut assignment: u64 = 0;
    while assignment < count
        invariant
            count <= 32,
            assignment <= count,
            inputs[0] matches CcuLogicValue::Input(input) ==> input < 5,
            inputs[1] matches CcuLogicValue::Input(input) ==> input < 5,
            inputs[2] matches CcuLogicValue::Input(input) ==> input < 5,
            inputs[3] matches CcuLogicValue::Input(input) ==> input < 5,
            carry matches CcuLogicValue::Input(input) ==> input < 5,
            value == (|assignment: u64|
                slice_value(inputs, carry, init, carry_output, assignment)),
            weight == assignments(assignment as nat),
            weight <= 0x1_0000_0000,
            truth_table == table_of(value, assignment as nat),
            truth_table < weight,
        decreases count - assignment,
    {
        let a = ccu_logic_value(inputs[0], assignment);
        let b = ccu_logic_value(inputs[1], assignment);
        let c = ccu_logic_value(inputs[2], assignment);
        let d = ccu_logic_value(inputs[3], assignment);
        let carry_in = ccu_logic_value(carry, assignment);
        let lut4 = test_table_bit(init, compute_pin_index(a, b, c, d));
        let lut2 = test_table_bit(init, compute_pin_index(a, b, false, false));
        let out: bool = if carry_output {
            if lut4 {
                carry_in
            } else {
                lut2
            }
        } else {
            lut4 != carry_in
        };
        proof {
            reveal(carry_slice);
        }
        assert(out == value(assignment));
        if out {
            truth_table = truth_table + weight;
        }
        proof {
            lemma_small_tables((assignment + 1) as nat);
        }
        weight = weight * 2;
        assignment = assignment + 1;
    }
    LogicFunction { inputs: input_count as u8, truth_table }
}

/// The reset value of the register behind `wire`, at or after `from`.
pub open spec fn known_reset_from(
    resets: Seq<(u32, bool)>,
    wire: u32,
    from: int,
) -> Option<bool>
    decreases resets.len() - from,
{
    if from < 0 || from >= resets.len() {
        None
    } else if resets[from].0 == wire {
        Some(resets[from].1)
    } else {
        known_reset_from(resets, wire, from + 1)
    }
}

fn find_known_reset(resets: &Vec<(u32, bool)>, wire: u32) -> (value: Option<bool>)
    ensures
        value == known_reset_from(resets@, wire, 0),
{
    let mut i: usize = 0;
    while i < resets.len()
        invariant
            i <= resets@.len(),
            known_reset_from(resets@, wire, 0) == known_reset_from(resets@, wire, i as int),
        decreases resets@.len() - i,
    {
        if resets[i].0 == wire {
            return Some(resets[i].1);
        }
        i += 1;
    }
    None
}

/// A graph of a carry primitive under construction.
#[verifier::ext_equal]
pub struct CcuGraphModel {
    pub vertices: Seq<VertexModel>,
    pub edges: Seq<EdgeModel>,
    pub boundaries: Seq<CcuBoundary>,
    pub logic_vertices: Seq<usize>,
}

/// The inputs of one slice under construction.
#[verifier::ext_equal]
pub struct SliceModel {
    pub vertices: Seq<VertexModel>,
    pub boundaries: Seq<CcuBoundary>,
    pub sources: Seq<CcuSource>,
}

/// `slice` with one more input: a wire gets a boundary vertex, a constant does
/// not.
pub open spec fn with_input(
    slice: SliceModel,
    bit: Bit,
    location: CcuInputLocation,
    resets: Seq<(u32, bool)>,
) -> SliceModel {
    match bit {
        Bit::Wire(wire) => SliceModel {
            vertices: slice.vertices.push(wire_vertex(wire)),
            boundaries: slice.boundaries.push(
                CcuBoundary { vertex: slice.vertices.len() as usize, bit, location },
            ),
            sources: slice.sources.push(
                CcuSource {
                    vertex: slice.vertices.len() as usize,
                    reset: known_reset_from(resets, wire, 0),
                },
            ),
        },
        _ => slice,
    }
}

/// The value that one more input of `slice` has.
pub open spec fn input_value(slice: SliceModel, bit: Bit) -> CcuLogicValue {
    match bit {
        Bit::Zero => CcuLogicValue::Constant(false),
        Bit::One => CcuLogicValue::Constant(true),
        Bit::Wire(_) => CcuLogicValue::Input(slice.sources.len() as usize),
    }
}

/// `slice` with its carry input.
pub open spec fn with_carry(
    slice: SliceModel,
    carry: CcuCarrySource,
    inject: bool,
    resets: Seq<(u32, bool)>,
) -> SliceModel {
    if inject {
        slice
    } else {
        match carry {
            CcuCarrySource::External(bit, location) => with_input(slice, bit, location, resets),
            CcuCarrySource::Internal(vertex) => SliceModel {
                sources: slice.sources.push(CcuSource { vertex, reset: None }),
                ..slice
            },
        }
    }
}

/// The value of the carry input of `slice`.
pub open spec fn carry_value(
    slice: SliceModel,
    carry: CcuCarrySource,
    inject: bool,
) -> CcuLogicValue {
    if inject {
        CcuLogicValue::Constant(false)
    } else {
        match carry {
            CcuCarrySource::External(bit, _) => input_value(slice, bit),
            CcuCarrySource::Internal(_) => CcuLogicValue::Input(slice.sources.len() as usize),
        }
    }
}

/// The slice of `graph` with its first `count` pins.
pub open spec fn slice_with_pins(
    graph: CcuGraphModel,
    pins: [Bit; 4],
    slice: usize,
    resets: Seq<(u32, bool)>,
    count: nat,
) -> SliceModel
    decreases count,
{
    if count == 0 {
        SliceModel { vertices: graph.vertices, boundaries: graph.boundaries, sources: seq![] }
    } else {
        let pin = (count - 1) as nat;
        with_input(
            slice_with_pins(graph, pins, slice, resets, pin),
            pins[pin as int],
            CcuInputLocation::Pin { slice, pin: pin as usize },
            resets,
        )
    }
}

/// The edges from `sources` to `vertex`.
pub open spec fn source_edges(sources: Seq<CcuSource>, vertex: int) -> Seq<EdgeModel> {
    Seq::new(
        sources.len(),
        |i: int|
            EdgeModel {
                source: sources[i].vertex as int,
                target: vertex,
                reset_values: reset_list(sources[i].reset),
            },
    )
}

/// `graph` with the vertex of one slice's sum or carry and the boundary
/// vertices that it reads.
pub open spec fn with_logic(
    graph: CcuGraphModel,
    pins: [Bit; 4],
    carry: CcuCarrySource,
    init: u16,
    inject: bool,
    carry_output: bool,
    slice: usize,
    resets: Seq<(u32, bool)>,
) -> CcuGraphModel {
    let s0 = slice_with_pins(graph, pins, slice, resets, 0);
    let s1 = slice_with_pins(graph, pins, slice, resets, 1);
    let s2 = slice_with_pins(graph, pins, slice, resets, 2);
    let s3 = slice_with_pins(graph, pins, slice, resets, 3);
    let s4 = slice_with_pins(graph, pins, slice, resets, 4);
    let s5 = with_carry(s4, carry, inject, resets);
    let function = slice_function(
        [
            input_value(s0, pins[0]),
            input_value(s1, pins[1]),
            input_value(s2, pins[2]),
            input_value(s3, pins[3]),
        ],
        carry_value(s4, carry, inject),
        init,
        carry_output,
        s5.sources.len(),
    );
    let name = if carry_output {
        "carry"@
    } else {
        "sum"@
    };
    CcuGraphModel {
        vertices: s5.vertices.push(VertexModel { name, boundary: false, function }),
        edges: graph.edges + source_edges(s5.sources, s5.vertices.len() as int),
        boundaries: s5.boundaries,
        logic_vertices: graph.logic_vertices.push(s5.vertices.len() as usize),
    }
}

/// The vertex that `with_logic` added last.
pub open spec fn last_vertex(graph: CcuGraphModel) -> int {
    graph.vertices.len() - 1
}

/// A graph without vertices.
pub open spec fn empty_graph() -> CcuGraphModel {
    CcuGraphModel {
        vertices: seq![],
        edges: seq![],
        boundaries: seq![],
        logic_vertices: seq![],
    }
}

/// `graph` with a boundary vertex that reads `logic`.
pub open spec fn with_sink(
    graph: CcuGraphModel,
    name: Seq<char>,
    logic: int,
    resets: Seq<bool>,
) -> CcuGraphModel {
    CcuGraphModel {
        vertices: graph.vertices.push(sink_vertex(name)),
        edges: graph.edges.push(
            EdgeModel {
                source: logic,
                target: graph.vertices.len() as int,
                reset_values: resets,
            },
        ),
        ..graph
    }
}

/// A graph of a carry primitive under construction.
pub struct CcuGraph {
    /// Vertices.
    pub vertices: Vec<RetimingVertex>,
    /// Edges.
    pub edges: Vec<RetimingEdge>,
    /// Boundary vertices of the primitive's inputs.
    pub boundaries: Vec<CcuBoundary>,
    /// Vertices of sums and carries.
    pub logic_vertices: Vec<usize>,
}

impl View for CcuGraph {
    type V = CcuGraphModel;

    open spec fn view(&self) -> CcuGraphModel {
        CcuGraphModel {
            vertices: vertex_models(self.vertices@),
            edges: edge_models(self.edges@),
            boundaries: self.boundaries@,
            logic_vertices: self.logic_vertices@,
        }
    }
}

fn reset_vec(value: Option<bool>) -> (values: Vec<bool>)
    ensures
        values@ == reset_list(value),
{
    let mut values: Vec<bool> = Vec::new();
    if let Some(value) = value {
        values.push(value);
    }
    assert(values@ =~= reset_list(value));
    values
}

impl CcuGraph {
    fn new() -> (graph: Self)
        ensures
            graph@ == empty_graph(),
    {
        let graph = CcuGraph {
            vertices: Vec::new(),
            edges: Vec::new(),
            boundaries: Vec::new(),
            logic_vertices: Vec::new(),
        };
        assert(graph@ =~= empty_graph());
        graph
    }

    fn append_ccu_external_input(
        &mut self,
        sources: &mut Vec<CcuSource>,
        bit: Bit,
        location: CcuInputLocation,
        resets: &Vec<(u32, bool)>,
    ) -> (value: CcuLogicValue)
        ensures
            ({
                let before = SliceModel {
                    vertices: old(self)@.vertices,
                    boundaries: old(self)@.boundaries,
                    sources: old(sources)@,
                };
                let after = with_input(before, bit, location, resets@);
                &&& final(self)@ == (CcuGraphModel {
                    vertices: after.vertices,
                    boundaries: after.boundaries,
                    ..old(self)@
                })
                &&& final(sources)@ == after.sources
                &&& value == input_value(before, bit)
            }),
    {
        match bit {
            Bit::Zero => CcuLogicValue::Constant(false),
            Bit::One => CcuLogicValue::Constant(true),
            Bit::Wire(wire) => {
                let ghost before = self@;
                let vertex: usize = self.vertices.len();
                let made = make_wire_vertex(wire);
                self.vertices.push(made);
                assert(self@.vertices =~= before.vertices.push(wire_vertex(wire)));
                self.boundaries.push(CcuBoundary { vertex, bit, location });
                let value = CcuLogicValue::Input(sources.len());
                sources.push(CcuSource { vertex, reset: find_known_reset(resets, wire) });
                value
            },
        }
    }

    /// Adds the vertex of one slice's sum or carry and the boundary vertices
    /// that it reads.
    pub fn append_ccu_logic_vertex(
        &mut self,
        pins: &[Bit; 4],
        carry: CcuCarrySource,
        init: u16,
        inject: bool,
        carry_output: bool,
        slice: usize,
        resets: &Vec<(u32, bool)>,
    ) -> (vertex: usize)
        ensures
            final(self)@ == with_logic(
                old(self)@,
                *pins,
                carry,
                init,
                inject,
                carry_output,
                slice,
                resets@,
            ),
            vertex == last_vertex(final(self)@),
    {
        let ghost graph = self@;
        let mut sources: Vec<CcuSource> = Vec::new();
        proof {
            reveal_with_fuel(slice_with_pins, 5);
        }
        let v0 = self.append_ccu_external_input(
            &mut sources,
            pins[0],
            CcuInputLocation::Pin { slice, pin: 0 },
            resets,
        );
        let v1 = self.append_ccu_external_input(
            &mut sources,
            pins[1],
            CcuInputLocation::Pin { slice, pin: 1 },
            resets,
        );
        let v2 = self.append_ccu_external_input(
            &mut sources,
            pins[2],
            CcuInputLocation::Pin { slice, pin: 2 },
            resets,
        );
        let v3 = self.append_ccu_external_input(
            &mut sources,
            pins[3],
            CcuInputLocation::Pin { slice, pin: 3 },
            resets,
        );
        let ghost s4 = slice_with_pins(graph, *pins, slice, resets@, 4);
        assert(self@.vertices == s4.vertices && self@.boundaries == s4.boundaries && sources@
            == s4.sources);
        let carry_input: CcuLogicValue = if inject {
            CcuLogicValue::Constant(false)
        } else {
            match carry {
                CcuCarrySource::External(bit, location) => self.append_ccu_external_input(
                    &mut sources,
                    bit,
                    location,
                    resets,
                ),
                CcuCarrySource::Internal(vertex) => {
                    let value = CcuLogicValue::Input(sources.len());
                    sources.push(CcuSource { vertex, reset: None });
                    value
                },
            }
        };
        let ghost s5 = with_carry(s4, carry, inject, resets@);
        assert(self@.vertices == s5.vertices && self@.boundaries == s5.boundaries && sources@
            == s5.sources);
        let function = ccu_logic_function(
            [v0, v1, v2, v3],
            carry_input,
            init,
            carry_output,
            sources.len(),
        );
        let vertex: usize = self.vertices.len();
        let ghost before = self@;
        let made = RetimingVertex {
            name: if carry_output {
                "carry".to_owned()
            } else {
                "sum".to_owned()
            },
            boundary: false,
            function,
        };
        let ghost made_model = made@;
        self.vertices.push(made);
        assert(self@.vertices =~= before.vertices.push(made_model));
        self.logic_vertices.push(vertex);
        for i in 0..sources.len()
            invariant
                self@.vertices == before.vertices.push(made_model),
                self@.boundaries == before.boundaries,
                self@.logic_vertices == before.logic_vertices.push(vertex),
                self@.edges == before.edges + source_edges(
                    sources@,
                    vertex as int,
                ).take(i as int),
        {
            let ghost prior = self@.edges;
            let edge = RetimingEdge {
                source: sources[i].vertex,
                target: vertex,
                reset_values: reset_vec(sources[i].reset),
            };
            let ghost edge_model = edge@;
            self.edges.push(edge);
            assert(self@.edges =~= prior.push(edge_model));
            let ghost all = source_edges(sources@, vertex as int);
            assert(edge_model == all[i as int]);
            assert(all.take(i + 1) =~= all.take(i as int).push(all[i as int]));
        }
        proof {
            let all = source_edges(sources@, vertex as int);
            assert(all.take(all.len() as int) =~= all);
            let expected = with_logic(
                graph,
                *pins,
                carry,
                init,
                inject,
                carry_output,
                slice,
                resets@,
            );
            let s0 = slice_with_pins(graph, *pins, slice, resets@, 0);
            let s1 = slice_with_pins(graph, *pins, slice, resets@, 1);
            let s2 = slice_with_pins(graph, *pins, slice, resets@, 2);
            let s3 = slice_with_pins(graph, *pins, slice, resets@, 3);
            assert([v0, v1, v2, v3] =~= [
                input_value(s0, pins[0]),
                input_value(s1, pins[1]),
                input_value(s2, pins[2]),
                input_value(s3, pins[3]),
            ]);
            assert(self@ =~= expected);
        }
        vertex
    }

    fn append_sink(&mut self, name: &str, logic: usize, reset: Option<bool>) -> (vertex: usize)
        ensures
            final(self)@ == with_sink(old(self)@, name@, logic as int, reset_list(reset)),
            vertex == old(self)@.vertices.len(),
    {
        let ghost before = self@;
        let vertex: usize = self.vertices.len();
        let made = make_sink_vertex(name);
        self.vertices.push(made);
        let edge = RetimingEdge {
            source: logic,
            target: vertex,
            reset_values: reset_vec(reset),
        };
        let ghost edge_model = edge@;
        self.edges.push(edge);
        assert(self@.vertices =~= before.vertices.push(sink_vertex(name@)));
        assert(self@.edges =~= before.edges.push(edge_model));
        vertex
    }
}

/// What a move reads from a carry primitive.
#[verifier::ext_equal]
pub struct CcuModel {
    pub name: Seq<char>,
    pub inputs: [[Bit; 4]; 2],
    pub carry_in: Bit,
    pub sums: [u32; 2],
    pub carry_out: u32,
    pub init: [u16; 2],
    pub inject: [bool; 2],
}

/// The carry primitive that `cell` is.
pub open spec fn ccu_of(cell: CellModel) -> CcuModel {
    CcuModel {
        name: cell->Ccu2c_name,
        inputs: cell->Ccu2c_inputs,
        carry_in: cell->Ccu2c_carry_in,
        sums: cell->Ccu2c_sums,
        carry_out: cell->Ccu2c_carry_out,
        init: cell->Ccu2c_init,
        inject: cell->Ccu2c_inject,
    }
}

/// The labels that give the vertices in `logic` the lag `lag` and all others
/// none.
pub open spec fn lag_labels(count: nat, logic: Seq<usize>, lag: i32) -> Seq<i32> {
    Seq::new(
        count,
        |i: int|
            if logic.contains(i as usize) {
                lag
            } else {
                0
            },
    )
}

/// The request to move registers across the logic vertices of `graph`.
pub open spec fn ccu_request(
    register: ResetRegister,
    graph: CcuGraphModel,
    lag: i32,
) -> RequestModel {
    RequestModel {
        domain: domain_model(register.clock, register.edge, register.reset),
        vertices: graph.vertices,
        edges: graph.edges,
        labels: lag_labels(graph.vertices.len(), graph.logic_vertices, lag),
    }
}

fn holds_vertex(values: &Vec<usize>, value: usize) -> (found: bool)
    ensures
        found == values@.contains(value),
{
    crate::registered::holds(values, value)
}

fn make_ccu_request(register: &ResetRegister, graph: CcuGraph, lag: i32) -> (request:
    RetimingRequest)
    ensures
        request@ == ccu_request(*register, graph@, lag),
{
    let mut labels: Vec<i32> = Vec::new();
    for i in 0..graph.vertices.len()
        invariant
            labels@ == lag_labels(graph@.vertices.len(), graph.logic_vertices@, lag).take(
                i as int,
            ),
    {
        let ghost all = lag_labels(graph@.vertices.len(), graph.logic_vertices@, lag);
        let label: i32 = if holds_vertex(&graph.logic_vertices, i) {
            lag
        } else {
            0
        };
        labels.push(label);
        assert(label == all[i as int]);
        assert(all.take(i + 1) =~= all.take(i as int).push(all[i as int]));
    }
    let request = RetimingRequest {
        domain: retiming_domain(register.clock, register.edge, register.reset),
        vertices: graph.vertices,
        edges: graph.edges,
        labels,
    };
    assert(request@ =~= ccu_request(*register, graph@, lag));
    request
}

/// Where the second slice gets its carry from.
pub open spec fn second_carry(ccu: CcuModel, carry_vertex: int) -> CcuCarrySource {
    if ccu.inject[1] {
        CcuCarrySource::External(Bit::Zero, CcuInputLocation::CarryIn)
    } else {
        CcuCarrySource::Internal(carry_vertex as usize)
    }
}

/// `graph` with a vertex of the first slice.
pub open spec fn with_first_slice(
    graph: CcuGraphModel,
    ccu: CcuModel,
    carry_output: bool,
    resets: Seq<(u32, bool)>,
) -> CcuGraphModel {
    with_logic(
        graph,
        ccu.inputs[0],
        CcuCarrySource::External(ccu.carry_in, CcuInputLocation::CarryIn),
        ccu.init[0],
        ccu.inject[0],
        carry_output,
        0,
        resets,
    )
}

/// `graph` with a vertex of the second slice.
pub open spec fn with_second_slice(
    graph: CcuGraphModel,
    ccu: CcuModel,
    carry_vertex: int,
    carry_output: bool,
    resets: Seq<(u32, bool)>,
) -> CcuGraphModel {
    with_logic(
        graph,
        ccu.inputs[1],
        second_carry(ccu, carry_vertex),
        ccu.init[1],
        ccu.inject[1],
        carry_output,
        1,
        resets,
    )
}

/// The graphs of a forward move, growing: the sum and the carry of the first
/// slice, then those of the second.
pub open spec fn forward_stage(ccu: CcuModel, resets: Seq<(u32, bool)>, stage: int) -> CcuGraphModel {
    let g1 = with_first_slice(empty_graph(), ccu, false, resets);
    let g2 = with_first_slice(g1, ccu, true, resets);
    let g3 = with_second_slice(g2, ccu, last_vertex(g2), false, resets);
    let g4 = with_second_slice(g3, ccu, last_vertex(g2), true, resets);
    if stage <= 1 {
        g1
    } else if stage == 2 {
        g2
    } else if stage == 3 {
        g3
    } else {
        g4
    }
}

/// The whole graph of a forward move.
pub open spec fn forward_graph(ccu: CcuModel, resets: Seq<(u32, bool)>) -> CcuGraphModel {
    let g4 = forward_stage(ccu, resets, 4);
    let g5 = with_sink(g4, "sum0"@, last_vertex(forward_stage(ccu, resets, 1)), seq![]);
    let g6 = with_sink(g5, "sum1"@, last_vertex(forward_stage(ccu, resets, 3)), seq![]);
    with_sink(g6, "carry"@, last_vertex(g4), seq![])
}

/// The pins of a carry primitive whose registers a forward move takes along.
/// An injected first slice does not read its carry input.
pub open spec fn moving_pins(ccu: CcuModel) -> Seq<Bit> {
    ccu.inputs[0]@ + ccu.inputs[1]@ + if ccu.inject[0] {
        seq![]
    } else {
        seq![ccu.carry_in]
    }
}

/// The wires and their registers' reset values.
pub open spec fn wire_resets(netlist: NetlistModel, wires: Seq<u32>) -> Seq<(u32, bool)> {
    Seq::new(wires.len(), |i: int| (wires[i], source_register(netlist, wires[i]).reset.value))
}

/// Whether the registers in front of the carry primitive at `index` can move
/// across it.
pub open spec fn ccu_can_move_forward(netlist: NetlistModel, index: int) -> bool {
    0 <= index < netlist.cells.len() && netlist.cells[index] is Ccu2c && has_registered_inputs(
        netlist,
        moving_pins(ccu_of(netlist.cells[index])),
    )
}

/// The request to move the registers in front of the carry primitive at
/// `index` across it.
pub open spec fn forward_ccu_request(netlist: NetlistModel, index: int) -> Option<RequestModel> {
    if ccu_can_move_forward(netlist, index) {
        let ccu = ccu_of(netlist.cells[index]);
        let wires = sorted_wires(moving_pins(ccu));
        Some(
            ccu_request(
                source_register(netlist, wires[0]),
                forward_graph(ccu, wire_resets(netlist, wires)),
                (-1) as i32,
            ),
        )
    } else {
        None
    }
}

/// The register that takes over one output of a carry primitive.
pub open spec fn forward_ccu_register(
    name: Seq<char>,
    lead: ResetRegister,
    data: u32,
    output: u32,
    value: bool,
) -> CellModel {
    CellModel::FlipFlop {
        name,
        data: Bit::Wire(data),
        output,
        clock: lead.clock,
        edge: lead.edge,
        enable: lead.enable,
        reset: Some(Reset { value, ..lead.reset }),
    }
}

/// `cells` with `register` where something reads `output`.
pub open spec fn with_loaded_register(
    cells: Seq<CellModel>,
    netlist: NetlistModel,
    output: u32,
    register: CellModel,
) -> Seq<CellModel> {
    if wire_fanout(netlist, output) == 0 {
        cells
    } else {
        cells.push(register)
    }
}

/// The cells after a forward move across the carry primitive at `index`. New
/// wires start at `first`; `values` are the resets of the two sums and the
/// carry.
pub open spec fn forward_ccu_cells(
    netlist: NetlistModel,
    index: int,
    first: u32,
    values: (bool, bool, bool),
) -> Option<Seq<CellModel>> {
    let ccu = ccu_of(netlist.cells[index]);
    let wires = sorted_wires(moving_pins(ccu));
    let lead = source_register(netlist, wires[0]);
    let kept = without(netlist.cells, register_indices(netlist, wires));
    let name = "retime_forward_"@ + ccu.name;
    match first_named(kept, ccu.name) {
        Some(at) => {
            let moved = kept.update(
                at,
                CellModel::Ccu2c {
                    name,
                    inputs: [
                        unregistered_pins(netlist, wires, ccu.inputs[0]),
                        unregistered_pins(netlist, wires, ccu.inputs[1]),
                    ],
                    carry_in: if ccu.inject[0] {
                        Bit::Zero
                    } else {
                        unregistered(netlist, wires, ccu.carry_in)
                    },
                    sums: [first, (first + 1) as u32],
                    carry_out: (first + 2) as u32,
                    init: ccu.init,
                    inject: ccu.inject,
                },
            );
            let one = with_loaded_register(
                moved,
                netlist,
                ccu.sums[0],
                forward_ccu_register(name + "_sum0"@, lead, first, ccu.sums[0], values.0),
            );
            let two = with_loaded_register(
                one,
                netlist,
                ccu.sums[1],
                forward_ccu_register(
                    name + "_sum1"@,
                    lead,
                    (first + 1) as u32,
                    ccu.sums[1],
                    values.1,
                ),
            );
            Some(
                with_loaded_register(
                    two,
                    netlist,
                    ccu.carry_out,
                    forward_ccu_register(
                        name + "_carry"@,
                        lead,
                        (first + 2) as u32,
                        ccu.carry_out,
                        values.2,
                    ),
                ),
            )
        },
        None => None,
    }
}

/// The resets that certified edges give the outputs of a forward move.
pub open spec fn forward_ccu_values(
    ccu: CcuModel,
    resets: Seq<(u32, bool)>,
    edges: Seq<EdgeModel>,
) -> Option<(bool, bool, bool)> {
    let g4 = forward_stage(ccu, resets, 4);
    let boundary = g4.vertices.len() as int;
    match (
        reset_between(edges, last_vertex(forward_stage(ccu, resets, 1)), boundary),
        reset_between(edges, last_vertex(forward_stage(ccu, resets, 3)), boundary + 1),
        reset_between(edges, last_vertex(g4), boundary + 2),
    ) {
        (Some(sum0), Some(sum1), Some(carry)) => Some((sum0, sum1, carry)),
        _ => None,
    }
}

/// The netlist after moving the registers in front of the carry primitive at
/// `index` across it, given the certified edges.
pub open spec fn forward_ccu_result(
    netlist: NetlistModel,
    index: int,
    edges: Seq<EdgeModel>,
) -> Option<NetlistModel> {
    if ccu_can_move_forward(netlist, index) {
        let ccu = ccu_of(netlist.cells[index]);
        let resets = wire_resets(netlist, sorted_wires(moving_pins(ccu)));
        match (forward_ccu_values(ccu, resets, edges), maximum_wire(netlist)) {
            (Some(values), Some(wire)) => if wire + 3 <= u32::MAX {
                match forward_ccu_cells(netlist, index, (wire + 1) as u32, values) {
                    Some(cells) => Some(
                        NetlistModel { cells, proof: one_more_move(netlist.proof), ..netlist },
                    ),
                    None => None,
                }
            } else {
                None
            },
            _ => None,
        }
    } else {
        None
    }
}

/// The netlist after moving the registers in front of the carry primitive at
/// `index` across it.
#[verifier::opaque]
pub open spec fn forward_ccu_move(
    netlist: NetlistModel,
    index: int,
    certificates: spec_fn(RequestModel) -> Option<Seq<EdgeModel>>,
) -> Option<NetlistModel> {
    certified_move(
        forward_ccu_request(netlist, index),
        certificates,
        |edges: Seq<EdgeModel>| forward_ccu_result(netlist, index, edges),
    )
}

/// A carry primitive read out of its cell.
struct Ccu {
    name: String,
    inputs: [[Bit; 4]; 2],
    carry_in: Bit,
    sums: [u32; 2],
    carry_out: u32,
    init: [u16; 2],
    inject: [bool; 2],
}

impl View for Ccu {
    type V = CcuModel;

    closed spec fn view(&self) -> CcuModel {
        CcuModel {
            name: self.name@,
            inputs: self.inputs,
            carry_in: self.carry_in,
            sums: self.sums,
            carry_out: self.carry_out,
            init: self.init,
            inject: self.inject,
        }
    }
}

fn read_ccu(cell: &Ecp5Cell) -> (ccu: Option<Ccu>)
    ensures
        match ccu {
            Some(ccu) => cell@ is Ccu2c && ccu@ == ccu_of(cell@),
            None => !(cell@ is Ccu2c),
        },
{
    match cell {
        Ecp5Cell::Ccu2c { name, inputs, carry_in, sums, carry_out, init, inject } => Some(
            Ccu {
                name: name.clone(),
                inputs: *inputs,
                carry_in: *carry_in,
                sums: *sums,
                carry_out: *carry_out,
                init: *init,
                inject: *inject,
            },
        ),
        _ => None,
    }
}

fn push_pins(bits: &mut Vec<Bit>, pins: &[Bit; 4])
    ensures
        final(bits)@ == old(bits)@ + pins@,
{
    bits.push(pins[0]);
    bits.push(pins[1]);
    bits.push(pins[2]);
    bits.push(pins[3]);
    assert(bits@ =~= old(bits)@ + pins@);
}

fn find_forward_ccu(netlist: &Ecp5Netlist, ccu_index: usize) -> (found: Option<
    (Ccu, RegisteredInputs),
>)
    ensures
        match found {
            Some((ccu, inputs)) => ccu_can_move_forward(netlist@, ccu_index as int) && ccu_index
                < netlist.cells@.len() && ccu@ == ccu_of(netlist@.cells[ccu_index as int])
                && inputs.describes(netlist@, moving_pins(ccu@)),
            None => !ccu_can_move_forward(netlist@, ccu_index as int),
        },
{
    if ccu_index >= netlist.cells.len() {
        return None;
    }
    assert(netlist@.cells[ccu_index as int] == netlist.cells@[ccu_index as int]@);
    let ccu = match read_ccu(&netlist.cells[ccu_index]) {
        Some(ccu) => ccu,
        None => return None,
    };
    let mut bits: Vec<Bit> = Vec::new();
    push_pins(&mut bits, &ccu.inputs[0]);
    push_pins(&mut bits, &ccu.inputs[1]);
    if !ccu.inject[0] {
        bits.push(ccu.carry_in);
    }
    assert(bits@ =~= moving_pins(ccu@));
    match find_registered_inputs(netlist, &bits) {
        Some(inputs) => Some((ccu, inputs)),
        None => None,
    }
}

fn list_wire_resets(found: &RegisteredInputs, netlist: Ghost<NetlistModel>, bits: Ghost<
    Seq<Bit>,
>) -> (resets: Vec<(u32, bool)>)
    requires
        found.describes(netlist@, bits@),
    ensures
        resets@ == wire_resets(netlist@, found.wires@),
{
    let mut resets: Vec<(u32, bool)> = Vec::new();
    for i in 0..found.wires.len()
        invariant
            found.describes(netlist@, bits@),
            resets@ == wire_resets(netlist@, found.wires@).take(i as int),
    {
        resets.push((found.wires[i], found.registers[i].reset.value));
        assert(resets@ =~= wire_resets(netlist@, found.wires@).take(i + 1));
    }
    assert(resets@ =~= wire_resets(netlist@, found.wires@));
    resets
}

fn append_first_slice(
    graph: &mut CcuGraph,
    ccu: &Ccu,
    carry_output: bool,
    resets: &Vec<(u32, bool)>,
) -> (vertex: usize)
    ensures
        final(graph)@ == with_first_slice(old(graph)@, ccu@, carry_output, resets@),
        vertex == last_vertex(final(graph)@),
{
    graph.append_ccu_logic_vertex(
        &ccu.inputs[0],
        CcuCarrySource::External(ccu.carry_in, CcuInputLocation::CarryIn),
        ccu.init[0],
        ccu.inject[0],
        carry_output,
        0,
        resets,
    )
}

fn append_second_slice(
    graph: &mut CcuGraph,
    ccu: &Ccu,
    carry_vertex: usize,
    carry_output: bool,
    resets: &Vec<(u32, bool)>,
) -> (vertex: usize)
    ensures
        final(graph)@ == with_second_slice(
            old(graph)@,
            ccu@,
            carry_vertex as int,
            carry_output,
            resets@,
        ),
        vertex == last_vertex(final(graph)@),
{
    let carry = if ccu.inject[1] {
        CcuCarrySource::External(Bit::Zero, CcuInputLocation::CarryIn)
    } else {
        CcuCarrySource::Internal(carry_vertex)
    };
    graph.append_ccu_logic_vertex(
        &ccu.inputs[1],
        carry,
        ccu.init[1],
        ccu.inject[1],
        carry_output,
        1,
        resets,
    )
}

/// The vertices of a forward move: the two sums, the carry, and the boundary
/// vertex of the first sum.
struct ForwardVertices {
    sum0: usize,
    sum1: usize,
    carry: usize,
    boundary: usize,
}

fn build_forward_graph(ccu: &Ccu, resets: &Vec<(u32, bool)>) -> (built: (
    CcuGraph,
    ForwardVertices,
))
    ensures
        built.0@ == forward_graph(ccu@, resets@),
        built.1.sum0 == last_vertex(forward_stage(ccu@, resets@, 1)),
        built.1.sum1 == last_vertex(forward_stage(ccu@, resets@, 3)),
        built.1.carry == last_vertex(forward_stage(ccu@, resets@, 4)),
        built.1.boundary == forward_stage(ccu@, resets@, 4).vertices.len(),
        built.1.boundary + 2 < usize::MAX,
{
    let mut graph = CcuGraph::new();
    let sum0: usize = append_first_slice(&mut graph, ccu, false, resets);
    let carry0: usize = append_first_slice(&mut graph, ccu, true, resets);
    let sum1: usize = append_second_slice(&mut graph, ccu, carry0, false, resets);
    let carry: usize = append_second_slice(&mut graph, ccu, carry0, true, resets);
    assert(graph@ == forward_stage(ccu@, resets@, 4));
    let boundary: usize = graph.append_sink("sum0", sum0, None);
    graph.append_sink("sum1", sum1, None);
    graph.append_sink("carry", carry, None);
    proof {
        lemma_graph_size(ccu@, resets@);
    }
    (graph, ForwardVertices { sum0, sum1, carry, boundary })
}

proof fn lemma_slice_size(
    graph: CcuGraphModel,
    pins: [Bit; 4],
    slice: usize,
    resets: Seq<(u32, bool)>,
    count: nat,
)
    ensures
        slice_with_pins(graph, pins, slice, resets, count).vertices.len() <= graph.vertices.len()
            + count,
    decreases count,
{
    if count > 0 {
        lemma_slice_size(graph, pins, slice, resets, (count - 1) as nat);
    }
}

proof fn lemma_logic_size(
    graph: CcuGraphModel,
    pins: [Bit; 4],
    carry: CcuCarrySource,
    init: u16,
    inject: bool,
    carry_output: bool,
    slice: usize,
    resets: Seq<(u32, bool)>,
)
    ensures
        with_logic(graph, pins, carry, init, inject, carry_output, slice, resets).vertices.len()
            <= graph.vertices.len() + 6,
{
    lemma_slice_size(graph, pins, slice, resets, 4);
}

proof fn lemma_graph_size(ccu: CcuModel, resets: Seq<(u32, bool)>)
    ensures
        forward_stage(ccu, resets, 4).vertices.len() <= 24,
{
    let g0 = empty_graph();
    let outer = CcuCarrySource::External(ccu.carry_in, CcuInputLocation::CarryIn);
    lemma_logic_size(g0, ccu.inputs[0], outer, ccu.init[0], ccu.inject[0], false, 0, resets);
    let g1 = with_first_slice(g0, ccu, false, resets);
    lemma_logic_size(g1, ccu.inputs[0], outer, ccu.init[0], ccu.inject[0], true, 0, resets);
    let g2 = with_first_slice(g1, ccu, true, resets);
    let inner = second_carry(ccu, last_vertex(g2));
    lemma_logic_size(g2, ccu.inputs[1], inner, ccu.init[1], ccu.inject[1], false, 1, resets);
    let g3 = with_second_slice(g2, ccu, last_vertex(g2), false, resets);
    lemma_logic_size(g3, ccu.inputs[1], inner, ccu.init[1], ccu.inject[1], true, 1, resets);
}

fn request_forward_ccu(netlist: &Ecp5Netlist, ccu_index: usize) -> (request: Option<
    RetimingRequest,
>)
    ensures
        match request {
            Some(request) => forward_ccu_request(netlist@, ccu_index as int) == Some(request@),
            None => forward_ccu_request(netlist@, ccu_index as int) is None,
        },
{
    let (ccu, found) = match find_forward_ccu(netlist, ccu_index) {
        Some(found) => found,
        None => return None,
    };
    let resets = list_wire_resets(&found, Ghost(netlist@), Ghost(moving_pins(ccu@)));
    let (graph, vertices) = build_forward_graph(&ccu, &resets);
    Some(make_ccu_request(&found.registers[0], graph, -1))
}

fn push_loaded_register(
    cells: &mut Vec<Ecp5Cell>,
    netlist: &Ecp5Netlist,
    name: String,
    lead: &ResetRegister,
    data: u32,
    output: u32,
    value: bool,
)
    ensures
        cell_models(final(cells)@) == with_loaded_register(
            cell_models(old(cells)@),
            netlist@,
            output,
            forward_ccu_register(name@, *lead, data, output, value),
        ),
{
    if mapped_wire_fanout(netlist, output) == 0 {
        return;
    }
    let ghost before = cell_models(cells@);
    let ghost expected = forward_ccu_register(name@, *lead, data, output, value);
    let mut reset: Reset = lead.reset;
    reset.value = value;
    cells.push(
        Ecp5Cell::FlipFlop {
            name,
            data: Bit::Wire(data),
            output,
            clock: lead.clock,
            edge: lead.edge,
            enable: lead.enable,
            reset: Some(reset),
        },
    );
    assert(cell_models(cells@) =~= before.push(expected));
}

fn read_forward_values(
    ccu: &Ccu,
    resets: &Vec<(u32, bool)>,
    edges: &Vec<RetimingEdge>,
) -> (values: Option<(bool, bool, bool)>)
    ensures
        values == forward_ccu_values(ccu@, resets@, edge_models(edges@)),
{
    let (graph, vertices) = build_forward_graph(ccu, resets);
    let sum0: bool = match edge_reset_between(edges, vertices.sum0, vertices.boundary) {
        Some(value) => value,
        None => return None,
    };
    let sum1: bool = match edge_reset_between(edges, vertices.sum1, vertices.boundary + 1) {
        Some(value) => value,
        None => return None,
    };
    match edge_reset_between(edges, vertices.carry, vertices.boundary + 2) {
        Some(carry) => Some((sum0, sum1, carry)),
        None => None,
    }
}

fn move_ccu_forward(
    netlist: &Ecp5Netlist,
    ccu_index: usize,
    ccu: &Ccu,
    found: &RegisteredInputs,
    first: u32,
    values: (bool, bool, bool),
) -> (cells: Option<Vec<Ecp5Cell>>)
    requires
        ccu_index < netlist.cells@.len(),
        ccu@ == ccu_of(netlist@.cells[ccu_index as int]),
        found.describes(netlist@, moving_pins(ccu@)),
        first + 2 <= u32::MAX,
    ensures
        match cells {
            Some(cells) => forward_ccu_cells(netlist@, ccu_index as int, first, values) == Some(
                cell_models(cells@),
            ),
            None => forward_ccu_cells(netlist@, ccu_index as int, first, values) is None,
        },
{
    let ghost model = netlist@;
    let ghost bits = moving_pins(ccu@);
    let mut cells = crate::netlist::copy_cells(&netlist.cells);
    remove_cells(&mut cells, &found.indices);
    let ghost kept = cell_models(cells@);
    let at: usize = match position_of_name(&cells, &ccu.name) {
        Some(at) => at,
        None => return None,
    };
    let lead: ResetRegister = found.registers[0];
    let name = join("retime_forward_", ccu.name.as_str());
    let moved = Ecp5Cell::Ccu2c {
        name: name.clone(),
        inputs: [
            found.unregister_pins(&ccu.inputs[0], Ghost(model), Ghost(bits)),
            found.unregister_pins(&ccu.inputs[1], Ghost(model), Ghost(bits)),
        ],
        carry_in: if ccu.inject[0] {
            Bit::Zero
        } else {
            found.unregister(ccu.carry_in, Ghost(model), Ghost(bits))
        },
        sums: [first, first + 1],
        carry_out: first + 2,
        init: ccu.init,
        inject: ccu.inject,
    };
    let ghost moved_model = moved@;
    proof {
        assert(moved_model->Ccu2c_inputs =~= [
            unregistered_pins(model, found.wires@, ccu.inputs[0]),
            unregistered_pins(model, found.wires@, ccu.inputs[1]),
        ]);
        assert(moved_model->Ccu2c_sums =~= [first, (first + 1) as u32]);
    }
    cells.set(at, moved);
    assert(cell_models(cells@) =~= kept.update(at as int, moved_model));
    push_loaded_register(
        &mut cells,
        netlist,
        join(name.as_str(), "_sum0"),
        &lead,
        first,
        ccu.sums[0],
        values.0,
    );
    push_loaded_register(
        &mut cells,
        netlist,
        join(name.as_str(), "_sum1"),
        &lead,
        first + 1,
        ccu.sums[1],
        values.1,
    );
    push_loaded_register(
        &mut cells,
        netlist,
        join(name.as_str(), "_carry"),
        &lead,
        first + 2,
        ccu.carry_out,
        values.2,
    );
    Some(cells)
}

/// Moves the registers in front of the carry primitive at `ccu_index` across
/// it, given the certified edges.
pub fn forward_retime_ccu2c_with(
    netlist: &Ecp5Netlist,
    ccu_index: usize,
    edges: &Vec<RetimingEdge>,
) -> (moved: Option<Ecp5Netlist>)
    ensures
        netlist_model(moved) == forward_ccu_result(
            netlist@,
            ccu_index as int,
            edge_models(edges@),
        ),
{
    let (ccu, found) = match find_forward_ccu(netlist, ccu_index) {
        Some(found) => found,
        None => return None,
    };
    let resets = list_wire_resets(&found, Ghost(netlist@), Ghost(moving_pins(ccu@)));
    let values: (bool, bool, bool) = match read_forward_values(&ccu, &resets, edges) {
        Some(values) => values,
        None => return None,
    };
    let first: u32 = match maximum_mapped_wire(netlist) {
        Some(wire) => {
            if wire > u32::MAX - 3 {
                return None;
            }
            wire + 1
        },
        None => return None,
    };
    match move_ccu_forward(netlist, ccu_index, &ccu, &found, first, values) {
        Some(cells) => {
            let mut candidate = netlist.clone();
            candidate.equivalence_proof.certified_primitive_moves =
            candidate.equivalence_proof.certified_primitive_moves.saturating_add(1);
            candidate.cells = cells;
            assert(candidate@ =~= (NetlistModel {
                cells: cell_models(cells@),
                proof: one_more_move(netlist@.proof),
                ..netlist@
            }));
            Some(candidate)
        },
        None => None,
    }
}

/// Moves the registers in front of the carry primitive at `ccu_index` across
/// it, where the move can be certified.
pub fn forward_retime_ccu2c<C: Fn(&RetimingRequest) -> Option<Vec<RetimingEdge>>>(
    netlist: &Ecp5Netlist,
    ccu_index: usize,
    certify: &C,
) -> (moved: Option<Ecp5Netlist>)
    requires
        is_certifier(*certify),
    ensures
        netlist_model(moved) == forward_ccu_move(netlist@, ccu_index as int, oracle(*certify)),
{
    proof {
        reveal(forward_ccu_move);
    }
    match request_forward_ccu(netlist, ccu_index) {
        Some(request) => match ask(certify, &request) {
            Some(edges) => forward_retime_ccu2c_with(netlist, ccu_index, &edges),
            None => None,
        },
        None => None,
    }
}

/// The output of `ccu` that is wire `wire`.
pub open spec fn ccu_output(ccu: CcuModel, wire: u32) -> Option<CcuRetimeOutput> {
    if ccu.sums[0] == wire {
        Some(CcuRetimeOutput::Sum0)
    } else if ccu.sums[1] == wire {
        Some(CcuRetimeOutput::Sum1)
    } else if ccu.carry_out == wire {
        Some(CcuRetimeOutput::Carry)
    } else {
        None
    }
}

/// The first carry primitive that drives `wire`, at or after `from`.
pub open spec fn ccu_from(cells: Seq<CellModel>, wire: u32, from: int) -> Option<int>
    decreases cells.len() - from,
{
    if from < 0 || from >= cells.len() {
        None
    } else if cells[from] is Ccu2c && ccu_output(ccu_of(cells[from]), wire) is Some {
        Some(from)
    } else {
        ccu_from(cells, wire, from + 1)
    }
}

/// The register, the carry primitive behind its data input, and the output
/// that the register reads.
pub open spec fn backward_ccu_sources(netlist: NetlistModel, index: int) -> Option<
    (ResetRegister, int, CcuRetimeOutput),
> {
    if 0 <= index < netlist.cells.len() {
        match reset_register(netlist.cells[index]) {
            Some(register) => match register.data {
                Bit::Wire(data) => if is_clock_or_reset(netlist.cells, register.output) {
                    None
                } else {
                    match ccu_from(netlist.cells, data, 0) {
                        Some(at) => Some(
                            (register, at, ccu_output(ccu_of(netlist.cells[at]), data)->0),
                        ),
                        None => None,
                    }
                },
                _ => None,
            },
            None => None,
        }
    } else {
        None
    }
}

/// The graph of the cone behind one output of a carry primitive.
pub open spec fn cone_graph(ccu: CcuModel, output: CcuRetimeOutput) -> CcuGraphModel {
    match output {
        CcuRetimeOutput::Sum0 => with_first_slice(empty_graph(), ccu, false, seq![]),
        _ => {
            let carry_output = output == CcuRetimeOutput::Carry;
            if ccu.inject[1] {
                with_second_slice(empty_graph(), ccu, 0, carry_output, seq![])
            } else {
                let first = with_first_slice(empty_graph(), ccu, true, seq![]);
                with_second_slice(first, ccu, last_vertex(first), carry_output, seq![])
            }
        },
    }
}

/// The request to move the register at `index` back across the carry
/// primitive behind its data input.
pub open spec fn backward_ccu_request(netlist: NetlistModel, index: int) -> Option<RequestModel> {
    match backward_ccu_sources(netlist, index) {
        Some((register, at, output)) => {
            let cone = cone_graph(ccu_of(netlist.cells[at]), output);
            Some(
                ccu_request(
                    register,
                    with_sink(cone, "q"@, last_vertex(cone), seq![register.reset.value]),
                    1,
                ),
            )
        },
        None => None,
    }
}

/// The text that names an input of a carry primitive.
pub open spec fn location_text(location: CcuInputLocation) -> Seq<char> {
    match location {
        CcuInputLocation::Pin { slice, pin } => "s"@ + decimal_text(slice as nat) + "p"@
            + decimal_text(pin as nat),
        CcuInputLocation::CarryIn => "cin"@,
    }
}

/// The last boundary that stands for `location`.
pub open spec fn boundary_at(boundaries: Seq<CcuBoundary>, location: CcuInputLocation) -> Option<
    int,
>
    decreases boundaries.len(),
{
    if boundaries.len() == 0 {
        None
    } else if boundaries.last().location == location {
        Some(boundaries.len() - 1)
    } else {
        boundary_at(boundaries.drop_last(), location)
    }
}

/// What the moved primitive reads at `location`: the register that boundary
/// `i` became drives wire `first + i`; an input without a boundary is kept.
pub open spec fn moved_bit(
    boundaries: Seq<CcuBoundary>,
    location: CcuInputLocation,
    bit: Bit,
    first: u32,
) -> Bit {
    match boundary_at(boundaries, location) {
        Some(i) => Bit::Wire((first + i) as u32),
        None => bit,
    }
}

/// What the moved primitive reads at the pins of one slice. An unused slice
/// reads zeros.
pub open spec fn moved_pins(
    boundaries: Seq<CcuBoundary>,
    slice: usize,
    used: bool,
    pins: [Bit; 4],
    first: u32,
) -> [Bit; 4] {
    let base = |pin: int|
        if used {
            pins[pin]
        } else {
            Bit::Zero
        };
    [
        moved_bit(boundaries, CcuInputLocation::Pin { slice, pin: 0 }, base(0), first),
        moved_bit(boundaries, CcuInputLocation::Pin { slice, pin: 1 }, base(1), first),
        moved_bit(boundaries, CcuInputLocation::Pin { slice, pin: 2 }, base(2), first),
        moved_bit(boundaries, CcuInputLocation::Pin { slice, pin: 3 }, base(3), first),
    ]
}

/// The register that boundary `i` becomes.
pub open spec fn backward_ccu_register(
    register: ResetRegister,
    name: Seq<char>,
    ccu_name: Seq<char>,
    boundary: CcuBoundary,
    output: u32,
    value: bool,
) -> CellModel {
    CellModel::FlipFlop {
        name: "retime_"@ + name + "_"@ + ccu_name + "_"@ + location_text(boundary.location),
        data: boundary.bit,
        output,
        clock: register.clock,
        edge: register.edge,
        enable: register.enable,
        reset: Some(Reset { value, ..register.reset }),
    }
}

/// Whether the certified edges give every boundary a reset.
pub open spec fn boundaries_covered(boundaries: Seq<CcuBoundary>, edges: Seq<EdgeModel>) -> bool {
    forall|i: int|
        0 <= i < boundaries.len() ==> reset_from(
            edges,
            (#[trigger] boundaries[i]).vertex as int,
        ) is Some
}

/// The registers that the boundaries become.
pub open spec fn backward_ccu_registers(
    register: ResetRegister,
    name: Seq<char>,
    ccu_name: Seq<char>,
    boundaries: Seq<CcuBoundary>,
    first: u32,
    edges: Seq<EdgeModel>,
) -> Seq<CellModel> {
    Seq::new(
        boundaries.len(),
        |i: int|
            backward_ccu_register(
                register,
                name,
                ccu_name,
                boundaries[i],
                (first + i) as u32,
                reset_from(edges, boundaries[i].vertex as int)->0,
            ),
    )
}

/// Whether nothing but the moved register reads an output of `ccu`.
pub open spec fn feeds_only(netlist: NetlistModel, ccu: CcuModel, data: u32) -> bool {
    let expected = |wire: u32|
        if wire == data {
            1nat
        } else {
            0
        };
    &&& wire_fanout(netlist, ccu.sums[0]) == expected(ccu.sums[0])
    &&& wire_fanout(netlist, ccu.sums[1]) == expected(ccu.sums[1])
    &&& wire_fanout(netlist, ccu.carry_out) == expected(ccu.carry_out)
}

/// The wires that the moved primitive drives: the register's output at the
/// output that was registered, new wires from `next` on elsewhere.
pub open spec fn moved_outputs(output: CcuRetimeOutput, register_output: u32, next: u32) -> (
    [u32; 2],
    u32,
) {
    match output {
        CcuRetimeOutput::Sum0 => ([register_output, next], (next + 1) as u32),
        CcuRetimeOutput::Sum1 => ([next, register_output], (next + 1) as u32),
        CcuRetimeOutput::Carry => ([next, (next + 1) as u32], register_output),
    }
}

/// The moved primitive, apart from its name.
pub open spec fn moved_ccu(
    ccu: CcuModel,
    output: CcuRetimeOutput,
    register_output: u32,
    first: u32,
    name: Seq<char>,
) -> CellModel {
    let boundaries = cone_graph(ccu, output).boundaries;
    let second = output != CcuRetimeOutput::Sum0;
    let uses_first = !second || !ccu.inject[1];
    let outputs = moved_outputs(output, register_output, (first + boundaries.len()) as u32);
    CellModel::Ccu2c {
        name,
        inputs: [
            moved_pins(boundaries, 0, uses_first, ccu.inputs[0], first),
            moved_pins(boundaries, 1, second, ccu.inputs[1], first),
        ],
        carry_in: moved_bit(
            boundaries,
            CcuInputLocation::CarryIn,
            if uses_first && !ccu.inject[0] {
                ccu.carry_in
            } else {
                Bit::Zero
            },
            first,
        ),
        sums: outputs.0,
        carry_out: outputs.1,
        init: ccu.init,
        inject: ccu.inject,
    }
}

/// The cells after a backward move, before pruning. New wires start at
/// `first`.
pub open spec fn backward_ccu_cells(
    netlist: NetlistModel,
    index: int,
    register: ResetRegister,
    at: int,
    output: CcuRetimeOutput,
    first: u32,
    edges: Seq<EdgeModel>,
) -> Seq<CellModel> {
    let ccu = ccu_of(netlist.cells[at]);
    let cells = netlist.cells.remove(index) + backward_ccu_registers(
        register,
        netlist.cells[index].cell_name(),
        ccu.name,
        cone_graph(ccu, output).boundaries,
        first,
        edges,
    );
    let replaced = if feeds_only(netlist, ccu, register.data->Wire_0) {
        Some(index_after_removal(at, index) as usize)
    } else {
        None
    };
    let moved = moved_ccu(
        ccu,
        output,
        register.output,
        first,
        unique_name("retime_"@ + ccu.name, cells, replaced),
    );
    match replaced {
        Some(at) => cells.update(at as int, moved),
        None => cells.push(moved),
    }
}

/// How many new wires a backward move needs to be representable.
pub open spec fn backward_ccu_wires(ccu: CcuModel, output: CcuRetimeOutput) -> nat {
    cone_graph(ccu, output).boundaries.len() + if output == CcuRetimeOutput::Carry {
        2nat
    } else {
        1
    }
}

/// The netlist after moving the register at `index` back across the carry
/// primitive behind its data input, given the certified edges.
pub open spec fn backward_ccu_result(
    netlist: NetlistModel,
    index: int,
    edges: Seq<EdgeModel>,
) -> Option<NetlistModel> {
    match backward_ccu_sources(netlist, index) {
        Some((register, at, output)) => {
            let ccu = ccu_of(netlist.cells[at]);
            match maximum_wire(netlist) {
                Some(wire) => if wire + 1 + backward_ccu_wires(ccu, output) <= u32::MAX
                    && boundaries_covered(cone_graph(ccu, output).boundaries, edges) {
                    Some(
                        pruned(
                            NetlistModel {
                                cells: backward_ccu_cells(
                                    netlist,
                                    index,
                                    register,
                                    at,
                                    output,
                                    (wire + 1) as u32,
                                    edges,
                                ),
                                proof: one_more_move(netlist.proof),
                                ..netlist
                            },
                        ),
                    )
                } else {
                    None
                },
                None => None,
            }
        },
        None => None,
    }
}

/// The netlist after moving the register at `index` back across a carry
/// primitive.
#[verifier::opaque]
pub open spec fn backward_ccu_move(
    netlist: NetlistModel,
    index: int,
    certificates: spec_fn(RequestModel) -> Option<Seq<EdgeModel>>,
) -> Option<NetlistModel> {
    certified_move(
        backward_ccu_request(netlist, index),
        certificates,
        |edges: Seq<EdgeModel>| backward_ccu_result(netlist, index, edges),
    )
}

fn find_ccu(cells: &Vec<Ecp5Cell>, wire: u32) -> (found: Option<(usize, Ccu, CcuRetimeOutput)>)
    ensures
        match found {
            Some((index, ccu, output)) => ccu_from(cell_models(cells@), wire, 0) == Some(
                index as int,
            ) && index < cells@.len() && cells@[index as int]@ is Ccu2c && ccu@ == ccu_of(
                cells@[index as int]@,
            ) && ccu_output(ccu@, wire) == Some(output),
            None => ccu_from(cell_models(cells@), wire, 0) is None,
        },
{
    let mut i: usize = 0;
    while i < cells.len()
        invariant
            i <= cells@.len(),
            ccu_from(cell_models(cells@), wire, 0) == ccu_from(
                cell_models(cells@),
                wire,
                i as int,
            ),
        decreases cells@.len() - i,
    {
        if let Some(ccu) = read_ccu(&cells[i]) {
            if ccu.sums[0] == wire {
                return Some((i, ccu, CcuRetimeOutput::Sum0));
            }
            if ccu.sums[1] == wire {
                return Some((i, ccu, CcuRetimeOutput::Sum1));
            }
            if ccu.carry_out == wire {
                return Some((i, ccu, CcuRetimeOutput::Carry));
            }
        }
        i += 1;
    }
    None
}

/// A backward move across a carry primitive read out of the netlist.
struct BackwardCcu {
    register: ResetRegister,
    data: u32,
    at: usize,
    ccu: Ccu,
    output: CcuRetimeOutput,
}

impl BackwardCcu {
    spec fn describes(&self, netlist: NetlistModel, index: int) -> bool {
        &&& backward_ccu_sources(netlist, index) == Some(
            (self.register, self.at as int, self.output),
        )
        &&& 0 <= index < netlist.cells.len()
        &&& self.at < netlist.cells.len()
        &&& self.at != index
        &&& self.register.data == Bit::Wire(self.data)
        &&& self.ccu@ == ccu_of(netlist.cells[self.at as int])
    }
}

fn find_backward_ccu(netlist: &Ecp5Netlist, register_index: usize) -> (found: Option<BackwardCcu>)
    ensures
        match found {
            Some(found) => found.describes(netlist@, register_index as int),
            None => backward_ccu_sources(netlist@, register_index as int) is None,
        },
{
    if register_index >= netlist.cells.len() {
        return None;
    }
    let register: ResetRegister = match as_reset_register(&netlist.cells[register_index]) {
        Some(register) => register,
        None => return None,
    };
    let data: u32 = match register.data {
        Bit::Wire(data) => data,
        _ => return None,
    };
    if mapped_wire_is_clock_or_reset(netlist, register.output) {
        return None;
    }
    match find_ccu(&netlist.cells, data) {
        Some((at, ccu, output)) => Some(BackwardCcu { register, data, at, ccu, output }),
        None => None,
    }
}

fn build_cone(ccu: &Ccu, output: CcuRetimeOutput) -> (built: (CcuGraph, usize))
    ensures
        built.0@ == cone_graph(ccu@, output),
        built.1 == last_vertex(built.0@),
{
    let resets: Vec<(u32, bool)> = Vec::new();
    assert(resets@ =~= seq![]);
    let mut graph = CcuGraph::new();
    let vertex: usize = match output {
        CcuRetimeOutput::Sum0 => append_first_slice(&mut graph, ccu, false, &resets),
        CcuRetimeOutput::Sum1 | CcuRetimeOutput::Carry => {
            let carry_output: bool = output == CcuRetimeOutput::Carry;
            let carry: usize = if ccu.inject[1] {
                0
            } else {
                append_first_slice(&mut graph, ccu, true, &resets)
            };
            append_second_slice(&mut graph, ccu, carry, carry_output, &resets)
        },
    };
    (graph, vertex)
}

fn request_backward_ccu(netlist: &Ecp5Netlist, register_index: usize) -> (request: Option<
    RetimingRequest,
>)
    ensures
        match request {
            Some(request) => backward_ccu_request(netlist@, register_index as int) == Some(
                request@,
            ),
            None => backward_ccu_request(netlist@, register_index as int) is None,
        },
{
    let found = match find_backward_ccu(netlist, register_index) {
        Some(found) => found,
        None => return None,
    };
    let (mut graph, vertex) = build_cone(&found.ccu, found.output);
    graph.append_sink("q", vertex, Some(found.register.reset.value));
    Some(make_ccu_request(&found.register, graph, 1))
}

fn location_name(location: CcuInputLocation) -> (text: String)
    ensures
        text@ == location_text(location),
{
    match location {
        CcuInputLocation::Pin { slice, pin } => {
            let mut text = join("s", decimal(slice as u128).as_str());
            text.append("p");
            text.append(decimal(pin as u128).as_str());
            text
        },
        CcuInputLocation::CarryIn => "cin".to_owned(),
    }
}

fn same_location(a: CcuInputLocation, b: CcuInputLocation) -> (same: bool)
    ensures
        same == (a == b),
{
    match (a, b) {
        (
            CcuInputLocation::Pin { slice, pin },
            CcuInputLocation::Pin { slice: other_slice, pin: other_pin },
        ) => slice == other_slice && pin == other_pin,
        (CcuInputLocation::CarryIn, CcuInputLocation::CarryIn) => true,
        _ => false,
    }
}

fn move_bit(
    boundaries: &Vec<CcuBoundary>,
    location: CcuInputLocation,
    bit: Bit,
    first: u32,
) -> (moved: Bit)
    requires
        first + boundaries@.len() <= u32::MAX,
    ensures
        moved == moved_bit(boundaries@, location, bit, first),
{
    let mut i: usize = boundaries.len();
    assert(boundaries@.take(i as int) =~= boundaries@);
    while i > 0
        invariant
            i <= boundaries@.len(),
            first + boundaries@.len() <= u32::MAX,
            boundary_at(boundaries@, location) == boundary_at(
                boundaries@.take(i as int),
                location,
            ),
        decreases i,
    {
        assert(boundaries@.take(i as int).drop_last() =~= boundaries@.take(i - 1));
        if same_location(boundaries[i - 1].location, location) {
            return Bit::Wire(first + (i - 1) as u32);
        }
        i -= 1;
    }
    bit
}

fn move_pins(
    boundaries: &Vec<CcuBoundary>,
    slice: usize,
    used: bool,
    pins: &[Bit; 4],
    first: u32,
) -> (moved: [Bit; 4])
    requires
        first + boundaries@.len() <= u32::MAX,
    ensures
        moved == moved_pins(boundaries@, slice, used, *pins, first),
{
    let base: [Bit; 4] = if used {
        *pins
    } else {
        [Bit::Zero, Bit::Zero, Bit::Zero, Bit::Zero]
    };
    let moved = [
        move_bit(boundaries, CcuInputLocation::Pin { slice, pin: 0 }, base[0], first),
        move_bit(boundaries, CcuInputLocation::Pin { slice, pin: 1 }, base[1], first),
        move_bit(boundaries, CcuInputLocation::Pin { slice, pin: 2 }, base[2], first),
        move_bit(boundaries, CcuInputLocation::Pin { slice, pin: 3 }, base[3], first),
    ];
    assert(moved =~= moved_pins(boundaries@, slice, used, *pins, first));
    moved
}

fn make_moved_ccu(
    ccu: &Ccu,
    output: CcuRetimeOutput,
    register_output: u32,
    first: u32,
    name: String,
    boundaries: &Vec<CcuBoundary>,
) -> (cell: Ecp5Cell)
    requires
        boundaries@ == cone_graph(ccu@, output).boundaries,
        first + backward_ccu_wires(ccu@, output) <= u32::MAX,
    ensures
        cell@ == moved_ccu(ccu@, output, register_output, first, name@),
{
    let second: bool = output != CcuRetimeOutput::Sum0;
    let uses_first: bool = !second || !ccu.inject[1];
    let next: u32 = first + boundaries.len() as u32;
    let (sums, carry_out): ([u32; 2], u32) = match output {
        CcuRetimeOutput::Sum0 => ([register_output, next], next + 1),
        CcuRetimeOutput::Sum1 => ([next, register_output], next + 1),
        CcuRetimeOutput::Carry => ([next, next + 1], register_output),
    };
    let carry_in: Bit = if uses_first && !ccu.inject[0] {
        ccu.carry_in
    } else {
        Bit::Zero
    };
    let inputs = [
        move_pins(boundaries, 0, uses_first, &ccu.inputs[0], first),
        move_pins(boundaries, 1, second, &ccu.inputs[1], first),
    ];
    proof {
        let outputs = moved_outputs(output, register_output, next);
        assert(sums =~= outputs.0);
        assert(inputs =~= [
            moved_pins(boundaries@, 0, uses_first, ccu.inputs[0], first),
            moved_pins(boundaries@, 1, second, ccu.inputs[1], first),
        ]);
    }
    Ecp5Cell::Ccu2c {
        name,
        inputs,
        carry_in: move_bit(boundaries, CcuInputLocation::CarryIn, carry_in, first),
        sums,
        carry_out,
        init: ccu.init,
        inject: ccu.inject,
    }
}

fn push_boundary_registers(
    cells: &mut Vec<Ecp5Cell>,
    register: &ResetRegister,
    name: &String,
    ccu_name: &String,
    boundaries: &Vec<CcuBoundary>,
    first: u32,
    edges: &Vec<RetimingEdge>,
) -> (covered: bool)
    requires
        first + boundaries@.len() <= u32::MAX,
    ensures
        covered == boundaries_covered(boundaries@, edge_models(edges@)),
        covered ==> cell_models(final(cells)@) == cell_models(old(cells)@)
            + backward_ccu_registers(
            *register,
            name@,
            ccu_name@,
            boundaries@,
            first,
            edge_models(edges@),
        ),
{
    let ghost before = cell_models(cells@);
    let ghost answer = edge_models(edges@);
    let ghost added = backward_ccu_registers(
        *register,
        name@,
        ccu_name@,
        boundaries@,
        first,
        answer,
    );
    assert(before + added.take(0) =~= before);
    for i in 0..boundaries.len()
        invariant
            first + boundaries@.len() <= u32::MAX,
            answer == edge_models(edges@),
            added == backward_ccu_registers(
                *register,
                name@,
                ccu_name@,
                boundaries@,
                first,
                answer,
            ),
            cell_models(cells@) == before + added.take(i as int),
            forall|j: int|
                0 <= j < i ==> reset_from(
                    answer,
                    (#[trigger] boundaries@[j]).vertex as int,
                ) is Some,
    {
        let ghost prior = cell_models(cells@);
        let value: bool = match edge_reset_from(edges, boundaries[i].vertex) {
            Some(value) => value,
            None => {
                assert(reset_from(answer, boundaries@[i as int].vertex as int) is None);
                return false;
            },
        };
        let mut cell_name = join("retime_", name.as_str());
        cell_name.append("_");
        cell_name.append(ccu_name.as_str());
        cell_name.append("_");
        cell_name.append(location_name(boundaries[i].location).as_str());
        let mut reset: Reset = register.reset;
        reset.value = value;
        let cell = Ecp5Cell::FlipFlop {
            name: cell_name,
            data: boundaries[i].bit,
            output: first + i as u32,
            clock: register.clock,
            edge: register.edge,
            enable: register.enable,
            reset: Some(reset),
        };
        assert(cell@ == added[i as int]);
        cells.push(cell);
        assert(cell_models(cells@) =~= prior.push(added[i as int]));
        assert(added.take(i + 1) =~= added.take(i as int).push(added[i as int]));
    }
    assert(added.take(added.len() as int) =~= added);
    true
}

fn fanout_is(netlist: &Ecp5Netlist, wire: u32, data: u32) -> (matches: bool)
    ensures
        matches == (wire_fanout(netlist@, wire) == if wire == data {
            1nat
        } else {
            0
        }),
{
    let fanout: usize = mapped_wire_fanout(netlist, wire);
    if wire == data {
        fanout == 1
    } else {
        fanout == 0
    }
}

fn move_ccu_backward(
    netlist: &Ecp5Netlist,
    register_index: usize,
    found: &BackwardCcu,
    boundaries: &Vec<CcuBoundary>,
    first: u32,
    edges: &Vec<RetimingEdge>,
) -> (cells: Option<Vec<Ecp5Cell>>)
    requires
        found.describes(netlist@, register_index as int),
        boundaries@ == cone_graph(found.ccu@, found.output).boundaries,
        first + backward_ccu_wires(found.ccu@, found.output) <= u32::MAX,
    ensures
        cells is Some == boundaries_covered(boundaries@, edge_models(edges@)),
        cells matches Some(cells) ==> cell_models(cells@) == backward_ccu_cells(
            netlist@,
            register_index as int,
            found.register,
            found.at as int,
            found.output,
            first,
            edge_models(edges@),
        ),
{
    let ghost model = netlist@;
    assert(model.cells[register_index as int] == netlist.cells@[register_index as int]@);
    let mut kept = crate::netlist::copy_cells(&netlist.cells);
    let removed = kept.remove(register_index);
    assert(cell_models(kept@) =~= model.cells.remove(register_index as int));
    let name = mapped_cell_name(&netlist.cells[register_index]);
    if !push_boundary_registers(
        &mut kept,
        &found.register,
        name,
        &found.ccu.name,
        boundaries,
        first,
        edges,
    ) {
        return None;
    }
    let ghost cells = cell_models(kept@);
    let alone: bool = fanout_is(netlist, found.ccu.sums[0], found.data) && fanout_is(
        netlist,
        found.ccu.sums[1],
        found.data,
    ) && fanout_is(netlist, found.ccu.carry_out, found.data);
    assert(alone == feeds_only(model, found.ccu@, found.data));
    let replaced: Option<usize> = if alone {
        if register_index < found.at {
            Some(found.at - 1)
        } else {
            Some(found.at)
        }
    } else {
        None
    };
    let base = join("retime_", found.ccu.name.as_str());
    let cell_name = unique_cell_name(base.as_str(), &kept, replaced);
    let retimed = make_moved_ccu(
        &found.ccu,
        found.output,
        found.register.output,
        first,
        cell_name,
        boundaries,
    );
    let ghost retimed_model = retimed@;
    assert(cells.len() == kept@.len());
    assert(cells.len() >= model.cells.len() - 1);
    match replaced {
        Some(at) => {
            kept.set(at, retimed);
            assert(cell_models(kept@) =~= cells.update(at as int, retimed_model));
        },
        None => {
            kept.push(retimed);
            assert(cell_models(kept@) =~= cells.push(retimed_model));
        },
    }
    Some(kept)
}

/// Moves the register at `register_index` back across the carry primitive
/// behind its data input, given the certified edges.
pub fn backward_retime_ccu2c_with(
    netlist: &Ecp5Netlist,
    register_index: usize,
    edges: &Vec<RetimingEdge>,
) -> (moved: Option<Ecp5Netlist>)
    ensures
        netlist_model(moved) == backward_ccu_result(
            netlist@,
            register_index as int,
            edge_models(edges@),
        ),
{
    let found = match find_backward_ccu(netlist, register_index) {
        Some(found) => found,
        None => return None,
    };
    let (graph, vertex) = build_cone(&found.ccu, found.output);
    let needed: u64 = if found.output == CcuRetimeOutput::Carry {
        2
    } else {
        1
    };
    let first: u32 = match maximum_mapped_wire(netlist) {
        Some(wire) => {
            if wire as u128 + 1 + needed as u128 + graph.boundaries.len() as u128 > u32::MAX as u128
            {
                return None;
            }
            wire + 1
        },
        None => return None,
    };
    match move_ccu_backward(netlist, register_index, &found, &graph.boundaries, first, edges) {
        Some(cells) => {
            let mut candidate = netlist.clone();
            candidate.equivalence_proof.certified_primitive_moves =
            candidate.equivalence_proof.certified_primitive_moves.saturating_add(1);
            candidate.cells = cells;
            assert(candidate@ =~= (NetlistModel {
                cells: cell_models(cells@),
                proof: one_more_move(netlist@.proof),
                ..netlist@
            }));
            prune_unobservable_retiming_cells(&mut candidate);
            Some(candidate)
        },
        None => None,
    }
}

/// Moves the register at `register_index` back across the carry primitive
/// behind its data input, where the move can be certified.
pub fn backward_retime_ccu2c<C: Fn(&RetimingRequest) -> Option<Vec<RetimingEdge>>>(
    netlist: &Ecp5Netlist,
    register_index: usize,
    certify: &C,
) -> (moved: Option<Ecp5Netlist>)
    requires
        is_certifier(*certify),
    ensures
        netlist_model(moved) == backward_ccu_move(
            netlist@,
            register_index as int,
            oracle(*certify),
        ),
{
    proof {
        reveal(backward_ccu_move);
    }
    match request_backward_ccu(netlist, register_index) {
        Some(request) => match ask(certify, &request) {
            Some(edges) => backward_retime_ccu2c_with(netlist, register_index, &edges),
            None => None,
        },
        None => None,
    }
}

/// The netlist after moving the register at `index` back across the primitive
/// behind its data input.
#[verifier::opaque]
pub open spec fn backward_move(
    netlist: NetlistModel,
    index: int,
    certificates: spec_fn(RequestModel) -> Option<Seq<EdgeModel>>,
) -> Option<NetlistModel> {
    match backward_lut_move(netlist, index, certificates) {
        Some(moved) => Some(moved),
        None => backward_ccu_move(netlist, index, certificates),
    }
}

/// Moves the register at `register_index` back across the primitive behind its
/// data input, where the move can be certified.
pub fn backward_retime_primitive<C: Fn(&RetimingRequest) -> Option<Vec<RetimingEdge>>>(
    netlist: &Ecp5Netlist,
    register_index: usize,
    certify: &C,
) -> (moved: Option<Ecp5Netlist>)
    requires
        is_certifier(*certify),
    ensures
        netlist_model(moved) == backward_move(netlist@, register_index as int, oracle(*certify)),
{
    proof {
        reveal(backward_move);
    }
    match backward_retime_lut(netlist, register_index, certify) {
        Some(moved) => Some(moved),
        None => backward_retime_ccu2c(netlist, register_index, certify),
    }
}

} // verus!
