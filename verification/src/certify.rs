//! Retiming graphs and the certificates that moves across primitives need.
//!
//! A move is described as a [`RetimingRequest`]: a small graph of boundary and
//! logic vertices together with the lag of each vertex. Whoever drives the
//! mapper derives the retimed graph, verifies it against the request and hands
//! back the retimed edges with their reset values, or nothing when the move
//! cannot be certified.

use vstd::prelude::*;

use crate::cells::{ActiveLevel, Bit, ClockEdge, Reset};
use crate::text::{decimal, decimal_text};

verus! {

/// A Boolean function of at most six inputs.
#[derive(Clone, Copy, Debug, Eq, PartialEq, Structural)]
pub struct LogicFunction {
    /// Number of inputs.
    pub inputs: u8,
    /// Value for each assignment, input zero being the least-significant bit
    /// of the assignment.
    pub truth_table: u64,
}

/// One vertex of a retiming graph.
#[derive(Clone, Debug, Eq, PartialEq)]
pub struct RetimingVertex {
    /// Name of the vertex.
    pub name: String,
    /// Whether the vertex belongs to the boundary, which keeps its place.
    pub boundary: bool,
    /// Function computed by the vertex.
    pub function: LogicFunction,
}

/// One edge of a retiming graph with the reset value of each register on it.
#[derive(Clone, Debug, Eq, PartialEq)]
pub struct RetimingEdge {
    /// Producing vertex.
    pub source: usize,
    /// Consuming vertex.
    pub target: usize,
    /// Reset values of the registers on the edge.
    pub reset_values: Vec<bool>,
}

/// The clock and reset that all registers of a graph share.
#[derive(Clone, Debug, Eq, PartialEq)]
pub struct RetimingDomain {
    /// Clock signal.
    pub clock: String,
    /// Active clock edge.
    pub edge: ClockEdge,
    /// Reset signal.
    pub reset: String,
    /// Reset assertion level.
    pub active: ActiveLevel,
    /// Whether reset is asynchronous.
    pub asynchronous: bool,
}

/// A graph and the lag of each of its vertices.
#[derive(Clone, Debug, Eq, PartialEq)]
pub struct RetimingRequest {
    /// Clock and reset domain.
    pub domain: RetimingDomain,
    /// Vertices.
    pub vertices: Vec<RetimingVertex>,
    /// Edges.
    pub edges: Vec<RetimingEdge>,
    /// Lag of each vertex.
    pub labels: Vec<i32>,
}

/// What a [`RetimingVertex`] holds.
#[verifier::ext_equal]
pub struct VertexModel {
    pub name: Seq<char>,
    pub boundary: bool,
    pub function: LogicFunction,
}

/// What a [`RetimingEdge`] holds.
#[verifier::ext_equal]
pub struct EdgeModel {
    pub source: int,
    pub target: int,
    pub reset_values: Seq<bool>,
}

/// What a [`RetimingDomain`] holds.
#[verifier::ext_equal]
pub struct DomainModel {
    pub clock: Seq<char>,
    pub edge: ClockEdge,
    pub reset: Seq<char>,
    pub active: ActiveLevel,
    pub asynchronous: bool,
}

/// What a [`RetimingRequest`] holds.
#[verifier::ext_equal]
pub struct RequestModel {
    pub domain: DomainModel,
    pub vertices: Seq<VertexModel>,
    pub edges: Seq<EdgeModel>,
    pub labels: Seq<i32>,
}

impl View for RetimingVertex {
    type V = VertexModel;

    open spec fn view(&self) -> VertexModel {
        VertexModel { name: self.name@, boundary: self.boundary, function: self.function }
    }
}

impl View for RetimingEdge {
    type V = EdgeModel;

    open spec fn view(&self) -> EdgeModel {
        EdgeModel {
            source: self.source as int,
            target: self.target as int,
            reset_values: self.reset_values@,
        }
    }
}

impl View for RetimingDomain {
    type V = DomainModel;

    open spec fn view(&self) -> DomainModel {
        DomainModel {
            clock: self.clock@,
            edge: self.edge,
            reset: self.reset@,
            active: self.active,
            asynchronous: self.asynchronous,
        }
    }
}

/// The models of a sequence of vertices.
pub open spec fn vertex_models(vertices: Seq<RetimingVertex>) -> Seq<VertexModel> {
    Seq::new(vertices.len(), |i: int| vertices[i]@)
}

/// The models of a sequence of edges.
pub open spec fn edge_models(edges: Seq<RetimingEdge>) -> Seq<EdgeModel> {
    Seq::new(edges.len(), |i: int| edges[i]@)
}

impl View for RetimingRequest {
    type V = RequestModel;

    open spec fn view(&self) -> RequestModel {
        RequestModel {
            domain: self.domain@,
            vertices: vertex_models(self.vertices@),
            edges: edge_models(self.edges@),
            labels: self.labels@,
        }
    }
}

/// The model of a certifier's answer.
pub open spec fn answer_model(answer: Option<Vec<RetimingEdge>>) -> Option<Seq<EdgeModel>> {
    match answer {
        Some(edges) => Some(edge_models(edges@)),
        None => None,
    }
}

/// Whether `answer` is a possible answer to some request with model `request`.
pub open spec fn answers<C: Fn(&RetimingRequest) -> Option<Vec<RetimingEdge>>>(
    certify: C,
    request: RequestModel,
    asked: &RetimingRequest,
    answer: Option<Vec<RetimingEdge>>,
) -> bool {
    asked@ == request && call_ensures(certify, (asked,), answer)
}

/// Whether `certify` takes every request and answers equal requests equally.
#[verifier::opaque]
pub open spec fn is_certifier<C: Fn(&RetimingRequest) -> Option<Vec<RetimingEdge>>>(
    certify: C,
) -> bool {
    &&& forall|asked: &RetimingRequest| call_requires(certify, (asked,))
    &&& forall|
        request: RequestModel,
        first: &RetimingRequest,
        first_answer: Option<Vec<RetimingEdge>>,
        second: &RetimingRequest,
        second_answer: Option<Vec<RetimingEdge>>,
    |
        #[trigger] answers(certify, request, first, first_answer) && #[trigger] answers(
            certify,
            request,
            second,
            second_answer,
        ) ==> answer_model(first_answer) == answer_model(second_answer)
}

/// The answer of `certify` to requests with model `request`.
pub open spec fn certified<C: Fn(&RetimingRequest) -> Option<Vec<RetimingEdge>>>(
    certify: C,
    request: RequestModel,
) -> Option<Seq<EdgeModel>> {
    let (asked, answer) = choose|asked: &RetimingRequest, answer: Option<Vec<RetimingEdge>>|
        answers(certify, request, asked, answer);
    answer_model(answer)
}

/// The answers of `certify` as a function of the request.
pub open spec fn oracle<C: Fn(&RetimingRequest) -> Option<Vec<RetimingEdge>>>(
    certify: C,
) -> spec_fn(RequestModel) -> Option<Seq<EdgeModel>> {
    |request: RequestModel| certified(certify, request)
}

/// Asks for a certificate.
pub fn ask<C: Fn(&RetimingRequest) -> Option<Vec<RetimingEdge>>>(
    certify: &C,
    request: &RetimingRequest,
) -> (answer: Option<Vec<RetimingEdge>>)
    requires
        is_certifier(*certify),
    ensures
        answer_model(answer) == oracle(*certify)(request@),
{
    proof {
        reveal(is_certifier);
    }
    let answer = certify(request);
    assert(answers(*certify, request@, request, answer));
    answer
}

/// The text that names a bit in a retiming domain.
pub open spec fn bit_text(bit: Bit) -> Seq<char> {
    match bit {
        Bit::Zero => "Zero"@,
        Bit::One => "One"@,
        Bit::Wire(wire) => "Wire("@ + decimal_text(wire as nat) + ")"@,
    }
}

fn bit_name(bit: Bit) -> (text: String)
    ensures
        text@ == bit_text(bit),
{
    match bit {
        Bit::Zero => "Zero".to_owned(),
        Bit::One => "One".to_owned(),
        Bit::Wire(wire) => {
            let mut text = "Wire(".to_owned();
            text.append(decimal(wire as u128).as_str());
            text.append(")");
            text
        },
    }
}

/// The domain of registers with this clock and reset.
pub open spec fn domain_model(clock: Bit, edge: ClockEdge, reset: Reset) -> DomainModel {
    DomainModel {
        clock: bit_text(clock),
        edge,
        reset: bit_text(reset.signal),
        active: reset.active,
        asynchronous: reset.asynchronous,
    }
}

/// The domain of registers with this clock and reset.
pub fn retiming_domain(clock: Bit, edge: ClockEdge, reset: Reset) -> (domain: RetimingDomain)
    ensures
        domain@ == domain_model(clock, edge, reset),
{
    RetimingDomain {
        clock: bit_name(clock),
        edge,
        reset: bit_name(reset.signal),
        active: reset.active,
        asynchronous: reset.asynchronous,
    }
}

/// The boundary vertex that stands for a wire.
pub open spec fn wire_vertex(wire: u32) -> VertexModel {
    VertexModel {
        name: "wire"@ + decimal_text(wire as nat),
        boundary: true,
        function: LogicFunction { inputs: 0, truth_table: 0 },
    }
}

/// The boundary vertex with this name that takes one value.
pub open spec fn sink_vertex(name: Seq<char>) -> VertexModel {
    VertexModel { name, boundary: true, function: LogicFunction { inputs: 1, truth_table: 2 } }
}

/// The boundary vertex that stands for a wire.
pub fn make_wire_vertex(wire: u32) -> (vertex: RetimingVertex)
    ensures
        vertex@ == wire_vertex(wire),
{
    let mut name = "wire".to_owned();
    name.append(decimal(wire as u128).as_str());
    RetimingVertex { name, boundary: true, function: LogicFunction { inputs: 0, truth_table: 0 } }
}

/// The boundary vertex with this name that takes one value.
pub fn make_sink_vertex(name: &str) -> (vertex: RetimingVertex)
    ensures
        vertex@ == sink_vertex(name@),
{
    RetimingVertex {
        name: name.to_owned(),
        boundary: true,
        function: LogicFunction { inputs: 1, truth_table: 2 },
    }
}

/// The first edge from `source` on, in order.
pub open spec fn first_edge_from(edges: Seq<EdgeModel>, source: int, from: int) -> Option<int>
    decreases edges.len() - from,
{
    if from < 0 || from >= edges.len() {
        None
    } else if edges[from].source == source {
        Some(from)
    } else {
        first_edge_from(edges, source, from + 1)
    }
}

/// The first edge from `source` to `target`, in order.
pub open spec fn first_edge_between(
    edges: Seq<EdgeModel>,
    source: int,
    target: int,
    from: int,
) -> Option<int>
    decreases edges.len() - from,
{
    if from < 0 || from >= edges.len() {
        None
    } else if edges[from].source == source && edges[from].target == target {
        Some(from)
    } else {
        first_edge_between(edges, source, target, from + 1)
    }
}

/// The first reset value of the edge at `index`.
pub open spec fn first_reset(edges: Seq<EdgeModel>, index: Option<int>) -> Option<bool> {
    match index {
        Some(index) => if edges[index].reset_values.len() > 0 {
            Some(edges[index].reset_values[0])
        } else {
            None
        },
        None => None,
    }
}

/// The first reset value of the first edge from `source`.
pub open spec fn reset_from(edges: Seq<EdgeModel>, source: int) -> Option<bool> {
    first_reset(edges, first_edge_from(edges, source, 0))
}

/// The first reset value of the first edge from `source` to `target`.
pub open spec fn reset_between(edges: Seq<EdgeModel>, source: int, target: int) -> Option<bool> {
    first_reset(edges, first_edge_between(edges, source, target, 0))
}

/// The first reset value of the first edge from `source`.
pub fn edge_reset_from(edges: &Vec<RetimingEdge>, source: usize) -> (value: Option<bool>)
    ensures
        value == reset_from(edge_models(edges@), source as int),
{
    let mut i: usize = 0;
    while i < edges.len()
        invariant
            i <= edges@.len(),
            first_edge_from(edge_models(edges@), source as int, 0) == first_edge_from(
                edge_models(edges@),
                source as int,
                i as int,
            ),
        decreases edges@.len() - i,
    {
        if edges[i].source == source {
            return if edges[i].reset_values.len() > 0 {
                Some(edges[i].reset_values[0])
            } else {
                None
            };
        }
        i += 1;
    }
    None
}

/// The first reset value of the first edge from `source` to `target`.
pub fn edge_reset_between(edges: &Vec<RetimingEdge>, source: usize, target: usize) -> (value:
    Option<bool>)
    ensures
        value == reset_between(edge_models(edges@), source as int, target as int),
{
    let mut i: usize = 0;
    while i < edges.len()
        invariant
            i <= edges@.len(),
            first_edge_between(edge_models(edges@), source as int, target as int, 0)
                == first_edge_between(edge_models(edges@), source as int, target as int, i as int),
        decreases edges@.len() - i,
    {
        if edges[i].source == source && edges[i].target == target {
            return if edges[i].reset_values.len() > 0 {
                Some(edges[i].reset_values[0])
            } else {
                None
            };
        }
        i += 1;
    }
    None
}

} // verus!
