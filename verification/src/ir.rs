//! The target-independent netlist that technology mapping reads.

use vstd::prelude::*;

use crate::cells::ActiveLevel;
use crate::cells::ClockEdge;

verus! {

/// A net: the position of the node that drives it.
pub type NetId = u32;

/// What drives a net.
#[derive(Clone, Copy, Debug, Eq, PartialEq, Structural)]
pub enum NodeKind {
    /// A bit of a top-level input.
    Input,
    /// A constant.
    Constant(bool),
    /// Conjunction of two nets.
    And,
    /// Disjunction of two nets.
    Or,
    /// Exclusive disjunction of two nets.
    Xor,
    /// Negation of a net.
    Not,
    /// The second net when the first is one, else the third.
    Mux,
    /// The output of a register.
    RegisterOutput,
    /// A read-data bit of a memory.
    MemoryOutput,
    /// A result bit of a retained arithmetic cell.
    ArithmeticOutput,
    /// The result of a retained comparison.
    ComparisonOutput,
    /// A bit of a top-level output.
    Output,
}

/// One node; the net it drives is its position.
#[derive(Clone, Debug, Eq, PartialEq)]
pub struct Node {
    /// What the node computes.
    pub kind: NodeKind,
    /// The nets it reads.
    pub inputs: Vec<NetId>,
}

/// Direction of a source port.
#[derive(Clone, Copy, Debug, Eq, PartialEq, Structural)]
pub enum PortDirection {
    /// Read by the design.
    Input,
    /// Driven by the design.
    Output,
}

/// A top-level port, least-significant bit first.
#[derive(Clone, Debug, Eq, PartialEq)]
pub struct Port {
    /// Port name.
    pub name: String,
    /// Port direction.
    pub direction: PortDirection,
    /// The nodes that stand for the bits.
    pub bits: Vec<NetId>,
}

/// An enable and its assertion level.
#[derive(Clone, Copy, Debug, Eq, PartialEq, Structural)]
pub struct EnableControl {
    /// Enable net.
    pub signal: NetId,
    /// Assertion level.
    pub active: ActiveLevel,
}

/// A reset and its behavior.
#[derive(Clone, Copy, Debug, Eq, PartialEq, Structural)]
pub struct ResetControl {
    /// Reset net.
    pub signal: NetId,
    /// Assertion level.
    pub active: ActiveLevel,
    /// Whether reset acts without a clock edge.
    pub asynchronous: bool,
    /// State loaded on reset.
    pub value: bool,
}

/// A one-bit register.
#[derive(Clone, Debug, Eq, PartialEq)]
pub struct RegisterCell {
    /// Register name.
    pub name: String,
    /// Net the register drives.
    pub output: NetId,
    /// Next-state net.
    pub data: NetId,
    /// Clock net.
    pub clock: NetId,
    /// Active clock edge.
    pub edge: ClockEdge,
    /// Optional clock enable.
    pub enable: Option<EnableControl>,
    /// Optional reset.
    pub reset: Option<ResetControl>,
}

/// Requested memory implementation.
#[derive(Clone, Copy, Debug, Eq, PartialEq, Structural)]
pub enum MemoryStyle {
    /// Chosen by read latency.
    Auto,
    /// Embedded block RAM.
    Block,
    /// LUT-based RAM.
    Distributed,
}

/// One read/write port of a memory.
#[derive(Clone, Debug, Eq, PartialEq)]
pub struct MemoryPort {
    /// Read address, least-significant bit first.
    pub read_address: Vec<NetId>,
    /// Nets the read data drives.
    pub read_data: Vec<NetId>,
    /// Write address, least-significant bit first.
    pub write_address: Vec<NetId>,
    /// Write data.
    pub write_data: Vec<NetId>,
    /// Write enable.
    pub write_enable: EnableControl,
    /// Optional read enable.
    pub read_enable: Option<EnableControl>,
    /// Port clock.
    pub clock: NetId,
    /// Active clock edge.
    pub edge: ClockEdge,
}

/// A memory with one or two ports.
#[derive(Clone, Debug, Eq, PartialEq)]
pub struct MemoryCell {
    /// Memory name.
    pub name: String,
    /// Number of words.
    pub depth: u32,
    /// Requested implementation.
    pub style: MemoryStyle,
    /// Clock edges between a read address and its data.
    pub read_latency: u8,
    /// First port.
    pub port: MemoryPort,
    /// Optional second port.
    pub second_port: Option<MemoryPort>,
}

/// Retained word-level arithmetic.
#[derive(Clone, Copy, Debug, Eq, PartialEq, Structural)]
pub enum ArithmeticOp {
    /// Sum modulo two to the width.
    Add,
    /// Difference modulo two to the width.
    Subtract,
}

/// A retained adder or subtractor.
#[derive(Clone, Debug, Eq, PartialEq)]
pub struct ArithmeticCell {
    /// Cell name.
    pub name: String,
    /// Operation.
    pub operation: ArithmeticOp,
    /// First operand, least-significant bit first.
    pub lhs: Vec<NetId>,
    /// Second operand.
    pub rhs: Vec<NetId>,
    /// Optional incoming carry.
    pub carry_in: Option<NetId>,
    /// Result nets.
    pub outputs: Vec<NetId>,
}

/// Retained word-level comparison, read as `rhs` against `lhs` along the carry.
#[derive(Clone, Copy, Debug, Eq, PartialEq, Structural)]
pub enum ComparisonOp {
    /// Unsigned less-than.
    LessThanUnsigned,
    /// Unsigned less-than-or-equal.
    LessEqualUnsigned,
    /// Two's-complement less-than.
    LessThanSigned,
    /// Two's-complement less-than-or-equal.
    LessEqualSigned,
}

impl ComparisonOp {
    /// Whether equal operands compare true.
    pub open spec fn with_equal(self) -> bool {
        self == ComparisonOp::LessEqualUnsigned || self == ComparisonOp::LessEqualSigned
    }

    /// Whether operands are two's complement.
    pub open spec fn with_sign(self) -> bool {
        self == ComparisonOp::LessThanSigned || self == ComparisonOp::LessEqualSigned
    }

    /// Whether equal operands compare true.
    pub fn includes_equal(self) -> (equal: bool)
        ensures
            equal == self.with_equal(),
    {
        self == ComparisonOp::LessEqualUnsigned || self == ComparisonOp::LessEqualSigned
    }

    /// Whether operands are two's complement.
    pub fn is_signed(self) -> (signed: bool)
        ensures
            signed == self.with_sign(),
    {
        self == ComparisonOp::LessThanSigned || self == ComparisonOp::LessEqualSigned
    }
}

/// A retained comparison.
#[derive(Clone, Debug, Eq, PartialEq)]
pub struct ComparisonCell {
    /// Cell name.
    pub name: String,
    /// Operation.
    pub operation: ComparisonOp,
    /// Left operand, least-significant bit first.
    pub lhs: Vec<NetId>,
    /// Right operand.
    pub rhs: Vec<NetId>,
    /// Result net.
    pub output: NetId,
}

/// A target-independent netlist in topological order.
#[derive(Clone, Debug, Eq, PartialEq)]
pub struct Netlist {
    /// Module name.
    pub name: String,
    /// Nodes, each after the nodes it reads.
    pub nodes: Vec<Node>,
    /// Top-level ports.
    pub ports: Vec<Port>,
    /// Registers.
    pub registers: Vec<RegisterCell>,
    /// Memories.
    pub memories: Vec<MemoryCell>,
    /// Retained arithmetic.
    pub arithmetic: Vec<ArithmeticCell>,
    /// Retained comparisons.
    pub comparisons: Vec<ComparisonCell>,
}

/// Whether a node of this kind is a Boolean gate.
pub open spec fn is_gate(kind: NodeKind) -> bool {
    kind is And || kind is Or || kind is Xor || kind is Not || kind is Mux
}

/// Whether a node of this kind is a Boolean gate.
pub fn is_boolean(kind: NodeKind) -> (boolean: bool)
    ensures
        boolean == is_gate(kind),
{
    match kind {
        NodeKind::And | NodeKind::Or | NodeKind::Xor | NodeKind::Not | NodeKind::Mux => true,
        _ => false,
    }
}

/// How many nets a node of this kind reads.
pub open spec fn arity(kind: NodeKind) -> nat {
    match kind {
        NodeKind::And | NodeKind::Or | NodeKind::Xor => 2,
        NodeKind::Not | NodeKind::Output => 1,
        NodeKind::Mux => 3,
        _ => 0,
    }
}

fn input_count(kind: NodeKind) -> (count: usize)
    ensures
        count == arity(kind),
{
    match kind {
        NodeKind::And | NodeKind::Or | NodeKind::Xor => 2,
        NodeKind::Not | NodeKind::Output => 1,
        NodeKind::Mux => 3,
        _ => 0,
    }
}

/// Whether `net` can be read: a node drives it that is not an output bit.
pub open spec fn readable(nodes: Seq<Node>, net: NetId) -> bool {
    net < nodes.len() && !(nodes[net as int].kind is Output)
}

/// Whether every net of `nets` can be read and is below `limit`.
pub open spec fn readable_below(nodes: Seq<Node>, nets: Seq<NetId>, limit: int) -> bool {
    forall|i: int| 0 <= i < nets.len() ==> readable(nodes, #[trigger] nets[i]) && nets[i] < limit
}

/// Whether every net of `nets` is driven by a node of kind `kind`.
pub open spec fn all_of_kind(nodes: Seq<Node>, nets: Seq<NetId>, kind: NodeKind) -> bool {
    forall|i: int|
        0 <= i < nets.len() ==> (#[trigger] nets[i]) < nodes.len() && nodes[nets[i] as int].kind
            == kind
}

/// The net of an optional enable.
pub open spec fn enable_net(enable: Option<EnableControl>) -> Seq<NetId> {
    match enable {
        Some(control) => seq![control.signal],
        None => seq![],
    }
}

/// The net of an optional reset.
pub open spec fn reset_net(reset: Option<ResetControl>) -> Seq<NetId> {
    match reset {
        Some(control) => seq![control.signal],
        None => seq![],
    }
}

/// The net of an optional carry.
pub open spec fn carry_net(carry: Option<NetId>) -> Seq<NetId> {
    match carry {
        Some(net) => seq![net],
        None => seq![],
    }
}

/// The nets a register reads: data, clock, enable and reset.
pub open spec fn register_reads(register: RegisterCell) -> Seq<NetId> {
    seq![register.data, register.clock] + enable_net(register.enable) + reset_net(register.reset)
}

/// The address and data nets a memory port reads.
pub open spec fn port_words(port: MemoryPort) -> Seq<NetId> {
    port.read_address@ + port.write_address@ + port.write_data@
}

/// The nets a memory port reads, clock included.
pub open spec fn port_reads(port: MemoryPort) -> Seq<NetId> {
    port_words(port) + seq![port.clock, port.write_enable.signal] + enable_net(port.read_enable)
}

/// The nets a memory port samples at its clock edge.
pub open spec fn port_samples(port: MemoryPort) -> Seq<NetId> {
    port_words(port) + seq![port.write_enable.signal] + enable_net(port.read_enable)
}

/// The nets a memory reads.
pub open spec fn memory_reads(memory: MemoryCell) -> Seq<NetId> {
    match memory.second_port {
        Some(port) => port_reads(memory.port) + port_reads(port),
        None => port_reads(memory.port),
    }
}

/// The nets a memory samples at its clock edges.
pub open spec fn memory_samples(memory: MemoryCell) -> Seq<NetId> {
    match memory.second_port {
        Some(port) => port_samples(memory.port) + port_samples(port),
        None => port_samples(memory.port),
    }
}

/// The nets an arithmetic cell reads.
pub open spec fn arithmetic_reads(cell: ArithmeticCell) -> Seq<NetId> {
    cell.lhs@ + cell.rhs@ + carry_net(cell.carry_in)
}

/// The nets a comparison reads.
pub open spec fn comparison_reads(cell: ComparisonCell) -> Seq<NetId> {
    cell.lhs@ + cell.rhs@
}

/// Appends the nets of `more`.
pub fn extend_nets(nets: &mut Vec<NetId>, more: &Vec<NetId>)
    ensures
        final(nets)@ == old(nets)@ + more@,
{
    let ghost start = nets@;
    for i in 0..more.len()
        invariant
            nets@ == start + more@.take(i as int),
    {
        nets.push(more[i]);
        assert(nets@ =~= start + more@.take(i + 1));
    }
    assert(more@.take(more@.len() as int) =~= more@);
}

fn push_enable(nets: &mut Vec<NetId>, enable: Option<EnableControl>)
    ensures
        final(nets)@ == old(nets)@ + enable_net(enable),
{
    let ghost start = nets@;
    if let Some(control) = enable {
        nets.push(control.signal);
    }
    assert(nets@ =~= start + enable_net(enable));
}

/// The nets a register reads: data, clock, enable and reset.
pub fn nets_of_register(register: &RegisterCell) -> (nets: Vec<NetId>)
    ensures
        nets@ == register_reads(*register),
{
    let mut nets: Vec<NetId> = Vec::new();
    nets.push(register.data);
    nets.push(register.clock);
    assert(nets@ =~= seq![register.data, register.clock]);
    push_enable(&mut nets, register.enable);
    if let Some(control) = register.reset {
        nets.push(control.signal);
    }
    assert(nets@ =~= register_reads(*register));
    nets
}

fn words_of_port(port: &MemoryPort) -> (nets: Vec<NetId>)
    ensures
        nets@ == port_words(*port),
{
    let mut nets: Vec<NetId> = Vec::new();
    extend_nets(&mut nets, &port.read_address);
    extend_nets(&mut nets, &port.write_address);
    extend_nets(&mut nets, &port.write_data);
    assert(nets@ =~= port_words(*port));
    nets
}

/// The nets a memory port reads, clock included.
pub fn nets_of_port(port: &MemoryPort) -> (nets: Vec<NetId>)
    ensures
        nets@ == port_reads(*port),
{
    let mut nets = words_of_port(port);
    nets.push(port.clock);
    nets.push(port.write_enable.signal);
    assert(nets@ =~= port_words(*port) + seq![port.clock, port.write_enable.signal]);
    push_enable(&mut nets, port.read_enable);
    nets
}

/// The nets a memory port samples at its clock edge.
pub fn samples_of_port(port: &MemoryPort) -> (nets: Vec<NetId>)
    ensures
        nets@ == port_samples(*port),
{
    let mut nets = words_of_port(port);
    nets.push(port.write_enable.signal);
    assert(nets@ =~= port_words(*port) + seq![port.write_enable.signal]);
    push_enable(&mut nets, port.read_enable);
    nets
}

/// The nets a memory reads.
pub fn nets_of_memory(memory: &MemoryCell) -> (nets: Vec<NetId>)
    ensures
        nets@ == memory_reads(*memory),
{
    let mut nets = nets_of_port(&memory.port);
    if let Some(port) = &memory.second_port {
        let more = nets_of_port(port);
        extend_nets(&mut nets, &more);
    }
    nets
}

/// The nets a memory samples at its clock edges.
pub fn samples_of_memory(memory: &MemoryCell) -> (nets: Vec<NetId>)
    ensures
        nets@ == memory_samples(*memory),
{
    let mut nets = samples_of_port(&memory.port);
    if let Some(port) = &memory.second_port {
        let more = samples_of_port(port);
        extend_nets(&mut nets, &more);
    }
    nets
}

/// The nets an arithmetic cell reads.
pub fn nets_of_arithmetic(cell: &ArithmeticCell) -> (nets: Vec<NetId>)
    ensures
        nets@ == arithmetic_reads(*cell),
{
    let mut nets: Vec<NetId> = Vec::new();
    extend_nets(&mut nets, &cell.lhs);
    extend_nets(&mut nets, &cell.rhs);
    if let Some(net) = cell.carry_in {
        nets.push(net);
    }
    assert(nets@ =~= arithmetic_reads(*cell));
    nets
}

/// The nets a comparison reads.
pub fn nets_of_comparison(cell: &ComparisonCell) -> (nets: Vec<NetId>)
    ensures
        nets@ == comparison_reads(*cell),
{
    let mut nets: Vec<NetId> = Vec::new();
    extend_nets(&mut nets, &cell.lhs);
    extend_nets(&mut nets, &cell.rhs);
    assert(nets@ =~= comparison_reads(*cell));
    nets
}

/// Why a netlist cannot be mapped.
#[derive(Clone, Copy, Debug, Eq, PartialEq, Structural)]
pub enum ValidationError {
    /// More nodes than wire numbers.
    TooManyNodes,
    /// The node at this position reads a later net, an output bit, or the wrong number of nets.
    InvalidNode(usize),
    /// The port at this position has a bit that is not a node of its direction.
    InvalidPort(usize),
    /// The register at this position reads or drives an unsuitable net.
    InvalidRegister(usize),
    /// The memory at this position reads or drives an unsuitable net.
    InvalidMemory(usize),
    /// The arithmetic cell at this position is malformed.
    InvalidArithmetic(usize),
    /// The comparison at this position is malformed.
    InvalidComparison(usize),
    /// The node at this position stands for a cell that is not there.
    UnconnectedNode(usize),
}

/// Whether node `index` reads the right number of earlier nets.
pub open spec fn node_is_valid(nodes: Seq<Node>, index: int) -> bool {
    nodes[index].inputs@.len() == arity(nodes[index].kind) && readable_below(
        nodes,
        nodes[index].inputs@,
        index,
    )
}

/// Whether the bits of a port are nodes of its direction.
pub open spec fn port_is_valid(nodes: Seq<Node>, port: Port) -> bool {
    all_of_kind(
        nodes,
        port.bits@,
        match port.direction {
            PortDirection::Input => NodeKind::Input,
            PortDirection::Output => NodeKind::Output,
        },
    )
}

/// Whether a register reads readable nets and drives a register output.
pub open spec fn register_is_valid(nodes: Seq<Node>, register: RegisterCell) -> bool {
    readable_below(nodes, register_reads(register), nodes.len() as int) && register.output
        < nodes.len() && nodes[register.output as int].kind is RegisterOutput
}

/// Whether a memory port reads readable nets and drives as many memory outputs as it writes bits.
pub open spec fn memory_port_is_valid(nodes: Seq<Node>, port: MemoryPort) -> bool {
    readable_below(nodes, port_reads(port), nodes.len() as int) && all_of_kind(
        nodes,
        port.read_data@,
        NodeKind::MemoryOutput,
    ) && port.read_data@.len() == port.write_data@.len()
}

/// Whether the ports of a memory are valid and equally wide.
pub open spec fn memory_is_valid(nodes: Seq<Node>, memory: MemoryCell) -> bool {
    memory_port_is_valid(nodes, memory.port) && match memory.second_port {
        Some(port) => memory_port_is_valid(nodes, port) && port.write_data@.len()
            == memory.port.write_data@.len(),
        None => true,
    }
}

/// Whether an arithmetic cell has equally wide operands below its results.
pub open spec fn arithmetic_is_valid(nodes: Seq<Node>, cell: ArithmeticCell) -> bool {
    cell.outputs@.len() >= 1 && cell.lhs@.len() == cell.outputs@.len() && cell.rhs@.len()
        == cell.outputs@.len() && readable_below(
        nodes,
        arithmetic_reads(cell),
        cell.outputs@[0] as int,
    ) && all_of_kind(nodes, cell.outputs@, NodeKind::ArithmeticOutput) && forall|i: int|
        0 <= i < cell.outputs@.len() ==> cell.outputs@[0] <= #[trigger] cell.outputs@[i]
}

/// Whether a comparison has equally wide operands below its result.
pub open spec fn comparison_is_valid(nodes: Seq<Node>, cell: ComparisonCell) -> bool {
    cell.lhs@.len() >= 1 && cell.rhs@.len() == cell.lhs@.len() && readable_below(
        nodes,
        comparison_reads(cell),
        cell.output as int,
    ) && cell.output < nodes.len() && nodes[cell.output as int].kind is ComparisonOutput
}

/// Whether some arithmetic cell drives `net`.
pub open spec fn arithmetic_drives(cells: Seq<ArithmeticCell>, net: NetId) -> bool {
    exists|i: int| 0 <= i < cells.len() && (#[trigger] cells[i]).outputs@.contains(net)
}

/// Whether some comparison drives `net`.
pub open spec fn comparison_drives(cells: Seq<ComparisonCell>, net: NetId) -> bool {
    exists|i: int| 0 <= i < cells.len() && (#[trigger] cells[i]).output == net
}

/// Whether a register drives `net`.
pub open spec fn register_drives(cells: Seq<RegisterCell>, net: NetId) -> bool {
    exists|i: int| 0 <= i < cells.len() && (#[trigger] cells[i]).output == net
}

/// Whether a port of the memory drives `net`.
pub open spec fn memory_port_drives(memory: MemoryCell, net: NetId) -> bool {
    memory.port.read_data@.contains(net) || match memory.second_port {
        Some(port) => port.read_data@.contains(net),
        None => false,
    }
}

/// Whether a memory drives `net`.
pub open spec fn memory_drives(cells: Seq<MemoryCell>, net: NetId) -> bool {
    exists|i: int| 0 <= i < cells.len() && memory_port_drives(#[trigger] cells[i], net)
}

/// Whether node `index` stands for a cell that is there.
pub open spec fn node_is_connected(netlist: Netlist, index: int) -> bool {
    match netlist.nodes@[index].kind {
        NodeKind::ArithmeticOutput => arithmetic_drives(netlist.arithmetic@, index as NetId),
        NodeKind::ComparisonOutput => comparison_drives(netlist.comparisons@, index as NetId),
        NodeKind::RegisterOutput => register_drives(netlist.registers@, index as NetId),
        NodeKind::MemoryOutput => memory_drives(netlist.memories@, index as NetId),
        _ => true,
    }
}

/// The first position at or after `from` where `sound` fails.
pub open spec fn first_fault(sound: spec_fn(int) -> bool, count: int, from: int) -> Option<int>
    decreases count - from,
{
    if from >= count {
        None
    } else if !sound(from) {
        Some(from)
    } else {
        first_fault(sound, count, from + 1)
    }
}

/// The largest number of nodes whose nets can all be numbered.
pub const MAX_NODES: u32 = 4_294_967_293;

impl Netlist {
    /// What [`Netlist::validate`] reports.
    pub open spec fn fault(self) -> Option<ValidationError> {
        let nodes = self.nodes@;
        let n = nodes.len() as int;
        if n > MAX_NODES {
            Some(ValidationError::TooManyNodes)
        } else if let Some(i) = first_fault(|i: int| node_is_valid(nodes, i), n, 0) {
            Some(ValidationError::InvalidNode(i as usize))
        } else if let Some(i) = first_fault(
            |i: int| port_is_valid(nodes, self.ports@[i]),
            self.ports@.len() as int,
            0,
        ) {
            Some(ValidationError::InvalidPort(i as usize))
        } else if let Some(i) = first_fault(
            |i: int| register_is_valid(nodes, self.registers@[i]),
            self.registers@.len() as int,
            0,
        ) {
            Some(ValidationError::InvalidRegister(i as usize))
        } else if let Some(i) = first_fault(
            |i: int| memory_is_valid(nodes, self.memories@[i]),
            self.memories@.len() as int,
            0,
        ) {
            Some(ValidationError::InvalidMemory(i as usize))
        } else if let Some(i) = first_fault(
            |i: int| arithmetic_is_valid(nodes, self.arithmetic@[i]),
            self.arithmetic@.len() as int,
            0,
        ) {
            Some(ValidationError::InvalidArithmetic(i as usize))
        } else if let Some(i) = first_fault(
            |i: int| comparison_is_valid(nodes, self.comparisons@[i]),
            self.comparisons@.len() as int,
            0,
        ) {
            Some(ValidationError::InvalidComparison(i as usize))
        } else if let Some(i) = first_fault(|i: int| node_is_connected(self, i), n, 0) {
            Some(ValidationError::UnconnectedNode(i as usize))
        } else {
            None
        }
    }

    /// Whether every part of the netlist is well formed.
    pub open spec fn is_valid(self) -> bool {
        let nodes = self.nodes@;
        &&& nodes.len() <= MAX_NODES
        &&& forall|i: int| 0 <= i < nodes.len() ==> #[trigger] node_is_valid(nodes, i)
        &&& forall|i: int|
            0 <= i < self.ports@.len() ==> port_is_valid(nodes, #[trigger] self.ports@[i])
        &&& forall|i: int|
            0 <= i < self.registers@.len() ==> register_is_valid(
                nodes,
                #[trigger] self.registers@[i],
            )
        &&& forall|i: int|
            0 <= i < self.memories@.len() ==> memory_is_valid(nodes, #[trigger] self.memories@[i])
        &&& forall|i: int|
            0 <= i < self.arithmetic@.len() ==> arithmetic_is_valid(
                nodes,
                #[trigger] self.arithmetic@[i],
            )
        &&& forall|i: int|
            0 <= i < self.comparisons@.len() ==> comparison_is_valid(
                nodes,
                #[trigger] self.comparisons@[i],
            )
        &&& forall|i: int| 0 <= i < nodes.len() ==> #[trigger] node_is_connected(self, i)
    }
}

proof fn lemma_first_fault(sound: spec_fn(int) -> bool, count: int, from: int)
    ensures
        first_fault(sound, count, from) is None <==> forall|i: int|
            from <= i < count ==> #[trigger] sound(i),
        first_fault(sound, count, from) matches Some(i) ==> from <= i < count && !sound(i),
    decreases count - from,
{
    if from < count && sound(from) {
        lemma_first_fault(sound, count, from + 1);
        assert forall|i: int|
            from <= i < count && first_fault(sound, count, from) is None implies #[trigger] sound(
            i,
        ) by {
            if i > from {
                assert(from + 1 <= i);
            }
        }
    }
}

/// A netlist without a fault is valid, and a valid netlist has none.
pub proof fn lemma_fault(netlist: Netlist)
    ensures
        netlist.fault() is None <==> netlist.is_valid(),
{
    let nodes = netlist.nodes@;
    let n = nodes.len() as int;
    let p1 = |i: int| node_is_valid(nodes, i);
    let p2 = |i: int| port_is_valid(nodes, netlist.ports@[i]);
    let p3 = |i: int| register_is_valid(nodes, netlist.registers@[i]);
    let p4 = |i: int| memory_is_valid(nodes, netlist.memories@[i]);
    let p5 = |i: int| arithmetic_is_valid(nodes, netlist.arithmetic@[i]);
    let p6 = |i: int| comparison_is_valid(nodes, netlist.comparisons@[i]);
    let p7 = |i: int| node_is_connected(netlist, i);
    lemma_first_fault(p1, n, 0);
    lemma_first_fault(p2, netlist.ports@.len() as int, 0);
    lemma_first_fault(p3, netlist.registers@.len() as int, 0);
    lemma_first_fault(p4, netlist.memories@.len() as int, 0);
    lemma_first_fault(p5, netlist.arithmetic@.len() as int, 0);
    lemma_first_fault(p6, netlist.comparisons@.len() as int, 0);
    lemma_first_fault(p7, n, 0);
    if netlist.fault() is None {
        assert forall|i: int| 0 <= i < n implies #[trigger] node_is_valid(nodes, i) by {
            assert(p1(i));
        }
        assert forall|i: int| 0 <= i < netlist.ports@.len() implies port_is_valid(
            nodes,
            #[trigger] netlist.ports@[i],
        ) by {
            assert(p2(i));
        }
        assert forall|i: int| 0 <= i < netlist.registers@.len() implies register_is_valid(
            nodes,
            #[trigger] netlist.registers@[i],
        ) by {
            assert(p3(i));
        }
        assert forall|i: int| 0 <= i < netlist.memories@.len() implies memory_is_valid(
            nodes,
            #[trigger] netlist.memories@[i],
        ) by {
            assert(p4(i));
        }
        assert forall|i: int| 0 <= i < netlist.arithmetic@.len() implies arithmetic_is_valid(
            nodes,
            #[trigger] netlist.arithmetic@[i],
        ) by {
            assert(p5(i));
        }
        assert forall|i: int| 0 <= i < netlist.comparisons@.len() implies comparison_is_valid(
            nodes,
            #[trigger] netlist.comparisons@[i],
        ) by {
            assert(p6(i));
        }
        assert forall|i: int| 0 <= i < n implies #[trigger] node_is_connected(netlist, i) by {
            assert(p7(i));
        }
    }
    if netlist.is_valid() {
        assert(forall|i: int| 0 <= i < n ==> #[trigger] p1(i));
        assert(forall|i: int| 0 <= i < netlist.ports@.len() ==> #[trigger] p2(i));
        assert(forall|i: int| 0 <= i < netlist.registers@.len() ==> #[trigger] p3(i));
        assert(forall|i: int| 0 <= i < netlist.memories@.len() ==> #[trigger] p4(i));
        assert(forall|i: int| 0 <= i < netlist.arithmetic@.len() ==> #[trigger] p5(i));
        assert(forall|i: int| 0 <= i < netlist.comparisons@.len() ==> #[trigger] p6(i));
        assert(forall|i: int| 0 <= i < n ==> #[trigger] p7(i));
    }
}

fn check_readable(nodes: &Vec<Node>, nets: &Vec<NetId>, limit: usize) -> (sound: bool)
    ensures
        sound == readable_below(nodes@, nets@, limit as int),
{
    for i in 0..nets.len()
        invariant
            forall|j: int|
                0 <= j < i ==> readable(nodes@, #[trigger] nets@[j]) && nets@[j] < limit,
    {
        let net = nets[i] as usize;
        if net >= nodes.len() || net >= limit {
            assert(!(readable(nodes@, nets@[i as int]) && nets@[i as int] < limit));
            return false;
        }
        if let NodeKind::Output = nodes[net].kind {
            assert(!readable(nodes@, nets@[i as int]));
            return false;
        }
    }
    true
}

fn check_kind(nodes: &Vec<Node>, nets: &Vec<NetId>, kind: NodeKind) -> (sound: bool)
    ensures
        sound == all_of_kind(nodes@, nets@, kind),
{
    for i in 0..nets.len()
        invariant
            forall|j: int|
                0 <= j < i ==> (#[trigger] nets@[j]) < nodes@.len() && nodes@[nets@[j] as int].kind
                    == kind,
    {
        let net = nets[i] as usize;
        if net >= nodes.len() || nodes[net].kind != kind {
            assert(!(nets@[i as int] < nodes@.len() && nodes@[nets@[i as int] as int].kind
                == kind));
            return false;
        }
    }
    true
}

fn check_memory_port(nodes: &Vec<Node>, port: &MemoryPort) -> (sound: bool)
    ensures
        sound == memory_port_is_valid(nodes@, *port),
{
    let reads = nets_of_port(port);
    check_readable(nodes, &reads, nodes.len()) && check_kind(
        nodes,
        &port.read_data,
        NodeKind::MemoryOutput,
    ) && port.read_data.len() == port.write_data.len()
}

fn check_memory(nodes: &Vec<Node>, memory: &MemoryCell) -> (sound: bool)
    ensures
        sound == memory_is_valid(nodes@, *memory),
{
    if !check_memory_port(nodes, &memory.port) {
        return false;
    }
    match &memory.second_port {
        Some(port) => check_memory_port(nodes, port) && port.write_data.len()
            == memory.port.write_data.len(),
        None => true,
    }
}

fn check_arithmetic(nodes: &Vec<Node>, cell: &ArithmeticCell) -> (sound: bool)
    ensures
        sound == arithmetic_is_valid(nodes@, *cell),
{
    if cell.outputs.len() < 1 || cell.lhs.len() != cell.outputs.len() || cell.rhs.len()
        != cell.outputs.len() {
        return false;
    }
    let reads = nets_of_arithmetic(cell);
    let lowest: NetId = cell.outputs[0];
    if !check_readable(nodes, &reads, lowest as usize) || !check_kind(
        nodes,
        &cell.outputs,
        NodeKind::ArithmeticOutput,
    ) {
        return false;
    }
    for i in 0..cell.outputs.len()
        invariant
            cell.outputs@.len() >= 1,
            lowest == cell.outputs@[0],
            forall|j: int| 0 <= j < i ==> lowest <= #[trigger] cell.outputs@[j],
    {
        if cell.outputs[i] < lowest {
            assert(!(cell.outputs@[0] <= cell.outputs@[i as int]));
            return false;
        }
    }
    true
}

fn check_comparison(nodes: &Vec<Node>, cell: &ComparisonCell) -> (sound: bool)
    ensures
        sound == comparison_is_valid(nodes@, *cell),
{
    if cell.lhs.len() < 1 || cell.rhs.len() != cell.lhs.len() {
        return false;
    }
    let reads = nets_of_comparison(cell);
    if !check_readable(nodes, &reads, cell.output as usize) {
        return false;
    }
    if cell.output as usize >= nodes.len() {
        return false;
    }
    matches!(nodes[cell.output as usize].kind, NodeKind::ComparisonOutput)
}

/// Whether `net` is in `nets`.
pub fn holds_net(nets: &Vec<NetId>, net: NetId) -> (found: bool)
    ensures
        found == nets@.contains(net),
{
    for i in 0..nets.len()
        invariant
            forall|j: int| 0 <= j < i ==> nets@[j] != net,
    {
        if nets[i] == net {
            assert(nets@[i as int] == net);
            return true;
        }
    }
    false
}

/// Whether some arithmetic cell drives `net`.
pub fn driven_by_arithmetic(cells: &Vec<ArithmeticCell>, net: NetId) -> (found: bool)
    ensures
        found == arithmetic_drives(cells@, net),
{
    for i in 0..cells.len()
        invariant
            forall|j: int| 0 <= j < i ==> !(#[trigger] cells@[j]).outputs@.contains(net),
    {
        if holds_net(&cells[i].outputs, net) {
            assert(cells@[i as int].outputs@.contains(net));
            return true;
        }
    }
    false
}

/// Whether some comparison drives `net`.
pub fn driven_by_comparison(cells: &Vec<ComparisonCell>, net: NetId) -> (found: bool)
    ensures
        found == comparison_drives(cells@, net),
{
    for i in 0..cells.len()
        invariant
            forall|j: int| 0 <= j < i ==> (#[trigger] cells@[j]).output != net,
    {
        if cells[i].output == net {
            assert(cells@[i as int].output == net);
            return true;
        }
    }
    false
}

/// Whether a register drives `net`.
pub fn driven_by_register(cells: &Vec<RegisterCell>, net: NetId) -> (found: bool)
    ensures
        found == register_drives(cells@, net),
{
    for i in 0..cells.len()
        invariant
            forall|j: int| 0 <= j < i ==> (#[trigger] cells@[j]).output != net,
    {
        if cells[i].output == net {
            assert(cells@[i as int].output == net);
            return true;
        }
    }
    false
}

/// Whether a memory drives `net`.
pub fn driven_by_memory(cells: &Vec<MemoryCell>, net: NetId) -> (found: bool)
    ensures
        found == memory_drives(cells@, net),
{
    for i in 0..cells.len()
        invariant
            forall|j: int| 0 <= j < i ==> !memory_port_drives(#[trigger] cells@[j], net),
    {
        let first = holds_net(&cells[i].port.read_data, net);
        let second = match &cells[i].second_port {
            Some(port) => holds_net(&port.read_data, net),
            None => false,
        };
        if first || second {
            assert(memory_port_drives(cells@[i as int], net));
            return true;
        }
    }
    false
}

fn check_connected(netlist: &Netlist, index: usize) -> (sound: bool)
    requires
        index < netlist.nodes@.len(),
        netlist.nodes@.len() <= MAX_NODES,
    ensures
        sound == node_is_connected(*netlist, index as int),
{
    let net = index as NetId;
    match netlist.nodes[index].kind {
        NodeKind::ArithmeticOutput => driven_by_arithmetic(&netlist.arithmetic, net),
        NodeKind::ComparisonOutput => driven_by_comparison(&netlist.comparisons, net),
        NodeKind::RegisterOutput => driven_by_register(&netlist.registers, net),
        NodeKind::MemoryOutput => driven_by_memory(&netlist.memories, net),
        _ => true,
    }
}

impl Netlist {
    fn invalid_node(&self) -> (fault: Option<usize>)
        ensures
            fault is Some == first_fault(
                |i: int| node_is_valid(self.nodes@, i),
                self.nodes@.len() as int,
                0,
            ) is Some,
            fault is Some ==> first_fault(
                |i: int| node_is_valid(self.nodes@, i),
                self.nodes@.len() as int,
                0,
            ) == Some(fault->0 as int),
    {
        let ghost sound = |i: int| node_is_valid(self.nodes@, i);
        for i in 0..self.nodes.len()
            invariant
                sound == (|i: int| node_is_valid(self.nodes@, i)),
                first_fault(sound, self.nodes@.len() as int, 0) == first_fault(
                    sound,
                    self.nodes@.len() as int,
                    i as int,
                ),
        {
            let node = &self.nodes[i];
            if node.inputs.len() != input_count(node.kind) || !check_readable(
                &self.nodes,
                &node.inputs,
                i,
            ) {
                assert(!sound(i as int));
                return Some(i);
            }
            assert(sound(i as int));
        }
        None
    }

    fn invalid_port(&self) -> (fault: Option<usize>)
        ensures
            fault is Some == first_fault(
                |i: int| port_is_valid(self.nodes@, self.ports@[i]),
                self.ports@.len() as int,
                0,
            ) is Some,
            fault is Some ==> first_fault(
                |i: int| port_is_valid(self.nodes@, self.ports@[i]),
                self.ports@.len() as int,
                0,
            ) == Some(fault->0 as int),
    {
        let ghost sound = |i: int| port_is_valid(self.nodes@, self.ports@[i]);
        for i in 0..self.ports.len()
            invariant
                sound == (|i: int| port_is_valid(self.nodes@, self.ports@[i])),
                first_fault(sound, self.ports@.len() as int, 0) == first_fault(
                    sound,
                    self.ports@.len() as int,
                    i as int,
                ),
        {
            let kind = match self.ports[i].direction {
                PortDirection::Input => NodeKind::Input,
                PortDirection::Output => NodeKind::Output,
            };
            if !check_kind(&self.nodes, &self.ports[i].bits, kind) {
                assert(!sound(i as int));
                return Some(i);
            }
            assert(sound(i as int));
        }
        None
    }

    fn invalid_register(&self) -> (fault: Option<usize>)
        ensures
            fault is Some == first_fault(
                |i: int| register_is_valid(self.nodes@, self.registers@[i]),
                self.registers@.len() as int,
                0,
            ) is Some,
            fault is Some ==> first_fault(
                |i: int| register_is_valid(self.nodes@, self.registers@[i]),
                self.registers@.len() as int,
                0,
            ) == Some(fault->0 as int),
    {
        let ghost sound = |i: int| register_is_valid(self.nodes@, self.registers@[i]);
        for i in 0..self.registers.len()
            invariant
                sound == (|i: int| register_is_valid(self.nodes@, self.registers@[i])),
                first_fault(sound, self.registers@.len() as int, 0) == first_fault(
                    sound,
                    self.registers@.len() as int,
                    i as int,
                ),
        {
            let register = &self.registers[i];
            let reads = nets_of_register(register);
            let driven = (register.output as usize) < self.nodes.len() && matches!(
                self.nodes[register.output as usize].kind,
                NodeKind::RegisterOutput
            );
            if !driven || !check_readable(&self.nodes, &reads, self.nodes.len()) {
                assert(!sound(i as int));
                return Some(i);
            }
            assert(sound(i as int));
        }
        None
    }

    fn invalid_memory(&self) -> (fault: Option<usize>)
        ensures
            fault is Some == first_fault(
                |i: int| memory_is_valid(self.nodes@, self.memories@[i]),
                self.memories@.len() as int,
                0,
            ) is Some,
            fault is Some ==> first_fault(
                |i: int| memory_is_valid(self.nodes@, self.memories@[i]),
                self.memories@.len() as int,
                0,
            ) == Some(fault->0 as int),
    {
        let ghost sound = |i: int| memory_is_valid(self.nodes@, self.memories@[i]);
        for i in 0..self.memories.len()
            invariant
                sound == (|i: int| memory_is_valid(self.nodes@, self.memories@[i])),
                first_fault(sound, self.memories@.len() as int, 0) == first_fault(
                    sound,
                    self.memories@.len() as int,
                    i as int,
                ),
        {
            if !check_memory(&self.nodes, &self.memories[i]) {
                assert(!sound(i as int));
                return Some(i);
            }
            assert(sound(i as int));
        }
        None
    }

    fn invalid_arithmetic(&self) -> (fault: Option<usize>)
        ensures
            fault is Some == first_fault(
                |i: int| arithmetic_is_valid(self.nodes@, self.arithmetic@[i]),
                self.arithmetic@.len() as int,
                0,
            ) is Some,
            fault is Some ==> first_fault(
                |i: int| arithmetic_is_valid(self.nodes@, self.arithmetic@[i]),
                self.arithmetic@.len() as int,
                0,
            ) == Some(fault->0 as int),
    {
        let ghost sound = |i: int| arithmetic_is_valid(self.nodes@, self.arithmetic@[i]);
        for i in 0..self.arithmetic.len()
            invariant
                sound == (|i: int| arithmetic_is_valid(self.nodes@, self.arithmetic@[i])),
                first_fault(sound, self.arithmetic@.len() as int, 0) == first_fault(
                    sound,
                    self.arithmetic@.len() as int,
                    i as int,
                ),
        {
            if !check_arithmetic(&self.nodes, &self.arithmetic[i]) {
                assert(!sound(i as int));
                return Some(i);
            }
            assert(sound(i as int));
        }
        None
    }

    fn invalid_comparison(&self) -> (fault: Option<usize>)
        ensures
            fault is Some == first_fault(
                |i: int| comparison_is_valid(self.nodes@, self.comparisons@[i]),
                self.comparisons@.len() as int,
                0,
            ) is Some,
            fault is Some ==> first_fault(
                |i: int| comparison_is_valid(self.nodes@, self.comparisons@[i]),
                self.comparisons@.len() as int,
                0,
            ) == Some(fault->0 as int),
    {
        let ghost sound = |i: int| comparison_is_valid(self.nodes@, self.comparisons@[i]);
        for i in 0..self.comparisons.len()
            invariant
                sound == (|i: int| comparison_is_valid(self.nodes@, self.comparisons@[i])),
                first_fault(sound, self.comparisons@.len() as int, 0) == first_fault(
                    sound,
                    self.comparisons@.len() as int,
                    i as int,
                ),
        {
            if !check_comparison(&self.nodes, &self.comparisons[i]) {
                assert(!sound(i as int));
                return Some(i);
            }
            assert(sound(i as int));
        }
        None
    }

    fn unconnected_node(&self) -> (fault: Option<usize>)
        requires
            self.nodes@.len() <= MAX_NODES,
        ensures
            fault is Some == first_fault(
                |i: int| node_is_connected(*self, i),
                self.nodes@.len() as int,
                0,
            ) is Some,
            fault is Some ==> first_fault(
                |i: int| node_is_connected(*self, i),
                self.nodes@.len() as int,
                0,
            ) == Some(fault->0 as int),
    {
        let ghost sound = |i: int| node_is_connected(*self, i);
        for i in 0..self.nodes.len()
            invariant
                self.nodes@.len() <= MAX_NODES,
                sound == (|i: int| node_is_connected(*self, i)),
                first_fault(sound, self.nodes@.len() as int, 0) == first_fault(
                    sound,
                    self.nodes@.len() as int,
                    i as int,
                ),
        {
            if !check_connected(self, i) {
                assert(!sound(i as int));
                return Some(i);
            }
            assert(sound(i as int));
        }
        None
    }

    /// Checks that the netlist can be mapped.
    pub fn validate(&self) -> (result: Result<(), ValidationError>)
        ensures
            result == match self.fault() {
                Some(error) => Err::<(), ValidationError>(error),
                None => Ok(()),
            },
            result is Ok <==> self.is_valid(),
    {
        proof {
            lemma_fault(*self);
        }
        if self.nodes.len() > MAX_NODES as usize {
            return Err(ValidationError::TooManyNodes);
        }
        if let Some(i) = self.invalid_node() {
            return Err(ValidationError::InvalidNode(i));
        }
        if let Some(i) = self.invalid_port() {
            return Err(ValidationError::InvalidPort(i));
        }
        if let Some(i) = self.invalid_register() {
            return Err(ValidationError::InvalidRegister(i));
        }
        if let Some(i) = self.invalid_memory() {
            return Err(ValidationError::InvalidMemory(i));
        }
        if let Some(i) = self.invalid_arithmetic() {
            return Err(ValidationError::InvalidArithmetic(i));
        }
        if let Some(i) = self.invalid_comparison() {
            return Err(ValidationError::InvalidComparison(i));
        }
        if let Some(i) = self.unconnected_node() {
            return Err(ValidationError::UnconnectedNode(i));
        }
        Ok(())
    }

    /// The value of a net that a constant drives.
    pub fn constant_value(&self, net: NetId) -> (value: Option<bool>)
        requires
            net < self.nodes@.len(),
        ensures
            value == constant_of(self.nodes@, net),
    {
        match self.nodes[net as usize].kind {
            NodeKind::Constant(value) => Some(value),
            _ => None,
        }
    }
}

/// The value of a net that a constant drives.
pub open spec fn constant_of(nodes: Seq<Node>, net: NetId) -> Option<bool> {
    match nodes[net as int].kind {
        NodeKind::Constant(value) => Some(value),
        _ => None,
    }
}

/// The wire number of a net.
pub open spec fn net_wire(net: NetId) -> u32 {
    (net + 2) as u32
}

/// The wire number of a net: constants keep the numbers below two.
pub fn wire_number(net: NetId) -> (wire: u32)
    requires
        net < MAX_NODES,
    ensures
        wire == net_wire(net),
{
    net + 2
}

/// The first port at or after `from` named `name`.
pub open spec fn port_from(ports: Seq<Port>, name: Seq<char>, from: int) -> Option<int>
    decreases ports.len() - from,
{
    if from >= ports.len() {
        None
    } else if ports[from].name@ == name {
        Some(from)
    } else {
        port_from(ports, name, from + 1)
    }
}

/// The first port named `name`.
pub open spec fn port_at(ports: Seq<Port>, name: Seq<char>) -> Option<int> {
    port_from(ports, name, 0)
}

/// The first port named `name`.
pub fn find_port(ports: &Vec<Port>, name: &String) -> (index: Option<usize>)
    ensures
        match index {
            Some(index) => index < ports@.len() && port_at(ports@, name@) == Some(index as int)
                && ports@[index as int].name@ == name@,
            None => port_at(ports@, name@) is None,
        },
{
    for i in 0..ports.len()
        invariant
            port_at(ports@, name@) == port_from(ports@, name@, i as int),
    {
        if ports[i].name == *name {
            return Some(i);
        }
    }
    None
}

} // verus!
