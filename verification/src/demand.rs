//! Which nets a netlist reads, how often, and which of them mapping must produce.

use vstd::prelude::*;

use crate::cells::clamped;
use crate::cuts::nodes_are_valid;
use crate::ir::all_of_kind;
use crate::ir::arithmetic_is_valid;
use crate::ir::arithmetic_reads;
use crate::ir::comparison_is_valid;
use crate::ir::comparison_reads;
use crate::ir::constant_of;
use crate::ir::extend_nets;
use crate::ir::memory_is_valid;
use crate::ir::memory_reads;
use crate::ir::nets_of_arithmetic;
use crate::ir::nets_of_comparison;
use crate::ir::nets_of_memory;
use crate::ir::nets_of_register;
use crate::ir::node_is_valid;
use crate::ir::port_is_valid;
use crate::ir::port_reads;
use crate::ir::readable;
use crate::ir::readable_below;
use crate::ir::register_is_valid;
use crate::ir::register_reads;
use crate::ir::ArithmeticCell;
use crate::ir::ComparisonCell;
use crate::ir::MemoryCell;
use crate::ir::NetId;
use crate::ir::Netlist;
use crate::ir::Node;
use crate::ir::NodeKind;
use crate::ir::Port;
use crate::ir::PortDirection;
use crate::ir::RegisterCell;

verus! {

/// The nets that nodes read.
pub open spec fn node_reads(nodes: Seq<Node>) -> Seq<NetId>
    decreases nodes.len(),
{
    if nodes.len() == 0 {
        seq![]
    } else {
        node_reads(nodes.drop_last()) + nodes.last().inputs@
    }
}

/// The nets that registers read.
pub open spec fn registers_reads(registers: Seq<RegisterCell>) -> Seq<NetId>
    decreases registers.len(),
{
    if registers.len() == 0 {
        seq![]
    } else {
        registers_reads(registers.drop_last()) + register_reads(registers.last())
    }
}

/// The nets that memories read.
pub open spec fn memories_reads(memories: Seq<MemoryCell>) -> Seq<NetId>
    decreases memories.len(),
{
    if memories.len() == 0 {
        seq![]
    } else {
        memories_reads(memories.drop_last()) + memory_reads(memories.last())
    }
}

/// The nets that arithmetic cells read.
pub open spec fn all_arithmetic_reads(cells: Seq<ArithmeticCell>) -> Seq<NetId>
    decreases cells.len(),
{
    if cells.len() == 0 {
        seq![]
    } else {
        all_arithmetic_reads(cells.drop_last()) + arithmetic_reads(cells.last())
    }
}

/// The nets that comparisons read.
pub open spec fn all_comparison_reads(cells: Seq<ComparisonCell>) -> Seq<NetId>
    decreases cells.len(),
{
    if cells.len() == 0 {
        seq![]
    } else {
        all_comparison_reads(cells.drop_last()) + comparison_reads(cells.last())
    }
}

/// Every net that is read, once for each reading pin.
pub open spec fn all_reads(netlist: Netlist) -> Seq<NetId> {
    node_reads(netlist.nodes@) + registers_reads(netlist.registers@) + memories_reads(
        netlist.memories@,
    ) + all_arithmetic_reads(netlist.arithmetic@) + all_comparison_reads(netlist.comparisons@)
}

/// How often `net` is in `nets`.
pub open spec fn net_count(nets: Seq<NetId>, net: int) -> nat
    decreases nets.len(),
{
    if nets.len() == 0 {
        0
    } else {
        net_count(nets.drop_last(), net) + if nets.last() == net {
            1nat
        } else {
            0
        }
    }
}

/// How many pins read each net.
pub open spec fn fanouts_of(netlist: Netlist) -> Seq<usize> {
    Seq::new(netlist.nodes@.len(), |i: int| clamped(net_count(all_reads(netlist), i)))
}

/// Whether every net of `nets` is driven by a node.
pub open spec fn all_below(nets: Seq<NetId>, limit: int) -> bool {
    forall|i: int| 0 <= i < nets.len() ==> #[trigger] nets[i] < limit
}

fn reads_of_nodes(nodes: &Vec<Node>) -> (nets: Vec<NetId>)
    requires
        nodes_are_valid(nodes@),
    ensures
        nets@ == node_reads(nodes@),
        all_below(nets@, nodes@.len() as int),
{
    let mut nets: Vec<NetId> = Vec::new();
    for i in 0..nodes.len()
        invariant
            nodes_are_valid(nodes@),
            nets@ == node_reads(nodes@.take(i as int)),
            all_below(nets@, nodes@.len() as int),
    {
        assert(nodes@.take(i + 1).drop_last() =~= nodes@.take(i as int));
        assert(node_is_valid(nodes@, i as int));
        let ghost before = nets@;
        extend_nets(&mut nets, &nodes[i].inputs);
        assert forall|k: int| 0 <= k < nets@.len() implies #[trigger] nets@[k] < nodes@.len() by {
            if k >= before.len() {
                assert(readable(nodes@, nodes@[i as int].inputs@[k - before.len()]));
            } else {
                assert(before[k] < nodes@.len());
            }
        }
    }
    assert(nodes@.take(nodes@.len() as int) =~= nodes@);
    nets
}

fn append_below(nets: &mut Vec<NetId>, more: &Vec<NetId>, Ghost(limit): Ghost<int>)
    requires
        all_below(old(nets)@, limit),
        all_below(more@, limit),
    ensures
        final(nets)@ == old(nets)@ + more@,
        all_below(final(nets)@, limit),
{
    let ghost before = nets@;
    extend_nets(nets, more);
    assert forall|k: int| 0 <= k < nets@.len() implies #[trigger] nets@[k] < limit by {
        if k >= before.len() {
            assert(more@[k - before.len()] < limit);
        } else {
            assert(before[k] < limit);
        }
    }
}

proof fn lemma_readable_below(nodes: Seq<Node>, nets: Seq<NetId>, limit: int)
    requires
        readable_below(nodes, nets, limit),
    ensures
        all_below(nets, nodes.len() as int),
        all_below(nets, limit),
{
    assert forall|i: int| 0 <= i < nets.len() implies #[trigger] nets[i] < nodes.len() && nets[i]
        < limit by {
        assert(readable(nodes, nets[i]));
    }
}

fn reads_of_memories(netlist: &Netlist) -> (nets: Vec<NetId>)
    requires
        netlist.is_valid(),
    ensures
        nets@ == memories_reads(netlist.memories@),
        all_below(nets@, netlist.nodes@.len() as int),
{
    let mut nets: Vec<NetId> = Vec::new();
    for i in 0..netlist.memories.len()
        invariant
            netlist.is_valid(),
            nets@ == memories_reads(netlist.memories@.take(i as int)),
            all_below(nets@, netlist.nodes@.len() as int),
    {
        assert(netlist.memories@.take(i + 1).drop_last() =~= netlist.memories@.take(i as int));
        let more = nets_of_memory(&netlist.memories[i]);
        proof {
            let memory = netlist.memories@[i as int];
            let n = netlist.nodes@.len() as int;
            lemma_readable_below(netlist.nodes@, port_reads(memory.port), n);
            if let Some(port) = memory.second_port {
                lemma_readable_below(netlist.nodes@, port_reads(port), n);
                assert forall|k: int| 0 <= k < more@.len() implies #[trigger] more@[k] < n by {
                    let first = port_reads(memory.port);
                    if k < first.len() {
                        assert(first[k] < n);
                    } else {
                        assert(port_reads(port)[k - first.len()] < n);
                    }
                }
            }
        }
        append_below(&mut nets, &more, Ghost(netlist.nodes@.len() as int));
    }
    assert(netlist.memories@.take(netlist.memories@.len() as int) =~= netlist.memories@);
    nets
}

fn reads_of_arithmetic(netlist: &Netlist) -> (nets: Vec<NetId>)
    requires
        netlist.is_valid(),
    ensures
        nets@ == all_arithmetic_reads(netlist.arithmetic@),
        all_below(nets@, netlist.nodes@.len() as int),
{
    let mut nets: Vec<NetId> = Vec::new();
    for i in 0..netlist.arithmetic.len()
        invariant
            netlist.is_valid(),
            nets@ == all_arithmetic_reads(netlist.arithmetic@.take(i as int)),
            all_below(nets@, netlist.nodes@.len() as int),
    {
        assert(netlist.arithmetic@.take(i + 1).drop_last() =~= netlist.arithmetic@.take(i as int));
        let more = nets_of_arithmetic(&netlist.arithmetic[i]);
        proof {
            let cell = netlist.arithmetic@[i as int];
            lemma_readable_below(netlist.nodes@, more@, cell.outputs@[0] as int);
        }
        append_below(&mut nets, &more, Ghost(netlist.nodes@.len() as int));
    }
    assert(netlist.arithmetic@.take(netlist.arithmetic@.len() as int) =~= netlist.arithmetic@);
    nets
}

fn reads_of_comparisons(netlist: &Netlist) -> (nets: Vec<NetId>)
    requires
        netlist.is_valid(),
    ensures
        nets@ == all_comparison_reads(netlist.comparisons@),
        all_below(nets@, netlist.nodes@.len() as int),
{
    let mut nets: Vec<NetId> = Vec::new();
    for i in 0..netlist.comparisons.len()
        invariant
            netlist.is_valid(),
            nets@ == all_comparison_reads(netlist.comparisons@.take(i as int)),
            all_below(nets@, netlist.nodes@.len() as int),
    {
        assert(netlist.comparisons@.take(i + 1).drop_last() =~= netlist.comparisons@.take(
            i as int,
        ));
        let more = nets_of_comparison(&netlist.comparisons[i]);
        proof {
            lemma_readable_below(
                netlist.nodes@,
                more@,
                netlist.comparisons@[i as int].output as int,
            );
        }
        append_below(&mut nets, &more, Ghost(netlist.nodes@.len() as int));
    }
    assert(netlist.comparisons@.take(netlist.comparisons@.len() as int) =~= netlist.comparisons@);
    nets
}

fn count_nets(nets: &Vec<NetId>, size: usize) -> (counts: Vec<usize>)
    requires
        all_below(nets@, size as int),
    ensures
        counts@ == Seq::new(size as nat, |i: int| clamped(net_count(nets@, i))),
{
    let mut counts: Vec<usize> = Vec::new();
    for i in 0..size
        invariant
            counts@.len() == i,
            forall|j: int| 0 <= j < i ==> counts@[j] == 0,
    {
        counts.push(0);
    }
    for i in 0..nets.len()
        invariant
            all_below(nets@, size as int),
            counts@.len() == size,
            forall|j: int|
                0 <= j < size ==> counts@[j] == clamped(net_count(nets@.take(i as int), j)),
    {
        assert(nets@.take(i + 1).drop_last() =~= nets@.take(i as int));
        assert(nets@[i as int] < size);
        let net = nets[i] as usize;
        let count = counts[net];
        if count < usize::MAX {
            counts.set(net, count + 1);
        }
    }
    assert(nets@.take(nets@.len() as int) =~= nets@);
    assert(counts@ =~= Seq::new(size as nat, |i: int| clamped(net_count(nets@, i))));
    counts
}

/// How many pins read each net.
pub fn structural_fanouts(netlist: &Netlist) -> (fanouts: Vec<usize>)
    requires
        netlist.is_valid(),
    ensures
        fanouts@ == fanouts_of(*netlist),
{
    let ghost n = netlist.nodes@.len() as int;
    let mut nets = reads_of_nodes(&netlist.nodes);
    let mut registers: Vec<NetId> = Vec::new();
    for i in 0..netlist.registers.len()
        invariant
            n == netlist.nodes@.len(),
            netlist.is_valid(),
            registers@ == registers_reads(netlist.registers@.take(i as int)),
            all_below(registers@, n),
    {
        assert(netlist.registers@.take(i + 1).drop_last() =~= netlist.registers@.take(i as int));
        let more = nets_of_register(&netlist.registers[i]);
        proof {
            assert(register_is_valid(netlist.nodes@, netlist.registers@[i as int]));
            lemma_readable_below(netlist.nodes@, more@, n);
        }
        append_below(&mut registers, &more, Ghost(n));
    }
    assert(netlist.registers@.take(netlist.registers@.len() as int) =~= netlist.registers@);
    append_below(&mut nets, &registers, Ghost(n));
    let memories = reads_of_memories(netlist);
    append_below(&mut nets, &memories, Ghost(n));
    let arithmetic = reads_of_arithmetic(netlist);
    append_below(&mut nets, &arithmetic, Ghost(n));
    let comparisons = reads_of_comparisons(netlist);
    append_below(&mut nets, &comparisons, Ghost(n));
    count_nets(&nets, netlist.nodes.len())
}

/// Whether a register holds one value from configuration on: its data is a
/// constant, and a reset, if there is one, loads the same constant.
pub open spec fn register_constant(nodes: Seq<Node>, register: RegisterCell) -> Option<bool> {
    match constant_of(nodes, register.data) {
        Some(value) => match register.reset {
            Some(reset) => if reset.value == value {
                Some(value)
            } else {
                None
            },
            None => Some(value),
        },
        None => None,
    }
}

/// The value of a register output that never changes; the last register that drives `net` decides.
pub open spec fn constant_output(
    nodes: Seq<Node>,
    registers: Seq<RegisterCell>,
    net: NetId,
) -> Option<bool>
    decreases registers.len(),
{
    if registers.len() == 0 {
        None
    } else if registers.last().output == net && register_constant(nodes, registers.last()) is Some {
        register_constant(nodes, registers.last())
    } else {
        constant_output(nodes, registers.drop_last(), net)
    }
}

/// The value of a register output that never changes.
pub fn constant_register_value(netlist: &Netlist, net: NetId) -> (value: Option<bool>)
    requires
        netlist.is_valid(),
    ensures
        value == constant_output(netlist.nodes@, netlist.registers@, net),
{
    let mut value: Option<bool> = None;
    for i in 0..netlist.registers.len()
        invariant
            netlist.is_valid(),
            value == constant_output(netlist.nodes@, netlist.registers@.take(i as int), net),
    {
        assert(netlist.registers@.take(i + 1).drop_last() =~= netlist.registers@.take(i as int));
        let register = &netlist.registers[i];
        proof {
            assert(register_is_valid(netlist.nodes@, netlist.registers@[i as int]));
            assert(register_reads(*register)[0] == register.data);
            assert(readable(netlist.nodes@, register_reads(*register)[0]));
        }
        if register.output == net {
            if let Some(constant) = netlist.constant_value(register.data) {
                let kept = match register.reset {
                    Some(reset) => reset.value == constant,
                    None => true,
                };
                if kept {
                    value = Some(constant);
                }
            }
        }
    }
    assert(netlist.registers@.take(netlist.registers@.len() as int) =~= netlist.registers@);
    value
}

/// The nets behind the bits of output ports.
pub open spec fn bit_sources(nodes: Seq<Node>, bits: Seq<NetId>) -> Seq<NetId> {
    Seq::new(bits.len(), |i: int| nodes[bits[i] as int].inputs@[0])
}

/// The nets behind the output ports.
pub open spec fn output_sources(nodes: Seq<Node>, ports: Seq<Port>) -> Seq<NetId>
    decreases ports.len(),
{
    if ports.len() == 0 {
        seq![]
    } else {
        let rest = output_sources(nodes, ports.drop_last());
        if ports.last().direction is Output {
            rest + bit_sources(nodes, ports.last().bits@)
        } else {
            rest
        }
    }
}

/// The nets that registers read, without those whose output never changes.
pub open spec fn live_register_reads(
    netlist: Netlist,
    registers: Seq<RegisterCell>,
) -> Seq<NetId>
    decreases registers.len(),
{
    if registers.len() == 0 {
        seq![]
    } else {
        let rest = live_register_reads(netlist, registers.drop_last());
        if constant_output(netlist.nodes@, netlist.registers@, registers.last().output) is Some {
            rest
        } else {
            rest + register_reads(registers.last())
        }
    }
}

/// The nets that mapping must produce, once for each pin that reads them.
pub open spec fn demanded(netlist: Netlist) -> Seq<NetId> {
    output_sources(netlist.nodes@, netlist.ports@) + live_register_reads(
        netlist,
        netlist.registers@,
    ) + memories_reads(netlist.memories@) + all_arithmetic_reads(netlist.arithmetic@)
        + all_comparison_reads(netlist.comparisons@)
}

/// Whether every net of `nets` can be read.
pub open spec fn all_readable(nodes: Seq<Node>, nets: Seq<NetId>) -> bool {
    readable_below(nodes, nets, nodes.len() as int)
}

proof fn lemma_readable_concat(nodes: Seq<Node>, first: Seq<NetId>, second: Seq<NetId>)
    requires
        all_readable(nodes, first),
        all_readable(nodes, second),
    ensures
        all_readable(nodes, first + second),
{
    let nets = first + second;
    assert forall|k: int| 0 <= k < nets.len() implies readable(nodes, #[trigger] nets[k]) && nets[k]
        < nodes.len() by {
        if k < first.len() {
            assert(readable(nodes, first[k]));
        } else {
            assert(readable(nodes, second[k - first.len()]));
        }
    }
}

proof fn lemma_memories_readable(netlist: Netlist, memories: Seq<MemoryCell>)
    requires
        forall|i: int|
            0 <= i < memories.len() ==> memory_is_valid(netlist.nodes@, #[trigger] memories[i]),
    ensures
        all_readable(netlist.nodes@, memories_reads(memories)),
    decreases memories.len(),
{
    if memories.len() > 0 {
        lemma_memories_readable(netlist, memories.drop_last());
        let memory = memories.last();
        assert(memory_is_valid(netlist.nodes@, memories[memories.len() - 1]));
        if let Some(port) = memory.second_port {
            lemma_readable_concat(netlist.nodes@, port_reads(memory.port), port_reads(port));
        }
        lemma_readable_concat(
            netlist.nodes@,
            memories_reads(memories.drop_last()),
            memory_reads(memory),
        );
    }
}

proof fn lemma_raise(nodes: Seq<Node>, nets: Seq<NetId>, limit: int)
    requires
        readable_below(nodes, nets, limit),
    ensures
        all_readable(nodes, nets),
{
    assert forall|k: int| 0 <= k < nets.len() implies readable(nodes, #[trigger] nets[k]) && nets[k]
        < nodes.len() by {
        assert(readable(nodes, nets[k]));
    }
}

proof fn lemma_arithmetic_readable(netlist: Netlist, cells: Seq<ArithmeticCell>)
    requires
        forall|i: int|
            0 <= i < cells.len() ==> arithmetic_is_valid(netlist.nodes@, #[trigger] cells[i]),
    ensures
        all_readable(netlist.nodes@, all_arithmetic_reads(cells)),
    decreases cells.len(),
{
    if cells.len() > 0 {
        lemma_arithmetic_readable(netlist, cells.drop_last());
        assert(arithmetic_is_valid(netlist.nodes@, cells[cells.len() - 1]));
        lemma_raise(
            netlist.nodes@,
            arithmetic_reads(cells.last()),
            cells.last().outputs@[0] as int,
        );
        lemma_readable_concat(
            netlist.nodes@,
            all_arithmetic_reads(cells.drop_last()),
            arithmetic_reads(cells.last()),
        );
    }
}

proof fn lemma_comparisons_readable(netlist: Netlist, cells: Seq<ComparisonCell>)
    requires
        forall|i: int|
            0 <= i < cells.len() ==> comparison_is_valid(netlist.nodes@, #[trigger] cells[i]),
    ensures
        all_readable(netlist.nodes@, all_comparison_reads(cells)),
    decreases cells.len(),
{
    if cells.len() > 0 {
        lemma_comparisons_readable(netlist, cells.drop_last());
        assert(comparison_is_valid(netlist.nodes@, cells[cells.len() - 1]));
        lemma_raise(netlist.nodes@, comparison_reads(cells.last()), cells.last().output as int);
        lemma_readable_concat(
            netlist.nodes@,
            all_comparison_reads(cells.drop_last()),
            comparison_reads(cells.last()),
        );
    }
}

/// The nets behind the output ports.
pub(crate) fn sources_of_outputs(netlist: &Netlist) -> (nets: Vec<NetId>)
    requires
        netlist.is_valid(),
    ensures
        nets@ == output_sources(netlist.nodes@, netlist.ports@),
        all_readable(netlist.nodes@, nets@),
{
    let mut nets: Vec<NetId> = Vec::new();
    for i in 0..netlist.ports.len()
        invariant
            netlist.is_valid(),
            nets@ == output_sources(netlist.nodes@, netlist.ports@.take(i as int)),
            all_readable(netlist.nodes@, nets@),
    {
        assert(netlist.ports@.take(i + 1).drop_last() =~= netlist.ports@.take(i as int));
        assert(port_is_valid(netlist.nodes@, netlist.ports@[i as int]));
        if let PortDirection::Output = netlist.ports[i].direction {
            let ghost before = nets@;
            let bits = &netlist.ports[i].bits;
            for b in 0..bits.len()
                invariant
                    netlist.is_valid(),
                    all_of_kind(netlist.nodes@, bits@, NodeKind::Output),
                    nets@ == before + bit_sources(netlist.nodes@, bits@).take(b as int),
                    all_readable(netlist.nodes@, nets@),
            {
                let bit = bits[b] as usize;
                proof {
                    assert(bits@[b as int] < netlist.nodes@.len());
                    assert(node_is_valid(netlist.nodes@, bit as int));
                    assert(readable(netlist.nodes@, netlist.nodes@[bit as int].inputs@[0]));
                }
                let ghost now = nets@;
                nets.push(netlist.nodes[bit].inputs[0]);
                assert(nets@ =~= before + bit_sources(netlist.nodes@, bits@).take(b + 1));
                assert forall|k: int| 0 <= k < nets@.len() implies readable(
                    netlist.nodes@,
                    #[trigger] nets@[k],
                ) && nets@[k] < netlist.nodes@.len() by {
                    if k < now.len() {
                        assert(readable(netlist.nodes@, now[k]));
                    }
                }
            }
            assert(bit_sources(netlist.nodes@, bits@).take(bits@.len() as int) =~= bit_sources(
                netlist.nodes@,
                bits@,
            ));
        }
    }
    assert(netlist.ports@.take(netlist.ports@.len() as int) =~= netlist.ports@);
    nets
}

/// Demanded nets of a netlist.
pub struct MappingDemand {
    /// The nets, once for each pin that reads them.
    pub roots: Vec<NetId>,
}

impl MappingDemand {
    /// Lists the nets that mapping must produce.
    ///
    /// Duplicates stay: they are distinct physical sink pins.
    pub fn collect(netlist: &Netlist) -> (demand: Self)
        requires
            netlist.is_valid(),
        ensures
            demand.roots@ == demanded(*netlist),
            all_readable(netlist.nodes@, demand.roots@),
    {
        let mut roots = sources_of_outputs(netlist);
        let mut registers: Vec<NetId> = Vec::new();
        for i in 0..netlist.registers.len()
            invariant
                netlist.is_valid(),
                registers@ == live_register_reads(*netlist, netlist.registers@.take(i as int)),
                all_readable(netlist.nodes@, registers@),
        {
            assert(netlist.registers@.take(i + 1).drop_last() =~= netlist.registers@.take(
                i as int,
            ));
            assert(register_is_valid(netlist.nodes@, netlist.registers@[i as int]));
            if constant_register_value(netlist, netlist.registers[i].output).is_none() {
                let more = nets_of_register(&netlist.registers[i]);
                proof {
                    lemma_readable_concat(netlist.nodes@, registers@, more@);
                }
                extend_nets(&mut registers, &more);
            }
        }
        assert(netlist.registers@.take(netlist.registers@.len() as int) =~= netlist.registers@);
        proof {
            lemma_readable_concat(netlist.nodes@, roots@, registers@);
        }
        extend_nets(&mut roots, &registers);
        let memories = reads_of_memories(netlist);
        proof {
            lemma_memories_readable(*netlist, netlist.memories@);
            lemma_readable_concat(netlist.nodes@, roots@, memories@);
        }
        extend_nets(&mut roots, &memories);
        let arithmetic = reads_of_arithmetic(netlist);
        proof {
            lemma_arithmetic_readable(*netlist, netlist.arithmetic@);
            lemma_readable_concat(netlist.nodes@, roots@, arithmetic@);
        }
        extend_nets(&mut roots, &arithmetic);
        let comparisons = reads_of_comparisons(netlist);
        proof {
            lemma_comparisons_readable(*netlist, netlist.comparisons@);
            lemma_readable_concat(netlist.nodes@, roots@, comparisons@);
        }
        extend_nets(&mut roots, &comparisons);
        MappingDemand { roots }
    }
}

} // verus!
