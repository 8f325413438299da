//! Registered boundaries: which state an input reaches and an output comes from.

use vstd::prelude::*;

use crate::demand::all_below;
use crate::demand::output_sources;
use crate::demand::sources_of_outputs;
use crate::errors::between;
use crate::errors::fault_of;
use crate::errors::MappingError;
use crate::errors::MappingFault;
use crate::ir::arithmetic_reads;
use crate::ir::comparison_reads;
use crate::ir::enable_net;
use crate::ir::extend_nets;
use crate::ir::holds_net;
use crate::ir::nets_of_arithmetic;
use crate::ir::nets_of_comparison;
use crate::ir::port_is_valid;
use crate::ir::port_samples;
use crate::ir::samples_of_port;
use crate::ir::ArithmeticCell;
use crate::ir::ComparisonCell;
use crate::ir::MemoryCell;
use crate::ir::NetId;
use crate::ir::Netlist;
use crate::ir::NodeKind;
use crate::ir::Port;
use crate::ir::RegisterCell;
use crate::text::decimal;
use crate::text::decimal_text;
use crate::walk::mark_nets;
use crate::walk::neighbour_lists;
use crate::walk::net_fanouts;
use crate::walk::ooc_combinational_fanouts;
use crate::walk::reach;
use crate::walk::reached;

verus! {

/// The nets a register samples as data or enable.
pub open spec fn data_samples(register: RegisterCell) -> Seq<NetId> {
    seq![register.data] + enable_net(register.enable)
}

/// `nets`, or none of them where `skip` is `clock`.
pub open spec fn unless_clock(nets: Seq<NetId>, clock: NetId, skip: Option<NetId>) -> Seq<NetId> {
    if skip == Some(clock) {
        seq![]
    } else {
        nets
    }
}

/// What registers sample, except on clock `skip`.
pub open spec fn register_sampled(registers: Seq<RegisterCell>, skip: Option<NetId>) -> Seq<NetId>
    decreases registers.len(),
{
    if registers.len() == 0 {
        seq![]
    } else {
        register_sampled(registers.drop_last(), skip) + unless_clock(
            data_samples(registers.last()),
            registers.last().clock,
            skip,
        )
    }
}

/// What memories sample, except on clock `skip`.
pub open spec fn memory_sampled(memories: Seq<MemoryCell>, skip: Option<NetId>) -> Seq<NetId>
    decreases memories.len(),
{
    if memories.len() == 0 {
        seq![]
    } else {
        let memory = memories.last();
        let first = memory_sampled(memories.drop_last(), skip) + unless_clock(
            port_samples(memory.port),
            memory.port.clock,
            skip,
        );
        match memory.second_port {
            Some(port) => first + unless_clock(port_samples(port), port.clock, skip),
            None => first,
        }
    }
}

/// What state samples, except on clock `skip`.
pub open spec fn sampled(netlist: Netlist, skip: Option<NetId>) -> Seq<NetId> {
    register_sampled(netlist.registers@, skip) + memory_sampled(netlist.memories@, skip)
}

fn add_unless(nets: &mut Vec<NetId>, more: &Vec<NetId>, clock: NetId, skip: Option<NetId>)
    ensures
        final(nets)@ == old(nets)@ + unless_clock(more@, clock, skip),
{
    let ghost before = nets@;
    let skipped = match skip {
        Some(other) => other == clock,
        None => false,
    };
    if !skipped {
        extend_nets(nets, more);
    } else {
        assert(before + Seq::<NetId>::empty() =~= before);
    }
}

fn list_sampled(netlist: &Netlist, skip: Option<NetId>) -> (nets: Vec<NetId>)
    ensures
        nets@ == sampled(*netlist, skip),
{
    let mut nets: Vec<NetId> = Vec::new();
    for i in 0..netlist.registers.len()
        invariant
            nets@ == register_sampled(netlist.registers@.take(i as int), skip),
    {
        assert(netlist.registers@.take(i + 1).drop_last() =~= netlist.registers@.take(i as int));
        let register = &netlist.registers[i];
        let mut more: Vec<NetId> = Vec::new();
        more.push(register.data);
        if let Some(enable) = register.enable {
            more.push(enable.signal);
        }
        assert(more@ =~= data_samples(*register));
        add_unless(&mut nets, &more, register.clock, skip);
    }
    assert(netlist.registers@.take(netlist.registers@.len() as int) =~= netlist.registers@);
    let ghost registers = nets@;
    let ghost none: Seq<MemoryCell> = netlist.memories@.take(0);
    assert(registers + memory_sampled(none, skip) =~= registers);
    for i in 0..netlist.memories.len()
        invariant
            nets@ == registers + memory_sampled(netlist.memories@.take(i as int), skip),
    {
        assert(netlist.memories@.take(i + 1).drop_last() =~= netlist.memories@.take(i as int));
        let memory = &netlist.memories[i];
        let ghost before = memory_sampled(netlist.memories@.take(i as int), skip);
        let samples = samples_of_port(&memory.port);
        add_unless(&mut nets, &samples, memory.port.clock, skip);
        let ghost first = unless_clock(port_samples(memory.port), memory.port.clock, skip);
        assert(nets@ =~= registers + (before + first));
        if let Some(port) = &memory.second_port {
            let others = samples_of_port(port);
            add_unless(&mut nets, &others, port.clock, skip);
            assert(nets@ =~= registers + (before + first + unless_clock(
                port_samples(*port),
                port.clock,
                skip,
            )));
        }
    }
    assert(netlist.memories@.take(netlist.memories@.len() as int) =~= netlist.memories@);
    nets
}

/// Why an input bit is no registered boundary.
#[derive(Clone, Copy, Debug, Eq, PartialEq, Structural)]
pub enum BoundaryFault {
    /// A combinational path leads to an output, or comes from an input.
    Combinational,
    /// A register on another clock.
    ForeignState,
    /// A memory on another clock.
    ForeignMemory,
    /// No state at all.
    Unregistered,
}

/// The first fault along the nets that an input bit reaches.
pub open spec fn input_fault_from(
    order: Seq<NetId>,
    outputs: Seq<NetId>,
    foreign: Seq<NetId>,
    from: int,
) -> Option<BoundaryFault>
    decreases order.len() - from,
{
    if from >= order.len() {
        None
    } else if outputs.contains(order[from]) {
        Some(BoundaryFault::Combinational)
    } else if foreign.contains(order[from]) {
        Some(BoundaryFault::ForeignState)
    } else {
        input_fault_from(order, outputs, foreign, from + 1)
    }
}

/// Whether one of `order` is among `nets`.
pub open spec fn meets(order: Seq<NetId>, nets: Seq<NetId>) -> bool {
    exists|i: int| 0 <= i < order.len() && nets.contains(#[trigger] order[i])
}

/// The fanouts of each net.
pub open spec fn all_fanouts(netlist: Netlist) -> Seq<Seq<NetId>> {
    Seq::new(netlist.nodes@.len(), |net: int| net_fanouts(netlist, net as NetId))
}

/// Why an input bit is no boundary registered on `clock`: it reaches an output
/// or state on another clock, whichever the walk meets first, or no state.
pub open spec fn input_bit_fault(netlist: Netlist, bit: NetId, clock: NetId) -> Option<
    BoundaryFault,
> {
    let order = reached(all_fanouts(netlist), seq![bit]);
    match input_fault_from(
        order,
        output_sources(netlist.nodes@, netlist.ports@),
        sampled(netlist, Some(clock)),
        0,
    ) {
        Some(fault) => Some(fault),
        None => if meets(order, sampled(netlist, None)) {
            None
        } else {
            Some(BoundaryFault::Unregistered)
        },
    }
}

/// The first bit at or after `from` with a fault, and that fault.
pub open spec fn input_fault(
    netlist: Netlist,
    bits: Seq<NetId>,
    clock: NetId,
    from: int,
) -> Option<(int, BoundaryFault)>
    decreases bits.len() - from,
{
    if from >= bits.len() {
        None
    } else {
        match input_bit_fault(netlist, bits[from], clock) {
            Some(fault) => Some((from, fault)),
            None => input_fault(netlist, bits, clock, from + 1),
        }
    }
}

/// A port bit in words.
pub open spec fn bit_label(kind: Seq<char>, port: Seq<char>, bit: nat) -> Seq<char> {
    kind + " `"@ + port + "["@ + decimal_text(bit) + "]` "@
}

fn write_bit_label(kind: &str, port: &String, bit: usize) -> (text: String)
    ensures
        text@ == bit_label(kind@, port@, bit as nat),
{
    let mut text = between(kind, " `", port.as_str());
    text.append("[");
    text.append(decimal(bit as u128).as_str());
    text.append("]` ");
    text
}

/// An input boundary fault in words.
pub open spec fn input_message(
    port: Seq<char>,
    bit: nat,
    fault: BoundaryFault,
    clock: Seq<char>,
) -> Seq<char> {
    bit_label("input"@, port, bit) + match fault {
        BoundaryFault::Combinational =>
            "has a combinational path to an output; OOC boundaries must be registered"@,
        BoundaryFault::Unregistered => "does not reach a registered boundary"@,
        _ => "reaches state outside declared clock `"@ + clock + "`"@,
    }
}

/// Checks that every bit of an input reaches state on one clock and nothing else.
pub fn validate_ooc_input_boundary(
    netlist: &Netlist,
    port: &Port,
    expected_clock: NetId,
    clock_name: &String,
) -> (result: Result<(), MappingError>)
    requires
        netlist.is_valid(),
    ensures
        fault_of(result) == match input_fault(*netlist, port.bits@, expected_clock, 0) {
            Some((bit, fault)) => Some(
                MappingFault::InvalidOocConstraint(
                    input_message(port.name@, bit as nat, fault, clock_name@),
                ),
            ),
            None => None,
        },
{
    let fanouts = ooc_combinational_fanouts(netlist);
    assert(neighbour_lists(fanouts@) =~= all_fanouts(*netlist));
    let outputs = sources_of_outputs(netlist);
    let foreign = list_sampled(netlist, Some(expected_clock));
    let all = list_sampled(netlist, None);
    let count = netlist.nodes.len();
    let is_output = mark_nets(&outputs, count);
    let is_foreign = mark_nets(&foreign, count);
    let is_sampled = mark_nets(&all, count);
    for b in 0..port.bits.len()
        invariant
            netlist.is_valid(),
            neighbour_lists(fanouts@) == all_fanouts(*netlist),
            fanouts@.len() == count,
            count == netlist.nodes@.len(),
            outputs@ == output_sources(netlist.nodes@, netlist.ports@),
            foreign@ == sampled(*netlist, Some(expected_clock)),
            all@ == sampled(*netlist, None),
            is_output@.len() == count,
            is_foreign@.len() == count,
            is_sampled@.len() == count,
            forall|i: int| 0 <= i < count && i <= u32::MAX ==> #[trigger] is_output@[i]
                == outputs@.contains(i as NetId),
            forall|i: int| 0 <= i < count && i <= u32::MAX ==> #[trigger] is_foreign@[i]
                == foreign@.contains(i as NetId),
            forall|i: int| 0 <= i < count && i <= u32::MAX ==> #[trigger] is_sampled@[i]
                == all@.contains(i as NetId),
            input_fault(*netlist, port.bits@, expected_clock, 0) == input_fault(
                *netlist,
                port.bits@,
                expected_clock,
                b as int,
            ),
    {
        let mut start: Vec<NetId> = Vec::new();
        start.push(port.bits[b]);
        assert(start@ =~= seq![port.bits@[b as int]]);
        let order = reach(&fanouts, &start);
        let ghost bit_fault = input_bit_fault(*netlist, port.bits@[b as int], expected_clock);
        let mut fault: Option<BoundaryFault> = None;
        let mut found = false;
        let mut k: usize = 0;
        while k < order.len() && fault.is_none()
            invariant
                k <= order@.len(),
                all_below(order@, count as int),
                count == netlist.nodes@.len(),
                is_output@.len() == count,
                is_foreign@.len() == count,
                is_sampled@.len() == count,
                forall|i: int| 0 <= i < count && i <= u32::MAX ==> #[trigger] is_output@[i]
                    == outputs@.contains(i as NetId),
                forall|i: int| 0 <= i < count && i <= u32::MAX ==> #[trigger] is_foreign@[i]
                    == foreign@.contains(i as NetId),
                forall|i: int| 0 <= i < count && i <= u32::MAX ==> #[trigger] is_sampled@[i]
                    == all@.contains(i as NetId),
                fault is None ==> input_fault_from(order@, outputs@, foreign@, 0)
                    == input_fault_from(order@, outputs@, foreign@, k as int),
                fault is Some ==> input_fault_from(order@, outputs@, foreign@, 0) == fault,
                fault is None ==> found == meets(order@.take(k as int), all@),
            decreases order@.len() - k,
        {
            assert(order@[k as int] < count);
            let net = order[k] as usize;
            assert(is_output@[net as int] == outputs@.contains(order@[k as int]));
            assert(is_foreign@[net as int] == foreign@.contains(order@[k as int]));
            assert(is_sampled@[net as int] == all@.contains(order@[k as int]));
            let ghost now = order@.take(k as int);
            let ghost next = order@.take(k + 1);
            let ghost found_before = found;
            if is_output[net] {
                fault = Some(BoundaryFault::Combinational);
            } else if is_foreign[net] {
                fault = Some(BoundaryFault::ForeignState);
            } else if is_sampled[net] {
                found = true;
                assert(all@.contains(next[k as int]));
            }
            proof {
                if fault is None {
                    if meets(now, all@) {
                        let i = choose|i: int| 0 <= i < now.len() && all@.contains(#[trigger] now[i]);
                        assert(all@.contains(next[i]));
                    }
                    if meets(next, all@) {
                        let i = choose|i: int|
                            0 <= i < next.len() && all@.contains(#[trigger] next[i]);
                        if i < k {
                            assert(all@.contains(now[i]));
                        }
                    }
                }
            }
            k += 1;
        }
        assert(order@.take(order@.len() as int) =~= order@);
        if fault.is_none() && !found {
            fault = Some(BoundaryFault::Unregistered);
        }
        assert(fault == bit_fault);
        if let Some(fault) = fault {
            let mut text = write_bit_label("input", &port.name, b);
            match fault {
                BoundaryFault::Combinational => text.append(
                    "has a combinational path to an output; OOC boundaries must be registered",
                ),
                BoundaryFault::Unregistered => text.append("does not reach a registered boundary"),
                _ => text.append(
                    between(
                        "reaches state outside declared clock `",
                        clock_name.as_str(),
                        "`",
                    ).as_str(),
                ),
            }
            return Err(MappingError::InvalidOocConstraint(text));
        }
    }
    Ok(())
}

/// What registers read synchronously.
pub open spec fn register_synchronous(registers: Seq<RegisterCell>) -> Seq<NetId>
    decreases registers.len(),
{
    if registers.len() == 0 {
        seq![]
    } else {
        let register = registers.last();
        let rest = register_synchronous(registers.drop_last()) + seq![
            register.data,
            register.clock,
        ] + enable_net(register.enable);
        match register.reset {
            Some(reset) => if reset.asynchronous {
                rest
            } else {
                rest.push(reset.signal)
            },
            None => rest,
        }
    }
}

/// What memories read, clocks included.
pub open spec fn memory_synchronous(memories: Seq<MemoryCell>) -> Seq<NetId>
    decreases memories.len(),
{
    if memories.len() == 0 {
        seq![]
    } else {
        let memory = memories.last();
        let first = (memory_synchronous(memories.drop_last()) + port_samples(memory.port)).push(
            memory.port.clock,
        );
        match memory.second_port {
            Some(port) => (first + port_samples(port)).push(port.clock),
            None => first,
        }
    }
}

/// The nets that only asynchronous resets may not read.
pub open spec fn synchronous(netlist: Netlist) -> Seq<NetId> {
    register_synchronous(netlist.registers@) + memory_synchronous(netlist.memories@)
}

/// The nets that asynchronous resets read.
pub open spec fn asynchronous_resets(registers: Seq<RegisterCell>) -> Seq<NetId>
    decreases registers.len(),
{
    if registers.len() == 0 {
        seq![]
    } else {
        let rest = asynchronous_resets(registers.drop_last());
        match registers.last().reset {
            Some(reset) => if reset.asynchronous {
                rest.push(reset.signal)
            } else {
                rest
            },
            None => rest,
        }
    }
}

/// Why an input is no asynchronous control.
pub open spec fn asynchronous_fault(netlist: Netlist, port: Port) -> Option<Seq<char>> {
    let order = reached(all_fanouts(netlist), port.bits@);
    if port.bits@.len() != 1 {
        Some(
            "asynchronous control `"@ + port.name@ + "` has width "@ + decimal_text(
                port.bits@.len(),
            ) + ", expected one bit"@,
        )
    } else if meets(order, output_sources(netlist.nodes@, netlist.ports@)) || meets(
        order,
        synchronous(netlist),
    ) {
        Some(
            "asynchronous control `"@ + port.name@
                + "` also reaches synchronous data, clock, or output logic"@,
        )
    } else if !meets(order, asynchronous_resets(netlist.registers@)) {
        Some(
            "asynchronous control `"@ + port.name@ + "` does not reach an asynchronous reset"@,
        )
    } else {
        None
    }
}

fn list_synchronous(netlist: &Netlist) -> (nets: Vec<NetId>)
    ensures
        nets@ == synchronous(*netlist),
{
    let mut nets: Vec<NetId> = Vec::new();
    for i in 0..netlist.registers.len()
        invariant
            nets@ == register_synchronous(netlist.registers@.take(i as int)),
    {
        assert(netlist.registers@.take(i + 1).drop_last() =~= netlist.registers@.take(i as int));
        let register = &netlist.registers[i];
        let ghost rest = nets@;
        nets.push(register.data);
        nets.push(register.clock);
        if let Some(enable) = register.enable {
            nets.push(enable.signal);
        }
        assert(nets@ =~= rest + seq![register.data, register.clock] + enable_net(register.enable));
        if let Some(reset) = register.reset {
            if !reset.asynchronous {
                nets.push(reset.signal);
            }
        }
    }
    assert(netlist.registers@.take(netlist.registers@.len() as int) =~= netlist.registers@);
    let mut memories: Vec<NetId> = Vec::new();
    for i in 0..netlist.memories.len()
        invariant
            memories@ == memory_synchronous(netlist.memories@.take(i as int)),
    {
        assert(netlist.memories@.take(i + 1).drop_last() =~= netlist.memories@.take(i as int));
        let memory = &netlist.memories[i];
        let samples = samples_of_port(&memory.port);
        extend_nets(&mut memories, &samples);
        memories.push(memory.port.clock);
        if let Some(port) = &memory.second_port {
            let others = samples_of_port(port);
            extend_nets(&mut memories, &others);
            memories.push(port.clock);
        }
    }
    assert(netlist.memories@.take(netlist.memories@.len() as int) =~= netlist.memories@);
    extend_nets(&mut nets, &memories);
    nets
}

fn list_asynchronous_resets(netlist: &Netlist) -> (nets: Vec<NetId>)
    ensures
        nets@ == asynchronous_resets(netlist.registers@),
{
    let mut nets: Vec<NetId> = Vec::new();
    for i in 0..netlist.registers.len()
        invariant
            nets@ == asynchronous_resets(netlist.registers@.take(i as int)),
    {
        assert(netlist.registers@.take(i + 1).drop_last() =~= netlist.registers@.take(i as int));
        if let Some(reset) = netlist.registers[i].reset {
            if reset.asynchronous {
                nets.push(reset.signal);
            }
        }
    }
    assert(netlist.registers@.take(netlist.registers@.len() as int) =~= netlist.registers@);
    nets
}

fn any_meets(order: &Vec<NetId>, nets: &Vec<NetId>, count: usize) -> (found: bool)
    requires
        all_below(order@, count as int),
    ensures
        found == meets(order@, nets@),
{
    let flags = mark_nets(nets, count);
    for k in 0..order.len()
        invariant
            all_below(order@, count as int),
            flags@.len() == count,
            forall|i: int| 0 <= i < count && i <= u32::MAX ==> #[trigger] flags@[i]
                == nets@.contains(i as NetId),
            forall|i: int| 0 <= i < k ==> !nets@.contains(#[trigger] order@[i]),
    {
        assert(order@[k as int] < count);
        let net = order[k] as usize;
        assert(flags@[net as int] == nets@.contains(order@[k as int]));
        if flags[net] {
            return true;
        }
    }
    false
}

/// Checks that an input reaches asynchronous resets and nothing else.
pub fn validate_ooc_asynchronous_control(netlist: &Netlist, port: &Port) -> (result: Result<
    (),
    MappingError,
>)
    requires
        netlist.is_valid(),
    ensures
        fault_of(result) == match asynchronous_fault(*netlist, *port) {
            Some(message) => Some(MappingFault::InvalidOocConstraint(message)),
            None => None,
        },
{
    if port.bits.len() != 1 {
        let mut text = between("asynchronous control `", port.name.as_str(), "` has width ");
        text.append(decimal(port.bits.len() as u128).as_str());
        text.append(", expected one bit");
        return Err(MappingError::InvalidOocConstraint(text));
    }
    let fanouts = ooc_combinational_fanouts(netlist);
    assert(neighbour_lists(fanouts@) =~= all_fanouts(*netlist));
    let order = reach(&fanouts, &port.bits);
    let outputs = sources_of_outputs(netlist);
    let forbidden = list_synchronous(netlist);
    let count = netlist.nodes.len();
    if any_meets(&order, &outputs, count) || any_meets(&order, &forbidden, count) {
        return Err(
            MappingError::InvalidOocConstraint(
                between(
                    "asynchronous control `",
                    port.name.as_str(),
                    "` also reaches synchronous data, clock, or output logic",
                ),
            ),
        );
    }
    let resets = list_asynchronous_resets(netlist);
    if !any_meets(&order, &resets, count) {
        return Err(
            MappingError::InvalidOocConstraint(
                between(
                    "asynchronous control `",
                    port.name.as_str(),
                    "` does not reach an asynchronous reset",
                ),
            ),
        );
    }
    Ok(())
}

/// The operands of the first arithmetic cell at or after `from` that drives `net`.
pub open spec fn arithmetic_operands(cells: Seq<ArithmeticCell>, net: NetId, from: int) -> Seq<NetId>
    decreases cells.len() - from,
{
    if from >= cells.len() {
        seq![]
    } else if cells[from].outputs@.contains(net) {
        arithmetic_reads(cells[from])
    } else {
        arithmetic_operands(cells, net, from + 1)
    }
}

/// The operands of the first comparison at or after `from` that drives `net`.
pub open spec fn comparison_operands(cells: Seq<ComparisonCell>, net: NetId, from: int) -> Seq<NetId>
    decreases cells.len() - from,
{
    if from >= cells.len() {
        seq![]
    } else if cells[from].output == net {
        comparison_reads(cells[from])
    } else {
        comparison_operands(cells, net, from + 1)
    }
}

/// The nets that `net` depends on combinationally through one cell.
pub open spec fn net_fanins(netlist: Netlist, net: NetId) -> Seq<NetId> {
    match netlist.nodes@[net as int].kind {
        NodeKind::And
        | NodeKind::Or
        | NodeKind::Xor
        | NodeKind::Not
        | NodeKind::Mux
        | NodeKind::Output => netlist.nodes@[net as int].inputs@,
        NodeKind::ArithmeticOutput => arithmetic_operands(netlist.arithmetic@, net, 0),
        NodeKind::ComparisonOutput => comparison_operands(netlist.comparisons@, net, 0),
        _ => seq![],
    }
}

/// The fan-ins of each net.
pub open spec fn all_fanins(netlist: Netlist) -> Seq<Seq<NetId>> {
    Seq::new(netlist.nodes@.len(), |net: int| net_fanins(netlist, net as NetId))
}

/// The clock of the first register at or after `from` that drives `net`.
pub open spec fn register_clock(cells: Seq<RegisterCell>, net: NetId, from: int) -> Option<NetId>
    decreases cells.len() - from,
{
    if from >= cells.len() {
        None
    } else if cells[from].output == net {
        Some(cells[from].clock)
    } else {
        register_clock(cells, net, from + 1)
    }
}

/// The clock of the first memory port from memory `from` on that drives `net`.
pub open spec fn memory_clock(cells: Seq<MemoryCell>, net: NetId, from: int) -> Option<NetId>
    decreases cells.len() - from,
{
    if from >= cells.len() {
        None
    } else if cells[from].port.read_data@.contains(net) {
        Some(cells[from].port.clock)
    } else if cells[from].second_port is Some && cells[from].second_port->0.read_data@.contains(
        net,
    ) {
        Some(cells[from].second_port->0.clock)
    } else {
        memory_clock(cells, net, from + 1)
    }
}

/// What one net says about an output registered on `clock`.
pub open spec fn source_fault(netlist: Netlist, net: NetId, clock: NetId) -> Option<BoundaryFault> {
    match netlist.nodes@[net as int].kind {
        NodeKind::Input => Some(BoundaryFault::Combinational),
        NodeKind::RegisterOutput => if register_clock(netlist.registers@, net, 0) == Some(clock) {
            None
        } else {
            Some(BoundaryFault::ForeignState)
        },
        NodeKind::MemoryOutput => if memory_clock(netlist.memories@, net, 0) == Some(clock) {
            None
        } else {
            Some(BoundaryFault::ForeignMemory)
        },
        _ => None,
    }
}

/// Whether a net is state.
pub open spec fn is_state(netlist: Netlist, net: NetId) -> bool {
    netlist.nodes@[net as int].kind is RegisterOutput
        || netlist.nodes@[net as int].kind is MemoryOutput
}

/// The first fault among the nets that an output bit depends on.
pub open spec fn output_fault_from(
    netlist: Netlist,
    order: Seq<NetId>,
    clock: NetId,
    from: int,
    found: bool,
) -> Option<BoundaryFault>
    decreases order.len() - from,
{
    if from >= order.len() {
        if found {
            None
        } else {
            Some(BoundaryFault::Unregistered)
        }
    } else {
        match source_fault(netlist, order[from], clock) {
            Some(fault) => Some(fault),
            None => output_fault_from(
                netlist,
                order,
                clock,
                from + 1,
                found || is_state(netlist, order[from]),
            ),
        }
    }
}

/// Why an output bit is no boundary registered on `clock`.
pub open spec fn output_bit_fault(netlist: Netlist, bit: NetId, clock: NetId) -> Option<
    BoundaryFault,
> {
    output_fault_from(
        netlist,
        reached(all_fanins(netlist), netlist.nodes@[bit as int].inputs@),
        clock,
        0,
        false,
    )
}

/// The first bit at or after `from` with a fault, and that fault.
pub open spec fn output_fault(
    netlist: Netlist,
    bits: Seq<NetId>,
    clock: NetId,
    from: int,
) -> Option<(int, BoundaryFault)>
    decreases bits.len() - from,
{
    if from >= bits.len() {
        None
    } else {
        match output_bit_fault(netlist, bits[from], clock) {
            Some(fault) => Some((from, fault)),
            None => output_fault(netlist, bits, clock, from + 1),
        }
    }
}

/// An output boundary fault in words.
pub open spec fn output_message(
    port: Seq<char>,
    bit: nat,
    fault: BoundaryFault,
    clock: Seq<char>,
) -> Seq<char> {
    bit_label("output"@, port, bit) + match fault {
        BoundaryFault::Combinational =>
            "has a combinational path from an input; OOC boundaries must be registered"@,
        BoundaryFault::Unregistered => "is not sourced from a registered boundary"@,
        BoundaryFault::ForeignState => "is sourced by state outside declared clock `"@ + clock
            + "`"@,
        BoundaryFault::ForeignMemory => "is sourced by memory outside declared clock `"@ + clock
            + "`"@,
    }
}

fn list_fanins(netlist: &Netlist) -> (fanins: Vec<Vec<NetId>>)
    requires
        netlist.is_valid(),
    ensures
        neighbour_lists(fanins@) == all_fanins(*netlist),
        fanins@.len() == netlist.nodes@.len(),
{
    let mut fanins: Vec<Vec<NetId>> = Vec::new();
    for i in 0..netlist.nodes.len()
        invariant
            netlist.is_valid(),
            fanins@.len() == i,
            forall|j: int| 0 <= j < i ==> (#[trigger] fanins@[j])@ == net_fanins(*netlist, j as NetId),
    {
        let list = fanins_of(netlist, i as NetId);
        fanins.push(list);
    }
    assert(neighbour_lists(fanins@) =~= all_fanins(*netlist));
    fanins
}

fn fanins_of(netlist: &Netlist, net: NetId) -> (nets: Vec<NetId>)
    requires
        net < netlist.nodes@.len(),
    ensures
        nets@ == net_fanins(*netlist, net),
{
    let mut nets: Vec<NetId> = Vec::new();
    match netlist.nodes[net as usize].kind {
        NodeKind::And
        | NodeKind::Or
        | NodeKind::Xor
        | NodeKind::Not
        | NodeKind::Mux
        | NodeKind::Output => {
            extend_nets(&mut nets, &netlist.nodes[net as usize].inputs);
            assert(nets@ =~= netlist.nodes@[net as int].inputs@);
        },
        NodeKind::ArithmeticOutput => {
            nets = operands_of_arithmetic(&netlist.arithmetic, net);
        },
        NodeKind::ComparisonOutput => {
            nets = operands_of_comparison(&netlist.comparisons, net);
        },
        _ => {},
    }
    assert(nets@ =~= net_fanins(*netlist, net));
    nets
}

fn operands_of_arithmetic(cells: &Vec<ArithmeticCell>, net: NetId) -> (nets: Vec<NetId>)
    ensures
        nets@ == arithmetic_operands(cells@, net, 0),
{
    for i in 0..cells.len()
        invariant
            arithmetic_operands(cells@, net, 0) == arithmetic_operands(cells@, net, i as int),
    {
        if holds_net(&cells[i].outputs, net) {
            return nets_of_arithmetic(&cells[i]);
        }
    }
    Vec::new()
}

fn operands_of_comparison(cells: &Vec<ComparisonCell>, net: NetId) -> (nets: Vec<NetId>)
    ensures
        nets@ == comparison_operands(cells@, net, 0),
{
    for i in 0..cells.len()
        invariant
            comparison_operands(cells@, net, 0) == comparison_operands(cells@, net, i as int),
    {
        if cells[i].output == net {
            return nets_of_comparison(&cells[i]);
        }
    }
    Vec::new()
}

fn clock_of_register(cells: &Vec<RegisterCell>, net: NetId) -> (clock: Option<NetId>)
    ensures
        clock == register_clock(cells@, net, 0),
{
    for i in 0..cells.len()
        invariant
            register_clock(cells@, net, 0) == register_clock(cells@, net, i as int),
    {
        if cells[i].output == net {
            return Some(cells[i].clock);
        }
    }
    None
}

fn clock_of_memory(cells: &Vec<MemoryCell>, net: NetId) -> (clock: Option<NetId>)
    ensures
        clock == memory_clock(cells@, net, 0),
{
    for i in 0..cells.len()
        invariant
            memory_clock(cells@, net, 0) == memory_clock(cells@, net, i as int),
    {
        if holds_net(&cells[i].port.read_data, net) {
            return Some(cells[i].port.clock);
        }
        if let Some(port) = &cells[i].second_port {
            if holds_net(&port.read_data, net) {
                return Some(port.clock);
            }
        }
    }
    None
}

fn fault_of_source(netlist: &Netlist, net: NetId, clock: NetId) -> (fault: Option<BoundaryFault>)
    requires
        net < netlist.nodes@.len(),
    ensures
        fault == source_fault(*netlist, net, clock),
{
    match netlist.nodes[net as usize].kind {
        NodeKind::Input => Some(BoundaryFault::Combinational),
        NodeKind::RegisterOutput => {
            let found = clock_of_register(&netlist.registers, net);
            if found == Some(clock) {
                None
            } else {
                Some(BoundaryFault::ForeignState)
            }
        },
        NodeKind::MemoryOutput => {
            let found = clock_of_memory(&netlist.memories, net);
            if found == Some(clock) {
                None
            } else {
                Some(BoundaryFault::ForeignMemory)
            }
        },
        _ => None,
    }
}

fn fault_of_output_bit(netlist: &Netlist, fanins: &Vec<Vec<NetId>>, bit: NetId, clock: NetId) -> (
    fault: Option<BoundaryFault>)
    requires
        bit < netlist.nodes@.len(),
        neighbour_lists(fanins@) == all_fanins(*netlist),
        fanins@.len() == netlist.nodes@.len(),
    ensures
        fault == output_bit_fault(*netlist, bit, clock),
{
    let order = reach(fanins, &netlist.nodes[bit as usize].inputs);
    let mut found = false;
    for k in 0..order.len()
        invariant
            all_below(order@, netlist.nodes@.len() as int),
            output_bit_fault(*netlist, bit, clock) == output_fault_from(
                *netlist,
                order@,
                clock,
                k as int,
                found,
            ),
    {
        assert(order@[k as int] < netlist.nodes@.len());
        let net = order[k];
        if let Some(fault) = fault_of_source(netlist, net, clock) {
            return Some(fault);
        }
        match netlist.nodes[net as usize].kind {
            NodeKind::RegisterOutput | NodeKind::MemoryOutput => {
                found = true;
            },
            _ => {},
        }
    }
    if found {
        None
    } else {
        Some(BoundaryFault::Unregistered)
    }
}

/// Checks that every bit of an output comes from state on one clock and nothing else.
pub fn validate_ooc_output_boundary(
    netlist: &Netlist,
    port: &Port,
    expected_clock: NetId,
    clock_name: &String,
) -> (result: Result<(), MappingError>)
    requires
        netlist.is_valid(),
        port_is_valid(netlist.nodes@, *port),
    ensures
        fault_of(result) == match output_fault(*netlist, port.bits@, expected_clock, 0) {
            Some((bit, fault)) => Some(
                MappingFault::InvalidOocConstraint(
                    output_message(port.name@, bit as nat, fault, clock_name@),
                ),
            ),
            None => None,
        },
{
    let fanins = list_fanins(netlist);
    for b in 0..port.bits.len()
        invariant
            netlist.is_valid(),
            port_is_valid(netlist.nodes@, *port),
            neighbour_lists(fanins@) == all_fanins(*netlist),
            fanins@.len() == netlist.nodes@.len(),
            output_fault(*netlist, port.bits@, expected_clock, 0) == output_fault(
                *netlist,
                port.bits@,
                expected_clock,
                b as int,
            ),
    {
        assert(port.bits@[b as int] < netlist.nodes@.len());
        if let Some(fault) = fault_of_output_bit(netlist, &fanins, port.bits[b], expected_clock) {
            let mut text = write_bit_label("output", &port.name, b);
            match fault {
                BoundaryFault::Combinational => text.append(
                    "has a combinational path from an input; OOC boundaries must be registered",
                ),
                BoundaryFault::Unregistered => text.append(
                    "is not sourced from a registered boundary",
                ),
                BoundaryFault::ForeignState => text.append(
                    between(
                        "is sourced by state outside declared clock `",
                        clock_name.as_str(),
                        "`",
                    ).as_str(),
                ),
                BoundaryFault::ForeignMemory => text.append(
                    between(
                        "is sourced by memory outside declared clock `",
                        clock_name.as_str(),
                        "`",
                    ).as_str(),
                ),
            }
            return Err(MappingError::InvalidOocConstraint(text));
        }
    }
    Ok(())
}

} // verus!
