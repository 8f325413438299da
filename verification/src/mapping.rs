//! Technology mapping of a whole netlist.

use vstd::prelude::*;

use crate::arithmetic::all_retained_mapped;
use crate::arithmetic::map_retained_cells;
use crate::arithmetic::retained_count;
use crate::arithmetic::retained_order;
use crate::arithmetic::MapContext;
use crate::arithmetic::MapInputs;
use crate::carry::split_all;
use crate::carry::split_branched_carry_outs;
use crate::certify::is_certifier;
use crate::certify::oracle;
use crate::certify::EdgeModel;
use crate::certify::RequestModel;
use crate::certify::RetimingEdge;
use crate::certify::RetimingRequest;
use crate::netlist::signs_off;
use crate::netlist::verify_mapped_equivalence_proof;
use crate::netlist::ClockModel;
use crate::netlist::ResolvedClockTiming;
use crate::profile::mapped_lut_profile;
use crate::profile::profile_of;
use crate::profile::MappedLutProfile;
use crate::profile::ProfileModel;
use crate::score::candidate_score;
use crate::score::is_better;
use crate::score::is_bounded;
use crate::score::mapped_register_count;
use crate::score::mapping_candidate_is_selected;
use crate::score::mapping_candidate_score;
use crate::score::MappingCandidateScore;
use crate::search::automatically_retime_mapped_luts;
use crate::search::retimed;
use crate::wide_mux::map_dedicated_wide_muxes;
use crate::wide_mux::with_l6_muxes;
use crate::wide_mux::with_pfu_muxes;
use crate::cells::Bit;
use crate::cells::CellModel;
use crate::cells::Control;
use crate::cells::Ecp5Cell;
use crate::cells::MappedPort;
use crate::cells::PortDirection;
use crate::cells::PortModel;
use crate::cells::Reset;
use crate::constraints::DelaysModel;
use crate::constraints::IoTimingConstraints;
use crate::constraints::MappingOptions;
use crate::cover::plans_are_sound;
use crate::cover::CoverModel;
use crate::cuts::node_cuts;
use crate::cuts::CutDatabase;
use crate::cuts::LUT_INPUTS;
use crate::cuts::WIDE_LUT_INPUTS;
use crate::demand::all_readable;
use crate::demand::constant_output;
use crate::demand::constant_register_value;
use crate::demand::demanded;
use crate::demand::fanouts_of;
use crate::demand::MappingDemand;
use crate::dpram::map_memory;
use crate::dpram::memory_mapped;
use crate::emit::bit_of;
use crate::emit::bits_of;
use crate::emit::constant_bit;
use crate::emit::emitter_start;
use crate::emit::net_mapped;
use crate::emit::source_bit;
use crate::emit::with_alias;
use crate::emit::with_cell;
use crate::emit::EmitterModel;
use crate::emit::LutEmitter;
use crate::errors::fault_of;
use crate::errors::MappingError;
use crate::errors::MappingFault;
use crate::ir::all_of_kind;
use crate::ir::enable_net;
use crate::ir::find_port;
use crate::ir::memory_is_valid;
use crate::ir::net_wire;
use crate::ir::node_is_valid;
use crate::ir::port_at;
use crate::ir::port_is_valid;
use crate::ir::readable;
use crate::ir::register_is_valid;
use crate::ir::register_reads;
use crate::ir::reset_net;
use crate::ir::wire_number;
use crate::ir::MemoryCell;
use crate::ir::NetId;
use crate::ir::Netlist;
use crate::ir::Node;
use crate::ir::NodeKind;
use crate::ir::Port;
use crate::ir::PortDirection as SourceDirection;
use crate::ir::RegisterCell;
use crate::memory::memory_fault;
use crate::memory::optional_control;
use crate::names::NameMap;
use crate::netlist::all_cell_outputs;
use crate::netlist::cells_outputs;
use crate::netlist::clock_models;
use crate::netlist::largest_wire;
use crate::netlist::port_models;
use crate::netlist::Ecp5Netlist;
use crate::netlist::IoTimingModel;
use crate::netlist::MappedEquivalenceProof;
use crate::netlist::NetlistModel;
use crate::netlist::ResolvedIoTiming;
use crate::netlist::ResolvedTimingConstraints;
use crate::netlist::RetimingSelection;
use crate::plans::plan_models;
use crate::plans::PlanModel;
use crate::recover::cover_of;
use crate::recover::register_period;
use crate::recover::LutCover;
use crate::text::join;

verus! {

/// The mapped direction of a source port.
pub open spec fn mapped_direction(direction: SourceDirection) -> PortDirection {
    match direction {
        SourceDirection::Input => PortDirection::Input,
        SourceDirection::Output => PortDirection::Output,
    }
}

fn map_direction(direction: SourceDirection) -> (mapped: PortDirection)
    ensures
        mapped == mapped_direction(direction),
{
    match direction {
        SourceDirection::Input => PortDirection::Input,
        SourceDirection::Output => PortDirection::Output,
    }
}

/// Why a delay cannot be attached to a port: there is none of that name, or it
/// has another direction.
pub open spec fn timing_port_fault(
    ports: Seq<Port>,
    name: Seq<char>,
    expected: SourceDirection,
) -> Option<MappingFault> {
    match port_at(ports, name) {
        Some(index) => if ports[index].direction == expected {
            None
        } else {
            Some(
                MappingFault::TimingPortDirection {
                    port: name,
                    expected: mapped_direction(expected),
                    actual: mapped_direction(ports[index].direction),
                },
            )
        },
        None => Some(MappingFault::TimingPortNotFound(name)),
    }
}

/// The first fault among the delays from entry `from` on.
pub open spec fn delays_fault(
    ports: Seq<Port>,
    delays: Seq<(Seq<char>, u32)>,
    expected: SourceDirection,
    from: int,
) -> Option<MappingFault>
    decreases delays.len() - from,
{
    if from >= delays.len() {
        None
    } else {
        match timing_port_fault(ports, delays[from].0, expected) {
            Some(fault) => Some(fault),
            None => delays_fault(ports, delays, expected, from + 1),
        }
    }
}

/// The first fault among the delays, inputs before outputs.
pub open spec fn io_timing_fault(
    ports: Seq<Port>,
    input_delays: Seq<(Seq<char>, u32)>,
    output_delays: Seq<(Seq<char>, u32)>,
) -> Option<MappingFault> {
    match delays_fault(ports, input_delays, SourceDirection::Input, 0) {
        Some(fault) => Some(fault),
        None => delays_fault(ports, output_delays, SourceDirection::Output, 0),
    }
}

fn validate_delays(ports: &Vec<Port>, delays: &NameMap<u32>, expected: SourceDirection) -> (result:
    Result<(), MappingError>)
    ensures
        fault_of(result) == delays_fault(ports@, delays@, expected, 0),
{
    for i in 0..delays.entries.len()
        invariant
            delays_fault(ports@, delays@, expected, 0) == delays_fault(
                ports@,
                delays@,
                expected,
                i as int,
            ),
    {
        let name = &delays.entries[i].0;
        assert(delays@[i as int].0 == name@);
        match find_port(ports, name) {
            Some(index) => {
                if ports[index].direction != expected {
                    return Err(
                        MappingError::TimingPortDirection {
                            port: name.clone(),
                            expected: map_direction(expected),
                            actual: map_direction(ports[index].direction),
                        },
                    );
                }
            },
            None => {
                return Err(MappingError::TimingPortNotFound(name.clone()));
            },
        }
    }
    Ok(())
}

/// Checks that every delay names a port of the right direction.
pub fn validate_io_timing(netlist: &Netlist, constraints: &IoTimingConstraints) -> (result: Result<
    (),
    MappingError,
>)
    ensures
        fault_of(result) == io_timing_fault(
            netlist.ports@,
            constraints.input_delays_ps@,
            constraints.output_delays_ps@,
        ),
{
    match validate_delays(&netlist.ports, &constraints.input_delays_ps, SourceDirection::Input) {
        Err(error) => Err(error),
        Ok(()) => validate_delays(
            &netlist.ports,
            &constraints.output_delays_ps,
            SourceDirection::Output,
        ),
    }
}

/// `arrivals` with the arrival at `wire` set.
pub open spec fn with_arrival(
    arrivals: Seq<(u32, u32)>,
    wire: u32,
    delay: u32,
) -> Seq<(u32, u32)>
    decreases arrivals.len(),
{
    if arrivals.len() == 0 {
        seq![(wire, delay)]
    } else if arrivals.last().0 < wire {
        arrivals.push((wire, delay))
    } else if arrivals.last().0 == wire {
        arrivals.drop_last().push((wire, delay))
    } else {
        with_arrival(arrivals.drop_last(), wire, delay).push(arrivals.last())
    }
}

proof fn lemma_with_arrival_at(arrivals: Seq<(u32, u32)>, wire: u32, delay: u32, at: int)
    requires
        0 <= at <= arrivals.len(),
        forall|i: int| at <= i < arrivals.len() ==> (#[trigger] arrivals[i]).0 > wire,
        at > 0 ==> arrivals[at - 1].0 <= wire,
    ensures
        at > 0 && arrivals[at - 1].0 == wire ==> with_arrival(arrivals, wire, delay)
            == arrivals.update(at - 1, (wire, delay)),
        at == 0 || arrivals[at - 1].0 < wire ==> with_arrival(arrivals, wire, delay)
            == arrivals.insert(at, (wire, delay)),
    decreases arrivals.len() - at,
{
    if at == arrivals.len() {
        if arrivals.len() == 0 {
            assert(arrivals.insert(0, (wire, delay)) =~= seq![(wire, delay)]);
        } else {
            assert(arrivals.insert(at, (wire, delay)) =~= arrivals.push((wire, delay)));
            assert(arrivals.update(at - 1, (wire, delay)) =~= arrivals.drop_last().push(
                (wire, delay),
            ));
        }
    } else {
        let rest = arrivals.drop_last();
        assert(arrivals[arrivals.len() - 1].0 > wire);
        assert forall|i: int| at <= i < rest.len() implies (#[trigger] rest[i]).0 > wire by {
            assert(arrivals[i] == rest[i]);
        }
        lemma_with_arrival_at(rest, wire, delay, at);
        assert(arrivals.insert(at, (wire, delay)) =~= rest.insert(at, (wire, delay)).push(
            arrivals.last(),
        ));
        if at > 0 {
            assert(arrivals.update(at - 1, (wire, delay)) =~= rest.update(
                at - 1,
                (wire, delay),
            ).push(arrivals.last()));
        }
    }
}

fn set_arrival(arrivals: &mut Vec<(u32, u32)>, wire: u32, delay: u32)
    ensures
        final(arrivals)@ == with_arrival(old(arrivals)@, wire, delay),
{
    let mut at: usize = arrivals.len();
    while at > 0 && arrivals[at - 1].0 > wire
        invariant
            at <= arrivals@.len(),
            forall|i: int| at <= i < arrivals@.len() ==> (#[trigger] arrivals@[i]).0 > wire,
        decreases at,
    {
        at -= 1;
    }
    proof {
        lemma_with_arrival_at(arrivals@, wire, delay, at as int);
    }
    if at > 0 && arrivals[at - 1].0 == wire {
        arrivals.set(at - 1, (wire, delay));
    } else {
        arrivals.insert(at, (wire, delay));
    }
}

/// The first mapped port at or after `from` named `name`.
pub open spec fn mapped_port_from(ports: Seq<PortModel>, name: Seq<char>, from: int) -> Option<int>
    decreases ports.len() - from,
{
    if from >= ports.len() {
        None
    } else if ports[from].name == name {
        Some(from)
    } else {
        mapped_port_from(ports, name, from + 1)
    }
}

/// The first mapped port named `name`.
pub open spec fn mapped_port_at(ports: Seq<PortModel>, name: Seq<char>) -> Option<int> {
    mapped_port_from(ports, name, 0)
}

/// The first mapped port named `name`.
pub fn find_mapped_port(ports: &Vec<MappedPort>, name: &String) -> (index: Option<usize>)
    ensures
        match index {
            Some(index) => index < ports@.len() && mapped_port_at(port_models(ports@), name@)
                == Some(index as int) && ports@[index as int].name@ == name@,
            None => mapped_port_at(port_models(ports@), name@) is None,
        },
{
    for i in 0..ports.len()
        invariant
            mapped_port_at(port_models(ports@), name@) == mapped_port_from(
                port_models(ports@),
                name@,
                i as int,
            ),
    {
        assert(port_models(ports@)[i as int].name == ports@[i as int].name@);
        if ports[i].name == *name {
            return Some(i);
        }
    }
    None
}

/// `arrivals` with the wires among `bits` arriving at `delay`.
pub open spec fn bits_delayed(
    arrivals: Seq<(u32, u32)>,
    bits: Seq<Bit>,
    delay: u32,
) -> Seq<(u32, u32)>
    decreases bits.len(),
{
    if bits.len() == 0 {
        arrivals
    } else {
        let rest = bits_delayed(arrivals, bits.drop_last(), delay);
        match bits.last() {
            Bit::Wire(wire) => with_arrival(rest, wire, delay),
            _ => rest,
        }
    }
}

/// The arrivals that input delays give to mapped wires.
pub open spec fn resolved_arrivals(
    ports: Seq<PortModel>,
    delays: Seq<(Seq<char>, u32)>,
) -> Seq<(u32, u32)>
    decreases delays.len(),
{
    if delays.len() == 0 {
        seq![]
    } else {
        let rest = resolved_arrivals(ports, delays.drop_last());
        match mapped_port_at(ports, delays.last().0) {
            Some(port) => bits_delayed(rest, ports[port].bits, delays.last().1),
            None => rest,
        }
    }
}

/// The external delays behind mapped output bits.
pub open spec fn resolved_delays(
    ports: Seq<PortModel>,
    delays: Seq<(Seq<char>, u32)>,
) -> Seq<(Bit, u32)>
    decreases delays.len(),
{
    if delays.len() == 0 {
        seq![]
    } else {
        let rest = resolved_delays(ports, delays.drop_last());
        match mapped_port_at(ports, delays.last().0) {
            Some(port) => rest + Seq::new(
                ports[port].bits.len(),
                |i: int| (ports[port].bits[i], delays.last().1),
            ),
            None => rest,
        }
    }
}

/// Port delays resolved to mapped bits.
pub open spec fn resolved_io(ports: Seq<PortModel>, constraints: DelaysModel) -> IoTimingModel {
    IoTimingModel {
        input_arrivals_ps: resolved_arrivals(ports, constraints.inputs),
        output_delays_ps: resolved_delays(ports, constraints.outputs),
    }
}

fn resolve_io_timing(ports: &Vec<MappedPort>, constraints: &IoTimingConstraints) -> (resolved:
    ResolvedIoTiming)
    ensures
        resolved@ == resolved_io(port_models(ports@), constraints@),
{
    let ghost models = port_models(ports@);
    let mut input_arrivals_ps: Vec<(u32, u32)> = Vec::new();
    let ghost inputs = constraints.input_delays_ps@;
    assert(input_arrivals_ps@ =~= resolved_arrivals(models, inputs.take(0)));
    for i in 0..constraints.input_delays_ps.entries.len()
        invariant
            models == port_models(ports@),
            inputs == constraints.input_delays_ps@,
            input_arrivals_ps@ == resolved_arrivals(models, inputs.take(i as int)),
    {
        assert(inputs.take(i + 1).drop_last() =~= inputs.take(i as int));
        let entry = &constraints.input_delays_ps.entries[i];
        let delay = entry.1;
        assert(inputs[i as int] == (entry.0@, delay));
        if let Some(port) = find_mapped_port(ports, &entry.0) {
            let ghost before = input_arrivals_ps@;
            let bits = &ports[port].bits;
            assert(models[port as int].bits == bits@);
            for b in 0..bits.len()
                invariant
                    input_arrivals_ps@ == bits_delayed(before, bits@.take(b as int), delay),
            {
                assert(bits@.take(b + 1).drop_last() =~= bits@.take(b as int));
                if let Bit::Wire(wire) = bits[b] {
                    set_arrival(&mut input_arrivals_ps, wire, delay);
                }
            }
            assert(bits@.take(bits@.len() as int) =~= bits@);
        }
    }
    assert(inputs.take(inputs.len() as int) =~= inputs);
    let mut output_delays_ps: Vec<(Bit, u32)> = Vec::new();
    let ghost outputs = constraints.output_delays_ps@;
    assert(output_delays_ps@ =~= resolved_delays(models, outputs.take(0)));
    for i in 0..constraints.output_delays_ps.entries.len()
        invariant
            models == port_models(ports@),
            outputs == constraints.output_delays_ps@,
            output_delays_ps@ == resolved_delays(models, outputs.take(i as int)),
    {
        assert(outputs.take(i + 1).drop_last() =~= outputs.take(i as int));
        let entry = &constraints.output_delays_ps.entries[i];
        let delay = entry.1;
        assert(outputs[i as int] == (entry.0@, delay));
        if let Some(port) = find_mapped_port(ports, &entry.0) {
            let ghost before = output_delays_ps@;
            let bits = &ports[port].bits;
            assert(models[port as int].bits == bits@);
            let ghost added = Seq::new(bits@.len(), |i: int| (bits@[i], delay));
            for b in 0..bits.len()
                invariant
                    added == Seq::new(bits@.len(), |i: int| (bits@[i], delay)),
                    output_delays_ps@ == before + added.take(b as int),
            {
                output_delays_ps.push((bits[b], delay));
                assert(output_delays_ps@ =~= before + added.take(b + 1));
            }
            assert(added.take(bits@.len() as int) =~= added);
            assert(added =~= Seq::new(
                models[port as int].bits.len(),
                |i: int| (models[port as int].bits[i], delay),
            ));
        }
    }
    assert(outputs.take(outputs.len() as int) =~= outputs);
    ResolvedIoTiming { input_arrivals_ps, output_delays_ps }
}

/// The state in which register outputs that never change are constants.
pub open spec fn constants_folded(
    netlist: Netlist,
    state: EmitterModel,
    registers: Seq<RegisterCell>,
) -> EmitterModel
    decreases registers.len(),
{
    if registers.len() == 0 {
        state
    } else {
        let rest = constants_folded(netlist, state, registers.drop_last());
        let output = registers.last().output;
        match constant_output(netlist.nodes@, netlist.registers@, output) {
            Some(value) => with_alias(rest, output, constant_bit(value)),
            None => rest,
        }
    }
}

/// The state after the first `count` demanded nets were mapped.
pub open spec fn roots_mapped(
    nodes: Seq<Node>,
    plans: Seq<Option<PlanModel>>,
    state: EmitterModel,
    roots: Seq<NetId>,
    count: nat,
) -> EmitterModel
    decreases count,
{
    if count == 0 {
        state
    } else {
        net_mapped(
            nodes,
            plans,
            roots_mapped(nodes, plans, state, roots, (count - 1) as nat),
            roots[count - 1],
        )
    }
}

/// The state in which output bits stand for the nets behind them.
pub open spec fn bits_aliased(nodes: Seq<Node>, state: EmitterModel, bits: Seq<NetId>) -> EmitterModel
    decreases bits.len(),
{
    if bits.len() == 0 {
        state
    } else {
        let rest = bits_aliased(nodes, state, bits.drop_last());
        with_alias(
            rest,
            bits.last(),
            bit_of(rest.bits, nodes[bits.last() as int].inputs@[0]),
        )
    }
}

/// The state in which the bits of every output port stand for the nets behind them.
pub open spec fn outputs_aliased(
    nodes: Seq<Node>,
    state: EmitterModel,
    ports: Seq<Port>,
) -> EmitterModel
    decreases ports.len(),
{
    if ports.len() == 0 {
        state
    } else {
        let rest = outputs_aliased(nodes, state, ports.drop_last());
        if ports.last().direction is Output {
            bits_aliased(nodes, rest, ports.last().bits@)
        } else {
            rest
        }
    }
}

/// The bits of the nets that are mapped.
pub open spec fn present_bits(bits: Seq<Option<Bit>>) -> Seq<Bit>
    decreases bits.len(),
{
    if bits.len() == 0 {
        seq![]
    } else {
        let rest = present_bits(bits.drop_last());
        match bits.last() {
            Some(bit) => rest.push(bit),
            None => rest,
        }
    }
}

/// The state in which new wires come after every wire in use.
pub open spec fn renewed(state: EmitterModel) -> EmitterModel {
    match largest_wire(present_bits(state.bits) + cells_outputs(state.cells)) {
        Some(wire) => if wire == u32::MAX {
            EmitterModel { exhausted: true, ..state }
        } else {
            EmitterModel { next_wire: (wire + 1) as u32, ..state }
        },
        None => EmitterModel { next_wire: 2, ..state },
    }
}

/// A mapped reset.
pub open spec fn reset_of(bits: Seq<Option<Bit>>, register: RegisterCell) -> Option<Reset> {
    match register.reset {
        Some(reset) => Some(
            Reset {
                signal: bit_of(bits, reset.signal),
                active: reset.active,
                asynchronous: reset.asynchronous,
                value: reset.value,
            },
        ),
        None => None,
    }
}

/// The flip-flop of a register.
pub open spec fn flip_flop(bits: Seq<Option<Bit>>, register: RegisterCell) -> CellModel {
    CellModel::FlipFlop {
        name: "ff_"@ + register.name@,
        data: bit_of(bits, register.data),
        output: net_wire(register.output),
        clock: bit_of(bits, register.clock),
        edge: register.edge,
        enable: optional_control(bits, register.enable),
        reset: reset_of(bits, register),
    }
}

/// The state after the flip-flops of registers that can change were added.
pub open spec fn flip_flops_added(
    netlist: Netlist,
    state: EmitterModel,
    registers: Seq<RegisterCell>,
) -> EmitterModel
    decreases registers.len(),
{
    if registers.len() == 0 {
        state
    } else {
        let rest = flip_flops_added(netlist, state, registers.drop_last());
        let register = registers.last();
        if constant_output(netlist.nodes@, netlist.registers@, register.output) is Some {
            rest
        } else {
            with_cell(rest, flip_flop(state.bits, register))
        }
    }
}

/// The first fault among the memories from `from` on.
pub open spec fn memories_fault(memories: Seq<MemoryCell>, from: int) -> Option<MappingFault>
    decreases memories.len() - from,
{
    if from >= memories.len() {
        None
    } else {
        match memory_fault(memories[from]) {
            Some(fault) => Some(fault),
            None => memories_fault(memories, from + 1),
        }
    }
}

/// The state after the first `count` memories were mapped.
pub open spec fn memories_mapped(
    nodes: Seq<Node>,
    state: EmitterModel,
    memories: Seq<MemoryCell>,
    count: nat,
) -> EmitterModel
    decreases count,
{
    if count == 0 {
        state
    } else {
        memory_mapped(
            nodes,
            memories_mapped(nodes, state, memories, (count - 1) as nat),
            memories[count - 1],
        )
    }
}

/// The mapped ports.
pub open spec fn ports_mapped(bits: Seq<Option<Bit>>, ports: Seq<Port>) -> Seq<PortModel> {
    Seq::new(
        ports.len(),
        |i: int|
            PortModel {
                name: ports[i].name@,
                direction: mapped_direction(ports[i].direction),
                bits: bits_of(bits, ports[i].bits@),
            },
    )
}

/// The cover of a netlist with cuts of at most `max_inputs` leaves.
pub open spec fn netlist_cover(
    netlist: Netlist,
    options: MappingOptions,
    period_ps: u32,
    io_timing: DelaysModel,
    max_inputs: nat,
) -> CoverModel {
    cover_of(
        crate::cover::CoverInputs {
            netlist,
            cuts: Seq::new(
                netlist.nodes@.len(),
                |i: int| node_cuts(netlist.nodes@, i, max_inputs),
            ),
            fanouts: fanouts_of(netlist),
            retained: crate::retained::retained_outputs(netlist),
            mapping: options.arithmetic,
        },
        demanded(netlist),
        period_ps,
        io_timing.inputs,
        io_timing.outputs,
    )
}

/// Everything emitted for the logic of a netlist, flip-flops included.
pub open spec fn logic_emitted(
    netlist: Netlist,
    options: MappingOptions,
    plans: Seq<Option<PlanModel>>,
) -> EmitterModel {
    let nodes = netlist.nodes@;
    let folded = constants_folded(netlist, emitter_start(nodes), netlist.registers@);
    let retained = all_retained_mapped(
        MapInputs { nodes, plans },
        netlist,
        options.arithmetic,
        folded,
        retained_order(netlist, retained_count(netlist)),
        retained_count(netlist),
    );
    let roots = demanded(netlist);
    let mapped = roots_mapped(nodes, plans, retained, roots, roots.len());
    let aliased = outputs_aliased(nodes, mapped, netlist.ports@);
    flip_flops_added(netlist, renewed(aliased), netlist.registers@)
}

/// A report of a netlist that was mapped and not retimed.
pub open spec fn first_report(period_ps: u32, registers: usize) -> RetimingSelection {
    RetimingSelection {
        applied: false,
        original_lut_depth: 0,
        selected_lut_depth: 0,
        original_critical_registers: 0,
        selected_critical_registers: 0,
        original_period_ps: period_ps,
        selected_period_ps: period_ps,
        original_overall_period_ps: period_ps,
        selected_overall_period_ps: period_ps,
        original_registers: registers,
        selected_registers: registers,
        certified_primitive_moves: 0,
        equivalent_register_merges: 0,
        equivalent_logic_replications: 0,
        equivalent_physical_rewires: 0,
        unobservable_cells_removed: 0,
        equivalence_signed_off: true,
    }
}

/// A ledger without entries.
pub open spec fn first_proof() -> MappedEquivalenceProof {
    MappedEquivalenceProof {
        certified_primitive_moves: 0,
        equivalent_register_merges: 0,
        equivalent_logic_replications: 0,
        equivalent_physical_rewires: 0,
        unobservable_cells_removed: 0,
        valid: true,
    }
}

/// One mapping of a valid netlist: the netlist, or why there is none.
pub open spec fn mapped_once(
    netlist: Netlist,
    options: MappingOptions,
    period_ps: u32,
    io_timing: DelaysModel,
    max_inputs: nat,
) -> Result<NetlistModel, MappingFault> {
    match netlist.fault() {
        Some(error) => Err(MappingFault::InvalidNetlist(error)),
        None => match memories_fault(netlist.memories@, 0) {
            Some(fault) => Err(fault),
            None => {
                let cover = netlist_cover(netlist, options, period_ps, io_timing, max_inputs);
                let logic = logic_emitted(netlist, options, cover.plans);
                let emitted = memories_mapped(
                    netlist.nodes@,
                    logic,
                    netlist.memories@,
                    netlist.memories@.len(),
                );
                let ports = ports_mapped(emitted.bits, netlist.ports@);
                if emitted.exhausted {
                    Err(MappingFault::MappedWireOverflow)
                } else {
                    Ok(
                        NetlistModel {
                            name: netlist.name@,
                            ports,
                            cells: emitted.cells,
                            retiming: first_report(
                                register_period(netlist, cover.arrivals, fanouts_of(netlist)),
                                netlist.registers@.len() as usize,
                            ),
                            proof: first_proof(),
                            placement_hints: seq![],
                            io_timing: resolved_io(ports, io_timing),
                            default_frequency_mhz: 0,
                            clocks: seq![],
                        },
                    )
                }
            },
        },
    }
}

fn fold_constant_registers(netlist: &Netlist, emitter: &mut LutEmitter)
    requires
        netlist.is_valid(),
        old(emitter)@ == emitter_start(netlist.nodes@),
    ensures
        final(emitter)@ == constants_folded(*netlist, old(emitter)@, netlist.registers@),
        final(emitter).bits@.len() == netlist.nodes@.len(),
        forall|i: int|
            0 <= i < final(emitter).bits@.len() ==> (source_bit(
                netlist.nodes@[i].kind,
                i as NetId,
            ) is Some ==> (#[trigger] final(emitter).bits@[i]) is Some),
{
    let ghost start = emitter@;
    for i in 0..netlist.registers.len()
        invariant
            netlist.is_valid(),
            emitter@ == constants_folded(*netlist, start, netlist.registers@.take(i as int)),
            emitter.bits@.len() == netlist.nodes@.len(),
            forall|i: int|
                0 <= i < emitter.bits@.len() ==> (source_bit(
                    netlist.nodes@[i].kind,
                    i as NetId,
                ) is Some ==> (#[trigger] emitter.bits@[i]) is Some),
    {
        assert(netlist.registers@.take(i + 1).drop_last() =~= netlist.registers@.take(i as int));
        assert(register_is_valid(netlist.nodes@, netlist.registers@[i as int]));
        let output = netlist.registers[i].output;
        if let Some(value) = constant_register_value(netlist, output) {
            emitter.alias_net(output, Bit::from(value));
        }
    }
    assert(netlist.registers@.take(netlist.registers@.len() as int) =~= netlist.registers@);
}

fn alias_outputs(netlist: &Netlist, emitter: &mut LutEmitter)
    requires
        netlist.is_valid(),
        old(emitter).bits@.len() == netlist.nodes@.len(),
    ensures
        final(emitter)@ == outputs_aliased(netlist.nodes@, old(emitter)@, netlist.ports@),
        final(emitter).bits@.len() == netlist.nodes@.len(),
{
    let ghost start = emitter@;
    for i in 0..netlist.ports.len()
        invariant
            netlist.is_valid(),
            emitter@ == outputs_aliased(netlist.nodes@, start, netlist.ports@.take(i as int)),
            emitter.bits@.len() == netlist.nodes@.len(),
    {
        assert(netlist.ports@.take(i + 1).drop_last() =~= netlist.ports@.take(i as int));
        assert(port_is_valid(netlist.nodes@, netlist.ports@[i as int]));
        if let SourceDirection::Output = netlist.ports[i].direction {
            let ghost before = emitter@;
            let bits = &netlist.ports[i].bits;
            for b in 0..bits.len()
                invariant
                    netlist.is_valid(),
                    all_of_kind(netlist.nodes@, bits@, NodeKind::Output),
                    emitter@ == bits_aliased(netlist.nodes@, before, bits@.take(b as int)),
                    emitter.bits@.len() == netlist.nodes@.len(),
            {
                assert(bits@.take(b + 1).drop_last() =~= bits@.take(b as int));
                let bit = bits[b] as usize;
                proof {
                    assert(bits@[b as int] < netlist.nodes@.len());
                    assert(node_is_valid(netlist.nodes@, bit as int));
                    assert(readable(netlist.nodes@, netlist.nodes@[bit as int].inputs@[0]));
                }
                let source = emitter.mapped_net(netlist.nodes[bit].inputs[0]);
                emitter.alias_net(bits[b], source);
            }
            assert(bits@.take(bits@.len() as int) =~= bits@);
        }
    }
    assert(netlist.ports@.take(netlist.ports@.len() as int) =~= netlist.ports@);
}

fn renew_wires(emitter: &mut LutEmitter)
    ensures
        final(emitter)@ == renewed(old(emitter)@),
        final(emitter).bits@ == old(emitter).bits@,
{
    let mut bits: Vec<Bit> = Vec::new();
    for i in 0..emitter.bits.len()
        invariant
            bits@ == present_bits(emitter.bits@.take(i as int)),
    {
        assert(emitter.bits@.take(i + 1).drop_last() =~= emitter.bits@.take(i as int));
        if let Some(bit) = emitter.bits[i] {
            bits.push(bit);
        }
    }
    assert(emitter.bits@.take(emitter.bits@.len() as int) =~= emitter.bits@);
    let outputs = all_cell_outputs(&emitter.cells);
    crate::netlist::extend(&mut bits, &outputs);
    match crate::netlist::find_largest_wire(&bits) {
        Some(wire) => {
            if wire == u32::MAX {
                emitter.exhausted = true;
            } else {
                emitter.next_wire = wire + 1;
            }
        },
        None => {
            emitter.next_wire = 2;
        },
    }
}

fn add_flip_flops(netlist: &Netlist, emitter: &mut LutEmitter)
    requires
        netlist.is_valid(),
        old(emitter).bits@.len() == netlist.nodes@.len(),
    ensures
        final(emitter)@ == flip_flops_added(*netlist, old(emitter)@, netlist.registers@),
        final(emitter).bits@ == old(emitter).bits@,
{
    let ghost start = emitter@;
    for i in 0..netlist.registers.len()
        invariant
            netlist.is_valid(),
            emitter@ == flip_flops_added(*netlist, start, netlist.registers@.take(i as int)),
            emitter.bits@ == start.bits,
            start.bits.len() == netlist.nodes@.len(),
    {
        assert(netlist.registers@.take(i + 1).drop_last() =~= netlist.registers@.take(i as int));
        let register = &netlist.registers[i];
        proof {
            assert(register_is_valid(netlist.nodes@, netlist.registers@[i as int]));
            let reads = register_reads(*register);
            assert(reads[0] == register.data && readable(netlist.nodes@, reads[0]));
            assert(reads[1] == register.clock && readable(netlist.nodes@, reads[1]));
            if let Some(enable) = register.enable {
                assert(enable_net(register.enable)[0] == enable.signal);
                assert(reads[2] == enable.signal && readable(netlist.nodes@, reads[2]));
            }
            if let Some(reset) = register.reset {
                let at = 2 + enable_net(register.enable).len() as int;
                assert(reset_net(register.reset)[0] == reset.signal);
                assert(reads[at] == reset.signal && readable(netlist.nodes@, reads[at]));
            }
        }
        if constant_register_value(netlist, register.output).is_none() {
            let enable = match register.enable {
                Some(enable) => Some(
                    Control { signal: emitter.mapped_net(enable.signal), active: enable.active },
                ),
                None => None,
            };
            let reset = match register.reset {
                Some(reset) => Some(
                    Reset {
                        signal: emitter.mapped_net(reset.signal),
                        active: reset.active,
                        asynchronous: reset.asynchronous,
                        value: reset.value,
                    },
                ),
                None => None,
            };
            let data = emitter.mapped_net(register.data);
            let clock = emitter.mapped_net(register.clock);
            emitter.push_cell(
                Ecp5Cell::FlipFlop {
                    name: join("ff_", register.name.as_str()),
                    data,
                    output: wire_number(register.output),
                    clock,
                    edge: register.edge,
                    enable,
                    reset,
                },
            );
        }
    }
    assert(netlist.registers@.take(netlist.registers@.len() as int) =~= netlist.registers@);
}

fn map_memories(netlist: &Netlist, emitter: &mut LutEmitter) -> (result: Result<(), MappingError>)
    requires
        netlist.is_valid(),
        old(emitter).bits@.len() == netlist.nodes@.len(),
    ensures
        fault_of(result) == memories_fault(netlist.memories@, 0),
        result is Ok ==> final(emitter)@ == memories_mapped(
            netlist.nodes@,
            old(emitter)@,
            netlist.memories@,
            netlist.memories@.len(),
        ),
        final(emitter).bits@ == old(emitter).bits@,
{
    let ghost start = emitter@;
    let mut i: usize = 0;
    while i < netlist.memories.len()
        invariant
            netlist.is_valid(),
            i <= netlist.memories@.len(),
            start == old(emitter)@,
            start.bits.len() == netlist.nodes@.len(),
            emitter.bits@ == start.bits,
            memories_fault(netlist.memories@, 0) == memories_fault(netlist.memories@, i as int),
            emitter@ == memories_mapped(netlist.nodes@, start, netlist.memories@, i as nat),
        decreases netlist.memories@.len() - i,
    {
        assert(memory_is_valid(netlist.nodes@, netlist.memories@[i as int]));
        match map_memory(netlist, emitter, &netlist.memories[i]) {
            Ok(()) => {},
            Err(error) => {
                return Err(error);
            },
        }
        i += 1;
    }
    Ok(())
}

fn map_ports(netlist: &Netlist, emitter: &LutEmitter) -> (ports: Vec<MappedPort>)
    requires
        netlist.is_valid(),
        emitter.bits@.len() == netlist.nodes@.len(),
    ensures
        port_models(ports@) == ports_mapped(emitter.bits@, netlist.ports@),
{
    let mut ports: Vec<MappedPort> = Vec::new();
    let ghost models = ports_mapped(emitter.bits@, netlist.ports@);
    for i in 0..netlist.ports.len()
        invariant
            netlist.is_valid(),
            emitter.bits@.len() == netlist.nodes@.len(),
            models == ports_mapped(emitter.bits@, netlist.ports@),
            ports@.len() == i,
            forall|j: int| 0 <= j < i ==> (#[trigger] ports@[j])@ == models[j],
    {
        let port = &netlist.ports[i];
        assert(port_is_valid(netlist.nodes@, netlist.ports@[i as int]));
        let mut bits: Vec<Bit> = Vec::new();
        let ghost all = bits_of(emitter.bits@, port.bits@);
        for b in 0..port.bits.len()
            invariant
                emitter.bits@.len() == netlist.nodes@.len(),
                port_is_valid(netlist.nodes@, *port),
                all == bits_of(emitter.bits@, port.bits@),
                bits@ == all.take(b as int),
        {
            assert(port.bits@[b as int] < netlist.nodes@.len());
            bits.push(emitter.mapped_net(port.bits[b]));
            assert(bits@ =~= all.take(b + 1));
        }
        assert(all.take(port.bits@.len() as int) =~= all);
        let mapped = MappedPort {
            name: port.name.clone(),
            direction: map_direction(port.direction),
            bits,
        };
        assert(mapped@ =~= models[i as int]);
        ports.push(mapped);
    }
    assert(port_models(ports@) =~= models);
    ports
}

fn emit_logic(netlist: &Netlist, options: MappingOptions, cover: &LutCover, roots: &Vec<NetId>) -> (
    emitter: LutEmitter)
    requires
        netlist.is_valid(),
        plans_are_sound(
            netlist.nodes@,
            plan_models(cover.plans@),
            netlist.nodes@.len() as int,
        ),
        roots@ == demanded(*netlist),
        all_readable(netlist.nodes@, roots@),
    ensures
        emitter@ == logic_emitted(*netlist, options, plan_models(cover.plans@)),
        emitter.bits@.len() == netlist.nodes@.len(),
{
    let ghost nodes = netlist.nodes@;
    let ghost plans = plan_models(cover.plans@);
    let mut emitter = LutEmitter::new(netlist);
    fold_constant_registers(netlist, &mut emitter);
    let context = MapContext { netlist, plans: &cover.plans };
    assert(context.is_sound());
    map_retained_cells(&context, options.arithmetic, &mut emitter);
    let ghost retained = emitter@;
    for i in 0..roots.len()
        invariant
            netlist.is_valid(),
            nodes == netlist.nodes@,
            plans == plan_models(cover.plans@),
            plans_are_sound(nodes, plans, nodes.len() as int),
            all_readable(nodes, roots@),
            crate::emit::supplied(nodes, plans, emitter.bits@, nodes.len() as int),
            emitter@ == roots_mapped(nodes, plans, retained, roots@, i as nat),
    {
        assert(readable(nodes, roots@[i as int]));
        emitter.map_net(netlist, &cover.plans, roots[i]);
    }
    alias_outputs(netlist, &mut emitter);
    renew_wires(&mut emitter);
    add_flip_flops(netlist, &mut emitter);
    emitter
}

/// The model of a mapping result.
pub open spec fn mapping_model(result: Result<Ecp5Netlist, MappingError>) -> Result<
    NetlistModel,
    MappingFault,
> {
    match result {
        Ok(netlist) => Ok(netlist@),
        Err(error) => Err(error@),
    }
}

/// Maps a netlist once, with cuts of at most `max_lut_inputs` leaves.
pub fn map_once_with_period_and_lut_inputs(
    netlist: &Netlist,
    options: MappingOptions,
    period_ps: u32,
    io_timing: &IoTimingConstraints,
    max_lut_inputs: usize,
) -> (result: Result<Ecp5Netlist, MappingError>)
    requires
        LUT_INPUTS <= max_lut_inputs <= WIDE_LUT_INPUTS,
    ensures
        mapping_model(result) == mapped_once(
            *netlist,
            options,
            period_ps,
            io_timing@,
            max_lut_inputs as nat,
        ),
{
    if let Err(error) = netlist.validate() {
        return Err(MappingError::InvalidNetlist(error));
    }
    let demand = MappingDemand::collect(netlist);
    let cuts = CutDatabase::analyze(netlist, max_lut_inputs);
    proof {
        assert forall|i: int| 0 <= i < netlist.nodes@.len() implies crate::cuts::cuts_are_sound(
            netlist.nodes@,
            i,
            WIDE_LUT_INPUTS as nat,
            #[trigger] cuts.model()[i],
        ) by {
            assert(crate::cuts::cuts_are_sound(
                netlist.nodes@,
                i,
                max_lut_inputs as nat,
                cuts.model()[i],
            ));
        }
    }
    let cover = LutCover::select(netlist, &cuts, &demand.roots, options, period_ps, io_timing);
    let ghost selected = netlist_cover(
        *netlist,
        options,
        period_ps,
        io_timing@,
        max_lut_inputs as nat,
    );
    assert(selected == (CoverModel {
        plans: plan_models(cover.plans@),
        arrivals: cover.arrivals@,
    }));
    let estimated = cover.estimated_register_period_ps(netlist);
    let mut emitter = emit_logic(netlist, options, &cover, &demand.roots);
    if let Err(error) = map_memories(netlist, &mut emitter) {
        return Err(error);
    }
    if emitter.exhausted {
        return Err(MappingError::MappedWireOverflow);
    }
    let ports = map_ports(netlist, &emitter);
    let io_timing = resolve_io_timing(&ports, io_timing);
    let registers: usize = netlist.registers.len();
    let mapped = Ecp5Netlist {
        name: netlist.name.clone(),
        ports,
        cells: emitter.cells,
        retiming: RetimingSelection {
            applied: false,
            original_lut_depth: 0,
            selected_lut_depth: 0,
            original_critical_registers: 0,
            selected_critical_registers: 0,
            original_period_ps: estimated,
            selected_period_ps: estimated,
            original_overall_period_ps: estimated,
            selected_overall_period_ps: estimated,
            original_registers: registers,
            selected_registers: registers,
            certified_primitive_moves: 0,
            equivalent_register_merges: 0,
            equivalent_logic_replications: 0,
            equivalent_physical_rewires: 0,
            unobservable_cells_removed: 0,
            equivalence_signed_off: true,
        },
        equivalence_proof: MappedEquivalenceProof {
            certified_primitive_moves: 0,
            equivalent_register_merges: 0,
            equivalent_logic_replications: 0,
            equivalent_physical_rewires: 0,
            unobservable_cells_removed: 0,
            valid: true,
        },
        placement_hints: NameMap { entries: Vec::new() },
        io_timing,
        timing_constraints: ResolvedTimingConstraints {
            default_frequency_mhz: 0,
            clocks: Vec::new(),
        },
    };
    assert(mapped@.placement_hints =~= Seq::<(Seq<char>, Seq<char>)>::empty());
    assert(mapped@.clocks =~= Seq::<crate::netlist::ClockModel>::empty());
    Ok(mapped)
}

/// One candidate of a mapping with its profile.
pub open spec fn candidate_of(netlist: NetlistModel) -> MappingCandidateScore {
    candidate_score(netlist, profile_of(netlist))
}

/// The wide candidate: functions of up to seven inputs, carry chains repaired.
pub open spec fn wide_candidate(netlist: NetlistModel) -> NetlistModel {
    split_all(netlist).0
}

/// The conservative candidate: lookup tables joined by dedicated muxes, carry chains repaired.
pub open spec fn conservative_candidate(netlist: NetlistModel) -> NetlistModel {
    with_l6_muxes(with_pfu_muxes(split_all(netlist).0))
}

/// A selection with the profile and the registers of the cover it started from.
#[verifier::ext_equal]
pub ghost struct SelectionModel {
    pub netlist: NetlistModel,
    pub original_profile: ProfileModel,
    pub original_registers: usize,
    pub applied: bool,
}

/// The choice between the wide and the conservative candidate.
pub open spec fn first_selection(
    wide: NetlistModel,
    conservative: NetlistModel,
    period_ps: u32,
) -> SelectionModel {
    let chosen = if is_bounded(candidate_of(conservative), candidate_of(wide)) && is_better(
        candidate_of(wide),
        candidate_of(conservative),
        period_ps,
    ) {
        wide
    } else {
        conservative
    };
    SelectionModel {
        netlist: chosen,
        original_profile: profile_of(chosen),
        original_registers: candidate_of(chosen).registers,
        applied: false,
    }
}

/// The choice between a selection and a signed-off retimed netlist.
pub open spec fn with_retimed(
    first: SelectionModel,
    conservative: NetlistModel,
    retimed: Option<NetlistModel>,
    period_ps: u32,
) -> SelectionModel {
    match retimed {
        Some(found) => {
            let candidate = conservative_candidate(found);
            if signs_off(found, true) && is_bounded(
                candidate_of(conservative),
                candidate_of(candidate),
            ) && is_better(candidate_of(candidate), candidate_of(first.netlist), period_ps) {
                SelectionModel {
                    netlist: candidate,
                    original_profile: profile_of(conservative),
                    original_registers: candidate_of(conservative).registers,
                    applied: true,
                }
            } else {
                first
            }
        },
        None => first,
    }
}

/// The report of a selection.
pub open spec fn selection_report(selection: SelectionModel) -> RetimingSelection {
    let netlist = selection.netlist;
    let original = selection.original_profile;
    let selected = profile_of(netlist);
    RetimingSelection {
        applied: selection.applied,
        original_lut_depth: original.data_depth,
        selected_lut_depth: selected.data_depth,
        original_critical_registers: original.critical_depth.len() as usize,
        selected_critical_registers: selected.critical_depth.len() as usize,
        original_period_ps: original.data_period_ps,
        selected_period_ps: selected.data_period_ps,
        original_overall_period_ps: original.overall_period_ps,
        selected_overall_period_ps: selected.overall_period_ps,
        original_registers: selection.original_registers,
        selected_registers: candidate_of(netlist).registers,
        certified_primitive_moves: netlist.proof.certified_primitive_moves,
        equivalent_register_merges: netlist.proof.equivalent_register_merges,
        equivalent_logic_replications: netlist.proof.equivalent_logic_replications,
        equivalent_physical_rewires: netlist.proof.equivalent_physical_rewires,
        unobservable_cells_removed: netlist.proof.unobservable_cells_removed,
        equivalence_signed_off: signs_off(netlist, selection.applied),
    }
}

/// The selected netlist with its report and clocks.
pub open spec fn reported(
    selection: SelectionModel,
    default_frequency_mhz: u32,
    clocks: Seq<ClockModel>,
) -> NetlistModel {
    NetlistModel {
        retiming: selection_report(selection),
        default_frequency_mhz,
        clocks,
        ..selection.netlist
    }
}

/// The frequency of domains without a clock of their own.
pub open spec fn default_frequency(options: MappingOptions) -> u32 {
    if options.timing_goal_mhz == 0 {
        1
    } else {
        options.timing_goal_mhz
    }
}

/// The mapping of a netlist for one period: the best of the wide, the
/// conservative and the retimed candidate, or why there is none.
pub open spec fn mapped_for_period(
    netlist: Netlist,
    options: MappingOptions,
    io_timing: DelaysModel,
    period_ps: u32,
    retiming_target_period_ps: u32,
    clocks: Seq<ClockModel>,
    oracle: spec_fn(RequestModel) -> Option<Seq<EdgeModel>>,
) -> Result<NetlistModel, MappingFault> {
    match mapped_once(netlist, options, period_ps, io_timing, WIDE_LUT_INPUTS as nat) {
        Err(fault) => Err(fault),
        Ok(wide) => match mapped_once(netlist, options, period_ps, io_timing, LUT_INPUTS as nat) {
            Err(fault) => Err(fault),
            Ok(narrow) => {
                let conservative = conservative_candidate(narrow);
                let selection = with_retimed(
                    first_selection(wide_candidate(wide), conservative, period_ps),
                    conservative,
                    retimed(
                        narrow,
                        narrow.cells.len() as usize,
                        candidate_of(narrow).registers,
                        retiming_target_period_ps,
                        oracle,
                    ),
                    period_ps,
                );
                Ok(reported(selection, default_frequency(options), clocks))
            },
        },
    }
}

/// A retimed netlist is selected only where it passed sign-off, stays within
/// the growth limits of the conservative cover and beats the choice before it.
pub proof fn law_retiming_needs_sign_off(
    first: SelectionModel,
    conservative: NetlistModel,
    retimed: Option<NetlistModel>,
    period_ps: u32,
)
    requires
        !first.applied,
    ensures
        with_retimed(first, conservative, retimed, period_ps).applied ==> retimed is Some
            && signs_off(retimed->0, true) && is_bounded(
            candidate_of(conservative),
            candidate_of(with_retimed(first, conservative, retimed, period_ps).netlist),
        ) && is_better(
            candidate_of(with_retimed(first, conservative, retimed, period_ps).netlist),
            candidate_of(first.netlist),
            period_ps,
        ),
        !with_retimed(first, conservative, retimed, period_ps).applied ==> with_retimed(
            first,
            conservative,
            retimed,
            period_ps,
        ) == first,
{
}

/// Whatever is selected stays within the growth limits of the conservative cover.
pub proof fn law_selection_is_bounded(
    wide: NetlistModel,
    conservative: NetlistModel,
    retimed: Option<NetlistModel>,
    period_ps: u32,
)
    ensures
        ({
            let selection = with_retimed(
                first_selection(wide, conservative, period_ps),
                conservative,
                retimed,
                period_ps,
            );
            selection.netlist == conservative || is_bounded(
                candidate_of(conservative),
                candidate_of(selection.netlist),
            )
        }),
{
}

fn make_conservative(netlist: &mut Ecp5Netlist)
    ensures
        final(netlist)@ == conservative_candidate(old(netlist)@),
{
    split_branched_carry_outs(netlist);
    map_dedicated_wide_muxes(netlist);
}

struct Selection {
    netlist: Ecp5Netlist,
    original_profile: MappedLutProfile,
    original_registers: usize,
    applied: bool,
}

impl View for Selection {
    type V = SelectionModel;

    closed spec fn view(&self) -> SelectionModel {
        SelectionModel {
            netlist: self.netlist@,
            original_profile: self.original_profile@,
            original_registers: self.original_registers,
            applied: self.applied,
        }
    }
}

fn report_selection(selection: Selection, frequency: u32, clocks: Vec<ResolvedClockTiming>) -> (
    netlist: Ecp5Netlist)
    ensures
        netlist@ == reported(selection@, frequency, clock_models(clocks@)),
{
    let applied = selection.applied;
    let original = selection.original_profile;
    let original_registers = selection.original_registers;
    let mut netlist = selection.netlist;
    let profile = mapped_lut_profile(&netlist);
    let score = mapping_candidate_score(&netlist, &profile);
    let signed_off = verify_mapped_equivalence_proof(&netlist, applied);
    netlist.retiming =
    RetimingSelection {
        applied,
        original_lut_depth: original.data_depth,
        selected_lut_depth: profile.data_depth,
        original_critical_registers: original.critical_depth.len(),
        selected_critical_registers: profile.critical_depth.len(),
        original_period_ps: original.data_period_ps,
        selected_period_ps: profile.data_period_ps,
        original_overall_period_ps: original.overall_period_ps,
        selected_overall_period_ps: profile.overall_period_ps,
        original_registers,
        selected_registers: score.registers,
        certified_primitive_moves: netlist.equivalence_proof.certified_primitive_moves,
        equivalent_register_merges: netlist.equivalence_proof.equivalent_register_merges,
        equivalent_logic_replications: netlist.equivalence_proof.equivalent_logic_replications,
        equivalent_physical_rewires: netlist.equivalence_proof.equivalent_physical_rewires,
        unobservable_cells_removed: netlist.equivalence_proof.unobservable_cells_removed,
        equivalence_signed_off: signed_off,
    };
    netlist.timing_constraints =
    ResolvedTimingConstraints { default_frequency_mhz: frequency, clocks };
    netlist
}

/// Maps a netlist for one period and selects the best candidate.
pub fn map_to_ecp5_with_period<C: Fn(&RetimingRequest) -> Option<Vec<RetimingEdge>>>(
    netlist: &Netlist,
    options: MappingOptions,
    io_timing: &IoTimingConstraints,
    period_ps: u32,
    retiming_target_period_ps: u32,
    clocks: Vec<ResolvedClockTiming>,
    certify: &C,
) -> (result: Result<Ecp5Netlist, MappingError>)
    requires
        is_certifier(*certify),
    ensures
        mapping_model(result) == mapped_for_period(
            *netlist,
            options,
            io_timing@,
            period_ps,
            retiming_target_period_ps,
            clock_models(clocks@),
            oracle(*certify),
        ),
{
    let mut wide = match map_once_with_period_and_lut_inputs(
        netlist,
        options,
        period_ps,
        io_timing,
        WIDE_LUT_INPUTS,
    ) {
        Ok(wide) => wide,
        Err(error) => {
            return Err(error);
        },
    };
    split_branched_carry_outs(&mut wide);
    let narrow = match map_once_with_period_and_lut_inputs(
        netlist,
        options,
        period_ps,
        io_timing,
        LUT_INPUTS,
    ) {
        Ok(narrow) => narrow,
        Err(error) => {
            return Err(error);
        },
    };
    let mut conservative = narrow.clone();
    make_conservative(&mut conservative);
    let ghost kept = conservative@;
    let wide_profile = mapped_lut_profile(&wide);
    let conservative_profile = mapped_lut_profile(&conservative);
    let wide_score = mapping_candidate_score(&wide, &wide_profile);
    let conservative_score = mapping_candidate_score(&conservative, &conservative_profile);
    let ghost first = first_selection(wide@, kept, period_ps);
    let mut selection = if mapping_candidate_is_selected(
        wide_score,
        conservative_score,
        conservative_score,
        period_ps,
    ) {
        Selection {
            netlist: wide,
            original_profile: wide_profile,
            original_registers: wide_score.registers,
            applied: false,
        }
    } else {
        let profile = mapped_lut_profile(&conservative);
        Selection {
            netlist: conservative,
            original_profile: profile,
            original_registers: conservative_score.registers,
            applied: false,
        }
    };
    assert(selection@ == first);
    let narrow_registers = mapped_register_count(&narrow);
    let found = automatically_retime_mapped_luts(
        &narrow,
        narrow.cells.len(),
        narrow_registers,
        retiming_target_period_ps,
        certify,
    );
    if let Some(candidate) = found {
        if verify_mapped_equivalence_proof(&candidate, true) {
            let mut candidate = candidate;
            make_conservative(&mut candidate);
            let profile = mapped_lut_profile(&candidate);
            let score = mapping_candidate_score(&candidate, &profile);
            let selected_profile = mapped_lut_profile(&selection.netlist);
            let selected_score = mapping_candidate_score(&selection.netlist, &selected_profile);
            if mapping_candidate_is_selected(
                score,
                selected_score,
                conservative_score,
                period_ps,
            ) {
                selection =
                Selection {
                    netlist: candidate,
                    original_profile: conservative_profile,
                    original_registers: conservative_score.registers,
                    applied: true,
                };
            }
        }
    }
    let frequency = if options.timing_goal_mhz == 0 {
        1
    } else {
        options.timing_goal_mhz
    };
    Ok(report_selection(selection, frequency, clocks))
}

/// Whether an arrival is set for `wire`.
pub open spec fn arrives(arrivals: Seq<(u32, u32)>, wire: u32) -> bool {
    exists|i: int| 0 <= i < arrivals.len() && (#[trigger] arrivals[i]).0 == wire
}

/// Whether the delays name a port that `wire` belongs to.
pub open spec fn port_is_named(
    ports: Seq<PortModel>,
    delays: Seq<(Seq<char>, u32)>,
    bit: Bit,
) -> bool {
    exists|i: int|
        0 <= i < delays.len() && (mapped_port_at(ports, (#[trigger] delays[i]).0) matches Some(port)
            && ports[port].bits.contains(bit))
}

proof fn lemma_with_arrival(arrivals: Seq<(u32, u32)>, wire: u32, delay: u32, other: u32)
    ensures
        arrives(with_arrival(arrivals, wire, delay), other) <==> other == wire || arrives(
            arrivals,
            other,
        ),
    decreases arrivals.len(),
{
    let out = with_arrival(arrivals, wire, delay);
    if arrivals.len() == 0 {
        assert(out[0].0 == wire);
    } else {
        let rest = arrivals.drop_last();
        let last = arrivals.last();
        assert(arrives(arrivals, other) <==> last.0 == other || arrives(rest, other)) by {
            if arrives(arrivals, other) {
                let i = choose|i: int|
                    0 <= i < arrivals.len() && (#[trigger] arrivals[i]).0 == other;
                if i < rest.len() {
                    assert(rest[i].0 == other);
                }
            }
            if last.0 == other {
                assert(arrivals[arrivals.len() - 1].0 == other);
            }
            if arrives(rest, other) {
                let i = choose|i: int| 0 <= i < rest.len() && (#[trigger] rest[i]).0 == other;
                assert(arrivals[i].0 == other);
            }
        }
        let front = out.drop_last();
        assert(arrives(out, other) <==> out.last().0 == other || arrives(front, other)) by {
            if arrives(out, other) {
                let i = choose|i: int| 0 <= i < out.len() && (#[trigger] out[i]).0 == other;
                if i < front.len() {
                    assert(front[i].0 == other);
                }
            }
            if out.last().0 == other {
                assert(out[out.len() - 1].0 == other);
            }
            if arrives(front, other) {
                let i = choose|i: int| 0 <= i < front.len() && (#[trigger] front[i]).0 == other;
                assert(out[i].0 == other);
            }
        }
        if last.0 < wire {
            assert(front =~= arrivals);
        } else if last.0 == wire {
            assert(front =~= rest);
        } else {
            assert(front =~= with_arrival(rest, wire, delay));
            lemma_with_arrival(rest, wire, delay, other);
        }
    }
}

proof fn lemma_bits_delayed(
    arrivals: Seq<(u32, u32)>,
    bits: Seq<Bit>,
    delay: u32,
    wire: u32,
)
    ensures
        arrives(bits_delayed(arrivals, bits, delay), wire) <==> bits.contains(Bit::Wire(wire))
            || arrives(arrivals, wire),
    decreases bits.len(),
{
    if bits.len() > 0 {
        let rest = bits.drop_last();
        lemma_bits_delayed(arrivals, rest, delay, wire);
        assert(bits.contains(Bit::Wire(wire)) <==> bits.last() == Bit::Wire(wire)
            || rest.contains(Bit::Wire(wire))) by {
            if bits.contains(Bit::Wire(wire)) {
                let i = choose|i: int| 0 <= i < bits.len() && bits[i] == Bit::Wire(wire);
                if i < rest.len() {
                    assert(rest[i] == Bit::Wire(wire));
                }
            }
            if rest.contains(Bit::Wire(wire)) {
                let i = choose|i: int| 0 <= i < rest.len() && rest[i] == Bit::Wire(wire);
                assert(bits[i] == Bit::Wire(wire));
            }
        }
        if let Bit::Wire(last) = bits.last() {
            lemma_with_arrival(bits_delayed(arrivals, rest, delay), last, delay, wire);
        }
    }
}

proof fn lemma_named_last(ports: Seq<PortModel>, delays: Seq<(Seq<char>, u32)>, bit: Bit)
    requires
        delays.len() > 0,
    ensures
        port_is_named(ports, delays, bit) <==> port_is_named(ports, delays.drop_last(), bit) || (
        mapped_port_at(ports, delays.last().0) matches Some(port) && ports[port].bits.contains(
            bit,
        )),
{
    let rest = delays.drop_last();
    if port_is_named(ports, delays, bit) {
        let i = choose|i: int|
            0 <= i < delays.len() && (mapped_port_at(ports, (
            #[trigger] delays[i]).0) matches Some(port) && ports[port].bits.contains(bit));
        if i < rest.len() {
            assert(rest[i] == delays[i]);
        }
    }
    if port_is_named(ports, rest, bit) {
        let i = choose|i: int|
            0 <= i < rest.len() && (mapped_port_at(ports, (
            #[trigger] rest[i]).0) matches Some(port) && ports[port].bits.contains(bit));
        assert(delays[i] == rest[i]);
    }
    if let Some(port) = mapped_port_at(ports, delays.last().0) {
        if ports[port].bits.contains(bit) {
            assert(delays[delays.len() - 1] == delays.last());
        }
    }
}

/// An input delay applies to every wire of the port it names, and wires of
/// ports that no delay names stay unconstrained.
pub proof fn law_arrivals_follow_ports(
    ports: Seq<PortModel>,
    delays: Seq<(Seq<char>, u32)>,
    wire: u32,
)
    ensures
        arrives(resolved_arrivals(ports, delays), wire) <==> port_is_named(
            ports,
            delays,
            Bit::Wire(wire),
        ),
    decreases delays.len(),
{
    if delays.len() > 0 {
        let rest = delays.drop_last();
        law_arrivals_follow_ports(ports, rest, wire);
        lemma_named_last(ports, delays, Bit::Wire(wire));
        if let Some(port) = mapped_port_at(ports, delays.last().0) {
            lemma_bits_delayed(
                resolved_arrivals(ports, rest),
                ports[port].bits,
                delays.last().1,
                wire,
            );
        }
    }
}

/// Whether an external delay is set for `bit`.
pub open spec fn is_delayed(delays: Seq<(Bit, u32)>, bit: Bit) -> bool {
    exists|i: int| 0 <= i < delays.len() && (#[trigger] delays[i]).0 == bit
}

/// An output delay applies to every bit of the port it names, and bits of ports
/// that no delay names stay unconstrained.
pub proof fn law_delays_follow_ports(
    ports: Seq<PortModel>,
    delays: Seq<(Seq<char>, u32)>,
    bit: Bit,
)
    ensures
        is_delayed(resolved_delays(ports, delays), bit) <==> port_is_named(ports, delays, bit),
    decreases delays.len(),
{
    if delays.len() > 0 {
        let rest = resolved_delays(ports, delays.drop_last());
        let out = resolved_delays(ports, delays);
        law_delays_follow_ports(ports, delays.drop_last(), bit);
        lemma_named_last(ports, delays, bit);
        if let Some(port) = mapped_port_at(ports, delays.last().0) {
            let bits = ports[port].bits;
            if is_delayed(out, bit) {
                let i = choose|i: int| 0 <= i < out.len() && (#[trigger] out[i]).0 == bit;
                if i < rest.len() {
                    assert(rest[i].0 == bit);
                } else {
                    assert(bits[i - rest.len()] == bit);
                }
            }
            if is_delayed(rest, bit) {
                let i = choose|i: int| 0 <= i < rest.len() && (#[trigger] rest[i]).0 == bit;
                assert(out[i].0 == bit);
            }
            if bits.contains(bit) {
                let i = choose|i: int| 0 <= i < bits.len() && bits[i] == bit;
                assert(out[rest.len() + i].0 == bit);
            }
        }
    }
}

} // verus!
