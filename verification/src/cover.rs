//! Selection of one plan for every gate: timing first, then area recovery.

use vstd::prelude::*;

use crate::constraints::ArithmeticMapping;
use crate::constraints::IoTimingConstraints;
use crate::cuts::settles;
use crate::cuts::cut_is_sound;
use crate::cuts::cut_leaves;
use crate::cuts::cuts_are_sound;
use crate::cuts::Cut;
use crate::cuts::CutDatabase;
use crate::cuts::WIDE_LUT_INPUTS;
use crate::ir::enable_net;
use crate::ir::find_port;
use crate::ir::is_boolean;
use crate::ir::is_gate;
use crate::ir::memory_is_valid;
use crate::ir::memory_samples;
use crate::ir::node_is_valid;
use crate::ir::port_at;
use crate::ir::port_is_valid;
use crate::ir::port_reads;
use crate::ir::port_samples;
use crate::ir::port_words;
use crate::ir::readable;
use crate::ir::readable_below;
use crate::ir::register_is_valid;
use crate::ir::register_reads;
use crate::ir::reset_net;
use crate::ir::samples_of_memory;
use crate::ir::MemoryCell;
use crate::ir::MemoryPort;
use crate::ir::NetId;
use crate::ir::Netlist;
use crate::ir::Node;
use crate::ir::NodeKind;
use crate::ir::Port;
use crate::ir::RegisterCell;
use crate::plans::best_plan;
use crate::plans::lemma_selected_sound;
use crate::plans::nets_below;
use crate::plans::pin_delay;
use crate::plans::plan_model;
use crate::plans::plan_models;
use crate::plans::sat_size;
use crate::plans::selected_plan;
use crate::plans::wide_lut_input_delay_ps;
use crate::plans::LutPlan;
use crate::plans::PlanModel;
use crate::retained::entries_are_sound;
use crate::retained::retained_arrival;
use crate::retained::retained_tightened;
use crate::retained::tighten_required;
use crate::retained::tightened;
use crate::retained::RetainedOutput;
use crate::retained::RetainedTiming;
use crate::timing::BRAM_CLOCK_TO_OUTPUT_PS;
use crate::timing::BRAM_SETUP_PS;
use crate::timing::FLIP_FLOP_CLOCK_TO_OUTPUT_PS;
use crate::timing::FLIP_FLOP_SETUP_PS;

verus! {

/// Area-recovery passes at most.
pub const MAX_AREA_RECOVERY_PASSES: usize = 8;

/// The share of the period from which an arrival is critical.
pub const CRITICALITY_NUMERATOR: u32 = 15;

/// The parts of the period that [`CRITICALITY_NUMERATOR`] counts.
pub const CRITICALITY_DENOMINATOR: u32 = 32;

/// What a cover is selected from.
pub ghost struct CoverInputs {
    pub netlist: Netlist,
    pub cuts: Seq<Seq<Seq<NetId>>>,
    pub fanouts: Seq<usize>,
    pub retained: Seq<Option<RetainedOutput>>,
    pub mapping: ArithmeticMapping,
}

/// The plan and the arrival of each node.
#[verifier::ext_equal]
pub ghost struct CoverModel {
    pub plans: Seq<Option<PlanModel>>,
    pub arrivals: Seq<Option<u32>>,
}

/// Whether a plan reads earlier nets and is no wider than the dedicated muxes allow.
pub open spec fn plan_is_sound(nodes: Seq<Node>, index: int, plan: Option<PlanModel>) -> bool {
    match plan {
        Some(plan) => is_gate(nodes[index].kind) && readable_below(nodes, plan.leaves, index)
            && plan.leaves.len() <= WIDE_LUT_INPUTS && settles(nodes, index, plan.leaves),
        None => true,
    }
}

/// Whether every plan is sound, and every gate below `limit` has one.
pub open spec fn plans_are_sound(
    nodes: Seq<Node>,
    plans: Seq<Option<PlanModel>>,
    limit: int,
) -> bool {
    &&& plans.len() == nodes.len()
    &&& forall|i: int| 0 <= i < plans.len() ==> plan_is_sound(nodes, i, #[trigger] plans[i])
    &&& forall|i: int|
        0 <= i < limit && is_gate(nodes[i].kind) ==> (#[trigger] plans[i]) is Some
}

/// `arrivals` with `delay` at each of the first `count` bits.
pub open spec fn bits_arrive(
    arrivals: Seq<Option<u32>>,
    bits: Seq<NetId>,
    delay: u32,
    count: nat,
) -> Seq<Option<u32>>
    decreases count,
{
    if count == 0 {
        arrivals
    } else {
        bits_arrive(arrivals, bits, delay, (count - 1) as nat).update(
            bits[count - 1] as int,
            Some(delay),
        )
    }
}

/// The arrivals that input delays set.
pub open spec fn input_arrivals(
    netlist: Netlist,
    delays: Seq<(Seq<char>, u32)>,
) -> Seq<Option<u32>>
    decreases delays.len(),
{
    if delays.len() == 0 {
        Seq::new(netlist.nodes@.len(), |i: int| None::<u32>)
    } else {
        let rest = input_arrivals(netlist, delays.drop_last());
        match port_at(netlist.ports@, delays.last().0) {
            Some(port) => bits_arrive(
                rest,
                netlist.ports@[port].bits@,
                delays.last().1,
                netlist.ports@[port].bits@.len(),
            ),
            None => rest,
        }
    }
}

/// The arrival of a node that is no gate.
pub open spec fn source_arrival(
    inputs: CoverInputs,
    arrivals: Seq<Option<u32>>,
    index: int,
) -> Option<u32> {
    match inputs.netlist.nodes@[index].kind {
        NodeKind::MemoryOutput => Some(BRAM_CLOCK_TO_OUTPUT_PS),
        NodeKind::ArithmeticOutput | NodeKind::ComparisonOutput => retained_arrival(
            inputs.netlist,
            inputs.retained[index],
            arrivals,
            inputs.fanouts,
            inputs.mapping,
        ),
        NodeKind::Output => arrivals[inputs.netlist.nodes@[index].inputs@[0] as int],
        NodeKind::RegisterOutput => Some(FLIP_FLOP_CLOCK_TO_OUTPUT_PS),
        _ => arrivals[index],
    }
}

/// `state` with `plan` at gate `index`.
pub open spec fn with_plan(state: CoverModel, index: int, plan: PlanModel) -> CoverModel {
    CoverModel {
        plans: state.plans.update(index, Some(plan)),
        arrivals: state.arrivals.update(index, plan.arrival_ps),
    }
}

/// The state after the first `count` nodes chose their plans.
pub open spec fn initial_cover(
    inputs: CoverInputs,
    start: Seq<Option<u32>>,
    critical_arrival_ps: u32,
    count: nat,
) -> CoverModel
    decreases count,
{
    if count == 0 {
        CoverModel {
            plans: Seq::new(inputs.netlist.nodes@.len(), |i: int| None::<PlanModel>),
            arrivals: start,
        }
    } else {
        let index = count - 1;
        let state = initial_cover(inputs, start, critical_arrival_ps, (count - 1) as nat);
        if is_gate(inputs.netlist.nodes@[index].kind) {
            with_plan(
                state,
                index,
                selected_plan(
                    state.plans,
                    state.arrivals,
                    inputs.fanouts,
                    inputs.cuts[index],
                    critical_arrival_ps,
                ),
            )
        } else {
            CoverModel {
                arrivals: state.arrivals.update(
                    index,
                    source_arrival(inputs, state.arrivals, index),
                ),
                ..state
            }
        }
    }
}

/// The exec values that a cover is selected from.
pub struct CoverContext<'a> {
    /// The netlist.
    pub netlist: &'a Netlist,
    /// The cuts of each node.
    pub cuts: &'a CutDatabase,
    /// The number of readers of each net.
    pub fanouts: &'a Vec<usize>,
    /// The retained cell that drives each net.
    pub retained: &'a RetainedTiming,
    /// How arithmetic is implemented.
    pub mapping: ArithmeticMapping,
}

impl CoverContext<'_> {
    /// What the context holds.
    pub open spec fn inputs(&self) -> CoverInputs {
        CoverInputs {
            netlist: *self.netlist,
            cuts: self.cuts.model(),
            fanouts: self.fanouts@,
            retained: self.retained.outputs@,
            mapping: self.mapping,
        }
    }

    /// Whether the parts fit together.
    pub open spec fn is_sound(&self) -> bool {
        &&& self.netlist.is_valid()
        &&& self.cuts.is_sound(self.netlist.nodes@, WIDE_LUT_INPUTS as nat)
        &&& self.fanouts@.len() == self.netlist.nodes@.len()
        &&& entries_are_sound(*self.netlist, self.retained.outputs@)
    }
}

/// Readable nets are nets of the netlist.
pub proof fn lemma_nets_below(nodes: Seq<Node>, nets: Seq<NetId>, limit: int)
    requires
        readable_below(nodes, nets, limit),
    ensures
        nets_below(nets, nodes.len() as int),
        nets_below(nets, limit),
{
    assert forall|i: int| 0 <= i < nets.len() implies #[trigger] nets[i] < nodes.len() && nets[i]
        < limit by {
        assert(readable(nodes, nets[i]));
    }
}

/// Sound cuts are narrow and hold nets of the netlist.
pub proof fn lemma_cuts_below(nodes: Seq<Node>, cuts: Seq<Cut>, root: int)
    requires
        cuts_are_sound(nodes, root, WIDE_LUT_INPUTS as nat, cut_leaves(cuts)),
    ensures
        forall|i: int|
            0 <= i < cuts.len() ==> nets_below(
                (#[trigger] cuts[i]).leaves@,
                nodes.len() as int,
            ) && cuts[i].leaves@.len() <= WIDE_LUT_INPUTS,
{
    assert forall|i: int| 0 <= i < cuts.len() implies nets_below(
        (#[trigger] cuts[i]).leaves@,
        nodes.len() as int,
    ) && cuts[i].leaves@.len() <= WIDE_LUT_INPUTS by {
        assert(cut_is_sound(nodes, root, WIDE_LUT_INPUTS as nat, cut_leaves(cuts)[i]));
        lemma_nets_below(nodes, cuts[i].leaves@, root);
    }
}

/// Setting a plan sets its model.
pub proof fn lemma_models_update(plans: Seq<Option<LutPlan>>, index: int, plan: LutPlan)
    requires
        0 <= index < plans.len(),
    ensures
        plan_models(plans.update(index, Some(plan))) == plan_models(plans).update(
            index,
            Some(plan@),
        ),
{
    assert(plan_models(plans.update(index, Some(plan))) =~= plan_models(plans).update(
        index,
        Some(plan@),
    ));
}

fn arrivals_of_inputs(netlist: &Netlist, io_timing: &IoTimingConstraints) -> (arrivals: Vec<
    Option<u32>,
>)
    requires
        netlist.is_valid(),
    ensures
        arrivals@ == input_arrivals(*netlist, io_timing.input_delays_ps@),
        arrivals@.len() == netlist.nodes@.len(),
{
    let mut arrivals: Vec<Option<u32>> = Vec::new();
    for i in 0..netlist.nodes.len()
        invariant
            arrivals@.len() == i,
            forall|j: int| 0 <= j < i ==> arrivals@[j] is None,
    {
        arrivals.push(None);
    }
    assert(arrivals@ =~= Seq::new(netlist.nodes@.len(), |i: int| None::<u32>));
    let ghost delays = io_timing.input_delays_ps@;
    for i in 0..io_timing.input_delays_ps.entries.len()
        invariant
            netlist.is_valid(),
            delays == io_timing.input_delays_ps@,
            arrivals@ == input_arrivals(*netlist, delays.take(i as int)),
            arrivals@.len() == netlist.nodes@.len(),
    {
        assert(delays.take(i + 1).drop_last() =~= delays.take(i as int));
        let entry = &io_timing.input_delays_ps.entries[i];
        assert(delays[i as int] == (entry.0@, entry.1));
        if let Some(port) = find_port(&netlist.ports, &entry.0) {
            let bits = &netlist.ports[port].bits;
            let delay = entry.1;
            let ghost start = arrivals@;
            assert(port_is_valid(netlist.nodes@, netlist.ports@[port as int]));
            for b in 0..bits.len()
                invariant
                    start.len() == netlist.nodes@.len(),
                    arrivals@.len() == netlist.nodes@.len(),
                    arrivals@ == bits_arrive(start, bits@, delay, b as nat),
                    nets_below(bits@, netlist.nodes@.len() as int),
            {
                assert(bits@[b as int] < netlist.nodes@.len());
                arrivals.set(bits[b] as usize, Some(delay));
            }
        }
    }
    assert(delays.take(delays.len() as int) =~= delays);
    arrivals
}

/// When the net that an output bit or another source stands for arrives.
pub(crate) fn arrival_of_source(context: &CoverContext, arrivals: &Vec<Option<u32>>, index: usize) -> (arrival:
    Option<u32>)
    requires
        context.is_sound(),
        index < context.netlist.nodes@.len(),
        arrivals@.len() == context.netlist.nodes@.len(),
    ensures
        arrival == source_arrival(context.inputs(), arrivals@, index as int),
{
    let node = &context.netlist.nodes[index];
    assert(node_is_valid(context.netlist.nodes@, index as int));
    match node.kind {
        NodeKind::MemoryOutput => Some(BRAM_CLOCK_TO_OUTPUT_PS),
        NodeKind::ArithmeticOutput | NodeKind::ComparisonOutput => context.retained.output_arrival(
            context.netlist,
            index as NetId,
            arrivals,
            context.fanouts,
            context.mapping,
        ),
        NodeKind::Output => {
            assert(readable(context.netlist.nodes@, node.inputs@[0]));
            arrivals[node.inputs[0] as usize]
        },
        NodeKind::RegisterOutput => Some(FLIP_FLOP_CLOCK_TO_OUTPUT_PS),
        _ => arrivals[index],
    }
}

/// Chooses a plan for every gate, in topological order.
pub(crate) fn select_initial_plans(
    context: &CoverContext,
    critical_arrival_ps: u32,
    io_timing: &IoTimingConstraints,
) -> (cover: (Vec<Option<LutPlan>>, Vec<Option<u32>>))
    requires
        context.is_sound(),
    ensures
        (CoverModel { plans: plan_models(cover.0@), arrivals: cover.1@ }) == initial_cover(
            context.inputs(),
            input_arrivals(*context.netlist, io_timing.input_delays_ps@),
            critical_arrival_ps,
            context.netlist.nodes@.len(),
        ),
        plans_are_sound(
            context.netlist.nodes@,
            plan_models(cover.0@),
            context.netlist.nodes@.len() as int,
        ),
        cover.1@.len() == context.netlist.nodes@.len(),
{
    let nodes = &context.netlist.nodes;
    let ghost start = input_arrivals(*context.netlist, io_timing.input_delays_ps@);
    let mut arrivals = arrivals_of_inputs(context.netlist, io_timing);
    let mut plans: Vec<Option<LutPlan>> = Vec::new();
    for i in 0..nodes.len()
        invariant
            plans@.len() == i,
            forall|j: int| 0 <= j < i ==> plans@[j] is None,
    {
        plans.push(None);
    }
    assert(plan_models(plans@) =~= Seq::new(nodes@.len(), |i: int| None::<PlanModel>));
    for i in 0..nodes.len()
        invariant
            context.is_sound(),
            nodes@ == context.netlist.nodes@,
            plans@.len() == nodes@.len(),
            arrivals@.len() == nodes@.len(),
            (CoverModel { plans: plan_models(plans@), arrivals: arrivals@ }) == initial_cover(
                context.inputs(),
                start,
                critical_arrival_ps,
                i as nat,
            ),
            plans_are_sound(nodes@, plan_models(plans@), i as int),
    {
        assert(initial_cover(context.inputs(), start, critical_arrival_ps, i as nat).plans
            == plan_models(plans@));
        assert(initial_cover(context.inputs(), start, critical_arrival_ps, i as nat).arrivals
            == arrivals@);
        if is_boolean(nodes[i].kind) {
            proof {
                assert(context.cuts.model()[i as int] == cut_leaves(context.cuts.cuts@[i as int]@));
                lemma_cuts_below(nodes@, context.cuts.cuts@[i as int]@, i as int);
                assert(context.cuts.model()[i as int].len() >= 1);
                lemma_selected_sound(
                    nodes@,
                    plan_models(plans@),
                    arrivals@,
                    context.fanouts@,
                    context.cuts.model()[i as int],
                    critical_arrival_ps,
                    i as int,
                    WIDE_LUT_INPUTS as nat,
                );
            }
            let plan = best_plan(
                &plans,
                &arrivals,
                context.fanouts,
                &context.cuts.cuts[i],
                critical_arrival_ps,
            );
            proof {
                lemma_models_update(plans@, i as int, plan);
            }
            let ghost before = plan_models(plans@);
            arrivals.set(i, plan.arrival_ps);
            plans.set(i, Some(plan));
            assert forall|k: int| 0 <= k < nodes@.len() implies plan_is_sound(
                nodes@,
                k,
                #[trigger] plan_models(plans@)[k],
            ) by {
                if k != i {
                    assert(plan_is_sound(nodes@, k, before[k]));
                }
            }
            assert forall|k: int| 0 <= k < i + 1 && is_gate(nodes@[k].kind) implies (
            #[trigger] plan_models(plans@)[k]) is Some by {
                if k != i {
                    assert(before[k] is Some);
                }
            }
        } else {
            let arrival = arrival_of_source(context, &arrivals, i);
            arrivals.set(i, arrival);
        }
    }
    (plans, arrivals)
}

/// `required` with a deadline at `net` that leaves `sink_delay` before the period ends.
///
/// A net without an arrival gets none; with `preserve` the deadline is no
/// earlier than the arrival.
pub open spec fn constrained(
    required: Seq<u32>,
    arrivals: Seq<Option<u32>>,
    period_ps: u32,
    preserve: bool,
    net: NetId,
    sink_delay: u32,
) -> Seq<u32> {
    match arrivals[net as int] {
        Some(arrival) => {
            let slack = if sink_delay < period_ps {
                (period_ps - sink_delay) as u32
            } else {
                0
            };
            let deadline = if preserve && slack < arrival {
                arrival
            } else {
                slack
            };
            if deadline < required[net as int] {
                required.update(net as int, deadline)
            } else {
                required
            }
        },
        None => required,
    }
}

/// `required` with a deadline at each net of `nets`.
pub open spec fn all_constrained(
    required: Seq<u32>,
    arrivals: Seq<Option<u32>>,
    period_ps: u32,
    preserve: bool,
    nets: Seq<NetId>,
    sink_delay: u32,
) -> Seq<u32>
    decreases nets.len(),
{
    if nets.len() == 0 {
        required
    } else {
        constrained(
            all_constrained(
                required,
                arrivals,
                period_ps,
                preserve,
                nets.drop_last(),
                sink_delay,
            ),
            arrivals,
            period_ps,
            preserve,
            nets.last(),
            sink_delay,
        )
    }
}

/// The nets behind the bits of a port; a bit that reads nothing has none.
pub open spec fn read_sources(nodes: Seq<Node>, bits: Seq<NetId>) -> Seq<NetId>
    decreases bits.len(),
{
    if bits.len() == 0 {
        seq![]
    } else {
        let rest = read_sources(nodes, bits.drop_last());
        let inputs = nodes[bits.last() as int].inputs@;
        if inputs.len() > 0 {
            rest.push(inputs[0])
        } else {
            rest
        }
    }
}

/// Deadlines that output delays set.
pub open spec fn outputs_constrained(
    required: Seq<u32>,
    netlist: Netlist,
    arrivals: Seq<Option<u32>>,
    period_ps: u32,
    preserve: bool,
    delays: Seq<(Seq<char>, u32)>,
) -> Seq<u32>
    decreases delays.len(),
{
    if delays.len() == 0 {
        required
    } else {
        let rest = outputs_constrained(
            required,
            netlist,
            arrivals,
            period_ps,
            preserve,
            delays.drop_last(),
        );
        match port_at(netlist.ports@, delays.last().0) {
            Some(port) => all_constrained(
                rest,
                arrivals,
                period_ps,
                preserve,
                read_sources(netlist.nodes@, netlist.ports@[port].bits@),
                delays.last().1,
            ),
            None => rest,
        }
    }
}

/// The nets a register samples at its clock edge.
pub open spec fn register_samples(register: RegisterCell) -> Seq<NetId> {
    seq![register.data] + enable_net(register.enable) + reset_net(register.reset)
}

/// Deadlines that registers set.
pub open spec fn registers_constrained(
    required: Seq<u32>,
    arrivals: Seq<Option<u32>>,
    period_ps: u32,
    preserve: bool,
    registers: Seq<RegisterCell>,
) -> Seq<u32>
    decreases registers.len(),
{
    if registers.len() == 0 {
        required
    } else {
        all_constrained(
            registers_constrained(
                required,
                arrivals,
                period_ps,
                preserve,
                registers.drop_last(),
            ),
            arrivals,
            period_ps,
            preserve,
            register_samples(registers.last()),
            FLIP_FLOP_SETUP_PS,
        )
    }
}

/// Deadlines that memories set.
pub open spec fn memories_constrained(
    required: Seq<u32>,
    arrivals: Seq<Option<u32>>,
    period_ps: u32,
    preserve: bool,
    memories: Seq<MemoryCell>,
) -> Seq<u32>
    decreases memories.len(),
{
    if memories.len() == 0 {
        required
    } else {
        all_constrained(
            memories_constrained(required, arrivals, period_ps, preserve, memories.drop_last()),
            arrivals,
            period_ps,
            preserve,
            memory_samples(memories.last()),
            BRAM_SETUP_PS,
        )
    }
}

/// Deadlines of the first `count` leaves of a plan.
pub open spec fn leaves_tightened(
    required: Seq<u32>,
    fanouts: Seq<usize>,
    leaves: Seq<NetId>,
    required_output: u32,
    count: nat,
) -> Seq<u32>
    decreases count,
{
    if count == 0 {
        required
    } else {
        tightened(
            leaves_tightened(required, fanouts, leaves, required_output, (count - 1) as nat),
            fanouts,
            leaves[count - 1],
            required_output,
            pin_delay(leaves.len(), (count - 1) as nat),
        )
    }
}

/// Deadlines that node `index` passes to what it reads.
pub open spec fn node_tightened(
    inputs: CoverInputs,
    plans: Seq<Option<PlanModel>>,
    required: Seq<u32>,
    index: int,
) -> Seq<u32> {
    let kind = inputs.netlist.nodes@[index].kind;
    if required[index] == u32::MAX {
        required
    } else if is_gate(kind) {
        match plans[index] {
            Some(plan) => leaves_tightened(
                required,
                inputs.fanouts,
                plan.leaves,
                required[index],
                plan.leaves.len(),
            ),
            None => required,
        }
    } else if kind is ArithmeticOutput || kind is ComparisonOutput {
        retained_tightened(
            required,
            inputs.netlist,
            inputs.retained[index],
            required[index],
            inputs.fanouts,
            inputs.mapping,
        )
    } else {
        required
    }
}

/// Deadlines after nodes `count - 1` down to zero passed theirs on.
pub open spec fn nodes_tightened(
    inputs: CoverInputs,
    plans: Seq<Option<PlanModel>>,
    required: Seq<u32>,
    count: nat,
) -> Seq<u32>
    decreases count,
{
    if count == 0 {
        required
    } else {
        nodes_tightened(
            inputs,
            plans,
            node_tightened(inputs, plans, required, count - 1),
            (count - 1) as nat,
        )
    }
}

/// The latest time at which each net may arrive; `u32::MAX` where nothing limits it.
pub open spec fn required_of(
    inputs: CoverInputs,
    state: CoverModel,
    period_ps: u32,
    output_delays: Seq<(Seq<char>, u32)>,
    preserve: bool,
) -> Seq<u32> {
    let netlist = inputs.netlist;
    let free = Seq::new(netlist.nodes@.len(), |i: int| u32::MAX);
    let outputs = outputs_constrained(
        free,
        netlist,
        state.arrivals,
        period_ps,
        preserve,
        output_delays,
    );
    let registers = registers_constrained(
        outputs,
        state.arrivals,
        period_ps,
        preserve,
        netlist.registers@,
    );
    let memories = memories_constrained(
        registers,
        state.arrivals,
        period_ps,
        preserve,
        netlist.memories@,
    );
    nodes_tightened(inputs, state.plans, memories, netlist.nodes@.len())
}

fn constrain(
    required: &mut Vec<u32>,
    arrivals: &Vec<Option<u32>>,
    period_ps: u32,
    preserve: bool,
    net: NetId,
    sink_delay: u32,
)
    requires
        net < arrivals@.len(),
        old(required)@.len() == arrivals@.len(),
    ensures
        final(required)@ == constrained(
            old(required)@,
            arrivals@,
            period_ps,
            preserve,
            net,
            sink_delay,
        ),
        final(required)@.len() == arrivals@.len(),
{
    if let Some(arrival) = arrivals[net as usize] {
        let slack: u32 = period_ps.saturating_sub(sink_delay);
        let deadline = if preserve && slack < arrival {
            arrival
        } else {
            slack
        };
        if deadline < required[net as usize] {
            required.set(net as usize, deadline);
        }
    }
}

fn constrain_all(
    required: &mut Vec<u32>,
    arrivals: &Vec<Option<u32>>,
    period_ps: u32,
    preserve: bool,
    nets: &Vec<NetId>,
    sink_delay: u32,
)
    requires
        nets_below(nets@, arrivals@.len() as int),
        old(required)@.len() == arrivals@.len(),
    ensures
        final(required)@ == all_constrained(
            old(required)@,
            arrivals@,
            period_ps,
            preserve,
            nets@,
            sink_delay,
        ),
        final(required)@.len() == arrivals@.len(),
{
    let ghost start = required@;
    for i in 0..nets.len()
        invariant
            nets_below(nets@, arrivals@.len() as int),
            required@.len() == arrivals@.len(),
            required@ == all_constrained(
                start,
                arrivals@,
                period_ps,
                preserve,
                nets@.take(i as int),
                sink_delay,
            ),
    {
        assert(nets@.take(i + 1).drop_last() =~= nets@.take(i as int));
        assert(nets@[i as int] < arrivals@.len());
        constrain(required, arrivals, period_ps, preserve, nets[i], sink_delay);
    }
    assert(nets@.take(nets@.len() as int) =~= nets@);
}

fn sources_read(netlist: &Netlist, port: &Port) -> (nets: Vec<NetId>)
    requires
        netlist.is_valid(),
        port_is_valid(netlist.nodes@, *port),
    ensures
        nets@ == read_sources(netlist.nodes@, port.bits@),
        nets_below(nets@, netlist.nodes@.len() as int),
{
    let mut nets: Vec<NetId> = Vec::new();
    for b in 0..port.bits.len()
        invariant
            netlist.is_valid(),
            port_is_valid(netlist.nodes@, *port),
            nets@ == read_sources(netlist.nodes@, port.bits@.take(b as int)),
            nets_below(nets@, netlist.nodes@.len() as int),
    {
        assert(port.bits@.take(b + 1).drop_last() =~= port.bits@.take(b as int));
        let bit = port.bits[b] as usize;
        assert(port.bits@[b as int] < netlist.nodes@.len());
        assert(node_is_valid(netlist.nodes@, bit as int));
        if netlist.nodes[bit].inputs.len() > 0 {
            assert(readable(netlist.nodes@, netlist.nodes@[bit as int].inputs@[0]));
            nets.push(netlist.nodes[bit].inputs[0]);
        }
    }
    assert(port.bits@.take(port.bits@.len() as int) =~= port.bits@);
    nets
}

fn samples_of_register(register: &RegisterCell) -> (nets: Vec<NetId>)
    ensures
        nets@ == register_samples(*register),
{
    let mut nets: Vec<NetId> = Vec::new();
    nets.push(register.data);
    if let Some(enable) = register.enable {
        nets.push(enable.signal);
    }
    if let Some(reset) = register.reset {
        nets.push(reset.signal);
    }
    assert(nets@ =~= register_samples(*register));
    nets
}

/// What a register samples are nets of the netlist.
pub proof fn lemma_register_samples(netlist: Netlist, index: int)
    requires
        netlist.is_valid(),
        0 <= index < netlist.registers@.len(),
    ensures
        nets_below(register_samples(netlist.registers@[index]), netlist.nodes@.len() as int),
{
    let register = netlist.registers@[index];
    let reads = register_reads(register);
    let nets = register_samples(register);
    assert(register_is_valid(netlist.nodes@, register));
    lemma_nets_below(netlist.nodes@, reads, netlist.nodes@.len() as int);
    assert forall|k: int| 0 <= k < nets.len() implies #[trigger] nets[k] < netlist.nodes@.len() by {
        if k == 0 {
            assert(reads[0] == nets[0]);
        } else {
            assert(reads[k + 1] == nets[k]);
        }
    }
}

proof fn lemma_port_samples(nodes: Seq<Node>, port: MemoryPort)
    requires
        readable_below(nodes, port_reads(port), nodes.len() as int),
    ensures
        nets_below(port_samples(port), nodes.len() as int),
{
    let reads = port_reads(port);
    let nets = port_samples(port);
    let words = port_words(port).len();
    lemma_nets_below(nodes, reads, nodes.len() as int);
    assert forall|k: int| 0 <= k < nets.len() implies #[trigger] nets[k] < nodes.len() by {
        if k < words {
            assert(reads[k] == nets[k]);
        } else {
            assert(reads[k + 1] == nets[k]);
        }
    }
}

proof fn lemma_memory_samples(netlist: Netlist, index: int)
    requires
        netlist.is_valid(),
        0 <= index < netlist.memories@.len(),
    ensures
        nets_below(memory_samples(netlist.memories@[index]), netlist.nodes@.len() as int),
{
    let memory = netlist.memories@[index];
    assert(memory_is_valid(netlist.nodes@, memory));
    lemma_port_samples(netlist.nodes@, memory.port);
    if let Some(port) = memory.second_port {
        lemma_port_samples(netlist.nodes@, port);
        let first = port_samples(memory.port);
        let nets = memory_samples(memory);
        assert forall|k: int| 0 <= k < nets.len() implies #[trigger] nets[k]
            < netlist.nodes@.len() by {
            if k < first.len() {
                assert(first[k] < netlist.nodes@.len());
            } else {
                assert(port_samples(port)[k - first.len()] < netlist.nodes@.len());
            }
        }
    }
}

fn constrain_outputs(
    required: &mut Vec<u32>,
    netlist: &Netlist,
    arrivals: &Vec<Option<u32>>,
    period_ps: u32,
    preserve: bool,
    io_timing: &IoTimingConstraints,
)
    requires
        netlist.is_valid(),
        arrivals@.len() == netlist.nodes@.len(),
        old(required)@.len() == arrivals@.len(),
    ensures
        final(required)@ == outputs_constrained(
            old(required)@,
            *netlist,
            arrivals@,
            period_ps,
            preserve,
            io_timing.output_delays_ps@,
        ),
        final(required)@.len() == arrivals@.len(),
{
    let ghost start = required@;
    let ghost delays = io_timing.output_delays_ps@;
    for i in 0..io_timing.output_delays_ps.entries.len()
        invariant
            netlist.is_valid(),
            arrivals@.len() == netlist.nodes@.len(),
            delays == io_timing.output_delays_ps@,
            required@.len() == arrivals@.len(),
            required@ == outputs_constrained(
                start,
                *netlist,
                arrivals@,
                period_ps,
                preserve,
                delays.take(i as int),
            ),
    {
        assert(delays.take(i + 1).drop_last() =~= delays.take(i as int));
        let entry = &io_timing.output_delays_ps.entries[i];
        assert(delays[i as int] == (entry.0@, entry.1));
        if let Some(port) = find_port(&netlist.ports, &entry.0) {
            assert(port_is_valid(netlist.nodes@, netlist.ports@[port as int]));
            let nets = sources_read(netlist, &netlist.ports[port]);
            constrain_all(required, arrivals, period_ps, preserve, &nets, entry.1);
        }
    }
    assert(delays.take(delays.len() as int) =~= delays);
}

fn constrain_registers(
    required: &mut Vec<u32>,
    netlist: &Netlist,
    arrivals: &Vec<Option<u32>>,
    period_ps: u32,
    preserve: bool,
)
    requires
        netlist.is_valid(),
        arrivals@.len() == netlist.nodes@.len(),
        old(required)@.len() == arrivals@.len(),
    ensures
        final(required)@ == registers_constrained(
            old(required)@,
            arrivals@,
            period_ps,
            preserve,
            netlist.registers@,
        ),
        final(required)@.len() == arrivals@.len(),
{
    let ghost start = required@;
    for i in 0..netlist.registers.len()
        invariant
            netlist.is_valid(),
            arrivals@.len() == netlist.nodes@.len(),
            required@.len() == arrivals@.len(),
            required@ == registers_constrained(
                start,
                arrivals@,
                period_ps,
                preserve,
                netlist.registers@.take(i as int),
            ),
    {
        assert(netlist.registers@.take(i + 1).drop_last() =~= netlist.registers@.take(i as int));
        let nets = samples_of_register(&netlist.registers[i]);
        proof {
            lemma_register_samples(*netlist, i as int);
        }
        constrain_all(required, arrivals, period_ps, preserve, &nets, FLIP_FLOP_SETUP_PS);
    }
    assert(netlist.registers@.take(netlist.registers@.len() as int) =~= netlist.registers@);
}

fn constrain_memories(
    required: &mut Vec<u32>,
    netlist: &Netlist,
    arrivals: &Vec<Option<u32>>,
    period_ps: u32,
    preserve: bool,
)
    requires
        netlist.is_valid(),
        arrivals@.len() == netlist.nodes@.len(),
        old(required)@.len() == arrivals@.len(),
    ensures
        final(required)@ == memories_constrained(
            old(required)@,
            arrivals@,
            period_ps,
            preserve,
            netlist.memories@,
        ),
        final(required)@.len() == arrivals@.len(),
{
    let ghost start = required@;
    for i in 0..netlist.memories.len()
        invariant
            netlist.is_valid(),
            arrivals@.len() == netlist.nodes@.len(),
            required@.len() == arrivals@.len(),
            required@ == memories_constrained(
                start,
                arrivals@,
                period_ps,
                preserve,
                netlist.memories@.take(i as int),
            ),
    {
        assert(netlist.memories@.take(i + 1).drop_last() =~= netlist.memories@.take(i as int));
        let nets = samples_of_memory(&netlist.memories[i]);
        proof {
            lemma_memory_samples(*netlist, i as int);
        }
        constrain_all(required, arrivals, period_ps, preserve, &nets, BRAM_SETUP_PS);
    }
    assert(netlist.memories@.take(netlist.memories@.len() as int) =~= netlist.memories@);
}

fn tighten_leaves(
    required: &mut Vec<u32>,
    fanouts: &Vec<usize>,
    leaves: &Vec<NetId>,
    required_output: u32,
)
    requires
        nets_below(leaves@, old(required)@.len() as int),
        leaves@.len() <= WIDE_LUT_INPUTS,
        fanouts@.len() == old(required)@.len(),
    ensures
        final(required)@ == leaves_tightened(
            old(required)@,
            fanouts@,
            leaves@,
            required_output,
            leaves@.len(),
        ),
        final(required)@.len() == old(required)@.len(),
{
    let ghost start = required@;
    for k in 0..leaves.len()
        invariant
            nets_below(leaves@, start.len() as int),
            leaves@.len() <= WIDE_LUT_INPUTS,
            fanouts@.len() == start.len(),
            required@.len() == start.len(),
            required@ == leaves_tightened(start, fanouts@, leaves@, required_output, k as nat),
    {
        assert(leaves@[k as int] < start.len());
        tighten_required(
            leaves[k],
            required_output,
            wide_lut_input_delay_ps(leaves.len(), k),
            fanouts,
            required,
        );
    }
}

/// The latest time at which each net may arrive; `u32::MAX` where nothing limits it.
pub(crate) fn required_times(
    context: &CoverContext,
    plans: &Vec<Option<LutPlan>>,
    arrivals: &Vec<Option<u32>>,
    period_ps: u32,
    io_timing: &IoTimingConstraints,
    preserve: bool,
) -> (required: Vec<u32>)
    requires
        context.is_sound(),
        plans_are_sound(
            context.netlist.nodes@,
            plan_models(plans@),
            context.netlist.nodes@.len() as int,
        ),
        arrivals@.len() == context.netlist.nodes@.len(),
    ensures
        required@ == required_of(
            context.inputs(),
            (CoverModel { plans: plan_models(plans@), arrivals: arrivals@ }),
            period_ps,
            io_timing.output_delays_ps@,
            preserve,
        ),
        required@.len() == context.netlist.nodes@.len(),
{
    let nodes = &context.netlist.nodes;
    let mut required: Vec<u32> = Vec::new();
    for i in 0..nodes.len()
        invariant
            required@.len() == i,
            forall|j: int| 0 <= j < i ==> required@[j] == u32::MAX,
    {
        required.push(u32::MAX);
    }
    assert(required@ =~= Seq::new(nodes@.len(), |i: int| u32::MAX));
    constrain_outputs(&mut required, context.netlist, arrivals, period_ps, preserve, io_timing);
    constrain_registers(&mut required, context.netlist, arrivals, period_ps, preserve);
    constrain_memories(&mut required, context.netlist, arrivals, period_ps, preserve);
    let ghost start = required@;
    let ghost models = plan_models(plans@);
    let mut index: usize = nodes.len();
    while index > 0
        invariant
            context.is_sound(),
            nodes@ == context.netlist.nodes@,
            models == plan_models(plans@),
            plans_are_sound(nodes@, models, nodes@.len() as int),
            plans@.len() == nodes@.len(),
            index <= nodes@.len(),
            required@.len() == nodes@.len(),
            nodes_tightened(context.inputs(), models, start, nodes@.len())
                == nodes_tightened(context.inputs(), models, required@, index as nat),
        decreases index,
    {
        index -= 1;
        let deadline = required[index];
        let ghost before = required@;
        if deadline != u32::MAX {
            if is_boolean(nodes[index].kind) {
                assert(models[index as int] == plan_model(plans@[index as int]));
                assert(plan_is_sound(nodes@, index as int, models[index as int]));
                if let Some(plan) = &plans[index] {
                    proof {
                        lemma_nets_below(nodes@, plan.leaves@, index as int);
                    }
                    tighten_leaves(&mut required, context.fanouts, &plan.leaves, deadline);
                }
            } else {
                match nodes[index].kind {
                    NodeKind::ArithmeticOutput | NodeKind::ComparisonOutput => {
                        context.retained.propagate_required(
                            context.netlist,
                            index as NetId,
                            deadline,
                            context.fanouts,
                            context.mapping,
                            &mut required,
                        );
                    },
                    _ => {},
                }
            }
        }
        assert(required@ == node_tightened(context.inputs(), models, before, index as int));
    }
    required
}

/// Whether every arrival meets its deadline.
pub open spec fn meets_deadlines(arrivals: Seq<Option<u32>>, required: Seq<u32>) -> bool {
    forall|i: int|
        0 <= i < arrivals.len() && i < required.len() ==> match #[trigger] arrivals[i] {
            Some(arrival) => required[i] == u32::MAX || arrival <= required[i],
            None => true,
        }
}

/// Whether every arrival meets its deadline.
pub fn timing_is_valid(arrivals: &Vec<Option<u32>>, required: &Vec<u32>) -> (valid: bool)
    requires
        arrivals@.len() == required@.len(),
    ensures
        valid == meets_deadlines(arrivals@, required@),
{
    for i in 0..arrivals.len()
        invariant
            arrivals@.len() == required@.len(),
            forall|j: int|
                0 <= j < i ==> match #[trigger] arrivals@[j] {
                    Some(arrival) => required@[j] == u32::MAX || arrival <= required@[j],
                    None => true,
                },
    {
        if let Some(arrival) = arrivals[i] {
            if required[i] != u32::MAX && arrival > required[i] {
                assert(arrivals@[i as int] == Some(arrival));
                return false;
            }
        }
    }
    true
}

/// The reference counts and the area that counting a net in or out brings.
pub ghost struct Counted {
    pub references: Seq<usize>,
    pub area: usize,
}

/// Counts one more or one fewer reference to a net.
pub open spec fn stepped(count: usize, adding: bool) -> usize {
    if adding {
        sat_size(count as int, 1)
    } else if count > 0 {
        (count - 1) as usize
    } else {
        0
    }
}

/// Counts a reference to `net` in or out: the first in and the last out carry on to its leaves.
pub open spec fn counted_node(
    plans: Seq<Option<PlanModel>>,
    references: Seq<usize>,
    net: NetId,
    adding: bool,
) -> Counted
    decreases 2 * net + 1, 0nat,
{
    match plans[net as int] {
        Some(plan) => {
            let count = stepped(references[net as int], adding);
            let marked = references.update(net as int, count);
            if (adding && count > 1) || (!adding && count > 0) {
                Counted { references: marked, area: 0 }
            } else {
                let below = counted_leaves(
                    plans,
                    marked,
                    plan.leaves,
                    plan.leaves.len(),
                    net as nat,
                    adding,
                );
                Counted {
                    references: below.references,
                    area: sat_size(plan.root_area as int, below.area as int),
                }
            }
        },
        None => Counted { references, area: 0 },
    }
}

/// Counts references to the first `count` leaves in or out; only nets below `bound` count.
pub open spec fn counted_leaves(
    plans: Seq<Option<PlanModel>>,
    references: Seq<usize>,
    leaves: Seq<NetId>,
    count: nat,
    bound: nat,
    adding: bool,
) -> Counted
    decreases 2 * bound, count,
{
    if count == 0 {
        Counted { references, area: 0 }
    } else {
        let rest = counted_leaves(plans, references, leaves, (count - 1) as nat, bound, adding);
        let leaf = leaves[count - 1];
        if leaf < bound {
            let last = counted_node(plans, rest.references, leaf, adding);
            Counted {
                references: last.references,
                area: sat_size(rest.area as int, last.area as int),
            }
        } else {
            rest
        }
    }
}

/// Counts a reference to `net` in or out.
pub(crate) fn count_node(
    plans: &Vec<Option<LutPlan>>,
    references: &mut Vec<usize>,
    net: NetId,
    adding: bool,
    Ghost(nodes): Ghost<Seq<Node>>,
) -> (area: usize)
    requires
        net < plans@.len(),
        plans_are_sound(nodes, plan_models(plans@), 0),
        old(references)@.len() == plans@.len(),
    ensures
        (Counted { references: final(references)@, area }) == counted_node(
            plan_models(plans@),
            old(references)@,
            net,
            adding,
        ),
        final(references)@.len() == plans@.len(),
    decreases 2 * net + 1, 0nat,
{
    let ghost models = plan_models(plans@);
    assert(models[net as int] == plan_model(plans@[net as int]));
    assert(plan_is_sound(nodes, net as int, models[net as int]));
    match &plans[net as usize] {
        Some(plan) => {
            let current = references[net as usize];
            let count: usize = if adding {
                current.saturating_add(1)
            } else {
                current.saturating_sub(1)
            };
            references.set(net as usize, count);
            if (adding && count > 1) || (!adding && count > 0) {
                return 0;
            }
            let below = count_leaves(plans, references, &plan.leaves, net, adding, Ghost(nodes));
            plan.root_area.saturating_add(below)
        },
        None => 0,
    }
}

/// Counts references to the leaves of a plan in or out.
pub(crate) fn count_leaves(
    plans: &Vec<Option<LutPlan>>,
    references: &mut Vec<usize>,
    leaves: &Vec<NetId>,
    bound: NetId,
    adding: bool,
    Ghost(nodes): Ghost<Seq<Node>>,
) -> (area: usize)
    requires
        bound < plans@.len(),
        plans_are_sound(nodes, plan_models(plans@), 0),
        readable_below(nodes, leaves@, bound as int),
        old(references)@.len() == plans@.len(),
    ensures
        (Counted { references: final(references)@, area }) == counted_leaves(
            plan_models(plans@),
            old(references)@,
            leaves@,
            leaves@.len(),
            bound as nat,
            adding,
        ),
        final(references)@.len() == plans@.len(),
    decreases 2 * bound, leaves@.len() + 1,
{
    let ghost models = plan_models(plans@);
    let ghost start = references@;
    let mut area: usize = 0;
    for i in 0..leaves.len()
        invariant
            bound < plans@.len(),
            models == plan_models(plans@),
            plans_are_sound(nodes, models, 0),
            readable_below(nodes, leaves@, bound as int),
            references@.len() == plans@.len(),
            (Counted { references: references@, area }) == counted_leaves(
                models,
                start,
                leaves@,
                i as nat,
                bound as nat,
                adding,
            ),
    {
        assert(readable(nodes, leaves@[i as int]));
        let ghost so_far = counted_leaves(models, start, leaves@, i as nat, bound as nat, adding);
        assert(so_far.references == references@ && so_far.area == area);
        let more = count_node(plans, references, leaves[i], adding, Ghost(nodes));
        let ghost last = counted_node(models, so_far.references, leaves@[i as int], adding);
        assert(last.references == references@ && last.area == more);
        area = area.saturating_add(more);
    }
    area
}

} // verus!
