//! The selected cover is sound: every gate has a plan, and its leaves determine it.

use vstd::prelude::*;

use crate::constraints::DelaysModel;
use crate::constraints::MappingOptions;
use crate::cover::initial_cover;
use crate::cover::plan_is_sound;
use crate::cover::plans_are_sound;
use crate::cover::CoverInputs;
use crate::cover::CoverModel;
use crate::cuts::cut_is_sound;
use crate::cuts::cuts_are_sound;
use crate::cuts::law_cuts_determine_their_root;
use crate::cuts::node_cuts;
use crate::cuts::LUT_INPUTS;
use crate::cuts::WIDE_LUT_INPUTS;
use crate::ir::is_gate;
use crate::ir::NetId;
use crate::ir::Netlist;
use crate::ir::Node;
use crate::mapping::netlist_cover;
use crate::plans::lemma_plan_pins;
use crate::plans::lemma_selected_sound;
use crate::plans::PlanModel;
use crate::recover::picked;
use crate::recover::recovered;
use crate::recover::recovered_node;
use crate::recover::recovered_nodes;
use crate::recover::refreshed;
use crate::recover::timed_cover;
use crate::recover::RecoveryModel;

verus! {

/// Whether every gate has cuts, and all cuts are sound.
spec fn cuts_are_ready(inputs: CoverInputs) -> bool {
    let nodes = inputs.netlist.nodes@;
    &&& inputs.cuts.len() == nodes.len()
    &&& forall|i: int|
        0 <= i < nodes.len() ==> cuts_are_sound(
            nodes,
            i,
            WIDE_LUT_INPUTS as nat,
            #[trigger] inputs.cuts[i],
        )
    &&& forall|i: int|
        0 <= i < nodes.len() && is_gate(nodes[i].kind) ==> (#[trigger] inputs.cuts[i]).len() >= 1
}

proof fn lemma_update_sound(
    nodes: Seq<Node>,
    plans: Seq<Option<PlanModel>>,
    limit: int,
    index: int,
    plan: PlanModel,
)
    requires
        plans_are_sound(nodes, plans, limit),
        0 <= index < nodes.len(),
        index <= limit <= nodes.len(),
        plan_is_sound(nodes, index, Some(plan)),
    ensures
        plans_are_sound(nodes, plans.update(index, Some(plan)), limit),
        index == limit ==> plans_are_sound(nodes, plans.update(index, Some(plan)), limit + 1),
{
    let after = plans.update(index, Some(plan));
    assert forall|i: int| 0 <= i < after.len() implies plan_is_sound(
        nodes,
        i,
        #[trigger] after[i],
    ) by {
        if i != index {
            assert(plan_is_sound(nodes, i, plans[i]));
        }
    }
    assert forall|i: int| 0 <= i < limit && is_gate(nodes[i].kind) implies (
    #[trigger] after[i]) is Some by {
        if i != index {
            assert(plans[i] is Some);
        }
    }
}

proof fn lemma_initial_sound(
    inputs: CoverInputs,
    start: Seq<Option<u32>>,
    critical_arrival_ps: u32,
    count: nat,
)
    requires
        cuts_are_ready(inputs),
        count <= inputs.netlist.nodes@.len(),
    ensures
        plans_are_sound(
            inputs.netlist.nodes@,
            initial_cover(inputs, start, critical_arrival_ps, count).plans,
            count as int,
        ),
    decreases count,
{
    let nodes = inputs.netlist.nodes@;
    if count > 0 {
        let index = count - 1;
        lemma_initial_sound(inputs, start, critical_arrival_ps, index as nat);
        let state = initial_cover(inputs, start, critical_arrival_ps, index as nat);
        if is_gate(nodes[index].kind) {
            assert(inputs.cuts[index].len() >= 1);
            lemma_selected_sound(
                nodes,
                state.plans,
                state.arrivals,
                inputs.fanouts,
                inputs.cuts[index],
                critical_arrival_ps,
                index,
                WIDE_LUT_INPUTS as nat,
            );
            let plan = crate::plans::selected_plan(
                state.plans,
                state.arrivals,
                inputs.fanouts,
                inputs.cuts[index],
                critical_arrival_ps,
            );
            lemma_update_sound(nodes, state.plans, index, index, plan);
        }
    }
}

proof fn lemma_picked_sound(
    inputs: CoverInputs,
    state: CoverModel,
    references: Seq<usize>,
    index: int,
    deadline: u32,
    count: nat,
)
    requires
        cuts_are_ready(inputs),
        0 <= index < inputs.netlist.nodes@.len(),
        is_gate(inputs.netlist.nodes@[index].kind),
        count <= inputs.cuts[index].len(),
    ensures
        picked(inputs, state, references, index, deadline, count).best matches Some((_, plan))
            ==> plan_is_sound(inputs.netlist.nodes@, index, Some(plan)),
    decreases count,
{
    if count > 0 {
        lemma_picked_sound(inputs, state, references, index, deadline, (count - 1) as nat);
        let nodes = inputs.netlist.nodes@;
        let cut = inputs.cuts[index][count - 1];
        assert(cuts_are_sound(nodes, index, WIDE_LUT_INPUTS as nat, inputs.cuts[index]));
        assert(cut_is_sound(nodes, index, WIDE_LUT_INPUTS as nat, cut));
        lemma_plan_pins(nodes, state.arrivals, inputs.fanouts, cut, index);
    }
}

proof fn lemma_recovered_sound(
    inputs: CoverInputs,
    arrivals: Seq<Option<u32>>,
    state: RecoveryModel,
    count: nat,
)
    requires
        cuts_are_ready(inputs),
        count <= inputs.netlist.nodes@.len(),
        plans_are_sound(
            inputs.netlist.nodes@,
            state.plans,
            inputs.netlist.nodes@.len() as int,
        ),
    ensures
        plans_are_sound(
            inputs.netlist.nodes@,
            recovered_nodes(inputs, arrivals, state, count).plans,
            inputs.netlist.nodes@.len() as int,
        ),
    decreases count,
{
    if count > 0 {
        let nodes = inputs.netlist.nodes@;
        let index = count - 1;
        let next = recovered_node(inputs, arrivals, state, index);
        assert(plan_is_sound(nodes, index, state.plans[index]));
        if state.plans[index] is Some && state.references[index] != 0 {
            let original = state.plans[index]->0;
            let deadline = state.required[index];
            let released = crate::cover::counted_leaves(
                state.plans,
                state.references,
                original.leaves,
                original.leaves.len(),
                index as nat,
                false,
            );
            let cover = CoverModel { plans: state.plans, arrivals };
            lemma_picked_sound(
                inputs,
                cover,
                released.references,
                index,
                deadline,
                inputs.cuts[index].len(),
            );
            let best = picked(
                inputs,
                cover,
                released.references,
                index,
                deadline,
                inputs.cuts[index].len(),
            ).best;
            let replacement = match best {
                Some((_, plan)) => plan,
                None => original,
            };
            lemma_update_sound(nodes, state.plans, nodes.len() as int, index, replacement);
            assert(next.plans == state.plans.update(index, Some(replacement)));
        }
        lemma_recovered_sound(inputs, arrivals, next, index as nat);
    }
}

proof fn lemma_refreshed_sound(inputs: CoverInputs, state: CoverModel, count: nat)
    requires
        count <= inputs.netlist.nodes@.len(),
        plans_are_sound(
            inputs.netlist.nodes@,
            state.plans,
            inputs.netlist.nodes@.len() as int,
        ),
    ensures
        plans_are_sound(
            inputs.netlist.nodes@,
            refreshed(inputs, state, count).plans,
            inputs.netlist.nodes@.len() as int,
        ),
    decreases count,
{
    if count > 0 {
        let nodes = inputs.netlist.nodes@;
        let index = count - 1;
        lemma_refreshed_sound(inputs, state, index as nat);
        let rest = refreshed(inputs, state, index as nat);
        assert(plan_is_sound(nodes, index, rest.plans[index]));
        if is_gate(nodes[index].kind) && rest.plans[index] is Some {
            let leaves = rest.plans[index]->0.leaves;
            lemma_plan_pins(nodes, rest.arrivals, inputs.fanouts, leaves, index);
            let plan = crate::plans::plan_over(
                rest.plans,
                rest.arrivals,
                inputs.fanouts,
                leaves,
            );
            lemma_update_sound(nodes, rest.plans, nodes.len() as int, index, plan);
        }
    }
}

proof fn lemma_passes_sound(
    inputs: CoverInputs,
    state: CoverModel,
    required: Seq<u32>,
    references: Seq<usize>,
    passes: nat,
)
    requires
        cuts_are_ready(inputs),
        plans_are_sound(
            inputs.netlist.nodes@,
            state.plans,
            inputs.netlist.nodes@.len() as int,
        ),
    ensures
        plans_are_sound(
            inputs.netlist.nodes@,
            recovered(inputs, state, required, references, passes).cover.plans,
            inputs.netlist.nodes@.len() as int,
        ),
    decreases passes,
{
    if passes > 0 {
        let count = inputs.netlist.nodes@.len();
        let start = RecoveryModel { plans: state.plans, required, references, changed: false };
        lemma_recovered_sound(inputs, state.arrivals, start, count);
        let pass = recovered_nodes(inputs, state.arrivals, start, count);
        let cover = CoverModel { plans: pass.plans, arrivals: state.arrivals };
        lemma_refreshed_sound(inputs, cover, count);
        if pass.changed {
            lemma_passes_sound(
                inputs,
                refreshed(inputs, cover, count),
                pass.required,
                pass.references,
                (passes - 1) as nat,
            );
        }
    }
}

/// The selected cover is sound: every gate has a plan whose leaves are readable,
/// few enough and determine it, and nothing else has one.
pub proof fn law_cover_is_sound(
    netlist: Netlist,
    options: MappingOptions,
    period_ps: u32,
    delays: DelaysModel,
    max_inputs: nat,
)
    requires
        netlist.is_valid(),
        LUT_INPUTS <= max_inputs <= WIDE_LUT_INPUTS,
    ensures
        plans_are_sound(
            netlist.nodes@,
            netlist_cover(netlist, options, period_ps, delays, max_inputs).plans,
            netlist.nodes@.len() as int,
        ),
{
    let nodes = netlist.nodes@;
    let inputs = CoverInputs {
        netlist,
        cuts: Seq::new(nodes.len(), |i: int| node_cuts(nodes, i, max_inputs)),
        fanouts: crate::demand::fanouts_of(netlist),
        retained: crate::retained::retained_outputs(netlist),
        mapping: options.arithmetic,
    };
    assert forall|i: int| 0 <= i < nodes.len() implies cuts_are_sound(
        nodes,
        i,
        WIDE_LUT_INPUTS as nat,
        #[trigger] inputs.cuts[i],
    ) && (is_gate(nodes[i].kind) ==> inputs.cuts[i].len() >= 1) by {
        if is_gate(nodes[i].kind) {
            law_cuts_determine_their_root(nodes, i as NetId, max_inputs);
            let cuts = inputs.cuts[i];
            assert forall|k: int| 0 <= k < cuts.len() implies cut_is_sound(
                nodes,
                i,
                WIDE_LUT_INPUTS as nat,
                #[trigger] cuts[k],
            ) by {
                assert(cut_is_sound(nodes, i, max_inputs, cuts[k]));
            }
        }
    }
    let start = crate::cover::input_arrivals(netlist, delays.inputs);
    let critical = crate::recover::critical_arrival(period_ps);
    lemma_initial_sound(inputs, start, critical, nodes.len());
    lemma_initial_sound(inputs, start, 0, nodes.len());
    let timed = timed_cover(inputs, period_ps, delays.inputs, delays.outputs);
    let roots = crate::demand::demanded(netlist);
    lemma_passes_sound(
        inputs,
        timed,
        crate::recover::recovery_deadlines(inputs, timed, period_ps, delays.outputs),
        crate::recover::rooted(timed.plans, roots, roots.len()),
        crate::cover::MAX_AREA_RECOVERY_PASSES as nat,
    );
}

} // verus!
