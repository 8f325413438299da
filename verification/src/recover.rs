//! Area recovery under deadlines, and the cover that results.

use vstd::prelude::*;

use crate::constraints::IoTimingConstraints;
use crate::constraints::MappingOptions;
use crate::cover::arrival_of_source;
use crate::cover::count_leaves;
use crate::cover::count_node;
use crate::cover::counted_leaves;
use crate::cover::counted_node;
use crate::cover::initial_cover;
use crate::cover::input_arrivals;
use crate::cover::lemma_cuts_below;
use crate::cover::lemma_models_update;
use crate::cover::lemma_nets_below;
use crate::cover::meets_deadlines;
use crate::cover::plan_is_sound;
use crate::cover::plans_are_sound;
use crate::cover::required_of;
use crate::cover::required_times;
use crate::cover::select_initial_plans;
use crate::cover::source_arrival;
use crate::cover::timing_is_valid;
use crate::cover::with_plan;
use crate::cover::CoverContext;
use crate::cover::CoverInputs;
use crate::cover::CoverModel;
use crate::cover::CRITICALITY_DENOMINATOR;
use crate::cover::CRITICALITY_NUMERATOR;
use crate::cover::MAX_AREA_RECOVERY_PASSES;
use crate::cuts::settles;
use crate::cuts::cut_is_sound;
use crate::cuts::cut_leaves;
use crate::cuts::cuts_are_sound;
use crate::cuts::same_nets;
use crate::cuts::Cut;
use crate::cuts::CutDatabase;
use crate::cuts::WIDE_LUT_INPUTS;
use crate::demand::all_readable;
use crate::demand::fanouts_of;
use crate::demand::structural_fanouts;
use crate::ir::enable_net;
use crate::ir::is_boolean;
use crate::ir::is_gate;
use crate::ir::readable;
use crate::ir::readable_below;
use crate::ir::register_is_valid;
use crate::ir::register_reads;
use crate::ir::NetId;
use crate::ir::Netlist;
use crate::ir::RegisterCell;
use crate::plans::cheaper_plan;
use crate::plans::lemma_plan_pins;
use crate::plans::nets_below;
use crate::plans::pin_delay;
use crate::plans::plan_for_cut;
use crate::plans::plan_is_cheaper;
use crate::plans::plan_model;
use crate::plans::plan_models;
use crate::plans::plan_over;
use crate::plans::sat_size;
use crate::plans::through;
use crate::plans::wide_lut_input_delay_ps;
use crate::plans::LutPlan;
use crate::plans::PlanModel;
use crate::retained::picoseconds;
use crate::retained::retained_outputs;
use crate::retained::tighten_required;
use crate::retained::tightened;
use crate::retained::to_picoseconds;
use crate::retained::RetainedTiming;
use crate::timing::delay_by;
use crate::timing::later;
use crate::timing::take_later;
use crate::timing::wire_delay_ps;
use crate::timing::FLIP_FLOP_SETUP_PS;

verus! {

/// The best replacement so far, with the area it would occupy.
pub ghost struct Pick {
    pub references: Seq<usize>,
    pub best: Option<(usize, PlanModel)>,
}

/// The cheapest of the plans over the first `count` cuts that meet the deadline.
///
/// The area of a plan counts what its leaves would add to the reference
/// counts; each plan is counted in and out again.
pub open spec fn picked(
    inputs: CoverInputs,
    state: CoverModel,
    references: Seq<usize>,
    index: int,
    deadline: u32,
    count: nat,
) -> Pick
    decreases count,
{
    if count == 0 {
        Pick { references, best: None }
    } else {
        let rest = picked(inputs, state, references, index, deadline, (count - 1) as nat);
        let plan = plan_over(
            state.plans,
            state.arrivals,
            inputs.fanouts,
            inputs.cuts[index][count - 1],
        );
        if plan.arrival_ps matches Some(arrival) && arrival > deadline {
            rest
        } else {
            let size = plan.leaves.len();
            let up = counted_leaves(
                state.plans,
                rest.references,
                plan.leaves,
                size,
                index as nat,
                true,
            );
            let down = counted_leaves(
                state.plans,
                up.references,
                plan.leaves,
                size,
                index as nat,
                false,
            );
            let area = sat_size(plan.root_area as int, up.area as int);
            Pick {
                references: down.references,
                best: match rest.best {
                    Some((best_area, best)) => if cheaper_plan(area, plan, best_area, best) {
                        Some((area, plan))
                    } else {
                        rest.best
                    },
                    None => Some((area, plan)),
                },
            }
        }
    }
}

/// Deadlines of the first `count` leaves that have plans of their own.
pub open spec fn planned_tightened(
    plans: Seq<Option<PlanModel>>,
    fanouts: Seq<usize>,
    required: Seq<u32>,
    leaves: Seq<NetId>,
    deadline: u32,
    count: nat,
) -> Seq<u32>
    decreases count,
{
    if count == 0 {
        required
    } else {
        let rest = planned_tightened(plans, fanouts, required, leaves, deadline, (count - 1) as nat);
        let leaf = leaves[count - 1];
        if plans[leaf as int] is Some {
            tightened(rest, fanouts, leaf, deadline, pin_delay(leaves.len(), (count - 1) as nat))
        } else {
            rest
        }
    }
}

/// State of one recovery pass.
#[verifier::ext_equal]
pub ghost struct RecoveryModel {
    pub plans: Seq<Option<PlanModel>>,
    pub required: Seq<u32>,
    pub references: Seq<usize>,
    pub changed: bool,
}

/// Replaces the plan of a referenced gate by the cheapest that meets its deadline.
pub open spec fn recovered_node(
    inputs: CoverInputs,
    arrivals: Seq<Option<u32>>,
    state: RecoveryModel,
    index: int,
) -> RecoveryModel {
    match state.plans[index] {
        Some(original) => if state.references[index] == 0 {
            state
        } else {
            let size = original.leaves.len();
            let deadline = state.required[index];
            let released = counted_leaves(
                state.plans,
                state.references,
                original.leaves,
                size,
                index as nat,
                false,
            );
            let pick = picked(
                inputs,
                CoverModel { plans: state.plans, arrivals },
                released.references,
                index,
                deadline,
                inputs.cuts[index].len(),
            );
            let replacement = match pick.best {
                Some((_, plan)) => plan,
                None => original,
            };
            let taken = counted_leaves(
                state.plans,
                pick.references,
                replacement.leaves,
                replacement.leaves.len(),
                index as nat,
                true,
            );
            RecoveryModel {
                plans: state.plans.update(index, Some(replacement)),
                required: planned_tightened(
                    state.plans,
                    inputs.fanouts,
                    state.required,
                    replacement.leaves,
                    deadline,
                    replacement.leaves.len(),
                ),
                references: taken.references,
                changed: state.changed || replacement.leaves != original.leaves,
            }
        },
        None => state,
    }
}

/// Recovery of nodes `count - 1` down to zero.
pub open spec fn recovered_nodes(
    inputs: CoverInputs,
    arrivals: Seq<Option<u32>>,
    state: RecoveryModel,
    count: nat,
) -> RecoveryModel
    decreases count,
{
    if count == 0 {
        state
    } else {
        recovered_nodes(
            inputs,
            arrivals,
            recovered_node(inputs, arrivals, state, count - 1),
            (count - 1) as nat,
        )
    }
}

/// The state after the first `count` nodes had their costs computed anew.
pub open spec fn refreshed(inputs: CoverInputs, state: CoverModel, count: nat) -> CoverModel
    decreases count,
{
    if count == 0 {
        state
    } else {
        let index = count - 1;
        let rest = refreshed(inputs, state, (count - 1) as nat);
        if is_gate(inputs.netlist.nodes@[index].kind) {
            match rest.plans[index] {
                Some(plan) => with_plan(
                    rest,
                    index,
                    plan_over(rest.plans, rest.arrivals, inputs.fanouts, plan.leaves),
                ),
                None => rest,
            }
        } else {
            CoverModel {
                arrivals: rest.arrivals.update(
                    index,
                    source_arrival(inputs, rest.arrivals, index),
                ),
                ..rest
            }
        }
    }
}

/// A cover with its deadlines.
pub ghost struct TimedCover {
    pub cover: CoverModel,
    pub required: Seq<u32>,
}

/// The cover after at most `passes` recovery passes; a pass without a change is the last.
pub open spec fn recovered(
    inputs: CoverInputs,
    state: CoverModel,
    required: Seq<u32>,
    references: Seq<usize>,
    passes: nat,
) -> TimedCover
    decreases passes,
{
    if passes == 0 {
        TimedCover { cover: state, required }
    } else {
        let count = inputs.netlist.nodes@.len();
        let pass = recovered_nodes(
            inputs,
            state.arrivals,
            RecoveryModel { plans: state.plans, required, references, changed: false },
            count,
        );
        let next = refreshed(
            inputs,
            CoverModel { plans: pass.plans, arrivals: state.arrivals },
            count,
        );
        if pass.changed {
            recovered(inputs, next, pass.required, pass.references, (passes - 1) as nat)
        } else {
            TimedCover { cover: next, required: pass.required }
        }
    }
}

/// Reference counts after the first `count` roots were counted in.
pub open spec fn rooted(
    plans: Seq<Option<PlanModel>>,
    roots: Seq<NetId>,
    count: nat,
) -> Seq<usize>
    decreases count,
{
    if count == 0 {
        Seq::new(plans.len(), |i: int| 0usize)
    } else {
        counted_node(plans, rooted(plans, roots, (count - 1) as nat), roots[count - 1], true).references
    }
}

fn pick_replacement(
    context: &CoverContext,
    plans: &Vec<Option<LutPlan>>,
    arrivals: &Vec<Option<u32>>,
    references: &mut Vec<usize>,
    index: usize,
    deadline: u32,
) -> (best: Option<LutPlan>)
    requires
        context.is_sound(),
        plans_are_sound(context.netlist.nodes@, plan_models(plans@), 0),
        index < context.netlist.nodes@.len(),
        arrivals@.len() == context.netlist.nodes@.len(),
        old(references)@.len() == context.netlist.nodes@.len(),
    ensures
        ({
            let pick = picked(
                context.inputs(),
                (CoverModel { plans: plan_models(plans@), arrivals: arrivals@ }),
                old(references)@,
                index as int,
                deadline,
                context.inputs().cuts[index as int].len(),
            );
            &&& final(references)@ == pick.references
            &&& match pick.best {
                Some((_, plan)) => best is Some && best->0@ == plan,
                None => best is None,
            }
        }),
        final(references)@.len() == context.netlist.nodes@.len(),
        best matches Some(plan) ==> readable_below(
            context.netlist.nodes@,
            plan.leaves@,
            index as int,
        ) && plan.leaves@.len() <= WIDE_LUT_INPUTS && settles(
            context.netlist.nodes@,
            index as int,
            plan.leaves@,
        ),
{
    let ghost nodes = context.netlist.nodes@;
    let ghost inputs = context.inputs();
    let ghost state = CoverModel { plans: plan_models(plans@), arrivals: arrivals@ };
    let ghost start = references@;
    let cuts = &context.cuts.cuts[index];
    proof {
        assert(context.cuts.model()[index as int] == cut_leaves(cuts@));
        lemma_cuts_below(nodes, cuts@, index as int);
    }
    let mut best: Option<LutPlan> = None;
    let mut best_area: usize = 0;
    for i in 0..cuts.len()
        invariant
            context.is_sound(),
            nodes == context.netlist.nodes@,
            inputs == context.inputs(),
            state == (CoverModel { plans: plan_models(plans@), arrivals: arrivals@ }),
            plans_are_sound(nodes, plan_models(plans@), 0),
            plans@.len() == nodes.len(),
            index < nodes.len(),
            nodes.len() <= u32::MAX,
            arrivals@.len() == nodes.len(),
            references@.len() == nodes.len(),
            inputs.cuts[index as int] == cut_leaves(cuts@),
            cuts_are_sound(nodes, index as int, WIDE_LUT_INPUTS as nat, cut_leaves(cuts@)),
            forall|i: int|
                0 <= i < cuts@.len() ==> nets_below(
                    (#[trigger] cuts@[i]).leaves@,
                    nodes.len() as int,
                ) && cuts@[i].leaves@.len() <= WIDE_LUT_INPUTS,
            ({
                let pick = picked(inputs, state, start, index as int, deadline, i as nat);
                &&& references@ == pick.references
                &&& match pick.best {
                    Some((area, plan)) => best is Some && best->0@ == plan && best_area == area,
                    None => best is None,
                }
            }),
            best matches Some(plan) ==> readable_below(nodes, plan.leaves@, index as int)
                && plan.leaves@.len() <= WIDE_LUT_INPUTS && settles(
                nodes,
                index as int,
                plan.leaves@,
            ),
    {
        let plan = plan_for_cut(plans, arrivals, context.fanouts, &cuts[i]);
        proof {
            assert(cut_leaves(cuts@)[i as int] == cuts@[i as int].leaves@);
            assert(cut_is_sound(
                nodes,
                index as int,
                WIDE_LUT_INPUTS as nat,
                cut_leaves(cuts@)[i as int],
            ));
            lemma_plan_pins(
                nodes,
                arrivals@,
                context.fanouts@,
                cuts@[i as int].leaves@,
                index as int,
            );
        }
        let late = match plan.arrival_ps {
            Some(arrival) => arrival > deadline,
            None => false,
        };
        if !late {
            let net = index as NetId;
            let up = count_leaves(plans, references, &plan.leaves, net, true, Ghost(nodes));
            let ghost counted = counted_leaves(
                state.plans,
                picked(inputs, state, start, index as int, deadline, i as nat).references,
                plan.leaves@,
                plan.leaves@.len(),
                index as nat,
                true,
            );
            assert(counted.references == references@ && counted.area == up);
            let down = count_leaves(plans, references, &plan.leaves, net, false, Ghost(nodes));
            let ghost uncounted = counted_leaves(
                state.plans,
                counted.references,
                plan.leaves@,
                plan.leaves@.len(),
                index as nat,
                false,
            );
            assert(uncounted.references == references@);
            let area = plan.root_area.saturating_add(up);
            let better = match &best {
                Some(current) => plan_is_cheaper(area, &plan, best_area, current),
                None => true,
            };
            if better {
                best = Some(plan);
                best_area = area;
            }
        }
    }
    best
}

fn tighten_planned(
    plans: &Vec<Option<LutPlan>>,
    fanouts: &Vec<usize>,
    required: &mut Vec<u32>,
    leaves: &Vec<NetId>,
    deadline: u32,
)
    requires
        plans@.len() == old(required)@.len(),
        fanouts@.len() == old(required)@.len(),
        nets_below(leaves@, old(required)@.len() as int),
        leaves@.len() <= WIDE_LUT_INPUTS,
    ensures
        final(required)@ == planned_tightened(
            plan_models(plans@),
            fanouts@,
            old(required)@,
            leaves@,
            deadline,
            leaves@.len(),
        ),
        final(required)@.len() == old(required)@.len(),
{
    let ghost start = required@;
    for k in 0..leaves.len()
        invariant
            plans@.len() == start.len(),
            fanouts@.len() == start.len(),
            nets_below(leaves@, start.len() as int),
            leaves@.len() <= WIDE_LUT_INPUTS,
            required@.len() == start.len(),
            required@ == planned_tightened(
                plan_models(plans@),
                fanouts@,
                start,
                leaves@,
                deadline,
                k as nat,
            ),
    {
        let leaf = leaves[k];
        assert(leaves@[k as int] < start.len());
        assert(plan_models(plans@)[leaf as int] == plan_model(plans@[leaf as int]));
        if plans[leaf as usize].is_some() {
            tighten_required(
                leaf,
                deadline,
                wide_lut_input_delay_ps(leaves.len(), k),
                fanouts,
                required,
            );
        }
    }
}

fn recover_node(
    context: &CoverContext,
    plans: &mut Vec<Option<LutPlan>>,
    arrivals: &Vec<Option<u32>>,
    required: &mut Vec<u32>,
    references: &mut Vec<usize>,
    changed: bool,
    index: usize,
) -> (now_changed: bool)
    requires
        context.is_sound(),
        plans_are_sound(
            context.netlist.nodes@,
            plan_models(old(plans)@),
            context.netlist.nodes@.len() as int,
        ),
        index < context.netlist.nodes@.len(),
        arrivals@.len() == context.netlist.nodes@.len(),
        old(required)@.len() == context.netlist.nodes@.len(),
        old(references)@.len() == context.netlist.nodes@.len(),
    ensures
        (RecoveryModel {
            plans: plan_models(final(plans)@),
            required: final(required)@,
            references: final(references)@,
            changed: now_changed,
        }) == recovered_node(
            context.inputs(),
            arrivals@,
            (RecoveryModel {
                plans: plan_models(old(plans)@),
                required: old(required)@,
                references: old(references)@,
                changed,
            }),
            index as int,
        ),
        plans_are_sound(
            context.netlist.nodes@,
            plan_models(final(plans)@),
            context.netlist.nodes@.len() as int,
        ),
        final(required)@.len() == context.netlist.nodes@.len(),
        final(references)@.len() == context.netlist.nodes@.len(),
{
    let ghost nodes = context.netlist.nodes@;
    let ghost before = plan_models(plans@);
    let ghost start = RecoveryModel {
        plans: before,
        required: required@,
        references: references@,
        changed,
    };
    assert(before[index as int] == plan_model(plans@[index as int]));
    assert(plan_is_sound(nodes, index as int, before[index as int]));
    if references[index] == 0 {
        return changed;
    }
    let original = match &plans[index] {
        Some(plan) => plan.duplicate(),
        None => {
            return changed;
        },
    };
    let deadline = required[index];
    let net = index as NetId;
    count_leaves(plans, references, &original.leaves, net, false, Ghost(nodes));
    let ghost released = counted_leaves(
        before,
        start.references,
        original.leaves@,
        original.leaves@.len(),
        index as nat,
        false,
    );
    assert(released.references == references@);
    let best = pick_replacement(context, plans, arrivals, references, index, deadline);
    let ghost pick = picked(
        context.inputs(),
        CoverModel { plans: before, arrivals: arrivals@ },
        released.references,
        index as int,
        deadline,
        context.inputs().cuts[index as int].len(),
    );
    let (replacement, differs) = match best {
        Some(plan) => {
            let differs = !same_nets(&plan.leaves, &original.leaves);
            (plan, differs)
        },
        None => (original, false),
    };
    count_leaves(plans, references, &replacement.leaves, net, true, Ghost(nodes));
    let ghost taken = counted_leaves(
        before,
        pick.references,
        replacement.leaves@,
        replacement.leaves@.len(),
        index as nat,
        true,
    );
    assert(taken.references == references@);
    proof {
        lemma_nets_below(nodes, replacement.leaves@, index as int);
        lemma_models_update(plans@, index as int, replacement);
    }
    tighten_planned(plans, context.fanouts, required, &replacement.leaves, deadline);
    plans.set(index, Some(replacement));
    assert forall|k: int| 0 <= k < nodes.len() implies plan_is_sound(
        nodes,
        k,
        #[trigger] plan_models(plans@)[k],
    ) by {
        if k != index {
            assert(plan_is_sound(nodes, k, before[k]));
        }
    }
    assert forall|k: int| 0 <= k < nodes.len() && is_gate(nodes[k].kind) implies (
    #[trigger] plan_models(plans@)[k]) is Some by {
        if k != index {
            assert(before[k] is Some);
        }
    }
    changed || differs
}

fn refresh_arrivals(
    context: &CoverContext,
    plans: &mut Vec<Option<LutPlan>>,
    arrivals: &mut Vec<Option<u32>>,
)
    requires
        context.is_sound(),
        plans_are_sound(
            context.netlist.nodes@,
            plan_models(old(plans)@),
            context.netlist.nodes@.len() as int,
        ),
        old(arrivals)@.len() == context.netlist.nodes@.len(),
    ensures
        (CoverModel { plans: plan_models(final(plans)@), arrivals: final(arrivals)@ }) == refreshed(
            context.inputs(),
            (CoverModel { plans: plan_models(old(plans)@), arrivals: old(arrivals)@ }),
            context.netlist.nodes@.len(),
        ),
        plans_are_sound(
            context.netlist.nodes@,
            plan_models(final(plans)@),
            context.netlist.nodes@.len() as int,
        ),
        final(arrivals)@.len() == context.netlist.nodes@.len(),
{
    let ghost start = CoverModel { plans: plan_models(plans@), arrivals: arrivals@ };
    let nodes = &context.netlist.nodes;
    for i in 0..nodes.len()
        invariant
            context.is_sound(),
            nodes@ == context.netlist.nodes@,
            plans@.len() == nodes@.len(),
            arrivals@.len() == nodes@.len(),
            plans_are_sound(nodes@, plan_models(plans@), nodes@.len() as int),
            (CoverModel { plans: plan_models(plans@), arrivals: arrivals@ }) == refreshed(
                context.inputs(),
                start,
                i as nat,
            ),
    {
        let ghost before = plan_models(plans@);
        let ghost state = refreshed(context.inputs(), start, i as nat);
        assert(state.plans == before && state.arrivals == arrivals@);
        if is_boolean(nodes[i].kind) {
            assert(before[i as int] is Some);
            assert(before[i as int] == plan_model(plans@[i as int]));
            assert(plan_is_sound(nodes@, i as int, before[i as int]));
            let leaves = match &plans[i] {
                Some(plan) => crate::cells::copied(&plan.leaves),
                None => Vec::new(),
            };
            proof {
                lemma_nets_below(nodes@, leaves@, i as int);
                lemma_plan_pins(nodes@, arrivals@, context.fanouts@, leaves@, i as int);
            }
            let plan = plan_for_cut(plans, arrivals, context.fanouts, &Cut { leaves });
            proof {
                lemma_models_update(plans@, i as int, plan);
            }
            arrivals.set(i, plan.arrival_ps);
            plans.set(i, Some(plan));
            assert forall|k: int| 0 <= k < nodes@.len() implies plan_is_sound(
                nodes@,
                k,
                #[trigger] plan_models(plans@)[k],
            ) by {
                if k != i {
                    assert(plan_is_sound(nodes@, k, before[k]));
                }
            }
            assert forall|k: int| 0 <= k < nodes@.len() && is_gate(nodes@[k].kind) implies (
            #[trigger] plan_models(plans@)[k]) is Some by {
                if k != i {
                    assert(before[k] is Some);
                }
            }
        } else {
            let arrival = arrival_of_source(context, arrivals, i);
            arrivals.set(i, arrival);
        }
    }
}

fn count_roots(
    context: &CoverContext,
    plans: &Vec<Option<LutPlan>>,
    roots: &Vec<NetId>,
) -> (references: Vec<usize>)
    requires
        plans_are_sound(context.netlist.nodes@, plan_models(plans@), 0),
        all_readable(context.netlist.nodes@, roots@),
    ensures
        references@ == rooted(plan_models(plans@), roots@, roots@.len()),
        references@.len() == plans@.len(),
{
    let ghost nodes = context.netlist.nodes@;
    let ghost models = plan_models(plans@);
    let mut references: Vec<usize> = Vec::new();
    for i in 0..plans.len()
        invariant
            references@.len() == i,
            forall|j: int| 0 <= j < i ==> references@[j] == 0,
    {
        references.push(0);
    }
    assert(references@ =~= Seq::new(models.len(), |i: int| 0usize));
    for i in 0..roots.len()
        invariant
            models == plan_models(plans@),
            nodes == context.netlist.nodes@,
            plans_are_sound(nodes, models, 0),
            all_readable(nodes, roots@),
            references@.len() == plans@.len(),
            references@ == rooted(models, roots@, i as nat),
    {
        assert(readable(nodes, roots@[i as int]));
        let ghost before = references@;
        count_node(plans, &mut references, roots[i], true, Ghost(nodes));
        let ghost counted = counted_node(models, before, roots@[i as int], true);
        assert(counted.references == references@);
    }
    references
}

/// Replaces plans by cheaper ones that meet their deadlines.
fn recover_area(
    context: &CoverContext,
    roots: &Vec<NetId>,
    plans: &mut Vec<Option<LutPlan>>,
    arrivals: &mut Vec<Option<u32>>,
    required: &mut Vec<u32>,
)
    requires
        context.is_sound(),
        plans_are_sound(
            context.netlist.nodes@,
            plan_models(old(plans)@),
            context.netlist.nodes@.len() as int,
        ),
        all_readable(context.netlist.nodes@, roots@),
        old(arrivals)@.len() == context.netlist.nodes@.len(),
        old(required)@.len() == context.netlist.nodes@.len(),
    ensures
        ({
            let plans_before = plan_models(old(plans)@);
            let out = recovered(
                context.inputs(),
                CoverModel { plans: plans_before, arrivals: old(arrivals)@ },
                old(required)@,
                rooted(plans_before, roots@, roots@.len()),
                MAX_AREA_RECOVERY_PASSES as nat,
            );
            out.cover == (CoverModel {
                plans: plan_models(final(plans)@),
                arrivals: final(arrivals)@,
            }) && out.required == final(required)@
        }),
        plans_are_sound(
            context.netlist.nodes@,
            plan_models(final(plans)@),
            context.netlist.nodes@.len() as int,
        ),
        final(arrivals)@.len() == context.netlist.nodes@.len(),
        final(required)@.len() == context.netlist.nodes@.len(),
{
    let ghost inputs = context.inputs();
    let ghost n = context.netlist.nodes@.len();
    let mut references = count_roots(context, plans, roots);
    let ghost goal = recovered(
        inputs,
        CoverModel { plans: plan_models(plans@), arrivals: arrivals@ },
        required@,
        references@,
        MAX_AREA_RECOVERY_PASSES as nat,
    );
    let mut passes: usize = MAX_AREA_RECOVERY_PASSES;
    let mut settled = false;
    while passes > 0 && !settled
        invariant
            context.is_sound(),
            inputs == context.inputs(),
            n == context.netlist.nodes@.len(),
            plans_are_sound(context.netlist.nodes@, plan_models(plans@), n as int),
            plans@.len() == n,
            arrivals@.len() == n,
            required@.len() == n,
            references@.len() == n,
            !settled ==> goal == recovered(
                inputs,
                CoverModel { plans: plan_models(plans@), arrivals: arrivals@ },
                required@,
                references@,
                passes as nat,
            ),
            settled ==> goal == (TimedCover {
                cover: CoverModel { plans: plan_models(plans@), arrivals: arrivals@ },
                required: required@,
            }),
        decreases passes,
    {
        let ghost first = RecoveryModel {
            plans: plan_models(plans@),
            required: required@,
            references: references@,
            changed: false,
        };
        let ghost cover = CoverModel { plans: plan_models(plans@), arrivals: arrivals@ };
        let mut changed = false;
        let mut index: usize = plans.len();
        while index > 0
            invariant
                context.is_sound(),
                inputs == context.inputs(),
                n == context.netlist.nodes@.len(),
                plans_are_sound(context.netlist.nodes@, plan_models(plans@), n as int),
                plans@.len() == n,
                arrivals@.len() == n,
                required@.len() == n,
                references@.len() == n,
                index <= n,
                cover.arrivals == arrivals@,
                recovered_nodes(inputs, arrivals@, first, n) == recovered_nodes(
                    inputs,
                    arrivals@,
                    RecoveryModel {
                        plans: plan_models(plans@),
                        required: required@,
                        references: references@,
                        changed,
                    },
                    index as nat,
                ),
            decreases index,
        {
            index -= 1;
            changed =
            recover_node(context, plans, arrivals, required, &mut references, changed, index);
        }
        refresh_arrivals(context, plans, arrivals);
        passes -= 1;
        settled = !changed;
    }
}

/// The arrival from which a node counts as critical.
pub open spec fn critical_arrival(period_ps: u32) -> u32 {
    picoseconds(period_ps as nat * CRITICALITY_NUMERATOR as nat) / CRITICALITY_DENOMINATOR
}

/// The cover before area recovery: area first off the critical paths, or speed
/// everywhere where that misses a deadline.
pub open spec fn timed_cover(
    inputs: CoverInputs,
    period_ps: u32,
    input_delays: Seq<(Seq<char>, u32)>,
    output_delays: Seq<(Seq<char>, u32)>,
) -> CoverModel {
    let start = input_arrivals(inputs.netlist, input_delays);
    let count = inputs.netlist.nodes@.len();
    let first = initial_cover(inputs, start, critical_arrival(period_ps), count);
    if meets_deadlines(
        first.arrivals,
        required_of(inputs, first, period_ps, output_delays, false),
    ) {
        first
    } else {
        initial_cover(inputs, start, 0, count)
    }
}

/// The deadlines under which area is recovered: those of the period, or where
/// they are missed those that the cover keeps.
pub open spec fn recovery_deadlines(
    inputs: CoverInputs,
    cover: CoverModel,
    period_ps: u32,
    output_delays: Seq<(Seq<char>, u32)>,
) -> Seq<u32> {
    let strict = required_of(inputs, cover, period_ps, output_delays, false);
    if meets_deadlines(cover.arrivals, strict) {
        strict
    } else {
        required_of(inputs, cover, period_ps, output_delays, true)
    }
}

/// The selected cover.
pub open spec fn cover_of(
    inputs: CoverInputs,
    roots: Seq<NetId>,
    period_ps: u32,
    input_delays: Seq<(Seq<char>, u32)>,
    output_delays: Seq<(Seq<char>, u32)>,
) -> CoverModel {
    let timed = timed_cover(inputs, period_ps, input_delays, output_delays);
    let out = recovered(
        inputs,
        timed,
        recovery_deadlines(inputs, timed, period_ps, output_delays),
        rooted(timed.plans, roots, roots.len()),
        MAX_AREA_RECOVERY_PASSES as nat,
    );
    if meets_deadlines(out.cover.arrivals, out.required) {
        out.cover
    } else {
        timed
    }
}

/// Area recovery never costs a deadline: the selected cover is the one before
/// recovery, or it meets every deadline that recovery ended with.
pub proof fn law_recovery_keeps_deadlines(
    inputs: CoverInputs,
    roots: Seq<NetId>,
    period_ps: u32,
    input_delays: Seq<(Seq<char>, u32)>,
    output_delays: Seq<(Seq<char>, u32)>,
)
    ensures
        ({
            let timed = timed_cover(inputs, period_ps, input_delays, output_delays);
            let cover = cover_of(inputs, roots, period_ps, input_delays, output_delays);
            cover == timed || meets_deadlines(
                cover.arrivals,
                recovered(
                    inputs,
                    timed,
                    recovery_deadlines(inputs, timed, period_ps, output_delays),
                    rooted(timed.plans, roots, roots.len()),
                    MAX_AREA_RECOVERY_PASSES as nat,
                ).required,
            )
        }),
{
}

/// One plan for every gate, with arrivals and fanouts.
pub struct LutCover {
    /// The plan of each gate.
    pub plans: Vec<Option<LutPlan>>,
    /// The arrival of each net.
    pub arrivals: Vec<Option<u32>>,
    /// The number of readers of each net.
    pub fanouts: Vec<usize>,
}

/// What a cover of `netlist` over the cuts of a database is selected from.
pub open spec fn cover_inputs(
    netlist: Netlist,
    cuts: CutDatabase,
    options: MappingOptions,
) -> CoverInputs {
    CoverInputs {
        netlist,
        cuts: cuts.model(),
        fanouts: fanouts_of(netlist),
        retained: retained_outputs(netlist),
        mapping: options.arithmetic,
    }
}

fn copy_plans(plans: &Vec<Option<LutPlan>>) -> (copy: Vec<Option<LutPlan>>)
    ensures
        plan_models(copy@) == plan_models(plans@),
{
    let mut copy: Vec<Option<LutPlan>> = Vec::new();
    for i in 0..plans.len()
        invariant
            copy@.len() == i,
            forall|j: int| 0 <= j < i ==> plan_model(#[trigger] copy@[j]) == plan_model(plans@[j]),
    {
        match &plans[i] {
            Some(plan) => copy.push(Some(plan.duplicate())),
            None => copy.push(None),
        }
    }
    assert(plan_models(copy@) =~= plan_models(plans@));
    copy
}

impl LutCover {
    /// Selects a cover for a valid netlist.
    pub fn select(
        netlist: &Netlist,
        cuts: &CutDatabase,
        roots: &Vec<NetId>,
        options: MappingOptions,
        period_ps: u32,
        io_timing: &IoTimingConstraints,
    ) -> (cover: Self)
        requires
            netlist.is_valid(),
            cuts.is_sound(netlist.nodes@, WIDE_LUT_INPUTS as nat),
            all_readable(netlist.nodes@, roots@),
        ensures
            (CoverModel { plans: plan_models(cover.plans@), arrivals: cover.arrivals@ })
                == cover_of(
                cover_inputs(*netlist, *cuts, options),
                roots@,
                period_ps,
                io_timing.input_delays_ps@,
                io_timing.output_delays_ps@,
            ),
            cover.fanouts@ == fanouts_of(*netlist),
            plans_are_sound(
                netlist.nodes@,
                plan_models(cover.plans@),
                netlist.nodes@.len() as int,
            ),
            cover.arrivals@.len() == netlist.nodes@.len(),
    {
        let fanouts = structural_fanouts(netlist);
        let retained = RetainedTiming::new(netlist);
        let context = CoverContext {
            netlist,
            cuts,
            fanouts: &fanouts,
            retained: &retained,
            mapping: options.arithmetic,
        };
        let ghost inputs = context.inputs();
        assert(inputs == cover_inputs(*netlist, *cuts, options));
        assert(context.is_sound());
        let ghost input_delays = io_timing.input_delays_ps@;
        let ghost output_delays = io_timing.output_delays_ps@;
        let critical = to_picoseconds(period_ps as u128 * CRITICALITY_NUMERATOR as u128)
            / CRITICALITY_DENOMINATOR;
        assert(critical == critical_arrival(period_ps));
        let (mut plans, mut arrivals) = select_initial_plans(&context, critical, io_timing);
        let mut required = required_times(
            &context,
            &plans,
            &arrivals,
            period_ps,
            io_timing,
            false,
        );
        if !timing_is_valid(&arrivals, &required) {
            let (fast_plans, fast_arrivals) = select_initial_plans(&context, 0, io_timing);
            plans = fast_plans;
            arrivals = fast_arrivals;
            required =
            required_times(&context, &plans, &arrivals, period_ps, io_timing, false);
        }
        let ghost timed = timed_cover(inputs, period_ps, input_delays, output_delays);
        assert(timed == (CoverModel { plans: plan_models(plans@), arrivals: arrivals@ }));
        if !timing_is_valid(&arrivals, &required) {
            required = required_times(&context, &plans, &arrivals, period_ps, io_timing, true);
        }
        assert(required@ == recovery_deadlines(inputs, timed, period_ps, output_delays));
        let original_plans = copy_plans(&plans);
        let original_arrivals = crate::cells::copied(&arrivals);
        recover_area(&context, roots, &mut plans, &mut arrivals, &mut required);
        if !timing_is_valid(&arrivals, &required) {
            plans = original_plans;
            arrivals = original_arrivals;
        }
        LutCover { plans, arrivals, fanouts }
    }
}

/// The nets whose arrival a register's period depends on.
pub open spec fn register_endpoints(registers: Seq<RegisterCell>) -> Seq<NetId>
    decreases registers.len(),
{
    if registers.len() == 0 {
        seq![]
    } else {
        register_endpoints(registers.drop_last()).push(registers.last().data) + enable_net(
            registers.last().enable,
        )
    }
}

/// The longest register period over `nets`.
pub open spec fn longest_period(
    arrivals: Seq<Option<u32>>,
    fanouts: Seq<usize>,
    nets: Seq<NetId>,
) -> Option<u32>
    decreases nets.len(),
{
    if nets.len() == 0 {
        None
    } else {
        later(
            longest_period(arrivals, fanouts, nets.drop_last()),
            through(arrivals, fanouts, nets.last(), FLIP_FLOP_SETUP_PS),
        )
    }
}

/// The period that the registers of `netlist` need under a cover; zero without a timed endpoint.
pub open spec fn register_period(
    netlist: Netlist,
    arrivals: Seq<Option<u32>>,
    fanouts: Seq<usize>,
) -> u32 {
    match longest_period(arrivals, fanouts, register_endpoints(netlist.registers@)) {
        Some(period) => period,
        None => 0,
    }
}

impl LutCover {
    fn period_through(&self, net: NetId) -> (period: Option<u32>)
        requires
            net < self.arrivals@.len(),
            self.fanouts@.len() == self.arrivals@.len(),
        ensures
            period == through(self.arrivals@, self.fanouts@, net, FLIP_FLOP_SETUP_PS),
    {
        delay_by(
            delay_by(self.arrivals[net as usize], wire_delay_ps(self.fanouts[net as usize])),
            FLIP_FLOP_SETUP_PS,
        )
    }

    /// The period that the registers need under the cover.
    pub fn estimated_register_period_ps(&self, netlist: &Netlist) -> (period: u32)
        requires
            netlist.is_valid(),
            self.arrivals@.len() == netlist.nodes@.len(),
            self.fanouts@.len() == netlist.nodes@.len(),
        ensures
            period == register_period(*netlist, self.arrivals@, self.fanouts@),
    {
        let mut longest: Option<u32> = None;
        let ghost registers = netlist.registers@;
        for i in 0..netlist.registers.len()
            invariant
                netlist.is_valid(),
                registers == netlist.registers@,
                self.arrivals@.len() == netlist.nodes@.len(),
                self.fanouts@.len() == netlist.nodes@.len(),
                longest == longest_period(
                    self.arrivals@,
                    self.fanouts@,
                    register_endpoints(registers.take(i as int)),
                ),
        {
            assert(registers.take(i + 1).drop_last() =~= registers.take(i as int));
            let register = &netlist.registers[i];
            let ghost rest = register_endpoints(registers.take(i as int));
            let ghost reads = register_reads(*register);
            proof {
                assert(register_is_valid(netlist.nodes@, registers[i as int]));
                assert(reads[0] == register.data);
                assert(readable(netlist.nodes@, reads[0]));
            }
            longest = take_later(longest, self.period_through(register.data));
            assert(rest.push(register.data).drop_last() =~= rest);
            assert(register_endpoints(registers.take(i + 1)) == rest.push(register.data)
                + enable_net(register.enable));
            assert(longest == longest_period(
                self.arrivals@,
                self.fanouts@,
                rest.push(register.data),
            ));
            if let Some(enable) = register.enable {
                proof {
                    assert(reads[2] == enable.signal);
                    assert(readable(netlist.nodes@, reads[2]));
                    let all = rest.push(register.data) + enable_net(register.enable);
                    assert(all.drop_last() =~= rest.push(register.data));
                    assert(all.last() == enable.signal);
                }
                longest = take_later(longest, self.period_through(enable.signal));
            } else {
                assert(rest.push(register.data) + enable_net(register.enable) =~= rest.push(
                    register.data,
                ));
            }
        }
        assert(registers.take(registers.len() as int) =~= registers);
        match longest {
            Some(period) => period,
            None => 0,
        }
    }
}

} // verus!
