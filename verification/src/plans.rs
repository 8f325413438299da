//! Costs of implementing a node over one of its cuts, and the choice among them.

use vstd::prelude::*;

use crate::cells::clamped;
use crate::cuts::cut_leaves;
use crate::cuts::cuts_are_sound;
use crate::cuts::determined;
use crate::cuts::lemma_determined_through;
use crate::cuts::settles;
use crate::cuts::cut_is_sound;
use crate::cuts::Cut;
use crate::cuts::LUT_INPUTS;
use crate::cuts::WIDE_LUT_INPUTS;
use crate::ir::is_gate;
use crate::ir::readable;
use crate::ir::readable_below;
use crate::ir::NetId;
use crate::ir::Node;
use crate::timing::delay_by;
use crate::timing::delayed;
use crate::timing::later;
use crate::timing::route_delay;
use crate::timing::sat;
use crate::timing::take_later;
use crate::timing::wire_delay_ps;
use crate::timing::L6_MUX_DELAY_PS;
use crate::timing::LUT_DELAY_PS;
use crate::timing::PFU_MUX_DELAY_PS;

verus! {

/// An implementation of one node over the leaves of a cut.
#[derive(Clone, Debug, Eq, PartialEq)]
pub struct LutPlan {
    /// Leaves in pin order.
    pub leaves: Vec<NetId>,
    /// Levels of logic from sources to the node.
    pub depth: usize,
    /// Estimated arrival at the node's output.
    pub arrival_ps: Option<u32>,
    /// Lookup tables of the plan and of everything below it.
    pub area: usize,
    /// Lookup tables of the plan itself.
    pub root_area: usize,
}

/// What a [`LutPlan`] holds.
#[verifier::ext_equal]
pub struct PlanModel {
    pub leaves: Seq<NetId>,
    pub depth: usize,
    pub arrival_ps: Option<u32>,
    pub area: usize,
    pub root_area: usize,
}

impl View for LutPlan {
    type V = PlanModel;

    open spec fn view(&self) -> PlanModel {
        PlanModel {
            leaves: self.leaves@,
            depth: self.depth,
            arrival_ps: self.arrival_ps,
            area: self.area,
            root_area: self.root_area,
        }
    }
}

impl LutPlan {
    /// A copy of the plan.
    pub fn duplicate(&self) -> (copy: LutPlan)
        ensures
            copy@ == self@,
    {
        LutPlan {
            leaves: crate::cells::copied(&self.leaves),
            depth: self.depth,
            arrival_ps: self.arrival_ps,
            area: self.area,
            root_area: self.root_area,
        }
    }
}

/// An optional plan.
pub open spec fn plan_model(plan: Option<LutPlan>) -> Option<PlanModel> {
    match plan {
        Some(plan) => Some(plan@),
        None => None,
    }
}

/// The plan of each node.
pub open spec fn plan_models(plans: Seq<Option<LutPlan>>) -> Seq<Option<PlanModel>> {
    Seq::new(plans.len(), |i: int| plan_model(plans[i]))
}

/// Addition that stops at the largest `usize`.
pub open spec fn sat_size(a: int, b: int) -> usize {
    if a + b > usize::MAX {
        usize::MAX
    } else {
        (a + b) as usize
    }
}

/// The lookup tables of a function of this many inputs.
pub open spec fn lut_area(inputs: nat) -> usize {
    if inputs <= 4 {
        1
    } else if inputs == 5 {
        2
    } else if inputs == 6 {
        4
    } else {
        8
    }
}

/// The lookup tables of a function of this many inputs.
pub fn wide_lut_area(inputs: usize) -> (area: usize)
    requires
        inputs <= WIDE_LUT_INPUTS,
    ensures
        area == lut_area(inputs as nat),
{
    if inputs <= 4 {
        1
    } else if inputs == 5 {
        2
    } else if inputs == 6 {
        4
    } else {
        8
    }
}

/// The delay from pin `position` of a function of `inputs` inputs to its output.
///
/// A wide function passes its first four pins through a lookup table and the
/// first dedicated mux, its fifth through that mux alone, and each later pin
/// enters one further mux up the tree.
pub open spec fn pin_delay(inputs: nat, position: nat) -> u32 {
    if inputs <= LUT_INPUTS {
        LUT_DELAY_PS
    } else {
        let muxes = (inputs - if position < 5 {
            5
        } else {
            position as int
        }) * L6_MUX_DELAY_PS;
        if position < 4 {
            (LUT_DELAY_PS + PFU_MUX_DELAY_PS + muxes) as u32
        } else if position == 4 {
            (PFU_MUX_DELAY_PS + muxes) as u32
        } else {
            muxes as u32
        }
    }
}

/// The delay from pin `position` of a function of `inputs` inputs to its output.
pub fn wide_lut_input_delay_ps(inputs: usize, position: usize) -> (delay: u32)
    requires
        inputs <= WIDE_LUT_INPUTS,
        position < inputs,
    ensures
        delay == pin_delay(inputs as nat, position as nat),
        delay <= 400,
{
    if inputs <= LUT_INPUTS {
        return LUT_DELAY_PS;
    }
    let level: usize = if position < 5 {
        5
    } else {
        position
    };
    let muxes: u32 = (inputs - level) as u32 * L6_MUX_DELAY_PS;
    if position < 4 {
        LUT_DELAY_PS + PFU_MUX_DELAY_PS + muxes
    } else if position == 4 {
        PFU_MUX_DELAY_PS + muxes
    } else {
        muxes
    }
}

/// When a net reaches a pin; a net without an arrival counts as there from the start.
pub open spec fn pin_time(arrivals: Seq<Option<u32>>, fanouts: Seq<usize>, net: NetId) -> u32 {
    let arrival = match arrivals[net as int] {
        Some(arrival) => arrival,
        None => 0,
    };
    sat(arrival as int, route_delay(fanouts[net as int] as nat) as int)
}

/// Whether `a` goes on an earlier pin than `b`: it arrives first, or together and is the lower net.
pub open spec fn pin_before(
    arrivals: Seq<Option<u32>>,
    fanouts: Seq<usize>,
    a: NetId,
    b: NetId,
) -> bool {
    let x = pin_time(arrivals, fanouts, a);
    let y = pin_time(arrivals, fanouts, b);
    x < y || (x == y && a < b)
}

/// `leaves` with `net` at its place among the pins.
pub open spec fn with_pin(
    arrivals: Seq<Option<u32>>,
    fanouts: Seq<usize>,
    leaves: Seq<NetId>,
    net: NetId,
) -> Seq<NetId>
    decreases leaves.len(),
{
    if leaves.len() == 0 {
        seq![net]
    } else if pin_before(arrivals, fanouts, net, leaves.last()) {
        with_pin(arrivals, fanouts, leaves.drop_last(), net).push(leaves.last())
    } else {
        leaves.push(net)
    }
}

/// The leaves in pin order, latest last.
pub open spec fn pin_order(
    arrivals: Seq<Option<u32>>,
    fanouts: Seq<usize>,
    leaves: Seq<NetId>,
) -> Seq<NetId>
    decreases leaves.len(),
{
    if leaves.len() == 0 {
        seq![]
    } else {
        with_pin(
            arrivals,
            fanouts,
            pin_order(arrivals, fanouts, leaves.drop_last()),
            leaves.last(),
        )
    }
}

/// The pins of a plan over `leaves`: a single lookup table keeps the given order.
pub open spec fn plan_pins(
    arrivals: Seq<Option<u32>>,
    fanouts: Seq<usize>,
    leaves: Seq<NetId>,
) -> Seq<NetId> {
    if leaves.len() > LUT_INPUTS {
        pin_order(arrivals, fanouts, leaves)
    } else {
        leaves
    }
}

/// The area below a plan: the areas of the plans of its leaves.
pub open spec fn leaves_area(plans: Seq<Option<PlanModel>>, leaves: Seq<NetId>) -> nat
    decreases leaves.len(),
{
    if leaves.len() == 0 {
        0
    } else {
        leaves_area(plans, leaves.drop_last()) + match plans[leaves.last() as int] {
            Some(plan) => plan.area as nat,
            None => 0,
        }
    }
}

/// The largest depth among the plans of the leaves.
pub open spec fn leaves_depth(plans: Seq<Option<PlanModel>>, leaves: Seq<NetId>) -> usize
    decreases leaves.len(),
{
    if leaves.len() == 0 {
        0
    } else {
        let rest = leaves_depth(plans, leaves.drop_last());
        match plans[leaves.last() as int] {
            Some(plan) => if rest < plan.depth {
                plan.depth
            } else {
                rest
            },
            None => rest,
        }
    }
}

/// When `net`, through route and pin, reaches the output of what reads it.
pub open spec fn through(
    arrivals: Seq<Option<u32>>,
    fanouts: Seq<usize>,
    net: NetId,
    delay: u32,
) -> Option<u32> {
    delayed(
        delayed(arrivals[net as int], route_delay(fanouts[net as int] as nat) as u32),
        delay,
    )
}

/// The latest of the first `count` pins at the output.
pub open spec fn pins_arrival(
    arrivals: Seq<Option<u32>>,
    fanouts: Seq<usize>,
    pins: Seq<NetId>,
    count: nat,
) -> Option<u32>
    decreases count,
{
    if count == 0 {
        None
    } else {
        let last = (count - 1) as nat;
        later(
            pins_arrival(arrivals, fanouts, pins, last),
            through(arrivals, fanouts, pins[last as int], pin_delay(pins.len(), last)),
        )
    }
}

/// The plan of a node over the leaves of a cut.
pub open spec fn plan_over(
    plans: Seq<Option<PlanModel>>,
    arrivals: Seq<Option<u32>>,
    fanouts: Seq<usize>,
    leaves: Seq<NetId>,
) -> PlanModel {
    let pins = plan_pins(arrivals, fanouts, leaves);
    PlanModel {
        leaves: pins,
        depth: sat_size(1, leaves_depth(plans, pins) as int),
        arrival_ps: pins_arrival(arrivals, fanouts, pins, pins.len()),
        area: clamped(lut_area(pins.len()) as nat + leaves_area(plans, pins)),
        root_area: lut_area(pins.len()),
    }
}

/// Adding a pin keeps the nets and their number.
proof fn lemma_with_pin(
    arrivals: Seq<Option<u32>>,
    fanouts: Seq<usize>,
    leaves: Seq<NetId>,
    net: NetId,
)
    ensures
        with_pin(arrivals, fanouts, leaves, net).len() == leaves.len() + 1,
        forall|i: int|
            0 <= i <= leaves.len() ==> (#[trigger] with_pin(arrivals, fanouts, leaves, net)[i]
                == net || leaves.contains(with_pin(arrivals, fanouts, leaves, net)[i])),
    decreases leaves.len(),
{
    let out = with_pin(arrivals, fanouts, leaves, net);
    if leaves.len() == 0 {
    } else if pin_before(arrivals, fanouts, net, leaves.last()) {
        let rest = leaves.drop_last();
        lemma_with_pin(arrivals, fanouts, rest, net);
        let inner = with_pin(arrivals, fanouts, rest, net);
        assert forall|i: int| 0 <= i <= leaves.len() implies (#[trigger] out[i] == net
            || leaves.contains(out[i])) by {
            if i < leaves.len() {
                assert(out[i] == inner[i]);
                if inner[i] != net {
                    let k = choose|k: int| 0 <= k < rest.len() && rest[k] == inner[i];
                    assert(leaves[k] == out[i]);
                }
            } else {
                assert(leaves[leaves.len() - 1] == out[i]);
            }
        }
    } else {
        assert forall|i: int| 0 <= i <= leaves.len() implies (#[trigger] out[i] == net
            || leaves.contains(out[i])) by {
            if i < leaves.len() {
                assert(leaves[i] == out[i]);
            }
        }
    }
}

/// Pin order keeps the nets and their number.
pub proof fn lemma_pin_order(
    arrivals: Seq<Option<u32>>,
    fanouts: Seq<usize>,
    leaves: Seq<NetId>,
)
    ensures
        pin_order(arrivals, fanouts, leaves).len() == leaves.len(),
        forall|i: int|
            0 <= i < leaves.len() ==> leaves.contains(
                #[trigger] pin_order(arrivals, fanouts, leaves)[i],
            ),
    decreases leaves.len(),
{
    if leaves.len() > 0 {
        let rest = leaves.drop_last();
        let inner = pin_order(arrivals, fanouts, rest);
        let out = pin_order(arrivals, fanouts, leaves);
        lemma_pin_order(arrivals, fanouts, rest);
        lemma_with_pin(arrivals, fanouts, inner, leaves.last());
        assert forall|i: int| 0 <= i < leaves.len() implies leaves.contains(
            #[trigger] out[i],
        ) by {
            if out[i] == leaves.last() {
                assert(leaves[leaves.len() - 1] == out[i]);
            } else {
                assert(inner.contains(out[i]));
                let k = choose|k: int| 0 <= k < inner.len() && inner[k] == out[i];
                assert(rest.contains(inner[k]));
                let m = choose|m: int| 0 <= m < rest.len() && rest[m] == inner[k];
                assert(leaves[m] == out[i]);
            }
        }
    }
}

proof fn lemma_with_pin_holds(
    arrivals: Seq<Option<u32>>,
    fanouts: Seq<usize>,
    leaves: Seq<NetId>,
    net: NetId,
    other: NetId,
)
    requires
        other == net || leaves.contains(other),
    ensures
        with_pin(arrivals, fanouts, leaves, net).contains(other),
    decreases leaves.len(),
{
    let out = with_pin(arrivals, fanouts, leaves, net);
    if leaves.len() == 0 {
        assert(out[0] == other);
    } else if pin_before(arrivals, fanouts, net, leaves.last()) {
        let rest = leaves.drop_last();
        let inner = with_pin(arrivals, fanouts, rest, net);
        if other != net && other == leaves.last() {
            assert(out[inner.len() as int] == other);
        } else {
            if other != net {
                let i = choose|i: int| 0 <= i < leaves.len() && leaves[i] == other;
                assert(rest[i] == other);
            }
            lemma_with_pin_holds(arrivals, fanouts, rest, net, other);
            let k = choose|k: int| 0 <= k < inner.len() && inner[k] == other;
            assert(out[k] == other);
        }
    } else if other == net {
        assert(out[leaves.len() as int] == other);
    } else {
        let i = choose|i: int| 0 <= i < leaves.len() && leaves[i] == other;
        assert(out[i] == other);
    }
}

proof fn lemma_pin_order_holds(
    arrivals: Seq<Option<u32>>,
    fanouts: Seq<usize>,
    leaves: Seq<NetId>,
    other: NetId,
)
    requires
        leaves.contains(other),
    ensures
        pin_order(arrivals, fanouts, leaves).contains(other),
    decreases leaves.len(),
{
    let rest = leaves.drop_last();
    if other != leaves.last() {
        let i = choose|i: int| 0 <= i < leaves.len() && leaves[i] == other;
        assert(rest[i] == other);
        lemma_pin_order_holds(arrivals, fanouts, rest, other);
    }
    lemma_with_pin_holds(
        arrivals,
        fanouts,
        pin_order(arrivals, fanouts, rest),
        leaves.last(),
        other,
    );
}

/// The pins of a plan over sound leaves are sound.
pub proof fn lemma_plan_pins(
    nodes: Seq<Node>,
    arrivals: Seq<Option<u32>>,
    fanouts: Seq<usize>,
    leaves: Seq<NetId>,
    root: int,
)
    requires
        readable_below(nodes, leaves, root),
    ensures
        readable_below(nodes, plan_pins(arrivals, fanouts, leaves), root),
        plan_pins(arrivals, fanouts, leaves).len() == leaves.len(),
        settles(nodes, root, leaves) ==> settles(
            nodes,
            root,
            plan_pins(arrivals, fanouts, leaves),
        ),
{
    lemma_pin_order(arrivals, fanouts, leaves);
    let pins = plan_pins(arrivals, fanouts, leaves);
    if is_gate(nodes[root].kind) && settles(nodes, root, leaves) && leaves.len() > LUT_INPUTS {
        assert forall|leaf: NetId| #[trigger] leaves.contains(leaf) implies determined(
            nodes,
            leaf,
            pins,
        ) by {
            lemma_pin_order_holds(arrivals, fanouts, leaves, leaf);
        }
        lemma_determined_through(nodes, root as NetId, leaves, pins);
    }
    assert forall|i: int| 0 <= i < pins.len() implies readable(nodes, #[trigger] pins[i]) && pins[i]
        < root by {
        if leaves.len() > LUT_INPUTS {
            assert(leaves.contains(pin_order(arrivals, fanouts, leaves)[i]));
        } else {
            assert(leaves.contains(leaves[i]));
        }
        let k = choose|k: int| 0 <= k < leaves.len() && leaves[k] == pins[i];
        assert(readable(nodes, leaves[k]));
    }
}

fn time_at_pin(arrivals: &Vec<Option<u32>>, fanouts: &Vec<usize>, net: NetId) -> (time: u32)
    requires
        net < arrivals@.len(),
        net < fanouts@.len(),
    ensures
        time == pin_time(arrivals@, fanouts@, net),
{
    let arrival: u32 = match arrivals[net as usize] {
        Some(arrival) => arrival,
        None => 0,
    };
    arrival.saturating_add(wire_delay_ps(fanouts[net as usize]))
}

/// Whether every net of `nets` is below `limit`.
pub open spec fn nets_below(nets: Seq<NetId>, limit: int) -> bool {
    forall|i: int| 0 <= i < nets.len() ==> #[trigger] nets[i] < limit
}

proof fn lemma_with_pin_at(
    arrivals: Seq<Option<u32>>,
    fanouts: Seq<usize>,
    leaves: Seq<NetId>,
    net: NetId,
    at: int,
)
    requires
        0 <= at <= leaves.len(),
        forall|i: int| at <= i < leaves.len() ==> pin_before(arrivals, fanouts, net, #[trigger] leaves[i]),
        at > 0 ==> !pin_before(arrivals, fanouts, net, leaves[at - 1]),
    ensures
        with_pin(arrivals, fanouts, leaves, net) == leaves.insert(at, net),
    decreases leaves.len() - at,
{
    if at == leaves.len() {
        if leaves.len() == 0 {
            assert(leaves.insert(0, net) =~= seq![net]);
        } else {
            assert(leaves.insert(at, net) =~= leaves.push(net));
        }
    } else {
        let rest = leaves.drop_last();
        assert(pin_before(arrivals, fanouts, net, leaves[leaves.len() - 1]));
        assert forall|i: int| at <= i < rest.len() implies pin_before(
            arrivals,
            fanouts,
            net,
            #[trigger] rest[i],
        ) by {
            assert(leaves[i] == rest[i]);
        }
        lemma_with_pin_at(arrivals, fanouts, rest, net, at);
        assert(leaves.insert(at, net) =~= rest.insert(at, net).push(leaves.last()));
    }
}

fn order_pins(arrivals: &Vec<Option<u32>>, fanouts: &Vec<usize>, leaves: &Vec<NetId>) -> (pins: Vec<
    NetId,
>)
    requires
        nets_below(leaves@, arrivals@.len() as int),
        fanouts@.len() == arrivals@.len(),
    ensures
        pins@ == pin_order(arrivals@, fanouts@, leaves@),
{
    let mut pins: Vec<NetId> = Vec::new();
    for i in 0..leaves.len()
        invariant
            nets_below(leaves@, arrivals@.len() as int),
            fanouts@.len() == arrivals@.len(),
            pins@ == pin_order(arrivals@, fanouts@, leaves@.take(i as int)),
            nets_below(pins@, arrivals@.len() as int),
    {
        assert(leaves@.take(i + 1).drop_last() =~= leaves@.take(i as int));
        let net = leaves[i];
        assert(leaves@[i as int] < arrivals@.len());
        let time = time_at_pin(arrivals, fanouts, net);
        let mut at: usize = pins.len();
        while at > 0
            invariant
                at <= pins@.len(),
                net < arrivals@.len(),
                fanouts@.len() == arrivals@.len(),
                nets_below(pins@, arrivals@.len() as int),
                time == pin_time(arrivals@, fanouts@, net),
                forall|k: int|
                    at <= k < pins@.len() ==> pin_before(
                        arrivals@,
                        fanouts@,
                        net,
                        #[trigger] pins@[k],
                    ),
            ensures
                at > 0 ==> !pin_before(arrivals@, fanouts@, net, pins@[at - 1]),
            decreases at,
        {
            let other = pins[at - 1];
            assert(pins@[at - 1] < arrivals@.len());
            let other_time = time_at_pin(arrivals, fanouts, other);
            if time < other_time || (time == other_time && net < other) {
                at -= 1;
            } else {
                break;
            }
        }
        proof {
            lemma_with_pin_at(arrivals@, fanouts@, pins@, net, at as int);
        }
        let ghost before = pins@;
        pins.insert(at, net);
        assert forall|k: int| 0 <= k < pins@.len() implies #[trigger] pins@[k] < arrivals@.len() by {
            if k < at {
                assert(pins@[k] == before[k]);
            } else if k > at {
                assert(pins@[k] == before[k - 1]);
            }
        }
    }
    assert(leaves@.take(leaves@.len() as int) =~= leaves@);
    pins
}

/// The plan of a node over a cut.
pub fn plan_for_cut(
    plans: &Vec<Option<LutPlan>>,
    arrivals: &Vec<Option<u32>>,
    fanouts: &Vec<usize>,
    cut: &Cut,
) -> (plan: LutPlan)
    requires
        plans@.len() == arrivals@.len(),
        fanouts@.len() == arrivals@.len(),
        nets_below(cut.leaves@, arrivals@.len() as int),
        cut.leaves@.len() <= WIDE_LUT_INPUTS,
    ensures
        plan@ == plan_over(plan_models(plans@), arrivals@, fanouts@, cut.leaves@),
{
    let leaves = if cut.leaves.len() > LUT_INPUTS {
        order_pins(arrivals, fanouts, &cut.leaves)
    } else {
        crate::cells::copied(&cut.leaves)
    };
    let ghost models = plan_models(plans@);
    proof {
        lemma_pin_order(arrivals@, fanouts@, cut.leaves@);
        assert forall|i: int| 0 <= i < leaves@.len() implies #[trigger] leaves@[i]
            < arrivals@.len() by {
            if cut.leaves@.len() > LUT_INPUTS {
                assert(cut.leaves@.contains(pin_order(arrivals@, fanouts@, cut.leaves@)[i]));
                let k = choose|k: int| 0 <= k < cut.leaves@.len() && cut.leaves@[k] == leaves@[i];
                assert(cut.leaves@[k] < arrivals@.len());
            } else {
                assert(cut.leaves@[i] < arrivals@.len());
            }
        }
    }
    let root_area = wide_lut_area(leaves.len());
    let mut area: usize = root_area;
    let mut depth: usize = 0;
    let mut arrival_ps: Option<u32> = None;
    for i in 0..leaves.len()
        invariant
            models == plan_models(plans@),
            plans@.len() == arrivals@.len(),
            fanouts@.len() == arrivals@.len(),
            nets_below(leaves@, arrivals@.len() as int),
            leaves@.len() <= WIDE_LUT_INPUTS,
            area == clamped(root_area as nat + leaves_area(models, leaves@.take(i as int))),
            depth == leaves_depth(models, leaves@.take(i as int)),
            arrival_ps == pins_arrival(arrivals@, fanouts@, leaves@, i as nat),
    {
        assert(leaves@.take(i + 1).drop_last() =~= leaves@.take(i as int));
        assert(leaves@[i as int] < arrivals@.len());
        let index = leaves[i] as usize;
        assert(models[index as int] == plan_model(plans@[index as int]));
        if let Some(plan) = &plans[index] {
            area = area.saturating_add(plan.area);
            if depth < plan.depth {
                depth = plan.depth;
            }
        }
        let routed = delay_by(arrivals[index], wire_delay_ps(fanouts[index]));
        let timed = delay_by(routed, wide_lut_input_delay_ps(leaves.len(), i));
        arrival_ps = take_later(arrival_ps, timed);
    }
    assert(leaves@.take(leaves@.len() as int) =~= leaves@);
    LutPlan { depth: depth.saturating_add(1), arrival_ps, area, root_area, leaves }
}

/// Lexicographic order of nets.
pub open spec fn nets_before(first: Seq<NetId>, second: Seq<NetId>) -> bool
    decreases second.len(),
{
    if second.len() == 0 {
        false
    } else if first.len() == 0 {
        true
    } else if first[0] != second[0] {
        first[0] < second[0]
    } else {
        nets_before(first.drop_first(), second.drop_first())
    }
}

fn nets_come_before(first: &Vec<NetId>, second: &Vec<NetId>) -> (before: bool)
    ensures
        before == nets_before(first@, second@),
{
    assert(first@.skip(0) =~= first@);
    assert(second@.skip(0) =~= second@);
    let mut i: usize = 0;
    while i < second.len()
        invariant
            i <= first@.len(),
            i <= second@.len(),
            nets_before(first@, second@) == nets_before(first@.skip(i as int), second@.skip(i as int)),
        decreases second@.len() - i,
    {
        if i == first.len() {
            return true;
        }
        assert(first@.skip(i as int)[0] == first@[i as int]);
        assert(second@.skip(i as int)[0] == second@[i as int]);
        if first[i] != second[i] {
            return first[i] < second[i];
        }
        assert(first@.skip(i as int).drop_first() =~= first@.skip(i + 1));
        assert(second@.skip(i as int).drop_first() =~= second@.skip(i + 1));
        i += 1;
    }
    false
}

/// Order of optional times: none comes before any.
pub open spec fn time_before(a: Option<u32>, b: Option<u32>) -> bool {
    match (a, b) {
        (None, Some(_)) => true,
        (Some(x), Some(y)) => x < y,
        (_, None) => false,
    }
}

fn time_comes_before(a: Option<u32>, b: Option<u32>) -> (before: bool)
    ensures
        before == time_before(a, b),
{
    match (a, b) {
        (None, Some(_)) => true,
        (Some(x), Some(y)) => x < y,
        (_, None) => false,
    }
}

/// Order by number of leaves, then by the leaves.
pub open spec fn smaller_cut(a: PlanModel, b: PlanModel) -> bool {
    a.leaves.len() < b.leaves.len() || (a.leaves.len() == b.leaves.len() && nets_before(
        a.leaves,
        b.leaves,
    ))
}

/// Order by arrival, depth, area and cut.
pub open spec fn faster_plan(a: PlanModel, b: PlanModel) -> bool {
    if a.arrival_ps != b.arrival_ps {
        time_before(a.arrival_ps, b.arrival_ps)
    } else if a.depth != b.depth {
        a.depth < b.depth
    } else if a.area != b.area {
        a.area < b.area
    } else {
        smaller_cut(a, b)
    }
}

/// Order by area and cut.
pub open spec fn smaller_plan(a: PlanModel, b: PlanModel) -> bool {
    if a.area != b.area {
        a.area < b.area
    } else {
        smaller_cut(a, b)
    }
}

/// Order by recovered area, arrival and cut.
pub open spec fn cheaper_plan(area: usize, a: PlanModel, best_area: usize, b: PlanModel) -> bool {
    if area != best_area {
        area < best_area
    } else if a.arrival_ps != b.arrival_ps {
        time_before(a.arrival_ps, b.arrival_ps)
    } else {
        smaller_cut(a, b)
    }
}

fn cut_is_smaller(a: &LutPlan, b: &LutPlan) -> (smaller: bool)
    ensures
        smaller == smaller_cut(a@, b@),
{
    a.leaves.len() < b.leaves.len() || (a.leaves.len() == b.leaves.len() && nets_come_before(
        &a.leaves,
        &b.leaves,
    ))
}

fn plan_is_faster(a: &LutPlan, b: &LutPlan) -> (faster: bool)
    ensures
        faster == faster_plan(a@, b@),
{
    if a.arrival_ps != b.arrival_ps {
        time_comes_before(a.arrival_ps, b.arrival_ps)
    } else if a.depth != b.depth {
        a.depth < b.depth
    } else if a.area != b.area {
        a.area < b.area
    } else {
        cut_is_smaller(a, b)
    }
}

fn plan_is_smaller(a: &LutPlan, b: &LutPlan) -> (smaller: bool)
    ensures
        smaller == smaller_plan(a@, b@),
{
    if a.area != b.area {
        a.area < b.area
    } else {
        cut_is_smaller(a, b)
    }
}

/// Order by recovered area, arrival and cut.
pub fn plan_is_cheaper(area: usize, a: &LutPlan, best_area: usize, b: &LutPlan) -> (cheaper: bool)
    ensures
        cheaper == cheaper_plan(area, a@, best_area, b@),
{
    if area != best_area {
        area < best_area
    } else if a.arrival_ps != b.arrival_ps {
        time_comes_before(a.arrival_ps, b.arrival_ps)
    } else {
        cut_is_smaller(a, b)
    }
}

/// The smallest depth of the first `count` plans.
pub open spec fn least_depth(candidates: Seq<PlanModel>, count: nat) -> usize
    decreases count,
{
    if count <= 1 {
        candidates[0].depth
    } else {
        let rest = least_depth(candidates, (count - 1) as nat);
        if candidates[count - 1].depth < rest {
            candidates[count - 1].depth
        } else {
            rest
        }
    }
}

/// The smallest arrival among the first `count` plans of depth `depth`.
pub open spec fn least_arrival(candidates: Seq<PlanModel>, depth: usize, count: nat) -> Option<u32>
    decreases count,
{
    if count == 0 {
        None
    } else {
        let rest = least_arrival(candidates, depth, (count - 1) as nat);
        let last = candidates[count - 1];
        if last.depth == depth {
            crate::constraints::tighter(rest, last.arrival_ps)
        } else {
            rest
        }
    }
}

/// The first fastest of the first `count` plans.
pub open spec fn fastest(candidates: Seq<PlanModel>, count: nat) -> int
    decreases count,
{
    if count <= 1 {
        0
    } else {
        let best = fastest(candidates, (count - 1) as nat);
        if faster_plan(candidates[count - 1], candidates[best]) {
            count - 1
        } else {
            best
        }
    }
}

/// The first smallest of the first `count` plans of depth `depth`.
pub open spec fn smallest(candidates: Seq<PlanModel>, depth: usize, count: nat) -> Option<int>
    decreases count,
{
    if count == 0 {
        None
    } else {
        let best = smallest(candidates, depth, (count - 1) as nat);
        if candidates[count - 1].depth != depth {
            best
        } else {
            match best {
                Some(index) => if smaller_plan(candidates[count - 1], candidates[index]) {
                    Some(count - 1)
                } else {
                    best
                },
                None => Some(count - 1),
            }
        }
    }
}

/// The plans over each cut.
pub open spec fn candidate_plans(
    plans: Seq<Option<PlanModel>>,
    arrivals: Seq<Option<u32>>,
    fanouts: Seq<usize>,
    cuts: Seq<Seq<NetId>>,
) -> Seq<PlanModel> {
    Seq::new(cuts.len(), |i: int| plan_over(plans, arrivals, fanouts, cuts[i]))
}

/// The choice among candidates: the fastest where the shallowest are critical,
/// else the smallest of the shallowest.
pub open spec fn chosen_plan(candidates: Seq<PlanModel>, critical_arrival_ps: u32) -> PlanModel {
    let depth = least_depth(candidates, candidates.len());
    let arrival = match least_arrival(candidates, depth, candidates.len()) {
        Some(arrival) => arrival,
        None => 0,
    };
    if candidates[0].arrival_ps is Some && arrival >= critical_arrival_ps {
        candidates[fastest(candidates, candidates.len())]
    } else {
        match smallest(candidates, depth, candidates.len()) {
            Some(index) => candidates[index],
            None => candidates[0],
        }
    }
}

/// The plan selected for a node with these cuts.
pub open spec fn selected_plan(
    plans: Seq<Option<PlanModel>>,
    arrivals: Seq<Option<u32>>,
    fanouts: Seq<usize>,
    cuts: Seq<Seq<NetId>>,
    critical_arrival_ps: u32,
) -> PlanModel {
    chosen_plan(candidate_plans(plans, arrivals, fanouts, cuts), critical_arrival_ps)
}

/// The plans of each candidate.
pub open spec fn models_of(plans: Seq<LutPlan>) -> Seq<PlanModel> {
    Seq::new(plans.len(), |i: int| plans[i]@)
}

proof fn lemma_smallest(candidates: Seq<PlanModel>, depth: usize, count: nat)
    requires
        count <= candidates.len(),
    ensures
        smallest(candidates, depth, count) matches Some(index) ==> 0 <= index < count,
    decreases count,
{
    if count > 0 {
        lemma_smallest(candidates, depth, (count - 1) as nat);
    }
}

proof fn lemma_fastest(candidates: Seq<PlanModel>, count: nat)
    requires
        count <= candidates.len(),
    ensures
        count > 0 ==> 0 <= fastest(candidates, count) < count,
    decreases count,
{
    if count > 1 {
        lemma_fastest(candidates, (count - 1) as nat);
    }
}

/// The choice is one of the candidates.
pub proof fn lemma_chosen(candidates: Seq<PlanModel>, critical_arrival_ps: u32) -> (index: int)
    requires
        candidates.len() >= 1,
    ensures
        0 <= index < candidates.len(),
        chosen_plan(candidates, critical_arrival_ps) == candidates[index],
{
    let depth = least_depth(candidates, candidates.len());
    lemma_smallest(candidates, depth, candidates.len());
    lemma_fastest(candidates, candidates.len());
    let arrival = match least_arrival(candidates, depth, candidates.len()) {
        Some(arrival) => arrival,
        None => 0,
    };
    if candidates[0].arrival_ps is Some && arrival >= critical_arrival_ps {
        fastest(candidates, candidates.len())
    } else {
        match smallest(candidates, depth, candidates.len()) {
            Some(index) => index,
            None => 0,
        }
    }
}

fn choose_plan(candidates: &Vec<LutPlan>, critical_arrival_ps: u32) -> (index: usize)
    requires
        candidates@.len() >= 1,
    ensures
        index < candidates@.len(),
        candidates@[index as int]@ == chosen_plan(models_of(candidates@), critical_arrival_ps),
{
    let ghost models = models_of(candidates@);
    let ghost total = candidates@.len();
    let mut depth: usize = candidates[0].depth;
    assert(models[0] == candidates@[0]@);
    for i in 1..candidates.len()
        invariant
            candidates@.len() >= 1,
            models == models_of(candidates@),
            depth == least_depth(models, i as nat),
    {
        assert(models[i as int] == candidates@[i as int]@);
        if candidates[i].depth < depth {
            depth = candidates[i].depth;
        }
    }
    let mut least: Option<u32> = None;
    let mut first: Option<usize> = None;
    for i in 0..candidates.len()
        invariant
            models == models_of(candidates@),
            least == least_arrival(models, depth, i as nat),
            match first {
                Some(index) => index < i && smallest(models, depth, i as nat) == Some(index as int),
                None => smallest(models, depth, i as nat) is None,
            },
    {
        assert(models[i as int] == candidates@[i as int]@);
        if candidates[i].depth == depth {
            let next = candidates[i].arrival_ps;
            least = match (least, next) {
                (Some(x), Some(y)) => if y < x {
                    next
                } else {
                    least
                },
                (Some(_), None) => least,
                (None, _) => next,
            };
            first = match first {
                Some(index) => {
                    assert(models[index as int] == candidates@[index as int]@);
                    if plan_is_smaller(&candidates[i], &candidates[index]) {
                        Some(i)
                    } else {
                        first
                    }
                },
                None => Some(i),
            };
        }
    }
    let arrival: u32 = match least {
        Some(arrival) => arrival,
        None => 0,
    };
    if candidates[0].arrival_ps.is_some() && arrival >= critical_arrival_ps {
        let mut best: usize = 0;
        for i in 1..candidates.len()
            invariant
                candidates@.len() >= 1,
                models == models_of(candidates@),
                best < i,
                best == fastest(models, i as nat),
        {
            assert(models[i as int] == candidates@[i as int]@);
            assert(models[best as int] == candidates@[best as int]@);
            if plan_is_faster(&candidates[i], &candidates[best]) {
                best = i;
            }
        }
        best
    } else {
        match first {
            Some(index) => index,
            None => 0,
        }
    }
}

/// The plan selected for a node with these cuts.
pub fn best_plan(
    plans: &Vec<Option<LutPlan>>,
    arrivals: &Vec<Option<u32>>,
    fanouts: &Vec<usize>,
    cuts: &Vec<Cut>,
    critical_arrival_ps: u32,
) -> (plan: LutPlan)
    requires
        plans@.len() == arrivals@.len(),
        fanouts@.len() == arrivals@.len(),
        cuts@.len() >= 1,
        forall|i: int|
            0 <= i < cuts@.len() ==> nets_below(
                (#[trigger] cuts@[i]).leaves@,
                arrivals@.len() as int,
            ) && cuts@[i].leaves@.len() <= WIDE_LUT_INPUTS,
    ensures
        plan@ == selected_plan(
            plan_models(plans@),
            arrivals@,
            fanouts@,
            cut_leaves(cuts@),
            critical_arrival_ps,
        ),
{
    let ghost models = candidate_plans(plan_models(plans@), arrivals@, fanouts@, cut_leaves(cuts@));
    let mut candidates: Vec<LutPlan> = Vec::new();
    for i in 0..cuts.len()
        invariant
            models == candidate_plans(
                plan_models(plans@),
                arrivals@,
                fanouts@,
                cut_leaves(cuts@),
            ),
            plans@.len() == arrivals@.len(),
            fanouts@.len() == arrivals@.len(),
            forall|i: int|
                0 <= i < cuts@.len() ==> nets_below(
                    (#[trigger] cuts@[i]).leaves@,
                    arrivals@.len() as int,
                ) && cuts@[i].leaves@.len() <= WIDE_LUT_INPUTS,
            models_of(candidates@) == models.take(i as int),
    {
        let plan = plan_for_cut(plans, arrivals, fanouts, &cuts[i]);
        assert(plan@ == models[i as int]);
        let ghost before = candidates@;
        candidates.push(plan);
        assert(models_of(candidates@) =~= models_of(before).push(plan@));
        assert(models_of(candidates@) =~= models.take(i + 1));
    }
    assert(models.take(cuts@.len() as int) =~= models);
    assert(models_of(candidates@).len() == candidates@.len());
    let index = choose_plan(&candidates, critical_arrival_ps);
    candidates[index].duplicate()
}

/// The selected plan is the plan over one of the cuts.
pub proof fn lemma_selected_sound(
    nodes: Seq<Node>,
    plans: Seq<Option<PlanModel>>,
    arrivals: Seq<Option<u32>>,
    fanouts: Seq<usize>,
    cuts: Seq<Seq<NetId>>,
    critical_arrival_ps: u32,
    root: int,
    max_inputs: nat,
)
    requires
        cuts.len() >= 1,
        cuts_are_sound(nodes, root, max_inputs, cuts),
    ensures
        ({
            let plan = selected_plan(plans, arrivals, fanouts, cuts, critical_arrival_ps);
            readable_below(nodes, plan.leaves, root) && plan.leaves.len() <= max_inputs
                && settles(nodes, root, plan.leaves)
        }),
{
    let candidates = candidate_plans(plans, arrivals, fanouts, cuts);
    let index = lemma_chosen(candidates, critical_arrival_ps);
    assert(cut_is_sound(nodes, root, max_inputs, cuts[index]));
    lemma_plan_pins(nodes, arrivals, fanouts, cuts[index], root);
}

/// On a function wider than one lookup table the pins follow arrival order:
/// the latest leaf reaches the select of the topmost dedicated mux.
pub proof fn law_latest_leaf_on_top(
    arrivals: Seq<Option<u32>>,
    fanouts: Seq<usize>,
    leaves: Seq<NetId>,
    i: int,
    j: int,
)
    requires
        leaves.len() > LUT_INPUTS,
        0 <= i <= j < leaves.len(),
    ensures
        pin_time(arrivals, fanouts, plan_pins(arrivals, fanouts, leaves)[i]) <= pin_time(
            arrivals,
            fanouts,
            plan_pins(arrivals, fanouts, leaves)[j],
        ),
{
    lemma_pins_sorted(arrivals, fanouts, leaves);
    lemma_pin_order(arrivals, fanouts, leaves);
}

spec fn pins_sorted(arrivals: Seq<Option<u32>>, fanouts: Seq<usize>, pins: Seq<NetId>) -> bool {
    forall|i: int, j: int|
        0 <= i <= j < pins.len() ==> pin_time(arrivals, fanouts, #[trigger] pins[i]) <= pin_time(
            arrivals,
            fanouts,
            #[trigger] pins[j],
        )
}

proof fn lemma_pin_sorted(
    arrivals: Seq<Option<u32>>,
    fanouts: Seq<usize>,
    pins: Seq<NetId>,
    net: NetId,
)
    requires
        pins_sorted(arrivals, fanouts, pins),
    ensures
        pins_sorted(arrivals, fanouts, with_pin(arrivals, fanouts, pins, net)),
    decreases pins.len(),
{
    let out = with_pin(arrivals, fanouts, pins, net);
    if pins.len() > 0 {
        let rest = pins.drop_last();
        if pin_before(arrivals, fanouts, net, pins.last()) {
            assert(pins_sorted(arrivals, fanouts, rest));
            lemma_pin_sorted(arrivals, fanouts, rest, net);
            lemma_with_pin(arrivals, fanouts, rest, net);
            let inner = with_pin(arrivals, fanouts, rest, net);
            assert forall|i: int, j: int| 0 <= i <= j < out.len() implies pin_time(
                arrivals,
                fanouts,
                #[trigger] out[i],
            ) <= pin_time(arrivals, fanouts, #[trigger] out[j]) by {
                if j < inner.len() {
                    assert(out[i] == inner[i] && out[j] == inner[j]);
                } else if i < inner.len() {
                    assert(out[i] == inner[i]);
                    if inner[i] != net {
                        let k = choose|k: int| 0 <= k < rest.len() && rest[k] == inner[i];
                        assert(pins[k] == inner[i]);
                        assert(pins[pins.len() - 1] == out[j]);
                    }
                }
            }
        } else {
            assert forall|i: int, j: int| 0 <= i <= j < out.len() implies pin_time(
                arrivals,
                fanouts,
                #[trigger] out[i],
            ) <= pin_time(arrivals, fanouts, #[trigger] out[j]) by {
                if j < pins.len() {
                    assert(out[i] == pins[i] && out[j] == pins[j]);
                } else if i < pins.len() {
                    assert(out[i] == pins[i]);
                    assert(pin_time(arrivals, fanouts, pins[i]) <= pin_time(
                        arrivals,
                        fanouts,
                        pins[pins.len() - 1],
                    ));
                }
            }
        }
    }
}

proof fn lemma_pins_sorted(arrivals: Seq<Option<u32>>, fanouts: Seq<usize>, leaves: Seq<NetId>)
    ensures
        pins_sorted(arrivals, fanouts, pin_order(arrivals, fanouts, leaves)),
    decreases leaves.len(),
{
    if leaves.len() > 0 {
        lemma_pins_sorted(arrivals, fanouts, leaves.drop_last());
        lemma_pin_sorted(
            arrivals,
            fanouts,
            pin_order(arrivals, fanouts, leaves.drop_last()),
            leaves.last(),
        );
    }
}

} // verus!
