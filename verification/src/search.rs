//! The bounded search for a retimed netlist that scores better.

use vstd::prelude::*;

use crate::carry::{
    carry_outs_are_point_to_point, point_to_point, split_all, split_branched_carry_outs,
};
use crate::cells::{
    cell_output_bits, cell_outputs, clamped, mapped_cell_name, Bit, CellModel, Ecp5Cell,
};
use crate::certify::{is_certifier, oracle, EdgeModel, RequestModel, RetimingEdge, RetimingRequest};
use crate::chains::{
    charged_period, forward_chains, forward_retime_registered_ccu_chains, name_models,
    netlist_score, score_netlist,
};
use crate::merge::{
    law_merge_never_grows, law_merge_settles, merge_equivalent_flip_flops, merged,
};
use crate::netlist::{cell_models, first_named, position_of_name, Ecp5Netlist, NetlistModel};
use crate::profile::{
    burden, lemma_profile_indices, mapped_lut_profile, profile_of, routing_burden,
    MappedLutProfile, ProfileModel,
};
use crate::replicate::{
    maximum_replicable_enable_fanout, replicable_enable_fanout, replicate_high_fanout_enable_luts,
    replicated_enables,
};
use crate::retime_ccu::{
    backward_ccu_move, backward_move, backward_retime_ccu2c, backward_retime_primitive,
};
use crate::retime_lut::netlist_model;
use crate::score::law_congestion_is_monotone;
use crate::score::{
    comb_count, congestion_adjusted_overall, growth_limit, mapped_emitted_comb_count,
    mapped_logic_slice_count, mapped_register_count, mapping_growth_limit, register_count,
    retiming_score, score_before, score_less, score_of, slice_count,
};
use crate::timing::{later, sat, MAPPED_ROUTE_GUARD_PS};

verus! {

/// Clock enables that one replica of their driver may carry.
pub const MAX_ENABLE_FANOUT_PER_REPLICA: usize = 16;

/// Rounds of the search.
pub const MAX_SEARCH_ROUNDS: usize = 128;

/// Moves that the search may accept although they do not improve the score at
/// once.
pub const BRIDGE_BUDGET: usize = 2;

/// What every candidate of one search is held against.
#[derive(Clone, Copy, Debug, Eq, PartialEq, Structural)]
pub struct SearchContext {
    /// Whether the netlist misses the target period, so that period decides.
    pub timing_driven: bool,
    /// Target period.
    pub target_period_ps: u32,
    /// Routing burden of the original.
    pub baseline: u64,
    /// Overall period of the original.
    pub original_period_ps: u32,
    /// Overall depth of the original.
    pub original_overall_depth: usize,
    /// Data depth of the original.
    pub original_depth: usize,
    /// Most cells that a candidate may have.
    pub cell_limit: usize,
    /// Most registers that a candidate may have.
    pub register_limit: usize,
    /// Most LUT slices that a candidate may occupy.
    pub slice_limit: usize,
    /// Most combinational primitives that a candidate may have.
    pub comb_limit: usize,
}

/// `count` and a share of it, rounded up: one part in `parts`.
pub open spec fn with_share(count: nat, parts: nat) -> nat {
    count + (count + parts - 1) as nat / parts
}

fn add_share(count: usize, parts: usize) -> (limit: usize)
    requires
        parts > 0,
    ensures
        limit == clamped(with_share(count as nat, parts as nat)),
{
    let limit: u128 = count as u128 + (count as u128 + parts as u128 - 1) / parts as u128;
    proof {
        let total = count as int + parts as int - 1;
        assert(total / parts as int <= total) by (nonlinear_arith)
            requires
                parts > 0,
                total >= 0,
        ;
    }
    if limit > usize::MAX as u128 {
        usize::MAX
    } else {
        limit as usize
    }
}

/// What the candidates for `original` are held against.
pub open spec fn context_of(
    original: NetlistModel,
    original_cells: usize,
    original_registers: usize,
    target_period_ps: u32,
) -> SearchContext {
    let profile = profile_of(original);
    SearchContext {
        timing_driven: profile.overall_period_ps > target_period_ps,
        target_period_ps,
        baseline: burden(original),
        original_period_ps: profile.overall_period_ps,
        original_overall_depth: profile.overall_depth,
        original_depth: profile.data_depth,
        cell_limit: clamped(with_share(original_cells as nat, 10)),
        register_limit: clamped(with_share(original_registers as nat, 5)),
        slice_limit: clamped(growth_limit(clamped(slice_count(original.cells)) as nat)),
        comb_limit: clamped(growth_limit(comb_count(original.cells))),
    }
}

/// Whether a candidate stays within the size limits.
pub open spec fn fits(context: SearchContext, netlist: NetlistModel) -> bool {
    &&& netlist.cells.len() <= context.cell_limit
    &&& register_count(netlist.cells) <= context.register_limit
    &&& clamped(slice_count(netlist.cells)) <= context.slice_limit
    &&& comb_count(netlist.cells) <= context.comb_limit
}

fn check_fits(context: &SearchContext, netlist: &Ecp5Netlist) -> (fitting: bool)
    ensures
        fitting == fits(*context, netlist@),
{
    netlist.cells.len() <= context.cell_limit && mapped_register_count(netlist)
        <= context.register_limit && mapped_logic_slice_count(netlist) <= context.slice_limit
        && mapped_emitted_comb_count(netlist) <= context.comb_limit
}

/// The score of a candidate.
pub open spec fn context_score(context: SearchContext, netlist: NetlistModel) -> (
    u64,
    u64,
    u64,
    usize,
    usize,
    usize,
) {
    netlist_score(netlist, context.timing_driven, context.baseline)
}

/// Whether the charged period of a candidate is no longer than the original's.
pub open spec fn keeps_period(context: SearchContext, netlist: NetlistModel) -> bool {
    charged_period(netlist, context.baseline) <= context.original_period_ps
}

fn charge_period(netlist: &Ecp5Netlist, baseline: u64) -> (period: u32)
    ensures
        period == charged_period(netlist@, baseline),
{
    let profile = mapped_lut_profile(netlist);
    congestion_adjusted_overall(profile.overall_period_ps, routing_burden(netlist), baseline)
}

fn check_keeps_period(context: &SearchContext, netlist: &Ecp5Netlist) -> (keeps: bool)
    ensures
        keeps == keeps_period(*context, netlist@),
{
    charge_period(netlist, context.baseline) <= context.original_period_ps
}

/// Whether a candidate does not deepen the netlist where depth decides.
pub open spec fn keeps_depth(context: SearchContext, netlist: NetlistModel) -> bool {
    context.timing_driven || profile_of(netlist).overall_depth <= context.original_overall_depth
}

fn check_keeps_depth(context: &SearchContext, netlist: &Ecp5Netlist) -> (keeps: bool)
    ensures
        keeps == keeps_depth(*context, netlist@),
{
    context.timing_driven || mapped_lut_profile(netlist).overall_depth
        <= context.original_overall_depth
}

/// The netlist with one register moved back and equal registers shared, where
/// that is admissible and scores better.
#[verifier::opaque]
pub open spec fn single_move(
    context: SearchContext,
    frontier: NetlistModel,
    register: int,
    certificates: spec_fn(RequestModel) -> Option<Seq<EdgeModel>>,
) -> Option<NetlistModel> {
    match backward_move(frontier, register, certificates) {
        Some(moved) => {
            let candidate = merged(moved);
            if keeps_depth(context, candidate) && keeps_period(context, candidate) && fits(
                context,
                candidate,
            ) && score_before(
                context_score(context, candidate),
                context_score(context, frontier),
            ) && point_to_point(candidate.cells) {
                Some(candidate)
            } else {
                None
            }
        },
        None => None,
    }
}

fn try_single_move<C: Fn(&RetimingRequest) -> Option<Vec<RetimingEdge>>>(
    context: &SearchContext,
    frontier: &Ecp5Netlist,
    register: usize,
    certify: &C,
) -> (moved: Option<Ecp5Netlist>)
    requires
        is_certifier(*certify),
    ensures
        netlist_model(moved) == single_move(
            *context,
            frontier@,
            register as int,
            oracle(*certify),
        ),
{
    proof {
        reveal(single_move);
    }
    match backward_retime_primitive(frontier, register, certify) {
        Some(moved) => {
            let mut candidate = moved;
            merge_equivalent_flip_flops(&mut candidate);
            if check_keeps_depth(context, &candidate) && check_keeps_period(context, &candidate)
                && check_fits(context, &candidate) && score_less(
                score_netlist(&candidate, context.timing_driven, context.baseline),
                score_netlist(frontier, context.timing_driven, context.baseline),
            ) && carry_outs_are_point_to_point(&candidate) {
                Some(candidate)
            } else {
                None
            }
        },
        None => None,
    }
}

/// A netlist after several moves, and how many were made.
#[verifier::ext_equal]
pub struct BatchModel {
    pub netlist: NetlistModel,
    pub moves: nat,
}

/// Whether one more move of a cutset is admissible.
pub open spec fn admits_batch(context: SearchContext, netlist: NetlistModel) -> bool {
    keeps_depth(context, netlist) && profile_of(netlist).overall_period_ps
        <= context.original_period_ps && fits(context, netlist) && point_to_point(netlist.cells)
}

/// `batch` with the register named `name` moved back, where that is
/// admissible.
#[verifier::opaque]
pub open spec fn batch_step(
    context: SearchContext,
    batch: BatchModel,
    name: Seq<char>,
    certificates: spec_fn(RequestModel) -> Option<Seq<EdgeModel>>,
) -> BatchModel {
    match first_named(batch.netlist.cells, name) {
        Some(register) => match backward_move(batch.netlist, register, certificates) {
            Some(moved) => {
                let candidate = split_all(moved).0;
                if admits_batch(context, candidate) {
                    BatchModel { netlist: candidate, moves: batch.moves + 1 }
                } else {
                    batch
                }
            },
            None => batch,
        },
        None => batch,
    }
}

/// The registers named by the first `count` of `names` moved back one after
/// the other.
pub open spec fn batch_moves(
    context: SearchContext,
    frontier: NetlistModel,
    names: Seq<Seq<char>>,
    count: nat,
    certificates: spec_fn(RequestModel) -> Option<Seq<EdgeModel>>,
) -> BatchModel
    decreases count,
{
    if count == 0 {
        BatchModel { netlist: frontier, moves: 0 }
    } else {
        batch_step(
            context,
            batch_moves(context, frontier, names, (count - 1) as nat, certificates),
            names[count - 1],
            certificates,
        )
    }
}

/// `batch` with the register named `name` moved back across a carry primitive,
/// where that is admissible.
#[verifier::opaque]
pub open spec fn ccu_step(
    context: SearchContext,
    batch: BatchModel,
    name: Seq<char>,
    certificates: spec_fn(RequestModel) -> Option<Seq<EdgeModel>>,
) -> BatchModel {
    match first_named(batch.netlist.cells, name) {
        Some(register) => match backward_ccu_move(batch.netlist, register, certificates) {
            Some(moved) => {
                let candidate = split_all(moved).0;
                if keeps_period(context, candidate) && fits(context, candidate) {
                    BatchModel { netlist: candidate, moves: batch.moves + 1 }
                } else {
                    batch
                }
            },
            None => batch,
        },
        None => batch,
    }
}

/// The registers named by the first `count` of `names` moved back across carry
/// primitives one after the other.
pub open spec fn ccu_moves(
    context: SearchContext,
    frontier: NetlistModel,
    names: Seq<Seq<char>>,
    count: nat,
    certificates: spec_fn(RequestModel) -> Option<Seq<EdgeModel>>,
) -> BatchModel
    decreases count,
{
    if count == 0 {
        BatchModel { netlist: frontier, moves: 0 }
    } else {
        ccu_step(
            context,
            ccu_moves(context, frontier, names, (count - 1) as nat, certificates),
            names[count - 1],
            certificates,
        )
    }
}

fn step_batch<C: Fn(&RetimingRequest) -> Option<Vec<RetimingEdge>>>(
    context: &SearchContext,
    batch: &Ecp5Netlist,
    name: &String,
    moves: Ghost<nat>,
    certify: &C,
) -> (next: Option<Ecp5Netlist>)
    requires
        is_certifier(*certify),
    ensures
        batch_step(
            *context,
            BatchModel { netlist: batch@, moves: moves@ },
            name@,
            oracle(*certify),
        ) == (match next {
            Some(next) => BatchModel { netlist: next@, moves: moves@ + 1 },
            None => BatchModel { netlist: batch@, moves: moves@ },
        }),
{
    proof {
        reveal(batch_step);
    }
    let register: usize = match position_of_name(&batch.cells, name) {
        Some(register) => register,
        None => return None,
    };
    match backward_retime_primitive(batch, register, certify) {
        Some(moved) => {
            let mut candidate = moved;
            split_branched_carry_outs(&mut candidate);
            if check_keeps_depth(context, &candidate) && mapped_lut_profile(
                &candidate,
            ).overall_period_ps <= context.original_period_ps && check_fits(context, &candidate)
                && carry_outs_are_point_to_point(&candidate) {
                Some(candidate)
            } else {
                None
            }
        },
        None => None,
    }
}

fn step_ccu<C: Fn(&RetimingRequest) -> Option<Vec<RetimingEdge>>>(
    context: &SearchContext,
    batch: &Ecp5Netlist,
    name: &String,
    moves: Ghost<nat>,
    certify: &C,
) -> (next: Option<Ecp5Netlist>)
    requires
        is_certifier(*certify),
    ensures
        ccu_step(
            *context,
            BatchModel { netlist: batch@, moves: moves@ },
            name@,
            oracle(*certify),
        ) == (match next {
            Some(next) => BatchModel { netlist: next@, moves: moves@ + 1 },
            None => BatchModel { netlist: batch@, moves: moves@ },
        }),
{
    proof {
        reveal(ccu_step);
    }
    let register: usize = match position_of_name(&batch.cells, name) {
        Some(register) => register,
        None => return None,
    };
    match backward_retime_ccu2c(batch, register, certify) {
        Some(moved) => {
            let mut candidate = moved;
            split_branched_carry_outs(&mut candidate);
            if check_keeps_period(context, &candidate) && check_fits(context, &candidate) {
                Some(candidate)
            } else {
                None
            }
        },
        None => None,
    }
}

fn make_batch<C: Fn(&RetimingRequest) -> Option<Vec<RetimingEdge>>>(
    context: &SearchContext,
    frontier: &Ecp5Netlist,
    names: &Vec<String>,
    certify: &C,
) -> (batch: (Ecp5Netlist, usize))
    requires
        is_certifier(*certify),
    ensures
        batch_moves(
            *context,
            frontier@,
            name_models(names@),
            names@.len(),
            oracle(*certify),
        ) == (BatchModel { netlist: batch.0@, moves: batch.1 as nat }),
        batch.1 <= names@.len(),
{
    let ghost texts = name_models(names@);
    let mut batch = frontier.clone();
    let mut moves: usize = 0;
    for i in 0..names.len()
        invariant
            is_certifier(*certify),
            texts == name_models(names@),
            moves <= i,
            batch_moves(*context, frontier@, texts, i as nat, oracle(*certify)) == (BatchModel {
                netlist: batch@,
                moves: moves as nat,
            }),
    {
        assert(texts[i as int] == names@[i as int]@);
        if let Some(next) = step_batch(context, &batch, &names[i], Ghost(moves as nat), certify) {
            batch = next;
            moves = moves + 1;
        }
    }
    (batch, moves)
}

fn make_ccu_batch<C: Fn(&RetimingRequest) -> Option<Vec<RetimingEdge>>>(
    context: &SearchContext,
    frontier: &Ecp5Netlist,
    names: &Vec<String>,
    certify: &C,
) -> (batch: (Ecp5Netlist, usize))
    requires
        is_certifier(*certify),
    ensures
        ccu_moves(*context, frontier@, name_models(names@), names@.len(), oracle(*certify)) == (
        BatchModel { netlist: batch.0@, moves: batch.1 as nat }),
        batch.1 <= names@.len(),
{
    let ghost texts = name_models(names@);
    let mut batch = frontier.clone();
    let mut moves: usize = 0;
    for i in 0..names.len()
        invariant
            is_certifier(*certify),
            texts == name_models(names@),
            moves <= i,
            ccu_moves(*context, frontier@, texts, i as nat, oracle(*certify)) == (BatchModel {
                netlist: batch@,
                moves: moves as nat,
            }),
    {
        assert(texts[i as int] == names@[i as int]@);
        if let Some(next) = step_ccu(context, &batch, &names[i], Ghost(moves as nat), certify) {
            batch = next;
            moves = moves + 1;
        }
    }
    (batch, moves)
}

/// Whether the data input of the register at `index` comes from a carry
/// primitive.
pub open spec fn driven_by_ccu(cells: Seq<CellModel>, index: int) -> bool {
    0 <= index < cells.len() && match cells[index] {
        CellModel::FlipFlop { data, .. } => exists|i: int|
            0 <= i < cells.len() && (#[trigger] cells[i]) is Ccu2c && cell_outputs(
                cells[i],
            ).contains(data),
        _ => false,
    }
}

fn holds_bit(bits: &Vec<Bit>, bit: Bit) -> (found: bool)
    ensures
        found == bits@.contains(bit),
{
    for i in 0..bits.len()
        invariant
            forall|j: int| 0 <= j < i ==> bits@[j] != bit,
    {
        if bits[i] == bit {
            return true;
        }
    }
    false
}

/// Whether the data input of the register at `register_index` comes from a
/// carry primitive.
pub fn register_data_is_driven_by_ccu(netlist: &Ecp5Netlist, register_index: usize) -> (found: bool)
    ensures
        found == driven_by_ccu(netlist@.cells, register_index as int),
{
    let ghost models = netlist@.cells;
    if register_index >= netlist.cells.len() {
        return false;
    }
    assert(models[register_index as int] == netlist.cells@[register_index as int]@);
    let data: Bit = match &netlist.cells[register_index] {
        Ecp5Cell::FlipFlop { data, .. } => *data,
        _ => return false,
    };
    for i in 0..netlist.cells.len()
        invariant
            models == netlist@.cells,
            models == cell_models(netlist.cells@),
            register_index < models.len(),
            models[register_index as int] is FlipFlop,
            models[register_index as int]->FlipFlop_data == data,
            forall|j: int|
                0 <= j < i && (#[trigger] models[j]) is Ccu2c ==> !cell_outputs(
                    models[j],
                ).contains(data),
    {
        assert(models[i as int] == netlist.cells@[i as int]@);
        if let Ecp5Cell::Ccu2c { .. } = &netlist.cells[i] {
            if holds_bit(&cell_output_bits(&netlist.cells[i]), data) {
                return true;
            }
        }
    }
    false
}

/// The longest period beyond the target of a register behind a carry
/// primitive.
pub open spec fn worst_ccu_period(
    cells: Seq<CellModel>,
    endpoints: Seq<(usize, u32)>,
    target: u32,
) -> Option<u32>
    decreases endpoints.len(),
{
    if endpoints.len() == 0 {
        None
    } else {
        let rest = worst_ccu_period(cells, endpoints.drop_last(), target);
        let last = endpoints.last();
        if last.1 > target && driven_by_ccu(cells, last.0 as int) {
            later(rest, Some(last.1))
        } else {
            rest
        }
    }
}

/// The names of the registers behind a carry primitive at `period`.
pub open spec fn ccu_endpoint_names(
    cells: Seq<CellModel>,
    endpoints: Seq<(usize, u32)>,
    period: u32,
) -> Seq<Seq<char>>
    decreases endpoints.len(),
{
    if endpoints.len() == 0 {
        seq![]
    } else {
        let rest = ccu_endpoint_names(cells, endpoints.drop_last(), period);
        let last = endpoints.last();
        if last.1 == period && driven_by_ccu(cells, last.0 as int) {
            rest.push(cells[last.0 as int].cell_name())
        } else {
            rest
        }
    }
}

fn find_worst_ccu_period(
    netlist: &Ecp5Netlist,
    endpoints: &Vec<(usize, u32)>,
    target: u32,
) -> (worst: Option<u32>)
    ensures
        worst == worst_ccu_period(netlist@.cells, endpoints@, target),
{
    let mut worst: Option<u32> = None;
    for i in 0..endpoints.len()
        invariant
            worst == worst_ccu_period(netlist@.cells, endpoints@.take(i as int), target),
    {
        assert(endpoints@.take(i + 1).drop_last() =~= endpoints@.take(i as int));
        let period: u32 = endpoints[i].1;
        if period > target && register_data_is_driven_by_ccu(netlist, endpoints[i].0) {
            worst = match worst {
                Some(other) => if other < period {
                    Some(period)
                } else {
                    worst
                },
                None => Some(period),
            };
        }
    }
    assert(endpoints@.take(endpoints@.len() as int) =~= endpoints@);
    worst
}

fn list_ccu_endpoint_names(
    netlist: &Ecp5Netlist,
    endpoints: &Vec<(usize, u32)>,
    period: u32,
) -> (names: Vec<String>)
    ensures
        name_models(names@) == ccu_endpoint_names(netlist@.cells, endpoints@, period),
{
    let ghost models = netlist@.cells;
    let mut names: Vec<String> = Vec::new();
    assert(name_models(names@) =~= seq![]);
    for i in 0..endpoints.len()
        invariant
            models == cell_models(netlist.cells@),
            name_models(names@) == ccu_endpoint_names(
                models,
                endpoints@.take(i as int),
                period,
            ),
    {
        assert(endpoints@.take(i + 1).drop_last() =~= endpoints@.take(i as int));
        let index: usize = endpoints[i].0;
        if endpoints[i].1 == period && register_data_is_driven_by_ccu(netlist, index) {
            let ghost prior = name_models(names@);
            assert(models[index as int] == netlist.cells@[index as int]@);
            names.push(mapped_cell_name(&netlist.cells[index]).clone());
            assert(name_models(names@) =~= prior.push(models[index as int].cell_name()));
        }
    }
    assert(endpoints@.take(endpoints@.len() as int) =~= endpoints@);
    names
}

/// The names of the cells at `indices`.
pub open spec fn names_at(cells: Seq<CellModel>, indices: Seq<usize>) -> Seq<Seq<char>> {
    Seq::new(indices.len(), |i: int| cells[indices[i] as int].cell_name())
}

fn list_names_at(netlist: &Ecp5Netlist, indices: &Vec<usize>) -> (names: Vec<String>)
    requires
        forall|k: int| 0 <= k < indices@.len() ==> (#[trigger] indices@[k]) < netlist.cells@.len(),
    ensures
        name_models(names@) == names_at(netlist@.cells, indices@),
{
    let ghost models = netlist@.cells;
    let mut names: Vec<String> = Vec::new();
    for i in 0..indices.len()
        invariant
            models == cell_models(netlist.cells@),
            forall|k: int|
                0 <= k < indices@.len() ==> (#[trigger] indices@[k]) < netlist.cells@.len(),
            name_models(names@) == names_at(models, indices@).take(i as int),
    {
        let ghost prior = name_models(names@);
        let index: usize = indices[i];
        assert(indices@[i as int] < netlist.cells@.len());
        assert(models[index as int] == netlist.cells@[index as int]@);
        names.push(mapped_cell_name(&netlist.cells[index]).clone());
        assert(name_models(names@) =~= prior.push(models[index as int].cell_name()));
        assert(names_at(models, indices@).take(i + 1) =~= names_at(models, indices@).take(
            i as int,
        ).push(models[index as int].cell_name()));
    }
    assert(names_at(models, indices@).take(indices@.len() as int) =~= names_at(models, indices@));
    names
}

/// The critical registers: by period where timing drives the search, else by
/// depth.
pub open spec fn critical_registers(context: SearchContext, profile: ProfileModel) -> Seq<usize> {
    if context.timing_driven {
        profile.critical_timing
    } else {
        profile.critical_depth
    }
}

/// The whole cutset of worst registers behind carry primitives moved back,
/// with equal registers shared; nothing when one of them cannot move.
#[verifier::opaque]
pub open spec fn ccu_bridge(
    context: SearchContext,
    frontier: NetlistModel,
    budget: usize,
    certificates: spec_fn(RequestModel) -> Option<Seq<EdgeModel>>,
) -> Option<NetlistModel> {
    let endpoints = profile_of(frontier).timing_endpoints;
    if context.timing_driven && budget > 0 {
        match worst_ccu_period(frontier.cells, endpoints, context.target_period_ps) {
            Some(period) => {
                let names = ccu_endpoint_names(frontier.cells, endpoints, period);
                let batch = ccu_moves(context, frontier, names, names.len(), certificates);
                if batch.moves == names.len() && batch.moves > 0 {
                    Some(merged(batch.netlist))
                } else {
                    None
                }
            },
            None => None,
        }
    } else {
        None
    }
}

fn find_ccu_bridge<C: Fn(&RetimingRequest) -> Option<Vec<RetimingEdge>>>(
    context: &SearchContext,
    frontier: &Ecp5Netlist,
    profile: &MappedLutProfile,
    budget: usize,
    certify: &C,
) -> (bridge: Option<Ecp5Netlist>)
    requires
        is_certifier(*certify),
        profile@ == profile_of(frontier@),
    ensures
        netlist_model(bridge) == ccu_bridge(*context, frontier@, budget, oracle(*certify)),
{
    proof {
        reveal(ccu_bridge);
    }
    if !context.timing_driven || budget == 0 {
        return None;
    }
    let period: u32 = match find_worst_ccu_period(
        frontier,
        &profile.timing_endpoints,
        context.target_period_ps,
    ) {
        Some(period) => period,
        None => return None,
    };
    let names = list_ccu_endpoint_names(frontier, &profile.timing_endpoints, period);
    let (batch, moves) = make_ccu_batch(context, frontier, &names, certify);
    assert(name_models(names@).len() == names@.len());
    if moves == names.len() && moves > 0 {
        let mut bridge = batch;
        merge_equivalent_flip_flops(&mut bridge);
        Some(bridge)
    } else {
        None
    }
}

/// The next frontier and whether it is a bridge.
#[verifier::ext_equal]
pub struct ChoiceModel {
    pub next: Option<NetlistModel>,
    pub is_bridge: bool,
}

/// The single-register candidate: a single move cannot lower a maximum that
/// several registers share.
pub open spec fn single_choice(
    context: SearchContext,
    frontier: NetlistModel,
    certificates: spec_fn(RequestModel) -> Option<Seq<EdgeModel>>,
) -> Option<NetlistModel> {
    let critical = critical_registers(context, profile_of(frontier));
    if critical.len() == 1 {
        single_move(context, frontier, critical[0] as int, certificates)
    } else {
        None
    }
}

/// Whether the moved cutset may serve as a bridge although it does not score
/// better: every critical register moved, and the period grew by at most two
/// routing guards.
pub open spec fn cutset_may_bridge(
    context: SearchContext,
    frontier: NetlistModel,
    cutset: NetlistModel,
    moves: nat,
    budget: usize,
) -> bool {
    let profile = profile_of(frontier);
    &&& context.timing_driven
    &&& profile.data_period_ps > context.target_period_ps
    &&& profile_of(cutset).data_period_ps <= sat(
        profile.data_period_ps as int,
        2 * MAPPED_ROUTE_GUARD_PS,
    )
    &&& moves == critical_registers(context, profile).len()
    &&& budget > 0
}

/// The next frontier: the better of the single move and the moved cutset where
/// one scores better than the frontier, else a bridge.
pub open spec fn choose_next(
    context: SearchContext,
    frontier: NetlistModel,
    budget: usize,
    certificates: spec_fn(RequestModel) -> Option<Seq<EdgeModel>>,
) -> ChoiceModel {
    let names = names_at(
        frontier.cells,
        critical_registers(context, profile_of(frontier)),
    );
    let single = single_choice(context, frontier, certificates);
    let batch = batch_moves(context, frontier, names, names.len(), certificates);
    let bridge = ccu_bridge(context, frontier, budget, certificates);
    let cutset = merged(batch.netlist);
    if batch.moves > 0 && score_before(
        context_score(context, cutset),
        context_score(context, frontier),
    ) && (single matches Some(single) ==> score_before(
        context_score(context, cutset),
        context_score(context, single),
    )) {
        ChoiceModel { next: Some(cutset), is_bridge: false }
    } else if single is Some {
        ChoiceModel { next: single, is_bridge: false }
    } else if bridge is Some {
        ChoiceModel { next: bridge, is_bridge: true }
    } else if batch.moves > 0 && cutset_may_bridge(
        context,
        frontier,
        cutset,
        batch.moves,
        budget,
    ) {
        ChoiceModel { next: Some(cutset), is_bridge: true }
    } else {
        ChoiceModel { next: None, is_bridge: false }
    }
}

fn find_next<C: Fn(&RetimingRequest) -> Option<Vec<RetimingEdge>>>(
    context: &SearchContext,
    frontier: &Ecp5Netlist,
    profile: &MappedLutProfile,
    budget: usize,
    certify: &C,
) -> (choice: (Option<Ecp5Netlist>, bool))
    requires
        is_certifier(*certify),
        profile@ == profile_of(frontier@),
    ensures
        choose_next(*context, frontier@, budget, oracle(*certify)) == (ChoiceModel {
            next: netlist_model(choice.0),
            is_bridge: choice.1,
        }),
{
    let cells: usize = frontier.cells.len();
    proof {
        lemma_profile_indices(frontier@);
    }
    let critical: &Vec<usize> = if context.timing_driven {
        &profile.critical_timing
    } else {
        &profile.critical_depth
    };
    assert(critical@ == critical_registers(*context, profile@));
    assert forall|k: int| 0 <= k < critical@.len() implies (#[trigger] critical@[k])
        < frontier.cells@.len() by {
        if context.timing_driven {
            assert(profile_of(frontier@).critical_timing[k] < frontier@.cells.len());
        } else {
            assert(profile_of(frontier@).critical_depth[k] < frontier@.cells.len());
        }
    }
    let names = list_names_at(frontier, critical);
    let single: Option<Ecp5Netlist> = if critical.len() == 1 {
        try_single_move(context, frontier, critical[0], certify)
    } else {
        None
    };
    assert(netlist_model(single) == single_choice(*context, frontier@, oracle(*certify)));
    let (batch, moves) = make_batch(context, frontier, &names, certify);
    assert(name_models(names@).len() == names@.len());
    let bridge = find_ccu_bridge(context, frontier, profile, budget, certify);
    let mut cutset = batch;
    merge_equivalent_flip_flops(&mut cutset);
    if moves > 0 {
        let score = score_netlist(&cutset, context.timing_driven, context.baseline);
        let beaten: bool = match &single {
            Some(single) => score_less(
                score,
                score_netlist(single, context.timing_driven, context.baseline),
            ),
            None => true,
        };
        if beaten && score_less(
            score,
            score_netlist(frontier, context.timing_driven, context.baseline),
        ) {
            return (Some(cutset), false);
        }
    }
    if single.is_some() {
        return (single, false);
    }
    if bridge.is_some() {
        return (bridge, true);
    }
    if moves > 0 && context.timing_driven && profile.data_period_ps > context.target_period_ps
        && mapped_lut_profile(&cutset).data_period_ps <= profile.data_period_ps.saturating_add(
        2 * MAPPED_ROUTE_GUARD_PS,
    ) && moves == critical.len() && budget > 0 {
        return (Some(cutset), true);
    }
    (None, false)
}

/// Whether the frontier reaches the goal: the target period where timing
/// drives the search, else a smaller depth.
pub open spec fn reaches_goal(context: SearchContext, netlist: NetlistModel) -> bool {
    if context.timing_driven {
        charged_period(netlist, context.baseline) <= context.target_period_ps
    } else {
        profile_of(netlist).data_depth < context.original_depth
    }
}

/// The better scoring of two netlists; the first of two equals.
pub open spec fn better_of(
    context: SearchContext,
    best: NetlistModel,
    other: NetlistModel,
) -> NetlistModel {
    if score_before(context_score(context, other), context_score(context, best)) {
        other
    } else {
        best
    }
}

/// How a search ends: with a netlist that reaches the goal, or with the last
/// frontier and the best netlist seen.
#[verifier::ext_equal]
pub enum SearchEnd {
    Reached { netlist: NetlistModel },
    Exhausted { frontier: NetlistModel, best: NetlistModel },
}

/// At most `rounds` rounds from `frontier` on.
pub open spec fn search(
    context: SearchContext,
    frontier: NetlistModel,
    best: NetlistModel,
    budget: usize,
    rounds: nat,
    certificates: spec_fn(RequestModel) -> Option<Seq<EdgeModel>>,
) -> SearchEnd
    decreases rounds,
{
    if rounds == 0 {
        SearchEnd::Exhausted { frontier, best }
    } else {
        let seen = better_of(context, best, frontier);
        if reaches_goal(context, frontier) {
            SearchEnd::Reached { netlist: frontier }
        } else {
            let choice = choose_next(context, frontier, budget, certificates);
            match choice.next {
                Some(next) => search(
                    context,
                    next,
                    seen,
                    if choice.is_bridge {
                        (budget - 1) as usize
                    } else {
                        budget
                    },
                    (rounds - 1) as nat,
                    certificates,
                ),
                None => SearchEnd::Exhausted { frontier, best: seen },
            }
        }
    }
}

/// The original with its enable drivers replicated and carry branches split.
pub open spec fn control_candidate(original: NetlistModel) -> NetlistModel {
    split_all(replicated_enables(original, MAX_ENABLE_FANOUT_PER_REPLICA)).0
}

/// The plain score of the original.
pub open spec fn original_score(context: SearchContext, original: NetlistModel) -> (
    u64,
    u64,
    u64,
    usize,
    usize,
    usize,
) {
    score_of(
        profile_of(original),
        context.timing_driven,
        original.cells.len() as usize,
        register_count(original.cells) as usize,
        profile_of(original).overall_period_ps,
    )
}

/// The netlist that the search starts from before chains are moved.
pub open spec fn search_seed(context: SearchContext, original: NetlistModel) -> NetlistModel {
    let control = control_candidate(original);
    if fits(context, control) && keeps_period(context, control) && (score_before(
        context_score(context, control),
        original_score(context, original),
    ) || replicable_enable_fanout(control, MAX_ENABLE_FANOUT_PER_REPLICA)
        < replicable_enable_fanout(original, MAX_ENABLE_FANOUT_PER_REPLICA)) {
        control
    } else {
        original
    }
}

/// The first frontier: the seed, with its registered carry chains moved
/// forward where that is admissible and scores better than the original.
pub open spec fn first_frontier(
    context: SearchContext,
    original: NetlistModel,
    certificates: spec_fn(RequestModel) -> Option<Seq<EdgeModel>>,
) -> NetlistModel {
    let seed = search_seed(context, original);
    let forward = split_all(
        forward_chains(
            seed,
            seed.cells.len(),
            context.timing_driven,
            burden(seed),
            certificates,
        ),
    ).0;
    if fits(context, forward) && keeps_period(context, forward) && score_before(
        context_score(context, forward),
        original_score(context, original),
    ) {
        forward
    } else {
        seed
    }
}

/// `best` with its enable drivers replicated once more, where that lowers the
/// enable fanout and costs no period.
pub open spec fn with_final_replicas(context: SearchContext, best: NetlistModel) -> NetlistModel {
    let replicated = replicated_enables(best, MAX_ENABLE_FANOUT_PER_REPLICA);
    if fits(context, replicated) && profile_of(replicated).overall_period_ps <= profile_of(
        best,
    ).overall_period_ps && replicable_enable_fanout(replicated, MAX_ENABLE_FANOUT_PER_REPLICA)
        < replicable_enable_fanout(best, MAX_ENABLE_FANOUT_PER_REPLICA) {
        replicated
    } else {
        best
    }
}

/// Whether `selected` improves on `original`: in overall period, then data
/// period, then critical registers, then enable fanout where timing drives the
/// search; in depth, then critical registers, where it does not.
pub open spec fn improves(
    context: SearchContext,
    original: NetlistModel,
    selected: NetlistModel,
) -> bool {
    let a = profile_of(selected);
    let b = profile_of(original);
    if context.timing_driven {
        if a.overall_period_ps != b.overall_period_ps {
            a.overall_period_ps < b.overall_period_ps
        } else if a.data_period_ps != b.data_period_ps {
            a.data_period_ps < b.data_period_ps
        } else if a.critical_timing.len() != b.critical_timing.len() {
            a.critical_timing.len() < b.critical_timing.len()
        } else {
            replicable_enable_fanout(selected, MAX_ENABLE_FANOUT_PER_REPLICA)
                < replicable_enable_fanout(original, MAX_ENABLE_FANOUT_PER_REPLICA)
        }
    } else if a.data_depth != b.data_depth {
        a.data_depth < b.data_depth
    } else {
        a.critical_depth.len() < b.critical_depth.len()
    }
}

/// The netlist that the search selects for `original`, if it finds one.
pub open spec fn retimed(
    original: NetlistModel,
    original_cells: usize,
    original_registers: usize,
    target_period_ps: u32,
    certificates: spec_fn(RequestModel) -> Option<Seq<EdgeModel>>,
) -> Option<NetlistModel> {
    let context = context_of(original, original_cells, original_registers, target_period_ps);
    let start = first_frontier(context, original, certificates);
    match search(
        context,
        start,
        start,
        BRIDGE_BUDGET,
        MAX_SEARCH_ROUNDS as nat,
        certificates,
    ) {
        SearchEnd::Reached { netlist } => Some(netlist),
        SearchEnd::Exhausted { frontier, best } => {
            let selected = with_final_replicas(context, better_of(context, best, frontier));
            if improves(context, original, selected) {
                Some(selected)
            } else {
                None
            }
        },
    }
}

fn make_context(
    original: &Ecp5Netlist,
    profile: &MappedLutProfile,
    original_cells: usize,
    original_registers: usize,
    target_period_ps: u32,
) -> (context: SearchContext)
    requires
        profile@ == profile_of(original@),
    ensures
        context == context_of(original@, original_cells, original_registers, target_period_ps),
{
    SearchContext {
        timing_driven: profile.overall_period_ps > target_period_ps,
        target_period_ps,
        baseline: routing_burden(original),
        original_period_ps: profile.overall_period_ps,
        original_overall_depth: profile.overall_depth,
        original_depth: profile.data_depth,
        cell_limit: add_share(original_cells, 10),
        register_limit: add_share(original_registers, 5),
        slice_limit: mapping_growth_limit(mapped_logic_slice_count(original)),
        comb_limit: mapping_growth_limit(mapped_emitted_comb_count(original)),
    }
}

fn score_original(context: &SearchContext, original: &Ecp5Netlist, profile: &MappedLutProfile) -> (
score: (u64, u64, u64, usize, usize, usize))
    requires
        profile@ == profile_of(original@),
    ensures
        score == original_score(*context, original@),
{
    retiming_score(
        profile,
        context.timing_driven,
        original.cells.len(),
        mapped_register_count(original),
        profile.overall_period_ps,
    )
}

fn make_seed(context: &SearchContext, original: &Ecp5Netlist, profile: &MappedLutProfile) -> (seed:
    Ecp5Netlist)
    requires
        profile@ == profile_of(original@),
    ensures
        seed@ == search_seed(*context, original@),
{
    let mut control = replicate_high_fanout_enable_luts(original, MAX_ENABLE_FANOUT_PER_REPLICA);
    split_branched_carry_outs(&mut control);
    if check_fits(context, &control) && check_keeps_period(context, &control) && (score_less(
        score_netlist(&control, context.timing_driven, context.baseline),
        score_original(context, original, profile),
    ) || maximum_replicable_enable_fanout(&control, MAX_ENABLE_FANOUT_PER_REPLICA)
        < maximum_replicable_enable_fanout(original, MAX_ENABLE_FANOUT_PER_REPLICA)) {
        control
    } else {
        original.clone()
    }
}

fn make_first_frontier<C: Fn(&RetimingRequest) -> Option<Vec<RetimingEdge>>>(
    context: &SearchContext,
    original: &Ecp5Netlist,
    profile: &MappedLutProfile,
    certify: &C,
) -> (frontier: Ecp5Netlist)
    requires
        is_certifier(*certify),
        profile@ == profile_of(original@),
    ensures
        frontier@ == first_frontier(*context, original@, oracle(*certify)),
{
    let seed = make_seed(context, original, profile);
    let mut forward = forward_retime_registered_ccu_chains(&seed, context.timing_driven, certify);
    split_branched_carry_outs(&mut forward);
    if check_fits(context, &forward) && check_keeps_period(context, &forward) && score_less(
        score_netlist(&forward, context.timing_driven, context.baseline),
        score_original(context, original, profile),
    ) {
        forward
    } else {
        seed
    }
}

fn check_reaches_goal(
    context: &SearchContext,
    netlist: &Ecp5Netlist,
    profile: &MappedLutProfile,
) -> (reached: bool)
    requires
        profile@ == profile_of(netlist@),
    ensures
        reached == reaches_goal(*context, netlist@),
{
    if context.timing_driven {
        charge_period(netlist, context.baseline) <= context.target_period_ps
    } else {
        profile.data_depth < context.original_depth
    }
}

fn check_better(context: &SearchContext, best: &Ecp5Netlist, other: &Ecp5Netlist) -> (better: bool)
    ensures
        better_of(*context, best@, other@) == if better {
            other@
        } else {
            best@
        },
{
    score_less(
        score_netlist(other, context.timing_driven, context.baseline),
        score_netlist(best, context.timing_driven, context.baseline),
    )
}

fn check_improves(
    context: &SearchContext,
    original: &Ecp5Netlist,
    selected: &Ecp5Netlist,
) -> (better: bool)
    ensures
        better == improves(*context, original@, selected@),
{
    let a = mapped_lut_profile(selected);
    let b = mapped_lut_profile(original);
    if context.timing_driven {
        if a.overall_period_ps != b.overall_period_ps {
            a.overall_period_ps < b.overall_period_ps
        } else if a.data_period_ps != b.data_period_ps {
            a.data_period_ps < b.data_period_ps
        } else if a.critical_timing.len() != b.critical_timing.len() {
            a.critical_timing.len() < b.critical_timing.len()
        } else {
            maximum_replicable_enable_fanout(selected, MAX_ENABLE_FANOUT_PER_REPLICA)
                < maximum_replicable_enable_fanout(original, MAX_ENABLE_FANOUT_PER_REPLICA)
        }
    } else if a.data_depth != b.data_depth {
        a.data_depth < b.data_depth
    } else {
        a.critical_depth.len() < b.critical_depth.len()
    }
}

fn add_final_replicas(context: &SearchContext, best: Ecp5Netlist) -> (selected: Ecp5Netlist)
    ensures
        selected@ == with_final_replicas(*context, best@),
{
    let replicated = replicate_high_fanout_enable_luts(&best, MAX_ENABLE_FANOUT_PER_REPLICA);
    if check_fits(context, &replicated) && mapped_lut_profile(&replicated).overall_period_ps
        <= mapped_lut_profile(&best).overall_period_ps && maximum_replicable_enable_fanout(
        &replicated,
        MAX_ENABLE_FANOUT_PER_REPLICA,
    ) < maximum_replicable_enable_fanout(&best, MAX_ENABLE_FANOUT_PER_REPLICA) {
        replicated
    } else {
        best
    }
}

/// The outcome of a search.
enum Outcome {
    Reached(Ecp5Netlist),
    Exhausted(Ecp5Netlist, Ecp5Netlist),
}

spec fn outcome_model(outcome: Outcome) -> SearchEnd {
    match outcome {
        Outcome::Reached(netlist) => SearchEnd::Reached { netlist: netlist@ },
        Outcome::Exhausted(frontier, best) => SearchEnd::Exhausted {
            frontier: frontier@,
            best: best@,
        },
    }
}

fn run_search<C: Fn(&RetimingRequest) -> Option<Vec<RetimingEdge>>>(
    context: &SearchContext,
    start: Ecp5Netlist,
    certify: &C,
) -> (outcome: Outcome)
    requires
        is_certifier(*certify),
    ensures
        outcome_model(outcome) == search(
            *context,
            start@,
            start@,
            BRIDGE_BUDGET,
            MAX_SEARCH_ROUNDS as nat,
            oracle(*certify),
        ),
{
    let ghost first = start@;
    let mut best = start.clone();
    let mut frontier = start;
    let mut budget: usize = BRIDGE_BUDGET;
    let mut round: usize = 0;
    while round < MAX_SEARCH_ROUNDS
        invariant
            is_certifier(*certify),
            first == start@,
            round <= MAX_SEARCH_ROUNDS,
            search(
                *context,
                first,
                first,
                BRIDGE_BUDGET,
                MAX_SEARCH_ROUNDS as nat,
                oracle(*certify),
            ) == search(
                *context,
                frontier@,
                best@,
                budget,
                (MAX_SEARCH_ROUNDS - round) as nat,
                oracle(*certify),
            ),
        decreases MAX_SEARCH_ROUNDS - round,
    {
        let profile = mapped_lut_profile(&frontier);
        if check_better(context, &best, &frontier) {
            best = frontier.clone();
        }
        if check_reaches_goal(context, &frontier, &profile) {
            return Outcome::Reached(frontier);
        }
        let (next, is_bridge) = find_next(context, &frontier, &profile, budget, certify);
        match next {
            Some(next) => {
                if is_bridge {
                    proof {
                        lemma_bridge_needs_budget(
                            *context,
                            frontier@,
                            budget,
                            oracle(*certify),
                        );
                    }
                    budget = budget - 1;
                }
                frontier = next;
            },
            None => {
                return Outcome::Exhausted(frontier, best);
            },
        }
        round += 1;
    }
    Outcome::Exhausted(frontier, best)
}

proof fn lemma_bridge_needs_budget(
    context: SearchContext,
    frontier: NetlistModel,
    budget: usize,
    certificates: spec_fn(RequestModel) -> Option<Seq<EdgeModel>>,
)
    ensures
        choose_next(context, frontier, budget, certificates).is_bridge ==> budget > 0,
{
    reveal(ccu_bridge);
}

/// Searches for a retimed netlist that improves on `original` within the size
/// limits.
pub fn automatically_retime_mapped_luts<C: Fn(&RetimingRequest) -> Option<Vec<RetimingEdge>>>(
    original: &Ecp5Netlist,
    original_cells: usize,
    original_registers: usize,
    target_period_ps: u32,
    certify: &C,
) -> (selected: Option<Ecp5Netlist>)
    requires
        is_certifier(*certify),
    ensures
        netlist_model(selected) == retimed(
            original@,
            original_cells,
            original_registers,
            target_period_ps,
            oracle(*certify),
        ),
{
    let profile = mapped_lut_profile(original);
    let context = make_context(
        original,
        &profile,
        original_cells,
        original_registers,
        target_period_ps,
    );
    let start = make_first_frontier(&context, original, &profile, certify);
    match run_search(&context, start, certify) {
        Outcome::Reached(netlist) => Some(netlist),
        Outcome::Exhausted(frontier, best) => {
            let chosen = if check_better(&context, &best, &frontier) {
                frontier
            } else {
                best
            };
            let selected = add_final_replicas(&context, chosen);
            if check_improves(&context, original, &selected) {
                Some(selected)
            } else {
                None
            }
        },
    }
}

/// Whether a netlist is the original or within the size limits.
spec fn stays(context: SearchContext, original: NetlistModel, netlist: NetlistModel) -> bool {
    netlist == original || fits(context, netlist)
}

proof fn lemma_merged_fits(context: SearchContext, netlist: NetlistModel)
    requires
        fits(context, netlist),
    ensures
        fits(context, merged(netlist)),
{
    law_merge_never_grows(netlist);
    law_merge_settles(netlist);
}

proof fn lemma_batch_fits(
    context: SearchContext,
    frontier: NetlistModel,
    names: Seq<Seq<char>>,
    count: nat,
    certificates: spec_fn(RequestModel) -> Option<Seq<EdgeModel>>,
)
    ensures
        batch_moves(context, frontier, names, count, certificates).moves > 0 ==> fits(
            context,
            batch_moves(context, frontier, names, count, certificates).netlist,
        ),
        ccu_moves(context, frontier, names, count, certificates).moves > 0 ==> fits(
            context,
            ccu_moves(context, frontier, names, count, certificates).netlist,
        ),
    decreases count,
{
    if count > 0 {
        lemma_batch_fits(context, frontier, names, (count - 1) as nat, certificates);
        reveal(batch_step);
        reveal(ccu_step);
    }
}

proof fn lemma_next_fits(
    context: SearchContext,
    frontier: NetlistModel,
    budget: usize,
    certificates: spec_fn(RequestModel) -> Option<Seq<EdgeModel>>,
)
    ensures
        choose_next(context, frontier, budget, certificates).next matches Some(next) ==> fits(
            context,
            next,
        ),
{
    let profile = profile_of(frontier);
    let names = names_at(frontier.cells, critical_registers(context, profile));
    lemma_batch_fits(context, frontier, names, names.len(), certificates);
    let batch = batch_moves(context, frontier, names, names.len(), certificates);
    if batch.moves > 0 {
        lemma_merged_fits(context, batch.netlist);
    }
    reveal(single_move);
    reveal(ccu_bridge);
    if ccu_bridge(context, frontier, budget, certificates) is Some {
        let period = worst_ccu_period(
            frontier.cells,
            profile.timing_endpoints,
            context.target_period_ps,
        )->0;
        let chains = ccu_endpoint_names(frontier.cells, profile.timing_endpoints, period);
        lemma_batch_fits(context, frontier, chains, chains.len(), certificates);
        lemma_merged_fits(
            context,
            ccu_moves(context, frontier, chains, chains.len(), certificates).netlist,
        );
    }
}

proof fn lemma_search_stays(
    context: SearchContext,
    original: NetlistModel,
    frontier: NetlistModel,
    best: NetlistModel,
    budget: usize,
    rounds: nat,
    certificates: spec_fn(RequestModel) -> Option<Seq<EdgeModel>>,
)
    requires
        stays(context, original, frontier),
        stays(context, original, best),
    ensures
        match search(context, frontier, best, budget, rounds, certificates) {
            SearchEnd::Reached { netlist } => stays(context, original, netlist) && reaches_goal(
                context,
                netlist,
            ),
            SearchEnd::Exhausted { frontier, best } => stays(context, original, frontier)
                && stays(context, original, best),
        },
    decreases rounds,
{
    if rounds > 0 && !reaches_goal(context, frontier) {
        let choice = choose_next(context, frontier, budget, certificates);
        lemma_next_fits(context, frontier, budget, certificates);
        if choice.next is Some {
            lemma_search_stays(
                context,
                original,
                choice.next->0,
                better_of(context, best, frontier),
                if choice.is_bridge {
                    (budget - 1) as usize
                } else {
                    budget
                },
                (rounds - 1) as nat,
                certificates,
            );
        }
    }
}

/// The search caps growth: what it selects is the original or within the
/// limits on cells, registers, slices and combinational primitives.
pub proof fn law_growth_is_capped(
    original: NetlistModel,
    original_cells: usize,
    original_registers: usize,
    target_period_ps: u32,
    certificates: spec_fn(RequestModel) -> Option<Seq<EdgeModel>>,
)
    ensures
        retimed(
            original,
            original_cells,
            original_registers,
            target_period_ps,
            certificates,
        ) matches Some(selected) ==> selected == original || fits(
            context_of(original, original_cells, original_registers, target_period_ps),
            selected,
        ),
{
    let context = context_of(original, original_cells, original_registers, target_period_ps);
    let start = first_frontier(context, original, certificates);
    assert(stays(context, original, search_seed(context, original)));
    assert(stays(context, original, start));
    lemma_search_stays(
        context,
        original,
        start,
        start,
        BRIDGE_BUDGET,
        MAX_SEARCH_ROUNDS as nat,
        certificates,
    );
}

/// The search selects only what improves: for a netlist that misses its target
/// strictly in overall period, else data period, else critical registers, else
/// enable fanout; for one that meets it strictly in depth, else critical
/// registers.
pub proof fn law_retiming_improves(
    original: NetlistModel,
    original_cells: usize,
    original_registers: usize,
    target_period_ps: u32,
    certificates: spec_fn(RequestModel) -> Option<Seq<EdgeModel>>,
)
    ensures
        retimed(
            original,
            original_cells,
            original_registers,
            target_period_ps,
            certificates,
        ) matches Some(selected) ==> improves(
            context_of(original, original_cells, original_registers, target_period_ps),
            original,
            selected,
        ),
{
    let context = context_of(original, original_cells, original_registers, target_period_ps);
    let start = first_frontier(context, original, certificates);
    assert(stays(context, original, search_seed(context, original)));
    assert(stays(context, original, start));
    lemma_search_stays(
        context,
        original,
        start,
        start,
        BRIDGE_BUDGET,
        MAX_SEARCH_ROUNDS as nat,
        certificates,
    );
    if let Some(selected) = retimed(
        original,
        original_cells,
        original_registers,
        target_period_ps,
        certificates,
    ) {
        law_congestion_is_monotone(
            profile_of(selected).overall_period_ps,
            burden(selected),
            burden(selected),
            context.baseline,
        );
    }
}

} // verus!
