//! How a retimed netlist comes about: a path of steps, each of which keeps what the
//! design shows.

use vstd::prelude::*;

use crate::carry::law_split_keeps_other_cells;
use crate::carry::split_all;
use crate::certify::reset_between;
use crate::certify::EdgeModel;
use crate::certify::RequestModel;
use crate::chains::best_chain;
use crate::chains::chains_of;
use crate::chains::forward_chains;
use crate::chains::is_whole_move;
use crate::chains::law_chains_move_whole;
use crate::chains::moved_chain;
use crate::constraints::DelaysModel;
use crate::constraints::MappingOptions;
use crate::copies::law_muxes_keep_shown;
use crate::copies::law_replicas_keep_shown;
use crate::cuts::LUT_INPUTS;
use crate::cuts::WIDE_LUT_INPUTS;
use crate::equivalence::is_countable;
use crate::equivalence::law_mapping_keeps_functions;
use crate::equivalence::nets_agree;
use crate::equivalence::shows;
use crate::errors::MappingFault;
use crate::ir::NetId;
use crate::ir::Netlist;
use crate::mapping::candidate_of;
use crate::mapping::conservative_candidate;
use crate::mapping::first_selection;
use crate::mapping::mapped_for_period;
use crate::mapping::mapped_once;
use crate::mapping::wide_candidate;
use crate::meaning::cells_agree;
use crate::merge::duplicates_of;
use crate::merge::lemma_merge_shrinks;
use crate::merge::merged;
use crate::merge::merged_once;
use crate::merge::moved_loads;
use crate::merge::Duplicate;
use crate::moved_forward::named_once;
use crate::netlist::drives_once;
use crate::netlist::first_named;
use crate::netlist::maximum_wire;
use crate::netlist::pruned;
use crate::netlist::pruned_once;
use crate::netlist::ClockModel;
use crate::netlist::NetlistModel;
use crate::profile::profile_of;
use crate::replicate::replicated_enables;
use crate::retime_ccu::backward_ccu_cells;
use crate::retime_ccu::backward_ccu_move;
use crate::retime_ccu::backward_ccu_request;
use crate::retime_ccu::backward_ccu_sources;
use crate::retime_ccu::backward_ccu_wires;
use crate::retime_ccu::backward_move;
use crate::retime_ccu::boundaries_covered;
use crate::retime_ccu::ccu_can_move_forward;
use crate::retime_ccu::ccu_of;
use crate::retime_ccu::cone_graph;
use crate::retime_ccu::forward_ccu_cells;
use crate::retime_ccu::forward_ccu_move;
use crate::retime_ccu::forward_ccu_request;
use crate::retime_ccu::forward_ccu_values;
use crate::retime_ccu::moving_pins;
use crate::retime_ccu::wire_resets;
use crate::retime_lut::backward_lut_cells;
use crate::retime_lut::backward_lut_move;
use crate::retime_lut::backward_lut_request;
use crate::retime_lut::backward_lut_sources;
use crate::retime_lut::can_move_forward;
use crate::retime_lut::covers;
use crate::retime_lut::forward_lut_cells;
use crate::retime_lut::forward_lut_move;
use crate::retime_lut::forward_lut_request;
use crate::retime_lut::one_more_move;
use crate::rewired::law_split_keeps_shown;
use crate::rewired::lemma_wiring_alike;
use crate::search::batch_moves;
use crate::search::batch_step;
use crate::search::better_of;
use crate::search::ccu_bridge;
use crate::search::ccu_endpoint_names;
use crate::search::ccu_moves;
use crate::search::ccu_step;
use crate::search::choose_next;
use crate::search::context_of;
use crate::search::critical_registers;
use crate::search::first_frontier;
use crate::search::names_at;
use crate::search::retimed;
use crate::search::search;
use crate::search::search_seed;
use crate::search::single_move;
use crate::search::worst_ccu_period;
use crate::search::BRIDGE_BUDGET;
use crate::search::MAX_ENABLE_FANOUT_PER_REPLICA;
use crate::search::MAX_SEARCH_ROUNDS;
use crate::search::SearchContext;
use crate::search::SearchEnd;
use crate::shown::is_run;
use crate::shown::is_well_driven;
use crate::shown::keeps_shown;
use crate::shown::law_pruning_keeps_shown;
use crate::shown::law_pruning_keeps_wiring;
use crate::shown::law_shown_alike;
use crate::shown::law_shown_is_kept;
use crate::shown::law_shown_is_kept_along;
use crate::shown::law_well_driven_drives_once;
use crate::shown::lemma_run_before;
use crate::shown::shows_same;
use crate::shown_back::ccu_resets_hold;
use crate::shown_back::law_backward_ccu_keeps_shown;
use crate::shown_back::law_backward_ccu_keeps_wiring;
use crate::shown_back::law_backward_lut_keeps_shown;
use crate::shown_back::law_backward_lut_keeps_wiring;
use crate::shown_back::lut_resets_hold;
use crate::shown_forward::forward_resets_hold;
use crate::shown_forward::law_forward_ccu_keeps_shown;
use crate::shown_forward::law_forward_ccu_keeps_wiring;
use crate::shown_forward::law_forward_lut_keeps_shown;
use crate::shown_forward::law_forward_lut_keeps_wiring;
use crate::shown_forward::lut_forward_holds;
use crate::shown_share::law_sharing_keeps_shown;
use crate::shown_share::law_sharing_keeps_wiring;
use crate::wide_mux::with_l6_muxes;
use crate::wide_mux::with_pfu_muxes;
use crate::widened::lemma_pfu_ports;
use crate::wired::law_mapping_is_well_driven;
use crate::wired_logic::has_one_source;
use crate::wires::sorted_wires;

verus! {

/// Whether `after` is `before` with the register at `index` moved back across a
/// lookup table under a certificate.
pub open spec fn moves_back_across_lut(
    before: NetlistModel,
    after: NetlistModel,
    index: int,
    certificates: spec_fn(RequestModel) -> Option<Seq<EdgeModel>>,
) -> bool {
    &&& backward_lut_sources(before, index) matches Some((register, lut))
    &&& backward_lut_request(before, index) matches Some(request)
    &&& certificates(request) matches Some(edges)
    &&& covers(edges, sorted_wires(before.cells[lut]->Lut4_inputs@).len())
    &&& maximum_wire(before) matches Some(wire)
    &&& wire + 1 + sorted_wires(before.cells[lut]->Lut4_inputs@).len() <= u32::MAX
    &&& after == (NetlistModel {
        cells: backward_lut_cells(before, index, register, lut, (wire + 1) as u32, edges),
        proof: one_more_move(before.proof),
        ..before
    })
}

/// Whether `after` is `before` with the register at `index` moved back across a
/// carry primitive under a certificate.
pub open spec fn moves_back_across_ccu(
    before: NetlistModel,
    after: NetlistModel,
    index: int,
    certificates: spec_fn(RequestModel) -> Option<Seq<EdgeModel>>,
) -> bool {
    &&& backward_ccu_sources(before, index) matches Some((register, at, output))
    &&& backward_ccu_request(before, index) matches Some(request)
    &&& certificates(request) matches Some(edges)
    &&& boundaries_covered(cone_graph(ccu_of(before.cells[at]), output).boundaries, edges)
    &&& maximum_wire(before) matches Some(wire)
    &&& wire + 1 + backward_ccu_wires(ccu_of(before.cells[at]), output) <= u32::MAX
    &&& after == (NetlistModel {
        cells: backward_ccu_cells(
            before,
            index,
            register,
            at,
            output,
            (wire + 1) as u32,
            edges,
        ),
        proof: one_more_move(before.proof),
        ..before
    })
}

/// Whether `after` is `before` with registers moved forward across the carry
/// primitive at `index` under a certificate.
pub open spec fn moves_forward_across_ccu(
    before: NetlistModel,
    after: NetlistModel,
    index: int,
    certificates: spec_fn(RequestModel) -> Option<Seq<EdgeModel>>,
) -> bool {
    let ccu = ccu_of(before.cells[index]);
    &&& ccu_can_move_forward(before, index)
    &&& forward_ccu_request(before, index) matches Some(request)
    &&& certificates(request) matches Some(edges)
    &&& forward_ccu_values(
        ccu,
        wire_resets(before, sorted_wires(moving_pins(ccu))),
        edges,
    ) matches Some(values)
    &&& maximum_wire(before) matches Some(wire)
    &&& wire + 3 <= u32::MAX
    &&& forward_ccu_cells(before, index, (wire + 1) as u32, values) matches Some(cells)
    &&& after == (NetlistModel { cells, proof: one_more_move(before.proof), ..before })
}

/// Whether `after` is `before` with registers moved forward across the lookup table
/// at `index` under a certificate.
pub open spec fn moves_forward_across_lut(
    before: NetlistModel,
    after: NetlistModel,
    index: int,
    certificates: spec_fn(RequestModel) -> Option<Seq<EdgeModel>>,
) -> bool {
    let count = sorted_wires(before.cells[index]->Lut4_inputs@).len() as int;
    &&& can_move_forward(before, index)
    &&& forward_lut_request(before, index) matches Some(request)
    &&& certificates(request) matches Some(edges)
    &&& reset_between(edges, count, count + 1) matches Some(value)
    &&& maximum_wire(before) matches Some(wire)
    &&& wire < u32::MAX
    &&& forward_lut_cells(before, index, (wire + 1) as u32, value) matches Some(cells)
    &&& after == (NetlistModel { cells, proof: one_more_move(before.proof), ..before })
}

/// Whether `after` comes from `before` by one step: a certified move, pruning of
/// unobservable cells, a round of sharing equal registers, splitting of carry
/// branches, replication of enable drivers, or placing of dedicated muxes.
#[verifier::opaque]
pub open spec fn is_step(
    before: NetlistModel,
    after: NetlistModel,
    certificates: spec_fn(RequestModel) -> Option<Seq<EdgeModel>>,
) -> bool {
    ||| exists|index: int| #[trigger] moves_back_across_lut(before, after, index, certificates)
    ||| exists|index: int| #[trigger] moves_back_across_ccu(before, after, index, certificates)
    ||| exists|index: int| #[trigger] moves_forward_across_ccu(before, after, index, certificates)
    ||| exists|index: int| #[trigger] moves_forward_across_lut(before, after, index, certificates)
    ||| after == pruned_once(before)
    ||| after == merged_once(before)
    ||| after == split_all(before).0
    ||| after == replicated_enables(before, MAX_ENABLE_FANOUT_PER_REPLICA)
    ||| after == with_l6_muxes(with_pfu_muxes(before))
}

/// Whether `after` comes from `before` by what the search does at once.
pub open spec fn is_stride(
    before: NetlistModel,
    after: NetlistModel,
    certificates: spec_fn(RequestModel) -> Option<Seq<EdgeModel>>,
) -> bool {
    ||| exists|register: int| #[trigger]
        backward_move(before, register, certificates) == Some(after)
    ||| exists|register: int| #[trigger]
        backward_ccu_move(before, register, certificates) == Some(after)
    ||| exists|index: int| #[trigger] forward_ccu_move(before, index, certificates) == Some(after)
    ||| exists|index: int| #[trigger] forward_lut_move(before, index, certificates) == Some(after)
    ||| after == merged(before)
    ||| after == split_all(before).0
    ||| after == replicated_enables(before, MAX_ENABLE_FANOUT_PER_REPLICA)
    ||| after == with_l6_muxes(with_pfu_muxes(before))
}

/// Whether each netlist of `path` comes from the one before it by one step.
pub open spec fn is_path(
    path: Seq<NetlistModel>,
    certificates: spec_fn(RequestModel) -> Option<Seq<EdgeModel>>,
) -> bool {
    path.len() > 0 && forall|i: int|
        0 <= i < path.len() - 1 ==> is_step(#[trigger] path[i], path[i + 1], certificates)
}

/// Whether steps lead from `before` to `after`.
pub open spec fn leads_to(
    before: NetlistModel,
    after: NetlistModel,
    certificates: spec_fn(RequestModel) -> Option<Seq<EdgeModel>>,
) -> bool {
    exists|path: Seq<NetlistModel>| #[trigger]
        is_path(path, certificates) && path[0] == before && path[path.len() - 1] == after
}

/// A netlist leads to itself.
pub proof fn lemma_stays(
    netlist: NetlistModel,
    certificates: spec_fn(RequestModel) -> Option<Seq<EdgeModel>>,
)
    ensures
        leads_to(netlist, netlist, certificates),
{
    assert(is_path(seq![netlist], certificates));
}

proof fn lemma_one_step(
    before: NetlistModel,
    middle: NetlistModel,
    after: NetlistModel,
    certificates: spec_fn(RequestModel) -> Option<Seq<EdgeModel>>,
)
    requires
        leads_to(before, middle, certificates),
        is_step(middle, after, certificates),
    ensures
        leads_to(before, after, certificates),
{
    let path = choose|path: Seq<NetlistModel>| #[trigger]
        is_path(path, certificates) && path[0] == before && path[path.len() - 1] == middle;
    let longer = path.push(after);
    assert forall|i: int| 0 <= i < longer.len() - 1 implies is_step(
        #[trigger] longer[i],
        longer[i + 1],
        certificates,
    ) by {
        if i < path.len() - 1 {
            assert(is_step(path[i], path[i + 1], certificates));
        }
    }
    assert(is_path(longer, certificates));
}

#[verifier::rlimit(40)]
proof fn lemma_joined(
    before: NetlistModel,
    middle: NetlistModel,
    after: NetlistModel,
    certificates: spec_fn(RequestModel) -> Option<Seq<EdgeModel>>,
)
    requires
        leads_to(before, middle, certificates),
        leads_to(middle, after, certificates),
    ensures
        leads_to(before, after, certificates),
{
    let first = choose|path: Seq<NetlistModel>| #[trigger]
        is_path(path, certificates) && path[0] == before && path[path.len() - 1] == middle;
    let second = choose|path: Seq<NetlistModel>| #[trigger]
        is_path(path, certificates) && path[0] == middle && path[path.len() - 1] == after;
    let joined = first + second.skip(1);
    assert forall|i: int| 0 <= i < joined.len() - 1 implies is_step(
        #[trigger] joined[i],
        joined[i + 1],
        certificates,
    ) by {
        if i < first.len() - 1 {
            assert(is_step(first[i], first[i + 1], certificates));
        } else {
            let k = i - (first.len() - 1);
            assert(joined[i] == second[k]);
            assert(joined[i + 1] == second[k + 1]);
            assert(is_step(second[k], second[k + 1], certificates));
        }
    }
    assert(is_path(joined, certificates));
}

proof fn lemma_pruned_leads(
    netlist: NetlistModel,
    certificates: spec_fn(RequestModel) -> Option<Seq<EdgeModel>>,
)
    ensures
        leads_to(netlist, pruned(netlist), certificates),
    decreases netlist.cells.len(),
{
    reveal(is_step);
    lemma_stays(netlist, certificates);
    let once = pruned_once(netlist);
    if once.cells.len() < netlist.cells.len() {
        lemma_one_step(netlist, netlist, once, certificates);
        lemma_pruned_leads(once, certificates);
        lemma_joined(netlist, once, pruned(netlist), certificates);
    }
}

proof fn lemma_merged_leads(
    netlist: NetlistModel,
    certificates: spec_fn(RequestModel) -> Option<Seq<EdgeModel>>,
)
    ensures
        leads_to(netlist, merged(netlist), certificates),
    decreases netlist.cells.len(),
{
    reveal(is_step);
    lemma_stays(netlist, certificates);
    if duplicates_of(netlist).len() > 0 {
        let once = merged_once(netlist);
        lemma_merge_shrinks(netlist);
        lemma_one_step(netlist, netlist, once, certificates);
        lemma_merged_leads(once, certificates);
        lemma_joined(netlist, once, merged(netlist), certificates);
    }
}

#[verifier::rlimit(40)]
proof fn lemma_back_leads(
    before: NetlistModel,
    after: NetlistModel,
    index: int,
    certificates: spec_fn(RequestModel) -> Option<Seq<EdgeModel>>,
)
    requires
        backward_lut_move(before, index, certificates) == Some(after) || backward_ccu_move(
            before,
            index,
            certificates,
        ) == Some(after),
    ensures
        leads_to(before, after, certificates),
{
    reveal(is_step);
    reveal(backward_lut_move);
    reveal(backward_ccu_move);
    lemma_stays(before, certificates);
    let first = (maximum_wire(before)->0 + 1) as u32;
    let proof_after = one_more_move(before.proof);
    if backward_lut_move(before, index, certificates) == Some(after) {
        let edges = certificates(backward_lut_request(before, index)->0)->0;
        let (register, lut) = backward_lut_sources(before, index)->0;
        let raw = NetlistModel {
            cells: backward_lut_cells(before, index, register, lut, first, edges),
            proof: proof_after,
            ..before
        };
        assert(moves_back_across_lut(before, raw, index, certificates));
        lemma_one_step(before, before, raw, certificates);
        lemma_pruned_leads(raw, certificates);
        lemma_joined(before, raw, after, certificates);
    } else {
        let edges = certificates(backward_ccu_request(before, index)->0)->0;
        let (register, at, output) = backward_ccu_sources(before, index)->0;
        let raw = NetlistModel {
            cells: backward_ccu_cells(before, index, register, at, output, first, edges),
            proof: proof_after,
            ..before
        };
        assert(moves_back_across_ccu(before, raw, index, certificates));
        lemma_one_step(before, before, raw, certificates);
        lemma_pruned_leads(raw, certificates);
        lemma_joined(before, raw, after, certificates);
    }
}

/// What the search does at once leads on.
#[verifier::rlimit(40)]
pub proof fn lemma_stride(
    before: NetlistModel,
    middle: NetlistModel,
    after: NetlistModel,
    certificates: spec_fn(RequestModel) -> Option<Seq<EdgeModel>>,
)
    requires
        leads_to(before, middle, certificates),
        is_stride(middle, after, certificates),
    ensures
        leads_to(before, after, certificates),
{
    reveal(is_step);
    if exists|register: int| #[trigger]
        backward_move(middle, register, certificates) == Some(after) {
        let register = choose|register: int| #[trigger]
            backward_move(middle, register, certificates) == Some(after);
        reveal(backward_move);
        lemma_back_leads(middle, after, register, certificates);
        lemma_joined(before, middle, after, certificates);
    } else if exists|register: int| #[trigger]
        backward_ccu_move(middle, register, certificates) == Some(after) {
        let register = choose|register: int| #[trigger]
            backward_ccu_move(middle, register, certificates) == Some(after);
        lemma_back_leads(middle, after, register, certificates);
        lemma_joined(before, middle, after, certificates);
    } else if exists|index: int| #[trigger]
        forward_ccu_move(middle, index, certificates) == Some(after) {
        let index = choose|index: int| #[trigger]
            forward_ccu_move(middle, index, certificates) == Some(after);
        reveal(forward_ccu_move);
        assert(moves_forward_across_ccu(middle, after, index, certificates));
        lemma_one_step(before, middle, after, certificates);
    } else if exists|index: int| #[trigger]
        forward_lut_move(middle, index, certificates) == Some(after) {
        let index = choose|index: int| #[trigger]
            forward_lut_move(middle, index, certificates) == Some(after);
        reveal(forward_lut_move);
        let edges = certificates(forward_lut_request(middle, index)->0)->0;
        let count = sorted_wires(middle.cells[index]->Lut4_inputs@).len() as int;
        let raw = NetlistModel {
            cells: forward_lut_cells(
                middle,
                index,
                (maximum_wire(middle)->0 + 1) as u32,
                reset_between(edges, count, count + 1)->0,
            )->0,
            proof: one_more_move(middle.proof),
            ..middle
        };
        assert(moves_forward_across_lut(middle, raw, index, certificates));
        lemma_one_step(before, middle, raw, certificates);
        lemma_pruned_leads(raw, certificates);
        lemma_joined(before, raw, after, certificates);
    } else if after == merged(middle) {
        lemma_merged_leads(middle, certificates);
        lemma_joined(before, middle, after, certificates);
    } else {
        lemma_one_step(before, middle, after, certificates);
    }
}

proof fn lemma_chain_leads(
    netlist: NetlistModel,
    chain: Seq<Seq<char>>,
    count: nat,
    certificates: spec_fn(RequestModel) -> Option<Seq<EdgeModel>>,
)
    ensures
        moved_chain(netlist, chain, count, certificates) matches Some(moved) ==> leads_to(
            netlist,
            moved,
            certificates,
        ),
    decreases count,
{
    if count == 0 {
        lemma_stays(netlist, certificates);
    } else if let Some(moved) = moved_chain(netlist, chain, count, certificates) {
        let last = (count - 1) as nat;
        lemma_chain_leads(netlist, chain, last, certificates);
        let rest = moved_chain(netlist, chain, last, certificates)->0;
        let index = first_named(rest.cells, chain[last as int])->0;
        assert(forward_ccu_move(rest, index, certificates) == Some(moved));
        lemma_stride(netlist, rest, moved, certificates);
    }
}

proof fn lemma_forward_leads(
    netlist: NetlistModel,
    rounds: nat,
    timing_driven: bool,
    baseline: u64,
    certificates: spec_fn(RequestModel) -> Option<Seq<EdgeModel>>,
)
    ensures
        leads_to(
            netlist,
            forward_chains(netlist, rounds, timing_driven, baseline, certificates),
            certificates,
        ),
    decreases rounds,
{
    lemma_stays(netlist, certificates);
    if rounds > 0 {
        let chains = chains_of(netlist.cells);
        law_chains_move_whole(
            netlist,
            chains,
            chains.len(),
            timing_driven,
            baseline,
            certificates,
        );
        if let Some(best) = best_chain(
            netlist,
            chains,
            chains.len(),
            timing_driven,
            baseline,
            certificates,
        ) {
            assert(is_whole_move(netlist, chains, chains.len(), best, certificates));
            let i = choose|i: int|
                0 <= i < chains.len() && moved_chain(
                    netlist,
                    #[trigger] chains[i],
                    chains[i].len(),
                    certificates,
                ) == Some(best);
            lemma_chain_leads(netlist, chains[i], chains[i].len(), certificates);
            lemma_forward_leads(
                best,
                (rounds - 1) as nat,
                timing_driven,
                baseline,
                certificates,
            );
            lemma_joined(
                netlist,
                best,
                forward_chains(
                    best,
                    (rounds - 1) as nat,
                    timing_driven,
                    baseline,
                    certificates,
                ),
                certificates,
            );
        }
    }
}

#[verifier::rlimit(40)]
proof fn lemma_batch_leads(
    context: SearchContext,
    frontier: NetlistModel,
    names: Seq<Seq<char>>,
    count: nat,
    certificates: spec_fn(RequestModel) -> Option<Seq<EdgeModel>>,
)
    ensures
        leads_to(
            frontier,
            batch_moves(context, frontier, names, count, certificates).netlist,
            certificates,
        ),
        leads_to(
            frontier,
            ccu_moves(context, frontier, names, count, certificates).netlist,
            certificates,
        ),
    decreases count,
{
    lemma_stays(frontier, certificates);
    if count > 0 {
        let last = (count - 1) as nat;
        let name = names[last as int];
        lemma_batch_leads(context, frontier, names, last, certificates);
        reveal(batch_step);
        reveal(ccu_step);
        let batch = batch_moves(context, frontier, names, last, certificates).netlist;
        let after = batch_moves(context, frontier, names, count, certificates).netlist;
        if after != batch {
            let register = first_named(batch.cells, name)->0;
            let moved = backward_move(batch, register, certificates)->0;
            lemma_stride(frontier, batch, moved, certificates);
            lemma_stride(frontier, moved, split_all(moved).0, certificates);
        }
        let chain = ccu_moves(context, frontier, names, last, certificates).netlist;
        let next = ccu_moves(context, frontier, names, count, certificates).netlist;
        if next != chain {
            let register = first_named(chain.cells, name)->0;
            let moved = backward_ccu_move(chain, register, certificates)->0;
            lemma_stride(frontier, chain, moved, certificates);
            lemma_stride(frontier, moved, split_all(moved).0, certificates);
        }
    }
}

#[verifier::rlimit(40)]
proof fn lemma_next_leads(
    context: SearchContext,
    frontier: NetlistModel,
    budget: usize,
    certificates: spec_fn(RequestModel) -> Option<Seq<EdgeModel>>,
)
    ensures
        choose_next(context, frontier, budget, certificates).next matches Some(next) ==> leads_to(
            frontier,
            next,
            certificates,
        ),
{
    let profile = profile_of(frontier);
    let critical = critical_registers(context, profile);
    let names = names_at(frontier.cells, critical);
    lemma_stays(frontier, certificates);
    lemma_batch_leads(context, frontier, names, names.len(), certificates);
    let batch = batch_moves(context, frontier, names, names.len(), certificates).netlist;
    lemma_stride(frontier, batch, merged(batch), certificates);
    reveal(single_move);
    if critical.len() == 1 && single_move(
        context,
        frontier,
        critical[0] as int,
        certificates,
    ) is Some {
        let moved = backward_move(frontier, critical[0] as int, certificates)->0;
        lemma_stride(frontier, frontier, moved, certificates);
        lemma_stride(frontier, moved, merged(moved), certificates);
    }
    reveal(ccu_bridge);
    if ccu_bridge(context, frontier, budget, certificates) is Some {
        let period = worst_ccu_period(
            frontier.cells,
            profile.timing_endpoints,
            context.target_period_ps,
        )->0;
        let chains = ccu_endpoint_names(frontier.cells, profile.timing_endpoints, period);
        lemma_batch_leads(context, frontier, chains, chains.len(), certificates);
        let moved = ccu_moves(context, frontier, chains, chains.len(), certificates).netlist;
        lemma_stride(frontier, moved, merged(moved), certificates);
    }
}

proof fn lemma_search_leads(
    context: SearchContext,
    original: NetlistModel,
    frontier: NetlistModel,
    best: NetlistModel,
    budget: usize,
    rounds: nat,
    certificates: spec_fn(RequestModel) -> Option<Seq<EdgeModel>>,
)
    requires
        leads_to(original, frontier, certificates),
        leads_to(original, best, certificates),
    ensures
        match search(context, frontier, best, budget, rounds, certificates) {
            SearchEnd::Reached { netlist } => leads_to(original, netlist, certificates),
            SearchEnd::Exhausted { frontier, best } => leads_to(original, frontier, certificates)
                && leads_to(original, best, certificates),
        },
    decreases rounds,
{
    if rounds > 0 {
        let choice = choose_next(context, frontier, budget, certificates);
        lemma_next_leads(context, frontier, budget, certificates);
        if let Some(next) = choice.next {
            lemma_joined(original, frontier, next, certificates);
            lemma_search_leads(
                context,
                original,
                next,
                better_of(context, best, frontier),
                if choice.is_bridge {
                    (budget - 1) as usize
                } else {
                    budget
                },
                (rounds - 1) as nat,
                certificates,
            );
        }
    }
}

/// What the search selects comes from the original by certified moves and
/// constructive steps alone.
pub proof fn law_retiming_is_a_path(
    original: NetlistModel,
    original_cells: usize,
    original_registers: usize,
    target_period_ps: u32,
    certificates: spec_fn(RequestModel) -> Option<Seq<EdgeModel>>,
)
    ensures
        retimed(
            original,
            original_cells,
            original_registers,
            target_period_ps,
            certificates,
        ) matches Some(selected) ==> leads_to(original, selected, certificates),
{
    let context = context_of(original, original_cells, original_registers, target_period_ps);
    let replicas = replicated_enables(original, MAX_ENABLE_FANOUT_PER_REPLICA);
    lemma_stays(original, certificates);
    lemma_stride(original, original, replicas, certificates);
    lemma_stride(original, replicas, split_all(replicas).0, certificates);
    let seed = search_seed(context, original);
    assert(leads_to(original, seed, certificates));
    let rounds = seed.cells.len();
    let baseline = crate::profile::burden(seed);
    lemma_forward_leads(seed, rounds, context.timing_driven, baseline, certificates);
    let moved = forward_chains(seed, rounds, context.timing_driven, baseline, certificates);
    lemma_joined(original, seed, moved, certificates);
    lemma_stride(original, moved, split_all(moved).0, certificates);
    let start = first_frontier(context, original, certificates);
    assert(leads_to(original, start, certificates));
    lemma_search_leads(
        context,
        original,
        start,
        start,
        BRIDGE_BUDGET,
        MAX_SEARCH_ROUNDS as nat,
        certificates,
    );
    if let SearchEnd::Exhausted { frontier, best } = search(
        context,
        start,
        start,
        BRIDGE_BUDGET,
        MAX_SEARCH_ROUNDS as nat,
        certificates,
    ) {
        let chosen = better_of(context, best, frontier);
        lemma_stride(
            original,
            chosen,
            replicated_enables(chosen, MAX_ENABLE_FANOUT_PER_REPLICA),
            certificates,
        );
    }
}

/// Whether two netlists have the same ports, whatever wires they connect to.
pub open spec fn same_interface(a: NetlistModel, b: NetlistModel) -> bool {
    a.ports.len() == b.ports.len() && forall|p: int|
        0 <= p < a.ports.len() ==> (#[trigger] a.ports[p]).name == b.ports[p].name
            && a.ports[p].direction == b.ports[p].direction && a.ports[p].bits.len()
            == b.ports[p].bits.len()
}

proof fn lemma_moved_interface(netlist: NetlistModel, duplicates: Seq<Duplicate>, count: nat)
    ensures
        same_interface(netlist, moved_loads(netlist, duplicates, count)),
    decreases count,
{
    if count > 0 {
        lemma_moved_interface(netlist, duplicates, (count - 1) as nat);
        let rest = moved_loads(netlist, duplicates, (count - 1) as nat);
        let after = moved_loads(netlist, duplicates, count);
        assert forall|p: int| 0 <= p < netlist.ports.len() implies (
        #[trigger] netlist.ports[p]).name == after.ports[p].name && netlist.ports[p].direction
            == after.ports[p].direction && netlist.ports[p].bits.len()
            == after.ports[p].bits.len() by {
            assert(netlist.ports[p].name == rest.ports[p].name);
        }
    }
}

proof fn lemma_interface_joined(a: NetlistModel, b: NetlistModel, c: NetlistModel)
    requires
        same_interface(a, b),
        same_interface(b, c),
    ensures
        same_interface(a, c),
{
    assert forall|p: int| 0 <= p < a.ports.len() implies (#[trigger] a.ports[p]).name
        == c.ports[p].name && a.ports[p].direction == c.ports[p].direction
        && a.ports[p].bits.len() == c.ports[p].bits.len() by {
        assert(b.ports[p].name == c.ports[p].name);
    }
}

/// Every step keeps the interface.
#[verifier::rlimit(40)]
pub proof fn law_steps_keep_the_interface(
    before: NetlistModel,
    after: NetlistModel,
    certificates: spec_fn(RequestModel) -> Option<Seq<EdgeModel>>,
)
    requires
        is_step(before, after, certificates),
    ensures
        same_interface(before, after),
{
    reveal(is_step);
    lemma_moved_interface(before, duplicates_of(before), duplicates_of(before).len());
    law_split_keeps_other_cells(before);
    lemma_pfu_ports(before);
}

proof fn lemma_path_interface(
    path: Seq<NetlistModel>,
    certificates: spec_fn(RequestModel) -> Option<Seq<EdgeModel>>,
    last: int,
)
    requires
        is_path(path, certificates),
        0 <= last < path.len(),
    ensures
        same_interface(path[0], path[last]),
    decreases last,
{
    if last > 0 {
        lemma_path_interface(path, certificates, last - 1);
        assert(is_step(path[last - 1], path[last], certificates));
        law_steps_keep_the_interface(path[last - 1], path[last], certificates);
        lemma_interface_joined(path[0], path[last - 1], path[last]);
    }
}

/// Whether every certificate gives resets from which the moved logic makes the old
/// ones.
pub open spec fn certificates_hold(
    certificates: spec_fn(RequestModel) -> Option<Seq<EdgeModel>>,
) -> bool {
    &&& forall|netlist: NetlistModel, index: int|
        #![trigger backward_lut_request(netlist, index)]
        backward_lut_request(netlist, index) matches Some(request) ==> (certificates(
            request,
        ) matches Some(edges) ==> lut_resets_hold(netlist, index, edges))
    &&& forall|netlist: NetlistModel, index: int|
        #![trigger backward_ccu_request(netlist, index)]
        backward_ccu_request(netlist, index) matches Some(request) ==> (certificates(
            request,
        ) matches Some(edges) ==> ccu_resets_hold(netlist, index, edges))
    &&& forall|netlist: NetlistModel, index: int|
        #![trigger forward_ccu_request(netlist, index)]
        forward_ccu_request(netlist, index) matches Some(request) ==> (certificates(
            request,
        ) matches Some(edges) ==> forward_certificate_holds(netlist, index, edges))
    &&& forall|netlist: NetlistModel, index: int|
        #![trigger forward_lut_request(netlist, index)]
        forward_lut_request(netlist, index) matches Some(request) ==> (certificates(
            request,
        ) matches Some(edges) ==> lut_certificate_holds(netlist, index, edges))
}

/// Whether the resets certified for a move forward are what the primitive makes of
/// the old ones.
pub open spec fn forward_certificate_holds(
    netlist: NetlistModel,
    index: int,
    edges: Seq<EdgeModel>,
) -> bool {
    let ccu = ccu_of(netlist.cells[index]);
    forward_ccu_values(
        ccu,
        wire_resets(netlist, sorted_wires(moving_pins(ccu))),
        edges,
    ) matches Some(values) ==> forward_resets_hold(netlist, index, values)
}

/// Whether the reset certified for a move forward is what the table makes of the old
/// ones.
pub open spec fn lut_certificate_holds(
    netlist: NetlistModel,
    index: int,
    edges: Seq<EdgeModel>,
) -> bool {
    let count = sorted_wires(netlist.cells[index]->Lut4_inputs@).len() as int;
    reset_between(edges, count, count + 1) matches Some(value) ==> lut_forward_holds(
        netlist,
        index,
        value,
    )
}

/// Whether a move forward, which looks its cell up by name, finds that cell: no other
/// cell bears the name.
pub open spec fn finds_its_cell(
    before: NetlistModel,
    after: NetlistModel,
    certificates: spec_fn(RequestModel) -> Option<Seq<EdgeModel>>,
) -> bool {
    &&& forall|index: int| #[trigger]
        moves_forward_across_ccu(before, after, index, certificates) ==> named_once(
            before.cells,
            index,
        )
    &&& forall|index: int| #[trigger]
        moves_forward_across_lut(before, after, index, certificates) ==> named_once(
            before.cells,
            index,
        )
}

/// Every step leaves a netlist wired up: each wire has one driver, what is read is
/// driven, and no box bears the name of a moved cell.
#[verifier::rlimit(40)]
pub proof fn law_steps_keep_wiring(
    before: NetlistModel,
    after: NetlistModel,
    certificates: spec_fn(RequestModel) -> Option<Seq<EdgeModel>>,
)
    requires
        is_well_driven(before),
        is_step(before, after, certificates),
        finds_its_cell(before, after, certificates),
    ensures
        is_well_driven(after),
        drives_once(after),
{
    reveal(is_step);
    let first = (maximum_wire(before)->0 + 1) as u32;
    if exists|index: int| #[trigger] moves_back_across_lut(before, after, index, certificates) {
        let index = choose|index: int| #[trigger]
            moves_back_across_lut(before, after, index, certificates);
        let (register, lut) = backward_lut_sources(before, index)->0;
        let edges = certificates(backward_lut_request(before, index)->0)->0;
        law_backward_lut_keeps_wiring(before, after, index, register, lut, first, edges);
    } else if exists|index: int| #[trigger]
        moves_back_across_ccu(before, after, index, certificates) {
        let index = choose|index: int| #[trigger]
            moves_back_across_ccu(before, after, index, certificates);
        let (register, at, output) = backward_ccu_sources(before, index)->0;
        let edges = certificates(backward_ccu_request(before, index)->0)->0;
        law_backward_ccu_keeps_wiring(before, after, index, register, at, output, first, edges);
    } else if exists|index: int| #[trigger]
        moves_forward_across_ccu(before, after, index, certificates) {
        let index = choose|index: int| #[trigger]
            moves_forward_across_ccu(before, after, index, certificates);
        let ccu = ccu_of(before.cells[index]);
        let values = forward_ccu_values(
            ccu,
            wire_resets(before, sorted_wires(moving_pins(ccu))),
            certificates(forward_ccu_request(before, index)->0)->0,
        )->0;
        law_forward_ccu_keeps_wiring(before, after, index, first, values);
    } else if exists|index: int| #[trigger]
        moves_forward_across_lut(before, after, index, certificates) {
        let index = choose|index: int| #[trigger]
            moves_forward_across_lut(before, after, index, certificates);
        let count = sorted_wires(before.cells[index]->Lut4_inputs@).len() as int;
        let edges = certificates(forward_lut_request(before, index)->0)->0;
        let value = reset_between(edges, count, count + 1)->0;
        law_forward_lut_keeps_wiring(before, after, index, first, value);
    } else {
        law_pruning_keeps_wiring(before);
        law_sharing_keeps_wiring(before);
        law_split_keeps_shown(before);
        law_replicas_keep_shown(before, MAX_ENABLE_FANOUT_PER_REPLICA);
        law_muxes_keep_shown(before);
    }
    law_well_driven_drives_once(after);
}

/// Every step keeps what is shown, where certificates hold.
#[verifier::rlimit(40)]
pub proof fn law_steps_keep_shown(
    before: NetlistModel,
    after: NetlistModel,
    certificates: spec_fn(RequestModel) -> Option<Seq<EdgeModel>>,
)
    requires
        is_well_driven(before),
        certificates_hold(certificates),
        is_step(before, after, certificates),
        finds_its_cell(before, after, certificates),
    ensures
        keeps_shown(before, after),
{
    reveal(is_step);
    let first = (maximum_wire(before)->0 + 1) as u32;
    if exists|index: int| #[trigger] moves_back_across_lut(before, after, index, certificates) {
        let index = choose|index: int| #[trigger]
            moves_back_across_lut(before, after, index, certificates);
        let (register, lut) = backward_lut_sources(before, index)->0;
        let edges = certificates(backward_lut_request(before, index)->0)->0;
        law_backward_lut_keeps_shown(before, after, index, register, lut, first, edges);
    } else if exists|index: int| #[trigger]
        moves_back_across_ccu(before, after, index, certificates) {
        let index = choose|index: int| #[trigger]
            moves_back_across_ccu(before, after, index, certificates);
        let (register, at, output) = backward_ccu_sources(before, index)->0;
        let edges = certificates(backward_ccu_request(before, index)->0)->0;
        law_backward_ccu_keeps_shown(before, after, index, register, at, output, first, edges);
    } else if exists|index: int| #[trigger]
        moves_forward_across_ccu(before, after, index, certificates) {
        let index = choose|index: int| #[trigger]
            moves_forward_across_ccu(before, after, index, certificates);
        let ccu = ccu_of(before.cells[index]);
        let values = forward_ccu_values(
            ccu,
            wire_resets(before, sorted_wires(moving_pins(ccu))),
            certificates(forward_ccu_request(before, index)->0)->0,
        )->0;
        law_forward_ccu_keeps_shown(before, after, index, first, values);
    } else if exists|index: int| #[trigger]
        moves_forward_across_lut(before, after, index, certificates) {
        let index = choose|index: int| #[trigger]
            moves_forward_across_lut(before, after, index, certificates);
        let count = sorted_wires(before.cells[index]->Lut4_inputs@).len() as int;
        let edges = certificates(forward_lut_request(before, index)->0)->0;
        let value = reset_between(edges, count, count + 1)->0;
        law_forward_lut_keeps_shown(before, after, index, first, value);
    } else {
        law_pruning_keeps_shown(before);
        law_sharing_keeps_shown(before);
        law_split_keeps_shown(before);
        law_replicas_keep_shown(before, MAX_ENABLE_FANOUT_PER_REPLICA);
        law_muxes_keep_shown(before);
    }
}

/// Whether every move forward on a path finds its cell.
pub open spec fn finds_its_cells(
    path: Seq<NetlistModel>,
    certificates: spec_fn(RequestModel) -> Option<Seq<EdgeModel>>,
) -> bool {
    forall|i: int|
        0 <= i < path.len() - 1 ==> finds_its_cell(#[trigger] path[i], path[i + 1], certificates)
}

/// From a netlist that is wired up, a path keeps what is shown and the wiring.
pub proof fn law_paths_keep_shown(
    path: Seq<NetlistModel>,
    certificates: spec_fn(RequestModel) -> Option<Seq<EdgeModel>>,
    last: int,
)
    requires
        is_path(path, certificates),
        certificates_hold(certificates),
        is_well_driven(path[0]),
        finds_its_cells(path, certificates),
        0 <= last < path.len(),
    ensures
        keeps_shown(path[0], path[last]),
        is_well_driven(path[last]),
    decreases last,
{
    if last == 0 {
        law_shown_is_kept(path[0]);
    } else {
        law_paths_keep_shown(path, certificates, last - 1);
        assert(is_step(path[last - 1], path[last], certificates));
        assert(finds_its_cell(path[last - 1], path[last], certificates));
        law_steps_keep_wiring(path[last - 1], path[last], certificates);
        law_steps_keep_shown(path[last - 1], path[last], certificates);
        law_shown_is_kept_along(path[0], path[last - 1], path[last]);
    }
}

/// Whether a path leads from a cover to a mapping: the mapping has the cells and
/// ports of its end and the interface of its start. Where certificates hold and moves
/// forward find their cells, a cover that is wired up leads to a mapping that is wired
/// up and keeps what the cover shows.
pub open spec fn comes_from(
    cover: NetlistModel,
    mapped: NetlistModel,
    path: Seq<NetlistModel>,
    certificates: spec_fn(RequestModel) -> Option<Seq<EdgeModel>>,
) -> bool {
    &&& is_path(path, certificates)
    &&& path[0] == cover
    &&& mapped.cells == path[path.len() - 1].cells
    &&& mapped.ports == path[path.len() - 1].ports
    &&& same_interface(cover, mapped)
    &&& certificates_hold(certificates) && finds_its_cells(path, certificates) && is_well_driven(
        cover,
    ) ==> keeps_shown(cover, mapped) && is_well_driven(mapped)
}

/// A mapping, retimed or not, comes from a cover of the source by certified moves
/// and constructive steps alone. It has the ports of that cover, and shows what the
/// cover shows: at ports and boxes every run of the mapping is a run of the cover, and
/// every run of the cover one of the mapping. Where every net of the source has one
/// source, every wire of the cover has one driver.
#[verifier::rlimit(40)]
pub proof fn law_mapping_keeps_what_is_shown(
    netlist: Netlist,
    options: MappingOptions,
    delays: DelaysModel,
    period_ps: u32,
    target_ps: u32,
    clocks: Seq<ClockModel>,
    certificates: spec_fn(RequestModel) -> Option<Seq<EdgeModel>>,
)
    ensures
        mapped_for_period(
            netlist,
            options,
            delays,
            period_ps,
            target_ps,
            clocks,
            certificates,
        ) matches Ok(mapped) ==> exists|cover: NetlistModel, path: Seq<NetlistModel>| #[trigger]
            comes_from(cover, mapped, path, certificates) && (mapped_once(
                netlist,
                options,
                period_ps,
                delays,
                LUT_INPUTS as nat,
            ) == Ok::<NetlistModel, MappingFault>(cover) || mapped_once(
                netlist,
                options,
                period_ps,
                delays,
                WIDE_LUT_INPUTS as nat,
            ) == Ok::<NetlistModel, MappingFault>(cover)) && (is_countable(netlist)
                && has_one_source(netlist) ==> is_well_driven(cover)),
{
    if let Ok(mapped) = mapped_for_period(
        netlist,
        options,
        delays,
        period_ps,
        target_ps,
        clocks,
        certificates,
    ) {
        let wide = mapped_once(
            netlist,
            options,
            period_ps,
            delays,
            WIDE_LUT_INPUTS as nat,
        )->Ok_0;
        let narrow = mapped_once(
            netlist,
            options,
            period_ps,
            delays,
            LUT_INPUTS as nat,
        )->Ok_0;
        lemma_stays(wide, certificates);
        lemma_stays(narrow, certificates);
        lemma_stride(wide, wide, wide_candidate(wide), certificates);
        let split = split_all(narrow).0;
        lemma_stride(narrow, narrow, split, certificates);
        lemma_stride(narrow, split, conservative_candidate(narrow), certificates);
        let conservative = conservative_candidate(narrow);
        let first = first_selection(wide_candidate(wide), conservative, period_ps);
        let found = retimed(
            narrow,
            narrow.cells.len() as usize,
            candidate_of(narrow).registers,
            target_ps,
            certificates,
        );
        law_retiming_is_a_path(
            narrow,
            narrow.cells.len() as usize,
            candidate_of(narrow).registers,
            target_ps,
            certificates,
        );
        let selection = crate::mapping::with_retimed(first, conservative, found, period_ps);
        let end = selection.netlist;
        let cover = if !selection.applied && end == wide_candidate(wide) {
            wide
        } else {
            narrow
        };
        if selection.applied {
            let chosen = found->0;
            lemma_stride(narrow, chosen, split_all(chosen).0, certificates);
            lemma_stride(
                narrow,
                split_all(chosen).0,
                conservative_candidate(chosen),
                certificates,
            );
        }
        assert(leads_to(cover, end, certificates));
        let path = choose|path: Seq<NetlistModel>| #[trigger]
            is_path(path, certificates) && path[0] == cover && path[path.len() - 1] == end;
        lemma_path_interface(path, certificates, path.len() - 1);
        if certificates_hold(certificates) && finds_its_cells(path, certificates)
            && is_well_driven(cover) {
            law_paths_keep_shown(path, certificates, path.len() - 1);
            law_shown_alike(end, mapped);
            law_shown_is_kept_along(cover, end, mapped);
            lemma_wiring_alike(end, mapped);
        }
        if is_countable(netlist) && has_one_source(netlist) {
            law_mapping_is_well_driven(netlist, options, period_ps, delays, LUT_INPUTS as nat);
            law_mapping_is_well_driven(
                netlist,
                options,
                period_ps,
                delays,
                WIDE_LUT_INPUTS as nat,
            );
        }
        assert(comes_from(cover, mapped, path, certificates));
    }
}

/// A retimed mapping keeps the functions of a source in which every net has one source.
/// Each of its runs is, at the ports and boxes, a run of the cover, and in every cycle of
/// that run output ports and register inputs carry the values of the source. Each run of
/// the cover is one of the mapping in turn, and every wire of both has one driver.
pub proof fn law_retimed_mapping_keeps_functions(
    netlist: Netlist,
    options: MappingOptions,
    delays: DelaysModel,
    period_ps: u32,
    max_inputs: nat,
    cover: NetlistModel,
    mapped: NetlistModel,
    path: Seq<NetlistModel>,
    certificates: spec_fn(RequestModel) -> Option<Seq<EdgeModel>>,
    run: spec_fn(nat) -> spec_fn(u32) -> bool,
)
    requires
        is_countable(netlist),
        has_one_source(netlist),
        LUT_INPUTS <= max_inputs <= WIDE_LUT_INPUTS,
        mapped_once(netlist, options, period_ps, delays, max_inputs) == Ok::<
            NetlistModel,
            MappingFault,
        >(cover),
        comes_from(cover, mapped, path, certificates),
        certificates_hold(certificates),
        finds_its_cells(path, certificates),
        is_run(run, mapped.cells),
    ensures
        keeps_shown(cover, mapped),
        drives_once(cover) && drives_once(mapped),
        exists|left: spec_fn(nat) -> spec_fn(u32) -> bool|
            is_run(left, cover.cells) && #[trigger] shows_same(left, cover, run, mapped) && forall|
                t: nat,
                nets: spec_fn(NetId) -> bool,
            | #[trigger]
                nets_agree(netlist, left(t), nets) ==> shows(netlist, cover, left(t), nets),
{
    law_mapping_is_well_driven(netlist, options, period_ps, delays, max_inputs);
    law_well_driven_drives_once(mapped);
    let left = lemma_run_before(cover, mapped, run);
    assert forall|t: nat, nets: spec_fn(NetId) -> bool| #[trigger]
        nets_agree(netlist, left(t), nets) implies shows(netlist, cover, left(t), nets) by {
        assert(cells_agree(left(t), cover.cells));
        law_mapping_keeps_functions(
            left(t),
            nets,
            netlist,
            options,
            period_ps,
            delays,
            max_inputs,
        );
    }
}

} // verus!
