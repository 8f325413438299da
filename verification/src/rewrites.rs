//! Physical refinement and fanout constraints keep what is shown.

use vstd::prelude::*;

use crate::cells::cell_inputs;
use crate::cells::cell_outputs;
use crate::cells::renumbered;
use crate::cells::renumbered_bits;
use crate::cells::Bit;
use crate::cells::CellModel;
use crate::certify::reset_between;
use crate::certify::EdgeModel;
use crate::certify::RequestModel;
use crate::cluster::cluster_moved;
use crate::cluster::group_reclustered;
use crate::cluster::groups_reclustered;
use crate::cluster::is_swapped;
use crate::cluster::lemma_groups_below;
use crate::cluster::lut_wire;
use crate::cluster::placed_sinks;
use crate::cluster::reclustered;
use crate::cluster::replica_groups;
use crate::cluster::same_function;
use crate::cluster::shared_enable;
use crate::cluster::sink_before;
use crate::cluster::sorted_sinks;
use crate::cluster::splits_along_x;
use crate::cluster::with_sorted_sink;
use crate::cluster::ClusterModel;
use crate::cluster::SinkModel;
use crate::copies::lemma_chunk_true;
use crate::copies::lemma_exchange_true;
use crate::copies::lemma_with_enables;
use crate::copies::one_mirror;
use crate::critical::branch_replicated;
use crate::critical::branches_replicated;
use crate::critical::critical_replicated;
use crate::critical::driven_wire;
use crate::critical::renamed;
use crate::critical::replicable_driver;
use crate::critical::sink_names;
use crate::critical::sinks_rewired;
use crate::critical::CriticalModel;
use crate::fanout::branch_before;
use crate::fanout::branches_inserted;
use crate::fanout::branches_of;
use crate::fanout::chunks_inserted;
use crate::fanout::constraints_fault;
use crate::fanout::driving_lut;
use crate::fanout::enable_branch;
use crate::fanout::enables_branched;
use crate::fanout::fanout_constrained;
use crate::fanout::fanout_fault;
use crate::fanout::insertion_start;
use crate::fanout::selecting;
use crate::fanout::sinks_moved;
use crate::fanout::with_sink;
use crate::fanout::BranchModel;
use crate::fanout::InsertionModel;
use crate::fanout::RegisterEnableFanoutConstraint;
use crate::fanout::BUFFER_INIT;
use crate::grown::is_buffer;
use crate::grown::is_copy;
use crate::grown::is_exchanged;
use crate::grown::is_rewired;
use crate::grown::lemma_is_run;
use crate::grown::mirrored_bits;
use crate::grown::Growth;
use crate::meaning::cell_agrees;
use crate::meaning::cells_agree;
use crate::memory::lemma_parts;
use crate::memory::part_end;
use crate::memory::parts;
use crate::merge::duplicates_of;
use crate::merge::lemma_merge_shrinks;
use crate::merge::merged;
use crate::merge::merged_once;
use crate::moved_forward::named_once;
use crate::moves::cell_steps;
use crate::moves::cells_step;
use crate::moves::lemma_driving_lut;
use crate::moves::lemma_named_at;
use crate::moves::state_after;
use crate::names::named;
use crate::netlist::first_named;
use crate::netlist::maximum_wire;
use crate::netlist::next_free_wire;
use crate::netlist::pruned;
use crate::netlist::pruned_once;
use crate::netlist::NetlistModel;
use crate::path::certificates_hold;
use crate::path::lut_certificate_holds;
use crate::physical::PhysicalFeedback;
use crate::physical::PhysicalNetTiming;
use crate::refine::backward_candidate;
use crate::refine::cones_retimed;
use crate::refine::finalized;
use crate::refine::forward_candidate;
use crate::refine::new_registers;
use crate::refine::path_luts;
use crate::refine::path_sinks;
use crate::refine::refined;
use crate::refine::refinement_candidates;
use crate::refine::reported_cones_retimed;
use crate::refine::with_backward_candidates;
use crate::refine::with_candidate;
use crate::refine::with_forward_candidates;
use crate::refine::ConesModel;
use crate::renumbered::lemma_renumbered_inputs;
use crate::replicate::enable_signal;
use crate::replicate::with_enable;
use crate::replicate::with_enables;
use crate::retime_ccu::backward_ccu_cells;
use crate::retime_ccu::backward_ccu_move;
use crate::retime_ccu::backward_ccu_request;
use crate::retime_ccu::backward_ccu_sources;
use crate::retime_ccu::backward_move;
use crate::retime_lut::backward_lut_cells;
use crate::retime_lut::backward_lut_move;
use crate::retime_lut::backward_lut_request;
use crate::retime_lut::backward_lut_sources;
use crate::retime_lut::forward_lut_cells;
use crate::retime_lut::forward_lut_move;
use crate::retime_lut::forward_lut_request;
use crate::retime_lut::one_more_move;
use crate::rewired::lemma_enabling;
use crate::rewired::lemma_grows_true;
use crate::rewired::lemma_renumbering;
use crate::rewired::lemma_starts_true;
use crate::rewired::lemma_true_alike;
use crate::rewired::lemma_unchanged;
use crate::rewired::lemma_wiring_alike;
use crate::rewired::stays_true;
use crate::shown::all_below;
use crate::shown::cell_starts;
use crate::shown::drives;
use crate::shown::is_run;
use crate::shown::is_sourced;
use crate::shown::is_well_driven;
use crate::shown::keeps_shown;
use crate::shown::law_pruning_keeps_shown;
use crate::shown::law_pruning_keeps_wiring;
use crate::shown::law_shown_alike;
use crate::shown::law_shown_is_kept;
use crate::shown::law_shown_is_kept_along;
use crate::shown::lemma_all_below;
use crate::shown::lemma_cells_counted;
use crate::shown::reads;
use crate::shown::touches;
use crate::shown_back::law_backward_ccu_keeps_shown;
use crate::shown_back::law_backward_ccu_keeps_wiring;
use crate::shown_back::law_backward_lut_keeps_shown;
use crate::shown_back::law_backward_lut_keeps_wiring;
use crate::shown_forward::law_forward_lut_keeps_shown;
use crate::shown_forward::law_forward_lut_keeps_wiring;
use crate::shown_share::law_sharing_keeps_shown;
use crate::shown_share::law_sharing_keeps_wiring;
use crate::text::decimal_text;
use crate::wires::sorted_wires;

verus! {

/// Whether no lookup table reads what it drives.
pub open spec fn no_table_reads_itself(cells: Seq<CellModel>) -> bool {
    forall|i: int|
        0 <= i < cells.len() && (#[trigger] cells[i]) is Lut4 ==> !reads(
            cells[i],
            cells[i]->Lut4_output,
        )
}

/// Whether `now` is wired up and keeps what `original` shows.
pub open spec fn follows(original: NetlistModel, now: NetlistModel) -> bool {
    is_well_driven(now) && keeps_shown(original, now)
}

/// What follows depends on cells and ports alone.
proof fn lemma_follows_alike(original: NetlistModel, a: NetlistModel, b: NetlistModel)
    requires
        follows(original, a),
        a.cells == b.cells,
        a.ports == b.ports,
    ensures
        follows(original, b),
{
    lemma_wiring_alike(a, b);
    law_shown_alike(a, b);
    law_shown_is_kept_along(original, a, b);
}

/// What follows what follows, follows.
proof fn lemma_follows_along(a: NetlistModel, b: NetlistModel, c: NetlistModel)
    requires
        follows(a, b),
        follows(b, c),
    ensures
        follows(a, c),
{
    law_shown_is_kept_along(a, b, c);
}

/// What holds while late branches are replicated.
spec fn critical_true(original: NetlistModel, state: CriticalModel) -> bool {
    &&& follows(original, state.netlist)
    &&& state.netlist.ports == original.ports
    &&& no_table_reads_itself(state.netlist.cells)
    &&& state.next_wire matches Some(next) ==> next > 0 && all_below(state.netlist, next as int)
}

proof fn lemma_replicable(cells: Seq<CellModel>, name: Seq<char>, from: int)
    requires
        0 <= from,
    ensures
        replicable_driver(cells, name, from) matches Some(at) ==> from <= at < cells.len() && (
        cells[at] is Lut4 || cells[at] is FlipFlop),
    decreases cells.len() - from,
{
    if from < cells.len() {
        lemma_replicable(cells, name, from + 1);
    }
}

/// A driver replicated for its late sinks stays true.
#[verifier::rlimit(60)]
proof fn lemma_branch_grows(
    original: NetlistModel,
    before: NetlistModel,
    driver: int,
    names: Seq<Seq<char>>,
    wire: u32,
    name: Seq<char>,
)
    requires
        stays_true(original, before, wire as int),
        0 < wire < u32::MAX,
        no_table_reads_itself(before.cells),
        0 <= driver < before.cells.len(),
        before.cells[driver] is Lut4 || before.cells[driver] is FlipFlop,
    ensures
        ({
            let output = driven_wire(before.cells[driver]);
            let cells = sinks_rewired(before.cells, names, output, wire).push(
                renamed(before.cells[driver], name, wire),
            );
            stays_true(original, NetlistModel { cells, ..before }, wire + 1)
                && no_table_reads_itself(cells)
        }),
{
    let source = before.cells[driver];
    let output = driven_wire(source);
    let copy = renamed(source, name, wire);
    let moved = sinks_rewired(before.cells, names, output, wire);
    let after = NetlistModel { cells: moved.push(copy), ..before };
    let mirror = one_mirror(wire, output);
    let growth = Growth { mirror, next: wire, source: driver };
    let ours = cell_outputs(copy);
    assert(ours =~= seq![Bit::Wire(wire)]);
    assert(ours[0] == Bit::Wire(wire));
    assert(cell_outputs(source) =~= seq![Bit::Wire(output)]);
    assert(cell_outputs(source)[0] == Bit::Wire(output));
    assert(drives(source, output));
    assert(touches(source, output));
    assert(mirrored_bits(mirror, ours) =~= cell_outputs(source));
    assert forall|i: int| 0 <= i < before.cells.len() implies is_rewired(
        mirror,
        #[trigger] before.cells[i],
        after.cells[i],
    ) by {
        let cell = before.cells[i];
        assert forall|other: u32| #[trigger] touches(cell, other) implies other < wire by {
            assert(touches(before.cells[i], other));
        }
        if names.contains(cell.cell_name()) {
            if cell is Pll {
                assert(!drives(before.cells[i], output));
            }
            lemma_renumbering(mirror, cell, output, wire, wire as int);
        } else {
            lemma_unchanged(mirror, cell, wire as int);
        }
    }
    if source is Lut4 {
        assert(!reads(source, output));
        let bits = cell_inputs(source);
        lemma_renumbered_inputs(source, output, wire);
        assert(renumbered_bits(bits, output, wire) =~= bits) by {
            assert forall|k: int| 0 <= k < bits.len() implies renumbered(
                bits[k],
                output,
                wire,
            ) == #[trigger] bits[k] by {
                assert(bits.contains(bits[k]));
            }
        }
        assert(cell_inputs(after.cells[driver]) == bits);
    }
    assert(is_copy(source, after.cells[driver], copy, growth));
    assert forall|other: u32| #[trigger]
        drives(after.cells[before.cells.len() as int], other) implies other < wire + 1 by {}
    lemma_grows_true(original, before, after, growth, wire + 1);
    assert forall|i: int| 0 <= i < after.cells.len() && (
    #[trigger] after.cells[i]) is Lut4 implies !reads(
        after.cells[i],
        after.cells[i]->Lut4_output,
    ) by {
        if i < before.cells.len() {
            let cell = before.cells[i];
            assert(is_rewired(mirror, before.cells[i], after.cells[i]));
            assert(cell_outputs(cell)[0] == Bit::Wire(cell->Lut4_output));
            assert(cell_outputs(after.cells[i])[0] == Bit::Wire(after.cells[i]->Lut4_output));
            let own = cell->Lut4_output;
            assert(drives(cell, own));
            assert(touches(before.cells[i], own));
            if reads(after.cells[i], own) {
                let bits = cell_inputs(after.cells[i]);
                let k = choose|k: int| 0 <= k < bits.len() && bits[k] == Bit::Wire(own);
                assert(cell_inputs(cell)[k] == Bit::Wire(mirror(own)));
                assert(cell_inputs(cell).contains(cell_inputs(cell)[k]));
                assert(reads(cell, own));
            }
        } else if reads(copy, wire) {
            assert(reads(source, wire));
            assert(touches(before.cells[driver], wire));
        }
    }
}

proof fn lemma_critical_step(
    original: NetlistModel,
    state: CriticalModel,
    timing: PhysicalNetTiming,
)
    requires
        critical_true(original, state),
    ensures
        critical_true(original, branch_replicated(state, timing)),
{
    let cells = state.netlist.cells;
    lemma_replicable(cells, timing.driver@, 0);
    let after = branch_replicated(state, timing);
    if after.netlist != state.netlist {
        let driver = replicable_driver(cells, timing.driver@, 0)->0;
        let wire = state.next_wire->0;
        let names = sink_names(timing.endpoints@, true, timing.endpoints@.len());
        let name = "physical_replicate_"@ + timing.driver@ + "_"@ + decimal_text(state.replicas);
        lemma_branch_grows(original, state.netlist, driver, names, wire, name);
        assert(after.netlist =~= NetlistModel {
            cells: sinks_rewired(cells, names, driven_wire(cells[driver]), wire).push(
                renamed(cells[driver], name, wire),
            ),
            ..state.netlist
        });
    } else if let Some(wire) = state.next_wire {
        if let Some(next) = after.next_wire {
            assert(all_below(after.netlist, next as int));
        }
    }
}

proof fn lemma_critical(
    original: NetlistModel,
    state: CriticalModel,
    timings: Seq<PhysicalNetTiming>,
    count: nat,
)
    requires
        critical_true(original, state),
    ensures
        critical_true(original, branches_replicated(state, timings, count)),
    decreases count,
{
    if count > 0 {
        lemma_critical(original, state, timings, (count - 1) as nat);
        lemma_critical_step(
            original,
            branches_replicated(state, timings, (count - 1) as nat),
            timings[count - 1],
        );
    }
}

/// Whether two lookup tables compute the same and drive these wires.
spec fn are_twins(cells: Seq<CellModel>, a: int, b: int, first: u32, second: u32) -> bool {
    &&& 0 <= a < cells.len()
    &&& 0 <= b < cells.len()
    &&& same_function(cells[a], cells[b])
    &&& lut_wire(cells[a]) == first
    &&& lut_wire(cells[b]) == second
}

/// Whether a flip-flop's enable is one of two wires.
spec fn is_shared(cells: Seq<CellModel>, index: int, first: u32, second: u32) -> bool {
    0 <= index < cells.len() && shared_enable(cells[index], first, second) is Some
}

proof fn lemma_twins_carry(
    values: spec_fn(u32) -> bool,
    cells: Seq<CellModel>,
    a: int,
    b: int,
    first: u32,
    second: u32,
)
    requires
        are_twins(cells, a, b, first, second),
        cells_agree(values, cells),
    ensures
        values(first) == values(second),
{
    assert(cell_agrees(values, cells[a]));
    assert(cell_agrees(values, cells[b]));
}

/// An enable moved between wires that carry the same is read as before.
proof fn lemma_enable_holds(
    now: spec_fn(u32) -> bool,
    next: spec_fn(u32) -> bool,
    cell: CellModel,
    from: u32,
    to: u32,
)
    requires
        enable_signal(cell) == Some(Bit::Wire(from)),
        now(from) == now(to),
    ensures
        cell_starts(now, with_enable(cell, to)) == cell_starts(now, cell),
        cell_agrees(now, with_enable(cell, to)) == cell_agrees(now, cell),
        cell_steps(now, next, with_enable(cell, to)) == cell_steps(now, next, cell),
{
    reveal(state_after);
}

/// Moving an enable from one of two equal drivers to the other stays true.
#[verifier::rlimit(60)]
proof fn lemma_enable_exchange(
    original: NetlistModel,
    base: NetlistModel,
    cells: Seq<CellModel>,
    a: int,
    b: int,
    first: u32,
    second: u32,
    index: int,
    wire: u32,
    bound: int,
)
    requires
        stays_true(original, NetlistModel { cells, ..base }, bound),
        are_twins(cells, a, b, first, second),
        is_shared(cells, index, first, second),
        wire == first || wire == second,
    ensures
        stays_true(
            original,
            NetlistModel { cells: cells.update(index, with_enable(cells[index], wire)), ..base },
            bound,
        ),
        are_twins(
            cells.update(index, with_enable(cells[index], wire)),
            a,
            b,
            first,
            second,
        ),
        forall|i: int|
            is_shared(cells, i, first, second) ==> #[trigger] is_shared(
                cells.update(index, with_enable(cells[index], wire)),
                i,
                first,
                second,
            ),
{
    let cell = cells[index];
    let moved = with_enable(cell, wire);
    let before = NetlistModel { cells, ..base };
    let after = NetlistModel { cells: cells.update(index, moved), ..base };
    let from = shared_enable(cell, first, second)->0;
    assert(enable_signal(cell) == Some(Bit::Wire(from)));
    assert(cell is FlipFlop);
    assert(cell_outputs(moved) == cell_outputs(cell));
    assert forall|run: spec_fn(nat) -> spec_fn(u32) -> bool| is_run(run, before.cells)
        == #[trigger] is_run(run, after.cells) by {
        if is_run(run, before.cells) {
            assert forall|i: int, t: nat|
                #![trigger after.cells[i], run(t)]
                0 <= i < after.cells.len() implies (t == 0 ==> cell_starts(
                run(t),
                after.cells[i],
            )) && cell_agrees(run(t), after.cells[i]) && cell_steps(
                run(t),
                run(t + 1),
                after.cells[i],
            ) by {
                assert(cells_agree(run(t), cells));
                assert(cells_step(run(t), run(t + 1), cells));
                lemma_twins_carry(run(t), cells, a, b, first, second);
                lemma_enable_holds(run(t), run(t + 1), cell, from, wire);
                assert(cell_agrees(run(t), before.cells[i]));
                assert(cell_steps(run(t), run(t + 1), before.cells[i]));
                assert(cell_starts(run(0), before.cells[i]));
            }
            lemma_is_run(run, after.cells);
        }
        if is_run(run, after.cells) {
            assert(are_twins(after.cells, a, b, first, second));
            assert forall|i: int, t: nat|
                #![trigger before.cells[i], run(t)]
                0 <= i < before.cells.len() implies (t == 0 ==> cell_starts(
                run(t),
                before.cells[i],
            )) && cell_agrees(run(t), before.cells[i]) && cell_steps(
                run(t),
                run(t + 1),
                before.cells[i],
            ) by {
                assert(cells_agree(run(t), after.cells));
                assert(cells_step(run(t), run(t + 1), after.cells));
                lemma_twins_carry(run(t), after.cells, a, b, first, second);
                lemma_enable_holds(run(t), run(t + 1), cell, from, wire);
                assert(cell_agrees(run(t), after.cells[i]));
                assert(cell_steps(run(t), run(t + 1), after.cells[i]));
                assert(cell_starts(run(0), after.cells[i]));
            }
            lemma_is_run(run, before.cells);
        }
    }
    assert(is_exchanged(before, after));
    assert forall|i: int, other: u32|
        0 <= i < after.cells.len() && #[trigger] reads(
            after.cells[i],
            other,
        ) implies is_sourced(before, other) by {
        if i == index && other == wire {
            assert(cell_outputs(cells[a])[0] == Bit::Wire(first));
            assert(cell_outputs(cells[b])[0] == Bit::Wire(second));
            assert(drives(before.cells[a], first));
            assert(drives(before.cells[b], second));
        } else {
            let bits = cell_inputs(after.cells[i]);
            let k = choose|k: int| 0 <= k < bits.len() && bits[k] == Bit::Wire(other);
            let theirs = cell_inputs(before.cells[i]);
            if i == index {
                assert(k != 2) by {
                    if k == 2 {
                        assert(bits[2] == Bit::Wire(wire));
                    }
                }
                assert(theirs[k] == bits[k]);
            }
            assert(theirs.contains(theirs[k]));
            assert(reads(before.cells[i], other));
        }
    }
    lemma_exchange_true(original, before, after, bound);
}

proof fn lemma_cluster_moved(
    original: NetlistModel,
    base: NetlistModel,
    state: ClusterModel,
    sinks: Seq<SinkModel>,
    a: int,
    b: int,
    first: u32,
    second: u32,
    wire: u32,
    count: nat,
    bound: int,
)
    requires
        stays_true(original, NetlistModel { cells: state.cells, ..base }, bound),
        are_twins(state.cells, a, b, first, second),
        forall|k: int|
            0 <= k < sinks.len() ==> is_shared(
                state.cells,
                (#[trigger] sinks[k]).index as int,
                first,
                second,
            ),
        wire == first || wire == second,
        count <= sinks.len(),
    ensures
        ({
            let after = cluster_moved(state, sinks, wire, count).cells;
            &&& stays_true(original, NetlistModel { cells: after, ..base }, bound)
            &&& are_twins(after, a, b, first, second)
            &&& after.len() == state.cells.len()
            &&& forall|i: int|
                is_shared(state.cells, i, first, second) ==> #[trigger] is_shared(
                    after,
                    i,
                    first,
                    second,
                )
        }),
    decreases count,
{
    if count > 0 {
        let last = (count - 1) as nat;
        lemma_cluster_moved(
            original,
            base,
            state,
            sinks,
            a,
            b,
            first,
            second,
            wire,
            last,
            bound,
        );
        let rest = cluster_moved(state, sinks, wire, last).cells;
        let sink = sinks[last as int];
        assert(is_shared(state.cells, sinks[last as int].index as int, first, second));
        assert(is_shared(rest, sink.index as int, first, second));
        if sink.wire != wire {
            lemma_enable_exchange(
                original,
                base,
                rest,
                a,
                b,
                first,
                second,
                sink.index as int,
                wire,
                bound,
            );
        }
    }
}

/// Placed sinks share the two enables.
proof fn lemma_placed_shared(
    cells: Seq<CellModel>,
    feedback: PhysicalFeedback,
    first: u32,
    second: u32,
    count: nat,
)
    requires
        count <= cells.len() <= usize::MAX,
    ensures
        forall|k: int|
            0 <= k < placed_sinks(cells, feedback, first, second, count).len() ==> is_shared(
                cells,
                (#[trigger] placed_sinks(cells, feedback, first, second, count)[k]).index as int,
                first,
                second,
            ),
    decreases count,
{
    if count > 0 {
        lemma_placed_shared(cells, feedback, first, second, (count - 1) as nat);
        let rest = placed_sinks(cells, feedback, first, second, (count - 1) as nat);
        let sinks = placed_sinks(cells, feedback, first, second, count);
        assert forall|k: int| 0 <= k < sinks.len() implies is_shared(
            cells,
            (#[trigger] sinks[k]).index as int,
            first,
            second,
        ) by {
            if k < rest.len() {
                assert(sinks[k] == rest[k]);
            }
        }
    }
}

proof fn lemma_sorted_shared(
    cells: Seq<CellModel>,
    sorted: Seq<SinkModel>,
    sink: SinkModel,
    along_x: bool,
    first: u32,
    second: u32,
)
    requires
        is_shared(cells, sink.index as int, first, second),
        forall|k: int|
            0 <= k < sorted.len() ==> is_shared(
                cells,
                (#[trigger] sorted[k]).index as int,
                first,
                second,
            ),
    ensures
        forall|k: int|
            0 <= k < with_sorted_sink(sorted, sink, along_x).len() ==> is_shared(
                cells,
                (#[trigger] with_sorted_sink(sorted, sink, along_x)[k]).index as int,
                first,
                second,
            ),
    decreases sorted.len(),
{
    if sorted.len() > 0 {
        let rest = sorted.drop_last();
        assert forall|k: int| 0 <= k < rest.len() implies is_shared(
            cells,
            (#[trigger] rest[k]).index as int,
            first,
            second,
        ) by {
            assert(rest[k] == sorted[k]);
        }
        assert(sorted[sorted.len() - 1] == sorted.last());
        lemma_sorted_shared(cells, rest, sink, along_x, first, second);
        let inner = with_sorted_sink(rest, sink, along_x);
        let after = with_sorted_sink(sorted, sink, along_x);
        assert forall|k: int| 0 <= k < after.len() implies is_shared(
            cells,
            (#[trigger] after[k]).index as int,
            first,
            second,
        ) by {
            if sink_before(sink, sorted.last(), along_x) {
                if k < inner.len() {
                    assert(after[k] == inner[k]);
                }
            } else if k < sorted.len() {
                assert(after[k] == sorted[k]);
            }
        }
    }
}

proof fn lemma_all_sorted_shared(
    cells: Seq<CellModel>,
    sinks: Seq<SinkModel>,
    along_x: bool,
    first: u32,
    second: u32,
)
    requires
        forall|k: int|
            0 <= k < sinks.len() ==> is_shared(
                cells,
                (#[trigger] sinks[k]).index as int,
                first,
                second,
            ),
    ensures
        forall|k: int|
            0 <= k < sorted_sinks(sinks, along_x).len() ==> is_shared(
                cells,
                (#[trigger] sorted_sinks(sinks, along_x)[k]).index as int,
                first,
                second,
            ),
    decreases sinks.len(),
{
    if sinks.len() > 0 {
        let rest = sinks.drop_last();
        assert forall|k: int| 0 <= k < rest.len() implies is_shared(
            cells,
            (#[trigger] rest[k]).index as int,
            first,
            second,
        ) by {
            assert(rest[k] == sinks[k]);
        }
        assert(sinks[sinks.len() - 1] == sinks.last());
        lemma_all_sorted_shared(cells, rest, along_x, first, second);
        lemma_sorted_shared(
            cells,
            sorted_sinks(rest, along_x),
            sinks.last(),
            along_x,
            first,
            second,
        );
    }
}

#[verifier::rlimit(60)]
proof fn lemma_group_true(
    original: NetlistModel,
    base: NetlistModel,
    state: ClusterModel,
    feedback: PhysicalFeedback,
    origin: Seq<char>,
    replica: usize,
    size: usize,
    bound: int,
)
    requires
        stays_true(original, NetlistModel { cells: state.cells, ..base }, bound),
        replica < state.cells.len(),
    ensures
        ({
            let after = group_reclustered(state, feedback, origin, replica, size).cells;
            stays_true(original, NetlistModel { cells: after, ..base }, bound) && after.len()
                == state.cells.len()
        }),
{
    let cells = state.cells;
    let after = group_reclustered(state, feedback, origin, replica, size);
    lemma_cells_counted(NetlistModel { cells, ..base });
    lemma_named_at(cells, origin, 0);
    if after != state {
        let index = first_named(cells, origin)->0;
        let first = lut_wire(cells[index]);
        let second = lut_wire(cells[replica as int]);
        let replica_name = cells[replica as int].cell_name();
        let sinks = placed_sinks(cells, feedback, first, second, cells.len());
        let along_x = splits_along_x(sinks);
        let sorted = sorted_sinks(sinks, along_x);
        let split = sorted.len() as int / 2;
        let swapped = is_swapped(
            sorted,
            named(feedback.placements@, origin),
            named(feedback.placements@, replica_name),
        );
        let near = if swapped {
            second
        } else {
            first
        };
        let far = if swapped {
            first
        } else {
            second
        };
        lemma_placed_shared(cells, feedback, first, second, cells.len());
        lemma_all_sorted_shared(cells, sinks, along_x, first, second);
        let one = sorted.take(split);
        let two = sorted.skip(split);
        assert forall|k: int| 0 <= k < one.len() implies is_shared(
            cells,
            (#[trigger] one[k]).index as int,
            first,
            second,
        ) by {
            assert(one[k] == sorted[k]);
        }
        lemma_cluster_moved(
            original,
            base,
            state,
            one,
            index,
            replica as int,
            first,
            second,
            near,
            split as nat,
            bound,
        );
        let half = cluster_moved(state, one, near, split as nat);
        assert forall|k: int| 0 <= k < two.len() implies is_shared(
            half.cells,
            (#[trigger] two[k]).index as int,
            first,
            second,
        ) by {
            assert(two[k] == sorted[split + k]);
            assert(is_shared(cells, sorted[split + k].index as int, first, second));
        }
        lemma_cluster_moved(
            original,
            base,
            half,
            two,
            index,
            replica as int,
            first,
            second,
            far,
            (sorted.len() - split) as nat,
            bound,
        );
    }
}

proof fn lemma_groups_true(
    original: NetlistModel,
    base: NetlistModel,
    state: ClusterModel,
    feedback: PhysicalFeedback,
    groups: Seq<(Seq<char>, (usize, usize))>,
    count: nat,
    bound: int,
)
    requires
        stays_true(original, NetlistModel { cells: state.cells, ..base }, bound),
        count <= groups.len(),
        forall|i: int| 0 <= i < groups.len() ==> (#[trigger] groups[i]).1.0 < state.cells.len(),
    ensures
        ({
            let after = groups_reclustered(state, feedback, groups, count).cells;
            stays_true(original, NetlistModel { cells: after, ..base }, bound) && after.len()
                == state.cells.len()
        }),
    decreases count,
{
    if count > 0 {
        let last = (count - 1) as nat;
        lemma_groups_true(original, base, state, feedback, groups, last, bound);
        let group = groups[last as int];
        lemma_group_true(
            original,
            base,
            groups_reclustered(state, feedback, groups, last),
            feedback,
            group.0,
            group.1.0,
            group.1.1,
            bound,
        );
    }
}

/// The first wire above those of a netlist that is wired up.
spec fn bound_of(netlist: NetlistModel) -> int {
    match maximum_wire(netlist) {
        Some(wire) => wire + 1,
        None => 1,
    }
}

/// Distributing enable sinks over equal drivers keeps what is shown.
pub proof fn law_reclustering_keeps_shown(netlist: NetlistModel, feedback: PhysicalFeedback)
    requires
        is_well_driven(netlist),
    ensures
        ({
            let after = NetlistModel {
                cells: reclustered(netlist.cells, feedback).cells,
                ..netlist
            };
            keeps_shown(netlist, after) && is_well_driven(after)
        }),
{
    let cells = netlist.cells;
    let groups = replica_groups(cells, cells.len());
    let start = ClusterModel { cells, rewires: 0 };
    lemma_cells_counted(netlist);
    lemma_groups_below(cells, cells.len());
    lemma_all_below(netlist);
    law_shown_is_kept(netlist);
    lemma_true_alike(
        netlist,
        netlist,
        NetlistModel { cells: start.cells, ..netlist },
        bound_of(netlist),
    );
    lemma_groups_true(netlist, netlist, start, feedback, groups, groups.len(), bound_of(netlist));
}

/// Replicating drivers for late sinks keeps what is shown.
pub proof fn law_late_branches_keep_shown(netlist: NetlistModel, feedback: PhysicalFeedback)
    requires
        is_well_driven(netlist),
        no_table_reads_itself(netlist.cells),
    ensures
        keeps_shown(netlist, critical_replicated(netlist, feedback).netlist),
        is_well_driven(critical_replicated(netlist, feedback).netlist),
{
    let start = CriticalModel {
        netlist,
        next_wire: next_free_wire(netlist),
        replicas: 0,
        rewires: 0,
    };
    lemma_starts_true(netlist);
    law_shown_is_kept(netlist);
    lemma_critical(netlist, start, feedback.net_timings@, feedback.net_timings@.len());
}

/// Pruning to the end keeps what is shown.
pub proof fn law_pruned_keeps_shown(netlist: NetlistModel)
    requires
        is_well_driven(netlist),
    ensures
        keeps_shown(netlist, pruned(netlist)),
        is_well_driven(pruned(netlist)),
    decreases netlist.cells.len(),
{
    let once = pruned_once(netlist);
    law_shown_is_kept(netlist);
    if once.cells.len() < netlist.cells.len() {
        law_pruning_keeps_shown(netlist);
        law_pruning_keeps_wiring(netlist);
        law_pruned_keeps_shown(once);
        law_shown_is_kept_along(netlist, once, pruned(netlist));
    }
}

/// Sharing equal registers to the end keeps what is shown.
pub proof fn law_merged_keeps_shown(netlist: NetlistModel)
    requires
        is_well_driven(netlist),
    ensures
        keeps_shown(netlist, merged(netlist)),
        is_well_driven(merged(netlist)),
    decreases netlist.cells.len(),
{
    law_shown_is_kept(netlist);
    if duplicates_of(netlist).len() > 0 {
        let once = merged_once(netlist);
        lemma_merge_shrinks(netlist);
        law_sharing_keeps_shown(netlist);
        law_sharing_keeps_wiring(netlist);
        law_merged_keeps_shown(once);
        law_shown_is_kept_along(netlist, once, merged(netlist));
    }
}

/// A certified move back keeps what is shown.
pub proof fn law_backward_move_keeps_shown(
    netlist: NetlistModel,
    index: int,
    certificates: spec_fn(RequestModel) -> Option<Seq<EdgeModel>>,
)
    requires
        is_well_driven(netlist),
        certificates_hold(certificates),
    ensures
        backward_move(netlist, index, certificates) matches Some(after) ==> keeps_shown(
            netlist,
            after,
        ) && is_well_driven(after),
{
    reveal(backward_move);
    reveal(backward_lut_move);
    reveal(backward_ccu_move);
    let first = (maximum_wire(netlist)->0 + 1) as u32;
    if let Some(after) = backward_lut_move(netlist, index, certificates) {
        let edges = certificates(backward_lut_request(netlist, index)->0)->0;
        let (register, lut) = backward_lut_sources(netlist, index)->0;
        let raw = NetlistModel {
            cells: backward_lut_cells(netlist, index, register, lut, first, edges),
            proof: one_more_move(netlist.proof),
            ..netlist
        };
        law_backward_lut_keeps_wiring(netlist, raw, index, register, lut, first, edges);
        law_backward_lut_keeps_shown(netlist, raw, index, register, lut, first, edges);
        law_pruned_keeps_shown(raw);
        law_shown_is_kept_along(netlist, raw, after);
    } else if let Some(after) = backward_ccu_move(netlist, index, certificates) {
        let edges = certificates(backward_ccu_request(netlist, index)->0)->0;
        let (register, at, output) = backward_ccu_sources(netlist, index)->0;
        let raw = NetlistModel {
            cells: backward_ccu_cells(netlist, index, register, at, output, first, edges),
            proof: one_more_move(netlist.proof),
            ..netlist
        };
        law_backward_ccu_keeps_wiring(netlist, raw, index, register, at, output, first, edges);
        law_backward_ccu_keeps_shown(netlist, raw, index, register, at, output, first, edges);
        law_pruned_keeps_shown(raw);
        law_shown_is_kept_along(netlist, raw, after);
    }
}

/// A certified move forward across a lookup table keeps what is shown.
pub proof fn law_forward_move_keeps_shown(
    netlist: NetlistModel,
    index: int,
    certificates: spec_fn(RequestModel) -> Option<Seq<EdgeModel>>,
)
    requires
        is_well_driven(netlist),
        certificates_hold(certificates),
        named_once(netlist.cells, index),
    ensures
        forward_lut_move(netlist, index, certificates) matches Some(after) ==> keeps_shown(
            netlist,
            after,
        ) && is_well_driven(after),
{
    reveal(forward_lut_move);
    if let Some(after) = forward_lut_move(netlist, index, certificates) {
        let edges = certificates(forward_lut_request(netlist, index)->0)->0;
        let count = sorted_wires(netlist.cells[index]->Lut4_inputs@).len() as int;
        let value = reset_between(edges, count, count + 1)->0;
        let first = (maximum_wire(netlist)->0 + 1) as u32;
        let raw = NetlistModel {
            cells: forward_lut_cells(netlist, index, first, value)->0,
            proof: one_more_move(netlist.proof),
            ..netlist
        };
        assert(lut_certificate_holds(netlist, index, edges));
        law_forward_lut_keeps_wiring(netlist, raw, index, first, value);
        law_forward_lut_keeps_shown(netlist, raw, index, first, value);
        law_pruned_keeps_shown(raw);
        law_shown_is_kept_along(netlist, raw, after);
    }
}

proof fn lemma_cones_follow(
    original: NetlistModel,
    state: ConesModel,
    names: Seq<(Seq<char>, ())>,
    certificates: spec_fn(RequestModel) -> Option<Seq<EdgeModel>>,
    count: nat,
)
    requires
        follows(original, state.netlist),
        certificates_hold(certificates),
    ensures
        follows(original, cones_retimed(state, names, certificates, count).netlist),
    decreases count,
{
    if count > 0 {
        let last = (count - 1) as nat;
        lemma_cones_follow(original, state, names, certificates, last);
        let rest = cones_retimed(state, names, certificates, last).netlist;
        let after = cones_retimed(state, names, certificates, count).netlist;
        if after != rest {
            let register = first_named(rest.cells, names[last as int].0)->0;
            law_backward_move_keeps_shown(rest, register, certificates);
            let moved = backward_move(rest, register, certificates)->0;
            law_merged_keeps_shown(moved);
            lemma_follows_along(original, rest, moved);
            lemma_follows_along(original, moved, merged(moved));
        }
    }
}

/// Refinement keeps what is shown: replicas for late sinks, enable sinks moved
/// between equal drivers and certified moves change nothing at ports and boxes.
pub proof fn law_refinement_keeps_shown(
    netlist: NetlistModel,
    feedback: PhysicalFeedback,
    certificates: spec_fn(RequestModel) -> Option<Seq<EdgeModel>>,
)
    requires
        is_well_driven(netlist),
        no_table_reads_itself(netlist.cells),
        certificates_hold(certificates),
    ensures
        keeps_shown(netlist, refined(netlist, feedback, certificates)),
        is_well_driven(refined(netlist, feedback, certificates)),
{
    let after = refined(netlist, feedback, certificates);
    law_shown_is_kept(netlist);
    let critical = critical_replicated(netlist, feedback);
    law_late_branches_keep_shown(netlist, feedback);
    law_reclustering_keeps_shown(critical.netlist, feedback);
    let rewired = NetlistModel {
        cells: reclustered(critical.netlist.cells, feedback).cells,
        ..critical.netlist
    };
    lemma_follows_along(netlist, critical.netlist, rewired);
    let names = path_sinks(
        rewired.cells,
        feedback.critical_paths@,
        feedback.critical_paths@.len(),
    );
    lemma_cones_follow(
        netlist,
        ConesModel { netlist: rewired, moves: 0 },
        names,
        certificates,
        names.len(),
    );
    let cones = reported_cones_retimed(rewired, feedback, certificates).netlist;
    if after.cells == cones.cells && after.ports == cones.ports {
        lemma_follows_alike(netlist, cones, after);
    } else if after.cells == rewired.cells && after.ports == rewired.ports {
        lemma_follows_alike(netlist, rewired, after);
    }
}

/// Whether every candidate follows.
spec fn all_follow(original: NetlistModel, candidates: Seq<NetlistModel>) -> bool {
    forall|i: int| 0 <= i < candidates.len() ==> follows(original, #[trigger] candidates[i])
}

proof fn lemma_with_candidate(
    original: NetlistModel,
    candidates: Seq<NetlistModel>,
    candidate: Option<NetlistModel>,
)
    requires
        all_follow(original, candidates),
        candidate matches Some(netlist) ==> follows(original, netlist),
    ensures
        all_follow(original, with_candidate(candidates, candidate)),
{
}

proof fn lemma_finalized(original: NetlistModel, candidate: NetlistModel)
    requires
        follows(original, candidate),
    ensures
        finalized(candidate) matches Some(netlist) ==> follows(original, netlist),
{
    if let Some(netlist) = finalized(candidate) {
        lemma_follows_alike(original, candidate, netlist);
    }
}

proof fn lemma_forward_candidates(
    original: NetlistModel,
    candidates: Seq<NetlistModel>,
    names: Seq<(Seq<char>, ())>,
    certificates: spec_fn(RequestModel) -> Option<Seq<EdgeModel>>,
    count: nat,
)
    requires
        is_well_driven(original),
        certificates_hold(certificates),
        forall|index: int|
            0 <= index < original.cells.len() ==> #[trigger] named_once(original.cells, index),
        all_follow(original, candidates),
    ensures
        all_follow(
            original,
            with_forward_candidates(candidates, original, names, certificates, count),
        ),
    decreases count,
{
    if count > 0 {
        let last = (count - 1) as nat;
        lemma_forward_candidates(original, candidates, names, certificates, last);
        let name = names[last as int].0;
        if let Some(index) = first_named(original.cells, name) {
            lemma_named_at(original.cells, name, 0);
            law_forward_move_keeps_shown(original, index, certificates);
            if let Some(moved) = forward_lut_move(original, index, certificates) {
                law_merged_keeps_shown(moved);
                lemma_follows_along(original, moved, merged(moved));
                lemma_finalized(original, merged(moved));
            }
        }
        lemma_with_candidate(
            original,
            with_forward_candidates(candidates, original, names, certificates, last),
            forward_candidate(original, name, certificates),
        );
    }
}

proof fn lemma_backward_candidates(
    original: NetlistModel,
    candidates: Seq<NetlistModel>,
    first: NetlistModel,
    registers: Seq<(Seq<char>, usize)>,
    certificates: spec_fn(RequestModel) -> Option<Seq<EdgeModel>>,
    count: nat,
)
    requires
        follows(original, first),
        certificates_hold(certificates),
        all_follow(original, candidates),
    ensures
        all_follow(
            original,
            with_backward_candidates(candidates, first, registers, certificates, count),
        ),
    decreases count,
{
    if count > 0 {
        let last = (count - 1) as nat;
        lemma_backward_candidates(original, candidates, first, registers, certificates, last);
        let register = registers[last as int].1;
        law_backward_move_keeps_shown(first, register as int, certificates);
        if let Some(moved) = backward_move(first, register as int, certificates) {
            law_merged_keeps_shown(moved);
            lemma_follows_along(original, first, moved);
            lemma_follows_along(original, moved, merged(moved));
            lemma_finalized(original, merged(moved));
        }
        lemma_with_candidate(
            original,
            with_backward_candidates(candidates, first, registers, certificates, last),
            backward_candidate(first, register, certificates),
        );
    }
}

/// Every physical candidate keeps what is shown. A candidate moved forward looks its
/// lookup table up by name, so no two cells may bear one name.
pub proof fn law_candidates_keep_shown(
    netlist: NetlistModel,
    feedback: PhysicalFeedback,
    certificates: spec_fn(RequestModel) -> Option<Seq<EdgeModel>>,
    at: int,
)
    requires
        is_well_driven(netlist),
        no_table_reads_itself(netlist.cells),
        certificates_hold(certificates),
        forall|index: int|
            0 <= index < netlist.cells.len() ==> #[trigger] named_once(netlist.cells, index),
        0 <= at < refinement_candidates(netlist, feedback, certificates).len(),
    ensures
        keeps_shown(netlist, refinement_candidates(netlist, feedback, certificates)[at]),
        is_well_driven(refinement_candidates(netlist, feedback, certificates)[at]),
{
    let first = refined(netlist, feedback, certificates);
    law_refinement_keeps_shown(netlist, feedback, certificates);
    let candidates = refinement_candidates(netlist, feedback, certificates);
    let paths = feedback.critical_paths@;
    let names = path_luts(netlist.cells, paths, netlist.cells.len());
    assert(all_follow(netlist, seq![first]));
    lemma_forward_candidates(netlist, seq![first], names, certificates, names.len());
    let forward = with_forward_candidates(seq![first], netlist, names, certificates, names.len());
    let registers = new_registers(netlist.cells, first.cells, paths, first.cells.len());
    lemma_backward_candidates(
        netlist,
        forward,
        first,
        registers,
        certificates,
        registers.len(),
    );
    assert(all_follow(netlist, candidates));
}

/// Whether the branches hold flip-flops enabled by their wires, each one once.
spec fn branches_hold(cells: Seq<CellModel>, branches: Seq<BranchModel>, count: int) -> bool {
    &&& forall|b: int, k: int|
        #![trigger branches[b].sinks[k]]
        0 <= b < branches.len() && 0 <= k < branches[b].sinks.len() ==> branches[b].sinks[k]
            < count && enable_signal(cells[branches[b].sinks[k] as int]) == Some(
            Bit::Wire(branches[b].wire),
        )
    &&& forall|b: int, k: int, c: int, m: int|
        #![trigger branches[b].sinks[k], branches[c].sinks[m]]
        0 <= b < branches.len() && 0 <= k < branches[b].sinks.len() && 0 <= c < branches.len()
            && 0 <= m < branches[c].sinks.len() && branches[b].sinks[k] == branches[c].sinks[m]
            ==> b == c && k == m
}

proof fn lemma_with_sink_holds(
    cells: Seq<CellModel>,
    branches: Seq<BranchModel>,
    wire: u32,
    max_fanout: usize,
    sink: usize,
)
    requires
        branches_hold(cells, branches, sink as int),
        enable_signal(cells[sink as int]) == Some(Bit::Wire(wire)),
    ensures
        branches_hold(cells, with_sink(branches, wire, max_fanout, sink), sink + 1),
    decreases branches.len(),
{
    let after = with_sink(branches, wire, max_fanout, sink);
    if branches.len() > 0 {
        let last = branches.last();
        let rest = branches.drop_last();
        if branch_before((last.wire, last.max_fanout), (wire, max_fanout)) {
            assert(after =~= branches.push(
                BranchModel { wire, max_fanout, sinks: seq![sink] },
            ));
        } else if last.wire == wire && last.max_fanout == max_fanout {
            let grown = BranchModel { wire, max_fanout, sinks: last.sinks.push(sink) };
            assert(after =~= branches.update(branches.len() - 1, grown));
            assert forall|b: int, k: int|
                #![trigger after[b].sinks[k]]
                0 <= b < after.len() && 0 <= k < after[b].sinks.len() implies after[b].sinks[k]
                < sink + 1 && enable_signal(cells[after[b].sinks[k] as int]) == Some(
                Bit::Wire(after[b].wire),
            ) && (after[b].sinks[k] == sink || (b < branches.len() && k
                < branches[b].sinks.len() && after[b].sinks[k] == branches[b].sinks[k])) by {
                if b < branches.len() - 1 || k < last.sinks.len() {
                    assert(after[b].sinks[k] == branches[b].sinks[k]);
                }
            }
            assert forall|b: int, k: int|
                #![trigger after[b].sinks[k]]
                0 <= b < after.len() && 0 <= k < after[b].sinks.len() && after[b].sinks[k]
                    == sink implies b == branches.len() - 1 && k == last.sinks.len() by {
                if b < branches.len() - 1 || k < last.sinks.len() {
                    assert(after[b].sinks[k] == branches[b].sinks[k]);
                }
            }
        } else {
            lemma_with_sink_rest(cells, branches, wire, max_fanout, sink);
        }
    }
}

proof fn lemma_with_sink_rest(
    cells: Seq<CellModel>,
    branches: Seq<BranchModel>,
    wire: u32,
    max_fanout: usize,
    sink: usize,
)
    requires
        branches.len() > 0,
        branches_hold(cells, branches, sink as int),
        enable_signal(cells[sink as int]) == Some(Bit::Wire(wire)),
        with_sink(branches, wire, max_fanout, sink) == with_sink(
            branches.drop_last(),
            wire,
            max_fanout,
            sink,
        ).push(branches.last()),
    ensures
        branches_hold(cells, with_sink(branches, wire, max_fanout, sink), sink + 1),
    decreases branches.len(), 0nat,
{
    let rest = branches.drop_last();
    let last = branches.last();
    let inner = with_sink(rest, wire, max_fanout, sink);
    let after = inner.push(last);
    assert(branches_hold(cells, rest, sink as int)) by {
        assert forall|b: int, k: int|
            #![trigger rest[b].sinks[k]]
            0 <= b < rest.len() && 0 <= k < rest[b].sinks.len() implies rest[b].sinks[k] < sink
            && enable_signal(cells[rest[b].sinks[k] as int]) == Some(Bit::Wire(rest[b].wire)) by {
            assert(branches[b].sinks[k] < sink);
        }
        assert forall|b: int, k: int, c: int, m: int|
            #![trigger rest[b].sinks[k], rest[c].sinks[m]]
            0 <= b < rest.len() && 0 <= k < rest[b].sinks.len() && 0 <= c < rest.len() && 0 <= m
                < rest[c].sinks.len() && rest[b].sinks[k] == rest[c].sinks[m] implies b == c && k
            == m by {
            assert(branches[b].sinks[k] == branches[c].sinks[m]);
        }
    }
    lemma_with_sink_holds(cells, rest, wire, max_fanout, sink);
    lemma_with_sink_members(rest, wire, max_fanout, sink);
    let n = branches.len() - 1;
    assert forall|b: int, k: int|
        #![trigger after[b].sinks[k]]
        0 <= b < after.len() && 0 <= k < after[b].sinks.len() implies after[b].sinks[k] < sink + 1
        && enable_signal(cells[after[b].sinks[k] as int]) == Some(Bit::Wire(after[b].wire)) by {
        if b < inner.len() {
            assert(inner[b].sinks[k] < sink + 1);
        } else {
            assert(branches[n].sinks[k] < sink);
        }
    }
    assert forall|b: int, k: int, c: int, m: int|
        #![trigger after[b].sinks[k], after[c].sinks[m]]
        0 <= b < after.len() && 0 <= k < after[b].sinks.len() && 0 <= c < after.len() && 0 <= m
            < after[c].sinks.len() && after[b].sinks[k] == after[c].sinks[m] implies b == c && k
        == m by {
        if b < inner.len() && c < inner.len() {
            assert(inner[b].sinks[k] == inner[c].sinks[m]);
        } else if b < inner.len() {
            lemma_member_apart(branches, inner, sink, b, k, m);
        } else if c < inner.len() {
            lemma_member_apart(branches, inner, sink, c, m, k);
        } else {
            assert(branches[n].sinks[k] == branches[n].sinks[m]);
        }
    }
}

/// Whether every sink of `after` is `sink` or one of `before`.
spec fn comes_in(before: Seq<BranchModel>, after: Seq<BranchModel>, sink: usize) -> bool {
    forall|b: int, k: int|
        #![trigger after[b].sinks[k]]
        0 <= b < after.len() && 0 <= k < after[b].sinks.len() ==> after[b].sinks[k] == sink
            || exists|c: int, m: int|
            0 <= c < before.len() && 0 <= m < before[c].sinks.len() && after[b].sinks[k]
                == #[trigger] before[c].sinks[m]
}

proof fn lemma_with_sink_members(
    branches: Seq<BranchModel>,
    wire: u32,
    max_fanout: usize,
    sink: usize,
)
    ensures
        comes_in(branches, with_sink(branches, wire, max_fanout, sink), sink),
    decreases branches.len(),
{
    let after = with_sink(branches, wire, max_fanout, sink);
    if branches.len() > 0 {
        let last = branches.last();
        let rest = branches.drop_last();
        let n = branches.len() - 1;
        lemma_with_sink_members(rest, wire, max_fanout, sink);
        let inner = with_sink(rest, wire, max_fanout, sink);
        assert forall|b: int, k: int|
            #![trigger after[b].sinks[k]]
            0 <= b < after.len() && 0 <= k < after[b].sinks.len() implies after[b].sinks[k] == sink
            || exists|c: int, m: int|
            0 <= c < branches.len() && 0 <= m < branches[c].sinks.len() && after[b].sinks[k]
                == #[trigger] branches[c].sinks[m] by {
            if branch_before((last.wire, last.max_fanout), (wire, max_fanout)) {
                if b < branches.len() {
                    assert(after[b].sinks[k] == branches[b].sinks[k]);
                }
            } else if last.wire == wire && last.max_fanout == max_fanout {
                if b < n || k < last.sinks.len() {
                    assert(after[b].sinks[k] == branches[b].sinks[k]);
                }
            } else if b < inner.len() {
                assert(after[b].sinks[k] == inner[b].sinks[k]);
                if inner[b].sinks[k] != sink {
                    let (c, m) = choose|c: int, m: int|
                        0 <= c < rest.len() && 0 <= m < rest[c].sinks.len() && inner[b].sinks[k]
                            == #[trigger] rest[c].sinks[m];
                    assert(branches[c].sinks[m] == rest[c].sinks[m]);
                }
            } else {
                assert(after[b].sinks[k] == branches[n].sinks[k]);
            }
        }
    }
}

proof fn lemma_member_apart(
    branches: Seq<BranchModel>,
    inner: Seq<BranchModel>,
    sink: usize,
    b: int,
    k: int,
    m: int,
)
    requires
        branches.len() > 0,
        comes_in(branches.drop_last(), inner, sink),
        0 <= b < inner.len(),
        0 <= k < inner[b].sinks.len(),
        0 <= m < branches.last().sinks.len(),
        branches.last().sinks[m] < sink,
        forall|b: int, k: int, c: int, m: int|
            #![trigger branches[b].sinks[k], branches[c].sinks[m]]
            0 <= b < branches.len() && 0 <= k < branches[b].sinks.len() && 0 <= c
                < branches.len() && 0 <= m < branches[c].sinks.len() && branches[b].sinks[k]
                == branches[c].sinks[m] ==> b == c && k == m,
    ensures
        inner[b].sinks[k] != branches.last().sinks[m],
{
    let rest = branches.drop_last();
    let n = branches.len() - 1;
    if inner[b].sinks[k] == branches.last().sinks[m] {
        let (c, j) = choose|c: int, j: int|
            0 <= c < rest.len() && 0 <= j < rest[c].sinks.len() && inner[b].sinks[k]
                == #[trigger] rest[c].sinks[j];
        assert(branches[c].sinks[j] == branches[n].sinks[m]);
    }
}

proof fn lemma_branches_hold(
    cells: Seq<CellModel>,
    constraints: Seq<RegisterEnableFanoutConstraint>,
    count: nat,
)
    requires
        count <= cells.len() <= usize::MAX,
    ensures
        branches_hold(cells, branches_of(cells, constraints, count), count as int),
    decreases count,
{
    if count > 0 {
        let last = (count - 1) as nat;
        lemma_branches_hold(cells, constraints, last);
        let rest = branches_of(cells, constraints, last);
        if let Some(index) = selecting(
            cells[last as int],
            constraints,
            0,
            constraints.len() as int,
        ) {
            if let Some(Bit::Wire(wire)) = enable_signal(cells[last as int]) {
                lemma_with_sink_holds(
                    cells,
                    rest,
                    wire,
                    constraints[index].max_fanout,
                    last as usize,
                );
            }
        }
    }
}

/// Moving sinks one by one is moving them at once.
proof fn lemma_sinks_moved(
    cells: Seq<CellModel>,
    sinks: Seq<usize>,
    start: int,
    end: int,
    wire: u32,
)
    requires
        0 <= start <= end <= sinks.len(),
    ensures
        sinks_moved(cells, sinks, start, end, wire) == with_enables(
            cells,
            sinks.subrange(start, end),
            wire,
        ),
    decreases end - start,
{
    if start < end {
        lemma_sinks_moved(cells, sinks, start, end - 1, wire);
        let part = sinks.subrange(start, end);
        assert(part.drop_last() =~= sinks.subrange(start, end - 1));
        assert(part.last() == sinks[end - 1]);
    }
}

/// Enables moved to a buffer of their wire stay true.
proof fn lemma_buffer_true(
    original: NetlistModel,
    base: NetlistModel,
    cells: Seq<CellModel>,
    next: u32,
    wire: u32,
    sinks: Seq<usize>,
    buffer: CellModel,
)
    requires
        stays_true(original, NetlistModel { cells, ..base }, next as int),
        0 < next,
        buffer matches CellModel::Lut4 { inputs, output, init, .. } && inputs == [
            Bit::Wire(wire),
            Bit::Zero,
            Bit::Zero,
            Bit::Zero,
        ] && output == next && init == BUFFER_INIT,
        sinks.len() > 0,
        forall|k: int|
            0 <= k < sinks.len() ==> (#[trigger] sinks[k]) < cells.len() && enable_signal(
                cells[sinks[k] as int],
            ) == Some(Bit::Wire(wire)),
    ensures
        stays_true(
            original,
            NetlistModel { cells: with_enables(cells, sinks, next).push(buffer), ..base },
            next + 1,
        ),
        with_enables(cells, sinks, next).len() == cells.len(),
{
    let before = NetlistModel { cells, ..base };
    let after = NetlistModel { cells: with_enables(cells, sinks, next).push(buffer), ..base };
    let mirror = one_mirror(next, wire);
    let growth = Growth { mirror, next, source: -1 };
    lemma_cells_counted(before);
    let sink = sinks[0] as int;
    lemma_with_enables(cells, sinks, next, sink);
    assert(reads(before.cells[sink], wire)) by {
        assert(cell_inputs(cells[sink])[2] == Bit::Wire(wire));
    }
    assert(touches(before.cells[sink], wire));
    assert(is_sourced(before, wire));
    assert(mirror(next) == wire);
    assert(is_buffer(before, after.cells[cells.len() as int], growth));
    assert forall|i: int| 0 <= i < cells.len() implies is_rewired(
        mirror,
        #[trigger] before.cells[i],
        after.cells[i],
    ) by {
        lemma_with_enables(cells, sinks, next, i);
        assert forall|other: u32| #[trigger] touches(cells[i], other) implies other < next by {
            assert(touches(before.cells[i], other));
        }
        if sinks.contains(i as usize) {
            let k = choose|k: int| 0 <= k < sinks.len() && sinks[k] == i as usize;
            assert(enable_signal(cells[sinks[k] as int]) == Some(Bit::Wire(wire)));
            lemma_enabling(mirror, cells[i], wire, next, next as int);
        } else {
            lemma_unchanged(mirror, cells[i], next as int);
        }
    }
    assert forall|other: u32| #[trigger]
        drives(after.cells[before.cells.len() as int], other) implies other < next + 1 by {
        assert(cell_outputs(buffer) =~= seq![Bit::Wire(next)]);
    }
    lemma_grows_true(original, before, after, growth, next + 1);
}

/// Whether the sinks of branch `b` from `from` on, and those of later branches, are as
/// they were, and so is every lookup table.
spec fn sinks_wait(
    original: Seq<CellModel>,
    cells: Seq<CellModel>,
    branches: Seq<BranchModel>,
    b: int,
    from: int,
) -> bool {
    &&& original.len() <= cells.len()
    &&& forall|i: int|
        0 <= i < original.len() && (#[trigger] original[i]) is Lut4 ==> cells[i] == original[i]
    &&& forall|c: int, k: int|
        #![trigger branches[c].sinks[k]]
        0 <= c < branches.len() && 0 <= k < branches[c].sinks.len() && (c > b || (c == b && k
            >= from)) ==> cells[branches[c].sinks[k] as int] == original[branches[c].sinks[k]
            as int]
}

spec fn insertion_true(netlist: NetlistModel, state: InsertionModel) -> bool {
    state.next_wire > 0 && (!state.exhausted && state.next_wire < u32::MAX ==> stays_true(
        netlist,
        NetlistModel { cells: state.cells, ..netlist },
        state.next_wire as int,
    )) && (!state.exhausted ==> is_well_driven(NetlistModel { cells: state.cells, ..netlist })
        && keeps_shown(netlist, NetlistModel { cells: state.cells, ..netlist }))
}

#[verifier::rlimit(80)]
proof fn lemma_chunk_inserted(
    netlist: NetlistModel,
    state: InsertionModel,
    branches: Seq<BranchModel>,
    b: int,
    count: nat,
)
    requires
        is_well_driven(netlist),
        0 <= b < branches.len(),
        branches[b].max_fanout > 0,
        branches_hold(netlist.cells, branches, netlist.cells.len() as int),
        insertion_true(netlist, state),
        sinks_wait(netlist.cells, state.cells, branches, b, 0),
        count <= parts(branches[b].sinks.len() as int, branches[b].max_fanout as int),
    ensures
        ({
            let after = chunks_inserted(netlist.cells, state, branches[b], count);
            insertion_true(netlist, after) && (!after.exhausted ==> !state.exhausted
                && sinks_wait(
                netlist.cells,
                after.cells,
                branches,
                b,
                count * branches[b].max_fanout,
            ))
        }),
    decreases count,
{
    let branch = branches[b];
    let size = branch.max_fanout as int;
    if count > 0 {
        let last = (count - 1) as nat;
        lemma_chunk_inserted(netlist, state, branches, b, last);
        let rest = chunks_inserted(netlist.cells, state, branch, last);
        let after = chunks_inserted(netlist.cells, state, branch, count);
        let total = branch.sinks.len() as int;
        lemma_parts(total, size, last as int);
        let start = last * size;
        let end = part_end(total, size, last as int);
        let output = rest.next_wire;
        if !after.exhausted {
            let part = branch.sinks.subrange(start, end);
            lemma_sinks_moved(rest.cells, branch.sinks, start, end, output);
            let moved = with_enables(rest.cells, part, output);
            let cell = enable_branch(netlist.cells, moved, branch.wire, branch.max_fanout, output);
            assert(after.cells == moved.push(cell));
            lemma_driving_lut(netlist.cells, branch.wire, 0);
            lemma_cells_counted(netlist);
            lemma_cells_counted(NetlistModel { cells: rest.cells, ..netlist });
            assert forall|k: int| 0 <= k < part.len() implies (#[trigger] part[k])
                < rest.cells.len() && enable_signal(rest.cells[part[k] as int]) == Some(
                Bit::Wire(branch.wire),
            ) by {
                assert(part[k] == branches[b].sinks[start + k]);
            }
            if let Some(lut) = driving_lut(netlist.cells, branch.wire, 0) {
                assert(rest.cells[lut] == netlist.cells[lut]);
                lemma_chunk_true(netlist, netlist, rest.cells, output, lut, part, cell);
            } else {
                lemma_buffer_true(
                    netlist,
                    netlist,
                    rest.cells,
                    output,
                    branch.wire,
                    part,
                    cell,
                );
            }
            assert(count * size == start + size);
            lemma_chunk_waits(netlist, rest.cells, moved, cell, branches, b, start, end, output);
            if end == total {
                assert(count * size >= total);
            } else {
                assert(end == count * size);
            }
        }
    }
}

/// The sinks of later chunks stay as they were.
proof fn lemma_chunk_waits(
    netlist: NetlistModel,
    cells: Seq<CellModel>,
    moved: Seq<CellModel>,
    cell: CellModel,
    branches: Seq<BranchModel>,
    b: int,
    start: int,
    end: int,
    wire: u32,
)
    requires
        cells.len() <= usize::MAX,
        0 <= b < branches.len(),
        0 <= start <= end <= branches[b].sinks.len(),
        branches_hold(netlist.cells, branches, netlist.cells.len() as int),
        sinks_wait(netlist.cells, cells, branches, b, start),
        moved == with_enables(cells, branches[b].sinks.subrange(start, end), wire),
    ensures
        sinks_wait(netlist.cells, moved.push(cell), branches, b, end),
{
    let part = branches[b].sinks.subrange(start, end);
    let after = moved.push(cell);
    let original = netlist.cells;
    assert forall|k: int| 0 <= k < part.len() implies (#[trigger] part[k]) < cells.len() by {
        assert(part[k] == branches[b].sinks[start + k]);
    }
    assert forall|i: int| 0 <= i < cells.len() && !part.contains(i as usize) implies (
    #[trigger] moved[i]) == cells[i] && moved.len() == cells.len() by {
        lemma_with_enables(cells, part, wire, i);
    }
    if cells.len() > 0 {
        lemma_with_enables(cells, part, wire, 0);
    } else {
        assert(part.len() == 0) by {
            if part.len() > 0 {
                assert(part[0] < cells.len());
            }
        }
    }
    assert forall|i: int|
        0 <= i < original.len() && (#[trigger] original[i]) is Lut4 implies after[i]
        == original[i] by {
        if part.contains(i as usize) {
            let k = choose|k: int| 0 <= k < part.len() && part[k] == i as usize;
            assert(part[k] == branches[b].sinks[start + k]);
        }
        assert(moved[i] == cells[i]);
    }
    assert forall|c: int, k: int|
        #![trigger branches[c].sinks[k]]
        0 <= c < branches.len() && 0 <= k < branches[c].sinks.len() && (c > b || (c == b && k
            >= end)) implies after[branches[c].sinks[k] as int] == original[branches[c].sinks[k]
        as int] by {
        let i = branches[c].sinks[k];
        if part.contains(i) {
            let j = choose|j: int| 0 <= j < part.len() && part[j] == i;
            assert(part[j] == branches[b].sinks[start + j]);
            assert(branches[c].sinks[k] == branches[b].sinks[start + j]);
        }
        assert(moved[i as int] == cells[i as int]);
    }
}

proof fn lemma_branches_inserted(
    netlist: NetlistModel,
    state: InsertionModel,
    branches: Seq<BranchModel>,
    count: nat,
)
    requires
        is_well_driven(netlist),
        count <= branches.len(),
        forall|b: int| 0 <= b < branches.len() ==> (#[trigger] branches[b]).max_fanout > 0,
        branches_hold(netlist.cells, branches, netlist.cells.len() as int),
        insertion_true(netlist, state),
        state.cells == netlist.cells,
    ensures
        ({
            let after = branches_inserted(netlist.cells, state, branches, count);
            insertion_true(netlist, after) && (!after.exhausted ==> sinks_wait(
                netlist.cells,
                after.cells,
                branches,
                count as int,
                0,
            ))
        }),
    decreases count,
{
    if count > 0 {
        let b = count - 1;
        lemma_branches_inserted(netlist, state, branches, b as nat);
        let rest = branches_inserted(netlist.cells, state, branches, b as nat);
        let branch = branches[b];
        let chunks = parts(branch.sinks.len() as int, branch.max_fanout as int) as nat;
        if rest.exhausted {
            lemma_exhausted(netlist.cells, rest, branch, chunks);
        } else {
            assert(branches[b].max_fanout > 0);
            assert(chunks >= 0 && parts(
                branch.sinks.len() as int,
                branch.max_fanout as int,
            ) >= 0) by (nonlinear_arith)
                requires
                    branch.max_fanout > 0,
                    parts(branch.sinks.len() as int, branch.max_fanout as int) == (
                    branch.sinks.len() as int + branch.max_fanout as int - 1)
                        / (branch.max_fanout as int),
                    chunks == parts(
                        branch.sinks.len() as int,
                        branch.max_fanout as int,
                    ) as nat,
                    branch.sinks.len() >= 0,
            ;
            lemma_chunk_inserted(netlist, rest, branches, b, chunks);
        }
    }
}

proof fn lemma_exhausted(
    original: Seq<CellModel>,
    state: InsertionModel,
    branch: BranchModel,
    count: nat,
)
    requires
        state.exhausted,
    ensures
        chunks_inserted(original, state, branch, count).exhausted,
        chunks_inserted(original, state, branch, count).next_wire == state.next_wire,
    decreases count,
{
    if count > 0 {
        lemma_exhausted(original, state, branch, (count - 1) as nat);
    }
}

/// Whether every constraint allows at least one enable to a branch.
proof fn lemma_limits(
    cells: Seq<CellModel>,
    constraints: Seq<RegisterEnableFanoutConstraint>,
    count: nat,
)
    requires
        forall|i: int|
            0 <= i < constraints.len() ==> (#[trigger] constraints[i]).max_fanout > 0,
        count <= cells.len(),
    ensures
        forall|b: int|
            0 <= b < branches_of(cells, constraints, count).len() ==> (#[trigger] branches_of(
                cells,
                constraints,
                count,
            )[b]).max_fanout > 0,
    decreases count,
{
    if count > 0 {
        let last = (count - 1) as nat;
        lemma_limits(cells, constraints, last);
        let rest = branches_of(cells, constraints, last);
        if let Some(index) = selecting(
            cells[last as int],
            constraints,
            0,
            constraints.len() as int,
        ) {
            lemma_selecting(cells[last as int], constraints, 0, constraints.len() as int);
            if let Some(Bit::Wire(wire)) = enable_signal(cells[last as int]) {
                lemma_sink_limit(rest, wire, constraints[index].max_fanout, last as usize);
            }
        }
    }
}

proof fn lemma_selecting(
    cell: CellModel,
    constraints: Seq<RegisterEnableFanoutConstraint>,
    from: int,
    count: int,
)
    requires
        0 <= from,
        count <= constraints.len(),
    ensures
        selecting(cell, constraints, from, count) matches Some(index) ==> from <= index < count,
    decreases count - from,
{
    if from < count {
        lemma_selecting(cell, constraints, from + 1, count);
    }
}

proof fn lemma_sink_limit(
    branches: Seq<BranchModel>,
    wire: u32,
    max_fanout: usize,
    sink: usize,
)
    requires
        max_fanout > 0,
        forall|b: int| 0 <= b < branches.len() ==> (#[trigger] branches[b]).max_fanout > 0,
    ensures
        forall|b: int|
            0 <= b < with_sink(branches, wire, max_fanout, sink).len() ==> (#[trigger] with_sink(
                branches,
                wire,
                max_fanout,
                sink,
            )[b]).max_fanout > 0,
    decreases branches.len(),
{
    if branches.len() > 0 {
        let rest = branches.drop_last();
        assert forall|b: int| 0 <= b < rest.len() implies (#[trigger] rest[b]).max_fanout > 0 by {
            assert(rest[b] == branches[b]);
        }
        assert(branches[branches.len() - 1] == branches.last());
        lemma_sink_limit(rest, wire, max_fanout, sink);
        let after = with_sink(branches, wire, max_fanout, sink);
        let inner = with_sink(rest, wire, max_fanout, sink);
        assert forall|b: int| 0 <= b < after.len() implies (#[trigger] after[b]).max_fanout > 0 by {
            if b < branches.len() {
                assert(branches[b].max_fanout > 0);
            }
            if b < inner.len() {
                assert(inner[b].max_fanout > 0);
            }
        }
    }
}

proof fn lemma_no_fault_limits(
    cells: Seq<CellModel>,
    constraints: Seq<RegisterEnableFanoutConstraint>,
    from: int,
)
    requires
        0 <= from,
        constraints_fault(cells, constraints, from) is None,
    ensures
        forall|i: int|
            from <= i < constraints.len() ==> (#[trigger] constraints[i]).max_fanout > 0,
    decreases constraints.len() - from,
{
    if from < constraints.len() {
        lemma_no_fault_limits(cells, constraints, from + 1);
    }
}

/// Constraining enable fanouts keeps what is shown.
pub proof fn law_fanout_constraints_keep_shown(
    netlist: NetlistModel,
    constraints: Seq<RegisterEnableFanoutConstraint>,
)
    requires
        is_well_driven(netlist),
        fanout_fault(netlist, constraints) is None,
    ensures
        keeps_shown(netlist, fanout_constrained(netlist, constraints)),
        is_well_driven(fanout_constrained(netlist, constraints)),
{
    let branches = branches_of(netlist.cells, constraints, netlist.cells.len());
    let start = insertion_start(netlist.cells, next_free_wire(netlist));
    lemma_cells_counted(netlist);
    lemma_branches_hold(netlist.cells, constraints, netlist.cells.len());
    lemma_no_fault_limits(netlist.cells, constraints, 0);
    lemma_limits(netlist.cells, constraints, netlist.cells.len());
    lemma_starts_true(netlist);
    law_shown_is_kept(netlist);
    let same = NetlistModel { cells: start.cells, ..netlist };
    lemma_follows_alike(netlist, netlist, same);
    if let Some(next) = next_free_wire(netlist) {
        lemma_true_alike(netlist, netlist, same, next as int);
    }
    lemma_branches_inserted(netlist, start, branches, branches.len());
    let state = enables_branched(netlist, constraints);
    lemma_follows_alike(
        netlist,
        NetlistModel { cells: state.cells, ..netlist },
        fanout_constrained(netlist, constraints),
    );
}

} // verus!
