//! Which sinks refinement moves: those that a report finds late.

use vstd::prelude::*;

use crate::cells::cell_inputs;
use crate::cells::cell_outputs;
use crate::cells::renumbered_cell;
use crate::cells::Bit;
use crate::cells::CellModel;
use crate::cluster::drives_late_enable;
use crate::cluster::group_reclustered;
use crate::cluster::has_late_enable;
use crate::cluster::ClusterModel;
use crate::critical::branch_replicated;
use crate::critical::branches_replicated;
use crate::critical::calls_for_branch;
use crate::critical::critical_replicated;
use crate::critical::driven_wire;
use crate::critical::pins_rewired;
use crate::critical::replicable_driver;
use crate::critical::sink_names;
use crate::critical::sinks_rewired;
use crate::critical::with_name;
use crate::critical::CriticalModel;
use crate::names::law_read_after_set;
use crate::names::law_with_entry_keeps_order;
use crate::names::named;
use crate::names::names_ordered;
use crate::netlist::next_free_wire;
use crate::netlist::wire_fanout;
use crate::netlist::NetlistModel;
use crate::physical::PhysicalCriticalPath;
use crate::physical::PhysicalFeedback;
use crate::physical::PhysicalNetTiming;
use crate::physical::PhysicalTimingEndpoint;
use crate::refine::path_sink;
use crate::refine::path_sinks;
use crate::refine::register_named;
use crate::renumbered::lemma_renumbered_inputs;
use crate::shown::same_make;

verus! {

/// Whether an endpoint is a data pin of the cell `name`: no clock, reset or clock enable.
pub open spec fn reaches_data(endpoint: PhysicalTimingEndpoint, name: Seq<char>) -> bool {
    &&& endpoint.cell@ == name
    &&& endpoint.port@ != "CLK"@
    &&& endpoint.port@ != "LSR"@
    &&& endpoint.port@ != "CE"@
}

/// Whether a report has a data endpoint of the cell `name`.
pub open spec fn has_data_endpoint(
    endpoints: Seq<PhysicalTimingEndpoint>,
    name: Seq<char>,
) -> bool {
    exists|e: int| 0 <= e < endpoints.len() && reaches_data(#[trigger] endpoints[e], name)
}

/// Whether a report has a data endpoint of the cell `name` whose delay exceeds its budget.
pub open spec fn has_late_endpoint(
    endpoints: Seq<PhysicalTimingEndpoint>,
    name: Seq<char>,
) -> bool {
    exists|e: int|
        0 <= e < endpoints.len() && reaches_data(#[trigger] endpoints[e], name)
            && endpoints[e].delay_ps > endpoints[e].budget_ps
}

/// The sinks of a net are those that the report has a data endpoint of, and its late
/// sinks those with one whose delay exceeds its budget; none is listed twice.
pub proof fn law_late_sinks_are_late(
    endpoints: Seq<PhysicalTimingEndpoint>,
    count: nat,
    name: Seq<char>,
)
    requires
        count <= endpoints.len(),
    ensures
        sink_names(endpoints, true, count).contains(name) <==> has_late_endpoint(
            endpoints.take(count as int),
            name,
        ),
        sink_names(endpoints, false, count).contains(name) <==> has_data_endpoint(
            endpoints.take(count as int),
            name,
        ),
        sink_names(endpoints, true, count).no_duplicates(),
        sink_names(endpoints, false, count).no_duplicates(),
    decreases count,
{
    if count > 0 {
        let last = (count - 1) as nat;
        law_late_sinks_are_late(endpoints, last, name);
        let here = endpoints.take(count as int);
        let rest = endpoints.take(last as int);
        let endpoint = endpoints[last as int];
        law_late_sinks_are_late(endpoints, last, endpoint.cell@);
        assert(here[last as int] == endpoint);
        assert(forall|e: int| 0 <= e < last ==> #[trigger] here[e] == rest[e]);
        lemma_with_name(sink_names(endpoints, true, last), endpoint.cell@, name);
        lemma_with_name(sink_names(endpoints, false, last), endpoint.cell@, name);
        if has_late_endpoint(rest, name) {
            let e = choose|e: int|
                0 <= e < rest.len() && reaches_data(#[trigger] rest[e], name)
                    && rest[e].delay_ps > rest[e].budget_ps;
            assert(here[e] == rest[e]);
        }
        if has_data_endpoint(rest, name) {
            let e = choose|e: int| 0 <= e < rest.len() && reaches_data(#[trigger] rest[e], name);
            assert(here[e] == rest[e]);
        }
        if has_late_endpoint(here, name) {
            let e = choose|e: int|
                0 <= e < here.len() && reaches_data(#[trigger] here[e], name)
                    && here[e].delay_ps > here[e].budget_ps;
            if e < last {
                assert(rest[e] == here[e]);
            }
        }
        if has_data_endpoint(here, name) {
            let e = choose|e: int| 0 <= e < here.len() && reaches_data(#[trigger] here[e], name);
            if e < last {
                assert(rest[e] == here[e]);
            }
        }
    }
}

proof fn lemma_with_name(names: Seq<Seq<char>>, added: Seq<char>, name: Seq<char>)
    requires
        names.no_duplicates(),
    ensures
        with_name(names, added).contains(name) <==> names.contains(name) || name == added,
        with_name(names, added).no_duplicates(),
{
    let after = with_name(names, added);
    if !names.contains(added) {
        if names.contains(name) {
            let k = choose|k: int| 0 <= k < names.len() && names[k] == name;
            assert(after[k] == name);
        }
        assert(after[names.len() as int] == added);
        if after.contains(name) {
            let k = choose|k: int| 0 <= k < after.len() && after[k] == name;
            if k < names.len() {
                assert(names[k] == name);
            }
        }
        assert forall|i: int, j: int|
            0 <= i < after.len() && 0 <= j < after.len() && i != j implies after[i]
            != after[j] by {
            if i < names.len() && j < names.len() {
                assert(names[i] != names[j]);
            } else if i < names.len() {
                assert(names.contains(names[i]));
            } else if j < names.len() {
                assert(names.contains(names[j]));
            }
        }
    }
}

/// A net calls for a branch exactly where it has late sinks, at most sixteen of them,
/// and a sink that is not late.
pub proof fn law_branches_serve_late_sinks(timing: PhysicalNetTiming)
    ensures
        ({
            let endpoints = timing.endpoints@;
            let late = sink_names(endpoints, true, endpoints.len());
            &&& forall|name: Seq<char>| #[trigger]
                late.contains(name) <==> has_late_endpoint(endpoints, name)
            &&& late.no_duplicates()
            &&& calls_for_branch(timing) <==> late.len() > 0 && late.len() <= 16 && exists|
                name: Seq<char>,
            | #[trigger]
                has_data_endpoint(endpoints, name) && !has_late_endpoint(endpoints, name)
        }),
{
    let endpoints = timing.endpoints@;
    let count = endpoints.len();
    let late = sink_names(endpoints, true, count);
    let all = sink_names(endpoints, false, count);
    assert(endpoints.take(count as int) =~= endpoints);
    assert forall|name: Seq<char>|
        #![trigger late.contains(name)]
        #![trigger all.contains(name)]
        #![trigger has_data_endpoint(endpoints, name)]
        (late.contains(name) <==> has_late_endpoint(endpoints, name)) && (all.contains(name)
            <==> has_data_endpoint(endpoints, name)) && (late.contains(name) ==> all.contains(
            name,
        )) by {
        law_late_sinks_are_late(endpoints, count, name);
        if has_late_endpoint(endpoints, name) {
            let e = choose|e: int|
                0 <= e < endpoints.len() && reaches_data(#[trigger] endpoints[e], name)
                    && endpoints[e].delay_ps > endpoints[e].budget_ps;
            assert(reaches_data(endpoints[e], name));
        }
    }
    law_late_sinks_are_late(endpoints, count, seq![]);
    late.unique_seq_to_set();
    all.unique_seq_to_set();
    assert(late.to_set().subset_of(all.to_set())) by {
        assert forall|name: Seq<char>| late.to_set().contains(name) implies all.to_set().contains(
            name,
        ) by {
            assert(late.contains(name));
            assert(all.contains(name));
        }
    }
    vstd::set_lib::lemma_len_subset(late.to_set(), all.to_set());
    if late.len() < all.len() {
        if forall|name: Seq<char>| #[trigger] all.contains(name) ==> late.contains(name) {
            assert(all.to_set().subset_of(late.to_set())) by {
                assert forall|name: Seq<char>| all.to_set().contains(
                    name,
                ) implies late.to_set().contains(name) by {
                    assert(all.contains(name));
                    assert(late.contains(name));
                }
            }
            vstd::set_lib::lemma_len_subset(all.to_set(), late.to_set());
        }
        let name = choose|name: Seq<char>| #[trigger] all.contains(name) && !late.contains(name);
        assert(has_data_endpoint(endpoints, name) && !has_late_endpoint(endpoints, name));
    } else if exists|name: Seq<char>| #[trigger]
        has_data_endpoint(endpoints, name) && !has_late_endpoint(endpoints, name) {
        let name = choose|name: Seq<char>| #[trigger]
            has_data_endpoint(endpoints, name) && !has_late_endpoint(endpoints, name);
        vstd::set_lib::lemma_subset_equality(late.to_set(), all.to_set());
        assert(all.contains(name));
        assert(all.to_set().contains(name));
        assert(late.to_set().contains(name));
        assert(late.contains(name));
    }
}

/// Whether `after` reads `to` wherever `before` reads `from`, and else is the same cell.
pub open spec fn is_moved_sink(before: CellModel, after: CellModel, from: u32, to: u32) -> bool {
    &&& same_make(before, after)
    &&& cell_outputs(before) == cell_outputs(after)
    &&& cell_inputs(before).len() == cell_inputs(after).len()
    &&& !(before is Pll) ==> forall|k: int|
        0 <= k < cell_inputs(before).len() ==> (#[trigger] cell_inputs(after)[k])
            == if cell_inputs(before)[k] == Bit::Wire(from) {
            Bit::Wire(to)
        } else {
            cell_inputs(before)[k]
        }
}

/// Whether two cells are a driver and its replica: of one kind, reading the same, with
/// the same table, clock, edge, enable and reset.
pub open spec fn is_replica(driver: CellModel, replica: CellModel, wire: u32) -> bool {
    match (driver, replica) {
        (
            CellModel::Lut4 { inputs, init, .. },
            CellModel::Lut4 { inputs: others, output, init: table, .. },
        ) => inputs == others && init == table && output == wire,
        (
            CellModel::FlipFlop { data, clock, edge, enable, reset, .. },
            CellModel::FlipFlop {
                data: d,
                output,
                clock: c,
                edge: e,
                enable: n,
                reset: r,
                ..
            },
        ) => data == d && clock == c && edge == e && enable == n && reset == r && output == wire,
        _ => false,
    }
}

/// A branch for late sinks moves those and no others. Either nothing changes, or the net
/// has a driver of the reported name, a replica of it is added on the new wire, every cell
/// with a data endpoint whose delay exceeds its budget reads the new wire where it read
/// the old one, and every other cell is the cell it was.
pub proof fn law_late_sinks_move(state: CriticalModel, timing: PhysicalNetTiming)
    ensures
        ({
            let after = branch_replicated(state, timing);
            let cells = state.netlist.cells;
            let endpoints = timing.endpoints@;
            after.netlist == state.netlist || exists|driver: int|
                #![trigger cells[driver]]
                {
                    &&& 0 <= driver < cells.len()
                    &&& cells[driver].cell_name() == timing.driver@
                    &&& state.next_wire is Some
                    &&& after.netlist.ports == state.netlist.ports
                    &&& after.netlist.cells.len() == cells.len() + 1
                    &&& is_replica(
                        cells[driver],
                        after.netlist.cells[cells.len() as int],
                        state.next_wire->0,
                    )
                    &&& after.replicas == state.replicas + 1
                    &&& forall|i: int|
                        0 <= i < cells.len() ==> if has_late_endpoint(
                            endpoints,
                            cells[i].cell_name(),
                        ) {
                            is_moved_sink(
                                cells[i],
                                #[trigger] after.netlist.cells[i],
                                driven_wire(cells[driver]),
                                state.next_wire->0,
                            )
                        } else {
                            after.netlist.cells[i] == cells[i]
                        }
                }
        }),
{
    let after = branch_replicated(state, timing);
    let cells = state.netlist.cells;
    let endpoints = timing.endpoints@;
    if after.netlist != state.netlist {
        lemma_driver_found(cells, timing.driver@, 0);
        let driver = replicable_driver(cells, timing.driver@, 0)->0;
        let wire = state.next_wire->0;
        let output = driven_wire(cells[driver]);
        let names = sink_names(endpoints, true, endpoints.len());
        assert(endpoints.take(endpoints.len() as int) =~= endpoints);
        assert forall|i: int| 0 <= i < cells.len() implies if has_late_endpoint(
            endpoints,
            cells[i].cell_name(),
        ) {
            is_moved_sink(cells[i], #[trigger] after.netlist.cells[i], output, wire)
        } else {
            after.netlist.cells[i] == cells[i]
        } by {
            law_late_sinks_are_late(endpoints, endpoints.len(), cells[i].cell_name());
            assert(after.netlist.cells[i] == sinks_rewired(cells, names, output, wire)[i]);
            lemma_moved_sink(cells[i], output, wire);
        }
        assert(cells[driver].cell_name() == timing.driver@);
    }
}

proof fn lemma_moved_sink(cell: CellModel, from: u32, to: u32)
    ensures
        is_moved_sink(cell, renumbered_cell(cell, from, to), from, to),
{
    if !(cell is Pll) {
        lemma_renumbered_inputs(cell, from, to);
    }
}

proof fn lemma_driver_found(cells: Seq<CellModel>, name: Seq<char>, from: int)
    requires
        0 <= from,
    ensures
        replicable_driver(cells, name, from) matches Some(index) ==> from <= index < cells.len()
            && cells[index].cell_name() == name && (cells[index] is Lut4
            || cells[index] is FlipFlop),
    decreases cells.len() - from,
{
    if from < cells.len() && !((cells[from] is Lut4 || cells[from] is FlipFlop)
        && cells[from].cell_name() == name) {
        lemma_driver_found(cells, name, from + 1);
    }
}

/// Whether some net of a report has a data endpoint of the cell `name` whose delay
/// exceeds its budget.
pub open spec fn is_reported_late(timings: Seq<PhysicalNetTiming>, name: Seq<char>) -> bool {
    exists|t: int| 0 <= t < timings.len() && has_late_endpoint((#[trigger] timings[t]).endpoints@, name)
}

/// A sink all of whose data endpoints keep their budget reads what it read before,
/// however many branches a report calls for.
pub proof fn law_sinks_in_time_stay(
    state: CriticalModel,
    timings: Seq<PhysicalNetTiming>,
    count: nat,
    i: int,
)
    requires
        count <= timings.len(),
        0 <= i < state.netlist.cells.len(),
        !is_reported_late(timings, state.netlist.cells[i].cell_name()),
    ensures
        branches_replicated(state, timings, count).netlist.cells.len()
            >= state.netlist.cells.len(),
        branches_replicated(state, timings, count).netlist.cells[i] == state.netlist.cells[i],
    decreases count,
{
    if count > 0 {
        let last = (count - 1) as nat;
        law_sinks_in_time_stay(state, timings, last, i);
        let rest = branches_replicated(state, timings, last);
        law_late_sinks_move(rest, timings[last as int]);
        assert(!has_late_endpoint(timings[last as int].endpoints@, rest.netlist.cells[i].cell_name()));
        let after = branch_replicated(rest, timings[last as int]);
        if after.netlist != rest.netlist {
            assert(after.netlist.cells[i] == rest.netlist.cells[i]);
        }
    }
}

/// What refinement does to a cell that no reported net finds late: where no register is
/// moved it stays as it was, but for the enable of a flip-flop.
pub proof fn law_refinement_spares_sinks_in_time(
    netlist: NetlistModel,
    feedback: PhysicalFeedback,
    i: int,
)
    requires
        0 <= i < netlist.cells.len(),
        !is_reported_late(feedback.net_timings@, netlist.cells[i].cell_name()),
    ensures
        critical_replicated(netlist, feedback).netlist.cells.len() >= netlist.cells.len(),
        critical_replicated(netlist, feedback).netlist.cells[i] == netlist.cells[i],
{
    let start = CriticalModel {
        netlist,
        next_wire: next_free_wire(netlist),
        replicas: 0,
        rewires: 0,
    };
    law_sinks_in_time_stay(start, feedback.net_timings@, feedback.net_timings@.len(), i);
}

/// A late sink is served. Where the limit of replicas is not reached, the net has a
/// driver and a free wire, calls for a branch, one of its late sinks reads the driver, and
/// something else reads it too, the branch is made.
pub proof fn law_late_sinks_are_served(state: CriticalModel, timing: PhysicalNetTiming)
    requires
        state.replicas < 16,
        calls_for_branch(timing),
        replicable_driver(state.netlist.cells, timing.driver@, 0) is Some,
        state.next_wire matches Some(wire) && wire < u32::MAX,
        ({
            let cells = state.netlist.cells;
            let output = driven_wire(cells[replicable_driver(cells, timing.driver@, 0)->0]);
            let names = sink_names(timing.endpoints@, true, timing.endpoints@.len());
            pins_rewired(cells, names, output, cells.len()) > 0 && wire_fanout(
                NetlistModel {
                    cells: sinks_rewired(cells, names, output, state.next_wire->0),
                    ..state.netlist
                },
                output,
            ) > 0
        }),
    ensures
        branch_replicated(state, timing).replicas == state.replicas + 1,
        branch_replicated(state, timing).netlist.cells.len() == state.netlist.cells.len() + 1,
{
}

/// The registers whose cones are retimed are those that end a reported path between
/// registers: the last flip-flop on it.
pub proof fn law_retimed_cones_end_paths(
    cells: Seq<CellModel>,
    paths: Seq<PhysicalCriticalPath>,
    count: nat,
    name: Seq<char>,
)
    requires
        count <= paths.len(),
    ensures
        names_ordered(path_sinks(cells, paths, count)),
        named(path_sinks(cells, paths, count), name) is Some <==> exists|p: int| 0 <= p < count
            && #[trigger] ends_path(cells, paths[p], name),
    decreases count,
{
    let sinks = path_sinks(cells, paths, count);
    if count > 0 {
        let last = (count - 1) as nat;
        law_retimed_cones_end_paths(cells, paths, last, name);
        let path = paths[last as int];
        lemma_path_sink(cells, path, path.cells@.len(), name);
        let rest = path_sinks(cells, paths, last);
        if path.register_to_register {
            if let Some(found) = path_sink(cells, path, path.cells@.len()) {
                law_read_after_set(rest, found, (), name);
                law_with_entry_keeps_order(rest, found, ());
            }
        }
        if exists|p: int| 0 <= p < count && #[trigger] ends_path(cells, paths[p], name) {
            let p = choose|p: int| 0 <= p < count && #[trigger] ends_path(cells, paths[p], name);
            assert(p < last || paths[p] == path);
        }
        if exists|p: int| 0 <= p < last && #[trigger] ends_path(cells, paths[p], name) {
            let p = choose|p: int| 0 <= p < last && #[trigger] ends_path(cells, paths[p], name);
            assert(ends_path(cells, paths[p], name));
        }
        if ends_path(cells, path, name) {
            assert(ends_path(cells, paths[last as int], name));
        }
    }
}

/// Whether a path between registers ends at the flip-flop `name`.
pub open spec fn ends_path(
    cells: Seq<CellModel>,
    path: PhysicalCriticalPath,
    name: Seq<char>,
) -> bool {
    path.register_to_register && exists|k: int|
        0 <= k < path.cells@.len() && (#[trigger] path.cells@[k])@ == name && register_named(
            cells,
            name,
        ) && forall|j: int|
            k < j < path.cells@.len() ==> !register_named(cells, (#[trigger] path.cells@[j])@)
}

proof fn lemma_path_sink(
    cells: Seq<CellModel>,
    path: PhysicalCriticalPath,
    count: nat,
    name: Seq<char>,
)
    requires
        count <= path.cells@.len(),
        forall|j: int|
            count <= j < path.cells@.len() ==> !register_named(
                cells,
                (#[trigger] path.cells@[j])@,
            ),
    ensures
        path.register_to_register ==> (path_sink(cells, path, count) == Some(name) <==> ends_path(
            cells,
            path,
            name,
        )),
    decreases count,
{
    if count > 0 {
        let last = path.cells@[count - 1]@;
        if !register_named(cells, last) {
            lemma_path_sink(cells, path, (count - 1) as nat, name);
        } else if path.register_to_register {
            if ends_path(cells, path, name) {
                let k = choose|k: int|
                    0 <= k < path.cells@.len() && (#[trigger] path.cells@[k])@ == name
                        && register_named(cells, name) && forall|j: int|
                        k < j < path.cells@.len() ==> !register_named(
                            cells,
                            (#[trigger] path.cells@[j])@,
                        );
                if k < count - 1 {
                    assert(!register_named(cells, path.cells@[count - 1]@));
                }
                assert(k == count - 1);
            }
            if last == name {
                assert(path.cells@[count - 1]@ == name);
            }
        }
    }
}

/// A register's enable is reclustered only where a net with a late clock enable is
/// reported for the driver it reads or the one it comes to read.
pub proof fn law_reclustering_serves_late_enables(
    state: ClusterModel,
    feedback: PhysicalFeedback,
    origin: Seq<char>,
    replica: usize,
    size: usize,
)
    requires
        replica < state.cells.len(),
        !late_enable_reported(feedback.net_timings@, origin),
        !late_enable_reported(
            feedback.net_timings@,
            state.cells[replica as int].cell_name(),
        ),
    ensures
        group_reclustered(state, feedback, origin, replica, size) == state,
{
    let timings = feedback.net_timings@;
    let other = state.cells[replica as int].cell_name();
    if drives_late_enable(timings, origin) {
        let t = choose|t: int|
            0 <= t < timings.len() && (#[trigger] timings[t]).driver@ == origin
                && has_late_enable(timings[t].endpoints@);
        let endpoints = timings[t].endpoints@;
        let e = choose|e: int|
            0 <= e < endpoints.len() && (#[trigger] endpoints[e]).port@ == "CE"@
                && endpoints[e].delay_ps > endpoints[e].budget_ps;
        assert(timings[t].endpoints@[e].port@ == "CE"@);
    }
    if drives_late_enable(timings, other) {
        let t = choose|t: int|
            0 <= t < timings.len() && (#[trigger] timings[t]).driver@ == other && has_late_enable(
                timings[t].endpoints@,
            );
        let endpoints = timings[t].endpoints@;
        let e = choose|e: int|
            0 <= e < endpoints.len() && (#[trigger] endpoints[e]).port@ == "CE"@
                && endpoints[e].delay_ps > endpoints[e].budget_ps;
        assert(timings[t].endpoints@[e].port@ == "CE"@);
    }
}

/// Whether a report has a clock enable behind the cell `driver` whose delay exceeds its
/// budget.
pub open spec fn late_enable_reported(timings: Seq<PhysicalNetTiming>, driver: Seq<char>) -> bool {
    exists|t: int, e: int|
        0 <= t < timings.len() && timings[t].driver@ == driver && 0 <= e
            < timings[t].endpoints@.len() && (#[trigger] timings[t].endpoints@[e]).port@ == "CE"@
            && timings[t].endpoints@[e].delay_ps > timings[t].endpoints@[e].budget_ps
}

} // verus!
