//! Equivalent local rewrites that routed timing calls for.

use vstd::prelude::*;

use crate::cells::clamped;
use crate::cells::mapped_cell_name;
use crate::cells::renumbered_cell;
use crate::cells::replace_wire_in_cell_inputs;
use crate::cells::rewritable_inputs;
use crate::cells::wire_count;
use crate::cells::CellModel;
use crate::cells::Ecp5Cell;
use crate::netlist::cell_models;
use crate::netlist::free_wire;
use crate::netlist::mapped_wire_fanout;
use crate::netlist::next_free_wire;
use crate::netlist::wire_fanout;
use crate::netlist::Ecp5Netlist;
use crate::netlist::NetlistModel;
use crate::physical::name_texts;
use crate::physical::PhysicalFeedback;
use crate::physical::PhysicalNetTiming;
use crate::physical::PhysicalTimingEndpoint;
use crate::text::decimal;
use crate::text::decimal_text;
use crate::text::join;

verus! {

/// Replicas made from one report at most.
pub const MAX_PHYSICAL_REPLICAS: usize = 16;

/// Sinks of one replica at most.
pub const MAX_REPLICATED_BRANCH_FANOUT: usize = 16;

/// Whether an endpoint is neither a clock, a reset nor a clock enable.
pub open spec fn is_data_pin(endpoint: PhysicalTimingEndpoint) -> bool {
    endpoint.port@ != "CLK"@ && endpoint.port@ != "LSR"@ && endpoint.port@ != "CE"@
}

/// Whether an endpoint is later than its budget.
pub open spec fn is_late(endpoint: PhysicalTimingEndpoint) -> bool {
    endpoint.delay_ps > endpoint.budget_ps
}

/// `names` with `name`, unless it is there already.
pub open spec fn with_name(names: Seq<Seq<char>>, name: Seq<char>) -> Seq<Seq<char>> {
    if names.contains(name) {
        names
    } else {
        names.push(name)
    }
}

/// The distinct cells of data pins among the first `count` endpoints; with `late` only of late ones.
pub open spec fn sink_names(
    endpoints: Seq<PhysicalTimingEndpoint>,
    late: bool,
    count: nat,
) -> Seq<Seq<char>>
    decreases count,
{
    if count == 0 {
        seq![]
    } else {
        let rest = sink_names(endpoints, late, (count - 1) as nat);
        let endpoint = endpoints[count - 1];
        if is_data_pin(endpoint) && (!late || is_late(endpoint)) {
            with_name(rest, endpoint.cell@)
        } else {
            rest
        }
    }
}

/// The first lookup table or flip-flop from `from` on with this name.
pub open spec fn replicable_driver(cells: Seq<CellModel>, name: Seq<char>, from: int) -> Option<int>
    decreases cells.len() - from,
{
    if from >= cells.len() {
        None
    } else if (cells[from] is Lut4 || cells[from] is FlipFlop) && cells[from].cell_name() == name {
        Some(from)
    } else {
        replicable_driver(cells, name, from + 1)
    }
}

/// The wire that a lookup table or flip-flop drives.
pub open spec fn driven_wire(cell: CellModel) -> u32 {
    match cell {
        CellModel::Lut4 { output, .. } => output,
        CellModel::FlipFlop { output, .. } => output,
        _ => 0,
    }
}

/// A lookup table or flip-flop under another name, driving another wire.
pub open spec fn renamed(cell: CellModel, name: Seq<char>, output: u32) -> CellModel {
    match cell {
        CellModel::Lut4 { inputs, init, .. } => CellModel::Lut4 { name, inputs, output, init },
        CellModel::FlipFlop { data, clock, edge, enable, reset, .. } => CellModel::FlipFlop {
            name,
            data,
            output,
            clock,
            edge,
            enable,
            reset,
        },
        _ => cell,
    }
}

/// The first `count` cells, those among `names` reading `to` in place of `from`.
pub open spec fn sinks_rewired(
    cells: Seq<CellModel>,
    names: Seq<Seq<char>>,
    from: u32,
    to: u32,
) -> Seq<CellModel> {
    Seq::new(
        cells.len(),
        |i: int|
            if names.contains(cells[i].cell_name()) {
                renumbered_cell(cells[i], from, to)
            } else {
                cells[i]
            },
    )
}

/// How many pins of the first `count` cells among `names` read `wire`.
pub open spec fn pins_rewired(
    cells: Seq<CellModel>,
    names: Seq<Seq<char>>,
    wire: u32,
    count: nat,
) -> nat
    decreases count,
{
    if count == 0 {
        0
    } else {
        pins_rewired(cells, names, wire, (count - 1) as nat) + if names.contains(
            cells[count - 1].cell_name(),
        ) {
            wire_count(rewritable_inputs(cells[count - 1]), wire)
        } else {
            0
        }
    }
}

/// State of critical-branch replication.
#[verifier::ext_equal]
pub ghost struct CriticalModel {
    pub netlist: NetlistModel,
    pub next_wire: Option<u32>,
    pub replicas: nat,
    pub rewires: nat,
}

/// Whether a net has late data sinks, few of them, and others that are not late.
pub open spec fn calls_for_branch(timing: PhysicalNetTiming) -> bool {
    let count = timing.endpoints@.len();
    let late = sink_names(timing.endpoints@, true, count).len();
    0 < late <= MAX_REPLICATED_BRANCH_FANOUT && late < sink_names(
        timing.endpoints@,
        false,
        count,
    ).len()
}

/// The state after one net's late sinks got a driver of their own.
///
/// Nothing changes but the wire taken where no pin of those sinks reads the
/// driver, or nothing else would read it any more.
pub open spec fn branch_replicated(state: CriticalModel, timing: PhysicalNetTiming) -> CriticalModel {
    let cells = state.netlist.cells;
    let driver = replicable_driver(cells, timing.driver@, 0);
    if state.replicas >= MAX_PHYSICAL_REPLICAS || !calls_for_branch(timing) || driver is None {
        state
    } else {
        match state.next_wire {
            None => state,
            Some(wire) => {
                let names = sink_names(timing.endpoints@, true, timing.endpoints@.len());
                let output = driven_wire(cells[driver->0]);
                let moved = NetlistModel {
                    cells: sinks_rewired(cells, names, output, wire),
                    ..state.netlist
                };
                let pins = pins_rewired(cells, names, output, cells.len());
                let next_wire = if wire == u32::MAX {
                    None
                } else {
                    Some((wire + 1) as u32)
                };
                if next_wire is None {
                    CriticalModel { next_wire, ..state }
                } else if pins == 0 || wire_fanout(moved, output) == 0 {
                    CriticalModel { next_wire, ..state }
                } else {
                    CriticalModel {
                        netlist: NetlistModel {
                            cells: moved.cells.push(
                                renamed(
                                    cells[driver->0],
                                    "physical_replicate_"@ + timing.driver@ + "_"@ + decimal_text(
                                        state.replicas,
                                    ),
                                    wire,
                                ),
                            ),
                            ..moved
                        },
                        next_wire,
                        replicas: state.replicas + 1,
                        rewires: state.rewires + pins,
                    }
                }
            },
        }
    }
}

/// The state after the first `count` nets.
pub open spec fn branches_replicated(
    state: CriticalModel,
    timings: Seq<PhysicalNetTiming>,
    count: nat,
) -> CriticalModel
    decreases count,
{
    if count == 0 {
        state
    } else {
        branch_replicated(
            branches_replicated(state, timings, (count - 1) as nat),
            timings[count - 1],
        )
    }
}

/// A netlist whose late branches have drivers of their own.
pub open spec fn critical_replicated(
    netlist: NetlistModel,
    feedback: PhysicalFeedback,
) -> CriticalModel {
    branches_replicated(
        CriticalModel { netlist, next_wire: next_free_wire(netlist), replicas: 0, rewires: 0 },
        feedback.net_timings@,
        feedback.net_timings@.len(),
    )
}

/// One report never makes more replicas than its limit.
pub proof fn law_replicas_are_bounded(
    state: CriticalModel,
    timings: Seq<PhysicalNetTiming>,
    count: nat,
)
    requires
        state.replicas <= MAX_PHYSICAL_REPLICAS,
    ensures
        branches_replicated(state, timings, count).replicas <= MAX_PHYSICAL_REPLICAS,
    decreases count,
{
    if count > 0 {
        law_replicas_are_bounded(state, timings, (count - 1) as nat);
    }
}

fn holds_name(names: &Vec<String>, name: &String) -> (found: bool)
    ensures
        found == name_texts(names@).contains(name@),
{
    for i in 0..names.len()
        invariant
            forall|j: int| 0 <= j < i ==> name_texts(names@)[j] != name@,
    {
        if names[i] == *name {
            assert(name_texts(names@)[i as int] == name@);
            return true;
        }
    }
    false
}

fn list_sink_names(endpoints: &Vec<PhysicalTimingEndpoint>, late: bool) -> (names: Vec<String>)
    ensures
        name_texts(names@) == sink_names(endpoints@, late, endpoints@.len()),
{
    let clock = "CLK".to_owned();
    let reset = "LSR".to_owned();
    let enable = "CE".to_owned();
    let mut names: Vec<String> = Vec::new();
    assert(name_texts(names@) =~= Seq::<Seq<char>>::empty());
    for i in 0..endpoints.len()
        invariant
            clock@ == "CLK"@,
            reset@ == "LSR"@,
            enable@ == "CE"@,
            name_texts(names@) == sink_names(endpoints@, late, i as nat),
    {
        let endpoint = &endpoints[i];
        if endpoint.port != clock && endpoint.port != reset && endpoint.port != enable && (!late
            || endpoint.delay_ps > endpoint.budget_ps) {
            if !holds_name(&names, &endpoint.cell) {
                let ghost before = names@;
                let name = endpoint.cell.clone();
                names.push(name);
                assert(name_texts(names@) =~= name_texts(before).push(endpoint.cell@));
            }
        }
    }
    names
}

fn find_replicable_driver(cells: &Vec<Ecp5Cell>, name: &String) -> (index: Option<usize>)
    ensures
        match index {
            Some(index) => index < cells@.len() && replicable_driver(
                cell_models(cells@),
                name@,
                0,
            ) == Some(index as int),
            None => replicable_driver(cell_models(cells@), name@, 0) is None,
        },
{
    let ghost models = cell_models(cells@);
    for i in 0..cells.len()
        invariant
            models == cell_models(cells@),
            replicable_driver(models, name@, 0) == replicable_driver(models, name@, i as int),
    {
        assert(models[i as int] == cells@[i as int]@);
        let suitable = match &cells[i] {
            Ecp5Cell::Lut4 { .. } | Ecp5Cell::FlipFlop { .. } => true,
            _ => false,
        };
        if suitable && *mapped_cell_name(&cells[i]) == *name {
            return Some(i);
        }
    }
    None
}

fn rename_driver(cell: &Ecp5Cell, new_name: String, wire: u32) -> (copy: Ecp5Cell)
    ensures
        copy@ == renamed(cell@, new_name@, wire),
{
    let mut copy = cell.clone();
    match &mut copy {
        Ecp5Cell::Lut4 { name, output, .. } => {
            *name = new_name;
            *output = wire;
        },
        Ecp5Cell::FlipFlop { name, output, .. } => {
            *name = new_name;
            *output = wire;
        },
        _ => {},
    }
    copy
}

fn wire_of_driver(cell: &Ecp5Cell) -> (wire: u32)
    ensures
        wire == driven_wire(cell@),
{
    match cell {
        Ecp5Cell::Lut4 { output, .. } => *output,
        Ecp5Cell::FlipFlop { output, .. } => *output,
        _ => 0,
    }
}

fn rewire_sinks(netlist: &Ecp5Netlist, names: &Vec<String>, from: u32, to: u32) -> (rewired: (
    Ecp5Netlist,
    usize,
))
    ensures
        rewired.0@ == (NetlistModel {
            cells: sinks_rewired(netlist@.cells, name_texts(names@), from, to),
            ..netlist@
        }),
        rewired.1 == clamped(
            pins_rewired(netlist@.cells, name_texts(names@), from, netlist@.cells.len()),
        ),
        rewired.0.cells@.len() == netlist.cells@.len(),
{
    let ghost models = netlist@.cells;
    let ghost texts = name_texts(names@);
    let ghost goal = sinks_rewired(models, texts, from, to);
    let mut moved = netlist.clone();
    assert(cell_models(moved.cells@) == models);
    assert(moved.cells@.len() == cell_models(moved.cells@).len());
    let mut pins: usize = 0;
    let ghost rest = moved@;
    let total: usize = moved.cells.len();
    for i in 0..total
        invariant
            total == models.len(),
            models == netlist@.cells,
            texts == name_texts(names@),
            goal == sinks_rewired(models, texts, from, to),
            moved.cells@.len() == models.len(),
            moved@ == (NetlistModel { cells: moved@.cells, ..rest }),
            forall|j: int| 0 <= j < i ==> (#[trigger] moved.cells@[j])@ == goal[j],
            forall|j: int| i <= j < models.len() ==> (#[trigger] moved.cells@[j])@ == models[j],
            pins == clamped(pins_rewired(models, texts, from, i as nat)),
    {
        assert(moved.cells@[i as int]@ == models[i as int]);
        if holds_name(names, mapped_cell_name(&moved.cells[i])) {
            let mut cell = moved.cells[i].clone();
            let count = replace_wire_in_cell_inputs(&mut cell, from, to);
            moved.cells.set(i, cell);
            pins = pins.saturating_add(count);
        }
    }
    assert(cell_models(moved.cells@) =~= goal);
    (moved, pins)
}

struct Critical {
    next_wire: Option<u32>,
    replicas: usize,
    rewires: usize,
}

spec fn critical_is(netlist: Ecp5Netlist, critical: Critical, state: CriticalModel) -> bool {
    &&& netlist@ == state.netlist
    &&& critical.next_wire == state.next_wire
    &&& critical.replicas == state.replicas
    &&& critical.rewires == clamped(state.rewires)
    &&& state.replicas <= MAX_PHYSICAL_REPLICAS
}

fn replicate_branch(
    netlist: &mut Ecp5Netlist,
    critical: Critical,
    timing: &PhysicalNetTiming,
    Ghost(state): Ghost<CriticalModel>,
) -> (after: Critical)
    requires
        critical_is(*old(netlist), critical, state),
    ensures
        critical_is(*final(netlist), after, branch_replicated(state, *timing)),
{
    if critical.replicas >= MAX_PHYSICAL_REPLICAS {
        return critical;
    }
    let names = list_sink_names(&timing.endpoints, true);
    let eligible = list_sink_names(&timing.endpoints, false);
    assert(name_texts(names@).len() == names@.len());
    assert(name_texts(eligible@).len() == eligible@.len());
    if names.len() == 0 || names.len() >= eligible.len() || names.len()
        > MAX_REPLICATED_BRANCH_FANOUT {
        return critical;
    }
    let driver = match find_replicable_driver(&netlist.cells, &timing.driver) {
        Some(driver) => driver,
        None => {
            return critical;
        },
    };
    let wire = match critical.next_wire {
        Some(wire) => wire,
        None => {
            return critical;
        },
    };
    if wire == u32::MAX {
        return Critical { next_wire: None, ..critical };
    }
    assert(netlist@.cells[driver as int] == netlist.cells@[driver as int]@);
    let output = wire_of_driver(&netlist.cells[driver]);
    let (moved, pins) = rewire_sinks(netlist, &names, output, wire);
    let next_wire = Some(wire + 1);
    if pins == 0 || mapped_wire_fanout(&moved, output) == 0 {
        return Critical { next_wire, ..critical };
    }
    let mut name = join("physical_replicate_", timing.driver.as_str());
    name.append("_");
    name.append(decimal(critical.replicas as u128).as_str());
    let replica = rename_driver(&netlist.cells[driver], name, wire);
    let ghost added = replica@;
    let ghost before = moved@.cells;
    let mut moved = moved;
    moved.cells.push(replica);
    assert(cell_models(moved.cells@) =~= before.push(added));
    *netlist = moved;
    Critical {
        next_wire,
        replicas: critical.replicas + 1,
        rewires: critical.rewires.saturating_add(pins),
    }
}

/// Gives late branches drivers of their own; returns replicas and moved pins.
pub fn replicate_physically_critical_cells(
    netlist: &mut Ecp5Netlist,
    feedback: &PhysicalFeedback,
) -> (counts: (usize, usize))
    ensures
        final(netlist)@ == critical_replicated(old(netlist)@, *feedback).netlist,
        counts.0 == critical_replicated(old(netlist)@, *feedback).replicas,
        counts.1 == clamped(critical_replicated(old(netlist)@, *feedback).rewires),
{
    let ghost start = CriticalModel {
        netlist: netlist@,
        next_wire: next_free_wire(netlist@),
        replicas: 0,
        rewires: 0,
    };
    let mut critical = Critical { next_wire: free_wire(netlist), replicas: 0, rewires: 0 };
    for i in 0..feedback.net_timings.len()
        invariant
            critical_is(
                *netlist,
                critical,
                branches_replicated(start, feedback.net_timings@, i as nat),
            ),
    {
        let ghost state = branches_replicated(start, feedback.net_timings@, i as nat);
        critical = replicate_branch(netlist, critical, &feedback.net_timings[i], Ghost(state));
    }
    (critical.replicas, critical.rewires)
}

/// Replicating branches changes nothing exactly where it moves no pin.
pub proof fn law_no_rewires_no_change(
    state: CriticalModel,
    timings: Seq<PhysicalNetTiming>,
    count: nat,
)
    ensures
        branches_replicated(state, timings, count).rewires >= state.rewires,
        branches_replicated(state, timings, count).rewires == state.rewires
            ==> branches_replicated(state, timings, count).netlist == state.netlist,
    decreases count,
{
    if count > 0 {
        law_no_rewires_no_change(state, timings, (count - 1) as nat);
    }
}

} // verus!
