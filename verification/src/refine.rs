//! Refinement of a mapped netlist by physical feedback.

use vstd::prelude::*;

use crate::netlist::next_free_wire;
use crate::critical::CriticalModel;
use crate::critical::law_no_rewires_no_change;
use crate::cluster::law_no_moves_no_change;
use crate::cells::cell_output_bits;
use crate::cells::cell_outputs;
use crate::cells::clamped;
use crate::cells::mapped_cell_name;
use crate::cells::Bit;
use crate::cells::CellModel;
use crate::cells::Ecp5Cell;
use crate::cells::Ecp5MemoryImplementation;
use crate::certify::is_certifier;
use crate::certify::oracle;
use crate::certify::EdgeModel;
use crate::certify::RequestModel;
use crate::certify::RetimingEdge;
use crate::certify::RetimingRequest;
use crate::cluster::recluster_replicated_enable_sinks;
use crate::cluster::reclustered;
use crate::critical::critical_replicated;
use crate::critical::replicate_physically_critical_cells;
use crate::merge::merge_equivalent_flip_flops;
use crate::merge::merged;
use crate::names::text_entries;
use crate::names::with_entry;
use crate::names::NameMap;
use crate::netlist::cell_models;
use crate::netlist::first_named;
use crate::netlist::position_of_name;
use crate::netlist::signs_off;
use crate::netlist::verify_mapped_equivalence_proof;
use crate::netlist::Ecp5Netlist;
use crate::netlist::MappedEquivalenceProof;
use crate::netlist::NetlistModel;
use crate::netlist::RetimingSelection;
use crate::physical::bel_of;
use crate::physical::is_near;
use crate::physical::meets_goal;
use crate::physical::PhysicalCriticalPath;
use crate::physical::PhysicalFeedback;
use crate::profile::mapped_lut_profile;
use crate::profile::profile_of;
use crate::retime_ccu::backward_move;
use crate::retime_ccu::backward_retime_primitive;
use crate::retime_lut::forward_lut_move;
use crate::retime_lut::forward_retime_lut;
use crate::retime_lut::netlist_model;
use crate::same::same_netlist;
use crate::score::mapped_register_count;
use crate::score::register_count;
use crate::text::begins_with;
use crate::text::characters;
use crate::text::contains;
use crate::text::occurs_in;
use crate::text::starts_with;
use crate::timing::sat;

verus! {

/// How close to its goal a design must be before its cones are retimed.
pub const PHYSICAL_RETIME_MIN_GOAL_PERCENT: u32 = 95;

/// How much longer a modelled period may become in one physical retiming step.
pub const PHYSICAL_RETIME_MODEL_BRIDGE_PS: u32 = 400;

/// Certified moves made from one report at most.
pub const MAX_PHYSICAL_RETIMING_MOVES: usize = 4;

/// Maximum number of proof-signed physical-synthesis candidates per draft.
pub const MAX_PHYSICAL_CANDIDATES: usize = 3;

/// Whether a cell can be placed at a BEL of this name.
pub open spec fn bel_fits(cell: CellModel, bel: Seq<char>) -> bool {
    match cell {
        CellModel::Lut4 { .. } => occurs_in(bel, ".K"@),
        CellModel::FlipFlop { .. } => occurs_in(bel, ".FF"@),
        CellModel::BlockRam { implementation, .. } => match implementation {
            Ecp5MemoryImplementation::Block => occurs_in(bel, "DP16KD"@) || occurs_in(
                bel,
                "/EBR"@,
            ),
            Ecp5MemoryImplementation::Distributed => true,
        },
        CellModel::TrellisIo { .. } => occurs_in(bel, "PIO"@),
        CellModel::Jtagg { .. } => occurs_in(bel, "JTAGG"@),
        CellModel::Pll { .. } => occurs_in(bel, "PLL"@),
        _ => false,
    }
}

/// Whether a cell can be placed at a BEL of this name.
pub fn physical_bel_is_compatible(cell: &Ecp5Cell, bel: &str) -> (fits: bool)
    ensures
        fits == bel_fits(cell@, bel@),
{
    match cell {
        Ecp5Cell::Lut4 { .. } => contains(bel, ".K"),
        Ecp5Cell::FlipFlop { .. } => contains(bel, ".FF"),
        Ecp5Cell::BlockRam { implementation, .. } => match implementation {
            Ecp5MemoryImplementation::Block => contains(bel, "DP16KD") || contains(bel, "/EBR"),
            Ecp5MemoryImplementation::Distributed => true,
        },
        Ecp5Cell::TrellisIo { .. } => contains(bel, "PIO"),
        Ecp5Cell::Jtagg { .. } => contains(bel, "JTAGG"),
        Ecp5Cell::Pll { .. } => contains(bel, "PLL"),
        _ => false,
    }
}

/// Whether a cell has a BEL of its own; cascade cells are packed with their lookup tables.
pub open spec fn is_placed(cell: CellModel) -> bool {
    !(cell is PfuMux || cell is L6Mux21 || cell is Ccu2c)
}

/// How many of the first `count` cells have a BEL of their own.
pub open spec fn placed_count(cells: Seq<CellModel>, count: nat) -> nat
    decreases count,
{
    if count == 0 {
        0
    } else {
        placed_count(cells, (count - 1) as nat) + if is_placed(cells[count - 1]) {
            1nat
        } else {
            0
        }
    }
}

/// How many of the first `count` placed cells the feedback does not know.
pub open spec fn missing_count(
    cells: Seq<CellModel>,
    feedback: PhysicalFeedback,
    count: nat,
) -> nat
    decreases count,
{
    if count == 0 {
        0
    } else {
        missing_count(cells, feedback, (count - 1) as nat) + if is_placed(cells[count - 1])
            && bel_of(feedback, cells[count - 1].cell_name()) is None {
            1nat
        } else {
            0
        }
    }
}

/// Whether the feedback places a cell where it cannot be.
pub open spec fn is_misplaced(cell: CellModel, feedback: PhysicalFeedback) -> bool {
    is_placed(cell) && match bel_of(feedback, cell.cell_name()) {
        Some(bel) => !bel_fits(cell, bel),
        None => false,
    }
}

/// Whether the feedback is about these cells: none is misplaced, and at most
/// two or one in a hundred is missing.
pub open spec fn feedback_matches(cells: Seq<CellModel>, feedback: PhysicalFeedback) -> bool {
    let expected = placed_count(cells, cells.len());
    let allowed = if expected / 100 > 2 {
        expected / 100
    } else {
        2
    };
    (forall|i: int| 0 <= i < cells.len() ==> !is_misplaced(#[trigger] cells[i], feedback))
        && expected > 0 && missing_count(cells, feedback, cells.len()) <= allowed
}

/// Whether the feedback is about this netlist.
pub fn physical_feedback_matches_netlist(netlist: &Ecp5Netlist, feedback: &PhysicalFeedback) -> (matches:
    bool)
    ensures
        matches == feedback_matches(netlist@.cells, *feedback),
{
    let ghost cells = netlist@.cells;
    let mut expected: usize = 0;
    let mut missing: usize = 0;
    for i in 0..netlist.cells.len()
        invariant
            cells == netlist@.cells,
            expected <= i,
            missing <= i,
            expected == placed_count(cells, i as nat),
            missing == missing_count(cells, *feedback, i as nat),
            forall|j: int| 0 <= j < i ==> !is_misplaced(#[trigger] cells[j], *feedback),
    {
        let cell = &netlist.cells[i];
        assert(cells[i as int] == cell@);
        let placed = match cell {
            Ecp5Cell::PfuMux { .. } | Ecp5Cell::L6Mux21 { .. } | Ecp5Cell::Ccu2c { .. } => false,
            _ => true,
        };
        if placed {
            expected = expected + 1;
            match feedback.bel(mapped_cell_name(cell).as_str()) {
                Some(bel) => {
                    if !physical_bel_is_compatible(cell, bel) {
                        assert(is_misplaced(cells[i as int], *feedback));
                        return false;
                    }
                },
                None => {
                    missing = missing + 1;
                },
            }
        }
    }
    let allowed = if expected / 100 > 2 {
        expected / 100
    } else {
        2
    };
    expected > 0 && missing <= allowed
}

/// Whether a cell is a hard block.
pub open spec fn is_hard_block(cell: CellModel) -> bool {
    cell is BlockRam || cell is TrellisIo || cell is Jtagg || cell is Pll
}

/// Location hints for the hard blocks among the first `count` cells.
pub open spec fn block_hints(
    cells: Seq<CellModel>,
    feedback: PhysicalFeedback,
    count: nat,
) -> Seq<(Seq<char>, Seq<char>)>
    decreases count,
{
    if count == 0 {
        seq![]
    } else {
        let rest = block_hints(cells, feedback, (count - 1) as nat);
        let cell = cells[count - 1];
        match bel_of(feedback, cell.cell_name()) {
            Some(bel) => if is_hard_block(cell) && bel_fits(cell, bel) {
                with_entry(rest, cell.cell_name(), bel)
            } else {
                rest
            },
            None => rest,
        }
    }
}

fn collect_block_hints(cells: &Vec<Ecp5Cell>, feedback: &PhysicalFeedback) -> (hints: NameMap<String>)
    ensures
        text_entries(hints) == block_hints(cell_models(cells@), *feedback, cells@.len()),
{
    let ghost models = cell_models(cells@);
    let mut hints: NameMap<String> = NameMap::new();
    assert(text_entries(hints) =~= Seq::<(Seq<char>, Seq<char>)>::empty()) by {
        assert(hints@.len() == 0);
    }
    for i in 0..cells.len()
        invariant
            models == cell_models(cells@),
            text_entries(hints) == block_hints(models, *feedback, i as nat),
    {
        let cell = &cells[i];
        assert(models[i as int] == cell@);
        let hard = match cell {
            Ecp5Cell::BlockRam { .. }
            | Ecp5Cell::TrellisIo { .. }
            | Ecp5Cell::Jtagg { .. }
            | Ecp5Cell::Pll { .. } => true,
            _ => false,
        };
        if hard {
            let name = mapped_cell_name(cell).clone();
            if let Some(bel) = feedback.bel(name.as_str()) {
                if physical_bel_is_compatible(cell, bel) {
                    let text = bel.to_owned();
                    hints.insert_text(name, text);
                }
            }
        }
    }
    hints
}

/// The report of a netlist after physical rewrites.
pub open spec fn physical_report(netlist: NetlistModel, applied: bool) -> RetimingSelection {
    let profile = profile_of(netlist);
    RetimingSelection {
        applied,
        selected_lut_depth: profile.data_depth,
        selected_critical_registers: profile.critical_depth.len() as usize,
        selected_period_ps: profile.data_period_ps,
        selected_overall_period_ps: profile.overall_period_ps,
        selected_registers: register_count(netlist.cells) as usize,
        certified_primitive_moves: netlist.proof.certified_primitive_moves,
        equivalent_register_merges: netlist.proof.equivalent_register_merges,
        equivalent_logic_replications: netlist.proof.equivalent_logic_replications,
        equivalent_physical_rewires: netlist.proof.equivalent_physical_rewires,
        unobservable_cells_removed: netlist.proof.unobservable_cells_removed,
        equivalence_signed_off: signs_off(netlist, applied),
        ..netlist.retiming
    }
}

fn report_physical(netlist: &mut Ecp5Netlist, applied: bool)
    ensures
        final(netlist)@ == (NetlistModel {
            retiming: physical_report(old(netlist)@, applied),
            ..old(netlist)@
        }),
{
    let profile = mapped_lut_profile(netlist);
    let registers = mapped_register_count(netlist);
    let signed_off = verify_mapped_equivalence_proof(netlist, applied);
    netlist.retiming.applied = applied;
    netlist.retiming.selected_lut_depth = profile.data_depth;
    netlist.retiming.selected_critical_registers = profile.critical_depth.len();
    netlist.retiming.selected_period_ps = profile.data_period_ps;
    netlist.retiming.selected_overall_period_ps = profile.overall_period_ps;
    netlist.retiming.selected_registers = registers;
    netlist.retiming.certified_primitive_moves = netlist.equivalence_proof.certified_primitive_moves;
    netlist.retiming.equivalent_register_merges =
    netlist.equivalence_proof.equivalent_register_merges;
    netlist.retiming.equivalent_logic_replications =
    netlist.equivalence_proof.equivalent_logic_replications;
    netlist.retiming.equivalent_physical_rewires =
    netlist.equivalence_proof.equivalent_physical_rewires;
    netlist.retiming.unobservable_cells_removed =
    netlist.equivalence_proof.unobservable_cells_removed;
    netlist.retiming.equivalence_signed_off = signed_off;
}

/// Whether a retiming step stays small: few cells and registers more, modelled
/// periods within the bridge, and a signed-off ledger.
pub open spec fn step_is_bounded(
    before: NetlistModel,
    candidate: NetlistModel,
    model_bridge_ps: u32,
) -> bool {
    &&& candidate.cells.len() <= before.cells.len() + 8
    &&& register_count(candidate.cells) <= register_count(before.cells) + 4
    &&& profile_of(candidate).data_period_ps <= sat(
        profile_of(before).data_period_ps as int,
        model_bridge_ps as int,
    )
    &&& profile_of(candidate).overall_period_ps <= sat(
        profile_of(before).overall_period_ps as int,
        model_bridge_ps as int,
    )
    &&& signs_off(candidate, true)
}

/// Whether a retiming step stays small.
pub fn physical_retime_step_is_bounded(
    before: &Ecp5Netlist,
    candidate: &Ecp5Netlist,
    model_bridge_ps: u32,
) -> (bounded: bool)
    ensures
        bounded == step_is_bounded(before@, candidate@, model_bridge_ps),
{
    let before_profile = mapped_lut_profile(before);
    let candidate_profile = mapped_lut_profile(candidate);
    let before_registers = mapped_register_count(before);
    let candidate_registers = mapped_register_count(candidate);
    let before_cells: usize = before.cells.len();
    let candidate_cells: usize = candidate.cells.len();
    (candidate_cells <= before_cells || candidate_cells - before_cells <= 8) && (
    candidate_registers <= before_registers || candidate_registers - before_registers <= 4)
        && candidate_profile.data_period_ps <= before_profile.data_period_ps.saturating_add(
        model_bridge_ps,
    ) && candidate_profile.overall_period_ps <= before_profile.overall_period_ps.saturating_add(
        model_bridge_ps,
    ) && verify_mapped_equivalence_proof(candidate, true)
}

/// Whether a flip-flop has this name.
pub open spec fn register_named(cells: Seq<CellModel>, name: Seq<char>) -> bool {
    exists|i: int|
        0 <= i < cells.len() && (#[trigger] cells[i]) is FlipFlop && cells[i].cell_name() == name
}

/// The last of the first `count` cells of a path that is a flip-flop.
pub open spec fn path_sink(
    cells: Seq<CellModel>,
    path: PhysicalCriticalPath,
    count: nat,
) -> Option<Seq<char>>
    decreases count,
{
    if count == 0 {
        None
    } else if register_named(cells, path.cells@[count - 1]@) {
        Some(path.cells@[count - 1]@)
    } else {
        path_sink(cells, path, (count - 1) as nat)
    }
}

/// The flip-flops that end the first `count` paths between registers, by name.
pub open spec fn path_sinks(
    cells: Seq<CellModel>,
    paths: Seq<PhysicalCriticalPath>,
    count: nat,
) -> Seq<(Seq<char>, ())>
    decreases count,
{
    if count == 0 {
        seq![]
    } else {
        let rest = path_sinks(cells, paths, (count - 1) as nat);
        let path = paths[count - 1];
        if path.register_to_register {
            match path_sink(cells, path, path.cells@.len()) {
                Some(name) => with_entry(rest, name, ()),
                None => rest,
            }
        } else {
            rest
        }
    }
}

/// A netlist and the number of certified moves made on it.
#[verifier::ext_equal]
pub ghost struct ConesModel {
    pub netlist: NetlistModel,
    pub moves: nat,
}

/// The state after a move back across the cone of one flip-flop, where it is certified and small.
pub open spec fn cone_retimed(
    state: ConesModel,
    name: Seq<char>,
    certificates: spec_fn(RequestModel) -> Option<Seq<EdgeModel>>,
) -> ConesModel {
    if state.moves >= MAX_PHYSICAL_RETIMING_MOVES {
        state
    } else {
        match first_named(state.netlist.cells, name) {
            None => state,
            Some(register) => match backward_move(state.netlist, register, certificates) {
                None => state,
                Some(moved) => if step_is_bounded(
                    state.netlist,
                    merged(moved),
                    PHYSICAL_RETIME_MODEL_BRIDGE_PS,
                ) {
                    ConesModel { netlist: merged(moved), moves: state.moves + 1 }
                } else {
                    state
                },
            },
        }
    }
}

/// The state after the first `count` flip-flops.
pub open spec fn cones_retimed(
    state: ConesModel,
    names: Seq<(Seq<char>, ())>,
    certificates: spec_fn(RequestModel) -> Option<Seq<EdgeModel>>,
    count: nat,
) -> ConesModel
    decreases count,
{
    if count == 0 {
        state
    } else {
        cone_retimed(
            cones_retimed(state, names, certificates, (count - 1) as nat),
            names[count - 1].0,
            certificates,
        )
    }
}

/// A netlist with the cones of its reported paths retimed.
pub open spec fn reported_cones_retimed(
    netlist: NetlistModel,
    feedback: PhysicalFeedback,
    certificates: spec_fn(RequestModel) -> Option<Seq<EdgeModel>>,
) -> ConesModel {
    let names = path_sinks(
        netlist.cells,
        feedback.critical_paths@,
        feedback.critical_paths@.len(),
    );
    cones_retimed(ConesModel { netlist, moves: 0 }, names, certificates, names.len())
}

/// One report never makes more certified moves than its limit.
pub proof fn law_moves_are_bounded(
    state: ConesModel,
    names: Seq<(Seq<char>, ())>,
    certificates: spec_fn(RequestModel) -> Option<Seq<EdgeModel>>,
    count: nat,
)
    requires
        state.moves <= MAX_PHYSICAL_RETIMING_MOVES,
    ensures
        cones_retimed(state, names, certificates, count).moves <= MAX_PHYSICAL_RETIMING_MOVES,
    decreases count,
{
    if count > 0 {
        law_moves_are_bounded(state, names, certificates, (count - 1) as nat);
    }
}

fn check_register_named(cells: &Vec<Ecp5Cell>, name: &String) -> (found: bool)
    ensures
        found == register_named(cell_models(cells@), name@),
{
    let ghost models = cell_models(cells@);
    for i in 0..cells.len()
        invariant
            models == cell_models(cells@),
            forall|j: int|
                0 <= j < i ==> !((#[trigger] models[j]) is FlipFlop && models[j].cell_name()
                    == name@),
    {
        assert(models[i as int] == cells@[i as int]@);
        if let Ecp5Cell::FlipFlop { .. } = &cells[i] {
            if *mapped_cell_name(&cells[i]) == *name {
                return true;
            }
        }
    }
    false
}

fn find_path_sink(cells: &Vec<Ecp5Cell>, path: &PhysicalCriticalPath) -> (name: Option<String>)
    ensures
        match name {
            Some(name) => path_sink(cell_models(cells@), *path, path.cells@.len()) == Some(name@),
            None => path_sink(cell_models(cells@), *path, path.cells@.len()) is None,
        },
{
    let mut i: usize = path.cells.len();
    while i > 0
        invariant
            i <= path.cells@.len(),
            path_sink(cell_models(cells@), *path, path.cells@.len()) == path_sink(
                cell_models(cells@),
                *path,
                i as nat,
            ),
        decreases i,
    {
        if check_register_named(cells, &path.cells[i - 1]) {
            return Some(path.cells[i - 1].clone());
        }
        i -= 1;
    }
    None
}

fn collect_path_sinks(cells: &Vec<Ecp5Cell>, paths: &Vec<PhysicalCriticalPath>) -> (names: NameMap<
    (),
>)
    ensures
        names@ == path_sinks(cell_models(cells@), paths@, paths@.len()),
{
    let mut names: NameMap<()> = NameMap::new();
    for i in 0..paths.len()
        invariant
            names@ == path_sinks(cell_models(cells@), paths@, i as nat),
    {
        if paths[i].register_to_register {
            if let Some(name) = find_path_sink(cells, &paths[i]) {
                names.insert(name, ());
            }
        }
    }
    names
}

fn physically_retime_reported_cones<C: Fn(&RetimingRequest) -> Option<Vec<RetimingEdge>>>(
    netlist: &mut Ecp5Netlist,
    feedback: &PhysicalFeedback,
    certify: &C,
) -> (moves: usize)
    requires
        is_certifier(*certify),
    ensures
        final(netlist)@ == reported_cones_retimed(
            old(netlist)@,
            *feedback,
            oracle(*certify),
        ).netlist,
        moves == reported_cones_retimed(old(netlist)@, *feedback, oracle(*certify)).moves,
{
    let ghost start = ConesModel { netlist: netlist@, moves: 0 };
    let names = collect_path_sinks(&netlist.cells, &feedback.critical_paths);
    let mut moves: usize = 0;
    for i in 0..names.entries.len()
        invariant
            is_certifier(*certify),
            moves <= MAX_PHYSICAL_RETIMING_MOVES,
            cones_retimed(start, names@, oracle(*certify), i as nat) == (ConesModel {
                netlist: netlist@,
                moves: moves as nat,
            }),
    {
        let ghost state = cones_retimed(start, names@, oracle(*certify), i as nat);
        assert(state.netlist == netlist@ && state.moves == moves);
        let name = &names.entries[i].0;
        assert(names@[i as int].0 == name@);
        if moves < MAX_PHYSICAL_RETIMING_MOVES {
            if let Some(register) = position_of_name(&netlist.cells, name) {
                if let Some(moved) = backward_retime_primitive(netlist, register, certify) {
                    let mut candidate = moved;
                    merge_equivalent_flip_flops(&mut candidate);
                    if physical_retime_step_is_bounded(
                        netlist,
                        &candidate,
                        PHYSICAL_RETIME_MODEL_BRIDGE_PS,
                    ) {
                        *netlist = candidate;
                        moves = moves + 1;
                    }
                }
            }
        }
    }
    moves
}

/// A netlist refined by physical feedback.
///
/// Nothing changes where the goal is met, where the feedback is about other
/// cells, or where the result does not pass sign-off. Cones are retimed only
/// where no sink was moved and the design is close to its goal.
pub open spec fn refined(
    netlist: NetlistModel,
    feedback: PhysicalFeedback,
    certificates: spec_fn(RequestModel) -> Option<Seq<EdgeModel>>,
) -> NetlistModel {
    if meets_goal(feedback.clock_fmax_khz@) || !feedback_matches(netlist.cells, feedback) {
        netlist
    } else {
        let critical = critical_replicated(netlist, feedback);
        let cluster = reclustered(critical.netlist.cells, feedback);
        let rewires = clamped(
            clamped(critical.rewires) as nat + clamped(cluster.rewires) as nat,
        );
        let rewired = NetlistModel { cells: cluster.cells, ..critical.netlist };
        let cones = if rewires == 0 && is_near(
            feedback.clock_fmax_khz@,
            PHYSICAL_RETIME_MIN_GOAL_PERCENT,
        ) {
            reported_cones_retimed(rewired, feedback, certificates)
        } else {
            ConesModel { netlist: rewired, moves: 0 }
        };
        if rewires == 0 && cones.moves == 0 {
            cones.netlist
        } else {
            let ledger = NetlistModel {
                placement_hints: if cones.moves == 0 {
                    block_hints(cones.netlist.cells, feedback, cones.netlist.cells.len())
                } else {
                    seq![]
                },
                proof: MappedEquivalenceProof {
                    equivalent_logic_replications: clamped(
                        cones.netlist.proof.equivalent_logic_replications as nat
                            + critical.replicas,
                    ),
                    equivalent_physical_rewires: clamped(
                        cones.netlist.proof.equivalent_physical_rewires as nat + rewires as nat,
                    ),
                    ..cones.netlist.proof
                },
                ..cones.netlist
            };
            let applied = cones.netlist.retiming.applied || cones.moves > 0;
            if signs_off(ledger, applied) {
                NetlistModel { retiming: physical_report(ledger, applied), ..ledger }
            } else {
                netlist
            }
        }
    }
}

proof fn lemma_cones_count(
    state: ConesModel,
    names: Seq<(Seq<char>, ())>,
    certificates: spec_fn(RequestModel) -> Option<Seq<EdgeModel>>,
    count: nat,
)
    ensures
        cones_retimed(state, names, certificates, count).moves >= state.moves,
        cones_retimed(state, names, certificates, count).moves == state.moves ==> cones_retimed(
            state,
            names,
            certificates,
            count,
        ).netlist == state.netlist,
    decreases count,
{
    if count > 0 {
        lemma_cones_count(state, names, certificates, (count - 1) as nat);
    }
}

/// Refinement gives back the netlist itself or one that passed sign-off.
pub proof fn law_refinement_is_signed_off(
    netlist: NetlistModel,
    feedback: PhysicalFeedback,
    certificates: spec_fn(RequestModel) -> Option<Seq<EdgeModel>>,
)
    ensures
        refined(netlist, feedback, certificates) == netlist || refined(
            netlist,
            feedback,
            certificates,
        ).retiming.equivalence_signed_off,
{
    let start = CriticalModel {
        netlist,
        next_wire: next_free_wire(netlist),
        replicas: 0,
        rewires: 0,
    };
    let timings = feedback.net_timings@;
    law_no_rewires_no_change(start, timings, timings.len());
    let critical = critical_replicated(netlist, feedback);
    law_no_moves_no_change(critical.netlist.cells, feedback);
    let cluster = reclustered(critical.netlist.cells, feedback);
    let rewired = NetlistModel { cells: cluster.cells, ..critical.netlist };
    let names = path_sinks(
        rewired.cells,
        feedback.critical_paths@,
        feedback.critical_paths@.len(),
    );
    lemma_cones_count(
        ConesModel { netlist: rewired, moves: 0 },
        names,
        certificates,
        names.len(),
    );
    if critical.rewires == 0 && cluster.rewires == 0 {
        assert(rewired =~= netlist);
    }
}

/// A design that meets its goal is left alone.
pub proof fn law_closed_design_is_kept(
    netlist: NetlistModel,
    feedback: PhysicalFeedback,
    certificates: spec_fn(RequestModel) -> Option<Seq<EdgeModel>>,
)
    requires
        meets_goal(feedback.clock_fmax_khz@),
    ensures
        refined(netlist, feedback, certificates) == netlist,
{
}

impl Ecp5Netlist {
    /// Applies equivalent local rewrites using locations and routed timing
    /// returned by a deterministic draft implementation.
    pub fn apply_physical_feedback<C: Fn(&RetimingRequest) -> Option<Vec<RetimingEdge>>>(
        &self,
        feedback: &PhysicalFeedback,
        certify: &C,
    ) -> (refinement: Self)
        requires
            is_certifier(*certify),
        ensures
            refinement@ == refined(self@, *feedback, oracle(*certify)),
    {
        let mut refinement = self.clone();
        if feedback.meets_timing_goal() || !physical_feedback_matches_netlist(self, feedback) {
            return refinement;
        }
        let (replicas, critical_rewires) = replicate_physically_critical_cells(
            &mut refinement,
            feedback,
        );
        let cluster_rewires = recluster_replicated_enable_sinks(&mut refinement, feedback);
        let rewires = critical_rewires.saturating_add(cluster_rewires);
        let moves = if rewires == 0 && feedback.is_near_timing_closure(
            PHYSICAL_RETIME_MIN_GOAL_PERCENT,
        ) {
            physically_retime_reported_cones(&mut refinement, feedback, certify)
        } else {
            0
        };
        if rewires == 0 && moves == 0 {
            return refinement;
        }
        let hints = if moves == 0 {
            collect_block_hints(&refinement.cells, feedback)
        } else {
            NameMap { entries: Vec::new() }
        };
        assert(moves != 0 ==> text_entries(hints) =~= Seq::<(Seq<char>, Seq<char>)>::empty());
        refinement.placement_hints = hints;
        refinement.equivalence_proof.equivalent_logic_replications =
        refinement.equivalence_proof.equivalent_logic_replications.saturating_add(replicas);
        refinement.equivalence_proof.equivalent_physical_rewires =
        refinement.equivalence_proof.equivalent_physical_rewires.saturating_add(rewires);
        let applied = refinement.retiming.applied || moves > 0;
        report_physical(&mut refinement, applied);
        if refinement.retiming.equivalence_signed_off {
            refinement
        } else {
            self.clone()
        }
    }
}

/// A retimed candidate with its report, where it passes sign-off.
pub open spec fn finalized(candidate: NetlistModel) -> Option<NetlistModel> {
    let bare = NetlistModel { placement_hints: seq![], ..candidate };
    if signs_off(bare, true) {
        Some(NetlistModel { retiming: physical_report(bare, true), ..bare })
    } else {
        None
    }
}

fn finalize_physical_retiming_candidate(candidate: Ecp5Netlist) -> (result: Option<Ecp5Netlist>)
    ensures
        netlist_model(result) == finalized(candidate@),
{
    let mut netlist = candidate;
    netlist.placement_hints = NameMap { entries: Vec::new() };
    assert(netlist@.placement_hints =~= Seq::<(Seq<char>, Seq<char>)>::empty());
    report_physical(&mut netlist, true);
    if netlist.retiming.equivalence_signed_off {
        Some(netlist)
    } else {
        None
    }
}

/// Whether a path between registers visits a cell of this name.
pub open spec fn path_visits(paths: Seq<PhysicalCriticalPath>, name: Seq<char>) -> bool {
    exists|i: int, k: int|
        0 <= i < paths.len() && (#[trigger] paths[i]).register_to_register && 0 <= k
            < paths[i].cells@.len() && (#[trigger] paths[i].cells@[k])@ == name
}

fn check_path_visits(paths: &Vec<PhysicalCriticalPath>, name: &String) -> (visited: bool)
    ensures
        visited == path_visits(paths@, name@),
{
    for i in 0..paths.len()
        invariant
            forall|j: int, k: int|
                0 <= j < i && (#[trigger] paths@[j]).register_to_register && 0 <= k
                    < paths@[j].cells@.len() ==> (#[trigger] paths@[j].cells@[k])@ != name@,
    {
        if paths[i].register_to_register {
            let cells = &paths[i].cells;
            for k in 0..cells.len()
                invariant
                    i < paths@.len(),
                    paths@[i as int].register_to_register,
                    *cells == paths@[i as int].cells,
                    forall|m: int| 0 <= m < k ==> (#[trigger] cells@[m])@ != name@,
            {
                if cells[k] == *name {
                    assert(paths@[i as int].cells@[k as int]@ == name@);
                    return true;
                }
            }
        }
    }
    false
}

/// The lookup tables on reported paths among the first `count` cells, by name.
pub open spec fn path_luts(
    cells: Seq<CellModel>,
    paths: Seq<PhysicalCriticalPath>,
    count: nat,
) -> Seq<(Seq<char>, ())>
    decreases count,
{
    if count == 0 {
        seq![]
    } else {
        let rest = path_luts(cells, paths, (count - 1) as nat);
        let cell = cells[count - 1];
        if cell is Lut4 && path_visits(paths, cell.cell_name()) {
            with_entry(rest, cell.cell_name(), ())
        } else {
            rest
        }
    }
}

/// The candidate that moves a register forward across one lookup table.
pub open spec fn forward_candidate(
    netlist: NetlistModel,
    name: Seq<char>,
    certificates: spec_fn(RequestModel) -> Option<Seq<EdgeModel>>,
) -> Option<NetlistModel> {
    match first_named(netlist.cells, name) {
        None => None,
        Some(index) => match forward_lut_move(netlist, index, certificates) {
            None => None,
            Some(moved) => if step_is_bounded(
                netlist,
                merged(moved),
                (2 * PHYSICAL_RETIME_MODEL_BRIDGE_PS) as u32,
            ) {
                finalized(merged(moved))
            } else {
                None
            },
        },
    }
}

/// `candidates` with one more, unless there is none, it is there already or the set is full.
pub open spec fn with_candidate(
    candidates: Seq<NetlistModel>,
    candidate: Option<NetlistModel>,
) -> Seq<NetlistModel> {
    match candidate {
        Some(netlist) => if candidates.len() >= MAX_PHYSICAL_CANDIDATES || candidates.contains(
            netlist,
        ) {
            candidates
        } else {
            candidates.push(netlist)
        },
        None => candidates,
    }
}

/// `candidates` with the forward candidates of the first `count` lookup tables.
pub open spec fn with_forward_candidates(
    candidates: Seq<NetlistModel>,
    netlist: NetlistModel,
    names: Seq<(Seq<char>, ())>,
    certificates: spec_fn(RequestModel) -> Option<Seq<EdgeModel>>,
    count: nat,
) -> Seq<NetlistModel>
    decreases count,
{
    if count == 0 {
        candidates
    } else {
        with_candidate(
            with_forward_candidates(
                candidates,
                netlist,
                names,
                certificates,
                (count - 1) as nat,
            ),
            forward_candidate(netlist, names[count - 1].0, certificates),
        )
    }
}

/// Whether a physical cell is a mapped cell or a part of it.
pub open spec fn is_part_of(physical: Seq<char>, mapped: Seq<char>) -> bool {
    physical == mapped || (begins_with(physical, mapped) && physical.len() > mapped.len()
        && physical[mapped.len() as int] == '$')
}

/// Whether a physical cell is a mapped cell or a part of it.
pub fn physical_path_matches_mapped_cell(physical: &str, mapped: &str) -> (found: bool)
    ensures
        found == is_part_of(physical@, mapped@),
{
    if !starts_with(physical, mapped) {
        assert(physical@ == mapped@ ==> physical@.take(mapped@.len() as int) =~= mapped@);
        return false;
    }
    let long = characters(physical);
    let short = characters(mapped);
    if long.len() == short.len() {
        assert(physical@ =~= physical@.take(mapped@.len() as int));
        return true;
    }
    long[short.len()] == '$'
}

/// Whether a path between registers visits a part of this cell.
pub open spec fn path_uses(paths: Seq<PhysicalCriticalPath>, name: Seq<char>) -> bool {
    exists|i: int, k: int|
        0 <= i < paths.len() && (#[trigger] paths[i]).register_to_register && 0 <= k
            < paths[i].cells@.len() && is_part_of((#[trigger] paths[i].cells@[k])@, name)
}

fn check_path_uses(paths: &Vec<PhysicalCriticalPath>, name: &String) -> (used: bool)
    ensures
        used == path_uses(paths@, name@),
{
    for i in 0..paths.len()
        invariant
            forall|j: int, k: int|
                0 <= j < i && (#[trigger] paths@[j]).register_to_register && 0 <= k
                    < paths@[j].cells@.len() ==> !is_part_of(
                    (#[trigger] paths@[j].cells@[k])@,
                    name@,
                ),
    {
        if paths[i].register_to_register {
            let cells = &paths[i].cells;
            for k in 0..cells.len()
                invariant
                    i < paths@.len(),
                    paths@[i as int].register_to_register,
                    *cells == paths@[i as int].cells,
                    forall|m: int| 0 <= m < k ==> !is_part_of((#[trigger] cells@[m])@, name@),
            {
                if physical_path_matches_mapped_cell(cells[k].as_str(), name.as_str()) {
                    assert(is_part_of(paths@[i as int].cells@[k as int]@, name@));
                    return true;
                }
            }
        }
    }
    false
}

/// Whether a cell on a reported path drives `wire`.
pub open spec fn path_drives(
    cells: Seq<CellModel>,
    paths: Seq<PhysicalCriticalPath>,
    wire: u32,
) -> bool {
    exists|i: int|
        0 <= i < cells.len() && path_uses(paths, (#[trigger] cells[i]).cell_name())
            && cell_outputs(cells[i]).contains(Bit::Wire(wire))
}

/// Whether a cell has this name.
pub open spec fn cell_named(cells: Seq<CellModel>, name: Seq<char>) -> bool {
    first_named(cells, name) is Some
}

/// The data wire of a flip-flop.
pub open spec fn data_wire(cell: CellModel) -> Option<u32> {
    match cell {
        CellModel::FlipFlop { data: Bit::Wire(wire), .. } => Some(wire),
        _ => None,
    }
}

/// The new flip-flops behind reported paths among the first `count` cells, by
/// name with their position; a later one of the same name replaces an earlier.
pub open spec fn new_registers(
    original: Seq<CellModel>,
    cells: Seq<CellModel>,
    paths: Seq<PhysicalCriticalPath>,
    count: nat,
) -> Seq<(Seq<char>, usize)>
    decreases count,
{
    if count == 0 {
        seq![]
    } else {
        let rest = new_registers(original, cells, paths, (count - 1) as nat);
        let cell = cells[count - 1];
        match data_wire(cell) {
            Some(wire) => if !cell_named(original, cell.cell_name()) && path_drives(
                cells,
                paths,
                wire,
            ) {
                with_entry(rest, cell.cell_name(), (count - 1) as usize)
            } else {
                rest
            },
            None => rest,
        }
    }
}

/// The candidate that moves one new register further back.
pub open spec fn backward_candidate(
    first: NetlistModel,
    register: usize,
    certificates: spec_fn(RequestModel) -> Option<Seq<EdgeModel>>,
) -> Option<NetlistModel> {
    match backward_move(first, register as int, certificates) {
        None => None,
        Some(moved) => if step_is_bounded(
            first,
            merged(moved),
            (2 * PHYSICAL_RETIME_MODEL_BRIDGE_PS) as u32,
        ) {
            finalized(merged(moved))
        } else {
            None
        },
    }
}

/// `candidates` with the backward candidates of the first `count` registers.
pub open spec fn with_backward_candidates(
    candidates: Seq<NetlistModel>,
    first: NetlistModel,
    registers: Seq<(Seq<char>, usize)>,
    certificates: spec_fn(RequestModel) -> Option<Seq<EdgeModel>>,
    count: nat,
) -> Seq<NetlistModel>
    decreases count,
{
    if count == 0 {
        candidates
    } else {
        with_candidate(
            with_backward_candidates(
                candidates,
                first,
                registers,
                certificates,
                (count - 1) as nat,
            ),
            backward_candidate(first, registers[count - 1].1, certificates),
        )
    }
}

/// The physical-synthesis candidates of a netlist.
pub open spec fn refinement_candidates(
    netlist: NetlistModel,
    feedback: PhysicalFeedback,
    certificates: spec_fn(RequestModel) -> Option<Seq<EdgeModel>>,
) -> Seq<NetlistModel> {
    let first = refined(netlist, feedback, certificates);
    if first == netlist {
        seq![]
    } else if first.proof.certified_primitive_moves <= netlist.proof.certified_primitive_moves {
        seq![first]
    } else {
        let paths = feedback.critical_paths@;
        let names = path_luts(netlist.cells, paths, netlist.cells.len());
        let forward = with_forward_candidates(
            seq![first],
            netlist,
            names,
            certificates,
            names.len(),
        );
        let registers = new_registers(netlist.cells, first.cells, paths, first.cells.len());
        with_backward_candidates(forward, first, registers, certificates, registers.len())
    }
}

/// There are never more candidates than the limit, and no two are equal.
pub open spec fn candidates_are_sound(candidates: Seq<NetlistModel>) -> bool {
    candidates.len() <= MAX_PHYSICAL_CANDIDATES && forall|i: int, j: int|
        0 <= i < j < candidates.len() ==> candidates[i] != candidates[j]
}

proof fn lemma_with_candidate(candidates: Seq<NetlistModel>, candidate: Option<NetlistModel>)
    requires
        candidates_are_sound(candidates),
    ensures
        candidates_are_sound(with_candidate(candidates, candidate)),
        candidates.len() > 0 ==> with_candidate(candidates, candidate).len() > 0 && with_candidate(
            candidates,
            candidate,
        )[0] == candidates[0],
{
    if let Some(netlist) = candidate {
        if candidates.len() < MAX_PHYSICAL_CANDIDATES && !candidates.contains(netlist) {
            let out = candidates.push(netlist);
            assert forall|i: int, j: int| 0 <= i < j < out.len() implies out[i] != out[j] by {
                if j == candidates.len() {
                    assert(candidates.contains(candidates[i]));
                }
            }
        }
    }
}

proof fn lemma_forward_candidates(
    candidates: Seq<NetlistModel>,
    netlist: NetlistModel,
    names: Seq<(Seq<char>, ())>,
    certificates: spec_fn(RequestModel) -> Option<Seq<EdgeModel>>,
    count: nat,
)
    requires
        candidates_are_sound(candidates),
        candidates.len() > 0,
    ensures
        candidates_are_sound(
            with_forward_candidates(candidates, netlist, names, certificates, count),
        ),
        with_forward_candidates(candidates, netlist, names, certificates, count).len() > 0,
        with_forward_candidates(candidates, netlist, names, certificates, count)[0]
            == candidates[0],
    decreases count,
{
    if count > 0 {
        let last = (count - 1) as nat;
        lemma_forward_candidates(candidates, netlist, names, certificates, last);
        lemma_with_candidate(
            with_forward_candidates(candidates, netlist, names, certificates, last),
            forward_candidate(netlist, names[count - 1].0, certificates),
        );
    }
}

proof fn lemma_backward_candidates(
    candidates: Seq<NetlistModel>,
    first: NetlistModel,
    registers: Seq<(Seq<char>, usize)>,
    certificates: spec_fn(RequestModel) -> Option<Seq<EdgeModel>>,
    count: nat,
)
    requires
        candidates_are_sound(candidates),
        candidates.len() > 0,
    ensures
        candidates_are_sound(
            with_backward_candidates(candidates, first, registers, certificates, count),
        ),
        with_backward_candidates(candidates, first, registers, certificates, count).len() > 0,
        with_backward_candidates(candidates, first, registers, certificates, count)[0]
            == candidates[0],
    decreases count,
{
    if count > 0 {
        let last = (count - 1) as nat;
        lemma_backward_candidates(candidates, first, registers, certificates, last);
        lemma_with_candidate(
            with_backward_candidates(candidates, first, registers, certificates, last),
            backward_candidate(first, registers[count - 1].1, certificates),
        );
    }
}

/// Candidates are few and distinct; the first is the refined netlist, and
/// there are none exactly where refinement changes nothing.
pub proof fn law_candidates_are_few_and_distinct(
    netlist: NetlistModel,
    feedback: PhysicalFeedback,
    certificates: spec_fn(RequestModel) -> Option<Seq<EdgeModel>>,
)
    ensures
        candidates_are_sound(refinement_candidates(netlist, feedback, certificates)),
        refinement_candidates(netlist, feedback, certificates).len() == 0 <==> refined(
            netlist,
            feedback,
            certificates,
        ) == netlist,
        refinement_candidates(netlist, feedback, certificates).len() > 0 ==> refinement_candidates(
            netlist,
            feedback,
            certificates,
        )[0] == refined(netlist, feedback, certificates),
{
    let first = refined(netlist, feedback, certificates);
    let paths = feedback.critical_paths@;
    let names = path_luts(netlist.cells, paths, netlist.cells.len());
    lemma_forward_candidates(seq![first], netlist, names, certificates, names.len());
    let forward = with_forward_candidates(seq![first], netlist, names, certificates, names.len());
    let registers = new_registers(netlist.cells, first.cells, paths, first.cells.len());
    lemma_backward_candidates(forward, first, registers, certificates, registers.len());
}

/// The models of netlists.
pub open spec fn netlist_models(netlists: Seq<Ecp5Netlist>) -> Seq<NetlistModel> {
    Seq::new(netlists.len(), |i: int| netlists[i]@)
}

fn holds_netlist(netlists: &Vec<Ecp5Netlist>, netlist: &Ecp5Netlist) -> (found: bool)
    ensures
        found == netlist_models(netlists@).contains(netlist@),
{
    for i in 0..netlists.len()
        invariant
            forall|j: int| 0 <= j < i ==> netlist_models(netlists@)[j] != netlist@,
    {
        if same_netlist(&netlists[i], netlist) {
            assert(netlist_models(netlists@)[i as int] == netlist@);
            return true;
        }
    }
    false
}

fn add_candidate(candidates: &mut Vec<Ecp5Netlist>, candidate: Option<Ecp5Netlist>)
    ensures
        netlist_models(final(candidates)@) == with_candidate(
            netlist_models(old(candidates)@),
            netlist_model(candidate),
        ),
{
    if let Some(netlist) = candidate {
        assert(netlist_models(candidates@).len() == candidates@.len());
        if candidates.len() < MAX_PHYSICAL_CANDIDATES && !holds_netlist(candidates, &netlist) {
            let ghost before = candidates@;
            let ghost added = netlist@;
            candidates.push(netlist);
            assert(netlist_models(candidates@) =~= netlist_models(before).push(added));
        }
    }
}

fn collect_path_luts(cells: &Vec<Ecp5Cell>, paths: &Vec<PhysicalCriticalPath>) -> (names: NameMap<
    (),
>)
    ensures
        names@ == path_luts(cell_models(cells@), paths@, cells@.len()),
{
    let ghost models = cell_models(cells@);
    let mut names: NameMap<()> = NameMap::new();
    for i in 0..cells.len()
        invariant
            models == cell_models(cells@),
            names@ == path_luts(models, paths@, i as nat),
    {
        assert(models[i as int] == cells@[i as int]@);
        if let Ecp5Cell::Lut4 { name, .. } = &cells[i] {
            if check_path_visits(paths, name) {
                names.insert(name.clone(), ());
            }
        }
    }
    names
}

fn make_forward_candidate<C: Fn(&RetimingRequest) -> Option<Vec<RetimingEdge>>>(
    netlist: &Ecp5Netlist,
    name: &String,
    certify: &C,
) -> (candidate: Option<Ecp5Netlist>)
    requires
        is_certifier(*certify),
    ensures
        netlist_model(candidate) == forward_candidate(netlist@, name@, oracle(*certify)),
{
    let index = match position_of_name(&netlist.cells, name) {
        Some(index) => index,
        None => {
            return None;
        },
    };
    match forward_retime_lut(netlist, index, certify) {
        Some(moved) => {
            let mut candidate = moved;
            merge_equivalent_flip_flops(&mut candidate);
            if physical_retime_step_is_bounded(
                netlist,
                &candidate,
                2 * PHYSICAL_RETIME_MODEL_BRIDGE_PS,
            ) {
                finalize_physical_retiming_candidate(candidate)
            } else {
                None
            }
        },
        None => None,
    }
}

fn make_backward_candidate<C: Fn(&RetimingRequest) -> Option<Vec<RetimingEdge>>>(
    first: &Ecp5Netlist,
    register: usize,
    certify: &C,
) -> (candidate: Option<Ecp5Netlist>)
    requires
        is_certifier(*certify),
    ensures
        netlist_model(candidate) == backward_candidate(first@, register, oracle(*certify)),
{
    match backward_retime_primitive(first, register, certify) {
        Some(moved) => {
            let mut candidate = moved;
            merge_equivalent_flip_flops(&mut candidate);
            if physical_retime_step_is_bounded(
                first,
                &candidate,
                2 * PHYSICAL_RETIME_MODEL_BRIDGE_PS,
            ) {
                finalize_physical_retiming_candidate(candidate)
            } else {
                None
            }
        },
        None => None,
    }
}

fn check_path_drives(cells: &Vec<Ecp5Cell>, paths: &Vec<PhysicalCriticalPath>, wire: u32) -> (driven:
    bool)
    ensures
        driven == path_drives(cell_models(cells@), paths@, wire),
{
    let ghost models = cell_models(cells@);
    for i in 0..cells.len()
        invariant
            models == cell_models(cells@),
            forall|j: int|
                0 <= j < i ==> !(path_uses(paths@, (#[trigger] models[j]).cell_name())
                    && cell_outputs(models[j]).contains(Bit::Wire(wire))),
    {
        assert(models[i as int] == cells@[i as int]@);
        if check_path_uses(paths, mapped_cell_name(&cells[i])) {
            let outputs = cell_output_bits(&cells[i]);
            for k in 0..outputs.len()
                invariant
                    models == cell_models(cells@),
                    i < cells@.len(),
                    outputs@ == cell_outputs(models[i as int]),
                    path_uses(paths@, models[i as int].cell_name()),
                    forall|m: int| 0 <= m < k ==> outputs@[m] != Bit::Wire(wire),
            {
                if outputs[k] == Bit::Wire(wire) {
                    assert(cell_outputs(models[i as int])[k as int] == Bit::Wire(wire));
                    assert(cell_outputs(models[i as int]).contains(Bit::Wire(wire)));
                    return true;
                }
            }
        }
    }
    false
}

fn collect_new_registers(
    original: &Vec<Ecp5Cell>,
    cells: &Vec<Ecp5Cell>,
    paths: &Vec<PhysicalCriticalPath>,
) -> (registers: NameMap<usize>)
    ensures
        registers@ == new_registers(
            cell_models(original@),
            cell_models(cells@),
            paths@,
            cells@.len(),
        ),
{
    let ghost models = cell_models(cells@);
    let mut registers: NameMap<usize> = NameMap::new();
    for i in 0..cells.len()
        invariant
            models == cell_models(cells@),
            registers@ == new_registers(cell_models(original@), models, paths@, i as nat),
    {
        assert(models[i as int] == cells@[i as int]@);
        if let Ecp5Cell::FlipFlop { name, data, .. } = &cells[i] {
            if let Bit::Wire(wire) = *data {
                if position_of_name(original, name).is_none() && check_path_drives(
                    cells,
                    paths,
                    wire,
                ) {
                    registers.insert(name.clone(), i);
                }
            }
        }
    }
    registers
}

impl Ecp5Netlist {
    /// Returns a deterministic, bounded set of equivalent physical-synthesis
    /// candidates. The first entry is that of
    /// [`Self::apply_physical_feedback`]; later entries extend a routed
    /// critical-cone retime by one additional certified primitive move.
    pub fn physical_feedback_candidates<C: Fn(&RetimingRequest) -> Option<Vec<RetimingEdge>>>(
        &self,
        feedback: &PhysicalFeedback,
        certify: &C,
    ) -> (candidates: Vec<Self>)
        requires
            is_certifier(*certify),
        ensures
            netlist_models(candidates@) == refinement_candidates(
                self@,
                *feedback,
                oracle(*certify),
            ),
    {
        let ghost certificates = oracle(*certify);
        let paths = &feedback.critical_paths;
        let first = self.apply_physical_feedback(feedback, certify);
        let mut candidates: Vec<Ecp5Netlist> = Vec::new();
        if same_netlist(&first, self) {
            assert(netlist_models(candidates@) =~= Seq::<NetlistModel>::empty());
            return candidates;
        }
        candidates.push(first.clone());
        assert(netlist_models(candidates@) =~= seq![first@]);
        if first.equivalence_proof.certified_primitive_moves
            <= self.equivalence_proof.certified_primitive_moves {
            return candidates;
        }
        let ghost start = netlist_models(candidates@);
        let names = collect_path_luts(&self.cells, paths);
        for i in 0..names.entries.len()
            invariant
                is_certifier(*certify),
                certificates == oracle(*certify),
                netlist_models(candidates@) == with_forward_candidates(
                    start,
                    self@,
                    names@,
                    certificates,
                    i as nat,
                ),
        {
            assert(names@[i as int].0 == names.entries@[i as int].0@);
            let candidate = make_forward_candidate(self, &names.entries[i].0, certify);
            add_candidate(&mut candidates, candidate);
        }
        let ghost forward = netlist_models(candidates@);
        let registers = collect_new_registers(&self.cells, &first.cells, paths);
        for i in 0..registers.entries.len()
            invariant
                is_certifier(*certify),
                certificates == oracle(*certify),
                netlist_models(candidates@) == with_backward_candidates(
                    forward,
                    first@,
                    registers@,
                    certificates,
                    i as nat,
                ),
        {
            assert(registers@[i as int].1 == registers.entries@[i as int].1);
            let candidate = make_backward_candidate(&first, registers.entries[i].1, certify);
            add_candidate(&mut candidates, candidate);
        }
        candidates
    }
}

/// Whether every candidate passed sign-off.
spec fn all_signed_off(candidates: Seq<NetlistModel>) -> bool {
    forall|i: int|
        0 <= i < candidates.len() ==> (
        #[trigger] candidates[i]).retiming.equivalence_signed_off
}

proof fn lemma_forward_signed_off(
    candidates: Seq<NetlistModel>,
    netlist: NetlistModel,
    names: Seq<(Seq<char>, ())>,
    certificates: spec_fn(RequestModel) -> Option<Seq<EdgeModel>>,
    count: nat,
)
    requires
        all_signed_off(candidates),
    ensures
        all_signed_off(with_forward_candidates(candidates, netlist, names, certificates, count)),
    decreases count,
{
    if count > 0 {
        lemma_forward_signed_off(candidates, netlist, names, certificates, (count - 1) as nat);
    }
}

proof fn lemma_backward_signed_off(
    candidates: Seq<NetlistModel>,
    first: NetlistModel,
    registers: Seq<(Seq<char>, usize)>,
    certificates: spec_fn(RequestModel) -> Option<Seq<EdgeModel>>,
    count: nat,
)
    requires
        all_signed_off(candidates),
    ensures
        all_signed_off(
            with_backward_candidates(candidates, first, registers, certificates, count),
        ),
    decreases count,
{
    if count > 0 {
        lemma_backward_signed_off(
            candidates,
            first,
            registers,
            certificates,
            (count - 1) as nat,
        );
    }
}

/// Every candidate passed sign-off.
pub proof fn law_candidates_are_signed_off(
    netlist: NetlistModel,
    feedback: PhysicalFeedback,
    certificates: spec_fn(RequestModel) -> Option<Seq<EdgeModel>>,
    i: int,
)
    requires
        0 <= i < refinement_candidates(netlist, feedback, certificates).len(),
    ensures
        refinement_candidates(
            netlist,
            feedback,
            certificates,
        )[i].retiming.equivalence_signed_off,
{
    law_refinement_is_signed_off(netlist, feedback, certificates);
    let first = refined(netlist, feedback, certificates);
    let paths = feedback.critical_paths@;
    let names = path_luts(netlist.cells, paths, netlist.cells.len());
    if first != netlist {
        assert(all_signed_off(seq![first]));
        lemma_forward_signed_off(seq![first], netlist, names, certificates, names.len());
        let forward = with_forward_candidates(
            seq![first],
            netlist,
            names,
            certificates,
            names.len(),
        );
        let registers = new_registers(netlist.cells, first.cells, paths, first.cells.len());
        lemma_backward_signed_off(forward, first, registers, certificates, registers.len());
    }
}

} // verus!
