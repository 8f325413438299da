//! Hard muxes in place of lookup tables that select one of two values.

use std::collections::HashMap;

use vstd::prelude::*;

use crate::cells::{mapped_cell_name, Bit, CellModel, Ecp5Cell};
use crate::netlist::{
    cell_models, free_wire, mapped_wire_fanout, next_free_wire, unique_cell_name, unique_name,
    wire_fanout, Ecp5Netlist, NetlistModel,
};
use crate::registered::holds;
use crate::text::join;
use crate::timing::{bit_depth, bit_lut_depth, depths_of, mapped_lut_depths};
use crate::wires::{table_bit, test_table_bit};

verus! {

/// Whether the table is one at `assignment` exactly when the selected pin is:
/// pin `on` where pin `select` is one, else pin `off`.
pub open spec fn selects_at(
    init: u16,
    select: u16,
    on: u16,
    off: u16,
    assignment: u16,
) -> bool {
    table_bit(init, assignment) == if table_bit(assignment, select) {
        table_bit(assignment, on)
    } else {
        table_bit(assignment, off)
    }
}

/// Whether the table selects pin `on` or pin `off` by pin `select`.
pub open spec fn is_mux(init: u16, select: u16, on: u16, off: u16) -> bool {
    forall|assignment: u16| assignment < 16 ==> selects_at(init, select, on, off, assignment)
}

/// Whether `code` names three different pins by which the table selects. The
/// code holds the select pin, the pin taken at one and the pin taken at zero,
/// two bits each.
pub open spec fn mux_code(init: u16, code: u16) -> bool {
    let select = code / 16;
    let on = code / 4 % 4;
    let off = code % 4;
    &&& code < 64
    &&& on != select
    &&& off != select
    &&& off != on
    &&& is_mux(init, select, on, off)
}

/// The first code, from `code` on, by which the table selects.
pub open spec fn first_mux_code(init: u16, code: u16) -> Option<u16>
    decreases 64 - code,
{
    if code >= 64 {
        None
    } else if mux_code(init, code) {
        Some(code)
    } else {
        first_mux_code(init, (code + 1) as u16)
    }
}

/// The value selected at one, the value selected at zero and the select input
/// of a lookup table that is a mux.
pub open spec fn mux_inputs(inputs: [Bit; 4], init: u16) -> Option<(Bit, Bit, Bit)> {
    match first_mux_code(init, 0) {
        Some(code) => Some(
            (
                inputs[(code / 4 % 4) as int],
                inputs[(code % 4) as int],
                inputs[(code / 16) as int],
            ),
        ),
        None => None,
    }
}

fn check_mux(init: u16, select: u16, on: u16, off: u16) -> (found: bool)
    requires
        select < 4,
        on < 4,
        off < 4,
    ensures
        found == is_mux(init, select, on, off),
{
    let mut assignment: u16 = 0;
    while assignment < 16
        invariant
            select < 4,
            on < 4,
            off < 4,
            assignment <= 16,
            forall|other: u16| other < assignment ==> selects_at(init, select, on, off, other),
        decreases 16 - assignment,
    {
        let expected: bool = if test_table_bit(assignment, select) {
            test_table_bit(assignment, on)
        } else {
            test_table_bit(assignment, off)
        };
        if test_table_bit(init, assignment) != expected {
            assert(!selects_at(init, select, on, off, assignment));
            return false;
        }
        assert(selects_at(init, select, on, off, assignment));
        assignment = assignment + 1;
    }
    true
}

/// The value selected at one, the value selected at zero and the select input
/// of a lookup table that is a mux.
pub fn lut_mux_decomposition(inputs: [Bit; 4], init: u16) -> (found: Option<(Bit, Bit, Bit)>)
    ensures
        found == mux_inputs(inputs, init),
{
    let mut code: u16 = 0;
    while code < 64
        invariant
            code <= 64,
            first_mux_code(init, 0) == first_mux_code(init, code),
        decreases 64 - code,
    {
        let select: u16 = code / 16;
        let on: u16 = code / 4 % 4;
        let off: u16 = code % 4;
        if on != select && off != select && off != on && check_mux(init, select, on, off) {
            return Some((inputs[on as usize], inputs[off as usize], inputs[select as usize]));
        }
        code = code + 1;
    }
    None
}

proof fn lemma_first_mux_code(init: u16, code: u16)
    ensures
        first_mux_code(init, code) matches Some(found) ==> mux_code(init, found),
        forall|other: u16| code <= other && #[trigger] mux_code(init, other) ==> first_mux_code(
            init,
            code,
        ) is Some,
    decreases 64 - code,
{
    if code < 64 && !mux_code(init, code) {
        lemma_first_mux_code(init, (code + 1) as u16);
    }
}

/// A decomposition is found exactly when the table is a mux of three different
/// pins, and the pins found are such pins.
pub proof fn law_mux_decomposition(init: u16)
    ensures
        first_mux_code(init, 0) matches Some(code) ==> mux_code(init, code),
        first_mux_code(init, 0) is Some <==> exists|code: u16| mux_code(init, code),
{
    lemma_first_mux_code(init, 0);
    if first_mux_code(init, 0) is Some {
        assert(mux_code(init, first_mux_code(init, 0)->0));
    }
}

/// A lookup table that is a mux of two driven values.
#[derive(Clone, Copy, Debug, Eq, PartialEq, Structural)]
pub struct MuxCandidate {
    /// LUT depth of the mux.
    pub depth: usize,
    /// Position of the mux.
    pub root: usize,
    /// Position of the driver selected at one.
    pub on_driver: usize,
    /// Position of the driver selected at zero.
    pub off_driver: usize,
    /// Wire selected at one.
    pub on: u32,
    /// Wire selected at zero.
    pub off: u32,
    /// Select input.
    pub select: Bit,
    /// Output of the mux.
    pub output: u32,
}

/// Whether one candidate is treated before another: by depth, then position.
pub open spec fn candidate_before(a: MuxCandidate, b: MuxCandidate) -> bool {
    a.depth < b.depth || (a.depth == b.depth && a.root < b.root)
}

/// `sorted` with `candidate` behind all that are not treated after it.
pub open spec fn insert_candidate(
    sorted: Seq<MuxCandidate>,
    candidate: MuxCandidate,
) -> Seq<MuxCandidate>
    decreases sorted.len(),
{
    if sorted.len() > 0 && candidate_before(candidate, sorted.last()) {
        insert_candidate(sorted.drop_last(), candidate).push(sorted.last())
    } else {
        sorted.push(candidate)
    }
}

fn place_candidate(sorted: &mut Vec<MuxCandidate>, candidate: MuxCandidate)
    ensures
        final(sorted)@ == insert_candidate(old(sorted)@, candidate),
{
    let ghost all = sorted@;
    let mut at: usize = sorted.len();
    let ghost mut tail: Seq<MuxCandidate> = seq![];
    assert(all.take(at as int) =~= all);
    assert(insert_candidate(all, candidate) + tail =~= insert_candidate(all, candidate));
    while at > 0 && (candidate.depth < sorted[at - 1].depth || (candidate.depth == sorted[at
        - 1].depth && candidate.root < sorted[at - 1].root))
        invariant
            at <= sorted@.len(),
            sorted@ == all,
            tail == all.skip(at as int),
            insert_candidate(all, candidate) == insert_candidate(all.take(at as int), candidate)
                + tail,
        decreases at,
    {
        proof {
            let head = all.take(at as int);
            assert(head.drop_last() =~= all.take(at - 1));
            let inner = insert_candidate(all.take(at - 1), candidate);
            assert(insert_candidate(head, candidate) == inner.push(head.last()));
            assert(inner.push(head.last()) + tail =~= inner + all.skip(at - 1));
            tail = all.skip(at - 1);
        }
        at -= 1;
    }
    sorted.insert(at, candidate);
    assert(sorted@ =~= all.take(at as int).push(candidate) + all.skip(at as int));
}

/// The last lookup table among the first `count` cells that drives `wire`.
pub open spec fn last_lut(cells: Seq<CellModel>, wire: u32, count: int) -> Option<int>
    decreases count,
{
    if count <= 0 {
        None
    } else if cells[count - 1] is Lut4 && cells[count - 1]->Lut4_output == wire {
        Some(count - 1)
    } else {
        last_lut(cells, wire, count - 1)
    }
}

fn find_last_lut(cells: &Vec<Ecp5Cell>, wire: u32) -> (found: Option<usize>)
    ensures
        match found {
            Some(index) => last_lut(cell_models(cells@), wire, cells@.len() as int) == Some(
                index as int,
            ) && index < cells@.len(),
            None => last_lut(cell_models(cells@), wire, cells@.len() as int) is None,
        },
{
    let ghost models = cell_models(cells@);
    let mut i: usize = cells.len();
    while i > 0
        invariant
            i <= cells@.len(),
            models == cell_models(cells@),
            last_lut(models, wire, cells@.len() as int) == last_lut(models, wire, i as int),
        decreases i,
    {
        assert(models[i - 1] == cells@[i - 1]@);
        if let Ecp5Cell::Lut4 { output, .. } = &cells[i - 1] {
            if *output == wire {
                return Some(i - 1);
            }
        }
        i -= 1;
    }
    None
}

/// The candidate that the cell at `root` is: a mux of two wires that different
/// lookup tables drive.
pub open spec fn mux_candidate(
    cells: Seq<CellModel>,
    root: int,
    depths: Map<u32, usize>,
) -> Option<MuxCandidate> {
    match cells[root] {
        CellModel::Lut4 { inputs, output, init, .. } => match mux_inputs(inputs, init) {
            Some((Bit::Wire(on), Bit::Wire(off), select)) => match (
                last_lut(cells, on, cells.len() as int),
                last_lut(cells, off, cells.len() as int),
            ) {
                (Some(on_driver), Some(off_driver)) => if on_driver != off_driver {
                    Some(
                        MuxCandidate {
                            depth: bit_depth(Bit::Wire(output), depths),
                            root: root as usize,
                            on_driver: on_driver as usize,
                            off_driver: off_driver as usize,
                            on,
                            off,
                            select,
                            output,
                        },
                    )
                } else {
                    None
                },
                _ => None,
            },
            _ => None,
        },
        _ => None,
    }
}

/// The candidates among the first `count` cells, in the order in which they
/// are treated.
pub open spec fn mux_candidates(
    cells: Seq<CellModel>,
    depths: Map<u32, usize>,
    count: nat,
) -> Seq<MuxCandidate>
    decreases count,
{
    if count == 0 {
        seq![]
    } else {
        let rest = mux_candidates(cells, depths, (count - 1) as nat);
        match mux_candidate(cells, count - 1, depths) {
            Some(candidate) => insert_candidate(rest, candidate),
            None => rest,
        }
    }
}

/// Whether every candidate names cells below `bound`, and its drivers differ.
spec fn in_range(candidates: Seq<MuxCandidate>, bound: int) -> bool {
    forall|k: int|
        0 <= k < candidates.len() ==> (#[trigger] candidates[k]).root < bound
            && candidates[k].on_driver < bound && candidates[k].off_driver < bound
            && candidates[k].on_driver != candidates[k].off_driver
}

proof fn lemma_insert_in_range(sorted: Seq<MuxCandidate>, candidate: MuxCandidate, bound: int)
    requires
        in_range(sorted, bound),
        candidate.root < bound,
        candidate.on_driver < bound,
        candidate.off_driver < bound,
        candidate.on_driver != candidate.off_driver,
    ensures
        in_range(insert_candidate(sorted, candidate), bound),
    decreases sorted.len(),
{
    if sorted.len() > 0 && candidate_before(candidate, sorted.last()) {
        assert(in_range(sorted.drop_last(), bound)) by {
            assert forall|k: int| 0 <= k < sorted.drop_last().len() implies (
            #[trigger] sorted.drop_last()[k]).root < bound && sorted.drop_last()[k].on_driver
                < bound && sorted.drop_last()[k].off_driver < bound
                && sorted.drop_last()[k].on_driver != sorted.drop_last()[k].off_driver by {
                assert(sorted[k].root < bound);
            }
        }
        lemma_insert_in_range(sorted.drop_last(), candidate, bound);
        let inner = insert_candidate(sorted.drop_last(), candidate);
        assert forall|k: int| 0 <= k < inner.push(sorted.last()).len() implies (
        #[trigger] inner.push(sorted.last())[k]).root < bound && inner.push(
            sorted.last(),
        )[k].on_driver < bound && inner.push(sorted.last())[k].off_driver < bound && inner.push(
            sorted.last(),
        )[k].on_driver != inner.push(sorted.last())[k].off_driver by {
            if k < inner.len() {
                assert(inner[k].root < bound);
            } else {
                assert(sorted[sorted.len() - 1].root < bound);
            }
        }
    }
}

fn wide_mux_candidates(netlist: &Ecp5Netlist, depths: &HashMap<u32, usize>) -> (candidates: Vec<
    MuxCandidate,
>)
    ensures
        candidates@ == mux_candidates(netlist@.cells, depths@, netlist@.cells.len()),
        in_range(candidates@, netlist.cells@.len() as int),
{
    let ghost models = netlist@.cells;
    let mut candidates: Vec<MuxCandidate> = Vec::new();
    for root in 0..netlist.cells.len()
        invariant
            models == cell_models(netlist.cells@),
            candidates@ == mux_candidates(models, depths@, root as nat),
            in_range(candidates@, netlist.cells@.len() as int),
    {
        assert(models[root as int] == netlist.cells@[root as int]@);
        if let Ecp5Cell::Lut4 { inputs, output, init, .. } = &netlist.cells[root] {
            if let Some((Bit::Wire(on), Bit::Wire(off), select)) = lut_mux_decomposition(
                *inputs,
                *init,
            ) {
                if let Some(on_driver) = find_last_lut(&netlist.cells, on) {
                    if let Some(off_driver) = find_last_lut(&netlist.cells, off) {
                        if on_driver != off_driver {
                            let candidate = MuxCandidate {
                                depth: bit_lut_depth(Bit::Wire(*output), depths),
                                root,
                                on_driver,
                                off_driver,
                                on,
                                off,
                                select,
                                output: *output,
                            };
                            assert(mux_candidate(models, root as int, depths@) == Some(candidate));
                            proof {
                                lemma_insert_in_range(
                                    candidates@,
                                    candidate,
                                    netlist.cells@.len() as int,
                                );
                            }
                            place_candidate(&mut candidates, candidate);
                        }
                    }
                }
            }
        }
    }
    candidates
}

/// A netlist while muxes are being placed: the drivers that a hard mux owns,
/// the muxes placed, the drivers cloned and the next free wire.
#[verifier::ext_equal]
pub struct WideModel {
    pub netlist: NetlistModel,
    pub claimed: Seq<usize>,
    pub placed: nat,
    pub clones: nat,
    pub next: u32,
}

/// Whether a hard mux needs its own copy of a driver: another one owns it, or
/// something else reads it.
pub open spec fn needs_clone(wide: WideModel, driver: usize, wire: u32) -> bool {
    wide.claimed.contains(driver) || wire_fanout(wide.netlist, wire) > 1
}

/// A copy of the lookup table at `driver` that drives the next free wire.
pub open spec fn driver_clone(wide: WideModel, driver: usize) -> CellModel {
    let source = wide.netlist.cells[driver as int];
    CellModel::Lut4 {
        name: unique_name(source.cell_name() + "_wide_mux_clone"@, wide.netlist.cells, None),
        inputs: source->Lut4_inputs,
        output: wide.next,
        init: source->Lut4_init,
    }
}

/// `wide` with `driver` claimed, and cloned where `clone` says so.
pub open spec fn claim_driver(wide: WideModel, driver: usize, clone: bool) -> WideModel {
    let claimed = wide.claimed.push(driver);
    if clone {
        WideModel {
            netlist: NetlistModel {
                cells: wide.netlist.cells.push(driver_clone(wide, driver)),
                ..wide.netlist
            },
            claimed,
            clones: wide.clones + 1,
            next: (wide.next + 1) as u32,
            ..wide
        }
    } else {
        WideModel { claimed, ..wide }
    }
}

/// How many of two drivers need a clone.
pub open spec fn clones_needed(wide: WideModel, candidate: MuxCandidate) -> nat {
    (if needs_clone(wide, candidate.on_driver, candidate.on) {
        1nat
    } else {
        0
    }) + (if needs_clone(wide, candidate.off_driver, candidate.off) {
        1nat
    } else {
        0
    })
}

/// Whether the candidate can become a hard mux: it is no driver of one, its
/// own drivers are still lookup tables, each replaced table pays for at most
/// one clone, and wire numbers last.
pub open spec fn can_place(wide: WideModel, candidate: MuxCandidate) -> bool {
    &&& !wide.claimed.contains(candidate.root)
    &&& wide.netlist.cells[candidate.on_driver as int] is Lut4
    &&& wide.netlist.cells[candidate.off_driver as int] is Lut4
    &&& wide.clones + clones_needed(wide, candidate) <= wide.placed + 1
    &&& wide.next + clones_needed(wide, candidate) <= u32::MAX
}

/// `wide` with the candidate replaced by a hard mux, where it can be.
pub open spec fn place_mux(wide: WideModel, candidate: MuxCandidate) -> WideModel {
    if can_place(wide, candidate) {
        let on_clone = needs_clone(wide, candidate.on_driver, candidate.on);
        let off_clone = needs_clone(wide, candidate.off_driver, candidate.off);
        let one = claim_driver(wide, candidate.on_driver, on_clone);
        let two = claim_driver(one, candidate.off_driver, off_clone);
        WideModel {
            netlist: NetlistModel {
                cells: two.netlist.cells.update(
                    candidate.root as int,
                    CellModel::PfuMux {
                        name: two.netlist.cells[candidate.root as int].cell_name(),
                        lut_true: Bit::Wire(
                            if on_clone {
                                wide.next
                            } else {
                                candidate.on
                            },
                        ),
                        lut_false: Bit::Wire(
                            if off_clone {
                                one.next
                            } else {
                                candidate.off
                            },
                        ),
                        select: candidate.select,
                        output: candidate.output,
                    },
                ),
                ..two.netlist
            },
            placed: wide.placed + 1,
            ..two
        }
    } else {
        wide
    }
}

/// The first `count` candidates treated in order.
pub open spec fn place_muxes(
    wide: WideModel,
    candidates: Seq<MuxCandidate>,
    count: nat,
) -> WideModel
    decreases count,
{
    if count == 0 {
        wide
    } else {
        place_mux(place_muxes(wide, candidates, (count - 1) as nat), candidates[count - 1])
    }
}

/// `netlist` before any mux is placed. Without a free wire no driver can be
/// cloned.
pub open spec fn wide_start(netlist: NetlistModel) -> WideModel {
    WideModel {
        netlist,
        claimed: seq![],
        placed: 0,
        clones: 0,
        next: match next_free_wire(netlist) {
            Some(next) => next,
            None => u32::MAX,
        },
    }
}

/// `netlist` with muxes of two lookup tables turned into hard muxes.
pub open spec fn with_pfu_muxes(netlist: NetlistModel) -> NetlistModel {
    let candidates = mux_candidates(netlist.cells, depths_of(netlist), netlist.cells.len());
    place_muxes(wide_start(netlist), candidates, candidates.len()).netlist
}

/// Claims, clones and counts while muxes are being placed.
struct WideProgress {
    claimed: Vec<usize>,
    placed: usize,
    clones: usize,
    next: u32,
}

spec fn wide_model(netlist: NetlistModel, progress: WideProgress) -> WideModel {
    WideModel {
        netlist,
        claimed: progress.claimed@,
        placed: progress.placed as nat,
        clones: progress.clones as nat,
        next: progress.next,
    }
}

fn claim(netlist: &mut Ecp5Netlist, progress: &mut WideProgress, driver: usize, clone: bool)
    requires
        driver < old(netlist).cells@.len(),
        old(netlist)@.cells[driver as int] is Lut4,
        clone ==> old(progress).next < u32::MAX && old(progress).clones < usize::MAX,
    ensures
        wide_model(final(netlist)@, *final(progress)) == claim_driver(
            wide_model(old(netlist)@, *old(progress)),
            driver,
            clone,
        ),
        final(progress).placed == old(progress).placed,
        final(netlist).cells@.len() >= old(netlist).cells@.len(),
        forall|i: int|
            0 <= i < old(netlist)@.cells.len() ==> final(netlist)@.cells[i] == old(
                netlist,
            )@.cells[i],
{
    let ghost before = wide_model(netlist@, *progress);
    assert(netlist@.cells[driver as int] == netlist.cells@[driver as int]@);
    if clone {
        if let Ecp5Cell::Lut4 { name, inputs, init, .. } = &netlist.cells[driver] {
            let base = join(name.as_str(), "_wide_mux_clone");
            let cell = Ecp5Cell::Lut4 {
                name: unique_cell_name(base.as_str(), &netlist.cells, None),
                inputs: *inputs,
                output: progress.next,
                init: *init,
            };
            let ghost model = cell@;
            assert(model == driver_clone(before, driver));
            let ghost prior = netlist@;
            netlist.cells.push(cell);
            assert(cell_models(netlist.cells@) =~= prior.cells.push(model));
            assert(netlist@ =~= (NetlistModel { cells: prior.cells.push(model), ..prior }));
        }
        progress.clones = progress.clones + 1;
        progress.next = progress.next + 1;
    }
    progress.claimed.push(driver);
}

fn check_clone(netlist: &Ecp5Netlist, progress: &WideProgress, driver: usize, wire: u32) -> (needed:
    bool)
    ensures
        needed == needs_clone(wide_model(netlist@, *progress), driver, wire),
{
    holds(&progress.claimed, driver) || mapped_wire_fanout(netlist, wire) > 1
}

fn is_lut(cell: &Ecp5Cell) -> (found: bool)
    ensures
        found == (cell@ is Lut4),
{
    match cell {
        Ecp5Cell::Lut4 { .. } => true,
        _ => false,
    }
}

fn try_place(netlist: &mut Ecp5Netlist, progress: &mut WideProgress, candidate: &MuxCandidate)
    requires
        candidate.root < old(netlist).cells@.len(),
        candidate.on_driver < old(netlist).cells@.len(),
        candidate.off_driver < old(netlist).cells@.len(),
        old(progress).clones <= old(progress).placed,
        old(progress).placed < usize::MAX,
    ensures
        wide_model(final(netlist)@, *final(progress)) == place_mux(
            wide_model(old(netlist)@, *old(progress)),
            *candidate,
        ),
        final(netlist).cells@.len() >= old(netlist).cells@.len(),
        final(progress).clones <= final(progress).placed,
        final(progress).placed <= old(progress).placed + 1,
{
    let ghost before = wide_model(netlist@, *progress);
    assert(netlist@.cells[candidate.on_driver as int] == netlist.cells@[candidate.on_driver
        as int]@);
    assert(netlist@.cells[candidate.off_driver as int] == netlist.cells@[candidate.off_driver
        as int]@);
    if holds(&progress.claimed, candidate.root) || !is_lut(&netlist.cells[candidate.on_driver])
        || !is_lut(&netlist.cells[candidate.off_driver]) {
        return;
    }
    let on_clone: bool = check_clone(netlist, progress, candidate.on_driver, candidate.on);
    let off_clone: bool = check_clone(netlist, progress, candidate.off_driver, candidate.off);
    let mut needed: u32 = 0;
    if on_clone {
        needed = needed + 1;
    }
    if off_clone {
        needed = needed + 1;
    }
    assert(needed == clones_needed(before, *candidate));
    if progress.clones as u128 + needed as u128 > progress.placed as u128 + 1 || progress.next
        > u32::MAX - needed {
        return;
    }
    let on: u32 = if on_clone {
        progress.next
    } else {
        candidate.on
    };
    claim(netlist, progress, candidate.on_driver, on_clone);
    let off: u32 = if off_clone {
        progress.next
    } else {
        candidate.off
    };
    claim(netlist, progress, candidate.off_driver, off_clone);
    let ghost prior = netlist@;
    assert(prior.cells[candidate.root as int] == netlist.cells@[candidate.root as int]@);
    let cell = Ecp5Cell::PfuMux {
        name: mapped_cell_name(&netlist.cells[candidate.root]).clone(),
        lut_true: Bit::Wire(on),
        lut_false: Bit::Wire(off),
        select: candidate.select,
        output: candidate.output,
    };
    let ghost model = cell@;
    netlist.cells.set(candidate.root, cell);
    assert(cell_models(netlist.cells@) =~= prior.cells.update(candidate.root as int, model));
    assert(netlist@ =~= (NetlistModel {
        cells: prior.cells.update(candidate.root as int, model),
        ..prior
    }));
    progress.placed = progress.placed + 1;
}

fn place_pfu_muxes(netlist: &mut Ecp5Netlist)
    ensures
        final(netlist)@ == with_pfu_muxes(old(netlist)@),
{
    let depths = mapped_lut_depths(netlist);
    let candidates = wide_mux_candidates(netlist, &depths);
    let ghost original = netlist@;
    let ghost start = wide_start(original);
    let size: usize = netlist.cells.len();
    let mut progress = WideProgress {
        claimed: Vec::new(),
        placed: 0,
        clones: 0,
        next: match free_wire(netlist) {
            Some(next) => next,
            None => u32::MAX,
        },
    };
    assert(progress.claimed@ =~= seq![]);
    for i in 0..candidates.len()
        invariant
            size <= netlist.cells@.len(),
            in_range(candidates@, size as int),
            wide_model(netlist@, progress) == place_muxes(start, candidates@, i as nat),
            progress.clones <= progress.placed <= i,
    {
        assert(candidates@[i as int].root < size);
        let candidate = candidates[i];
        try_place(netlist, &mut progress, &candidate);
    }
}

/// The last hard mux of two lookup tables among the first `count` cells that
/// drives `wire`.
pub open spec fn last_pfu(cells: Seq<CellModel>, wire: u32, count: int) -> Option<int>
    decreases count,
{
    if count <= 0 {
        None
    } else if cells[count - 1] is PfuMux && cells[count - 1]->PfuMux_output == wire {
        Some(count - 1)
    } else {
        last_pfu(cells, wire, count - 1)
    }
}

fn find_last_pfu(cells: &Vec<Ecp5Cell>, wire: u32) -> (found: Option<usize>)
    ensures
        match found {
            Some(index) => last_pfu(cell_models(cells@), wire, cells@.len() as int) == Some(
                index as int,
            ) && index < cells@.len(),
            None => last_pfu(cell_models(cells@), wire, cells@.len() as int) is None,
        },
{
    let ghost models = cell_models(cells@);
    let mut i: usize = cells.len();
    while i > 0
        invariant
            i <= cells@.len(),
            models == cell_models(cells@),
            last_pfu(models, wire, cells@.len() as int) == last_pfu(models, wire, i as int),
        decreases i,
    {
        assert(models[i - 1] == cells@[i - 1]@);
        if let Ecp5Cell::PfuMux { output, .. } = &cells[i - 1] {
            if *output == wire {
                return Some(i - 1);
            }
        }
        i -= 1;
    }
    None
}

/// Whether a hard mux of two lookup tables reads `wire` as data.
pub open spec fn feeds_pfu(cells: Seq<CellModel>, wire: u32) -> bool {
    exists|i: int|
        0 <= i < cells.len() && (#[trigger] cells[i]) is PfuMux && (cells[i]->PfuMux_lut_true
            == Bit::Wire(wire) || cells[i]->PfuMux_lut_false == Bit::Wire(wire))
}

fn check_feeds_pfu(cells: &Vec<Ecp5Cell>, wire: u32) -> (found: bool)
    ensures
        found == feeds_pfu(cell_models(cells@), wire),
{
    let ghost models = cell_models(cells@);
    for i in 0..cells.len()
        invariant
            models == cell_models(cells@),
            forall|j: int|
                0 <= j < i && (#[trigger] models[j]) is PfuMux ==> models[j]->PfuMux_lut_true
                    != Bit::Wire(wire) && models[j]->PfuMux_lut_false != Bit::Wire(wire),
    {
        assert(models[i as int] == cells@[i as int]@);
        if let Ecp5Cell::PfuMux { lut_true, lut_false, .. } = &cells[i] {
            if *lut_true == Bit::Wire(wire) || *lut_false == Bit::Wire(wire) {
                return true;
            }
        }
    }
    false
}

/// The candidate for the wider hard mux that the cell at `root` is: a mux of
/// two wires that different hard muxes drive for it alone, itself no input of
/// a hard mux.
pub open spec fn l6_candidate(
    netlist: NetlistModel,
    root: int,
    depths: Map<u32, usize>,
) -> Option<MuxCandidate> {
    let cells = netlist.cells;
    match cells[root] {
        CellModel::Lut4 { inputs, output, init, .. } => match mux_inputs(inputs, init) {
            Some((Bit::Wire(on), Bit::Wire(off), select)) => match (
                last_pfu(cells, on, cells.len() as int),
                last_pfu(cells, off, cells.len() as int),
            ) {
                (Some(on_driver), Some(off_driver)) => if !feeds_pfu(cells, output) && wire_fanout(
                    netlist,
                    on,
                ) == 1 && wire_fanout(netlist, off) == 1 && on_driver != off_driver {
                    Some(
                        MuxCandidate {
                            depth: bit_depth(Bit::Wire(output), depths),
                            root: root as usize,
                            on_driver: on_driver as usize,
                            off_driver: off_driver as usize,
                            on,
                            off,
                            select,
                            output,
                        },
                    )
                } else {
                    None
                },
                _ => None,
            },
            _ => None,
        },
        _ => None,
    }
}

/// The candidates for the wider hard mux among the first `count` cells, in the
/// order in which they are treated.
pub open spec fn l6_candidates(
    netlist: NetlistModel,
    depths: Map<u32, usize>,
    count: nat,
) -> Seq<MuxCandidate>
    decreases count,
{
    if count == 0 {
        seq![]
    } else {
        let rest = l6_candidates(netlist, depths, (count - 1) as nat);
        match l6_candidate(netlist, count - 1, depths) {
            Some(candidate) => insert_candidate(rest, candidate),
            None => rest,
        }
    }
}

/// Cells while wider hard muxes are being placed, and the drivers they own.
#[verifier::ext_equal]
pub struct L6Model {
    pub cells: Seq<CellModel>,
    pub claimed: Seq<usize>,
}

/// `l6` with the candidate replaced by a wider hard mux, where nothing owns
/// its drivers.
pub open spec fn place_l6(l6: L6Model, candidate: MuxCandidate) -> L6Model {
    if l6.claimed.contains(candidate.off_driver) || l6.claimed.contains(candidate.on_driver) {
        l6
    } else {
        L6Model {
            cells: l6.cells.update(
                candidate.root as int,
                CellModel::L6Mux21 {
                    name: l6.cells[candidate.root as int].cell_name(),
                    data_zero: Bit::Wire(candidate.off),
                    data_one: Bit::Wire(candidate.on),
                    select: candidate.select,
                    output: candidate.output,
                },
            ),
            claimed: l6.claimed.push(candidate.off_driver).push(candidate.on_driver),
        }
    }
}

/// The first `count` candidates treated in order.
pub open spec fn place_l6s(l6: L6Model, candidates: Seq<MuxCandidate>, count: nat) -> L6Model
    decreases count,
{
    if count == 0 {
        l6
    } else {
        place_l6(place_l6s(l6, candidates, (count - 1) as nat), candidates[count - 1])
    }
}

/// `netlist` with muxes of two hard muxes turned into wider hard muxes.
pub open spec fn with_l6_muxes(netlist: NetlistModel) -> NetlistModel {
    let candidates = l6_candidates(netlist, depths_of(netlist), netlist.cells.len());
    NetlistModel {
        cells: place_l6s(
            L6Model { cells: netlist.cells, claimed: seq![] },
            candidates,
            candidates.len(),
        ).cells,
        ..netlist
    }
}

fn list_l6_candidates(netlist: &Ecp5Netlist, depths: &HashMap<u32, usize>) -> (candidates: Vec<
    MuxCandidate,
>)
    ensures
        candidates@ == l6_candidates(netlist@, depths@, netlist@.cells.len()),
        in_range(candidates@, netlist.cells@.len() as int),
{
    let ghost models = netlist@.cells;
    let mut candidates: Vec<MuxCandidate> = Vec::new();
    for root in 0..netlist.cells.len()
        invariant
            models == netlist@.cells,
            models == cell_models(netlist.cells@),
            candidates@ == l6_candidates(netlist@, depths@, root as nat),
            in_range(candidates@, netlist.cells@.len() as int),
    {
        assert(models[root as int] == netlist.cells@[root as int]@);
        if let Some(candidate) = read_l6_candidate(netlist, root, depths) {
            proof {
                lemma_insert_in_range(candidates@, candidate, netlist.cells@.len() as int);
            }
            place_candidate(&mut candidates, candidate);
        }
    }
    candidates
}

fn read_l6_candidate(netlist: &Ecp5Netlist, root: usize, depths: &HashMap<u32, usize>) -> (found:
    Option<MuxCandidate>)
    requires
        root < netlist.cells@.len(),
    ensures
        found == l6_candidate(netlist@, root as int, depths@),
        found matches Some(candidate) ==> candidate.root < netlist.cells@.len()
            && candidate.on_driver < netlist.cells@.len() && candidate.off_driver
            < netlist.cells@.len() && candidate.on_driver != candidate.off_driver,
{
    assert(netlist@.cells[root as int] == netlist.cells@[root as int]@);
    let (inputs, output, init): ([Bit; 4], u32, u16) = match &netlist.cells[root] {
        Ecp5Cell::Lut4 { inputs, output, init, .. } => (*inputs, *output, *init),
        _ => return None,
    };
    let (on, off, select): (u32, u32, Bit) = match lut_mux_decomposition(inputs, init) {
        Some((Bit::Wire(on), Bit::Wire(off), select)) => (on, off, select),
        _ => return None,
    };
    let on_driver: usize = match find_last_pfu(&netlist.cells, on) {
        Some(on_driver) => on_driver,
        None => return None,
    };
    let off_driver: usize = match find_last_pfu(&netlist.cells, off) {
        Some(off_driver) => off_driver,
        None => return None,
    };
    if check_feeds_pfu(&netlist.cells, output) || mapped_wire_fanout(netlist, on) != 1
        || mapped_wire_fanout(netlist, off) != 1 || on_driver == off_driver {
        return None;
    }
    Some(
        MuxCandidate {
            depth: bit_lut_depth(Bit::Wire(output), depths),
            root,
            on_driver,
            off_driver,
            on,
            off,
            select,
            output,
        },
    )
}

/// Turns muxes of two hard muxes into wider hard muxes.
pub fn map_l6_muxes(netlist: &mut Ecp5Netlist)
    ensures
        final(netlist)@ == with_l6_muxes(old(netlist)@),
{
    let depths = mapped_lut_depths(netlist);
    let candidates = list_l6_candidates(netlist, &depths);
    let ghost original = netlist@;
    let size: usize = netlist.cells.len();
    let mut claimed: Vec<usize> = Vec::new();
    let ghost start = L6Model { cells: original.cells, claimed: seq![] };
    assert(claimed@ =~= seq![]);
    for i in 0..candidates.len()
        invariant
            size == netlist.cells@.len(),
            in_range(candidates@, size as int),
            netlist@ == (NetlistModel { cells: cell_models(netlist.cells@), ..original }),
            place_l6s(start, candidates@, i as nat) == (L6Model {
                cells: cell_models(netlist.cells@),
                claimed: claimed@,
            }),
    {
        assert(candidates@[i as int].root < size);
        let candidate = candidates[i];
        if !holds(&claimed, candidate.off_driver) && !holds(&claimed, candidate.on_driver) {
            let ghost prior = cell_models(netlist.cells@);
            assert(prior[candidate.root as int] == netlist.cells@[candidate.root as int]@);
            let cell = Ecp5Cell::L6Mux21 {
                name: mapped_cell_name(&netlist.cells[candidate.root]).clone(),
                data_zero: Bit::Wire(candidate.off),
                data_one: Bit::Wire(candidate.on),
                select: candidate.select,
                output: candidate.output,
            };
            let ghost model = cell@;
            netlist.cells.set(candidate.root, cell);
            assert(cell_models(netlist.cells@) =~= prior.update(candidate.root as int, model));
            claimed.push(candidate.off_driver);
            claimed.push(candidate.on_driver);
        }
    }
    assert(netlist@ =~= with_l6_muxes(original));
}

/// Turns lookup tables that are muxes of lookup tables into hard muxes, and
/// muxes of those into wider ones.
pub fn map_dedicated_wide_muxes(netlist: &mut Ecp5Netlist)
    ensures
        final(netlist)@ == with_l6_muxes(with_pfu_muxes(old(netlist)@)),
{
    place_pfu_muxes(netlist);
    map_l6_muxes(netlist);
}

} // verus!
