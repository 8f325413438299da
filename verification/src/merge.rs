//! Sharing of equal registers that retiming generated.

use std::collections::HashMap;

use vstd::prelude::*;

use crate::cells::{clamped, Bit, CellModel, ClockEdge, Control, Ecp5Cell, Reset};
use crate::netlist::{
    cell_models, fanout_map, mapped_wire_fanouts, renumbered_uses, replace_mapped_wire_uses,
    Ecp5Netlist, MappedEquivalenceProof, NetlistModel,
};
use crate::netlist::renumbered_cells;
use crate::registered::{remove_cells, without};
use crate::retime_lut::same_control;
use crate::score::{comb_count, register_count, slice_count};
use crate::text::{begins_with, starts_with};
use crate::timing::value_at;

verus! {

/// The largest fanout that sharing may give a register.
pub const MAX_SHARED_FANOUT: usize = 2;

/// A generated register and the fanout that it carries.
#[derive(Clone, Copy, Debug, Eq, PartialEq, Structural)]
pub struct SharedRegister {
    /// D input.
    pub data: Bit,
    /// Q output wire.
    pub output: u32,
    /// Clock input.
    pub clock: Bit,
    /// Active clock edge.
    pub edge: ClockEdge,
    /// Optional clock enable.
    pub enable: Option<Control>,
    /// Optional reset.
    pub reset: Option<Reset>,
    /// Loads.
    pub fanout: usize,
}

/// A register that another one takes over.
#[derive(Clone, Copy, Debug, Eq, PartialEq, Structural)]
pub struct Duplicate {
    /// Position of the register.
    pub index: usize,
    /// The wire that it drives.
    pub output: u32,
    /// The wire of the register that takes it over.
    pub canonical: u32,
}

/// The generated register that `cell` is, if it is one.
pub open spec fn generated_register(cell: CellModel, fanouts: Map<u32, usize>) -> Option<
    SharedRegister,
> {
    match cell {
        CellModel::FlipFlop { name, data, output, clock, edge, enable, reset } => if begins_with(
            name,
            "retime_"@,
        ) {
            Some(
                SharedRegister {
                    data,
                    output,
                    clock,
                    edge,
                    enable,
                    reset,
                    fanout: match value_at(fanouts, output) {
                        Some(fanout) => fanout,
                        None => 0,
                    },
                },
            )
        } else {
            None
        },
        _ => None,
    }
}

/// Whether two registers hold the same state.
pub open spec fn same_state(a: SharedRegister, b: SharedRegister) -> bool {
    a.data == b.data && a.clock == b.clock && a.edge == b.edge && a.enable == b.enable && a.reset
        == b.reset
}

/// Whether `shared` can take over `register`.
pub open spec fn can_share(shared: SharedRegister, register: SharedRegister) -> bool {
    same_state(shared, register) && shared.fanout + register.fanout <= MAX_SHARED_FANOUT
}

/// The first of `shared`, from `from` on, that can take over `register`.
pub open spec fn sharer(shared: Seq<SharedRegister>, register: SharedRegister, from: int) -> Option<
    int,
>
    decreases shared.len() - from,
{
    if from < 0 || from >= shared.len() {
        None
    } else if can_share(shared[from], register) {
        Some(from)
    } else {
        sharer(shared, register, from + 1)
    }
}

/// The registers kept and those taken over, among the cells seen so far.
#[verifier::ext_equal]
pub struct ScanModel {
    pub shared: Seq<SharedRegister>,
    pub duplicates: Seq<Duplicate>,
}

/// `scan` with the cell at `index` seen.
pub open spec fn scan_cell(
    scan: ScanModel,
    cell: CellModel,
    index: int,
    fanouts: Map<u32, usize>,
) -> ScanModel {
    match generated_register(cell, fanouts) {
        Some(register) => match sharer(scan.shared, register, 0) {
            Some(k) => ScanModel {
                shared: scan.shared.update(
                    k,
                    SharedRegister {
                        fanout: (scan.shared[k].fanout + register.fanout) as usize,
                        ..scan.shared[k]
                    },
                ),
                duplicates: scan.duplicates.push(
                    Duplicate {
                        index: index as usize,
                        output: register.output,
                        canonical: scan.shared[k].output,
                    },
                ),
            },
            None => ScanModel { shared: scan.shared.push(register), ..scan },
        },
        None => scan,
    }
}

/// The first `count` cells seen in order.
pub open spec fn scan_cells(
    cells: Seq<CellModel>,
    fanouts: Map<u32, usize>,
    count: nat,
) -> ScanModel
    decreases count,
{
    if count == 0 {
        ScanModel { shared: seq![], duplicates: seq![] }
    } else {
        let last = (count - 1) as nat;
        scan_cell(scan_cells(cells, fanouts, last), cells[last as int], last as int, fanouts)
    }
}

/// The registers that one round takes over.
pub open spec fn duplicates_of(netlist: NetlistModel) -> Seq<Duplicate> {
    scan_cells(netlist.cells, fanout_map(netlist), netlist.cells.len()).duplicates
}

/// `netlist` with the loads of the first `count` duplicates moved.
pub open spec fn moved_loads(
    netlist: NetlistModel,
    duplicates: Seq<Duplicate>,
    count: nat,
) -> NetlistModel
    decreases count,
{
    if count == 0 {
        netlist
    } else {
        let last = duplicates[count - 1];
        renumbered_uses(
            moved_loads(netlist, duplicates, (count - 1) as nat),
            last.output,
            last.canonical,
        )
    }
}

/// The positions of the duplicates.
pub open spec fn duplicate_indices(duplicates: Seq<Duplicate>) -> Seq<usize> {
    Seq::new(duplicates.len(), |i: int| duplicates[i].index)
}

/// One round of sharing.
pub open spec fn merged_once(netlist: NetlistModel) -> NetlistModel {
    let duplicates = duplicates_of(netlist);
    let moved = moved_loads(netlist, duplicates, duplicates.len());
    NetlistModel {
        cells: without(moved.cells, duplicate_indices(duplicates)),
        proof: MappedEquivalenceProof {
            equivalent_register_merges: clamped(
                netlist.proof.equivalent_register_merges as nat + duplicates.len(),
            ),
            ..netlist.proof
        },
        ..moved
    }
}

/// `netlist` with equal generated registers shared, round by round until none
/// can be.
pub open spec fn merged(netlist: NetlistModel) -> NetlistModel
    decreases netlist.cells.len(),
    via merged_terminates
{
    if duplicates_of(netlist).len() == 0 {
        netlist
    } else {
        merged(merged_once(netlist))
    }
}

#[via_fn]
proof fn merged_terminates(netlist: NetlistModel) {
    lemma_merge_shrinks(netlist);
}

proof fn lemma_without_len(cells: Seq<CellModel>, removed: Seq<usize>)
    ensures
        without(cells, removed).len() <= cells.len(),
    decreases cells.len(),
{
    if cells.len() > 0 {
        lemma_without_len(cells.drop_last(), removed);
    }
}

proof fn lemma_without_shrinks(cells: Seq<CellModel>, removed: Seq<usize>, index: int)
    requires
        0 <= index < cells.len(),
        removed.contains(index as usize),
    ensures
        without(cells, removed).len() < cells.len(),
    decreases cells.len(),
{
    lemma_without_len(cells.drop_last(), removed);
    if index < cells.len() - 1 {
        lemma_without_shrinks(cells.drop_last(), removed, index);
    }
}

/// Moving loads keeps the number of cells.
pub proof fn lemma_moved_len(netlist: NetlistModel, duplicates: Seq<Duplicate>, count: nat)
    ensures
        moved_loads(netlist, duplicates, count).cells.len() == netlist.cells.len(),
    decreases count,
{
    if count > 0 {
        lemma_moved_len(netlist, duplicates, (count - 1) as nat);
    }
}

/// A sharer can take over the register.
pub proof fn lemma_sharer(shared: Seq<SharedRegister>, register: SharedRegister, from: int)
    requires
        0 <= from,
    ensures
        sharer(shared, register, from) matches Some(k) ==> from <= k < shared.len() && can_share(
            shared[k],
            register,
        ),
    decreases shared.len() - from,
{
    if from < shared.len() {
        lemma_sharer(shared, register, from + 1);
    }
}

/// Whether the kept registers and the duplicates stand for cells below
/// `count`, each duplicate for one equal to the register that takes it over,
/// and sharing kept fanouts within the limit.
pub open spec fn scan_is_sound(
    cells: Seq<CellModel>,
    fanouts: Map<u32, usize>,
    scan: ScanModel,
    count: int,
) -> bool {
    &&& forall|k: int|
        0 <= k < scan.shared.len() ==> exists|i: int|
            #![trigger generated_register(cells[i], fanouts)]
            0 <= i < count && generated_register(cells[i], fanouts) is Some && same_state(
                generated_register(cells[i], fanouts)->0,
                #[trigger] scan.shared[k],
            ) && generated_register(cells[i], fanouts)->0.output == scan.shared[k].output
    &&& forall|d: int|
        0 <= d < scan.duplicates.len() ==> is_sound_duplicate(
            cells,
            fanouts,
            scan,
            count,
            #[trigger] scan.duplicates[d],
        )
}

/// Whether a duplicate is a generated register below `count`, equal in state
/// to a kept register with the canonical output and a fanout within the limit.
pub open spec fn is_sound_duplicate(
    cells: Seq<CellModel>,
    fanouts: Map<u32, usize>,
    scan: ScanModel,
    count: int,
    duplicate: Duplicate,
) -> bool {
    &&& duplicate.index < count
    &&& generated_register(cells[duplicate.index as int], fanouts) matches Some(register)
    &&& register.output == duplicate.output
    &&& exists|k: int|
        0 <= k < scan.shared.len() && same_state(#[trigger] scan.shared[k], register)
            && scan.shared[k].output == duplicate.canonical && scan.shared[k].fanout
            <= MAX_SHARED_FANOUT
}

/// What sharing takes over is equal: every register that a round takes over has
/// the data, clock, edge, enable and reset of the one that takes it over, and
/// no shared register carries more than two loads.
pub proof fn law_shared_registers_are_equal(
    cells: Seq<CellModel>,
    fanouts: Map<u32, usize>,
    count: nat,
)
    requires
        count <= cells.len(),
        cells.len() <= usize::MAX,
    ensures
        scan_is_sound(cells, fanouts, scan_cells(cells, fanouts, count), count as int),
    decreases count,
{
    if count > 0 {
        let last = (count - 1) as nat;
        let before = scan_cells(cells, fanouts, last);
        let after = scan_cells(cells, fanouts, count);
        law_shared_registers_are_equal(cells, fanouts, last);
        if let Some(register) = generated_register(cells[last as int], fanouts) {
            lemma_sharer(before.shared, register, 0);
            assert forall|k: int| 0 <= k < after.shared.len() implies exists|i: int|
                #![trigger generated_register(cells[i], fanouts)]
                0 <= i < count && generated_register(cells[i], fanouts) is Some && same_state(
                    generated_register(cells[i], fanouts)->0,
                    #[trigger] after.shared[k],
                ) && generated_register(cells[i], fanouts)->0.output
                    == after.shared[k].output by {
                if k < before.shared.len() {
                    let i = choose|i: int|
                        #![trigger generated_register(cells[i], fanouts)]
                        0 <= i < last && generated_register(cells[i], fanouts) is Some
                            && same_state(
                            generated_register(cells[i], fanouts)->0,
                            before.shared[k],
                        ) && generated_register(cells[i], fanouts)->0.output
                            == before.shared[k].output;
                    assert(generated_register(cells[i], fanouts) is Some);
                } else {
                    assert(generated_register(cells[last as int], fanouts) is Some);
                }
            }
            assert forall|d: int| 0 <= d < after.duplicates.len() implies is_sound_duplicate(
                cells,
                fanouts,
                after,
                count as int,
                #[trigger] after.duplicates[d],
            ) by {
                let duplicate = after.duplicates[d];
                if d < before.duplicates.len() {
                    assert(is_sound_duplicate(
                        cells,
                        fanouts,
                        before,
                        last as int,
                        before.duplicates[d],
                    ));
                    let other = generated_register(cells[duplicate.index as int], fanouts)->0;
                    let k = choose|k: int|
                        0 <= k < before.shared.len() && same_state(
                            #[trigger] before.shared[k],
                            other,
                        ) && before.shared[k].output == duplicate.canonical
                            && before.shared[k].fanout <= MAX_SHARED_FANOUT;
                    assert(same_state(after.shared[k], other));
                } else {
                    let k = sharer(before.shared, register, 0)->0;
                    assert(same_state(after.shared[k], register));
                }
            }
        } else {
            assert forall|d: int| 0 <= d < after.duplicates.len() implies is_sound_duplicate(
                cells,
                fanouts,
                after,
                count as int,
                #[trigger] after.duplicates[d],
            ) by {
                assert(is_sound_duplicate(
                    cells,
                    fanouts,
                    before,
                    last as int,
                    before.duplicates[d],
                ));
            }
            assert forall|k: int| 0 <= k < after.shared.len() implies exists|i: int|
                #![trigger generated_register(cells[i], fanouts)]
                0 <= i < count && generated_register(cells[i], fanouts) is Some && same_state(
                    generated_register(cells[i], fanouts)->0,
                    #[trigger] after.shared[k],
                ) && generated_register(cells[i], fanouts)->0.output
                    == after.shared[k].output by {
                let i = choose|i: int|
                    #![trigger generated_register(cells[i], fanouts)]
                    0 <= i < last && generated_register(cells[i], fanouts) is Some && same_state(
                        generated_register(cells[i], fanouts)->0,
                        before.shared[k],
                    ) && generated_register(cells[i], fanouts)->0.output
                        == before.shared[k].output;
                assert(generated_register(cells[i], fanouts) is Some);
            }
        }
    }
}

proof fn lemma_scan_index(
    cells: Seq<CellModel>,
    fanouts: Map<u32, usize>,
    count: nat,
    d: int,
) -> (i: int)
    requires
        count <= cells.len(),
        0 <= d < scan_cells(cells, fanouts, count).duplicates.len(),
    ensures
        0 <= i < count,
        scan_cells(cells, fanouts, count).duplicates[d].index == i as usize,
    decreases count,
{
    let last = (count - 1) as nat;
    if d < scan_cells(cells, fanouts, last).duplicates.len() {
        lemma_scan_index(cells, fanouts, last, d)
    } else {
        last as int
    }
}

pub proof fn lemma_merge_shrinks(netlist: NetlistModel)
    ensures
        duplicates_of(netlist).len() > 0 ==> merged_once(netlist).cells.len()
            < netlist.cells.len(),
{
    let duplicates = duplicates_of(netlist);
    if duplicates.len() > 0 {
        lemma_moved_len(netlist, duplicates, duplicates.len());
        let moved = moved_loads(netlist, duplicates, duplicates.len());
        let removed = duplicate_indices(duplicates);
        let i = lemma_scan_index(netlist.cells, fanout_map(netlist), netlist.cells.len(), 0);
        assert(removed[0] == i as usize);
        assert(removed.contains(i as usize));
        lemma_without_shrinks(moved.cells, removed, i);
    }
}

fn same_reset(a: Option<Reset>, b: Option<Reset>) -> (same: bool)
    ensures
        same == (a == b),
{
    match (a, b) {
        (Some(a), Some(b)) => a == b,
        (None, None) => true,
        _ => false,
    }
}

fn read_generated_register(cell: &Ecp5Cell, fanouts: &HashMap<u32, usize>) -> (register: Option<
    SharedRegister,
>)
    ensures
        register == generated_register(cell@, fanouts@),
{
    broadcast use vstd::std_specs::hash::group_hash_axioms;

    match cell {
        Ecp5Cell::FlipFlop { name, data, output, clock, edge, enable, reset } => {
            if !starts_with(name.as_str(), "retime_") {
                return None;
            }
            let fanout: usize = match fanouts.get(output) {
                Some(fanout) => *fanout,
                None => 0,
            };
            Some(
                SharedRegister {
                    data: *data,
                    output: *output,
                    clock: *clock,
                    edge: *edge,
                    enable: *enable,
                    reset: *reset,
                    fanout,
                },
            )
        },
        _ => None,
    }
}

fn find_sharer(shared: &Vec<SharedRegister>, register: &SharedRegister) -> (found: Option<usize>)
    ensures
        match found {
            Some(k) => sharer(shared@, *register, 0) == Some(k as int),
            None => sharer(shared@, *register, 0) is None,
        },
{
    let mut k: usize = 0;
    while k < shared.len()
        invariant
            k <= shared@.len(),
            sharer(shared@, *register, 0) == sharer(shared@, *register, k as int),
        decreases shared@.len() - k,
    {
        let other = &shared[k];
        if other.data == register.data && other.clock == register.clock && other.edge
            == register.edge && same_control(other.enable, register.enable) && same_reset(
            other.reset,
            register.reset,
        ) && other.fanout <= MAX_SHARED_FANOUT && register.fanout <= MAX_SHARED_FANOUT
            - other.fanout {
            return Some(k);
        }
        k += 1;
    }
    None
}

fn find_duplicates(netlist: &Ecp5Netlist) -> (duplicates: Vec<Duplicate>)
    ensures
        duplicates@ == duplicates_of(netlist@),
{
    let fanouts = mapped_wire_fanouts(netlist);
    let ghost models = netlist@.cells;
    let mut shared: Vec<SharedRegister> = Vec::new();
    let mut duplicates: Vec<Duplicate> = Vec::new();
    assert(shared@ =~= seq![] && duplicates@ =~= seq![]);
    for i in 0..netlist.cells.len()
        invariant
            models == cell_models(netlist.cells@),
            fanouts@ == fanout_map(netlist@),
            shared@ == scan_cells(models, fanouts@, i as nat).shared,
            duplicates@ == scan_cells(models, fanouts@, i as nat).duplicates,
    {
        assert(models[i as int] == netlist.cells@[i as int]@);
        if let Some(register) = read_generated_register(&netlist.cells[i], &fanouts) {
            proof {
                lemma_sharer(shared@, register, 0);
            }
            match find_sharer(&shared, &register) {
                Some(k) => {
                    let mut kept: SharedRegister = shared[k];
                    duplicates.push(
                        Duplicate { index: i, output: register.output, canonical: kept.output },
                    );
                    kept.fanout = kept.fanout + register.fanout;
                    shared.set(k, kept);
                },
                None => {
                    shared.push(register);
                },
            }
        }
    }
    duplicates
}

/// Shares equal generated registers while a shared one carries at most two
/// loads.
pub fn merge_equivalent_flip_flops(netlist: &mut Ecp5Netlist)
    ensures
        final(netlist)@ == merged(old(netlist)@),
{
    loop
        invariant
            merged(old(netlist)@) == merged(netlist@),
        decreases netlist@.cells.len(),
    {
        let ghost before = netlist@;
        proof {
            lemma_merge_shrinks(before);
        }
        let duplicates = find_duplicates(netlist);
        if duplicates.len() == 0 {
            return;
        }
        netlist.equivalence_proof.equivalent_register_merges =
        netlist.equivalence_proof.equivalent_register_merges.saturating_add(duplicates.len());
        let ghost counted = netlist@;
        let mut removed: Vec<usize> = Vec::new();
        for i in 0..duplicates.len()
            invariant
                netlist@ == moved_loads(counted, duplicates@, i as nat),
                removed@ == duplicate_indices(duplicates@).take(i as int),
        {
            replace_mapped_wire_uses(netlist, duplicates[i].output, duplicates[i].canonical);
            removed.push(duplicates[i].index);
            assert(removed@ =~= duplicate_indices(duplicates@).take(i + 1));
        }
        assert(removed@ =~= duplicate_indices(duplicates@));
        proof {
            lemma_ledger_moves(before, counted.proof, duplicates@, duplicates@.len());
            assert(counted =~= (NetlistModel { proof: counted.proof, ..before }));
        }
        let ghost moved = netlist@;
        remove_cells(&mut netlist.cells, &removed);
        assert(netlist@ =~= (NetlistModel { cells: cell_models(netlist.cells@), ..moved }));
        assert(netlist@ =~= merged_once(before));
    }
}

proof fn lemma_ledger_moves(
    netlist: NetlistModel,
    ledger: MappedEquivalenceProof,
    duplicates: Seq<Duplicate>,
    count: nat,
)
    ensures
        moved_loads(NetlistModel { proof: ledger, ..netlist }, duplicates, count) == (
        NetlistModel { proof: ledger, ..moved_loads(netlist, duplicates, count) }),
    decreases count,
{
    if count > 0 {
        lemma_ledger_moves(netlist, ledger, duplicates, (count - 1) as nat);
    }
}

/// Sharing never adds a cell, and once done finds nothing more to share.
pub proof fn law_merge_settles(netlist: NetlistModel)
    ensures
        merged(netlist).cells.len() <= netlist.cells.len(),
        merged(merged(netlist)) == merged(netlist),
    decreases netlist.cells.len(),
{
    lemma_merge_shrinks(netlist);
    if duplicates_of(netlist).len() > 0 {
        law_merge_settles(merged_once(netlist));
    }
}

proof fn lemma_renumbered_counts(cells: Seq<CellModel>, from: u32, to: u32)
    ensures
        slice_count(renumbered_cells(cells, from, to)) == slice_count(cells),
        comb_count(renumbered_cells(cells, from, to)) == comb_count(cells),
        register_count(renumbered_cells(cells, from, to)) == register_count(cells),
    decreases cells.len(),
{
    if cells.len() > 0 {
        lemma_renumbered_counts(cells.drop_last(), from, to);
        assert(renumbered_cells(cells, from, to).drop_last() =~= renumbered_cells(
            cells.drop_last(),
            from,
            to,
        ));
    }
}

proof fn lemma_moved_counts(netlist: NetlistModel, duplicates: Seq<Duplicate>, count: nat)
    ensures
        slice_count(moved_loads(netlist, duplicates, count).cells) == slice_count(netlist.cells),
        comb_count(moved_loads(netlist, duplicates, count).cells) == comb_count(netlist.cells),
        register_count(moved_loads(netlist, duplicates, count).cells) == register_count(
            netlist.cells,
        ),
    decreases count,
{
    if count > 0 {
        lemma_moved_counts(netlist, duplicates, (count - 1) as nat);
        let last = duplicates[count - 1];
        lemma_renumbered_counts(
            moved_loads(netlist, duplicates, (count - 1) as nat).cells,
            last.output,
            last.canonical,
        );
    }
}

proof fn lemma_without_counts(cells: Seq<CellModel>, removed: Seq<usize>)
    ensures
        slice_count(without(cells, removed)) <= slice_count(cells),
        comb_count(without(cells, removed)) <= comb_count(cells),
        register_count(without(cells, removed)) <= register_count(cells),
    decreases cells.len(),
{
    if cells.len() > 0 {
        lemma_without_counts(cells.drop_last(), removed);
        let rest = without(cells.drop_last(), removed);
        assert(rest.push(cells.last()).drop_last() =~= rest);
    }
}

/// Sharing never costs a slice, a combinational primitive or a register.
pub proof fn law_merge_never_grows(netlist: NetlistModel)
    ensures
        slice_count(merged(netlist).cells) <= slice_count(netlist.cells),
        comb_count(merged(netlist).cells) <= comb_count(netlist.cells),
        register_count(merged(netlist).cells) <= register_count(netlist.cells),
    decreases netlist.cells.len(),
{
    lemma_merge_shrinks(netlist);
    if duplicates_of(netlist).len() > 0 {
        let duplicates = duplicates_of(netlist);
        lemma_moved_counts(netlist, duplicates, duplicates.len());
        lemma_without_counts(
            moved_loads(netlist, duplicates, duplicates.len()).cells,
            duplicate_indices(duplicates),
        );
        law_merge_never_grows(merged_once(netlist));
    }
}

} // verus!
