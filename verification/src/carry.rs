//! Carry chains: every carry output may feed one carry input only.


use vstd::prelude::*;

use crate::cells::{
    cell_outputs, clamped, renumbered_cell, replace_mapped_cell_wire_uses, Bit, CellModel,
    Ecp5Cell,
};
use crate::netlist::{
    cell_models, free_wire, lemma_maximum_wire, maximum_wire, next_free_wire, unique_cell_name,
    unique_name, Ecp5Netlist, MappedEquivalenceProof, NetlistModel,
};
use crate::text::{decimal, decimal_text, join};

verus! {

/// Whether `cell` is a carry primitive whose carry input is `wire`.
pub open spec fn takes_carry(cell: CellModel, wire: u32) -> bool {
    cell is Ccu2c && cell->Ccu2c_carry_in == Bit::Wire(wire)
}

/// How many carry inputs read `wire`.
pub open spec fn carry_loads(cells: Seq<CellModel>, wire: u32) -> nat
    decreases cells.len(),
{
    if cells.len() == 0 {
        0
    } else {
        carry_loads(cells.drop_last(), wire) + if takes_carry(cells.last(), wire) {
            1nat
        } else {
            0
        }
    }
}

/// Whether each carry output feeds at most one carry input.
pub open spec fn point_to_point(cells: Seq<CellModel>) -> bool {
    forall|i: int|
        0 <= i < cells.len() && (#[trigger] cells[i]) is Ccu2c ==> carry_loads(
            cells,
            cells[i]->Ccu2c_carry_out,
        ) <= 1
}

fn count_carry_loads(cells: &Vec<Ecp5Cell>, wire: u32) -> (count: usize)
    ensures
        count == carry_loads(cell_models(cells@), wire),
{
    let ghost models = cell_models(cells@);
    let mut count: usize = 0;
    for i in 0..cells.len()
        invariant
            models == cell_models(cells@),
            count == carry_loads(models.take(i as int), wire),
            count <= i,
    {
        assert(models.take(i + 1).drop_last() =~= models.take(i as int));
        if let Ecp5Cell::Ccu2c { carry_in, .. } = &cells[i] {
            if *carry_in == Bit::Wire(wire) {
                count = count + 1;
            }
        }
    }
    assert(models.take(models.len() as int) =~= models);
    count
}

/// Whether each carry output feeds at most one carry input.
pub fn carry_outs_are_point_to_point(netlist: &Ecp5Netlist) -> (holds: bool)
    ensures
        holds == point_to_point(netlist@.cells),
{
    let ghost models = netlist@.cells;
    for i in 0..netlist.cells.len()
        invariant
            models == cell_models(netlist.cells@),
            forall|j: int|
                0 <= j < i && (#[trigger] models[j]) is Ccu2c ==> carry_loads(
                    models,
                    models[j]->Ccu2c_carry_out,
                ) <= 1,
    {
        assert(models[i as int] == netlist.cells@[i as int]@);
        if let Ecp5Cell::Ccu2c { carry_out, .. } = &netlist.cells[i] {
            if count_carry_loads(&netlist.cells, *carry_out) > 1 {
                return false;
            }
        }
    }
    true
}

/// The positions below `count`, other than `index`, of carry primitives whose
/// carry input is `wire`.
pub open spec fn consumers(
    cells: Seq<CellModel>,
    index: int,
    wire: u32,
    count: int,
) -> Seq<int>
    decreases count,
{
    if count <= 0 {
        seq![]
    } else {
        let rest = consumers(cells, index, wire, count - 1);
        if count - 1 != index && takes_carry(cells[count - 1], wire) {
            rest.push(count - 1)
        } else {
            rest
        }
    }
}

/// Cells while branches are being split: the next free wire and the replicas
/// made so far.
#[verifier::ext_equal]
pub struct SplitModel {
    pub cells: Seq<CellModel>,
    pub next: u32,
    pub replicas: nat,
}

/// A copy of the carry primitive at `index` that drives new wires.
pub open spec fn carry_replica(split: SplitModel, index: int) -> CellModel {
    let source = split.cells[index];
    CellModel::Ccu2c {
        name: unique_name(
            source.cell_name() + "_carry"@ + decimal_text(split.replicas),
            split.cells,
            None,
        ),
        inputs: source->Ccu2c_inputs,
        carry_in: source->Ccu2c_carry_in,
        sums: [(split.next + 1) as u32, (split.next + 2) as u32],
        carry_out: split.next,
        init: source->Ccu2c_init,
        inject: source->Ccu2c_inject,
    }
}

/// `split` with the consumer at `consumer` fed by its own replica of the carry
/// primitive at `index`.
pub open spec fn split_consumer(split: SplitModel, index: int, consumer: int) -> SplitModel {
    let wire = split.cells[index]->Ccu2c_carry_out;
    let moved = SplitModel {
        cells: split.cells.update(
            consumer,
            renumbered_cell(split.cells[consumer], wire, split.next),
        ),
        ..split
    };
    SplitModel {
        cells: moved.cells.push(carry_replica(moved, index)),
        next: (split.next + 3) as u32,
        replicas: split.replicas + 1,
    }
}

/// `split` with the consumers from position `from` of `sinks` on fed by
/// replicas, while wire numbers last.
pub open spec fn split_consumers(
    split: SplitModel,
    index: int,
    sinks: Seq<int>,
    from: int,
) -> SplitModel
    decreases sinks.len() - from,
{
    if from < 0 || from >= sinks.len() || split.next + 3 > u32::MAX {
        split
    } else {
        split_consumers(split_consumer(split, index, sinks[from]), index, sinks, from + 1)
    }
}

/// Renumbering inputs leaves the outputs.
pub proof fn lemma_renumbered_outputs(cell: CellModel, from: u32, to: u32)
    ensures
        cell_outputs(renumbered_cell(cell, from, to)) == cell_outputs(cell),
        renumbered_cell(cell, from, to).cell_name() == cell.cell_name(),
        renumbered_cell(cell, from, to) is Ccu2c == cell is Ccu2c,
        cell is Ccu2c ==> renumbered_cell(cell, from, to)->Ccu2c_carry_out
            == cell->Ccu2c_carry_out,
{
}

/// Whether `after` has grown from `before`: it drives what `before` drives,
/// position by position, and each step took three wires.
pub open spec fn grown(before: SplitModel, after: SplitModel) -> bool {
    &&& before.next <= after.next
    &&& before.replicas <= after.replicas
    &&& before.cells.len() <= after.cells.len()
    &&& after.next == before.next ==> after == before
    &&& after.replicas == before.replicas ==> after == before
    &&& forall|i: int|
        0 <= i < before.cells.len() ==> cell_outputs(#[trigger] after.cells[i]) == cell_outputs(
            before.cells[i],
        )
    &&& after.replicas > before.replicas ==> exists|i: int|
        #![trigger after.cells[i]]
        0 <= i < after.cells.len() && cell_outputs(after.cells[i]).contains(
            Bit::Wire(before.next),
        )
}

proof fn lemma_grown_transitive(a: SplitModel, b: SplitModel, c: SplitModel)
    requires
        grown(a, b),
        grown(b, c),
    ensures
        grown(a, c),
{
    assert forall|i: int| 0 <= i < a.cells.len() implies cell_outputs(#[trigger] c.cells[i])
        == cell_outputs(a.cells[i]) by {
        assert(cell_outputs(b.cells[i]) == cell_outputs(a.cells[i]));
    }
    if c.replicas > a.replicas {
        if b.replicas > a.replicas {
            let i = choose|i: int|
                #![trigger b.cells[i]]
                0 <= i < b.cells.len() && cell_outputs(b.cells[i]).contains(Bit::Wire(a.next));
            assert(cell_outputs(c.cells[i]) == cell_outputs(b.cells[i]));
        }
    }
}

proof fn lemma_split_consumer(split: SplitModel, index: int, consumer: int)
    requires
        0 <= consumer < split.cells.len(),
        split.next + 3 <= u32::MAX,
    ensures
        grown(split, split_consumer(split, index, consumer)),
{
    let after = split_consumer(split, index, consumer);
    let wire = split.cells[index]->Ccu2c_carry_out;
    lemma_renumbered_outputs(split.cells[consumer], wire, split.next);
    let last = after.cells.len() - 1;
    assert(cell_outputs(after.cells[last])[2] == Bit::Wire(split.next));
    assert(cell_outputs(after.cells[last]).contains(Bit::Wire(split.next)));
}

proof fn lemma_split_consumers(split: SplitModel, index: int, sinks: Seq<int>, from: int)
    requires
        forall|k: int| 0 <= k < sinks.len() ==> 0 <= (#[trigger] sinks[k]) < split.cells.len(),
    ensures
        grown(split, split_consumers(split, index, sinks, from)),
    decreases sinks.len() - from,
{
    if !(from < 0 || from >= sinks.len() || split.next + 3 > u32::MAX) {
        let next = split_consumer(split, index, sinks[from]);
        lemma_split_consumer(split, index, sinks[from]);
        lemma_split_consumers(next, index, sinks, from + 1);
        lemma_grown_transitive(split, next, split_consumers(split, index, sinks, from));
    }
}

proof fn lemma_consumers(cells: Seq<CellModel>, index: int, wire: u32, count: int)
    requires
        count <= cells.len(),
    ensures
        forall|k: int|
            0 <= k < consumers(cells, index, wire, count).len() ==> 0 <= (#[trigger] consumers(
                cells,
                index,
                wire,
                count,
            )[k]) < count && consumers(cells, index, wire, count)[k] != index,
    decreases count,
{
    if count > 0 {
        lemma_consumers(cells, index, wire, count - 1);
        let rest = consumers(cells, index, wire, count - 1);
        let all = consumers(cells, index, wire, count);
        assert forall|k: int| 0 <= k < all.len() implies 0 <= (#[trigger] all[k]) < count && all[k]
            != index by {
            if k < rest.len() {
                assert(0 <= rest[k] < count - 1 && rest[k] != index);
            }
        }
    }
}

/// The consumers of the carry output of the carry primitive at `index`.
pub open spec fn carry_sinks(cells: Seq<CellModel>, index: int) -> Seq<int> {
    consumers(cells, index, cells[index]->Ccu2c_carry_out, cells.len() as int)
}

/// `split` with all consumers but the first of the carry primitive at `index`
/// fed by replicas.
pub open spec fn split_cell(split: SplitModel, index: int) -> SplitModel {
    if split.cells[index] is Ccu2c {
        split_consumers(split, index, carry_sinks(split.cells, index), 1)
    } else {
        split
    }
}

/// `split` with the branches of all cells from `index` on split, replicas
/// included.
pub open spec fn split_from(split: SplitModel, index: int) -> SplitModel
    decreases u32::MAX - split.next, split.cells.len() - index,
    via split_from_terminates
{
    if index < 0 || index >= split.cells.len() {
        split
    } else {
        split_from(split_cell(split, index), index + 1)
    }
}

#[via_fn]
proof fn split_from_terminates(split: SplitModel, index: int) {
    if 0 <= index < split.cells.len() {
        lemma_split_cell(split, index);
    }
}

/// Splitting one cell only grows the netlist.
pub proof fn lemma_split_cell(split: SplitModel, index: int)
    requires
        0 <= index < split.cells.len(),
    ensures
        grown(split, split_cell(split, index)),
{
    if split.cells[index] is Ccu2c {
        let wire = split.cells[index]->Ccu2c_carry_out;
        lemma_consumers(split.cells, index, wire, split.cells.len() as int);
        lemma_split_consumers(split, index, carry_sinks(split.cells, index), 1);
    }
}

proof fn lemma_split_from(split: SplitModel, index: int)
    requires
        0 <= index,
    ensures
        grown(split, split_from(split, index)),
    decreases u32::MAX - split.next, split.cells.len() - index,
{
    if index < split.cells.len() {
        let next = split_cell(split, index);
        lemma_split_cell(split, index);
        lemma_split_from(next, index + 1);
        lemma_grown_transitive(split, next, split_from(split, index));
    }
}

/// One pass over the cells. A netlist that already uses the last wire number
/// is left alone.
pub open spec fn split_once(netlist: NetlistModel) -> NetlistModel {
    match next_free_wire(netlist) {
        Some(next) => {
            let split = split_from(SplitModel { cells: netlist.cells, next, replicas: 0 }, 0);
            NetlistModel {
                cells: split.cells,
                proof: MappedEquivalenceProof {
                    equivalent_logic_replications: clamped(
                        netlist.proof.equivalent_logic_replications as nat + split.replicas,
                    ),
                    ..netlist.proof
                },
                ..netlist
            }
        },
        None => netlist,
    }
}

/// How many replicas one pass makes.
pub open spec fn once_replicas(netlist: NetlistModel) -> nat {
    match next_free_wire(netlist) {
        Some(next) => split_from(
            SplitModel { cells: netlist.cells, next, replicas: 0 },
            0,
        ).replicas,
        None => 0,
    }
}

/// How many wire numbers are left above those in use.
pub open spec fn wires_left(netlist: NetlistModel) -> int {
    match maximum_wire(netlist) {
        Some(wire) => u32::MAX - wire,
        None => u32::MAX + 1,
    }
}

/// A pass without replicas changes nothing, and one with replicas uses up wires.
pub proof fn lemma_once(netlist: NetlistModel)
    ensures
        once_replicas(netlist) == 0 ==> split_once(netlist) == netlist,
        once_replicas(netlist) > 0 ==> wires_left(split_once(netlist)) < wires_left(netlist),
{
    if let Some(next) = next_free_wire(netlist) {
        let start = SplitModel { cells: netlist.cells, next, replicas: 0 };
        lemma_split_from(start, 0);
        let split = split_from(start, 0);
        if once_replicas(netlist) == 0 {
            assert(split_once(netlist) =~= netlist);
        } else {
            let i = choose|i: int|
                #![trigger split.cells[i]]
                0 <= i < split.cells.len() && cell_outputs(split.cells[i]).contains(
                    Bit::Wire(next),
                );
            lemma_maximum_wire(split_once(netlist), i, next);
        }
    }
}

/// The netlist and the number of replicas once passes have been made until one
/// makes no replica: repairing a branch moves it one slice upstream.
pub open spec fn split_all(netlist: NetlistModel) -> (NetlistModel, nat)
    decreases wires_left(netlist),
    via split_all_terminates
{
    if once_replicas(netlist) == 0 {
        (netlist, 0)
    } else {
        let rest = split_all(split_once(netlist));
        (rest.0, once_replicas(netlist) + rest.1)
    }
}

#[via_fn]
proof fn split_all_terminates(netlist: NetlistModel) {
    lemma_once(netlist);
}

fn find_consumers(cells: &Vec<Ecp5Cell>, index: usize, wire: u32) -> (found: Vec<usize>)
    ensures
        found@.len() == consumers(
            cell_models(cells@),
            index as int,
            wire,
            cells@.len() as int,
        ).len(),
        forall|k: int|
            0 <= k < found@.len() ==> (#[trigger] found@[k]) == consumers(
                cell_models(cells@),
                index as int,
                wire,
                cells@.len() as int,
            )[k],
{
    let ghost models = cell_models(cells@);
    let mut found: Vec<usize> = Vec::new();
    for i in 0..cells.len()
        invariant
            models == cell_models(cells@),
            found@.len() == consumers(models, index as int, wire, i as int).len(),
            forall|k: int|
                0 <= k < found@.len() ==> (#[trigger] found@[k]) == consumers(
                    models,
                    index as int,
                    wire,
                    i as int,
                )[k],
    {
        assert(models[i as int] == cells@[i as int]@);
        if let Ecp5Cell::Ccu2c { carry_in, .. } = &cells[i] {
            if i != index && *carry_in == Bit::Wire(wire) {
                found.push(i);
            }
        }
    }
    found
}

/// The replica count so far and the next free wire.
struct SplitProgress {
    next: u32,
    replicas: usize,
}

fn feed_from_replica(
    cells: &mut Vec<Ecp5Cell>,
    progress: &mut SplitProgress,
    index: usize,
    consumer: usize,
)
    requires
        index < old(cells)@.len(),
        consumer < old(cells)@.len(),
        index != consumer,
        old(cells)@[index as int]@ is Ccu2c,
        old(progress).next + 3 <= u32::MAX,
        old(progress).replicas < old(cells)@.len(),
    ensures
        ({
            let after = split_consumer(
                SplitModel {
                    cells: cell_models(old(cells)@),
                    next: old(progress).next,
                    replicas: old(progress).replicas as nat,
                },
                index as int,
                consumer as int,
            );
            &&& cell_models(final(cells)@) == after.cells
            &&& final(progress).next == after.next
            &&& final(progress).replicas == after.replicas
        }),
{
    let ghost before = SplitModel {
        cells: cell_models(cells@),
        next: progress.next,
        replicas: progress.replicas as nat,
    };
    assert(before.cells[index as int] == cells@[index as int]@);
    if let Ecp5Cell::Ccu2c { name, inputs, carry_in, carry_out, init, inject, .. } = &cells[index] {
        let mut base = join(name.as_str(), "_carry");
        base.append(decimal(progress.replicas as u128).as_str());
        let (inputs, carry_in, carry_out, init, inject) = (
            *inputs,
            *carry_in,
            *carry_out,
            *init,
            *inject,
        );
        replace_mapped_cell_wire_uses(&mut cells[consumer], carry_out, progress.next);
        let ghost moved = SplitModel {
            cells: before.cells.update(
                consumer as int,
                renumbered_cell(before.cells[consumer as int], carry_out, progress.next),
            ),
            ..before
        };
        assert(cell_models(cells@) =~= moved.cells);
        let replica = Ecp5Cell::Ccu2c {
            name: unique_cell_name(base.as_str(), cells, None),
            inputs,
            carry_in,
            sums: [progress.next + 1, progress.next + 2],
            carry_out: progress.next,
            init,
            inject,
        };
        let ghost replica_model = replica@;
        assert(replica_model->Ccu2c_sums =~= carry_replica(moved, index as int)->Ccu2c_sums);
        assert(replica_model == carry_replica(moved, index as int));
        cells.push(replica);
        assert(cell_models(cells@) =~= moved.cells.push(replica_model));
        let size: usize = cells.len();
        progress.next = progress.next + 3;
        progress.replicas = progress.replicas + 1;
    }
}

fn feed_from_replicas(cells: &mut Vec<Ecp5Cell>, progress: &mut SplitProgress, index: usize)
    requires
        index < old(cells)@.len(),
        old(progress).replicas < old(cells)@.len(),
    ensures
        ({
            let after = split_cell(
                SplitModel {
                    cells: cell_models(old(cells)@),
                    next: old(progress).next,
                    replicas: old(progress).replicas as nat,
                },
                index as int,
            );
            &&& cell_models(final(cells)@) == after.cells
            &&& final(progress).next == after.next
            &&& final(progress).replicas == after.replicas
            &&& final(progress).replicas < final(cells)@.len()
        }),
{
    let ghost start = SplitModel {
        cells: cell_models(cells@),
        next: progress.next,
        replicas: progress.replicas as nat,
    };
    assert(start.cells[index as int] == cells@[index as int]@);
    let wire: u32 = match &cells[index] {
        Ecp5Cell::Ccu2c { carry_out, .. } => *carry_out,
        _ => return,
    };
    let sinks = find_consumers(cells, index, wire);
    let ghost model = carry_sinks(start.cells, index as int);
    proof {
        lemma_consumers(start.cells, index as int, wire, start.cells.len() as int);
    }
    let mut k: usize = 1;
    while k < sinks.len() && progress.next <= u32::MAX - 3
        invariant
            index < cells@.len(),
            start.cells.len() <= cells@.len(),
            cells@[index as int]@ is Ccu2c,
            progress.replicas < cells@.len(),
            k >= 1,
            sinks@.len() == model.len(),
            forall|j: int| 0 <= j < sinks@.len() ==> (#[trigger] sinks@[j]) == model[j],
            forall|j: int|
                0 <= j < model.len() ==> 0 <= (#[trigger] model[j]) < start.cells.len() && model[j]
                    != index,
            split_cell(start, index as int) == split_consumers(
                SplitModel {
                    cells: cell_models(cells@),
                    next: progress.next,
                    replicas: progress.replicas as nat,
                },
                index as int,
                model,
                k as int,
            ),
        decreases sinks.len() - k,
    {
        let ghost before = SplitModel {
            cells: cell_models(cells@),
            next: progress.next,
            replicas: progress.replicas as nat,
        };
        assert(sinks@[k as int] == model[k as int]);
        feed_from_replica(cells, progress, index, sinks[k]);
        assert(cell_models(cells@).len() == cells@.len());
        assert(cell_models(cells@)[index as int] == before.cells[index as int]);
        k += 1;
    }
}

/// Makes one pass and tells how many replicas it made.
pub fn split_branched_carry_outs_once(netlist: &mut Ecp5Netlist) -> (replicas: usize)
    ensures
        final(netlist)@ == split_once(old(netlist)@),
        replicas == once_replicas(old(netlist)@),
        final(netlist).cells@.len() == old(netlist).cells@.len() + replicas,
{
    let next: u32 = match free_wire(netlist) {
        Some(next) => next,
        None => return 0,
    };
    let ghost before = netlist@;
    let ghost start = SplitModel { cells: before.cells, next, replicas: 0 };
    let mut progress = SplitProgress { next, replicas: 0 };
    let mut index: usize = 0;
    while index < netlist.cells.len()
        invariant
            index <= netlist.cells@.len(),
            netlist@ == (NetlistModel { cells: cell_models(netlist.cells@), ..before }),
            netlist.cells@.len() == before.cells.len() + progress.replicas,
            before.cells.len() == 0 ==> progress.replicas == 0,
            split_from(start, 0) == split_from(
                SplitModel {
                    cells: cell_models(netlist.cells@),
                    next: progress.next,
                    replicas: progress.replicas as nat,
                },
                index as int,
            ),
        decreases u32::MAX - progress.next, netlist.cells@.len() - index,
    {
        let ghost now = SplitModel {
            cells: cell_models(netlist.cells@),
            next: progress.next,
            replicas: progress.replicas as nat,
        };
        proof {
            lemma_split_cell(now, index as int);
            lemma_split_cell_size(now, index as int);
        }
        feed_from_replicas(&mut netlist.cells, &mut progress, index);
        index += 1;
    }
    netlist.equivalence_proof.equivalent_logic_replications =
    netlist.equivalence_proof.equivalent_logic_replications.saturating_add(progress.replicas);
    assert(netlist@ =~= split_once(before));
    progress.replicas
}

proof fn lemma_split_consumers_size(split: SplitModel, index: int, sinks: Seq<int>, from: int)
    requires
        forall|k: int| 0 <= k < sinks.len() ==> 0 <= (#[trigger] sinks[k]) < split.cells.len(),
    ensures
        split_consumers(split, index, sinks, from).cells.len() - split.cells.len()
            == split_consumers(split, index, sinks, from).replicas - split.replicas,
    decreases sinks.len() - from,
{
    if !(from < 0 || from >= sinks.len() || split.next + 3 > u32::MAX) {
        lemma_split_consumers_size(
            split_consumer(split, index, sinks[from]),
            index,
            sinks,
            from + 1,
        );
    }
}

proof fn lemma_split_cell_size(split: SplitModel, index: int)
    requires
        0 <= index < split.cells.len(),
    ensures
        split_cell(split, index).cells.len() - split.cells.len() == split_cell(
            split,
            index,
        ).replicas - split.replicas,
{
    if split.cells[index] is Ccu2c {
        let wire = split.cells[index]->Ccu2c_carry_out;
        lemma_consumers(split.cells, index, wire, split.cells.len() as int);
        lemma_split_consumers_size(split, index, carry_sinks(split.cells, index), 1);
    }
}

/// Replicates carry primitives until no carry output branches, and tells how
/// many replicas were made.
pub fn split_branched_carry_outs(netlist: &mut Ecp5Netlist) -> (replicas: usize)
    ensures
        final(netlist)@ == split_all(old(netlist)@).0,
        replicas == split_all(old(netlist)@).1,
{
    let ghost size = netlist.cells@.len();
    let mut total: usize = 0;
    loop
        invariant
            netlist.cells@.len() == size + total,
            split_all(old(netlist)@).0 == split_all(netlist@).0,
            split_all(old(netlist)@).1 == total + split_all(netlist@).1,
        decreases wires_left(netlist@),
    {
        proof {
            lemma_once(netlist@);
        }
        let replicas: usize = split_branched_carry_outs_once(netlist);
        if replicas == 0 {
            return total;
        }
        let now: usize = netlist.cells.len();
        total = total + replicas;
    }
}

/// Whether some carry primitive feeds its own carry input.
pub open spec fn feeds_itself(cells: Seq<CellModel>) -> bool {
    exists|i: int|
        0 <= i < cells.len() && (#[trigger] cells[i]) is Ccu2c && takes_carry(
            cells[i],
            cells[i]->Ccu2c_carry_out,
        )
}

proof fn lemma_sinks_count(cells: Seq<CellModel>, index: int, wire: u32, count: int)
    requires
        0 <= count <= cells.len(),
        0 <= index < cells.len(),
        !takes_carry(cells[index], wire),
    ensures
        consumers(cells, index, wire, count).len() == carry_loads(cells.take(count), wire),
    decreases count,
{
    if count > 0 {
        lemma_sinks_count(cells, index, wire, count - 1);
        assert(cells.take(count).drop_last() =~= cells.take(count - 1));
    } else {
        assert(cells.take(0) =~= seq![]);
    }
}

proof fn lemma_nothing_left(split: SplitModel, index: int)
    requires
        0 <= index,
        split_from(split, index).replicas == split.replicas,
        split.next + 3 <= u32::MAX,
    ensures
        forall|i: int|
            index <= i < split.cells.len() && (#[trigger] split.cells[i]) is Ccu2c ==> carry_sinks(
                split.cells,
                i,
            ).len() <= 1,
    decreases split.cells.len() - index,
{
    if index < split.cells.len() {
        let next = split_cell(split, index);
        lemma_split_cell(split, index);
        lemma_split_from(next, index + 1);
        assert(next == split);
        lemma_nothing_left(split, index + 1);
        if split.cells[index] is Ccu2c && carry_sinks(split.cells, index).len() > 1 {
            let sinks = carry_sinks(split.cells, index);
            let wire = split.cells[index]->Ccu2c_carry_out;
            lemma_consumers(split.cells, index, wire, split.cells.len() as int);
            let one = split_consumer(split, index, sinks[1]);
            lemma_split_consumer(split, index, sinks[1]);
            lemma_split_consumers(one, index, sinks, 2);
            assert(false);
        }
    }
}

proof fn lemma_settled(netlist: NetlistModel)
    requires
        once_replicas(netlist) == 0,
        wires_left(netlist) >= 4,
        !feeds_itself(netlist.cells),
    ensures
        point_to_point(netlist.cells),
{
    let cells = netlist.cells;
    let next = next_free_wire(netlist)->0;
    lemma_nothing_left(SplitModel { cells, next, replicas: 0 }, 0);
    assert forall|i: int| 0 <= i < cells.len() && (#[trigger] cells[i]) is Ccu2c implies carry_loads(
        cells,
        cells[i]->Ccu2c_carry_out,
    ) <= 1 by {
        lemma_sinks_count(cells, i, cells[i]->Ccu2c_carry_out, cells.len() as int);
        assert(cells.take(cells.len() as int) =~= cells);
        assert(carry_sinks(cells, i).len() <= 1);
    }
}

proof fn lemma_split_all_settles(netlist: NetlistModel)
    ensures
        once_replicas(split_all(netlist).0) == 0,
    decreases wires_left(netlist),
{
    lemma_once(netlist);
    if once_replicas(netlist) != 0 {
        lemma_split_all_settles(split_once(netlist));
    }
}

/// Once branches have been split, every carry output feeds at most one carry
/// input, unless wire numbers ran out or a carry primitive feeds itself.
pub proof fn law_split_is_point_to_point(netlist: NetlistModel)
    requires
        wires_left(split_all(netlist).0) >= 4,
        !feeds_itself(split_all(netlist).0.cells),
    ensures
        point_to_point(split_all(netlist).0.cells),
{
    lemma_split_all_settles(netlist);
    lemma_settled(split_all(netlist).0);
}

/// Splitting what has been split makes no further replica.
pub proof fn law_split_is_idempotent(netlist: NetlistModel)
    ensures
        split_all(split_all(netlist).0) == (split_all(netlist).0, 0nat),
{
    lemma_split_all_settles(netlist);
}

/// Whether `after` keeps every cell of `before` but carry primitives in place,
/// and adds carry primitives alone.
pub open spec fn keeps_others(before: Seq<CellModel>, after: Seq<CellModel>) -> bool {
    &&& before.len() <= after.len()
    &&& forall|i: int|
        0 <= i < before.len() ==> ((#[trigger] after[i]) == before[i] || (after[i] is Ccu2c
            && before[i] is Ccu2c))
    &&& forall|i: int| before.len() <= i < after.len() ==> (#[trigger] after[i]) is Ccu2c
}

proof fn lemma_keeps_transitive(a: Seq<CellModel>, b: Seq<CellModel>, c: Seq<CellModel>)
    requires
        keeps_others(a, b),
        keeps_others(b, c),
    ensures
        keeps_others(a, c),
{
    assert forall|i: int| 0 <= i < a.len() implies ((#[trigger] c[i]) == a[i] || (c[i] is Ccu2c
        && a[i] is Ccu2c)) by {
        assert(b[i] == a[i] || (b[i] is Ccu2c && a[i] is Ccu2c));
    }
    assert forall|i: int| a.len() <= i < c.len() implies (#[trigger] c[i]) is Ccu2c by {
        if i < b.len() {
            assert(b[i] is Ccu2c);
        }
    }
}

proof fn lemma_consumers_carry(cells: Seq<CellModel>, index: int, wire: u32, count: int)
    requires
        count <= cells.len(),
    ensures
        forall|k: int|
            0 <= k < consumers(cells, index, wire, count).len() ==> 0 <= (#[trigger] consumers(
                cells,
                index,
                wire,
                count,
            )[k]) < count && cells[consumers(cells, index, wire, count)[k]] is Ccu2c,
    decreases count,
{
    if count > 0 {
        lemma_consumers_carry(cells, index, wire, count - 1);
    }
}

proof fn lemma_consumers_keep(split: SplitModel, index: int, sinks: Seq<int>, from: int)
    requires
        forall|k: int|
            0 <= k < sinks.len() ==> 0 <= (#[trigger] sinks[k]) < split.cells.len()
                && split.cells[sinks[k]] is Ccu2c,
        0 <= from,
    ensures
        keeps_others(split.cells, split_consumers(split, index, sinks, from).cells),
    decreases sinks.len() - from,
{
    if from < sinks.len() && split.next + 3 <= u32::MAX {
        let next = split_consumer(split, index, sinks[from]);
        lemma_renumbered_outputs(
            split.cells[sinks[from]],
            split.cells[index]->Ccu2c_carry_out,
            split.next,
        );
        assert(keeps_others(split.cells, next.cells));
        assert forall|k: int| 0 <= k < sinks.len() implies 0 <= (#[trigger] sinks[k])
            < next.cells.len() && next.cells[sinks[k]] is Ccu2c by {
            assert(split.cells[sinks[k]] is Ccu2c);
        }
        lemma_consumers_keep(next, index, sinks, from + 1);
        lemma_keeps_transitive(
            split.cells,
            next.cells,
            split_consumers(next, index, sinks, from + 1).cells,
        );
    }
}

proof fn lemma_from_keeps(split: SplitModel, index: int)
    requires
        0 <= index,
    ensures
        keeps_others(split.cells, split_from(split, index).cells),
    decreases u32::MAX - split.next, split.cells.len() - index,
{
    if index < split.cells.len() {
        let next = split_cell(split, index);
        lemma_split_cell(split, index);
        if split.cells[index] is Ccu2c {
            lemma_consumers_carry(
                split.cells,
                index,
                split.cells[index]->Ccu2c_carry_out,
                split.cells.len() as int,
            );
            lemma_consumers_keep(split, index, carry_sinks(split.cells, index), 1);
        }
        lemma_from_keeps(next, index + 1);
        lemma_keeps_transitive(split.cells, next.cells, split_from(next, index + 1).cells);
    }
}

/// Splitting carry branches touches carry primitives alone: every other cell
/// stays in place, and so do the ports.
pub proof fn law_split_keeps_other_cells(netlist: NetlistModel)
    ensures
        keeps_others(netlist.cells, split_all(netlist).0.cells),
        split_all(netlist).0.ports == netlist.ports,
    decreases wires_left(netlist),
{
    if once_replicas(netlist) != 0 {
        lemma_once(netlist);
        let once = split_once(netlist);
        if let Some(next) = next_free_wire(netlist) {
            lemma_from_keeps(SplitModel { cells: netlist.cells, next, replicas: 0 }, 0);
        }
        law_split_keeps_other_cells(once);
        lemma_keeps_transitive(netlist.cells, once.cells, split_all(once).0.cells);
    }
}

} // verus!
