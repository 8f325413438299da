//! Copies of cells beside them, and sinks moved to the copies.

use vstd::prelude::*;

use crate::carry::carry_sinks;
use crate::carry::consumers;
use crate::carry::lemma_once;
use crate::carry::lemma_renumbered_outputs;
use crate::carry::lemma_split_cell;
use crate::carry::once_replicas;
use crate::carry::split_all;
use crate::carry::split_cell;
use crate::carry::split_consumer;
use crate::carry::split_consumers;
use crate::carry::split_from;
use crate::carry::split_once;
use crate::carry::wires_left;
use crate::carry::SplitModel;
use crate::cells::cell_inputs;
use crate::cells::cell_outputs;
use crate::cells::renumbered;
use crate::cells::renumbered_bits;
use crate::cells::renumbered_cell;
use crate::cells::Bit;
use crate::cells::CellModel;
use crate::grown::is_copy;
use crate::grown::is_grown;
use crate::grown::is_rewired;
use crate::grown::lemma_growth_keeps_shown;
use crate::grown::lemma_growth_keeps_wiring;
use crate::grown::mirrored;
use crate::grown::mirrored_bits;
use crate::grown::Growth;
use crate::netlist::next_free_wire;
use crate::netlist::NetlistModel;
use crate::renumbered::lemma_renumbered_inputs;
use crate::replicate::enable_signal;
use crate::replicate::with_enable;
use crate::shown::all_below;
use crate::shown::drives;
use crate::shown::is_driver;
use crate::shown::is_sourced;
use crate::shown::is_well_driven;
use crate::shown::keeps_shown;
use crate::shown::law_shown_alike;
use crate::shown::law_shown_is_kept;
use crate::shown::law_shown_is_kept_along;
use crate::shown::lemma_all_below;
use crate::shown::reads;
use crate::shown::touches;

verus! {

/// Whether `now` is wired up with wires below `next` and keeps what `original`
/// shows.
pub open spec fn stays_true(original: NetlistModel, now: NetlistModel, next: int) -> bool {
    &&& is_well_driven(now)
    &&& all_below(now, next)
    &&& keeps_shown(original, now)
    &&& now.ports == original.ports
}

/// A netlist that is wired up is true to itself.
pub proof fn lemma_starts_true(netlist: NetlistModel)
    requires
        is_well_driven(netlist),
    ensures
        next_free_wire(netlist) matches Some(next) ==> next > 0 && stays_true(
            netlist,
            netlist,
            next as int,
        ),
{
    lemma_all_below(netlist);
    law_shown_is_kept(netlist);
}

/// Wiring depends on cells and ports alone.
pub proof fn lemma_wiring_alike(a: NetlistModel, b: NetlistModel)
    requires
        is_well_driven(a),
        a.cells == b.cells,
        a.ports == b.ports,
    ensures
        is_well_driven(b),
{
    assert forall|i: int| 0 <= i < b.cells.len() implies is_driver(b, #[trigger] b.cells[i]) by {
        assert(is_driver(a, a.cells[i]));
    }
    assert forall|i: int, wire: u32|
        0 <= i < b.cells.len() && #[trigger] reads(b.cells[i], wire) implies is_sourced(b, wire) by {
        assert(is_sourced(a, wire));
    }
}

/// What stays true depends on cells and ports alone.
pub proof fn lemma_true_alike(
    original: NetlistModel,
    a: NetlistModel,
    b: NetlistModel,
    next: int,
)
    requires
        stays_true(original, a, next),
        a.cells == b.cells,
        a.ports == b.ports,
    ensures
        stays_true(original, b, next),
{
    lemma_wiring_alike(a, b);
    law_shown_alike(a, b);
    law_shown_is_kept_along(original, a, b);
}

/// Growing a copy stays true.
pub proof fn lemma_grows_true(
    original: NetlistModel,
    before: NetlistModel,
    after: NetlistModel,
    growth: Growth,
    next: int,
)
    requires
        stays_true(original, before, growth.next as int),
        is_grown(before, after, growth),
        next >= growth.next,
        forall|wire: u32| #[trigger]
            drives(after.cells[before.cells.len() as int], wire) ==> wire < next,
    ensures
        stays_true(original, after, next),
{
    lemma_growth_keeps_wiring(before, after, growth);
    lemma_growth_keeps_shown(before, after, growth);
    law_shown_is_kept_along(original, before, after);
    assert(all_below(after, next));
}

/// A cell whose wires are old stands rewired as it is.
pub proof fn lemma_unchanged(mirror: spec_fn(u32) -> u32, cell: CellModel, next: int)
    requires
        forall|wire: u32| #[trigger] touches(cell, wire) ==> wire < next,
        forall|wire: u32| wire < next ==> #[trigger] mirror(wire) == wire,
    ensures
        is_rewired(mirror, cell, cell),
{
    let bits = cell_inputs(cell);
    assert forall|k: int| 0 <= k < bits.len() implies mirrored(mirror, #[trigger] bits[k])
        == bits[k] by {
        if let Bit::Wire(wire) = bits[k] {
            assert(bits.contains(bits[k]));
            assert(touches(cell, wire));
        }
    }
    assert(mirrored_bits(mirror, bits) =~= bits);
}

/// A cell renumbered to a new wire is rewired.
pub proof fn lemma_renumbering(
    mirror: spec_fn(u32) -> u32,
    cell: CellModel,
    from: u32,
    to: u32,
    next: int,
)
    requires
        forall|wire: u32| #[trigger] touches(cell, wire) ==> wire < next,
        forall|wire: u32| wire < next ==> #[trigger] mirror(wire) == wire,
        mirror(to) == from,
        cell is Pll ==> !drives(cell, from),
    ensures
        is_rewired(mirror, cell, renumbered_cell(cell, from, to)),
{
    let bits = cell_inputs(cell);
    lemma_renumbered_inputs(cell, from, to);
    lemma_renumbered_outputs(cell, from, to);
    let after = renumbered_bits(bits, from, to);
    assert forall|k: int| 0 <= k < bits.len() implies mirrored(mirror, #[trigger] after[k])
        == bits[k] by {
        if let Bit::Wire(wire) = bits[k] {
            assert(bits.contains(bits[k]));
            assert(touches(cell, wire));
        }
    }
    assert(mirrored_bits(mirror, after) =~= bits);
}

/// A flip-flop whose enable moves to a new wire is rewired.
pub proof fn lemma_enabling(
    mirror: spec_fn(u32) -> u32,
    cell: CellModel,
    from: u32,
    to: u32,
    next: int,
)
    requires
        forall|wire: u32| #[trigger] touches(cell, wire) ==> wire < next,
        forall|wire: u32| wire < next ==> #[trigger] mirror(wire) == wire,
        mirror(to) == from,
        enable_signal(cell) == Some(Bit::Wire(from)),
    ensures
        is_rewired(mirror, cell, with_enable(cell, to)),
{
    let after = with_enable(cell, to);
    let bits = cell_inputs(cell);
    let others = cell_inputs(after);
    assert(others.len() == bits.len());
    assert forall|k: int| 0 <= k < bits.len() implies mirrored(mirror, #[trigger] others[k])
        == bits[k] by {
        if let Bit::Wire(wire) = bits[k] {
            assert(bits.contains(bits[k]));
            assert(touches(cell, wire));
        }
        if k == 2 {
            assert(bits[2] == Bit::Wire(from));
            assert(others[2] == Bit::Wire(to));
        } else {
            assert(others[k] == bits[k]);
        }
    }
    assert(mirrored_bits(mirror, others) =~= bits);
}

/// The wire behind each wire of a carry replica.
spec fn carry_mirror(source: CellModel, next: u32) -> spec_fn(u32) -> u32 {
    |wire: u32|
        if wire == next {
            source->Ccu2c_carry_out
        } else if wire == next + 1 {
            source->Ccu2c_sums[0]
        } else if wire == next + 2 {
            source->Ccu2c_sums[1]
        } else {
            wire
        }
}

#[verifier::rlimit(40)]
proof fn lemma_split_grows(
    original: NetlistModel,
    base: NetlistModel,
    split: SplitModel,
    index: int,
    consumer: int,
)
    requires
        stays_true(original, NetlistModel { cells: split.cells, ..base }, split.next as int),
        0 < split.next,
        split.next + 3 <= u32::MAX,
        0 <= index < split.cells.len(),
        0 <= consumer < split.cells.len(),
        index != consumer,
        split.cells[index] is Ccu2c,
        split.cells[consumer] is Ccu2c,
    ensures
        stays_true(
            original,
            NetlistModel { cells: split_consumer(split, index, consumer).cells, ..base },
            split_consumer(split, index, consumer).next as int,
        ),
{
    let before = NetlistModel { cells: split.cells, ..base };
    let after = NetlistModel { cells: split_consumer(split, index, consumer).cells, ..base };
    let source = split.cells[index];
    let mirror = carry_mirror(source, split.next);
    let growth = Growth { mirror, next: split.next, source: index };
    let count = split.cells.len() as int;
    let copy = after.cells[count];
    assert(after.cells[index] == source);
    let theirs = cell_outputs(source);
    let ours = cell_outputs(copy);
    assert(ours =~= seq![
        Bit::Wire((split.next + 1) as u32),
        Bit::Wire((split.next + 2) as u32),
        Bit::Wire(split.next),
    ]);
    assert(mirrored_bits(mirror, ours) =~= theirs);
    assert(ours[0] != ours[1] && ours[0] != ours[2] && ours[1] != ours[2]);
    assert forall|wire: u32| #[trigger] drives(copy, wire) implies split.next <= wire < split.next
        + 3 by {}
    assert forall|wire: u32| wire >= split.next implies drives(copy, wire) || #[trigger] mirror(
        wire,
    ) == wire by {
        assert(ours[0] == Bit::Wire((split.next + 1) as u32));
        assert(ours[1] == Bit::Wire((split.next + 2) as u32));
        assert(ours[2] == Bit::Wire(split.next));
    }
    assert(is_copy(source, after.cells[index], copy, growth));
    assert forall|i: int| 0 <= i < count implies is_rewired(
        mirror,
        #[trigger] before.cells[i],
        after.cells[i],
    ) by {
        let cell = before.cells[i];
        assert forall|wire: u32| #[trigger] touches(cell, wire) implies wire < split.next by {}
        if i == consumer {
            lemma_renumbering(
                mirror,
                cell,
                source->Ccu2c_carry_out,
                split.next,
                split.next as int,
            );
        } else {
            lemma_unchanged(mirror, cell, split.next as int);
        }
    }
    lemma_grows_true(original, before, after, growth, split.next + 3);
}

/// Whether the sinks are carry primitives other than that at `index`.
spec fn are_sinks(cells: Seq<CellModel>, index: int, sinks: Seq<int>) -> bool {
    &&& 0 <= index < cells.len()
    &&& cells[index] is Ccu2c
    &&& forall|k: int|
        0 <= k < sinks.len() ==> 0 <= (#[trigger] sinks[k]) < cells.len() && sinks[k] != index
            && cells[sinks[k]] is Ccu2c
}

proof fn lemma_consumers_true(
    original: NetlistModel,
    base: NetlistModel,
    split: SplitModel,
    index: int,
    sinks: Seq<int>,
    from: int,
)
    requires
        stays_true(original, NetlistModel { cells: split.cells, ..base }, split.next as int),
        0 < split.next,
        are_sinks(split.cells, index, sinks),
        0 <= from,
    ensures
        ({
            let after = split_consumers(split, index, sinks, from);
            stays_true(original, NetlistModel { cells: after.cells, ..base }, after.next as int)
                && 0 < after.next
        }),
    decreases sinks.len() - from,
{
    if from < sinks.len() && split.next + 3 <= u32::MAX {
        let next = split_consumer(split, index, sinks[from]);
        assert(are_sinks(next.cells, index, sinks)) by {
            assert forall|k: int| 0 <= k < sinks.len() implies 0 <= (#[trigger] sinks[k])
                < next.cells.len() && sinks[k] != index && next.cells[sinks[k]] is Ccu2c by {
                assert(split.cells[sinks[k]] is Ccu2c);
            }
        }
        lemma_split_grows(original, base, split, index, sinks[from]);
        lemma_consumers_true(original, base, next, index, sinks, from + 1);
    }
}

proof fn lemma_are_sinks(cells: Seq<CellModel>, index: int, wire: u32, count: int)
    requires
        0 <= index < cells.len(),
        cells[index] is Ccu2c,
        count <= cells.len(),
    ensures
        are_sinks(cells, index, consumers(cells, index, wire, count)),
    decreases count,
{
    if count > 0 {
        lemma_are_sinks(cells, index, wire, count - 1);
    }
}

proof fn lemma_from_true(
    original: NetlistModel,
    base: NetlistModel,
    split: SplitModel,
    index: int,
)
    requires
        stays_true(original, NetlistModel { cells: split.cells, ..base }, split.next as int),
        0 < split.next,
        0 <= index,
    ensures
        ({
            let after = split_from(split, index);
            stays_true(original, NetlistModel { cells: after.cells, ..base }, after.next as int)
        }),
    decreases u32::MAX - split.next, split.cells.len() - index,
{
    if index < split.cells.len() {
        let next = split_cell(split, index);
        lemma_split_cell(split, index);
        if split.cells[index] is Ccu2c {
            let wire = split.cells[index]->Ccu2c_carry_out;
            lemma_are_sinks(split.cells, index, wire, split.cells.len() as int);
            lemma_consumers_true(
                original,
                base,
                split,
                index,
                carry_sinks(split.cells, index),
                1,
            );
        }
        lemma_from_true(original, base, next, index + 1);
    }
}

/// Splitting carry branches keeps what is shown and leaves the netlist wired up.
pub proof fn law_split_keeps_shown(netlist: NetlistModel)
    requires
        is_well_driven(netlist),
    ensures
        keeps_shown(netlist, split_all(netlist).0),
        is_well_driven(split_all(netlist).0),
        split_all(netlist).0.ports == netlist.ports,
    decreases wires_left(netlist),
{
    law_shown_is_kept(netlist);
    if once_replicas(netlist) != 0 {
        lemma_once(netlist);
        let once = split_once(netlist);
        let next = next_free_wire(netlist)->0;
        let start = SplitModel { cells: netlist.cells, next, replicas: 0 };
        lemma_starts_true(netlist);
        lemma_true_alike(
            netlist,
            netlist,
            NetlistModel { cells: start.cells, ..netlist },
            next as int,
        );
        lemma_from_true(netlist, netlist, start, 0);
        let split = split_from(start, 0);
        lemma_true_alike(
            netlist,
            NetlistModel { cells: split.cells, ..netlist },
            once,
            split.next as int,
        );
        law_split_keeps_shown(once);
        law_shown_is_kept_along(netlist, once, split_all(netlist).0);
    }
}

} // verus!
