//! Sharing equal registers keeps what is shown.

use vstd::prelude::*;

use crate::carry::lemma_renumbered_outputs;
use crate::cells::cell_inputs;
use crate::cells::cell_outputs;
use crate::cells::renumbered;
use crate::cells::renumbered_bits;
use crate::cells::renumbered_cell;
use crate::cells::Bit;
use crate::cells::CellModel;
use crate::cells::PortDirection;
use crate::grown::lemma_directed_from;
use crate::grown::lemma_is_run;
use crate::meaning::bit_value;
use crate::meaning::cell_agrees;
use crate::meaning::cells_agree;
use crate::merge::duplicate_indices;
use crate::merge::duplicates_of;
use crate::merge::generated_register;
use crate::merge::lemma_moved_len;
use crate::merge::lemma_sharer;
use crate::merge::merged_once;
use crate::merge::moved_loads;
use crate::merge::scan_cells;
use crate::merge::sharer;
use crate::merge::Duplicate;
use crate::merge::SharedRegister;
use crate::moved_forward::lemma_origin;
use crate::moved_forward::lemma_origins_apart;
use crate::moved_forward::lemma_without_at;
use crate::moved_forward::origin;
use crate::moves::cell_steps;
use crate::moves::cells_step;
use crate::netlist::fanout_map;
use crate::netlist::port_inputs;
use crate::netlist::NetlistModel;
use crate::registered::without;
use crate::renumbered::lemma_renumbered_inputs;
use crate::shown::cell_starts;
use crate::shown::drivers_apart;
use crate::shown::drives;
use crate::shown::drives_apart;
use crate::shown::is_box;
use crate::shown::is_driver;
use crate::shown::is_run;
use crate::shown::is_sourced;
use crate::shown::is_well_driven;
use crate::shown::keeps_shown;
use crate::shown::lemma_cells_counted;
use crate::shown::lemma_make;
use crate::shown::lemma_ports_contain;
use crate::shown::port_has;
use crate::shown::reads;
use crate::shown::same_bits;
use crate::shown::same_box;
use crate::shown::same_boxes;
use crate::shown::same_ports;
use crate::shown::shows_no_less;
use crate::shown::shows_no_more;
use crate::shown::shows_same;

verus! {

/// The values of a netlist whose loads of `from` were moved to `to`, seen before the
/// move.
spec fn unaliased(values: spec_fn(u32) -> bool, from: u32, to: u32) -> spec_fn(u32) -> bool {
    |wire: u32|
        if wire == from {
            values(to)
        } else {
            values(wire)
        }
}

proof fn lemma_unaliased_bits(values: spec_fn(u32) -> bool, bits: Seq<Bit>, from: u32, to: u32)
    ensures
        same_bits(unaliased(values, from, to), bits, values, renumbered_bits(bits, from, to)),
{
}

/// What holds of a renumbered cell held of the cell before.
proof fn lemma_unaliased_cell(
    now: spec_fn(u32) -> bool,
    next: spec_fn(u32) -> bool,
    cell: CellModel,
    from: u32,
    to: u32,
)
    requires
        !drives(cell, from),
    ensures
        cell_starts(now, renumbered_cell(cell, from, to)) == cell_starts(
            unaliased(now, from, to),
            cell,
        ),
        cell_agrees(now, renumbered_cell(cell, from, to)) == cell_agrees(
            unaliased(now, from, to),
            cell,
        ),
        cell_steps(now, next, renumbered_cell(cell, from, to)) == cell_steps(
            unaliased(now, from, to),
            unaliased(next, from, to),
            cell,
        ),
        is_box(cell) ==> same_box(
            unaliased(now, from, to),
            cell,
            now,
            renumbered_cell(cell, from, to),
        ),
{
    let after = renumbered_cell(cell, from, to);
    lemma_renumbered_inputs(cell, from, to);
    lemma_renumbered_outputs(cell, from, to);
    lemma_unaliased_bits(now, cell_inputs(cell), from, to);
    lemma_unaliased_outputs(now, cell, from, to);
    lemma_unaliased_outputs(next, cell, from, to);
    lemma_make(
        unaliased(now, from, to),
        now,
        unaliased(next, from, to),
        next,
        cell,
        after,
    );
}

proof fn lemma_unaliased_outputs(
    values: spec_fn(u32) -> bool,
    cell: CellModel,
    from: u32,
    to: u32,
)
    requires
        !drives(cell, from),
    ensures
        same_bits(unaliased(values, from, to), cell_outputs(cell), values, cell_outputs(cell)),
{
    let outputs = cell_outputs(cell);
    assert forall|k: int| 0 <= k < outputs.len() implies bit_value(
        unaliased(values, from, to),
        #[trigger] outputs[k],
    ) == bit_value(values, outputs[k]) by {
        assert(outputs.contains(outputs[k]));
    }
}

/// The values of a netlist with the loads of `count` duplicates moved, seen before
/// the moves.
spec fn seen(
    values: spec_fn(u32) -> bool,
    duplicates: Seq<Duplicate>,
    count: nat,
) -> spec_fn(u32) -> bool
    decreases count,
{
    if count == 0 {
        values
    } else {
        let last = duplicates[count - 1];
        seen(unaliased(values, last.output, last.canonical), duplicates, (count - 1) as nat)
    }
}

#[verifier::rlimit(40)]
proof fn lemma_seen_cell(
    now: spec_fn(u32) -> bool,
    next: spec_fn(u32) -> bool,
    netlist: NetlistModel,
    duplicates: Seq<Duplicate>,
    count: nat,
    i: int,
)
    requires
        0 <= i < netlist.cells.len(),
        count <= duplicates.len(),
        forall|d: int|
            0 <= d < count ==> !drives(netlist.cells[i], (#[trigger] duplicates[d]).output),
    ensures
        ({
            let cell = netlist.cells[i];
            let moved = moved_loads(netlist, duplicates, count);
            let after = moved.cells[i];
            &&& moved.cells.len() == netlist.cells.len()
            &&& cell_outputs(after) == cell_outputs(cell)
            &&& is_box(cell) == is_box(after)
            &&& after.cell_name() == cell.cell_name()
            &&& cell_starts(now, after) == cell_starts(seen(now, duplicates, count), cell)
            &&& cell_agrees(now, after) == cell_agrees(seen(now, duplicates, count), cell)
            &&& cell_steps(now, next, after) == cell_steps(
                seen(now, duplicates, count),
                seen(next, duplicates, count),
                cell,
            )
            &&& is_box(cell) ==> same_box(seen(now, duplicates, count), cell, now, after)
        }),
    decreases count,
{
    let cell = netlist.cells[i];
    if count == 0 {
    } else {
        let rest = (count - 1) as nat;
        let last = duplicates[count - 1];
        let middle = moved_loads(netlist, duplicates, rest).cells[i];
        let a = unaliased(now, last.output, last.canonical);
        let b = unaliased(next, last.output, last.canonical);
        lemma_seen_cell(a, b, netlist, duplicates, rest, i);
        let after = moved_loads(netlist, duplicates, count).cells[i];
        assert(after == renumbered_cell(middle, last.output, last.canonical));
        lemma_renumbered_outputs(middle, last.output, last.canonical);
        assert(!drives(middle, last.output));
        lemma_unaliased_cell(now, next, middle, last.output, last.canonical);
        if is_box(cell) {
            let x = seen(now, duplicates, count);
            crate::shown::lemma_same_bits_joined(
                x,
                cell_inputs(cell),
                a,
                cell_inputs(middle),
                now,
                cell_inputs(after),
            );
            crate::shown::lemma_same_bits_joined(
                x,
                cell_outputs(cell),
                a,
                cell_outputs(middle),
                now,
                cell_outputs(after),
            );
        }
    }
}

proof fn lemma_seen_ports(
    values: spec_fn(u32) -> bool,
    netlist: NetlistModel,
    duplicates: Seq<Duplicate>,
    count: nat,
)
    requires
        count <= duplicates.len(),
    ensures
        same_ports(
            seen(values, duplicates, count),
            netlist.ports,
            values,
            moved_loads(netlist, duplicates, count).ports,
        ),
    decreases count,
{
    if count > 0 {
        let rest = (count - 1) as nat;
        let last = duplicates[count - 1];
        let middle = moved_loads(netlist, duplicates, rest).ports;
        let after = moved_loads(netlist, duplicates, count).ports;
        let a = unaliased(values, last.output, last.canonical);
        lemma_seen_ports(a, netlist, duplicates, rest);
        assert forall|p: int| 0 <= p < middle.len() implies (#[trigger] middle[p]).name
            == after[p].name && middle[p].direction == after[p].direction && (
        middle[p].direction is Inout || same_bits(
            a,
            middle[p].bits,
            values,
            after[p].bits,
        )) by {
            lemma_unaliased_bits(values, middle[p].bits, last.output, last.canonical);
        }
        crate::shown::lemma_same_ports_joined(
            seen(values, duplicates, count),
            netlist.ports,
            a,
            middle,
            values,
            after,
        );
    }
}

/// A wire that no duplicate drives is seen as it is.
proof fn lemma_seen_other(
    values: spec_fn(u32) -> bool,
    duplicates: Seq<Duplicate>,
    count: nat,
    wire: u32,
)
    requires
        count <= duplicates.len(),
        forall|d: int| 0 <= d < count ==> (#[trigger] duplicates[d]).output != wire,
    ensures
        seen(values, duplicates, count)(wire) == values(wire),
    decreases count,
{
    if count > 0 {
        let last = duplicates[count - 1];
        assert(last.output != wire);
        lemma_seen_other(
            unaliased(values, last.output, last.canonical),
            duplicates,
            (count - 1) as nat,
            wire,
        );
    }
}

/// A duplicate is seen as the register that takes it over.
proof fn lemma_seen_duplicate(
    values: spec_fn(u32) -> bool,
    duplicates: Seq<Duplicate>,
    count: nat,
    d: int,
)
    requires
        0 <= d < count <= duplicates.len(),
        forall|e: int| 0 <= e < count ==> (#[trigger] duplicates[e]).output != duplicates[d].canonical,
        forall|e: int|
            0 <= e < count && e != d ==> (#[trigger] duplicates[e]).output != duplicates[d].output,
    ensures
        seen(values, duplicates, count)(duplicates[d].output) == values(duplicates[d].canonical),
    decreases count,
{
    let last = duplicates[count - 1];
    let a = unaliased(values, last.output, last.canonical);
    if d == count - 1 {
        lemma_seen_other(a, duplicates, (count - 1) as nat, duplicates[d].output);
    } else {
        assert(duplicates[count - 1].output != duplicates[d].canonical);
        lemma_seen_duplicate(a, duplicates, (count - 1) as nat, d);
    }
}

/// Whether the register at `i` has the given state and is no duplicate.
spec fn stands_for(
    cells: Seq<CellModel>,
    duplicates: Seq<Duplicate>,
    i: int,
    count: int,
    register: CellModel,
    output: u32,
) -> bool {
    &&& 0 <= i < count
    &&& cells[i] is FlipFlop
    &&& cells[i]->FlipFlop_output == output
    &&& cells[i]->FlipFlop_data == register->FlipFlop_data
    &&& cells[i]->FlipFlop_enable == register->FlipFlop_enable
    &&& cells[i]->FlipFlop_reset == register->FlipFlop_reset
    &&& forall|d: int| 0 <= d < duplicates.len() ==> (#[trigger] duplicates[d]).index != i
}

/// Whether each duplicate has a register that stands for it.
#[verifier::opaque]
spec fn duplicates_hold(cells: Seq<CellModel>, duplicates: Seq<Duplicate>, count: int) -> bool {
    forall|d: int|
        0 <= d < duplicates.len() ==> {
            let duplicate = #[trigger] duplicates[d];
            &&& duplicate.index < count
            &&& cells[duplicate.index as int] is FlipFlop
            &&& cells[duplicate.index as int]->FlipFlop_output == duplicate.output
            &&& exists|i: int| #[trigger]
                stands_for(
                    cells,
                    duplicates,
                    i,
                    count,
                    cells[duplicate.index as int],
                    duplicate.canonical,
                )
            &&& forall|e: int|
                0 <= e < d ==> (#[trigger] duplicates[e]).index != duplicate.index
        }
}

/// Whether each shared register stands at a place that is no duplicate's.
spec fn shared_hold(
    cells: Seq<CellModel>,
    shared: Seq<SharedRegister>,
    duplicates: Seq<Duplicate>,
    count: int,
) -> bool {
    forall|k: int|
        0 <= k < shared.len() ==> exists|i: int| #[trigger]
            stands_for(
                cells,
                duplicates,
                i,
                count,
                cells[i],
                (#[trigger] shared[k]).output,
            ) && cells[i]->FlipFlop_data == shared[k].data && cells[i]->FlipFlop_enable
                == shared[k].enable && cells[i]->FlipFlop_reset == shared[k].reset
}

/// What is known of one duplicate.
proof fn lemma_duplicate_at(
    cells: Seq<CellModel>,
    duplicates: Seq<Duplicate>,
    count: int,
    d: int,
) -> (i: int)
    requires
        duplicates_hold(cells, duplicates, count),
        0 <= d < duplicates.len(),
    ensures
        duplicates[d].index < count,
        cells[duplicates[d].index as int] is FlipFlop,
        cells[duplicates[d].index as int]->FlipFlop_output == duplicates[d].output,
        drives(cells[duplicates[d].index as int], duplicates[d].output),
        stands_for(
            cells,
            duplicates,
            i,
            count,
            cells[duplicates[d].index as int],
            duplicates[d].canonical,
        ),
        drives(cells[i], duplicates[d].canonical),
{
    reveal(duplicates_hold);
    let cell = cells[duplicates[d].index as int];
    let i = choose|i: int| #[trigger]
        stands_for(cells, duplicates, i, count, cell, duplicates[d].canonical);
    assert(cell_outputs(cell)[0] == Bit::Wire(duplicates[d].output));
    assert(cell_outputs(cells[i])[0] == Bit::Wire(duplicates[d].canonical));
    i
}

proof fn lemma_duplicates_apart(
    cells: Seq<CellModel>,
    duplicates: Seq<Duplicate>,
    count: int,
    d: int,
    e: int,
)
    requires
        duplicates_hold(cells, duplicates, count),
        0 <= d < e < duplicates.len(),
    ensures
        duplicates[d].index != duplicates[e].index,
{
    reveal(duplicates_hold);
    assert(duplicates[d].index != duplicates[e].index);
}

#[verifier::rlimit(40)]
proof fn lemma_scan_holds(cells: Seq<CellModel>, fanouts: Map<u32, usize>, count: nat)
    requires
        count <= cells.len() <= usize::MAX,
    ensures
        ({
            let scan = scan_cells(cells, fanouts, count);
            duplicates_hold(cells, scan.duplicates, count as int) && shared_hold(
                cells,
                scan.shared,
                scan.duplicates,
                count as int,
            )
        }),
    decreases count,
{
    if count == 0 {
        reveal(duplicates_hold);
    }
    if count > 0 {
        let last = (count - 1) as nat;
        let before = scan_cells(cells, fanouts, last);
        let after = scan_cells(cells, fanouts, count);
        lemma_scan_holds(cells, fanouts, last);
        if let Some(register) = generated_register(cells[last as int], fanouts) {
            lemma_sharer(before.shared, register, 0);
            if let Some(k) = sharer(before.shared, register, 0) {
                let source = choose|i: int| #[trigger]
                    stands_for(
                        cells,
                        before.duplicates,
                        i,
                        last as int,
                        cells[i],
                        before.shared[k].output,
                    ) && cells[i]->FlipFlop_data == before.shared[k].data
                        && cells[i]->FlipFlop_enable == before.shared[k].enable
                        && cells[i]->FlipFlop_reset == before.shared[k].reset;
                assert(after.duplicates.drop_last() =~= before.duplicates);
                assert(after.duplicates.last().canonical == before.shared[k].output);
                assert forall|d: int| 0 <= d < after.duplicates.len() implies (
                #[trigger] after.duplicates[d]).index != source by {
                    if d < before.duplicates.len() {
                        assert(after.duplicates[d] == before.duplicates[d]);
                    }
                }
                assert(stands_for(
                    cells,
                    after.duplicates,
                    source,
                    count as int,
                    cells[last as int],
                    before.shared[k].output,
                ));
                lemma_scan_duplicate(
                    cells,
                    before.duplicates,
                    after.duplicates,
                    last as int,
                    source,
                );
                lemma_scan_shared(
                    cells,
                    before.shared,
                    after.shared,
                    before.duplicates,
                    after.duplicates,
                    last as int,
                );
            } else {
                assert forall|d: int| 0 <= d < after.duplicates.len() implies (
                #[trigger] after.duplicates[d]).index != last by {
                    let other = lemma_duplicate_at(cells, before.duplicates, last as int, d);
                }
                assert(stands_for(
                    cells,
                    after.duplicates,
                    last as int,
                    count as int,
                    cells[last as int],
                    register.output,
                ));
                lemma_scan_same(cells, before.duplicates, last as int);
                lemma_scan_pushed(
                    cells,
                    before.shared,
                    register,
                    before.duplicates,
                    last as int,
                );
            }
        } else {
            lemma_scan_same(cells, before.duplicates, last as int);
            lemma_scan_shared(
                cells,
                before.shared,
                before.shared,
                before.duplicates,
                before.duplicates,
                last as int,
            );
        }
    }
}

proof fn lemma_scan_same(cells: Seq<CellModel>, duplicates: Seq<Duplicate>, last: int)
    requires
        duplicates_hold(cells, duplicates, last),
    ensures
        duplicates_hold(cells, duplicates, last + 1),
{
    reveal(duplicates_hold);
    assert forall|d: int| 0 <= d < duplicates.len() implies exists|i: int| #[trigger]
        stands_for(
            cells,
            duplicates,
            i,
            last + 1,
            cells[(#[trigger] duplicates[d]).index as int],
            duplicates[d].canonical,
        ) by {
        let i = choose|i: int| #[trigger]
            stands_for(
                cells,
                duplicates,
                i,
                last,
                cells[duplicates[d].index as int],
                duplicates[d].canonical,
            );
        assert(stands_for(
            cells,
            duplicates,
            i,
            last + 1,
            cells[duplicates[d].index as int],
            duplicates[d].canonical,
        ));
    }
}

proof fn lemma_scan_duplicate(
    cells: Seq<CellModel>,
    before: Seq<Duplicate>,
    after: Seq<Duplicate>,
    last: int,
    source: int,
)
    requires
        duplicates_hold(cells, before, last),
        0 <= last < cells.len() <= usize::MAX,
        after.len() == before.len() + 1,
        after.drop_last() == before,
        after.last().index == last,
        cells[last] is FlipFlop,
        cells[last]->FlipFlop_output == after.last().output,
        stands_for(cells, after, source, last + 1, cells[last], after.last().canonical),
    ensures
        duplicates_hold(cells, after, last + 1),
{
    reveal(duplicates_hold);
    assert forall|d: int| 0 <= d < after.len() implies {
        let duplicate = #[trigger] after[d];
        &&& duplicate.index < last + 1
        &&& cells[duplicate.index as int] is FlipFlop
        &&& cells[duplicate.index as int]->FlipFlop_output == duplicate.output
        &&& exists|i: int| #[trigger]
            stands_for(
                cells,
                after,
                i,
                last + 1,
                cells[duplicate.index as int],
                duplicate.canonical,
            )
        &&& forall|e: int| 0 <= e < d ==> (#[trigger] after[e]).index != duplicate.index
    } by {
        assert forall|e: int| 0 <= e < before.len() implies (#[trigger] after[e]) == before[e]
            && before[e].index < last by {
            assert(after[e] == after.drop_last()[e]);
        }
        if d < before.len() {
            assert(after[d] == before[d]);
            let i = choose|i: int| #[trigger]
                stands_for(
                    cells,
                    before,
                    i,
                    last,
                    cells[before[d].index as int],
                    before[d].canonical,
                );
            assert forall|e: int| 0 <= e < after.len() implies (#[trigger] after[e]).index != i by {
                if e < before.len() {
                    assert(before[e].index != i);
                }
            }
            assert(stands_for(
                cells,
                after,
                i,
                last + 1,
                cells[after[d].index as int],
                after[d].canonical,
            ));
        }
    }
}

proof fn lemma_scan_shared(
    cells: Seq<CellModel>,
    shared: Seq<SharedRegister>,
    updated: Seq<SharedRegister>,
    before: Seq<Duplicate>,
    after: Seq<Duplicate>,
    last: int,
)
    requires
        shared_hold(cells, shared, before, last),
        updated.len() == shared.len(),
        forall|k: int|
            0 <= k < shared.len() ==> (#[trigger] updated[k]).output == shared[k].output
                && updated[k].data == shared[k].data && updated[k].enable == shared[k].enable
                && updated[k].reset == shared[k].reset,
        after == before || (after.len() == before.len() + 1 && after.drop_last() == before
            && after.last().index == last),
    ensures
        shared_hold(cells, updated, after, last + 1),
{
    assert forall|k: int| 0 <= k < updated.len() implies exists|i: int| #[trigger]
        stands_for(cells, after, i, last + 1, cells[i], (#[trigger] updated[k]).output)
            && cells[i]->FlipFlop_data == updated[k].data && cells[i]->FlipFlop_enable
            == updated[k].enable && cells[i]->FlipFlop_reset == updated[k].reset by {
        let i = choose|i: int| #[trigger]
            stands_for(cells, before, i, last, cells[i], shared[k].output)
                && cells[i]->FlipFlop_data == shared[k].data && cells[i]->FlipFlop_enable
                == shared[k].enable && cells[i]->FlipFlop_reset == shared[k].reset;
        assert forall|e: int| 0 <= e < after.len() implies (#[trigger] after[e]).index != i by {
            if e < before.len() {
                assert(after != before ==> after[e] == after.drop_last()[e]);
                assert(before[e].index != i);
            }
        }
        assert(stands_for(cells, after, i, last + 1, cells[i], updated[k].output));
    }
}

proof fn lemma_scan_pushed(
    cells: Seq<CellModel>,
    shared: Seq<SharedRegister>,
    register: SharedRegister,
    duplicates: Seq<Duplicate>,
    last: int,
)
    requires
        shared_hold(cells, shared, duplicates, last),
        stands_for(cells, duplicates, last, last + 1, cells[last], register.output),
        cells[last]->FlipFlop_data == register.data,
        cells[last]->FlipFlop_enable == register.enable,
        cells[last]->FlipFlop_reset == register.reset,
    ensures
        shared_hold(cells, shared.push(register), duplicates, last + 1),
{
    lemma_scan_shared(cells, shared, shared, duplicates, duplicates, last);
    let pushed = shared.push(register);
    assert forall|k: int| 0 <= k < pushed.len() implies exists|i: int| #[trigger]
        stands_for(cells, duplicates, i, last + 1, cells[i], (#[trigger] pushed[k]).output)
            && cells[i]->FlipFlop_data == pushed[k].data && cells[i]->FlipFlop_enable
            == pushed[k].enable && cells[i]->FlipFlop_reset == pushed[k].reset by {
        if k < shared.len() {
            assert(pushed[k] == shared[k]);
        }
    }
}

/// Whether `after` holds the cells that stay, with the loads of the duplicates
/// moved.
spec fn is_merged(
    netlist: NetlistModel,
    duplicates: Seq<Duplicate>,
    after: Seq<CellModel>,
) -> bool {
    &&& drivers_apart(netlist.cells)
    &&& netlist.cells.len() <= usize::MAX
    &&& duplicates_hold(netlist.cells, duplicates, netlist.cells.len() as int)
    &&& after == without(
        moved_loads(netlist, duplicates, duplicates.len()).cells,
        duplicate_indices(duplicates),
    )
}

/// A cell that stays stands among the cells after the round.
proof fn lemma_merged_at(
    netlist: NetlistModel,
    duplicates: Seq<Duplicate>,
    after: Seq<CellModel>,
    i: int,
) -> (j: int)
    requires
        is_merged(netlist, duplicates, after),
        0 <= i < netlist.cells.len(),
        moved_loads(netlist, duplicates, duplicates.len()).cells.len() == netlist.cells.len(),
        forall|d: int| 0 <= d < duplicates.len() ==> (#[trigger] duplicates[d]).index != i,
    ensures
        0 <= j < after.len(),
        after[j] == moved_loads(netlist, duplicates, duplicates.len()).cells[i],
{
    let indices = duplicate_indices(duplicates);
    assert(!indices.contains(i as usize)) by {
        if indices.contains(i as usize) {
            let d = choose|d: int| 0 <= d < indices.len() && indices[d] == i as usize;
            assert(duplicates[d].index == i);
        }
    }
    lemma_without_at(moved_loads(netlist, duplicates, duplicates.len()).cells, indices, i)
}

/// Cells that stay hold of what is seen before registers were shared.
#[verifier::rlimit(40)]
proof fn lemma_unmerged_kept(
    netlist: NetlistModel,
    duplicates: Seq<Duplicate>,
    after: Seq<CellModel>,
    run: spec_fn(nat) -> spec_fn(u32) -> bool,
    i: int,
    t: nat,
)
    requires
        is_merged(netlist, duplicates, after),
        is_run(run, after),
        0 <= i < netlist.cells.len(),
        forall|d: int| 0 <= d < duplicates.len() ==> (#[trigger] duplicates[d]).index != i,
    ensures
        cell_starts(seen(run(0), duplicates, duplicates.len()), netlist.cells[i]),
        cell_agrees(seen(run(t), duplicates, duplicates.len()), netlist.cells[i]),
        cell_steps(
            seen(run(t), duplicates, duplicates.len()),
            seen(run(t + 1), duplicates, duplicates.len()),
            netlist.cells[i],
        ),
        is_box(netlist.cells[i]) ==> exists|j: int|
            0 <= j < after.len() && same_box(
                seen(run(t), duplicates, duplicates.len()),
                netlist.cells[i],
                run(t),
                #[trigger] after[j],
            ),
{
    let count = duplicates.len();
    assert forall|d: int| 0 <= d < count implies !drives(
        netlist.cells[i],
        (#[trigger] duplicates[d]).output,
    ) by {
        let source = lemma_duplicate_at(
            netlist.cells,
            duplicates,
            netlist.cells.len() as int,
            d,
        );
    }
    lemma_seen_cell(run(t), run(t + 1), netlist, duplicates, count, i);
    lemma_seen_cell(run(0), run(t), netlist, duplicates, count, i);
    let j = lemma_merged_at(netlist, duplicates, after, i);
    assert(cells_agree(run(t), after));
    assert(cells_step(run(t), run(t + 1), after));
    assert(cell_agrees(run(t), after[j]));
    assert(cell_steps(run(t), run(t + 1), after[j]));
    assert(cell_starts(run(0), after[j]));
}

/// A register that was taken over is seen as the one that takes it over.
proof fn lemma_unmerged_values(
    netlist: NetlistModel,
    duplicates: Seq<Duplicate>,
    after: Seq<CellModel>,
    values: spec_fn(u32) -> bool,
    d: int,
)
    requires
        is_merged(netlist, duplicates, after),
        0 <= d < duplicates.len(),
    ensures
        seen(values, duplicates, duplicates.len())(duplicates[d].output) == seen(
            values,
            duplicates,
            duplicates.len(),
        )(duplicates[d].canonical),
{
    let count = duplicates.len();
    let cells = netlist.cells;
    let i = lemma_duplicate_at(cells, duplicates, cells.len() as int, d);
    assert forall|e: int| 0 <= e < count implies (#[trigger] duplicates[e]).output
        != duplicates[d].canonical by {
        let source = lemma_duplicate_at(cells, duplicates, cells.len() as int, e);
        assert(duplicates[e].index != i);
    }
    assert forall|e: int| 0 <= e < count && e != d implies (#[trigger] duplicates[e]).output
        != duplicates[d].output by {
        let source = lemma_duplicate_at(cells, duplicates, cells.len() as int, e);
        if e < d {
            lemma_duplicates_apart(cells, duplicates, cells.len() as int, e, d);
        } else {
            lemma_duplicates_apart(cells, duplicates, cells.len() as int, d, e);
        }
    }
    lemma_seen_duplicate(values, duplicates, count, d);
    lemma_seen_other(values, duplicates, count, duplicates[d].canonical);
}

/// A register with the state of another holds where the other does.
proof fn lemma_taken_over(
    start: spec_fn(u32) -> bool,
    now: spec_fn(u32) -> bool,
    next: spec_fn(u32) -> bool,
    cell: CellModel,
    other: CellModel,
)
    requires
        cell is FlipFlop,
        other is FlipFlop,
        cell->FlipFlop_data == other->FlipFlop_data,
        cell->FlipFlop_enable == other->FlipFlop_enable,
        cell->FlipFlop_reset == other->FlipFlop_reset,
        start(cell->FlipFlop_output) == start(other->FlipFlop_output),
        now(cell->FlipFlop_output) == now(other->FlipFlop_output),
        next(cell->FlipFlop_output) == next(other->FlipFlop_output),
        cell_starts(start, other),
        cell_steps(now, next, other),
    ensures
        cell_starts(start, cell),
        cell_agrees(now, cell),
        cell_steps(now, next, cell),
{
}

#[verifier::rlimit(40)]
proof fn lemma_unmerged_duplicate(
    netlist: NetlistModel,
    duplicates: Seq<Duplicate>,
    after: Seq<CellModel>,
    run: spec_fn(nat) -> spec_fn(u32) -> bool,
    d: int,
    t: nat,
)
    requires
        is_merged(netlist, duplicates, after),
        is_run(run, after),
        0 <= d < duplicates.len(),
    ensures
        ({
            let cell = netlist.cells[duplicates[d].index as int];
            &&& cell is FlipFlop
            &&& cell_starts(seen(run(0), duplicates, duplicates.len()), cell)
            &&& cell_agrees(seen(run(t), duplicates, duplicates.len()), cell)
            &&& cell_steps(
                seen(run(t), duplicates, duplicates.len()),
                seen(run(t + 1), duplicates, duplicates.len()),
                cell,
            )
        }),
{
    let cells = netlist.cells;
    let source = lemma_duplicate_at(cells, duplicates, cells.len() as int, d);
    lemma_unmerged_kept(netlist, duplicates, after, run, source, t);
    lemma_unmerged_values(netlist, duplicates, after, run(0), d);
    lemma_unmerged_values(netlist, duplicates, after, run(t), d);
    lemma_unmerged_values(netlist, duplicates, after, run(t + 1), d);
    lemma_taken_over(
        seen(run(0), duplicates, duplicates.len()),
        seen(run(t), duplicates, duplicates.len()),
        seen(run(t + 1), duplicates, duplicates.len()),
        cells[duplicates[d].index as int],
        cells[source],
    );
}

/// Every cell holds of what is seen before registers were shared.
#[verifier::rlimit(40)]
proof fn lemma_unmerged_cell(
    netlist: NetlistModel,
    duplicates: Seq<Duplicate>,
    after: Seq<CellModel>,
    run: spec_fn(nat) -> spec_fn(u32) -> bool,
    i: int,
    t: nat,
)
    requires
        is_merged(netlist, duplicates, after),
        is_run(run, after),
        0 <= i < netlist.cells.len(),
    ensures
        cell_starts(seen(run(0), duplicates, duplicates.len()), netlist.cells[i]),
        cell_agrees(seen(run(t), duplicates, duplicates.len()), netlist.cells[i]),
        cell_steps(
            seen(run(t), duplicates, duplicates.len()),
            seen(run(t + 1), duplicates, duplicates.len()),
            netlist.cells[i],
        ),
        is_box(netlist.cells[i]) ==> exists|j: int|
            0 <= j < after.len() && same_box(
                seen(run(t), duplicates, duplicates.len()),
                netlist.cells[i],
                run(t),
                #[trigger] after[j],
            ),
{
    if exists|d: int| 0 <= d < duplicates.len() && (#[trigger] duplicates[d]).index == i {
        let d = choose|d: int| 0 <= d < duplicates.len() && (#[trigger] duplicates[d]).index == i;
        lemma_unmerged_duplicate(netlist, duplicates, after, run, d, t);
    } else {
        lemma_unmerged_kept(netlist, duplicates, after, run, i, t);
    }
}

/// One round of sharing equal registers keeps what is shown.
proof fn lemma_sharing_shows_no_more(netlist: NetlistModel)
    requires
        is_well_driven(netlist),
        netlist.cells.len() <= usize::MAX,
    ensures
        shows_no_more(netlist, merged_once(netlist)),
{
    reveal(shows_no_more);
    let after = merged_once(netlist);
    let duplicates = duplicates_of(netlist);
    let count = duplicates.len();
    lemma_scan_holds(netlist.cells, fanout_map(netlist), netlist.cells.len());
    assert(is_merged(netlist, duplicates, after.cells));
    assert forall|run: spec_fn(nat) -> spec_fn(u32) -> bool| #[trigger]
        is_run(run, after.cells) implies exists|left: spec_fn(nat) -> spec_fn(u32) -> bool|
        is_run(left, netlist.cells) && #[trigger] shows_same(left, netlist, run, after) by {
        let left = |t: nat| seen(run(t), duplicates, count);
        assert forall|i: int| 0 <= i < netlist.cells.len() implies cell_starts(
            left(0),
            #[trigger] netlist.cells[i],
        ) by {
            lemma_unmerged_cell(netlist, duplicates, after.cells, run, i, 0);
        }
        assert forall|t: nat| cells_agree(#[trigger] left(t), netlist.cells) by {
            assert forall|i: int| 0 <= i < netlist.cells.len() implies cell_agrees(
                left(t),
                #[trigger] netlist.cells[i],
            ) by {
                lemma_unmerged_cell(netlist, duplicates, after.cells, run, i, t);
            }
        }
        assert forall|t: nat| cells_step(#[trigger] left(t), left(t + 1), netlist.cells) by {
            assert forall|i: int| 0 <= i < netlist.cells.len() implies cell_steps(
                left(t),
                left(t + 1),
                #[trigger] netlist.cells[i],
            ) by {
                lemma_unmerged_cell(netlist, duplicates, after.cells, run, i, t);
            }
        }
        assert(is_run(left, netlist.cells));
        assert forall|t: nat|
            same_ports(#[trigger] left(t), netlist.ports, run(t), after.ports) && same_boxes(
                left(t),
                netlist.cells,
                run(t),
                after.cells,
            ) by {
            lemma_seen_ports(run(t), netlist, duplicates, count);
            assert forall|i: int|
                0 <= i < netlist.cells.len() && is_box(
                    #[trigger] netlist.cells[i],
                ) implies exists|j: int|
                0 <= j < after.cells.len() && same_box(
                    left(t),
                    netlist.cells[i],
                    run(t),
                    #[trigger] after.cells[j],
                ) by {
                lemma_unmerged_cell(netlist, duplicates, after.cells, run, i, t);
            }
        }
        assert(shows_same(left, netlist, run, after));
    }
}

/// In a run a duplicate carries what takes it over.
proof fn lemma_duplicates_equal(
    netlist: NetlistModel,
    duplicates: Seq<Duplicate>,
    after: Seq<CellModel>,
    run: spec_fn(nat) -> spec_fn(u32) -> bool,
    d: int,
    t: nat,
)
    requires
        is_merged(netlist, duplicates, after),
        is_run(run, netlist.cells),
        0 <= d < duplicates.len(),
    ensures
        run(t)(duplicates[d].output) == run(t)(duplicates[d].canonical),
    decreases t,
{
    let cells = netlist.cells;
    let source = lemma_duplicate_at(cells, duplicates, cells.len() as int, d);
    let index = duplicates[d].index as int;
    if t == 0 {
        assert(cell_starts(run(0), cells[index]));
        assert(cell_starts(run(0), cells[source]));
    } else {
        let last = (t - 1) as nat;
        lemma_duplicates_equal(netlist, duplicates, after, run, d, last);
        assert(cells_step(run(last), run(last + 1), cells));
        assert(cell_steps(run(last), run(t), cells[index]));
        assert(cell_steps(run(last), run(t), cells[source]));
    }
}

/// Where duplicates carry what takes them over, all is seen as it is.
proof fn lemma_seen_same(values: spec_fn(u32) -> bool, duplicates: Seq<Duplicate>, count: nat)
    requires
        count <= duplicates.len(),
        forall|d: int|
            0 <= d < count ==> values((#[trigger] duplicates[d]).output) == values(
                duplicates[d].canonical,
            ),
    ensures
        seen(values, duplicates, count) == values,
    decreases count,
{
    if count > 0 {
        let last = duplicates[count - 1];
        assert(values(duplicates[count - 1].output) == values(duplicates[count - 1].canonical));
        assert(unaliased(values, last.output, last.canonical) =~= values);
        lemma_seen_same(values, duplicates, (count - 1) as nat);
    }
}

/// Where a cell after the round comes from.
proof fn lemma_merged_from(
    netlist: NetlistModel,
    duplicates: Seq<Duplicate>,
    after: Seq<CellModel>,
    j: int,
) -> (i: int)
    requires
        is_merged(netlist, duplicates, after),
        0 <= j < after.len(),
    ensures
        0 <= i < netlist.cells.len(),
        i == origin(
            moved_loads(netlist, duplicates, duplicates.len()).cells,
            duplicate_indices(duplicates),
            j,
        ),
        after[j] == moved_loads(netlist, duplicates, duplicates.len()).cells[i],
        forall|d: int| 0 <= d < duplicates.len() ==> (#[trigger] duplicates[d]).index != i,
        forall|d: int|
            0 <= d < duplicates.len() ==> !drives(
                netlist.cells[i],
                (#[trigger] duplicates[d]).output,
            ),
{
    let moved = moved_loads(netlist, duplicates, duplicates.len()).cells;
    let indices = duplicate_indices(duplicates);
    lemma_moved_len(netlist, duplicates, duplicates.len());
    lemma_origin(moved, indices, j);
    let i = origin(moved, indices, j);
    assert forall|d: int| 0 <= d < duplicates.len() implies (#[trigger] duplicates[d]).index
        != i by {
        if duplicates[d].index == i {
            assert(indices[d] == i as usize);
        }
    }
    assert forall|d: int| 0 <= d < duplicates.len() implies !drives(
        netlist.cells[i],
        (#[trigger] duplicates[d]).output,
    ) by {
        let source = lemma_duplicate_at(
            netlist.cells,
            duplicates,
            netlist.cells.len() as int,
            d,
        );
    }
    i
}

/// Every cell after the round holds of a run before it.
#[verifier::rlimit(40)]
proof fn lemma_merged_holds(
    netlist: NetlistModel,
    duplicates: Seq<Duplicate>,
    after: Seq<CellModel>,
    run: spec_fn(nat) -> spec_fn(u32) -> bool,
    j: int,
    t: nat,
)
    requires
        is_merged(netlist, duplicates, after),
        is_run(run, netlist.cells),
        0 <= j < after.len(),
    ensures
        cell_starts(run(0), after[j]),
        cell_agrees(run(t), after[j]),
        cell_steps(run(t), run(t + 1), after[j]),
{
    let count = duplicates.len();
    let i = lemma_merged_from(netlist, duplicates, after, j);
    assert forall|u: nat| #[trigger] seen(run(u), duplicates, count) == run(u) by {
        assert forall|d: int| 0 <= d < count implies run(u)((#[trigger] duplicates[d]).output)
            == run(u)(duplicates[d].canonical) by {
            lemma_duplicates_equal(netlist, duplicates, after, run, d, u);
        }
        lemma_seen_same(run(u), duplicates, count);
    }
    lemma_seen_cell(run(t), run(t + 1), netlist, duplicates, count, i);
    lemma_seen_cell(run(0), run(t), netlist, duplicates, count, i);
    assert(seen(run(0), duplicates, count) == run(0));
    assert(seen(run(t), duplicates, count) == run(t));
    assert(seen(run(t + 1), duplicates, count) == run(t + 1));
    assert(cells_agree(run(t), netlist.cells));
    assert(cells_step(run(t), run(t + 1), netlist.cells));
    assert(cell_agrees(run(t), netlist.cells[i]));
    assert(cell_steps(run(t), run(t + 1), netlist.cells[i]));
    assert(cell_starts(run(0), netlist.cells[i]));
}

/// One round of sharing shows no less.
#[verifier::rlimit(40)]
proof fn lemma_sharing_shows_no_less(netlist: NetlistModel)
    requires
        is_well_driven(netlist),
    ensures
        shows_no_less(netlist, merged_once(netlist)),
{
    let after = merged_once(netlist);
    let duplicates = duplicates_of(netlist);
    let count = duplicates.len();
    reveal(shows_no_less);
    lemma_cells_counted(netlist);
    lemma_scan_holds(netlist.cells, fanout_map(netlist), netlist.cells.len());
    assert(is_merged(netlist, duplicates, after.cells));
    assert forall|run: spec_fn(nat) -> spec_fn(u32) -> bool| #[trigger]
        is_run(run, netlist.cells) implies exists|right: spec_fn(nat) -> spec_fn(u32) -> bool|
        is_run(right, after.cells) && #[trigger] shows_same(run, netlist, right, after) by {
        assert forall|j: int, t: nat|
            #![trigger after.cells[j], run(t)]
            0 <= j < after.cells.len() implies (t == 0 ==> cell_starts(run(t), after.cells[j]))
            && cell_agrees(run(t), after.cells[j]) && cell_steps(
            run(t),
            run(t + 1),
            after.cells[j],
        ) by {
            lemma_merged_holds(netlist, duplicates, after.cells, run, j, t);
        }
        lemma_is_run(run, after.cells);
        assert forall|t: nat|
            same_ports(#[trigger] run(t), netlist.ports, run(t), after.ports) && same_boxes(
                run(t),
                netlist.cells,
                run(t),
                after.cells,
            ) by {
            lemma_merged_shows(netlist, duplicates, after.cells, run, t);
        }
        assert(shows_same(run, netlist, run, after));
    }
}

proof fn lemma_merged_shows(
    netlist: NetlistModel,
    duplicates: Seq<Duplicate>,
    after: Seq<CellModel>,
    run: spec_fn(nat) -> spec_fn(u32) -> bool,
    t: nat,
)
    requires
        is_merged(netlist, duplicates, after),
        is_run(run, netlist.cells),
    ensures
        same_ports(
            run(t),
            netlist.ports,
            run(t),
            moved_loads(netlist, duplicates, duplicates.len()).ports,
        ),
        same_boxes(run(t), netlist.cells, run(t), after),
{
    let count = duplicates.len();
    assert forall|d: int| 0 <= d < count implies run(t)((#[trigger] duplicates[d]).output) == run(
        t,
    )(duplicates[d].canonical) by {
        lemma_duplicates_equal(netlist, duplicates, after, run, d, t);
    }
    lemma_seen_same(run(t), duplicates, count);
    lemma_seen_ports(run(t), netlist, duplicates, count);
    lemma_moved_len(netlist, duplicates, count);
    assert forall|i: int|
        0 <= i < netlist.cells.len() && is_box(#[trigger] netlist.cells[i]) implies exists|j: int|
        0 <= j < after.len() && same_box(run(t), netlist.cells[i], run(t), #[trigger] after[j]) by {
        assert forall|d: int| 0 <= d < count implies (#[trigger] duplicates[d]).index != i
            && !drives(netlist.cells[i], duplicates[d].output) by {
            let source = lemma_duplicate_at(
                netlist.cells,
                duplicates,
                netlist.cells.len() as int,
                d,
            );
        }
        lemma_seen_cell(run(t), run(t), netlist, duplicates, count, i);
        let j = lemma_merged_at(netlist, duplicates, after, i);
        assert(same_box(run(t), netlist.cells[i], run(t), after[j]));
    }
}

/// What a cell reads once loads were moved.
proof fn lemma_merged_reads(
    netlist: NetlistModel,
    duplicates: Seq<Duplicate>,
    after: Seq<CellModel>,
    count: nat,
    i: int,
    wire: u32,
)
    requires
        is_well_driven(netlist),
        is_merged(netlist, duplicates, after),
        count <= duplicates.len(),
        0 <= i < netlist.cells.len(),
        forall|d: int|
            0 <= d < duplicates.len() ==> !drives(
                netlist.cells[i],
                (#[trigger] duplicates[d]).output,
            ),
        reads(moved_loads(netlist, duplicates, count).cells[i], wire),
    ensures
        is_sourced(netlist, wire),
        forall|d: int| 0 <= d < count ==> (#[trigger] duplicates[d]).output != wire,
    decreases count,
{
    let values = |wire: u32| false;
    lemma_seen_cell(values, values, netlist, duplicates, count, i);
    if count > 0 {
        let rest = (count - 1) as nat;
        let last = duplicates[count - 1];
        let middle = moved_loads(netlist, duplicates, rest).cells[i];
        let cell = moved_loads(netlist, duplicates, count).cells[i];
        lemma_moved_len(netlist, duplicates, rest);
        lemma_seen_cell(values, values, netlist, duplicates, rest, i);
        assert(!drives(middle, last.output)) by {
            assert(!drives(netlist.cells[i], duplicates[count - 1].output));
        }
        lemma_renumbered_inputs(middle, last.output, last.canonical);
        assert(cell == renumbered_cell(middle, last.output, last.canonical));
        let bits = cell_inputs(cell);
        let theirs = cell_inputs(middle);
        let k = choose|k: int| 0 <= k < bits.len() && bits[k] == Bit::Wire(wire);
        assert(bits[k] == renumbered(theirs[k], last.output, last.canonical));
        let source = lemma_duplicate_at(
            netlist.cells,
            duplicates,
            netlist.cells.len() as int,
            count - 1,
        );
        if theirs[k] == Bit::Wire(last.output) {
            assert(drives(netlist.cells[source], wire));
            assert forall|d: int| 0 <= d < count implies (#[trigger] duplicates[d]).output
                != wire by {
                let other = lemma_duplicate_at(
                    netlist.cells,
                    duplicates,
                    netlist.cells.len() as int,
                    d,
                );
            }
        } else {
            assert(theirs.contains(theirs[k]));
            assert(reads(middle, wire));
            lemma_merged_reads(netlist, duplicates, after, rest, i, wire);
        }
    }
}

/// Port bits that are no duplicates stay.
proof fn lemma_merged_port(
    netlist: NetlistModel,
    duplicates: Seq<Duplicate>,
    count: nat,
    p: int,
    k: int,
)
    requires
        count <= duplicates.len(),
        0 <= p < netlist.ports.len(),
        0 <= k < netlist.ports[p].bits.len(),
        forall|d: int|
            0 <= d < count ==> netlist.ports[p].bits[k] != Bit::Wire(
                (#[trigger] duplicates[d]).output,
            ),
    ensures
        ({
            let moved = moved_loads(netlist, duplicates, count).ports;
            &&& moved.len() == netlist.ports.len()
            &&& moved[p].direction == netlist.ports[p].direction
            &&& moved[p].bits.len() == netlist.ports[p].bits.len()
            &&& moved[p].bits[k] == netlist.ports[p].bits[k]
        }),
    decreases count,
{
    if count > 0 {
        lemma_merged_port(netlist, duplicates, (count - 1) as nat, p, k);
        assert(netlist.ports[p].bits[k] != Bit::Wire(duplicates[count - 1].output));
    }
}

proof fn lemma_merged_ports_len(netlist: NetlistModel, duplicates: Seq<Duplicate>, count: nat)
    requires
        count <= duplicates.len(),
    ensures
        ({
            let moved = moved_loads(netlist, duplicates, count).ports;
            &&& moved.len() == netlist.ports.len()
            &&& forall|p: int|
                0 <= p < moved.len() ==> (#[trigger] moved[p]).bits.len()
                    == netlist.ports[p].bits.len() && moved[p].direction
                    == netlist.ports[p].direction
        }),
    decreases count,
{
    if count > 0 {
        lemma_merged_ports_len(netlist, duplicates, (count - 1) as nat);
        let rest = moved_loads(netlist, duplicates, (count - 1) as nat).ports;
        let moved = moved_loads(netlist, duplicates, count).ports;
        assert forall|p: int| 0 <= p < moved.len() implies (#[trigger] moved[p]).bits.len()
            == netlist.ports[p].bits.len() && moved[p].direction
            == netlist.ports[p].direction by {
            assert(rest[p].bits.len() == netlist.ports[p].bits.len());
        }
    }
}

/// Input ports keep their wires.
proof fn lemma_merged_inputs(
    netlist: NetlistModel,
    duplicates: Seq<Duplicate>,
    after: NetlistModel,
    wire: u32,
)
    requires
        is_well_driven(netlist),
        is_merged(netlist, duplicates, after.cells),
        after.ports == moved_loads(netlist, duplicates, duplicates.len()).ports,
        port_inputs(after).contains(Bit::Wire(wire)),
    ensures
        port_inputs(netlist).contains(Bit::Wire(wire)),
{
    let bits = port_inputs(after);
    let at = choose|at: int| 0 <= at < bits.len() && bits[at] == Bit::Wire(wire);
    let (p, k) = lemma_directed_from(after.ports, PortDirection::Input, at);
    lemma_merged_ports_len(netlist, duplicates, duplicates.len());
    assert(after.ports[p].direction == netlist.ports[p].direction);
    lemma_ports_contain(netlist.ports, PortDirection::Input, p, k);
    assert forall|d: int| 0 <= d < duplicates.len() implies netlist.ports[p].bits[k] != Bit::Wire(
        (#[trigger] duplicates[d]).output,
    ) by {
        let source = lemma_duplicate_at(
            netlist.cells,
            duplicates,
            netlist.cells.len() as int,
            d,
        );
        assert(is_driver(netlist, netlist.cells[duplicates[d].index as int]));
    }
    lemma_merged_port(netlist, duplicates, duplicates.len(), p, k);
}

/// One round of sharing leaves the netlist wired up.
#[verifier::rlimit(60)]
pub proof fn law_sharing_keeps_wiring(netlist: NetlistModel)
    requires
        is_well_driven(netlist),
    ensures
        is_well_driven(merged_once(netlist)),
{
    let after = merged_once(netlist);
    let duplicates = duplicates_of(netlist);
    let count = duplicates.len();
    let moved = moved_loads(netlist, duplicates, count).cells;
    let indices = duplicate_indices(duplicates);
    let values = |wire: u32| false;
    lemma_cells_counted(netlist);
    lemma_scan_holds(netlist.cells, fanout_map(netlist), netlist.cells.len());
    assert(is_merged(netlist, duplicates, after.cells));
    lemma_moved_len(netlist, duplicates, count);
    assert forall|j: int| 0 <= j < after.cells.len() implies drives_apart(
        #[trigger] after.cells[j],
    ) && is_driver(after, after.cells[j]) by {
        let i = lemma_merged_from(netlist, duplicates, after.cells, j);
        lemma_seen_cell(values, values, netlist, duplicates, count, i);
        assert(drives_apart(netlist.cells[i]));
        assert(is_driver(netlist, netlist.cells[i]));
        assert forall|wire: u32| #[trigger] drives(after.cells[j], wire) implies wire > 0
            && !port_inputs(after).contains(Bit::Wire(wire)) by {
            assert(drives(netlist.cells[i], wire));
            if port_inputs(after).contains(Bit::Wire(wire)) {
                lemma_merged_inputs(netlist, duplicates, after, wire);
            }
        }
    }
    assert forall|a: int, b: int, wire: u32|
        0 <= a < after.cells.len() && 0 <= b < after.cells.len() && #[trigger] drives(
            after.cells[a],
            wire,
        ) && #[trigger] drives(after.cells[b], wire) implies a == b by {
        let i = lemma_merged_from(netlist, duplicates, after.cells, a);
        let j = lemma_merged_from(netlist, duplicates, after.cells, b);
        lemma_seen_cell(values, values, netlist, duplicates, count, i);
        lemma_seen_cell(values, values, netlist, duplicates, count, j);
        assert(drives(netlist.cells[i], wire) && drives(netlist.cells[j], wire));
        if a < b {
            lemma_origins_apart(moved, indices, a, b);
        } else if b < a {
            lemma_origins_apart(moved, indices, b, a);
        }
    }
    assert forall|j: int, wire: u32|
        0 <= j < after.cells.len() && #[trigger] reads(
            after.cells[j],
            wire,
        ) implies is_sourced(after, wire) by {
        let i = lemma_merged_from(netlist, duplicates, after.cells, j);
        lemma_merged_reads(netlist, duplicates, after.cells, count, i, wire);
        lemma_merged_sourced(netlist, duplicates, after, wire);
    }
}

proof fn lemma_merged_sourced(
    netlist: NetlistModel,
    duplicates: Seq<Duplicate>,
    after: NetlistModel,
    wire: u32,
)
    requires
        is_well_driven(netlist),
        is_merged(netlist, duplicates, after.cells),
        after.ports == moved_loads(netlist, duplicates, duplicates.len()).ports,
        is_sourced(netlist, wire),
        forall|d: int| 0 <= d < duplicates.len() ==> (#[trigger] duplicates[d]).output != wire,
    ensures
        is_sourced(after, wire),
{
    let count = duplicates.len();
    if port_has(netlist.ports, wire) {
        let (p, k) = choose|p: int, k: int|
            0 <= p < netlist.ports.len() && 0 <= k < netlist.ports[p].bits.len()
                && #[trigger] netlist.ports[p].bits[k] == Bit::Wire(wire);
        lemma_merged_port(netlist, duplicates, count, p, k);
        assert(after.ports[p].bits[k] == Bit::Wire(wire));
    } else {
        let i = choose|i: int|
            0 <= i < netlist.cells.len() && #[trigger] drives(netlist.cells[i], wire);
        let values = |wire: u32| false;
        lemma_moved_len(netlist, duplicates, count);
        assert forall|d: int| 0 <= d < count implies (#[trigger] duplicates[d]).index != i
            && !drives(netlist.cells[i], duplicates[d].output) by {
            let source = lemma_duplicate_at(
                netlist.cells,
                duplicates,
                netlist.cells.len() as int,
                d,
            );
            if duplicates[d].index == i {
                assert(cell_outputs(netlist.cells[i]) =~= seq![
                    Bit::Wire(netlist.cells[i]->FlipFlop_output),
                ]);
            }
        }
        lemma_seen_cell(values, values, netlist, duplicates, count, i);
        let j = lemma_merged_at(netlist, duplicates, after.cells, i);
        assert(drives(after.cells[j], wire));
    }
}

/// One round of sharing equal registers keeps what is shown.
pub proof fn law_sharing_keeps_shown(netlist: NetlistModel)
    requires
        is_well_driven(netlist),
    ensures
        keeps_shown(netlist, merged_once(netlist)),
{
    lemma_cells_counted(netlist);
    lemma_sharing_shows_no_more(netlist);
    lemma_sharing_shows_no_less(netlist);
}

} // verus!
