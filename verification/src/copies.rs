//! Replicated enable drivers and dedicated muxes keep what is shown.

use vstd::prelude::*;

use crate::cells::cell_inputs;
use crate::cells::cell_outputs;
use crate::cells::Bit;
use crate::cells::CellModel;
use crate::grown::is_copy;
use crate::grown::is_exchanged;
use crate::grown::is_rewired;
use crate::grown::lemma_exchange_keeps_shown;
use crate::grown::lemma_exchange_keeps_wiring;
use crate::grown::mirrored_bits;
use crate::grown::Growth;
use crate::meaning::cell_agrees;
use crate::meaning::cells_agree;
use crate::moves::cell_steps;
use crate::moves::cells_step;
use crate::moves::lemma_lut_found;
use crate::netlist::next_free_wire;
use crate::netlist::NetlistModel;
use crate::replicate::calls_for_replica;
use crate::replicate::enable_replica;
use crate::replicate::enable_signal;
use crate::replicate::enable_signals;
use crate::replicate::enable_sinks;
use crate::replicate::replicate_for;
use crate::replicate::replicate_wires;
use crate::replicate::replicated_enables;
use crate::replicate::retained_sinks;
use crate::replicate::with_enable;
use crate::replicate::with_enables;
use crate::replicate::ReplicaModel;
use crate::retime_lut::lut_from;
use crate::rewired::lemma_enabling;
use crate::rewired::lemma_grows_true;
use crate::rewired::lemma_starts_true;
use crate::rewired::lemma_true_alike;
use crate::rewired::lemma_unchanged;
use crate::rewired::stays_true;
use crate::shown::all_below;
use crate::shown::cell_starts;
use crate::shown::drives;
use crate::shown::is_combinational;
use crate::shown::is_run;
use crate::shown::is_sourced;
use crate::shown::is_well_driven;
use crate::shown::keeps_shown;
use crate::shown::law_shown_is_kept;
use crate::shown::law_shown_is_kept_along;
use crate::shown::lemma_all_below;
use crate::shown::lemma_cells_counted;
use crate::shown::reads;
use crate::shown::touches;
use crate::timing::depths_of;
use crate::wide_mux::can_place;
use crate::wide_mux::claim_driver;
use crate::wide_mux::driver_clone;
use crate::wide_mux::l6_candidates;
use crate::wide_mux::law_mux_decomposition;
use crate::wide_mux::mux_candidates;
use crate::wide_mux::mux_inputs;
use crate::wide_mux::needs_clone;
use crate::wide_mux::place_l6;
use crate::wide_mux::place_l6s;
use crate::wide_mux::place_mux;
use crate::wide_mux::place_muxes;
use crate::wide_mux::wide_start;
use crate::wide_mux::with_l6_muxes;
use crate::wide_mux::with_pfu_muxes;
use crate::wide_mux::L6Model;
use crate::wide_mux::MuxCandidate;
use crate::wide_mux::WideModel;
use crate::widened::are_good;
use crate::widened::has_drivers;
use crate::widened::is_candidate;
use crate::widened::law_mux_inputs_select;
use crate::widened::lemma_l6_candidates;
use crate::widened::lemma_mux_candidates;
use crate::widened::lemma_place_l6s;
use crate::widened::lemma_place_muxes;
use crate::wires::increasing;
use crate::wires::lemma_sorted_wires;
use crate::wires::sorted_wires;

verus! {

/// The one new wire mirrors `from`.
pub open spec fn one_mirror(next: u32, from: u32) -> spec_fn(u32) -> u32 {
    |wire: u32|
        if wire == next {
            from
        } else {
            wire
        }
}

/// A lookup table copied onto a new wire is a copy.
pub proof fn lemma_lut_copy(source: CellModel, copy: CellModel, after: CellModel, growth: Growth)
    requires
        source is Lut4,
        copy is Lut4,
        after == source,
        copy->Lut4_inputs == source->Lut4_inputs,
        copy->Lut4_init == source->Lut4_init,
        copy->Lut4_output == growth.next,
        growth.mirror == one_mirror(growth.next, source->Lut4_output),
    ensures
        is_copy(source, after, copy, growth),
        forall|wire: u32| #[trigger] drives(copy, wire) ==> wire == growth.next,
{
    let ours = cell_outputs(copy);
    assert(ours =~= seq![Bit::Wire(growth.next)]);
    assert(mirrored_bits(growth.mirror, ours) =~= cell_outputs(source));
    assert(ours[0] == Bit::Wire(growth.next));
}

/// What moving enables does, cell by cell.
pub proof fn lemma_with_enables(cells: Seq<CellModel>, sinks: Seq<usize>, wire: u32, i: int)
    requires
        0 <= i < cells.len() <= usize::MAX,
        forall|k: int| 0 <= k < sinks.len() ==> (#[trigger] sinks[k]) < cells.len(),
    ensures
        with_enables(cells, sinks, wire).len() == cells.len(),
        with_enables(cells, sinks, wire)[i] == if sinks.contains(i as usize) {
            with_enable(cells[i], wire)
        } else {
            cells[i]
        },
    decreases sinks.len(),
{
    if sinks.len() > 0 {
        let rest = sinks.drop_last();
        assert forall|k: int| 0 <= k < rest.len() implies (#[trigger] rest[k]) < cells.len() by {
            assert(rest[k] == sinks[k]);
        }
        lemma_with_enables(cells, rest, wire, i);
        let last = sinks.last();
        assert(sinks[sinks.len() - 1] == last);
        if rest.contains(i as usize) {
            let k = choose|k: int| 0 <= k < rest.len() && rest[k] == i as usize;
            assert(sinks[k] == i as usize);
        }
        if sinks.contains(i as usize) && last != i as usize {
            let k = choose|k: int| 0 <= k < sinks.len() && sinks[k] == i as usize;
            assert(rest[k] == i as usize);
        }
    }
}

/// Enables moved to a copy of their driver stay true.
pub proof fn lemma_chunk_true(
    original: NetlistModel,
    base: NetlistModel,
    cells: Seq<CellModel>,
    next: u32,
    lut: int,
    sinks: Seq<usize>,
    copy: CellModel,
)
    requires
        stays_true(original, NetlistModel { cells, ..base }, next as int),
        0 < next,
        0 <= lut < cells.len(),
        cells[lut] is Lut4,
        copy is Lut4,
        copy->Lut4_inputs == cells[lut]->Lut4_inputs,
        copy->Lut4_init == cells[lut]->Lut4_init,
        copy->Lut4_output == next,
        forall|k: int|
            0 <= k < sinks.len() ==> (#[trigger] sinks[k]) < cells.len() && enable_signal(
                cells[sinks[k] as int],
            ) == Some(Bit::Wire(cells[lut]->Lut4_output)),
    ensures
        stays_true(
            original,
            NetlistModel { cells: with_enables(cells, sinks, next).push(copy), ..base },
            next + 1,
        ),
        with_enables(cells, sinks, next).len() == cells.len(),
{
    let before = NetlistModel { cells, ..base };
    let after = NetlistModel { cells: with_enables(cells, sinks, next).push(copy), ..base };
    let output = cells[lut]->Lut4_output;
    let mirror = one_mirror(next, output);
    let growth = Growth { mirror, next, source: lut };
    lemma_cells_counted(before);
    lemma_with_enables(cells, sinks, next, lut);
    assert(!sinks.contains(lut as usize)) by {
        if sinks.contains(lut as usize) {
            let k = choose|k: int| 0 <= k < sinks.len() && sinks[k] == lut as usize;
            assert(enable_signal(cells[sinks[k] as int]) is Some);
        }
    }
    assert(after.cells[lut] == cells[lut]);
    assert(touches(cells[lut], output)) by {
        assert(cell_outputs(cells[lut])[0] == Bit::Wire(output));
    }
    lemma_lut_copy(cells[lut], copy, after.cells[lut], growth);
    assert forall|i: int| 0 <= i < cells.len() implies is_rewired(
        mirror,
        #[trigger] before.cells[i],
        after.cells[i],
    ) by {
        lemma_with_enables(cells, sinks, next, i);
        assert forall|wire: u32| #[trigger] touches(cells[i], wire) implies wire < next by {
            assert(touches(before.cells[i], wire));
        }
        if sinks.contains(i as usize) {
            let k = choose|k: int| 0 <= k < sinks.len() && sinks[k] == i as usize;
            assert(enable_signal(cells[sinks[k] as int]) == Some(Bit::Wire(output)));
            lemma_enabling(mirror, cells[i], output, next, next as int);
        } else {
            lemma_unchanged(mirror, cells[i], next as int);
        }
    }
    lemma_grows_true(original, before, after, growth, next + 1);
}

/// The sinks of an enable are the registers that it enables, in order.
proof fn lemma_sinks(cells: Seq<CellModel>, wire: u32)
    requires
        cells.len() <= usize::MAX,
    ensures
        forall|k: int|
            0 <= k < enable_sinks(cells, wire).len() ==> (#[trigger] enable_sinks(cells, wire)[k])
                < cells.len() && enable_signal(cells[enable_sinks(cells, wire)[k] as int]) == Some(
                Bit::Wire(wire),
            ),
        forall|j: int, k: int|
            0 <= j < k < enable_sinks(cells, wire).len() ==> enable_sinks(cells, wire)[j]
                < enable_sinks(cells, wire)[k],
    decreases cells.len(),
{
    if cells.len() > 0 {
        let rest = cells.drop_last();
        lemma_sinks(rest, wire);
        let sinks = enable_sinks(rest, wire);
        assert forall|k: int| 0 <= k < sinks.len() implies (#[trigger] sinks[k]) < rest.len()
            && enable_signal(cells[sinks[k] as int]) == Some(Bit::Wire(wire)) by {
            assert(rest[sinks[k] as int] == cells[sinks[k] as int]);
        }
    }
}

/// Whether the sinks from `from` on are still enabled by `wire`.
spec fn still_enabled(cells: Seq<CellModel>, sinks: Seq<usize>, from: int, wire: u32) -> bool {
    &&& forall|k: int|
        from <= k < sinks.len() ==> (#[trigger] sinks[k]) < cells.len() && enable_signal(
            cells[sinks[k] as int],
        ) == Some(Bit::Wire(wire))
    &&& forall|j: int, k: int| 0 <= j < k < sinks.len() ==> sinks[j] < sinks[k]
}

#[verifier::rlimit(40)]
proof fn lemma_replicas_true(
    original: NetlistModel,
    base: NetlistModel,
    model: ReplicaModel,
    driver: CellModel,
    lut: int,
    sinks: Seq<usize>,
    from: int,
    limit: nat,
    replica: nat,
)
    requires
        stays_true(original, NetlistModel { cells: model.cells, ..base }, model.next as int),
        0 < model.next,
        0 <= lut < model.cells.len(),
        model.cells[lut] == driver,
        driver is Lut4,
        0 <= from,
        still_enabled(model.cells, sinks, from, driver->Lut4_output),
    ensures
        replicate_for(model, driver, sinks, from, limit, replica) matches Some(after)
            ==> stays_true(
            original,
            NetlistModel { cells: after.cells, ..base },
            after.next as int,
        ) && 0 < after.next && model.cells.len() <= after.cells.len() && forall|i: int|
            0 <= i < model.cells.len() && !sinks.contains(i as usize) ==> (
            #[trigger] after.cells[i]) == model.cells[i],
    decreases sinks.len() - from,
{
    if from < sinks.len() && limit > 0 && model.next != u32::MAX {
        let to = if sinks.len() - from < limit {
            sinks.len() as int
        } else {
            from + limit
        };
        let part = sinks.subrange(from, to);
        let copy = enable_replica(driver, model.next, replica);
        let next = ReplicaModel {
            cells: with_enables(model.cells, part, model.next).push(copy),
            next: (model.next + 1) as u32,
            replicas: model.replicas + 1,
        };
        let before = NetlistModel { cells: model.cells, ..base };
        lemma_cells_counted(before);
        assert forall|k: int| 0 <= k < part.len() implies (#[trigger] part[k]) < model.cells.len()
            && enable_signal(model.cells[part[k] as int]) == Some(
            Bit::Wire(driver->Lut4_output),
        ) by {
            assert(part[k] == sinks[from + k]);
        }
        lemma_chunk_true(original, base, model.cells, model.next, lut, part, copy);
        assert forall|i: int|
            0 <= i < model.cells.len() && !part.contains(i as usize) implies (
        #[trigger] next.cells[i]) == model.cells[i] by {
            lemma_with_enables(model.cells, part, model.next, i);
        }
        assert(!part.contains(lut as usize)) by {
            if part.contains(lut as usize) {
                let k = choose|k: int| 0 <= k < part.len() && part[k] == lut as usize;
                assert(enable_signal(model.cells[part[k] as int]) is Some);
            }
        }
        assert forall|k: int| to <= k < sinks.len() implies (#[trigger] sinks[k])
            < next.cells.len() && enable_signal(next.cells[sinks[k] as int]) == Some(
            Bit::Wire(driver->Lut4_output),
        ) by {
            assert(!part.contains(sinks[k])) by {
                if part.contains(sinks[k]) {
                    let j = choose|j: int| 0 <= j < part.len() && part[j] == sinks[k];
                    assert(part[j] == sinks[from + j]);
                    assert(sinks[from + j] < sinks[k]);
                }
            }
            assert(next.cells[sinks[k] as int] == model.cells[sinks[k] as int]);
        }
        lemma_replicas_true(
            original,
            base,
            next,
            driver,
            lut,
            sinks,
            to,
            limit,
            replica + 1,
        );
        if let Some(after) = replicate_for(next, driver, sinks, to, limit, replica + 1) {
            assert forall|i: int|
                0 <= i < model.cells.len() && !sinks.contains(i as usize) implies (
            #[trigger] after.cells[i]) == model.cells[i] by {
                assert(!part.contains(i as usize)) by {
                    if part.contains(i as usize) {
                        let j = choose|j: int| 0 <= j < part.len() && part[j] == i as usize;
                        assert(sinks[from + j] == i as usize);
                    }
                }
                assert(next.cells[i] == model.cells[i]);
            }
        }
    }
}

/// Whether cells whose enables were not treated are as they were.
spec fn untreated_stay(
    before: Seq<CellModel>,
    after: Seq<CellModel>,
    wires: Seq<u32>,
    count: nat,
) -> bool {
    before.len() <= after.len() && forall|i: int|
        0 <= i < before.len() && (forall|c: int|
            0 <= c < count ==> enable_signal(before[i]) != Some(Bit::Wire(#[trigger] wires[c])))
            ==> (#[trigger] after[i]) == before[i]
}

#[verifier::rlimit(40)]
proof fn lemma_wires_true(
    netlist: NetlistModel,
    next: u32,
    wires: Seq<u32>,
    limit: nat,
    count: nat,
)
    requires
        is_well_driven(netlist),
        next_free_wire(netlist) == Some(next),
        increasing(wires),
        count <= wires.len(),
    ensures
        replicate_wires(
            netlist,
            ReplicaModel { cells: netlist.cells, next, replicas: 0 },
            wires,
            limit,
            count,
        ) matches Some(after) ==> stays_true(
            netlist,
            NetlistModel { cells: after.cells, ..netlist },
            after.next as int,
        ) && 0 < after.next && untreated_stay(netlist.cells, after.cells, wires, count),
    decreases count,
{
    let start = ReplicaModel { cells: netlist.cells, next, replicas: 0 };
    if count == 0 {
        lemma_starts_true(netlist);
        lemma_true_alike(
            netlist,
            netlist,
            NetlistModel { cells: start.cells, ..netlist },
            next as int,
        );
    } else {
        let last = (count - 1) as nat;
        lemma_wires_true(netlist, next, wires, limit, last);
        lemma_cells_counted(netlist);
        if let Some(after) = replicate_wires(netlist, start, wires, limit, count) {
            let rest = replicate_wires(netlist, start, wires, limit, last)->0;
            let wire = wires[last as int];
            if calls_for_replica(netlist, wire, limit) {
                let lut = lut_from(netlist.cells, wire, 0)->0;
                lemma_lut_found(netlist.cells, wire, 0);
                let driver = netlist.cells[lut];
                let sinks = enable_sinks(netlist.cells, wire);
                lemma_sinks(netlist.cells, wire);
                assert(enable_signal(driver) is None);
                assert(rest.cells[lut] == driver);
                assert forall|k: int| 0 <= k < sinks.len() implies (#[trigger] sinks[k])
                    < rest.cells.len() && enable_signal(rest.cells[sinks[k] as int]) == Some(
                    Bit::Wire(wire),
                ) by {
                    let i = sinks[k] as int;
                    assert forall|c: int| 0 <= c < last implies enable_signal(netlist.cells[i])
                        != Some(Bit::Wire(#[trigger] wires[c])) by {
                        assert(wires[c] < wires[last as int]);
                    }
                    assert(rest.cells[i] == netlist.cells[i]);
                }
                let from = retained_sinks(netlist, wire, limit) as int;
                lemma_replicas_true(
                    netlist,
                    netlist,
                    rest,
                    driver,
                    lut,
                    sinks,
                    from,
                    limit,
                    0,
                );
                assert forall|i: int|
                    0 <= i < netlist.cells.len() && (forall|c: int|
                        0 <= c < count ==> enable_signal(netlist.cells[i]) != Some(
                            Bit::Wire(#[trigger] wires[c]),
                        )) implies (#[trigger] after.cells[i]) == netlist.cells[i] by {
                    assert(enable_signal(netlist.cells[i]) != Some(
                        Bit::Wire(wires[last as int]),
                    ));
                    if sinks.contains(i as usize) {
                        let k = choose|k: int| 0 <= k < sinks.len() && sinks[k] == i as usize;
                        assert(enable_signal(netlist.cells[sinks[k] as int]) == Some(
                            Bit::Wire(wire),
                        ));
                    }
                    assert(rest.cells[i] == netlist.cells[i]);
                }
            } else {
                assert forall|i: int|
                    0 <= i < netlist.cells.len() && (forall|c: int|
                        0 <= c < count ==> enable_signal(netlist.cells[i]) != Some(
                            Bit::Wire(#[trigger] wires[c]),
                        )) implies (#[trigger] after.cells[i]) == netlist.cells[i] by {
                    assert(rest.cells[i] == netlist.cells[i]);
                }
            }
        }
    }
}

/// Replicating enable drivers keeps what is shown and leaves the netlist wired up.
pub proof fn law_replicas_keep_shown(netlist: NetlistModel, max_fanout: usize)
    requires
        is_well_driven(netlist),
    ensures
        keeps_shown(netlist, replicated_enables(netlist, max_fanout)),
        is_well_driven(replicated_enables(netlist, max_fanout)),
        replicated_enables(netlist, max_fanout).ports == netlist.ports,
{
    let limit = if max_fanout == 0 {
        1nat
    } else {
        max_fanout as nat
    };
    let signals = enable_signals(netlist.cells);
    let wires = sorted_wires(signals);
    lemma_sorted_wires(signals);
    law_shown_is_kept(netlist);
    if let Some(next) = next_free_wire(netlist) {
        lemma_wires_true(netlist, next, wires, limit, wires.len());
        let start = ReplicaModel { cells: netlist.cells, next, replicas: 0 };
        if let Some(model) = replicate_wires(netlist, start, wires, limit, wires.len()) {
            lemma_true_alike(
                netlist,
                NetlistModel { cells: model.cells, ..netlist },
                replicated_enables(netlist, max_fanout),
                model.next as int,
            );
        }
    }
}

/// A combinational cell exchanged for one that agrees with the same values.
pub proof fn lemma_comb_exchange(
    before: NetlistModel,
    after: NetlistModel,
    root: int,
    cell: CellModel,
)
    requires
        0 <= root < before.cells.len(),
        after.cells == before.cells.update(root, cell),
        after.ports == before.ports,
        is_combinational(before.cells[root]),
        is_combinational(cell),
        cell_outputs(cell) == cell_outputs(before.cells[root]),
        forall|values: spec_fn(u32) -> bool|
            cells_agree(values, before.cells) == #[trigger] cells_agree(values, after.cells),
    ensures
        is_exchanged(before, after),
{
    assert forall|run: spec_fn(nat) -> spec_fn(u32) -> bool| is_run(run, before.cells)
        == #[trigger] is_run(run, after.cells) by {
        if is_run(run, before.cells) {
            lemma_comb_run(run, before.cells, after.cells);
        }
        if is_run(run, after.cells) {
            lemma_comb_run(run, after.cells, before.cells);
        }
    }
}

proof fn lemma_comb_run(
    run: spec_fn(nat) -> spec_fn(u32) -> bool,
    from: Seq<CellModel>,
    to: Seq<CellModel>,
)
    requires
        is_run(run, from),
        from.len() == to.len(),
        forall|i: int|
            0 <= i < to.len() ==> (#[trigger] to[i]) == from[i] || is_combinational(to[i]),
        forall|values: spec_fn(u32) -> bool| #[trigger]
            cells_agree(values, from) ==> cells_agree(values, to),
    ensures
        is_run(run, to),
{
    assert forall|i: int| 0 <= i < to.len() implies cell_starts(run(0), #[trigger] to[i]) by {
        assert(cell_starts(run(0), from[i]));
    }
    assert forall|t: nat| cells_agree(#[trigger] run(t), to) by {
        assert(cells_agree(run(t), from));
    }
    assert forall|t: nat| cells_step(#[trigger] run(t), run(t + 1), to) by {
        assert(cells_step(run(t), run(t + 1), from));
        assert forall|i: int| 0 <= i < to.len() implies cell_steps(
            run(t),
            run(t + 1),
            #[trigger] to[i],
        ) by {
            assert(cell_steps(run(t), run(t + 1), from[i]));
        }
    }
}

/// What a mux selects are inputs of the lookup table.
proof fn lemma_mux_reads(cell: CellModel)
    requires
        cell is Lut4,
    ensures
        mux_inputs(cell->Lut4_inputs, cell->Lut4_init) matches Some((on, off, select)) ==> {
            &&& cell_inputs(cell).contains(on)
            &&& cell_inputs(cell).contains(off)
            &&& cell_inputs(cell).contains(select)
        },
{
    let inputs = cell->Lut4_inputs;
    law_mux_decomposition(cell->Lut4_init);
    if let Some(code) = crate::wide_mux::first_mux_code(cell->Lut4_init, 0) {
        assert(inputs@[(code / 4 % 4) as int] == inputs[(code / 4 % 4) as int]);
        assert(inputs@[(code % 4) as int] == inputs[(code % 4) as int]);
        assert(inputs@[(code / 16) as int] == inputs[(code / 16) as int]);
    }
}

/// The first wire that can still be taken.
spec fn top(wide: WideModel) -> int {
    if wide.next == u32::MAX {
        u32::MAX + 1
    } else {
        wide.next as int
    }
}

/// Claiming a driver stays true.
proof fn lemma_claim_true(original: NetlistModel, wide: WideModel, driver: usize, clone: bool)
    requires
        stays_true(original, wide.netlist, top(wide)),
        0 < wide.next,
        driver < wide.netlist.cells.len(),
        wide.netlist.cells[driver as int] is Lut4,
        clone ==> wide.next < u32::MAX,
    ensures
        stays_true(
            original,
            claim_driver(wide, driver, clone).netlist,
            top(claim_driver(wide, driver, clone)),
        ),
        0 < claim_driver(wide, driver, clone).next,
{
    if clone {
        let before = wide.netlist;
        let after = claim_driver(wide, driver, clone).netlist;
        let source = before.cells[driver as int];
        let copy = driver_clone(wide, driver);
        let growth = Growth {
            mirror: one_mirror(wide.next, source->Lut4_output),
            next: wide.next,
            source: driver as int,
        };
        assert(after.cells[driver as int] == source);
        assert(after.cells[before.cells.len() as int] == copy);
        lemma_lut_copy(source, copy, after.cells[driver as int], growth);
        assert forall|i: int| 0 <= i < before.cells.len() implies is_rewired(
            growth.mirror,
            #[trigger] before.cells[i],
            after.cells[i],
        ) by {
            assert forall|wire: u32| #[trigger] touches(before.cells[i], wire) implies wire
                < wide.next by {}
            lemma_unchanged(growth.mirror, before.cells[i], wide.next as int);
            assert(after.cells[i] == before.cells[i]);
        }
        lemma_grows_true(original, before, after, growth, wide.next + 1);
        lemma_raised(original, after, wide.next + 1, top(claim_driver(wide, driver, clone)));
    }
}

/// What stays true below a wire stays true below a later one.
pub proof fn lemma_raised(original: NetlistModel, now: NetlistModel, low: int, high: int)
    requires
        stays_true(original, now, low),
        low <= high,
    ensures
        stays_true(original, now, high),
{
}

/// A dedicated mux agrees with the values that its lookup table agreed with.
#[verifier::rlimit(40)]
proof fn lemma_pfu_agrees(
    values: spec_fn(u32) -> bool,
    two: Seq<CellModel>,
    candidate: MuxCandidate,
    on: u32,
    off: u32,
    cell: CellModel,
)
    requires
        is_candidate(two, candidate),
        has_drivers(two, candidate),
        cell matches CellModel::PfuMux { lut_true, lut_false, select, output, .. } && lut_true
            == Bit::Wire(on) && lut_false == Bit::Wire(off) && select == candidate.select && output
            == candidate.output,
        on == candidate.on || drives_like(two, candidate.root as int, candidate.on_driver as int, on),
        off == candidate.off || drives_like(two, candidate.root as int, candidate.off_driver as int, off),
    ensures
        cells_agree(values, two) == cells_agree(
            values,
            two.update(candidate.root as int, cell),
        ),
{
    let root = candidate.root as int;
    let after = two.update(root, cell);
    let source = two[root];
    law_mux_inputs_select(values, source->Lut4_inputs, source->Lut4_init);
    if cells_agree(values, two) {
        assert(cell_agrees(values, two[root]));
        assert(cell_agrees(values, two[candidate.on_driver as int]));
        assert(cell_agrees(values, two[candidate.off_driver as int]));
        if on != candidate.on {
            let k = choose|k: int| is_like(two, candidate.root as int, candidate.on_driver as int, on, k);
            assert(cell_agrees(values, two[k]));
        }
        if off != candidate.off {
            let k = choose|k: int| is_like(two, candidate.root as int, candidate.off_driver as int, off, k);
            assert(cell_agrees(values, two[k]));
        }
        assert forall|i: int| 0 <= i < after.len() implies cell_agrees(
            values,
            #[trigger] after[i],
        ) by {
            if i != root {
                assert(after[i] == two[i]);
            }
        }
    }
    if cells_agree(values, after) {
        assert(cell_agrees(values, after[root]));
        if candidate.on_driver != candidate.root {
            assert(cell_agrees(values, after[candidate.on_driver as int]));
        }
        if candidate.off_driver != candidate.root {
            assert(cell_agrees(values, after[candidate.off_driver as int]));
        }
        if on != candidate.on {
            let k = choose|k: int| is_like(two, candidate.root as int, candidate.on_driver as int, on, k);
            assert(k != root ==> after[k] == two[k]);
            assert(cell_agrees(values, after[k]));
        }
        if off != candidate.off {
            let k = choose|k: int| is_like(two, candidate.root as int, candidate.off_driver as int, off, k);
            assert(k != root ==> after[k] == two[k]);
            assert(cell_agrees(values, after[k]));
        }
        assert forall|i: int| 0 <= i < two.len() implies cell_agrees(values, #[trigger] two[i]) by {
            if i != root {
                assert(after[i] == two[i]);
            }
        }
    }
}

/// Whether the cell at `k`, other than that at `root`, is a copy of the lookup table
/// at `driver` that drives `wire`.
spec fn is_like(cells: Seq<CellModel>, root: int, driver: int, wire: u32, k: int) -> bool {
    &&& 0 <= k < cells.len()
    &&& k != root
    &&& k != driver
    &&& cells[k] is Lut4
    &&& cells[k]->Lut4_output == wire
    &&& cells[k]->Lut4_inputs == cells[driver]->Lut4_inputs
    &&& cells[k]->Lut4_init == cells[driver]->Lut4_init
}

/// Whether some copy of the lookup table at `driver` drives `wire`.
spec fn drives_like(cells: Seq<CellModel>, root: int, driver: int, wire: u32) -> bool {
    exists|k: int| #[trigger] is_like(cells, root, driver, wire, k)
}

/// The cells once the drivers of a mux were claimed.
#[verifier::rlimit(60)]
proof fn lemma_claimed(wide: WideModel, candidate: MuxCandidate)
    requires
        can_place(wide, candidate),
        is_candidate(wide.netlist.cells, candidate),
        has_drivers(wide.netlist.cells, candidate),
    ensures
        ({
            let cells = wide.netlist.cells;
            let on_clone = needs_clone(wide, candidate.on_driver, candidate.on);
            let off_clone = needs_clone(wide, candidate.off_driver, candidate.off);
            let one = claim_driver(wide, candidate.on_driver, on_clone);
            let two = claim_driver(one, candidate.off_driver, off_clone).netlist.cells;
            &&& cells.len() <= two.len()
            &&& forall|i: int| 0 <= i < cells.len() ==> (#[trigger] two[i]) == cells[i]
            &&& is_candidate(two, candidate)
            &&& has_drivers(two, candidate)
            &&& on_clone ==> drives_like(two, candidate.root as int, candidate.on_driver as int, wide.next)
            &&& off_clone ==> drives_like(two, candidate.root as int, candidate.off_driver as int, one.next)
        }),
{
    let cells = wide.netlist.cells;
    let on_clone = needs_clone(wide, candidate.on_driver, candidate.on);
    let off_clone = needs_clone(wide, candidate.off_driver, candidate.off);
    let one = claim_driver(wide, candidate.on_driver, on_clone);
    let two = claim_driver(one, candidate.off_driver, off_clone).netlist.cells;
    assert forall|i: int| 0 <= i < cells.len() implies (#[trigger] two[i]) == cells[i] by {
        assert(one.netlist.cells[i] == cells[i]);
    }
    if on_clone {
        let k = cells.len() as int;
        assert(one.netlist.cells[k] == driver_clone(wide, candidate.on_driver));
        assert(two[k] == one.netlist.cells[k]);
        assert(is_like(two, candidate.root as int, candidate.on_driver as int, wide.next, k));
    }
    if off_clone {
        let k = one.netlist.cells.len() as int;
        assert(two[k] == driver_clone(one, candidate.off_driver));
        assert(one.netlist.cells[candidate.off_driver as int]
            == cells[candidate.off_driver as int]);
        assert(is_like(two, candidate.root as int, candidate.off_driver as int, one.next, k));
    }
}

#[verifier::rlimit(60)]
proof fn lemma_mux_true(original: NetlistModel, wide: WideModel, candidate: MuxCandidate)
    requires
        stays_true(original, wide.netlist, top(wide)),
        0 < wide.next,
        is_candidate(wide.netlist.cells, candidate),
        candidate.on_driver < wide.netlist.cells.len(),
        candidate.off_driver < wide.netlist.cells.len(),
        can_place(wide, candidate) ==> has_drivers(wide.netlist.cells, candidate),
    ensures
        stays_true(
            original,
            place_mux(wide, candidate).netlist,
            top(place_mux(wide, candidate)),
        ),
        0 < place_mux(wide, candidate).next,
{
    if can_place(wide, candidate) {
        let on_clone = needs_clone(wide, candidate.on_driver, candidate.on);
        let off_clone = needs_clone(wide, candidate.off_driver, candidate.off);
        let one = claim_driver(wide, candidate.on_driver, on_clone);
        let two = claim_driver(one, candidate.off_driver, off_clone);
        let after = place_mux(wide, candidate);
        let root = candidate.root as int;
        lemma_claim_true(original, wide, candidate.on_driver, on_clone);
        assert(one.netlist.cells[candidate.off_driver as int]
            == wide.netlist.cells[candidate.off_driver as int]);
        lemma_claim_true(original, one, candidate.off_driver, off_clone);
        lemma_claimed(wide, candidate);
        let on = if on_clone {
            wide.next
        } else {
            candidate.on
        };
        let off = if off_clone {
            one.next
        } else {
            candidate.off
        };
        let cell = after.netlist.cells[root];
        let before = two.netlist;
        assert(after.netlist.cells == before.cells.update(root, cell));
        assert forall|values: spec_fn(u32) -> bool| cells_agree(values, before.cells)
            == #[trigger] cells_agree(values, after.netlist.cells) by {
            lemma_pfu_agrees(values, before.cells, candidate, on, off, cell);
        }
        assert(cell_outputs(cell) =~= cell_outputs(before.cells[root]));
        lemma_comb_exchange(before, after.netlist, root, cell);
        lemma_mux_sourced(before, after.netlist, candidate, on, off, cell);
        lemma_exchange_true(original, before, after.netlist, top(two));
    }
}

/// Exchanging cells stays true.
pub proof fn lemma_exchange_true(
    original: NetlistModel,
    before: NetlistModel,
    after: NetlistModel,
    next: int,
)
    requires
        stays_true(original, before, next),
        is_exchanged(before, after),
        forall|i: int, wire: u32|
            0 <= i < after.cells.len() && #[trigger] reads(after.cells[i], wire) ==> is_sourced(
                before,
                wire,
            ),
    ensures
        stays_true(original, after, next),
{
    lemma_exchange_keeps_wiring(before, after);
    lemma_exchange_keeps_shown(before, after);
    law_shown_is_kept_along(original, before, after);
}

/// What a dedicated mux reads is sourced.
proof fn lemma_mux_sourced(
    before: NetlistModel,
    after: NetlistModel,
    candidate: MuxCandidate,
    on: u32,
    off: u32,
    cell: CellModel,
)
    requires
        is_well_driven(before),
        is_candidate(before.cells, candidate),
        has_drivers(before.cells, candidate),
        after.cells == before.cells.update(candidate.root as int, cell),
        cell_inputs(cell).to_set().subset_of(
            set![Bit::Wire(on), Bit::Wire(off), candidate.select],
        ),
        on == candidate.on || drives_like(before.cells, candidate.root as int, candidate.on_driver as int, on),
        off == candidate.off || drives_like(before.cells, candidate.root as int, candidate.off_driver as int, off),
    ensures
        forall|i: int, wire: u32|
            0 <= i < after.cells.len() && #[trigger] reads(after.cells[i], wire) ==> is_sourced(
                before,
                wire,
            ),
{
    let root = candidate.root as int;
    let source = before.cells[root];
    lemma_mux_reads(source);
    assert forall|i: int, wire: u32|
        0 <= i < after.cells.len() && #[trigger] reads(after.cells[i], wire) implies is_sourced(
        before,
        wire,
    ) by {
        if i != root {
            assert(reads(before.cells[i], wire));
        } else {
            assert(cell_inputs(cell).to_set().contains(Bit::Wire(wire)));
            if Bit::Wire(wire) == candidate.select {
                assert(reads(source, wire));
            } else if wire == on {
                if on == candidate.on {
                    assert(reads(source, wire));
                } else {
                    let k = choose|k: int|
                        is_like(before.cells, candidate.root as int, candidate.on_driver as int, on, k);
                    assert(cell_outputs(before.cells[k])[0] == Bit::Wire(on));
                    assert(drives(before.cells[k], wire));
                }
            } else if off == candidate.off {
                assert(reads(source, wire));
            } else {
                let k = choose|k: int| is_like(before.cells, candidate.root as int, candidate.off_driver as int, off, k);
                assert(cell_outputs(before.cells[k])[0] == Bit::Wire(off));
                assert(drives(before.cells[k], wire));
            }
        }
    }
}

proof fn lemma_muxes_true(netlist: NetlistModel, candidates: Seq<MuxCandidate>, count: nat)
    requires
        is_well_driven(netlist),
        count <= candidates.len(),
        are_good(
            candidates,
            |candidate: MuxCandidate|
                is_candidate(netlist.cells, candidate) && has_drivers(netlist.cells, candidate),
        ),
    ensures
        ({
            let wide = place_muxes(wide_start(netlist), candidates, count);
            stays_true(netlist, wide.netlist, top(wide)) && 0 < wide.next
        }),
    decreases count,
{
    let start = wide_start(netlist);
    if count == 0 {
        lemma_all_below(netlist);
        law_shown_is_kept(netlist);
        assert(all_below(netlist, top(start)));
    } else {
        let last = (count - 1) as nat;
        lemma_muxes_true(netlist, candidates, last);
        let wide = place_muxes(start, candidates, last);
        let candidate = candidates[last as int];
        let good = |candidate: MuxCandidate|
            is_candidate(netlist.cells, candidate) && has_drivers(netlist.cells, candidate);
        assert(good(candidate));
        lemma_place_muxes(|wire: u32| false, netlist, candidates, last);
        assert(wide.netlist.cells[candidates[last as int].root as int]
            == netlist.cells[candidate.root as int]);
        if can_place(wide, candidate) {
            assert(wide.netlist.cells[candidate.on_driver as int]
                == netlist.cells[candidate.on_driver as int]);
            assert(wide.netlist.cells[candidate.off_driver as int]
                == netlist.cells[candidate.off_driver as int]);
        }
        lemma_mux_true(netlist, wide, candidate);
    }
}

proof fn lemma_l6s_true(
    original: NetlistModel,
    netlist: NetlistModel,
    candidates: Seq<MuxCandidate>,
    count: nat,
    next: int,
)
    requires
        stays_true(original, netlist, next),
        count <= candidates.len(),
        are_good(candidates, |candidate: MuxCandidate| is_candidate(netlist.cells, candidate)),
    ensures
        stays_true(
            original,
            NetlistModel {
                cells: place_l6s(
                    L6Model { cells: netlist.cells, claimed: seq![] },
                    candidates,
                    count,
                ).cells,
                ..netlist
            },
            next,
        ),
    decreases count,
{
    let start = L6Model { cells: netlist.cells, claimed: seq![] };
    if count == 0 {
        lemma_true_alike(
            original,
            netlist,
            NetlistModel { cells: start.cells, ..netlist },
            next,
        );
    } else {
        let last = (count - 1) as nat;
        lemma_l6s_true(original, netlist, candidates, last, next);
        lemma_place_l6s(|wire: u32| false, netlist.cells, candidates, last);
        let l6 = place_l6s(start, candidates, last);
        let candidate = candidates[last as int];
        let good = |candidate: MuxCandidate| is_candidate(netlist.cells, candidate);
        assert(good(candidate));
        let root = candidate.root as int;
        assert(l6.cells[candidates[last as int].root as int] == netlist.cells[root]);
        let placed = place_l6(l6, candidate);
        let before = NetlistModel { cells: l6.cells, ..netlist };
        let after = NetlistModel { cells: placed.cells, ..netlist };
        if placed.cells != l6.cells {
            let cell = placed.cells[root];
            let source = before.cells[root];
            assert(after.cells == before.cells.update(root, cell));
            assert forall|values: spec_fn(u32) -> bool| cells_agree(values, before.cells)
                == #[trigger] cells_agree(values, after.cells) by {
                law_mux_inputs_select(values, source->Lut4_inputs, source->Lut4_init);
                assert(cell_agrees(values, source) == cell_agrees(values, cell));
                if cells_agree(values, before.cells) {
                    assert(cell_agrees(values, before.cells[root]));
                    assert forall|i: int| 0 <= i < after.cells.len() implies cell_agrees(
                        values,
                        #[trigger] after.cells[i],
                    ) by {
                        assert(cell_agrees(values, before.cells[i]));
                    }
                }
                if cells_agree(values, after.cells) {
                    assert(cell_agrees(values, after.cells[root]));
                    assert forall|i: int| 0 <= i < before.cells.len() implies cell_agrees(
                        values,
                        #[trigger] before.cells[i],
                    ) by {
                        assert(cell_agrees(values, after.cells[i]));
                    }
                }
            }
            assert(cell_outputs(cell) =~= cell_outputs(source));
            lemma_comb_exchange(before, after, root, cell);
            lemma_mux_reads(source);
            assert forall|i: int, wire: u32|
                0 <= i < after.cells.len() && #[trigger] reads(
                    after.cells[i],
                    wire,
                ) implies is_sourced(before, wire) by {
                assert(reads(before.cells[i], wire));
            }
            lemma_exchange_true(original, before, after, next);
        }
    }
}

/// Placing dedicated muxes keeps what is shown and leaves the netlist wired up.
pub proof fn law_muxes_keep_shown(netlist: NetlistModel)
    requires
        is_well_driven(netlist),
    ensures
        keeps_shown(netlist, with_l6_muxes(with_pfu_muxes(netlist))),
        is_well_driven(with_l6_muxes(with_pfu_muxes(netlist))),
        with_l6_muxes(with_pfu_muxes(netlist)).ports == netlist.ports,
{
    let candidates = mux_candidates(netlist.cells, depths_of(netlist), netlist.cells.len());
    lemma_cells_counted(netlist);
    lemma_mux_candidates(netlist.cells, depths_of(netlist), netlist.cells.len());
    lemma_muxes_true(netlist, candidates, candidates.len());
    let placed = place_muxes(wide_start(netlist), candidates, candidates.len());
    let wide = with_pfu_muxes(netlist);
    lemma_cells_counted(wide);
    let wider = l6_candidates(wide, depths_of(wide), wide.cells.len());
    lemma_l6_candidates(wide, depths_of(wide), wide.cells.len());
    lemma_l6s_true(netlist, wide, wider, wider.len(), top(placed));
}

} // verus!
