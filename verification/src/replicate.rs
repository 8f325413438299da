//! Replication of lookup tables that drive many clock enables.

use vstd::prelude::*;

use crate::cells::{clamped, mapped_cell_name, Bit, CellModel, Control, Ecp5Cell};
use crate::netlist::{
    cell_models, fanout_map, free_wire, mapped_wire_fanouts, next_free_wire, Ecp5Netlist,
    MappedEquivalenceProof, NetlistModel,
};
use crate::retime_lut::{find_lut, lemma_lut_from, lut_from};
use crate::text::{decimal, decimal_text, join};
use crate::timing::value_at;
use crate::wires::{distinct_wires, sorted_wires};

verus! {

/// The clock-enable signal of a register.
pub open spec fn enable_signal(cell: CellModel) -> Option<Bit> {
    match cell {
        CellModel::FlipFlop { enable: Some(enable), .. } => Some(enable.signal),
        _ => None,
    }
}

/// The clock-enable signals of all registers.
pub open spec fn enable_signals(cells: Seq<CellModel>) -> Seq<Bit>
    decreases cells.len(),
{
    if cells.len() == 0 {
        seq![]
    } else {
        let rest = enable_signals(cells.drop_last());
        match enable_signal(cells.last()) {
            Some(signal) => rest.push(signal),
            None => rest,
        }
    }
}

/// The positions of the registers that `wire` enables.
pub open spec fn enable_sinks(cells: Seq<CellModel>, wire: u32) -> Seq<usize>
    decreases cells.len(),
{
    if cells.len() == 0 {
        seq![]
    } else {
        let rest = enable_sinks(cells.drop_last(), wire);
        if enable_signal(cells.last()) == Some(Bit::Wire(wire)) {
            rest.push((cells.len() - 1) as usize)
        } else {
            rest
        }
    }
}

/// `cell` with its clock enable read from `wire`.
pub open spec fn with_enable(cell: CellModel, wire: u32) -> CellModel {
    match cell {
        CellModel::FlipFlop { name, data, output, clock, edge, enable: Some(enable), reset } =>
            CellModel::FlipFlop {
                name,
                data,
                output,
                clock,
                edge,
                enable: Some(Control { signal: Bit::Wire(wire), ..enable }),
                reset,
            },
        _ => cell,
    }
}

/// `cells` with the clock enables of the registers at `sinks` read from
/// `wire`.
pub open spec fn with_enables(cells: Seq<CellModel>, sinks: Seq<usize>, wire: u32) -> Seq<CellModel>
    decreases sinks.len(),
{
    if sinks.len() == 0 {
        cells
    } else {
        let rest = with_enables(cells, sinks.drop_last(), wire);
        rest.update(sinks.last() as int, with_enable(rest[sinks.last() as int], wire))
    }
}

/// Makes a register read its clock enable from `wire`.
pub fn set_enable(cell: &mut Ecp5Cell, wire: u32)
    ensures
        final(cell)@ == with_enable(old(cell)@, wire),
{
    if let Ecp5Cell::FlipFlop { enable, .. } = cell {
        if let Some(enable) = enable {
            enable.signal = Bit::Wire(wire);
        }
    }
}

/// Cells while enable drivers are being replicated.
#[verifier::ext_equal]
pub struct ReplicaModel {
    pub cells: Seq<CellModel>,
    pub next: u32,
    pub replicas: nat,
}

/// A replica of a lookup table.
pub open spec fn enable_replica(driver: CellModel, output: u32, replica: nat) -> CellModel {
    CellModel::Lut4 {
        name: "replicate_enable_"@ + driver.cell_name() + "_"@ + decimal_text(replica),
        inputs: driver->Lut4_inputs,
        output,
        init: driver->Lut4_init,
    }
}

/// `model` with the registers at `sinks`, from `from` on, enabled by replicas
/// of `driver`, `limit` registers to a replica. Nothing when wire numbers run
/// out.
pub open spec fn replicate_for(
    model: ReplicaModel,
    driver: CellModel,
    sinks: Seq<usize>,
    from: int,
    limit: nat,
    replica: nat,
) -> Option<ReplicaModel>
    decreases sinks.len() - from,
{
    if from < 0 || from >= sinks.len() || limit == 0 {
        Some(model)
    } else if model.next == u32::MAX {
        None
    } else {
        let to = if sinks.len() - from < limit {
            sinks.len() as int
        } else {
            from + limit
        };
        replicate_for(
            ReplicaModel {
                cells: with_enables(model.cells, sinks.subrange(from, to), model.next).push(
                    enable_replica(driver, model.next, replica),
                ),
                next: (model.next + 1) as u32,
                replicas: model.replicas + 1,
            },
            driver,
            sinks,
            to,
            limit,
            replica + 1,
        )
    }
}

/// Whether the fanout of `wire` calls for one replica: more than `limit` loads,
/// not more than twice as many, and more than `limit` clock enables.
pub open spec fn calls_for_replica(netlist: NetlistModel, wire: u32, limit: nat) -> bool {
    let fanout = match value_at(fanout_map(netlist), wire) {
        Some(fanout) => fanout as nat,
        None => 0,
    };
    limit < fanout <= 2 * limit && enable_sinks(netlist.cells, wire).len() > limit && lut_from(
        netlist.cells,
        wire,
        0,
    ) is Some
}

/// How many clock enables stay on the original driver: what its other loads
/// leave of the limit.
pub open spec fn retained_sinks(netlist: NetlistModel, wire: u32, limit: nat) -> nat {
    let fanout = value_at(fanout_map(netlist), wire)->0 as int;
    let sinks = enable_sinks(netlist.cells, wire).len() as int;
    let others = if fanout > sinks {
        fanout - sinks
    } else {
        0
    };
    let room = if limit > others {
        limit - others
    } else {
        0
    };
    (if room < sinks {
        room
    } else {
        sinks
    }) as nat
}

/// `model` with the driver of `wire` replicated, where its fanout calls for
/// it.
pub open spec fn replicate_wire(
    netlist: NetlistModel,
    model: ReplicaModel,
    wire: u32,
    limit: nat,
) -> Option<ReplicaModel> {
    if calls_for_replica(netlist, wire, limit) {
        replicate_for(
            model,
            netlist.cells[lut_from(netlist.cells, wire, 0)->0],
            enable_sinks(netlist.cells, wire),
            retained_sinks(netlist, wire, limit) as int,
            limit,
            0,
        )
    } else {
        Some(model)
    }
}

/// The first `count` of `wires` treated in order.
pub open spec fn replicate_wires(
    netlist: NetlistModel,
    model: ReplicaModel,
    wires: Seq<u32>,
    limit: nat,
    count: nat,
) -> Option<ReplicaModel>
    decreases count,
{
    if count == 0 {
        Some(model)
    } else {
        match replicate_wires(netlist, model, wires, limit, (count - 1) as nat) {
            Some(model) => replicate_wire(netlist, model, wires[count - 1], limit),
            None => None,
        }
    }
}

/// `netlist` with high-fanout enable drivers replicated once; unchanged when
/// wire numbers run out.
pub open spec fn replicated_enables(netlist: NetlistModel, max_fanout: usize) -> NetlistModel {
    let limit = if max_fanout == 0 {
        1nat
    } else {
        max_fanout as nat
    };
    let wires = sorted_wires(enable_signals(netlist.cells));
    match next_free_wire(netlist) {
        Some(next) => match replicate_wires(
            netlist,
            ReplicaModel { cells: netlist.cells, next, replicas: 0 },
            wires,
            limit,
            wires.len(),
        ) {
            Some(model) => NetlistModel {
                cells: model.cells,
                proof: MappedEquivalenceProof {
                    equivalent_logic_replications: clamped(
                        netlist.proof.equivalent_logic_replications as nat + model.replicas,
                    ),
                    ..netlist.proof
                },
                ..netlist
            },
            None => netlist,
        },
        None => netlist,
    }
}

fn read_enable_signal(cell: &Ecp5Cell) -> (signal: Option<Bit>)
    ensures
        signal == enable_signal(cell@),
{
    match cell {
        Ecp5Cell::FlipFlop { enable: Some(enable), .. } => Some(enable.signal),
        _ => None,
    }
}

/// The clock-enable signals of all registers.
pub fn list_enable_signals(cells: &Vec<Ecp5Cell>) -> (signals: Vec<Bit>)
    ensures
        signals@ == enable_signals(cell_models(cells@)),
{
    let ghost models = cell_models(cells@);
    let mut signals: Vec<Bit> = Vec::new();
    for i in 0..cells.len()
        invariant
            models == cell_models(cells@),
            signals@ == enable_signals(models.take(i as int)),
    {
        assert(models.take(i + 1).drop_last() =~= models.take(i as int));
        if let Some(signal) = read_enable_signal(&cells[i]) {
            signals.push(signal);
        }
    }
    assert(models.take(models.len() as int) =~= models);
    signals
}

/// The positions of the registers that `wire` enables.
pub fn list_enable_sinks(cells: &Vec<Ecp5Cell>, wire: u32) -> (sinks: Vec<usize>)
    ensures
        sinks@ == enable_sinks(cell_models(cells@), wire),
        forall|k: int| 0 <= k < sinks@.len() ==> (#[trigger] sinks@[k]) < cells@.len(),
{
    let ghost models = cell_models(cells@);
    let mut sinks: Vec<usize> = Vec::new();
    for i in 0..cells.len()
        invariant
            models == cell_models(cells@),
            sinks@ == enable_sinks(models.take(i as int), wire),
            forall|k: int| 0 <= k < sinks@.len() ==> (#[trigger] sinks@[k]) < i,
    {
        assert(models.take(i + 1).drop_last() =~= models.take(i as int));
        if let Some(signal) = read_enable_signal(&cells[i]) {
            if signal == Bit::Wire(wire) {
                sinks.push(i);
            }
        }
    }
    assert(models.take(models.len() as int) =~= models);
    sinks
}

fn set_enables(cells: &mut Vec<Ecp5Cell>, sinks: &Vec<usize>, from: usize, to: usize, wire: u32)
    requires
        from <= to <= sinks@.len(),
        forall|k: int| 0 <= k < sinks@.len() ==> (#[trigger] sinks@[k]) < old(cells)@.len(),
    ensures
        cell_models(final(cells)@) == with_enables(
            cell_models(old(cells)@),
            sinks@.subrange(from as int, to as int),
            wire,
        ),
        final(cells)@.len() == old(cells)@.len(),
{
    let ghost before = cell_models(cells@);
    let mut k: usize = from;
    assert(sinks@.subrange(from as int, from as int) =~= seq![]);
    while k < to
        invariant
            from <= k <= to <= sinks@.len(),
            cells@.len() == before.len(),
            forall|j: int| 0 <= j < sinks@.len() ==> (#[trigger] sinks@[j]) < before.len(),
            cell_models(cells@) == with_enables(
                before,
                sinks@.subrange(from as int, k as int),
                wire,
            ),
        decreases to - k,
    {
        let ghost prior = cell_models(cells@);
        let ghost grown = sinks@.subrange(from as int, k + 1);
        assert(grown.drop_last() =~= sinks@.subrange(from as int, k as int));
        assert(grown.last() == sinks@[k as int]);
        let sink: usize = sinks[k];
        set_enable(&mut cells[sink], wire);
        assert(cell_models(cells@) =~= prior.update(
            sink as int,
            with_enable(prior[sink as int], wire),
        ));
        k += 1;
    }
}

/// Next free wire and replicas so far.
struct ReplicaProgress {
    next: u32,
    replicas: usize,
}

fn replicate_driver(
    cells: &mut Vec<Ecp5Cell>,
    progress: &mut ReplicaProgress,
    driver: &Ecp5Cell,
    sinks: &Vec<usize>,
    retained: usize,
    limit: usize,
) -> (done: bool)
    requires
        driver@ is Lut4,
        limit > 0,
        retained <= sinks@.len(),
        forall|k: int| 0 <= k < sinks@.len() ==> (#[trigger] sinks@[k]) < old(cells)@.len(),
        old(progress).replicas < old(cells)@.len(),
    ensures
        final(cells)@.len() >= old(cells)@.len(),
        final(progress).replicas < final(cells)@.len(),
        match replicate_for(
            ReplicaModel {
                cells: cell_models(old(cells)@),
                next: old(progress).next,
                replicas: old(progress).replicas as nat,
            },
            driver@,
            sinks@,
            retained as int,
            limit as nat,
            0,
        ) {
            Some(model) => done && cell_models(final(cells)@) == model.cells
                && final(progress).next == model.next && final(progress).replicas
                == model.replicas,
            None => !done,
        },
{
    let ghost start = ReplicaModel {
        cells: cell_models(cells@),
        next: progress.next,
        replicas: progress.replicas as nat,
    };
    let ghost size = cells@.len();
    let (inputs, init): ([Bit; 4], u16) = match driver {
        Ecp5Cell::Lut4 { inputs, init, .. } => (*inputs, *init),
        _ => return true,
    };
    let mut stem = join("replicate_enable_", mapped_cell_name(driver).as_str());
    stem.append("_");
    let mut from: usize = retained;
    let mut replica: usize = 0;
    while from < sinks.len()
        invariant
            driver@ is Lut4,
            inputs == driver@->Lut4_inputs,
            init == driver@->Lut4_init,
            stem@ == "replicate_enable_"@ + driver@.cell_name() + "_"@,
            limit > 0,
            replica <= from <= sinks@.len(),
            size == old(cells)@.len(),
            start == (ReplicaModel {
                cells: cell_models(old(cells)@),
                next: old(progress).next,
                replicas: old(progress).replicas as nat,
            }),
            size <= cells@.len(),
            forall|k: int| 0 <= k < sinks@.len() ==> (#[trigger] sinks@[k]) < size,
            progress.replicas < cells@.len(),
            replicate_for(start, driver@, sinks@, retained as int, limit as nat, 0)
                == replicate_for(
                ReplicaModel {
                    cells: cell_models(cells@),
                    next: progress.next,
                    replicas: progress.replicas as nat,
                },
                driver@,
                sinks@,
                from as int,
                limit as nat,
                replica as nat,
            ),
        decreases sinks.len() - from,
    {
        if progress.next == u32::MAX {
            return false;
        }
        let to: usize = if sinks.len() - from < limit {
            sinks.len()
        } else {
            from + limit
        };
        let output: u32 = progress.next;
        set_enables(cells, sinks, from, to, output);
        let ghost moved = cell_models(cells@);
        let cell = Ecp5Cell::Lut4 {
            name: join(stem.as_str(), decimal(replica as u128).as_str()),
            inputs,
            output,
            init,
        };
        let ghost cell_model = cell@;
        assert(cell_model == enable_replica(driver@, output, replica as nat));
        cells.push(cell);
        assert(cell_models(cells@) =~= moved.push(cell_model));
        let count: usize = cells.len();
        progress.next = output + 1;
        progress.replicas = progress.replicas + 1;
        from = to;
        replica = replica + 1;
    }
    true
}

fn replicate_one(
    netlist: &Ecp5Netlist,
    fanouts: &std::collections::HashMap<u32, usize>,
    cells: &mut Vec<Ecp5Cell>,
    progress: &mut ReplicaProgress,
    wire: u32,
    limit: usize,
) -> (done: bool)
    requires
        fanouts@ == fanout_map(netlist@),
        limit > 0,
        old(cells)@.len() >= netlist.cells@.len(),
        old(progress).replicas < old(cells)@.len(),
    ensures
        final(cells)@.len() >= old(cells)@.len(),
        final(progress).replicas < final(cells)@.len(),
        match replicate_wire(
            netlist@,
            ReplicaModel {
                cells: cell_models(old(cells)@),
                next: old(progress).next,
                replicas: old(progress).replicas as nat,
            },
            wire,
            limit as nat,
        ) {
            Some(model) => done && cell_models(final(cells)@) == model.cells
                && final(progress).next == model.next && final(progress).replicas
                == model.replicas,
            None => !done,
        },
{
    broadcast use vstd::std_specs::hash::group_hash_axioms;

    let fanout: usize = match fanouts.get(&wire) {
        Some(fanout) => *fanout,
        None => 0,
    };
    if fanout <= limit || fanout - limit > limit {
        return true;
    }
    let sinks = list_enable_sinks(&netlist.cells, wire);
    if sinks.len() <= limit {
        return true;
    }
    match find_lut(&netlist.cells, wire) {
        Some(lut) => {
            proof {
                lemma_lut_from(netlist@.cells, wire, 0);
                assert(netlist@.cells[lut as int] == netlist.cells@[lut as int]@);
            }
            let others: usize = fanout.saturating_sub(sinks.len());
            let room: usize = limit.saturating_sub(others);
            let retained: usize = if room < sinks.len() {
                room
            } else {
                sinks.len()
            };
            replicate_driver(cells, progress, &netlist.cells[lut], &sinks, retained, limit)
        },
        None => true,
    }
}

/// Replicates, once, each lookup table that drives more than `max_fanout`
/// clock enables and at most twice as many loads.
pub fn replicate_high_fanout_enable_luts(netlist: &Ecp5Netlist, max_fanout: usize) -> (replicated:
    Ecp5Netlist)
    ensures
        replicated@ == replicated_enables(netlist@, max_fanout),
{
    let limit: usize = if max_fanout == 0 {
        1
    } else {
        max_fanout
    };
    let fanouts = mapped_wire_fanouts(netlist);
    let signals = list_enable_signals(&netlist.cells);
    let wires = distinct_wires(&signals);
    let next: u32 = match free_wire(netlist) {
        Some(next) => next,
        None => return netlist.clone(),
    };
    let mut candidate = netlist.clone();
    if netlist.cells.len() == 0 {
        assert(signals@ =~= seq![]);
        assert(candidate@ =~= replicated_enables(netlist@, max_fanout));
        return candidate;
    }
    let ghost start = ReplicaModel { cells: netlist@.cells, next, replicas: 0 };
    let mut progress = ReplicaProgress { next, replicas: 0 };
    for i in 0..wires.len()
        invariant
            limit > 0,
            limit == if max_fanout == 0 {
                1
            } else {
                max_fanout
            },
            wires@ == sorted_wires(enable_signals(netlist@.cells)),
            next_free_wire(netlist@) == Some(next),
            start == (ReplicaModel { cells: netlist@.cells, next, replicas: 0 }),
            fanouts@ == fanout_map(netlist@),
            candidate@ == (NetlistModel { cells: cell_models(candidate.cells@), ..netlist@ }),
            candidate.cells@.len() >= netlist.cells@.len(),
            progress.replicas < candidate.cells@.len(),
            replicate_wires(netlist@, start, wires@, limit as nat, i as nat) == Some(
                ReplicaModel {
                    cells: cell_models(candidate.cells@),
                    next: progress.next,
                    replicas: progress.replicas as nat,
                },
            ),
    {
        if !replicate_one(
            netlist,
            &fanouts,
            &mut candidate.cells,
            &mut progress,
            wires[i],
            limit,
        ) {
            proof {
                lemma_stays_none(
                    netlist@,
                    start,
                    wires@,
                    limit as nat,
                    (i + 1) as nat,
                    wires@.len(),
                );
            }
            return netlist.clone();
        }
    }
    candidate.equivalence_proof.equivalent_logic_replications =
    candidate.equivalence_proof.equivalent_logic_replications.saturating_add(progress.replicas);
    assert(candidate@ =~= replicated_enables(netlist@, max_fanout));
    candidate
}

proof fn lemma_stays_none(
    netlist: NetlistModel,
    model: ReplicaModel,
    wires: Seq<u32>,
    limit: nat,
    count: nat,
    total: nat,
)
    requires
        replicate_wires(netlist, model, wires, limit, count) is None,
        count <= total,
    ensures
        replicate_wires(netlist, model, wires, limit, total) is None,
    decreases total - count,
{
    if count < total {
        lemma_stays_none(netlist, model, wires, limit, count, (total - 1) as nat);
    }
}

/// The fanout of `bit` where a lookup table drives it and one replica could
/// halve it.
pub open spec fn replicable_fanout(netlist: NetlistModel, bit: Bit, max_fanout: usize) -> usize {
    match bit {
        Bit::Wire(wire) => match value_at(fanout_map(netlist), wire) {
            Some(fanout) => if lut_from(netlist.cells, wire, 0) is Some && fanout <= 2
                * max_fanout {
                fanout
            } else {
                0
            },
            None => 0,
        },
        _ => 0,
    }
}

/// The largest replicable fanout among `signals`.
pub open spec fn largest_replicable(
    netlist: NetlistModel,
    signals: Seq<Bit>,
    max_fanout: usize,
) -> usize
    decreases signals.len(),
{
    if signals.len() == 0 {
        0
    } else {
        let rest = largest_replicable(netlist, signals.drop_last(), max_fanout);
        let last = replicable_fanout(netlist, signals.last(), max_fanout);
        if rest < last {
            last
        } else {
            rest
        }
    }
}

/// The largest fanout of an enable driver that one replica could halve.
pub open spec fn replicable_enable_fanout(netlist: NetlistModel, max_fanout: usize) -> usize {
    largest_replicable(netlist, enable_signals(netlist.cells), max_fanout)
}

/// The largest fanout of an enable driver that one replica could halve.
pub fn maximum_replicable_enable_fanout(netlist: &Ecp5Netlist, max_fanout: usize) -> (largest:
    usize)
    ensures
        largest == replicable_enable_fanout(netlist@, max_fanout),
{
    broadcast use vstd::std_specs::hash::group_hash_axioms;

    let fanouts = mapped_wire_fanouts(netlist);
    let signals = list_enable_signals(&netlist.cells);
    let mut largest: usize = 0;
    for i in 0..signals.len()
        invariant
            fanouts@ == fanout_map(netlist@),
            largest == largest_replicable(netlist@, signals@.take(i as int), max_fanout),
    {
        assert(signals@.take(i + 1).drop_last() =~= signals@.take(i as int));
        if let Bit::Wire(wire) = signals[i] {
            if let Some(fanout) = fanouts.get(&wire) {
                let small: bool = *fanout <= max_fanout || *fanout - max_fanout <= max_fanout;
                if small && *fanout > largest && find_lut(&netlist.cells, wire).is_some() {
                    largest = *fanout;
                }
            }
        }
    }
    assert(signals@.take(signals@.len() as int) =~= signals@);
    largest
}

} // verus!
