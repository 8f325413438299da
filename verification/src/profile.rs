//! Depth, period and routing summaries of a mapped netlist.

use std::collections::HashMap;

use vstd::prelude::*;

use crate::cells::{
    control_bits, lemma_wire_count_positive, wire_count, Bit, CellModel, Control, Ecp5Cell,
    RamPortModel,
};
use crate::netlist::{
    cell_models, count_map, fanout_map, loads, mapped_wire_fanouts, netlist_loads, Ecp5Netlist,
    NetlistModel,
};
use crate::timing::{
    arrivals_of, bit_depth, bit_lut_depth, delayed, depths_of, lemma_route_delay,
    mapped_lut_depths, mapped_output_period, mapped_setup_period, mapped_timing_arrivals,
    route_delay, routed_arrival, setup_period, wire_delay_ps,
};
use crate::wires::{increasing, insert_wire, lemma_sorted_wires, sorted_wires};

verus! {

/// Depth and period summary of a mapped netlist.
#[derive(Clone, Debug, Eq, PartialEq)]
pub struct MappedLutProfile {
    /// Largest LUT depth of a register's data input.
    pub data_depth: usize,
    /// Registers at that depth.
    pub critical_depth: Vec<usize>,
    /// Largest LUT depth of a data, control or constrained output bit.
    pub overall_depth: usize,
    /// Longest register-to-register period.
    pub data_period_ps: u32,
    /// Registers at that period.
    pub critical_timing: Vec<usize>,
    /// The period of each timed register.
    pub timing_endpoints: Vec<(usize, u32)>,
    /// Longest period of any synchronous or constrained path.
    pub overall_period_ps: u32,
}

/// What a [`MappedLutProfile`] holds.
#[verifier::ext_equal]
pub struct ProfileModel {
    pub data_depth: usize,
    pub critical_depth: Seq<usize>,
    pub overall_depth: usize,
    pub data_period_ps: u32,
    pub critical_timing: Seq<usize>,
    pub timing_endpoints: Seq<(usize, u32)>,
    pub overall_period_ps: u32,
}

impl View for MappedLutProfile {
    type V = ProfileModel;

    open spec fn view(&self) -> ProfileModel {
        ProfileModel {
            data_depth: self.data_depth,
            critical_depth: self.critical_depth@,
            overall_depth: self.overall_depth,
            data_period_ps: self.data_period_ps,
            critical_timing: self.critical_timing@,
            timing_endpoints: self.timing_endpoints@,
            overall_period_ps: self.overall_period_ps,
        }
    }
}

/// The position of each register and the depth of its data input.
pub open spec fn depth_endpoints(cells: Seq<CellModel>, depths: Map<u32, usize>) -> Seq<
    (usize, usize),
>
    decreases cells.len(),
{
    if cells.len() == 0 {
        seq![]
    } else {
        let rest = depth_endpoints(cells.drop_last(), depths);
        match cells.last() {
            CellModel::FlipFlop { data, .. } => rest.push(
                ((cells.len() - 1) as usize, bit_depth(data, depths)),
            ),
            _ => rest,
        }
    }
}

/// The largest depth among `endpoints`, or zero.
pub open spec fn largest_depth(endpoints: Seq<(usize, usize)>) -> usize
    decreases endpoints.len(),
{
    if endpoints.len() == 0 {
        0
    } else {
        let rest = largest_depth(endpoints.drop_last());
        if rest < endpoints.last().1 {
            endpoints.last().1
        } else {
            rest
        }
    }
}

/// The endpoints at `depth`; none when it is zero.
pub open spec fn at_depth(endpoints: Seq<(usize, usize)>, depth: usize) -> Seq<usize>
    decreases endpoints.len(),
{
    if endpoints.len() == 0 {
        seq![]
    } else {
        let rest = at_depth(endpoints.drop_last(), depth);
        if endpoints.last().1 == depth && depth > 0 {
            rest.push(endpoints.last().0)
        } else {
            rest
        }
    }
}

/// The position and period of each register with a timed data input.
pub open spec fn time_endpoints(
    cells: Seq<CellModel>,
    arrivals: Map<u32, u32>,
    fanouts: Map<u32, usize>,
) -> Seq<(usize, u32)>
    decreases cells.len(),
{
    if cells.len() == 0 {
        seq![]
    } else {
        let rest = time_endpoints(cells.drop_last(), arrivals, fanouts);
        match cells.last() {
            CellModel::FlipFlop { data, .. } => match setup_period(data, arrivals, fanouts) {
                Some(period) => rest.push(((cells.len() - 1) as usize, period)),
                None => rest,
            },
            _ => rest,
        }
    }
}

/// The largest period among `endpoints`, or zero.
pub open spec fn largest_period(endpoints: Seq<(usize, u32)>) -> u32
    decreases endpoints.len(),
{
    if endpoints.len() == 0 {
        0
    } else {
        let rest = largest_period(endpoints.drop_last());
        if rest < endpoints.last().1 {
            endpoints.last().1
        } else {
            rest
        }
    }
}

/// The endpoints at `period`; none when it is zero.
pub open spec fn at_period(endpoints: Seq<(usize, u32)>, period: u32) -> Seq<usize>
    decreases endpoints.len(),
{
    if endpoints.len() == 0 {
        seq![]
    } else {
        let rest = at_period(endpoints.drop_last(), period);
        if endpoints.last().1 == period && period > 0 {
            rest.push(endpoints.last().0)
        } else {
            rest
        }
    }
}

/// The control signals of an optional second RAM port.
pub open spec fn port_controls(port: Option<RamPortModel>) -> Seq<Bit> {
    match port {
        Some(port) => seq![port.write_enable.signal] + control_bits(port.read_enable)
            + control_bits(port.clock_enable),
        None => seq![],
    }
}

/// The clock-enable and RAM-enable signals that a cell reads.
pub open spec fn control_signals(cell: CellModel) -> Seq<Bit> {
    match cell {
        CellModel::FlipFlop { enable, .. } => control_bits(enable),
        CellModel::BlockRam { write_enable, read_enable, clock_enable, second_port, .. } => seq![
            write_enable.signal,
        ] + control_bits(read_enable) + control_bits(clock_enable) + port_controls(second_port),
        _ => seq![],
    }
}

/// The control signals of all cells.
pub open spec fn all_control_signals(cells: Seq<CellModel>) -> Seq<Bit>
    decreases cells.len(),
{
    if cells.len() == 0 {
        seq![]
    } else {
        all_control_signals(cells.drop_last()) + control_signals(cells.last())
    }
}

/// The constrained output bits.
pub open spec fn output_bits(outputs: Seq<(Bit, u32)>) -> Seq<Bit> {
    Seq::new(outputs.len(), |i: int| outputs[i].0)
}

/// The largest of `start` and the depths of `bits`.
pub open spec fn max_depth(start: usize, bits: Seq<Bit>, depths: Map<u32, usize>) -> usize
    decreases bits.len(),
{
    if bits.len() == 0 {
        start
    } else {
        let rest = max_depth(start, bits.drop_last(), depths);
        if rest < bit_depth(bits.last(), depths) {
            bit_depth(bits.last(), depths)
        } else {
            rest
        }
    }
}

/// The larger of a period and an optional one.
pub open spec fn max_with(period: u32, other: Option<u32>) -> u32 {
    match other {
        Some(other) => if period < other {
            other
        } else {
            period
        },
        None => period,
    }
}

/// The largest of `start` and the periods that registers reading `bits` need.
pub open spec fn max_setup(
    start: u32,
    bits: Seq<Bit>,
    arrivals: Map<u32, u32>,
    fanouts: Map<u32, usize>,
) -> u32
    decreases bits.len(),
{
    if bits.len() == 0 {
        start
    } else {
        max_with(
            max_setup(start, bits.drop_last(), arrivals, fanouts),
            setup_period(bits.last(), arrivals, fanouts),
        )
    }
}

/// The largest of `start` and the constrained output periods.
pub open spec fn max_output(
    start: u32,
    outputs: Seq<(Bit, u32)>,
    arrivals: Map<u32, u32>,
    fanouts: Map<u32, usize>,
) -> u32
    decreases outputs.len(),
{
    if outputs.len() == 0 {
        start
    } else {
        max_with(
            max_output(start, outputs.drop_last(), arrivals, fanouts),
            delayed(routed_arrival(outputs.last().0, arrivals, fanouts), outputs.last().1),
        )
    }
}

/// The depth and period summary of a netlist.
#[verifier::opaque]
pub open spec fn profile_of(netlist: NetlistModel) -> ProfileModel {
    let depths = depths_of(netlist);
    let arrivals = arrivals_of(netlist);
    let fanouts = fanout_map(netlist);
    let depth_ends = depth_endpoints(netlist.cells, depths);
    let time_ends = time_endpoints(netlist.cells, arrivals, fanouts);
    let data_depth = largest_depth(depth_ends);
    let data_period = largest_period(time_ends);
    let controls = all_control_signals(netlist.cells);
    let outputs = netlist.io_timing.output_delays_ps;
    ProfileModel {
        data_depth,
        critical_depth: at_depth(depth_ends, data_depth),
        overall_depth: max_depth(
            max_depth(data_depth, controls, depths),
            output_bits(outputs),
            depths,
        ),
        data_period_ps: data_period,
        critical_timing: at_period(time_ends, data_period),
        timing_endpoints: time_ends,
        overall_period_ps: max_output(
            max_setup(data_period, controls, arrivals, fanouts),
            outputs,
            arrivals,
            fanouts,
        ),
    }
}

fn push_control(bits: &mut Vec<Bit>, control: &Option<Control>)
    ensures
        final(bits)@ == old(bits)@ + control_bits(*control),
{
    if let Some(control) = control {
        bits.push(control.signal);
    }
    assert(bits@ =~= old(bits)@ + control_bits(*control));
}

fn push_control_signals(bits: &mut Vec<Bit>, cell: &Ecp5Cell)
    ensures
        final(bits)@ == old(bits)@ + control_signals(cell@),
{
    match cell {
        Ecp5Cell::FlipFlop { enable, .. } => {
            push_control(bits, enable);
        },
        Ecp5Cell::BlockRam { write_enable, read_enable, clock_enable, second_port, .. } => {
            bits.push(write_enable.signal);
            push_control(bits, read_enable);
            push_control(bits, clock_enable);
            if let Some(port) = second_port {
                bits.push(port.write_enable.signal);
                push_control(bits, &port.read_enable);
                push_control(bits, &port.clock_enable);
            }
        },
        _ => {},
    }
    assert(bits@ =~= old(bits)@ + control_signals(cell@));
}

fn list_control_signals(cells: &Vec<Ecp5Cell>) -> (bits: Vec<Bit>)
    ensures
        bits@ == all_control_signals(cell_models(cells@)),
{
    let ghost models = cell_models(cells@);
    let mut bits: Vec<Bit> = Vec::new();
    for i in 0..cells.len()
        invariant
            models == cell_models(cells@),
            bits@ == all_control_signals(models.take(i as int)),
    {
        assert(models.take(i + 1).drop_last() =~= models.take(i as int));
        push_control_signals(&mut bits, &cells[i]);
    }
    assert(models.take(models.len() as int) =~= models);
    bits
}

fn list_depth_endpoints(cells: &Vec<Ecp5Cell>, depths: &HashMap<u32, usize>) -> (ends: Vec<
    (usize, usize),
>)
    ensures
        ends@ == depth_endpoints(cell_models(cells@), depths@),
{
    let ghost models = cell_models(cells@);
    let mut ends: Vec<(usize, usize)> = Vec::new();
    for i in 0..cells.len()
        invariant
            models == cell_models(cells@),
            ends@ == depth_endpoints(models.take(i as int), depths@),
    {
        assert(models.take(i + 1).drop_last() =~= models.take(i as int));
        if let Ecp5Cell::FlipFlop { data, .. } = &cells[i] {
            ends.push((i, bit_lut_depth(*data, depths)));
        }
    }
    assert(models.take(models.len() as int) =~= models);
    ends
}

fn list_time_endpoints(
    cells: &Vec<Ecp5Cell>,
    arrivals: &HashMap<u32, u32>,
    fanouts: &HashMap<u32, usize>,
) -> (ends: Vec<(usize, u32)>)
    ensures
        ends@ == time_endpoints(cell_models(cells@), arrivals@, fanouts@),
{
    let ghost models = cell_models(cells@);
    let mut ends: Vec<(usize, u32)> = Vec::new();
    for i in 0..cells.len()
        invariant
            models == cell_models(cells@),
            ends@ == time_endpoints(models.take(i as int), arrivals@, fanouts@),
    {
        assert(models.take(i + 1).drop_last() =~= models.take(i as int));
        if let Ecp5Cell::FlipFlop { data, .. } = &cells[i] {
            if let Some(period) = mapped_setup_period(*data, arrivals, fanouts) {
                ends.push((i, period));
            }
        }
    }
    assert(models.take(models.len() as int) =~= models);
    ends
}

fn find_critical_depth(ends: &Vec<(usize, usize)>) -> (found: (usize, Vec<usize>))
    ensures
        found.0 == largest_depth(ends@),
        found.1@ == at_depth(ends@, found.0),
{
    let mut depth: usize = 0;
    for i in 0..ends.len()
        invariant
            depth == largest_depth(ends@.take(i as int)),
    {
        assert(ends@.take(i + 1).drop_last() =~= ends@.take(i as int));
        if depth < ends[i].1 {
            depth = ends[i].1;
        }
    }
    let mut critical: Vec<usize> = Vec::new();
    for i in 0..ends.len()
        invariant
            critical@ == at_depth(ends@.take(i as int), depth),
    {
        assert(ends@.take(i + 1).drop_last() =~= ends@.take(i as int));
        if ends[i].1 == depth && depth > 0 {
            critical.push(ends[i].0);
        }
    }
    assert(ends@.take(ends@.len() as int) =~= ends@);
    (depth, critical)
}

fn find_critical_period(ends: &Vec<(usize, u32)>) -> (found: (u32, Vec<usize>))
    ensures
        found.0 == largest_period(ends@),
        found.1@ == at_period(ends@, found.0),
{
    let mut period: u32 = 0;
    for i in 0..ends.len()
        invariant
            period == largest_period(ends@.take(i as int)),
    {
        assert(ends@.take(i + 1).drop_last() =~= ends@.take(i as int));
        if period < ends[i].1 {
            period = ends[i].1;
        }
    }
    let mut critical: Vec<usize> = Vec::new();
    for i in 0..ends.len()
        invariant
            critical@ == at_period(ends@.take(i as int), period),
    {
        assert(ends@.take(i + 1).drop_last() =~= ends@.take(i as int));
        if ends[i].1 == period && period > 0 {
            critical.push(ends[i].0);
        }
    }
    assert(ends@.take(ends@.len() as int) =~= ends@);
    (period, critical)
}

fn find_max_depth(start: usize, bits: &Vec<Bit>, depths: &HashMap<u32, usize>) -> (depth: usize)
    ensures
        depth == max_depth(start, bits@, depths@),
{
    let mut depth: usize = start;
    for i in 0..bits.len()
        invariant
            depth == max_depth(start, bits@.take(i as int), depths@),
    {
        assert(bits@.take(i + 1).drop_last() =~= bits@.take(i as int));
        let other: usize = bit_lut_depth(bits[i], depths);
        if depth < other {
            depth = other;
        }
    }
    assert(bits@.take(bits@.len() as int) =~= bits@);
    depth
}

fn take_max(period: u32, other: Option<u32>) -> (out: u32)
    ensures
        out == max_with(period, other),
{
    match other {
        Some(other) => if period < other {
            other
        } else {
            period
        },
        None => period,
    }
}

fn find_max_setup(
    start: u32,
    bits: &Vec<Bit>,
    arrivals: &HashMap<u32, u32>,
    fanouts: &HashMap<u32, usize>,
) -> (period: u32)
    ensures
        period == max_setup(start, bits@, arrivals@, fanouts@),
{
    let mut period: u32 = start;
    for i in 0..bits.len()
        invariant
            period == max_setup(start, bits@.take(i as int), arrivals@, fanouts@),
    {
        assert(bits@.take(i + 1).drop_last() =~= bits@.take(i as int));
        period = take_max(period, mapped_setup_period(bits[i], arrivals, fanouts));
    }
    assert(bits@.take(bits@.len() as int) =~= bits@);
    period
}

fn find_max_output(
    start: u32,
    outputs: &Vec<(Bit, u32)>,
    arrivals: &HashMap<u32, u32>,
    fanouts: &HashMap<u32, usize>,
) -> (period: u32)
    ensures
        period == max_output(start, outputs@, arrivals@, fanouts@),
{
    let mut period: u32 = start;
    for i in 0..outputs.len()
        invariant
            period == max_output(start, outputs@.take(i as int), arrivals@, fanouts@),
    {
        assert(outputs@.take(i + 1).drop_last() =~= outputs@.take(i as int));
        let other: Option<u32> = match mapped_output_period(outputs[i].0, arrivals, fanouts) {
            Some(time) => Some(time.saturating_add(outputs[i].1)),
            None => None,
        };
        period = take_max(period, other);
    }
    assert(outputs@.take(outputs@.len() as int) =~= outputs@);
    period
}

fn list_output_bits(outputs: &Vec<(Bit, u32)>) -> (bits: Vec<Bit>)
    ensures
        bits@ == output_bits(outputs@),
{
    let mut bits: Vec<Bit> = Vec::new();
    for i in 0..outputs.len()
        invariant
            bits@ == output_bits(outputs@).take(i as int),
    {
        bits.push(outputs[i].0);
        assert(bits@ =~= output_bits(outputs@).take(i + 1));
    }
    assert(bits@ =~= output_bits(outputs@));
    bits
}

/// The depth and period summary of a netlist.
pub fn mapped_lut_profile(netlist: &Ecp5Netlist) -> (profile: MappedLutProfile)
    ensures
        profile@ == profile_of(netlist@),
{
    proof {
        reveal(profile_of);
    }
    let depths = mapped_lut_depths(netlist);
    let controls = list_control_signals(&netlist.cells);
    let outputs = &netlist.io_timing.output_delays_ps;
    let depth_ends = list_depth_endpoints(&netlist.cells, &depths);
    let (data_depth, critical_depth) = find_critical_depth(&depth_ends);
    let overall_depth: usize = find_max_depth(
        find_max_depth(data_depth, &controls, &depths),
        &list_output_bits(outputs),
        &depths,
    );
    let arrivals = mapped_timing_arrivals(netlist);
    let fanouts = mapped_wire_fanouts(netlist);
    let timing_endpoints = list_time_endpoints(&netlist.cells, &arrivals, &fanouts);
    let (data_period_ps, critical_timing) = find_critical_period(&timing_endpoints);
    let overall_period_ps: u32 = find_max_output(
        find_max_setup(data_period_ps, &controls, &arrivals, &fanouts),
        outputs,
        &arrivals,
        &fanouts,
    );
    MappedLutProfile {
        data_depth,
        critical_depth,
        overall_depth,
        data_period_ps,
        critical_timing,
        timing_endpoints,
        overall_period_ps,
    }
}

/// The routing estimate of a net with `fanout` loads, once for each load.
pub open spec fn net_cost(fanout: nat) -> nat {
    route_delay(fanout) * fanout
}

/// The sum of `value` of the load count of each of the nets `wires`, whose
/// loads are `bits`.
pub open spec fn nets_sum(bits: Seq<Bit>, wires: Seq<u32>, value: spec_fn(nat) -> nat) -> nat
    decreases wires.len(),
{
    if wires.len() == 0 {
        0
    } else {
        nets_sum(bits, wires.drop_last(), value) + value(wire_count(bits, wires.last()))
    }
}

/// The routing estimates of all nets with loads `bits`.
pub open spec fn total_cost(bits: Seq<Bit>) -> nat {
    nets_sum(bits, sorted_wires(bits), |fanout: nat| net_cost(fanout))
}

/// The routing estimates of all loaded nets, up to the largest `u64`.
#[verifier::opaque]
pub open spec fn burden(netlist: NetlistModel) -> u64 {
    if total_cost(loads(netlist)) > u64::MAX {
        u64::MAX
    } else {
        total_cost(loads(netlist)) as u64
    }
}

proof fn lemma_sum_of_others(
    bits: Seq<Bit>,
    bit: Bit,
    wires: Seq<u32>,
    value: spec_fn(nat) -> nat,
)
    requires
        bit matches Bit::Wire(wire) ==> !wires.contains(wire),
    ensures
        nets_sum(bits.push(bit), wires, value) == nets_sum(bits, wires, value),
    decreases wires.len(),
{
    if wires.len() > 0 {
        assert(bits.push(bit).drop_last() =~= bits);
        assert(wires.contains(wires.last()));
        assert forall|w: u32| wires.drop_last().contains(w) implies wires.contains(w) by {
            let i = choose|i: int| 0 <= i < wires.drop_last().len() && wires.drop_last()[i] == w;
            assert(wires[i] == w);
        }
        lemma_sum_of_others(bits, bit, wires.drop_last(), value);
    }
}

proof fn lemma_sum_push(bits: Seq<Bit>, wire: u32, wires: Seq<u32>, value: spec_fn(nat) -> nat)
    requires
        increasing(wires),
        wires.contains(wire) || wire_count(bits, wire) == 0,
        value(0) == 0,
    ensures
        nets_sum(bits.push(Bit::Wire(wire)), insert_wire(wires, wire), value) + value(
            wire_count(bits, wire),
        ) == nets_sum(bits, wires, value) + value(wire_count(bits, wire) + 1),
    decreases wires.len(),
{
    let more = bits.push(Bit::Wire(wire));
    assert(more.drop_last() =~= bits);
    assert(wire_count(more, wire) == wire_count(bits, wire) + 1);
    if wires.len() == 0 {
        let inserted = insert_wire(wires, wire);
        assert(inserted.drop_last() =~= wires);
        assert(nets_sum(more, inserted, value) == nets_sum(more, inserted.drop_last(), value)
            + value(wire_count(more, wire)));
    } else if wires.last() < wire {
        if wires.contains(wire) {
            let i = choose|i: int| 0 <= i < wires.len() && wires[i] == wire;
            assert(wires[i] <= wires[wires.len() - 1]);
        }
        let inserted = insert_wire(wires, wire);
        assert(inserted.drop_last() =~= wires);
        lemma_sum_of_others(bits, Bit::Wire(wire), wires, value);
    } else if wires.last() == wire {
        if wires.drop_last().contains(wire) {
            let i = choose|i: int|
                0 <= i < wires.drop_last().len() && wires.drop_last()[i] == wire;
            assert(wires[i] < wires[wires.len() - 1]);
        }
        lemma_sum_of_others(bits, Bit::Wire(wire), wires.drop_last(), value);
    } else {
        let rest = wires.drop_last();
        if wires.contains(wire) {
            let i = choose|i: int| 0 <= i < wires.len() && wires[i] == wire;
            assert(rest[i] == wire);
        }
        lemma_sum_push(bits, wire, rest, value);
        let inserted = insert_wire(wires, wire);
        assert(inserted.drop_last() =~= insert_wire(rest, wire));
        assert(wire_count(more, wires.last()) == wire_count(bits, wires.last()));
    }
}

/// Adding one load changes one net only.
proof fn lemma_sorted_sum_push(bits: Seq<Bit>, bit: Bit, value: spec_fn(nat) -> nat)
    requires
        value(0) == 0,
    ensures
        match bit {
            Bit::Wire(wire) => nets_sum(bits.push(bit), sorted_wires(bits.push(bit)), value)
                + value(wire_count(bits, wire)) == nets_sum(bits, sorted_wires(bits), value)
                + value(wire_count(bits, wire) + 1),
            _ => nets_sum(bits.push(bit), sorted_wires(bits.push(bit)), value) == nets_sum(
                bits,
                sorted_wires(bits),
                value,
            ),
        },
{
    assert(bits.push(bit).drop_last() =~= bits);
    match bit {
        Bit::Wire(wire) => {
            lemma_sorted_wires(bits);
            lemma_wire_count_positive(bits, wire);
            assert(sorted_wires(bits).contains(wire) <==> bits.contains(Bit::Wire(wire)));
            lemma_sum_push(bits, wire, sorted_wires(bits), value);
        },
        _ => {
            lemma_sum_of_others(bits, bit, sorted_wires(bits), value);
        },
    }
}

proof fn lemma_count_sum(bits: Seq<Bit>)
    ensures
        nets_sum(bits, sorted_wires(bits), |count: nat| count) <= bits.len(),
    decreases bits.len(),
{
    if bits.len() > 0 {
        lemma_count_sum(bits.drop_last());
        assert(bits =~= bits.drop_last().push(bits.last()));
        lemma_sorted_sum_push(bits.drop_last(), bits.last(), |count: nat| count);
    }
}

proof fn lemma_cost_by_count(bits: Seq<Bit>, wires: Seq<u32>)
    requires
        bits.len() <= usize::MAX,
    ensures
        nets_sum(bits, wires, |fanout: nat| net_cost(fanout)) <= 2860 * nets_sum(
            bits,
            wires,
            |count: nat| count,
        ),
    decreases wires.len(),
{
    if wires.len() > 0 {
        lemma_cost_by_count(bits, wires.drop_last());
        lemma_wire_count_positive(bits, wires.last());
        lemma_net_cost_bound(wire_count(bits, wires.last()));
    }
}

proof fn lemma_net_cost_bound(fanout: nat)
    requires
        fanout <= u64::MAX,
    ensures
        net_cost(fanout) <= 2860 * fanout,
{
    lemma_route_delay(fanout);
    assert(route_delay(fanout) * fanout <= 2860 * fanout) by (nonlinear_arith)
        requires
            route_delay(fanout) <= 2860,
    ;
}

proof fn lemma_total_cost_bound(bits: Seq<Bit>)
    requires
        bits.len() <= usize::MAX,
    ensures
        total_cost(bits) <= 2860 * bits.len(),
{
    lemma_cost_by_count(bits, sorted_wires(bits));
    lemma_count_sum(bits);
}

fn cost_of_net(fanout: usize) -> (cost: u128)
    ensures
        cost == net_cost(fanout as nat),
        cost <= 2860 * fanout,
{
    let delay: u32 = wire_delay_ps(fanout);
    proof {
        lemma_net_cost_bound(fanout as nat);
    }
    assert(delay * fanout <= 2860 * fanout) by (nonlinear_arith)
        requires
            delay <= 2860,
    ;
    delay as u128 * fanout as u128
}

/// The routing estimates of all loaded nets. Growth of this value tracks the
/// placement pressure that added primitives create.
pub fn routing_burden(netlist: &Ecp5Netlist) -> (total: u64)
    ensures
        total == burden(netlist@),
{
    proof {
        reveal(burden);
    }
    broadcast use vstd::std_specs::hash::group_hash_axioms;

    let bits = netlist_loads(netlist);
    let mut counts: HashMap<u32, usize> = HashMap::new();
    let mut total: u128 = 0;
    assert(counts@ =~= count_map(bits@.take(0)));
    let ghost cost = |fanout: nat| net_cost(fanout);
    for i in 0..bits.len()
        invariant
            cost == (|fanout: nat| net_cost(fanout)),
            counts@ == count_map(bits@.take(i as int)),
            total == total_cost(bits@.take(i as int)),
    {
        let ghost before = bits@.take(i as int);
        let ghost after = bits@.take(i + 1);
        assert(after =~= before.push(bits@[i as int]));
        assert(after.drop_last() =~= before);
        proof {
            assert(net_cost(0) == 0) by (nonlinear_arith);
            lemma_sorted_sum_push(before, bits@[i as int], cost);
            lemma_total_cost_bound(before);
            lemma_total_cost_bound(after);
        }
        if let Bit::Wire(wire) = bits[i] {
            proof {
                lemma_wire_count_positive(before, wire);
            }
            let count: usize = match counts.get(&wire) {
                Some(count) => *count,
                None => 0,
            };
            assert(count == wire_count(before, wire));
            counts.insert(wire, count + 1);
            assert(counts@ =~= count_map(after));
            total = total + cost_of_net(count + 1) - cost_of_net(count);
        } else {
            assert(count_map(before) =~= count_map(after));
        }
    }
    assert(bits@.take(bits@.len() as int) =~= bits@);
    if total > u64::MAX as u128 {
        u64::MAX
    } else {
        total as u64
    }
}

proof fn lemma_endpoint_indices(
    cells: Seq<CellModel>,
    depths: Map<u32, usize>,
    arrivals: Map<u32, u32>,
    fanouts: Map<u32, usize>,
)
    requires
        cells.len() <= usize::MAX,
    ensures
        forall|k: int|
            0 <= k < depth_endpoints(cells, depths).len() ==> (#[trigger] depth_endpoints(
                cells,
                depths,
            )[k]).0 < cells.len(),
        forall|k: int|
            0 <= k < time_endpoints(cells, arrivals, fanouts).len() ==> (
            #[trigger] time_endpoints(cells, arrivals, fanouts)[k]).0 < cells.len(),
    decreases cells.len(),
{
    if cells.len() > 0 {
        lemma_endpoint_indices(cells.drop_last(), depths, arrivals, fanouts);
        let depth_rest = depth_endpoints(cells.drop_last(), depths);
        let depth_all = depth_endpoints(cells, depths);
        assert forall|k: int| 0 <= k < depth_all.len() implies (#[trigger] depth_all[k]).0
            < cells.len() by {
            if k < depth_rest.len() {
                assert(depth_rest[k].0 < cells.drop_last().len());
            }
        }
        let time_rest = time_endpoints(cells.drop_last(), arrivals, fanouts);
        let time_all = time_endpoints(cells, arrivals, fanouts);
        assert forall|k: int| 0 <= k < time_all.len() implies (#[trigger] time_all[k]).0
            < cells.len() by {
            if k < time_rest.len() {
                assert(time_rest[k].0 < cells.drop_last().len());
            }
        }
    }
}

proof fn lemma_at_depth(endpoints: Seq<(usize, usize)>, depth: usize, bound: int)
    requires
        forall|k: int| 0 <= k < endpoints.len() ==> (#[trigger] endpoints[k]).0 < bound,
    ensures
        forall|k: int|
            0 <= k < at_depth(endpoints, depth).len() ==> (#[trigger] at_depth(endpoints, depth)[k])
                < bound,
    decreases endpoints.len(),
{
    if endpoints.len() > 0 {
        lemma_at_depth(endpoints.drop_last(), depth, bound);
        let rest = at_depth(endpoints.drop_last(), depth);
        let all = at_depth(endpoints, depth);
        assert forall|k: int| 0 <= k < all.len() implies (#[trigger] all[k]) < bound by {
            if k < rest.len() {
                assert(rest[k] < bound);
            } else {
                assert(endpoints[endpoints.len() - 1].0 < bound);
            }
        }
    }
}

proof fn lemma_at_period(endpoints: Seq<(usize, u32)>, period: u32, bound: int)
    requires
        forall|k: int| 0 <= k < endpoints.len() ==> (#[trigger] endpoints[k]).0 < bound,
    ensures
        forall|k: int|
            0 <= k < at_period(endpoints, period).len() ==> (#[trigger] at_period(
                endpoints,
                period,
            )[k]) < bound,
    decreases endpoints.len(),
{
    if endpoints.len() > 0 {
        lemma_at_period(endpoints.drop_last(), period, bound);
        let rest = at_period(endpoints.drop_last(), period);
        let all = at_period(endpoints, period);
        assert forall|k: int| 0 <= k < all.len() implies (#[trigger] all[k]) < bound by {
            if k < rest.len() {
                assert(rest[k] < bound);
            } else {
                assert(endpoints[endpoints.len() - 1].0 < bound);
            }
        }
    }
}

/// The positions that a profile names are positions of cells.
pub proof fn lemma_profile_indices(netlist: NetlistModel)
    requires
        netlist.cells.len() <= usize::MAX,
    ensures
        forall|k: int|
            0 <= k < profile_of(netlist).critical_depth.len() ==> (#[trigger] profile_of(
                netlist,
            ).critical_depth[k]) < netlist.cells.len(),
        forall|k: int|
            0 <= k < profile_of(netlist).critical_timing.len() ==> (#[trigger] profile_of(
                netlist,
            ).critical_timing[k]) < netlist.cells.len(),
        forall|k: int|
            0 <= k < profile_of(netlist).timing_endpoints.len() ==> (#[trigger] profile_of(
                netlist,
            ).timing_endpoints[k]).0 < netlist.cells.len(),
{
    reveal(profile_of);
    let depths = depths_of(netlist);
    let arrivals = arrivals_of(netlist);
    let fanouts = fanout_map(netlist);
    let bound = netlist.cells.len() as int;
    lemma_endpoint_indices(netlist.cells, depths, arrivals, fanouts);
    let depth_ends = depth_endpoints(netlist.cells, depths);
    let time_ends = time_endpoints(netlist.cells, arrivals, fanouts);
    lemma_at_depth(depth_ends, largest_depth(depth_ends), bound);
    lemma_at_period(time_ends, largest_period(time_ends), bound);
}

} // verus!
