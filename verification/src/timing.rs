//! Structural depth and timing estimates of a mapped netlist.

use std::collections::HashMap;
use std::collections::HashSet;

use vstd::prelude::*;

use crate::cells::{clamped, Bit, CellModel, Ecp5Cell, Ecp5MemoryImplementation, RamPortModel};
use crate::netlist::{
    cell_models, fanout_map, loads, mapped_wire_fanouts, Ecp5Netlist, NetlistModel,
};
use crate::wires::assignments;

verus! {

/// Conservative pre-route delay of a lookup table.
pub const LUT_DELAY_PS: u32 = 100;

/// Route delay of a net with one load.
pub const ROUTE_BASE_PS: u32 = 300;

/// Route delay added by each doubling of the fanout.
pub const ROUTE_FANOUT_STEP_PS: u32 = 40;

/// Delay from a pin of a carry slice to its carry logic.
pub const CCU_INPUT_PS: u32 = 200;

/// Delay of one carry hop.
pub const CCU_CARRY_PS: u32 = 60;

/// Delay from carry logic to a sum output.
pub const CCU_SUM_PS: u32 = 100;

/// Clock-to-output delay of block RAM.
pub const BRAM_CLOCK_TO_OUTPUT_PS: u32 = 850;

/// Clock-to-output delay of a flip-flop.
pub const FLIP_FLOP_CLOCK_TO_OUTPUT_PS: u32 = 300;

/// Setup time of a flip-flop.
pub const FLIP_FLOP_SETUP_PS: u32 = 120;

/// Setup time of block RAM.
pub const BRAM_SETUP_PS: u32 = 300;

/// Routing guard charged to each ordinary hop once primitives are fixed.
pub const MAPPED_ROUTE_GUARD_PS: u32 = 100;

/// Delay of the mux that joins two lookup tables.
pub const PFU_MUX_DELAY_PS: u32 = 100;

/// Delay of the mux that joins two wider functions.
pub const L6_MUX_DELAY_PS: u32 = 100;

/// Addition that stops at the largest `u32`.
pub open spec fn sat(a: int, b: int) -> u32 {
    if a + b > u32::MAX {
        u32::MAX
    } else {
        (a + b) as u32
    }
}

/// The number of binary digits of `n`; zero has none.
pub open spec fn bit_length(n: nat) -> nat
    decreases n,
{
    if n == 0 {
        0
    } else {
        1 + bit_length(n / 2)
    }
}

proof fn lemma_bit_length(n: nat, digits: nat)
    requires
        n < assignments(digits),
    ensures
        bit_length(n) <= digits,
    decreases digits,
{
    if n > 0 {
        assert(digits > 0);
        lemma_bit_length(n / 2, (digits - 1) as nat);
    }
}

proof fn lemma_word(n: nat)
    requires
        n <= u64::MAX,
    ensures
        bit_length(n) <= 64,
{
    assert(assignments(64) == 0x1_0000_0000_0000_0000) by {
        reveal_with_fuel(assignments, 65);
    }
    lemma_bit_length(n, 64);
}

/// The estimated route delay of a net with this many loads: a base and one
/// step for each doubling of the fanout.
pub open spec fn route_delay(fanout: nat) -> nat {
    let loads = if fanout == 0 {
        1nat
    } else {
        fanout
    };
    ROUTE_BASE_PS as nat + ROUTE_FANOUT_STEP_PS as nat * bit_length((loads - 1) as nat)
}

/// Route delays of machine-sized fanouts are small.
pub proof fn lemma_route_delay(fanout: nat)
    requires
        fanout <= u64::MAX,
    ensures
        route_delay(fanout) <= 2860,
{
    if fanout > 0 {
        lemma_word((fanout - 1) as nat);
    } else {
        lemma_word(0);
    }
}

/// The estimated route delay of a net with this many loads.
pub fn wire_delay_ps(fanout: usize) -> (delay: u32)
    ensures
        delay == route_delay(fanout as nat),
        delay <= 2860,
{
    let mut rest: usize = if fanout == 0 {
        0
    } else {
        fanout - 1
    };
    let ghost start = rest as nat;
    let mut levels: u32 = 0;
    proof {
        lemma_word(start);
    }
    while rest > 0
        invariant
            bit_length(start) <= 64,
            bit_length(start) == levels + bit_length(rest as nat),
        decreases rest,
    {
        rest = rest / 2;
        levels = levels + 1;
    }
    ROUTE_BASE_PS + ROUTE_FANOUT_STEP_PS * levels
}

/// The later of two optional times.
pub open spec fn later(a: Option<u32>, b: Option<u32>) -> Option<u32> {
    match (a, b) {
        (Some(x), Some(y)) => if x < y {
            b
        } else {
            a
        },
        (Some(_), None) => a,
        (None, _) => b,
    }
}

/// The later of two optional times.
pub fn take_later(a: Option<u32>, b: Option<u32>) -> (out: Option<u32>)
    ensures
        out == later(a, b),
{
    match (a, b) {
        (Some(x), Some(y)) => if x < y {
            b
        } else {
            a
        },
        (Some(_), None) => a,
        (None, _) => b,
    }
}

/// An optional time, moved later.
pub open spec fn delayed(time: Option<u32>, delay: u32) -> Option<u32> {
    match time {
        Some(time) => Some(sat(time as int, delay as int)),
        None => None,
    }
}

/// An optional time, moved later.
pub fn delay_by(time: Option<u32>, delay: u32) -> (out: Option<u32>)
    ensures
        out == delayed(time, delay),
{
    match time {
        Some(time) => Some(time.saturating_add(delay)),
        None => None,
    }
}

/// `map` with `value` at `wire`, where there is a value.
pub open spec fn with_value<V>(map: Map<u32, V>, wire: u32, value: Option<V>) -> Map<u32, V> {
    match value {
        Some(value) => map.insert(wire, value),
        None => map,
    }
}

/// `map` with `value` at every wire of `wires`, where there is a value.
pub open spec fn with_values<V>(map: Map<u32, V>, wires: Seq<u32>, value: Option<V>) -> Map<u32, V>
    decreases wires.len(),
{
    if wires.len() == 0 {
        map
    } else {
        with_value(with_values(map, wires.drop_last(), value), wires.last(), value)
    }
}

fn put_time(times: &mut HashMap<u32, u32>, wire: u32, value: Option<u32>) -> (changed: bool)
    ensures
        final(times)@ == with_value(old(times)@, wire, value),
        !changed ==> final(times)@ == old(times)@,
{
    broadcast use vstd::std_specs::hash::group_hash_axioms;

    match value {
        Some(value) => {
            let same: bool = match times.get(&wire) {
                Some(other) => *other == value,
                None => false,
            };
            times.insert(wire, value);
            if same {
                assert(times@ =~= old(times)@);
            }
            !same
        },
        None => false,
    }
}

fn put_times(times: &mut HashMap<u32, u32>, wires: &Vec<u32>, value: Option<u32>) -> (changed: bool)
    ensures
        final(times)@ == with_values(old(times)@, wires@, value),
        !changed ==> final(times)@ == old(times)@,
{
    let mut changed = false;
    for i in 0..wires.len()
        invariant
            times@ == with_values(old(times)@, wires@.take(i as int), value),
            !changed ==> times@ == old(times)@,
    {
        assert(wires@.take(i + 1).drop_last() =~= wires@.take(i as int));
        let now = put_time(times, wires[i], value);
        changed = changed || now;
    }
    assert(wires@.take(wires@.len() as int) =~= wires@);
    changed
}

fn put_depth(depths: &mut HashMap<u32, usize>, wire: u32, value: Option<usize>) -> (changed: bool)
    ensures
        final(depths)@ == with_value(old(depths)@, wire, value),
        !changed ==> final(depths)@ == old(depths)@,
{
    broadcast use vstd::std_specs::hash::group_hash_axioms;

    match value {
        Some(value) => {
            let same: bool = match depths.get(&wire) {
                Some(other) => *other == value,
                None => false,
            };
            depths.insert(wire, value);
            if same {
                assert(depths@ =~= old(depths)@);
            }
            !same
        },
        None => false,
    }
}

fn put_depths(depths: &mut HashMap<u32, usize>, wires: &Vec<u32>, value: Option<usize>)
    ensures
        final(depths)@ == with_values(old(depths)@, wires@, value),
{
    for i in 0..wires.len()
        invariant
            depths@ == with_values(old(depths)@, wires@.take(i as int), value),
    {
        assert(wires@.take(i + 1).drop_last() =~= wires@.take(i as int));
        put_depth(depths, wires[i], value);
    }
    assert(wires@.take(wires@.len() as int) =~= wires@);
}

/// The value at `wire`, if there is one.
pub open spec fn value_at<V>(map: Map<u32, V>, wire: u32) -> Option<V> {
    if map.dom().contains(wire) {
        Some(map[wire])
    } else {
        None
    }
}

fn time_at(times: &HashMap<u32, u32>, wire: u32) -> (time: Option<u32>)
    ensures
        time == value_at(times@, wire),
{
    broadcast use vstd::std_specs::hash::group_hash_axioms;

    match times.get(&wire) {
        Some(time) => Some(*time),
        None => None,
    }
}

fn depth_at(depths: &HashMap<u32, usize>, wire: u32) -> (depth: Option<usize>)
    ensures
        depth == value_at(depths@, wire),
{
    broadcast use vstd::std_specs::hash::group_hash_axioms;

    match depths.get(&wire) {
        Some(depth) => Some(*depth),
        None => None,
    }
}

/// The fanout recorded for `wire`, or one.
pub open spec fn fanout_at(fanouts: Map<u32, usize>, wire: u32) -> usize {
    match value_at(fanouts, wire) {
        Some(fanout) => fanout,
        None => 1,
    }
}

/// When `bit` arrives at a pin over ordinary routing.
pub open spec fn routed_arrival(
    bit: Bit,
    arrivals: Map<u32, u32>,
    fanouts: Map<u32, usize>,
) -> Option<u32> {
    match bit {
        Bit::Wire(wire) => delayed(
            delayed(
                value_at(arrivals, wire),
                route_delay(fanout_at(fanouts, wire) as nat) as u32,
            ),
            MAPPED_ROUTE_GUARD_PS,
        ),
        _ => None,
    }
}

/// When `bit` arrives at a pin over ordinary routing.
pub fn mapped_routed_arrival(
    bit: Bit,
    arrivals: &HashMap<u32, u32>,
    fanouts: &HashMap<u32, usize>,
) -> (arrival: Option<u32>)
    ensures
        arrival == routed_arrival(bit, arrivals@, fanouts@),
{
    match bit {
        Bit::Wire(wire) => {
            let fanout: usize = match depth_at(fanouts, wire) {
                Some(fanout) => fanout,
                None => 1,
            };
            delay_by(
                delay_by(time_at(arrivals, wire), wire_delay_ps(fanout)),
                MAPPED_ROUTE_GUARD_PS,
            )
        },
        _ => None,
    }
}

/// When `bit` arrives at a pin over dedicated wiring.
pub open spec fn dedicated_arrival(bit: Bit, arrivals: Map<u32, u32>) -> Option<u32> {
    match bit {
        Bit::Wire(wire) => value_at(arrivals, wire),
        _ => None,
    }
}

/// When `bit` arrives at a pin over dedicated wiring.
pub fn mapped_dedicated_arrival(bit: Bit, arrivals: &HashMap<u32, u32>) -> (arrival: Option<u32>)
    ensures
        arrival == dedicated_arrival(bit, arrivals@),
{
    match bit {
        Bit::Wire(wire) => time_at(arrivals, wire),
        _ => None,
    }
}

/// The period that a register reading `bit` needs.
pub open spec fn setup_period(
    bit: Bit,
    arrivals: Map<u32, u32>,
    fanouts: Map<u32, usize>,
) -> Option<u32> {
    delayed(routed_arrival(bit, arrivals, fanouts), FLIP_FLOP_SETUP_PS)
}

/// The period that a register reading `bit` needs.
pub fn mapped_setup_period(
    bit: Bit,
    arrivals: &HashMap<u32, u32>,
    fanouts: &HashMap<u32, usize>,
) -> (period: Option<u32>)
    ensures
        period == setup_period(bit, arrivals@, fanouts@),
{
    delay_by(mapped_routed_arrival(bit, arrivals, fanouts), FLIP_FLOP_SETUP_PS)
}

/// When `bit` arrives at an output.
pub fn mapped_output_period(
    bit: Bit,
    arrivals: &HashMap<u32, u32>,
    fanouts: &HashMap<u32, usize>,
) -> (period: Option<u32>)
    ensures
        period == routed_arrival(bit, arrivals@, fanouts@),
{
    mapped_routed_arrival(bit, arrivals, fanouts)
}

/// The latest of four routed pins.
pub open spec fn latest_pin(
    pins: [Bit; 4],
    arrivals: Map<u32, u32>,
    fanouts: Map<u32, usize>,
) -> Option<u32> {
    later(
        later(
            routed_arrival(pins[0], arrivals, fanouts),
            routed_arrival(pins[1], arrivals, fanouts),
        ),
        later(
            routed_arrival(pins[2], arrivals, fanouts),
            routed_arrival(pins[3], arrivals, fanouts),
        ),
    )
}

fn find_latest_pin(
    pins: &[Bit; 4],
    arrivals: &HashMap<u32, u32>,
    fanouts: &HashMap<u32, usize>,
) -> (latest: Option<u32>)
    ensures
        latest == latest_pin(*pins, arrivals@, fanouts@),
{
    take_later(
        take_later(
            mapped_routed_arrival(pins[0], arrivals, fanouts),
            mapped_routed_arrival(pins[1], arrivals, fanouts),
        ),
        take_later(
            mapped_routed_arrival(pins[2], arrivals, fanouts),
            mapped_routed_arrival(pins[3], arrivals, fanouts),
        ),
    )
}

/// When the four pins of a carry slice reach its carry logic.
pub open spec fn ccu_input_arrival(
    pins: [Bit; 4],
    arrivals: Map<u32, u32>,
    fanouts: Map<u32, usize>,
) -> Option<u32> {
    delayed(latest_pin(pins, arrivals, fanouts), CCU_INPUT_PS)
}

/// When the four pins of a carry slice reach its carry logic.
pub fn mapped_ccu_inputs(
    pins: [Bit; 4],
    arrivals: &HashMap<u32, u32>,
    fanouts: &HashMap<u32, usize>,
) -> (arrival: Option<u32>)
    ensures
        arrival == ccu_input_arrival(pins, arrivals@, fanouts@),
{
    delay_by(find_latest_pin(&pins, arrivals, fanouts), CCU_INPUT_PS)
}

/// Whether `wire` is the carry output of a carry primitive.
pub open spec fn is_carry_output(cells: Seq<CellModel>, wire: u32) -> bool {
    exists|i: int|
        0 <= i < cells.len() && (#[trigger] cells[i]) is Ccu2c && cells[i]->Ccu2c_carry_out == wire
}

/// The carry outputs.
pub open spec fn carry_wires(cells: Seq<CellModel>) -> Set<u32> {
    Set::new(|wire: u32| is_carry_output(cells, wire))
}

fn find_carry_wires(cells: &Vec<Ecp5Cell>) -> (wires: HashSet<u32>)
    ensures
        wires@ == carry_wires(cell_models(cells@)),
{
    broadcast use vstd::std_specs::hash::group_hash_axioms;

    let ghost models = cell_models(cells@);
    let mut wires: HashSet<u32> = HashSet::new();
    assert(wires@ =~= carry_wires(models.take(0)));
    for i in 0..cells.len()
        invariant
            models == cell_models(cells@),
            wires@ == carry_wires(models.take(i as int)),
    {
        let ghost before = models.take(i as int);
        let ghost after = models.take(i + 1);
        assert(after =~= before.push(models[i as int]));
        assert forall|wire: u32| is_carry_output(before, wire) implies is_carry_output(
            after,
            wire,
        ) by {
            let k = choose|k: int|
                0 <= k < before.len() && (#[trigger] before[k]) is Ccu2c
                    && before[k]->Ccu2c_carry_out == wire;
            assert(after[k] == before[k]);
        }
        if let Ecp5Cell::Ccu2c { carry_out, .. } = &cells[i] {
            wires.insert(*carry_out);
            assert(after[i as int] is Ccu2c);
            assert(wires@ =~= carry_wires(after)) by {
                assert forall|wire: u32| is_carry_output(after, wire) implies wires@.contains(
                    wire,
                ) by {
                    let k = choose|k: int|
                        0 <= k < after.len() && (#[trigger] after[k]) is Ccu2c
                            && after[k]->Ccu2c_carry_out == wire;
                    if k < i {
                        assert(before[k] == after[k]);
                    }
                }
            }
        } else {
            assert(wires@ =~= carry_wires(after)) by {
                assert forall|wire: u32| is_carry_output(after, wire) implies wires@.contains(
                    wire,
                ) by {
                    let k = choose|k: int|
                        0 <= k < after.len() && (#[trigger] after[k]) is Ccu2c
                            && after[k]->Ccu2c_carry_out == wire;
                    assert(before[k] == after[k]);
                }
            }
        }
    }
    assert(models.take(models.len() as int) =~= models);
    wires
}

/// When the carry input of a carry primitive reaches its carry logic.
pub open spec fn carry_arrival(
    carry_in: Bit,
    arrivals: Map<u32, u32>,
    fanouts: Map<u32, usize>,
    carries: Set<u32>,
) -> Option<u32> {
    match carry_in {
        Bit::Wire(wire) => if carries.contains(wire) {
            delayed(value_at(arrivals, wire), CCU_CARRY_PS)
        } else {
            delayed(routed_arrival(carry_in, arrivals, fanouts), CCU_INPUT_PS)
        },
        _ => None,
    }
}

/// The times at the outputs of `cell` once the times at its inputs are as in
/// `arrivals`.
pub open spec fn arrival_step(
    cell: CellModel,
    arrivals: Map<u32, u32>,
    fanouts: Map<u32, usize>,
    carries: Set<u32>,
) -> Map<u32, u32> {
    match cell {
        CellModel::Lut4 { inputs, output, .. } => with_value(
            arrivals,
            output,
            delayed(latest_pin(inputs, arrivals, fanouts), LUT_DELAY_PS),
        ),
        CellModel::PfuMux { lut_true, lut_false, select, output, .. } => with_value(
            arrivals,
            output,
            delayed(
                later(
                    later(
                        dedicated_arrival(lut_true, arrivals),
                        dedicated_arrival(lut_false, arrivals),
                    ),
                    routed_arrival(select, arrivals, fanouts),
                ),
                PFU_MUX_DELAY_PS,
            ),
        ),
        CellModel::L6Mux21 { data_zero, data_one, select, output, .. } => with_value(
            arrivals,
            output,
            delayed(
                later(
                    later(
                        dedicated_arrival(data_zero, arrivals),
                        dedicated_arrival(data_one, arrivals),
                    ),
                    routed_arrival(select, arrivals, fanouts),
                ),
                L6_MUX_DELAY_PS,
            ),
        ),
        CellModel::Ccu2c { inputs, carry_in, sums, carry_out, .. } => {
            let first = later(
                ccu_input_arrival(inputs[0], arrivals, fanouts),
                carry_arrival(carry_in, arrivals, fanouts, carries),
            );
            let second = later(
                ccu_input_arrival(inputs[1], arrivals, fanouts),
                delayed(first, CCU_CARRY_PS),
            );
            with_value(
                with_value(
                    with_value(arrivals, sums[0], delayed(first, CCU_SUM_PS)),
                    sums[1],
                    delayed(second, CCU_SUM_PS),
                ),
                carry_out,
                delayed(second, CCU_CARRY_PS),
            )
        },
        CellModel::BlockRam {
            implementation: Ecp5MemoryImplementation::Distributed,
            read_address,
            read_data,
            ..
        } => with_values(
            arrivals,
            read_data,
            delayed(latest_pin(first_pins(read_address), arrivals, fanouts), LUT_DELAY_PS),
        ),
        _ => arrivals,
    }
}

/// The first four address pins.
pub open spec fn first_pins(address: [Bit; 14]) -> [Bit; 4] {
    [address[0], address[1], address[2], address[3]]
}

fn step_arrivals(
    cell: &Ecp5Cell,
    arrivals: &mut HashMap<u32, u32>,
    fanouts: &HashMap<u32, usize>,
    carries: &HashSet<u32>,
) -> (changed: bool)
    ensures
        final(arrivals)@ == arrival_step(cell@, old(arrivals)@, fanouts@, carries@),
        !changed ==> final(arrivals)@ == old(arrivals)@,
{
    broadcast use vstd::std_specs::hash::group_hash_axioms;

    match cell {
        Ecp5Cell::Lut4 { inputs, output, .. } => {
            let time = delay_by(find_latest_pin(inputs, arrivals, fanouts), LUT_DELAY_PS);
            put_time(arrivals, *output, time)
        },
        Ecp5Cell::PfuMux { lut_true, lut_false, select, output, .. } => {
            let data = take_later(
                mapped_dedicated_arrival(*lut_true, arrivals),
                mapped_dedicated_arrival(*lut_false, arrivals),
            );
            let select_time = mapped_routed_arrival(*select, arrivals, fanouts);
            let time = delay_by(take_later(data, select_time), PFU_MUX_DELAY_PS);
            put_time(arrivals, *output, time)
        },
        Ecp5Cell::L6Mux21 { data_zero, data_one, select, output, .. } => {
            let data = take_later(
                mapped_dedicated_arrival(*data_zero, arrivals),
                mapped_dedicated_arrival(*data_one, arrivals),
            );
            let select_time = mapped_routed_arrival(*select, arrivals, fanouts);
            let time = delay_by(take_later(data, select_time), L6_MUX_DELAY_PS);
            put_time(arrivals, *output, time)
        },
        Ecp5Cell::Ccu2c { inputs, carry_in, sums, carry_out, .. } => {
            let carry: Option<u32> = match carry_in {
                Bit::Wire(wire) => if carries.contains(wire) {
                    delay_by(time_at(arrivals, *wire), CCU_CARRY_PS)
                } else {
                    delay_by(mapped_routed_arrival(*carry_in, arrivals, fanouts), CCU_INPUT_PS)
                },
                _ => None,
            };
            let first = take_later(mapped_ccu_inputs(inputs[0], arrivals, fanouts), carry);
            let second = take_later(
                mapped_ccu_inputs(inputs[1], arrivals, fanouts),
                delay_by(first, CCU_CARRY_PS),
            );
            let one = put_time(arrivals, sums[0], delay_by(first, CCU_SUM_PS));
            let two = put_time(arrivals, sums[1], delay_by(second, CCU_SUM_PS));
            let three = put_time(arrivals, *carry_out, delay_by(second, CCU_CARRY_PS));
            one || two || three
        },
        Ecp5Cell::BlockRam {
            implementation: Ecp5MemoryImplementation::Distributed,
            read_address,
            read_data,
            ..
        } => {
            let pins = [read_address[0], read_address[1], read_address[2], read_address[3]];
            assert(pins =~= first_pins(**read_address));
            let time = delay_by(find_latest_pin(&pins, arrivals, fanouts), LUT_DELAY_PS);
            put_times(arrivals, read_data, time)
        },
        _ => false,
    }
}

/// One pass of `arrival_step` over the cells, in order.
pub open spec fn arrival_pass(
    cells: Seq<CellModel>,
    arrivals: Map<u32, u32>,
    fanouts: Map<u32, usize>,
    carries: Set<u32>,
) -> Map<u32, u32>
    decreases cells.len(),
{
    if cells.len() == 0 {
        arrivals
    } else {
        arrival_step(
            cells.last(),
            arrival_pass(cells.drop_last(), arrivals, fanouts, carries),
            fanouts,
            carries,
        )
    }
}

/// `count` passes.
pub open spec fn arrival_passes(
    cells: Seq<CellModel>,
    arrivals: Map<u32, u32>,
    fanouts: Map<u32, usize>,
    carries: Set<u32>,
    count: nat,
) -> Map<u32, u32>
    decreases count,
{
    if count == 0 {
        arrivals
    } else {
        arrival_passes(
            cells,
            arrival_pass(cells, arrivals, fanouts, carries),
            fanouts,
            carries,
            (count - 1) as nat,
        )
    }
}

proof fn lemma_arrivals_settled(
    cells: Seq<CellModel>,
    arrivals: Map<u32, u32>,
    fanouts: Map<u32, usize>,
    carries: Set<u32>,
    count: nat,
)
    requires
        arrival_pass(cells, arrivals, fanouts, carries) == arrivals,
    ensures
        arrival_passes(cells, arrivals, fanouts, carries, count) == arrivals,
    decreases count,
{
    if count > 0 {
        lemma_arrivals_settled(cells, arrivals, fanouts, carries, (count - 1) as nat);
    }
}

/// The read-data wires of an optional second port.
pub open spec fn second_read_data(port: Option<RamPortModel>) -> Seq<u32> {
    match port {
        Some(port) => port.read_data,
        None => seq![],
    }
}

/// `values` with what `cell` launches: registers and block RAM launch at the
/// clock edge, distributed RAM behind one table.
pub open spec fn launched<V>(
    cell: CellModel,
    values: Map<u32, V>,
    register: V,
    block: V,
    distributed: V,
) -> Map<u32, V> {
    match cell {
        CellModel::FlipFlop { output, .. } => values.insert(output, register),
        CellModel::BlockRam {
            implementation: Ecp5MemoryImplementation::Block,
            read_data,
            second_port,
            ..
        } => with_values(
            with_values(values, read_data, Some(block)),
            second_read_data(second_port),
            Some(block),
        ),
        CellModel::BlockRam {
            implementation: Ecp5MemoryImplementation::Distributed,
            read_data,
            ..
        } => with_values(values, read_data, Some(distributed)),
        _ => values,
    }
}

/// `values` with what the cells launch, in order.
pub open spec fn all_launched<V>(
    cells: Seq<CellModel>,
    values: Map<u32, V>,
    register: V,
    block: V,
    distributed: V,
) -> Map<u32, V>
    decreases cells.len(),
{
    if cells.len() == 0 {
        values
    } else {
        launched(
            cells.last(),
            all_launched(cells.drop_last(), values, register, block, distributed),
            register,
            block,
            distributed,
        )
    }
}

/// The constrained input arrivals.
pub open spec fn input_times(inputs: Seq<(u32, u32)>) -> Map<u32, u32>
    decreases inputs.len(),
{
    if inputs.len() == 0 {
        Map::empty()
    } else {
        input_times(inputs.drop_last()).insert(inputs.last().0, inputs.last().1)
    }
}

/// Depth zero at each constrained input.
pub open spec fn input_depths(inputs: Seq<(u32, u32)>) -> Map<u32, usize>
    decreases inputs.len(),
{
    if inputs.len() == 0 {
        Map::empty()
    } else {
        input_depths(inputs.drop_last()).insert(inputs.last().0, 0)
    }
}

/// The arrival time of each timed wire: launch times, propagated through as
/// many passes as there are cells.
pub open spec fn arrivals_of(netlist: NetlistModel) -> Map<u32, u32> {
    arrival_passes(
        netlist.cells,
        all_launched(
            netlist.cells,
            input_times(netlist.io_timing.input_arrivals_ps),
            FLIP_FLOP_CLOCK_TO_OUTPUT_PS,
            BRAM_CLOCK_TO_OUTPUT_PS,
            LUT_DELAY_PS,
        ),
        fanout_map(netlist),
        carry_wires(netlist.cells),
        netlist.cells.len(),
    )
}

fn launch_times(netlist: &Ecp5Netlist) -> (times: HashMap<u32, u32>)
    ensures
        times@ == all_launched(
            netlist@.cells,
            input_times(netlist@.io_timing.input_arrivals_ps),
            FLIP_FLOP_CLOCK_TO_OUTPUT_PS,
            BRAM_CLOCK_TO_OUTPUT_PS,
            LUT_DELAY_PS,
        ),
{
    broadcast use vstd::std_specs::hash::group_hash_axioms;

    let mut times: HashMap<u32, u32> = HashMap::new();
    let inputs = &netlist.io_timing.input_arrivals_ps;
    assert(times@ =~= input_times(inputs@.take(0)));
    for i in 0..inputs.len()
        invariant
            times@ == input_times(inputs@.take(i as int)),
    {
        assert(inputs@.take(i + 1).drop_last() =~= inputs@.take(i as int));
        times.insert(inputs[i].0, inputs[i].1);
    }
    assert(inputs@.take(inputs@.len() as int) =~= inputs@);
    let ghost start = times@;
    let ghost models = netlist@.cells;
    for i in 0..netlist.cells.len()
        invariant
            models == cell_models(netlist.cells@),
            times@ == all_launched(
                models.take(i as int),
                start,
                FLIP_FLOP_CLOCK_TO_OUTPUT_PS,
                BRAM_CLOCK_TO_OUTPUT_PS,
                LUT_DELAY_PS,
            ),
    {
        assert(models.take(i + 1).drop_last() =~= models.take(i as int));
        match &netlist.cells[i] {
            Ecp5Cell::FlipFlop { output, .. } => {
                times.insert(*output, FLIP_FLOP_CLOCK_TO_OUTPUT_PS);
            },
            Ecp5Cell::BlockRam {
                implementation: Ecp5MemoryImplementation::Block,
                read_data,
                second_port,
                ..
            } => {
                put_times(&mut times, read_data, Some(BRAM_CLOCK_TO_OUTPUT_PS));
                if let Some(port) = second_port {
                    put_times(&mut times, &port.read_data, Some(BRAM_CLOCK_TO_OUTPUT_PS));
                }
            },
            Ecp5Cell::BlockRam {
                implementation: Ecp5MemoryImplementation::Distributed,
                read_data,
                ..
            } => {
                put_times(&mut times, read_data, Some(LUT_DELAY_PS));
            },
            _ => {},
        }
    }
    assert(models.take(models.len() as int) =~= models);
    times
}

/// The arrival time of each timed wire.
pub fn mapped_timing_arrivals(netlist: &Ecp5Netlist) -> (arrivals: HashMap<u32, u32>)
    ensures
        arrivals@ == arrivals_of(netlist@),
{
    let fanouts = mapped_wire_fanouts(netlist);
    let carries = find_carry_wires(&netlist.cells);
    let mut arrivals = launch_times(netlist);
    let ghost models = netlist@.cells;
    let count: usize = netlist.cells.len();
    let mut round: usize = 0;
    while round < count
        invariant
            round <= count,
            models == cell_models(netlist.cells@),
            count == models.len(),
            fanouts@ == fanout_map(netlist@),
            carries@ == carry_wires(models),
            arrivals_of(netlist@) == arrival_passes(
                models,
                arrivals@,
                fanouts@,
                carries@,
                (count - round) as nat,
            ),
        decreases count - round,
    {
        let ghost before = arrivals@;
        let mut changed = false;
        for i in 0..count
            invariant
                models == cell_models(netlist.cells@),
                count == models.len(),
                arrivals@ == arrival_pass(models.take(i as int), before, fanouts@, carries@),
                !changed ==> arrivals@ == before,
        {
            assert(models.take(i + 1).drop_last() =~= models.take(i as int));
            let now = step_arrivals(&netlist.cells[i], &mut arrivals, &fanouts, &carries);
            changed = changed || now;
        }
        assert(models.take(models.len() as int) =~= models);
        if !changed {
            proof {
                lemma_arrivals_settled(
                    models,
                    before,
                    fanouts@,
                    carries@,
                    (count - round) as nat,
                );
            }
            return arrivals;
        }
        round += 1;
    }
    arrivals
}

/// The larger of two optional depths.
pub open spec fn deeper(a: Option<usize>, b: Option<usize>) -> Option<usize> {
    match (a, b) {
        (Some(x), Some(y)) => if x < y {
            b
        } else {
            a
        },
        (Some(_), None) => a,
        (None, _) => b,
    }
}

/// The depth recorded for a bit.
pub open spec fn depth_of(bit: Bit, depths: Map<u32, usize>) -> Option<usize> {
    match bit {
        Bit::Wire(wire) => value_at(depths, wire),
        _ => None,
    }
}

/// The largest depth recorded among `bits`.
pub open spec fn deepest(bits: Seq<Bit>, depths: Map<u32, usize>) -> Option<usize>
    decreases bits.len(),
{
    if bits.len() == 0 {
        None
    } else {
        deeper(deepest(bits.drop_last(), depths), depth_of(bits.last(), depths))
    }
}

/// One level more.
pub open spec fn one_deeper(depth: Option<usize>) -> Option<usize> {
    match depth {
        Some(depth) => Some(clamped(depth as nat + 1)),
        None => None,
    }
}

fn find_deepest(bits: &Vec<Bit>, depths: &HashMap<u32, usize>) -> (depth: Option<usize>)
    ensures
        depth == deepest(bits@, depths@),
{
    let mut depth: Option<usize> = None;
    for i in 0..bits.len()
        invariant
            depth == deepest(bits@.take(i as int), depths@),
    {
        assert(bits@.take(i + 1).drop_last() =~= bits@.take(i as int));
        let other: Option<usize> = match bits[i] {
            Bit::Wire(wire) => depth_at(depths, wire),
            _ => None,
        };
        depth = match (depth, other) {
            (Some(x), Some(y)) => if x < y {
                other
            } else {
                depth
            },
            (Some(_), None) => depth,
            (None, _) => other,
        };
    }
    assert(bits@.take(bits@.len() as int) =~= bits@);
    depth
}

fn step_deeper(depth: Option<usize>) -> (out: Option<usize>)
    ensures
        out == one_deeper(depth),
{
    match depth {
        Some(depth) => Some(depth.saturating_add(1)),
        None => None,
    }
}

/// `depths` with each of `outputs` one level behind `inputs`, one by one.
pub open spec fn with_levels(
    inputs: Seq<Bit>,
    outputs: Seq<u32>,
    depths: Map<u32, usize>,
) -> Map<u32, usize>
    decreases outputs.len(),
{
    if outputs.len() == 0 {
        depths
    } else {
        let rest = with_levels(inputs, outputs.drop_last(), depths);
        with_value(rest, outputs.last(), one_deeper(deepest(inputs, rest)))
    }
}

/// The depths at the outputs of `cell` once those at its inputs are as in
/// `depths`. A carry primitive adds no level.
pub open spec fn depth_step(cell: CellModel, depths: Map<u32, usize>) -> Map<u32, usize> {
    match cell {
        CellModel::Lut4 { inputs, output, .. } => with_levels(inputs@, seq![output], depths),
        CellModel::PfuMux { lut_true, lut_false, select, output, .. } => with_levels(
            seq![lut_true, lut_false, select],
            seq![output],
            depths,
        ),
        CellModel::L6Mux21 { data_zero, data_one, select, output, .. } => with_levels(
            seq![data_zero, data_one, select],
            seq![output],
            depths,
        ),
        CellModel::Ccu2c { inputs, carry_in, sums, carry_out, .. } => with_values(
            depths,
            seq![sums[0], sums[1], carry_out],
            deepest(inputs[0]@ + inputs[1]@ + seq![carry_in], depths),
        ),
        CellModel::BlockRam {
            implementation: Ecp5MemoryImplementation::Distributed,
            read_address,
            read_data,
            ..
        } => with_levels(read_address@.take(4), read_data, depths),
        _ => depths,
    }
}

fn put_levels(inputs: &Vec<Bit>, outputs: &Vec<u32>, depths: &mut HashMap<u32, usize>) -> (changed:
    bool)
    ensures
        final(depths)@ == with_levels(inputs@, outputs@, old(depths)@),
        !changed ==> final(depths)@ == old(depths)@,
{
    let mut changed = false;
    for i in 0..outputs.len()
        invariant
            depths@ == with_levels(inputs@, outputs@.take(i as int), old(depths)@),
            !changed ==> depths@ == old(depths)@,
    {
        assert(outputs@.take(i + 1).drop_last() =~= outputs@.take(i as int));
        let depth = step_deeper(find_deepest(inputs, depths));
        let now = put_depth(depths, outputs[i], depth);
        changed = changed || now;
    }
    assert(outputs@.take(outputs@.len() as int) =~= outputs@);
    changed
}

fn three_bits(a: Bit, b: Bit, c: Bit) -> (bits: Vec<Bit>)
    ensures
        bits@ == seq![a, b, c],
{
    let mut bits: Vec<Bit> = Vec::new();
    bits.push(a);
    bits.push(b);
    bits.push(c);
    assert(bits@ =~= seq![a, b, c]);
    bits
}

fn one_wire(wire: u32) -> (wires: Vec<u32>)
    ensures
        wires@ == seq![wire],
{
    let mut wires: Vec<u32> = Vec::new();
    wires.push(wire);
    assert(wires@ =~= seq![wire]);
    wires
}

fn four_bits(a: Bit, b: Bit, c: Bit, d: Bit) -> (bits: Vec<Bit>)
    ensures
        bits@ == seq![a, b, c, d],
{
    let mut bits = three_bits(a, b, c);
    bits.push(d);
    assert(bits@ =~= seq![a, b, c, d]);
    bits
}

/// Moves the depths at the outputs of `cell` to those that its inputs imply.
pub fn update_mapped_cell_depth(cell: &Ecp5Cell, depths: &mut HashMap<u32, usize>) -> (changed:
    bool)
    ensures
        final(depths)@ == depth_step(cell@, old(depths)@),
        !changed ==> final(depths)@ == old(depths)@,
{
    match cell {
        Ecp5Cell::Lut4 { inputs, output, .. } => {
            let bits = four_bits(inputs[0], inputs[1], inputs[2], inputs[3]);
            assert(bits@ =~= inputs@);
            put_levels(&bits, &one_wire(*output), depths)
        },
        Ecp5Cell::PfuMux { lut_true, lut_false, select, output, .. } => put_levels(
            &three_bits(*lut_true, *lut_false, *select),
            &one_wire(*output),
            depths,
        ),
        Ecp5Cell::L6Mux21 { data_zero, data_one, select, output, .. } => put_levels(
            &three_bits(*data_zero, *data_one, *select),
            &one_wire(*output),
            depths,
        ),
        Ecp5Cell::Ccu2c { inputs, carry_in, sums, carry_out, .. } => {
            let mut bits = four_bits(inputs[0][0], inputs[0][1], inputs[0][2], inputs[0][3]);
            bits.push(inputs[1][0]);
            bits.push(inputs[1][1]);
            bits.push(inputs[1][2]);
            bits.push(inputs[1][3]);
            bits.push(*carry_in);
            assert(bits@ =~= inputs[0]@ + inputs[1]@ + seq![*carry_in]);
            let depth = find_deepest(&bits, depths);
            proof {
                let wires = seq![sums[0], sums[1], *carry_out];
                reveal_with_fuel(with_values, 4);
                assert(wires.drop_last() =~= seq![sums[0], sums[1]]);
                assert(wires.drop_last().drop_last() =~= seq![sums[0]]);
                assert(wires.drop_last().drop_last().drop_last() =~= seq![]);
            }
            let one = put_depth(depths, sums[0], depth);
            let two = put_depth(depths, sums[1], depth);
            let three = put_depth(depths, *carry_out, depth);
            one || two || three
        },
        Ecp5Cell::BlockRam {
            implementation: Ecp5MemoryImplementation::Distributed,
            read_address,
            read_data,
            ..
        } => {
            let bits = four_bits(
                read_address[0],
                read_address[1],
                read_address[2],
                read_address[3],
            );
            assert(bits@ =~= read_address@.take(4));
            put_levels(&bits, read_data, depths)
        },
        _ => false,
    }
}

/// One pass of `depth_step` over the cells, in order.
pub open spec fn depth_pass(cells: Seq<CellModel>, depths: Map<u32, usize>) -> Map<u32, usize>
    decreases cells.len(),
{
    if cells.len() == 0 {
        depths
    } else {
        depth_step(cells.last(), depth_pass(cells.drop_last(), depths))
    }
}

/// `count` passes.
pub open spec fn depth_passes(
    cells: Seq<CellModel>,
    depths: Map<u32, usize>,
    count: nat,
) -> Map<u32, usize>
    decreases count,
{
    if count == 0 {
        depths
    } else {
        depth_passes(cells, depth_pass(cells, depths), (count - 1) as nat)
    }
}

proof fn lemma_depths_settled(cells: Seq<CellModel>, depths: Map<u32, usize>, count: nat)
    requires
        depth_pass(cells, depths) == depths,
    ensures
        depth_passes(cells, depths, count) == depths,
    decreases count,
{
    if count > 0 {
        lemma_depths_settled(cells, depths, (count - 1) as nat);
    }
}

/// The LUT depth of each timed wire.
pub open spec fn depths_of(netlist: NetlistModel) -> Map<u32, usize> {
    depth_passes(
        netlist.cells,
        all_launched(
            netlist.cells,
            input_depths(netlist.io_timing.input_arrivals_ps),
            0usize,
            0usize,
            1usize,
        ),
        netlist.cells.len(),
    )
}

fn launch_depths(netlist: &Ecp5Netlist) -> (depths: HashMap<u32, usize>)
    ensures
        depths@ == all_launched(
            netlist@.cells,
            input_depths(netlist@.io_timing.input_arrivals_ps),
            0usize,
            0usize,
            1usize,
        ),
{
    broadcast use vstd::std_specs::hash::group_hash_axioms;

    let mut depths: HashMap<u32, usize> = HashMap::new();
    let inputs = &netlist.io_timing.input_arrivals_ps;
    assert(depths@ =~= input_depths(inputs@.take(0)));
    for i in 0..inputs.len()
        invariant
            depths@ == input_depths(inputs@.take(i as int)),
    {
        assert(inputs@.take(i + 1).drop_last() =~= inputs@.take(i as int));
        depths.insert(inputs[i].0, 0);
    }
    assert(inputs@.take(inputs@.len() as int) =~= inputs@);
    let ghost start = depths@;
    let ghost models = netlist@.cells;
    for i in 0..netlist.cells.len()
        invariant
            models == cell_models(netlist.cells@),
            depths@ == all_launched(models.take(i as int), start, 0usize, 0usize, 1usize),
    {
        assert(models.take(i + 1).drop_last() =~= models.take(i as int));
        match &netlist.cells[i] {
            Ecp5Cell::FlipFlop { output, .. } => {
                depths.insert(*output, 0);
            },
            Ecp5Cell::BlockRam {
                implementation: Ecp5MemoryImplementation::Block,
                read_data,
                second_port,
                ..
            } => {
                put_depths(&mut depths, read_data, Some(0));
                if let Some(port) = second_port {
                    put_depths(&mut depths, &port.read_data, Some(0));
                }
            },
            Ecp5Cell::BlockRam {
                implementation: Ecp5MemoryImplementation::Distributed,
                read_data,
                ..
            } => {
                put_depths(&mut depths, read_data, Some(1));
            },
            _ => {},
        }
    }
    assert(models.take(models.len() as int) =~= models);
    depths
}

/// The LUT depth of each timed wire.
pub fn mapped_lut_depths(netlist: &Ecp5Netlist) -> (depths: HashMap<u32, usize>)
    ensures
        depths@ == depths_of(netlist@),
{
    let mut depths = launch_depths(netlist);
    let ghost models = netlist@.cells;
    let count: usize = netlist.cells.len();
    let mut round: usize = 0;
    while round < count
        invariant
            round <= count,
            models == cell_models(netlist.cells@),
            count == models.len(),
            depths_of(netlist@) == depth_passes(models, depths@, (count - round) as nat),
        decreases count - round,
    {
        let ghost before = depths@;
        let mut changed = false;
        for i in 0..count
            invariant
                models == cell_models(netlist.cells@),
                count == models.len(),
                depths@ == depth_pass(models.take(i as int), before),
                !changed ==> depths@ == before,
        {
            assert(models.take(i + 1).drop_last() =~= models.take(i as int));
            let now = update_mapped_cell_depth(&netlist.cells[i], &mut depths);
            changed = changed || now;
        }
        assert(models.take(models.len() as int) =~= models);
        if !changed {
            proof {
                lemma_depths_settled(models, before, (count - round) as nat);
            }
            return depths;
        }
        round += 1;
    }
    depths
}

/// The depth of a bit; untimed bits have none.
pub open spec fn bit_depth(bit: Bit, depths: Map<u32, usize>) -> usize {
    match depth_of(bit, depths) {
        Some(depth) => depth,
        None => 0,
    }
}

/// The depth of a bit; untimed bits have none.
pub fn bit_lut_depth(bit: Bit, depths: &HashMap<u32, usize>) -> (depth: usize)
    ensures
        depth == bit_depth(bit, depths@),
{
    match bit {
        Bit::Wire(wire) => match depth_at(depths, wire) {
            Some(depth) => depth,
            None => 0,
        },
        _ => 0,
    }
}

} // verus!
