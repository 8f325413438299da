//! The mapped netlist: its wires, loads, drivers and names.

use std::collections::HashMap;
use std::collections::HashSet;

use vstd::prelude::*;

use crate::cells::{
    cell_input_bits, cell_inputs, cell_output_bits, cell_outputs, clamped, copied,
    lemma_wire_count_positive, mapped_cell_name, renumbered_bits, renumbered_cell,
    replace_mapped_cell_wire_uses, wire_count, Bit, CellModel, Ecp5Cell, MappedPort, PortDirection,
    PortModel,
};
use crate::names::{text_entries, NameMap};
use crate::text::{
    begins_with, decimal, decimal_text, join, lemma_decimal_injective, starts_with,
};

verus! {

/// Transformations applied to a mapped netlist, each of which kept it
/// equivalent to its source.
#[derive(Clone, Copy, Debug, Eq, PartialEq, Structural)]
pub struct MappedEquivalenceProof {
    /// Certified moves of a register across one primitive.
    pub certified_primitive_moves: usize,
    /// Generated registers merged into an equal one.
    pub equivalent_register_merges: usize,
    /// Cells replicated.
    pub equivalent_logic_replications: usize,
    /// Sinks moved between equal drivers.
    pub equivalent_physical_rewires: usize,
    /// Generated cells removed because nothing reads them.
    pub unobservable_cells_removed: usize,
    /// Whether every step so far was an equivalence.
    pub valid: bool,
}

/// Result of the automatic, technology-scored retiming search.
#[derive(Clone, Copy, Debug, Eq, PartialEq, Structural)]
pub struct RetimingSelection {
    /// Whether automatic mapped-LUT retiming selected a certified candidate.
    pub applied: bool,
    /// Maximum LUT4 levels into a register before retiming.
    pub original_lut_depth: usize,
    /// Maximum LUT4 levels into a register in the selected mapping.
    pub selected_lut_depth: usize,
    /// Register data inputs at the original maximum LUT4 depth.
    pub original_critical_registers: usize,
    /// Register data inputs remaining at the maximum depth after retiming.
    pub selected_critical_registers: usize,
    /// Estimated register-to-register period before retiming.
    pub original_period_ps: u32,
    /// Estimated register-to-register period selected for mapping.
    pub selected_period_ps: u32,
    /// Estimated worst synchronous or explicitly constrained I/O period before retiming.
    pub original_overall_period_ps: u32,
    /// Estimated worst synchronous or explicitly constrained I/O period after retiming.
    pub selected_overall_period_ps: u32,
    /// Mapped flip-flops before candidate selection.
    pub original_registers: usize,
    /// Mapped flip-flops after candidate selection.
    pub selected_registers: usize,
    /// Primitive retiming certificates composed into the selected result.
    pub certified_primitive_moves: usize,
    /// Structurally equivalent generated registers merged in the selected result.
    pub equivalent_register_merges: usize,
    /// Cells replicated without changing their combinational or sequential behavior.
    pub equivalent_logic_replications: usize,
    /// Sinks reassigned between equivalent replicas using physical feedback.
    pub equivalent_physical_rewires: usize,
    /// Unobservable cells removed after certified retiming moves.
    pub unobservable_cells_removed: usize,
    /// Whether the complete selected transformation chain passed sign-off.
    pub equivalence_signed_off: bool,
}

/// I/O delays resolved to mapped bits.
#[derive(Clone, Debug, Eq, PartialEq)]
pub struct ResolvedIoTiming {
    /// Arrival time of each constrained input wire, by increasing wire.
    pub input_arrivals_ps: Vec<(u32, u32)>,
    /// External delay behind each constrained output bit.
    pub output_delays_ps: Vec<(Bit, u32)>,
}

/// One named clock resolved to a mapped bit.
#[derive(Clone, Debug, Eq, PartialEq)]
pub struct ResolvedClockTiming {
    /// User-facing clock name.
    pub name: String,
    /// Name of the net that carries the clock.
    pub net_name: String,
    /// The mapped bit.
    pub bit: Bit,
    /// Nominal period.
    pub period_ps: u32,
    /// Setup uncertainty.
    pub uncertainty_ps: u32,
}

/// Clock constraints handed to physical implementation.
#[derive(Clone, Debug, Eq, PartialEq)]
pub struct ResolvedTimingConstraints {
    /// Frequency of otherwise unconstrained domains.
    pub default_frequency_mhz: u32,
    /// Named clocks.
    pub clocks: Vec<ResolvedClockTiming>,
}

/// Technology-mapped ECP5 netlist used by both simulation and nextpnr.
#[derive(Debug, Eq, PartialEq)]
pub struct Ecp5Netlist {
    /// Top name.
    pub name: String,
    /// Physical ports.
    pub ports: Vec<MappedPort>,
    /// Physical primitives.
    pub cells: Vec<Ecp5Cell>,
    /// Retiming report.
    pub retiming: RetimingSelection,
    /// Ledger of equivalence-preserving steps.
    pub equivalence_proof: MappedEquivalenceProof,
    /// Location hints by cell name.
    pub placement_hints: NameMap<String>,
    /// Resolved I/O delays.
    pub io_timing: ResolvedIoTiming,
    /// Resolved clocks.
    pub timing_constraints: ResolvedTimingConstraints,
}

/// What a [`ResolvedIoTiming`] holds.
#[verifier::ext_equal]
pub struct IoTimingModel {
    pub input_arrivals_ps: Seq<(u32, u32)>,
    pub output_delays_ps: Seq<(Bit, u32)>,
}

/// What a [`ResolvedClockTiming`] holds.
#[verifier::ext_equal]
pub struct ClockModel {
    pub name: Seq<char>,
    pub net_name: Seq<char>,
    pub bit: Bit,
    pub period_ps: u32,
    pub uncertainty_ps: u32,
}

/// What an [`Ecp5Netlist`] holds.
#[verifier::ext_equal]
pub struct NetlistModel {
    pub name: Seq<char>,
    pub ports: Seq<PortModel>,
    pub cells: Seq<CellModel>,
    pub retiming: RetimingSelection,
    pub proof: MappedEquivalenceProof,
    pub placement_hints: Seq<(Seq<char>, Seq<char>)>,
    pub io_timing: IoTimingModel,
    pub default_frequency_mhz: u32,
    pub clocks: Seq<ClockModel>,
}

/// The models of a sequence of cells.
pub open spec fn cell_models(cells: Seq<Ecp5Cell>) -> Seq<CellModel> {
    Seq::new(cells.len(), |i: int| cells[i]@)
}

/// The models of a sequence of ports.
pub open spec fn port_models(ports: Seq<MappedPort>) -> Seq<PortModel> {
    Seq::new(ports.len(), |i: int| ports[i]@)
}

impl View for ResolvedClockTiming {
    type V = ClockModel;

    open spec fn view(&self) -> ClockModel {
        ClockModel {
            name: self.name@,
            net_name: self.net_name@,
            bit: self.bit,
            period_ps: self.period_ps,
            uncertainty_ps: self.uncertainty_ps,
        }
    }
}

/// The models of a sequence of clocks.
pub open spec fn clock_models(clocks: Seq<ResolvedClockTiming>) -> Seq<ClockModel> {
    Seq::new(clocks.len(), |i: int| clocks[i]@)
}

impl View for ResolvedIoTiming {
    type V = IoTimingModel;

    open spec fn view(&self) -> IoTimingModel {
        IoTimingModel {
            input_arrivals_ps: self.input_arrivals_ps@,
            output_delays_ps: self.output_delays_ps@,
        }
    }
}

impl View for Ecp5Netlist {
    type V = NetlistModel;

    open spec fn view(&self) -> NetlistModel {
        NetlistModel {
            name: self.name@,
            ports: port_models(self.ports@),
            cells: cell_models(self.cells@),
            retiming: self.retiming,
            proof: self.equivalence_proof,
            placement_hints: text_entries(self.placement_hints),
            io_timing: self.io_timing@,
            default_frequency_mhz: self.timing_constraints.default_frequency_mhz,
            clocks: clock_models(self.timing_constraints.clocks@),
        }
    }
}

/// Every bit that the cells read, cell by cell.
pub open spec fn cells_inputs(cells: Seq<CellModel>) -> Seq<Bit>
    decreases cells.len(),
{
    if cells.len() == 0 {
        seq![]
    } else {
        cells_inputs(cells.drop_last()) + cell_inputs(cells.last())
    }
}

/// Every bit that the cells drive, cell by cell.
pub open spec fn cells_outputs(cells: Seq<CellModel>) -> Seq<Bit>
    decreases cells.len(),
{
    if cells.len() == 0 {
        seq![]
    } else {
        cells_outputs(cells.drop_last()) + cell_outputs(cells.last())
    }
}

/// The bits of every port.
pub open spec fn ports_bits(ports: Seq<PortModel>) -> Seq<Bit>
    decreases ports.len(),
{
    if ports.len() == 0 {
        seq![]
    } else {
        ports_bits(ports.drop_last()) + ports.last().bits
    }
}

/// The bits of every port with the given direction.
pub open spec fn directed_bits(ports: Seq<PortModel>, direction: PortDirection) -> Seq<Bit>
    decreases ports.len(),
{
    if ports.len() == 0 {
        seq![]
    } else {
        directed_bits(ports.drop_last(), direction) + if ports.last().direction == direction {
            ports.last().bits
        } else {
            seq![]
        }
    }
}

/// Every pin that loads a wire: the cells' inputs and the output ports.
pub open spec fn loads(netlist: NetlistModel) -> Seq<Bit> {
    cells_inputs(netlist.cells) + directed_bits(netlist.ports, PortDirection::Output)
}

/// How many cell inputs and port bits are wire `wire`.
pub open spec fn wire_fanout(netlist: NetlistModel, wire: u32) -> nat {
    wire_count(cells_inputs(netlist.cells) + ports_bits(netlist.ports), wire)
}

/// The number of occurrences of each wire that occurs in `bits`.
pub open spec fn count_map(bits: Seq<Bit>) -> Map<u32, usize> {
    Map::new(
        |wire: u32| wire_count(bits, wire) > 0,
        |wire: u32| clamped(wire_count(bits, wire)),
    )
}

/// The fanout of each loaded wire.
pub open spec fn fanout_map(netlist: NetlistModel) -> Map<u32, usize> {
    count_map(loads(netlist))
}

/// The largest wire number in `bits`.
pub open spec fn largest_wire(bits: Seq<Bit>) -> Option<u32>
    decreases bits.len(),
{
    if bits.len() == 0 {
        None
    } else {
        let rest = largest_wire(bits.drop_last());
        match bits.last() {
            Bit::Wire(wire) => match rest {
                Some(other) => if other < wire {
                    Some(wire)
                } else {
                    rest
                },
                None => Some(wire),
            },
            _ => rest,
        }
    }
}

/// The largest wire number that a port carries or a cell drives.
pub open spec fn maximum_wire(netlist: NetlistModel) -> Option<u32> {
    largest_wire(ports_bits(netlist.ports) + cells_outputs(netlist.cells))
}

/// `largest_wire` is an upper bound and is attained.
pub proof fn lemma_largest_wire(bits: Seq<Bit>)
    ensures
        forall|wire: u32| #[trigger]
            bits.contains(Bit::Wire(wire)) ==> largest_wire(bits) is Some && wire <= largest_wire(
                bits,
            )->0,
        largest_wire(bits) matches Some(wire) ==> bits.contains(Bit::Wire(wire)),
    decreases bits.len(),
{
    if bits.len() > 0 {
        let rest = bits.drop_last();
        lemma_largest_wire(rest);
        assert forall|wire: u32| #[trigger] bits.contains(Bit::Wire(wire)) implies largest_wire(
            bits,
        ) is Some && wire <= largest_wire(bits)->0 by {
            let i = choose|i: int| 0 <= i < bits.len() && bits[i] == Bit::Wire(wire);
            if i < bits.len() - 1 {
                assert(rest[i] == Bit::Wire(wire));
                assert(rest.contains(Bit::Wire(wire)));
            }
        }
        if let Some(wire) = largest_wire(rest) {
            let i = choose|i: int| 0 <= i < rest.len() && rest[i] == Bit::Wire(wire);
            assert(bits[i] == Bit::Wire(wire));
        }
        assert(bits[bits.len() - 1] == bits.last());
    }
}

/// Appends bits.
pub fn extend(out: &mut Vec<Bit>, bits: &Vec<Bit>)
    ensures
        final(out)@ == old(out)@ + bits@,
{
    let ghost before = out@;
    for i in 0..bits.len()
        invariant
            out@ == before + bits@.take(i as int),
    {
        out.push(bits[i]);
        assert(out@ =~= before + bits@.take(i + 1));
    }
    assert(bits@.take(bits@.len() as int) =~= bits@);
}

/// Every bit that the cells read, cell by cell.
pub fn all_cell_inputs(cells: &Vec<Ecp5Cell>) -> (bits: Vec<Bit>)
    ensures
        bits@ == cells_inputs(cell_models(cells@)),
{
    let mut bits: Vec<Bit> = Vec::new();
    for i in 0..cells.len()
        invariant
            bits@ == cells_inputs(cell_models(cells@).take(i as int)),
    {
        let inputs = cell_input_bits(&cells[i]);
        extend(&mut bits, &inputs);
        assert(cell_models(cells@).take(i + 1).drop_last() =~= cell_models(cells@).take(i as int));
    }
    assert(cell_models(cells@).take(cells@.len() as int) =~= cell_models(cells@));
    bits
}

/// Every bit that the cells drive, cell by cell.
pub fn all_cell_outputs(cells: &Vec<Ecp5Cell>) -> (bits: Vec<Bit>)
    ensures
        bits@ == cells_outputs(cell_models(cells@)),
{
    let mut bits: Vec<Bit> = Vec::new();
    for i in 0..cells.len()
        invariant
            bits@ == cells_outputs(cell_models(cells@).take(i as int)),
    {
        let outputs = cell_output_bits(&cells[i]);
        extend(&mut bits, &outputs);
        assert(cell_models(cells@).take(i + 1).drop_last() =~= cell_models(cells@).take(i as int));
    }
    assert(cell_models(cells@).take(cells@.len() as int) =~= cell_models(cells@));
    bits
}

/// The bits of every port.
pub fn all_port_bits(ports: &Vec<MappedPort>) -> (bits: Vec<Bit>)
    ensures
        bits@ == ports_bits(port_models(ports@)),
{
    let mut bits: Vec<Bit> = Vec::new();
    for i in 0..ports.len()
        invariant
            bits@ == ports_bits(port_models(ports@).take(i as int)),
    {
        extend(&mut bits, &ports[i].bits);
        assert(port_models(ports@).take(i + 1).drop_last() =~= port_models(ports@).take(i as int));
    }
    assert(port_models(ports@).take(ports@.len() as int) =~= port_models(ports@));
    bits
}

/// The bits of every port with the given direction.
pub fn all_directed_bits(ports: &Vec<MappedPort>, direction: PortDirection) -> (bits: Vec<Bit>)
    ensures
        bits@ == directed_bits(port_models(ports@), direction),
{
    let mut bits: Vec<Bit> = Vec::new();
    for i in 0..ports.len()
        invariant
            bits@ == directed_bits(port_models(ports@).take(i as int), direction),
    {
        assert(port_models(ports@).take(i + 1).drop_last() =~= port_models(ports@).take(i as int));
        if ports[i].direction == direction {
            extend(&mut bits, &ports[i].bits);
        } else {
            assert(bits@ + Seq::<Bit>::empty() =~= bits@);
        }
    }
    assert(port_models(ports@).take(ports@.len() as int) =~= port_models(ports@));
    bits
}

/// Every pin that loads a wire: the cells' inputs and the output ports.
pub fn netlist_loads(netlist: &Ecp5Netlist) -> (bits: Vec<Bit>)
    ensures
        bits@ == loads(netlist@),
{
    let mut bits = all_cell_inputs(&netlist.cells);
    let outputs = all_directed_bits(&netlist.ports, PortDirection::Output);
    extend(&mut bits, &outputs);
    bits
}

/// Counts each wire that occurs in `bits`.
pub fn count_wires(bits: &Vec<Bit>) -> (counts: HashMap<u32, usize>)
    ensures
        counts@ == count_map(bits@),
{
    broadcast use vstd::std_specs::hash::group_hash_axioms;

    let mut counts: HashMap<u32, usize> = HashMap::new();
    assert(counts@ =~= count_map(bits@.take(0)));
    for i in 0..bits.len()
        invariant
            counts@ == count_map(bits@.take(i as int)),
    {
        let ghost before = bits@.take(i as int);
        let ghost after = bits@.take(i + 1);
        assert(after.drop_last() =~= before);
        if let Bit::Wire(wire) = bits[i] {
            let count: usize = match counts.get(&wire) {
                Some(count) => count.saturating_add(1),
                None => 1,
            };
            counts.insert(wire, count);
            assert(counts@ =~= count_map(after));
        } else {
            assert(count_map(before) =~= count_map(after));
        }
    }
    assert(bits@.take(bits@.len() as int) =~= bits@);
    counts
}

/// The fanout of each loaded wire.
pub fn mapped_wire_fanouts(netlist: &Ecp5Netlist) -> (fanouts: HashMap<u32, usize>)
    ensures
        fanouts@ == fanout_map(netlist@),
{
    let bits = netlist_loads(netlist);
    count_wires(&bits)
}

/// How many cell inputs and port bits are wire `wire`.
pub fn mapped_wire_fanout(netlist: &Ecp5Netlist, wire: u32) -> (fanout: usize)
    ensures
        fanout == wire_fanout(netlist@, wire),
{
    let mut bits = all_cell_inputs(&netlist.cells);
    let ports = all_port_bits(&netlist.ports);
    extend(&mut bits, &ports);
    crate::cells::count_wire(&bits, wire)
}

/// The largest wire number that a port carries or a cell drives.
pub fn maximum_mapped_wire(netlist: &Ecp5Netlist) -> (wire: Option<u32>)
    ensures
        wire == maximum_wire(netlist@),
{
    let mut bits = all_port_bits(&netlist.ports);
    let outputs = all_cell_outputs(&netlist.cells);
    extend(&mut bits, &outputs);
    find_largest_wire(&bits)
}

/// The largest wire number among `bits`.
pub fn find_largest_wire(bits: &Vec<Bit>) -> (wire: Option<u32>)
    ensures
        wire == largest_wire(bits@),
{
    let mut largest: Option<u32> = None;
    for i in 0..bits.len()
        invariant
            largest == largest_wire(bits@.take(i as int)),
    {
        assert(bits@.take(i + 1).drop_last() =~= bits@.take(i as int));
        if let Bit::Wire(wire) = bits[i] {
            largest = match largest {
                Some(other) => if other < wire {
                    Some(wire)
                } else {
                    largest
                },
                None => Some(wire),
            };
        }
    }
    assert(bits@.take(bits@.len() as int) =~= bits@);
    largest
}

/// Whether a cell other than the one at `skip` has this name.
pub open spec fn name_taken(cells: Seq<CellModel>, skip: Option<usize>, name: Seq<char>) -> bool {
    exists|i: int| taken_by(cells, skip, name, i)
}

/// Whether the cell at `i`, which is not the one at `skip`, has this name.
pub open spec fn taken_by(
    cells: Seq<CellModel>,
    skip: Option<usize>,
    name: Seq<char>,
    i: int,
) -> bool {
    0 <= i < cells.len() && skip != Some(i as usize) && cells[i].cell_name() == name
}

/// The position of a cell other than the one at `skip` with this name.
spec fn name_owner(cells: Seq<CellModel>, skip: Option<usize>, name: Seq<char>) -> int {
    choose|i: int| taken_by(cells, skip, name, i)
}

/// `base`, an underscore and the numeral of `suffix`.
pub open spec fn suffixed(base: Seq<char>, suffix: nat) -> Seq<char> {
    base + "_"@ + decimal_text(suffix)
}

/// Whether `suffix` is the least from two up that makes `base` a free name.
pub open spec fn is_least_suffix(
    base: Seq<char>,
    cells: Seq<CellModel>,
    skip: Option<usize>,
    suffix: nat,
) -> bool {
    &&& suffix >= 2
    &&& !name_taken(cells, skip, suffixed(base, suffix))
    &&& forall|other: nat|
        2 <= other < suffix ==> name_taken(cells, skip, #[trigger] suffixed(base, other))
}

/// `base` where it is free, else `base` with the least free suffix.
pub open spec fn unique_name(
    base: Seq<char>,
    cells: Seq<CellModel>,
    skip: Option<usize>,
) -> Seq<char> {
    if name_taken(cells, skip, base) {
        suffixed(base, choose|suffix: nat| is_least_suffix(base, cells, skip, suffix))
    } else {
        base
    }
}

proof fn lemma_suffixed_injective(base: Seq<char>, a: nat, b: nat)
    requires
        suffixed(base, a) == suffixed(base, b),
    ensures
        a == b,
{
    let head = (base + "_"@).len() as int;
    assert(suffixed(base, a).skip(head) =~= decimal_text(a));
    assert(suffixed(base, b).skip(head) =~= decimal_text(b));
    lemma_decimal_injective(a, b);
}

/// Not all of the first `suffix` suffixes can be taken when there are more of
/// them than cells.
proof fn lemma_suffixes_run_out(
    base: Seq<char>,
    cells: Seq<CellModel>,
    skip: Option<usize>,
    suffix: nat,
)
    requires
        suffix >= 2,
        forall|other: nat|
            2 <= other < suffix ==> name_taken(cells, skip, #[trigger] suffixed(base, other)),
    ensures
        suffix <= cells.len() + 2,
{
    let count = (suffix - 2) as nat;
    let owners = Seq::new(
        count,
        |k: int| name_owner(cells, skip, suffixed(base, (k + 2) as nat)),
    );
    assert forall|k: int| 0 <= k < count implies taken_by(
        cells,
        skip,
        suffixed(base, (k + 2) as nat),
        #[trigger] owners[k],
    ) by {
        assert(name_taken(cells, skip, suffixed(base, (k + 2) as nat)));
    }
    assert(owners.no_duplicates()) by {
        assert forall|a: int, b: int| 0 <= a < count && 0 <= b < count && a != b implies owners[a]
            != owners[b] by {
            if owners[a] == owners[b] {
                lemma_suffixed_injective(base, (a + 2) as nat, (b + 2) as nat);
            }
        }
    }
    owners.unique_seq_to_set();
    vstd::set_lib::lemma_int_range(0, cells.len() as int);
    vstd::set_lib::lemma_len_subset(
        owners.to_set(),
        vstd::set_lib::set_int_range(0, cells.len() as int),
    );
}

proof fn lemma_least_suffix(
    base: Seq<char>,
    cells: Seq<CellModel>,
    skip: Option<usize>,
    suffix: nat,
) -> (least: nat)
    requires
        2 <= suffix,
        forall|other: nat|
            2 <= other < suffix ==> name_taken(cells, skip, #[trigger] suffixed(base, other)),
    ensures
        is_least_suffix(base, cells, skip, least),
    decreases cells.len() + 3 - suffix,
{
    lemma_suffixes_run_out(base, cells, skip, suffix);
    if name_taken(cells, skip, suffixed(base, suffix)) {
        lemma_least_suffix(base, cells, skip, suffix + 1)
    } else {
        suffix
    }
}

/// A unique name is new: no cell but the one that is skipped has it.
pub proof fn law_unique_name_is_new(
    base: Seq<char>,
    cells: Seq<CellModel>,
    skip: Option<usize>,
)
    ensures
        forall|i: int|
            0 <= i < cells.len() && skip != Some(i as usize) ==> (#[trigger] cells[i]).cell_name()
                != unique_name(base, cells, skip),
{
    let name = unique_name(base, cells, skip);
    let least = lemma_least_suffix(base, cells, skip, 2);
    assert(!name_taken(cells, skip, name)) by {
        if name_taken(cells, skip, base) {
            let chosen = choose|suffix: nat| is_least_suffix(base, cells, skip, suffix);
            assert(is_least_suffix(base, cells, skip, chosen));
        }
    }
    assert forall|i: int| 0 <= i < cells.len() && skip != Some(i as usize) implies (
    #[trigger] cells[i]).cell_name() != name by {
        assert(!taken_by(cells, skip, name, i));
    }
}

fn is_taken(cells: &Vec<Ecp5Cell>, skip: Option<usize>, name: &String) -> (taken: bool)
    ensures
        taken == name_taken(cell_models(cells@), skip, name@),
{
    let ghost models = cell_models(cells@);
    for i in 0..cells.len()
        invariant
            models == cell_models(cells@),
            forall|j: int| 0 <= j < i ==> !taken_by(models, skip, name@, j),
    {
        let skipped: bool = match skip {
            Some(index) => index == i,
            None => false,
        };
        if !skipped && *mapped_cell_name(&cells[i]) == *name {
            assert(taken_by(models, skip, name@, i as int));
            return true;
        }
        assert(!taken_by(models, skip, name@, i as int));
    }
    false
}

/// A name for a cell that no cell other than the one at `skip` has: `base`
/// itself, or `base` with the least free suffix.
pub fn unique_cell_name(base: &str, cells: &Vec<Ecp5Cell>, skip: Option<usize>) -> (name: String)
    ensures
        name@ == unique_name(base@, cell_models(cells@), skip),
        !name_taken(cell_models(cells@), skip, name@),
{
    let mut name = base.to_owned();
    if !is_taken(cells, skip, &name) {
        return name;
    }
    let ghost models = cell_models(cells@);
    let stem = join(base, "_");
    let mut suffix: u128 = 2;
    loop
        invariant
            models == cell_models(cells@),
            stem@ == base@ + "_"@,
            2 <= suffix <= models.len() + 2,
            models.len() == cells.len(),
            name_taken(models, skip, base@),
            forall|other: nat|
                2 <= other < suffix ==> name_taken(
                    models,
                    skip,
                    #[trigger] suffixed(base@, other),
                ),
        decreases models.len() + 2 - suffix,
    {
        name = join(stem.as_str(), decimal(suffix).as_str());
        if !is_taken(cells, skip, &name) {
            proof {
                let least = choose|suffix: nat| is_least_suffix(base@, models, skip, suffix);
                assert(is_least_suffix(base@, models, skip, suffix as nat));
                assert(is_least_suffix(base@, models, skip, least));
                if least < suffix {
                    assert(name_taken(models, skip, suffixed(base@, least)));
                }
                if suffix < least {
                    assert(name_taken(models, skip, suffixed(base@, suffix as nat)));
                }
            }
            return name;
        }
        proof {
            lemma_suffixes_run_out(base@, models, skip, (suffix + 1) as nat);
        }
        suffix = suffix + 1;
    }
}

/// The position of the first cell with this name.
pub open spec fn first_named(cells: Seq<CellModel>, name: Seq<char>) -> Option<int> {
    first_named_from(cells, name, 0)
}

pub open spec fn first_named_from(cells: Seq<CellModel>, name: Seq<char>, from: int) -> Option<int>
    decreases cells.len() - from,
{
    if from < 0 || from >= cells.len() {
        None
    } else if cells[from].cell_name() == name {
        Some(from)
    } else {
        first_named_from(cells, name, from + 1)
    }
}

/// The position of the first cell with this name.
pub fn position_of_name(cells: &Vec<Ecp5Cell>, name: &String) -> (index: Option<usize>)
    ensures
        match index {
            Some(index) => first_named(cell_models(cells@), name@) == Some(index as int) && index
                < cells@.len() && cells@[index as int]@.cell_name() == name@,
            None => first_named(cell_models(cells@), name@) is None,
        },
{
    let mut i: usize = 0;
    while i < cells.len()
        invariant
            i <= cells@.len(),
            first_named(cell_models(cells@), name@) == first_named_from(
                cell_models(cells@),
                name@,
                i as int,
            ),
        decreases cells@.len() - i,
    {
        if *mapped_cell_name(&cells[i]) == *name {
            return Some(i);
        }
        i += 1;
    }
    None
}

/// `ports` with wire `from` renumbered to `to`.
pub open spec fn renumbered_ports(ports: Seq<PortModel>, from: u32, to: u32) -> Seq<PortModel> {
    Seq::new(
        ports.len(),
        |i: int| PortModel { bits: renumbered_bits(ports[i].bits, from, to), ..ports[i] },
    )
}

/// `cells` with wire `from` renumbered to `to` at every input.
pub open spec fn renumbered_cells(cells: Seq<CellModel>, from: u32, to: u32) -> Seq<CellModel> {
    Seq::new(cells.len(), |i: int| renumbered_cell(cells[i], from, to))
}

/// `netlist` with every use of wire `from` turned into a use of wire `to`.
pub open spec fn renumbered_uses(netlist: NetlistModel, from: u32, to: u32) -> NetlistModel {
    NetlistModel {
        ports: renumbered_ports(netlist.ports, from, to),
        cells: renumbered_cells(netlist.cells, from, to),
        ..netlist
    }
}

fn renumber_port(port: &mut MappedPort, from: u32, to: u32)
    ensures
        final(port)@ == (PortModel {
            bits: renumbered_bits(old(port)@.bits, from, to),
            ..old(port)@
        }),
{
    let mut i: usize = 0;
    while i < port.bits.len()
        invariant
            i <= port.bits@.len(),
            port.name@ == old(port).name@,
            port.direction == old(port).direction,
            port.bits@.len() == old(port).bits@.len(),
            forall|j: int|
                0 <= j < i ==> port.bits@[j] == crate::cells::renumbered(
                    old(port).bits@[j],
                    from,
                    to,
                ),
            forall|j: int| i <= j < port.bits@.len() ==> port.bits@[j] == old(port).bits@[j],
        decreases port.bits@.len() - i,
    {
        if port.bits[i] == Bit::Wire(from) {
            port.bits[i] = Bit::Wire(to);
        }
        i += 1;
    }
    assert(port.bits@ =~= renumbered_bits(old(port).bits@, from, to));
}

/// Turns every use of wire `from` into a use of wire `to`.
pub fn replace_mapped_wire_uses(netlist: &mut Ecp5Netlist, from: u32, to: u32)
    ensures
        final(netlist)@ == renumbered_uses(old(netlist)@, from, to),
{
    let ghost before = netlist@;
    let mut i: usize = 0;
    while i < netlist.ports.len()
        invariant
            i <= netlist.ports@.len(),
            before == old(netlist)@,
            netlist@ == (NetlistModel { ports: port_models(netlist.ports@), ..before }),
            netlist.ports@.len() == before.ports.len(),
            forall|j: int|
                0 <= j < i ==> (#[trigger] netlist.ports@[j])@ == renumbered_ports(
                    before.ports,
                    from,
                    to,
                )[j],
            forall|j: int|
                i <= j < netlist.ports@.len() ==> (#[trigger] netlist.ports@[j])@
                    == before.ports[j],
        decreases netlist.ports@.len() - i,
    {
        renumber_port(&mut netlist.ports[i], from, to);
        i += 1;
    }
    assert(port_models(netlist.ports@) =~= renumbered_ports(before.ports, from, to));
    let ghost middle = netlist@;
    let mut k: usize = 0;
    while k < netlist.cells.len()
        invariant
            k <= netlist.cells@.len(),
            netlist@ == (NetlistModel { cells: cell_models(netlist.cells@), ..middle }),
            netlist.cells@.len() == middle.cells.len(),
            forall|j: int|
                0 <= j < k ==> (#[trigger] netlist.cells@[j])@ == renumbered_cell(
                    middle.cells[j],
                    from,
                    to,
                ),
            forall|j: int|
                k <= j < netlist.cells@.len() ==> (#[trigger] netlist.cells@[j])@
                    == middle.cells[j],
        decreases netlist.cells@.len() - k,
    {
        replace_mapped_cell_wire_uses(&mut netlist.cells[k], from, to);
        k += 1;
    }
    assert(cell_models(netlist.cells@) =~= renumbered_cells(middle.cells, from, to));
}

fn copy_clocks(clocks: &Vec<ResolvedClockTiming>) -> (copy: Vec<ResolvedClockTiming>)
    ensures
        clock_models(copy@) == clock_models(clocks@),
{
    let mut copy: Vec<ResolvedClockTiming> = Vec::new();
    for i in 0..clocks.len()
        invariant
            copy@.len() == i,
            forall|j: int| 0 <= j < i ==> (#[trigger] copy@[j])@ == clocks@[j]@,
    {
        let clock = ResolvedClockTiming {
            name: clocks[i].name.clone(),
            net_name: clocks[i].net_name.clone(),
            bit: clocks[i].bit,
            period_ps: clocks[i].period_ps,
            uncertainty_ps: clocks[i].uncertainty_ps,
        };
        copy.push(clock);
    }
    assert(clock_models(copy@) =~= clock_models(clocks@));
    copy
}

/// A copy of a sequence of cells.
pub fn copy_cells(cells: &Vec<Ecp5Cell>) -> (copy: Vec<Ecp5Cell>)
    ensures
        cell_models(copy@) == cell_models(cells@),
{
    let mut copy: Vec<Ecp5Cell> = Vec::new();
    for i in 0..cells.len()
        invariant
            copy@.len() == i,
            forall|j: int| 0 <= j < i ==> (#[trigger] copy@[j])@ == cells@[j]@,
    {
        copy.push(cells[i].clone());
    }
    assert(cell_models(copy@) =~= cell_models(cells@));
    copy
}

/// A copy of a sequence of ports.
pub fn copy_ports(ports: &Vec<MappedPort>) -> (copy: Vec<MappedPort>)
    ensures
        port_models(copy@) == port_models(ports@),
{
    let mut copy: Vec<MappedPort> = Vec::new();
    for i in 0..ports.len()
        invariant
            copy@.len() == i,
            forall|j: int| 0 <= j < i ==> (#[trigger] copy@[j])@ == ports@[j]@,
    {
        copy.push(ports[i].clone());
    }
    assert(port_models(copy@) =~= port_models(ports@));
    copy
}

impl Clone for Ecp5Netlist {
    fn clone(&self) -> (copy: Self)
        ensures
            copy@ == self@,
    {
        Ecp5Netlist {
            name: self.name.clone(),
            ports: copy_ports(&self.ports),
            cells: copy_cells(&self.cells),
            retiming: self.retiming,
            equivalence_proof: self.equivalence_proof,
            placement_hints: self.placement_hints.copy_texts(),
            io_timing: ResolvedIoTiming {
                input_arrivals_ps: copied(&self.io_timing.input_arrivals_ps),
                output_delays_ps: copied(&self.io_timing.output_delays_ps),
            },
            timing_constraints: ResolvedTimingConstraints {
                default_frequency_mhz: self.timing_constraints.default_frequency_mhz,
                clocks: copy_clocks(&self.timing_constraints.clocks),
            },
        }
    }
}

/// Whether pruning keeps `cell`: it was not generated by retiming, or some
/// wire that it drives is loaded.
pub open spec fn is_observable(cell: CellModel, loads: Seq<Bit>) -> bool {
    !begins_with(cell.cell_name(), "retime_"@) || drives_loaded(cell, loads)
}

/// Whether some wire that `cell` drives occurs in `loads`.
pub open spec fn drives_loaded(cell: CellModel, loads: Seq<Bit>) -> bool {
    exists|i: int| #![trigger cell_outputs(cell)[i]]
        0 <= i < cell_outputs(cell).len() && loads.contains(cell_outputs(cell)[i])
}

/// The observable cells of `cells`, in order.
pub open spec fn observable_cells(cells: Seq<CellModel>, loads: Seq<Bit>) -> Seq<CellModel>
    decreases cells.len(),
{
    if cells.len() == 0 {
        seq![]
    } else {
        let rest = observable_cells(cells.drop_last(), loads);
        if is_observable(cells.last(), loads) {
            rest.push(cells.last())
        } else {
            rest
        }
    }
}

/// One round of pruning.
pub open spec fn pruned_once(netlist: NetlistModel) -> NetlistModel {
    let cells = observable_cells(netlist.cells, loads(netlist));
    NetlistModel {
        cells,
        proof: MappedEquivalenceProof {
            unobservable_cells_removed: clamped(
                netlist.proof.unobservable_cells_removed as nat + (netlist.cells.len()
                    - cells.len()) as nat,
            ),
            ..netlist.proof
        },
        ..netlist
    }
}

/// `netlist` without the generated cells that nothing reads, round by round
/// until every generated cell is read.
pub open spec fn pruned(netlist: NetlistModel) -> NetlistModel
    decreases netlist.cells.len(),
{
    let once = pruned_once(netlist);
    if once.cells.len() >= netlist.cells.len() {
        netlist
    } else {
        pruned(once)
    }
}

/// Pruning removes cells and never adds any.
pub proof fn lemma_observable_len(cells: Seq<CellModel>, loads: Seq<Bit>)
    ensures
        observable_cells(cells, loads).len() <= cells.len(),
        observable_cells(cells, loads).len() == cells.len() ==> observable_cells(cells, loads)
            == cells,
    decreases cells.len(),
{
    if cells.len() > 0 {
        lemma_observable_len(cells.drop_last(), loads);
        assert(cells =~= cells.drop_last().push(cells.last()));
    }
}

fn drives_counted(cell: &Ecp5Cell, counts: &HashMap<u32, usize>, bits: Ghost<Seq<Bit>>) -> (found:
    bool)
    requires
        counts@ == count_map(bits@),
    ensures
        found == drives_loaded(cell@, bits@),
{
    broadcast use vstd::std_specs::hash::group_hash_axioms;

    let outputs = cell_output_bits(cell);
    for i in 0..outputs.len()
        invariant
            outputs@ == cell_outputs(cell@),
            counts@ == count_map(bits@),
            forall|j: int| 0 <= j < i ==> !bits@.contains(#[trigger] outputs@[j]),
            forall|j: int| 0 <= j < outputs@.len() ==> outputs@[j] is Wire,
    {
        if let Bit::Wire(wire) = outputs[i] {
            proof {
                lemma_wire_count_positive(bits@, wire);
            }
            if counts.contains_key(&wire) {
                assert(bits@.contains(cell_outputs(cell@)[i as int]));
                return true;
            }
        }
    }
    false
}

/// Removes the generated cells that nothing reads.
pub fn prune_unobservable_retiming_cells(netlist: &mut Ecp5Netlist)
    ensures
        final(netlist)@ == pruned(old(netlist)@),
{
    loop
        invariant
            pruned(netlist@) == pruned(old(netlist)@),
        ensures
            netlist@ == pruned(old(netlist)@),
        decreases netlist.cells@.len(),
    {
        let ghost before = netlist@;
        let bits = netlist_loads(netlist);
        let counts = count_wires(&bits);
        let previous: usize = netlist.cells.len();
        let mut kept: usize = 0;
        let mut seen: usize = 0;
        let ghost models = before.cells;
        while seen < previous
            invariant
                kept <= seen <= previous,
                previous == models.len(),
                bits@ == loads(before),
                counts@ == count_map(bits@),
                models == before.cells,
                netlist@ == (NetlistModel { cells: cell_models(netlist.cells@), ..before }),
                cell_models(netlist.cells@) == observable_cells(
                    models.take(seen as int),
                    loads(before),
                ) + models.skip(seen as int),
                kept == observable_cells(models.take(seen as int), loads(before)).len(),
            decreases previous - seen,
        {
            let ghost now = cell_models(netlist.cells@);
            let ghost head = observable_cells(models.take(seen as int), loads(before));
            assert(now == head + models.skip(seen as int));
            assert(now.len() == kept + (models.len() - seen));
            assert(now[kept as int] == models[seen as int]);
            assert(now.len() == netlist.cells@.len());
            assert(models.take(seen + 1).drop_last() =~= models.take(seen as int));
            assert(netlist.cells@[kept as int]@ == models[seen as int]);
            let keep: bool = !starts_with(mapped_cell_name(&netlist.cells[kept]).as_str(), "retime_")
                || drives_counted(&netlist.cells[kept], &counts, Ghost(bits@));
            if keep {
                assert(now =~= head.push(models[seen as int]) + models.skip(seen + 1));
                kept += 1;
            } else {
                netlist.cells.remove(kept);
                assert(cell_models(netlist.cells@) =~= now.remove(kept as int));
                assert(cell_models(netlist.cells@) =~= head + models.skip(seen + 1));
            }
            seen += 1;
        }
        proof {
            assert(models.take(models.len() as int) =~= models);
            assert(cell_models(netlist.cells@) =~= observable_cells(models, loads(before)));
            lemma_observable_len(models, loads(before));
        }
        let removed: usize = previous - netlist.cells.len();
        netlist.equivalence_proof.unobservable_cells_removed =
        netlist.equivalence_proof.unobservable_cells_removed.saturating_add(removed);
        assert(netlist@ =~= pruned_once(before));
        if removed == 0 {
            assert(netlist@ =~= before);
            break;
        }
    }
}

/// The first wire number above every one in use; none when the last number is
/// in use.
pub open spec fn next_free_wire(netlist: NetlistModel) -> Option<u32> {
    match maximum_wire(netlist) {
        None => Some(1),
        Some(wire) => if wire == u32::MAX {
            None
        } else {
            Some((wire + 1) as u32)
        },
    }
}

/// The first wire number above every one in use.
pub fn free_wire(netlist: &Ecp5Netlist) -> (wire: Option<u32>)
    ensures
        wire == next_free_wire(netlist@),
{
    match maximum_mapped_wire(netlist) {
        None => Some(1),
        Some(wire) => if wire == u32::MAX {
            None
        } else {
            Some(wire + 1)
        },
    }
}

/// What a cell drives is driven by the cells.
pub proof fn lemma_cell_output(cells: Seq<CellModel>, index: int, bit: Bit)
    requires
        0 <= index < cells.len(),
        cell_outputs(cells[index]).contains(bit),
    ensures
        cells_outputs(cells).contains(bit),
    decreases cells.len(),
{
    let rest = cells_outputs(cells.drop_last());
    let last = cell_outputs(cells.last());
    if index == cells.len() - 1 {
        let k = choose|k: int| 0 <= k < last.len() && last[k] == bit;
        assert((rest + last)[rest.len() + k] == bit);
    } else {
        lemma_cell_output(cells.drop_last(), index, bit);
        let k = choose|k: int| 0 <= k < rest.len() && rest[k] == bit;
        assert((rest + last)[k] == bit);
    }
}

/// No cell drives a wire above the maximum.
pub proof fn lemma_maximum_wire(netlist: NetlistModel, index: int, wire: u32)
    requires
        0 <= index < netlist.cells.len(),
        cell_outputs(netlist.cells[index]).contains(Bit::Wire(wire)),
    ensures
        maximum_wire(netlist) is Some,
        wire <= maximum_wire(netlist)->0,
{
    let ports = ports_bits(netlist.ports);
    let outputs = cells_outputs(netlist.cells);
    lemma_cell_output(netlist.cells, index, Bit::Wire(wire));
    let k = choose|k: int| 0 <= k < outputs.len() && outputs[k] == Bit::Wire(wire);
    assert((ports + outputs)[ports.len() + k] == Bit::Wire(wire));
    lemma_largest_wire(ports + outputs);
    assert((ports + outputs).contains(Bit::Wire(wire)));
}

/// No port has a wire above the maximum.
pub proof fn lemma_maximum_port(netlist: NetlistModel, at: int, wire: u32)
    requires
        0 <= at < ports_bits(netlist.ports).len(),
        ports_bits(netlist.ports)[at] == Bit::Wire(wire),
    ensures
        maximum_wire(netlist) is Some,
        wire <= maximum_wire(netlist)->0,
{
    let ports = ports_bits(netlist.ports);
    let outputs = cells_outputs(netlist.cells);
    assert((ports + outputs)[at] == Bit::Wire(wire));
    lemma_largest_wire(ports + outputs);
    assert((ports + outputs).contains(Bit::Wire(wire)));
}

/// The wires that input ports bring in.
pub open spec fn port_inputs(netlist: NetlistModel) -> Seq<Bit> {
    directed_bits(netlist.ports, PortDirection::Input)
}

/// Whether every driven wire has one driver: no two cell outputs share a wire,
/// and none is also an input port.
pub open spec fn drives_once(netlist: NetlistModel) -> bool {
    let outputs = cells_outputs(netlist.cells);
    &&& forall|i: int, j: int|
        0 <= i < j < outputs.len() && outputs[i] is Wire ==> outputs[i] != outputs[j]
    &&& forall|i: int|
        0 <= i < outputs.len() && (#[trigger] outputs[i]) is Wire ==> !port_inputs(
            netlist,
        ).contains(outputs[i])
}

/// Whether `bit` is a constant, an input port or a cell output.
pub open spec fn is_driven(netlist: NetlistModel, bit: Bit) -> bool {
    bit is Wire ==> port_inputs(netlist).contains(bit) || cells_outputs(netlist.cells).contains(
        bit,
    )
}

/// Whether every wire that a cell or an output port reads has a driver.
pub open spec fn reads_driven(netlist: NetlistModel) -> bool {
    forall|i: int| 0 <= i < loads(netlist).len() ==> is_driven(netlist, #[trigger] loads(netlist)[i])
}

/// Whether a netlist passes sign-off: its ledger is valid and, where a
/// candidate was applied, not empty; every wire has one driver; every wire
/// that is read has one.
pub open spec fn signs_off(netlist: NetlistModel, applied: bool) -> bool {
    &&& netlist.proof.valid
    &&& applied ==> netlist.proof.certified_primitive_moves != 0
        || netlist.proof.equivalent_logic_replications != 0
    &&& drives_once(netlist)
    &&& reads_driven(netlist)
}

/// Whether a netlist passes sign-off.
pub fn verify_mapped_equivalence_proof(netlist: &Ecp5Netlist, applied: bool) -> (accepted: bool)
    ensures
        accepted == signs_off(netlist@, applied),
{
    broadcast use vstd::std_specs::hash::group_hash_axioms;

    let ledger = &netlist.equivalence_proof;
    if !ledger.valid || (applied && ledger.certified_primitive_moves == 0
        && ledger.equivalent_logic_replications == 0) {
        return false;
    }
    let inputs = all_directed_bits(&netlist.ports, PortDirection::Input);
    let outputs = all_cell_outputs(&netlist.cells);
    let mut driven: HashSet<u32> = HashSet::new();
    for i in 0..inputs.len()
        invariant
            inputs@ == port_inputs(netlist@),
            forall|wire: u32| #[trigger]
                driven@.contains(wire) <==> inputs@.take(i as int).contains(Bit::Wire(wire)),
    {
        let ghost before = inputs@.take(i as int);
        let ghost after = inputs@.take(i + 1);
        assert(after =~= before.push(inputs@[i as int]));
        let ghost prior = driven@;
        if let Bit::Wire(wire) = inputs[i] {
            driven.insert(wire);
        }
        assert forall|wire: u32| #[trigger] driven@.contains(wire) <==> after.contains(
            Bit::Wire(wire),
        ) by {
            assert(prior.contains(wire) <==> before.contains(Bit::Wire(wire)));
            if before.contains(Bit::Wire(wire)) {
                let k = choose|k: int| 0 <= k < before.len() && before[k] == Bit::Wire(wire);
                assert(after[k] == Bit::Wire(wire));
            }
            if after.contains(Bit::Wire(wire)) {
                let k = choose|k: int| 0 <= k < after.len() && after[k] == Bit::Wire(wire);
                if k < i {
                    assert(before[k] == Bit::Wire(wire));
                }
            }
            assert(after[i as int] == inputs@[i as int]);
        }
    }
    assert(inputs@.take(inputs@.len() as int) =~= inputs@);
    for i in 0..outputs.len()
        invariant
            inputs@ == port_inputs(netlist@),
            outputs@ == cells_outputs(netlist@.cells),
            forall|wire: u32| #[trigger]
                driven@.contains(wire) <==> inputs@.contains(Bit::Wire(wire)) || outputs@.take(
                    i as int,
                ).contains(Bit::Wire(wire)),
            forall|a: int, b: int|
                0 <= a < b < i && outputs@[a] is Wire ==> outputs@[a] != outputs@[b],
            forall|a: int|
                0 <= a < i && (#[trigger] outputs@[a]) is Wire ==> !inputs@.contains(outputs@[a]),
    {
        let ghost before = outputs@.take(i as int);
        let ghost after = outputs@.take(i + 1);
        assert(after =~= before.push(outputs@[i as int]));
        let ghost prior = driven@;
        if let Bit::Wire(wire) = outputs[i] {
            if driven.contains(&wire) {
                proof {
                    if !inputs@.contains(Bit::Wire(wire)) {
                        assert(before.contains(Bit::Wire(wire)));
                        let k = choose|k: int|
                            0 <= k < before.len() && before[k] == Bit::Wire(wire);
                        assert(outputs@[k] == outputs@[i as int]);
                    }
                }
                assert(!drives_once(netlist@));
                return false;
            }
            driven.insert(wire);
            assert forall|a: int| 0 <= a < i implies outputs@[a] != outputs@[i as int] by {
                if outputs@[a] == outputs@[i as int] {
                    assert(before[a] == Bit::Wire(wire));
                    assert(before.contains(Bit::Wire(wire)));
                }
            }
        }
        assert forall|wire: u32| #[trigger] driven@.contains(wire) <==> inputs@.contains(
            Bit::Wire(wire),
        ) || after.contains(Bit::Wire(wire)) by {
            assert(prior.contains(wire) <==> inputs@.contains(Bit::Wire(wire)) || before.contains(
                Bit::Wire(wire),
            ));
            if before.contains(Bit::Wire(wire)) {
                let k = choose|k: int| 0 <= k < before.len() && before[k] == Bit::Wire(wire);
                assert(after[k] == Bit::Wire(wire));
            }
            if after.contains(Bit::Wire(wire)) {
                let k = choose|k: int| 0 <= k < after.len() && after[k] == Bit::Wire(wire);
                if k < i {
                    assert(before[k] == Bit::Wire(wire));
                }
            }
            assert(after[i as int] == outputs@[i as int]);
        }
    }
    assert(outputs@.take(outputs@.len() as int) =~= outputs@);
    assert(drives_once(netlist@));
    let bits = netlist_loads(netlist);
    for i in 0..bits.len()
        invariant
            inputs@ == port_inputs(netlist@),
            outputs@ == cells_outputs(netlist@.cells),
            bits@ == loads(netlist@),
            forall|wire: u32| #[trigger]
                driven@.contains(wire) <==> inputs@.contains(Bit::Wire(wire)) || outputs@.contains(
                    Bit::Wire(wire),
                ),
            forall|j: int| 0 <= j < i ==> is_driven(netlist@, #[trigger] bits@[j]),
    {
        if let Bit::Wire(wire) = bits[i] {
            if !driven.contains(&wire) {
                assert(!is_driven(netlist@, loads(netlist@)[i as int]));
                return false;
            }
        }
        assert(is_driven(netlist@, bits@[i as int]));
    }
    true
}

} // verus!
