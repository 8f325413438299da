//! Scores that choose between mapping and retiming candidates.

use vstd::prelude::*;

use crate::cells::{clamped, CellModel, Ecp5Cell};
use crate::netlist::{cell_models, Ecp5Netlist, NetlistModel};
use crate::profile::{MappedLutProfile, ProfileModel};
use crate::timing::sat;

verus! {

/// Timing and area of one mapping candidate.
#[derive(Clone, Copy, Debug, Eq, PartialEq, Structural)]
pub struct MappingCandidateScore {
    /// Longest period of any synchronous or constrained path.
    pub overall_period_ps: u32,
    /// Longest register-to-register period.
    pub data_period_ps: u32,
    /// Occupied LUT slices.
    pub logic_slices: usize,
    /// Flip-flops.
    pub registers: usize,
    /// Emitted combinational primitives.
    pub emitted_comb: usize,
    /// All primitives.
    pub cells: usize,
}

/// Whether one tuple of counts comes before another, first entry first.
pub open spec fn counts_before(
    a: (usize, usize, usize, usize, usize, usize),
    b: (usize, usize, usize, usize, usize, usize),
) -> bool {
    if a.0 != b.0 {
        a.0 < b.0
    } else if a.1 != b.1 {
        a.1 < b.1
    } else if a.2 != b.2 {
        a.2 < b.2
    } else if a.3 != b.3 {
        a.3 < b.3
    } else if a.4 != b.4 {
        a.4 < b.4
    } else {
        a.5 < b.5
    }
}

fn counts_less(
    a: (usize, usize, usize, usize, usize, usize),
    b: (usize, usize, usize, usize, usize, usize),
) -> (less: bool)
    ensures
        less == counts_before(a, b),
{
    if a.0 != b.0 {
        a.0 < b.0
    } else if a.1 != b.1 {
        a.1 < b.1
    } else if a.2 != b.2 {
        a.2 < b.2
    } else if a.3 != b.3 {
        a.3 < b.3
    } else if a.4 != b.4 {
        a.4 < b.4
    } else {
        a.5 < b.5
    }
}

impl MappingCandidateScore {
    /// Whether the candidate closes the period.
    pub open spec fn closes(self, target_period_ps: u32) -> bool {
        self.overall_period_ps <= target_period_ps
    }

    /// The area in the order in which it counts: slices and registers
    /// together, emitted primitives, cells, the scarcer of slices and
    /// registers, then each of these alone.
    pub open spec fn area(self) -> (usize, usize, usize, usize, usize, usize) {
        (
            clamped(self.logic_slices as nat + self.registers as nat),
            self.emitted_comb,
            self.cells,
            if self.logic_slices < self.registers {
                self.registers
            } else {
                self.logic_slices
            },
            self.logic_slices,
            self.registers,
        )
    }

    /// Whether the candidate closes the period.
    pub fn meets(self, target_period_ps: u32) -> (closes: bool)
        ensures
            closes == self.closes(target_period_ps),
    {
        self.overall_period_ps <= target_period_ps
    }

    /// The area in the order in which it counts.
    pub fn area_key(self) -> (key: (usize, usize, usize, usize, usize, usize))
        ensures
            key == self.area(),
    {
        (
            self.logic_slices.saturating_add(self.registers),
            self.emitted_comb,
            self.cells,
            if self.logic_slices < self.registers {
                self.registers
            } else {
                self.logic_slices
            },
            self.logic_slices,
            self.registers,
        )
    }
}

/// Whether one period pair comes before another.
pub open spec fn periods_before(a: MappingCandidateScore, b: MappingCandidateScore) -> bool {
    if a.overall_period_ps != b.overall_period_ps {
        a.overall_period_ps < b.overall_period_ps
    } else {
        a.data_period_ps < b.data_period_ps
    }
}

/// Whether two candidates have the same periods.
pub open spec fn same_periods(a: MappingCandidateScore, b: MappingCandidateScore) -> bool {
    a.overall_period_ps == b.overall_period_ps && a.data_period_ps == b.data_period_ps
}

/// Whether `candidate` beats `incumbent`: closing the period comes first;
/// between two that close it area decides, then period; between two that do
/// not, period decides, then area.
pub open spec fn is_better(
    candidate: MappingCandidateScore,
    incumbent: MappingCandidateScore,
    target_period_ps: u32,
) -> bool {
    if candidate.closes(target_period_ps) != incumbent.closes(target_period_ps) {
        candidate.closes(target_period_ps)
    } else if candidate.closes(target_period_ps) {
        counts_before(candidate.area(), incumbent.area()) || (candidate.area() == incumbent.area()
            && periods_before(candidate, incumbent))
    } else {
        periods_before(candidate, incumbent) || (same_periods(candidate, incumbent)
            && counts_before(candidate.area(), incumbent.area()))
    }
}

/// Whether `candidate` beats `incumbent`.
pub fn mapping_candidate_is_better(
    candidate: MappingCandidateScore,
    incumbent: MappingCandidateScore,
    target_period_ps: u32,
) -> (better: bool)
    ensures
        better == is_better(candidate, incumbent, target_period_ps),
{
    let ours: bool = candidate.meets(target_period_ps);
    let theirs: bool = incumbent.meets(target_period_ps);
    if ours != theirs {
        return ours;
    }
    let smaller: bool = counts_less(candidate.area_key(), incumbent.area_key());
    let larger: bool = counts_less(incumbent.area_key(), candidate.area_key());
    let faster: bool = if candidate.overall_period_ps != incumbent.overall_period_ps {
        candidate.overall_period_ps < incumbent.overall_period_ps
    } else {
        candidate.data_period_ps < incumbent.data_period_ps
    };
    let equally_fast: bool = candidate.overall_period_ps == incumbent.overall_period_ps
        && candidate.data_period_ps == incumbent.data_period_ps;
    if ours {
        smaller || (!larger && faster)
    } else {
        faster || (equally_fast && smaller)
    }
}

/// A quarter more than `count`, rounded up, and thirty-two.
pub open spec fn growth_limit(count: nat) -> nat {
    count + (count + 3) / 4 + 32
}

/// The largest count that a candidate may reach from `count`, up to the
/// largest `usize`.
pub fn mapping_growth_limit(count: usize) -> (limit: usize)
    ensures
        limit == clamped(growth_limit(count as nat)),
{
    let limit: u128 = count as u128 + (count as u128 + 3) / 4 + 32;
    if limit > usize::MAX as u128 {
        usize::MAX
    } else {
        limit as usize
    }
}

/// Whether `candidate` stays within the growth limit of each of the counts of
/// `reference`.
pub open spec fn is_bounded(
    reference: MappingCandidateScore,
    candidate: MappingCandidateScore,
) -> bool {
    &&& candidate.logic_slices <= growth_limit(reference.logic_slices as nat)
    &&& candidate.registers <= growth_limit(reference.registers as nat)
    &&& candidate.emitted_comb <= growth_limit(reference.emitted_comb as nat)
    &&& candidate.cells <= growth_limit(reference.cells as nat)
}

/// Whether `candidate` stays within the growth limits of `reference`.
pub fn mapping_growth_is_bounded(
    reference: MappingCandidateScore,
    candidate: MappingCandidateScore,
) -> (bounded: bool)
    ensures
        bounded == is_bounded(reference, candidate),
{
    candidate.logic_slices <= mapping_growth_limit(reference.logic_slices) && candidate.registers
        <= mapping_growth_limit(reference.registers) && candidate.emitted_comb
        <= mapping_growth_limit(reference.emitted_comb) && candidate.cells
        <= mapping_growth_limit(reference.cells)
}

/// Whether `candidate` replaces `incumbent`: it must beat it within the growth
/// limits of the resource reference.
pub fn mapping_candidate_is_selected(
    candidate: MappingCandidateScore,
    incumbent: MappingCandidateScore,
    resource_reference: MappingCandidateScore,
    target_period_ps: u32,
) -> (selected: bool)
    ensures
        selected == (is_bounded(resource_reference, candidate) && is_better(
            candidate,
            incumbent,
            target_period_ps,
        )),
{
    mapping_growth_is_bounded(resource_reference, candidate) && mapping_candidate_is_better(
        candidate,
        incumbent,
        target_period_ps,
    )
}

/// No candidate beats itself.
pub proof fn law_better_is_irreflexive(score: MappingCandidateScore, target_period_ps: u32)
    ensures
        !is_better(score, score, target_period_ps),
{
}

/// If one candidate beats a second and the second a third, the first beats the
/// third.
pub proof fn law_better_is_transitive(
    a: MappingCandidateScore,
    b: MappingCandidateScore,
    c: MappingCandidateScore,
    target_period_ps: u32,
)
    requires
        is_better(a, b, target_period_ps),
        is_better(b, c, target_period_ps),
    ensures
        is_better(a, c, target_period_ps),
{
}

/// Of two different candidates one beats the other.
pub proof fn law_better_is_total(
    a: MappingCandidateScore,
    b: MappingCandidateScore,
    target_period_ps: u32,
)
    ensures
        a == b || is_better(a, b, target_period_ps) || is_better(b, a, target_period_ps),
{
}

/// A candidate that closes the period beats every one that does not.
pub proof fn law_closing_beats_not_closing(
    a: MappingCandidateScore,
    b: MappingCandidateScore,
    target_period_ps: u32,
)
    requires
        a.closes(target_period_ps),
        !b.closes(target_period_ps),
    ensures
        is_better(a, b, target_period_ps),
        !is_better(b, a, target_period_ps),
{
}

/// Slack beyond the requested period buys nothing: between two candidates that
/// close it, one with more area never wins.
pub proof fn law_no_area_for_unused_slack(
    a: MappingCandidateScore,
    b: MappingCandidateScore,
    target_period_ps: u32,
)
    requires
        a.closes(target_period_ps),
        b.closes(target_period_ps),
        counts_before(b.area(), a.area()),
    ensures
        !is_better(a, b, target_period_ps),
{
}

/// How many LUT slices one cell occupies. A carry primitive holds two.
pub open spec fn slices_of(cell: CellModel) -> nat {
    match cell {
        CellModel::Lut4 { .. } => 1,
        CellModel::Ccu2c { .. } => 2,
        _ => 0,
    }
}

/// How many LUT slices the cells occupy.
pub open spec fn slice_count(cells: Seq<CellModel>) -> nat
    decreases cells.len(),
{
    if cells.len() == 0 {
        0
    } else {
        slice_count(cells.drop_last()) + slices_of(cells.last())
    }
}

/// Whether a cell is an emitted combinational primitive.
pub open spec fn is_comb(cell: CellModel) -> bool {
    cell is Lut4 || cell is PfuMux || cell is L6Mux21 || cell is Ccu2c
}

/// How many cells are emitted combinational primitives.
pub open spec fn comb_count(cells: Seq<CellModel>) -> nat
    decreases cells.len(),
{
    if cells.len() == 0 {
        0
    } else {
        comb_count(cells.drop_last()) + if is_comb(cells.last()) {
            1nat
        } else {
            0
        }
    }
}

/// How many cells are flip-flops.
pub open spec fn register_count(cells: Seq<CellModel>) -> nat
    decreases cells.len(),
{
    if cells.len() == 0 {
        0
    } else {
        register_count(cells.drop_last()) + if cells.last() is FlipFlop {
            1nat
        } else {
            0
        }
    }
}

/// How many LUT slices the cells occupy.
pub fn mapped_logic_slice_count(netlist: &Ecp5Netlist) -> (count: usize)
    ensures
        count == clamped(slice_count(netlist@.cells)),
{
    let ghost models = netlist@.cells;
    let mut count: usize = 0;
    for i in 0..netlist.cells.len()
        invariant
            models == cell_models(netlist.cells@),
            count == clamped(slice_count(models.take(i as int))),
    {
        assert(models.take(i + 1).drop_last() =~= models.take(i as int));
        let more: usize = match &netlist.cells[i] {
            Ecp5Cell::Lut4 { .. } => 1,
            Ecp5Cell::Ccu2c { .. } => 2,
            _ => 0,
        };
        count = count.saturating_add(more);
    }
    assert(models.take(models.len() as int) =~= models);
    count
}

/// How many cells are emitted combinational primitives.
pub fn mapped_emitted_comb_count(netlist: &Ecp5Netlist) -> (count: usize)
    ensures
        count == comb_count(netlist@.cells),
{
    let ghost models = netlist@.cells;
    let mut count: usize = 0;
    for i in 0..netlist.cells.len()
        invariant
            models == cell_models(netlist.cells@),
            count == comb_count(models.take(i as int)),
            count <= i,
    {
        assert(models.take(i + 1).drop_last() =~= models.take(i as int));
        let emitted: bool = match &netlist.cells[i] {
            Ecp5Cell::Lut4 { .. } => true,
            Ecp5Cell::PfuMux { .. } => true,
            Ecp5Cell::L6Mux21 { .. } => true,
            Ecp5Cell::Ccu2c { .. } => true,
            _ => false,
        };
        if emitted {
            count = count + 1;
        }
    }
    assert(models.take(models.len() as int) =~= models);
    count
}

/// How many cells are flip-flops.
pub fn mapped_register_count(netlist: &Ecp5Netlist) -> (count: usize)
    ensures
        count == register_count(netlist@.cells),
{
    let ghost models = netlist@.cells;
    let mut count: usize = 0;
    for i in 0..netlist.cells.len()
        invariant
            models == cell_models(netlist.cells@),
            count == register_count(models.take(i as int)),
            count <= i,
    {
        assert(models.take(i + 1).drop_last() =~= models.take(i as int));
        if let Ecp5Cell::FlipFlop { .. } = &netlist.cells[i] {
            count = count + 1;
        }
    }
    assert(models.take(models.len() as int) =~= models);
    count
}

/// The score of a netlist with this profile.
pub open spec fn candidate_score(
    netlist: NetlistModel,
    profile: ProfileModel,
) -> MappingCandidateScore {
    MappingCandidateScore {
        overall_period_ps: profile.overall_period_ps,
        data_period_ps: profile.data_period_ps,
        logic_slices: clamped(slice_count(netlist.cells)),
        registers: register_count(netlist.cells) as usize,
        emitted_comb: comb_count(netlist.cells) as usize,
        cells: netlist.cells.len() as usize,
    }
}

/// The score of a netlist with this profile.
pub fn mapping_candidate_score(netlist: &Ecp5Netlist, profile: &MappedLutProfile) -> (score:
    MappingCandidateScore)
    ensures
        score == candidate_score(netlist@, profile@),
{
    MappingCandidateScore {
        overall_period_ps: profile.overall_period_ps,
        data_period_ps: profile.data_period_ps,
        logic_slices: mapped_logic_slice_count(netlist),
        registers: mapped_register_count(netlist),
        emitted_comb: mapped_emitted_comb_count(netlist),
        cells: netlist.cells.len(),
    }
}

/// Routing growth, in percent of the baseline, that costs nothing.
pub const CONGESTION_ALLOWANCE_PERCENT: u64 = 2;

/// Period charged for each further percent of routing growth.
pub const CONGESTION_PENALTY_PS_PER_PERCENT: u64 = 250;

/// The routing growth over the baseline in parts per million, computed with
/// saturating products.
pub open spec fn growth_ppm(burden: u64, baseline: u64) -> int {
    let growth = if burden > baseline {
        burden - baseline
    } else {
        0
    };
    let scaled = if growth * 1_000_000 > u64::MAX {
        u64::MAX as int
    } else {
        growth * 1_000_000
    };
    scaled / (if baseline == 0 {
        1
    } else {
        baseline as int
    })
}

/// The period charged for routing growth beyond the allowance.
pub open spec fn congestion_penalty(burden: u64, baseline: u64) -> int {
    let allowance = CONGESTION_ALLOWANCE_PERCENT * 10_000;
    let excess = if growth_ppm(burden, baseline) > allowance {
        growth_ppm(burden, baseline) - allowance
    } else {
        0
    };
    let scaled = if excess * CONGESTION_PENALTY_PS_PER_PERCENT > u64::MAX {
        u64::MAX as int
    } else {
        excess * CONGESTION_PENALTY_PS_PER_PERCENT
    };
    scaled / 10_000
}

/// The period with the congestion charge added.
pub open spec fn adjusted_period(overall_period_ps: u32, burden: u64, baseline: u64) -> u32 {
    sat(overall_period_ps as int, congestion_penalty(burden, baseline))
}

fn saturating_product(a: u64, b: u64) -> (product: u64)
    ensures
        product == if a * b > u64::MAX {
            u64::MAX as int
        } else {
            a * b
        },
{
    match a.checked_mul(b) {
        Some(product) => product,
        None => u64::MAX,
    }
}

/// The period with the congestion charge added.
pub fn congestion_adjusted_overall(
    overall_period_ps: u32,
    burden: u64,
    baseline_burden: u64,
) -> (adjusted: u32)
    ensures
        adjusted == adjusted_period(overall_period_ps, burden, baseline_burden),
{
    let growth: u64 = burden.saturating_sub(baseline_burden);
    let divisor: u64 = if baseline_burden == 0 {
        1
    } else {
        baseline_burden
    };
    let ppm: u64 = saturating_product(growth, 1_000_000) / divisor;
    let excess: u64 = ppm.saturating_sub(CONGESTION_ALLOWANCE_PERCENT * 10_000);
    let penalty: u64 = saturating_product(excess, CONGESTION_PENALTY_PS_PER_PERCENT) / 10_000;
    let charge: u32 = if penalty > u32::MAX as u64 {
        u32::MAX
    } else {
        penalty as u32
    };
    overall_period_ps.saturating_add(charge)
}

/// More routing never makes the adjusted period shorter.
pub proof fn law_congestion_is_monotone(
    overall_period_ps: u32,
    less: u64,
    more: u64,
    baseline_burden: u64,
)
    requires
        less <= more,
    ensures
        adjusted_period(overall_period_ps, less, baseline_burden) <= adjusted_period(
            overall_period_ps,
            more,
            baseline_burden,
        ),
        adjusted_period(overall_period_ps, less, baseline_burden) >= overall_period_ps,
{
    let divisor = if baseline_burden == 0 {
        1
    } else {
        baseline_burden as int
    };
    let clip = |x: int|
        if x > u64::MAX {
            u64::MAX as int
        } else {
            x
        };
    let over = |x: u64|
        if x > baseline_burden {
            x - baseline_burden
        } else {
            0
        };
    let a = clip(over(less) * 1_000_000);
    let b = clip(over(more) * 1_000_000);
    vstd::arithmetic::div_mod::lemma_div_is_ordered(a, b, divisor);
    vstd::arithmetic::div_mod::lemma_div_pos_is_pos(a, divisor);
    assert(growth_ppm(less, baseline_burden) == a / divisor);
    assert(growth_ppm(more, baseline_burden) == b / divisor);
}

/// Growth within the allowance costs nothing.
pub proof fn law_allowance_is_free(overall_period_ps: u32, burden: u64, baseline_burden: u64)
    requires
        burden * 100 <= baseline_burden * (100 + CONGESTION_ALLOWANCE_PERCENT),
    ensures
        adjusted_period(overall_period_ps, burden, baseline_burden) == overall_period_ps,
{
    let divisor = if baseline_burden == 0 {
        1
    } else {
        baseline_burden as int
    };
    let growth = if burden > baseline_burden {
        burden - baseline_burden
    } else {
        0
    };
    let scaled = if growth * 1_000_000 > u64::MAX {
        u64::MAX as int
    } else {
        growth * 1_000_000
    };
    assert(baseline_burden * (100 + CONGESTION_ALLOWANCE_PERCENT) == 102 * baseline_burden)
        by (nonlinear_arith)
        requires
            CONGESTION_ALLOWANCE_PERCENT == 2,
    ;
    assert(growth * 1_000_000 <= 20_000 * divisor);
    vstd::arithmetic::div_mod::lemma_div_is_ordered(scaled, 20_000 * divisor, divisor);
    vstd::arithmetic::div_mod::lemma_div_multiples_vanish(20_000, divisor);
    assert(growth_ppm(burden, baseline_burden) == scaled / divisor);
}

/// The score of a retiming candidate: period first where timing drives the
/// search, depth first where it does not.
pub open spec fn score_of(
    profile: ProfileModel,
    timing_driven: bool,
    cells: usize,
    registers: usize,
    overall_period_ps: u32,
) -> (u64, u64, u64, usize, usize, usize) {
    if timing_driven {
        (
            overall_period_ps as u64,
            profile.data_period_ps as u64,
            profile.data_depth as u64,
            cells,
            registers,
            profile.critical_timing.len() as usize,
        )
    } else {
        (
            profile.data_depth as u64,
            profile.critical_depth.len() as u64,
            overall_period_ps as u64,
            profile.data_period_ps as usize,
            cells,
            registers,
        )
    }
}

/// The score of a retiming candidate.
pub fn retiming_score(
    profile: &MappedLutProfile,
    timing_driven: bool,
    cells: usize,
    registers: usize,
    overall_period_ps: u32,
) -> (score: (u64, u64, u64, usize, usize, usize))
    ensures
        score == score_of(profile@, timing_driven, cells, registers, overall_period_ps),
{
    if timing_driven {
        (
            overall_period_ps as u64,
            profile.data_period_ps as u64,
            profile.data_depth as u64,
            cells,
            registers,
            profile.critical_timing.len(),
        )
    } else {
        (
            profile.data_depth as u64,
            profile.critical_depth.len() as u64,
            overall_period_ps as u64,
            profile.data_period_ps as usize,
            cells,
            registers,
        )
    }
}

/// Whether one retiming score comes before another, first entry first.
pub open spec fn score_before(
    a: (u64, u64, u64, usize, usize, usize),
    b: (u64, u64, u64, usize, usize, usize),
) -> bool {
    if a.0 != b.0 {
        a.0 < b.0
    } else if a.1 != b.1 {
        a.1 < b.1
    } else if a.2 != b.2 {
        a.2 < b.2
    } else if a.3 != b.3 {
        a.3 < b.3
    } else if a.4 != b.4 {
        a.4 < b.4
    } else {
        a.5 < b.5
    }
}

/// Whether one retiming score comes before another, first entry first.
pub fn score_less(
    a: (u64, u64, u64, usize, usize, usize),
    b: (u64, u64, u64, usize, usize, usize),
) -> (less: bool)
    ensures
        less == score_before(a, b),
{
    if a.0 != b.0 {
        a.0 < b.0
    } else if a.1 != b.1 {
        a.1 < b.1
    } else if a.2 != b.2 {
        a.2 < b.2
    } else if a.3 != b.3 {
        a.3 < b.3
    } else if a.4 != b.4 {
        a.4 < b.4
    } else {
        a.5 < b.5
    }
}

/// Where timing drives the search, two candidates of equal period and depth
/// compare by area before they compare by how many endpoints are critical.
pub proof fn law_flat_period_keeps_area(
    candidate: ProfileModel,
    baseline: ProfileModel,
    cells: usize,
    baseline_cells: usize,
    registers: usize,
    baseline_registers: usize,
    overall_period_ps: u32,
)
    requires
        candidate.data_period_ps == baseline.data_period_ps,
        candidate.data_depth == baseline.data_depth,
        baseline_cells < cells,
    ensures
        score_before(
            score_of(baseline, true, baseline_cells, baseline_registers, overall_period_ps),
            score_of(candidate, true, cells, registers, overall_period_ps),
        ),
{
}

} // verus!
