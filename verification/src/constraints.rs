//! Mapping options and timing constraints.

use vstd::prelude::*;

use crate::names::with_entry;
use crate::names::NameMap;

verus! {

/// Default implementation-quality target for ECP5 speed-grade 8 designs.
///
/// This constrains place-and-route quality independently of the 12 MHz
/// reference clock used by the no-PLL evaluation-board smoke test.
pub const ECP5_QOR_TARGET_MHZ: u32 = 300;

/// How retained word-level arithmetic is implemented on ECP5.
#[derive(Clone, Copy, Debug, Eq, PartialEq, Structural)]
pub enum ArithmeticMapping {
    /// Use CCU2C above four bits and LUTs for smaller operations.
    Auto,
    /// Always use the dedicated CCU2C carry chain.
    CarryChain,
    /// Implement a ripple carry using ordinary LUT4 cells.
    Lut4,
}

/// Technology-mapping choices used for experiments and regression tests.
#[derive(Clone, Copy, Debug, Eq, PartialEq, Structural)]
pub struct MappingOptions {
    /// Arithmetic implementation strategy.
    pub arithmetic: ArithmeticMapping,
    /// Clock frequency used by timing-driven LUT covering.
    pub timing_goal_mhz: u32,
}

impl Default for MappingOptions {
    fn default() -> (options: Self)
        ensures
            options.arithmetic is Auto,
            options.timing_goal_mhz == ECP5_QOR_TARGET_MHZ,
    {
        MappingOptions {
            arithmetic: ArithmeticMapping::Auto,
            timing_goal_mhz: ECP5_QOR_TARGET_MHZ,
        }
    }
}

/// Explicit timing delays for top-level ports in the mapper's single-period
/// timing model.
///
/// Ports absent from these maps are unconstrained. An input delay is the
/// arrival time at the FPGA boundary after the launching clock edge; an output
/// delay is the portion of the period reserved beyond the FPGA boundary.
#[derive(Clone, Debug, Eq, PartialEq)]
pub struct IoTimingConstraints {
    /// Maximum input arrival delay by source-level port name, in picoseconds.
    pub input_delays_ps: NameMap<u32>,
    /// External output delay by source-level port name, in picoseconds.
    pub output_delays_ps: NameMap<u32>,
}

/// What [`IoTimingConstraints`] hold.
#[verifier::ext_equal]
pub struct DelaysModel {
    pub inputs: Seq<(Seq<char>, u32)>,
    pub outputs: Seq<(Seq<char>, u32)>,
}

impl View for IoTimingConstraints {
    type V = DelaysModel;

    open spec fn view(&self) -> DelaysModel {
        DelaysModel { inputs: self.input_delays_ps@, outputs: self.output_delays_ps@ }
    }
}

impl Default for IoTimingConstraints {
    fn default() -> (constraints: Self)
        ensures
            constraints@ == (DelaysModel { inputs: seq![], outputs: seq![] }),
    {
        IoTimingConstraints::new()
    }
}

impl IoTimingConstraints {
    /// Creates an empty set of I/O timing constraints.
    pub fn new() -> (constraints: Self)
        ensures
            constraints@ == (DelaysModel { inputs: seq![], outputs: seq![] }),
    {
        let constraints = IoTimingConstraints {
            input_delays_ps: NameMap::new(),
            output_delays_ps: NameMap::new(),
        };
        assert(constraints@ =~= (DelaysModel { inputs: seq![], outputs: seq![] }));
        constraints
    }

    /// Sets the external arrival delay of one input port.
    pub fn with_input_delay_ps(self, port: &str, delay_ps: u32) -> (constraints: Self)
        ensures
            constraints@ == (DelaysModel {
                inputs: with_entry(self@.inputs, port@, delay_ps),
                ..self@
            }),
    {
        let mut constraints = self;
        constraints.input_delays_ps.insert(port.to_owned(), delay_ps);
        constraints
    }

    /// Sets the external delay of one output port.
    pub fn with_output_delay_ps(self, port: &str, delay_ps: u32) -> (constraints: Self)
        ensures
            constraints@ == (DelaysModel {
                outputs: with_entry(self@.outputs, port@, delay_ps),
                ..self@
            }),
    {
        let mut constraints = self;
        constraints.output_delays_ps.insert(port.to_owned(), delay_ps);
        constraints
    }
}

/// One named clock at the mapped design boundary.
#[derive(Clone, Debug, Eq, PartialEq)]
pub struct TimingClockConstraint {
    /// Source-level top port carrying the clock.
    pub port: String,
    /// Nominal period in picoseconds.
    pub period_ps: u32,
    /// Uncertainty subtracted from the period.
    pub uncertainty_ps: u32,
}

/// A clock constraint's period less its uncertainty, where that is positive.
pub open spec fn usable_period(period_ps: u32, uncertainty_ps: u32) -> Option<u32> {
    if period_ps > uncertainty_ps {
        Some((period_ps - uncertainty_ps) as u32)
    } else {
        None
    }
}

impl TimingClockConstraint {
    /// Returns the positive period available after uncertainty.
    pub fn effective_period_ps(&self) -> (period: Option<u32>)
        ensures
            period == usable_period(self.period_ps, self.uncertainty_ps),
    {
        if self.period_ps > self.uncertainty_ps {
            Some(self.period_ps - self.uncertainty_ps)
        } else {
            None
        }
    }
}

/// One timing path selected by source-level endpoint names.
#[derive(Clone, Debug, Eq, PartialEq)]
pub struct TimingPathConstraint {
    /// Startpoint name.
    pub from: String,
    /// Endpoint name.
    pub to: String,
}

/// One timing path allowed several clock cycles.
#[derive(Clone, Debug, Eq, PartialEq)]
pub struct MulticyclePathConstraint {
    /// Startpoint name.
    pub from: String,
    /// Endpoint name.
    pub to: String,
    /// Setup cycles granted to the path.
    pub setup_cycles: u32,
}

/// Timing context shared by technology mapping and place-and-route.
#[derive(Clone, Debug, Eq, PartialEq)]
pub struct TimingConstraints {
    /// Named clocks.
    pub clocks: NameMap<TimingClockConstraint>,
    /// Input arrival delays by port name, in picoseconds.
    pub input_delays_ps: NameMap<u32>,
    /// External output delays by port name, in picoseconds.
    pub output_delays_ps: NameMap<u32>,
    /// Paths that need no timing.
    pub false_paths: Vec<TimingPathConstraint>,
    /// Paths that may take several cycles.
    pub multicycle_paths: Vec<MulticyclePathConstraint>,
}

/// The smaller of two optional periods; an absent one is no bound.
pub open spec fn tighter(a: Option<u32>, b: Option<u32>) -> Option<u32> {
    match (a, b) {
        (Some(x), Some(y)) => if y < x {
            b
        } else {
            a
        },
        (Some(_), None) => a,
        (None, _) => b,
    }
}

/// The smallest usable period of the clocks.
pub open spec fn tightest(clocks: Seq<(Seq<char>, TimingClockConstraint)>) -> Option<u32>
    decreases clocks.len(),
{
    if clocks.len() == 0 {
        None
    } else {
        tighter(
            tightest(clocks.drop_last()),
            usable_period(clocks.last().1.period_ps, clocks.last().1.uncertainty_ps),
        )
    }
}

/// The tightest period is the usable period of some clock, and none is smaller.
pub proof fn law_tightest_is_least(clocks: Seq<(Seq<char>, TimingClockConstraint)>, i: int)
    requires
        0 <= i < clocks.len(),
    ensures
        usable_period(clocks[i].1.period_ps, clocks[i].1.uncertainty_ps) matches Some(period)
            ==> tightest(clocks) is Some && tightest(clocks)->0 <= period,
        tightest(clocks) matches Some(least) ==> exists|j: int|
            0 <= j < clocks.len() && #[trigger] usable_period(
                clocks[j].1.period_ps,
                clocks[j].1.uncertainty_ps,
            ) == Some(least),
    decreases clocks.len(),
{
    let rest = clocks.drop_last();
    let last = clocks.len() - 1;
    if i < last {
        law_tightest_is_least(rest, i);
    } else if rest.len() > 0 {
        law_tightest_is_least(rest, 0);
    }
    if let Some(least) = tightest(clocks) {
        if usable_period(clocks[last].1.period_ps, clocks[last].1.uncertainty_ps) == Some(least) {
        } else {
            assert(rest.len() > 0);
            let j = choose|j: int|
                0 <= j < rest.len() && #[trigger] usable_period(
                    rest[j].1.period_ps,
                    rest[j].1.uncertainty_ps,
                ) == Some(least);
            assert(clocks[j] == rest[j]);
            assert(usable_period(clocks[j].1.period_ps, clocks[j].1.uncertainty_ps) == Some(least));
        }
    }
}

impl Default for TimingConstraints {
    fn default() -> (constraints: Self)
        ensures
            constraints.clocks@.len() == 0,
            constraints.input_delays_ps@.len() == 0,
            constraints.output_delays_ps@.len() == 0,
            constraints.false_paths@.len() == 0,
            constraints.multicycle_paths@.len() == 0,
    {
        TimingConstraints::new()
    }
}

impl TimingConstraints {
    /// Creates an empty timing context.
    pub fn new() -> (constraints: Self)
        ensures
            constraints.clocks@.len() == 0,
            constraints.input_delays_ps@.len() == 0,
            constraints.output_delays_ps@.len() == 0,
            constraints.false_paths@.len() == 0,
            constraints.multicycle_paths@.len() == 0,
    {
        TimingConstraints {
            clocks: NameMap::new(),
            input_delays_ps: NameMap::new(),
            output_delays_ps: NameMap::new(),
            false_paths: Vec::new(),
            multicycle_paths: Vec::new(),
        }
    }

    /// Adds or replaces one named clock.
    pub fn with_clock(self, name: &str, clock: TimingClockConstraint) -> (constraints: Self)
        ensures
            constraints.clocks@ == with_entry(self.clocks@, name@, clock),
            constraints.input_delays_ps == self.input_delays_ps,
            constraints.output_delays_ps == self.output_delays_ps,
            constraints.false_paths == self.false_paths,
            constraints.multicycle_paths == self.multicycle_paths,
    {
        let mut constraints = self;
        constraints.clocks.insert(name.to_owned(), clock);
        constraints
    }

    /// Sets the external arrival delay of one input port.
    pub fn with_input_delay_ps(self, port: &str, delay_ps: u32) -> (constraints: Self)
        ensures
            constraints.input_delays_ps@ == with_entry(self.input_delays_ps@, port@, delay_ps),
            constraints.clocks == self.clocks,
            constraints.output_delays_ps == self.output_delays_ps,
            constraints.false_paths == self.false_paths,
            constraints.multicycle_paths == self.multicycle_paths,
    {
        let mut constraints = self;
        constraints.input_delays_ps.insert(port.to_owned(), delay_ps);
        constraints
    }

    /// Sets the external delay of one output port.
    pub fn with_output_delay_ps(self, port: &str, delay_ps: u32) -> (constraints: Self)
        ensures
            constraints.output_delays_ps@ == with_entry(self.output_delays_ps@, port@, delay_ps),
            constraints.clocks == self.clocks,
            constraints.input_delays_ps == self.input_delays_ps,
            constraints.false_paths == self.false_paths,
            constraints.multicycle_paths == self.multicycle_paths,
    {
        let mut constraints = self;
        constraints.output_delays_ps.insert(port.to_owned(), delay_ps);
        constraints
    }

    /// Returns the smallest positive effective clock period.
    pub fn tightest_effective_period_ps(&self) -> (period: Option<u32>)
        ensures
            period == tightest(self.clocks@),
    {
        let mut period: Option<u32> = None;
        for i in 0..self.clocks.entries.len()
            invariant
                period == tightest(self.clocks@.take(i as int)),
        {
            assert(self.clocks@.take(i + 1).drop_last() =~= self.clocks@.take(i as int));
            assert(self.clocks@[i as int].1 == self.clocks.entries@[i as int].1);
            let next = self.clocks.entries[i].1.effective_period_ps();
            period = match (period, next) {
                (Some(x), Some(y)) => if y < x {
                    next
                } else {
                    period
                },
                (Some(_), None) => period,
                (None, _) => next,
            };
        }
        assert(self.clocks@.take(self.clocks@.len() as int) =~= self.clocks@);
        period
    }

    /// The port delays alone.
    pub fn io_timing(&self) -> (io_timing: IoTimingConstraints)
        ensures
            io_timing@ == (DelaysModel {
                inputs: self.input_delays_ps@,
                outputs: self.output_delays_ps@,
            }),
    {
        IoTimingConstraints {
            input_delays_ps: self.input_delays_ps.copy_numbers(),
            output_delays_ps: self.output_delays_ps.copy_numbers(),
        }
    }

    /// A timing context with port delays and nothing else.
    pub fn from_io_timing(io_timing: IoTimingConstraints) -> (constraints: Self)
        ensures
            constraints.clocks@.len() == 0,
            constraints.input_delays_ps == io_timing.input_delays_ps,
            constraints.output_delays_ps == io_timing.output_delays_ps,
            constraints.false_paths@.len() == 0,
            constraints.multicycle_paths@.len() == 0,
    {
        TimingConstraints {
            clocks: NameMap::new(),
            input_delays_ps: io_timing.input_delays_ps,
            output_delays_ps: io_timing.output_delays_ps,
            false_paths: Vec::new(),
            multicycle_paths: Vec::new(),
        }
    }
}

/// Clock constraint in an out-of-context timing environment.
pub type OocClockConstraint = TimingClockConstraint;

/// Direct boundary budget of one out-of-context data port.
#[derive(Clone, Debug, Eq, PartialEq)]
pub struct OocPortConstraint {
    /// Named clock that launches or captures the boundary.
    pub clock: String,
    /// Largest delay between the port and its register.
    pub max_boundary_delay_ps: u32,
}

/// Complete out-of-context timing environment of a registered core.
#[derive(Clone, Debug, Eq, PartialEq)]
pub struct OocTimingConstraints {
    /// Named clocks; all need the same period.
    pub clocks: NameMap<OocClockConstraint>,
    /// Data-input budgets by port name.
    pub inputs: NameMap<OocPortConstraint>,
    /// Data-output budgets by port name.
    pub outputs: NameMap<OocPortConstraint>,
    /// Inputs that may only reach asynchronous resets, in name order.
    pub asynchronous_controls: Vec<String>,
}

/// The period that all clocks share.
pub open spec fn common_period(clocks: Seq<(Seq<char>, TimingClockConstraint)>) -> Option<u32> {
    if clocks.len() > 0 && forall|i: int|
        0 <= i < clocks.len() ==> (#[trigger] clocks[i]).1.period_ps == clocks[0].1.period_ps {
        Some(clocks[0].1.period_ps)
    } else {
        None
    }
}

/// The largest uncertainty of the clocks.
pub open spec fn largest_uncertainty(clocks: Seq<(Seq<char>, TimingClockConstraint)>) -> u32
    decreases clocks.len(),
{
    if clocks.len() == 0 {
        0
    } else {
        let rest = largest_uncertainty(clocks.drop_last());
        if rest < clocks.last().1.uncertainty_ps {
            clocks.last().1.uncertainty_ps
        } else {
            rest
        }
    }
}

/// The common period less the largest uncertainty.
pub open spec fn common_usable_period(clocks: Seq<(Seq<char>, TimingClockConstraint)>) -> Option<
    u32,
> {
    match common_period(clocks) {
        Some(period) => if largest_uncertainty(clocks) <= period {
            Some((period - largest_uncertainty(clocks)) as u32)
        } else {
            None
        },
        None => None,
    }
}

impl OocTimingConstraints {
    /// Returns the common nominal clock period.
    pub fn nominal_period_ps(&self) -> (period: Option<u32>)
        ensures
            period == common_period(self.clocks@),
    {
        if self.clocks.entries.len() == 0 {
            return None;
        }
        let period = self.clocks.entries[0].1.period_ps;
        assert(self.clocks@[0].1 == self.clocks.entries@[0].1);
        for i in 0..self.clocks.entries.len()
            invariant
                self.clocks.entries@.len() > 0,
                period == self.clocks@[0].1.period_ps,
                forall|j: int| 0 <= j < i ==> (#[trigger] self.clocks@[j]).1.period_ps == period,
        {
            assert(self.clocks@[i as int].1 == self.clocks.entries@[i as int].1);
            if self.clocks.entries[i].1.period_ps != period {
                return None;
            }
        }
        Some(period)
    }

    /// Returns the common period after the largest uncertainty.
    pub fn effective_period_ps(&self) -> (period: Option<u32>)
        ensures
            period == common_usable_period(self.clocks@),
    {
        let period = match self.nominal_period_ps() {
            Some(period) => period,
            None => {
                return None;
            },
        };
        let mut largest: u32 = 0;
        for i in 0..self.clocks.entries.len()
            invariant
                largest == largest_uncertainty(self.clocks@.take(i as int)),
        {
            assert(self.clocks@.take(i + 1).drop_last() =~= self.clocks@.take(i as int));
            assert(self.clocks@[i as int].1 == self.clocks.entries@[i as int].1);
            let uncertainty = self.clocks.entries[i].1.uncertainty_ps;
            if largest < uncertainty {
                largest = uncertainty;
            }
        }
        assert(self.clocks@.take(self.clocks@.len() as int) =~= self.clocks@);
        if largest <= period {
            Some(period - largest)
        } else {
            None
        }
    }
}

} // verus!
