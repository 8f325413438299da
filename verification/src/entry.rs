//! Mapping of a netlist under its various kinds of constraints.

use vstd::prelude::*;

use crate::bind::jtagg_bound;
use crate::bind::jtagg_fault;
use crate::bind::open_drains_bound;
use crate::bind::open_drains_fault;
use crate::bind::pll_bound;
use crate::bind::pll_fault;
use crate::bind::JtaggBinding;
use crate::bind::OpenDrainIo;
use crate::bind::PllBinding;
use crate::certify::is_certifier;
use crate::certify::oracle;
use crate::certify::EdgeModel;
use crate::certify::RequestModel;
use crate::certify::RetimingEdge;
use crate::certify::RetimingRequest;
use crate::clocks::clock_fault;
use crate::clocks::clock_set_fault;
use crate::clocks::clocks_fault;
use crate::clocks::constraint_fault;
use crate::clocks::normalization_fault;
use crate::clocks::normalize_ooc_timing;
use crate::clocks::ooc_input_delays;
use crate::clocks::ooc_output_delays;
use crate::clocks::resolve_clock_timing;
use crate::clocks::resolve_timing_constraints;
use crate::clocks::resolved_clocks;
use crate::clocks::timing_fault;
use crate::constraints::common_usable_period;
use crate::constraints::tightest;
use crate::constraints::ArithmeticMapping;
use crate::constraints::DelaysModel;
use crate::constraints::IoTimingConstraints;
use crate::constraints::MappingOptions;
use crate::constraints::OocTimingConstraints;
use crate::constraints::TimingClockConstraint;
use crate::constraints::TimingConstraints;
use crate::constraints::ECP5_QOR_TARGET_MHZ;
use crate::design::clocks_are_usable;
use crate::errors::MappingError;
use crate::errors::MappingFault;
use crate::ir::lemma_fault;
use crate::ir::Netlist;
use crate::ir::Port;
use crate::mapping::io_timing_fault;
use crate::mapping::map_to_ecp5_with_period;
use crate::mapping::mapped_for_period;
use crate::mapping::mapping_model;
use crate::mapping::validate_io_timing;
use crate::netlist::clock_models;
use crate::netlist::ClockModel;
use crate::netlist::Ecp5Netlist;
use crate::netlist::NetlistModel;
use crate::retained::picoseconds;
use crate::retained::to_picoseconds;

verus! {

/// Share of the period that retiming aims for.
pub const RETIMING_PERIOD_MARGIN_NUMERATOR: u32 = 9;

/// Parts of the period that [`RETIMING_PERIOD_MARGIN_NUMERATOR`] counts.
pub const RETIMING_PERIOD_MARGIN_DENOMINATOR: u32 = 10;

/// Picoseconds in a microsecond: the period of one megahertz.
pub const MICROSECOND_PS: u32 = 1_000_000;

/// A frequency of at least one megahertz.
pub open spec fn at_least_one(mhz: u32) -> int {
    if mhz == 0 {
        1
    } else {
        mhz as int
    }
}

/// The whole picoseconds of a period at this frequency.
pub open spec fn goal_period(mhz: u32) -> u32 {
    (MICROSECOND_PS as int / at_least_one(mhz)) as u32
}

/// The quotient of a microsecond, rounded up.
pub open spec fn microsecond_over(divisor: int) -> u32 {
    ((MICROSECOND_PS + divisor - 1) / divisor) as u32
}

/// The period that retiming aims for within a period.
pub open spec fn retiming_target(period_ps: u32) -> u32 {
    picoseconds(period_ps as nat * RETIMING_PERIOD_MARGIN_NUMERATOR as nat)
        / RETIMING_PERIOD_MARGIN_DENOMINATOR
}

fn one_or_more(mhz: u32) -> (value: u32)
    ensures
        value == at_least_one(mhz),
        value >= 1,
{
    if mhz == 0 {
        1
    } else {
        mhz
    }
}

fn divide_microsecond(divisor: u32) -> (quotient: u32)
    requires
        divisor >= 1,
    ensures
        quotient == microsecond_over(divisor as int),
{
    let total: u64 = MICROSECOND_PS as u64 + divisor as u64 - 1;
    let quotient: u64 = total / divisor as u64;
    proof {
        let t = total as int;
        let d = divisor as int;
        assert(t / d <= MICROSECOND_PS) by (nonlinear_arith)
            requires
                t == MICROSECOND_PS + d - 1,
                d >= 1,
                MICROSECOND_PS == 1_000_000,
        ;
    }
    quotient as u32
}

fn aim_below(period_ps: u32) -> (target: u32)
    ensures
        target == retiming_target(period_ps),
{
    to_picoseconds(period_ps as u128 * RETIMING_PERIOD_MARGIN_NUMERATOR as u128)
        / RETIMING_PERIOD_MARGIN_DENOMINATOR
}

/// A mapping under port delays.
pub open spec fn mapped_under_delays(
    netlist: Netlist,
    options: MappingOptions,
    delays: DelaysModel,
    certificates: spec_fn(RequestModel) -> Option<Seq<EdgeModel>>,
) -> Result<NetlistModel, MappingFault> {
    match io_timing_fault(netlist.ports@, delays.inputs, delays.outputs) {
        Some(fault) => Err(fault),
        None => mapped_for_period(
            netlist,
            options,
            delays,
            goal_period(options.timing_goal_mhz),
            retiming_target(microsecond_over(at_least_one(options.timing_goal_mhz))),
            seq![],
            certificates,
        ),
    }
}

/// No port delays.
pub open spec fn no_delays() -> DelaysModel {
    DelaysModel { inputs: seq![], outputs: seq![] }
}

/// The default choices.
pub open spec fn default_options() -> MappingOptions {
    MappingOptions { arithmetic: ArithmeticMapping::Auto, timing_goal_mhz: ECP5_QOR_TARGET_MHZ }
}

/// A mapping with the default choices.
pub open spec fn mapped_by_default(
    netlist: Netlist,
    certificates: spec_fn(RequestModel) -> Option<Seq<EdgeModel>>,
) -> Result<NetlistModel, MappingFault> {
    mapped_under_delays(netlist, default_options(), no_delays(), certificates)
}

/// Maps target-independent Boolean nodes and registers to ECP5 primitives.
pub fn map_to_ecp5<C: Fn(&RetimingRequest) -> Option<Vec<RetimingEdge>>>(
    netlist: &Netlist,
    certify: &C,
) -> (result: Result<Ecp5Netlist, MappingError>)
    requires
        is_certifier(*certify),
    ensures
        mapping_model(result) == mapped_by_default(*netlist, oracle(*certify)),
{
    map_to_ecp5_with_options(netlist, MappingOptions::default(), certify)
}

/// Maps a core and binds its split open-drain interfaces to physical pads.
pub fn map_to_ecp5_with_open_drain_ios<C: Fn(&RetimingRequest) -> Option<Vec<RetimingEdge>>>(
    netlist: &Netlist,
    bindings: &[OpenDrainIo],
    certify: &C,
) -> (result: Result<Ecp5Netlist, MappingError>)
    requires
        is_certifier(*certify),
    ensures
        mapping_model(result) == match mapped_by_default(*netlist, oracle(*certify)) {
            Err(fault) => Err(fault),
            Ok(mapped) => match open_drains_fault(mapped, bindings@, 0) {
                Some(fault) => Err(fault),
                None => Ok(open_drains_bound(mapped, bindings@, 0)),
            },
        },
{
    let mut mapped = match map_to_ecp5(netlist, certify) {
        Ok(mapped) => mapped,
        Err(error) => {
            return Err(error);
        },
    };
    match mapped.bind_open_drain_ios(bindings) {
        Ok(()) => Ok(mapped),
        Err(error) => Err(error),
    }
}

/// Maps a core and binds its scalar debug interface to the dedicated ECP5 TAP.
pub fn map_to_ecp5_with_jtagg<C: Fn(&RetimingRequest) -> Option<Vec<RetimingEdge>>>(
    netlist: &Netlist,
    binding: &JtaggBinding,
    certify: &C,
) -> (result: Result<Ecp5Netlist, MappingError>)
    requires
        is_certifier(*certify),
    ensures
        mapping_model(result) == match mapped_by_default(*netlist, oracle(*certify)) {
            Err(fault) => Err(fault),
            Ok(mapped) => match jtagg_fault(mapped, *binding) {
                Some(fault) => Err(fault),
                None => Ok(jtagg_bound(mapped, *binding)),
            },
        },
{
    let mut mapped = match map_to_ecp5(netlist, certify) {
        Ok(mapped) => mapped,
        Err(error) => {
            return Err(error);
        },
    };
    match mapped.bind_jtagg(binding) {
        Ok(()) => Ok(mapped),
        Err(error) => Err(error),
    }
}

/// Maps a core and applies a user-configured ECP5 PLL boundary binding.
pub fn map_to_ecp5_with_pll<C: Fn(&RetimingRequest) -> Option<Vec<RetimingEdge>>>(
    netlist: &Netlist,
    binding: &PllBinding,
    certify: &C,
) -> (result: Result<Ecp5Netlist, MappingError>)
    requires
        is_certifier(*certify),
    ensures
        mapping_model(result) == match mapped_by_default(*netlist, oracle(*certify)) {
            Err(fault) => Err(fault),
            Ok(mapped) => match pll_fault(mapped, *binding) {
                Some(fault) => Err(fault),
                None => Ok(pll_bound(mapped, *binding)),
            },
        },
{
    let mut mapped = match map_to_ecp5(netlist, certify) {
        Ok(mapped) => mapped,
        Err(error) => {
            return Err(error);
        },
    };
    match mapped.bind_pll(binding) {
        Ok(()) => Ok(mapped),
        Err(error) => Err(error),
    }
}

/// Maps a target-independent netlist with explicit arithmetic choices.
pub fn map_to_ecp5_with_options<C: Fn(&RetimingRequest) -> Option<Vec<RetimingEdge>>>(
    netlist: &Netlist,
    options: MappingOptions,
    certify: &C,
) -> (result: Result<Ecp5Netlist, MappingError>)
    requires
        is_certifier(*certify),
    ensures
        mapping_model(result) == mapped_under_delays(
            *netlist,
            options,
            no_delays(),
            oracle(*certify),
        ),
{
    let none = IoTimingConstraints::new();
    map_to_ecp5_with_constraints(netlist, options, &none, certify)
}

/// Maps a target-independent netlist with explicit implementation and I/O
/// timing constraints.
///
/// Top-level ports without a delay remain unconstrained. The global frequency
/// applies to synchronous paths and to only those I/O paths that have one.
pub fn map_to_ecp5_with_constraints<C: Fn(&RetimingRequest) -> Option<Vec<RetimingEdge>>>(
    netlist: &Netlist,
    options: MappingOptions,
    io_timing: &IoTimingConstraints,
    certify: &C,
) -> (result: Result<Ecp5Netlist, MappingError>)
    requires
        is_certifier(*certify),
    ensures
        mapping_model(result) == mapped_under_delays(
            *netlist,
            options,
            io_timing@,
            oracle(*certify),
        ),
{
    if let Err(error) = validate_io_timing(netlist, io_timing) {
        return Err(error);
    }
    let mhz = one_or_more(options.timing_goal_mhz);
    let period_ps = MICROSECOND_PS / mhz;
    let target_ps = aim_below(divide_microsecond(mhz));
    let clocks = Vec::new();
    assert(clock_models(clocks@) =~= Seq::<ClockModel>::empty());
    map_to_ecp5_with_period(netlist, options, io_timing, period_ps, target_ps, clocks, certify)
}

/// The period of a shared timing context.
pub open spec fn context_period(options: MappingOptions, constraints: TimingConstraints) -> u32 {
    match tightest(constraints.clocks@) {
        Some(period) => period,
        None => goal_period(options.timing_goal_mhz),
    }
}

/// The choices under a period that clocks set.
pub open spec fn clocked_options(arithmetic: ArithmeticMapping, period_ps: u32) -> MappingOptions {
    MappingOptions { arithmetic, timing_goal_mhz: microsecond_over(at_least_one(period_ps)) }
}

/// A mapping under a shared timing context: named clocks replace the global frequency.
pub open spec fn mapped_under_timing(
    netlist: Netlist,
    options: MappingOptions,
    constraints: TimingConstraints,
    certificates: spec_fn(RequestModel) -> Option<Seq<EdgeModel>>,
) -> Result<NetlistModel, MappingFault> {
    match netlist.fault() {
        Some(error) => Err(MappingFault::InvalidNetlist(error)),
        None => match io_timing_fault(
            netlist.ports@,
            constraints.input_delays_ps@,
            constraints.output_delays_ps@,
        ) {
            Some(fault) => Err(fault),
            None => match constraint_fault(timing_fault(netlist, constraints), false) {
                Some(fault) => Err(fault),
                None => {
                    let period_ps = context_period(options, constraints);
                    mapped_for_period(
                        netlist,
                        if constraints.clocks@.len() == 0 {
                            options
                        } else {
                            clocked_options(options.arithmetic, period_ps)
                        },
                        DelaysModel {
                            inputs: constraints.input_delays_ps@,
                            outputs: constraints.output_delays_ps@,
                        },
                        period_ps,
                        retiming_target(period_ps),
                        resolved_clocks(netlist.ports@, constraints.clocks@),
                        certificates,
                    )
                },
            },
        },
    }
}

/// Maps a target-independent netlist with one timing context shared by
/// technology mapping and physical implementation.
///
/// Named clocks replace the global mapper frequency. All sequential clocks
/// must then be declared. The shortest effective clock period drives the
/// mapper, while [`Ecp5Netlist::nextpnr_pre_pack_timing_constraints`] retains
/// each individual clock for place-and-route.
pub fn map_to_ecp5_with_timing_constraints<C: Fn(&RetimingRequest) -> Option<Vec<RetimingEdge>>>(
    netlist: &Netlist,
    options: MappingOptions,
    constraints: &TimingConstraints,
    certify: &C,
) -> (result: Result<Ecp5Netlist, MappingError>)
    requires
        is_certifier(*certify),
    ensures
        mapping_model(result) == mapped_under_timing(
            *netlist,
            options,
            *constraints,
            oracle(*certify),
        ),
{
    if let Err(error) = netlist.validate() {
        return Err(MappingError::InvalidNetlist(error));
    }
    let io_timing = constraints.io_timing();
    if let Err(error) = validate_io_timing(netlist, &io_timing) {
        return Err(error);
    }
    let clocks = match resolve_timing_constraints(netlist, constraints) {
        Ok(clocks) => clocks,
        Err(error) => {
            return Err(error);
        },
    };
    let period_ps = match constraints.tightest_effective_period_ps() {
        Some(period_ps) => period_ps,
        None => MICROSECOND_PS / one_or_more(options.timing_goal_mhz),
    };
    let options = if constraints.clocks.entries.len() == 0 {
        options
    } else {
        MappingOptions {
            arithmetic: options.arithmetic,
            timing_goal_mhz: divide_microsecond(one_or_more(period_ps)),
        }
    };
    let target_ps = aim_below(period_ps);
    map_to_ecp5_with_period(netlist, options, &io_timing, period_ps, target_ps, clocks, certify)
}

/// A mapping under a strict out-of-context timing environment.
pub open spec fn mapped_out_of_context(
    netlist: Netlist,
    constraints: OocTimingConstraints,
    certificates: spec_fn(RequestModel) -> Option<Seq<EdgeModel>>,
) -> Result<NetlistModel, MappingFault> {
    match netlist.fault() {
        Some(error) => Err(MappingFault::InvalidNetlist(error)),
        None => match normalization_fault(netlist, constraints) {
            Some(fault) => Err(fault),
            None => match constraint_fault(clock_set_fault(netlist, constraints.clocks@), true) {
                Some(fault) => Err(fault),
                None => {
                    let period_ps = common_usable_period(constraints.clocks@)->0;
                    mapped_for_period(
                        netlist,
                        clocked_options(ArithmeticMapping::Auto, period_ps),
                        DelaysModel {
                            inputs: ooc_input_delays(constraints),
                            outputs: ooc_output_delays(constraints),
                        },
                        period_ps,
                        retiming_target(period_ps),
                        resolved_clocks(netlist.ports@, constraints.clocks@),
                        certificates,
                    )
                },
            },
        },
    }
}

/// Maps a registered core under a strict out-of-context timing environment.
///
/// The environment owns the nominal period. The largest named clock
/// uncertainty is subtracted from internal register-to-register timing, and
/// each direct boundary budget becomes the equivalent port delay.
pub fn map_to_ecp5_ooc<C: Fn(&RetimingRequest) -> Option<Vec<RetimingEdge>>>(
    netlist: &Netlist,
    constraints: &OocTimingConstraints,
    certify: &C,
) -> (result: Result<Ecp5Netlist, MappingError>)
    requires
        is_certifier(*certify),
    ensures
        mapping_model(result) == mapped_out_of_context(*netlist, *constraints, oracle(*certify)),
{
    if let Err(error) = netlist.validate() {
        return Err(MappingError::InvalidNetlist(error));
    }
    let normalized = match normalize_ooc_timing(netlist, constraints) {
        Ok(normalized) => normalized,
        Err(error) => {
            return Err(error);
        },
    };
    let clocks = match resolve_clock_timing(netlist, &constraints.clocks, true) {
        Ok(clocks) => clocks,
        Err(error) => {
            return Err(error);
        },
    };
    let period_ps = normalized.period_ps;
    let options = MappingOptions {
        arithmetic: ArithmeticMapping::Auto,
        timing_goal_mhz: divide_microsecond(one_or_more(period_ps)),
    };
    let target_ps = aim_below(period_ps);
    assert(normalized.io_timing@ =~= (DelaysModel {
        inputs: ooc_input_delays(*constraints),
        outputs: ooc_output_delays(*constraints),
    }));
    map_to_ecp5_with_period(
        netlist,
        options,
        &normalized.io_timing,
        period_ps,
        target_ps,
        clocks,
        certify,
    )
}

proof fn lemma_clock_is_usable(
    ports: Seq<Port>,
    clocks: Seq<(Seq<char>, TimingClockConstraint)>,
    index: int,
    from: int,
)
    requires
        0 <= from <= index < clocks.len(),
        clocks_fault(ports, clocks, from) is None,
    ensures
        clocks[index].1.uncertainty_ps < clocks[index].1.period_ps,
    decreases index - from,
{
    assert(clock_fault(ports, clocks, from) is None);
    if from < index {
        lemma_clock_is_usable(ports, clocks, index, from + 1);
    }
}

/// Every clock that passes its checks keeps time after its uncertainty, so the
/// clock script of a mapped netlist can always be written.
pub proof fn law_resolved_clocks_are_usable(
    netlist: Netlist,
    clocks: Seq<(Seq<char>, TimingClockConstraint)>,
)
    requires
        clock_set_fault(netlist, clocks) is None,
    ensures
        clocks_are_usable(resolved_clocks(netlist.ports@, clocks)),
{
    let resolved = resolved_clocks(netlist.ports@, clocks);
    assert forall|i: int| 0 <= i < resolved.len() implies (#[trigger] resolved[i]).uncertainty_ps
        <= resolved[i].period_ps by {
        lemma_clock_is_usable(netlist.ports@, clocks, i, 0);
    }
}

/// The clock script covers what was asked for: a mapped netlist carries the
/// clocks that were resolved for it, and the default frequency of its options.
pub proof fn law_mapping_keeps_clocks(
    netlist: Netlist,
    options: MappingOptions,
    delays: DelaysModel,
    period_ps: u32,
    target_ps: u32,
    clocks: Seq<ClockModel>,
    certificates: spec_fn(RequestModel) -> Option<Seq<EdgeModel>>,
)
    ensures
        mapped_for_period(
            netlist,
            options,
            delays,
            period_ps,
            target_ps,
            clocks,
            certificates,
        ) matches Ok(mapped) ==> mapped.clocks == clocks && mapped.default_frequency_mhz
            == at_least_one(options.timing_goal_mhz),
{
}

/// An invalid netlist is refused under every kind of constraint.
pub proof fn law_invalid_netlist_is_refused(
    netlist: Netlist,
    options: MappingOptions,
    delays: DelaysModel,
    period_ps: u32,
    target_ps: u32,
    clocks: Seq<ClockModel>,
    certificates: spec_fn(RequestModel) -> Option<Seq<EdgeModel>>,
)
    requires
        !netlist.is_valid(),
    ensures
        mapped_for_period(
            netlist,
            options,
            delays,
            period_ps,
            target_ps,
            clocks,
            certificates,
        ) matches Err(MappingFault::InvalidNetlist(error)) && netlist.fault() == Some(error),
{
    lemma_fault(netlist);
}

} // verus!
