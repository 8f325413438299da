//! Choice between mapping candidates.

use struo_target_ecp5::profile::MappedLutProfile;
use struo_target_ecp5::score::{
    congestion_adjusted_overall, mapping_candidate_is_better, mapping_candidate_is_selected,
    mapping_growth_is_bounded,
    retiming_score, MappingCandidateScore,
};

#[test]
fn mapping_candidate_rejects_unbounded_one_picosecond_wide_win() {
    let conservative = MappingCandidateScore {
        overall_period_ps: 8_501,
        data_period_ps: 8_501,
        logic_slices: 10_000,
        registers: 4_000,
        emitted_comb: 12_000,
        cells: 18_000,
    };
    let wide = MappingCandidateScore {
        overall_period_ps: 8_500,
        data_period_ps: 8_500,
        logic_slices: 35_000,
        registers: 4_000,
        emitted_comb: 60_000,
        cells: 65_000,
    };

    assert!(mapping_candidate_is_better(wide, conservative, 8_000));
    assert!(!mapping_growth_is_bounded(conservative, wide));
    assert!(!mapping_candidate_is_selected(
        wide,
        conservative,
        conservative,
        8_000
    ));
}

#[test]
fn sole_goal_closing_candidate_still_respects_growth_bound() {
    let conservative = MappingCandidateScore {
        overall_period_ps: 8_001,
        data_period_ps: 8_001,
        logic_slices: 10_000,
        registers: 4_000,
        emitted_comb: 12_000,
        cells: 18_000,
    };
    let wide = MappingCandidateScore {
        overall_period_ps: 8_000,
        data_period_ps: 8_000,
        logic_slices: 35_000,
        registers: 4_000,
        emitted_comb: 60_000,
        cells: 65_000,
    };

    assert!(mapping_candidate_is_better(wide, conservative, 8_000));
    assert!(!mapping_growth_is_bounded(conservative, wide));
    assert!(wide.meets(8_000));
    assert!(!conservative.meets(8_000));
    assert!(!mapping_candidate_is_selected(
        wide,
        conservative,
        conservative,
        8_000
    ));
}

#[test]
fn bounded_goal_closing_candidate_keeps_timing_priority() {
    let conservative = MappingCandidateScore {
        overall_period_ps: 8_001,
        data_period_ps: 8_001,
        logic_slices: 10_000,
        registers: 4_000,
        emitted_comb: 12_000,
        cells: 18_000,
    };
    let candidate = MappingCandidateScore {
        overall_period_ps: 8_000,
        data_period_ps: 8_000,
        logic_slices: 12_000,
        registers: 4_500,
        emitted_comb: 14_000,
        cells: 22_000,
    };

    assert!(mapping_growth_is_bounded(conservative, candidate));
    assert!(mapping_candidate_is_selected(
        candidate,
        conservative,
        conservative,
        8_000
    ));
}

#[test]
fn closed_candidates_prefer_area_over_unused_slack() {
    let conservative = MappingCandidateScore {
        overall_period_ps: 7_900,
        data_period_ps: 7_900,
        logic_slices: 10_000,
        registers: 4_000,
        emitted_comb: 12_000,
        cells: 18_000,
    };
    let wide = MappingCandidateScore {
        overall_period_ps: 7_500,
        data_period_ps: 7_500,
        logic_slices: 11_000,
        registers: 4_000,
        emitted_comb: 15_000,
        cells: 22_000,
    };

    assert!(!mapping_candidate_is_better(wide, conservative, 8_000));
    assert!(mapping_candidate_is_better(conservative, wide, 8_000));
}

#[test]
fn closed_candidates_do_not_trade_many_registers_for_one_lut() {
    let conservative = MappingCandidateScore {
        overall_period_ps: 7_900,
        data_period_ps: 7_900,
        logic_slices: 10_000,
        registers: 4_000,
        emitted_comb: 12_000,
        cells: 18_000,
    };
    let retimed = MappingCandidateScore {
        overall_period_ps: 7_500,
        data_period_ps: 7_500,
        logic_slices: 9_999,
        registers: 4_800,
        emitted_comb: 11_999,
        cells: 18_799,
    };

    assert!(mapping_growth_is_bounded(conservative, retimed));
    assert!(!mapping_candidate_is_better(retimed, conservative, 8_000));
    assert!(mapping_candidate_is_better(conservative, retimed, 8_000));
}

#[test]
fn flat_period_retiming_does_not_trade_area_for_one_fewer_endpoint() {
    let baseline = MappedLutProfile {
        data_depth: 12,
        critical_depth: vec![0, 1],
        overall_depth: 12,
        data_period_ps: 7_500,
        critical_timing: vec![0, 1],
        timing_endpoints: vec![(0, 7_500), (1, 7_500)],
        overall_period_ps: 7_500,
    };
    let candidate = MappedLutProfile {
        data_depth: 12,
        critical_depth: vec![0, 1],
        overall_depth: 12,
        data_period_ps: 7_500,
        critical_timing: vec![0],
        timing_endpoints: vec![(0, 7_500)],
        overall_period_ps: 7_500,
    };

    assert!(
        retiming_score(&candidate, true, 101, 51, 7_500)
            > retiming_score(&baseline, true, 100, 50, 7_500)
    );
}


#[test]
fn congestion_is_charged_beyond_the_allowance() {
    assert_eq!(congestion_adjusted_overall(5_000, 900, 1_000), 5_000);
    assert_eq!(congestion_adjusted_overall(5_000, 1_020, 1_000), 5_000);
    assert_eq!(congestion_adjusted_overall(5_000, 1_030, 1_000), 5_250);
    assert_eq!(congestion_adjusted_overall(u32::MAX, 2_000, 1_000), u32::MAX);
}
