//! The place-and-route flow.

use serde_json::Value;

use struo_target_ecp5::constraints::ECP5_QOR_TARGET_MHZ;
use struo_target_ecp5::flow::{BoardProfile, Ecp5Flow};
use struo_target_ecp5::physical::{
    PhysicalFeedback, PhysicalNetTiming, PhysicalReport, PhysicalTimingEndpoint, ReportedPath,
    ReportedSegment,
};

fn thousandths(value: &Value) -> u32 {
    (value.as_f64().unwrap() * 1_000.0).round() as u32
}

fn text(value: &Value) -> String {
    value.as_str().unwrap().to_string()
}

fn list(value: &Value) -> Vec<Value> {
    value.as_array().cloned().unwrap_or_default()
}

fn feedback_from(report: &str, placed: &str) -> PhysicalFeedback {
    let report: Value = serde_json::from_str(report).unwrap();
    let placed: Value = serde_json::from_str(placed).unwrap();
    let module = placed["modules"].as_object().unwrap().values().next().unwrap();
    let cells = module["cells"]
        .as_object()
        .unwrap()
        .iter()
        .map(|(name, cell)| (name.clone(), text(&cell["attributes"]["NEXTPNR_BEL"])))
        .collect();
    let net_timings = list(&report["detailed_net_timings"])
        .iter()
        .map(|net| PhysicalNetTiming {
            driver: text(&net["driver"]),
            net: text(&net["net"]),
            endpoints: list(&net["endpoints"])
                .iter()
                .map(|endpoint| PhysicalTimingEndpoint {
                    cell: text(&endpoint["cell"]),
                    port: text(&endpoint["port"]),
                    delay_ps: thousandths(&endpoint["delay"]),
                    budget_ps: thousandths(&endpoint["budget"]),
                })
                .collect(),
        })
        .collect();
    let paths = list(&report["critical_paths"])
        .iter()
        .map(|path| ReportedPath {
            from: text(&path["from"]),
            to: text(&path["to"]),
            segments: list(&path["path"])
                .iter()
                .map(|segment| ReportedSegment {
                    delay_ps: thousandths(&segment["delay"]),
                    from: segment["from"]["cell"].as_str().map(str::to_string),
                    to: segment["to"]["cell"].as_str().map(str::to_string),
                })
                .collect(),
        })
        .collect();
    let clocks = report["fmax"]
        .as_object()
        .unwrap()
        .iter()
        .map(|(name, clock)| {
            (name.clone(), (thousandths(&clock["achieved"]), thousandths(&clock["constraint"])))
        })
        .collect();
    PhysicalFeedback::from_report(PhysicalReport { cells, net_timings, paths, clocks })
}

#[test]
fn board_profile_selects_the_exact_fpga() {
    assert_eq!(BoardProfile::lfe5um5g_85f_evn().device, "LFE5UM5G-85F-8BG381");
    assert_eq!(BoardProfile::lfe5um5g_85f_evn().nextpnr_device, "--um5g-85k");
    assert_eq!(BoardProfile::lfe5um5g_85f_evn().nextpnr_package, "CABGA381");
}

#[test]
fn place_and_route_uses_um5g_85k_cabga381_speed_8() {
    let command = Ecp5Flow::evaluation_board("Top", "build/Top").place_and_route_command();

    assert!(command.args.iter().any(|arg| arg == "--um5g-85k"));
    assert!(
        command
            .args
            .windows(2)
            .any(|args| args == ["--package", "CABGA381"])
    );
    assert!(command.args.windows(2).any(|args| args == ["--speed", "8"]));
    assert!(
        command
            .args
            .windows(2)
            .any(|args| args == ["--freq", "300"])
    );
    assert!(command.args.iter().any(|arg| arg == "--placer-budgets"));
    assert!(command.args.iter().any(|arg| arg == "--tmg-ripup"));
    assert!(command.args.windows(2).any(|args| args == ["--seed", "1"]));
    assert!(
        command
            .args
            .windows(2)
            .any(|args| args == ["--placer-heap-timingweight", "30"])
    );
    assert_eq!(ECP5_QOR_TARGET_MHZ, 300);
}

#[test]
fn physical_feedback_flow_uses_a_detailed_deterministic_draft() {
    let flow = Ecp5Flow::evaluation_board("Top", "build/Top");
    let draft = flow.draft_place_and_route_command();
    let final_run = flow.refined_place_and_route_command();

    assert!(
        draft
            .args
            .iter()
            .any(|arg| arg == "--detailed-timing-report")
    );
    assert!(draft.args.iter().any(|arg| arg == "--timing-allow-fail"));
    assert!(
        draft
            .args
            .windows(2)
            .any(|args| { args == ["--write", "build/Top/design.draft.json"] })
    );
    assert!(
        draft
            .args
            .windows(2)
            .any(|args| { args == ["--report", "build/Top/design.draft-report.json"] })
    );
    assert!(
        final_run
            .args
            .windows(2)
            .any(|args| { args == ["--json", "build/Top/design.refined.json"] })
    );
    assert!(
        final_run
            .args
            .windows(2)
            .any(|args| { args == ["--textcfg", "build/Top/design.refined.config"] })
    );
    assert!(
        final_run
            .args
            .windows(2)
            .any(|args| { args == ["--report", "build/Top/design.refined-report.json"] })
    );
    assert!(
        final_run
            .args
            .windows(2)
            .any(|args| { args == ["--write", "build/Top/design.refined-placed.json"] })
    );
    assert_eq!(draft.evidence, None);
    assert_eq!(final_run.evidence, None);
}

#[test]
fn physical_flow_routes_the_bounded_candidate_set_at_the_same_seed() {
    let flow = Ecp5Flow::evaluation_board("Top", "build/Top");

    let commands = flow.physical_candidate_place_and_route_commands(3);

    assert_eq!(commands.len(), 3);
    for command in &commands {
        assert!(command.args.windows(2).any(|args| args == ["--seed", "1"]));
        assert!(command.args.iter().any(|arg| arg == "--timing-allow-fail"));
    }
    assert!(
        commands[0]
            .args
            .windows(2)
            .any(|args| args == ["--json", "build/Top/design.refined.json"])
    );
    assert!(
        commands[1]
            .args
            .windows(2)
            .any(|args| { args == ["--json", "build/Top/design.refined.candidate-1.json"] })
    );
    assert!(commands[2].args.windows(2).any(|args| {
        args == [
            "--report",
            "build/Top/design.refined.candidate-2-report.json",
        ]
    }));
    assert_eq!(
        flow.physical_candidate_place_and_route_commands(99).len(),
        3
    );
}

#[test]
fn physical_flow_rolls_back_a_slower_candidate() {
    let flow = Ecp5Flow::evaluation_board("Top", "build/Top");
    let placed = r#"{"modules":{"Top":{"cells":{}}}}"#;
    let draft = feedback_from(
        r#"{"fmax":{"clk":{"achieved":310.0,"constraint":320.0}}}"#,
        placed,
    );
    let slower = feedback_from(
        r#"{"fmax":{"clk":{"achieved":305.0,"constraint":320.0}}}"#,
        placed,
    );
    let faster = feedback_from(
        r#"{"fmax":{"clk":{"achieved":315.0,"constraint":320.0}}}"#,
        placed,
    );

    assert_eq!(
        flow.select_physical_config(&draft, &slower),
        "build/Top/design.draft.config"
    );
    assert_eq!(
        flow.select_physical_config(&draft, &faster),
        "build/Top/design.refined.config"
    );
    let fastest = feedback_from(
        r#"{"fmax":{"clk":{"achieved":318.0,"constraint":320.0}}}"#,
        placed,
    );
    assert_eq!(
        flow.select_physical_candidate_config(&draft, &[slower, faster, fastest]),
        "build/Top/design.refined.candidate-2.config"
    );
}

#[test]
fn bitstream_packaging_is_unavailable_without_verification() {
    let flow = Ecp5Flow::evaluation_board("Top", "build/Top");

    assert!(
        flow.pack_command(Err::<(), &str>("no evidence recorded"))
        .is_err()
    );
}

fn at_fmax(achieved: &str) -> PhysicalFeedback {
    let report = format!(r#"{{"fmax":{{"clk":{{"achieved":{achieved},"constraint":320.0}}}}}}"#);
    feedback_from(&report, r#"{"modules":{"Top":{"cells":{}}}}"#)
}

#[test]
fn packaging_takes_the_selected_configuration() {
    let flow = Ecp5Flow::evaluation_board("Top", "build/Top");
    let packs = |args: &[String], config: &str| args.iter().any(|arg| arg == config);
    let allowed = Ok::<(), &str>(());

    assert!(flow.pack_command(allowed).is_ok());
    let faster =
        flow.pack_physical_command(allowed, &at_fmax("310.0"), &at_fmax("315.0")).unwrap();
    assert!(packs(&faster.args, "build/Top/design.refined.config"));
    let slower =
        flow.pack_physical_command(allowed, &at_fmax("310.0"), &at_fmax("305.0")).unwrap();
    assert!(packs(&slower.args, "build/Top/design.draft.config"));
    let best = flow
        .pack_physical_candidates_command(
            allowed,
            &at_fmax("310.0"),
            &[at_fmax("312.0"), at_fmax("318.0"), at_fmax("315.0")],
        )
        .unwrap();
    assert!(packs(&best.args, "build/Top/design.refined.candidate-1.config"));

    let blocked = Err::<(), &str>("timing closure is missing");
    assert_eq!(
        flow.pack_physical_command(blocked, &at_fmax("310.0"), &at_fmax("315.0")).unwrap_err(),
        "timing closure is missing"
    );
    assert!(flow.pack_physical_candidates_command(blocked, &at_fmax("310.0"), &[]).is_err());
}

#[test]
fn the_evaluation_board_is_described_whole() {
    let flow = Ecp5Flow::evaluation_board("Top", "build/Top");
    let board = BoardProfile::lfe5um5g_85f_evn();

    assert_eq!(board.board, "LFE5UM5G-85F-EVN");
    assert_eq!(board.speed_grade, 8);
    assert_eq!(board.default_clock_hz, 12_000_000);
    assert_eq!(
        board.clock_setup,
        "short JP2 to connect the FTDI 12 MHz clock to FPGA pin A10"
    );
    assert_eq!(flow.top, "Top");
    assert_eq!(flow.timing_goal_mhz, 300);
    assert_eq!(flow.board.device, board.device);
    let artifacts = &flow.artifacts;
    assert_eq!(artifacts.mapped_json, "build/Top/design.json");
    assert_eq!(artifacts.draft_placed_json, "build/Top/design.draft.json");
    assert_eq!(artifacts.draft_report, "build/Top/design.draft-report.json");
    assert_eq!(artifacts.draft_config, "build/Top/design.draft.config");
    assert_eq!(artifacts.refined_json, "build/Top/design.refined.json");
    assert_eq!(artifacts.refined_placed_json, "build/Top/design.refined-placed.json");
    assert_eq!(artifacts.refined_report, "build/Top/design.refined-report.json");
    assert_eq!(artifacts.refined_config, "build/Top/design.refined.config");
    assert_eq!(artifacts.routed_config, "build/Top/design.config");
    assert_eq!(artifacts.bitstream, "build/Top/design.bit");
    assert_eq!(artifacts.svf, "build/Top/design.svf");
    assert_eq!(artifacts.constraints, "build/Top/board.lpf");
}

#[test]
fn place_and_route_arguments_are_fixed() {
    let command = Ecp5Flow::evaluation_board("Top", "build/Top").place_and_route_command();

    assert_eq!(command.program, "nextpnr-ecp5");
    assert_eq!(
        command.args,
        [
            "--um5g-85k",
            "--package",
            "CABGA381",
            "--speed",
            "8",
            "--json",
            "build/Top/design.json",
            "--lpf",
            "build/Top/board.lpf",
            "--textcfg",
            "build/Top/design.config",
            "--freq",
            "300",
            "--placer-budgets",
            "--placer-heap-timingweight",
            "30",
            "--tmg-ripup",
            "--seed",
            "1",
        ]
    );
}

#[test]
fn candidates_share_no_file() {
    let flow = Ecp5Flow::evaluation_board("Top", "build/Top");
    let commands = flow.physical_candidate_place_and_route_commands(3);
    for flag in ["--json", "--textcfg", "--write", "--report"] {
        let files: Vec<&String> = commands
            .iter()
            .map(|command| {
                let at = command.args.iter().position(|arg| arg == flag).unwrap();
                &command.args[at + 1]
            })
            .collect();
        assert_ne!(files[0], files[1]);
        assert_ne!(files[0], files[2]);
        assert_ne!(files[1], files[2]);
    }
}
