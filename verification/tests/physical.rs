//! Feedback from placement and routing.

use serde_json::Value;

use struo_target_ecp5::physical::{
    PhysicalFeedback, PhysicalLocation, PhysicalNetTiming, PhysicalReport, PhysicalTimingEndpoint,
    ReportedPath, ReportedSegment,
};

fn thousandths(value: &Value) -> u32 {
    (value.as_f64().unwrap() * 1_000.0).round() as u32
}

fn text(value: &Value) -> String {
    value.as_str().unwrap().to_string()
}

fn list(value: &Value) -> Vec<Value> {
    value.as_array().cloned().unwrap_or_default()
}

fn feedback_from(report: &str, placed: &str) -> PhysicalFeedback {
    let report: Value = serde_json::from_str(report).unwrap();
    let placed: Value = serde_json::from_str(placed).unwrap();
    let module = placed["modules"].as_object().unwrap().values().next().unwrap();
    let cells = module["cells"]
        .as_object()
        .unwrap()
        .iter()
        .map(|(name, cell)| (name.clone(), text(&cell["attributes"]["NEXTPNR_BEL"])))
        .collect();
    let net_timings = list(&report["detailed_net_timings"])
        .iter()
        .map(|net| PhysicalNetTiming {
            driver: text(&net["driver"]),
            net: text(&net["net"]),
            endpoints: list(&net["endpoints"])
                .iter()
                .map(|endpoint| PhysicalTimingEndpoint {
                    cell: text(&endpoint["cell"]),
                    port: text(&endpoint["port"]),
                    delay_ps: thousandths(&endpoint["delay"]),
                    budget_ps: thousandths(&endpoint["budget"]),
                })
                .collect(),
        })
        .collect();
    let paths = list(&report["critical_paths"])
        .iter()
        .map(|path| ReportedPath {
            from: text(&path["from"]),
            to: text(&path["to"]),
            segments: list(&path["path"])
                .iter()
                .map(|segment| ReportedSegment {
                    delay_ps: thousandths(&segment["delay"]),
                    from: segment["from"]["cell"].as_str().map(str::to_string),
                    to: segment["to"]["cell"].as_str().map(str::to_string),
                })
                .collect(),
        })
        .collect();
    let clocks = report["fmax"]
        .as_object()
        .unwrap()
        .iter()
        .map(|(name, clock)| {
            (name.clone(), (thousandths(&clock["achieved"]), thousandths(&clock["constraint"])))
        })
        .collect();
    PhysicalFeedback::from_report(PhysicalReport { cells, net_timings, paths, clocks })
}

#[test]
fn reads_nextpnr_placement_and_detailed_timing() {
    let report = r#"{
        "critical_paths": [{
            "from": "posedge clk",
            "path": [{
                "delay": 0.4,
                "from": {"cell": "source_ff", "port": "Q"},
                "to": {"cell": "enable_lut", "port": "A"}
            }, {
                "delay": 0.2,
                "from": {"cell": "enable_lut", "port": "F"},
                "to": {"cell": "value_ff", "port": "DI"}
            }],
            "to": "posedge clk"
        }],
        "detailed_net_timings": [{
            "driver": "enable_lut",
            "net": "$enable",
            "endpoints": [{
                "budget": 3.125,
                "cell": "value_ff",
                "delay": 2.375,
                "event": "posedge clk",
                "port": "CE"
            }],
            "event": "posedge clk",
            "port": "F"
        }],
        "fmax": {"clk": {"achieved": 317.5, "constraint": 320.0}}
    }"#;
    let placed = r#"{
        "modules": {"top": {"cells": {
            "enable_lut": {"attributes": {
                "NEXTPNR_BEL": "X12/Y7/SLICEA.K0"
            }},
            "value_ff": {"attributes": {
                "NEXTPNR_BEL": "X14/Y8/SLICEB.FF1"
            }}
        }}}
    }"#;

    let feedback = feedback_from(report, placed);

    assert_eq!(
        feedback.location("value_ff"),
        Some(PhysicalLocation { x: 14, y: 8 })
    );
    assert_eq!(feedback.bel("value_ff"), Some("X14/Y8/SLICEB.FF1"));
    assert_eq!(feedback.net_timings()[0].endpoints[0].delay_ps, 2_375);
    assert_eq!(feedback.net_timings()[0].endpoints[0].budget_ps, 3_125);
    assert!(feedback.is_near_timing_closure(98));
    assert!(!feedback.meets_timing_goal());
    assert_eq!(feedback.critical_paths()[0].delay_ps, 600);
    assert!(feedback.critical_paths()[0].register_to_register);
    assert_eq!(
        feedback.critical_paths()[0].cells,
        ["source_ff", "enable_lut", "value_ff"]
    );

    let improved =
        feedback_from(&report.replace("317.5", "319.0"), placed);
    assert!(improved.improves_timing_over(&feedback));
    assert!(!feedback.improves_timing_over(&improved));
}
