//! Mapping of whole designs.

use std::collections::{BTreeMap, HashSet};
use std::num::NonZeroU32;

use serde_json::Value;

use struo_target_ecp5::entry;
use struo_target_ecp5::ir::{Port as SourcePort, PortDirection as SourceDirection};
use struo_target_ecp5::bind::{JtaggBinding, OpenDrainIo, PllBinding};
use struo_target_ecp5::carry::{carry_outs_are_point_to_point, split_branched_carry_outs};
use struo_target_ecp5::cells::{ActiveLevel, Bit, ClockEdge, Ecp5Cell, MappedPort, PllOutput, PortDirection, Reset, cell_output_bits, mapped_cell_name};
use struo_target_ecp5::certify::{RetimingEdge, RetimingRequest};
use struo_target_ecp5::chains::ccu_chain_names;
use struo_target_ecp5::clocks::normalize_ooc_timing;
use struo_target_ecp5::constraints::{ArithmeticMapping, IoTimingConstraints, MappingOptions, MulticyclePathConstraint, OocClockConstraint, OocPortConstraint, OocTimingConstraints, TimingClockConstraint, TimingConstraints, TimingPathConstraint};
use struo_target_ecp5::cuts::Cut;
use struo_target_ecp5::demand::structural_fanouts;
use struo_target_ecp5::design::NextpnrJsonError;
use struo_target_ecp5::errors::{MappingError, RegisterEnableFanoutError};
use struo_target_ecp5::fanout::{mapped_cell_glob_matches, RegisterEnableFanoutConstraint, RegisterEnableFanoutReport};
use struo_target_ecp5::ir::{ArithmeticCell, ArithmeticOp, ComparisonCell, ComparisonOp, EnableControl, MemoryCell, MemoryPort, MemoryStyle, Netlist, Node, NodeKind, RegisterCell, ResetControl, ValidationError};
use struo_target_ecp5::mapping::map_once_with_period_and_lut_inputs;
use struo_target_ecp5::memory::{block_ram_width, maximum_block_ram_width};
use struo_target_ecp5::merge::merge_equivalent_flip_flops;
use struo_target_ecp5::names::NameMap;
use struo_target_ecp5::netlist::{Ecp5Netlist, ResolvedIoTiming, mapped_wire_fanout, verify_mapped_equivalence_proof};
use struo_target_ecp5::physical::{PhysicalCriticalPath, PhysicalFeedback, PhysicalLocation, PhysicalNetTiming, PhysicalReport, PhysicalTimingEndpoint, ReportedPath, ReportedSegment};
use struo_target_ecp5::plans::{best_plan, plan_for_cut, LutPlan};
use struo_target_ecp5::profile::mapped_lut_profile;
use struo_target_ecp5::refine::{physical_bel_is_compatible, physical_feedback_matches_netlist};
use struo_target_ecp5::replicate::replicate_high_fanout_enable_luts;
use struo_target_ecp5::retained::RetainedTiming;
use struo_target_ecp5::retime_ccu::{backward_retime_ccu2c, forward_retime_ccu2c};
use struo_target_ecp5::retime_lut::{backward_retime_lut, forward_retime_lut};
use struo_target_ecp5::score::{mapped_emitted_comb_count, mapped_logic_slice_count};
use struo_target_ecp5::search::automatically_retime_mapped_luts;
use struo_target_ecp5::wide_mux::map_dedicated_wide_muxes;

/// A source netlist under construction.
struct Source {
    netlist: Netlist,
}

impl Source {
    fn new(name: &str) -> Self {
        Source {
            netlist: Netlist {
                name: name.to_string(),
                nodes: Vec::new(),
                ports: Vec::new(),
                registers: Vec::new(),
                memories: Vec::new(),
                arithmetic: Vec::new(),
                comparisons: Vec::new(),
            },
        }
    }

    fn node(&mut self, kind: NodeKind, inputs: &[u32]) -> u32 {
        self.netlist.nodes.push(Node { kind, inputs: inputs.to_vec() });
        u32::try_from(self.netlist.nodes.len()).unwrap() - 1
    }

    fn nodes(&mut self, kind: NodeKind, width: usize) -> Vec<u32> {
        (0..width).map(|_| self.node(kind, &[])).collect()
    }

    fn add_input(&mut self, name: impl Into<String>) -> u32 {
        self.add_input_port(name, NonZeroU32::new(1).unwrap())[0]
    }

    fn add_input_port(&mut self, name: impl Into<String>, width: NonZeroU32) -> Vec<u32> {
        let bits = self.nodes(NodeKind::Input, width.get() as usize);
        self.netlist.ports.push(SourcePort {
            name: name.into(),
            direction: SourceDirection::Input,
            bits: bits.clone(),
        });
        bits
    }

    fn add_output(&mut self, name: impl Into<String>, net: u32) {
        self.add_output_port(name, &[net]);
    }

    fn add_output_port(&mut self, name: impl Into<String>, nets: &[u32]) {
        let bits = nets.iter().map(|net| self.node(NodeKind::Output, &[*net])).collect();
        self.netlist.ports.push(SourcePort {
            name: name.into(),
            direction: SourceDirection::Output,
            bits,
        });
    }

    fn add_constant(&mut self, value: bool) -> u32 {
        self.node(NodeKind::Constant(value), &[])
    }

    fn add_and(&mut self, lhs: u32, rhs: u32) -> u32 {
        self.node(NodeKind::And, &[lhs, rhs])
    }

    fn add_or(&mut self, lhs: u32, rhs: u32) -> u32 {
        self.node(NodeKind::Or, &[lhs, rhs])
    }

    fn add_xor(&mut self, lhs: u32, rhs: u32) -> u32 {
        self.node(NodeKind::Xor, &[lhs, rhs])
    }

    fn add_not(&mut self, net: u32) -> u32 {
        self.node(NodeKind::Not, &[net])
    }

    fn add_mux(&mut self, select: u32, when_one: u32, when_zero: u32) -> u32 {
        self.node(NodeKind::Mux, &[select, when_one, when_zero])
    }

    fn add_register_output(&mut self, _name: &str) -> u32 {
        self.node(NodeKind::RegisterOutput, &[])
    }

    fn add_register(&mut self, register: RegisterCell) {
        self.netlist.registers.push(register);
    }

    fn add_memory_output(&mut self, _name: impl Into<String>) -> u32 {
        self.node(NodeKind::MemoryOutput, &[])
    }

    fn add_memory(&mut self, memory: MemoryCell) {
        self.netlist.memories.push(memory);
    }

    fn arithmetic(
        &mut self,
        operation: ArithmeticOp,
        lhs: &[u32],
        rhs: &[u32],
        carry_in: Option<u32>,
    ) -> Vec<u32> {
        let outputs = self.nodes(NodeKind::ArithmeticOutput, lhs.len());
        let name = format!("arithmetic{}", self.netlist.arithmetic.len());
        self.netlist.arithmetic.push(ArithmeticCell {
            name,
            operation,
            lhs: lhs.to_vec(),
            rhs: rhs.to_vec(),
            carry_in,
            outputs: outputs.clone(),
        });
        outputs
    }

    fn add_arithmetic(&mut self, operation: ArithmeticOp, lhs: &[u32], rhs: &[u32]) -> Vec<u32> {
        self.arithmetic(operation, lhs, rhs, None)
    }

    fn add_arithmetic_with_carry(&mut self, lhs: &[u32], rhs: &[u32], carry: u32) -> Vec<u32> {
        self.arithmetic(ArithmeticOp::Add, lhs, rhs, Some(carry))
    }

    fn add_comparison(&mut self, operation: ComparisonOp, lhs: &[u32], rhs: &[u32]) -> u32 {
        let output = self.node(NodeKind::ComparisonOutput, &[]);
        let name = format!("comparison{}", self.netlist.comparisons.len());
        self.netlist.comparisons.push(ComparisonCell {
            name,
            operation,
            lhs: lhs.to_vec(),
            rhs: rhs.to_vec(),
            output,
        });
        output
    }
}

fn register_cell(
    name: impl Into<String>,
    output: u32,
    data: u32,
    clock: u32,
    edge: ClockEdge,
    enable: Option<EnableControl>,
    reset: Option<ResetControl>,
) -> RegisterCell {
    RegisterCell { name: name.into(), output, data, clock, edge, enable, reset }
}

#[allow(clippy::too_many_arguments)]
fn memory_port(
    read_address: Vec<u32>,
    read_data: Vec<u32>,
    read_enable: Option<EnableControl>,
    write_address: Vec<u32>,
    write_data: Vec<u32>,
    write_enable: EnableControl,
    clock: u32,
    edge: ClockEdge,
) -> MemoryPort {
    MemoryPort {
        read_address,
        read_data,
        write_address,
        write_data,
        write_enable,
        read_enable,
        clock,
        edge,
    }
}

#[allow(clippy::too_many_arguments)]
fn memory_cell(
    name: &str,
    depth: u32,
    read_address: Vec<u32>,
    read_data: Vec<u32>,
    read_enable: Option<EnableControl>,
    write_address: Vec<u32>,
    write_data: Vec<u32>,
    write_enable: EnableControl,
    clock: u32,
    edge: ClockEdge,
) -> MemoryCell {
    MemoryCell {
        name: name.to_string(),
        depth,
        style: MemoryStyle::Auto,
        read_latency: 1,
        port: memory_port(
            read_address,
            read_data,
            read_enable,
            write_address,
            write_data,
            write_enable,
            clock,
            edge,
        ),
        second_port: None,
    }
}

trait SecondPort {
    fn with_second_port(self, port: MemoryPort) -> Self;
}

impl SecondPort for MemoryCell {
    fn with_second_port(mut self, port: MemoryPort) -> Self {
        self.second_port = Some(port);
        self
    }
}

/// Moves registers across the vertices of a request one at a time and derives
/// the reset value of each register that appears.
fn certify(request: &RetimingRequest) -> Option<Vec<RetimingEdge>> {
    let mut edges = request.edges.clone();
    let mut left = request.labels.clone();
    loop {
        let Some(vertex) = (0..left.len()).find(|vertex| {
            left[*vertex] != 0 && can_move(&edges, *vertex, left[*vertex])
        }) else {
            break;
        };
        let function = request.vertices[vertex].function;
        let inputs: Vec<usize> =
            (0..edges.len()).filter(|edge| edges[*edge].target == vertex).collect();
        let outputs: Vec<usize> =
            (0..edges.len()).filter(|edge| edges[*edge].source == vertex).collect();
        if inputs.len() != usize::from(function.inputs) {
            return None;
        }
        let value = |assignment: u64| (function.truth_table >> assignment) & 1 == 1;
        if left[vertex] < 0 {
            let mut assignment = 0;
            for (position, edge) in inputs.iter().enumerate() {
                if edges[*edge].reset_values.pop().unwrap() {
                    assignment |= 1 << position;
                }
            }
            for edge in &outputs {
                edges[*edge].reset_values.insert(0, value(assignment));
            }
            left[vertex] += 1;
        } else {
            let resets: Vec<bool> =
                outputs.iter().map(|edge| edges[*edge].reset_values.remove(0)).collect();
            if resets.iter().any(|reset| *reset != resets[0]) {
                return None;
            }
            let assignment =
                (0..1u64 << inputs.len()).find(|assignment| value(*assignment) == resets[0])?;
            for (position, edge) in inputs.iter().enumerate() {
                edges[*edge].reset_values.push((assignment >> position) & 1 == 1);
            }
            left[vertex] -= 1;
        }
    }
    left.iter().all(|lag| *lag == 0).then_some(edges)
}

fn can_move(edges: &[RetimingEdge], vertex: usize, lag: i32) -> bool {
    let taken: Vec<&RetimingEdge> = edges
        .iter()
        .filter(|edge| if lag < 0 { edge.target == vertex } else { edge.source == vertex })
        .collect();
    !taken.is_empty() && taken.iter().all(|edge| !edge.reset_values.is_empty())
}

fn map_once(
    source: &Source,
    options: MappingOptions,
    io_timing: &IoTimingConstraints,
) -> Result<Ecp5Netlist, MappingError> {
    map_once_with_period_and_lut_inputs(
        &source.netlist,
        options,
        1_000_000 / options.timing_goal_mhz.max(1),
        io_timing,
        7,
    )
}

fn map_to_ecp5(source: &Source) -> Result<Ecp5Netlist, MappingError> {
    entry::map_to_ecp5(&source.netlist, &certify)
}

fn map_to_ecp5_with_options(
    source: &Source,
    options: MappingOptions,
) -> Result<Ecp5Netlist, MappingError> {
    entry::map_to_ecp5_with_options(&source.netlist, options, &certify)
}

fn map_to_ecp5_with_constraints(
    source: &Source,
    options: MappingOptions,
    constraints: &IoTimingConstraints,
) -> Result<Ecp5Netlist, MappingError> {
    entry::map_to_ecp5_with_constraints(&source.netlist, options, constraints, &certify)
}

fn map_to_ecp5_with_timing_constraints(
    source: &Source,
    options: MappingOptions,
    constraints: &TimingConstraints,
) -> Result<Ecp5Netlist, MappingError> {
    entry::map_to_ecp5_with_timing_constraints(&source.netlist, options, constraints, &certify)
}

fn map_to_ecp5_ooc(
    source: &Source,
    constraints: &OocTimingConstraints,
) -> Result<Ecp5Netlist, MappingError> {
    entry::map_to_ecp5_ooc(&source.netlist, constraints, &certify)
}

fn map_to_ecp5_with_jtagg(
    source: &Source,
    binding: &JtaggBinding,
) -> Result<Ecp5Netlist, MappingError> {
    entry::map_to_ecp5_with_jtagg(&source.netlist, binding, &certify)
}

fn map_to_ecp5_with_pll(source: &Source, binding: &PllBinding) -> Result<Ecp5Netlist, MappingError> {
    entry::map_to_ecp5_with_pll(&source.netlist, binding, &certify)
}

fn map_to_ecp5_with_open_drain_ios(
    source: &Source,
    bindings: &[OpenDrainIo],
) -> Result<Ecp5Netlist, MappingError> {
    entry::map_to_ecp5_with_open_drain_ios(&source.netlist, bindings, &certify)
}

fn text_map(map: &NameMap<String>) -> Value {
    Value::Object(
        map.entries.iter().map(|(name, value)| (name.clone(), Value::from(value.clone()))).collect(),
    )
}

fn bits_value(bits: &[Bit]) -> Value {
    bits.iter()
        .map(|bit| match bit {
            Bit::Zero => Value::from("0"),
            Bit::One => Value::from("1"),
            Bit::Wire(wire) => Value::from(*wire),
        })
        .collect()
}

fn direction_value(direction: PortDirection) -> Value {
    Value::from(match direction {
        PortDirection::Input => "input",
        PortDirection::Output => "output",
        PortDirection::Inout => "inout",
    })
}

fn object(members: Vec<(&str, Value)>) -> Value {
    Value::Object(members.into_iter().map(|(name, value)| (name.to_string(), value)).collect())
}

fn nextpnr_value(netlist: &Ecp5Netlist) -> Value {
    let design = netlist.to_nextpnr_json().unwrap();
    let mut ports = serde_json::Map::new();
    for (name, port) in &design.ports.entries {
        ports.insert(
            name.clone(),
            object(vec![
                ("direction", direction_value(port.direction)),
                ("bits", bits_value(&port.bits)),
            ]),
        );
    }
    let mut cells = serde_json::Map::new();
    for (name, cell) in &design.cells.entries {
        let mut directions = serde_json::Map::new();
        let mut connections = serde_json::Map::new();
        for (pin, connected) in &cell.pins.entries {
            directions.insert(pin.clone(), direction_value(connected.direction));
            connections.insert(pin.clone(), bits_value(&connected.bits));
        }
        cells.insert(
            name.clone(),
            object(vec![
                ("hide_name", Value::from(0)),
                ("type", Value::from(cell.kind)),
                ("parameters", text_map(&cell.parameters)),
                ("attributes", text_map(&cell.attributes)),
                ("port_directions", Value::Object(directions)),
                ("connections", Value::Object(connections)),
            ]),
        );
    }
    let mut netnames = serde_json::Map::new();
    for (name, net) in &design.netnames.entries {
        netnames.insert(
            name.clone(),
            object(vec![("hide_name", Value::from(0)), ("bits", bits_value(&net.bits))]),
        );
    }
    let module = object(vec![
        ("attributes", text_map(&design.attributes)),
        ("ports", Value::Object(ports)),
        ("cells", Value::Object(cells)),
        ("netnames", Value::Object(netnames)),
    ]);
    object(vec![
        ("creator", Value::from(design.creator)),
        ("modules", object(vec![(design.name.as_str(), module)])),
    ])
}

fn nextpnr_json(netlist: &Ecp5Netlist) -> String {
    serde_json::to_string_pretty(&nextpnr_value(netlist)).unwrap()
}

fn no_io_timing() -> ResolvedIoTiming {
    ResolvedIoTiming { input_arrivals_ps: Vec::new(), output_delays_ps: Vec::new() }
}

fn thousandths(value: &Value) -> u32 {
    (value.as_f64().unwrap() * 1_000.0).round() as u32
}

fn text(value: &Value) -> String {
    value.as_str().unwrap().to_string()
}

fn list(value: &Value) -> Vec<Value> {
    value.as_array().cloned().unwrap_or_default()
}

fn feedback_from(report: &str, placed: &str) -> PhysicalFeedback {
    let report: Value = serde_json::from_str(report).unwrap();
    let placed: Value = serde_json::from_str(placed).unwrap();
    let module = placed["modules"].as_object().unwrap().values().next().unwrap();
    let cells = module["cells"]
        .as_object()
        .unwrap()
        .iter()
        .map(|(name, cell)| (name.clone(), text(&cell["attributes"]["NEXTPNR_BEL"])))
        .collect();
    let net_timings = list(&report["detailed_net_timings"])
        .iter()
        .map(|net| PhysicalNetTiming {
            driver: text(&net["driver"]),
            net: text(&net["net"]),
            endpoints: list(&net["endpoints"])
                .iter()
                .map(|endpoint| PhysicalTimingEndpoint {
                    cell: text(&endpoint["cell"]),
                    port: text(&endpoint["port"]),
                    delay_ps: thousandths(&endpoint["delay"]),
                    budget_ps: thousandths(&endpoint["budget"]),
                })
                .collect(),
        })
        .collect();
    let paths = list(&report["critical_paths"])
        .iter()
        .map(|path| ReportedPath {
            from: text(&path["from"]),
            to: text(&path["to"]),
            segments: list(&path["path"])
                .iter()
                .map(|segment| ReportedSegment {
                    delay_ps: thousandths(&segment["delay"]),
                    from: segment["from"]["cell"].as_str().map(str::to_string),
                    to: segment["to"]["cell"].as_str().map(str::to_string),
                })
                .collect(),
        })
        .collect();
    let clocks = report["fmax"]
        .as_object()
        .unwrap()
        .iter()
        .map(|(name, clock)| {
            (name.clone(), (thousandths(&clock["achieved"]), thousandths(&clock["constraint"])))
        })
        .collect();
    PhysicalFeedback::from_report(PhysicalReport { cells, net_timings, paths, clocks })
}

fn observed(
    placements: BTreeMap<String, PhysicalLocation>,
    bels: BTreeMap<String, String>,
    net_timings: Vec<PhysicalNetTiming>,
    critical_paths: Vec<PhysicalCriticalPath>,
    clocks: BTreeMap<String, (u32, u32)>,
) -> PhysicalFeedback {
    PhysicalFeedback {
        placements: NameMap { entries: placements.into_iter().collect() },
        bels: NameMap { entries: bels.into_iter().collect() },
        net_timings,
        critical_paths,
        clock_fmax_khz: NameMap { entries: clocks.into_iter().collect() },
    }
}

fn arithmetic_netlist(width: u32, operation: ArithmeticOp) -> Source {
    let mut source = Source::new("arithmetic");
    let width = NonZeroU32::new(width).unwrap();
    let lhs = source.add_input_port("lhs", width);
    let rhs = source.add_input_port("rhs", width);
    let result = source.add_arithmetic(operation, &lhs, &rhs);
    source.add_output_port("result", &result);
    source
}

fn combinational_io_netlist() -> Source {
    let mut source = Source::new("combinational_io");
    let inputs = source.add_input_port("inputs", NonZeroU32::new(12).unwrap());
    let result = inputs[1..]
        .iter()
        .fold(inputs[0], |value, input| source.add_and(value, *input));
    source.add_output("result", result);
    source
}

fn registered_ooc_netlist(clock_name: &str) -> Source {
    let mut source = Source::new("registered_ooc");
    let clock = source.add_input(clock_name);
    let input = source.add_input("request");
    let registered = source.add_register_output("response_q");
    source.add_register(register_cell(
        "response_q",
        registered,
        input,
        clock,
        ClockEdge::Rising,
        None,
        None,
    ));
    source.add_output("response", registered);
    source
}

fn clock_on(port: &str, period_ps: u32, uncertainty_ps: u32) -> TimingClockConstraint {
    TimingClockConstraint { port: port.into(), period_ps, uncertainty_ps }
}

fn boundary(max_boundary_delay_ps: u32) -> OocPortConstraint {
    OocPortConstraint { clock: "core".into(), max_boundary_delay_ps }
}

fn no_ooc_constraints() -> OocTimingConstraints {
    OocTimingConstraints {
        clocks: NameMap::new(),
        inputs: NameMap::new(),
        outputs: NameMap::new(),
        asynchronous_controls: Vec::new(),
    }
}

fn ooc_constraints(clock_port: &str) -> OocTimingConstraints {
    let mut constraints = no_ooc_constraints();
    constraints.clocks.insert("core".into(), clock_on(clock_port, 4_000, 100));
    constraints.inputs.insert("request".into(), boundary(600));
    constraints.outputs.insert("response".into(), boundary(700));
    constraints
}

#[test]
fn maps_a_fully_constrained_registered_ooc_boundary() {
    let source = registered_ooc_netlist("clock");
    let constraints = ooc_constraints("clock");

    assert_eq!(constraints.nominal_period_ps(), Some(4_000));
    assert_eq!(constraints.effective_period_ps(), Some(3_900));
    let mapped = map_to_ecp5_ooc(&source, &constraints).unwrap();

    assert!(mapped.retiming().original_overall_period_ps > 3_200);
}

#[test]
fn shares_named_clock_constraints_with_mapping_and_nextpnr() {
    let source = registered_ooc_netlist("clock");
    let constraints = TimingConstraints::new().with_clock(
        "core",
        TimingClockConstraint {
            port: "clock".into(),
            period_ps: 10_000,
            uncertainty_ps: 250,
        },
    );

    let mapped =
        map_to_ecp5_with_timing_constraints(&source, MappingOptions::default(), &constraints)
            .unwrap();

    assert_eq!(constraints.tightest_effective_period_ps(), Some(9_750));
    assert_eq!(mapped.nextpnr_default_frequency_mhz(), 103);
    let pre_pack = mapped.nextpnr_pre_pack_timing_constraints();
    assert!(pre_pack.contains("ctx.addClock(\"clock\", 1000000.0 / 9750)"));
    let json = nextpnr_value(&mapped);
    assert!(json["modules"]["registered_ooc"]["netnames"]["clock"].is_object());
}

#[test]
fn named_clock_constraints_reject_undeclared_state_domains() {
    let mut source = registered_ooc_netlist("clock_b");
    source.add_input("clock_a");
    let constraints = TimingConstraints::new().with_clock(
        "core",
        TimingClockConstraint {
            port: "clock_a".into(),
            period_ps: 10_000,
            uncertainty_ps: 0,
        },
    );

    let error =
        map_to_ecp5_with_timing_constraints(&source, MappingOptions::default(), &constraints)
            .unwrap_err();

    assert!(error.message().contains("not declared in `clocks`"));
}

#[test]
fn rejects_exceptions_that_nextpnr_cannot_enforce() {
    let source = registered_ooc_netlist("clock");
    let mut constraints = TimingConstraints::new();
    constraints.false_paths.push(TimingPathConstraint {
        from: "port:request".into(),
        to: "cell:response_q".into(),
    });

    let error =
        map_to_ecp5_with_timing_constraints(&source, MappingOptions::default(), &constraints)
            .unwrap_err();

    assert!(error.message().contains("false paths are not supported"));
}

#[test]
fn accepts_an_explicit_asynchronous_reset_boundary() {
    let mut source = Source::new("registered_ooc_reset");
    let clock = source.add_input("clock");
    let reset = source.add_input("reset_n");
    let input = source.add_input("request");
    let registered = source.add_register_output("response_q");
    source.add_register(register_cell(
        "response_q",
        registered,
        input,
        clock,
        ClockEdge::Rising,
        None,
        Some(ResetControl {
            signal: reset,
            active: ActiveLevel::Low,
            asynchronous: true,
            value: false,
        }),
    ));
    source.add_output("response", registered);
    let mut constraints = ooc_constraints("clock");
    constraints.asynchronous_controls.push("reset_n".into());

    map_to_ecp5_ooc(&source, &constraints).unwrap();
}

#[test]
fn rejects_an_unconstrained_ooc_data_port() {
    let source = registered_ooc_netlist("clock");
    let mut constraints = ooc_constraints("clock");
    constraints.inputs = NameMap::new();

    let error = map_to_ecp5_ooc(&source, &constraints).unwrap_err();

    assert!(
        error
            .message()
            .contains("data input `request` has no OOC")
    );
}

#[test]
fn rejects_an_ooc_combinational_feedthrough() {
    let mut source = combinational_io_netlist();
    source.add_input("clock");
    let mut constraints = no_ooc_constraints();
    constraints.clocks.insert("core".into(), clock_on("clock", 4_000, 0));
    constraints.inputs.insert("inputs".into(), boundary(600));
    constraints.outputs.insert("result".into(), boundary(600));

    let error = map_to_ecp5_ooc(&source, &constraints).unwrap_err();

    assert!(
        error
            .message()
            .contains("combinational path to an output")
    );
}

#[test]
fn rejects_an_ooc_boundary_on_the_wrong_clock() {
    let mut source = registered_ooc_netlist("clock_b");
    source.add_input("clock_a");
    let mut constraints = ooc_constraints("clock_a");
    constraints.clocks.insert(
        "other".into(),
        OocClockConstraint {
            port: "clock_b".into(),
            period_ps: 4_000,
            uncertainty_ps: 100,
        },
    );

    let error = map_to_ecp5_ooc(&source, &constraints).unwrap_err();

    assert!(error.message().contains("outside declared clock `core`"));
}

#[test]
fn unconstrained_io_paths_are_not_scored_against_the_frequency_goal() {
    let source = combinational_io_netlist();
    let slow = map_to_ecp5_with_options(
        &source,
        MappingOptions {
            timing_goal_mhz: 100,
            ..MappingOptions::default()
        },
    )
    .unwrap();
    let fast = map_to_ecp5_with_options(
        &source,
        MappingOptions {
            timing_goal_mhz: 1_000,
            ..MappingOptions::default()
        },
    )
    .unwrap();

    assert_eq!(slow.cells(), fast.cells());
    assert_eq!(slow.retiming().original_overall_period_ps, 0);
    assert_eq!(fast.retiming().original_overall_period_ps, 0);
}

#[test]
fn explicit_io_delays_constrain_the_named_paths() {
    let source = combinational_io_netlist();
    let constraints = IoTimingConstraints::new()
        .with_input_delay_ps("inputs", 500)
        .with_output_delay_ps("result", 750);

    let mapped = map_to_ecp5_with_constraints(
        &source,
        MappingOptions {
            timing_goal_mhz: 250,
            ..MappingOptions::default()
        },
        &constraints,
    )
    .unwrap();

    assert!(mapped.retiming().original_overall_period_ps > 1_250);
}

#[test]
fn input_to_register_and_register_to_output_paths_require_io_delays() {
    let mut source = Source::new("sequential_io");
    let clock = source.add_input("clock");
    let input = source.add_input("input");
    let auxiliary = source.add_input("auxiliary");
    let data = source.add_and(input, auxiliary);
    let registered = source.add_register_output("registered");
    source.add_register(register_cell(
        "registered",
        registered,
        data,
        clock,
        ClockEdge::Rising,
        None,
        None,
    ));
    let result = source.add_xor(registered, auxiliary);
    source.add_output("result", result);

    let unconstrained = map_to_ecp5(&source).unwrap();
    assert_eq!(unconstrained.retiming().original_period_ps, 0);
    assert_eq!(unconstrained.retiming().original_overall_period_ps, 0);

    let constrained_inputs = IoTimingConstraints::new()
        .with_input_delay_ps("input", 400)
        .with_input_delay_ps("auxiliary", 400);
    let input_timed =
        map_to_ecp5_with_constraints(&source, MappingOptions::default(), &constrained_inputs)
            .unwrap();
    assert!(input_timed.retiming().original_period_ps > 400);

    let constrained_output = IoTimingConstraints::new().with_output_delay_ps("result", 600);
    let output_timed =
        map_to_ecp5_with_constraints(&source, MappingOptions::default(), &constrained_output)
            .unwrap();
    assert!(output_timed.retiming().original_overall_period_ps > 600);
}

#[test]
fn rejects_an_io_delay_on_a_port_of_the_wrong_direction() {
    let source = combinational_io_netlist();
    let constraints = IoTimingConstraints::new().with_input_delay_ps("result", 500);

    let error = map_to_ecp5_with_constraints(&source, MappingOptions::default(), &constraints)
        .unwrap_err();

    assert!(matches!(
        error,
        MappingError::TimingPortDirection {
            expected: PortDirection::Input,
            actual: PortDirection::Output,
            ..
        }
    ));
}

#[test]
fn closed_mapping_keeps_the_smaller_unretimed_cover() {
    let mut source = Source::new("retimed_lut_chain");
    let clock = source.add_input("clock");
    let reset = source.add_input("reset");
    let inputs = (0..8)
        .map(|index| source.add_input(format!("input{index}")))
        .collect::<Vec<_>>();
    let reset_control = ResetControl {
        signal: reset,
        active: ActiveLevel::High,
        asynchronous: true,
        value: false,
    };
    let registered = inputs
        .iter()
        .enumerate()
        .map(|(index, input)| {
            let name = format!("input_q{index}");
            let output = source.add_register_output(&name);
            source.add_register(register_cell(
                name,
                output,
                *input,
                clock,
                ClockEdge::Rising,
                None,
                Some(reset_control),
            ));
            output
        })
        .collect::<Vec<_>>();
    let reduced = registered[1..]
        .iter()
        .fold(registered[0], |value, input| source.add_and(value, *input));
    let output = source.add_register_output("result_q");
    source.add_register(register_cell(
        "result_q",
        output,
        reduced,
        clock,
        ClockEdge::Rising,
        None,
        Some(reset_control),
    ));
    source.add_output("result", output);

    let mapped = map_to_ecp5(&source).unwrap();

    assert!(!mapped.retiming().applied, "{:?}", mapped.retiming());
    assert!(mapped.retiming().equivalence_signed_off);
    assert_eq!(mapped.retiming().original_lut_depth, 3);
    assert_eq!(mapped.retiming().selected_lut_depth, 3);
}

#[test]
fn folds_constant_flip_flops_that_gsr_initialization_makes_constant() {
    let mut source = Source::new("constant_ff");
    let clock = source.add_input("clock");
    let reset = source.add_input("reset");
    let zero = source.add_constant(false);
    let one = source.add_constant(true);

    // No reset: GSR loads the configured value, so the flip-flop output
    // equals its constant data from configuration onward.
    let unreset_zero_q = source.add_register_output("unreset_zero_q");
    source.add_register(register_cell(
        "unreset_zero_q",
        unreset_zero_q,
        zero,
        clock,
        ClockEdge::Rising,
        None,
        None,
    ));
    source.add_output("unreset_zero", unreset_zero_q);
    let unreset_one_q = source.add_register_output("unreset_one_q");
    source.add_register(register_cell(
        "unreset_one_q",
        unreset_one_q,
        one,
        clock,
        ClockEdge::Rising,
        None,
        None,
    ));
    source.add_output("unreset_one", unreset_one_q);

    // Reset asserting the same constant also stays constant forever.
    let matched_reset_q = source.add_register_output("matched_reset_q");
    source.add_register(register_cell(
        "matched_reset_q",
        matched_reset_q,
        zero,
        clock,
        ClockEdge::Rising,
        None,
        Some(ResetControl {
            signal: reset,
            active: ActiveLevel::High,
            asynchronous: true,
            value: false,
        }),
    ));
    source.add_output("matched_reset", matched_reset_q);

    // A reset asserting the opposite value forces the output away from
    // the constant after the first clock edge, so it must stay a flip-flop.
    let mismatched_reset_q = source.add_register_output("mismatched_reset_q");
    source.add_register(register_cell(
        "mismatched_reset_q",
        mismatched_reset_q,
        zero,
        clock,
        ClockEdge::Rising,
        None,
        Some(ResetControl {
            signal: reset,
            active: ActiveLevel::High,
            asynchronous: true,
            value: true,
        }),
    ));
    source.add_output("mismatched_reset", mismatched_reset_q);

    let mapped = map_once(
        &source,
        MappingOptions::default(),
        &IoTimingConstraints::new(),
    )
    .unwrap();
    let flip_flops = mapped
        .cells
        .iter()
        .filter(|cell| matches!(cell, Ecp5Cell::FlipFlop { .. }))
        .count();
    assert_eq!(flip_flops, 1, "only the mismatched-reset register remains");

    let bits = |name: &str| {
        mapped
            .ports
            .iter()
            .find(|port| port.name == name)
            .unwrap_or_else(|| panic!("port `{name}` missing"))
            .bits
            .clone()
    };
    assert_eq!(bits("unreset_zero"), vec![Bit::Zero]);
    assert_eq!(bits("unreset_one"), vec![Bit::One]);
    assert_eq!(bits("matched_reset"), vec![Bit::Zero]);
    assert!(matches!(bits("mismatched_reset")[0], Bit::Wire(_)));
}

/// Chain a -> b -> c where b's carry-out branches into c and d.
fn branched_carry_netlist() -> Ecp5Netlist {
    let base = map_once(
        &arithmetic_netlist(8, ArithmeticOp::Add),
        MappingOptions::default(),
        &IoTimingConstraints::new(),
    )
    .unwrap();
    let mut netlist = base;
    netlist.cells.clear();
    netlist.ports.clear();
    netlist.equivalence_proof.equivalent_logic_replications = 0;
    let constant = Bit::Zero;
    let slice = |name: &str, cin: Bit, cout: u32, first: u32| Ecp5Cell::Ccu2c {
        name: name.into(),
        inputs: [[constant; 4]; 2],
        carry_in: cin,
        sums: [first, first + 1],
        carry_out: cout,
        init: [0xaaaa, 0xaaaa],
        inject: [false, false],
    };
    netlist.cells.push(slice("a", constant, 120, 110));
    netlist.cells.push(slice("b", Bit::Wire(120), 121, 112));
    netlist.cells.push(slice("c", Bit::Wire(121), 122, 114));
    netlist.cells.push(slice("d", Bit::Wire(121), 123, 116));
    netlist
}

#[test]
fn splits_branched_carry_outs_until_chains_are_point_to_point() {
    let mut netlist = branched_carry_netlist();

    assert!(!carry_outs_are_point_to_point(&netlist));

    let replicas = split_branched_carry_outs(&mut netlist);

    // The branch at b is repaired by cloning b for d, which branches a;
    // the cascade terminates once a is cloned for the replica of b.
    assert_eq!(replicas, 2);
    assert!(carry_outs_are_point_to_point(&netlist));
    assert_eq!(
        netlist.equivalence_proof.equivalent_logic_replications,
        replicas
    );

    // Two independent point-to-point chains now cover the six slices:
    // the originals feed c, and one full replica chain feeds d.
    let slices = netlist
        .cells
        .iter()
        .filter_map(|cell| match cell {
            Ecp5Cell::Ccu2c {
                name,
                carry_in,
                carry_out,
                init,
                ..
            } => Some((name.clone(), *carry_in, *carry_out, *init)),
            _ => None,
        })
        .collect::<Vec<_>>();
    assert_eq!(slices.len(), 6);

    let consumers_of = |wire: u32| {
        slices
            .iter()
            .filter(|(_, carry_in, ..)| *carry_in == Bit::Wire(wire))
            .map(|(name, ..)| name.clone())
            .collect::<Vec<_>>()
    };
    let cout = |name: &str| match slices.iter().find(|(candidate, ..)| candidate == name) {
        Some(&(_, _, carry_out, _)) => carry_out,
        None => panic!("slice {name} missing"),
    };
    let init_of = |name: &str| match slices.iter().find(|(candidate, ..)| candidate == name) {
        Some(&(.., init)) => init,
        None => panic!("slice {name} missing"),
    };

    assert_eq!(consumers_of(cout("a")), vec!["b".to_owned()]);
    assert_eq!(consumers_of(cout("b")), vec!["c".to_owned()]);

    let producer_of = |wire: u32| {
        slices
            .iter()
            .find(|&(_, _, carry_out, _)| *carry_out == wire)
            .unwrap_or_else(|| panic!("no producer drives wire {wire}"))
    };

    let slice_by_name = |name: &str| slices.iter().find(|(candidate, ..)| candidate == name);

    // d must be fed by a replica of b whose own carry-in is fed by a
    // replica of a rooted at an external constant, never by the original
    // a or b (which would re-create the branch one level up).
    let d_cin = slice_by_name("d").map(|&(_, cin, ..)| cin).unwrap();
    let Bit::Wire(feeder_wire) = d_cin else {
        panic!("d lost its carry connection");
    };
    let (feeder_name, _, _, _) = producer_of(feeder_wire);
    assert_ne!(feeder_name, "b");
    assert_eq!(init_of(feeder_name), init_of("b"));

    let feeder_cin = slice_by_name(feeder_name).map(|&(_, cin, ..)| cin).unwrap();
    let Bit::Wire(root_wire) = feeder_cin else {
        panic!("expected the replica chain to continue to a root");
    };
    let (root_name, root_cin, _, _) = producer_of(root_wire);
    assert_ne!(root_name, "a");
    assert_eq!(init_of(root_name), init_of("a"));
    assert_eq!(*root_cin, Bit::Zero);

    assert_eq!(split_branched_carry_outs(&mut netlist), 0);
    assert!(carry_outs_are_point_to_point(&netlist));
}

#[test]
fn treats_dead_end_carry_outs_as_point_to_point() {
    let mut netlist = branched_carry_netlist();
    netlist.cells.clear();
    netlist.cells.push(Ecp5Cell::Ccu2c {
        name: "lone".into(),
        inputs: [[Bit::Zero; 4]; 2],
        carry_in: Bit::Zero,
        sums: [210, 211],
        carry_out: 220,
        init: [0xaaaa, 0xaaaa],
        inject: [false, false],
    });
    assert!(carry_outs_are_point_to_point(&netlist));
    assert_eq!(split_branched_carry_outs(&mut netlist), 0);
}

#[test]
fn mapped_equivalence_signoff_rejects_an_invalid_final_netlist() {
    let source = arithmetic_netlist(8, ArithmeticOp::Add);
    let mut mapped = map_once(
        &source,
        MappingOptions::default(),
        &IoTimingConstraints::new(),
    )
    .unwrap();
    assert!(verify_mapped_equivalence_proof(&mapped, false));

    let duplicate = mapped.cells[0].clone();
    mapped.cells.push(duplicate);

    assert!(!verify_mapped_equivalence_proof(&mapped, false));
}

#[test]
fn replicates_high_fanout_enable_logic_once() {
    let mut source = Source::new("replicated_enable");
    let clock = source.add_input("clock");
    let reset = source.add_input("reset");
    let enable_lhs = source.add_input("enable_lhs");
    let enable_rhs = source.add_input("enable_rhs");
    let enable = source.add_and(enable_lhs, enable_rhs);
    let data = source.add_input("data");
    for index in 0..10 {
        let name = format!("value{index}");
        let output = source.add_register_output(&name);
        source.add_register(register_cell(
            name.clone(),
            output,
            data,
            clock,
            ClockEdge::Rising,
            Some(EnableControl {
                signal: enable,
                active: ActiveLevel::High,
            }),
            Some(ResetControl {
                signal: reset,
                active: ActiveLevel::High,
                asynchronous: true,
                value: false,
            }),
        ));
        source.add_output(format!("output{index}"), output);
    }
    let mapped = map_once(
        &source,
        MappingOptions::default(),
        &IoTimingConstraints::new(),
    )
    .unwrap();

    let replicated = replicate_high_fanout_enable_luts(&mapped, 5);

    assert_eq!(
        replicated.equivalence_proof.equivalent_logic_replications,
        1
    );
    assert!(verify_mapped_equivalence_proof(&replicated, true));
    assert!(replicated.cells.iter().all(|cell| {
        let Ecp5Cell::FlipFlop {
            enable: Some(enable),
            ..
        } = cell
        else {
            return true;
        };
        let Bit::Wire(wire) = enable.signal else {
            return true;
        };
        mapped_wire_fanout(&replicated, wire) <= 5
    }));
}

#[test]
fn selected_control_retiming_reports_its_mapped_baseline() {
    let mut source = Source::new("selected_control_retiming");
    let clock = source.add_input("clock");
    let reset = source.add_input("reset");
    let enable_lhs = source.add_input("enable_lhs");
    let enable_rhs = source.add_input("enable_rhs");
    let data = source.add_constant(true);
    let reset_control = ResetControl {
        signal: reset,
        active: ActiveLevel::High,
        asynchronous: true,
        value: false,
    };
    let register_input = |source: &mut Source, name: &str, input| {
        let output = source.add_register_output(name);
        source.add_register(register_cell(
            name,
            output,
            input,
            clock,
            ClockEdge::Rising,
            None,
            Some(reset_control),
        ));
        output
    };
    let left_q = register_input(&mut source, "enable_lhs_q", enable_lhs);
    let right_q = register_input(&mut source, "enable_rhs_q", enable_rhs);
    for (name, input) in [
        ("enable_lhs_tap0", left_q),
        ("enable_lhs_tap1", left_q),
        ("enable_rhs_tap0", right_q),
        ("enable_rhs_tap1", right_q),
    ] {
        let output = register_input(&mut source, name, input);
        source.add_output(name, output);
    }
    let enable = source.add_and(left_q, right_q);
    for index in 0..32 {
        let name = format!("value{index}");
        let output = source.add_register_output(&name);
        source.add_register(register_cell(
            name,
            output,
            data,
            clock,
            ClockEdge::Rising,
            Some(EnableControl {
                signal: enable,
                active: ActiveLevel::High,
            }),
            Some(reset_control),
        ));
        source.add_output(format!("output{index}"), output);
    }
    // This source register is folded by GSR-aware mapping.  The report
    // must therefore use the mapped baseline count, not the source count.
    let zero = source.add_constant(false);
    let constant_q = source.add_register_output("constant_q");
    source.add_register(register_cell(
        "constant_q",
        constant_q,
        zero,
        clock,
        ClockEdge::Rising,
        None,
        None,
    ));
    source.add_output("constant", constant_q);

    let options = MappingOptions {
        timing_goal_mhz: 667,
        ..MappingOptions::default()
    };
    let mapped = map_to_ecp5_with_options(&source, options).unwrap();

    assert!(mapped.retiming().applied, "{:?}", mapped.retiming());
    assert!(mapped.retiming().equivalence_signed_off);
    assert!(mapped.retiming().equivalent_logic_replications > 0);
    assert_eq!(mapped.retiming().original_registers, 38);
    assert_eq!(mapped.retiming().selected_registers, 38);
    assert!(
        mapped.retiming().selected_overall_period_ps
            < mapped.retiming().original_overall_period_ps
    );
}

#[test]
fn constrains_enable_fanout_per_mapped_register_pattern() {
    let mut source = Source::new("constrained_enable");
    let clock = source.add_input("clock");
    let enable_lhs = source.add_input("enable_lhs");
    let enable_rhs = source.add_input("enable_rhs");
    let enable = source.add_and(enable_lhs, enable_rhs);
    let data = source.add_input("data");
    for index in 0..50 {
        let name = format!("value[{index}]");
        let output = source.add_register_output(&name);
        source.add_register(register_cell(
            name.clone(),
            output,
            data,
            clock,
            ClockEdge::Rising,
            Some(EnableControl {
                signal: enable,
                active: ActiveLevel::High,
            }),
            None,
        ));
        source.add_output(format!("output{index}"), output);
    }
    let mut mapped = map_once(
        &source,
        MappingOptions::default(),
        &IoTimingConstraints::new(),
    )
    .unwrap();

    let report = mapped
        .apply_register_enable_fanout_constraints(&[RegisterEnableFanoutConstraint::new(
            "ff_value[*]",
            5,
        )])
        .unwrap();

    assert_eq!(
        report,
        RegisterEnableFanoutReport {
            matched_registers: 50,
            rewired_registers: 50,
            inserted_branches: 10,
        }
    );
    assert!(mapped.retiming.equivalence_signed_off);
    assert!(mapped.cells.iter().all(|cell| {
        let Ecp5Cell::FlipFlop {
            name,
            enable: Some(enable),
            ..
        } = cell
        else {
            return true;
        };
        if !name.starts_with("ff_value[") {
            return true;
        }
        let Bit::Wire(wire) = enable.signal else {
            return false;
        };
        mapped_wire_fanout(&mapped, wire) <= 5
    }));
}

#[test]
fn rejects_unmatched_register_enable_pattern_without_mutating() {
    let source = arithmetic_netlist(8, ArithmeticOp::Add);
    let mut mapped = map_once(
        &source,
        MappingOptions::default(),
        &IoTimingConstraints::new(),
    )
    .unwrap();
    let original = mapped.clone();

    let error = mapped
        .apply_register_enable_fanout_constraints(&[RegisterEnableFanoutConstraint::new(
            "ff_missing*",
            8,
        )])
        .unwrap_err();

    assert_eq!(
        error,
        RegisterEnableFanoutError::UnmatchedPattern {
            pattern: "ff_missing*".into(),
        }
    );
    assert_eq!(mapped, original);
}

#[test]
fn constrains_register_driven_enable_with_identity_lut_branches() {
    let mut source = Source::new("registered_enable");
    let clock = source.add_input("clock");
    let enable_data = source.add_input("enable_data");
    let enable = source.add_register_output("enable_q");
    source.add_register(register_cell(
        "enable_q",
        enable,
        enable_data,
        clock,
        ClockEdge::Rising,
        None,
        None,
    ));
    let data = source.add_input("data");
    for index in 0..10 {
        let name = format!("value[{index}]");
        let output = source.add_register_output(&name);
        source.add_register(register_cell(
            name.clone(),
            output,
            data,
            clock,
            ClockEdge::Rising,
            Some(EnableControl {
                signal: enable,
                active: ActiveLevel::High,
            }),
            None,
        ));
        source.add_output(format!("output{index}"), output);
    }
    let mut mapped = map_once(
        &source,
        MappingOptions::default(),
        &IoTimingConstraints::new(),
    )
    .unwrap();
    let enable_wire = mapped
        .cells
        .iter()
        .find_map(|cell| match cell {
            Ecp5Cell::FlipFlop { name, output, .. } if name == "ff_enable_q" => Some(*output),
            _ => None,
        })
        .unwrap();

    let report = mapped
        .apply_register_enable_fanout_constraints(&[RegisterEnableFanoutConstraint::new(
            "ff_value[*]",
            3,
        )])
        .unwrap();

    assert_eq!(report.inserted_branches, 4);
    assert_eq!(mapped_wire_fanout(&mapped, enable_wire), 4);
    assert_eq!(
        mapped
            .cells
            .iter()
            .filter(|cell| matches!(
                cell,
                Ecp5Cell::Lut4 {
                    inputs: [Bit::Wire(input), Bit::Zero, Bit::Zero, Bit::Zero],
                    init: 0xaaaa,
                    ..
                } if *input == enable_wire
            ))
            .count(),
        4
    );
}

#[test]
fn physical_feedback_replicates_only_the_violating_lut_branch() {
    let mut source = Source::new("physical_feedback");
    let clock = source.add_input("clock");
    let lhs = source.add_input("lhs");
    let rhs = source.add_input("rhs");
    let data = source.add_and(lhs, rhs);
    for index in 0..2 {
        let name = format!("value{index}");
        let output = source.add_register_output(&name);
        source.add_register(register_cell(
            name.clone(),
            output,
            data,
            clock,
            ClockEdge::Rising,
            None,
            None,
        ));
        source.add_output(format!("output{index}"), output);
    }
    let mapped = map_once(
        &source,
        MappingOptions::default(),
        &IoTimingConstraints::new(),
    )
    .unwrap();
    let (driver, output) = mapped
        .cells
        .iter()
        .find_map(|cell| match cell {
            Ecp5Cell::Lut4 { name, output, .. }
                if mapped_wire_fanout(&mapped, *output) == 2 =>
            {
                Some((name.clone(), *output))
            }
            _ => None,
        })
        .unwrap();
    let sinks = mapped
        .cells
        .iter()
        .filter_map(|cell| match cell {
            Ecp5Cell::FlipFlop {
                name,
                data: Bit::Wire(wire),
                ..
            } if *wire == output => Some(name.clone()),
            _ => None,
        })
        .collect::<Vec<_>>();
    let report = format!(
        r#"{{"fmax":{{"clock":{{"achieved":319.0,"constraint":320.0}}}},"detailed_net_timings":[{{"driver":"{driver}","net":"critical","endpoints":[{{"cell":"{}","port":"DI","delay":4.0,"budget":3.0}},{{"cell":"{}","port":"DI","delay":2.0,"budget":3.0}}]}}]}}"#,
        sinks[0], sinks[1]
    );
    let placed = format!(
        r#"{{"modules":{{"physical_feedback":{{"cells":{{"{driver}":{{"attributes":{{"NEXTPNR_BEL":"X1/Y1/SLICEA.K0"}}}},"{}":{{"attributes":{{"NEXTPNR_BEL":"X8/Y8/SLICEA.FF0"}}}},"{}":{{"attributes":{{"NEXTPNR_BEL":"X2/Y2/SLICEA.FF1"}}}}}}}}}}}}"#,
        sinks[0], sinks[1]
    );
    let feedback = feedback_from(&report, &placed);

    let refined = mapped.apply_physical_feedback(&feedback, &certify);

    assert_eq!(refined.cells.len(), mapped.cells.len() + 1);
    assert_eq!(refined.retiming.equivalent_physical_rewires, 1);
    assert_eq!(
        refined.retiming.equivalent_logic_replications,
        mapped.retiming.equivalent_logic_replications + 1
    );
    assert!(refined.retiming.equivalence_signed_off);
    let json = nextpnr_json(&refined);
    assert!(json.contains("physical_replicate_"));
    assert!(!json.contains("NEXTPNR_BEL"));

    let far_from_closure =
        feedback_from(&report.replace("319.0", "300.0"), &placed);
    assert_ne!(mapped.apply_physical_feedback(&far_from_closure, &certify), mapped);

    let incompatible = feedback_from(
        &report,
        &placed.replace("SLICEA.K0", "SLICEA.FF0"),
    );
    assert_eq!(mapped.apply_physical_feedback(&incompatible, &certify), mapped);

    let passing =
        feedback_from(&report.replace("319.0", "321.0"), &placed);
    assert_eq!(mapped.apply_physical_feedback(&passing, &certify), mapped);
}

#[test]
#[allow(clippy::too_many_lines)]
fn physical_feedback_replicates_a_small_violating_branch_of_a_high_fanout_lut() {
    let mut source = Source::new("physical_high_fanout");
    let clock = source.add_input("clock");
    let lhs = source.add_input("lhs");
    let rhs = source.add_input("rhs");
    let data = source.add_and(lhs, rhs);
    for index in 0..20 {
        let name = format!("value{index}");
        let output = source.add_register_output(&name);
        source.add_register(register_cell(
            name.clone(),
            output,
            data,
            clock,
            ClockEdge::Rising,
            None,
            None,
        ));
        source.add_output(format!("output{index}"), output);
    }
    let mapped = map_once(
        &source,
        MappingOptions::default(),
        &IoTimingConstraints::new(),
    )
    .unwrap();
    let (driver, output) = mapped
        .cells
        .iter()
        .find_map(|cell| match cell {
            Ecp5Cell::Lut4 { name, output, .. }
                if mapped_wire_fanout(&mapped, *output) == 20 =>
            {
                Some((name.clone(), *output))
            }
            _ => None,
        })
        .unwrap();
    let sinks = mapped
        .cells
        .iter()
        .filter_map(|cell| match cell {
            Ecp5Cell::FlipFlop {
                name,
                data: Bit::Wire(wire),
                ..
            } if *wire == output => Some(name.clone()),
            _ => None,
        })
        .collect::<Vec<_>>();
    let placements = mapped
        .cells
        .iter()
        .filter(|cell| !matches!(cell, Ecp5Cell::Ccu2c { .. }))
        .map(|cell| {
            (
                mapped_cell_name(cell).to_owned(),
                PhysicalLocation { x: 1, y: 1 },
            )
        })
        .collect::<BTreeMap<_, _>>();
    let bels = mapped
        .cells
        .iter()
        .filter_map(|cell| {
            let bel = match cell {
                Ecp5Cell::Lut4 { .. } => "X1/Y1/SLICEA.K0",
                Ecp5Cell::FlipFlop { .. } => "X1/Y1/SLICEA.FF0",
                Ecp5Cell::TrellisIo { .. } => "X1/Y1/PIOA",
                Ecp5Cell::Ccu2c { .. } => return None,
                _ => unreachable!("fixture maps only LUTs, FFs, and IOs"),
            };
            Some((mapped_cell_name(cell).to_owned(), bel.to_owned()))
        })
        .collect::<BTreeMap<_, _>>();
    let endpoints = sinks
        .iter()
        .enumerate()
        .map(|(index, cell)| PhysicalTimingEndpoint {
            cell: cell.clone(),
            port: "DI".into(),
            delay_ps: if index == 0 { 4_000 } else { 2_000 },
            budget_ps: 3_000,
        })
        .collect();
    let feedback = observed(
        placements,
        bels,
        vec![PhysicalNetTiming {
            driver,
            net: "critical".into(),
            endpoints,
        }],
        Vec::new(),
        BTreeMap::from([("clock".into(), (319_000, 320_000))]),
    );
    let mut mapped_with_absorbed_mux = mapped.clone();
    mapped_with_absorbed_mux.cells.push(Ecp5Cell::PfuMux {
        name: "absorbed_mux".into(),
        lut_true: Bit::Zero,
        lut_false: Bit::Zero,
        select: Bit::Zero,
        output: u32::MAX,
    });
    assert!(physical_feedback_matches_netlist(
        &mapped_with_absorbed_mux,
        &feedback
    ));

    let refined = mapped.apply_physical_feedback(&feedback, &certify);

    assert_eq!(refined.cells.len(), mapped.cells.len() + 1);
    assert_eq!(refined.retiming.equivalent_physical_rewires, 1);
    assert!(refined.retiming.equivalence_signed_off);
}

#[test]
#[allow(clippy::too_many_lines)]
fn physical_feedback_replicates_a_critical_high_fanout_flip_flop() {
    let mut source = Source::new("physical_high_fanout_ff");
    let clock = source.add_input("clock");
    let seed = source.add_input("seed");
    let state = source.add_register_output("state");
    source.add_register(register_cell(
        "state",
        state,
        seed,
        clock,
        ClockEdge::Rising,
        None,
        None,
    ));
    for index in 0..20 {
        let input = source.add_input(format!("input{index}"));
        let mixed = source.add_xor(state, input);
        source.add_output(format!("output{index}"), mixed);
    }
    let mapped = map_once(
        &source,
        MappingOptions::default(),
        &IoTimingConstraints::new(),
    )
    .unwrap();
    let (driver, output) = mapped
        .cells
        .iter()
        .find_map(|cell| match cell {
            Ecp5Cell::FlipFlop { name, output, .. }
                if mapped_wire_fanout(&mapped, *output) == 20 =>
            {
                Some((name.clone(), *output))
            }
            _ => None,
        })
        .unwrap();
    let sinks = mapped
        .cells
        .iter()
        .filter_map(|cell| match cell {
            Ecp5Cell::Lut4 { name, inputs, .. } if inputs.contains(&Bit::Wire(output)) => {
                Some(name.clone())
            }
            _ => None,
        })
        .collect::<Vec<_>>();
    assert_eq!(sinks.len(), 20);
    let placements = mapped
        .cells
        .iter()
        .filter(|cell| !matches!(cell, Ecp5Cell::Ccu2c { .. }))
        .map(|cell| {
            (
                mapped_cell_name(cell).to_owned(),
                PhysicalLocation { x: 1, y: 1 },
            )
        })
        .collect::<BTreeMap<_, _>>();
    let bels = mapped
        .cells
        .iter()
        .filter_map(|cell| {
            let bel = match cell {
                Ecp5Cell::Lut4 { .. } => "X1/Y1/SLICEA.K0",
                Ecp5Cell::FlipFlop { .. } => "X1/Y1/SLICEA.FF0",
                Ecp5Cell::TrellisIo { .. } => "X1/Y1/PIOA",
                Ecp5Cell::Ccu2c { .. } => return None,
                _ => unreachable!("fixture maps only LUTs, FFs, and IOs"),
            };
            Some((mapped_cell_name(cell).to_owned(), bel.to_owned()))
        })
        .collect::<BTreeMap<_, _>>();
    let endpoints = sinks
        .iter()
        .enumerate()
        .map(|(index, cell)| PhysicalTimingEndpoint {
            cell: cell.clone(),
            port: "A".into(),
            delay_ps: if index < 4 { 4_000 } else { 2_000 },
            budget_ps: 3_000,
        })
        .collect();
    let feedback = observed(
        placements,
        bels,
        vec![PhysicalNetTiming {
            driver,
            net: "critical".into(),
            endpoints,
        }],
        Vec::new(),
        BTreeMap::from([("clock".into(), (319_000, 320_000))]),
    );

    let refined = mapped.apply_physical_feedback(&feedback, &certify);

    assert_eq!(refined.cells.len(), mapped.cells.len() + 1);
    assert_eq!(refined.retiming.equivalent_physical_rewires, 4);
    assert!(refined.cells.iter().any(|cell| matches!(
        cell,
        Ecp5Cell::FlipFlop { name, .. } if name.starts_with("physical_replicate_")
    )));
    assert!(refined.retiming.equivalence_signed_off);
}

#[test]
fn physical_critical_path_guides_a_certified_cone_retime() {
    let mut source = Source::new("physical_retime");
    let clock = source.add_input("clock");
    let reset = source.add_input("reset");
    let lhs = source.add_input("lhs");
    let rhs = source.add_input("rhs");
    let data = source.add_and(lhs, rhs);
    let output = source.add_register_output("value");
    source.add_register(register_cell(
        "value",
        output,
        data,
        clock,
        ClockEdge::Rising,
        None,
        Some(ResetControl {
            signal: reset,
            active: ActiveLevel::High,
            asynchronous: true,
            value: false,
        }),
    ));
    let result = source.add_register_output("result");
    source.add_register(register_cell(
        "result",
        result,
        output,
        clock,
        ClockEdge::Rising,
        None,
        Some(ResetControl {
            signal: reset,
            active: ActiveLevel::High,
            asynchronous: true,
            value: false,
        }),
    ));
    source.add_output("output", result);
    let io_timing = IoTimingConstraints::new()
        .with_input_delay_ps("lhs", 0)
        .with_input_delay_ps("rhs", 0);
    let mapped = map_once(&source, MappingOptions::default(), &io_timing).unwrap();
    let driver = mapped
        .cells
        .iter()
        .find_map(|cell| match cell {
            Ecp5Cell::Lut4 { name, .. } => Some(name.clone()),
            _ => None,
        })
        .unwrap();
    let sink = mapped
        .cells
        .iter()
        .find_map(|cell| match cell {
            Ecp5Cell::FlipFlop { name, .. } if name == "ff_value" => Some(name.clone()),
            _ => None,
        })
        .unwrap();
    let result_sink = mapped
        .cells
        .iter()
        .find_map(|cell| match cell {
            Ecp5Cell::FlipFlop { name, .. } if name == "ff_result" => Some(name.clone()),
            _ => None,
        })
        .unwrap();
    let report = format!(
        r#"{{"critical_paths":[{{"from":"posedge clk","path":[{{"delay":3.2,"from":{{"cell":"source_ff"}},"to":{{"cell":"{driver}"}}}},{{"delay":0.1,"from":{{"cell":"{driver}"}},"to":{{"cell":"{sink}"}}}}],"to":"posedge clk"}}],"fmax":{{"clock":{{"achieved":310.0,"constraint":320.0}}}}}}"#
    );
    let placed = format!(
        r#"{{"modules":{{"physical_retime":{{"cells":{{"{driver}":{{"attributes":{{"NEXTPNR_BEL":"X1/Y1/SLICEA.K0"}}}},"{sink}":{{"attributes":{{"NEXTPNR_BEL":"X2/Y2/SLICEA.FF0"}}}},"{result_sink}":{{"attributes":{{"NEXTPNR_BEL":"X3/Y3/SLICEA.FF1"}}}}}}}}}}}}"#
    );
    let feedback = feedback_from(&report, &placed);

    let refined = mapped.apply_physical_feedback(&feedback, &certify);

    assert_eq!(
        refined.retiming.certified_primitive_moves,
        mapped.retiming.certified_primitive_moves + 1
    );
    assert_eq!(refined.retiming.equivalent_physical_rewires, 0);
    assert!(refined.retiming.applied);
    assert!(refined.retiming.equivalence_signed_off);
    assert!(
        refined
            .cells
            .iter()
            .any(|cell| mapped_cell_name(cell).starts_with("retime_ff_value"))
    );
}

#[test]
#[allow(clippy::too_many_lines)]
fn physical_feedback_emits_bounded_opposite_direction_candidates() {
    let mut source = Source::new("physical_candidates");
    let clock = source.add_input("clock");
    let reset = source.add_input("reset");
    let lhs = source.add_input("lhs");
    let rhs = source.add_input("rhs");
    let reset_control = ResetControl {
        signal: reset,
        active: ActiveLevel::High,
        asynchronous: true,
        value: false,
    };
    let lhs_q = source.add_register_output("lhs_q");
    source.add_register(register_cell(
        "lhs_q",
        lhs_q,
        lhs,
        clock,
        ClockEdge::Rising,
        None,
        Some(reset_control),
    ));
    let rhs_q = source.add_register_output("rhs_q");
    source.add_register(register_cell(
        "rhs_q",
        rhs_q,
        rhs,
        clock,
        ClockEdge::Rising,
        None,
        Some(reset_control),
    ));
    let data = source.add_and(lhs_q, rhs_q);
    let result_q = source.add_register_output("result_q");
    source.add_register(register_cell(
        "result_q",
        result_q,
        data,
        clock,
        ClockEdge::Rising,
        None,
        Some(reset_control),
    ));
    source.add_output("result", result_q);
    let mapped = map_once(
        &source,
        MappingOptions::default(),
        &IoTimingConstraints::new(),
    )
    .unwrap();
    let lut = mapped
        .cells
        .iter()
        .find_map(|cell| match cell {
            Ecp5Cell::Lut4 { name, .. } => Some(name.clone()),
            _ => None,
        })
        .unwrap();
    let sink = mapped
        .cells
        .iter()
        .find_map(|cell| match cell {
            Ecp5Cell::FlipFlop { name, .. } if name == "ff_result_q" => Some(name.clone()),
            _ => None,
        })
        .unwrap();
    let placed_cells = mapped
        .cells
        .iter()
        .enumerate()
        .map(|(index, cell)| {
            let bel = match cell {
                Ecp5Cell::Lut4 { .. } => format!("X{index}/Y1/SLICEA.K0"),
                Ecp5Cell::FlipFlop { .. } => format!("X{index}/Y1/SLICEA.FF0"),
                Ecp5Cell::PfuMux { .. }
                | Ecp5Cell::L6Mux21 { .. }
                | Ecp5Cell::Ccu2c { .. }
                | Ecp5Cell::BlockRam { .. }
                | Ecp5Cell::TrellisIo { .. }
                | Ecp5Cell::Jtagg { .. }
                | Ecp5Cell::Pll { .. } => unreachable!(),
            };
            format!(
                r#""{}":{{"attributes":{{"NEXTPNR_BEL":"{bel}"}}}}"#,
                mapped_cell_name(cell)
            )
        })
        .collect::<Vec<_>>()
        .join(",");
    let report = format!(
        r#"{{"critical_paths":[{{"from":"posedge clk","path":[{{"delay":2.8,"from":{{"cell":"ff_lhs_q"}},"to":{{"cell":"{lut}"}}}},{{"delay":0.4,"from":{{"cell":"{lut}"}},"to":{{"cell":"{sink}"}}}}],"to":"posedge clk"}}],"fmax":{{"clock":{{"achieved":310.0,"constraint":320.0}}}}}}"#
    );
    let placed = [
        r#"{"modules":{"physical_candidates":{"cells":{"#,
        &placed_cells,
        "}}}}",
    ]
    .concat();
    let feedback = feedback_from(&report, &placed);

    let candidates = mapped.physical_feedback_candidates(&feedback, &certify);

    assert_eq!(candidates.len(), 2);
    assert_ne!(candidates[0], candidates[1]);
    assert!(candidates.iter().all(|candidate| {
        candidate.retiming.applied
            && candidate.retiming.equivalence_signed_off
            && verify_mapped_equivalence_proof(candidate, true)
    }));
    assert!(candidates.iter().any(|candidate| {
        candidate
            .cells
            .iter()
            .any(|cell| mapped_cell_name(cell).starts_with("forward_ff_"))
    }));
}

#[test]
fn forward_lut_retiming_moves_a_registered_input_cut_to_the_output() {
    let mut source = Source::new("forward_lut");
    let clock = source.add_input("clock");
    let reset = source.add_input("reset");
    let lhs = source.add_input("lhs");
    let rhs = source.add_input("rhs");
    let reset_control = ResetControl {
        signal: reset,
        active: ActiveLevel::High,
        asynchronous: true,
        value: false,
    };
    let lhs_q = source.add_register_output("lhs_q");
    source.add_register(register_cell(
        "lhs_q",
        lhs_q,
        lhs,
        clock,
        ClockEdge::Rising,
        None,
        Some(reset_control),
    ));
    let rhs_q = source.add_register_output("rhs_q");
    source.add_register(register_cell(
        "rhs_q",
        rhs_q,
        rhs,
        clock,
        ClockEdge::Rising,
        None,
        Some(reset_control),
    ));
    let result = source.add_and(lhs_q, rhs_q);
    source.add_output("result", result);
    let mapped = map_once(
        &source,
        MappingOptions::default(),
        &IoTimingConstraints::new(),
    )
    .unwrap();
    let lut = mapped
        .cells
        .iter()
        .position(|cell| matches!(cell, Ecp5Cell::Lut4 { .. }))
        .unwrap();

    let retimed = forward_retime_lut(&mapped, lut, &certify).unwrap();

    assert_eq!(
        retimed
            .cells
            .iter()
            .filter(|cell| matches!(cell, Ecp5Cell::FlipFlop { .. }))
            .count(),
        1
    );
    assert_eq!(retimed.equivalence_proof.certified_primitive_moves, 1);
    assert!(verify_mapped_equivalence_proof(&retimed, true));
    assert!(retimed.cells.iter().any(|cell| {
        matches!(cell, Ecp5Cell::FlipFlop { name, .. } if name.starts_with("forward_ff_"))
    }));
}

#[test]
fn backward_lut_retiming_derives_nonzero_input_reset() {
    let mut source = Source::new("retimed_not");
    let clock = source.add_input("clock");
    let reset = source.add_input("reset");
    let input = source.add_input("input");
    let inverted = source.add_not(input);
    let output = source.add_register_output("result_q");
    source.add_register(register_cell(
        "result_q",
        output,
        inverted,
        clock,
        ClockEdge::Rising,
        None,
        Some(ResetControl {
            signal: reset,
            active: ActiveLevel::High,
            asynchronous: true,
            value: false,
        }),
    ));
    source.add_output("result", output);
    let mut mapped = map_once(
        &source,
        MappingOptions::default(),
        &IoTimingConstraints::new(),
    )
    .unwrap();
    mapped.cells.push(Ecp5Cell::Lut4 {
        name: "retime_dead_lut".into(),
        inputs: [Bit::Zero; 4],
        output: 10_000,
        init: 0,
    });
    let register = mapped
        .cells
        .iter()
        .position(
            |cell| matches!(cell, Ecp5Cell::FlipFlop { name, .. } if name == "ff_result_q"),
        )
        .unwrap();

    let retimed = backward_retime_lut(&mapped, register, &certify).unwrap();

    assert!(retimed.cells.iter().any(|cell| {
        matches!(
            cell,
            Ecp5Cell::FlipFlop {
                name,
                reset: Some(Reset { value: true, .. }),
                ..
            } if name.starts_with("retime_ff_result_q_")
        )
    }));
    assert!(!retimed.cells.iter().any(|cell| {
        matches!(cell, Ecp5Cell::FlipFlop { name, .. } if name == "ff_result_q")
    }));
    assert!(
        !retimed.cells.iter().any(
            |cell| matches!(cell, Ecp5Cell::Lut4 { name, .. } if name == "retime_dead_lut")
        )
    );
    let outputs = retimed
        .cells
        .iter()
        .flat_map(cell_output_bits)
        .filter_map(|bit| match bit {
            Bit::Wire(wire) => Some(wire),
            Bit::Zero | Bit::One => None,
        })
        .collect::<Vec<_>>();
    assert_eq!(
        outputs.len(),
        outputs.iter().copied().collect::<HashSet<_>>().len(),
        "retiming must not reuse the removed maximum Q wire"
    );
}

#[test]
fn backward_lut_retimings_keep_cell_names_unique_across_replicas() {
    let mut source = Source::new("shared_lut_retime");
    let clock = source.add_input("clock");
    let reset = source.add_input("reset");
    let lhs = source.add_input("lhs");
    let rhs = source.add_input("rhs");
    let and = source.add_and(lhs, rhs);
    let reset_control = ResetControl {
        signal: reset,
        active: ActiveLevel::High,
        asynchronous: true,
        value: false,
    };
    for name in ["a_q", "b_q"] {
        let output = source.add_register_output(name);
        source.add_register(register_cell(
            name,
            output,
            and,
            clock,
            ClockEdge::Rising,
            None,
            Some(reset_control),
        ));
        source.add_output(name, output);
    }
    let mapped = map_once(
        &source,
        MappingOptions::default(),
        &IoTimingConstraints::new(),
    )
    .unwrap();
    let register = |netlist: &Ecp5Netlist, name: &str| {
        netlist
            .cells
            .iter()
            .position(|cell| matches!(cell, Ecp5Cell::FlipFlop { name: cell_name, .. } if cell_name == name))
            .unwrap()
    };
    let first = backward_retime_lut(&mapped, register(&mapped, "ff_a_q"), &certify).unwrap();
    let second = backward_retime_lut(&first, register(&first, "ff_b_q"), &certify).unwrap();

    let names = second
        .cells
        .iter()
        .map(mapped_cell_name)
        .collect::<HashSet<_>>();
    assert_eq!(
        names.len(),
        second.cells.len(),
        "every retimed cell must keep a unique name"
    );
    let json = nextpnr_json(&second);
    assert_eq!(
        serde_json::from_str::<Value>(&json).unwrap()["modules"][second.name()]
            ["cells"]
            .as_object()
            .unwrap()
            .len(),
        second.cells.len(),
        "serialization must preserve every cell"
    );
}

#[test]
fn nextpnr_json_rejects_duplicate_cell_names() {
    let mut source = Source::new("duplicated_cell");
    let clock = source.add_input("clock");
    let input = source.add_input("input");
    let output_net = source.add_register_output("result_q");
    source.add_register(register_cell(
        "result_q",
        output_net,
        input,
        clock,
        ClockEdge::Rising,
        None,
        None,
    ));
    source.add_output("result", output_net);
    let mut mapped = map_once(
        &source,
        MappingOptions::default(),
        &IoTimingConstraints::new(),
    )
    .unwrap();
    let mut duplicate = mapped.cells[0].clone();
    if let Ecp5Cell::FlipFlop { name, output, .. } = &mut duplicate {
        *name = mapped_cell_name(&mapped.cells[0]).to_owned();
        *output = output.checked_add(1).unwrap();
    }
    mapped.cells.push(duplicate);

    assert!(matches!(
        mapped.to_nextpnr_json(),
        Err(NextpnrJsonError::DuplicateCellName { .. })
    ));
}

#[test]
fn backward_ccu_retiming_splits_a_carry_chain_with_a_certificate() {
    let mut source = Source::new("retimed_carry");
    let clock = source.add_input("clock");
    let reset = source.add_input("reset");
    let lhs = source.add_input_port("lhs", NonZeroU32::new(8).unwrap());
    let rhs = source.add_input_port("rhs", NonZeroU32::new(8).unwrap());
    let sum = source
        .add_arithmetic(ArithmeticOp::Add, &lhs, &rhs);
    let output = source.add_register_output("result_q");
    source.add_register(register_cell(
        "result_q",
        output,
        sum[7],
        clock,
        ClockEdge::Rising,
        None,
        Some(ResetControl {
            signal: reset,
            active: ActiveLevel::High,
            asynchronous: true,
            value: false,
        }),
    ));
    source.add_output("result", output);
    let mapped = map_once(
        &source,
        MappingOptions::default(),
        &IoTimingConstraints::new(),
    )
    .unwrap();
    let register = mapped
        .cells
        .iter()
        .position(
            |cell| matches!(cell, Ecp5Cell::FlipFlop { name, .. } if name == "ff_result_q"),
        )
        .unwrap();
    let Ecp5Cell::FlipFlop {
        output: register_output,
        ..
    } = mapped.cells[register]
    else {
        unreachable!()
    };

    let retimed = backward_retime_ccu2c(&mapped, register, &certify).unwrap();

    assert!(!retimed.cells.iter().any(|cell| {
        matches!(cell, Ecp5Cell::FlipFlop { name, .. } if name == "ff_result_q")
    }));
    assert!(retimed.cells.iter().any(|cell| {
        matches!(
            cell,
            Ecp5Cell::Ccu2c { name, sums, .. }
                if name.starts_with("retime_ccu_") && sums[1] == register_output
        )
    }));
    assert!(
        retimed
            .cells
            .iter()
            .filter(|cell| matches!(cell, Ecp5Cell::FlipFlop { name, .. } if name.starts_with("retime_ff_result_q_ccu_")))
            .count()
            >= 5
    );
    let outputs = retimed
        .cells
        .iter()
        .flat_map(cell_output_bits)
        .filter_map(|bit| match bit {
            Bit::Wire(wire) => Some(wire),
            Bit::Zero | Bit::One => None,
        })
        .collect::<Vec<_>>();
    assert_eq!(
        outputs.len(),
        outputs.iter().copied().collect::<HashSet<_>>().len()
    );
}

#[test]
fn forward_ccu_retiming_moves_operand_registers_across_the_whole_chain() {
    let mut source = Source::new("forward_retimed_carry");
    let clock = source.add_input("clock");
    let reset = source.add_input("reset");
    let lhs = source.add_input_port("lhs", NonZeroU32::new(8).unwrap());
    let rhs = source.add_input_port("rhs", NonZeroU32::new(8).unwrap());
    let reset_control = ResetControl {
        signal: reset,
        active: ActiveLevel::High,
        asynchronous: true,
        value: false,
    };
    let registered = lhs
        .iter()
        .chain(&rhs)
        .enumerate()
        .map(|(index, input)| {
            let name = format!("operand_q{index}");
            let output = source.add_register_output(&name);
            source.add_register(register_cell(
                name,
                output,
                *input,
                clock,
                ClockEdge::Rising,
                None,
                Some(reset_control),
            ));
            output
        })
        .collect::<Vec<_>>();
    let sum = source
        .add_arithmetic(ArithmeticOp::Add, &registered[..8], &registered[8..]);
    source.add_output_port("sum", &sum);
    let mapped = map_once(
        &source,
        MappingOptions::default(),
        &IoTimingConstraints::new(),
    )
    .unwrap();

    let mut retimed = mapped.clone();
    for name in &ccu_chain_names(&mapped)[0] {
        let index = retimed
            .cells
            .iter()
            .position(|cell| mapped_cell_name(cell) == name)
            .unwrap();
        retimed = forward_retime_ccu2c(&retimed, index, &certify).unwrap();
    }

    assert_eq!(
        retimed
            .cells
            .iter()
            .filter(|cell| matches!(cell, Ecp5Cell::FlipFlop { .. }))
            .count(),
        8
    );
    assert!(retimed.cells.iter().all(|cell| {
        !matches!(cell, Ecp5Cell::FlipFlop { name, .. } if name.starts_with("ff_operand_q"))
    }));
    assert_eq!(
        retimed
            .cells
            .iter()
            .filter(|cell| matches!(cell, Ecp5Cell::Ccu2c { name, .. } if name.starts_with("retime_forward_ccu_")))
            .count(),
        4
    );
}

#[test]
fn equivalent_retiming_registers_are_shared_without_high_fanout() {
    let mut source = Source::new("shared_retiming_registers");
    let clock = source.add_input("clock");
    let reset = source.add_input("reset");
    let data = source.add_input("data");
    for index in 0..3 {
        let name = format!("copy{index}");
        let output = source.add_register_output(&name);
        source.add_register(register_cell(
            name.clone(),
            output,
            data,
            clock,
            ClockEdge::Rising,
            None,
            Some(ResetControl {
                signal: reset,
                active: ActiveLevel::High,
                asynchronous: true,
                value: false,
            }),
        ));
        source.add_output(format!("output{index}"), output);
    }
    let mut mapped = map_once(
        &source,
        MappingOptions::default(),
        &IoTimingConstraints::new(),
    )
    .unwrap();
    for cell in &mut mapped.cells {
        if let Ecp5Cell::FlipFlop { name, .. } = cell {
            *name = format!("retime_{name}");
        }
    }

    merge_equivalent_flip_flops(&mut mapped);

    let outputs = mapped
        .cells
        .iter()
        .filter_map(|cell| match cell {
            Ecp5Cell::FlipFlop { output, .. } => Some(*output),
            _ => None,
        })
        .collect::<Vec<_>>();
    assert_eq!(outputs.len(), 2);
    assert!(
        outputs
            .iter()
            .all(|output| mapped_wire_fanout(&mapped, *output) <= 2)
    );
}

#[test]
fn maps_wide_arithmetic_to_ccu2c() {
    let mapped = map_to_ecp5(&arithmetic_netlist(8, ArithmeticOp::Add)).unwrap();
    let carries = mapped
        .cells()
        .iter()
        .filter(|cell| matches!(cell, Ecp5Cell::Ccu2c { .. }))
        .count();
    assert_eq!(carries, 4);
    assert_eq!(mapped_emitted_comb_count(&mapped), 4);
    assert_eq!(mapped_logic_slice_count(&mapped), 8);
    assert!(mapped.cells().iter().all(|cell| {
        matches!(
            cell,
            Ecp5Cell::Ccu2c {
                init: [0x96aa, 0x96aa],
                inject: [false, false],
                ..
            }
        )
    }));

    let json = nextpnr_value(&mapped);
    let cells = json["modules"]["arithmetic"]["cells"].as_object().unwrap();
    assert!(cells.values().all(|cell| cell["type"] == "CCU2C"));
    assert!(cells.values().all(|cell| {
        cell["parameters"]["INIT0"] == "1001011010101010"
            && cell["parameters"]["INJECT1_0"] == "NO"
    }));
}

#[test]
fn maps_addition_carry_in_to_the_first_ccu2c() {
    let mut source = Source::new("add_with_carry");
    let width = NonZeroU32::new(8).unwrap();
    let lhs = source.add_input_port("lhs", width);
    let rhs = source.add_input_port("rhs", width);
    let carry = source.add_input("carry");
    let result = source.add_arithmetic_with_carry(&lhs, &rhs, carry);
    source.add_output_port("result", &result);

    let mapped = map_to_ecp5(&source).unwrap();
    let carry_bit = mapped
        .ports()
        .iter()
        .find(|port| port.name == "carry")
        .unwrap()
        .bits[0];
    let ccus = mapped
        .cells()
        .iter()
        .filter_map(|cell| match cell {
            Ecp5Cell::Ccu2c { carry_in, .. } => Some(*carry_in),
            _ => None,
        })
        .collect::<Vec<_>>();
    assert_eq!(ccus.len(), 4);
    assert_eq!(ccus[0], carry_bit);
}

#[test]
fn maps_mixed_retained_cells_in_dependency_order() {
    let mut source = Source::new("mixed_words");
    let width = NonZeroU32::new(5).unwrap();
    let lhs = source.add_input_port("lhs", width);
    let rhs = source.add_input_port("rhs", width);
    let sum = source
        .add_arithmetic(ArithmeticOp::Add, &lhs, &rhs);
    let less = source
        .add_comparison(ComparisonOp::LessThanUnsigned, &sum, &rhs);
    let incremented = source
        .add_arithmetic(ArithmeticOp::Add, &[less], &[lhs[0]]);
    source.add_output("result", incremented[0]);

    let mapped = map_to_ecp5(&source).unwrap();

    assert!(
        mapped
            .cells()
            .iter()
            .any(|cell| matches!(cell, Ecp5Cell::Ccu2c { .. }))
    );
}

#[test]
fn lut_arithmetic_option_provides_comparison_baseline() {
    let mapped = map_to_ecp5_with_options(
        &arithmetic_netlist(8, ArithmeticOp::Subtract),
        MappingOptions {
            arithmetic: ArithmeticMapping::Lut4,
            ..MappingOptions::default()
        },
    )
    .unwrap();
    assert_eq!(
        mapped
            .cells()
            .iter()
            .filter(|cell| matches!(cell, Ecp5Cell::Lut4 { .. }))
            .count(),
        15
    );
    assert!(
        !mapped
            .cells()
            .iter()
            .any(|cell| matches!(cell, Ecp5Cell::Ccu2c { .. }))
    );
}

#[test]
fn maps_boolean_nodes_to_expected_lut_truth_tables() {
    let mut source = Source::new("logic");
    let select = source.add_input("select");
    let lhs = source.add_input("lhs");
    let rhs = source.add_input("rhs");
    let and = source.add_and(lhs, rhs);
    let or = source.add_or(lhs, rhs);
    let xor = source.add_xor(lhs, rhs);
    let not = source.add_not(lhs);
    let mux = source.add_mux(select, lhs, rhs);
    source.add_output("and", and);
    source.add_output("or", or);
    source.add_output("xor", xor);
    source.add_output("not", not);
    source.add_output("mux", mux);
    let mapped = map_to_ecp5(&source).unwrap();

    let truth_tables = mapped
        .cells()
        .iter()
        .filter_map(|cell| match cell {
            Ecp5Cell::Lut4 { init, .. } => Some(*init),
            Ecp5Cell::PfuMux { .. }
            | Ecp5Cell::L6Mux21 { .. }
            | Ecp5Cell::Ccu2c { .. }
            | Ecp5Cell::FlipFlop { .. }
            | Ecp5Cell::BlockRam { .. }
            | Ecp5Cell::TrellisIo { .. }
            | Ecp5Cell::Jtagg { .. }
            | Ecp5Cell::Pll { .. } => None,
        })
        .collect::<Vec<_>>();
    assert_eq!(truth_tables, [0x8888, 0xeeee, 0x6666, 0x5555, 0xd8d8]);
}

#[test]
fn collapses_a_four_input_cone_into_one_lut() {
    let mut source = Source::new("four_input");
    let a = source.add_input("a");
    let b = source.add_input("b");
    let c = source.add_input("c");
    let d = source.add_input("d");
    let ab = source.add_and(a, b);
    let cd = source.add_and(c, d);
    let result = source.add_or(ab, cd);
    source.add_output("y", result);

    let mapped = map_to_ecp5(&source).unwrap();
    let luts = mapped
        .cells()
        .iter()
        .filter_map(|cell| match cell {
            Ecp5Cell::Lut4 { inputs, init, .. } => Some((*inputs, *init)),
            Ecp5Cell::PfuMux { .. }
            | Ecp5Cell::L6Mux21 { .. }
            | Ecp5Cell::Ccu2c { .. }
            | Ecp5Cell::FlipFlop { .. }
            | Ecp5Cell::BlockRam { .. }
            | Ecp5Cell::TrellisIo { .. }
            | Ecp5Cell::Jtagg { .. }
            | Ecp5Cell::Pll { .. } => None,
        })
        .collect::<Vec<_>>();

    assert_eq!(
        luts,
        [(
            [Bit::Wire(2), Bit::Wire(3), Bit::Wire(4), Bit::Wire(5)],
            0xf888
        )]
    );
}

#[test]
fn maps_an_arbitrary_six_input_function_to_a_lut6_cluster() {
    let mut source = Source::new("six_input_parity");
    let inputs = source.add_input_port("inputs", NonZeroU32::new(6).unwrap());
    let parity = inputs[1..]
        .iter()
        .fold(inputs[0], |value, input| source.add_xor(value, *input));
    source.add_output("result", parity);
    let constraints = IoTimingConstraints::new()
        .with_input_delay_ps("inputs", 0)
        .with_output_delay_ps("result", 0);

    let mapped = map_to_ecp5_with_constraints(
        &source,
        MappingOptions {
            timing_goal_mhz: 1_500,
            ..MappingOptions::default()
        },
        &constraints,
    )
    .unwrap();

    assert_eq!(
        mapped
            .cells()
            .iter()
            .filter(|cell| matches!(cell, Ecp5Cell::Lut4 { .. }))
            .count(),
        4,
        "{:?}",
        mapped.retiming()
    );
    assert_eq!(
        mapped
            .cells()
            .iter()
            .filter(|cell| matches!(cell, Ecp5Cell::PfuMux { .. }))
            .count(),
        2
    );
    assert_eq!(
        mapped
            .cells()
            .iter()
            .filter(|cell| matches!(cell, Ecp5Cell::L6Mux21 { .. }))
            .count(),
        1
    );
    assert!(verify_mapped_equivalence_proof(&mapped, false));
}

#[test]
fn maps_an_arbitrary_seven_input_function_to_a_lut7_cluster() {
    let mut source = Source::new("seven_input_parity");
    let inputs = source.add_input_port("inputs", NonZeroU32::new(7).unwrap());
    let parity = inputs[1..]
        .iter()
        .fold(inputs[0], |value, input| source.add_xor(value, *input));
    source.add_output("result", parity);
    let constraints = IoTimingConstraints::new()
        .with_input_delay_ps("inputs", 0)
        .with_output_delay_ps("result", 0);

    let mapped = map_to_ecp5_with_constraints(
        &source,
        MappingOptions {
            timing_goal_mhz: 1_500,
            ..MappingOptions::default()
        },
        &constraints,
    )
    .unwrap();

    assert_eq!(
        mapped
            .cells()
            .iter()
            .filter(|cell| matches!(cell, Ecp5Cell::Lut4 { .. }))
            .count(),
        8,
        "{:?}",
        mapped.retiming()
    );
    assert_eq!(
        mapped
            .cells()
            .iter()
            .filter(|cell| matches!(cell, Ecp5Cell::PfuMux { .. }))
            .count(),
        4
    );
    assert_eq!(
        mapped
            .cells()
            .iter()
            .filter(|cell| matches!(cell, Ecp5Cell::L6Mux21 { .. }))
            .count(),
        3
    );
    assert_eq!(mapped_emitted_comb_count(&mapped), 15);
    assert_eq!(mapped_logic_slice_count(&mapped), 8);
    assert!(verify_mapped_equivalence_proof(&mapped, false));
}

#[test]
fn maps_an_unshared_mux_tree_to_pfumx_and_l6mux21() {
    let mut mapped = map_once(
        &arithmetic_netlist(2, ArithmeticOp::Add),
        MappingOptions::default(),
        &IoTimingConstraints::new(),
    )
    .unwrap();
    mapped.name = "wide_mux".into();
    mapped.cells = vec![
        Ecp5Cell::Lut4 {
            name: "a".into(),
            inputs: [Bit::Wire(2), Bit::Zero, Bit::Zero, Bit::Zero],
            output: 10,
            init: 0xaaaa,
        },
        Ecp5Cell::Lut4 {
            name: "b".into(),
            inputs: [Bit::Wire(3), Bit::Zero, Bit::Zero, Bit::Zero],
            output: 11,
            init: 0xaaaa,
        },
        Ecp5Cell::Lut4 {
            name: "c".into(),
            inputs: [Bit::Wire(4), Bit::Zero, Bit::Zero, Bit::Zero],
            output: 12,
            init: 0xaaaa,
        },
        Ecp5Cell::Lut4 {
            name: "d".into(),
            inputs: [Bit::Wire(5), Bit::Zero, Bit::Zero, Bit::Zero],
            output: 13,
            init: 0xaaaa,
        },
        Ecp5Cell::Lut4 {
            name: "low".into(),
            inputs: [Bit::Wire(10), Bit::Wire(11), Bit::Wire(6), Bit::Zero],
            output: 14,
            init: 0xacac,
        },
        Ecp5Cell::Lut4 {
            name: "high".into(),
            inputs: [Bit::Wire(12), Bit::Wire(13), Bit::Wire(6), Bit::Zero],
            output: 15,
            init: 0xacac,
        },
        Ecp5Cell::Lut4 {
            name: "root".into(),
            inputs: [Bit::Wire(14), Bit::Wire(15), Bit::Wire(7), Bit::Zero],
            output: 16,
            init: 0xacac,
        },
    ];
    mapped.ports = (2..=7)
        .map(|wire| MappedPort {
            name: format!("i{wire}"),
            direction: PortDirection::Input,
            bits: vec![Bit::Wire(wire)],
        })
        .chain([MappedPort {
            name: "y".into(),
            direction: PortDirection::Output,
            bits: vec![Bit::Wire(16)],
        }])
        .collect();
    mapped.io_timing = no_io_timing();

    map_dedicated_wide_muxes(&mut mapped);

    assert_eq!(
        mapped
            .cells
            .iter()
            .filter(|cell| matches!(cell, Ecp5Cell::Lut4 { .. }))
            .count(),
        4
    );
    assert_eq!(
        mapped
            .cells
            .iter()
            .filter(|cell| matches!(cell, Ecp5Cell::PfuMux { .. }))
            .count(),
        2
    );
    assert_eq!(
        mapped
            .cells
            .iter()
            .filter(|cell| matches!(cell, Ecp5Cell::L6Mux21 { .. }))
            .count(),
        1
    );
    assert!(verify_mapped_equivalence_proof(&mapped, false));

    let json = nextpnr_value(&mapped);
    let cells = json["modules"]["wide_mux"]["cells"].as_object().unwrap();
    assert_eq!(cells["low"]["type"], "PFUMX");
    assert_eq!(cells["root"]["type"], "L6MUX21");
}

#[test]
fn clones_a_pfumx_source_with_an_ordinary_consumer() {
    let mut mapped = map_once(
        &arithmetic_netlist(2, ArithmeticOp::Add),
        MappingOptions::default(),
        &IoTimingConstraints::new(),
    )
    .unwrap();
    mapped.name = "shared_wide_mux_source".into();
    mapped.cells = vec![
        Ecp5Cell::Lut4 {
            name: "shared".into(),
            inputs: [Bit::Wire(2), Bit::Zero, Bit::Zero, Bit::Zero],
            output: 10,
            init: 0xaaaa,
        },
        Ecp5Cell::Lut4 {
            name: "other".into(),
            inputs: [Bit::Wire(3), Bit::Zero, Bit::Zero, Bit::Zero],
            output: 11,
            init: 0xaaaa,
        },
        Ecp5Cell::Lut4 {
            name: "mux".into(),
            inputs: [Bit::Wire(10), Bit::Wire(11), Bit::Wire(4), Bit::Zero],
            output: 12,
            init: 0xacac,
        },
        Ecp5Cell::Lut4 {
            name: "ordinary_consumer".into(),
            inputs: [Bit::Wire(10), Bit::Wire(5), Bit::Zero, Bit::Zero],
            output: 13,
            init: 0x8888,
        },
    ];
    mapped.ports = (2..=5)
        .map(|wire| MappedPort {
            name: format!("i{wire}"),
            direction: PortDirection::Input,
            bits: vec![Bit::Wire(wire)],
        })
        .chain((12..=13).map(|wire| MappedPort {
            name: format!("o{wire}"),
            direction: PortDirection::Output,
            bits: vec![Bit::Wire(wire)],
        }))
        .collect();
    mapped.io_timing = no_io_timing();

    map_dedicated_wide_muxes(&mut mapped);

    let clone_output = mapped
        .cells
        .iter()
        .find_map(|cell| match cell {
            Ecp5Cell::Lut4 { name, output, .. }
                if name.starts_with("shared_wide_mux_clone") =>
            {
                Some(*output)
            }
            _ => None,
        })
        .expect("the shared PFUMX source must be cloned");
    let Ecp5Cell::PfuMux {
        lut_true,
        lut_false,
        ..
    } = &mapped.cells[2]
    else {
        panic!("the mux root must map to PFUMX")
    };
    assert!([*lut_true, *lut_false].contains(&Bit::Wire(clone_output)));
    let Ecp5Cell::Lut4 { inputs, .. } = &mapped.cells[3] else {
        panic!("the ordinary consumer must remain a LUT4")
    };
    assert_eq!(inputs[0], Bit::Wire(10));
    assert!(verify_mapped_equivalence_proof(&mapped, false));
}

#[test]
fn maps_a_five_input_cone_to_two_luts() {
    let mut source = Source::new("five_input");
    let inputs = source.add_input_port("a", NonZeroU32::new(5).unwrap());
    let lower = source.add_and(inputs[0], inputs[1]);
    let upper = source.add_and(inputs[2], inputs[3]);
    let four_input = source.add_or(lower, upper);
    let result = source.add_xor(four_input, inputs[4]);
    source.add_output("y", result);

    let mapped = map_to_ecp5(&source).unwrap();
    assert_eq!(
        mapped
            .cells()
            .iter()
            .filter(|cell| matches!(cell, Ecp5Cell::Lut4 { .. }))
            .count(),
        2
    );
}

#[test]
fn recovers_area_by_reusing_an_already_mapped_cone() {
    let mut source = Source::new("shared_cone");
    let input_a = source.add_input("a");
    let input_b = source.add_input("b");
    let input_c = source.add_input("c");
    let input_d = source.add_input("d");
    let input_x = source.add_input("x");
    let shared = source.add_and(input_a, input_b);
    let other = source.add_and(input_c, input_d);
    let selected = source.add_and(shared, input_x);
    let result = source.add_or(selected, other);
    source.add_output("shared", shared);
    source.add_output("result", result);

    let mapped = map_to_ecp5(&source).unwrap();

    assert_eq!(
        mapped
            .cells()
            .iter()
            .filter(|cell| matches!(cell, Ecp5Cell::Lut4 { .. }))
            .count(),
        2
    );
}

#[test]
fn omits_unreachable_boolean_nodes() {
    let mut source = Source::new("dead_logic");
    let a = source.add_input("a");
    let b = source.add_input("b");
    let live = source.add_and(a, b);
    let _dead = source.add_or(a, b);
    source.add_output("y", live);

    let mapped = map_to_ecp5(&source).unwrap();
    assert_eq!(
        mapped
            .cells()
            .iter()
            .filter(|cell| matches!(cell, Ecp5Cell::Lut4 { .. }))
            .count(),
        1
    );
}

#[test]
fn maps_async_low_reset_to_trellis_ff_parameters() {
    let mut source = Source::new("counter_bit");
    let clock = source.add_input("clk");
    let reset = source.add_input("rst_n");
    let output = source.add_register_output("state");
    let next = source.add_not(output);
    source.add_register(register_cell(
        "state",
        output,
        next,
        clock,
        ClockEdge::Rising,
        None,
        Some(ResetControl {
            signal: reset,
            active: ActiveLevel::Low,
            asynchronous: true,
            value: false,
        }),
    ));
    source.add_output("q", output);

    let mapped = map_to_ecp5(&source).unwrap();
    let json = nextpnr_json(&mapped);
    assert!(json.contains("\"type\": \"TRELLIS_FF\""));
    assert!(json.contains("\"SRMODE\": \"ASYNC\""));
    assert!(json.contains("\"LSRMUX\": \"INV\""));

    let json: Value = serde_json::from_str(&json).unwrap();
    let connections = &json["modules"]["counter_bit"]["cells"]["ff_state"]["connections"];
    assert!(connections.get("DI").is_some());
    assert!(connections.get("M").is_none());
}

#[test]
fn preserves_vector_ports_for_nextpnr() {
    let mut source = Source::new("passthrough");
    let input = source.add_input_port("input", NonZeroU32::new(3).unwrap());
    source.add_output_port("output", &input);

    let mapped = map_to_ecp5(&source).unwrap();
    let json = nextpnr_value(&mapped);

    assert_eq!(mapped.ports().len(), 2);
    assert_eq!(mapped.ports()[0].bits.len(), 3);
    assert_eq!(
        json["modules"]["passthrough"]["ports"]["input"]["bits"]
            .as_array()
            .unwrap()
            .len(),
        3
    );
    assert_eq!(
        json["modules"]["passthrough"]["ports"]["output"]["bits"]
            .as_array()
            .unwrap()
            .len(),
        3
    );
}

#[test]
fn binds_scalar_top_ports_to_jtagg() {
    let mut source = Source::new("debug_top");
    for name in [
        "jtag_tdi",
        "jtag_tck",
        "jtag_rti1",
        "jtag_rti2",
        "jtag_shift",
        "jtag_update",
        "jtag_rst_n",
        "jtag_ce1",
        "jtag_ce2",
    ] {
        source.add_input(name);
    }
    let zero = source.add_constant(false);
    source.add_output("jtag_tdo1", zero);
    source.add_output("jtag_tdo2", zero);
    let mut binding = JtaggBinding::with_prefix("jtag");
    binding.extension_register_2 = false;

    let mapped = map_to_ecp5_with_jtagg(&source, &binding).unwrap();

    assert!(mapped.ports().is_empty());
    assert!(matches!(
        mapped.cells(),
        [Ecp5Cell::Jtagg {
            tdo: [Bit::Zero, Bit::Zero],
            extension_register_1: true,
            extension_register_2: false,
            ..
        }]
    ));
    let json = nextpnr_value(&mapped);
    let cell = &json["modules"]["debug_top"]["cells"]["jtagg"];
    assert_eq!(cell["type"], "JTAGG");
    assert_eq!(cell["parameters"]["ER1"], "ENABLED");
    assert_eq!(cell["parameters"]["ER2"], "DISABLED");
    assert_eq!(cell["connections"]["JTDO1"][0], "0");
    assert_eq!(cell["port_directions"]["JTDO1"], "input");
    assert_eq!(cell["port_directions"]["JTDI"], "output");
    assert!(
        json["modules"]["debug_top"]["ports"]
            .as_object()
            .unwrap()
            .is_empty()
    );
}

#[test]
fn jtagg_binding_errors_leave_the_netlist_unchanged() {
    let mut source = Source::new("incomplete_debug_top");
    source.add_input("jtag_tdi");
    let mut mapped = map_to_ecp5(&source).unwrap();
    let original = mapped.clone();

    assert!(
        mapped
            .bind_jtagg(&JtaggBinding::with_prefix("jtag"))
            .is_err()
    );
    assert_eq!(mapped, original);
}

#[test]
fn binds_user_configured_pll_to_logical_clock_ports() {
    let mut source = Source::new("pll_top");
    source.add_input("clk");
    source.add_input("clk_250");
    source.add_input("clk_125");
    source.add_input("pll_locked");
    let mut binding = PllBinding::new(
        "clk",
        "clk_250",
        "pll_locked",
        PllOutput::Clkos,
        PllOutput::Clkop,
    );
    binding
        .additional_output_clock_ports
        .insert("clk_125".into(), PllOutput::Clkos2);
    for (name, value) in [
        ("CLKI_DIV", "3"),
        ("CLKFB_DIV", "5"),
        ("CLKOP_DIV", "25"),
        ("CLKOS_DIV", "2"),
        ("CLKOS2_DIV", "10"),
        ("FEEDBK_PATH", "CLKOP"),
    ] {
        binding.parameters.insert(name.into(), value.into());
    }
    binding
        .attributes
        .insert("FREQUENCY_PIN_CLKI".into(), "12".into());

    let mapped = map_to_ecp5_with_pll(&source, &binding).unwrap();

    assert_eq!(
        mapped
            .ports()
            .iter()
            .map(|port| port.name.as_str())
            .collect::<Vec<_>>(),
        ["clk"]
    );
    assert!(matches!(
        mapped.cells(),
        [Ecp5Cell::Pll {
            fabric_output: PllOutput::Clkos,
            feedback_output: PllOutput::Clkop,
            additional_output_clocks,
            ..
        }] if additional_output_clocks.len() == 1
            && additional_output_clocks[0].0 == PllOutput::Clkos2
    ));
    let json = nextpnr_value(&mapped);
    let cell = &json["modules"]["pll_top"]["cells"]["pll"];
    assert_eq!(cell["type"], "EHXPLLL");
    assert_eq!(cell["parameters"]["CLKI_DIV"], format!("{:064b}", 3));
    assert_eq!(cell["parameters"]["CLKOS2_DIV"], format!("{:064b}", 10));
    assert_eq!(cell["attributes"]["FREQUENCY_PIN_CLKI"], "12");
    assert_eq!(cell["connections"]["CLKFB"], cell["connections"]["CLKOP"]);
    assert_ne!(cell["connections"]["CLKOP"], cell["connections"]["CLKOS"]);
    assert_eq!(cell["port_directions"]["CLKOS"], "output");
    assert_eq!(cell["port_directions"]["CLKOS2"], "output");

    let shared_output = PllBinding::new(
        "clk",
        "clk_250",
        "pll_locked",
        PllOutput::Clkop,
        PllOutput::Clkop,
    );
    let shared_output_mapped = map_to_ecp5_with_pll(&source, &shared_output).unwrap();
    assert!(verify_mapped_equivalence_proof(
        &shared_output_mapped,
        shared_output_mapped.retiming.applied
    ));

    let internal_feedback = PllBinding::new(
        "clk",
        "clk_250",
        "pll_locked",
        PllOutput::Clkop,
        PllOutput::Clkintfb,
    );
    let internal_feedback_mapped = map_to_ecp5_with_pll(&source, &internal_feedback).unwrap();
    let internal_json = nextpnr_value(&internal_feedback_mapped);
    let pll = &internal_json["modules"]["pll_top"]["cells"]["pll"];
    assert_eq!(pll["connections"]["CLKFB"], pll["connections"]["CLKINTFB"]);
    assert_ne!(pll["connections"]["CLKOP"], pll["connections"]["CLKINTFB"]);
    assert_eq!(pll["port_directions"]["CLKINTFB"], "output");
}

#[test]
fn binds_split_open_drain_interface_to_trellis_io() {
    let mut source = Source::new("i2c_top");
    let sda_i = source.add_input("sda_i");
    let request = source.add_input("request");
    source.add_output("sda_drive_low", request);
    source.add_output("sampled_sda", sda_i);

    let mapped = map_to_ecp5_with_open_drain_ios(
        &source,
        &[OpenDrainIo::new("sda", "sda_i", "sda_drive_low")],
    )
    .unwrap();

    assert!(
        mapped
            .ports()
            .iter()
            .all(|port| { port.name != "sda_i" && port.name != "sda_drive_low" })
    );
    let pin = mapped
        .ports()
        .iter()
        .find(|port| port.name == "sda")
        .unwrap();
    assert_eq!(pin.direction, PortDirection::Inout);
    assert_eq!(pin.bits.len(), 1);
    assert!(
        mapped
            .cells()
            .iter()
            .any(|cell| matches!(cell, Ecp5Cell::Lut4 { init: 0x5555, .. }))
    );
    let Ecp5Cell::TrellisIo {
        pad,
        fabric_output,
        fabric_input,
        tristate,
        ..
    } = mapped
        .cells()
        .iter()
        .find(|cell| matches!(cell, Ecp5Cell::TrellisIo { .. }))
        .unwrap()
    else {
        unreachable!()
    };
    assert_eq!(pin.bits, vec![Bit::Wire(*pad)]);
    assert_eq!(*fabric_output, Bit::Zero);
    assert_eq!(*fabric_input, sda_i + 2);
    assert!(matches!(tristate, Bit::Wire(_)));

    let json = nextpnr_value(&mapped);
    let module = &json["modules"]["i2c_top"];
    assert_eq!(module["ports"]["sda"]["direction"], "inout");
    assert!(module["ports"].get("sda_i").is_none());
    assert!(module["ports"].get("sda_drive_low").is_none());
    let io = module["cells"]
        .as_object()
        .unwrap()
        .values()
        .find(|cell| cell["type"] == "TRELLIS_IO")
        .unwrap();
    assert_eq!(io["parameters"]["DIR"], "BIDIR");
    assert_eq!(io["connections"]["I"][0], "0");
    assert_eq!(io["port_directions"]["B"], "inout");
}

#[test]
fn constant_released_open_drain_needs_no_inverter_lut() {
    let mut source = Source::new("released_i2c");
    source.add_input("sda_i");
    let released = source.add_constant(false);
    source.add_output("sda_drive_low", released);

    let mapped = map_to_ecp5_with_open_drain_ios(
        &source,
        &[OpenDrainIo::new("sda", "sda_i", "sda_drive_low")],
    )
    .unwrap();

    assert!(
        !mapped
            .cells()
            .iter()
            .any(|cell| matches!(cell, Ecp5Cell::Lut4 { .. }))
    );
    assert!(mapped.cells().iter().any(|cell| matches!(
        cell,
        Ecp5Cell::TrellisIo {
            fabric_output: Bit::Zero,
            tristate: Bit::One,
            ..
        }
    )));
}

#[test]
fn maps_synchronous_memory_to_dp16kd() {
    let mut source = Source::new("scratchpad");
    let clock = source.add_input("clock");
    let write_enable = source.add_input("write_enable");
    let read_address = source.add_input_port("read_address", NonZeroU32::new(8).unwrap());
    let write_address = source.add_input_port("write_address", NonZeroU32::new(8).unwrap());
    let write_data = source.add_input_port("write_data", NonZeroU32::new(8).unwrap());
    let read_data = (0..8)
        .map(|bit| source.add_memory_output(format!("words[{bit}]")))
        .collect::<Vec<_>>();
    source.add_memory(memory_cell(
        "words",
        256,
        read_address,
        read_data.clone(),
        None,
        write_address,
        write_data,
        EnableControl {
            signal: write_enable,
            active: ActiveLevel::High,
        },
        clock,
        ClockEdge::Rising,
    ));
    source.add_output_port("read_data", &read_data);

    let mapped = map_to_ecp5(&source).unwrap();
    let block_ram = mapped
        .cells()
        .iter()
        .find(|cell| {
            matches!(
                cell,
                Ecp5Cell::BlockRam {
                    physical_width: 9,
                    depth: 256,
                    word_width: 8,
                    ..
                }
            )
        })
        .unwrap();
    assert!(physical_bel_is_compatible(block_ram, "X1/Y1/DP16KD"));
    assert!(physical_bel_is_compatible(block_ram, "R46C58/EBR0"));

    let json = nextpnr_value(&mapped);
    let cell = &json["modules"]["scratchpad"]["cells"]["bram_words"];
    assert_eq!(cell["type"], "DP16KD");
    assert_eq!(cell["parameters"]["DATA_WIDTH_A"], "9");
    assert_eq!(cell["connections"]["ADA3"][0], 12);
    assert_eq!(cell["connections"]["DOB7"][0], 35);
}

#[test]
fn maps_true_dual_port_addresses_and_clock_edges_to_the_same_physical_port() {
    let mut source = Source::new("true_dual_port");
    let clock_a = source.add_input("clock_a");
    let clock_b = source.add_input("clock_b");
    let enable_a = source.add_input("enable_a");
    let enable_b = source.add_input("enable_b");
    let read_enable_a = source.add_input("read_enable_a");
    let read_enable_b = source.add_input("read_enable_b");
    let address_a = source.add_input_port("address_a", NonZeroU32::new(8).unwrap());
    let address_b = source.add_input_port("address_b", NonZeroU32::new(8).unwrap());
    let write_a = source.add_input_port("write_a", NonZeroU32::new(8).unwrap());
    let write_b = source.add_input_port("write_b", NonZeroU32::new(8).unwrap());
    let read_a = (0..8)
        .map(|bit| source.add_memory_output(format!("read_a[{bit}]")))
        .collect::<Vec<_>>();
    let read_b = (0..8)
        .map(|bit| source.add_memory_output(format!("read_b[{bit}]")))
        .collect::<Vec<_>>();
    let active_high = |signal| EnableControl {
        signal,
        active: ActiveLevel::High,
    };
    source.add_memory(
        memory_cell(
            "words",
            256,
            address_a.clone(),
            read_a.clone(),
            Some(active_high(read_enable_a)),
            address_a.clone(),
            write_a,
            active_high(enable_a),
            clock_a,
            ClockEdge::Rising,
        )
        .with_second_port(memory_port(
            address_b.clone(),
            read_b.clone(),
            Some(active_high(read_enable_b)),
            address_b.clone(),
            write_b,
            active_high(enable_b),
            clock_b,
            ClockEdge::Falling,
        )),
    );
    source.add_output_port("read_a", &read_a);
    source.add_output_port("read_b", &read_b);

    let mapped = map_to_ecp5(&source).unwrap();
    let json = nextpnr_value(&mapped);
    let module = &json["modules"]["true_dual_port"];
    let cell = &module["cells"]["bram_words"];

    assert_eq!(cell["parameters"]["CLKAMUX"], "CLKA");
    assert_eq!(cell["parameters"]["CLKBMUX"], "INV");
    assert_eq!(cell["parameters"]["CEAMUX"], "CEA");
    assert_eq!(cell["parameters"]["CEBMUX"], "CEB");
    let cea = &module["cells"]["bram_words_cea"];
    let ceb = &module["cells"]["bram_words_ceb"];
    assert_eq!(cea["type"], "LUT4");
    assert_eq!(cea["parameters"]["INIT"], "1110111011101110");
    assert_eq!(ceb["type"], "LUT4");
    assert_eq!(ceb["parameters"]["INIT"], "1110111011101110");
    assert_eq!(cell["connections"]["CEA"], cea["connections"]["Z"]);
    assert_eq!(cell["connections"]["CEB"], ceb["connections"]["Z"]);
    assert_eq!(
        cell["connections"]["CLKA"],
        module["ports"]["clock_a"]["bits"]
    );
    assert_eq!(
        cell["connections"]["CLKB"],
        module["ports"]["clock_b"]["bits"]
    );
    for bit in 0..8 {
        assert_eq!(
            cell["connections"][format!("ADA{}", bit + 3)],
            Value::Array(vec![module["ports"]["address_a"]["bits"][bit].clone()])
        );
        assert_eq!(
            cell["connections"][format!("ADB{}", bit + 3)],
            Value::Array(vec![module["ports"]["address_b"]["bits"][bit].clone()])
        );
    }
}

#[test]
fn reuses_read_enable_when_write_enable_implies_it() {
    let mut source = Source::new("qualified_true_dual_port");
    let clock = source.add_input("clock");
    let read_enable_a = source.add_input("read_enable_a");
    let read_enable_b = source.add_input("read_enable_b");
    let write_select_a = source.add_input("write_select_a");
    let write_select_b = source.add_input("write_select_b");
    let write_enable_a = source.add_and(read_enable_a, write_select_a);
    let write_enable_b = source.add_and(read_enable_b, write_select_b);
    let address_a = source.add_input_port("address_a", NonZeroU32::new(8).unwrap());
    let address_b = source.add_input_port("address_b", NonZeroU32::new(8).unwrap());
    let write_a = source.add_input_port("write_a", NonZeroU32::new(8).unwrap());
    let write_b = source.add_input_port("write_b", NonZeroU32::new(8).unwrap());
    let read_a = (0..8)
        .map(|bit| source.add_memory_output(format!("read_a[{bit}]")))
        .collect::<Vec<_>>();
    let read_b = (0..8)
        .map(|bit| source.add_memory_output(format!("read_b[{bit}]")))
        .collect::<Vec<_>>();
    let active_high = |signal| EnableControl {
        signal,
        active: ActiveLevel::High,
    };
    source.add_memory(
        memory_cell(
            "words",
            256,
            address_a.clone(),
            read_a.clone(),
            Some(active_high(read_enable_a)),
            address_a.clone(),
            write_a,
            active_high(write_enable_a),
            clock,
            ClockEdge::Rising,
        )
        .with_second_port(memory_port(
            address_b.clone(),
            read_b.clone(),
            Some(active_high(read_enable_b)),
            address_b,
            write_b,
            active_high(write_enable_b),
            clock,
            ClockEdge::Rising,
        )),
    );
    source.add_output_port("read_a", &read_a);
    source.add_output_port("read_b", &read_b);

    let mapped = map_to_ecp5(&source).unwrap();
    let Ecp5Cell::BlockRam {
        read_enable: Some(read_enable_a),
        clock_enable: Some(clock_enable_a),
        second_port: Some(second_port),
        ..
    } = mapped
        .cells()
        .iter()
        .find(|cell| matches!(cell, Ecp5Cell::BlockRam { name, .. } if name == "bram_words"))
        .unwrap()
    else {
        unreachable!()
    };
    assert_eq!(clock_enable_a, read_enable_a);
    assert_eq!(second_port.clock_enable, second_port.read_enable);
    assert!(!mapped.cells().iter().any(|cell| {
        matches!(cell, Ecp5Cell::Lut4 { name, .. } if name == "bram_words_cea" || name == "bram_words_ceb")
    }));

    let json = nextpnr_value(&mapped);
    let module = &json["modules"]["qualified_true_dual_port"];
    let cell = &module["cells"]["bram_words"];
    assert_eq!(
        cell["connections"]["CEA"],
        module["ports"]["read_enable_a"]["bits"]
    );
    assert_eq!(
        cell["connections"]["CEB"],
        module["ports"]["read_enable_b"]["bits"]
    );
    assert!(module["cells"].get("bram_words_cea").is_none());
    assert!(module["cells"].get("bram_words_ceb").is_none());
}

#[test]
fn rejects_separate_read_and_write_addresses_on_a_true_dual_port() {
    let mut source = Source::new("unsupported_true_dual_port");
    let clock = source.add_input("clock");
    let enable = source.add_input("enable");
    let read_address_a = vec![source.add_input("read_address_a")];
    let write_address_a = vec![source.add_input("write_address_a")];
    let address_b = vec![source.add_input("address_b")];
    let write_a = vec![source.add_input("write_a")];
    let write_b = vec![source.add_input("write_b")];
    let read_a = vec![source.add_memory_output("read_a")];
    let read_b = vec![source.add_memory_output("read_b")];
    let write_enable = EnableControl {
        signal: enable,
        active: ActiveLevel::High,
    };
    source.add_memory(
        memory_cell(
            "words",
            2,
            read_address_a,
            read_a.clone(),
            None,
            write_address_a,
            write_a,
            write_enable,
            clock,
            ClockEdge::Rising,
        )
        .with_second_port(memory_port(
            address_b.clone(),
            read_b.clone(),
            None,
            address_b,
            write_b,
            write_enable,
            clock,
            ClockEdge::Falling,
        )),
    );
    source.add_output_port("read_a", &read_a);
    source.add_output_port("read_b", &read_b);

    assert!(matches!(
        map_to_ecp5(&source),
        Err(MappingError::UnsupportedTrueDualPortAddresses {
            memory,
            port: 'A'
        }) if memory == "words"
    ));
}

#[test]
fn carry_source_arrival_grows_toward_the_most_significant_bit() {
    let mut netlist = Source::new("carry_timing");
    let width = NonZeroU32::new(8).unwrap();
    let lhs = netlist.add_input_port("lhs", width);
    let rhs = netlist.add_input_port("rhs", width);
    let outputs = netlist
        .add_arithmetic(ArithmeticOp::Add, &lhs, &rhs);
    let retained = RetainedTiming::new(&netlist.netlist);
    let arrivals = vec![Some(0); netlist.netlist.nodes.len()];
    let fanouts = structural_fanouts(&netlist.netlist);

    let least_significant = retained.output_arrival(
        &netlist.netlist,
        outputs[0],
        &arrivals,
        &fanouts,
        ArithmeticMapping::CarryChain,
    );
    let most_significant = retained.output_arrival(
        &netlist.netlist,
        outputs[7],
        &arrivals,
        &fanouts,
        ArithmeticMapping::CarryChain,
    );

    assert!(most_significant.unwrap() > least_significant.unwrap());
}

#[test]
fn structural_fanout_breaks_equal_timing_and_area_choices() {
    let mut netlist = Source::new("fanout_tie_break");
    let shared = netlist.add_input("shared");
    let crowded = netlist.add_input("crowded");
    let local = netlist.add_input("local");
    let plans = vec![None; netlist.netlist.nodes.len()];
    let arrivals = vec![Some(0); netlist.netlist.nodes.len()];
    let mut fanouts = vec![1; netlist.netlist.nodes.len()];
    fanouts[crowded as usize] = 16;
    let cuts = vec![
        Cut {
            leaves: vec![shared, crowded],
        },
        Cut {
            leaves: vec![shared, local],
        },
    ];

    let selected = best_plan(&plans, &arrivals, &fanouts, &cuts, 0);

    assert_eq!(selected.leaves, vec![shared, local]);
}

#[test]
fn wide_cut_places_the_latest_input_on_the_top_mux_select() {
    let mut netlist = Source::new("wide_pin_order");
    let inputs = (0..7)
        .map(|index| netlist.add_input(format!("input{index}")))
        .collect::<Vec<_>>();
    let plans = vec![None; netlist.netlist.nodes.len()];
    let mut arrivals = vec![Some(0); netlist.netlist.nodes.len()];
    arrivals[inputs[0] as usize] = Some(1_000);
    arrivals[inputs[1] as usize] = Some(500);
    arrivals[inputs[2] as usize] = Some(250);
    let fanouts = vec![1; netlist.netlist.nodes.len()];

    let plan = plan_for_cut(
        &plans,
        &arrivals,
        &fanouts,
        &Cut {
            leaves: inputs.clone(),
        },
    );

    assert_eq!(plan.leaves[4], inputs[2]);
    assert_eq!(plan.leaves[5], inputs[1]);
    assert_eq!(plan.leaves[6], inputs[0]);
    assert_eq!(plan.root_area, 8);
}

#[test]
fn critical_timing_can_choose_a_faster_deeper_cut() {
    let mut netlist = Source::new("critical_cut");
    let slow_source = netlist.add_input("slow_source");
    let fast_source = netlist.add_input("fast_source");
    let internal = netlist.add_not(fast_source);
    let mut plans = vec![None; netlist.netlist.nodes.len()];
    plans[internal as usize] = Some(LutPlan {
        leaves: vec![fast_source],
        depth: 1,
        arrival_ps: Some(500),
        area: 1,
        root_area: 1,
    });
    let mut arrivals = vec![Some(0); netlist.netlist.nodes.len()];
    arrivals[slow_source as usize] = Some(1_500);
    arrivals[internal as usize] = Some(500);
    let fanouts = vec![1; netlist.netlist.nodes.len()];
    let cuts = vec![
        Cut {
            leaves: vec![slow_source],
        },
        Cut {
            leaves: vec![internal],
        },
    ];

    let area_driven = best_plan(&plans, &arrivals, &fanouts, &cuts, u32::MAX);
    let timing_driven = best_plan(&plans, &arrivals, &fanouts, &cuts, 0);

    assert_eq!(area_driven.leaves, vec![slow_source]);
    assert_eq!(timing_driven.leaves, vec![internal]);
    assert!(timing_driven.depth > area_driven.depth);
    assert!(timing_driven.arrival_ps < area_driven.arrival_ps);
}

fn scalar_inputs(names: &[&str]) -> Source {
    let mut source = Source::new("scalar_inputs");
    for name in names {
        source.add_input(*name);
    }
    source
}

const TAP_INPUTS: [&str; 9] = [
    "jtag_tdi",
    "jtag_tck",
    "jtag_rti1",
    "jtag_rti2",
    "jtag_shift",
    "jtag_update",
    "jtag_rst_n",
    "jtag_ce1",
    "jtag_ce2",
];

fn tap_source() -> Source {
    let mut source = scalar_inputs(&TAP_INPUTS);
    let zero = source.add_constant(false);
    source.add_output("jtag_tdo1", zero);
    source.add_output("jtag_tdo2", zero);
    source
}

#[test]
fn invalid_netlists_are_refused() {
    let mut later = Source::new("later");
    later.node(NodeKind::Not, &[0]);
    assert_eq!(
        map_to_ecp5(&later).unwrap_err(),
        MappingError::InvalidNetlist(ValidationError::InvalidNode(0))
    );

    let mut port = Source::new("port");
    let input = port.add_input("a");
    port.netlist.ports.push(SourcePort {
        name: "y".into(),
        direction: SourceDirection::Output,
        bits: vec![input],
    });
    assert_eq!(port.netlist.validate(), Err(ValidationError::InvalidPort(1)));

    let mut register = Source::new("register");
    let clock = register.add_input("clock");
    register.add_register(register_cell("r", clock, clock, clock, ClockEdge::Rising, None, None));
    assert_eq!(register.netlist.validate(), Err(ValidationError::InvalidRegister(0)));

    let mut unconnected = Source::new("unconnected");
    unconnected.add_register_output("r");
    assert_eq!(unconnected.netlist.validate(), Err(ValidationError::UnconnectedNode(0)));

    let mut arithmetic = Source::new("arithmetic");
    let lhs = arithmetic.add_input("lhs");
    arithmetic.arithmetic(ArithmeticOp::Add, &[lhs], &[], None);
    assert_eq!(arithmetic.netlist.validate(), Err(ValidationError::InvalidArithmetic(0)));

    let mut comparison = Source::new("comparison");
    let lhs = comparison.add_input("lhs");
    comparison.add_comparison(ComparisonOp::LessThanUnsigned, &[lhs], &[]);
    assert_eq!(comparison.netlist.validate(), Err(ValidationError::InvalidComparison(0)));

    let mut memory = memory_source(1, MemoryStyle::Auto, 16);
    memory.netlist.memories[0].port.read_data.pop();
    assert_eq!(memory.netlist.validate(), Err(ValidationError::InvalidMemory(0)));
    assert_eq!(memory_source(1, MemoryStyle::Auto, 16).netlist.validate(), Ok(()));
}

fn memory_source(read_latency: u8, style: MemoryStyle, depth: u32) -> Source {
    let mut source = Source::new("memory");
    let clock = source.add_input("clock");
    let write_enable = source.add_input("write_enable");
    let address = source.add_input_port("address", NonZeroU32::new(4).unwrap());
    let data = source.add_input_port("data", NonZeroU32::new(2).unwrap());
    let read = vec![source.add_memory_output("q0"), source.add_memory_output("q1")];
    let mut memory = memory_cell(
        "words",
        depth,
        address.clone(),
        read.clone(),
        None,
        address,
        data,
        EnableControl { signal: write_enable, active: ActiveLevel::High },
        clock,
        ClockEdge::Rising,
    );
    memory.read_latency = read_latency;
    memory.style = style;
    source.add_memory(memory);
    source.add_output_port("q", &read);
    source
}

#[test]
fn memories_map_by_latency_and_style() {
    let distributed = map_to_ecp5(&memory_source(0, MemoryStyle::Auto, 16)).unwrap();
    let json = nextpnr_value(&distributed);
    let cells = json["modules"]["memory"]["cells"].as_object().unwrap();
    assert!(cells.values().any(|cell| cell["type"] == "TRELLIS_DPR16X4"));

    let block = map_to_ecp5(&memory_source(1, MemoryStyle::Block, 16)).unwrap();
    let json = nextpnr_value(&block);
    assert_eq!(json["modules"]["memory"]["cells"]["bram_words"]["type"], "DP16KD");

    assert_eq!(
        map_to_ecp5(&memory_source(2, MemoryStyle::Auto, 16)).unwrap_err(),
        MappingError::UnsupportedMemoryStyle {
            memory: "words".into(),
            style: MemoryStyle::Auto,
            read_latency: 2,
        }
    );
    assert_eq!(
        map_to_ecp5(&memory_source(0, MemoryStyle::Distributed, 129)).unwrap_err(),
        MappingError::UnsupportedDistributedMemoryGeometry {
            memory: "words".into(),
            depth: 129,
            width: 2,
        }
    );
    assert_eq!(
        map_to_ecp5(&memory_source(1, MemoryStyle::Auto, 16_385)).unwrap_err(),
        MappingError::UnsupportedMemoryGeometry { memory: "words".into(), depth: 16_385, width: 2 }
    );
}

#[test]
fn block_ram_ports_are_as_narrow_as_the_words_allow() {
    assert_eq!(block_ram_width(256, 8), Some(9));
    assert_eq!(block_ram_width(16_384, 1), Some(1));
    assert_eq!(block_ram_width(16_384, 2), None);
    assert_eq!(maximum_block_ram_width(1_024), Some(18));
    assert_eq!(maximum_block_ram_width(16_384), Some(1));
    assert_eq!(maximum_block_ram_width(16_385), None);
}

#[test]
fn timing_constraints_name_ports_and_clocks() {
    let source = registered_ooc_netlist("clock");
    let missing = IoTimingConstraints::new().with_output_delay_ps("absent", 1);
    assert_eq!(
        map_to_ecp5_with_constraints(&source, MappingOptions::default(), &missing).unwrap_err(),
        MappingError::TimingPortNotFound("absent".into())
    );

    let refused = |constraints: TimingConstraints| {
        let error =
            map_to_ecp5_with_timing_constraints(&source, MappingOptions::default(), &constraints)
                .unwrap_err();
        let MappingError::InvalidTimingConstraint(message) = error else {
            panic!("a timing constraint must be refused");
        };
        message
    };
    let with_clock = |name: &str, clock: TimingClockConstraint| {
        TimingConstraints::new().with_clock(name, clock)
    };
    assert_eq!(refused(with_clock(" ", clock_on("clock", 10, 0))), "clock names must not be empty");
    assert_eq!(
        refused(with_clock("core", clock_on("clock", 10, 10))),
        "clock `core` period 10 ps must be greater than its uncertainty 10 ps"
    );
    assert!(refused(with_clock("core", clock_on("absent", 10, 0))).contains("was not found"));
    assert!(refused(with_clock("core", clock_on("response", 10, 0))).contains("is not an input"));
    let mut delayed = TimingConstraints::new();
    delayed.input_delays_ps.insert("request".into(), 1);
    assert!(refused(delayed).starts_with("I/O delays are not supported"));
    let mut multicycle = TimingConstraints::new();
    multicycle.multicycle_paths.push(MulticyclePathConstraint {
        from: "port:request".into(),
        to: "cell:response_q".into(),
        setup_cycles: 2,
    });
    assert!(refused(multicycle).starts_with("multicycle paths are not supported"));
}

#[test]
fn tightest_clock_decides_the_period() {
    let constraints = TimingConstraints::new()
        .with_clock("slow", clock_on("a", 10_000, 100))
        .with_clock("fast", clock_on("b", 4_000, 500));
    assert_eq!(constraints.tightest_effective_period_ps(), Some(3_500));
    assert_eq!(clock_on("a", 100, 100).effective_period_ps(), None);
    assert_eq!(clock_on("a", 100, 99).effective_period_ps(), Some(1));
}

#[test]
fn boundary_budgets_become_port_delays() {
    let source = registered_ooc_netlist("clock");
    let normalized =
        normalize_ooc_timing(&source.netlist, &ooc_constraints("clock")).unwrap();
    assert_eq!(normalized.period_ps, 3_900);
    assert_eq!(normalized.io_timing.input_delays_ps.get("request"), Some(&3_400));
    assert_eq!(normalized.io_timing.output_delays_ps.get("response"), Some(&3_300));
}

#[test]
fn clock_script_quotes_names() {
    let mut source = registered_ooc_netlist("clk\"0\\\n\u{1}");
    source.netlist.name = "quoted".into();
    let constraints = TimingConstraints::new()
        .with_clock("co\tre", clock_on("clk\"0\\\n\u{1}", 10_000, 250));
    let mapped =
        map_to_ecp5_with_timing_constraints(&source, MappingOptions::default(), &constraints)
            .unwrap();
    assert_eq!(
        mapped.nextpnr_pre_pack_timing_constraints(),
        "# clock \"co\\tre\": period 10000 ps, uncertainty 250 ps\nctx.addClock(\"clk\\\"0\\\\\\n\\u0001\", 1000000.0 / 9750)\n"
    );
    assert_eq!(mapped.nextpnr_default_frequency_mhz(), 103);
    assert_eq!(map_to_ecp5(&source).unwrap().nextpnr_default_frequency_mhz(), 300);
}

#[test]
fn jtagg_binding_refuses_unsuitable_ports() {
    let refused = |source: &Source, binding: &JtaggBinding| {
        map_to_ecp5_with_jtagg(source, binding).unwrap_err()
    };
    let binding = JtaggBinding::with_prefix("jtag");
    assert_eq!(
        refused(&scalar_inputs(&TAP_INPUTS), &binding),
        MappingError::JtaggPortNotFound("jtag_tdo1".into())
    );

    let mut twice = JtaggBinding::with_prefix("jtag");
    twice.tdi_port = "jtag_tck".into();
    assert_eq!(
        refused(&tap_source(), &twice),
        MappingError::JtaggPortRepeated("jtag_tck".into())
    );

    let mut inverted = JtaggBinding::with_prefix("jtag");
    inverted.tdo_ports[0] = "jtag_tdi".into();
    assert_eq!(
        refused(&tap_source(), &inverted),
        MappingError::JtaggPortDirection {
            port: "jtag_tdi".into(),
            expected: PortDirection::Output,
            actual: PortDirection::Input,
        }
    );

    let mut wide = scalar_inputs(&TAP_INPUTS[1..]);
    wide.add_input_port("jtag_tdi", NonZeroU32::new(2).unwrap());
    let zero = wide.add_constant(false);
    wide.add_output("jtag_tdo1", zero);
    wide.add_output("jtag_tdo2", zero);
    assert_eq!(
        refused(&wide, &binding),
        MappingError::JtaggPortNotScalar { port: "jtag_tdi".into(), width: 2 }
    );

    let mut mapped = map_to_ecp5_with_jtagg(&tap_source(), &binding).unwrap();
    assert_eq!(mapped.bind_jtagg(&binding), Err(MappingError::JtaggAlreadyBound));

    let mut constant = map_to_ecp5(&tap_source()).unwrap();
    for port in &mut constant.ports {
        if port.name == "jtag_shift" {
            port.bits = vec![Bit::One];
        }
    }
    assert_eq!(
        constant.bind_jtagg(&binding),
        Err(MappingError::JtaggOutputIsConstant("jtag_shift".into()))
    );
}

#[test]
fn pll_binding_refuses_unsuitable_ports() {
    let source = || {
        let mut source = scalar_inputs(&["clk", "clk_250", "locked"]);
        source.add_input_port("wide", NonZeroU32::new(2).unwrap());
        let zero = source.add_constant(false);
        source.add_output("out", zero);
        source
    };
    let binding = |clock: &str, locked: &str| {
        PllBinding::new("clk", clock, locked, PllOutput::Clkos, PllOutput::Clkop)
    };
    let refused = |binding: &PllBinding| map_to_ecp5_with_pll(&source(), binding).unwrap_err();
    assert_eq!(
        refused(&binding("absent", "locked")),
        MappingError::PllPortNotFound("absent".into())
    );
    assert_eq!(
        refused(&binding("clk_250", "clk_250")),
        MappingError::PllPortRepeated("clk_250".into())
    );
    assert_eq!(
        refused(&binding("out", "locked")),
        MappingError::PllPortDirection { port: "out".into(), actual: PortDirection::Output }
    );
    assert_eq!(
        refused(&binding("wide", "locked")),
        MappingError::PllPortNotScalar { port: "wide".into(), width: 2 }
    );
    let mut shared = binding("clk_250", "locked");
    shared.additional_output_clock_ports.insert("wide".into(), PllOutput::Clkop);
    assert_eq!(refused(&shared), MappingError::PllPortRepeated("CLKOP".into()));

    let mut constant = map_to_ecp5(&source()).unwrap();
    constant.ports[2].bits = vec![Bit::Zero];
    let before = constant.clone();
    assert_eq!(
        constant.bind_pll(&binding("clk_250", "locked")),
        Err(MappingError::PllOutputIsConstant("locked".into()))
    );
    assert_eq!(constant, before);
}

#[test]
fn open_drain_binding_refuses_unsuitable_ports() {
    let source = || {
        let mut source = scalar_inputs(&["sda_i", "other"]);
        let wide = source.add_input_port("wide", NonZeroU32::new(2).unwrap());
        source.add_output("low", wide[0]);
        source.add_output_port("wide_low", &wide);
        source
    };
    let refused = |pin: &str, input: &str, drive: &str| {
        map_to_ecp5_with_open_drain_ios(&source(), &[OpenDrainIo::new(pin, input, drive)])
            .unwrap_err()
    };
    assert_eq!(refused("sda", "absent", "low"), MappingError::IoPortNotFound("absent".into()));
    assert_eq!(
        refused("sda", "sda_i", "sda_i"),
        MappingError::IoPortsMustDiffer { input: "sda_i".into(), drive_low: "sda_i".into() }
    );
    assert_eq!(
        refused("other", "sda_i", "low"),
        MappingError::IoPortAlreadyExists("other".into())
    );
    assert_eq!(
        refused("sda", "low", "sda_i"),
        MappingError::IoPortDirection {
            port: "low".into(),
            expected: PortDirection::Input,
            actual: PortDirection::Output,
        }
    );
    assert_eq!(
        refused("sda", "sda_i", "wide_low"),
        MappingError::IoPortNotScalar { port: "wide_low".into(), width: 2 }
    );

    let mut constant = map_to_ecp5(&source()).unwrap();
    constant.ports[0].bits = vec![Bit::One];
    assert_eq!(
        constant.bind_open_drain_io(&OpenDrainIo::new("sda", "sda_i", "low")),
        Err(MappingError::IoInputIsConstant("sda_i".into()))
    );

    let mut full = map_to_ecp5(&source()).unwrap();
    full.ports[1].bits = vec![Bit::Wire(u32::MAX)];
    let before = full.clone();
    let error = full.bind_open_drain_io(&OpenDrainIo::new("sda", "sda_i", "low")).unwrap_err();
    assert_eq!(error, MappingError::MappedWireOverflow);
    assert_eq!(
        error.message(),
        "mapped wire number overflow while inserting a target primitive"
    );
    assert_eq!(full, before);
}

fn enabled_source(enable: bool) -> Source {
    let mut source = Source::new("enabled");
    let clock = source.add_input("clock");
    let signal = source.add_input("enable");
    let data = source.add_input("data");
    for name in ["a", "b"] {
        let output = source.add_register_output(name);
        let control =
            if enable { Some(EnableControl { signal, active: ActiveLevel::High }) } else { None };
        source.add_register(register_cell(
            name,
            output,
            data,
            clock,
            ClockEdge::Rising,
            control,
            None,
        ));
        source.add_output(name, output);
    }
    source
}

#[test]
fn fanout_constraints_refuse_unsuitable_registers() {
    let apply = |netlist: &mut Ecp5Netlist, constraints: Vec<RegisterEnableFanoutConstraint>| {
        let before = netlist.clone();
        let error = netlist.apply_register_enable_fanout_constraints(&constraints).unwrap_err();
        assert_eq!(*netlist, before);
        error
    };
    let limit = RegisterEnableFanoutConstraint::new;
    let mut enabled = map_to_ecp5(&enabled_source(true)).unwrap();
    assert_eq!(
        apply(&mut enabled, vec![limit("ff_*", 0)]),
        RegisterEnableFanoutError::ZeroFanout { pattern: "ff_*".into() }
    );
    assert_eq!(
        apply(&mut enabled, vec![limit("ff_*", 1), limit("ff_?", 2)]),
        RegisterEnableFanoutError::OverlappingPatterns {
            cell: "ff_a".into(),
            first: "ff_*".into(),
            second: "ff_?".into(),
        }
    );
    let mut free = map_to_ecp5(&enabled_source(false)).unwrap();
    assert_eq!(
        apply(&mut free, vec![limit("ff_a", 1)]),
        RegisterEnableFanoutError::RegisterHasNoEnable { cell: "ff_a".into() }
    );
    for cell in &mut enabled.cells {
        if let Ecp5Cell::FlipFlop { enable: Some(enable), .. } = cell {
            enable.signal = Bit::One;
        }
    }
    assert_eq!(
        apply(&mut enabled, vec![limit("ff_b", 1)]),
        RegisterEnableFanoutError::RegisterEnableIsConstant { cell: "ff_b".into() }
    );
}

#[test]
fn globs_match_whole_names() {
    assert!(mapped_cell_glob_matches("ff_*[?]", "ff_value[3]"));
    assert!(!mapped_cell_glob_matches("ff_*[?]", "ff_value[31]"));
    assert!(mapped_cell_glob_matches("*", ""));
    assert!(!mapped_cell_glob_matches("?", ""));
    assert!(mapped_cell_glob_matches("a*b*c", "axxbyybzc"));
    assert!(!mapped_cell_glob_matches("a*b*c", "axxbyybz"));
}

#[test]
fn globs_take_stars_in_names_as_characters() {
    assert!(mapped_cell_glob_matches("ff_*", "ff_*"));
    assert!(mapped_cell_glob_matches("?", "*"));
    assert!(mapped_cell_glob_matches("a*b", "a*b"));
    assert!(mapped_cell_glob_matches("a*b", "a**xb"));
    assert!(!mapped_cell_glob_matches("ab", "a*b"));
    assert!(mapped_cell_glob_matches("ff?", "ff?"));
    assert!(!mapped_cell_glob_matches("ffx", "ff?"));
}

#[test]
fn globs_count_characters() {
    assert!(mapped_cell_glob_matches("ff_?", "ff_é"));
    assert!(!mapped_cell_glob_matches("ff_??", "ff_é"));
    assert!(mapped_cell_glob_matches("ff_?[?]", "ff_数[7]"));
    assert!(mapped_cell_glob_matches("*é*", "été"));
    assert!(!mapped_cell_glob_matches("é", "è"));
}

/// What the slices of a carry primitive drive.
fn carried(cell: &Ecp5Cell, values: &BTreeMap<u32, bool>) -> Vec<(u32, bool)> {
    let Ecp5Cell::Ccu2c { inputs, carry_in, sums, carry_out, init, inject, .. } = cell else {
        return Vec::new();
    };
    let bit = |bit: &Bit| match bit {
        Bit::Zero => Some(false),
        Bit::One => Some(true),
        Bit::Wire(wire) => values.get(wire).copied(),
    };
    let Some(mut carry) = bit(carry_in) else { return Vec::new() };
    let mut driven = Vec::new();
    for slice in 0..2 {
        let pins: Option<Vec<bool>> = inputs[slice].iter().map(bit).collect();
        let Some(pins) = pins else { return driven };
        let entry = |used: usize| {
            let index: usize =
                (0..used).map(|pin| usize::from(pins[pin]) << pin).sum();
            (init[slice] >> index) & 1 == 1
        };
        let taken = carry && !inject[slice];
        driven.push((sums[slice], entry(4) != taken));
        carry = if entry(4) { taken } else { entry(2) };
    }
    driven.push((*carry_out, carry));
    driven
}

/// The value of each wire under an assignment to input wires.
fn settle(netlist: &Ecp5Netlist, inputs: &BTreeMap<u32, bool>) -> BTreeMap<u32, bool> {
    let mut values = inputs.clone();
    for _ in 0..netlist.cells.len() + 1 {
        for cell in &netlist.cells {
            let bit = |bit: &Bit| match bit {
                Bit::Zero => Some(false),
                Bit::One => Some(true),
                Bit::Wire(wire) => values.get(wire).copied(),
            };
            let driven = match cell {
                Ecp5Cell::Lut4 { inputs, output, init, .. } => {
                    let pins: Option<Vec<bool>> = inputs.iter().map(bit).collect();
                    pins.map(|pins| {
                        let index = pins
                            .iter()
                            .enumerate()
                            .map(|(pin, value)| usize::from(*value) << pin)
                            .sum::<usize>();
                        (*output, (init >> index) & 1 == 1)
                    })
                }
                Ecp5Cell::PfuMux { lut_true, lut_false, select, output, .. } => bit(select)
                    .and_then(|on| bit(if on { lut_true } else { lut_false }))
                    .map(|value| (*output, value)),
                Ecp5Cell::L6Mux21 { data_zero, data_one, select, output, .. } => bit(select)
                    .and_then(|on| bit(if on { data_one } else { data_zero }))
                    .map(|value| (*output, value)),
                _ => None,
            };
            if let Some((wire, value)) = driven {
                values.insert(wire, value);
            }
            for (wire, value) in carried(cell, &values) {
                values.insert(wire, value);
            }
        }
    }
    values
}

fn port_wires(netlist: &Ecp5Netlist, name: &str) -> Vec<u32> {
    let port = netlist.ports.iter().find(|port| port.name == name).unwrap();
    port.bits
        .iter()
        .map(|bit| match bit {
            Bit::Wire(wire) => *wire,
            _ => panic!("port `{name}` has a constant bit"),
        })
        .collect()
}

#[test]
fn mapped_logic_computes_the_source_function() {
    let mut source = Source::new("majority_parity");
    let inputs = source.add_input_port("inputs", NonZeroU32::new(7).unwrap());
    let ab = source.add_and(inputs[0], inputs[1]);
    let cd = source.add_or(inputs[2], inputs[3]);
    let chosen = source.add_mux(inputs[4], ab, cd);
    let flipped = source.add_not(inputs[5]);
    let mixed = source.add_xor(chosen, flipped);
    let result = source.add_mux(inputs[6], mixed, ab);
    source.add_output("result", result);
    for goal in [100, 1_500] {
        let options = MappingOptions { timing_goal_mhz: goal, ..MappingOptions::default() };
        let constraints = IoTimingConstraints::new()
            .with_input_delay_ps("inputs", 0)
            .with_output_delay_ps("result", 0);
        let mapped = map_to_ecp5_with_constraints(&source, options, &constraints).unwrap();
        let wires = port_wires(&mapped, "inputs");
        let output = port_wires(&mapped, "result")[0];
        for assignment in 0..128u32 {
            let given: BTreeMap<u32, bool> = wires
                .iter()
                .enumerate()
                .map(|(bit, wire)| (*wire, (assignment >> bit) & 1 == 1))
                .collect();
            let bit = |index: usize| (assignment >> index) & 1 == 1;
            let chosen = if bit(4) { bit(0) && bit(1) } else { bit(2) || bit(3) };
            let expected = if bit(6) { chosen != !bit(5) } else { bit(0) && bit(1) };
            assert_eq!(settle(&mapped, &given)[&output], expected, "assignment {assignment}");
        }
    }
}

#[test]
fn lut_arithmetic_adds_and_subtracts() {
    for (operation, subtract) in [(ArithmeticOp::Add, false), (ArithmeticOp::Subtract, true)] {
        let source = arithmetic_netlist(3, operation);
        let options =
            MappingOptions { arithmetic: ArithmeticMapping::Lut4, ..MappingOptions::default() };
        let mapped = map_to_ecp5_with_options(&source, options).unwrap();
        let lhs = port_wires(&mapped, "lhs");
        let rhs = port_wires(&mapped, "rhs");
        let result = port_wires(&mapped, "result");
        for a in 0..8u32 {
            for b in 0..8u32 {
                let mut given = BTreeMap::new();
                for bit in 0..3 {
                    given.insert(lhs[bit], (a >> bit) & 1 == 1);
                    given.insert(rhs[bit], (b >> bit) & 1 == 1);
                }
                let values = settle(&mapped, &given);
                let found: u32 =
                    (0..3).map(|bit| u32::from(values[&result[bit]]) << bit).sum();
                let expected = if subtract { a.wrapping_sub(b) } else { a + b } & 7;
                assert_eq!(found, expected, "{a} and {b}");
            }
        }
    }
}

#[test]
fn dedicated_muxes_keep_the_function() {
    let mut source = Source::new("mux_tree");
    let data = source.add_input_port("data", NonZeroU32::new(4).unwrap());
    let select = source.add_input_port("select", NonZeroU32::new(2).unwrap());
    let low = source.add_mux(select[0], data[1], data[0]);
    let high = source.add_mux(select[0], data[3], data[2]);
    let root = source.add_mux(select[1], high, low);
    source.add_output("y", root);
    let mapped = map_to_ecp5(&source).unwrap();
    let mut muxed = mapped.clone();
    map_dedicated_wide_muxes(&mut muxed);
    let wires: Vec<u32> =
        port_wires(&mapped, "data").into_iter().chain(port_wires(&mapped, "select")).collect();
    let output = port_wires(&mapped, "y")[0];
    for assignment in 0..64u32 {
        let given: BTreeMap<u32, bool> = wires
            .iter()
            .enumerate()
            .map(|(bit, wire)| (*wire, (assignment >> bit) & 1 == 1))
            .collect();
        let chosen = (assignment >> 4) & 3;
        let expected = (assignment >> chosen) & 1 == 1;
        assert_eq!(settle(&mapped, &given)[&output], expected);
        assert_eq!(settle(&muxed, &given)[&output], expected);
    }
}

#[test]
fn names_stay_in_order() {
    let mut map = NameMap::new();
    for (name, value) in [("b", 1u32), ("a", 2), ("c", 3), ("b", 4)] {
        map.insert(name.to_string(), value);
    }
    assert_eq!(
        map.entries,
        vec![("a".to_string(), 2), ("b".to_string(), 4), ("c".to_string(), 3)]
    );
    assert_eq!(map.get("b"), Some(&4));
    assert_eq!(map.get("d"), None);
}

#[test]
fn a_refused_certificate_keeps_registers_in_place() {
    let mut source = Source::new("uncertified");
    let clock = source.add_input("clock");
    let reset = source.add_input("reset");
    let lhs = source.add_input("lhs");
    let rhs = source.add_input("rhs");
    let data = source.add_and(lhs, rhs);
    let output = source.add_register_output("value");
    source.add_register(register_cell(
        "value",
        output,
        data,
        clock,
        ClockEdge::Rising,
        None,
        Some(ResetControl {
            signal: reset,
            active: ActiveLevel::High,
            asynchronous: true,
            value: false,
        }),
    ));
    source.add_output("output", output);
    let mapped = map_once(&source, MappingOptions::default(), &IoTimingConstraints::new()).unwrap();
    let register = mapped
        .cells
        .iter()
        .position(|cell| mapped_cell_name(cell) == "ff_value")
        .unwrap();
    assert!(backward_retime_lut(&mapped, register, &certify).is_some());
    assert!(backward_retime_lut(&mapped, register, &|_: &RetimingRequest| None).is_none());
}

#[test]
fn merged_registers_settle() {
    let mut netlist = map_to_ecp5(&enabled_source(true)).unwrap();
    for cell in &mut netlist.cells {
        if let Ecp5Cell::FlipFlop { name, .. } = cell {
            *name = format!("retime_{name}");
        }
    }
    merge_equivalent_flip_flops(&mut netlist);
    let once = netlist.clone();
    merge_equivalent_flip_flops(&mut netlist);
    assert_eq!(netlist, once);
    assert_eq!(once.cells.len(), 1);
    assert_eq!(once.equivalence_proof.equivalent_register_merges, 1);
}

/// The output values of a netlist over a sequence of input values, from reset.
fn run(netlist: &Ecp5Netlist, output: &str, cycles: &[Vec<(&str, bool)>]) -> Vec<bool> {
    let output = port_wires(netlist, output)[0];
    let mut state: BTreeMap<u32, bool> = BTreeMap::new();
    for cell in &netlist.cells {
        if let Ecp5Cell::FlipFlop { output, reset, .. } = cell {
            state.insert(*output, reset.as_ref().is_some_and(|reset| reset.value));
        }
    }
    let mut seen = Vec::new();
    for cycle in cycles {
        let mut given = state.clone();
        for (port, value) in cycle {
            given.insert(port_wires(netlist, port)[0], *value);
        }
        let values = settle(netlist, &given);
        seen.push(values[&output]);
        let bit = |bit: Bit| match bit {
            Bit::Zero => false,
            Bit::One => true,
            Bit::Wire(wire) => values[&wire],
        };
        for cell in &netlist.cells {
            if let Ecp5Cell::FlipFlop { data, output, enable, reset, .. } = cell {
                let asserted =
                    |signal: Bit, active: ActiveLevel| bit(signal) == (active == ActiveLevel::High);
                let next = match (reset, enable) {
                    (Some(reset), _) if asserted(reset.signal, reset.active) => reset.value,
                    (_, Some(enable)) if !asserted(enable.signal, enable.active) => values[output],
                    _ => bit(*data),
                };
                state.insert(*output, next);
            }
        }
    }
    seen
}

#[test]
fn moved_registers_keep_what_the_design_shows() {
    let mut source = Source::new("moved");
    let clock = source.add_input("clock");
    let reset = source.add_input("reset");
    let enable = source.add_input("enable");
    let lhs = source.add_input("lhs");
    let rhs = source.add_input("rhs");
    let control = Some(EnableControl { signal: enable, active: ActiveLevel::High });
    let cleared = Some(ResetControl {
        signal: reset,
        active: ActiveLevel::Low,
        asynchronous: false,
        value: true,
    });
    let mut held = Vec::new();
    for (name, data) in [("lhs_q", lhs), ("rhs_q", rhs)] {
        let output = source.add_register_output(name);
        source.add_register(register_cell(
            name,
            output,
            data,
            clock,
            ClockEdge::Rising,
            control,
            cleared,
        ));
        held.push(output);
    }
    let data = source.add_xor(held[0], held[1]);
    let output = source.add_register_output("value");
    source.add_register(register_cell(
        "value",
        output,
        data,
        clock,
        ClockEdge::Rising,
        control,
        cleared,
    ));
    source.add_output("result", output);
    let mapped = map_once(&source, MappingOptions::default(), &IoTimingConstraints::new()).unwrap();
    let at = |wanted: &str| {
        mapped.cells.iter().position(|cell| mapped_cell_name(cell) == wanted).unwrap()
    };
    let lut =
        mapped.cells.iter().position(|cell| matches!(cell, Ecp5Cell::Lut4 { .. })).unwrap();
    let backward = backward_retime_lut(&mapped, at("ff_value"), &certify).unwrap();
    let forward = forward_retime_lut(&mapped, lut, &certify).unwrap();
    assert_ne!(backward, mapped);
    assert_ne!(forward, mapped);
    let cycles: Vec<Vec<(&str, bool)>> = (0..64u32)
        .map(|cycle| {
            let noise = cycle.wrapping_mul(2_654_435_761) >> 11;
            vec![
                ("clock", false),
                ("reset", noise & 7 != 0),
                ("enable", noise & 24 != 0),
                ("lhs", noise & 32 != 0),
                ("rhs", noise & 64 != 0),
            ]
        })
        .collect();
    let shown = run(&mapped, "result", &cycles);
    assert!(shown.contains(&true) && shown.contains(&false));
    assert_eq!(run(&backward, "result", &cycles), shown);
    assert_eq!(run(&forward, "result", &cycles), shown);
}

#[test]
fn enable_branches_keep_what_the_design_shows() {
    let mut source = Source::new("branched");
    let clock = source.add_input("clock");
    let lhs = source.add_input("lhs");
    let rhs = source.add_input("rhs");
    let data = source.add_input("data");
    let signal = source.add_and(lhs, rhs);
    for name in ["a", "b", "c"] {
        let output = source.add_register_output(name);
        source.add_register(register_cell(
            name,
            output,
            data,
            clock,
            ClockEdge::Rising,
            Some(EnableControl { signal, active: ActiveLevel::High }),
            None,
        ));
        source.add_output(name, output);
    }
    let mapped = map_once(&source, MappingOptions::default(), &IoTimingConstraints::new()).unwrap();
    let mut branched = mapped.clone();
    let report = branched
        .apply_register_enable_fanout_constraints(&[RegisterEnableFanoutConstraint::new("ff_*", 2)])
        .unwrap();
    assert_eq!(report.inserted_branches, 2);
    let cycles: Vec<Vec<(&str, bool)>> = (0..32u32)
        .map(|cycle| {
            vec![
                ("clock", false),
                ("lhs", cycle & 1 != 0),
                ("rhs", cycle & 6 != 0),
                ("data", cycle & 8 != 0),
            ]
        })
        .collect();
    for output in ["a", "b", "c"] {
        assert_eq!(run(&branched, output, &cycles), run(&mapped, output, &cycles));
    }
}

#[test]
fn port_delays_reach_every_bit() {
    let source = combinational_io_netlist();
    let constraints = IoTimingConstraints::new()
        .with_input_delay_ps("inputs", 500)
        .with_output_delay_ps("result", 750);
    let mapped =
        map_to_ecp5_with_constraints(&source, MappingOptions::default(), &constraints).unwrap();
    let expected: Vec<(u32, u32)> =
        port_wires(&mapped, "inputs").into_iter().map(|wire| (wire, 500)).collect();
    assert_eq!(mapped.io_timing.input_arrivals_ps, expected);
    assert_eq!(
        mapped.io_timing.output_delays_ps,
        vec![(Bit::Wire(port_wires(&mapped, "result")[0]), 750)]
    );
    assert_eq!(map_to_ecp5(&source).unwrap().io_timing, no_io_timing());
}

#[test]
fn retiming_stays_within_its_limits() {
    let mut source = Source::new("limits");
    let clock = source.add_input("clock");
    let reset = source.add_input("reset");
    let inputs = source.add_input_port("inputs", NonZeroU32::new(16).unwrap());
    let reset_control = Some(ResetControl {
        signal: reset,
        active: ActiveLevel::High,
        asynchronous: true,
        value: false,
    });
    let mut layer: Vec<u32> = Vec::new();
    for (index, input) in inputs.iter().enumerate() {
        let name = format!("in_q{index}");
        let output = source.add_register_output(&name);
        source.add_register(register_cell(
            name,
            output,
            *input,
            clock,
            ClockEdge::Rising,
            None,
            reset_control,
        ));
        layer.push(output);
    }
    let mut value = layer[0];
    for next in &layer[1..] {
        value = source.add_xor(value, *next);
    }
    let output = source.add_register_output("out_q");
    source.add_register(register_cell(
        "out_q",
        output,
        value,
        clock,
        ClockEdge::Rising,
        None,
        reset_control,
    ));
    source.add_output("result", output);
    let mapped = map_once(&source, MappingOptions::default(), &IoTimingConstraints::new()).unwrap();
    let before = mapped_lut_profile(&mapped);
    let registers = 17;
    if let Some(selected) = automatically_retime_mapped_luts(
        &mapped,
        mapped.cells.len(),
        registers,
        1_000,
        &certify,
    ) {
        let after = mapped_lut_profile(&selected);
        assert!(after.overall_period_ps <= before.overall_period_ps);
        assert!(selected.cells.len() <= mapped.cells.len() + mapped.cells.len().div_ceil(10));
    }
}

#[test]
fn port_delays_become_timing_constraints() {
    let constraints = TimingConstraints::from_io_timing(
        IoTimingConstraints::new()
            .with_input_delay_ps("request", 500)
            .with_output_delay_ps("response", 750),
    );
    assert_eq!(constraints.input_delays_ps.get("request"), Some(&500));
    assert_eq!(constraints.output_delays_ps.get("response"), Some(&750));
    assert_eq!(constraints.tightest_effective_period_ps(), None);
    assert!(constraints.clocks.entries.is_empty());
}

#[test]
fn empty_constraints_change_nothing() {
    let mut netlist = map_to_ecp5(&enabled_source(true)).unwrap();
    let before = netlist.clone();
    assert_eq!(
        netlist.apply_register_enable_fanout_constraints(&[]),
        Ok(RegisterEnableFanoutReport::default())
    );
    assert_eq!(netlist.cells, before.cells);
    assert_eq!(IoTimingConstraints::default(), IoTimingConstraints::new());
    assert_eq!(TimingConstraints::default(), TimingConstraints::new());
    assert_eq!(MappingOptions::default().timing_goal_mhz, 300);
}

fn with_word(given: &mut BTreeMap<u32, bool>, wires: &[u32], word: u32) {
    for (bit, wire) in wires.iter().enumerate() {
        given.insert(*wire, (word >> bit) & 1 == 1);
    }
}

fn word(values: &BTreeMap<u32, bool>, wires: &[u32]) -> u32 {
    wires.iter().enumerate().map(|(bit, wire)| u32::from(values[wire]) << bit).sum()
}

#[test]
fn carry_chains_add_and_subtract() {
    for width in [1u32, 2, 3, 5] {
        for (operation, subtract) in [(ArithmeticOp::Add, false), (ArithmeticOp::Subtract, true)] {
            let source = arithmetic_netlist(width, operation);
            let options =
                MappingOptions { arithmetic: ArithmeticMapping::CarryChain, ..MappingOptions::default() };
            let mapped = map_to_ecp5_with_options(&source, options).unwrap();
            assert!(mapped.cells.iter().any(|cell| matches!(cell, Ecp5Cell::Ccu2c { .. })));
            let lhs = port_wires(&mapped, "lhs");
            let rhs = port_wires(&mapped, "rhs");
            let result = port_wires(&mapped, "result");
            let mask = (1 << width) - 1;
            for a in 0..=mask {
                for b in 0..=mask {
                    let mut given = BTreeMap::new();
                    with_word(&mut given, &lhs, a);
                    with_word(&mut given, &rhs, b);
                    let expected = if subtract { a.wrapping_sub(b) } else { a + b } & mask;
                    assert_eq!(word(&settle(&mapped, &given), &result), expected, "{a} and {b}");
                }
            }
        }
    }
}

#[test]
fn carry_chains_take_a_carry_in() {
    let mut source = Source::new("carry_in");
    let lhs = source.add_input_port("lhs", NonZeroU32::new(3).unwrap());
    let rhs = source.add_input_port("rhs", NonZeroU32::new(3).unwrap());
    let carry = source.add_input("carry");
    let sum = source.add_arithmetic_with_carry(&lhs, &rhs, carry);
    source.add_output_port("sum", &sum);
    let mapped = map_to_ecp5(&source).unwrap();
    for case in 0..128u32 {
        let mut given = BTreeMap::new();
        with_word(&mut given, &port_wires(&mapped, "lhs"), case & 7);
        with_word(&mut given, &port_wires(&mapped, "rhs"), (case >> 3) & 7);
        with_word(&mut given, &port_wires(&mapped, "carry"), case >> 6);
        let expected = ((case & 7) + ((case >> 3) & 7) + (case >> 6)) & 7;
        assert_eq!(word(&settle(&mapped, &given), &port_wires(&mapped, "sum")), expected);
    }
}

#[test]
fn carry_chains_compare() {
    for width in [1u32, 2, 3, 4] {
        for operation in [
            ComparisonOp::LessThanUnsigned,
            ComparisonOp::LessEqualUnsigned,
            ComparisonOp::LessThanSigned,
            ComparisonOp::LessEqualSigned,
        ] {
            let mut source = Source::new("comparison");
            let lhs = source.add_input_port("lhs", NonZeroU32::new(width).unwrap());
            let rhs = source.add_input_port("rhs", NonZeroU32::new(width).unwrap());
            let output = source.add_comparison(operation, &lhs, &rhs);
            source.add_output("result", output);
            let mapped = map_to_ecp5(&source).unwrap();
            let result = port_wires(&mapped, "result")[0];
            let signed = |value: u32| {
                i64::from(value) - if value >> (width - 1) == 1 { 1 << width } else { 0 }
            };
            for a in 0..1u32 << width {
                for b in 0..1u32 << width {
                    let mut given = BTreeMap::new();
                    with_word(&mut given, &port_wires(&mapped, "lhs"), a);
                    with_word(&mut given, &port_wires(&mapped, "rhs"), b);
                    let expected = match operation {
                        ComparisonOp::LessThanUnsigned => a < b,
                        ComparisonOp::LessEqualUnsigned => a <= b,
                        ComparisonOp::LessThanSigned => signed(a) < signed(b),
                        ComparisonOp::LessEqualSigned => signed(a) <= signed(b),
                    };
                    assert_eq!(settle(&mapped, &given)[&result], expected, "{a} and {b}");
                }
            }
        }
    }
}

#[test]
fn split_carry_branches_keep_the_sums() {
    let mut netlist = branched_carry_netlist();
    let mut free: Vec<u32> = Vec::new();
    for cell in &mut netlist.cells {
        if let Ecp5Cell::Ccu2c { inputs, init, .. } = cell {
            *init = [0x96aa, 0x96aa];
            for slice in inputs {
                let first = 200 + u32::try_from(free.len()).unwrap();
                free.extend([first, first + 1]);
                *slice = [Bit::Wire(first), Bit::Wire(first + 1), Bit::Zero, Bit::One];
            }
        }
    }
    let mut split = netlist.clone();
    split_branched_carry_outs(&mut split);
    assert_ne!(split, netlist);
    for case in (0..1u32 << free.len()).step_by(7) {
        let mut given = BTreeMap::new();
        with_word(&mut given, &free, case);
        let before = settle(&netlist, &given);
        let after = settle(&split, &given);
        for (wire, value) in before {
            assert_eq!(after[&wire], value);
        }
    }
}

/// What a netlist shows at one port over a sequence of input words, from reset.
fn run_words(netlist: &Ecp5Netlist, output: &str, cycles: &[Vec<(&str, u32)>]) -> Vec<u32> {
    let mut state: BTreeMap<u32, bool> = BTreeMap::new();
    for cell in &netlist.cells {
        if let Ecp5Cell::FlipFlop { output, reset, .. } = cell {
            state.insert(*output, reset.as_ref().is_some_and(|reset| reset.value));
        }
    }
    let mut seen = Vec::new();
    for cycle in cycles {
        let mut given = state.clone();
        for (port, value) in cycle {
            with_word(&mut given, &port_wires(netlist, port), *value);
        }
        let values = settle(netlist, &given);
        seen.push(word(&values, &port_wires(netlist, output)));
        for cell in &netlist.cells {
            if let Ecp5Cell::FlipFlop { data, output, reset, .. } = cell {
                let bit = |bit: Bit| match bit {
                    Bit::Zero => false,
                    Bit::One => true,
                    Bit::Wire(wire) => values[&wire],
                };
                let next = match reset {
                    Some(reset) if bit(reset.signal) == (reset.active == ActiveLevel::High) => {
                        reset.value
                    }
                    _ => bit(*data),
                };
                state.insert(*output, next);
            }
        }
    }
    seen
}

/// An adder between registers.
fn registered_adder() -> Source {
    let mut source = Source::new("registered_adder");
    let clock = source.add_input("clock");
    let reset = source.add_input("reset");
    let lhs = source.add_input_port("lhs", NonZeroU32::new(6).unwrap());
    let rhs = source.add_input_port("rhs", NonZeroU32::new(6).unwrap());
    let cleared = Some(ResetControl {
        signal: reset,
        active: ActiveLevel::High,
        asynchronous: true,
        value: false,
    });
    let held = |source: &mut Source, name: String, data: u32| {
        let output = source.add_register_output(&name);
        source.add_register(register_cell(
            name,
            output,
            data,
            clock,
            ClockEdge::Rising,
            None,
            cleared,
        ));
        output
    };
    let mut operands = Vec::new();
    for (index, input) in lhs.iter().chain(&rhs).enumerate() {
        operands.push(held(&mut source, format!("operand{index}"), *input));
    }
    let sum = source.add_arithmetic(ArithmeticOp::Add, &operands[..6], &operands[6..]);
    let result: Vec<u32> = sum
        .iter()
        .enumerate()
        .map(|(index, bit)| held(&mut source, format!("sum{index}"), *bit))
        .collect();
    source.add_output_port("result", &result);
    source
}

fn noisy_words() -> Vec<Vec<(&'static str, u32)>> {
    (0..64u32)
        .map(|cycle| {
            let noise = cycle.wrapping_mul(2_654_435_761) >> 11;
            vec![
                ("clock", 0),
                ("reset", u32::from(noise & 15 == 0)),
                ("lhs", (noise >> 4) & 63),
                ("rhs", (noise >> 10) & 63),
            ]
        })
        .collect()
}

#[test]
fn carry_moves_keep_what_the_design_shows() {
    let source = registered_adder();
    let mapped = map_once(&source, MappingOptions::default(), &IoTimingConstraints::new()).unwrap();
    let cycles = noisy_words();
    let shown = run_words(&mapped, "result", &cycles);
    assert!(shown.iter().any(|value| *value > 31) && shown.contains(&0));
    for cycle in 2..cycles.len() {
        if cycles[cycle - 1][1].1 == 0 && cycles[cycle - 2][1].1 == 0 {
            let expected = (cycles[cycle - 2][2].1 + cycles[cycle - 2][3].1) & 63;
            assert_eq!(shown[cycle], expected);
        }
    }

    let mut backward = mapped.clone();
    for name in ["ff_sum5", "ff_sum3", "ff_sum2", "ff_sum0"] {
        let register =
            backward.cells.iter().position(|cell| mapped_cell_name(cell) == name).unwrap();
        if let Some(moved) = backward_retime_ccu2c(&backward, register, &certify) {
            assert_eq!(run_words(&moved, "result", &cycles), shown);
            backward = moved;
        }
    }
    assert_ne!(backward, mapped);

    let mut forward = mapped.clone();
    for name in &ccu_chain_names(&mapped)[0] {
        let index = forward.cells.iter().position(|cell| mapped_cell_name(cell) == name).unwrap();
        forward = forward_retime_ccu2c(&forward, index, &certify).unwrap();
        assert_eq!(run_words(&forward, "result", &cycles), shown);
    }
    assert_ne!(forward, mapped);
}

/// A registered parity beside registers that only hold their inputs.
fn registered_parity() -> Source {
    let mut source = Source::new("registered_parity");
    let clock = source.add_input("clock");
    let reset = source.add_input("reset");
    let mut inputs = source.add_input_port("lhs", NonZeroU32::new(8).unwrap());
    inputs.extend(source.add_input_port("rhs", NonZeroU32::new(8).unwrap()));
    let cleared = Some(ResetControl {
        signal: reset,
        active: ActiveLevel::High,
        asynchronous: true,
        value: false,
    });
    let held = |source: &mut Source, name: String, data: u32| {
        let output = source.add_register_output(&name);
        source.add_register(register_cell(
            name,
            output,
            data,
            clock,
            ClockEdge::Rising,
            None,
            cleared,
        ));
        output
    };
    let operands: Vec<u32> = inputs
        .iter()
        .enumerate()
        .map(|(index, input)| held(&mut source, format!("operand{index}"), *input))
        .collect();
    let mut parity = operands[0];
    for operand in &operands[1..] {
        parity = source.add_xor(parity, *operand);
    }
    let result = held(&mut source, "parity".to_string(), parity);
    source.add_output("result", result);
    let others: Vec<u32> = (0..64)
        .map(|index| held(&mut source, format!("other{index}"), inputs[index % 16]))
        .collect();
    source.add_output_port("others", &others);
    source
}

#[test]
fn retimed_netlists_keep_what_the_design_shows() {
    let source = registered_parity();
    let cycles = noisy_words()
        .into_iter()
        .map(|cycle| {
            cycle
                .into_iter()
                .map(|(port, value)| (port, if port == "lhs" { value * 3 } else { value }))
                .collect()
        })
        .collect::<Vec<Vec<(&str, u32)>>>();
    let mapped = map_once(&source, MappingOptions::default(), &IoTimingConstraints::new()).unwrap();
    let shown = run_words(&mapped, "result", &cycles);
    assert!(shown.contains(&1) && shown.contains(&0));
    let interface = |netlist: &Ecp5Netlist| -> Vec<(String, PortDirection, usize)> {
        netlist
            .ports
            .iter()
            .map(|port| (port.name.clone(), port.direction, port.bits.len()))
            .collect()
    };
    let whole = map_to_ecp5_with_options(
        &source,
        MappingOptions { timing_goal_mhz: 1_500, ..MappingOptions::default() },
    )
    .unwrap();
    assert_eq!(run_words(&whole, "result", &cycles), shown);
    assert_eq!(interface(&whole), interface(&mapped));

    let selected =
        automatically_retime_mapped_luts(&mapped, mapped.cells.len(), 81, 1_000, &certify).unwrap();
    assert!(selected.equivalence_proof.certified_primitive_moves > 0);
    assert_eq!(run_words(&selected, "result", &cycles), shown);
    assert_eq!(interface(&selected), interface(&mapped));
    let before = mapped_lut_profile(&mapped);
    let after = mapped_lut_profile(&selected);
    assert!(after.overall_period_ps < before.overall_period_ps);
}

#[test]
fn distributed_memories_give_back_what_was_written() {
    let mut source = Source::new("banks");
    let clock = source.add_input("clock");
    let enable = source.add_input("enable");
    let write_address = source.add_input_port("write_address", NonZeroU32::new(6).unwrap());
    let data = source.add_input_port("data", NonZeroU32::new(5).unwrap());
    let read_address = source.add_input_port("read_address", NonZeroU32::new(6).unwrap());
    let read: Vec<u32> = (0..5).map(|bit| source.add_memory_output(format!("q{bit}"))).collect();
    let mut memory = memory_cell(
        "words",
        64,
        read_address,
        read.clone(),
        None,
        write_address,
        data,
        EnableControl { signal: enable, active: ActiveLevel::High },
        clock,
        ClockEdge::Rising,
    );
    memory.read_latency = 0;
    source.add_memory(memory);
    source.add_output_port("q", &read);
    let mapped = map_to_ecp5(&source).unwrap();
    assert_eq!(
        mapped.cells.iter().filter(|cell| matches!(cell, Ecp5Cell::BlockRam { .. })).count(),
        8
    );

    let mut tiles: BTreeMap<(usize, u32), u32> = BTreeMap::new();
    let mut expected = [0u32; 64];
    for cycle in 0..256u32 {
        let noise = cycle.wrapping_mul(2_654_435_761) >> 7;
        let written = (noise >> 3) & 63;
        let writes = noise & 3 != 0;
        let stored = (noise >> 9) & 31;
        for (last, address) in [(false, written), (true, cycle & 63)] {
            let mut given = BTreeMap::new();
            with_word(&mut given, &port_wires(&mapped, "clock"), 0);
            with_word(&mut given, &port_wires(&mapped, "enable"), u32::from(writes));
            with_word(&mut given, &port_wires(&mapped, "write_address"), written);
            with_word(&mut given, &port_wires(&mapped, "data"), stored);
            with_word(&mut given, &port_wires(&mapped, "read_address"), address);
            let pins = |values: &BTreeMap<u32, bool>, bits: &[Bit]| -> u32 {
                bits.iter()
                    .enumerate()
                    .map(|(at, bit)| {
                        let on = match bit {
                            Bit::Zero => false,
                            Bit::One => true,
                            Bit::Wire(wire) => values[wire],
                        };
                        u32::from(on) << at
                    })
                    .sum()
            };
            for (at, cell) in mapped.cells.iter().enumerate() {
                if let Ecp5Cell::BlockRam { read_address, read_data, .. } = cell {
                    let selected = pins(&given, &read_address[..4]);
                    let word = tiles.get(&(at, selected)).copied().unwrap_or(0);
                    with_word(&mut given, read_data, word);
                }
            }
            let values = settle(&mapped, &given);
            assert_eq!(word(&values, &port_wires(&mapped, "q")), expected[address as usize]);
            if last {
                for (at, cell) in mapped.cells.iter().enumerate() {
                    if let Ecp5Cell::BlockRam { write_address, write_data, write_enable, .. } = cell
                    {
                        let on = pins(&values, &[write_enable.signal]) == 1;
                        if on == (write_enable.active == ActiveLevel::High) {
                            let selected = pins(&values, &write_address[..4]);
                            tiles.insert((at, selected), pins(&values, write_data));
                        }
                    }
                }
            }
        }
        if writes {
            expected[written as usize] = stored;
        }
    }
}

/// The wires that a cell drives, and those that it reads.
fn cell_wires(cell: &Ecp5Cell) -> (Vec<u32>, Vec<Bit>) {
    match cell {
        Ecp5Cell::Lut4 { inputs, output, .. } => (vec![*output], inputs.to_vec()),
        Ecp5Cell::PfuMux { lut_true, lut_false, select, output, .. } => {
            (vec![*output], vec![*lut_true, *lut_false, *select])
        }
        Ecp5Cell::L6Mux21 { data_zero, data_one, select, output, .. } => {
            (vec![*output], vec![*data_zero, *data_one, *select])
        }
        Ecp5Cell::Ccu2c { inputs, carry_in, sums, carry_out, .. } => {
            let mut read: Vec<Bit> = inputs.iter().flatten().copied().collect();
            read.push(*carry_in);
            (vec![sums[0], sums[1], *carry_out], read)
        }
        Ecp5Cell::FlipFlop { data, output, clock, enable, reset, .. } => {
            let mut read = vec![*data, *clock];
            read.extend(enable.as_ref().map(|enable| enable.signal));
            read.extend(reset.as_ref().map(|reset| reset.signal));
            (vec![*output], read)
        }
        Ecp5Cell::BlockRam {
            write_address,
            write_data,
            write_enable,
            read_address,
            read_data,
            read_enable,
            clock_enable,
            clock,
            ..
        } => {
            let mut read: Vec<Bit> = write_address.to_vec();
            read.extend(write_data);
            read.extend(read_address.iter());
            read.extend([write_enable.signal, *clock]);
            read.extend(read_enable.as_ref().map(|enable| enable.signal));
            read.extend(clock_enable.as_ref().map(|enable| enable.signal));
            (read_data.clone(), read)
        }
        _ => panic!("no cell of this kind is expected"),
    }
}

/// Checks that every wire has one driver, and that what cells read is driven or on a port.
fn assert_well_driven(netlist: &Ecp5Netlist) {
    let on_ports = |wanted: Option<PortDirection>| -> Vec<u32> {
        netlist
            .ports
            .iter()
            .filter(|port| wanted.is_none() || Some(port.direction) == wanted)
            .flat_map(|port| &port.bits)
            .filter_map(|bit| match bit {
                Bit::Wire(wire) => Some(*wire),
                _ => None,
            })
            .collect()
    };
    let inputs = on_ports(Some(PortDirection::Input));
    let ports = on_ports(None);
    let mut driven: Vec<u32> = Vec::new();
    for cell in &netlist.cells {
        let outputs = cell_wires(cell).0;
        assert!(!outputs.is_empty());
        for wire in outputs {
            assert!(wire > 1);
            assert!(!driven.contains(&wire));
            assert!(!inputs.contains(&wire));
            driven.push(wire);
        }
    }
    for cell in &netlist.cells {
        for bit in cell_wires(cell).1 {
            if let Bit::Wire(wire) = bit {
                assert!(driven.contains(&wire) || ports.contains(&wire));
            }
        }
    }
}

#[test]
fn mapped_netlists_drive_each_wire_once() {
    for source in [
        registered_adder(),
        registered_parity(),
        memory_source(0, MemoryStyle::Auto, 64),
        memory_source(1, MemoryStyle::Auto, 16),
    ] {
        let mapped =
            map_once(&source, MappingOptions::default(), &IoTimingConstraints::new()).unwrap();
        assert_well_driven(&mapped);
        assert_well_driven(&map_to_ecp5(&source).unwrap());
    }
    let source = registered_parity();
    let mapped = map_once(&source, MappingOptions::default(), &IoTimingConstraints::new()).unwrap();
    let retimed =
        automatically_retime_mapped_luts(&mapped, mapped.cells.len(), 81, 1_000, &certify).unwrap();
    assert_ne!(retimed, mapped);
    assert_well_driven(&retimed);
}

#[test]
fn physical_refinement_keeps_what_the_design_shows() {
    let mut source = Source::new("refined");
    let clock = source.add_input("clock");
    let lhs = source.add_input("lhs");
    let rhs = source.add_input("rhs");
    let data = source.add_xor(lhs, rhs);
    for name in ["a", "b"] {
        let output = source.add_register_output(name);
        source.add_register(register_cell(
            name,
            output,
            data,
            clock,
            ClockEdge::Rising,
            None,
            None,
        ));
        source.add_output(name, output);
    }
    let mapped = map_once(&source, MappingOptions::default(), &IoTimingConstraints::new()).unwrap();
    let driver = mapped
        .cells
        .iter()
        .find(|cell| matches!(cell, Ecp5Cell::Lut4 { .. }))
        .map(|cell| mapped_cell_name(cell).to_string())
        .unwrap();
    let report = format!(
        r#"{{"fmax":{{"clock":{{"achieved":319.0,"constraint":320.0}}}},"detailed_net_timings":[{{"driver":"{driver}","net":"critical","endpoints":[{{"cell":"ff_a","port":"DI","delay":4.0,"budget":3.0}},{{"cell":"ff_b","port":"DI","delay":2.0,"budget":3.0}}]}}]}}"#
    );
    let placed = format!(
        r#"{{"modules":{{"refined":{{"cells":{{"{driver}":{{"attributes":{{"NEXTPNR_BEL":"X1/Y1/SLICEA.K0"}}}},"ff_a":{{"attributes":{{"NEXTPNR_BEL":"X8/Y8/SLICEA.FF0"}}}},"ff_b":{{"attributes":{{"NEXTPNR_BEL":"X2/Y2/SLICEA.FF1"}}}}}}}}}}}}"#
    );
    let refined = mapped.apply_physical_feedback(&feedback_from(&report, &placed), &certify);
    assert_eq!(refined.cells.len(), mapped.cells.len() + 1);
    assert_well_driven(&refined);
    let cycles: Vec<Vec<(&str, bool)>> = (0..32u32)
        .map(|cycle| {
            vec![("clock", false), ("lhs", cycle & 3 == 1), ("rhs", cycle & 4 != 0)]
        })
        .collect();
    for output in ["a", "b"] {
        let shown = run(&mapped, output, &cycles);
        assert!(shown.contains(&true) && shown.contains(&false));
        assert_eq!(run(&refined, output, &cycles), shown);
    }
}

#[test]
fn block_memories_give_back_what_was_written() {
    let mut source = Source::new("tiles");
    let clock = source.add_input("clock");
    let enable = source.add_input("enable");
    let write_address = source.add_input_port("write_address", NonZeroU32::new(6).unwrap());
    let data = source.add_input_port("data", NonZeroU32::new(20).unwrap());
    let read_address = source.add_input_port("read_address", NonZeroU32::new(6).unwrap());
    let read: Vec<u32> = (0..20).map(|bit| source.add_memory_output(format!("q{bit}"))).collect();
    source.add_memory(memory_cell(
        "words",
        64,
        read_address,
        read.clone(),
        None,
        write_address,
        data,
        EnableControl { signal: enable, active: ActiveLevel::High },
        clock,
        ClockEdge::Rising,
    ));
    source.add_output_port("q", &read);
    let mapped = map_to_ecp5(&source).unwrap();
    assert_well_driven(&mapped);
    let widths: Vec<u8> = mapped
        .cells
        .iter()
        .filter_map(|cell| match cell {
            Ecp5Cell::BlockRam { word_width, .. } => Some(*word_width),
            _ => None,
        })
        .collect();
    assert_eq!(widths, [18, 2]);

    let shift = |width: u8| match width {
        1 => 0,
        2 => 1,
        4 => 2,
        9 => 3,
        _ => 4,
    };
    let mut tiles: BTreeMap<(usize, u32), u32> = BTreeMap::new();
    let mut outputs: BTreeMap<usize, u32> = BTreeMap::new();
    let mut expected: BTreeMap<u32, u32> = BTreeMap::new();
    let mut shown: Option<u32> = None;
    for cycle in 0..256u32 {
        let noise = cycle.wrapping_mul(2_654_435_761) >> 3;
        let written = noise & 63;
        let stored = (noise >> 6) & 0xf_ffff;
        let writes = cycle % 3 != 0;
        let address = (cycle * 5) & 63;
        let mut given = BTreeMap::new();
        with_word(&mut given, &port_wires(&mapped, "clock"), 0);
        with_word(&mut given, &port_wires(&mapped, "enable"), u32::from(writes));
        with_word(&mut given, &port_wires(&mapped, "write_address"), written);
        with_word(&mut given, &port_wires(&mapped, "data"), stored);
        with_word(&mut given, &port_wires(&mapped, "read_address"), address);
        for (at, cell) in mapped.cells.iter().enumerate() {
            if let Ecp5Cell::BlockRam { read_data, .. } = cell {
                with_word(&mut given, read_data, outputs.get(&at).copied().unwrap_or(0));
            }
        }
        let values = settle(&mapped, &given);
        if let Some(shown) = shown {
            assert_eq!(word(&values, &port_wires(&mapped, "q")), shown);
        }
        let pins = |bits: &[Bit]| -> u32 {
            bits.iter()
                .enumerate()
                .map(|(at, bit)| {
                    let on = match bit {
                        Bit::Zero => false,
                        Bit::One => true,
                        Bit::Wire(wire) => values[wire],
                    };
                    u32::from(on) << at
                })
                .sum()
        };
        for (at, cell) in mapped.cells.iter().enumerate() {
            if let Ecp5Cell::BlockRam {
                write_address,
                write_data,
                write_enable,
                read_address,
                read_enable,
                physical_width,
                ..
            } = cell
            {
                assert!(read_enable.is_none());
                let selected = pins(&read_address[..]) >> shift(*physical_width);
                outputs.insert(at, tiles.get(&(at, selected)).copied().unwrap_or(0));
                let on = pins(&[write_enable.signal]) == 1;
                if on == (write_enable.active == ActiveLevel::High) {
                    let selected = pins(&write_address[..]) >> shift(*physical_width);
                    tiles.insert((at, selected), pins(write_data));
                }
            }
        }
        shown = if writes && written == address {
            None
        } else {
            Some(expected.get(&address).copied().unwrap_or(0))
        };
        if writes {
            expected.insert(written, stored);
        }
    }
    assert!(expected.len() > 32);
}
