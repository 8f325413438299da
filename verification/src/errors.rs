//! Failures and what they say.

use vstd::prelude::*;

use crate::cells::PortDirection;
use crate::ir::MemoryStyle;
use crate::ir::ValidationError;
use crate::text::decimal;
use crate::text::decimal_text;

verus! {

/// Failure while applying mapped-register clock-enable fanout constraints.
#[derive(Clone, Debug, Eq, PartialEq)]
pub enum RegisterEnableFanoutError {
    /// A fanout ceiling must be at least one.
    ZeroFanout {
        /// Pattern carrying the invalid ceiling.
        pattern: String,
    },
    /// A pattern selected no mapped flip-flop.
    UnmatchedPattern {
        /// Unmatched mapped-cell pattern.
        pattern: String,
    },
    /// Two constraints selected the same mapped flip-flop.
    OverlappingPatterns {
        /// Ambiguous mapped flip-flop.
        cell: String,
        /// Earlier pattern.
        first: String,
        /// Later pattern.
        second: String,
    },
    /// A selected mapped flip-flop has no clock enable.
    RegisterHasNoEnable {
        /// Selected mapped flip-flop.
        cell: String,
    },
    /// A selected mapped flip-flop has a constant clock enable.
    RegisterEnableIsConstant {
        /// Selected mapped flip-flop.
        cell: String,
    },
    /// No mapped wire number remains for a generated branch.
    MappedWireOverflow,
}

/// What a [`RegisterEnableFanoutError`] holds.
#[verifier::ext_equal]
pub enum FanoutFault {
    ZeroFanout { pattern: Seq<char> },
    UnmatchedPattern { pattern: Seq<char> },
    OverlappingPatterns { cell: Seq<char>, first: Seq<char>, second: Seq<char> },
    RegisterHasNoEnable { cell: Seq<char> },
    RegisterEnableIsConstant { cell: Seq<char> },
    MappedWireOverflow,
}

impl View for RegisterEnableFanoutError {
    type V = FanoutFault;

    open spec fn view(&self) -> FanoutFault {
        match *self {
            RegisterEnableFanoutError::ZeroFanout { pattern } => FanoutFault::ZeroFanout {
                pattern: pattern@,
            },
            RegisterEnableFanoutError::UnmatchedPattern { pattern } => FanoutFault::UnmatchedPattern {
                pattern: pattern@,
            },
            RegisterEnableFanoutError::OverlappingPatterns { cell, first, second } =>
                FanoutFault::OverlappingPatterns {
                cell: cell@,
                first: first@,
                second: second@,
            },
            RegisterEnableFanoutError::RegisterHasNoEnable { cell } =>
                FanoutFault::RegisterHasNoEnable { cell: cell@ },
            RegisterEnableFanoutError::RegisterEnableIsConstant { cell } =>
                FanoutFault::RegisterEnableIsConstant { cell: cell@ },
            RegisterEnableFanoutError::MappedWireOverflow => FanoutFault::MappedWireOverflow,
        }
    }
}

/// What a fanout failure says.
pub open spec fn fanout_message(fault: FanoutFault) -> Seq<char> {
    match fault {
        FanoutFault::ZeroFanout { pattern } => "register-enable pattern `"@ + pattern
            + "` has a zero fanout limit"@,
        FanoutFault::UnmatchedPattern { pattern } => "register-enable pattern `"@ + pattern
            + "` matched no mapped flip-flop"@,
        FanoutFault::OverlappingPatterns { cell, first, second } => "mapped flip-flop `"@ + cell
            + "` matches both register-enable patterns `"@ + first + "` and `"@ + second + "`"@,
        FanoutFault::RegisterHasNoEnable { cell } => "mapped flip-flop `"@ + cell
            + "` has no clock-enable pin to constrain"@,
        FanoutFault::RegisterEnableIsConstant { cell } => "mapped flip-flop `"@ + cell
            + "` has a constant clock enable"@,
        FanoutFault::MappedWireOverflow =>
            "mapped wire number overflow while inserting a register-enable branch"@,
    }
}

/// One text between two others.
pub fn between(prefix: &str, name: &str, suffix: &str) -> (text: String)
    ensures
        text@ == prefix@ + name@ + suffix@,
{
    let mut text = prefix.to_owned();
    text.append(name);
    text.append(suffix);
    text
}

impl RegisterEnableFanoutError {
    /// What the failure says.
    pub fn message(&self) -> (text: String)
        ensures
            text@ == fanout_message(self@),
    {
        match self {
            RegisterEnableFanoutError::ZeroFanout { pattern } => between(
                "register-enable pattern `",
                pattern.as_str(),
                "` has a zero fanout limit",
            ),
            RegisterEnableFanoutError::UnmatchedPattern { pattern } => between(
                "register-enable pattern `",
                pattern.as_str(),
                "` matched no mapped flip-flop",
            ),
            RegisterEnableFanoutError::OverlappingPatterns { cell, first, second } => {
                let mut text = between(
                    "mapped flip-flop `",
                    cell.as_str(),
                    "` matches both register-enable patterns `",
                );
                text.append(first.as_str());
                text.append("` and `");
                text.append(second.as_str());
                text.append("`");
                text
            },
            RegisterEnableFanoutError::RegisterHasNoEnable { cell } => between(
                "mapped flip-flop `",
                cell.as_str(),
                "` has no clock-enable pin to constrain",
            ),
            RegisterEnableFanoutError::RegisterEnableIsConstant { cell } => between(
                "mapped flip-flop `",
                cell.as_str(),
                "` has a constant clock enable",
            ),
            RegisterEnableFanoutError::MappedWireOverflow =>
                "mapped wire number overflow while inserting a register-enable branch".to_owned(),
        }
    }
}

/// ECP5 technology-mapping failure.
#[allow(inconsistent_fields)]
#[derive(Clone, Debug, Eq, PartialEq)]
pub enum MappingError {
    /// Source netlist is invalid.
    InvalidNetlist(ValidationError),
    /// A shared mapping/place-and-route timing file is inconsistent with the
    /// synthesized design.
    InvalidTimingConstraint(String),
    /// An out-of-context timing file is incomplete or inconsistent with the
    /// synthesized boundary.
    InvalidOocConstraint(String),
    /// A named I/O timing port does not exist.
    TimingPortNotFound(String),
    /// An I/O timing constraint was attached to a port of the wrong direction.
    TimingPortDirection {
        /// Port name.
        port: String,
        /// Direction required by the constraint.
        expected: PortDirection,
        /// Actual port direction.
        actual: PortDirection,
    },
    /// A logical memory cannot be width-tiled into DP16KD primitives.
    UnsupportedMemoryGeometry {
        /// Memory name.
        memory: String,
        /// Requested word count.
        depth: u32,
        /// Requested word width.
        width: usize,
    },
    /// A memory style and read latency cannot be implemented together.
    UnsupportedMemoryStyle {
        /// Memory name.
        memory: String,
        /// Requested implementation.
        style: MemoryStyle,
        /// Requested read latency.
        read_latency: u8,
    },
    /// A logical memory cannot be tiled into `TRELLIS_DPR16X4` primitives.
    UnsupportedDistributedMemoryGeometry {
        /// Memory name.
        memory: String,
        /// Requested word count.
        depth: u32,
        /// Requested word width.
        width: usize,
    },
    /// A true-dual-port DP16KD port was given separate read and write addresses.
    UnsupportedTrueDualPortAddresses {
        /// Memory name.
        memory: String,
        /// Physical port whose address expressions differ.
        port: char,
    },
    /// A named split I/O port does not exist.
    IoPortNotFound(String),
    /// The physical pad name conflicts with an existing mapped port.
    IoPortAlreadyExists(String),
    /// The two logical sides of an open-drain binding name the same port.
    IoPortsMustDiffer {
        /// Core input port.
        input: String,
        /// Core drive-low output port.
        drive_low: String,
    },
    /// A split I/O port has the wrong direction.
    IoPortDirection {
        /// Port name.
        port: String,
        /// Direction required by the binding role.
        expected: PortDirection,
        /// Actual mapped direction.
        actual: PortDirection,
    },
    /// Open-drain bindings currently operate on scalar ports.
    IoPortNotScalar {
        /// Port name.
        port: String,
        /// Actual bit width.
        width: usize,
    },
    /// A mapped input unexpectedly contains a constant instead of a wire.
    IoInputIsConstant(String),
    /// No wire number remains for an inserted target primitive.
    MappedWireOverflow,
    /// The mapped design already contains the device's single JTAG block.
    JtaggAlreadyBound,
    /// A named JTAG fabric port does not exist.
    JtaggPortNotFound(String),
    /// One top-level port was assigned to more than one JTAG role.
    JtaggPortRepeated(String),
    /// A JTAG fabric port has the wrong direction.
    JtaggPortDirection {
        /// Port name.
        port: String,
        /// Direction required by the binding role.
        expected: PortDirection,
        /// Actual mapped direction.
        actual: PortDirection,
    },
    /// JTAG bindings operate on scalar ports.
    JtaggPortNotScalar {
        /// Port name.
        port: String,
        /// Actual bit width.
        width: usize,
    },
    /// A JTAGG output cannot drive a constant top-level input.
    JtaggOutputIsConstant(String),
    /// A named PLL boundary port does not exist.
    PllPortNotFound(String),
    /// One top-level port was assigned to more than one PLL role.
    PllPortRepeated(String),
    /// A PLL boundary port is not a core input.
    PllPortDirection {
        /// Port name.
        port: String,
        /// Actual mapped direction.
        actual: PortDirection,
    },
    /// PLL boundary bindings operate on scalar ports.
    PllPortNotScalar {
        /// Port name.
        port: String,
        /// Actual bit width.
        width: usize,
    },
    /// A PLL output cannot drive a constant logical input.
    PllOutputIsConstant(String),
}

/// What a [`MappingError`] holds.
#[allow(inconsistent_fields)]
#[verifier::ext_equal]
pub enum MappingFault {
    InvalidNetlist(ValidationError),
    InvalidTimingConstraint(Seq<char>),
    InvalidOocConstraint(Seq<char>),
    TimingPortNotFound(Seq<char>),
    TimingPortDirection { port: Seq<char>, expected: PortDirection, actual: PortDirection },
    UnsupportedMemoryGeometry { memory: Seq<char>, depth: u32, width: usize },
    UnsupportedMemoryStyle { memory: Seq<char>, style: MemoryStyle, read_latency: u8 },
    UnsupportedDistributedMemoryGeometry { memory: Seq<char>, depth: u32, width: usize },
    UnsupportedTrueDualPortAddresses { memory: Seq<char>, port: char },
    IoPortNotFound(Seq<char>),
    IoPortAlreadyExists(Seq<char>),
    IoPortsMustDiffer { input: Seq<char>, drive_low: Seq<char> },
    IoPortDirection { port: Seq<char>, expected: PortDirection, actual: PortDirection },
    IoPortNotScalar { port: Seq<char>, width: usize },
    IoInputIsConstant(Seq<char>),
    MappedWireOverflow,
    JtaggAlreadyBound,
    JtaggPortNotFound(Seq<char>),
    JtaggPortRepeated(Seq<char>),
    JtaggPortDirection { port: Seq<char>, expected: PortDirection, actual: PortDirection },
    JtaggPortNotScalar { port: Seq<char>, width: usize },
    JtaggOutputIsConstant(Seq<char>),
    PllPortNotFound(Seq<char>),
    PllPortRepeated(Seq<char>),
    PllPortDirection { port: Seq<char>, actual: PortDirection },
    PllPortNotScalar { port: Seq<char>, width: usize },
    PllOutputIsConstant(Seq<char>),
}

impl View for MappingError {
    type V = MappingFault;

    open spec fn view(&self) -> MappingFault {
        match *self {
            MappingError::InvalidNetlist(error) => MappingFault::InvalidNetlist(error),
            MappingError::InvalidTimingConstraint(message) =>
                MappingFault::InvalidTimingConstraint(message@),
            MappingError::InvalidOocConstraint(message) => MappingFault::InvalidOocConstraint(
                message@,
            ),
            MappingError::TimingPortNotFound(port) => MappingFault::TimingPortNotFound(port@),
            MappingError::TimingPortDirection { port, expected, actual } =>
                MappingFault::TimingPortDirection { port: port@, expected, actual },
            MappingError::UnsupportedMemoryGeometry { memory, depth, width } =>
                MappingFault::UnsupportedMemoryGeometry { memory: memory@, depth, width },
            MappingError::UnsupportedMemoryStyle { memory, style, read_latency } =>
                MappingFault::UnsupportedMemoryStyle { memory: memory@, style, read_latency },
            MappingError::UnsupportedDistributedMemoryGeometry { memory, depth, width } =>
                MappingFault::UnsupportedDistributedMemoryGeometry {
                memory: memory@,
                depth,
                width,
            },
            MappingError::UnsupportedTrueDualPortAddresses { memory, port } =>
                MappingFault::UnsupportedTrueDualPortAddresses { memory: memory@, port },
            MappingError::IoPortNotFound(port) => MappingFault::IoPortNotFound(port@),
            MappingError::IoPortAlreadyExists(port) => MappingFault::IoPortAlreadyExists(port@),
            MappingError::IoPortsMustDiffer { input, drive_low } =>
                MappingFault::IoPortsMustDiffer { input: input@, drive_low: drive_low@ },
            MappingError::IoPortDirection { port, expected, actual } =>
                MappingFault::IoPortDirection { port: port@, expected, actual },
            MappingError::IoPortNotScalar { port, width } => MappingFault::IoPortNotScalar {
                port: port@,
                width,
            },
            MappingError::IoInputIsConstant(port) => MappingFault::IoInputIsConstant(port@),
            MappingError::MappedWireOverflow => MappingFault::MappedWireOverflow,
            MappingError::JtaggAlreadyBound => MappingFault::JtaggAlreadyBound,
            MappingError::JtaggPortNotFound(port) => MappingFault::JtaggPortNotFound(port@),
            MappingError::JtaggPortRepeated(port) => MappingFault::JtaggPortRepeated(port@),
            MappingError::JtaggPortDirection { port, expected, actual } =>
                MappingFault::JtaggPortDirection { port: port@, expected, actual },
            MappingError::JtaggPortNotScalar { port, width } => MappingFault::JtaggPortNotScalar {
                port: port@,
                width,
            },
            MappingError::JtaggOutputIsConstant(port) => MappingFault::JtaggOutputIsConstant(
                port@,
            ),
            MappingError::PllPortNotFound(port) => MappingFault::PllPortNotFound(port@),
            MappingError::PllPortRepeated(port) => MappingFault::PllPortRepeated(port@),
            MappingError::PllPortDirection { port, actual } => MappingFault::PllPortDirection {
                port: port@,
                actual,
            },
            MappingError::PllPortNotScalar { port, width } => MappingFault::PllPortNotScalar {
                port: port@,
                width,
            },
            MappingError::PllOutputIsConstant(port) => MappingFault::PllOutputIsConstant(port@),
        }
    }
}

impl vstd::std_specs::convert::FromSpecImpl<ValidationError> for MappingError {
    open spec fn obeys_from_spec() -> bool {
        true
    }

    open spec fn from_spec(error: ValidationError) -> Self {
        MappingError::InvalidNetlist(error)
    }
}

impl From<ValidationError> for MappingError {
    fn from(error: ValidationError) -> (out: Self) {
        MappingError::InvalidNetlist(error)
    }
}

/// The failure a result holds.
pub open spec fn fault_of<T>(result: Result<T, MappingError>) -> Option<MappingFault> {
    match result {
        Ok(_) => None,
        Err(error) => Some(error@),
    }
}

/// The name of a direction.
pub open spec fn direction_text(direction: PortDirection) -> Seq<char> {
    match direction {
        PortDirection::Input => "Input"@,
        PortDirection::Output => "Output"@,
        PortDirection::Inout => "Inout"@,
    }
}

/// The name of a direction.
pub fn direction_name(direction: PortDirection) -> (text: &'static str)
    ensures
        text@ == direction_text(direction),
{
    match direction {
        PortDirection::Input => "Input",
        PortDirection::Output => "Output",
        PortDirection::Inout => "Inout",
    }
}

/// The name of a memory style.
pub open spec fn style_text(style: MemoryStyle) -> Seq<char> {
    match style {
        MemoryStyle::Auto => "Auto"@,
        MemoryStyle::Block => "Block"@,
        MemoryStyle::Distributed => "Distributed"@,
    }
}

fn style_name(style: MemoryStyle) -> (text: &'static str)
    ensures
        text@ == style_text(style),
{
    match style {
        MemoryStyle::Auto => "Auto",
        MemoryStyle::Block => "Block",
        MemoryStyle::Distributed => "Distributed",
    }
}

/// What a validation failure says.
pub open spec fn validation_text(error: ValidationError) -> Seq<char> {
    match error {
        ValidationError::TooManyNodes => "more nodes than wire numbers"@,
        ValidationError::InvalidNode(index) => "node "@ + decimal_text(index as nat)
            + " reads an unsuitable net"@,
        ValidationError::InvalidPort(index) => "port "@ + decimal_text(index as nat)
            + " is malformed"@,
        ValidationError::InvalidRegister(index) => "register "@ + decimal_text(index as nat)
            + " is malformed"@,
        ValidationError::InvalidMemory(index) => "memory "@ + decimal_text(index as nat)
            + " is malformed"@,
        ValidationError::InvalidArithmetic(index) => "arithmetic cell "@ + decimal_text(
            index as nat,
        ) + " is malformed"@,
        ValidationError::InvalidComparison(index) => "comparison "@ + decimal_text(index as nat)
            + " is malformed"@,
        ValidationError::UnconnectedNode(index) => "node "@ + decimal_text(index as nat)
            + " is not connected"@,
    }
}

impl ValidationError {
    /// What the failure says.
    pub fn message(&self) -> (text: String)
        ensures
            text@ == validation_text(*self),
    {
        match *self {
            ValidationError::TooManyNodes => "more nodes than wire numbers".to_owned(),
            ValidationError::InvalidNode(index) => between(
                "node ",
                decimal(index as u128).as_str(),
                " reads an unsuitable net",
            ),
            ValidationError::InvalidPort(index) => between(
                "port ",
                decimal(index as u128).as_str(),
                " is malformed",
            ),
            ValidationError::InvalidRegister(index) => between(
                "register ",
                decimal(index as u128).as_str(),
                " is malformed",
            ),
            ValidationError::InvalidMemory(index) => between(
                "memory ",
                decimal(index as u128).as_str(),
                " is malformed",
            ),
            ValidationError::InvalidArithmetic(index) => between(
                "arithmetic cell ",
                decimal(index as u128).as_str(),
                " is malformed",
            ),
            ValidationError::InvalidComparison(index) => between(
                "comparison ",
                decimal(index as u128).as_str(),
                " is malformed",
            ),
            ValidationError::UnconnectedNode(index) => between(
                "node ",
                decimal(index as u128).as_str(),
                " is not connected",
            ),
        }
    }
}

/// A port with the wrong direction, in words.
pub open spec fn direction_message(
    kind: Seq<char>,
    port: Seq<char>,
    actual: PortDirection,
    expected: PortDirection,
) -> Seq<char> {
    kind + port + "` has direction "@ + direction_text(actual) + ", expected "@ + direction_text(
        expected,
    )
}

fn write_direction(
    kind: &str,
    port: &String,
    actual: PortDirection,
    expected: PortDirection,
) -> (text: String)
    ensures
        text@ == direction_message(kind@, port@, actual, expected),
{
    let mut text = between(kind, port.as_str(), "` has direction ");
    text.append(direction_name(actual));
    text.append(", expected ");
    text.append(direction_name(expected));
    text
}

/// A port that should be one bit wide, in words.
pub open spec fn width_message(kind: Seq<char>, port: Seq<char>, width: nat) -> Seq<char> {
    kind + port + "` has width "@ + decimal_text(width) + ", expected a scalar port"@
}

fn write_width(kind: &str, port: &String, width: usize) -> (text: String)
    ensures
        text@ == width_message(kind@, port@, width as nat),
{
    let mut text = between(kind, port.as_str(), "` has width ");
    text.append(decimal(width as u128).as_str());
    text.append(", expected a scalar port");
    text
}

/// A memory that does not fit a primitive, in words.
pub open spec fn geometry_message(
    memory: Seq<char>,
    depth: nat,
    width: nat,
    primitive: Seq<char>,
) -> Seq<char> {
    "memory "@ + memory + " ("@ + decimal_text(depth) + "x"@ + decimal_text(width)
        + ") cannot be mapped to ECP5 "@ + primitive
}

fn write_geometry(memory: &String, depth: u32, width: usize, primitive: &str) -> (text: String)
    ensures
        text@ == geometry_message(memory@, depth as nat, width as nat, primitive@),
{
    let mut text = between("memory ", memory.as_str(), " (");
    text.append(decimal(depth as u128).as_str());
    text.append("x");
    text.append(decimal(width as u128).as_str());
    text.append(") cannot be mapped to ECP5 ");
    text.append(primitive);
    text
}

/// What a mapping failure says.
pub open spec fn mapping_message(fault: MappingFault) -> Seq<char> {
    match fault {
        MappingFault::InvalidNetlist(error) => "invalid netlist: "@ + validation_text(error),
        MappingFault::InvalidTimingConstraint(message) => "invalid timing constraint: "@ + message,
        MappingFault::InvalidOocConstraint(message) => "invalid OOC timing constraint: "@ + message,
        MappingFault::TimingPortNotFound(port) => "I/O timing port `"@ + port
            + "` was not found"@,
        MappingFault::TimingPortDirection { port, expected, actual } => direction_message(
            "I/O timing port `"@,
            port,
            actual,
            expected,
        ),
        MappingFault::UnsupportedMemoryGeometry { memory, depth, width } => geometry_message(
            memory,
            depth as nat,
            width as nat,
            "DP16KD primitives"@,
        ),
        MappingFault::UnsupportedMemoryStyle { memory, style, read_latency } => "memory "@ + memory
            + " requests "@ + style_text(style) + " RAM with unsupported read latency "@
            + decimal_text(read_latency as nat),
        MappingFault::UnsupportedDistributedMemoryGeometry { memory, depth, width } =>
            geometry_message(memory, depth as nat, width as nat, "TRELLIS_DPR16X4 primitives"@),
        MappingFault::UnsupportedTrueDualPortAddresses { memory, port } =>
            "true-dual-port memory "@ + memory
            + " uses different read and write addresses on DP16KD port "@ + (if port == 'A' {
            "A"@
        } else {
            "B"@
        }),
        MappingFault::IoPortNotFound(port) => "open-drain I/O port `"@ + port
            + "` was not found"@,
        MappingFault::IoPortAlreadyExists(port) => "open-drain physical port `"@ + port
            + "` already exists"@,
        MappingFault::IoPortsMustDiffer { input, drive_low } => "open-drain input `"@ + input
            + "` and drive-low output `"@ + drive_low + "` must be different ports"@,
        MappingFault::IoPortDirection { port, expected, actual } => direction_message(
            "open-drain port `"@,
            port,
            actual,
            expected,
        ),
        MappingFault::IoPortNotScalar { port, width } => width_message(
            "open-drain port `"@,
            port,
            width as nat,
        ),
        MappingFault::IoInputIsConstant(port) => "open-drain input port `"@ + port
            + "` is a constant rather than a mapped wire"@,
        MappingFault::MappedWireOverflow =>
            "mapped wire number overflow while inserting a target primitive"@,
        MappingFault::JtaggAlreadyBound => "the ECP5 netlist already contains a JTAGG primitive"@,
        MappingFault::JtaggPortNotFound(port) => "JTAGG fabric port `"@ + port
            + "` was not found"@,
        MappingFault::JtaggPortRepeated(port) => "JTAGG fabric port `"@ + port
            + "` is assigned more than once"@,
        MappingFault::JtaggPortDirection { port, expected, actual } => direction_message(
            "JTAGG fabric port `"@,
            port,
            actual,
            expected,
        ),
        MappingFault::JtaggPortNotScalar { port, width } => width_message(
            "JTAGG fabric port `"@,
            port,
            width as nat,
        ),
        MappingFault::JtaggOutputIsConstant(port) => "JTAGG output port `"@ + port
            + "` is a constant rather than a mapped wire"@,
        MappingFault::PllPortNotFound(port) => "PLL boundary port `"@ + port
            + "` was not found"@,
        MappingFault::PllPortRepeated(port) => "PLL boundary port `"@ + port
            + "` is assigned more than once"@,
        MappingFault::PllPortDirection { port, actual } => direction_message(
            "PLL boundary port `"@,
            port,
            actual,
            PortDirection::Input,
        ),
        MappingFault::PllPortNotScalar { port, width } => width_message(
            "PLL boundary port `"@,
            port,
            width as nat,
        ),
        MappingFault::PllOutputIsConstant(port) => "PLL output port `"@ + port
            + "` is a constant rather than a mapped wire"@,
    }
}

impl MappingError {
    /// What the failure says.
    pub fn message(&self) -> (text: String)
        ensures
            text@ == mapping_message(self@),
    {
        match self {
            MappingError::InvalidNetlist(error) => {
                let mut text = "invalid netlist: ".to_owned();
                text.append(error.message().as_str());
                text
            },
            MappingError::InvalidTimingConstraint(message) => {
                let mut text = "invalid timing constraint: ".to_owned();
                text.append(message.as_str());
                text
            },
            MappingError::InvalidOocConstraint(message) => {
                let mut text = "invalid OOC timing constraint: ".to_owned();
                text.append(message.as_str());
                text
            },
            MappingError::TimingPortNotFound(port) => between(
                "I/O timing port `",
                port.as_str(),
                "` was not found",
            ),
            MappingError::TimingPortDirection { port, expected, actual } => write_direction(
                "I/O timing port `",
                port,
                *actual,
                *expected,
            ),
            MappingError::UnsupportedMemoryGeometry { memory, depth, width } => write_geometry(
                memory,
                *depth,
                *width,
                "DP16KD primitives",
            ),
            MappingError::UnsupportedMemoryStyle { memory, style, read_latency } => {
                let mut text = between("memory ", memory.as_str(), " requests ");
                text.append(style_name(*style));
                text.append(" RAM with unsupported read latency ");
                text.append(decimal(*read_latency as u128).as_str());
                text
            },
            MappingError::UnsupportedDistributedMemoryGeometry { memory, depth, width } =>
                write_geometry(memory, *depth, *width, "TRELLIS_DPR16X4 primitives"),
            MappingError::UnsupportedTrueDualPortAddresses { memory, port } => {
                let mut text = between(
                    "true-dual-port memory ",
                    memory.as_str(),
                    " uses different read and write addresses on DP16KD port ",
                );
                text.append(
                    if *port == 'A' {
                        "A"
                    } else {
                        "B"
                    },
                );
                text
            },
            MappingError::IoPortNotFound(port) => between(
                "open-drain I/O port `",
                port.as_str(),
                "` was not found",
            ),
            MappingError::IoPortAlreadyExists(port) => between(
                "open-drain physical port `",
                port.as_str(),
                "` already exists",
            ),
            MappingError::IoPortsMustDiffer { input, drive_low } => {
                let mut text = between(
                    "open-drain input `",
                    input.as_str(),
                    "` and drive-low output `",
                );
                text.append(drive_low.as_str());
                text.append("` must be different ports");
                text
            },
            MappingError::IoPortDirection { port, expected, actual } => write_direction(
                "open-drain port `",
                port,
                *actual,
                *expected,
            ),
            MappingError::IoPortNotScalar { port, width } => write_width(
                "open-drain port `",
                port,
                *width,
            ),
            MappingError::IoInputIsConstant(port) => between(
                "open-drain input port `",
                port.as_str(),
                "` is a constant rather than a mapped wire",
            ),
            MappingError::MappedWireOverflow =>
                "mapped wire number overflow while inserting a target primitive".to_owned(),
            MappingError::JtaggAlreadyBound =>
                "the ECP5 netlist already contains a JTAGG primitive".to_owned(),
            MappingError::JtaggPortNotFound(port) => between(
                "JTAGG fabric port `",
                port.as_str(),
                "` was not found",
            ),
            MappingError::JtaggPortRepeated(port) => between(
                "JTAGG fabric port `",
                port.as_str(),
                "` is assigned more than once",
            ),
            MappingError::JtaggPortDirection { port, expected, actual } => write_direction(
                "JTAGG fabric port `",
                port,
                *actual,
                *expected,
            ),
            MappingError::JtaggPortNotScalar { port, width } => write_width(
                "JTAGG fabric port `",
                port,
                *width,
            ),
            MappingError::JtaggOutputIsConstant(port) => between(
                "JTAGG output port `",
                port.as_str(),
                "` is a constant rather than a mapped wire",
            ),
            MappingError::PllPortNotFound(port) => between(
                "PLL boundary port `",
                port.as_str(),
                "` was not found",
            ),
            MappingError::PllPortRepeated(port) => between(
                "PLL boundary port `",
                port.as_str(),
                "` is assigned more than once",
            ),
            MappingError::PllPortDirection { port, actual } => write_direction(
                "PLL boundary port `",
                port,
                *actual,
                PortDirection::Input,
            ),
            MappingError::PllPortNotScalar { port, width } => write_width(
                "PLL boundary port `",
                port,
                *width,
            ),
            MappingError::PllOutputIsConstant(port) => between(
                "PLL output port `",
                port.as_str(),
                "` is a constant rather than a mapped wire",
            ),
        }
    }
}

} // verus!
