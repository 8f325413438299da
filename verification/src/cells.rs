//! Mapped ECP5 primitives and the wires they read and drive.

use vstd::prelude::*;

use crate::names::NameMap;
use crate::names::text_entries;

verus! {

/// Logical assertion level of a control signal.
#[derive(Clone, Copy, Debug, Eq, Hash, PartialEq, Structural)]
pub enum ActiveLevel {
    /// Asserted at one.
    High,
    /// Asserted at zero.
    Low,
}

/// Active clock edge.
#[derive(Clone, Copy, Debug, Eq, Hash, PartialEq, Structural)]
pub enum ClockEdge {
    /// Zero-to-one transition.
    Rising,
    /// One-to-zero transition.
    Falling,
}

/// A constant or numbered wire in a mapped ECP5 design.
#[derive(Clone, Copy, Debug, Eq, Hash, PartialEq, Structural)]
pub enum Bit {
    /// Constant zero.
    Zero,
    /// Constant one.
    One,
    /// A numbered Yosys/nextpnr wire.
    Wire(u32),
}

/// Direction of a physical port.
#[derive(Clone, Copy, Debug, Eq, PartialEq, Structural)]
pub enum PortDirection {
    /// FPGA input.
    Input,
    /// FPGA output.
    Output,
    /// Bidirectional FPGA pad.
    Inout,
}

/// One physical port with bits stored least-significant first.
#[derive(Debug, Eq, PartialEq)]
pub struct MappedPort {
    /// Port name used by the LPF constraint file.
    pub name: String,
    /// Port direction.
    pub direction: PortDirection,
    /// Connected mapped bits, least-significant first.
    pub bits: Vec<Bit>,
}

/// One clock output of an ECP5 `EHXPLLL` primitive.
#[derive(Clone, Copy, Debug, Eq, Hash, PartialEq, Structural)]
pub enum PllOutput {
    /// Dedicated internal feedback output (`CLKINTFB`).
    Clkintfb,
    /// Primary output (`CLKOP`).
    Clkop,
    /// Secondary output (`CLKOS`).
    Clkos,
    /// Secondary output two (`CLKOS2`).
    Clkos2,
    /// Secondary output three (`CLKOS3`).
    Clkos3,
}

/// Control input and its assertion level.
#[derive(Clone, Copy, Debug, Eq, PartialEq, Structural)]
pub struct Control {
    /// Control signal.
    pub signal: Bit,
    /// Logical assertion level.
    pub active: ActiveLevel,
}

/// Reset behavior retained by a mapped flip-flop.
#[derive(Clone, Copy, Debug, Eq, PartialEq, Structural)]
pub struct Reset {
    /// Reset signal.
    pub signal: Bit,
    /// Logical assertion level.
    pub active: ActiveLevel,
    /// Whether reset is asynchronous.
    pub asynchronous: bool,
    /// State loaded on reset.
    pub value: bool,
}

/// Physical ECP5 memory primitive selected by mapping.
#[derive(Clone, Copy, Debug, Eq, PartialEq, Structural)]
pub enum Ecp5MemoryImplementation {
    /// Embedded 18-Kibit `DP16KD` block RAM.
    Block,
    /// LUT-based `TRELLIS_DPR16X4` distributed RAM.
    Distributed,
}

/// Connections for a second true-dual-port ECP5 block-RAM port.
#[derive(Debug, Eq, PartialEq)]
pub struct BlockRamPort {
    /// Fourteen physical address pins shared by reads and writes.
    pub address: Box<[Bit; 14]>,
    /// Logical write-data bits, least-significant first.
    pub write_data: Vec<Bit>,
    /// Write enable.
    pub write_enable: Control,
    /// Logical read-data output wires, least-significant first.
    pub read_data: Vec<u32>,
    /// Optional read clock enable.
    pub read_enable: Option<Control>,
    /// Physical port clock enable, including both reads and writes.
    pub clock_enable: Option<Control>,
    /// Port clock.
    pub clock: Bit,
    /// Active clock edge.
    pub edge: ClockEdge,
}

/// A physical ECP5 primitive.
#[allow(inconsistent_fields)]
#[derive(Debug, Eq, PartialEq)]
pub enum Ecp5Cell {
    /// Four-input lookup table. Input A is the least-significant INIT index bit.
    Lut4 {
        /// Stable cell name.
        name: String,
        /// A, B, C, and D inputs.
        inputs: [Bit; 4],
        /// LUT output wire.
        output: u32,
        /// Complete LUT truth table.
        init: u16,
    },
    /// Dedicated mux combining the outputs of two LUT4s into a LUT5-class path.
    PfuMux {
        /// Stable cell name.
        name: String,
        /// Value selected when `select` is one.
        lut_true: Bit,
        /// Value selected when `select` is zero.
        lut_false: Bit,
        /// Routed select input.
        select: Bit,
        /// Dedicated mux output wire.
        output: u32,
    },
    /// Dedicated mux combining two PFUMX outputs into a LUT6-class path.
    L6Mux21 {
        /// Stable cell name.
        name: String,
        /// Value selected when `select` is zero.
        data_zero: Bit,
        /// Value selected when `select` is one.
        data_one: Bit,
        /// Routed select input.
        select: Bit,
        /// Dedicated mux output wire.
        output: u32,
    },
    /// Two ECP5 LUT/carry slices connected through the dedicated carry path.
    Ccu2c {
        /// Stable cell name.
        name: String,
        /// A, B, C, and D inputs for each of the two slices.
        inputs: [[Bit; 4]; 2],
        /// Dedicated carry-chain input.
        carry_in: Bit,
        /// Sum output wires for the two slices.
        sums: [u32; 2],
        /// Dedicated carry-chain output wire.
        carry_out: u32,
        /// LUT truth tables for the two slices.
        init: [u16; 2],
        /// Whether each slice suppresses its incoming carry.
        inject: [bool; 2],
    },
    /// ECP5 slice flip-flop.
    FlipFlop {
        /// Stable cell name.
        name: String,
        /// D input.
        data: Bit,
        /// Q output wire.
        output: u32,
        /// Clock input.
        clock: Bit,
        /// Active clock edge.
        edge: ClockEdge,
        /// Optional clock enable.
        enable: Option<Control>,
        /// Optional local set/reset.
        reset: Option<Reset>,
    },
    /// One ECP5 physical RAM tile (`DP16KD` or `TRELLIS_DPR16X4`).
    BlockRam {
        /// Stable cell name.
        name: String,
        /// Physical RAM primitive family.
        implementation: Ecp5MemoryImplementation,
        /// Logical number of words represented by this physical tile.
        depth: u32,
        /// Logical word width.
        word_width: u8,
        /// Configured physical port width.
        physical_width: u8,
        /// Fourteen physical write-address pins.
        write_address: Box<[Bit; 14]>,
        /// Logical write-data bits, least-significant first.
        write_data: Vec<Bit>,
        /// Write enable.
        write_enable: Control,
        /// Fourteen physical read-address pins.
        read_address: Box<[Bit; 14]>,
        /// Logical read-data output wires, least-significant first.
        read_data: Vec<u32>,
        /// Optional read clock enable.
        read_enable: Option<Control>,
        /// Physical first-port clock enable. For a true-dual-port RAM this
        /// asserts when either the read or write operation is enabled.
        clock_enable: Option<Control>,
        /// First-port clock.
        clock: Bit,
        /// First-port active clock edge.
        edge: ClockEdge,
        /// Optional second independently clocked read/write port.
        second_port: Option<BlockRamPort>,
    },
    /// Bidirectional ECP5 I/O buffer.
    TrellisIo {
        /// Stable cell name.
        name: String,
        /// Wire shared with the physical top-level pad.
        pad: u32,
        /// Value driven from the FPGA fabric toward the pad.
        fabric_output: Bit,
        /// Wire carrying the observed pad value into the FPGA fabric.
        fabric_input: u32,
        /// Active-high high-impedance control.
        tristate: Bit,
    },
    /// Dedicated ECP5 JTAG TAP access block.
    Jtagg {
        /// Stable cell name.
        name: String,
        /// Fabric data returned by extension registers one and two.
        tdo: [Bit; 2],
        /// Registered data received from the external TAP.
        tdi: u32,
        /// Clock exported by the external TAP.
        clock: u32,
        /// Run-test/idle indications for extension registers one and two.
        run_test_idle: [u32; 2],
        /// Shift-DR indication.
        shift: u32,
        /// Update-DR indication.
        update: u32,
        /// Active-low TAP reset indication.
        reset_n: u32,
        /// Extension-register clock enables.
        clock_enable: [u32; 2],
        /// Whether extension register one is present.
        extension_register_1: bool,
        /// Whether extension register two is present.
        extension_register_2: bool,
    },
    /// User-configured ECP5 phase-locked loop.
    Pll {
        /// Stable cell name.
        name: String,
        /// Physical reference-clock input.
        reference_clock: Bit,
        /// Internal feedback output wire.
        feedback_clock: u32,
        /// Fabric clock output wire.
        output_clock: u32,
        /// Other PLL outputs routed into logical fabric clock ports.
        additional_output_clocks: Vec<(PllOutput, u32)>,
        /// Lock indication output wire.
        locked: u32,
        /// PLL output routed into the core.
        fabric_output: PllOutput,
        /// PLL output looped back to `CLKFB`.
        feedback_output: PllOutput,
        /// Raw primitive parameters.
        parameters: NameMap<String>,
        /// Raw primitive attributes.
        attributes: NameMap<String>,
    },
}

/// What a [`MappedPort`] holds.
#[verifier::ext_equal]
pub struct PortModel {
    pub name: Seq<char>,
    pub direction: PortDirection,
    pub bits: Seq<Bit>,
}

impl View for MappedPort {
    type V = PortModel;

    open spec fn view(&self) -> PortModel {
        PortModel { name: self.name@, direction: self.direction, bits: self.bits@ }
    }
}

/// What a [`BlockRamPort`] holds.
#[verifier::ext_equal]
pub struct RamPortModel {
    pub address: [Bit; 14],
    pub write_data: Seq<Bit>,
    pub write_enable: Control,
    pub read_data: Seq<u32>,
    pub read_enable: Option<Control>,
    pub clock_enable: Option<Control>,
    pub clock: Bit,
    pub edge: ClockEdge,
}

impl View for BlockRamPort {
    type V = RamPortModel;

    open spec fn view(&self) -> RamPortModel {
        RamPortModel {
            address: *self.address,
            write_data: self.write_data@,
            write_enable: self.write_enable,
            read_data: self.read_data@,
            read_enable: self.read_enable,
            clock_enable: self.clock_enable,
            clock: self.clock,
            edge: self.edge,
        }
    }
}

/// What an [`Ecp5Cell`] holds, with texts and vectors as sequences.
#[allow(inconsistent_fields)]
#[verifier::ext_equal]
pub enum CellModel {
    Lut4 { name: Seq<char>, inputs: [Bit; 4], output: u32, init: u16 },
    PfuMux { name: Seq<char>, lut_true: Bit, lut_false: Bit, select: Bit, output: u32 },
    L6Mux21 { name: Seq<char>, data_zero: Bit, data_one: Bit, select: Bit, output: u32 },
    Ccu2c {
        name: Seq<char>,
        inputs: [[Bit; 4]; 2],
        carry_in: Bit,
        sums: [u32; 2],
        carry_out: u32,
        init: [u16; 2],
        inject: [bool; 2],
    },
    FlipFlop {
        name: Seq<char>,
        data: Bit,
        output: u32,
        clock: Bit,
        edge: ClockEdge,
        enable: Option<Control>,
        reset: Option<Reset>,
    },
    BlockRam {
        name: Seq<char>,
        implementation: Ecp5MemoryImplementation,
        depth: u32,
        word_width: u8,
        physical_width: u8,
        write_address: [Bit; 14],
        write_data: Seq<Bit>,
        write_enable: Control,
        read_address: [Bit; 14],
        read_data: Seq<u32>,
        read_enable: Option<Control>,
        clock_enable: Option<Control>,
        clock: Bit,
        edge: ClockEdge,
        second_port: Option<RamPortModel>,
    },
    TrellisIo { name: Seq<char>, pad: u32, fabric_output: Bit, fabric_input: u32, tristate: Bit },
    Jtagg {
        name: Seq<char>,
        tdo: [Bit; 2],
        tdi: u32,
        clock: u32,
        run_test_idle: [u32; 2],
        shift: u32,
        update: u32,
        reset_n: u32,
        clock_enable: [u32; 2],
        extension_register_1: bool,
        extension_register_2: bool,
    },
    Pll {
        name: Seq<char>,
        reference_clock: Bit,
        feedback_clock: u32,
        output_clock: u32,
        additional_output_clocks: Seq<(PllOutput, u32)>,
        locked: u32,
        fabric_output: PllOutput,
        feedback_output: PllOutput,
        parameters: Seq<(Seq<char>, Seq<char>)>,
        attributes: Seq<(Seq<char>, Seq<char>)>,
    },
}

/// The model of an optional second RAM port.
pub open spec fn ram_port_model(port: Option<BlockRamPort>) -> Option<RamPortModel> {
    match port {
        Some(port) => Some(port@),
        None => None,
    }
}

impl View for Ecp5Cell {
    type V = CellModel;

    open spec fn view(&self) -> CellModel {
        match *self {
            Ecp5Cell::Lut4 { name, inputs, output, init } => CellModel::Lut4 {
                name: name@,
                inputs,
                output,
                init,
            },
            Ecp5Cell::PfuMux { name, lut_true, lut_false, select, output } => CellModel::PfuMux {
                name: name@,
                lut_true,
                lut_false,
                select,
                output,
            },
            Ecp5Cell::L6Mux21 { name, data_zero, data_one, select, output } => CellModel::L6Mux21 {
                name: name@,
                data_zero,
                data_one,
                select,
                output,
            },
            Ecp5Cell::Ccu2c { name, inputs, carry_in, sums, carry_out, init, inject } =>
                CellModel::Ccu2c { name: name@, inputs, carry_in, sums, carry_out, init, inject },
            Ecp5Cell::FlipFlop { name, data, output, clock, edge, enable, reset } =>
                CellModel::FlipFlop { name: name@, data, output, clock, edge, enable, reset },
            Ecp5Cell::BlockRam {
                name,
                implementation,
                depth,
                word_width,
                physical_width,
                write_address,
                write_data,
                write_enable,
                read_address,
                read_data,
                read_enable,
                clock_enable,
                clock,
                edge,
                second_port,
            } => CellModel::BlockRam {
                name: name@,
                implementation,
                depth,
                word_width,
                physical_width,
                write_address: *write_address,
                write_data: write_data@,
                write_enable,
                read_address: *read_address,
                read_data: read_data@,
                read_enable,
                clock_enable,
                clock,
                edge,
                second_port: ram_port_model(second_port),
            },
            Ecp5Cell::TrellisIo { name, pad, fabric_output, fabric_input, tristate } =>
                CellModel::TrellisIo { name: name@, pad, fabric_output, fabric_input, tristate },
            Ecp5Cell::Jtagg {
                name,
                tdo,
                tdi,
                clock,
                run_test_idle,
                shift,
                update,
                reset_n,
                clock_enable,
                extension_register_1,
                extension_register_2,
            } => CellModel::Jtagg {
                name: name@,
                tdo,
                tdi,
                clock,
                run_test_idle,
                shift,
                update,
                reset_n,
                clock_enable,
                extension_register_1,
                extension_register_2,
            },
            Ecp5Cell::Pll {
                name,
                reference_clock,
                feedback_clock,
                output_clock,
                additional_output_clocks,
                locked,
                fabric_output,
                feedback_output,
                parameters,
                attributes,
            } => CellModel::Pll {
                name: name@,
                reference_clock,
                feedback_clock,
                output_clock,
                additional_output_clocks: additional_output_clocks@,
                locked,
                fabric_output,
                feedback_output,
                parameters: text_entries(parameters),
                attributes: text_entries(attributes),
            },
        }
    }
}

impl CellModel {
    /// The cell's name.
    pub open spec fn cell_name(self) -> Seq<char> {
        match self {
            CellModel::Lut4 { name, .. } => name,
            CellModel::PfuMux { name, .. } => name,
            CellModel::L6Mux21 { name, .. } => name,
            CellModel::Ccu2c { name, .. } => name,
            CellModel::FlipFlop { name, .. } => name,
            CellModel::BlockRam { name, .. } => name,
            CellModel::TrellisIo { name, .. } => name,
            CellModel::Jtagg { name, .. } => name,
            CellModel::Pll { name, .. } => name,
        }
    }
}

/// The bit that an optional control reads.
pub open spec fn control_bits(control: Option<Control>) -> Seq<Bit> {
    match control {
        Some(control) => seq![control.signal],
        None => seq![],
    }
}

/// The bit that an optional reset reads.
pub open spec fn reset_bits(reset: Option<Reset>) -> Seq<Bit> {
    match reset {
        Some(reset) => seq![reset.signal],
        None => seq![],
    }
}

/// The bits that an optional second RAM port reads.
pub open spec fn ram_port_inputs(port: Option<RamPortModel>) -> Seq<Bit> {
    match port {
        Some(port) => port.address@ + port.write_data + seq![port.write_enable.signal, port.clock]
            + control_bits(port.read_enable) + control_bits(port.clock_enable),
        None => seq![],
    }
}

/// Every bit that a cell reads, one entry for each pin.
pub open spec fn cell_inputs(cell: CellModel) -> Seq<Bit> {
    match cell {
        CellModel::Lut4 { inputs, .. } => inputs@,
        CellModel::PfuMux { lut_true, lut_false, select, .. } => seq![lut_true, lut_false, select],
        CellModel::L6Mux21 { data_zero, data_one, select, .. } => seq![data_zero, data_one, select],
        CellModel::Ccu2c { inputs, carry_in, .. } => inputs[0]@ + inputs[1]@ + seq![carry_in],
        CellModel::FlipFlop { data, clock, enable, reset, .. } => seq![data, clock]
            + control_bits(enable) + reset_bits(reset),
        CellModel::BlockRam {
            write_address,
            write_data,
            write_enable,
            read_address,
            read_enable,
            clock_enable,
            clock,
            second_port,
            ..
        } => write_address@ + write_data + read_address@ + seq![write_enable.signal, clock]
            + control_bits(read_enable) + control_bits(clock_enable) + ram_port_inputs(second_port),
        CellModel::TrellisIo { fabric_output, tristate, .. } => seq![fabric_output, tristate],
        CellModel::Jtagg { tdo, .. } => tdo@,
        CellModel::Pll { reference_clock, feedback_clock, .. } => seq![
            reference_clock,
            Bit::Wire(feedback_clock),
        ],
    }
}

/// Wires as bits.
pub open spec fn wire_bits(wires: Seq<u32>) -> Seq<Bit> {
    Seq::new(wires.len(), |i: int| Bit::Wire(wires[i]))
}

/// The wires of the additional PLL outputs, as bits.
pub open spec fn pll_wire_bits(outputs: Seq<(PllOutput, u32)>) -> Seq<Bit> {
    Seq::new(outputs.len(), |i: int| Bit::Wire(outputs[i].1))
}

/// The bits that an optional second RAM port drives.
pub open spec fn ram_port_outputs(port: Option<RamPortModel>) -> Seq<Bit> {
    match port {
        Some(port) => wire_bits(port.read_data),
        None => seq![],
    }
}

/// Every bit that a cell drives.
pub open spec fn cell_outputs(cell: CellModel) -> Seq<Bit> {
    match cell {
        CellModel::Lut4 { output, .. } => seq![Bit::Wire(output)],
        CellModel::PfuMux { output, .. } => seq![Bit::Wire(output)],
        CellModel::L6Mux21 { output, .. } => seq![Bit::Wire(output)],
        CellModel::FlipFlop { output, .. } => seq![Bit::Wire(output)],
        CellModel::Ccu2c { sums, carry_out, .. } => seq![
            Bit::Wire(sums[0]),
            Bit::Wire(sums[1]),
            Bit::Wire(carry_out),
        ],
        CellModel::BlockRam { read_data, second_port, .. } => wire_bits(read_data)
            + ram_port_outputs(second_port),
        CellModel::TrellisIo { fabric_input, .. } => seq![Bit::Wire(fabric_input)],
        CellModel::Jtagg { tdi, clock, run_test_idle, shift, update, reset_n, clock_enable, .. } =>
            seq![
                Bit::Wire(tdi),
                Bit::Wire(clock),
                Bit::Wire(shift),
                Bit::Wire(update),
                Bit::Wire(reset_n),
                Bit::Wire(run_test_idle[0]),
                Bit::Wire(run_test_idle[1]),
                Bit::Wire(clock_enable[0]),
                Bit::Wire(clock_enable[1]),
            ],
        CellModel::Pll {
            feedback_clock,
            output_clock,
            additional_output_clocks,
            locked,
            ..
        } => seq![Bit::Wire(output_clock), Bit::Wire(locked)] + pll_wire_bits(
            additional_output_clocks,
        ) + if feedback_clock != output_clock {
            seq![Bit::Wire(feedback_clock)]
        } else {
            seq![]
        },
    }
}

/// The cell's name.
pub fn mapped_cell_name(cell: &Ecp5Cell) -> (name: &String)
    ensures
        name@ == cell@.cell_name(),
{
    match cell {
        Ecp5Cell::Lut4 { name, .. } => name,
        Ecp5Cell::PfuMux { name, .. } => name,
        Ecp5Cell::L6Mux21 { name, .. } => name,
        Ecp5Cell::Ccu2c { name, .. } => name,
        Ecp5Cell::FlipFlop { name, .. } => name,
        Ecp5Cell::BlockRam { name, .. } => name,
        Ecp5Cell::TrellisIo { name, .. } => name,
        Ecp5Cell::Jtagg { name, .. } => name,
        Ecp5Cell::Pll { name, .. } => name,
    }
}

fn extend_bits(out: &mut Vec<Bit>, bits: &[Bit])
    ensures
        final(out)@ == old(out)@ + bits@,
{
    let ghost before = out@;
    for i in 0..bits.len()
        invariant
            out@ == before + bits@.take(i as int),
    {
        out.push(bits[i]);
        assert(out@ =~= before + bits@.take(i + 1));
    }
    assert(bits@.take(bits@.len() as int) =~= bits@);
}

fn extend_wires(out: &mut Vec<Bit>, wires: &[u32])
    ensures
        final(out)@ == old(out)@ + wire_bits(wires@),
{
    let ghost before = out@;
    for i in 0..wires.len()
        invariant
            out@ == before + wire_bits(wires@.take(i as int)),
    {
        out.push(Bit::Wire(wires[i]));
        assert(out@ =~= before + wire_bits(wires@.take(i + 1)));
    }
    assert(wires@.take(wires@.len() as int) =~= wires@);
}

fn extend_control(out: &mut Vec<Bit>, control: &Option<Control>)
    ensures
        final(out)@ == old(out)@ + control_bits(*control),
{
    if let Some(control) = control {
        out.push(control.signal);
    }
    assert(out@ =~= old(out)@ + control_bits(*control));
}

fn extend_ram_port(out: &mut Vec<Bit>, port: &Option<BlockRamPort>)
    ensures
        final(out)@ == old(out)@ + ram_port_inputs(ram_port_model(*port)),
{
    if let Some(port) = port {
        extend_bits(out, port.address.as_slice());
        extend_bits(out, port.write_data.as_slice());
        out.push(port.write_enable.signal);
        out.push(port.clock);
        extend_control(out, &port.read_enable);
        extend_control(out, &port.clock_enable);
    }
    assert(out@ =~= old(out)@ + ram_port_inputs(ram_port_model(*port)));
}

/// Every bit that a cell reads, one entry for each pin.
pub fn cell_input_bits(cell: &Ecp5Cell) -> (bits: Vec<Bit>)
    ensures
        bits@ == cell_inputs(cell@),
{
    let mut bits: Vec<Bit> = Vec::new();
    match cell {
        Ecp5Cell::Lut4 { inputs, .. } => {
            extend_bits(&mut bits, inputs.as_slice());
        },
        Ecp5Cell::PfuMux { lut_true, lut_false, select, .. } => {
            bits.push(*lut_true);
            bits.push(*lut_false);
            bits.push(*select);
        },
        Ecp5Cell::L6Mux21 { data_zero, data_one, select, .. } => {
            bits.push(*data_zero);
            bits.push(*data_one);
            bits.push(*select);
        },
        Ecp5Cell::Ccu2c { inputs, carry_in, .. } => {
            extend_bits(&mut bits, inputs[0].as_slice());
            extend_bits(&mut bits, inputs[1].as_slice());
            bits.push(*carry_in);
        },
        Ecp5Cell::FlipFlop { data, clock, enable, reset, .. } => {
            bits.push(*data);
            bits.push(*clock);
            extend_control(&mut bits, enable);
            if let Some(reset) = reset {
                bits.push(reset.signal);
            }
        },
        Ecp5Cell::BlockRam {
            write_address,
            write_data,
            write_enable,
            read_address,
            read_enable,
            clock_enable,
            clock,
            second_port,
            ..
        } => {
            extend_bits(&mut bits, write_address.as_slice());
            extend_bits(&mut bits, write_data.as_slice());
            extend_bits(&mut bits, read_address.as_slice());
            bits.push(write_enable.signal);
            bits.push(*clock);
            extend_control(&mut bits, read_enable);
            extend_control(&mut bits, clock_enable);
            let ghost own = write_address@ + write_data@ + read_address@ + seq![
                write_enable.signal,
                *clock,
            ] + control_bits(*read_enable) + control_bits(*clock_enable);
            assert(bits@ =~= own);
            extend_ram_port(&mut bits, second_port);
            assert(bits@ == own + ram_port_inputs(ram_port_model(*second_port)));
            return bits;
        },
        Ecp5Cell::TrellisIo { fabric_output, tristate, .. } => {
            bits.push(*fabric_output);
            bits.push(*tristate);
        },
        Ecp5Cell::Jtagg { tdo, .. } => {
            extend_bits(&mut bits, tdo.as_slice());
        },
        Ecp5Cell::Pll { reference_clock, feedback_clock, .. } => {
            bits.push(*reference_clock);
            bits.push(Bit::Wire(*feedback_clock));
        },
    }
    assert(bits@ =~= cell_inputs(cell@));
    bits
}

/// Every bit that a cell drives.
pub fn cell_output_bits(cell: &Ecp5Cell) -> (bits: Vec<Bit>)
    ensures
        bits@ == cell_outputs(cell@),
{
    let mut bits: Vec<Bit> = Vec::new();
    match cell {
        Ecp5Cell::Lut4 { output, .. } => bits.push(Bit::Wire(*output)),
        Ecp5Cell::PfuMux { output, .. } => bits.push(Bit::Wire(*output)),
        Ecp5Cell::L6Mux21 { output, .. } => bits.push(Bit::Wire(*output)),
        Ecp5Cell::FlipFlop { output, .. } => bits.push(Bit::Wire(*output)),
        Ecp5Cell::Ccu2c { sums, carry_out, .. } => {
            bits.push(Bit::Wire(sums[0]));
            bits.push(Bit::Wire(sums[1]));
            bits.push(Bit::Wire(*carry_out));
        },
        Ecp5Cell::BlockRam { read_data, second_port, .. } => {
            extend_wires(&mut bits, read_data.as_slice());
            if let Some(port) = second_port {
                extend_wires(&mut bits, port.read_data.as_slice());
            }
        },
        Ecp5Cell::TrellisIo { fabric_input, .. } => bits.push(Bit::Wire(*fabric_input)),
        Ecp5Cell::Jtagg { tdi, clock, run_test_idle, shift, update, reset_n, clock_enable, .. } => {
            bits.push(Bit::Wire(*tdi));
            bits.push(Bit::Wire(*clock));
            bits.push(Bit::Wire(*shift));
            bits.push(Bit::Wire(*update));
            bits.push(Bit::Wire(*reset_n));
            bits.push(Bit::Wire(run_test_idle[0]));
            bits.push(Bit::Wire(run_test_idle[1]));
            bits.push(Bit::Wire(clock_enable[0]));
            bits.push(Bit::Wire(clock_enable[1]));
        },
        Ecp5Cell::Pll {
            feedback_clock,
            output_clock,
            additional_output_clocks,
            locked,
            ..
        } => {
            bits.push(Bit::Wire(*output_clock));
            bits.push(Bit::Wire(*locked));
            let ghost before = bits@;
            for i in 0..additional_output_clocks.len()
                invariant
                    bits@ == before + pll_wire_bits(additional_output_clocks@.take(i as int)),
            {
                bits.push(Bit::Wire(additional_output_clocks[i].1));
                assert(bits@ =~= before + pll_wire_bits(additional_output_clocks@.take(i + 1)));
            }
            assert(additional_output_clocks@.take(additional_output_clocks@.len() as int)
                =~= additional_output_clocks@);
            if *feedback_clock != *output_clock {
                bits.push(Bit::Wire(*feedback_clock));
            }
        },
    }
    assert(bits@ =~= cell_outputs(cell@));
    bits
}

/// `bit` with wire `from` renumbered to `to`.
pub open spec fn renumbered(bit: Bit, from: u32, to: u32) -> Bit {
    if bit == Bit::Wire(from) {
        Bit::Wire(to)
    } else {
        bit
    }
}

/// `bits` with wire `from` renumbered to `to`.
pub open spec fn renumbered_bits(bits: Seq<Bit>, from: u32, to: u32) -> Seq<Bit> {
    Seq::new(bits.len(), |i: int| renumbered(bits[i], from, to))
}

pub open spec fn renumbered_pair(bits: [Bit; 2], from: u32, to: u32) -> [Bit; 2] {
    [renumbered(bits[0], from, to), renumbered(bits[1], from, to)]
}

pub open spec fn renumbered_pins(bits: [Bit; 4], from: u32, to: u32) -> [Bit; 4] {
    [
        renumbered(bits[0], from, to),
        renumbered(bits[1], from, to),
        renumbered(bits[2], from, to),
        renumbered(bits[3], from, to),
    ]
}

pub open spec fn renumbered_address(bits: [Bit; 14], from: u32, to: u32) -> [Bit; 14] {
    [
        renumbered(bits[0], from, to),
        renumbered(bits[1], from, to),
        renumbered(bits[2], from, to),
        renumbered(bits[3], from, to),
        renumbered(bits[4], from, to),
        renumbered(bits[5], from, to),
        renumbered(bits[6], from, to),
        renumbered(bits[7], from, to),
        renumbered(bits[8], from, to),
        renumbered(bits[9], from, to),
        renumbered(bits[10], from, to),
        renumbered(bits[11], from, to),
        renumbered(bits[12], from, to),
        renumbered(bits[13], from, to),
    ]
}

pub open spec fn renumbered_control(control: Control, from: u32, to: u32) -> Control {
    Control { signal: renumbered(control.signal, from, to), ..control }
}

pub open spec fn renumbered_enable(
    control: Option<Control>,
    from: u32,
    to: u32,
) -> Option<Control> {
    match control {
        Some(control) => Some(renumbered_control(control, from, to)),
        None => None,
    }
}

pub open spec fn renumbered_reset(reset: Option<Reset>, from: u32, to: u32) -> Option<Reset> {
    match reset {
        Some(reset) => Some(Reset { signal: renumbered(reset.signal, from, to), ..reset }),
        None => None,
    }
}

pub open spec fn renumbered_ram_port(
    port: Option<RamPortModel>,
    from: u32,
    to: u32,
) -> Option<RamPortModel> {
    match port {
        Some(port) => Some(
            RamPortModel {
                address: renumbered_address(port.address, from, to),
                write_data: renumbered_bits(port.write_data, from, to),
                write_enable: renumbered_control(port.write_enable, from, to),
                read_enable: renumbered_enable(port.read_enable, from, to),
                clock_enable: renumbered_enable(port.clock_enable, from, to),
                clock: renumbered(port.clock, from, to),
                ..port
            },
        ),
        None => None,
    }
}

/// `cell` with every input that reads wire `from` reading wire `to` instead.
/// The feedback input of a PLL follows its own output and is left alone.
pub open spec fn renumbered_cell(cell: CellModel, from: u32, to: u32) -> CellModel {
    match cell {
        CellModel::Lut4 { name, inputs, output, init } => CellModel::Lut4 {
            name,
            inputs: renumbered_pins(inputs, from, to),
            output,
            init,
        },
        CellModel::PfuMux { name, lut_true, lut_false, select, output } => CellModel::PfuMux {
            name,
            lut_true: renumbered(lut_true, from, to),
            lut_false: renumbered(lut_false, from, to),
            select: renumbered(select, from, to),
            output,
        },
        CellModel::L6Mux21 { name, data_zero, data_one, select, output } => CellModel::L6Mux21 {
            name,
            data_zero: renumbered(data_zero, from, to),
            data_one: renumbered(data_one, from, to),
            select: renumbered(select, from, to),
            output,
        },
        CellModel::Ccu2c { name, inputs, carry_in, sums, carry_out, init, inject } =>
            CellModel::Ccu2c {
                name,
                inputs: [
                    renumbered_pins(inputs[0], from, to),
                    renumbered_pins(inputs[1], from, to),
                ],
                carry_in: renumbered(carry_in, from, to),
                sums,
                carry_out,
                init,
                inject,
            },
        CellModel::FlipFlop { name, data, output, clock, edge, enable, reset } =>
            CellModel::FlipFlop {
                name,
                data: renumbered(data, from, to),
                output,
                clock: renumbered(clock, from, to),
                edge,
                enable: renumbered_enable(enable, from, to),
                reset: renumbered_reset(reset, from, to),
            },
        CellModel::BlockRam {
            name,
            implementation,
            depth,
            word_width,
            physical_width,
            write_address,
            write_data,
            write_enable,
            read_address,
            read_data,
            read_enable,
            clock_enable,
            clock,
            edge,
            second_port,
        } => CellModel::BlockRam {
            name,
            implementation,
            depth,
            word_width,
            physical_width,
            write_address: renumbered_address(write_address, from, to),
            write_data: renumbered_bits(write_data, from, to),
            write_enable: renumbered_control(write_enable, from, to),
            read_address: renumbered_address(read_address, from, to),
            read_data,
            read_enable: renumbered_enable(read_enable, from, to),
            clock_enable: renumbered_enable(clock_enable, from, to),
            clock: renumbered(clock, from, to),
            edge,
            second_port: renumbered_ram_port(second_port, from, to),
        },
        CellModel::TrellisIo { name, pad, fabric_output, fabric_input, tristate } =>
            CellModel::TrellisIo {
                name,
                pad,
                fabric_output: renumbered(fabric_output, from, to),
                fabric_input,
                tristate: renumbered(tristate, from, to),
            },
        CellModel::Jtagg {
            name,
            tdo,
            tdi,
            clock,
            run_test_idle,
            shift,
            update,
            reset_n,
            clock_enable,
            extension_register_1,
            extension_register_2,
        } => CellModel::Jtagg {
            name,
            tdo: renumbered_pair(tdo, from, to),
            tdi,
            clock,
            run_test_idle,
            shift,
            update,
            reset_n,
            clock_enable,
            extension_register_1,
            extension_register_2,
        },
        CellModel::Pll {
            name,
            reference_clock,
            feedback_clock,
            output_clock,
            additional_output_clocks,
            locked,
            fabric_output,
            feedback_output,
            parameters,
            attributes,
        } => CellModel::Pll {
            name,
            reference_clock: renumbered(reference_clock, from, to),
            feedback_clock,
            output_clock,
            additional_output_clocks,
            locked,
            fabric_output,
            feedback_output,
            parameters,
            attributes,
        },
    }
}

/// The inputs of a cell that renumbering reaches.
pub open spec fn rewritable_inputs(cell: CellModel) -> Seq<Bit> {
    match cell {
        CellModel::Pll { reference_clock, .. } => seq![reference_clock],
        _ => cell_inputs(cell),
    }
}

/// How many of `bits` are wire `wire`.
pub open spec fn wire_count(bits: Seq<Bit>, wire: u32) -> nat
    decreases bits.len(),
{
    if bits.len() == 0 {
        0
    } else {
        wire_count(bits.drop_last(), wire) + if bits.last() == Bit::Wire(wire) {
            1nat
        } else {
            0
        }
    }
}

/// Counting over a concatenation adds up.
pub proof fn lemma_wire_count_concat(first: Seq<Bit>, second: Seq<Bit>, wire: u32)
    ensures
        wire_count(first + second, wire) == wire_count(first, wire) + wire_count(second, wire),
    decreases second.len(),
{
    if second.len() == 0 {
        assert(first + second =~= first);
    } else {
        assert((first + second).drop_last() =~= first + second.drop_last());
        lemma_wire_count_concat(first, second.drop_last(), wire);
    }
}

/// A wire is counted exactly when it occurs.
pub proof fn lemma_wire_count_positive(bits: Seq<Bit>, wire: u32)
    ensures
        wire_count(bits, wire) > 0 <==> bits.contains(Bit::Wire(wire)),
        wire_count(bits, wire) <= bits.len(),
    decreases bits.len(),
{
    if bits.len() > 0 {
        lemma_wire_count_positive(bits.drop_last(), wire);
        assert(bits =~= bits.drop_last().push(bits.last()));
        if bits.contains(Bit::Wire(wire)) {
            let i = choose|i: int| 0 <= i < bits.len() && bits[i] == Bit::Wire(wire);
            if i < bits.len() - 1 {
                assert(bits.drop_last()[i] == Bit::Wire(wire));
            }
        }
        if bits.drop_last().contains(Bit::Wire(wire)) {
            let i = choose|i: int|
                0 <= i < bits.len() - 1 && bits.drop_last()[i] == Bit::Wire(wire);
            assert(bits[i] == Bit::Wire(wire));
        }
    }
}

/// The largest count that fits in a `usize`, up to `count`.
pub open spec fn clamped(count: nat) -> usize {
    if count > usize::MAX {
        usize::MAX
    } else {
        count as usize
    }
}

/// Counts the bits that are wire `wire`.
pub fn count_wire(bits: &Vec<Bit>, wire: u32) -> (count: usize)
    ensures
        count == wire_count(bits@, wire),
{
    let mut count: usize = 0;
    for i in 0..bits.len()
        invariant
            count == wire_count(bits@.take(i as int), wire),
            count <= i,
    {
        assert(bits@.take(i + 1).drop_last() =~= bits@.take(i as int));
        if bits[i] == Bit::Wire(wire) {
            count = count + 1;
        }
    }
    assert(bits@.take(bits@.len() as int) =~= bits@);
    count
}

fn renumber(bit: &mut Bit, from: u32, to: u32)
    ensures
        *final(bit) == renumbered(*old(bit), from, to),
{
    if *bit == Bit::Wire(from) {
        *bit = Bit::Wire(to);
    }
}

fn renumber_array<const N: usize>(bits: &mut [Bit; N], from: u32, to: u32)
    ensures
        final(bits)@ == renumbered_bits(old(bits)@, from, to),
{
    let mut i: usize = 0;
    while i < N
        invariant
            i <= N,
            bits@.len() == N,
            forall|j: int| 0 <= j < i ==> bits@[j] == renumbered(old(bits)@[j], from, to),
            forall|j: int| i <= j < N ==> bits@[j] == old(bits)@[j],
        decreases N - i,
    {
        if bits[i] == Bit::Wire(from) {
            bits[i] = Bit::Wire(to);
        }
        i += 1;
    }
    assert(bits@ =~= renumbered_bits(old(bits)@, from, to));
}

fn renumber_vec(bits: &mut Vec<Bit>, from: u32, to: u32)
    ensures
        final(bits)@ == renumbered_bits(old(bits)@, from, to),
{
    let mut i: usize = 0;
    while i < bits.len()
        invariant
            i <= bits.len(),
            bits@.len() == old(bits)@.len(),
            forall|j: int| 0 <= j < i ==> bits@[j] == renumbered(old(bits)@[j], from, to),
            forall|j: int| i <= j < bits@.len() ==> bits@[j] == old(bits)@[j],
        decreases bits.len() - i,
    {
        if bits[i] == Bit::Wire(from) {
            bits[i] = Bit::Wire(to);
        }
        i += 1;
    }
    assert(bits@ =~= renumbered_bits(old(bits)@, from, to));
}

fn renumber_pins(bits: &mut [Bit; 4], from: u32, to: u32)
    ensures
        *final(bits) == renumbered_pins(*old(bits), from, to),
{
    renumber_array(bits, from, to);
    assert(*bits =~= renumbered_pins(*old(bits), from, to));
}

fn renumber_address(bits: &mut [Bit; 14], from: u32, to: u32)
    ensures
        *final(bits) == renumbered_address(*old(bits), from, to),
{
    renumber_array(bits, from, to);
    assert(*bits =~= renumbered_address(*old(bits), from, to));
}

fn renumber_control(control: &mut Option<Control>, from: u32, to: u32)
    ensures
        *final(control) == renumbered_enable(*old(control), from, to),
{
    if let Some(control) = control {
        renumber(&mut control.signal, from, to);
    }
}

impl BlockRamPort {
    /// Makes every input of this port that reads wire `from` read wire `to`.
    pub fn replace_input_bits(&mut self, from: u32, to: u32)
        ensures
            Some(final(self)@) == renumbered_ram_port(Some(old(self)@), from, to),
    {
        renumber_address(&mut self.address, from, to);
        renumber_vec(&mut self.write_data, from, to);
        renumber(&mut self.write_enable.signal, from, to);
        renumber_control(&mut self.read_enable, from, to);
        renumber_control(&mut self.clock_enable, from, to);
        renumber(&mut self.clock, from, to);
    }
}

/// Makes every input of `cell` that reads wire `from` read wire `to`.
pub fn replace_mapped_cell_wire_uses(cell: &mut Ecp5Cell, from: u32, to: u32)
    ensures
        final(cell)@ == renumbered_cell(old(cell)@, from, to),
{
    match cell {
        Ecp5Cell::Lut4 { inputs, .. } => {
            renumber_pins(inputs, from, to);
        },
        Ecp5Cell::PfuMux { lut_true, lut_false, select, .. } => {
            renumber(lut_true, from, to);
            renumber(lut_false, from, to);
            renumber(select, from, to);
        },
        Ecp5Cell::L6Mux21 { data_zero, data_one, select, .. } => {
            renumber(data_zero, from, to);
            renumber(data_one, from, to);
            renumber(select, from, to);
        },
        Ecp5Cell::Ccu2c { inputs, carry_in, .. } => {
            let ghost before = *inputs;
            renumber_pins(&mut inputs[0], from, to);
            renumber_pins(&mut inputs[1], from, to);
            assert(*inputs =~= [
                renumbered_pins(before[0], from, to),
                renumbered_pins(before[1], from, to),
            ]);
            renumber(carry_in, from, to);
        },
        Ecp5Cell::FlipFlop { data, clock, enable, reset, .. } => {
            renumber(data, from, to);
            renumber(clock, from, to);
            renumber_control(enable, from, to);
            if let Some(reset) = reset {
                renumber(&mut reset.signal, from, to);
            }
        },
        Ecp5Cell::BlockRam {
            write_address,
            write_data,
            write_enable,
            read_address,
            read_enable,
            clock_enable,
            clock,
            second_port,
            ..
        } => {
            renumber_address(write_address, from, to);
            renumber_vec(write_data, from, to);
            renumber_address(read_address, from, to);
            renumber(&mut write_enable.signal, from, to);
            renumber_control(read_enable, from, to);
            renumber_control(clock_enable, from, to);
            renumber(clock, from, to);
            if let Some(port) = second_port {
                port.replace_input_bits(from, to);
            }
        },
        Ecp5Cell::TrellisIo { fabric_output, tristate, .. } => {
            renumber(fabric_output, from, to);
            renumber(tristate, from, to);
        },
        Ecp5Cell::Jtagg { tdo, .. } => {
            let ghost before = *tdo;
            renumber_array(tdo, from, to);
            assert(*tdo =~= renumbered_pair(before, from, to));
        },
        Ecp5Cell::Pll { reference_clock, .. } => {
            renumber(reference_clock, from, to);
        },
    }
}

/// Makes every input of `cell` that reads wire `from` read wire `to`, and
/// tells how many inputs did.
pub fn replace_wire_in_cell_inputs(cell: &mut Ecp5Cell, from: u32, to: u32) -> (count: usize)
    ensures
        final(cell)@ == renumbered_cell(old(cell)@, from, to),
        count == wire_count(rewritable_inputs(old(cell)@), from),
{
    let mut inputs = cell_input_bits(cell);
    if let Ecp5Cell::Pll { .. } = cell {
        inputs.truncate(1);
        assert(inputs@ =~= rewritable_inputs(cell@));
    }
    let count: usize = count_wire(&inputs, from);
    replace_mapped_cell_wire_uses(cell, from, to);
    count
}

/// A copy of a vector of plain values.
pub fn copied<T: Copy>(values: &Vec<T>) -> (out: Vec<T>)
    ensures
        out@ == values@,
{
    let mut out: Vec<T> = Vec::new();
    for i in 0..values.len()
        invariant
            out@ == values@.take(i as int),
    {
        out.push(values[i]);
        assert(out@ =~= values@.take(i + 1));
    }
    assert(values@.take(values@.len() as int) =~= values@);
    out
}

impl Clone for MappedPort {
    fn clone(&self) -> (copy: Self)
        ensures
            copy@ == self@,
    {
        MappedPort {
            name: self.name.clone(),
            direction: self.direction,
            bits: copied(&self.bits),
        }
    }
}

impl Clone for BlockRamPort {
    fn clone(&self) -> (copy: Self)
        ensures
            copy@ == self@,
    {
        BlockRamPort {
            address: Box::new(*self.address),
            write_data: copied(&self.write_data),
            write_enable: self.write_enable,
            read_data: copied(&self.read_data),
            read_enable: self.read_enable,
            clock_enable: self.clock_enable,
            clock: self.clock,
            edge: self.edge,
        }
    }
}

impl Clone for Ecp5Cell {
    fn clone(&self) -> (copy: Self)
        ensures
            copy@ == self@,
    {
        match self {
            Ecp5Cell::Lut4 { name, inputs, output, init } => Ecp5Cell::Lut4 {
                name: name.clone(),
                inputs: *inputs,
                output: *output,
                init: *init,
            },
            Ecp5Cell::PfuMux { name, lut_true, lut_false, select, output } => Ecp5Cell::PfuMux {
                name: name.clone(),
                lut_true: *lut_true,
                lut_false: *lut_false,
                select: *select,
                output: *output,
            },
            Ecp5Cell::L6Mux21 { name, data_zero, data_one, select, output } => Ecp5Cell::L6Mux21 {
                name: name.clone(),
                data_zero: *data_zero,
                data_one: *data_one,
                select: *select,
                output: *output,
            },
            Ecp5Cell::Ccu2c { name, inputs, carry_in, sums, carry_out, init, inject } =>
                Ecp5Cell::Ccu2c {
                    name: name.clone(),
                    inputs: *inputs,
                    carry_in: *carry_in,
                    sums: *sums,
                    carry_out: *carry_out,
                    init: *init,
                    inject: *inject,
                },
            Ecp5Cell::FlipFlop { name, data, output, clock, edge, enable, reset } =>
                Ecp5Cell::FlipFlop {
                    name: name.clone(),
                    data: *data,
                    output: *output,
                    clock: *clock,
                    edge: *edge,
                    enable: *enable,
                    reset: *reset,
                },
            Ecp5Cell::BlockRam {
                name,
                implementation,
                depth,
                word_width,
                physical_width,
                write_address,
                write_data,
                write_enable,
                read_address,
                read_data,
                read_enable,
                clock_enable,
                clock,
                edge,
                second_port,
            } => {
                let second: Option<BlockRamPort> = match second_port {
                    Some(port) => Some(port.clone()),
                    None => None,
                };
                Ecp5Cell::BlockRam {
                    name: name.clone(),
                    implementation: *implementation,
                    depth: *depth,
                    word_width: *word_width,
                    physical_width: *physical_width,
                    write_address: Box::new(**write_address),
                    write_data: copied(write_data),
                    write_enable: *write_enable,
                    read_address: Box::new(**read_address),
                    read_data: copied(read_data),
                    read_enable: *read_enable,
                    clock_enable: *clock_enable,
                    clock: *clock,
                    edge: *edge,
                    second_port: second,
                }
            },
            Ecp5Cell::TrellisIo { name, pad, fabric_output, fabric_input, tristate } =>
                Ecp5Cell::TrellisIo {
                    name: name.clone(),
                    pad: *pad,
                    fabric_output: *fabric_output,
                    fabric_input: *fabric_input,
                    tristate: *tristate,
                },
            Ecp5Cell::Jtagg {
                name,
                tdo,
                tdi,
                clock,
                run_test_idle,
                shift,
                update,
                reset_n,
                clock_enable,
                extension_register_1,
                extension_register_2,
            } => Ecp5Cell::Jtagg {
                name: name.clone(),
                tdo: *tdo,
                tdi: *tdi,
                clock: *clock,
                run_test_idle: *run_test_idle,
                shift: *shift,
                update: *update,
                reset_n: *reset_n,
                clock_enable: *clock_enable,
                extension_register_1: *extension_register_1,
                extension_register_2: *extension_register_2,
            },
            Ecp5Cell::Pll {
                name,
                reference_clock,
                feedback_clock,
                output_clock,
                additional_output_clocks,
                locked,
                fabric_output,
                feedback_output,
                parameters,
                attributes,
            } => Ecp5Cell::Pll {
                name: name.clone(),
                reference_clock: *reference_clock,
                feedback_clock: *feedback_clock,
                output_clock: *output_clock,
                additional_output_clocks: copied(additional_output_clocks),
                locked: *locked,
                fabric_output: *fabric_output,
                feedback_output: *feedback_output,
                parameters: parameters.copy_texts(),
                attributes: attributes.copy_texts(),
            },
        }
    }
}

} // verus!
