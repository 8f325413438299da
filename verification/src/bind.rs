//! Binding of mapped ports to PLLs, the JTAG block and open-drain pads.

use vstd::prelude::*;

use crate::cells::Bit;
use crate::cells::CellModel;
use crate::cells::Ecp5Cell;
use crate::cells::MappedPort;
use crate::cells::PllOutput;
use crate::cells::PortDirection;
use crate::cells::PortModel;
use crate::errors::fault_of;
use crate::errors::MappingError;
use crate::errors::MappingFault;
use crate::mapping::find_mapped_port;
use crate::mapping::mapped_port_at;
use crate::mapping::mapped_port_from;
use crate::meaning::bit_value;
use crate::meaning::cell_agrees;
use crate::meaning::cells_agree;
use crate::names::text_entries;
use crate::names::NameMap;
use crate::netlist::cell_models;
use crate::netlist::maximum_mapped_wire;
use crate::netlist::maximum_wire;
use crate::netlist::port_models;
use crate::netlist::unique_cell_name;
use crate::netlist::unique_name;
use crate::netlist::Ecp5Netlist;
use crate::netlist::NetlistModel;
use crate::text::join;
use crate::wires::table_bit;

verus! {

/// A split open-drain interface and the pad it is bound to.
#[derive(Clone, Debug, Eq, PartialEq)]
pub struct OpenDrainIo {
    /// Physical pad added to the mapped top.
    pub pin: String,
    /// Core input observing the pad.
    pub input_port: String,
    /// Core output that pulls the pad low.
    pub drive_low_port: String,
}

impl OpenDrainIo {
    /// Creates one scalar open-drain I/O binding.
    pub fn new(pin: &str, input_port: &str, drive_low_port: &str) -> (binding: Self)
        ensures
            binding.pin@ == pin@,
            binding.input_port@ == input_port@,
            binding.drive_low_port@ == drive_low_port@,
    {
        OpenDrainIo {
            pin: pin.to_owned(),
            input_port: input_port.to_owned(),
            drive_low_port: drive_low_port.to_owned(),
        }
    }
}

/// Scalar core ports bound to the dedicated JTAG block.
#[derive(Clone, Debug, Eq, PartialEq)]
pub struct JtaggBinding {
    /// Core outputs returned by extension registers one and two.
    pub tdo_ports: [String; 2],
    /// Core input for registered TAP data.
    pub tdi_port: String,
    /// Core input for the TAP clock.
    pub clock_port: String,
    /// Core inputs for run-test/idle of extension registers one and two.
    pub run_test_idle_ports: [String; 2],
    /// Core input for shift-DR.
    pub shift_port: String,
    /// Core input for update-DR.
    pub update_port: String,
    /// Core input for the active-low TAP reset.
    pub reset_n_port: String,
    /// Core inputs for the extension-register clock enables.
    pub clock_enable_ports: [String; 2],
    /// Whether extension register one is present.
    pub extension_register_1: bool,
    /// Whether extension register two is present.
    pub extension_register_2: bool,
}

/// A prefix, an underscore and a suffix.
pub open spec fn prefixed(prefix: Seq<char>, suffix: Seq<char>) -> Seq<char> {
    prefix + "_"@ + suffix
}

fn prefix_name(prefix: &str, suffix: &str) -> (name: String)
    ensures
        name@ == prefixed(prefix@, suffix@),
{
    let mut name = join(prefix, "_");
    name.append(suffix);
    name
}

impl JtaggBinding {
    /// Creates the conventional port names under one prefix.
    pub fn with_prefix(prefix: &str) -> (binding: Self)
        ensures
            binding.tdo_ports[0]@ == prefixed(prefix@, "tdo1"@),
            binding.tdo_ports[1]@ == prefixed(prefix@, "tdo2"@),
            binding.tdi_port@ == prefixed(prefix@, "tdi"@),
            binding.clock_port@ == prefixed(prefix@, "tck"@),
            binding.run_test_idle_ports[0]@ == prefixed(prefix@, "rti1"@),
            binding.run_test_idle_ports[1]@ == prefixed(prefix@, "rti2"@),
            binding.shift_port@ == prefixed(prefix@, "shift"@),
            binding.update_port@ == prefixed(prefix@, "update"@),
            binding.reset_n_port@ == prefixed(prefix@, "rst_n"@),
            binding.clock_enable_ports[0]@ == prefixed(prefix@, "ce1"@),
            binding.clock_enable_ports[1]@ == prefixed(prefix@, "ce2"@),
            binding.extension_register_1,
            binding.extension_register_2,
    {
        JtaggBinding {
            tdo_ports: [prefix_name(prefix, "tdo1"), prefix_name(prefix, "tdo2")],
            tdi_port: prefix_name(prefix, "tdi"),
            clock_port: prefix_name(prefix, "tck"),
            run_test_idle_ports: [prefix_name(prefix, "rti1"), prefix_name(prefix, "rti2")],
            shift_port: prefix_name(prefix, "shift"),
            update_port: prefix_name(prefix, "update"),
            reset_n_port: prefix_name(prefix, "rst_n"),
            clock_enable_ports: [prefix_name(prefix, "ce1"), prefix_name(prefix, "ce2")],
            extension_register_1: true,
            extension_register_2: true,
        }
    }
}

/// The primitive pin of a PLL output.
pub open spec fn pll_pin(output: PllOutput) -> Seq<char> {
    match output {
        PllOutput::Clkintfb => "CLKINTFB"@,
        PllOutput::Clkop => "CLKOP"@,
        PllOutput::Clkos => "CLKOS"@,
        PllOutput::Clkos2 => "CLKOS2"@,
        PllOutput::Clkos3 => "CLKOS3"@,
    }
}

impl PllOutput {
    /// Returns the primitive pin name.
    pub fn port(self) -> (pin: &'static str)
        ensures
            pin@ == pll_pin(self),
    {
        match self {
            PllOutput::Clkintfb => "CLKINTFB",
            PllOutput::Clkop => "CLKOP",
            PllOutput::Clkos => "CLKOS",
            PllOutput::Clkos2 => "CLKOS2",
            PllOutput::Clkos3 => "CLKOS3",
        }
    }
}

/// User-configured PLL boundary binding.
///
/// Only the boundary is rewritten here. The user supplies the PLL parameters
/// and frequency attributes. The reference port remains physical; the logical
/// clock and lock inputs are removed and driven by the primitive.
#[derive(Clone, Debug, Eq, PartialEq)]
pub struct PllBinding {
    /// Physical reference-clock input retained on the mapped top.
    pub reference_clock_port: String,
    /// Logical core-clock input replaced by the selected PLL output.
    pub output_clock_port: String,
    /// Logical core input replaced by `LOCK`.
    pub locked_port: String,
    /// PLL output routed into the core.
    pub fabric_output: PllOutput,
    /// Additional logical clock ports driven by other outputs of this PLL.
    pub additional_output_clock_ports: NameMap<PllOutput>,
    /// PLL output looped back to `CLKFB`.
    pub feedback_output: PllOutput,
    /// Raw `EHXPLLL` parameters.
    pub parameters: NameMap<String>,
    /// Raw `EHXPLLL` attributes.
    pub attributes: NameMap<String>,
}

impl PllBinding {
    /// Creates an empty user-configured PLL binding.
    pub fn new(
        reference_clock_port: &str,
        output_clock_port: &str,
        locked_port: &str,
        fabric_output: PllOutput,
        feedback_output: PllOutput,
    ) -> (binding: Self)
        ensures
            binding.reference_clock_port@ == reference_clock_port@,
            binding.output_clock_port@ == output_clock_port@,
            binding.locked_port@ == locked_port@,
            binding.fabric_output == fabric_output,
            binding.additional_output_clock_ports@.len() == 0,
            binding.feedback_output == feedback_output,
            binding.parameters@.len() == 0,
            binding.attributes@.len() == 0,
    {
        PllBinding {
            reference_clock_port: reference_clock_port.to_owned(),
            output_clock_port: output_clock_port.to_owned(),
            locked_port: locked_port.to_owned(),
            fabric_output,
            additional_output_clock_ports: NameMap::new(),
            feedback_output,
            parameters: NameMap::new(),
            attributes: NameMap::new(),
        }
    }
}

/// The wire after the largest one in use; none where that is the last.
pub open spec fn wire_above(netlist: NetlistModel) -> Option<u32> {
    match maximum_wire(netlist) {
        Some(wire) => if wire == u32::MAX {
            None
        } else {
            Some((wire + 1) as u32)
        },
        None => Some(2),
    }
}

fn find_wire_above(netlist: &Ecp5Netlist) -> (wire: Option<u32>)
    ensures
        wire == wire_above(netlist@),
{
    match maximum_mapped_wire(netlist) {
        Some(wire) => if wire == u32::MAX {
            None
        } else {
            Some(wire + 1)
        },
        None => Some(2),
    }
}

/// The first `count` ports without those at `removed`.
pub open spec fn kept_ports(ports: Seq<PortModel>, removed: Seq<usize>, count: nat) -> Seq<PortModel>
    decreases count,
{
    if count == 0 {
        seq![]
    } else {
        let rest = kept_ports(ports, removed, (count - 1) as nat);
        if removed.contains((count - 1) as usize) {
            rest
        } else {
            rest.push(ports[count - 1])
        }
    }
}

fn holds_index(indices: &Vec<usize>, index: usize) -> (found: bool)
    ensures
        found == indices@.contains(index),
{
    for i in 0..indices.len()
        invariant
            forall|j: int| 0 <= j < i ==> indices@[j] != index,
    {
        if indices[i] == index {
            assert(indices@[i as int] == index);
            return true;
        }
    }
    false
}

fn remove_ports(ports: &Vec<MappedPort>, removed: &Vec<usize>) -> (kept: Vec<MappedPort>)
    ensures
        port_models(kept@) == kept_ports(port_models(ports@), removed@, ports@.len()),
{
    let mut kept: Vec<MappedPort> = Vec::new();
    let ghost models = port_models(ports@);
    assert(port_models(kept@) =~= Seq::<PortModel>::empty());
    for i in 0..ports.len()
        invariant
            models == port_models(ports@),
            port_models(kept@) == kept_ports(models, removed@, i as nat),
    {
        if !holds_index(removed, i) {
            let ghost before = kept@;
            let port = ports[i].clone();
            assert(port@ == models[i as int]);
            kept.push(port);
            assert(port_models(kept@) =~= port_models(before).push(models[i as int]));
        }
    }
    kept
}

/// Why a name cannot take a PLL role.
pub open spec fn pll_port_fault(ports: Seq<PortModel>, name: Seq<char>) -> Option<MappingFault> {
    match mapped_port_at(ports, name) {
        None => Some(MappingFault::PllPortNotFound(name)),
        Some(index) => {
            let port = ports[index];
            if !(port.direction is Input) {
                Some(MappingFault::PllPortDirection { port: name, actual: port.direction })
            } else if port.bits.len() != 1 {
                Some(MappingFault::PllPortNotScalar { port: name, width: port.bits.len() as usize })
            } else if !(port.bits[0] is Wire) {
                Some(MappingFault::PllOutputIsConstant(name))
            } else {
                None
            }
        },
    }
}

/// The wire of a scalar port.
pub open spec fn port_wire(ports: Seq<PortModel>, name: Seq<char>) -> u32 {
    ports[mapped_port_at(ports, name)->0].bits[0]->0
}

/// The position of a port.
pub open spec fn port_index(ports: Seq<PortModel>, name: Seq<char>) -> usize {
    mapped_port_at(ports, name)->0 as usize
}

/// The three fixed roles of a PLL binding.
pub open spec fn pll_roles(binding: PllBinding) -> Seq<Seq<char>> {
    seq![
        binding.reference_clock_port@,
        binding.output_clock_port@,
        binding.locked_port@,
    ]
}

/// The first fault among the fixed roles from `from` on.
pub open spec fn pll_roles_fault(
    ports: Seq<PortModel>,
    roles: Seq<Seq<char>>,
    from: int,
) -> Option<MappingFault>
    decreases roles.len() - from,
{
    if from >= roles.len() {
        None
    } else if roles.take(from).contains(roles[from]) {
        Some(MappingFault::PllPortRepeated(roles[from]))
    } else {
        match pll_port_fault(ports, roles[from]) {
            Some(fault) => Some(fault),
            None => pll_roles_fault(ports, roles, from + 1),
        }
    }
}

/// Whether one of the first `count` additional clocks has this name.
pub open spec fn clock_named(
    clocks: Seq<(Seq<char>, PllOutput)>,
    name: Seq<char>,
    count: int,
) -> bool {
    exists|i: int| 0 <= i < count && (#[trigger] clocks[i]).0 == name
}

/// Whether one of the first `count` additional clocks uses this output.
pub open spec fn output_used(
    clocks: Seq<(Seq<char>, PllOutput)>,
    output: PllOutput,
    count: int,
) -> bool {
    exists|i: int| 0 <= i < count && (#[trigger] clocks[i]).1 == output
}

/// The first fault among the additional clocks from `from` on.
pub open spec fn pll_clocks_fault(
    ports: Seq<PortModel>,
    binding: PllBinding,
    from: int,
) -> Option<MappingFault>
    decreases binding.additional_output_clock_ports@.len() - from,
{
    let clocks = binding.additional_output_clock_ports@;
    if from >= clocks.len() {
        None
    } else {
        let name = clocks[from].0;
        let output = clocks[from].1;
        if pll_roles(binding).contains(name) || clock_named(clocks, name, from) {
            Some(MappingFault::PllPortRepeated(name))
        } else if output == binding.fabric_output || output == binding.feedback_output
            || output_used(clocks, output, from) {
            Some(MappingFault::PllPortRepeated(pll_pin(output)))
        } else {
            match pll_port_fault(ports, name) {
                Some(fault) => Some(fault),
                None => pll_clocks_fault(ports, binding, from + 1),
            }
        }
    }
}

/// Why a PLL cannot be bound.
pub open spec fn pll_fault(netlist: NetlistModel, binding: PllBinding) -> Option<MappingFault> {
    match pll_roles_fault(netlist.ports, pll_roles(binding), 0) {
        Some(fault) => Some(fault),
        None => match pll_clocks_fault(netlist.ports, binding, 0) {
            Some(fault) => Some(fault),
            None => if binding.fabric_output != binding.feedback_output && wire_above(
                netlist,
            ) is None {
                Some(MappingFault::MappedWireOverflow)
            } else {
                None
            },
        },
    }
}

/// The additional clocks on mapped wires.
pub open spec fn pll_clocks(ports: Seq<PortModel>, clocks: Seq<(Seq<char>, PllOutput)>) -> Seq<
    (PllOutput, u32),
> {
    Seq::new(clocks.len(), |i: int| (clocks[i].1, port_wire(ports, clocks[i].0)))
}

/// The ports that a PLL drives.
pub open spec fn pll_driven(ports: Seq<PortModel>, binding: PllBinding) -> Seq<usize> {
    seq![
        port_index(ports, binding.output_clock_port@),
        port_index(ports, binding.locked_port@),
    ] + Seq::new(
        binding.additional_output_clock_ports@.len(),
        |i: int| port_index(ports, binding.additional_output_clock_ports@[i].0),
    )
}

/// A netlist with a PLL in place of the ports it drives.
pub open spec fn pll_bound(netlist: NetlistModel, binding: PllBinding) -> NetlistModel {
    let ports = netlist.ports;
    let output_clock = port_wire(ports, binding.output_clock_port@);
    NetlistModel {
        cells: netlist.cells.push(
            CellModel::Pll {
                name: unique_name("pll"@, netlist.cells, None),
                reference_clock: Bit::Wire(port_wire(ports, binding.reference_clock_port@)),
                feedback_clock: if binding.fabric_output == binding.feedback_output {
                    output_clock
                } else {
                    wire_above(netlist)->0
                },
                output_clock,
                additional_output_clocks: pll_clocks(
                    ports,
                    binding.additional_output_clock_ports@,
                ),
                locked: port_wire(ports, binding.locked_port@),
                fabric_output: binding.fabric_output,
                feedback_output: binding.feedback_output,
                parameters: text_entries(binding.parameters),
                attributes: text_entries(binding.attributes),
            },
        ),
        ports: kept_ports(ports, pll_driven(ports, binding), ports.len()),
        ..netlist
    }
}

fn check_pll_port(ports: &Vec<MappedPort>, name: &String) -> (result: Result<
    (usize, u32),
    MappingError,
>)
    ensures
        fault_of(result) == pll_port_fault(port_models(ports@), name@),
        result matches Ok((index, wire)) ==> index == port_index(port_models(ports@), name@)
            && wire == port_wire(port_models(ports@), name@),
{
    let index = match find_mapped_port(ports, name) {
        Some(index) => index,
        None => {
            return Err(MappingError::PllPortNotFound(name.clone()));
        },
    };
    let port = &ports[index];
    assert(port_models(ports@)[index as int] == port@);
    if port.direction != PortDirection::Input {
        return Err(
            MappingError::PllPortDirection { port: name.clone(), actual: port.direction },
        );
    }
    if port.bits.len() != 1 {
        return Err(
            MappingError::PllPortNotScalar { port: name.clone(), width: port.bits.len() },
        );
    }
    match port.bits[0] {
        Bit::Wire(wire) => Ok((index, wire)),
        _ => Err(MappingError::PllOutputIsConstant(name.clone())),
    }
}

fn check_clock_named(clocks: &NameMap<PllOutput>, name: &String, count: usize) -> (found: bool)
    requires
        count <= clocks.entries@.len(),
    ensures
        found == clock_named(clocks@, name@, count as int),
{
    for i in 0..count
        invariant
            count <= clocks.entries@.len(),
            forall|j: int| 0 <= j < i ==> (#[trigger] clocks@[j]).0 != name@,
    {
        assert(clocks@[i as int].0 == clocks.entries@[i as int].0@);
        if clocks.entries[i].0 == *name {
            return true;
        }
    }
    false
}

fn check_output_used(clocks: &NameMap<PllOutput>, output: PllOutput, count: usize) -> (found: bool)
    requires
        count <= clocks.entries@.len(),
    ensures
        found == output_used(clocks@, output, count as int),
{
    for i in 0..count
        invariant
            count <= clocks.entries@.len(),
            forall|j: int| 0 <= j < i ==> (#[trigger] clocks@[j]).1 != output,
    {
        assert(clocks@[i as int].1 == clocks.entries@[i as int].1);
        if clocks.entries[i].1 == output {
            return true;
        }
    }
    false
}

struct ResolvedPll {
    reference: u32,
    output: (usize, u32),
    locked: (usize, u32),
}

fn check_pll_roles(ports: &Vec<MappedPort>, binding: &PllBinding) -> (result: Result<
    ResolvedPll,
    MappingError,
>)
    ensures
        fault_of(result) == pll_roles_fault(port_models(ports@), pll_roles(*binding), 0),
        result matches Ok(resolved) ==> resolved.reference == port_wire(
            port_models(ports@),
            binding.reference_clock_port@,
        ) && resolved.output == (
            port_index(port_models(ports@), binding.output_clock_port@),
            port_wire(port_models(ports@), binding.output_clock_port@),
        ) && resolved.locked == (
            port_index(port_models(ports@), binding.locked_port@),
            port_wire(port_models(ports@), binding.locked_port@),
        ),
{
    let ghost models = port_models(ports@);
    let ghost roles = pll_roles(*binding);
    proof {
        reveal_with_fuel(pll_roles_fault, 4);
        assert(!roles.take(0).contains(roles[0]));
        assert(roles.take(1).contains(roles[1]) == (roles[1] == roles[0])) by {
            if roles[1] == roles[0] {
                assert(roles.take(1)[0] == roles[1]);
            }
        }
        assert(roles.take(2).contains(roles[2]) == (roles[2] == roles[0] || roles[2] == roles[1]))
            by {
            if roles[2] == roles[0] {
                assert(roles.take(2)[0] == roles[2]);
            }
            if roles[2] == roles[1] {
                assert(roles.take(2)[1] == roles[2]);
            }
        }
    }
    let reference = match check_pll_port(ports, &binding.reference_clock_port) {
        Ok(found) => found,
        Err(error) => {
            return Err(error);
        },
    };
    if binding.output_clock_port == binding.reference_clock_port {
        return Err(MappingError::PllPortRepeated(binding.output_clock_port.clone()));
    }
    let output = match check_pll_port(ports, &binding.output_clock_port) {
        Ok(found) => found,
        Err(error) => {
            return Err(error);
        },
    };
    if binding.locked_port == binding.reference_clock_port || binding.locked_port
        == binding.output_clock_port {
        return Err(MappingError::PllPortRepeated(binding.locked_port.clone()));
    }
    let locked = match check_pll_port(ports, &binding.locked_port) {
        Ok(found) => found,
        Err(error) => {
            return Err(error);
        },
    };
    Ok(ResolvedPll { reference: reference.1, output, locked })
}

fn check_pll_clocks(ports: &Vec<MappedPort>, binding: &PllBinding, driven: &mut Vec<usize>) -> (result:
    Result<Vec<(PllOutput, u32)>, MappingError>)
    ensures
        fault_of(result) == pll_clocks_fault(port_models(ports@), *binding, 0),
        result matches Ok(clocks) ==> clocks@ == pll_clocks(
            port_models(ports@),
            binding.additional_output_clock_ports@,
        ) && final(driven)@ == old(driven)@ + Seq::new(
            binding.additional_output_clock_ports@.len(),
            |i: int|
                port_index(
                    port_models(ports@),
                    binding.additional_output_clock_ports@[i].0,
                ),
        ),
{
    let ghost models = port_models(ports@);
    let ghost start = driven@;
    let entries = &binding.additional_output_clock_ports;
    let ghost all_clocks = pll_clocks(models, entries@);
    let ghost all_driven = Seq::new(entries@.len(), |i: int| port_index(models, entries@[i].0));
    let mut clocks: Vec<(PllOutput, u32)> = Vec::new();
    assert(start + all_driven.take(0) =~= start);
    for i in 0..entries.entries.len()
        invariant
            models == port_models(ports@),
            *entries == binding.additional_output_clock_ports,
            all_clocks == pll_clocks(models, entries@),
            all_driven == Seq::new(entries@.len(), |i: int| port_index(models, entries@[i].0)),
            pll_clocks_fault(models, *binding, 0) == pll_clocks_fault(models, *binding, i as int),
            clocks@ == all_clocks.take(i as int),
            driven@ == start + all_driven.take(i as int),
    {
        let name = &entries.entries[i].0;
        let output = entries.entries[i].1;
        assert(entries@[i as int] == (name@, output));
        let fixed = *name == binding.reference_clock_port || *name == binding.output_clock_port
            || *name == binding.locked_port;
        proof {
            let roles = pll_roles(*binding);
            if name@ == roles[0] || name@ == roles[1] || name@ == roles[2] {
                assert(roles.contains(name@));
            }
            assert(fixed == roles.contains(name@));
        }
        if fixed || check_clock_named(entries, name, i) {
            return Err(MappingError::PllPortRepeated(name.clone()));
        }
        if output == binding.fabric_output || output == binding.feedback_output
            || check_output_used(entries, output, i) {
            return Err(MappingError::PllPortRepeated(output.port().to_owned()));
        }
        match check_pll_port(ports, name) {
            Ok((index, wire)) => {
                clocks.push((output, wire));
                driven.push(index);
                assert(clocks@ =~= all_clocks.take(i + 1));
                assert(driven@ =~= start + all_driven.take(i + 1));
            },
            Err(error) => {
                return Err(error);
            },
        }
    }
    assert(all_clocks.take(entries@.len() as int) =~= all_clocks);
    assert(all_driven.take(entries@.len() as int) =~= all_driven);
    Ok(clocks)
}

/// Adding a cell adds its model.
proof fn lemma_cell_added(cells: Seq<Ecp5Cell>, cell: Ecp5Cell)
    ensures
        cell_models(cells.push(cell)) == cell_models(cells).push(cell@),
{
    assert(cell_models(cells.push(cell)) =~= cell_models(cells).push(cell@));
}

impl Ecp5Netlist {
    /// Binds a user-configured PLL to the mapped boundary.
    ///
    /// On an error the netlist stays as it is.
    pub fn bind_pll(&mut self, binding: &PllBinding) -> (result: Result<(), MappingError>)
        ensures
            fault_of(result) == pll_fault(old(self)@, *binding),
            result is Ok ==> final(self)@ == pll_bound(old(self)@, *binding),
            result is Err ==> final(self)@ == old(self)@,
    {
        let resolved = match check_pll_roles(&self.ports, binding) {
            Ok(resolved) => resolved,
            Err(error) => {
                return Err(error);
            },
        };
        let mut driven: Vec<usize> = Vec::new();
        driven.push(resolved.output.0);
        driven.push(resolved.locked.0);
        let clocks = match check_pll_clocks(&self.ports, binding, &mut driven) {
            Ok(clocks) => clocks,
            Err(error) => {
                return Err(error);
            },
        };
        assert(driven@ =~= pll_driven(self@.ports, *binding));
        let feedback_clock = if binding.fabric_output == binding.feedback_output {
            resolved.output.1
        } else {
            match find_wire_above(self) {
                Some(wire) => wire,
                None => {
                    return Err(MappingError::MappedWireOverflow);
                },
            }
        };
        let name = unique_cell_name("pll", &self.cells, None);
        let cell = Ecp5Cell::Pll {
            name,
            reference_clock: Bit::Wire(resolved.reference),
            feedback_clock,
            output_clock: resolved.output.1,
            additional_output_clocks: clocks,
            locked: resolved.locked.1,
            fabric_output: binding.fabric_output,
            feedback_output: binding.feedback_output,
            parameters: binding.parameters.copy_texts(),
            attributes: binding.attributes.copy_texts(),
        };
        proof {
            lemma_cell_added(self.cells@, cell);
        }
        self.cells.push(cell);
        let kept = remove_ports(&self.ports, &driven);
        self.ports = kept;
        Ok(())
    }
}

/// Whether a netlist has a JTAG block.
pub open spec fn has_jtagg(cells: Seq<CellModel>) -> bool {
    exists|i: int| 0 <= i < cells.len() && (#[trigger] cells[i]) is Jtagg
}

/// The roles of a JTAG binding with the directions they need.
pub open spec fn jtagg_roles(binding: JtaggBinding) -> Seq<(Seq<char>, PortDirection)> {
    seq![
        (binding.tdo_ports[0]@, PortDirection::Output),
        (binding.tdo_ports[1]@, PortDirection::Output),
        (binding.tdi_port@, PortDirection::Input),
        (binding.clock_port@, PortDirection::Input),
        (binding.run_test_idle_ports[0]@, PortDirection::Input),
        (binding.run_test_idle_ports[1]@, PortDirection::Input),
        (binding.shift_port@, PortDirection::Input),
        (binding.update_port@, PortDirection::Input),
        (binding.reset_n_port@, PortDirection::Input),
        (binding.clock_enable_ports[0]@, PortDirection::Input),
        (binding.clock_enable_ports[1]@, PortDirection::Input),
    ]
}

/// Whether one of the first `count` roles has this name.
pub open spec fn role_named(
    roles: Seq<(Seq<char>, PortDirection)>,
    name: Seq<char>,
    count: int,
) -> bool {
    exists|i: int| 0 <= i < count && (#[trigger] roles[i]).0 == name
}

/// The first fault among the roles from `from` on.
pub open spec fn jtagg_roles_fault(
    ports: Seq<PortModel>,
    roles: Seq<(Seq<char>, PortDirection)>,
    from: int,
) -> Option<MappingFault>
    decreases roles.len() - from,
{
    if from >= roles.len() {
        None
    } else {
        let name = roles[from].0;
        if role_named(roles, name, from) {
            Some(MappingFault::JtaggPortRepeated(name))
        } else {
            match mapped_port_at(ports, name) {
                None => Some(MappingFault::JtaggPortNotFound(name)),
                Some(index) => if ports[index].direction != roles[from].1 {
                    Some(
                        MappingFault::JtaggPortDirection {
                            port: name,
                            expected: roles[from].1,
                            actual: ports[index].direction,
                        },
                    )
                } else if ports[index].bits.len() != 1 {
                    Some(
                        MappingFault::JtaggPortNotScalar {
                            port: name,
                            width: ports[index].bits.len() as usize,
                        },
                    )
                } else {
                    jtagg_roles_fault(ports, roles, from + 1)
                },
            }
        }
    }
}

/// The bit of a scalar port.
pub open spec fn port_bit(ports: Seq<PortModel>, name: Seq<char>) -> Bit {
    ports[mapped_port_at(ports, name)->0].bits[0]
}

/// The first role from `from` on that is a constant instead of a wire.
pub open spec fn jtagg_constant(
    ports: Seq<PortModel>,
    roles: Seq<(Seq<char>, PortDirection)>,
    from: int,
) -> Option<MappingFault>
    decreases roles.len() - from,
{
    if from >= roles.len() {
        None
    } else if !(port_bit(ports, roles[from].0) is Wire) {
        Some(MappingFault::JtaggOutputIsConstant(roles[from].0))
    } else {
        jtagg_constant(ports, roles, from + 1)
    }
}

/// Why the JTAG block cannot be bound.
pub open spec fn jtagg_fault(netlist: NetlistModel, binding: JtaggBinding) -> Option<MappingFault> {
    if has_jtagg(netlist.cells) {
        Some(MappingFault::JtaggAlreadyBound)
    } else {
        match jtagg_roles_fault(netlist.ports, jtagg_roles(binding), 0) {
            Some(fault) => Some(fault),
            None => jtagg_constant(netlist.ports, jtagg_roles(binding), 2),
        }
    }
}

/// The wire of role `index`.
pub open spec fn role_wire(ports: Seq<PortModel>, binding: JtaggBinding, index: int) -> u32 {
    port_wire(ports, jtagg_roles(binding)[index].0)
}

/// A netlist with the JTAG block in place of the ports bound to it.
pub open spec fn jtagg_bound(netlist: NetlistModel, binding: JtaggBinding) -> NetlistModel {
    let ports = netlist.ports;
    let roles = jtagg_roles(binding);
    NetlistModel {
        cells: netlist.cells.push(
            CellModel::Jtagg {
                name: unique_name("jtagg"@, netlist.cells, None),
                tdo: [port_bit(ports, roles[0].0), port_bit(ports, roles[1].0)],
                tdi: role_wire(ports, binding, 2),
                clock: role_wire(ports, binding, 3),
                run_test_idle: [role_wire(ports, binding, 4), role_wire(ports, binding, 5)],
                shift: role_wire(ports, binding, 6),
                update: role_wire(ports, binding, 7),
                reset_n: role_wire(ports, binding, 8),
                clock_enable: [role_wire(ports, binding, 9), role_wire(ports, binding, 10)],
                extension_register_1: binding.extension_register_1,
                extension_register_2: binding.extension_register_2,
            },
        ),
        ports: kept_ports(
            ports,
            Seq::new(roles.len(), |i: int| port_index(ports, roles[i].0)),
            ports.len(),
        ),
        ..netlist
    }
}

fn check_has_jtagg(cells: &Vec<Ecp5Cell>) -> (found: bool)
    ensures
        found == has_jtagg(cell_models(cells@)),
{
    for i in 0..cells.len()
        invariant
            forall|j: int| 0 <= j < i ==> !(#[trigger] cell_models(cells@)[j] is Jtagg),
    {
        assert(cell_models(cells@)[i as int] == cells@[i as int]@);
        if let Ecp5Cell::Jtagg { .. } = &cells[i] {
            return true;
        }
    }
    false
}

spec fn role_models(roles: Seq<(String, PortDirection)>) -> Seq<(Seq<char>, PortDirection)> {
    Seq::new(roles.len(), |i: int| (roles[i].0@, roles[i].1))
}

fn list_jtagg_roles(binding: &JtaggBinding) -> (roles: Vec<(String, PortDirection)>)
    ensures
        role_models(roles@) == jtagg_roles(*binding),
{
    let mut roles: Vec<(String, PortDirection)> = Vec::new();
    roles.push((binding.tdo_ports[0].clone(), PortDirection::Output));
    roles.push((binding.tdo_ports[1].clone(), PortDirection::Output));
    roles.push((binding.tdi_port.clone(), PortDirection::Input));
    roles.push((binding.clock_port.clone(), PortDirection::Input));
    roles.push((binding.run_test_idle_ports[0].clone(), PortDirection::Input));
    roles.push((binding.run_test_idle_ports[1].clone(), PortDirection::Input));
    roles.push((binding.shift_port.clone(), PortDirection::Input));
    roles.push((binding.update_port.clone(), PortDirection::Input));
    roles.push((binding.reset_n_port.clone(), PortDirection::Input));
    roles.push((binding.clock_enable_ports[0].clone(), PortDirection::Input));
    roles.push((binding.clock_enable_ports[1].clone(), PortDirection::Input));
    assert(role_models(roles@) =~= jtagg_roles(*binding));
    roles
}

struct ResolvedRole {
    index: usize,
    bit: Bit,
}

fn resolve_jtagg_roles(ports: &Vec<MappedPort>, roles: &Vec<(String, PortDirection)>) -> (result:
    Result<Vec<ResolvedRole>, MappingError>)
    ensures
        fault_of(result) == jtagg_roles_fault(port_models(ports@), role_models(roles@), 0),
        result matches Ok(resolved) ==> resolved@.len() == roles@.len() && forall|i: int|
            0 <= i < roles@.len() ==> (#[trigger] resolved@[i]).index == port_index(
                port_models(ports@),
                roles@[i].0@,
            ) && resolved@[i].bit == port_bit(port_models(ports@), roles@[i].0@),
{
    let ghost models = port_models(ports@);
    let ghost names = role_models(roles@);
    let mut resolved: Vec<ResolvedRole> = Vec::new();
    for i in 0..roles.len()
        invariant
            models == port_models(ports@),
            names == role_models(roles@),
            jtagg_roles_fault(models, names, 0) == jtagg_roles_fault(models, names, i as int),
            resolved@.len() == i,
            forall|j: int|
                0 <= j < i ==> (#[trigger] resolved@[j]).index == port_index(models, roles@[j].0@)
                    && resolved@[j].bit == port_bit(models, roles@[j].0@),
    {
        let name = &roles[i].0;
        let expected = roles[i].1;
        assert(names[i as int] == (name@, expected));
        let mut repeated = false;
        for j in 0..i
            invariant
                i < roles@.len(),
                names == role_models(roles@),
                repeated == role_named(names, name@, j as int),
        {
            assert(names[j as int].0 == roles@[j as int].0@);
            if roles[j].0 == *name {
                repeated = true;
            }
        }
        if repeated {
            return Err(MappingError::JtaggPortRepeated(name.clone()));
        }
        let index = match find_mapped_port(ports, name) {
            Some(index) => index,
            None => {
                return Err(MappingError::JtaggPortNotFound(name.clone()));
            },
        };
        let port = &ports[index];
        assert(models[index as int] == port@);
        if port.direction != expected {
            return Err(
                MappingError::JtaggPortDirection {
                    port: name.clone(),
                    expected,
                    actual: port.direction,
                },
            );
        }
        if port.bits.len() != 1 {
            return Err(
                MappingError::JtaggPortNotScalar { port: name.clone(), width: port.bits.len() },
            );
        }
        resolved.push(ResolvedRole { index, bit: port.bits[0] });
    }
    Ok(resolved)
}

fn check_jtagg_wires(
    roles: &Vec<(String, PortDirection)>,
    resolved: &Vec<ResolvedRole>,
    Ghost(ports): Ghost<Seq<PortModel>>,
) -> (result: Result<Vec<u32>, MappingError>)
    requires
        roles@.len() >= 2,
        resolved@.len() == roles@.len(),
        forall|i: int|
            0 <= i < roles@.len() ==> (#[trigger] resolved@[i]).bit == port_bit(
                ports,
                roles@[i].0@,
            ),
    ensures
        fault_of(result) == jtagg_constant(ports, role_models(roles@), 2),
        result matches Ok(wires) ==> wires@.len() == roles@.len() - 2 && forall|i: int|
            0 <= i < wires@.len() ==> #[trigger] wires@[i] == port_wire(ports, roles@[i + 2].0@),
{
    let ghost names = role_models(roles@);
    let mut wires: Vec<u32> = Vec::new();
    for i in 2..roles.len()
        invariant
            names == role_models(roles@),
            roles@.len() >= 2,
            resolved@.len() == roles@.len(),
            forall|i: int|
                0 <= i < roles@.len() ==> (#[trigger] resolved@[i]).bit == port_bit(
                    ports,
                    roles@[i].0@,
                ),
            jtagg_constant(ports, names, 2) == jtagg_constant(ports, names, i as int),
            wires@.len() == i - 2,
            forall|j: int|
                0 <= j < wires@.len() ==> #[trigger] wires@[j] == port_wire(
                    ports,
                    roles@[j + 2].0@,
                ),
    {
        assert(names[i as int].0 == roles@[i as int].0@);
        assert(resolved@[i as int].bit == port_bit(ports, roles@[i as int].0@));
        match resolved[i].bit {
            Bit::Wire(wire) => wires.push(wire),
            _ => {
                return Err(MappingError::JtaggOutputIsConstant(roles[i].0.clone()));
            },
        }
    }
    Ok(wires)
}

impl Ecp5Netlist {
    /// Replaces a scalar top-level JTAG fabric interface with the dedicated
    /// `JTAGG` primitive.
    ///
    /// On an error the netlist stays as it is.
    pub fn bind_jtagg(&mut self, binding: &JtaggBinding) -> (result: Result<(), MappingError>)
        ensures
            fault_of(result) == jtagg_fault(old(self)@, *binding),
            result is Ok ==> final(self)@ == jtagg_bound(old(self)@, *binding),
            result is Err ==> final(self)@ == old(self)@,
    {
        if check_has_jtagg(&self.cells) {
            return Err(MappingError::JtaggAlreadyBound);
        }
        let ghost models = self@.ports;
        let roles = list_jtagg_roles(binding);
        let ghost names = role_models(roles@);
        assert(roles@.len() == names.len());
        assert(forall|i: int| 0 <= i < roles@.len() ==> names[i].0 == (#[trigger] roles@[i]).0@);
        let resolved = match resolve_jtagg_roles(&self.ports, &roles) {
            Ok(resolved) => resolved,
            Err(error) => {
                return Err(error);
            },
        };
        let wires = match check_jtagg_wires(&roles, &resolved, Ghost(models)) {
            Ok(wires) => wires,
            Err(error) => {
                return Err(error);
            },
        };
        let mut removed: Vec<usize> = Vec::new();
        let ghost all = Seq::new(names.len(), |i: int| port_index(models, names[i].0));
        for i in 0..resolved.len()
            invariant
                resolved@.len() == roles@.len(),
                names.len() == roles@.len(),
                forall|i: int| 0 <= i < roles@.len() ==> names[i].0 == (#[trigger] roles@[i]).0@,
                forall|i: int|
                    0 <= i < roles@.len() ==> (#[trigger] resolved@[i]).index == port_index(
                        models,
                        roles@[i].0@,
                    ),
                all == Seq::new(names.len(), |i: int| port_index(models, names[i].0)),
                removed@ == all.take(i as int),
        {
            assert(resolved@[i as int].index == port_index(models, roles@[i as int].0@));
            removed.push(resolved[i].index);
            assert(removed@ =~= all.take(i + 1));
        }
        assert(removed@ =~= all);
        let name = unique_cell_name("jtagg", &self.cells, None);
        assert(resolved@[0].bit == port_bit(models, roles@[0].0@));
        assert(resolved@[1].bit == port_bit(models, roles@[1].0@));
        let cell = Ecp5Cell::Jtagg {
            name,
            tdo: [resolved[0].bit, resolved[1].bit],
            tdi: wires[0],
            clock: wires[1],
            run_test_idle: [wires[2], wires[3]],
            shift: wires[4],
            update: wires[5],
            reset_n: wires[6],
            clock_enable: [wires[7], wires[8]],
            extension_register_1: binding.extension_register_1,
            extension_register_2: binding.extension_register_2,
        };
        proof {
            lemma_cell_added(self.cells@, cell);
        }
        let kept = remove_ports(&self.ports, &removed);
        self.ports = kept;
        self.cells.push(cell);
        Ok(())
    }
}

/// Why an open-drain pad cannot be bound.
pub open spec fn open_drain_fault(netlist: NetlistModel, binding: OpenDrainIo) -> Option<
    MappingFault,
> {
    let ports = netlist.ports;
    let input = binding.input_port@;
    let drive = binding.drive_low_port@;
    if mapped_port_at(ports, input) is None {
        Some(MappingFault::IoPortNotFound(input))
    } else if mapped_port_at(ports, drive) is None {
        Some(MappingFault::IoPortNotFound(drive))
    } else if mapped_port_at(ports, input) == mapped_port_at(ports, drive) {
        Some(MappingFault::IoPortsMustDiffer { input, drive_low: drive })
    } else if mapped_port_at(ports, binding.pin@) is Some {
        Some(MappingFault::IoPortAlreadyExists(binding.pin@))
    } else {
        let input_port = ports[mapped_port_at(ports, input)->0];
        let drive_port = ports[mapped_port_at(ports, drive)->0];
        if !(input_port.direction is Input) {
            Some(
                MappingFault::IoPortDirection {
                    port: input,
                    expected: PortDirection::Input,
                    actual: input_port.direction,
                },
            )
        } else if !(drive_port.direction is Output) {
            Some(
                MappingFault::IoPortDirection {
                    port: drive,
                    expected: PortDirection::Output,
                    actual: drive_port.direction,
                },
            )
        } else if input_port.bits.len() != 1 {
            Some(
                MappingFault::IoPortNotScalar {
                    port: input,
                    width: input_port.bits.len() as usize,
                },
            )
        } else if drive_port.bits.len() != 1 {
            Some(
                MappingFault::IoPortNotScalar {
                    port: drive,
                    width: drive_port.bits.len() as usize,
                },
            )
        } else if !(input_port.bits[0] is Wire) {
            Some(MappingFault::IoInputIsConstant(input))
        } else {
            match wire_above(netlist) {
                None => Some(MappingFault::MappedWireOverflow),
                Some(pad) => if drive_port.bits[0] is Wire && pad == u32::MAX {
                    Some(MappingFault::MappedWireOverflow)
                } else {
                    None
                },
            }
        }
    }
}

/// Truth table of an inverter on the first input.
pub const INVERTER_INIT: u16 = 0x5555;

/// The cells of a netlist with an open-drain pad: where a wire drives the pad
/// low, an inverter makes its high-impedance control.
pub open spec fn open_drain_cells(netlist: NetlistModel, binding: OpenDrainIo) -> Seq<CellModel> {
    let drive = port_bit(netlist.ports, binding.drive_low_port@);
    let pad = wire_above(netlist)->0;
    let io_name = "io_"@ + binding.pin@;
    let inverted = match drive {
        Bit::Wire(wire) => netlist.cells.push(
            CellModel::Lut4 {
                name: unique_name(io_name + "_drive_low_invert"@, netlist.cells, None),
                inputs: [drive, Bit::Zero, Bit::Zero, Bit::Zero],
                output: (pad + 1) as u32,
                init: INVERTER_INIT,
            },
        ),
        _ => netlist.cells,
    };
    inverted.push(
        CellModel::TrellisIo {
            name: unique_name(io_name, inverted, None),
            pad,
            fabric_output: Bit::Zero,
            fabric_input: port_wire(netlist.ports, binding.input_port@),
            tristate: match drive {
                Bit::Zero => Bit::One,
                Bit::One => Bit::Zero,
                Bit::Wire(_) => Bit::Wire((pad + 1) as u32),
            },
        },
    )
}

/// A netlist with an open-drain pad in place of its two logical sides.
pub open spec fn open_drain_bound(netlist: NetlistModel, binding: OpenDrainIo) -> NetlistModel {
    let ports = netlist.ports;
    let input = port_index(ports, binding.input_port@);
    let drive = port_index(ports, binding.drive_low_port@);
    let at = if input < drive {
        input as int
    } else {
        drive as int
    };
    NetlistModel {
        cells: open_drain_cells(netlist, binding),
        ports: kept_ports(ports, seq![input, drive], ports.len()).insert(
            at,
            PortModel {
                name: binding.pin@,
                direction: PortDirection::Inout,
                bits: seq![Bit::Wire(wire_above(netlist)->0)],
            },
        ),
        ..netlist
    }
}

/// Ports in front of those that go stay where they are.
pub proof fn lemma_kept_prefix(ports: Seq<PortModel>, removed: Seq<usize>, first: int, count: nat)
    requires
        0 <= first,
        count <= ports.len() <= usize::MAX,
        forall|i: int| 0 <= i < removed.len() ==> first <= #[trigger] removed[i],
    ensures
        count <= first ==> kept_ports(ports, removed, count).len() == count,
        count > first ==> kept_ports(ports, removed, count).len() >= first,
    decreases count,
{
    if count > 0 {
        lemma_kept_prefix(ports, removed, first, (count - 1) as nat);
        let last = (count - 1) as usize;
        if removed.contains(last) {
            let k = choose|k: int| 0 <= k < removed.len() && removed[k] == last;
            assert(first <= removed[k]);
        }
    }
}

impl Ecp5Netlist {
    fn check_open_drain(&self, binding: &OpenDrainIo) -> (result: Result<
        (usize, usize, u32, Bit, u32),
        MappingError,
    >)
        ensures
            fault_of(result) == open_drain_fault(self@, *binding),
            result matches Ok((input, drive, wire, bit, pad)) ==> input < self.ports@.len()
                && drive < self.ports@.len() && mapped_port_at(self@.ports, binding.input_port@)
                == Some(input as int) && mapped_port_at(self@.ports, binding.drive_low_port@)
                == Some(drive as int) && input != drive && wire == port_wire(
                self@.ports,
                binding.input_port@,
            ) && bit == port_bit(self@.ports, binding.drive_low_port@) && wire_above(self@)
                == Some(pad),
    {
        let input = match find_mapped_port(&self.ports, &binding.input_port) {
            Some(index) => index,
            None => {
                return Err(MappingError::IoPortNotFound(binding.input_port.clone()));
            },
        };
        let drive = match find_mapped_port(&self.ports, &binding.drive_low_port) {
            Some(index) => index,
            None => {
                return Err(MappingError::IoPortNotFound(binding.drive_low_port.clone()));
            },
        };
        if input == drive {
            return Err(
                MappingError::IoPortsMustDiffer {
                    input: binding.input_port.clone(),
                    drive_low: binding.drive_low_port.clone(),
                },
            );
        }
        if find_mapped_port(&self.ports, &binding.pin).is_some() {
            return Err(MappingError::IoPortAlreadyExists(binding.pin.clone()));
        }
        let input_port = &self.ports[input];
        let drive_port = &self.ports[drive];
        assert(self@.ports[input as int] == input_port@);
        assert(self@.ports[drive as int] == drive_port@);
        if input_port.direction != PortDirection::Input {
            return Err(
                MappingError::IoPortDirection {
                    port: binding.input_port.clone(),
                    expected: PortDirection::Input,
                    actual: input_port.direction,
                },
            );
        }
        if drive_port.direction != PortDirection::Output {
            return Err(
                MappingError::IoPortDirection {
                    port: binding.drive_low_port.clone(),
                    expected: PortDirection::Output,
                    actual: drive_port.direction,
                },
            );
        }
        if input_port.bits.len() != 1 {
            return Err(
                MappingError::IoPortNotScalar {
                    port: binding.input_port.clone(),
                    width: input_port.bits.len(),
                },
            );
        }
        if drive_port.bits.len() != 1 {
            return Err(
                MappingError::IoPortNotScalar {
                    port: binding.drive_low_port.clone(),
                    width: drive_port.bits.len(),
                },
            );
        }
        let fabric_input = match input_port.bits[0] {
            Bit::Wire(wire) => wire,
            _ => {
                return Err(MappingError::IoInputIsConstant(binding.input_port.clone()));
            },
        };
        let drive_low = drive_port.bits[0];
        let pad = match find_wire_above(self) {
            Some(pad) => pad,
            None => {
                return Err(MappingError::MappedWireOverflow);
            },
        };
        if let Bit::Wire(_) = drive_low {
            if pad == u32::MAX {
                return Err(MappingError::MappedWireOverflow);
            }
        }
        Ok((input, drive, fabric_input, drive_low, pad))
    }

    /// Replaces one split scalar input/output pair with an open-drain pad.
    ///
    /// On an error the netlist stays as it is.
    pub fn bind_open_drain_io(&mut self, binding: &OpenDrainIo) -> (result: Result<(), MappingError>)
        ensures
            fault_of(result) == open_drain_fault(old(self)@, *binding),
            result is Ok ==> final(self)@ == open_drain_bound(old(self)@, *binding),
            result is Err ==> final(self)@ == old(self)@,
    {
        let (input, drive, fabric_input, drive_low, pad) = match self.check_open_drain(binding) {
            Ok(found) => found,
            Err(error) => {
                return Err(error);
            },
        };
        let ghost before = self@;
        let io_name = join("io_", binding.pin.as_str());
        let tristate = match drive_low {
            Bit::Zero => Bit::One,
            Bit::One => Bit::Zero,
            Bit::Wire(_) => {
                let inverted: u32 = pad + 1;
                let name = unique_cell_name(
                    join(io_name.as_str(), "_drive_low_invert").as_str(),
                    &self.cells,
                    None,
                );
                let inverter = Ecp5Cell::Lut4 {
                    name,
                    inputs: [drive_low, Bit::Zero, Bit::Zero, Bit::Zero],
                    output: inverted,
                    init: INVERTER_INIT,
                };
                proof {
                    lemma_cell_added(self.cells@, inverter);
                }
                self.cells.push(inverter);
                Bit::Wire(inverted)
            },
        };
        let name = unique_cell_name(io_name.as_str(), &self.cells, None);
        let buffer = Ecp5Cell::TrellisIo {
            name,
            pad,
            fabric_output: Bit::Zero,
            fabric_input,
            tristate,
        };
        proof {
            lemma_cell_added(self.cells@, buffer);
        }
        self.cells.push(buffer);
        let mut removed: Vec<usize> = Vec::new();
        removed.push(input);
        removed.push(drive);
        assert(removed@ =~= seq![input, drive]);
        let at: usize = if input < drive {
            input
        } else {
            drive
        };
        let count: usize = self.ports.len();
        let mut kept = remove_ports(&self.ports, &removed);
        proof {
            assert(count == before.ports.len());
            lemma_kept_prefix(before.ports, removed@, at as int, before.ports.len());
            assert(port_models(kept@).len() == kept@.len());
        }
        let mut bits: Vec<Bit> = Vec::new();
        bits.push(Bit::Wire(pad));
        assert(bits@ =~= seq![Bit::Wire(pad)]);
        let port = MappedPort {
            name: binding.pin.clone(),
            direction: PortDirection::Inout,
            bits,
        };
        let ghost models = port_models(kept@);
        let ghost pad_port = port@;
        kept.insert(at, port);
        assert(port_models(kept@) =~= models.insert(at as int, pad_port));
        self.ports = kept;
        Ok(())
    }
}

/// The first fault when bindings are made one after the other from `from` on.
pub open spec fn open_drains_fault(
    netlist: NetlistModel,
    bindings: Seq<OpenDrainIo>,
    from: int,
) -> Option<MappingFault>
    decreases bindings.len() - from,
{
    if from >= bindings.len() {
        None
    } else {
        match open_drain_fault(netlist, bindings[from]) {
            Some(fault) => Some(fault),
            None => open_drains_fault(
                open_drain_bound(netlist, bindings[from]),
                bindings,
                from + 1,
            ),
        }
    }
}

/// A netlist with the bindings from `from` on made one after the other.
pub open spec fn open_drains_bound(
    netlist: NetlistModel,
    bindings: Seq<OpenDrainIo>,
    from: int,
) -> NetlistModel
    decreases bindings.len() - from,
{
    if from >= bindings.len() {
        netlist
    } else {
        open_drains_bound(open_drain_bound(netlist, bindings[from]), bindings, from + 1)
    }
}

impl Ecp5Netlist {
    /// Atomically binds multiple split interfaces to open-drain pads.
    ///
    /// The first failing binding decides the error, and the netlist then stays as it is.
    pub fn bind_open_drain_ios(&mut self, bindings: &[OpenDrainIo]) -> (result: Result<
        (),
        MappingError,
    >)
        ensures
            fault_of(result) == open_drains_fault(old(self)@, bindings@, 0),
            result is Ok ==> final(self)@ == open_drains_bound(old(self)@, bindings@, 0),
            result is Err ==> final(self)@ == old(self)@,
    {
        let ghost start = self@;
        let mut candidate = self.clone();
        let mut i: usize = 0;
        while i < bindings.len()
            invariant
                start == old(self)@,
                self@ == start,
                i <= bindings@.len(),
                open_drains_fault(start, bindings@, 0) == open_drains_fault(
                    candidate@,
                    bindings@,
                    i as int,
                ),
                open_drains_bound(start, bindings@, 0) == open_drains_bound(
                    candidate@,
                    bindings@,
                    i as int,
                ),
            decreases bindings@.len() - i,
        {
            match candidate.bind_open_drain_io(&bindings[i]) {
                Ok(()) => {},
                Err(error) => {
                    return Err(error);
                },
            }
            i += 1;
        }
        *self = candidate;
        Ok(())
    }
}

/// Whether no two ports share a name.
pub open spec fn ports_differ(ports: Seq<PortModel>) -> bool {
    forall|i: int, j: int|
        0 <= i < j < ports.len() ==> (#[trigger] ports[i]).name != (#[trigger] ports[j]).name
}

/// The port that is found has the name, and none has it where none is found.
pub proof fn lemma_port_found(ports: Seq<PortModel>, name: Seq<char>, from: int)
    requires
        0 <= from,
    ensures
        mapped_port_from(ports, name, from) matches Some(index) ==> from <= index < ports.len()
            && ports[index].name == name,
        mapped_port_from(ports, name, from) is None ==> forall|i: int|
            from <= i < ports.len() ==> (#[trigger] ports[i]).name != name,
    decreases ports.len() - from,
{
    if from < ports.len() && ports[from].name != name {
        lemma_port_found(ports, name, from + 1);
    }
}

proof fn lemma_kept_ports(ports: Seq<PortModel>, removed: Seq<usize>, count: nat, at: int)
    requires
        count <= ports.len() <= usize::MAX,
        0 <= at < kept_ports(ports, removed, count).len(),
    ensures
        exists|i: int|
            0 <= i < count && #[trigger] ports[i] == kept_ports(ports, removed, count)[at]
                && !removed.contains(i as usize),
    decreases count,
{
    let last = (count - 1) as nat;
    let rest = kept_ports(ports, removed, last);
    if at < rest.len() {
        lemma_kept_ports(ports, removed, last, at);
        let i = choose|i: int|
            0 <= i < last && #[trigger] ports[i] == rest[at] && !removed.contains(i as usize);
        assert(ports[i] == kept_ports(ports, removed, count)[at]);
    } else {
        assert(ports[last as int] == kept_ports(ports, removed, count)[at]);
    }
}

proof fn lemma_removed_port_is_gone(ports: Seq<PortModel>, removed: Seq<usize>, name: Seq<char>)
    requires
        ports.len() <= usize::MAX,
        ports_differ(ports),
        mapped_port_at(ports, name) is Some,
        removed.contains(port_index(ports, name)),
    ensures
        mapped_port_at(kept_ports(ports, removed, ports.len()), name) is None,
{
    let kept = kept_ports(ports, removed, ports.len());
    lemma_port_found(kept, name, 0);
    lemma_port_found(ports, name, 0);
    if mapped_port_at(kept, name) is Some {
        let at = mapped_port_at(kept, name)->0;
        lemma_kept_ports(ports, removed, ports.len(), at);
        let i = choose|i: int|
            0 <= i < ports.len() && #[trigger] ports[i] == kept[at] && !removed.contains(
                i as usize,
            );
        let index = mapped_port_at(ports, name)->0;
        assert(ports[i].name == ports[index].name);
        assert(i == index);
    }
}

proof fn lemma_role_is_found(
    ports: Seq<PortModel>,
    roles: Seq<(Seq<char>, PortDirection)>,
    from: int,
    index: int,
)
    requires
        jtagg_roles_fault(ports, roles, from) is None,
        0 <= from <= index < roles.len(),
    ensures
        mapped_port_at(ports, roles[index].0) is Some,
    decreases index - from,
{
    if from < index {
        lemma_role_is_found(ports, roles, from + 1, index);
    }
}

/// Binding the TAP takes all eleven logical ports off the pin list and adds one
/// primitive.
pub proof fn law_jtagg_removes_ports(netlist: NetlistModel, binding: JtaggBinding, role: int)
    requires
        netlist.ports.len() <= usize::MAX,
        ports_differ(netlist.ports),
        jtagg_fault(netlist, binding) is None,
        0 <= role < jtagg_roles(binding).len(),
    ensures
        mapped_port_at(jtagg_bound(netlist, binding).ports, jtagg_roles(binding)[role].0) is None,
        jtagg_bound(netlist, binding).cells.len() == netlist.cells.len() + 1,
        jtagg_bound(netlist, binding).cells.last() is Jtagg,
{
    let ports = netlist.ports;
    let roles = jtagg_roles(binding);
    let removed = Seq::new(roles.len(), |i: int| port_index(ports, roles[i].0));
    lemma_role_is_found(ports, roles, 0, role);
    assert(removed[role] == port_index(ports, roles[role].0));
    lemma_removed_port_is_gone(ports, removed, roles[role].0);
}

/// The TAP is bound at most once.
pub proof fn law_second_jtagg_is_refused(
    netlist: NetlistModel,
    first: JtaggBinding,
    second: JtaggBinding,
)
    ensures
        jtagg_fault(jtagg_bound(netlist, first), second) == Some(MappingFault::JtaggAlreadyBound),
{
    let cells = jtagg_bound(netlist, first).cells;
    assert(cells[netlist.cells.len() as int] is Jtagg);
}

proof fn lemma_pll_role_is_found(
    ports: Seq<PortModel>,
    roles: Seq<Seq<char>>,
    from: int,
    index: int,
)
    requires
        pll_roles_fault(ports, roles, from) is None,
        0 <= from <= index < roles.len(),
    ensures
        mapped_port_at(ports, roles[index]) is Some,
    decreases index - from,
{
    if from < index {
        lemma_pll_role_is_found(ports, roles, from + 1, index);
    }
}

proof fn lemma_pll_clock_is_found(
    ports: Seq<PortModel>,
    binding: PllBinding,
    from: int,
    index: int,
)
    requires
        pll_clocks_fault(ports, binding, from) is None,
        0 <= from <= index < binding.additional_output_clock_ports@.len(),
    ensures
        mapped_port_at(ports, binding.additional_output_clock_ports@[index].0) is Some,
    decreases index - from,
{
    if from < index {
        lemma_pll_clock_is_found(ports, binding, from + 1, index);
    }
}

/// Binding a PLL takes its logical outputs off the pin list and adds one
/// primitive.
pub proof fn law_pll_removes_ports(netlist: NetlistModel, binding: PllBinding)
    requires
        netlist.ports.len() <= usize::MAX,
        ports_differ(netlist.ports),
        pll_fault(netlist, binding) is None,
    ensures
        mapped_port_at(pll_bound(netlist, binding).ports, binding.output_clock_port@) is None,
        mapped_port_at(pll_bound(netlist, binding).ports, binding.locked_port@) is None,
        forall|i: int|
            0 <= i < binding.additional_output_clock_ports@.len() ==> mapped_port_at(
                pll_bound(netlist, binding).ports,
                (#[trigger] binding.additional_output_clock_ports@[i]).0,
            ) is None,
        pll_bound(netlist, binding).cells.len() == netlist.cells.len() + 1,
        pll_bound(netlist, binding).cells.last() is Pll,
{
    let ports = netlist.ports;
    let roles = pll_roles(binding);
    let clocks = binding.additional_output_clock_ports@;
    let removed = pll_driven(ports, binding);
    lemma_pll_role_is_found(ports, roles, 0, 1);
    lemma_pll_role_is_found(ports, roles, 0, 2);
    assert(removed[0] == port_index(ports, roles[1]));
    assert(removed[1] == port_index(ports, roles[2]));
    lemma_removed_port_is_gone(ports, removed, roles[1]);
    lemma_removed_port_is_gone(ports, removed, roles[2]);
    assert forall|i: int| 0 <= i < clocks.len() implies mapped_port_at(
        pll_bound(netlist, binding).ports,
        (#[trigger] clocks[i]).0,
    ) is None by {
        lemma_pll_clock_is_found(ports, binding, 0, i);
        assert(removed[i + 2] == port_index(ports, clocks[i].0));
        lemma_removed_port_is_gone(ports, removed, clocks[i].0);
    }
}

/// An open-drain pad drives only zero and is released exactly where the core
/// does not pull it low: its tristate input is the inverted drive-low signal.
pub proof fn law_open_drain_only_pulls_low(
    values: spec_fn(u32) -> bool,
    netlist: NetlistModel,
    binding: OpenDrainIo,
)
    requires
        open_drain_fault(netlist, binding) is None,
        cells_agree(values, open_drain_bound(netlist, binding).cells),
    ensures
        open_drain_bound(netlist, binding).cells.last() matches CellModel::TrellisIo {
            fabric_output,
            tristate,
            ..
        } && fabric_output == Bit::Zero && bit_value(values, tristate) == !bit_value(
            values,
            port_bit(netlist.ports, binding.drive_low_port@),
        ),
{
    let drive = port_bit(netlist.ports, binding.drive_low_port@);
    let cells = open_drain_bound(netlist, binding).cells;
    if drive is Wire {
        let at = netlist.cells.len() as int;
        assert(cell_agrees(values, cells[at]));
        assert(table_bit(INVERTER_INIT, 0) && !table_bit(INVERTER_INIT, 1)) by {
            assert(0x5555u16 & (1u16 << 0u16) != 0) by (bit_vector);
            assert(0x5555u16 & (1u16 << 1u16) == 0) by (bit_vector);
        }
    }
}

} // verus!
