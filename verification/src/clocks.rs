//! Named clocks and out-of-context timing resolved against a netlist.

use vstd::prelude::*;

use crate::boundary::asynchronous_fault;
use crate::boundary::input_fault;
use crate::boundary::input_message;
use crate::boundary::output_fault;
use crate::boundary::output_message;
use crate::boundary::validate_ooc_asynchronous_control;
use crate::boundary::validate_ooc_input_boundary;
use crate::boundary::validate_ooc_output_boundary;
use crate::cells::Bit;
use crate::constraints::common_period;
use crate::constraints::common_usable_period;
use crate::constraints::largest_uncertainty;
use crate::constraints::usable_period;
use crate::constraints::IoTimingConstraints;
use crate::constraints::OocPortConstraint;
use crate::constraints::OocTimingConstraints;
use crate::constraints::TimingClockConstraint;
use crate::constraints::TimingConstraints;
use crate::errors::between;
use crate::errors::direction_text;
use crate::errors::fault_of;
use crate::errors::MappingError;
use crate::errors::MappingFault;
use crate::ir::find_port;
use crate::ir::net_wire;
use crate::ir::port_at;
use crate::ir::port_is_valid;
use crate::ir::wire_number;
use crate::ir::NetId;
use crate::ir::Netlist;
use crate::ir::Port;
use crate::ir::PortDirection as SourceDirection;
use crate::mapping::io_timing_fault;
use crate::mapping::mapped_direction;
use crate::mapping::validate_io_timing;
use crate::names::named;
use crate::names::with_entry;
use crate::names::NameMap;
use crate::netlist::clock_models;
use crate::netlist::ClockModel;
use crate::netlist::ResolvedClockTiming;
use crate::text::characters;
use crate::text::decimal;
use crate::text::decimal_text;

verus! {

/// Whether a character is white space.
pub open spec fn is_white(c: char) -> bool {
    let code = c as u32;
    (9 <= code <= 13) || code == 0x20 || code == 0x85 || code == 0xa0 || code == 0x1680 || (0x2000
        <= code <= 0x200a) || code == 0x2028 || code == 0x2029 || code == 0x202f || code == 0x205f
        || code == 0x3000
}

/// Whether a name holds nothing but white space.
pub open spec fn is_blank(name: Seq<char>) -> bool {
    forall|i: int| 0 <= i < name.len() ==> is_white(#[trigger] name[i])
}

fn check_blank(name: &String) -> (blank: bool)
    ensures
        blank == is_blank(name@),
{
    let chars = characters(name.as_str());
    for i in 0..chars.len()
        invariant
            chars@ == name@,
            forall|j: int| 0 <= j < i ==> is_white(#[trigger] chars@[j]),
    {
        let code = chars[i] as u32;
        let white = (9 <= code && code <= 13) || code == 0x20 || code == 0x85 || code == 0xa0
            || code == 0x1680 || (0x2000 <= code && code <= 0x200a) || code == 0x2028 || code
            == 0x2029 || code == 0x202f || code == 0x205f || code == 0x3000;
        if !white {
            assert(!is_white(name@[i as int]));
            return false;
        }
    }
    true
}

/// A named clock's trouble with its port: `clock`, the name, `port`, the port, and the rest.
pub open spec fn clock_port_message(
    name: Seq<char>,
    port: Seq<char>,
    rest: Seq<char>,
) -> Seq<char> {
    "clock `"@ + name + "` port `"@ + port + "`"@ + rest
}

fn write_clock_port(name: &String, port: &String, rest: &str) -> (text: String)
    ensures
        text@ == clock_port_message(name@, port@, rest@),
{
    let mut text = between("clock `", name.as_str(), "` port `");
    text.append(port.as_str());
    text.append("`");
    text.append(rest);
    text
}

/// That a port is wider than one bit, in words.
pub open spec fn wide_text(width: nat) -> Seq<char> {
    " has width "@ + decimal_text(width) + ", expected one bit"@
}

/// That two clocks share a port, in words.
pub open spec fn shared_port_message(port: Seq<char>) -> Seq<char> {
    "clock port `"@ + port + "` is assigned to more than one named clock"@
}

/// Two times of a clock in words.
pub open spec fn clock_times_message(
    name: Seq<char>,
    first_text: Seq<char>,
    first: nat,
    middle: Seq<char>,
    second: nat,
    rest: Seq<char>,
) -> Seq<char> {
    "clock `"@ + name + first_text + decimal_text(first) + middle + decimal_text(second) + rest
}

fn write_clock_times(
    name: &String,
    first_text: &str,
    first: u32,
    middle: &str,
    second: u32,
    rest: &str,
) -> (text: String)
    ensures
        text@ == clock_times_message(
            name@,
            first_text@,
            first as nat,
            middle@,
            second as nat,
            rest@,
        ),
{
    let mut text = between("clock `", name.as_str(), first_text);
    text.append(decimal(first as u128).as_str());
    text.append(middle);
    text.append(decimal(second as u128).as_str());
    text.append(rest);
    text
}

/// Whether one of the first `count` clocks uses `port`.
pub open spec fn port_used(
    clocks: Seq<(Seq<char>, TimingClockConstraint)>,
    port: Seq<char>,
    count: int,
) -> bool {
    exists|i: int| 0 <= i < count && (#[trigger] clocks[i]).1.port@ == port
}

fn check_port_used(
    clocks: &NameMap<TimingClockConstraint>,
    port: &String,
    count: usize,
) -> (used: bool)
    requires
        count <= clocks.entries@.len(),
    ensures
        used == port_used(clocks@, port@, count as int),
{
    for i in 0..count
        invariant
            count <= clocks.entries@.len(),
            forall|j: int| 0 <= j < i ==> (#[trigger] clocks@[j]).1.port@ != port@,
    {
        assert(clocks@[i as int].1 == clocks.entries@[i as int].1);
        if clocks.entries[i].1.port == *port {
            return true;
        }
    }
    false
}

/// What is wrong with clock `index`.
pub open spec fn clock_fault(
    ports: Seq<Port>,
    clocks: Seq<(Seq<char>, TimingClockConstraint)>,
    index: int,
) -> Option<Seq<char>> {
    let name = clocks[index].0;
    let clock = clocks[index].1;
    if is_blank(name) {
        Some("clock names must not be empty"@)
    } else if usable_period(clock.period_ps, clock.uncertainty_ps) is None {
        Some(
            clock_times_message(
                name,
                "` period "@,
                clock.period_ps as nat,
                " ps must be greater than its uncertainty "@,
                clock.uncertainty_ps as nat,
                " ps"@,
            ),
        )
    } else {
        match port_at(ports, clock.port@) {
            None => Some(clock_port_message(name, clock.port@, " was not found"@)),
            Some(port) => if !(ports[port].direction is Input) {
                Some(clock_port_message(name, clock.port@, " is not an input"@))
            } else if ports[port].bits@.len() != 1 {
                Some(
                    clock_port_message(name, clock.port@, wide_text(ports[port].bits@.len())),
                )
            } else if port_used(clocks, clock.port@, index) {
                Some(shared_port_message(clock.port@))
            } else {
                None
            },
        }
    }
}

/// What is wrong with the first faulty clock at or after `from`.
pub open spec fn clocks_fault(
    ports: Seq<Port>,
    clocks: Seq<(Seq<char>, TimingClockConstraint)>,
    from: int,
) -> Option<Seq<char>>
    decreases clocks.len() - from,
{
    if from >= clocks.len() {
        None
    } else {
        match clock_fault(ports, clocks, from) {
            Some(message) => Some(message),
            None => clocks_fault(ports, clocks, from + 1),
        }
    }
}

/// The net of a clock.
pub open spec fn clock_net(ports: Seq<Port>, clock: TimingClockConstraint) -> NetId {
    ports[port_at(ports, clock.port@)->0].bits@[0]
}

/// Whether one of the clocks is on `net`.
pub open spec fn is_declared(
    ports: Seq<Port>,
    clocks: Seq<(Seq<char>, TimingClockConstraint)>,
    net: NetId,
) -> bool {
    exists|i: int| 0 <= i < clocks.len() && clock_net(ports, (#[trigger] clocks[i]).1) == net
}

/// That state has an undeclared clock, in words.
pub open spec fn undeclared_message(kind: Seq<char>, name: Seq<char>) -> Seq<char> {
    kind + " `"@ + name + "` uses a clock that is not declared in `clocks`"@
}

/// The first register at or after `from` with an undeclared clock.
pub open spec fn registers_undeclared(
    netlist: Netlist,
    clocks: Seq<(Seq<char>, TimingClockConstraint)>,
    from: int,
) -> Option<Seq<char>>
    decreases netlist.registers@.len() - from,
{
    if from >= netlist.registers@.len() {
        None
    } else if !is_declared(netlist.ports@, clocks, netlist.registers@[from].clock) {
        Some(undeclared_message("register"@, netlist.registers@[from].name@))
    } else {
        registers_undeclared(netlist, clocks, from + 1)
    }
}

/// The first memory at or after `from` with an undeclared clock.
pub open spec fn memories_undeclared(
    netlist: Netlist,
    clocks: Seq<(Seq<char>, TimingClockConstraint)>,
    from: int,
) -> Option<Seq<char>>
    decreases netlist.memories@.len() - from,
{
    if from >= netlist.memories@.len() {
        None
    } else {
        let memory = netlist.memories@[from];
        if !is_declared(netlist.ports@, clocks, memory.port.clock) {
            Some(undeclared_message("memory"@, memory.name@))
        } else if memory.second_port is Some && !is_declared(
            netlist.ports@,
            clocks,
            memory.second_port->0.clock,
        ) {
            Some(undeclared_message("memory second port"@, memory.name@))
        } else {
            memories_undeclared(netlist, clocks, from + 1)
        }
    }
}

/// What is wrong with a set of named clocks; an empty set declares nothing.
pub open spec fn clock_set_fault(
    netlist: Netlist,
    clocks: Seq<(Seq<char>, TimingClockConstraint)>,
) -> Option<Seq<char>> {
    if clocks.len() == 0 {
        None
    } else {
        match clocks_fault(netlist.ports@, clocks, 0) {
            Some(message) => Some(message),
            None => match registers_undeclared(netlist, clocks, 0) {
                Some(message) => Some(message),
                None => memories_undeclared(netlist, clocks, 0),
            },
        }
    }
}

/// Named clocks on mapped bits.
pub open spec fn resolved_clocks(
    ports: Seq<Port>,
    clocks: Seq<(Seq<char>, TimingClockConstraint)>,
) -> Seq<ClockModel> {
    Seq::new(
        clocks.len(),
        |i: int|
            ClockModel {
                name: clocks[i].0,
                net_name: clocks[i].1.port@,
                bit: Bit::Wire(net_wire(clock_net(ports, clocks[i].1))),
                period_ps: clocks[i].1.period_ps,
                uncertainty_ps: clocks[i].1.uncertainty_ps,
            },
    )
}

fn check_clock(ports: &Vec<Port>, clocks: &NameMap<TimingClockConstraint>, index: usize) -> (result:
    Result<usize, String>)
    requires
        index < clocks.entries@.len(),
    ensures
        match result {
            Ok(port) => clock_fault(ports@, clocks@, index as int) is None && port < ports@.len()
                && port_at(ports@, clocks@[index as int].1.port@) == Some(port as int)
                && ports@[port as int].bits@.len() == 1 && ports@[port as int].direction is Input,
            Err(message) => clock_fault(ports@, clocks@, index as int) == Some(message@),
        },
{
    let entry = &clocks.entries[index];
    let name = &entry.0;
    let clock = &entry.1;
    assert(clocks@[index as int] == (name@, *clock));
    if check_blank(name) {
        return Err("clock names must not be empty".to_owned());
    }
    if clock.effective_period_ps().is_none() {
        return Err(
            write_clock_times(
                name,
                "` period ",
                clock.period_ps,
                " ps must be greater than its uncertainty ",
                clock.uncertainty_ps,
                " ps",
            ),
        );
    }
    let port = match find_port(ports, &clock.port) {
        Some(port) => port,
        None => {
            return Err(write_clock_port(name, &clock.port, " was not found"));
        },
    };
    if ports[port].direction != SourceDirection::Input {
        return Err(write_clock_port(name, &clock.port, " is not an input"));
    }
    if ports[port].bits.len() != 1 {
        return Err(
            write_clock_port(
                name,
                &clock.port,
                between(
                    " has width ",
                    decimal(ports[port].bits.len() as u128).as_str(),
                    ", expected one bit",
                ).as_str(),
            ),
        );
    }
    if check_port_used(clocks, &clock.port, index) {
        return Err(
            between(
                "clock port `",
                clock.port.as_str(),
                "` is assigned to more than one named clock",
            ),
        );
    }
    Ok(port)
}

fn check_declared(nets: &Vec<NetId>, net: NetId) -> (declared: bool)
    ensures
        declared == nets@.contains(net),
{
    crate::ir::holds_net(nets, net)
}

proof fn lemma_declared(
    ports: Seq<Port>,
    clocks: Seq<(Seq<char>, TimingClockConstraint)>,
    nets: Seq<NetId>,
    net: NetId,
)
    requires
        nets.len() == clocks.len(),
        forall|i: int| 0 <= i < nets.len() ==> #[trigger] nets[i] == clock_net(ports, clocks[i].1),
    ensures
        nets.contains(net) == is_declared(ports, clocks, net),
{
    if nets.contains(net) {
        let i = choose|i: int| 0 <= i < nets.len() && nets[i] == net;
        assert(clock_net(ports, clocks[i].1) == net);
    }
    if is_declared(ports, clocks, net) {
        let i = choose|i: int|
            0 <= i < clocks.len() && clock_net(ports, (#[trigger] clocks[i]).1) == net;
        assert(nets[i] == net);
    }
}

fn write_undeclared(kind: &str, name: &String) -> (text: String)
    ensures
        text@ == undeclared_message(kind@, name@),
{
    let mut text = between(kind, " `", name.as_str());
    text.append("` uses a clock that is not declared in `clocks`");
    text
}

fn check_state_clocks(
    netlist: &Netlist,
    clocks: &NameMap<TimingClockConstraint>,
    nets: &Vec<NetId>,
) -> (result: Result<(), String>)
    requires
        nets@.len() == clocks@.len(),
        forall|i: int|
            0 <= i < nets@.len() ==> #[trigger] nets@[i] == clock_net(
                netlist.ports@,
                clocks@[i].1,
            ),
    ensures
        match result {
            Ok(()) => registers_undeclared(*netlist, clocks@, 0) is None && memories_undeclared(
                *netlist,
                clocks@,
                0,
            ) is None,
            Err(message) => Some(message@) == match registers_undeclared(*netlist, clocks@, 0) {
                Some(text) => Some(text),
                None => memories_undeclared(*netlist, clocks@, 0),
            },
        },
{
    for i in 0..netlist.registers.len()
        invariant
            nets@.len() == clocks@.len(),
            forall|i: int|
                0 <= i < nets@.len() ==> #[trigger] nets@[i] == clock_net(
                    netlist.ports@,
                    clocks@[i].1,
                ),
            registers_undeclared(*netlist, clocks@, 0) == registers_undeclared(
                *netlist,
                clocks@,
                i as int,
            ),
    {
        let register = &netlist.registers[i];
        proof {
            lemma_declared(netlist.ports@, clocks@, nets@, register.clock);
        }
        if !check_declared(nets, register.clock) {
            return Err(write_undeclared("register", &register.name));
        }
    }
    for i in 0..netlist.memories.len()
        invariant
            nets@.len() == clocks@.len(),
            forall|i: int|
                0 <= i < nets@.len() ==> #[trigger] nets@[i] == clock_net(
                    netlist.ports@,
                    clocks@[i].1,
                ),
            registers_undeclared(*netlist, clocks@, 0) is None,
            memories_undeclared(*netlist, clocks@, 0) == memories_undeclared(
                *netlist,
                clocks@,
                i as int,
            ),
    {
        let memory = &netlist.memories[i];
        proof {
            lemma_declared(netlist.ports@, clocks@, nets@, memory.port.clock);
        }
        if !check_declared(nets, memory.port.clock) {
            return Err(write_undeclared("memory", &memory.name));
        }
        if let Some(port) = &memory.second_port {
            proof {
                lemma_declared(netlist.ports@, clocks@, nets@, port.clock);
            }
            if !check_declared(nets, port.clock) {
                return Err(write_undeclared("memory second port", &memory.name));
            }
        }
    }
    Ok(())
}

/// Resolves named clocks, or says what is wrong with them.
fn resolve_named_clocks(netlist: &Netlist, clocks: &NameMap<TimingClockConstraint>) -> (result:
    Result<Vec<ResolvedClockTiming>, String>)
    requires
        netlist.is_valid(),
    ensures
        match result {
            Ok(resolved) => clock_set_fault(*netlist, clocks@) is None && clock_models(resolved@)
                == resolved_clocks(netlist.ports@, clocks@),
            Err(message) => clock_set_fault(*netlist, clocks@) == Some(message@),
        },
{
    let mut resolved: Vec<ResolvedClockTiming> = Vec::new();
    let mut nets: Vec<NetId> = Vec::new();
    let ghost models = resolved_clocks(netlist.ports@, clocks@);
    for i in 0..clocks.entries.len()
        invariant
            netlist.is_valid(),
            models == resolved_clocks(netlist.ports@, clocks@),
            clocks_fault(netlist.ports@, clocks@, 0) == clocks_fault(
                netlist.ports@,
                clocks@,
                i as int,
            ),
            resolved@.len() == i,
            nets@.len() == i,
            forall|j: int| 0 <= j < i ==> (#[trigger] resolved@[j])@ == models[j],
            forall|j: int|
                0 <= j < i ==> #[trigger] nets@[j] == clock_net(netlist.ports@, clocks@[j].1),
    {
        let port = match check_clock(&netlist.ports, clocks, i) {
            Ok(port) => port,
            Err(message) => {
                return Err(message);
            },
        };
        let entry = &clocks.entries[i];
        assert(clocks@[i as int] == (entry.0@, entry.1));
        assert(port_is_valid(netlist.nodes@, netlist.ports@[port as int]));
        let net = netlist.ports[port].bits[0];
        assert(netlist.ports@[port as int].bits@[0] < netlist.nodes@.len());
        nets.push(net);
        let clock = ResolvedClockTiming {
            name: entry.0.clone(),
            net_name: entry.1.port.clone(),
            bit: Bit::Wire(wire_number(net)),
            period_ps: entry.1.period_ps,
            uncertainty_ps: entry.1.uncertainty_ps,
        };
        assert(clock@ =~= models[i as int]);
        resolved.push(clock);
    }
    assert(clock_models(resolved@) =~= models);
    if clocks.entries.len() > 0 {
        if let Err(message) = check_state_clocks(netlist, clocks, &nets) {
            return Err(message);
        }
    }
    Ok(resolved)
}

/// The fault that a message stands for.
pub open spec fn constraint_fault(message: Option<Seq<char>>, ooc: bool) -> Option<MappingFault> {
    match message {
        Some(text) => if ooc {
            Some(MappingFault::InvalidOocConstraint(text))
        } else {
            Some(MappingFault::InvalidTimingConstraint(text))
        },
        None => None,
    }
}

/// Resolves named clocks against a netlist.
pub fn resolve_clock_timing(
    netlist: &Netlist,
    clocks: &NameMap<TimingClockConstraint>,
    ooc: bool,
) -> (result: Result<Vec<ResolvedClockTiming>, MappingError>)
    requires
        netlist.is_valid(),
    ensures
        fault_of(result) == constraint_fault(clock_set_fault(*netlist, clocks@), ooc),
        result matches Ok(resolved) ==> clock_models(resolved@) == resolved_clocks(
            netlist.ports@,
            clocks@,
        ),
{
    match resolve_named_clocks(netlist, clocks) {
        Ok(resolved) => Ok(resolved),
        Err(message) => if ooc {
            Err(MappingError::InvalidOocConstraint(message))
        } else {
            Err(MappingError::InvalidTimingConstraint(message))
        },
    }
}

/// What is wrong with a shared timing context.
pub open spec fn timing_fault(netlist: Netlist, constraints: TimingConstraints) -> Option<
    Seq<char>,
> {
    if constraints.input_delays_ps@.len() > 0 || constraints.output_delays_ps@.len() > 0 {
        Some(
            "I/O delays are not supported by the current ECP5/nextpnr backend; use mapper-only `IoTimingConstraints` when physical sign-off is not required"@,
        )
    } else if constraints.false_paths@.len() > 0 {
        Some("false paths are not supported by the current ECP5/nextpnr backend"@)
    } else if constraints.multicycle_paths@.len() > 0 {
        Some("multicycle paths are not supported by the current ECP5/nextpnr backend"@)
    } else {
        clock_set_fault(netlist, constraints.clocks@)
    }
}

/// Resolves a shared timing context against a netlist.
pub fn resolve_timing_constraints(netlist: &Netlist, constraints: &TimingConstraints) -> (result:
    Result<Vec<ResolvedClockTiming>, MappingError>)
    requires
        netlist.is_valid(),
    ensures
        fault_of(result) == constraint_fault(timing_fault(*netlist, *constraints), false),
        result matches Ok(resolved) ==> clock_models(resolved@) == resolved_clocks(
            netlist.ports@,
            constraints.clocks@,
        ),
{
    if constraints.input_delays_ps.entries.len() > 0 || constraints.output_delays_ps.entries.len()
        > 0 {
        return Err(
            MappingError::InvalidTimingConstraint(
                "I/O delays are not supported by the current ECP5/nextpnr backend; use mapper-only `IoTimingConstraints` when physical sign-off is not required".to_owned(),
            ),
        );
    }
    if constraints.false_paths.len() > 0 {
        return Err(
            MappingError::InvalidTimingConstraint(
                "false paths are not supported by the current ECP5/nextpnr backend".to_owned(),
            ),
        );
    }
    if constraints.multicycle_paths.len() > 0 {
        return Err(
            MappingError::InvalidTimingConstraint(
                "multicycle paths are not supported by the current ECP5/nextpnr backend".to_owned(),
            ),
        );
    }
    resolve_clock_timing(netlist, &constraints.clocks, false)
}

/// Why an out-of-context port cannot be used.
pub open spec fn ooc_port_fault(ports: Seq<Port>, name: Seq<char>, expected: SourceDirection) -> Option<
    Seq<char>,
> {
    match port_at(ports, name) {
        None => Some("port `"@ + name + "` was not found"@),
        Some(port) => if ports[port].direction == expected {
            None
        } else {
            Some(
                "port `"@ + name + "` has direction "@ + direction_text(
                    mapped_direction(ports[port].direction),
                ) + ", expected "@ + direction_text(mapped_direction(expected)),
            )
        },
    }
}

fn source_direction_name(direction: SourceDirection) -> (text: &'static str)
    ensures
        text@ == direction_text(mapped_direction(direction)),
{
    match direction {
        SourceDirection::Input => "Input",
        SourceDirection::Output => "Output",
    }
}

fn find_ooc_port(ports: &Vec<Port>, name: &String, expected: SourceDirection) -> (result: Result<
    usize,
    String,
>)
    ensures
        match result {
            Ok(port) => ooc_port_fault(ports@, name@, expected) is None && port < ports@.len()
                && port_at(ports@, name@) == Some(port as int) && ports@[port as int].direction
                == expected,
            Err(message) => ooc_port_fault(ports@, name@, expected) == Some(message@),
        },
{
    let port = match find_port(ports, name) {
        Some(port) => port,
        None => {
            return Err(between("port `", name.as_str(), "` was not found"));
        },
    };
    if ports[port].direction != expected {
        let mut text = between("port `", name.as_str(), "` has direction ");
        text.append(source_direction_name(ports[port].direction));
        text.append(", expected ");
        text.append(source_direction_name(expected));
        return Err(text);
    }
    Ok(port)
}

/// What is wrong with out-of-context clock `index`.
pub open spec fn ooc_clock_fault(
    ports: Seq<Port>,
    clocks: Seq<(Seq<char>, TimingClockConstraint)>,
    index: int,
) -> Option<Seq<char>> {
    let name = clocks[index].0;
    let clock = clocks[index].1;
    if is_blank(name) {
        Some("clock names must not be empty"@)
    } else if clock.uncertainty_ps >= clock.period_ps {
        Some(
            clock_times_message(
                name,
                "` uncertainty "@,
                clock.uncertainty_ps as nat,
                " ps must be smaller than its "@,
                clock.period_ps as nat,
                " ps period"@,
            ),
        )
    } else {
        match ooc_port_fault(ports, clock.port@, SourceDirection::Input) {
            Some(message) => Some(message),
            None => {
                let width = ports[port_at(ports, clock.port@)->0].bits@.len();
                if width != 1 {
                    Some(clock_port_message(name, clock.port@, wide_text(width)))
                } else if port_used(clocks, clock.port@, index) {
                    Some(shared_port_message(clock.port@))
                } else {
                    None
                }
            },
        }
    }
}

/// What is wrong with the first faulty out-of-context clock at or after `from`.
pub open spec fn ooc_clocks_fault(
    ports: Seq<Port>,
    clocks: Seq<(Seq<char>, TimingClockConstraint)>,
    from: int,
) -> Option<Seq<char>>
    decreases clocks.len() - from,
{
    if from >= clocks.len() {
        None
    } else {
        match ooc_clock_fault(ports, clocks, from) {
            Some(message) => Some(message),
            None => ooc_clocks_fault(ports, clocks, from + 1),
        }
    }
}

/// Whether a clock uses `port`.
pub open spec fn is_clock_port(constraints: OocTimingConstraints, port: Seq<char>) -> bool {
    port_used(constraints.clocks@, port, constraints.clocks@.len() as int)
}

/// Whether `port` is declared an asynchronous control.
pub open spec fn is_asynchronous_port(constraints: OocTimingConstraints, port: Seq<char>) -> bool {
    exists|i: int|
        0 <= i < constraints.asynchronous_controls@.len() && (
        #[trigger] constraints.asynchronous_controls@[i])@ == port
}

/// What is wrong with the first faulty asynchronous control at or after `from`.
pub open spec fn controls_fault(
    netlist: Netlist,
    constraints: OocTimingConstraints,
    from: int,
) -> Option<Seq<char>>
    decreases constraints.asynchronous_controls@.len() - from,
{
    if from >= constraints.asynchronous_controls@.len() {
        None
    } else {
        let name = constraints.asynchronous_controls@[from]@;
        match ooc_port_fault(netlist.ports@, name, SourceDirection::Input) {
            Some(message) => Some(message),
            None => if is_clock_port(constraints, name) {
                Some(
                    "input `"@ + name
                        + "` cannot be both a clock and an asynchronous control"@,
                )
            } else {
                match asynchronous_fault(
                    netlist,
                    netlist.ports@[port_at(netlist.ports@, name)->0],
                ) {
                    Some(message) => Some(message),
                    None => controls_fault(netlist, constraints, from + 1),
                }
            },
        }
    }
}

/// Which data port at or after `from` has no budget.
pub open spec fn coverage_fault(
    netlist: Netlist,
    constraints: OocTimingConstraints,
    from: int,
) -> Option<Seq<char>>
    decreases netlist.ports@.len() - from,
{
    if from >= netlist.ports@.len() {
        None
    } else {
        let port = netlist.ports@[from];
        let name = port.name@;
        if port.direction is Input && !is_clock_port(constraints, name) && !is_asynchronous_port(
            constraints,
            name,
        ) && named(constraints.inputs@, name) is None {
            Some("data input `"@ + name + "` has no OOC boundary constraint"@)
        } else if port.direction is Output && named(constraints.outputs@, name) is None {
            Some("data output `"@ + name + "` has no OOC boundary constraint"@)
        } else {
            coverage_fault(netlist, constraints, from + 1)
        }
    }
}

/// What is wrong with a boundary budget once the boundary is registered.
pub open spec fn budget_fault(
    kind: Seq<char>,
    name: Seq<char>,
    boundary: OocPortConstraint,
    uncertainty_ps: u32,
    nominal_ps: u32,
) -> Option<Seq<char>> {
    if boundary.max_boundary_delay_ps <= uncertainty_ps {
        Some(
            kind + " `"@ + name + "` boundary budget "@ + decimal_text(
                boundary.max_boundary_delay_ps as nat,
            ) + " ps must exceed clock `"@ + boundary.clock@ + "` uncertainty "@ + decimal_text(
                uncertainty_ps as nat,
            ) + " ps"@,
        )
    } else if boundary.max_boundary_delay_ps > nominal_ps {
        Some(
            kind + " `"@ + name + "` boundary budget "@ + decimal_text(
                boundary.max_boundary_delay_ps as nat,
            ) + " ps exceeds the "@ + decimal_text(nominal_ps as nat) + " ps clock period"@,
        )
    } else {
        None
    }
}

/// That a port names an unknown clock, in words.
pub open spec fn unknown_clock_message(port: Seq<char>, clock: Seq<char>) -> Seq<char> {
    "port `"@ + port + "` references unknown clock `"@ + clock + "`"@
}

/// What is wrong with input budget `index`.
pub open spec fn input_budget_fault(
    netlist: Netlist,
    constraints: OocTimingConstraints,
    nominal_ps: u32,
    index: int,
) -> Option<Seq<char>> {
    let name = constraints.inputs@[index].0;
    let boundary = constraints.inputs@[index].1;
    match ooc_port_fault(netlist.ports@, name, SourceDirection::Input) {
        Some(message) => Some(message),
        None => if is_clock_port(constraints, name) || is_asynchronous_port(constraints, name) {
            Some(
                "clock or asynchronous-control input `"@ + name
                    + "` cannot also be timed as data"@,
            )
        } else {
            match named(constraints.clocks@, boundary.clock@) {
                None => Some(unknown_clock_message(name, boundary.clock@)),
                Some(clock) => {
                    let port = netlist.ports@[port_at(netlist.ports@, name)->0];
                    match input_fault(netlist, port.bits@, clock_net(netlist.ports@, clock), 0) {
                        Some((bit, fault)) => Some(
                            input_message(port.name@, bit as nat, fault, boundary.clock@),
                        ),
                        None => budget_fault(
                            "input"@,
                            name,
                            boundary,
                            clock.uncertainty_ps,
                            nominal_ps,
                        ),
                    }
                },
            }
        },
    }
}

/// What is wrong with the first faulty input budget at or after `from`.
pub open spec fn input_budgets_fault(
    netlist: Netlist,
    constraints: OocTimingConstraints,
    nominal_ps: u32,
    from: int,
) -> Option<Seq<char>>
    decreases constraints.inputs@.len() - from,
{
    if from >= constraints.inputs@.len() {
        None
    } else {
        match input_budget_fault(netlist, constraints, nominal_ps, from) {
            Some(message) => Some(message),
            None => input_budgets_fault(netlist, constraints, nominal_ps, from + 1),
        }
    }
}

/// What is wrong with output budget `index`.
pub open spec fn output_budget_fault(
    netlist: Netlist,
    constraints: OocTimingConstraints,
    nominal_ps: u32,
    index: int,
) -> Option<Seq<char>> {
    let name = constraints.outputs@[index].0;
    let boundary = constraints.outputs@[index].1;
    match ooc_port_fault(netlist.ports@, name, SourceDirection::Output) {
        Some(message) => Some(message),
        None => match named(constraints.clocks@, boundary.clock@) {
            None => Some(unknown_clock_message(name, boundary.clock@)),
            Some(clock) => {
                let port = netlist.ports@[port_at(netlist.ports@, name)->0];
                match output_fault(netlist, port.bits@, clock_net(netlist.ports@, clock), 0) {
                    Some((bit, fault)) => Some(
                        output_message(port.name@, bit as nat, fault, boundary.clock@),
                    ),
                    None => budget_fault(
                        "output"@,
                        name,
                        boundary,
                        clock.uncertainty_ps,
                        nominal_ps,
                    ),
                }
            },
        },
    }
}

/// What is wrong with the first faulty output budget at or after `from`.
pub open spec fn output_budgets_fault(
    netlist: Netlist,
    constraints: OocTimingConstraints,
    nominal_ps: u32,
    from: int,
) -> Option<Seq<char>>
    decreases constraints.outputs@.len() - from,
{
    if from >= constraints.outputs@.len() {
        None
    } else {
        match output_budget_fault(netlist, constraints, nominal_ps, from) {
            Some(message) => Some(message),
            None => output_budgets_fault(netlist, constraints, nominal_ps, from + 1),
        }
    }
}

/// What is wrong with an out-of-context timing environment.
pub open spec fn ooc_fault(netlist: Netlist, constraints: OocTimingConstraints) -> Option<
    Seq<char>,
> {
    match common_period(constraints.clocks@) {
        None => Some("at least one clock with a common period is required"@),
        Some(nominal) => if nominal == 0 {
            Some("clock period must be greater than zero"@)
        } else {
            match ooc_clocks_fault(netlist.ports@, constraints.clocks@, 0) {
                Some(message) => Some(message),
                None => match controls_fault(netlist, constraints, 0) {
                    Some(message) => Some(message),
                    None => match coverage_fault(netlist, constraints, 0) {
                        Some(message) => Some(message),
                        None => match input_budgets_fault(netlist, constraints, nominal, 0) {
                            Some(message) => Some(message),
                            None => output_budgets_fault(netlist, constraints, nominal, 0),
                        },
                    },
                },
            }
        },
    }
}

/// The delay that leaves the usable part of a budget before the period ends.
pub open spec fn boundary_delay(
    effective_ps: u32,
    boundary: OocPortConstraint,
    uncertainty_ps: u32,
) -> u32 {
    let usable = boundary.max_boundary_delay_ps - uncertainty_ps;
    if usable < effective_ps {
        (effective_ps - usable) as u32
    } else {
        0
    }
}

/// The port delays of the first `count` budgets.
pub open spec fn boundary_delays(
    clocks: Seq<(Seq<char>, TimingClockConstraint)>,
    budgets: Seq<(Seq<char>, OocPortConstraint)>,
    effective_ps: u32,
    count: nat,
) -> Seq<(Seq<char>, u32)>
    decreases count,
{
    if count == 0 {
        seq![]
    } else {
        let boundary = budgets[count - 1].1;
        with_entry(
            boundary_delays(clocks, budgets, effective_ps, (count - 1) as nat),
            budgets[count - 1].0,
            boundary_delay(
                effective_ps,
                boundary,
                named(clocks, boundary.clock@)->0.uncertainty_ps,
            ),
        )
    }
}

fn check_ooc_clocks(ports: &Vec<Port>, clocks: &NameMap<TimingClockConstraint>) -> (result: Result<
    (),
    String,
>)
    ensures
        match result {
            Ok(()) => ooc_clocks_fault(ports@, clocks@, 0) is None,
            Err(message) => ooc_clocks_fault(ports@, clocks@, 0) == Some(message@),
        },
{
    for i in 0..clocks.entries.len()
        invariant
            ooc_clocks_fault(ports@, clocks@, 0) == ooc_clocks_fault(ports@, clocks@, i as int),
    {
        let entry = &clocks.entries[i];
        let name = &entry.0;
        let clock = &entry.1;
        assert(clocks@[i as int] == (name@, *clock));
        if check_blank(name) {
            return Err("clock names must not be empty".to_owned());
        }
        if clock.uncertainty_ps >= clock.period_ps {
            return Err(
                write_clock_times(
                    name,
                    "` uncertainty ",
                    clock.uncertainty_ps,
                    " ps must be smaller than its ",
                    clock.period_ps,
                    " ps period",
                ),
            );
        }
        let port = match find_ooc_port(ports, &clock.port, SourceDirection::Input) {
            Ok(port) => port,
            Err(message) => {
                return Err(message);
            },
        };
        let width: usize = ports[port].bits.len();
        if width != 1 {
            return Err(
                write_clock_port(
                    name,
                    &clock.port,
                    between(
                        " has width ",
                        decimal(width as u128).as_str(),
                        ", expected one bit",
                    ).as_str(),
                ),
            );
        }
        if check_port_used(clocks, &clock.port, i) {
            return Err(
                between(
                    "clock port `",
                    clock.port.as_str(),
                    "` is assigned to more than one named clock",
                ),
            );
        }
    }
    Ok(())
}

fn check_asynchronous_port(constraints: &OocTimingConstraints, name: &String) -> (found: bool)
    ensures
        found == is_asynchronous_port(*constraints, name@),
{
    for i in 0..constraints.asynchronous_controls.len()
        invariant
            forall|j: int|
                0 <= j < i ==> (#[trigger] constraints.asynchronous_controls@[j])@ != name@,
    {
        if constraints.asynchronous_controls[i] == *name {
            assert(constraints.asynchronous_controls@[i as int]@ == name@);
            return true;
        }
    }
    false
}

fn check_clock_port(constraints: &OocTimingConstraints, name: &String) -> (found: bool)
    ensures
        found == is_clock_port(*constraints, name@),
{
    check_port_used(&constraints.clocks, name, constraints.clocks.entries.len())
}

fn message_of(error: MappingError) -> (message: String)
    requires
        error is InvalidOocConstraint,
    ensures
        error@ == MappingFault::InvalidOocConstraint(message@),
{
    match error {
        MappingError::InvalidOocConstraint(message) => message,
        _ => "".to_owned(),
    }
}

fn check_controls(netlist: &Netlist, constraints: &OocTimingConstraints) -> (result: Result<
    (),
    String,
>)
    requires
        netlist.is_valid(),
    ensures
        match result {
            Ok(()) => controls_fault(*netlist, *constraints, 0) is None,
            Err(message) => controls_fault(*netlist, *constraints, 0) == Some(message@),
        },
{
    for i in 0..constraints.asynchronous_controls.len()
        invariant
            netlist.is_valid(),
            controls_fault(*netlist, *constraints, 0) == controls_fault(
                *netlist,
                *constraints,
                i as int,
            ),
    {
        let name = &constraints.asynchronous_controls[i];
        let port = match find_ooc_port(&netlist.ports, name, SourceDirection::Input) {
            Ok(port) => port,
            Err(message) => {
                return Err(message);
            },
        };
        if check_clock_port(constraints, name) {
            return Err(
                between(
                    "input `",
                    name.as_str(),
                    "` cannot be both a clock and an asynchronous control",
                ),
            );
        }
        if let Err(error) = validate_ooc_asynchronous_control(netlist, &netlist.ports[port]) {
            return Err(message_of(error));
        }
    }
    Ok(())
}

fn check_coverage(netlist: &Netlist, constraints: &OocTimingConstraints) -> (result: Result<
    (),
    String,
>)
    ensures
        match result {
            Ok(()) => coverage_fault(*netlist, *constraints, 0) is None,
            Err(message) => coverage_fault(*netlist, *constraints, 0) == Some(message@),
        },
{
    for i in 0..netlist.ports.len()
        invariant
            coverage_fault(*netlist, *constraints, 0) == coverage_fault(
                *netlist,
                *constraints,
                i as int,
            ),
    {
        let name = &netlist.ports[i].name;
        match netlist.ports[i].direction {
            SourceDirection::Input => {
                if !check_clock_port(constraints, name) && !check_asynchronous_port(
                    constraints,
                    name,
                ) && constraints.inputs.get(name.as_str()).is_none() {
                    return Err(
                        between(
                            "data input `",
                            name.as_str(),
                            "` has no OOC boundary constraint",
                        ),
                    );
                }
            },
            SourceDirection::Output => {
                if constraints.outputs.get(name.as_str()).is_none() {
                    return Err(
                        between(
                            "data output `",
                            name.as_str(),
                            "` has no OOC boundary constraint",
                        ),
                    );
                }
            },
        }
    }
    Ok(())
}

fn check_budget(
    kind: &str,
    name: &String,
    boundary: &OocPortConstraint,
    uncertainty_ps: u32,
    nominal_ps: u32,
) -> (result: Result<(), String>)
    ensures
        match result {
            Ok(()) => budget_fault(kind@, name@, *boundary, uncertainty_ps, nominal_ps) is None,
            Err(message) => budget_fault(kind@, name@, *boundary, uncertainty_ps, nominal_ps)
                == Some(message@),
        },
{
    let budget = boundary.max_boundary_delay_ps;
    if budget > uncertainty_ps && budget <= nominal_ps {
        return Ok(());
    }
    let mut text = between(kind, " `", name.as_str());
    text.append("` boundary budget ");
    text.append(decimal(budget as u128).as_str());
    if budget <= uncertainty_ps {
        text.append(" ps must exceed clock `");
        text.append(boundary.clock.as_str());
        text.append("` uncertainty ");
        text.append(decimal(uncertainty_ps as u128).as_str());
        text.append(" ps");
    } else {
        text.append(" ps exceeds the ");
        text.append(decimal(nominal_ps as u128).as_str());
        text.append(" ps clock period");
    }
    Err(text)
}

fn write_unknown_clock(port: &String, clock: &String) -> (text: String)
    ensures
        text@ == unknown_clock_message(port@, clock@),
{
    let mut text = between("port `", port.as_str(), "` references unknown clock `");
    text.append(clock.as_str());
    text.append("`");
    text
}

/// Every clock that can be found by name is on a one-bit input port.
proof fn lemma_named_clock(
    ports: Seq<Port>,
    clocks: Seq<(Seq<char>, TimingClockConstraint)>,
    name: Seq<char>,
    from: int,
)
    requires
        0 <= from,
        ooc_clocks_fault(ports, clocks, from) is None,
    ensures
        crate::names::named_from(clocks, name, from) matches Some(clock) ==> port_at(
            ports,
            clock.port@,
        ) is Some && ports[port_at(ports, clock.port@)->0].bits@.len() == 1,
    decreases clocks.len() - from,
{
    if from < clocks.len() && clocks[from].0 != name {
        lemma_named_clock(ports, clocks, name, from + 1);
    }
}

fn net_of_clock(ports: &Vec<Port>, clock: &TimingClockConstraint) -> (net: NetId)
    requires
        port_at(ports@, clock.port@) is Some,
        ports@[port_at(ports@, clock.port@)->0].bits@.len() == 1,
    ensures
        net == clock_net(ports@, *clock),
{
    match find_port(ports, &clock.port) {
        Some(port) => ports[port].bits[0],
        None => 0,
    }
}

fn check_inputs(
    netlist: &Netlist,
    constraints: &OocTimingConstraints,
    nominal_ps: u32,
    effective_ps: u32,
) -> (result: Result<NameMap<u32>, String>)
    requires
        netlist.is_valid(),
        ooc_clocks_fault(netlist.ports@, constraints.clocks@, 0) is None,
    ensures
        match result {
            Ok(delays) => input_budgets_fault(*netlist, *constraints, nominal_ps, 0) is None
                && delays@ == boundary_delays(
                constraints.clocks@,
                constraints.inputs@,
                effective_ps,
                constraints.inputs@.len(),
            ),
            Err(message) => input_budgets_fault(*netlist, *constraints, nominal_ps, 0) == Some(
                message@,
            ),
        },
{
    let mut delays: NameMap<u32> = NameMap::new();
    for i in 0..constraints.inputs.entries.len()
        invariant
            netlist.is_valid(),
            ooc_clocks_fault(netlist.ports@, constraints.clocks@, 0) is None,
            input_budgets_fault(*netlist, *constraints, nominal_ps, 0) == input_budgets_fault(
                *netlist,
                *constraints,
                nominal_ps,
                i as int,
            ),
            delays@ == boundary_delays(
                constraints.clocks@,
                constraints.inputs@,
                effective_ps,
                i as nat,
            ),
    {
        let entry = &constraints.inputs.entries[i];
        let name = &entry.0;
        let boundary = &entry.1;
        assert(constraints.inputs@[i as int] == (name@, *boundary));
        let port = match find_ooc_port(&netlist.ports, name, SourceDirection::Input) {
            Ok(port) => port,
            Err(message) => {
                return Err(message);
            },
        };
        if check_clock_port(constraints, name) || check_asynchronous_port(constraints, name) {
            return Err(
                between(
                    "clock or asynchronous-control input `",
                    name.as_str(),
                    "` cannot also be timed as data",
                ),
            );
        }
        let clock = match constraints.clocks.get(boundary.clock.as_str()) {
            Some(clock) => clock,
            None => {
                return Err(write_unknown_clock(name, &boundary.clock));
            },
        };
        proof {
            lemma_named_clock(netlist.ports@, constraints.clocks@, boundary.clock@, 0);
        }
        let net = net_of_clock(&netlist.ports, clock);
        if let Err(error) = validate_ooc_input_boundary(
            netlist,
            &netlist.ports[port],
            net,
            &boundary.clock,
        ) {
            return Err(message_of(error));
        }
        if let Err(message) = check_budget(
            "input",
            name,
            boundary,
            clock.uncertainty_ps,
            nominal_ps,
        ) {
            return Err(message);
        }
        let usable: u32 = boundary.max_boundary_delay_ps - clock.uncertainty_ps;
        delays.insert(name.clone(), effective_ps.saturating_sub(usable));
    }
    Ok(delays)
}

fn check_outputs(
    netlist: &Netlist,
    constraints: &OocTimingConstraints,
    nominal_ps: u32,
    effective_ps: u32,
) -> (result: Result<NameMap<u32>, String>)
    requires
        netlist.is_valid(),
        ooc_clocks_fault(netlist.ports@, constraints.clocks@, 0) is None,
    ensures
        match result {
            Ok(delays) => output_budgets_fault(*netlist, *constraints, nominal_ps, 0) is None
                && delays@ == boundary_delays(
                constraints.clocks@,
                constraints.outputs@,
                effective_ps,
                constraints.outputs@.len(),
            ),
            Err(message) => output_budgets_fault(*netlist, *constraints, nominal_ps, 0) == Some(
                message@,
            ),
        },
{
    let mut delays: NameMap<u32> = NameMap::new();
    for i in 0..constraints.outputs.entries.len()
        invariant
            netlist.is_valid(),
            ooc_clocks_fault(netlist.ports@, constraints.clocks@, 0) is None,
            output_budgets_fault(*netlist, *constraints, nominal_ps, 0) == output_budgets_fault(
                *netlist,
                *constraints,
                nominal_ps,
                i as int,
            ),
            delays@ == boundary_delays(
                constraints.clocks@,
                constraints.outputs@,
                effective_ps,
                i as nat,
            ),
    {
        let entry = &constraints.outputs.entries[i];
        let name = &entry.0;
        let boundary = &entry.1;
        assert(constraints.outputs@[i as int] == (name@, *boundary));
        let port = match find_ooc_port(&netlist.ports, name, SourceDirection::Output) {
            Ok(port) => port,
            Err(message) => {
                return Err(message);
            },
        };
        let clock = match constraints.clocks.get(boundary.clock.as_str()) {
            Some(clock) => clock,
            None => {
                return Err(write_unknown_clock(name, &boundary.clock));
            },
        };
        proof {
            lemma_named_clock(netlist.ports@, constraints.clocks@, boundary.clock@, 0);
            assert(port_is_valid(netlist.nodes@, netlist.ports@[port as int]));
        }
        let net = net_of_clock(&netlist.ports, clock);
        if let Err(error) = validate_ooc_output_boundary(
            netlist,
            &netlist.ports[port],
            net,
            &boundary.clock,
        ) {
            return Err(message_of(error));
        }
        if let Err(message) = check_budget(
            "output",
            name,
            boundary,
            clock.uncertainty_ps,
            nominal_ps,
        ) {
            return Err(message);
        }
        let usable: u32 = boundary.max_boundary_delay_ps - clock.uncertainty_ps;
        delays.insert(name.clone(), effective_ps.saturating_sub(usable));
    }
    Ok(delays)
}

/// Boundary budgets as port delays within one period.
pub struct NormalizedOocTiming {
    /// Port delays.
    pub io_timing: IoTimingConstraints,
    /// The common period less the largest uncertainty.
    pub period_ps: u32,
}

/// The input delays that an out-of-context environment stands for.
pub open spec fn ooc_input_delays(constraints: OocTimingConstraints) -> Seq<(Seq<char>, u32)> {
    boundary_delays(
        constraints.clocks@,
        constraints.inputs@,
        common_usable_period(constraints.clocks@)->0,
        constraints.inputs@.len(),
    )
}

/// The output delays that an out-of-context environment stands for.
pub open spec fn ooc_output_delays(constraints: OocTimingConstraints) -> Seq<(Seq<char>, u32)> {
    boundary_delays(
        constraints.clocks@,
        constraints.outputs@,
        common_usable_period(constraints.clocks@)->0,
        constraints.outputs@.len(),
    )
}

fn normalize(netlist: &Netlist, constraints: &OocTimingConstraints) -> (result: Result<
    NormalizedOocTiming,
    String,
>)
    requires
        netlist.is_valid(),
    ensures
        match result {
            Ok(normalized) => ooc_fault(*netlist, *constraints) is None && common_usable_period(
                constraints.clocks@,
            ) == Some(normalized.period_ps) && normalized.io_timing.input_delays_ps@
                == ooc_input_delays(*constraints) && normalized.io_timing.output_delays_ps@
                == ooc_output_delays(*constraints),
            Err(message) => ooc_fault(*netlist, *constraints) == Some(message@),
        },
{
    let nominal = match constraints.nominal_period_ps() {
        Some(nominal) => nominal,
        None => {
            return Err("at least one clock with a common period is required".to_owned());
        },
    };
    if nominal == 0 {
        return Err("clock period must be greater than zero".to_owned());
    }
    if let Err(message) = check_ooc_clocks(&netlist.ports, &constraints.clocks) {
        return Err(message);
    }
    proof {
        lemma_uncertainty(netlist.ports@, constraints.clocks@, nominal, constraints.clocks@.len());
    }
    let effective: u32 = match constraints.effective_period_ps() {
        Some(effective) => effective,
        None => 0,
    };
    if let Err(message) = check_controls(netlist, constraints) {
        return Err(message);
    }
    if let Err(message) = check_coverage(netlist, constraints) {
        return Err(message);
    }
    let inputs = match check_inputs(netlist, constraints, nominal, effective) {
        Ok(delays) => delays,
        Err(message) => {
            return Err(message);
        },
    };
    let outputs = match check_outputs(netlist, constraints, nominal, effective) {
        Ok(delays) => delays,
        Err(message) => {
            return Err(message);
        },
    };
    Ok(
        NormalizedOocTiming {
            io_timing: IoTimingConstraints { input_delays_ps: inputs, output_delays_ps: outputs },
            period_ps: effective,
        },
    )
}

proof fn lemma_clock_sound(
    ports: Seq<Port>,
    clocks: Seq<(Seq<char>, TimingClockConstraint)>,
    index: int,
    from: int,
)
    requires
        0 <= from <= index < clocks.len(),
        ooc_clocks_fault(ports, clocks, from) is None,
    ensures
        ooc_clock_fault(ports, clocks, index) is None,
    decreases index - from,
{
    if from < index {
        lemma_clock_sound(ports, clocks, index, from + 1);
    }
}

/// Clocks without a fault have uncertainties below the common period.
proof fn lemma_uncertainty(
    ports: Seq<Port>,
    clocks: Seq<(Seq<char>, TimingClockConstraint)>,
    nominal: u32,
    count: nat,
)
    requires
        common_period(clocks) == Some(nominal),
        ooc_clocks_fault(ports, clocks, 0) is None,
        count <= clocks.len(),
    ensures
        count == clocks.len() ==> largest_uncertainty(clocks) <= nominal,
        largest_uncertainty(clocks.take(count as int)) <= nominal,
    decreases count,
{
    if count > 0 {
        lemma_uncertainty(ports, clocks, nominal, (count - 1) as nat);
        assert(clocks.take(count as int).drop_last() =~= clocks.take(count - 1));
        lemma_clock_sound(ports, clocks, count - 1, 0);
        assert(clocks[count - 1].1.period_ps == nominal);
    }
    assert(clocks.take(clocks.len() as int) =~= clocks);
}

/// Why an out-of-context timing environment cannot be turned into port delays.
pub open spec fn normalization_fault(netlist: Netlist, constraints: OocTimingConstraints) -> Option<
    MappingFault,
> {
    match ooc_fault(netlist, constraints) {
        Some(message) => Some(MappingFault::InvalidOocConstraint(message)),
        None => io_timing_fault(
            netlist.ports@,
            ooc_input_delays(constraints),
            ooc_output_delays(constraints),
        ),
    }
}

/// Turns an out-of-context timing environment into port delays within one period.
pub fn normalize_ooc_timing(netlist: &Netlist, constraints: &OocTimingConstraints) -> (result:
    Result<NormalizedOocTiming, MappingError>)
    requires
        netlist.is_valid(),
    ensures
        fault_of(result) == normalization_fault(*netlist, *constraints),
        result matches Ok(normalized) ==> common_usable_period(constraints.clocks@) == Some(
            normalized.period_ps,
        ) && normalized.io_timing.input_delays_ps@ == ooc_input_delays(*constraints)
            && normalized.io_timing.output_delays_ps@ == ooc_output_delays(*constraints),
{
    match normalize(netlist, constraints) {
        Ok(normalized) => {
            if let Err(error) = validate_io_timing(netlist, &normalized.io_timing) {
                return Err(error);
            }
            Ok(normalized)
        },
        Err(message) => Err(MappingError::InvalidOocConstraint(message)),
    }
}

/// Every port delay stays below the usable period: a boundary always keeps time for itself.
pub proof fn law_boundary_keeps_time(
    effective_ps: u32,
    boundary: OocPortConstraint,
    uncertainty_ps: u32,
    nominal_ps: u32,
    kind: Seq<char>,
    name: Seq<char>,
)
    requires
        effective_ps > 0,
        budget_fault(kind, name, boundary, uncertainty_ps, nominal_ps) is None,
    ensures
        boundary_delay(effective_ps, boundary, uncertainty_ps) < effective_ps,
        boundary_delay(effective_ps, boundary, uncertainty_ps) + (boundary.max_boundary_delay_ps
            - uncertainty_ps) >= effective_ps,
{
}

} // verus!
