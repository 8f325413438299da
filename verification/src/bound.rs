//! What dedicated primitives take over from the ports bound to them.

use vstd::prelude::*;

use crate::bind::jtagg_bound;
use crate::bind::jtagg_constant;
use crate::bind::jtagg_fault;
use crate::bind::jtagg_roles;
use crate::bind::jtagg_roles_fault;
use crate::bind::kept_ports;
use crate::bind::law_open_drain_only_pulls_low;
use crate::bind::lemma_kept_prefix;
use crate::bind::lemma_port_found;
use crate::bind::open_drain_bound;
use crate::bind::open_drain_fault;
use crate::bind::pll_bound;
use crate::bind::pll_clocks_fault;
use crate::bind::pll_driven;
use crate::bind::pll_fault;
use crate::bind::pll_roles;
use crate::bind::pll_roles_fault;
use crate::bind::port_bit;
use crate::bind::port_index;
use crate::bind::port_wire;
use crate::bind::ports_differ;
use crate::bind::role_wire;
use crate::bind::wire_above;
use crate::bind::JtaggBinding;
use crate::bind::OpenDrainIo;
use crate::bind::PllBinding;
use crate::cells::cell_outputs;
use crate::cells::Bit;
use crate::cells::CellModel;
use crate::cells::PortDirection;
use crate::cells::PortModel;
use crate::mapping::mapped_port_at;
use crate::meaning::bit_value;
use crate::meaning::cells_agree;
use crate::names::text_entries;
use crate::netlist::law_unique_name_is_new;
use crate::netlist::lemma_maximum_port;
use crate::netlist::lemma_maximum_wire;
use crate::netlist::maximum_wire;
use crate::netlist::NetlistModel;
use crate::shown::lemma_port_bits_at;

verus! {

/// The port named `name` is the one that is found.
proof fn lemma_named_port(ports: Seq<PortModel>, name: Seq<char>, p: int)
    requires
        ports_differ(ports),
        0 <= p < ports.len(),
        ports[p].name == name,
    ensures
        mapped_port_at(ports, name) == Some(p),
{
    lemma_port_found(ports, name, 0);
    if let Some(index) = mapped_port_at(ports, name) {
        assert(ports[index].name == ports[p].name);
        assert(index == p);
    } else {
        assert(ports[p].name != name);
    }
}

/// Ports that are kept are those of which `kept` holds.
proof fn lemma_kept_filter(
    ports: Seq<PortModel>,
    removed: Seq<usize>,
    kept: spec_fn(PortModel) -> bool,
    count: nat,
)
    requires
        count <= ports.len() <= usize::MAX,
        forall|p: int|
            0 <= p < ports.len() ==> removed.contains(p as usize) == !kept(#[trigger] ports[p]),
    ensures
        kept_ports(ports, removed, count) == ports.take(count as int).filter(kept),
    decreases count,
{
    reveal(Seq::filter);
    if count > 0 {
        let last = (count - 1) as nat;
        lemma_kept_filter(ports, removed, kept, last);
        let taken = ports.take(count as int);
        assert(taken.drop_last() =~= ports.take(last as int));
        assert(taken.last() == ports[last as int]);
    }
}

/// Whether port `p` is an input of one wire.
pub open spec fn is_wire_input(port: PortModel) -> bool {
    port.direction is Input && port.bits.len() == 1 && port.bits[0] is Wire
}

proof fn lemma_pll_role(ports: Seq<PortModel>, roles: Seq<Seq<char>>, from: int, index: int)
    requires
        pll_roles_fault(ports, roles, from) is None,
        0 <= from <= index < roles.len(),
    ensures
        mapped_port_at(ports, roles[index]) is Some,
        is_wire_input(ports[mapped_port_at(ports, roles[index])->0]),
        !roles.take(index).contains(roles[index]),
    decreases index - from,
{
    if from < index {
        lemma_pll_role(ports, roles, from + 1, index);
    }
}

proof fn lemma_pll_clock(ports: Seq<PortModel>, binding: PllBinding, from: int, index: int)
    requires
        pll_clocks_fault(ports, binding, from) is None,
        0 <= from <= index < binding.additional_output_clock_ports@.len(),
    ensures
        mapped_port_at(ports, binding.additional_output_clock_ports@[index].0) is Some,
        is_wire_input(
            ports[mapped_port_at(ports, binding.additional_output_clock_ports@[index].0)->0],
        ),
    decreases index - from,
{
    if from < index {
        lemma_pll_clock(ports, binding, from + 1, index);
    }
}

/// Whether a PLL drives the port of this name.
pub open spec fn pll_drives_port(binding: PllBinding, name: Seq<char>) -> bool {
    ||| name == binding.output_clock_port@
    ||| name == binding.locked_port@
    ||| exists|i: int|
        0 <= i < binding.additional_output_clock_ports@.len() && (
        #[trigger] binding.additional_output_clock_ports@[i]).0 == name
}

/// Whether a wire is on no port and no cell drives it.
pub open spec fn is_unused(netlist: NetlistModel, wire: u32) -> bool {
    &&& forall|p: int, k: int|
        0 <= p < netlist.ports.len() && 0 <= k < netlist.ports[p].bits.len()
            ==> #[trigger] netlist.ports[p].bits[k] != Bit::Wire(wire)
    &&& forall|i: int, k: int|
        0 <= i < netlist.cells.len() && 0 <= k < cell_outputs(netlist.cells[i]).len()
            ==> #[trigger] cell_outputs(netlist.cells[i])[k] != Bit::Wire(wire)
}

proof fn lemma_above_unused(netlist: NetlistModel, wire: u32)
    requires
        maximum_wire(netlist) matches Some(largest) ==> wire > largest,
    ensures
        is_unused(netlist, wire),
{
    assert forall|p: int, k: int|
        0 <= p < netlist.ports.len() && 0 <= k < netlist.ports[p].bits.len() implies
        #[trigger] netlist.ports[p].bits[k] != Bit::Wire(wire) by {
        if netlist.ports[p].bits[k] == Bit::Wire(wire) {
            let at = lemma_port_bits_at(netlist.ports, p, k);
            lemma_maximum_port(netlist, at, wire);
        }
    }
    assert forall|i: int, k: int|
        0 <= i < netlist.cells.len() && 0 <= k < cell_outputs(netlist.cells[i]).len() implies
        #[trigger] cell_outputs(netlist.cells[i])[k] != Bit::Wire(wire) by {
        if cell_outputs(netlist.cells[i])[k] == Bit::Wire(wire) {
            assert(cell_outputs(netlist.cells[i]).contains(Bit::Wire(wire)));
            lemma_maximum_wire(netlist, i, wire);
        }
    }
}

/// A PLL takes over the ports bound to it. Its reference input is the bit of the
/// reference port, its clock output drives the wire of the output clock port, its lock
/// output that of the lock port, and each further output that of the port bound to it.
/// The ports it drives are gone, all others and all cells stay, so what read such a port
/// reads the PLL pin bound to it.
pub proof fn law_pll_takes_over(netlist: NetlistModel, binding: PllBinding, p: int)
    requires
        netlist.ports.len() <= usize::MAX,
        ports_differ(netlist.ports),
        pll_fault(netlist, binding) is None,
        0 <= p < netlist.ports.len(),
    ensures
        ({
            let ports = netlist.ports;
            let after = pll_bound(netlist, binding);
            let clocks = binding.additional_output_clock_ports@;
            let kept = |port: PortModel| !pll_drives_port(binding, port.name);
            &&& after.ports == ports.filter(kept)
            &&& after.cells.len() == netlist.cells.len() + 1
            &&& forall|i: int|
                0 <= i < netlist.cells.len() ==> (#[trigger] after.cells[i]) == netlist.cells[i]
            &&& after.cells[netlist.cells.len() as int] matches CellModel::Pll {
                name,
                reference_clock,
                feedback_clock,
                output_clock,
                additional_output_clocks,
                locked,
                fabric_output,
                feedback_output,
                parameters,
                attributes,
            } && {
                &&& ports[p].name == binding.reference_clock_port@ ==> ports[p].bits == seq![
                    reference_clock,
                ]
                &&& ports[p].name == binding.output_clock_port@ ==> ports[p].bits == seq![
                    Bit::Wire(output_clock),
                ]
                &&& ports[p].name == binding.locked_port@ ==> ports[p].bits == seq![
                    Bit::Wire(locked),
                ]
                &&& additional_output_clocks.len() == clocks.len()
                &&& forall|i: int|
                    0 <= i < clocks.len() ==> (#[trigger] additional_output_clocks[i]).0
                        == clocks[i].1 && (ports[p].name == clocks[i].0 ==> ports[p].bits == seq![
                        Bit::Wire(additional_output_clocks[i].1),
                    ])
                &&& fabric_output == binding.fabric_output
                &&& feedback_output == binding.feedback_output
                &&& fabric_output == feedback_output ==> feedback_clock == output_clock
                &&& fabric_output != feedback_output ==> is_unused(netlist, feedback_clock)
                &&& parameters == text_entries(binding.parameters)
                &&& attributes == text_entries(binding.attributes)
                &&& forall|i: int|
                    0 <= i < netlist.cells.len() ==> (#[trigger] netlist.cells[i]).cell_name()
                        != name
            }
        }),
{
    let ports = netlist.ports;
    let after = pll_bound(netlist, binding);
    let clocks = binding.additional_output_clock_ports@;
    let roles = pll_roles(binding);
    let kept = |port: PortModel| !pll_drives_port(binding, port.name);
    let removed = pll_driven(ports, binding);
    assert forall|k: int| 0 <= k < 3 implies mapped_port_at(ports, #[trigger] roles[k]) is Some
        && is_wire_input(ports[mapped_port_at(ports, roles[k])->0]) by {
        lemma_pll_role(ports, roles, 0, k);
    }
    assert(roles[0] == binding.reference_clock_port@);
    assert(roles[1] == binding.output_clock_port@);
    assert(roles[2] == binding.locked_port@);
    assert forall|k: int| 0 <= k < clocks.len() implies mapped_port_at(
        ports,
        (#[trigger] clocks[k]).0,
    ) is Some && is_wire_input(ports[mapped_port_at(ports, clocks[k].0)->0]) by {
        lemma_pll_clock(ports, binding, 0, k);
    }
    assert forall|q: int| 0 <= q < ports.len() implies removed.contains(q as usize) == !kept(
        #[trigger] ports[q],
    ) by {
        lemma_named_port(ports, ports[q].name, q);
        assert(removed[0] == port_index(ports, binding.output_clock_port@));
        assert(removed[1] == port_index(ports, binding.locked_port@));
        assert forall|i: int| 0 <= i < clocks.len() implies removed[i + 2] == port_index(
            ports,
            (#[trigger] clocks[i]).0,
        ) by {}
        if pll_drives_port(binding, ports[q].name) {
            if ports[q].name == binding.output_clock_port@ {
                assert(removed[0] == q as usize);
            } else if ports[q].name == binding.locked_port@ {
                assert(removed[1] == q as usize);
            } else {
                let i = choose|i: int| 0 <= i < clocks.len() && (#[trigger] clocks[i]).0
                    == ports[q].name;
                assert(removed[i + 2] == q as usize);
            }
        }
        if removed.contains(q as usize) {
            let k = choose|k: int| 0 <= k < removed.len() && removed[k] == q as usize;
            if k < 2 {
                lemma_port_found(ports, roles[k + 1], 0);
            } else {
                assert(removed[k] == port_index(ports, clocks[k - 2].0));
                lemma_port_found(ports, clocks[k - 2].0, 0);
                assert(clocks[k - 2].0 == ports[q].name);
            }
        }
    }
    lemma_kept_filter(ports, removed, kept, ports.len());
    assert(ports.take(ports.len() as int) =~= ports);
    lemma_named_port(ports, ports[p].name, p);
    assert forall|k: int| 0 <= k < 3 && ports[p].name == #[trigger] roles[k] implies ports[p].bits
        == seq![Bit::Wire(port_wire(ports, roles[k]))] by {
        assert(ports[p].bits =~= seq![Bit::Wire(port_wire(ports, roles[k]))]);
    }
    let cell = after.cells[netlist.cells.len() as int];
    assert forall|i: int| 0 <= i < clocks.len() implies (
    #[trigger] cell->Pll_additional_output_clocks[i]).0 == clocks[i].1 && (ports[p].name
        == clocks[i].0 ==> ports[p].bits == seq![
        Bit::Wire(cell->Pll_additional_output_clocks[i].1),
    ]) by {
        assert(mapped_port_at(ports, clocks[i].0) is Some);
        if ports[p].name == clocks[i].0 {
            assert(ports[p].bits =~= seq![Bit::Wire(port_wire(ports, clocks[i].0))]);
        }
    }
    if binding.fabric_output != binding.feedback_output {
        lemma_above_unused(netlist, wire_above(netlist)->0);
    }
    law_unique_name_is_new("pll"@, netlist.cells, None);
}

proof fn lemma_jtagg_role(
    ports: Seq<PortModel>,
    roles: Seq<(Seq<char>, PortDirection)>,
    from: int,
    index: int,
)
    requires
        jtagg_roles_fault(ports, roles, from) is None,
        0 <= from <= index < roles.len(),
    ensures
        mapped_port_at(ports, roles[index].0) is Some,
        ports[mapped_port_at(ports, roles[index].0)->0].bits.len() == 1,
        ports[mapped_port_at(ports, roles[index].0)->0].direction == roles[index].1,
    decreases index - from,
{
    if from < index {
        lemma_jtagg_role(ports, roles, from + 1, index);
    }
}

proof fn lemma_jtagg_wire(
    ports: Seq<PortModel>,
    roles: Seq<(Seq<char>, PortDirection)>,
    from: int,
    index: int,
)
    requires
        jtagg_constant(ports, roles, from) is None,
        0 <= from <= index < roles.len(),
    ensures
        port_bit(ports, roles[index].0) is Wire,
    decreases index - from,
{
    if from < index {
        lemma_jtagg_wire(ports, roles, from + 1, index);
    }
}

/// Whether the TAP takes over the port of this name.
pub open spec fn jtagg_takes_port(binding: JtaggBinding, name: Seq<char>) -> bool {
    ||| name == binding.tdo_ports[0]@
    ||| name == binding.tdo_ports[1]@
    ||| name == binding.tdi_port@
    ||| name == binding.clock_port@
    ||| name == binding.run_test_idle_ports[0]@
    ||| name == binding.run_test_idle_ports[1]@
    ||| name == binding.shift_port@
    ||| name == binding.update_port@
    ||| name == binding.reset_n_port@
    ||| name == binding.clock_enable_ports[0]@
    ||| name == binding.clock_enable_ports[1]@
}

/// The TAP takes over the ports bound to it. Each of its data inputs is the bit of the
/// core output bound to it, and each of its outputs drives the wire of the core input
/// bound to it. Those ports are gone, all others and all cells stay.
#[verifier::rlimit(60)]
pub proof fn law_jtagg_takes_over(netlist: NetlistModel, binding: JtaggBinding, p: int)
    requires
        netlist.ports.len() <= usize::MAX,
        ports_differ(netlist.ports),
        jtagg_fault(netlist, binding) is None,
        0 <= p < netlist.ports.len(),
    ensures
        ({
            let ports = netlist.ports;
            let after = jtagg_bound(netlist, binding);
            let kept = |port: PortModel| !jtagg_takes_port(binding, port.name);
            &&& after.ports == ports.filter(kept)
            &&& after.cells.len() == netlist.cells.len() + 1
            &&& forall|i: int|
                0 <= i < netlist.cells.len() ==> (#[trigger] after.cells[i]) == netlist.cells[i]
            &&& after.cells[netlist.cells.len() as int] matches CellModel::Jtagg {
                name,
                tdo,
                tdi,
                clock,
                run_test_idle,
                shift,
                update,
                reset_n,
                clock_enable,
                extension_register_1,
                extension_register_2,
            } && {
                let here = ports[p].name;
                let bits = ports[p].bits;
                &&& here == binding.tdo_ports[0]@ ==> bits == seq![tdo[0]]
                &&& here == binding.tdo_ports[1]@ ==> bits == seq![tdo[1]]
                &&& here == binding.tdi_port@ ==> bits == seq![Bit::Wire(tdi)]
                &&& here == binding.clock_port@ ==> bits == seq![Bit::Wire(clock)]
                &&& here == binding.run_test_idle_ports[0]@ ==> bits == seq![
                    Bit::Wire(run_test_idle[0]),
                ]
                &&& here == binding.run_test_idle_ports[1]@ ==> bits == seq![
                    Bit::Wire(run_test_idle[1]),
                ]
                &&& here == binding.shift_port@ ==> bits == seq![Bit::Wire(shift)]
                &&& here == binding.update_port@ ==> bits == seq![Bit::Wire(update)]
                &&& here == binding.reset_n_port@ ==> bits == seq![Bit::Wire(reset_n)]
                &&& here == binding.clock_enable_ports[0]@ ==> bits == seq![
                    Bit::Wire(clock_enable[0]),
                ]
                &&& here == binding.clock_enable_ports[1]@ ==> bits == seq![
                    Bit::Wire(clock_enable[1]),
                ]
                &&& extension_register_1 == binding.extension_register_1
                &&& extension_register_2 == binding.extension_register_2
                &&& forall|i: int|
                    0 <= i < netlist.cells.len() ==> (#[trigger] netlist.cells[i]).cell_name()
                        != name
            }
        }),
{
    let ports = netlist.ports;
    let roles = jtagg_roles(binding);
    let kept = |port: PortModel| !jtagg_takes_port(binding, port.name);
    let removed = Seq::new(roles.len(), |i: int| port_index(ports, roles[i].0));
    assert forall|k: int| 0 <= k < 11 implies mapped_port_at(
        ports,
        (#[trigger] roles[k]).0,
    ) is Some && ports[mapped_port_at(ports, roles[k].0)->0].bits.len() == 1 && (k >= 2
        ==> port_bit(ports, roles[k].0) is Wire) by {
        lemma_jtagg_role(ports, roles, 0, k);
        if k >= 2 {
            lemma_jtagg_wire(ports, roles, 2, k);
        }
    }
    assert forall|q: int| 0 <= q < ports.len() implies removed.contains(q as usize) == !kept(
        #[trigger] ports[q],
    ) by {
        lemma_named_port(ports, ports[q].name, q);
        if removed.contains(q as usize) {
            let k = choose|k: int| 0 <= k < removed.len() && removed[k] == q as usize;
            assert(mapped_port_at(ports, roles[k].0) is Some);
            lemma_port_found(ports, roles[k].0, 0);
            assert(roles[k].0 == ports[q].name);
        }
        if jtagg_takes_port(binding, ports[q].name) {
            assert(exists|k: int| 0 <= k < 11 && (#[trigger] roles[k]).0 == ports[q].name) by {
                assert(roles[0].0 == binding.tdo_ports[0]@);
                assert(roles[1].0 == binding.tdo_ports[1]@);
                assert(roles[2].0 == binding.tdi_port@);
                assert(roles[3].0 == binding.clock_port@);
                assert(roles[4].0 == binding.run_test_idle_ports[0]@);
                assert(roles[5].0 == binding.run_test_idle_ports[1]@);
                assert(roles[6].0 == binding.shift_port@);
                assert(roles[7].0 == binding.update_port@);
                assert(roles[8].0 == binding.reset_n_port@);
                assert(roles[9].0 == binding.clock_enable_ports[0]@);
                assert(roles[10].0 == binding.clock_enable_ports[1]@);
            }
            let k = choose|k: int| 0 <= k < 11 && (#[trigger] roles[k]).0 == ports[q].name;
            assert(removed[k] == q as usize);
        }
    }
    lemma_kept_filter(ports, removed, kept, ports.len());
    assert(ports.take(ports.len() as int) =~= ports);
    lemma_named_port(ports, ports[p].name, p);
    assert forall|k: int| 0 <= k < 11 && ports[p].name == (#[trigger] roles[k]).0 implies
        ports[p].bits == seq![port_bit(ports, roles[k].0)] && (k >= 2 ==> ports[p].bits == seq![
        Bit::Wire(port_wire(ports, roles[k].0)),
    ]) by {
        assert(ports[p].bits =~= seq![port_bit(ports, roles[k].0)]);
    }
    assert(ports[p].name == roles[0].0 ==> ports[p].bits == seq![port_bit(ports, roles[0].0)]);
    assert(ports[p].name == roles[1].0 ==> ports[p].bits == seq![port_bit(ports, roles[1].0)]);
    assert(forall|k: int|
        2 <= k < 11 && ports[p].name == (#[trigger] roles[k]).0 ==> ports[p].bits == seq![
            Bit::Wire(role_wire(ports, binding, k)),
        ]);
    assert(roles[2].0 == binding.tdi_port@);
    assert(roles[3].0 == binding.clock_port@);
    assert(roles[4].0 == binding.run_test_idle_ports[0]@);
    assert(roles[5].0 == binding.run_test_idle_ports[1]@);
    assert(roles[6].0 == binding.shift_port@);
    assert(roles[7].0 == binding.update_port@);
    assert(roles[8].0 == binding.reset_n_port@);
    assert(roles[9].0 == binding.clock_enable_ports[0]@);
    assert(roles[10].0 == binding.clock_enable_ports[1]@);
    law_unique_name_is_new("jtagg"@, netlist.cells, None);
}

/// An open-drain pad takes over the two ports bound to it. The core input is on the wire
/// that the pad drives into the fabric, the pad is a new wire on a port of its name, it
/// drives only zero, and only where the core output bound to it is one. All other ports
/// and all cells stay.
#[verifier::rlimit(40)]
pub proof fn law_open_drain_takes_over(
    values: spec_fn(u32) -> bool,
    netlist: NetlistModel,
    binding: OpenDrainIo,
    p: int,
)
    requires
        netlist.ports.len() <= usize::MAX,
        ports_differ(netlist.ports),
        open_drain_fault(netlist, binding) is None,
        cells_agree(values, open_drain_bound(netlist, binding).cells),
        0 <= p < netlist.ports.len(),
    ensures
        ({
            let ports = netlist.ports;
            let after = open_drain_bound(netlist, binding);
            let kept = |port: PortModel|
                port.name != binding.input_port@ && port.name != binding.drive_low_port@;
            &&& forall|i: int|
                0 <= i < netlist.cells.len() ==> i < after.cells.len() && (
                #[trigger] after.cells[i]) == netlist.cells[i]
            &&& after.cells.last() matches CellModel::TrellisIo {
                pad,
                fabric_output,
                fabric_input,
                tristate,
                ..
            } && {
                &&& is_unused(netlist, pad)
                &&& ports[p].name == binding.input_port@ ==> ports[p].bits == seq![
                    Bit::Wire(fabric_input),
                ]
                &&& !bit_value(values, fabric_output)
                &&& ports[p].name == binding.drive_low_port@ ==> ports[p].bits.len() == 1
                    && bit_value(values, tristate) == !bit_value(values, ports[p].bits[0])
                &&& exists|at: int|
                    0 <= at < after.ports.len() && #[trigger] after.ports[at] == (PortModel {
                        name: binding.pin@,
                        direction: PortDirection::Inout,
                        bits: seq![Bit::Wire(pad)],
                    }) && after.ports.remove(at) == ports.filter(kept)
            }
        }),
{
    let ports = netlist.ports;
    let after = open_drain_bound(netlist, binding);
    let input = port_index(ports, binding.input_port@);
    let drive = port_index(ports, binding.drive_low_port@);
    let removed = seq![input, drive];
    let kept = |port: PortModel|
        port.name != binding.input_port@ && port.name != binding.drive_low_port@;
    lemma_port_found(ports, binding.input_port@, 0);
    lemma_port_found(ports, binding.drive_low_port@, 0);
    lemma_named_port(ports, ports[p].name, p);
    law_open_drain_only_pulls_low(values, netlist, binding);
    lemma_above_unused(netlist, wire_above(netlist)->0);
    assert forall|q: int| 0 <= q < ports.len() implies removed.contains(q as usize) == !kept(
        #[trigger] ports[q],
    ) by {
        lemma_named_port(ports, ports[q].name, q);
        assert(removed[0] == input && removed[1] == drive);
    }
    lemma_kept_filter(ports, removed, kept, ports.len());
    assert(ports.take(ports.len() as int) =~= ports);
    let rest = kept_ports(ports, removed, ports.len());
    let at = if input < drive {
        input as int
    } else {
        drive as int
    };
    lemma_kept_prefix(ports, removed, at, ports.len());
    assert(0 <= at <= rest.len());
    assert(after.ports.remove(at) =~= rest);
    if ports[p].name == binding.input_port@ {
        assert(ports[p].bits =~= seq![Bit::Wire(port_wire(ports, binding.input_port@))]);
    }
    let pad = wire_above(netlist)->0;
    assert(after.ports[at] == (PortModel {
        name: binding.pin@,
        direction: PortDirection::Inout,
        bits: seq![Bit::Wire(pad)],
    }));
}

} // verus!
