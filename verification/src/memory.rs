//! Mapping of memories to block RAM and distributed RAM.

use vstd::prelude::*;

use crate::arithmetic::lemma_table_of_same;
use crate::arithmetic::numbered;
use crate::arithmetic::table_from;
use crate::cells::ActiveLevel;
use crate::cells::Bit;
use crate::cells::BlockRamPort;
use crate::cells::CellModel;
use crate::cells::Control;
use crate::cells::Ecp5Cell;
use crate::cells::Ecp5MemoryImplementation;
use crate::cells::RamPortModel;
use crate::cuts::nodes_are_valid;
use crate::emit::bit_of;
use crate::emit::bits_of;
use crate::emit::wire_taken;
use crate::emit::with_cell;
use crate::emit::EmitterModel;
use crate::emit::LutEmitter;
use crate::errors::MappingFault;
use crate::ir::constant_of;
use crate::ir::enable_net;
use crate::ir::memory_is_valid;
use crate::ir::memory_port_is_valid;
use crate::ir::net_wire;
use crate::ir::node_is_valid;
use crate::ir::port_reads;
use crate::ir::port_words;
use crate::ir::readable;
use crate::ir::wire_number;
use crate::ir::EnableControl;
use crate::ir::MemoryCell;
use crate::ir::MemoryPort;
use crate::ir::NetId;
use crate::ir::Netlist;
use crate::ir::Node;
use crate::ir::NodeKind;
use crate::ir::MAX_NODES;
use crate::plans::nets_below;
use crate::text::decimal;
use crate::text::join;
use crate::wires::assigned;
use crate::wires::table_of;
use crate::wires::test_assigned;

verus! {

/// The words that one port of `width` bits addresses.
pub open spec fn port_capacity(width: u8) -> u32 {
    if width == 1 {
        16_384
    } else if width == 2 {
        8_192
    } else if width == 4 {
        4_096
    } else if width == 9 {
        2_048
    } else if width == 18 {
        1_024
    } else {
        0
    }
}

/// Whether a port of `width` bits holds words of `word_width` bits at this depth.
pub open spec fn port_holds(width: u8, depth: u32, word_width: u8) -> bool {
    0 < port_capacity(width) && word_width <= width && depth <= port_capacity(width)
}

/// The narrowest block-RAM port that holds words of `word_width` bits at this depth.
pub open spec fn narrowest_port(depth: u32, word_width: u8) -> Option<u8> {
    if word_width <= 1 && depth <= 16_384 {
        Some(1)
    } else if word_width <= 2 && depth <= 8_192 {
        Some(2)
    } else if word_width <= 4 && depth <= 4_096 {
        Some(4)
    } else if word_width <= 9 && depth <= 2_048 {
        Some(9)
    } else if word_width <= 18 && depth <= 1_024 {
        Some(18)
    } else {
        None
    }
}

/// The narrowest block-RAM port that holds words of `word_width` bits at this depth.
pub fn block_ram_width(depth: u32, word_width: u8) -> (width: Option<u8>)
    ensures
        width == narrowest_port(depth, word_width),
        match width {
            Some(width) => port_holds(width, depth, word_width) && forall|other: u8| #[trigger]
                port_holds(other, depth, word_width) ==> width <= other,
            None => forall|other: u8| !#[trigger] port_holds(other, depth, word_width),
        },
{
    if word_width <= 1 && depth <= 16_384 {
        Some(1)
    } else if word_width <= 2 && depth <= 8_192 {
        Some(2)
    } else if word_width <= 4 && depth <= 4_096 {
        Some(4)
    } else if word_width <= 9 && depth <= 2_048 {
        Some(9)
    } else if word_width <= 18 && depth <= 1_024 {
        Some(18)
    } else {
        None
    }
}

/// The widest block-RAM port at this depth.
pub open spec fn widest_port(depth: u32) -> Option<u8> {
    if depth <= 1_024 {
        Some(18)
    } else if depth <= 2_048 {
        Some(9)
    } else if depth <= 4_096 {
        Some(4)
    } else if depth <= 8_192 {
        Some(2)
    } else if depth <= 16_384 {
        Some(1)
    } else {
        None
    }
}

/// The widest block-RAM port at this depth.
pub fn maximum_block_ram_width(depth: u32) -> (width: Option<u8>)
    ensures
        width == widest_port(depth),
        match width {
            Some(width) => port_holds(width, depth, width) && forall|other: u8| #[trigger]
                port_holds(other, depth, other) ==> other <= width,
            None => forall|other: u8| !#[trigger] port_holds(other, depth, other),
        },
{
    if depth <= 1_024 {
        Some(18)
    } else if depth <= 2_048 {
        Some(9)
    } else if depth <= 4_096 {
        Some(4)
    } else if depth <= 8_192 {
        Some(2)
    } else if depth <= 16_384 {
        Some(1)
    } else {
        None
    }
}

/// A port width is found exactly where some port holds the word at this depth;
/// it holds them, and no narrower port does.
pub proof fn law_narrowest_port(depth: u32, word_width: u8, other: u8)
    ensures
        narrowest_port(depth, word_width) matches Some(width) ==> word_width <= width && depth
            <= port_capacity(width),
        port_capacity(other) > 0 && word_width <= other && depth <= port_capacity(other)
            ==> narrowest_port(depth, word_width) is Some && narrowest_port(
            depth,
            word_width,
        )->0 <= other,
{
}

/// The widest port at a depth addresses it, and every port that does is no wider.
pub proof fn law_widest_port(depth: u32, other: u8)
    ensures
        widest_port(depth) matches Some(width) ==> depth <= port_capacity(width),
        port_capacity(other) > 0 && depth <= port_capacity(other) ==> widest_port(depth) is Some
            && widest_port(depth)->0 >= other,
{
}

/// The address pin of the lowest word-address bit at a port width.
pub open spec fn address_shift(width: u8) -> int {
    if width == 1 {
        0
    } else if width == 2 {
        1
    } else if width == 4 {
        2
    } else if width == 9 {
        3
    } else {
        4
    }
}

/// Address pin `pin` where the lowest address bit is at pin `shift`.
pub open spec fn address_pin(
    bits: Seq<Option<Bit>>,
    address: Seq<NetId>,
    shift: int,
    pin: int,
) -> Bit {
    if shift <= pin && pin - shift < address.len() {
        bit_of(bits, address[pin - shift])
    } else {
        Bit::Zero
    }
}

/// The fourteen address pins where the lowest address bit is at pin `shift`
/// and no pin at or above `limit` is used.
pub open spec fn address_pins(
    bits: Seq<Option<Bit>>,
    address: Seq<NetId>,
    shift: int,
) -> [Bit; 14] {
    [
        address_pin(bits, address, shift, 0),
        address_pin(bits, address, shift, 1),
        address_pin(bits, address, shift, 2),
        address_pin(bits, address, shift, 3),
        address_pin(bits, address, shift, 4),
        address_pin(bits, address, shift, 5),
        address_pin(bits, address, shift, 6),
        address_pin(bits, address, shift, 7),
        address_pin(bits, address, shift, 8),
        address_pin(bits, address, shift, 9),
        address_pin(bits, address, shift, 10),
        address_pin(bits, address, shift, 11),
        address_pin(bits, address, shift, 12),
        address_pin(bits, address, shift, 13),
    ]
}

/// The address pins of a write port: at eighteen bits the two lowest are byte enables.
pub open spec fn write_pins(
    bits: Seq<Option<Bit>>,
    address: Seq<NetId>,
    width: u8,
) -> [Bit; 14] {
    let pins = address_pins(bits, address, address_shift(width));
    if width == 18 {
        [
            Bit::One,
            Bit::One,
            pins[2],
            pins[3],
            pins[4],
            pins[5],
            pins[6],
            pins[7],
            pins[8],
            pins[9],
            pins[10],
            pins[11],
            pins[12],
            pins[13],
        ]
    } else {
        pins
    }
}

pub(crate) fn pin_of_address(emitter: &LutEmitter, address: &Vec<NetId>, shift: usize, pin: usize) -> (bit: Bit)
    requires
        nets_below(address@, emitter.bits@.len() as int),
    ensures
        bit == address_pin(emitter.bits@, address@, shift as int, pin as int),
{
    if shift <= pin && pin - shift < address.len() {
        assert(address@[pin - shift] < emitter.bits@.len());
        emitter.mapped_net(address[pin - shift])
    } else {
        Bit::Zero
    }
}

fn pins_of_address(emitter: &LutEmitter, address: &Vec<NetId>, shift: usize) -> (pins: [Bit; 14])
    requires
        nets_below(address@, emitter.bits@.len() as int),
    ensures
        pins == address_pins(emitter.bits@, address@, shift as int),
{
    let p0 = pin_of_address(emitter, address, shift, 0);
    let p1 = pin_of_address(emitter, address, shift, 1);
    let p2 = pin_of_address(emitter, address, shift, 2);
    let p3 = pin_of_address(emitter, address, shift, 3);
    let p4 = pin_of_address(emitter, address, shift, 4);
    let p5 = pin_of_address(emitter, address, shift, 5);
    let p6 = pin_of_address(emitter, address, shift, 6);
    let p7 = pin_of_address(emitter, address, shift, 7);
    let p8 = pin_of_address(emitter, address, shift, 8);
    let p9 = pin_of_address(emitter, address, shift, 9);
    let p10 = pin_of_address(emitter, address, shift, 10);
    let p11 = pin_of_address(emitter, address, shift, 11);
    let p12 = pin_of_address(emitter, address, shift, 12);
    let p13 = pin_of_address(emitter, address, shift, 13);
    [p0, p1, p2, p3, p4, p5, p6, p7, p8, p9, p10, p11, p12, p13]
}

/// The address pins of a block-RAM port of this width.
fn physical_address(emitter: &LutEmitter, address: &Vec<NetId>, width: u8) -> (pins: [Bit; 14])
    requires
        nets_below(address@, emitter.bits@.len() as int),
    ensures
        pins == address_pins(emitter.bits@, address@, address_shift(width)),
{
    let shift: usize = if width == 1 {
        0
    } else if width == 2 {
        1
    } else if width == 4 {
        2
    } else if width == 9 {
        3
    } else {
        4
    };
    pins_of_address(emitter, address, shift)
}

fn physical_write_address(emitter: &LutEmitter, address: &Vec<NetId>, width: u8) -> (pins: [Bit; 14])
    requires
        nets_below(address@, emitter.bits@.len() as int),
    ensures
        pins == write_pins(emitter.bits@, address@, width),
{
    let pins = physical_address(emitter, address, width);
    if width == 18 {
        // At eighteen bits these two pins are byte enables; whole words are written.
        [
            Bit::One,
            Bit::One,
            pins[2],
            pins[3],
            pins[4],
            pins[5],
            pins[6],
            pins[7],
            pins[8],
            pins[9],
            pins[10],
            pins[11],
            pins[12],
            pins[13],
        ]
    } else {
        pins
    }
}

/// A mapped control.
pub open spec fn control_of(bits: Seq<Option<Bit>>, enable: EnableControl) -> Control {
    Control { signal: bit_of(bits, enable.signal), active: enable.active }
}

/// An optional mapped control.
pub open spec fn optional_control(
    bits: Seq<Option<Bit>>,
    enable: Option<EnableControl>,
) -> Option<Control> {
    match enable {
        Some(enable) => Some(control_of(bits, enable)),
        None => None,
    }
}

pub(crate) fn map_control(emitter: &LutEmitter, enable: EnableControl) -> (control: Control)
    requires
        enable.signal < emitter.bits@.len(),
    ensures
        control == control_of(emitter.bits@, enable),
{
    Control { signal: emitter.mapped_net(enable.signal), active: enable.active }
}

fn map_optional_control(emitter: &LutEmitter, enable: Option<EnableControl>) -> (control: Option<
    Control,
>)
    requires
        enable matches Some(control) ==> control.signal < emitter.bits@.len(),
    ensures
        control == optional_control(emitter.bits@, enable),
{
    match enable {
        Some(enable) => Some(map_control(emitter, enable)),
        None => None,
    }
}

/// Whether `conjunct` is `expression` or a factor of a conjunction that makes it up.
pub open spec fn has_conjunct(nodes: Seq<Node>, expression: NetId, conjunct: NetId) -> bool
    decreases expression,
{
    let inputs = nodes[expression as int].inputs@;
    expression == conjunct || (nodes[expression as int].kind is And && ((inputs.len() > 0
        && inputs[0] < expression && has_conjunct(nodes, inputs[0], conjunct)) || (inputs.len() > 1
        && inputs[1] < expression && has_conjunct(nodes, inputs[1], conjunct))))
}

/// Whether `conjunct` is `expression` or a factor of a conjunction that makes it up.
pub fn net_contains_conjunct(nodes: &Vec<Node>, expression: NetId, conjunct: NetId) -> (found: bool)
    requires
        nodes_are_valid(nodes@),
        expression < nodes@.len(),
    ensures
        found == has_conjunct(nodes@, expression, conjunct),
    decreases expression,
{
    if expression == conjunct {
        return true;
    }
    let node = &nodes[expression as usize];
    match node.kind {
        NodeKind::And => {},
        _ => {
            return false;
        },
    }
    proof {
        assert(node_is_valid(nodes@, expression as int));
        assert(readable(nodes@, node.inputs@[0]));
        assert(readable(nodes@, node.inputs@[1]));
    }
    net_contains_conjunct(nodes, node.inputs[0], conjunct) || net_contains_conjunct(
        nodes,
        node.inputs[1],
        conjunct,
    )
}

/// Whether the structure of the netlist shows that one enable implies another.
pub open spec fn enable_implies(
    nodes: Seq<Node>,
    antecedent: EnableControl,
    consequent: EnableControl,
) -> bool {
    ||| antecedent == consequent
    ||| constant_of(nodes, antecedent.signal) == Some(antecedent.active is Low)
    ||| constant_of(nodes, consequent.signal) == Some(consequent.active is High)
    ||| antecedent.active is High && consequent.active is High && has_conjunct(
        nodes,
        antecedent.signal,
        consequent.signal,
    )
}

/// Whether the structure of the netlist shows that one enable implies another.
pub fn control_implies(netlist: &Netlist, antecedent: EnableControl, consequent: EnableControl) -> (
    implied: bool)
    requires
        netlist.is_valid(),
        antecedent.signal < netlist.nodes@.len(),
        consequent.signal < netlist.nodes@.len(),
    ensures
        implied == enable_implies(netlist.nodes@, antecedent, consequent),
{
    if antecedent == consequent {
        return true;
    }
    let never = match netlist.constant_value(antecedent.signal) {
        Some(value) => value == (antecedent.active == ActiveLevel::Low),
        None => false,
    };
    let always = match netlist.constant_value(consequent.signal) {
        Some(value) => value == (consequent.active == ActiveLevel::High),
        None => false,
    };
    never || always || (antecedent.active == ActiveLevel::High && consequent.active
        == ActiveLevel::High && net_contains_conjunct(
        &netlist.nodes,
        antecedent.signal,
        consequent.signal,
    ))
}

/// Whether the net of an enable holds its asserted level.
pub open spec fn asserted(value: bool, active: ActiveLevel) -> bool {
    value == (active is High)
}

/// The state after a port's clock enable was made, and that enable.
pub ghost struct EnableModel {
    pub state: EmitterModel,
    pub enable: Option<Control>,
}

/// A port's clock enable: asserted where a read or a write is enabled.
///
/// Where one of the two implies the other it is the implied one; else one
/// lookup table joins them. Without a read enable the port is always enabled.
pub open spec fn clock_enable_made(
    state: EmitterModel,
    name: Seq<char>,
    write_enable: Control,
    read_enable: Option<Control>,
    write_implies_read: bool,
    read_implies_write: bool,
) -> EnableModel {
    match read_enable {
        None => EnableModel { state, enable: None },
        Some(read) => if write_implies_read {
            EnableModel { state, enable: Some(read) }
        } else if read_implies_write {
            EnableModel { state, enable: Some(write_enable) }
        } else {
            EnableModel {
                state: with_cell(
                    wire_taken(state),
                    CellModel::Lut4 {
                        name,
                        inputs: [write_enable.signal, read.signal, Bit::Zero, Bit::Zero],
                        output: state.next_wire,
                        init: table_of(
                            |a: u64|
                                asserted(assigned(a, 0), write_enable.active) || asserted(
                                    assigned(a, 1),
                                    read.active,
                                ),
                            16,
                        ) as u16,
                    },
                ),
                enable: Some(
                    Control { signal: Bit::Wire(state.next_wire), active: ActiveLevel::High },
                ),
            }
        },
    }
}

fn materialize_memory_clock_enable(
    emitter: &mut LutEmitter,
    name: String,
    write_enable: Control,
    read_enable: Option<Control>,
    write_implies_read: bool,
    read_implies_write: bool,
) -> (enable: Option<Control>)
    ensures
        (EnableModel { state: final(emitter)@, enable }) == clock_enable_made(
            old(emitter)@,
            name@,
            write_enable,
            read_enable,
            write_implies_read,
            read_implies_write,
        ),
{
    let read = match read_enable {
        Some(read) => read,
        None => {
            return None;
        },
    };
    if write_implies_read {
        return Some(read);
    }
    if read_implies_write {
        return Some(write_enable);
    }
    let mut values: Vec<bool> = Vec::new();
    let ghost value = |a: u64|
        asserted(assigned(a, 0), write_enable.active) || asserted(assigned(a, 1), read.active);
    for a in 0..16
        invariant
            values@.len() == a,
            value == (|a: u64|
                asserted(assigned(a, 0), write_enable.active) || asserted(
                    assigned(a, 1),
                    read.active,
                )),
            forall|j: int| 0 <= j < a ==> values@[j] == value(j as u64),
    {
        let written = test_assigned(a as u64, 0) == (write_enable.active == ActiveLevel::High);
        let fetched = test_assigned(a as u64, 1) == (read.active == ActiveLevel::High);
        values.push(written || fetched);
    }
    proof {
        lemma_table_of_same(|a: u64| values@[a as int], value, 16);
    }
    let init = table_from(&values);
    let output = emitter.fresh_wire();
    emitter.push_cell(
        Ecp5Cell::Lut4 {
            name,
            inputs: [write_enable.signal, read.signal, Bit::Zero, Bit::Zero],
            output,
            init,
        },
    );
    Some(Control { signal: Bit::Wire(output), active: ActiveLevel::High })
}

/// The wires of nets.
pub open spec fn net_wires(nets: Seq<NetId>) -> Seq<u32> {
    Seq::new(nets.len(), |i: int| net_wire(nets[i]))
}

fn slice_bits(emitter: &LutEmitter, nets: &Vec<NetId>, start: usize, end: usize) -> (bits: Vec<Bit>)
    requires
        start <= end <= nets@.len(),
        nets_below(nets@, emitter.bits@.len() as int),
    ensures
        bits@ == bits_of(emitter.bits@, nets@.subrange(start as int, end as int)),
{
    let mut bits: Vec<Bit> = Vec::new();
    let ghost all = bits_of(emitter.bits@, nets@.subrange(start as int, end as int));
    for i in start..end
        invariant
            start <= end <= nets@.len(),
            nets_below(nets@, emitter.bits@.len() as int),
            all == bits_of(emitter.bits@, nets@.subrange(start as int, end as int)),
            bits@ == all.take(i - start),
    {
        assert(nets@[i as int] < emitter.bits@.len());
        bits.push(emitter.mapped_net(nets[i]));
        assert(bits@ =~= all.take(i + 1 - start));
    }
    assert(all.take(end - start) =~= all);
    bits
}

fn slice_wires(nets: &Vec<NetId>, start: usize, end: usize, limit: usize) -> (wires: Vec<u32>)
    requires
        start <= end <= nets@.len(),
        limit <= MAX_NODES,
        nets_below(nets@, limit as int),
    ensures
        wires@ == net_wires(nets@.subrange(start as int, end as int)),
{
    let mut wires: Vec<u32> = Vec::new();
    let ghost all = net_wires(nets@.subrange(start as int, end as int));
    for i in start..end
        invariant
            start <= end <= nets@.len(),
            limit <= MAX_NODES,
            nets_below(nets@, limit as int),
            all == net_wires(nets@.subrange(start as int, end as int)),
            wires@ == all.take(i - start),
    {
        assert(nets@[i as int] < limit);
        wires.push(wire_number(nets[i]));
        assert(wires@ =~= all.take(i + 1 - start));
    }
    assert(all.take(end - start) =~= all);
    wires
}

/// The number of parts of `size` that hold `total`.
pub open spec fn parts(total: int, size: int) -> int {
    (total + size - 1) / size
}

/// Where part `index` ends.
pub open spec fn part_end(total: int, size: int, index: int) -> int {
    if (index + 1) * size < total {
        (index + 1) * size
    } else {
        total
    }
}

/// The name of a block-RAM tile; a memory of one tile has no number.
pub open spec fn tile_name(name: Seq<char>, tiles: int, tile: int) -> Seq<char> {
    if tiles == 1 {
        "bram_"@ + name
    } else {
        numbered("bram_"@, name, "_"@, tile as nat)
    }
}

/// Whether both enables are there and the first implies the second.
pub open spec fn both_imply(
    nodes: Seq<Node>,
    antecedent: Option<EnableControl>,
    consequent: Option<EnableControl>,
) -> bool {
    antecedent is Some && consequent is Some && enable_implies(
        nodes,
        antecedent->0,
        consequent->0,
    )
}

/// The clock enable of a memory port.
pub open spec fn port_enable_made(
    nodes: Seq<Node>,
    state: EmitterModel,
    name: Seq<char>,
    port: MemoryPort,
) -> EnableModel {
    clock_enable_made(
        state,
        name,
        control_of(state.bits, port.write_enable),
        optional_control(state.bits, port.read_enable),
        both_imply(nodes, Some(port.write_enable), port.read_enable),
        both_imply(nodes, port.read_enable, Some(port.write_enable)),
    )
}

/// The state after block-RAM tile `tile` of a memory was added.
pub open spec fn tile_mapped(
    nodes: Seq<Node>,
    state: EmitterModel,
    memory: MemoryCell,
    size: u8,
    tile: int,
) -> EmitterModel {
    let port = memory.port;
    let total = port.write_data@.len() as int;
    let name = tile_name(memory.name@, parts(total, size as int), tile);
    let start = tile * size;
    let end = part_end(total, size as int, tile);
    let word_width = (end - start) as u8;
    let width = narrowest_port(memory.depth, word_width)->0;
    let first = match memory.second_port {
        Some(_) => port_enable_made(nodes, state, name + "_cea"@, port),
        None => EnableModel { state, enable: None },
    };
    let second = match memory.second_port {
        Some(other) => port_enable_made(nodes, first.state, name + "_ceb"@, other),
        None => EnableModel { state: first.state, enable: None },
    };
    with_cell(
        second.state,
        CellModel::BlockRam {
            name,
            implementation: Ecp5MemoryImplementation::Block,
            depth: memory.depth,
            word_width,
            physical_width: width,
            write_address: write_pins(state.bits, port.write_address@, width),
            write_data: bits_of(state.bits, port.write_data@.subrange(start, end)),
            write_enable: control_of(state.bits, port.write_enable),
            read_address: address_pins(state.bits, port.read_address@, address_shift(width)),
            read_data: net_wires(port.read_data@.subrange(start, end)),
            read_enable: optional_control(state.bits, port.read_enable),
            clock_enable: first.enable,
            clock: bit_of(state.bits, port.clock),
            edge: port.edge,
            second_port: match memory.second_port {
                Some(other) => Some(
                    RamPortModel {
                        address: write_pins(state.bits, other.write_address@, width),
                        write_data: bits_of(state.bits, other.write_data@.subrange(start, end)),
                        write_enable: control_of(state.bits, other.write_enable),
                        read_data: net_wires(other.read_data@.subrange(start, end)),
                        read_enable: optional_control(state.bits, other.read_enable),
                        clock_enable: second.enable,
                        clock: bit_of(state.bits, other.clock),
                        edge: other.edge,
                    },
                ),
                None => None,
            },
        },
    )
}

/// The state after the first `count` block-RAM tiles of a memory were added.
pub open spec fn tiles_mapped(
    nodes: Seq<Node>,
    state: EmitterModel,
    memory: MemoryCell,
    size: u8,
    count: nat,
) -> EmitterModel
    decreases count,
{
    if count == 0 {
        state
    } else {
        tile_mapped(
            nodes,
            tiles_mapped(nodes, state, memory, size, (count - 1) as nat),
            memory,
            size,
            count - 1,
        )
    }
}

/// The parts of a valid memory port are nets of the netlist.
pub proof fn lemma_port(nodes: Seq<Node>, port: MemoryPort)
    requires
        memory_port_is_valid(nodes, port),
    ensures
        nets_below(port.read_address@, nodes.len() as int),
        nets_below(port.write_address@, nodes.len() as int),
        nets_below(port.write_data@, nodes.len() as int),
        nets_below(port.read_data@, nodes.len() as int),
        port.clock < nodes.len(),
        port.write_enable.signal < nodes.len(),
        port.read_enable matches Some(enable) ==> enable.signal < nodes.len(),
        port.read_data@.len() == port.write_data@.len(),
{
    let reads = port_reads(port);
    let words = port_words(port);
    let a = port.read_address@.len() as int;
    let b = port.write_address@.len() as int;
    assert forall|i: int| 0 <= i < a implies #[trigger] port.read_address@[i] < nodes.len() by {
        assert(reads[i] == port.read_address@[i]);
        assert(readable(nodes, reads[i]));
    }
    assert forall|i: int| 0 <= i < b implies #[trigger] port.write_address@[i] < nodes.len() by {
        assert(reads[a + i] == port.write_address@[i]);
        assert(readable(nodes, reads[a + i]));
    }
    assert forall|i: int| 0 <= i < port.write_data@.len() implies #[trigger] port.write_data@[i]
        < nodes.len() by {
        assert(reads[a + b + i] == port.write_data@[i]);
        assert(readable(nodes, reads[a + b + i]));
    }
    let n = words.len() as int;
    assert(reads[n] == port.clock);
    assert(readable(nodes, reads[n]));
    assert(reads[n + 1] == port.write_enable.signal);
    assert(readable(nodes, reads[n + 1]));
    if let Some(enable) = port.read_enable {
        assert(enable_net(port.read_enable)[0] == enable.signal);
        assert(reads[n + 2] == enable.signal);
        assert(readable(nodes, reads[n + 2]));
    }
}

fn make_port_enable(
    netlist: &Netlist,
    emitter: &mut LutEmitter,
    name: String,
    port: &MemoryPort,
) -> (enable: Option<Control>)
    requires
        netlist.is_valid(),
        memory_port_is_valid(netlist.nodes@, *port),
        old(emitter).bits@.len() == netlist.nodes@.len(),
    ensures
        (EnableModel { state: final(emitter)@, enable }) == port_enable_made(
            netlist.nodes@,
            old(emitter)@,
            name@,
            *port,
        ),
        final(emitter).bits@ == old(emitter).bits@,
{
    proof {
        lemma_port(netlist.nodes@, *port);
    }
    let write_enable = map_control(emitter, port.write_enable);
    let read_enable = map_optional_control(emitter, port.read_enable);
    let (forward, backward) = match port.read_enable {
        Some(read) => (
            control_implies(netlist, port.write_enable, read),
            control_implies(netlist, read, port.write_enable),
        ),
        None => (false, false),
    };
    materialize_memory_clock_enable(emitter, name, write_enable, read_enable, forward, backward)
}

fn name_tile(name: &String, tiles: usize, tile: usize) -> (text: String)
    ensures
        text@ == tile_name(name@, tiles as int, tile as int),
{
    let mut text = join("bram_", name.as_str());
    if tiles != 1 {
        text.append("_");
        text.append(decimal(tile as u128).as_str());
    }
    text
}

fn map_tile(
    netlist: &Netlist,
    emitter: &mut LutEmitter,
    memory: &MemoryCell,
    size: u8,
    tiles: usize,
    tile: usize,
    start: usize,
    end: usize,
)
    requires
        netlist.is_valid(),
        memory_is_valid(netlist.nodes@, *memory),
        old(emitter).bits@.len() == netlist.nodes@.len(),
        widest_port(memory.depth) == Some(size),
        tiles == parts(memory.port.write_data@.len() as int, size as int),
        tile < tiles,
        start == tile * size,
        end == part_end(memory.port.write_data@.len() as int, size as int, tile as int),
        start < end <= memory.port.write_data@.len(),
        end - start <= size,
    ensures
        final(emitter)@ == tile_mapped(
            netlist.nodes@,
            old(emitter)@,
            *memory,
            size,
            tile as int,
        ),
        final(emitter).bits@ == old(emitter).bits@,
{
    let ghost state = emitter@;
    let port = &memory.port;
    proof {
        lemma_port(netlist.nodes@, *port);
    }
    let name = name_tile(&memory.name, tiles, tile);
    let word_width: u8 = (end - start) as u8;
    let width: u8 = match block_ram_width(memory.depth, word_width) {
        Some(width) => width,
        None => 0,
    };
    assert(narrowest_port(memory.depth, word_width) == Some(width));
    let write_address = physical_write_address(emitter, &port.write_address, width);
    let read_address = physical_address(emitter, &port.read_address, width);
    let write_data = slice_bits(emitter, &port.write_data, start, end);
    let read_data = slice_wires(&port.read_data, start, end, netlist.nodes.len());
    let write_enable = map_control(emitter, port.write_enable);
    let read_enable = map_optional_control(emitter, port.read_enable);
    let clock = emitter.mapped_net(port.clock);
    let (clock_enable, second_port) = match &memory.second_port {
        Some(other) => {
            proof {
                lemma_port(netlist.nodes@, *other);
            }
            let clock_enable = make_port_enable(
                netlist,
                emitter,
                join(name.as_str(), "_cea"),
                port,
            );
            let other_address = physical_write_address(emitter, &other.write_address, width);
            let other_write_enable = map_control(emitter, other.write_enable);
            let other_read_enable = map_optional_control(emitter, other.read_enable);
            let other_write_data = slice_bits(emitter, &other.write_data, start, end);
            let other_read_data = slice_wires(&other.read_data, start, end, netlist.nodes.len());
            let other_clock = emitter.mapped_net(other.clock);
            let other_enable = make_port_enable(
                netlist,
                emitter,
                join(name.as_str(), "_ceb"),
                other,
            );
            let mapped = BlockRamPort {
                address: Box::new(other_address),
                write_data: other_write_data,
                write_enable: other_write_enable,
                read_data: other_read_data,
                read_enable: other_read_enable,
                clock_enable: other_enable,
                clock: other_clock,
                edge: other.edge,
            };
            (clock_enable, Some(mapped))
        },
        None => (None, None),
    };
    emitter.push_cell(
        Ecp5Cell::BlockRam {
            name,
            implementation: Ecp5MemoryImplementation::Block,
            depth: memory.depth,
            word_width,
            physical_width: width,
            write_address: Box::new(write_address),
            write_data,
            write_enable,
            read_address: Box::new(read_address),
            read_data,
            read_enable,
            clock_enable,
            clock,
            edge: port.edge,
            second_port,
        },
    );
}

/// Why a memory cannot be mapped to block RAM or distributed RAM.
pub open spec fn memory_fault(memory: MemoryCell) -> Option<MappingFault> {
    let port = memory.port;
    let width = port.write_data@.len() as usize;
    if memory.read_latency == 0 && !(memory.style is Block) {
        if memory.second_port is Some || port.read_enable is Some || memory.depth > 128 || width
            == 0 {
            Some(
                MappingFault::UnsupportedDistributedMemoryGeometry {
                    memory: memory.name@,
                    depth: memory.depth,
                    width,
                },
            )
        } else {
            None
        }
    } else if memory.read_latency == 1 && !(memory.style is Distributed) {
        if memory.second_port is Some && port.read_address@ != port.write_address@ {
            Some(
                MappingFault::UnsupportedTrueDualPortAddresses { memory: memory.name@, port: 'A' },
            )
        } else if memory.second_port is Some && memory.second_port->0.read_address@
            != memory.second_port->0.write_address@ {
            Some(
                MappingFault::UnsupportedTrueDualPortAddresses { memory: memory.name@, port: 'B' },
            )
        } else if widest_port(memory.depth) is None {
            Some(
                MappingFault::UnsupportedMemoryGeometry {
                    memory: memory.name@,
                    depth: memory.depth,
                    width,
                },
            )
        } else {
            None
        }
    } else {
        Some(
            MappingFault::UnsupportedMemoryStyle {
                memory: memory.name@,
                style: memory.style,
                read_latency: memory.read_latency,
            },
        )
    }
}

/// Parts lie one behind the other and cover the whole.
pub proof fn lemma_parts(total: int, size: int, index: int)
    requires
        0 <= total,
        0 < size,
        0 <= index < parts(total, size),
    ensures
        0 <= index * size < total,
        index * size < part_end(total, size, index) <= total,
        part_end(total, size, index) - index * size <= size,
        (index + 1) * size == index * size + size,
{
    let n = parts(total, size);
    assert(n * size <= total + size - 1) by (nonlinear_arith)
        requires
            n == (total + size - 1) / size,
            size > 0,
    ;
    assert(index * size + size <= n * size) by (nonlinear_arith)
        requires
            index + 1 <= n,
            size > 0,
    ;
    assert((index + 1) * size == index * size + size) by (nonlinear_arith);
    assert(index * size >= 0) by (nonlinear_arith)
        requires
            index >= 0,
            size > 0,
    ;
}

pub(crate) fn part_count(total: usize, size: usize) -> (count: usize)
    requires
        0 < size,
    ensures
        count == parts(total as int, size as int),
{
    let whole: usize = total / size;
    let rest: usize = total % size;
    proof {
        let t = total as int;
        let s = size as int;
        assert(t == s * (t / s) + t % s) by (nonlinear_arith)
            requires
                s > 0,
        ;
        let q = t / s;
        let r = t % s;
        assert(0 <= r < s) by (nonlinear_arith)
            requires
                s > 0,
                r == t % s,
        ;
        if r == 0 {
            assert((t + s - 1) / s == q) by (nonlinear_arith)
                requires
                    t == s * q,
                    s > 0,
            ;
        } else {
            assert((t + s - 1) / s == q + 1) by (nonlinear_arith)
                requires
                    t == s * q + r,
                    0 < r < s,
                    s > 0,
            ;
            assert(q < t) by (nonlinear_arith)
                requires
                    t == s * q + r,
                    0 < r < s,
                    s > 0,
                    t >= 0,
            ;
        }
    }
    if rest == 0 {
        whole
    } else {
        whole + 1
    }
}

pub(crate) fn map_block_memory(netlist: &Netlist, emitter: &mut LutEmitter, memory: &MemoryCell, size: u8)
    requires
        netlist.is_valid(),
        memory_is_valid(netlist.nodes@, *memory),
        old(emitter).bits@.len() == netlist.nodes@.len(),
        widest_port(memory.depth) == Some(size),
    ensures
        final(emitter)@ == tiles_mapped(
            netlist.nodes@,
            old(emitter)@,
            *memory,
            size,
            parts(memory.port.write_data@.len() as int, size as int) as nat,
        ),
        final(emitter).bits@ == old(emitter).bits@,
{
    let ghost state = emitter@;
    let total: usize = memory.port.write_data.len();
    let tiles = part_count(total, size as usize);
    for tile in 0..tiles
        invariant
            netlist.is_valid(),
            memory_is_valid(netlist.nodes@, *memory),
            emitter.bits@.len() == netlist.nodes@.len(),
            emitter.bits@ == state.bits,
            widest_port(memory.depth) == Some(size),
            total == memory.port.write_data@.len(),
            tiles == parts(total as int, size as int),
            emitter@ == tiles_mapped(netlist.nodes@, state, *memory, size, tile as nat),
    {
        proof {
            lemma_parts(total as int, size as int, tile as int);
        }
        let start: usize = tile * size as usize;
        let end: usize = if total - start > size as usize {
            start + size as usize
        } else {
            total
        };
        map_tile(netlist, emitter, memory, size, tiles, tile, start, end);
    }
}

} // verus!
