//! Mapping of shallow memories to distributed RAM, and of memories in general.

use vstd::prelude::*;

use crate::arithmetic::lemma_table_of_same;
use crate::arithmetic::table_from;
use crate::cells::ActiveLevel;
use crate::cells::Bit;
use crate::cells::CellModel;
use crate::cells::Control;
use crate::cells::Ecp5Cell;
use crate::cells::Ecp5MemoryImplementation;
use crate::cuts::same_nets;
use crate::emit::bit_of;
use crate::emit::wire_taken;
use crate::emit::with_cell;
use crate::emit::EmitterModel;
use crate::emit::LutEmitter;
use crate::errors::fault_of;
use crate::errors::MappingError;
use crate::ir::memory_is_valid;
use crate::ir::net_wire;
use crate::ir::wire_number;
use crate::ir::MemoryCell;
use crate::ir::MemoryStyle;
use crate::ir::NetId;
use crate::ir::Netlist;
use crate::ir::Node;
use crate::ir::MAX_NODES;
use crate::memory::address_pin;
use crate::memory::asserted;
use crate::memory::control_of;
use crate::memory::lemma_port;
use crate::memory::map_block_memory;
use crate::memory::map_control;
use crate::memory::maximum_block_ram_width;
use crate::memory::memory_fault;
use crate::memory::part_count;
use crate::memory::parts;
use crate::memory::pin_of_address;
use crate::memory::tiles_mapped;
use crate::memory::widest_port;
use crate::plans::nets_below;
use crate::text::decimal;
use crate::text::decimal_text;
use crate::text::join;
use crate::wires::assigned;
use crate::wires::table_of;
use crate::wires::test_assigned;

verus! {

/// The truth table of a two-way mux: the second input where the third is one.
pub const MUX_INIT: u16 = 0xcaca;

/// The address pins of a distributed RAM: the four lowest address bits.
pub open spec fn low_address(bits: Seq<Option<Bit>>, address: Seq<NetId>) -> [Bit; 14] {
    [
        address_pin(bits, address, 0, 0),
        address_pin(bits, address, 0, 1),
        address_pin(bits, address, 0, 2),
        address_pin(bits, address, 0, 3),
        Bit::Zero,
        Bit::Zero,
        Bit::Zero,
        Bit::Zero,
        Bit::Zero,
        Bit::Zero,
        Bit::Zero,
        Bit::Zero,
        Bit::Zero,
        Bit::Zero,
    ]
}

fn distributed_address(emitter: &LutEmitter, address: &Vec<NetId>) -> (pins: [Bit; 14])
    requires
        nets_below(address@, emitter.bits@.len() as int),
    ensures
        pins == low_address(emitter.bits@, address@),
{
    let p0 = pin_of_address(emitter, address, 0, 0);
    let p1 = pin_of_address(emitter, address, 0, 1);
    let p2 = pin_of_address(emitter, address, 0, 2);
    let p3 = pin_of_address(emitter, address, 0, 3);
    [
        p0,
        p1,
        p2,
        p3,
        Bit::Zero,
        Bit::Zero,
        Bit::Zero,
        Bit::Zero,
        Bit::Zero,
        Bit::Zero,
        Bit::Zero,
        Bit::Zero,
        Bit::Zero,
        Bit::Zero,
    ]
}

/// Whether bank `bank` is written: the enable is asserted and the high address bits name the bank.
pub open spec fn bank_written(active: ActiveLevel, bank: nat, assignment: u64) -> bool {
    asserted(assigned(assignment, 0), active) && (assignment / 2) % 8 == bank
}

/// The state after the write enable of a bank was made, and that enable.
pub ghost struct BankEnable {
    pub state: EmitterModel,
    pub enable: Control,
}

/// The write enable of one bank; a single bank uses the memory's own.
pub open spec fn bank_enable_made(
    state: EmitterModel,
    memory: Seq<char>,
    bank: nat,
    banks: nat,
    enable: Control,
    address: Seq<NetId>,
) -> BankEnable {
    if banks == 1 {
        BankEnable { state, enable }
    } else {
        BankEnable {
            state: with_cell(
                wire_taken(state),
                CellModel::Lut4 {
                    name: "dpram_"@ + memory + "_write_bank_"@ + decimal_text(bank),
                    inputs: [
                        enable.signal,
                        address_pin(state.bits, address, 0, 4),
                        address_pin(state.bits, address, 0, 5),
                        address_pin(state.bits, address, 0, 6),
                    ],
                    output: state.next_wire,
                    init: table_of(|a: u64| bank_written(enable.active, bank, a), 16) as u16,
                },
            ),
            enable: Control { signal: Bit::Wire(state.next_wire), active: ActiveLevel::High },
        }
    }
}

fn distributed_bank_enable(
    emitter: &mut LutEmitter,
    memory: &String,
    bank: usize,
    banks: usize,
    enable: Control,
    address: &Vec<NetId>,
) -> (bank_enable: Control)
    requires
        nets_below(address@, old(emitter).bits@.len() as int),
    ensures
        (BankEnable { state: final(emitter)@, enable: bank_enable }) == bank_enable_made(
            old(emitter)@,
            memory@,
            bank as nat,
            banks as nat,
            enable,
            address@,
        ),
        final(emitter).bits@ == old(emitter).bits@,
{
    if banks == 1 {
        return enable;
    }
    let b4 = pin_of_address(emitter, address, 0, 4);
    let b5 = pin_of_address(emitter, address, 0, 5);
    let b6 = pin_of_address(emitter, address, 0, 6);
    let mut values: Vec<bool> = Vec::new();
    let ghost value = |a: u64| bank_written(enable.active, bank as nat, a);
    for a in 0..16
        invariant
            values@.len() == a,
            value == (|a: u64| bank_written(enable.active, bank as nat, a)),
            forall|j: int| 0 <= j < a ==> values@[j] == value(j as u64),
    {
        let enabled = test_assigned(a as u64, 0) == (enable.active == ActiveLevel::High);
        let selected = (a / 2) % 8 == bank;
        values.push(enabled && selected);
        assert(values@[a as int] == value(a as u64));
    }
    proof {
        lemma_table_of_same(|a: u64| values@[a as int], value, 16);
    }
    let init = table_from(&values);
    let output = emitter.fresh_wire();
    let mut name = join("dpram_", memory.as_str());
    name.append("_write_bank_");
    name.append(decimal(bank as u128).as_str());
    emitter.push_cell(
        Ecp5Cell::Lut4 { name, inputs: [enable.signal, b4, b5, b6], output, init },
    );
    Control { signal: Bit::Wire(output), active: ActiveLevel::High }
}

/// The state after output wires were taken, and those wires.
pub ghost struct WiresModel {
    pub state: EmitterModel,
    pub wires: Seq<u32>,
}

/// The first `count` output wires of a tile of four bits from bit `start` on.
///
/// A single bank drives the read data; banks that a mux joins, and unused
/// bits, drive wires of their own.
pub open spec fn tile_outputs(
    state: EmitterModel,
    read_data: Seq<NetId>,
    banks: nat,
    start: int,
    count: nat,
) -> WiresModel
    decreases count,
{
    if count == 0 {
        WiresModel { state, wires: seq![] }
    } else {
        let rest = tile_outputs(state, read_data, banks, start, (count - 1) as nat);
        let index = start + count - 1;
        if banks == 1 && index < read_data.len() {
            WiresModel { state: rest.state, wires: rest.wires.push(net_wire(read_data[index])) }
        } else {
            WiresModel {
                state: wire_taken(rest.state),
                wires: rest.wires.push(rest.state.next_wire),
            }
        }
    }
}

/// The name of the tile of a bank and a chunk.
pub open spec fn dpram_name(memory: Seq<char>, bank: nat, chunk: nat) -> Seq<char> {
    "dpram_"@ + memory + "_b"@ + decimal_text(bank) + "_c"@ + decimal_text(chunk)
}

/// Write-data bit `index`; bits past the word are zero.
pub open spec fn data_bit(bits: Seq<Option<Bit>>, data: Seq<NetId>, index: int) -> Bit {
    if index < data.len() {
        bit_of(bits, data[index])
    } else {
        Bit::Zero
    }
}

/// The state after one tile was added, and the wires it drives.
pub open spec fn tile_made(
    state: EmitterModel,
    memory: MemoryCell,
    banks: nat,
    bank: nat,
    enable: Control,
    chunk: nat,
) -> WiresModel {
    let port = memory.port;
    let start = 4 * chunk as int;
    let outputs = tile_outputs(state, port.read_data@, banks, start, 4);
    WiresModel {
        state: with_cell(
            outputs.state,
            CellModel::BlockRam {
                name: dpram_name(memory.name@, bank, chunk),
                implementation: Ecp5MemoryImplementation::Distributed,
                depth: 16,
                word_width: 4,
                physical_width: 4,
                write_address: low_address(state.bits, port.write_address@),
                write_data: seq![
                    data_bit(state.bits, port.write_data@, start),
                    data_bit(state.bits, port.write_data@, start + 1),
                    data_bit(state.bits, port.write_data@, start + 2),
                    data_bit(state.bits, port.write_data@, start + 3),
                ],
                write_enable: enable,
                read_address: low_address(state.bits, port.read_address@),
                read_data: outputs.wires,
                read_enable: None,
                clock_enable: None,
                clock: bit_of(state.bits, port.clock),
                edge: port.edge,
                second_port: None,
            },
        ),
        wires: outputs.wires,
    }
}

/// The state after tiles were added, and the wires of each.
pub ghost struct TilesModel {
    pub state: EmitterModel,
    pub wires: Seq<Seq<u32>>,
}

/// The first `count` tiles of one bank.
pub open spec fn bank_tiles(
    state: EmitterModel,
    memory: MemoryCell,
    banks: nat,
    bank: nat,
    enable: Control,
    count: nat,
) -> TilesModel
    decreases count,
{
    if count == 0 {
        TilesModel { state, wires: seq![] }
    } else {
        let rest = bank_tiles(state, memory, banks, bank, enable, (count - 1) as nat);
        let tile = tile_made(rest.state, memory, banks, bank, enable, (count - 1) as nat);
        TilesModel { state: tile.state, wires: rest.wires.push(tile.wires) }
    }
}

/// The state after banks were added, and the wires of each tile.
pub ghost struct BanksModel {
    pub state: EmitterModel,
    pub wires: Seq<Seq<Seq<u32>>>,
}

/// The first `count` banks.
pub open spec fn banks_made(
    state: EmitterModel,
    memory: MemoryCell,
    banks: nat,
    count: nat,
) -> BanksModel
    decreases count,
{
    if count == 0 {
        BanksModel { state, wires: seq![] }
    } else {
        let bank = (count - 1) as nat;
        let rest = banks_made(state, memory, banks, bank);
        let enable = bank_enable_made(
            rest.state,
            memory.name@,
            bank,
            banks,
            control_of(state.bits, memory.port.write_enable),
            memory.port.write_address@,
        );
        let tiles = bank_tiles(
            enable.state,
            memory,
            banks,
            bank,
            enable.enable,
            parts(memory.port.write_data@.len() as int, 4) as nat,
        );
        BanksModel { state: tiles.state, wires: rest.wires.push(tiles.wires) }
    }
}

/// The name of a read mux.
pub open spec fn mux_name(
    memory: Seq<char>,
    chunk: nat,
    bit: nat,
    select: nat,
    pair: nat,
) -> Seq<char> {
    "dpram_"@ + memory + "_read_c"@ + decimal_text(chunk) + "_d"@ + decimal_text(bit) + "_s"@
        + decimal_text(select) + "_p"@ + decimal_text(pair)
}

/// The state after one level of read muxes was added, and what it drives.
pub ghost struct LevelModel {
    pub state: EmitterModel,
    pub level: Seq<Bit>,
}

/// The place of a read mux tree: its memory, tile and bit.
pub ghost struct MuxPlace {
    pub memory: MemoryCell,
    pub chunk: nat,
    pub bit: nat,
}

/// The first `count` muxes of the level that address bit `select` controls.
pub open spec fn level_muxes(
    state: EmitterModel,
    place: MuxPlace,
    level: Seq<Bit>,
    select: nat,
    count: nat,
) -> LevelModel
    decreases count,
{
    if count == 0 {
        LevelModel { state, level: seq![] }
    } else {
        let pair = (count - 1) as nat;
        let rest = level_muxes(state, place, level, select, pair);
        let last = parts(level.len() as int, 2) == 1;
        let output = if last {
            net_wire(place.memory.port.read_data@[4 * place.chunk as int + place.bit])
        } else {
            rest.state.next_wire
        };
        let taken = if last {
            rest.state
        } else {
            wire_taken(rest.state)
        };
        LevelModel {
            state: with_cell(
                taken,
                CellModel::Lut4 {
                    name: mux_name(
                        place.memory.name@,
                        place.chunk,
                        place.bit,
                        select,
                        pair,
                    ),
                    inputs: [
                        level[2 * pair as int],
                        if 2 * pair + 1 < level.len() {
                            level[2 * pair as int + 1]
                        } else {
                            Bit::Zero
                        },
                        address_pin(
                            state.bits,
                            place.memory.port.read_address@,
                            0,
                            select as int,
                        ),
                        Bit::Zero,
                    ],
                    output,
                    init: MUX_INIT,
                },
            ),
            level: rest.level.push(Bit::Wire(output)),
        }
    }
}

proof fn lemma_level_len(
    state: EmitterModel,
    place: MuxPlace,
    level: Seq<Bit>,
    select: nat,
    count: nat,
)
    ensures
        level_muxes(state, place, level, select, count).level.len() == count,
        level_muxes(state, place, level, select, count).state.bits == state.bits,
    decreases count,
{
    if count > 0 {
        lemma_level_len(state, place, level, select, (count - 1) as nat);
    }
}

/// The state after a read mux tree over `level` was added.
pub open spec fn mux_tree(
    state: EmitterModel,
    place: MuxPlace,
    level: Seq<Bit>,
    select: nat,
) -> EmitterModel
    decreases level.len(),
    when level.len() >= 0
    via mux_tree_decreases
{
    if level.len() <= 1 {
        state
    } else {
        let next = level_muxes(state, place, level, select, parts(level.len() as int, 2) as nat);
        mux_tree(next.state, place, next.level, select + 1)
    }
}

#[via_fn]
proof fn mux_tree_decreases(
    state: EmitterModel,
    place: MuxPlace,
    level: Seq<Bit>,
    select: nat,
) {
    if level.len() > 1 {
        lemma_level_len(state, place, level, select, parts(level.len() as int, 2) as nat);
    }
}

/// The wires that carry one bit of one tile in each bank.
pub open spec fn bank_bits(wires: Seq<Seq<Seq<u32>>>, chunk: nat, bit: nat) -> Seq<Bit> {
    Seq::new(wires.len(), |bank: int| Bit::Wire(wires[bank][chunk as int][bit as int]))
}

/// The state after read mux trees of the first `count` read-data bits were added.
pub open spec fn read_muxes(
    state: EmitterModel,
    memory: MemoryCell,
    wires: Seq<Seq<Seq<u32>>>,
    count: nat,
) -> EmitterModel
    decreases count,
{
    if count == 0 {
        state
    } else {
        let index = (count - 1) as nat;
        let chunk = index / 4;
        let bit = index % 4;
        mux_tree(
            read_muxes(state, memory, wires, index),
            MuxPlace { memory, chunk, bit },
            bank_bits(wires, chunk, bit),
            4,
        )
    }
}

/// The state after a memory was mapped to distributed RAM.
pub open spec fn distributed_mapped(state: EmitterModel, memory: MemoryCell) -> EmitterModel {
    let banks = parts(memory.depth as int, 16) as nat;
    let made = banks_made(state, memory, banks, banks);
    if banks > 1 {
        read_muxes(made.state, memory, made.wires, memory.port.read_data@.len())
    } else {
        made.state
    }
}

/// The state after a memory without a fault was mapped.
pub open spec fn memory_mapped(
    nodes: Seq<Node>,
    state: EmitterModel,
    memory: MemoryCell,
) -> EmitterModel {
    if memory.read_latency == 0 {
        distributed_mapped(state, memory)
    } else {
        let size = widest_port(memory.depth)->0;
        tiles_mapped(
            nodes,
            state,
            memory,
            size,
            parts(memory.port.write_data@.len() as int, size as int) as nat,
        )
    }
}

fn take_tile_outputs(
    emitter: &mut LutEmitter,
    read_data: &Vec<NetId>,
    banks: usize,
    start: usize,
) -> (wires: Vec<u32>)
    requires
        nets_below(read_data@, MAX_NODES as int),
        start <= read_data@.len(),
    ensures
        (WiresModel { state: final(emitter)@, wires: wires@ }) == tile_outputs(
            old(emitter)@,
            read_data@,
            banks as nat,
            start as int,
            4,
        ),
        wires@.len() == 4,
        final(emitter).bits@ == old(emitter).bits@,
{
    let ghost state = emitter@;
    let mut wires: Vec<u32> = Vec::new();
    assert(wires@ =~= Seq::<u32>::empty());
    for bit in 0..4
        invariant
            nets_below(read_data@, MAX_NODES as int),
            start <= read_data@.len(),
            wires@.len() == bit,
            emitter.bits@ == state.bits,
            (WiresModel { state: emitter@, wires: wires@ }) == tile_outputs(
                state,
                read_data@,
                banks as nat,
                start as int,
                bit as nat,
            ),
    {
        let ghost rest = tile_outputs(
            state,
            read_data@,
            banks as nat,
            start as int,
            bit as nat,
        );
        assert(rest.state == emitter@ && rest.wires == wires@);
        if banks == 1 && bit < read_data.len() - start {
            assert(read_data@[start + bit] < MAX_NODES);
            wires.push(wire_number(read_data[start + bit]));
        } else {
            wires.push(emitter.fresh_wire());
        }
    }
    wires
}

fn bit_of_data(emitter: &LutEmitter, data: &Vec<NetId>, start: usize, offset: usize) -> (bit: Bit)
    requires
        nets_below(data@, emitter.bits@.len() as int),
        start <= data@.len(),
    ensures
        bit == data_bit(emitter.bits@, data@, start + offset),
{
    if offset < data.len() - start {
        assert(data@[start + offset] < emitter.bits@.len());
        emitter.mapped_net(data[start + offset])
    } else {
        Bit::Zero
    }
}

fn make_tile(
    netlist: &Netlist,
    emitter: &mut LutEmitter,
    memory: &MemoryCell,
    banks: usize,
    bank: usize,
    enable: Control,
    chunk: usize,
) -> (wires: Vec<u32>)
    requires
        netlist.is_valid(),
        memory_is_valid(netlist.nodes@, *memory),
        old(emitter).bits@.len() == netlist.nodes@.len(),
        4 * chunk <= memory.port.write_data@.len(),
    ensures
        (WiresModel { state: final(emitter)@, wires: wires@ }) == tile_made(
            old(emitter)@,
            *memory,
            banks as nat,
            bank as nat,
            enable,
            chunk as nat,
        ),
        wires@.len() == 4,
        final(emitter).bits@ == old(emitter).bits@,
{
    let ghost state = emitter@;
    let port = &memory.port;
    proof {
        lemma_port(netlist.nodes@, *port);
        assert forall|i: int| 0 <= i < port.read_data@.len() implies #[trigger] port.read_data@[i]
            < MAX_NODES by {
            assert(port.read_data@[i] < netlist.nodes@.len());
        }
    }
    let total: usize = port.write_data.len();
    assert(4 * chunk <= total);
    let start: usize = 4 * chunk;
    let wires = take_tile_outputs(emitter, &port.read_data, banks, start);
    let mut write_data: Vec<Bit> = Vec::new();
    write_data.push(bit_of_data(emitter, &port.write_data, start, 0));
    write_data.push(bit_of_data(emitter, &port.write_data, start, 1));
    write_data.push(bit_of_data(emitter, &port.write_data, start, 2));
    write_data.push(bit_of_data(emitter, &port.write_data, start, 3));
    assert(write_data@ =~= seq![
        data_bit(state.bits, port.write_data@, start as int),
        data_bit(state.bits, port.write_data@, start + 1),
        data_bit(state.bits, port.write_data@, start + 2),
        data_bit(state.bits, port.write_data@, start + 3),
    ]);
    let mut name = join("dpram_", memory.name.as_str());
    name.append("_b");
    name.append(decimal(bank as u128).as_str());
    name.append("_c");
    name.append(decimal(chunk as u128).as_str());
    let copy = crate::cells::copied(&wires);
    let write_address = distributed_address(emitter, &port.write_address);
    let read_address = distributed_address(emitter, &port.read_address);
    let clock = emitter.mapped_net(port.clock);
    emitter.push_cell(
        Ecp5Cell::BlockRam {
            name,
            implementation: Ecp5MemoryImplementation::Distributed,
            depth: 16,
            word_width: 4,
            physical_width: 4,
            write_address: Box::new(write_address),
            write_data,
            write_enable: enable,
            read_address: Box::new(read_address),
            read_data: copy,
            read_enable: None,
            clock_enable: None,
            clock,
            edge: port.edge,
            second_port: None,
        },
    );
    wires
}

spec fn wires_of(wires: Seq<Vec<u32>>) -> Seq<Seq<u32>> {
    Seq::new(wires.len(), |i: int| wires[i]@)
}

spec fn all_wires_of(wires: Seq<Vec<Vec<u32>>>) -> Seq<Seq<Seq<u32>>> {
    Seq::new(wires.len(), |i: int| wires_of(wires[i]@))
}

spec fn tiles_are_whole(wires: Seq<Vec<u32>>, chunks: int) -> bool {
    wires.len() == chunks && forall|i: int| 0 <= i < wires.len() ==> (#[trigger] wires[i])@.len() == 4
}

fn make_bank(
    netlist: &Netlist,
    emitter: &mut LutEmitter,
    memory: &MemoryCell,
    banks: usize,
    bank: usize,
    enable: Control,
    chunks: usize,
) -> (wires: Vec<Vec<u32>>)
    requires
        netlist.is_valid(),
        memory_is_valid(netlist.nodes@, *memory),
        old(emitter).bits@.len() == netlist.nodes@.len(),
        chunks == parts(memory.port.write_data@.len() as int, 4),
    ensures
        (TilesModel { state: final(emitter)@, wires: wires_of(wires@) }) == bank_tiles(
            old(emitter)@,
            *memory,
            banks as nat,
            bank as nat,
            enable,
            chunks as nat,
        ),
        tiles_are_whole(wires@, chunks as int),
        final(emitter).bits@ == old(emitter).bits@,
{
    let ghost state = emitter@;
    let mut wires: Vec<Vec<u32>> = Vec::new();
    assert(wires_of(wires@) =~= Seq::<Seq<u32>>::empty());
    for chunk in 0..chunks
        invariant
            netlist.is_valid(),
            memory_is_valid(netlist.nodes@, *memory),
            emitter.bits@.len() == netlist.nodes@.len(),
            emitter.bits@ == state.bits,
            chunks == parts(memory.port.write_data@.len() as int, 4),
            tiles_are_whole(wires@, chunk as int),
            (TilesModel { state: emitter@, wires: wires_of(wires@) }) == bank_tiles(
                state,
                *memory,
                banks as nat,
                bank as nat,
                enable,
                chunk as nat,
            ),
    {
        let ghost rest = bank_tiles(
            state,
            *memory,
            banks as nat,
            bank as nat,
            enable,
            chunk as nat,
        );
        assert(rest.state == emitter@ && rest.wires == wires_of(wires@));
        let ghost before = wires@;
        let tile = make_tile(netlist, emitter, memory, banks, bank, enable, chunk);
        let ghost made = tile_made(
            rest.state,
            *memory,
            banks as nat,
            bank as nat,
            enable,
            chunk as nat,
        );
        assert(made.state == emitter@ && made.wires == tile@);
        wires.push(tile);
        assert(wires_of(wires@) =~= wires_of(before).push(tile@));
    }
    wires
}

fn make_banks(
    netlist: &Netlist,
    emitter: &mut LutEmitter,
    memory: &MemoryCell,
    banks: usize,
    chunks: usize,
) -> (wires: Vec<Vec<Vec<u32>>>)
    requires
        netlist.is_valid(),
        memory_is_valid(netlist.nodes@, *memory),
        old(emitter).bits@.len() == netlist.nodes@.len(),
        chunks == parts(memory.port.write_data@.len() as int, 4),
    ensures
        (BanksModel { state: final(emitter)@, wires: all_wires_of(wires@) }) == banks_made(
            old(emitter)@,
            *memory,
            banks as nat,
            banks as nat,
        ),
        wires@.len() == banks,
        forall|i: int|
            0 <= i < wires@.len() ==> tiles_are_whole((#[trigger] wires@[i])@, chunks as int),
        final(emitter).bits@ == old(emitter).bits@,
{
    let ghost state = emitter@;
    proof {
        lemma_port(netlist.nodes@, memory.port);
    }
    let write_enable = map_control(emitter, memory.port.write_enable);
    let mut wires: Vec<Vec<Vec<u32>>> = Vec::new();
    assert(all_wires_of(wires@) =~= Seq::<Seq<Seq<u32>>>::empty());
    for bank in 0..banks
        invariant
            netlist.is_valid(),
            memory_is_valid(netlist.nodes@, *memory),
            nets_below(memory.port.write_address@, netlist.nodes@.len() as int),
            emitter.bits@.len() == netlist.nodes@.len(),
            emitter.bits@ == state.bits,
            write_enable == control_of(state.bits, memory.port.write_enable),
            chunks == parts(memory.port.write_data@.len() as int, 4),
            wires@.len() == bank,
            forall|i: int|
                0 <= i < wires@.len() ==> tiles_are_whole((#[trigger] wires@[i])@, chunks as int),
            (BanksModel { state: emitter@, wires: all_wires_of(wires@) }) == banks_made(
                state,
                *memory,
                banks as nat,
                bank as nat,
            ),
    {
        let ghost rest = banks_made(state, *memory, banks as nat, bank as nat);
        assert(rest.state == emitter@ && rest.wires == all_wires_of(wires@));
        let ghost before = wires@;
        let enable = distributed_bank_enable(
            emitter,
            &memory.name,
            bank,
            banks,
            write_enable,
            &memory.port.write_address,
        );
        let ghost enabled = bank_enable_made(
            rest.state,
            memory.name@,
            bank as nat,
            banks as nat,
            write_enable,
            memory.port.write_address@,
        );
        assert(enabled.state == emitter@ && enabled.enable == enable);
        let tiles = make_bank(netlist, emitter, memory, banks, bank, enable, chunks);
        let ghost made = bank_tiles(
            enabled.state,
            *memory,
            banks as nat,
            bank as nat,
            enable,
            chunks as nat,
        );
        assert(made.state == emitter@ && made.wires == wires_of(tiles@));
        wires.push(tiles);
        assert(all_wires_of(wires@) =~= all_wires_of(before).push(wires_of(tiles@)));
    }
    wires
}

fn name_mux(memory: &String, chunk: usize, bit: usize, select: usize, pair: usize) -> (name: String)
    ensures
        name@ == mux_name(memory@, chunk as nat, bit as nat, select as nat, pair as nat),
{
    let mut name = join("dpram_", memory.as_str());
    name.append("_read_c");
    name.append(decimal(chunk as u128).as_str());
    name.append("_d");
    name.append(decimal(bit as u128).as_str());
    name.append("_s");
    name.append(decimal(select as u128).as_str());
    name.append("_p");
    name.append(decimal(pair as u128).as_str());
    name
}

fn add_level(
    emitter: &mut LutEmitter,
    memory: &MemoryCell,
    chunk: usize,
    bit: usize,
    level: &Vec<Bit>,
    select: usize,
) -> (next: Vec<Bit>)
    requires
        level@.len() > 1,
        nets_below(memory.port.read_address@, old(emitter).bits@.len() as int),
        nets_below(memory.port.read_data@, MAX_NODES as int),
        4 * chunk + bit < memory.port.read_data@.len(),
    ensures
        (LevelModel { state: final(emitter)@, level: next@ }) == level_muxes(
            old(emitter)@,
            (MuxPlace { memory: *memory, chunk: chunk as nat, bit: bit as nat }),
            level@,
            select as nat,
            parts(level@.len() as int, 2) as nat,
        ),
        next@.len() < level@.len(),
        final(emitter).bits@ == old(emitter).bits@,
{
    let ghost state = emitter@;
    let ghost place = MuxPlace { memory: *memory, chunk: chunk as nat, bit: bit as nat };
    let pairs = part_count(level.len(), 2);
    let selector = pin_of_address(emitter, &memory.port.read_address, 0, select);
    let data: usize = memory.port.read_data.len();
    let mut next: Vec<Bit> = Vec::new();
    assert(next@ =~= Seq::<Bit>::empty());
    for pair in 0..pairs
        invariant
            level@.len() > 1,
            pairs == parts(level@.len() as int, 2),
            place == (MuxPlace { memory: *memory, chunk: chunk as nat, bit: bit as nat }),
            selector == address_pin(
                state.bits,
                memory.port.read_address@,
                0,
                select as int,
            ),
            nets_below(memory.port.read_data@, MAX_NODES as int),
            data == memory.port.read_data@.len(),
            4 * chunk + bit < data,
            emitter.bits@ == state.bits,
            next@.len() == pair,
            (LevelModel { state: emitter@, level: next@ }) == level_muxes(
                state,
                place,
                level@,
                select as nat,
                pair as nat,
            ),
    {
        let ghost rest = level_muxes(state, place, level@, select as nat, pair as nat);
        assert(rest.state == emitter@ && rest.level == next@);
        let count: usize = level.len();
        assert(2 * pair < count);
        let zero = level[2 * pair];
        let one = if 2 * pair < count - 1 {
            level[2 * pair + 1]
        } else {
            Bit::Zero
        };
        let output = if pairs == 1 {
            assert(memory.port.read_data@[4 * chunk + bit] < MAX_NODES);
            wire_number(memory.port.read_data[4 * chunk + bit])
        } else {
            emitter.fresh_wire()
        };
        emitter.push_cell(
            Ecp5Cell::Lut4 {
                name: name_mux(&memory.name, chunk, bit, select, pair),
                inputs: [zero, one, selector, Bit::Zero],
                output,
                init: MUX_INIT,
            },
        );
        next.push(Bit::Wire(output));
    }
    next
}

fn add_mux_tree(
    emitter: &mut LutEmitter,
    memory: &MemoryCell,
    chunk: usize,
    bit: usize,
    bits: Vec<Bit>,
)
    requires
        nets_below(memory.port.read_address@, old(emitter).bits@.len() as int),
        nets_below(memory.port.read_data@, MAX_NODES as int),
        4 * chunk + bit < memory.port.read_data@.len(),
        bits@.len() <= 8,
    ensures
        final(emitter)@ == mux_tree(
            old(emitter)@,
            (MuxPlace { memory: *memory, chunk: chunk as nat, bit: bit as nat }),
            bits@,
            4,
        ),
        final(emitter).bits@ == old(emitter).bits@,
{
    let ghost state = emitter@;
    let ghost place = MuxPlace { memory: *memory, chunk: chunk as nat, bit: bit as nat };
    let ghost goal = mux_tree(state, place, bits@, 4);
    let mut level = bits;
    let mut select: usize = 4;
    while level.len() > 1
        invariant
            nets_below(memory.port.read_address@, emitter.bits@.len() as int),
            nets_below(memory.port.read_data@, MAX_NODES as int),
            4 * chunk + bit < memory.port.read_data@.len(),
            place == (MuxPlace { memory: *memory, chunk: chunk as nat, bit: bit as nat }),
            emitter.bits@ == state.bits,
            level@.len() + select <= 12,
            goal == mux_tree(emitter@, place, level@, select as nat),
        decreases level@.len(),
    {
        let ghost now = emitter@;
        let next = add_level(emitter, memory, chunk, bit, &level, select);
        let ghost made = level_muxes(
            now,
            place,
            level@,
            select as nat,
            parts(level@.len() as int, 2) as nat,
        );
        assert(made.state == emitter@ && made.level == next@);
        level = next;
        select += 1;
    }
}

fn map_distributed_memory(netlist: &Netlist, emitter: &mut LutEmitter, memory: &MemoryCell)
    requires
        netlist.is_valid(),
        memory_is_valid(netlist.nodes@, *memory),
        old(emitter).bits@.len() == netlist.nodes@.len(),
        memory.depth <= 128,
    ensures
        final(emitter)@ == distributed_mapped(old(emitter)@, *memory),
        final(emitter).bits@ == old(emitter).bits@,
{
    let ghost state = emitter@;
    let banks = part_count(memory.depth as usize, 16);
    let total: usize = memory.port.write_data.len();
    let chunks = part_count(total, 4);
    proof {
        lemma_port(netlist.nodes@, memory.port);
        assert forall|i: int| 0 <= i < memory.port.read_data@.len() implies #[trigger]
        memory.port.read_data@[i] < MAX_NODES by {
            assert(memory.port.read_data@[i] < netlist.nodes@.len());
        }
    }
    let wires = make_banks(netlist, emitter, memory, banks, chunks);
    let ghost made = banks_made(state, *memory, banks as nat, banks as nat);
    assert(made.state == emitter@ && made.wires == all_wires_of(wires@));
    if banks > 1 {
        let ghost base = emitter@;
        for index in 0..memory.port.read_data.len()
            invariant
                banks <= 8,
                banks == wires@.len(),
                total == memory.port.read_data@.len(),
                chunks == parts(total as int, 4),
                made.wires == all_wires_of(wires@),
                forall|i: int|
                    0 <= i < wires@.len() ==> tiles_are_whole(
                        (#[trigger] wires@[i])@,
                        chunks as int,
                    ),
                nets_below(memory.port.read_address@, emitter.bits@.len() as int),
                nets_below(memory.port.read_data@, MAX_NODES as int),
                emitter.bits@ == state.bits,
                emitter@ == read_muxes(base, *memory, made.wires, index as nat),
        {
            let chunk: usize = index / 4;
            let bit: usize = index % 4;
            let mut bits: Vec<Bit> = Vec::new();
            let ghost all = bank_bits(made.wires, chunk as nat, bit as nat);
            for bank in 0..wires.len()
                invariant
                    made.wires == all_wires_of(wires@),
                    all == bank_bits(made.wires, chunk as nat, bit as nat),
                    chunk < chunks,
                    bit < 4,
                    forall|i: int|
                        0 <= i < wires@.len() ==> tiles_are_whole(
                            (#[trigger] wires@[i])@,
                            chunks as int,
                        ),
                    bits@ == all.take(bank as int),
            {
                assert(tiles_are_whole(wires@[bank as int]@, chunks as int));
                assert(made.wires[bank as int] == wires_of(wires@[bank as int]@));
                assert(wires@[bank as int]@[chunk as int]@.len() == 4);
                bits.push(Bit::Wire(wires[bank][chunk][bit]));
                assert(bits@ =~= all.take(bank + 1));
            }
            assert(all.take(wires@.len() as int) =~= all);
            add_mux_tree(emitter, memory, chunk, bit, bits);
        }
    }
}

/// Maps one memory to block RAM or distributed RAM, or says why it cannot be.
pub fn map_memory(netlist: &Netlist, emitter: &mut LutEmitter, memory: &MemoryCell) -> (result: Result<
    (),
    MappingError,
>)
    requires
        netlist.is_valid(),
        memory_is_valid(netlist.nodes@, *memory),
        old(emitter).bits@.len() == netlist.nodes@.len(),
    ensures
        fault_of(result) == memory_fault(*memory),
        result is Ok ==> final(emitter)@ == memory_mapped(netlist.nodes@, old(emitter)@, *memory),
        result is Err ==> final(emitter)@ == old(emitter)@,
        final(emitter).bits@ == old(emitter).bits@,
{
    let latency = memory.read_latency;
    let width: usize = memory.port.write_data.len();
    if latency == 0 && memory.style != MemoryStyle::Block {
        if memory.second_port.is_some() || memory.port.read_enable.is_some() || memory.depth > 128
            || width == 0 {
            return Err(
                MappingError::UnsupportedDistributedMemoryGeometry {
                    memory: memory.name.clone(),
                    depth: memory.depth,
                    width,
                },
            );
        }
        map_distributed_memory(netlist, emitter, memory);
        return Ok(());
    }
    if latency != 1 || memory.style == MemoryStyle::Distributed {
        return Err(
            MappingError::UnsupportedMemoryStyle {
                memory: memory.name.clone(),
                style: memory.style,
                read_latency: latency,
            },
        );
    }
    if let Some(second) = &memory.second_port {
        if !same_nets(&memory.port.read_address, &memory.port.write_address) {
            return Err(
                MappingError::UnsupportedTrueDualPortAddresses {
                    memory: memory.name.clone(),
                    port: 'A',
                },
            );
        }
        if !same_nets(&second.read_address, &second.write_address) {
            return Err(
                MappingError::UnsupportedTrueDualPortAddresses {
                    memory: memory.name.clone(),
                    port: 'B',
                },
            );
        }
    }
    match maximum_block_ram_width(memory.depth) {
        Some(size) => {
            map_block_memory(netlist, emitter, memory, size);
            Ok(())
        },
        None => Err(
            MappingError::UnsupportedMemoryGeometry {
                memory: memory.name.clone(),
                depth: memory.depth,
                width,
            },
        ),
    }
}

} // verus!
