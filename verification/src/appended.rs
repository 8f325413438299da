//! Mapping memories only adds cells.

use vstd::prelude::*;

use crate::cells::Bit;
use crate::cells::CellModel;
use crate::cells::Control;
use crate::dpram::bank_bits;
use crate::dpram::bank_enable_made;
use crate::dpram::bank_tiles;
use crate::dpram::banks_made;
use crate::dpram::distributed_mapped;
use crate::dpram::level_muxes;
use crate::dpram::memory_mapped;
use crate::dpram::mux_tree;
use crate::dpram::read_muxes;
use crate::dpram::tile_made;
use crate::dpram::tile_outputs;
use crate::dpram::MuxPlace;
use crate::emit::EmitterModel;
use crate::ir::MemoryCell;
use crate::ir::MemoryPort;
use crate::ir::NetId;
use crate::ir::Node;
use crate::mapping::memories_mapped;
use crate::memory::parts;
use crate::memory::port_enable_made;
use crate::memory::tile_mapped;
use crate::memory::tile_name;
use crate::memory::tiles_mapped;
use crate::memory::widest_port;

verus! {

/// Whether no cell is a carry primitive.
pub open spec fn no_carry(cells: Seq<CellModel>) -> bool {
    forall|i: int| 0 <= i < cells.len() ==> !((#[trigger] cells[i]) is Ccu2c)
}

/// Whether `after` has the bits of `before` and its cells first, and no carry
/// primitive beside them; wires that ran out stay so.
pub open spec fn appends(before: EmitterModel, after: EmitterModel) -> bool {
    &&& after.bits == before.bits
    &&& before.next_wire <= after.next_wire
    &&& before.exhausted ==> after.exhausted
    &&& before.cells.len() <= after.cells.len()
    &&& forall|i: int|
        0 <= i < before.cells.len() ==> #[trigger] after.cells[i] == before.cells[i]
    &&& forall|i: int|
        before.cells.len() <= i < after.cells.len() ==> !((#[trigger] after.cells[i]) is Ccu2c)
}

/// Appending is transitive.
pub proof fn lemma_appends(a: EmitterModel, b: EmitterModel, c: EmitterModel)
    requires
        appends(a, b),
        appends(b, c),
    ensures
        appends(a, c),
{
    assert forall|i: int| 0 <= i < a.cells.len() implies #[trigger] c.cells[i] == a.cells[i] by {
        assert(b.cells[i] == a.cells[i]);
    }
    assert forall|i: int| a.cells.len() <= i < c.cells.len() implies !((
    #[trigger] c.cells[i]) is Ccu2c) by {
        if i < b.cells.len() {
            assert(c.cells[i] == b.cells[i]);
        }
    }
}

/// Taking output wires adds no cell.
pub proof fn lemma_outputs_append(
    state: EmitterModel,
    read_data: Seq<NetId>,
    banks: nat,
    start: int,
    count: nat,
)
    ensures
        appends(state, tile_outputs(state, read_data, banks, start, count).state),
    decreases count,
{
    if count > 0 {
        lemma_outputs_append(state, read_data, banks, start, (count - 1) as nat);
    }
}

/// The tiles of a bank are appended.
pub proof fn lemma_tiles_append(
    state: EmitterModel,
    memory: MemoryCell,
    banks: nat,
    bank: nat,
    enable: Control,
    count: nat,
)
    ensures
        appends(state, bank_tiles(state, memory, banks, bank, enable, count).state),
    decreases count,
{
    if count > 0 {
        let chunk = (count - 1) as nat;
        lemma_tiles_append(state, memory, banks, bank, enable, chunk);
        let rest = bank_tiles(state, memory, banks, bank, enable, chunk).state;
        let start = 4 * chunk as int;
        lemma_outputs_append(rest, memory.port.read_data@, banks, start, 4);
        let tile = tile_made(rest, memory, banks, bank, enable, chunk).state;
        assert(appends(rest, tile));
        lemma_appends(state, rest, tile);
    }
}

/// The banks of a memory are appended.
pub proof fn lemma_banks_append(state: EmitterModel, memory: MemoryCell, banks: nat, count: nat)
    ensures
        appends(state, banks_made(state, memory, banks, count).state),
    decreases count,
{
    if count > 0 {
        let bank = (count - 1) as nat;
        lemma_banks_append(state, memory, banks, bank);
        let rest = banks_made(state, memory, banks, bank).state;
        let enable = bank_enable_made(
            rest,
            memory.name@,
            bank,
            banks,
            crate::memory::control_of(state.bits, memory.port.write_enable),
            memory.port.write_address@,
        );
        assert(appends(rest, enable.state));
        lemma_appends(state, rest, enable.state);
        let chunks = parts(memory.port.write_data@.len() as int, 4) as nat;
        lemma_tiles_append(enable.state, memory, banks, bank, enable.enable, chunks);
        lemma_appends(
            state,
            enable.state,
            bank_tiles(enable.state, memory, banks, bank, enable.enable, chunks).state,
        );
    }
}

/// A level of muxes is appended.
pub proof fn lemma_level_append(
    state: EmitterModel,
    place: MuxPlace,
    level: Seq<Bit>,
    select: nat,
    count: nat,
)
    ensures
        appends(state, level_muxes(state, place, level, select, count).state),
        level_muxes(state, place, level, select, count).level.len() == count,
    decreases count,
{
    if count > 0 {
        let pair = (count - 1) as nat;
        lemma_level_append(state, place, level, select, pair);
        let rest = level_muxes(state, place, level, select, pair).state;
        let after = level_muxes(state, place, level, select, count).state;
        assert(appends(rest, after));
        lemma_appends(state, rest, after);
    }
}

/// A tree of muxes is appended.
pub proof fn lemma_tree_append(state: EmitterModel, place: MuxPlace, level: Seq<Bit>, select: nat)
    ensures
        appends(state, mux_tree(state, place, level, select)),
    decreases level.len(),
{
    if level.len() > 1 {
        let count = parts(level.len() as int, 2) as nat;
        lemma_level_append(state, place, level, select, count);
        let next = level_muxes(state, place, level, select, count);
        lemma_tree_append(next.state, place, next.level, select + 1);
        lemma_appends(
            state,
            next.state,
            mux_tree(next.state, place, next.level, select + 1),
        );
    }
}

/// The read muxes are appended.
pub proof fn lemma_reads_append(
    state: EmitterModel,
    memory: MemoryCell,
    wires: Seq<Seq<Seq<u32>>>,
    count: nat,
)
    ensures
        appends(state, read_muxes(state, memory, wires, count)),
    decreases count,
{
    if count > 0 {
        let index = (count - 1) as nat;
        let chunk = index / 4;
        let bit = index % 4;
        lemma_reads_append(state, memory, wires, index);
        let rest = read_muxes(state, memory, wires, index);
        let place = MuxPlace { memory, chunk, bit };
        lemma_tree_append(rest, place, bank_bits(wires, chunk, bit), 4);
        lemma_appends(state, rest, mux_tree(rest, place, bank_bits(wires, chunk, bit), 4));
    }
}

proof fn lemma_distributed_append(state: EmitterModel, memory: MemoryCell)
    ensures
        appends(state, distributed_mapped(state, memory)),
{
    let banks = parts(memory.depth as int, 16) as nat;
    let made = banks_made(state, memory, banks, banks);
    lemma_banks_append(state, memory, banks, banks);
    if banks > 1 {
        let count = memory.port.read_data@.len();
        lemma_reads_append(made.state, memory, made.wires, count);
        lemma_appends(state, made.state, read_muxes(made.state, memory, made.wires, count));
    }
}

proof fn lemma_enable_appends(
    nodes: Seq<Node>,
    state: EmitterModel,
    name: Seq<char>,
    port: MemoryPort,
)
    ensures
        appends(state, port_enable_made(nodes, state, name, port).state),
{
}

/// A block-RAM tile is appended.
pub proof fn lemma_tile_appends(
    nodes: Seq<Node>,
    state: EmitterModel,
    memory: MemoryCell,
    size: u8,
    tile: int,
)
    ensures
        appends(state, tile_mapped(nodes, state, memory, size, tile)),
{
    let after = tile_mapped(nodes, state, memory, size, tile);
    let name = tile_name(
        memory.name@,
        parts(memory.port.write_data@.len() as int, size as int),
        tile,
    );
    if let Some(other) = memory.second_port {
        lemma_enable_appends(nodes, state, name + "_cea"@, memory.port);
        let first = port_enable_made(nodes, state, name + "_cea"@, memory.port);
        lemma_enable_appends(nodes, first.state, name + "_ceb"@, other);
        let second = port_enable_made(nodes, first.state, name + "_ceb"@, other);
        lemma_appends(state, first.state, second.state);
        assert(appends(second.state, after));
        lemma_appends(state, second.state, after);
    } else {
        assert(appends(state, after));
    }
}

/// The block-RAM tiles of a memory are appended.
pub proof fn lemma_block_append(
    nodes: Seq<Node>,
    state: EmitterModel,
    memory: MemoryCell,
    size: u8,
    count: nat,
)
    ensures
        appends(state, tiles_mapped(nodes, state, memory, size, count)),
    decreases count,
{
    if count > 0 {
        let tile = count - 1;
        lemma_block_append(nodes, state, memory, size, tile as nat);
        let rest = tiles_mapped(nodes, state, memory, size, tile as nat);
        lemma_tile_appends(nodes, rest, memory, size, tile);
        lemma_appends(state, rest, tile_mapped(nodes, rest, memory, size, tile));
    }
}

/// Mapping a memory adds cells and changes nothing else.
pub proof fn lemma_memory_appends(nodes: Seq<Node>, state: EmitterModel, memory: MemoryCell)
    ensures
        appends(state, memory_mapped(nodes, state, memory)),
{
    lemma_distributed_append(state, memory);
    let size = widest_port(memory.depth)->0;
    lemma_block_append(
        nodes,
        state,
        memory,
        size,
        parts(memory.port.write_data@.len() as int, size as int) as nat,
    );
}

/// Mapping memories adds cells and changes nothing else.
pub proof fn law_memories_only_add_cells(
    nodes: Seq<Node>,
    state: EmitterModel,
    memories: Seq<MemoryCell>,
    count: nat,
)
    ensures
        appends(state, memories_mapped(nodes, state, memories, count)),
    decreases count,
{
    if count > 0 {
        let last = (count - 1) as nat;
        let memory = memories[last as int];
        law_memories_only_add_cells(nodes, state, memories, last);
        let rest = memories_mapped(nodes, state, memories, last);
        lemma_memory_appends(nodes, rest, memory);
        lemma_appends(state, rest, memory_mapped(nodes, rest, memory));
    }
}

} // verus!
