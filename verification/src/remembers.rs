//! What the memories of a mapping remember, as the source says it.

use vstd::prelude::*;

use crate::appended::appends;
use crate::appended::lemma_appends;
use crate::appended::lemma_banks_append;
use crate::appended::lemma_block_append;
use crate::appended::lemma_level_append;
use crate::appended::lemma_memory_appends;
use crate::appended::lemma_outputs_append;
use crate::appended::lemma_tile_appends;
use crate::appended::lemma_tiles_append;
use crate::blocks::address_of;
use crate::blocks::block_bit;
use crate::blocks::block_cells;
use crate::blocks::block_works;
use crate::blocks::blocks_work;
use crate::blocks::is_block_memory;
use crate::blocks::law_block_memory_stores;
use crate::blocks::law_dual_port_memory_stores;
use crate::blocks::port_clocked;
use crate::blocks::port_loads;
use crate::blocks::port_steps;
use crate::blocks::port_stores;
use crate::cells::Bit;
use crate::cells::CellModel;
use crate::cells::ClockEdge;
use crate::cells::Control;
use crate::constraints::DelaysModel;
use crate::constraints::MappingOptions;
use crate::cuts::nodes_are_valid;
use crate::cuts::LUT_INPUTS;
use crate::cuts::WIDE_LUT_INPUTS;
use crate::demand::demanded;
use crate::dpram::bank_bits;
use crate::dpram::bank_enable_made;
use crate::dpram::bank_tiles;
use crate::dpram::banks_made;
use crate::dpram::distributed_mapped;
use crate::dpram::level_muxes;
use crate::dpram::memory_mapped;
use crate::dpram::mux_tree;
use crate::dpram::read_muxes;
use crate::dpram::tile_made;
use crate::dpram::tile_outputs;
use crate::dpram::MuxPlace;
use crate::emit::bit_of;
use crate::emit::EmitterModel;
use crate::equivalence::is_countable;
use crate::equivalence::lemma_logic;
use crate::equivalence::lemma_memory_demands;
use crate::equivalence::nets_agree;
use crate::errors::MappingFault;
use crate::ir::lemma_fault;
use crate::ir::memory_is_valid;
use crate::ir::memory_port_is_valid;
use crate::ir::memory_reads;
use crate::ir::net_wire;
use crate::ir::port_reads;
use crate::ir::EnableControl;
use crate::ir::MemoryCell;
use crate::ir::MemoryPort;
use crate::ir::NetId;
use crate::ir::Netlist;
use crate::ir::Node;
use crate::mapping::logic_emitted;
use crate::mapping::mapped_once;
use crate::mapping::memories_fault;
use crate::mapping::memories_mapped;
use crate::mapping::netlist_cover;
use crate::meaning::bit_value;
use crate::meaning::cell_agrees;
use crate::meaning::cells_agree;
use crate::meaning::lemma_agree_prefix;
use crate::meaning::node_value;
use crate::meaning::nodes_agree;
use crate::memory::control_of;
use crate::memory::enable_implies;
use crate::memory::has_conjunct;
use crate::memory::lemma_port;
use crate::memory::memory_fault;
use crate::memory::parts;
use crate::memory::port_enable_made;
use crate::memory::tile_mapped;
use crate::memory::tile_name;
use crate::memory::tiles_mapped;
use crate::memory::widest_port;
use crate::netlist::NetlistModel;
use crate::plans::PlanModel;
use crate::sound_cover::law_cover_is_sound;
use crate::stored::address_value;
use crate::stored::law_distributed_memory_stores;
use crate::stored::tile_works;
use crate::stored::tiles_work;
use crate::stored::word_bit;

verus! {

/// The number that the nets of a word stand for from bit `from` on, least-significant
/// first.
pub open spec fn number(nets: spec_fn(NetId) -> bool, word: Seq<NetId>, from: int) -> nat
    decreases word.len() - from,
{
    if from >= word.len() {
        0
    } else {
        (if nets(word[from]) {
            1nat
        } else {
            0
        }) + 2 * number(nets, word, from + 1)
    }
}

/// Whether a control of the source is at its active level.
pub open spec fn is_on(nets: spec_fn(NetId) -> bool, control: EnableControl) -> bool {
    nets(control.signal) == (control.active is High)
}

/// Whether the clock of a port of the source has its edge where nets go from `now` to
/// `then`.
pub open spec fn port_edge(
    now: spec_fn(NetId) -> bool,
    then: spec_fn(NetId) -> bool,
    port: MemoryPort,
) -> bool {
    match port.edge {
        ClockEdge::Rising => !now(port.clock) && then(port.clock),
        ClockEdge::Falling => now(port.clock) && !then(port.clock),
    }
}

/// Whether a port of the source writes address `address`.
pub open spec fn source_writes(
    now: spec_fn(NetId) -> bool,
    then: spec_fn(NetId) -> bool,
    port: MemoryPort,
    address: nat,
) -> bool {
    &&& port_edge(now, then, port)
    &&& is_on(now, port.write_enable)
    &&& address == number(now, port.write_address@, 0)
}

/// Whether a port of the source that only reads takes the word at its read address.
pub open spec fn source_reads(
    now: spec_fn(NetId) -> bool,
    then: spec_fn(NetId) -> bool,
    port: MemoryPort,
) -> bool {
    &&& port_edge(now, then, port)
    &&& port.read_enable matches Some(enable) ==> is_on(now, enable)
}

/// Whether a port that reads and writes at one address is used: it is written or read.
pub open spec fn source_uses(
    now: spec_fn(NetId) -> bool,
    then: spec_fn(NetId) -> bool,
    port: MemoryPort,
) -> bool {
    &&& port_edge(now, then, port)
    &&& port.read_enable matches Some(enable) ==> is_on(now, enable) || is_on(
        now,
        port.write_enable,
    )
}

/// Whether the bits of nets carry the values of the source.
spec fn carry(
    values: spec_fn(u32) -> bool,
    bits: Seq<Option<Bit>>,
    nets: spec_fn(NetId) -> bool,
    word: Seq<NetId>,
) -> bool {
    forall|k: int|
        0 <= k < word.len() ==> bit_value(values, bit_of(bits, #[trigger] word[k])) == nets(word[k])
}

proof fn lemma_number(
    values: spec_fn(u32) -> bool,
    bits: Seq<Option<Bit>>,
    nets: spec_fn(NetId) -> bool,
    word: Seq<NetId>,
    from: int,
)
    requires
        carry(values, bits, nets, word),
        0 <= from <= word.len(),
    ensures
        address_value(values, bits, word, from, (word.len() - from) as nat) == number(
            nets,
            word,
            from,
        ),
    decreases word.len() - from,
{
    if from < word.len() {
        lemma_number(values, bits, nets, word, from + 1);
        assert(bit_value(values, bit_of(bits, word[from])) == nets(word[from]));
    }
}

proof fn lemma_beyond(
    values: spec_fn(u32) -> bool,
    bits: Seq<Option<Bit>>,
    word: Seq<NetId>,
    from: int,
    width: nat,
)
    requires
        from >= word.len(),
    ensures
        address_value(values, bits, word, from, width) == 0,
    decreases width,
{
    if width > 0 {
        lemma_beyond(values, bits, word, from + 1, (width - 1) as nat);
    }
}

/// Seven pins of an address hold its low bits, split at the fourth.
proof fn lemma_split_address(
    values: spec_fn(u32) -> bool,
    bits: Seq<Option<Bit>>,
    nets: spec_fn(NetId) -> bool,
    word: Seq<NetId>,
)
    requires
        carry(values, bits, nets, word),
        number(nets, word, 0) < 128,
    ensures
        ({
            let low = address_value(values, bits, word, 0, 4);
            let high = address_value(values, bits, word, 4, 3);
            number(nets, word, 0) == low + 16 * high && low < 16 && high < 8
        }),
{
    lemma_place(values, bits, nets, word, 0, 4);
    lemma_place(values, bits, nets, word, 1, 3);
    lemma_place(values, bits, nets, word, 2, 2);
    lemma_place(values, bits, nets, word, 3, 1);
    lemma_place(values, bits, nets, word, 4, 3);
    lemma_place(values, bits, nets, word, 5, 2);
    lemma_place(values, bits, nets, word, 6, 1);
    assert(address_value(values, bits, word, 4, 0) == 0);
    assert(address_value(values, bits, word, 7, 0) == 0);
}

/// One place of an address, as a pin and as a bit of the number.
proof fn lemma_place(
    values: spec_fn(u32) -> bool,
    bits: Seq<Option<Bit>>,
    nets: spec_fn(NetId) -> bool,
    word: Seq<NetId>,
    from: int,
    width: nat,
)
    requires
        carry(values, bits, nets, word),
        0 <= from,
        0 < width,
    ensures
        ({
            let bit = number(nets, word, from) - 2 * number(nets, word, from + 1);
            &&& bit == 0 || bit == 1
            &&& address_value(values, bits, word, from, width) == bit + 2 * address_value(
                values,
                bits,
                word,
                from + 1,
                (width - 1) as nat,
            )
        }),
{
    if from < word.len() {
        assert(bit_value(values, bit_of(bits, word[from])) == nets(word[from]));
    } else {
        assert(number(nets, word, from) == 0 && number(nets, word, from + 1) == 0);
    }
}

/// Where the structure of the netlist shows that one enable implies another, it does.
pub proof fn law_enables_imply(
    nets: spec_fn(NetId) -> bool,
    nodes: Seq<Node>,
    antecedent: EnableControl,
    consequent: EnableControl,
)
    requires
        nodes_are_valid(nodes),
        nodes_agree(nodes, nets),
        antecedent.signal < nodes.len(),
        consequent.signal < nodes.len(),
        enable_implies(nodes, antecedent, consequent),
        is_on(nets, antecedent),
    ensures
        is_on(nets, consequent),
{
    assert(node_value(nodes, nets, antecedent.signal as int) == nets(antecedent.signal) || !(
    nodes[antecedent.signal as int].kind is Constant));
    assert(node_value(nodes, nets, consequent.signal as int) == nets(consequent.signal) || !(
    nodes[consequent.signal as int].kind is Constant));
    if has_conjunct(nodes, antecedent.signal, consequent.signal) && nets(antecedent.signal) {
        lemma_conjunct(nets, nodes, antecedent.signal, consequent.signal);
    }
}

proof fn lemma_conjunct(
    nets: spec_fn(NetId) -> bool,
    nodes: Seq<Node>,
    expression: NetId,
    conjunct: NetId,
)
    requires
        nodes_are_valid(nodes),
        nodes_agree(nodes, nets),
        expression < nodes.len(),
        has_conjunct(nodes, expression, conjunct),
        nets(expression),
    ensures
        nets(conjunct),
    decreases expression,
{
    if expression != conjunct {
        let inputs = nodes[expression as int].inputs@;
        assert(node_value(nodes, nets, expression as int) == nets(expression));
        if inputs.len() > 0 && inputs[0] < expression && has_conjunct(
            nodes,
            inputs[0],
            conjunct,
        ) {
            lemma_conjunct(nets, nodes, inputs[0], conjunct);
        } else {
            lemma_conjunct(nets, nodes, inputs[1], conjunct);
        }
    }
}

/// Whether a RAM is clocked as a memory of the source: each of its ports reads the
/// value of the source port's clock, and acts on its edge.
pub open spec fn is_clocked_as(
    values: spec_fn(u32) -> bool,
    nets: spec_fn(NetId) -> bool,
    cell: CellModel,
    memory: MemoryCell,
) -> bool {
    cell matches CellModel::BlockRam { clock, edge, second_port, .. } && {
        &&& bit_value(values, clock) == nets(memory.port.clock)
        &&& edge == memory.port.edge
        &&& match memory.second_port {
            Some(other) => second_port matches Some(port) && bit_value(values, port.clock) == nets(
                other.clock,
            ) && port.edge == other.edge,
            None => second_port is None,
        }
    }
}

/// Whether the clock pins of a memory carry the values of the source.
spec fn clocks_carry(
    values: spec_fn(u32) -> bool,
    bits: Seq<Option<Bit>>,
    nets: spec_fn(NetId) -> bool,
    memory: MemoryCell,
) -> bool {
    &&& bit_value(values, bit_of(bits, memory.port.clock)) == nets(memory.port.clock)
    &&& memory.second_port matches Some(port) ==> bit_value(values, bit_of(bits, port.clock))
        == nets(port.clock)
}

/// Whether every RAM behind the first `from` cells is clocked as the memory.
spec fn all_clocked(
    values: spec_fn(u32) -> bool,
    nets: spec_fn(NetId) -> bool,
    cells: Seq<CellModel>,
    from: int,
    memory: MemoryCell,
) -> bool {
    forall|i: int|
        from <= i < cells.len() && (#[trigger] cells[i]) is BlockRam ==> is_clocked_as(
            values,
            nets,
            cells[i],
            memory,
        )
}

proof fn lemma_bank_clocked(
    values: spec_fn(u32) -> bool,
    nets: spec_fn(NetId) -> bool,
    state: EmitterModel,
    memory: MemoryCell,
    banks: nat,
    bank: nat,
    enable: Control,
    count: nat,
    from: int,
)
    requires
        0 <= from,
        clocks_carry(values, state.bits, nets, memory),
        memory.second_port is None,
        all_clocked(values, nets, state.cells, from, memory),
    ensures
        all_clocked(
            values,
            nets,
            bank_tiles(state, memory, banks, bank, enable, count).state.cells,
            from,
            memory,
        ),
    decreases count,
{
    if count > 0 {
        let chunk = (count - 1) as nat;
        lemma_bank_clocked(values, nets, state, memory, banks, bank, enable, chunk, from);
        let rest = bank_tiles(state, memory, banks, bank, enable, chunk).state;
        lemma_tiles_append(state, memory, banks, bank, enable, chunk);
        lemma_outputs_append(rest, memory.port.read_data@, banks, 4 * chunk as int, 4);
        lemma_outputs_only(rest, memory.port.read_data@, banks, 4 * chunk as int, 4);
        let tile = tile_made(rest, memory, banks, bank, enable, chunk).state;
        assert forall|i: int| from <= i < tile.cells.len() && (
        #[trigger] tile.cells[i]) is BlockRam implies is_clocked_as(
            values,
            nets,
            tile.cells[i],
            memory,
        ) by {
            if i < rest.cells.len() {
                assert(tile.cells[i] == rest.cells[i]);
            }
        }
    }
}

proof fn lemma_outputs_only(
    state: EmitterModel,
    read_data: Seq<NetId>,
    banks: nat,
    start: int,
    count: nat,
)
    ensures
        tile_outputs(state, read_data, banks, start, count).state.cells == state.cells,
    decreases count,
{
    if count > 0 {
        lemma_outputs_only(state, read_data, banks, start, (count - 1) as nat);
    }
}

proof fn lemma_banks_clocked(
    values: spec_fn(u32) -> bool,
    nets: spec_fn(NetId) -> bool,
    state: EmitterModel,
    memory: MemoryCell,
    banks: nat,
    count: nat,
    from: int,
)
    requires
        0 <= from,
        clocks_carry(values, state.bits, nets, memory),
        memory.second_port is None,
        all_clocked(values, nets, state.cells, from, memory),
    ensures
        all_clocked(
            values,
            nets,
            banks_made(state, memory, banks, count).state.cells,
            from,
            memory,
        ),
    decreases count,
{
    if count > 0 {
        let bank = (count - 1) as nat;
        lemma_banks_clocked(values, nets, state, memory, banks, bank, from);
        lemma_banks_append(state, memory, banks, bank);
        let rest = banks_made(state, memory, banks, bank).state;
        let enable = bank_enable_made(
            rest,
            memory.name@,
            bank,
            banks,
            control_of(state.bits, memory.port.write_enable),
            memory.port.write_address@,
        );
        assert forall|i: int| from <= i < enable.state.cells.len() && (
        #[trigger] enable.state.cells[i]) is BlockRam implies is_clocked_as(
            values,
            nets,
            enable.state.cells[i],
            memory,
        ) by {
            if i < rest.cells.len() {
                assert(enable.state.cells[i] == rest.cells[i]);
            }
        }
        let chunks = parts(memory.port.write_data@.len() as int, 4) as nat;
        lemma_bank_clocked(
            values,
            nets,
            enable.state,
            memory,
            banks,
            bank,
            enable.enable,
            chunks,
            from,
        );
    }
}

/// Whether `after` adds no RAM to `before`.
spec fn adds_no_ram(before: Seq<CellModel>, after: Seq<CellModel>) -> bool {
    &&& before.len() <= after.len()
    &&& forall|i: int| 0 <= i < before.len() ==> (#[trigger] after[i]) == before[i]
    &&& forall|i: int| before.len() <= i < after.len() ==> !((#[trigger] after[i]) is BlockRam)
}

proof fn lemma_no_ram_joined(a: Seq<CellModel>, b: Seq<CellModel>, c: Seq<CellModel>)
    requires
        adds_no_ram(a, b),
        adds_no_ram(b, c),
    ensures
        adds_no_ram(a, c),
{
    assert forall|i: int| 0 <= i < a.len() implies (#[trigger] c[i]) == a[i] by {
        assert(b[i] == a[i]);
    }
    assert forall|i: int| a.len() <= i < c.len() implies !((#[trigger] c[i]) is BlockRam) by {
        if i < b.len() {
            assert(c[i] == b[i]);
        }
    }
}

proof fn lemma_level_no_ram(
    state: EmitterModel,
    place: MuxPlace,
    level: Seq<Bit>,
    select: nat,
    count: nat,
)
    ensures
        adds_no_ram(state.cells, level_muxes(state, place, level, select, count).state.cells),
    decreases count,
{
    if count > 0 {
        lemma_level_no_ram(state, place, level, select, (count - 1) as nat);
        let rest = level_muxes(state, place, level, select, (count - 1) as nat).state.cells;
        let after = level_muxes(state, place, level, select, count).state.cells;
        assert(adds_no_ram(rest, after));
        lemma_no_ram_joined(state.cells, rest, after);
    }
}

proof fn lemma_tree_no_ram(state: EmitterModel, place: MuxPlace, level: Seq<Bit>, select: nat)
    ensures
        adds_no_ram(state.cells, mux_tree(state, place, level, select).cells),
    decreases level.len(),
{
    if level.len() > 1 {
        let count = parts(level.len() as int, 2) as nat;
        lemma_level_append(state, place, level, select, count);
        lemma_level_no_ram(state, place, level, select, count);
        let next = level_muxes(state, place, level, select, count);
        lemma_tree_no_ram(next.state, place, next.level, select + 1);
        lemma_no_ram_joined(
            state.cells,
            next.state.cells,
            mux_tree(next.state, place, next.level, select + 1).cells,
        );
    }
}

proof fn lemma_reads_no_ram(
    state: EmitterModel,
    memory: MemoryCell,
    wires: Seq<Seq<Seq<u32>>>,
    count: nat,
)
    ensures
        adds_no_ram(state.cells, read_muxes(state, memory, wires, count).cells),
    decreases count,
{
    if count > 0 {
        let index = (count - 1) as nat;
        let chunk = index / 4;
        let bit = index % 4;
        lemma_reads_no_ram(state, memory, wires, index);
        let rest = read_muxes(state, memory, wires, index);
        let place = MuxPlace { memory, chunk, bit };
        lemma_tree_no_ram(rest, place, bank_bits(wires, chunk, bit), 4);
        lemma_no_ram_joined(
            state.cells,
            rest.cells,
            mux_tree(rest, place, bank_bits(wires, chunk, bit), 4).cells,
        );
    }
}

proof fn lemma_enable_no_ram(
    nodes: Seq<Node>,
    state: EmitterModel,
    name: Seq<char>,
    port: MemoryPort,
)
    ensures
        adds_no_ram(state.cells, port_enable_made(nodes, state, name, port).state.cells),
{
}

proof fn lemma_tile_clocked(
    values: spec_fn(u32) -> bool,
    nets: spec_fn(NetId) -> bool,
    nodes: Seq<Node>,
    rest: EmitterModel,
    memory: MemoryCell,
    size: u8,
    tile: int,
    i: int,
)
    requires
        clocks_carry(values, rest.bits, nets, memory),
        rest.cells.len() <= i < tile_mapped(nodes, rest, memory, size, tile).cells.len(),
        tile_mapped(nodes, rest, memory, size, tile).cells[i] is BlockRam,
    ensures
        is_clocked_as(
            values,
            nets,
            tile_mapped(nodes, rest, memory, size, tile).cells[i],
            memory,
        ),
{
    let after = tile_mapped(nodes, rest, memory, size, tile);
    let name = tile_name(
        memory.name@,
        parts(memory.port.write_data@.len() as int, size as int),
        tile,
    );
    if let Some(other) = memory.second_port {
        lemma_enable_no_ram(nodes, rest, name + "_cea"@, memory.port);
        let first = port_enable_made(nodes, rest, name + "_cea"@, memory.port);
        lemma_enable_no_ram(nodes, first.state, name + "_ceb"@, other);
        let second = port_enable_made(nodes, first.state, name + "_ceb"@, other);
        lemma_no_ram_joined(rest.cells, first.state.cells, second.state.cells);
        if i < second.state.cells.len() {
            assert(after.cells[i] == second.state.cells[i]);
        }
    } else {
        assert(i == rest.cells.len());
    }
}

proof fn lemma_blocks_clocked(
    values: spec_fn(u32) -> bool,
    nets: spec_fn(NetId) -> bool,
    nodes: Seq<Node>,
    state: EmitterModel,
    memory: MemoryCell,
    size: u8,
    count: nat,
    from: int,
)
    requires
        0 <= from,
        clocks_carry(values, state.bits, nets, memory),
        all_clocked(values, nets, state.cells, from, memory),
    ensures
        all_clocked(
            values,
            nets,
            tiles_mapped(nodes, state, memory, size, count).cells,
            from,
            memory,
        ),
    decreases count,
{
    if count > 0 {
        let tile = count - 1;
        lemma_blocks_clocked(values, nets, nodes, state, memory, size, tile as nat, from);
        lemma_block_append(nodes, state, memory, size, tile as nat);
        let rest = tiles_mapped(nodes, state, memory, size, tile as nat);
        let after = tile_mapped(nodes, rest, memory, size, tile);
        lemma_tile_appends(nodes, rest, memory, size, tile);
        assert forall|i: int| from <= i < after.cells.len() && (
        #[trigger] after.cells[i]) is BlockRam implies is_clocked_as(
            values,
            nets,
            after.cells[i],
            memory,
        ) by {
            if i < rest.cells.len() {
                assert(after.cells[i] == rest.cells[i]);
            } else {
                lemma_tile_clocked(values, nets, nodes, rest, memory, size, tile, i);
            }
        }
    }
}

/// Every RAM made for a memory is clocked as the memory: by the value of its port's
/// clock, on its port's edge, and so the second port where it has one.
pub proof fn law_memory_keeps_clocks(
    values: spec_fn(u32) -> bool,
    nets: spec_fn(NetId) -> bool,
    nodes: Seq<Node>,
    state: EmitterModel,
    memory: MemoryCell,
    i: int,
)
    requires
        memory_fault(memory) is None,
        bit_value(values, bit_of(state.bits, memory.port.clock)) == nets(memory.port.clock),
        memory.second_port matches Some(port) ==> bit_value(
            values,
            bit_of(state.bits, port.clock),
        ) == nets(port.clock),
        state.cells.len() <= i < memory_mapped(nodes, state, memory).cells.len(),
        memory_mapped(nodes, state, memory).cells[i] is BlockRam,
    ensures
        is_clocked_as(values, nets, memory_mapped(nodes, state, memory).cells[i], memory),
{
    let from = state.cells.len() as int;
    if memory.read_latency == 0 {
        let banks = parts(memory.depth as int, 16) as nat;
        let made = banks_made(state, memory, banks, banks);
        lemma_banks_clocked(values, nets, state, memory, banks, banks, from);
        lemma_reads_no_ram(made.state, memory, made.wires, memory.port.read_data@.len());
        if banks > 1 && i < made.state.cells.len() {
            assert(distributed_mapped(state, memory).cells[i] == made.state.cells[i]);
        }
    } else {
        let size = widest_port(memory.depth)->0;
        let count = parts(memory.port.write_data@.len() as int, size as int) as nat;
        lemma_blocks_clocked(values, nets, nodes, state, memory, size, count, from);
    }
}

/// Where the cells of memory `m` begin in a mapping.
pub open spec fn memory_from(
    netlist: Netlist,
    options: MappingOptions,
    plans: Seq<Option<PlanModel>>,
    m: int,
) -> EmitterModel {
    memories_mapped(
        netlist.nodes@,
        logic_emitted(netlist, options, plans),
        netlist.memories@,
        m as nat,
    )
}

proof fn lemma_memories_first(
    nodes: Seq<Node>,
    state: EmitterModel,
    memories: Seq<MemoryCell>,
    low: nat,
    high: nat,
)
    requires
        low <= high,
    ensures
        appends(
            memories_mapped(nodes, state, memories, low),
            memories_mapped(nodes, state, memories, high),
        ),
    decreases high,
{
    if low < high {
        lemma_memories_first(nodes, state, memories, low, (high - 1) as nat);
        let rest = memories_mapped(nodes, state, memories, (high - 1) as nat);
        lemma_memory_appends(nodes, rest, memories[high - 1]);
        lemma_appends(
            memories_mapped(nodes, state, memories, low),
            rest,
            memories_mapped(nodes, state, memories, high),
        );
    }
}

proof fn lemma_sound_memory(memories: Seq<MemoryCell>, from: int, at: int)
    requires
        memories_fault(memories, from) is None,
        0 <= from <= at < memories.len(),
    ensures
        memory_fault(memories[at]) is None,
    decreases at - from,
{
    if from < at {
        lemma_sound_memory(memories, from + 1, at);
    }
}

/// The plans of a mapping.
pub open spec fn plans_of(
    netlist: Netlist,
    options: MappingOptions,
    period_ps: u32,
    delays: DelaysModel,
    max_inputs: nat,
) -> Seq<Option<PlanModel>> {
    netlist_cover(netlist, options, period_ps, delays, max_inputs).plans
}

/// What a memory reads carries the values of the source, and its cells stand in the
/// mapping.
proof fn lemma_memory_reached(
    netlist: Netlist,
    options: MappingOptions,
    period_ps: u32,
    delays: DelaysModel,
    max_inputs: nat,
    values: spec_fn(u32) -> bool,
    nets: spec_fn(NetId) -> bool,
    m: int,
)
    requires
        is_countable(netlist),
        LUT_INPUTS <= max_inputs <= WIDE_LUT_INPUTS,
        nets_agree(netlist, values, nets),
        mapped_once(netlist, options, period_ps, delays, max_inputs) matches Ok(mapped)
            && cells_agree(values, mapped.cells),
        0 <= m < netlist.memories@.len(),
    ensures
        ({
            let plans = plans_of(netlist, options, period_ps, delays, max_inputs);
            let state = memory_from(netlist, options, plans, m);
            let memory = netlist.memories@[m];
            let mapped = mapped_once(netlist, options, period_ps, delays, max_inputs)->Ok_0;
            let done = memory_mapped(netlist.nodes@, state, memory);
            &&& netlist.is_valid()
            &&& memory_is_valid(netlist.nodes@, memory)
            &&& memory_fault(memory) is None
            &&& carry(values, state.bits, nets, memory_reads(memory))
            &&& done == memory_from(netlist, options, plans, m + 1)
            &&& state.cells.len() <= done.cells.len() <= mapped.cells.len()
            &&& done.cells =~= mapped.cells.take(done.cells.len() as int)
            &&& cells_agree(values, done.cells)
        }),
{
    let nodes = netlist.nodes@;
    let plans = plans_of(netlist, options, period_ps, delays, max_inputs);
    let logic = logic_emitted(netlist, options, plans);
    let memories = netlist.memories@;
    let state = memory_from(netlist, options, plans, m);
    let memory = memories[m];
    let mapped = mapped_once(netlist, options, period_ps, delays, max_inputs)->Ok_0;
    let done = memory_mapped(nodes, state, memory);
    lemma_fault(netlist);
    law_cover_is_sound(netlist, options, period_ps, delays, max_inputs);
    assert(memory_is_valid(nodes, memory));
    lemma_sound_memory(memories, 0, m);
    lemma_memories_first(nodes, logic, memories, 0, m as nat);
    lemma_memories_first(nodes, logic, memories, 0, memories.len());
    lemma_memories_first(nodes, logic, memories, (m + 1) as nat, memories.len());
    lemma_memory_appends(nodes, state, memory);
    assert(done == memories_mapped(nodes, logic, memories, (m + 1) as nat));
    assert(done.cells =~= mapped.cells.take(done.cells.len() as int));
    lemma_agree_prefix(values, done.cells, mapped.cells);
    assert(logic.cells =~= mapped.cells.take(logic.cells.len() as int));
    lemma_agree_prefix(values, logic.cells, mapped.cells);
    lemma_logic(values, nets, netlist, options, plans);
    assert(state.bits == logic.bits);
    let reads = memory_reads(memory);
    assert forall|j: int| 0 <= j < reads.len() implies bit_value(
        values,
        bit_of(state.bits, #[trigger] reads[j]),
    ) == nets(reads[j]) by {
        lemma_memory_demands(netlist, m, j);
        let roots = demanded(netlist);
        let k = choose|k: int| 0 <= k < roots.len() && roots[k] == reads[j];
        assert(roots[k] == reads[j]);
    }
}

/// Whether what a port reads carries the values of the source.
spec fn port_carries(
    values: spec_fn(u32) -> bool,
    bits: Seq<Option<Bit>>,
    nets: spec_fn(NetId) -> bool,
    port: MemoryPort,
) -> bool {
    &&& carry(values, bits, nets, port.read_address@)
    &&& carry(values, bits, nets, port.write_address@)
    &&& carry(values, bits, nets, port.write_data@)
    &&& bit_value(values, bit_of(bits, port.clock)) == nets(port.clock)
    &&& bit_value(values, bit_of(bits, port.write_enable.signal)) == nets(port.write_enable.signal)
    &&& port.read_enable matches Some(enable) ==> bit_value(values, bit_of(bits, enable.signal))
        == nets(enable.signal)
}

proof fn lemma_port_carries(
    values: spec_fn(u32) -> bool,
    bits: Seq<Option<Bit>>,
    nets: spec_fn(NetId) -> bool,
    port: MemoryPort,
)
    requires
        carry(values, bits, nets, port_reads(port)),
    ensures
        port_carries(values, bits, nets, port),
{
    let reads = port_reads(port);
    let a = port.read_address@.len() as int;
    let b = port.write_address@.len() as int;
    let c = port.write_data@.len() as int;
    assert forall|k: int| 0 <= k < a implies bit_value(
        values,
        bit_of(bits, #[trigger] port.read_address@[k]),
    ) == nets(port.read_address@[k]) by {
        assert(reads[k] == port.read_address@[k]);
    }
    assert forall|k: int| 0 <= k < b implies bit_value(
        values,
        bit_of(bits, #[trigger] port.write_address@[k]),
    ) == nets(port.write_address@[k]) by {
        assert(reads[a + k] == port.write_address@[k]);
    }
    assert forall|k: int| 0 <= k < c implies bit_value(
        values,
        bit_of(bits, #[trigger] port.write_data@[k]),
    ) == nets(port.write_data@[k]) by {
        assert(reads[a + b + k] == port.write_data@[k]);
    }
    assert(reads[a + b + c] == port.clock);
    assert(reads[a + b + c + 1] == port.write_enable.signal);
    if let Some(enable) = port.read_enable {
        assert(reads[a + b + c + 2] == enable.signal);
    }
}

proof fn lemma_both_carry(
    values: spec_fn(u32) -> bool,
    bits: Seq<Option<Bit>>,
    nets: spec_fn(NetId) -> bool,
    memory: MemoryCell,
)
    requires
        carry(values, bits, nets, memory_reads(memory)),
    ensures
        port_carries(values, bits, nets, memory.port),
        memory.second_port matches Some(port) ==> port_carries(values, bits, nets, port),
{
    let reads = memory_reads(memory);
    let first = port_reads(memory.port);
    assert forall|k: int| 0 <= k < first.len() implies bit_value(
        values,
        bit_of(bits, #[trigger] first[k]),
    ) == nets(first[k]) by {
        assert(reads[k] == first[k]);
    }
    lemma_port_carries(values, bits, nets, memory.port);
    if let Some(port) = memory.second_port {
        let second = port_reads(port);
        assert forall|k: int| 0 <= k < second.len() implies bit_value(
            values,
            bit_of(bits, #[trigger] second[k]),
        ) == nets(second[k]) by {
            assert(reads[first.len() + k] == second[k]);
        }
        lemma_port_carries(values, bits, nets, port);
    }
}

/// Every RAM in the cells that a mapping makes for a memory is clocked as that memory.
pub proof fn law_memories_are_clocked(
    netlist: Netlist,
    options: MappingOptions,
    period_ps: u32,
    delays: DelaysModel,
    max_inputs: nat,
    mapped: NetlistModel,
    values: spec_fn(u32) -> bool,
    nets: spec_fn(NetId) -> bool,
    m: int,
    i: int,
)
    requires
        is_countable(netlist),
        LUT_INPUTS <= max_inputs <= WIDE_LUT_INPUTS,
        mapped_once(netlist, options, period_ps, delays, max_inputs) == Ok::<
            NetlistModel,
            MappingFault,
        >(mapped),
        nets_agree(netlist, values, nets),
        cells_agree(values, mapped.cells),
        0 <= m < netlist.memories@.len(),
        ({
            let plans = plans_of(netlist, options, period_ps, delays, max_inputs);
            memory_from(netlist, options, plans, m).cells.len() <= i < memory_from(
                netlist,
                options,
                plans,
                m + 1,
            ).cells.len()
        }),
        mapped.cells[i] is BlockRam,
    ensures
        is_clocked_as(values, nets, mapped.cells[i], netlist.memories@[m]),
{
    let plans = plans_of(netlist, options, period_ps, delays, max_inputs);
    let state = memory_from(netlist, options, plans, m);
    let memory = netlist.memories@[m];
    lemma_memory_reached(
        netlist,
        options,
        period_ps,
        delays,
        max_inputs,
        values,
        nets,
        m,
    );
    lemma_both_carry(values, state.bits, nets, memory);
    let done = memory_mapped(netlist.nodes@, state, memory);
    assert(done.cells[i] == mapped.cells[i]);
    law_memory_keeps_clocks(values, nets, netlist.nodes@, state, memory, i);
}

/// What a distributed memory holds at an address, bit by bit: its tiles hold sixteen
/// words of four bits.
pub open spec fn distributed_bit(
    held: spec_fn(Seq<char>, nat, int) -> bool,
    memory: MemoryCell,
    address: nat,
    index: int,
) -> bool {
    word_bit(held, memory, address / 16, address % 16, index)
}

/// A distributed memory of a mapping remembers as the source memory does. The source
/// reads the word at its read address. Where its clock has its edge and its enable is
/// at its active level, the word at its write address becomes its write data; every
/// other word, and every word at any other time, stays.
#[verifier::rlimit(60)]
pub proof fn law_distributed_memory_remembers(
    netlist: Netlist,
    options: MappingOptions,
    period_ps: u32,
    delays: DelaysModel,
    max_inputs: nat,
    mapped: NetlistModel,
    before: spec_fn(u32) -> bool,
    after: spec_fn(u32) -> bool,
    now: spec_fn(NetId) -> bool,
    then: spec_fn(NetId) -> bool,
    held: spec_fn(Seq<char>, nat, int) -> bool,
    next: spec_fn(Seq<char>, nat, int) -> bool,
    m: int,
    address: nat,
    index: int,
)
    requires
        is_countable(netlist),
        LUT_INPUTS <= max_inputs <= WIDE_LUT_INPUTS,
        mapped_once(netlist, options, period_ps, delays, max_inputs) == Ok::<
            NetlistModel,
            MappingFault,
        >(mapped),
        nets_agree(netlist, before, now),
        nets_agree(netlist, after, then),
        cells_agree(before, mapped.cells),
        cells_agree(after, mapped.cells),
        tiles_work(before, after, held, next, mapped.cells),
        0 <= m < netlist.memories@.len(),
        netlist.memories@[m].read_latency == 0,
        address < netlist.memories@[m].depth,
        0 <= index < netlist.memories@[m].port.read_data@.len(),
        number(now, netlist.memories@[m].port.read_address@, 0) < netlist.memories@[m].depth,
        number(now, netlist.memories@[m].port.write_address@, 0) < netlist.memories@[m].depth,
    ensures
        ({
            let memory = netlist.memories@[m];
            let port = memory.port;
            &&& now(port.read_data@[index]) == distributed_bit(
                held,
                memory,
                number(now, port.read_address@, 0),
                index,
            )
            &&& distributed_bit(next, memory, address, index) == if source_writes(
                now,
                then,
                port,
                address,
            ) {
                now(port.write_data@[index])
            } else {
                distributed_bit(held, memory, address, index)
            }
        }),
{
    let plans = plans_of(netlist, options, period_ps, delays, max_inputs);
    let nodes = netlist.nodes@;
    let state = memory_from(netlist, options, plans, m);
    let memory = netlist.memories@[m];
    let port = memory.port;
    lemma_memory_reached(netlist, options, period_ps, delays, max_inputs, before, now, m);
    lemma_memory_reached(netlist, options, period_ps, delays, max_inputs, after, then, m);
    lemma_both_carry(before, state.bits, now, memory);
    lemma_both_carry(after, state.bits, then, memory);
    let done = memory_mapped(nodes, state, memory);
    assert(tiles_work(before, after, held, next, done.cells)) by {
        assert forall|i: int| 0 <= i < done.cells.len() implies tile_works(
            before,
            after,
            held,
            next,
            #[trigger] done.cells[i],
        ) by {
            assert(done.cells[i] == mapped.cells[i]);
        }
    }
    lemma_split_address(before, state.bits, now, port.read_address@);
    lemma_split_address(before, state.bits, now, port.write_address@);
    lemma_port(nodes, port);
    let banks = parts(memory.depth as int, 16) as nat;
    let bank = address / 16;
    assert(bank < banks);
    let read = number(now, port.read_address@, 0);
    let written = number(now, port.write_address@, 0);
    assert(read / 16 < banks && written / 16 < banks);
    law_distributed_memory_stores(
        before,
        after,
        held,
        next,
        state,
        memory,
        index,
        bank,
        address % 16,
    );
    let net = port.read_data@[index];
    assert(nodes[net as int].kind is MemoryOutput);
    assert(now(net) == before(net_wire(net)));
    assert(bit_value(before, bit_of(state.bits, port.write_data@[index])) == now(
        port.write_data@[index],
    ));
    assert(address == written <==> bank == written / 16 && address % 16 == written % 16);
}

/// The address of a port, as pins and as a number of the source.
proof fn lemma_address(
    values: spec_fn(u32) -> bool,
    bits: Seq<Option<Bit>>,
    nets: spec_fn(NetId) -> bool,
    port: MemoryPort,
)
    requires
        port_carries(values, bits, nets, port),
    ensures
        address_of(values, bits, port.write_address@) == number(nets, port.write_address@, 0),
        address_of(values, bits, port.read_address@) == number(nets, port.read_address@, 0),
{
    lemma_number(values, bits, nets, port.write_address@, 0);
    lemma_number(values, bits, nets, port.read_address@, 0);
}

proof fn lemma_blocks_prefix(
    now: spec_fn(u32) -> bool,
    after: spec_fn(u32) -> bool,
    held: spec_fn(Seq<char>, nat, int) -> bool,
    next: spec_fn(Seq<char>, nat, int) -> bool,
    cells: Seq<CellModel>,
    all: Seq<CellModel>,
)
    requires
        cells.len() <= all.len(),
        cells == all.take(cells.len() as int),
        blocks_work(now, after, held, next, all),
    ensures
        blocks_work(now, after, held, next, cells),
{
    assert forall|i: int| 0 <= i < cells.len() implies cell_agrees(
        now,
        #[trigger] cells[i],
    ) && block_works(now, after, held, next, cells[i]) by {
        assert(cells[i] == all[i]);
    }
}

/// A block RAM with one port remembers as the source memory does. Where the clock of the
/// port has its edge and its write enable is at its active level, the word at its write
/// address becomes its write data; every other word, and every word at any other time,
/// stays. Where the clock has its edge and the read enable is at its active level, the
/// read data become the word at the read address, unless that address is written in the
/// same cycle; otherwise they stay.
#[verifier::rlimit(60)]
pub proof fn law_block_memory_remembers(
    netlist: Netlist,
    options: MappingOptions,
    period_ps: u32,
    delays: DelaysModel,
    max_inputs: nat,
    mapped: NetlistModel,
    before: spec_fn(u32) -> bool,
    after: spec_fn(u32) -> bool,
    now: spec_fn(NetId) -> bool,
    then: spec_fn(NetId) -> bool,
    held: spec_fn(Seq<char>, nat, int) -> bool,
    next: spec_fn(Seq<char>, nat, int) -> bool,
    m: int,
    address: nat,
    index: int,
)
    requires
        is_countable(netlist),
        LUT_INPUTS <= max_inputs <= WIDE_LUT_INPUTS,
        mapped_once(netlist, options, period_ps, delays, max_inputs) == Ok::<
            NetlistModel,
            MappingFault,
        >(mapped),
        nets_agree(netlist, before, now),
        nets_agree(netlist, after, then),
        cells_agree(after, mapped.cells),
        blocks_work(before, after, held, next, mapped.cells),
        0 <= m < netlist.memories@.len(),
        netlist.memories@[m].read_latency != 0,
        netlist.memories@[m].second_port is None,
        is_block_memory(netlist.memories@[m]),
        0 <= index < netlist.memories@[m].port.read_data@.len(),
    ensures
        ({
            let memory = netlist.memories@[m];
            let port = memory.port;
            let read = number(now, port.read_address@, 0);
            &&& block_bit(next, memory, address, index) == if source_writes(
                now,
                then,
                port,
                address,
            ) {
                now(port.write_data@[index])
            } else {
                block_bit(held, memory, address, index)
            }
            &&& source_reads(now, then, port) && !source_writes(now, then, port, read) ==> then(
                port.read_data@[index],
            ) == block_bit(held, memory, read, index)
            &&& !source_reads(now, then, port) ==> then(port.read_data@[index]) == now(
                port.read_data@[index],
            )
        }),
{
    let plans = plans_of(netlist, options, period_ps, delays, max_inputs);
    let nodes = netlist.nodes@;
    let state = memory_from(netlist, options, plans, m);
    let memory = netlist.memories@[m];
    let port = memory.port;
    lemma_memory_reached(netlist, options, period_ps, delays, max_inputs, before, now, m);
    lemma_memory_reached(netlist, options, period_ps, delays, max_inputs, after, then, m);
    lemma_both_carry(before, state.bits, now, memory);
    lemma_both_carry(after, state.bits, then, memory);
    let done = memory_mapped(nodes, state, memory);
    lemma_blocks_prefix(before, after, held, next, done.cells, mapped.cells);
    assert(done.cells == block_cells(nodes, state, memory));
    lemma_port(nodes, port);
    lemma_address(before, state.bits, now, port);
    law_block_memory_stores(before, after, held, next, nodes, state, memory);
    let net = port.read_data@[index];
    assert(nodes[net as int].kind is MemoryOutput);
    assert(now(net) == before(net_wire(net)));
    assert(then(net) == after(net_wire(net)));
    assert(bit_value(before, bit_of(state.bits, port.write_data@[index])) == now(
        port.write_data@[index],
    ));
    assert(block_bit(next, memory, address, index) == block_bit(next, memory, address, index));
    assert(port.read_data@[index] == net);
    assert(port_stores(before, after, state.bits, port) == (port_edge(now, then, port) && is_on(
        now,
        port.write_enable,
    )));
    assert(port_loads(before, after, state.bits, port) == source_reads(now, then, port));
}

/// A block RAM with two ports remembers as the source memory does. Each port acts at the
/// edge of its own clock. One that is written puts its write data at its address, and
/// all else stays. One that is used and not written takes the word at its address;
/// one that is not used keeps its read data. What both ports write at one address, and
/// what a port reads where the other writes, is left open.
#[verifier::rlimit(80)]
pub proof fn law_dual_port_memory_remembers(
    netlist: Netlist,
    options: MappingOptions,
    period_ps: u32,
    delays: DelaysModel,
    max_inputs: nat,
    mapped: NetlistModel,
    before: spec_fn(u32) -> bool,
    after: spec_fn(u32) -> bool,
    now: spec_fn(NetId) -> bool,
    then: spec_fn(NetId) -> bool,
    held: spec_fn(Seq<char>, nat, int) -> bool,
    next: spec_fn(Seq<char>, nat, int) -> bool,
    m: int,
    address: nat,
    index: int,
)
    requires
        is_countable(netlist),
        LUT_INPUTS <= max_inputs <= WIDE_LUT_INPUTS,
        mapped_once(netlist, options, period_ps, delays, max_inputs) == Ok::<
            NetlistModel,
            MappingFault,
        >(mapped),
        nets_agree(netlist, before, now),
        nets_agree(netlist, after, then),
        cells_agree(after, mapped.cells),
        blocks_work(before, after, held, next, mapped.cells),
        0 <= m < netlist.memories@.len(),
        netlist.memories@[m].read_latency != 0,
        netlist.memories@[m].second_port is Some,
        is_block_memory(netlist.memories@[m]),
        0 <= index < netlist.memories@[m].port.write_data@.len(),
    ensures
        ({
            let memory = netlist.memories@[m];
            let a = memory.port;
            let b = memory.second_port->0;
            let first = source_writes(now, then, a, address);
            let second = source_writes(now, then, b, address);
            let here = number(now, a.write_address@, 0);
            let there = number(now, b.write_address@, 0);
            &&& !(first && second) ==> block_bit(next, memory, address, index) == if first {
                now(a.write_data@[index])
            } else if second {
                now(b.write_data@[index])
            } else {
                block_bit(held, memory, address, index)
            }
            &&& source_uses(now, then, a) && !is_on(now, a.write_enable) && !source_writes(
                now,
                then,
                b,
                here,
            ) ==> then(a.read_data@[index]) == block_bit(held, memory, here, index)
            &&& source_uses(now, then, b) && !is_on(now, b.write_enable) && !source_writes(
                now,
                then,
                a,
                there,
            ) ==> then(b.read_data@[index]) == block_bit(held, memory, there, index)
            &&& !source_uses(now, then, a) ==> then(a.read_data@[index]) == now(
                a.read_data@[index],
            )
            &&& !source_uses(now, then, b) ==> then(b.read_data@[index]) == now(
                b.read_data@[index],
            )
        }),
{
    let plans = plans_of(netlist, options, period_ps, delays, max_inputs);
    let nodes = netlist.nodes@;
    let state = memory_from(netlist, options, plans, m);
    let memory = netlist.memories@[m];
    let a = memory.port;
    let b = memory.second_port->0;
    lemma_memory_reached(netlist, options, period_ps, delays, max_inputs, before, now, m);
    lemma_memory_reached(netlist, options, period_ps, delays, max_inputs, after, then, m);
    lemma_both_carry(before, state.bits, now, memory);
    lemma_both_carry(after, state.bits, then, memory);
    let done = memory_mapped(nodes, state, memory);
    lemma_blocks_prefix(before, after, held, next, done.cells, mapped.cells);
    assert(done.cells == block_cells(nodes, state, memory));
    lemma_port(nodes, a);
    lemma_port(nodes, b);
    lemma_address(before, state.bits, now, a);
    lemma_address(before, state.bits, now, b);
    lemma_port_used(before, after, now, then, nodes, state.bits, a);
    lemma_port_used(before, after, now, then, nodes, state.bits, b);
    law_dual_port_memory_stores(
        before,
        after,
        held,
        next,
        nodes,
        state,
        memory,
        index,
        address,
    );
    let x = a.read_data@[index];
    let y = b.read_data@[index];
    assert(nodes[x as int].kind is MemoryOutput);
    assert(nodes[y as int].kind is MemoryOutput);
    assert(now(x) == before(net_wire(x)) && then(x) == after(net_wire(x)));
    assert(now(y) == before(net_wire(y)) && then(y) == after(net_wire(y)));
    assert(bit_value(before, bit_of(state.bits, a.write_data@[index])) == now(
        a.write_data@[index],
    ));
    assert(bit_value(before, bit_of(state.bits, b.write_data@[index])) == now(
        b.write_data@[index],
    ));
}

/// A port's steps and enables, on wires and on nets.
proof fn lemma_port_used(
    before: spec_fn(u32) -> bool,
    after: spec_fn(u32) -> bool,
    now: spec_fn(NetId) -> bool,
    then: spec_fn(NetId) -> bool,
    nodes: Seq<Node>,
    bits: Seq<Option<Bit>>,
    port: MemoryPort,
)
    requires
        nodes_are_valid(nodes),
        nodes_agree(nodes, now),
        memory_port_is_valid(nodes, port),
        port_carries(before, bits, now, port),
        port_carries(after, bits, then, port),
    ensures
        port_steps(before, after, bits, port) == port_edge(now, then, port),
        crate::blocks::is_enabled(before, Some(control_of(bits, port.write_enable))) == is_on(
            now,
            port.write_enable,
        ),
        (port_steps(before, after, bits, port) && port_clocked(before, nodes, bits, port))
            == source_uses(now, then, port),
{
    lemma_port(nodes, port);
    if let Some(enable) = port.read_enable {
        if enable_implies(nodes, port.write_enable, enable) && is_on(now, port.write_enable) {
            law_enables_imply(now, nodes, port.write_enable, enable);
        }
        if enable_implies(nodes, enable, port.write_enable) && is_on(now, enable) {
            law_enables_imply(now, nodes, enable, port.write_enable);
        }
    }
}

} // verus!
