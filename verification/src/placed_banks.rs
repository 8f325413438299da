//! Distributed memories laid out on wires.

use vstd::prelude::*;

use crate::appended::appends;
use crate::appended::lemma_appends;
use crate::appended::lemma_outputs_append;
use crate::appended::lemma_reads_append;
use crate::appended::lemma_tiles_append;
use crate::appended::lemma_tree_append;
use crate::cells::cell_inputs;
use crate::cells::cell_outputs;
use crate::cells::wire_bits;
use crate::cells::Bit;
use crate::cells::CellModel;
use crate::cells::Control;
use crate::dpram::bank_bits;
use crate::dpram::bank_enable_made;
use crate::dpram::bank_tiles;
use crate::dpram::banks_made;
use crate::dpram::data_bit;
use crate::dpram::distributed_mapped;
use crate::dpram::dpram_name;
use crate::dpram::level_muxes;
use crate::dpram::low_address;
use crate::dpram::mux_tree;
use crate::dpram::read_muxes;
use crate::dpram::tile_made;
use crate::dpram::tile_outputs;
use crate::dpram::MuxPlace;
use crate::emit::bit_of;
use crate::emit::bits_of;
use crate::emit::wire_taken;
use crate::emit::EmitterModel;
use crate::ir::memory_is_valid;
use crate::ir::memory_port_drives;
use crate::ir::net_wire;
use crate::ir::MemoryCell;
use crate::ir::NetId;
use crate::ir::Node;
use crate::laid::begins_so;
use crate::laid::bit_known;
use crate::laid::ground_of;
use crate::laid::is_known;
use crate::laid::is_sound_cell;
use crate::laid::is_undriven;
use crate::laid::lemma_known_grows;
use crate::laid::lemma_not_allowed;
use crate::laid_cells::lemma_bit_stays;
use crate::laid_cells::with_result;
use crate::laid_cells::with_results;
use crate::memory::address_pin;
use crate::memory::address_pins;
use crate::memory::address_shift;
use crate::memory::control_of;
use crate::memory::lemma_port;
use crate::memory::parts;
use crate::memory::write_pins;
use crate::placed::all_known;
use crate::placed::holders;
use crate::placed::is_pending;
use crate::placed::is_placed;
use crate::placed::is_vacant;
use crate::placed::lemma_cell_placed;
use crate::placed::lemma_known_joined;
use crate::placed::lemma_placed_bit;
use crate::placed::lemma_table_placed;
use crate::placed::lemma_taken_placed;
use crate::placed::lemma_vacant_net;
use crate::plans::nets_below;
use crate::shown::drives;
use crate::shown::drives_apart;
use crate::text::begins_with;
use crate::wired_logic::reads_apart;

verus! {

/// Whether a memory can be laid out: its read data are on nets of their own below
/// `base` that nothing drives.
pub open spec fn is_open_memory(
    nodes: Seq<Node>,
    base: int,
    memory: MemoryCell,
    done: spec_fn(int) -> bool,
) -> bool {
    &&& memory_is_valid(nodes, memory)
    &&& reads_apart(memory)
    &&& memory.depth > 0
    &&& forall|net: NetId| #[trigger]
        memory_port_drives(memory, net) ==> net + 2 < base && !done(net as int)
}

/// The nets of a memory, with what was done before.
pub open spec fn with_memory(
    done: spec_fn(int) -> bool,
    memory: MemoryCell,
) -> spec_fn(int) -> bool {
    |n: int| done(n) || (0 <= n <= u32::MAX && memory_port_drives(memory, n as NetId))
}

/// A RAM bears no name of a moved cell.
pub proof fn lemma_ram_name(name: Seq<char>)
    requires
        name.len() > 0,
        name[0] == 'b' || name[0] == 'd',
    ensures
        !begins_with(name, "retime_"@),
{
    reveal_strlit("retime_");
    if begins_with(name, "retime_"@) {
        assert(name.take(7)[0] == name[0]);
    }
}

proof fn lemma_pin_known(
    nodes: Seq<Node>,
    state: EmitterModel,
    base: int,
    done: spec_fn(int) -> bool,
    expected: spec_fn(int) -> bool,
    address: Seq<NetId>,
    shift: int,
    pin: int,
)
    requires
        is_placed(nodes, state, base, done, expected),
        nets_below(address, nodes.len() as int),
    ensures
        bit_known(state.cells, expected, address_pin(state.bits, address, shift, pin)),
{
    if shift <= pin && pin - shift < address.len() {
        lemma_placed_bit(nodes, state, base, done, expected, address[pin - shift]);
    }
}

/// Address pins are known.
pub proof fn lemma_pins_known(
    nodes: Seq<Node>,
    state: EmitterModel,
    base: int,
    done: spec_fn(int) -> bool,
    expected: spec_fn(int) -> bool,
    address: Seq<NetId>,
    width: u8,
)
    requires
        is_placed(nodes, state, base, done, expected),
        nets_below(address, nodes.len() as int),
    ensures
        all_known(
            state.cells,
            expected,
            address_pins(state.bits, address, address_shift(width))@,
        ),
        all_known(state.cells, expected, write_pins(state.bits, address, width)@),
        all_known(state.cells, expected, low_address(state.bits, address)@),
{
    let shift = address_shift(width);
    let pins = address_pins(state.bits, address, shift);
    assert forall|pin: int| bit_known(
        state.cells,
        expected,
        #[trigger] address_pin(state.bits, address, shift, pin),
    ) by {
        lemma_pin_known(nodes, state, base, done, expected, address, shift, pin);
    }
    assert forall|pin: int| bit_known(
        state.cells,
        expected,
        #[trigger] address_pin(state.bits, address, 0, pin),
    ) by {
        lemma_pin_known(nodes, state, base, done, expected, address, 0, pin);
    }
    assert forall|k: int| 0 <= k < pins@.len() implies bit_known(
        state.cells,
        expected,
        #[trigger] pins@[k],
    ) by {
        assert(pins@[k] == address_pin(state.bits, address, shift, k));
    }
    let written = write_pins(state.bits, address, width);
    assert forall|k: int| 0 <= k < written@.len() implies bit_known(
        state.cells,
        expected,
        #[trigger] written@[k],
    ) by {
        assert(bit_known(state.cells, expected, pins@[k]));
        assert(written@[k] == Bit::One || written@[k] == Bit::Zero || written@[k] == pins@[k]);
    }
    let low = low_address(state.bits, address);
    assert forall|k: int| 0 <= k < low@.len() implies bit_known(
        state.cells,
        expected,
        #[trigger] low@[k],
    ) by {
        assert(low@[k] == Bit::Zero || low@[k] == address_pin(state.bits, address, 0, k));
    }
}

/// The bits of nets are known.
pub proof fn lemma_bits_known(
    nodes: Seq<Node>,
    state: EmitterModel,
    base: int,
    done: spec_fn(int) -> bool,
    expected: spec_fn(int) -> bool,
    nets: Seq<NetId>,
)
    requires
        is_placed(nodes, state, base, done, expected),
        nets_below(nets, nodes.len() as int),
    ensures
        all_known(state.cells, expected, bits_of(state.bits, nets)),
{
    let bits = bits_of(state.bits, nets);
    assert forall|k: int| 0 <= k < bits.len() implies bit_known(
        state.cells,
        expected,
        #[trigger] bits[k],
    ) by {
        lemma_placed_bit(nodes, state, base, done, expected, nets[k]);
    }
}

/// The output wires of a tile: read data, or new wires in ascending order.
proof fn lemma_tile_outputs(
    nodes: Seq<Node>,
    state: EmitterModel,
    base: int,
    read_data: Seq<NetId>,
    banks: nat,
    start: int,
    count: nat,
    done: spec_fn(int) -> bool,
    expected: spec_fn(int) -> bool,
)
    requires
        is_placed(nodes, state, base, done, expected),
        !tile_outputs(state, read_data, banks, start, count).state.exhausted,
    ensures
        ({
            let made = tile_outputs(state, read_data, banks, start, count);
            &&& is_placed(nodes, made.state, base, done, expected)
            &&& made.state.cells == state.cells
            &&& made.state.bits == state.bits
            &&& state.next_wire <= made.state.next_wire
            &&& base <= state.next_wire
            &&& made.wires.len() == count
            &&& forall|k: int|
                0 <= k < count && banks == 1 && start + k < read_data.len() ==> (
                #[trigger] made.wires[k]) == net_wire(read_data[start + k])
            &&& forall|k: int|
                0 <= k < count && !(banks == 1 && start + k < read_data.len())
                    ==> state.next_wire <= (#[trigger] made.wires[k]) < made.state.next_wire
            &&& forall|j: int, k: int|
                0 <= j < k < count && !(banks == 1 && start + j < read_data.len())
                    ==> #[trigger] made.wires[j] < #[trigger] made.wires[k]
        }),
    decreases count,
{
    if count > 0 {
        let rest = tile_outputs(state, read_data, banks, start, (count - 1) as nat);
        lemma_tile_outputs(
            nodes,
            state,
            base,
            read_data,
            banks,
            start,
            (count - 1) as nat,
            done,
            expected,
        );
        if !(banks == 1 && start + count - 1 < read_data.len()) {
            lemma_taken_placed(nodes, rest.state, base, done, expected);
        }
    }
}

/// Whether `more` adds the nets of a tile to `done`.
spec fn adds_tile(
    done: spec_fn(int) -> bool,
    more: spec_fn(int) -> bool,
    read_data: Seq<NetId>,
    banks: nat,
    start: int,
) -> bool {
    &&& forall|n: int| #[trigger] done(n) ==> more(n)
    &&& banks == 1 ==> forall|k: int|
        start <= k < start + 4 && k < read_data.len() ==> more(#[trigger] read_data[k] as int)
            && !done(read_data[k] as int)
    &&& forall|n: int| #[trigger]
        more(n) && !done(n) ==> banks == 1 && exists|k: int|
            start <= k < start + 4 && k < read_data.len() && #[trigger] read_data[k] == n
}

#[verifier::rlimit(60)]
proof fn lemma_tile_placed(
    nodes: Seq<Node>,
    state: EmitterModel,
    base: int,
    memory: MemoryCell,
    banks: nat,
    bank: nat,
    enable: Control,
    chunk: nat,
    start_done: spec_fn(int) -> bool,
    done: spec_fn(int) -> bool,
    more: spec_fn(int) -> bool,
    expected: spec_fn(int) -> bool,
)
    requires
        is_placed(nodes, state, base, done, expected),
        is_open_memory(nodes, base, memory, start_done),
        2 <= base,
        bit_known(state.cells, expected, enable.signal),
        !tile_made(state, memory, banks, bank, enable, chunk).state.exhausted,
        adds_tile(done, more, memory.port.read_data@, banks, 4 * chunk as int),
    ensures
        ({
            let made = tile_made(state, memory, banks, bank, enable, chunk);
            &&& is_placed(nodes, made.state, base, more, expected)
            &&& made.wires.len() == 4
            &&& forall|k: int|
                0 <= k < 4 ==> is_known(made.state.cells, expected, #[trigger] made.wires[k])
            &&& appends(state, made.state)
        }),
{
    let port = memory.port;
    let reads = port.read_data@;
    let start = 4 * chunk as int;
    let outputs = tile_outputs(state, reads, banks, start, 4);
    let made = tile_made(state, memory, banks, bank, enable, chunk);
    lemma_tile_outputs(nodes, state, base, reads, banks, start, 4, done, expected);
    lemma_outputs_append(state, reads, banks, start, 4);
    lemma_port(nodes, port);
    let cell = made.state.cells[made.state.cells.len() - 1];
    let wires = outputs.wires;
    assert(cell_outputs(cell) =~= wire_bits(wires));
    assert forall|k: int| 0 <= k < 4 && banks == 1 && start + k < reads.len() implies
        is_pending(nodes, #[trigger] reads[start + k] as int) && wires[k] == reads[start + k] + 2
        && wires[k] < base && is_undriven(state.cells, wires[k]) && more(
        reads[start + k] as int,
    ) by {
        let net = reads[start + k];
        assert(reads.contains(net));
        assert(memory_port_drives(memory, net));
        assert(net < nodes.len());
        assert(nodes[net as int].kind is MemoryOutput);
        lemma_vacant_net(nodes, state, base, net, done, expected);
    }
    assert forall|k: int| 0 <= k < 4 implies drives(cell, #[trigger] wires[k]) by {
        assert(cell_outputs(cell)[k] == Bit::Wire(wires[k]));
    }
    assert forall|wire: u32| #[trigger] drives(cell, wire) implies is_vacant(
        nodes,
        outputs.state,
        base,
        more,
        wire,
    ) by {
        let k = choose|k: int| 0 <= k < 4 && wire_bits(wires)[k] == Bit::Wire(wire);
        assert(wires[k] == wire);
        if banks == 1 && start + k < reads.len() {
            assert(is_pending(nodes, reads[start + k] as int));
        } else {
            lemma_not_allowed(
                state.cells,
                ground_of(state, base, holders(nodes, done), expected),
                wire,
            );
        }
    }
    assert(drives_apart(cell)) by {
        assert forall|p: int, q: int|
            #![trigger cell_outputs(cell)[p], cell_outputs(cell)[q]]
            0 <= p < q < cell_outputs(cell).len() implies cell_outputs(cell)[p]
            != cell_outputs(cell)[q] by {
            assert(cell_outputs(cell)[p] == Bit::Wire(wires[p]));
            assert(cell_outputs(cell)[q] == Bit::Wire(wires[q]));
            if banks == 1 && start + p < reads.len() {
                assert(is_pending(nodes, reads[start + p] as int));
                if start + q < reads.len() {
                    assert(is_pending(nodes, reads[start + q] as int));
                    assert(reads[start + p] != reads[start + q]);
                }
            } else {
                assert(wires[p] < wires[q]);
            }
        }
    }
    assert(is_sound_cell(cell)) by {
        assert(cell_outputs(cell)[0] == Bit::Wire(wires[0]));
        reveal_strlit("dpram_");
        assert(dpram_name(memory.name@, bank, chunk)[0] == 'd');
        lemma_ram_name(dpram_name(memory.name@, bank, chunk));
    }
    let cells = outputs.state.cells;
    lemma_pins_known(nodes, state, base, done, expected, port.write_address@, 1);
    lemma_pins_known(nodes, state, base, done, expected, port.read_address@, 1);
    lemma_placed_bit(nodes, state, base, done, expected, port.clock);
    let data = seq![
        data_bit(state.bits, port.write_data@, start),
        data_bit(state.bits, port.write_data@, start + 1),
        data_bit(state.bits, port.write_data@, start + 2),
        data_bit(state.bits, port.write_data@, start + 3),
    ];
    assert forall|k: int| 0 <= k < data.len() implies bit_known(
        cells,
        expected,
        #[trigger] data[k],
    ) by {
        assert(data[k] == data_bit(state.bits, port.write_data@, start + k)) by {
            assert(k == 0 || k == 1 || k == 2 || k == 3);
        }
        if start + k < port.write_data@.len() {
            lemma_placed_bit(nodes, state, base, done, expected, port.write_data@[start + k]);
        }
    }
    let a = low_address(state.bits, port.write_address@)@;
    let b = low_address(state.bits, port.read_address@)@;
    let c = seq![enable.signal, bit_of(state.bits, port.clock)];
    assert(all_known(cells, expected, c));
    lemma_known_joined(cells, expected, a, data);
    lemma_known_joined(cells, expected, a + data, b);
    lemma_known_joined(cells, expected, a + data + b, c);
    assert(cell_inputs(cell) =~= a + data + b + c);
    assert forall|n: int| #[trigger] more(n) && !done(n) implies is_pending(nodes, n) && drives(
        cell,
        (n + 2) as u32,
    ) by {
        let k = choose|k: int|
            start <= k < start + 4 && k < reads.len() && #[trigger] reads[k] == n;
        assert(is_pending(nodes, reads[start + (k - start)] as int));
        assert(drives(cell, wires[k - start]));
    }
    lemma_cell_placed(nodes, outputs.state, base, cell, done, more, expected);
    assert forall|k: int| 0 <= k < 4 implies is_known(
        made.state.cells,
        expected,
        #[trigger] made.wires[k],
    ) by {
        assert(made.state.cells[made.state.cells.len() - 1] == cell);
        assert(drives(cell, wires[k]));
    }
}

/// What the tiles below `count` of a bank have driven.
spec fn tiles_done(
    done: spec_fn(int) -> bool,
    read_data: Seq<NetId>,
    banks: nat,
    count: nat,
) -> spec_fn(int) -> bool {
    if banks == 1 {
        with_results(done, read_data, 4 * count as int)
    } else {
        done
    }
}

proof fn lemma_tiles_step(
    done: spec_fn(int) -> bool,
    read_data: Seq<NetId>,
    banks: nat,
    chunk: nat,
)
    requires
        read_data.no_duplicates(),
        forall|k: int| 0 <= k < read_data.len() ==> !done(#[trigger] read_data[k] as int),
    ensures
        adds_tile(
            tiles_done(done, read_data, banks, chunk),
            tiles_done(done, read_data, banks, chunk + 1),
            read_data,
            banks,
            4 * chunk as int,
        ),
{
    let before = tiles_done(done, read_data, banks, chunk);
    let now = tiles_done(done, read_data, banks, chunk + 1);
    let start = 4 * chunk as int;
    if banks == 1 {
        assert forall|n: int| #[trigger] before(n) implies now(n) by {
            if !done(n) {
                let k = choose|k: int|
                    0 <= k < start && k < read_data.len() && #[trigger] read_data[k] == n;
                assert(read_data[k] == n);
            }
        }
        assert forall|k: int| start <= k < start + 4 && k < read_data.len() implies now(
            #[trigger] read_data[k] as int,
        ) && !before(read_data[k] as int) by {
            assert(!done(read_data[k] as int));
        }
        assert forall|n: int| #[trigger] now(n) && !before(n) implies exists|k: int|
            start <= k < start + 4 && k < read_data.len() && #[trigger] read_data[k] == n by {
            let k = choose|k: int|
                0 <= k < 4 * (chunk + 1) && k < read_data.len() && #[trigger] read_data[k] == n;
            assert(start <= k);
        }
    }
}

/// Whether each wire of the tiles is known.
spec fn tiles_known(
    cells: Seq<CellModel>,
    expected: spec_fn(int) -> bool,
    wires: Seq<Seq<u32>>,
) -> bool {
    forall|c: int, k: int|
        0 <= c < wires.len() && 0 <= k < 4 ==> is_known(cells, expected, #[trigger] wires[c][k])
}

#[verifier::rlimit(40)]
proof fn lemma_bank_placed(
    nodes: Seq<Node>,
    state: EmitterModel,
    base: int,
    memory: MemoryCell,
    banks: nat,
    bank: nat,
    enable: Control,
    count: nat,
    done: spec_fn(int) -> bool,
    expected: spec_fn(int) -> bool,
)
    requires
        is_placed(nodes, state, base, done, expected),
        is_open_memory(nodes, base, memory, done),
        2 <= base,
        bit_known(state.cells, expected, enable.signal),
        !bank_tiles(state, memory, banks, bank, enable, count).state.exhausted,
    ensures
        ({
            let made = bank_tiles(state, memory, banks, bank, enable, count);
            &&& is_placed(
                nodes,
                made.state,
                base,
                tiles_done(done, memory.port.read_data@, banks, count),
                expected,
            )
            &&& appends(state, made.state)
            &&& made.wires.len() == count
            &&& tiles_known(made.state.cells, expected, made.wires)
        }),
    decreases count,
{
    let reads = memory.port.read_data@;
    if count == 0 {
        assert(tiles_done(done, reads, banks, 0) =~= done);
    } else {
        let chunk = (count - 1) as nat;
        let rest = bank_tiles(state, memory, banks, bank, enable, chunk);
        let tile = tile_made(rest.state, memory, banks, bank, enable, chunk);
        let made = bank_tiles(state, memory, banks, bank, enable, count);
        lemma_outputs_append(rest.state, reads, banks, 4 * chunk as int, 4);
        assert(!rest.state.exhausted);
        lemma_bank_placed(
            nodes,
            state,
            base,
            memory,
            banks,
            bank,
            enable,
            chunk,
            done,
            expected,
        );
        assert forall|k: int| 0 <= k < reads.len() implies !done(#[trigger] reads[k] as int) by {
            assert(reads.contains(reads[k]));
            assert(memory_port_drives(memory, reads[k]));
        }
        lemma_tiles_step(done, reads, banks, chunk);
        lemma_bit_stays(state.cells, rest.state.cells, expected, enable.signal);
        lemma_tile_placed(
            nodes,
            rest.state,
            base,
            memory,
            banks,
            bank,
            enable,
            chunk,
            done,
            tiles_done(done, reads, banks, chunk),
            tiles_done(done, reads, banks, count),
            expected,
        );
        lemma_appends(state, rest.state, made.state);
        assert(made.wires == rest.wires.push(tile.wires));
        assert forall|c: int, k: int| 0 <= c < made.wires.len() && 0 <= k < 4 implies is_known(
            made.state.cells,
            expected,
            #[trigger] made.wires[c][k],
        ) by {
            if c < chunk {
                assert(made.wires[c] == rest.wires[c]);
                let wire = rest.wires[c][k];
                assert(is_known(rest.state.cells, expected, wire));
                lemma_known_grows(
                    rest.state.cells,
                    made.state.cells,
                    expected,
                    rest.wires[c][k],
                );
            } else {
                assert(made.wires[c] == tile.wires);
            }
        }
    }
}

/// Whether each wire of the banks is known.
spec fn banks_known(
    cells: Seq<CellModel>,
    expected: spec_fn(int) -> bool,
    wires: Seq<Seq<Seq<u32>>>,
    chunks: nat,
) -> bool {
    forall|b: int, c: int, k: int|
        0 <= b < wires.len() && 0 <= c < chunks && 0 <= k < 4 ==> is_known(
            cells,
            expected,
            #[trigger] wires[b][c][k],
        )
}

proof fn lemma_banks_stay(
    before: Seq<CellModel>,
    after: Seq<CellModel>,
    expected: spec_fn(int) -> bool,
    wires: Seq<Seq<Seq<u32>>>,
    chunks: nat,
)
    requires
        banks_known(before, expected, wires, chunks),
        begins_so(before, after),
    ensures
        banks_known(after, expected, wires, chunks),
{
    assert forall|b: int, c: int, k: int|
        0 <= b < wires.len() && 0 <= c < chunks && 0 <= k < 4 implies is_known(
        after,
        expected,
        #[trigger] wires[b][c][k],
    ) by {
        lemma_known_grows(before, after, expected, wires[b][c][k]);
    }
}

#[verifier::rlimit(60)]
proof fn lemma_banks_placed(
    nodes: Seq<Node>,
    state: EmitterModel,
    base: int,
    memory: MemoryCell,
    banks: nat,
    count: nat,
    done: spec_fn(int) -> bool,
    expected: spec_fn(int) -> bool,
)
    requires
        is_placed(nodes, state, base, done, expected),
        is_open_memory(nodes, base, memory, done),
        2 <= base,
        count <= banks,
        !banks_made(state, memory, banks, count).state.exhausted,
    ensures
        ({
            let made = banks_made(state, memory, banks, count);
            let chunks = parts(memory.port.write_data@.len() as int, 4) as nat;
            &&& is_placed(
                nodes,
                made.state,
                base,
                if count == 0 {
                    done
                } else {
                    tiles_done(done, memory.port.read_data@, banks, chunks)
                },
                expected,
            )
            &&& appends(state, made.state)
            &&& made.wires.len() == count
            &&& banks_known(made.state.cells, expected, made.wires, chunks)
        }),
    decreases count,
{
    if count > 0 {
        let bank = (count - 1) as nat;
        let port = memory.port;
        let chunks = parts(port.write_data@.len() as int, 4) as nat;
        let rest = banks_made(state, memory, banks, bank);
        let control = control_of(state.bits, port.write_enable);
        let enable = bank_enable_made(
            rest.state,
            memory.name@,
            bank,
            banks,
            control,
            port.write_address@,
        );
        let tiles = bank_tiles(enable.state, memory, banks, bank, enable.enable, chunks);
        let made = banks_made(state, memory, banks, count);
        lemma_tiles_append(enable.state, memory, banks, bank, enable.enable, chunks);
        assert(appends(rest.state, enable.state));
        assert(!enable.state.exhausted && !rest.state.exhausted);
        lemma_banks_placed(nodes, state, base, memory, banks, bank, done, expected);
        lemma_port(nodes, port);
        lemma_placed_bit(nodes, state, base, done, expected, port.write_enable.signal);
        if banks == 1 {
            assert(bank == 0);
        } else {
            let taken = wire_taken(rest.state);
            assert(!taken.exhausted);
            lemma_taken_placed(nodes, rest.state, base, done, expected);
            let cell = enable.state.cells[enable.state.cells.len() - 1];
            lemma_bit_stays(state.cells, taken.cells, expected, control.signal);
            lemma_pin_known(nodes, taken, base, done, expected, port.write_address@, 0, 4);
            lemma_pin_known(nodes, taken, base, done, expected, port.write_address@, 0, 5);
            lemma_pin_known(nodes, taken, base, done, expected, port.write_address@, 0, 6);
            assert forall|k: int| 0 <= k < 4 implies bit_known(
                taken.cells,
                expected,
                #[trigger] cell->Lut4_inputs[k],
            ) by {
                assert(k == 0 || k == 1 || k == 2 || k == 3);
            }
            lemma_table_placed(nodes, taken, base, cell, done, done, expected);
        }
        lemma_bank_placed(
            nodes,
            enable.state,
            base,
            memory,
            banks,
            bank,
            enable.enable,
            chunks,
            done,
            expected,
        );
        lemma_appends(rest.state, enable.state, tiles.state);
        lemma_appends(state, rest.state, tiles.state);
        lemma_banks_stay(
            rest.state.cells,
            made.state.cells,
            expected,
            rest.wires,
            chunks,
        );
        assert forall|b: int, c: int, k: int|
            0 <= b < made.wires.len() && 0 <= c < chunks && 0 <= k < 4 implies is_known(
            made.state.cells,
            expected,
            #[trigger] made.wires[b][c][k],
        ) by {
            if b < bank {
                assert(made.wires[b] == rest.wires[b]);
                assert(is_known(made.state.cells, expected, rest.wires[b][c][k]));
            } else {
                assert(made.wires[b] == tiles.wires);
                assert(is_known(tiles.state.cells, expected, tiles.wires[c][k]));
            }
        }
    }
}

#[verifier::rlimit(60)]
proof fn lemma_level_placed(
    nodes: Seq<Node>,
    state: EmitterModel,
    base: int,
    place: MuxPlace,
    level: Seq<Bit>,
    select: nat,
    count: nat,
    done: spec_fn(int) -> bool,
    expected: spec_fn(int) -> bool,
)
    requires
        is_placed(nodes, state, base, done, expected),
        2 <= base,
        all_known(state.cells, expected, level),
        nets_below(place.memory.port.read_address@, nodes.len() as int),
        level.len() > 1,
        count <= parts(level.len() as int, 2),
        ({
            let net = place.memory.port.read_data@[4 * place.chunk as int + place.bit];
            is_pending(nodes, net as int) && net + 2 < base && !done(net as int)
        }),
        !level_muxes(state, place, level, select, count).state.exhausted,
    ensures
        ({
            let made = level_muxes(state, place, level, select, count);
            let net = place.memory.port.read_data@[4 * place.chunk as int + place.bit];
            &&& is_placed(
                nodes,
                made.state,
                base,
                if parts(level.len() as int, 2) == 1 && count == 1 {
                    with_result(done, net)
                } else {
                    done
                },
                expected,
            )
            &&& all_known(made.state.cells, expected, made.level)
            &&& made.level.len() == count
            &&& appends(state, made.state)
        }),
    decreases count,
{
    if count > 0 {
        let pair = (count - 1) as nat;
        let rest = level_muxes(state, place, level, select, pair);
        let made = level_muxes(state, place, level, select, count);
        let last = parts(level.len() as int, 2) == 1;
        let taken = if last {
            rest.state
        } else {
            wire_taken(rest.state)
        };
        assert(!taken.exhausted && !rest.state.exhausted);
        lemma_level_placed(nodes, state, base, place, level, select, pair, done, expected);
        let net = place.memory.port.read_data@[4 * place.chunk as int + place.bit];
        let now = if last {
            with_result(done, net)
        } else {
            done
        };
        if last {
            lemma_vacant_net(nodes, taken, base, net, done, expected);
        } else {
            lemma_taken_placed(nodes, rest.state, base, done, expected);
        }
        let cell = made.state.cells[made.state.cells.len() - 1];
        assert(2 * pair < level.len());
        lemma_bit_stays(state.cells, taken.cells, expected, level[2 * pair as int]);
        if 2 * pair + 1 < level.len() {
            lemma_bit_stays(state.cells, taken.cells, expected, level[2 * pair as int + 1]);
        }
        lemma_pin_known(
            nodes,
            state,
            base,
            done,
            expected,
            place.memory.port.read_address@,
            0,
            select as int,
        );
        lemma_bit_stays(
            state.cells,
            taken.cells,
            expected,
            address_pin(state.bits, place.memory.port.read_address@, 0, select as int),
        );
        assert forall|k: int| 0 <= k < 4 implies bit_known(
            taken.cells,
            expected,
            #[trigger] cell->Lut4_inputs[k],
        ) by {
            assert(k == 0 || k == 1 || k == 2 || k == 3);
        }
        lemma_table_placed(nodes, taken, base, cell, done, now, expected);
        assert(appends(rest.state, made.state));
        lemma_appends(state, rest.state, made.state);
        assert forall|k: int| 0 <= k < made.level.len() implies bit_known(
            made.state.cells,
            expected,
            #[trigger] made.level[k],
        ) by {
            if k < pair {
                assert(made.level[k] == rest.level[k]);
                lemma_bit_stays(
                    rest.state.cells,
                    made.state.cells,
                    expected,
                    rest.level[k],
                );
            }
        }
    }
}

proof fn lemma_tree_placed(
    nodes: Seq<Node>,
    state: EmitterModel,
    base: int,
    place: MuxPlace,
    level: Seq<Bit>,
    select: nat,
    done: spec_fn(int) -> bool,
    expected: spec_fn(int) -> bool,
)
    requires
        is_placed(nodes, state, base, done, expected),
        2 <= base,
        all_known(state.cells, expected, level),
        nets_below(place.memory.port.read_address@, nodes.len() as int),
        level.len() > 1,
        ({
            let net = place.memory.port.read_data@[4 * place.chunk as int + place.bit];
            is_pending(nodes, net as int) && net + 2 < base && !done(net as int)
        }),
        !mux_tree(state, place, level, select).exhausted,
    ensures
        is_placed(
            nodes,
            mux_tree(state, place, level, select),
            base,
            with_result(
                done,
                place.memory.port.read_data@[4 * place.chunk as int + place.bit],
            ),
            expected,
        ),
    decreases level.len(),
{
    let count = parts(level.len() as int, 2) as nat;
    let next = level_muxes(state, place, level, select, count);
    lemma_tree_append(next.state, place, next.level, select + 1);
    lemma_level_placed(nodes, state, base, place, level, select, count, done, expected);
    if count > 1 {
        lemma_tree_placed(
            nodes,
            next.state,
            base,
            place,
            next.level,
            select + 1,
            done,
            expected,
        );
    }
}

proof fn lemma_reads_placed(
    nodes: Seq<Node>,
    state: EmitterModel,
    base: int,
    memory: MemoryCell,
    wires: Seq<Seq<Seq<u32>>>,
    count: nat,
    done: spec_fn(int) -> bool,
    expected: spec_fn(int) -> bool,
)
    requires
        is_placed(nodes, state, base, done, expected),
        is_open_memory(nodes, base, memory, done),
        2 <= base,
        wires.len() > 1,
        banks_known(
            state.cells,
            expected,
            wires,
            parts(memory.port.write_data@.len() as int, 4) as nat,
        ),
        count <= memory.port.read_data@.len(),
        !read_muxes(state, memory, wires, count).exhausted,
    ensures
        is_placed(
            nodes,
            read_muxes(state, memory, wires, count),
            base,
            with_results(done, memory.port.read_data@, count as int),
            expected,
        ),
    decreases count,
{
    let port = memory.port;
    let data = port.read_data@;
    let now = with_results(done, data, count as int);
    let chunks = parts(port.write_data@.len() as int, 4) as nat;
    if count == 0 {
        assert(now =~= done);
    } else {
        let index = (count - 1) as nat;
        let chunk = index / 4;
        let bit = index % 4;
        let place = MuxPlace { memory, chunk, bit };
        let rest = read_muxes(state, memory, wires, index);
        let level = bank_bits(wires, chunk, bit);
        lemma_tree_append(rest, place, level, 4);
        lemma_reads_placed(nodes, state, base, memory, wires, index, done, expected);
        lemma_reads_append(state, memory, wires, index);
        lemma_port(nodes, port);
        let before = with_results(done, data, index as int);
        let net = data[index as int];
        assert(data[4 * chunk as int + bit] == net);
        assert(data.contains(net));
        assert(memory_port_drives(memory, net));
        assert(net < nodes.len() && nodes[net as int].kind is MemoryOutput);
        assert(!before(net as int));
        lemma_banks_stay(state.cells, rest.cells, expected, wires, chunks);
        assert(chunk < chunks);
        assert forall|k: int| 0 <= k < level.len() implies bit_known(
            rest.cells,
            expected,
            #[trigger] level[k],
        ) by {
            assert(is_known(rest.cells, expected, wires[k][chunk as int][bit as int]));
        }
        lemma_tree_placed(nodes, rest, base, place, level, 4, before, expected);
        let so = with_result(before, net);
        assert forall|n: int| #[trigger] so(n) == now(n) by {
            if so(n) && !done(n) {
                if n == net {
                    assert(data[index as int] == n);
                } else {
                    let k = choose|k: int|
                        0 <= k < index && k < data.len() && #[trigger] data[k] == n;
                    assert(data[k] == n);
                }
            }
            if now(n) && !done(n) {
                let k = choose|k: int|
                    0 <= k < count && k < data.len() && #[trigger] data[k] == n;
                assert(k < index || n == net);
            }
        }
        assert(so =~= now);
    }
}

/// A distributed memory is laid out.
pub proof fn lemma_distributed_placed(
    nodes: Seq<Node>,
    state: EmitterModel,
    base: int,
    memory: MemoryCell,
    done: spec_fn(int) -> bool,
    expected: spec_fn(int) -> bool,
)
    requires
        is_placed(nodes, state, base, done, expected),
        is_open_memory(nodes, base, memory, done),
        2 <= base,
        memory.second_port is None,
        !distributed_mapped(state, memory).exhausted,
    ensures
        is_placed(
            nodes,
            distributed_mapped(state, memory),
            base,
            with_memory(done, memory),
            expected,
        ),
{
    let banks = parts(memory.depth as int, 16) as nat;
    let made = banks_made(state, memory, banks, banks);
    let data = memory.port.read_data@;
    let chunks = parts(memory.port.write_data@.len() as int, 4) as nat;
    lemma_port(nodes, memory.port);
    let all = with_results(done, data, data.len() as int);
    let now = with_memory(done, memory);
    assert forall|n: int| #[trigger] all(n) == now(n) by {
        if all(n) && !done(n) {
            let k = choose|k: int| 0 <= k < data.len() && #[trigger] data[k] == n;
            assert(data.contains(data[k]));
        }
        if now(n) && !done(n) {
            let k = choose|k: int| 0 <= k < data.len() && data[k] == n as NetId;
            assert(data[k] == n);
        }
    }
    assert(all =~= now);
    if banks > 1 {
        lemma_reads_append(made.state, memory, made.wires, data.len());
        lemma_banks_placed(nodes, state, base, memory, banks, banks, done, expected);
        lemma_reads_placed(
            nodes,
            made.state,
            base,
            memory,
            made.wires,
            data.len(),
            done,
            expected,
        );
    } else {
        lemma_banks_placed(nodes, state, base, memory, banks, banks, done, expected);
        assert(banks == 1);
        let so = tiles_done(done, data, banks, chunks);
        assert(4 * chunks >= data.len());
        assert forall|n: int| #[trigger] so(n) == all(n) by {
            if so(n) && !done(n) {
                let k = choose|k: int|
                    0 <= k < 4 * chunks && k < data.len() && #[trigger] data[k] == n;
                assert(data[k] == n);
            }
            if all(n) && !done(n) {
                let k = choose|k: int| 0 <= k < data.len() && #[trigger] data[k] == n;
                assert(data[k] == n);
            }
        }
        assert(so =~= all);
    }
}

} // verus!
