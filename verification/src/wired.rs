//! Memories laid out on wires, and what a mapping drives.

use vstd::prelude::*;

use crate::appended::appends;
use crate::appended::law_memories_only_add_cells;
use crate::appended::lemma_memory_appends;
use crate::appended::lemma_tile_appends;
use crate::cells::cell_inputs;
use crate::cells::cell_outputs;
use crate::cells::control_bits;
use crate::cells::ram_port_inputs;
use crate::cells::wire_bits;
use crate::cells::Bit;
use crate::cells::CellModel;
use crate::cells::Control;
use crate::cells::PortDirection;
use crate::constraints::DelaysModel;
use crate::constraints::MappingOptions;
use crate::cuts::LUT_INPUTS;
use crate::cuts::WIDE_LUT_INPUTS;
use crate::dpram::memory_mapped;
use crate::emit::bit_of;
use crate::emit::bits_of;
use crate::emit::wire_taken;
use crate::emit::EmitterModel;
use crate::equivalence::is_countable;
use crate::grown::lemma_directed_from;
use crate::ir::lemma_fault;
use crate::ir::memory_is_valid;
use crate::ir::memory_port_drives;
use crate::ir::memory_port_is_valid;
use crate::ir::net_wire;
use crate::ir::node_is_connected;
use crate::ir::port_is_valid;
use crate::ir::register_is_valid;
use crate::ir::MemoryCell;
use crate::ir::MemoryPort;
use crate::ir::NetId;
use crate::ir::Netlist;
use crate::ir::Node;
use crate::ir::NodeKind;
use crate::ir::RegisterCell;
use crate::laid::begins_so;
use crate::laid::bit_known;
use crate::laid::ground_of;
use crate::laid::is_known;
use crate::laid::is_sound_cell;
use crate::laid::is_undriven;
use crate::laid::lemma_not_allowed;
use crate::laid_cells::lemma_bit_stays;
use crate::laid_cells::with_results;
use crate::mapping::flip_flops_added;
use crate::mapping::logic_emitted;
use crate::mapping::mapped_once;
use crate::mapping::memories_fault;
use crate::mapping::memories_mapped;
use crate::mapping::netlist_cover;
use crate::mapping::renewed;
use crate::memory::address_pins;
use crate::memory::address_shift;
use crate::memory::control_of;
use crate::memory::lemma_parts;
use crate::memory::lemma_port;
use crate::memory::memory_fault;
use crate::memory::narrowest_port;
use crate::memory::net_wires;
use crate::memory::optional_control;
use crate::memory::part_end;
use crate::memory::parts;
use crate::memory::port_enable_made;
use crate::memory::tile_mapped;
use crate::memory::tile_name;
use crate::memory::tiles_mapped;
use crate::memory::widest_port;
use crate::memory::write_pins;
use crate::memory::EnableModel;
use crate::netlist::drives_once;
use crate::netlist::port_inputs;
use crate::placed::all_known;
use crate::placed::holders;
use crate::placed::is_pending;
use crate::placed::is_placed;
use crate::placed::is_vacant;
use crate::placed::lemma_cell_placed;
use crate::placed::lemma_flip_flops_placed;
use crate::placed::lemma_known_joined;
use crate::placed::lemma_placed_bit;
use crate::placed::lemma_renewed_placed;
use crate::placed::lemma_table_placed;
use crate::placed::lemma_taken_placed;
use crate::placed::lemma_vacant_net;
use crate::placed::registers_done;
use crate::placed_banks::is_open_memory;
use crate::placed_banks::lemma_bits_known;
use crate::placed_banks::lemma_distributed_placed;
use crate::placed_banks::lemma_pins_known;
use crate::placed_banks::lemma_ram_name;
use crate::placed_banks::with_memory;
use crate::plans::nets_below;
use crate::shown::drives;
use crate::shown::drives_apart;
use crate::shown::is_driver;
use crate::shown::is_sourced;
use crate::shown::is_well_driven;
use crate::shown::law_well_driven_drives_once;
use crate::shown::reads;
use crate::sound_cover::law_cover_is_sound;
use crate::wired_logic::has_one_source;
use crate::wired_logic::lemma_logic_emitted;
use crate::wired_logic::logic_aliased;
use crate::wired_logic::reads_apart;
use crate::wired_logic::sources_of;

verus! {

proof fn lemma_port_enable_placed(
    nodes: Seq<Node>,
    state: EmitterModel,
    base: int,
    name: Seq<char>,
    port: MemoryPort,
    done: spec_fn(int) -> bool,
    expected: spec_fn(int) -> bool,
)
    requires
        is_placed(nodes, state, base, done, expected),
        2 <= base,
        memory_port_is_valid(nodes, port),
        !port_enable_made(nodes, state, name, port).state.exhausted,
    ensures
        ({
            let made = port_enable_made(nodes, state, name, port);
            &&& is_placed(nodes, made.state, base, done, expected)
            &&& made.enable matches Some(enable) ==> bit_known(
                made.state.cells,
                expected,
                enable.signal,
            )
            &&& appends(state, made.state)
        }),
{
    let made = port_enable_made(nodes, state, name, port);
    lemma_port(nodes, port);
    lemma_placed_bit(nodes, state, base, done, expected, port.write_enable.signal);
    if let Some(read) = port.read_enable {
        lemma_placed_bit(nodes, state, base, done, expected, read.signal);
        if made.state != state {
            let taken = wire_taken(state);
            lemma_taken_placed(nodes, state, base, done, expected);
            let cell = made.state.cells[made.state.cells.len() - 1];
            assert forall|k: int| 0 <= k < 4 implies bit_known(
                taken.cells,
                expected,
                #[trigger] cell->Lut4_inputs[k],
            ) by {
                assert(k == 0 || k == 1 || k == 2 || k == 3);
            }
            lemma_table_placed(nodes, taken, base, cell, done, done, expected);
        }
    }
}

proof fn lemma_control_known(
    cells: Seq<CellModel>,
    expected: spec_fn(int) -> bool,
    control: Option<Control>,
)
    requires
        control matches Some(c) ==> bit_known(cells, expected, c.signal),
    ensures
        all_known(cells, expected, control_bits(control)),
{
}

/// The bits that a port of a block RAM reads are known.
proof fn lemma_port_known(
    nodes: Seq<Node>,
    state: EmitterModel,
    base: int,
    port: MemoryPort,
    width: u8,
    start: int,
    end: int,
    enable: Option<Control>,
    done: spec_fn(int) -> bool,
    expected: spec_fn(int) -> bool,
)
    requires
        is_placed(nodes, state, base, done, expected),
        memory_port_is_valid(nodes, port),
        0 <= start <= end <= port.write_data@.len(),
        enable matches Some(c) ==> bit_known(state.cells, expected, c.signal),
    ensures
        all_known(state.cells, expected, write_pins(state.bits, port.write_address@, width)@),
        all_known(
            state.cells,
            expected,
            address_pins(state.bits, port.read_address@, address_shift(width))@,
        ),
        all_known(
            state.cells,
            expected,
            bits_of(state.bits, port.write_data@.subrange(start, end)),
        ),
        all_known(
            state.cells,
            expected,
            seq![
                control_of(state.bits, port.write_enable).signal,
                bit_of(state.bits, port.clock),
            ],
        ),
        all_known(
            state.cells,
            expected,
            control_bits(optional_control(state.bits, port.read_enable)),
        ),
        all_known(state.cells, expected, control_bits(enable)),
{
    lemma_port(nodes, port);
    lemma_pins_known(nodes, state, base, done, expected, port.write_address@, width);
    lemma_pins_known(nodes, state, base, done, expected, port.read_address@, width);
    let data = port.write_data@.subrange(start, end);
    assert(nets_below(data, nodes.len() as int)) by {
        assert forall|k: int| 0 <= k < data.len() implies (#[trigger] data[k]) < nodes.len() by {
            assert(data[k] == port.write_data@[start + k]);
        }
    }
    lemma_bits_known(nodes, state, base, done, expected, data);
    lemma_placed_bit(nodes, state, base, done, expected, port.write_enable.signal);
    lemma_placed_bit(nodes, state, base, done, expected, port.clock);
    if let Some(read) = port.read_enable {
        lemma_placed_bit(nodes, state, base, done, expected, read.signal);
    }
    lemma_control_known(
        state.cells,
        expected,
        optional_control(state.bits, port.read_enable),
    );
    lemma_control_known(state.cells, expected, enable);
}

/// What the tiles below word bit `end` have driven.
spec fn words_done(
    done: spec_fn(int) -> bool,
    memory: MemoryCell,
    end: int,
) -> spec_fn(int) -> bool {
    let first = with_results(done, memory.port.read_data@, end);
    match memory.second_port {
        Some(port) => with_results(first, port.read_data@, end),
        None => first,
    }
}

/// The nets of a tile.
spec fn tile_nets(memory: MemoryCell, start: int, end: int) -> Seq<NetId> {
    memory.port.read_data@.subrange(start, end) + match memory.second_port {
        Some(port) => port.read_data@.subrange(start, end),
        None => seq![],
    }
}

#[verifier::rlimit(60)]
proof fn lemma_tile_nets(
    nodes: Seq<Node>,
    base: int,
    memory: MemoryCell,
    start: int,
    end: int,
    done: spec_fn(int) -> bool,
)
    requires
        is_open_memory(nodes, base, memory, done),
        0 <= start < end <= memory.port.read_data@.len(),
    ensures
        ({
            let nets = tile_nets(memory, start, end);
            let before = words_done(done, memory, start);
            let now = words_done(done, memory, end);
            &&& nets.len() >= end - start
            &&& nets.no_duplicates()
            &&& forall|q: int|
                0 <= q < nets.len() ==> is_pending(nodes, #[trigger] nets[q] as int) && nets[q] + 2
                    < base && !before(nets[q] as int) && now(nets[q] as int)
            &&& forall|n: int| #[trigger] before(n) ==> now(n)
            &&& forall|n: int| #[trigger]
                now(n) && !before(n) ==> exists|q: int|
                    0 <= q < nets.len() && #[trigger] nets[q] == n
        }),
{
    let nets = tile_nets(memory, start, end);
    let before = words_done(done, memory, start);
    let now = words_done(done, memory, end);
    let a = memory.port.read_data@;
    let width = end - start;
    let b = if memory.second_port is Some {
        memory.second_port->0.read_data@
    } else {
        seq![]
    };
    lemma_port(nodes, memory.port);
    if let Some(port) = memory.second_port {
        lemma_port(nodes, port);
        assert(b.len() == a.len());
    }
    assert forall|k: int| 0 <= k < a.len() implies memory_port_drives(memory, #[trigger] a[k])
        && is_pending(nodes, a[k] as int) by {
        assert(a.contains(a[k]));
        assert(a[k] < nodes.len() && nodes[a[k] as int].kind is MemoryOutput);
    }
    assert forall|k: int| 0 <= k < b.len() implies memory_port_drives(memory, #[trigger] b[k])
        && is_pending(nodes, b[k] as int) && !a.contains(b[k]) by {
        assert(b.contains(b[k]));
        assert(b[k] < nodes.len() && nodes[b[k] as int].kind is MemoryOutput);
    }
    assert forall|q: int| 0 <= q < nets.len() implies (q < width && #[trigger] nets[q] == a[start
        + q]) || (q >= width && q - width < width && memory.second_port is Some && nets[q]
        == b[start + q - width]) by {}
    assert forall|n: int|
        #![trigger before(n)]
        before(n) == (done(n) || (exists|k: int| 0 <= k < start && #[trigger] a[k] == n) || (
        exists|k: int| 0 <= k < start && k < b.len() && #[trigger] b[k] == n)) by {
        if exists|k: int| 0 <= k < start && #[trigger] a[k] == n {
            let k = choose|k: int| 0 <= k < start && #[trigger] a[k] == n;
            assert(a[k] == n);
        }
    }
    assert forall|n: int|
        #![trigger now(n)]
        now(n) == (done(n) || (exists|k: int| 0 <= k < end && #[trigger] a[k] == n) || (exists|
            k: int,
        | 0 <= k < end && k < b.len() && #[trigger] b[k] == n)) by {
        if exists|k: int| 0 <= k < end && #[trigger] a[k] == n {
            let k = choose|k: int| 0 <= k < end && #[trigger] a[k] == n;
            assert(a[k] == n);
        }
    }
    assert forall|q: int| 0 <= q < nets.len() implies is_pending(
        nodes,
        #[trigger] nets[q] as int,
    ) && nets[q] + 2 < base && !before(nets[q] as int) && now(nets[q] as int) by {
        let n = nets[q] as int;
        assert(memory_port_drives(memory, nets[q]));
        if exists|k: int| 0 <= k < start && #[trigger] a[k] == n {
            let k = choose|k: int| 0 <= k < start && #[trigger] a[k] == n;
            assert(a[k] == nets[q]);
            assert(a.contains(nets[q]));
        }
        if exists|k: int| 0 <= k < start && k < b.len() && #[trigger] b[k] == n {
            let k = choose|k: int| 0 <= k < start && k < b.len() && #[trigger] b[k] == n;
            assert(b[k] == nets[q]);
            assert(!a.contains(b[k]));
            if q < width {
                assert(a.contains(a[start + q]));
            }
        }
    }
    assert forall|p: int, q: int| 0 <= p < q < nets.len() implies nets[p] != nets[q] by {
        if p < width && q >= width {
            assert(a.contains(a[start + p]));
            assert(!a.contains(b[start + q - width]));
        }
    }
    assert forall|n: int| #[trigger] before(n) implies now(n) by {
        if exists|k: int| 0 <= k < start && #[trigger] a[k] == n {
            let k = choose|k: int| 0 <= k < start && #[trigger] a[k] == n;
            assert(k < end && a[k] == n);
        } else if exists|k: int| 0 <= k < start && k < b.len() && #[trigger] b[k] == n {
            let k = choose|k: int| 0 <= k < start && k < b.len() && #[trigger] b[k] == n;
            assert(k < end && b[k] == n);
        }
    }
    assert forall|n: int| #[trigger] now(n) && !before(n) implies exists|q: int|
        0 <= q < nets.len() && #[trigger] nets[q] == n by {
        if exists|k: int| 0 <= k < end && #[trigger] a[k] == n {
            let k = choose|k: int| 0 <= k < end && #[trigger] a[k] == n;
            assert(nets[k - start] == n);
        } else {
            let k = choose|k: int| 0 <= k < end && k < b.len() && #[trigger] b[k] == n;
            assert(nets[width + k - start] == n);
        }
    }
}

#[verifier::rlimit(80)]
proof fn lemma_block_tile_placed(
    nodes: Seq<Node>,
    state: EmitterModel,
    base: int,
    memory: MemoryCell,
    size: u8,
    tile: int,
    done: spec_fn(int) -> bool,
    expected: spec_fn(int) -> bool,
)
    requires
        is_open_memory(nodes, base, memory, done),
        2 <= base,
        0 < size,
        0 <= tile < parts(memory.port.write_data@.len() as int, size as int),
        is_placed(nodes, state, base, words_done(done, memory, tile * size), expected),
        !tile_mapped(nodes, state, memory, size, tile).exhausted,
    ensures
        is_placed(
            nodes,
            tile_mapped(nodes, state, memory, size, tile),
            base,
            words_done(
                done,
                memory,
                part_end(memory.port.write_data@.len() as int, size as int, tile),
            ),
            expected,
        ),
{
    let port = memory.port;
    let total = port.write_data@.len() as int;
    let start = tile * size;
    let end = part_end(total, size as int, tile);
    lemma_parts(total, size as int, tile);
    lemma_port(nodes, port);
    let name = tile_name(memory.name@, parts(total, size as int), tile);
    let width = narrowest_port(memory.depth, (end - start) as u8)->0;
    let after = tile_mapped(nodes, state, memory, size, tile);
    let cell = after.cells[after.cells.len() - 1];
    let before = words_done(done, memory, start);
    let now = words_done(done, memory, end);
    let first = match memory.second_port {
        Some(_) => port_enable_made(nodes, state, name + "_cea"@, port),
        None => EnableModel { state, enable: None },
    };
    let second = match memory.second_port {
        Some(other) => port_enable_made(nodes, first.state, name + "_ceb"@, other),
        None => EnableModel { state: first.state, enable: None },
    };
    let last = second.state;
    assert(!last.exhausted);
    if let Some(other) = memory.second_port {
        assert(appends(first.state, last));
        lemma_port_enable_placed(nodes, state, base, name + "_cea"@, port, before, expected);
        lemma_port_enable_placed(
            nodes,
            first.state,
            base,
            name + "_ceb"@,
            other,
            before,
            expected,
        );
        if let Some(enable) = first.enable {
            lemma_bit_stays(first.state.cells, last.cells, expected, enable.signal);
        }
    }
    assert(last.bits == state.bits);
    let cells = last.cells;
    lemma_port_known(
        nodes,
        last,
        base,
        port,
        width,
        start,
        end,
        first.enable,
        before,
        expected,
    );
    let a = write_pins(state.bits, port.write_address@, width)@;
    let b = bits_of(state.bits, port.write_data@.subrange(start, end));
    let c = address_pins(state.bits, port.read_address@, address_shift(width))@;
    let d = seq![
        control_of(state.bits, port.write_enable).signal,
        bit_of(state.bits, port.clock),
    ];
    let e = control_bits(optional_control(state.bits, port.read_enable));
    let f = control_bits(first.enable);
    let g = ram_port_inputs(cell->BlockRam_second_port);
    assert(all_known(cells, expected, g)) by {
        if let Some(other) = memory.second_port {
            lemma_port_known(
                nodes,
                last,
                base,
                other,
                width,
                start,
                end,
                second.enable,
                before,
                expected,
            );
            let h = write_pins(state.bits, other.write_address@, width)@;
            let i = bits_of(state.bits, other.write_data@.subrange(start, end));
            let j = seq![
                control_of(state.bits, other.write_enable).signal,
                bit_of(state.bits, other.clock),
            ];
            let k = control_bits(optional_control(state.bits, other.read_enable));
            let l = control_bits(second.enable);
            lemma_known_joined(cells, expected, h, i);
            lemma_known_joined(cells, expected, h + i, j);
            lemma_known_joined(cells, expected, h + i + j, k);
            lemma_known_joined(cells, expected, h + i + j + k, l);
            assert(g =~= h + i + j + k + l);
        }
    }
    lemma_known_joined(cells, expected, a, b);
    lemma_known_joined(cells, expected, a + b, c);
    lemma_known_joined(cells, expected, a + b + c, d);
    lemma_known_joined(cells, expected, a + b + c + d, e);
    lemma_known_joined(cells, expected, a + b + c + d + e, f);
    lemma_known_joined(cells, expected, a + b + c + d + e + f, g);
    assert(cell_inputs(cell) =~= a + b + c + d + e + f + g);
    lemma_tile_nets(nodes, base, memory, start, end, done);
    let nets = tile_nets(memory, start, end);
    let outputs = cell_outputs(cell);
    assert(outputs =~= wire_bits(net_wires(nets)));
    assert forall|q: int| 0 <= q < nets.len() implies outputs[q] == Bit::Wire(
        (#[trigger] nets[q] + 2) as u32,
    ) && is_vacant(nodes, last, base, now, (nets[q] + 2) as u32) by {
        lemma_vacant_net(nodes, last, base, nets[q], before, expected);
        assert(outputs[q] == Bit::Wire(net_wire(nets[q])));
    }
    assert forall|wire: u32| #[trigger] drives(cell, wire) implies is_vacant(
        nodes,
        last,
        base,
        now,
        wire,
    ) by {
        let q = choose|q: int| 0 <= q < outputs.len() && outputs[q] == Bit::Wire(wire);
        assert(outputs[q] == Bit::Wire((nets[q] + 2) as u32));
    }
    assert(drives_apart(cell)) by {
        assert forall|p: int, q: int|
            #![trigger cell_outputs(cell)[p], cell_outputs(cell)[q]]
            0 <= p < q < cell_outputs(cell).len() implies cell_outputs(cell)[p]
            != cell_outputs(cell)[q] by {
            assert(outputs[p] == Bit::Wire((nets[p] + 2) as u32));
            assert(outputs[q] == Bit::Wire((nets[q] + 2) as u32));
            assert(nets[p] != nets[q]);
            assert(is_pending(nodes, nets[p] as int) && is_pending(nodes, nets[q] as int));
        }
    }
    assert(is_sound_cell(cell)) by {
        reveal_strlit("bram_");
        assert(name[0] == 'b');
        lemma_ram_name(name);
    }
    assert forall|n: int| #[trigger] now(n) && !before(n) implies is_pending(nodes, n) && drives(
        cell,
        (n + 2) as u32,
    ) by {
        let q = choose|q: int| 0 <= q < nets.len() && #[trigger] nets[q] == n;
        assert(outputs[q] == Bit::Wire((nets[q] + 2) as u32));
    }
    lemma_cell_placed(nodes, last, base, cell, before, now, expected);
}

proof fn lemma_words_alike(done: spec_fn(int) -> bool, memory: MemoryCell, low: int, high: int)
    requires
        memory.port.read_data@.len() <= low <= high,
        memory.second_port matches Some(port) ==> port.read_data@.len() <= low,
    ensures
        words_done(done, memory, low) == words_done(done, memory, high),
{
    let a = memory.port.read_data@;
    lemma_results_alike(done, a, low, high);
    if let Some(port) = memory.second_port {
        lemma_results_alike(with_results(done, a, low), port.read_data@, low, high);
    }
}

proof fn lemma_results_alike(
    done: spec_fn(int) -> bool,
    nets: Seq<NetId>,
    low: int,
    high: int,
)
    requires
        nets.len() <= low <= high,
    ensures
        with_results(done, nets, low) == with_results(done, nets, high),
{
    let a = with_results(done, nets, low);
    let b = with_results(done, nets, high);
    assert forall|n: int| #[trigger] a(n) == b(n) by {
        if a(n) && !done(n) {
            let k = choose|k: int| 0 <= k < low && k < nets.len() && #[trigger] nets[k] == n;
            assert(nets[k] == n);
        }
        if b(n) && !done(n) {
            let k = choose|k: int| 0 <= k < high && k < nets.len() && #[trigger] nets[k] == n;
            assert(k < low && nets[k] == n);
        }
    }
    assert(a =~= b);
}

proof fn lemma_blocks_placed(
    nodes: Seq<Node>,
    state: EmitterModel,
    base: int,
    memory: MemoryCell,
    size: u8,
    count: nat,
    done: spec_fn(int) -> bool,
    expected: spec_fn(int) -> bool,
)
    requires
        is_placed(nodes, state, base, done, expected),
        is_open_memory(nodes, base, memory, done),
        2 <= base,
        0 < size,
        count <= parts(memory.port.write_data@.len() as int, size as int),
        !tiles_mapped(nodes, state, memory, size, count).exhausted,
    ensures
        is_placed(
            nodes,
            tiles_mapped(nodes, state, memory, size, count),
            base,
            words_done(done, memory, count * size),
            expected,
        ),
    decreases count,
{
    let total = memory.port.write_data@.len() as int;
    lemma_port(nodes, memory.port);
    if let Some(port) = memory.second_port {
        lemma_port(nodes, port);
    }
    if count == 0 {
        assert(0 * size == 0) by (nonlinear_arith);
        assert(words_done(done, memory, 0) =~= done) by {
            assert(with_results(done, memory.port.read_data@, 0) =~= done);
        }
    } else {
        let tile = count - 1;
        let rest = tiles_mapped(nodes, state, memory, size, tile as nat);
        lemma_tile_appends(nodes, rest, memory, size, tile);
        lemma_blocks_placed(nodes, state, base, memory, size, tile as nat, done, expected);
        lemma_block_tile_placed(nodes, rest, base, memory, size, tile, done, expected);
        lemma_parts(total, size as int, tile);
        let end = part_end(total, size as int, tile);
        assert(count * size == (tile + 1) * size);
        if end == total {
            lemma_words_alike(done, memory, end, count * size);
        }
    }
}

/// A memory is laid out.
proof fn lemma_memory_placed(
    nodes: Seq<Node>,
    state: EmitterModel,
    base: int,
    memory: MemoryCell,
    done: spec_fn(int) -> bool,
    expected: spec_fn(int) -> bool,
)
    requires
        is_placed(nodes, state, base, done, expected),
        is_open_memory(nodes, base, memory, done),
        2 <= base,
        memory_fault(memory) is None,
        !memory_mapped(nodes, state, memory).exhausted,
    ensures
        is_placed(
            nodes,
            memory_mapped(nodes, state, memory),
            base,
            with_memory(done, memory),
            expected,
        ),
{
    if memory.read_latency == 0 {
        lemma_distributed_placed(nodes, state, base, memory, done, expected);
    } else {
        let size = widest_port(memory.depth)->0;
        let total = memory.port.write_data@.len() as int;
        let count = parts(total, size as int) as nat;
        lemma_blocks_placed(nodes, state, base, memory, size, count, done, expected);
        lemma_port(nodes, memory.port);
        assert(count * size >= total) by (nonlinear_arith)
            requires
                count == (total + size - 1) / size as int,
                size > 0,
        ;
        let so = words_done(done, memory, count * size);
        let now = with_memory(done, memory);
        let a = memory.port.read_data@;
        assert forall|n: int| #[trigger] so(n) == now(n) by {
            lemma_word_nets(nodes, done, memory, count * size, n);
        }
        assert(so =~= now);
    }
}

proof fn lemma_word_nets(
    nodes: Seq<Node>,
    done: spec_fn(int) -> bool,
    memory: MemoryCell,
    end: int,
    n: int,
)
    requires
        memory_is_valid(nodes, memory),
        memory.port.write_data@.len() <= end,
    ensures
        words_done(done, memory, end)(n) == with_memory(done, memory)(n),
{
    let a = memory.port.read_data@;
    lemma_port(nodes, memory.port);
    let first = with_results(done, a, end);
    if !done(n) {
        if exists|k: int| 0 <= k < end && k < a.len() && #[trigger] a[k] == n {
            let k = choose|k: int| 0 <= k < end && k < a.len() && #[trigger] a[k] == n;
            assert(a.contains(a[k]));
            assert(first(n));
        } else if 0 <= n <= u32::MAX && a.contains(n as NetId) {
            let k = choose|k: int| 0 <= k < a.len() && a[k] == n as NetId;
            assert(a[k] == n);
        }
    }
    if let Some(port) = memory.second_port {
        lemma_port(nodes, port);
        let b = port.read_data@;
        if !first(n) {
            if exists|k: int| 0 <= k < end && k < b.len() && #[trigger] b[k] == n {
                let k = choose|k: int| 0 <= k < end && k < b.len() && #[trigger] b[k] == n;
                assert(b.contains(b[k]));
            } else if 0 <= n <= u32::MAX && b.contains(n as NetId) {
                let k = choose|k: int| 0 <= k < b.len() && b[k] == n as NetId;
                assert(b[k] == n);
            }
        }
    }
}

proof fn lemma_fault_free(memories: Seq<MemoryCell>, from: int, at: int)
    requires
        memories_fault(memories, from) is None,
        0 <= from <= at < memories.len(),
    ensures
        memory_fault(memories[at]) is None,
    decreases at - from,
{
    if from < at {
        lemma_fault_free(memories, from + 1, at);
    }
}

/// The nets of the first `count` memories, with what was done before.
spec fn memories_done(
    done: spec_fn(int) -> bool,
    memories: Seq<MemoryCell>,
    count: nat,
) -> spec_fn(int) -> bool {
    |n: int|
        done(n) || (0 <= n <= u32::MAX && exists|m: int|
            0 <= m < count && memory_port_drives(#[trigger] memories[m], n as NetId))
}

#[verifier::rlimit(40)]
proof fn lemma_memories_placed(
    netlist: Netlist,
    state: EmitterModel,
    base: int,
    count: nat,
    done: spec_fn(int) -> bool,
)
    requires
        netlist.is_valid(),
        has_one_source(netlist),
        memories_fault(netlist.memories@, 0) is None,
        is_placed(netlist.nodes@, state, base, done, sources_of(netlist)),
        2 <= base,
        forall|n: int|
            is_pending(netlist.nodes@, n) && #[trigger] sources_of(netlist)(n) ==> n + 2 < base,
        forall|n: int| #[trigger] done(n) ==> netlist.nodes@[n].kind is RegisterOutput,
        count <= netlist.memories@.len(),
        !memories_mapped(netlist.nodes@, state, netlist.memories@, count).exhausted,
    ensures
        is_placed(
            netlist.nodes@,
            memories_mapped(netlist.nodes@, state, netlist.memories@, count),
            base,
            memories_done(done, netlist.memories@, count),
            sources_of(netlist),
        ),
    decreases count,
{
    let nodes = netlist.nodes@;
    let memories = netlist.memories@;
    let expected = sources_of(netlist);
    let now = memories_done(done, memories, count);
    if count == 0 {
        assert(now =~= done);
    } else {
        let last = (count - 1) as nat;
        let memory = memories[last as int];
        let rest = memories_mapped(nodes, state, memories, last);
        let before = memories_done(done, memories, last);
        lemma_memory_appends(nodes, rest, memory);
        lemma_memories_placed(netlist, state, base, last, done);
        assert(memory_is_valid(nodes, memory));
        assert(reads_apart(netlist.memories@[last as int]));
        lemma_fault_free(memories, 0, last as int);
        assert forall|net: NetId| #[trigger] memory_port_drives(memory, net) implies net + 2 < base
            && !before(net as int) by {
            lemma_memory_net(nodes, memory, net);
            assert(expected(net as int));
            if before(net as int) && !done(net as int) {
                let m = choose|m: int|
                    0 <= m < last && memory_port_drives(#[trigger] memories[m], net);
                assert(memory_port_drives(netlist.memories@[m], net));
                assert(memory_port_drives(netlist.memories@[last as int], net));
            }
        }
        lemma_memory_placed(nodes, rest, base, memory, before, expected);
        let so = with_memory(before, memory);
        assert forall|n: int| #[trigger] so(n) == now(n) by {
            if so(n) && !done(n) {
                if before(n) {
                    let m = choose|m: int|
                        0 <= m < last && memory_port_drives(#[trigger] memories[m], n as NetId);
                    assert(memory_port_drives(memories[m], n as NetId));
                } else {
                    assert(memory_port_drives(memories[last as int], n as NetId));
                }
            }
            if now(n) && !done(n) {
                let m = choose|m: int|
                    0 <= m < count && memory_port_drives(#[trigger] memories[m], n as NetId);
                assert(m < last || memories[m] == memory);
            }
        }
        assert(so =~= now);
    }
}

proof fn lemma_memory_net(nodes: Seq<Node>, memory: MemoryCell, net: NetId)
    requires
        memory_is_valid(nodes, memory),
        memory_port_drives(memory, net),
    ensures
        net < nodes.len(),
        nodes[net as int].kind is MemoryOutput,
{
    let a = memory.port.read_data@;
    if a.contains(net) {
        let k = choose|k: int| 0 <= k < a.len() && a[k] == net;
        assert(a[k] < nodes.len());
    } else if let Some(port) = memory.second_port {
        let b = port.read_data@;
        let k = choose|k: int| 0 <= k < b.len() && b[k] == net;
        assert(b[k] < nodes.len());
    }
}

/// A netlist in which every net has one source is mapped to a netlist in which every
/// wire has one driver: what cells read is driven or comes from a port, and no wire of
/// an input is driven.
#[verifier::rlimit(60)]
pub proof fn law_mapping_is_well_driven(
    netlist: Netlist,
    options: MappingOptions,
    period_ps: u32,
    delays: DelaysModel,
    max_inputs: nat,
)
    requires
        is_countable(netlist),
        has_one_source(netlist),
        LUT_INPUTS <= max_inputs <= WIDE_LUT_INPUTS,
    ensures
        mapped_once(netlist, options, period_ps, delays, max_inputs) matches Ok(mapped)
            ==> is_well_driven(mapped) && drives_once(mapped),
{
    if let Ok(mapped) = mapped_once(netlist, options, period_ps, delays, max_inputs) {
        let nodes = netlist.nodes@;
        let expected = sources_of(netlist);
        let memories = netlist.memories@;
        let registers = netlist.registers@;
        lemma_fault(netlist);
        law_cover_is_sound(netlist, options, period_ps, delays, max_inputs);
        let plans = netlist_cover(netlist, options, period_ps, delays, max_inputs).plans;
        let aliased = logic_aliased(netlist, options, plans);
        let ready = renewed(aliased);
        let logic = logic_emitted(netlist, options, plans);
        let emitted = memories_mapped(nodes, logic, memories, memories.len());
        assert(logic == flip_flops_added(netlist, ready, registers));
        law_memories_only_add_cells(nodes, logic, memories, memories.len());
        lemma_added_exhausted(netlist, ready, registers);
        assert(!aliased.exhausted);
        let results = lemma_logic_emitted(netlist, options, plans);
        lemma_renewed_placed(nodes, aliased, results, expected);
        let base = ready.next_wire as int;
        assert forall|n: int| is_pending(nodes, n) && #[trigger] expected(n) implies n + 2
            < base by {
            assert(aliased.bits[n] == Some(Bit::Wire((n + 2) as u32)));
        }
        assert(registers.take(registers.len() as int) =~= registers);
        lemma_flip_flops_placed(netlist, ready, base, registers.len());
        let stored = registers_done(netlist, registers.len());
        assert forall|n: int| #[trigger] stored(n) implies nodes[n].kind is RegisterOutput by {
            let r = choose|r: int|
                0 <= r < registers.len() && (#[trigger] registers[r]).output == n;
            assert(register_is_valid(nodes, registers[r]));
        }
        lemma_memories_placed(netlist, logic, base, memories.len(), stored);
        let done = memories_done(stored, memories, memories.len());
        let cells = mapped.cells;
        assert(cells == emitted.cells);
        assert(begins_so(aliased.cells, cells)) by {
            assert forall|i: int| 0 <= i < aliased.cells.len() implies (#[trigger] cells[i])
                == aliased.cells[i] by {
                assert(logic.cells[i] == ready.cells[i]);
            }
        }
        assert(emitted.bits == aliased.bits);
        assert forall|i: int| 0 <= i < cells.len() implies is_driver(
            mapped,
            #[trigger] cells[i],
        ) by {
            assert(is_sound_cell(cells[i]));
            assert forall|wire: u32| #[trigger] drives(cells[i], wire) implies wire > 0
                && !port_inputs(mapped).contains(Bit::Wire(wire)) by {
                if port_inputs(mapped).contains(Bit::Wire(wire)) {
                    let bits = port_inputs(mapped);
                    let at = choose|at: int| 0 <= at < bits.len() && bits[at] == Bit::Wire(wire);
                    let place = lemma_directed_from(mapped.ports, PortDirection::Input, at);
                    let port = netlist.ports@[place.0];
                    let n = port.bits@[place.1] as int;
                    assert(port_is_valid(nodes, port));
                    assert(port.bits@[place.1] < nodes.len());
                    assert(nodes[n].kind is Input);
                    assert(expected(n));
                    assert(aliased.bits[n] == Some(Bit::Wire((n + 2) as u32)));
                    assert(wire == n + 2);
                    lemma_not_allowed(
                        emitted.cells,
                        ground_of(emitted, base, holders(nodes, done), expected),
                        wire,
                    );
                    assert(is_undriven(emitted.cells, wire));
                }
            }
        }
        assert forall|i: int, wire: u32|
            0 <= i < cells.len() && #[trigger] reads(cells[i], wire) implies is_sourced(
            mapped,
            wire,
        ) by {
            assert(is_known(cells, expected, wire));
            if !(exists|j: int| 0 <= j < cells.len() && #[trigger] drives(cells[j], wire)) {
                let n = wire - 2;
                assert(expected(n));
                assert(node_is_connected(netlist, n));
                match nodes[n].kind {
                    NodeKind::Input => {
                        assert(nodes[n].kind is Input);
                        let (p, k) = choose|p: int, k: int|
                            0 <= p < netlist.ports@.len() && 0 <= k
                                < netlist.ports@[p].bits@.len()
                                && netlist.ports@[p].direction is Input
                                && #[trigger] netlist.ports@[p].bits@[k] == n;
                        assert(aliased.bits[n] == Some(Bit::Wire((n + 2) as u32)));
                        assert(mapped.ports[p].bits[k] == Bit::Wire(wire));
                    },
                    NodeKind::RegisterOutput => {
                        let r = choose|r: int|
                            0 <= r < registers.len() && (#[trigger] registers[r]).output
                                == n as NetId;
                        assert(stored(n));
                        assert(done(n));
                    },
                    NodeKind::MemoryOutput => {
                        let m = choose|m: int|
                            0 <= m < memories.len() && memory_port_drives(
                                #[trigger] memories[m],
                                n as NetId,
                            );
                        assert(done(n));
                    },
                    _ => {
                        assert(results(n));
                        let j = choose|j: int|
                            0 <= j < aliased.cells.len() && #[trigger] drives(
                                aliased.cells[j],
                                (n + 2) as u32,
                            );
                        assert(cells[j] == aliased.cells[j]);
                    },
                }
            }
        }
        assert(is_well_driven(mapped));
        law_well_driven_drives_once(mapped);
    }
}

proof fn lemma_added_exhausted(
    netlist: Netlist,
    state: EmitterModel,
    registers: Seq<RegisterCell>,
)
    ensures
        flip_flops_added(netlist, state, registers).exhausted == state.exhausted,
    decreases registers.len(),
{
    if registers.len() > 0 {
        lemma_added_exhausted(netlist, state, registers.drop_last());
    }
}

} // verus!
