//! What block RAM keeps: the words written to it.

use vstd::prelude::*;

use crate::appended::appends;
use crate::appended::lemma_block_append;
use crate::appended::lemma_tile_appends;
use crate::arithmetic::one_if;
use crate::behaves::has_edge;
use crate::cells::Bit;
use crate::cells::CellModel;
use crate::cells::ClockEdge;
use crate::cells::Control;
use crate::cells::Ecp5MemoryImplementation;
use crate::emit::EmitterModel;
use crate::emit::bit_of;
use crate::ir::MemoryCell;
use crate::ir::MemoryPort;
use crate::ir::NetId;
use crate::ir::Node;
use crate::ir::net_wire;
use crate::meaning::bit_value;
use crate::meaning::cell_agrees;
use crate::meaning::cells_agree;
use crate::meaning::lemma_lut_entry;
use crate::memory::address_pin;
use crate::memory::address_pins;
use crate::memory::address_shift;
use crate::memory::both_imply;
use crate::memory::control_of;
use crate::memory::law_narrowest_port;
use crate::memory::lemma_parts;
use crate::memory::narrowest_port;
use crate::memory::optional_control;
use crate::memory::part_end;
use crate::memory::parts;
use crate::memory::port_enable_made;
use crate::memory::tile_mapped;
use crate::memory::tile_name;
use crate::memory::tiles_mapped;
use crate::memory::widest_port;
use crate::memory::write_pins;
use crate::moves::asserted;
use crate::stored::address_value;
use crate::wires::assigned;
use crate::wires::pin_index;

verus! {

/// The number that address pins from pin `from` on stand for.
pub open spec fn pins_number(values: spec_fn(u32) -> bool, pins: [Bit; 14], from: int) -> nat
    decreases 14 - from,
{
    if from < 0 || from >= 14 {
        0
    } else {
        (one_if(bit_value(values, pins[from])) + 2 * pins_number(values, pins, from + 1)) as nat
    }
}

/// The word that address pins name at a port width.
pub open spec fn word_address(values: spec_fn(u32) -> bool, pins: [Bit; 14], width: u8) -> nat {
    pins_number(values, pins, address_shift(width))
}

/// Whether a port writes whole words: at eighteen bits the two lowest address pins
/// enable the bytes.
pub open spec fn writes_whole(values: spec_fn(u32) -> bool, pins: [Bit; 14], width: u8) -> bool {
    width == 18 ==> bit_value(values, pins[0]) && bit_value(values, pins[1])
}

/// Whether an optional control is asserted; without one it always is.
pub open spec fn is_enabled(values: spec_fn(u32) -> bool, control: Option<Control>) -> bool {
    control matches Some(control) ==> asserted(values, control.signal, control.active)
}

/// Whether a clock has its active edge where the wires go from `now` to `after`.
pub open spec fn ticks(
    now: spec_fn(u32) -> bool,
    after: spec_fn(u32) -> bool,
    clock: Bit,
    edge: ClockEdge,
) -> bool {
    has_edge(bit_value(now, clock), bit_value(after, clock), edge)
}

/// Whether a port writes the word at address `a`.
pub open spec fn writes_at(
    values: spec_fn(u32) -> bool,
    pins: [Bit; 14],
    width: u8,
    write_enable: Control,
    clock_enable: Option<Control>,
    a: nat,
) -> bool {
    &&& is_enabled(values, clock_enable)
    &&& asserted(values, write_enable.signal, write_enable.active)
    &&& writes_whole(values, pins, width)
    &&& a == word_address(values, pins, width)
}

/// Whether a block-RAM tile holds after an edge of its clock what was written, elsewhere
/// and without an edge what it held, and drives after an edge the word that it held
/// where it was read.
///
/// Contents are given by tile name, address and bit. With one port, writes go by the
/// write address and reads by the read address. With two, each reads or writes at its
/// own address while its clock is enabled. What a read gives at an address written in
/// the same cycle, and what an address holds that both ports write, is left open.
pub open spec fn block_works(
    now: spec_fn(u32) -> bool,
    after: spec_fn(u32) -> bool,
    held: spec_fn(Seq<char>, nat, int) -> bool,
    next: spec_fn(Seq<char>, nat, int) -> bool,
    cell: CellModel,
) -> bool {
    cell matches CellModel::BlockRam {
        name,
        implementation: Ecp5MemoryImplementation::Block,
        physical_width,
        write_address,
        write_data,
        write_enable,
        read_address,
        read_data,
        read_enable,
        clock_enable,
        clock,
        edge,
        second_port,
        ..
    } ==> {
        let tick = ticks(now, after, clock, edge);
        let first = |a: nat|
            tick && writes_at(
                now,
                write_address,
                physical_width,
                write_enable,
                clock_enable,
                a,
            );
        match second_port {
            None => {
                let address = word_address(now, read_address, physical_width);
                &&& forall|a: nat, b: int|
                    0 <= b < write_data.len() ==> #[trigger] next(name, a, b) == if first(a) {
                        bit_value(now, write_data[b])
                    } else {
                        held(name, a, b)
                    }
                &&& forall|b: int|
                    0 <= b < read_data.len() && !(tick && is_enabled(now, read_enable))
                        ==> after(#[trigger] read_data[b]) == now(read_data[b])
                &&& forall|b: int|
                    0 <= b < read_data.len() && tick && is_enabled(now, read_enable) && !first(
                        address,
                    ) ==> after(#[trigger] read_data[b]) == held(name, address, b)
            },
            Some(port) => {
                let other = ticks(now, after, port.clock, port.edge);
                let second = |a: nat|
                    other && writes_at(
                        now,
                        port.address,
                        physical_width,
                        port.write_enable,
                        port.clock_enable,
                        a,
                    );
                &&& forall|a: nat, b: int|
                    0 <= b < write_data.len() && !(first(a) && second(a)) ==> #[trigger] next(
                        name,
                        a,
                        b,
                    ) == if first(a) {
                        bit_value(now, write_data[b])
                    } else if second(a) {
                        bit_value(now, port.write_data[b])
                    } else {
                        held(name, a, b)
                    }
                &&& port_reads(
                    now,
                    after,
                    held,
                    name,
                    word_address(now, write_address, physical_width),
                    write_enable,
                    clock_enable,
                    tick,
                    second(word_address(now, write_address, physical_width)),
                    read_data,
                )
                &&& port_reads(
                    now,
                    after,
                    held,
                    name,
                    word_address(now, port.address, physical_width),
                    port.write_enable,
                    port.clock_enable,
                    other,
                    first(word_address(now, port.address, physical_width)),
                    port.read_data,
                )
            },
        }
    }
}

/// Whether one of two ports drives after an edge of its clock the word that the tile
/// held at its address, while its clock is enabled and neither port writes there, and
/// keeps what it drove without an edge and while its clock is not enabled.
pub open spec fn port_reads(
    now: spec_fn(u32) -> bool,
    after: spec_fn(u32) -> bool,
    held: spec_fn(Seq<char>, nat, int) -> bool,
    name: Seq<char>,
    address: nat,
    write_enable: Control,
    clock_enable: Option<Control>,
    tick: bool,
    other_writes: bool,
    read_data: Seq<u32>,
) -> bool {
    &&& forall|b: int|
        0 <= b < read_data.len() && !(tick && is_enabled(now, clock_enable)) ==> after(
            #[trigger] read_data[b],
        ) == now(read_data[b])
    &&& forall|b: int|
        0 <= b < read_data.len() && tick && is_enabled(now, clock_enable) && !asserted(
            now,
            write_enable.signal,
            write_enable.active,
        ) && !other_writes ==> after(#[trigger] read_data[b]) == held(name, address, b)
}

/// Whether logic agrees and block-RAM tiles work.
pub open spec fn blocks_work(
    now: spec_fn(u32) -> bool,
    after: spec_fn(u32) -> bool,
    held: spec_fn(Seq<char>, nat, int) -> bool,
    next: spec_fn(Seq<char>, nat, int) -> bool,
    cells: Seq<CellModel>,
) -> bool {
    cells_agree(now, cells) && forall|i: int|
        0 <= i < cells.len() ==> block_works(now, after, held, next, #[trigger] cells[i])
}

/// The word that an address names.
pub open spec fn address_of(
    values: spec_fn(u32) -> bool,
    bits: Seq<Option<Bit>>,
    address: Seq<NetId>,
) -> nat {
    address_value(values, bits, address, 0, address.len())
}

/// A bit of the word that the tiles of a memory together hold at an address.
pub open spec fn block_bit(
    held: spec_fn(Seq<char>, nat, int) -> bool,
    memory: MemoryCell,
    address: nat,
    index: int,
) -> bool {
    let size = widest_port(memory.depth)->0 as int;
    held(
        tile_name(memory.name@, parts(memory.port.write_data@.len() as int, size), index / size),
        address,
        index % size,
    )
}

/// Whether a memory maps to block RAM: its depth has a port, and its addresses fit it.
pub open spec fn is_block_memory(memory: MemoryCell) -> bool {
    &&& widest_port(memory.depth) matches Some(size) && {
        let limit = 14 - address_shift(size);
        &&& memory.port.read_address@.len() <= limit
        &&& memory.port.write_address@.len() <= limit
        &&& memory.second_port matches Some(port) ==> port.read_address@ == port.write_address@
            && memory.port.read_address@ == memory.port.write_address@
            && port.write_address@.len() <= limit && port.write_data@.len()
            == memory.port.write_data@.len() && port.read_data@.len()
            == port.write_data@.len()
    }
    &&& memory.port.read_data@.len() == memory.port.write_data@.len()
}

/// Whether the clock of a port has its active edge.
pub open spec fn port_steps(
    now: spec_fn(u32) -> bool,
    after: spec_fn(u32) -> bool,
    bits: Seq<Option<Bit>>,
    port: MemoryPort,
) -> bool {
    ticks(now, after, bit_of(bits, port.clock), port.edge)
}

/// Whether a port is written at an edge of its clock.
pub open spec fn port_stores(
    now: spec_fn(u32) -> bool,
    after: spec_fn(u32) -> bool,
    bits: Seq<Option<Bit>>,
    port: MemoryPort,
) -> bool {
    port_steps(now, after, bits, port) && is_enabled(
        now,
        Some(control_of(bits, port.write_enable)),
    )
}

/// Whether a port is read at an edge of its clock.
pub open spec fn port_loads(
    now: spec_fn(u32) -> bool,
    after: spec_fn(u32) -> bool,
    bits: Seq<Option<Bit>>,
    port: MemoryPort,
) -> bool {
    port_steps(now, after, bits, port) && is_enabled(now, optional_control(bits, port.read_enable))
}

/// The cells of a memory in block RAM.
pub open spec fn block_cells(nodes: Seq<Node>, state: EmitterModel, memory: MemoryCell) -> Seq<
    CellModel,
> {
    let size = widest_port(memory.depth)->0;
    tiles_mapped(
        nodes,
        state,
        memory,
        size,
        parts(memory.port.write_data@.len() as int, size as int) as nat,
    ).cells
}

proof fn lemma_beyond(
    values: spec_fn(u32) -> bool,
    bits: Seq<Option<Bit>>,
    address: Seq<NetId>,
    from: int,
    width: nat,
)
    requires
        from >= address.len(),
    ensures
        address_value(values, bits, address, from, width) == 0,
    decreases width,
{
    if width > 0 {
        lemma_beyond(values, bits, address, from + 1, (width - 1) as nat);
    }
}

proof fn lemma_padded(
    values: spec_fn(u32) -> bool,
    bits: Seq<Option<Bit>>,
    address: Seq<NetId>,
    from: int,
    width: nat,
)
    requires
        0 <= from <= address.len() <= from + width,
    ensures
        address_value(values, bits, address, from, width) == address_value(
            values,
            bits,
            address,
            from,
            (address.len() - from) as nat,
        ),
    decreases width,
{
    if from == address.len() {
        lemma_beyond(values, bits, address, from, width);
    } else {
        lemma_padded(values, bits, address, from + 1, (width - 1) as nat);
    }
}

proof fn lemma_pins_number(
    values: spec_fn(u32) -> bool,
    bits: Seq<Option<Bit>>,
    address: Seq<NetId>,
    pins: [Bit; 14],
    shift: int,
    i: int,
)
    requires
        0 <= shift <= shift + i <= 14,
        0 <= i,
        forall|k: int|
            shift <= k < 14 ==> #[trigger] pins[k] == address_pin(bits, address, shift, k),
    ensures
        pins_number(values, pins, shift + i) == address_value(
            values,
            bits,
            address,
            i,
            (14 - shift - i) as nat,
        ),
    decreases 14 - shift - i,
{
    if shift + i < 14 {
        lemma_pins_number(values, bits, address, pins, shift, i + 1);
        assert(pins[shift + i] == address_pin(bits, address, shift, shift + i));
        assert(address_pin(bits, address, shift, shift + i) == address_pin(bits, address, 0, i));
    }
}

/// The pins of a tile name the word at the address.
proof fn lemma_tile_address(
    values: spec_fn(u32) -> bool,
    bits: Seq<Option<Bit>>,
    address: Seq<NetId>,
    width: u8,
)
    requires
        address.len() <= 14 - address_shift(width),
    ensures
        word_address(values, address_pins(bits, address, address_shift(width)), width)
            == address_of(values, bits, address),
        word_address(values, write_pins(bits, address, width), width) == address_of(
            values,
            bits,
            address,
        ),
        writes_whole(values, write_pins(bits, address, width), width),
{
    let shift = address_shift(width);
    let pins = address_pins(bits, address, shift);
    let others = write_pins(bits, address, width);
    assert forall|k: int| shift <= k < 14 implies #[trigger] pins[k] == address_pin(
        bits,
        address,
        shift,
        k,
    ) by {
        assert(k == 0 || k == 1 || k == 2 || k == 3 || k == 4 || k == 5 || k == 6 || k == 7 || k
            == 8 || k == 9 || k == 10 || k == 11 || k == 12 || k == 13);
    }
    assert forall|k: int| shift <= k < 14 implies #[trigger] others[k] == address_pin(
        bits,
        address,
        shift,
        k,
    ) by {
        assert(k == 0 || k == 1 || k == 2 || k == 3 || k == 4 || k == 5 || k == 6 || k == 7 || k
            == 8 || k == 9 || k == 10 || k == 11 || k == 12 || k == 13);
    }
    lemma_pins_number(values, bits, address, pins, shift, 0);
    lemma_pins_number(values, bits, address, others, shift, 0);
    lemma_padded(values, bits, address, 0, (14 - shift) as nat);
}

proof fn lemma_prefix(
    now: spec_fn(u32) -> bool,
    after: spec_fn(u32) -> bool,
    held: spec_fn(Seq<char>, nat, int) -> bool,
    next: spec_fn(Seq<char>, nat, int) -> bool,
    before: EmitterModel,
    later: EmitterModel,
)
    requires
        appends(before, later),
        blocks_work(now, after, held, next, later.cells),
    ensures
        blocks_work(now, after, held, next, before.cells),
{
    assert forall|i: int| 0 <= i < before.cells.len() implies cell_agrees(
        now,
        #[trigger] before.cells[i],
    ) && block_works(now, after, held, next, before.cells[i]) by {
        assert(later.cells[i] == before.cells[i]);
    }
}

/// The state in front of a tile.
spec fn before_tile(nodes: Seq<Node>, state: EmitterModel, memory: MemoryCell, tile: int) -> EmitterModel {
    tiles_mapped(nodes, state, memory, widest_port(memory.depth)->0, tile as nat)
}

/// The state behind a tile.
spec fn with_tile(nodes: Seq<Node>, state: EmitterModel, memory: MemoryCell, tile: int) -> EmitterModel {
    tile_mapped(
        nodes,
        before_tile(nodes, state, memory, tile),
        memory,
        widest_port(memory.depth)->0,
        tile,
    )
}

/// A tile works where all do.
proof fn lemma_tile_reached(
    now: spec_fn(u32) -> bool,
    after: spec_fn(u32) -> bool,
    held: spec_fn(Seq<char>, nat, int) -> bool,
    next: spec_fn(Seq<char>, nat, int) -> bool,
    nodes: Seq<Node>,
    state: EmitterModel,
    memory: MemoryCell,
    count: nat,
    tile: int,
)
    requires
        0 <= tile < count,
        blocks_work(
            now,
            after,
            held,
            next,
            tiles_mapped(nodes, state, memory, widest_port(memory.depth)->0, count).cells,
        ),
    ensures
        blocks_work(now, after, held, next, with_tile(nodes, state, memory, tile).cells),
        before_tile(nodes, state, memory, tile).bits == state.bits,
    decreases count,
{
    let size = widest_port(memory.depth)->0;
    let rest = tiles_mapped(nodes, state, memory, size, (count - 1) as nat);
    let later = tiles_mapped(nodes, state, memory, size, count);
    lemma_block_append(nodes, state, memory, size, (count - 1) as nat);
    lemma_tile_appends(nodes, rest, memory, size, count - 1);
    if tile < count - 1 {
        lemma_prefix(now, after, held, next, rest, later);
        lemma_tile_reached(
            now,
            after,
            held,
            next,
            nodes,
            state,
            memory,
            (count - 1) as nat,
            tile,
        );
    }
}

/// Whether a port's clock is enabled: where a read or a write is, by whichever of the
/// two enables stands for both.
pub open spec fn port_clocked(
    values: spec_fn(u32) -> bool,
    nodes: Seq<Node>,
    bits: Seq<Option<Bit>>,
    port: MemoryPort,
) -> bool {
    let write = is_enabled(values, Some(control_of(bits, port.write_enable)));
    match port.read_enable {
        None => true,
        Some(enable) => {
            let read = is_enabled(values, Some(control_of(bits, enable)));
            if both_imply(nodes, Some(port.write_enable), port.read_enable) {
                read
            } else if both_imply(nodes, port.read_enable, Some(port.write_enable)) {
                write
            } else {
                write || read
            }
        },
    }
}

/// The clock enable of a port is asserted where a read or a write is enabled.
pub proof fn law_clock_enable_joins(
    values: spec_fn(u32) -> bool,
    nodes: Seq<Node>,
    state: EmitterModel,
    name: Seq<char>,
    port: MemoryPort,
)
    requires
        cells_agree(values, port_enable_made(nodes, state, name, port).state.cells),
    ensures
        is_enabled(values, port_enable_made(nodes, state, name, port).enable) == port_clocked(
            values,
            nodes,
            state.bits,
            port,
        ),
{
    let made = port_enable_made(nodes, state, name, port);
    if let Some(enable) = port.read_enable {
        if !both_imply(nodes, Some(port.write_enable), port.read_enable) && !both_imply(
            nodes,
            port.read_enable,
            Some(port.write_enable),
        ) {
            let write = control_of(state.bits, port.write_enable);
            let read = control_of(state.bits, enable);
            let w = bit_value(values, write.signal);
            let r = bit_value(values, read.signal);
            assert(cell_agrees(values, made.state.cells[made.state.cells.len() - 1]));
            lemma_lut_entry(
                |a: u64|
                    crate::memory::asserted(assigned(a, 0), write.active)
                        || crate::memory::asserted(assigned(a, 1), read.active),
                w,
                r,
                false,
                false,
            );
            let index = pin_index(w, r, false, false) as u64;
            assert((index & (1u64 << 0u64) != 0) == (index % 2 == 1)) by (bit_vector);
            assert((index & (1u64 << 1u64) != 0) == (index / 2 % 2 == 1)) by (bit_vector);
        }
    }
}

/// The geometry of a tile: it holds bits of the word, and its port addresses the
/// memory.
proof fn lemma_tile_geometry(memory: MemoryCell, index: int)
    requires
        is_block_memory(memory),
        0 <= index < memory.port.write_data@.len(),
    ensures
        ({
            let size = widest_port(memory.depth)->0;
            let total = memory.port.write_data@.len() as int;
            let tile = index / (size as int);
            let start = tile * size;
            let end = part_end(total, size as int, tile);
            let width = narrowest_port(memory.depth, (end - start) as u8)->0;
            &&& 1 <= size <= 18
            &&& 0 <= tile < parts(total, size as int)
            &&& 0 <= start <= index < end <= total
            &&& index % (size as int) == index - start
            &&& address_shift(width) <= address_shift(size)
        }),
{
    let size = widest_port(memory.depth)->0 as int;
    let total = memory.port.write_data@.len() as int;
    let tile = index / size;
    assert(0 <= tile && tile * size <= index < tile * size + size && index % size == index - tile
        * size) by (nonlinear_arith)
        requires
            tile == index / size,
            size > 0,
            index >= 0,
    ;
    let n = parts(total, size);
    assert(tile < n) by (nonlinear_arith)
        requires
            n == (total + size - 1) / size,
            tile * size <= index,
            index < total,
            size > 0,
    ;
    lemma_parts(total, size, tile);
    let start = tile * size;
    let end = part_end(total, size, tile);
    assert(0 < end - start <= size);
    law_narrowest_port(memory.depth, (end - start) as u8, size as u8);
}

/// A bit of one tile: what is written, kept and read, with one port.
#[verifier::rlimit(60)]
proof fn lemma_single_tile(
    now: spec_fn(u32) -> bool,
    after: spec_fn(u32) -> bool,
    held: spec_fn(Seq<char>, nat, int) -> bool,
    next: spec_fn(Seq<char>, nat, int) -> bool,
    nodes: Seq<Node>,
    state: EmitterModel,
    memory: MemoryCell,
    index: int,
    address: nat,
)
    requires
        is_block_memory(memory),
        memory.second_port is None,
        0 <= index < memory.port.write_data@.len(),
        blocks_work(now, after, held, next, block_cells(nodes, state, memory)),
    ensures
        block_bit(next, memory, address, index) == if port_stores(
            now,
            after,
            state.bits,
            memory.port,
        ) && address == address_of(now, state.bits, memory.port.write_address@) {
            bit_value(now, bit_of(state.bits, memory.port.write_data@[index]))
        } else {
            block_bit(held, memory, address, index)
        },
        !port_loads(now, after, state.bits, memory.port) ==> after(
            net_wire(memory.port.read_data@[index]),
        ) == now(net_wire(memory.port.read_data@[index])),
        port_loads(now, after, state.bits, memory.port) && !(port_stores(
            now,
            after,
            state.bits,
            memory.port,
        ) && address_of(now, state.bits, memory.port.read_address@) == address_of(
            now,
            state.bits,
            memory.port.write_address@,
        )) ==> after(net_wire(memory.port.read_data@[index])) == block_bit(
            held,
            memory,
            address_of(now, state.bits, memory.port.read_address@),
            index,
        ),
{
    let size = widest_port(memory.depth)->0;
    let port = memory.port;
    let total = port.write_data@.len() as int;
    let tile = index / (size as int);
    let start = tile * size;
    let end = part_end(total, size as int, tile);
    let width = narrowest_port(memory.depth, (end - start) as u8)->0;
    lemma_tile_geometry(memory, index);
    lemma_tile_reached(
        now,
        after,
        held,
        next,
        nodes,
        state,
        memory,
        parts(total, size as int) as nat,
        tile,
    );
    let cells = with_tile(nodes, state, memory, tile).cells;
    let cell = cells[cells.len() - 1];
    let name = tile_name(memory.name@, parts(total, size as int), tile);
    let b = index - start;
    lemma_tile_address(now, state.bits, port.read_address@, width);
    lemma_tile_address(now, state.bits, port.write_address@, width);
    assert(block_works(now, after, held, next, cell));
    let data = cell->BlockRam_write_data;
    let wires = cell->BlockRam_read_data;
    assert(data[b] == bit_of(state.bits, port.write_data@.subrange(start, end)[b]));
    assert(port.write_data@.subrange(start, end)[b] == port.write_data@[index]);
    assert(wires[b] == net_wire(port.read_data@.subrange(start, end)[b]));
    assert(port.read_data@.subrange(start, end)[b] == port.read_data@[index]);
    assert(next(name, address, b) == block_bit(next, memory, address, index));
    assert(cell->BlockRam_second_port is None);
    assert(cell->BlockRam_name == name);
    assert(cell->BlockRam_clock_enable is None);
    assert(cell->BlockRam_physical_width == width);
    assert(cell->BlockRam_write_address == write_pins(state.bits, port.write_address@, width));
    assert(cell->BlockRam_write_enable == control_of(state.bits, port.write_enable));
    assert(cell->BlockRam_clock == bit_of(state.bits, port.clock));
    assert(cell->BlockRam_edge == port.edge);
    let writes = port_steps(now, after, state.bits, port) && writes_at(
        now,
        cell->BlockRam_write_address,
        width,
        cell->BlockRam_write_enable,
        cell->BlockRam_clock_enable,
        address,
    );
    assert(writes == (port_stores(now, after, state.bits, port) && address == address_of(
        now,
        state.bits,
        port.write_address@,
    )));
    assert(data.len() == end - start);
    assert(next(name, address, b) == if writes {
        bit_value(now, data[b])
    } else {
        held(name, address, b)
    });
    assert(held(name, address, b) == block_bit(held, memory, address, index));
    assert(after(wires[b]) == after(net_wire(port.read_data@[index])));
}

/// Block RAM with one port holds words: the tiles together hold after a clock edge the
/// word written at its address, elsewhere what they held, and a read drives the word
/// they held at its address, unless that address is written in the same cycle.
pub proof fn law_block_memory_stores(
    now: spec_fn(u32) -> bool,
    after: spec_fn(u32) -> bool,
    held: spec_fn(Seq<char>, nat, int) -> bool,
    next: spec_fn(Seq<char>, nat, int) -> bool,
    nodes: Seq<Node>,
    state: EmitterModel,
    memory: MemoryCell,
)
    requires
        is_block_memory(memory),
        memory.second_port is None,
        blocks_work(now, after, held, next, block_cells(nodes, state, memory)),
    ensures
        ({
            let port = memory.port;
            let written = port_stores(now, after, state.bits, port);
            let read = port_loads(now, after, state.bits, port);
            let write_address = address_of(now, state.bits, port.write_address@);
            let read_address = address_of(now, state.bits, port.read_address@);
            &&& forall|address: nat, index: int|
                0 <= index < port.write_data@.len() ==> #[trigger] block_bit(
                    next,
                    memory,
                    address,
                    index,
                ) == if written && address == write_address {
                    bit_value(now, bit_of(state.bits, port.write_data@[index]))
                } else {
                    block_bit(held, memory, address, index)
                }
            &&& forall|index: int|
                0 <= index < port.read_data@.len() ==> (!read ==> after(
                    net_wire(#[trigger] port.read_data@[index]),
                ) == now(net_wire(port.read_data@[index]))) && (read && !(written && read_address
                    == write_address) ==> after(net_wire(port.read_data@[index])) == block_bit(
                    held,
                    memory,
                    read_address,
                    index,
                ))
        }),
{
    let port = memory.port;
    assert forall|address: nat, index: int|
        0 <= index < port.write_data@.len() implies #[trigger] block_bit(
        next,
        memory,
        address,
        index,
    ) == if port_stores(now, after, state.bits, port) && address
        == address_of(now, state.bits, port.write_address@) {
        bit_value(now, bit_of(state.bits, port.write_data@[index]))
    } else {
        block_bit(held, memory, address, index)
    } by {
        lemma_single_tile(now, after, held, next, nodes, state, memory, index, address);
    }
    assert forall|index: int| 0 <= index < port.read_data@.len() implies (!port_loads(
        now,
        after,
        state.bits,
        port,
    ) ==> after(net_wire(#[trigger] port.read_data@[index])) == now(
        net_wire(port.read_data@[index]),
    )) && (port_loads(now, after, state.bits, port) && !(port_stores(
        now,
        after,
        state.bits,
        port,
    ) && address_of(now, state.bits, port.read_address@) == address_of(
        now,
        state.bits,
        port.write_address@,
    )) ==> after(net_wire(port.read_data@[index])) == block_bit(
        held,
        memory,
        address_of(now, state.bits, port.read_address@),
        index,
    )) by {
        lemma_single_tile(now, after, held, next, nodes, state, memory, index, 0);
    }
}

/// A read of block RAM gives back what was last written at its address: written at one
/// clock edge and read at the next, while nothing is written there.
pub proof fn law_block_read_gives_back_write(
    first: spec_fn(u32) -> bool,
    second: spec_fn(u32) -> bool,
    third: spec_fn(u32) -> bool,
    held: spec_fn(Seq<char>, nat, int) -> bool,
    next: spec_fn(Seq<char>, nat, int) -> bool,
    later: spec_fn(Seq<char>, nat, int) -> bool,
    nodes: Seq<Node>,
    state: EmitterModel,
    memory: MemoryCell,
    index: int,
)
    requires
        is_block_memory(memory),
        memory.second_port is None,
        0 <= index < memory.port.read_data@.len(),
        blocks_work(first, second, held, next, block_cells(nodes, state, memory)),
        blocks_work(second, third, next, later, block_cells(nodes, state, memory)),
        port_stores(first, second, state.bits, memory.port),
        port_loads(second, third, state.bits, memory.port),
        address_of(second, state.bits, memory.port.read_address@) == address_of(
            first,
            state.bits,
            memory.port.write_address@,
        ),
        port_stores(second, third, state.bits, memory.port)
            ==> address_of(second, state.bits, memory.port.write_address@) != address_of(
            second,
            state.bits,
            memory.port.read_address@,
        ),
    ensures
        third(net_wire(memory.port.read_data@[index])) == bit_value(
            first,
            bit_of(state.bits, memory.port.write_data@[index]),
        ),
{
    let address = address_of(first, state.bits, memory.port.write_address@);
    lemma_single_tile(first, second, held, next, nodes, state, memory, index, address);
    lemma_single_tile(second, third, next, later, nodes, state, memory, index, address);
}

/// What is kept untouched is read however late: an address that is not written at a
/// clock edge holds what it held.
pub proof fn law_block_memory_keeps(
    now: spec_fn(u32) -> bool,
    after: spec_fn(u32) -> bool,
    held: spec_fn(Seq<char>, nat, int) -> bool,
    next: spec_fn(Seq<char>, nat, int) -> bool,
    nodes: Seq<Node>,
    state: EmitterModel,
    memory: MemoryCell,
    address: nat,
    index: int,
)
    requires
        is_block_memory(memory),
        memory.second_port is None,
        0 <= index < memory.port.read_data@.len(),
        blocks_work(now, after, held, next, block_cells(nodes, state, memory)),
        port_stores(now, after, state.bits, memory.port) ==> address
            != address_of(now, state.bits, memory.port.write_address@),
    ensures
        block_bit(next, memory, address, index) == block_bit(held, memory, address, index),
{
    lemma_single_tile(now, after, held, next, nodes, state, memory, index, address);
}

/// Whether a port of a true dual-port memory writes the word at an address.
pub open spec fn port_writes(
    values: spec_fn(u32) -> bool,
    after: spec_fn(u32) -> bool,
    nodes: Seq<Node>,
    bits: Seq<Option<Bit>>,
    port: MemoryPort,
    address: nat,
) -> bool {
    &&& port_steps(values, after, bits, port)
    &&& port_clocked(values, nodes, bits, port)
    &&& is_enabled(values, Some(control_of(bits, port.write_enable)))
    &&& address == address_of(values, bits, port.write_address@)
}

/// A bit of one tile: what is written, kept and read, with two ports.
#[verifier::rlimit(80)]
proof fn lemma_dual_tile(
    now: spec_fn(u32) -> bool,
    after: spec_fn(u32) -> bool,
    held: spec_fn(Seq<char>, nat, int) -> bool,
    next: spec_fn(Seq<char>, nat, int) -> bool,
    nodes: Seq<Node>,
    state: EmitterModel,
    memory: MemoryCell,
    index: int,
    address: nat,
)
    requires
        is_block_memory(memory),
        memory.second_port is Some,
        0 <= index < memory.port.write_data@.len(),
        blocks_work(now, after, held, next, block_cells(nodes, state, memory)),
    ensures
        ({
            let a = memory.port;
            let b = memory.second_port->0;
            let bits = state.bits;
            let first = port_writes(now, after, nodes, bits, a, address);
            let second = port_writes(now, after, nodes, bits, b, address);
            let here = address_of(now, bits, a.write_address@);
            let there = address_of(now, bits, b.write_address@);
            &&& !(first && second) ==> block_bit(next, memory, address, index) == if first {
                bit_value(now, bit_of(bits, a.write_data@[index]))
            } else if second {
                bit_value(now, bit_of(bits, b.write_data@[index]))
            } else {
                block_bit(held, memory, address, index)
            }
            &&& port_steps(now, after, bits, a) && port_clocked(now, nodes, bits, a) && !is_enabled(
                now,
                Some(control_of(bits, a.write_enable)),
            ) && !port_writes(now, after, nodes, bits, b, here) ==> after(
                net_wire(a.read_data@[index]),
            ) == block_bit(held, memory, here, index)
            &&& port_steps(now, after, bits, b) && port_clocked(now, nodes, bits, b) && !is_enabled(
                now,
                Some(control_of(bits, b.write_enable)),
            ) && !port_writes(now, after, nodes, bits, a, there) ==> after(
                net_wire(b.read_data@[index]),
            ) == block_bit(held, memory, there, index)
            &&& !(port_steps(now, after, bits, a) && port_clocked(now, nodes, bits, a)) ==> after(net_wire(a.read_data@[index])) == now(
                net_wire(a.read_data@[index]),
            )
            &&& !(port_steps(now, after, bits, b) && port_clocked(now, nodes, bits, b)) ==> after(net_wire(b.read_data@[index])) == now(
                net_wire(b.read_data@[index]),
            )
        }),
{
    let size = widest_port(memory.depth)->0;
    let port = memory.port;
    let other = memory.second_port->0;
    let total = port.write_data@.len() as int;
    let tile = index / (size as int);
    let start = tile * size;
    let end = part_end(total, size as int, tile);
    let width = narrowest_port(memory.depth, (end - start) as u8)->0;
    lemma_tile_geometry(memory, index);
    lemma_tile_reached(
        now,
        after,
        held,
        next,
        nodes,
        state,
        memory,
        parts(total, size as int) as nat,
        tile,
    );
    let before = before_tile(nodes, state, memory, tile);
    let done = with_tile(nodes, state, memory, tile);
    let cell = done.cells[done.cells.len() - 1];
    let name = tile_name(memory.name@, parts(total, size as int), tile);
    let one = port_enable_made(nodes, before, name + "_cea"@, port);
    let two = port_enable_made(nodes, one.state, name + "_ceb"@, other);
    assert(one.state.bits == before.bits);
    assert(appends(two.state, done));
    lemma_prefix(now, after, held, next, two.state, done);
    assert(appends(one.state, two.state));
    lemma_prefix(now, after, held, next, one.state, two.state);
    law_clock_enable_joins(now, nodes, before, name + "_cea"@, port);
    law_clock_enable_joins(now, nodes, one.state, name + "_ceb"@, other);
    let b = index - start;
    lemma_tile_address(now, state.bits, port.write_address@, width);
    lemma_tile_address(now, state.bits, other.write_address@, width);
    assert(block_works(now, after, held, next, cell));
    let data = cell->BlockRam_write_data;
    let wires = cell->BlockRam_read_data;
    let second = cell->BlockRam_second_port->0;
    assert(data[b] == bit_of(state.bits, port.write_data@.subrange(start, end)[b]));
    assert(port.write_data@.subrange(start, end)[b] == port.write_data@[index]);
    assert(wires[b] == net_wire(port.read_data@.subrange(start, end)[b]));
    assert(port.read_data@.subrange(start, end)[b] == port.read_data@[index]);
    assert(second.write_data[b] == bit_of(
        state.bits,
        other.write_data@.subrange(start, end)[b],
    ));
    assert(other.write_data@.subrange(start, end)[b] == other.write_data@[index]);
    assert(second.read_data[b] == net_wire(other.read_data@.subrange(start, end)[b]));
    assert(other.read_data@.subrange(start, end)[b] == other.read_data@[index]);
    assert(next(name, address, b) == block_bit(next, memory, address, index));
    assert(after(wires[b]) == after(net_wire(port.read_data@[index])));
    assert(after(second.read_data[b]) == after(net_wire(other.read_data@[index])));
}

/// Block RAM with two ports holds words: each port that is clocked and writes puts its
/// word at its address, elsewhere the tiles keep what they held, and a port that is
/// clocked and does not write drives the word they held at its address. What both
/// ports write at one address, and what a read gives while the other port writes there,
/// is left open.
pub proof fn law_dual_port_memory_stores(
    now: spec_fn(u32) -> bool,
    after: spec_fn(u32) -> bool,
    held: spec_fn(Seq<char>, nat, int) -> bool,
    next: spec_fn(Seq<char>, nat, int) -> bool,
    nodes: Seq<Node>,
    state: EmitterModel,
    memory: MemoryCell,
    index: int,
    address: nat,
)
    requires
        is_block_memory(memory),
        memory.second_port is Some,
        0 <= index < memory.port.write_data@.len(),
        blocks_work(now, after, held, next, block_cells(nodes, state, memory)),
    ensures
        ({
            let a = memory.port;
            let b = memory.second_port->0;
            let bits = state.bits;
            let first = port_writes(now, after, nodes, bits, a, address);
            let second = port_writes(now, after, nodes, bits, b, address);
            let here = address_of(now, bits, a.write_address@);
            let there = address_of(now, bits, b.write_address@);
            &&& !(first && second) ==> block_bit(next, memory, address, index) == if first {
                bit_value(now, bit_of(bits, a.write_data@[index]))
            } else if second {
                bit_value(now, bit_of(bits, b.write_data@[index]))
            } else {
                block_bit(held, memory, address, index)
            }
            &&& port_steps(now, after, bits, a) && port_clocked(now, nodes, bits, a) && !is_enabled(
                now,
                Some(control_of(bits, a.write_enable)),
            ) && !port_writes(now, after, nodes, bits, b, here) ==> after(
                net_wire(a.read_data@[index]),
            ) == block_bit(held, memory, here, index)
            &&& port_steps(now, after, bits, b) && port_clocked(now, nodes, bits, b) && !is_enabled(
                now,
                Some(control_of(bits, b.write_enable)),
            ) && !port_writes(now, after, nodes, bits, a, there) ==> after(
                net_wire(b.read_data@[index]),
            ) == block_bit(held, memory, there, index)
            &&& !(port_steps(now, after, bits, a) && port_clocked(now, nodes, bits, a)) ==> after(
                net_wire(a.read_data@[index]),
            ) == now(net_wire(a.read_data@[index]))
            &&& !(port_steps(now, after, bits, b) && port_clocked(now, nodes, bits, b)) ==> after(
                net_wire(b.read_data@[index]),
            ) == now(net_wire(b.read_data@[index]))
        }),
{
    lemma_dual_tile(now, after, held, next, nodes, state, memory, index, address);
}

} // verus!
