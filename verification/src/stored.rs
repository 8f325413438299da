//! What distributed memories give back: a read returns what was written last.

use vstd::prelude::*;

use crate::appended::appends;
use crate::appended::lemma_banks_append;
use crate::appended::lemma_level_append;
use crate::appended::lemma_outputs_append;
use crate::appended::lemma_reads_append;
use crate::appended::lemma_tiles_append;
use crate::appended::lemma_tree_append;
use crate::arithmetic::one_if;
use crate::behaves::has_edge;
use crate::cells::Bit;
use crate::cells::CellModel;
use crate::cells::Control;
use crate::cells::Ecp5MemoryImplementation;
use crate::dpram::bank_bits;
use crate::dpram::bank_enable_made;
use crate::dpram::bank_tiles;
use crate::dpram::bank_written;
use crate::dpram::banks_made;
use crate::dpram::data_bit;
use crate::dpram::distributed_mapped;
use crate::dpram::dpram_name;
use crate::dpram::level_muxes;
use crate::dpram::mux_tree;
use crate::dpram::read_muxes;
use crate::dpram::tile_made;
use crate::dpram::tile_outputs;
use crate::dpram::MuxPlace;
use crate::emit::bit_of;
use crate::emit::EmitterModel;
use crate::ir::net_wire;
use crate::ir::MemoryCell;
use crate::ir::NetId;
use crate::meaning::bit_value;
use crate::meaning::cell_agrees;
use crate::meaning::cells_agree;
use crate::meaning::lemma_lut_entry;
use crate::memory::address_pin;
use crate::memory::control_of;
use crate::memory::parts;
use crate::moves::asserted;
use crate::wires::assignments;
use crate::wires::pin_index;
use crate::wires::table_bit;

verus! {

/// The number that `width` address bits from bit `from` on stand for; bits that
/// are not there are zero.
pub open spec fn address_value(
    values: spec_fn(u32) -> bool,
    bits: Seq<Option<Bit>>,
    address: Seq<NetId>,
    from: int,
    width: nat,
) -> nat
    decreases width,
{
    if width == 0 {
        0
    } else {
        (one_if(bit_value(values, address_pin(bits, address, 0, from))) + 2 * address_value(
            values,
            bits,
            address,
            from + 1,
            (width - 1) as nat,
        )) as nat
    }
}

/// The number that the four lowest address pins of a tile stand for.
pub open spec fn pins_value(values: spec_fn(u32) -> bool, pins: [Bit; 14]) -> nat {
    (one_if(bit_value(values, pins[0])) + 2 * one_if(bit_value(values, pins[1])) + 4 * one_if(
        bit_value(values, pins[2]),
    ) + 8 * one_if(bit_value(values, pins[3]))) as nat
}

/// Whether a distributed tile drives the word it holds at its read address, and
/// holds after an edge of its clock what was written, elsewhere and without an edge
/// what it held. Contents are given by tile name, address and bit.
pub open spec fn tile_works(
    values: spec_fn(u32) -> bool,
    after: spec_fn(u32) -> bool,
    held: spec_fn(Seq<char>, nat, int) -> bool,
    next: spec_fn(Seq<char>, nat, int) -> bool,
    cell: CellModel,
) -> bool {
    cell matches CellModel::BlockRam {
        name,
        implementation: Ecp5MemoryImplementation::Distributed,
        write_address,
        write_data,
        write_enable,
        read_address,
        read_data,
        clock,
        edge,
        ..
    } ==> {
        &&& forall|b: int|
            0 <= b < read_data.len() ==> values(#[trigger] read_data[b]) == held(
                name,
                pins_value(values, read_address),
                b,
            )
        &&& forall|a: nat, b: int|
            0 <= b < write_data.len() ==> #[trigger] next(name, a, b) == if has_edge(
                bit_value(values, clock),
                bit_value(after, clock),
                edge,
            ) && asserted(values, write_enable.signal, write_enable.active) && a == pins_value(
                values,
                write_address,
            ) {
                bit_value(values, write_data[b])
            } else {
                held(name, a, b)
            }
    }
}

/// Whether every distributed tile works.
pub open spec fn tiles_work(
    values: spec_fn(u32) -> bool,
    after: spec_fn(u32) -> bool,
    held: spec_fn(Seq<char>, nat, int) -> bool,
    next: spec_fn(Seq<char>, nat, int) -> bool,
    cells: Seq<CellModel>,
) -> bool {
    forall|i: int| 0 <= i < cells.len() ==> tile_works(values, after, held, next, #[trigger] cells[i])
}

/// Whether logic agrees and tiles work.
spec fn all_work(
    values: spec_fn(u32) -> bool,
    after: spec_fn(u32) -> bool,
    held: spec_fn(Seq<char>, nat, int) -> bool,
    next: spec_fn(Seq<char>, nat, int) -> bool,
    cells: Seq<CellModel>,
) -> bool {
    cells_agree(values, cells) && tiles_work(values, after, held, next, cells)
}

proof fn lemma_prefix_works(
    values: spec_fn(u32) -> bool,
    after: spec_fn(u32) -> bool,
    held: spec_fn(Seq<char>, nat, int) -> bool,
    next: spec_fn(Seq<char>, nat, int) -> bool,
    before: EmitterModel,
    later: EmitterModel,
)
    requires
        appends(before, later),
        all_work(values, after, held, next, later.cells),
    ensures
        all_work(values, after, held, next, before.cells),
{
    assert forall|i: int| 0 <= i < before.cells.len() implies cell_agrees(
        values,
        #[trigger] before.cells[i],
    ) && tile_works(values, after, held, next, before.cells[i]) by {
        assert(later.cells[i] == before.cells[i]);
    }
}

proof fn lemma_low_address(
    values: spec_fn(u32) -> bool,
    bits: Seq<Option<Bit>>,
    address: Seq<NetId>,
)
    ensures
        pins_value(values, crate::dpram::low_address(bits, address)) == address_value(
            values,
            bits,
            address,
            0,
            4,
        ),
{
    reveal_with_fuel(address_value, 5);
}

/// Whether bank `bank` is written: the write enable is asserted, and the high
/// address bits name the bank where there are several.
pub open spec fn is_written(
    values: spec_fn(u32) -> bool,
    bits: Seq<Option<Bit>>,
    memory: MemoryCell,
    banks: nat,
    bank: nat,
) -> bool {
    let enable = control_of(bits, memory.port.write_enable);
    asserted(values, enable.signal, enable.active) && (banks == 1 || address_value(
        values,
        bits,
        memory.port.write_address@,
        4,
        3,
    ) == bank)
}

/// Whether the clock of a memory's port has its active edge where the wires go from
/// `values` to `after`.
pub open spec fn port_ticks(
    values: spec_fn(u32) -> bool,
    after: spec_fn(u32) -> bool,
    bits: Seq<Option<Bit>>,
    memory: MemoryCell,
) -> bool {
    let clock = bit_of(bits, memory.port.clock);
    has_edge(bit_value(values, clock), bit_value(after, clock), memory.port.edge)
}

/// Whether bank `bank` is written at an edge of the port's clock.
pub open spec fn is_stored(
    values: spec_fn(u32) -> bool,
    after: spec_fn(u32) -> bool,
    bits: Seq<Option<Bit>>,
    memory: MemoryCell,
    banks: nat,
    bank: nat,
) -> bool {
    port_ticks(values, after, bits, memory) && is_written(values, bits, memory, banks, bank)
}

/// The enable of a bank is asserted exactly where the bank is written.
pub proof fn law_bank_enable_names_bank(
    values: spec_fn(u32) -> bool,
    state: EmitterModel,
    memory: MemoryCell,
    bank: nat,
    banks: nat,
)
    requires
        cells_agree(
            values,
            bank_enable_made(
                state,
                memory.name@,
                bank,
                banks,
                control_of(state.bits, memory.port.write_enable),
                memory.port.write_address@,
            ).state.cells,
        ),
    ensures
        ({
            let enable = bank_enable_made(
                state,
                memory.name@,
                bank,
                banks,
                control_of(state.bits, memory.port.write_enable),
                memory.port.write_address@,
            ).enable;
            asserted(values, enable.signal, enable.active) == is_written(
                values,
                state.bits,
                memory,
                banks,
                bank,
            )
        }),
{
    let control = control_of(state.bits, memory.port.write_enable);
    let address = memory.port.write_address@;
    let made = bank_enable_made(state, memory.name@, bank, banks, control, address);
    if banks != 1 {
        let e = bit_value(values, control.signal);
        let x = bit_value(values, address_pin(state.bits, address, 0, 4));
        let y = bit_value(values, address_pin(state.bits, address, 0, 5));
        let z = bit_value(values, address_pin(state.bits, address, 0, 6));
        assert(cell_agrees(values, made.state.cells[made.state.cells.len() - 1]));
        lemma_lut_entry(|a: u64| bank_written(control.active, bank, a), e, x, y, z);
        reveal_with_fuel(address_value, 4);
        let index = pin_index(e, x, y, z) as u64;
        assert((index & (1u64 << 0u64) != 0) == (index % 2 == 1)) by (bit_vector);
        assert(index / 2 % 8 == one_if(x) + 2 * one_if(y) + 4 * one_if(z));
    }
}

/// What one tile holds and gives back.
spec fn tile_stores(
    values: spec_fn(u32) -> bool,
    after: spec_fn(u32) -> bool,
    held: spec_fn(Seq<char>, nat, int) -> bool,
    next: spec_fn(Seq<char>, nat, int) -> bool,
    bits: Seq<Option<Bit>>,
    memory: MemoryCell,
    written: bool,
    bank: nat,
    chunk: nat,
    wires: Seq<u32>,
) -> bool {
    let name = dpram_name(memory.name@, bank, chunk);
    let port = memory.port;
    &&& wires.len() == 4
    &&& forall|b: int|
        0 <= b < 4 ==> values(#[trigger] wires[b]) == held(
            name,
            address_value(values, bits, port.read_address@, 0, 4),
            b,
        )
    &&& forall|a: nat, b: int|
        0 <= b < 4 ==> #[trigger] next(name, a, b) == if written && a == address_value(
            values,
            bits,
            port.write_address@,
            0,
            4,
        ) {
            bit_value(values, data_bit(bits, port.write_data@, 4 * chunk + b))
        } else {
            held(name, a, b)
        }
}

proof fn lemma_tile_stores(
    values: spec_fn(u32) -> bool,
    after: spec_fn(u32) -> bool,
    held: spec_fn(Seq<char>, nat, int) -> bool,
    next: spec_fn(Seq<char>, nat, int) -> bool,
    state: EmitterModel,
    memory: MemoryCell,
    banks: nat,
    bank: nat,
    enable: Control,
    chunk: nat,
)
    requires
        all_work(
            values,
            after,
            held,
            next,
            tile_made(state, memory, banks, bank, enable, chunk).state.cells,
        ),
    ensures
        tile_stores(
            values,
            after,
            held,
            next,
            state.bits,
            memory,
            port_ticks(values, after, state.bits, memory) && asserted(values, enable.signal, enable.active),
            bank,
            chunk,
            tile_made(state, memory, banks, bank, enable, chunk).wires,
        ),
{
    let made = tile_made(state, memory, banks, bank, enable, chunk);
    let port = memory.port;
    let start = 4 * chunk as int;
    lemma_output_count(state, port.read_data@, banks, start, 4);
    lemma_low_address(values, state.bits, port.read_address@);
    lemma_low_address(values, state.bits, port.write_address@);
    let cell = made.state.cells[made.state.cells.len() - 1];
    assert(tile_works(values, after, held, next, cell));
    let data = cell->BlockRam_write_data;
    assert(data.len() == 4);
    assert forall|b: int| 0 <= b < 4 implies #[trigger] data[b] == data_bit(
        state.bits,
        port.write_data@,
        start + b,
    ) by {
        assert(b == 0 || b == 1 || b == 2 || b == 3);
    }
    let name = dpram_name(memory.name@, bank, chunk);
    assert(cell->BlockRam_name == name);
    assert(cell->BlockRam_implementation == Ecp5MemoryImplementation::Distributed);
    assert(cell->BlockRam_write_enable == enable);
    assert(cell->BlockRam_write_address == crate::dpram::low_address(
        state.bits,
        port.write_address@,
    ));
    assert(cell->BlockRam_read_address == crate::dpram::low_address(
        state.bits,
        port.read_address@,
    ));
    assert(cell->BlockRam_read_data == made.wires);
    assert forall|b: int| 0 <= b < 4 implies values(#[trigger] made.wires[b]) == held(
        name,
        address_value(values, state.bits, port.read_address@, 0, 4),
        b,
    ) by {
        assert(values(cell->BlockRam_read_data[b]) == held(
            name,
            pins_value(values, cell->BlockRam_read_address),
            b,
        ));
    }
    assert forall|a: nat, b: int| 0 <= b < 4 implies #[trigger] next(name, a, b) == if port_ticks(
        values,
        after,
        state.bits,
        memory,
    ) && asserted(values, enable.signal, enable.active) && a == address_value(values, state.bits, port.write_address@, 0, 4) {
        bit_value(values, data_bit(state.bits, port.write_data@, 4 * chunk + b))
    } else {
        held(name, a, b)
    } by {
        assert(data[b] == data_bit(state.bits, port.write_data@, start + b));
    }
}

proof fn lemma_output_count(
    state: EmitterModel,
    read_data: Seq<NetId>,
    banks: nat,
    start: int,
    count: nat,
)
    ensures
        tile_outputs(state, read_data, banks, start, count).wires.len() == count,
        banks == 1 ==> forall|b: int|
            0 <= b < count && start + b < read_data.len() ==> #[trigger] tile_outputs(
                state,
                read_data,
                banks,
                start,
                count,
            ).wires[b] == net_wire(read_data[start + b]),
    decreases count,
{
    if count > 0 {
        lemma_output_count(state, read_data, banks, start, (count - 1) as nat);
    }
}

/// What the tiles of one bank hold and give back.
spec fn bank_stores(
    values: spec_fn(u32) -> bool,
    after: spec_fn(u32) -> bool,
    held: spec_fn(Seq<char>, nat, int) -> bool,
    next: spec_fn(Seq<char>, nat, int) -> bool,
    bits: Seq<Option<Bit>>,
    memory: MemoryCell,
    written: bool,
    bank: nat,
    chunks: nat,
    wires: Seq<Seq<u32>>,
) -> bool {
    wires.len() == chunks && forall|chunk: int|
        0 <= chunk < chunks ==> tile_stores(
            values,
            after,
            held,
            next,
            bits,
            memory,
            written,
            bank,
            chunk as nat,
            #[trigger] wires[chunk],
        )
}

proof fn lemma_tiles_store(
    values: spec_fn(u32) -> bool,
    after: spec_fn(u32) -> bool,
    held: spec_fn(Seq<char>, nat, int) -> bool,
    next: spec_fn(Seq<char>, nat, int) -> bool,
    state: EmitterModel,
    memory: MemoryCell,
    banks: nat,
    bank: nat,
    enable: Control,
    count: nat,
)
    requires
        all_work(
            values,
            after,
            held,
            next,
            bank_tiles(state, memory, banks, bank, enable, count).state.cells,
        ),
    ensures
        bank_stores(
            values,
            after,
            held,
            next,
            state.bits,
            memory,
            port_ticks(values, after, state.bits, memory) && asserted(values, enable.signal, enable.active),
            bank,
            count,
            bank_tiles(state, memory, banks, bank, enable, count).wires,
        ),
        banks == 1 ==> forall|chunk: int, b: int|
            #![trigger bank_tiles(state, memory, banks, bank, enable, count).wires[chunk][b]]
            0 <= chunk < count && 0 <= b < 4 && 4 * chunk + b < memory.port.read_data@.len()
                ==> bank_tiles(state, memory, banks, bank, enable, count).wires[chunk][b]
                == net_wire(memory.port.read_data@[4 * chunk + b]),
    decreases count,
{
    if count > 0 {
        let last = (count - 1) as nat;
        lemma_tiles_append(state, memory, banks, bank, enable, last);
        let rest = bank_tiles(state, memory, banks, bank, enable, last);
        let tile = tile_made(rest.state, memory, banks, bank, enable, last);
        let start = 4 * last as int;
        lemma_outputs_append(rest.state, memory.port.read_data@, banks, start, 4);
        lemma_output_count(rest.state, memory.port.read_data@, banks, start, 4);
        assert(appends(rest.state, tile.state));
        lemma_prefix_works(values, after, held, next, rest.state, tile.state);
        lemma_tiles_store(values, after, held, next, state, memory, banks, bank, enable, last);
        lemma_tile_stores(
            values,
            after,
            held,
            next,
            rest.state,
            memory,
            banks,
            bank,
            enable,
            last,
        );
        let all = bank_tiles(state, memory, banks, bank, enable, count).wires;
        assert forall|chunk: int| 0 <= chunk < count implies tile_stores(
            values,
            after,
            held,
            next,
            state.bits,
            memory,
            port_ticks(values, after, state.bits, memory) && asserted(values, enable.signal, enable.active),
            bank,
            chunk as nat,
            #[trigger] all[chunk],
        ) by {
            if chunk < last {
                assert(all[chunk] == rest.wires[chunk]);
            }
        }
    }
}

/// What the first `count` banks hold and give back.
spec fn banks_store(
    values: spec_fn(u32) -> bool,
    after: spec_fn(u32) -> bool,
    held: spec_fn(Seq<char>, nat, int) -> bool,
    next: spec_fn(Seq<char>, nat, int) -> bool,
    bits: Seq<Option<Bit>>,
    memory: MemoryCell,
    banks: nat,
    count: nat,
    wires: Seq<Seq<Seq<u32>>>,
) -> bool {
    wires.len() == count && forall|bank: int|
        0 <= bank < count ==> bank_stores(
            values,
            after,
            held,
            next,
            bits,
            memory,
            is_stored(values, after, bits, memory, banks, bank as nat),
            bank as nat,
            parts(memory.port.write_data@.len() as int, 4) as nat,
            #[trigger] wires[bank],
        )
}

proof fn lemma_banks_store(
    values: spec_fn(u32) -> bool,
    after: spec_fn(u32) -> bool,
    held: spec_fn(Seq<char>, nat, int) -> bool,
    next: spec_fn(Seq<char>, nat, int) -> bool,
    state: EmitterModel,
    memory: MemoryCell,
    banks: nat,
    count: nat,
)
    requires
        all_work(values, after, held, next, banks_made(state, memory, banks, count).state.cells),
    ensures
        banks_store(
            values,
            after,
            held,
            next,
            state.bits,
            memory,
            banks,
            count,
            banks_made(state, memory, banks, count).wires,
        ),
        banks == 1 && count == 1 ==> forall|chunk: int, b: int|
            #![trigger banks_made(state, memory, banks, count).wires[0][chunk][b]]
            0 <= chunk < parts(memory.port.write_data@.len() as int, 4) && 0 <= b < 4 && 4 * chunk
                + b < memory.port.read_data@.len() ==> banks_made(
                state,
                memory,
                banks,
                count,
            ).wires[0][chunk][b] == net_wire(memory.port.read_data@[4 * chunk + b]),
    decreases count,
{
    if count > 0 {
        let bank = (count - 1) as nat;
        let chunks = parts(memory.port.write_data@.len() as int, 4) as nat;
        lemma_banks_append(state, memory, banks, bank);
        let rest = banks_made(state, memory, banks, bank);
        let made = bank_enable_made(
            rest.state,
            memory.name@,
            bank,
            banks,
            control_of(state.bits, memory.port.write_enable),
            memory.port.write_address@,
        );
        let tiles = bank_tiles(made.state, memory, banks, bank, made.enable, chunks);
        lemma_tiles_append(made.state, memory, banks, bank, made.enable, chunks);
        assert(appends(rest.state, made.state));
        lemma_prefix_works(values, after, held, next, made.state, tiles.state);
        lemma_prefix_works(values, after, held, next, rest.state, made.state);
        lemma_banks_store(values, after, held, next, state, memory, banks, bank);
        law_bank_enable_names_bank(values, rest.state, memory, bank, banks);
        lemma_tiles_store(
            values,
            after,
            held,
            next,
            made.state,
            memory,
            banks,
            bank,
            made.enable,
            chunks,
        );
        let all = banks_made(state, memory, banks, count).wires;
        assert forall|b: int| 0 <= b < count implies bank_stores(
            values,
            after,
            held,
            next,
            state.bits,
            memory,
            is_stored(values, after, state.bits, memory, banks, b as nat),
            b as nat,
            chunks,
            #[trigger] all[b],
        ) by {
            if b < bank {
                assert(all[b] == rest.wires[b]);
            }
        }
        if banks == 1 && count == 1 {
            assert(all[0] == tiles.wires);
        }
    }
}

proof fn lemma_mux_drives(a: bool, b: bool, select: bool)
    ensures
        table_bit(crate::dpram::MUX_INIT, pin_index(a, b, select, false)) == if select {
            b
        } else {
            a
        },
{
    let init = 0xcacau16;
    assert(init & (1u16 << 0u16) == 0 && init & (1u16 << 1u16) != 0 && init & (1u16 << 2u16) == 0
        && init & (1u16 << 3u16) != 0 && init & (1u16 << 4u16) == 0 && init & (1u16 << 5u16) == 0
        && init & (1u16 << 6u16) != 0 && init & (1u16 << 7u16) != 0) by (bit_vector)
        requires
            init == 0xcacau16,
    ;
}

/// The wire that a read mux tree drives in the end.
spec fn tree_wire(place: MuxPlace) -> u32 {
    net_wire(place.memory.port.read_data@[4 * place.chunk as int + place.bit])
}

proof fn lemma_level_selects(
    values: spec_fn(u32) -> bool,
    state: EmitterModel,
    place: MuxPlace,
    level: Seq<Bit>,
    select: nat,
    count: nat,
    pair: int,
)
    requires
        cells_agree(values, level_muxes(state, place, level, select, count).state.cells),
        0 <= pair < count,
    ensures
        ({
            let out = level_muxes(state, place, level, select, count).level;
            let on = bit_value(
                values,
                address_pin(state.bits, place.memory.port.read_address@, 0, select as int),
            );
            &&& bit_value(values, out[pair]) == if !on {
                bit_value(values, level[2 * pair])
            } else {
                2 * pair + 1 < level.len() && bit_value(values, level[2 * pair + 1])
            }
            &&& parts(level.len() as int, 2) == 1 ==> out[pair] == Bit::Wire(tree_wire(place))
        }),
    decreases count,
{
    let last = (count - 1) as nat;
    lemma_level_append(state, place, level, select, last);
    lemma_level_append(state, place, level, select, count);
    let rest = level_muxes(state, place, level, select, last);
    let after = level_muxes(state, place, level, select, count);
    if pair < last {
        assert forall|i: int| 0 <= i < rest.state.cells.len() implies cell_agrees(
            values,
            #[trigger] rest.state.cells[i],
        ) by {
            assert(cell_agrees(values, after.state.cells[i]));
        }
        lemma_level_selects(values, state, place, level, select, last, pair);
    } else {
        assert(cell_agrees(values, after.state.cells[after.state.cells.len() - 1]));
        let a = bit_value(values, level[2 * pair]);
        let b = 2 * pair + 1 < level.len() && bit_value(values, level[2 * pair + 1]);
        let on = bit_value(
            values,
            address_pin(state.bits, place.memory.port.read_address@, 0, select as int),
        );
        lemma_mux_drives(a, b, on);
    }
}

/// A read mux tree drives the bit that the address selects.
pub proof fn law_read_muxes_select(
    values: spec_fn(u32) -> bool,
    state: EmitterModel,
    place: MuxPlace,
    level: Seq<Bit>,
    select: nat,
    width: nat,
)
    requires
        cells_agree(values, mux_tree(state, place, level, select).cells),
        1 < level.len() <= assignments(width),
        address_value(
            values,
            state.bits,
            place.memory.port.read_address@,
            select as int,
            width,
        ) < level.len(),
    ensures
        values(net_wire(place.memory.port.read_data@[4 * place.chunk as int + place.bit]))
            == bit_value(
            values,
            level[address_value(
                values,
                state.bits,
                place.memory.port.read_address@,
                select as int,
                width,
            ) as int],
        ),
    decreases width,
{
    let address = place.memory.port.read_address@;
    let at = address_value(values, state.bits, address, select as int, width) as int;
    let count = parts(level.len() as int, 2) as nat;
    let next = level_muxes(state, place, level, select, count);
    assert(width > 0);
    let on = bit_value(values, address_pin(state.bits, address, 0, select as int));
    let rest = address_value(
        values,
        state.bits,
        address,
        select as int + 1,
        (width - 1) as nat,
    ) as int;
    assert(at == one_if(on) + 2 * rest);
    lemma_level_append(state, place, level, select, count);
    lemma_tree_append(next.state, place, next.level, select + 1);
    let after = mux_tree(next.state, place, next.level, select + 1);
    assert forall|i: int| 0 <= i < next.state.cells.len() implies cell_agrees(
        values,
        #[trigger] next.state.cells[i],
    ) by {
        assert(cell_agrees(values, after.cells[i]));
    }
    lemma_level_selects(values, state, place, level, select, count, rest);
    if next.level.len() > 1 {
        law_read_muxes_select(
            values,
            next.state,
            place,
            next.level,
            select + 1,
            (width - 1) as nat,
        );
    }
}

proof fn lemma_reads_select(
    values: spec_fn(u32) -> bool,
    state: EmitterModel,
    memory: MemoryCell,
    wires: Seq<Seq<Seq<u32>>>,
    count: nat,
    index: int,
)
    requires
        cells_agree(values, read_muxes(state, memory, wires, count).cells),
        0 <= index < count,
        1 < wires.len() <= 8,
        address_value(values, state.bits, memory.port.read_address@, 4, 3) < wires.len(),
    ensures
        values(net_wire(memory.port.read_data@[index])) == values(
            wires[address_value(
                values,
                state.bits,
                memory.port.read_address@,
                4,
                3,
            ) as int][index / 4][index % 4],
        ),
    decreases count,
{
    let last = (count - 1) as nat;
    lemma_reads_append(state, memory, wires, last);
    let rest = read_muxes(state, memory, wires, last);
    let place = MuxPlace { memory, chunk: last / 4, bit: last % 4 };
    let level = bank_bits(wires, last / 4, last % 4);
    lemma_tree_append(rest, place, level, 4);
    let after = read_muxes(state, memory, wires, count);
    if index < last {
        assert forall|i: int| 0 <= i < rest.cells.len() implies cell_agrees(
            values,
            #[trigger] rest.cells[i],
        ) by {
            assert(cell_agrees(values, after.cells[i]));
        }
        lemma_reads_select(values, state, memory, wires, last, index);
    } else {
        reveal_with_fuel(assignments, 4);
        law_read_muxes_select(values, rest, place, level, 4, 3);
        assert(4 * (last / 4) + last % 4 == last);
    }
}

/// The bank that a read comes from.
pub open spec fn read_bank(
    values: spec_fn(u32) -> bool,
    bits: Seq<Option<Bit>>,
    memory: MemoryCell,
    banks: nat,
) -> nat {
    if banks == 1 {
        0
    } else {
        address_value(values, bits, memory.port.read_address@, 4, 3)
    }
}

/// What a distributed memory holds in a bank at an address, bit by bit.
pub open spec fn word_bit(
    held: spec_fn(Seq<char>, nat, int) -> bool,
    memory: MemoryCell,
    bank: nat,
    address: nat,
    index: int,
) -> bool {
    held(dpram_name(memory.name@, bank, (index / 4) as nat), address, index % 4)
}

/// A distributed memory drives the word at its read address, and holds after an edge
/// of its port's clock the written word at the write address, and what it held
/// elsewhere and where the clock has no edge.
pub proof fn law_distributed_memory_stores(
    values: spec_fn(u32) -> bool,
    after: spec_fn(u32) -> bool,
    held: spec_fn(Seq<char>, nat, int) -> bool,
    next: spec_fn(Seq<char>, nat, int) -> bool,
    state: EmitterModel,
    memory: MemoryCell,
    index: int,
    bank: nat,
    address: nat,
)
    requires
        0 < memory.depth <= 128,
        memory.port.read_data@.len() == memory.port.write_data@.len(),
        0 <= index < memory.port.read_data@.len(),
        bank < parts(memory.depth as int, 16),
        cells_agree(values, distributed_mapped(state, memory).cells),
        tiles_work(values, after, held, next, distributed_mapped(state, memory).cells),
        read_bank(values, state.bits, memory, parts(memory.depth as int, 16) as nat) < parts(
            memory.depth as int,
            16,
        ),
    ensures
        values(net_wire(memory.port.read_data@[index])) == word_bit(
            held,
            memory,
            read_bank(values, state.bits, memory, parts(memory.depth as int, 16) as nat),
            address_value(values, state.bits, memory.port.read_address@, 0, 4),
            index,
        ),
        word_bit(next, memory, bank, address, index) == if is_stored(
            values,
            after,
            state.bits,
            memory,
            parts(memory.depth as int, 16) as nat,
            bank,
        ) && address == address_value(values, state.bits, memory.port.write_address@, 0, 4) {
            bit_value(
                values,
                bit_of(state.bits, memory.port.write_data@[index]),
            )
        } else {
            word_bit(held, memory, bank, address, index)
        },
{
    let banks = parts(memory.depth as int, 16) as nat;
    let chunks = parts(memory.port.write_data@.len() as int, 4) as nat;
    let made = banks_made(state, memory, banks, banks);
    let done = distributed_mapped(state, memory);
    let count = memory.port.read_data@.len();
    let chunk = index / 4;
    let b = index % 4;
    assert(1 <= banks <= 8);
    assert(0 <= chunk < chunks);
    lemma_banks_append(state, memory, banks, banks);
    if banks > 1 {
        lemma_reads_append(made.state, memory, made.wires, count);
        lemma_prefix_works(values, after, held, next, made.state, done);
    }
    lemma_banks_store(values, after, held, next, state, memory, banks, banks);
    let from = read_bank(values, state.bits, memory, banks) as int;
    assert(bank_stores(
        values,
        after,
        held,
        next,
        state.bits,
        memory,
        is_stored(values, after, state.bits, memory, banks, from as nat),
        from as nat,
        chunks,
        made.wires[from],
    ));
    assert(tile_stores(
        values,
        after,
        held,
        next,
        state.bits,
        memory,
        is_stored(values, after, state.bits, memory, banks, from as nat),
        from as nat,
        chunk as nat,
        made.wires[from][chunk],
    ));
    let read = made.wires[from][chunk][b];
    assert(values(read) == held(
        dpram_name(memory.name@, from as nat, chunk as nat),
        address_value(values, state.bits, memory.port.read_address@, 0, 4),
        b,
    ));
    assert(4 * chunk + b == index);
    if banks > 1 {
        lemma_reads_select(values, made.state, memory, made.wires, count, index);
    } else {
        assert(made.wires[0][chunk][b] == net_wire(memory.port.read_data@[4 * chunk + b]));
    }
    assert(bank_stores(
        values,
        after,
        held,
        next,
        state.bits,
        memory,
        is_stored(values, after, state.bits, memory, banks, bank),
        bank,
        chunks,
        made.wires[bank as int],
    ));
    assert(tile_stores(
        values,
        after,
        held,
        next,
        state.bits,
        memory,
        is_stored(values, after, state.bits, memory, banks, bank),
        bank,
        chunk as nat,
        made.wires[bank as int][chunk],
    ));
    let name = dpram_name(memory.name@, bank, chunk as nat);
    assert(next(name, address, b) == if is_stored(values, after, state.bits, memory, banks, bank)
        && address == address_value(values, state.bits, memory.port.write_address@, 0, 4) {
        bit_value(values, data_bit(state.bits, memory.port.write_data@, 4 * chunk + b))
    } else {
        held(name, address, b)
    });
}

/// A read gives back what was written: where a word is written before a clock
/// edge and read from the same address after it, the read data is that word.
pub proof fn law_read_gives_back_write(
    before: spec_fn(u32) -> bool,
    after: spec_fn(u32) -> bool,
    last: spec_fn(u32) -> bool,
    held: spec_fn(Seq<char>, nat, int) -> bool,
    next: spec_fn(Seq<char>, nat, int) -> bool,
    later: spec_fn(Seq<char>, nat, int) -> bool,
    state: EmitterModel,
    memory: MemoryCell,
    index: int,
)
    requires
        0 < memory.depth <= 128,
        memory.port.read_data@.len() == memory.port.write_data@.len(),
        0 <= index < memory.port.read_data@.len(),
        cells_agree(before, distributed_mapped(state, memory).cells),
        tiles_work(before, after, held, next, distributed_mapped(state, memory).cells),
        cells_agree(after, distributed_mapped(state, memory).cells),
        tiles_work(after, last, next, later, distributed_mapped(state, memory).cells),
        ({
            let banks = parts(memory.depth as int, 16) as nat;
            let bank = read_bank(after, state.bits, memory, banks);
            &&& bank < banks
            &&& read_bank(before, state.bits, memory, banks) < banks
            &&& is_stored(before, after, state.bits, memory, banks, bank)
            &&& address_value(before, state.bits, memory.port.write_address@, 0, 4)
                == address_value(after, state.bits, memory.port.read_address@, 0, 4)
        }),
    ensures
        after(net_wire(memory.port.read_data@[index])) == bit_value(
            before,
            bit_of(state.bits, memory.port.write_data@[index]),
        ),
{
    let banks = parts(memory.depth as int, 16) as nat;
    let bank = read_bank(after, state.bits, memory, banks);
    let address = address_value(after, state.bits, memory.port.read_address@, 0, 4);
    law_distributed_memory_stores(
        before,
        after,
        held,
        next,
        state,
        memory,
        index,
        bank,
        address,
    );
    law_distributed_memory_stores(after, last, next, later, state, memory, index, bank, address);
}

} // verus!
