//! Flip-flops laid out on wires.

use vstd::prelude::*;

use crate::appended::appends;
use crate::appended::lemma_appends;
use crate::cells::cell_inputs;
use crate::cells::cell_outputs;
use crate::cells::Bit;
use crate::cells::CellModel;
use crate::demand::constant_output;
use crate::emit::bit_of;
use crate::emit::wire_taken;
use crate::emit::with_cell;
use crate::emit::EmitterModel;
use crate::ir::net_wire;
use crate::ir::readable;
use crate::ir::register_is_valid;
use crate::ir::register_reads;
use crate::ir::MAX_NODES;
use crate::ir::NetId;
use crate::ir::Netlist;
use crate::ir::Node;
use crate::ir::RegisterCell;
use crate::laid::bit_known;
use crate::laid::ground_of;
use crate::laid::is_allowed;
use crate::laid::is_emitted;
use crate::laid::is_known;
use crate::laid::is_laid;
use crate::laid::is_sound_cell;
use crate::laid::is_undriven;
use crate::laid::lemma_laid_push;
use crate::laid::lemma_more_ground;
use crate::laid::lemma_not_allowed;
use crate::laid::owners;
use crate::laid_cells::lemma_bit_stays;
use crate::mapping::flip_flop;
use crate::mapping::flip_flops_added;
use crate::mapping::present_bits;
use crate::mapping::renewed;
use crate::netlist::cells_outputs;
use crate::netlist::largest_wire;
use crate::netlist::lemma_cell_output;
use crate::netlist::lemma_largest_wire;
use crate::shown::drives;
use crate::shown::lemma_from_output;
use crate::shown::reads;
use crate::wired_logic::has_one_source;
use crate::wired_logic::sources_of;

verus! {

/// Whether a register or a memory drives `net`.
pub open spec fn is_pending(nodes: Seq<Node>, net: int) -> bool {
    0 <= net < nodes.len() && (nodes[net].kind is RegisterOutput
        || nodes[net].kind is MemoryOutput)
}

/// Whether `net` is an input, or a register or a memory drives it.
pub open spec fn is_source(nodes: Seq<Node>, net: int) -> bool {
    is_pending(nodes, net) || (0 <= net < nodes.len() && nodes[net].kind is Input)
}

/// The nets whose wires may be driven once `done` of those of registers and memories
/// are.
pub open spec fn holders(nodes: Seq<Node>, done: spec_fn(int) -> bool) -> spec_fn(int) -> bool {
    |n: int| !is_source(nodes, n) || done(n)
}

/// Whether what has been emitted is laid out, with `done` of the nets of registers and
/// memories driven.
pub open spec fn is_placed(
    nodes: Seq<Node>,
    state: EmitterModel,
    base: int,
    done: spec_fn(int) -> bool,
    expected: spec_fn(int) -> bool,
) -> bool {
    &&& nodes.len() <= MAX_NODES
    &&& state.bits.len() == nodes.len()
    &&& !state.exhausted
    &&& is_laid(state.cells, ground_of(state, base, holders(nodes, done), expected))
    &&& forall|n: int|
        0 <= n < nodes.len() ==> ((#[trigger] state.bits[n]) matches Some(bit) ==> bit_known(
            state.cells,
            expected,
            bit,
        ))
    &&& forall|n: int| #[trigger]
        done(n) ==> is_pending(nodes, n) && exists|j: int|
            0 <= j < state.cells.len() && #[trigger] drives(state.cells[j], (n + 2) as u32)
}

/// Whether a wire is that of a net of a register or memory among `more`, or a new one,
/// and not driven.
pub open spec fn is_vacant(
    nodes: Seq<Node>,
    state: EmitterModel,
    base: int,
    more: spec_fn(int) -> bool,
    wire: u32,
) -> bool {
    &&& is_undriven(state.cells, wire)
    &&& (2 <= wire < base && is_pending(nodes, wire - 2) && more(wire - 2)) || (2 <= base
        <= wire < state.next_wire)
}

/// Whether the bits are known.
pub open spec fn all_known(
    cells: Seq<CellModel>,
    expected: spec_fn(int) -> bool,
    bits: Seq<Bit>,
) -> bool {
    forall|k: int| 0 <= k < bits.len() ==> bit_known(cells, expected, #[trigger] bits[k])
}

/// Known bits joined are known.
pub proof fn lemma_known_joined(
    cells: Seq<CellModel>,
    expected: spec_fn(int) -> bool,
    a: Seq<Bit>,
    b: Seq<Bit>,
)
    requires
        all_known(cells, expected, a),
        all_known(cells, expected, b),
    ensures
        all_known(cells, expected, a + b),
{
    let both = a + b;
    assert forall|k: int| 0 <= k < both.len() implies bit_known(
        cells,
        expected,
        #[trigger] both[k],
    ) by {
        if k < a.len() {
            assert(both[k] == a[k]);
        } else {
            assert(both[k] == b[k - a.len()]);
        }
    }
}

/// One more cell.
pub proof fn lemma_cell_placed(
    nodes: Seq<Node>,
    state: EmitterModel,
    base: int,
    cell: CellModel,
    done: spec_fn(int) -> bool,
    more: spec_fn(int) -> bool,
    expected: spec_fn(int) -> bool,
)
    requires
        is_placed(nodes, state, base, done, expected),
        is_sound_cell(cell),
        forall|wire: u32| #[trigger]
            drives(cell, wire) ==> is_vacant(nodes, state, base, more, wire),
        all_known(state.cells, expected, cell_inputs(cell)),
        forall|n: int| #[trigger] done(n) ==> more(n),
        forall|n: int| #[trigger]
            more(n) && !done(n) ==> is_pending(nodes, n) && drives(cell, (n + 2) as u32),
    ensures
        is_placed(nodes, with_cell(state, cell), base, more, expected),
{
    let after = with_cell(state, cell);
    let owned = holders(nodes, more);
    let ground = ground_of(state, base, owned, expected);
    lemma_more_ground(
        state.cells,
        ground_of(state, base, holders(nodes, done), expected),
        ground,
    );
    assert forall|wire: u32| #[trigger] drives(cell, wire) implies is_allowed(ground, wire)
        && is_undriven(state.cells, wire) by {
        assert(is_vacant(nodes, state, base, more, wire));
    }
    assert forall|wire: u32| #[trigger] reads(cell, wire) implies is_known(
        state.cells,
        expected,
        wire,
    ) by {
        let bits = cell_inputs(cell);
        let k = choose|k: int| 0 <= k < bits.len() && bits[k] == Bit::Wire(wire);
        assert(bit_known(state.cells, expected, bits[k]));
    }
    lemma_laid_push(state.cells, ground, cell);
    assert(ground_of(after, base, owned, expected) == ground);
    assert forall|n: int| 0 <= n < nodes.len() implies ((
    #[trigger] after.bits[n]) matches Some(bit) ==> bit_known(after.cells, expected, bit)) by {
        if let Some(bit) = state.bits[n] {
            lemma_bit_stays(state.cells, after.cells, expected, bit);
        }
    }
    assert forall|n: int| #[trigger] more(n) implies is_pending(nodes, n) && exists|j: int|
        0 <= j < after.cells.len() && #[trigger] drives(after.cells[j], (n + 2) as u32) by {
        if done(n) {
            let j = choose|j: int|
                0 <= j < state.cells.len() && #[trigger] drives(state.cells[j], (n + 2) as u32);
            assert(after.cells[j] == state.cells[j]);
        } else {
            assert(after.cells[state.cells.len() as int] == cell);
        }
    }
}

/// A wire is taken.
pub proof fn lemma_taken_placed(
    nodes: Seq<Node>,
    state: EmitterModel,
    base: int,
    done: spec_fn(int) -> bool,
    expected: spec_fn(int) -> bool,
)
    requires
        is_placed(nodes, state, base, done, expected),
        !wire_taken(state).exhausted,
    ensures
        is_placed(nodes, wire_taken(state), base, done, expected),
        is_undriven(state.cells, state.next_wire),
        wire_taken(state).next_wire == state.next_wire + 1,
        base <= state.next_wire,
{
    let owned = holders(nodes, done);
    lemma_not_allowed(state.cells, ground_of(state, base, owned, expected), state.next_wire);
    lemma_more_ground(
        state.cells,
        ground_of(state, base, owned, expected),
        ground_of(wire_taken(state), base, owned, expected),
    );
}

/// The wire of a net of a register or a memory that is not driven yet is not driven.
pub proof fn lemma_vacant_net(
    nodes: Seq<Node>,
    state: EmitterModel,
    base: int,
    net: NetId,
    done: spec_fn(int) -> bool,
    expected: spec_fn(int) -> bool,
)
    requires
        is_placed(nodes, state, base, done, expected),
        is_pending(nodes, net as int),
        net + 2 < base,
        !done(net as int),
    ensures
        is_undriven(state.cells, net_wire(net)),
        net_wire(net) == net + 2,
{
    lemma_not_allowed(
        state.cells,
        ground_of(state, base, holders(nodes, done), expected),
        net_wire(net),
    );
}

/// The bit of a net is known.
pub proof fn lemma_placed_bit(
    nodes: Seq<Node>,
    state: EmitterModel,
    base: int,
    done: spec_fn(int) -> bool,
    expected: spec_fn(int) -> bool,
    net: NetId,
)
    requires
        is_placed(nodes, state, base, done, expected),
        net < nodes.len(),
    ensures
        bit_known(state.cells, expected, bit_of(state.bits, net)),
{
    assert(state.bits[net as int] is Some || bit_of(state.bits, net) == Bit::Zero);
}

/// A lookup table with known pins on a wire that nothing drives.
pub proof fn lemma_table_placed(
    nodes: Seq<Node>,
    state: EmitterModel,
    base: int,
    cell: CellModel,
    done: spec_fn(int) -> bool,
    more: spec_fn(int) -> bool,
    expected: spec_fn(int) -> bool,
)
    requires
        is_placed(nodes, state, base, done, expected),
        cell is Lut4,
        is_vacant(nodes, state, base, more, cell->Lut4_output),
        forall|k: int|
            0 <= k < 4 ==> bit_known(state.cells, expected, #[trigger] cell->Lut4_inputs[k]),
        forall|n: int| #[trigger] done(n) ==> more(n),
        forall|n: int| #[trigger]
            more(n) && !done(n) ==> is_pending(nodes, n) && cell->Lut4_output == n + 2,
    ensures
        is_placed(nodes, with_cell(state, cell), base, more, expected),
        is_known(with_cell(state, cell).cells, expected, cell->Lut4_output),
{
    let output = cell->Lut4_output;
    assert(cell_outputs(cell)[0] == Bit::Wire(output));
    assert(drives(cell, output));
    let pins = cell_inputs(cell);
    assert forall|k: int| 0 <= k < pins.len() implies bit_known(
        state.cells,
        expected,
        #[trigger] pins[k],
    ) by {
        assert(pins[k] == cell->Lut4_inputs[k]);
    }
    lemma_cell_placed(nodes, state, base, cell, done, more, expected);
    assert(with_cell(state, cell).cells[state.cells.len() as int] == cell);
}

proof fn lemma_present(bits: Seq<Option<Bit>>, n: int)
    requires
        0 <= n < bits.len(),
        bits[n] is Some,
    ensures
        present_bits(bits).contains(bits[n]->0),
    decreases bits.len(),
{
    let rest = present_bits(bits.drop_last());
    let all = present_bits(bits);
    if n < bits.len() - 1 {
        assert(bits.drop_last()[n] == bits[n]);
        lemma_present(bits.drop_last(), n);
        let k = choose|k: int| 0 <= k < rest.len() && rest[k] == bits[n]->0;
        assert(all[k] == bits[n]->0);
    } else {
        assert(bits.last() == bits[n]);
        assert(all[rest.len() as int] == bits[n]->0);
    }
}

/// New wires come after those in use.
pub proof fn lemma_renewed_placed(
    nodes: Seq<Node>,
    state: EmitterModel,
    done: spec_fn(int) -> bool,
    expected: spec_fn(int) -> bool,
)
    requires
        is_emitted(nodes, state, done, expected),
        forall|n: int| #[trigger] done(n) ==> !is_source(nodes, n),
        !renewed(state).exhausted,
    ensures
        is_placed(
            nodes,
            renewed(state),
            renewed(state).next_wire as int,
            |n: int| false,
            expected,
        ),
        2 <= renewed(state).next_wire,
        forall|n: int|
            0 <= n < nodes.len() && (#[trigger] state.bits[n]) == Some(Bit::Wire((n + 2) as u32))
                ==> n + 2 < renewed(state).next_wire,
{
    let after = renewed(state);
    let base = after.next_wire as int;
    let bits = present_bits(state.bits);
    let outputs = cells_outputs(state.cells);
    let all = bits + outputs;
    lemma_largest_wire(all);
    let none = |n: int| false;
    let ground = ground_of(after, base, holders(nodes, none), expected);
    let old_ground = ground_of(
        state,
        (nodes.len() + 2) as int,
        owners(nodes, state.bits, done),
        expected,
    );
    assert forall|i: int, wire: u32|
        0 <= i < state.cells.len() && #[trigger] drives(state.cells[i], wire) implies is_allowed(
        ground,
        wire,
    ) by {
        lemma_cell_output(state.cells, i, Bit::Wire(wire));
        let k = choose|k: int| 0 <= k < outputs.len() && outputs[k] == Bit::Wire(wire);
        assert(all[bits.len() + k] == Bit::Wire(wire));
        assert(all.contains(Bit::Wire(wire)));
        assert(is_allowed(old_ground, wire));
    }
    assert forall|n: int|
        0 <= n < nodes.len() && (#[trigger] state.bits[n]) == Some(
            Bit::Wire((n + 2) as u32),
        ) implies n + 2 < base by {
        lemma_present(state.bits, n);
        let wire = (n + 2) as u32;
        let k = choose|k: int| 0 <= k < bits.len() && bits[k] == Bit::Wire(wire);
        assert(all[k] == Bit::Wire(wire));
        assert(all.contains(Bit::Wire(wire)));
    }
    if let Some(wire) = largest_wire(all) {
        let k = choose|k: int| 0 <= k < all.len() && all[k] == Bit::Wire(wire);
        if k < bits.len() {
            let n = lemma_present_from(state.bits, k);
            assert(bit_known(state.cells, expected, bits[k]));
            if exists|j: int| 0 <= j < state.cells.len() && #[trigger] drives(
                state.cells[j],
                wire,
            ) {
                let j = choose|j: int|
                    0 <= j < state.cells.len() && #[trigger] drives(state.cells[j], wire);
                assert(is_allowed(old_ground, wire));
            }
        } else {
            let place = lemma_from_output(state.cells, k - bits.len());
            assert(drives(state.cells[place.0], wire));
            assert(is_allowed(old_ground, wire));
        }
    }
}

proof fn lemma_present_from(bits: Seq<Option<Bit>>, k: int) -> (n: int)
    requires
        0 <= k < present_bits(bits).len(),
    ensures
        0 <= n < bits.len(),
        bits[n] == Some(present_bits(bits)[k]),
    decreases bits.len(),
{
    let rest = present_bits(bits.drop_last());
    if k < rest.len() {
        let n = lemma_present_from(bits.drop_last(), k);
        assert(bits.drop_last()[n] == bits[n]);
        n
    } else {
        bits.len() - 1
    }
}

/// The registers that can change, among the first `count`.
pub open spec fn registers_done(netlist: Netlist, count: nat) -> spec_fn(int) -> bool {
    |n: int|
        exists|r: int|
            0 <= r < count && (#[trigger] netlist.registers@[r]).output == n && constant_output(
                netlist.nodes@,
                netlist.registers@,
                n as NetId,
            ) is None
}

/// The flip-flops of the first registers are laid out.
#[verifier::rlimit(40)]
pub proof fn lemma_flip_flops_placed(netlist: Netlist, state: EmitterModel, base: int, count: nat)
    requires
        netlist.is_valid(),
        has_one_source(netlist),
        is_placed(netlist.nodes@, state, base, |n: int| false, sources_of(netlist)),
        forall|n: int|
            is_pending(netlist.nodes@, n) && #[trigger] sources_of(netlist)(n) ==> n + 2 < base,
        count <= netlist.registers@.len(),
    ensures
        ({
            let after = flip_flops_added(netlist, state, netlist.registers@.take(count as int));
            &&& is_placed(
                netlist.nodes@,
                after,
                base,
                registers_done(netlist, count),
                sources_of(netlist),
            )
            &&& appends(state, after)
        }),
    decreases count,
{
    let nodes = netlist.nodes@;
    let expected = sources_of(netlist);
    let now = registers_done(netlist, count);
    let registers = netlist.registers@;
    if count == 0 {
        assert(now =~= (|n: int| false));
    } else {
        let last = (count - 1) as nat;
        lemma_flip_flops_placed(netlist, state, base, last);
        let taken = registers.take(count as int);
        assert(taken.drop_last() =~= registers.take(last as int));
        let register = registers[last as int];
        assert(taken.last() == register);
        let rest = flip_flops_added(netlist, state, registers.take(last as int));
        let after = flip_flops_added(netlist, state, taken);
        let before = registers_done(netlist, last);
        let output = register.output;
        assert(register_is_valid(nodes, register));
        let constant = constant_output(nodes, registers, output) is Some;
        assert forall|n: int| #[trigger] now(n) == (before(n) || (!constant && n == output)) by {
            if now(n) {
                let r = choose|r: int| 0 <= r < count && (#[trigger] registers[r]).output == n;
                assert(r < last || n == output);
            }
            if before(n) {
                let r = choose|r: int| 0 <= r < last && (#[trigger] registers[r]).output == n;
                assert(registers[r].output == n);
            }
            if n == output {
                assert(registers[last as int].output == n);
            }
        }
        if constant {
            assert(now =~= before);
        } else {
            let cell = flip_flop(state.bits, register);
            assert(!before(output as int)) by {
                if before(output as int) {
                    let r = choose|r: int|
                        0 <= r < last && (#[trigger] registers[r]).output == output as int;
                    assert(registers[r].output == registers[last as int].output);
                }
            }
            assert(expected(output as int));
            lemma_vacant_net(nodes, rest, base, output, before, expected);
            assert(cell_outputs(cell)[0] == Bit::Wire(net_wire(output)));
            assert(drives(cell, net_wire(output)));
            let pins = cell_inputs(cell);
            let nets = register_reads(register);
            assert forall|k: int| 0 <= k < pins.len() implies bit_known(
                rest.cells,
                expected,
                #[trigger] pins[k],
            ) by {
                assert(register.data < nodes.len() && register.clock < nodes.len() && (
                register.enable matches Some(e) ==> e.signal < nodes.len()) && (
                register.reset matches Some(e) ==> e.signal < nodes.len())) by {
                    lemma_register(nodes, register);
                }
                lemma_placed_bit(nodes, rest, base, before, expected, register.data);
                lemma_placed_bit(nodes, rest, base, before, expected, register.clock);
                if let Some(e) = register.enable {
                    lemma_placed_bit(nodes, rest, base, before, expected, e.signal);
                }
                if let Some(e) = register.reset {
                    lemma_placed_bit(nodes, rest, base, before, expected, e.signal);
                }
            }
            lemma_cell_placed(nodes, rest, base, cell, before, now, expected);
            lemma_appends(state, rest, after);
        }
    }
}

proof fn lemma_register(nodes: Seq<Node>, register: RegisterCell)
    requires
        register_is_valid(nodes, register),
    ensures
        register.data < nodes.len(),
        register.clock < nodes.len(),
        register.enable matches Some(e) ==> e.signal < nodes.len(),
        register.reset matches Some(e) ==> e.signal < nodes.len(),
{
    let nets = register_reads(register);
    assert forall|k: int| 0 <= k < nets.len() implies (#[trigger] nets[k]) < nodes.len() by {
        assert(readable(nodes, nets[k]));
    }
    assert(nets[0] == register.data);
    assert(nets[1] == register.clock);
    if let Some(e) = register.enable {
        assert(nets[2] == e.signal);
    }
    if let Some(e) = register.reset {
        assert(nets[nets.len() - 1] == e.signal);
    }
}

} // verus!
