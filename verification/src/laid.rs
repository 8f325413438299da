//! Cells laid out on wires: what emission drives, once each.

use vstd::prelude::*;

use crate::cells::cell_inputs;
use crate::cells::cell_outputs;
use crate::cells::Bit;
use crate::cells::CellModel;
use crate::cover::plan_is_sound;
use crate::cover::plans_are_sound;
use crate::cuts::truth_table;
use crate::cuts::LUT_INPUTS;
use crate::emit::bit_of;
use crate::emit::bits_of;
use crate::emit::high_half;
use crate::emit::leaves_mapped;
use crate::emit::low_half;
use crate::emit::net_mapped;
use crate::emit::pin_of;
use crate::emit::wire_taken;
use crate::emit::with_alias;
use crate::emit::with_function;
use crate::emit::EmitterModel;
use crate::ir::is_gate;
use crate::ir::net_wire;
use crate::ir::NetId;
use crate::ir::Node;
use crate::ir::MAX_NODES;
use crate::plans::PlanModel;
use crate::shown::drivers_apart;
use crate::shown::drives;
use crate::shown::drives_apart;
use crate::shown::is_box;
use crate::shown::reads;
use crate::text::begins_with;
use crate::text::decimal_text;

verus! {

/// Whether no cell drives `wire`.
pub open spec fn is_undriven(cells: Seq<CellModel>, wire: u32) -> bool {
    forall|i: int| 0 <= i < cells.len() ==> !#[trigger] drives(cells[i], wire)
}

/// Whether a cell drives `wire`, or the source of the net behind it will.
pub open spec fn is_known(
    cells: Seq<CellModel>,
    expected: spec_fn(int) -> bool,
    wire: u32,
) -> bool {
    (exists|j: int| 0 <= j < cells.len() && #[trigger] drives(cells[j], wire)) || (wire >= 2
        && expected(wire - 2))
}

/// Whether a bit is a constant or on a wire that is known.
pub open spec fn bit_known(
    cells: Seq<CellModel>,
    expected: spec_fn(int) -> bool,
    bit: Bit,
) -> bool {
    bit matches Bit::Wire(wire) ==> is_known(cells, expected, wire)
}

/// Where wires lie: those below `base` belong to nets, of which `owned` may be driven,
/// and those from `base` up to `next` are new.
pub ghost struct Ground {
    pub base: int,
    pub next: int,
    pub owned: spec_fn(int) -> bool,
    pub expected: spec_fn(int) -> bool,
}

/// Whether a cell drives something and bears no name of a moved cell if it is a box.
pub open spec fn is_sound_cell(cell: CellModel) -> bool {
    &&& cell_outputs(cell).len() > 0
    &&& drives_apart(cell)
    &&& is_box(cell) ==> !begins_with(cell.cell_name(), "retime_"@)
}

/// Whether a wire may be driven.
pub open spec fn is_allowed(ground: Ground, wire: u32) -> bool {
    &&& wire >= 2
    &&& wire < ground.base ==> (ground.owned)(wire - 2)
    &&& wire >= ground.base ==> wire < ground.next
}

/// Whether cells are laid out on the ground.
pub open spec fn is_laid(cells: Seq<CellModel>, ground: Ground) -> bool {
    &&& ground.base <= ground.next
    &&& drivers_apart(cells)
    &&& forall|i: int| 0 <= i < cells.len() ==> is_sound_cell(#[trigger] cells[i])
    &&& forall|i: int, wire: u32|
        0 <= i < cells.len() && #[trigger] drives(cells[i], wire) ==> is_allowed(ground, wire)
    &&& forall|i: int, wire: u32|
        0 <= i < cells.len() && #[trigger] reads(cells[i], wire) ==> is_known(
            cells,
            ground.expected,
            wire,
        )
}

/// More ground lies under the same cells.
pub proof fn lemma_more_ground(cells: Seq<CellModel>, ground: Ground, more: Ground)
    requires
        is_laid(cells, ground),
        more.base == ground.base,
        more.next >= ground.next,
        more.expected == ground.expected,
        forall|n: int| #[trigger] (ground.owned)(n) ==> (more.owned)(n),
    ensures
        is_laid(cells, more),
{
    assert forall|i: int, wire: u32|
        0 <= i < cells.len() && #[trigger] drives(cells[i], wire) implies is_allowed(
        more,
        wire,
    ) by {
        assert(is_allowed(ground, wire));
    }
}

/// A wire that may not be driven is not.
pub proof fn lemma_not_allowed(cells: Seq<CellModel>, ground: Ground, wire: u32)
    requires
        is_laid(cells, ground),
        !is_allowed(ground, wire),
    ensures
        is_undriven(cells, wire),
{
}

/// One more cell on wires that nothing drives.
pub proof fn lemma_laid_push(
    cells: Seq<CellModel>,
    ground: Ground,
    cell: CellModel,
)
    requires
        is_laid(cells, ground),
        is_sound_cell(cell),
        forall|wire: u32| #[trigger]
            drives(cell, wire) ==> is_allowed(ground, wire) && is_undriven(cells, wire),
        forall|wire: u32| #[trigger]
            reads(cell, wire) ==> is_known(cells, ground.expected, wire),
    ensures
        is_laid(cells.push(cell), ground),
{
    let after = cells.push(cell);
    let n = cells.len() as int;
    assert forall|i: int| 0 <= i < after.len() implies is_sound_cell(
        #[trigger] after[i],
    ) && drives_apart(after[i]) by {
        if i < n {
            assert(is_sound_cell(cells[i]));
        }
    }
    assert forall|i: int, j: int, wire: u32|
        0 <= i < after.len() && 0 <= j < after.len() && #[trigger] drives(after[i], wire)
            && #[trigger] drives(after[j], wire) implies i == j by {
        if i < n && j < n {
            assert(drives(cells[i], wire) && drives(cells[j], wire));
        } else if i < n {
            assert(drives(cells[i], wire));
            assert(drives(cell, wire));
        } else if j < n {
            assert(drives(cells[j], wire));
            assert(drives(cell, wire));
        }
    }
    assert forall|i: int, wire: u32|
        0 <= i < after.len() && #[trigger] drives(after[i], wire) implies is_allowed(
        ground,
        wire,
    ) by {
        if i < n {
            assert(drives(cells[i], wire));
        }
    }
    assert forall|i: int, wire: u32|
        0 <= i < after.len() && #[trigger] reads(after[i], wire) implies is_known(
        after,
        ground.expected,
        wire,
    ) by {
        if i < n {
            assert(reads(cells[i], wire));
        }
        lemma_known_grows(cells, after, ground.expected, wire);
    }
}

/// Whether `after` begins with `before`.
pub open spec fn begins_so(before: Seq<CellModel>, after: Seq<CellModel>) -> bool {
    before.len() <= after.len() && forall|i: int|
        0 <= i < before.len() ==> (#[trigger] after[i]) == before[i]
}

/// What is known stays known.
pub proof fn lemma_known_grows(
    before: Seq<CellModel>,
    after: Seq<CellModel>,
    expected: spec_fn(int) -> bool,
    wire: u32,
)
    requires
        is_known(before, expected, wire),
        begins_so(before, after),
    ensures
        is_known(after, expected, wire),
{
    if exists|j: int| 0 <= j < before.len() && #[trigger] drives(before[j], wire) {
        let j = choose|j: int| 0 <= j < before.len() && #[trigger] drives(before[j], wire);
        assert(drives(after[j], wire));
    }
}

/// Emission never recovers from running out of wires.
pub proof fn lemma_function_exhausted(
    state: EmitterModel,
    name: Seq<char>,
    inputs: Seq<Bit>,
    output: u32,
    truth: u128,
)
    ensures
        state.exhausted ==> with_function(state, name, inputs, output, truth).exhausted,
        with_function(state, name, inputs, output, truth).bits == state.bits,
    decreases inputs.len(),
{
    if inputs.len() > LUT_INPUTS {
        let start = wire_taken(wire_taken(state));
        let zero = state.next_wire;
        let one = wire_taken(state).next_wire;
        lemma_function_exhausted(
            start,
            name + "_wide0"@,
            inputs.drop_last(),
            zero,
            low_half(truth, inputs.len()),
        );
        let low = with_function(
            start,
            name + "_wide0"@,
            inputs.drop_last(),
            zero,
            low_half(truth, inputs.len()),
        );
        lemma_function_exhausted(
            low,
            name + "_wide1"@,
            inputs.drop_last(),
            one,
            high_half(truth, inputs.len()),
        );
    }
}

/// The ground under a state.
pub open spec fn ground_of(
    state: EmitterModel,
    base: int,
    owned: spec_fn(int) -> bool,
    expected: spec_fn(int) -> bool,
) -> Ground {
    Ground { base, next: state.next_wire as int, owned, expected }
}

/// A cell with known pins on one wire that nothing drives.
proof fn lemma_one_output(
    cells: Seq<CellModel>,
    ground: Ground,
    cell: CellModel,
    output: u32,
)
    requires
        is_laid(cells, ground),
        !is_box(cell),
        cell_outputs(cell) == seq![Bit::Wire(output)],
        is_allowed(ground, output),
        is_undriven(cells, output),
        forall|k: int|
            0 <= k < cell_inputs(cell).len() ==> bit_known(
                cells,
                ground.expected,
                #[trigger] cell_inputs(cell)[k],
            ),
    ensures
        is_laid(cells.push(cell), ground),
        drives(cell, output),
        forall|wire: u32| #[trigger] drives(cell, wire) ==> wire == output,
{
    let bits = cell_inputs(cell);
    assert(cell_outputs(cell)[0] == Bit::Wire(output));
    assert forall|wire: u32| #[trigger] reads(cell, wire) implies is_known(
        cells,
        ground.expected,
        wire,
    ) by {
        let k = choose|k: int| 0 <= k < bits.len() && bits[k] == Bit::Wire(wire);
        assert(bit_known(cells, ground.expected, cell_inputs(cell)[k]));
    }
    lemma_laid_push(cells, ground, cell);
}

#[verifier::rlimit(60)]
proof fn lemma_function_laid(
    state: EmitterModel,
    name: Seq<char>,
    inputs: Seq<Bit>,
    output: u32,
    truth: u128,
    base: int,
    owned: spec_fn(int) -> bool,
    expected: spec_fn(int) -> bool,
)
    requires
        is_laid(state.cells, ground_of(state, base, owned, expected)),
        !with_function(state, name, inputs, output, truth).exhausted,
        forall|k: int|
            0 <= k < inputs.len() ==> bit_known(state.cells, expected, #[trigger] inputs[k]),
        is_allowed(ground_of(state, base, owned, expected), output),
        is_undriven(state.cells, output),
    ensures
        ({
            let after = with_function(state, name, inputs, output, truth);
            &&& is_laid(after.cells, ground_of(after, base, owned, expected))
            &&& state.next_wire <= after.next_wire
            &&& begins_so(state.cells, after.cells)
            &&& forall|i: int, wire: u32|
                state.cells.len() <= i < after.cells.len() && #[trigger] drives(
                    after.cells[i],
                    wire,
                ) ==> wire == output || wire >= state.next_wire
            &&& after.cells.len() > 0
            &&& drives(after.cells[after.cells.len() - 1], output)
        }),
    decreases inputs.len(),
{
    let after = with_function(state, name, inputs, output, truth);
    let ground = ground_of(state, base, owned, expected);
    if inputs.len() <= LUT_INPUTS {
        let cell = after.cells[after.cells.len() - 1];
        assert(cell_outputs(cell) =~= seq![Bit::Wire(output)]);
        assert forall|k: int| 0 <= k < cell_inputs(cell).len() implies bit_known(
            state.cells,
            expected,
            #[trigger] cell_inputs(cell)[k],
        ) by {
            assert(cell_inputs(cell)[k] == pin_of(inputs, k)) by {
                assert(k == 0 || k == 1 || k == 2 || k == 3);
            }
        }
        lemma_one_output(state.cells, ground, cell, output);
    } else {
        let zero = state.next_wire;
        let after_zero = wire_taken(state);
        let one = after_zero.next_wire;
        let start = wire_taken(after_zero);
        let rest = inputs.drop_last();
        let low_truth = low_half(truth, inputs.len());
        let high_truth = high_half(truth, inputs.len());
        let low = with_function(start, name + "_wide0"@, rest, zero, low_truth);
        let high = with_function(low, name + "_wide1"@, rest, one, high_truth);
        lemma_function_exhausted(start, name + "_wide0"@, rest, zero, low_truth);
        lemma_function_exhausted(low, name + "_wide1"@, rest, one, high_truth);
        assert(!high.exhausted && !low.exhausted && !start.exhausted);
        lemma_more_ground(state.cells, ground, ground_of(start, base, owned, expected));
        lemma_not_allowed(state.cells, ground, zero);
        lemma_not_allowed(state.cells, ground, one);
        assert forall|k: int| 0 <= k < rest.len() implies bit_known(
            start.cells,
            expected,
            #[trigger] rest[k],
        ) by {
            assert(rest[k] == inputs[k]);
        }
        lemma_function_laid(
            start,
            name + "_wide0"@,
            rest,
            zero,
            low_truth,
            base,
            owned,
            expected,
        );
        assert(is_undriven(low.cells, one)) by {
            assert forall|i: int| 0 <= i < low.cells.len() implies !#[trigger] drives(
                low.cells[i],
                one,
            ) by {
                if i < state.cells.len() {
                    assert(low.cells[i] == state.cells[i]);
                }
            }
        }
        assert forall|k: int| 0 <= k < rest.len() implies bit_known(
            low.cells,
            expected,
            #[trigger] rest[k],
        ) by {
            assert(rest[k] == inputs[k]);
            if let Bit::Wire(wire) = rest[k] {
                lemma_known_grows(state.cells, low.cells, expected, wire);
            }
        }
        lemma_function_laid(
            low,
            name + "_wide1"@,
            rest,
            one,
            high_truth,
            base,
            owned,
            expected,
        );
        let cell = after.cells[after.cells.len() - 1];
        assert(begins_so(state.cells, high.cells)) by {
            assert forall|i: int| 0 <= i < state.cells.len() implies (#[trigger] high.cells[i])
                == state.cells[i] by {
                assert(low.cells[i] == state.cells[i]);
            }
        }
        let before_last = low.cells.len() - 1;
        assert(drives(low.cells[before_last], zero));
        assert(high.cells[before_last] == low.cells[before_last]);
        assert(drives(high.cells[before_last], zero));
        assert(drives(high.cells[high.cells.len() - 1], one));
        assert(is_undriven(high.cells, output)) by {
            assert forall|i: int| 0 <= i < high.cells.len() implies !#[trigger] drives(
                high.cells[i],
                output,
            ) by {
                if i < state.cells.len() {
                    assert(high.cells[i] == state.cells[i]);
                } else if i < low.cells.len() {
                    assert(high.cells[i] == low.cells[i]);
                }
            }
        }
        assert(cell_outputs(cell) =~= seq![Bit::Wire(output)]);
        assert(bit_known(state.cells, expected, inputs[inputs.len() - 1]));
        assert(inputs.last() == inputs[inputs.len() - 1]);
        assert forall|k: int| 0 <= k < cell_inputs(cell).len() implies bit_known(
            high.cells,
            expected,
            #[trigger] cell_inputs(cell)[k],
        ) by {
            if k == 2 {
                assert(cell_inputs(cell)[2] == inputs.last());
                if let Bit::Wire(wire) = inputs.last() {
                    lemma_known_grows(state.cells, high.cells, expected, wire);
                }
            } else {
                assert(cell_inputs(cell)[k] == Bit::Wire(zero) || cell_inputs(cell)[k]
                    == Bit::Wire(one));
            }
        }
        lemma_one_output(
            high.cells,
            ground_of(high, base, owned, expected),
            cell,
            output,
        );
        assert forall|i: int, wire: u32|
            state.cells.len() <= i < after.cells.len() && #[trigger] drives(
                after.cells[i],
                wire,
            ) implies wire == output || wire >= state.next_wire by {
            if i < low.cells.len() {
                assert(after.cells[i] == high.cells[i]);
                assert(high.cells[i] == low.cells[i]);
                assert(drives(low.cells[i], wire));
            } else if i < high.cells.len() {
                assert(after.cells[i] == high.cells[i]);
                assert(drives(high.cells[i], wire));
            }
        }
    }
}

/// The nets whose wires gates drive, and those driven already.
pub open spec fn owners(
    nodes: Seq<Node>,
    bits: Seq<Option<Bit>>,
    done: spec_fn(int) -> bool,
) -> spec_fn(int) -> bool {
    |n: int|
        (0 <= n < nodes.len() && is_gate(nodes[n].kind) && bits[n] is Some) || done(n)
}

/// Whether what has been emitted is laid out, with `done` of the nets that are no gates
/// driven.
pub open spec fn is_emitted(
    nodes: Seq<Node>,
    state: EmitterModel,
    done: spec_fn(int) -> bool,
    expected: spec_fn(int) -> bool,
) -> bool {
    &&& nodes.len() <= MAX_NODES
    &&& state.bits.len() == nodes.len()
    &&& !state.exhausted
    &&& is_laid(
        state.cells,
        ground_of(state, (nodes.len() + 2) as int, owners(nodes, state.bits, done), expected),
    )
    &&& forall|n: int|
        0 <= n < nodes.len() ==> ((#[trigger] state.bits[n]) matches Some(bit) ==> bit_known(
            state.cells,
            expected,
            bit,
        ))
    &&& forall|n: int| #[trigger]
        done(n) ==> 0 <= n < nodes.len() && !is_gate(nodes[n].kind) && exists|j: int|
            0 <= j < state.cells.len() && #[trigger] drives(state.cells[j], (n + 2) as u32)
}

/// Whether `after` follows `before` in emission: bits of nets that are no gates, or are
/// at or above `limit`, are as they were, and new cells drive wires of nets or new ones.
pub open spec fn emits(
    nodes: Seq<Node>,
    before: EmitterModel,
    after: EmitterModel,
    limit: int,
) -> bool {
    &&& begins_so(before.cells, after.cells)
    &&& before.next_wire <= after.next_wire
    &&& after.bits.len() == before.bits.len()
    &&& forall|n: int|
        0 <= n < nodes.len() && (n >= limit || !is_gate(nodes[n].kind)) ==> (
        #[trigger] after.bits[n]) == before.bits[n]
    &&& forall|n: int|
        0 <= n < nodes.len() && before.bits[n] is Some ==> (#[trigger] after.bits[n]) is Some
    &&& forall|i: int, wire: u32|
        before.cells.len() <= i < after.cells.len() && #[trigger] drives(after.cells[i], wire)
            ==> wire < nodes.len() + 2 || wire >= before.next_wire
}

proof fn lemma_emits_joined(
    nodes: Seq<Node>,
    a: EmitterModel,
    b: EmitterModel,
    c: EmitterModel,
    limit: int,
)
    requires
        emits(nodes, a, b, limit),
        emits(nodes, b, c, limit),
    ensures
        emits(nodes, a, c, limit),
{
    assert forall|i: int| 0 <= i < a.cells.len() implies (#[trigger] c.cells[i]) == a.cells[i] by {
        assert(b.cells[i] == a.cells[i]);
    }
    assert forall|n: int|
        0 <= n < nodes.len() && (n >= limit || !is_gate(nodes[n].kind)) implies (
    #[trigger] c.bits[n]) == a.bits[n] by {
        assert(b.bits[n] == a.bits[n]);
    }
    assert forall|n: int| 0 <= n < nodes.len() && a.bits[n] is Some implies (
    #[trigger] c.bits[n]) is Some by {
        assert(b.bits[n] is Some);
    }
    assert forall|i: int, wire: u32|
        a.cells.len() <= i < c.cells.len() && #[trigger] drives(c.cells[i], wire) implies wire
        < nodes.len() + 2 || wire >= a.next_wire by {
        if i < b.cells.len() {
            assert(c.cells[i] == b.cells[i]);
            assert(drives(b.cells[i], wire));
        }
    }
}

proof fn lemma_emits_wider(
    nodes: Seq<Node>,
    a: EmitterModel,
    b: EmitterModel,
    low: int,
    high: int,
)
    requires
        emits(nodes, a, b, low),
        low <= high,
    ensures
        emits(nodes, a, b, high),
{
}

/// Emission of gates never recovers from running out of wires.
pub proof fn lemma_net_exhausted(
    nodes: Seq<Node>,
    plans: Seq<Option<PlanModel>>,
    state: EmitterModel,
    net: NetId,
)
    ensures
        state.exhausted ==> net_mapped(nodes, plans, state, net).exhausted,
    decreases 2 * net + 1, 0nat,
{
    if !(state.bits[net as int] is Some) {
        if let Some(plan) = plans[net as int] {
            lemma_leaves_exhausted(
                nodes,
                plans,
                state,
                plan.leaves,
                plan.leaves.len(),
                net as nat,
            );
            let below = leaves_mapped(
                nodes,
                plans,
                state,
                plan.leaves,
                plan.leaves.len(),
                net as nat,
            );
            lemma_function_exhausted(
                below,
                "lut"@ + decimal_text(net as nat),
                bits_of(below.bits, plan.leaves),
                net_wire(net),
                truth_table(nodes, net, plan.leaves) as u128,
            );
        }
    }
}

proof fn lemma_leaves_exhausted(
    nodes: Seq<Node>,
    plans: Seq<Option<PlanModel>>,
    state: EmitterModel,
    leaves: Seq<NetId>,
    count: nat,
    bound: nat,
)
    ensures
        state.exhausted ==> leaves_mapped(nodes, plans, state, leaves, count, bound).exhausted,
    decreases 2 * bound, count,
{
    if count > 0 {
        lemma_leaves_exhausted(nodes, plans, state, leaves, (count - 1) as nat, bound);
        let rest = leaves_mapped(nodes, plans, state, leaves, (count - 1) as nat, bound);
        if leaves[count - 1] < bound {
            lemma_net_exhausted(nodes, plans, rest, leaves[count - 1]);
        }
    }
}

/// The bit of a net is known.
pub proof fn lemma_bit_known(
    nodes: Seq<Node>,
    state: EmitterModel,
    done: spec_fn(int) -> bool,
    expected: spec_fn(int) -> bool,
    net: NetId,
)
    requires
        is_emitted(nodes, state, done, expected),
        net < nodes.len(),
    ensures
        bit_known(state.cells, expected, bit_of(state.bits, net)),
{
    assert(state.bits[net as int] is Some || bit_of(state.bits, net) == Bit::Zero);
}

/// A net mapped is laid out.
#[verifier::rlimit(60)]
pub proof fn lemma_net_emitted(
    nodes: Seq<Node>,
    plans: Seq<Option<PlanModel>>,
    state: EmitterModel,
    net: NetId,
    done: spec_fn(int) -> bool,
    expected: spec_fn(int) -> bool,
)
    requires
        is_emitted(nodes, state, done, expected),
        plans_are_sound(nodes, plans, nodes.len() as int),
        net < nodes.len(),
        !net_mapped(nodes, plans, state, net).exhausted,
    ensures
        is_emitted(nodes, net_mapped(nodes, plans, state, net), done, expected),
        emits(nodes, state, net_mapped(nodes, plans, state, net), net + 1),
    decreases 2 * net + 1, 0nat,
{
    if !(state.bits[net as int] is Some) {
        if let Some(plan) = plans[net as int] {
            assert(plan_is_sound(nodes, net as int, plans[net as int]));
            let count = plan.leaves.len();
            let below = leaves_mapped(nodes, plans, state, plan.leaves, count, net as nat);
            let name = "lut"@ + decimal_text(net as nat);
            let inputs = bits_of(below.bits, plan.leaves);
            let truth = truth_table(nodes, net, plan.leaves) as u128;
            let output = net_wire(net);
            let emitted = with_function(below, name, inputs, output, truth);
            lemma_function_exhausted(below, name, inputs, output, truth);
            lemma_leaves_emitted(
                nodes,
                plans,
                state,
                plan.leaves,
                count,
                net as nat,
                done,
                expected,
            );
            let base = (nodes.len() + 2) as int;
            let owned = owners(nodes, below.bits, done);
            let more = |n: int| owned(n) || n == net;
            let after = with_alias(emitted, net, Bit::Wire(output));
            assert(below.bits[net as int] is None);
            lemma_not_allowed(below.cells, ground_of(below, base, owned, expected), output);
            lemma_more_ground(
                below.cells,
                ground_of(below, base, owned, expected),
                ground_of(below, base, more, expected),
            );
            assert forall|k: int| 0 <= k < inputs.len() implies bit_known(
                below.cells,
                expected,
                #[trigger] inputs[k],
            ) by {
                assert(plan.leaves[k] < net);
                lemma_bit_known(nodes, below, done, expected, plan.leaves[k]);
            }
            lemma_function_laid(below, name, inputs, output, truth, base, more, expected);
            lemma_more_ground(
                emitted.cells,
                ground_of(emitted, base, more, expected),
                ground_of(after, base, owners(nodes, after.bits, done), expected),
            );
            assert(drives(after.cells[after.cells.len() - 1], output));
            assert forall|n: int| 0 <= n < nodes.len() implies ((
            #[trigger] after.bits[n]) matches Some(bit) ==> bit_known(
                after.cells,
                expected,
                bit,
            )) by {
                if n != net {
                    assert(after.bits[n] == below.bits[n]);
                    if let Some(Bit::Wire(wire)) = below.bits[n] {
                        assert(bit_known(below.cells, expected, Bit::Wire(wire)));
                        lemma_known_grows(below.cells, after.cells, expected, wire);
                    }
                }
            }
            assert forall|n: int| #[trigger] done(n) implies exists|j: int|
                0 <= j < after.cells.len() && #[trigger] drives(
                    after.cells[j],
                    (n + 2) as u32,
                ) by {
                let j = choose|j: int|
                    0 <= j < below.cells.len() && #[trigger] drives(
                        below.cells[j],
                        (n + 2) as u32,
                    );
                assert(after.cells[j] == below.cells[j]);
            }
            assert(emits(nodes, below, after, net + 1)) by {
                assert forall|i: int, wire: u32|
                    below.cells.len() <= i < after.cells.len() && #[trigger] drives(
                        after.cells[i],
                        wire,
                    ) implies wire < nodes.len() + 2 || wire >= below.next_wire by {}
            }
            lemma_emits_wider(nodes, state, below, net as int, net + 1);
            lemma_emits_joined(nodes, state, below, after, net + 1);
        }
    }
}

#[verifier::rlimit(40)]
proof fn lemma_leaves_emitted(
    nodes: Seq<Node>,
    plans: Seq<Option<PlanModel>>,
    state: EmitterModel,
    leaves: Seq<NetId>,
    count: nat,
    bound: nat,
    done: spec_fn(int) -> bool,
    expected: spec_fn(int) -> bool,
)
    requires
        is_emitted(nodes, state, done, expected),
        plans_are_sound(nodes, plans, nodes.len() as int),
        count <= leaves.len(),
        bound <= nodes.len(),
        !leaves_mapped(nodes, plans, state, leaves, count, bound).exhausted,
    ensures
        is_emitted(
            nodes,
            leaves_mapped(nodes, plans, state, leaves, count, bound),
            done,
            expected,
        ),
        emits(
            nodes,
            state,
            leaves_mapped(nodes, plans, state, leaves, count, bound),
            bound as int,
        ),
    decreases 2 * bound, count,
{
    if count > 0 {
        let rest = leaves_mapped(nodes, plans, state, leaves, (count - 1) as nat, bound);
        let leaf = leaves[count - 1];
        if leaf < bound {
            lemma_net_exhausted(nodes, plans, rest, leaf);
        }
        lemma_leaves_emitted(
            nodes,
            plans,
            state,
            leaves,
            (count - 1) as nat,
            bound,
            done,
            expected,
        );
        if leaf < bound {
            lemma_net_emitted(nodes, plans, rest, leaf, done, expected);
            let after = net_mapped(nodes, plans, rest, leaf);
            lemma_emits_wider(nodes, rest, after, leaf + 1, bound as int);
            lemma_emits_joined(nodes, state, rest, after, bound as int);
        }
    }
}

} // verus!
