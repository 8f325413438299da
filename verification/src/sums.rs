//! What ripple arithmetic computes.

use vstd::prelude::*;

use crate::arithmetic::adder_value;
use crate::arithmetic::carry_start;
use crate::arithmetic::covers_bits;
use crate::arithmetic::first_mapped;
use crate::arithmetic::one_if;
use crate::arithmetic::ripple_mapped;
use crate::arithmetic::ripple_places;
use crate::arithmetic::ChainModel;
use crate::arithmetic::MapInputs;
use crate::cells::Bit;
use crate::cover::plans_are_sound;
use crate::cuts::nodes_are_valid;
use crate::emit::bit_of;
use crate::emit::net_mapped;
use crate::emit::supplied;
use crate::emit::EmitterModel;
use crate::ir::arithmetic_is_valid;
use crate::ir::arithmetic_reads;
use crate::ir::net_wire;
use crate::ir::readable;
use crate::ir::ArithmeticCell;
use crate::ir::NetId;
use crate::ir::Node;
use crate::meaning::bit_value;
use crate::meaning::bits_agree;
use crate::meaning::cell_agrees;
use crate::meaning::cells_agree;
use crate::meaning::law_cover_carries_values;
use crate::meaning::lemma_agree_prefix;
use crate::meaning::lemma_lut_entry;
use crate::meaning::lemma_net_extends;
use crate::meaning::nodes_agree;
use crate::plans::PlanModel;
use crate::wires::assigned;
use crate::wires::assignments;
use crate::wires::lemma_table_of_bound;
use crate::wires::pin_index;
use crate::wires::table_of;

verus! {

/// Digit `index` of the second operand; subtraction inverts it.
pub open spec fn operand(nets: spec_fn(NetId) -> bool, cell: ArithmeticCell, index: int) -> bool {
    nets(cell.rhs@[index]) != (cell.operation is Subtract)
}

/// The carry into the first digit; subtraction starts with one.
pub open spec fn first_carry(nets: spec_fn(NetId) -> bool, cell: ArithmeticCell) -> bool {
    match cell.carry_in {
        Some(net) => nets(net),
        None => cell.operation is Subtract,
    }
}

/// The carry into digit `index`.
pub open spec fn carry_into(
    nets: spec_fn(NetId) -> bool,
    cell: ArithmeticCell,
    index: nat,
) -> bool
    decreases index, 0nat,
{
    if index == 0 {
        first_carry(nets, cell)
    } else {
        digit_total(nets, cell, (index - 1) as nat) >= 2
    }
}

/// The sum of both digits and the carry at `index`.
pub open spec fn digit_total(
    nets: spec_fn(NetId) -> bool,
    cell: ArithmeticCell,
    index: nat,
) -> int
    decreases index, 1nat,
{
    one_if(nets(cell.lhs@[index as int])) + one_if(operand(nets, cell, index as int)) + one_if(
        carry_into(nets, cell, index),
    )
}

/// Whether every result digit is the last digit of its total.
pub open spec fn sums_agree(nets: spec_fn(NetId) -> bool, cell: ArithmeticCell) -> bool {
    forall|i: int|
        0 <= i < cell.outputs@.len() ==> nets(#[trigger] cell.outputs@[i]) == (digit_total(
            nets,
            cell,
            i as nat,
        ) % 2 == 1)
}

/// The number that the first `count` nets of a word stand for, least-significant first.
pub open spec fn word_value(
    nets: spec_fn(NetId) -> bool,
    word: Seq<NetId>,
    count: nat,
) -> nat {
    table_of(|i: u64| nets(word[i as int]), count)
}

/// One more digit of a word.
pub proof fn lemma_word_step(nets: spec_fn(NetId) -> bool, word: Seq<NetId>, count: nat)
    requires
        0 < count <= u64::MAX,
    ensures
        word_value(nets, word, count) == word_value(nets, word, (count - 1) as nat) + one_if(
            nets(word[count - 1]),
        ) * assignments((count - 1) as nat),
        word_value(nets, word, 0) == 0,
{
    let weight = assignments((count - 1) as nat) as int;
    assert(1 * weight == weight) by (nonlinear_arith);
    assert(0 * weight == 0) by (nonlinear_arith);
}

proof fn lemma_partial_sum(nets: spec_fn(NetId) -> bool, cell: ArithmeticCell, count: nat)
    requires
        sums_agree(nets, cell),
        count <= cell.outputs@.len() <= u64::MAX,
    ensures
        word_value(nets, cell.outputs@, count) + one_if(carry_into(nets, cell, count))
            * assignments(count) == word_value(nets, cell.lhs@, count) + (
        if cell.operation is Subtract {
            assignments(count) - 1 - word_value(nets, cell.rhs@, count)
        } else {
            word_value(nets, cell.rhs@, count) as int
        }) + one_if(first_carry(nets, cell)),
    decreases count,
{
    if count == 0 {
        assert(one_if(carry_into(nets, cell, 0)) * 1 == one_if(first_carry(nets, cell)))
            by (nonlinear_arith)
            requires
                carry_into(nets, cell, 0) == first_carry(nets, cell),
        ;
        assert(assignments(0) == 1);
        assert(word_value(nets, cell.outputs@, 0) == 0);
        assert(word_value(nets, cell.lhs@, 0) == 0);
        assert(word_value(nets, cell.rhs@, 0) == 0);
    } else {
        let last = (count - 1) as nat;
        lemma_partial_sum(nets, cell, last);
        lemma_word_step(nets, cell.outputs@, count);
        lemma_word_step(nets, cell.lhs@, count);
        lemma_word_step(nets, cell.rhs@, count);
        let weight = assignments(last) as int;
        let out = one_if(nets(cell.outputs@[last as int]));
        let lhs = one_if(nets(cell.lhs@[last as int]));
        let rhs = one_if(nets(cell.rhs@[last as int]));
        let op = one_if(operand(nets, cell, last as int));
        let carry = one_if(carry_into(nets, cell, last));
        let next = one_if(carry_into(nets, cell, count));
        assert(digit_total(nets, cell, last) == lhs + op + carry);
        assert(out + 2 * next == lhs + op + carry);
        assert(out * weight + next * (2 * weight) == lhs * weight + op * weight + carry * weight)
            by (nonlinear_arith)
            requires
                out + 2 * next == lhs + op + carry,
        ;
        if cell.operation is Subtract {
            assert(op * weight == weight - rhs * weight) by (nonlinear_arith)
                requires
                    op == 1 - rhs,
            ;
        }
    }
}

/// Digits make the sum: where every result digit is the last digit of its
/// total, the result is the sum, or the difference, of the operands and the
/// carry, modulo two to the width.
pub proof fn law_digits_make_sum(nets: spec_fn(NetId) -> bool, cell: ArithmeticCell)
    requires
        sums_agree(nets, cell),
        cell.outputs@.len() <= u64::MAX,
        cell.lhs@.len() == cell.outputs@.len(),
        cell.rhs@.len() == cell.outputs@.len(),
    ensures
        ({
            let width = cell.outputs@.len();
            let lhs = word_value(nets, cell.lhs@, width);
            let rhs = word_value(nets, cell.rhs@, width);
            word_value(nets, cell.outputs@, width) as int == (lhs + (
            if cell.operation is Subtract {
                -1 - rhs
            } else {
                rhs as int
            }) + one_if(first_carry(nets, cell))) % assignments(width) as int
        }),
{
    let width = cell.outputs@.len();
    let modulus = assignments(width) as int;
    let out = word_value(nets, cell.outputs@, width) as int;
    lemma_partial_sum(nets, cell, width);
    lemma_table_of_bound(|i: u64| nets(cell.outputs@[i as int]), width);
    let carry = one_if(carry_into(nets, cell, width));
    let total = word_value(nets, cell.lhs@, width) + (if cell.operation is Subtract {
        -1 - word_value(nets, cell.rhs@, width)
    } else {
        word_value(nets, cell.rhs@, width) as int
    }) + one_if(first_carry(nets, cell));
    let quotient = if cell.operation is Subtract {
        carry - 1
    } else {
        carry
    };
    assert(total == quotient * modulus + out) by (nonlinear_arith)
        requires
            out + carry * modulus == total + (if cell.operation is Subtract {
                modulus
            } else {
                0
            }),
            quotient == if cell.operation is Subtract {
                carry - 1
            } else {
                carry
            },
    ;
    vstd::arithmetic::div_mod::lemma_fundamental_div_mod_converse(total, modulus, quotient, out);
}

/// The pins of a lookup table are the digits of its index.
pub proof fn lemma_pin_digits(a: bool, b: bool, c: bool)
    ensures
        assigned(pin_index(a, b, c, false) as u64, 0) == a,
        assigned(pin_index(a, b, c, false) as u64, 1) == b,
        assigned(pin_index(a, b, c, false) as u64, 2) == c,
{
    let index = pin_index(a, b, c, false) as u64;
    assert((index & (1u64 << 0u64) != 0) == (index % 2 == 1) && (index & (1u64 << 1u64) != 0) == (
    index / 2 % 2 == 1) && (index & (1u64 << 2u64) != 0) == (index / 4 % 2 == 1)) by (bit_vector)
        requires
            index < 16,
    ;
}

/// Whether a state maps what was mapped, and holds the cells that were emitted.
pub open spec fn extends(before: EmitterModel, after: EmitterModel) -> bool {
    &&& covers_bits(before.bits, after.bits)
    &&& before.cells.len() <= after.cells.len()
    &&& before.cells == after.cells.take(before.cells.len() as int)
}

/// Extension is transitive.
pub proof fn lemma_extends(a: EmitterModel, b: EmitterModel, c: EmitterModel)
    requires
        extends(a, b),
        extends(b, c),
    ensures
        extends(a, c),
{
    assert forall|i: int| 0 <= i < a.bits.len() && a.bits[i] is Some implies (
    #[trigger] c.bits[i]) is Some by {
        assert(b.bits[i] is Some);
    }
    assert forall|i: int| 0 <= i < a.cells.len() implies #[trigger] c.cells[i] == a.cells[i] by {
        assert(a.cells[i] == b.cells.take(a.cells.len() as int)[i]);
        assert(b.cells[i] == c.cells.take(b.cells.len() as int)[i]);
    }
    assert(a.cells =~= c.cells.take(a.cells.len() as int));
}

/// Supplied nets stay supplied.
pub proof fn lemma_still_supplied(
    nodes: Seq<Node>,
    plans: Seq<Option<PlanModel>>,
    before: Seq<Option<Bit>>,
    after: Seq<Option<Bit>>,
    limit: int,
)
    requires
        supplied(nodes, plans, before, limit),
        covers_bits(before, after),
    ensures
        supplied(nodes, plans, after, limit),
{
    assert forall|i: int|
        0 <= i < limit && i < nodes.len() && !(nodes[i].kind is Output) implies (
    #[trigger] after[i]) is Some || plans[i] is Some by {
        assert(before[i] is Some || plans[i] is Some);
    }
}

/// A mapped operand carries its value.
pub proof fn lemma_operand_mapped(
    values: spec_fn(u32) -> bool,
    nets: spec_fn(NetId) -> bool,
    inputs: MapInputs,
    state: EmitterModel,
    net: NetId,
    limit: int,
)
    requires
        nodes_are_valid(inputs.nodes),
        plans_are_sound(inputs.nodes, inputs.plans, inputs.nodes.len() as int),
        readable(inputs.nodes, net),
        net < limit,
        supplied(inputs.nodes, inputs.plans, state.bits, limit),
    ensures
        ({
            let after = net_mapped(inputs.nodes, inputs.plans, state, net);
            &&& extends(state, after)
            &&& crate::emit::keeps_bits(state.bits, after.bits)
            &&& supplied(inputs.nodes, inputs.plans, after.bits, limit)
            &&& after.bits[net as int] is Some
            &&& nodes_agree(inputs.nodes, nets) && bits_agree(values, nets, state.bits)
                && cells_agree(values, after.cells) ==> bits_agree(values, nets, after.bits)
                && bit_value(values, bit_of(after.bits, net)) == nets(net)
        }),
{
    let after = net_mapped(inputs.nodes, inputs.plans, state, net);
    lemma_net_extends(inputs.nodes, inputs.plans, state, net);
    assert(covers_bits(state.bits, after.bits));
    lemma_still_supplied(inputs.nodes, inputs.plans, state.bits, after.bits, limit);
    if nodes_agree(inputs.nodes, nets) && bits_agree(values, nets, state.bits) && cells_agree(
        values,
        after.cells,
    ) {
        law_cover_carries_values(values, nets, inputs.nodes, inputs.plans, state, net);
    }
}

/// Whether the operands of `cell` can be mapped from `state`.
spec fn is_ready(inputs: MapInputs, state: EmitterModel, cell: ArithmeticCell) -> bool {
    &&& nodes_are_valid(inputs.nodes)
    &&& plans_are_sound(inputs.nodes, inputs.plans, inputs.nodes.len() as int)
    &&& arithmetic_is_valid(inputs.nodes, cell)
    &&& supplied(inputs.nodes, inputs.plans, state.bits, cell.outputs@[0] as int)
}

/// The operands of arithmetic can be read below its results.
pub proof fn lemma_operands(inputs: MapInputs, cell: ArithmeticCell, index: int)
    requires
        arithmetic_is_valid(inputs.nodes, cell),
        0 <= index < cell.outputs@.len(),
    ensures
        readable(inputs.nodes, cell.lhs@[index]),
        readable(inputs.nodes, cell.rhs@[index]),
        cell.lhs@[index] < cell.outputs@[0],
        cell.rhs@[index] < cell.outputs@[0],
        cell.outputs@[0] <= cell.outputs@[index] < inputs.nodes.len(),
        cell.carry_in matches Some(net) ==> readable(inputs.nodes, net) && net
            < cell.outputs@[0],
{
    let reads = arithmetic_reads(cell);
    assert(reads[index] == cell.lhs@[index]);
    assert(reads[cell.lhs@.len() + index] == cell.rhs@[index]);
    assert(readable(inputs.nodes, reads[index]));
    assert(readable(inputs.nodes, reads[cell.lhs@.len() + index]));
    assert(inputs.nodes[cell.outputs@[index] as int].kind is ArithmeticOutput);
    if cell.carry_in is Some {
        let at = cell.lhs@.len() + cell.rhs@.len() as int;
        assert(reads[at] == cell.carry_in->0);
        assert(readable(inputs.nodes, reads[at]));
    }
}

proof fn lemma_ripple(
    values: spec_fn(u32) -> bool,
    nets: spec_fn(NetId) -> bool,
    inputs: MapInputs,
    start: ChainModel,
    cell: ArithmeticCell,
    count: nat,
)
    requires
        is_ready(inputs, start.state, cell),
        count <= cell.outputs@.len(),
    ensures
        ({
            let chain = ripple_places(inputs, start, cell, count);
            &&& extends(start.state, chain.state)
            &&& supplied(inputs.nodes, inputs.plans, chain.state.bits, cell.outputs@[0] as int)
            &&& first_mapped(chain.state.bits, cell.outputs@, count as int)
            &&& nodes_agree(inputs.nodes, nets) && sums_agree(nets, cell) && bits_agree(
                values,
                nets,
                start.state.bits,
            ) && bit_value(values, start.carry) == first_carry(nets, cell) && cells_agree(
                values,
                chain.state.cells,
            ) ==> bits_agree(values, nets, chain.state.bits) && (count < cell.outputs@.len()
                ==> bit_value(values, chain.carry) == carry_into(nets, cell, count))
        }),
    decreases count,
{
    let chain = ripple_places(inputs, start, cell, count);
    let limit = cell.outputs@[0] as int;
    if count == 0 {
        assert(start.state.cells =~= start.state.cells.take(start.state.cells.len() as int));
    } else {
        let bit = (count - 1) as nat;
        let at = bit as int;
        lemma_ripple(values, nets, inputs, start, cell, bit);
        lemma_operands(inputs, cell, at);
        let rest = ripple_places(inputs, start, cell, bit);
        let lhs = net_mapped(inputs.nodes, inputs.plans, rest.state, cell.lhs@[at]);
        let rhs = net_mapped(inputs.nodes, inputs.plans, lhs, cell.rhs@[at]);
        lemma_operand_mapped(values, nets, inputs, rest.state, cell.lhs@[at], limit);
        lemma_operand_mapped(values, nets, inputs, lhs, cell.rhs@[at], limit);
        let after = chain.state;
        let output = cell.outputs@[at];
        assert(covers_bits(rhs.bits, after.bits));
        assert(rhs.cells =~= after.cells.take(rhs.cells.len() as int));
        lemma_extends(start.state, rest.state, lhs);
        lemma_extends(start.state, lhs, rhs);
        lemma_extends(start.state, rhs, after);
        lemma_still_supplied(inputs.nodes, inputs.plans, rhs.bits, after.bits, limit);
        assert forall|i: int| 0 <= i < count && i < cell.outputs@.len() implies after.bits[(
        #[trigger] cell.outputs@[i]) as int] is Some by {
            lemma_operands(inputs, cell, i);
            if i < bit {
                assert(rest.state.bits[cell.outputs@[i] as int] is Some);
                assert(lhs.bits[cell.outputs@[i] as int] is Some);
                assert(rhs.bits[cell.outputs@[i] as int] is Some);
            }
        }
        if nodes_agree(inputs.nodes, nets) && sums_agree(nets, cell) && bits_agree(
            values,
            nets,
            start.state.bits,
        ) && bit_value(values, start.carry) == first_carry(nets, cell) && cells_agree(
            values,
            after.cells,
        ) {
            lemma_agree_prefix(values, rhs.cells, after.cells);
            lemma_agree_prefix(values, lhs.cells, rhs.cells);
            lemma_agree_prefix(values, rest.state.cells, lhs.cells);
            let subtract = cell.operation is Subtract;
            let a = nets(cell.lhs@[at]);
            let b = nets(cell.rhs@[at]);
            let c = carry_into(nets, cell, bit);
            assert(rhs.bits[cell.lhs@[at] as int] == lhs.bits[cell.lhs@[at] as int]);
            lemma_pin_digits(a, b, c);
            lemma_lut_entry(|x: u64| adder_value(subtract, false, x), a, b, c, false);
            lemma_lut_entry(|x: u64| adder_value(subtract, true, x), a, b, c, false);
            let first = rhs.cells.len() as int;
            assert(cell_agrees(values, after.cells[first]));
            assert(values(net_wire(output)) == (digit_total(nets, cell, bit) % 2 == 1));
            assert(nets(output) == values(net_wire(output)));
            if count < cell.outputs@.len() {
                assert(cell_agrees(values, after.cells[first + 1]));
                assert(bit_value(values, chain.carry) == carry_into(nets, cell, count));
            }
            assert forall|i: int| 0 <= i < after.bits.len() && (
            #[trigger] after.bits[i]) is Some implies bit_value(values, after.bits[i]->0)
                == nets(i as NetId) by {
                if i != output {
                    assert(after.bits[i] == rhs.bits[i]);
                }
            }
        }
    }
}

/// Ripple arithmetic carries its values: under every valuation with which the
/// emitted lookup tables agree, the result wires carry the digits of the sum.
pub proof fn law_ripple_carries_values(
    values: spec_fn(u32) -> bool,
    nets: spec_fn(NetId) -> bool,
    inputs: MapInputs,
    state: EmitterModel,
    cell: ArithmeticCell,
)
    requires
        nodes_are_valid(inputs.nodes),
        plans_are_sound(inputs.nodes, inputs.plans, inputs.nodes.len() as int),
        arithmetic_is_valid(inputs.nodes, cell),
        supplied(inputs.nodes, inputs.plans, state.bits, cell.outputs@[0] as int),
    ensures
        ({
            let after = ripple_mapped(inputs, state, cell);
            &&& extends(state, after)
            &&& first_mapped(after.bits, cell.outputs@, cell.outputs@.len() as int)
            &&& nodes_agree(inputs.nodes, nets) && sums_agree(nets, cell) && bits_agree(
                values,
                nets,
                state.bits,
            ) && cells_agree(values, after.cells) ==> bits_agree(values, nets, after.bits)
        }),
{
    let start = carry_start(inputs, state, cell);
    let after = ripple_mapped(inputs, state, cell);
    let limit = cell.outputs@[0] as int;
    lemma_operands(inputs, cell, 0);
    if let Some(net) = cell.carry_in {
        lemma_operand_mapped(values, nets, inputs, state, net, limit);
    } else {
        assert(state.cells =~= state.cells.take(state.cells.len() as int));
    }
    lemma_ripple(values, nets, inputs, start, cell, cell.outputs@.len());
    lemma_extends(state, start.state, after);
    if cells_agree(values, after.cells) {
        lemma_agree_prefix(values, start.state.cells, after.cells);
    }
}

} // verus!
