//! What carry chains compute: sums, differences and comparisons.

use vstd::prelude::*;

use crate::arithmetic::adder_chain;
use crate::arithmetic::adder_mapped;
use crate::arithmetic::adder_slice;
use crate::arithmetic::carry_start;
use crate::arithmetic::comparison_chain;
use crate::arithmetic::comparison_mapped;
use crate::arithmetic::comparison_slice;
use crate::arithmetic::covers_bits;
use crate::arithmetic::first_mapped;
use crate::arithmetic::one_if;
use crate::arithmetic::pair_count;
use crate::arithmetic::signed_value;
use crate::arithmetic::CCU2C_ARITH_INIT;
use crate::arithmetic::ChainModel;
use crate::arithmetic::MapInputs;
use crate::cells::Bit;
use crate::cover::plans_are_sound;
use crate::cuts::nodes_are_valid;
use crate::emit::net_mapped;
use crate::emit::supplied;
use crate::emit::EmitterModel;
use crate::ir::arithmetic_is_valid;
use crate::ir::comparison_is_valid;
use crate::ir::comparison_reads;
use crate::ir::net_wire;
use crate::ir::readable;
use crate::ir::ArithmeticCell;
use crate::ir::ComparisonCell;
use crate::ir::NetId;
use crate::meaning::bit_value;
use crate::meaning::bits_agree;
use crate::meaning::cell_agrees;
use crate::meaning::cells_agree;
use crate::meaning::law_arithmetic_slice_adds;
use crate::meaning::lemma_agree_prefix;
use crate::meaning::lemma_lut_entry;
use crate::meaning::nodes_agree;
use crate::meaning::slice_of;
use crate::sums::carry_into;
use crate::sums::digit_total;
use crate::sums::extends;
use crate::sums::first_carry;
use crate::sums::lemma_extends;
use crate::sums::lemma_operand_mapped;
use crate::sums::lemma_operands;
use crate::sums::lemma_pin_digits;
use crate::sums::lemma_still_supplied;
use crate::sums::lemma_word_step;
use crate::sums::sums_agree;
use crate::sums::word_value;
use crate::wires::assignments;
use crate::wires::lemma_table_of_bound;
use crate::wires::pin_index;
use crate::wires::table_bit;
use crate::wires::table_of;

verus! {

/// Whether operands below `limit` can be mapped from `state`.
spec fn can_map(inputs: MapInputs, state: EmitterModel, limit: int) -> bool {
    &&& nodes_are_valid(inputs.nodes)
    &&& plans_are_sound(inputs.nodes, inputs.plans, inputs.nodes.len() as int)
    &&& supplied(inputs.nodes, inputs.plans, state.bits, limit)
}

/// What a slice of an adder reads: its operands, and a one where it subtracts.
spec fn adder_pins_agree(
    values: spec_fn(u32) -> bool,
    nets: spec_fn(NetId) -> bool,
    cell: ArithmeticCell,
    index: int,
    pins: [Bit; 4],
) -> bool {
    &&& bit_value(values, pins[0]) == nets(cell.lhs@[index])
    &&& bit_value(values, pins[1]) == nets(cell.rhs@[index])
    &&& bit_value(values, pins[2]) == (cell.operation is Subtract)
    &&& bit_value(values, pins[3])
}

proof fn lemma_adder_slice(
    values: spec_fn(u32) -> bool,
    nets: spec_fn(NetId) -> bool,
    inputs: MapInputs,
    state: EmitterModel,
    cell: ArithmeticCell,
    index: int,
)
    requires
        can_map(inputs, state, cell.outputs@[0] as int),
        arithmetic_is_valid(inputs.nodes, cell),
        nodes_agree(inputs.nodes, nets),
        0 <= index,
    ensures
        ({
            let slice = adder_slice(inputs, state, cell, index);
            let after = slice.state;
            &&& extends(state, after)
            &&& can_map(inputs, after, cell.outputs@[0] as int)
            &&& index < cell.outputs@.len() ==> after.bits[cell.outputs@[index] as int] is Some
            &&& index < cell.outputs@.len() ==> slice.sum == net_wire(cell.outputs@[index])
            &&& bits_agree(values, nets, state.bits) && cells_agree(values, after.cells) ==> {
                if index < cell.outputs@.len() {
                    adder_pins_agree(values, nets, cell, index, slice.pins) && (nets(
                        cell.outputs@[index],
                    ) == values(net_wire(cell.outputs@[index])) ==> bits_agree(
                        values,
                        nets,
                        after.bits,
                    ))
                } else {
                    bits_agree(values, nets, after.bits)
                }
            }
        }),
{
    let limit = cell.outputs@[0] as int;
    let slice = adder_slice(inputs, state, cell, index);
    let after = slice.state;
    if index < cell.outputs@.len() {
        lemma_operands(inputs, cell, index);
        let lhs = net_mapped(inputs.nodes, inputs.plans, state, cell.lhs@[index]);
        let rhs = net_mapped(inputs.nodes, inputs.plans, lhs, cell.rhs@[index]);
        lemma_operand_mapped(values, nets, inputs, state, cell.lhs@[index], limit);
        lemma_operand_mapped(values, nets, inputs, lhs, cell.rhs@[index], limit);
        let output = cell.outputs@[index];
        assert(rhs.cells =~= after.cells.take(rhs.cells.len() as int));
        assert(covers_bits(rhs.bits, after.bits));
        lemma_extends(state, lhs, rhs);
        lemma_extends(state, rhs, after);
        lemma_still_supplied(inputs.nodes, inputs.plans, rhs.bits, after.bits, limit);
        if bits_agree(values, nets, state.bits) && cells_agree(values, after.cells) {
            lemma_agree_prefix(values, rhs.cells, after.cells);
            lemma_agree_prefix(values, lhs.cells, rhs.cells);
            if nets(output) == values(net_wire(output)) {
                assert forall|i: int| 0 <= i < after.bits.len() && (
                #[trigger] after.bits[i]) is Some implies bit_value(values, after.bits[i]->0)
                    == nets(i as NetId) by {
                    if i != output {
                        assert(after.bits[i] == rhs.bits[i]);
                    }
                }
            }
        }
    } else {
        assert(state.cells =~= after.cells.take(state.cells.len() as int));
    }
}

/// A slice that reads digit `index` drives the last digit of the total and
/// carries the other one on.
proof fn lemma_slice_digit(
    values: spec_fn(u32) -> bool,
    nets: spec_fn(NetId) -> bool,
    cell: ArithmeticCell,
    index: nat,
    pins: [Bit; 4],
)
    requires
        adder_pins_agree(values, nets, cell, index as int, pins),
    ensures
        ({
            let carry = carry_into(nets, cell, index);
            let read = |bit: Bit| bit_value(values, bit);
            &&& slice_of(read, CCU2C_ARITH_INIT, pins, carry, false) == (digit_total(
                nets,
                cell,
                index,
            ) % 2 == 1)
            &&& slice_of(read, CCU2C_ARITH_INIT, pins, carry, true) == carry_into(
                nets,
                cell,
                index + 1,
            )
        }),
{
    law_arithmetic_slice_adds(
        nets(cell.lhs@[index as int]),
        nets(cell.rhs@[index as int]),
        cell.operation is Subtract,
        carry_into(nets, cell, index),
    );
}

proof fn lemma_adder_chain(
    values: spec_fn(u32) -> bool,
    nets: spec_fn(NetId) -> bool,
    inputs: MapInputs,
    start: ChainModel,
    cell: ArithmeticCell,
    pairs: nat,
)
    requires
        can_map(inputs, start.state, cell.outputs@[0] as int),
        arithmetic_is_valid(inputs.nodes, cell),
        nodes_agree(inputs.nodes, nets),
        sums_agree(nets, cell),
        pairs <= pair_count(cell.outputs@.len()),
    ensures
        ({
            let chain = adder_chain(inputs, start, cell, pairs);
            let after = chain.state;
            &&& extends(start.state, after)
            &&& can_map(inputs, after, cell.outputs@[0] as int)
            &&& first_mapped(after.bits, cell.outputs@, 2 * pairs as int)
            &&& bits_agree(values, nets, start.state.bits) && bit_value(values, start.carry)
                == first_carry(nets, cell) && cells_agree(values, after.cells) ==> bits_agree(
                values,
                nets,
                after.bits,
            ) && (2 * pairs <= cell.outputs@.len() ==> bit_value(values, chain.carry)
                == carry_into(nets, cell, 2 * pairs))
        }),
    decreases pairs,
{
    let chain = adder_chain(inputs, start, cell, pairs);
    let after = chain.state;
    if pairs == 0 {
        assert(start.state.cells =~= after.cells.take(start.state.cells.len() as int));
    } else {
        let pair = (pairs - 1) as nat;
        let at = 2 * pair as int;
        lemma_adder_chain(values, nets, inputs, start, cell, pair);
        let rest = adder_chain(inputs, start, cell, pair);
        lemma_adder_slice(values, nets, inputs, rest.state, cell, at);
        let low = adder_slice(inputs, rest.state, cell, at);
        lemma_adder_slice(values, nets, inputs, low.state, cell, at + 1);
        let high = adder_slice(inputs, low.state, cell, at + 1);
        assert(high.state.cells =~= after.cells.take(high.state.cells.len() as int));
        assert(after.bits == high.state.bits);
        assert(extends(high.state, after));
        lemma_extends(start.state, rest.state, low.state);
        lemma_extends(start.state, low.state, high.state);
        lemma_extends(start.state, high.state, after);
        assert forall|i: int| 0 <= i < 2 * pairs && i < cell.outputs@.len() implies after.bits[(
        #[trigger] cell.outputs@[i]) as int] is Some by {
            lemma_operands(inputs, cell, i);
            if i < at {
                assert(rest.state.bits[cell.outputs@[i] as int] is Some);
                assert(low.state.bits[cell.outputs@[i] as int] is Some);
            } else if i == at {
                assert(low.state.bits[cell.outputs@[i] as int] is Some);
            }
            assert(high.state.bits[cell.outputs@[i] as int] is Some);
        }
        if bits_agree(values, nets, start.state.bits) && bit_value(values, start.carry)
            == first_carry(nets, cell) && cells_agree(values, after.cells) {
            lemma_agree_prefix(values, high.state.cells, after.cells);
            lemma_agree_prefix(values, low.state.cells, high.state.cells);
            lemma_agree_prefix(values, rest.state.cells, low.state.cells);
            assert(cell_agrees(values, after.cells[after.cells.len() - 1]));
            lemma_slice_digit(values, nets, cell, at as nat, low.pins);
            assert(nets(cell.outputs@[at]) == values(net_wire(cell.outputs@[at])));
            if at + 1 < cell.outputs@.len() {
                lemma_slice_digit(values, nets, cell, (at + 1) as nat, high.pins);
                assert(nets(cell.outputs@[at + 1]) == values(net_wire(cell.outputs@[at + 1])));
            }
        }
    }
}

/// An adder on the carry chain adds: under every valuation with which the
/// emitted cells agree, the result wires carry the digits of the sum.
pub proof fn law_adder_carries_values(
    values: spec_fn(u32) -> bool,
    nets: spec_fn(NetId) -> bool,
    inputs: MapInputs,
    state: EmitterModel,
    cell: ArithmeticCell,
)
    requires
        nodes_are_valid(inputs.nodes),
        plans_are_sound(inputs.nodes, inputs.plans, inputs.nodes.len() as int),
        arithmetic_is_valid(inputs.nodes, cell),
        supplied(inputs.nodes, inputs.plans, state.bits, cell.outputs@[0] as int),
        nodes_agree(inputs.nodes, nets),
        sums_agree(nets, cell),
    ensures
        ({
            let after = adder_mapped(inputs, state, cell);
            &&& extends(state, after)
            &&& first_mapped(after.bits, cell.outputs@, cell.outputs@.len() as int)
            &&& bits_agree(values, nets, state.bits) && cells_agree(values, after.cells)
                ==> bits_agree(values, nets, after.bits)
        }),
{
    let limit = cell.outputs@[0] as int;
    let start = carry_start(inputs, state, cell);
    let pairs = pair_count(cell.outputs@.len());
    lemma_operands(inputs, cell, 0);
    if let Some(net) = cell.carry_in {
        lemma_operand_mapped(values, nets, inputs, state, net, limit);
    } else {
        assert(state.cells =~= state.cells.take(state.cells.len() as int));
    }
    lemma_adder_chain(values, nets, inputs, start, cell, pairs);
    let after = adder_mapped(inputs, state, cell);
    lemma_extends(state, start.state, after);
    if cells_agree(values, after.cells) {
        lemma_agree_prefix(values, start.state.cells, after.cells);
    }
    assert forall|i: int| 0 <= i < cell.outputs@.len() implies after.bits[(
    #[trigger] cell.outputs@[i]) as int] is Some by {
        assert(i < 2 * pairs);
    }
}

/// The number that a word stands for in two's complement.
pub open spec fn signed_value_of(
    nets: spec_fn(NetId) -> bool,
    word: Seq<NetId>,
) -> int {
    word_value(nets, word, word.len()) - one_if(nets(word[word.len() - 1])) * assignments(
        word.len(),
    )
}

/// Whether the result of a comparison is the relation of its operands, read as
/// two's complement or not.
pub open spec fn comparison_agrees(nets: spec_fn(NetId) -> bool, cell: ComparisonCell) -> bool {
    let (lhs, rhs) = if cell.operation.with_sign() {
        (signed_value_of(nets, cell.lhs@), signed_value_of(nets, cell.rhs@))
    } else {
        (
            word_value(nets, cell.lhs@, cell.lhs@.len()) as int,
            word_value(nets, cell.rhs@, cell.rhs@.len()) as int,
        )
    };
    nets(cell.output) == if cell.operation.with_equal() {
        lhs <= rhs
    } else {
        lhs < rhs
    }
}

/// The relation of the first `count` digits: the last digits that differ decide.
spec fn relation(nets: spec_fn(NetId) -> bool, cell: ComparisonCell, count: nat) -> bool
    decreases count,
{
    if count == 0 {
        cell.operation.with_equal()
    } else if nets(cell.rhs@[count - 1]) == nets(cell.lhs@[count - 1]) {
        relation(nets, cell, (count - 1) as nat)
    } else {
        nets(cell.rhs@[count - 1])
    }
}

proof fn lemma_relation(nets: spec_fn(NetId) -> bool, cell: ComparisonCell, count: nat)
    requires
        count <= u64::MAX,
    ensures
        relation(nets, cell, count) == if cell.operation.with_equal() {
            word_value(nets, cell.lhs@, count) <= word_value(nets, cell.rhs@, count)
        } else {
            word_value(nets, cell.lhs@, count) < word_value(nets, cell.rhs@, count)
        },
    decreases count,
{
    if count > 0 {
        let last = (count - 1) as nat;
        lemma_relation(nets, cell, last);
        lemma_word_step(nets, cell.lhs@, count);
        lemma_word_step(nets, cell.rhs@, count);
        lemma_table_of_bound(|i: u64| nets(cell.lhs@[i as int]), last);
        lemma_table_of_bound(|i: u64| nets(cell.rhs@[i as int]), last);
        let weight = assignments(last) as int;
        assert(1 * weight == weight && 0 * weight == 0) by (nonlinear_arith);
    } else {
        assert(word_value(nets, cell.lhs@, 0) == 0);
        assert(word_value(nets, cell.rhs@, 0) == 0);
    }
}

proof fn lemma_signed_relation(nets: spec_fn(NetId) -> bool, cell: ComparisonCell)
    requires
        cell.lhs@.len() == cell.rhs@.len(),
        0 < cell.lhs@.len() <= u64::MAX,
        cell.operation.with_sign(),
        comparison_agrees(nets, cell),
    ensures
        ({
            let top = cell.lhs@.len() - 1;
            nets(cell.output) == if nets(cell.lhs@[top]) == nets(cell.rhs@[top]) {
                relation(nets, cell, cell.lhs@.len())
            } else {
                nets(cell.lhs@[top])
            }
        }),
{
    let width = cell.lhs@.len();
    lemma_relation(nets, cell, width);
    lemma_table_of_bound(|i: u64| nets(cell.lhs@[i as int]), width);
    lemma_table_of_bound(|i: u64| nets(cell.rhs@[i as int]), width);
    let weight = assignments(width) as int;
    assert(1 * weight == weight && 0 * weight == 0) by (nonlinear_arith);
}

proof fn lemma_compared(inputs: MapInputs, cell: ComparisonCell, index: int)
    requires
        comparison_is_valid(inputs.nodes, cell),
        0 <= index < cell.lhs@.len(),
    ensures
        readable(inputs.nodes, cell.lhs@[index]),
        readable(inputs.nodes, cell.rhs@[index]),
        cell.lhs@[index] < cell.output,
        cell.rhs@[index] < cell.output,
{
    let reads = comparison_reads(cell);
    assert(reads[index] == cell.lhs@[index]);
    assert(reads[cell.lhs@.len() + index] == cell.rhs@[index]);
    assert(readable(inputs.nodes, reads[index]));
    assert(readable(inputs.nodes, reads[cell.lhs@.len() + index]));
}

/// What a slice of a comparison reads; past the top it reads nothing.
spec fn comparison_pins_agree(
    values: spec_fn(u32) -> bool,
    nets: spec_fn(NetId) -> bool,
    cell: ComparisonCell,
    index: int,
    pins: [Bit; 4],
) -> bool {
    &&& bit_value(values, pins[0]) == (index < cell.lhs@.len() && nets(cell.rhs@[index]))
    &&& bit_value(values, pins[1]) == (index < cell.lhs@.len() && nets(cell.lhs@[index]))
    &&& bit_value(values, pins[2])
    &&& bit_value(values, pins[3])
}

proof fn lemma_comparison_slice(
    values: spec_fn(u32) -> bool,
    nets: spec_fn(NetId) -> bool,
    inputs: MapInputs,
    state: EmitterModel,
    cell: ComparisonCell,
    index: int,
)
    requires
        can_map(inputs, state, cell.output as int),
        comparison_is_valid(inputs.nodes, cell),
        nodes_agree(inputs.nodes, nets),
        0 <= index,
    ensures
        ({
            let slice = comparison_slice(inputs, state, cell, index);
            let after = slice.state;
            &&& extends(state, after)
            &&& can_map(inputs, after, cell.output as int)
            &&& bits_agree(values, nets, state.bits) && cells_agree(values, after.cells)
                ==> bits_agree(values, nets, after.bits) && comparison_pins_agree(
                values,
                nets,
                cell,
                index,
                slice.pins,
            )
        }),
{
    let after = comparison_slice(inputs, state, cell, index).state;
    let limit = cell.output as int;
    if index < cell.lhs@.len() {
        lemma_compared(inputs, cell, index);
        let rhs = net_mapped(inputs.nodes, inputs.plans, state, cell.rhs@[index]);
        let lhs = net_mapped(inputs.nodes, inputs.plans, rhs, cell.lhs@[index]);
        lemma_operand_mapped(values, nets, inputs, state, cell.rhs@[index], limit);
        lemma_operand_mapped(values, nets, inputs, rhs, cell.lhs@[index], limit);
        assert(lhs.cells == after.cells && lhs.bits == after.bits);
        lemma_extends(state, rhs, lhs);
        if cells_agree(values, after.cells) {
            lemma_agree_prefix(values, rhs.cells, lhs.cells);
        }
    } else {
        assert(state.cells =~= after.cells.take(state.cells.len() as int));
    }
}

/// The digits that are compared up to `index`, at most all.
spec fn compared(cell: ComparisonCell, index: nat) -> nat {
    if index < cell.lhs@.len() {
        index
    } else {
        cell.lhs@.len()
    }
}

proof fn lemma_slice_relation(
    values: spec_fn(u32) -> bool,
    nets: spec_fn(NetId) -> bool,
    cell: ComparisonCell,
    index: nat,
    pins: [Bit; 4],
)
    requires
        comparison_pins_agree(values, nets, cell, index as int, pins),
    ensures
        slice_of(
            |bit: Bit| bit_value(values, bit),
            CCU2C_ARITH_INIT,
            pins,
            relation(nets, cell, compared(cell, index)),
            true,
        ) == relation(nets, cell, compared(cell, index + 1)),
{
    law_arithmetic_slice_adds(
        bit_value(values, pins[0]),
        bit_value(values, pins[1]),
        true,
        relation(nets, cell, compared(cell, index)),
    );
}

proof fn lemma_comparison_chain(
    values: spec_fn(u32) -> bool,
    nets: spec_fn(NetId) -> bool,
    inputs: MapInputs,
    start: EmitterModel,
    cell: ComparisonCell,
    pairs: nat,
)
    requires
        can_map(inputs, start, cell.output as int),
        comparison_is_valid(inputs.nodes, cell),
        nodes_agree(inputs.nodes, nets),
    ensures
        ({
            let chain = comparison_chain(inputs, start, cell, pairs);
            let after = chain.state;
            &&& extends(start, after)
            &&& can_map(inputs, after, cell.output as int)
            &&& bits_agree(values, nets, start.bits) && cells_agree(values, after.cells)
                ==> bits_agree(values, nets, after.bits) && bit_value(values, chain.carry)
                == relation(nets, cell, compared(cell, 2 * pairs))
        }),
    decreases pairs,
{
    let chain = comparison_chain(inputs, start, cell, pairs);
    let after = chain.state;
    if pairs == 0 {
        assert(start.cells =~= after.cells.take(start.cells.len() as int));
    } else {
        let pair = (pairs - 1) as nat;
        let at = 2 * pair as int;
        lemma_comparison_chain(values, nets, inputs, start, cell, pair);
        let rest = comparison_chain(inputs, start, cell, pair);
        lemma_comparison_slice(values, nets, inputs, rest.state, cell, at);
        let low = comparison_slice(inputs, rest.state, cell, at);
        lemma_comparison_slice(values, nets, inputs, low.state, cell, at + 1);
        let high = comparison_slice(inputs, low.state, cell, at + 1);
        assert(high.state.cells =~= after.cells.take(high.state.cells.len() as int));
        assert(after.bits == high.state.bits);
        assert(extends(high.state, after));
        lemma_extends(start, rest.state, low.state);
        lemma_extends(start, low.state, high.state);
        lemma_extends(start, high.state, after);
        if bits_agree(values, nets, start.bits) && cells_agree(values, after.cells) {
            lemma_agree_prefix(values, high.state.cells, after.cells);
            lemma_agree_prefix(values, low.state.cells, high.state.cells);
            lemma_agree_prefix(values, rest.state.cells, low.state.cells);
            assert(cell_agrees(values, after.cells[after.cells.len() - 1]));
            lemma_slice_relation(values, nets, cell, at as nat, low.pins);
            lemma_slice_relation(values, nets, cell, (at + 1) as nat, high.pins);
        }
    }
}

proof fn lemma_signed_table(a: bool, b: bool, c: bool)
    ensures
        table_bit(table_of(|x: u64| signed_value(x), 16) as u16, pin_index(a, b, c, false)) == if a
            == b {
            c
        } else {
            a
        },
{
    lemma_pin_digits(a, b, c);
    lemma_lut_entry(|x: u64| signed_value(x), a, b, c, false);
}

/// A comparison on the carry chain compares: under every valuation with which
/// the emitted cells agree, the result wire carries the relation of the operands.
pub proof fn law_comparison_carries_values(
    values: spec_fn(u32) -> bool,
    nets: spec_fn(NetId) -> bool,
    inputs: MapInputs,
    state: EmitterModel,
    cell: ComparisonCell,
)
    requires
        nodes_are_valid(inputs.nodes),
        plans_are_sound(inputs.nodes, inputs.plans, inputs.nodes.len() as int),
        comparison_is_valid(inputs.nodes, cell),
        supplied(inputs.nodes, inputs.plans, state.bits, cell.output as int),
        nodes_agree(inputs.nodes, nets),
        cell.lhs@.len() <= u64::MAX,
        comparison_agrees(nets, cell),
    ensures
        ({
            let after = comparison_mapped(inputs, state, cell);
            &&& extends(state, after)
            &&& after.bits[cell.output as int] is Some
            &&& bits_agree(values, nets, state.bits) && cells_agree(values, after.cells)
                ==> bits_agree(values, nets, after.bits)
        }),
{
    let limit = cell.output as int;
    let width = cell.lhs@.len();
    let pairs = pair_count(width);
    let chain = comparison_chain(inputs, state, cell, pairs);
    let after = comparison_mapped(inputs, state, cell);
    lemma_comparison_chain(values, nets, inputs, state, cell, pairs);
    lemma_relation(nets, cell, width);
    assert(compared(cell, 2 * pairs) == width);
    if cell.operation.with_sign() {
        let top = width - 1;
        lemma_compared(inputs, cell, top);
        let lhs = net_mapped(inputs.nodes, inputs.plans, chain.state, cell.lhs@[top]);
        let rhs = net_mapped(inputs.nodes, inputs.plans, lhs, cell.rhs@[top]);
        lemma_operand_mapped(values, nets, inputs, chain.state, cell.lhs@[top], limit);
        lemma_operand_mapped(values, nets, inputs, lhs, cell.rhs@[top], limit);
        assert(rhs.cells =~= after.cells.take(rhs.cells.len() as int));
        assert(covers_bits(rhs.bits, after.bits));
        lemma_extends(state, chain.state, lhs);
        lemma_extends(state, lhs, rhs);
        lemma_extends(state, rhs, after);
        if bits_agree(values, nets, state.bits) && cells_agree(values, after.cells) {
            lemma_agree_prefix(values, rhs.cells, after.cells);
            lemma_agree_prefix(values, lhs.cells, rhs.cells);
            lemma_agree_prefix(values, chain.state.cells, lhs.cells);
            assert(cell_agrees(values, after.cells[after.cells.len() - 1]));
            lemma_signed_table(
                nets(cell.lhs@[top]),
                nets(cell.rhs@[top]),
                relation(nets, cell, width),
            );
            lemma_signed_relation(nets, cell);
            assert(values(net_wire(cell.output)) == nets(cell.output));
            assert forall|i: int| 0 <= i < after.bits.len() && (
            #[trigger] after.bits[i]) is Some implies bit_value(values, after.bits[i]->0) == nets(
                i as NetId,
            ) by {
                if i != cell.output {
                    assert(after.bits[i] == rhs.bits[i]);
                }
            }
        }
    } else {
        assert(chain.state.cells =~= after.cells.take(chain.state.cells.len() as int));
        assert(covers_bits(chain.state.bits, after.bits));
        lemma_extends(state, chain.state, after);
        if bits_agree(values, nets, state.bits) && cells_agree(values, after.cells) {
            assert forall|i: int| 0 <= i < after.bits.len() && (
            #[trigger] after.bits[i]) is Some implies bit_value(values, after.bits[i]->0) == nets(
                i as NetId,
            ) by {
                if i != cell.output {
                    assert(after.bits[i] == chain.state.bits[i]);
                }
            }
        }
    }
}

} // verus!
