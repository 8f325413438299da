//! Mapping of retained adders, subtractors and comparisons.

use vstd::prelude::*;

use crate::cells::Bit;
use crate::cells::CellModel;
use crate::cells::Ecp5Cell;
use crate::constraints::ArithmeticMapping;
use crate::cover::plans_are_sound;
use crate::emit::bit_of;
use crate::emit::constant_bit;
use crate::emit::keeps_bits;
use crate::emit::net_mapped;
use crate::emit::supplied;
use crate::emit::wire_taken;
use crate::emit::with_alias;
use crate::emit::with_cell;
use crate::emit::EmitterModel;
use crate::emit::LutEmitter;
use crate::ir::all_of_kind;
use crate::ir::arithmetic_is_valid;
use crate::ir::arithmetic_reads;
use crate::ir::carry_net;
use crate::ir::comparison_is_valid;
use crate::ir::comparison_reads;
use crate::ir::net_wire;
use crate::ir::node_is_connected;
use crate::ir::readable;
use crate::ir::wire_number;
use crate::ir::ArithmeticCell;
use crate::ir::ArithmeticOp;
use crate::ir::ComparisonCell;
use crate::ir::NetId;
use crate::ir::Netlist;
use crate::ir::Node;
use crate::ir::NodeKind;
use crate::plans::plan_models;
use crate::plans::LutPlan;
use crate::plans::PlanModel;
use crate::retained::arithmetic_uses_carry;
use crate::retained::uses_carry;
use crate::text::decimal;
use crate::text::decimal_text;
use crate::text::join;
use crate::wires::assigned;
use crate::wires::assignments;
use crate::wires::lemma_table_of_bound;
use crate::wires::table_of;
use crate::wires::test_assigned;

verus! {

/// Truth table of each half of a CCU2C that adds: the sum of A and B, with B
/// negated where C is one, and the generated or propagated carry.
pub const CCU2C_ARITH_INIT: u16 = 0x96aa;

/// The sixteen-entry table with these values.
pub fn table_from(values: &Vec<bool>) -> (table: u16)
    requires
        values@.len() == 16,
    ensures
        table == table_of(|assignment: u64| values@[assignment as int], 16),
{
    let ghost value = |assignment: u64| values@[assignment as int];
    let mut table: u16 = 0;
    let mut weight: u16 = 1;
    let mut assignment: u64 = 0;
    proof {
        reveal_with_fuel(assignments, 17);
    }
    while assignment < 16
        invariant
            values@.len() == 16,
            value == (|assignment: u64| values@[assignment as int]),
            assignment <= 16,
            assignment < 16 ==> weight == assignments(assignment as nat),
            table == table_of(value, assignment as nat),
        decreases 16 - assignment,
    {
        let holds = values[assignment as usize];
        assert(holds == value(assignment));
        proof {
            reveal_with_fuel(assignments, 17);
            lemma_table_of_bound(value, (assignment + 1) as nat);
            lemma_table_of_bound(value, assignment as nat);
        }
        if holds {
            table = table + weight;
        }
        if assignment < 15 {
            weight = weight * 2;
        }
        assignment = assignment + 1;
    }
    table
}

/// Tables with equal values are equal.
pub proof fn lemma_table_of_same(
    first: spec_fn(u64) -> bool,
    second: spec_fn(u64) -> bool,
    count: nat,
)
    requires
        count <= u64::MAX,
        forall|a: u64| a < count ==> #[trigger] first(a) == second(a),
    ensures
        table_of(first, count) == table_of(second, count),
    decreases count,
{
    if count > 0 {
        lemma_table_of_same(first, second, (count - 1) as nat);
        assert(first((count - 1) as u64) == second((count - 1) as u64));
    }
}

/// One where `value` holds, else zero.
pub open spec fn one_if(value: bool) -> int {
    if value {
        1
    } else {
        0
    }
}

/// Whether the result of one adder place is set: the low bit of the sum of the
/// first operand, the second (negated to subtract) and the carry, or its high bit.
pub open spec fn adder_value(subtract: bool, carry_output: bool, assignment: u64) -> bool {
    let total = one_if(assigned(assignment, 0)) + one_if(assigned(assignment, 1) != subtract)
        + one_if(assigned(assignment, 2));
    if carry_output {
        total >= 2
    } else {
        total % 2 == 1
    }
}

/// Truth table of one adder place over first operand, second operand and carry.
pub fn arithmetic_truth_table(subtract: bool, carry_output: bool) -> (table: u16)
    ensures
        table == table_of(
            |assignment: u64| adder_value(subtract, carry_output, assignment),
            16,
        ),
{
    let mut values: Vec<bool> = Vec::new();
    for assignment in 0..16
        invariant
            values@.len() == assignment,
            forall|j: int|
                0 <= j < assignment ==> values@[j] == adder_value(subtract, carry_output, j as u64),
    {
        let lhs = test_assigned(assignment as u64, 0);
        let rhs = test_assigned(assignment as u64, 1) != subtract;
        let carry = test_assigned(assignment as u64, 2);
        let value = if carry_output {
            (lhs && rhs) || (lhs && carry) || (rhs && carry)
        } else {
            (lhs != rhs) != carry
        };
        values.push(value);
    }
    proof {
        lemma_table_of_same(
            |assignment: u64| values@[assignment as int],
            |assignment: u64| adder_value(subtract, carry_output, assignment),
            16,
        );
    }
    table_from(&values)
}

/// Whether a signed relation holds: that of the unsigned operands where the
/// signs agree, else whether the first operand is the negative one.
pub open spec fn signed_value(assignment: u64) -> bool {
    if assigned(assignment, 0) == assigned(assignment, 1) {
        assigned(assignment, 2)
    } else {
        assigned(assignment, 0)
    }
}

/// Truth table of a signed relation over both signs and the unsigned relation.
pub fn signed_comparison_truth_table() -> (table: u16)
    ensures
        table == table_of(|assignment: u64| signed_value(assignment), 16),
{
    let mut values: Vec<bool> = Vec::new();
    for assignment in 0..16
        invariant
            values@.len() == assignment,
            forall|j: int| 0 <= j < assignment ==> values@[j] == signed_value(j as u64),
    {
        let lhs_sign = test_assigned(assignment as u64, 0);
        let rhs_sign = test_assigned(assignment as u64, 1);
        let relation = test_assigned(assignment as u64, 2);
        values.push(
            if lhs_sign == rhs_sign {
                relation
            } else {
                lhs_sign
            },
        );
    }
    proof {
        lemma_table_of_same(
            |assignment: u64| values@[assignment as int],
            |assignment: u64| signed_value(assignment),
            16,
        );
    }
    table_from(&values)
}

/// What mapping reads besides the emitter: the nodes and their plans.
pub ghost struct MapInputs {
    pub nodes: Seq<Node>,
    pub plans: Seq<Option<PlanModel>>,
}

/// One half of a CCU2C: the state after its operands were mapped, its pins and its sum wire.
pub ghost struct SliceModel {
    pub state: EmitterModel,
    pub pins: [Bit; 4],
    pub sum: u32,
}

/// Half of an adder at result bit `index`; past the top it only passes the carry on.
pub open spec fn adder_slice(
    inputs: MapInputs,
    state: EmitterModel,
    cell: ArithmeticCell,
    index: int,
) -> SliceModel {
    let subtract = constant_bit(cell.operation is Subtract);
    if index < cell.outputs@.len() {
        let lhs = net_mapped(inputs.nodes, inputs.plans, state, cell.lhs@[index]);
        let rhs = net_mapped(inputs.nodes, inputs.plans, lhs, cell.rhs@[index]);
        let sum = net_wire(cell.outputs@[index]);
        SliceModel {
            state: with_alias(rhs, cell.outputs@[index], Bit::Wire(sum)),
            pins: [
                bit_of(lhs.bits, cell.lhs@[index]),
                bit_of(rhs.bits, cell.rhs@[index]),
                subtract,
                Bit::One,
            ],
            sum,
        }
    } else {
        SliceModel {
            state: wire_taken(state),
            pins: [Bit::Zero, Bit::Zero, subtract, Bit::One],
            sum: state.next_wire,
        }
    }
}

/// The state and the carry along a chain.
pub ghost struct ChainModel {
    pub state: EmitterModel,
    pub carry: Bit,
}

/// A name with a numbered suffix.
pub open spec fn numbered(prefix: Seq<char>, name: Seq<char>, middle: Seq<char>, n: nat) -> Seq<
    char,
> {
    prefix + name + middle + decimal_text(n)
}

fn numbered_name(prefix: &str, name: &String, middle: &str, n: usize) -> (text: String)
    ensures
        text@ == numbered(prefix@, name@, middle@, n as nat),
{
    let mut text = join(prefix, name.as_str());
    text.append(middle);
    text.append(decimal(n as u128).as_str());
    text
}

/// The first `pairs` CCU2C cells of an adder.
pub open spec fn adder_chain(
    inputs: MapInputs,
    start: ChainModel,
    cell: ArithmeticCell,
    pairs: nat,
) -> ChainModel
    decreases pairs,
{
    if pairs == 0 {
        start
    } else {
        let pair = (pairs - 1) as nat;
        let rest = adder_chain(inputs, start, cell, pair);
        let low = adder_slice(inputs, rest.state, cell, 2 * pair as int);
        let high = adder_slice(inputs, low.state, cell, 2 * pair as int + 1);
        let carry_out = high.state.next_wire;
        ChainModel {
            state: with_cell(
                wire_taken(high.state),
                CellModel::Ccu2c {
                    name: numbered("ccu_"@, cell.name@, "_"@, pair),
                    inputs: [low.pins, high.pins],
                    carry_in: rest.carry,
                    sums: [low.sum, high.sum],
                    carry_out,
                    init: [CCU2C_ARITH_INIT, CCU2C_ARITH_INIT],
                    inject: [false, false],
                },
            ),
            carry: Bit::Wire(carry_out),
        }
    }
}

/// The state and the carry that enters the lowest place.
pub open spec fn carry_start(
    inputs: MapInputs,
    state: EmitterModel,
    cell: ArithmeticCell,
) -> ChainModel {
    match cell.carry_in {
        Some(net) => {
            let mapped = net_mapped(inputs.nodes, inputs.plans, state, net);
            ChainModel { state: mapped, carry: bit_of(mapped.bits, net) }
        },
        None => ChainModel { state, carry: constant_bit(cell.operation is Subtract) },
    }
}

/// The number of pairs that hold `width` places.
pub open spec fn pair_count(width: nat) -> nat {
    (width + 1) / 2
}

/// The state after an adder was mapped to the carry chain.
pub open spec fn adder_mapped(
    inputs: MapInputs,
    state: EmitterModel,
    cell: ArithmeticCell,
) -> EmitterModel {
    adder_chain(
        inputs,
        carry_start(inputs, state, cell),
        cell,
        pair_count(cell.outputs@.len()),
    ).state
}

/// The first `count` places of an adder in lookup tables.
pub open spec fn ripple_places(
    inputs: MapInputs,
    start: ChainModel,
    cell: ArithmeticCell,
    count: nat,
) -> ChainModel
    decreases count,
{
    if count == 0 {
        start
    } else {
        let bit = (count - 1) as nat;
        let rest = ripple_places(inputs, start, cell, bit);
        let subtract = cell.operation is Subtract;
        let lhs = net_mapped(inputs.nodes, inputs.plans, rest.state, cell.lhs@[bit as int]);
        let rhs = net_mapped(inputs.nodes, inputs.plans, lhs, cell.rhs@[bit as int]);
        let pins = [
            bit_of(lhs.bits, cell.lhs@[bit as int]),
            bit_of(rhs.bits, cell.rhs@[bit as int]),
            rest.carry,
            Bit::Zero,
        ];
        let output = net_wire(cell.outputs@[bit as int]);
        let summed = with_alias(
            with_cell(
                rhs,
                CellModel::Lut4 {
                    name: numbered("lut_"@, cell.name@, "_sum_"@, bit),
                    inputs: pins,
                    output,
                    init: table_of(|a: u64| adder_value(subtract, false, a), 16) as u16,
                },
            ),
            cell.outputs@[bit as int],
            Bit::Wire(output),
        );
        if count < cell.outputs@.len() {
            let carry_out = summed.next_wire;
            ChainModel {
                state: with_cell(
                    wire_taken(summed),
                    CellModel::Lut4 {
                        name: numbered("lut_"@, cell.name@, "_carry_"@, bit),
                        inputs: pins,
                        output: carry_out,
                        init: table_of(|a: u64| adder_value(subtract, true, a), 16) as u16,
                    },
                ),
                carry: Bit::Wire(carry_out),
            }
        } else {
            ChainModel { state: summed, carry: rest.carry }
        }
    }
}

/// The state after an adder was mapped to lookup tables.
pub open spec fn ripple_mapped(
    inputs: MapInputs,
    state: EmitterModel,
    cell: ArithmeticCell,
) -> EmitterModel {
    ripple_places(inputs, carry_start(inputs, state, cell), cell, cell.outputs@.len()).state
}

/// Half of a comparison at operand bit `index`: the second operand less the first.
pub open spec fn comparison_slice(
    inputs: MapInputs,
    state: EmitterModel,
    cell: ComparisonCell,
    index: int,
) -> SliceModel {
    if index < cell.lhs@.len() {
        let rhs = net_mapped(inputs.nodes, inputs.plans, state, cell.rhs@[index]);
        let lhs = net_mapped(inputs.nodes, inputs.plans, rhs, cell.lhs@[index]);
        SliceModel {
            state: wire_taken(lhs),
            pins: [
                bit_of(rhs.bits, cell.rhs@[index]),
                bit_of(lhs.bits, cell.lhs@[index]),
                Bit::One,
                Bit::One,
            ],
            sum: lhs.next_wire,
        }
    } else {
        SliceModel {
            state: wire_taken(state),
            pins: [Bit::Zero, Bit::Zero, Bit::One, Bit::One],
            sum: state.next_wire,
        }
    }
}

/// The first `pairs` CCU2C cells of a comparison.
pub open spec fn comparison_chain(
    inputs: MapInputs,
    start: EmitterModel,
    cell: ComparisonCell,
    pairs: nat,
) -> ChainModel
    decreases pairs,
{
    if pairs == 0 {
        ChainModel { state: start, carry: constant_bit(cell.operation.with_equal()) }
    } else {
        let pair = (pairs - 1) as nat;
        let rest = comparison_chain(inputs, start, cell, pair);
        let low = comparison_slice(inputs, rest.state, cell, 2 * pair as int);
        let high = comparison_slice(inputs, low.state, cell, 2 * pair as int + 1);
        let direct = pairs == pair_count(cell.lhs@.len()) && !cell.operation.with_sign();
        let carry_out = if direct {
            net_wire(cell.output)
        } else {
            high.state.next_wire
        };
        let state = if direct {
            high.state
        } else {
            wire_taken(high.state)
        };
        ChainModel {
            state: with_cell(
                state,
                CellModel::Ccu2c {
                    name: numbered("ccu_"@, cell.name@, "_"@, pair),
                    inputs: [low.pins, high.pins],
                    carry_in: rest.carry,
                    sums: [low.sum, high.sum],
                    carry_out,
                    init: [CCU2C_ARITH_INIT, CCU2C_ARITH_INIT],
                    inject: [false, false],
                },
            ),
            carry: Bit::Wire(carry_out),
        }
    }
}

/// The state after a comparison was mapped.
pub open spec fn comparison_mapped(
    inputs: MapInputs,
    state: EmitterModel,
    cell: ComparisonCell,
) -> EmitterModel {
    let chain = comparison_chain(inputs, state, cell, pair_count(cell.lhs@.len()));
    if cell.operation.with_sign() {
        let top = cell.lhs@.len() - 1;
        let lhs = net_mapped(inputs.nodes, inputs.plans, chain.state, cell.lhs@[top]);
        let rhs = net_mapped(inputs.nodes, inputs.plans, lhs, cell.rhs@[top]);
        let output = net_wire(cell.output);
        with_alias(
            with_cell(
                rhs,
                CellModel::Lut4 {
                    name: "lut_"@ + cell.name@ + "_signed"@,
                    inputs: [
                        bit_of(lhs.bits, cell.lhs@[top]),
                        bit_of(rhs.bits, cell.rhs@[top]),
                        chain.carry,
                        Bit::Zero,
                    ],
                    output,
                    init: table_of(|a: u64| signed_value(a), 16) as u16,
                },
            ),
            cell.output,
            Bit::Wire(output),
        )
    } else {
        with_alias(chain.state, cell.output, chain.carry)
    }
}

/// What the mapping functions read.
pub struct MapContext<'a> {
    /// The netlist.
    pub netlist: &'a Netlist,
    /// The plan of each gate.
    pub plans: &'a Vec<Option<LutPlan>>,
}

impl MapContext<'_> {
    /// What the context holds.
    pub open spec fn inputs(&self) -> MapInputs {
        MapInputs { nodes: self.netlist.nodes@, plans: plan_models(self.plans@) }
    }

    /// Whether the netlist is valid and every gate has a sound plan.
    pub open spec fn is_sound(&self) -> bool {
        self.netlist.is_valid() && plans_are_sound(
            self.netlist.nodes@,
            plan_models(self.plans@),
            self.netlist.nodes@.len() as int,
        )
    }

    /// Whether every readable net below `limit` can be mapped.
    pub open spec fn supplies(&self, emitter: LutEmitter, limit: int) -> bool {
        supplied(self.netlist.nodes@, plan_models(self.plans@), emitter.bits@, limit)
    }
}

/// Whether the nets mapped before still are, and at most more are.
pub open spec fn covers_bits(before: Seq<Option<Bit>>, after: Seq<Option<Bit>>) -> bool {
    before.len() == after.len() && forall|i: int|
        0 <= i < before.len() && before[i] is Some ==> (#[trigger] after[i]) is Some
}

proof fn lemma_operand(netlist: Netlist, cell: int, bit: int)
    requires
        netlist.is_valid(),
        0 <= cell < netlist.arithmetic@.len(),
        0 <= bit < netlist.arithmetic@[cell].outputs@.len(),
    ensures
        ({
            let c = netlist.arithmetic@[cell];
            &&& c.lhs@.len() == c.outputs@.len()
            &&& c.rhs@.len() == c.outputs@.len()
            &&& readable(netlist.nodes@, c.lhs@[bit])
            &&& readable(netlist.nodes@, c.rhs@[bit])
            &&& c.lhs@[bit] < c.outputs@[0]
            &&& c.rhs@[bit] < c.outputs@[0]
            &&& c.outputs@[bit] < netlist.nodes@.len()
            &&& c.carry_in matches Some(net) ==> readable(netlist.nodes@, net) && net
                < c.outputs@[0]
        }),
{
    let c = netlist.arithmetic@[cell];
    let reads = arithmetic_reads(c);
    assert(arithmetic_is_valid(netlist.nodes@, c));
    assert(reads[bit] == c.lhs@[bit]);
    assert(readable(netlist.nodes@, reads[bit]));
    assert(reads[c.lhs@.len() + bit] == c.rhs@[bit]);
    assert(readable(netlist.nodes@, reads[c.lhs@.len() + bit]));
    if let Some(net) = c.carry_in {
        let at = c.lhs@.len() + c.rhs@.len();
        assert(carry_net(c.carry_in)[0] == net);
        assert(reads[at as int] == net);
        assert(readable(netlist.nodes@, reads[at as int]));
    }
}

proof fn lemma_compared(netlist: Netlist, cell: int, bit: int)
    requires
        netlist.is_valid(),
        0 <= cell < netlist.comparisons@.len(),
        0 <= bit < netlist.comparisons@[cell].lhs@.len(),
    ensures
        ({
            let c = netlist.comparisons@[cell];
            &&& c.rhs@.len() == c.lhs@.len()
            &&& readable(netlist.nodes@, c.lhs@[bit])
            &&& readable(netlist.nodes@, c.rhs@[bit])
            &&& c.lhs@[bit] < c.output
            &&& c.rhs@[bit] < c.output
        }),
{
    let c = netlist.comparisons@[cell];
    let reads = comparison_reads(c);
    assert(comparison_is_valid(netlist.nodes@, c));
    assert(reads[bit] == c.lhs@[bit]);
    assert(readable(netlist.nodes@, reads[bit]));
    assert(reads[c.lhs@.len() + bit] == c.rhs@[bit]);
    assert(readable(netlist.nodes@, reads[c.lhs@.len() + bit]));
}

fn start_carry(context: &MapContext, emitter: &mut LutEmitter, cell: usize) -> (carry: Bit)
    requires
        context.is_sound(),
        cell < context.netlist.arithmetic@.len(),
        context.supplies(*old(emitter), context.netlist.arithmetic@[cell as int].outputs@[0] as int),
    ensures
        (ChainModel { state: final(emitter)@, carry }) == carry_start(
            context.inputs(),
            old(emitter)@,
            context.netlist.arithmetic@[cell as int],
        ),
        keeps_bits(old(emitter).bits@, final(emitter).bits@),
{
    let arithmetic = &context.netlist.arithmetic[cell];
    proof {
        assert(arithmetic_is_valid(context.netlist.nodes@, *arithmetic));
        lemma_operand(*context.netlist, cell as int, 0);
    }
    match arithmetic.carry_in {
        Some(net) => emitter.map_net(context.netlist, context.plans, net),
        None => Bit::from(arithmetic.operation == ArithmeticOp::Subtract),
    }
}

fn map_adder_slice(
    context: &MapContext,
    emitter: &mut LutEmitter,
    cell: usize,
    index: usize,
) -> (slice: ([Bit; 4], u32))
    requires
        context.is_sound(),
        cell < context.netlist.arithmetic@.len(),
        context.supplies(*old(emitter), context.netlist.arithmetic@[cell as int].outputs@[0] as int),
    ensures
        (SliceModel { state: final(emitter)@, pins: slice.0, sum: slice.1 }) == adder_slice(
            context.inputs(),
            old(emitter)@,
            context.netlist.arithmetic@[cell as int],
            index as int,
        ),
        covers_bits(old(emitter).bits@, final(emitter).bits@),
        index < context.netlist.arithmetic@[cell as int].outputs@.len() ==> final(emitter).bits@[context.netlist.arithmetic@[cell as int].outputs@[index as int] as int] is Some,
{
    let arithmetic = &context.netlist.arithmetic[cell];
    let subtract = Bit::from(arithmetic.operation == ArithmeticOp::Subtract);
    if index < arithmetic.outputs.len() {
        proof {
            lemma_operand(*context.netlist, cell as int, index as int);
        }
        let lhs = emitter.map_net(context.netlist, context.plans, arithmetic.lhs[index]);
        let rhs = emitter.map_net(context.netlist, context.plans, arithmetic.rhs[index]);
        let sum = wire_number(arithmetic.outputs[index]);
        emitter.alias_net(arithmetic.outputs[index], Bit::Wire(sum));
        ([lhs, rhs, subtract, Bit::One], sum)
    } else {
        let sum = emitter.fresh_wire();
        ([Bit::Zero, Bit::Zero, subtract, Bit::One], sum)
    }
}

/// Whether the first `count` of `nets` are mapped.
pub open spec fn first_mapped(bits: Seq<Option<Bit>>, nets: Seq<NetId>, count: int) -> bool {
    forall|i: int| 0 <= i < count && i < nets.len() ==> bits[(#[trigger] nets[i]) as int] is Some
}

/// Maps an adder to the carry chain.
pub fn map_arithmetic_carry(context: &MapContext, emitter: &mut LutEmitter, cell: usize)
    requires
        context.is_sound(),
        cell < context.netlist.arithmetic@.len(),
        context.supplies(*old(emitter), context.netlist.arithmetic@[cell as int].outputs@[0] as int),
    ensures
        final(emitter)@ == adder_mapped(
            context.inputs(),
            old(emitter)@,
            context.netlist.arithmetic@[cell as int],
        ),
        covers_bits(old(emitter).bits@, final(emitter).bits@),
        first_mapped(
            final(emitter).bits@,
            context.netlist.arithmetic@[cell as int].outputs@,
            context.netlist.arithmetic@[cell as int].outputs@.len() as int,
        ),
{
    let arithmetic = &context.netlist.arithmetic[cell];
    let ghost before = emitter@;
    let ghost inputs = context.inputs();
    let ghost limit = arithmetic.outputs@[0] as int;
    let mut carry = start_carry(context, emitter, cell);
    let ghost start = carry_start(inputs, before, *arithmetic);
    let width: usize = arithmetic.outputs.len();
    let pairs: usize = width / 2 + width % 2;
    assert(pairs == pair_count(width as nat));
    for pair in 0..pairs
        invariant
            context.is_sound(),
            inputs == context.inputs(),
            cell < context.netlist.arithmetic@.len(),
            *arithmetic == context.netlist.arithmetic@[cell as int],
            limit == arithmetic.outputs@[0],
            width == arithmetic.outputs@.len(),
            pairs == pair_count(width as nat),
            context.supplies(*emitter, limit),
            covers_bits(before.bits, emitter.bits@),
            (ChainModel { state: emitter@, carry }) == adder_chain(
                inputs,
                start,
                *arithmetic,
                pair as nat,
            ),
            first_mapped(emitter.bits@, arithmetic.outputs@, 2 * pair as int),
    {
        let ghost rest = adder_chain(inputs, start, *arithmetic, pair as nat);
        let ghost bits0 = emitter.bits@;
        assert(rest.state == emitter@ && rest.carry == carry);
        proof {
            assert(arithmetic_is_valid(context.netlist.nodes@, *arithmetic));
            assert(all_of_kind(
                context.netlist.nodes@,
                arithmetic.outputs@,
                NodeKind::ArithmeticOutput,
            ));
            assert(forall|i: int| 0 <= i < arithmetic.outputs@.len() ==> #[trigger] arithmetic.outputs@[i] < bits0.len());
        }
        let (low_pins, low_sum) = map_adder_slice(context, emitter, cell, 2 * pair);
        let ghost low = adder_slice(inputs, rest.state, *arithmetic, 2 * pair as int);
        assert(low.state == emitter@ && low.pins == low_pins && low.sum == low_sum);
        let (high_pins, high_sum) = map_adder_slice(context, emitter, cell, 2 * pair + 1);
        let ghost high = adder_slice(inputs, low.state, *arithmetic, 2 * pair + 1);
        assert(high.state == emitter@ && high.pins == high_pins && high.sum == high_sum);
        let ghost bits1 = emitter.bits@;
        let carry_out = emitter.fresh_wire();
        emitter.push_cell(
            Ecp5Cell::Ccu2c {
                name: numbered_name("ccu_", &arithmetic.name, "_", pair),
                inputs: [low_pins, high_pins],
                carry_in: carry,
                sums: [low_sum, high_sum],
                carry_out,
                init: [CCU2C_ARITH_INIT, CCU2C_ARITH_INIT],
                inject: [false, false],
            },
        );
        carry = Bit::Wire(carry_out);
        assert(emitter.bits@ == bits1);
    }
}

/// Maps an adder to lookup tables.
pub fn map_arithmetic_luts(context: &MapContext, emitter: &mut LutEmitter, cell: usize)
    requires
        context.is_sound(),
        cell < context.netlist.arithmetic@.len(),
        context.supplies(*old(emitter), context.netlist.arithmetic@[cell as int].outputs@[0] as int),
    ensures
        final(emitter)@ == ripple_mapped(
            context.inputs(),
            old(emitter)@,
            context.netlist.arithmetic@[cell as int],
        ),
        covers_bits(old(emitter).bits@, final(emitter).bits@),
        first_mapped(
            final(emitter).bits@,
            context.netlist.arithmetic@[cell as int].outputs@,
            context.netlist.arithmetic@[cell as int].outputs@.len() as int,
        ),
{
    let arithmetic = &context.netlist.arithmetic[cell];
    let ghost before = emitter@;
    let ghost inputs = context.inputs();
    let ghost limit = arithmetic.outputs@[0] as int;
    let mut carry = start_carry(context, emitter, cell);
    let ghost start = carry_start(inputs, before, *arithmetic);
    let subtract = arithmetic.operation == ArithmeticOp::Subtract;
    let sum_table = arithmetic_truth_table(subtract, false);
    let carry_table = arithmetic_truth_table(subtract, true);
    for bit in 0..arithmetic.outputs.len()
        invariant
            context.is_sound(),
            inputs == context.inputs(),
            cell < context.netlist.arithmetic@.len(),
            *arithmetic == context.netlist.arithmetic@[cell as int],
            limit == arithmetic.outputs@[0],
            subtract == (arithmetic.operation is Subtract),
            sum_table == table_of(|a: u64| adder_value(subtract, false, a), 16),
            carry_table == table_of(|a: u64| adder_value(subtract, true, a), 16),
            context.supplies(*emitter, limit),
            covers_bits(before.bits, emitter.bits@),
            (ChainModel { state: emitter@, carry }) == ripple_places(
                inputs,
                start,
                *arithmetic,
                bit as nat,
            ),
            first_mapped(emitter.bits@, arithmetic.outputs@, bit as int),
    {
        let ghost rest = ripple_places(inputs, start, *arithmetic, bit as nat);
        let ghost bits0 = emitter.bits@;
        assert(rest.state == emitter@ && rest.carry == carry);
        proof {
            assert(arithmetic_is_valid(context.netlist.nodes@, *arithmetic));
            assert(all_of_kind(
                context.netlist.nodes@,
                arithmetic.outputs@,
                NodeKind::ArithmeticOutput,
            ));
            assert(forall|i: int| 0 <= i < arithmetic.outputs@.len() ==> #[trigger] arithmetic.outputs@[i] < bits0.len());
            lemma_operand(*context.netlist, cell as int, bit as int);
        }
        let lhs = emitter.map_net(context.netlist, context.plans, arithmetic.lhs[bit]);
        let rhs = emitter.map_net(context.netlist, context.plans, arithmetic.rhs[bit]);
        let output = wire_number(arithmetic.outputs[bit]);
        emitter.push_cell(
            Ecp5Cell::Lut4 {
                name: numbered_name("lut_", &arithmetic.name, "_sum_", bit),
                inputs: [lhs, rhs, carry, Bit::Zero],
                output,
                init: sum_table,
            },
        );
        emitter.alias_net(arithmetic.outputs[bit], Bit::Wire(output));
        let ghost bits1 = emitter.bits@;
        if bit + 1 < arithmetic.outputs.len() {
            let carry_out = emitter.fresh_wire();
            emitter.push_cell(
                Ecp5Cell::Lut4 {
                    name: numbered_name("lut_", &arithmetic.name, "_carry_", bit),
                    inputs: [lhs, rhs, carry, Bit::Zero],
                    output: carry_out,
                    init: carry_table,
                },
            );
            carry = Bit::Wire(carry_out);
        }
        assert(emitter.bits@ == bits1);
    }
}

fn map_comparison_slice(
    context: &MapContext,
    emitter: &mut LutEmitter,
    cell: usize,
    index: usize,
) -> (slice: ([Bit; 4], u32))
    requires
        context.is_sound(),
        cell < context.netlist.comparisons@.len(),
        context.supplies(*old(emitter), context.netlist.comparisons@[cell as int].output as int),
    ensures
        (SliceModel { state: final(emitter)@, pins: slice.0, sum: slice.1 }) == comparison_slice(
            context.inputs(),
            old(emitter)@,
            context.netlist.comparisons@[cell as int],
            index as int,
        ),
        keeps_bits(old(emitter).bits@, final(emitter).bits@),
{
    let comparison = &context.netlist.comparisons[cell];
    if index < comparison.lhs.len() {
        proof {
            lemma_compared(*context.netlist, cell as int, index as int);
        }
        let rhs = emitter.map_net(context.netlist, context.plans, comparison.rhs[index]);
        let lhs = emitter.map_net(context.netlist, context.plans, comparison.lhs[index]);
        let sum = emitter.fresh_wire();
        ([rhs, lhs, Bit::One, Bit::One], sum)
    } else {
        let sum = emitter.fresh_wire();
        ([Bit::Zero, Bit::Zero, Bit::One, Bit::One], sum)
    }
}

/// Maps a comparison to the carry chain, with one lookup table more where it is signed.
pub fn map_comparison_carry(context: &MapContext, emitter: &mut LutEmitter, cell: usize)
    requires
        context.is_sound(),
        cell < context.netlist.comparisons@.len(),
        context.supplies(*old(emitter), context.netlist.comparisons@[cell as int].output as int),
    ensures
        final(emitter)@ == comparison_mapped(
            context.inputs(),
            old(emitter)@,
            context.netlist.comparisons@[cell as int],
        ),
        covers_bits(old(emitter).bits@, final(emitter).bits@),
        final(emitter).bits@[context.netlist.comparisons@[cell as int].output as int] is Some,
{
    let comparison = &context.netlist.comparisons[cell];
    let ghost before = emitter@;
    let ghost inputs = context.inputs();
    let ghost limit = comparison.output as int;
    let signed = comparison.operation.is_signed();
    let mut carry = Bit::from(comparison.operation.includes_equal());
    let width: usize = comparison.lhs.len();
    let pairs: usize = width / 2 + width % 2;
    assert(pairs == pair_count(width as nat));
    assert(comparison_is_valid(context.netlist.nodes@, *comparison));
    for pair in 0..pairs
        invariant
            context.is_sound(),
            inputs == context.inputs(),
            cell < context.netlist.comparisons@.len(),
            *comparison == context.netlist.comparisons@[cell as int],
            comparison_is_valid(context.netlist.nodes@, *comparison),
            limit == comparison.output,
            width == comparison.lhs@.len(),
            pairs == pair_count(width as nat),
            signed == comparison.operation.with_sign(),
            context.supplies(*emitter, limit),
            keeps_bits(before.bits, emitter.bits@),
            (ChainModel { state: emitter@, carry }) == comparison_chain(
                inputs,
                before,
                *comparison,
                pair as nat,
            ),
    {
        let ghost rest = comparison_chain(inputs, before, *comparison, pair as nat);
        assert(rest.state == emitter@ && rest.carry == carry);
        let (low_pins, low_sum) = map_comparison_slice(context, emitter, cell, 2 * pair);
        let ghost low = comparison_slice(inputs, rest.state, *comparison, 2 * pair as int);
        assert(low.state == emitter@ && low.pins == low_pins && low.sum == low_sum);
        let (high_pins, high_sum) = map_comparison_slice(context, emitter, cell, 2 * pair + 1);
        let ghost high = comparison_slice(inputs, low.state, *comparison, 2 * pair + 1);
        assert(high.state == emitter@ && high.pins == high_pins && high.sum == high_sum);
        let carry_out = if pair + 1 == pairs && !signed {
            wire_number(comparison.output)
        } else {
            emitter.fresh_wire()
        };
        emitter.push_cell(
            Ecp5Cell::Ccu2c {
                name: numbered_name("ccu_", &comparison.name, "_", pair),
                inputs: [low_pins, high_pins],
                carry_in: carry,
                sums: [low_sum, high_sum],
                carry_out,
                init: [CCU2C_ARITH_INIT, CCU2C_ARITH_INIT],
                inject: [false, false],
            },
        );
        carry = Bit::Wire(carry_out);
    }
    let ghost chain = comparison_chain(inputs, before, *comparison, pairs as nat);
    assert(chain.state == emitter@ && chain.carry == carry);
    if signed {
        let output = wire_number(comparison.output);
        let top: usize = width - 1;
        proof {
            lemma_compared(*context.netlist, cell as int, top as int);
        }
        let lhs = emitter.map_net(context.netlist, context.plans, comparison.lhs[top]);
        let rhs = emitter.map_net(context.netlist, context.plans, comparison.rhs[top]);
        let mut name = join("lut_", comparison.name.as_str());
        name.append("_signed");
        emitter.push_cell(
            Ecp5Cell::Lut4 {
                name,
                inputs: [lhs, rhs, carry, Bit::Zero],
                output,
                init: signed_comparison_truth_table(),
            },
        );
        emitter.alias_net(comparison.output, Bit::Wire(output));
    } else {
        emitter.alias_net(comparison.output, carry);
    }
}

/// A retained cell by kind and position.
#[derive(Clone, Copy, Debug, Eq, PartialEq, Structural)]
pub enum RetainedCell {
    /// An arithmetic cell.
    Arithmetic(usize),
    /// A comparison.
    Comparison(usize),
}

/// Whether a retained cell is there.
pub open spec fn cell_is_there(netlist: Netlist, cell: RetainedCell) -> bool {
    match cell {
        RetainedCell::Arithmetic(index) => index < netlist.arithmetic@.len(),
        RetainedCell::Comparison(index) => index < netlist.comparisons@.len(),
    }
}

/// The lowest net a retained cell drives.
pub open spec fn output_index(netlist: Netlist, cell: RetainedCell) -> NetId {
    match cell {
        RetainedCell::Arithmetic(index) => netlist.arithmetic@[index as int].outputs@[0],
        RetainedCell::Comparison(index) => netlist.comparisons@[index as int].output,
    }
}

/// `order` with `cell` behind every cell that drives no later net.
pub open spec fn with_retained(
    netlist: Netlist,
    order: Seq<RetainedCell>,
    cell: RetainedCell,
) -> Seq<RetainedCell>
    decreases order.len(),
{
    if order.len() == 0 {
        seq![cell]
    } else if output_index(netlist, cell) < output_index(netlist, order.last()) {
        with_retained(netlist, order.drop_last(), cell).push(order.last())
    } else {
        order.push(cell)
    }
}

/// The first `count` retained cells, arithmetic before comparisons.
pub open spec fn retained_cell(netlist: Netlist, index: int) -> RetainedCell {
    if index < netlist.arithmetic@.len() {
        RetainedCell::Arithmetic(index as usize)
    } else {
        RetainedCell::Comparison((index - netlist.arithmetic@.len()) as usize)
    }
}

/// The first `count` retained cells in the order of the nets they drive.
pub open spec fn retained_order(netlist: Netlist, count: nat) -> Seq<RetainedCell>
    decreases count,
{
    if count == 0 {
        seq![]
    } else {
        with_retained(
            netlist,
            retained_order(netlist, (count - 1) as nat),
            retained_cell(netlist, count - 1),
        )
    }
}

/// The number of retained cells.
pub open spec fn retained_count(netlist: Netlist) -> nat {
    netlist.arithmetic@.len() + netlist.comparisons@.len()
}

/// The state after one retained cell was mapped.
pub open spec fn retained_mapped(
    inputs: MapInputs,
    netlist: Netlist,
    mapping: ArithmeticMapping,
    state: EmitterModel,
    cell: RetainedCell,
) -> EmitterModel {
    match cell {
        RetainedCell::Arithmetic(index) => {
            let arithmetic = netlist.arithmetic@[index as int];
            if uses_carry(arithmetic.outputs@.len(), mapping) {
                adder_mapped(inputs, state, arithmetic)
            } else {
                ripple_mapped(inputs, state, arithmetic)
            }
        },
        RetainedCell::Comparison(index) => comparison_mapped(
            inputs,
            state,
            netlist.comparisons@[index as int],
        ),
    }
}

/// The state after the first `count` cells of `order` were mapped.
pub open spec fn all_retained_mapped(
    inputs: MapInputs,
    netlist: Netlist,
    mapping: ArithmeticMapping,
    state: EmitterModel,
    order: Seq<RetainedCell>,
    count: nat,
) -> EmitterModel
    decreases count,
{
    if count == 0 {
        state
    } else {
        retained_mapped(
            inputs,
            netlist,
            mapping,
            all_retained_mapped(inputs, netlist, mapping, state, order, (count - 1) as nat),
            order[count - 1],
        )
    }
}

/// Whether cells come in the order of their outputs.
pub open spec fn order_is_sorted(netlist: Netlist, order: Seq<RetainedCell>) -> bool {
    forall|i: int, j: int|
        0 <= i <= j < order.len() ==> output_index(netlist, #[trigger] order[i]) <= output_index(
            netlist,
            #[trigger] order[j],
        )
}

proof fn lemma_with_retained(netlist: Netlist, order: Seq<RetainedCell>, cell: RetainedCell)
    requires
        order_is_sorted(netlist, order),
    ensures
        order_is_sorted(netlist, with_retained(netlist, order, cell)),
        with_retained(netlist, order, cell).len() == order.len() + 1,
        forall|c: RetainedCell| #[trigger]
            with_retained(netlist, order, cell).contains(c) <==> c == cell || order.contains(c),
    decreases order.len(),
{
    let out = with_retained(netlist, order, cell);
    if order.len() == 0 {
        assert(out[0] == cell);
        assert(order_is_sorted(netlist, out));
    } else if output_index(netlist, cell) < output_index(netlist, order.last()) {
        let rest = order.drop_last();
        assert(order_is_sorted(netlist, rest));
        lemma_with_retained(netlist, rest, cell);
        let inner = with_retained(netlist, rest, cell);
        assert forall|i: int, j: int| 0 <= i <= j < out.len() implies output_index(
            netlist,
            #[trigger] out[i],
        ) <= output_index(netlist, #[trigger] out[j]) by {
            if j < inner.len() {
                assert(out[i] == inner[i] && out[j] == inner[j]);
            } else if i < inner.len() {
                assert(inner.contains(inner[i]));
                if inner[i] != cell {
                    let k = choose|k: int| 0 <= k < rest.len() && rest[k] == inner[i];
                    assert(order[k] == inner[i] && order[order.len() - 1] == out[j]);
                }
            }
        }
        assert forall|c: RetainedCell| #[trigger]
            out.contains(c) <==> c == cell || order.contains(c) by {
            if out.contains(c) {
                let k = choose|k: int| 0 <= k < out.len() && out[k] == c;
                if k < inner.len() {
                    assert(inner[k] == c);
                    assert(inner.contains(c));
                    if rest.contains(c) {
                        let m = choose|m: int| 0 <= m < rest.len() && rest[m] == c;
                        assert(order[m] == c);
                    }
                } else {
                    assert(order[order.len() - 1] == c);
                }
            }
            if c == cell || order.contains(c) {
                if c != cell {
                    let m = choose|m: int| 0 <= m < order.len() && order[m] == c;
                    if m < rest.len() {
                        assert(rest[m] == c);
                        assert(inner.contains(c));
                    } else {
                        assert(out[out.len() - 1] == c);
                    }
                }
                if inner.contains(c) {
                    let k = choose|k: int| 0 <= k < inner.len() && inner[k] == c;
                    assert(out[k] == c);
                }
            }
        }
    } else {
        assert forall|i: int, j: int| 0 <= i <= j < out.len() implies output_index(
            netlist,
            #[trigger] out[i],
        ) <= output_index(netlist, #[trigger] out[j]) by {
            if j < order.len() {
                assert(out[i] == order[i] && out[j] == order[j]);
            } else if i < order.len() {
                assert(out[i] == order[i]);
                assert(output_index(netlist, order[i]) <= output_index(
                    netlist,
                    order[order.len() - 1],
                ));
            }
        }
        assert forall|c: RetainedCell| #[trigger]
            out.contains(c) <==> c == cell || order.contains(c) by {
            if out.contains(c) {
                let k = choose|k: int| 0 <= k < out.len() && out[k] == c;
                if k < order.len() {
                    assert(order[k] == c);
                }
            }
            if c == cell {
                assert(out[order.len() as int] == c);
            }
            if order.contains(c) {
                let k = choose|k: int| 0 <= k < order.len() && order[k] == c;
                assert(out[k] == c);
            }
        }
    }
}

/// The order holds every retained cell once its turn came, by increasing output.
pub proof fn lemma_retained_order(netlist: Netlist, count: nat)
    ensures
        order_is_sorted(netlist, retained_order(netlist, count)),
        retained_order(netlist, count).len() == count,
        forall|i: int|
            0 <= i < count ==> retained_order(netlist, count).contains(
                #[trigger] retained_cell(netlist, i),
            ),
        forall|c: RetainedCell| #[trigger]
            retained_order(netlist, count).contains(c) ==> exists|i: int|
                0 <= i < count && c == retained_cell(netlist, i),
    decreases count,
{
    if count > 0 {
        let last = (count - 1) as nat;
        lemma_retained_order(netlist, last);
        lemma_with_retained(
            netlist,
            retained_order(netlist, last),
            retained_cell(netlist, last as int),
        );
        let order = retained_order(netlist, count);
        assert forall|c: RetainedCell| #[trigger] order.contains(c) implies exists|i: int|
            0 <= i < count && c == retained_cell(netlist, i) by {
            if c == retained_cell(netlist, last as int) {
            } else {
                assert(retained_order(netlist, last).contains(c));
                let i = choose|i: int| 0 <= i < last && c == retained_cell(netlist, i);
                assert(0 <= i < count && c == retained_cell(netlist, i));
            }
        }
    }
}

fn index_of_output(netlist: &Netlist, cell: RetainedCell) -> (net: NetId)
    requires
        netlist.is_valid(),
        cell_is_there(*netlist, cell),
    ensures
        net == output_index(*netlist, cell),
{
    match cell {
        RetainedCell::Arithmetic(index) => {
            assert(arithmetic_is_valid(netlist.nodes@, netlist.arithmetic@[index as int]));
            netlist.arithmetic[index].outputs[0]
        },
        RetainedCell::Comparison(index) => netlist.comparisons[index].output,
    }
}

proof fn lemma_with_retained_at(
    netlist: Netlist,
    order: Seq<RetainedCell>,
    cell: RetainedCell,
    at: int,
)
    requires
        0 <= at <= order.len(),
        forall|i: int|
            at <= i < order.len() ==> output_index(netlist, cell) < output_index(
                netlist,
                #[trigger] order[i],
            ),
        at > 0 ==> output_index(netlist, order[at - 1]) <= output_index(netlist, cell),
    ensures
        with_retained(netlist, order, cell) == order.insert(at, cell),
    decreases order.len() - at,
{
    if at == order.len() {
        if order.len() == 0 {
            assert(order.insert(0, cell) =~= seq![cell]);
        } else {
            assert(order.insert(at, cell) =~= order.push(cell));
        }
    } else {
        let rest = order.drop_last();
        assert(output_index(netlist, cell) < output_index(netlist, order[order.len() - 1]));
        assert forall|i: int| at <= i < rest.len() implies output_index(netlist, cell)
            < output_index(netlist, #[trigger] rest[i]) by {
            assert(order[i] == rest[i]);
        }
        lemma_with_retained_at(netlist, rest, cell, at);
        assert(order.insert(at, cell) =~= rest.insert(at, cell).push(order.last()));
    }
}

fn order_retained(netlist: &Netlist) -> (order: Vec<RetainedCell>)
    requires
        netlist.is_valid(),
    ensures
        order@ == retained_order(*netlist, retained_count(*netlist)),
        forall|i: int| 0 <= i < order@.len() ==> cell_is_there(*netlist, #[trigger] order@[i]),
{
    let mut order: Vec<RetainedCell> = Vec::new();
    let arithmetic: usize = netlist.arithmetic.len();
    let comparisons: usize = netlist.comparisons.len();
    let mut index: u128 = 0;
    while index < arithmetic as u128 + comparisons as u128
        invariant
            netlist.is_valid(),
            arithmetic == netlist.arithmetic@.len(),
            comparisons == netlist.comparisons@.len(),
            index <= arithmetic + comparisons,
            order@ == retained_order(*netlist, index as nat),
            forall|i: int| 0 <= i < order@.len() ==> cell_is_there(*netlist, #[trigger] order@[i]),
        decreases arithmetic + comparisons - index,
    {
        let cell = if index < arithmetic as u128 {
            RetainedCell::Arithmetic(index as usize)
        } else {
            RetainedCell::Comparison((index - arithmetic as u128) as usize)
        };
        assert(cell == retained_cell(*netlist, index as int));
        let key = index_of_output(netlist, cell);
        let mut at: usize = order.len();
        while at > 0
            invariant
                netlist.is_valid(),
                at <= order@.len(),
                key == output_index(*netlist, cell),
                forall|i: int|
                    0 <= i < order@.len() ==> cell_is_there(*netlist, #[trigger] order@[i]),
                forall|i: int|
                    at <= i < order@.len() ==> key < output_index(*netlist, #[trigger] order@[i]),
            ensures
                at > 0 ==> output_index(*netlist, order@[at - 1]) <= key,
            decreases at,
        {
            assert(cell_is_there(*netlist, order@[at - 1]));
            if key < index_of_output(netlist, order[at - 1]) {
                at -= 1;
            } else {
                break;
            }
        }
        proof {
            lemma_with_retained_at(*netlist, order@, cell, at as int);
        }
        let ghost before = order@;
        order.insert(at, cell);
        assert forall|i: int| 0 <= i < order@.len() implies cell_is_there(
            *netlist,
            #[trigger] order@[i],
        ) by {
            if i < at {
                assert(order@[i] == before[i]);
            } else if i > at {
                assert(order@[i] == before[i - 1]);
            }
        }
        index = index + 1;
    }
    order
}

/// Whether every net that a retained cell drives is mapped.
pub open spec fn cell_is_mapped(netlist: Netlist, bits: Seq<Option<Bit>>, cell: RetainedCell) -> bool {
    match cell {
        RetainedCell::Arithmetic(index) => first_mapped(
            bits,
            netlist.arithmetic@[index as int].outputs@,
            netlist.arithmetic@[index as int].outputs@.len() as int,
        ),
        RetainedCell::Comparison(index) => bits[netlist.comparisons@[index as int].output as int] is Some,
    }
}

/// Cells stay mapped while bits stay mapped.
pub proof fn lemma_stays_mapped(
    netlist: Netlist,
    before: Seq<Option<Bit>>,
    after: Seq<Option<Bit>>,
    cell: RetainedCell,
)
    requires
        netlist.is_valid(),
        before.len() == netlist.nodes@.len(),
        cell_is_there(netlist, cell),
        cell_is_mapped(netlist, before, cell),
        covers_bits(before, after),
    ensures
        cell_is_mapped(netlist, after, cell),
{
    match cell {
        RetainedCell::Arithmetic(index) => {
            let outputs = netlist.arithmetic@[index as int].outputs@;
            assert(arithmetic_is_valid(netlist.nodes@, netlist.arithmetic@[index as int]));
            assert forall|i: int| 0 <= i < outputs.len() implies after[(
            #[trigger] outputs[i]) as int] is Some by {
                assert(outputs[i] < netlist.nodes@.len());
                assert(before[outputs[i] as int] is Some);
            }
        },
        RetainedCell::Comparison(index) => {
            assert(comparison_is_valid(netlist.nodes@, netlist.comparisons@[index as int]));
        },
    }
}

/// Every readable net below the next cell is mapped or planned.
pub proof fn lemma_supplied(
    netlist: Netlist,
    plans: Seq<Option<PlanModel>>,
    start: Seq<Option<Bit>>,
    bits: Seq<Option<Bit>>,
    order: Seq<RetainedCell>,
    done: int,
    limit: int,
)
    requires
        netlist.is_valid(),
        netlist.arithmetic@.len() <= usize::MAX,
        netlist.comparisons@.len() <= usize::MAX,
        plans_are_sound(netlist.nodes@, plans, netlist.nodes@.len() as int),
        order == retained_order(netlist, retained_count(netlist)),
        0 <= done <= order.len(),
        limit <= netlist.nodes@.len(),
        done < order.len() ==> limit <= output_index(netlist, order[done]),
        forall|i: int| 0 <= i < done ==> cell_is_mapped(netlist, bits, #[trigger] order[i]),
        bits.len() == netlist.nodes@.len(),
        covers_bits(start, bits),
        forall|i: int|
            0 <= i < start.len() ==> (crate::emit::source_bit(
                netlist.nodes@[i].kind,
                i as NetId,
            ) is Some ==> (#[trigger] start[i]) is Some),
    ensures
        supplied(netlist.nodes@, plans, bits, limit),
{
    let count = retained_count(netlist);
    lemma_retained_order(netlist, count);
    assert forall|i: int| 0 <= i < limit && i < netlist.nodes@.len() && !(
    netlist.nodes@[i].kind is Output) implies (#[trigger] bits[i]) is Some || plans[i] is Some by {
        let kind = netlist.nodes@[i].kind;
        if crate::ir::is_gate(kind) {
            assert(plans[i] is Some);
        } else if kind is ArithmeticOutput {
            assert(node_is_connected(netlist, i));
            let c = choose|c: int|
                0 <= c < netlist.arithmetic@.len() && (
                #[trigger] netlist.arithmetic@[c]).outputs@.contains(i as NetId);
            assert(arithmetic_is_valid(netlist.nodes@, netlist.arithmetic@[c]));
            let outputs = netlist.arithmetic@[c].outputs@;
            let b = choose|b: int| 0 <= b < outputs.len() && outputs[b] == i as NetId;
            assert(outputs[0] <= outputs[b]);
            let cell = retained_cell(netlist, c);
            assert(cell == RetainedCell::Arithmetic(c as usize));
            assert(order.contains(cell));
            let k = choose|k: int| 0 <= k < order.len() && order[k] == cell;
            if k >= done {
                assert(output_index(netlist, order[done]) <= output_index(netlist, order[k]));
            }
            assert(cell_is_mapped(netlist, bits, order[k]));
            assert(bits[outputs[b] as int] is Some);
        } else if kind is ComparisonOutput {
            assert(node_is_connected(netlist, i));
            let c = choose|c: int|
                0 <= c < netlist.comparisons@.len() && (
                #[trigger] netlist.comparisons@[c]).output == i as NetId;
            let cell = retained_cell(netlist, netlist.arithmetic@.len() + c);
            assert(cell == RetainedCell::Comparison(c as usize));
            assert(order.contains(cell));
            let k = choose|k: int| 0 <= k < order.len() && order[k] == cell;
            if k >= done {
                assert(output_index(netlist, order[done]) <= output_index(netlist, order[k]));
            }
            assert(cell_is_mapped(netlist, bits, order[k]));
        } else {
            assert(start[i] is Some);
        }
    }
}

/// Maps every retained cell, each after those that drive earlier nets.
pub fn map_retained_cells(context: &MapContext, mapping: ArithmeticMapping, emitter: &mut LutEmitter)
    requires
        context.is_sound(),
        old(emitter).bits@.len() == context.netlist.nodes@.len(),
        forall|i: int|
            0 <= i < old(emitter).bits@.len() ==> (crate::emit::source_bit(
                context.netlist.nodes@[i].kind,
                i as NetId,
            ) is Some ==> (#[trigger] old(emitter).bits@[i]) is Some),
    ensures
        final(emitter)@ == all_retained_mapped(
            context.inputs(),
            *context.netlist,
            mapping,
            old(emitter)@,
            retained_order(*context.netlist, retained_count(*context.netlist)),
            retained_count(*context.netlist),
        ),
        context.supplies(*final(emitter), context.netlist.nodes@.len() as int),
{
    let ghost start = emitter@;
    let ghost inputs = context.inputs();
    let order = order_retained(context.netlist);
    let arithmetic: usize = context.netlist.arithmetic.len();
    let comparisons: usize = context.netlist.comparisons.len();
    proof {
        lemma_retained_order(*context.netlist, retained_count(*context.netlist));
    }
    for k in 0..order.len()
        invariant
            context.is_sound(),
            arithmetic == context.netlist.arithmetic@.len(),
            comparisons == context.netlist.comparisons@.len(),
            inputs == context.inputs(),
            order@ == retained_order(*context.netlist, retained_count(*context.netlist)),
            forall|i: int|
                0 <= i < order@.len() ==> cell_is_there(*context.netlist, #[trigger] order@[i]),
            start.bits.len() == context.netlist.nodes@.len(),
            forall|i: int|
                0 <= i < start.bits.len() ==> (crate::emit::source_bit(
                    context.netlist.nodes@[i].kind,
                    i as NetId,
                ) is Some ==> (#[trigger] start.bits[i]) is Some),
            covers_bits(start.bits, emitter.bits@),
            forall|i: int|
                0 <= i < k ==> cell_is_mapped(
                    *context.netlist,
                    emitter.bits@,
                    #[trigger] order@[i],
                ),
            emitter@ == all_retained_mapped(
                inputs,
                *context.netlist,
                mapping,
                start,
                order@,
                k as nat,
            ),
    {
        let cell = order[k];
        let ghost bits = emitter.bits@;
        assert(cell_is_there(*context.netlist, order@[k as int]));
        proof {
            match cell {
                RetainedCell::Arithmetic(index) => {
                    assert(arithmetic_is_valid(
                        context.netlist.nodes@,
                        context.netlist.arithmetic@[index as int],
                    ));
                    assert(context.netlist.arithmetic@[index as int].outputs@[0]
                        < context.netlist.nodes@.len());
                },
                RetainedCell::Comparison(index) => {
                    assert(comparison_is_valid(
                        context.netlist.nodes@,
                        context.netlist.comparisons@[index as int],
                    ));
                },
            }
            lemma_supplied(
                *context.netlist,
                inputs.plans,
                start.bits,
                bits,
                order@,
                k as int,
                output_index(*context.netlist, cell) as int,
            );
        }
        match cell {
            RetainedCell::Arithmetic(index) => {
                if arithmetic_uses_carry(&context.netlist.arithmetic[index], mapping) {
                    map_arithmetic_carry(context, emitter, index);
                } else {
                    map_arithmetic_luts(context, emitter, index);
                }
            },
            RetainedCell::Comparison(index) => map_comparison_carry(context, emitter, index),
        }
        assert forall|i: int| 0 <= i < k + 1 implies cell_is_mapped(
            *context.netlist,
            emitter.bits@,
            #[trigger] order@[i],
        ) by {
            if i < k {
                assert(cell_is_there(*context.netlist, order@[i]));
                lemma_stays_mapped(*context.netlist, bits, emitter.bits@, order@[i]);
            }
        }
    }
    proof {
        lemma_supplied(
            *context.netlist,
            inputs.plans,
            start.bits,
            emitter.bits@,
            order@,
            order@.len() as int,
            context.netlist.nodes@.len() as int,
        );
    }
}

} // verus!
