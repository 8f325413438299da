//! Timing of retained arithmetic and comparison cells.

use vstd::prelude::*;

use crate::constraints::ArithmeticMapping;
use crate::ir::all_of_kind;
use crate::ir::arithmetic_is_valid;
use crate::ir::arithmetic_reads;
use crate::ir::carry_net;
use crate::ir::comparison_is_valid;
use crate::ir::comparison_reads;
use crate::ir::node_is_connected;
use crate::ir::readable;
use crate::ir::ArithmeticCell;
use crate::ir::ComparisonCell;
use crate::ir::NetId;
use crate::ir::Netlist;
use crate::ir::NodeKind;
use crate::plans::through;
use crate::timing::delay_by;
use crate::timing::later;
use crate::timing::route_delay;
use crate::timing::sat;
use crate::timing::take_later;
use crate::timing::wire_delay_ps;
use crate::timing::CCU_CARRY_PS;
use crate::timing::CCU_INPUT_PS;
use crate::timing::CCU_SUM_PS;
use crate::timing::LUT_DELAY_PS;

verus! {

/// The retained cell that drives a net.
#[derive(Clone, Copy, Debug, Eq, PartialEq, Structural)]
pub enum RetainedOutput {
    /// Result bit of an arithmetic cell.
    Arithmetic {
        /// Position of the cell.
        cell: usize,
        /// Result bit.
        bit: usize,
    },
    /// Result of a comparison.
    Comparison {
        /// Position of the cell.
        cell: usize,
    },
}

/// `outputs` with the first `count` result bits of arithmetic cell `index` entered.
pub open spec fn with_result_bits(
    outputs: Seq<Option<RetainedOutput>>,
    nets: Seq<NetId>,
    index: usize,
    count: nat,
) -> Seq<Option<RetainedOutput>>
    decreases count,
{
    if count == 0 {
        outputs
    } else {
        let bit = (count - 1) as usize;
        with_result_bits(outputs, nets, index, (count - 1) as nat).update(
            nets[bit as int] as int,
            Some(RetainedOutput::Arithmetic { cell: index, bit }),
        )
    }
}

/// `outputs` with the first `count` arithmetic cells entered.
pub open spec fn with_arithmetic(
    outputs: Seq<Option<RetainedOutput>>,
    cells: Seq<ArithmeticCell>,
    count: nat,
) -> Seq<Option<RetainedOutput>>
    decreases count,
{
    if count == 0 {
        outputs
    } else {
        let index = (count - 1) as usize;
        with_result_bits(
            with_arithmetic(outputs, cells, (count - 1) as nat),
            cells[index as int].outputs@,
            index,
            cells[index as int].outputs@.len(),
        )
    }
}

/// `outputs` with the first `count` comparisons entered.
pub open spec fn with_comparisons(
    outputs: Seq<Option<RetainedOutput>>,
    cells: Seq<ComparisonCell>,
    count: nat,
) -> Seq<Option<RetainedOutput>>
    decreases count,
{
    if count == 0 {
        outputs
    } else {
        let index = (count - 1) as usize;
        with_comparisons(outputs, cells, (count - 1) as nat).update(
            cells[index as int].output as int,
            Some(RetainedOutput::Comparison { cell: index }),
        )
    }
}

/// The retained cell that drives each net.
pub open spec fn retained_outputs(netlist: Netlist) -> Seq<Option<RetainedOutput>> {
    with_comparisons(
        with_arithmetic(
            Seq::new(netlist.nodes@.len(), |i: int| None::<RetainedOutput>),
            netlist.arithmetic@,
            netlist.arithmetic@.len(),
        ),
        netlist.comparisons@,
        netlist.comparisons@.len(),
    )
}

/// Whether an entry names a cell that is there and a bit it has.
pub open spec fn entry_is_sound(netlist: Netlist, entry: Option<RetainedOutput>) -> bool {
    match entry {
        Some(RetainedOutput::Arithmetic { cell, bit }) => cell < netlist.arithmetic@.len() && bit
            < netlist.arithmetic@[cell as int].outputs@.len(),
        Some(RetainedOutput::Comparison { cell }) => cell < netlist.comparisons@.len(),
        None => true,
    }
}

/// Whether every entry is sound and every retained output has one.
pub open spec fn entries_are_sound(
    netlist: Netlist,
    outputs: Seq<Option<RetainedOutput>>,
) -> bool {
    &&& outputs.len() == netlist.nodes@.len()
    &&& forall|i: int| 0 <= i < outputs.len() ==> entry_is_sound(netlist, #[trigger] outputs[i])
    &&& forall|i: int|
        0 <= i < outputs.len() && (netlist.nodes@[i].kind is ArithmeticOutput
            || netlist.nodes@[i].kind is ComparisonOutput) ==> (#[trigger] outputs[i]) is Some
}

/// The retained cell that drives each net.
pub struct RetainedTiming {
    /// One entry for each node.
    pub outputs: Vec<Option<RetainedOutput>>,
}

impl RetainedTiming {
    /// Enters every retained cell.
    pub fn new(netlist: &Netlist) -> (timing: Self)
        requires
            netlist.is_valid(),
        ensures
            timing.outputs@ == retained_outputs(*netlist),
            entries_are_sound(*netlist, timing.outputs@),
    {
        let mut outputs: Vec<Option<RetainedOutput>> = Vec::new();
        let n = netlist.nodes.len();
        for i in 0..n
            invariant
                outputs@.len() == i,
                forall|j: int| 0 <= j < i ==> outputs@[j] is None,
        {
            outputs.push(None);
        }
        let ghost blank = Seq::new(n as nat, |i: int| None::<RetainedOutput>);
        assert(outputs@ =~= blank);
        for cell in 0..netlist.arithmetic.len()
            invariant
                netlist.is_valid(),
                n == netlist.nodes@.len(),
                outputs@.len() == n,
                outputs@ == with_arithmetic(blank, netlist.arithmetic@, cell as nat),
                forall|i: int| 0 <= i < n ==> entry_is_sound(*netlist, #[trigger] outputs@[i]),
                forall|c: int, b: int|
                    0 <= c < cell && 0 <= b < netlist.arithmetic@[c].outputs@.len() ==> outputs@[(
                    #[trigger] netlist.arithmetic@[c].outputs@[b]) as int] is Some,
        {
            let ghost start = outputs@;
            assert(arithmetic_is_valid(netlist.nodes@, netlist.arithmetic@[cell as int]));
            let nets = &netlist.arithmetic[cell].outputs;
            for bit in 0..nets.len()
                invariant
                    n == netlist.nodes@.len(),
                    cell < netlist.arithmetic@.len(),
                    nets@ == netlist.arithmetic@[cell as int].outputs@,
                    all_of_kind(netlist.nodes@, nets@, NodeKind::ArithmeticOutput),
                    outputs@.len() == n,
                    outputs@ == with_result_bits(start, nets@, cell, bit as nat),
                    forall|i: int| 0 <= i < n ==> entry_is_sound(*netlist, #[trigger] outputs@[i]),
                    forall|i: int| 0 <= i < n && start[i] is Some ==> (#[trigger] outputs@[i]) is Some,
                    forall|b: int|
                        0 <= b < bit ==> outputs@[(#[trigger] nets@[b]) as int] is Some,
            {
                assert(nets@[bit as int] < n);
                outputs.set(
                    nets[bit] as usize,
                    Some(RetainedOutput::Arithmetic { cell, bit }),
                );
            }
            assert forall|c: int, b: int|
                0 <= c < cell + 1 && 0 <= b
                    < netlist.arithmetic@[c].outputs@.len() implies outputs@[(
            #[trigger] netlist.arithmetic@[c].outputs@[b]) as int] is Some by {
                assert(arithmetic_is_valid(netlist.nodes@, netlist.arithmetic@[c]));
                assert(netlist.arithmetic@[c].outputs@[b] < n);
                if c < cell {
                    assert(start[netlist.arithmetic@[c].outputs@[b] as int] is Some);
                }
            }
        }
        let ghost middle = outputs@;
        for cell in 0..netlist.comparisons.len()
            invariant
                netlist.is_valid(),
                n == netlist.nodes@.len(),
                outputs@.len() == n,
                outputs@ == with_comparisons(middle, netlist.comparisons@, cell as nat),
                forall|i: int| 0 <= i < n ==> entry_is_sound(*netlist, #[trigger] outputs@[i]),
                forall|i: int| 0 <= i < n && middle[i] is Some ==> (#[trigger] outputs@[i]) is Some,
                forall|c: int|
                    0 <= c < cell ==> outputs@[(#[trigger] netlist.comparisons@[c]).output as int] is Some,
        {
            assert(comparison_is_valid(netlist.nodes@, netlist.comparisons@[cell as int]));
            outputs.set(
                netlist.comparisons[cell].output as usize,
                Some(RetainedOutput::Comparison { cell }),
            );
        }
        assert forall|i: int|
            0 <= i < n && (netlist.nodes@[i].kind is ArithmeticOutput
                || netlist.nodes@[i].kind is ComparisonOutput) implies (
        #[trigger] outputs@[i]) is Some by {
            assert(node_is_connected(*netlist, i));
            if netlist.nodes@[i].kind is ArithmeticOutput {
                let c = choose|c: int|
                    0 <= c < netlist.arithmetic@.len() && (
                    #[trigger] netlist.arithmetic@[c]).outputs@.contains(i as NetId);
                let b = choose|b: int|
                    0 <= b < netlist.arithmetic@[c].outputs@.len()
                        && netlist.arithmetic@[c].outputs@[b] == i as NetId;
                assert(middle[netlist.arithmetic@[c].outputs@[b] as int] is Some);
            } else {
                let c = choose|c: int|
                    0 <= c < netlist.comparisons@.len() && (
                    #[trigger] netlist.comparisons@[c]).output == i as NetId;
                assert(outputs@[netlist.comparisons@[c].output as int] is Some);
            }
        }
        RetainedTiming { outputs }
    }
}

/// A delay in picoseconds, stopping at the largest `u32`.
pub open spec fn picoseconds(delay: nat) -> u32 {
    if delay > u32::MAX {
        u32::MAX
    } else {
        delay as u32
    }
}

/// A delay in picoseconds, stopping at the largest `u32`.
pub fn to_picoseconds(delay: u128) -> (out: u32)
    ensures
        out == picoseconds(delay as nat),
{
    if delay > u32::MAX as u128 {
        u32::MAX
    } else {
        delay as u32
    }
}

/// Whether an arithmetic cell of this width uses the carry chain.
pub open spec fn uses_carry(width: nat, mapping: ArithmeticMapping) -> bool {
    match mapping {
        ArithmeticMapping::Auto => width > 4,
        ArithmeticMapping::CarryChain => true,
        ArithmeticMapping::Lut4 => false,
    }
}

/// Whether an arithmetic cell uses the carry chain.
pub fn arithmetic_uses_carry(arithmetic: &ArithmeticCell, mapping: ArithmeticMapping) -> (carry:
    bool)
    ensures
        carry == uses_carry(arithmetic.outputs@.len(), mapping),
{
    match mapping {
        ArithmeticMapping::Auto => arithmetic.outputs.len() > 4,
        ArithmeticMapping::CarryChain => true,
        ArithmeticMapping::Lut4 => false,
    }
}

/// Delay from an operand bit to the result bit `distance` places up.
pub open spec fn operand_arc(carry: bool, distance: nat) -> u32 {
    if carry {
        picoseconds(CCU_INPUT_PS as nat + CCU_CARRY_PS as nat * distance + CCU_SUM_PS as nat)
    } else {
        picoseconds(LUT_DELAY_PS as nat * (distance + 1))
    }
}

fn arithmetic_arc_ps(carry: bool, distance: usize) -> (arc: u32)
    ensures
        arc == operand_arc(carry, distance as nat),
{
    if carry {
        to_picoseconds(
            CCU_INPUT_PS as u128 + CCU_CARRY_PS as u128 * distance as u128 + CCU_SUM_PS as u128,
        )
    } else {
        to_picoseconds(LUT_DELAY_PS as u128 * (distance as u128 + 1))
    }
}

/// Delay from the incoming carry to a result bit.
pub open spec fn carry_arc(carry: bool, bit: nat) -> u32 {
    if carry {
        picoseconds(CCU_CARRY_PS as nat * bit + CCU_SUM_PS as nat)
    } else {
        picoseconds(LUT_DELAY_PS as nat * (bit + 1))
    }
}

fn arithmetic_carry_arc_ps(carry: bool, bit: usize) -> (arc: u32)
    ensures
        arc == carry_arc(carry, bit as nat),
{
    if carry {
        to_picoseconds(CCU_CARRY_PS as u128 * bit as u128 + CCU_SUM_PS as u128)
    } else {
        to_picoseconds(LUT_DELAY_PS as u128 * (bit as u128 + 1))
    }
}

/// Delay from an operand bit, with `above` bits from it to the top, to a comparison's result.
pub open spec fn comparison_arc(above: nat, signed: bool) -> u32 {
    picoseconds(
        CCU_INPUT_PS as nat + CCU_CARRY_PS as nat * above + CCU_SUM_PS as nat + if signed {
            LUT_DELAY_PS as nat
        } else {
            0
        },
    )
}

fn comparison_arc_ps(above: usize, signed: bool) -> (arc: u32)
    ensures
        arc == comparison_arc(above as nat, signed),
{
    let sign: u128 = if signed {
        LUT_DELAY_PS as u128
    } else {
        0
    };
    assert(CCU_CARRY_PS as int * above as int <= 60 * 0xffff_ffff_ffff_ffff) by (nonlinear_arith)
        requires
            above <= u64::MAX,
            CCU_CARRY_PS == 60,
    ;
    let carried: u128 = CCU_INPUT_PS as u128 + CCU_CARRY_PS as u128 * above as u128
        + CCU_SUM_PS as u128;
    to_picoseconds(carried + sign)
}

/// The latest of the first `count` operand bits at result bit `bit`.
pub open spec fn operands_arrival(
    cell: ArithmeticCell,
    carry: bool,
    bit: nat,
    arrivals: Seq<Option<u32>>,
    fanouts: Seq<usize>,
    count: nat,
) -> Option<u32>
    decreases count,
{
    if count == 0 {
        None
    } else {
        let last = (count - 1) as nat;
        let arc = operand_arc(carry, (bit - last) as nat);
        later(
            later(
                operands_arrival(cell, carry, bit, arrivals, fanouts, last),
                through(arrivals, fanouts, cell.lhs@[last as int], arc),
            ),
            through(arrivals, fanouts, cell.rhs@[last as int], arc),
        )
    }
}

/// When result bit `bit` of an arithmetic cell arrives.
pub open spec fn result_arrival(
    cell: ArithmeticCell,
    bit: nat,
    arrivals: Seq<Option<u32>>,
    fanouts: Seq<usize>,
    mapping: ArithmeticMapping,
) -> Option<u32> {
    let carry = uses_carry(cell.outputs@.len(), mapping);
    let operands = operands_arrival(cell, carry, bit, arrivals, fanouts, bit + 1);
    match cell.carry_in {
        Some(net) => later(operands, through(arrivals, fanouts, net, carry_arc(carry, bit))),
        None => operands,
    }
}

/// The latest of the first `count` operand bits at a comparison's result.
pub open spec fn compared_arrival(
    cell: ComparisonCell,
    arrivals: Seq<Option<u32>>,
    fanouts: Seq<usize>,
    count: nat,
) -> Option<u32>
    decreases count,
{
    if count == 0 {
        None
    } else {
        let last = (count - 1) as nat;
        let arc = comparison_arc((cell.lhs@.len() - last) as nat, cell.operation.with_sign());
        later(
            later(
                compared_arrival(cell, arrivals, fanouts, last),
                through(arrivals, fanouts, cell.lhs@[last as int], arc),
            ),
            through(arrivals, fanouts, cell.rhs@[last as int], arc),
        )
    }
}

/// When a retained output arrives.
pub open spec fn retained_arrival(
    netlist: Netlist,
    entry: Option<RetainedOutput>,
    arrivals: Seq<Option<u32>>,
    fanouts: Seq<usize>,
    mapping: ArithmeticMapping,
) -> Option<u32> {
    match entry {
        Some(RetainedOutput::Arithmetic { cell, bit }) => result_arrival(
            netlist.arithmetic@[cell as int],
            bit as nat,
            arrivals,
            fanouts,
            mapping,
        ),
        Some(RetainedOutput::Comparison { cell }) => {
            let comparison = netlist.comparisons@[cell as int];
            compared_arrival(comparison, arrivals, fanouts, comparison.lhs@.len())
        },
        None => None,
    }
}

fn arrival_through(
    arrivals: &Vec<Option<u32>>,
    fanouts: &Vec<usize>,
    net: NetId,
    delay: u32,
) -> (arrival: Option<u32>)
    requires
        net < arrivals@.len(),
        fanouts@.len() == arrivals@.len(),
    ensures
        arrival == through(arrivals@, fanouts@, net, delay),
{
    delay_by(delay_by(arrivals[net as usize], wire_delay_ps(fanouts[net as usize])), delay)
}

/// The operands of a valid arithmetic cell are nets of the netlist.
proof fn lemma_operands(netlist: Netlist, cell: int, bit: int)
    requires
        netlist.is_valid(),
        0 <= cell < netlist.arithmetic@.len(),
        0 <= bit < netlist.arithmetic@[cell].outputs@.len(),
    ensures
        netlist.arithmetic@[cell].lhs@[bit] < netlist.nodes@.len(),
        netlist.arithmetic@[cell].rhs@[bit] < netlist.nodes@.len(),
        netlist.arithmetic@[cell].lhs@[bit] < netlist.arithmetic@[cell].outputs@[0],
        netlist.arithmetic@[cell].rhs@[bit] < netlist.arithmetic@[cell].outputs@[0],
        netlist.arithmetic@[cell].carry_in matches Some(net) ==> net < netlist.nodes@.len() && net
            < netlist.arithmetic@[cell].outputs@[0],
{
    let c = netlist.arithmetic@[cell];
    let reads = arithmetic_reads(c);
    assert(arithmetic_is_valid(netlist.nodes@, c));
    assert(reads[bit] == c.lhs@[bit]);
    assert(readable(netlist.nodes@, reads[bit]));
    assert(reads[c.lhs@.len() + bit] == c.rhs@[bit]);
    assert(readable(netlist.nodes@, reads[c.lhs@.len() + bit]));
    if let Some(net) = c.carry_in {
        let at = c.lhs@.len() + c.rhs@.len();
        assert(carry_net(c.carry_in)[0] == net);
        assert(reads[at as int] == net);
        assert(readable(netlist.nodes@, reads[at as int]));
    }
}

/// The operands of a valid comparison are nets of the netlist.
proof fn lemma_compared(netlist: Netlist, cell: int, bit: int)
    requires
        netlist.is_valid(),
        0 <= cell < netlist.comparisons@.len(),
        0 <= bit < netlist.comparisons@[cell].lhs@.len(),
    ensures
        netlist.comparisons@[cell].rhs@.len() == netlist.comparisons@[cell].lhs@.len(),
        netlist.comparisons@[cell].lhs@[bit] < netlist.nodes@.len(),
        netlist.comparisons@[cell].rhs@[bit] < netlist.nodes@.len(),
{
    let c = netlist.comparisons@[cell];
    let reads = comparison_reads(c);
    assert(comparison_is_valid(netlist.nodes@, c));
    assert(reads[bit] == c.lhs@[bit]);
    assert(readable(netlist.nodes@, reads[bit]));
    assert(reads[c.lhs@.len() + bit] == c.rhs@[bit]);
    assert(readable(netlist.nodes@, reads[c.lhs@.len() + bit]));
}

impl RetainedTiming {
    /// When a retained output arrives.
    pub fn output_arrival(
        &self,
        netlist: &Netlist,
        output: NetId,
        arrivals: &Vec<Option<u32>>,
        fanouts: &Vec<usize>,
        mapping: ArithmeticMapping,
    ) -> (arrival: Option<u32>)
        requires
            netlist.is_valid(),
            entries_are_sound(*netlist, self.outputs@),
            output < netlist.nodes@.len(),
            arrivals@.len() == netlist.nodes@.len(),
            fanouts@.len() == netlist.nodes@.len(),
        ensures
            arrival == retained_arrival(
                *netlist,
                self.outputs@[output as int],
                arrivals@,
                fanouts@,
                mapping,
            ),
    {
        assert(entry_is_sound(*netlist, self.outputs@[output as int]));
        match self.outputs[output as usize] {
            Some(RetainedOutput::Arithmetic { cell, bit }) => {
                let arithmetic = &netlist.arithmetic[cell];
                let carry = arithmetic_uses_carry(arithmetic, mapping);
                let width: usize = arithmetic.outputs.len();
                assert(bit < width);
                let mut arrival: Option<u32> = None;
                let mut input: usize = 0;
                while input <= bit
                    invariant
                        netlist.is_valid(),
                        cell < netlist.arithmetic@.len(),
                        *arithmetic == netlist.arithmetic@[cell as int],
                        bit < arithmetic.outputs@.len(),
                        bit < usize::MAX,
                        input <= bit + 1,
                        arrivals@.len() == netlist.nodes@.len(),
                        fanouts@.len() == netlist.nodes@.len(),
                        arrival == operands_arrival(
                            *arithmetic,
                            carry,
                            bit as nat,
                            arrivals@,
                            fanouts@,
                            input as nat,
                        ),
                    decreases bit + 1 - input,
                {
                    proof {
                        lemma_operands(*netlist, cell as int, input as int);
                        assert(arithmetic_is_valid(netlist.nodes@, *arithmetic));
                    }
                    let arc = arithmetic_arc_ps(carry, bit - input);
                    let lhs = arrival_through(arrivals, fanouts, arithmetic.lhs[input], arc);
                    let rhs = arrival_through(arrivals, fanouts, arithmetic.rhs[input], arc);
                    arrival = take_later(take_later(arrival, lhs), rhs);
                    input += 1;
                }
                match arithmetic.carry_in {
                    Some(net) => {
                        proof {
                            lemma_operands(*netlist, cell as int, bit as int);
                        }
                        let arc = arithmetic_carry_arc_ps(carry, bit);
                        take_later(arrival, arrival_through(arrivals, fanouts, net, arc))
                    },
                    None => arrival,
                }
            },
            Some(RetainedOutput::Comparison { cell }) => {
                let comparison = &netlist.comparisons[cell];
                let signed = comparison.operation.is_signed();
                let mut arrival: Option<u32> = None;
                for bit in 0..comparison.lhs.len()
                    invariant
                        netlist.is_valid(),
                        cell < netlist.comparisons@.len(),
                        *comparison == netlist.comparisons@[cell as int],
                        signed == comparison.operation.with_sign(),
                        arrivals@.len() == netlist.nodes@.len(),
                        fanouts@.len() == netlist.nodes@.len(),
                        arrival == compared_arrival(
                            *comparison,
                            arrivals@,
                            fanouts@,
                            bit as nat,
                        ),
                {
                    proof {
                        lemma_compared(*netlist, cell as int, bit as int);
                    }
                    let arc = comparison_arc_ps(comparison.lhs.len() - bit, signed);
                    let lhs = arrival_through(arrivals, fanouts, comparison.lhs[bit], arc);
                    let rhs = arrival_through(arrivals, fanouts, comparison.rhs[bit], arc);
                    arrival = take_later(take_later(arrival, lhs), rhs);
                }
                arrival
            },
            None => None,
        }
    }
}

/// `required` with the deadline at `net` no later than the reader's, less its delay and the route.
pub open spec fn tightened(
    required: Seq<u32>,
    fanouts: Seq<usize>,
    net: NetId,
    required_output: u32,
    delay: u32,
) -> Seq<u32> {
    let spent = sat(delay as int, route_delay(fanouts[net as int] as nat) as int);
    let deadline = if spent < required_output {
        (required_output - spent) as u32
    } else {
        0
    };
    if deadline < required[net as int] {
        required.update(net as int, deadline)
    } else {
        required
    }
}

/// Moves the deadline at `net` up to the reader's, less its delay and the route.
pub fn tighten_required(
    net: NetId,
    required_output: u32,
    delay: u32,
    fanouts: &Vec<usize>,
    required: &mut Vec<u32>,
)
    requires
        net < old(required)@.len(),
        fanouts@.len() == old(required)@.len(),
    ensures
        final(required)@ == tightened(old(required)@, fanouts@, net, required_output, delay),
        final(required)@.len() == old(required)@.len(),
{
    let spent = delay.saturating_add(wire_delay_ps(fanouts[net as usize]));
    let deadline: u32 = required_output.saturating_sub(spent);
    if deadline < required[net as usize] {
        required.set(net as usize, deadline);
    }
}

/// Deadlines of the first `count` operand bits of an arithmetic cell.
pub open spec fn operands_tightened(
    required: Seq<u32>,
    cell: ArithmeticCell,
    carry: bool,
    bit: nat,
    required_output: u32,
    fanouts: Seq<usize>,
    count: nat,
) -> Seq<u32>
    decreases count,
{
    if count == 0 {
        required
    } else {
        let last = (count - 1) as nat;
        let arc = operand_arc(carry, (bit - last) as nat);
        tightened(
            tightened(
                operands_tightened(required, cell, carry, bit, required_output, fanouts, last),
                fanouts,
                cell.lhs@[last as int],
                required_output,
                arc,
            ),
            fanouts,
            cell.rhs@[last as int],
            required_output,
            arc,
        )
    }
}

/// Deadlines of the first `count` operand bits of a comparison.
pub open spec fn compared_tightened(
    required: Seq<u32>,
    cell: ComparisonCell,
    required_output: u32,
    fanouts: Seq<usize>,
    count: nat,
) -> Seq<u32>
    decreases count,
{
    if count == 0 {
        required
    } else {
        let last = (count - 1) as nat;
        let arc = comparison_arc((cell.lhs@.len() - last) as nat, cell.operation.with_sign());
        tightened(
            tightened(
                compared_tightened(required, cell, required_output, fanouts, last),
                fanouts,
                cell.lhs@[last as int],
                required_output,
                arc,
            ),
            fanouts,
            cell.rhs@[last as int],
            required_output,
            arc,
        )
    }
}

/// Deadlines that a retained output puts on the nets its cell reads.
pub open spec fn retained_tightened(
    required: Seq<u32>,
    netlist: Netlist,
    entry: Option<RetainedOutput>,
    required_output: u32,
    fanouts: Seq<usize>,
    mapping: ArithmeticMapping,
) -> Seq<u32> {
    match entry {
        Some(RetainedOutput::Arithmetic { cell, bit }) => {
            let arithmetic = netlist.arithmetic@[cell as int];
            let carry = uses_carry(arithmetic.outputs@.len(), mapping);
            let operands = operands_tightened(
                required,
                arithmetic,
                carry,
                bit as nat,
                required_output,
                fanouts,
                bit as nat + 1,
            );
            match arithmetic.carry_in {
                Some(net) => tightened(
                    operands,
                    fanouts,
                    net,
                    required_output,
                    carry_arc(carry, bit as nat),
                ),
                None => operands,
            }
        },
        Some(RetainedOutput::Comparison { cell }) => {
            let comparison = netlist.comparisons@[cell as int];
            compared_tightened(
                required,
                comparison,
                required_output,
                fanouts,
                comparison.lhs@.len(),
            )
        },
        None => required,
    }
}

impl RetainedTiming {
    /// Puts a retained output's deadline on the nets its cell reads.
    pub fn propagate_required(
        &self,
        netlist: &Netlist,
        output: NetId,
        required_output: u32,
        fanouts: &Vec<usize>,
        mapping: ArithmeticMapping,
        required: &mut Vec<u32>,
    )
        requires
            netlist.is_valid(),
            entries_are_sound(*netlist, self.outputs@),
            output < netlist.nodes@.len(),
            old(required)@.len() == netlist.nodes@.len(),
            fanouts@.len() == netlist.nodes@.len(),
        ensures
            final(required)@ == retained_tightened(
                old(required)@,
                *netlist,
                self.outputs@[output as int],
                required_output,
                fanouts@,
                mapping,
            ),
            final(required)@.len() == old(required)@.len(),
    {
        assert(entry_is_sound(*netlist, self.outputs@[output as int]));
        let ghost start = required@;
        match self.outputs[output as usize] {
            Some(RetainedOutput::Arithmetic { cell, bit }) => {
                let arithmetic = &netlist.arithmetic[cell];
                let carry = arithmetic_uses_carry(arithmetic, mapping);
                let width: usize = arithmetic.outputs.len();
                assert(bit < width);
                let mut input: usize = 0;
                while input <= bit
                    invariant
                        netlist.is_valid(),
                        cell < netlist.arithmetic@.len(),
                        *arithmetic == netlist.arithmetic@[cell as int],
                        bit < arithmetic.outputs@.len(),
                        bit < usize::MAX,
                        input <= bit + 1,
                        required@.len() == netlist.nodes@.len(),
                        fanouts@.len() == netlist.nodes@.len(),
                        required@ == operands_tightened(
                            start,
                            *arithmetic,
                            carry,
                            bit as nat,
                            required_output,
                            fanouts@,
                            input as nat,
                        ),
                    decreases bit + 1 - input,
                {
                    proof {
                        lemma_operands(*netlist, cell as int, input as int);
                        assert(arithmetic_is_valid(netlist.nodes@, *arithmetic));
                    }
                    let arc = arithmetic_arc_ps(carry, bit - input);
                    tighten_required(
                        arithmetic.lhs[input],
                        required_output,
                        arc,
                        fanouts,
                        required,
                    );
                    tighten_required(
                        arithmetic.rhs[input],
                        required_output,
                        arc,
                        fanouts,
                        required,
                    );
                    input += 1;
                }
                if let Some(net) = arithmetic.carry_in {
                    proof {
                        lemma_operands(*netlist, cell as int, bit as int);
                    }
                    let arc = arithmetic_carry_arc_ps(carry, bit);
                    tighten_required(net, required_output, arc, fanouts, required);
                }
            },
            Some(RetainedOutput::Comparison { cell }) => {
                let comparison = &netlist.comparisons[cell];
                let signed = comparison.operation.is_signed();
                for bit in 0..comparison.lhs.len()
                    invariant
                        netlist.is_valid(),
                        cell < netlist.comparisons@.len(),
                        *comparison == netlist.comparisons@[cell as int],
                        signed == comparison.operation.with_sign(),
                        required@.len() == netlist.nodes@.len(),
                        fanouts@.len() == netlist.nodes@.len(),
                        required@ == compared_tightened(
                            start,
                            *comparison,
                            required_output,
                            fanouts@,
                            bit as nat,
                        ),
                {
                    proof {
                        lemma_compared(*netlist, cell as int, bit as int);
                    }
                    let arc = comparison_arc_ps(comparison.lhs.len() - bit, signed);
                    tighten_required(
                        comparison.lhs[bit],
                        required_output,
                        arc,
                        fanouts,
                        required,
                    );
                    tighten_required(
                        comparison.rhs[bit],
                        required_output,
                        arc,
                        fanouts,
                        required,
                    );
                }
            },
            None => {},
        }
    }
}

} // verus!
