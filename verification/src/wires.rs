//! Sorted lists of distinct wires and truth tables over them.

use vstd::prelude::*;

use crate::cells::Bit;

verus! {

/// `wires` with `wire` added at its place, unless it is there already.
pub open spec fn insert_wire(wires: Seq<u32>, wire: u32) -> Seq<u32>
    decreases wires.len(),
{
    if wires.len() == 0 {
        seq![wire]
    } else if wires.last() < wire {
        wires.push(wire)
    } else if wires.last() == wire {
        wires
    } else {
        insert_wire(wires.drop_last(), wire).push(wires.last())
    }
}

/// The distinct wires of `bits`, in increasing order.
pub open spec fn sorted_wires(bits: Seq<Bit>) -> Seq<u32>
    decreases bits.len(),
{
    if bits.len() == 0 {
        seq![]
    } else {
        let rest = sorted_wires(bits.drop_last());
        match bits.last() {
            Bit::Wire(wire) => insert_wire(rest, wire),
            _ => rest,
        }
    }
}

/// Whether each element is larger than the one before it.
pub open spec fn increasing(wires: Seq<u32>) -> bool {
    forall|i: int, j: int| 0 <= i < j < wires.len() ==> wires[i] < wires[j]
}

/// `insert_wire` keeps the order and adds only `wire`.
pub proof fn lemma_insert_wire(wires: Seq<u32>, wire: u32)
    requires
        increasing(wires),
    ensures
        increasing(insert_wire(wires, wire)),
        forall|w: u32| #[trigger]
            insert_wire(wires, wire).contains(w) <==> w == wire || wires.contains(w),
        insert_wire(wires, wire).len() <= wires.len() + 1,
    decreases wires.len(),
{
    let result = insert_wire(wires, wire);
    if wires.len() == 0 {
        assert(result[0] == wire);
    } else if wires.last() < wire {
        assert forall|w: u32| #[trigger] result.contains(w) implies w == wire || wires.contains(
            w,
        ) by {
            let i = choose|i: int| 0 <= i < result.len() && result[i] == w;
            if i < wires.len() {
                assert(wires[i] == w);
            }
        }
        assert forall|w: u32| w == wire || wires.contains(w) implies #[trigger] result.contains(
            w,
        ) by {
            if wires.contains(w) {
                let i = choose|i: int| 0 <= i < wires.len() && wires[i] == w;
                assert(result[i] == w);
            } else {
                assert(result[wires.len() as int] == w);
            }
        }
    } else if wires.last() == wire {
        assert(wires[wires.len() - 1] == wire);
    } else {
        let rest = wires.drop_last();
        let inner = insert_wire(rest, wire);
        lemma_insert_wire(rest, wire);
        assert forall|i: int| 0 <= i < inner.len() implies inner[i] < wires.last() by {
            assert(inner.contains(inner[i]));
            if rest.contains(inner[i]) {
                let k = choose|k: int| 0 <= k < rest.len() && rest[k] == inner[i];
                assert(wires[k] == inner[i]);
            }
        }
        assert forall|w: u32| #[trigger] result.contains(w) implies w == wire || wires.contains(
            w,
        ) by {
            let i = choose|i: int| 0 <= i < result.len() && result[i] == w;
            if i < inner.len() {
                assert(inner.contains(w));
                if rest.contains(w) {
                    let k = choose|k: int| 0 <= k < rest.len() && rest[k] == w;
                    assert(wires[k] == w);
                }
            } else {
                assert(wires[wires.len() - 1] == w);
            }
        }
        assert forall|w: u32| w == wire || wires.contains(w) implies #[trigger] result.contains(
            w,
        ) by {
            if wires.contains(w) && w != wire {
                let i = choose|i: int| 0 <= i < wires.len() && wires[i] == w;
                if i < rest.len() {
                    assert(rest[i] == w);
                    assert(inner.contains(w));
                    let k = choose|k: int| 0 <= k < inner.len() && inner[k] == w;
                    assert(result[k] == w);
                } else {
                    assert(result[result.len() - 1] == w);
                }
            } else {
                assert(inner.contains(w));
                let k = choose|k: int| 0 <= k < inner.len() && inner[k] == w;
                assert(result[k] == w);
            }
        }
    }
}

/// `sorted_wires` lists exactly the wires of `bits`, each once, increasing.
pub proof fn lemma_sorted_wires(bits: Seq<Bit>)
    ensures
        increasing(sorted_wires(bits)),
        forall|w: u32| #[trigger]
            sorted_wires(bits).contains(w) <==> bits.contains(Bit::Wire(w)),
        sorted_wires(bits).len() <= bits.len(),
    decreases bits.len(),
{
    if bits.len() > 0 {
        let rest = bits.drop_last();
        lemma_sorted_wires(rest);
        if let Bit::Wire(wire) = bits.last() {
            lemma_insert_wire(sorted_wires(rest), wire);
        }
        assert forall|w: u32| #[trigger] sorted_wires(bits).contains(w) <==> bits.contains(
            Bit::Wire(w),
        ) by {
            if bits.contains(Bit::Wire(w)) {
                let i = choose|i: int| 0 <= i < bits.len() && bits[i] == Bit::Wire(w);
                if i < rest.len() {
                    assert(rest[i] == Bit::Wire(w));
                    assert(rest.contains(Bit::Wire(w)));
                }
            }
            if rest.contains(Bit::Wire(w)) {
                let i = choose|i: int| 0 <= i < rest.len() && rest[i] == Bit::Wire(w);
                assert(bits[i] == Bit::Wire(w));
            }
            if bits.last() == Bit::Wire(w) {
                assert(bits[bits.len() - 1] == Bit::Wire(w));
            }
            assert(sorted_wires(rest).contains(w) <==> rest.contains(Bit::Wire(w)));
        }
    }
}

proof fn lemma_insert_wire_at(wires: Seq<u32>, wire: u32, at: int)
    requires
        increasing(wires),
        0 <= at <= wires.len(),
        at > 0 ==> wires[at - 1] <= wire,
        at < wires.len() ==> wire < wires[at],
    ensures
        at > 0 && wires[at - 1] == wire ==> insert_wire(wires, wire) == wires,
        at == 0 || wires[at - 1] != wire ==> insert_wire(wires, wire) == wires.insert(at, wire),
    decreases wires.len() - at,
{
    if at == wires.len() {
        if wires.len() == 0 {
            assert(wires.insert(0, wire) =~= seq![wire]);
        } else {
            assert(wires.insert(at, wire) =~= wires.push(wire));
        }
    } else {
        let rest = wires.drop_last();
        assert(wires[at] <= wires.last());
        if at < rest.len() {
            assert(rest[at] == wires[at]);
        }
        lemma_insert_wire_at(rest, wire, at);
        assert(wires =~= rest.push(wires.last()));
        assert(wires.insert(at, wire) =~= rest.insert(at, wire).push(wires.last()));
    }
}

/// Adds `wire` at its place, unless it is there already.
pub fn insert_sorted(wires: &mut Vec<u32>, wire: u32)
    requires
        increasing(old(wires)@),
    ensures
        final(wires)@ == insert_wire(old(wires)@, wire),
{
    let mut at: usize = wires.len();
    while at > 0 && wires[at - 1] > wire
        invariant
            at <= wires@.len(),
            at < wires@.len() ==> wire < wires@[at as int],
        decreases at,
    {
        at -= 1;
    }
    proof {
        lemma_insert_wire_at(wires@, wire, at as int);
    }
    if at > 0 && wires[at - 1] == wire {
        return;
    }
    wires.insert(at, wire);
}

/// The distinct wires of `bits`, in increasing order.
pub fn distinct_wires(bits: &Vec<Bit>) -> (wires: Vec<u32>)
    ensures
        wires@ == sorted_wires(bits@),
{
    let mut wires: Vec<u32> = Vec::new();
    for i in 0..bits.len()
        invariant
            wires@ == sorted_wires(bits@.take(i as int)),
    {
        assert(bits@.take(i + 1).drop_last() =~= bits@.take(i as int));
        if let Bit::Wire(wire) = bits[i] {
            proof {
                lemma_sorted_wires(bits@.take(i as int));
            }
            insert_sorted(&mut wires, wire);
        }
    }
    assert(bits@.take(bits@.len() as int) =~= bits@);
    wires
}

/// The position of the first `wire` at or after `from`, or the length.
pub open spec fn wire_index_from(wires: Seq<u32>, wire: u32, from: int) -> int
    decreases wires.len() - from,
{
    if from >= wires.len() {
        wires.len() as int
    } else if wires[from] == wire {
        from
    } else {
        wire_index_from(wires, wire, from + 1)
    }
}

/// The position of the first `wire`, or the length.
pub open spec fn wire_index(wires: Seq<u32>, wire: u32) -> int {
    wire_index_from(wires, wire, 0)
}

/// The position of the first `wire`, or the length.
pub fn index_of_wire(wires: &Vec<u32>, wire: u32) -> (index: usize)
    ensures
        index == wire_index(wires@, wire),
        index <= wires@.len(),
        index < wires@.len() ==> wires@[index as int] == wire,
        wires@.contains(wire) ==> index < wires@.len(),
{
    let mut i: usize = 0;
    while i < wires.len()
        invariant
            i <= wires@.len(),
            wire_index(wires@, wire) == wire_index_from(wires@, wire, i as int),
            forall|j: int| 0 <= j < i ==> wires@[j] != wire,
        decreases wires@.len() - i,
    {
        if wires[i] == wire {
            return i;
        }
        i += 1;
    }
    i
}

/// `wire_index` finds a wire that is there.
pub proof fn lemma_wire_index(wires: Seq<u32>, wire: u32, from: int)
    requires
        0 <= from <= wires.len(),
    ensures
        from <= wire_index_from(wires, wire, from) <= wires.len(),
        wire_index_from(wires, wire, from) < wires.len() ==> wires[wire_index_from(
            wires,
            wire,
            from,
        )] == wire,
        (exists|i: int| from <= i < wires.len() && wires[i] == wire) ==> wire_index_from(
            wires,
            wire,
            from,
        ) < wires.len(),
    decreases wires.len() - from,
{
    if from < wires.len() && wires[from] != wire {
        lemma_wire_index(wires, wire, from + 1);
    }
}

/// The number of assignments of `inputs` Boolean values.
pub open spec fn assignments(inputs: nat) -> nat
    decreases inputs,
{
    if inputs == 0 {
        1
    } else {
        2 * assignments((inputs - 1) as nat)
    }
}

/// Six inputs have at most sixty-four assignments, and seven twice as many.
pub proof fn lemma_assignments(inputs: nat)
    ensures
        assignments(inputs) >= 1,
        inputs <= 6 ==> assignments(inputs) <= 64,
        inputs <= 7 ==> assignments(inputs) <= 128,
    decreases inputs,
{
    reveal_with_fuel(assignments, 8);
    if inputs > 0 {
        lemma_assignments((inputs - 1) as nat);
    }
}

/// The number of assignments of `inputs` Boolean values.
pub fn count_assignments(inputs: usize) -> (count: u64)
    requires
        inputs <= 7,
    ensures
        count == assignments(inputs as nat),
        inputs <= 6 ==> count <= 64,
        count <= 128,
{
    let mut count: u64 = 1;
    proof {
        lemma_assignments(inputs as nat);
    }
    for i in 0..inputs
        invariant
            inputs <= 7,
            count == assignments(i as nat),
            count <= 128,
    {
        proof {
            lemma_assignments((i + 1) as nat);
        }
        count = count * 2;
    }
    count
}

/// Bit `index` of a sixteen-entry truth table.
pub open spec fn table_bit(init: u16, index: u16) -> bool {
    init & (1u16 << index) != 0
}

/// Bit `index` of a sixteen-entry truth table.
pub fn test_table_bit(init: u16, index: u16) -> (value: bool)
    requires
        index < 16,
    ensures
        value == table_bit(init, index),
{
    init & (1u16 << index) != 0
}

/// Bit `input` of an assignment.
pub open spec fn assigned(assignment: u64, input: int) -> bool {
    assignment & (1u64 << (input as u64)) != 0
}

/// Bit `input` of an assignment.
pub fn test_assigned(assignment: u64, input: usize) -> (value: bool)
    requires
        input < 64,
    ensures
        value == assigned(assignment, input as int),
{
    assignment & (1u64 << (input as u64)) != 0
}

/// The truth-table index that four pin values select.
pub open spec fn pin_index(a: bool, b: bool, c: bool, d: bool) -> u16 {
    ((if a { 1int } else { 0 }) + (if b { 2int } else { 0 }) + (if c { 4int } else { 0 }) + (if d {
        8int
    } else {
        0
    })) as u16
}

/// The truth-table index that four pin values select.
pub fn compute_pin_index(a: bool, b: bool, c: bool, d: bool) -> (index: u16)
    ensures
        index == pin_index(a, b, c, d),
        index < 16,
{
    let mut index: u16 = 0;
    if a {
        index = index + 1;
    }
    if b {
        index = index + 2;
    }
    if c {
        index = index + 4;
    }
    if d {
        index = index + 8;
    }
    index
}

/// The truth table whose bit `k`, for each `k` below `count`, is `value(k)`.
pub open spec fn table_of(value: spec_fn(u64) -> bool, count: nat) -> nat
    decreases count,
{
    if count == 0 {
        0
    } else {
        let last = (count - 1) as nat;
        table_of(value, last) + if value(last as u64) {
            assignments(last)
        } else {
            0
        }
    }
}

/// The sum or the carry of one slice of a carry primitive: the sum is the table's
/// value exclusive-or the carry input; the carry input passes on where the table
/// is one, else the two-input half of the table gives the carry.
#[verifier::opaque]
pub open spec fn carry_slice(
    init: u16,
    a: bool,
    b: bool,
    c: bool,
    d: bool,
    carry: bool,
    carry_output: bool,
) -> bool {
    let lut4 = table_bit(init, pin_index(a, b, c, d));
    let lut2 = table_bit(init, pin_index(a, b, false, false));
    if carry_output {
        if lut4 {
            carry
        } else {
            lut2
        }
    } else {
        lut4 != carry
    }
}

/// A truth table of `count` entries is below two to the `count`.
pub proof fn lemma_table_of_bound(value: spec_fn(u64) -> bool, count: nat)
    ensures
        table_of(value, count) < assignments(count),
    decreases count,
{
    if count > 0 {
        lemma_table_of_bound(value, (count - 1) as nat);
    }
}

} // verus!
