//! Primitives all of whose wire inputs come from registers of one domain.

use vstd::prelude::*;

use crate::cells::{count_wire, wire_count, Bit, CellModel, Ecp5Cell};
use crate::netlist::{
    cell_models, mapped_wire_fanout, wire_fanout, Ecp5Netlist, NetlistModel,
};
use crate::retime_lut::{
    as_reset_register, find_register, lemma_register_from, register_from, reset_register,
    same_control, same_domain, ResetRegister,
};
use crate::wires::{distinct_wires, index_of_wire, sorted_wires};

verus! {

/// The register that drives `wire`.
pub open spec fn source_register(netlist: NetlistModel, wire: u32) -> ResetRegister {
    reset_register(netlist.cells[register_from(netlist.cells, wire, 0)->0])->0
}

/// Whether `wire` is driven by a register with a reset, is read by the pins
/// `bits` and by nothing else, and its register shares the domain of the one
/// that drives `lead`.
pub open spec fn is_registered_input(
    netlist: NetlistModel,
    bits: Seq<Bit>,
    lead: u32,
    wire: u32,
) -> bool {
    &&& wire_fanout(netlist, wire) == wire_count(bits, wire)
    &&& register_from(netlist.cells, wire, 0) is Some
    &&& register_from(netlist.cells, lead, 0) is Some
    &&& same_domain(source_register(netlist, lead), source_register(netlist, wire))
}

/// Whether the pins `bits` read at least one wire, and every wire they read is
/// driven by a register of one domain and read by nothing else.
pub open spec fn has_registered_inputs(netlist: NetlistModel, bits: Seq<Bit>) -> bool {
    let wires = sorted_wires(bits);
    wires.len() > 0 && forall|i: int|
        0 <= i < wires.len() ==> is_registered_input(netlist, bits, wires[0], #[trigger] wires[i])
}

/// The registers behind the wires of a primitive.
pub struct RegisteredInputs {
    /// The wires, increasing.
    pub wires: Vec<u32>,
    /// The position of the register behind each wire.
    pub indices: Vec<usize>,
    /// The register behind each wire.
    pub registers: Vec<ResetRegister>,
}

impl RegisteredInputs {
    /// Whether this describes the registers behind the pins `bits`.
    pub open spec fn describes(&self, netlist: NetlistModel, bits: Seq<Bit>) -> bool {
        &&& has_registered_inputs(netlist, bits)
        &&& self.wires@ == sorted_wires(bits)
        &&& self.indices@ == register_indices(netlist, self.wires@)
        &&& self.registers@ == Seq::new(
            self.wires@.len(),
            |i: int| source_register(netlist, self.wires@[i]),
        )
    }
}

/// The positions of the registers behind `wires`.
pub open spec fn register_indices(netlist: NetlistModel, wires: Seq<u32>) -> Seq<usize> {
    Seq::new(wires.len(), |i: int| register_from(netlist.cells, wires[i], 0)->0 as usize)
}

fn domains_agree(a: &ResetRegister, b: &ResetRegister) -> (same: bool)
    ensures
        same == same_domain(*a, *b),
{
    a.clock == b.clock && a.edge == b.edge && same_control(a.enable, b.enable) && a.reset.signal
        == b.reset.signal && a.reset.active == b.reset.active && a.reset.asynchronous
        == b.reset.asynchronous
}

/// The registers behind the pins `bits`, where every wire that they read is
/// driven by a register of one domain and read by nothing else.
pub fn find_registered_inputs(netlist: &Ecp5Netlist, bits: &Vec<Bit>) -> (found: Option<
    RegisteredInputs,
>)
    ensures
        match found {
            Some(found) => found.describes(netlist@, bits@),
            None => !has_registered_inputs(netlist@, bits@),
        },
{
    let wires = distinct_wires(bits);
    if wires.len() == 0 {
        return None;
    }
    let mut indices: Vec<usize> = Vec::new();
    let mut registers: Vec<ResetRegister> = Vec::new();
    for i in 0..wires.len()
        invariant
            wires@ == sorted_wires(bits@),
            wires@.len() > 0,
            indices@.len() == i,
            registers@.len() == i,
            forall|j: int|
                0 <= j < i ==> is_registered_input(
                    netlist@,
                    bits@,
                    wires@[0],
                    #[trigger] wires@[j],
                ),
            forall|j: int| 0 <= j < i ==> indices@[j] == register_indices(netlist@, wires@)[j],
            forall|j: int| 0 <= j < i ==> registers@[j] == source_register(netlist@, wires@[j]),
    {
        let wire: u32 = wires[i];
        if mapped_wire_fanout(netlist, wire) != count_wire(bits, wire) {
            assert(!is_registered_input(netlist@, bits@, wires@[0], wires@[i as int]));
            return None;
        }
        let index: usize = match find_register(&netlist.cells, wire) {
            Some(index) => index,
            None => {
                assert(!is_registered_input(netlist@, bits@, wires@[0], wires@[i as int]));
                return None;
            },
        };
        proof {
            lemma_register_from(netlist@.cells, wire, 0);
            assert(netlist@.cells[index as int] == netlist.cells@[index as int]@);
        }
        match as_reset_register(&netlist.cells[index]) {
            Some(register) => {
                if i > 0 && !domains_agree(&registers[0], &register) {
                    assert(!is_registered_input(netlist@, bits@, wires@[0], wires@[i as int]));
                    return None;
                }
                indices.push(index);
                registers.push(register);
            },
            None => {
                return None;
            },
        }
    }
    let found = RegisteredInputs { wires, indices, registers };
    assert(found.indices@ =~= register_indices(netlist@, found.wires@));
    assert(found.registers@ =~= Seq::new(
        found.wires@.len(),
        |i: int| source_register(netlist@, found.wires@[i]),
    ));
    Some(found)
}

/// `cells` without those at the positions in `removed`.
pub open spec fn without(cells: Seq<CellModel>, removed: Seq<usize>) -> Seq<CellModel>
    decreases cells.len(),
{
    if cells.len() == 0 {
        seq![]
    } else {
        let rest = without(cells.drop_last(), removed);
        if removed.contains((cells.len() - 1) as usize) {
            rest
        } else {
            rest.push(cells.last())
        }
    }
}

/// Whether `values` holds `value`.
pub fn holds(values: &Vec<usize>, value: usize) -> (found: bool)
    ensures
        found == values@.contains(value),
{
    for i in 0..values.len()
        invariant
            forall|j: int| 0 <= j < i ==> values@[j] != value,
    {
        if values[i] == value {
            return true;
        }
    }
    false
}

/// Removes the cells at the positions in `removed`.
pub fn remove_cells(cells: &mut Vec<Ecp5Cell>, removed: &Vec<usize>)
    ensures
        cell_models(final(cells)@) == without(cell_models(old(cells)@), removed@),
{
    let ghost models = cell_models(cells@);
    let count: usize = cells.len();
    let mut kept: usize = 0;
    let mut seen: usize = 0;
    while seen < count
        invariant
            kept <= seen <= count,
            count == models.len(),
            cell_models(cells@) == without(models.take(seen as int), removed@) + models.skip(
                seen as int,
            ),
            kept == without(models.take(seen as int), removed@).len(),
        decreases count - seen,
    {
        let ghost now = cell_models(cells@);
        let ghost head = without(models.take(seen as int), removed@);
        assert(now.len() == kept + (models.len() - seen));
        assert(now[kept as int] == models[seen as int]);
        assert(now.len() == cells@.len());
        assert(models.take(seen + 1).drop_last() =~= models.take(seen as int));
        if holds(removed, seen) {
            cells.remove(kept);
            assert(cell_models(cells@) =~= now.remove(kept as int));
            assert(cell_models(cells@) =~= head + models.skip(seen + 1));
        } else {
            assert(now =~= head.push(models[seen as int]) + models.skip(seen + 1));
            kept += 1;
        }
        seen += 1;
    }
    assert(models.take(models.len() as int) =~= models);
    assert(cell_models(cells@) =~= without(models, removed@));
}

/// The data input of the register behind `bit`, where `wires` lists it, else
/// `bit` itself.
pub open spec fn unregistered(netlist: NetlistModel, wires: Seq<u32>, bit: Bit) -> Bit {
    match bit {
        Bit::Wire(wire) => if wires.contains(wire) {
            source_register(netlist, wire).data
        } else {
            bit
        },
        _ => bit,
    }
}

/// Four pins that read what the registers behind them read.
pub open spec fn unregistered_pins(
    netlist: NetlistModel,
    wires: Seq<u32>,
    pins: [Bit; 4],
) -> [Bit; 4] {
    [
        unregistered(netlist, wires, pins[0]),
        unregistered(netlist, wires, pins[1]),
        unregistered(netlist, wires, pins[2]),
        unregistered(netlist, wires, pins[3]),
    ]
}

impl RegisteredInputs {
    /// The data input of the register behind `bit`, where there is one.
    pub(crate) fn unregister(&self, bit: Bit, netlist: Ghost<NetlistModel>, bits: Ghost<Seq<Bit>>) -> (out:
        Bit)
        requires
            self.describes(netlist@, bits@),
        ensures
            out == unregistered(netlist@, self.wires@, bit),
    {
        match bit {
            Bit::Wire(wire) => {
                let index: usize = index_of_wire(&self.wires, wire);
                if index < self.wires.len() {
                    self.registers[index].data
                } else {
                    bit
                }
            },
            _ => bit,
        }
    }

    /// Four pins that read what the registers behind them read.
    pub(crate) fn unregister_pins(
        &self,
        pins: &[Bit; 4],
        netlist: Ghost<NetlistModel>,
        bits: Ghost<Seq<Bit>>,
    ) -> (out: [Bit; 4])
        requires
            self.describes(netlist@, bits@),
        ensures
            out == unregistered_pins(netlist@, self.wires@, *pins),
    {
        let out = [
            self.unregister(pins[0], netlist, bits),
            self.unregister(pins[1], netlist, bits),
            self.unregister(pins[2], netlist, bits),
            self.unregister(pins[3], netlist, bits),
        ];
        assert(out =~= unregistered_pins(netlist@, self.wires@, *pins));
        out
    }
}

} // verus!
