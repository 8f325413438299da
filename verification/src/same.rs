//! Equality of mapped netlists.

use vstd::prelude::*;

use crate::cells::ram_port_model;
use crate::cells::Bit;
use crate::cells::BlockRamPort;
use crate::cells::Ecp5Cell;
use crate::cells::MappedPort;
use crate::cells::PllOutput;
use crate::names::text_entries;
use crate::names::NameMap;
use crate::netlist::cell_models;
use crate::netlist::clock_models;
use crate::netlist::port_models;
use crate::netlist::Ecp5Netlist;
use crate::netlist::ResolvedClockTiming;

verus! {

fn same_pins<const N: usize>(a: &[Bit; N], b: &[Bit; N]) -> (same: bool)
    ensures
        same == (*a == *b),
{
    for i in 0..N
        invariant
            forall|j: int| 0 <= j < i ==> a@[j] == b@[j],
    {
        if a[i] != b[i] {
            assert(a@[i as int] != b@[i as int]);
            return false;
        }
    }
    assert(a@ =~= b@);
    assert(*a =~= *b);
    true
}

fn same_pair(a: &[u32; 2], b: &[u32; 2]) -> (same: bool)
    ensures
        same == (*a == *b),
{
    let same = a[0] == b[0] && a[1] == b[1];
    assert(same == (*a == *b)) by {
        if same {
            assert(a@ =~= b@);
            assert(*a =~= *b);
        }
    }
    same
}

fn same_inits(a: &[u16; 2], b: &[u16; 2]) -> (same: bool)
    ensures
        same == (*a == *b),
{
    let same = a[0] == b[0] && a[1] == b[1];
    assert(same == (*a == *b)) by {
        if same {
            assert(a@ =~= b@);
            assert(*a =~= *b);
        }
    }
    same
}

fn same_flags(a: &[bool; 2], b: &[bool; 2]) -> (same: bool)
    ensures
        same == (*a == *b),
{
    let same = a[0] == b[0] && a[1] == b[1];
    assert(same == (*a == *b)) by {
        if same {
            assert(a@ =~= b@);
            assert(*a =~= *b);
        }
    }
    same
}

fn same_slices(a: &[[Bit; 4]; 2], b: &[[Bit; 4]; 2]) -> (same: bool)
    ensures
        same == (*a == *b),
{
    let same = same_pins(&a[0], &b[0]) && same_pins(&a[1], &b[1]);
    assert(same == (*a == *b)) by {
        if same {
            assert(a@ =~= b@);
            assert(*a =~= *b);
        }
    }
    same
}

fn same_bits(a: &Vec<Bit>, b: &Vec<Bit>) -> (same: bool)
    ensures
        same == (a@ == b@),
{
    if a.len() != b.len() {
        return false;
    }
    for i in 0..a.len()
        invariant
            a@.len() == b@.len(),
            forall|j: int| 0 <= j < i ==> a@[j] == b@[j],
    {
        if a[i] != b[i] {
            return false;
        }
    }
    assert(a@ =~= b@);
    true
}

fn same_wires(a: &Vec<u32>, b: &Vec<u32>) -> (same: bool)
    ensures
        same == (a@ == b@),
{
    crate::cuts::same_nets(a, b)
}

fn same_arrivals(a: &Vec<(u32, u32)>, b: &Vec<(u32, u32)>) -> (same: bool)
    ensures
        same == (a@ == b@),
{
    if a.len() != b.len() {
        return false;
    }
    for i in 0..a.len()
        invariant
            a@.len() == b@.len(),
            forall|j: int| 0 <= j < i ==> a@[j] == b@[j],
    {
        if a[i].0 != b[i].0 || a[i].1 != b[i].1 {
            return false;
        }
    }
    assert(a@ =~= b@);
    true
}

fn same_delays(a: &Vec<(Bit, u32)>, b: &Vec<(Bit, u32)>) -> (same: bool)
    ensures
        same == (a@ == b@),
{
    if a.len() != b.len() {
        return false;
    }
    for i in 0..a.len()
        invariant
            a@.len() == b@.len(),
            forall|j: int| 0 <= j < i ==> a@[j] == b@[j],
    {
        if a[i].0 != b[i].0 || a[i].1 != b[i].1 {
            return false;
        }
    }
    assert(a@ =~= b@);
    true
}

fn same_outputs(a: &Vec<(PllOutput, u32)>, b: &Vec<(PllOutput, u32)>) -> (same: bool)
    ensures
        same == (a@ == b@),
{
    if a.len() != b.len() {
        return false;
    }
    for i in 0..a.len()
        invariant
            a@.len() == b@.len(),
            forall|j: int| 0 <= j < i ==> a@[j] == b@[j],
    {
        if a[i].0 != b[i].0 || a[i].1 != b[i].1 {
            return false;
        }
    }
    assert(a@ =~= b@);
    true
}

fn same_texts(a: &NameMap<String>, b: &NameMap<String>) -> (same: bool)
    ensures
        same == (text_entries(*a) == text_entries(*b)),
{
    let ghost x = text_entries(*a);
    let ghost y = text_entries(*b);
    if a.entries.len() != b.entries.len() {
        assert(x.len() != y.len());
        return false;
    }
    for i in 0..a.entries.len()
        invariant
            x == text_entries(*a),
            y == text_entries(*b),
            a.entries@.len() == b.entries@.len(),
            forall|j: int| 0 <= j < i ==> x[j] == y[j],
    {
        assert(x[i as int] == (a.entries@[i as int].0@, a.entries@[i as int].1@));
        assert(y[i as int] == (b.entries@[i as int].0@, b.entries@[i as int].1@));
        if a.entries[i].0 != b.entries[i].0 || a.entries[i].1 != b.entries[i].1 {
            assert(x[i as int] != y[i as int]);
            return false;
        }
    }
    assert(x =~= y);
    true
}

fn same_ram_ports(a: &Option<BlockRamPort>, b: &Option<BlockRamPort>) -> (same: bool)
    ensures
        same == (ram_port_model(*a) == ram_port_model(*b)),
{
    match (a, b) {
        (Some(a), Some(b)) => {
            let same = same_pins(&*a.address, &*b.address) && same_bits(
                &a.write_data,
                &b.write_data,
            ) && a.write_enable == b.write_enable && same_wires(&a.read_data, &b.read_data)
                && a.read_enable == b.read_enable && a.clock_enable == b.clock_enable && a.clock
                == b.clock && a.edge == b.edge;
            assert(same == (a@ == b@)) by {
                if same {
                    assert(a@ =~= b@);
                }
            }
            same
        },
        (None, None) => true,
        _ => false,
    }
}

fn same_logic(a: &Ecp5Cell, b: &Ecp5Cell) -> (same: bool)
    requires
        a is Lut4 || a is PfuMux || a is L6Mux21 || a is Ccu2c || a is FlipFlop,
    ensures
        same == (a@ == b@),
{
    match (a, b) {
        (
            Ecp5Cell::Lut4 { name: n1, inputs: i1, output: o1, init: t1 },
            Ecp5Cell::Lut4 { name: n2, inputs: i2, output: o2, init: t2 },
        ) => *n1 == *n2 && same_pins(i1, i2) && *o1 == *o2 && *t1 == *t2,
        (
            Ecp5Cell::PfuMux { name: n1, lut_true: a1, lut_false: b1, select: s1, output: o1 },
            Ecp5Cell::PfuMux { name: n2, lut_true: a2, lut_false: b2, select: s2, output: o2 },
        ) => *n1 == *n2 && *a1 == *a2 && *b1 == *b2 && *s1 == *s2 && *o1 == *o2,
        (
            Ecp5Cell::L6Mux21 { name: n1, data_zero: a1, data_one: b1, select: s1, output: o1 },
            Ecp5Cell::L6Mux21 { name: n2, data_zero: a2, data_one: b2, select: s2, output: o2 },
        ) => *n1 == *n2 && *a1 == *a2 && *b1 == *b2 && *s1 == *s2 && *o1 == *o2,
        (
            Ecp5Cell::Ccu2c {
                name: n1,
                inputs: i1,
                carry_in: c1,
                sums: s1,
                carry_out: o1,
                init: t1,
                inject: j1,
            },
            Ecp5Cell::Ccu2c {
                name: n2,
                inputs: i2,
                carry_in: c2,
                sums: s2,
                carry_out: o2,
                init: t2,
                inject: j2,
            },
        ) => *n1 == *n2 && same_slices(i1, i2) && *c1 == *c2 && same_pair(s1, s2) && *o1 == *o2
            && same_inits(t1, t2) && same_flags(j1, j2),
        (
            Ecp5Cell::FlipFlop {
                name: n1,
                data: d1,
                output: o1,
                clock: c1,
                edge: e1,
                enable: v1,
                reset: r1,
            },
            Ecp5Cell::FlipFlop {
                name: n2,
                data: d2,
                output: o2,
                clock: c2,
                edge: e2,
                enable: v2,
                reset: r2,
            },
        ) => *n1 == *n2 && *d1 == *d2 && *o1 == *o2 && *c1 == *c2 && *e1 == *e2 && *v1 == *v2 && *r1
            == *r2,
        _ => false,
    }
}

fn same_block(a: &Ecp5Cell, b: &Ecp5Cell) -> (same: bool)
    requires
        a is BlockRam || a is TrellisIo || a is Jtagg || a is Pll,
    ensures
        same == (a@ == b@),
{
    match (a, b) {
        (
            Ecp5Cell::BlockRam {
                name: n1,
                implementation: m1,
                depth: d1,
                word_width: w1,
                physical_width: p1,
                write_address: wa1,
                write_data: wd1,
                write_enable: we1,
                read_address: ra1,
                read_data: rd1,
                read_enable: re1,
                clock_enable: ce1,
                clock: c1,
                edge: e1,
                second_port: s1,
            },
            Ecp5Cell::BlockRam {
                name: n2,
                implementation: m2,
                depth: d2,
                word_width: w2,
                physical_width: p2,
                write_address: wa2,
                write_data: wd2,
                write_enable: we2,
                read_address: ra2,
                read_data: rd2,
                read_enable: re2,
                clock_enable: ce2,
                clock: c2,
                edge: e2,
                second_port: s2,
            },
        ) => *n1 == *n2 && *m1 == *m2 && *d1 == *d2 && *w1 == *w2 && *p1 == *p2 && same_pins(
            &**wa1,
            &**wa2,
        ) && same_bits(wd1, wd2) && *we1 == *we2 && same_pins(&**ra1, &**ra2) && same_wires(
            rd1,
            rd2,
        ) && *re1 == *re2 && *ce1 == *ce2 && *c1 == *c2 && *e1 == *e2 && same_ram_ports(s1, s2),
        (
            Ecp5Cell::TrellisIo {
                name: n1,
                pad: p1,
                fabric_output: o1,
                fabric_input: i1,
                tristate: t1,
            },
            Ecp5Cell::TrellisIo {
                name: n2,
                pad: p2,
                fabric_output: o2,
                fabric_input: i2,
                tristate: t2,
            },
        ) => *n1 == *n2 && *p1 == *p2 && *o1 == *o2 && *i1 == *i2 && *t1 == *t2,
        (
            Ecp5Cell::Jtagg {
                name: n1,
                tdo: o1,
                tdi: i1,
                clock: c1,
                run_test_idle: r1,
                shift: s1,
                update: u1,
                reset_n: x1,
                clock_enable: e1,
                extension_register_1: a1,
                extension_register_2: b1,
            },
            Ecp5Cell::Jtagg {
                name: n2,
                tdo: o2,
                tdi: i2,
                clock: c2,
                run_test_idle: r2,
                shift: s2,
                update: u2,
                reset_n: x2,
                clock_enable: e2,
                extension_register_1: a2,
                extension_register_2: b2,
            },
        ) => *n1 == *n2 && same_pins(o1, o2) && *i1 == *i2 && *c1 == *c2 && same_pair(r1, r2) && *s1
            == *s2 && *u1 == *u2 && *x1 == *x2 && same_pair(e1, e2) && *a1 == *a2 && *b1 == *b2,
        (
            Ecp5Cell::Pll {
                name: n1,
                reference_clock: r1,
                feedback_clock: f1,
                output_clock: o1,
                additional_output_clocks: x1,
                locked: l1,
                fabric_output: a1,
                feedback_output: b1,
                parameters: p1,
                attributes: t1,
            },
            Ecp5Cell::Pll {
                name: n2,
                reference_clock: r2,
                feedback_clock: f2,
                output_clock: o2,
                additional_output_clocks: x2,
                locked: l2,
                fabric_output: a2,
                feedback_output: b2,
                parameters: p2,
                attributes: t2,
            },
        ) => *n1 == *n2 && *r1 == *r2 && *f1 == *f2 && *o1 == *o2 && same_outputs(x1, x2) && *l1
            == *l2 && *a1 == *a2 && *b1 == *b2 && same_texts(p1, p2) && same_texts(t1, t2),
        _ => false,
    }
}

/// Whether two cells are equal.
pub fn same_cell(a: &Ecp5Cell, b: &Ecp5Cell) -> (same: bool)
    ensures
        same == (a@ == b@),
{
    match a {
        Ecp5Cell::Lut4 { .. }
        | Ecp5Cell::PfuMux { .. }
        | Ecp5Cell::L6Mux21 { .. }
        | Ecp5Cell::Ccu2c { .. }
        | Ecp5Cell::FlipFlop { .. } => same_logic(a, b),
        _ => same_block(a, b),
    }
}

fn same_cells(a: &Vec<Ecp5Cell>, b: &Vec<Ecp5Cell>) -> (same: bool)
    ensures
        same == (cell_models(a@) == cell_models(b@)),
{
    let ghost x = cell_models(a@);
    let ghost y = cell_models(b@);
    if a.len() != b.len() {
        assert(x.len() != y.len());
        return false;
    }
    for i in 0..a.len()
        invariant
            x == cell_models(a@),
            y == cell_models(b@),
            a@.len() == b@.len(),
            forall|j: int| 0 <= j < i ==> x[j] == y[j],
    {
        assert(x[i as int] == a@[i as int]@);
        assert(y[i as int] == b@[i as int]@);
        if !same_cell(&a[i], &b[i]) {
            return false;
        }
    }
    assert(x =~= y);
    true
}

fn same_ports(a: &Vec<MappedPort>, b: &Vec<MappedPort>) -> (same: bool)
    ensures
        same == (port_models(a@) == port_models(b@)),
{
    let ghost x = port_models(a@);
    let ghost y = port_models(b@);
    if a.len() != b.len() {
        assert(x.len() != y.len());
        return false;
    }
    for i in 0..a.len()
        invariant
            x == port_models(a@),
            y == port_models(b@),
            a@.len() == b@.len(),
            forall|j: int| 0 <= j < i ==> x[j] == y[j],
    {
        assert(x[i as int] == a@[i as int]@);
        assert(y[i as int] == b@[i as int]@);
        if a[i].name != b[i].name || a[i].direction != b[i].direction || !same_bits(
            &a[i].bits,
            &b[i].bits,
        ) {
            assert(x[i as int] != y[i as int]);
            return false;
        }
        assert(x[i as int] =~= y[i as int]);
    }
    assert(x =~= y);
    true
}

fn same_clocks(a: &Vec<ResolvedClockTiming>, b: &Vec<ResolvedClockTiming>) -> (same: bool)
    ensures
        same == (clock_models(a@) == clock_models(b@)),
{
    let ghost x = clock_models(a@);
    let ghost y = clock_models(b@);
    if a.len() != b.len() {
        assert(x.len() != y.len());
        return false;
    }
    for i in 0..a.len()
        invariant
            x == clock_models(a@),
            y == clock_models(b@),
            a@.len() == b@.len(),
            forall|j: int| 0 <= j < i ==> x[j] == y[j],
    {
        assert(x[i as int] == a@[i as int]@);
        assert(y[i as int] == b@[i as int]@);
        if a[i].name != b[i].name || a[i].net_name != b[i].net_name || a[i].bit != b[i].bit
            || a[i].period_ps != b[i].period_ps || a[i].uncertainty_ps != b[i].uncertainty_ps {
            assert(x[i as int] != y[i as int]);
            return false;
        }
        assert(x[i as int] =~= y[i as int]);
    }
    assert(x =~= y);
    true
}

/// Whether two netlists are equal.
pub fn same_netlist(a: &Ecp5Netlist, b: &Ecp5Netlist) -> (same: bool)
    ensures
        same == (a@ == b@),
{
    let same = a.name == b.name && same_ports(&a.ports, &b.ports) && same_cells(
        &a.cells,
        &b.cells,
    ) && a.retiming == b.retiming && a.equivalence_proof == b.equivalence_proof && same_texts(
        &a.placement_hints,
        &b.placement_hints,
    ) && same_arrivals(&a.io_timing.input_arrivals_ps, &b.io_timing.input_arrivals_ps)
        && same_delays(&a.io_timing.output_delays_ps, &b.io_timing.output_delays_ps)
        && a.timing_constraints.default_frequency_mhz == b.timing_constraints.default_frequency_mhz
        && same_clocks(&a.timing_constraints.clocks, &b.timing_constraints.clocks);
    assert(same == (a@ == b@)) by {
        if same {
            assert(a@ =~= b@);
        }
    }
    same
}

} // verus!
