//! What renumbering does to the inputs of a cell.

use vstd::prelude::*;

use crate::cells::cell_inputs;
use crate::cells::cell_outputs;
use crate::cells::control_bits;
use crate::cells::ram_port_inputs;
use crate::cells::renumbered;
use crate::cells::renumbered_address;
use crate::cells::renumbered_bits;
use crate::cells::renumbered_cell;
use crate::cells::renumbered_enable;
use crate::cells::renumbered_ram_port;
use crate::cells::renumbered_reset;
use crate::cells::reset_bits;
use crate::cells::Bit;
use crate::cells::CellModel;
use crate::cells::Control;
use crate::cells::RamPortModel;
use crate::shown::drives;
use crate::shown::same_make;

verus! {

proof fn lemma_bits_joined(a: Seq<Bit>, b: Seq<Bit>, from: u32, to: u32)
    ensures
        renumbered_bits(a + b, from, to) == renumbered_bits(a, from, to) + renumbered_bits(
            b,
            from,
            to,
        ),
{
    assert(renumbered_bits(a + b, from, to) =~= renumbered_bits(a, from, to) + renumbered_bits(
        b,
        from,
        to,
    ));
}

proof fn lemma_address(bits: [Bit; 14], from: u32, to: u32)
    ensures
        renumbered_address(bits, from, to)@ == renumbered_bits(bits@, from, to),
{
    assert(renumbered_address(bits, from, to)@ =~= renumbered_bits(bits@, from, to));
}

proof fn lemma_controls(control: Option<Control>, from: u32, to: u32)
    ensures
        control_bits(renumbered_enable(control, from, to)) == renumbered_bits(
            control_bits(control),
            from,
            to,
        ),
{
    assert(control_bits(renumbered_enable(control, from, to)) =~= renumbered_bits(
        control_bits(control),
        from,
        to,
    ));
}

proof fn lemma_ram_port(port: Option<RamPortModel>, from: u32, to: u32)
    ensures
        ram_port_inputs(renumbered_ram_port(port, from, to)) == renumbered_bits(
            ram_port_inputs(port),
            from,
            to,
        ),
{
    if let Some(port) = port {
        let signals = seq![port.write_enable.signal, port.clock];
        lemma_address(port.address, from, to);
        lemma_controls(port.read_enable, from, to);
        lemma_controls(port.clock_enable, from, to);
        lemma_bits_joined(port.address@, port.write_data, from, to);
        lemma_bits_joined(port.address@ + port.write_data, signals, from, to);
        lemma_bits_joined(
            port.address@ + port.write_data + signals,
            control_bits(port.read_enable),
            from,
            to,
        );
        lemma_bits_joined(
            port.address@ + port.write_data + signals + control_bits(port.read_enable),
            control_bits(port.clock_enable),
            from,
            to,
        );
        assert(renumbered_bits(signals, from, to) =~= seq![
            renumbered(port.write_enable.signal, from, to),
            renumbered(port.clock, from, to),
        ]);
    } else {
        assert(renumbered_bits(seq![], from, to) =~= seq![]);
    }
}

/// Renumbering a cell renumbers what it reads.
pub proof fn lemma_renumbered_inputs(cell: CellModel, from: u32, to: u32)
    requires
        cell is Pll ==> !drives(cell, from),
    ensures
        cell_inputs(renumbered_cell(cell, from, to)) == renumbered_bits(
            cell_inputs(cell),
            from,
            to,
        ),
        same_make(cell, renumbered_cell(cell, from, to)),
{
    let after = renumbered_cell(cell, from, to);
    match cell {
        CellModel::Lut4 { inputs, .. } => {
            assert(cell_inputs(after) =~= renumbered_bits(cell_inputs(cell), from, to));
        },
        CellModel::Ccu2c { inputs, carry_in, .. } => {
            assert(after->Ccu2c_inputs[0]@ =~= renumbered_bits(inputs[0]@, from, to));
            assert(after->Ccu2c_inputs[1]@ =~= renumbered_bits(inputs[1]@, from, to));
            lemma_bits_joined(inputs[0]@, inputs[1]@, from, to);
            lemma_bits_joined(inputs[0]@ + inputs[1]@, seq![carry_in], from, to);
            assert(renumbered_bits(seq![carry_in], from, to) =~= seq![
                renumbered(carry_in, from, to),
            ]);
        },
        CellModel::FlipFlop { data, clock, enable, reset, .. } => {
            lemma_controls(enable, from, to);
            assert(reset_bits(renumbered_reset(reset, from, to)) =~= renumbered_bits(
                reset_bits(reset),
                from,
                to,
            ));
            lemma_bits_joined(seq![data, clock], control_bits(enable), from, to);
            lemma_bits_joined(
                seq![data, clock] + control_bits(enable),
                reset_bits(reset),
                from,
                to,
            );
            assert(renumbered_bits(seq![data, clock], from, to) =~= seq![
                renumbered(data, from, to),
                renumbered(clock, from, to),
            ]);
        },
        CellModel::BlockRam {
            write_address,
            write_data,
            write_enable,
            read_address,
            read_enable,
            clock_enable,
            clock,
            second_port,
            ..
        } => {
            let signals = seq![write_enable.signal, clock];
            lemma_address(write_address, from, to);
            lemma_address(read_address, from, to);
            lemma_controls(read_enable, from, to);
            lemma_controls(clock_enable, from, to);
            lemma_ram_port(second_port, from, to);
            let one = write_address@ + write_data;
            let two = one + read_address@;
            let three = two + signals;
            let four = three + control_bits(read_enable);
            let five = four + control_bits(clock_enable);
            lemma_bits_joined(write_address@, write_data, from, to);
            lemma_bits_joined(one, read_address@, from, to);
            lemma_bits_joined(two, signals, from, to);
            lemma_bits_joined(three, control_bits(read_enable), from, to);
            lemma_bits_joined(four, control_bits(clock_enable), from, to);
            lemma_bits_joined(five, ram_port_inputs(second_port), from, to);
            assert(renumbered_bits(signals, from, to) =~= seq![
                renumbered(write_enable.signal, from, to),
                renumbered(clock, from, to),
            ]);
        },
        CellModel::Pll { feedback_clock, output_clock, .. } => {
            let outputs = cell_outputs(cell);
            assert(outputs[0] == Bit::Wire(output_clock));
            if feedback_clock != output_clock {
                assert(outputs[outputs.len() - 1] == Bit::Wire(feedback_clock));
            }
            assert(feedback_clock != from);
            assert(cell_inputs(after) =~= renumbered_bits(cell_inputs(cell), from, to));
        },
        _ => {
            assert(cell_inputs(after) =~= renumbered_bits(cell_inputs(cell), from, to));
        },
    }
}

} // verus!
