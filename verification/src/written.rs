//! What the place-and-route tool reads of the written primitives.

use vstd::prelude::*;

use crate::behaves::flip_flop_after;
use crate::behaves::has_edge;
use crate::cells::Bit;
use crate::cells::CellModel;
use crate::cells::Ecp5MemoryImplementation;
use crate::cells::PortDirection;
use crate::json::active_setting;
use crate::json::binary_text;
use crate::json::by_name;
use crate::json::control_bit;
use crate::json::control_setting;
use crate::json::drives;
use crate::json::edge_setting;
use crate::json::enabled_text;
use crate::json::jtagg_pins;
use crate::json::loaded_setting;
use crate::json::nibble;
use crate::json::output_nibble;
use crate::json::primitive;
use crate::json::reads;
use crate::json::reset_bit;
use crate::json::reset_mode;
use crate::json::reset_setting;
use crate::json::yes_text;
use crate::json::JsonCellModel;
use crate::json::PinModel;
use crate::meaning::bit_value;
use crate::meaning::cell_agrees;
use crate::moves::asserted;
use crate::names::law_read_after_set;
use crate::names::law_with_entry_keeps_order;
use crate::names::named;
use crate::names::names_ordered;
use crate::shown::cell_starts;
use crate::stored::pins_value;
use crate::stored::tile_works;
use crate::wires::carry_slice;
use crate::wires::pin_index;
use crate::wires::table_bit;

verus! {

/// Whether no two entries share a name.
spec fn is_apart<V>(entries: Seq<(Seq<char>, V)>) -> bool {
    forall|i: int, j: int|
        0 <= i < j < entries.len() ==> (#[trigger] entries[i]).0 != (#[trigger] entries[j]).0
}

/// The last entry of a name is the one that is read.
pub proof fn lemma_last_named<V>(entries: Seq<(Seq<char>, V)>, at: int)
    requires
        0 <= at < entries.len(),
        forall|j: int|
            at < j < entries.len() ==> (#[trigger] entries[j]).0 != entries[at].0,
    ensures
        names_ordered(by_name(entries)),
        named(by_name(entries), entries[at].0) == Some(entries[at].1),
    decreases entries.len(),
{
    let rest = entries.drop_last();
    let last = entries[entries.len() - 1];
    lemma_ordered(rest);
    law_with_entry_keeps_order(by_name(rest), last.0, last.1);
    law_read_after_set(by_name(rest), last.0, last.1, entries[at].0);
    if at < entries.len() - 1 {
        assert forall|j: int| at < j < rest.len() implies (#[trigger] rest[j]).0
            != rest[at].0 by {
            assert(rest[j] == entries[j]);
        }
        lemma_last_named(rest, at);
    }
}

/// Entries by name are in order.
pub proof fn lemma_ordered<V>(entries: Seq<(Seq<char>, V)>)
    ensures
        names_ordered(by_name(entries)),
    decreases entries.len(),
{
    if entries.len() > 0 {
        lemma_ordered(entries.drop_last());
        law_with_entry_keeps_order(
            by_name(entries.drop_last()),
            entries.last().0,
            entries.last().1,
        );
    }
}

/// A name that is read was entered.
pub proof fn lemma_named_entered<V>(entries: Seq<(Seq<char>, V)>, name: Seq<char>) -> (at: int)
    requires
        named(by_name(entries), name) is Some,
    ensures
        0 <= at < entries.len(),
        entries[at].0 == name,
        named(by_name(entries), name) == Some(entries[at].1),
    decreases entries.len(),
{
    let rest = entries.drop_last();
    let last = entries.last();
    lemma_ordered(rest);
    law_read_after_set(by_name(rest), last.0, last.1, name);
    if last.0 == name {
        entries.len() - 1
    } else {
        let at = lemma_named_entered(rest, name);
        assert(rest[at] == entries[at]);
        at
    }
}

proof fn lemma_all_named<V>(entries: Seq<(Seq<char>, V)>)
    requires
        is_apart(entries),
    ensures
        forall|i: int|
            0 <= i < entries.len() ==> named(by_name(entries), (#[trigger] entries[i]).0) == Some(
                entries[i].1,
            ),
{
    assert forall|i: int| 0 <= i < entries.len() implies named(
        by_name(entries),
        (#[trigger] entries[i]).0,
    ) == Some(entries[i].1) by {
        lemma_last_named(entries, i);
    }
}

/// Whether the tool reads an input pin of one bit.
pub open spec fn has_input(cell: JsonCellModel, name: Seq<char>, bit: Bit) -> bool {
    named(cell.pins, name) == Some(
        PinModel { direction: PortDirection::Input, bits: seq![bit] },
    )
}

/// Whether the tool reads an output pin on one wire.
pub open spec fn has_output(cell: JsonCellModel, name: Seq<char>, wire: u32) -> bool {
    named(cell.pins, name) == Some(
        PinModel { direction: PortDirection::Output, bits: seq![Bit::Wire(wire)] },
    )
}

/// The value on a pin of one bit.
pub open spec fn pin_value(
    values: spec_fn(u32) -> bool,
    cell: JsonCellModel,
    name: Seq<char>,
) -> bool {
    bit_value(values, named(cell.pins, name)->0.bits[0])
}

/// The text of a parameter.
pub open spec fn setting(cell: JsonCellModel, name: Seq<char>) -> Seq<char> {
    named(cell.parameters, name)->0
}

/// Digit `k` of a binary numeral, the last one being digit zero.
pub open spec fn digit_at(text: Seq<char>, k: int) -> bool {
    text[text.len() - 1 - k] == '1'
}

/// The number that four pins select: the first counts one, the second two, the third four
/// and the fourth eight.
pub open spec fn selected(a: bool, b: bool, c: bool, d: bool) -> int {
    (if a {
        1int
    } else {
        0
    }) + (if b {
        2int
    } else {
        0
    }) + (if c {
        4int
    } else {
        0
    }) + (if d {
        8int
    } else {
        0
    })
}

/// Digit `k` of a number.
spec fn digit_of(value: nat, k: nat) -> bool
    decreases k,
{
    if k == 0 {
        value % 2 == 1
    } else {
        digit_of(value / 2, (k - 1) as nat)
    }
}

/// A binary numeral has the digits of its number, most significant first.
pub proof fn law_numerals_hold_digits(value: nat, width: nat, k: nat)
    requires
        k < width,
    ensures
        binary_text(value, width).len() == width,
        k == 0 ==> digit_at(binary_text(value, width), 0) == (value % 2 == 1),
        k > 0 ==> digit_at(binary_text(value, width), k as int) == digit_at(
            binary_text(value / 2, (width - 1) as nat),
            k - 1,
        ),
{
    lemma_numeral_len(value, width);
    lemma_numeral_len(value / 2, (width - 1) as nat);
}

proof fn lemma_numeral_len(value: nat, width: nat)
    ensures
        binary_text(value, width).len() == width,
    decreases width,
{
    if width > 0 {
        lemma_numeral_len(value / 2, (width - 1) as nat);
    }
}

proof fn lemma_digit(value: nat, width: nat, k: nat)
    requires
        k < width,
    ensures
        digit_at(binary_text(value, width), k as int) == digit_of(value, k),
        binary_text(value, width).len() == width,
    decreases k,
{
    law_numerals_hold_digits(value, width, k);
    if k > 0 {
        lemma_digit(value / 2, (width - 1) as nat, (k - 1) as nat);
    }
}

proof fn lemma_table_digit(init: u16, k: u16)
    requires
        k < 16,
    ensures
        table_bit(init, k) == digit_of(init as nat, k as nat),
    decreases k,
{
    if k == 0 {
        assert((init & (1u16 << 0u16) != 0) == (init % 2 == 1)) by (bit_vector);
    } else {
        let half = init / 2;
        let less = (k - 1) as u16;
        lemma_table_digit(half, less);
        assert((init & (1u16 << k) != 0) == ((init / 2) & (1u16 << ((k - 1) as u16)) != 0))
            by (bit_vector)
            requires
                0 < k < 16,
        ;
    }
}

/// The table that a numeral of sixteen digits writes, at the place that four pins select.
proof fn lemma_written_table(init: u16, a: bool, b: bool, c: bool, d: bool)
    ensures
        digit_at(binary_text(init as nat, 16), selected(a, b, c, d)) == table_bit(
            init,
            pin_index(a, b, c, d),
        ),
        pin_index(a, b, c, d) < 16,
{
    let k = pin_index(a, b, c, d);
    lemma_table_digit(init, k);
    lemma_digit(init as nat, 16, k as nat);
}

proof fn lemma_lut_names()
    ensures
        "A"@ != "B"@,
        "A"@ != "C"@,
        "A"@ != "D"@,
        "A"@ != "Z"@,
        "B"@ != "C"@,
        "B"@ != "D"@,
        "B"@ != "Z"@,
        "C"@ != "D"@,
        "C"@ != "Z"@,
        "D"@ != "Z"@,
{
    reveal_strlit("A");
    reveal_strlit("B");
    reveal_strlit("C");
    reveal_strlit("D");
    reveal_strlit("Z");
    assert("A"@.len() == 1);
    assert("B"@.len() == 1);
    assert("C"@.len() == 1);
    assert("D"@.len() == 1);
    assert("Z"@.len() == 1);
    assert("A"@[0] == 'A');
    assert("B"@[0] == 'B');
    assert("C"@[0] == 'C');
    assert("D"@[0] == 'D');
    assert("Z"@[0] == 'Z');
}

/// Whether a written lookup table drives on `Z` the digit of `INIT` that `A`, `B`, `C`
/// and `D` select.
pub open spec fn written_lut_agrees(values: spec_fn(u32) -> bool, cell: JsonCellModel) -> bool {
    pin_value(values, cell, "Z"@) == digit_at(
        setting(cell, "INIT"@),
        selected(
            pin_value(values, cell, "A"@),
            pin_value(values, cell, "B"@),
            pin_value(values, cell, "C"@),
            pin_value(values, cell, "D"@),
        ),
    )
}

/// A written lookup table drives what the mapped one is said to drive.
pub proof fn law_written_lut_agrees(values: spec_fn(u32) -> bool, cell: CellModel)
    requires
        cell is Lut4,
    ensures
        primitive(cell).kind == "LUT4"@,
        setting(primitive(cell), "INIT"@).len() == 16,
        has_output(primitive(cell), "Z"@, cell->Lut4_output),
        written_lut_agrees(values, primitive(cell)) == cell_agrees(values, cell),
{
    let inputs = cell->Lut4_inputs;
    let init = cell->Lut4_init;
    let pins = seq![
        reads("A"@, inputs[0]),
        reads("B"@, inputs[1]),
        reads("C"@, inputs[2]),
        reads("D"@, inputs[3]),
        drives("Z"@, cell->Lut4_output),
    ];
    let texts = seq![("INIT"@, binary_text(init as nat, 16))];
    lemma_lut_names();
    assert(is_apart(pins)) by {
        assert forall|i: int, j: int| 0 <= i < j < pins.len() implies (#[trigger] pins[i]).0 != (
        #[trigger] pins[j]).0 by {
            assert(i == 0 || i == 1 || i == 2 || i == 3 || i == 4);
            assert(j == 0 || j == 1 || j == 2 || j == 3 || j == 4);
        }
    }
    lemma_all_named(pins);
    lemma_all_named(texts);
    assert(primitive(cell).pins == by_name(pins));
    assert(primitive(cell).parameters == by_name(texts));
    assert(pins[0].0 == "A"@ && pins[1].0 == "B"@ && pins[2].0 == "C"@ && pins[3].0 == "D"@
        && pins[4].0 == "Z"@);
    assert(texts[0].0 == "INIT"@);
    lemma_numeral_len(init as nat, 16);
    lemma_written_table(
        init,
        bit_value(values, inputs[0]),
        bit_value(values, inputs[1]),
        bit_value(values, inputs[2]),
        bit_value(values, inputs[3]),
    );
}

proof fn lemma_pfu_names()
    ensures
        "ALUT"@ != "BLUT"@,
        "ALUT"@ != "C0"@,
        "ALUT"@ != "Z"@,
        "BLUT"@ != "C0"@,
        "BLUT"@ != "Z"@,
        "C0"@ != "Z"@,
{
    reveal_strlit("ALUT");
    reveal_strlit("BLUT");
    reveal_strlit("C0");
    reveal_strlit("Z");
    assert("ALUT"@.len() == 4);
    assert("BLUT"@.len() == 4);
    assert("C0"@.len() == 2);
    assert("Z"@.len() == 1);
    assert("ALUT"@[0] == 'A');
    assert("BLUT"@[0] == 'B');
}

/// A written PFUMX drives on `Z` what `ALUT` has where `C0` is one, else what `BLUT` has,
/// and that is what the mapped one is said to drive.
pub proof fn law_written_pfu_mux_agrees(values: spec_fn(u32) -> bool, cell: CellModel)
    requires
        cell is PfuMux,
    ensures
        primitive(cell).kind == "PFUMX"@,
        has_output(primitive(cell), "Z"@, cell->PfuMux_output),
        (pin_value(values, primitive(cell), "Z"@) == if pin_value(
            values,
            primitive(cell),
            "C0"@,
        ) {
            pin_value(values, primitive(cell), "ALUT"@)
        } else {
            pin_value(values, primitive(cell), "BLUT"@)
        }) == cell_agrees(values, cell),
{
    let pins = seq![
        reads("ALUT"@, cell->PfuMux_lut_true),
        reads("BLUT"@, cell->PfuMux_lut_false),
        reads("C0"@, cell->PfuMux_select),
        drives("Z"@, cell->PfuMux_output),
    ];
    lemma_pfu_names();
    assert(is_apart(pins)) by {
        assert forall|i: int, j: int| 0 <= i < j < pins.len() implies (#[trigger] pins[i]).0 != (
        #[trigger] pins[j]).0 by {
            assert(i == 0 || i == 1 || i == 2 || i == 3);
            assert(j == 0 || j == 1 || j == 2 || j == 3);
        }
    }
    lemma_all_named(pins);
    assert(primitive(cell).pins == by_name(pins));
    assert(pins[0].0 == "ALUT"@ && pins[1].0 == "BLUT"@ && pins[2].0 == "C0"@ && pins[3].0
        == "Z"@);
}

proof fn lemma_l6_names()
    ensures
        "D0"@ != "D1"@,
        "D0"@ != "SD"@,
        "D0"@ != "Z"@,
        "D1"@ != "SD"@,
        "D1"@ != "Z"@,
        "SD"@ != "Z"@,
{
    reveal_strlit("D0");
    reveal_strlit("D1");
    reveal_strlit("SD");
    reveal_strlit("Z");
    assert("D0"@.len() == 2);
    assert("D1"@.len() == 2);
    assert("SD"@.len() == 2);
    assert("Z"@.len() == 1);
    assert("D0"@[0] == 'D');
    assert("D0"@[1] == '0');
    assert("D1"@[0] == 'D');
    assert("D1"@[1] == '1');
    assert("SD"@[0] == 'S');
}

/// A written L6MUX21 drives on `Z` what `D1` has where `SD` is one, else what `D0` has, and
/// that is what the mapped one is said to drive.
pub proof fn law_written_l6_mux_agrees(values: spec_fn(u32) -> bool, cell: CellModel)
    requires
        cell is L6Mux21,
    ensures
        primitive(cell).kind == "L6MUX21"@,
        has_output(primitive(cell), "Z"@, cell->L6Mux21_output),
        (pin_value(values, primitive(cell), "Z"@) == if pin_value(
            values,
            primitive(cell),
            "SD"@,
        ) {
            pin_value(values, primitive(cell), "D1"@)
        } else {
            pin_value(values, primitive(cell), "D0"@)
        }) == cell_agrees(values, cell),
{
    let pins = seq![
        reads("D0"@, cell->L6Mux21_data_zero),
        reads("D1"@, cell->L6Mux21_data_one),
        reads("SD"@, cell->L6Mux21_select),
        drives("Z"@, cell->L6Mux21_output),
    ];
    lemma_l6_names();
    assert(is_apart(pins)) by {
        assert forall|i: int, j: int| 0 <= i < j < pins.len() implies (#[trigger] pins[i]).0 != (
        #[trigger] pins[j]).0 by {
            assert(i == 0 || i == 1 || i == 2 || i == 3);
            assert(j == 0 || j == 1 || j == 2 || j == 3);
        }
    }
    lemma_all_named(pins);
    assert(primitive(cell).pins == by_name(pins));
    assert(pins[0].0 == "D0"@ && pins[1].0 == "D1"@ && pins[2].0 == "SD"@ && pins[3].0 == "Z"@);
}

proof fn lemma_ccu_names()
    ensures
        "CIN"@ != "A0"@,
        "CIN"@ != "B0"@,
        "CIN"@ != "C0"@,
        "CIN"@ != "D0"@,
        "CIN"@ != "S0"@,
        "CIN"@ != "A1"@,
        "CIN"@ != "B1"@,
        "CIN"@ != "C1"@,
        "CIN"@ != "D1"@,
        "CIN"@ != "S1"@,
        "CIN"@ != "COUT"@,
        "A0"@ != "B0"@,
        "A0"@ != "C0"@,
        "A0"@ != "D0"@,
        "A0"@ != "S0"@,
        "A0"@ != "A1"@,
        "A0"@ != "B1"@,
        "A0"@ != "C1"@,
        "A0"@ != "D1"@,
        "A0"@ != "S1"@,
        "A0"@ != "COUT"@,
        "B0"@ != "C0"@,
        "B0"@ != "D0"@,
        "B0"@ != "S0"@,
        "B0"@ != "A1"@,
        "B0"@ != "B1"@,
        "B0"@ != "C1"@,
        "B0"@ != "D1"@,
        "B0"@ != "S1"@,
        "B0"@ != "COUT"@,
        "C0"@ != "D0"@,
        "C0"@ != "S0"@,
        "C0"@ != "A1"@,
        "C0"@ != "B1"@,
        "C0"@ != "C1"@,
        "C0"@ != "D1"@,
        "C0"@ != "S1"@,
        "C0"@ != "COUT"@,
        "D0"@ != "S0"@,
        "D0"@ != "A1"@,
        "D0"@ != "B1"@,
        "D0"@ != "C1"@,
        "D0"@ != "D1"@,
        "D0"@ != "S1"@,
        "D0"@ != "COUT"@,
        "S0"@ != "A1"@,
        "S0"@ != "B1"@,
        "S0"@ != "C1"@,
        "S0"@ != "D1"@,
        "S0"@ != "S1"@,
        "S0"@ != "COUT"@,
        "A1"@ != "B1"@,
        "A1"@ != "C1"@,
        "A1"@ != "D1"@,
        "A1"@ != "S1"@,
        "A1"@ != "COUT"@,
        "B1"@ != "C1"@,
        "B1"@ != "D1"@,
        "B1"@ != "S1"@,
        "B1"@ != "COUT"@,
        "C1"@ != "D1"@,
        "C1"@ != "S1"@,
        "C1"@ != "COUT"@,
        "D1"@ != "S1"@,
        "D1"@ != "COUT"@,
        "S1"@ != "COUT"@,
{
    reveal_strlit("CIN");
    reveal_strlit("A0");
    reveal_strlit("B0");
    reveal_strlit("C0");
    reveal_strlit("D0");
    reveal_strlit("S0");
    reveal_strlit("A1");
    reveal_strlit("B1");
    reveal_strlit("C1");
    reveal_strlit("D1");
    reveal_strlit("S1");
    reveal_strlit("COUT");
    assert("CIN"@.len() == 3);
    assert("A0"@.len() == 2);
    assert("B0"@.len() == 2);
    assert("C0"@.len() == 2);
    assert("D0"@.len() == 2);
    assert("S0"@.len() == 2);
    assert("A1"@.len() == 2);
    assert("B1"@.len() == 2);
    assert("C1"@.len() == 2);
    assert("D1"@.len() == 2);
    assert("S1"@.len() == 2);
    assert("COUT"@.len() == 4);
    assert("A0"@[0] == 'A');
    assert("A0"@[1] == '0');
    assert("B0"@[0] == 'B');
    assert("B0"@[1] == '0');
    assert("C0"@[0] == 'C');
    assert("C0"@[1] == '0');
    assert("D0"@[0] == 'D');
    assert("D0"@[1] == '0');
    assert("S0"@[0] == 'S');
    assert("S0"@[1] == '0');
    assert("A1"@[0] == 'A');
    assert("A1"@[1] == '1');
    assert("B1"@[0] == 'B');
    assert("B1"@[1] == '1');
    assert("C1"@[0] == 'C');
    assert("C1"@[1] == '1');
    assert("D1"@[0] == 'D');
    assert("D1"@[1] == '1');
    assert("S1"@[0] == 'S');
    assert("S1"@[1] == '1');
}

proof fn lemma_ccu_texts()
    ensures
        "INIT0"@ != "INIT1"@,
        "INIT0"@ != "INJECT1_0"@,
        "INIT0"@ != "INJECT1_1"@,
        "INIT1"@ != "INJECT1_0"@,
        "INIT1"@ != "INJECT1_1"@,
        "INJECT1_0"@ != "INJECT1_1"@,
{
    reveal_strlit("INIT0");
    reveal_strlit("INIT1");
    reveal_strlit("INJECT1_0");
    reveal_strlit("INJECT1_1");
    assert("INIT0"@.len() == 5);
    assert("INIT1"@.len() == 5);
    assert("INJECT1_0"@.len() == 9);
    assert("INJECT1_1"@.len() == 9);
    assert("INIT0"@[4] == '0');
    assert("INIT1"@[4] == '1');
    assert("INJECT1_0"@[8] == '0');
    assert("INJECT1_1"@[8] == '1');
}

proof fn lemma_settings()
    ensures
        "CE"@ != "INV"@,
        "CE"@ != "1 "@,
        "CE"@ != "LSR"@,
        "CE"@ != "CLK"@,
        "CE"@ != "SET"@,
        "CE"@ != "RESET"@,
        "CE"@ != "ASYNC"@,
        "CE"@ != "LSR_OVER_CE"@,
        "CE"@ != "YES"@,
        "CE"@ != "NO"@,
        "CE"@ != "WCK"@,
        "CE"@ != "WRE"@,
        "INV"@ != "1 "@,
        "INV"@ != "LSR"@,
        "INV"@ != "CLK"@,
        "INV"@ != "SET"@,
        "INV"@ != "RESET"@,
        "INV"@ != "ASYNC"@,
        "INV"@ != "LSR_OVER_CE"@,
        "INV"@ != "YES"@,
        "INV"@ != "NO"@,
        "INV"@ != "WCK"@,
        "INV"@ != "WRE"@,
        "1 "@ != "LSR"@,
        "1 "@ != "CLK"@,
        "1 "@ != "SET"@,
        "1 "@ != "RESET"@,
        "1 "@ != "ASYNC"@,
        "1 "@ != "LSR_OVER_CE"@,
        "1 "@ != "YES"@,
        "1 "@ != "NO"@,
        "1 "@ != "WCK"@,
        "1 "@ != "WRE"@,
        "LSR"@ != "CLK"@,
        "LSR"@ != "SET"@,
        "LSR"@ != "RESET"@,
        "LSR"@ != "ASYNC"@,
        "LSR"@ != "LSR_OVER_CE"@,
        "LSR"@ != "YES"@,
        "LSR"@ != "NO"@,
        "LSR"@ != "WCK"@,
        "LSR"@ != "WRE"@,
        "CLK"@ != "SET"@,
        "CLK"@ != "RESET"@,
        "CLK"@ != "ASYNC"@,
        "CLK"@ != "LSR_OVER_CE"@,
        "CLK"@ != "YES"@,
        "CLK"@ != "NO"@,
        "CLK"@ != "WCK"@,
        "CLK"@ != "WRE"@,
        "SET"@ != "RESET"@,
        "SET"@ != "ASYNC"@,
        "SET"@ != "LSR_OVER_CE"@,
        "SET"@ != "YES"@,
        "SET"@ != "NO"@,
        "SET"@ != "WCK"@,
        "SET"@ != "WRE"@,
        "RESET"@ != "ASYNC"@,
        "RESET"@ != "LSR_OVER_CE"@,
        "RESET"@ != "YES"@,
        "RESET"@ != "NO"@,
        "RESET"@ != "WCK"@,
        "RESET"@ != "WRE"@,
        "ASYNC"@ != "LSR_OVER_CE"@,
        "ASYNC"@ != "YES"@,
        "ASYNC"@ != "NO"@,
        "ASYNC"@ != "WCK"@,
        "ASYNC"@ != "WRE"@,
        "LSR_OVER_CE"@ != "YES"@,
        "LSR_OVER_CE"@ != "NO"@,
        "LSR_OVER_CE"@ != "WCK"@,
        "LSR_OVER_CE"@ != "WRE"@,
        "YES"@ != "NO"@,
        "YES"@ != "WCK"@,
        "YES"@ != "WRE"@,
        "NO"@ != "WCK"@,
        "NO"@ != "WRE"@,
        "WCK"@ != "WRE"@,
{
    reveal_strlit("CE");
    reveal_strlit("INV");
    reveal_strlit("1 ");
    reveal_strlit("LSR");
    reveal_strlit("CLK");
    reveal_strlit("SET");
    reveal_strlit("RESET");
    reveal_strlit("ASYNC");
    reveal_strlit("LSR_OVER_CE");
    reveal_strlit("YES");
    reveal_strlit("NO");
    reveal_strlit("WCK");
    reveal_strlit("WRE");
    assert("CE"@.len() == 2);
    assert("INV"@.len() == 3);
    assert("1 "@.len() == 2);
    assert("LSR"@.len() == 3);
    assert("CLK"@.len() == 3);
    assert("SET"@.len() == 3);
    assert("RESET"@.len() == 5);
    assert("ASYNC"@.len() == 5);
    assert("LSR_OVER_CE"@.len() == 11);
    assert("YES"@.len() == 3);
    assert("NO"@.len() == 2);
    assert("WCK"@.len() == 3);
    assert("WRE"@.len() == 3);
    assert("CE"@[0] == 'C');
    assert("INV"@[0] == 'I');
    assert("1 "@[0] == '1');
    assert("LSR"@[0] == 'L');
    assert("CLK"@[0] == 'C');
    assert("SET"@[0] == 'S');
    assert("RESET"@[0] == 'R');
    assert("ASYNC"@[0] == 'A');
    assert("YES"@[0] == 'Y');
    assert("NO"@[0] == 'N');
    assert("WCK"@[0] == 'W');
    assert("WCK"@[1] == 'C');
    assert("WRE"@[0] == 'W');
    assert("WRE"@[1] == 'R');
}

/// The sum of one half of a written CCU2C: the digit of its table that its four pins
/// select, other than the carry.
pub open spec fn written_sum(table: Seq<char>, a: bool, b: bool, c: bool, d: bool, carry: bool) -> bool {
    digit_at(table, selected(a, b, c, d)) != carry
}

/// The carry of one half of a written CCU2C: the carry that enters it where its table is
/// one, else the digit that its first two pins select.
pub open spec fn written_carry(
    table: Seq<char>,
    a: bool,
    b: bool,
    c: bool,
    d: bool,
    carry: bool,
) -> bool {
    if digit_at(table, selected(a, b, c, d)) {
        carry
    } else {
        digit_at(table, selected(a, b, false, false))
    }
}

/// Whether a written CCU2C drives on `S0`, `S1` and `COUT` what its two halves make of
/// its pins and of the carry on `CIN`; a half into which a constant is injected takes no
/// carry.
pub open spec fn written_carry_agrees(values: spec_fn(u32) -> bool, cell: JsonCellModel) -> bool {
    let low = setting(cell, "INIT0"@);
    let high = setting(cell, "INIT1"@);
    let a0 = pin_value(values, cell, "A0"@);
    let b0 = pin_value(values, cell, "B0"@);
    let c0 = pin_value(values, cell, "C0"@);
    let d0 = pin_value(values, cell, "D0"@);
    let a1 = pin_value(values, cell, "A1"@);
    let b1 = pin_value(values, cell, "B1"@);
    let c1 = pin_value(values, cell, "C1"@);
    let d1 = pin_value(values, cell, "D1"@);
    let first = setting(cell, "INJECT1_0"@) != "YES"@ && pin_value(values, cell, "CIN"@);
    let second = setting(cell, "INJECT1_1"@) != "YES"@ && written_carry(
        low,
        a0,
        b0,
        c0,
        d0,
        first,
    );
    &&& pin_value(values, cell, "S0"@) == written_sum(low, a0, b0, c0, d0, first)
    &&& pin_value(values, cell, "S1"@) == written_sum(high, a1, b1, c1, d1, second)
    &&& pin_value(values, cell, "COUT"@) == written_carry(high, a1, b1, c1, d1, second)
}

/// A written carry primitive drives what the mapped one is said to drive.
#[verifier::rlimit(60)]
pub proof fn law_written_carry_agrees(values: spec_fn(u32) -> bool, cell: CellModel)
    requires
        cell is Ccu2c,
    ensures
        primitive(cell).kind == "CCU2C"@,
        has_output(primitive(cell), "S0"@, cell->Ccu2c_sums[0]),
        has_output(primitive(cell), "S1"@, cell->Ccu2c_sums[1]),
        has_output(primitive(cell), "COUT"@, cell->Ccu2c_carry_out),
        written_carry_agrees(values, primitive(cell)) == cell_agrees(values, cell),
{
    let inputs = cell->Ccu2c_inputs;
    let sums = cell->Ccu2c_sums;
    let init = cell->Ccu2c_init;
    let inject = cell->Ccu2c_inject;
    let pins = seq![
        reads("CIN"@, cell->Ccu2c_carry_in),
        reads("A0"@, inputs[0][0]),
        reads("B0"@, inputs[0][1]),
        reads("C0"@, inputs[0][2]),
        reads("D0"@, inputs[0][3]),
        drives("S0"@, sums[0]),
        reads("A1"@, inputs[1][0]),
        reads("B1"@, inputs[1][1]),
        reads("C1"@, inputs[1][2]),
        reads("D1"@, inputs[1][3]),
        drives("S1"@, sums[1]),
        drives("COUT"@, cell->Ccu2c_carry_out),
    ];
    let texts = seq![
        ("INIT0"@, binary_text(init[0] as nat, 16)),
        ("INIT1"@, binary_text(init[1] as nat, 16)),
        ("INJECT1_0"@, yes_text(inject[0])),
        ("INJECT1_1"@, yes_text(inject[1])),
    ];
    lemma_ccu_names();
    lemma_ccu_texts();
    lemma_settings();
    assert(is_apart(pins)) by {
        assert forall|i: int, j: int| 0 <= i < j < pins.len() implies (#[trigger] pins[i]).0 != (
        #[trigger] pins[j]).0 by {
            assert(i == 0 || i == 1 || i == 2 || i == 3 || i == 4 || i == 5 || i == 6 || i == 7 || i == 8 || i == 9 || i == 10 || i == 11);
            assert(j == 0 || j == 1 || j == 2 || j == 3 || j == 4 || j == 5 || j == 6 || j == 7 || j == 8 || j == 9 || j == 10 || j == 11);
        }
    }
    assert(is_apart(texts)) by {
        assert forall|i: int, j: int| 0 <= i < j < texts.len() implies (#[trigger] texts[i]).0 != (
        #[trigger] texts[j]).0 by {
            assert(i == 0 || i == 1 || i == 2 || i == 3);
            assert(j == 0 || j == 1 || j == 2 || j == 3);
        }
    }
    lemma_all_named(pins);
    lemma_all_named(texts);
    assert(primitive(cell).pins == by_name(pins));
    assert(primitive(cell).parameters == by_name(texts));
    assert(pins[0].0 == "CIN"@);
    assert(pins[1].0 == "A0"@);
    assert(pins[2].0 == "B0"@);
    assert(pins[3].0 == "C0"@);
    assert(pins[4].0 == "D0"@);
    assert(pins[5].0 == "S0"@);
    assert(pins[6].0 == "A1"@);
    assert(pins[7].0 == "B1"@);
    assert(pins[8].0 == "C1"@);
    assert(pins[9].0 == "D1"@);
    assert(pins[10].0 == "S1"@);
    assert(pins[11].0 == "COUT"@);
    assert(texts[0].0 == "INIT0"@);
    assert(texts[1].0 == "INIT1"@);
    assert(texts[2].0 == "INJECT1_0"@);
    assert(texts[3].0 == "INJECT1_1"@);
    reveal(carry_slice);
    let a0 = bit_value(values, inputs[0][0]);
    let b0 = bit_value(values, inputs[0][1]);
    let c0 = bit_value(values, inputs[0][2]);
    let d0 = bit_value(values, inputs[0][3]);
    let a1 = bit_value(values, inputs[1][0]);
    let b1 = bit_value(values, inputs[1][1]);
    let c1 = bit_value(values, inputs[1][2]);
    let d1 = bit_value(values, inputs[1][3]);
    lemma_written_table(init[0], a0, b0, c0, d0);
    lemma_written_table(init[0], a0, b0, false, false);
    lemma_written_table(init[1], a1, b1, c1, d1);
    lemma_written_table(init[1], a1, b1, false, false);
}

proof fn lemma_ff_names()
    ensures
        "CLK"@ != "LSR"@,
        "CLK"@ != "CE"@,
        "CLK"@ != "DI"@,
        "CLK"@ != "Q"@,
        "LSR"@ != "CE"@,
        "LSR"@ != "DI"@,
        "LSR"@ != "Q"@,
        "CE"@ != "DI"@,
        "CE"@ != "Q"@,
        "DI"@ != "Q"@,
{
    reveal_strlit("CLK");
    reveal_strlit("LSR");
    reveal_strlit("CE");
    reveal_strlit("DI");
    reveal_strlit("Q");
    assert("CLK"@.len() == 3);
    assert("LSR"@.len() == 3);
    assert("CE"@.len() == 2);
    assert("DI"@.len() == 2);
    assert("Q"@.len() == 1);
    assert("CLK"@[0] == 'C');
    assert("LSR"@[0] == 'L');
    assert("CE"@[0] == 'C');
    assert("DI"@[0] == 'D');
}

proof fn lemma_ff_texts()
    ensures
        "CEMUX"@ != "CLKMUX"@,
        "CEMUX"@ != "GSR"@,
        "CEMUX"@ != "LSRMUX"@,
        "CEMUX"@ != "REGSET"@,
        "CEMUX"@ != "SRMODE"@,
        "CLKMUX"@ != "GSR"@,
        "CLKMUX"@ != "LSRMUX"@,
        "CLKMUX"@ != "REGSET"@,
        "CLKMUX"@ != "SRMODE"@,
        "GSR"@ != "LSRMUX"@,
        "GSR"@ != "REGSET"@,
        "GSR"@ != "SRMODE"@,
        "LSRMUX"@ != "REGSET"@,
        "LSRMUX"@ != "SRMODE"@,
        "REGSET"@ != "SRMODE"@,
{
    reveal_strlit("CEMUX");
    reveal_strlit("CLKMUX");
    reveal_strlit("GSR");
    reveal_strlit("LSRMUX");
    reveal_strlit("REGSET");
    reveal_strlit("SRMODE");
    assert("CEMUX"@.len() == 5);
    assert("CLKMUX"@.len() == 6);
    assert("GSR"@.len() == 3);
    assert("LSRMUX"@.len() == 6);
    assert("REGSET"@.len() == 6);
    assert("SRMODE"@.len() == 6);
    assert("CLKMUX"@[0] == 'C');
    assert("LSRMUX"@[0] == 'L');
    assert("REGSET"@[0] == 'R');
    assert("SRMODE"@[0] == 'S');
}

/// Whether the tool takes a control as asserted: the pin where its mux names the pin, the
/// inverted pin where its mux says so, and always where it is tied to one.
pub open spec fn is_asserted(
    values: spec_fn(u32) -> bool,
    cell: JsonCellModel,
    pin: Seq<char>,
    mux: Seq<char>,
) -> bool {
    let text = setting(cell, mux);
    if text == pin {
        pin_value(values, cell, pin)
    } else if text == "INV"@ {
        !pin_value(values, cell, pin)
    } else {
        true
    }
}

/// Whether the tool sees the active edge of a clock: a rising one, or a falling one where
/// its mux inverts the clock.
pub open spec fn sees_edge(
    before: spec_fn(u32) -> bool,
    after: spec_fn(u32) -> bool,
    cell: JsonCellModel,
    pin: Seq<char>,
    mux: Seq<char>,
) -> bool {
    if setting(cell, mux) == "INV"@ {
        pin_value(before, cell, pin) && !pin_value(after, cell, pin)
    } else {
        !pin_value(before, cell, pin) && pin_value(after, cell, pin)
    }
}

/// What a written TRELLIS_FF holds after the wires went from `before` to `after`: reset
/// loads what `REGSET` says, at once where `SRMODE` says so; else it takes `DI` at an edge
/// of its clock while its enable is asserted.
pub open spec fn written_flip_flop_after(
    before: spec_fn(u32) -> bool,
    after: spec_fn(u32) -> bool,
    cell: JsonCellModel,
) -> bool {
    let loaded = setting(cell, "REGSET"@) == "SET"@;
    let held = pin_value(before, cell, "Q"@);
    if setting(cell, "SRMODE"@) == "ASYNC"@ && is_asserted(after, cell, "LSR"@, "LSRMUX"@) {
        loaded
    } else if sees_edge(before, after, cell, "CLK"@, "CLKMUX"@) {
        if is_asserted(before, cell, "LSR"@, "LSRMUX"@) {
            loaded
        } else if is_asserted(before, cell, "CE"@, "CEMUX"@) {
            pin_value(before, cell, "DI"@)
        } else {
            held
        }
    } else {
        held
    }
}

/// A written flip-flop does what the mapped one does, and starts as it starts.
#[verifier::rlimit(60)]
pub proof fn law_written_flip_flop_steps(
    before: spec_fn(u32) -> bool,
    after: spec_fn(u32) -> bool,
    cell: CellModel,
)
    requires
        cell is FlipFlop,
    ensures
        primitive(cell).kind == "TRELLIS_FF"@,
        has_output(primitive(cell), "Q"@, cell->FlipFlop_output),
        written_flip_flop_after(before, after, primitive(cell)) == flip_flop_after(
            before,
            after,
            cell,
        ),
        (before(cell->FlipFlop_output) == (setting(primitive(cell), "REGSET"@) == "SET"@))
            == cell_starts(before, cell),
{
    let enable = cell->FlipFlop_enable;
    let reset = cell->FlipFlop_reset;
    let pins = seq![
        reads("CLK"@, cell->FlipFlop_clock),
        reads("LSR"@, reset_bit(reset)),
        reads("CE"@, control_bit(enable, Bit::One)),
        reads("DI"@, cell->FlipFlop_data),
        drives("Q"@, cell->FlipFlop_output),
    ];
    let texts = seq![
        ("CEMUX"@, control_setting(enable, "1 "@, "CE"@)),
        ("CLKMUX"@, edge_setting(cell->FlipFlop_edge, "CLK"@)),
        ("GSR"@, "DISABLED"@),
        ("LSRMUX"@, reset_setting(reset)),
        ("REGSET"@, loaded_setting(reset)),
        ("SRMODE"@, reset_mode(reset)),
    ];
    lemma_ff_names();
    lemma_ff_texts();
    lemma_settings();
    assert(is_apart(pins)) by {
        assert forall|i: int, j: int| 0 <= i < j < pins.len() implies (#[trigger] pins[i]).0 != (
        #[trigger] pins[j]).0 by {
            assert(i == 0 || i == 1 || i == 2 || i == 3 || i == 4);
            assert(j == 0 || j == 1 || j == 2 || j == 3 || j == 4);
        }
    }
    assert(is_apart(texts)) by {
        assert forall|i: int, j: int| 0 <= i < j < texts.len() implies (#[trigger] texts[i]).0 != (
        #[trigger] texts[j]).0 by {
            assert(i == 0 || i == 1 || i == 2 || i == 3 || i == 4 || i == 5);
            assert(j == 0 || j == 1 || j == 2 || j == 3 || j == 4 || j == 5);
        }
    }
    lemma_all_named(pins);
    lemma_all_named(texts);
    assert(primitive(cell).pins == by_name(pins));
    assert(primitive(cell).parameters == by_name(texts));
    assert(pins[0].0 == "CLK"@);
    assert(pins[1].0 == "LSR"@);
    assert(pins[2].0 == "CE"@);
    assert(pins[3].0 == "DI"@);
    assert(pins[4].0 == "Q"@);
    assert(texts[0].0 == "CEMUX"@);
    assert(texts[1].0 == "CLKMUX"@);
    assert(texts[2].0 == "GSR"@);
    assert(texts[3].0 == "LSRMUX"@);
    assert(texts[4].0 == "REGSET"@);
    assert(texts[5].0 == "SRMODE"@);
}

proof fn lemma_dpr_names()
    ensures
        "DI"@ != "WAD"@,
        "DI"@ != "WRE"@,
        "DI"@ != "WCK"@,
        "DI"@ != "RAD"@,
        "DI"@ != "DO"@,
        "WAD"@ != "WRE"@,
        "WAD"@ != "WCK"@,
        "WAD"@ != "RAD"@,
        "WAD"@ != "DO"@,
        "WRE"@ != "WCK"@,
        "WRE"@ != "RAD"@,
        "WRE"@ != "DO"@,
        "WCK"@ != "RAD"@,
        "WCK"@ != "DO"@,
        "RAD"@ != "DO"@,
{
    reveal_strlit("DI");
    reveal_strlit("WAD");
    reveal_strlit("WRE");
    reveal_strlit("WCK");
    reveal_strlit("RAD");
    reveal_strlit("DO");
    assert("DI"@.len() == 2);
    assert("WAD"@.len() == 3);
    assert("WRE"@.len() == 3);
    assert("WCK"@.len() == 3);
    assert("RAD"@.len() == 3);
    assert("DO"@.len() == 2);
    assert("DI"@[1] == 'I');
    assert("WAD"@[0] == 'W');
    assert("WAD"@[1] == 'A');
    assert("WRE"@[0] == 'W');
    assert("WRE"@[1] == 'R');
    assert("WCK"@[0] == 'W');
    assert("WCK"@[1] == 'C');
    assert("RAD"@[0] == 'R');
    assert("DO"@[1] == 'O');
}

proof fn lemma_dpr_texts()
    ensures
        "WCKMUX"@ != "WREMUX"@,
        "WCKMUX"@ != "INITVAL"@,
        "WREMUX"@ != "INITVAL"@,
{
    reveal_strlit("WCKMUX");
    reveal_strlit("WREMUX");
    reveal_strlit("INITVAL");
    assert("WCKMUX"@.len() == 6);
    assert("WREMUX"@.len() == 6);
    assert("INITVAL"@.len() == 7);
    assert("WCKMUX"@[1] == 'C');
    assert("WREMUX"@[1] == 'R');
}

/// The number that four bits of a written bus stand for, least-significant first.
pub open spec fn bus_number(values: spec_fn(u32) -> bool, bits: Seq<Bit>) -> nat {
    selected(
        bit_value(values, bits[0]),
        bit_value(values, bits[1]),
        bit_value(values, bits[2]),
        bit_value(values, bits[3]),
    ) as nat
}

/// The bits of a written bus.
pub open spec fn bus(cell: JsonCellModel, name: Seq<char>) -> Seq<Bit> {
    named(cell.pins, name)->0.bits
}

/// Whether a written TRELLIS_DPR16X4 drives on `DO` the word it holds at `RAD`, and holds
/// after an edge on `WCK` with `WRE` asserted the word on `DI` at `WAD`, and otherwise what
/// it held.
pub open spec fn written_tile_works(
    values: spec_fn(u32) -> bool,
    after: spec_fn(u32) -> bool,
    held: spec_fn(Seq<char>, nat, int) -> bool,
    next: spec_fn(Seq<char>, nat, int) -> bool,
    name: Seq<char>,
    cell: JsonCellModel,
) -> bool {
    &&& forall|b: int|
        0 <= b < 4 ==> bit_value(values, #[trigger] bus(cell, "DO"@)[b]) == held(
            name,
            bus_number(values, bus(cell, "RAD"@)),
            b,
        )
    &&& forall|a: nat, b: int|
        0 <= b < 4 ==> #[trigger] next(name, a, b) == if sees_edge(
            values,
            after,
            cell,
            "WCK"@,
            "WCKMUX"@,
        ) && is_asserted(values, cell, "WRE"@, "WREMUX"@) && a == bus_number(
            values,
            bus(cell, "WAD"@),
        ) {
            bit_value(values, bus(cell, "DI"@)[b])
        } else {
            held(name, a, b)
        }
}

/// A written distributed RAM stores what the mapped one stores, and drives what it drives.
#[verifier::rlimit(80)]
pub proof fn law_written_tile_works(
    values: spec_fn(u32) -> bool,
    after: spec_fn(u32) -> bool,
    held: spec_fn(Seq<char>, nat, int) -> bool,
    next: spec_fn(Seq<char>, nat, int) -> bool,
    cell: CellModel,
)
    requires
        cell is BlockRam,
        cell->BlockRam_implementation == Ecp5MemoryImplementation::Distributed,
        cell->BlockRam_write_data.len() == 4,
        cell->BlockRam_read_data.len() == 4,
    ensures
        primitive(cell).kind == "TRELLIS_DPR16X4"@,
        written_tile_works(values, after, held, next, cell.cell_name(), primitive(cell))
            == tile_works(values, after, held, next, cell),
{
    let enable = cell->BlockRam_write_enable;
    let data = cell->BlockRam_write_data;
    let wires = cell->BlockRam_read_data;
    let name = cell->BlockRam_name;
    let pins = seq![
        ("DI"@, PinModel { direction: PortDirection::Input, bits: nibble(data) }),
        (
            "WAD"@,
            PinModel {
                direction: PortDirection::Input,
                bits: cell->BlockRam_write_address@.take(4),
            },
        ),
        reads("WRE"@, enable.signal),
        reads("WCK"@, cell->BlockRam_clock),
        (
            "RAD"@,
            PinModel {
                direction: PortDirection::Input,
                bits: cell->BlockRam_read_address@.take(4),
            },
        ),
        ("DO"@, PinModel { direction: PortDirection::Output, bits: output_nibble(wires) }),
    ];
    let texts = seq![
        ("WCKMUX"@, edge_setting(cell->BlockRam_edge, "WCK"@)),
        ("WREMUX"@, active_setting(enable.active, "WRE"@)),
        ("INITVAL"@, binary_text(0, 64)),
    ];
    lemma_dpr_names();
    lemma_dpr_texts();
    lemma_settings();
    assert(is_apart(pins)) by {
        assert forall|i: int, j: int| 0 <= i < j < pins.len() implies (#[trigger] pins[i]).0 != (
        #[trigger] pins[j]).0 by {
            assert(i == 0 || i == 1 || i == 2 || i == 3 || i == 4 || i == 5);
            assert(j == 0 || j == 1 || j == 2 || j == 3 || j == 4 || j == 5);
        }
    }
    assert(is_apart(texts)) by {
        assert forall|i: int, j: int| 0 <= i < j < texts.len() implies (#[trigger] texts[i]).0 != (
        #[trigger] texts[j]).0 by {
            assert(i == 0 || i == 1 || i == 2);
            assert(j == 0 || j == 1 || j == 2);
        }
    }
    lemma_all_named(pins);
    lemma_all_named(texts);
    let written = primitive(cell);
    assert(written.pins == by_name(pins));
    assert(written.parameters == by_name(texts));
    assert(pins[0].0 == "DI"@);
    assert(pins[1].0 == "WAD"@);
    assert(pins[2].0 == "WRE"@);
    assert(pins[3].0 == "WCK"@);
    assert(pins[4].0 == "RAD"@);
    assert(pins[5].0 == "DO"@);
    assert(texts[0].0 == "WCKMUX"@);
    assert(texts[1].0 == "WREMUX"@);
    assert(texts[2].0 == "INITVAL"@);
    let edge = sees_edge(values, after, written, "WCK"@, "WCKMUX"@);
    assert(edge == has_edge(
        bit_value(values, cell->BlockRam_clock),
        bit_value(after, cell->BlockRam_clock),
        cell->BlockRam_edge,
    ));
    assert(is_asserted(values, written, "WRE"@, "WREMUX"@) == asserted(
        values,
        enable.signal,
        enable.active,
    ));
    assert(bus_number(values, bus(written, "RAD"@)) == pins_value(
        values,
        cell->BlockRam_read_address,
    ));
    assert(bus_number(values, bus(written, "WAD"@)) == pins_value(
        values,
        cell->BlockRam_write_address,
    ));
    assert(forall|b: int| 0 <= b < 4 ==> #[trigger] bus(written, "DO"@)[b] == Bit::Wire(wires[b]));
    assert(forall|b: int| 0 <= b < 4 ==> #[trigger] bus(written, "DI"@)[b] == data[b]);
    assert(forall|b: int|
        0 <= b < 4 ==> bit_value(values, bus(written, "DO"@)[b]) == values(#[trigger] wires[b]));
    if written_tile_works(values, after, held, next, name, written) {
        assert forall|b: int| 0 <= b < wires.len() implies values(#[trigger] wires[b]) == held(
            name,
            pins_value(values, cell->BlockRam_read_address),
            b,
        ) by {
            assert(bit_value(values, bus(written, "DO"@)[b]) == values(wires[b]));
        }
        assert(tile_works(values, after, held, next, cell));
    }
    if tile_works(values, after, held, next, cell) {
        assert forall|b: int| 0 <= b < 4 implies bit_value(
            values,
            #[trigger] bus(written, "DO"@)[b],
        ) == held(name, bus_number(values, bus(written, "RAD"@)), b) by {
            assert(values(wires[b]) == held(
                name,
                pins_value(values, cell->BlockRam_read_address),
                b,
            ));
        }
        assert(written_tile_works(values, after, held, next, name, written));
    }
}

proof fn lemma_io_names()
    ensures
        "B"@ != "I"@,
        "B"@ != "O"@,
        "B"@ != "T"@,
        "I"@ != "O"@,
        "I"@ != "T"@,
        "O"@ != "T"@,
{
    reveal_strlit("B");
    reveal_strlit("I");
    reveal_strlit("O");
    reveal_strlit("T");
    assert("B"@.len() == 1);
    assert("I"@.len() == 1);
    assert("O"@.len() == 1);
    assert("T"@.len() == 1);
    assert("B"@[0] == 'B');
    assert("I"@[0] == 'I');
    assert("O"@[0] == 'O');
    assert("T"@[0] == 'T');
}

/// A written pad is on the pad wire, drives `I` out while `T` is zero, and drives what it
/// sees on `O`.
pub proof fn law_written_pad_is_bound(cell: CellModel)
    requires
        cell is TrellisIo,
    ensures
        primitive(cell).kind == "TRELLIS_IO"@,
        setting(primitive(cell), "DIR"@) == "BIDIR"@,
        named(primitive(cell).pins, "B"@) == Some(
            PinModel {
                direction: PortDirection::Inout,
                bits: seq![Bit::Wire(cell->TrellisIo_pad)],
            },
        ),
        has_input(primitive(cell), "I"@, cell->TrellisIo_fabric_output),
        has_output(primitive(cell), "O"@, cell->TrellisIo_fabric_input),
        has_input(primitive(cell), "T"@, cell->TrellisIo_tristate),
{
    let pins = seq![
        (
            "B"@,
            PinModel {
                direction: PortDirection::Inout,
                bits: seq![Bit::Wire(cell->TrellisIo_pad)],
            },
        ),
        reads("I"@, cell->TrellisIo_fabric_output),
        drives("O"@, cell->TrellisIo_fabric_input),
        reads("T"@, cell->TrellisIo_tristate),
    ];
    let texts = seq![("DIR"@, "BIDIR"@)];
    lemma_io_names();
    assert(is_apart(pins)) by {
        assert forall|i: int, j: int| 0 <= i < j < pins.len() implies (#[trigger] pins[i]).0 != (
        #[trigger] pins[j]).0 by {
            assert(i == 0 || i == 1 || i == 2 || i == 3);
            assert(j == 0 || j == 1 || j == 2 || j == 3);
        }
    }
    lemma_all_named(pins);
    lemma_all_named(texts);
    assert(primitive(cell).pins == by_name(pins));
    assert(primitive(cell).parameters == by_name(texts));
    assert(pins[0].0 == "B"@ && pins[1].0 == "I"@ && pins[2].0 == "O"@ && pins[3].0 == "T"@);
    assert(texts[0].0 == "DIR"@);
}

proof fn lemma_jtagg_names()
    ensures
        "JTDO1"@ != "JTDO2"@,
        "JTDO1"@ != "JTDI"@,
        "JTDO1"@ != "JTCK"@,
        "JTDO1"@ != "JRTI1"@,
        "JTDO1"@ != "JRTI2"@,
        "JTDO1"@ != "JSHIFT"@,
        "JTDO1"@ != "JUPDATE"@,
        "JTDO1"@ != "JRSTN"@,
        "JTDO1"@ != "JCE1"@,
        "JTDO1"@ != "JCE2"@,
        "JTDO2"@ != "JTDI"@,
        "JTDO2"@ != "JTCK"@,
        "JTDO2"@ != "JRTI1"@,
        "JTDO2"@ != "JRTI2"@,
        "JTDO2"@ != "JSHIFT"@,
        "JTDO2"@ != "JUPDATE"@,
        "JTDO2"@ != "JRSTN"@,
        "JTDO2"@ != "JCE1"@,
        "JTDO2"@ != "JCE2"@,
        "JTDI"@ != "JTCK"@,
        "JTDI"@ != "JRTI1"@,
        "JTDI"@ != "JRTI2"@,
        "JTDI"@ != "JSHIFT"@,
        "JTDI"@ != "JUPDATE"@,
        "JTDI"@ != "JRSTN"@,
        "JTDI"@ != "JCE1"@,
        "JTDI"@ != "JCE2"@,
        "JTCK"@ != "JRTI1"@,
        "JTCK"@ != "JRTI2"@,
        "JTCK"@ != "JSHIFT"@,
        "JTCK"@ != "JUPDATE"@,
        "JTCK"@ != "JRSTN"@,
        "JTCK"@ != "JCE1"@,
        "JTCK"@ != "JCE2"@,
        "JRTI1"@ != "JRTI2"@,
        "JRTI1"@ != "JSHIFT"@,
        "JRTI1"@ != "JUPDATE"@,
        "JRTI1"@ != "JRSTN"@,
        "JRTI1"@ != "JCE1"@,
        "JRTI1"@ != "JCE2"@,
        "JRTI2"@ != "JSHIFT"@,
        "JRTI2"@ != "JUPDATE"@,
        "JRTI2"@ != "JRSTN"@,
        "JRTI2"@ != "JCE1"@,
        "JRTI2"@ != "JCE2"@,
        "JSHIFT"@ != "JUPDATE"@,
        "JSHIFT"@ != "JRSTN"@,
        "JSHIFT"@ != "JCE1"@,
        "JSHIFT"@ != "JCE2"@,
        "JUPDATE"@ != "JRSTN"@,
        "JUPDATE"@ != "JCE1"@,
        "JUPDATE"@ != "JCE2"@,
        "JRSTN"@ != "JCE1"@,
        "JRSTN"@ != "JCE2"@,
        "JCE1"@ != "JCE2"@,
{
    reveal_strlit("JTDO1");
    reveal_strlit("JTDO2");
    reveal_strlit("JTDI");
    reveal_strlit("JTCK");
    reveal_strlit("JRTI1");
    reveal_strlit("JRTI2");
    reveal_strlit("JSHIFT");
    reveal_strlit("JUPDATE");
    reveal_strlit("JRSTN");
    reveal_strlit("JCE1");
    reveal_strlit("JCE2");
    assert("JTDO1"@.len() == 5);
    assert("JTDO2"@.len() == 5);
    assert("JTDI"@.len() == 4);
    assert("JTCK"@.len() == 4);
    assert("JRTI1"@.len() == 5);
    assert("JRTI2"@.len() == 5);
    assert("JSHIFT"@.len() == 6);
    assert("JUPDATE"@.len() == 7);
    assert("JRSTN"@.len() == 5);
    assert("JCE1"@.len() == 4);
    assert("JCE2"@.len() == 4);
    assert("JTDO1"@[1] == 'T');
    assert("JTDO1"@[4] == '1');
    assert("JTDO2"@[1] == 'T');
    assert("JTDO2"@[4] == '2');
    assert("JTDI"@[1] == 'T');
    assert("JTDI"@[2] == 'D');
    assert("JTCK"@[1] == 'T');
    assert("JTCK"@[2] == 'C');
    assert("JRTI1"@[1] == 'R');
    assert("JRTI1"@[2] == 'T');
    assert("JRTI1"@[4] == '1');
    assert("JRTI2"@[1] == 'R');
    assert("JRTI2"@[2] == 'T');
    assert("JRTI2"@[4] == '2');
    assert("JRSTN"@[1] == 'R');
    assert("JRSTN"@[2] == 'S');
    assert("JCE1"@[1] == 'C');
    assert("JCE1"@[3] == '1');
    assert("JCE2"@[1] == 'C');
    assert("JCE2"@[3] == '2');
}

proof fn lemma_jtagg_texts()
    ensures
        "ER1"@ != "ER2"@,
{
    reveal_strlit("ER1");
    reveal_strlit("ER2");
    assert("ER1"@.len() == 3);
    assert("ER2"@.len() == 3);
    assert("ER1"@[2] == '1');
    assert("ER2"@[2] == '2');
}

/// A written TAP has each signal on the pin of its name.
#[verifier::rlimit(40)]
pub proof fn law_written_jtagg_is_bound(cell: CellModel)
    requires
        cell is Jtagg,
    ensures
        primitive(cell).kind == "JTAGG"@,
        (setting(primitive(cell), "ER1"@) == "ENABLED"@) == cell->Jtagg_extension_register_1,
        (setting(primitive(cell), "ER2"@) == "ENABLED"@) == cell->Jtagg_extension_register_2,
        has_input(primitive(cell), "JTDO1"@, cell->Jtagg_tdo[0]),
        has_input(primitive(cell), "JTDO2"@, cell->Jtagg_tdo[1]),
        has_output(primitive(cell), "JTDI"@, cell->Jtagg_tdi),
        has_output(primitive(cell), "JTCK"@, cell->Jtagg_clock),
        has_output(primitive(cell), "JRTI1"@, cell->Jtagg_run_test_idle[0]),
        has_output(primitive(cell), "JRTI2"@, cell->Jtagg_run_test_idle[1]),
        has_output(primitive(cell), "JSHIFT"@, cell->Jtagg_shift),
        has_output(primitive(cell), "JUPDATE"@, cell->Jtagg_update),
        has_output(primitive(cell), "JRSTN"@, cell->Jtagg_reset_n),
        has_output(primitive(cell), "JCE1"@, cell->Jtagg_clock_enable[0]),
        has_output(primitive(cell), "JCE2"@, cell->Jtagg_clock_enable[1]),
{
    let pins = jtagg_pins(
        cell->Jtagg_tdo,
        cell->Jtagg_tdi,
        cell->Jtagg_clock,
        cell->Jtagg_run_test_idle,
        cell->Jtagg_shift,
        cell->Jtagg_update,
        cell->Jtagg_reset_n,
        cell->Jtagg_clock_enable,
    );
    let texts = seq![
        ("ER1"@, enabled_text(cell->Jtagg_extension_register_1)),
        ("ER2"@, enabled_text(cell->Jtagg_extension_register_2)),
    ];
    lemma_jtagg_names();
    lemma_jtagg_texts();
    assert("ENABLED"@ != "DISABLED"@) by {
        reveal_strlit("ENABLED");
        reveal_strlit("DISABLED");
        assert("ENABLED"@.len() == 7);
        assert("DISABLED"@.len() == 8);
    }
    assert(pins[0].0 == "JTDO1"@);
    assert(pins[1].0 == "JTDO2"@);
    assert(pins[2].0 == "JTDI"@);
    assert(pins[3].0 == "JTCK"@);
    assert(pins[4].0 == "JRTI1"@);
    assert(pins[5].0 == "JRTI2"@);
    assert(pins[6].0 == "JSHIFT"@);
    assert(pins[7].0 == "JUPDATE"@);
    assert(pins[8].0 == "JRSTN"@);
    assert(pins[9].0 == "JCE1"@);
    assert(pins[10].0 == "JCE2"@);
    assert(pins.len() == 11);
    assert(is_apart(pins)) by {
        assert forall|i: int, j: int| 0 <= i < j < pins.len() implies (#[trigger] pins[i]).0 != (
        #[trigger] pins[j]).0 by {
            assert(i == 0 || i == 1 || i == 2 || i == 3 || i == 4 || i == 5 || i == 6 || i == 7 || i == 8 || i == 9 || i == 10);
            assert(j == 0 || j == 1 || j == 2 || j == 3 || j == 4 || j == 5 || j == 6 || j == 7 || j == 8 || j == 9 || j == 10);
        }
    }
    assert(is_apart(texts)) by {
        assert forall|i: int, j: int| 0 <= i < j < texts.len() implies (#[trigger] texts[i]).0 != (
        #[trigger] texts[j]).0 by {
            assert(i == 0 || i == 1);
            assert(j == 0 || j == 1);
        }
    }
    lemma_all_named(pins);
    lemma_all_named(texts);
    assert(primitive(cell).pins == by_name(pins));
    assert(primitive(cell).parameters == by_name(texts));
    assert(texts[0].0 == "ER1"@ && texts[1].0 == "ER2"@);
}

} // verus!
