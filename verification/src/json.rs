//! The netlist as the place-and-route tool reads it.

use vstd::prelude::*;

use crate::bind::pll_pin;
use crate::cells::ActiveLevel;
use crate::cells::Bit;
use crate::cells::BlockRamPort;
use crate::cells::CellModel;
use crate::cells::ClockEdge;
use crate::cells::Control;
use crate::cells::Ecp5Cell;
use crate::cells::Ecp5MemoryImplementation;
use crate::cells::PllOutput;
use crate::cells::PortDirection;
use crate::cells::RamPortModel;
use crate::cells::Reset;
use crate::names::lemma_viewed;
use crate::names::text_entries;
use crate::names::viewed;
use crate::names::with_entry;
use crate::names::NameMap;
use crate::physical::digit_value;
use crate::text::characters;
use crate::text::decimal;
use crate::text::decimal_text;
use crate::text::join;

verus! {

/// A binary numeral of `width` digits.
pub open spec fn binary_text(value: nat, width: nat) -> Seq<char>
    decreases width,
{
    if width == 0 {
        seq![]
    } else {
        binary_text(value / 2, (width - 1) as nat).push(
            if value % 2 == 1 {
                '1'
            } else {
                '0'
            },
        )
    }
}

/// A binary numeral of `width` digits.
pub fn binary(value: u64, width: usize) -> (text: String)
    ensures
        text@ == binary_text(value as nat, width as nat),
    decreases width,
{
    proof {
        reveal_strlit("");
        reveal_strlit("0");
        reveal_strlit("1");
    }
    if width == 0 {
        let text = "".to_owned();
        assert(text@ =~= Seq::<char>::empty());
        return text;
    }
    let mut text = binary(value / 2, width - 1);
    text.append(
        if value % 2 == 1 {
            "1"
        } else {
            "0"
        },
    );
    assert(text@ =~= binary_text(value as nat, width as nat));
    text
}

/// A `u64` that decimal digits from `from` on continue.
pub open spec fn word_digits(text: Seq<char>, from: int, so_far: nat) -> Option<nat>
    decreases text.len() - from,
{
    if so_far > u64::MAX {
        None
    } else if from >= text.len() {
        Some(so_far)
    } else {
        match digit_value(text[from]) {
            Some(digit) => word_digits(text, from + 1, so_far * 10 + digit as nat),
            None => None,
        }
    }
}

/// The `u64` a text writes: an optional plus sign and at least one digit.
pub open spec fn word_value(text: Seq<char>) -> Option<nat> {
    let start: int = if text.len() > 0 && text[0] == '+' {
        1
    } else {
        0
    };
    if text.len() == start {
        None
    } else {
        word_digits(text, start, 0)
    }
}

fn read_word(text: &str) -> (value: Option<u64>)
    ensures
        match value {
            Some(value) => word_value(text@) == Some(value as nat),
            None => word_value(text@) is None,
        },
{
    let chars = characters(text);
    let start: usize = if chars.len() > 0 && chars[0] == '+' {
        1
    } else {
        0
    };
    if chars.len() == start {
        return None;
    }
    let mut value: u128 = 0;
    let mut i: usize = start;
    while i < chars.len()
        invariant
            chars@ == text@,
            start <= i <= chars@.len(),
            chars@.len() > start,
            start == if text@.len() > 0 && text@[0] == '+' {
                1int
            } else {
                0
            },
            value <= u64::MAX,
            word_value(text@) == word_digits(text@, i as int, value as nat),
        decreases chars@.len() - i,
    {
        let c = chars[i];
        if !('0' <= c && c <= '9') {
            return None;
        }
        let digit = (c as u32 - '0' as u32) as u128;
        let next: u128 = value * 10 + digit;
        if next > u64::MAX as u128 {
            assert(word_digits(text@, i + 1, next as nat) is None);
            return None;
        }
        value = next;
        i += 1;
    }
    Some(value as u64)
}

/// A parameter as the tool reads it: numbers as sixty-four binary digits, other texts as they are.
///
/// A parameter that holds only zeros and ones counts as a bit vector, so a
/// decimal number must not stay one.
pub open spec fn parameter_text(value: Seq<char>) -> Seq<char> {
    match word_value(value) {
        Some(number) => binary_text(number, 64),
        None => value,
    }
}

fn json_numeric_parameter(value: &String) -> (text: String)
    ensures
        text@ == parameter_text(value@),
{
    match read_word(value.as_str()) {
        Some(number) => binary(number, 64),
        None => value.clone(),
    }
}

/// One pin of a primitive or one port of the top.
#[derive(Clone, Debug, Eq, PartialEq)]
pub struct JsonPin {
    /// Direction as seen from the primitive or the top.
    pub direction: PortDirection,
    /// Connected bits, least-significant first.
    pub bits: Vec<Bit>,
}

/// What a [`JsonPin`] holds.
#[verifier::ext_equal]
pub struct PinModel {
    pub direction: PortDirection,
    pub bits: Seq<Bit>,
}

impl View for JsonPin {
    type V = PinModel;

    open spec fn view(&self) -> PinModel {
        PinModel { direction: self.direction, bits: self.bits@ }
    }
}

/// One primitive.
#[derive(Clone, Debug, Eq, PartialEq)]
pub struct JsonCell {
    /// Primitive type.
    pub kind: &'static str,
    /// Primitive parameters.
    pub parameters: NameMap<String>,
    /// Primitive attributes.
    pub attributes: NameMap<String>,
    /// Directions and connections by pin name.
    pub pins: NameMap<JsonPin>,
}

/// What a [`JsonCell`] holds.
#[verifier::ext_equal]
pub struct JsonCellModel {
    pub kind: Seq<char>,
    pub parameters: Seq<(Seq<char>, Seq<char>)>,
    pub attributes: Seq<(Seq<char>, Seq<char>)>,
    pub pins: Seq<(Seq<char>, PinModel)>,
}

impl View for JsonCell {
    type V = JsonCellModel;

    open spec fn view(&self) -> JsonCellModel {
        JsonCellModel {
            kind: self.kind@,
            parameters: text_entries(self.parameters),
            attributes: text_entries(self.attributes),
            pins: viewed(self.pins@),
        }
    }
}

/// Entries by name; a later entry of the same name replaces an earlier one.
pub open spec fn by_name<V>(entries: Seq<(Seq<char>, V)>) -> Seq<(Seq<char>, V)>
    decreases entries.len(),
{
    if entries.len() == 0 {
        seq![]
    } else {
        with_entry(by_name(entries.drop_last()), entries.last().0, entries.last().1)
    }
}

/// An input pin on one bit.
pub open spec fn reads(name: Seq<char>, bit: Bit) -> (Seq<char>, PinModel) {
    (name, PinModel { direction: PortDirection::Input, bits: seq![bit] })
}

/// An output pin on one wire.
pub open spec fn drives(name: Seq<char>, wire: u32) -> (Seq<char>, PinModel) {
    (name, PinModel { direction: PortDirection::Output, bits: seq![Bit::Wire(wire)] })
}

/// Numbered input pins on the bits of a bus.
pub open spec fn reads_bus(name: Seq<char>, bits: Seq<Bit>) -> Seq<(Seq<char>, PinModel)> {
    Seq::new(bits.len(), |i: int| reads(name + decimal_text(i as nat), bits[i]))
}

/// Numbered output pins on the wires of a bus.
pub open spec fn drives_bus(name: Seq<char>, wires: Seq<u32>) -> Seq<(Seq<char>, PinModel)> {
    Seq::new(wires.len(), |i: int| drives(name + decimal_text(i as nat), wires[i]))
}

/// The pins collected so far, in the order they were added.
struct Pins {
    list: Vec<(String, JsonPin)>,
}

impl View for Pins {
    type V = Seq<(Seq<char>, PinModel)>;

    closed spec fn view(&self) -> Seq<(Seq<char>, PinModel)> {
        Seq::new(self.list@.len(), |i: int| (self.list@[i].0@, self.list@[i].1@))
    }
}

impl Pins {
    fn new() -> (pins: Self)
        ensures
            pins@ == Seq::<(Seq<char>, PinModel)>::empty(),
    {
        let pins = Pins { list: Vec::new() };
        assert(pins@ =~= Seq::<(Seq<char>, PinModel)>::empty());
        pins
    }

    fn push(&mut self, name: String, direction: PortDirection, bits: Vec<Bit>)
        ensures
            final(self)@ == old(self)@.push((name@, (PinModel { direction, bits: bits@ }))),
    {
        let ghost before = self@;
        let ghost added = (name@, PinModel { direction, bits: bits@ });
        self.list.push((name, JsonPin { direction, bits }));
        assert(self@ =~= before.push(added));
    }

    fn read(&mut self, name: &str, bit: Bit)
        ensures
            final(self)@ == old(self)@.push(reads(name@, bit)),
    {
        let mut bits: Vec<Bit> = Vec::new();
        bits.push(bit);
        assert(bits@ =~= seq![bit]);
        self.push(name.to_owned(), PortDirection::Input, bits);
    }

    fn drive(&mut self, name: &str, wire: u32)
        ensures
            final(self)@ == old(self)@.push(drives(name@, wire)),
    {
        let mut bits: Vec<Bit> = Vec::new();
        bits.push(Bit::Wire(wire));
        assert(bits@ =~= seq![Bit::Wire(wire)]);
        self.push(name.to_owned(), PortDirection::Output, bits);
    }

    fn read_bus(&mut self, name: &str, bits: &Vec<Bit>)
        ensures
            final(self)@ == old(self)@ + reads_bus(name@, bits@),
    {
        let ghost before = self@;
        let ghost all = reads_bus(name@, bits@);
        assert(before + all.take(0) =~= before);
        for i in 0..bits.len()
            invariant
                all == reads_bus(name@, bits@),
                self@ == before + all.take(i as int),
        {
            self.read(join(name, decimal(i as u128).as_str()).as_str(), bits[i]);
            assert(self@ =~= before + all.take(i + 1));
        }
        assert(all.take(bits@.len() as int) =~= all);
    }

    fn drive_bus(&mut self, name: &str, wires: &Vec<u32>)
        ensures
            final(self)@ == old(self)@ + drives_bus(name@, wires@),
    {
        let ghost before = self@;
        let ghost all = drives_bus(name@, wires@);
        assert(before + all.take(0) =~= before);
        for i in 0..wires.len()
            invariant
                all == drives_bus(name@, wires@),
                self@ == before + all.take(i as int),
        {
            self.drive(join(name, decimal(i as u128).as_str()).as_str(), wires[i]);
            assert(self@ =~= before + all.take(i + 1));
        }
        assert(all.take(wires@.len() as int) =~= all);
    }

    fn collect(self) -> (map: NameMap<JsonPin>)
        ensures
            viewed(map@) == by_name(self@),
    {
        let ghost all = self@;
        let mut map: NameMap<JsonPin> = NameMap::new();
        assert(viewed(map@) =~= Seq::<(Seq<char>, PinModel)>::empty());
        let count: usize = self.list.len();
        for i in 0..count
            invariant
                count == self.list@.len(),
                all == self@,
                viewed(map@) == by_name(all.take(i as int)),
        {
            assert(all.take(i + 1).drop_last() =~= all.take(i as int));
            let name = self.list[i].0.clone();
            let pin = JsonPin {
                direction: self.list[i].1.direction,
                bits: crate::cells::copied(&self.list[i].1.bits),
            };
            assert(all[i as int].0 == name@);
            assert(all[i as int].1 =~= pin@);
            proof {
                lemma_viewed(map@, name@, pin);
            }
            map.insert(name, pin);
        }
        assert(all.take(count as int) =~= all);
        map
    }
}

/// Texts by name.
struct Texts {
    map: NameMap<String>,
    list: Ghost<Seq<(Seq<char>, Seq<char>)>>,
}

impl Texts {
    spec fn is_sound(self) -> bool {
        text_entries(self.map) == by_name(self.list@)
    }

    fn new() -> (texts: Self)
        ensures
            texts.is_sound(),
            texts.list@ == Seq::<(Seq<char>, Seq<char>)>::empty(),
    {
        let map: NameMap<String> = NameMap::new();
        assert(map@.len() == 0);
        assert(text_entries(map) =~= Seq::<(Seq<char>, Seq<char>)>::empty());
        Texts { map, list: Ghost(Seq::empty()) }
    }

    fn set(&mut self, name: &str, value: &str)
        requires
            old(self).is_sound(),
        ensures
            final(self).is_sound(),
            final(self).list@ == old(self).list@.push((name@, value@)),
    {
        let ghost next = self.list@.push((name@, value@));
        assert(next.drop_last() =~= self.list@);
        self.map.insert_text(name.to_owned(), value.to_owned());
        self.list = Ghost(next);
    }
}

/// The primitive of a lookup table.
pub open spec fn lut_cell(inputs: [Bit; 4], output: u32, init: u16) -> JsonCellModel {
    JsonCellModel {
        kind: "LUT4"@,
        parameters: by_name(seq![("INIT"@, binary_text(init as nat, 16))]),
        attributes: seq![],
        pins: by_name(
            seq![
                reads("A"@, inputs[0]),
                reads("B"@, inputs[1]),
                reads("C"@, inputs[2]),
                reads("D"@, inputs[3]),
                drives("Z"@, output),
            ],
        ),
    }
}

fn no_texts() -> (map: NameMap<String>)
    ensures
        text_entries(map) == Seq::<(Seq<char>, Seq<char>)>::empty(),
{
    let map: NameMap<String> = NameMap::new();
    assert(map@.len() == 0);
    assert(text_entries(map) =~= Seq::<(Seq<char>, Seq<char>)>::empty());
    map
}

fn json_lut(inputs: [Bit; 4], output: u32, init: u16) -> (cell: JsonCell)
    ensures
        cell@ == lut_cell(inputs, output, init),
{
    let mut parameters = Texts::new();
    parameters.set("INIT", binary(init as u64, 16).as_str());
    assert(parameters.list@ =~= seq![("INIT"@, binary_text(init as nat, 16))]);
    let mut pins = Pins::new();
    pins.read("A", inputs[0]);
    pins.read("B", inputs[1]);
    pins.read("C", inputs[2]);
    pins.read("D", inputs[3]);
    pins.drive("Z", output);
    assert(pins@ =~= seq![
        reads("A"@, inputs[0]),
        reads("B"@, inputs[1]),
        reads("C"@, inputs[2]),
        reads("D"@, inputs[3]),
        drives("Z"@, output),
    ]);
    JsonCell {
        kind: "LUT4",
        parameters: parameters.map,
        attributes: no_texts(),
        pins: pins.collect(),
    }
}

/// The primitive that joins two lookup tables.
pub open spec fn pfu_mux_cell(
    lut_true: Bit,
    lut_false: Bit,
    select: Bit,
    output: u32,
) -> JsonCellModel {
    JsonCellModel {
        kind: "PFUMX"@,
        parameters: seq![],
        attributes: seq![],
        pins: by_name(
            seq![
                reads("ALUT"@, lut_true),
                reads("BLUT"@, lut_false),
                reads("C0"@, select),
                drives("Z"@, output),
            ],
        ),
    }
}

fn json_pfu_mux(lut_true: Bit, lut_false: Bit, select: Bit, output: u32) -> (cell: JsonCell)
    ensures
        cell@ == pfu_mux_cell(lut_true, lut_false, select, output),
{
    let mut pins = Pins::new();
    pins.read("ALUT", lut_true);
    pins.read("BLUT", lut_false);
    pins.read("C0", select);
    pins.drive("Z", output);
    assert(pins@ =~= seq![
        reads("ALUT"@, lut_true),
        reads("BLUT"@, lut_false),
        reads("C0"@, select),
        drives("Z"@, output),
    ]);
    JsonCell { kind: "PFUMX", parameters: no_texts(), attributes: no_texts(), pins: pins.collect() }
}

/// The primitive that joins two wider functions.
pub open spec fn l6_mux_cell(
    data_zero: Bit,
    data_one: Bit,
    select: Bit,
    output: u32,
) -> JsonCellModel {
    JsonCellModel {
        kind: "L6MUX21"@,
        parameters: seq![],
        attributes: seq![],
        pins: by_name(
            seq![
                reads("D0"@, data_zero),
                reads("D1"@, data_one),
                reads("SD"@, select),
                drives("Z"@, output),
            ],
        ),
    }
}

fn json_l6_mux(data_zero: Bit, data_one: Bit, select: Bit, output: u32) -> (cell: JsonCell)
    ensures
        cell@ == l6_mux_cell(data_zero, data_one, select, output),
{
    let mut pins = Pins::new();
    pins.read("D0", data_zero);
    pins.read("D1", data_one);
    pins.read("SD", select);
    pins.drive("Z", output);
    assert(pins@ =~= seq![
        reads("D0"@, data_zero),
        reads("D1"@, data_one),
        reads("SD"@, select),
        drives("Z"@, output),
    ]);
    JsonCell {
        kind: "L6MUX21",
        parameters: no_texts(),
        attributes: no_texts(),
        pins: pins.collect(),
    }
}

/// `YES` or `NO`.
pub open spec fn yes_text(value: bool) -> Seq<char> {
    if value {
        "YES"@
    } else {
        "NO"@
    }
}

fn yes_or_no(value: bool) -> (text: &'static str)
    ensures
        text@ == yes_text(value),
{
    if value {
        "YES"
    } else {
        "NO"
    }
}

/// The carry primitive.
pub open spec fn ccu2c_cell(
    inputs: [[Bit; 4]; 2],
    carry_in: Bit,
    sums: [u32; 2],
    carry_out: u32,
    init: [u16; 2],
    inject: [bool; 2],
) -> JsonCellModel {
    JsonCellModel {
        kind: "CCU2C"@,
        parameters: by_name(
            seq![
                ("INIT0"@, binary_text(init[0] as nat, 16)),
                ("INIT1"@, binary_text(init[1] as nat, 16)),
                ("INJECT1_0"@, yes_text(inject[0])),
                ("INJECT1_1"@, yes_text(inject[1])),
            ],
        ),
        attributes: seq![],
        pins: by_name(
            seq![
                reads("CIN"@, carry_in),
                reads("A0"@, inputs[0][0]),
                reads("B0"@, inputs[0][1]),
                reads("C0"@, inputs[0][2]),
                reads("D0"@, inputs[0][3]),
                drives("S0"@, sums[0]),
                reads("A1"@, inputs[1][0]),
                reads("B1"@, inputs[1][1]),
                reads("C1"@, inputs[1][2]),
                reads("D1"@, inputs[1][3]),
                drives("S1"@, sums[1]),
                drives("COUT"@, carry_out),
            ],
        ),
    }
}

fn json_ccu2c(
    inputs: [[Bit; 4]; 2],
    carry_in: Bit,
    sums: [u32; 2],
    carry_out: u32,
    init: [u16; 2],
    inject: [bool; 2],
) -> (cell: JsonCell)
    ensures
        cell@ == ccu2c_cell(inputs, carry_in, sums, carry_out, init, inject),
{
    let mut parameters = Texts::new();
    parameters.set("INIT0", binary(init[0] as u64, 16).as_str());
    parameters.set("INIT1", binary(init[1] as u64, 16).as_str());
    parameters.set("INJECT1_0", yes_or_no(inject[0]));
    parameters.set("INJECT1_1", yes_or_no(inject[1]));
    assert(parameters.list@ =~= seq![
        ("INIT0"@, binary_text(init[0] as nat, 16)),
        ("INIT1"@, binary_text(init[1] as nat, 16)),
        ("INJECT1_0"@, yes_text(inject[0])),
        ("INJECT1_1"@, yes_text(inject[1])),
    ]);
    let low = inputs[0];
    let high = inputs[1];
    let mut pins = Pins::new();
    pins.read("CIN", carry_in);
    pins.read("A0", low[0]);
    pins.read("B0", low[1]);
    pins.read("C0", low[2]);
    pins.read("D0", low[3]);
    pins.drive("S0", sums[0]);
    pins.read("A1", high[0]);
    pins.read("B1", high[1]);
    pins.read("C1", high[2]);
    pins.read("D1", high[3]);
    pins.drive("S1", sums[1]);
    pins.drive("COUT", carry_out);
    assert(pins@ =~= seq![
        reads("CIN"@, carry_in),
        reads("A0"@, inputs[0][0]),
        reads("B0"@, inputs[0][1]),
        reads("C0"@, inputs[0][2]),
        reads("D0"@, inputs[0][3]),
        drives("S0"@, sums[0]),
        reads("A1"@, inputs[1][0]),
        reads("B1"@, inputs[1][1]),
        reads("C1"@, inputs[1][2]),
        reads("D1"@, inputs[1][3]),
        drives("S1"@, sums[1]),
        drives("COUT"@, carry_out),
    ]);
    JsonCell {
        kind: "CCU2C",
        parameters: parameters.map,
        attributes: no_texts(),
        pins: pins.collect(),
    }
}

/// The setting of a control input: constant one without a control, else the pin or its inverse.
pub open spec fn control_setting(
    control: Option<Control>,
    absent: Seq<char>,
    pin: Seq<char>,
) -> Seq<char> {
    match control {
        None => absent,
        Some(control) => active_setting(control.active, pin),
    }
}

/// The pin, or `INV` where a control is asserted low.
pub open spec fn active_setting(active: ActiveLevel, pin: Seq<char>) -> Seq<char> {
    if active is High {
        pin
    } else {
        "INV"@
    }
}

/// The clock pin, or `INV` where the falling edge is active.
pub open spec fn edge_setting(edge: ClockEdge, pin: Seq<char>) -> Seq<char> {
    if edge is Rising {
        pin
    } else {
        "INV"@
    }
}

fn set_active(active: ActiveLevel, pin: &'static str) -> (text: &'static str)
    ensures
        text@ == active_setting(active, pin@),
{
    match active {
        ActiveLevel::High => pin,
        ActiveLevel::Low => "INV",
    }
}

fn set_control(control: Option<Control>, absent: &'static str, pin: &'static str) -> (text:
    &'static str)
    ensures
        text@ == control_setting(control, absent@, pin@),
{
    match control {
        None => absent,
        Some(control) => set_active(control.active, pin),
    }
}

fn set_edge(edge: ClockEdge, pin: &'static str) -> (text: &'static str)
    ensures
        text@ == edge_setting(edge, pin@),
{
    match edge {
        ClockEdge::Rising => pin,
        ClockEdge::Falling => "INV",
    }
}

/// The setting of the reset input.
pub open spec fn reset_setting(reset: Option<Reset>) -> Seq<char> {
    match reset {
        Some(reset) => active_setting(reset.active, "LSR"@),
        None => "LSR"@,
    }
}

/// The state that configuration and reset load.
pub open spec fn loaded_setting(reset: Option<Reset>) -> Seq<char> {
    match reset {
        Some(reset) => if reset.value {
            "SET"@
        } else {
            "RESET"@
        },
        None => "RESET"@,
    }
}

/// How reset acts.
pub open spec fn reset_mode(reset: Option<Reset>) -> Seq<char> {
    match reset {
        Some(reset) => if reset.asynchronous {
            "ASYNC"@
        } else {
            "LSR_OVER_CE"@
        },
        None => "LSR_OVER_CE"@,
    }
}

/// The signal of a control, or a constant without one.
pub open spec fn control_bit(control: Option<Control>, absent: Bit) -> Bit {
    match control {
        Some(control) => control.signal,
        None => absent,
    }
}

fn signal_of(control: Option<Control>, absent: Bit) -> (bit: Bit)
    ensures
        bit == control_bit(control, absent),
{
    match control {
        Some(control) => control.signal,
        None => absent,
    }
}

/// The signal of a reset, or zero without one.
pub open spec fn reset_bit(reset: Option<Reset>) -> Bit {
    match reset {
        Some(reset) => reset.signal,
        None => Bit::Zero,
    }
}

/// The slice flip-flop.
pub open spec fn flip_flop_cell(
    data: Bit,
    output: u32,
    clock: Bit,
    edge: ClockEdge,
    enable: Option<Control>,
    reset: Option<Reset>,
) -> JsonCellModel {
    JsonCellModel {
        kind: "TRELLIS_FF"@,
        parameters: by_name(
            seq![
                ("CEMUX"@, control_setting(enable, "1 "@, "CE"@)),
                ("CLKMUX"@, edge_setting(edge, "CLK"@)),
                ("GSR"@, "DISABLED"@),
                ("LSRMUX"@, reset_setting(reset)),
                ("REGSET"@, loaded_setting(reset)),
                ("SRMODE"@, reset_mode(reset)),
            ],
        ),
        attributes: seq![],
        pins: by_name(
            seq![
                reads("CLK"@, clock),
                reads("LSR"@, reset_bit(reset)),
                reads("CE"@, control_bit(enable, Bit::One)),
                reads("DI"@, data),
                drives("Q"@, output),
            ],
        ),
    }
}

fn json_flip_flop(
    data: Bit,
    output: u32,
    clock: Bit,
    edge: ClockEdge,
    enable: Option<Control>,
    reset: Option<Reset>,
) -> (cell: JsonCell)
    ensures
        cell@ == flip_flop_cell(data, output, clock, edge, enable, reset),
{
    let (reset_mux, loaded, mode, reset_signal) = match reset {
        Some(reset) => (
            set_active(reset.active, "LSR"),
            if reset.value {
                "SET"
            } else {
                "RESET"
            },
            if reset.asynchronous {
                "ASYNC"
            } else {
                "LSR_OVER_CE"
            },
            reset.signal,
        ),
        None => ("LSR", "RESET", "LSR_OVER_CE", Bit::Zero),
    };
    let mut parameters = Texts::new();
    parameters.set("CEMUX", set_control(enable, "1 ", "CE"));
    parameters.set("CLKMUX", set_edge(edge, "CLK"));
    parameters.set("GSR", "DISABLED");
    parameters.set("LSRMUX", reset_mux);
    parameters.set("REGSET", loaded);
    parameters.set("SRMODE", mode);
    assert(parameters.list@ =~= seq![
        ("CEMUX"@, control_setting(enable, "1 "@, "CE"@)),
        ("CLKMUX"@, edge_setting(edge, "CLK"@)),
        ("GSR"@, "DISABLED"@),
        ("LSRMUX"@, reset_setting(reset)),
        ("REGSET"@, loaded_setting(reset)),
        ("SRMODE"@, reset_mode(reset)),
    ]);
    let mut pins = Pins::new();
    pins.read("CLK", clock);
    pins.read("LSR", reset_signal);
    pins.read("CE", signal_of(enable, Bit::One));
    pins.read("DI", data);
    pins.drive("Q", output);
    assert(pins@ =~= seq![
        reads("CLK"@, clock),
        reads("LSR"@, reset_bit(reset)),
        reads("CE"@, control_bit(enable, Bit::One)),
        reads("DI"@, data),
        drives("Q"@, output),
    ]);
    JsonCell {
        kind: "TRELLIS_FF",
        parameters: parameters.map,
        attributes: no_texts(),
        pins: pins.collect(),
    }
}

/// The bidirectional pad buffer.
pub open spec fn pad_cell(
    pad: u32,
    fabric_output: Bit,
    fabric_input: u32,
    tristate: Bit,
) -> JsonCellModel {
    JsonCellModel {
        kind: "TRELLIS_IO"@,
        parameters: by_name(seq![("DIR"@, "BIDIR"@)]),
        attributes: by_name(seq![("PULLMODE"@, "NONE"@)]),
        pins: by_name(
            seq![
                ("B"@, PinModel { direction: PortDirection::Inout, bits: seq![Bit::Wire(pad)] }),
                reads("I"@, fabric_output),
                drives("O"@, fabric_input),
                reads("T"@, tristate),
            ],
        ),
    }
}

fn json_trellis_io(pad: u32, fabric_output: Bit, fabric_input: u32, tristate: Bit) -> (cell:
    JsonCell)
    ensures
        cell@ == pad_cell(pad, fabric_output, fabric_input, tristate),
{
    let mut parameters = Texts::new();
    parameters.set("DIR", "BIDIR");
    assert(parameters.list@ =~= seq![("DIR"@, "BIDIR"@)]);
    let mut attributes = Texts::new();
    attributes.set("PULLMODE", "NONE");
    assert(attributes.list@ =~= seq![("PULLMODE"@, "NONE"@)]);
    let mut pins = Pins::new();
    let mut bits: Vec<Bit> = Vec::new();
    bits.push(Bit::Wire(pad));
    assert(bits@ =~= seq![Bit::Wire(pad)]);
    pins.push("B".to_owned(), PortDirection::Inout, bits);
    pins.read("I", fabric_output);
    pins.drive("O", fabric_input);
    pins.read("T", tristate);
    assert(pins@ =~= seq![
        ("B"@, PinModel { direction: PortDirection::Inout, bits: seq![Bit::Wire(pad)] }),
        reads("I"@, fabric_output),
        drives("O"@, fabric_input),
        reads("T"@, tristate),
    ]);
    JsonCell {
        kind: "TRELLIS_IO",
        parameters: parameters.map,
        attributes: attributes.map,
        pins: pins.collect(),
    }
}

/// `ENABLED` or `DISABLED`.
pub open spec fn enabled_text(value: bool) -> Seq<char> {
    if value {
        "ENABLED"@
    } else {
        "DISABLED"@
    }
}

fn enabled_or_not(value: bool) -> (text: &'static str)
    ensures
        text@ == enabled_text(value),
{
    if value {
        "ENABLED"
    } else {
        "DISABLED"
    }
}

/// The pins of the JTAG block.
pub open spec fn jtagg_pins(
    tdo: [Bit; 2],
    tdi: u32,
    clock: u32,
    run_test_idle: [u32; 2],
    shift: u32,
    update: u32,
    reset_n: u32,
    clock_enable: [u32; 2],
) -> Seq<(Seq<char>, PinModel)> {
    seq![
        reads("JTDO1"@, tdo[0]),
        reads("JTDO2"@, tdo[1]),
        drives("JTDI"@, tdi),
        drives("JTCK"@, clock),
        drives("JRTI1"@, run_test_idle[0]),
        drives("JRTI2"@, run_test_idle[1]),
        drives("JSHIFT"@, shift),
        drives("JUPDATE"@, update),
        drives("JRSTN"@, reset_n),
        drives("JCE1"@, clock_enable[0]),
        drives("JCE2"@, clock_enable[1]),
    ]
}

fn json_jtagg_pins(
    tdo: [Bit; 2],
    tdi: u32,
    clock: u32,
    run_test_idle: [u32; 2],
    shift: u32,
    update: u32,
    reset_n: u32,
    clock_enable: [u32; 2],
) -> (pins: Pins)
    ensures
        pins@ == jtagg_pins(
            tdo,
            tdi,
            clock,
            run_test_idle,
            shift,
            update,
            reset_n,
            clock_enable,
        ),
{
    let mut pins = Pins::new();
    pins.read("JTDO1", tdo[0]);
    pins.read("JTDO2", tdo[1]);
    pins.drive("JTDI", tdi);
    pins.drive("JTCK", clock);
    pins.drive("JRTI1", run_test_idle[0]);
    pins.drive("JRTI2", run_test_idle[1]);
    pins.drive("JSHIFT", shift);
    pins.drive("JUPDATE", update);
    pins.drive("JRSTN", reset_n);
    pins.drive("JCE1", clock_enable[0]);
    pins.drive("JCE2", clock_enable[1]);
    assert(pins@ =~= jtagg_pins(
        tdo,
        tdi,
        clock,
        run_test_idle,
        shift,
        update,
        reset_n,
        clock_enable,
    ));
    pins
}

/// The pins of a PLL that do not depend on its outputs.
pub open spec fn pll_fixed_pins(reference_clock: Bit, feedback_clock: u32, locked: u32) -> Seq<
    (Seq<char>, PinModel),
> {
    seq![
        reads("RST"@, Bit::Zero),
        reads("STDBY"@, Bit::Zero),
        reads("CLKI"@, reference_clock),
        reads("CLKFB"@, Bit::Wire(feedback_clock)),
        reads("PHASESEL0"@, Bit::Zero),
        reads("PHASESEL1"@, Bit::Zero),
        reads("PHASEDIR"@, Bit::One),
        reads("PHASESTEP"@, Bit::One),
        reads("PHASELOADREG"@, Bit::One),
        reads("PLLWAKESYNC"@, Bit::Zero),
        reads("ENCLKOP"@, Bit::Zero),
        drives("LOCK"@, locked),
    ]
}

/// The pins of further PLL outputs.
pub open spec fn pll_output_pins(outputs: Seq<(PllOutput, u32)>) -> Seq<(Seq<char>, PinModel)> {
    Seq::new(outputs.len(), |i: int| drives(pll_pin(outputs[i].0), outputs[i].1))
}

/// The pins of a PLL.
pub open spec fn pll_pins(
    reference_clock: Bit,
    feedback_clock: u32,
    output_clock: u32,
    additional: Seq<(PllOutput, u32)>,
    locked: u32,
    fabric_output: PllOutput,
    feedback_output: PllOutput,
) -> Seq<(Seq<char>, PinModel)> {
    pll_fixed_pins(reference_clock, feedback_clock, locked) + seq![
        drives(pll_pin(feedback_output), feedback_clock),
        drives(pll_pin(fabric_output), output_clock),
    ] + pll_output_pins(additional)
}

/// The parameters of a PLL as the tool reads them.
pub open spec fn pll_parameters(parameters: Seq<(Seq<char>, Seq<char>)>) -> Seq<
    (Seq<char>, Seq<char>),
> {
    by_name(
        Seq::new(
            parameters.len(),
            |i: int| (parameters[i].0, parameter_text(parameters[i].1)),
        ),
    )
}

fn json_pll_pins(
    reference_clock: Bit,
    feedback_clock: u32,
    output_clock: u32,
    additional: &Vec<(PllOutput, u32)>,
    locked: u32,
    fabric_output: PllOutput,
    feedback_output: PllOutput,
) -> (pins: Pins)
    ensures
        pins@ == pll_pins(
            reference_clock,
            feedback_clock,
            output_clock,
            additional@,
            locked,
            fabric_output,
            feedback_output,
        ),
{
    let mut pins = Pins::new();
    pins.read("RST", Bit::Zero);
    pins.read("STDBY", Bit::Zero);
    pins.read("CLKI", reference_clock);
    pins.read("CLKFB", Bit::Wire(feedback_clock));
    pins.read("PHASESEL0", Bit::Zero);
    pins.read("PHASESEL1", Bit::Zero);
    pins.read("PHASEDIR", Bit::One);
    pins.read("PHASESTEP", Bit::One);
    pins.read("PHASELOADREG", Bit::One);
    pins.read("PLLWAKESYNC", Bit::Zero);
    pins.read("ENCLKOP", Bit::Zero);
    pins.drive("LOCK", locked);
    assert(pins@ =~= pll_fixed_pins(reference_clock, feedback_clock, locked));
    let ghost fixed = pins@;
    pins.drive(feedback_output.port(), feedback_clock);
    pins.drive(fabric_output.port(), output_clock);
    let ghost base = fixed + seq![
        drives(pll_pin(feedback_output), feedback_clock),
        drives(pll_pin(fabric_output), output_clock),
    ];
    assert(pins@ =~= base);
    let ghost all = pll_output_pins(additional@);
    assert(base + all.take(0) =~= base);
    for i in 0..additional.len()
        invariant
            all == pll_output_pins(additional@),
            pins@ == base + all.take(i as int),
    {
        pins.drive(additional[i].0.port(), additional[i].1);
        assert(pins@ =~= base + all.take(i + 1));
    }
    assert(all.take(additional@.len() as int) =~= all);
    pins
}

fn json_pll_parameters(parameters: &NameMap<String>) -> (map: NameMap<String>)
    ensures
        text_entries(map) == pll_parameters(text_entries(*parameters)),
{
    let ghost entries = text_entries(*parameters);
    let ghost all = Seq::new(
        entries.len(),
        |i: int| (entries[i].0, parameter_text(entries[i].1)),
    );
    let mut texts = Texts::new();
    assert(texts.list@ =~= all.take(0));
    for i in 0..parameters.entries.len()
        invariant
            entries == text_entries(*parameters),
            all == Seq::new(
                entries.len(),
                |i: int| (entries[i].0, parameter_text(entries[i].1)),
            ),
            texts.is_sound(),
            texts.list@ == all.take(i as int),
    {
        let value = json_numeric_parameter(&parameters.entries[i].1);
        texts.set(parameters.entries[i].0.as_str(), value.as_str());
        assert(texts.list@ =~= all.take(i + 1));
    }
    assert(all.take(entries.len() as int) =~= all);
    texts.map
}

/// The settings of a block RAM.
pub open spec fn block_ram_settings(
    width: u8,
    write_enable: Control,
    read_enable: Option<Control>,
    clock_enable: Option<Control>,
    edge: ClockEdge,
    second: Option<RamPortModel>,
) -> Seq<(Seq<char>, Seq<char>)> {
    let base = seq![
        ("DATA_WIDTH_A"@, decimal_text(width as nat)),
        ("DATA_WIDTH_B"@, decimal_text(width as nat)),
        ("REGMODE_A"@, "NOREG"@),
        ("REGMODE_B"@, "NOREG"@),
        ("RESETMODE"@, "SYNC"@),
        ("ASYNC_RESET_RELEASE"@, "SYNC"@),
        ("CSDECODE_A"@, "0b000"@),
        ("CSDECODE_B"@, "0b000"@),
        ("WRITEMODE_A"@, "NORMAL"@),
        ("WRITEMODE_B"@, "NORMAL"@),
        ("GSR"@, "DISABLED"@),
        ("CLKAMUX"@, edge_setting(edge, "CLKA"@)),
        (
            "CLKBMUX"@,
            edge_setting(
                match second {
                    Some(port) => port.edge,
                    None => edge,
                },
                "CLKB"@,
            ),
        ),
        ("WEAMUX"@, active_setting(write_enable.active, "WEA"@)),
        ("CEAMUX"@, control_setting(clock_enable, "1"@, "CEA"@)),
    ];
    match second {
        Some(port) => base.push(
            ("CEBMUX"@, control_setting(port.clock_enable, "1"@, "CEB"@)),
        ).push(("WEBMUX"@, active_setting(port.write_enable.active, "WEB"@))),
        None => base.push(("CEBMUX"@, control_setting(read_enable, "1"@, "CEB"@))),
    }
}

fn block_ram_parameters(
    width: u8,
    write_enable: Control,
    read_enable: Option<Control>,
    clock_enable: Option<Control>,
    edge: ClockEdge,
    second: &Option<BlockRamPort>,
) -> (map: NameMap<String>)
    ensures
        text_entries(map) == by_name(
            block_ram_settings(
                width,
                write_enable,
                read_enable,
                clock_enable,
                edge,
                crate::cells::ram_port_model(*second),
            ),
        ),
{
    let second_edge = match second {
        Some(port) => port.edge,
        None => edge,
    };
    let mut texts = Texts::new();
    let width_text = decimal(width as u128);
    texts.set("DATA_WIDTH_A", width_text.as_str());
    texts.set("DATA_WIDTH_B", width_text.as_str());
    texts.set("REGMODE_A", "NOREG");
    texts.set("REGMODE_B", "NOREG");
    texts.set("RESETMODE", "SYNC");
    texts.set("ASYNC_RESET_RELEASE", "SYNC");
    texts.set("CSDECODE_A", "0b000");
    texts.set("CSDECODE_B", "0b000");
    texts.set("WRITEMODE_A", "NORMAL");
    texts.set("WRITEMODE_B", "NORMAL");
    texts.set("GSR", "DISABLED");
    texts.set("CLKAMUX", set_edge(edge, "CLKA"));
    texts.set("CLKBMUX", set_edge(second_edge, "CLKB"));
    texts.set("WEAMUX", set_active(write_enable.active, "WEA"));
    texts.set("CEAMUX", set_control(clock_enable, "1", "CEA"));
    match second {
        Some(port) => {
            texts.set("CEBMUX", set_control(port.clock_enable, "1", "CEB"));
            texts.set("WEBMUX", set_active(port.write_enable.active, "WEB"));
        },
        None => {
            texts.set("CEBMUX", set_control(read_enable, "1", "CEB"));
        },
    }
    assert(texts.list@ =~= block_ram_settings(
        width,
        write_enable,
        read_enable,
        clock_enable,
        edge,
        crate::cells::ram_port_model(*second),
    ));
    texts.map
}

/// Eighteen data bits; bits past the word are zero.
pub open spec fn data_pins(data: Seq<Bit>) -> Seq<Bit> {
    Seq::new(
        18,
        |i: int|
            if i < data.len() {
                data[i]
            } else {
                Bit::Zero
            },
    )
}

/// The input pins of a block-RAM port whose names end in a letter.
pub open spec fn ram_port_pins(
    address_name: Seq<char>,
    data_name: Seq<char>,
    select_name: Seq<char>,
    controls: Seq<(Seq<char>, PinModel)>,
    address: [Bit; 14],
    data: Seq<Bit>,
) -> Seq<(Seq<char>, PinModel)> {
    reads_bus(address_name, address@) + reads_bus(data_name, data_pins(data)) + controls
        + reads_bus(select_name, seq![Bit::Zero, Bit::Zero, Bit::Zero])
}

fn pad_data(data: &Vec<Bit>) -> (bits: Vec<Bit>)
    ensures
        bits@ == data_pins(data@),
{
    let mut bits: Vec<Bit> = Vec::new();
    for i in 0..18
        invariant
            bits@ == data_pins(data@).take(i as int),
    {
        bits.push(
            if i < data.len() {
                data[i]
            } else {
                Bit::Zero
            },
        );
        assert(bits@ =~= data_pins(data@).take(i + 1));
    }
    assert(data_pins(data@).take(18) =~= data_pins(data@));
    bits
}

fn list_address(address: &[Bit; 14], count: usize) -> (bits: Vec<Bit>)
    requires
        count <= 14,
    ensures
        bits@ == address@.take(count as int),
{
    let mut bits: Vec<Bit> = Vec::new();
    for i in 0..count
        invariant
            count <= 14,
            bits@ == address@.take(i as int),
    {
        bits.push(address[i]);
        assert(bits@ =~= address@.take(i + 1));
    }
    bits
}

impl Pins {
    fn add_ram_port(
        &mut self,
        address_name: &str,
        data_name: &str,
        select_name: &str,
        controls: Pins,
        address: &[Bit; 14],
        data: &Vec<Bit>,
    )
        ensures
            final(self)@ == old(self)@ + ram_port_pins(
                address_name@,
                data_name@,
                select_name@,
                controls@,
                *address,
                data@,
            ),
    {
        let ghost before = self@;
        let address_bits = list_address(address, 14);
        assert(address_bits@ =~= address@);
        self.read_bus(address_name, &address_bits);
        let data_bits = pad_data(data);
        self.read_bus(data_name, &data_bits);
        let ghost buses = self@;
        self.append(controls);
        let mut selects: Vec<Bit> = Vec::new();
        selects.push(Bit::Zero);
        selects.push(Bit::Zero);
        selects.push(Bit::Zero);
        assert(selects@ =~= seq![Bit::Zero, Bit::Zero, Bit::Zero]);
        self.read_bus(select_name, &selects);
        assert(self@ =~= before + ram_port_pins(
            address_name@,
            data_name@,
            select_name@,
            controls@,
            *address,
            data@,
        ));
    }

    fn append(&mut self, more: Pins)
        ensures
            final(self)@ == old(self)@ + more@,
    {
        let ghost before = self@;
        assert(before + more@.take(0) =~= before);
        for i in 0..more.list.len()
            invariant
                self@ == before + more@.take(i as int),
        {
            let pin = &more.list[i].1;
            let bits = crate::cells::copied(&pin.bits);
            self.push(more.list[i].0.clone(), pin.direction, bits);
            assert(more@[i as int].1 =~= (PinModel {
                direction: more.list@[i as int].1.direction,
                bits: more.list@[i as int].1.bits@,
            }));
            assert(self@ =~= before + more@.take(i + 1));
        }
        assert(more@.take(more@.len() as int) =~= more@);
    }
}

/// The controls of the first block-RAM port.
pub open spec fn first_controls(
    write_enable: Control,
    clock_enable: Option<Control>,
    clock: Bit,
) -> Seq<(Seq<char>, PinModel)> {
    seq![
        reads("CEA"@, control_bit(clock_enable, Bit::One)),
        reads("OCEA"@, Bit::One),
        reads("CLKA"@, clock),
        reads("WEA"@, write_enable.signal),
        reads("RSTA"@, Bit::Zero),
    ]
}

/// The controls of the second block-RAM port; without one it reads for the first.
pub open spec fn second_controls(
    read_enable: Option<Control>,
    clock: Bit,
    second: Option<RamPortModel>,
) -> Seq<(Seq<char>, PinModel)> {
    let (enable, port_clock, write) = match second {
        Some(port) => (
            control_bit(port.clock_enable, Bit::One),
            port.clock,
            port.write_enable.signal,
        ),
        None => (control_bit(read_enable, Bit::One), clock, Bit::Zero),
    };
    seq![
        reads("CEB"@, enable),
        reads("OCEB"@, Bit::One),
        reads("CLKB"@, port_clock),
        reads("WEB"@, write),
        reads("RSTB"@, Bit::Zero),
    ]
}

/// The pins of a block RAM.
pub open spec fn block_ram_pins(
    write_address: [Bit; 14],
    write_data: Seq<Bit>,
    write_enable: Control,
    read_address: [Bit; 14],
    read_data: Seq<u32>,
    read_enable: Option<Control>,
    clock_enable: Option<Control>,
    clock: Bit,
    second: Option<RamPortModel>,
) -> Seq<(Seq<char>, PinModel)> {
    let (second_address, second_data) = match second {
        Some(port) => (port.address, port.write_data),
        None => (read_address, Seq::<Bit>::empty()),
    };
    ram_port_pins(
        "ADA"@,
        "DIA"@,
        "CSA"@,
        first_controls(write_enable, clock_enable, clock),
        write_address,
        write_data,
    ) + ram_port_pins(
        "ADB"@,
        "DIB"@,
        "CSB"@,
        second_controls(read_enable, clock, second),
        second_address,
        second_data,
    ) + match second {
        Some(port) => drives_bus("DOA"@, read_data) + drives_bus("DOB"@, port.read_data),
        None => drives_bus("DOB"@, read_data),
    }
}

fn json_block_ram_pins(
    write_address: &[Bit; 14],
    write_data: &Vec<Bit>,
    write_enable: Control,
    read_address: &[Bit; 14],
    read_data: &Vec<u32>,
    read_enable: Option<Control>,
    clock_enable: Option<Control>,
    clock: Bit,
    second: &Option<BlockRamPort>,
) -> (pins: Pins)
    ensures
        pins@ == block_ram_pins(
            *write_address,
            write_data@,
            write_enable,
            *read_address,
            read_data@,
            read_enable,
            clock_enable,
            clock,
            crate::cells::ram_port_model(*second),
        ),
{
    let ghost model = crate::cells::ram_port_model(*second);
    let mut pins = Pins::new();
    let mut first = Pins::new();
    first.read("CEA", signal_of(clock_enable, Bit::One));
    first.read("OCEA", Bit::One);
    first.read("CLKA", clock);
    first.read("WEA", write_enable.signal);
    first.read("RSTA", Bit::Zero);
    assert(first@ =~= first_controls(write_enable, clock_enable, clock));
    pins.add_ram_port("ADA", "DIA", "CSA", first, write_address, write_data);
    let ghost one = pins@;
    let (enable, port_clock, write) = match second {
        Some(port) => (
            signal_of(port.clock_enable, Bit::One),
            port.clock,
            port.write_enable.signal,
        ),
        None => (signal_of(read_enable, Bit::One), clock, Bit::Zero),
    };
    let mut other = Pins::new();
    other.read("CEB", enable);
    other.read("OCEB", Bit::One);
    other.read("CLKB", port_clock);
    other.read("WEB", write);
    other.read("RSTB", Bit::Zero);
    assert(other@ =~= second_controls(read_enable, clock, model));
    match second {
        Some(port) => {
            pins.add_ram_port("ADB", "DIB", "CSB", other, &port.address, &port.write_data);
            pins.drive_bus("DOA", read_data);
            pins.drive_bus("DOB", &port.read_data);
        },
        None => {
            let none: Vec<Bit> = Vec::new();
            assert(none@ =~= Seq::<Bit>::empty());
            pins.add_ram_port("ADB", "DIB", "CSB", other, read_address, &none);
            pins.drive_bus("DOB", read_data);
        },
    }
    assert(pins@ =~= block_ram_pins(
        *write_address,
        write_data@,
        write_enable,
        *read_address,
        read_data@,
        read_enable,
        clock_enable,
        clock,
        model,
    ));
    pins
}

/// Four data bits; bits past the word are zero.
pub open spec fn nibble(data: Seq<Bit>) -> Seq<Bit> {
    Seq::new(
        4,
        |i: int|
            if i < data.len() {
                data[i]
            } else {
                Bit::Zero
            },
    )
}

/// Four output bits; bits past the word are zero.
pub open spec fn output_nibble(wires: Seq<u32>) -> Seq<Bit> {
    Seq::new(
        4,
        |i: int|
            if i < wires.len() {
                Bit::Wire(wires[i])
            } else {
                Bit::Zero
            },
    )
}

/// The distributed RAM.
pub open spec fn distributed_ram_cell(
    write_address: [Bit; 14],
    write_data: Seq<Bit>,
    write_enable: Control,
    read_address: [Bit; 14],
    read_data: Seq<u32>,
    clock: Bit,
    edge: ClockEdge,
) -> JsonCellModel {
    JsonCellModel {
        kind: "TRELLIS_DPR16X4"@,
        parameters: by_name(
            seq![
                ("WCKMUX"@, edge_setting(edge, "WCK"@)),
                ("WREMUX"@, active_setting(write_enable.active, "WRE"@)),
                ("INITVAL"@, binary_text(0, 64)),
            ],
        ),
        attributes: seq![],
        pins: by_name(
            seq![
                (
                    "DI"@,
                    PinModel { direction: PortDirection::Input, bits: nibble(write_data) },
                ),
                (
                    "WAD"@,
                    PinModel { direction: PortDirection::Input, bits: write_address@.take(4) },
                ),
                reads("WRE"@, write_enable.signal),
                reads("WCK"@, clock),
                (
                    "RAD"@,
                    PinModel { direction: PortDirection::Input, bits: read_address@.take(4) },
                ),
                (
                    "DO"@,
                    PinModel { direction: PortDirection::Output, bits: output_nibble(read_data) },
                ),
            ],
        ),
    }
}

fn json_distributed_ram(
    write_address: &[Bit; 14],
    write_data: &Vec<Bit>,
    write_enable: Control,
    read_address: &[Bit; 14],
    read_data: &Vec<u32>,
    clock: Bit,
    edge: ClockEdge,
) -> (cell: JsonCell)
    ensures
        cell@ == distributed_ram_cell(
            *write_address,
            write_data@,
            write_enable,
            *read_address,
            read_data@,
            clock,
            edge,
        ),
{
    let mut parameters = Texts::new();
    parameters.set("WCKMUX", set_edge(edge, "WCK"));
    parameters.set("WREMUX", set_active(write_enable.active, "WRE"));
    parameters.set("INITVAL", binary(0, 64).as_str());
    assert(parameters.list@ =~= seq![
        ("WCKMUX"@, edge_setting(edge, "WCK"@)),
        ("WREMUX"@, active_setting(write_enable.active, "WRE"@)),
        ("INITVAL"@, binary_text(0, 64)),
    ]);
    let mut inputs: Vec<Bit> = Vec::new();
    let mut outputs: Vec<Bit> = Vec::new();
    for i in 0..4
        invariant
            inputs@ == nibble(write_data@).take(i as int),
            outputs@ == output_nibble(read_data@).take(i as int),
    {
        inputs.push(
            if i < write_data.len() {
                write_data[i]
            } else {
                Bit::Zero
            },
        );
        outputs.push(
            if i < read_data.len() {
                Bit::Wire(read_data[i])
            } else {
                Bit::Zero
            },
        );
        assert(inputs@ =~= nibble(write_data@).take(i + 1));
        assert(outputs@ =~= output_nibble(read_data@).take(i + 1));
    }
    assert(inputs@ =~= nibble(write_data@));
    assert(outputs@ =~= output_nibble(read_data@));
    let mut pins = Pins::new();
    pins.push("DI".to_owned(), PortDirection::Input, inputs);
    pins.push("WAD".to_owned(), PortDirection::Input, list_address(write_address, 4));
    pins.read("WRE", write_enable.signal);
    pins.read("WCK", clock);
    pins.push("RAD".to_owned(), PortDirection::Input, list_address(read_address, 4));
    pins.push("DO".to_owned(), PortDirection::Output, outputs);
    assert(pins@ =~= seq![
        ("DI"@, PinModel { direction: PortDirection::Input, bits: nibble(write_data@) }),
        ("WAD"@, PinModel { direction: PortDirection::Input, bits: write_address@.take(4) }),
        reads("WRE"@, write_enable.signal),
        reads("WCK"@, clock),
        ("RAD"@, PinModel { direction: PortDirection::Input, bits: read_address@.take(4) }),
        ("DO"@, PinModel { direction: PortDirection::Output, bits: output_nibble(read_data@) }),
    ]);
    JsonCell {
        kind: "TRELLIS_DPR16X4",
        parameters: parameters.map,
        attributes: no_texts(),
        pins: pins.collect(),
    }
}

/// A mapped cell as a primitive of the tool.
pub open spec fn primitive(cell: CellModel) -> JsonCellModel {
    match cell {
        CellModel::Lut4 { inputs, output, init, .. } => lut_cell(inputs, output, init),
        CellModel::PfuMux { lut_true, lut_false, select, output, .. } => pfu_mux_cell(
            lut_true,
            lut_false,
            select,
            output,
        ),
        CellModel::L6Mux21 { data_zero, data_one, select, output, .. } => l6_mux_cell(
            data_zero,
            data_one,
            select,
            output,
        ),
        CellModel::Ccu2c { inputs, carry_in, sums, carry_out, init, inject, .. } => ccu2c_cell(
            inputs,
            carry_in,
            sums,
            carry_out,
            init,
            inject,
        ),
        CellModel::FlipFlop { data, output, clock, edge, enable, reset, .. } => flip_flop_cell(
            data,
            output,
            clock,
            edge,
            enable,
            reset,
        ),
        CellModel::BlockRam {
            implementation,
            physical_width,
            write_address,
            write_data,
            write_enable,
            read_address,
            read_data,
            read_enable,
            clock_enable,
            clock,
            edge,
            second_port,
            ..
        } => match implementation {
            Ecp5MemoryImplementation::Block => JsonCellModel {
                kind: "DP16KD"@,
                parameters: by_name(
                    block_ram_settings(
                        physical_width,
                        write_enable,
                        read_enable,
                        clock_enable,
                        edge,
                        second_port,
                    ),
                ),
                attributes: seq![],
                pins: by_name(
                    block_ram_pins(
                        write_address,
                        write_data,
                        write_enable,
                        read_address,
                        read_data,
                        read_enable,
                        clock_enable,
                        clock,
                        second_port,
                    ),
                ),
            },
            Ecp5MemoryImplementation::Distributed => distributed_ram_cell(
                write_address,
                write_data,
                write_enable,
                read_address,
                read_data,
                clock,
                edge,
            ),
        },
        CellModel::TrellisIo { pad, fabric_output, fabric_input, tristate, .. } => pad_cell(
            pad,
            fabric_output,
            fabric_input,
            tristate,
        ),
        CellModel::Jtagg {
            tdo,
            tdi,
            clock,
            run_test_idle,
            shift,
            update,
            reset_n,
            clock_enable,
            extension_register_1,
            extension_register_2,
            ..
        } => JsonCellModel {
            kind: "JTAGG"@,
            parameters: by_name(
                seq![
                    ("ER1"@, enabled_text(extension_register_1)),
                    ("ER2"@, enabled_text(extension_register_2)),
                ],
            ),
            attributes: seq![],
            pins: by_name(
                jtagg_pins(
                    tdo,
                    tdi,
                    clock,
                    run_test_idle,
                    shift,
                    update,
                    reset_n,
                    clock_enable,
                ),
            ),
        },
        CellModel::Pll {
            reference_clock,
            feedback_clock,
            output_clock,
            additional_output_clocks,
            locked,
            fabric_output,
            feedback_output,
            parameters,
            attributes,
            ..
        } => JsonCellModel {
            kind: "EHXPLLL"@,
            parameters: pll_parameters(parameters),
            attributes,
            pins: by_name(
                pll_pins(
                    reference_clock,
                    feedback_clock,
                    output_clock,
                    additional_output_clocks,
                    locked,
                    fabric_output,
                    feedback_output,
                ),
            ),
        },
    }
}

fn json_hard_block(cell: &Ecp5Cell) -> (primitive_cell: JsonCell)
    requires
        cell is BlockRam || cell is TrellisIo || cell is Jtagg || cell is Pll,
    ensures
        primitive_cell@ == primitive(cell@),
{
    match cell {
        Ecp5Cell::BlockRam {
            implementation,
            physical_width,
            write_address,
            write_data,
            write_enable,
            read_address,
            read_data,
            read_enable,
            clock_enable,
            clock,
            edge,
            second_port,
            ..
        } => match implementation {
            Ecp5MemoryImplementation::Block => {
                let pins = json_block_ram_pins(
                    &**write_address,
                    write_data,
                    *write_enable,
                    &**read_address,
                    read_data,
                    *read_enable,
                    *clock_enable,
                    *clock,
                    second_port,
                );
                JsonCell {
                    kind: "DP16KD",
                    parameters: block_ram_parameters(
                        *physical_width,
                        *write_enable,
                        *read_enable,
                        *clock_enable,
                        *edge,
                        second_port,
                    ),
                    attributes: no_texts(),
                    pins: pins.collect(),
                }
            },
            Ecp5MemoryImplementation::Distributed => json_distributed_ram(
                &**write_address,
                write_data,
                *write_enable,
                &**read_address,
                read_data,
                *clock,
                *edge,
            ),
        },
        Ecp5Cell::TrellisIo { pad, fabric_output, fabric_input, tristate, .. } => json_trellis_io(
            *pad,
            *fabric_output,
            *fabric_input,
            *tristate,
        ),
        Ecp5Cell::Jtagg {
            tdo,
            tdi,
            clock,
            run_test_idle,
            shift,
            update,
            reset_n,
            clock_enable,
            extension_register_1,
            extension_register_2,
            ..
        } => {
            let mut parameters = Texts::new();
            parameters.set("ER1", enabled_or_not(*extension_register_1));
            parameters.set("ER2", enabled_or_not(*extension_register_2));
            assert(parameters.list@ =~= seq![
                ("ER1"@, enabled_text(*extension_register_1)),
                ("ER2"@, enabled_text(*extension_register_2)),
            ]);
            let pins = json_jtagg_pins(
                *tdo,
                *tdi,
                *clock,
                *run_test_idle,
                *shift,
                *update,
                *reset_n,
                *clock_enable,
            );
            JsonCell {
                kind: "JTAGG",
                parameters: parameters.map,
                attributes: no_texts(),
                pins: pins.collect(),
            }
        },
        Ecp5Cell::Pll {
            reference_clock,
            feedback_clock,
            output_clock,
            additional_output_clocks,
            locked,
            fabric_output,
            feedback_output,
            parameters,
            attributes,
            ..
        } => {
            let pins = json_pll_pins(
                *reference_clock,
                *feedback_clock,
                *output_clock,
                additional_output_clocks,
                *locked,
                *fabric_output,
                *feedback_output,
            );
            JsonCell {
                kind: "EHXPLLL",
                parameters: json_pll_parameters(parameters),
                attributes: attributes.copy_texts(),
                pins: pins.collect(),
            }
        },
        _ => json_pfu_mux(Bit::Zero, Bit::Zero, Bit::Zero, 0),
    }
}

/// A mapped cell as a primitive of the tool.
pub fn json_cell(cell: &Ecp5Cell) -> (primitive_cell: JsonCell)
    ensures
        primitive_cell@ == primitive(cell@),
{
    match cell {
        Ecp5Cell::Lut4 { inputs, output, init, .. } => json_lut(*inputs, *output, *init),
        Ecp5Cell::PfuMux { lut_true, lut_false, select, output, .. } => json_pfu_mux(
            *lut_true,
            *lut_false,
            *select,
            *output,
        ),
        Ecp5Cell::L6Mux21 { data_zero, data_one, select, output, .. } => json_l6_mux(
            *data_zero,
            *data_one,
            *select,
            *output,
        ),
        Ecp5Cell::Ccu2c { inputs, carry_in, sums, carry_out, init, inject, .. } => json_ccu2c(
            *inputs,
            *carry_in,
            *sums,
            *carry_out,
            *init,
            *inject,
        ),
        Ecp5Cell::FlipFlop { data, output, clock, edge, enable, reset, .. } => json_flip_flop(
            *data,
            *output,
            *clock,
            *edge,
            *enable,
            *reset,
        ),
        _ => json_hard_block(cell),
    }
}

} // verus!
