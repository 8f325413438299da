//! The whole design as the place-and-route tool reads it, with its clock script.

use vstd::prelude::*;

use crate::cells::mapped_cell_name;
use crate::cells::Bit;
use crate::cells::CellModel;
use crate::cells::Ecp5Cell;
use crate::cells::MappedPort;
use crate::cells::PortModel;
use crate::errors::between;
use crate::json::binary;
use crate::json::binary_text;
use crate::json::by_name;
use crate::json::json_cell;
use crate::json::primitive;
use crate::json::JsonCell;
use crate::json::JsonCellModel;
use crate::json::JsonPin;
use crate::json::PinModel;
use crate::names::lemma_viewed;
use crate::names::lemma_viewed_named;
use crate::names::named;
use crate::names::text_entries;
use crate::names::viewed;
use crate::names::with_entry;
use crate::names::NameMap;
use crate::netlist::cell_models;
use crate::netlist::clock_models;
use crate::netlist::port_models;
use crate::netlist::ClockModel;
use crate::netlist::Ecp5Netlist;
use crate::netlist::NetlistModel;
use crate::netlist::ResolvedClockTiming;
use crate::netlist::RetimingSelection;
use crate::text::decimal;
use crate::text::decimal_text;

verus! {

/// The bits of a named net.
#[derive(Clone, Debug, Eq, PartialEq)]
pub struct JsonNet {
    /// Bits, least-significant first.
    pub bits: Vec<Bit>,
}

impl View for JsonNet {
    type V = Seq<Bit>;

    open spec fn view(&self) -> Seq<Bit> {
        self.bits@
    }
}

/// A design with one module.
#[derive(Clone, Debug, Eq, PartialEq)]
pub struct JsonDesign {
    /// Tool that wrote the design.
    pub creator: &'static str,
    /// Module name.
    pub name: String,
    /// Module attributes.
    pub attributes: NameMap<String>,
    /// Ports by name.
    pub ports: NameMap<JsonPin>,
    /// Primitives by name.
    pub cells: NameMap<JsonCell>,
    /// Net names.
    pub netnames: NameMap<JsonNet>,
}

/// What a [`JsonDesign`] holds.
#[verifier::ext_equal]
pub struct DesignModel {
    pub creator: Seq<char>,
    pub name: Seq<char>,
    pub attributes: Seq<(Seq<char>, Seq<char>)>,
    pub ports: Seq<(Seq<char>, PinModel)>,
    pub cells: Seq<(Seq<char>, JsonCellModel)>,
    pub netnames: Seq<(Seq<char>, Seq<Bit>)>,
}

impl View for JsonDesign {
    type V = DesignModel;

    open spec fn view(&self) -> DesignModel {
        DesignModel {
            creator: self.creator@,
            name: self.name@,
            attributes: text_entries(self.attributes),
            ports: viewed(self.ports@),
            cells: viewed(self.cells@),
            netnames: viewed(self.netnames@),
        }
    }
}

/// Failure to write a design.
#[derive(Clone, Debug, Eq, PartialEq)]
pub enum NextpnrJsonError {
    /// Two mapped cells share a name, so the cell map would drop one.
    DuplicateCellName {
        /// Duplicated cell name.
        name: String,
    },
}

impl NextpnrJsonError {
    /// What the failure says.
    pub fn message(&self) -> (text: String)
        ensures
            match *self {
                NextpnrJsonError::DuplicateCellName { name } => text@
                    == "duplicate mapped cell name `"@ + name@ + "`"@,
            },
    {
        match self {
            NextpnrJsonError::DuplicateCellName { name } => between(
                "duplicate mapped cell name `",
                name.as_str(),
                "`",
            ),
        }
    }
}

/// Whether one of the first `count` cells has this name.
pub open spec fn named_before(cells: Seq<CellModel>, name: Seq<char>, count: int) -> bool {
    exists|i: int| 0 <= i < count && (#[trigger] cells[i]).cell_name() == name
}

/// The name of the first cell from `from` on that an earlier cell has already.
pub open spec fn duplicate_name(cells: Seq<CellModel>, from: int) -> Option<Seq<char>>
    decreases cells.len() - from,
{
    if from >= cells.len() {
        None
    } else if named_before(cells, cells[from].cell_name(), from) {
        Some(cells[from].cell_name())
    } else {
        duplicate_name(cells, from + 1)
    }
}

/// Without a duplicate every two cells have different names.
pub proof fn law_names_are_unique(cells: Seq<CellModel>, from: int, i: int, j: int)
    requires
        duplicate_name(cells, from) is None,
        0 <= i < j < cells.len(),
        from <= j,
    ensures
        cells[i].cell_name() != cells[j].cell_name(),
    decreases j - from,
{
    if from < j {
        law_names_are_unique(cells, from + 1, i, j);
    } else {
        assert(!named_before(cells, cells[j].cell_name(), j));
    }
}

/// The first `count` ports as pins.
pub open spec fn port_pins(ports: Seq<PortModel>) -> Seq<(Seq<char>, PinModel)> {
    Seq::new(
        ports.len(),
        |i: int|
            (ports[i].name, PinModel { direction: ports[i].direction, bits: ports[i].bits }),
    )
}

/// The nets of ports.
pub open spec fn port_nets(ports: Seq<PortModel>) -> Seq<(Seq<char>, Seq<Bit>)> {
    Seq::new(ports.len(), |i: int| (ports[i].name, ports[i].bits))
}

/// `nets` with the first `count` clock nets that have no name yet.
pub open spec fn with_clock_nets(
    nets: Seq<(Seq<char>, Seq<Bit>)>,
    clocks: Seq<ClockModel>,
    count: nat,
) -> Seq<(Seq<char>, Seq<Bit>)>
    decreases count,
{
    if count == 0 {
        nets
    } else {
        let rest = with_clock_nets(nets, clocks, (count - 1) as nat);
        let clock = clocks[count - 1];
        if named(rest, clock.net_name) is Some {
            rest
        } else {
            with_entry(rest, clock.net_name, seq![clock.bit])
        }
    }
}

/// A primitive with its location hint, where there is one.
pub open spec fn hinted(
    cell: JsonCellModel,
    hints: Seq<(Seq<char>, Seq<char>)>,
    name: Seq<char>,
) -> JsonCellModel {
    match named(hints, name) {
        Some(bel) => JsonCellModel {
            attributes: with_entry(
                with_entry(cell.attributes, "NEXTPNR_BEL"@, bel),
                "BEL_STRENGTH"@,
                binary_text(1, 32),
            ),
            ..cell
        },
        None => cell,
    }
}

/// The primitives of a netlist.
pub open spec fn primitives(
    cells: Seq<CellModel>,
    hints: Seq<(Seq<char>, Seq<char>)>,
) -> Seq<(Seq<char>, JsonCellModel)> {
    Seq::new(
        cells.len(),
        |i: int|
            (
                cells[i].cell_name(),
                hinted(primitive(cells[i]), hints, cells[i].cell_name()),
            ),
    )
}

/// A netlist as the tool reads it.
pub open spec fn design_of(netlist: NetlistModel) -> DesignModel {
    DesignModel {
        creator: "Struo"@,
        name: netlist.name,
        attributes: by_name(seq![("top"@, binary_text(1, 32))]),
        ports: by_name(port_pins(netlist.ports)),
        cells: by_name(primitives(netlist.cells, netlist.placement_hints)),
        netnames: with_clock_nets(
            by_name(port_nets(netlist.ports)),
            netlist.clocks,
            netlist.clocks.len(),
        ),
    }
}

fn find_duplicate(cells: &Vec<Ecp5Cell>) -> (name: Option<String>)
    ensures
        match name {
            Some(name) => duplicate_name(cell_models(cells@), 0) == Some(name@),
            None => duplicate_name(cell_models(cells@), 0) is None,
        },
{
    let ghost models = cell_models(cells@);
    for i in 0..cells.len()
        invariant
            models == cell_models(cells@),
            duplicate_name(models, 0) == duplicate_name(models, i as int),
    {
        assert(models[i as int] == cells@[i as int]@);
        let name = mapped_cell_name(&cells[i]);
        for j in 0..i
            invariant
                i < cells@.len(),
                models == cell_models(cells@),
                name@ == models[i as int].cell_name(),
                duplicate_name(models, 0) == duplicate_name(models, i as int),
                forall|k: int| 0 <= k < j ==> (#[trigger] models[k]).cell_name() != name@,
        {
            assert(models[j as int] == cells@[j as int]@);
            if *mapped_cell_name(&cells[j]) == *name {
                assert(named_before(models, models[i as int].cell_name(), i as int));
                return Some(name.clone());
            }
        }
    }
    None
}

fn collect_ports(ports: &Vec<MappedPort>) -> (map: NameMap<JsonPin>)
    ensures
        viewed(map@) == by_name(port_pins(port_models(ports@))),
{
    let ghost all = port_pins(port_models(ports@));
    let mut map: NameMap<JsonPin> = NameMap::new();
    assert(viewed(map@) =~= Seq::<(Seq<char>, PinModel)>::empty());
    for i in 0..ports.len()
        invariant
            all == port_pins(port_models(ports@)),
            viewed(map@) == by_name(all.take(i as int)),
    {
        assert(all.take(i + 1).drop_last() =~= all.take(i as int));
        let name = ports[i].name.clone();
        let pin = JsonPin {
            direction: ports[i].direction,
            bits: crate::cells::copied(&ports[i].bits),
        };
        assert(all[i as int].1 =~= pin@);
        proof {
            lemma_viewed(map@, name@, pin);
        }
        map.insert(name, pin);
    }
    assert(all.take(ports@.len() as int) =~= all);
    map
}

fn collect_nets(ports: &Vec<MappedPort>, clocks: &Vec<ResolvedClockTiming>) -> (map: NameMap<
    JsonNet,
>)
    ensures
        viewed(map@) == with_clock_nets(
            by_name(port_nets(port_models(ports@))),
            clock_models(clocks@),
            clocks@.len(),
        ),
{
    let ghost all = port_nets(port_models(ports@));
    let mut map: NameMap<JsonNet> = NameMap::new();
    assert(viewed(map@) =~= Seq::<(Seq<char>, Seq<Bit>)>::empty());
    for i in 0..ports.len()
        invariant
            all == port_nets(port_models(ports@)),
            viewed(map@) == by_name(all.take(i as int)),
    {
        assert(all.take(i + 1).drop_last() =~= all.take(i as int));
        let name = ports[i].name.clone();
        let net = JsonNet { bits: crate::cells::copied(&ports[i].bits) };
        assert(all[i as int] == (name@, net@));
        proof {
            lemma_viewed(map@, name@, net);
        }
        map.insert(name, net);
    }
    assert(all.take(ports@.len() as int) =~= all);
    let ghost nets = by_name(all);
    let ghost models = clock_models(clocks@);
    for i in 0..clocks.len()
        invariant
            models == clock_models(clocks@),
            viewed(map@) == with_clock_nets(nets, models, i as nat),
    {
        let clock = &clocks[i];
        assert(models[i as int] == clock@);
        proof {
            lemma_viewed_named(map@, clock.net_name@, 0);
        }
        if map.get(clock.net_name.as_str()).is_none() {
            let mut bits: Vec<Bit> = Vec::new();
            bits.push(clock.bit);
            let net = JsonNet { bits };
            assert(net@ =~= seq![clock.bit]);
            proof {
                lemma_viewed(map@, clock.net_name@, net);
            }
            map.insert(clock.net_name.clone(), net);
        }
    }
    map
}

fn add_hint(cell: JsonCell, hints: &NameMap<String>, name: &String) -> (out: JsonCell)
    ensures
        out@ == hinted(cell@, text_entries(*hints), name@),
{
    let mut out = cell;
    if let Some(bel) = hints.get_text(name.as_str()) {
        out.attributes.insert_text("NEXTPNR_BEL".to_owned(), bel.clone());
        out.attributes.insert_text("BEL_STRENGTH".to_owned(), binary(1, 32));
    }
    out
}

fn collect_cells(cells: &Vec<Ecp5Cell>, hints: &NameMap<String>) -> (map: NameMap<JsonCell>)
    ensures
        viewed(map@) == by_name(primitives(cell_models(cells@), text_entries(*hints))),
{
    let ghost all = primitives(cell_models(cells@), text_entries(*hints));
    let mut map: NameMap<JsonCell> = NameMap::new();
    assert(viewed(map@) =~= Seq::<(Seq<char>, JsonCellModel)>::empty());
    for i in 0..cells.len()
        invariant
            all == primitives(cell_models(cells@), text_entries(*hints)),
            viewed(map@) == by_name(all.take(i as int)),
    {
        assert(all.take(i + 1).drop_last() =~= all.take(i as int));
        assert(cell_models(cells@)[i as int] == cells@[i as int]@);
        let name = mapped_cell_name(&cells[i]).clone();
        let cell = add_hint(json_cell(&cells[i]), hints, &name);
        assert(all[i as int] == (name@, cell@));
        proof {
            lemma_viewed(map@, name@, cell);
        }
        map.insert(name, cell);
    }
    assert(all.take(cells@.len() as int) =~= all);
    map
}

/// A character inside a JSON string.
pub open spec fn json_char(c: char) -> Seq<char> {
    if c == '"' {
        seq!['\\', '"']
    } else if c == '\\' {
        seq!['\\', '\\']
    } else if c as u32 == 8 {
        seq!['\\', 'b']
    } else if c as u32 == 9 {
        seq!['\\', 't']
    } else if c as u32 == 10 {
        seq!['\\', 'n']
    } else if c as u32 == 12 {
        seq!['\\', 'f']
    } else if c as u32 == 13 {
        seq!['\\', 'r']
    } else if (c as u32) < 32 {
        seq!['\\', 'u', '0', '0', hex_digit(c as u32 as nat / 16), hex_digit(c as u32 as nat % 16)]
    } else {
        seq![c]
    }
}

/// A lower-case hexadecimal digit.
pub open spec fn hex_digit(value: nat) -> char {
    if value < 10 {
        crate::text::digit_char(value)
    } else if value == 10 {
        'a'
    } else if value == 11 {
        'b'
    } else if value == 12 {
        'c'
    } else if value == 13 {
        'd'
    } else if value == 14 {
        'e'
    } else {
        'f'
    }
}

/// The characters of a JSON string.
pub open spec fn json_chars(text: Seq<char>) -> Seq<char>
    decreases text.len(),
{
    if text.len() == 0 {
        seq![]
    } else {
        json_chars(text.drop_last()) + json_char(text.last())
    }
}

/// A text as a JSON string.
pub open spec fn json_string(text: Seq<char>) -> Seq<char> {
    seq!['"'] + json_chars(text) + seq!['"']
}

/// The error type of `serde_json`.
#[verifier::external_type_specification]
#[verifier::external_body]
pub struct ExSerdeJsonError(serde_json::Error);

/// `serde_json::to_string` on a text: the text between quotation marks, with
/// quotation marks, backslashes and control characters escaped. It writes to
/// memory, which does not fail.
#[verifier::external_body]
fn quote_json(text: &String) -> (quoted: Result<String, serde_json::Error>)
    ensures
        quoted matches Ok(quoted) && quoted@ == json_string(text@),
{
    serde_json::to_string(text)
}

/// The script lines of one clock.
pub open spec fn clock_lines(
    quoted_clock: Seq<char>,
    quoted_net: Seq<char>,
    period_ps: u32,
    uncertainty_ps: u32,
) -> Seq<char> {
    "# clock "@ + quoted_clock + ": period "@ + decimal_text(period_ps as nat)
        + " ps, uncertainty "@ + decimal_text(uncertainty_ps as nat) + " ps\nctx.addClock("@
        + quoted_net + ", 1000000.0 / "@ + decimal_text((period_ps - uncertainty_ps) as nat)
        + ")\n"@
}

/// The script lines of one clock, from its quoted name and net.
pub fn write_clock_lines(
    quoted_clock: &str,
    quoted_net: &str,
    period_ps: u32,
    uncertainty_ps: u32,
) -> (lines: String)
    requires
        uncertainty_ps <= period_ps,
    ensures
        lines@ == clock_lines(quoted_clock@, quoted_net@, period_ps, uncertainty_ps),
{
    let mut lines = "# clock ".to_owned();
    lines.append(quoted_clock);
    lines.append(": period ");
    lines.append(decimal(period_ps as u128).as_str());
    lines.append(" ps, uncertainty ");
    lines.append(decimal(uncertainty_ps as u128).as_str());
    lines.append(" ps\nctx.addClock(");
    lines.append(quoted_net);
    lines.append(", 1000000.0 / ");
    lines.append(decimal((period_ps - uncertainty_ps) as u128).as_str());
    lines.append(")\n");
    lines
}

/// Whether every clock has time left after its uncertainty.
pub open spec fn clocks_are_usable(clocks: Seq<ClockModel>) -> bool {
    forall|i: int|
        0 <= i < clocks.len() ==> (#[trigger] clocks[i]).uncertainty_ps <= clocks[i].period_ps
}

/// The script of the first `count` clocks.
pub open spec fn clock_script(clocks: Seq<ClockModel>, count: nat) -> Seq<char>
    decreases count,
{
    if count == 0 {
        seq![]
    } else {
        let clock = clocks[count - 1];
        clock_script(clocks, (count - 1) as nat) + clock_lines(
            json_string(clock.name),
            json_string(clock.net_name),
            clock.period_ps,
            clock.uncertainty_ps,
        )
    }
}

impl Ecp5Netlist {
    /// Returns the top module name.
    pub fn name(&self) -> (name: &str)
        ensures
            name@ == self@.name,
    {
        self.name.as_str()
    }

    /// Returns physical ports.
    pub fn ports(&self) -> (ports: &[MappedPort])
        ensures
            port_models(ports@) == self@.ports,
    {
        self.ports.as_slice()
    }

    /// Returns physical primitives.
    pub fn cells(&self) -> (cells: &[Ecp5Cell])
        ensures
            cell_models(cells@) == self@.cells,
    {
        self.cells.as_slice()
    }

    /// Returns the technology-scored retiming decision made during mapping.
    pub fn retiming(&self) -> (retiming: RetimingSelection)
        ensures
            retiming == self@.retiming,
    {
        self.retiming
    }

    /// Returns the frequency of otherwise unconstrained clock domains.
    pub fn nextpnr_default_frequency_mhz(&self) -> (frequency: u32)
        ensures
            frequency == if self@.default_frequency_mhz == 0 {
                1
            } else {
                self@.default_frequency_mhz
            },
    {
        if self.timing_constraints.default_frequency_mhz == 0 {
            1
        } else {
            self.timing_constraints.default_frequency_mhz
        }
    }

    /// Returns the pre-pack script that constrains every named clock to its
    /// period less its uncertainty.
    pub fn nextpnr_pre_pack_timing_constraints(&self) -> (script: String)
        requires
            clocks_are_usable(self@.clocks),
        ensures
            script@ == clock_script(self@.clocks, self@.clocks.len()),
    {
        let mut script = String::new();
        assert(script@ =~= Seq::<char>::empty());
        let ghost models = self@.clocks;
        for i in 0..self.timing_constraints.clocks.len()
            invariant
                models == self@.clocks,
                clocks_are_usable(models),
                script@ == clock_script(models, i as nat),
        {
            let clock = &self.timing_constraints.clocks[i];
            assert(models[i as int] == clock@);
            assert(models[i as int].uncertainty_ps <= models[i as int].period_ps);
            match (quote_json(&clock.net_name), quote_json(&clock.name)) {
                (Ok(quoted_net), Ok(quoted_clock)) => {
                    let lines = write_clock_lines(
                        quoted_clock.as_str(),
                        quoted_net.as_str(),
                        clock.period_ps,
                        clock.uncertainty_ps,
                    );
                    script.append(lines.as_str());
                },
                _ => {},
            }
        }
        script
    }

    /// Builds the design that the place-and-route tool reads from this exact
    /// mapped object.
    pub fn to_nextpnr_json(&self) -> (result: Result<JsonDesign, NextpnrJsonError>)
        ensures
            match result {
                Ok(design) => duplicate_name(self@.cells, 0) is None && design@ == design_of(
                    self@,
                ),
                Err(NextpnrJsonError::DuplicateCellName { name }) => duplicate_name(
                    self@.cells,
                    0,
                ) == Some(name@),
            },
    {
        if let Some(name) = find_duplicate(&self.cells) {
            return Err(NextpnrJsonError::DuplicateCellName { name });
        }
        let mut attributes: NameMap<String> = NameMap::new();
        assert(attributes@.len() == 0);
        assert(text_entries(attributes) =~= Seq::<(Seq<char>, Seq<char>)>::empty());
        attributes.insert_text("top".to_owned(), binary(1, 32));
        let ghost one = seq![("top"@, binary_text(1, 32))];
        assert(one.drop_last() =~= Seq::<(Seq<char>, Seq<char>)>::empty());
        proof {
            reveal_with_fuel(by_name, 2);
        }
        assert(by_name(one) == text_entries(attributes));
        Ok(
            JsonDesign {
                creator: "Struo",
                name: self.name.clone(),
                attributes,
                ports: collect_ports(&self.ports),
                cells: collect_cells(&self.cells, &self.placement_hints),
                netnames: collect_nets(&self.ports, &self.timing_constraints.clocks),
            },
        )
    }
}

} // verus!
