//! What the place-and-route tool reads of the written RAM, PLL and design.

use vstd::prelude::*;

use crate::behaves::has_edge;
use crate::bind::pll_pin;
use crate::bind::ports_differ;
use crate::cells::Bit;
use crate::cells::CellModel;
use crate::cells::Control;
use crate::cells::Ecp5MemoryImplementation;
use crate::cells::PllOutput;
use crate::design::design_of;
use crate::design::duplicate_name;
use crate::design::law_names_are_unique;
use crate::design::port_nets;
use crate::design::port_pins;
use crate::design::primitives;
use crate::design::with_clock_nets;
use crate::json::block_ram_pins;
use crate::json::block_ram_settings;
use crate::json::by_name;
use crate::json::control_bit;
use crate::json::data_pins;
use crate::json::drives;
use crate::json::drives_bus;
use crate::json::first_controls;
use crate::json::pll_pins;
use crate::json::primitive;
use crate::json::ram_port_pins;
use crate::json::reads;
use crate::json::reads_bus;
use crate::json::second_controls;
use crate::json::JsonCellModel;
use crate::json::PinModel;
use crate::meaning::bit_value;
use crate::names::law_read_after_set;
use crate::names::law_with_entry_keeps_order;
use crate::names::named;
use crate::names::names_ordered;
use crate::netlist::ClockModel;
use crate::netlist::NetlistModel;
use crate::text::begins_with;
use crate::text::decimal_text;
use crate::text::lemma_decimal_injective;
use crate::written::has_input;
use crate::written::has_output;
use crate::written::is_asserted;
use crate::written::lemma_last_named;
use crate::written::lemma_named_entered;
use crate::written::lemma_ordered;
use crate::written::sees_edge;
use crate::written::setting;

verus! {

proof fn lemma_block_settings()
    ensures
        "DATA_WIDTH_A"@ != "DATA_WIDTH_B"@,
        "DATA_WIDTH_A"@ != "REGMODE_A"@,
        "DATA_WIDTH_A"@ != "REGMODE_B"@,
        "DATA_WIDTH_A"@ != "RESETMODE"@,
        "DATA_WIDTH_A"@ != "ASYNC_RESET_RELEASE"@,
        "DATA_WIDTH_A"@ != "CSDECODE_A"@,
        "DATA_WIDTH_A"@ != "CSDECODE_B"@,
        "DATA_WIDTH_A"@ != "WRITEMODE_A"@,
        "DATA_WIDTH_A"@ != "WRITEMODE_B"@,
        "DATA_WIDTH_A"@ != "GSR"@,
        "DATA_WIDTH_A"@ != "CLKAMUX"@,
        "DATA_WIDTH_A"@ != "CLKBMUX"@,
        "DATA_WIDTH_A"@ != "WEAMUX"@,
        "DATA_WIDTH_A"@ != "CEAMUX"@,
        "DATA_WIDTH_A"@ != "CEBMUX"@,
        "DATA_WIDTH_A"@ != "WEBMUX"@,
        "DATA_WIDTH_B"@ != "REGMODE_A"@,
        "DATA_WIDTH_B"@ != "REGMODE_B"@,
        "DATA_WIDTH_B"@ != "RESETMODE"@,
        "DATA_WIDTH_B"@ != "ASYNC_RESET_RELEASE"@,
        "DATA_WIDTH_B"@ != "CSDECODE_A"@,
        "DATA_WIDTH_B"@ != "CSDECODE_B"@,
        "DATA_WIDTH_B"@ != "WRITEMODE_A"@,
        "DATA_WIDTH_B"@ != "WRITEMODE_B"@,
        "DATA_WIDTH_B"@ != "GSR"@,
        "DATA_WIDTH_B"@ != "CLKAMUX"@,
        "DATA_WIDTH_B"@ != "CLKBMUX"@,
        "DATA_WIDTH_B"@ != "WEAMUX"@,
        "DATA_WIDTH_B"@ != "CEAMUX"@,
        "DATA_WIDTH_B"@ != "CEBMUX"@,
        "DATA_WIDTH_B"@ != "WEBMUX"@,
        "REGMODE_A"@ != "REGMODE_B"@,
        "REGMODE_A"@ != "RESETMODE"@,
        "REGMODE_A"@ != "ASYNC_RESET_RELEASE"@,
        "REGMODE_A"@ != "CSDECODE_A"@,
        "REGMODE_A"@ != "CSDECODE_B"@,
        "REGMODE_A"@ != "WRITEMODE_A"@,
        "REGMODE_A"@ != "WRITEMODE_B"@,
        "REGMODE_A"@ != "GSR"@,
        "REGMODE_A"@ != "CLKAMUX"@,
        "REGMODE_A"@ != "CLKBMUX"@,
        "REGMODE_A"@ != "WEAMUX"@,
        "REGMODE_A"@ != "CEAMUX"@,
        "REGMODE_A"@ != "CEBMUX"@,
        "REGMODE_A"@ != "WEBMUX"@,
        "REGMODE_B"@ != "RESETMODE"@,
        "REGMODE_B"@ != "ASYNC_RESET_RELEASE"@,
        "REGMODE_B"@ != "CSDECODE_A"@,
        "REGMODE_B"@ != "CSDECODE_B"@,
        "REGMODE_B"@ != "WRITEMODE_A"@,
        "REGMODE_B"@ != "WRITEMODE_B"@,
        "REGMODE_B"@ != "GSR"@,
        "REGMODE_B"@ != "CLKAMUX"@,
        "REGMODE_B"@ != "CLKBMUX"@,
        "REGMODE_B"@ != "WEAMUX"@,
        "REGMODE_B"@ != "CEAMUX"@,
        "REGMODE_B"@ != "CEBMUX"@,
        "REGMODE_B"@ != "WEBMUX"@,
        "RESETMODE"@ != "ASYNC_RESET_RELEASE"@,
        "RESETMODE"@ != "CSDECODE_A"@,
        "RESETMODE"@ != "CSDECODE_B"@,
        "RESETMODE"@ != "WRITEMODE_A"@,
        "RESETMODE"@ != "WRITEMODE_B"@,
        "RESETMODE"@ != "GSR"@,
        "RESETMODE"@ != "CLKAMUX"@,
        "RESETMODE"@ != "CLKBMUX"@,
        "RESETMODE"@ != "WEAMUX"@,
        "RESETMODE"@ != "CEAMUX"@,
        "RESETMODE"@ != "CEBMUX"@,
        "RESETMODE"@ != "WEBMUX"@,
        "ASYNC_RESET_RELEASE"@ != "CSDECODE_A"@,
        "ASYNC_RESET_RELEASE"@ != "CSDECODE_B"@,
        "ASYNC_RESET_RELEASE"@ != "WRITEMODE_A"@,
        "ASYNC_RESET_RELEASE"@ != "WRITEMODE_B"@,
        "ASYNC_RESET_RELEASE"@ != "GSR"@,
        "ASYNC_RESET_RELEASE"@ != "CLKAMUX"@,
        "ASYNC_RESET_RELEASE"@ != "CLKBMUX"@,
        "ASYNC_RESET_RELEASE"@ != "WEAMUX"@,
        "ASYNC_RESET_RELEASE"@ != "CEAMUX"@,
        "ASYNC_RESET_RELEASE"@ != "CEBMUX"@,
        "ASYNC_RESET_RELEASE"@ != "WEBMUX"@,
        "CSDECODE_A"@ != "CSDECODE_B"@,
        "CSDECODE_A"@ != "WRITEMODE_A"@,
        "CSDECODE_A"@ != "WRITEMODE_B"@,
        "CSDECODE_A"@ != "GSR"@,
        "CSDECODE_A"@ != "CLKAMUX"@,
        "CSDECODE_A"@ != "CLKBMUX"@,
        "CSDECODE_A"@ != "WEAMUX"@,
        "CSDECODE_A"@ != "CEAMUX"@,
        "CSDECODE_A"@ != "CEBMUX"@,
        "CSDECODE_A"@ != "WEBMUX"@,
        "CSDECODE_B"@ != "WRITEMODE_A"@,
        "CSDECODE_B"@ != "WRITEMODE_B"@,
        "CSDECODE_B"@ != "GSR"@,
        "CSDECODE_B"@ != "CLKAMUX"@,
        "CSDECODE_B"@ != "CLKBMUX"@,
        "CSDECODE_B"@ != "WEAMUX"@,
        "CSDECODE_B"@ != "CEAMUX"@,
        "CSDECODE_B"@ != "CEBMUX"@,
        "CSDECODE_B"@ != "WEBMUX"@,
        "WRITEMODE_A"@ != "WRITEMODE_B"@,
        "WRITEMODE_A"@ != "GSR"@,
        "WRITEMODE_A"@ != "CLKAMUX"@,
        "WRITEMODE_A"@ != "CLKBMUX"@,
        "WRITEMODE_A"@ != "WEAMUX"@,
        "WRITEMODE_A"@ != "CEAMUX"@,
        "WRITEMODE_A"@ != "CEBMUX"@,
        "WRITEMODE_A"@ != "WEBMUX"@,
        "WRITEMODE_B"@ != "GSR"@,
        "WRITEMODE_B"@ != "CLKAMUX"@,
        "WRITEMODE_B"@ != "CLKBMUX"@,
        "WRITEMODE_B"@ != "WEAMUX"@,
        "WRITEMODE_B"@ != "CEAMUX"@,
        "WRITEMODE_B"@ != "CEBMUX"@,
        "WRITEMODE_B"@ != "WEBMUX"@,
        "GSR"@ != "CLKAMUX"@,
        "GSR"@ != "CLKBMUX"@,
        "GSR"@ != "WEAMUX"@,
        "GSR"@ != "CEAMUX"@,
        "GSR"@ != "CEBMUX"@,
        "GSR"@ != "WEBMUX"@,
        "CLKAMUX"@ != "CLKBMUX"@,
        "CLKAMUX"@ != "WEAMUX"@,
        "CLKAMUX"@ != "CEAMUX"@,
        "CLKAMUX"@ != "CEBMUX"@,
        "CLKAMUX"@ != "WEBMUX"@,
        "CLKBMUX"@ != "WEAMUX"@,
        "CLKBMUX"@ != "CEAMUX"@,
        "CLKBMUX"@ != "CEBMUX"@,
        "CLKBMUX"@ != "WEBMUX"@,
        "WEAMUX"@ != "CEAMUX"@,
        "WEAMUX"@ != "CEBMUX"@,
        "WEAMUX"@ != "WEBMUX"@,
        "CEAMUX"@ != "CEBMUX"@,
        "CEAMUX"@ != "WEBMUX"@,
        "CEBMUX"@ != "WEBMUX"@,
{
    reveal_strlit("DATA_WIDTH_A");
    reveal_strlit("DATA_WIDTH_B");
    reveal_strlit("REGMODE_A");
    reveal_strlit("REGMODE_B");
    reveal_strlit("RESETMODE");
    reveal_strlit("ASYNC_RESET_RELEASE");
    reveal_strlit("CSDECODE_A");
    reveal_strlit("CSDECODE_B");
    reveal_strlit("WRITEMODE_A");
    reveal_strlit("WRITEMODE_B");
    reveal_strlit("GSR");
    reveal_strlit("CLKAMUX");
    reveal_strlit("CLKBMUX");
    reveal_strlit("WEAMUX");
    reveal_strlit("CEAMUX");
    reveal_strlit("CEBMUX");
    reveal_strlit("WEBMUX");
    assert("DATA_WIDTH_A"@.len() == 12);
    assert("DATA_WIDTH_B"@.len() == 12);
    assert("REGMODE_A"@.len() == 9);
    assert("REGMODE_B"@.len() == 9);
    assert("RESETMODE"@.len() == 9);
    assert("ASYNC_RESET_RELEASE"@.len() == 19);
    assert("CSDECODE_A"@.len() == 10);
    assert("CSDECODE_B"@.len() == 10);
    assert("WRITEMODE_A"@.len() == 11);
    assert("WRITEMODE_B"@.len() == 11);
    assert("GSR"@.len() == 3);
    assert("CLKAMUX"@.len() == 7);
    assert("CLKBMUX"@.len() == 7);
    assert("WEAMUX"@.len() == 6);
    assert("CEAMUX"@.len() == 6);
    assert("CEBMUX"@.len() == 6);
    assert("WEBMUX"@.len() == 6);
    assert("DATA_WIDTH_A"@[11] == 'A');
    assert("DATA_WIDTH_B"@[11] == 'B');
    assert("REGMODE_A"@[2] == 'G');
    assert("REGMODE_A"@[8] == 'A');
    assert("REGMODE_B"@[2] == 'G');
    assert("REGMODE_B"@[8] == 'B');
    assert("RESETMODE"@[2] == 'S');
    assert("CSDECODE_A"@[9] == 'A');
    assert("CSDECODE_B"@[9] == 'B');
    assert("WRITEMODE_A"@[10] == 'A');
    assert("WRITEMODE_B"@[10] == 'B');
    assert("CLKAMUX"@[3] == 'A');
    assert("CLKBMUX"@[3] == 'B');
    assert("WEAMUX"@[0] == 'W');
    assert("WEAMUX"@[2] == 'A');
    assert("CEAMUX"@[0] == 'C');
    assert("CEAMUX"@[2] == 'A');
    assert("CEBMUX"@[0] == 'C');
    assert("CEBMUX"@[2] == 'B');
    assert("WEBMUX"@[0] == 'W');
    assert("WEBMUX"@[2] == 'B');
}

proof fn lemma_block_muxes()
    ensures
        "CLKA"@ != "CLKB"@,
        "CLKA"@ != "WEA"@,
        "CLKA"@ != "CEA"@,
        "CLKA"@ != "CEB"@,
        "CLKA"@ != "WEB"@,
        "CLKA"@ != "INV"@,
        "CLKA"@ != "1"@,
        "CLKB"@ != "WEA"@,
        "CLKB"@ != "CEA"@,
        "CLKB"@ != "CEB"@,
        "CLKB"@ != "WEB"@,
        "CLKB"@ != "INV"@,
        "CLKB"@ != "1"@,
        "WEA"@ != "CEA"@,
        "WEA"@ != "CEB"@,
        "WEA"@ != "WEB"@,
        "WEA"@ != "INV"@,
        "WEA"@ != "1"@,
        "CEA"@ != "CEB"@,
        "CEA"@ != "WEB"@,
        "CEA"@ != "INV"@,
        "CEA"@ != "1"@,
        "CEB"@ != "WEB"@,
        "CEB"@ != "INV"@,
        "CEB"@ != "1"@,
        "WEB"@ != "INV"@,
        "WEB"@ != "1"@,
        "INV"@ != "1"@,
{
    reveal_strlit("CLKA");
    reveal_strlit("CLKB");
    reveal_strlit("WEA");
    reveal_strlit("CEA");
    reveal_strlit("CEB");
    reveal_strlit("WEB");
    reveal_strlit("INV");
    reveal_strlit("1");
    assert("CLKA"@.len() == 4);
    assert("CLKB"@.len() == 4);
    assert("WEA"@.len() == 3);
    assert("CEA"@.len() == 3);
    assert("CEB"@.len() == 3);
    assert("WEB"@.len() == 3);
    assert("INV"@.len() == 3);
    assert("1"@.len() == 1);
    assert("CLKA"@[3] == 'A');
    assert("CLKB"@[3] == 'B');
    assert("WEA"@[0] == 'W');
    assert("WEA"@[2] == 'A');
    assert("CEA"@[0] == 'C');
    assert("CEA"@[2] == 'A');
    assert("CEB"@[0] == 'C');
    assert("CEB"@[2] == 'B');
    assert("WEB"@[0] == 'W');
    assert("WEB"@[2] == 'B');
    assert("INV"@[0] == 'I');
}

proof fn lemma_pll_names()
    ensures
        "RST"@ != "STDBY"@,
        "RST"@ != "CLKI"@,
        "RST"@ != "CLKFB"@,
        "RST"@ != "PHASESEL0"@,
        "RST"@ != "PHASESEL1"@,
        "RST"@ != "PHASEDIR"@,
        "RST"@ != "PHASESTEP"@,
        "RST"@ != "PHASELOADREG"@,
        "RST"@ != "PLLWAKESYNC"@,
        "RST"@ != "ENCLKOP"@,
        "RST"@ != "LOCK"@,
        "RST"@ != "CLKINTFB"@,
        "RST"@ != "CLKOP"@,
        "RST"@ != "CLKOS"@,
        "RST"@ != "CLKOS2"@,
        "RST"@ != "CLKOS3"@,
        "STDBY"@ != "CLKI"@,
        "STDBY"@ != "CLKFB"@,
        "STDBY"@ != "PHASESEL0"@,
        "STDBY"@ != "PHASESEL1"@,
        "STDBY"@ != "PHASEDIR"@,
        "STDBY"@ != "PHASESTEP"@,
        "STDBY"@ != "PHASELOADREG"@,
        "STDBY"@ != "PLLWAKESYNC"@,
        "STDBY"@ != "ENCLKOP"@,
        "STDBY"@ != "LOCK"@,
        "STDBY"@ != "CLKINTFB"@,
        "STDBY"@ != "CLKOP"@,
        "STDBY"@ != "CLKOS"@,
        "STDBY"@ != "CLKOS2"@,
        "STDBY"@ != "CLKOS3"@,
        "CLKI"@ != "CLKFB"@,
        "CLKI"@ != "PHASESEL0"@,
        "CLKI"@ != "PHASESEL1"@,
        "CLKI"@ != "PHASEDIR"@,
        "CLKI"@ != "PHASESTEP"@,
        "CLKI"@ != "PHASELOADREG"@,
        "CLKI"@ != "PLLWAKESYNC"@,
        "CLKI"@ != "ENCLKOP"@,
        "CLKI"@ != "LOCK"@,
        "CLKI"@ != "CLKINTFB"@,
        "CLKI"@ != "CLKOP"@,
        "CLKI"@ != "CLKOS"@,
        "CLKI"@ != "CLKOS2"@,
        "CLKI"@ != "CLKOS3"@,
        "CLKFB"@ != "PHASESEL0"@,
        "CLKFB"@ != "PHASESEL1"@,
        "CLKFB"@ != "PHASEDIR"@,
        "CLKFB"@ != "PHASESTEP"@,
        "CLKFB"@ != "PHASELOADREG"@,
        "CLKFB"@ != "PLLWAKESYNC"@,
        "CLKFB"@ != "ENCLKOP"@,
        "CLKFB"@ != "LOCK"@,
        "CLKFB"@ != "CLKINTFB"@,
        "CLKFB"@ != "CLKOP"@,
        "CLKFB"@ != "CLKOS"@,
        "CLKFB"@ != "CLKOS2"@,
        "CLKFB"@ != "CLKOS3"@,
        "PHASESEL0"@ != "PHASESEL1"@,
        "PHASESEL0"@ != "PHASEDIR"@,
        "PHASESEL0"@ != "PHASESTEP"@,
        "PHASESEL0"@ != "PHASELOADREG"@,
        "PHASESEL0"@ != "PLLWAKESYNC"@,
        "PHASESEL0"@ != "ENCLKOP"@,
        "PHASESEL0"@ != "LOCK"@,
        "PHASESEL0"@ != "CLKINTFB"@,
        "PHASESEL0"@ != "CLKOP"@,
        "PHASESEL0"@ != "CLKOS"@,
        "PHASESEL0"@ != "CLKOS2"@,
        "PHASESEL0"@ != "CLKOS3"@,
        "PHASESEL1"@ != "PHASEDIR"@,
        "PHASESEL1"@ != "PHASESTEP"@,
        "PHASESEL1"@ != "PHASELOADREG"@,
        "PHASESEL1"@ != "PLLWAKESYNC"@,
        "PHASESEL1"@ != "ENCLKOP"@,
        "PHASESEL1"@ != "LOCK"@,
        "PHASESEL1"@ != "CLKINTFB"@,
        "PHASESEL1"@ != "CLKOP"@,
        "PHASESEL1"@ != "CLKOS"@,
        "PHASESEL1"@ != "CLKOS2"@,
        "PHASESEL1"@ != "CLKOS3"@,
        "PHASEDIR"@ != "PHASESTEP"@,
        "PHASEDIR"@ != "PHASELOADREG"@,
        "PHASEDIR"@ != "PLLWAKESYNC"@,
        "PHASEDIR"@ != "ENCLKOP"@,
        "PHASEDIR"@ != "LOCK"@,
        "PHASEDIR"@ != "CLKINTFB"@,
        "PHASEDIR"@ != "CLKOP"@,
        "PHASEDIR"@ != "CLKOS"@,
        "PHASEDIR"@ != "CLKOS2"@,
        "PHASEDIR"@ != "CLKOS3"@,
        "PHASESTEP"@ != "PHASELOADREG"@,
        "PHASESTEP"@ != "PLLWAKESYNC"@,
        "PHASESTEP"@ != "ENCLKOP"@,
        "PHASESTEP"@ != "LOCK"@,
        "PHASESTEP"@ != "CLKINTFB"@,
        "PHASESTEP"@ != "CLKOP"@,
        "PHASESTEP"@ != "CLKOS"@,
        "PHASESTEP"@ != "CLKOS2"@,
        "PHASESTEP"@ != "CLKOS3"@,
        "PHASELOADREG"@ != "PLLWAKESYNC"@,
        "PHASELOADREG"@ != "ENCLKOP"@,
        "PHASELOADREG"@ != "LOCK"@,
        "PHASELOADREG"@ != "CLKINTFB"@,
        "PHASELOADREG"@ != "CLKOP"@,
        "PHASELOADREG"@ != "CLKOS"@,
        "PHASELOADREG"@ != "CLKOS2"@,
        "PHASELOADREG"@ != "CLKOS3"@,
        "PLLWAKESYNC"@ != "ENCLKOP"@,
        "PLLWAKESYNC"@ != "LOCK"@,
        "PLLWAKESYNC"@ != "CLKINTFB"@,
        "PLLWAKESYNC"@ != "CLKOP"@,
        "PLLWAKESYNC"@ != "CLKOS"@,
        "PLLWAKESYNC"@ != "CLKOS2"@,
        "PLLWAKESYNC"@ != "CLKOS3"@,
        "ENCLKOP"@ != "LOCK"@,
        "ENCLKOP"@ != "CLKINTFB"@,
        "ENCLKOP"@ != "CLKOP"@,
        "ENCLKOP"@ != "CLKOS"@,
        "ENCLKOP"@ != "CLKOS2"@,
        "ENCLKOP"@ != "CLKOS3"@,
        "LOCK"@ != "CLKINTFB"@,
        "LOCK"@ != "CLKOP"@,
        "LOCK"@ != "CLKOS"@,
        "LOCK"@ != "CLKOS2"@,
        "LOCK"@ != "CLKOS3"@,
        "CLKINTFB"@ != "CLKOP"@,
        "CLKINTFB"@ != "CLKOS"@,
        "CLKINTFB"@ != "CLKOS2"@,
        "CLKINTFB"@ != "CLKOS3"@,
        "CLKOP"@ != "CLKOS"@,
        "CLKOP"@ != "CLKOS2"@,
        "CLKOP"@ != "CLKOS3"@,
        "CLKOS"@ != "CLKOS2"@,
        "CLKOS"@ != "CLKOS3"@,
        "CLKOS2"@ != "CLKOS3"@,
{
    reveal_strlit("RST");
    reveal_strlit("STDBY");
    reveal_strlit("CLKI");
    reveal_strlit("CLKFB");
    reveal_strlit("PHASESEL0");
    reveal_strlit("PHASESEL1");
    reveal_strlit("PHASEDIR");
    reveal_strlit("PHASESTEP");
    reveal_strlit("PHASELOADREG");
    reveal_strlit("PLLWAKESYNC");
    reveal_strlit("ENCLKOP");
    reveal_strlit("LOCK");
    reveal_strlit("CLKINTFB");
    reveal_strlit("CLKOP");
    reveal_strlit("CLKOS");
    reveal_strlit("CLKOS2");
    reveal_strlit("CLKOS3");
    assert("RST"@.len() == 3);
    assert("STDBY"@.len() == 5);
    assert("CLKI"@.len() == 4);
    assert("CLKFB"@.len() == 5);
    assert("PHASESEL0"@.len() == 9);
    assert("PHASESEL1"@.len() == 9);
    assert("PHASEDIR"@.len() == 8);
    assert("PHASESTEP"@.len() == 9);
    assert("PHASELOADREG"@.len() == 12);
    assert("PLLWAKESYNC"@.len() == 11);
    assert("ENCLKOP"@.len() == 7);
    assert("LOCK"@.len() == 4);
    assert("CLKINTFB"@.len() == 8);
    assert("CLKOP"@.len() == 5);
    assert("CLKOS"@.len() == 5);
    assert("CLKOS2"@.len() == 6);
    assert("CLKOS3"@.len() == 6);
    assert("STDBY"@[0] == 'S');
    assert("CLKI"@[0] == 'C');
    assert("CLKFB"@[0] == 'C');
    assert("CLKFB"@[3] == 'F');
    assert("PHASESEL0"@[6] == 'E');
    assert("PHASESEL0"@[8] == '0');
    assert("PHASESEL1"@[6] == 'E');
    assert("PHASESEL1"@[8] == '1');
    assert("PHASEDIR"@[0] == 'P');
    assert("PHASESTEP"@[6] == 'T');
    assert("LOCK"@[0] == 'L');
    assert("CLKINTFB"@[0] == 'C');
    assert("CLKOP"@[0] == 'C');
    assert("CLKOP"@[3] == 'O');
    assert("CLKOP"@[4] == 'P');
    assert("CLKOS"@[0] == 'C');
    assert("CLKOS"@[3] == 'O');
    assert("CLKOS"@[4] == 'S');
    assert("CLKOS2"@[5] == '2');
    assert("CLKOS3"@[5] == '3');
}

/// Whether two beginnings differ somewhere.
spec fn clash(a: Seq<char>, b: Seq<char>) -> bool {
    ||| a.len() > 0 && b.len() > 0 && a[0] != b[0]
    ||| a.len() > 1 && b.len() > 1 && a[1] != b[1]
    ||| a.len() > 2 && b.len() > 2 && a[2] != b[2]
    ||| a.len() > 3 && b.len() > 3 && a[3] != b[3]
}

proof fn lemma_tags()
    ensures
        clash("ADA"@, "DIA"@),
        clash("ADA"@, "CEA"@),
        clash("ADA"@, "OCEA"@),
        clash("ADA"@, "CLKA"@),
        clash("ADA"@, "WEA"@),
        clash("ADA"@, "RSTA"@),
        clash("ADA"@, "CSA"@),
        clash("ADA"@, "ADB"@),
        clash("ADA"@, "DIB"@),
        clash("ADA"@, "CEB"@),
        clash("ADA"@, "OCEB"@),
        clash("ADA"@, "CLKB"@),
        clash("ADA"@, "WEB"@),
        clash("ADA"@, "RSTB"@),
        clash("ADA"@, "CSB"@),
        clash("ADA"@, "DOA"@),
        clash("ADA"@, "DOB"@),
        clash("DIA"@, "CEA"@),
        clash("DIA"@, "OCEA"@),
        clash("DIA"@, "CLKA"@),
        clash("DIA"@, "WEA"@),
        clash("DIA"@, "RSTA"@),
        clash("DIA"@, "CSA"@),
        clash("DIA"@, "ADB"@),
        clash("DIA"@, "DIB"@),
        clash("DIA"@, "CEB"@),
        clash("DIA"@, "OCEB"@),
        clash("DIA"@, "CLKB"@),
        clash("DIA"@, "WEB"@),
        clash("DIA"@, "RSTB"@),
        clash("DIA"@, "CSB"@),
        clash("DIA"@, "DOA"@),
        clash("DIA"@, "DOB"@),
        clash("CEA"@, "OCEA"@),
        clash("CEA"@, "CLKA"@),
        clash("CEA"@, "WEA"@),
        clash("CEA"@, "RSTA"@),
        clash("CEA"@, "CSA"@),
        clash("CEA"@, "ADB"@),
        clash("CEA"@, "DIB"@),
        clash("CEA"@, "CEB"@),
        clash("CEA"@, "OCEB"@),
        clash("CEA"@, "CLKB"@),
        clash("CEA"@, "WEB"@),
        clash("CEA"@, "RSTB"@),
        clash("CEA"@, "CSB"@),
        clash("CEA"@, "DOA"@),
        clash("CEA"@, "DOB"@),
        clash("OCEA"@, "CLKA"@),
        clash("OCEA"@, "WEA"@),
        clash("OCEA"@, "RSTA"@),
        clash("OCEA"@, "CSA"@),
        clash("OCEA"@, "ADB"@),
        clash("OCEA"@, "DIB"@),
        clash("OCEA"@, "CEB"@),
        clash("OCEA"@, "OCEB"@),
        clash("OCEA"@, "CLKB"@),
        clash("OCEA"@, "WEB"@),
        clash("OCEA"@, "RSTB"@),
        clash("OCEA"@, "CSB"@),
        clash("OCEA"@, "DOA"@),
        clash("OCEA"@, "DOB"@),
        clash("CLKA"@, "WEA"@),
        clash("CLKA"@, "RSTA"@),
        clash("CLKA"@, "CSA"@),
        clash("CLKA"@, "ADB"@),
        clash("CLKA"@, "DIB"@),
        clash("CLKA"@, "CEB"@),
        clash("CLKA"@, "OCEB"@),
        clash("CLKA"@, "CLKB"@),
        clash("CLKA"@, "WEB"@),
        clash("CLKA"@, "RSTB"@),
        clash("CLKA"@, "CSB"@),
        clash("CLKA"@, "DOA"@),
        clash("CLKA"@, "DOB"@),
        clash("WEA"@, "RSTA"@),
        clash("WEA"@, "CSA"@),
        clash("WEA"@, "ADB"@),
        clash("WEA"@, "DIB"@),
        clash("WEA"@, "CEB"@),
        clash("WEA"@, "OCEB"@),
        clash("WEA"@, "CLKB"@),
        clash("WEA"@, "WEB"@),
        clash("WEA"@, "RSTB"@),
        clash("WEA"@, "CSB"@),
        clash("WEA"@, "DOA"@),
        clash("WEA"@, "DOB"@),
        clash("RSTA"@, "CSA"@),
        clash("RSTA"@, "ADB"@),
        clash("RSTA"@, "DIB"@),
        clash("RSTA"@, "CEB"@),
        clash("RSTA"@, "OCEB"@),
        clash("RSTA"@, "CLKB"@),
        clash("RSTA"@, "WEB"@),
        clash("RSTA"@, "RSTB"@),
        clash("RSTA"@, "CSB"@),
        clash("RSTA"@, "DOA"@),
        clash("RSTA"@, "DOB"@),
        clash("CSA"@, "ADB"@),
        clash("CSA"@, "DIB"@),
        clash("CSA"@, "CEB"@),
        clash("CSA"@, "OCEB"@),
        clash("CSA"@, "CLKB"@),
        clash("CSA"@, "WEB"@),
        clash("CSA"@, "RSTB"@),
        clash("CSA"@, "CSB"@),
        clash("CSA"@, "DOA"@),
        clash("CSA"@, "DOB"@),
        clash("ADB"@, "DIB"@),
        clash("ADB"@, "CEB"@),
        clash("ADB"@, "OCEB"@),
        clash("ADB"@, "CLKB"@),
        clash("ADB"@, "WEB"@),
        clash("ADB"@, "RSTB"@),
        clash("ADB"@, "CSB"@),
        clash("ADB"@, "DOA"@),
        clash("ADB"@, "DOB"@),
        clash("DIB"@, "CEB"@),
        clash("DIB"@, "OCEB"@),
        clash("DIB"@, "CLKB"@),
        clash("DIB"@, "WEB"@),
        clash("DIB"@, "RSTB"@),
        clash("DIB"@, "CSB"@),
        clash("DIB"@, "DOA"@),
        clash("DIB"@, "DOB"@),
        clash("CEB"@, "OCEB"@),
        clash("CEB"@, "CLKB"@),
        clash("CEB"@, "WEB"@),
        clash("CEB"@, "RSTB"@),
        clash("CEB"@, "CSB"@),
        clash("CEB"@, "DOA"@),
        clash("CEB"@, "DOB"@),
        clash("OCEB"@, "CLKB"@),
        clash("OCEB"@, "WEB"@),
        clash("OCEB"@, "RSTB"@),
        clash("OCEB"@, "CSB"@),
        clash("OCEB"@, "DOA"@),
        clash("OCEB"@, "DOB"@),
        clash("CLKB"@, "WEB"@),
        clash("CLKB"@, "RSTB"@),
        clash("CLKB"@, "CSB"@),
        clash("CLKB"@, "DOA"@),
        clash("CLKB"@, "DOB"@),
        clash("WEB"@, "RSTB"@),
        clash("WEB"@, "CSB"@),
        clash("WEB"@, "DOA"@),
        clash("WEB"@, "DOB"@),
        clash("RSTB"@, "CSB"@),
        clash("RSTB"@, "DOA"@),
        clash("RSTB"@, "DOB"@),
        clash("CSB"@, "DOA"@),
        clash("CSB"@, "DOB"@),
        clash("DOA"@, "DOB"@),
{
    reveal_strlit("ADA");
    reveal_strlit("DIA");
    reveal_strlit("CEA");
    reveal_strlit("OCEA");
    reveal_strlit("CLKA");
    reveal_strlit("WEA");
    reveal_strlit("RSTA");
    reveal_strlit("CSA");
    reveal_strlit("ADB");
    reveal_strlit("DIB");
    reveal_strlit("CEB");
    reveal_strlit("OCEB");
    reveal_strlit("CLKB");
    reveal_strlit("WEB");
    reveal_strlit("RSTB");
    reveal_strlit("CSB");
    reveal_strlit("DOA");
    reveal_strlit("DOB");
    assert("ADA"@.len() == 3);
    assert("DIA"@.len() == 3);
    assert("CEA"@.len() == 3);
    assert("OCEA"@.len() == 4);
    assert("CLKA"@.len() == 4);
    assert("WEA"@.len() == 3);
    assert("RSTA"@.len() == 4);
    assert("CSA"@.len() == 3);
    assert("ADB"@.len() == 3);
    assert("DIB"@.len() == 3);
    assert("CEB"@.len() == 3);
    assert("OCEB"@.len() == 4);
    assert("CLKB"@.len() == 4);
    assert("WEB"@.len() == 3);
    assert("RSTB"@.len() == 4);
    assert("CSB"@.len() == 3);
    assert("DOA"@.len() == 3);
    assert("DOB"@.len() == 3);
    assert("ADA"@[0] == 'A');
    assert("ADA"@[2] == 'A');
    assert("DIA"@[0] == 'D');
    assert("DIA"@[1] == 'I');
    assert("DIA"@[2] == 'A');
    assert("CEA"@[0] == 'C');
    assert("CEA"@[1] == 'E');
    assert("CEA"@[2] == 'A');
    assert("OCEA"@[0] == 'O');
    assert("OCEA"@[3] == 'A');
    assert("CLKA"@[0] == 'C');
    assert("CLKA"@[1] == 'L');
    assert("CLKA"@[3] == 'A');
    assert("WEA"@[0] == 'W');
    assert("WEA"@[2] == 'A');
    assert("RSTA"@[0] == 'R');
    assert("RSTA"@[3] == 'A');
    assert("CSA"@[0] == 'C');
    assert("CSA"@[1] == 'S');
    assert("CSA"@[2] == 'A');
    assert("ADB"@[0] == 'A');
    assert("ADB"@[2] == 'B');
    assert("DIB"@[0] == 'D');
    assert("DIB"@[1] == 'I');
    assert("DIB"@[2] == 'B');
    assert("CEB"@[0] == 'C');
    assert("CEB"@[1] == 'E');
    assert("CEB"@[2] == 'B');
    assert("OCEB"@[0] == 'O');
    assert("OCEB"@[3] == 'B');
    assert("CLKB"@[0] == 'C');
    assert("CLKB"@[1] == 'L');
    assert("CLKB"@[3] == 'B');
    assert("WEB"@[0] == 'W');
    assert("WEB"@[2] == 'B');
    assert("RSTB"@[0] == 'R');
    assert("RSTB"@[3] == 'B');
    assert("CSB"@[0] == 'C');
    assert("CSB"@[1] == 'S');
    assert("CSB"@[2] == 'B');
    assert("DOA"@[0] == 'D');
    assert("DOA"@[1] == 'O');
    assert("DOA"@[2] == 'A');
    assert("DOB"@[0] == 'D');
    assert("DOB"@[1] == 'O');
    assert("DOB"@[2] == 'B');
}

/// Whether every name begins with `tag`.
spec fn is_tagged(entries: Seq<(Seq<char>, PinModel)>, tag: Seq<char>) -> bool {
    forall|i: int| 0 <= i < entries.len() ==> begins_with((#[trigger] entries[i]).0, tag)
}

/// Whether every name begins with one of `tags`.
spec fn has_tags(entries: Seq<(Seq<char>, PinModel)>, tags: Seq<Seq<char>>) -> bool {
    forall|i: int| 0 <= i < entries.len() ==> has_tag((#[trigger] entries[i]).0, tags)
}

/// Whether a name begins with one of `tags`.
spec fn has_tag(name: Seq<char>, tags: Seq<Seq<char>>) -> bool {
    exists|k: int| 0 <= k < tags.len() && begins_with(name, #[trigger] tags[k])
}

proof fn lemma_clash(a: Seq<char>, s: Seq<char>, b: Seq<char>, t: Seq<char>)
    requires
        begins_with(a, s),
        begins_with(b, t),
        clash(s, t) || clash(t, s),
    ensures
        a != b,
{
    assert forall|k: int| 0 <= k < s.len() implies a[k] == #[trigger] s[k] by {
        assert(a.take(s.len() as int)[k] == a[k]);
    }
    assert forall|k: int| 0 <= k < t.len() implies b[k] == #[trigger] t[k] by {
        assert(b.take(t.len() as int)[k] == b[k]);
    }
}

/// Whether no two entries share a name.
spec fn pins_apart(entries: Seq<(Seq<char>, PinModel)>) -> bool {
    forall|i: int, j: int|
        0 <= i < j < entries.len() ==> (#[trigger] entries[i]).0 != (#[trigger] entries[j]).0
}

proof fn lemma_segment(
    front: Seq<(Seq<char>, PinModel)>,
    tags: Seq<Seq<char>>,
    more: Seq<(Seq<char>, PinModel)>,
    tag: Seq<char>,
)
    requires
        pins_apart(front),
        has_tags(front, tags),
        pins_apart(more),
        is_tagged(more, tag),
        forall|k: int| 0 <= k < tags.len() ==> clash(#[trigger] tags[k], tag),
    ensures
        pins_apart(front + more),
        has_tags(front + more, tags.push(tag)),
{
    let all = front + more;
    let n = front.len() as int;
    let later = tags.push(tag);
    assert forall|i: int, j: int| 0 <= i < j < all.len() implies (#[trigger] all[i]).0 != (
    #[trigger] all[j]).0 by {
        if j < n {
            assert(all[i] == front[i] && all[j] == front[j]);
        } else if i >= n {
            assert(all[i] == more[i - n] && all[j] == more[j - n]);
        } else {
            assert(all[i] == front[i] && all[j] == more[j - n]);
            let k = choose|k: int|
                0 <= k < tags.len() && begins_with(front[i].0, #[trigger] tags[k]);
            lemma_clash(front[i].0, tags[k], more[j - n].0, tag);
        }
    }
    assert forall|i: int| 0 <= i < all.len() implies has_tag((#[trigger] all[i]).0, later) by {
        if i < n {
            assert(all[i] == front[i]);
            let k = choose|k: int|
                0 <= k < tags.len() && begins_with(front[i].0, #[trigger] tags[k]);
            assert(later[k] == tags[k]);
        } else {
            assert(all[i] == more[i - n]);
            assert(later[tags.len() as int] == tag);
        }
    }
}

proof fn lemma_bus_apart(name: Seq<char>, bits: Seq<Bit>)
    ensures
        pins_apart(reads_bus(name, bits)),
        is_tagged(reads_bus(name, bits), name),
{
    let all = reads_bus(name, bits);
    assert forall|i: int, j: int| 0 <= i < j < all.len() implies (#[trigger] all[i]).0 != (
    #[trigger] all[j]).0 by {
        lemma_numbered_apart(name, i as nat, j as nat);
    }
    assert forall|i: int| 0 <= i < all.len() implies begins_with((#[trigger] all[i]).0, name) by {
        assert((name + decimal_text(i as nat)).take(name.len() as int) =~= name);
    }
}

proof fn lemma_driven_apart(name: Seq<char>, wires: Seq<u32>)
    ensures
        pins_apart(drives_bus(name, wires)),
        is_tagged(drives_bus(name, wires), name),
{
    let all = drives_bus(name, wires);
    assert forall|i: int, j: int| 0 <= i < j < all.len() implies (#[trigger] all[i]).0 != (
    #[trigger] all[j]).0 by {
        lemma_numbered_apart(name, i as nat, j as nat);
    }
    assert forall|i: int| 0 <= i < all.len() implies begins_with((#[trigger] all[i]).0, name) by {
        assert((name + decimal_text(i as nat)).take(name.len() as int) =~= name);
    }
}

proof fn lemma_numbered_apart(name: Seq<char>, i: nat, j: nat)
    requires
        i != j,
    ensures
        name + decimal_text(i) != name + decimal_text(j),
{
    if name + decimal_text(i) == name + decimal_text(j) {
        let head = name.len() as int;
        assert((name + decimal_text(i)).skip(head) =~= decimal_text(i));
        assert((name + decimal_text(j)).skip(head) =~= decimal_text(j));
        lemma_decimal_injective(i, j);
    }
}

proof fn lemma_single(entry: (Seq<char>, PinModel))
    ensures
        pins_apart(seq![entry]),
        is_tagged(seq![entry], entry.0),
{
    assert(entry.0.take(entry.0.len() as int) =~= entry.0);
}

/// The segments of the pins of one port, with the names that its pins begin with.
proof fn lemma_port_segments(
    front: Seq<(Seq<char>, PinModel)>,
    tags: Seq<Seq<char>>,
    names: Seq<Seq<char>>,
    address: [Bit; 14],
    data: Seq<Bit>,
    controls: Seq<(Seq<char>, PinModel)>,
)
    requires
        pins_apart(front),
        has_tags(front, tags),
        names.len() == 8,
        controls.len() == 5,
        forall|k: int| 0 <= k < 5 ==> (#[trigger] controls[k]).0 == names[k + 2],
        forall|i: int, j: int|
            0 <= i < j < 8 ==> clash(#[trigger] names[i], #[trigger] names[j]),
        forall|i: int, j: int|
            0 <= i < tags.len() && 0 <= j < 8 ==> clash(#[trigger] tags[i], #[trigger] names[j]),
    ensures
        ({
            let all = front + ram_port_pins(names[0], names[1], names[7], controls, address, data);
            pins_apart(all) && has_tags(all, tags + names)
        }),
{
    let selects = seq![Bit::Zero, Bit::Zero, Bit::Zero];
    lemma_bus_apart(names[0], address@);
    lemma_bus_apart(names[1], data_pins(data));
    lemma_bus_apart(names[7], selects);
    let t0 = tags.push(names[0]);
    let f0 = front + reads_bus(names[0], address@);
    lemma_segment(front, tags, reads_bus(names[0], address@), names[0]);
    let t1 = t0.push(names[1]);
    let f1 = f0 + reads_bus(names[1], data_pins(data));
    assert forall|k: int| 0 <= k < t0.len() implies clash(#[trigger] t0[k], names[1]) by {
        assert(k < tags.len() ==> t0[k] == tags[k]);
    }
    lemma_segment(f0, t0, reads_bus(names[1], data_pins(data)), names[1]);
    lemma_single(controls[0]);
    let t2 = t1.push(names[2]);
    let f2 = f1 + seq![controls[0]];
    assert forall|k: int| 0 <= k < t1.len() implies clash(#[trigger] t1[k], names[2]) by {
        assert(k < tags.len() ==> t1[k] == tags[k]);
        assert(k >= tags.len() ==> t1[k] == names[k - tags.len()]);
    }
    lemma_segment(f1, t1, seq![controls[0]], names[2]);
    lemma_single(controls[1]);
    let t3 = t2.push(names[3]);
    let f3 = f2 + seq![controls[1]];
    assert forall|k: int| 0 <= k < t2.len() implies clash(#[trigger] t2[k], names[3]) by {
        assert(k < tags.len() ==> t2[k] == tags[k]);
        assert(k >= tags.len() ==> t2[k] == names[k - tags.len()]);
    }
    lemma_segment(f2, t2, seq![controls[1]], names[3]);
    lemma_single(controls[2]);
    let t4 = t3.push(names[4]);
    let f4 = f3 + seq![controls[2]];
    assert forall|k: int| 0 <= k < t3.len() implies clash(#[trigger] t3[k], names[4]) by {
        assert(k < tags.len() ==> t3[k] == tags[k]);
        assert(k >= tags.len() ==> t3[k] == names[k - tags.len()]);
    }
    lemma_segment(f3, t3, seq![controls[2]], names[4]);
    lemma_single(controls[3]);
    let t5 = t4.push(names[5]);
    let f5 = f4 + seq![controls[3]];
    assert forall|k: int| 0 <= k < t4.len() implies clash(#[trigger] t4[k], names[5]) by {
        assert(k < tags.len() ==> t4[k] == tags[k]);
        assert(k >= tags.len() ==> t4[k] == names[k - tags.len()]);
    }
    lemma_segment(f4, t4, seq![controls[3]], names[5]);
    lemma_single(controls[4]);
    let t6 = t5.push(names[6]);
    let f6 = f5 + seq![controls[4]];
    assert forall|k: int| 0 <= k < t5.len() implies clash(#[trigger] t5[k], names[6]) by {
        assert(k < tags.len() ==> t5[k] == tags[k]);
        assert(k >= tags.len() ==> t5[k] == names[k - tags.len()]);
    }
    lemma_segment(f5, t5, seq![controls[4]], names[6]);
    assert forall|k: int| 0 <= k < t6.len() implies clash(#[trigger] t6[k], names[7]) by {
        assert(k < tags.len() ==> t6[k] == tags[k]);
        assert(k >= tags.len() ==> t6[k] == names[k - tags.len()]);
    }
    lemma_segment(f6, t6, reads_bus(names[7], selects), names[7]);
    assert(t6.push(names[7]) =~= tags + names);
    assert(f6 + reads_bus(names[7], selects) =~= front + ram_port_pins(
        names[0],
        names[1],
        names[7],
        controls,
        address,
        data,
    ));
}

/// Every pin of a block RAM is found by its name.
#[verifier::rlimit(60)]
proof fn lemma_block_pins(cell: CellModel)
    requires
        cell is BlockRam,
        cell->BlockRam_implementation == Ecp5MemoryImplementation::Block,
    ensures
        pins_apart(pins_of(cell)),
        primitive(cell).pins == by_name(pins_of(cell)),
{
    let first = seq!["ADA"@, "DIA"@, "CEA"@, "OCEA"@, "CLKA"@, "WEA"@, "RSTA"@, "CSA"@];
    let second = seq!["ADB"@, "DIB"@, "CEB"@, "OCEB"@, "CLKB"@, "WEB"@, "RSTB"@, "CSB"@];
    let none = Seq::<(Seq<char>, PinModel)>::empty();
    let port = cell->BlockRam_second_port;
    let a = first_controls(
        cell->BlockRam_write_enable,
        cell->BlockRam_clock_enable,
        cell->BlockRam_clock,
    );
    let b = second_controls(cell->BlockRam_read_enable, cell->BlockRam_clock, port);
    lemma_tags();
    assert forall|i: int, j: int| 0 <= i < j < 8 implies clash(
        #[trigger] first[i],
        #[trigger] first[j],
    ) by {
        assert(i == 0 || i == 1 || i == 2 || i == 3 || i == 4 || i == 5 || i == 6 || i == 7);
        assert(j == 0 || j == 1 || j == 2 || j == 3 || j == 4 || j == 5 || j == 6 || j == 7);
    }
    assert forall|i: int, j: int| 0 <= i < j < 8 implies clash(
        #[trigger] second[i],
        #[trigger] second[j],
    ) by {
        assert(i == 0 || i == 1 || i == 2 || i == 3 || i == 4 || i == 5 || i == 6 || i == 7);
        assert(j == 0 || j == 1 || j == 2 || j == 3 || j == 4 || j == 5 || j == 6 || j == 7);
    }
    assert forall|i: int, j: int| 0 <= i < 8 && 0 <= j < 8 implies clash(
        #[trigger] first[i],
        #[trigger] second[j],
    ) by {
        assert(i == 0 || i == 1 || i == 2 || i == 3 || i == 4 || i == 5 || i == 6 || i == 7);
        assert(j == 0 || j == 1 || j == 2 || j == 3 || j == 4 || j == 5 || j == 6 || j == 7);
    }
    assert forall|k: int| 0 <= k < 5 implies (#[trigger] a[k]).0 == first[k + 2] by {
        assert(k == 0 || k == 1 || k == 2 || k == 3 || k == 4);
    }
    assert forall|k: int| 0 <= k < 5 implies (#[trigger] b[k]).0 == second[k + 2] by {
        assert(k == 0 || k == 1 || k == 2 || k == 3 || k == 4);
    }
    let tags = Seq::<Seq<char>>::empty();
    lemma_port_segments(
        none,
        tags,
        first,
        cell->BlockRam_write_address,
        cell->BlockRam_write_data,
        a,
    );
    let one = none + ram_port_pins(
        "ADA"@,
        "DIA"@,
        "CSA"@,
        a,
        cell->BlockRam_write_address,
        cell->BlockRam_write_data,
    );
    assert(tags + first =~= first);
    let (address, data) = match port {
        Some(port) => (port.address, port.write_data),
        None => (cell->BlockRam_read_address, Seq::<Bit>::empty()),
    };
    lemma_port_segments(one, first, second, address, data, b);
    let two = one + ram_port_pins("ADB"@, "DIB"@, "CSB"@, b, address, data);
    let both = first + second;
    assert forall|k: int| 0 <= k < both.len() implies clash(#[trigger] both[k], "DOA"@) && clash(
        both[k],
        "DOB"@,
    ) by {
        assert(k == 0 || k == 1 || k == 2 || k == 3 || k == 4 || k == 5 || k == 6 || k == 7 || k == 8 || k == 9 || k == 10 || k == 11 || k == 12 || k == 13 || k == 14 || k == 15);
    }
    let reads = cell->BlockRam_read_data;
    if let Some(port) = port {
        lemma_driven_apart("DOA"@, reads);
        lemma_driven_apart("DOB"@, port.read_data);
        lemma_segment(two, both, drives_bus("DOA"@, reads), "DOA"@);
        let three = two + drives_bus("DOA"@, reads);
        let more = both.push("DOA"@);
        assert forall|k: int| 0 <= k < more.len() implies clash(#[trigger] more[k], "DOB"@) by {
            assert(k < 16 ==> more[k] == both[k]);
        }
        lemma_segment(three, more, drives_bus("DOB"@, port.read_data), "DOB"@);
        assert(pins_of(cell) =~= three + drives_bus("DOB"@, port.read_data));
    } else {
        lemma_driven_apart("DOB"@, reads);
        lemma_segment(two, both, drives_bus("DOB"@, reads), "DOB"@);
        assert(pins_of(cell) =~= two + drives_bus("DOB"@, reads));
    }
}

/// The pins of a block RAM as they are entered.
spec fn pins_of(cell: CellModel) -> Seq<(Seq<char>, PinModel)> {
    block_ram_pins(
        cell->BlockRam_write_address,
        cell->BlockRam_write_data,
        cell->BlockRam_write_enable,
        cell->BlockRam_read_address,
        cell->BlockRam_read_data,
        cell->BlockRam_read_enable,
        cell->BlockRam_clock_enable,
        cell->BlockRam_clock,
        cell->BlockRam_second_port,
    )
}

proof fn lemma_pin_found(cell: CellModel, at: int, entry: (Seq<char>, PinModel))
    requires
        pins_apart(pins_of(cell)),
        primitive(cell).pins == by_name(pins_of(cell)),
        0 <= at < pins_of(cell).len(),
        pins_of(cell)[at] == entry,
    ensures
        named(primitive(cell).pins, entry.0) == Some(entry.1),
{
    let pins = pins_of(cell);
    assert forall|j: int| at < j < pins.len() implies (#[trigger] pins[j]).0 != pins[at].0 by {
        assert(pins[at].0 != pins[j].0);
    }
    lemma_last_named(pins, at);
}

/// Bit `i` of the data of a port; bits past the word are zero.
pub open spec fn data_at(data: Seq<Bit>, i: int) -> Bit {
    if i < data.len() {
        data[i]
    } else {
        Bit::Zero
    }
}

/// Whether the tool reads a bus of a block RAM, bit by bit, on numbered pins.
pub open spec fn has_address(cell: JsonCellModel, name: Seq<char>, pins: [Bit; 14]) -> bool {
    forall|i: nat| i < 14 ==> has_input(cell, name + #[trigger] decimal_text(i), pins[i as int])
}

/// Whether the tool reads the data of a port on eighteen numbered pins.
pub open spec fn has_data(cell: JsonCellModel, name: Seq<char>, data: Seq<Bit>) -> bool {
    forall|i: nat|
        i < 18 ==> has_input(cell, name + #[trigger] decimal_text(i), data_at(data, i as int))
}

/// Whether the tool finds the wires of a port on numbered pins.
pub open spec fn has_wires(cell: JsonCellModel, name: Seq<char>, wires: Seq<u32>) -> bool {
    forall|i: nat|
        i < wires.len() ==> has_output(cell, name + #[trigger] decimal_text(i), wires[i as int])
}

/// A written block RAM has every address, data and output bit of the mapped one on the
/// numbered pin of its port. A port without a partner writes on port A and reads on port
/// B; of two ports the first is A and the second B.
#[verifier::rlimit(80)]
pub proof fn law_written_block_ram_is_wired(cell: CellModel)
    requires
        cell is BlockRam,
        cell->BlockRam_implementation == Ecp5MemoryImplementation::Block,
    ensures
        primitive(cell).kind == "DP16KD"@,
        has_address(primitive(cell), "ADA"@, cell->BlockRam_write_address),
        has_data(primitive(cell), "DIA"@, cell->BlockRam_write_data),
        match cell->BlockRam_second_port {
            Some(port) => {
                &&& has_address(primitive(cell), "ADB"@, port.address)
                &&& has_data(primitive(cell), "DIB"@, port.write_data)
                &&& has_wires(primitive(cell), "DOA"@, cell->BlockRam_read_data)
                &&& has_wires(primitive(cell), "DOB"@, port.read_data)
            },
            None => {
                &&& has_address(primitive(cell), "ADB"@, cell->BlockRam_read_address)
                &&& has_data(primitive(cell), "DIB"@, seq![])
                &&& has_wires(primitive(cell), "DOB"@, cell->BlockRam_read_data)
                &&& has_input(primitive(cell), "WEB"@, Bit::Zero)
            },
        },
        has_input(primitive(cell), "RSTA"@, Bit::Zero),
        has_input(primitive(cell), "RSTB"@, Bit::Zero),
        has_input(primitive(cell), "OCEA"@, Bit::One),
        has_input(primitive(cell), "OCEB"@, Bit::One),
        forall|i: nat|
            i < 3 ==> has_input(primitive(cell), "CSA"@ + #[trigger] decimal_text(i), Bit::Zero),
        forall|i: nat|
            i < 3 ==> has_input(primitive(cell), "CSB"@ + #[trigger] decimal_text(i), Bit::Zero),
{
    let pins = pins_of(cell);
    let port = cell->BlockRam_second_port;
    lemma_block_pins(cell);
    let (address, data) = match port {
        Some(port) => (port.address, port.write_data),
        None => (cell->BlockRam_read_address, Seq::<Bit>::empty()),
    };
    assert forall|i: nat| i < 14 implies has_input(
        primitive(cell),
        "ADA"@ + #[trigger] decimal_text(i),
        cell->BlockRam_write_address[i as int],
    ) by {
        lemma_pin_found(
            cell,
            i as int,
            reads("ADA"@ + decimal_text(i), cell->BlockRam_write_address[i as int]),
        );
    }
    assert forall|i: nat| i < 18 implies has_input(
        primitive(cell),
        "DIA"@ + #[trigger] decimal_text(i),
        data_at(cell->BlockRam_write_data, i as int),
    ) by {
        lemma_pin_found(
            cell,
            14 + i as int,
            reads("DIA"@ + decimal_text(i), data_at(cell->BlockRam_write_data, i as int)),
        );
    }
    assert forall|i: nat| i < 14 implies has_input(
        primitive(cell),
        "ADB"@ + #[trigger] decimal_text(i),
        address[i as int],
    ) by {
        lemma_pin_found(cell, 40 + i as int, reads("ADB"@ + decimal_text(i), address[i as int]));
    }
    assert forall|i: nat| i < 18 implies has_input(
        primitive(cell),
        "DIB"@ + #[trigger] decimal_text(i),
        data_at(data, i as int),
    ) by {
        lemma_pin_found(cell, 54 + i as int, reads("DIB"@ + decimal_text(i), data_at(data, i as int)));
    }
    assert forall|i: nat| i < 3 implies has_input(
        primitive(cell),
        "CSA"@ + #[trigger] decimal_text(i),
        Bit::Zero,
    ) by {
        lemma_pin_found(cell, 37 + i as int, reads("CSA"@ + decimal_text(i), Bit::Zero));
    }
    assert forall|i: nat| i < 3 implies has_input(
        primitive(cell),
        "CSB"@ + #[trigger] decimal_text(i),
        Bit::Zero,
    ) by {
        lemma_pin_found(cell, 77 + i as int, reads("CSB"@ + decimal_text(i), Bit::Zero));
    }
    lemma_pin_found(cell, 33, reads("OCEA"@, Bit::One));
    lemma_pin_found(cell, 36, reads("RSTA"@, Bit::Zero));
    lemma_pin_found(cell, 73, reads("OCEB"@, Bit::One));
    lemma_pin_found(cell, 76, reads("RSTB"@, Bit::Zero));
    let wires = cell->BlockRam_read_data;
    if let Some(port) = port {
        assert forall|i: nat| i < wires.len() implies has_output(
            primitive(cell),
            "DOA"@ + #[trigger] decimal_text(i),
            wires[i as int],
        ) by {
            lemma_pin_found(cell, 80 + i as int, drives("DOA"@ + decimal_text(i), wires[i as int]));
        }
        assert forall|i: nat| i < port.read_data.len() implies has_output(
            primitive(cell),
            "DOB"@ + #[trigger] decimal_text(i),
            port.read_data[i as int],
        ) by {
            lemma_pin_found(
                cell,
                80 + wires.len() + i as int,
                drives("DOB"@ + decimal_text(i), port.read_data[i as int]),
            );
        }
    } else {
        lemma_pin_found(cell, 75, reads("WEB"@, Bit::Zero));
        assert forall|i: nat| i < wires.len() implies has_output(
            primitive(cell),
            "DOB"@ + #[trigger] decimal_text(i),
            wires[i as int],
        ) by {
            lemma_pin_found(cell, 80 + i as int, drives("DOB"@ + decimal_text(i), wires[i as int]));
        }
    }
}

/// Whether an optional control of a mapped RAM is asserted; without one it always is.
pub open spec fn control_on(values: spec_fn(u32) -> bool, control: Option<Control>) -> bool {
    control matches Some(control) ==> bit_value(values, control.signal) == (control.active is High)
}

/// A written block RAM is clocked and enabled as the mapped one: each port acts on its
/// edge, writes where its write enable is asserted, and is used where its clock enable
/// is; port B of a RAM with one port is used where its read enable is. Both ports are as
/// wide as the mapped RAM, give words without a further register, and keep what they gave
/// while they write.
#[verifier::rlimit(80)]
pub proof fn law_written_block_ram_is_controlled(
    before: spec_fn(u32) -> bool,
    after: spec_fn(u32) -> bool,
    cell: CellModel,
)
    requires
        cell is BlockRam,
        cell->BlockRam_implementation == Ecp5MemoryImplementation::Block,
    ensures
        ({
            let written = primitive(cell);
            let clock = cell->BlockRam_clock;
            let edge = cell->BlockRam_edge;
            let width = decimal_text(cell->BlockRam_physical_width as nat);
            &&& setting(written, "DATA_WIDTH_A"@) == width
            &&& setting(written, "DATA_WIDTH_B"@) == width
            &&& setting(written, "REGMODE_A"@) == "NOREG"@
            &&& setting(written, "REGMODE_B"@) == "NOREG"@
            &&& setting(written, "WRITEMODE_A"@) == "NORMAL"@
            &&& setting(written, "WRITEMODE_B"@) == "NORMAL"@
            &&& setting(written, "CSDECODE_A"@) == "0b000"@
            &&& setting(written, "CSDECODE_B"@) == "0b000"@
            &&& sees_edge(before, after, written, "CLKA"@, "CLKAMUX"@) == has_edge(
                bit_value(before, clock),
                bit_value(after, clock),
                edge,
            )
            &&& is_asserted(before, written, "WEA"@, "WEAMUX"@) == control_on(
                before,
                Some(cell->BlockRam_write_enable),
            )
            &&& is_asserted(before, written, "CEA"@, "CEAMUX"@) == control_on(
                before,
                cell->BlockRam_clock_enable,
            )
            &&& match cell->BlockRam_second_port {
                Some(port) => {
                    &&& sees_edge(before, after, written, "CLKB"@, "CLKBMUX"@) == has_edge(
                        bit_value(before, port.clock),
                        bit_value(after, port.clock),
                        port.edge,
                    )
                    &&& is_asserted(before, written, "WEB"@, "WEBMUX"@) == control_on(
                        before,
                        Some(port.write_enable),
                    )
                    &&& is_asserted(before, written, "CEB"@, "CEBMUX"@) == control_on(
                        before,
                        port.clock_enable,
                    )
                },
                None => {
                    &&& sees_edge(before, after, written, "CLKB"@, "CLKBMUX"@) == has_edge(
                        bit_value(before, clock),
                        bit_value(after, clock),
                        edge,
                    )
                    &&& is_asserted(before, written, "CEB"@, "CEBMUX"@) == control_on(
                        before,
                        cell->BlockRam_read_enable,
                    )
                },
            }
        }),
{
    let written = primitive(cell);
    let port = cell->BlockRam_second_port;
    let texts = block_ram_settings(
        cell->BlockRam_physical_width,
        cell->BlockRam_write_enable,
        cell->BlockRam_read_enable,
        cell->BlockRam_clock_enable,
        cell->BlockRam_edge,
        port,
    );
    lemma_block_settings();
    lemma_block_muxes();
    lemma_block_pins(cell);
    lemma_pin_found(
        cell,
        32,
        reads("CEA"@, control_bit(cell->BlockRam_clock_enable, Bit::One)),
    );
    lemma_pin_found(cell, 34, reads("CLKA"@, cell->BlockRam_clock));
    lemma_pin_found(cell, 35, reads("WEA"@, cell->BlockRam_write_enable.signal));
    if let Some(other) = port {
        lemma_pin_found(cell, 72, reads("CEB"@, control_bit(other.clock_enable, Bit::One)));
        lemma_pin_found(cell, 74, reads("CLKB"@, other.clock));
        lemma_pin_found(cell, 75, reads("WEB"@, other.write_enable.signal));
    } else {
        lemma_pin_found(
            cell,
            72,
            reads("CEB"@, control_bit(cell->BlockRam_read_enable, Bit::One)),
        );
        lemma_pin_found(cell, 74, reads("CLKB"@, cell->BlockRam_clock));
    }
    assert(texts[0].0 == "DATA_WIDTH_A"@);
    assert(texts[1].0 == "DATA_WIDTH_B"@);
    assert(texts[2].0 == "REGMODE_A"@);
    assert(texts[3].0 == "REGMODE_B"@);
    assert(texts[4].0 == "RESETMODE"@);
    assert(texts[5].0 == "ASYNC_RESET_RELEASE"@);
    assert(texts[6].0 == "CSDECODE_A"@);
    assert(texts[7].0 == "CSDECODE_B"@);
    assert(texts[8].0 == "WRITEMODE_A"@);
    assert(texts[9].0 == "WRITEMODE_B"@);
    assert(texts[10].0 == "GSR"@);
    assert(texts[11].0 == "CLKAMUX"@);
    assert(texts[12].0 == "CLKBMUX"@);
    assert(texts[13].0 == "WEAMUX"@);
    assert(texts[14].0 == "CEAMUX"@);
    assert(texts[15].0 == "CEBMUX"@);
    assert(port is Some ==> texts.len() == 17 && texts[16].0 == "WEBMUX"@);
    assert(port is None ==> texts.len() == 16);
    assert forall|i: int, j: int| 0 <= i < j < texts.len() implies (#[trigger] texts[i]).0 != (
    #[trigger] texts[j]).0 by {
        assert(i == 0 || i == 1 || i == 2 || i == 3 || i == 4 || i == 5 || i == 6 || i == 7 || i == 8 || i == 9 || i == 10 || i == 11 || i == 12 || i == 13 || i == 14 || i == 15 || i == 16);
        assert(j == 0 || j == 1 || j == 2 || j == 3 || j == 4 || j == 5 || j == 6 || j == 7 || j == 8 || j == 9 || j == 10 || j == 11 || j == 12 || j == 13 || j == 14 || j == 15 || j == 16);
    }
    assert forall|i: int| 0 <= i < texts.len() implies named(
        by_name(texts),
        (#[trigger] texts[i]).0,
    ) == Some(texts[i].1) by {
        lemma_last_named(texts, i);
    }
    assert(written.parameters == by_name(texts));
    assert(named(written.parameters, "DATA_WIDTH_A"@) == Some(texts[0].1));
    assert(named(written.parameters, "DATA_WIDTH_B"@) == Some(texts[1].1));
    assert(named(written.parameters, "REGMODE_A"@) == Some(texts[2].1));
    assert(named(written.parameters, "REGMODE_B"@) == Some(texts[3].1));
    assert(named(written.parameters, "RESETMODE"@) == Some(texts[4].1));
    assert(named(written.parameters, "ASYNC_RESET_RELEASE"@) == Some(texts[5].1));
    assert(named(written.parameters, "CSDECODE_A"@) == Some(texts[6].1));
    assert(named(written.parameters, "CSDECODE_B"@) == Some(texts[7].1));
    assert(named(written.parameters, "WRITEMODE_A"@) == Some(texts[8].1));
    assert(named(written.parameters, "WRITEMODE_B"@) == Some(texts[9].1));
    assert(named(written.parameters, "GSR"@) == Some(texts[10].1));
    assert(named(written.parameters, "CLKAMUX"@) == Some(texts[11].1));
    assert(named(written.parameters, "CLKBMUX"@) == Some(texts[12].1));
    assert(named(written.parameters, "WEAMUX"@) == Some(texts[13].1));
    assert(named(written.parameters, "CEAMUX"@) == Some(texts[14].1));
    assert(named(written.parameters, "CEBMUX"@) == Some(texts[15].1));
    assert(port is Some ==> named(written.parameters, "WEBMUX"@) == Some(texts[16].1));
}

/// The pin that carries an output of a PLL.
pub open spec fn output_pin(output: PllOutput) -> Seq<char> {
    if output is Clkop {
        "CLKOP"@
    } else if output is Clkos {
        "CLKOS"@
    } else if output is Clkos2 {
        "CLKOS2"@
    } else if output is Clkos3 {
        "CLKOS3"@
    } else {
        "CLKINTFB"@
    }
}

/// A written PLL has its reference clock on `CLKI`, its feedback on `CLKFB`, its lock on
/// `LOCK`, and each of its outputs on the pin of that output. It is neither reset nor put
/// to sleep.
#[verifier::rlimit(60)]
pub proof fn law_written_pll_is_bound(cell: CellModel, i: int)
    requires
        cell is Pll,
        cell->Pll_fabric_output == cell->Pll_feedback_output ==> cell->Pll_feedback_clock
            == cell->Pll_output_clock,
        forall|k: int|
            0 <= k < cell->Pll_additional_output_clocks.len() ==> (
            #[trigger] cell->Pll_additional_output_clocks[k]).0 != cell->Pll_fabric_output
                && cell->Pll_additional_output_clocks[k].0 != cell->Pll_feedback_output,
        forall|j: int, k: int|
            0 <= j < k < cell->Pll_additional_output_clocks.len() ==> (
            #[trigger] cell->Pll_additional_output_clocks[j]).0 != (
            #[trigger] cell->Pll_additional_output_clocks[k]).0,
    ensures
        ({
            let written = primitive(cell);
            &&& written.kind == "EHXPLLL"@
            &&& has_input(written, "CLKI"@, cell->Pll_reference_clock)
            &&& has_input(written, "CLKFB"@, Bit::Wire(cell->Pll_feedback_clock))
            &&& has_output(written, "LOCK"@, cell->Pll_locked)
            &&& has_input(written, "RST"@, Bit::Zero)
            &&& has_input(written, "STDBY"@, Bit::Zero)
            &&& has_input(written, "ENCLKOP"@, Bit::Zero)
            &&& has_output(
                written,
                output_pin(cell->Pll_feedback_output),
                cell->Pll_feedback_clock,
            )
            &&& has_output(written, output_pin(cell->Pll_fabric_output), cell->Pll_output_clock)
            &&& 0 <= i < cell->Pll_additional_output_clocks.len() ==> has_output(
                written,
                output_pin(cell->Pll_additional_output_clocks[i].0),
                cell->Pll_additional_output_clocks[i].1,
            )
            &&& written.attributes == cell->Pll_attributes
        }),
{
    let written = primitive(cell);
    let more = cell->Pll_additional_output_clocks;
    let pins = pll_pins(
        cell->Pll_reference_clock,
        cell->Pll_feedback_clock,
        cell->Pll_output_clock,
        more,
        cell->Pll_locked,
        cell->Pll_fabric_output,
        cell->Pll_feedback_output,
    );
    lemma_pll_names();
    assert(written.pins == by_name(pins));
    assert(pins[0].0 == "RST"@);
    assert(pins[1].0 == "STDBY"@);
    assert(pins[2].0 == "CLKI"@);
    assert(pins[3].0 == "CLKFB"@);
    assert(pins[4].0 == "PHASESEL0"@);
    assert(pins[5].0 == "PHASESEL1"@);
    assert(pins[6].0 == "PHASEDIR"@);
    assert(pins[7].0 == "PHASESTEP"@);
    assert(pins[8].0 == "PHASELOADREG"@);
    assert(pins[9].0 == "PLLWAKESYNC"@);
    assert(pins[10].0 == "ENCLKOP"@);
    assert(pins[11].0 == "LOCK"@);
    assert(pins[12].0 == pll_pin(cell->Pll_feedback_output));
    assert(pins[13].0 == pll_pin(cell->Pll_fabric_output));
    assert forall|k: int| 0 <= k < more.len() implies pins[14 + k] == drives(
        pll_pin(#[trigger] more[k].0),
        more[k].1,
    ) by {}
    assert forall|a: PllOutput, b: PllOutput| a != b implies #[trigger] pll_pin(a)
        != #[trigger] pll_pin(b) by {}
    assert forall|at: int, j: int| 0 <= at < 12 && at < j < pins.len() implies (
    #[trigger] pins[j]).0 != (#[trigger] pins[at]).0 by {
        assert(at == 0 || at == 1 || at == 2 || at == 3 || at == 4 || at == 5 || at == 6 || at == 7 || at == 8 || at == 9 || at == 10 || at == 11);
        if j < 12 {
            assert(j == 0 || j == 1 || j == 2 || j == 3 || j == 4 || j == 5 || j == 6 || j == 7 || j == 8 || j == 9 || j == 10 || j == 11);
        } else if j >= 14 {
            assert(pins[j] == drives(pll_pin(more[j - 14].0), more[j - 14].1));
        }
    }
    lemma_last_named(pins, 0);
    lemma_last_named(pins, 1);
    lemma_last_named(pins, 2);
    lemma_last_named(pins, 3);
    lemma_last_named(pins, 10);
    lemma_last_named(pins, 11);
    assert forall|j: int| 13 < j < pins.len() implies (#[trigger] pins[j]).0 != pins[13].0
        && pins[j].0 != pins[12].0 by {
        assert(pins[j] == drives(pll_pin(more[j - 14].0), more[j - 14].1));
        assert(more[j - 14].0 != cell->Pll_fabric_output);
    }
    lemma_last_named(pins, 13);
    if cell->Pll_fabric_output != cell->Pll_feedback_output {
        assert forall|j: int| 12 < j < pins.len() implies (#[trigger] pins[j]).0
            != pins[12].0 by {
            if j == 13 {
                assert(pll_pin(cell->Pll_fabric_output) != pll_pin(cell->Pll_feedback_output));
            }
        }
        lemma_last_named(pins, 12);
    }
    if 0 <= i < more.len() {
        assert forall|j: int| 14 + i < j < pins.len() implies (#[trigger] pins[j]).0 != pins[14
            + i].0 by {
            assert(pins[j] == drives(pll_pin(more[j - 14].0), more[j - 14].1));
            assert(pins[14 + i] == drives(pll_pin(more[i].0), more[i].1));
            assert(more[i].0 != more[j - 14].0);
        }
        lemma_last_named(pins, 14 + i);
        assert(pins[14 + i] == drives(pll_pin(more[i].0), more[i].1));
    }
}

/// A written design holds every cell of the mapping under its name, as the primitive it
/// is, and nothing else.
pub proof fn law_written_design_holds_cells(netlist: NetlistModel, i: int, name: Seq<char>)
    requires
        duplicate_name(netlist.cells, 0) is None,
        0 <= i < netlist.cells.len(),
    ensures
        named(design_of(netlist).cells, netlist.cells[i].cell_name()) matches Some(found)
            && found.kind == primitive(netlist.cells[i]).kind && found.parameters == primitive(
            netlist.cells[i],
        ).parameters && found.pins == primitive(netlist.cells[i]).pins,
        named(design_of(netlist).cells, name) is Some ==> exists|k: int|
            0 <= k < netlist.cells.len() && (#[trigger] netlist.cells[k]).cell_name() == name,
        design_of(netlist).name == netlist.name,
{
    let cells = netlist.cells;
    let entries = primitives(cells, netlist.placement_hints);
    assert forall|j: int| i < j < entries.len() implies (#[trigger] entries[j]).0
        != entries[i].0 by {
        law_names_are_unique(cells, 0, i, j);
    }
    lemma_last_named(entries, i);
    if named(by_name(entries), name) is Some {
        let k = lemma_named_entered(entries, name);
        assert(cells[k].cell_name() == name);
    }
}

/// A written design has every port of the mapping under its name, with its direction and
/// bits, and a net of that name on the same bits.
pub proof fn law_written_design_holds_ports(netlist: NetlistModel, p: int)
    requires
        ports_differ(netlist.ports),
        0 <= p < netlist.ports.len(),
    ensures
        named(design_of(netlist).ports, netlist.ports[p].name) == Some(
            PinModel { direction: netlist.ports[p].direction, bits: netlist.ports[p].bits },
        ),
        named(design_of(netlist).netnames, netlist.ports[p].name) == Some(netlist.ports[p].bits),
{
    let ports = netlist.ports;
    let pins = port_pins(ports);
    let nets = port_nets(ports);
    assert forall|j: int| p < j < pins.len() implies (#[trigger] pins[j]).0 != pins[p].0 by {
        assert(ports[p].name != ports[j].name);
    }
    assert forall|j: int| p < j < nets.len() implies (#[trigger] nets[j]).0 != nets[p].0 by {
        assert(ports[p].name != ports[j].name);
    }
    lemma_last_named(pins, p);
    lemma_last_named(nets, p);
    lemma_clock_nets(by_name(nets), netlist.clocks, netlist.clocks.len(), ports[p].name);
}

proof fn lemma_clock_nets(
    nets: Seq<(Seq<char>, Seq<Bit>)>,
    clocks: Seq<ClockModel>,
    count: nat,
    name: Seq<char>,
)
    requires
        names_ordered(nets),
        count <= clocks.len(),
    ensures
        names_ordered(with_clock_nets(nets, clocks, count)),
        named(nets, name) is Some ==> named(with_clock_nets(nets, clocks, count), name) == named(
            nets,
            name,
        ),
    decreases count,
{
    if count > 0 {
        let rest = with_clock_nets(nets, clocks, (count - 1) as nat);
        lemma_clock_nets(nets, clocks, (count - 1) as nat, name);
        let clock = clocks[count - 1];
        if named(rest, clock.net_name) is None {
            law_with_entry_keeps_order(rest, clock.net_name, seq![clock.bit]);
            law_read_after_set(rest, clock.net_name, seq![clock.bit], name);
        }
    }
}

/// A written design names the net of every constrained clock: on the clock's bit, unless
/// a port or an earlier clock has that name.
pub proof fn law_written_design_names_clocks(netlist: NetlistModel, c: int)
    requires
        0 <= c < netlist.clocks.len(),
        forall|p: int|
            0 <= p < netlist.ports.len() ==> (#[trigger] netlist.ports[p]).name
                != netlist.clocks[c].net_name,
        forall|d: int|
            0 <= d < c ==> (#[trigger] netlist.clocks[d]).net_name != netlist.clocks[c].net_name,
    ensures
        named(design_of(netlist).netnames, netlist.clocks[c].net_name) == Some(
            seq![netlist.clocks[c].bit],
        ),
{
    let nets = port_nets(netlist.ports);
    let name = netlist.clocks[c].net_name;
    lemma_ordered(nets);
    if named(by_name(nets), name) is Some {
        let p = lemma_named_entered(nets, name);
        assert(netlist.ports[p].name == name);
    }
    lemma_clock_named(by_name(nets), netlist.clocks, netlist.clocks.len(), c);
}

proof fn lemma_clock_named(
    nets: Seq<(Seq<char>, Seq<Bit>)>,
    clocks: Seq<ClockModel>,
    count: nat,
    c: int,
)
    requires
        names_ordered(nets),
        0 <= c < clocks.len(),
        count <= clocks.len(),
        named(nets, clocks[c].net_name) is None,
        forall|d: int|
            0 <= d < c ==> (#[trigger] clocks[d]).net_name != clocks[c].net_name,
    ensures
        named(with_clock_nets(nets, clocks, count), clocks[c].net_name) == if c < count {
            Some(seq![clocks[c].bit])
        } else {
            None
        },
        names_ordered(with_clock_nets(nets, clocks, count)),
    decreases count,
{
    if count > 0 {
        let last = (count - 1) as nat;
        let rest = with_clock_nets(nets, clocks, last);
        lemma_clock_named(nets, clocks, last, c);
        let clock = clocks[last as int];
        if named(rest, clock.net_name) is None {
            law_with_entry_keeps_order(rest, clock.net_name, seq![clock.bit]);
            law_read_after_set(rest, clock.net_name, seq![clock.bit], clocks[c].net_name);
        }
    }
}

} // verus!
