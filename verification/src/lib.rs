//! Technology mapping to Lattice ECP5.
//!
//! A target-independent netlist ([`ir`]) is covered with lookup tables and
//! dedicated muxes ([`cuts`], [`plans`], [`cover`], [`recover`], [`emit`],
//! [`wide_mux`]), its word-level cells become carry chains or ripple logic
//! ([`arithmetic`]), and its memories become RAM tiles ([`memory`], [`dpram`]).
//! The mapped netlist ([`netlist`]) is retimed under certificates ([`certify`],
//! [`search`]), bound to target primitives ([`bind`]), refined with feedback
//! from place-and-route ([`refine`]), and written for it ([`design`], [`flow`]).
//!
//! [`meaning`], [`sums`], [`carried`], [`widened`] and [`equivalence`] say what
//! the mapped cells compute, [`stored`] and [`blocks`] what memories keep, and
//! [`wired`] that every wire of a mapping has one driver. [`moves`],
//! [`carry_moves`] and [`split`] say what one clock step or one step of retiming
//! keeps, [`shown`] what a design shows over time, and [`grown`], [`rewired`],
//! [`copies`], [`shown_back`], [`shown_forward`] and [`shown_share`] that a step
//! keeps it. [`path`] puts the steps together for a whole mapping and
//! [`rewrites`] for refinement.
//!
//! [`behaves`] and [`remembers`] say that a mapping does over time what its source
//! does, register by register and word by word, and [`domains`] that registers that
//! move keep their clocks. [`late`] says which sinks refinement moves, [`bound`] what
//! dedicated primitives take over, and [`written`], [`written_blocks`] and
//! [`read_back`] what the place-and-route tool reads.

use vstd::prelude::*;

pub mod appended;
pub mod arithmetic;
pub mod behaves;
pub mod bind;
pub mod blocks;
pub mod bound;
pub mod boundary;
pub mod carried;
pub mod carry;
pub mod carry_moves;
pub mod cells;
pub mod certify;
pub mod chains;
pub mod clocks;
pub mod cluster;
pub mod constraints;
pub mod copies;
pub mod cover;
pub mod critical;
pub mod cuts;
pub mod demand;
pub mod design;
pub mod domains;
pub mod dpram;
pub mod emit;
pub mod entry;
pub mod equivalence;
pub mod errors;
pub mod fanout;
pub mod flow;
pub mod grown;
pub mod ir;
pub mod json;
pub mod laid;
pub mod laid_cells;
pub mod late;
pub mod mapping;
pub mod meaning;
pub mod memory;
pub mod merge;
pub mod moved_back;
pub mod moved_forward;
pub mod moves;
pub mod names;
pub mod netlist;
pub mod path;
pub mod physical;
pub mod placed;
pub mod placed_banks;
pub mod plans;
pub mod profile;
pub mod read_back;
pub mod recover;
pub mod refine;
pub mod registered;
pub mod remembers;
pub mod renumbered;
pub mod replicate;
pub mod retained;
pub mod retime_ccu;
pub mod retime_lut;
pub mod rewired;
pub mod rewrites;
pub mod same;
pub mod score;
pub mod search;
pub mod sound_cover;
pub mod shown;
pub mod shown_back;
pub mod shown_forward;
pub mod shown_share;
pub mod split;
pub mod stored;
pub mod sums;
pub mod text;
pub mod timing;
pub mod walk;
pub mod wide_mux;
pub mod widened;
pub mod wired;
pub mod wired_logic;
pub mod wires;
pub mod written;
pub mod written_blocks;

pub use crate::bind::JtaggBinding;
pub use crate::bind::OpenDrainIo;
pub use crate::bind::PllBinding;
pub use crate::cells::Bit;
pub use crate::cells::BlockRamPort;
pub use crate::cells::Control;
pub use crate::cells::Ecp5Cell;
pub use crate::cells::Ecp5MemoryImplementation;
pub use crate::cells::MappedPort;
pub use crate::cells::PllOutput;
pub use crate::cells::PortDirection;
pub use crate::cells::Reset;
pub use crate::constraints::ArithmeticMapping;
pub use crate::constraints::IoTimingConstraints;
pub use crate::constraints::MappingOptions;
pub use crate::constraints::MulticyclePathConstraint;
pub use crate::constraints::OocPortConstraint;
pub use crate::constraints::OocTimingConstraints;
pub use crate::constraints::TimingClockConstraint;
pub use crate::constraints::TimingConstraints;
pub use crate::constraints::TimingPathConstraint;
pub use crate::design::NextpnrJsonError;
pub use crate::entry::map_to_ecp5;
pub use crate::entry::map_to_ecp5_ooc;
pub use crate::entry::map_to_ecp5_with_constraints;
pub use crate::entry::map_to_ecp5_with_jtagg;
pub use crate::entry::map_to_ecp5_with_open_drain_ios;
pub use crate::entry::map_to_ecp5_with_options;
pub use crate::entry::map_to_ecp5_with_pll;
pub use crate::entry::map_to_ecp5_with_timing_constraints;
pub use crate::errors::MappingError;
pub use crate::errors::RegisterEnableFanoutError;
pub use crate::fanout::RegisterEnableFanoutConstraint;
pub use crate::fanout::RegisterEnableFanoutReport;
pub use crate::flow::BoardProfile;
pub use crate::flow::Ecp5Flow;
pub use crate::flow::FlowArtifacts;
pub use crate::flow::ToolCommand;
pub use crate::netlist::Ecp5Netlist;
pub use crate::netlist::RetimingSelection;
pub use crate::physical::PhysicalCriticalPath;
pub use crate::physical::PhysicalFeedback;
pub use crate::physical::PhysicalLocation;
pub use crate::physical::PhysicalNetTiming;
pub use crate::physical::PhysicalTimingEndpoint;

verus! {

} // verus!
