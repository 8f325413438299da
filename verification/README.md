# struo_target_ecp5

Technology mapping of bit-level netlists to Lattice ECP5, verified with Verus.

- `src/` is the library. A `Netlist` (`ir`) goes in; an `Ecp5Netlist`
  (`netlist`) of LUT4, PFUMX, L6MUX21, CCU2C, TRELLIS_FF, DP16KD,
  TRELLIS_DPR16X4, TRELLIS_IO, JTAGG and EHXPLLL primitives comes out. The entry
  points are in `entry`.
- `tests/` runs the library on whole designs.
- `app/` reads constraint files and place-and-route reports, and writes netlists
  and errors.

Registers move only under a certificate. The library describes each move as a
`RetimingRequest` (`certify`) and takes a function that answers it with the
retimed edges and their reset values, or refuses.

What the mapped cells compute is stated in `meaning`, `sums`, `carried`,
`widened` and `equivalence`. Take any values of the wires with which lookup
tables, muxes and carry primitives agree: output ports and register inputs carry
the values of the source gates, additions, subtractions and comparisons. What a
memory or register holds is taken as it comes. `stored` states what distributed
memories keep, tile by tile and bank by bank, and `blocks` what block RAM keeps:
its tiles together hold the word, and a read gives what was last written. What a
block RAM reads from an address that is written in the same cycle is left open.

What a design shows over time is stated in `shown`, where a run gives every wire
a value in every clock cycle. All flip-flops step together; they start in their
reset, or at zero without one. Memories, pads, the TAP and PLLs are boxes whose
surroundings are compared. A step keeps what is shown where every run after it is
a run before it, seen at ports and boxes, and every run before it one after it.

- `grown`, `rewired` and `copies` state this of copies, buffers, split carry
  branches and dedicated muxes, and `shown_share` of shared registers.
- `moved_back` and `moved_forward` state it of any register that moves, and
  `shown_back` and `shown_forward` of moves across lookup tables and carry
  primitives.
- `path` puts the steps together for a whole mapping, and `rewrites` for
  refinement by place-and-route feedback, its candidates and fanout constraints.

Moves rest on two things that the netlist itself does not settle: the certificate
gives resets from which the moved logic makes the old ones, and a cell that a
forward move looks up by name is the only one of that name. Refinement asks also
that no lookup table reads itself.

`wired` states that every wire of a mapping has one driver, and that what its
cells read is driven or comes from a port, where every net of the source has one
source; `laid`, `laid_cells`, `wired_logic`, `placed` and `placed_banks` hold the
parts. The steps above keep it so.
