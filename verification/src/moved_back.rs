//! Registers moved back across a cell: what the new cells make of any run.

use vstd::prelude::*;

use crate::cells::cell_inputs;
use crate::cells::cell_outputs;
use crate::cells::Bit;
use crate::cells::CellModel;
use crate::grown::lemma_is_run;
use crate::grown::lemma_port_inputs_below;
use crate::meaning::bit_value;
use crate::meaning::cell_agrees;
use crate::meaning::cells_agree;
use crate::moves::cell_steps;
use crate::moves::cells_step;
use crate::moves::state_after;
use crate::netlist::port_inputs;
use crate::netlist::NetlistModel;
use crate::retime_lut::index_after_removal;
use crate::shown::all_below;
use crate::shown::cell_starts;
use crate::shown::driven_value;
use crate::shown::drives;
use crate::shown::drives_apart;
use crate::shown::is_box;
use crate::shown::is_combinational;
use crate::shown::is_driver;
use crate::shown::is_run;
use crate::shown::is_sourced;
use crate::shown::is_well_driven;
use crate::shown::lemma_agrees_by_wire;
use crate::shown::lemma_driven_same;
use crate::shown::lemma_local;
use crate::shown::lemma_state_beside;
use crate::shown::port_has;
use crate::shown::reads;
use crate::shown::same_around;
use crate::shown::same_box;
use crate::shown::same_boxes;
use crate::shown::same_ports;
use crate::shown::shows_no_less;
use crate::shown::shows_same;
use crate::shown::state_beside;
use crate::shown::touches;
use crate::shown_back::is_backward;
use crate::shown_back::read_only_at;
use crate::shown_back::BackwardMove;

verus! {

/// A move back: `copies` registers on the wires from `first` on stand behind the
/// cells that stay, and the moved cell stands at `place`.
pub ghost struct BackwardPlan {
    pub moved: BackwardMove,
    pub first: u32,
    pub copies: nat,
    pub place: int,
}

/// The place of copy `i`.
pub open spec fn copy_place(before: NetlistModel, i: int) -> int {
    before.cells.len() - 1 + i
}

/// What the register that moves drives.
pub open spec fn moved_output(before: NetlistModel, plan: BackwardPlan) -> u32 {
    before.cells[plan.moved.index]->FlipFlop_output
}

/// Whether the cell at the source reads `wire`, or the register does other than for
/// its data.
pub open spec fn is_taken(before: NetlistModel, plan: BackwardPlan, wire: u32) -> bool {
    reads(before.cells[plan.moved.at], wire) || exists|k: int|
        1 <= k < cell_inputs(before.cells[plan.moved.index]).len() && #[trigger] cell_inputs(
            before.cells[plan.moved.index],
        )[k] == Bit::Wire(wire)
}

/// Whether `after` holds the cells that stay, the copies and the moved cell.
pub open spec fn is_moved_back(
    before: NetlistModel,
    after: NetlistModel,
    plan: BackwardPlan,
) -> bool {
    let moved = plan.moved;
    let cell = after.cells[plan.place];
    &&& is_backward(before, after, moved)
    &&& all_below(before, plan.first as int)
    &&& plan.first > 0
    &&& plan.first + plan.copies <= u32::MAX
    &&& moved.at != moved.index
    &&& after.cells.len() == before.cells.len() - 1 + plan.copies + if moved.gone {
        0int
    } else {
        1
    }
    &&& plan.place == if moved.gone {
        index_after_removal(moved.at, moved.index)
    } else {
        before.cells.len() - 1 + plan.copies
    }
    &&& forall|i: int|
        0 <= i < plan.copies ==> is_moved_copy(
            before,
            plan,
            #[trigger] after.cells[copy_place(before, i)],
            i,
        )
    &&& is_combinational(cell)
    &&& drives_apart(cell)
    &&& drives(cell, moved_output(before, plan))
    &&& forall|wire: u32| #[trigger]
        drives(cell, wire) ==> wire == moved_output(before, plan) || wire >= plan.first
            + plan.copies
    &&& forall|wire: u32| #[trigger]
        reads(cell, wire) ==> plan.first <= wire < plan.first + plan.copies
}

/// Whether a cell is the copy that drives wire `first + i`.
pub open spec fn is_moved_copy(
    before: NetlistModel,
    plan: BackwardPlan,
    cell: CellModel,
    i: int,
) -> bool {
    &&& cell is FlipFlop
    &&& cell->FlipFlop_output == plan.first + i
    &&& forall|wire: u32| #[trigger] reads(cell, wire) ==> is_taken(before, plan, wire)
}

/// Whether the copies step from `now` to `next` and the moved cell agrees with both.
pub open spec fn moves_on(
    now: spec_fn(u32) -> bool,
    next: spec_fn(u32) -> bool,
    before: NetlistModel,
    after: NetlistModel,
    plan: BackwardPlan,
) -> bool {
    &&& forall|i: int|
        0 <= i < plan.copies ==> cell_steps(
            now,
            next,
            #[trigger] after.cells[copy_place(before, i)],
        )
    &&& cell_agrees(now, after.cells[plan.place])
    &&& cell_agrees(next, after.cells[plan.place])
}

/// Whether the copies hold what configuration loads and the moved cell agrees.
pub open spec fn moves_off(
    values: spec_fn(u32) -> bool,
    before: NetlistModel,
    after: NetlistModel,
    plan: BackwardPlan,
) -> bool {
    &&& forall|i: int|
        0 <= i < plan.copies ==> cell_starts(
            values,
            #[trigger] after.cells[copy_place(before, i)],
        )
    &&& cell_agrees(values, after.cells[plan.place])
}

/// Whether the moved cell carries the state of the register that moved.
#[verifier::opaque]
pub open spec fn carries_state(
    before: NetlistModel,
    after: NetlistModel,
    plan: BackwardPlan,
) -> bool {
    let register = before.cells[plan.moved.index];
    let output = register->FlipFlop_output;
    &&& forall|values: spec_fn(u32) -> bool| #[trigger]
        moves_off(values, before, after, plan) ==> values(output)
            == register->FlipFlop_reset->0.value
    &&& forall|now: spec_fn(u32) -> bool, next: spec_fn(u32) -> bool| #[trigger]
        moves_on(now, next, before, after, plan) ==> next(output) == state_after(
            now,
            register->FlipFlop_enable,
            register->FlipFlop_reset,
            now(output),
            driven_value(now, before.cells[plan.moved.at], plan.moved.data),
        )
}

/// Where a cell after the move comes from.
proof fn lemma_kinds(before: NetlistModel, after: NetlistModel, plan: BackwardPlan, j: int)
    requires
        is_moved_back(before, after, plan),
        0 <= j < after.cells.len(),
        j != plan.place,
    ensures
        j < before.cells.len() - 1 ==> {
            let i = if j < plan.moved.index {
                j
            } else {
                j + 1
            };
            0 <= i < before.cells.len() && i != plan.moved.index && !(plan.moved.gone && i
                == plan.moved.at) && after.cells[j] == before.cells[i]
        },
        j >= before.cells.len() - 1 ==> j - (before.cells.len() - 1) < plan.copies
            && copy_place(before, j - (before.cells.len() - 1)) == j,
{
    if j < before.cells.len() - 1 {
        let i = if j < plan.moved.index {
            j
        } else {
            j + 1
        };
        assert(index_after_removal(i, plan.moved.index) == j);
        assert(after.cells[j] == before.cells[i]);
    }
}

/// What the copies take from is old.
proof fn lemma_taken_below(
    before: NetlistModel,
    after: NetlistModel,
    plan: BackwardPlan,
    wire: u32,
)
    requires
        is_well_driven(before),
        is_moved_back(before, after, plan),
        is_taken(before, plan, wire),
    ensures
        wire < plan.first,
        is_sourced(before, wire),
        plan.moved.gone ==> !drives(before.cells[plan.moved.at], wire),
{
    let at = plan.moved.at;
    let index = plan.moved.index;
    if reads(before.cells[at], wire) {
        assert(touches(before.cells[at], wire));
        if plan.moved.gone && drives(before.cells[at], wire) {
            assert(read_only_at(before, wire, index, 0));
            let pins = cell_inputs(before.cells[at]);
            let k = choose|k: int| 0 <= k < pins.len() && pins[k] == Bit::Wire(wire);
            assert(cell_inputs(before.cells[at])[k] == Bit::Wire(wire));
        }
    } else {
        let pins = cell_inputs(before.cells[index]);
        let k = choose|k: int| 1 <= k < pins.len() && #[trigger] pins[k] == Bit::Wire(wire);
        assert(pins.contains(pins[k]));
        assert(reads(before.cells[index], wire));
        assert(touches(before.cells[index], wire));
        if plan.moved.gone && drives(before.cells[at], wire) {
            assert(read_only_at(before, wire, index, 0));
            assert(cell_inputs(before.cells[index])[k] == Bit::Wire(wire));
        }
    }
}

/// What was sourced still is, but for what the cell that went drove.
proof fn lemma_moved_sourced(
    before: NetlistModel,
    after: NetlistModel,
    plan: BackwardPlan,
    wire: u32,
)
    requires
        is_moved_back(before, after, plan),
        is_sourced(before, wire),
        plan.moved.gone ==> !drives(before.cells[plan.moved.at], wire),
    ensures
        is_sourced(after, wire),
{
    if !port_has(before.ports, wire) {
        let j = choose|j: int|
            0 <= j < before.cells.len() && #[trigger] drives(before.cells[j], wire);
        if j == plan.moved.index {
            let outputs = cell_outputs(before.cells[j]);
            assert(outputs =~= seq![Bit::Wire(moved_output(before, plan))]);
            assert(drives(after.cells[plan.place], wire));
        } else {
            let place = index_after_removal(j, plan.moved.index);
            assert(after.cells[place] == before.cells[j]);
            assert(drives(after.cells[place], wire));
        }
    }
}

/// Which wires a cell after the move drives.
proof fn lemma_moved_drives(
    before: NetlistModel,
    after: NetlistModel,
    plan: BackwardPlan,
    j: int,
    wire: u32,
)
    requires
        is_well_driven(before),
        is_moved_back(before, after, plan),
        0 <= j < after.cells.len(),
        drives(after.cells[j], wire),
    ensures
        wire == moved_output(before, plan) || wire >= plan.first + plan.copies ==> j
            == plan.place,
        plan.first <= wire < plan.first + plan.copies ==> j == copy_place(
            before,
            wire - plan.first,
        ),
        wire < plan.first && wire != moved_output(before, plan) ==> j != plan.place && j
            < before.cells.len() - 1 && drives(
            before.cells[if j < plan.moved.index {
                j
            } else {
                j + 1
            }],
            wire,
        ),
{
    let register = before.cells[plan.moved.index];
    assert(cell_outputs(register)[0] == Bit::Wire(moved_output(before, plan)));
    assert(drives(register, moved_output(before, plan)));
    assert(touches(register, moved_output(before, plan)));
    if j != plan.place {
        lemma_kinds(before, after, plan, j);
        if j < before.cells.len() - 1 {
            let i = if j < plan.moved.index {
                j
            } else {
                j + 1
            };
            assert(drives(before.cells[i], wire));
            assert(touches(before.cells[i], wire));
        } else {
            let k = j - (before.cells.len() - 1);
            assert(is_moved_copy(before, plan, after.cells[copy_place(before, k)], k));
            assert(cell_outputs(after.cells[j]) =~= seq![Bit::Wire((plan.first + k) as u32)]);
        }
    }
}

/// Moving back leaves the netlist wired up.
#[verifier::rlimit(40)]
pub proof fn lemma_moved_back_keeps_wiring(
    before: NetlistModel,
    after: NetlistModel,
    plan: BackwardPlan,
)
    requires
        is_well_driven(before),
        is_moved_back(before, after, plan),
    ensures
        is_well_driven(after),
{
    assert forall|i: int, j: int, wire: u32|
        0 <= i < after.cells.len() && 0 <= j < after.cells.len() && #[trigger] drives(
            after.cells[i],
            wire,
        ) && #[trigger] drives(after.cells[j], wire) implies i == j by {
        lemma_moved_drives(before, after, plan, i, wire);
        lemma_moved_drives(before, after, plan, j, wire);
    }
    assert forall|j: int| 0 <= j < after.cells.len() implies drives_apart(
        #[trigger] after.cells[j],
    ) && is_driver(after, after.cells[j]) by {
        lemma_moved_driver(before, after, plan, j);
    }
    assert forall|j: int, wire: u32|
        0 <= j < after.cells.len() && #[trigger] reads(
            after.cells[j],
            wire,
        ) implies is_sourced(after, wire) by {
        lemma_moved_reads(before, after, plan, j, wire);
    }
}

proof fn lemma_moved_driver(
    before: NetlistModel,
    after: NetlistModel,
    plan: BackwardPlan,
    j: int,
)
    requires
        is_well_driven(before),
        is_moved_back(before, after, plan),
        0 <= j < after.cells.len(),
    ensures
        drives_apart(after.cells[j]),
        is_driver(after, after.cells[j]),
{
    let register = before.cells[plan.moved.index];
    assert(is_driver(before, register));
    assert(cell_outputs(register)[0] == Bit::Wire(moved_output(before, plan)));
    assert(drives(register, moved_output(before, plan)));
    if j == plan.place {
        assert forall|wire: u32| #[trigger] drives(after.cells[j], wire) implies wire > 0
            && !port_inputs(after).contains(Bit::Wire(wire)) by {
            if wire != moved_output(before, plan) {
                lemma_port_inputs_below(before, plan.first as int, wire);
            }
        }
    } else {
        lemma_kinds(before, after, plan, j);
        if j < before.cells.len() - 1 {
            let i = if j < plan.moved.index {
                j
            } else {
                j + 1
            };
            assert(drives_apart(before.cells[i]));
            assert(is_driver(before, before.cells[i]));
        } else {
            let k = j - (before.cells.len() - 1);
            assert(is_moved_copy(before, plan, after.cells[copy_place(before, k)], k));
            assert(cell_outputs(after.cells[j]) =~= seq![Bit::Wire((plan.first + k) as u32)]);
            assert forall|wire: u32| #[trigger] drives(after.cells[j], wire) implies wire > 0
                && !port_inputs(after).contains(Bit::Wire(wire)) by {
                lemma_port_inputs_below(before, plan.first as int, wire);
            }
        }
    }
}

proof fn lemma_moved_reads(
    before: NetlistModel,
    after: NetlistModel,
    plan: BackwardPlan,
    j: int,
    wire: u32,
)
    requires
        is_well_driven(before),
        is_moved_back(before, after, plan),
        0 <= j < after.cells.len(),
        reads(after.cells[j], wire),
    ensures
        is_sourced(after, wire),
{
    if j == plan.place {
        let k = wire - plan.first;
        let copy = after.cells[copy_place(before, k)];
        assert(is_moved_copy(before, plan, copy, k));
        assert(cell_outputs(copy)[0] == Bit::Wire(wire));
        assert(drives(after.cells[copy_place(before, k)], wire));
    } else {
        lemma_kinds(before, after, plan, j);
        if j < before.cells.len() - 1 {
            let i = if j < plan.moved.index {
                j
            } else {
                j + 1
            };
            assert(reads(before.cells[i], wire));
            if plan.moved.gone && drives(before.cells[plan.moved.at], wire) {
                assert(read_only_at(before, wire, plan.moved.index, 0));
                let pins = cell_inputs(before.cells[i]);
                let k = choose|k: int| 0 <= k < pins.len() && pins[k] == Bit::Wire(wire);
                assert(cell_inputs(before.cells[i])[k] == Bit::Wire(wire));
            }
            lemma_moved_sourced(before, after, plan, wire);
        } else {
            let k = j - (before.cells.len() - 1);
            assert(is_moved_copy(before, plan, after.cells[copy_place(before, k)], k));
            lemma_taken_below(before, after, plan, wire);
            lemma_moved_sourced(before, after, plan, wire);
        }
    }
}

/// A run with the states of the copies beside it.
spec fn with_copies(
    before: NetlistModel,
    after: NetlistModel,
    plan: BackwardPlan,
    left: spec_fn(nat) -> spec_fn(u32) -> bool,
    t: nat,
) -> spec_fn(u32) -> bool {
    |wire: u32|
        if plan.first <= wire < plan.first + plan.copies {
            state_beside(left, after.cells[copy_place(before, wire - plan.first)], t)
        } else {
            left(t)(wire)
        }
}

/// A run with the copies and the moved cell in place.
spec fn moved_run(
    before: NetlistModel,
    after: NetlistModel,
    plan: BackwardPlan,
    left: spec_fn(nat) -> spec_fn(u32) -> bool,
) -> spec_fn(nat) -> spec_fn(u32) -> bool {
    |t: nat|
        |wire: u32|
            if drives(after.cells[plan.place], wire) {
                driven_value(
                    with_copies(before, after, plan, left, t),
                    after.cells[plan.place],
                    wire,
                )
            } else {
                with_copies(before, after, plan, left, t)(wire)
            }
}

/// The moved cell agrees with the run in which it stands.
proof fn lemma_moved_agrees(
    before: NetlistModel,
    after: NetlistModel,
    plan: BackwardPlan,
    left: spec_fn(nat) -> spec_fn(u32) -> bool,
    t: nat,
)
    requires
        is_well_driven(before),
        is_moved_back(before, after, plan),
    ensures
        cell_agrees(moved_run(before, after, plan, left)(t), after.cells[plan.place]),
{
    let right = moved_run(before, after, plan, left)(t);
    let beside = with_copies(before, after, plan, left, t);
    let cell = after.cells[plan.place];
    let pins = cell_inputs(cell);
    let output = moved_output(before, plan);
    assert(touches(before.cells[plan.moved.index], output)) by {
        assert(cell_outputs(before.cells[plan.moved.index])[0] == Bit::Wire(output));
    }
    assert forall|k: int| 0 <= k < pins.len() implies bit_value(right, #[trigger] pins[k])
        == bit_value(beside, pins[k]) by {
        if let Bit::Wire(wire) = pins[k] {
            assert(pins.contains(pins[k]));
            assert(reads(cell, wire));
            assert(!drives(cell, wire));
        }
    }
    assert forall|wire: u32| drives(cell, wire) implies #[trigger] right(wire) == driven_value(
        right,
        cell,
        wire,
    ) by {
        lemma_driven_same(right, beside, cell, wire);
    }
    lemma_agrees_by_wire(right, cell);
}

/// Whether old wires carry the same, and so does what the register drove.
spec fn is_followed(
    before: NetlistModel,
    after: NetlistModel,
    plan: BackwardPlan,
    left: spec_fn(nat) -> spec_fn(u32) -> bool,
    t: nat,
) -> bool {
    forall|wire: u32|
        wire < plan.first ==> #[trigger] moved_run(before, after, plan, left)(t)(wire)
            == left(t)(wire)
}

proof fn lemma_followed(
    before: NetlistModel,
    after: NetlistModel,
    plan: BackwardPlan,
    left: spec_fn(nat) -> spec_fn(u32) -> bool,
    t: nat,
)
    requires
        is_well_driven(before),
        is_moved_back(before, after, plan),
        moved_run(before, after, plan, left)(t)(moved_output(before, plan)) == left(t)(
            moved_output(before, plan),
        ),
    ensures
        is_followed(before, after, plan, left, t),
{
    let right = moved_run(before, after, plan, left);
    assert forall|wire: u32| wire < plan.first implies #[trigger] right(t)(wire) == left(t)(
        wire,
    ) by {
        if drives(after.cells[plan.place], wire) {
            assert(wire == moved_output(before, plan));
        }
    }
}

/// The copies hold what stands beside the run.
proof fn lemma_copies_hold(
    before: NetlistModel,
    after: NetlistModel,
    plan: BackwardPlan,
    left: spec_fn(nat) -> spec_fn(u32) -> bool,
    i: int,
    t: nat,
)
    requires
        is_well_driven(before),
        is_moved_back(before, after, plan),
        is_followed(before, after, plan, left, t),
        0 <= i < plan.copies,
    ensures
        ({
            let right = moved_run(before, after, plan, left);
            let copy = after.cells[copy_place(before, i)];
            cell_starts(right(0), copy) && cell_steps(right(t), right(t + 1), copy)
        }),
{
    let right = moved_run(before, after, plan, left);
    let copy = after.cells[copy_place(before, i)];
    assert(is_moved_copy(before, plan, copy, i));
    let output = copy->FlipFlop_output;
    let pins = cell_inputs(copy);
    assert(touches(before.cells[plan.moved.index], moved_output(before, plan))) by {
        assert(cell_outputs(before.cells[plan.moved.index])[0] == Bit::Wire(
            moved_output(before, plan),
        ));
    }
    assert(!drives(after.cells[plan.place], output));
    assert forall|k: int| 0 <= k < pins.len() implies bit_value(right(t), #[trigger] pins[k])
        == bit_value(left(t), pins[k]) by {
        if let Bit::Wire(wire) = pins[k] {
            assert(pins.contains(pins[k]));
            assert(reads(copy, wire));
            lemma_taken_below(before, after, plan, wire);
            assert(right(t)(wire) == left(t)(wire));
        }
    }
    lemma_state_beside(left, right(0), right(t), right(t + 1), copy, t);
}

/// In every cycle old wires carry the same.
#[verifier::rlimit(40)]
proof fn lemma_all_followed(
    before: NetlistModel,
    after: NetlistModel,
    plan: BackwardPlan,
    left: spec_fn(nat) -> spec_fn(u32) -> bool,
    t: nat,
)
    requires
        is_well_driven(before),
        is_moved_back(before, after, plan),
        carries_state(before, after, plan),
        is_run(left, before.cells),
    ensures
        is_followed(before, after, plan, left, t),
    decreases t,
{
    let right = moved_run(before, after, plan, left);
    let register = before.cells[plan.moved.index];
    let output = moved_output(before, plan);
    lemma_moved_agrees(before, after, plan, left, t);
    if t == 0 {
        assert(moves_off(right(0), before, after, plan)) by {
            assert forall|i: int| 0 <= i < plan.copies implies cell_starts(
                right(0),
                #[trigger] after.cells[copy_place(before, i)],
            ) by {
                lemma_copy_starts_so(before, after, plan, left, i);
            }
        }
        reveal(carries_state);
        assert(cell_starts(left(0), register));
        assert(right(0)(output) == left(0)(output));
    } else {
        let last = (t - 1) as nat;
        lemma_all_followed(before, after, plan, left, last);
        lemma_moved_agrees(before, after, plan, left, last);
        assert(moves_on(right(last), right(t), before, after, plan)) by {
            assert forall|i: int| 0 <= i < plan.copies implies cell_steps(
                right(last),
                right(t),
                #[trigger] after.cells[copy_place(before, i)],
            ) by {
                lemma_copies_hold(before, after, plan, left, i, last);
            }
        }
        assert(cells_agree(left(last), before.cells));
        assert(cells_step(left(last), left(last + 1), before.cells));
        assert(cell_steps(left(last), left(t), register));
        lemma_register_steps(before, after, plan, left, last);
    }
    lemma_followed(before, after, plan, left, t);
}

proof fn lemma_copy_starts_so(
    before: NetlistModel,
    after: NetlistModel,
    plan: BackwardPlan,
    left: spec_fn(nat) -> spec_fn(u32) -> bool,
    i: int,
)
    requires
        is_well_driven(before),
        is_moved_back(before, after, plan),
        0 <= i < plan.copies,
    ensures
        cell_starts(
            moved_run(before, after, plan, left)(0),
            after.cells[copy_place(before, i)],
        ),
{
    let copy = after.cells[copy_place(before, i)];
    assert(is_moved_copy(before, plan, copy, i));
    let output = copy->FlipFlop_output;
    assert(touches(before.cells[plan.moved.index], moved_output(before, plan))) by {
        assert(cell_outputs(before.cells[plan.moved.index])[0] == Bit::Wire(
            moved_output(before, plan),
        ));
    }
    assert(!drives(after.cells[plan.place], output));
    assert(moved_run(before, after, plan, left)(0)(output) == state_beside(left, copy, 0));
}

/// The moved cell goes on as the register does.
proof fn lemma_register_steps(
    before: NetlistModel,
    after: NetlistModel,
    plan: BackwardPlan,
    left: spec_fn(nat) -> spec_fn(u32) -> bool,
    t: nat,
)
    requires
        is_well_driven(before),
        is_moved_back(before, after, plan),
        carries_state(before, after, plan),
        is_run(left, before.cells),
        is_followed(before, after, plan, left, t),
        moves_on(
            moved_run(before, after, plan, left)(t),
            moved_run(before, after, plan, left)(t + 1),
            before,
            after,
            plan,
        ),
    ensures
        moved_run(before, after, plan, left)(t + 1)(moved_output(before, plan)) == left(t + 1)(
            moved_output(before, plan),
        ),
{
    let right = moved_run(before, after, plan, left);
    let register = before.cells[plan.moved.index];
    let at = before.cells[plan.moved.at];
    let output = moved_output(before, plan);
    reveal(carries_state);
    assert(cells_agree(left(t), before.cells));
    assert(cells_step(left(t), left(t + 1), before.cells));
    assert(cell_steps(left(t), left(t + 1), register));
    assert(cell_agrees(left(t), at));
    assert(drives_apart(at));
    lemma_agrees_by_wire(left(t), at);
    assert(left(t)(plan.moved.data) == driven_value(left(t), at, plan.moved.data));
    let pins = cell_inputs(at);
    assert forall|k: int| 0 <= k < pins.len() implies bit_value(right(t), #[trigger] pins[k])
        == bit_value(left(t), pins[k]) by {
        if let Bit::Wire(wire) = pins[k] {
            assert(pins.contains(pins[k]));
            assert(touches(at, wire));
            assert(right(t)(wire) == left(t)(wire));
        }
    }
    lemma_driven_same(right(t), left(t), at, plan.moved.data);
    let mine = cell_inputs(register);
    assert forall|k: int| 0 <= k < mine.len() implies bit_value(right(t), #[trigger] mine[k])
        == bit_value(left(t), mine[k]) by {
        if let Bit::Wire(wire) = mine[k] {
            assert(mine.contains(mine[k]));
            assert(touches(register, wire));
            assert(right(t)(wire) == left(t)(wire));
        }
    }
    assert(touches(register, output)) by {
        assert(cell_outputs(register)[0] == Bit::Wire(output));
    }
    assert(right(t)(output) == left(t)(output));
    reveal(state_after);
    let reset = register->FlipFlop_reset->0;
    if let Some(control) = register->FlipFlop_enable {
        assert(mine[2] == control.signal);
        assert(mine[3] == reset.signal);
        assert(bit_value(right(t), mine[2]) == bit_value(left(t), mine[2]));
        assert(bit_value(right(t), mine[3]) == bit_value(left(t), mine[3]));
    } else {
        assert(mine[2] == reset.signal);
        assert(bit_value(right(t), mine[2]) == bit_value(left(t), mine[2]));
    }
}

/// Every cell after the move holds of the run with the copies in place.
#[verifier::rlimit(40)]
proof fn lemma_moved_holds(
    before: NetlistModel,
    after: NetlistModel,
    plan: BackwardPlan,
    left: spec_fn(nat) -> spec_fn(u32) -> bool,
    j: int,
    t: nat,
)
    requires
        is_well_driven(before),
        is_moved_back(before, after, plan),
        carries_state(before, after, plan),
        is_run(left, before.cells),
        0 <= j < after.cells.len(),
    ensures
        ({
            let right = moved_run(before, after, plan, left);
            &&& t == 0 ==> cell_starts(right(t), after.cells[j])
            &&& cell_agrees(right(t), after.cells[j])
            &&& cell_steps(right(t), right(t + 1), after.cells[j])
        }),
{
    let right = moved_run(before, after, plan, left);
    lemma_all_followed(before, after, plan, left, t);
    lemma_all_followed(before, after, plan, left, t + 1);
    if j == plan.place {
        lemma_moved_agrees(before, after, plan, left, t);
    } else {
        lemma_kinds(before, after, plan, j);
        if j < before.cells.len() - 1 {
            let i = if j < plan.moved.index {
                j
            } else {
                j + 1
            };
            let cell = before.cells[i];
            assert(same_around(left(t), right(t), cell)) by {
                assert forall|wire: u32| #[trigger] touches(cell, wire) implies left(t)(wire)
                    == right(t)(wire) by {
                    assert(touches(before.cells[i], wire));
                    assert(right(t)(wire) == left(t)(wire));
                }
            }
            assert(same_around(left(t + 1), right(t + 1), cell)) by {
                assert forall|wire: u32| #[trigger] touches(cell, wire) implies left(t + 1)(wire)
                    == right(t + 1)(wire) by {
                    assert(touches(before.cells[i], wire));
                    assert(right(t + 1)(wire) == left(t + 1)(wire));
                }
            }
            lemma_local(left(t), right(t), left(t + 1), right(t + 1), cell);
            assert(cells_agree(left(t), before.cells));
            assert(cells_step(left(t), left(t + 1), before.cells));
            assert(cell_agrees(left(t), before.cells[i]));
            assert(cell_steps(left(t), left(t + 1), before.cells[i]));
            assert(cell_starts(left(0), before.cells[i]));
        } else {
            let k = j - (before.cells.len() - 1);
            assert(is_moved_copy(before, plan, after.cells[copy_place(before, k)], k));
            lemma_copies_hold(before, after, plan, left, k, t);
        }
    }
}

/// The run with the copies in place shows the same.
proof fn lemma_moved_shows(
    before: NetlistModel,
    after: NetlistModel,
    plan: BackwardPlan,
    left: spec_fn(nat) -> spec_fn(u32) -> bool,
    t: nat,
)
    requires
        is_well_driven(before),
        is_moved_back(before, after, plan),
        is_followed(before, after, plan, left, t),
    ensures
        ({
            let right = moved_run(before, after, plan, left);
            same_ports(left(t), before.ports, right(t), after.ports) && same_boxes(
                left(t),
                before.cells,
                right(t),
                after.cells,
            )
        }),
{
    let right = moved_run(before, after, plan, left);
    let ports = before.ports;
    assert forall|p: int, k: int|
        0 <= p < ports.len() && 0 <= k < ports[p].bits.len() implies bit_value(
        left(t),
        #[trigger] ports[p].bits[k],
    ) == bit_value(right(t), ports[p].bits[k]) by {
        if let Bit::Wire(wire) = ports[p].bits[k] {
            assert(port_has(ports, wire));
            assert(right(t)(wire) == left(t)(wire));
        }
    }
    assert forall|i: int|
        0 <= i < before.cells.len() && is_box(#[trigger] before.cells[i]) implies exists|j: int|
        0 <= j < after.cells.len() && same_box(
            left(t),
            before.cells[i],
            right(t),
            #[trigger] after.cells[j],
        ) by {
        let j = index_after_removal(i, plan.moved.index);
        let cell = before.cells[i];
        assert(after.cells[j] == before.cells[i]);
        assert(same_around(left(t), right(t), cell)) by {
            assert forall|wire: u32| #[trigger] touches(cell, wire) implies left(t)(wire)
                == right(t)(wire) by {
                assert(touches(before.cells[i], wire));
                assert(right(t)(wire) == left(t)(wire));
            }
        }
        lemma_local(left(t), right(t), left(t), right(t), cell);
        assert(same_box(left(t), before.cells[i], right(t), after.cells[j]));
    }
}

/// Moving back shows no less.
pub proof fn lemma_moved_back_shows_no_less(
    before: NetlistModel,
    after: NetlistModel,
    plan: BackwardPlan,
)
    requires
        is_well_driven(before),
        is_moved_back(before, after, plan),
        carries_state(before, after, plan),
    ensures
        shows_no_less(before, after),
{
    reveal(shows_no_less);
    assert forall|left: spec_fn(nat) -> spec_fn(u32) -> bool| #[trigger]
        is_run(left, before.cells) implies exists|right: spec_fn(nat) -> spec_fn(u32) -> bool|
        is_run(right, after.cells) && #[trigger] shows_same(left, before, right, after) by {
        let right = moved_run(before, after, plan, left);
        assert forall|j: int, t: nat|
            #![trigger after.cells[j], right(t)]
            0 <= j < after.cells.len() implies (t == 0 ==> cell_starts(right(t), after.cells[j]))
            && cell_agrees(right(t), after.cells[j]) && cell_steps(
            right(t),
            right(t + 1),
            after.cells[j],
        ) by {
            lemma_moved_holds(before, after, plan, left, j, t);
        }
        lemma_is_run(right, after.cells);
        assert forall|t: nat|
            same_ports(#[trigger] left(t), before.ports, right(t), after.ports) && same_boxes(
                left(t),
                before.cells,
                right(t),
                after.cells,
            ) by {
            lemma_all_followed(before, after, plan, left, t);
            lemma_moved_shows(before, after, plan, left, t);
        }
        assert(shows_same(left, before, right, after));
    }
}

} // verus!
