//! What dedicated muxes keep: the values of the lookup tables they replace.

use vstd::prelude::*;

use crate::cells::Bit;
use crate::cells::CellModel;
use crate::meaning::bit_value;
use crate::meaning::cell_agrees;
use crate::meaning::cells_agree;
use crate::netlist::NetlistModel;
use crate::timing::depths_of;
use crate::wide_mux::candidate_before;
use crate::wide_mux::claim_driver;
use crate::wide_mux::insert_candidate;
use crate::wide_mux::l6_candidate;
use crate::wide_mux::l6_candidates;
use crate::wide_mux::last_lut;
use crate::wide_mux::law_mux_decomposition;
use crate::wide_mux::mux_candidate;
use crate::wide_mux::mux_candidates;
use crate::wide_mux::mux_inputs;
use crate::wide_mux::needs_clone;
use crate::wide_mux::place_l6;
use crate::wide_mux::place_l6s;
use crate::wide_mux::place_mux;
use crate::wide_mux::place_muxes;
use crate::wide_mux::selects_at;
use crate::wide_mux::wide_start;
use crate::wide_mux::with_l6_muxes;
use crate::wide_mux::with_pfu_muxes;
use crate::wide_mux::L6Model;
use crate::wide_mux::MuxCandidate;
use crate::wide_mux::WideModel;
use crate::wires::pin_index;
use crate::wires::table_bit;

verus! {

/// How many cells are lookup tables.
pub open spec fn lut_count(cells: Seq<CellModel>) -> nat
    decreases cells.len(),
{
    if cells.len() == 0 {
        0
    } else {
        lut_count(cells.drop_last()) + if cells.last() is Lut4 {
            1nat
        } else {
            0
        }
    }
}

proof fn lemma_lut_count_update(cells: Seq<CellModel>, at: int, cell: CellModel)
    requires
        0 <= at < cells.len(),
        cells[at] is Lut4,
        !(cell is Lut4),
    ensures
        lut_count(cells.update(at, cell)) + 1 == lut_count(cells),
    decreases cells.len(),
{
    let updated = cells.update(at, cell);
    if at == cells.len() - 1 {
        assert(updated.drop_last() =~= cells.drop_last());
    } else {
        assert(updated.drop_last() =~= cells.drop_last().update(at, cell));
        lemma_lut_count_update(cells.drop_last(), at, cell);
    }
}

proof fn lemma_lut_count_push(cells: Seq<CellModel>, cell: CellModel)
    ensures
        lut_count(cells.push(cell)) == lut_count(cells) + if cell is Lut4 {
            1nat
        } else {
            0
        },
{
    assert(cells.push(cell).drop_last() =~= cells);
}

/// Whether the candidate is a lookup table of `cells` that selects between its wires.
pub open spec fn is_candidate(cells: Seq<CellModel>, candidate: MuxCandidate) -> bool {
    &&& candidate.root < cells.len()
    &&& cells[candidate.root as int] matches CellModel::Lut4 { inputs, output, init, .. }
        && output == candidate.output && mux_inputs(inputs, init) == Some(
        (Bit::Wire(candidate.on), Bit::Wire(candidate.off), candidate.select),
    )
}

/// Whether the drivers of the candidate are lookup tables that drive its wires.
pub open spec fn has_drivers(cells: Seq<CellModel>, candidate: MuxCandidate) -> bool {
    &&& candidate.on_driver < cells.len()
    &&& candidate.off_driver < cells.len()
    &&& cells[candidate.on_driver as int] is Lut4
    &&& cells[candidate.off_driver as int] is Lut4
    &&& cells[candidate.on_driver as int]->Lut4_output == candidate.on
    &&& cells[candidate.off_driver as int]->Lut4_output == candidate.off
}

/// Whether each candidate satisfies `good` and no two replace one cell.
pub open spec fn are_good(candidates: Seq<MuxCandidate>, good: spec_fn(MuxCandidate) -> bool) -> bool {
    &&& forall|k: int| 0 <= k < candidates.len() ==> good(#[trigger] candidates[k])
    &&& forall|j: int, k: int|
        0 <= j < k < candidates.len() ==> (#[trigger] candidates[j]).root != (
        #[trigger] candidates[k]).root
}

proof fn lemma_insert_at(sorted: Seq<MuxCandidate>, candidate: MuxCandidate) -> (at: int)
    ensures
        0 <= at <= sorted.len(),
        insert_candidate(sorted, candidate) == sorted.insert(at, candidate),
    decreases sorted.len(),
{
    if sorted.len() > 0 && candidate_before(candidate, sorted.last()) {
        let at = lemma_insert_at(sorted.drop_last(), candidate);
        assert(sorted.drop_last().insert(at, candidate).push(sorted.last()) =~= sorted.insert(
            at,
            candidate,
        ));
        at
    } else {
        assert(sorted.push(candidate) =~= sorted.insert(sorted.len() as int, candidate));
        sorted.len() as int
    }
}

proof fn lemma_insert_good(
    sorted: Seq<MuxCandidate>,
    candidate: MuxCandidate,
    good: spec_fn(MuxCandidate) -> bool,
    bound: int,
)
    requires
        are_good(sorted, good),
        good(candidate),
        forall|k: int| 0 <= k < sorted.len() ==> (#[trigger] sorted[k]).root < bound,
        candidate.root == bound,
    ensures
        are_good(insert_candidate(sorted, candidate), good),
        forall|k: int|
            0 <= k < sorted.len() + 1 ==> (#[trigger] insert_candidate(sorted, candidate)[k]).root
                <= bound,
        insert_candidate(sorted, candidate).len() == sorted.len() + 1,
{
    let at = lemma_insert_at(sorted, candidate);
    let out = sorted.insert(at, candidate);
    assert forall|k: int| 0 <= k < out.len() implies good(#[trigger] out[k]) && out[k].root
        <= bound by {
        if k < at {
            assert(out[k] == sorted[k]);
        } else if k > at {
            assert(out[k] == sorted[k - 1]);
        }
    }
    assert forall|j: int, k: int| 0 <= j < k < out.len() implies (#[trigger] out[j]).root != (
    #[trigger] out[k]).root by {
        let x = if j < at {
            j
        } else {
            j - 1
        };
        let y = if k < at {
            k
        } else {
            k - 1
        };
        if j == at {
            assert(out[k] == sorted[y]);
        } else if k == at {
            assert(out[j] == sorted[x]);
        } else {
            assert(out[j] == sorted[x] && out[k] == sorted[y]);
        }
    }
}

proof fn lemma_last_lut(cells: Seq<CellModel>, wire: u32, count: int)
    requires
        count <= cells.len(),
    ensures
        last_lut(cells, wire, count) matches Some(at) ==> 0 <= at < count && cells[at] is Lut4
            && cells[at]->Lut4_output == wire,
    decreases count,
{
    if count > 0 && !(cells[count - 1] is Lut4 && cells[count - 1]->Lut4_output == wire) {
        lemma_last_lut(cells, wire, count - 1);
    }
}

/// Candidates are lookup tables over others.
pub proof fn lemma_mux_candidates(cells: Seq<CellModel>, depths: Map<u32, usize>, count: nat)
    requires
        count <= cells.len() <= usize::MAX,
    ensures
        are_good(
            mux_candidates(cells, depths, count),
            |candidate: MuxCandidate|
                is_candidate(cells, candidate) && has_drivers(cells, candidate),
        ),
        forall|k: int|
            0 <= k < mux_candidates(cells, depths, count).len() ==> (
            #[trigger] mux_candidates(cells, depths, count)[k]).root < count,
    decreases count,
{
    let good = |candidate: MuxCandidate|
        is_candidate(cells, candidate) && has_drivers(cells, candidate);
    if count > 0 {
        let last = (count - 1) as nat;
        lemma_mux_candidates(cells, depths, last);
        if let Some(candidate) = mux_candidate(cells, last as int, depths) {
            lemma_last_lut(cells, candidate.on, cells.len() as int);
            lemma_last_lut(cells, candidate.off, cells.len() as int);
            assert(good(candidate));
            lemma_insert_good(
                mux_candidates(cells, depths, last),
                candidate,
                good,
                last as int,
            );
        }
    }
}

/// Candidates are lookup tables.
pub proof fn lemma_l6_candidates(netlist: NetlistModel, depths: Map<u32, usize>, count: nat)
    requires
        count <= netlist.cells.len() <= usize::MAX,
    ensures
        are_good(
            l6_candidates(netlist, depths, count),
            |candidate: MuxCandidate| is_candidate(netlist.cells, candidate),
        ),
        forall|k: int|
            0 <= k < l6_candidates(netlist, depths, count).len() ==> (
            #[trigger] l6_candidates(netlist, depths, count)[k]).root < count,
    decreases count,
{
    let good = |candidate: MuxCandidate| is_candidate(netlist.cells, candidate);
    if count > 0 {
        let last = (count - 1) as nat;
        lemma_l6_candidates(netlist, depths, last);
        if let Some(candidate) = l6_candidate(netlist, last as int, depths) {
            assert(good(candidate));
            lemma_insert_good(
                l6_candidates(netlist, depths, last),
                candidate,
                good,
                last as int,
            );
        }
    }
}

proof fn lemma_pin_bits(a: bool, b: bool, c: bool, d: bool)
    ensures
        pin_index(a, b, c, d) < 16,
        table_bit(pin_index(a, b, c, d), 0) == a,
        table_bit(pin_index(a, b, c, d), 1) == b,
        table_bit(pin_index(a, b, c, d), 2) == c,
        table_bit(pin_index(a, b, c, d), 3) == d,
{
    let index = pin_index(a, b, c, d);
    assert((index & (1u16 << 0u16) != 0) == (index % 2 == 1) && (index & (1u16 << 1u16) != 0) == (
    index / 2 % 2 == 1) && (index & (1u16 << 2u16) != 0) == (index / 4 % 2 == 1) && (index & (1u16
        << 3u16) != 0) == (index / 8 % 2 == 1)) by (bit_vector)
        requires
            index < 16,
    ;
}

/// A lookup table that decomposes into a mux drives what the mux selects.
pub proof fn law_mux_inputs_select(values: spec_fn(u32) -> bool, inputs: [Bit; 4], init: u16)
    ensures
        mux_inputs(inputs, init) matches Some((on, off, select)) ==> table_bit(
            init,
            pin_index(
                bit_value(values, inputs[0]),
                bit_value(values, inputs[1]),
                bit_value(values, inputs[2]),
                bit_value(values, inputs[3]),
            ),
        ) == if bit_value(values, select) {
            bit_value(values, on)
        } else {
            bit_value(values, off)
        },
{
    law_mux_decomposition(init);
    if let Some(code) = crate::wide_mux::first_mux_code(init, 0) {
        let a = bit_value(values, inputs[0]);
        let b = bit_value(values, inputs[1]);
        let c = bit_value(values, inputs[2]);
        let d = bit_value(values, inputs[3]);
        lemma_pin_bits(a, b, c, d);
        let index = pin_index(a, b, c, d);
        assert(selects_at(init, code / 16, code / 4 % 4, code % 4, index));
        assert(code / 16 < 4);
    }
}

/// What holds while dedicated muxes are being placed.
pub open spec fn keeps_tables(
    cells: Seq<CellModel>,
    candidates: Seq<MuxCandidate>,
    count: nat,
    wide: WideModel,
) -> bool {
    &&& cells.len() <= wide.netlist.cells.len()
    &&& forall|i: int|
        0 <= i < cells.len() && (#[trigger] wide.netlist.cells[i]) is Lut4
            ==> wide.netlist.cells[i] == cells[i]
    &&& forall|k: int|
        count <= k < candidates.len() ==> wide.netlist.cells[(
        #[trigger] candidates[k]).root as int] == cells[candidates[k].root as int]
    &&& lut_count(wide.netlist.cells) + wide.placed == lut_count(cells) + wide.clones
    &&& wide.clones <= wide.placed
}

proof fn lemma_place_mux(
    values: spec_fn(u32) -> bool,
    cells: Seq<CellModel>,
    candidates: Seq<MuxCandidate>,
    count: nat,
    wide: WideModel,
)
    requires
        count < candidates.len(),
        are_good(
            candidates,
            |candidate: MuxCandidate|
                is_candidate(cells, candidate) && has_drivers(cells, candidate),
        ),
        keeps_tables(cells, candidates, count, wide),
    ensures
        keeps_tables(cells, candidates, count + 1, place_mux(wide, candidates[count as int])),
        cells_agree(values, place_mux(wide, candidates[count as int]).netlist.cells)
            ==> cells_agree(values, wide.netlist.cells),
{
    let good = |candidate: MuxCandidate|
        is_candidate(cells, candidate) && has_drivers(cells, candidate);
    let candidate = candidates[count as int];
    let next = place_mux(wide, candidate);
    assert(good(candidate));
    if crate::wide_mux::can_place(wide, candidate) {
        let root = candidate.root as int;
        let before = wide.netlist.cells;
        let after = next.netlist.cells;
        let on_clone = needs_clone(wide, candidate.on_driver, candidate.on);
        let off_clone = needs_clone(wide, candidate.off_driver, candidate.off);
        let one = claim_driver(wide, candidate.on_driver, on_clone);
        let two = claim_driver(one, candidate.off_driver, off_clone);
        assert(before[candidate.root as int] == cells[root]);
        assert(before[candidate.on_driver as int] == cells[candidate.on_driver as int]);
        assert(before[candidate.off_driver as int] == cells[candidate.off_driver as int]);
        if on_clone {
            lemma_lut_count_push(before, one.netlist.cells.last());
        }
        if off_clone {
            lemma_lut_count_push(one.netlist.cells, two.netlist.cells.last());
        }
        lemma_lut_count_update(two.netlist.cells, root, after[root]);
        assert forall|k: int| count + 1 <= k < candidates.len() implies after[(
        #[trigger] candidates[k]).root as int] == cells[candidates[k].root as int] by {
            assert(candidates[count as int].root != candidates[k].root);
            assert(good(candidates[k]));
        }
        if cells_agree(values, after) {
            assert(cell_agrees(values, after[root]));
            law_mux_inputs_select(
                values,
                cells[root]->Lut4_inputs,
                cells[root]->Lut4_init,
            );
            if on_clone {
                assert(cell_agrees(values, after[before.len() as int]));
                if candidate.on_driver != candidate.root {
                    assert(cell_agrees(values, after[candidate.on_driver as int]));
                }
            }
            if off_clone {
                assert(cell_agrees(values, after[one.netlist.cells.len() as int]));
                if candidate.off_driver != candidate.root {
                    assert(cell_agrees(values, after[candidate.off_driver as int]));
                }
            }
            assert forall|i: int| 0 <= i < before.len() implies cell_agrees(
                values,
                #[trigger] before[i],
            ) by {
                if i != root {
                    assert(after[i] == before[i]);
                }
            }
        }
    }
}

/// What holds while muxes are placed.
pub proof fn lemma_place_muxes(
    values: spec_fn(u32) -> bool,
    netlist: NetlistModel,
    candidates: Seq<MuxCandidate>,
    count: nat,
)
    requires
        count <= candidates.len(),
        are_good(
            candidates,
            |candidate: MuxCandidate|
                is_candidate(netlist.cells, candidate) && has_drivers(netlist.cells, candidate),
        ),
    ensures
        keeps_tables(
            netlist.cells,
            candidates,
            count,
            place_muxes(wide_start(netlist), candidates, count),
        ),
        cells_agree(
            values,
            place_muxes(wide_start(netlist), candidates, count).netlist.cells,
        ) ==> cells_agree(values, netlist.cells),
    decreases count,
{
    if count > 0 {
        let last = (count - 1) as nat;
        lemma_place_muxes(values, netlist, candidates, last);
        lemma_place_mux(
            values,
            netlist.cells,
            candidates,
            last,
            place_muxes(wide_start(netlist), candidates, last),
        );
    }
}

/// What holds while wide muxes are placed.
pub proof fn lemma_place_l6s(
    values: spec_fn(u32) -> bool,
    cells: Seq<CellModel>,
    candidates: Seq<MuxCandidate>,
    count: nat,
)
    requires
        count <= candidates.len(),
        are_good(candidates, |candidate: MuxCandidate| is_candidate(cells, candidate)),
    ensures
        ({
            let l6 = place_l6s(L6Model { cells, claimed: seq![] }, candidates, count);
            &&& l6.cells.len() == cells.len()
            &&& lut_count(l6.cells) <= lut_count(cells)
            &&& forall|k: int|
                count <= k < candidates.len() ==> l6.cells[(
                #[trigger] candidates[k]).root as int] == cells[candidates[k].root as int]
            &&& cells_agree(values, l6.cells) ==> cells_agree(values, cells)
        }),
    decreases count,
{
    let good = |candidate: MuxCandidate| is_candidate(cells, candidate);
    if count > 0 {
        let last = (count - 1) as nat;
        lemma_place_l6s(values, cells, candidates, last);
        let before = place_l6s(L6Model { cells, claimed: seq![] }, candidates, last);
        let candidate = candidates[last as int];
        let after = place_l6(before, candidate);
        let root = candidate.root as int;
        assert(good(candidate));
        assert(before.cells[candidate.root as int] == cells[root]);
        if after != before {
            lemma_lut_count_update(before.cells, root, after.cells[root]);
            assert forall|k: int| count <= k < candidates.len() implies after.cells[(
            #[trigger] candidates[k]).root as int] == cells[candidates[k].root as int] by {
                assert(candidates[last as int].root != candidates[k].root);
                assert(good(candidates[k]));
            }
            if cells_agree(values, after.cells) {
                assert(cell_agrees(values, after.cells[root]));
                law_mux_inputs_select(
                    values,
                    cells[root]->Lut4_inputs,
                    cells[root]->Lut4_init,
                );
                assert forall|i: int| 0 <= i < before.cells.len() implies cell_agrees(
                    values,
                    #[trigger] before.cells[i],
                ) by {
                    if i != root {
                        assert(after.cells[i] == before.cells[i]);
                    }
                }
            }
        }
    }
}

/// Dedicated muxes keep every value: a valuation with which the cells agree
/// afterwards is one with which they agreed before. They never cost a lookup
/// table.
pub proof fn law_wide_muxes_keep_values(values: spec_fn(u32) -> bool, netlist: NetlistModel)
    requires
        netlist.cells.len() <= usize::MAX,
        with_pfu_muxes(netlist).cells.len() <= usize::MAX,
    ensures
        cells_agree(values, with_l6_muxes(with_pfu_muxes(netlist)).cells) ==> cells_agree(
            values,
            netlist.cells,
        ),
        lut_count(with_l6_muxes(with_pfu_muxes(netlist)).cells) <= lut_count(netlist.cells),
{
    let cells = netlist.cells;
    let candidates = mux_candidates(cells, depths_of(netlist), cells.len());
    lemma_mux_candidates(cells, depths_of(netlist), cells.len());
    lemma_place_muxes(values, netlist, candidates, candidates.len());
    let wide = with_pfu_muxes(netlist);
    let wider = l6_candidates(wide, depths_of(wide), wide.cells.len());
    lemma_l6_candidates(wide, depths_of(wide), wide.cells.len());
    lemma_place_l6s(values, wide.cells, wider, wider.len());
}

proof fn lemma_pfu_keeps_others(
    netlist: NetlistModel,
    candidates: Seq<MuxCandidate>,
    count: nat,
    at: int,
)
    requires
        count <= candidates.len(),
        are_good(
            candidates,
            |candidate: MuxCandidate|
                is_candidate(netlist.cells, candidate) && has_drivers(netlist.cells, candidate),
        ),
        0 <= at < netlist.cells.len(),
        !(netlist.cells[at] is Lut4),
    ensures
        netlist.cells.len() <= place_muxes(
            wide_start(netlist),
            candidates,
            count,
        ).netlist.cells.len(),
        place_muxes(wide_start(netlist), candidates, count).netlist.cells[at]
            == netlist.cells[at],
    decreases count,
{
    if count > 0 {
        let good = |candidate: MuxCandidate|
            is_candidate(netlist.cells, candidate) && has_drivers(netlist.cells, candidate);
        lemma_pfu_keeps_others(netlist, candidates, (count - 1) as nat, at);
        let candidate = candidates[count - 1];
        assert(good(candidate));
        assert(candidate.root != at);
    }
}

proof fn lemma_l6_keeps_others(
    cells: Seq<CellModel>,
    candidates: Seq<MuxCandidate>,
    count: nat,
    at: int,
)
    requires
        count <= candidates.len(),
        are_good(candidates, |candidate: MuxCandidate| is_candidate(cells, candidate)),
        0 <= at < cells.len(),
        !(cells[at] is Lut4),
    ensures
        ({
            let placed = place_l6s(L6Model { cells, claimed: seq![] }, candidates, count);
            placed.cells.len() == cells.len() && placed.cells[at] == cells[at]
        }),
    decreases count,
{
    if count > 0 {
        let good = |candidate: MuxCandidate| is_candidate(cells, candidate);
        lemma_l6_keeps_others(cells, candidates, (count - 1) as nat, at);
        let candidate = candidates[count - 1];
        assert(good(candidate));
        assert(candidate.root != at);
    }
}

proof fn lemma_place_ports(wide: WideModel, candidates: Seq<MuxCandidate>, count: nat)
    ensures
        place_muxes(wide, candidates, count).netlist.ports == wide.netlist.ports,
    decreases count,
{
    if count > 0 {
        lemma_place_ports(wide, candidates, (count - 1) as nat);
    }
}

/// Dedicated muxes keep the ports.
pub proof fn lemma_pfu_ports(netlist: NetlistModel)
    ensures
        with_l6_muxes(with_pfu_muxes(netlist)).ports == netlist.ports,
{
    let candidates = mux_candidates(netlist.cells, depths_of(netlist), netlist.cells.len());
    lemma_place_ports(wide_start(netlist), candidates, candidates.len());
}

/// Dedicated muxes replace lookup tables alone: every other cell stays where it is.
pub proof fn law_wide_muxes_keep_other_cells(netlist: NetlistModel, at: int)
    requires
        netlist.cells.len() <= usize::MAX,
        with_pfu_muxes(netlist).cells.len() <= usize::MAX,
        0 <= at < netlist.cells.len(),
        !(netlist.cells[at] is Lut4),
    ensures
        at < with_l6_muxes(with_pfu_muxes(netlist)).cells.len(),
        with_l6_muxes(with_pfu_muxes(netlist)).cells[at] == netlist.cells[at],
{
    let cells = netlist.cells;
    let candidates = mux_candidates(cells, depths_of(netlist), cells.len());
    lemma_mux_candidates(cells, depths_of(netlist), cells.len());
    lemma_pfu_keeps_others(netlist, candidates, candidates.len(), at);
    let wide = with_pfu_muxes(netlist);
    let wider = l6_candidates(wide, depths_of(wide), wide.cells.len());
    lemma_l6_candidates(wide, depths_of(wide), wide.cells.len());
    lemma_l6_keeps_others(wide.cells, wider, wider.len(), at);
}

} // verus!
