//! Clock-enable fanout constraints on mapped registers.

use vstd::prelude::*;

use crate::cells::clamped;
use crate::cells::mapped_cell_name;
use crate::cells::Bit;
use crate::cells::CellModel;
use crate::cells::Ecp5Cell;
use crate::errors::FanoutFault;
use crate::errors::RegisterEnableFanoutError;
use crate::memory::lemma_parts;
use crate::memory::part_count;
use crate::memory::part_end;
use crate::memory::parts;
use crate::netlist::cell_models;
use crate::netlist::copy_cells;
use crate::netlist::free_wire;
use crate::netlist::next_free_wire;
use crate::netlist::signs_off;
use crate::netlist::unique_cell_name;
use crate::netlist::unique_name;
use crate::netlist::verify_mapped_equivalence_proof;
use crate::netlist::Ecp5Netlist;
use crate::netlist::MappedEquivalenceProof;
use crate::netlist::NetlistModel;
use crate::netlist::RetimingSelection;
use crate::replicate::enable_signal;
use crate::replicate::set_enable;
use crate::replicate::with_enable;
use crate::text::characters;
use crate::text::decimal;
use crate::text::decimal_text;
use crate::text::join;

verus! {

/// Whether the rest of a name from `n` matches the rest of a pattern from `p`:
/// a star stands for any characters, a question mark for one.
pub open spec fn glob_from(pattern: Seq<char>, name: Seq<char>, p: int, n: int) -> bool
    decreases pattern.len() - p, name.len() - n,
{
    if p >= pattern.len() {
        n >= name.len()
    } else if pattern[p] == '*' {
        glob_from(pattern, name, p + 1, n) || (n < name.len() && glob_from(
            pattern,
            name,
            p,
            n + 1,
        ))
    } else {
        n < name.len() && (pattern[p] == '?' || pattern[p] == name[n]) && glob_from(
            pattern,
            name,
            p + 1,
            n + 1,
        )
    }
}

/// Whether a name matches a pattern of literal text, `*` and `?`.
pub open spec fn glob_matches(pattern: Seq<char>, name: Seq<char>) -> bool {
    glob_from(pattern, name, 0, 0)
}

proof fn lemma_star_reaches_back(pattern: Seq<char>, name: Seq<char>, p: int, n: int, later: int)
    requires
        0 <= p < pattern.len(),
        pattern[p] == '*',
        n <= later <= name.len(),
        glob_from(pattern, name, p, later),
    ensures
        glob_from(pattern, name, p, n),
    decreases later - n,
{
    if n < later {
        lemma_star_reaches_back(pattern, name, p, n + 1, later);
    }
}

proof fn lemma_literal_run(pattern: Seq<char>, name: Seq<char>, p: int, end: int, n: int)
    requires
        0 <= p <= end <= pattern.len(),
        0 <= n <= name.len(),
        forall|i: int| p <= i < end ==> #[trigger] pattern[i] != '*',
        glob_from(pattern, name, p, n),
    ensures
        n + (end - p) <= name.len(),
        glob_from(pattern, name, end, n + (end - p)),
    decreases end - p,
{
    if p < end {
        assert(pattern[p] != '*');
        lemma_literal_run(pattern, name, p + 1, end, n + 1);
    }
}

/// A later start of the star at `star` that matches shows that the star at `p`
/// matches from where the first attempt ended.
proof fn lemma_later_star(
    pattern: Seq<char>,
    name: Seq<char>,
    star: int,
    retry: int,
    p: int,
    n: int,
    start: int,
)
    requires
        0 <= star < p < pattern.len(),
        pattern[star] == '*',
        pattern[p] == '*',
        forall|i: int| star < i < p ==> #[trigger] pattern[i] != '*',
        0 <= retry <= start <= name.len(),
        n - retry == p - (star + 1),
        glob_from(pattern, name, star, start),
    ensures
        glob_from(pattern, name, p, n),
    decreases name.len() - start,
{
    if glob_from(pattern, name, star + 1, start) {
        lemma_literal_run(pattern, name, star + 1, p, start);
        lemma_star_reaches_back(pattern, name, p, n, start + (p - (star + 1)));
    } else {
        lemma_later_star(pattern, name, star, retry, p, n, start + 1);
    }
}

/// A star attempt that used up the name leaves no room for a later start.
proof fn lemma_no_later_start(
    pattern: Seq<char>,
    name: Seq<char>,
    star: int,
    p: int,
    start: int,
)
    requires
        0 <= star < p <= pattern.len(),
        pattern[star] == '*',
        forall|i: int| star < i < p ==> #[trigger] pattern[i] != '*',
        0 <= start <= name.len(),
        start + (p - (star + 1)) > name.len(),
    ensures
        !glob_from(pattern, name, star, start),
    decreases name.len() - start,
{
    if glob_from(pattern, name, star + 1, start) {
        lemma_literal_run(pattern, name, star + 1, p, start);
    }
    if start < name.len() {
        lemma_no_later_start(pattern, name, star, p, start + 1);
    }
}

/// Whether a name matches a pattern of literal text, `*` and `?`.
pub fn mapped_cell_glob_matches(glob: &str, cell: &str) -> (found: bool)
    ensures
        found == glob_matches(glob@, cell@),
{
    let pattern = characters(glob);
    let name = characters(cell);
    let plen: usize = pattern.len();
    let nlen: usize = name.len();
    let ghost goal = glob_from(pattern@, name@, 0, 0);
    let mut p: usize = 0;
    let mut n: usize = 0;
    let mut star: Option<usize> = None;
    let mut retry: usize = 0;
    while n < nlen
        invariant
            plen == pattern@.len(),
            nlen == name@.len(),
            p <= plen,
            n <= nlen,
            goal == glob_matches(glob@, cell@),
            goal == glob_from(pattern@, name@, 0, 0),
            match star {
                Some(s) => s < p && pattern@[s as int] == '*' && retry <= n && n - retry == p - (
                s + 1) && (forall|i: int| s < i < p ==> #[trigger] pattern@[i] != '*') && goal
                    == glob_from(pattern@, name@, s as int, retry as int) && glob_from(
                    pattern@,
                    name@,
                    s + 1,
                    retry as int,
                ) == glob_from(pattern@, name@, p as int, n as int),
                None => goal == glob_from(pattern@, name@, p as int, n as int),
            },
        decreases
                match star {
                    Some(s) => plen - s,
                    None => plen + 1,
                },
                nlen - retry,
                nlen - n,
    {
        if p < plen && pattern[p] != '*' && (pattern[p] == '?' || pattern[p] == name[n]) {
            p += 1;
            n += 1;
        } else if p < plen && pattern[p] == '*' {
            proof {
                if let Some(s) = star {
                    if goal {
                        lemma_later_star(
                            pattern@,
                            name@,
                            s as int,
                            retry as int,
                            p as int,
                            n as int,
                            retry as int,
                        );
                    }
                }
            }
            star = Some(p);
            p += 1;
            retry = n;
        } else if let Some(s) = star {
            p = s + 1;
            retry += 1;
            n = retry;
        } else {
            return false;
        }
    }
    proof {
        if let Some(s) = star {
            if retry < nlen {
                lemma_no_later_start(pattern@, name@, s as int, p as int, retry + 1);
            }
        }
    }
    assert(goal == glob_from(pattern@, name@, p as int, nlen as int));
    while p < plen && pattern[p] == '*'
        invariant
            plen == pattern@.len(),
            nlen == name@.len(),
            p <= plen,
            goal == glob_from(pattern@, name@, p as int, nlen as int),
        decreases plen - p,
    {
        p += 1;
    }
    p == plen
}

/// Per-register control of the physical fanout seen at the ECP5 clock-enable
/// pin. Patterns match final mapped flip-flop names and accept `*` and `?`.
#[derive(Clone, Debug, Eq, PartialEq)]
pub struct RegisterEnableFanoutConstraint {
    /// Mapped flip-flop name or glob pattern.
    pub cell: String,
    /// Maximum number of constrained flip-flop CE pins on each generated branch.
    pub max_fanout: usize,
}

impl RegisterEnableFanoutConstraint {
    /// Creates one mapped-register clock-enable constraint.
    pub fn new(cell: &str, max_fanout: usize) -> (constraint: Self)
        ensures
            constraint.cell@ == cell@,
            constraint.max_fanout == max_fanout,
    {
        RegisterEnableFanoutConstraint { cell: cell.to_owned(), max_fanout }
    }
}

/// Observable result of applying per-register clock-enable constraints.
#[derive(Clone, Copy, Debug, Eq, PartialEq, Structural)]
pub struct RegisterEnableFanoutReport {
    /// Flip-flops matched by the supplied patterns.
    pub matched_registers: usize,
    /// Flip-flop CE pins moved onto generated branches.
    pub rewired_registers: usize,
    /// Equivalent LUT branches inserted or replicated.
    pub inserted_branches: usize,
}

impl Default for RegisterEnableFanoutReport {
    fn default() -> (report: Self)
        ensures
            report.matched_registers == 0,
            report.rewired_registers == 0,
            report.inserted_branches == 0,
    {
        RegisterEnableFanoutReport {
            matched_registers: 0,
            rewired_registers: 0,
            inserted_branches: 0,
        }
    }
}

/// Whether a cell is a flip-flop whose name matches a pattern.
pub open spec fn is_selected(cell: CellModel, pattern: Seq<char>) -> bool {
    cell is FlipFlop && glob_matches(pattern, cell.cell_name())
}

/// The first of the first `count` constraints that selects a cell.
pub open spec fn selecting(
    cell: CellModel,
    constraints: Seq<RegisterEnableFanoutConstraint>,
    from: int,
    count: int,
) -> Option<int>
    decreases count - from,
{
    if from >= count {
        None
    } else if is_selected(cell, constraints[from].cell@) {
        Some(from)
    } else {
        selecting(cell, constraints, from + 1, count)
    }
}

/// How many of the first `count` cells a pattern selects.
pub open spec fn selected_count(cells: Seq<CellModel>, pattern: Seq<char>, count: nat) -> nat
    decreases count,
{
    if count == 0 {
        0
    } else {
        selected_count(cells, pattern, (count - 1) as nat) + if is_selected(
            cells[count - 1],
            pattern,
        ) {
            1nat
        } else {
            0
        }
    }
}

/// The first cell from `from` on that constraint `index` and an earlier one both select.
pub open spec fn overlap(
    cells: Seq<CellModel>,
    constraints: Seq<RegisterEnableFanoutConstraint>,
    index: int,
    from: int,
) -> Option<FanoutFault>
    decreases cells.len() - from,
{
    if from >= cells.len() {
        None
    } else if is_selected(cells[from], constraints[index].cell@) && selecting(
        cells[from],
        constraints,
        0,
        index,
    ) is Some {
        Some(
            FanoutFault::OverlappingPatterns {
                cell: cells[from].cell_name(),
                first: constraints[selecting(cells[from], constraints, 0, index)->0].cell@,
                second: constraints[index].cell@,
            },
        )
    } else {
        overlap(cells, constraints, index, from + 1)
    }
}

/// What is wrong with the first faulty constraint at or after `from`.
pub open spec fn constraints_fault(
    cells: Seq<CellModel>,
    constraints: Seq<RegisterEnableFanoutConstraint>,
    from: int,
) -> Option<FanoutFault>
    decreases constraints.len() - from,
{
    if from >= constraints.len() {
        None
    } else {
        let pattern = constraints[from].cell@;
        if constraints[from].max_fanout == 0 {
            Some(FanoutFault::ZeroFanout { pattern })
        } else if selected_count(cells, pattern, cells.len()) == 0 {
            Some(FanoutFault::UnmatchedPattern { pattern })
        } else {
            match overlap(cells, constraints, from, 0) {
                Some(fault) => Some(fault),
                None => constraints_fault(cells, constraints, from + 1),
            }
        }
    }
}

/// How many flip-flops the first `count` constraints select.
pub open spec fn matched_count(
    cells: Seq<CellModel>,
    constraints: Seq<RegisterEnableFanoutConstraint>,
    count: nat,
) -> nat
    decreases count,
{
    if count == 0 {
        0
    } else {
        matched_count(cells, constraints, (count - 1) as nat) + selected_count(
            cells,
            constraints[count - 1].cell@,
            cells.len(),
        )
    }
}

/// Why the enable of a selected flip-flop cannot be constrained.
pub open spec fn enable_fault(
    cell: CellModel,
    constraints: Seq<RegisterEnableFanoutConstraint>,
) -> Option<FanoutFault> {
    if selecting(cell, constraints, 0, constraints.len() as int) is None {
        None
    } else {
        match enable_signal(cell) {
            None => Some(FanoutFault::RegisterHasNoEnable { cell: cell.cell_name() }),
            Some(Bit::Wire(_)) => None,
            Some(_) => Some(FanoutFault::RegisterEnableIsConstant { cell: cell.cell_name() }),
        }
    }
}

/// The first fault among the enables of selected flip-flops from `from` on.
pub open spec fn enables_fault(
    cells: Seq<CellModel>,
    constraints: Seq<RegisterEnableFanoutConstraint>,
    from: int,
) -> Option<FanoutFault>
    decreases cells.len() - from,
{
    if from >= cells.len() {
        None
    } else {
        match enable_fault(cells[from], constraints) {
            Some(fault) => Some(fault),
            None => enables_fault(cells, constraints, from + 1),
        }
    }
}

/// The selected flip-flops that share an enable wire and a limit.
#[verifier::ext_equal]
pub ghost struct BranchModel {
    pub wire: u32,
    pub max_fanout: usize,
    pub sinks: Seq<usize>,
}

/// Order of branches by wire, then by limit.
pub open spec fn branch_before(a: (u32, usize), b: (u32, usize)) -> bool {
    a.0 < b.0 || (a.0 == b.0 && a.1 < b.1)
}

/// `branches` with one more sink.
pub open spec fn with_sink(
    branches: Seq<BranchModel>,
    wire: u32,
    max_fanout: usize,
    sink: usize,
) -> Seq<BranchModel>
    decreases branches.len(),
{
    if branches.len() == 0 {
        seq![BranchModel { wire, max_fanout, sinks: seq![sink] }]
    } else {
        let last = branches.last();
        if branch_before((last.wire, last.max_fanout), (wire, max_fanout)) {
            branches.push(BranchModel { wire, max_fanout, sinks: seq![sink] })
        } else if last.wire == wire && last.max_fanout == max_fanout {
            branches.drop_last().push(
                BranchModel { wire, max_fanout, sinks: last.sinks.push(sink) },
            )
        } else {
            with_sink(branches.drop_last(), wire, max_fanout, sink).push(last)
        }
    }
}

/// The branches of the selected flip-flops among the first `count` cells.
pub open spec fn branches_of(
    cells: Seq<CellModel>,
    constraints: Seq<RegisterEnableFanoutConstraint>,
    count: nat,
) -> Seq<BranchModel>
    decreases count,
{
    if count == 0 {
        seq![]
    } else {
        let rest = branches_of(cells, constraints, (count - 1) as nat);
        match selecting(cells[count - 1], constraints, 0, constraints.len() as int) {
            Some(index) => match enable_signal(cells[count - 1]) {
                Some(Bit::Wire(wire)) => with_sink(
                    rest,
                    wire,
                    constraints[index].max_fanout,
                    (count - 1) as usize,
                ),
                _ => rest,
            },
            None => rest,
        }
    }
}

fn check_selected(cell: &Ecp5Cell, pattern: &String) -> (selected: bool)
    ensures
        selected == is_selected(cell@, pattern@),
{
    match cell {
        Ecp5Cell::FlipFlop { name, .. } => mapped_cell_glob_matches(
            pattern.as_str(),
            name.as_str(),
        ),
        _ => false,
    }
}

fn find_selecting(
    cell: &Ecp5Cell,
    constraints: &[RegisterEnableFanoutConstraint],
    count: usize,
) -> (index: Option<usize>)
    requires
        count <= constraints@.len(),
    ensures
        match index {
            Some(index) => index < count && selecting(cell@, constraints@, 0, count as int) == Some(
                index as int,
            ),
            None => selecting(cell@, constraints@, 0, count as int) is None,
        },
{
    for i in 0..count
        invariant
            count <= constraints@.len(),
            selecting(cell@, constraints@, 0, count as int) == selecting(
                cell@,
                constraints@,
                i as int,
                count as int,
            ),
    {
        if check_selected(cell, &constraints[i].cell) {
            return Some(i);
        }
    }
    None
}

fn check_constraint(
    cells: &Vec<Ecp5Cell>,
    constraints: &[RegisterEnableFanoutConstraint],
    index: usize,
) -> (result: Result<usize, RegisterEnableFanoutError>)
    requires
        index < constraints@.len(),
        constraints@[index as int].max_fanout > 0,
    ensures
        match result {
            Ok(count) => count == selected_count(
                cell_models(cells@),
                constraints@[index as int].cell@,
                cells@.len(),
            ) && count > 0 && overlap(cell_models(cells@), constraints@, index as int, 0) is None,
            Err(error) => Some(error@) == if selected_count(
                cell_models(cells@),
                constraints@[index as int].cell@,
                cells@.len(),
            ) == 0 {
                Some(
                    FanoutFault::UnmatchedPattern { pattern: constraints@[index as int].cell@ },
                )
            } else {
                overlap(cell_models(cells@), constraints@, index as int, 0)
            },
        },
{
    let ghost models = cell_models(cells@);
    let pattern = &constraints[index].cell;
    let mut count: usize = 0;
    for i in 0..cells.len()
        invariant
            models == cell_models(cells@),
            count <= i,
            count == selected_count(models, pattern@, i as nat),
    {
        assert(models[i as int] == cells@[i as int]@);
        if check_selected(&cells[i], pattern) {
            count = count + 1;
        }
    }
    if count == 0 {
        return Err(RegisterEnableFanoutError::UnmatchedPattern { pattern: pattern.clone() });
    }
    for i in 0..cells.len()
        invariant
            models == cell_models(cells@),
            index < constraints@.len(),
            *pattern == constraints@[index as int].cell,
            count > 0,
            count == selected_count(models, pattern@, cells@.len()),
            overlap(models, constraints@, index as int, 0) == overlap(
                models,
                constraints@,
                index as int,
                i as int,
            ),
    {
        assert(models[i as int] == cells@[i as int]@);
        if check_selected(&cells[i], pattern) {
            if let Some(previous) = find_selecting(&cells[i], constraints, index) {
                return Err(
                    RegisterEnableFanoutError::OverlappingPatterns {
                        cell: mapped_cell_name(&cells[i]).clone(),
                        first: constraints[previous].cell.clone(),
                        second: pattern.clone(),
                    },
                );
            }
        }
    }
    Ok(count)
}

fn check_constraints(
    cells: &Vec<Ecp5Cell>,
    constraints: &[RegisterEnableFanoutConstraint],
) -> (result: Result<usize, RegisterEnableFanoutError>)
    ensures
        match result {
            Ok(matched) => constraints_fault(cell_models(cells@), constraints@, 0) is None
                && matched == clamped(
                matched_count(cell_models(cells@), constraints@, constraints@.len()),
            ) && forall|i: int|
                0 <= i < constraints@.len() ==> (#[trigger] constraints@[i]).max_fanout > 0,
            Err(error) => constraints_fault(cell_models(cells@), constraints@, 0) == Some(error@),
        },
{
    let ghost models = cell_models(cells@);
    let mut matched: usize = 0;
    for i in 0..constraints.len()
        invariant
            models == cell_models(cells@),
            constraints_fault(models, constraints@, 0) == constraints_fault(
                models,
                constraints@,
                i as int,
            ),
            matched == clamped(matched_count(models, constraints@, i as nat)),
            forall|j: int| 0 <= j < i ==> (#[trigger] constraints@[j]).max_fanout > 0,
    {
        if constraints[i].max_fanout == 0 {
            return Err(
                RegisterEnableFanoutError::ZeroFanout { pattern: constraints[i].cell.clone() },
            );
        }
        match check_constraint(cells, constraints, i) {
            Ok(count) => {
                matched = matched.saturating_add(count);
            },
            Err(error) => {
                return Err(error);
            },
        }
    }
    Ok(matched)
}

struct Branch {
    wire: u32,
    max_fanout: usize,
    sinks: Vec<usize>,
}

spec fn branch_models(branches: Seq<Branch>) -> Seq<BranchModel> {
    Seq::new(
        branches.len(),
        |i: int|
            BranchModel {
                wire: branches[i].wire,
                max_fanout: branches[i].max_fanout,
                sinks: branches[i].sinks@,
            },
    )
}

proof fn lemma_with_sink_at(
    branches: Seq<BranchModel>,
    wire: u32,
    max_fanout: usize,
    sink: usize,
    at: int,
)
    requires
        0 <= at <= branches.len(),
        forall|i: int|
            at <= i < branches.len() ==> branch_before(
                (wire, max_fanout),
                ((#[trigger] branches[i]).wire, branches[i].max_fanout),
            ),
        at > 0 ==> !branch_before(
            (wire, max_fanout),
            (branches[at - 1].wire, branches[at - 1].max_fanout),
        ),
    ensures
        at > 0 && branches[at - 1].wire == wire && branches[at - 1].max_fanout == max_fanout
            ==> with_sink(branches, wire, max_fanout, sink) == branches.update(
            at - 1,
            BranchModel { wire, max_fanout, sinks: branches[at - 1].sinks.push(sink) },
        ),
        at == 0 || branches[at - 1].wire != wire || branches[at - 1].max_fanout != max_fanout
            ==> with_sink(branches, wire, max_fanout, sink) == branches.insert(
            at,
            BranchModel { wire, max_fanout, sinks: seq![sink] },
        ),
    decreases branches.len() - at,
{
    let new = BranchModel { wire, max_fanout, sinks: seq![sink] };
    if at == branches.len() {
        if branches.len() == 0 {
            assert(branches.insert(0, new) =~= seq![new]);
        } else {
            assert(branches.insert(at, new) =~= branches.push(new));
            let grown = BranchModel { wire, max_fanout, sinks: branches[at - 1].sinks.push(sink) };
            assert(branches.update(at - 1, grown) =~= branches.drop_last().push(grown));
        }
    } else {
        let rest = branches.drop_last();
        let last = branches[branches.len() - 1];
        assert(branch_before((wire, max_fanout), (last.wire, last.max_fanout)));
        assert forall|i: int| at <= i < rest.len() implies branch_before(
            (wire, max_fanout),
            ((#[trigger] rest[i]).wire, rest[i].max_fanout),
        ) by {
            assert(branches[i] == rest[i]);
        }
        lemma_with_sink_at(rest, wire, max_fanout, sink, at);
        assert(branches.insert(at, new) =~= rest.insert(at, new).push(branches.last()));
        if at > 0 {
            let grown = BranchModel { wire, max_fanout, sinks: branches[at - 1].sinks.push(sink) };
            assert(branches.update(at - 1, grown) =~= rest.update(at - 1, grown).push(
                branches.last(),
            ));
        }
    }
}

spec fn sinks_below(branches: Seq<Branch>, limit: int) -> bool {
    forall|i: int, k: int|
        0 <= i < branches.len() && 0 <= k < (#[trigger] branches[i]).sinks@.len() ==> (
        #[trigger] branches[i].sinks@[k]) < limit
}

spec fn limits_positive(branches: Seq<Branch>) -> bool {
    forall|i: int| 0 <= i < branches.len() ==> (#[trigger] branches[i]).max_fanout > 0
}

fn add_sink(
    branches: &mut Vec<Branch>,
    wire: u32,
    max_fanout: usize,
    sink: usize,
    Ghost(limit): Ghost<int>,
)
    requires
        max_fanout > 0,
        sink < limit,
        sinks_below(old(branches)@, limit),
        limits_positive(old(branches)@),
    ensures
        branch_models(final(branches)@) == with_sink(
            branch_models(old(branches)@),
            wire,
            max_fanout,
            sink,
        ),
        sinks_below(final(branches)@, limit),
        limits_positive(final(branches)@),
{
    let ghost before = branches@;
    let ghost models = branch_models(before);
    let mut at: usize = branches.len();
    while at > 0 && (wire < branches[at - 1].wire || (wire == branches[at - 1].wire && max_fanout
        < branches[at - 1].max_fanout))
        invariant
            branches@ == before,
            models == branch_models(before),
            at <= branches@.len(),
            forall|i: int|
                at <= i < models.len() ==> branch_before(
                    (wire, max_fanout),
                    ((#[trigger] models[i]).wire, models[i].max_fanout),
                ),
        decreases at,
    {
        assert(models[at - 1].wire == branches@[at - 1].wire);
        at -= 1;
    }
    proof {
        lemma_with_sink_at(models, wire, max_fanout, sink, at as int);
    }
    if at > 0 && branches[at - 1].wire == wire && branches[at - 1].max_fanout == max_fanout {
        let mut sinks = crate::cells::copied(&branches[at - 1].sinks);
        let ghost old_sinks = sinks@;
        sinks.push(sink);
        let branch = Branch { wire, max_fanout, sinks };
        branches.set(at - 1, branch);
        assert(branch_models(branches@) =~= models.update(
            at - 1,
            BranchModel { wire, max_fanout, sinks: old_sinks.push(sink) },
        ));
        assert forall|i: int, k: int|
            0 <= i < branches@.len() && 0 <= k < (#[trigger] branches@[i]).sinks@.len() implies (
        #[trigger] branches@[i].sinks@[k]) < limit by {
            if i == at - 1 {
                if k < old_sinks.len() {
                    assert(before[i].sinks@[k] < limit);
                }
            } else {
                assert(before[i].sinks@[k] < limit);
            }
        }
        assert forall|i: int| 0 <= i < branches@.len() implies (#[trigger] branches@[i]).max_fanout
            > 0 by {
            assert(before[i].max_fanout > 0);
        }
    } else {
        let mut sinks: Vec<usize> = Vec::new();
        sinks.push(sink);
        assert(sinks@ =~= seq![sink]);
        branches.insert(at, Branch { wire, max_fanout, sinks });
        assert(branch_models(branches@) =~= models.insert(
            at as int,
            BranchModel { wire, max_fanout, sinks: seq![sink] },
        ));
        assert forall|i: int, k: int|
            0 <= i < branches@.len() && 0 <= k < (#[trigger] branches@[i]).sinks@.len() implies (
        #[trigger] branches@[i].sinks@[k]) < limit by {
            if i < at {
                assert(branches@[i] == before[i]);
                assert(before[i].sinks@[k] < limit);
            } else if i > at {
                assert(branches@[i] == before[i - 1]);
                assert(before[i - 1].sinks@[k] < limit);
            }
        }
        assert forall|i: int| 0 <= i < branches@.len() implies (#[trigger] branches@[i]).max_fanout
            > 0 by {
            if i < at {
                assert(before[i].max_fanout > 0);
            } else if i > at {
                assert(before[i - 1].max_fanout > 0);
            }
        }
    }
}

fn collect_branches(
    cells: &Vec<Ecp5Cell>,
    constraints: &[RegisterEnableFanoutConstraint],
) -> (result: Result<Vec<Branch>, RegisterEnableFanoutError>)
    requires
        forall|i: int| 0 <= i < constraints@.len() ==> (#[trigger] constraints@[i]).max_fanout > 0,
    ensures
        match result {
            Ok(branches) => enables_fault(cell_models(cells@), constraints@, 0) is None
                && branch_models(branches@) == branches_of(
                cell_models(cells@),
                constraints@,
                cells@.len(),
            ) && sinks_below(branches@, cells@.len() as int) && limits_positive(branches@),
            Err(error) => enables_fault(cell_models(cells@), constraints@, 0) == Some(error@),
        },
{
    let ghost models = cell_models(cells@);
    let mut branches: Vec<Branch> = Vec::new();
    assert(branch_models(branches@) =~= Seq::<BranchModel>::empty());
    for i in 0..cells.len()
        invariant
            models == cell_models(cells@),
            forall|i: int|
                0 <= i < constraints@.len() ==> (#[trigger] constraints@[i]).max_fanout > 0,
            enables_fault(models, constraints@, 0) == enables_fault(
                models,
                constraints@,
                i as int,
            ),
            branch_models(branches@) == branches_of(models, constraints@, i as nat),
            sinks_below(branches@, cells@.len() as int),
            limits_positive(branches@),
    {
        assert(models[i as int] == cells@[i as int]@);
        if let Some(index) = find_selecting(&cells[i], constraints, constraints.len()) {
            match &cells[i] {
                Ecp5Cell::FlipFlop { name, enable, .. } => {
                    match enable {
                        Some(control) => {
                            match control.signal {
                                Bit::Wire(wire) => {
                                    let limit = constraints[index].max_fanout;
                                    add_sink(
                                        &mut branches,
                                        wire,
                                        limit,
                                        i,
                                        Ghost(cells@.len() as int),
                                    );
                                },
                                _ => {
                                    return Err(
                                        RegisterEnableFanoutError::RegisterEnableIsConstant {
                                            cell: name.clone(),
                                        },
                                    );
                                },
                            }
                        },
                        None => {
                            return Err(
                                RegisterEnableFanoutError::RegisterHasNoEnable {
                                    cell: name.clone(),
                                },
                            );
                        },
                    }
                },
                _ => {
                    proof {
                        lemma_selecting_register(
                            models[i as int],
                            constraints@,
                            0,
                            constraints@.len() as int,
                        );
                    }
                },
            }
        }
    }
    Ok(branches)
}

proof fn lemma_selecting_register(
    cell: CellModel,
    constraints: Seq<RegisterEnableFanoutConstraint>,
    from: int,
    count: int,
)
    requires
        !(cell is FlipFlop),
    ensures
        selecting(cell, constraints, from, count) is None,
    decreases count - from,
{
    if from < count {
        lemma_selecting_register(cell, constraints, from + 1, count);
    }
}

/// The first lookup table from `from` on that drives `wire`.
pub open spec fn driving_lut(cells: Seq<CellModel>, wire: u32, from: int) -> Option<int>
    decreases cells.len() - from,
{
    if from >= cells.len() {
        None
    } else if cells[from] matches CellModel::Lut4 { output, .. } && output == wire {
        Some(from)
    } else {
        driving_lut(cells, wire, from + 1)
    }
}

/// Truth table of a buffer on the first input.
pub const BUFFER_INIT: u16 = 0xaaaa;

/// A branch that drives `output` like `wire`: a copy of the lookup table that
/// drives the wire, or a buffer where there is none.
pub open spec fn enable_branch(
    original: Seq<CellModel>,
    cells: Seq<CellModel>,
    wire: u32,
    max_fanout: usize,
    output: u32,
) -> CellModel {
    let (base, inputs, init) = match driving_lut(original, wire, 0) {
        Some(index) => match original[index] {
            CellModel::Lut4 { name, inputs, init, .. } => (name, inputs, init),
            _ => (seq![], [Bit::Zero, Bit::Zero, Bit::Zero, Bit::Zero], 0u16),
        },
        None => (
            "wire_"@ + decimal_text(wire as nat),
            [Bit::Wire(wire), Bit::Zero, Bit::Zero, Bit::Zero],
            BUFFER_INIT,
        ),
    };
    CellModel::Lut4 {
        name: unique_name(
            "constrain_enable_"@ + base + "_"@ + decimal_text(max_fanout as nat),
            cells,
            None,
        ),
        inputs,
        output,
        init,
    }
}

/// The cells with the enables of the sinks from `start` up to `end` on `wire`.
pub open spec fn sinks_moved(
    cells: Seq<CellModel>,
    sinks: Seq<usize>,
    start: int,
    end: int,
    wire: u32,
) -> Seq<CellModel>
    decreases end - start,
{
    if end <= start {
        cells
    } else {
        let rest = sinks_moved(cells, sinks, start, end - 1, wire);
        let sink = sinks[end - 1] as int;
        rest.update(sink, with_enable(rest[sink], wire))
    }
}

/// State of branch insertion.
#[verifier::ext_equal]
pub ghost struct InsertionModel {
    pub cells: Seq<CellModel>,
    pub next_wire: u32,
    pub inserted: nat,
    pub rewired: nat,
    pub exhausted: bool,
}

/// The state after the first `count` chunks of a branch were inserted.
pub open spec fn chunks_inserted(
    original: Seq<CellModel>,
    state: InsertionModel,
    branch: BranchModel,
    count: nat,
) -> InsertionModel
    decreases count,
{
    if count == 0 {
        state
    } else {
        let rest = chunks_inserted(original, state, branch, (count - 1) as nat);
        let size = branch.max_fanout as int;
        let start = (count - 1) * size;
        let end = part_end(branch.sinks.len() as int, size, count - 1);
        let output = rest.next_wire;
        if rest.exhausted || output == u32::MAX {
            InsertionModel { exhausted: true, ..rest }
        } else {
            let moved = sinks_moved(rest.cells, branch.sinks, start, end, output);
            InsertionModel {
                cells: moved.push(
                    enable_branch(original, moved, branch.wire, branch.max_fanout, output),
                ),
                next_wire: (output + 1) as u32,
                inserted: rest.inserted + 1,
                rewired: rest.rewired + (end - start) as nat,
                exhausted: false,
            }
        }
    }
}

/// The state after the first `count` branches were inserted.
pub open spec fn branches_inserted(
    original: Seq<CellModel>,
    state: InsertionModel,
    branches: Seq<BranchModel>,
    count: nat,
) -> InsertionModel
    decreases count,
{
    if count == 0 {
        state
    } else {
        let branch = branches[count - 1];
        chunks_inserted(
            original,
            branches_inserted(original, state, branches, (count - 1) as nat),
            branch,
            parts(branch.sinks.len() as int, branch.max_fanout as int) as nat,
        )
    }
}

/// Every inserted branch drives at most as many constrained enables as its
/// constraint allows, and at least one.
pub proof fn law_branch_fanout_is_bounded(branch: BranchModel, chunk: int)
    requires
        branch.max_fanout > 0,
        0 <= chunk < parts(branch.sinks.len() as int, branch.max_fanout as int),
    ensures
        ({
            let size = branch.max_fanout as int;
            let driven = part_end(branch.sinks.len() as int, size, chunk) - chunk * size;
            0 < driven <= branch.max_fanout
        }),
{
    lemma_parts(branch.sinks.len() as int, branch.max_fanout as int, chunk);
}

fn find_driving_lut(cells: &Vec<Ecp5Cell>, wire: u32) -> (index: Option<usize>)
    ensures
        match index {
            Some(index) => index < cells@.len() && driving_lut(cell_models(cells@), wire, 0)
                == Some(index as int),
            None => driving_lut(cell_models(cells@), wire, 0) is None,
        },
{
    let ghost models = cell_models(cells@);
    for i in 0..cells.len()
        invariant
            models == cell_models(cells@),
            driving_lut(models, wire, 0) == driving_lut(models, wire, i as int),
    {
        assert(models[i as int] == cells@[i as int]@);
        if let Ecp5Cell::Lut4 { output, .. } = &cells[i] {
            if *output == wire {
                return Some(i);
            }
        }
    }
    None
}

fn make_enable_branch(
    original: &Vec<Ecp5Cell>,
    cells: &Vec<Ecp5Cell>,
    wire: u32,
    max_fanout: usize,
    output: u32,
) -> (cell: Ecp5Cell)
    ensures
        cell@ == enable_branch(
            cell_models(original@),
            cell_models(cells@),
            wire,
            max_fanout,
            output,
        ),
{
    let (base, inputs, init) = match find_driving_lut(original, wire) {
        Some(index) => {
            assert(cell_models(original@)[index as int] == original@[index as int]@);
            match &original[index] {
                Ecp5Cell::Lut4 { name, inputs, init, .. } => (name.clone(), *inputs, *init),
                _ => ("".to_owned(), [Bit::Zero, Bit::Zero, Bit::Zero, Bit::Zero], 0),
            }
        },
        None => (
            join("wire_", decimal(wire as u128).as_str()),
            [Bit::Wire(wire), Bit::Zero, Bit::Zero, Bit::Zero],
            BUFFER_INIT,
        ),
    };
    let mut stem = join("constrain_enable_", base.as_str());
    stem.append("_");
    stem.append(decimal(max_fanout as u128).as_str());
    assert(driving_lut(cell_models(original@), wire, 0) matches Some(index) ==> cell_models(
        original@,
    )[index] is Lut4) by {
        lemma_driving_lut(cell_models(original@), wire, 0);
    }
    Ecp5Cell::Lut4 {
        name: unique_cell_name(stem.as_str(), cells, None),
        inputs,
        output,
        init,
    }
}

proof fn lemma_driving_lut(cells: Seq<CellModel>, wire: u32, from: int)
    requires
        0 <= from,
    ensures
        driving_lut(cells, wire, from) matches Some(index) ==> from <= index < cells.len()
            && cells[index] is Lut4,
    decreases cells.len() - from,
{
    if from < cells.len() {
        lemma_driving_lut(cells, wire, from + 1);
    }
}

fn move_sinks(cells: &mut Vec<Ecp5Cell>, sinks: &Vec<usize>, start: usize, end: usize, wire: u32)
    requires
        start <= end <= sinks@.len(),
        forall|k: int| 0 <= k < sinks@.len() ==> #[trigger] sinks@[k] < old(cells)@.len(),
    ensures
        cell_models(final(cells)@) == sinks_moved(
            cell_models(old(cells)@),
            sinks@,
            start as int,
            end as int,
            wire,
        ),
        final(cells)@.len() == old(cells)@.len(),
{
    let ghost before = cell_models(cells@);
    let ghost size = cells@.len();
    for k in start..end
        invariant
            start <= end <= sinks@.len(),
            cells@.len() == size,
            forall|k: int| 0 <= k < sinks@.len() ==> #[trigger] sinks@[k] < size,
            cell_models(cells@) == sinks_moved(before, sinks@, start as int, k as int, wire),
    {
        assert(sinks@[k as int] < size);
        let sink = sinks[k];
        let ghost now = cells@;
        let mut cell = cells[sink].clone();
        set_enable(&mut cell, wire);
        assert(cell@ == with_enable(cell_models(now)[sink as int], wire));
        let ghost moved = cell@;
        cells.set(sink, cell);
        assert(cell_models(cells@) =~= cell_models(now).update(sink as int, moved));
    }
}

struct Insertion {
    next_wire: u32,
    inserted: usize,
    rewired: usize,
    exhausted: bool,
}

spec fn insertion_is(
    cells: Seq<Ecp5Cell>,
    insertion: Insertion,
    state: InsertionModel,
) -> bool {
    &&& cell_models(cells) == state.cells
    &&& insertion.next_wire == state.next_wire
    &&& insertion.inserted == clamped(state.inserted)
    &&& insertion.rewired == clamped(state.rewired)
    &&& insertion.exhausted == state.exhausted
}

fn insert_chunks(
    original: &Vec<Ecp5Cell>,
    cells: &mut Vec<Ecp5Cell>,
    insertion: Insertion,
    branch: &Branch,
    Ghost(start): Ghost<InsertionModel>,
) -> (after: Insertion)
    requires
        branch.max_fanout > 0,
        insertion_is(old(cells)@, insertion, start),
        forall|k: int|
            0 <= k < branch.sinks@.len() ==> #[trigger] branch.sinks@[k] < old(cells)@.len(),
    ensures
        insertion_is(
            final(cells)@,
            after,
            chunks_inserted(
                cell_models(original@),
                start,
                (BranchModel {
                    wire: branch.wire,
                    max_fanout: branch.max_fanout,
                    sinks: branch.sinks@,
                }),
                parts(branch.sinks@.len() as int, branch.max_fanout as int) as nat,
            ),
        ),
        final(cells)@.len() >= old(cells)@.len(),
{
    let ghost model = BranchModel {
        wire: branch.wire,
        max_fanout: branch.max_fanout,
        sinks: branch.sinks@,
    };
    let ghost size = cells@.len();
    let total: usize = branch.sinks.len();
    let limit: usize = branch.max_fanout;
    let chunks = part_count(total, limit);
    let mut state = insertion;
    for chunk in 0..chunks
        invariant
            limit > 0,
            limit == branch.max_fanout,
            total == branch.sinks@.len(),
            chunks == parts(total as int, limit as int),
            model == (BranchModel {
                wire: branch.wire,
                max_fanout: branch.max_fanout,
                sinks: branch.sinks@,
            }),
            cells@.len() >= size,
            forall|k: int| 0 <= k < branch.sinks@.len() ==> #[trigger] branch.sinks@[k] < size,
            insertion_is(
                cells@,
                state,
                chunks_inserted(cell_models(original@), start, model, chunk as nat),
            ),
    {
        proof {
            lemma_parts(total as int, limit as int, chunk as int);
        }
        if state.exhausted || state.next_wire == u32::MAX {
            state.exhausted = true;
        } else {
            let first: usize = chunk * limit;
            let last: usize = if total - first > limit {
                first + limit
            } else {
                total
            };
            let output = state.next_wire;
            assert forall|k: int| 0 <= k < branch.sinks@.len() implies #[trigger] branch.sinks@[k]
                < cells@.len() by {
                assert(branch.sinks@[k] < size);
            }
            move_sinks(cells, &branch.sinks, first, last, output);
            let cell = make_enable_branch(original, cells, branch.wire, limit, output);
            let ghost before = cells@;
            let ghost added = cell@;
            cells.push(cell);
            assert(cell_models(cells@) =~= cell_models(before).push(added));
            state.next_wire = output + 1;
            state.inserted = state.inserted.saturating_add(1);
            state.rewired = state.rewired.saturating_add(last - first);
        }
    }
    state
}

fn insert_branches(
    original: &Vec<Ecp5Cell>,
    cells: &mut Vec<Ecp5Cell>,
    first_wire: Option<u32>,
    branches: &Vec<Branch>,
) -> (insertion: Insertion)
    requires
        sinks_below(branches@, old(cells)@.len() as int),
        limits_positive(branches@),
    ensures
        insertion_is(
            final(cells)@,
            insertion,
            branches_inserted(
                cell_models(original@),
                insertion_start(cell_models(old(cells)@), first_wire),
                branch_models(branches@),
                branches@.len(),
            ),
        ),
{
    let ghost start = insertion_start(cell_models(cells@), first_wire);
    let ghost models = branch_models(branches@);
    let ghost size = cells@.len();
    let mut insertion = Insertion {
        next_wire: match first_wire {
            Some(wire) => wire,
            None => u32::MAX,
        },
        inserted: 0,
        rewired: 0,
        exhausted: false,
    };
    for i in 0..branches.len()
        invariant
            models == branch_models(branches@),
            sinks_below(branches@, size as int),
            limits_positive(branches@),
            cells@.len() >= size,
            insertion_is(
                cells@,
                insertion,
                branches_inserted(cell_models(original@), start, models, i as nat),
            ),
    {
        let branch = &branches[i];
        let ghost state = branches_inserted(cell_models(original@), start, models, i as nat);
        assert(branches@[i as int].max_fanout > 0);
        assert forall|k: int| 0 <= k < branch.sinks@.len() implies #[trigger] branch.sinks@[k]
            < cells@.len() by {
            assert(branches@[i as int].sinks@[k] < size);
        }
        insertion = insert_chunks(original, cells, insertion, branch, Ghost(state));
    }
    insertion
}

/// Nothing inserted yet.
pub open spec fn insertion_start(cells: Seq<CellModel>, first_wire: Option<u32>) -> InsertionModel {
    InsertionModel {
        cells,
        next_wire: match first_wire {
            Some(wire) => wire,
            None => u32::MAX,
        },
        inserted: 0,
        rewired: 0,
        exhausted: false,
    }
}

/// The cells with every constrained enable on a branch.
pub open spec fn enables_branched(
    netlist: NetlistModel,
    constraints: Seq<RegisterEnableFanoutConstraint>,
) -> InsertionModel {
    let branches = branches_of(netlist.cells, constraints, netlist.cells.len());
    branches_inserted(
        netlist.cells,
        insertion_start(netlist.cells, next_free_wire(netlist)),
        branches,
        branches.len(),
    )
}

/// Why enable fanouts cannot be constrained.
pub open spec fn fanout_fault(
    netlist: NetlistModel,
    constraints: Seq<RegisterEnableFanoutConstraint>,
) -> Option<FanoutFault> {
    match constraints_fault(netlist.cells, constraints, 0) {
        Some(fault) => Some(fault),
        None => match enables_fault(netlist.cells, constraints, 0) {
            Some(fault) => Some(fault),
            None => if enables_branched(netlist, constraints).exhausted {
                Some(FanoutFault::MappedWireOverflow)
            } else {
                None
            },
        },
    }
}

/// A netlist with every constrained enable on a branch, and its ledger.
pub open spec fn fanout_constrained(
    netlist: NetlistModel,
    constraints: Seq<RegisterEnableFanoutConstraint>,
) -> NetlistModel {
    let state = enables_branched(netlist, constraints);
    let inserted = clamped(state.inserted);
    let rewritten = NetlistModel {
        cells: state.cells,
        proof: MappedEquivalenceProof {
            equivalent_logic_replications: clamped(
                netlist.proof.equivalent_logic_replications as nat + inserted as nat,
            ),
            ..netlist.proof
        },
        retiming: RetimingSelection {
            equivalent_logic_replications: clamped(
                netlist.retiming.equivalent_logic_replications as nat + inserted as nat,
            ),
            ..netlist.retiming
        },
        ..netlist
    };
    NetlistModel {
        retiming: RetimingSelection {
            equivalence_signed_off: signs_off(
                rewritten,
                netlist.retiming.applied || inserted != 0,
            ),
            ..rewritten.retiming
        },
        ..rewritten
    }
}

/// What applying enable fanout constraints reports.
pub open spec fn fanout_report(
    netlist: NetlistModel,
    constraints: Seq<RegisterEnableFanoutConstraint>,
) -> RegisterEnableFanoutReport {
    let state = enables_branched(netlist, constraints);
    RegisterEnableFanoutReport {
        matched_registers: clamped(matched_count(netlist.cells, constraints, constraints.len())),
        rewired_registers: clamped(state.rewired),
        inserted_branches: clamped(state.inserted),
    }
}

impl Ecp5Netlist {
    /// Limits the number of constrained clock-enable pins on each branch of an
    /// enable.
    ///
    /// Without constraints, and on an error, the netlist stays as it is.
    pub fn apply_register_enable_fanout_constraints(
        &mut self,
        constraints: &[RegisterEnableFanoutConstraint],
    ) -> (result: Result<RegisterEnableFanoutReport, RegisterEnableFanoutError>)
        ensures
            constraints@.len() == 0 ==> final(self)@ == old(self)@ && (result matches Ok(report)
                && report.matched_registers == 0 && report.rewired_registers == 0
                && report.inserted_branches == 0),
            constraints@.len() > 0 ==> match result {
                Ok(report) => fanout_fault(old(self)@, constraints@) is None && final(self)@
                    == fanout_constrained(old(self)@, constraints@) && report == fanout_report(
                    old(self)@,
                    constraints@,
                ),
                Err(error) => fanout_fault(old(self)@, constraints@) == Some(error@) && final(
                    self)@ == old(self)@,
            },
    {
        if constraints.len() == 0 {
            return Ok(
                RegisterEnableFanoutReport {
                    matched_registers: 0,
                    rewired_registers: 0,
                    inserted_branches: 0,
                },
            );
        }
        let matched = match check_constraints(&self.cells, constraints) {
            Ok(matched) => matched,
            Err(error) => {
                return Err(error);
            },
        };
        let branches = match collect_branches(&self.cells, constraints) {
            Ok(branches) => branches,
            Err(error) => {
                return Err(error);
            },
        };
        let ghost before = self@;
        let first_wire = free_wire(self);
        let mut cells = copy_cells(&self.cells);
        assert(cell_models(cells@).len() == cells@.len());
        assert(cell_models(self.cells@).len() == self.cells@.len());
        assert(branch_models(branches@).len() == branches@.len());
        let insertion = insert_branches(&self.cells, &mut cells, first_wire, &branches);
        if insertion.exhausted {
            return Err(RegisterEnableFanoutError::MappedWireOverflow);
        }
        let inserted = insertion.inserted;
        self.cells = cells;
        self.equivalence_proof.equivalent_logic_replications =
        self.equivalence_proof.equivalent_logic_replications.saturating_add(inserted);
        self.retiming.equivalent_logic_replications =
        self.retiming.equivalent_logic_replications.saturating_add(inserted);
        let signed_off = verify_mapped_equivalence_proof(
            self,
            self.retiming.applied || inserted != 0,
        );
        self.retiming.equivalence_signed_off = signed_off;
        Ok(
            RegisterEnableFanoutReport {
                matched_registers: matched,
                rewired_registers: insertion.rewired,
                inserted_branches: inserted,
            },
        )
    }
}

} // verus!
