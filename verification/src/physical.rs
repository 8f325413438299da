//! Tool-independent physical feedback.

use vstd::prelude::*;

use crate::names::named;
use crate::names::named_from;
use crate::names::names_ordered;
use crate::names::with_entry;
use crate::names::NameMap;
use crate::text::begins_with;
use crate::text::characters;
use crate::text::lemma_text_before_irreflexive;
use crate::text::starts_with;
use crate::text::text_before;

verus! {

/// Placed location of a technology-mapped cell.
#[derive(Clone, Copy, Debug, Eq, PartialEq, Structural)]
pub struct PhysicalLocation {
    /// Device-grid X coordinate.
    pub x: i32,
    /// Device-grid Y coordinate.
    pub y: i32,
}

/// One routed timing endpoint reported by the physical implementation tool.
#[derive(Clone, Debug, Eq, PartialEq)]
pub struct PhysicalTimingEndpoint {
    /// Stable mapped cell name.
    pub cell: String,
    /// Cell input port reached by the net.
    pub port: String,
    /// Routed path delay to this endpoint in picoseconds.
    pub delay_ps: u32,
    /// Timing budget assigned to this endpoint in picoseconds.
    pub budget_ps: u32,
}

/// Routed timing observations for one mapped net.
#[derive(Clone, Debug, Eq, PartialEq)]
pub struct PhysicalNetTiming {
    /// Stable mapped driver cell name.
    pub driver: String,
    /// Physical-tool net name, retained for diagnostics.
    pub net: String,
    /// Routed endpoints of the net.
    pub endpoints: Vec<PhysicalTimingEndpoint>,
}

/// One physically reported critical path, reduced to stable mapped cells.
#[derive(Clone, Debug, Eq, PartialEq)]
pub struct PhysicalCriticalPath {
    /// Cells visited in path order with consecutive duplicates removed.
    pub cells: Vec<String>,
    /// Sum of the reported path segment delays in picoseconds.
    pub delay_ps: u32,
    /// Whether both ends are active clock events rather than asynchronous IO.
    pub register_to_register: bool,
}

/// Physical observations returned to synthesis after a deterministic draft run.
#[derive(Clone, Debug, Eq, PartialEq)]
pub struct PhysicalFeedback {
    /// Placed locations by cell name.
    pub placements: NameMap<PhysicalLocation>,
    /// Exact BELs by cell name.
    pub bels: NameMap<String>,
    /// Routed net timings in report order.
    pub net_timings: Vec<PhysicalNetTiming>,
    /// Critical paths in report order.
    pub critical_paths: Vec<PhysicalCriticalPath>,
    /// Achieved and required frequency of each clock.
    pub clock_fmax_khz: NameMap<(u32, u32)>,
}

/// The BEL of a cell.
pub open spec fn bel_of(feedback: PhysicalFeedback, cell: Seq<char>) -> Option<Seq<char>> {
    match named(feedback.bels@, cell) {
        Some(bel) => Some(bel@),
        None => None,
    }
}

/// Whether a clock reaches `percent` of its target.
pub open spec fn clock_is_near(achieved: u32, target: u32, percent: u32) -> bool {
    target > 0 && achieved * 100 >= target * percent
}

/// Whether every clock, and at least one, reaches `percent` of its target.
pub open spec fn is_near(fmax: Seq<(Seq<char>, (u32, u32))>, percent: u32) -> bool {
    fmax.len() > 0 && forall|i: int|
        0 <= i < fmax.len() ==> clock_is_near(
            (#[trigger] fmax[i]).1.0,
            fmax[i].1.1,
            percent,
        )
}

/// Whether every clock, and at least one, meets its target.
pub open spec fn meets_goal(fmax: Seq<(Seq<char>, (u32, u32))>) -> bool {
    fmax.len() > 0 && forall|i: int|
        0 <= i < fmax.len() ==> (#[trigger] fmax[i]).1.1 > 0 && fmax[i].1.0 >= fmax[i].1.1
}

/// Whether a clock keeps its target and achieves no less than `baseline` reports.
pub open spec fn clock_holds(
    clock: (Seq<char>, (u32, u32)),
    baseline: Seq<(Seq<char>, (u32, u32))>,
) -> bool {
    match named(baseline, clock.0) {
        Some(before) => clock.1.1 == before.1 && clock.1.0 >= before.0,
        None => false,
    }
}

/// Whether a clock achieves more than `baseline` reports.
pub open spec fn clock_gains(
    clock: (Seq<char>, (u32, u32)),
    baseline: Seq<(Seq<char>, (u32, u32))>,
) -> bool {
    match named(baseline, clock.0) {
        Some(before) => clock.1.0 > before.0,
        None => false,
    }
}

/// Whether no clock is lost or slower and at least one is faster.
pub open spec fn improves_fmax(
    fmax: Seq<(Seq<char>, (u32, u32))>,
    baseline: Seq<(Seq<char>, (u32, u32))>,
) -> bool {
    &&& fmax.len() == baseline.len()
    &&& fmax.len() > 0
    &&& forall|i: int| 0 <= i < fmax.len() ==> clock_holds(#[trigger] fmax[i], baseline)
    &&& exists|i: int| 0 <= i < fmax.len() && clock_gains(#[trigger] fmax[i], baseline)
}

impl PhysicalFeedback {
    /// Returns the placed location of a stable mapped cell name.
    pub fn location(&self, cell: &str) -> (location: Option<PhysicalLocation>)
        ensures
            location == named(self.placements@, cell@),
    {
        match self.placements.get(cell) {
            Some(location) => Some(*location),
            None => None,
        }
    }

    /// Returns the exact draft BEL assigned to a stable mapped cell name.
    pub fn bel(&self, cell: &str) -> (bel: Option<&str>)
        ensures
            match bel {
                Some(bel) => bel_of(*self, cell@) == Some(bel@),
                None => bel_of(*self, cell@) is None,
            },
    {
        match self.bels.get(cell) {
            Some(bel) => Some(bel.as_str()),
            None => None,
        }
    }

    /// Returns routed net timing observations from the draft run.
    pub fn net_timings(&self) -> (timings: &[PhysicalNetTiming])
        ensures
            timings@ == self.net_timings@,
    {
        self.net_timings.as_slice()
    }

    /// Returns physically reported critical paths in report order.
    pub fn critical_paths(&self) -> (paths: &[PhysicalCriticalPath])
        ensures
            paths@ == self.critical_paths@,
    {
        self.critical_paths.as_slice()
    }

    /// Returns true when every reported clock is within `percent` of its
    /// target. Local physical rewrites are deliberately restricted to this
    /// near-closure region.
    pub fn is_near_timing_closure(&self, percent: u32) -> (near: bool)
        ensures
            near == is_near(self.clock_fmax_khz@, percent),
    {
        if self.clock_fmax_khz.entries.len() == 0 {
            return false;
        }
        let ghost fmax = self.clock_fmax_khz@;
        for i in 0..self.clock_fmax_khz.entries.len()
            invariant
                fmax == self.clock_fmax_khz@,
                forall|j: int|
                    0 <= j < i ==> clock_is_near(
                        (#[trigger] fmax[j]).1.0,
                        fmax[j].1.1,
                        percent,
                    ),
        {
            let (achieved, target) = self.clock_fmax_khz.entries[i].1;
            assert(fmax[i as int].1 == (achieved, target));
            assert(target as int * percent as int <= 0xffff_ffff * 0xffff_ffff) by (nonlinear_arith)
                requires
                    target <= 0xffff_ffff,
                    percent <= 0xffff_ffff,
            ;
            if target == 0 || (achieved as u64) * 100 < (target as u64) * (percent as u64) {
                assert(!clock_is_near(fmax[i as int].1.0, fmax[i as int].1.1, percent));
                return false;
            }
        }
        true
    }

    /// Whether every reported clock meets its implementation constraint.
    pub fn meets_timing_goal(&self) -> (meets: bool)
        ensures
            meets == meets_goal(self.clock_fmax_khz@),
    {
        if self.clock_fmax_khz.entries.len() == 0 {
            return false;
        }
        let ghost fmax = self.clock_fmax_khz@;
        for i in 0..self.clock_fmax_khz.entries.len()
            invariant
                fmax == self.clock_fmax_khz@,
                forall|j: int|
                    0 <= j < i ==> (#[trigger] fmax[j]).1.1 > 0 && fmax[j].1.0 >= fmax[j].1.1,
        {
            let (achieved, target) = self.clock_fmax_khz.entries[i].1;
            assert(fmax[i as int].1 == (achieved, target));
            if target == 0 || achieved < target {
                return false;
            }
        }
        true
    }

    /// Whether this implementation strictly improves a reported clock and
    /// regresses none of them relative to `baseline`.
    pub fn improves_timing_over(&self, baseline: &Self) -> (improves: bool)
        ensures
            improves == improves_fmax(self.clock_fmax_khz@, baseline.clock_fmax_khz@),
    {
        let ghost fmax = self.clock_fmax_khz@;
        let ghost before = baseline.clock_fmax_khz@;
        if self.clock_fmax_khz.entries.len() != baseline.clock_fmax_khz.entries.len()
            || self.clock_fmax_khz.entries.len() == 0 {
            return false;
        }
        let mut gained = false;
        for i in 0..self.clock_fmax_khz.entries.len()
            invariant
                fmax == self.clock_fmax_khz@,
                before == baseline.clock_fmax_khz@,
                forall|j: int| 0 <= j < i ==> clock_holds(#[trigger] fmax[j], before),
                gained == exists|j: int| 0 <= j < i && clock_gains(#[trigger] fmax[j], before),
        {
            let entry = &self.clock_fmax_khz.entries[i];
            let (achieved, target) = entry.1;
            assert(fmax[i as int] == (entry.0@, (achieved, target)));
            match baseline.clock_fmax_khz.get(entry.0.as_str()) {
                Some(other) => {
                    if target != other.1 || achieved < other.0 {
                        assert(!clock_holds(fmax[i as int], before));
                        return false;
                    }
                    if achieved > other.0 {
                        gained = true;
                        assert(clock_gains(fmax[i as int], before));
                    }
                },
                None => {
                    assert(!clock_holds(fmax[i as int], before));
                    return false;
                },
            }
        }
        gained
    }
}

/// A clock set that is near closure stays near for every smaller percentage.
pub proof fn law_near_closure_is_monotone(
    fmax: Seq<(Seq<char>, (u32, u32))>,
    percent: u32,
    smaller: u32,
)
    requires
        is_near(fmax, percent),
        smaller <= percent,
    ensures
        is_near(fmax, smaller),
{
    assert forall|i: int| 0 <= i < fmax.len() implies clock_is_near(
        (#[trigger] fmax[i]).1.0,
        fmax[i].1.1,
        smaller,
    ) by {
        assert(clock_is_near(fmax[i].1.0, fmax[i].1.1, percent));
        let target = fmax[i].1.1 as int;
        assert(target * smaller as int <= target * percent as int) by (nonlinear_arith)
            requires
                smaller <= percent,
                target >= 0,
        ;
    }
}

/// Meeting the goal is being within one hundred percent of every target.
pub proof fn law_goal_is_full_closure(fmax: Seq<(Seq<char>, (u32, u32))>)
    ensures
        meets_goal(fmax) == is_near(fmax, 100),
{
    if meets_goal(fmax) {
        assert forall|i: int| 0 <= i < fmax.len() implies clock_is_near(
            (#[trigger] fmax[i]).1.0,
            fmax[i].1.1,
            100,
        ) by {
            assert(fmax[i].1.1 > 0 && fmax[i].1.0 >= fmax[i].1.1);
        }
    }
    if is_near(fmax, 100) {
        assert forall|i: int| 0 <= i < fmax.len() implies (#[trigger] fmax[i]).1.1 > 0
            && fmax[i].1.0 >= fmax[i].1.1 by {
            assert(clock_is_near(fmax[i].1.0, fmax[i].1.1, 100));
        }
    }
}

proof fn lemma_named_entry<V>(entries: Seq<(Seq<char>, V)>, name: Seq<char>, from: int) -> (index: int)
    requires
        0 <= from,
        named_from(entries, name, from) is Some,
    ensures
        from <= index < entries.len(),
        entries[index] == (name, named_from(entries, name, from)->0),
    decreases entries.len() - from,
{
    if entries[from].0 == name {
        from
    } else {
        lemma_named_entry(entries, name, from + 1)
    }
}

proof fn lemma_named_unique<V>(entries: Seq<(Seq<char>, V)>, index: int, from: int)
    requires
        names_ordered(entries),
        0 <= from <= index < entries.len(),
    ensures
        named_from(entries, entries[index].0, from) == Some(entries[index].1),
    decreases index - from,
{
    if from < index {
        assert(text_before(entries[from].0, entries[index].0));
        lemma_text_before_irreflexive(entries[index].0);
        lemma_named_unique(entries, index, from + 1);
    }
}

/// Improvement is transitive.
pub proof fn law_improvement_is_transitive(
    first: Seq<(Seq<char>, (u32, u32))>,
    second: Seq<(Seq<char>, (u32, u32))>,
    third: Seq<(Seq<char>, (u32, u32))>,
)
    requires
        improves_fmax(first, second),
        improves_fmax(second, third),
    ensures
        improves_fmax(first, third),
{
    assert forall|i: int| 0 <= i < first.len() implies clock_holds(#[trigger] first[i], third) by {
        assert(clock_holds(first[i], second));
        let k = lemma_named_entry(second, first[i].0, 0);
        assert(clock_holds(second[k], third));
    }
    let i = choose|i: int| 0 <= i < first.len() && clock_gains(#[trigger] first[i], second);
    assert(clock_holds(first[i], second));
    let k = lemma_named_entry(second, first[i].0, 0);
    assert(clock_holds(second[k], third));
    assert(clock_gains(first[i], third));
}

/// Two implementations do not both improve on each other.
pub proof fn law_improvement_is_asymmetric(
    first: Seq<(Seq<char>, (u32, u32))>,
    second: Seq<(Seq<char>, (u32, u32))>,
)
    requires
        names_ordered(first),
        improves_fmax(first, second),
    ensures
        !improves_fmax(second, first),
{
    let i = choose|i: int| 0 <= i < first.len() && clock_gains(#[trigger] first[i], second);
    assert(clock_gains(first[i], second));
    let k = lemma_named_entry(second, first[i].0, 0);
    lemma_named_unique(first, i, 0);
    assert(!clock_holds(second[k], first));
}

/// An implementation does not improve on itself.
pub proof fn law_improvement_is_irreflexive(fmax: Seq<(Seq<char>, (u32, u32))>)
    requires
        names_ordered(fmax),
    ensures
        !improves_fmax(fmax, fmax),
{
    if improves_fmax(fmax, fmax) {
        law_improvement_is_asymmetric(fmax, fmax);
    }
}

/// Improvement never costs a clock its goal.
pub proof fn law_improvement_keeps_goals(
    fmax: Seq<(Seq<char>, (u32, u32))>,
    baseline: Seq<(Seq<char>, (u32, u32))>,
)
    requires
        improves_fmax(fmax, baseline),
        meets_goal(baseline),
    ensures
        meets_goal(fmax),
{
    assert forall|i: int| 0 <= i < fmax.len() implies (#[trigger] fmax[i]).1.1 > 0 && fmax[i].1.0
        >= fmax[i].1.1 by {
        assert(clock_holds(fmax[i], baseline));
        let k = lemma_named_entry(baseline, fmax[i].0, 0);
        assert(baseline[k].1.1 > 0 && baseline[k].1.0 >= baseline[k].1.1);
    }
}

/// Whether a path end is an active clock event.
pub open spec fn clock_event(event: Seq<char>) -> bool {
    begins_with(event, "posedge "@) || begins_with(event, "negedge "@)
}

/// Whether a path end is an active clock event.
pub fn is_clock_event(event: &str) -> (active: bool)
    ensures
        active == clock_event(event@),
{
    starts_with(event, "posedge ") || starts_with(event, "negedge ")
}

/// The value of a decimal digit.
pub open spec fn digit_value(c: char) -> Option<int> {
    if '0' <= c && c <= '9' {
        Some(c as int - '0' as int)
    } else {
        None
    }
}

/// The number that decimal digits from `from` on continue; none where another character occurs.
pub open spec fn digits_value(text: Seq<char>, from: int, so_far: int) -> Option<int>
    decreases text.len() - from,
{
    if from >= text.len() {
        Some(so_far)
    } else {
        match digit_value(text[from]) {
            Some(digit) => digits_value(text, from + 1, so_far * 10 + digit),
            None => None,
        }
    }
}

/// The number a text writes: an optional sign and at least one digit.
pub open spec fn integer_value(text: Seq<char>) -> Option<int> {
    let signed = text.len() > 0 && (text[0] == '-' || text[0] == '+');
    let start: int = if signed {
        1
    } else {
        0
    };
    if text.len() == start {
        None
    } else {
        match digits_value(text, start, 0) {
            Some(value) => if signed && text[0] == '-' {
                Some(-value)
            } else {
                Some(value)
            },
            None => None,
        }
    }
}

/// The coordinate a text writes, where it fits.
pub open spec fn coordinate(text: Seq<char>) -> Option<i32> {
    match integer_value(text) {
        Some(value) => if i32::MIN <= value <= i32::MAX {
            Some(value as i32)
        } else {
            None
        },
        None => None,
    }
}

/// The text of `bel` from `from` up to the next slash or the end.
pub open spec fn component_end(bel: Seq<char>, from: int) -> int
    decreases bel.len() - from,
{
    if from >= bel.len() || bel[from] == '/' {
        from
    } else {
        component_end(bel, from + 1)
    }
}

/// The coordinate behind `mark` in the component of `bel` that starts at `from`.
pub open spec fn marked_coordinate(bel: Seq<char>, from: int, mark: char) -> Option<i32> {
    let end = component_end(bel, from);
    if end > from && bel[from] == mark {
        coordinate(bel.subrange(from + 1, end))
    } else {
        None
    }
}

/// The location that a BEL name begins with.
pub open spec fn bel_location(bel: Seq<char>) -> Option<PhysicalLocation> {
    let end = component_end(bel, 0);
    match marked_coordinate(bel, 0, 'X') {
        Some(x) => if end >= bel.len() {
            None
        } else {
            match marked_coordinate(bel, end + 1, 'Y') {
                Some(y) => Some(PhysicalLocation { x, y }),
                None => None,
            }
        },
        None => None,
    }
}

proof fn lemma_digits_grow(text: Seq<char>, from: int, so_far: int)
    requires
        so_far >= 0,
    ensures
        digits_value(text, from, so_far) matches Some(value) ==> value >= so_far,
    decreases text.len() - from,
{
    if from < text.len() {
        if let Some(digit) = digit_value(text[from]) {
            lemma_digits_grow(text, from + 1, so_far * 10 + digit);
        }
    }
}

fn read_coordinate(text: &Vec<char>, from: usize, end: usize) -> (value: Option<i32>)
    requires
        from <= end <= text@.len(),
    ensures
        value == coordinate(text@.subrange(from as int, end as int)),
{
    let ghost part = text@.subrange(from as int, end as int);
    if from == end {
        assert(part.len() == 0);
        return None;
    }
    assert(part[0] == text@[from as int]);
    let negative = text[from] == '-';
    let signed = negative || text[from] == '+';
    let start: usize = if signed {
        from + 1
    } else {
        from
    };
    if start == end {
        return None;
    }
    let ghost skipped = start - from;
    let mut value: i64 = 0;
    let mut i: usize = start;
    while i < end
        invariant
            from <= start <= i <= end <= text@.len(),
            part == text@.subrange(from as int, end as int),
            skipped == start - from,
            part.len() > skipped,
            signed == (part[0] == '-' || part[0] == '+'),
            negative == (part[0] == '-'),
            skipped == if signed {
                1int
            } else {
                0
            },
            0 <= value <= 4_294_967_296,
            digits_value(part, skipped, 0) == digits_value(part, i - from, value as int),
        decreases end - i,
    {
        let c = text[i];
        assert(part[i - from] == c);
        if !('0' <= c && c <= '9') {
            return None;
        }
        let digit = (c as u32 - '0' as u32) as i64;
        let next: i64 = value * 10 + digit;
        if next > 4_294_967_296 {
            proof {
                lemma_digits_grow(part, i - from + 1, next as int);
            }
            return None;
        }
        value = next;
        i += 1;
    }
    let result: i64 = if negative {
        -value
    } else {
        value
    };
    if result < -2_147_483_648 || result > 2_147_483_647 {
        None
    } else {
        Some(result as i32)
    }
}

fn find_component_end(bel: &Vec<char>, from: usize) -> (end: usize)
    requires
        from <= bel@.len(),
    ensures
        end == component_end(bel@, from as int),
        from <= end <= bel@.len(),
{
    let mut end: usize = from;
    while end < bel.len() && bel[end] != '/'
        invariant
            from <= end <= bel@.len(),
            component_end(bel@, from as int) == component_end(bel@, end as int),
        decreases bel@.len() - end,
    {
        end += 1;
    }
    end
}

/// The location that a BEL name begins with: `X`, a number, a slash, `Y` and a number.
pub fn parse_bel_location(bel: &str) -> (location: Option<PhysicalLocation>)
    ensures
        location == bel_location(bel@),
{
    let chars = characters(bel);
    let end = find_component_end(&chars, 0);
    if end == 0 || chars[0] != 'X' {
        return None;
    }
    let x = match read_coordinate(&chars, 1, end) {
        Some(x) => x,
        None => {
            return None;
        },
    };
    if end >= chars.len() {
        return None;
    }
    let second = find_component_end(&chars, end + 1);
    if second == end + 1 || chars[end + 1] != 'Y' {
        return None;
    }
    match read_coordinate(&chars, end + 2, second) {
        Some(y) => Some(PhysicalLocation { x, y }),
        None => None,
    }
}

/// One segment of a reported path.
#[derive(Clone, Debug, Eq, PartialEq)]
pub struct ReportedSegment {
    /// Delay of the segment in picoseconds.
    pub delay_ps: u32,
    /// Cell the segment leaves, where there is one.
    pub from: Option<String>,
    /// Cell the segment enters, where there is one.
    pub to: Option<String>,
}

/// One reported path.
#[derive(Clone, Debug, Eq, PartialEq)]
pub struct ReportedPath {
    /// Event that starts the path.
    pub from: String,
    /// Event that ends the path.
    pub to: String,
    /// Segments in path order.
    pub segments: Vec<ReportedSegment>,
}

/// `cells` with `cell` behind them, unless it is the last already.
pub open spec fn with_cell_visited(cells: Seq<Seq<char>>, cell: Option<String>) -> Seq<Seq<char>> {
    match cell {
        Some(name) => if cells.len() > 0 && cells.last() == name@ {
            cells
        } else {
            cells.push(name@)
        },
        None => cells,
    }
}

/// The cells that the first `count` segments visit, without consecutive duplicates.
pub open spec fn visited_cells(segments: Seq<ReportedSegment>, count: nat) -> Seq<Seq<char>>
    decreases count,
{
    if count == 0 {
        seq![]
    } else {
        let segment = segments[count - 1];
        with_cell_visited(
            with_cell_visited(visited_cells(segments, (count - 1) as nat), segment.from),
            segment.to,
        )
    }
}

/// The delay of the first `count` segments.
pub open spec fn segments_delay(segments: Seq<ReportedSegment>, count: nat) -> nat
    decreases count,
{
    if count == 0 {
        0
    } else {
        segments_delay(segments, (count - 1) as nat) + segments[count - 1].delay_ps as nat
    }
}

/// The texts of names.
pub open spec fn name_texts(names: Seq<String>) -> Seq<Seq<char>> {
    Seq::new(names.len(), |i: int| names[i]@)
}

fn visit_cell(cells: &mut Vec<String>, cell: &Option<String>)
    ensures
        name_texts(final(cells)@) == with_cell_visited(name_texts(old(cells)@), *cell),
{
    if let Some(name) = cell {
        let ghost before = cells@;
        if cells.len() > 0 && cells[cells.len() - 1] == *name {
            assert(name_texts(before).last() == name@);
            return;
        }
        if cells.len() > 0 {
            assert(name_texts(before).last() == before.last()@);
        }
        let copy = name.clone();
        cells.push(copy);
        assert(name_texts(cells@) =~= name_texts(before).push(name@));
    }
}

/// Reduces a reported path to stable mapped cells.
pub fn critical_path(path: &ReportedPath) -> (reduced: PhysicalCriticalPath)
    ensures
        name_texts(reduced.cells@) == visited_cells(path.segments@, path.segments@.len()),
        reduced.delay_ps == crate::retained::picoseconds(
            segments_delay(path.segments@, path.segments@.len()),
        ),
        reduced.register_to_register == (clock_event(path.from@) && clock_event(path.to@)),
{
    let mut cells: Vec<String> = Vec::new();
    let mut delay_ps: u32 = 0;
    assert(name_texts(cells@) =~= Seq::<Seq<char>>::empty());
    for i in 0..path.segments.len()
        invariant
            name_texts(cells@) == visited_cells(path.segments@, i as nat),
            delay_ps == crate::retained::picoseconds(segments_delay(path.segments@, i as nat)),
    {
        let segment = &path.segments[i];
        delay_ps = delay_ps.saturating_add(segment.delay_ps);
        visit_cell(&mut cells, &segment.from);
        visit_cell(&mut cells, &segment.to);
    }
    PhysicalCriticalPath {
        cells,
        delay_ps,
        register_to_register: is_clock_event(path.from.as_str()) && is_clock_event(
            path.to.as_str(),
        ),
    }
}

/// Observations as a physical tool reports them.
#[derive(Clone, Debug, Eq, PartialEq)]
pub struct PhysicalReport {
    /// Placed cells with their BELs.
    pub cells: Vec<(String, String)>,
    /// Routed net timings.
    pub net_timings: Vec<PhysicalNetTiming>,
    /// Reported paths.
    pub paths: Vec<ReportedPath>,
    /// Clocks with achieved and required frequency in kilohertz.
    pub clocks: Vec<(String, (u32, u32))>,
}

/// The locations of the first `count` cells whose BEL has one; later cells replace earlier ones.
pub open spec fn placed_locations(cells: Seq<(String, String)>, count: nat) -> Seq<
    (Seq<char>, PhysicalLocation),
>
    decreases count,
{
    if count == 0 {
        seq![]
    } else {
        let rest = placed_locations(cells, (count - 1) as nat);
        match bel_location(cells[count - 1].1@) {
            Some(location) => with_entry(rest, cells[count - 1].0@, location),
            None => rest,
        }
    }
}

/// The BELs of the first `count` cells whose BEL has a location.
pub open spec fn placed_bels(cells: Seq<(String, String)>, count: nat) -> Seq<(Seq<char>, String)>
    decreases count,
{
    if count == 0 {
        seq![]
    } else {
        let rest = placed_bels(cells, (count - 1) as nat);
        match bel_location(cells[count - 1].1@) {
            Some(_) => with_entry(rest, cells[count - 1].0@, cells[count - 1].1),
            None => rest,
        }
    }
}

/// The first `count` clocks by name; later clocks replace earlier ones.
pub open spec fn clock_entries(clocks: Seq<(String, (u32, u32))>, count: nat) -> Seq<
    (Seq<char>, (u32, u32)),
>
    decreases count,
{
    if count == 0 {
        seq![]
    } else {
        with_entry(
            clock_entries(clocks, (count - 1) as nat),
            clocks[count - 1].0@,
            clocks[count - 1].1,
        )
    }
}

fn reverse_cells(cells: Vec<(String, String)>) -> (reversed: Vec<(String, String)>)
    ensures
        reversed@ == cells@.reverse(),
{
    let ghost all = cells@;
    let mut rest = cells;
    let mut reversed: Vec<(String, String)> = Vec::new();
    assert(all.take(all.len() as int) =~= all);
    assert(reversed@ =~= all.skip(all.len() as int).reverse());
    while rest.len() > 0
        invariant
            rest@.len() <= all.len(),
            rest@ == all.take(rest@.len() as int),
            reversed@ == all.skip(rest@.len() as int).reverse(),
        decreases rest@.len(),
    {
        let ghost size = rest@.len() as int;
        if let Some(cell) = rest.pop() {
            reversed.push(cell);
            assert(rest@ =~= all.take(size - 1));
            assert(reversed@ =~= all.skip(size - 1).reverse());
        }
    }
    assert(all.skip(0) =~= all);
    reversed
}

impl PhysicalFeedback {
    /// Builds the feedback from a tool's report.
    pub fn from_report(report: PhysicalReport) -> (feedback: Self)
        ensures
            feedback.placements@ == placed_locations(report.cells@, report.cells@.len()),
            feedback.bels@ == placed_bels(report.cells@, report.cells@.len()),
            feedback.net_timings == report.net_timings,
            feedback.critical_paths@.len() == report.paths@.len(),
            forall|i: int|
                0 <= i < report.paths@.len() ==> name_texts(
                    (#[trigger] feedback.critical_paths@[i]).cells@,
                ) == visited_cells(
                    report.paths@[i].segments@,
                    report.paths@[i].segments@.len(),
                ) && feedback.critical_paths@[i].delay_ps == crate::retained::picoseconds(
                    segments_delay(
                        report.paths@[i].segments@,
                        report.paths@[i].segments@.len(),
                    ),
                ) && feedback.critical_paths@[i].register_to_register == (clock_event(
                    report.paths@[i].from@,
                ) && clock_event(report.paths@[i].to@)),
            feedback.clock_fmax_khz@ == clock_entries(report.clocks@, report.clocks@.len()),
    {
        let mut placements: NameMap<PhysicalLocation> = NameMap::new();
        let mut bels: NameMap<String> = NameMap::new();
        let ghost cells = report.cells@;
        let count: usize = report.cells.len();
        let mut reversed = reverse_cells(report.cells);
        assert(cells.skip(0) =~= cells);
        let mut done: usize = 0;
        while done < count
            invariant
                done <= count,
                count == cells.len(),
                reversed@ == cells.skip(done as int).reverse(),
                placements@ == placed_locations(cells, done as nat),
                bels@ == placed_bels(cells, done as nat),
            decreases count - done,
        {
            assert(reversed@.last() == cells[done as int]);
            if let Some((name, bel)) = reversed.pop() {
                assert(reversed@ =~= cells.skip(done + 1).reverse());
                if let Some(location) = parse_bel_location(bel.as_str()) {
                    placements.insert(name.clone(), location);
                    bels.insert(name, bel);
                }
            }
            done += 1;
        }
        let mut critical_paths: Vec<PhysicalCriticalPath> = Vec::new();
        for i in 0..report.paths.len()
            invariant
                critical_paths@.len() == i,
                forall|j: int|
                    0 <= j < i ==> name_texts((#[trigger] critical_paths@[j]).cells@)
                        == visited_cells(
                        report.paths@[j].segments@,
                        report.paths@[j].segments@.len(),
                    ) && critical_paths@[j].delay_ps == crate::retained::picoseconds(
                        segments_delay(
                            report.paths@[j].segments@,
                            report.paths@[j].segments@.len(),
                        ),
                    ) && critical_paths@[j].register_to_register == (clock_event(
                        report.paths@[j].from@,
                    ) && clock_event(report.paths@[j].to@)),
        {
            critical_paths.push(critical_path(&report.paths[i]));
        }
        let mut clock_fmax_khz: NameMap<(u32, u32)> = NameMap::new();
        for i in 0..report.clocks.len()
            invariant
                clock_fmax_khz@ == clock_entries(report.clocks@, i as nat),
        {
            let name = report.clocks[i].0.clone();
            clock_fmax_khz.insert(name, report.clocks[i].1);
        }
        PhysicalFeedback {
            placements,
            bels,
            net_timings: report.net_timings,
            critical_paths,
            clock_fmax_khz,
        }
    }
}

} // verus!
