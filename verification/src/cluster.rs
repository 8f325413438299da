//! Placement-driven distribution of enable sinks over equal drivers.

use vstd::prelude::*;
use vstd::string::*;

use crate::cells::clamped;
use crate::cells::mapped_cell_name;
use crate::cells::Bit;
use crate::cells::CellModel;
use crate::cells::Ecp5Cell;
use crate::names::named;
use crate::names::with_entry;
use crate::names::NameMap;
use crate::netlist::cell_models;
use crate::netlist::copy_cells;
use crate::netlist::first_named;
use crate::netlist::position_of_name;
use crate::netlist::Ecp5Netlist;
use crate::netlist::NetlistModel;
use crate::physical::digit_value;
use crate::physical::PhysicalFeedback;
use crate::physical::PhysicalLocation;
use crate::physical::PhysicalNetTiming;
use crate::physical::PhysicalTimingEndpoint;
use crate::replicate::enable_signal;
use crate::replicate::set_enable;
use crate::replicate::with_enable;
use crate::text::begins_with;
use crate::text::characters;
use crate::text::comes_before;
use crate::text::starts_with;
use crate::text::text_before;

verus! {

/// Whether some endpoint is a clock enable later than its budget.
pub open spec fn has_late_enable(endpoints: Seq<PhysicalTimingEndpoint>) -> bool {
    exists|i: int|
        0 <= i < endpoints.len() && (#[trigger] endpoints[i]).port@ == "CE"@
            && endpoints[i].delay_ps > endpoints[i].budget_ps
}

/// Whether a cell drives a net with a late clock enable.
pub open spec fn drives_late_enable(timings: Seq<PhysicalNetTiming>, driver: Seq<char>) -> bool {
    exists|i: int|
        0 <= i < timings.len() && (#[trigger] timings[i]).driver@ == driver && has_late_enable(
            timings[i].endpoints@,
        )
}

/// Whether a text from `from` on is decimal digits of a number that fits in a `usize`.
pub open spec fn count_digits(text: Seq<char>, from: int, so_far: int) -> bool
    decreases text.len() - from,
{
    if from >= text.len() {
        so_far <= usize::MAX
    } else {
        match digit_value(text[from]) {
            Some(digit) => so_far <= usize::MAX && count_digits(
                text,
                from + 1,
                so_far * 10 + digit,
            ),
            None => false,
        }
    }
}

/// Whether a text writes a `usize`: an optional plus sign and at least one digit.
pub open spec fn is_count(text: Seq<char>) -> bool {
    let start: int = if text.len() > 0 && text[0] == '+' {
        1
    } else {
        0
    };
    text.len() > start && count_digits(text, start, 0)
}

/// The position of the last underscore before `end`.
pub open spec fn last_underscore(text: Seq<char>, end: int) -> Option<int>
    decreases end,
{
    if end <= 0 {
        None
    } else if text[end - 1] == '_' {
        Some(end - 1)
    } else {
        last_underscore(text, end - 1)
    }
}

/// What the name of an enable replica begins with.
pub open spec fn replica_prefix() -> Seq<char> {
    "replicate_enable_"@
}

/// The cell that an enable replica was made from: what stands between the
/// prefix and the last underscore, where a number follows.
pub open spec fn replica_origin(name: Seq<char>) -> Option<Seq<char>> {
    let prefix = replica_prefix();
    if begins_with(name, prefix) {
        let rest = name.skip(prefix.len() as int);
        match last_underscore(rest, rest.len() as int) {
            Some(at) => if is_count(rest.skip(at + 1)) {
                Some(rest.take(at))
            } else {
                None
            },
            None => None,
        }
    } else {
        None
    }
}

/// Each origin with its first replica and how many it has, among the first `count` cells.
pub open spec fn replica_groups(cells: Seq<CellModel>, count: nat) -> Seq<
    (Seq<char>, (usize, usize)),
>
    decreases count,
{
    if count == 0 {
        seq![]
    } else {
        let rest = replica_groups(cells, (count - 1) as nat);
        let cell = cells[count - 1];
        if cell is Lut4 {
            match replica_origin(cell.cell_name()) {
                Some(origin) => match named(rest, origin) {
                    Some((first, size)) => with_entry(
                        rest,
                        origin,
                        (first, clamped(size as nat + 1)),
                    ),
                    None => with_entry(rest, origin, ((count - 1) as usize, 1)),
                },
                None => rest,
            }
        } else {
            rest
        }
    }
}

/// A flip-flop that one of two equal drivers enables.
#[verifier::ext_equal]
pub ghost struct SinkModel {
    pub index: usize,
    pub name: Seq<char>,
    pub wire: u32,
    pub location: PhysicalLocation,
}

/// The enable wire of a flip-flop, where it is `first` or `second`.
pub open spec fn shared_enable(cell: CellModel, first: u32, second: u32) -> Option<u32> {
    match enable_signal(cell) {
        Some(Bit::Wire(wire)) => if wire == first || wire == second {
            Some(wire)
        } else {
            None
        },
        _ => None,
    }
}

/// The placed sinks of two drivers among the first `count` cells.
pub open spec fn placed_sinks(
    cells: Seq<CellModel>,
    feedback: PhysicalFeedback,
    first: u32,
    second: u32,
    count: nat,
) -> Seq<SinkModel>
    decreases count,
{
    if count == 0 {
        seq![]
    } else {
        let rest = placed_sinks(cells, feedback, first, second, (count - 1) as nat);
        let cell = cells[count - 1];
        match shared_enable(cell, first, second) {
            Some(wire) => match named(feedback.placements@, cell.cell_name()) {
                Some(location) => rest.push(
                    SinkModel {
                        index: (count - 1) as usize,
                        name: cell.cell_name(),
                        wire,
                        location,
                    },
                ),
                None => rest,
            },
            None => rest,
        }
    }
}

/// How many of the first `count` cells two drivers enable.
pub open spec fn sink_count(cells: Seq<CellModel>, first: u32, second: u32, count: nat) -> nat
    decreases count,
{
    if count == 0 {
        0
    } else {
        sink_count(cells, first, second, (count - 1) as nat) + if shared_enable(
            cells[count - 1],
            first,
            second,
        ) is Some {
            1nat
        } else {
            0
        }
    }
}

/// The smaller of two numbers.
pub open spec fn smaller(a: int, b: int) -> int {
    if a < b {
        a
    } else {
        b
    }
}

/// The larger of two numbers.
pub open spec fn larger(a: int, b: int) -> int {
    if a < b {
        b
    } else {
        a
    }
}

/// The smallest X coordinate of the sinks.
pub open spec fn least_x(sinks: Seq<SinkModel>) -> int
    decreases sinks.len(),
{
    if sinks.len() == 0 {
        i32::MAX as int
    } else {
        smaller(least_x(sinks.drop_last()), sinks.last().location.x as int)
    }
}

/// The largest X coordinate of the sinks.
pub open spec fn most_x(sinks: Seq<SinkModel>) -> int
    decreases sinks.len(),
{
    if sinks.len() == 0 {
        i32::MIN as int
    } else {
        larger(most_x(sinks.drop_last()), sinks.last().location.x as int)
    }
}

/// The smallest Y coordinate of the sinks.
pub open spec fn least_y(sinks: Seq<SinkModel>) -> int
    decreases sinks.len(),
{
    if sinks.len() == 0 {
        i32::MAX as int
    } else {
        smaller(least_y(sinks.drop_last()), sinks.last().location.y as int)
    }
}

/// The largest Y coordinate of the sinks.
pub open spec fn most_y(sinks: Seq<SinkModel>) -> int
    decreases sinks.len(),
{
    if sinks.len() == 0 {
        i32::MIN as int
    } else {
        larger(most_y(sinks.drop_last()), sinks.last().location.y as int)
    }
}

/// Whether the sinks spread at least as far along X as along Y.
pub open spec fn splits_along_x(sinks: Seq<SinkModel>) -> bool {
    most_x(sinks) - least_x(sinks) >= most_y(sinks) - least_y(sinks)
}

/// Order of sinks along an axis, then across it, then by name.
pub open spec fn sink_before(a: SinkModel, b: SinkModel, along_x: bool) -> bool {
    let (a1, a2) = if along_x {
        (a.location.x, a.location.y)
    } else {
        (a.location.y, a.location.x)
    };
    let (b1, b2) = if along_x {
        (b.location.x, b.location.y)
    } else {
        (b.location.y, b.location.x)
    };
    a1 < b1 || (a1 == b1 && (a2 < b2 || (a2 == b2 && text_before(a.name, b.name))))
}

/// `sorted` with one more sink behind all that do not come after it.
pub open spec fn with_sorted_sink(
    sorted: Seq<SinkModel>,
    sink: SinkModel,
    along_x: bool,
) -> Seq<SinkModel>
    decreases sorted.len(),
{
    if sorted.len() == 0 {
        seq![sink]
    } else if sink_before(sink, sorted.last(), along_x) {
        with_sorted_sink(sorted.drop_last(), sink, along_x).push(sorted.last())
    } else {
        sorted.push(sink)
    }
}

/// The sinks in order along an axis.
pub open spec fn sorted_sinks(sinks: Seq<SinkModel>, along_x: bool) -> Seq<SinkModel>
    decreases sinks.len(),
{
    if sinks.len() == 0 {
        seq![]
    } else {
        with_sorted_sink(sorted_sinks(sinks.drop_last(), along_x), sinks.last(), along_x)
    }
}

/// The distance between two coordinates.
pub open spec fn apart(a: i32, b: i32) -> int {
    if a < b {
        b - a
    } else {
        a - b
    }
}

/// The grid distance of all sinks from a driver.
pub open spec fn total_distance(sinks: Seq<SinkModel>, driver: PhysicalLocation) -> int
    decreases sinks.len(),
{
    if sinks.len() == 0 {
        0
    } else {
        total_distance(sinks.drop_last(), driver) + apart(sinks.last().location.x, driver.x)
            + apart(sinks.last().location.y, driver.y)
    }
}

/// Whether the halves are closer to each other's drivers.
pub open spec fn is_swapped(
    sorted: Seq<SinkModel>,
    origin: Option<PhysicalLocation>,
    replica: Option<PhysicalLocation>,
) -> bool {
    let split = sorted.len() as int / 2;
    let first = sorted.take(split);
    let second = sorted.skip(split);
    match (origin, replica) {
        (Some(origin), Some(replica)) => total_distance(first, origin) + total_distance(
            second,
            replica,
        ) > total_distance(first, replica) + total_distance(second, origin),
        _ => false,
    }
}

/// The cells and the number of moved sinks.
#[verifier::ext_equal]
pub ghost struct ClusterModel {
    pub cells: Seq<CellModel>,
    pub rewires: nat,
}

/// The state after the first `count` sinks read `wire`.
pub open spec fn cluster_moved(
    state: ClusterModel,
    sinks: Seq<SinkModel>,
    wire: u32,
    count: nat,
) -> ClusterModel
    decreases count,
{
    if count == 0 {
        state
    } else {
        let rest = cluster_moved(state, sinks, wire, (count - 1) as nat);
        let sink = sinks[count - 1];
        if sink.wire == wire {
            rest
        } else {
            ClusterModel {
                cells: rest.cells.update(
                    sink.index as int,
                    with_enable(rest.cells[sink.index as int], wire),
                ),
                rewires: rest.rewires + 1,
            }
        }
    }
}

/// Whether a lookup table and its replica compute the same.
pub open spec fn same_function(a: CellModel, b: CellModel) -> bool {
    match (a, b) {
        (
            CellModel::Lut4 { inputs: a_inputs, init: a_init, .. },
            CellModel::Lut4 { inputs: b_inputs, init: b_init, .. },
        ) => a_inputs == b_inputs && a_init == b_init,
        _ => false,
    }
}

/// The wire that a lookup table drives.
pub open spec fn lut_wire(cell: CellModel) -> u32 {
    match cell {
        CellModel::Lut4 { output, .. } => output,
        _ => 0,
    }
}

/// The state after the sinks of one origin and its only replica were distributed.
pub open spec fn group_reclustered(
    state: ClusterModel,
    feedback: PhysicalFeedback,
    origin: Seq<char>,
    replica: usize,
    size: usize,
) -> ClusterModel {
    let cells = state.cells;
    match first_named(cells, origin) {
        Some(index) => {
            let replica_name = cells[replica as int].cell_name();
            if size != 1 || !same_function(cells[index], cells[replica as int]) || !(
            drives_late_enable(feedback.net_timings@, origin) || drives_late_enable(
                feedback.net_timings@,
                replica_name,
            )) {
                state
            } else {
                let first = lut_wire(cells[index]);
                let second = lut_wire(cells[replica as int]);
                let sinks = placed_sinks(cells, feedback, first, second, cells.len());
                if sinks.len() != sink_count(cells, first, second, cells.len()) || sinks.len()
                    < 2 {
                    state
                } else {
                    let sorted = sorted_sinks(sinks, splits_along_x(sinks));
                    let split = sorted.len() as int / 2;
                    let swapped = is_swapped(
                        sorted,
                        named(feedback.placements@, origin),
                        named(feedback.placements@, replica_name),
                    );
                    let near = if swapped {
                        second
                    } else {
                        first
                    };
                    let far = if swapped {
                        first
                    } else {
                        second
                    };
                    let half = cluster_moved(state, sorted.take(split), near, split as nat);
                    cluster_moved(half, sorted.skip(split), far, (sorted.len() - split) as nat)
                }
            }
        },
        None => state,
    }
}

/// The state after the first `count` groups.
pub open spec fn groups_reclustered(
    state: ClusterModel,
    feedback: PhysicalFeedback,
    groups: Seq<(Seq<char>, (usize, usize))>,
    count: nat,
) -> ClusterModel
    decreases count,
{
    if count == 0 {
        state
    } else {
        let group = groups[count - 1];
        group_reclustered(
            groups_reclustered(state, feedback, groups, (count - 1) as nat),
            feedback,
            group.0,
            group.1.0,
            group.1.1,
        )
    }
}

/// The cells with enable sinks distributed over equal drivers by placement.
pub open spec fn reclustered(cells: Seq<CellModel>, feedback: PhysicalFeedback) -> ClusterModel {
    let groups = replica_groups(cells, cells.len());
    groups_reclustered(ClusterModel { cells, rewires: 0 }, feedback, groups, groups.len())
}

fn check_late_enable(endpoints: &Vec<PhysicalTimingEndpoint>) -> (late: bool)
    ensures
        late == has_late_enable(endpoints@),
{
    let enable = "CE".to_owned();
    for i in 0..endpoints.len()
        invariant
            enable@ == "CE"@,
            forall|j: int|
                0 <= j < i ==> !((#[trigger] endpoints@[j]).port@ == "CE"@ && endpoints@[j].delay_ps
                    > endpoints@[j].budget_ps),
    {
        if endpoints[i].port == enable && endpoints[i].delay_ps > endpoints[i].budget_ps {
            assert(endpoints@[i as int].port@ == "CE"@);
            return true;
        }
    }
    false
}

fn check_drives_late(timings: &Vec<PhysicalNetTiming>, driver: &String) -> (late: bool)
    ensures
        late == drives_late_enable(timings@, driver@),
{
    for i in 0..timings.len()
        invariant
            forall|j: int|
                0 <= j < i ==> !((#[trigger] timings@[j]).driver@ == driver@ && has_late_enable(
                    timings@[j].endpoints@,
                )),
    {
        if timings[i].driver == *driver && check_late_enable(&timings[i].endpoints) {
            assert(timings@[i as int].driver@ == driver@);
            return true;
        }
    }
    false
}

fn check_count(text: &Vec<char>, from: usize) -> (valid: bool)
    requires
        from <= text@.len(),
    ensures
        valid == is_count(text@.skip(from as int)),
{
    let ghost part = text@.skip(from as int);
    if from == text.len() {
        return false;
    }
    assert(part[0] == text@[from as int]);
    let start: usize = if text[from] == '+' {
        from + 1
    } else {
        from
    };
    if start == text.len() {
        return false;
    }
    let mut value: u128 = 0;
    let mut i: usize = start;
    let ghost skipped = start - from;
    while i < text.len()
        invariant
            from <= start <= i <= text@.len(),
            part == text@.skip(from as int),
            part.len() > skipped,
            skipped == start - from,
            skipped == if part[0] == '+' {
                1int
            } else {
                0
            },
            value <= usize::MAX,
            count_digits(part, skipped, 0) == count_digits(part, i - from, value as int),
        decreases text@.len() - i,
    {
        let c = text[i];
        assert(part[i - from] == c);
        if !('0' <= c && c <= '9') {
            return false;
        }
        let digit = (c as u32 - '0' as u32) as u128;
        let next: u128 = value * 10 + digit;
        if next > usize::MAX as u128 {
            assert(!count_digits(part, i - from + 1, next as int));
            return false;
        }
        value = next;
        i += 1;
    }
    true
}

fn find_replica_origin(name: &String) -> (origin: Option<String>)
    ensures
        match origin {
            Some(origin) => replica_origin(name@) == Some(origin@),
            None => replica_origin(name@) is None,
        },
{
    let prefix = "replicate_enable_";
    if !starts_with(name.as_str(), prefix) {
        return None;
    }
    let chars = characters(name.as_str());
    let skip: usize = characters(prefix).len();
    let ghost rest = name@.skip(skip as int);
    let mut end: usize = chars.len();
    while end > skip
        invariant
            chars@ == name@,
            skip == replica_prefix().len(),
            skip <= end <= chars@.len(),
            rest == name@.skip(skip as int),
            last_underscore(rest, rest.len() as int) == last_underscore(rest, end - skip),
            begins_with(name@, replica_prefix()),
        decreases end,
    {
        assert(rest[end - skip - 1] == chars@[end - 1]);
        if chars[end - 1] == '_' {
            let at: usize = end - 1;
            assert(rest.skip(at - skip + 1) =~= chars@.skip(end as int));
            assert(rest.take(at - skip) =~= name@.subrange(skip as int, at as int));
            if check_count(&chars, end) {
                return Some(name.as_str().substring_char(skip, at).to_owned());
            }
            return None;
        }
        end -= 1;
    }
    None
}

fn collect_groups(cells: &Vec<Ecp5Cell>) -> (groups: NameMap<(usize, usize)>)
    ensures
        groups@ == replica_groups(cell_models(cells@), cells@.len()),
{
    let ghost models = cell_models(cells@);
    let mut groups: NameMap<(usize, usize)> = NameMap::new();
    for i in 0..cells.len()
        invariant
            models == cell_models(cells@),
            groups@ == replica_groups(models, i as nat),
    {
        assert(models[i as int] == cells@[i as int]@);
        if let Ecp5Cell::Lut4 { name, .. } = &cells[i] {
            if let Some(origin) = find_replica_origin(name) {
                let entry = match groups.get(origin.as_str()) {
                    Some((first, size)) => (*first, size.saturating_add(1)),
                    None => (i, 1),
                };
                groups.insert(origin, entry);
            }
        }
    }
    groups
}

struct Sink {
    index: usize,
    name: String,
    wire: u32,
    location: PhysicalLocation,
}

impl View for Sink {
    type V = SinkModel;

    closed spec fn view(&self) -> SinkModel {
        SinkModel {
            index: self.index,
            name: self.name@,
            wire: self.wire,
            location: self.location,
        }
    }
}

spec fn sink_models(sinks: Seq<Sink>) -> Seq<SinkModel> {
    Seq::new(sinks.len(), |i: int| sinks[i]@)
}

fn find_shared_enable(cell: &Ecp5Cell, first: u32, second: u32) -> (wire: Option<u32>)
    ensures
        wire == shared_enable(cell@, first, second),
{
    match cell {
        Ecp5Cell::FlipFlop { enable, .. } => match enable {
            Some(control) => match control.signal {
                Bit::Wire(wire) => if wire == first || wire == second {
                    Some(wire)
                } else {
                    None
                },
                _ => None,
            },
            None => None,
        },
        _ => None,
    }
}

spec fn indices_below(sinks: Seq<SinkModel>, limit: int) -> bool {
    forall|i: int| 0 <= i < sinks.len() ==> (#[trigger] sinks[i]).index < limit
}

fn collect_sinks(cells: &Vec<Ecp5Cell>, feedback: &PhysicalFeedback, first: u32, second: u32) -> (
    collected: (Vec<Sink>, usize))
    ensures
        sink_models(collected.0@) == placed_sinks(
            cell_models(cells@),
            *feedback,
            first,
            second,
            cells@.len(),
        ),
        collected.1 == sink_count(cell_models(cells@), first, second, cells@.len()),
        indices_below(sink_models(collected.0@), cells@.len() as int),
{
    let ghost models = cell_models(cells@);
    let mut sinks: Vec<Sink> = Vec::new();
    let mut total: usize = 0;
    assert(sink_models(sinks@) =~= Seq::<SinkModel>::empty());
    for i in 0..cells.len()
        invariant
            models == cell_models(cells@),
            total <= i,
            total == sink_count(models, first, second, i as nat),
            sink_models(sinks@) == placed_sinks(models, *feedback, first, second, i as nat),
            indices_below(sink_models(sinks@), cells@.len() as int),
    {
        assert(models[i as int] == cells@[i as int]@);
        if let Some(wire) = find_shared_enable(&cells[i], first, second) {
            total = total + 1;
            let name = mapped_cell_name(&cells[i]).clone();
            if let Some(location) = feedback.location(name.as_str()) {
                let ghost before = sinks@;
                let sink = Sink { index: i, name, wire, location };
                let ghost added = sink@;
                sinks.push(sink);
                assert(sink_models(sinks@) =~= sink_models(before).push(added));
            }
        }
    }
    (sinks, total)
}

fn check_splits_along_x(sinks: &Vec<Sink>) -> (along_x: bool)
    ensures
        along_x == splits_along_x(sink_models(sinks@)),
{
    let ghost models = sink_models(sinks@);
    let mut min_x: i64 = i32::MAX as i64;
    let mut max_x: i64 = i32::MIN as i64;
    let mut min_y: i64 = i32::MAX as i64;
    let mut max_y: i64 = i32::MIN as i64;
    for i in 0..sinks.len()
        invariant
            models == sink_models(sinks@),
            i32::MIN <= min_x <= i32::MAX,
            i32::MIN <= max_x <= i32::MAX,
            i32::MIN <= min_y <= i32::MAX,
            i32::MIN <= max_y <= i32::MAX,
            min_x == least_x(models.take(i as int)),
            max_x == most_x(models.take(i as int)),
            min_y == least_y(models.take(i as int)),
            max_y == most_y(models.take(i as int)),
    {
        assert(models.take(i + 1).drop_last() =~= models.take(i as int));
        assert(models[i as int] == sinks@[i as int]@);
        let x = sinks[i].location.x as i64;
        let y = sinks[i].location.y as i64;
        if !(min_x < x) {
            min_x = x;
        }
        if max_x < x {
            max_x = x;
        }
        if !(min_y < y) {
            min_y = y;
        }
        if max_y < y {
            max_y = y;
        }
    }
    assert(models.take(models.len() as int) =~= models);
    max_x - min_x >= max_y - min_y
}

fn sink_comes_before(a: &Sink, b: &Sink, along_x: bool) -> (before: bool)
    ensures
        before == sink_before(a@, b@, along_x),
{
    let (a1, a2) = if along_x {
        (a.location.x, a.location.y)
    } else {
        (a.location.y, a.location.x)
    };
    let (b1, b2) = if along_x {
        (b.location.x, b.location.y)
    } else {
        (b.location.y, b.location.x)
    };
    a1 < b1 || (a1 == b1 && (a2 < b2 || (a2 == b2 && comes_before(
        a.name.as_str(),
        b.name.as_str(),
    ))))
}

proof fn lemma_with_sorted_sink_at(
    sorted: Seq<SinkModel>,
    sink: SinkModel,
    along_x: bool,
    at: int,
)
    requires
        0 <= at <= sorted.len(),
        forall|i: int| at <= i < sorted.len() ==> sink_before(sink, #[trigger] sorted[i], along_x),
        at > 0 ==> !sink_before(sink, sorted[at - 1], along_x),
    ensures
        with_sorted_sink(sorted, sink, along_x) == sorted.insert(at, sink),
    decreases sorted.len() - at,
{
    if at == sorted.len() {
        if sorted.len() == 0 {
            assert(sorted.insert(0, sink) =~= seq![sink]);
        } else {
            assert(sorted.insert(at, sink) =~= sorted.push(sink));
        }
    } else {
        let rest = sorted.drop_last();
        assert(sink_before(sink, sorted[sorted.len() - 1], along_x));
        assert forall|i: int| at <= i < rest.len() implies sink_before(
            sink,
            #[trigger] rest[i],
            along_x,
        ) by {
            assert(sorted[i] == rest[i]);
        }
        lemma_with_sorted_sink_at(rest, sink, along_x, at);
        assert(sorted.insert(at, sink) =~= rest.insert(at, sink).push(sorted.last()));
    }
}

fn copy_sink(sink: &Sink) -> (copy: Sink)
    ensures
        copy@ == sink@,
{
    Sink {
        index: sink.index,
        name: sink.name.clone(),
        wire: sink.wire,
        location: sink.location,
    }
}

fn sort_sinks(sinks: &Vec<Sink>, along_x: bool, Ghost(limit): Ghost<int>) -> (sorted: Vec<Sink>)
    requires
        indices_below(sink_models(sinks@), limit),
    ensures
        sink_models(sorted@) == sorted_sinks(sink_models(sinks@), along_x),
        indices_below(sink_models(sorted@), limit),
        sorted@.len() == sinks@.len(),
{
    let ghost models = sink_models(sinks@);
    let mut sorted: Vec<Sink> = Vec::new();
    assert(sink_models(sorted@) =~= Seq::<SinkModel>::empty());
    for i in 0..sinks.len()
        invariant
            models == sink_models(sinks@),
            indices_below(models, limit),
            sorted@.len() == i,
            sink_models(sorted@) == sorted_sinks(models.take(i as int), along_x),
            indices_below(sink_models(sorted@), limit),
    {
        assert(models.take(i + 1).drop_last() =~= models.take(i as int));
        assert(models[i as int] == sinks@[i as int]@);
        let sink = copy_sink(&sinks[i]);
        let ghost now = sink_models(sorted@);
        let mut at: usize = sorted.len();
        while at > 0
            invariant
                now == sink_models(sorted@),
                at <= sorted@.len(),
                forall|k: int|
                    at <= k < now.len() ==> sink_before(sink@, #[trigger] now[k], along_x),
            ensures
                at > 0 ==> !sink_before(sink@, now[at - 1], along_x),
            decreases at,
        {
            assert(now[at - 1] == sorted@[at - 1]@);
            if sink_comes_before(&sink, &sorted[at - 1], along_x) {
                at -= 1;
            } else {
                break;
            }
        }
        proof {
            lemma_with_sorted_sink_at(now, sink@, along_x, at as int);
        }
        let ghost added = sink@;
        sorted.insert(at, sink);
        assert(sink_models(sorted@) =~= now.insert(at as int, added));
        assert forall|k: int| 0 <= k < sink_models(sorted@).len() implies (
        #[trigger] sink_models(sorted@)[k]).index < limit by {
            if k < at {
                assert(now[k].index < limit);
            } else if k > at {
                assert(now[k - 1].index < limit);
            } else {
                assert(models[i as int].index < limit);
            }
        }
    }
    assert(models.take(models.len() as int) =~= models);
    sorted
}

fn cluster_distance(sinks: &Vec<Sink>, start: usize, end: usize, driver: PhysicalLocation) -> (total:
    i128)
    requires
        start <= end <= sinks@.len(),
    ensures
        total == total_distance(
            sink_models(sinks@).subrange(start as int, end as int),
            driver,
        ),
        0 <= total <= (end - start) * 0x2_0000_0000,
{
    let ghost part = sink_models(sinks@).subrange(start as int, end as int);
    let mut total: i128 = 0;
    for i in start..end
        invariant
            start <= end <= sinks@.len(),
            part == sink_models(sinks@).subrange(start as int, end as int),
            total == total_distance(part.take(i - start), driver),
            0 <= total <= (i - start) * 0x2_0000_0000,
    {
        assert(part.take(i + 1 - start).drop_last() =~= part.take(i - start));
        assert(part[i - start] == sinks@[i as int]@);
        let sink = sinks[i].location;
        let dx: i128 = if sink.x < driver.x {
            driver.x as i128 - sink.x as i128
        } else {
            sink.x as i128 - driver.x as i128
        };
        let dy: i128 = if sink.y < driver.y {
            driver.y as i128 - sink.y as i128
        } else {
            sink.y as i128 - driver.y as i128
        };
        total = total + dx + dy;
    }
    assert(part.take(end - start) =~= part);
    total
}

fn check_swapped(
    sorted: &Vec<Sink>,
    origin: Option<PhysicalLocation>,
    replica: Option<PhysicalLocation>,
) -> (swapped: bool)
    ensures
        swapped == is_swapped(sink_models(sorted@), origin, replica),
{
    let ghost models = sink_models(sorted@);
    let size: usize = sorted.len();
    let split: usize = size / 2;
    match (origin, replica) {
        (Some(origin), Some(replica)) => {
            assert(models.take(split as int) =~= models.subrange(0, split as int));
            assert(models.skip(split as int) =~= models.subrange(split as int, size as int));
            let straight = cluster_distance(sorted, 0, split, origin) + cluster_distance(
                sorted,
                split,
                size,
                replica,
            );
            let crossed = cluster_distance(sorted, 0, split, replica) + cluster_distance(
                sorted,
                split,
                size,
                origin,
            );
            straight > crossed
        },
        _ => false,
    }
}

fn move_cluster(
    cells: &mut Vec<Ecp5Cell>,
    rewires: usize,
    sinks: &Vec<Sink>,
    start: usize,
    end: usize,
    wire: u32,
    Ghost(state): Ghost<ClusterModel>,
) -> (after: usize)
    requires
        start <= end <= sinks@.len(),
        indices_below(sink_models(sinks@), old(cells)@.len() as int),
        cell_models(old(cells)@) == state.cells,
        rewires == clamped(state.rewires),
    ensures
        cell_models(final(cells)@) == cluster_moved(
            state,
            sink_models(sinks@).subrange(start as int, end as int),
            wire,
            (end - start) as nat,
        ).cells,
        after == clamped(
            cluster_moved(
                state,
                sink_models(sinks@).subrange(start as int, end as int),
                wire,
                (end - start) as nat,
            ).rewires,
        ),
        final(cells)@.len() == old(cells)@.len(),
{
    let ghost part = sink_models(sinks@).subrange(start as int, end as int);
    let ghost size = cells@.len();
    let mut count = rewires;
    for i in start..end
        invariant
            start <= end <= sinks@.len(),
            part == sink_models(sinks@).subrange(start as int, end as int),
            indices_below(sink_models(sinks@), size as int),
            cells@.len() == size,
            cell_models(cells@) == cluster_moved(state, part, wire, (i - start) as nat).cells,
            count == clamped(cluster_moved(state, part, wire, (i - start) as nat).rewires),
    {
        assert(part[i - start] == sinks@[i as int]@);
        assert(sink_models(sinks@)[i as int].index < size);
        let index = sinks[i].index;
        if sinks[i].wire != wire {
            let ghost now = cells@;
            let mut cell = cells[index].clone();
            set_enable(&mut cell, wire);
            assert(cell@ == with_enable(cell_models(now)[index as int], wire));
            let ghost moved = cell@;
            cells.set(index, cell);
            assert(cell_models(cells@) =~= cell_models(now).update(index as int, moved));
            count = count.saturating_add(1);
        }
    }
    count
}

fn check_same_function(a: &Ecp5Cell, b: &Ecp5Cell) -> (same: bool)
    ensures
        same == same_function(a@, b@),
{
    match (a, b) {
        (
            Ecp5Cell::Lut4 { inputs: a_inputs, init: a_init, .. },
            Ecp5Cell::Lut4 { inputs: b_inputs, init: b_init, .. },
        ) => {
            let same = a_inputs[0] == b_inputs[0] && a_inputs[1] == b_inputs[1] && a_inputs[2]
                == b_inputs[2] && a_inputs[3] == b_inputs[3];
            assert(same == (*a_inputs == *b_inputs)) by {
                if same {
                    assert(a_inputs@ =~= b_inputs@);
                    assert(*a_inputs =~= *b_inputs);
                }
            }
            same && *a_init == *b_init
        },
        _ => false,
    }
}

fn wire_of_lut(cell: &Ecp5Cell) -> (wire: u32)
    ensures
        wire == lut_wire(cell@),
{
    match cell {
        Ecp5Cell::Lut4 { output, .. } => *output,
        _ => 0,
    }
}

fn recluster_group(
    cells: &mut Vec<Ecp5Cell>,
    rewires: usize,
    feedback: &PhysicalFeedback,
    origin: &String,
    replica: usize,
    size: usize,
    Ghost(state): Ghost<ClusterModel>,
) -> (after: usize)
    requires
        replica < old(cells)@.len(),
        cell_models(old(cells)@) == state.cells,
        rewires == clamped(state.rewires),
    ensures
        cell_models(final(cells)@) == group_reclustered(
            state,
            *feedback,
            origin@,
            replica,
            size,
        ).cells,
        after == clamped(group_reclustered(state, *feedback, origin@, replica, size).rewires),
        final(cells)@.len() == old(cells)@.len(),
{
    let index = match position_of_name(cells, origin) {
        Some(index) => index,
        None => {
            return rewires;
        },
    };
    assert(state.cells[index as int] == cells@[index as int]@);
    assert(state.cells[replica as int] == cells@[replica as int]@);
    if size != 1 || !check_same_function(&cells[index], &cells[replica]) {
        return rewires;
    }
    let replica_name = mapped_cell_name(&cells[replica]).clone();
    if !check_drives_late(&feedback.net_timings, origin) && !check_drives_late(
        &feedback.net_timings,
        &replica_name,
    ) {
        return rewires;
    }
    let first = wire_of_lut(&cells[index]);
    let second = wire_of_lut(&cells[replica]);
    let (sinks, total) = collect_sinks(cells, feedback, first, second);
    assert(sink_models(sinks@).len() == sinks@.len());
    if sinks.len() != total || sinks.len() < 2 {
        return rewires;
    }
    let along_x = check_splits_along_x(&sinks);
    let sorted = sort_sinks(&sinks, along_x, Ghost(cells@.len() as int));
    let ghost models = sink_models(sorted@);
    assert(models.len() == sorted@.len());
    let count: usize = sorted.len();
    let split: usize = count / 2;
    let swapped = check_swapped(
        &sorted,
        feedback.location(origin.as_str()),
        feedback.location(replica_name.as_str()),
    );
    let near = if swapped {
        second
    } else {
        first
    };
    let far = if swapped {
        first
    } else {
        second
    };
    assert(models.take(split as int) =~= models.subrange(0, split as int));
    assert(models.skip(split as int) =~= models.subrange(split as int, count as int));
    let half = move_cluster(cells, rewires, &sorted, 0, split, near, Ghost(state));
    let ghost middle = cluster_moved(state, models.take(split as int), near, split as nat);
    move_cluster(cells, half, &sorted, split, count, far, Ghost(middle))
}

/// Groups name cells that are there.
pub proof fn lemma_groups_below(cells: Seq<CellModel>, count: nat)
    requires
        count <= cells.len() <= usize::MAX,
    ensures
        forall|i: int|
            0 <= i < replica_groups(cells, count).len() ==> (#[trigger] replica_groups(
                cells,
                count,
            )[i]).1.0 < cells.len(),
    decreases count,
{
    if count > 0 {
        lemma_groups_below(cells, (count - 1) as nat);
        let rest = replica_groups(cells, (count - 1) as nat);
        let cell = cells[count - 1];
        if cell is Lut4 {
            if let Some(origin) = replica_origin(cell.cell_name()) {
                let value = match named(rest, origin) {
                    Some((first, size)) => (first, clamped(size as nat + 1)),
                    None => ((count - 1) as usize, 1usize),
                };
                if named(rest, origin) is Some {
                    lemma_named_value(rest, origin, 0, cells.len() as int);
                }
                lemma_entry_values(rest, origin, value, cells.len() as int);
            }
        }
    }
}

proof fn lemma_named_value(
    entries: Seq<(Seq<char>, (usize, usize))>,
    name: Seq<char>,
    from: int,
    limit: int,
)
    requires
        0 <= from,
        forall|i: int| 0 <= i < entries.len() ==> (#[trigger] entries[i]).1.0 < limit,
    ensures
        crate::names::named_from(entries, name, from) matches Some(value) ==> value.0 < limit,
    decreases entries.len() - from,
{
    if from < entries.len() {
        assert(entries[from].1.0 < limit);
        lemma_named_value(entries, name, from + 1, limit);
    }
}

proof fn lemma_entry_values(
    entries: Seq<(Seq<char>, (usize, usize))>,
    name: Seq<char>,
    value: (usize, usize),
    limit: int,
)
    requires
        value.0 < limit,
        forall|i: int| 0 <= i < entries.len() ==> (#[trigger] entries[i]).1.0 < limit,
    ensures
        forall|i: int|
            0 <= i < with_entry(entries, name, value).len() ==> (#[trigger] with_entry(
                entries,
                name,
                value,
            )[i]).1.0 < limit,
    decreases entries.len(),
{
    if entries.len() > 0 {
        let last = entries[entries.len() - 1];
        assert(last.1.0 < limit);
        let rest = entries.drop_last();
        assert forall|i: int| 0 <= i < rest.len() implies (#[trigger] rest[i]).1.0 < limit by {
            assert(entries[i] == rest[i]);
        }
        lemma_entry_values(rest, name, value, limit);
        let out = with_entry(entries, name, value);
        let inner = with_entry(rest, name, value);
        assert forall|i: int| 0 <= i < out.len() implies (#[trigger] out[i]).1.0 < limit by {
            if text_before(last.0, name) {
                if i < entries.len() {
                    assert(out[i] == entries[i]);
                }
            } else if last.0 == name {
                if i < rest.len() {
                    assert(out[i] == rest[i]);
                }
            } else if i < inner.len() {
                assert(out[i] == inner[i]);
            }
        }
    }
}

/// Distributes enable sinks over equal drivers by placement; returns how many moved.
pub fn recluster_replicated_enable_sinks(
    netlist: &mut Ecp5Netlist,
    feedback: &PhysicalFeedback,
) -> (rewires: usize)
    ensures
        final(netlist)@ == (NetlistModel {
            cells: reclustered(old(netlist)@.cells, *feedback).cells,
            ..old(netlist)@
        }),
        rewires == clamped(reclustered(old(netlist)@.cells, *feedback).rewires),
{
    let ghost before = netlist@;
    let groups = collect_groups(&netlist.cells);
    let size: usize = netlist.cells.len();
    proof {
        lemma_groups_below(before.cells, before.cells.len());
    }
    let ghost start = ClusterModel { cells: before.cells, rewires: 0 };
    let mut cells = copy_cells(&netlist.cells);
    assert(cell_models(cells@).len() == cells@.len());
    let mut rewires: usize = 0;
    for i in 0..groups.entries.len()
        invariant
            cells@.len() == size,
            forall|i: int| 0 <= i < groups@.len() ==> (#[trigger] groups@[i]).1.0 < size,
            cell_models(cells@) == groups_reclustered(start, *feedback, groups@, i as nat).cells,
            rewires == clamped(groups_reclustered(start, *feedback, groups@, i as nat).rewires),
    {
        let ghost state = groups_reclustered(start, *feedback, groups@, i as nat);
        let origin = &groups.entries[i].0;
        let (replica, members) = groups.entries[i].1;
        assert(groups@[i as int] == (origin@, (replica, members)));
        rewires =
        recluster_group(
            &mut cells,
            rewires,
            feedback,
            origin,
            replica,
            members,
            Ghost(state),
        );
    }
    netlist.cells = cells;
    rewires
}

proof fn lemma_moved_count(state: ClusterModel, sinks: Seq<SinkModel>, wire: u32, count: nat)
    ensures
        cluster_moved(state, sinks, wire, count).rewires >= state.rewires,
        cluster_moved(state, sinks, wire, count).rewires == state.rewires ==> cluster_moved(
            state,
            sinks,
            wire,
            count,
        ) == state,
    decreases count,
{
    if count > 0 {
        lemma_moved_count(state, sinks, wire, (count - 1) as nat);
    }
}

proof fn lemma_group_count(
    state: ClusterModel,
    feedback: PhysicalFeedback,
    origin: Seq<char>,
    replica: usize,
    size: usize,
)
    ensures
        group_reclustered(state, feedback, origin, replica, size).rewires >= state.rewires,
        group_reclustered(state, feedback, origin, replica, size).rewires == state.rewires
            ==> group_reclustered(state, feedback, origin, replica, size) == state,
{
    assert forall|sinks: Seq<SinkModel>, wire: u32, count: nat, from: ClusterModel|
        (#[trigger] cluster_moved(from, sinks, wire, count)).rewires >= from.rewires && (
        cluster_moved(from, sinks, wire, count).rewires == from.rewires ==> cluster_moved(
            from,
            sinks,
            wire,
            count,
        ) == from) by {
        lemma_moved_count(from, sinks, wire, count);
    }
}

proof fn lemma_groups_count(
    state: ClusterModel,
    feedback: PhysicalFeedback,
    groups: Seq<(Seq<char>, (usize, usize))>,
    count: nat,
)
    ensures
        groups_reclustered(state, feedback, groups, count).rewires >= state.rewires,
        groups_reclustered(state, feedback, groups, count).rewires == state.rewires
            ==> groups_reclustered(state, feedback, groups, count) == state,
    decreases count,
{
    if count > 0 {
        let last = (count - 1) as nat;
        lemma_groups_count(state, feedback, groups, last);
        let rest = groups_reclustered(state, feedback, groups, last);
        let group = groups[last as int];
        lemma_group_count(rest, feedback, group.0, group.1.0, group.1.1);
    }
}

/// Reassigning sinks changes nothing exactly where it moves no sink.
pub proof fn law_no_moves_no_change(cells: Seq<CellModel>, feedback: PhysicalFeedback)
    ensures
        reclustered(cells, feedback).rewires == 0 ==> reclustered(cells, feedback).cells == cells,
{
    let groups = replica_groups(cells, cells.len());
    lemma_groups_count(ClusterModel { cells, rewires: 0 }, feedback, groups, groups.len());
}

} // verus!
