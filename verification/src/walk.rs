//! Walks over nets: fanouts, fan-ins and the order in which nets are reached.

use vstd::prelude::*;

use crate::demand::all_below;
use crate::ir::arithmetic_is_valid;
use crate::ir::arithmetic_reads;
use crate::ir::comparison_is_valid;
use crate::ir::comparison_reads;
use crate::ir::extend_nets;
use crate::ir::is_boolean;
use crate::ir::is_gate;
use crate::ir::nets_of_arithmetic;
use crate::ir::nets_of_comparison;
use crate::ir::node_is_valid;
use crate::ir::readable;
use crate::ir::ArithmeticCell;
use crate::ir::ComparisonCell;
use crate::ir::NetId;
use crate::ir::Netlist;
use crate::ir::Node;

verus! {

/// `added`, once for each `net` among `reads`.
pub open spec fn per_read(reads: Seq<NetId>, net: NetId, added: Seq<NetId>) -> Seq<NetId>
    decreases reads.len(),
{
    if reads.len() == 0 {
        seq![]
    } else {
        let rest = per_read(reads.drop_last(), net, added);
        if reads.last() == net {
            rest + added
        } else {
            rest
        }
    }
}

/// The gates among the first `count` nodes that read `net`, once for each pin.
pub open spec fn gate_fanouts(nodes: Seq<Node>, net: NetId, count: nat) -> Seq<NetId>
    decreases count,
{
    if count == 0 {
        seq![]
    } else {
        let node = nodes[count - 1];
        let rest = gate_fanouts(nodes, net, (count - 1) as nat);
        if is_gate(node.kind) {
            rest + per_read(node.inputs@, net, seq![(count - 1) as NetId])
        } else {
            rest
        }
    }
}

/// The results of arithmetic cells that read `net`, once for each pin.
pub open spec fn arithmetic_fanouts(cells: Seq<ArithmeticCell>, net: NetId) -> Seq<NetId>
    decreases cells.len(),
{
    if cells.len() == 0 {
        seq![]
    } else {
        arithmetic_fanouts(cells.drop_last(), net) + per_read(
            arithmetic_reads(cells.last()),
            net,
            cells.last().outputs@,
        )
    }
}

/// The results of comparisons that read `net`, once for each pin.
pub open spec fn comparison_fanouts(cells: Seq<ComparisonCell>, net: NetId) -> Seq<NetId>
    decreases cells.len(),
{
    if cells.len() == 0 {
        seq![]
    } else {
        comparison_fanouts(cells.drop_last(), net) + per_read(
            comparison_reads(cells.last()),
            net,
            seq![cells.last().output],
        )
    }
}

/// The nets that depend combinationally on `net` through one cell.
pub open spec fn net_fanouts(netlist: Netlist, net: NetId) -> Seq<NetId> {
    gate_fanouts(netlist.nodes@, net, netlist.nodes@.len()) + arithmetic_fanouts(
        netlist.arithmetic@,
        net,
    ) + comparison_fanouts(netlist.comparisons@, net)
}

/// The neighbours of each net.
pub open spec fn neighbour_lists(lists: Seq<Vec<NetId>>) -> Seq<Seq<NetId>> {
    Seq::new(lists.len(), |i: int| lists[i]@)
}

fn append_at(lists: &mut Vec<Vec<NetId>>, net: usize, added: &Vec<NetId>)
    requires
        net < old(lists)@.len(),
    ensures
        neighbour_lists(final(lists)@) == neighbour_lists(old(lists)@).update(
            net as int,
            old(lists)@[net as int]@ + added@,
        ),
        final(lists)@.len() == old(lists)@.len(),
{
    let ghost before = lists@;
    let mut list: Vec<NetId> = Vec::new();
    extend_nets(&mut list, &lists[net]);
    extend_nets(&mut list, added);
    assert(list@ =~= before[net as int]@ + added@);
    lists.set(net, list);
    assert(neighbour_lists(lists@) =~= neighbour_lists(before).update(
        net as int,
        before[net as int]@ + added@,
    ));
}

fn append_per_read(lists: &mut Vec<Vec<NetId>>, reads: &Vec<NetId>, added: &Vec<NetId>)
    requires
        all_below(reads@, old(lists)@.len() as int),
        old(lists)@.len() <= u32::MAX,
    ensures
        final(lists)@.len() == old(lists)@.len(),
        forall|net: int|
            0 <= net < old(lists)@.len() ==> (#[trigger] final(lists)@[net])@ == old(lists)@[net]@
                + per_read(reads@, net as NetId, added@),
{
    let ghost before = lists@;
    assert forall|net: int| 0 <= net < before.len() implies (#[trigger] lists@[net])@
        == before[net]@ + per_read(reads@.take(0), net as NetId, added@) by {
        assert(before[net]@ + Seq::<NetId>::empty() =~= before[net]@);
    }
    for i in 0..reads.len()
        invariant
            all_below(reads@, before.len() as int),
            before.len() <= u32::MAX,
            lists@.len() == before.len(),
            forall|net: int|
                0 <= net < before.len() ==> (#[trigger] lists@[net])@ == before[net]@ + per_read(
                    reads@.take(i as int),
                    net as NetId,
                    added@,
                ),
    {
        assert(reads@.take(i + 1).drop_last() =~= reads@.take(i as int));
        assert(reads@[i as int] < before.len());
        let at = reads[i] as usize;
        let ghost now = lists@;
        append_at(lists, at, added);
        assert forall|net: int| 0 <= net < before.len() implies (#[trigger] lists@[net])@
            == before[net]@ + per_read(reads@.take(i + 1), net as NetId, added@) by {
            assert(neighbour_lists(lists@)[net] == lists@[net]@);
            assert(now[net]@ == before[net]@ + per_read(
                reads@.take(i as int),
                net as NetId,
                added@,
            ));
            if net == at {
                assert(now[net]@ + added@ =~= before[net]@ + (per_read(
                    reads@.take(i as int),
                    net as NetId,
                    added@,
                ) + added@));
            }
        }
    }
    assert(reads@.take(reads@.len() as int) =~= reads@);
}

fn empty_lists(count: usize) -> (lists: Vec<Vec<NetId>>)
    ensures
        lists@.len() == count,
        forall|i: int| 0 <= i < count ==> (#[trigger] lists@[i])@ == Seq::<NetId>::empty(),
{
    let mut lists: Vec<Vec<NetId>> = Vec::new();
    for i in 0..count
        invariant
            lists@.len() == i,
            forall|j: int| 0 <= j < i ==> (#[trigger] lists@[j])@ == Seq::<NetId>::empty(),
    {
        let list: Vec<NetId> = Vec::new();
        assert(list@ =~= Seq::<NetId>::empty());
        lists.push(list);
    }
    lists
}

/// The nets that depend combinationally on each net through one cell.
pub fn ooc_combinational_fanouts(netlist: &Netlist) -> (fanouts: Vec<Vec<NetId>>)
    requires
        netlist.is_valid(),
    ensures
        fanouts@.len() == netlist.nodes@.len(),
        forall|net: int|
            0 <= net < netlist.nodes@.len() ==> (#[trigger] fanouts@[net])@ == net_fanouts(
                *netlist,
                net as NetId,
            ),
{
    let ghost n = netlist.nodes@.len();
    let mut fanouts = empty_lists(netlist.nodes.len());
    for i in 0..netlist.nodes.len()
        invariant
            netlist.is_valid(),
            n == netlist.nodes@.len(),
            fanouts@.len() == n,
            forall|net: int|
                0 <= net < n ==> (#[trigger] fanouts@[net])@ == gate_fanouts(
                    netlist.nodes@,
                    net as NetId,
                    i as nat,
                ),
    {
        assert(node_is_valid(netlist.nodes@, i as int));
        if is_boolean(netlist.nodes[i].kind) {
            let mut added: Vec<NetId> = Vec::new();
            added.push(i as NetId);
            assert(added@ =~= seq![i as NetId]);
            proof {
                assert forall|k: int| 0 <= k < netlist.nodes@[i as int].inputs@.len() implies
                #[trigger] netlist.nodes@[i as int].inputs@[k] < n by {
                    assert(readable(netlist.nodes@, netlist.nodes@[i as int].inputs@[k]));
                }
            }
            append_per_read(&mut fanouts, &netlist.nodes[i].inputs, &added);
        }
    }
    let ghost gates = fanouts@;
    assert forall|net: int| 0 <= net < n implies (#[trigger] fanouts@[net])@ == gates[net]@
        + arithmetic_fanouts(netlist.arithmetic@.take(0), net as NetId) by {
        assert(gates[net]@ + Seq::<NetId>::empty() =~= gates[net]@);
    }
    for i in 0..netlist.arithmetic.len()
        invariant
            netlist.is_valid(),
            n == netlist.nodes@.len(),
            fanouts@.len() == n,
            forall|net: int|
                0 <= net < n ==> (#[trigger] fanouts@[net])@ == gates[net]@ + arithmetic_fanouts(
                    netlist.arithmetic@.take(i as int),
                    net as NetId,
                ),
    {
        assert(netlist.arithmetic@.take(i + 1).drop_last() =~= netlist.arithmetic@.take(i as int));
        let ghost before = fanouts@;
        let reads = nets_of_arithmetic(&netlist.arithmetic[i]);
        proof {
            assert(arithmetic_is_valid(netlist.nodes@, netlist.arithmetic@[i as int]));
            assert forall|k: int| 0 <= k < reads@.len() implies #[trigger] reads@[k] < n by {
                assert(readable(netlist.nodes@, reads@[k]));
            }
        }
        append_per_read(&mut fanouts, &reads, &netlist.arithmetic[i].outputs);
        assert forall|net: int| 0 <= net < n implies (#[trigger] fanouts@[net])@ == gates[net]@
            + arithmetic_fanouts(netlist.arithmetic@.take(i + 1), net as NetId) by {
            let added = per_read(reads@, net as NetId, netlist.arithmetic@[i as int].outputs@);
            assert(before[net]@ + added =~= gates[net]@ + (arithmetic_fanouts(
                netlist.arithmetic@.take(i as int),
                net as NetId,
            ) + added));
        }
    }
    assert(netlist.arithmetic@.take(netlist.arithmetic@.len() as int) =~= netlist.arithmetic@);
    let ghost words = fanouts@;
    assert forall|net: int| 0 <= net < n implies (#[trigger] fanouts@[net])@ == words[net]@
        + comparison_fanouts(netlist.comparisons@.take(0), net as NetId) by {
        assert(words[net]@ + Seq::<NetId>::empty() =~= words[net]@);
    }
    for i in 0..netlist.comparisons.len()
        invariant
            netlist.is_valid(),
            n == netlist.nodes@.len(),
            fanouts@.len() == n,
            forall|net: int|
                0 <= net < n ==> (#[trigger] fanouts@[net])@ == words[net]@ + comparison_fanouts(
                    netlist.comparisons@.take(i as int),
                    net as NetId,
                ),
    {
        assert(netlist.comparisons@.take(i + 1).drop_last() =~= netlist.comparisons@.take(
            i as int,
        ));
        let ghost before = fanouts@;
        let reads = nets_of_comparison(&netlist.comparisons[i]);
        proof {
            assert(comparison_is_valid(netlist.nodes@, netlist.comparisons@[i as int]));
            assert forall|k: int| 0 <= k < reads@.len() implies #[trigger] reads@[k] < n by {
                assert(readable(netlist.nodes@, reads@[k]));
            }
        }
        let mut added: Vec<NetId> = Vec::new();
        added.push(netlist.comparisons[i].output);
        assert(added@ =~= seq![netlist.comparisons@[i as int].output]);
        append_per_read(&mut fanouts, &reads, &added);
        assert forall|net: int| 0 <= net < n implies (#[trigger] fanouts@[net])@ == words[net]@
            + comparison_fanouts(netlist.comparisons@.take(i + 1), net as NetId) by {
            let more = per_read(reads@, net as NetId, added@);
            assert(before[net]@ + more =~= words[net]@ + (comparison_fanouts(
                netlist.comparisons@.take(i as int),
                net as NetId,
            ) + more));
        }
    }
    assert(netlist.comparisons@.take(netlist.comparisons@.len() as int) =~= netlist.comparisons@);
    fanouts
}

/// How many flags are not set.
pub open spec fn unset(flags: Seq<bool>) -> nat
    decreases flags.len(),
{
    if flags.len() == 0 {
        0
    } else {
        unset(flags.drop_last()) + if flags.last() {
            0nat
        } else {
            1
        }
    }
}

proof fn lemma_unset(flags: Seq<bool>, index: int)
    requires
        0 <= index < flags.len(),
        !flags[index],
    ensures
        unset(flags.update(index, true)) + 1 == unset(flags),
    decreases flags.len(),
{
    if index == flags.len() - 1 {
        assert(flags.update(index, true).drop_last() =~= flags.drop_last());
    } else {
        lemma_unset(flags.drop_last(), index);
        assert(flags.update(index, true).drop_last() =~= flags.drop_last().update(index, true));
    }
}

/// The nets that a depth-first walk reaches, in the order it reaches them.
///
/// `pending` is the stack, last first; a net whose flag is set was reached before.
pub open spec fn walk(
    next: Seq<Seq<NetId>>,
    pending: Seq<NetId>,
    flags: Seq<bool>,
    order: Seq<NetId>,
) -> Seq<NetId>
    decreases unset(flags), pending.len(),
    via walk_decreases
{
    if pending.len() == 0 {
        order
    } else {
        let net = pending.last();
        let rest = pending.drop_last();
        if net >= flags.len() || flags[net as int] {
            walk(next, rest, flags, order)
        } else {
            walk(next, rest + next[net as int], flags.update(net as int, true), order.push(net))
        }
    }
}

#[via_fn]
proof fn walk_decreases(
    next: Seq<Seq<NetId>>,
    pending: Seq<NetId>,
    flags: Seq<bool>,
    order: Seq<NetId>,
) {
    if pending.len() > 0 {
        let net = pending.last();
        if net < flags.len() && !flags[net as int] {
            lemma_unset(flags, net as int);
        }
    }
}

/// The nets that a depth-first walk from `start` reaches, in the order it reaches them.
pub open spec fn reached(next: Seq<Seq<NetId>>, start: Seq<NetId>) -> Seq<NetId> {
    walk(next, start, Seq::new(next.len(), |i: int| false), seq![])
}

spec fn walk_is_sound(
    next: Seq<Seq<NetId>>,
    start: Seq<NetId>,
    pending: Seq<NetId>,
    flags: Seq<bool>,
    order: Seq<NetId>,
) -> bool {
    &&& flags.len() == next.len()
    &&& forall|i: int| 0 <= i < order.len() ==> (#[trigger] order[i]) < flags.len()
        && flags[order[i] as int]
    &&& forall|net: NetId| net < flags.len() && #[trigger] flags[net as int] ==> order.contains(net)
    &&& forall|i: int|
        0 <= i < start.len() && start[i] < flags.len() ==> flags[(#[trigger] start[i]) as int]
            || pending.contains(start[i])
    &&& forall|net: NetId, k: int|
        net < flags.len() && flags[net as int] && 0 <= k < next[net as int].len()
            && next[net as int][k] < flags.len() ==> flags[(#[trigger] next[net as int][k]) as int]
            || pending.contains(next[net as int][k])
}

proof fn lemma_walk(
    next: Seq<Seq<NetId>>,
    start: Seq<NetId>,
    pending: Seq<NetId>,
    flags: Seq<bool>,
    order: Seq<NetId>,
)
    requires
        walk_is_sound(next, start, pending, flags, order),
    ensures
        forall|i: int|
            0 <= i < start.len() && start[i] < next.len() ==> walk(
                next,
                pending,
                flags,
                order,
            ).contains(#[trigger] start[i]),
        forall|net: NetId, k: int|
            walk(next, pending, flags, order).contains(net) && net < next.len() && 0 <= k
                < next[net as int].len() && next[net as int][k] < next.len() ==> walk(
                next,
                pending,
                flags,
                order,
            ).contains(#[trigger] next[net as int][k]),
        all_below(walk(next, pending, flags, order), next.len() as int),
    decreases unset(flags), pending.len(),
{
    if pending.len() == 0 {
        let out = walk(next, pending, flags, order);
        assert forall|i: int| 0 <= i < out.len() implies #[trigger] out[i] < next.len() by {
            assert(order[i] < flags.len());
        }
        assert forall|i: int| 0 <= i < start.len() && start[i] < next.len() implies out.contains(
            #[trigger] start[i],
        ) by {
            assert(flags[start[i] as int]);
        }
        assert forall|net: NetId, k: int|
            out.contains(net) && net < next.len() && 0 <= k < next[net as int].len()
                && next[net as int][k] < next.len() implies out.contains(
            #[trigger] next[net as int][k],
        ) by {
            let i = choose|i: int| 0 <= i < out.len() && out[i] == net;
            assert(flags[order[i] as int]);
            assert(flags[next[net as int][k] as int]);
        }
    } else {
        let net = pending.last();
        let rest = pending.drop_last();
        assert forall|x: NetId| pending.contains(x) && x != net implies rest.contains(x) by {
            let i = choose|i: int| 0 <= i < pending.len() && pending[i] == x;
            assert(rest[i] == x);
        }
        if net >= flags.len() || flags[net as int] {
            assert(walk_is_sound(next, start, rest, flags, order)) by {
                assert forall|i: int| 0 <= i < start.len() && start[i] < flags.len() implies flags[(
                #[trigger] start[i]) as int] || rest.contains(start[i]) by {}
                assert forall|v: NetId, k: int|
                    v < flags.len() && flags[v as int] && 0 <= k < next[v as int].len()
                        && next[v as int][k] < flags.len() implies flags[(
                #[trigger] next[v as int][k]) as int] || rest.contains(next[v as int][k]) by {}
            }
            lemma_walk(next, start, rest, flags, order);
        } else {
            lemma_unset(flags, net as int);
            let more = rest + next[net as int];
            let marked = flags.update(net as int, true);
            let longer = order.push(net);
            assert(walk_is_sound(next, start, more, marked, longer)) by {
                assert forall|x: NetId| rest.contains(x) implies more.contains(x) by {
                    let i = choose|i: int| 0 <= i < rest.len() && rest[i] == x;
                    assert(more[i] == x);
                }
                assert forall|i: int| 0 <= i < longer.len() implies (#[trigger] longer[i])
                    < marked.len() && marked[longer[i] as int] by {
                    if i < order.len() {
                        assert(flags[order[i] as int]);
                    }
                }
                assert forall|v: NetId| v < marked.len() && #[trigger] marked[v as int] implies
                longer.contains(v) by {
                    if v == net {
                        assert(longer[order.len() as int] == v);
                    } else {
                        assert(flags[v as int]);
                        let i = choose|i: int| 0 <= i < order.len() && order[i] == v;
                        assert(longer[i] == v);
                    }
                }
                assert forall|i: int| 0 <= i < start.len() && start[i] < marked.len() implies
                marked[(#[trigger] start[i]) as int] || more.contains(start[i]) by {
                    if start[i] != net && !flags[start[i] as int] {
                        assert(pending.contains(start[i]));
                    }
                }
                assert forall|v: NetId, k: int|
                    v < marked.len() && marked[v as int] && 0 <= k < next[v as int].len()
                        && next[v as int][k] < marked.len() implies marked[(
                #[trigger] next[v as int][k]) as int] || more.contains(next[v as int][k]) by {
                    let w = next[v as int][k];
                    if v == net {
                        assert(more[rest.len() + k] == w);
                    } else {
                        assert(flags[v as int]);
                        if !flags[w as int] && w != net {
                            assert(pending.contains(w));
                        }
                    }
                }
            }
            lemma_walk(next, start, more, marked, longer);
        }
    }
}

/// A walk reaches every net it starts from and every neighbour of a net it reaches.
pub proof fn law_walk_is_closed(next: Seq<Seq<NetId>>, start: Seq<NetId>)
    ensures
        forall|i: int|
            0 <= i < start.len() && start[i] < next.len() ==> reached(next, start).contains(
                #[trigger] start[i],
            ),
        forall|net: NetId, k: int|
            reached(next, start).contains(net) && net < next.len() && 0 <= k
                < next[net as int].len() && next[net as int][k] < next.len() ==> reached(
                next,
                start,
            ).contains(#[trigger] next[net as int][k]),
{
    let flags = Seq::new(next.len(), |i: int| false);
    assert(walk_is_sound(next, start, start, flags, seq![])) by {
        assert forall|i: int| 0 <= i < start.len() && start[i] < flags.len() implies flags[(
        #[trigger] start[i]) as int] || start.contains(start[i]) by {
            assert(start.contains(start[i]));
        }
    }
    lemma_walk(next, start, start, flags, seq![]);
}

/// Every net that a walk reaches is a net.
pub proof fn lemma_reached_below(next: Seq<Seq<NetId>>, start: Seq<NetId>)
    ensures
        all_below(reached(next, start), next.len() as int),
{
    let flags = Seq::new(next.len(), |i: int| false);
    assert(walk_is_sound(next, start, start, flags, seq![])) by {
        assert forall|i: int| 0 <= i < start.len() && start[i] < flags.len() implies flags[(
        #[trigger] start[i]) as int] || start.contains(start[i]) by {
            assert(start.contains(start[i]));
        }
    }
    lemma_walk(next, start, start, flags, seq![]);
}

/// The nets that a depth-first walk from `start` reaches, in the order it reaches them.
pub fn reach(next: &Vec<Vec<NetId>>, start: &Vec<NetId>) -> (order: Vec<NetId>)
    ensures
        order@ == reached(neighbour_lists(next@), start@),
        all_below(order@, next@.len() as int),
{
    let ghost lists = neighbour_lists(next@);
    let mut flags: Vec<bool> = Vec::new();
    for i in 0..next.len()
        invariant
            flags@.len() == i,
            forall|j: int| 0 <= j < i ==> !flags@[j],
    {
        flags.push(false);
    }
    assert(flags@ =~= Seq::new(lists.len(), |i: int| false));
    let mut pending: Vec<NetId> = Vec::new();
    extend_nets(&mut pending, start);
    assert(pending@ =~= start@);
    let mut order: Vec<NetId> = Vec::new();
    assert(order@ =~= Seq::<NetId>::empty());
    while pending.len() > 0
        invariant
            lists == neighbour_lists(next@),
            flags@.len() == next@.len(),
            reached(lists, start@) == walk(lists, pending@, flags@, order@),
        decreases unset(flags@), pending@.len(),
    {
        let ghost before = pending@;
        let net = pending[pending.len() - 1];
        pending.pop();
        assert(pending@ =~= before.drop_last());
        if (net as usize) < flags.len() && !flags[net as usize] {
            proof {
                lemma_unset(flags@, net as int);
            }
            flags.set(net as usize, true);
            extend_nets(&mut pending, &next[net as usize]);
            order.push(net);
        }
    }
    proof {
        lemma_reached_below(lists, start@);
    }
    order
}

/// One flag for each of `count` nets: whether it is among `nets`.
pub fn mark_nets(nets: &Vec<NetId>, count: usize) -> (flags: Vec<bool>)
    ensures
        flags@.len() == count,
        forall|i: int| 0 <= i < count && i <= u32::MAX ==> #[trigger] flags@[i] == nets@.contains(
            i as NetId,
        ),
{
    let mut flags: Vec<bool> = Vec::new();
    for i in 0..count
        invariant
            flags@.len() == i,
            forall|j: int| 0 <= j < i ==> !flags@[j],
    {
        flags.push(false);
    }
    for k in 0..nets.len()
        invariant
            flags@.len() == count,
            forall|i: int|
                0 <= i < count && i <= u32::MAX ==> #[trigger] flags@[i] == nets@.take(
                    k as int,
                ).contains(i as NetId),
    {
        let ghost before = flags@;
        let net = nets[k] as usize;
        if net < count {
            flags.set(net, true);
        }
        assert forall|i: int| 0 <= i < count && i <= u32::MAX implies #[trigger] flags@[i]
            == nets@.take(k + 1).contains(i as NetId) by {
            let id = i as NetId;
            if nets@.take(k + 1).contains(id) {
                let more = nets@.take(k + 1);
                let m = choose|m: int| 0 <= m < more.len() && more[m] == id;
                if m < k {
                    assert(nets@.take(k as int)[m] == id);
                    assert(before[i]);
                }
            }
            if before[i] {
                let fewer = nets@.take(k as int);
                let m = choose|m: int| 0 <= m < fewer.len() && fewer[m] == id;
                assert(nets@.take(k + 1)[m] == id);
            }
            if i == net {
                assert(nets@.take(k + 1)[k as int] == id);
            }
        }
    }
    assert(nets@.take(nets@.len() as int) =~= nets@);
    flags
}

} // verus!
