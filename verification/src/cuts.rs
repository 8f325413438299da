//! Feasible cuts of a Boolean netlist and the functions they compute.

use vstd::prelude::*;
use vstd::arithmetic::power2::*;

use crate::ir::constant_of;
use crate::ir::is_boolean;
use crate::ir::is_gate;
use crate::ir::node_is_valid;
use crate::ir::readable;
use crate::ir::readable_below;
use crate::ir::NetId;
use crate::ir::Netlist;
use crate::ir::Node;
use crate::ir::NodeKind;
use crate::ir::MAX_NODES;
use crate::wires::assignments;
use crate::wires::count_assignments;
use crate::wires::increasing;
use crate::wires::index_of_wire;
use crate::wires::insert_sorted;
use crate::wires::insert_wire;
use crate::wires::lemma_assignments;
use crate::wires::lemma_insert_wire;
use crate::wires::lemma_table_of_bound;
use crate::wires::table_of;
use crate::wires::wire_index;

verus! {

/// Inputs of one lookup table.
pub const LUT_INPUTS: usize = 4;

/// Inputs of the widest function that the dedicated muxes build.
pub const WIDE_LUT_INPUTS: usize = 7;

/// Cuts kept for one node.
pub const CUT_LIMIT: usize = 64;

/// Nets that together determine a node.
#[derive(Clone, Debug, Eq, PartialEq)]
pub struct Cut {
    /// The nets, in increasing order.
    pub leaves: Vec<NetId>,
}

/// The leaves of each cut.
pub open spec fn cut_leaves(cuts: Seq<Cut>) -> Seq<Seq<NetId>> {
    Seq::new(cuts.len(), |i: int| cuts[i].leaves@)
}

/// Whether every node reads the right number of earlier nets.
pub open spec fn nodes_are_valid(nodes: Seq<Node>) -> bool {
    nodes.len() <= MAX_NODES && forall|i: int|
        0 <= i < nodes.len() ==> #[trigger] node_is_valid(nodes, i)
}

/// `base` with the nets of `nets` that are no constants, in increasing order.
pub open spec fn gathered(nodes: Seq<Node>, base: Seq<NetId>, nets: Seq<NetId>) -> Seq<NetId>
    decreases nets.len(),
{
    if nets.len() == 0 {
        base
    } else {
        let rest = gathered(nodes, base, nets.drop_last());
        if constant_of(nodes, nets.last()) is Some {
            rest
        } else {
            insert_wire(rest, nets.last())
        }
    }
}

/// `nets` without `net`.
pub open spec fn without_net(nets: Seq<NetId>, net: NetId) -> Seq<NetId>
    decreases nets.len(),
{
    if nets.len() == 0 {
        seq![]
    } else if nets.last() == net {
        without_net(nets.drop_last(), net)
    } else {
        without_net(nets.drop_last(), net).push(nets.last())
    }
}

/// The cut that puts the inputs of `leaf` in its place.
pub open spec fn expanded(nodes: Seq<Node>, cut: Seq<NetId>, leaf: NetId) -> Seq<NetId> {
    gathered(nodes, without_net(cut, leaf), nodes[leaf as int].inputs@)
}

/// `cuts` with the expansion of `cut` at `leaf`, where that is a new cut of fitting size.
pub open spec fn with_expansion(
    nodes: Seq<Node>,
    max_inputs: nat,
    cuts: Seq<Seq<NetId>>,
    cut: Seq<NetId>,
    leaf: NetId,
) -> Seq<Seq<NetId>> {
    let grown = expanded(nodes, cut, leaf);
    if cuts.len() < CUT_LIMIT && is_gate(nodes[leaf as int].kind) && grown.len() <= max_inputs
        && !cuts.contains(grown) {
        cuts.push(grown)
    } else {
        cuts
    }
}

/// `cuts` with the expansions of `cut` at each of its first `count` leaves.
pub open spec fn with_expansions(
    nodes: Seq<Node>,
    max_inputs: nat,
    cuts: Seq<Seq<NetId>>,
    cut: Seq<NetId>,
    count: nat,
) -> Seq<Seq<NetId>>
    decreases count,
{
    if count == 0 {
        cuts
    } else {
        let last = (count - 1) as nat;
        with_expansion(
            nodes,
            max_inputs,
            with_expansions(nodes, max_inputs, cuts, cut, last),
            cut,
            cut[last as int],
        )
    }
}

/// `cuts` with the expansions of every cut from `cursor` on, breadth first, up to the limit.
pub open spec fn all_expansions(
    nodes: Seq<Node>,
    max_inputs: nat,
    cuts: Seq<Seq<NetId>>,
    cursor: nat,
) -> Seq<Seq<NetId>>
    decreases CUT_LIMIT - cursor,
{
    if cursor < cuts.len() && cuts.len() < CUT_LIMIT {
        let cut = cuts[cursor as int];
        all_expansions(
            nodes,
            max_inputs,
            with_expansions(nodes, max_inputs, cuts, cut, cut.len()),
            cursor + 1,
        )
    } else {
        cuts
    }
}

/// The cuts of node `root`: its inputs, and what expanding leaves makes of them.
pub open spec fn cuts_of(nodes: Seq<Node>, root: NetId, max_inputs: nat) -> Seq<Seq<NetId>> {
    all_expansions(
        nodes,
        max_inputs,
        seq![gathered(nodes, seq![], nodes[root as int].inputs@)],
        0,
    )
}

/// Whether `leaves` and constants determine the value of `net`.
pub open spec fn determined(nodes: Seq<Node>, net: NetId, leaves: Seq<NetId>) -> bool
    decreases net,
{
    let inputs = nodes[net as int].inputs@;
    leaves.contains(net) || nodes[net as int].kind is Constant || (is_gate(
        nodes[net as int].kind,
    ) && (inputs.len() > 0 ==> inputs[0] < net && determined(nodes, inputs[0], leaves)) && (
    inputs.len() > 1 ==> inputs[1] < net && determined(nodes, inputs[1], leaves)) && (inputs.len()
        > 2 ==> inputs[2] < net && determined(nodes, inputs[2], leaves)))
}

/// Whether `leaves` determine `root` where that is a gate.
pub open spec fn settles(nodes: Seq<Node>, root: int, leaves: Seq<NetId>) -> bool {
    is_gate(nodes[root].kind) ==> determined(nodes, root as NetId, leaves)
}

/// Whether `cut` is an increasing list of readable nets below `root`, no wider than
/// `max_inputs`, that determines `root` where that is a gate.
pub open spec fn cut_is_sound(
    nodes: Seq<Node>,
    root: int,
    max_inputs: nat,
    cut: Seq<NetId>,
) -> bool {
    increasing(cut) && readable_below(nodes, cut, root) && cut.len() <= max_inputs && settles(
        nodes,
        root,
        cut,
    )
}

/// What `leaves` determine, nets that determine `leaves` determine too.
pub proof fn lemma_determined_through(
    nodes: Seq<Node>,
    net: NetId,
    leaves: Seq<NetId>,
    others: Seq<NetId>,
)
    requires
        determined(nodes, net, leaves),
        forall|leaf: NetId| #[trigger]
            leaves.contains(leaf) ==> determined(nodes, leaf, others),
    ensures
        determined(nodes, net, others),
    decreases net,
{
    let inputs = nodes[net as int].inputs@;
    if !leaves.contains(net) && !(nodes[net as int].kind is Constant) {
        if inputs.len() > 0 {
            lemma_determined_through(nodes, inputs[0], leaves, others);
        }
        if inputs.len() > 1 {
            lemma_determined_through(nodes, inputs[1], leaves, others);
        }
        if inputs.len() > 2 {
            lemma_determined_through(nodes, inputs[2], leaves, others);
        }
    }
}

proof fn lemma_gathered(nodes: Seq<Node>, base: Seq<NetId>, nets: Seq<NetId>)
    requires
        increasing(base),
    ensures
        increasing(gathered(nodes, base, nets)),
        forall|net: NetId| #[trigger]
            base.contains(net) ==> gathered(nodes, base, nets).contains(net),
        forall|i: int|
            0 <= i < nets.len() ==> constant_of(nodes, #[trigger] nets[i]) is Some || gathered(
                nodes,
                base,
                nets,
            ).contains(nets[i]),
    decreases nets.len(),
{
    if nets.len() > 0 {
        let rest = gathered(nodes, base, nets.drop_last());
        lemma_gathered(nodes, base, nets.drop_last());
        lemma_insert_wire(rest, nets.last());
        assert forall|i: int| 0 <= i < nets.len() implies constant_of(nodes, #[trigger] nets[i])
            is Some || gathered(nodes, base, nets).contains(nets[i]) by {
            if i < nets.len() - 1 {
                assert(nets.drop_last()[i] == nets[i]);
            }
        }
    }
}

proof fn lemma_without_net(nets: Seq<NetId>, net: NetId, other: NetId)
    requires
        nets.contains(other),
        other != net,
    ensures
        without_net(nets, net).contains(other),
    decreases nets.len(),
{
    let rest = without_net(nets.drop_last(), net);
    if nets.last() == other {
        assert(rest.push(other)[rest.len() as int] == other);
    } else {
        let i = choose|i: int| 0 <= i < nets.len() && nets[i] == other;
        assert(nets.drop_last()[i] == other);
        lemma_without_net(nets.drop_last(), net, other);
        let k = choose|k: int| 0 <= k < rest.len() && rest[k] == other;
        assert(rest.push(nets.last())[k] == other);
    }
}

proof fn lemma_gate_determined(nodes: Seq<Node>, gate: NetId, leaves: Seq<NetId>)
    requires
        gate < nodes.len(),
        node_is_valid(nodes, gate as int),
        is_gate(nodes[gate as int].kind),
        forall|i: int|
            0 <= i < nodes[gate as int].inputs@.len() ==> constant_of(
                nodes,
                #[trigger] nodes[gate as int].inputs@[i],
            ) is Some || leaves.contains(nodes[gate as int].inputs@[i]),
    ensures
        determined(nodes, gate, leaves),
{
    let inputs = nodes[gate as int].inputs@;
    assert forall|i: int| 0 <= i < inputs.len() implies #[trigger] inputs[i] < gate && determined(
        nodes,
        inputs[i],
        leaves,
    ) by {
        assert(readable(nodes, inputs[i]));
    }
}

/// Expanding a leaf keeps what a cut determines.
proof fn lemma_expanded(nodes: Seq<Node>, root: NetId, cut: Seq<NetId>, leaf: NetId)
    requires
        nodes_are_valid(nodes),
        leaf < nodes.len(),
        is_gate(nodes[leaf as int].kind),
        increasing(without_net(cut, leaf)),
        determined(nodes, root, cut),
    ensures
        determined(nodes, root, expanded(nodes, cut, leaf)),
{
    let grown = expanded(nodes, cut, leaf);
    assert(node_is_valid(nodes, leaf as int));
    lemma_gathered(nodes, without_net(cut, leaf), nodes[leaf as int].inputs@);
    lemma_gate_determined(nodes, leaf, grown);
    assert forall|other: NetId| #[trigger] cut.contains(other) implies determined(
        nodes,
        other,
        grown,
    ) by {
        if other != leaf {
            lemma_without_net(cut, leaf, other);
        }
    }
    lemma_determined_through(nodes, root, cut, grown);
}

/// Whether each cut is sound for `root`.
pub open spec fn cuts_are_sound(
    nodes: Seq<Node>,
    root: int,
    max_inputs: nat,
    cuts: Seq<Seq<NetId>>,
) -> bool {
    forall|i: int|
        0 <= i < cuts.len() ==> cut_is_sound(nodes, root, max_inputs, #[trigger] cuts[i])
}

proof fn lemma_gathered_readable(
    nodes: Seq<Node>,
    base: Seq<NetId>,
    nets: Seq<NetId>,
    limit: int,
)
    requires
        increasing(base),
        readable_below(nodes, base, limit),
        readable_below(nodes, nets, limit),
    ensures
        readable_below(nodes, gathered(nodes, base, nets), limit),
        gathered(nodes, base, nets).len() <= base.len() + nets.len(),
    decreases nets.len(),
{
    if nets.len() > 0 {
        let rest = gathered(nodes, base, nets.drop_last());
        let out = gathered(nodes, base, nets);
        let last = nets[nets.len() - 1];
        assert(readable_below(nodes, nets.drop_last(), limit)) by {
            assert forall|i: int| 0 <= i < nets.drop_last().len() implies readable(
                nodes,
                #[trigger] nets.drop_last()[i],
            ) && nets.drop_last()[i] < limit by {
                assert(readable(nodes, nets[i]));
            }
        }
        assert(readable(nodes, nets[nets.len() - 1]));
        lemma_gathered_readable(nodes, base, nets.drop_last(), limit);
        lemma_gathered(nodes, base, nets.drop_last());
        lemma_insert_wire(rest, last);
        assert forall|i: int| 0 <= i < out.len() implies readable(nodes, #[trigger] out[i])
            && out[i] < limit by {
            assert(out.contains(out[i]));
            if out[i] != last || constant_of(nodes, last) is Some {
                let k = choose|k: int| 0 <= k < rest.len() && rest[k] == out[i];
                assert(readable(nodes, rest[k]));
            }
        }
    }
}

proof fn lemma_without_order(nets: Seq<NetId>, net: NetId)
    requires
        increasing(nets),
    ensures
        increasing(without_net(nets, net)),
        forall|i: int|
            0 <= i < without_net(nets, net).len() ==> nets.contains(
                #[trigger] without_net(nets, net)[i],
            ),
    decreases nets.len(),
{
    if nets.len() > 0 {
        let front = nets.drop_last();
        let rest = without_net(front, net);
        let out = without_net(nets, net);
        lemma_without_order(front, net);
        assert forall|i: int| 0 <= i < rest.len() implies #[trigger] rest[i] < nets.last()
            && nets.contains(rest[i]) by {
            assert(front.contains(rest[i]));
            let k = choose|k: int| 0 <= k < front.len() && front[k] == rest[i];
            assert(nets[k] == rest[i] && nets[k] < nets[nets.len() - 1]);
        }
        assert forall|i: int| 0 <= i < out.len() implies nets.contains(#[trigger] out[i]) by {
            if i < rest.len() {
                assert(out[i] == rest[i]);
            } else {
                assert(nets[nets.len() - 1] == out[i]);
            }
        }
    }
}

proof fn lemma_expansion_sound(
    nodes: Seq<Node>,
    root: int,
    max_inputs: nat,
    cut: Seq<NetId>,
    leaf: NetId,
)
    requires
        nodes_are_valid(nodes),
        0 <= root < nodes.len(),
        cut_is_sound(nodes, root, max_inputs, cut),
        cut.contains(leaf),
        is_gate(nodes[leaf as int].kind),
        expanded(nodes, cut, leaf).len() <= max_inputs,
    ensures
        cut_is_sound(nodes, root, max_inputs, expanded(nodes, cut, leaf)),
{
    let base = without_net(cut, leaf);
    let inputs = nodes[leaf as int].inputs@;
    let k = choose|k: int| 0 <= k < cut.len() && cut[k] == leaf;
    assert(readable(nodes, cut[k]));
    assert(node_is_valid(nodes, leaf as int));
    lemma_without_order(cut, leaf);
    assert forall|i: int| 0 <= i < base.len() implies readable(nodes, #[trigger] base[i]) && base[i]
        < root by {
        let m = choose|m: int| 0 <= m < cut.len() && cut[m] == base[i];
        assert(readable(nodes, cut[m]));
    }
    assert forall|i: int| 0 <= i < inputs.len() implies readable(nodes, #[trigger] inputs[i])
        && inputs[i] < root by {
        assert(readable(nodes, inputs[i]));
    }
    lemma_gathered(nodes, base, inputs);
    lemma_gathered_readable(nodes, base, inputs, root);
    if is_gate(nodes[root].kind) {
        lemma_expanded(nodes, root as NetId, cut, leaf);
    }
}

proof fn lemma_expansions_sound(
    nodes: Seq<Node>,
    root: int,
    max_inputs: nat,
    cuts: Seq<Seq<NetId>>,
    cut: Seq<NetId>,
    count: nat,
)
    requires
        nodes_are_valid(nodes),
        0 <= root < nodes.len(),
        cuts_are_sound(nodes, root, max_inputs, cuts),
        cut_is_sound(nodes, root, max_inputs, cut),
        count <= cut.len(),
    ensures
        cuts_are_sound(
            nodes,
            root,
            max_inputs,
            with_expansions(nodes, max_inputs, cuts, cut, count),
        ),
        with_expansions(nodes, max_inputs, cuts, cut, count).len() >= cuts.len(),
    decreases count,
{
    if count > 0 {
        let last = (count - 1) as nat;
        lemma_expansions_sound(nodes, root, max_inputs, cuts, cut, last);
        let rest = with_expansions(nodes, max_inputs, cuts, cut, last);
        let leaf = cut[last as int];
        let out = with_expansion(nodes, max_inputs, rest, cut, leaf);
        assert(cut.contains(leaf));
        assert forall|i: int| 0 <= i < out.len() implies cut_is_sound(
            nodes,
            root,
            max_inputs,
            #[trigger] out[i],
        ) by {
            if i < rest.len() {
                assert(out[i] == rest[i]);
            } else {
                lemma_expansion_sound(nodes, root, max_inputs, cut, leaf);
            }
        }
    }
}

proof fn lemma_all_expansions_sound(
    nodes: Seq<Node>,
    root: int,
    max_inputs: nat,
    cuts: Seq<Seq<NetId>>,
    cursor: nat,
)
    requires
        nodes_are_valid(nodes),
        0 <= root < nodes.len(),
        cuts_are_sound(nodes, root, max_inputs, cuts),
    ensures
        cuts_are_sound(
            nodes,
            root,
            max_inputs,
            all_expansions(nodes, max_inputs, cuts, cursor),
        ),
        all_expansions(nodes, max_inputs, cuts, cursor).len() >= cuts.len(),
    decreases CUT_LIMIT - cursor,
{
    if cursor < cuts.len() && cuts.len() < CUT_LIMIT {
        let cut = cuts[cursor as int];
        assert(cut_is_sound(nodes, root, max_inputs, cuts[cursor as int]));
        lemma_expansions_sound(nodes, root, max_inputs, cuts, cut, cut.len());
        lemma_all_expansions_sound(
            nodes,
            root,
            max_inputs,
            with_expansions(nodes, max_inputs, cuts, cut, cut.len()),
            cursor + 1,
        );
    }
}

/// Every cut of a node is sound: its leaves are readable, few enough, and
/// determine its value.
pub proof fn law_cuts_determine_their_root(nodes: Seq<Node>, root: NetId, max_inputs: nat)
    requires
        nodes_are_valid(nodes),
        root < nodes.len(),
        3 <= max_inputs,
    ensures
        cuts_are_sound(nodes, root as int, max_inputs, cuts_of(nodes, root, max_inputs)),
        cuts_of(nodes, root, max_inputs).len() >= 1,
{
    let none: Seq<NetId> = seq![];
    let inputs = nodes[root as int].inputs@;
    let first = gathered(nodes, none, inputs);
    assert(node_is_valid(nodes, root as int));
    lemma_gathered(nodes, none, inputs);
    lemma_gathered_readable(nodes, none, inputs, root as int);
    if is_gate(nodes[root as int].kind) {
        lemma_gate_determined(nodes, root, first);
    }
    let cuts = seq![first];
    assert(cuts_are_sound(nodes, root as int, max_inputs, cuts));
    lemma_all_expansions_sound(nodes, root as int, max_inputs, cuts, 0);
}

fn gather(nodes: &Vec<Node>, base: &mut Vec<NetId>, nets: &Vec<NetId>, Ghost(limit): Ghost<int>)
    requires
        increasing(old(base)@),
        readable_below(nodes@, old(base)@, limit),
        readable_below(nodes@, nets@, limit),
    ensures
        final(base)@ == gathered(nodes@, old(base)@, nets@),
        increasing(final(base)@),
        readable_below(nodes@, final(base)@, limit),
        final(base)@.len() <= old(base)@.len() + nets@.len(),
{
    let ghost start = base@;
    for i in 0..nets.len()
        invariant
            readable_below(nodes@, nets@, limit),
            base@ == gathered(nodes@, start, nets@.take(i as int)),
            increasing(base@),
            readable_below(nodes@, base@, limit),
            base@.len() <= start.len() + i,
    {
        assert(nets@.take(i + 1).drop_last() =~= nets@.take(i as int));
        let net = nets[i];
        assert(readable(nodes@, nets@[i as int]));
        let constant = matches!(nodes[net as usize].kind, NodeKind::Constant(_));
        if !constant {
            let ghost before = base@;
            proof {
                lemma_insert_wire(before, net);
            }
            insert_sorted(base, net);
            assert forall|j: int| 0 <= j < base@.len() implies readable(
                nodes@,
                #[trigger] base@[j],
            ) && base@[j] < limit by {
                assert(base@.contains(base@[j]));
                if base@[j] != net {
                    let k = choose|k: int| 0 <= k < before.len() && before[k] == base@[j];
                    assert(readable(nodes@, before[k]));
                }
            }
        }
    }
    assert(nets@.take(nets@.len() as int) =~= nets@);
}

fn remove_net(nets: &Vec<NetId>, net: NetId) -> (rest: Vec<NetId>)
    requires
        increasing(nets@),
    ensures
        rest@ == without_net(nets@, net),
        increasing(rest@),
        forall|i: int| 0 <= i < rest@.len() ==> nets@.contains(#[trigger] rest@[i]),
        rest@.len() <= nets@.len(),
{
    let mut rest: Vec<NetId> = Vec::new();
    for i in 0..nets.len()
        invariant
            increasing(nets@),
            rest@ == without_net(nets@.take(i as int), net),
            increasing(rest@),
            forall|j: int| 0 <= j < rest@.len() ==> nets@.contains(#[trigger] rest@[j]),
            forall|j: int| 0 <= j < rest@.len() && i < nets@.len() ==> rest@[j] < nets@[i as int],
            rest@.len() <= i,
    {
        assert(nets@.take(i + 1).drop_last() =~= nets@.take(i as int));
        assert(nets@.contains(nets@[i as int]));
        if nets[i] != net {
            rest.push(nets[i]);
        }
    }
    assert(nets@.take(nets@.len() as int) =~= nets@);
    rest
}

fn copy_nets(nets: &Vec<NetId>) -> (copy: Vec<NetId>)
    ensures
        copy@ == nets@,
{
    let mut copy: Vec<NetId> = Vec::new();
    for i in 0..nets.len()
        invariant
            copy@ == nets@.take(i as int),
    {
        copy.push(nets[i]);
        assert(copy@ =~= nets@.take(i + 1));
    }
    assert(nets@.take(nets@.len() as int) =~= nets@);
    copy
}

/// Whether two lists hold the same nets in the same order.
pub fn same_nets(first: &Vec<NetId>, second: &Vec<NetId>) -> (same: bool)
    ensures
        same == (first@ == second@),
{
    if first.len() != second.len() {
        return false;
    }
    for i in 0..first.len()
        invariant
            first@.len() == second@.len(),
            forall|j: int| 0 <= j < i ==> first@[j] == second@[j],
    {
        if first[i] != second[i] {
            return false;
        }
    }
    assert(first@ =~= second@);
    true
}

fn holds_cut(cuts: &Vec<Cut>, cut: &Vec<NetId>) -> (found: bool)
    ensures
        found == cut_leaves(cuts@).contains(cut@),
{
    for i in 0..cuts.len()
        invariant
            forall|j: int| 0 <= j < i ==> cut_leaves(cuts@)[j] != cut@,
    {
        if same_nets(&cuts[i].leaves, cut) {
            assert(cut_leaves(cuts@)[i as int] == cut@);
            return true;
        }
    }
    false
}

fn expand_at(
    nodes: &Vec<Node>,
    max_inputs: usize,
    cuts: &mut Vec<Cut>,
    cut: &Vec<NetId>,
    leaf: NetId,
    Ghost(root): Ghost<int>,
)
    requires
        nodes_are_valid(nodes@),
        0 <= root <= nodes@.len(),
        cuts_are_sound(nodes@, root, max_inputs as nat, cut_leaves(old(cuts)@)),
        cut_is_sound(nodes@, root, max_inputs as nat, cut@),
        cut@.contains(leaf),
        old(cuts)@.len() <= CUT_LIMIT,
    ensures
        cut_leaves(final(cuts)@) == with_expansion(
            nodes@,
            max_inputs as nat,
            cut_leaves(old(cuts)@),
            cut@,
            leaf,
        ),
        cuts_are_sound(nodes@, root, max_inputs as nat, cut_leaves(final(cuts)@)),
        old(cuts)@.len() <= final(cuts)@.len() <= CUT_LIMIT,
{
    let ghost before = cut_leaves(cuts@);
    proof {
        let k = choose|k: int| 0 <= k < cut@.len() && cut@[k] == leaf;
        assert(readable(nodes@, cut@[k]));
        assert(node_is_valid(nodes@, leaf as int));
    }
    if cuts.len() < CUT_LIMIT && is_boolean(nodes[leaf as usize].kind) {
        let mut grown = remove_net(cut, leaf);
        proof {
            if is_gate(nodes@[root].kind) {
                lemma_expanded(nodes@, root as NetId, cut@, leaf);
            }
            assert forall|j: int| 0 <= j < grown@.len() implies readable(
                nodes@,
                #[trigger] grown@[j],
            ) && grown@[j] < root by {
                let k = choose|k: int| 0 <= k < cut@.len() && cut@[k] == grown@[j];
                assert(readable(nodes@, cut@[k]));
            }
            assert forall|j: int| 0 <= j < nodes@[leaf as int].inputs@.len() implies readable(
                nodes@,
                #[trigger] nodes@[leaf as int].inputs@[j],
            ) && nodes@[leaf as int].inputs@[j] < root by {
                assert(readable(nodes@, nodes@[leaf as int].inputs@[j]));
            }
        }
        gather(nodes, &mut grown, &nodes[leaf as usize].inputs, Ghost(root));
        if grown.len() <= max_inputs && !holds_cut(cuts, &grown) {
            let ghost leaves = grown@;
            cuts.push(Cut { leaves: grown });
            assert(cut_leaves(cuts@) =~= before.push(leaves));
            assert forall|i: int| 0 <= i < cut_leaves(cuts@).len() implies cut_is_sound(
                nodes@,
                root,
                max_inputs as nat,
                #[trigger] cut_leaves(cuts@)[i],
            ) by {
                if i < before.len() {
                    assert(cut_is_sound(nodes@, root, max_inputs as nat, before[i]));
                }
            }
        }
    }
}

/// The cuts of node `root`, breadth first from its inputs, at most [`CUT_LIMIT`].
pub fn enumerate_cuts(nodes: &Vec<Node>, root: NetId, max_inputs: usize) -> (cuts: Vec<Cut>)
    requires
        nodes_are_valid(nodes@),
        root < nodes@.len(),
        3 <= max_inputs,
    ensures
        cut_leaves(cuts@) == cuts_of(nodes@, root, max_inputs as nat),
        cuts_are_sound(nodes@, root as int, max_inputs as nat, cut_leaves(cuts@)),
        cuts@.len() >= 1,
{
    assert(node_is_valid(nodes@, root as int));
    let mut first: Vec<NetId> = Vec::new();
    let ghost none: Seq<NetId> = seq![];
    assert(first@ =~= none);
    gather(nodes, &mut first, &nodes[root as usize].inputs, Ghost(root as int));
    let ghost leaves = first@;
    proof {
        if is_gate(nodes@[root as int].kind) {
            lemma_gathered(nodes@, none, nodes@[root as int].inputs@);
            lemma_gate_determined(nodes@, root, leaves);
        }
    }
    let mut cuts: Vec<Cut> = Vec::new();
    cuts.push(Cut { leaves: first });
    assert(cut_leaves(cuts@) =~= seq![leaves]);
    assert forall|i: int| 0 <= i < cut_leaves(cuts@).len() implies cut_is_sound(
        nodes@,
        root as int,
        max_inputs as nat,
        #[trigger] cut_leaves(cuts@)[i],
    ) by {
        assert(cut_leaves(cuts@)[i] == leaves);
    }
    let mut cursor: usize = 0;
    while cursor < cuts.len() && cuts.len() < CUT_LIMIT
        invariant
            nodes_are_valid(nodes@),
            root < nodes@.len(),
            cursor <= cuts@.len() <= CUT_LIMIT,
            cuts@.len() >= 1,
            cuts_are_sound(nodes@, root as int, max_inputs as nat, cut_leaves(cuts@)),
            cuts_of(nodes@, root, max_inputs as nat) == all_expansions(
                nodes@,
                max_inputs as nat,
                cut_leaves(cuts@),
                cursor as nat,
            ),
        decreases CUT_LIMIT - cursor,
    {
        let cut = copy_nets(&cuts[cursor].leaves);
        let ghost start = cut_leaves(cuts@);
        assert(cut_is_sound(nodes@, root as int, max_inputs as nat, start[cursor as int]));
        for i in 0..cut.len()
            invariant
                nodes_are_valid(nodes@),
                root < nodes@.len(),
                cursor < cuts@.len() <= CUT_LIMIT,
                cut_is_sound(nodes@, root as int, max_inputs as nat, cut@),
                cuts_are_sound(nodes@, root as int, max_inputs as nat, cut_leaves(cuts@)),
                cut_leaves(cuts@) == with_expansions(
                    nodes@,
                    max_inputs as nat,
                    start,
                    cut@,
                    i as nat,
                ),
        {
            assert(cut@.contains(cut@[i as int]));
            expand_at(nodes, max_inputs, &mut cuts, &cut, cut[i], Ghost(root as int));
        }
        cursor += 1;
    }
    cuts
}

/// The cuts of every node of a netlist.
pub struct CutDatabase {
    /// The cuts of each node; none for a node that is no gate.
    pub cuts: Vec<Vec<Cut>>,
}

/// The cuts of node `net`: none for a node that is no gate.
pub open spec fn node_cuts(nodes: Seq<Node>, net: int, max_inputs: nat) -> Seq<Seq<NetId>> {
    if is_gate(nodes[net].kind) {
        cuts_of(nodes, net as NetId, max_inputs)
    } else {
        seq![]
    }
}

impl CutDatabase {
    /// The cuts of each node.
    pub open spec fn model(self) -> Seq<Seq<Seq<NetId>>> {
        Seq::new(self.cuts@.len(), |i: int| cut_leaves(self.cuts@[i]@))
    }

    /// Whether the database holds sound cuts for every gate of `nodes`.
    pub open spec fn is_sound(self, nodes: Seq<Node>, max_inputs: nat) -> bool {
        &&& self.cuts@.len() == nodes.len()
        &&& forall|i: int|
            0 <= i < nodes.len() ==> cuts_are_sound(
                nodes,
                i,
                max_inputs,
                #[trigger] self.model()[i],
            )
        &&& forall|i: int|
            0 <= i < nodes.len() && is_gate(nodes[i].kind) ==> #[trigger] self.model()[i].len()
                >= 1
    }

    /// Enumerates the cuts of every gate.
    pub fn analyze(netlist: &Netlist, max_inputs: usize) -> (database: Self)
        requires
            nodes_are_valid(netlist.nodes@),
            LUT_INPUTS <= max_inputs <= WIDE_LUT_INPUTS,
        ensures
            database.model() == Seq::new(
                netlist.nodes@.len(),
                |i: int| node_cuts(netlist.nodes@, i, max_inputs as nat),
            ),
            database.is_sound(netlist.nodes@, max_inputs as nat),
    {
        let mut cuts: Vec<Vec<Cut>> = Vec::new();
        let nodes = &netlist.nodes;
        for i in 0..nodes.len()
            invariant
                nodes@ == netlist.nodes@,
                nodes_are_valid(nodes@),
                LUT_INPUTS <= max_inputs <= WIDE_LUT_INPUTS,
                cuts@.len() == i,
                forall|j: int|
                    0 <= j < i ==> cut_leaves(#[trigger] cuts@[j]@) == node_cuts(
                        nodes@,
                        j,
                        max_inputs as nat,
                    ),
                forall|j: int|
                    0 <= j < i ==> cuts_are_sound(
                        nodes@,
                        j,
                        max_inputs as nat,
                        cut_leaves(#[trigger] cuts@[j]@),
                    ),
                forall|j: int|
                    0 <= j < i && is_gate(nodes@[j].kind) ==> (#[trigger] cuts@[j]@).len() >= 1,
        {
            if is_boolean(nodes[i].kind) {
                cuts.push(enumerate_cuts(nodes, i as NetId, max_inputs));
            } else {
                let none: Vec<Cut> = Vec::new();
                assert(cut_leaves(none@) =~= seq![]);
                cuts.push(none);
            }
        }
        let database = CutDatabase { cuts };
        assert(database.model() =~= Seq::new(
            netlist.nodes@.len(),
            |i: int| node_cuts(netlist.nodes@, i, max_inputs as nat),
        ));
        assert forall|i: int| 0 <= i < nodes@.len() implies cuts_are_sound(
            nodes@,
            i,
            max_inputs as nat,
            #[trigger] database.model()[i],
        ) by {
            assert(cut_leaves(database.cuts@[i]@) == database.model()[i]);
        }
        assert forall|i: int| 0 <= i < nodes@.len() && is_gate(nodes@[i].kind) implies (
        #[trigger] database.model()[i]).len() >= 1 by {
            assert(database.cuts@[i]@.len() >= 1);
        }
        database
    }
}

/// What a gate makes of the values it reads.
pub open spec fn gate_value(kind: NodeKind, a: bool, b: bool, c: bool) -> bool {
    match kind {
        NodeKind::And => a && b,
        NodeKind::Or => a || b,
        NodeKind::Xor => a != b,
        NodeKind::Not => !a,
        NodeKind::Mux => if a {
            b
        } else {
            c
        },
        NodeKind::Constant(value) => value,
        _ => false,
    }
}

/// Bit `index` of an assignment of values to leaves.
pub open spec fn leaf_value(assignment: u128, index: int) -> bool {
    assignment & (1u128 << (index as u128)) != 0
}

/// The value of `net` under an assignment to `leaves`.
///
/// A net that no leaf or constant determines counts as zero.
pub open spec fn cone_value(
    nodes: Seq<Node>,
    net: NetId,
    leaves: Seq<NetId>,
    assignment: u128,
) -> bool
    decreases net,
{
    if leaves.contains(net) {
        leaf_value(assignment, wire_index(leaves, net))
    } else {
        let inputs = nodes[net as int].inputs@;
        let a = inputs.len() > 0 && inputs[0] < net && cone_value(
            nodes,
            inputs[0],
            leaves,
            assignment,
        );
        let b = inputs.len() > 1 && inputs[1] < net && cone_value(
            nodes,
            inputs[1],
            leaves,
            assignment,
        );
        let c = inputs.len() > 2 && inputs[2] < net && cone_value(
            nodes,
            inputs[2],
            leaves,
            assignment,
        );
        gate_value(nodes[net as int].kind, a, b, c)
    }
}

spec fn remembered(
    nodes: Seq<Node>,
    leaves: Seq<NetId>,
    assignment: u128,
    values: Seq<Option<bool>>,
) -> bool {
    values.len() == nodes.len() && forall|i: int|
        0 <= i < values.len() && #[trigger] values[i] is Some ==> values[i] == Some(
            cone_value(nodes, i as NetId, leaves, assignment),
        )
}

fn evaluate_input(
    nodes: &Vec<Node>,
    net: NetId,
    input: usize,
    leaves: &Vec<NetId>,
    assignment: u128,
    values: &mut Vec<Option<bool>>,
) -> (value: bool)
    requires
        nodes_are_valid(nodes@),
        net < nodes@.len(),
        leaves@.len() <= WIDE_LUT_INPUTS,
        remembered(nodes@, leaves@, assignment, old(values)@),
    ensures
        remembered(nodes@, leaves@, assignment, final(values)@),
        value == (nodes@[net as int].inputs@.len() > input && cone_value(
            nodes@,
            nodes@[net as int].inputs@[input as int],
            leaves@,
            assignment,
        )),
    decreases net, 0int,
{
    assert(node_is_valid(nodes@, net as int));
    if nodes[net as usize].inputs.len() > input {
        let source = nodes[net as usize].inputs[input];
        assert(readable(nodes@, nodes@[net as int].inputs@[input as int]));
        evaluate_cut(nodes, source, leaves, assignment, values)
    } else {
        false
    }
}

/// The value of `net` under an assignment to `leaves`, remembering each net's value in `values`.
fn evaluate_cut(
    nodes: &Vec<Node>,
    net: NetId,
    leaves: &Vec<NetId>,
    assignment: u128,
    values: &mut Vec<Option<bool>>,
) -> (value: bool)
    requires
        nodes_are_valid(nodes@),
        net < nodes@.len(),
        leaves@.len() <= WIDE_LUT_INPUTS,
        remembered(nodes@, leaves@, assignment, old(values)@),
    ensures
        remembered(nodes@, leaves@, assignment, final(values)@),
        value == cone_value(nodes@, net, leaves@, assignment),
    decreases net, 1int,
{
    let index = index_of_wire(leaves, net);
    if index < leaves.len() {
        assert(leaves@[index as int] == net);
        return assignment & (1u128 << (index as u128)) != 0;
    }
    if let Some(value) = values[net as usize] {
        return value;
    }
    proof {
        assert(node_is_valid(nodes@, net as int));
        assert forall|k: int| 0 <= k < nodes@[net as int].inputs@.len() implies #[trigger]
        nodes@[net as int].inputs@[k] < net by {
            assert(readable(nodes@, nodes@[net as int].inputs@[k]));
        }
    }
    let value = match nodes[net as usize].kind {
        NodeKind::Constant(value) => value,
        NodeKind::And => {
            let a = evaluate_input(nodes, net, 0, leaves, assignment, values);
            let b = evaluate_input(nodes, net, 1, leaves, assignment, values);
            a && b
        },
        NodeKind::Or => {
            let a = evaluate_input(nodes, net, 0, leaves, assignment, values);
            let b = evaluate_input(nodes, net, 1, leaves, assignment, values);
            a || b
        },
        NodeKind::Xor => {
            let a = evaluate_input(nodes, net, 0, leaves, assignment, values);
            let b = evaluate_input(nodes, net, 1, leaves, assignment, values);
            a != b
        },
        NodeKind::Not => !evaluate_input(nodes, net, 0, leaves, assignment, values),
        NodeKind::Mux => {
            if evaluate_input(nodes, net, 0, leaves, assignment, values) {
                evaluate_input(nodes, net, 1, leaves, assignment, values)
            } else {
                evaluate_input(nodes, net, 2, leaves, assignment, values)
            }
        },
        _ => false,
    };
    assert(value == cone_value(nodes@, net, leaves@, assignment));
    values.set(net as usize, Some(value));
    value
}

/// The truth table of `root` over `leaves`; leaf zero is the least-significant index bit.
pub open spec fn truth_table(nodes: Seq<Node>, root: NetId, leaves: Seq<NetId>) -> nat {
    table_of(
        |assignment: u64| cone_value(nodes, root, leaves, assignment as u128),
        assignments(leaves.len()),
    )
}

/// A set of inputs has two to their number assignments.
pub proof fn lemma_assignments_power(inputs: nat)
    ensures
        assignments(inputs) == pow2(inputs),
    decreases inputs,
{
    if inputs == 0 {
        lemma2_to64();
    } else {
        lemma_assignments_power((inputs - 1) as nat);
        lemma_pow2_unfold(inputs);
    }
}

/// Two to the 127 fits a `u128`, two to the 128 is one too many.
pub proof fn lemma_assignments_fit(inputs: nat)
    ensures
        inputs < 128 ==> assignments(inputs) <= 0x8000_0000_0000_0000_0000_0000_0000_0000,
        inputs <= 128 ==> assignments(inputs) <= 0x1_0000_0000_0000_0000_0000_0000_0000_0000,
{
    lemma_assignments_power(127);
    lemma_assignments_power(128);
    lemma_assignments_power(inputs);
    lemma2_to64_rest();
    lemma_pow2_adds(63, 64);
    lemma_pow2_adds(64, 64);
    if inputs < 127 {
        lemma_pow2_strictly_increases(inputs, 127);
    }
}

/// The truth table of `root` over `leaves`.
pub fn cut_truth_table(nodes: &Vec<Node>, root: NetId, leaves: &Vec<NetId>) -> (table: u128)
    requires
        nodes_are_valid(nodes@),
        root < nodes@.len(),
        leaves@.len() <= WIDE_LUT_INPUTS,
    ensures
        table == truth_table(nodes@, root, leaves@),
{
    let count = count_assignments(leaves.len());
    let ghost value = |assignment: u64| cone_value(nodes@, root, leaves@, assignment as u128);
    let mut table: u128 = 0;
    let mut weight: u128 = 1;
    let mut assignment: u64 = 0;
    while assignment < count
        invariant
            nodes_are_valid(nodes@),
            root < nodes@.len(),
            leaves@.len() <= WIDE_LUT_INPUTS,
            value == (|assignment: u64| cone_value(nodes@, root, leaves@, assignment as u128)),
            assignment <= count <= 128,
            assignment < count ==> weight == assignments(assignment as nat),
            table == table_of(value, assignment as nat),
        decreases count - assignment,
    {
        let mut values: Vec<Option<bool>> = Vec::new();
        for i in 0..nodes.len()
            invariant
                values@.len() == i,
                forall|j: int| 0 <= j < i ==> values@[j] is None,
        {
            values.push(None);
        }
        let holds = evaluate_cut(nodes, root, leaves, assignment as u128, &mut values);
        assert(holds == value(assignment));
        proof {
            lemma_table_of_bound(value, (assignment + 1) as nat);
            lemma_assignments_fit((assignment + 1) as nat);
            lemma_assignments_fit(assignment as nat);
        }
        if holds {
            table = table + weight;
        }
        if assignment + 1 < count {
            weight = weight * 2;
        }
        assignment = assignment + 1;
    }
    table
}

/// Bit `index` of a wide truth table.
pub open spec fn truth_bit(truth: u128, index: nat) -> bool {
    (truth >> (index as u128)) & 1u128 == 1u128
}

/// The sixteen-entry table that repeats a table over fewer inputs.
pub open spec fn lut4_table(truth: u128, inputs: nat) -> nat {
    table_of(
        |assignment: u64| truth_bit(truth, assignment as nat % assignments(inputs)),
        16,
    )
}

/// The sixteen-entry table that repeats a table over fewer inputs.
pub fn lut4_init(truth: u128, inputs: usize) -> (init: u16)
    requires
        inputs <= LUT_INPUTS,
    ensures
        init == lut4_table(truth, inputs as nat),
{
    let count = count_assignments(inputs);
    proof {
        lemma_assignments(inputs as nat);
    }
    let ghost value = |assignment: u64|
        truth_bit(truth, assignment as nat % assignments(inputs as nat));
    let mut init: u16 = 0;
    let mut weight: u16 = 1;
    let mut assignment: u64 = 0;
    proof {
        reveal_with_fuel(assignments, 17);
    }
    while assignment < 16
        invariant
            inputs <= LUT_INPUTS,
            count == assignments(inputs as nat),
            1 <= count <= 64,
            value == (|assignment: u64|
                truth_bit(truth, assignment as nat % assignments(inputs as nat))),
            assignment <= 16,
            assignment < 16 ==> weight == assignments(assignment as nat),
            init == table_of(value, assignment as nat),
        decreases 16 - assignment,
    {
        let index = assignment % count;
        let holds = (truth >> (index as u128)) & 1u128 == 1u128;
        assert(holds == value(assignment));
        proof {
            reveal_with_fuel(assignments, 17);
            lemma_table_of_bound(value, (assignment + 1) as nat);
            lemma_table_of_bound(value, assignment as nat);
        }
        if holds {
            init = init + weight;
        }
        if assignment < 15 {
            weight = weight * 2;
        }
        assignment = assignment + 1;
    }
    init
}

} // verus!
