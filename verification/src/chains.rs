//! Carry chains and the forward retiming of whole chains.

use vstd::prelude::*;

use crate::cells::{Bit, CellModel, Ecp5Cell};
use crate::certify::{is_certifier, oracle, EdgeModel, RequestModel, RetimingEdge, RetimingRequest};
use crate::netlist::{
    cell_models, first_named, position_of_name, Ecp5Netlist, NetlistModel,
};
use crate::profile::{burden, mapped_lut_profile, profile_of, routing_burden};
use crate::retime_ccu::{forward_ccu_move, forward_retime_ccu2c};
use crate::retime_lut::netlist_model;
use crate::score::{
    adjusted_period, congestion_adjusted_overall, mapped_register_count, register_count,
    retiming_score, score_before, score_less, score_of,
};

verus! {

/// One carry primitive: its name, carry input and carry output.
pub struct ChainLink {
    /// Name of the primitive.
    pub name: String,
    /// Carry input.
    pub carry_in: Bit,
    /// Carry output.
    pub carry_out: u32,
}

/// What a [`ChainLink`] holds.
#[verifier::ext_equal]
pub struct LinkModel {
    pub name: Seq<char>,
    pub carry_in: Bit,
    pub carry_out: u32,
}

impl View for ChainLink {
    type V = LinkModel;

    open spec fn view(&self) -> LinkModel {
        LinkModel { name: self.name@, carry_in: self.carry_in, carry_out: self.carry_out }
    }
}

/// The models of a sequence of links.
pub open spec fn link_models(links: Seq<ChainLink>) -> Seq<LinkModel> {
    Seq::new(links.len(), |i: int| links[i]@)
}

/// The carry primitives among `cells`, in order.
pub open spec fn chain_links(cells: Seq<CellModel>) -> Seq<LinkModel>
    decreases cells.len(),
{
    if cells.len() == 0 {
        seq![]
    } else {
        let rest = chain_links(cells.drop_last());
        match cells.last() {
            CellModel::Ccu2c { name, carry_in, carry_out, .. } => rest.push(
                LinkModel { name, carry_in, carry_out },
            ),
            _ => rest,
        }
    }
}

/// The last link that drives `wire`.
pub open spec fn producer(links: Seq<LinkModel>, wire: u32) -> Option<int>
    decreases links.len(),
{
    if links.len() == 0 {
        None
    } else if links.last().carry_out == wire {
        Some(links.len() - 1)
    } else {
        producer(links.drop_last(), wire)
    }
}

/// The link that produces the carry input of `link`.
pub open spec fn upstream(links: Seq<LinkModel>, link: LinkModel) -> Option<int> {
    match link.carry_in {
        Bit::Wire(wire) => producer(links, wire),
        _ => None,
    }
}

/// The last of the first `count` links whose carry input comes from a link
/// named `name`.
pub open spec fn successor(links: Seq<LinkModel>, name: Seq<char>, count: int) -> Option<int>
    decreases count,
{
    if count <= 0 {
        None
    } else {
        match upstream(links, links[count - 1]) {
            Some(source) => if links[source].name == name {
                Some(count - 1)
            } else {
                successor(links, name, count - 1)
            },
            None => successor(links, name, count - 1),
        }
    }
}

/// How many of the first `count` links have a name outside `visited`.
pub open spec fn unvisited(
    links: Seq<LinkModel>,
    visited: Seq<Seq<char>>,
    count: int,
) -> nat
    decreases count,
{
    if count <= 0 {
        0
    } else {
        unvisited(links, visited, count - 1) + if visited.contains(links[count - 1].name) {
            0nat
        } else {
            1
        }
    }
}

proof fn lemma_unvisited_shrinks(
    links: Seq<LinkModel>,
    visited: Seq<Seq<char>>,
    at: int,
    count: int,
)
    requires
        0 <= at,
        count <= links.len(),
        at < links.len(),
        !visited.contains(links[at].name),
    ensures
        unvisited(links, visited.push(links[at].name), count) <= unvisited(links, visited, count),
        at < count ==> unvisited(links, visited.push(links[at].name), count) < unvisited(
            links,
            visited,
            count,
        ),
    decreases count,
{
    if count > 0 {
        lemma_unvisited_shrinks(links, visited, at, count - 1);
        let more = visited.push(links[at].name);
        let name = links[count - 1].name;
        if visited.contains(name) {
            let k = choose|k: int| 0 <= k < visited.len() && visited[k] == name;
            assert(more[k] == name);
        }
        assert(more[visited.len() as int] == links[at].name);
    }
}

/// The names met by following successors from the link at `cursor` until one
/// has been visited or there is none.
pub open spec fn chain_from(
    links: Seq<LinkModel>,
    cursor: Option<int>,
    visited: Seq<Seq<char>>,
) -> Seq<Seq<char>>
    decreases unvisited(links, visited, links.len() as int),
    via chain_from_terminates
{
    match cursor {
        Some(at) => if 0 <= at < links.len() && !visited.contains(links[at].name) {
            seq![links[at].name] + chain_from(
                links,
                successor(links, links[at].name, links.len() as int),
                visited.push(links[at].name),
            )
        } else {
            seq![]
        },
        None => seq![],
    }
}

#[via_fn]
proof fn chain_from_terminates(
    links: Seq<LinkModel>,
    cursor: Option<int>,
    visited: Seq<Seq<char>>,
) {
    if let Some(at) = cursor {
        if 0 <= at < links.len() && !visited.contains(links[at].name) {
            lemma_unvisited_shrinks(links, visited, at, links.len() as int);
        }
    }
}

/// Chains found so far and the names on them.
#[verifier::ext_equal]
pub struct ChainsModel {
    pub chains: Seq<Seq<Seq<char>>>,
    pub visited: Seq<Seq<char>>,
}

/// The chains that start at a link without a producer, among the first
/// `count` links.
pub open spec fn rooted_chains(links: Seq<LinkModel>, count: nat) -> ChainsModel
    decreases count,
{
    if count == 0 {
        ChainsModel { chains: seq![], visited: seq![] }
    } else {
        let last = (count - 1) as nat;
        let rest = rooted_chains(links, last);
        if upstream(links, links[last as int]) is None {
            let chain = chain_from(links, Some(last as int), rest.visited);
            if chain.len() == 0 {
                rest
            } else {
                ChainsModel { chains: rest.chains.push(chain), visited: rest.visited + chain }
            }
        } else {
            rest
        }
    }
}

/// `found` with a chain of its own for each of the first `count` links that
/// has not been visited.
pub open spec fn with_loose_links(
    links: Seq<LinkModel>,
    found: ChainsModel,
    count: nat,
) -> ChainsModel
    decreases count,
{
    if count == 0 {
        found
    } else {
        let last = (count - 1) as nat;
        let rest = with_loose_links(links, found, last);
        let name = links[last as int].name;
        if rest.visited.contains(name) {
            rest
        } else {
            ChainsModel {
                chains: rest.chains.push(seq![name]),
                visited: rest.visited.push(name),
            }
        }
    }
}

/// The names of the carry primitives, chain by chain: chains from their roots
/// first, then the primitives on no such chain.
pub open spec fn chains_of(cells: Seq<CellModel>) -> Seq<Seq<Seq<char>>> {
    let links = chain_links(cells);
    with_loose_links(links, rooted_chains(links, links.len()), links.len()).chains
}

/// The texts of a sequence of names.
pub open spec fn name_models(names: Seq<String>) -> Seq<Seq<char>> {
    Seq::new(names.len(), |i: int| names[i]@)
}

/// The texts of a sequence of chains.
pub open spec fn chain_models(chains: Seq<Vec<String>>) -> Seq<Seq<Seq<char>>> {
    Seq::new(chains.len(), |i: int| name_models(chains[i]@))
}

fn list_links(cells: &Vec<Ecp5Cell>) -> (links: Vec<ChainLink>)
    ensures
        link_models(links@) == chain_links(cell_models(cells@)),
{
    let ghost models = cell_models(cells@);
    let mut links: Vec<ChainLink> = Vec::new();
    assert(link_models(links@) =~= seq![]);
    for i in 0..cells.len()
        invariant
            models == cell_models(cells@),
            link_models(links@) == chain_links(models.take(i as int)),
    {
        assert(models.take(i + 1).drop_last() =~= models.take(i as int));
        if let Ecp5Cell::Ccu2c { name, carry_in, carry_out, .. } = &cells[i] {
            let ghost prior = link_models(links@);
            let link = ChainLink {
                name: name.clone(),
                carry_in: *carry_in,
                carry_out: *carry_out,
            };
            let ghost model = link@;
            links.push(link);
            assert(link_models(links@) =~= prior.push(model));
        }
    }
    assert(models.take(models.len() as int) =~= models);
    links
}

fn find_producer(links: &Vec<ChainLink>, wire: u32) -> (found: Option<usize>)
    ensures
        match found {
            Some(at) => producer(link_models(links@), wire) == Some(at as int) && at
                < links@.len(),
            None => producer(link_models(links@), wire) is None,
        },
{
    let ghost models = link_models(links@);
    let mut i: usize = links.len();
    assert(models.take(i as int) =~= models);
    while i > 0
        invariant
            i <= links@.len(),
            models == link_models(links@),
            producer(models, wire) == producer(models.take(i as int), wire),
        decreases i,
    {
        assert(models.take(i as int).drop_last() =~= models.take(i - 1));
        if links[i - 1].carry_out == wire {
            return Some(i - 1);
        }
        i -= 1;
    }
    None
}

fn find_upstream(links: &Vec<ChainLink>, at: usize) -> (found: Option<usize>)
    requires
        at < links@.len(),
    ensures
        match found {
            Some(source) => upstream(link_models(links@), links@[at as int]@) == Some(
                source as int,
            ) && source < links@.len(),
            None => upstream(link_models(links@), links@[at as int]@) is None,
        },
{
    match links[at].carry_in {
        Bit::Wire(wire) => find_producer(links, wire),
        _ => None,
    }
}

fn find_successor(links: &Vec<ChainLink>, name: &String) -> (found: Option<usize>)
    ensures
        match found {
            Some(at) => successor(link_models(links@), name@, links@.len() as int) == Some(
                at as int,
            ) && at < links@.len(),
            None => successor(link_models(links@), name@, links@.len() as int) is None,
        },
{
    let ghost models = link_models(links@);
    let mut i: usize = links.len();
    while i > 0
        invariant
            i <= links@.len(),
            models == link_models(links@),
            successor(models, name@, links@.len() as int) == successor(models, name@, i as int),
        decreases i,
    {
        assert(models[i - 1] == links@[i - 1]@);
        if let Some(source) = find_upstream(links, i - 1) {
            assert(models[source as int] == links@[source as int]@);
            if links[source].name == *name {
                return Some(i - 1);
            }
        }
        i -= 1;
    }
    None
}

fn holds_name(names: &Vec<String>, name: &String) -> (found: bool)
    ensures
        found == name_models(names@).contains(name@),
{
    let ghost models = name_models(names@);
    for i in 0..names.len()
        invariant
            models == name_models(names@),
            forall|j: int| 0 <= j < i ==> models[j] != name@,
    {
        assert(models[i as int] == names@[i as int]@);
        if names[i] == *name {
            return true;
        }
    }
    false
}

fn push_name(names: &mut Vec<String>, name: &String)
    ensures
        name_models(final(names)@) == name_models(old(names)@).push(name@),
{
    names.push(name.clone());
    assert(name_models(names@) =~= name_models(old(names)@).push(name@));
}

fn follow_chain(links: &Vec<ChainLink>, root: usize, visited: &mut Vec<String>) -> (chain: Vec<
    String,
>)
    requires
        root < links@.len(),
    ensures
        name_models(chain@) == chain_from(
            link_models(links@),
            Some(root as int),
            name_models(old(visited)@),
        ),
        name_models(final(visited)@) == name_models(old(visited)@) + name_models(chain@),
{
    let ghost models = link_models(links@);
    let ghost start = name_models(visited@);
    let ghost whole = chain_from(models, Some(root as int), start);
    let mut chain: Vec<String> = Vec::new();
    let mut cursor: Option<usize> = Some(root);
    assert(name_models(chain@) =~= seq![]);
    assert(start + name_models(chain@) =~= start);
    let ghost mut rest = whole;
    assert(whole =~= name_models(chain@) + rest);
    loop
        invariant
            models == link_models(links@),
            cursor matches Some(at) ==> at < links@.len(),
            name_models(visited@) == start + name_models(chain@),
            whole == name_models(chain@) + rest,
            rest == chain_from(
                models,
                match cursor {
                    Some(at) => Some(at as int),
                    None => None,
                },
                name_models(visited@),
            ),
        ensures
            whole == name_models(chain@),
            name_models(visited@) == start + name_models(chain@),
        decreases unvisited(models, name_models(visited@), models.len() as int),
    {
        match cursor {
            Some(at) => {
                assert(models[at as int] == links@[at as int]@);
                let name = &links[at].name;
                if holds_name(visited, name) {
                    assert(whole =~= name_models(chain@));
                    break ;
                }
                let ghost before = name_models(chain@);
                proof {
                    lemma_unvisited_shrinks(
                        models,
                        name_models(visited@),
                        at as int,
                        models.len() as int,
                    );
                }
                push_name(visited, name);
                push_name(&mut chain, name);
                cursor = find_successor(links, name);
                proof {
                    assert(start + before.push(name@) =~= (start + before).push(name@));
                    let tail = rest.skip(1);
                    assert(before + rest =~= before.push(name@) + tail);
                    assert(tail =~= chain_from(
                        models,
                        successor(models, name@, models.len() as int),
                        name_models(visited@),
                    ));
                    rest = tail;
                }
            },
            None => {
                assert(whole =~= name_models(chain@));
                break ;
            },
        }
    }
    chain
}

/// The names of the carry primitives, chain by chain.
pub fn ccu_chain_names(netlist: &Ecp5Netlist) -> (chains: Vec<Vec<String>>)
    ensures
        chain_models(chains@) == chains_of(netlist@.cells),
{
    let links = list_links(&netlist.cells);
    let ghost models = link_models(links@);
    let mut chains: Vec<Vec<String>> = Vec::new();
    let mut visited: Vec<String> = Vec::new();
    assert(chain_models(chains@) =~= seq![]);
    assert(name_models(visited@) =~= seq![]);
    for i in 0..links.len()
        invariant
            models == link_models(links@),
            chain_models(chains@) == rooted_chains(models, i as nat).chains,
            name_models(visited@) == rooted_chains(models, i as nat).visited,
    {
        assert(models[i as int] == links@[i as int]@);
        if find_upstream(&links, i).is_none() {
            let ghost prior = chain_models(chains@);
            let ghost seen = name_models(visited@);
            let chain = follow_chain(&links, i, &mut visited);
            if chain.len() > 0 {
                let ghost model = name_models(chain@);
                chains.push(chain);
                assert(chain_models(chains@) =~= prior.push(model));
            } else {
                assert(name_models(visited@) =~= seen);
            }
        }
    }
    let ghost found = rooted_chains(models, models.len());
    for i in 0..links.len()
        invariant
            models == link_models(links@),
            chain_models(chains@) == with_loose_links(models, found, i as nat).chains,
            name_models(visited@) == with_loose_links(models, found, i as nat).visited,
    {
        assert(models[i as int] == links@[i as int]@);
        let name = &links[i].name;
        if !holds_name(&visited, name) {
            let ghost prior = chain_models(chains@);
            push_name(&mut visited, name);
            let mut chain: Vec<String> = Vec::new();
            push_name(&mut chain, name);
            assert(name_models(chain@) =~= seq![name@]);
            chains.push(chain);
            assert(chain_models(chains@) =~= prior.push(seq![name@]));
        }
    }
    chains
}

/// The retiming score of a netlist, its period charged for routing growth over
/// `baseline`.
pub open spec fn netlist_score(netlist: NetlistModel, timing_driven: bool, baseline: u64) -> (
    u64,
    u64,
    u64,
    usize,
    usize,
    usize,
) {
    score_of(
        profile_of(netlist),
        timing_driven,
        netlist.cells.len() as usize,
        register_count(netlist.cells) as usize,
        charged_period(netlist, baseline),
    )
}

/// The overall period of a netlist, charged for routing growth over
/// `baseline`.
pub open spec fn charged_period(netlist: NetlistModel, baseline: u64) -> u32 {
    adjusted_period(profile_of(netlist).overall_period_ps, burden(netlist), baseline)
}

/// The retiming score of a netlist.
pub fn score_netlist(netlist: &Ecp5Netlist, timing_driven: bool, baseline: u64) -> (score: (
    u64,
    u64,
    u64,
    usize,
    usize,
    usize,
))
    ensures
        score == netlist_score(netlist@, timing_driven, baseline),
{
    let profile = mapped_lut_profile(netlist);
    let overall: u32 = congestion_adjusted_overall(
        profile.overall_period_ps,
        routing_burden(netlist),
        baseline,
    );
    retiming_score(
        &profile,
        timing_driven,
        netlist.cells.len(),
        mapped_register_count(netlist),
        overall,
    )
}

/// `netlist` with the registers in front of the first `count` primitives of
/// `chain` moved across them one after the other. Nothing where one cannot
/// move.
pub open spec fn moved_chain(
    netlist: NetlistModel,
    chain: Seq<Seq<char>>,
    count: nat,
    certificates: spec_fn(RequestModel) -> Option<Seq<EdgeModel>>,
) -> Option<NetlistModel>
    decreases count,
{
    if count == 0 {
        Some(netlist)
    } else {
        match moved_chain(netlist, chain, (count - 1) as nat, certificates) {
            Some(moved) => match first_named(moved.cells, chain[count - 1]) {
                Some(index) => forward_ccu_move(moved, index, certificates),
                None => None,
            },
            None => None,
        }
    }
}

proof fn lemma_chain_stays_none(
    netlist: NetlistModel,
    chain: Seq<Seq<char>>,
    count: nat,
    total: nat,
    certificates: spec_fn(RequestModel) -> Option<Seq<EdgeModel>>,
)
    requires
        moved_chain(netlist, chain, count, certificates) is None,
        count <= total,
    ensures
        moved_chain(netlist, chain, total, certificates) is None,
    decreases total - count,
{
    if count < total {
        lemma_chain_stays_none(netlist, chain, count, (total - 1) as nat, certificates);
    }
}

fn move_chain<C: Fn(&RetimingRequest) -> Option<Vec<RetimingEdge>>>(
    netlist: &Ecp5Netlist,
    chain: &Vec<String>,
    certify: &C,
) -> (moved: Option<Ecp5Netlist>)
    requires
        is_certifier(*certify),
    ensures
        netlist_model(moved) == moved_chain(
            netlist@,
            name_models(chain@),
            chain@.len(),
            oracle(*certify),
        ),
{
    let ghost names = name_models(chain@);
    let mut candidate = netlist.clone();
    for i in 0..chain.len()
        invariant
            is_certifier(*certify),
            names == name_models(chain@),
            Some(candidate@) == moved_chain(netlist@, names, i as nat, oracle(*certify)),
    {
        assert(names[i as int] == chain@[i as int]@);
        let next: Option<Ecp5Netlist> = match position_of_name(&candidate.cells, &chain[i]) {
            Some(index) => forward_retime_ccu2c(&candidate, index, certify),
            None => None,
        };
        match next {
            Some(moved) => {
                candidate = moved;
            },
            None => {
                proof {
                    lemma_chain_stays_none(
                        netlist@,
                        names,
                        (i + 1) as nat,
                        names.len(),
                        oracle(*certify),
                    );
                }
                return None;
            },
        }
    }
    Some(candidate)
}

/// Whether `candidate` scores before `incumbent` and before `best`, if there
/// is a best one.
pub open spec fn beats(
    candidate: NetlistModel,
    incumbent: NetlistModel,
    best: Option<NetlistModel>,
    timing_driven: bool,
    baseline: u64,
) -> bool {
    let score = netlist_score(candidate, timing_driven, baseline);
    &&& score_before(score, netlist_score(incumbent, timing_driven, baseline))
    &&& best matches Some(best) ==> score_before(
        score,
        netlist_score(best, timing_driven, baseline),
    )
}

/// The best of the first `count` chains to move, if moving one improves the
/// score.
pub open spec fn best_chain(
    netlist: NetlistModel,
    chains: Seq<Seq<Seq<char>>>,
    count: nat,
    timing_driven: bool,
    baseline: u64,
    certificates: spec_fn(RequestModel) -> Option<Seq<EdgeModel>>,
) -> Option<NetlistModel>
    decreases count,
{
    if count == 0 {
        None
    } else {
        let chain = chains[count - 1];
        let best = best_chain(
            netlist,
            chains,
            (count - 1) as nat,
            timing_driven,
            baseline,
            certificates,
        );
        match moved_chain(netlist, chain, chain.len(), certificates) {
            Some(moved) => if beats(moved, netlist, best, timing_driven, baseline) {
                Some(moved)
            } else {
                best
            },
            None => best,
        }
    }
}

/// `netlist` after at most `rounds` rounds, each of which moves the best
/// chain.
pub open spec fn forward_chains(
    netlist: NetlistModel,
    rounds: nat,
    timing_driven: bool,
    baseline: u64,
    certificates: spec_fn(RequestModel) -> Option<Seq<EdgeModel>>,
) -> NetlistModel
    decreases rounds,
{
    if rounds == 0 {
        netlist
    } else {
        let chains = chains_of(netlist.cells);
        match best_chain(netlist, chains, chains.len(), timing_driven, baseline, certificates) {
            Some(best) => forward_chains(
                best,
                (rounds - 1) as nat,
                timing_driven,
                baseline,
                certificates,
            ),
            None => netlist,
        }
    }
}

fn find_best_chain<C: Fn(&RetimingRequest) -> Option<Vec<RetimingEdge>>>(
    netlist: &Ecp5Netlist,
    timing_driven: bool,
    baseline: u64,
    certify: &C,
) -> (best: Option<Ecp5Netlist>)
    requires
        is_certifier(*certify),
    ensures
        netlist_model(best) == best_chain(
            netlist@,
            chains_of(netlist@.cells),
            chains_of(netlist@.cells).len(),
            timing_driven,
            baseline,
            oracle(*certify),
        ),
{
    let chains = ccu_chain_names(netlist);
    let ghost models = chain_models(chains@);
    let score = score_netlist(netlist, timing_driven, baseline);
    let mut best: Option<Ecp5Netlist> = None;
    let mut best_score: (u64, u64, u64, usize, usize, usize) = score;
    for i in 0..chains.len()
        invariant
            is_certifier(*certify),
            models == chain_models(chains@),
            score == netlist_score(netlist@, timing_driven, baseline),
            best matches Some(best) ==> best_score == netlist_score(
                best@,
                timing_driven,
                baseline,
            ),
            netlist_model(best) == best_chain(
                netlist@,
                models,
                i as nat,
                timing_driven,
                baseline,
                oracle(*certify),
            ),
    {
        assert(models[i as int] == name_models(chains@[i as int]@));
        if let Some(moved) = move_chain(netlist, &chains[i], certify) {
            let moved_score = score_netlist(&moved, timing_driven, baseline);
            if score_less(moved_score, score) && (best.is_none() || score_less(
                moved_score,
                best_score,
            )) {
                best_score = moved_score;
                best = Some(moved);
            }
        }
    }
    best
}

/// Moves whole carry chains forward while that improves the score.
pub fn forward_retime_registered_ccu_chains<
    C: Fn(&RetimingRequest) -> Option<Vec<RetimingEdge>>,
>(netlist: &Ecp5Netlist, timing_driven: bool, certify: &C) -> (selected: Ecp5Netlist)
    requires
        is_certifier(*certify),
    ensures
        selected@ == forward_chains(
            netlist@,
            netlist@.cells.len(),
            timing_driven,
            burden(netlist@),
            oracle(*certify),
        ),
{
    let baseline: u64 = routing_burden(netlist);
    let rounds: usize = netlist.cells.len();
    let mut selected = netlist.clone();
    let mut round: usize = 0;
    while round < rounds
        invariant
            round <= rounds,
            rounds == netlist@.cells.len(),
            baseline == burden(netlist@),
            is_certifier(*certify),
            forward_chains(
                netlist@,
                netlist@.cells.len(),
                timing_driven,
                burden(netlist@),
                oracle(*certify),
            ) == forward_chains(
                selected@,
                (rounds - round) as nat,
                timing_driven,
                baseline,
                oracle(*certify),
            ),
        decreases rounds - round,
    {
        match find_best_chain(&selected, timing_driven, baseline, certify) {
            Some(best) => {
                selected = best;
            },
            None => {
                return selected;
            },
        }
        round += 1;
    }
    selected
}

/// Whether `moved` is `netlist` with one whole chain of `chains` moved across.
pub open spec fn is_whole_move(
    netlist: NetlistModel,
    chains: Seq<Seq<Seq<char>>>,
    count: nat,
    moved: NetlistModel,
    certificates: spec_fn(RequestModel) -> Option<Seq<EdgeModel>>,
) -> bool {
    exists|i: int|
        0 <= i < count && moved_chain(
            netlist,
            #[trigger] chains[i],
            chains[i].len(),
            certificates,
        ) == Some(moved)
}

/// A chain is moved whole or not at all, and only where that scores better: no
/// half-moved chain is ever a candidate.
pub proof fn law_chains_move_whole(
    netlist: NetlistModel,
    chains: Seq<Seq<Seq<char>>>,
    count: nat,
    timing_driven: bool,
    baseline: u64,
    certificates: spec_fn(RequestModel) -> Option<Seq<EdgeModel>>,
)
    requires
        count <= chains.len(),
    ensures
        best_chain(netlist, chains, count, timing_driven, baseline, certificates) matches Some(
            moved,
        ) ==> is_whole_move(netlist, chains, count, moved, certificates) && score_before(
            netlist_score(moved, timing_driven, baseline),
            netlist_score(netlist, timing_driven, baseline),
        ),
    decreases count,
{
    if count > 0 {
        let last = (count - 1) as nat;
        law_chains_move_whole(netlist, chains, last, timing_driven, baseline, certificates);
        let chain = chains[last as int];
        if let Some(best) = best_chain(
            netlist,
            chains,
            last,
            timing_driven,
            baseline,
            certificates,
        ) {
            let i = choose|i: int|
                0 <= i < last && moved_chain(
                    netlist,
                    #[trigger] chains[i],
                    chains[i].len(),
                    certificates,
                ) == Some(best);
            assert(chains[i].len() >= 0);
        }
        assert(chain.len() >= 0);
    }
}

/// Moving chains forward never scores worse: the netlist stays, or the score
/// improves.
pub proof fn law_forward_chains_improve(
    netlist: NetlistModel,
    rounds: nat,
    timing_driven: bool,
    baseline: u64,
    certificates: spec_fn(RequestModel) -> Option<Seq<EdgeModel>>,
)
    ensures
        ({
            let moved = forward_chains(netlist, rounds, timing_driven, baseline, certificates);
            moved == netlist || score_before(
                netlist_score(moved, timing_driven, baseline),
                netlist_score(netlist, timing_driven, baseline),
            )
        }),
    decreases rounds,
{
    if rounds > 0 {
        let chains = chains_of(netlist.cells);
        law_chains_move_whole(
            netlist,
            chains,
            chains.len(),
            timing_driven,
            baseline,
            certificates,
        );
        if let Some(best) = best_chain(
            netlist,
            chains,
            chains.len(),
            timing_driven,
            baseline,
            certificates,
        ) {
            law_forward_chains_improve(
                best,
                (rounds - 1) as nat,
                timing_driven,
                baseline,
                certificates,
            );
        }
    }
}

} // verus!
