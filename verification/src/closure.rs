//! Closing a forest over the dependencies of its current bottles.
//!
//! A bottle is current when it is the stable version of a formula of the
//! index. The dependencies of each current bottle join the forest, with an
//! edge from the bottle to each of them; those that had to be added are
//! current themselves, and so bring in their own dependencies in turn.

use vstd::prelude::*;
use crate::bottle_set::{
    first_named, has_name, ids, insert_ref, is_lowest_version, lemma_lowest_version_unique,
    lowest_version, sorted_refs, BottleId, BottleRef,
};
use crate::error::{Error, Failure};
use crate::forest::{
    current_id, current_ref, sorted_edges, edge_between, edge_ids, insert_edge, Edge, EdgeId,
};
use crate::formulae::{
    exact_position, lemma_exact_position_of_member, lemma_names_distinct, lemma_position_in_range,
    sorted_by_name, Formula, FormulaIndex,
};
use crate::text::same_str;

verus! {

/// The formula at `p` has its current bottle among `base`.
pub open spec fn is_current(index: Seq<Formula>, base: Set<BottleId>, p: int) -> bool {
    0 <= p < index.len() && base.contains(current_id(index[p]))
}

/// The `k`th dependency of the formula at `p`.
pub open spec fn dependency_name(index: Seq<Formula>, p: int, k: int) -> Seq<char> {
    index[p].dependencies@[k]@
}

/// The `k`th dependency of the formula at `p` is the formula at `q`, and no
/// bottle of `base` stands in for it.
pub open spec fn pulls_in(index: Seq<Formula>, base: Set<BottleId>, p: int, k: int, q: int) -> bool {
    &&& 0 <= p < index.len()
    &&& 0 <= k < index[p].dependencies@.len()
    &&& !has_name(base, dependency_name(index, p, k))
    &&& exact_position(index, dependency_name(index, p, k)) == Some(q)
}

/// Some dependency of the formula at `p` brings in the formula at `q`.
pub open spec fn requires_directly(index: Seq<Formula>, base: Set<BottleId>, p: int, q: int) -> bool {
    exists|k: int| pulls_in(index, base, p, k, q)
}

/// `chain` starts at a current bottle of `base` and goes on from each
/// formula to one that it brings in.
pub open spec fn is_chain(index: Seq<Formula>, base: Set<BottleId>, chain: Seq<int>) -> bool {
    &&& chain.len() > 0
    &&& is_current(index, base, chain[0])
    &&& forall|t: int|
        0 <= t < chain.len() - 1 ==> requires_directly(index, base, #[trigger] chain[t], chain[t + 1])
}

/// The formula at `p` is one whose dependencies the closure looks at: its
/// bottle is a current bottle of `base`, or is brought in by one.
pub open spec fn expanded(index: Seq<Formula>, base: Set<BottleId>, p: int) -> bool {
    exists|chain: Seq<int>| is_chain(index, base, chain) && #[trigger] chain.last() == p
}

/// The bottle that stands for a dependency called `name`: the bottle of the
/// lowest version that `base` has under that name, else the current bottle
/// of the formula of that name.
pub open spec fn resolved(index: Seq<Formula>, base: Set<BottleId>, name: Seq<char>) -> Option<
    BottleId,
> {
    if has_name(base, name) {
        Some(lowest_version(base, name))
    } else {
        match exact_position(index, name) {
            Some(q) => Some(current_id(index[q])),
            None => None,
        }
    }
}

/// The closure looks at a dependency called `name` and finds nothing to
/// stand for it.
pub open spec fn unresolved(index: Seq<Formula>, base: Set<BottleId>, name: Seq<char>) -> bool {
    exists|p: int, k: int|
        #![trigger dependency_name(index, p, k)]
        expanded(index, base, p) && 0 <= k < index[p].dependencies@.len() && dependency_name(
            index,
            p,
            k,
        ) == name && resolved(index, base, name) is None
}

/// `id` is a bottle that the closure adds to `base`.
pub open spec fn brought_in(index: Seq<Formula>, base: Set<BottleId>, id: BottleId) -> bool {
    exists|p: int| expanded(index, base, p) && #[trigger] current_id(index[p]) == id
}

/// `edge` is an edge that the closure draws: from an expanded formula's
/// bottle to what stands for one of its dependencies.
pub open spec fn drawn(index: Seq<Formula>, base: Set<BottleId>, edge: EdgeId) -> bool {
    exists|p: int, k: int|
        #![trigger dependency_name(index, p, k)]
        expanded(index, base, p) && 0 <= k < index[p].dependencies@.len() && resolved(
            index,
            base,
            dependency_name(index, p, k),
        ) == Some(edge.dependency) && edge.dependent == Some(current_id(index[p]))
}

/// The bottles of the closed forest.
pub open spec fn closed_bottles(index: Seq<Formula>, base: Set<BottleId>) -> Set<BottleId> {
    Set::new(|id: BottleId| base.contains(id) || brought_in(index, base, id))
}

/// The edges of the closed forest.
pub open spec fn closed_edges(index: Seq<Formula>, base: Set<BottleId>, edges: Set<EdgeId>) -> Set<
    EdgeId,
> {
    Set::new(|edge: EdgeId| edges.contains(edge) || drawn(index, base, edge))
}

/// The `k`th dependency of the formula at `p` is in place: its bottle is
/// among `bottles`, and the edge to it among `edges`.
pub open spec fn dependency_settled(
    index: Seq<Formula>,
    base: Set<BottleId>,
    bottles: Set<BottleId>,
    edges: Set<EdgeId>,
    p: int,
    k: int,
) -> bool {
    resolved(index, base, dependency_name(index, p, k)) matches Some(child) && bottles.contains(
        child,
    ) && edges.contains(edge_between(current_id(index[p]), child))
}

/// The leading `n` dependencies of the formula at `p` are in place.
pub open spec fn settled_upto(
    index: Seq<Formula>,
    base: Set<BottleId>,
    bottles: Set<BottleId>,
    edges: Set<EdgeId>,
    p: int,
    n: int,
) -> bool {
    forall|k: int| 0 <= k < n ==> #[trigger] dependency_settled(index, base, bottles, edges, p, k)
}

/// How many of the leading `n` formulae have no bottle among `bottles`.
pub open spec fn absent(index: Seq<Formula>, bottles: Set<BottleId>, n: nat) -> nat
    decreases n,
{
    if n == 0 {
        0
    } else {
        absent(index, bottles, (n - 1) as nat) + if has_name(bottles, index[n - 1].name@) {
            0nat
        } else {
            1nat
        }
    }
}

proof fn lemma_absent_shrinks(
    index: Seq<Formula>,
    fewer: Set<BottleId>,
    more: Set<BottleId>,
    n: nat,
)
    requires
        fewer.subset_of(more),
        n <= index.len(),
    ensures
        absent(index, more, n) <= absent(index, fewer, n),
        forall|q: int|
            0 <= q < n && !has_name(fewer, index[q].name@) && has_name(more, index[q].name@)
                ==> absent(index, more, n) < absent(index, fewer, n),
    decreases n,
{
    if n > 0 {
        lemma_absent_shrinks(index, fewer, more, (n - 1) as nat);
        let name = index[n - 1].name@;
        if has_name(fewer, name) {
            let id = choose|id: BottleId| fewer.contains(id) && id.name == name;
            assert(more.contains(id));
        }
    }
}

/// A chain goes on by anything that its last formula brings in.
pub proof fn lemma_chain_goes_on(index: Seq<Formula>, base: Set<BottleId>, p: int, k: int, q: int)
    requires
        expanded(index, base, p),
        pulls_in(index, base, p, k, q),
    ensures
        expanded(index, base, q),
{
    let chain = choose|chain: Seq<int>| is_chain(index, base, chain) && #[trigger] chain.last() == p;
    let longer = chain.push(q);
    assert forall|t: int| 0 <= t < longer.len() - 1 implies requires_directly(
        index,
        base,
        #[trigger] longer[t],
        longer[t + 1],
    ) by {
        if t < chain.len() - 1 {
            assert(requires_directly(index, base, chain[t], chain[t + 1]));
        } else {
            assert(longer[t] == p && longer[t + 1] == q);
        }
    }
    assert(is_chain(index, base, longer) && longer.last() == q);
}

/// A current bottle of the base is expanded.
pub proof fn lemma_current_is_expanded(index: Seq<Formula>, base: Set<BottleId>, p: int)
    requires
        is_current(index, base, p),
    ensures
        expanded(index, base, p),
{
    let chain = seq![p];
    assert(is_chain(index, base, chain) && chain.last() == p);
}

/// Positions along a chain lie within the index.
proof fn lemma_chain_in_range(index: Seq<Formula>, base: Set<BottleId>, chain: Seq<int>, t: int)
    requires
        is_chain(index, base, chain),
        0 <= t < chain.len(),
    ensures
        0 <= chain[t] < index.len(),
{
    if t > 0 {
        let p = chain[t - 1];
        let q = chain[t];
        assert(requires_directly(index, base, chain[t - 1], chain[t - 1 + 1]));
        let k = choose|k: int| pulls_in(index, base, p, k, q);
        lemma_position_in_range(index, dependency_name(index, p, k));
    }
}

/// A formula that the closure looks at is a formula of the index.
pub proof fn lemma_expanded_in_range(index: Seq<Formula>, base: Set<BottleId>, p: int)
    requires
        expanded(index, base, p),
    ensures
        0 <= p < index.len(),
{
    let chain = choose|chain: Seq<int>| is_chain(index, base, chain) && #[trigger] chain.last() == p;
    lemma_chain_in_range(index, base, chain, chain.len() - 1);
}

/// Once every formula whose bottle is in the forest has its dependencies in
/// place, the bottle of every formula along a chain is in the forest.
proof fn lemma_chain_is_covered(
    index: Seq<Formula>,
    base: Set<BottleId>,
    bottles: Set<BottleId>,
    edges: Set<EdgeId>,
    chain: Seq<int>,
    t: int,
)
    requires
        is_chain(index, base, chain),
        0 <= t < chain.len(),
        base.subset_of(bottles),
        forall|p: int|
            0 <= p < index.len() && bottles.contains(#[trigger] current_id(index[p]))
                ==> settled_upto(index, base, bottles, edges, p, index[p].dependencies@.len() as int),
    ensures
        bottles.contains(current_id(index[chain[t]])),
    decreases t,
{
    if t > 0 {
        lemma_chain_is_covered(index, base, bottles, edges, chain, t - 1);
        lemma_chain_in_range(index, base, chain, t - 1);
        let p = chain[t - 1];
        let q = chain[t];
        assert(requires_directly(index, base, chain[t - 1], chain[t - 1 + 1]));
        let k = choose|k: int| pulls_in(index, base, p, k, q);
        assert(bottles.contains(current_id(index[p])));
        assert(dependency_settled(index, base, bottles, edges, p, k));
    }
}


/// `p` waits on the stack.
pub open spec fn queued(stack: Seq<usize>, p: int) -> bool {
    exists|k: int| 0 <= k < stack.len() && #[trigger] stack[k] == p
}

/// A bottle of the forest that the base lacks was brought in under a name
/// that is new to the base.
pub open spec fn sound_bottles(index: Seq<Formula>, base: Set<BottleId>, bottles: Set<BottleId>) -> bool {
    forall|id: BottleId|
        #[trigger] bottles.contains(id) && !base.contains(id) ==> !has_name(base, id.name)
            && brought_in(index, base, id)
}

/// An edge of the forest that the base lacks was drawn by the closure.
pub open spec fn sound_edges(
    index: Seq<Formula>,
    base: Set<BottleId>,
    base_edges: Set<EdgeId>,
    edges: Set<EdgeId>,
) -> bool {
    forall|edge: EdgeId|
        #[trigger] edges.contains(edge) && !base_edges.contains(edge) ==> drawn(index, base, edge)
}

/// Each formula whose bottle is in the forest is done, waits on the stack,
/// or is the one being worked on.
pub open spec fn all_tracked(
    index: Seq<Formula>,
    bottles: Set<BottleId>,
    stack: Seq<usize>,
    done: Set<int>,
    busy: Option<int>,
) -> bool {
    forall|p: int|
        0 <= p < index.len() && bottles.contains(#[trigger] current_id(index[p])) ==> done.contains(
            p,
        ) || queued(stack, p) || busy == Some(p)
}

/// Each formula that is done has all its dependencies in place.
pub open spec fn all_settled(
    index: Seq<Formula>,
    base: Set<BottleId>,
    bottles: Set<BottleId>,
    edges: Set<EdgeId>,
    done: Set<int>,
) -> bool {
    forall|p: int| #[trigger]
        done.contains(p) ==> 0 <= p < index.len() && settled_upto(
            index,
            base,
            bottles,
            edges,
            p,
            index[p].dependencies@.len() as int,
        )
}

/// What holds of the forest while it is being closed.
pub open spec fn closing(
    index: Seq<Formula>,
    base: Set<BottleId>,
    base_edges: Set<EdgeId>,
    bottles: Set<BottleId>,
    edges: Set<EdgeId>,
    stack: Seq<usize>,
    done: Set<int>,
    busy: Option<int>,
) -> bool {
    &&& sorted_by_name(index)
    &&& base.subset_of(bottles)
    &&& base_edges.subset_of(edges)
    &&& sound_bottles(index, base, bottles)
    &&& sound_edges(index, base, base_edges, edges)
    &&& forall|k: int| 0 <= k < stack.len() ==> expanded(index, base, #[trigger] stack[k] as int)
    &&& all_tracked(index, bottles, stack, done, busy)
    &&& all_settled(index, base, bottles, edges, done)
}

proof fn lemma_settled_grows(
    index: Seq<Formula>,
    base: Set<BottleId>,
    bottles: Set<BottleId>,
    edges: Set<EdgeId>,
    more_bottles: Set<BottleId>,
    more_edges: Set<EdgeId>,
    p: int,
    n: int,
)
    requires
        settled_upto(index, base, bottles, edges, p, n),
        bottles.subset_of(more_bottles),
        edges.subset_of(more_edges),
    ensures
        settled_upto(index, base, more_bottles, more_edges, p, n),
{
    assert forall|k: int| 0 <= k < n implies #[trigger] dependency_settled(
        index,
        base,
        more_bottles,
        more_edges,
        p,
        k,
    ) by {
        assert(dependency_settled(index, base, bottles, edges, p, k));
    }
}

proof fn lemma_all_settled_grows(
    index: Seq<Formula>,
    base: Set<BottleId>,
    bottles: Set<BottleId>,
    edges: Set<EdgeId>,
    more_bottles: Set<BottleId>,
    more_edges: Set<EdgeId>,
    done: Set<int>,
)
    requires
        all_settled(index, base, bottles, edges, done),
        bottles.subset_of(more_bottles),
        edges.subset_of(more_edges),
    ensures
        all_settled(index, base, more_bottles, more_edges, done),
{
    assert forall|p: int| #[trigger] done.contains(p) implies 0 <= p < index.len() && settled_upto(
        index,
        base,
        more_bottles,
        more_edges,
        p,
        index[p].dependencies@.len() as int,
    ) by {
        lemma_settled_grows(
            index,
            base,
            bottles,
            edges,
            more_bottles,
            more_edges,
            p,
            index[p].dependencies@.len() as int,
        );
    }
}

/// With nothing left to work on, the forest is the closed forest.
proof fn lemma_closing_ends(
    index: Seq<Formula>,
    base: Set<BottleId>,
    base_edges: Set<EdgeId>,
    bottles: Set<BottleId>,
    edges: Set<EdgeId>,
    done: Set<int>,
)
    requires
        closing(index, base, base_edges, bottles, edges, Seq::<usize>::empty(), done, None),
    ensures
        bottles == closed_bottles(index, base),
        edges == closed_edges(index, base, base_edges),
        forall|name: Seq<char>| !unresolved(index, base, name),
{
    let stack = Seq::<usize>::empty();
    assert forall|p: int|
        0 <= p < index.len() && bottles.contains(
            #[trigger] current_id(index[p]),
        ) implies settled_upto(
        index,
        base,
        bottles,
        edges,
        p,
        index[p].dependencies@.len() as int,
    ) by {
        assert(!queued(stack, p));
        assert(done.contains(p));
    }
    assert forall|p: int| expanded(index, base, p) implies 0 <= p < index.len() && bottles.contains(
        current_id(index[p]),
    ) by {
        let chain = choose|chain: Seq<int>|
            is_chain(index, base, chain) && #[trigger] chain.last() == p;
        lemma_chain_is_covered(index, base, bottles, edges, chain, chain.len() - 1);
        lemma_expanded_in_range(index, base, p);
    }
    assert forall|id: BottleId| bottles.contains(id) == closed_bottles(index, base).contains(
        id,
    ) by {
        if brought_in(index, base, id) {
            let p = choose|p: int| expanded(index, base, p) && #[trigger] current_id(index[p]) == id;
            assert(bottles.contains(current_id(index[p])));
        }
    }
    assert(bottles =~= closed_bottles(index, base));
    assert forall|edge: EdgeId| edges.contains(edge) == closed_edges(
        index,
        base,
        base_edges,
    ).contains(edge) by {
        if drawn(index, base, edge) {
            let (p, k) = choose|p: int, k: int|
                #![trigger dependency_name(index, p, k)]
                expanded(index, base, p) && 0 <= k < index[p].dependencies@.len() && resolved(
                    index,
                    base,
                    dependency_name(index, p, k),
                ) == Some(edge.dependency) && edge.dependent == Some(current_id(index[p]));
            assert(bottles.contains(current_id(index[p])));
            assert(dependency_settled(index, base, bottles, edges, p, k));
            assert(edge == edge_between(current_id(index[p]), edge.dependency));
        }
    }
    assert(edges =~= closed_edges(index, base, base_edges));
    assert forall|name: Seq<char>| !unresolved(index, base, name) by {
        if unresolved(index, base, name) {
            let (p, k) = choose|p: int, k: int|
                #![trigger dependency_name(index, p, k)]
                expanded(index, base, p) && 0 <= k < index[p].dependencies@.len()
                    && dependency_name(index, p, k) == name && resolved(index, base, name) is None;
            assert(bottles.contains(current_id(index[p])));
            assert(dependency_settled(index, base, bottles, edges, p, k));
        }
    }
}


/// The positions of the formulae whose current bottle is in the list.
fn seed(index: &FormulaIndex, bottles: &Vec<BottleRef>) -> (stack: Vec<usize>)
    requires
        index.wf(),
        sorted_refs(bottles@),
    ensures
        forall|k: int|
            0 <= k < stack@.len() ==> is_current(index@, ids(bottles@), #[trigger] stack@[k] as int),
        forall|p: int| is_current(index@, ids(bottles@), p) ==> queued(stack@, p),
{
    let mut stack: Vec<usize> = Vec::new();
    let mut j: usize = 0;
    while j < bottles.len()
        invariant
            j <= bottles@.len(),
            index.wf(),
            forall|k: int|
                0 <= k < stack@.len() ==> is_current(
                    index@,
                    ids(bottles@),
                    #[trigger] stack@[k] as int,
                ),
            forall|i: int, p: int|
                0 <= i < j && 0 <= p < index@.len() && #[trigger] current_id(index@[p])
                    == (#[trigger] bottles@[i])@ ==> queued(stack@, p),
        decreases bottles@.len() - j,
    {
        let bottle = &bottles[j];
        let ghost before = stack@;
        let mut pushed = false;
        match index.position_exact(bottle.name.as_str()) {
            Some(p) => {
                if same_str(index.at(p).versions.stable.as_str(), bottle.version.as_str()) {
                    proof {
                        lemma_position_in_range(index@, bottle.name@);
                        assert(current_id(index@[p as int]) == bottles@[j as int]@);
                        assert(ids(bottles@).contains(bottles@[j as int]@));
                    }
                    stack.push(p);
                    proof {
                        assert(stack@[before.len() as int] == p);
                    }
                }
            },
            None => {},
        }
        proof {
            assert forall|i: int, p: int|
                0 <= i < j + 1 && 0 <= p < index@.len() && #[trigger] current_id(index@[p])
                    == (#[trigger] bottles@[i])@ implies queued(stack@, p) by {
                if i < j {
                    assert(queued(before, p));
                    let k = choose|k: int| 0 <= k < before.len() && #[trigger] before[k] == p;
                    assert(stack@[k] == p);
                } else {
                    lemma_exact_position_of_member(index@, p);
                    assert(index@[p].name@ == bottle.name@);
                    assert(stack@[before.len() as int] == p);
                }
            }
        }
        j += 1;
    }
    proof {
        assert forall|p: int| is_current(index@, ids(bottles@), p) implies queued(stack@, p) by {
            let id = current_id(index@[p]);
            let i = choose|i: int| 0 <= i < bottles@.len() && (#[trigger] bottles@[i])@ == id;
            assert(current_id(index@[p]) == bottles@[i]@);
        }
    }
    stack
}

/// Puts the dependencies of the formula at `p` in place: each gets an edge
/// from the formula's bottle, and those that no bottle stands for are added
/// and queued.
fn settle(
    index: &FormulaIndex,
    p: usize,
    bottles: &mut Vec<BottleRef>,
    edges: &mut Vec<Edge>,
    stack: &mut Vec<usize>,
    Ghost(base): Ghost<Set<BottleId>>,
    Ghost(base_edges): Ghost<Set<EdgeId>>,
    Ghost(done): Ghost<Set<int>>,
) -> (outcome: Result<(), Error>)
    requires
        index.wf(),
        p < index@.len(),
        sorted_refs(old(bottles)@),
        sorted_edges(old(edges)@),
        expanded(index@, base, p as int),
        closing(
            index@,
            base,
            base_edges,
            ids(old(bottles)@),
            edge_ids(old(edges)@),
            old(stack)@,
            done,
            Some(p as int),
        ),
    ensures
        sorted_refs(final(bottles)@),
        sorted_edges(final(edges)@),
        match outcome {
            Ok(()) => {
                &&& closing(
                    index@,
                    base,
                    base_edges,
                    ids(final(bottles)@),
                    edge_ids(final(edges)@),
                    final(stack)@,
                    done.insert(p as int),
                    None,
                )
                &&& absent(index@, ids(final(bottles)@), index@.len()) <= absent(
                    index@,
                    ids(old(bottles)@),
                    index@.len(),
                )
                &&& absent(index@, ids(final(bottles)@), index@.len()) == absent(
                    index@,
                    ids(old(bottles)@),
                    index@.len(),
                ) ==> final(stack)@ == old(stack)@
            },
            Err(e) => exists|name: Seq<char>|
                unresolved(index@, base, name) && e@ == Failure::UnknownFormula(name),
        },
{
    let formula = index.at(p);
    let ghost n = index@.len();
    let ghost start_bottles = ids(bottles@);
    let mut k: usize = 0;
    while k < formula.dependencies.len()
        invariant
            k <= formula.dependencies@.len(),
            index.wf(),
            p < index@.len(),
            n == index@.len(),
            *formula == index@[p as int],
            sorted_refs(bottles@),
            sorted_edges(edges@),
            expanded(index@, base, p as int),
            closing(
                index@,
                base,
                base_edges,
                ids(bottles@),
                edge_ids(edges@),
                stack@,
                done,
                Some(p as int),
            ),
            settled_upto(index@, base, ids(bottles@), edge_ids(edges@), p as int, k as int),
            start_bottles == ids(old(bottles)@),
            absent(index@, ids(bottles@), n) <= absent(index@, start_bottles, n),
            absent(index@, ids(bottles@), n) == absent(index@, start_bottles, n) ==> stack@ == old(
                stack,
            )@,
        decreases formula.dependencies@.len() - k,
    {
        let dependency = formula.dependencies[k].as_str();
        let ghost name = dependency_name(index@, p as int, k as int);
        let ghost had = ids(bottles@);
        let ghost had_edges = edge_ids(edges@);
        let ghost waiting = stack@;
        assert(dependency@ == name);
        proof {
            lemma_position_in_range(index@, name);
        }
        let child = match first_named(bottles, dependency) {
            Some(i) => {
                let child = bottles[i].clone();
                proof {
                    let found = child@;
                    assert(had.contains(bottles@[i as int]@));
                    if has_name(base, name) {
                        assert(base.contains(found)) by {
                            if !base.contains(found) {
                                assert(had.contains(found) && !base.contains(found));
                            }
                        }
                        assert(is_lowest_version(base, found)) by {
                            assert forall|other: BottleId|
                                base.contains(other) && other.name == found.name implies had.contains(
                                other,
                            ) by {}
                        }
                        lemma_lowest_version_unique(base, found);
                    } else {
                        assert(!base.contains(found));
                        assert(had.contains(found) && !base.contains(found));
                        let q = choose|q: int|
                            expanded(index@, base, q) && #[trigger] current_id(index@[q]) == found;
                        lemma_expanded_in_range(index@, base, q);
                        lemma_exact_position_of_member(index@, q);
                    }
                    assert(resolved(index@, base, name) == Some(found));
                }
                child
            },
            None => match index.position_exact(dependency) {
                Some(q) => {
                    let child = current_ref(index.at(q));
                    proof {
                        if has_name(base, name) {
                            let id = choose|id: BottleId| base.contains(id) && id.name == name;
                            assert(had.contains(id));
                        }
                        assert(pulls_in(index@, base, p as int, k as int, q as int));
                        lemma_chain_goes_on(index@, base, p as int, k as int, q as int);
                        assert(resolved(index@, base, name) == Some(child@));
                    }
                    insert_ref(bottles, child.clone());
                    stack.push(q);
                    proof {
                        let more = ids(bottles@);
                        assert(more == had.insert(child@));
                        assert(stack@[waiting.len() as int] == q);
                        assert(brought_in(index@, base, child@)) by {
                            assert(expanded(index@, base, q as int) && current_id(index@[q as int])
                                == child@);
                        }
                        assert(sound_bottles(index@, base, more));
                        lemma_all_settled_grows(
                            index@,
                            base,
                            had,
                            had_edges,
                            more,
                            had_edges,
                            done,
                        );
                        lemma_settled_grows(
                            index@,
                            base,
                            had,
                            had_edges,
                            more,
                            had_edges,
                            p as int,
                            k as int,
                        );
                        assert forall|x: int|
                            0 <= x < index@.len() && more.contains(
                                #[trigger] current_id(index@[x]),
                            ) implies done.contains(x) || queued(stack@, x) || Some(p as int)
                            == Some(x) by {
                            if current_id(index@[x]) == child@ {
                                lemma_names_distinct(index@, x, q as int);
                                assert(stack@[waiting.len() as int] == x);
                            } else {
                                assert(had.contains(current_id(index@[x])));
                                if queued(waiting, x) {
                                    let at = choose|at: int|
                                        0 <= at < waiting.len() && #[trigger] waiting[at] == x;
                                    assert(stack@[at] == x);
                                }
                            }
                        }
                        assert forall|at: int| 0 <= at < stack@.len() implies expanded(
                            index@,
                            base,
                            #[trigger] stack@[at] as int,
                        ) by {
                            if at < waiting.len() {
                                assert(stack@[at] == waiting[at]);
                            }
                        }
                        assert(has_name(more, index@[q as int].name@)) by {
                            assert(more.contains(child@) && child@.name == index@[q as int].name@);
                        }
                        lemma_absent_shrinks(index@, had, more, n);
                    }
                    child
                },
                None => {
                    proof {
                        if has_name(base, name) {
                            let id = choose|id: BottleId| base.contains(id) && id.name == name;
                            assert(had.contains(id));
                        }
                        assert(resolved(index@, base, name) is None);
                        assert(unresolved(index@, base, name));
                    }
                    return Err(Error::UnknownFormula(dependency.to_owned()));
                },
            },
        };
        let ghost mid_bottles = ids(bottles@);
        let edge = Edge { dependent: Some(current_ref(formula)), dependency: child };
        assert(edge@ == edge_between(current_id(index@[p as int]), child@));
        insert_edge(edges, edge);
        proof {
            let more_edges = edge_ids(edges@);
            assert(more_edges == had_edges.insert(edge@));
            assert(drawn(index@, base, edge@)) by {
                assert(expanded(index@, base, p as int) && 0 <= k < index@[p as int].dependencies@.len()
                    && resolved(index@, base, dependency_name(index@, p as int, k as int)) == Some(
                    edge@.dependency,
                ) && edge@.dependent == Some(current_id(index@[p as int])));
            }
            assert(sound_edges(index@, base, base_edges, more_edges));
            lemma_all_settled_grows(
                index@,
                base,
                mid_bottles,
                had_edges,
                mid_bottles,
                more_edges,
                done,
            );
            lemma_settled_grows(
                index@,
                base,
                mid_bottles,
                had_edges,
                mid_bottles,
                more_edges,
                p as int,
                k as int,
            );
            assert(mid_bottles.contains(child@));
            assert(dependency_settled(index@, base, mid_bottles, more_edges, p as int, k as int));
            assert forall|x: int| 0 <= x < k + 1 implies #[trigger] dependency_settled(
                index@,
                base,
                mid_bottles,
                more_edges,
                p as int,
                x,
            ) by {}
        }
        k += 1;
    }
    proof {
        let all_done = done.insert(p as int);
        let now = ids(bottles@);
        let now_edges = edge_ids(edges@);
        assert(all_settled(index@, base, now, now_edges, all_done));
        assert(all_tracked(index@, now, stack@, all_done, None));
    }
    Ok(())
}

/// Closes the forest over the dependencies of its current bottles.
///
/// For each formula that the closure looks at, every dependency gets an
/// edge from the formula's bottle to the bottle that stands for it: the one
/// of the lowest version that the forest had under that name, else the
/// current bottle of the formula of that name, which then joins the forest.
///
/// Fails with `UnknownFormula` when nothing stands for some dependency; the
/// error names such a dependency.
pub fn add_dependencies(
    index: &FormulaIndex,
    bottles: &mut Vec<BottleRef>,
    edges: &mut Vec<Edge>,
) -> (outcome: Result<(), Error>)
    requires
        index.wf(),
        sorted_refs(old(bottles)@),
        sorted_edges(old(edges)@),
    ensures
        sorted_refs(final(bottles)@),
        sorted_edges(final(edges)@),
        match outcome {
            Ok(()) => {
                &&& forall|name: Seq<char>| !unresolved(index@, ids(old(bottles)@), name)
                &&& ids(final(bottles)@) == closed_bottles(index@, ids(old(bottles)@))
                &&& edge_ids(final(edges)@) == closed_edges(
                    index@,
                    ids(old(bottles)@),
                    edge_ids(old(edges)@),
                )
            },
            Err(e) => exists|name: Seq<char>|
                unresolved(index@, ids(old(bottles)@), name) && e@ == Failure::UnknownFormula(name),
        },
{
    let ghost base = ids(bottles@);
    let ghost base_edges = edge_ids(edges@);
    let mut stack = seed(index, bottles);
    let ghost mut done: Set<int> = Set::empty();
    proof {
        assert forall|k: int| 0 <= k < stack@.len() implies expanded(
            index@,
            base,
            #[trigger] stack@[k] as int,
        ) by {
            lemma_current_is_expanded(index@, base, stack@[k] as int);
        }
        assert(all_tracked(index@, base, stack@, done, None)) by {
            assert forall|p: int|
                0 <= p < index@.len() && base.contains(
                    #[trigger] current_id(index@[p]),
                ) implies queued(stack@, p) by {
                assert(is_current(index@, base, p));
            }
        }
    }
    while stack.len() > 0
        invariant
            index.wf(),
            sorted_refs(bottles@),
            sorted_edges(edges@),
            base == ids(old(bottles)@),
            base_edges == edge_ids(old(edges)@),
            closing(index@, base, base_edges, ids(bottles@), edge_ids(edges@), stack@, done, None),
        decreases absent(index@, ids(bottles@), index@.len()), stack@.len(),
    {
        let ghost full = stack@;
        let p = stack.pop().unwrap();
        proof {
            assert(full[full.len() - 1] == p);
            lemma_expanded_in_range(index@, base, p as int);
            assert forall|x: int|
                0 <= x < index@.len() && ids(bottles@).contains(
                    #[trigger] current_id(index@[x]),
                ) implies done.contains(x) || queued(stack@, x) || Some(p as int) == Some(x) by {
                if queued(full, x) {
                    let at = choose|at: int| 0 <= at < full.len() && #[trigger] full[at] == x;
                    if at < full.len() - 1 {
                        assert(stack@[at] == x);
                    }
                }
            }
            assert forall|at: int| 0 <= at < stack@.len() implies expanded(
                index@,
                base,
                #[trigger] stack@[at] as int,
            ) by {
                assert(stack@[at] == full[at]);
            }
        }
        match settle(index, p, bottles, edges, &mut stack, Ghost(base), Ghost(base_edges), Ghost(done)) {
            Ok(()) => {},
            Err(e) => {
                return Err(e);
            },
        }
        proof {
            done = done.insert(p as int);
        }
    }
    proof {
        assert(stack@ =~= Seq::<usize>::empty());
        lemma_closing_ends(index@, base, base_edges, ids(bottles@), edge_ids(edges@), done);
    }
    Ok(())
}

} // verus!
