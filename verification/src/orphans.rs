//! Removing the bottles of a forest that nothing holds on to.
//!
//! A bottle is held by a root edge, or by an edge from a bottle that is
//! itself kept. Bottles that nothing holds are removed, with the edges that
//! leave them, until every bottle that is left is held.

use vstd::prelude::*;
use crate::bottle_set::{
    ids, index_of, keep_flagged, lemma_sorted_refs_distinct, sorted_refs, BottleId, BottleRef,
};
use crate::forest::{sorted_edges, edge_ids, keep_flagged_edges, Edge, EdgeId, Forest};
use crate::graph::{held, holding, holds_itself, lasting, links_within, prune, Link};

verus! {

/// `edge` holds `id` as long as the bottles of `group` are there.
pub open spec fn supports(edges: Set<EdgeId>, group: Set<BottleId>, edge: EdgeId, id: BottleId) -> bool {
    &&& edges.contains(edge)
    &&& edge.dependency == id
    &&& edge.dependent matches Some(parent) ==> group.contains(parent)
}

/// Some edge holds `id`: a root edge, or one from a bottle of `group`.
pub open spec fn supported(edges: Set<EdgeId>, group: Set<BottleId>, id: BottleId) -> bool {
    exists|edge: EdgeId| supports(edges, group, edge, id)
}

/// Each bottle of `group` is held by a root edge or from within the group.
pub open spec fn self_supporting(edges: Set<EdgeId>, group: Set<BottleId>) -> bool {
    forall|id: BottleId| group.contains(id) ==> supported(edges, group, id)
}

/// `group` is a set of bottles of the forest that holds itself and has
/// `id` in it.
pub open spec fn keeps(forest: Forest, group: Set<BottleId>, id: BottleId) -> bool {
    group.subset_of(forest.bottles) && self_supporting(forest.edges, group) && group.contains(id)
}

/// The bottles that are left when everything that nothing holds is gone:
/// those that belong to some set of bottles that holds itself.
pub open spec fn retained(forest: Forest) -> Set<BottleId> {
    Set::new(|id: BottleId| exists|group: Set<BottleId>| keeps(forest, group, id))
}

/// The edges whose ends are both among `bottles`.
pub open spec fn edges_among(edges: Set<EdgeId>, bottles: Set<BottleId>) -> Set<EdgeId> {
    Set::new(
        |edge: EdgeId|
            edges.contains(edge) && bottles.contains(edge.dependency) && (
            edge.dependent matches Some(parent) ==> bottles.contains(parent)),
    )
}

/// The forest without its orphans.
pub open spec fn pruned(forest: Forest) -> Forest {
    Forest {
        bottles: retained(forest),
        edges: edges_among(forest.edges, retained(forest)),
    }
}

/// Link `x` joins the positions of the bottles that edge `x` joins.
pub open spec fn link_matches(bottles: Seq<BottleRef>, edge: Edge, link: Link) -> bool {
    &&& link.target < bottles.len()
    &&& bottles[link.target as int]@ == edge@.dependency
    &&& match link.source {
        Some(s) => s < bottles.len() && edge@.dependent == Some(bottles[s as int]@),
        None => edge@.dependent is None,
    }
}

/// Every link joins the positions of the bottles that its edge joins.
pub open spec fn links_match(bottles: Seq<BottleRef>, edges: Seq<Edge>, links: Seq<Link>) -> bool {
    &&& links.len() == edges.len()
    &&& forall|x: int| 0 <= x < links.len() ==> link_matches(bottles, #[trigger] edges[x], links[x])
}

/// A bottle lasts in the graph of positions exactly when the forest
/// retains it.
proof fn lemma_lasting_is_retained(
    bottles: Seq<BottleRef>,
    all_edges: Set<EdgeId>,
    inner: Seq<Edge>,
    links: Seq<Link>,
    i: int,
)
    requires
        sorted_refs(bottles),
        links_match(bottles, inner, links),
        edge_ids(inner) == edges_among(all_edges, ids(bottles)),
        0 <= i < bottles.len(),
    ensures
        lasting(links, i) <==> retained(Forest { bottles: ids(bottles), edges: all_edges }).contains(
            bottles[i]@,
        ),
{
    let forest = Forest { bottles: ids(bottles), edges: all_edges };
    let n = bottles.len() as int;
    if lasting(links, i) {
        let positions = choose|group: Set<int>| holds_itself(links, group) && group.contains(i);
        let group = Set::new(
            |id: BottleId|
                exists|x: int| 0 <= x < n && positions.contains(x) && (#[trigger] bottles[x])@ == id,
        );
        assert forall|id: BottleId| group.contains(id) implies supported(all_edges, group, id) by {
            let x = choose|x: int|
                0 <= x < n && positions.contains(x) && (#[trigger] bottles[x])@ == id;
            assert(held(links, positions, x));
            let via = choose|via: int|
                0 <= via < links.len() && (#[trigger] links[via]).target == x && holding(
                    links,
                    positions,
                    via,
                );
            let edge = inner[via]@;
            assert(link_matches(bottles, inner[via], links[via]));
            assert(edge_ids(inner).contains(edge));
            match links[via].source {
                Some(s) => {
                    assert(positions.contains(s as int));
                    assert(0 <= s < n && positions.contains(s as int) && bottles[s as int]@
                        == bottles[s as int]@);
                    assert(group.contains(bottles[s as int]@));
                },
                None => {},
            }
            assert(supports(all_edges, group, edge, id));
        }
        assert(group.contains(bottles[i]@));
        assert forall|id: BottleId| group.contains(id) implies forest.bottles.contains(id) by {
            let x = choose|x: int|
                0 <= x < n && positions.contains(x) && (#[trigger] bottles[x])@ == id;
        }
        assert(keeps(forest, group, bottles[i]@));
    }
    if retained(forest).contains(bottles[i]@) {
        let group = choose|group: Set<BottleId>| keeps(forest, group, bottles[i]@);
        let positions = Set::new(|x: int| 0 <= x < n && group.contains(bottles[x]@));
        assert forall|x: int| positions.contains(x) implies held(links, positions, x) by {
            let id = bottles[x]@;
            assert(supported(all_edges, group, id));
            let edge = choose|edge: EdgeId| supports(all_edges, group, edge, id);
            assert(forest.bottles.contains(id));
            match edge.dependent {
                Some(parent) => {
                    assert(forest.bottles.contains(parent));
                },
                None => {},
            }
            assert(edges_among(all_edges, ids(bottles)).contains(edge));
            let via = choose|via: int| 0 <= via < inner.len() && (#[trigger] inner[via])@ == edge;
            assert(link_matches(bottles, inner[via], links[via]));
            lemma_sorted_refs_distinct(bottles, links[via].target as int, x);
            match links[via].source {
                Some(s) => {
                    assert(positions.contains(s as int));
                },
                None => {},
            }
            assert(links[via].target == x && holding(links, positions, via));
        }
        assert(holds_itself(links, positions) && positions.contains(i));
    }
}

/// The edges of the forest that join bottles of the forest, and for each
/// the positions of the bottles that it joins.
fn links_among(bottles: &Vec<BottleRef>, edges: &Vec<Edge>) -> (found: (Vec<Edge>, Vec<Link>))
    requires
        sorted_refs(bottles@),
        sorted_edges(edges@),
    ensures
        sorted_edges(found.0@),
        links_match(bottles@, found.0@, found.1@),
        links_within(found.1@, bottles@.len() as int),
        edge_ids(found.0@) == edges_among(edge_ids(edges@), ids(bottles@)),
{
    let mut inside: Vec<bool> = Vec::new();
    let mut ends: Vec<Link> = Vec::new();
    let mut j: usize = 0;
    while j < edges.len()
        invariant
            j <= edges@.len(),
            sorted_refs(bottles@),
            inside@.len() == j,
            ends@.len() == j,
            forall|x: int|
                0 <= x < j ==> (#[trigger] inside@[x] <==> edges_among(
                    edge_ids(edges@),
                    ids(bottles@),
                ).contains(edges@[x]@)),
            forall|x: int|
                0 <= x < j && #[trigger] inside@[x] ==> link_matches(bottles@, edges@[x], ends@[x]),
        decreases edges@.len() - j,
    {
        let edge = &edges[j];
        assert(edge_ids(edges@).contains(edges@[j as int]@));
        let target = index_of(bottles, &edge.dependency);
        let source = match &edge.dependent {
            Some(parent) => match index_of(bottles, parent) {
                Some(s) => Some(Some(s)),
                None => None,
            },
            None => Some(None),
        };
        match (target, source) {
            (Some(t), Some(s)) => {
                proof {
                    assert(ids(bottles@).contains(bottles@[t as int]@));
                    if let Some(at) = s {
                        assert(ids(bottles@).contains(bottles@[at as int]@));
                    }
                }
                inside.push(true);
                ends.push(Link { source: s, target: t });
            },
            _ => {
                inside.push(false);
                ends.push(Link { source: None, target: 0 });
            },
        }
        j += 1;
    }
    let (inner, from) = keep_flagged_edges(edges, &inside);
    let mut links: Vec<Link> = Vec::new();
    let mut x: usize = 0;
    while x < from.len()
        invariant
            x <= from@.len(),
            links@.len() == x,
            ends@.len() == edges@.len(),
            forall|y: int| 0 <= y < from@.len() ==> (#[trigger] from@[y]) < edges@.len(),
            forall|y: int| 0 <= y < x ==> #[trigger] links@[y] == ends@[from@[y] as int],
        decreases from@.len() - x,
    {
        let end = &ends[from[x]];
        links.push(Link { source: end.source, target: end.target });
        x += 1;
    }
    proof {
        let wanted = edges_among(edge_ids(edges@), ids(bottles@));
        assert forall|y: int| 0 <= y < links@.len() implies link_matches(
            bottles@,
            #[trigger] inner@[y],
            links@[y],
        ) by {
            assert(from@[y] < edges@.len());
            assert(inside@[from@[y] as int]);
            assert(links@[y] == ends@[from@[y] as int]);
        }
        assert forall|y: int| 0 <= y < links@.len() implies (#[trigger] links@[y]).target
            < bottles@.len() && (links@[y].source matches Some(s) ==> s < bottles@.len()) by {
            assert(link_matches(bottles@, inner@[y], links@[y]));
        }
        assert forall|id: EdgeId| edge_ids(inner@).contains(id) == wanted.contains(id) by {
            if edge_ids(inner@).contains(id) {
                let at = choose|at: int|
                    0 <= at < edges@.len() && inside@[at] && (#[trigger] edges@[at])@ == id;
                assert(wanted.contains(edges@[at]@));
            }
            if wanted.contains(id) {
                let at = choose|at: int| 0 <= at < edges@.len() && (#[trigger] edges@[at])@ == id;
                assert(inside@[at]);
            }
        }
        assert(edge_ids(inner@) =~= wanted);
    }
    (inner, links)
}

/// Removes the bottles that nothing holds on to, again and again until
/// every bottle that is left is held, and drops the edges that have lost an
/// end.
pub fn remove_orphans(bottles: &Vec<BottleRef>, edges: &Vec<Edge>) -> (kept: (
    Vec<BottleRef>,
    Vec<Edge>,
))
    requires
        sorted_refs(bottles@),
        sorted_edges(edges@),
    ensures
        sorted_refs(kept.0@),
        sorted_edges(kept.1@),
        (Forest { bottles: ids(kept.0@), edges: edge_ids(kept.1@) }) == pruned(
            Forest { bottles: ids(bottles@), edges: edge_ids(edges@) },
        ),
{
    let ghost forest = Forest { bottles: ids(bottles@), edges: edge_ids(edges@) };
    let (inner, links) = links_among(bottles, edges);
    let alive = prune(bottles.len(), &links);
    proof {
        assert forall|i: int| 0 <= i < bottles@.len() implies alive@[i] == retained(
            forest,
        ).contains(#[trigger] bottles@[i]@) by {
            lemma_lasting_is_retained(bottles@, edge_ids(edges@), inner@, links@, i);
        }
    }
    let rest = keep_flagged(bottles, &alive);
    let mut whole: Vec<bool> = Vec::new();
    let mut x: usize = 0;
    while x < links.len()
        invariant
            x <= links@.len(),
            whole@.len() == x,
            alive@.len() == bottles@.len(),
            links_match(bottles@, inner@, links@),
            forall|i: int|
                0 <= i < bottles@.len() ==> alive@[i] == retained(forest).contains(
                    #[trigger] bottles@[i]@,
                ),
            forall|y: int|
                0 <= y < x ==> (#[trigger] whole@[y] <==> retained(forest).contains(
                    inner@[y]@.dependency,
                ) && (inner@[y]@.dependent matches Some(parent) ==> retained(forest).contains(
                    parent,
                ))),
        decreases links@.len() - x,
    {
        let link = &links[x];
        assert(link_matches(bottles@, inner@[x as int], links@[x as int]));
        let from_kept = match link.source {
            Some(s) => alive[s],
            None => true,
        };
        whole.push(alive[link.target] && from_kept);
        x += 1;
    }
    let (left, _) = keep_flagged_edges(&inner, &whole);
    proof {
        let kept_bottles = retained(forest);
        assert forall|id: BottleId| ids(rest@).contains(id) == kept_bottles.contains(id) by {
            if ids(rest@).contains(id) {
                let i = choose|i: int|
                    0 <= i < bottles@.len() && alive@[i] && (#[trigger] bottles@[i])@ == id;
                assert(kept_bottles.contains(bottles@[i]@));
            }
            if kept_bottles.contains(id) {
                let group = choose|group: Set<BottleId>| keeps(forest, group, id);
                assert(forest.bottles.contains(id));
                let i = choose|i: int| 0 <= i < bottles@.len() && (#[trigger] bottles@[i])@ == id;
                assert(alive@[i]);
            }
        }
        assert(ids(rest@) =~= kept_bottles);
        let wanted = edges_among(forest.edges, kept_bottles);
        assert forall|id: EdgeId| edge_ids(left@).contains(id) == wanted.contains(id) by {
            if edge_ids(left@).contains(id) {
                let y = choose|y: int|
                    0 <= y < inner@.len() && whole@[y] && (#[trigger] inner@[y])@ == id;
                assert(edge_ids(inner@).contains(inner@[y]@));
            }
            if wanted.contains(id) {
                assert(kept_bottles.contains(id.dependency));
                let group = choose|group: Set<BottleId>| keeps(forest, group, id.dependency);
                assert(forest.bottles.contains(id.dependency));
                match id.dependent {
                    Some(parent) => {
                        let other = choose|other: Set<BottleId>| keeps(forest, other, parent);
                        assert(forest.bottles.contains(parent));
                    },
                    None => {},
                }
                assert(edges_among(forest.edges, forest.bottles).contains(id));
                let y = choose|y: int| 0 <= y < inner@.len() && (#[trigger] inner@[y])@ == id;
                assert(whole@[y]);
            }
        }
        assert(edge_ids(left@) =~= wanted);
    }
    (rest, left)
}

} // verus!
