//! What holds of planning as a whole.

use vstd::prelude::*;
use crate::action_builder::{
    closure_fails, dependency_edge, lemma_find_row, row_position, target_forest,
};
use crate::bottle_set::{
    has_name, is_lowest_version, lemma_lowest_version_unique, without_name, BottleId,
};
use crate::closure::{
    brought_in, closed_bottles, closed_edges, dependency_name, drawn, expanded, is_chain,
    is_current, lemma_chain_goes_on, lemma_current_is_expanded, lemma_expanded_in_range, pulls_in,
    requires_directly, resolved, unresolved,
};
use crate::db::models::{Dependency, DownloadedBottle};
use crate::error::Failure;
use crate::executor::{dependency_for, has_rows, lemma_find_row_of, row_of};
use crate::forest::{
    add_all, add_one, current_id, edge_between, is_root, is_updated_root, remove_each, root_edge,
    updated, updated_position, Edge, EdgeId, Forest,
};
use crate::formulae::{
    exact_position, lemma_exact_position_of_member, lemma_names_distinct, lemma_position_in_range,
    position, sorted_by_name, Formula,
};
use crate::orphans::{edges_among, keeps, pruned, retained, self_supporting, supported, supports};

verus! {

/// Asking for a name adds at most a bottle of its formula, and leaves all
/// other bottles where they are.
pub proof fn lemma_add_one_grows(index: Seq<Formula>, forest: Forest, name: Seq<char>)
    requires
        add_one(index, forest, name) is Ok,
    ensures
        forest.bottles.subset_of(add_one(index, forest, name)->Ok_0.bottles),
        forest.edges.subset_of(add_one(index, forest, name)->Ok_0.edges),
        position(index, name) matches Some(p) && has_name(
            add_one(index, forest, name)->Ok_0.bottles,
            index[p].name@,
        ),
{
    let p = position(index, name)->0;
    let id = current_id(index[p]);
    if !has_name(forest.bottles, id.name) {
        assert(forest.bottles.insert(id).contains(id) && id.name == index[p].name@);
    }
}

/// A name whose formula has a bottle in the forest changes nothing.
pub proof fn lemma_add_one_present(index: Seq<Formula>, forest: Forest, name: Seq<char>)
    requires
        position(index, name) matches Some(p) && has_name(forest.bottles, index[p].name@),
    ensures
        add_one(index, forest, name) == Ok::<Forest, Failure>(forest),
{
}

/// Names whose formulae all have a bottle in the forest change nothing.
proof fn lemma_add_all_present(index: Seq<Formula>, forest: Forest, names: Seq<String>)
    requires
        forall|i: int|
            0 <= i < names.len() ==> (position(index, (#[trigger] names[i])@) matches Some(p)
                && has_name(forest.bottles, index[p].name@)),
    ensures
        add_all(index, forest, names) == Ok::<Forest, Failure>(forest),
    decreases names.len(),
{
    if names.len() > 0 {
        let front = names.drop_last();
        assert forall|i: int| 0 <= i < front.len() implies (position(
            index,
            (#[trigger] front[i])@,
        ) matches Some(p) && has_name(forest.bottles, index[p].name@)) by {
            assert(front[i] == names[i]);
        }
        lemma_add_all_present(index, forest, front);
        assert(names.last() == names[names.len() - 1]);
        lemma_add_one_present(index, forest, names.last()@);
    }
}

/// After the names were asked for, the formula of each has a bottle in the
/// forest.
proof fn lemma_add_all_covers(index: Seq<Formula>, forest: Forest, names: Seq<String>)
    requires
        add_all(index, forest, names) is Ok,
    ensures
        forest.bottles.subset_of(add_all(index, forest, names)->Ok_0.bottles),
        forall|i: int|
            0 <= i < names.len() ==> (position(index, (#[trigger] names[i])@) matches Some(p)
                && has_name(add_all(index, forest, names)->Ok_0.bottles, index[p].name@)),
    decreases names.len(),
{
    if names.len() > 0 {
        let front = names.drop_last();
        let before = add_all(index, forest, front)->Ok_0;
        let after = add_all(index, forest, names)->Ok_0;
        lemma_add_all_covers(index, forest, front);
        lemma_add_one_grows(index, before, names.last()@);
        assert forall|i: int| 0 <= i < names.len() implies (position(
            index,
            (#[trigger] names[i])@,
        ) matches Some(p) && has_name(after.bottles, index[p].name@)) by {
            if i < names.len() - 1 {
                assert(front[i] == names[i]);
                let p = position(index, names[i]@)->0;
                let held = choose|id: BottleId| before.bottles.contains(id) && id.name == index[p].name@;
                assert(after.bottles.contains(held));
            }
        }
    }
}

/// Asking for the same names twice comes to the same as asking once.
pub proof fn lemma_add_twice(index: Seq<Formula>, forest: Forest, names: Seq<String>)
    requires
        add_all(index, forest, names) is Ok,
    ensures
        add_all(index, add_all(index, forest, names)->Ok_0, names) == add_all(index, forest, names),
{
    lemma_add_all_covers(index, forest, names);
    lemma_add_all_present(index, add_all(index, forest, names)->Ok_0, names);
}

/// Removing the bottles of a formula that the index knows and that has no
/// bottle in the forest fails as `NotInstalled`, and names the formula.
pub proof fn lemma_remove_not_installed(index: Seq<Formula>, forest: Forest, alias: String)
    requires
        position(index, alias@) matches Some(p) && !has_name(forest.bottles, index[p].name@),
    ensures
        remove_each(index, forest, seq![alias]) == Err::<Forest, Failure>(
            Failure::NotInstalled(index[position(index, alias@)->0].name@),
        ),
{
    let aliases = seq![alias];
    assert(aliases.drop_last() =~= Seq::<String>::empty());
    assert(aliases.last() == alias);
    assert(remove_each(index, forest, aliases.drop_last()) == Ok::<Forest, Failure>(forest));
}

/// In a forest that is rid of its orphans, each edge joins bottles of the
/// forest, and each bottle is held: by a root edge, or by an edge from a
/// bottle of the forest.
pub proof fn lemma_pruned_is_whole(forest: Forest)
    ensures
        pruned(forest).bottles.subset_of(forest.bottles),
        pruned(forest).edges.subset_of(forest.edges),
        forall|edge: EdgeId| #[trigger]
            pruned(forest).edges.contains(edge) ==> pruned(forest).bottles.contains(edge.dependency)
                && (edge.dependent matches Some(parent) ==> pruned(forest).bottles.contains(parent)),
        forall|id: BottleId| #[trigger]
            pruned(forest).bottles.contains(id) ==> supported(
                pruned(forest).edges,
                pruned(forest).bottles,
                id,
            ),
{
    let kept = retained(forest);
    assert forall|id: BottleId| kept.contains(id) implies forest.bottles.contains(id) by {
        let group = choose|group: Set<BottleId>| keeps(forest, group, id);
        assert(group.contains(id));
    }
    assert forall|id: BottleId| #[trigger] kept.contains(id) implies supported(
        pruned(forest).edges,
        kept,
        id,
    ) by {
        let group = choose|group: Set<BottleId>| keeps(forest, group, id);
        assert(supported(forest.edges, group, id));
        let edge = choose|edge: EdgeId| supports(forest.edges, group, edge, id);
        match edge.dependent {
            Some(parent) => {
                assert(keeps(forest, group, parent));
                assert(kept.contains(parent));
            },
            None => {},
        }
        assert(edges_among(forest.edges, kept).contains(edge));
        assert(supports(pruned(forest).edges, kept, edge, id));
    }
}

/// A forest without bottles stays without bottles: with everything
/// removed, nothing is drawn in again, whatever the edges were.
pub proof fn lemma_nothing_comes_of_nothing(index: Seq<Formula>, edges: Set<EdgeId>)
    ensures
        !closure_fails(index, Forest { bottles: Set::empty(), edges }),
        target_forest(index, Forest { bottles: Set::empty(), edges }).bottles == Set::<
            BottleId,
        >::empty(),
        target_forest(index, Forest { bottles: Set::empty(), edges }).edges == Set::<
            EdgeId,
        >::empty(),
{
    let none = Set::<BottleId>::empty();
    let forest = Forest { bottles: none, edges };
    assert forall|p: int| !expanded(index, none, p) by {
        if expanded(index, none, p) {
            let chain = choose|chain: Seq<int>|
                is_chain(index, none, chain) && #[trigger] chain.last() == p;
            assert(is_current(index, none, chain[0]));
        }
    }
    assert forall|name: Seq<char>| !unresolved(index, none, name) by {}
    assert(closed_bottles(index, none) =~= none) by {
        assert forall|id: BottleId| !closed_bottles(index, none).contains(id) by {
            if brought_in(index, none, id) {
                let p = choose|p: int| expanded(index, none, p) && #[trigger] current_id(index[p]) == id;
            }
        }
    }
    let closed = Forest {
        bottles: closed_bottles(index, none),
        edges: closed_edges(index, none, edges),
    };
    lemma_pruned_is_whole(closed);
    assert(pruned(closed).bottles =~= none);
    assert(pruned(closed).edges =~= Set::<EdgeId>::empty()) by {
        assert forall|edge: EdgeId| !pruned(closed).edges.contains(edge) by {
            if pruned(closed).edges.contains(edge) {
                assert(pruned(closed).bottles.contains(edge.dependency));
            }
        }
    }
}

/// Adding what only the target has, and removing what only the catalog
/// has, takes the catalog's bottles to the target's.
pub proof fn lemma_plan_reaches_target(before: Set<BottleId>, target: Set<BottleId>)
    ensures
        before.union(target.difference(before)).difference(before.difference(target)) == target,
{
    assert(before.union(target.difference(before)).difference(before.difference(target))
        =~= target);
}

/// `path` leads down from a root, along edges.
pub open spec fn is_descent(edges: Set<EdgeId>, path: Seq<BottleId>) -> bool {
    &&& path.len() > 0
    &&& is_root(edges, path[0])
    &&& forall|t: int|
        0 <= t < path.len() - 1 ==> edges.contains(edge_between(#[trigger] path[t], path[t + 1]))
}

/// Some path leads down from a root to `id`.
pub open spec fn reachable_from_root(edges: Set<EdgeId>, id: BottleId) -> bool {
    exists|path: Seq<BottleId>| is_descent(edges, path) && #[trigger] path.last() == id
}

/// The edges go down: `rank` grows along each edge, so that no bottle
/// depends on itself, directly or through others.
pub open spec fn goes_down(edges: Set<EdgeId>, rank: spec_fn(BottleId) -> nat) -> bool {
    forall|edge: EdgeId| #[trigger]
        edges.contains(edge) ==> (edge.dependent matches Some(parent) ==> rank(parent) < rank(
            edge.dependency,
        ))
}

proof fn lemma_kept_is_reachable(forest: Forest, rank: spec_fn(BottleId) -> nat, id: BottleId)
    requires
        goes_down(forest.edges, rank),
        pruned(forest).bottles.contains(id),
    ensures
        reachable_from_root(pruned(forest).edges, id),
    decreases rank(id),
{
    lemma_pruned_is_whole(forest);
    let edges = pruned(forest).edges;
    assert(supported(edges, pruned(forest).bottles, id));
    let edge = choose|edge: EdgeId| supports(edges, pruned(forest).bottles, edge, id);
    assert(forest.edges.contains(edge));
    match edge.dependent {
        Some(parent) => {
            lemma_kept_is_reachable(forest, rank, parent);
            let path = choose|path: Seq<BottleId>|
                is_descent(edges, path) && #[trigger] path.last() == parent;
            let longer = path.push(id);
            assert(edge == edge_between(parent, id));
            assert forall|t: int| 0 <= t < longer.len() - 1 implies edges.contains(
                edge_between(#[trigger] longer[t], longer[t + 1]),
            ) by {
                if t < path.len() - 1 {
                    assert(edges.contains(edge_between(path[t], path[t + 1])));
                } else {
                    assert(longer[t] == parent && longer[t + 1] == id);
                }
            }
            assert(longer[0] == path[0]);
            assert(is_descent(edges, longer) && longer.last() == id);
        },
        None => {
            let path = seq![id];
            assert(edge == root_edge(id));
            assert(is_descent(edges, path) && path.last() == id);
        },
    }
}

/// In a forest that is rid of its orphans, a path leads down from a root
/// to every bottle, as long as no bottle depends on itself, directly or
/// through others.
pub proof fn lemma_every_bottle_hangs_on_a_root(forest: Forest, rank: spec_fn(BottleId) -> nat)
    requires
        goes_down(forest.edges, rank),
    ensures
        forall|id: BottleId| #[trigger]
            pruned(forest).bottles.contains(id) ==> reachable_from_root(pruned(forest).edges, id),
{
    assert forall|id: BottleId| #[trigger] pruned(forest).bottles.contains(
        id,
    ) implies reachable_from_root(pruned(forest).edges, id) by {
        lemma_kept_is_reachable(forest, rank, id);
    }
}

/// A bottle that a root edge leads to outlasts the removal of orphans, if
/// it is in the forest at all.
pub proof fn lemma_roots_are_retained(forest: Forest, id: BottleId)
    requires
        forest.bottles.contains(id),
        is_root(forest.edges, id),
    ensures
        retained(forest).contains(id),
        pruned(forest).edges.contains(root_edge(id)),
{
    let group = Set::<BottleId>::empty().insert(id);
    assert forall|member: BottleId| group.contains(member) implies supported(
        forest.edges,
        group,
        member,
    ) by {
        assert(supports(forest.edges, group, root_edge(id), member));
    }
    assert(keeps(forest, group, id));
}

/// The roots of the forest that planning arrives at are the roots that it
/// started from, as far as their bottles were in the forest.
pub proof fn lemma_target_keeps_roots(index: Seq<Formula>, forest: Forest, id: BottleId)
    ensures
        is_root(target_forest(index, forest).edges, id) ==> is_root(forest.edges, id),
        is_root(forest.edges, id) && forest.bottles.contains(id) ==> is_root(
            target_forest(index, forest).edges,
            id,
        ),
{
    let closed = Forest {
        bottles: closed_bottles(index, forest.bottles),
        edges: closed_edges(index, forest.bottles, forest.edges),
    };
    if is_root(target_forest(index, forest).edges, id) {
        assert(closed.edges.contains(root_edge(id)));
        assert(!drawn(index, forest.bottles, root_edge(id)));
    }
    if is_root(forest.edges, id) && forest.bottles.contains(id) {
        assert(closed.edges.contains(root_edge(id)));
        assert(closed.bottles.contains(id));
        lemma_roots_are_retained(closed, id);
    }
}

/// An update that follows an update, with the index as it was, starts
/// from the same forest again.
pub proof fn lemma_update_twice(index: Seq<Formula>, forest: Forest)
    requires
        sorted_by_name(index),
    ensures
        updated(index, target_forest(index, updated(index, forest))) == updated(index, forest),
{
    let first = updated(index, forest);
    let target = target_forest(index, first);
    let second = updated(index, target);
    assert forall|id: BottleId| is_root(target.edges, id) == first.bottles.contains(id) by {
        lemma_target_keeps_roots(index, first, id);
        if first.bottles.contains(id) {
            assert(first.edges.contains(root_edge(id)));
        }
        if is_root(first.edges, id) {
            assert(first.bottles.contains(id));
        }
    }
    assert forall|id: BottleId| first.bottles.contains(id) implies exact_position(
        index,
        id.name,
    ) is Some && current_id(index[updated_position(index, id)]) == id by {
        let root = choose|root: BottleId| #[trigger]
            is_root(forest.edges, root) && exact_position(index, root.name) == Some(
                updated_position(index, root),
            ) && current_id(index[updated_position(index, root)]) == id;
        lemma_position_in_range(index, root.name);
        lemma_exact_position_of_member(index, updated_position(index, root));
    }
    assert forall|id: BottleId| second.bottles.contains(id) == first.bottles.contains(id) by {
        if second.bottles.contains(id) {
            let root = choose|root: BottleId| #[trigger]
                is_root(target.edges, root) && exact_position(index, root.name) == Some(
                    updated_position(index, root),
                ) && current_id(index[updated_position(index, root)]) == id;
            assert(first.bottles.contains(root));
        }
        if first.bottles.contains(id) {
            assert(is_root(target.edges, id) && exact_position(index, id.name) == Some(
                updated_position(index, id),
            ) && current_id(index[updated_position(index, id)]) == id);
        }
    }
    assert(second.bottles =~= first.bottles);
    assert forall|edge: EdgeId| second.edges.contains(edge) == first.edges.contains(edge) by {
        assert(second.bottles.contains(edge.dependency) == is_updated_root(
            index,
            target.edges,
            edge.dependency,
        ));
        assert(first.bottles.contains(edge.dependency) == is_updated_root(
            index,
            forest.edges,
            edge.dependency,
        ));
    }
    assert(second.edges =~= first.edges);
}

/// No two rows have the same id.
pub open spec fn distinct_ids(rows: Seq<DownloadedBottle>) -> bool {
    forall|i: int, j: int|
        0 <= i < j < rows.len() ==> (#[trigger] rows[i]).spec_id() != (#[trigger] rows[j]).spec_id()
}

/// What the catalog records for an edge stands for that edge again: the
/// ids of the rows lead back to the bottles that the edge joins.
pub proof fn lemma_recorded_edge_is_the_edge(
    rows: Seq<DownloadedBottle>,
    edge: Edge,
    dependency: Dependency,
)
    requires
        distinct_ids(rows),
        has_rows(rows, edge),
        (dependency.spec_dependent_id(), dependency.spec_dependency_id()) == dependency_for(
            rows,
            edge,
        ),
    ensures
        dependency_edge(rows, dependency) == edge@,
{
    lemma_find_row_of(rows, edge@.dependency, rows.len());
    let child = row_of(rows, edge@.dependency)->0;
    lemma_find_row(rows, rows[child].spec_id(), rows.len());
    assert(row_position(rows, rows[child].spec_id()) == Some(child)) by {
        let found = row_position(rows, rows[child].spec_id())->0;
        if found != child {
            if found < child {
                assert(rows[found].spec_id() != rows[child].spec_id());
            } else {
                assert(rows[child].spec_id() != rows[found].spec_id());
            }
        }
    }
    match edge@.dependent {
        Some(parent_id) => {
            lemma_find_row_of(rows, parent_id, rows.len());
            let parent = row_of(rows, parent_id)->0;
            lemma_find_row(rows, rows[parent].spec_id(), rows.len());
            assert(row_position(rows, rows[parent].spec_id()) == Some(parent)) by {
                let found = row_position(rows, rows[parent].spec_id())->0;
                if found != parent {
                    if found < parent {
                        assert(rows[found].spec_id() != rows[parent].spec_id());
                    } else {
                        assert(rows[parent].spec_id() != rows[found].spec_id());
                    }
                }
            }
        },
        None => {},
    }
}

/// No name has bottles of two versions.
pub open spec fn single_versions(bottles: Set<BottleId>) -> bool {
    forall|a: BottleId, b: BottleId|
        bottles.contains(a) && bottles.contains(b) && a.name == b.name ==> a == b
}

/// A bottle that the closure looks at is in the forest already, or goes by
/// a name that is new to the forest.
pub proof fn lemma_expanded_is_new_or_there(index: Seq<Formula>, base: Set<BottleId>, p: int)
    requires
        sorted_by_name(index),
        expanded(index, base, p),
    ensures
        0 <= p < index.len(),
        base.contains(current_id(index[p])) || !has_name(base, index[p].name@),
{
    lemma_expanded_in_range(index, base, p);
    let chain = choose|chain: Seq<int>| is_chain(index, base, chain) && #[trigger] chain.last() == p;
    if chain.len() > 1 {
        let before = chain[chain.len() - 2];
        assert(requires_directly(index, base, chain[chain.len() - 2], chain[chain.len() - 2 + 1]));
        let k = choose|k: int| pulls_in(index, base, before, k, p);
        lemma_position_in_range(index, index[before].dependencies@[k]@);
    }
}

/// Where no name has bottles of two versions, closing the forest over
/// its dependencies leaves it so.
pub proof fn lemma_closure_keeps_single_versions(index: Seq<Formula>, base: Set<BottleId>)
    requires
        sorted_by_name(index),
        single_versions(base),
    ensures
        single_versions(closed_bottles(index, base)),
{
    let closed = closed_bottles(index, base);
    assert forall|a: BottleId, b: BottleId|
        closed.contains(a) && closed.contains(b) && a.name == b.name implies a == b by {
        if !base.contains(a) {
            let p = choose|p: int| expanded(index, base, p) && #[trigger] current_id(index[p]) == a;
            lemma_expanded_is_new_or_there(index, base, p);
            if !base.contains(b) {
                let q = choose|q: int|
                    expanded(index, base, q) && #[trigger] current_id(index[q]) == b;
                lemma_expanded_is_new_or_there(index, base, q);
                lemma_names_distinct(index, p, q);
            }
        } else if !base.contains(b) {
            let q = choose|q: int| expanded(index, base, q) && #[trigger] current_id(index[q]) == b;
            lemma_expanded_is_new_or_there(index, base, q);
        }
    }
}

/// Where no name has bottles of two versions, planning leaves it so.
pub proof fn lemma_target_keeps_single_versions(index: Seq<Formula>, forest: Forest)
    requires
        sorted_by_name(index),
        single_versions(forest.bottles),
    ensures
        single_versions(target_forest(index, forest).bottles),
{
    let closed = Forest {
        bottles: closed_bottles(index, forest.bottles),
        edges: closed_edges(index, forest.bottles, forest.edges),
    };
    lemma_closure_keeps_single_versions(index, forest.bottles);
    lemma_pruned_is_whole(closed);
}

/// The forest closed over the dependencies of its current bottles.
pub open spec fn closed_forest(index: Seq<Formula>, forest: Forest) -> Forest {
    Forest {
        bottles: closed_bottles(index, forest.bottles),
        edges: closed_edges(index, forest.bottles, forest.edges),
    }
}

/// Under the only bottle of its name, a dependency is resolved to that
/// bottle.
pub proof fn lemma_resolved_to_the_only_one(index: Seq<Formula>, base: Set<BottleId>, id: BottleId)
    requires
        single_versions(base),
        base.contains(id),
    ensures
        resolved(index, base, id.name) == Some(id),
{
    assert(is_lowest_version(base, id)) by {
        crate::text::lemma_str_order_equal(id.version, id.version);
    }
    lemma_lowest_version_unique(base, id);
}

/// Where the closure finds something to stand for every dependency, each
/// dependency of a formula that it looks at is in place in the closed
/// forest: a bottle of that name, and the edge to it.
pub proof fn lemma_closed_has_dependencies(index: Seq<Formula>, forest: Forest, p: int, k: int)
    requires
        sorted_by_name(index),
        single_versions(forest.bottles),
        !closure_fails(index, forest),
        expanded(index, forest.bottles, p),
        0 <= k < index[p].dependencies@.len(),
    ensures
        resolved(index, forest.bottles, dependency_name(index, p, k)) matches Some(child)
            && child.name == dependency_name(index, p, k) && closed_forest(
            index,
            forest,
        ).bottles.contains(child) && closed_forest(index, forest).edges.contains(
            edge_between(current_id(index[p]), child),
        ),
{
    let base = forest.bottles;
    let name = dependency_name(index, p, k);
    lemma_expanded_in_range(index, base, p);
    assert(!unresolved(index, base, name));
    let child = resolved(index, base, name)->0;
    if has_name(base, name) {
        let only = choose|id: BottleId| base.contains(id) && id.name == name;
        lemma_resolved_to_the_only_one(index, base, only);
    } else {
        let q = exact_position(index, name)->0;
        lemma_position_in_range(index, name);
        assert(pulls_in(index, base, p, k, q));
        lemma_chain_goes_on(index, base, p, k, q);
        assert(brought_in(index, base, child));
    }
    assert(drawn(index, base, edge_between(current_id(index[p]), child)));
}

/// A formula whose current bottle is in the closed forest is one that the
/// closure has looked at.
pub proof fn lemma_closed_current_is_expanded(index: Seq<Formula>, base: Set<BottleId>, p: int)
    requires
        sorted_by_name(index),
        0 <= p < index.len(),
        closed_bottles(index, base).contains(current_id(index[p])),
    ensures
        expanded(index, base, p),
{
    let id = current_id(index[p]);
    if base.contains(id) {
        lemma_current_is_expanded(index, base, p);
    } else {
        let q = choose|q: int| expanded(index, base, q) && #[trigger] current_id(index[q]) == id;
        lemma_expanded_in_range(index, base, q);
        lemma_names_distinct(index, p, q);
    }
}

/// What a kept bottle depends on is kept as well, and so is the edge
/// between them.
pub proof fn lemma_kept_holds_its_children(forest: Forest, parent: BottleId, child: BottleId)
    requires
        retained(forest).contains(parent),
        forest.bottles.contains(child),
        forest.edges.contains(edge_between(parent, child)),
    ensures
        retained(forest).contains(child),
        pruned(forest).edges.contains(edge_between(parent, child)),
{
    let group = choose|group: Set<BottleId>| keeps(forest, group, parent);
    let wider = group.insert(child);
    assert forall|id: BottleId| wider.contains(id) implies supported(forest.edges, wider, id) by {
        if id == child {
            assert(supports(forest.edges, wider, edge_between(parent, child), id));
        } else {
            assert(supported(forest.edges, group, id));
            let edge = choose|edge: EdgeId| supports(forest.edges, group, edge, id);
            assert(supports(forest.edges, wider, edge, id));
        }
    }
    assert(keeps(forest, wider, child));
}

/// A forest that is rid of its orphans has no orphans to be rid of.
pub proof fn lemma_prune_twice(forest: Forest)
    ensures
        pruned(pruned(forest)) == pruned(forest),
{
    let once = pruned(forest);
    lemma_pruned_is_whole(forest);
    assert forall|id: BottleId| retained(once).contains(id) == once.bottles.contains(id) by {
        if retained(once).contains(id) {
            let group = choose|group: Set<BottleId>| keeps(once, group, id);
            assert(group.contains(id));
        }
        if once.bottles.contains(id) {
            assert(keeps(once, once.bottles, id));
        }
    }
    assert(retained(once) =~= once.bottles);
    assert(edges_among(once.edges, once.bottles) =~= once.edges);
    assert(pruned(once) =~= once);
}

/// In the forest that planning arrives at, each dependency of each current
/// bottle is in place: the only bottle of that name, and the edge to it.
pub proof fn lemma_target_dependencies_in_place(index: Seq<Formula>, forest: Forest, p: int, k: int)
    requires
        sorted_by_name(index),
        single_versions(forest.bottles),
        !closure_fails(index, forest),
        0 <= p < index.len(),
        target_forest(index, forest).bottles.contains(current_id(index[p])),
        0 <= k < index[p].dependencies@.len(),
    ensures
        resolved(index, forest.bottles, dependency_name(index, p, k)) matches Some(child)
            && child.name == dependency_name(index, p, k) && target_forest(
            index,
            forest,
        ).bottles.contains(child) && target_forest(index, forest).edges.contains(
            edge_between(current_id(index[p]), child),
        ) && resolved(index, target_forest(index, forest).bottles, dependency_name(index, p, k))
            == Some(child),
{
    let base = forest.bottles;
    let closed = closed_forest(index, forest);
    let target = target_forest(index, forest);
    lemma_pruned_is_whole(closed);
    lemma_closure_keeps_single_versions(index, base);
    lemma_closed_current_is_expanded(index, base, p);
    lemma_closed_has_dependencies(index, forest, p, k);
    let child = resolved(index, base, dependency_name(index, p, k))->0;
    lemma_kept_holds_its_children(closed, current_id(index[p]), child);
    lemma_resolved_to_the_only_one(index, target.bottles, child);
}

/// The forest that planning arrives at is settled: planning from it
/// arrives at the same forest again, as long as no name has bottles of two
/// versions and the index is as it was.
pub proof fn lemma_target_is_settled(index: Seq<Formula>, forest: Forest)
    requires
        sorted_by_name(index),
        single_versions(forest.bottles),
        !closure_fails(index, forest),
    ensures
        !closure_fails(index, target_forest(index, forest)),
        target_forest(index, target_forest(index, forest)) == target_forest(index, forest),
{
    let base = forest.bottles;
    let closed = closed_forest(index, forest);
    let target = target_forest(index, forest);
    assert(target == pruned(closed));
    lemma_pruned_is_whole(closed);
    lemma_closure_keeps_single_versions(index, base);
    assert(single_versions(target.bottles));
    // The dependencies of each current bottle of the target are in the target.
    assert forall|p: int, k: int|
        0 <= p < index.len() && target.bottles.contains(current_id(index[p])) && 0 <= k
            < index[p].dependencies@.len() implies resolved(
        index,
        target.bottles,
        #[trigger] dependency_name(index, p, k),
    ) matches Some(child) && target.bottles.contains(child) && target.edges.contains(
        edge_between(current_id(index[p]), child),
    ) by {
        lemma_closed_current_is_expanded(index, base, p);
        lemma_closed_has_dependencies(index, forest, p, k);
        let child = resolved(index, base, dependency_name(index, p, k))->0;
        lemma_kept_holds_its_children(closed, current_id(index[p]), child);
        lemma_resolved_to_the_only_one(index, target.bottles, child);
    }
    // So the closure of the target looks at its current bottles only.
    assert forall|p: int| expanded(index, target.bottles, p) implies is_current(
        index,
        target.bottles,
        p,
    ) by {
        let chain = choose|chain: Seq<int>|
            is_chain(index, target.bottles, chain) && #[trigger] chain.last() == p;
        if chain.len() > 1 {
            let first = chain[0];
            let second = chain[1];
            assert(requires_directly(index, target.bottles, chain[0int], chain[0int + 1]));
            let k = choose|k: int| pulls_in(index, target.bottles, first, k, second);
            let child = resolved(index, base, dependency_name(index, first, k))->0;
            assert(is_current(index, target.bottles, first));
            lemma_closed_current_is_expanded(index, base, first);
            lemma_closed_has_dependencies(index, forest, first, k);
            lemma_kept_holds_its_children(closed, current_id(index[first]), child);
            assert(target.bottles.contains(child) && child.name == dependency_name(
                index,
                first,
                k,
            ));
        }
    }
    let again = closed_forest(index, target);
    assert forall|id: BottleId| again.bottles.contains(id) == target.bottles.contains(id) by {
        if brought_in(index, target.bottles, id) {
            let p = choose|p: int|
                expanded(index, target.bottles, p) && #[trigger] current_id(index[p]) == id;
            assert(is_current(index, target.bottles, p));
        }
    }
    assert(again.bottles =~= target.bottles);
    assert forall|edge: EdgeId| again.edges.contains(edge) == target.edges.contains(edge) by {
        if drawn(index, target.bottles, edge) {
            let (p, k) = choose|p: int, k: int|
                #![trigger dependency_name(index, p, k)]
                expanded(index, target.bottles, p) && 0 <= k < index[p].dependencies@.len()
                    && resolved(index, target.bottles, dependency_name(index, p, k)) == Some(
                    edge.dependency,
                ) && edge.dependent == Some(current_id(index[p]));
            assert(is_current(index, target.bottles, p));
            assert(edge == edge_between(current_id(index[p]), edge.dependency));
        }
    }
    assert(again.edges =~= target.edges);
    assert(again =~= target);
    assert forall|name: Seq<char>| !unresolved(index, target.bottles, name) by {
        if unresolved(index, target.bottles, name) {
            let (p, k) = choose|p: int, k: int|
                #![trigger dependency_name(index, p, k)]
                expanded(index, target.bottles, p) && 0 <= k < index[p].dependencies@.len()
                    && dependency_name(index, p, k) == name && resolved(
                    index,
                    target.bottles,
                    name,
                ) is None;
            assert(is_current(index, target.bottles, p));
        }
    }
    lemma_prune_twice(closed);
}

/// What asking for names does to a forest: nothing goes, each bottle that
/// comes is a root, and no name comes to have bottles of two versions.
pub proof fn lemma_add_all_adds_roots(index: Seq<Formula>, forest: Forest, names: Seq<String>)
    requires
        add_all(index, forest, names) is Ok,
    ensures
        forest.bottles.subset_of(add_all(index, forest, names)->Ok_0.bottles),
        forest.edges.subset_of(add_all(index, forest, names)->Ok_0.edges),
        forall|id: BottleId|
            add_all(index, forest, names)->Ok_0.bottles.contains(id) && !forest.bottles.contains(
                id,
            ) ==> is_root(add_all(index, forest, names)->Ok_0.edges, id),
        single_versions(forest.bottles) ==> single_versions(
            add_all(index, forest, names)->Ok_0.bottles,
        ),
    decreases names.len(),
{
    if names.len() > 0 {
        let front = names.drop_last();
        let before = add_all(index, forest, front)->Ok_0;
        let after = add_all(index, forest, names)->Ok_0;
        lemma_add_all_adds_roots(index, forest, front);
        lemma_add_one_grows(index, before, names.last()@);
        let p = position(index, names.last()@)->0;
        let added = current_id(index[p]);
        assert forall|id: BottleId|
            after.bottles.contains(id) && !forest.bottles.contains(id) implies is_root(
            after.edges,
            id,
        ) by {
            if before.bottles.contains(id) {
                assert(is_root(before.edges, id));
            }
        }
        if single_versions(forest.bottles) {
            assert forall|a: BottleId, b: BottleId|
                after.bottles.contains(a) && after.bottles.contains(b) && a.name
                    == b.name implies a == b by {
                if !before.bottles.contains(a) {
                    assert(a == added);
                    if before.bottles.contains(b) {
                        assert(has_name(before.bottles, added.name));
                    }
                } else if !before.bottles.contains(b) {
                    assert(b == added);
                    assert(has_name(before.bottles, added.name));
                }
            }
        }
    }
}

/// In a settled forest every bottle is held from within the forest, so
/// that all of them outlast the removal of orphans from any forest that
/// has grown out of it.
pub proof fn lemma_settled_survives(index: Seq<Formula>, forest: Forest, grown: Forest, id: BottleId)
    requires
        target_forest(index, forest) == forest,
        forest.bottles.subset_of(grown.bottles),
        forest.edges.subset_of(grown.edges),
        forest.bottles.contains(id),
    ensures
        retained(grown).contains(id),
{
    lemma_pruned_is_whole(closed_forest(index, forest));
    let group = forest.bottles;
    assert forall|member: BottleId| group.contains(member) implies supported(
        grown.edges,
        group,
        member,
    ) by {
        assert(supported(forest.edges, group, member));
        let edge = choose|edge: EdgeId| supports(forest.edges, group, edge, member);
        assert(supports(grown.edges, group, edge, member));
    }
    assert(keeps(grown, group, id));
}

/// Asking for names again, once what they took was done, asks for
/// nothing: the forest that planning arrived at is arrived at again, and
/// nothing is left to add or to remove.
///
/// This holds of a catalog that is settled, as every run leaves it, and in
/// which no name has bottles of two versions.
pub proof fn lemma_add_again_is_no_work(index: Seq<Formula>, forest: Forest, names: Seq<String>)
    requires
        sorted_by_name(index),
        single_versions(forest.bottles),
        target_forest(index, forest) == forest,
        add_all(index, forest, names) is Ok,
        !closure_fails(index, add_all(index, forest, names)->Ok_0),
    ensures
        ({
            let done = target_forest(index, add_all(index, forest, names)->Ok_0);
            &&& add_all(index, done, names) == Ok::<Forest, Failure>(done)
            &&& !closure_fails(index, done)
            &&& target_forest(index, done) == done
        }),
{
    let asked = add_all(index, forest, names)->Ok_0;
    let closed = closed_forest(index, asked);
    let done = target_forest(index, asked);
    lemma_add_all_adds_roots(index, forest, names);
    lemma_add_all_covers(index, forest, names);
    lemma_target_is_settled(index, asked);
    assert forall|i: int| 0 <= i < names.len() implies (position(
        index,
        (#[trigger] names[i])@,
    ) matches Some(p) && has_name(done.bottles, index[p].name@)) by {
        let p = position(index, names[i]@)->0;
        let held = choose|id: BottleId| asked.bottles.contains(id) && id.name == index[p].name@;
        if forest.bottles.contains(held) {
            lemma_settled_survives(index, forest, closed, held);
        } else {
            lemma_roots_are_retained(closed, held);
        }
        assert(done.bottles.contains(held));
    }
    lemma_add_all_present(index, done, names);
}

/// The dependencies of the index go down: `rank` grows from each formula
/// to each formula that it depends on, so that no formula depends on
/// itself, directly or through others.
pub open spec fn index_goes_down(index: Seq<Formula>, rank: spec_fn(int) -> nat) -> bool {
    forall|p: int, k: int|
        0 <= p < index.len() && 0 <= k < index[p].dependencies@.len() && exact_position(
            index,
            #[trigger] dependency_name(index, p, k),
        ) is Some ==> rank(p) < rank(exact_position(index, dependency_name(index, p, k))->0)
}

/// What is taken for granted where a formula is added to a settled forest
/// and removed again: the index is sorted and its dependencies go down; no
/// name has bottles of two versions; the forest is settled; and the
/// formula at `x` has no bottle in it.
pub open spec fn fit_for_round_trip(
    index: Seq<Formula>,
    forest: Forest,
    x: int,
    rank: spec_fn(int) -> nat,
) -> bool {
    &&& sorted_by_name(index)
    &&& index_goes_down(index, rank)
    &&& single_versions(forest.bottles)
    &&& !closure_fails(index, forest)
    &&& target_forest(index, forest) == forest
    &&& 0 <= x < index.len()
    &&& !has_name(forest.bottles, index[x].name@)
    &&& !closure_fails(index, with_root(forest, current_id(index[x])))
}

/// The forest with one more bottle, as a root.
pub open spec fn with_root(forest: Forest, id: BottleId) -> Forest {
    Forest { bottles: forest.bottles.insert(id), edges: forest.edges.insert(root_edge(id)) }
}

/// `id` came into the forest with the formula at `x`: it is the current
/// bottle of a formula that stands below `x`, under a name that is new to
/// the forest.
pub open spec fn came_with(
    index: Seq<Formula>,
    forest: Forest,
    x: int,
    rank: spec_fn(int) -> nat,
    id: BottleId,
) -> bool {
    exists|p: int|
        0 <= p < index.len() && #[trigger] current_id(index[p]) == id && rank(p) > rank(x)
            && !has_name(forest.bottles, index[p].name@) && index[p].name@ != index[x].name@
}

/// With the formula at `x` added as a root, the closure looks at the
/// bottles of the forest, at `x`, and at formulae that stand below `x`
/// under names that are new to the forest.
proof fn lemma_chain_after_add(
    index: Seq<Formula>,
    forest: Forest,
    x: int,
    rank: spec_fn(int) -> nat,
    chain: Seq<int>,
    t: int,
)
    requires
        fit_for_round_trip(index, forest, x, rank),
        is_chain(index, with_root(forest, current_id(index[x])).bottles, chain),
        0 <= t < chain.len(),
    ensures
        0 <= chain[t] < index.len(),
        forest.bottles.contains(current_id(index[chain[t]])) || chain[t] == x || came_with(
            index,
            forest,
            x,
            rank,
            current_id(index[chain[t]]),
        ),
        !forest.bottles.contains(current_id(index[chain[t]])) ==> rank(chain[t]) >= rank(x),
    decreases t,
{
    let added = current_id(index[x]);
    let base = with_root(forest, added).bottles;
    if t == 0 {
        assert(is_current(index, base, chain[0]));
        if !forest.bottles.contains(current_id(index[chain[0]])) {
            lemma_names_distinct(index, chain[0], x);
        }
    } else {
        lemma_chain_after_add(index, forest, x, rank, chain, t - 1);
        let p = chain[t - 1];
        let q = chain[t];
        assert(requires_directly(index, base, chain[t - 1], chain[t - 1 + 1]));
        let k = choose|k: int| pulls_in(index, base, p, k, q);
        let name = dependency_name(index, p, k);
        lemma_position_in_range(index, name);
        if forest.bottles.contains(current_id(index[p])) {
            lemma_target_dependencies_in_place(index, forest, p, k);
            let child = resolved(index, forest.bottles, name)->0;
            assert(base.contains(child));
            assert(false);
        }
        assert(exact_position(index, name) is Some);
        assert(rank(p) < rank(q));
        assert(!has_name(forest.bottles, index[q].name@)) by {
            if has_name(forest.bottles, index[q].name@) {
                let held = choose|id: BottleId|
                    forest.bottles.contains(id) && id.name == index[q].name@;
                assert(base.contains(held));
            }
        }
        assert(index[q].name@ != index[x].name@) by {
            if index[q].name@ == index[x].name@ {
                assert(base.contains(added) && added.name == name);
            }
        }
        assert(!forest.bottles.contains(current_id(index[q]))) by {
            if forest.bottles.contains(current_id(index[q])) {
                assert(has_name(forest.bottles, index[q].name@));
            }
        }
        assert(came_with(index, forest, x, rank, current_id(index[q])));
    }
}

/// With the formula at `x` added as a root, every bottle of the closed
/// forest is a bottle of the forest, the bottle of `x`, or one that came
/// with it.
proof fn lemma_closed_after_add(
    index: Seq<Formula>,
    forest: Forest,
    x: int,
    rank: spec_fn(int) -> nat,
    id: BottleId,
)
    requires
        fit_for_round_trip(index, forest, x, rank),
        closed_forest(index, with_root(forest, current_id(index[x]))).bottles.contains(id),
    ensures
        forest.bottles.contains(id) || id == current_id(index[x]) || came_with(
            index,
            forest,
            x,
            rank,
            id,
        ),
{
    let added = current_id(index[x]);
    let base = with_root(forest, added).bottles;
    if !base.contains(id) {
        let p = choose|p: int| expanded(index, base, p) && #[trigger] current_id(index[p]) == id;
        let chain = choose|chain: Seq<int>|
            is_chain(index, base, chain) && #[trigger] chain.last() == p;
        lemma_chain_after_add(index, forest, x, rank, chain, chain.len() - 1);
    }
}

/// With the formula at `x` added as a root, an edge of the closed forest
/// that ends in a bottle of the forest, and does not start from the bottle
/// of `x` or from one that came with it, is an edge of the forest.
proof fn lemma_closed_edge_after_add(
    index: Seq<Formula>,
    forest: Forest,
    x: int,
    rank: spec_fn(int) -> nat,
    edge: EdgeId,
)
    requires
        fit_for_round_trip(index, forest, x, rank),
        closed_forest(index, with_root(forest, current_id(index[x]))).edges.contains(edge),
        edge.dependent matches Some(parent) ==> forest.bottles.contains(parent),
        edge.dependent is None ==> edge.dependency != current_id(index[x]),
    ensures
        forest.edges.contains(edge),
        forest.bottles.contains(edge.dependency),
{
    let added = current_id(index[x]);
    let grown = with_root(forest, added);
    let base = grown.bottles;
    lemma_pruned_is_whole(closed_forest(index, forest));
    if !forest.edges.contains(edge) {
        assert(edge != root_edge(added));
        assert(drawn(index, base, edge));
        let (p, k) = choose|p: int, k: int|
            #![trigger dependency_name(index, p, k)]
            expanded(index, base, p) && 0 <= k < index[p].dependencies@.len() && resolved(
                index,
                base,
                dependency_name(index, p, k),
            ) == Some(edge.dependency) && edge.dependent == Some(current_id(index[p]));
        lemma_expanded_in_range(index, base, p);
        lemma_target_dependencies_in_place(index, forest, p, k);
        let child = resolved(index, forest.bottles, dependency_name(index, p, k))->0;
        assert(single_versions(base)) by {
            assert forall|a: BottleId, b: BottleId|
                base.contains(a) && base.contains(b) && a.name == b.name implies a == b by {
                if a == added && b != added {
                    assert(forest.bottles.contains(b) && b.name == index[x].name@);
                }
                if b == added && a != added {
                    assert(forest.bottles.contains(a) && a.name == index[x].name@);
                }
            }
        }
        lemma_resolved_to_the_only_one(index, base, child);
        assert(edge == edge_between(current_id(index[p]), child));
    }
}

/// Each dependency of each current bottle of the forest is in place: a
/// bottle of the forest stands for it, and the edge to it is drawn.
pub open spec fn complete(index: Seq<Formula>, forest: Forest) -> bool {
    forall|p: int, k: int|
        0 <= p < index.len() && forest.bottles.contains(current_id(index[p])) && 0 <= k
            < index[p].dependencies@.len() ==> (resolved(
            index,
            forest.bottles,
            #[trigger] dependency_name(index, p, k),
        ) matches Some(child) && forest.bottles.contains(child) && child.name == dependency_name(
            index,
            p,
            k,
        ) && forest.edges.contains(edge_between(current_id(index[p]), child)))
}

/// Closing a complete forest over its dependencies changes nothing.
pub proof fn lemma_closure_of_complete(index: Seq<Formula>, forest: Forest)
    requires
        complete(index, forest),
    ensures
        !closure_fails(index, forest),
        closed_forest(index, forest) == forest,
{
    let base = forest.bottles;
    assert forall|p: int| expanded(index, base, p) implies is_current(index, base, p) by {
        let chain = choose|chain: Seq<int>| is_chain(index, base, chain) && #[trigger] chain.last() == p;
        if chain.len() > 1 {
            let first = chain[0];
            let second = chain[1];
            assert(requires_directly(index, base, chain[0int], chain[0int + 1]));
            let k = choose|k: int| pulls_in(index, base, first, k, second);
            assert(is_current(index, base, first));
            let child = resolved(index, base, dependency_name(index, first, k))->0;
            assert(base.contains(child) && child.name == dependency_name(index, first, k));
        }
    }
    let again = closed_forest(index, forest);
    assert forall|id: BottleId| again.bottles.contains(id) == base.contains(id) by {
        if brought_in(index, base, id) {
            let p = choose|p: int| expanded(index, base, p) && #[trigger] current_id(index[p]) == id;
            assert(is_current(index, base, p));
        }
    }
    assert(again.bottles =~= base);
    assert forall|edge: EdgeId| again.edges.contains(edge) == forest.edges.contains(edge) by {
        if drawn(index, base, edge) {
            let (p, k) = choose|p: int, k: int|
                #![trigger dependency_name(index, p, k)]
                expanded(index, base, p) && 0 <= k < index[p].dependencies@.len() && resolved(
                    index,
                    base,
                    dependency_name(index, p, k),
                ) == Some(edge.dependency) && edge.dependent == Some(current_id(index[p]));
            assert(is_current(index, base, p));
            assert(edge == edge_between(current_id(index[p]), edge.dependency));
        }
    }
    assert(again.edges =~= forest.edges);
    assert(again =~= forest);
    assert forall|name: Seq<char>| !unresolved(index, base, name) by {
        if unresolved(index, base, name) {
            let (p, k) = choose|p: int, k: int|
                #![trigger dependency_name(index, p, k)]
                expanded(index, base, p) && 0 <= k < index[p].dependencies@.len()
                    && dependency_name(index, p, k) == name && resolved(index, base, name) is None;
            assert(is_current(index, base, p));
        }
    }
}

/// Adding a bottle under a name that is new to the forest leaves each name
/// with bottles of one version.
proof fn lemma_with_root_keeps_single_versions(forest: Forest, id: BottleId)
    requires
        single_versions(forest.bottles),
        !has_name(forest.bottles, id.name),
    ensures
        single_versions(with_root(forest, id).bottles),
{
    let base = with_root(forest, id).bottles;
    assert forall|a: BottleId, b: BottleId|
        base.contains(a) && base.contains(b) && a.name == b.name implies a == b by {
        if a == id && b != id {
            assert(forest.bottles.contains(b) && b.name == id.name);
        }
        if b == id && a != id {
            assert(forest.bottles.contains(a) && a.name == id.name);
        }
    }
}

/// The forest that is left when the formula at `x`, added to the forest
/// as a root and installed with all that it needs, is asked to go again.
pub open spec fn after_round_trip_request(index: Seq<Formula>, forest: Forest, x: int) -> Forest {
    let installed = target_forest(index, with_root(forest, current_id(index[x])));
    Forest { bottles: without_name(installed.bottles, index[x].name@), edges: installed.edges }
}

/// Once the formula at `x` is asked to go again, a bottle that is not of
/// the forest is held by nothing that lasts: whatever holds it came with
/// `x` as well, and stands above it.
proof fn lemma_newcomer_is_not_held(
    index: Seq<Formula>,
    forest: Forest,
    x: int,
    rank: spec_fn(int) -> nat,
    group: Set<BottleId>,
    id: BottleId,
    at: int,
)
    requires
        fit_for_round_trip(index, forest, x, rank),
        group.subset_of(after_round_trip_request(index, forest, x).bottles),
        self_supporting(after_round_trip_request(index, forest, x).edges, group),
        group.contains(id),
        0 <= at < index.len(),
        current_id(index[at]) == id,
    ensures
        forest.bottles.contains(id),
    decreases rank(at),
{
    let added = current_id(index[x]);
    let grown = with_root(forest, added);
    let closed = closed_forest(index, grown);
    let installed = target_forest(index, grown);
    let left = after_round_trip_request(index, forest, x);
    lemma_pruned_is_whole(closed);
    lemma_with_root_keeps_single_versions(forest, added);
    if !forest.bottles.contains(id) {
        assert(supported(left.edges, group, id));
        let edge = choose|edge: EdgeId| supports(left.edges, group, edge, id);
        assert(closed.edges.contains(edge));
        assert(left.bottles.contains(id));
        assert(id != added);
        match edge.dependent {
            None => {
                lemma_closed_edge_after_add(index, forest, x, rank, edge);
            },
            Some(parent) => {
                assert(left.bottles.contains(parent));
                if forest.bottles.contains(parent) {
                    lemma_closed_edge_after_add(index, forest, x, rank, edge);
                } else {
                    assert(closed.bottles.contains(parent));
                    lemma_closed_after_add(index, forest, x, rank, parent);
                    assert(parent != added);
                    let above = choose|above: int|
                        0 <= above < index.len() && #[trigger] current_id(index[above]) == parent
                            && rank(above) > rank(x) && !has_name(
                            forest.bottles,
                            index[above].name@,
                        ) && index[above].name@ != index[x].name@;
                    assert(!forest.edges.contains(edge)) by {
                        if forest.edges.contains(edge) {
                            lemma_pruned_is_whole(closed_forest(index, forest));
                        }
                    }
                    assert(edge != root_edge(added));
                    assert(drawn(index, grown.bottles, edge));
                    let (p, k) = choose|p: int, k: int|
                        #![trigger dependency_name(index, p, k)]
                        expanded(index, grown.bottles, p) && 0 <= k < index[p].dependencies@.len()
                            && resolved(index, grown.bottles, dependency_name(index, p, k))
                            == Some(edge.dependency) && edge.dependent == Some(
                            current_id(index[p]),
                        );
                    lemma_expanded_in_range(index, grown.bottles, p);
                    lemma_names_distinct(index, p, above);
                    lemma_closed_has_dependencies(index, grown, p, k);
                    lemma_exact_position_of_member(index, at);
                    assert(dependency_name(index, p, k) == index[at].name@);
                    assert(rank(above) < rank(at));
                    lemma_newcomer_is_not_held(index, forest, x, rank, group, parent, above);
                }
            },
        }
    }
}

/// Adding a formula to a settled forest, installing it with all that it
/// needs, and then removing it again leads back to the forest as it was.
///
/// This holds as long as no formula depends on itself, directly or
/// through others, and no name has bottles of two versions.
pub proof fn lemma_add_then_remove(
    index: Seq<Formula>,
    forest: Forest,
    x: int,
    rank: spec_fn(int) -> nat,
)
    requires
        fit_for_round_trip(index, forest, x, rank),
    ensures
        has_name(
            target_forest(index, with_root(forest, current_id(index[x]))).bottles,
            index[x].name@,
        ),
        !closure_fails(index, after_round_trip_request(index, forest, x)),
        target_forest(index, after_round_trip_request(index, forest, x)) == forest,
{
    let added = current_id(index[x]);
    let grown = with_root(forest, added);
    let closed = closed_forest(index, grown);
    let installed = target_forest(index, grown);
    let left = after_round_trip_request(index, forest, x);
    lemma_pruned_is_whole(closed);
    lemma_pruned_is_whole(closed_forest(index, forest));
    lemma_with_root_keeps_single_versions(forest, added);
    lemma_target_keeps_single_versions(index, grown);
    lemma_roots_are_retained(closed, added);
    assert(installed.bottles.contains(added) && added.name == index[x].name@);
    assert forall|id: BottleId| forest.bottles.contains(id) implies left.bottles.contains(id) by {
        lemma_settled_survives(index, forest, closed, id);
        if id.name == index[x].name@ {
            assert(has_name(forest.bottles, index[x].name@));
        }
    }
    assert forall|edge: EdgeId| forest.edges.contains(edge) implies left.edges.contains(edge) by {
        assert(closed.edges.contains(edge));
        assert(forest.bottles.contains(edge.dependency));
        lemma_settled_survives(index, forest, closed, edge.dependency);
        match edge.dependent {
            Some(parent) => {
                lemma_settled_survives(index, forest, closed, parent);
            },
            None => {},
        }
    }
    assert(single_versions(left.bottles));
    assert(complete(index, left)) by {
        assert forall|p: int, k: int|
            0 <= p < index.len() && left.bottles.contains(current_id(index[p])) && 0 <= k
                < index[p].dependencies@.len() implies (resolved(
            index,
            left.bottles,
            #[trigger] dependency_name(index, p, k),
        ) matches Some(child) && left.bottles.contains(child) && child.name == dependency_name(
            index,
            p,
            k,
        ) && left.edges.contains(edge_between(current_id(index[p]), child))) by {
            let name = dependency_name(index, p, k);
            lemma_target_dependencies_in_place(index, grown, p, k);
            let child = resolved(index, grown.bottles, name)->0;
            if name == index[x].name@ {
                lemma_exact_position_of_member(index, x);
                assert(rank(p) < rank(x));
                if forest.bottles.contains(current_id(index[p])) {
                    lemma_target_dependencies_in_place(index, forest, p, k);
                    let old = resolved(index, forest.bottles, name)->0;
                    assert(forest.bottles.contains(old) && old.name == index[x].name@);
                } else {
                    assert(closed.bottles.contains(current_id(index[p])));
                    lemma_closed_after_add(index, forest, x, rank, current_id(index[p]));
                    let q = choose|q: int|
                        0 <= q < index.len() && #[trigger] current_id(index[q]) == current_id(
                            index[p],
                        ) && rank(q) > rank(x) && !has_name(forest.bottles, index[q].name@)
                            && index[q].name@ != index[x].name@;
                    lemma_names_distinct(index, p, q);
                }
                assert(false);
            }
            assert(left.bottles.contains(child));
            lemma_resolved_to_the_only_one(index, left.bottles, child);
        }
    }
    lemma_closure_of_complete(index, left);
    let kept = retained(left);
    assert forall|id: BottleId| kept.contains(id) == forest.bottles.contains(id) by {
        if kept.contains(id) {
            let group = choose|group: Set<BottleId>| keeps(left, group, id);
            if !forest.bottles.contains(id) {
                assert(left.bottles.contains(id));
                assert(closed.bottles.contains(id));
                lemma_closed_after_add(index, forest, x, rank, id);
                let at = choose|at: int|
                    0 <= at < index.len() && #[trigger] current_id(index[at]) == id && rank(at)
                        > rank(x) && !has_name(forest.bottles, index[at].name@)
                        && index[at].name@ != index[x].name@;
                lemma_newcomer_is_not_held(index, forest, x, rank, group, id, at);
            }
        }
        if forest.bottles.contains(id) {
            lemma_settled_survives(index, forest, left, id);
        }
    }
    assert(kept =~= forest.bottles);
    assert forall|edge: EdgeId| edges_among(left.edges, kept).contains(edge)
        == forest.edges.contains(edge) by {
        if edges_among(left.edges, kept).contains(edge) {
            assert(closed.edges.contains(edge));
            if edge.dependent is None {
                assert(forest.bottles.contains(edge.dependency));
                if edge.dependency == added {
                    assert(has_name(forest.bottles, index[x].name@));
                }
            }
            lemma_closed_edge_after_add(index, forest, x, rank, edge);
        }
    }
    assert(edges_among(left.edges, kept) =~= forest.edges);
    assert(pruned(left) =~= forest);
}

} // verus!
