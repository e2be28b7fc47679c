//! The forest that planning works on: a set of bottles and the dependency
//! edges between them, and what each planning step makes of it.

use vstd::prelude::*;
use crate::bottle_set::{
    compare_refs, has_name, id_order, lemma_id_lt_trans, lemma_id_order_equal,
    lemma_id_order_flip, without_name, BottleId, BottleRef,
};
use crate::error::Failure;
use crate::formulae::{exact_position, position, Formula};
use crate::text::Order;

verus! {

/// A dependency edge. An edge without a dependent marks a root: a bottle
/// that the user asked for.
#[derive(Debug, PartialEq, Eq)]
pub struct Edge {
    pub dependent: Option<BottleRef>,
    pub dependency: BottleRef,
}

/// What an `Edge` stands for in specifications.
#[verifier::ext_equal]
pub struct EdgeId {
    pub dependent: Option<BottleId>,
    pub dependency: BottleId,
}

impl View for Edge {
    type V = EdgeId;

    open spec fn view(&self) -> EdgeId {
        EdgeId {
            dependent: match self.dependent {
                Some(parent) => Some(parent@),
                None => None,
            },
            dependency: self.dependency@,
        }
    }
}

impl Clone for Edge {
    fn clone(&self) -> (copy: Self)
        ensures
            copy@ == self@,
    {
        Edge {
            dependent: match &self.dependent {
                Some(parent) => Some(parent.clone()),
                None => None,
            },
            dependency: self.dependency.clone(),
        }
    }
}

/// A set of bottles and the edges between them.
#[verifier::ext_equal]
pub struct Forest {
    pub bottles: Set<BottleId>,
    pub edges: Set<EdgeId>,
}

/// The edge that marks `id` as a root.
pub open spec fn root_edge(id: BottleId) -> EdgeId {
    EdgeId { dependent: None, dependency: id }
}

/// The edge from `parent` to a bottle that it depends on.
pub open spec fn edge_between(parent: BottleId, child: BottleId) -> EdgeId {
    EdgeId { dependent: Some(parent), dependency: child }
}

/// The bottle of a formula's current stable version.
pub open spec fn current_id(formula: Formula) -> BottleId {
    BottleId { name: formula.name@, version: formula.versions.stable@ }
}

/// The bottle of a formula's current stable version.
pub fn current_ref(formula: &Formula) -> (bottle: BottleRef)
    ensures
        bottle@ == current_id(*formula),
{
    BottleRef { name: formula.name.clone(), version: formula.versions.stable.clone() }
}

/// The forest after `name` was asked for: the bottle of the formula that
/// `name` stands for joins as a root, unless a bottle of that formula is
/// there already.
pub open spec fn add_one(index: Seq<Formula>, forest: Forest, name: Seq<char>) -> Result<
    Forest,
    Failure,
> {
    match position(index, name) {
        None => Err(Failure::UnknownFormula(name)),
        Some(p) => {
            let id = current_id(index[p]);
            if has_name(forest.bottles, id.name) {
                Ok(forest)
            } else {
                Ok(
                    Forest {
                        bottles: forest.bottles.insert(id),
                        edges: forest.edges.insert(root_edge(id)),
                    },
                )
            }
        },
    }
}

/// The forest after each of `names` was asked for, from the first on.
pub open spec fn add_all(index: Seq<Formula>, forest: Forest, names: Seq<String>) -> Result<
    Forest,
    Failure,
>
    decreases names.len(),
{
    if names.len() == 0 {
        Ok(forest)
    } else {
        match add_all(index, forest, names.drop_last()) {
            Ok(before) => add_one(index, before, names.last()@),
            Err(failure) => Err(failure),
        }
    }
}

/// The name under which bottles are removed when `alias` is given: the name
/// of the formula that it stands for, or else `alias` itself.
pub open spec fn removal_name(index: Seq<Formula>, alias: Seq<char>) -> Seq<char> {
    match position(index, alias) {
        Some(p) => index[p].name@,
        None => alias,
    }
}

/// The forest after the bottles that `alias` stands for were removed.
pub open spec fn remove_one(index: Seq<Formula>, forest: Forest, alias: Seq<char>) -> Result<
    Forest,
    Failure,
> {
    let name = removal_name(index, alias);
    if has_name(forest.bottles, name) {
        Ok(Forest { bottles: without_name(forest.bottles, name), edges: forest.edges })
    } else if position(index, alias) is Some {
        Err(Failure::NotInstalled(name))
    } else {
        Err(Failure::UnknownFormula(name))
    }
}

/// The forest after the bottles of each of `aliases` were removed, from the
/// first on.
pub open spec fn remove_each(index: Seq<Formula>, forest: Forest, aliases: Seq<String>) -> Result<
    Forest,
    Failure,
>
    decreases aliases.len(),
{
    if aliases.len() == 0 {
        Ok(forest)
    } else {
        match remove_each(index, forest, aliases.drop_last()) {
            Ok(before) => remove_one(index, before, aliases.last()@),
            Err(failure) => Err(failure),
        }
    }
}

/// `id` is a root of the forest: an edge without a dependent leads to it.
pub open spec fn is_root(edges: Set<EdgeId>, id: BottleId) -> bool {
    edges.contains(root_edge(id))
}

/// Some root of the forest has a name that the index does not hold.
pub open spec fn has_unknown_root(index: Seq<Formula>, edges: Set<EdgeId>) -> bool {
    exists|id: BottleId| unknown_root(index, edges, id)
}

/// `id` is a root whose name the index does not hold.
pub open spec fn unknown_root(index: Seq<Formula>, edges: Set<EdgeId>, id: BottleId) -> bool {
    is_root(edges, id) && exact_position(index, id.name) is None
}

/// The position of the formula that a root is updated from.
pub open spec fn updated_position(index: Seq<Formula>, root: BottleId) -> int {
    exact_position(index, root.name).unwrap()
}

/// `id` is the current bottle of the formula of some root.
pub open spec fn is_updated_root(index: Seq<Formula>, edges: Set<EdgeId>, id: BottleId) -> bool {
    exists|root: BottleId| #[trigger]
        is_root(edges, root) && exact_position(index, root.name) == Some(
            updated_position(index, root),
        ) && current_id(index[updated_position(index, root)]) == id
}

/// The forest that an update starts from: the roots alone, each at the
/// current version of its formula.
pub open spec fn updated(index: Seq<Formula>, forest: Forest) -> Forest {
    Forest {
        bottles: Set::new(|id: BottleId| is_updated_root(index, forest.edges, id)),
        edges: Set::new(
            |edge: EdgeId|
                edge.dependent is None && is_updated_root(index, forest.edges, edge.dependency),
        ),
    }
}

/// What one more edge adds to the bottles that an update starts from.
pub proof fn lemma_updated_insert(index: Seq<Formula>, edges: Set<EdgeId>, edge: EdgeId)
    ensures
        updated(index, Forest { bottles: Set::empty(), edges: edges.insert(edge) }).bottles == (
        if edge.dependent is None && exact_position(index, edge.dependency.name) is Some {
            updated(index, Forest { bottles: Set::empty(), edges }).bottles.insert(
                current_id(index[updated_position(index, edge.dependency)]),
            )
        } else {
            updated(index, Forest { bottles: Set::empty(), edges }).bottles
        }),
{
    let more = edges.insert(edge);
    let before = updated(index, Forest { bottles: Set::empty(), edges }).bottles;
    let after = updated(index, Forest { bottles: Set::empty(), edges: more }).bottles;
    let adds = edge.dependent is None && exact_position(index, edge.dependency.name) is Some;
    let expected = if adds {
        before.insert(current_id(index[updated_position(index, edge.dependency)]))
    } else {
        before
    };
    assert forall|id: BottleId| after.contains(id) == expected.contains(id) by {
        if after.contains(id) {
            let root = choose|root: BottleId| #[trigger]
                is_root(more, root) && exact_position(index, root.name) == Some(
                    updated_position(index, root),
                ) && current_id(index[updated_position(index, root)]) == id;
            if root_edge(root) == edge {
                assert(root == edge.dependency);
            } else {
                assert(is_root(edges, root));
                assert(is_updated_root(index, edges, id));
            }
        }
        if before.contains(id) {
            let root = choose|root: BottleId| #[trigger]
                is_root(edges, root) && exact_position(index, root.name) == Some(
                    updated_position(index, root),
                ) && current_id(index[updated_position(index, root)]) == id;
            assert(is_root(more, root));
        }
        if adds && id == current_id(index[updated_position(index, edge.dependency)]) {
            assert(edge == root_edge(edge.dependency));
            assert(is_root(more, edge.dependency));
        }
    }
    assert(after =~= expected);
}

/// The set of edges that a list holds.
pub open spec fn edge_ids(edges: Seq<Edge>) -> Set<EdgeId> {
    Set::new(|id: EdgeId| exists|i: int| 0 <= i < edges.len() && (#[trigger] edges[i])@ == id)
}

/// Comparison of two edges: by dependent, an edge without one first, then
/// by dependency.
pub open spec fn edge_order(a: EdgeId, b: EdgeId) -> Order {
    match (a.dependent, b.dependent) {
        (None, None) => id_order(a.dependency, b.dependency),
        (None, Some(_)) => Order::Less,
        (Some(_), None) => Order::Greater,
        (Some(x), Some(y)) => match id_order(x, y) {
            Order::Equal => id_order(a.dependency, b.dependency),
            other => other,
        },
    }
}

/// `a` sorts strictly before `b`.
pub open spec fn edge_lt(a: EdgeId, b: EdgeId) -> bool {
    edge_order(a, b) == Order::Less
}

/// The edges increase strictly from each to the next, so that none stands
/// twice.
pub open spec fn sorted_edges(edges: Seq<Edge>) -> bool {
    forall|i: int, j: int|
        0 <= i < j < edges.len() ==> edge_lt(#[trigger] edges[i]@, #[trigger] edges[j]@)
}

/// Two edges compare equal exactly when they are the same.
pub proof fn lemma_edge_order_equal(a: EdgeId, b: EdgeId)
    ensures
        edge_order(a, b) == Order::Equal <==> a == b,
{
    lemma_id_order_equal(a.dependency, b.dependency);
    match (a.dependent, b.dependent) {
        (Some(x), Some(y)) => {
            lemma_id_order_equal(x, y);
        },
        _ => {},
    }
}

/// Comparing the other way round turns the outcome round.
pub proof fn lemma_edge_order_flip(a: EdgeId, b: EdgeId)
    ensures
        edge_order(a, b) == Order::Less <==> edge_order(b, a) == Order::Greater,
        edge_order(a, b) == Order::Equal <==> edge_order(b, a) == Order::Equal,
{
    lemma_id_order_flip(a.dependency, b.dependency);
    match (a.dependent, b.dependent) {
        (Some(x), Some(y)) => {
            lemma_id_order_flip(x, y);
        },
        _ => {},
    }
}

/// What sorts before something that sorts before a third sorts before the
/// third.
pub proof fn lemma_edge_lt_trans(a: EdgeId, b: EdgeId, c: EdgeId)
    requires
        edge_lt(a, b),
        edge_lt(b, c),
    ensures
        edge_lt(a, c),
{
    match (a.dependent, b.dependent, c.dependent) {
        (Some(x), Some(y), Some(z)) => {
            lemma_id_order_equal(x, y);
            lemma_id_order_equal(y, z);
            lemma_id_order_equal(x, z);
            if id_order(x, y) == Order::Less && id_order(y, z) == Order::Less {
                lemma_id_lt_trans(x, y, z);
            } else if id_order(x, y) == Order::Equal && id_order(y, z) == Order::Equal {
                lemma_id_lt_trans(a.dependency, b.dependency, c.dependency);
            }
        },
        (None, None, None) => {
            lemma_id_lt_trans(a.dependency, b.dependency, c.dependency);
        },
        _ => {},
    }
}

/// A list with one more edge holds one more edge.
pub proof fn lemma_edge_ids_push(edges: Seq<Edge>, edge: Edge)
    ensures
        edge_ids(edges.push(edge)) == edge_ids(edges).insert(edge@),
{
    let longer = edges.push(edge);
    assert forall|id: EdgeId| edge_ids(longer).contains(id) == edge_ids(edges).insert(
        edge@,
    ).contains(id) by {
        if edge_ids(longer).contains(id) {
            let i = choose|i: int| 0 <= i < longer.len() && (#[trigger] longer[i])@ == id;
            if i < edges.len() {
                assert(edges[i]@ == id);
            }
        }
        if edge_ids(edges).contains(id) {
            let i = choose|i: int| 0 <= i < edges.len() && (#[trigger] edges[i])@ == id;
            assert(longer[i]@ == id);
        }
        if id == edge@ {
            assert(longer[edges.len() as int]@ == id);
        }
    }
    assert(edge_ids(longer) =~= edge_ids(edges).insert(edge@));
}

/// Copies a list of edges.
pub fn copy_edges(edges: &Vec<Edge>) -> (copy: Vec<Edge>)
    requires
        sorted_edges(edges@),
    ensures
        sorted_edges(copy@),
        edge_ids(copy@) == edge_ids(edges@),
        copy@.len() == edges@.len(),
        forall|i: int| 0 <= i < edges@.len() ==> (#[trigger] copy@[i])@ == edges@[i]@,
{
    let mut copy: Vec<Edge> = Vec::new();
    let mut i: usize = 0;
    while i < edges.len()
        invariant
            i <= edges@.len(),
            copy@.len() == i,
            forall|k: int| 0 <= k < i ==> (#[trigger] copy@[k])@ == edges@[k]@,
        decreases edges@.len() - i,
    {
        copy.push(edges[i].clone());
        i += 1;
    }
    proof {
        assert forall|a: int, b: int| 0 <= a < b < copy@.len() implies edge_lt(
            #[trigger] copy@[a]@,
            #[trigger] copy@[b]@,
        ) by {
            assert(edge_lt(edges@[a]@, edges@[b]@));
        }
        assert forall|id: EdgeId| edge_ids(copy@).contains(id) == edge_ids(edges@).contains(
            id,
        ) by {
            if edge_ids(copy@).contains(id) {
                let k = choose|k: int| 0 <= k < copy@.len() && (#[trigger] copy@[k])@ == id;
                assert(edges@[k]@ == id);
            }
            if edge_ids(edges@).contains(id) {
                let k = choose|k: int| 0 <= k < edges@.len() && (#[trigger] edges@[k])@ == id;
                assert(copy@[k]@ == id);
            }
        }
        assert(edge_ids(copy@) =~= edge_ids(edges@));
    }
    copy
}

/// The edges among the leading `n` of the list whose flag is set.
pub open spec fn flagged_edge_ids(edges: Seq<Edge>, keep: Seq<bool>, n: int) -> Set<EdgeId> {
    Set::new(|id: EdgeId| exists|j: int| 0 <= j < n && keep[j] && (#[trigger] edges[j])@ == id)
}

/// The position `j` is among `positions`.
pub open spec fn listed(positions: Seq<usize>, j: int) -> bool {
    exists|x: int| 0 <= x < positions.len() && #[trigger] positions[x] == j
}

/// Copies out the edges whose flag is set, in order, and says for each at
/// which position it stood.
pub fn keep_flagged_edges(edges: &Vec<Edge>, keep: &Vec<bool>) -> (kept: (Vec<Edge>, Vec<usize>))
    requires
        sorted_edges(edges@),
        keep@.len() == edges@.len(),
    ensures
        sorted_edges(kept.0@),
        kept.0@.len() == kept.1@.len(),
        forall|x: int|
            0 <= x < kept.1@.len() ==> (#[trigger] kept.1@[x]) < edges@.len() && keep@[kept.1@[x] as int]
                && kept.0@[x]@ == edges@[kept.1@[x] as int]@,
        forall|j: int|
            0 <= j < edges@.len() && #[trigger] keep@[j] ==> listed(kept.1@, j),
        edge_ids(kept.0@) == flagged_edge_ids(edges@, keep@, edges@.len() as int),
{
    let mut kept: Vec<Edge> = Vec::new();
    let mut from: Vec<usize> = Vec::new();
    let mut j: usize = 0;
    while j < edges.len()
        invariant
            j <= edges@.len(),
            keep@.len() == edges@.len(),
            sorted_edges(edges@),
            kept@.len() == from@.len(),
            forall|x: int|
                0 <= x < from@.len() ==> (#[trigger] from@[x]) < j && keep@[from@[x] as int]
                    && kept@[x]@ == edges@[from@[x] as int]@,
            forall|x: int, y: int| 0 <= x < y < from@.len() ==> from@[x] < from@[y],
            forall|i: int| 0 <= i < j && #[trigger] keep@[i] ==> listed(from@, i),
        decreases edges@.len() - j,
    {
        if keep[j] {
            let ghost had = from@;
            let ghost had_kept = kept@;
            kept.push(edges[j].clone());
            from.push(j);
            proof {
                let last = had.len() as int;
                assert(from@[last] == j);
                assert forall|x: int| 0 <= x < from@.len() implies (#[trigger] from@[x]) < j + 1
                    && keep@[from@[x] as int] && kept@[x]@ == edges@[from@[x] as int]@ by {
                    if x < last {
                        assert(from@[x] == had[x]);
                        assert(kept@[x] == had_kept[x]);
                    }
                }
                assert forall|x: int, y: int| 0 <= x < y < from@.len() implies from@[x] < from@[y] by {
                    assert(from@[x] == had[x]);
                    if y < last {
                        assert(from@[y] == had[y]);
                    }
                }
                assert forall|i: int| 0 <= i < j + 1 && #[trigger] keep@[i] implies listed(
                    from@,
                    i,
                ) by {
                    if i < j {
                        assert(listed(had, i));
                        let x = choose|x: int| 0 <= x < had.len() && #[trigger] had[x] == i;
                        assert(from@[x] == i);
                    } else {
                        assert(from@[last] == i);
                    }
                }
            }
        }
        j += 1;
    }
    proof {
        assert forall|x: int, y: int| 0 <= x < y < kept@.len() implies edge_lt(
            #[trigger] kept@[x]@,
            #[trigger] kept@[y]@,
        ) by {
            assert(from@[x] < from@[y]);
            assert(edge_lt(edges@[from@[x] as int]@, edges@[from@[y] as int]@));
        }
        let wanted = flagged_edge_ids(edges@, keep@, edges@.len() as int);
        assert forall|id: EdgeId| edge_ids(kept@).contains(id) == wanted.contains(id) by {
            if edge_ids(kept@).contains(id) {
                let x = choose|x: int| 0 <= x < kept@.len() && (#[trigger] kept@[x])@ == id;
                assert(from@[x] < edges@.len());
                assert(edges@[from@[x] as int]@ == id);
            }
            if wanted.contains(id) {
                let i = choose|i: int|
                    0 <= i < edges@.len() && keep@[i] && (#[trigger] edges@[i])@ == id;
                assert(listed(from@, i));
                let x = choose|x: int| 0 <= x < from@.len() && #[trigger] from@[x] == i;
                assert(kept@[x]@ == id);
            }
        }
        assert(edge_ids(kept@) =~= wanted);
    }
    (kept, from)
}

/// Compares two edges: by dependent, an edge without one first, then by
/// dependency.
pub fn compare_edges(a: &Edge, b: &Edge) -> (order: Order)
    ensures
        order == edge_order(a@, b@),
        order == Order::Equal <==> a@ == b@,
{
    proof {
        lemma_edge_order_equal(a@, b@);
    }
    match (&a.dependent, &b.dependent) {
        (None, None) => compare_refs(&a.dependency, &b.dependency),
        (None, Some(_)) => Order::Less,
        (Some(_), None) => Order::Greater,
        (Some(x), Some(y)) => match compare_refs(x, y) {
            Order::Equal => compare_refs(&a.dependency, &b.dependency),
            other => other,
        },
    }
}

/// The first position at which `key` could stand in the sorted list.
fn edge_lower_bound(edges: &Vec<Edge>, key: &Edge) -> (at: usize)
    requires
        sorted_edges(edges@),
    ensures
        at <= edges@.len(),
        forall|j: int| 0 <= j < at ==> edge_lt(#[trigger] edges@[j]@, key@),
        forall|j: int| at <= j < edges@.len() ==> !edge_lt(#[trigger] edges@[j]@, key@),
{
    let mut lo: usize = 0;
    let mut hi: usize = edges.len();
    while lo < hi
        invariant
            lo <= hi <= edges@.len(),
            sorted_edges(edges@),
            forall|j: int| 0 <= j < lo ==> edge_lt(#[trigger] edges@[j]@, key@),
            forall|j: int| hi <= j < edges@.len() ==> !edge_lt(#[trigger] edges@[j]@, key@),
        decreases hi - lo,
    {
        let mid = lo + (hi - lo) / 2;
        if compare_edges(&edges[mid], key) == Order::Less {
            proof {
                assert forall|j: int| 0 <= j < mid + 1 implies edge_lt(
                    #[trigger] edges@[j]@,
                    key@,
                ) by {
                    if j < mid {
                        lemma_edge_lt_trans(edges@[j]@, edges@[mid as int]@, key@);
                    }
                }
            }
            lo = mid + 1;
        } else {
            proof {
                assert forall|j: int| mid <= j < edges@.len() implies !edge_lt(
                    #[trigger] edges@[j]@,
                    key@,
                ) by {
                    if mid < j && edge_lt(edges@[j]@, key@) {
                        lemma_edge_lt_trans(edges@[mid as int]@, edges@[j]@, key@);
                    }
                }
            }
            hi = mid;
        }
    }
    lo
}

/// Adds `edge` to the sorted list unless it is there already.
pub fn insert_edge(edges: &mut Vec<Edge>, edge: Edge)
    requires
        sorted_edges(old(edges)@),
    ensures
        sorted_edges(final(edges)@),
        edge_ids(final(edges)@) == edge_ids(old(edges)@).insert(edge@),
{
    let at = edge_lower_bound(edges, &edge);
    if at < edges.len() && compare_edges(&edges[at], &edge) == Order::Equal {
        assert(edge_ids(edges@).insert(edge@) =~= edge_ids(edges@));
        return ;
    }
    let ghost before = edges@;
    let ghost id = edge@;
    proof {
        assert forall|j: int| at <= j < before.len() implies edge_lt(id, #[trigger] before[j]@) by {
            lemma_edge_order_flip(before[j]@, id);
            lemma_edge_order_flip(id, before[j]@);
            lemma_edge_order_equal(before[j]@, id);
            if j > at {
                lemma_edge_order_flip(before[at as int]@, id);
                lemma_edge_order_equal(before[at as int]@, id);
                if before[j]@ == id {
                    assert(edge_lt(before[at as int]@, before[j]@));
                }
            }
        }
    }
    edges.insert(at, edge);
    proof {
        let after = edges@;
        assert(forall|j: int| 0 <= j < at ==> after[j] == before[j]);
        assert(after[at as int]@ == id);
        assert(forall|j: int| at < j < after.len() ==> after[j] == before[j - 1]);
        assert forall|k: EdgeId| edge_ids(after).contains(k) == edge_ids(before).insert(
            id,
        ).contains(k) by {
            if edge_ids(after).contains(k) {
                let i = choose|i: int| 0 <= i < after.len() && (#[trigger] after[i])@ == k;
                if i < at {
                    assert(before[i]@ == k);
                } else if i > at {
                    assert(before[i - 1]@ == k);
                }
            }
            if edge_ids(before).contains(k) {
                let i = choose|i: int| 0 <= i < before.len() && (#[trigger] before[i])@ == k;
                if i < at {
                    assert(after[i]@ == k);
                } else {
                    assert(after[i + 1]@ == k);
                }
            }
            if k == id {
                assert(after[at as int]@ == k);
            }
        }
        assert(edge_ids(after) =~= edge_ids(before).insert(id));
    }
}

} // verus!
