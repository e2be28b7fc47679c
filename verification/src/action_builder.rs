//! Planning: from the catalog as it is, and a request, to the bottles to add
//! and to remove.

use vstd::prelude::*;
use crate::bottle_set::{
    copy_refs, difference, first_named, ids, insert_ref, lemma_ids_of_empty, remove_named,
    sorted_refs, BottleId, BottleRef,
};
use crate::closure::{add_dependencies, closed_bottles, closed_edges, unresolved};
use crate::db::models::{Dependency, DownloadedBottle};
use crate::error::{Error, Failure};
use crate::forest::{
    add_all, add_one, copy_edges, current_ref, sorted_edges, edge_ids, has_unknown_root,
    insert_edge, is_updated_root, lemma_edge_ids_push, lemma_updated_insert, removal_name,
    remove_each, remove_one, root_edge, unknown_root, updated, Edge, EdgeId, Forest,
};
use crate::formulae::{exact_position, lemma_position_in_range, position, Formula, FormulaIndex};
use crate::orphans::{pruned, remove_orphans};
use crate::text::same_str;

verus! {

/// The bottle that a catalog row records.
pub open spec fn row_id(row: DownloadedBottle) -> BottleId {
    BottleId { name: row.spec_name(), version: row.spec_version() }
}

/// The position of the first of the leading `n` rows with the given id.
pub open spec fn find_row(rows: Seq<DownloadedBottle>, id: i32, n: nat) -> Option<int>
    decreases n,
{
    if n == 0 {
        None
    } else {
        match find_row(rows, id, (n - 1) as nat) {
            Some(i) => Some(i),
            None => if rows[n - 1].spec_id() == id {
                Some(n - 1)
            } else {
                None
            },
        }
    }
}

/// The position of the row with the given id.
pub open spec fn row_position(rows: Seq<DownloadedBottle>, id: i32) -> Option<int> {
    find_row(rows, id, rows.len())
}

/// What `find_row` finds is the first row with the id, and it finds one if
/// there is one.
pub proof fn lemma_find_row(rows: Seq<DownloadedBottle>, id: i32, n: nat)
    requires
        n <= rows.len(),
    ensures
        match find_row(rows, id, n) {
            Some(i) => 0 <= i < n && rows[i].spec_id() == id && forall|j: int|
                0 <= j < i ==> rows[j].spec_id() != id,
            None => forall|j: int| 0 <= j < n ==> rows[j].spec_id() != id,
        },
    decreases n,
{
    if n > 0 {
        lemma_find_row(rows, id, (n - 1) as nat);
    }
}

/// The bottles that the leading `n` rows record.
pub open spec fn row_ids(rows: Seq<DownloadedBottle>, n: int) -> Set<BottleId> {
    Set::new(|id: BottleId| exists|k: int| 0 <= k < n && row_id(#[trigger] rows[k]) == id)
}

/// Both ends of a dependency row are the ids of bottle rows.
pub open spec fn resolvable(rows: Seq<DownloadedBottle>, dependency: Dependency) -> bool {
    &&& row_position(rows, dependency.spec_dependency_id()) is Some
    &&& dependency.spec_dependent_id() matches Some(parent) ==> row_position(rows, parent) is Some
}

/// The edge that a dependency row records.
pub open spec fn dependency_edge(rows: Seq<DownloadedBottle>, dependency: Dependency) -> EdgeId {
    EdgeId {
        dependent: match dependency.spec_dependent_id() {
            Some(parent) => Some(row_id(rows[row_position(rows, parent).unwrap()])),
            None => None,
        },
        dependency: row_id(rows[row_position(rows, dependency.spec_dependency_id()).unwrap()]),
    }
}

/// The edges that the leading `n` dependency rows record.
pub open spec fn dependency_edges(
    rows: Seq<DownloadedBottle>,
    dependencies: Seq<Dependency>,
    n: int,
) -> Set<EdgeId> {
    Set::new(
        |edge: EdgeId|
            exists|k: int| 0 <= k < n && dependency_edge(rows, #[trigger] dependencies[k]) == edge,
    )
}

/// No two rows record the same bottle, and every dependency row joins rows
/// that exist.
pub open spec fn consistent(rows: Seq<DownloadedBottle>, dependencies: Seq<Dependency>) -> bool {
    &&& forall|i: int, j: int|
        0 <= i < j < rows.len() ==> row_id(#[trigger] rows[i]) != row_id(#[trigger] rows[j])
    &&& forall|k: int| 0 <= k < dependencies.len() ==> resolvable(rows, #[trigger] dependencies[k])
}

/// The forest that the catalog records.
pub open spec fn catalog_forest(rows: Seq<DownloadedBottle>, dependencies: Seq<Dependency>) -> Forest {
    Forest {
        bottles: row_ids(rows, rows.len() as int),
        edges: dependency_edges(rows, dependencies, dependencies.len() as int),
    }
}

proof fn lemma_row_ids_step(rows: Seq<DownloadedBottle>, n: int)
    requires
        0 <= n < rows.len(),
    ensures
        row_ids(rows, n + 1) == row_ids(rows, n).insert(row_id(rows[n])),
{
    let stepped = row_ids(rows, n + 1);
    let expected = row_ids(rows, n).insert(row_id(rows[n]));
    assert forall|id: BottleId| stepped.contains(id) == expected.contains(id) by {
        if stepped.contains(id) {
            let k = choose|k: int| 0 <= k < n + 1 && row_id(#[trigger] rows[k]) == id;
            if k < n {
                assert(row_ids(rows, n).contains(id));
            }
        }
        if row_ids(rows, n).contains(id) {
            let k = choose|k: int| 0 <= k < n && row_id(#[trigger] rows[k]) == id;
            assert(0 <= k < n + 1 && row_id(rows[k]) == id);
        }
        if id == row_id(rows[n]) {
            assert(0 <= n < n + 1 && row_id(rows[n]) == id);
        }
    }
    assert(stepped =~= expected);
}

proof fn lemma_dependency_edges_step(
    rows: Seq<DownloadedBottle>,
    dependencies: Seq<Dependency>,
    n: int,
)
    requires
        0 <= n < dependencies.len(),
    ensures
        dependency_edges(rows, dependencies, n + 1) == dependency_edges(
            rows,
            dependencies,
            n,
        ).insert(dependency_edge(rows, dependencies[n])),
{
    let stepped = dependency_edges(rows, dependencies, n + 1);
    let expected = dependency_edges(rows, dependencies, n).insert(
        dependency_edge(rows, dependencies[n]),
    );
    assert forall|edge: EdgeId| stepped.contains(edge) == expected.contains(edge) by {
        if stepped.contains(edge) {
            let k = choose|k: int|
                0 <= k < n + 1 && dependency_edge(rows, #[trigger] dependencies[k]) == edge;
            if k < n {
                assert(dependency_edges(rows, dependencies, n).contains(edge));
            }
        }
        if dependency_edges(rows, dependencies, n).contains(edge) {
            let k = choose|k: int|
                0 <= k < n && dependency_edge(rows, #[trigger] dependencies[k]) == edge;
            assert(0 <= k < n + 1 && dependency_edge(rows, dependencies[k]) == edge);
        }
        if edge == dependency_edge(rows, dependencies[n]) {
            assert(0 <= n < n + 1 && dependency_edge(rows, dependencies[n]) == edge);
        }
    }
    assert(stepped =~= expected);
}

/// The position of the row with the given id.
pub fn row_with_id(rows: &Vec<DownloadedBottle>, id: i32) -> (found: Option<usize>)
    ensures
        found matches Some(i) ==> i < rows@.len(),
        row_position(rows@, id) == match found {
            Some(i) => Some(i as int),
            None => None,
        },
{
    let mut i: usize = 0;
    while i < rows.len()
        invariant
            i <= rows@.len(),
            forall|j: int| 0 <= j < i ==> rows@[j].spec_id() != id,
        decreases rows@.len() - i,
    {
        if rows[i].id() == id {
            proof {
                lemma_find_row(rows@, id, rows@.len());
            }
            return Some(i);
        }
        i += 1;
    }
    proof {
        lemma_find_row(rows@, id, rows@.len());
    }
    None
}

fn ref_of_row(row: &DownloadedBottle) -> (bottle: BottleRef)
    ensures
        bottle@ == row_id(*row),
{
    BottleRef { name: row.name().to_owned(), version: row.version().to_owned() }
}

/// The catalog as it stood when planning began.
#[derive(Debug)]
pub struct BottleForestSnapshot {
    bottles: Vec<DownloadedBottle>,
    dependencies: Vec<Dependency>,
    refs: Vec<BottleRef>,
    edges: Vec<Edge>,
}

impl BottleForestSnapshot {
    /// The bottle rows of the snapshot.
    pub closed spec fn rows(&self) -> Seq<DownloadedBottle> {
        self.bottles@
    }

    /// The dependency rows of the snapshot.
    pub closed spec fn dependency_rows(&self) -> Seq<Dependency> {
        self.dependencies@
    }

    /// The forest that the snapshot records.
    pub open spec fn forest(&self) -> Forest {
        catalog_forest(self.rows(), self.dependency_rows())
    }

    /// The rows are consistent, and the bottles and edges that they record
    /// are at hand.
    pub closed spec fn wf(&self) -> bool {
        &&& consistent(self.bottles@, self.dependencies@)
        &&& sorted_refs(self.refs@)
        &&& sorted_edges(self.edges@)
        &&& ids(self.refs@) == self.forest().bottles
        &&& edge_ids(self.edges@) == self.forest().edges
    }

    /// The bottle rows of the snapshot.
    pub fn bottles(&self) -> (rows: &Vec<DownloadedBottle>)
        ensures
            rows@ == self.rows(),
            self.wf() ==> consistent(self.rows(), self.dependency_rows()),
    {
        &self.bottles
    }

    /// The dependency rows of the snapshot.
    pub fn dependencies(&self) -> (rows: &Vec<Dependency>)
        ensures
            rows@ == self.dependency_rows(),
    {
        &self.dependencies
    }

    /// The bottles of the snapshot, sorted.
    pub fn refs(&self) -> (refs: &Vec<BottleRef>)
        ensures
            self.wf() ==> sorted_refs(refs@) && ids(refs@) == self.forest().bottles,
    {
        &self.refs
    }

    /// Takes the rows that the catalog holds.
    ///
    /// The rows are refused when two of them record the same bottle, or when
    /// a dependency row names a bottle row that is not there.
    pub fn new(bottles: Vec<DownloadedBottle>, dependencies: Vec<Dependency>) -> (snapshot: Result<
        BottleForestSnapshot,
        Error,
    >)
        ensures
            match snapshot {
                Ok(taken) => consistent(bottles@, dependencies@) && taken.wf() && taken.rows()
                    == bottles@ && taken.dependency_rows() == dependencies@,
                Err(e) => !consistent(bottles@, dependencies@) && e@ == Failure::CatalogFailure,
            },
    {
        let mut refs: Vec<BottleRef> = Vec::new();
        let mut i: usize = 0;
        proof {
            assert(ids(refs@) =~= row_ids(bottles@, 0));
        }
        while i < bottles.len()
            invariant
                i <= bottles@.len(),
                sorted_refs(refs@),
                ids(refs@) == row_ids(bottles@, i as int),
                forall|a: int, b: int|
                    0 <= a < b < i ==> row_id(#[trigger] bottles@[a]) != row_id(
                        #[trigger] bottles@[b],
                    ),
            decreases bottles@.len() - i,
        {
            proof {
                lemma_row_ids_step(bottles@, i as int);
            }
            let added = insert_ref(&mut refs, ref_of_row(&bottles[i]));
            if !added {
                proof {
                    let id = row_id(bottles@[i as int]);
                    assert(row_ids(bottles@, i as int).contains(id));
                    let k = choose|k: int| 0 <= k < i && row_id(#[trigger] bottles@[k]) == id;
                    assert(row_id(bottles@[k]) == row_id(bottles@[i as int]));
                }
                return Err(Error::CatalogFailure);
            }
            proof {
                assert forall|a: int, b: int| 0 <= a < b < i + 1 implies row_id(
                    #[trigger] bottles@[a],
                ) != row_id(#[trigger] bottles@[b]) by {
                    if b == i {
                        assert(row_ids(bottles@, i as int).contains(row_id(bottles@[a])));
                    }
                }
            }
            i += 1;
        }
        let mut edges: Vec<Edge> = Vec::new();
        let mut k: usize = 0;
        proof {
            assert(edge_ids(edges@) =~= dependency_edges(bottles@, dependencies@, 0));
        }
        while k < dependencies.len()
            invariant
                k <= dependencies@.len(),
                sorted_edges(edges@),
                edge_ids(edges@) == dependency_edges(bottles@, dependencies@, k as int),
                forall|j: int| 0 <= j < k ==> resolvable(bottles@, #[trigger] dependencies@[j]),
            decreases dependencies@.len() - k,
        {
            proof {
                lemma_dependency_edges_step(bottles@, dependencies@, k as int);
            }
            let child = match row_with_id(&bottles, dependencies[k].dependency_id()) {
                Some(at) => ref_of_row(&bottles[at]),
                None => {
                    assert(!resolvable(bottles@, dependencies@[k as int]));
                    return Err(Error::CatalogFailure);
                },
            };
            let parent = match dependencies[k].dependent_id() {
                Some(id) => match row_with_id(&bottles, id) {
                    Some(at) => Some(ref_of_row(&bottles[at])),
                    None => {
                        assert(!resolvable(bottles@, dependencies@[k as int]));
                        return Err(Error::CatalogFailure);
                    },
                },
                None => None,
            };
            let edge = Edge { dependent: parent, dependency: child };
            assert(edge@ == dependency_edge(bottles@, dependencies@[k as int]));
            insert_edge(&mut edges, edge);
            k += 1;
        }
        Ok(BottleForestSnapshot { bottles, dependencies, refs, edges })
    }
}

/// The working state of planning: the forest to reach, beside the snapshot
/// that it started from.
#[derive(Debug)]
pub struct ActionBuilder<'a> {
    snapshot: &'a BottleForestSnapshot,
    bottles: Vec<BottleRef>,
    dependencies: Vec<Edge>,
}

impl<'a> ActionBuilder<'a> {
    /// The forest that the plan is to reach.
    pub closed spec fn forest(&self) -> Forest {
        Forest { bottles: ids(self.bottles@), edges: edge_ids(self.dependencies@) }
    }

    /// The snapshot that planning started from.
    pub closed spec fn snapshot(&self) -> BottleForestSnapshot {
        *self.snapshot
    }

    /// The snapshot is well formed, and the bottles and the edges are
    /// sorted.
    pub closed spec fn wf(&self) -> bool {
        &&& self.snapshot.wf()
        &&& sorted_refs(self.bottles@)
        &&& sorted_edges(self.dependencies@)
    }

    /// The bottles of the forest, sorted by name and version.
    pub fn bottles(&self) -> (bottles: &Vec<BottleRef>)
        ensures
            ids(bottles@) == self.forest().bottles,
            self.wf() ==> sorted_refs(bottles@),
    {
        &self.bottles
    }

    /// The edges of the forest, sorted: roots first, then by dependent and
    /// dependency.
    pub fn dependencies(&self) -> (edges: &Vec<Edge>)
        ensures
            edge_ids(edges@) == self.forest().edges,
            self.wf() ==> sorted_edges(edges@),
    {
        &self.dependencies
    }

    /// Starts planning from the forest that the snapshot records.
    pub fn new(snapshot: &'a BottleForestSnapshot) -> (builder: Self)
        requires
            snapshot.wf(),
        ensures
            builder.wf(),
            builder.snapshot() == *snapshot,
            builder.forest() == snapshot.forest(),
    {
        ActionBuilder {
            snapshot,
            bottles: copy_refs(&snapshot.refs),
            dependencies: copy_edges(&snapshot.edges),
        }
    }

    /// Asks for each of `bottles`, by name or alias, as a root.
    ///
    /// A name whose formula already has a bottle in the forest changes
    /// nothing. A name that the index does not know fails the whole
    /// request.
    pub fn add_bottles(self, index: &FormulaIndex, bottles: &[String]) -> (added: Result<
        Self,
        Error,
    >)
        requires
            self.wf(),
            index.wf(),
        ensures
            match add_all(index@, self.forest(), bottles@) {
                Ok(forest) => added matches Ok(builder) && builder.wf() && builder.forest()
                    == forest && builder.snapshot() == self.snapshot(),
                Err(failure) => added matches Err(e) && e@ == failure,
            },
    {
        let ghost start = self.forest();
        let mut builder = self;
        let mut i: usize = 0;
        proof {
            assert(bottles@.take(0) =~= Seq::<String>::empty());
        }
        while i < bottles.len()
            invariant
                i <= bottles@.len(),
                index.wf(),
                builder.wf(),
                builder.snapshot() == self.snapshot(),
                start == self.forest(),
                add_all(index@, start, bottles@.take(i as int)) == Ok::<Forest, Failure>(
                    builder.forest(),
                ),
            decreases bottles@.len() - i,
        {
            proof {
                assert(bottles@.take(i + 1).drop_last() =~= bottles@.take(i as int));
                assert(bottles@.take(i + 1).last() == bottles@[i as int]);
                lemma_position_in_range(index@, bottles@[i as int]@);
            }
            let ghost before = builder.forest();
            assert(add_all(index@, start, bottles@.take(i + 1)) == add_one(
                index@,
                before,
                bottles@[i as int]@,
            ));
            let formula = match index.position(bottles[i].as_str()) {
                Some(p) => index.at(p),
                None => {
                    proof {
                        lemma_add_all_prefix_failure(index@, start, bottles@, i + 1);
                    }
                    return Err(Error::UnknownFormula(bottles[i].clone()));
                },
            };
            if first_named(&builder.bottles, formula.name.as_str()).is_none() {
                insert_ref(&mut builder.bottles, current_ref(formula));
                insert_edge(
                    &mut builder.dependencies,
                    Edge { dependent: None, dependency: current_ref(formula) },
                );
            }
            proof {
                let expected = add_one(index@, before, bottles@[i as int]@);
                assert(expected is Ok);
                assert(expected->Ok_0.bottles =~= builder.forest().bottles);
                assert(expected->Ok_0.edges =~= builder.forest().edges);
                assert(expected->Ok_0 =~= builder.forest());
            }
            i += 1;
        }
        proof {
            assert(bottles@.take(bottles@.len() as int) =~= bottles@);
        }
        Ok(builder)
    }

    /// Removes every bottle from the forest.
    pub fn remove_all(self) -> (cleared: Self)
        requires
            self.wf(),
        ensures
            cleared.wf(),
            cleared.snapshot() == self.snapshot(),
            cleared.forest() == (Forest {
                bottles: Set::<BottleId>::empty(),
                edges: self.forest().edges,
            }),
    {
        let mut builder = self;
        builder.bottles = Vec::new();
        proof {
            assert(ids(builder.bottles@) =~= Set::<BottleId>::empty());
        }
        builder
    }

    /// Removes the bottles that each of `bottles` stands for.
    ///
    /// An alias is taken for the name of its formula; a text that the index
    /// does not know is taken for a name. Where no bottle of that name is in
    /// the forest the whole request fails: with `NotInstalled` if the index
    /// knows the formula, with `UnknownFormula` if it does not.
    pub fn remove_bottles(self, index: &FormulaIndex, bottles: &[String]) -> (removed: Result<
        Self,
        Error,
    >)
        requires
            self.wf(),
            index.wf(),
        ensures
            match remove_each(index@, self.forest(), bottles@) {
                Ok(forest) => removed matches Ok(builder) && builder.wf() && builder.forest()
                    == forest && builder.snapshot() == self.snapshot(),
                Err(failure) => removed matches Err(e) && e@ == failure,
            },
    {
        let ghost start = self.forest();
        let mut builder = self;
        let mut i: usize = 0;
        proof {
            assert(bottles@.take(0) =~= Seq::<String>::empty());
        }
        while i < bottles.len()
            invariant
                i <= bottles@.len(),
                index.wf(),
                builder.wf(),
                builder.snapshot() == self.snapshot(),
                start == self.forest(),
                remove_each(index@, start, bottles@.take(i as int)) == Ok::<Forest, Failure>(
                    builder.forest(),
                ),
            decreases bottles@.len() - i,
        {
            proof {
                assert(bottles@.take(i + 1).drop_last() =~= bottles@.take(i as int));
                assert(bottles@.take(i + 1).last() == bottles@[i as int]);
                lemma_position_in_range(index@, bottles@[i as int]@);
            }
            let ghost before = builder.forest();
            assert(remove_each(index@, start, bottles@.take(i + 1)) == remove_one(
                index@,
                before,
                bottles@[i as int]@,
            ));
            let formula = index.position(bottles[i].as_str());
            let name = match formula {
                Some(p) => index.at(p).name.as_str(),
                None => bottles[i].as_str(),
            };
            assert(name@ == removal_name(index@, bottles@[i as int]@));
            if first_named(&builder.bottles, name).is_none() {
                proof {
                    lemma_remove_each_prefix_failure(index@, start, bottles@, i + 1);
                }
                if formula.is_some() {
                    return Err(Error::NotInstalled(name.to_owned()));
                } else {
                    return Err(Error::UnknownFormula(name.to_owned()));
                }
            }
            builder.bottles = remove_named(&builder.bottles, name);
            proof {
                let expected = remove_one(index@, before, bottles@[i as int]@);
                assert(expected is Ok);
                assert(expected->Ok_0 =~= builder.forest());
            }
            i += 1;
        }
        proof {
            assert(bottles@.take(bottles@.len() as int) =~= bottles@);
        }
        Ok(builder)
    }

    /// Starts the forest over from its roots: each root is replaced by the
    /// current bottle of its formula, and every other bottle and edge is
    /// dropped.
    ///
    /// Fails with `UnknownFormula` when the index no longer holds the
    /// formula of some root; the error names such a root.
    pub fn update(self, index: &FormulaIndex) -> (renewed: Result<Self, Error>)
        requires
            self.wf(),
            index.wf(),
        ensures
            match renewed {
                Ok(builder) => !has_unknown_root(index@, self.forest().edges) && builder.wf()
                    && builder.forest() == updated(index@, self.forest()) && builder.snapshot()
                    == self.snapshot(),
                Err(e) => exists|root: BottleId|
                    unknown_root(index@, self.forest().edges, root) && e@
                        == Failure::UnknownFormula(root.name),
            },
    {
        let mut bottles: Vec<BottleRef> = Vec::new();
        let mut edges: Vec<Edge> = Vec::new();
        let ghost all = self.dependencies@;
        let mut k: usize = 0;
        proof {
            assert(all.take(0) =~= Seq::<Edge>::empty());
            assert(edge_ids(all.take(0)) =~= Set::<EdgeId>::empty());
            assert(ids(bottles@) =~= updated(index@, forest_of(edge_ids(all.take(0)))).bottles);
            assert(edge_ids(edges@) =~= updated(index@, forest_of(edge_ids(all.take(0)))).edges);
        }
        while k < self.dependencies.len()
            invariant
                k <= all.len(),
                all == self.dependencies@,
                index.wf(),
                sorted_refs(bottles@),
                sorted_edges(edges@),
                ids(bottles@) == updated(index@, forest_of(edge_ids(all.take(k as int)))).bottles,
                edge_ids(edges@) == updated(index@, forest_of(edge_ids(all.take(k as int)))).edges,
                forall|root: BottleId| !unknown_root(index@, edge_ids(all.take(k as int)), root),
            decreases all.len() - k,
        {
            let edge = &self.dependencies[k];
            let ghost seen = edge_ids(all.take(k as int));
            proof {
                assert(all.take(k + 1) =~= all.take(k as int).push(all[k as int]));
                lemma_edge_ids_push(all.take(k as int), all[k as int]);
                lemma_updated_insert(index@, seen, edge@);
                lemma_position_in_range(index@, edge.dependency.name@);
            }
            if edge.dependent.is_none() {
                match index.position_exact(edge.dependency.name.as_str()) {
                    Some(p) => {
                        insert_ref(&mut bottles, current_ref(index.at(p)));
                        insert_edge(
                            &mut edges,
                            Edge { dependent: None, dependency: current_ref(index.at(p)) },
                        );
                    },
                    None => {
                        proof {
                            let root = edge.dependency@;
                            assert(edge@ == root_edge(root));
                            assert(edge_ids(all).contains(all[k as int]@));
                            assert(unknown_root(index@, self.forest().edges, root));
                        }
                        return Err(Error::UnknownFormula(edge.dependency.name.clone()));
                    },
                }
            }
            proof {
                let more = seen.insert(edge@);
                assert forall|root: BottleId| !unknown_root(index@, more, root) by {
                    if unknown_root(index@, more, root) {
                        if root_edge(root) == edge@ {
                            assert(root == edge.dependency@);
                        } else {
                            assert(unknown_root(index@, seen, root));
                        }
                    }
                }
                assert(ids(bottles@) == updated(index@, forest_of(more)).bottles);
                assert forall|id: EdgeId| edge_ids(edges@).contains(id) == updated(
                    index@,
                    forest_of(more),
                ).edges.contains(id) by {
                    assert(updated(index@, forest_of(more)).bottles.contains(id.dependency)
                        == is_updated_root(index@, more, id.dependency));
                    assert(updated(index@, forest_of(seen)).bottles.contains(id.dependency)
                        == is_updated_root(index@, seen, id.dependency));
                    assert(updated(index@, forest_of(seen)).edges.contains(id) == (id.dependent
                        is None && is_updated_root(index@, seen, id.dependency)));
                    if id.dependent is None {
                        assert(id == root_edge(id.dependency));
                    }
                }
                assert(edge_ids(edges@) =~= updated(index@, forest_of(more)).edges);
            }
            k += 1;
        }
        proof {
            assert(all.take(all.len() as int) =~= all);
            assert(updated(index@, forest_of(edge_ids(all))) =~= updated(index@, self.forest()));
        }
        Ok(ActionBuilder { snapshot: self.snapshot, bottles, dependencies: edges })
    }

    /// Brings the forest to a state that can be reached: every dependency
    /// of a current bottle is drawn in, then every bottle that nothing holds
    /// on to is removed.
    ///
    /// Fails with `UnknownFormula` when nothing stands for some dependency;
    /// the error names such a dependency.
    pub fn fix_dependencies(self, index: &FormulaIndex) -> (fixed: Result<Self, Error>)
        requires
            self.wf(),
            index.wf(),
        ensures
            match fixed {
                Ok(builder) => !closure_fails(index@, self.forest()) && builder.wf()
                    && builder.forest() == target_forest(index@, self.forest())
                    && builder.snapshot() == self.snapshot(),
                Err(e) => exists|name: Seq<char>|
                    unresolved(index@, self.forest().bottles, name) && e@
                        == Failure::UnknownFormula(name),
            },
    {
        let mut builder = self;
        let ghost start = builder.forest();
        match add_dependencies(index, &mut builder.bottles, &mut builder.dependencies) {
            Ok(()) => {},
            Err(e) => {
                proof {
                    let name = choose|name: Seq<char>|
                        unresolved(index@, start.bottles, name) && e@ == Failure::UnknownFormula(
                            name,
                        );
                    assert(unresolved(index@, self.forest().bottles, name));
                }
                return Err(e);
            },
        }
        let (bottles, dependencies) = remove_orphans(&builder.bottles, &builder.dependencies);
        Ok(ActionBuilder { snapshot: builder.snapshot, bottles, dependencies })
    }

    /// Works out what is to be done: fixes the dependencies, compares the
    /// forest with the snapshot, and checks that each bottle to add can
    /// still be had.
    ///
    /// With nothing to add and nothing to remove the outcome is
    /// `NoWorkToDo`. Otherwise the bottles to add are checked in order, and
    /// the first that cannot be had decides the error.
    pub fn run(self, index: &FormulaIndex) -> (outcome: Result<Plan, Error>)
        requires
            self.wf(),
            index.wf(),
        ensures
            match outcome {
                Ok(plan) => {
                    &&& !closure_fails(index@, self.forest())
                    &&& plan.wf()
                    &&& plan.forest() == target_forest(index@, self.forest())
                    &&& ids(plan.to_add@) == plan.forest().bottles.difference(
                        self.snapshot().forest().bottles,
                    )
                    &&& ids(plan.to_remove@) == self.snapshot().forest().bottles.difference(
                        plan.forest().bottles,
                    )
                    &&& plan.to_add@.len() + plan.to_remove@.len() > 0
                    &&& first_violation(index@, plan.to_add@, plan.to_add@.len()) is None
                },
                Err(e) => {
                    ||| exists|name: Seq<char>|
                        unresolved(index@, self.forest().bottles, name) && e@
                            == Failure::UnknownFormula(name)
                    ||| {
                        &&& !closure_fails(index@, self.forest())
                        &&& target_forest(index@, self.forest()).bottles
                            == self.snapshot().forest().bottles
                        &&& e@ == Failure::NoWorkToDo
                    }
                    ||| exists|to_add: Seq<BottleRef>|
                        {
                            &&& !closure_fails(index@, self.forest())
                            &&& sorted_refs(to_add)
                            &&& ids(to_add) == target_forest(
                                index@,
                                self.forest(),
                            ).bottles.difference(self.snapshot().forest().bottles)
                            &&& #[trigger] first_violation(index@, to_add, to_add.len()) == Some(e@)
                        }
                },
            },
    {
        let ghost before = self.snapshot().forest().bottles;
        let builder = match self.fix_dependencies(index) {
            Ok(builder) => builder,
            Err(e) => {
                return Err(e);
            },
        };
        let ghost after = builder.forest().bottles;
        let (to_add, to_remove) = diff_bottles(&builder.snapshot.refs, &builder.bottles);
        if to_add.len() == 0 && to_remove.len() == 0 {
            proof {
                lemma_ids_of_empty(to_add@);
                lemma_ids_of_empty(to_remove@);
                assert(after =~= before) by {
                    assert forall|id: BottleId| after.contains(id) == before.contains(id) by {
                        if after.contains(id) && !before.contains(id) {
                            assert(after.difference(before).contains(id));
                        }
                        if before.contains(id) && !after.contains(id) {
                            assert(before.difference(after).contains(id));
                        }
                    }
                }
            }
            return Err(Error::NoWorkToDo);
        }
        match validate_additions(index, &to_add) {
            Ok(()) => {},
            Err(e) => {
                return Err(e);
            },
        }
        Ok(Plan { to_add, to_remove, bottles: builder.bottles, dependencies: builder.dependencies })
    }
}

/// Nothing stands for some dependency that the closure looks at.
pub open spec fn closure_fails(index: Seq<Formula>, forest: Forest) -> bool {
    exists|name: Seq<char>| unresolved(index, forest.bottles, name)
}

/// The forest that planning arrives at: closed over the dependencies of its
/// current bottles, then rid of the bottles that nothing holds on to.
pub open spec fn target_forest(index: Seq<Formula>, forest: Forest) -> Forest {
    pruned(
        Forest {
            bottles: closed_bottles(index, forest.bottles),
            edges: closed_edges(index, forest.bottles, forest.edges),
        },
    )
}

/// Why the bottle `id` cannot be had from the index, if it cannot.
pub open spec fn violation(index: Seq<Formula>, id: BottleId) -> Option<Failure> {
    match exact_position(index, id.name) {
        None => Some(Failure::UnknownFormula(id.name)),
        Some(p) => if index[p].versions.stable@ != id.version {
            Some(Failure::UnavailableVersion(id.name))
        } else if !index[p].versions.bottle {
            Some(Failure::NoBottle(id.name))
        } else {
            None
        },
    }
}

/// The violation of the first of the leading `n` bottles that has one.
pub open spec fn first_violation(index: Seq<Formula>, bottles: Seq<BottleRef>, n: nat) -> Option<
    Failure,
>
    decreases n,
{
    if n == 0 {
        None
    } else {
        match first_violation(index, bottles, (n - 1) as nat) {
            Some(failure) => Some(failure),
            None => violation(index, bottles[n - 1]@),
        }
    }
}

/// A violation among the leading bottles is the first violation of the
/// whole list.
pub proof fn lemma_first_violation_stays(
    index: Seq<Formula>,
    bottles: Seq<BottleRef>,
    n: nat,
    m: nat,
)
    requires
        n <= m,
        first_violation(index, bottles, n) is Some,
    ensures
        first_violation(index, bottles, m) == first_violation(index, bottles, n),
    decreases m,
{
    if n < m {
        lemma_first_violation_stays(index, bottles, n, (m - 1) as nat);
    }
}

/// Checks that each bottle to add can be had: that the index holds its
/// formula, that its version is still the stable one, and that a bottle of
/// it exists.
pub fn validate_additions(index: &FormulaIndex, to_add: &Vec<BottleRef>) -> (outcome: Result<
    (),
    Error,
>)
    requires
        index.wf(),
    ensures
        match outcome {
            Ok(()) => first_violation(index@, to_add@, to_add@.len()) is None,
            Err(e) => first_violation(index@, to_add@, to_add@.len()) == Some(e@),
        },
{
    let mut i: usize = 0;
    while i < to_add.len()
        invariant
            i <= to_add@.len(),
            index.wf(),
            first_violation(index@, to_add@, i as nat) is None,
        decreases to_add@.len() - i,
    {
        let bottle = &to_add[i];
        proof {
            lemma_position_in_range(index@, bottle.name@);
        }
        let failure = match index.position_exact(bottle.name.as_str()) {
            None => Some(Error::UnknownFormula(bottle.name.clone())),
            Some(p) => {
                let formula = index.at(p);
                if !same_str(formula.versions.stable.as_str(), bottle.version.as_str()) {
                    Some(Error::UnavailableVersion(bottle.name.clone()))
                } else if !formula.versions.bottle {
                    Some(Error::NoBottle(bottle.name.clone()))
                } else {
                    None
                }
            },
        };
        if let Some(e) = failure {
            proof {
                assert(first_violation(index@, to_add@, (i + 1) as nat) == Some(e@));
                lemma_first_violation_stays(index@, to_add@, (i + 1) as nat, to_add@.len());
            }
            return Err(e);
        }
        i += 1;
    }
    Ok(())
}

/// What is to be done: the bottles to download and the bottles to remove,
/// and the forest that the catalog is to record afterwards.
#[derive(Debug)]
pub struct Plan {
    pub to_add: Vec<BottleRef>,
    pub to_remove: Vec<BottleRef>,
    pub bottles: Vec<BottleRef>,
    pub dependencies: Vec<Edge>,
}

impl Plan {
    /// The forest that the plan arrives at.
    pub open spec fn forest(&self) -> Forest {
        Forest { bottles: ids(self.bottles@), edges: edge_ids(self.dependencies@) }
    }

    /// Each list is sorted.
    pub open spec fn wf(&self) -> bool {
        &&& sorted_refs(self.to_add@)
        &&& sorted_refs(self.to_remove@)
        &&& sorted_refs(self.bottles@)
        &&& sorted_edges(self.dependencies@)
    }
}

/// A forest of the given edges and no bottles.
pub open spec fn forest_of(edges: Set<EdgeId>) -> Forest {
    Forest { bottles: Set::empty(), edges }
}

/// The bottles to add and the bottles to remove, to get from `before` to
/// `after`: what only `after` holds, and what only `before` holds.
pub fn diff_bottles(before: &Vec<BottleRef>, after: &Vec<BottleRef>) -> (diff: (
    Vec<BottleRef>,
    Vec<BottleRef>,
))
    requires
        sorted_refs(before@),
        sorted_refs(after@),
    ensures
        sorted_refs(diff.0@),
        sorted_refs(diff.1@),
        ids(diff.0@) == ids(after@).difference(ids(before@)),
        ids(diff.1@) == ids(before@).difference(ids(after@)),
{
    (difference(after, before), difference(before, after))
}

/// A failure among the leading aliases is the failure of the whole list.
pub proof fn lemma_remove_each_prefix_failure(
    index: Seq<Formula>,
    forest: Forest,
    aliases: Seq<String>,
    n: int,
)
    requires
        0 <= n <= aliases.len(),
        remove_each(index, forest, aliases.take(n)) is Err,
    ensures
        remove_each(index, forest, aliases) == remove_each(index, forest, aliases.take(n)),
    decreases aliases.len() - n,
{
    if n < aliases.len() {
        assert(aliases.take(n + 1).drop_last() =~= aliases.take(n));
        lemma_remove_each_prefix_failure(index, forest, aliases, n + 1);
    } else {
        assert(aliases.take(n) =~= aliases);
    }
}

/// A failure among the leading names is the failure of the whole list.
pub proof fn lemma_add_all_prefix_failure(
    index: Seq<Formula>,
    forest: Forest,
    names: Seq<String>,
    n: int,
)
    requires
        0 <= n <= names.len(),
        add_all(index, forest, names.take(n)) is Err,
    ensures
        add_all(index, forest, names) == add_all(index, forest, names.take(n)),
    decreases names.len() - n,
{
    if n < names.len() {
        assert(names.take(n + 1).drop_last() =~= names.take(n));
        lemma_add_all_prefix_failure(index, forest, names, n + 1);
    } else {
        assert(names.take(n) =~= names);
    }
}

} // verus!
