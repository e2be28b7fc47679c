//! The package index: formulae, and their lookup by name and by alias.

use vstd::prelude::*;
use crate::aliases::{build, is_alias_index, lookup, AliasEntry};
use crate::bottles::Bottles;
use crate::error::{Error, Failure};
use crate::text::{
    compare_str, lemma_str_lt_trans, lemma_str_order_equal, lemma_str_order_flip, str_lt,
    Order,
};

verus! {

/// A package as the upstream index describes it.
#[derive(Clone, Debug)]
pub struct Formula {
    pub name: String,
    pub aliases: Vec<String>,
    pub dependencies: Vec<String>,
    pub versions: Versions,
    pub bottle: Bottles,
}

/// The versions of a formula that the index offers.
#[derive(Clone, Debug)]
pub struct Versions {
    /// The current stable version.
    pub stable: String,
    /// Whether a prebuilt bottle of the stable version exists.
    pub bottle: bool,
}

/// The formula list of the upstream index, sorted by name, with the index
/// of its aliases.
#[derive(Clone, Debug)]
pub struct FormulaIndex {
    formulae: Vec<Formula>,
    aliases: Vec<AliasEntry>,
}

/// The names of `formulae` increase strictly from each formula to the next.
pub open spec fn sorted_by_name(formulae: Seq<Formula>) -> bool {
    forall|i: int, j: int|
        0 <= i < j < formulae.len() ==> str_lt(
            #[trigger] formulae[i].name@,
            #[trigger] formulae[j].name@,
        )
}

/// `formula` goes by `alias`.
pub open spec fn has_alias(formula: Formula, alias: Seq<char>) -> bool {
    exists|k: int| 0 <= k < formula.aliases@.len() && #[trigger] formula.aliases@[k]@ == alias
}

/// The position of the first of the leading `n` formulae that is named `name`.
pub open spec fn find_name(formulae: Seq<Formula>, name: Seq<char>, n: nat) -> Option<int>
    decreases n,
{
    if n == 0 {
        None
    } else {
        match find_name(formulae, name, (n - 1) as nat) {
            Some(i) => Some(i),
            None => if formulae[n - 1].name@ == name {
                Some(n - 1)
            } else {
                None
            },
        }
    }
}

/// The position of the first of the leading `n` formulae that goes by `alias`.
pub open spec fn find_alias(formulae: Seq<Formula>, alias: Seq<char>, n: nat) -> Option<int>
    decreases n,
{
    if n == 0 {
        None
    } else {
        match find_alias(formulae, alias, (n - 1) as nat) {
            Some(i) => Some(i),
            None => if has_alias(formulae[n - 1], alias) {
                Some(n - 1)
            } else {
                None
            },
        }
    }
}

/// The position of the formula named `name`, if there is one.
pub open spec fn exact_position(formulae: Seq<Formula>, name: Seq<char>) -> Option<int> {
    find_name(formulae, name, formulae.len())
}

/// The position of the first formula that goes by `alias`, if there is one.
pub open spec fn alias_position(formulae: Seq<Formula>, alias: Seq<char>) -> Option<int> {
    find_alias(formulae, alias, formulae.len())
}

/// The position of the formula that `name` stands for: the one of that exact
/// name, else the first one with that alias.
pub open spec fn position(formulae: Seq<Formula>, name: Seq<char>) -> Option<int> {
    match exact_position(formulae, name) {
        Some(i) => Some(i),
        None => alias_position(formulae, name),
    }
}

/// What `find_name` finds is the first formula of the name, and it finds
/// one if there is one.
pub proof fn lemma_find_name(formulae: Seq<Formula>, name: Seq<char>, n: nat)
    requires
        n <= formulae.len(),
    ensures
        match find_name(formulae, name, n) {
            Some(i) => 0 <= i < n && formulae[i].name@ == name && forall|j: int|
                0 <= j < i ==> formulae[j].name@ != name,
            None => forall|j: int| 0 <= j < n ==> formulae[j].name@ != name,
        },
    decreases n,
{
    if n > 0 {
        lemma_find_name(formulae, name, (n - 1) as nat);
    }
}

/// What `find_alias` finds is the first formula with the alias, and it
/// finds one if there is one.
pub proof fn lemma_find_alias(formulae: Seq<Formula>, alias: Seq<char>, n: nat)
    requires
        n <= formulae.len(),
    ensures
        match find_alias(formulae, alias, n) {
            Some(i) => 0 <= i < n && has_alias(formulae[i], alias) && forall|j: int|
                0 <= j < i ==> !has_alias(formulae[j], alias),
            None => forall|j: int| 0 <= j < n ==> !has_alias(formulae[j], alias),
        },
    decreases n,
{
    if n > 0 {
        lemma_find_alias(formulae, alias, (n - 1) as nat);
    }
}

/// A position that `position` gives lies within the list.
pub proof fn lemma_position_in_range(formulae: Seq<Formula>, name: Seq<char>)
    ensures
        exact_position(formulae, name) matches Some(i) ==> 0 <= i < formulae.len()
            && formulae[i].name@ == name,
        alias_position(formulae, name) matches Some(i) ==> 0 <= i < formulae.len(),
        position(formulae, name) matches Some(i) ==> 0 <= i < formulae.len(),
{
    lemma_find_name(formulae, name, formulae.len());
    lemma_find_alias(formulae, name, formulae.len());
}

/// In a sorted list at most one formula has a given name.
pub proof fn lemma_names_distinct(formulae: Seq<Formula>, i: int, j: int)
    requires
        sorted_by_name(formulae),
        0 <= i < formulae.len(),
        0 <= j < formulae.len(),
        formulae[i].name@ == formulae[j].name@,
    ensures
        i == j,
{
    lemma_str_order_equal(formulae[i].name@, formulae[j].name@);
}

/// In a sorted list a formula is found under its own name.
pub proof fn lemma_exact_position_of_member(formulae: Seq<Formula>, i: int)
    requires
        sorted_by_name(formulae),
        0 <= i < formulae.len(),
    ensures
        exact_position(formulae, formulae[i].name@) == Some(i),
{
    let name = formulae[i].name@;
    lemma_find_name(formulae, name, formulae.len());
    match exact_position(formulae, name) {
        Some(j) => {
            lemma_names_distinct(formulae, i, j);
        },
        None => {},
    }
}

/// No two formulae of the list share a name.
pub open spec fn distinct_names(formulae: Seq<Formula>) -> bool {
    forall|i: int, j: int|
        0 <= i < j < formulae.len() ==> (#[trigger] formulae[i]).name@ != (
        #[trigger] formulae[j]).name@
}

/// A sorted list has no name twice.
pub proof fn lemma_sorted_is_distinct(formulae: Seq<Formula>)
    requires
        sorted_by_name(formulae),
    ensures
        distinct_names(formulae),
{
    assert forall|i: int, j: int| 0 <= i < j < formulae.len() implies (
    #[trigger] formulae[i]).name@ != (#[trigger] formulae[j]).name@ by {
        lemma_str_order_equal(formulae[i].name@, formulae[j].name@);
    }
}

/// Whether the names increase strictly from each formula to the next.
fn is_sorted(formulae: &Vec<Formula>) -> (sorted: bool)
    ensures
        sorted == sorted_by_name(formulae@),
{
    let mut i: usize = 1;
    while i < formulae.len()
        invariant
            1 <= i,
            forall|a: int, b: int|
                0 <= a < b < i && b < formulae@.len() ==> str_lt(
                    #[trigger] formulae@[a].name@,
                    #[trigger] formulae@[b].name@,
                ),
        decreases formulae@.len() - i,
    {
        let order = compare_str(formulae[i - 1].name.as_str(), formulae[i].name.as_str());
        if order != Order::Less {
            assert(!str_lt(formulae@[i - 1].name@, formulae@[i as int].name@));
            return false;
        }
        proof {
            assert forall|a: int, b: int| 0 <= a < b < i + 1 && b < formulae@.len() implies str_lt(
                #[trigger] formulae@[a].name@,
                #[trigger] formulae@[b].name@,
            ) by {
                if b == i && a < i - 1 {
                    lemma_str_lt_trans(
                        formulae@[a].name@,
                        formulae@[i - 1].name@,
                        formulae@[i as int].name@,
                    );
                }
            }
        }
        i += 1;
    }
    true
}

/// The first position in the sorted list whose name does not sort before
/// `name`.
fn name_bound(formulae: &Vec<Formula>, name: &str) -> (at: usize)
    requires
        sorted_by_name(formulae@),
    ensures
        at <= formulae@.len(),
        forall|j: int| 0 <= j < at ==> str_lt((#[trigger] formulae@[j]).name@, name@),
        forall|j: int| at <= j < formulae@.len() ==> !str_lt((#[trigger] formulae@[j]).name@, name@),
{
    let mut lo: usize = 0;
    let mut hi: usize = formulae.len();
    while lo < hi
        invariant
            lo <= hi <= formulae@.len(),
            sorted_by_name(formulae@),
            forall|j: int| 0 <= j < lo ==> str_lt((#[trigger] formulae@[j]).name@, name@),
            forall|j: int|
                hi <= j < formulae@.len() ==> !str_lt((#[trigger] formulae@[j]).name@, name@),
        decreases hi - lo,
    {
        let mid = lo + (hi - lo) / 2;
        if compare_str(formulae[mid].name.as_str(), name) == Order::Less {
            proof {
                assert forall|j: int| 0 <= j < mid + 1 implies str_lt(
                    (#[trigger] formulae@[j]).name@,
                    name@,
                ) by {
                    if j < mid {
                        assert(str_lt(formulae@[j].name@, formulae@[mid as int].name@));
                        lemma_str_lt_trans(formulae@[j].name@, formulae@[mid as int].name@, name@);
                    }
                }
            }
            lo = mid + 1;
        } else {
            proof {
                assert forall|j: int| mid <= j < formulae@.len() implies !str_lt(
                    (#[trigger] formulae@[j]).name@,
                    name@,
                ) by {
                    if mid < j && str_lt(formulae@[j].name@, name@) {
                        assert(str_lt(formulae@[mid as int].name@, formulae@[j].name@));
                        lemma_str_lt_trans(formulae@[mid as int].name@, formulae@[j].name@, name@);
                    }
                }
            }
            hi = mid;
        }
    }
    lo
}

/// Sorts a formula list by name, by putting each formula in its place
/// among those that are sorted already. A list in which two formulae share
/// a name is not sorted.
fn sort_by_name(formulae: Vec<Formula>) -> (sorted: Option<Vec<Formula>>)
    ensures
        distinct_names(formulae@) <==> sorted is Some,
        sorted matches Some(list) ==> sorted_by_name(list@) && list@.to_multiset()
            == formulae@.to_multiset(),
{
    let ghost all = formulae@;
    let mut rest = formulae;
    let mut list: Vec<Formula> = Vec::new();
    proof {
        assert(list@.to_multiset().add(rest@.to_multiset()) =~= all.to_multiset()) by {
            list@.to_multiset_ensures();
            assert(list@.to_multiset() =~= vstd::multiset::Multiset::<Formula>::empty());
        }
    }
    while rest.len() > 0
        invariant
            all == formulae@,
            rest@ == all.take(rest@.len() as int),
            rest@.len() <= all.len(),
            sorted_by_name(list@),
            list@.to_multiset().add(rest@.to_multiset()) == all.to_multiset(),
            forall|k: int|
                0 <= k < list@.len() ==> exists|j: int|
                    rest@.len() <= j < all.len() && #[trigger] list@[k] == #[trigger] all[j],
            forall|j: int| rest@.len() <= j < all.len() ==> list@.contains(#[trigger] all[j]),
            forall|i: int, j: int|
                rest@.len() <= i < j < all.len() ==> (#[trigger] all[i]).name@ != (
                #[trigger] all[j]).name@,
        decreases rest@.len(),
    {
        let ghost before = list@;
        let ghost waiting = rest@;
        let formula = rest.pop().unwrap();
        let ghost r = rest@.len() as int;
        proof {
            assert(formula == all[r]);
            assert(waiting =~= rest@.push(formula));
            vstd::seq_lib::to_multiset_build(rest@, formula);
            assert(rest@ =~= all.take(r));
        }
        let at = name_bound(&list, formula.name.as_str());
        if at < list.len() && compare_str(list[at].name.as_str(), formula.name.as_str())
            == Order::Equal {
            proof {
                let j = choose|j: int|
                    waiting.len() <= j < all.len() && #[trigger] before[at as int] == #[trigger] all[j];
                lemma_str_order_equal(before[at as int].name@, formula.name@);
                assert(all[r].name@ == all[j].name@ && r < j);
            }
            return None;
        }
        proof {
            vstd::seq_lib::to_multiset_insert(before, at as int, formula);
            assert forall|j: int| at <= j < before.len() implies str_lt(
                formula.name@,
                (#[trigger] before[j]).name@,
            ) by {
                lemma_str_order_flip(before[j].name@, formula.name@);
                lemma_str_order_flip(formula.name@, before[j].name@);
                lemma_str_order_equal(before[j].name@, formula.name@);
                if j > at {
                    lemma_str_order_flip(before[at as int].name@, formula.name@);
                    lemma_str_order_equal(before[at as int].name@, formula.name@);
                    if before[j].name@ == formula.name@ {
                        assert(str_lt(before[at as int].name@, before[j].name@));
                    }
                }
            }
        }
        list.insert(at, formula);
        proof {
            let after = list@;
            assert(forall|j: int| 0 <= j < at ==> after[j] == before[j]);
            assert(after[at as int] == formula);
            assert(forall|j: int| at < j < after.len() ==> after[j] == before[j - 1]);
            assert forall|a: int, b: int| 0 <= a < b < after.len() implies str_lt(
                #[trigger] after[a].name@,
                #[trigger] after[b].name@,
            ) by {
                if b < at {
                    assert(str_lt(before[a].name@, before[b].name@));
                } else if b == at {
                    assert(str_lt(before[a].name@, formula.name@));
                } else if a < at {
                    assert(str_lt(before[a].name@, before[b - 1].name@));
                } else if a == at {
                    assert(str_lt(formula.name@, before[b - 1].name@));
                } else {
                    assert(str_lt(before[a - 1].name@, before[b - 1].name@));
                }
            }
            assert(after.to_multiset().add(rest@.to_multiset()) =~= all.to_multiset());
            assert forall|j: int| r <= j < all.len() implies after.contains(#[trigger] all[j]) by {
                if j == r {
                    assert(after[at as int] == all[j]);
                } else {
                    let k = choose|k: int| 0 <= k < before.len() && before[k] == all[j];
                    if k < at {
                        assert(after[k] == all[j]);
                    } else {
                        assert(after[k + 1] == all[j]);
                    }
                }
            }
            assert forall|i: int, j: int| r <= i < j < all.len() implies (#[trigger] all[i]).name@
                != (#[trigger] all[j]).name@ by {
                if i == r {
                    let k = choose|k: int| 0 <= k < before.len() && before[k] == all[j];
                    if k < at {
                        assert(str_lt(before[k].name@, formula.name@));
                    } else {
                        assert(str_lt(formula.name@, before[k].name@));
                    }
                    lemma_str_order_equal(before[k].name@, formula.name@);
                    lemma_str_order_equal(formula.name@, before[k].name@);
                }
            }
            assert forall|k: int| 0 <= k < after.len() implies exists|j: int|
                rest@.len() <= j < all.len() && #[trigger] after[k] == #[trigger] all[j] by {
                if k == at {
                    assert(after[k] == all[r]);
                } else {
                    let old_k = if k < at {
                        k
                    } else {
                        k - 1
                    };
                    let j = choose|j: int|
                        waiting.len() <= j < all.len() && #[trigger] before[old_k] == #[trigger] all[j];
                    assert(after[k] == all[j]);
                }
            }
        }
    }
    proof {
        assert(rest@.to_multiset() =~= vstd::multiset::Multiset::<Formula>::empty()) by {
            rest@.to_multiset_ensures();
        }
        assert(list@.to_multiset().add(rest@.to_multiset()) =~= list@.to_multiset());
    }
    Some(list)
}

impl View for FormulaIndex {
    type V = Seq<Formula>;

    closed spec fn view(&self) -> Seq<Formula> {
        self.formulae@
    }
}

impl FormulaIndex {
    /// The list is sorted by name, so that no two formulae share a name,
    /// and the alias index is that of the list.
    pub open spec fn wf(&self) -> bool {
        sorted_by_name(self@) && self.aliases_indexed()
    }

    /// The alias index is that of the list.
    pub closed spec fn aliases_indexed(&self) -> bool {
        is_alias_index(self.aliases@, self.formulae@)
    }

    /// Builds the index over a formula list.
    ///
    /// The list is sorted by name, unless it comes sorted, as the upstream
    /// index serves it; then it is taken as it is. The index holds just
    /// the formulae of the list. A list in which two formulae share a name
    /// is refused.
    pub fn new(formulae: Vec<Formula>) -> (index: Option<FormulaIndex>)
        ensures
            distinct_names(formulae@) <==> index is Some,
            index matches Some(built) ==> built.wf() && built@.to_multiset()
                == formulae@.to_multiset(),
            sorted_by_name(formulae@) ==> (index matches Some(built) && built@ == formulae@),
    {
        let formulae = if is_sorted(&formulae) {
            proof {
                lemma_sorted_is_distinct(formulae@);
            }
            formulae
        } else {
            match sort_by_name(formulae) {
                Some(sorted) => sorted,
                None => {
                    return None;
                },
            }
        };
        let aliases = build(&formulae);
        Some(FormulaIndex { formulae, aliases })
    }

    /// The full formula list, sorted by name.
    pub fn all(&self) -> (formulae: &Vec<Formula>)
        ensures
            formulae@ == self@,
    {
        &self.formulae
    }

    /// The position of the formula named `name`, found by binary search.
    pub fn position_exact(&self, name: &str) -> (found: Option<usize>)
        requires
            self.wf(),
        ensures
            found matches Some(i) ==> i < self@.len(),
            exact_position(self@, name@) == match found {
                Some(i) => Some(i as int),
                None => None,
            },
    {
        let mut lo: usize = 0;
        let mut hi: usize = self.formulae.len();
        while lo < hi
            invariant
                lo <= hi <= self@.len(),
                self.wf(),
                self@ == self.formulae@,
                forall|j: int| 0 <= j < lo ==> str_lt(#[trigger] self@[j].name@, name@),
                forall|j: int| hi <= j < self@.len() ==> str_lt(name@, #[trigger] self@[j].name@),
            decreases hi - lo,
        {
            let mid = lo + (hi - lo) / 2;
            let order = compare_str(self.formulae[mid].name.as_str(), name);
            proof {
                lemma_str_order_flip(self@[mid as int].name@, name@);
            }
            match order {
                Order::Equal => {
                    proof {
                        lemma_find_name(self@, name@, self@.len());
                        match exact_position(self@, name@) {
                            Some(j) => {
                                lemma_names_distinct(self@, mid as int, j);
                            },
                            None => {},
                        }
                    }
                    return Some(mid);
                },
                Order::Less => {
                    proof {
                        assert forall|j: int| 0 <= j < mid + 1 implies str_lt(
                            #[trigger] self@[j].name@,
                            name@,
                        ) by {
                            if j < mid {
                                lemma_str_lt_trans(self@[j].name@, self@[mid as int].name@, name@);
                            }
                        }
                    }
                    lo = mid + 1;
                },
                Order::Greater => {
                    proof {
                        assert forall|j: int| mid <= j < self@.len() implies str_lt(
                            name@,
                            #[trigger] self@[j].name@,
                        ) by {
                            if mid < j {
                                lemma_str_lt_trans(name@, self@[mid as int].name@, self@[j].name@);
                            }
                        }
                    }
                    hi = mid;
                },
            }
        }
        proof {
            lemma_find_name(self@, name@, self@.len());
            assert forall|j: int| 0 <= j < self@.len() implies self@[j].name@ != name@ by {
                lemma_str_order_equal(self@[j].name@, name@);
                lemma_str_order_flip(self@[j].name@, name@);
            }
        }
        None
    }

    /// The position of the first formula that goes by `alias`, found by
    /// binary search in the alias index.
    pub fn position_by_alias(&self, alias: &str) -> (found: Option<usize>)
        requires
            self.wf(),
        ensures
            found matches Some(i) ==> i < self@.len(),
            alias_position(self@, alias@) == match found {
                Some(i) => Some(i as int),
                None => None,
            },
    {
        lookup(&self.aliases, &self.formulae, alias)
    }

    /// The position of the formula that `name` stands for, as a name or
    /// else as an alias.
    pub fn position(&self, name: &str) -> (found: Option<usize>)
        requires
            self.wf(),
        ensures
            found matches Some(i) ==> i < self@.len(),
            position(self@, name@) == match found {
                Some(i) => Some(i as int),
                None => None,
            },
    {
        match self.position_exact(name) {
            Some(i) => Some(i),
            None => self.position_by_alias(name),
        }
    }

    /// The formula at position `i`.
    pub fn at(&self, i: usize) -> (formula: &Formula)
        requires
            i < self@.len(),
        ensures
            *formula == self@[i as int],
    {
        &self.formulae[i]
    }

    /// How many formulae the index holds.
    pub fn len(&self) -> (n: usize)
        ensures
            n == self@.len(),
    {
        self.formulae.len()
    }
}

impl Formula {
    /// The full formula list of the index, sorted by name.
    pub fn all(index: &FormulaIndex) -> (formulae: &Vec<Formula>)
        ensures
            formulae@ == index@,
            index.wf() ==> sorted_by_name(formulae@),
    {
        index.all()
    }

    /// Looks a formula up by its exact name.
    pub fn get_exact<'a>(index: &'a FormulaIndex, name: &str) -> (found: Result<&'a Formula, Error>)
        requires
            index.wf(),
        ensures
            match exact_position(index@, name@) {
                Some(i) => found == Ok::<&Formula, Error>(&index@[i]),
                None => found matches Err(e) && e@ == Failure::UnknownFormula(name@),
            },
    {
        match index.position_exact(name) {
            Some(i) => Ok(index.at(i)),
            None => Err(Error::UnknownFormula(name.to_owned())),
        }
    }

    /// Looks a formula up by one of its aliases.
    pub fn get_by_alias<'a>(index: &'a FormulaIndex, alias: &str) -> (found: Result<
        &'a Formula,
        Error,
    >)
        requires
            index.wf(),
        ensures
            match alias_position(index@, alias@) {
                Some(i) => found == Ok::<&Formula, Error>(&index@[i]),
                None => found matches Err(e) && e@ == Failure::UnknownFormula(alias@),
            },
    {
        match index.position_by_alias(alias) {
            Some(i) => Ok(index.at(i)),
            None => Err(Error::UnknownFormula(alias.to_owned())),
        }
    }

    /// Looks a formula up by its exact name, else by alias.
    pub fn get<'a>(index: &'a FormulaIndex, name: &str) -> (found: Result<&'a Formula, Error>)
        requires
            index.wf(),
        ensures
            match position(index@, name@) {
                Some(i) => found == Ok::<&Formula, Error>(&index@[i]),
                None => found matches Err(e) && e@ == Failure::UnknownFormula(name@),
            },
    {
        match index.position(name) {
            Some(i) => Ok(index.at(i)),
            None => Err(Error::UnknownFormula(name.to_owned())),
        }
    }
}

} // verus!
